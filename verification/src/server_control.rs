//! What the server does with packets, with the controller's news of the network
//! and with commands of the user.
use crate::changes::{json_ids, list_view, parse_json_ids};
use crate::channels::SharedSenders;
use crate::fragment::{message_text, received_text};
use crate::journal::{as_lines, one_line};
use crate::packet::{
    has_id, outbox, remove_id, without_id, BodyView, Fragment, HeaderView, NodeId, NodeType,
    Outgoing, OutgoingView, Packet, PacketType, PacketView, SourceRoutingHeader,
};
use crate::server::{
    all_sent, messages_of, nack_handled, server, trace_linked, ServerView,
};
use crate::server_network::{node_removed, GraphView};
use crate::server_requests::{message_handled, tagged2};
use crate::text::{
    after, all_parts, begins_with, id_number, join3, parse_id, parts, split_all, split_parts,
    starts_with, strip_prefix, texts,
};
use vstd::prelude::*;

verus! {

/// A fragment has been handled, and the message that it completes. `lines` go to the
/// simulation log.
pub open spec fn fragment_handled(
    a: ServerView,
    b: ServerView,
    session: u64,
    f: Fragment,
    h: HeaderView,
    added: Seq<OutgoingView>,
    lines: Seq<Seq<char>>,
) -> bool {
    let key = (session, h.hops[0]);
    let m = a.after_fragment(key, f);
    if a.completes(key, f) {
        message_handled(m, b, key.1, session, received_text(a.completed(key, f)), added, lines)
    } else {
        b == m && added == Seq::<OutgoingView>::empty() && lines == Seq::<Seq<char>>::empty()
    }
}

/// The server can take a packet in: a fragment says where it comes from and has a
/// slot.
pub open spec fn packet_fits(a: ServerView, p: PacketView) -> bool {
    match p.body {
        BodyView::MsgFragment(f) => p.header.hops.len() > 0 && a.fragment_fits(
            (p.session_id, p.header.hops[0]),
            f,
        ),
        _ => true,
    }
}

/// A packet has been handled. The receipt of a fragment leaves before anything
/// else. `lines` go to the simulation log.
pub open spec fn packet_handled(
    a: ServerView,
    b: ServerView,
    p: PacketView,
    added: Seq<OutgoingView>,
    lines: Seq<Seq<char>>,
) -> bool {
    let silent = lines == Seq::<Seq<char>>::empty();
    match p.body {
        BodyView::MsgFragment(f) => {
            let ack = a.ack(p, f.fragment_index);
            &&& ack.len() <= added.len()
            &&& added.subrange(0, ack.len() as int) == ack
            &&& fragment_handled(
                a,
                b,
                p.session_id,
                f,
                p.header,
                added.subrange(ack.len() as int, added.len() as int),
                lines,
            )
        },
        BodyView::Nack(n) => nack_handled(a, b, n, p.session_id, p.header, added) && lines
            == as_lines(a.nack_line(n, p.header)),
        BodyView::Ack(_) => b == a && added == Seq::<OutgoingView>::empty() && silent,
        BodyView::FloodRequest(r) => b == a.after_flood_request(r) && added == a.flood_answer(
            r,
            p.session_id,
        ) && silent,
        BodyView::FloodResponse(r) => b == (ServerView {
            net: trace_linked(a.net, r.path_trace, r.path_trace.len() as int),
            ..a
        }) && added == Seq::<OutgoingView>::empty() && silent,
    }
}

/// A packet that came by way of the controller has been handled: only nacks and
/// flood responses count.
pub open spec fn shortcut_handled(
    a: ServerView,
    b: ServerView,
    p: PacketView,
    added: Seq<OutgoingView>,
    lines: Seq<Seq<char>>,
) -> bool {
    match p.body {
        BodyView::Nack(_) | BodyView::FloodResponse(_) => packet_handled(a, b, p, added, lines),
        _ => b == a && added == Seq::<OutgoingView>::empty() && lines == Seq::<Seq<char>>::empty(),
    }
}

/// What has changed in the network.
#[derive(Debug)]
pub enum ServerChange {
    RemoveSender(NodeId, NodeId),
    AddSender(NodeId, NodeId),
    SpawnDrone(NodeId, Vec<NodeId>),
    /// A node is gone, where its id can be read.
    Crash(Option<NodeId>),
    Unknown,
}

#[verifier::ext_equal]
pub enum ServerChangeView {
    RemoveSender(NodeId, NodeId),
    AddSender(NodeId, NodeId),
    SpawnDrone(NodeId, Seq<NodeId>),
    Crash(Option<NodeId>),
    Unknown,
}

impl View for ServerChange {
    type V = ServerChangeView;

    open spec fn view(&self) -> ServerChangeView {
        match self {
            ServerChange::RemoveSender(a, b) => ServerChangeView::RemoveSender(*a, *b),
            ServerChange::AddSender(a, b) => ServerChangeView::AddSender(*a, *b),
            ServerChange::SpawnDrone(a, p) => ServerChangeView::SpawnDrone(*a, p@),
            ServerChange::Crash(a) => ServerChangeView::Crash(*a),
            ServerChange::Unknown => ServerChangeView::Unknown,
        }
    }
}

/// The two ids behind the first of three parts.
pub open spec fn ids_behind(action: Seq<char>) -> Option<(NodeId, NodeId)> {
    let p = all_parts(action);
    if p.len() == 3 {
        match (id_number(p[1]), id_number(p[2])) {
            (Some(a), Some(b)) => Some((a, b)),
            _ => None,
        }
    } else {
        None
    }
}

/// A drone and its peers, given how the list of peers was read.
pub open spec fn spawn_read(drone: Option<NodeId>, peers: Option<Seq<NodeId>>) -> ServerChangeView {
    match (drone, peers) {
        (Some(d), Some(p)) => ServerChangeView::SpawnDrone(d, p),
        _ => ServerChangeView::Unknown,
    }
}

/// The change that an action names.
pub open spec fn server_change_of(action: Seq<char>) -> ServerChangeView {
    if begins_with(action, "RemoveSender::"@) {
        match ids_behind(action) {
            Some((a, b)) => ServerChangeView::RemoveSender(a, b),
            None => ServerChangeView::Unknown,
        }
    } else if begins_with(action, "AddSender::"@) {
        match ids_behind(action) {
            Some((a, b)) => ServerChangeView::AddSender(a, b),
            None => ServerChangeView::Unknown,
        }
    } else if begins_with(action, "SpawnDrone::"@) {
        let p = all_parts(action);
        if p.len() == 3 {
            spawn_read(id_number(p[1]), json_ids(p[2]))
        } else {
            ServerChangeView::Unknown
        }
    } else if begins_with(action, "Crash"@) {
        let p = all_parts(action);
        ServerChangeView::Crash(
            if p.len() == 2 {
                id_number(p[1])
            } else {
                None
            },
        )
    } else {
        ServerChangeView::Unknown
    }
}

/// The channels once a drone has been linked to those of its first `n` peers that
/// are neighbours.
pub open spec fn spawned_channels(
    c: Set<(NodeId, NodeId)>,
    neighbours: Seq<NodeId>,
    drone: NodeId,
    peers: Seq<NodeId>,
    n: int,
) -> Set<(NodeId, NodeId)>
    decreases n,
{
    if n <= 0 {
        c
    } else {
        let before = spawned_channels(c, neighbours, drone, peers, n - 1);
        let peer = peers[n - 1];
        if neighbours.contains(peer) {
            before.insert((drone, peer)).insert((peer, drone))
        } else {
            before
        }
    }
}

/// The graph once a drone has been linked to those of its first `n` peers whose
/// type is known.
pub open spec fn spawned_links(net: GraphView, drone: NodeId, peers: Seq<NodeId>, n: int) -> GraphView
    decreases n,
{
    if n <= 0 {
        net
    } else {
        let before = spawned_links(net, drone, peers, n - 1);
        let peer = peers[n - 1];
        if before.types.contains_key(peer) {
            before.with_link(drone, NodeType::Drone, peer, before.types[peer])
        } else {
            before
        }
    }
}

impl ServerView {
    /// The other end of a link that the server is an end of.
    pub open spec fn peer_of(self, x: NodeId, y: NodeId) -> Option<NodeId> {
        if self.id == x {
            Some(y)
        } else if self.id == y {
            Some(x)
        } else {
            None
        }
    }

    /// The type of a node, a drone where it is unknown.
    pub open spec fn type_or_drone(self, id: NodeId) -> NodeType {
        if self.net.types.contains_key(id) {
            self.net.types[id]
        } else {
            NodeType::Drone
        }
    }

    /// The server with a neighbour that a channel leads to.
    pub open spec fn with_neighbour(self, id: NodeId) -> ServerView {
        match self.channels {
            Some(c) => if !self.neighbours.contains(id) && c.contains((self.id, id)) {
                ServerView { neighbours: self.neighbours.push(id), ..self }
            } else {
                self
            },
            None => self,
        }
    }

    /// The server after two nodes have been separated.
    pub open spec fn separated(self, a: NodeId, b: NodeId) -> ServerView {
        let net = self.net.without_link(a, b);
        match self.peer_of(a, b) {
            Some(peer) => ServerView {
                net,
                neighbours: without_id(self.neighbours, peer),
                channels: match self.channels {
                    Some(c) => Some(c.remove((self.id, peer)).remove((peer, self.id))),
                    None => None,
                },
                ..self
            },
            None => ServerView { net, ..self },
        }
    }

    /// The channels after two nodes have been linked.
    pub open spec fn linked_channels(self, a: NodeId, b: NodeId) -> Option<Set<(NodeId, NodeId)>> {
        match self.channels {
            Some(c) => {
                let first = if self.neighbours.contains(b) {
                    c.insert((a, b))
                } else {
                    c
                };
                Some(
                    if self.neighbours.contains(a) {
                        first.insert((b, a))
                    } else {
                        first
                    },
                )
            },
            None => None,
        }
    }

    /// The server after two nodes have been linked.
    pub open spec fn linked(self, a: NodeId, b: NodeId) -> ServerView {
        let m = ServerView {
            channels: self.linked_channels(a, b),
            net: self.net.with_link(a, self.type_or_drone(a), b, self.type_or_drone(b)),
            ..self
        };
        match self.peer_of(a, b) {
            Some(peer) => m.with_neighbour(peer),
            None => m,
        }
    }

    /// The server after a drone has joined.
    pub open spec fn joined_by(self, drone: NodeId, peers: Seq<NodeId>) -> ServerView {
        let typed = if self.net.types.contains_key(drone) {
            self.net
        } else {
            GraphView { types: self.net.types.insert(drone, NodeType::Drone), ..self.net }
        };
        ServerView {
            channels: match self.channels {
                Some(c) => Some(
                    spawned_channels(c, self.neighbours, drone, peers, peers.len() as int),
                ),
                None => None,
            },
            net: spawned_links(typed, drone, peers, peers.len() as int),
            ..self
        }.with_neighbour(drone)
    }
}

/// A change of the network has been taken in, and a flood started. The server
/// starts two of them after a crash.
pub open spec fn server_change_handled(
    a: ServerView,
    b: ServerView,
    c: ServerChangeView,
    added: Seq<OutgoingView>,
) -> bool {
    match c {
        ServerChangeView::RemoveSender(x, y) => b == a.separated(x, y) && b.is_discovery(added),
        ServerChangeView::AddSender(x, y) => b == a.linked(x, y) && b.is_discovery(added),
        ServerChangeView::SpawnDrone(d, peers) => b == a.joined_by(d, peers) && b.is_discovery(added),
        ServerChangeView::Crash(Some(d)) => {
            &&& node_removed(a.net, b.net, d)
            &&& b == (ServerView {
                net: b.net,
                neighbours: without_id(a.neighbours, d),
                ..a
            })
            &&& exists|cut: int|
                0 <= cut <= added.len() && #[trigger] b.is_discovery(added.subrange(0, cut))
                    && b.is_discovery(added.subrange(cut, added.len() as int))
        },
        ServerChangeView::Crash(None) => b == a && b.is_discovery(added),
        ServerChangeView::Unknown => b == a && added == Seq::<OutgoingView>::empty(),
    }
}

/// A command of the user or news of the controller has been handled.
pub open spec fn gui_handled(
    a: ServerView,
    b: ServerView,
    message: Seq<char>,
    added: Seq<OutgoingView>,
) -> bool {
    if begins_with(message, "[MediaBroadcast]::"@) {
        let p = parts(after(message, "[MediaBroadcast]::"@.len() as int), 2);
        if p.len() == 2 {
            all_sent(
                ServerView { media: a.media.insert(p[0], (a.id, p[1])), ..a },
                b,
                0,
                a.clients.map_values(
                    |id: NodeId| (id, tagged2("[MediaDownloadResponse]"@, p[0], p[1])),
                ),
                added,
            )
        } else {
            b == a && added == Seq::<OutgoingView>::empty()
        }
    } else if begins_with(message, "[FloodRequired]::"@) {
        server_change_handled(
            a,
            b,
            server_change_of(after(message, "[FloodRequired]::"@.len() as int)),
            added,
        )
    } else {
        b == a && added == Seq::<OutgoingView>::empty()
    }
}

fn read_ids_behind(action: &str) -> (r: Option<(NodeId, NodeId)>)
    ensures
        r == ids_behind(action@),
{
    let p: Vec<String> = split_all(action);
    proof {
        assert(texts(p@) == all_parts(action@));
        assert forall|i: int| 0 <= i < p@.len() implies #[trigger] p@[i]@ == all_parts(action@)[i] by {
            assert(texts(p@)[i] == p@[i]@);
        }
    }
    if p.len() == 3 {
        match (parse_id(p[1].as_str()), parse_id(p[2].as_str())) {
            (Some(a), Some(b)) => Some((a, b)),
            _ => None,
        }
    } else {
        None
    }
}

/// A drone and its peers, given how the list of peers was read.
pub fn spawn_server_change(drone: Option<NodeId>, peers: Option<Vec<NodeId>>) -> (r: ServerChange)
    ensures
        r@ == spawn_read(drone, list_view(peers)),
{
    match (drone, peers) {
        (Some(d), Some(p)) => ServerChange::SpawnDrone(d, p),
        _ => ServerChange::Unknown,
    }
}

/// The change that an action names.
pub fn read_server_change(action: &str) -> (r: ServerChange)
    ensures
        r@ == server_change_of(action@),
{
    if starts_with(action, "RemoveSender::") {
        return match read_ids_behind(action) {
            Some((a, b)) => ServerChange::RemoveSender(a, b),
            None => ServerChange::Unknown,
        };
    }
    if starts_with(action, "AddSender::") {
        return match read_ids_behind(action) {
            Some((a, b)) => ServerChange::AddSender(a, b),
            None => ServerChange::Unknown,
        };
    }
    let spawn: bool = starts_with(action, "SpawnDrone::");
    let crash: bool = starts_with(action, "Crash");
    if !spawn && !crash {
        return ServerChange::Unknown;
    }
    let p: Vec<String> = split_all(action);
    proof {
        assert(texts(p@) == all_parts(action@));
        assert forall|i: int| 0 <= i < p@.len() implies #[trigger] p@[i]@ == all_parts(action@)[i] by {
            assert(texts(p@)[i] == p@[i]@);
        }
    }
    if spawn {
        if p.len() == 3 {
            let drone: Option<NodeId> = parse_id(p[1].as_str());
            let peers: Option<Vec<NodeId>> = parse_json_ids(p[2].as_str());
            return spawn_server_change(drone, peers);
        }
        return ServerChange::Unknown;
    }
    if p.len() == 2 {
        ServerChange::Crash(parse_id(p[1].as_str()))
    } else {
        ServerChange::Crash(None)
    }
}

impl server {
    /// Handles a fragment, and the message that it completes; returns the lines for the
    /// simulation log.
    pub fn handle_fragment(
        &mut self,
        session_id: u64,
        fragment: &Fragment,
        header: &SourceRoutingHeader,
        out: &mut Vec<Outgoing>,
    ) -> (r: Vec<String>)
        requires
            old(self).wf(),
            header@.hops.len() > 0,
            old(self)@.fragment_fits((session_id, header@.hops[0]), *fragment),
        ensures
            final(self).wf(),
            exists|added: Seq<OutgoingView>|
                {
                    &&& #[trigger] fragment_handled(
                        old(self)@,
                        final(self)@,
                        session_id,
                        *fragment,
                        header@,
                        added,
                        texts(r@),
                    )
                    &&& outbox(final(out)@) == outbox(old(out)@) + added
                },
    {
        let ghost a = self@;
        let ghost posted = outbox(out@);
        let client: NodeId = header.hops[0];
        match self.store_fragment((session_id, client), fragment) {
            Some(message) => {
                let ghost m = self@;
                let text: String = message_text(&message);
                let lines: Vec<String> = self.handle_complete_message(
                    client,
                    session_id,
                    text.as_str(),
                    out,
                );
                proof {
                    let added = choose|added: Seq<OutgoingView>|
                        {
                            &&& #[trigger] message_handled(
                                m,
                                self@,
                                client,
                                session_id,
                                text@,
                                added,
                                texts(lines@),
                            )
                            &&& outbox(out@) == posted + added
                        };
                    assert(fragment_handled(
                        a,
                        self@,
                        session_id,
                        *fragment,
                        header@,
                        added,
                        texts(lines@),
                    ));
                }
                lines
            },
            None => {
                let lines: Vec<String> = Vec::new();
                proof {
                    let added = Seq::<OutgoingView>::empty();
                    assert(outbox(out@) =~= posted + added);
                    assert(texts(lines@) =~= Seq::<Seq<char>>::empty());
                    assert(fragment_handled(
                        a,
                        self@,
                        session_id,
                        *fragment,
                        header@,
                        added,
                        texts(lines@),
                    ));
                }
                lines
            },
        }
    }

    /// Whether the server can take a packet in.
    pub fn can_process(&self, packet: &Packet) -> (r: bool)
        requires
            self.wf(),
        ensures
            r == packet_fits(self@, packet@),
    {
        match &packet.pack_type {
            PacketType::MsgFragment(f) => {
                if packet.routing_header.hops.len() == 0 {
                    return false;
                }
                let key: (u64, u8) = (packet.session_id, packet.routing_header.hops[0]);
                match self.received_fragments.get(&key) {
                    Some(s) => {
                        assert(self@.partial.contains_key(key));
                        f.fragment_index < s.len() as u64 && (s[f.fragment_index as usize].is_some()
                            || f.total_n_fragments >= 1)
                    },
                    None => {
                        assert(!self@.partial.contains_key(key));
                        f.fragment_index < f.total_n_fragments && f.total_n_fragments
                            <= isize::MAX as u64
                    },
                }
            },
            _ => true,
        }
    }

    /// Handles a packet; returns the lines for the simulation log.
    pub fn process_packet(&mut self, packet: &Packet, out: &mut Vec<Outgoing>) -> (r: Vec<String>)
        requires
            old(self).wf(),
            packet_fits(old(self)@, packet@),
        ensures
            final(self).wf(),
            exists|added: Seq<OutgoingView>|
                {
                    &&& #[trigger] packet_handled(
                        old(self)@,
                        final(self)@,
                        packet@,
                        added,
                        texts(r@),
                    )
                    &&& outbox(final(out)@) == outbox(old(out)@) + added
                },
    {
        let ghost a = self@;
        let ghost posted = outbox(out@);
        let ghost nothing = Seq::<OutgoingView>::empty();
        let silent: Vec<String> = Vec::new();
        assert(posted =~= posted + nothing);
        assert(texts(silent@) =~= Seq::<Seq<char>>::empty());
        match &packet.pack_type {
            PacketType::MsgFragment(fragment) => {
                self.send_ack(packet, fragment, out);
                let ghost ack = a.ack(packet@, fragment.fragment_index);
                let ghost middle = outbox(out@);
                let lines: Vec<String> = self.handle_fragment(
                    packet.session_id,
                    fragment,
                    &packet.routing_header,
                    out,
                );
                proof {
                    let rest = choose|rest: Seq<OutgoingView>|
                        {
                            &&& #[trigger] fragment_handled(
                                a,
                                self@,
                                packet.session_id,
                                *fragment,
                                packet@.header,
                                rest,
                                texts(lines@),
                            )
                            &&& outbox(out@) == middle + rest
                        };
                    let added = ack + rest;
                    assert(added.subrange(0, ack.len() as int) =~= ack);
                    assert(added.subrange(ack.len() as int, added.len() as int) =~= rest);
                    assert(outbox(out@) =~= posted + added);
                    assert(packet_handled(a, self@, packet@, added, texts(lines@)));
                }
                lines
            },
            PacketType::Nack(nack) => {
                let lines: Vec<String> = match self.nack_log(nack, &packet.routing_header) {
                    Some(line) => one_line(line),
                    None => silent,
                };
                self.handle_nack(packet.session_id, nack, &packet.routing_header, out);
                proof {
                    let added = choose|added: Seq<OutgoingView>|
                        {
                            &&& #[trigger] nack_handled(
                                a,
                                self@,
                                *nack,
                                packet.session_id,
                                packet@.header,
                                added,
                            )
                            &&& outbox(out@) == posted + added
                        };
                    assert(packet_handled(a, self@, packet@, added, texts(lines@)));
                }
                lines
            },
            PacketType::Ack(_) => {
                assert(packet_handled(a, self@, packet@, nothing, texts(silent@)));
                silent
            },
            PacketType::FloodRequest(request) => {
                self.handle_flood_request(packet.session_id, request, out);
                assert(packet_handled(
                    a,
                    self@,
                    packet@,
                    a.flood_answer(request@, packet.session_id),
                    texts(silent@),
                ));
                silent
            },
            PacketType::FloodResponse(response) => {
                self.handle_flood_response(response);
                assert(packet_handled(a, self@, packet@, nothing, texts(silent@)));
                silent
            },
        }
    }

    /// Handles a packet that came by way of the controller; returns the lines for the
    /// simulation log.
    pub fn process_shortcut(&mut self, packet: &Packet, out: &mut Vec<Outgoing>) -> (r: Vec<String>)
        requires
            old(self).wf(),
        ensures
            final(self).wf(),
            exists|added: Seq<OutgoingView>|
                {
                    &&& #[trigger] shortcut_handled(
                        old(self)@,
                        final(self)@,
                        packet@,
                        added,
                        texts(r@),
                    )
                    &&& outbox(final(out)@) == outbox(old(out)@) + added
                },
    {
        let ghost a = self@;
        let ghost nothing = Seq::<OutgoingView>::empty();
        assert(outbox(out@) =~= outbox(out@) + nothing);
        let counts: bool = match &packet.pack_type {
            PacketType::Nack(_) => true,
            PacketType::FloodResponse(_) => true,
            _ => false,
        };
        if counts {
            let lines: Vec<String> = self.process_packet(packet, out);
            proof {
                let added = choose|added: Seq<OutgoingView>|
                    {
                        &&& #[trigger] packet_handled(a, self@, packet@, added, texts(lines@))
                        &&& outbox(out@) == outbox(old(out)@) + added
                    };
                assert(shortcut_handled(a, self@, packet@, added, texts(lines@)));
            }
            lines
        } else {
            let lines: Vec<String> = Vec::new();
            assert(texts(lines@) =~= Seq::<Seq<char>>::empty());
            assert(shortcut_handled(a, self@, packet@, nothing, texts(lines@)));
            lines
        }
    }

    fn take_neighbour(&mut self, id: NodeId)
        requires
            old(self).wf(),
        ensures
            final(self).wf(),
            final(self)@ == old(self)@.with_neighbour(id),
    {
        let channel: bool = match &self.shared_senders {
            Some(s) => s.contains(self.id, id),
            None => false,
        };
        if channel && !has_id(&self.packet_sender, id) {
            self.packet_sender.push(id);
        }
        assert(self@ =~= old(self)@.with_neighbour(id));
    }

    fn drop_neighbour(&mut self, id: NodeId)
        requires
            old(self).wf(),
        ensures
            final(self).wf(),
            final(self)@ == (ServerView {
                neighbours: without_id(old(self)@.neighbours, id),
                ..old(self)@
            }),
    {
        self.packet_sender = remove_id(&self.packet_sender, id);
        proof {
            crate::packet::lemma_without_id(old(self).packet_sender@, id);
            assert(self@ =~= ServerView {
                neighbours: without_id(old(self)@.neighbours, id),
                ..old(self)@
            });
        }
    }

    fn separate(&mut self, a: NodeId, b: NodeId)
        requires
            old(self).wf(),
        ensures
            final(self).wf(),
            final(self)@ == old(self)@.separated(a, b),
    {
        if self.id == a || self.id == b {
            let peer: NodeId = if self.id == a {
                b
            } else {
                a
            };
            self.drop_neighbour(peer);
            if let Some(shared) = &mut self.shared_senders {
                shared.remove(self.id, peer);
                shared.remove(peer, self.id);
            }
        }
        self.network_graph.remove_link(a, b);
        assert(self@ =~= old(self)@.separated(a, b));
    }

    fn link(&mut self, a: NodeId, b: NodeId)
        requires
            old(self).wf(),
        ensures
            final(self).wf(),
            final(self)@ == old(self)@.linked(a, b),
    {
        let near_a: bool = has_id(&self.packet_sender, a);
        let near_b: bool = has_id(&self.packet_sender, b);
        if let Some(shared) = &mut self.shared_senders {
            if near_b {
                shared.insert(a, b);
            }
            if near_a {
                shared.insert(b, a);
            }
        }
        let ta: NodeType = match self.network_graph.get_node_type(a) {
            Some(t) => t,
            None => NodeType::Drone,
        };
        let tb: NodeType = match self.network_graph.get_node_type(b) {
            Some(t) => t,
            None => NodeType::Drone,
        };
        self.network_graph.add_link(a, ta, b, tb);
        let ghost m = ServerView {
            channels: old(self)@.linked_channels(a, b),
            net: old(self)@.net.with_link(
                a,
                old(self)@.type_or_drone(a),
                b,
                old(self)@.type_or_drone(b),
            ),
            ..old(self)@
        };
        assert(self@.channels =~= m.channels);
        assert(self@ =~= m);
        if self.id == a || self.id == b {
            let peer: NodeId = if self.id == a {
                b
            } else {
                a
            };
            self.take_neighbour(peer);
        }
    }

    fn spawn_links(&mut self, drone: NodeId, peers: &Vec<NodeId>)
        requires
            old(self).wf(),
        ensures
            final(self).wf(),
            final(self)@ == (ServerView {
                net: spawned_links(old(self)@.net, drone, peers@, peers@.len() as int),
                ..old(self)@
            }),
    {
        let mut i: usize = 0;
        while i < peers.len()
            invariant
                self.wf(),
                i <= peers@.len(),
                self@ == (ServerView {
                    net: spawned_links(old(self)@.net, drone, peers@, i as int),
                    ..old(self)@
                }),
            decreases peers@.len() - i,
        {
            let peer: NodeId = peers[i];
            if let Some(t) = self.network_graph.get_node_type(peer) {
                self.network_graph.add_link(drone, NodeType::Drone, peer, t);
            }
            i = i + 1;
            assert(self@ =~= ServerView {
                net: spawned_links(old(self)@.net, drone, peers@, i as int),
                ..old(self)@
            });
        }
    }

    fn spawn_channels(&mut self, drone: NodeId, peers: &Vec<NodeId>)
        requires
            old(self).wf(),
        ensures
            final(self).wf(),
            final(self)@ == (ServerView {
                channels: match old(self)@.channels {
                    Some(c) => Some(
                        spawned_channels(
                            c,
                            old(self)@.neighbours,
                            drone,
                            peers@,
                            peers@.len() as int,
                        ),
                    ),
                    None => None,
                },
                ..old(self)@
            }),
    {
        let mut shared: Option<SharedSenders> = None;
        std::mem::swap(&mut shared, &mut self.shared_senders);
        let ghost a = old(self)@;
        if let Some(mut channels) = shared {
            let mut i: usize = 0;
            while i < peers.len()
                invariant
                    i <= peers@.len(),
                    self.packet_sender@ == a.neighbours,
                    a.channels is Some,
                    channels@ == spawned_channels(
                        a.channels->0,
                        a.neighbours,
                        drone,
                        peers@,
                        i as int,
                    ),
                decreases peers@.len() - i,
            {
                let peer: NodeId = peers[i];
                if has_id(&self.packet_sender, peer) {
                    channels.insert(drone, peer);
                    channels.insert(peer, drone);
                }
                i = i + 1;
            }
            self.shared_senders = Some(channels);
        }
        assert(self@ =~= ServerView { channels: self@.channels, ..a });
    }

    fn join_drone(&mut self, drone: NodeId, peers: &Vec<NodeId>)
        requires
            old(self).wf(),
        ensures
            final(self).wf(),
            final(self)@ == old(self)@.joined_by(drone, peers@),
    {
        let ghost a = self@;
        self.spawn_channels(drone, peers);
        if self.network_graph.get_node_type(drone).is_none() {
            self.network_graph.set_node_type(drone, NodeType::Drone);
        }
        let ghost typed = self@.net;
        self.spawn_links(drone, peers);
        let ghost m = ServerView {
            channels: match a.channels {
                Some(c) => Some(
                    spawned_channels(c, a.neighbours, drone, peers@, peers@.len() as int),
                ),
                None => None,
            },
            net: spawned_links(typed, drone, peers@, peers@.len() as int),
            ..a
        };
        assert(self@ =~= m);
        self.take_neighbour(drone);
        assert(self@ == a.joined_by(drone, peers@));
    }

    /// Takes a change of the network in.
    pub fn process_change(&mut self, change: &ServerChange, out: &mut Vec<Outgoing>)
        requires
            old(self).wf(),
        ensures
            final(self).wf(),
            exists|added: Seq<OutgoingView>|
                {
                    &&& #[trigger] server_change_handled(
                        old(self)@,
                        final(self)@,
                        change@,
                        added,
                    )
                    &&& outbox(final(out)@) == outbox(old(out)@) + added
                },
    {
        let ghost a = self@;
        let ghost posted = outbox(out@);
        let ghost nothing = Seq::<OutgoingView>::empty();
        assert(posted =~= posted + nothing);
        let mut crashed: bool = false;
        match change {
            ServerChange::RemoveSender(x, y) => {
                self.separate(*x, *y);
            },
            ServerChange::AddSender(x, y) => {
                self.link(*x, *y);
            },
            ServerChange::SpawnDrone(d, peers) => {
                self.join_drone(*d, peers);
            },
            ServerChange::Crash(d) => {
                if let Some(d) = d {
                    let d: NodeId = *d;
                    self.network_graph.remove_node(d);
                    self.drop_neighbour(d);
                    crashed = true;
                    assert(self@ =~= ServerView {
                        net: self@.net,
                        neighbours: without_id(a.neighbours, d),
                        ..a
                    });
                }
            },
            ServerChange::Unknown => {
                assert(server_change_handled(a, self@, change@, nothing));
                return;
            },
        }
        let ghost b = self@;
        self.initiate_network_discovery(out);
        let ghost first = choose|added: Seq<OutgoingView>|
            {
                &&& #[trigger] b.is_discovery(added)
                &&& outbox(out@) == posted + added
            };
        if crashed {
            let ghost middle = outbox(out@);
            self.initiate_network_discovery(out);
            proof {
                let second = choose|added: Seq<OutgoingView>|
                    {
                        &&& #[trigger] b.is_discovery(added)
                        &&& outbox(out@) == middle + added
                    };
                let added = first + second;
                let cut = first.len() as int;
                assert(added.subrange(0, cut) =~= first);
                assert(added.subrange(cut, added.len() as int) =~= second);
                assert(outbox(out@) =~= posted + added);
                assert(b.is_discovery(added.subrange(0, cut)));
                assert(server_change_handled(a, self@, change@, added));
            }
        } else {
            assert(server_change_handled(a, self@, change@, first));
        }
    }

    /// The same text for every client.
    fn message_for_all(&self, text: &str) -> (r: Vec<(NodeId, String)>)
        ensures
            messages_of(r@) == self@.clients.map_values(|id: NodeId| (id, text@)),
    {
        let mut r: Vec<(NodeId, String)> = Vec::new();
        let mut i: usize = 0;
        while i < self.registered_clients.len()
            invariant
                i <= self.registered_clients@.len(),
                r@.len() == i,
                forall|j: int|
                    0 <= j < i ==> (#[trigger] r@[j]).0 == self.registered_clients@[j] && r@[j].1@
                        == text@,
            decreases self.registered_clients@.len() - i,
        {
            r.push((self.registered_clients[i], text.to_owned()));
            i = i + 1;
        }
        assert(messages_of(r@) =~= self@.clients.map_values(|id: NodeId| (id, text@)));
        r
    }

    /// Handles a command of the user or news of the controller.
    pub fn process_gui_message(&mut self, message: &str, out: &mut Vec<Outgoing>)
        requires
            old(self).wf(),
        ensures
            final(self).wf(),
            exists|added: Seq<OutgoingView>|
                {
                    &&& #[trigger] gui_handled(old(self)@, final(self)@, message@, added)
                    &&& outbox(final(out)@) == outbox(old(out)@) + added
                },
    {
        let ghost a = self@;
        let ghost posted = outbox(out@);
        let ghost nothing = Seq::<OutgoingView>::empty();
        assert(posted =~= posted + nothing);
        if let Some(rest) = strip_prefix(message, "[MediaBroadcast]::") {
            let p: Vec<String> = split_parts(rest.as_str(), 2);
            let ghost q = parts(rest@, 2);
            proof {
                assert(texts(p@) == q);
                assert forall|i: int| 0 <= i < p@.len() implies #[trigger] p@[i]@ == q[i] by {
                    assert(texts(p@)[i] == p@[i]@);
                }
            }
            if p.len() == 2 {
                let inner: String = join3(p[0].as_str(), "::", p[1].as_str());
                let text: String = join3("[MediaDownloadResponse]", "::", inner.as_str());
                self.media_storage.insert(p[0].clone(), (self.id, p[1].clone()));
                let ghost m = ServerView { media: a.media.insert(q[0], (a.id, q[1])), ..a };
                assert(self@.media =~= m.media);
                assert(self@ =~= m);
                let list: Vec<(NodeId, String)> = self.message_for_all(text.as_str());
                self.send_all(0, &list, out);
                proof {
                    let added = choose|added: Seq<OutgoingView>|
                        {
                            &&& #[trigger] all_sent(m, self@, 0, messages_of(list@), added)
                            &&& outbox(out@) == posted + added
                        };
                    assert(messages_of(list@) =~= a.clients.map_values(
                        |id: NodeId| (id, tagged2("[MediaDownloadResponse]"@, q[0], q[1])),
                    ));
                    assert(gui_handled(a, self@, message@, added));
                }
            } else {
                assert(gui_handled(a, self@, message@, nothing));
            }
            return;
        }
        if let Some(rest) = strip_prefix(message, "[FloodRequired]::") {
            let change: ServerChange = read_server_change(rest.as_str());
            self.process_change(&change, out);
            proof {
                let added = choose|added: Seq<OutgoingView>|
                    {
                        &&& #[trigger] server_change_handled(a, self@, change@, added)
                        &&& outbox(out@) == posted + added
                    };
                assert(gui_handled(a, self@, message@, added));
            }
            return;
        }
        assert(gui_handled(a, self@, message@, nothing));
    }
}

}
