//! The chat server.
use crate::channels::{channels_of, mentioned, SharedSenders};
use crate::client1::fragment_packet;
use crate::floods::FloodSet;
use crate::fragment::{are_chunks, fragment_bytes};
use crate::known_network::ids_view;
use crate::packet::{
    copy_ids, has_id, outbox, post, post_each, remove_id, response_to, reversed_ids, to_each,
    without_id, Ack, BodyView, FloodRequest, FloodRequestView, FloodResponse, Fragment, HeaderView,
    Nack, NackType, NodeId, NodeType, Outgoing, OutgoingView, Packet, PacketType, PacketView,
    SourceRoutingHeader,
};
use crate::server_network::{node_removed, GraphView, NetworkGraph};
use crate::tables::Table;
use crate::text::texts;
use vstd::prelude::*;
use vstd::string::*;
use vstd::utf8::encode_utf8;

verus! {

/// The channels that the graph of a server goes by: those of the server itself, or others
/// or none.
#[derive(Debug)]
pub enum GraphChannels {
    Shared,
    Own(Option<SharedSenders>),
}

#[verifier::ext_equal]
pub enum GraphChannelsView {
    Shared,
    Own(Option<Set<(NodeId, NodeId)>>),
}

impl View for GraphChannels {
    type V = GraphChannelsView;

    open spec fn view(&self) -> GraphChannelsView {
        match self {
            GraphChannels::Shared => GraphChannelsView::Shared,
            GraphChannels::Own(s) => GraphChannelsView::Own(channels_of(*s)),
        }
    }
}

/// A server.
#[allow(non_camel_case_types)]
#[derive(Debug)]
pub struct server {
    pub id: NodeId,
    /// What has arrived of messages, by session and sender.
    pub received_fragments: Table<(u64, u8), Vec<Option<[u8; 128]>>>,
    /// Length of the last fragment, by session and sender.
    pub fragment_lengths: Table<(u64, u8), u8>,
    /// The neighbours to which a channel leads.
    pub packet_sender: Vec<NodeId>,
    pub seen_floods: FloodSet,
    pub registered_clients: Vec<NodeId>,
    pub network_graph: NetworkGraph,
    /// Fragments that have been sent, with their target, by session and index.
    pub sent_fragments: Table<(u64, u64), (Fragment, NodeId)>,
    pub chat_history: Table<(u8, u8), Vec<String>>,
    /// Media files in base64 with their owner, by name.
    pub media_storage: Table<String, (NodeId, String)>,
    pub shared_senders: Option<SharedSenders>,
    pub graph_channels: GraphChannels,
}

#[verifier::ext_equal]
pub struct ServerView {
    pub id: NodeId,
    pub partial: Map<(u64, u8), Seq<Option<[u8; 128]>>>,
    pub lengths: Map<(u64, u8), u8>,
    pub neighbours: Seq<NodeId>,
    pub seen: Set<(u64, NodeId)>,
    pub clients: Seq<NodeId>,
    pub net: GraphView,
    pub sent: Map<(u64, u64), (Fragment, NodeId)>,
    pub history: Map<(u8, u8), Seq<Seq<char>>>,
    pub media: Map<Seq<char>, (NodeId, Seq<char>)>,
    pub channels: Option<Set<(NodeId, NodeId)>>,
    pub graph_channels: GraphChannelsView,
}

impl View for server {
    type V = ServerView;

    open spec fn view(&self) -> ServerView {
        ServerView {
            id: self.id,
            partial: self.received_fragments@.map_values(|v: Vec<Option<[u8; 128]>>| v@),
            lengths: self.fragment_lengths@,
            neighbours: self.packet_sender@,
            seen: self.seen_floods@,
            clients: self.registered_clients@,
            net: self.network_graph@,
            sent: self.sent_fragments@,
            history: self.chat_history@.map_values(|v: Vec<String>| texts(v@)),
            media: self.media_storage@.map_values(|v: (NodeId, String)| (v.0, v.1@)),
            channels: channels_of(self.shared_senders),
            graph_channels: self.graph_channels@,
        }
    }
}

impl ServerView {
    /// The graph is well formed, and neighbours and clients are listed once.
    pub open spec fn wf(self) -> bool {
        &&& self.net.wf()
        &&& self.neighbours.no_duplicates()
        &&& self.clients.no_duplicates()
    }

    /// The channels by which links are forgotten.
    pub open spec fn known_channels(self) -> Option<Set<(NodeId, NodeId)>> {
        match self.graph_channels {
            GraphChannelsView::Shared => self.channels,
            GraphChannelsView::Own(c) => c,
        }
    }

    /// The server with other channels of its own. The graph stays with those that it had.
    pub open spec fn with_channels(self, channels: Option<Set<(NodeId, NodeId)>>) -> ServerView {
        ServerView {
            channels,
            graph_channels: GraphChannelsView::Own(self.known_channels()),
            ..self
        }
    }

    /// What leaves for a node: the packet, where a channel leads there.
    pub open spec fn sending(self, to: NodeId, packet: PacketView) -> Seq<OutgoingView> {
        if self.neighbours.contains(to) {
            seq![OutgoingView { to, packet }]
        } else {
            Seq::empty()
        }
    }

    /// What leaves along the hops of a packet: the packet, for its second hop.
    pub open spec fn forwarding(self, packet: PacketView) -> Seq<OutgoingView> {
        if packet.header.hops.len() > 1 {
            self.sending(packet.header.hops[1], packet)
        } else {
            Seq::empty()
        }
    }

    /// The neighbours of a known type.
    pub open spec fn typed_neighbours(self) -> Seq<NodeId> {
        self.neighbours.filter(|id: NodeId| self.net.types.contains_key(id))
    }

    /// The requests that start a flood, for the neighbours of a known type.
    pub open spec fn discovery(self, flood_id: u64) -> Seq<OutgoingView> {
        to_each(
            self.typed_neighbours(),
            PacketView {
                body: BodyView::FloodRequest(
                    FloodRequestView {
                        flood_id,
                        initiator_id: self.id,
                        path_trace: seq![(self.id, NodeType::Server)],
                    },
                ),
                header: HeaderView { hop_index: 0, hops: Seq::empty() },
                session_id: flood_id,
            },
        )
    }

    /// The packets that start a flood under some id.
    pub open spec fn is_discovery(self, added: Seq<OutgoingView>) -> bool {
        exists|flood_id: u64| added == #[trigger] self.discovery(flood_id)
    }

    /// What leaves upon a fragment: its receipt, the way that the fragment came.
    pub open spec fn ack(self, p: PacketView, fragment_index: u64) -> Seq<OutgoingView> {
        self.forwarding(
            PacketView {
                body: BodyView::Ack(Ack { fragment_index }),
                header: HeaderView { hop_index: 1, hops: p.header.hops.reverse() },
                session_id: p.session_id,
            },
        )
    }

    /// The server after a flood request.
    pub open spec fn after_flood_request(self, r: FloodRequestView) -> ServerView {
        ServerView { seen: self.seen.insert((r.flood_id, r.initiator_id)), ..self }
    }

    /// What leaves upon a flood request: a response, where the flood has been seen
    /// before, else the request for the other neighbours.
    pub open spec fn flood_answer(self, r: FloodRequestView, session_id: u64) -> Seq<OutgoingView> {
        let longer = FloodRequestView {
            path_trace: r.path_trace.push((self.id, NodeType::Server)),
            ..r
        };
        if self.seen.contains((r.flood_id, r.initiator_id)) {
            self.forwarding(response_to(longer, session_id, 1))
        } else {
            let others = if r.path_trace.len() > 0 {
                without_id(self.neighbours, r.path_trace.last().0)
            } else {
                self.neighbours
            };
            to_each(
                others,
                PacketView {
                    body: BodyView::FloodRequest(longer),
                    header: HeaderView { hop_index: 0, hops: Seq::empty() },
                    session_id,
                },
            )
        }
    }

    /// The server once a message has been sent in fragments.
    pub open spec fn message_sent(
        self,
        session: u64,
        target: NodeId,
        fragments: Seq<Fragment>,
    ) -> ServerView {
        ServerView {
            sent: kept_fragments(self.sent, session, target, fragments, fragments.len() as int),
            ..self
        }
    }

    /// The packets that carry the fragments of a message along a path.
    pub open spec fn fragment_packets(
        self,
        path: Seq<NodeId>,
        fragments: Seq<Fragment>,
        session: u64,
    ) -> Seq<OutgoingView> {
        if path.len() > 1 && self.neighbours.contains(path[1]) {
            fragments.map_values(
                |f: Fragment|
                    OutgoingView { to: path[1], packet: fragment_packet(path, f, session) },
            )
        } else {
            Seq::empty()
        }
    }
}

/// The sent fragments with the first `n` of `fragments` among them.
pub open spec fn kept_fragments(
    sent: Map<(u64, u64), (Fragment, NodeId)>,
    session: u64,
    target: NodeId,
    fragments: Seq<Fragment>,
    n: int,
) -> Map<(u64, u64), (Fragment, NodeId)>
    decreases n,
{
    if n <= 0 {
        sent
    } else {
        kept_fragments(sent, session, target, fragments, n - 1).insert(
            (session, (n - 1) as u64),
            (fragments[n - 1], target),
        )
    }
}

/// The graph with the links of a trace, step by step.
pub open spec fn trace_linked(net: GraphView, trace: Seq<(NodeId, NodeType)>, upto: int) -> GraphView
    decreases upto,
{
    if upto <= 1 {
        net
    } else {
        trace_linked(net, trace, upto - 1).with_link(
            trace[upto - 2].0,
            trace[upto - 2].1,
            trace[upto - 1].0,
            trace[upto - 1].1,
        )
    }
}

/// The server with the graph that a search for a route leaves behind.
pub open spec fn after_search(a: ServerView, target: NodeId) -> ServerView {
    ServerView { net: a.net.after_best_path(a.id, target, a.known_channels()), ..a }
}

/// A message has been sent to a node, or dropped where there is no route. The
/// fragments are kept under the session.
pub open spec fn chat_sent(
    a: ServerView,
    b: ServerView,
    session: u64,
    target: NodeId,
    text: Seq<char>,
    added: Seq<OutgoingView>,
) -> bool {
    let m = after_search(a, target);
    exists|path: Option<Seq<NodeId>>|
        {
            &&& #[trigger] a.net.best_path_is(a.id, target, a.known_channels(), path)
            &&& match path {
                None => b == m && added == Seq::<OutgoingView>::empty(),
                Some(p) => exists|fragments: Seq<Fragment>|
                    {
                        &&& #[trigger] are_chunks(fragments, encode_utf8(text))
                        &&& b == m.message_sent(session, target, fragments)
                        &&& added == m.fragment_packets(p, fragments, session)
                    },
            }
        }
}

/// Messages have been sent one after the other.
pub open spec fn all_sent(
    a: ServerView,
    b: ServerView,
    session: u64,
    list: Seq<(NodeId, Seq<char>)>,
    added: Seq<OutgoingView>,
) -> bool
    decreases list.len(),
{
    if list.len() == 0 {
        b == a && added == Seq::<OutgoingView>::empty()
    } else {
        exists|m: ServerView, cut: int|
            {
                &&& 0 <= cut <= added.len()
                &&& all_sent(a, m, session, list.drop_last(), added.subrange(0, cut))
                &&& #[trigger] chat_sent(
                    m,
                    b,
                    session,
                    list.last().0,
                    list.last().1,
                    added.subrange(cut, added.len() as int),
                )
            }
    }
}

/// The contents of a list of messages with their targets.
pub open spec fn messages_of(list: Seq<(NodeId, String)>) -> Seq<(NodeId, Seq<char>)> {
    list.map_values(|m: (NodeId, String)| (m.0, m.1@))
}

/// `rand::random`: some number.
#[verifier::external_body]
fn random_id() -> (r: u64) {
    rand::random::<u64>()
}

impl server {
    /// The tables hold at most one value for each key.
    pub open spec fn tables_wf(&self) -> bool {
        &&& self.received_fragments.wf()
        &&& self.fragment_lengths.wf()
        &&& self.sent_fragments.wf()
        &&& self.chat_history.wf()
        &&& self.media_storage.wf()
    }

    /// The server is well formed.
    pub open spec fn wf(&self) -> bool {
        self.tables_wf() && self@.wf()
    }

    /// A server that knows nothing of the network yet. Its graph goes by the channels that
    /// it is given here.
    pub fn new(id: NodeId, packet_sender: Vec<NodeId>, shared_senders: Option<SharedSenders>) -> (r:
        Self)
        requires
            packet_sender@.no_duplicates(),
        ensures
            r.wf(),
            r@.id == id,
            r@.neighbours == packet_sender@,
            r@.channels == channels_of(shared_senders),
            r@.graph_channels == (if shared_senders is Some {
                GraphChannelsView::Shared
            } else {
                GraphChannelsView::Own(None)
            }),
            r@.partial == Map::<(u64, u8), Seq<Option<[u8; 128]>>>::empty(),
            r@.lengths == Map::<(u64, u8), u8>::empty(),
            r@.seen == Set::<(u64, NodeId)>::empty(),
            r@.clients == Seq::<NodeId>::empty(),
            r@.net.nodes == Seq::<NodeId>::empty(),
            r@.net.types == Map::<NodeId, NodeType>::empty(),
            r@.net.index == Map::<NodeId, u32>::empty(),
            r@.sent == Map::<(u64, u64), (Fragment, NodeId)>::empty(),
            r@.history == Map::<(u8, u8), Seq<Seq<char>>>::empty(),
            r@.media == Map::<Seq<char>, (NodeId, Seq<char>)>::empty(),
    {
        let graph_channels: GraphChannels = if shared_senders.is_some() {
            GraphChannels::Shared
        } else {
            GraphChannels::Own(None)
        };
        let r = server {
            id,
            received_fragments: Table::new(),
            fragment_lengths: Table::new(),
            packet_sender,
            seen_floods: FloodSet::new(),
            registered_clients: Vec::new(),
            network_graph: NetworkGraph::new(),
            sent_fragments: Table::new(),
            chat_history: Table::new(),
            media_storage: Table::new(),
            shared_senders,
            graph_channels,
        };
        assert(r@.partial =~= Map::<(u64, u8), Seq<Option<[u8; 128]>>>::empty());
        assert(r@.history =~= Map::<(u8, u8), Seq<Seq<char>>>::empty());
        assert(r@.media =~= Map::<Seq<char>, (NodeId, Seq<char>)>::empty());
        r
    }

    /// Gives the server other channels.
    pub fn attach_channels(&mut self, shared_senders: Option<SharedSenders>)
        requires
            old(self).wf(),
        ensures
            final(self).wf(),
            final(self)@ == old(self)@.with_channels(channels_of(shared_senders)),
    {
        let mut channels: Option<SharedSenders> = shared_senders;
        std::mem::swap(&mut self.shared_senders, &mut channels);
        let shared: bool = match &self.graph_channels {
            GraphChannels::Shared => true,
            GraphChannels::Own(_) => false,
        };
        if shared {
            self.graph_channels = GraphChannels::Own(channels);
        }
        assert(self@ =~= old(self)@.with_channels(channels_of(shared_senders)));
    }

    /// Posts a packet for its second hop, where a channel leads there.
    pub fn forward(&self, packet: Packet, out: &mut Vec<Outgoing>)
        ensures
            outbox(final(out)@) == outbox(old(out)@) + self@.forwarding(packet@),
    {
        if packet.routing_header.hops.len() > 1 {
            let next: NodeId = packet.routing_header.hops[1];
            if has_id(&self.packet_sender, next) {
                post(out, next, packet);
            }
        }
        assert(outbox(out@) =~= outbox(old(out)@) + self@.forwarding(packet@));
    }

    /// Starts a flood under a given id.
    pub fn discover(&self, flood_id: u64, out: &mut Vec<Outgoing>)
        ensures
            outbox(final(out)@) == outbox(old(out)@) + self@.discovery(flood_id),
    {
        let mut path_trace: Vec<(NodeId, NodeType)> = Vec::new();
        path_trace.push((self.id, NodeType::Server));
        assert(path_trace@ =~= seq![(self.id, NodeType::Server)]);
        let packet = Packet {
            pack_type: PacketType::FloodRequest(
                FloodRequest { flood_id, initiator_id: self.id, path_trace },
            ),
            routing_header: SourceRoutingHeader::empty_route(),
            session_id: flood_id,
        };
        let mut ids: Vec<NodeId> = Vec::new();
        let mut i: usize = 0;
        let ghost keep = |id: NodeId| self@.net.types.contains_key(id);
        assert(self.packet_sender@.subrange(0, 0).filter(keep) =~= Seq::<NodeId>::empty()) by {
            reveal(Seq::filter);
        }
        while i < self.packet_sender.len()
            invariant
                i <= self.packet_sender@.len(),
                keep == (|id: NodeId| self@.net.types.contains_key(id)),
                ids@ == self.packet_sender@.subrange(0, i as int).filter(keep),
            decreases self.packet_sender@.len() - i,
        {
            proof {
                reveal(Seq::filter);
                let s = self.packet_sender@.subrange(0, i + 1);
                assert(s.drop_last() =~= self.packet_sender@.subrange(0, i as int));
                assert(s.last() == self.packet_sender@[i as int]);
            }
            if self.network_graph.get_node_type(self.packet_sender[i]).is_some() {
                ids.push(self.packet_sender[i]);
            }
            i = i + 1;
        }
        assert(self.packet_sender@.subrange(0, i as int) =~= self.packet_sender@);
        assert(ids@ == self@.typed_neighbours());
        post_each(out, &ids, &packet);
    }

    /// Starts a flood under a random id.
    pub fn initiate_network_discovery(&self, out: &mut Vec<Outgoing>)
        ensures
            exists|added: Seq<OutgoingView>|
                {
                    &&& #[trigger] self@.is_discovery(added)
                    &&& outbox(final(out)@) == outbox(old(out)@) + added
                },
    {
        let flood_id: u64 = random_id();
        self.discover(flood_id, out);
        assert(self@.is_discovery(self@.discovery(flood_id)));
    }

    /// Sends the receipt of a fragment the way that the fragment came.
    pub fn send_ack(&self, packet: &Packet, fragment: &Fragment, out: &mut Vec<Outgoing>)
        ensures
            outbox(final(out)@) == outbox(old(out)@) + self@.ack(packet@, fragment.fragment_index),
    {
        let ack = Packet {
            pack_type: PacketType::Ack(Ack { fragment_index: fragment.fragment_index }),
            routing_header: SourceRoutingHeader {
                hop_index: 1,
                hops: reversed_ids(&packet.routing_header.hops),
            },
            session_id: packet.session_id,
        };
        self.forward(ack, out);
    }

    /// Answers a flood request or spreads it.
    pub fn handle_flood_request(
        &mut self,
        session_id: u64,
        request: &FloodRequest,
        out: &mut Vec<Outgoing>,
    )
        requires
            old(self).wf(),
        ensures
            final(self).wf(),
            final(self)@ == old(self)@.after_flood_request(request@),
            outbox(final(out)@) == outbox(old(out)@) + old(self)@.flood_answer(
                request@,
                session_id,
            ),
    {
        let longer: FloodRequest = request.get_incremented(self.id, NodeType::Server);
        if self.seen_floods.contains(request.flood_id, request.initiator_id) {
            let response: Packet = longer.generate_response(session_id);
            self.forward(response, out);
            proof {
                assert(self@.seen.insert((request.flood_id, request.initiator_id)) =~= self@.seen);
                assert(self@ =~= old(self)@.after_flood_request(request@));
            }
            return;
        }
        self.seen_floods.insert(request.flood_id, request.initiator_id);
        let n: usize = request.path_trace.len();
        let others: Vec<NodeId> = if n > 0 {
            remove_id(&self.packet_sender, request.path_trace[n - 1].0)
        } else {
            copy_ids(&self.packet_sender)
        };
        let packet = Packet {
            pack_type: PacketType::FloodRequest(longer),
            routing_header: SourceRoutingHeader::empty_route(),
            session_id,
        };
        post_each(out, &others, &packet);
        assert(self@ =~= old(self)@.after_flood_request(request@));
    }

    /// Takes in what a flood response tells of the network.
    pub fn handle_flood_response(&mut self, response: &FloodResponse)
        requires
            old(self).wf(),
        ensures
            final(self).wf(),
            final(self)@ == (ServerView {
                net: trace_linked(
                    old(self)@.net,
                    response@.path_trace,
                    response@.path_trace.len() as int,
                ),
                ..old(self)@
            }),
    {
        let path: &Vec<(NodeId, NodeType)> = &response.path_trace;
        let mut i: usize = 1;
        assert(self@ =~= ServerView { net: trace_linked(self@.net, path@, 1), ..self@ });
        while i < path.len()
            invariant
                old(self).wf(),
                self.wf(),
                1 <= i,
                i <= path@.len() || i == 1,
                self@ == (ServerView {
                    net: trace_linked(old(self)@.net, path@, i as int),
                    ..old(self)@
                }),
            decreases path@.len() - i,
        {
            let (a, ta): (NodeId, NodeType) = path[i - 1];
            let (b, tb): (NodeId, NodeType) = path[i];
            self.network_graph.add_link(a, ta, b, tb);
            i = i + 1;
            assert(self@ =~= ServerView {
                net: trace_linked(old(self)@.net, path@, i as int),
                ..old(self)@
            });
        }
        assert(self@ =~= ServerView {
            net: trace_linked(old(self)@.net, path@, path@.len() as int),
            ..old(self)@
        });
    }

    /// A route to a node, with the links forgotten whose ends share no channel that the
    /// graph goes by.
    pub fn compute_best_path(&mut self, from: NodeId, to: NodeId) -> (r: Option<Vec<NodeId>>)
        requires
            old(self).wf(),
        ensures
            final(self).wf(),
            old(self)@.net.best_path_is(from, to, old(self)@.known_channels(), ids_view(r)),
            final(self)@ == (ServerView {
                net: old(self)@.net.after_best_path(from, to, old(self)@.known_channels()),
                ..old(self)@
            }),
    {
        let r: Option<Vec<NodeId>> = match &self.graph_channels {
            GraphChannels::Shared => self.network_graph.best_path(from, to, &self.shared_senders),
            GraphChannels::Own(c) => self.network_graph.best_path(from, to, c),
        };
        assert(self@ =~= ServerView {
            net: old(self)@.net.after_best_path(from, to, old(self)@.known_channels()),
            ..old(self)@
        });
        r
    }

    /// Sends a message to a node.
    pub fn send_chat_message(
        &mut self,
        session_id: u64,
        target_id: NodeId,
        text: &str,
        out: &mut Vec<Outgoing>,
    )
        requires
            old(self).wf(),
        ensures
            final(self).wf(),
            exists|added: Seq<OutgoingView>|
                {
                    &&& #[trigger] chat_sent(
                        old(self)@,
                        final(self)@,
                        session_id,
                        target_id,
                        text@,
                        added,
                    )
                    &&& outbox(final(out)@) == outbox(old(out)@) + added
                },
    {
        let ghost a = self@;
        let path: Option<Vec<NodeId>> = self.compute_best_path(self.id, target_id);
        let ghost m = after_search(a, target_id);
        assert(self@ =~= m);
        match path {
            None => {
                proof {
                    let added = Seq::<OutgoingView>::empty();
                    assert(a.net.best_path_is(
                        a.id,
                        target_id,
                        a.known_channels(),
                        None::<Seq<NodeId>>,
                    ));
                    assert(outbox(out@) =~= outbox(old(out)@) + added);
                    assert(chat_sent(a, self@, session_id, target_id, text@, added));
                }
            },
            Some(path) => {
                let fragments: Vec<Fragment> = fragment_bytes(text.as_bytes());
                let ghost packets = m.fragment_packets(path@, fragments@, session_id);
                let reached: bool = path.len() > 1 && has_id(&self.packet_sender, path[1]);
                let mut i: usize = 0;
                assert(outbox(out@) =~= outbox(old(out)@) + Seq::<OutgoingView>::empty());
                while i < fragments.len()
                    invariant
                        self.wf(),
                        i <= fragments@.len(),
                        reached == (path@.len() > 1 && m.neighbours.contains(path@[1])),
                        packets == m.fragment_packets(path@, fragments@, session_id),
                        are_chunks(fragments@, encode_utf8(text@)),
                        self@ == (ServerView {
                            sent: kept_fragments(
                                m.sent,
                                session_id,
                                target_id,
                                fragments@,
                                i as int,
                            ),
                            ..m
                        }),
                        outbox(out@) == outbox(old(out)@) + (if reached {
                            packets.subrange(0, i as int)
                        } else {
                            packets
                        }),
                    decreases fragments@.len() - i,
                {
                    let fragment: Fragment = fragments[i];
                    self.sent_fragments.insert((session_id, i as u64), (fragment, target_id));
                    if reached {
                        let packet = Packet {
                            pack_type: PacketType::MsgFragment(fragment),
                            routing_header: SourceRoutingHeader {
                                hop_index: 1,
                                hops: copy_ids(&path),
                            },
                            session_id,
                        };
                        post(out, path[1], packet);
                        proof {
                            assert(packets[i as int] == (OutgoingView {
                                to: path@[1],
                                packet: packet@,
                            }));
                            assert(packets.subrange(0, i + 1) =~= packets.subrange(0, i as int).push(
                                packets[i as int],
                            ));
                            assert(outbox(out@) =~= outbox(old(out)@) + packets.subrange(0, i + 1));
                        }
                    }
                    i = i + 1;
                    assert(self@ =~= ServerView {
                        sent: kept_fragments(
                            m.sent,
                            session_id,
                            target_id,
                            fragments@,
                            i as int,
                        ),
                        ..m
                    });
                }
                proof {
                    assert(packets.subrange(0, packets.len() as int) =~= packets);
                    assert(self@ =~= m.message_sent(session_id, target_id, fragments@));
                    assert(a.net.best_path_is(a.id, target_id, a.known_channels(), Some(path@)));
                    assert(chat_sent(a, self@, session_id, target_id, text@, packets));
                }
            },
        }
    }

    /// Sends messages one after the other.
    pub fn send_all(&mut self, session_id: u64, list: &Vec<(NodeId, String)>, out: &mut Vec<Outgoing>)
        requires
            old(self).wf(),
        ensures
            final(self).wf(),
            exists|added: Seq<OutgoingView>|
                {
                    &&& #[trigger] all_sent(
                        old(self)@,
                        final(self)@,
                        session_id,
                        messages_of(list@),
                        added,
                    )
                    &&& outbox(final(out)@) == outbox(old(out)@) + added
                },
    {
        let ghost a = self@;
        let ghost all = messages_of(list@);
        let ghost mut added = Seq::<OutgoingView>::empty();
        let mut i: usize = 0;
        assert(outbox(out@) =~= outbox(old(out)@) + added);
        assert(all.subrange(0, 0) =~= Seq::<(NodeId, Seq<char>)>::empty());
        while i < list.len()
            invariant
                self.wf(),
                i <= list@.len(),
                all == messages_of(list@),
                all_sent(a, self@, session_id, all.subrange(0, i as int), added),
                outbox(out@) == outbox(old(out)@) + added,
            decreases list@.len() - i,
        {
            let ghost before = self@;
            let ghost posted = outbox(out@);
            let target: NodeId = list[i].0;
            self.send_chat_message(session_id, target, list[i].1.as_str(), out);
            proof {
                let s = all.subrange(0, i + 1);
                assert(s.drop_last() =~= all.subrange(0, i as int));
                assert(s.last() == all[i as int]);
                assert(all[i as int] == (target, list@[i as int].1@));
                let last = choose|last: Seq<OutgoingView>|
                    {
                        &&& #[trigger] chat_sent(
                            before,
                            self@,
                            session_id,
                            target,
                            list@[i as int].1@,
                            last,
                        )
                        &&& outbox(out@) == posted + last
                    };
                let more = added + last;
                let cut = added.len() as int;
                assert(more.subrange(0, cut) =~= added);
                assert(more.subrange(cut, more.len() as int) =~= last);
                assert(outbox(out@) =~= outbox(old(out)@) + more);
                assert(chat_sent(
                    before,
                    self@,
                    session_id,
                    s.last().0,
                    s.last().1,
                    more.subrange(cut, more.len() as int),
                ));
                assert(all_sent(a, self@, session_id, s, more));
                added = more;
            }
            i = i + 1;
        }
        assert(all.subrange(0, i as int) =~= all);
    }
}

impl ServerView {
    /// The node that a packet with this header came from.
    pub open spec fn hop_before(h: HeaderView) -> Option<NodeId> {
        let k = if h.hop_index > 0 {
            h.hop_index - 1
        } else {
            0
        };
        if k < h.hops.len() {
            Some(h.hops[k])
        } else {
            None
        }
    }

    /// The server with a loss counted on the link that leads to the hop of a header.
    pub open spec fn loss_counted(self, h: HeaderView) -> ServerView {
        if 1 <= h.hop_index < h.hops.len() {
            ServerView {
                net: self.net.with_loss(h.hops[h.hop_index - 1], h.hops[h.hop_index]),
                ..self
            }
        } else {
            self
        }
    }

    /// The request that follows a packet that went astray, back along its hops.
    pub open spec fn astray_request(self, session: u64, h: HeaderView) -> PacketView {
        PacketView {
            body: BodyView::FloodRequest(
                FloodRequestView {
                    flood_id: session,
                    initiator_id: self.id,
                    path_trace: seq![(self.id, NodeType::Server)],
                },
            ),
            header: HeaderView { hop_index: 1, hops: h.hops.reverse() },
            session_id: session,
        }
    }

    /// The neighbours after a link to a node failed.
    pub open spec fn neighbours_after_failure(self, from: NodeId, node: NodeId) -> Seq<NodeId> {
        if self.id == from {
            without_id(self.neighbours, node)
        } else if self.id == node {
            without_id(self.neighbours, from)
        } else {
            self.neighbours
        }
    }
}

/// A lost fragment has been sent once more, along a new route.
pub open spec fn fragment_resent(
    a: ServerView,
    b: ServerView,
    session: u64,
    index: u64,
    added: Seq<OutgoingView>,
) -> bool {
    if a.sent.contains_key((session, index)) {
        let (fragment, target) = a.sent[(session, index)];
        exists|path: Option<Seq<NodeId>>|
            {
                &&& #[trigger] a.net.best_path_is(a.id, target, a.known_channels(), path)
                &&& b == after_search(a, target)
                &&& added == (match path {
                    Some(p) => a.forwarding(fragment_packet(p, fragment, session)),
                    None => Seq::<OutgoingView>::empty(),
                })
            }
    } else {
        b == a && added == Seq::<OutgoingView>::empty()
    }
}

/// A nack has been handled. A loss is counted and the fragment sent once more; a
/// node that crashed or a link that failed is forgotten; a packet that went astray
/// is followed by a flood request.
pub open spec fn nack_handled(
    a: ServerView,
    b: ServerView,
    n: Nack,
    session: u64,
    h: HeaderView,
    added: Seq<OutgoingView>,
) -> bool {
    match n.nack_type {
        NackType::Dropped => fragment_resent(
            a.loss_counted(h),
            b,
            session,
            n.fragment_index,
            added,
        ),
        NackType::ErrorInRouting(node) => {
            &&& added == Seq::<OutgoingView>::empty()
            &&& match (a.channels, ServerView::hop_before(h)) {
                (Some(c), Some(from)) => if !mentioned(c, node) {
                    node_removed(a.net, b.net, node) && b == (ServerView {
                        net: b.net,
                        neighbours: without_id(a.neighbours, node),
                        ..a
                    })
                } else {
                    b == (ServerView {
                        net: a.net.without_link(from, node),
                        neighbours: a.neighbours_after_failure(from, node),
                        ..a
                    })
                },
                _ => b == a,
            }
        },
        _ => b == a && added == a.forwarding(a.astray_request(session, h)),
    }
}

/// Fragment slots, all of them empty.
pub open spec fn empty_slots(n: u64) -> Seq<Option<[u8; 128]>> {
    Seq::new(n as nat, |i: int| None::<[u8; 128]>)
}

/// Every slot is filled.
pub open spec fn all_filled(slots: Seq<Option<[u8; 128]>>) -> bool {
    forall|i: int| 0 <= i < slots.len() ==> (#[trigger] slots[i]) is Some
}

/// The bytes of the slots, one after the other.
pub open spec fn slot_bytes(slots: Seq<Option<[u8; 128]>>) -> Seq<u8> {
    Seq::new((slots.len() * 128) as nat, |k: int| (slots[k / 128]->0)@[k % 128])
}

/// The message that filled slots hold, given the length of the last fragment.
pub open spec fn slots_message(slots: Seq<Option<[u8; 128]>>, last: Option<u8>) -> Seq<u8> {
    let n = slots.len() * 128 - 128 + (match last {
        Some(l) => l as int,
        None => 128,
    });
    if n < slots.len() * 128 {
        slot_bytes(slots).subrange(0, n)
    } else {
        slot_bytes(slots)
    }
}

impl ServerView {
    /// The slots of a message before fragment `f`.
    pub open spec fn slots(self, key: (u64, u8), f: Fragment) -> Seq<Option<[u8; 128]>> {
        if self.partial.contains_key(key) {
            self.partial[key]
        } else {
            empty_slots(f.total_n_fragments)
        }
    }

    /// Fragment `f` has a slot. The first fragment of a message has a sensible number of
    /// fragments, and one that has not arrived before says that there is one at least.
    pub open spec fn fragment_fits(self, key: (u64, u8), f: Fragment) -> bool {
        &&& f.fragment_index < self.slots(key, f).len()
        &&& !self.partial.contains_key(key) ==> f.total_n_fragments <= isize::MAX
        &&& self.duplicate(key, f) || f.total_n_fragments >= 1
    }

    /// The slots of a message after fragment `f`.
    pub open spec fn filled(self, key: (u64, u8), f: Fragment) -> Seq<Option<[u8; 128]>> {
        self.slots(key, f).update(f.fragment_index as int, Some(f.data))
    }

    /// Fragment `f` has arrived before.
    pub open spec fn duplicate(self, key: (u64, u8), f: Fragment) -> bool {
        self.slots(key, f)[f.fragment_index as int] is Some
    }

    /// Fragment `f` is the one that completes a message.
    pub open spec fn completes(self, key: (u64, u8), f: Fragment) -> bool {
        !self.duplicate(key, f) && all_filled(self.filled(key, f))
    }

    /// The known length of the last fragment after fragment `f`.
    pub open spec fn last_length(self, key: (u64, u8), f: Fragment) -> Option<u8> {
        if f.fragment_index == f.total_n_fragments - 1 {
            Some(f.length)
        } else if self.lengths.contains_key(key) {
            Some(self.lengths[key])
        } else {
            None
        }
    }

    /// The message that fragment `f` completes.
    pub open spec fn completed(self, key: (u64, u8), f: Fragment) -> Seq<u8> {
        slots_message(self.filled(key, f), self.last_length(key, f))
    }

    /// The server after fragment `f`, before the message that it may complete is
    /// handled. A fragment that arrived before changes nothing.
    pub open spec fn after_fragment(self, key: (u64, u8), f: Fragment) -> ServerView {
        if self.duplicate(key, f) {
            ServerView { partial: self.partial.insert(key, self.slots(key, f)), ..self }
        } else if self.completes(key, f) {
            ServerView {
                partial: self.partial.remove(key),
                lengths: self.lengths.remove(key),
                ..self
            }
        } else {
            ServerView {
                partial: self.partial.insert(key, self.filled(key, f)),
                lengths: if f.fragment_index == f.total_n_fragments - 1 {
                    self.lengths.insert(key, f.length)
                } else {
                    self.lengths
                },
                ..self
            }
        }
    }
}

impl server {
    /// Reacts to the report that a packet was not delivered.
    pub fn handle_nack(
        &mut self,
        session_id: u64,
        nack: &Nack,
        header: &SourceRoutingHeader,
        out: &mut Vec<Outgoing>,
    )
        requires
            old(self).wf(),
        ensures
            final(self).wf(),
            exists|added: Seq<OutgoingView>|
                {
                    &&& #[trigger] nack_handled(
                        old(self)@,
                        final(self)@,
                        *nack,
                        session_id,
                        header@,
                        added,
                    )
                    &&& outbox(final(out)@) == outbox(old(out)@) + added
                },
    {
        let ghost a = self@;
        let ghost nothing = Seq::<OutgoingView>::empty();
        assert(outbox(out@) =~= outbox(old(out)@) + nothing);
        match nack.nack_type {
            NackType::Dropped => {
                let i: usize = header.hop_index;
                if i >= 1 && i < header.hops.len() {
                    self.network_graph.increment_drop(header.hops[i - 1], header.hops[i]);
                }
                let ghost m = a.loss_counted(header@);
                assert(self@ =~= m);
                let found: Option<(Fragment, NodeId)> = match self.sent_fragments.get(
                    &(session_id, nack.fragment_index),
                ) {
                    Some(e) => Some(*e),
                    None => None,
                };
                match found {
                    Some((fragment, target)) => {
                        let path: Option<Vec<NodeId>> = self.compute_best_path(self.id, target);
                        assert(self@ =~= after_search(m, target));
                        match path {
                            Some(hops) => {
                                let packet = Packet {
                                    pack_type: PacketType::MsgFragment(fragment),
                                    routing_header: SourceRoutingHeader { hop_index: 1, hops },
                                    session_id,
                                };
                                self.forward(packet, out);
                                proof {
                                    let p = packet@.header.hops;
                                    assert(m.net.best_path_is(
                                        m.id,
                                        target,
                                        m.known_channels(),
                                        Some(p),
                                    ));
                                    let added = m.forwarding(
                                        fragment_packet(p, fragment, session_id),
                                    );
                                    assert(nack_handled(
                                        a,
                                        self@,
                                        *nack,
                                        session_id,
                                        header@,
                                        added,
                                    ));
                                }
                            },
                            None => {
                                assert(m.net.best_path_is(
                                    m.id,
                                    target,
                                    m.known_channels(),
                                    None::<Seq<NodeId>>,
                                ));
                                assert(nack_handled(
                                    a,
                                    self@,
                                    *nack,
                                    session_id,
                                    header@,
                                    nothing,
                                ));
                            },
                        }
                    },
                    None => {
                        assert(nack_handled(a, self@, *nack, session_id, header@, nothing));
                    },
                }
            },
            NackType::ErrorInRouting(node) => {
                let k: usize = if header.hop_index > 0 {
                    header.hop_index - 1
                } else {
                    0
                };
                let involved: Option<bool> = match &self.shared_senders {
                    Some(s) => Some(s.mentions(node)),
                    None => None,
                };
                if let Some(involved) = involved {
                    if k < header.hops.len() {
                        let from: NodeId = header.hops[k];
                        if !involved {
                            self.network_graph.remove_node(node);
                            self.packet_sender = remove_id(&self.packet_sender, node);
                            proof {
                                crate::packet::lemma_without_id(a.neighbours, node);
                                assert(self@ =~= ServerView {
                                    net: self@.net,
                                    neighbours: without_id(a.neighbours, node),
                                    ..a
                                });
                            }
                        } else {
                            self.network_graph.remove_link(from, node);
                            if self.id == from {
                                self.packet_sender = remove_id(&self.packet_sender, node);
                            } else if self.id == node {
                                self.packet_sender = remove_id(&self.packet_sender, from);
                            }
                            proof {
                                crate::packet::lemma_without_id(a.neighbours, node);
                                crate::packet::lemma_without_id(a.neighbours, from);
                                assert(self@ =~= ServerView {
                                    net: a.net.without_link(from, node),
                                    neighbours: a.neighbours_after_failure(from, node),
                                    ..a
                                });
                            }
                        }
                    }
                }
                assert(nack_handled(a, self@, *nack, session_id, header@, nothing));
            },
            _ => {
                let mut path_trace: Vec<(NodeId, NodeType)> = Vec::new();
                path_trace.push((self.id, NodeType::Server));
                assert(path_trace@ =~= seq![(self.id, NodeType::Server)]);
                let packet = Packet {
                    pack_type: PacketType::FloodRequest(
                        FloodRequest { flood_id: session_id, initiator_id: self.id, path_trace },
                    ),
                    routing_header: SourceRoutingHeader {
                        hop_index: 1,
                        hops: reversed_ids(&header.hops),
                    },
                    session_id,
                };
                self.forward(packet, out);
                assert(packet@ =~= a.astray_request(session_id, header@));
                assert(nack_handled(
                    a,
                    self@,
                    *nack,
                    session_id,
                    header@,
                    a.forwarding(a.astray_request(session_id, header@)),
                ));
            },
        }
    }

    /// Takes a fragment in; returns the message that it completes.
    pub fn store_fragment(&mut self, key: (u64, u8), fragment: &Fragment) -> (r: Option<Vec<u8>>)
        requires
            old(self).wf(),
            old(self)@.fragment_fits(key, *fragment),
        ensures
            final(self).wf(),
            final(self)@ == old(self)@.after_fragment(key, *fragment),
            match r {
                Some(message) => old(self)@.completes(key, *fragment) && message@ == old(
                    self,
                )@.completed(key, *fragment),
                None => !old(self)@.completes(key, *fragment),
            },
    {
        let ghost a = self@;
        let ghost before = a.slots(key, *fragment);
        let mut slots: Vec<Option<[u8; 128]>> = match self.received_fragments.remove(&key) {
            Some(slots) => {
                assert(a.partial.contains_key(key));
                slots
            },
            None => {
                assert(!a.partial.contains_key(key));
                let slots: Vec<Option<[u8; 128]>> = no_slots(fragment.total_n_fragments as usize);
                slots
            },
        };
        assert(slots@ =~= before);
        let n: usize = slots.len();
        let i: usize = fragment.fragment_index as usize;
        assert(i == fragment.fragment_index);
        let duplicate: bool = slots[i].is_some();
        if duplicate {
            self.received_fragments.insert(key, slots);
            assert(self@.partial =~= a.partial.insert(key, before));
            assert(self@ =~= a.after_fragment(key, *fragment));
            return None;
        }
        slots.set(i, Some(fragment.data));
        assert(slots@ =~= a.filled(key, *fragment));
        if fragment.fragment_index == fragment.total_n_fragments - 1 {
            self.fragment_lengths.insert(key, fragment.length);
        }
        if !slots_filled(&slots) {
            self.received_fragments.insert(key, slots);
            assert(self@.partial =~= a.partial.insert(key, a.filled(key, *fragment)));
            assert(self@ =~= a.after_fragment(key, *fragment));
            return None;
        }
        let last: Option<u8> = self.fragment_lengths.remove(&key);
        assert(last == a.last_length(key, *fragment));
        assert(self@.partial =~= a.partial.remove(key));
        assert(self@.lengths =~= a.lengths.remove(key));
        assert(self@ =~= a.after_fragment(key, *fragment));
        Some(assemble(&slots, last))
    }
}

/// Slots without fragments.
fn no_slots(n: usize) -> (r: Vec<Option<[u8; 128]>>)
    ensures
        r@ == empty_slots(n as u64),
{
    let mut r: Vec<Option<[u8; 128]>> = Vec::new();
    let mut i: usize = 0;
    while i < n
        invariant
            i <= n,
            r@.len() == i,
            forall|k: int| 0 <= k < i ==> (#[trigger] r@[k]) == None::<[u8; 128]>,
        decreases n - i,
    {
        r.push(None);
        i = i + 1;
    }
    assert(r@ =~= empty_slots(n as u64));
    r
}

/// Whether every slot is filled.
fn slots_filled(slots: &Vec<Option<[u8; 128]>>) -> (r: bool)
    ensures
        r == all_filled(slots@),
{
    let mut i: usize = 0;
    while i < slots.len()
        invariant
            i <= slots@.len(),
            forall|k: int| 0 <= k < i ==> (#[trigger] slots@[k]) is Some,
        decreases slots@.len() - i,
    {
        if slots[i].is_none() {
            assert(!(slots@[i as int] is Some));
            return false;
        }
        i = i + 1;
    }
    true
}

/// The message that filled slots hold.
fn assemble(slots: &Vec<Option<[u8; 128]>>, last: Option<u8>) -> (r: Vec<u8>)
    requires
        all_filled(slots@),
        slots@.len() >= 1,
    ensures
        r@ == slots_message(slots@, last),
{
    let mut r: Vec<u8> = Vec::new();
    let tail: usize = match last {
        Some(l) => l as usize,
        None => 128,
    };
    let mut i: usize = 0;
    let ghost all = slot_bytes(slots@);
    let ghost want = slots_message(slots@, last);
    while i < slots.len()
        invariant
            i <= slots@.len(),
            all_filled(slots@),
            all == slot_bytes(slots@),
            want == slots_message(slots@, last),
            tail == (match last {
                Some(l) => l as int,
                None => 128,
            }),
            r@ == (if i < slots@.len() || tail >= 128 {
                all.subrange(0, i * 128)
            } else {
                want
            }),
        decreases slots@.len() - i,
    {
        assert(slots@[i as int] is Some);
        let size: usize = if i + 1 == slots.len() && tail < 128 {
            tail
        } else {
            128
        };
        match slots[i] {
            Some(data) => {
                let mut j: usize = 0;
                let ghost start = r@;
                while j < size
                    invariant
                        j <= size <= 128,
                        i < slots@.len(),
                        all == slot_bytes(slots@),
                        slots@[i as int] == Some(data),
                        start == all.subrange(0, i * 128),
                        r@ == all.subrange(0, i * 128 + j),
                    decreases size - j,
                {
                    proof {
                        let k = i * 128 + j;
                        assert(k / 128 == i && k % 128 == j) by (nonlinear_arith)
                            requires
                                k == i * 128 + j,
                                0 <= j < 128,
                                0 <= i,
                        ;
                        assert(all[k] == data@[j as int]);
                    }
                    r.push(data[j]);
                    j = j + 1;
                    assert(r@ =~= all.subrange(0, i * 128 + j));
                }
            },
            None => {},
        }
        i = i + 1;
    }
    assert(all.subrange(0, all.len() as int) =~= all);
    r
}

}
