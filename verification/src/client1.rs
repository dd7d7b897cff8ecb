//! The client that keeps track of its sent messages and cached routes.
use crate::changes::{announced, announcement, tokens, tokens_of, Change, ChangeView};
use crate::channels::{channels_of, mentioned, SharedSenders};
use crate::floods::{keys_of, FloodSet};
use crate::fragment::{
    accepted, are_chunks, assembled, completes, fragment_bytes, fresh, message_text, received_text,
    well_sized, ReceivedMessageState, ReceivedView,
};
use crate::graphs::NodeInfo;
use crate::known_network::{
    drone_added, ids_view, loss_counted_both, own_link_added, trace_merged, unlinked, KnownNetwork,
    NetView,
};
use crate::notices::{notice_of, read_notice, Notice, NoticeView};
use crate::packet::{
    copy_ids, copy_trace, has_id, ids_of_trace, outbox, post, post_each, remove_id, reversed_ids,
    to_each, trace_ids, without_id, Ack, BodyView, FloodRequest, FloodRequestView, FloodResponse,
    FloodResponseView, Fragment, HeaderView, Nack, NackType, NodeId, NodeType, Outgoing,
    OutgoingView, Packet, PacketType, PacketView, SourceRoutingHeader,
};
use crate::text::{
    begins_with, decimal, id_number, id_text, join3, parse_id, same_text, starts_with, texts,
};
use std::collections::{HashMap, HashSet};
use vstd::prelude::*;
use vstd::string::*;
use vstd::utf8::encode_utf8;

verus! {

broadcast use vstd::std_specs::hash::group_hash_axioms;

/// Age in nanoseconds from which on a flood is over.
pub const FLOOD_TIMEOUT: u64 = 2_000_000_000;

/// Age in nanoseconds up to which a flood of one's own spares another one.
pub const FLOOD_RENEWAL: u64 = 5_000_000_000;

/// A message that has been sent.
#[derive(Debug)]
pub struct SentMessageInfo {
    pub fragments: Vec<Fragment>,
    pub original_routing_header: SourceRoutingHeader,
    pub received_ack_indices: HashSet<u64>,
    pub route_needs_recalculation: bool,
}

#[verifier::ext_equal]
pub struct SentView {
    pub fragments: Seq<Fragment>,
    pub header: HeaderView,
    pub acked: Set<u64>,
    pub stale: bool,
}

impl View for SentMessageInfo {
    type V = SentView;

    open spec fn view(&self) -> SentView {
        SentView {
            fragments: self.fragments@,
            header: self.original_routing_header@,
            acked: self.received_ack_indices@,
            stale: self.route_needs_recalculation,
        }
    }
}

/// A flood that has been started, with the responses so far.
#[derive(Debug)]
pub struct FloodDiscoveryState {
    pub initiator_id: NodeId,
    pub start_time: u64,
    pub received_responses: Vec<FloodResponse>,
}

#[verifier::ext_equal]
pub struct FloodView {
    pub initiator: NodeId,
    pub start: u64,
    pub responses: Seq<FloodResponseView>,
}

/// The views of a list of responses.
pub open spec fn responses_of(r: Seq<FloodResponse>) -> Seq<FloodResponseView> {
    r.map_values(|x: FloodResponse| x@)
}

impl View for FloodDiscoveryState {
    type V = FloodView;

    open spec fn view(&self) -> FloodView {
        FloodView {
            initiator: self.initiator_id,
            start: self.start_time,
            responses: responses_of(self.received_responses@),
        }
    }
}

/// A client.
#[derive(Debug)]
pub struct MyClient {
    pub id: NodeId,
    /// The neighbours to which a channel leads.
    pub packet_send: Vec<NodeId>,
    pub sent_messages: HashMap<u64, SentMessageInfo>,
    pub received_messages: HashMap<u64, ReceivedMessageState>,
    pub network: KnownNetwork,
    pub active_flood_discoveries: HashMap<u64, FloodDiscoveryState>,
    pub connected_server_id: Option<NodeId>,
    pub seen_flood_ids: FloodSet,
    pub route_cache: HashMap<NodeId, Vec<NodeId>>,
    pub shared_senders: Option<SharedSenders>,
    /// Commands that wait for a route, each with its destination.
    pub pending_messages_after_flood: Vec<(NodeId, String)>,
}

#[verifier::ext_equal]
pub struct ClientView {
    pub id: NodeId,
    pub neighbours: Seq<NodeId>,
    pub sent: Map<u64, SentView>,
    pub received: Map<u64, ReceivedView>,
    pub net: NetView,
    pub floods: Map<u64, FloodView>,
    pub server: Option<NodeId>,
    pub seen: Set<(u64, NodeId)>,
    pub routes: Map<NodeId, Seq<NodeId>>,
    pub channels: Option<Set<(NodeId, NodeId)>>,
    pub pending: Seq<(NodeId, Seq<char>)>,
}

/// The views of a list of waiting commands.
pub open spec fn pending_of(p: Seq<(NodeId, String)>) -> Seq<(NodeId, Seq<char>)> {
    p.map_values(|x: (NodeId, String)| (x.0, x.1@))
}

impl View for MyClient {
    type V = ClientView;

    open spec fn view(&self) -> ClientView {
        ClientView {
            id: self.id,
            neighbours: self.packet_send@,
            sent: self.sent_messages@.map_values(|x: SentMessageInfo| x@),
            received: self.received_messages@.map_values(|x: ReceivedMessageState| x@),
            net: self.network@,
            floods: self.active_flood_discoveries@.map_values(|x: FloodDiscoveryState| x@),
            server: self.connected_server_id,
            seen: self.seen_flood_ids@,
            routes: self.route_cache@.map_values(|x: Vec<NodeId>| x@),
            channels: channels_of(self.shared_senders),
            pending: pending_of(self.pending_messages_after_flood@),
        }
    }
}

impl ClientView {
    /// The network is well formed, no neighbour is listed twice, and messages that
    /// arrive have a sensible number of fragments.
    pub open spec fn wf(self) -> bool {
        &&& self.net.wf()
        &&& self.neighbours.no_duplicates()
        &&& forall|k: u64| #[trigger]
            self.received.contains_key(k) ==> self.received[k].total >= 1 && self.received[k].total
                * 128 <= isize::MAX
    }

    /// A channel leads to the node.
    pub open spec fn reaches(self, to: NodeId) -> bool {
        self.neighbours.contains(to) || match self.channels {
            Some(c) => c.contains((self.id, to)),
            None => false,
        }
    }

    /// What leaves for a node: the packet, where a channel leads there.
    pub open spec fn sending(self, to: NodeId, packet: PacketView) -> Seq<OutgoingView> {
        if self.reaches(to) {
            seq![OutgoingView { to, packet }]
        } else {
            Seq::empty()
        }
    }

    /// The client after starting a flood.
    pub open spec fn flooding(self, counter: u64, now: u64) -> ClientView {
        ClientView {
            floods: self.floods.insert(
                next_id(counter),
                FloodView { initiator: self.id, start: now, responses: Seq::empty() },
            ),
            ..self
        }
    }

    /// The requests that start a flood.
    pub open spec fn flood_requests(self, counter: u64) -> Seq<OutgoingView> {
        to_each(self.neighbours, first_request(self.id, next_id(counter)))
    }

    /// A flood request is answered, not spread.
    pub open spec fn answers_flood(self, r: FloodRequestView) -> bool {
        self.seen.contains((r.flood_id, r.initiator_id)) || (self.neighbours.len() == 1
            && r.path_trace.len() > 0)
    }

    /// The client after a flood request.
    pub open spec fn after_flood_request(self, r: FloodRequestView) -> ClientView {
        if self.answers_flood(r) {
            self
        } else {
            ClientView { seen: self.seen.insert((r.flood_id, r.initiator_id)), ..self }
        }
    }

    /// What leaves upon a flood request: a response the way that the request came,
    /// or the request, with the client on its trace, for the other neighbours.
    pub open spec fn flood_answer(self, r: FloodRequestView) -> Seq<OutgoingView> {
        let trace = r.path_trace.push((self.id, NodeType::Client));
        if self.answers_flood(r) {
            if r.path_trace.len() > 0 && self.neighbours.contains(r.path_trace.last().0) {
                seq![
                    OutgoingView {
                        to: r.path_trace.last().0,
                        packet: PacketView {
                            body: BodyView::FloodResponse(
                                FloodResponseView { flood_id: r.flood_id, path_trace: trace },
                            ),
                            header: HeaderView { hop_index: 1, hops: trace_ids(trace).reverse() },
                            session_id: r.flood_id,
                        },
                    },
                ]
            } else {
                Seq::empty()
            }
        } else {
            let others = if r.path_trace.len() > 0 {
                without_id(self.neighbours, r.path_trace.last().0)
            } else {
                self.neighbours
            };
            to_each(
                others,
                PacketView {
                    body: BodyView::FloodRequest(FloodRequestView { path_trace: trace, ..r }),
                    header: HeaderView { hop_index: 0, hops: Seq::empty() },
                    session_id: r.flood_id,
                },
            )
        }
    }

    /// What leaves upon a fragment: its receipt, the way that the fragment came.
    pub open spec fn ack(self, p: PacketView, fragment_index: u64) -> Seq<OutgoingView> {
        let hops = p.header.hops.reverse();
        if hops.len() >= 2 {
            self.sending(
                hops[1],
                PacketView {
                    body: BodyView::Ack(Ack { fragment_index }),
                    header: HeaderView { hop_index: 1, hops },
                    session_id: p.session_id,
                },
            )
        } else {
            Seq::empty()
        }
    }

    /// Progress of the message of a session, before fragment `f`.
    pub open spec fn progress(self, session: u64, f: Fragment) -> ReceivedView {
        if self.received.contains_key(session) {
            self.received[session]
        } else {
            fresh(f.total_n_fragments)
        }
    }

    /// The client after fragment `f`.
    pub open spec fn after_fragment(self, session: u64, f: Fragment) -> ClientView {
        let st = self.progress(session, f);
        ClientView {
            received: if completes(st, f) {
                self.received.remove(session)
            } else {
                self.received.insert(session, accepted(st, f))
            },
            ..self
        }
    }

    /// What fragment `f` tells the client, where it completes a message.
    pub open spec fn fragment_notice(self, session: u64, f: Fragment) -> Option<NoticeView> {
        let st = self.progress(session, f);
        if completes(st, f) {
            Some(notice_of(self.id, received_text(assembled(accepted(st, f), f))))
        } else {
            None
        }
    }

    /// The client after the receipt of a fragment.
    pub open spec fn after_ack(self, session: u64, fragment_index: u64) -> ClientView {
        if self.sent.contains_key(session) {
            let s = self.sent[session];
            ClientView {
                sent: self.sent.insert(
                    session,
                    SentView { acked: s.acked.insert(fragment_index), ..s },
                ),
                ..self
            }
        } else {
            self
        }
    }

    /// The client with the route of a session given up.
    pub open spec fn route_dropped(self, session: u64) -> ClientView {
        if self.sent.contains_key(session) {
            let s = self.sent[session];
            ClientView {
                sent: self.sent.insert(session, SentView { stale: true, ..s }),
                routes: if s.header.hops.len() > 0 {
                    self.routes.remove(s.header.hops.last())
                } else {
                    self.routes
                },
                ..self
            }
        } else {
            self
        }
    }

    /// The client once a message has been sent along a path.
    pub open spec fn message_sent(
        self,
        dest: NodeId,
        path: Seq<NodeId>,
        fragments: Seq<Fragment>,
        session: u64,
    ) -> ClientView {
        ClientView {
            routes: self.routes.insert(dest, path),
            sent: self.sent.insert(
                session,
                SentView {
                    fragments,
                    header: HeaderView { hop_index: 1, hops: path },
                    acked: Set::empty(),
                    stale: false,
                },
            ),
            ..self
        }
    }

    /// The packets that carry the fragments of a message along a path.
    pub open spec fn fragment_packets(
        self,
        path: Seq<NodeId>,
        fragments: Seq<Fragment>,
        session: u64,
    ) -> Seq<OutgoingView> {
        if path.len() > 1 && self.reaches(path[1]) {
            fragments.map_values(
                |f: Fragment|
                    OutgoingView { to: path[1], packet: fragment_packet(path, f, session) },
            )
        } else {
            Seq::empty()
        }
    }

    /// A flood of one's own is younger than the time after which it is renewed.
    pub open spec fn own_flood_active(self, now: u64) -> bool {
        exists|k: u64| #[trigger]
            self.floods.contains_key(k) && self.floods[k].initiator == self.id && now
                - self.floods[k].start < FLOOD_RENEWAL
    }
}

/// The packet that carries a fragment along a path.
pub open spec fn fragment_packet(path: Seq<NodeId>, f: Fragment, session: u64) -> PacketView {
    PacketView {
        body: BodyView::MsgFragment(f),
        header: HeaderView { hop_index: 1, hops: path },
        session_id: session,
    }
}

/// The id after `counter`; the greatest one is followed by itself.
pub open spec fn next_id(counter: u64) -> u64 {
    if counter < u64::MAX {
        (counter + 1) as u64
    } else {
        counter
    }
}

/// The request with which client `id` starts a flood.
pub open spec fn first_request(id: NodeId, flood_id: u64) -> PacketView {
    PacketView {
        body: BodyView::FloodRequest(
            FloodRequestView {
                flood_id,
                initiator_id: id,
                path_trace: seq![(id, NodeType::Client)],
            },
        ),
        header: HeaderView { hop_index: 0, hops: Seq::empty() },
        session_id: flood_id,
    }
}

/// Draws the next id from a counter.
pub fn draw_id(counter: &mut u64) -> (r: u64)
    ensures
        r == next_id(*old(counter)),
        *final(counter) == r,
{
    if *counter < u64::MAX {
        *counter = *counter + 1;
    }
    *counter
}

impl MyClient {
    /// A client that knows nothing of the network yet.
    pub fn new(
        id: NodeId,
        packet_send: Vec<NodeId>,
        sent_messages: HashMap<u64, SentMessageInfo>,
        connected_server_id: Option<NodeId>,
        seen_flood_ids: FloodSet,
        shared_senders: Option<SharedSenders>,
    ) -> (r: Self)
        requires
            packet_send@.no_duplicates(),
        ensures
            r@.wf(),
            r@.id == id,
            r@.neighbours == packet_send@,
            r@.sent == sent_messages@.map_values(|x: SentMessageInfo| x@),
            r@.received == Map::<u64, ReceivedView>::empty(),
            r@.net.nodes == Map::<u32, NodeInfo>::empty(),
            r@.net.edges == Map::<u32, (u32, u32, usize)>::empty(),
            r@.net.index == Map::<NodeId, u32>::empty(),
            r@.floods == Map::<u64, FloodView>::empty(),
            r@.server == connected_server_id,
            r@.seen == seen_flood_ids@,
            r@.routes == Map::<NodeId, Seq<NodeId>>::empty(),
            r@.channels == channels_of(shared_senders),
            r@.pending == Seq::<(NodeId, Seq<char>)>::empty(),
    {
        let r = MyClient {
            id,
            packet_send,
            sent_messages,
            received_messages: HashMap::new(),
            network: KnownNetwork::new(),
            active_flood_discoveries: HashMap::new(),
            connected_server_id,
            seen_flood_ids,
            route_cache: HashMap::new(),
            shared_senders,
            pending_messages_after_flood: Vec::new(),
        };
        assert(r@.received =~= Map::<u64, ReceivedView>::empty());
        assert(r@.floods =~= Map::<u64, FloodView>::empty());
        assert(r@.routes =~= Map::<NodeId, Seq<NodeId>>::empty());
        assert(r@.pending =~= Seq::<(NodeId, Seq<char>)>::empty());
        r
    }

    /// Posts a packet for a node; says whether a channel leads there.
    pub fn send_to_neighbor(
        &self,
        neighbor_id: NodeId,
        packet: Packet,
        out: &mut Vec<Outgoing>,
    ) -> (r: bool)
        ensures
            r == self@.reaches(neighbor_id),
            outbox(final(out)@) == outbox(old(out)@) + self@.sending(neighbor_id, packet@),
    {
        let near: bool = has_id(&self.packet_send, neighbor_id);
        let shared: bool = match &self.shared_senders {
            Some(s) => s.contains(self.id, neighbor_id),
            None => false,
        };
        if near || shared {
            post(out, neighbor_id, packet);
            assert(outbox(out@) =~= outbox(old(out)@) + self@.sending(neighbor_id, packet@));
            true
        } else {
            assert(outbox(out@) =~= outbox(old(out)@) + self@.sending(neighbor_id, packet@));
            false
        }
    }

    /// Starts a flood with the next id of the counter.
    pub fn start_flood_discovery(&mut self, counter: &mut u64, now: u64, out: &mut Vec<Outgoing>)
        requires
            old(self)@.wf(),
        ensures
            final(self)@.wf(),
            final(self)@ == old(self)@.flooding(*old(counter), now),
            *final(counter) == next_id(*old(counter)),
            outbox(final(out)@) == outbox(old(out)@) + old(self)@.flood_requests(*old(counter)),
    {
        let flood_id: u64 = draw_id(counter);
        let mut path_trace: Vec<(NodeId, NodeType)> = Vec::new();
        path_trace.push((self.id, NodeType::Client));
        assert(path_trace@ =~= seq![(self.id, NodeType::Client)]);
        let packet = Packet {
            pack_type: PacketType::FloodRequest(
                FloodRequest { flood_id, initiator_id: self.id, path_trace },
            ),
            routing_header: SourceRoutingHeader::empty_route(),
            session_id: flood_id,
        };
        post_each(out, &self.packet_send, &packet);
        let state = FloodDiscoveryState {
            initiator_id: self.id,
            start_time: now,
            received_responses: Vec::new(),
        };
        assert(responses_of(state.received_responses@) =~= Seq::empty());
        self.active_flood_discoveries.insert(flood_id, state);
        assert(self@.floods =~= old(self)@.flooding(*old(counter), now).floods);
        assert(self@ =~= old(self)@.flooding(*old(counter), now));
    }

    /// Answers a flood request or spreads it.
    pub fn process_flood_request(&mut self, request: &FloodRequest, out: &mut Vec<Outgoing>)
        requires
            old(self)@.wf(),
        ensures
            final(self)@.wf(),
            final(self)@ == old(self)@.after_flood_request(request@),
            outbox(final(out)@) == outbox(old(out)@) + old(self)@.flood_answer(request@),
    {
        let mut trace: Vec<(NodeId, NodeType)> = copy_trace(&request.path_trace);
        let hops_in: usize = trace.len();
        trace.push((self.id, NodeType::Client));
        if self.seen_flood_ids.contains(request.flood_id, request.initiator_id) || (
        self.packet_send.len() == 1 && hops_in > 0) {
            if hops_in > 0 {
                let sender: NodeId = request.path_trace[hops_in - 1].0;
                if has_id(&self.packet_send, sender) {
                    let ids: Vec<NodeId> = ids_of_trace(&trace);
                    let packet = Packet {
                        pack_type: PacketType::FloodResponse(
                            FloodResponse { flood_id: request.flood_id, path_trace: trace },
                        ),
                        routing_header: SourceRoutingHeader {
                            hop_index: 1,
                            hops: reversed_ids(&ids),
                        },
                        session_id: request.flood_id,
                    };
                    post(out, sender, packet);
                }
            }
            assert(outbox(out@) =~= outbox(old(out)@) + old(self)@.flood_answer(request@));
            return;
        }
        self.seen_flood_ids.insert(request.flood_id, request.initiator_id);
        let packet = Packet {
            pack_type: PacketType::FloodRequest(
                FloodRequest {
                    flood_id: request.flood_id,
                    initiator_id: request.initiator_id,
                    path_trace: trace,
                },
            ),
            routing_header: SourceRoutingHeader::empty_route(),
            session_id: request.flood_id,
        };
        let others: Vec<NodeId> = if hops_in > 0 {
            remove_id(&self.packet_send, request.path_trace[hops_in - 1].0)
        } else {
            copy_ids(&self.packet_send)
        };
        post_each(out, &others, &packet);
        assert(self@ =~= old(self)@.after_flood_request(request@));
    }

    /// Sends the receipt of a fragment the way that the fragment came.
    pub fn send_ack(&self, packet: &Packet, fragment: &Fragment, out: &mut Vec<Outgoing>)
        ensures
            outbox(final(out)@) == outbox(old(out)@) + self@.ack(packet@, fragment.fragment_index),
    {
        let hops: Vec<NodeId> = reversed_ids(&packet.routing_header.hops);
        if hops.len() >= 2 {
            let next: NodeId = hops[1];
            let ack = Packet {
                pack_type: PacketType::Ack(Ack { fragment_index: fragment.fragment_index }),
                routing_header: SourceRoutingHeader { hop_index: 1, hops },
                session_id: packet.session_id,
            };
            self.send_to_neighbor(next, ack, out);
        } else {
            assert(outbox(out@) =~= outbox(old(out)@) + self@.ack(packet@, fragment.fragment_index));
        }
    }

    /// Takes a fragment in; tells what the message says that it completes.
    pub fn reassemble_packet(&mut self, session_id: u64, fragment: &Fragment) -> (r: Option<Notice>)
        requires
            old(self)@.wf(),
            well_sized(*fragment),
        ensures
            final(self)@.wf(),
            final(self)@ == old(self)@.after_fragment(session_id, *fragment),
            notice_view(r) == old(self)@.fragment_notice(session_id, *fragment),
    {
        let ghost before = old(self)@;
        let ghost st0 = before.progress(session_id, *fragment);
        proof {
            if before.received.contains_key(session_id) {
                assert(self.received_messages@.contains_key(session_id));
            }
        }
        let mut st: ReceivedMessageState = match self.received_messages.remove(&session_id) {
            Some(st) => st,
            None => ReceivedMessageState::fresh(fragment.total_n_fragments),
        };
        proof {
            assert(st@ == st0);
            if !before.received.contains_key(session_id) {
                assert(self.received_messages@ =~= old(self).received_messages@);
            }
        }
        match st.accept(fragment) {
            Some(message) => {
                assert(self@.received =~= before.received.remove(session_id));
                assert(self@ =~= before.after_fragment(session_id, *fragment));
                let text: String = message_text(&message);
                Some(read_notice(self.id, text.as_str()))
            },
            None => {
                self.received_messages.insert(session_id, st);
                proof {
                    assert(self@.received =~= before.received.insert(
                        session_id,
                        accepted(st0, *fragment),
                    ));
                    assert(self@ =~= before.after_fragment(session_id, *fragment));
                    assert forall|k: u64| #[trigger]
                        self@.received.contains_key(k) implies self@.received[k].total >= 1
                        && self@.received[k].total * 128 <= isize::MAX by {
                        if k != session_id {
                            assert(before.received.contains_key(k));
                        }
                    }
                }
                None
            },
        }
    }

    /// Notes the receipt of a fragment.
    pub fn note_ack(&mut self, session_id: u64, fragment_index: u64)
        requires
            old(self)@.wf(),
        ensures
            final(self)@.wf(),
            final(self)@ == old(self)@.after_ack(session_id, fragment_index),
    {
        match self.sent_messages.remove(&session_id) {
            Some(info) => {
                let mut info: SentMessageInfo = info;
                info.received_ack_indices.insert(fragment_index);
                self.sent_messages.insert(session_id, info);
                proof {
                    assert(old(self)@.sent.contains_key(session_id));
                    assert(info@ =~= old(self)@.after_ack(session_id, fragment_index).sent[session_id]);
                    assert(self@.sent =~= old(self)@.after_ack(session_id, fragment_index).sent);
                    assert(self@ =~= old(self)@.after_ack(session_id, fragment_index));
                }
            },
            None => {
                assert(self.sent_messages@ =~= old(self).sent_messages@);
                assert(self@ =~= old(self)@);
            },
        }
    }

    /// Marks the route of a session as stale and forgets it.
    fn drop_route(&mut self, session_id: u64)
        requires
            old(self)@.wf(),
        ensures
            final(self)@.wf(),
            final(self)@ == old(self)@.route_dropped(session_id),
    {
        match self.sent_messages.remove(&session_id) {
            Some(info) => {
                let mut info: SentMessageInfo = info;
                info.route_needs_recalculation = true;
                let n: usize = info.original_routing_header.hops.len();
                if n > 0 {
                    let dest: NodeId = info.original_routing_header.hops[n - 1];
                    self.route_cache.remove(&dest);
                }
                self.sent_messages.insert(session_id, info);
                proof {
                    let want = old(self)@.route_dropped(session_id);
                    assert(old(self)@.sent.contains_key(session_id));
                    assert(info@ =~= want.sent[session_id]);
                    assert(self@.sent =~= want.sent);
                    assert(self@.routes =~= want.routes);
                    assert(self@ =~= want);
                }
            },
            None => {
                assert(self.sent_messages@ =~= old(self).sent_messages@);
                assert(self@ =~= old(self)@);
            },
        }
    }
}

/// The first fragment with an index.
pub open spec fn fragment_with(fragments: Seq<Fragment>, index: u64) -> Option<Fragment>
    decreases fragments.len(),
{
    if fragments.len() == 0 {
        None
    } else if fragments[0].fragment_index == index {
        Some(fragments[0])
    } else {
        fragment_with(fragments.subrange(1, fragments.len() as int), index)
    }
}

/// `net` is the network of `a` with a loss counted, both ways, on the link that
/// leads to the hop of a header.
pub open spec fn hop_loss_counted(a: NetView, net: NetView, h: HeaderView) -> bool {
    if 0 < h.hop_index < h.hops.len() {
        loss_counted_both(a, net, h.hops[h.hop_index - 1], h.hops[h.hop_index])
    } else {
        net == a
    }
}

impl ClientView {
    /// The node that a packet with this header came from.
    pub open spec fn hop_before(h: HeaderView) -> Option<NodeId> {
        let k = if h.hop_index > 0 {
            h.hop_index - 1
        } else {
            0
        };
        if k < h.hops.len() {
            Some(h.hops[k])
        } else {
            None
        }
    }

    /// The channels are known, and none of them has `id` at an end.
    pub open spec fn seems_crashed(self, id: NodeId) -> bool {
        match self.channels {
            Some(c) => !mentioned(c, id),
            None => false,
        }
    }

    /// The fragment that a loss concerns.
    pub open spec fn lost_fragment(self, n: Nack, session: u64) -> Option<Fragment> {
        if self.sent.contains_key(session) {
            fragment_with(self.sent[session].fragments, n.fragment_index)
        } else {
            None
        }
    }

    /// `net` is the network after a nack: a node that crashed is gone, a link that
    /// failed is gone, and a link that lost a packet has one more loss.
    pub open spec fn nack_net(self, net: NetView, n: Nack, h: HeaderView, session: u64) -> bool {
        match n.nack_type {
            NackType::ErrorInRouting(node) => match Self::hop_before(h) {
                Some(from) => if self.seems_crashed(node) {
                    net == self.net.without_node(node)
                } else {
                    unlinked(self.net, net, from, node)
                },
                None => net == self.net,
            },
            NackType::DestinationIsDrone => net == self.net,
            NackType::UnexpectedRecipient(_) => hop_loss_counted(self.net, net, h),
            NackType::Dropped => if self.lost_fragment(n, session) is Some {
                hop_loss_counted(self.net, net, h)
            } else {
                net == self.net
            },
        }
    }

    /// The client after a nack that leaves it with `net`.
    pub open spec fn after_nack(self, net: NetView, n: Nack, h: HeaderView, session: u64) -> ClientView {
        match n.nack_type {
            NackType::ErrorInRouting(node) => ClientView {
                net,
                neighbours: if Self::hop_before(h) is Some {
                    without_id(self.neighbours, node)
                } else {
                    self.neighbours
                },
                ..self
            }.route_dropped(session),
            NackType::Dropped => ClientView { net, ..self },
            _ => ClientView { net, ..self }.route_dropped(session),
        }
    }

    /// What leaves upon a nack: a lost fragment, once more along its route.
    pub open spec fn resent(self, n: Nack, session: u64) -> Seq<OutgoingView> {
        match (n.nack_type, self.lost_fragment(n, session)) {
            (NackType::Dropped, Some(f)) => {
                let h = self.sent[session].header;
                if 0 <= h.hop_index < h.hops.len() {
                    self.sending(
                        h.hops[h.hop_index],
                        PacketView {
                            body: BodyView::MsgFragment(f),
                            header: h,
                            session_id: session,
                        },
                    )
                } else {
                    Seq::empty()
                }
            },
            _ => Seq::empty(),
        }
    }

    /// `net` is the network after a packet.
    pub open spec fn packet_net(self, net: NetView, p: PacketView) -> bool {
        match p.body {
            BodyView::FloodResponse(r) => if self.floods.contains_key(r.flood_id) {
                net == self.net
            } else {
                trace_merged(self.net, net, r.path_trace)
            },
            BodyView::Nack(n) => self.nack_net(net, n, p.header, p.session_id),
            _ => net == self.net,
        }
    }

    /// The client after a packet that leaves it with `net`. A response to a flood
    /// under way is kept until the flood is over; any other one is merged at once.
    pub open spec fn after_packet(self, net: NetView, p: PacketView) -> ClientView {
        match p.body {
            BodyView::FloodRequest(r) => self.after_flood_request(r),
            BodyView::FloodResponse(r) => if self.floods.contains_key(r.flood_id) {
                let f = self.floods[r.flood_id];
                ClientView {
                    floods: self.floods.insert(
                        r.flood_id,
                        FloodView { responses: f.responses.push(r), ..f },
                    ),
                    ..self
                }
            } else {
                ClientView { net, ..self }
            },
            BodyView::MsgFragment(f) => self.after_fragment(p.session_id, f),
            BodyView::Ack(a) => self.after_ack(p.session_id, a.fragment_index),
            BodyView::Nack(n) => self.after_nack(net, n, p.header, p.session_id),
        }
    }

    /// What leaves upon a packet.
    pub open spec fn packet_answer(self, p: PacketView) -> Seq<OutgoingView> {
        match p.body {
            BodyView::FloodRequest(r) => self.flood_answer(r),
            BodyView::MsgFragment(f) => self.ack(p, f.fragment_index),
            BodyView::Nack(n) => self.resent(n, p.session_id),
            _ => Seq::empty(),
        }
    }

    /// What a packet tells the client.
    pub open spec fn packet_notice(self, p: PacketView) -> Option<NoticeView> {
        match p.body {
            BodyView::MsgFragment(f) => self.fragment_notice(p.session_id, f),
            _ => None,
        }
    }
}

/// The fragment of a packet, if it carries one, is well sized.
pub open spec fn packet_well_sized(p: PacketView) -> bool {
    match p.body {
        BodyView::MsgFragment(f) => well_sized(f),
        _ => true,
    }
}

fn find_fragment(fragments: &Vec<Fragment>, index: u64) -> (r: Option<Fragment>)
    ensures
        r == fragment_with(fragments@, index),
{
    let mut i: usize = 0;
    assert(fragments@.subrange(0, fragments@.len() as int) =~= fragments@);
    while i < fragments.len()
        invariant
            i <= fragments@.len(),
            fragment_with(fragments@, index) == fragment_with(
                fragments@.subrange(i as int, fragments@.len() as int),
                index,
            ),
        decreases fragments@.len() - i,
    {
        proof {
            let s = fragments@.subrange(i as int, fragments@.len() as int);
            assert(s[0] == fragments@[i as int]);
            assert(s.subrange(1, s.len() as int) =~= fragments@.subrange(
                i + 1,
                fragments@.len() as int,
            ));
        }
        if fragments[i].fragment_index == index {
            return Some(fragments[i]);
        }
        i = i + 1;
    }
    None
}

impl MyClient {
    /// Counts a loss, both ways, on the link that leads to the hop of a header.
    fn count_hop_loss(&mut self, header: &SourceRoutingHeader)
        requires
            old(self)@.wf(),
        ensures
            final(self)@.wf(),
            hop_loss_counted(old(self)@.net, final(self)@.net, header@),
            final(self)@ == (ClientView { net: final(self)@.net, ..old(self)@ }),
    {
        let i: usize = header.hop_index;
        if i > 0 && i < header.hops.len() {
            let from: NodeId = header.hops[i - 1];
            let to: NodeId = header.hops[i];
            self.network.increment_drop(from, to);
            let ghost m = self@.net;
            self.network.increment_drop(to, from);
            assert(crate::known_network::loss_counted(old(self)@.net, m, from, to));
        }
        assert(self@ =~= ClientView { net: self@.net, ..old(self)@ });
    }

    /// Reacts to the report that a packet was not delivered.
    pub fn process_nack(&mut self, nack: &Nack, packet: &Packet, out: &mut Vec<Outgoing>)
        requires
            old(self)@.wf(),
        ensures
            final(self)@.wf(),
            old(self)@.nack_net(final(self)@.net, *nack, packet@.header, packet.session_id),
            final(self)@ == old(self)@.after_nack(
                final(self)@.net,
                *nack,
                packet@.header,
                packet.session_id,
            ),
            outbox(final(out)@) == outbox(old(out)@) + old(self)@.resent(*nack, packet.session_id),
    {
        let header: &SourceRoutingHeader = &packet.routing_header;
        match nack.nack_type {
            NackType::ErrorInRouting(node) => {
                let k: usize = if header.hop_index > 0 {
                    header.hop_index - 1
                } else {
                    0
                };
                if k < header.hops.len() {
                    let from: NodeId = header.hops[k];
                    let crashed: bool = match &self.shared_senders {
                        Some(s) => !s.mentions(node),
                        None => false,
                    };
                    if crashed {
                        self.network.remove_node(node);
                    } else {
                        self.network.remove_link(from, node);
                    }
                    self.packet_send = remove_id(&self.packet_send, node);
                    proof {
                        crate::packet::lemma_without_id(old(self).packet_send@, node);
                    }
                }
                let ghost m = self@;
                self.drop_route(packet.session_id);
                proof {
                    let want = ClientView {
                        net: self@.net,
                        neighbours: m.neighbours,
                        ..old(self)@
                    };
                    assert(m =~= want);
                    assert(outbox(out@) =~= outbox(old(out)@) + Seq::<OutgoingView>::empty());
                }
            },
            NackType::DestinationIsDrone => {
                self.drop_route(packet.session_id);
                assert(ClientView { net: old(self)@.net, ..old(self)@ } =~= old(self)@);
                assert(outbox(out@) =~= outbox(old(out)@) + Seq::<OutgoingView>::empty());
            },
            NackType::UnexpectedRecipient(_) => {
                self.count_hop_loss(header);
                self.drop_route(packet.session_id);
                assert(outbox(out@) =~= outbox(old(out)@) + Seq::<OutgoingView>::empty());
            },
            NackType::Dropped => {
                let found: Option<(Fragment, SourceRoutingHeader)> = match self.sent_messages.get(
                    &packet.session_id,
                ) {
                    Some(info) => match find_fragment(&info.fragments, nack.fragment_index) {
                        Some(f) => Some((f, info.original_routing_header.clone())),
                        None => None,
                    },
                    None => None,
                };
                match found {
                    Some((fragment, routing)) => {
                        assert(old(self)@.sent.contains_key(packet.session_id));
                        self.count_hop_loss(header);
                        let i: usize = routing.hop_index;
                        if i < routing.hops.len() {
                            let first: NodeId = routing.hops[i];
                            let resend = Packet {
                                pack_type: PacketType::MsgFragment(fragment),
                                routing_header: routing,
                                session_id: packet.session_id,
                            };
                            self.send_to_neighbor(first, resend, out);
                        } else {
                            assert(outbox(out@) =~= outbox(old(out)@)
                                + Seq::<OutgoingView>::empty());
                        }
                    },
                    None => {
                        assert(self@ =~= ClientView { net: self@.net, ..old(self)@ });
                        assert(outbox(out@) =~= outbox(old(out)@) + Seq::<OutgoingView>::empty());
                    },
                }
            },
        }
    }

    /// Takes in what a flood response tells of the network.
    pub fn create_topology(&mut self, response: &FloodResponse)
        requires
            old(self)@.wf(),
        ensures
            final(self)@.wf(),
            trace_merged(old(self)@.net, final(self)@.net, response@.path_trace),
            final(self)@ == (ClientView { net: final(self)@.net, ..old(self)@ }),
    {
        self.network.create_topology(&response.path_trace);
        assert(self@ =~= ClientView { net: self@.net, ..old(self)@ });
    }

    /// Takes a packet in; tells what the message says that it completes.
    pub fn process_packet(&mut self, packet: &Packet, out: &mut Vec<Outgoing>) -> (r: Option<Notice>)
        requires
            old(self)@.wf(),
            packet_well_sized(packet@),
        ensures
            final(self)@.wf(),
            old(self)@.packet_net(final(self)@.net, packet@),
            final(self)@ == old(self)@.after_packet(final(self)@.net, packet@),
            outbox(final(out)@) == outbox(old(out)@) + old(self)@.packet_answer(packet@),
            notice_view(r) == old(self)@.packet_notice(packet@),
    {
        assert(outbox(out@) + Seq::<OutgoingView>::empty() =~= outbox(out@));
        match &packet.pack_type {
            PacketType::FloodRequest(request) => {
                self.process_flood_request(request, out);
                None
            },
            PacketType::FloodResponse(response) => {
                let id: u64 = response.flood_id;
                match self.active_flood_discoveries.remove(&id) {
                    Some(state) => {
                        let mut state: FloodDiscoveryState = state;
                        let ghost before = state@;
                        let ghost list = state.received_responses@;
                        state.received_responses.push(response.clone());
                        self.active_flood_discoveries.insert(id, state);
                        proof {
                            assert(responses_of(state.received_responses@) =~= responses_of(list).push(
                                response@,
                            ));
                            assert(old(self)@.floods.contains_key(id));
                            let want = old(self)@.after_packet(self@.net, packet@);
                            assert(self@.floods =~= want.floods);
                            assert(self@ =~= want);
                        }
                    },
                    None => {
                        assert(self.active_flood_discoveries@ =~= old(
                            self,
                        ).active_flood_discoveries@);
                        assert(self@ =~= old(self)@);
                        self.create_topology(response);
                    },
                }
                None
            },
            PacketType::MsgFragment(fragment) => {
                self.send_ack(packet, fragment, out);
                self.reassemble_packet(packet.session_id, fragment)
            },
            PacketType::Ack(ack) => {
                self.note_ack(packet.session_id, ack.fragment_index);
                None
            },
            PacketType::Nack(nack) => {
                self.process_nack(nack, packet, out);
                None
            },
        }
    }
}

/// `b` is `a` with the traces of responses merged in, one after the other.
pub open spec fn responses_merged(a: NetView, b: NetView, r: Seq<FloodResponseView>) -> bool
    decreases r.len(),
{
    if r.len() == 0 {
        b == a
    } else {
        exists|m: NetView|
            responses_merged(a, m, r.drop_last()) && #[trigger] trace_merged(
                m,
                b,
                r.last().path_trace,
            )
    }
}

/// `b` is `a` with the responses to several floods merged in.
pub open spec fn floods_merged(
    a: NetView,
    b: NetView,
    floods: Map<u64, FloodView>,
    order: Seq<u64>,
) -> bool
    decreases order.len(),
{
    if order.len() == 0 {
        b == a
    } else {
        exists|m: NetView|
            floods_merged(a, m, floods, order.drop_last()) && #[trigger] responses_merged(
                m,
                b,
                floods[order.last()].responses,
            )
    }
}

/// The time for a flood is up.
pub open spec fn expired(f: FloodView, now: u64) -> bool {
    now - f.start > FLOOD_TIMEOUT
}

/// The floods whose time is up.
pub open spec fn expired_floods(floods: Map<u64, FloodView>, now: u64) -> Set<u64> {
    Set::new(|k: u64| floods.contains_key(k) && expired(floods[k], now))
}

/// `b` is `a` after the message `text` has been sent along `path`: `counter` gives
/// the session.
pub open spec fn sent_along(
    a: ClientView,
    b: ClientView,
    dest: NodeId,
    path: Seq<NodeId>,
    text: Seq<char>,
    counter: u64,
    added: Seq<OutgoingView>,
) -> bool {
    exists|fragments: Seq<Fragment>|
        {
            &&& #[trigger] are_chunks(fragments, encode_utf8(text))
            &&& b == a.message_sent(dest, path, fragments, next_id(counter))
            &&& added == a.fragment_packets(path, fragments, next_id(counter))
        }
}

/// The client with the network that a search for a route leaves behind.
pub open spec fn after_search(a: ClientView, dest: NodeId) -> ClientView {
    ClientView { net: a.net.after_best_path(a.id, dest, a.channels), ..a }
}

/// A waiting command, handled after a flood: it is sent where there is a route
/// now, else it is lost. A logout that was sent ends the connection.
pub open spec fn pending_handled(
    a: ClientView,
    b: ClientView,
    command: (NodeId, Seq<char>),
    c0: u64,
    c1: u64,
    added: Seq<OutgoingView>,
) -> bool {
    exists|path: Option<Seq<NodeId>>|
        {
            &&& #[trigger] a.net.best_path_is(a.id, command.0, a.channels, path)
            &&& match path {
                None => b == after_search(a, command.0) && c1 == c0 && added == Seq::<
                    OutgoingView,
                >::empty(),
                Some(p) => {
                    &&& c1 == next_id(c0)
                    &&& exists|m: ClientView| #[trigger]
                        sent_along(
                            after_search(a, command.0),
                            m,
                            command.0,
                            p,
                            command.1,
                            c0,
                            added,
                        ) && b == (if begins_with(command.1, "[Logout]"@) {
                            ClientView { server: None, ..m }
                        } else {
                            m
                        })
                },
            }
        }
}

/// Waiting commands, handled one after the other.
pub open spec fn all_pending_handled(
    a: ClientView,
    b: ClientView,
    commands: Seq<(NodeId, Seq<char>)>,
    c0: u64,
    c1: u64,
    added: Seq<OutgoingView>,
) -> bool
    decreases commands.len(),
{
    if commands.len() == 0 {
        b == a && c1 == c0 && added == Seq::<OutgoingView>::empty()
    } else {
        exists|m: ClientView, cm: u64, cut: int|
            {
                &&& 0 <= cut <= added.len()
                &&& all_pending_handled(
                    a,
                    m,
                    commands.drop_last(),
                    c0,
                    cm,
                    added.subrange(0, cut),
                )
                &&& #[trigger] pending_handled(
                    m,
                    b,
                    commands.last(),
                    cm,
                    c1,
                    added.subrange(cut, added.len() as int),
                )
            }
    }
}

/// `m` is `a` once the floods whose time is up have been merged, in some order.
pub open spec fn floods_closed(a: ClientView, m: ClientView, now: u64) -> bool {
    &&& exists|order: Seq<u64>|
        {
            &&& order.no_duplicates()
            &&& order.to_set() == expired_floods(a.floods, now)
            &&& #[trigger] floods_merged(a.net, m.net, a.floods, order)
        }
    &&& m == (ClientView {
        net: m.net,
        floods: a.floods.remove_keys(expired_floods(a.floods, now)),
        ..a
    })
}

/// The client after a look at the floods under way. Where the time of one is up,
/// the commands that wait are handled.
pub open spec fn timeouts_checked(
    a: ClientView,
    b: ClientView,
    now: u64,
    c0: u64,
    c1: u64,
    added: Seq<OutgoingView>,
) -> bool {
    exists|m: ClientView|
        {
            &&& #[trigger] floods_closed(a, m, now)
            &&& if expired_floods(a.floods, now) == Set::<u64>::empty() {
                b == m && c1 == c0 && added == Seq::<OutgoingView>::empty()
            } else {
                all_pending_handled(
                    ClientView { pending: Seq::empty(), ..m },
                    b,
                    a.pending,
                    c0,
                    c1,
                    added,
                )
            }
        }
}

impl MyClient {
    /// Merges the responses to a flood and ends it.
    pub fn finalize_flood_discovery_topology(&mut self, flood_id: u64)
        requires
            old(self)@.wf(),
        ensures
            final(self)@.wf(),
            final(self)@ == (ClientView {
                net: final(self)@.net,
                floods: old(self)@.floods.remove(flood_id),
                ..old(self)@
            }),
            if old(self)@.floods.contains_key(flood_id) {
                responses_merged(
                    old(self)@.net,
                    final(self)@.net,
                    old(self)@.floods[flood_id].responses,
                )
            } else {
                final(self)@.net == old(self)@.net
            },
    {
        let state: Option<FloodDiscoveryState> = self.active_flood_discoveries.remove(&flood_id);
        proof {
            assert(self@.floods =~= old(self)@.floods.remove(flood_id));
        }
        if let Some(state) = state {
            let ghost all = state@.responses;
            let ghost floods = self@.floods;
            let mut i: usize = 0;
            assert(all.subrange(0, 0) =~= Seq::<FloodResponseView>::empty());
            while i < state.received_responses.len()
                invariant
                    self@.wf(),
                    i <= state.received_responses@.len(),
                    all == responses_of(state.received_responses@),
                    floods == old(self)@.floods.remove(flood_id),
                    self@ == (ClientView { net: self@.net, floods, ..old(self)@ }),
                    responses_merged(old(self)@.net, self@.net, all.subrange(0, i as int)),
                decreases state.received_responses@.len() - i,
            {
                let ghost m = self@.net;
                self.create_topology(&state.received_responses[i]);
                proof {
                    let s = all.subrange(0, i + 1);
                    assert(s.drop_last() =~= all.subrange(0, i as int));
                    assert(s.last() == state.received_responses@[i as int]@);
                    assert(responses_merged(old(self)@.net, m, s.drop_last()));
                    assert(trace_merged(m, self@.net, s.last().path_trace));
                    assert(responses_merged(old(self)@.net, self@.net, s));
                }
                i = i + 1;
            }
            assert(all.subrange(0, i as int) =~= all);
        }
        assert(self@ =~= ClientView {
            net: self@.net,
            floods: old(self)@.floods.remove(flood_id),
            ..old(self)@
        });
    }

    /// Sends a message along a path: its fragments are kept, and leave where the
    /// path has a next hop.
    fn send_along(
        &mut self,
        dest: NodeId,
        path: Vec<NodeId>,
        text: &str,
        counter: &mut u64,
        out: &mut Vec<Outgoing>,
    )
        requires
            old(self)@.wf(),
        ensures
            final(self)@.wf(),
            *final(counter) == next_id(*old(counter)),
            exists|added: Seq<OutgoingView>|
                {
                    &&& #[trigger] sent_along(
                        old(self)@,
                        final(self)@,
                        dest,
                        path@,
                        text@,
                        *old(counter),
                        added,
                    )
                    &&& outbox(final(out)@) == outbox(old(out)@) + added
                },
    {
        let fragments: Vec<Fragment> = fragment_bytes(text.as_bytes());
        let session_id: u64 = draw_id(counter);
        let header = SourceRoutingHeader { hop_index: 1, hops: copy_ids(&path) };
        let ghost a = self@;
        let ghost packets = a.fragment_packets(path@, fragments@, session_id);
        if path.len() > 1 {
            let first: NodeId = path[1];
            let mut i: usize = 0;
            while i < fragments.len()
                invariant
                    self@ == a,
                    i <= fragments@.len(),
                    path@.len() > 1,
                    first == path@[1],
                    header@ == (HeaderView { hop_index: 1, hops: path@ }),
                    packets == a.fragment_packets(path@, fragments@, session_id),
                    outbox(out@) == outbox(old(out)@) + (if a.reaches(first) {
                        packets.subrange(0, i as int)
                    } else {
                        packets
                    }),
                decreases fragments@.len() - i,
            {
                let packet = Packet {
                    pack_type: PacketType::MsgFragment(fragments[i]),
                    routing_header: header.clone(),
                    session_id,
                };
                let ghost before = outbox(out@);
                self.send_to_neighbor(first, packet, out);
                proof {
                    if a.reaches(first) {
                        assert(packets[i as int] == (OutgoingView { to: first, packet: packet@ }));
                        assert(packets.subrange(0, i + 1) =~= packets.subrange(0, i as int).push(
                            packets[i as int],
                        ));
                        assert(outbox(out@) =~= outbox(old(out)@) + packets.subrange(0, i + 1));
                    } else {
                        assert(outbox(out@) =~= before);
                    }
                }
                i = i + 1;
            }
            assert(packets.subrange(0, packets.len() as int) =~= packets);
        }
        assert(outbox(out@) =~= outbox(old(out)@) + packets);
        let info = SentMessageInfo {
            fragments,
            original_routing_header: header,
            received_ack_indices: HashSet::new(),
            route_needs_recalculation: false,
        };
        self.route_cache.insert(dest, path);
        self.sent_messages.insert(session_id, info);
        proof {
            let want = a.message_sent(dest, path@, fragments@, session_id);
            assert(info@ =~= want.sent[session_id]);
            assert(self@.sent =~= want.sent);
            assert(self@.routes =~= want.routes);
            assert(self@ =~= want);
            assert(sent_along(a, self@, dest, path@, text@, *old(counter), packets));
        }
    }

    /// Handles a command that waited for a route.
    fn handle_pending(
        &mut self,
        dest: NodeId,
        command: &str,
        counter: &mut u64,
        out: &mut Vec<Outgoing>,
    )
        requires
            old(self)@.wf(),
        ensures
            final(self)@.wf(),
            exists|added: Seq<OutgoingView>|
                {
                    &&& #[trigger] pending_handled(
                        old(self)@,
                        final(self)@,
                        (dest, command@),
                        *old(counter),
                        *final(counter),
                        added,
                    )
                    &&& outbox(final(out)@) == outbox(old(out)@) + added
                },
    {
        let ghost a = self@;
        let path: Option<Vec<NodeId>> = self.network.best_path(self.id, dest, &self.shared_senders);
        assert(self@ =~= after_search(a, dest));
        assert(a.net.best_path_is(a.id, dest, a.channels, ids_view(path)));
        match path {
            Some(path) => {
                self.send_along(dest, path, command, counter, out);
                let ghost m = self@;
                if starts_with(command, "[Logout]") {
                    self.connected_server_id = None;
                    assert(self@ =~= ClientView { server: None, ..m });
                }
                proof {
                    let added = choose|added: Seq<OutgoingView>|
                        {
                            &&& #[trigger] sent_along(
                                after_search(a, dest),
                                m,
                                dest,
                                path@,
                                command@,
                                *old(counter),
                                added,
                            )
                            &&& outbox(out@) == outbox(old(out)@) + added
                        };
                    let given = (dest, command@);
                    assert(sent_along(
                        after_search(a, given.0),
                        m,
                        given.0,
                        path@,
                        given.1,
                        *old(counter),
                        added,
                    ));
                    assert(a.net.best_path_is(a.id, given.0, a.channels, Some(path@)));
                    assert(pending_handled(a, self@, given, *old(counter), *counter, added));
                }
            },
            None => {
                let ghost added = Seq::<OutgoingView>::empty();
                assert(outbox(out@) =~= outbox(old(out)@) + added);
                assert(pending_handled(
                    a,
                    self@,
                    (dest, command@),
                    *old(counter),
                    *counter,
                    added,
                ));
            },
        }
    }

    /// The floods whose time is up, each one once.
    fn overdue(&self, now: u64) -> (r: Vec<u64>)
        ensures
            r@.no_duplicates(),
            r@.to_set() == expired_floods(self@.floods, now),
    {
        let all: Vec<u64> = keys_of(&self.active_flood_discoveries);
        let mut r: Vec<u64> = Vec::new();
        let mut i: usize = 0;
        while i < all.len()
            invariant
                i <= all@.len(),
                all@.no_duplicates(),
                all@.to_set() == self.active_flood_discoveries@.dom(),
                r@.no_duplicates(),
                forall|k: u64| #[trigger]
                    r@.contains(k) <==> all@.subrange(0, i as int).contains(k) && expired(
                        self.active_flood_discoveries@[k]@,
                        now,
                    ),
            decreases all@.len() - i,
        {
            let k: u64 = all[i];
            let ghost s = all@.subrange(0, i as int);
            let ghost t = all@.subrange(0, i + 1);
            let ghost before = r@;
            proof {
                assert(all@.to_set().contains(k));
                assert(!s.contains(k)) by {
                    if s.contains(k) {
                        let j = s.index_of(k);
                        assert(all@[j] == all@[i as int]);
                    }
                }
                assert(t =~= s.push(k));
            }
            let due: bool = match self.active_flood_discoveries.get(&k) {
                Some(state) => now > state.start_time && now - state.start_time > FLOOD_TIMEOUT,
                None => false,
            };
            if due {
                r.push(k);
            }
            proof {
                assert forall|x: u64| #[trigger] r@.contains(x) <==> t.contains(x) && expired(
                    self.active_flood_discoveries@[x]@,
                    now,
                ) by {
                    assert(t.contains(x) <==> s.contains(x) || x == k) by {
                        if s.contains(x) {
                            assert(t[s.index_of(x)] == x);
                        }
                        if t.contains(x) && x != k {
                            assert(s[t.index_of(x)] == x);
                        }
                        assert(t[i as int] == k);
                    }
                    assert(r@.contains(x) <==> before.contains(x) || (due && x == k)) by {
                        if before.contains(x) {
                            assert(r@[before.index_of(x)] == x);
                        }
                        if r@.contains(x) && !(due && x == k) {
                            assert(before[r@.index_of(x)] == x);
                        }
                        if due {
                            assert(r@[before.len() as int] == k);
                        }
                    }
                }
                assert(!before.contains(k));
                assert forall|p: int, q: int| 0 <= p < q < r@.len() implies r@[p] != r@[q] by {
                    if q == before.len() {
                        assert(before.contains(before[p]));
                    }
                }
            }
            i = i + 1;
        }
        proof {
            assert(all@.subrange(0, i as int) =~= all@);
            assert forall|k: u64| r@.to_set().contains(k) <==> expired_floods(self@.floods, now).contains(
                k,
            ) by {
                assert(r@.contains(k) <==> all@.contains(k) && expired(
                    self.active_flood_discoveries@[k]@,
                    now,
                ));
                assert(all@.contains(k) <==> all@.to_set().contains(k));
                assert(self@.floods.contains_key(k) <==> self.active_flood_discoveries@.contains_key(k));
            }
            assert(r@.to_set() =~= expired_floods(self@.floods, now));
        }
        r
    }

    /// Merges the floods whose time is up.
    fn close_floods(&mut self, now: u64) -> (any: bool)
        requires
            old(self)@.wf(),
        ensures
            final(self)@.wf(),
            floods_closed(old(self)@, final(self)@, now),
            any == (expired_floods(old(self)@.floods, now) != Set::<u64>::empty()),
    {
        let order: Vec<u64> = self.overdue(now);
        let mut i: usize = 0;
        let ghost a = self@;
        assert(order@.subrange(0, 0) =~= Seq::<u64>::empty());
        assert(a.floods.remove_keys(Set::empty()) =~= a.floods);
        assert(order@.subrange(0, 0).to_set() =~= Set::<u64>::empty());
        while i < order.len()
            invariant
                a == old(self)@,
                self@.wf(),
                i <= order@.len(),
                order@.no_duplicates(),
                order@.to_set() == expired_floods(a.floods, now),
                floods_merged(a.net, self@.net, a.floods, order@.subrange(0, i as int)),
                self@ == (ClientView {
                    net: self@.net,
                    floods: a.floods.remove_keys(order@.subrange(0, i as int).to_set()),
                    ..a
                }),
            decreases order@.len() - i,
        {
            let ghost m = self@;
            let k: u64 = order[i];
            let ghost s = order@.subrange(0, i as int);
            let ghost t = order@.subrange(0, i + 1);
            proof {
                assert(order@.to_set().contains(k));
                assert(!s.contains(k)) by {
                    if s.contains(k) {
                        let j = s.index_of(k);
                        assert(order@[j] == order@[i as int]);
                    }
                }
                assert(m.floods.contains_key(k));
                assert(m.floods[k] == a.floods[k]);
            }
            self.finalize_flood_discovery_topology(k);
            proof {
                assert(t.drop_last() =~= s);
                assert(t.last() == k);
                assert(floods_merged(a.net, m.net, a.floods, t.drop_last()));
                assert(responses_merged(m.net, self@.net, a.floods[t.last()].responses));
                assert(floods_merged(a.net, self@.net, a.floods, t));
                assert(t =~= s.push(k));
                assert forall|x: u64| t.to_set().contains(x) <==> s.to_set().insert(k).contains(x) by {
                    if s.contains(x) {
                        assert(t[s.index_of(x)] == x);
                    }
                    if t.contains(x) && x != k {
                        assert(s[t.index_of(x)] == x);
                    }
                    assert(t[i as int] == k);
                }
                assert(t.to_set() =~= s.to_set().insert(k));
                assert(m.floods.remove(k) =~= a.floods.remove_keys(t.to_set()));
                assert(self@ =~= ClientView {
                    net: self@.net,
                    floods: a.floods.remove_keys(t.to_set()),
                    ..a
                });
            }
            i = i + 1;
        }
        proof {
            assert(order@.subrange(0, i as int) =~= order@);
            assert(floods_merged(a.net, self@.net, a.floods, order@));
            if order@.len() > 0 {
                assert(order@.to_set().contains(order@[0]));
            } else {
                assert(order@.to_set() =~= Set::<u64>::empty());
            }
        }
        order.len() > 0
    }

    /// Ends the floods whose time is up. Where there is one, the commands that
    /// waited for a route are handled.
    pub fn check_flood_discoveries_timeouts(
        &mut self,
        now: u64,
        counter: &mut u64,
        out: &mut Vec<Outgoing>,
    )
        requires
            old(self)@.wf(),
        ensures
            final(self)@.wf(),
            exists|added: Seq<OutgoingView>|
                {
                    &&& #[trigger] timeouts_checked(
                        old(self)@,
                        final(self)@,
                        now,
                        *old(counter),
                        *final(counter),
                        added,
                    )
                    &&& outbox(final(out)@) == outbox(old(out)@) + added
                },
    {
        let ghost a = self@;
        let any: bool = self.close_floods(now);
        let ghost m = self@;
        let ghost nothing = Seq::<OutgoingView>::empty();
        assert(outbox(out@) =~= outbox(old(out)@) + nothing);
        if !any {
            assert(timeouts_checked(a, self@, now, *old(counter), *counter, nothing));
            return;
        }
        let mut list: Vec<(NodeId, String)> = Vec::new();
        std::mem::swap(&mut list, &mut self.pending_messages_after_flood);
        let ghost start = ClientView { pending: Seq::empty(), ..m };
        let ghost all = pending_of(list@);
        assert(self@.pending =~= Seq::<(NodeId, Seq<char>)>::empty());
        assert(self@ =~= start);
        assert(all =~= a.pending);
        let ghost mut added = nothing;
        let mut i: usize = 0;
        assert(all.subrange(0, 0) =~= Seq::<(NodeId, Seq<char>)>::empty());
        while i < list.len()
            invariant
                self@.wf(),
                i <= list@.len(),
                all == pending_of(list@),
                all_pending_handled(
                    start,
                    self@,
                    all.subrange(0, i as int),
                    *old(counter),
                    *counter,
                    added,
                ),
                outbox(out@) == outbox(old(out)@) + added,
            decreases list@.len() - i,
        {
            let ghost before = self@;
            let ghost cm = *counter;
            let ghost posted = outbox(out@);
            let dest: NodeId = list[i].0;
            self.handle_pending(dest, list[i].1.as_str(), counter, out);
            proof {
                let s = all.subrange(0, i + 1);
                assert(s.drop_last() =~= all.subrange(0, i as int));
                assert(s.last() == all[i as int]);
                assert(all[i as int] == (dest, list@[i as int].1@));
                let last = choose|last: Seq<OutgoingView>|
                    {
                        &&& #[trigger] pending_handled(before, self@, s.last(), cm, *counter, last)
                        &&& outbox(out@) == posted + last
                    };
                assert(all_pending_handled(start, before, s.drop_last(), *old(counter), cm, added));
                assert(pending_handled(before, self@, s.last(), cm, *counter, last));
                let more = added + last;
                assert(outbox(out@) =~= outbox(old(out)@) + more);
                let cut = added.len() as int;
                assert(more.subrange(0, cut) =~= added);
                assert(more.subrange(cut, more.len() as int) =~= last);
                assert(pending_handled(
                    before,
                    self@,
                    s.last(),
                    cm,
                    *counter,
                    more.subrange(cut, more.len() as int),
                ));
                assert(all_pending_handled(start, self@, s, *old(counter), *counter, more));
                added = more;
            }
            i = i + 1;
        }
        proof {
            assert(all.subrange(0, i as int) =~= all);
            assert(floods_closed(a, m, now));
            assert(timeouts_checked(a, self@, now, *old(counter), *counter, added));
        }
    }
}

/// A command with an id behind its tag.
pub open spec fn with_id(tag: Seq<char>, id: NodeId) -> Seq<char> {
    tag + "::"@ + decimal(id as nat)
}

/// A command with two texts behind its tag.
pub open spec fn with_two(tag: Seq<char>, a: Seq<char>, b: Seq<char>) -> Seq<char> {
    tag + "::"@ + (a + "::"@ + b)
}

/// The text, where the client is logged in.
pub open spec fn if_logged_in(server: Option<NodeId>, text: Seq<char>) -> Option<Seq<char>> {
    if server is Some {
        Some(text)
    } else {
        None
    }
}

/// The message that a command of the user becomes. Only a login needs no server.
pub open spec fn message_of(server: Option<NodeId>, t: Seq<Seq<char>>) -> Option<Seq<char>> {
    if t.len() == 2 && t[0] == "[Login]"@ {
        match id_number(t[1]) {
            Some(id) => Some(with_id("[Login]"@, id)),
            None => None,
        }
    } else if t.len() == 1 && (t[0] == "[Logout]"@ || t[0] == "[ClientListRequest]"@ || t[0]
        == "[MediaListRequest]"@) {
        if_logged_in(server, t[0])
    } else if t.len() == 3 && t[0] == "[MessageTo]"@ {
        match id_number(t[1]) {
            Some(id) => if_logged_in(server, with_two(t[0], decimal(id as nat), t[2])),
            None => None,
        }
    } else if t.len() == 2 && (t[0] == "[ChatRequest]"@ || t[0] == "[ChatFinish]"@) {
        match id_number(t[1]) {
            Some(id) => if_logged_in(server, with_id(t[0], id)),
            None => None,
        }
    } else if t.len() == 3 && (t[0] == "[MediaUpload]"@ || t[0] == "[MediaBroadcast]"@) {
        if_logged_in(server, with_two(t[0], t[1], t[2]))
    } else if t.len() == 2 && t[0] == "[MediaDownloadRequest]"@ {
        if_logged_in(server, t[0] + "::"@ + t[1])
    } else if t.len() == 3 && t[0] == "[HistoryRequest]"@ {
        match (id_number(t[1]), id_number(t[2])) {
            (Some(a), Some(b)) => if_logged_in(
                server,
                with_two(t[0], decimal(a as nat), decimal(b as nat)),
            ),
            _ => None,
        }
    } else {
        None
    }
}

/// The server that the client is logged in at after a command of the user, as far
/// as the command itself decides it.
pub open spec fn server_after(server: Option<NodeId>, t: Seq<Seq<char>>) -> Option<NodeId> {
    if t.len() == 2 && t[0] == "[Login]"@ && id_number(t[1]) is Some {
        id_number(t[1])
    } else {
        server
    }
}

/// The client with a command that waits for a route.
pub open spec fn waiting(a: ClientView, dest: NodeId, command: Seq<char>) -> ClientView {
    ClientView { pending: a.pending.push((dest, command)), ..a }
}

/// A message for `dest`: it is sent where there is a route, and a logout that was
/// sent ends the connection. Without a route the command waits, and a flood is
/// started unless a young one is under way. A path of one node has no next hop:
/// then a flood is started, too.
pub open spec fn dispatched(
    a: ClientView,
    b: ClientView,
    dest: NodeId,
    text: Seq<char>,
    command: Seq<char>,
    logout: bool,
    now: u64,
    c0: u64,
    c1: u64,
    added: Seq<OutgoingView>,
) -> bool {
    let s = after_search(a, dest);
    exists|path: Option<Seq<NodeId>>|
        {
            &&& #[trigger] a.net.best_path_is(a.id, dest, a.channels, path)
            &&& match path {
                None => if s.own_flood_active(now) {
                    b == waiting(s, dest, command) && c1 == c0 && added == Seq::<
                        OutgoingView,
                    >::empty()
                } else {
                    b == waiting(s.flooding(c0, now), dest, command) && c1 == next_id(c0) && added
                        == s.flood_requests(c0)
                },
                Some(p) => exists|m: ClientView, sent: Seq<OutgoingView>|
                    {
                        &&& #[trigger] sent_along(s, m, dest, p, text, c0, sent)
                        &&& if p.len() > 1 {
                            b == logged_out(m, logout) && c1 == next_id(c0) && added == sent
                        } else {
                            b == logged_out(m.flooding(next_id(c0), now), logout) && c1 == next_id(
                                next_id(c0),
                            ) && added == m.flood_requests(next_id(c0))
                        }
                    },
            }
        }
}

/// The client, off its server where `logout` says so.
pub open spec fn logged_out(a: ClientView, logout: bool) -> ClientView {
    if logout {
        ClientView { server: None, ..a }
    } else {
        a
    }
}

/// A list with an id at its end, where it was not in it.
pub open spec fn with_neighbour(v: Seq<NodeId>, id: NodeId) -> Seq<NodeId> {
    if v.contains(id) {
        v
    } else {
        v.push(id)
    }
}

impl ClientView {
    /// The other end of a link that the client is an end of.
    pub open spec fn peer_of(self, x: NodeId, y: NodeId) -> Option<NodeId> {
        if self.id == x {
            Some(y)
        } else if self.id == y {
            Some(x)
        } else {
            None
        }
    }

    /// A channel leads from the client to `to`.
    pub open spec fn channel_to(self, to: NodeId) -> bool {
        match self.channels {
            Some(c) => c.contains((self.id, to)),
            None => false,
        }
    }

    /// A channel leads from the client to `other` or back.
    pub open spec fn channel_with(self, other: NodeId) -> bool {
        match self.channels {
            Some(c) => c.contains((other, self.id)) || c.contains((self.id, other)),
            None => false,
        }
    }

    /// The change links the client itself to a node that it has a channel to.
    pub open spec fn adds_own_link(self, c: ChangeView) -> bool {
        match c {
            ChangeView::AddSender(x, y) => match self.peer_of(x, y) {
                Some(peer) => self.channel_to(peer),
                None => false,
            },
            _ => false,
        }
    }

    /// `net` is the network after a change.
    pub open spec fn change_net(self, net: NetView, c: ChangeView) -> bool {
        match c {
            ChangeView::AddSender(x, y) => if self.adds_own_link(c) {
                own_link_added(self.net, net, self.id, self.peer_of(x, y)->0)
            } else {
                net == self.net
            },
            ChangeView::RemoveSender(x, y) => if self.peer_of(x, y) is Some {
                unlinked(self.net, net, x, y)
            } else {
                net == self.net
            },
            ChangeView::SpawnDrone(d, _) => if self.channel_with(d) {
                drone_added(self.net, net, d)
            } else {
                net == self.net
            },
            ChangeView::Crash(d) => net == self.net.without_node(d),
            _ => net == self.net,
        }
    }

    /// The neighbours after a change.
    pub open spec fn change_neighbours(self, c: ChangeView) -> Seq<NodeId> {
        match c {
            ChangeView::AddSender(x, y) => if self.adds_own_link(c) {
                with_neighbour(self.neighbours, self.peer_of(x, y)->0)
            } else {
                self.neighbours
            },
            ChangeView::RemoveSender(x, y) => match self.peer_of(x, y) {
                Some(peer) => without_id(self.neighbours, peer),
                None => self.neighbours,
            },
            ChangeView::SpawnDrone(d, _) => if self.channel_with(d) {
                with_neighbour(self.neighbours, d)
            } else {
                self.neighbours
            },
            ChangeView::Crash(d) => without_id(self.neighbours, d),
            _ => self.neighbours,
        }
    }

    /// The client explores the network anew after a change.
    pub open spec fn change_floods(self, c: ChangeView) -> bool {
        match c {
            ChangeView::AddSender(x, y) => self.peer_of(x, y) is Some && self.channels is Some,
            ChangeView::Malformed => false,
            _ => true,
        }
    }
}

/// A change has been taken in: network and neighbours follow it, and a flood is
/// started where the change calls for one.
pub open spec fn change_handled(
    a: ClientView,
    b: ClientView,
    c: ChangeView,
    now: u64,
    c0: u64,
    c1: u64,
    added: Seq<OutgoingView>,
) -> bool {
    let m = ClientView { net: b.net, neighbours: a.change_neighbours(c), ..a };
    &&& a.change_net(b.net, c)
    &&& if a.change_floods(c) {
        b == m.flooding(c0, now) && c1 == next_id(c0) && added == m.flood_requests(c0)
    } else {
        b == m && c1 == c0 && added == Seq::<OutgoingView>::empty()
    }
}

/// A command has been handled: the announcement of a change, or a command of the
/// user.
pub open spec fn command_handled(
    a: ClientView,
    b: ClientView,
    command: Seq<char>,
    now: u64,
    c0: u64,
    c1: u64,
    added: Seq<OutgoingView>,
) -> bool {
    let t = tokens_of(command);
    match announced(command) {
        Some(c) => change_handled(a, b, c, now, c0, c1, added),
        None => {
            let m = ClientView { server: server_after(a.server, t), ..a };
            match (message_of(a.server, t), m.server) {
                (Some(text), Some(dest)) => dispatched(
                    m,
                    b,
                    dest,
                    text,
                    command,
                    t[0] == "[Logout]"@,
                    now,
                    c0,
                    c1,
                    added,
                ),
                _ => b == m && c1 == c0 && added == Seq::<OutgoingView>::empty(),
            }
        },
    }
}

/// The client can take a command in: it knows itself where the command links it.
pub open spec fn command_fits(a: ClientView, command: Seq<char>) -> bool {
    match announced(command) {
        Some(c) => a.adds_own_link(c) ==> a.net.knows(a.id),
        None => true,
    }
}

/// The contents of a text, where there is one.
pub open spec fn text_view(r: Option<String>) -> Option<Seq<char>> {
    match r {
        Some(s) => Some(s@),
        None => None,
    }
}

fn tag_with_id(tag: &str, id: NodeId) -> (r: String)
    ensures
        r@ == with_id(tag@, id),
{
    let number: String = id_text(id);
    join3(tag, "::", number.as_str())
}

fn tag_with_two(tag: &str, a: &str, b: &str) -> (r: String)
    ensures
        r@ == with_two(tag@, a@, b@),
{
    let rest: String = join3(a, "::", b);
    join3(tag, "::", rest.as_str())
}

/// The message that a command of the user becomes.
pub fn gui_message(server: Option<NodeId>, t: &Vec<String>) -> (r: Option<String>)
    requires
        t@.len() >= 1,
    ensures
        text_view(r) == message_of(server, texts(t@)),
{
    let ghost p = texts(t@);
    proof {
        assert forall|i: int| 0 <= i < t@.len() implies #[trigger] t@[i]@ == p[i] by {
            assert(texts(t@)[i] == t@[i]@);
        }
    }
    let n: usize = t.len();
    let tag: &str = t[0].as_str();
    let logged_in: bool = server.is_some();
    if n == 2 && same_text(tag, "[Login]") {
        return match parse_id(t[1].as_str()) {
            Some(id) => Some(tag_with_id("[Login]", id)),
            None => None,
        };
    }
    if n == 1 && (same_text(tag, "[Logout]") || same_text(tag, "[ClientListRequest]") || same_text(
        tag,
        "[MediaListRequest]",
    )) {
        return if logged_in {
            Some(t[0].clone())
        } else {
            None
        };
    }
    if n == 3 && same_text(tag, "[MessageTo]") {
        return match parse_id(t[1].as_str()) {
            Some(id) => if logged_in {
                let number: String = id_text(id);
                Some(tag_with_two(tag, number.as_str(), t[2].as_str()))
            } else {
                None
            },
            None => None,
        };
    }
    if n == 2 && (same_text(tag, "[ChatRequest]") || same_text(tag, "[ChatFinish]")) {
        return match parse_id(t[1].as_str()) {
            Some(id) => if logged_in {
                Some(tag_with_id(tag, id))
            } else {
                None
            },
            None => None,
        };
    }
    if n == 3 && (same_text(tag, "[MediaUpload]") || same_text(tag, "[MediaBroadcast]")) {
        return if logged_in {
            Some(tag_with_two(tag, t[1].as_str(), t[2].as_str()))
        } else {
            None
        };
    }
    if n == 2 && same_text(tag, "[MediaDownloadRequest]") {
        return if logged_in {
            Some(join3(tag, "::", t[1].as_str()))
        } else {
            None
        };
    }
    if n == 3 && same_text(tag, "[HistoryRequest]") {
        return match (parse_id(t[1].as_str()), parse_id(t[2].as_str())) {
            (Some(a), Some(b)) => if logged_in {
                let x: String = id_text(a);
                let y: String = id_text(b);
                Some(tag_with_two(tag, x.as_str(), y.as_str()))
            } else {
                None
            },
            _ => None,
        };
    }
    None
}

impl MyClient {
    /// Whether the client can take a command in.
    pub fn can_process(&self, command: &str) -> (r: bool)
        ensures
            r == command_fits(self@, command@),
    {
        match announcement(command) {
            Some(Change::AddSender(x, y)) => {
                let peer: NodeId = if self.id == x {
                    y
                } else if self.id == y {
                    x
                } else {
                    return true;
                };
                let channel: bool = match &self.shared_senders {
                    Some(s) => s.contains(self.id, peer),
                    None => false,
                };
                !channel || self.network.knows(self.id)
            },
            _ => true,
        }
    }

    fn add_neighbour(&mut self, id: NodeId)
        requires
            old(self)@.wf(),
        ensures
            final(self)@.wf(),
            final(self)@ == (ClientView {
                neighbours: with_neighbour(old(self)@.neighbours, id),
                ..old(self)@
            }),
    {
        if !has_id(&self.packet_send, id) {
            self.packet_send.push(id);
        }
        assert(self@ =~= ClientView {
            neighbours: with_neighbour(old(self)@.neighbours, id),
            ..old(self)@
        });
    }

    fn remove_neighbour(&mut self, id: NodeId)
        requires
            old(self)@.wf(),
        ensures
            final(self)@.wf(),
            final(self)@ == (ClientView {
                neighbours: without_id(old(self)@.neighbours, id),
                ..old(self)@
            }),
    {
        self.packet_send = remove_id(&self.packet_send, id);
        proof {
            crate::packet::lemma_without_id(old(self).packet_send@, id);
            assert(self@ =~= ClientView {
                neighbours: without_id(old(self)@.neighbours, id),
                ..old(self)@
            });
        }
    }

    /// Takes a change of the network in.
    pub fn process_change(
        &mut self,
        change: &Change,
        now: u64,
        counter: &mut u64,
        out: &mut Vec<Outgoing>,
    )
        requires
            old(self)@.wf(),
            old(self)@.adds_own_link(change@) ==> old(self)@.net.knows(old(self)@.id),
        ensures
            final(self)@.wf(),
            exists|added: Seq<OutgoingView>|
                {
                    &&& #[trigger] change_handled(
                        old(self)@,
                        final(self)@,
                        change@,
                        now,
                        *old(counter),
                        *final(counter),
                        added,
                    )
                    &&& outbox(final(out)@) == outbox(old(out)@) + added
                },
    {
        let ghost a = self@;
        let mut flood: bool = true;
        match change {
            Change::AddSender(x, y) => {
                let x: NodeId = *x;
                let y: NodeId = *y;
                if self.id == x || self.id == y {
                    let peer: NodeId = if self.id == x {
                        y
                    } else {
                        x
                    };
                    let channel: bool = match &self.shared_senders {
                        Some(s) => s.contains(self.id, peer),
                        None => {
                            flood = false;
                            false
                        },
                    };
                    if channel {
                        self.network.link_own(self.id, peer);
                        self.add_neighbour(peer);
                    }
                } else {
                    flood = false;
                }
            },
            Change::RemoveSender(x, y) => {
                let x: NodeId = *x;
                let y: NodeId = *y;
                if self.id == x || self.id == y {
                    let peer: NodeId = if self.id == x {
                        y
                    } else {
                        x
                    };
                    self.network.remove_link(x, y);
                    self.remove_neighbour(peer);
                }
            },
            Change::SpawnDrone(d, _) => {
                let d: NodeId = *d;
                let channel: bool = match &self.shared_senders {
                    Some(s) => s.contains(d, self.id) || s.contains(self.id, d),
                    None => false,
                };
                if channel {
                    self.network.add_drone(d);
                    self.add_neighbour(d);
                }
            },
            Change::Crash(d) => {
                let d: NodeId = *d;
                self.network.remove_node(d);
                self.remove_neighbour(d);
            },
            Change::Malformed => {
                flood = false;
            },
            Change::Other => {},
        }
        let ghost m = ClientView {
            net: self@.net,
            neighbours: a.change_neighbours(change@),
            ..a
        };
        assert(self@ =~= m);
        assert(flood == a.change_floods(change@));
        assert(a.change_net(self@.net, change@));
        if flood {
            self.start_flood_discovery(counter, now, out);
            assert(change_handled(
                a,
                self@,
                change@,
                now,
                *old(counter),
                *counter,
                m.flood_requests(*old(counter)),
            ));
        } else {
            let ghost added = Seq::<OutgoingView>::empty();
            assert(outbox(out@) =~= outbox(old(out)@) + added);
            assert(change_handled(a, self@, change@, now, *old(counter), *counter, added));
        }
    }

    /// Whether a young flood of one's own is under way.
    fn own_flood_active(&self, now: u64) -> (r: bool)
        ensures
            r == self@.own_flood_active(now),
    {
        let all: Vec<u64> = keys_of(&self.active_flood_discoveries);
        let mut i: usize = 0;
        while i < all.len()
            invariant
                i <= all@.len(),
                all@.to_set() == self.active_flood_discoveries@.dom(),
                forall|j: int|
                    0 <= j < i ==> !(self@.floods[#[trigger] all@[j]].initiator == self@.id && now
                        - self@.floods[all@[j]].start < FLOOD_RENEWAL),
            decreases all@.len() - i,
        {
            let k: u64 = all[i];
            assert(all@.to_set().contains(k));
            match self.active_flood_discoveries.get(&k) {
                Some(state) => {
                    if state.initiator_id == self.id && (now <= state.start_time || now
                        - state.start_time < FLOOD_RENEWAL) {
                        assert(self@.floods.contains_key(k));
                        return true;
                    }
                },
                None => {},
            }
            i = i + 1;
        }
        proof {
            assert forall|k: u64| #[trigger] self@.floods.contains_key(k) implies !(
            self@.floods[k].initiator == self@.id && now - self@.floods[k].start < FLOOD_RENEWAL) by {
                assert(all@.to_set().contains(k));
                let j = all@.index_of(k);
                assert(all@[j] == k);
            }
        }
        false
    }

    /// Sends a message to a server, or lets the command wait for a route.
    fn dispatch(
        &mut self,
        dest: NodeId,
        text: &str,
        command: &str,
        logout: bool,
        now: u64,
        counter: &mut u64,
        out: &mut Vec<Outgoing>,
    )
        requires
            old(self)@.wf(),
        ensures
            final(self)@.wf(),
            exists|added: Seq<OutgoingView>|
                {
                    &&& #[trigger] dispatched(
                        old(self)@,
                        final(self)@,
                        dest,
                        text@,
                        command@,
                        logout,
                        now,
                        *old(counter),
                        *final(counter),
                        added,
                    )
                    &&& outbox(final(out)@) == outbox(old(out)@) + added
                },
    {
        let ghost a = self@;
        let ghost c0 = *counter;
        let path: Option<Vec<NodeId>> = self.network.best_path(self.id, dest, &self.shared_senders);
        let ghost s = after_search(a, dest);
        assert(self@ =~= s);
        assert(a.net.best_path_is(a.id, dest, a.channels, ids_view(path)));
        match path {
            None => {
                let active: bool = self.own_flood_active(now);
                let ghost mut added = Seq::<OutgoingView>::empty();
                assert(outbox(out@) =~= outbox(old(out)@) + added);
                if !active {
                    self.start_flood_discovery(counter, now, out);
                    proof {
                        added = s.flood_requests(c0);
                    }
                }
                let ghost m = self@;
                let ghost list = self.pending_messages_after_flood@;
                self.pending_messages_after_flood.push((dest, command.to_owned()));
                proof {
                    assert(self@.pending =~= m.pending.push((dest, command@)));
                    assert(self@ =~= waiting(m, dest, command@));
                    assert(a.net.best_path_is(a.id, dest, a.channels, None::<Seq<NodeId>>));
                    assert(dispatched(
                        a,
                        self@,
                        dest,
                        text@,
                        command@,
                        logout,
                        now,
                        c0,
                        *counter,
                        added,
                    ));
                }
            },
            Some(path) => {
                let hops: usize = path.len();
                let ghost p = path@;
                let ghost posted = outbox(out@);
                self.send_along(dest, path, text, counter, out);
                let ghost m = self@;
                let ghost sent = choose|added: Seq<OutgoingView>|
                    {
                        &&& #[trigger] sent_along(s, m, dest, p, text@, c0, added)
                        &&& outbox(out@) == posted + added
                    };
                let ghost mut added = sent;
                if hops <= 1 {
                    assert(sent =~= Seq::<OutgoingView>::empty());
                    assert(outbox(out@) =~= posted);
                    self.start_flood_discovery(counter, now, out);
                    proof {
                        added = m.flood_requests(next_id(c0));
                    }
                }
                let ghost n = self@;
                if logout {
                    self.connected_server_id = None;
                }
                proof {
                    assert(self@ =~= logged_out(n, logout));
                    assert(a.net.best_path_is(a.id, dest, a.channels, Some(p)));
                    assert(sent_along(s, m, dest, p, text@, c0, sent));
                    assert(dispatched(
                        a,
                        self@,
                        dest,
                        text@,
                        command@,
                        logout,
                        now,
                        c0,
                        *counter,
                        added,
                    ));
                }
            },
        }
    }

    /// Handles a command: the announcement of a change, or a command of the user.
    pub fn process_gui_command(
        &mut self,
        command: &str,
        now: u64,
        counter: &mut u64,
        out: &mut Vec<Outgoing>,
    )
        requires
            old(self)@.wf(),
            command_fits(old(self)@, command@),
        ensures
            final(self)@.wf(),
            exists|added: Seq<OutgoingView>|
                {
                    &&& #[trigger] command_handled(
                        old(self)@,
                        final(self)@,
                        command@,
                        now,
                        *old(counter),
                        *final(counter),
                        added,
                    )
                    &&& outbox(final(out)@) == outbox(old(out)@) + added
                },
    {
        let ghost a = self@;
        let ghost c0 = *counter;
        let ghost posted = outbox(out@);
        if let Some(change) = announcement(command) {
            self.process_change(&change, now, counter, out);
            proof {
                let added = choose|added: Seq<OutgoingView>|
                    {
                        &&& #[trigger] change_handled(
                            a,
                            self@,
                            change@,
                            now,
                            c0,
                            *counter,
                            added,
                        )
                        &&& outbox(out@) == posted + added
                    };
                assert(command_handled(a, self@, command@, now, c0, *counter, added));
            }
            return;
        }
        let t: Vec<String> = tokens(command);
        let ghost p = tokens_of(command@);
        proof {
            assert(texts(t@) == p);
            assert forall|i: int| 0 <= i < t@.len() implies #[trigger] t@[i]@ == p[i] by {
                assert(texts(t@)[i] == t@[i]@);
            }
        }
        let message: Option<String> = gui_message(self.connected_server_id, &t);
        if t.len() == 2 && same_text(t[0].as_str(), "[Login]") {
            if let Some(id) = parse_id(t[1].as_str()) {
                self.connected_server_id = Some(id);
            }
        }
        let ghost m = ClientView { server: server_after(a.server, p), ..a };
        assert(self@ =~= m);
        match (message, self.connected_server_id) {
            (Some(text), Some(dest)) => {
                let logout: bool = same_text(t[0].as_str(), "[Logout]");
                self.dispatch(dest, text.as_str(), command, logout, now, counter, out);
                proof {
                    let added = choose|added: Seq<OutgoingView>|
                        {
                            &&& #[trigger] dispatched(
                                m,
                                self@,
                                dest,
                                text@,
                                command@,
                                logout,
                                now,
                                c0,
                                *counter,
                                added,
                            )
                            &&& outbox(out@) == posted + added
                        };
                    assert(command_handled(a, self@, command@, now, c0, *counter, added));
                }
            },
            _ => {
                proof {
                    let added = Seq::<OutgoingView>::empty();
                    assert(outbox(out@) =~= posted + added);
                    assert(command_handled(a, self@, command@, now, c0, *counter, added));
                }
            },
        }
    }
}

/// The view of a notice, where there is one.
pub open spec fn notice_view(r: Option<Notice>) -> Option<NoticeView> {
    match r {
        Some(n) => Some(n@),
        None => None,
    }
}

}
