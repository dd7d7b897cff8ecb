//! A plain drone, without a simulation controller to report to.
use crate::client1::with_neighbour;
use crate::packet::{
    has_id, ids_of_trace, outbox, post, post_each, remove_id, reversed_ids, to_each, trace_ids,
    without_id, Ack, BodyView, FloodRequest, FloodRequestView, FloodResponse, FloodResponseView,
    HeaderView, Nack, NackType, NodeId, NodeType, Outgoing, OutgoingView, Packet, PacketType,
    PacketView, SourceRoutingHeader,
};
use std::collections::HashSet;
use vstd::prelude::*;

verus! {

broadcast use vstd::std_specs::hash::group_hash_axioms;

/// What the simulation controller tells a plain drone.
#[derive(Clone, Copy, PartialEq, Eq, Structural, Debug)]
pub enum ChannelCommand {
    Crash,
    AddChannel(NodeId),
}

/// A flood request on its way to a neighbour.
pub open spec fn spread_request(id: NodeId, to: NodeId, r: FloodRequestView) -> OutgoingView {
    OutgoingView {
        to,
        packet: PacketView {
            body: BodyView::FloodRequest(r),
            header: HeaderView { hop_index: 0, hops: seq![id, to] },
            session_id: 0,
        },
    }
}

/// A flood response that is bound for the beginning of its trace.
pub open spec fn spread_response(r: FloodResponseView) -> PacketView {
    PacketView {
        body: BodyView::FloodResponse(r),
        header: HeaderView { hop_index: 0, hops: trace_ids(r.path_trace).reverse() },
        session_id: 0,
    }
}

#[verifier::ext_equal]
pub struct PlainView {
    pub id: NodeId,
    pub neighbours: Seq<NodeId>,
    pub seen: Set<u64>,
}

impl PlainView {
    /// No neighbour is listed twice.
    pub open spec fn wf(self) -> bool {
        self.neighbours.no_duplicates()
    }

    /// The next hop of a packet is a neighbour.
    pub open spec fn passable(self, p: PacketView) -> bool {
        &&& p.header.hop_index + 1 < p.header.hops.len()
        &&& self.neighbours.contains(p.header.hops[p.header.hop_index + 1])
    }

    /// The drone can take a packet in. What goes back has a previous hop, and a
    /// fragment has a session id after its own. A fragment that is lost at its first hop
    /// needs neither.
    pub open spec fn fits(self, p: PacketView, drop: bool) -> bool {
        let has_previous = 1 <= p.header.hop_index <= p.header.hops.len();
        match p.body {
            BodyView::MsgFragment(_) => (drop && p.header.hop_index == 0) || (p.session_id
                < u64::MAX && ((!drop && self.passable(p)) || has_previous)),
            BodyView::Ack(_) => has_previous,
            BodyView::Nack(_) => has_previous,
            _ => true,
        }
    }

    /// A packet goes to its previous hop where that is a neighbour.
    pub open spec fn back(self, p: PacketView) -> Seq<OutgoingView> {
        let q = PacketView {
            header: HeaderView { hop_index: p.header.hop_index - 1, ..p.header },
            ..p
        };
        let to = p.header.hops[p.header.hop_index - 1];
        if self.neighbours.contains(to) {
            seq![OutgoingView { to, packet: q }]
        } else {
            Seq::empty()
        }
    }

    /// A nack goes back under the next session.
    pub open spec fn nacked(self, p: PacketView, t: NackType) -> Seq<OutgoingView> {
        self.back(
            PacketView {
                body: BodyView::Nack(Nack { fragment_index: p.session_id, nack_type: t }),
                session_id: (p.session_id + 1) as u64,
                ..p
            },
        )
    }

    /// A fragment goes to its next hop, and an ack goes back under the next session.
    pub open spec fn forwarded(self, p: PacketView) -> Seq<OutgoingView> {
        let i = p.header.hop_index + 1;
        let q = PacketView { header: HeaderView { hop_index: i, ..p.header }, ..p };
        if i >= p.header.hops.len() {
            self.nacked(p, NackType::DestinationIsDrone)
        } else if !self.neighbours.contains(p.header.hops[i]) {
            self.nacked(p, NackType::ErrorInRouting(p.header.hops[i]))
        } else {
            seq![OutgoingView { to: p.header.hops[i], packet: q }] + self.back(
                PacketView {
                    body: BodyView::Ack(Ack { fragment_index: p.session_id }),
                    session_id: (p.session_id + 1) as u64,
                    ..q
                },
            )
        }
    }

    /// The answer to a flood request, for each neighbour.
    pub open spec fn answered(self, r: FloodRequestView) -> Seq<OutgoingView> {
        to_each(
            self.neighbours,
            spread_response(
                FloodResponseView {
                    flood_id: r.flood_id,
                    path_trace: r.path_trace.push((self.id, NodeType::Drone)),
                },
            ),
        )
    }

    /// A new request goes to each neighbour but its initiator; a known one is answered.
    pub open spec fn flooded(self, r: FloodRequestView) -> Seq<OutgoingView> {
        if self.seen.contains(r.flood_id) {
            self.answered(r)
        } else {
            without_id(self.neighbours, r.initiator_id).map_values(
                |to: NodeId| spread_request(self.id, to, r),
            )
        }
    }

    /// A new response goes to each neighbour but the last node of its trace.
    pub open spec fn spread_on(self, r: FloodResponseView) -> Seq<OutgoingView> {
        if self.seen.contains(r.flood_id) || r.path_trace.len() == 0 {
            Seq::empty()
        } else {
            to_each(without_id(self.neighbours, r.path_trace.last().0), spread_response(r))
        }
    }

    /// What the drone sends for a packet; `drop` says whether it loses a fragment. Of a
    /// fragment that is lost at its first hop nobody is told.
    pub open spec fn handled(self, p: PacketView, drop: bool) -> Seq<OutgoingView> {
        match p.body {
            BodyView::MsgFragment(_) => if drop && p.header.hop_index == 0 {
                Seq::empty()
            } else if drop {
                self.nacked(p, NackType::Dropped)
            } else {
                self.forwarded(p)
            },
            BodyView::Ack(_) => self.back(p),
            BodyView::Nack(_) => self.back(p),
            BodyView::FloodRequest(r) => self.flooded(r),
            BodyView::FloodResponse(r) => self.spread_on(r),
        }
    }

    /// The drone after a packet: it remembers floods.
    pub open spec fn after_packet(self, p: PacketView) -> PlainView {
        match p.body {
            BodyView::FloodRequest(r) => PlainView { seen: self.seen.insert(r.flood_id), ..self },
            BodyView::FloodResponse(r) => PlainView { seen: self.seen.insert(r.flood_id), ..self },
            _ => self,
        }
    }
}

/// A plain drone.
#[derive(Debug)]
pub struct Drone {
    pub id: NodeId,
    pub packet_send: Vec<NodeId>,
    pub seen_flood_ids: HashSet<u64>,
}

impl View for Drone {
    type V = PlainView;

    open spec fn view(&self) -> PlainView {
        PlainView { id: self.id, neighbours: self.packet_send@, seen: self.seen_flood_ids@ }
    }
}

impl Drone {
    /// A drone without channels.
    pub fn new(id: NodeId) -> (r: Self)
        ensures
            r@ == (PlainView { id, neighbours: Seq::empty(), seen: Set::empty() }),
            r@.wf(),
    {
        Drone { id, packet_send: Vec::new(), seen_flood_ids: HashSet::new() }
    }

    /// Whether the drone can take a packet in.
    pub fn can_process(&self, packet: &Packet, drop: bool) -> (r: bool)
        ensures
            r == self@.fits(packet@, drop),
    {
        let i: usize = packet.routing_header.hop_index;
        let n: usize = packet.routing_header.hops.len();
        let has_previous: bool = 1 <= i && i <= n;
        match &packet.pack_type {
            PacketType::MsgFragment(_) => (drop && i == 0) || (packet.session_id < u64::MAX && ((
            !drop && i < n && i + 1 < n && has_id(
                &self.packet_send,
                packet.routing_header.hops[i + 1],
            )) || has_previous)),
            PacketType::Ack(_) => has_previous,
            PacketType::Nack(_) => has_previous,
            _ => true,
        }
    }

    /// Sends a packet to its previous hop.
    pub fn forward_back(&self, packet: Packet, out: &mut Vec<Outgoing>)
        requires
            1 <= packet@.header.hop_index <= packet@.header.hops.len(),
        ensures
            outbox(final(out)@) == outbox(old(out)@) + self@.back(packet@),
    {
        let ghost p = packet@;
        let mut packet: Packet = packet;
        let i: usize = packet.routing_header.hop_index - 1;
        let to: NodeId = packet.routing_header.hops[i];
        packet.routing_header.hop_index = i;
        if has_id(&self.packet_send, to) {
            post(out, to, packet);
        }
        assert(outbox(out@) =~= outbox(old(out)@) + self@.back(p));
    }

    /// Sends a nack back.
    pub fn send_nack(&self, packet: &Packet, nack_type: NackType, out: &mut Vec<Outgoing>)
        requires
            1 <= packet@.header.hop_index <= packet@.header.hops.len(),
            packet.session_id < u64::MAX,
        ensures
            outbox(final(out)@) == outbox(old(out)@) + self@.nacked(packet@, nack_type),
    {
        let nack = Packet {
            pack_type: PacketType::Nack(Nack { fragment_index: packet.session_id, nack_type }),
            routing_header: packet.routing_header.clone(),
            session_id: packet.session_id + 1,
        };
        self.forward_back(nack, out);
    }

    /// Sends an ack back.
    pub fn send_ack(&self, packet: &Packet, out: &mut Vec<Outgoing>)
        requires
            1 <= packet@.header.hop_index <= packet@.header.hops.len(),
            packet.session_id < u64::MAX,
        ensures
            outbox(final(out)@) == outbox(old(out)@) + self@.back(
                PacketView {
                    body: BodyView::Ack(Ack { fragment_index: packet.session_id }),
                    session_id: (packet.session_id + 1) as u64,
                    ..packet@
                },
            ),
    {
        let ack = Packet {
            pack_type: PacketType::Ack(Ack { fragment_index: packet.session_id }),
            routing_header: packet.routing_header.clone(),
            session_id: packet.session_id + 1,
        };
        self.forward_back(ack, out);
    }

    /// Sends a fragment to its next hop.
    pub fn forward_packet(&self, packet: &Packet, out: &mut Vec<Outgoing>)
        requires
            packet.session_id < u64::MAX,
            self@.passable(packet@) || 1 <= packet@.header.hop_index <= packet@.header.hops.len(),
        ensures
            outbox(final(out)@) == outbox(old(out)@) + self@.forwarded(packet@),
    {
        let n: usize = packet.routing_header.hops.len();
        let i: usize = packet.routing_header.hop_index;
        if i >= n || i + 1 >= n {
            self.send_nack(packet, NackType::DestinationIsDrone, out);
            return;
        }
        let to: NodeId = packet.routing_header.hops[i + 1];
        if !has_id(&self.packet_send, to) {
            self.send_nack(packet, NackType::ErrorInRouting(to), out);
            return;
        }
        let mut next: Packet = packet.clone();
        next.routing_header.hop_index = i + 1;
        post(out, to, next.clone());
        self.send_ack(&next, out);
        assert(outbox(out@) =~= outbox(old(out)@) + self@.forwarded(packet@));
    }

    /// Answers a flood request.
    pub fn send_flood_response(&self, request: &FloodRequest, out: &mut Vec<Outgoing>)
        ensures
            outbox(final(out)@) == outbox(old(out)@) + self@.answered(request@),
    {
        let signed: FloodRequest = request.get_incremented(self.id, NodeType::Drone);
        let ids: Vec<NodeId> = ids_of_trace(&signed.path_trace);
        let packet = Packet {
            pack_type: PacketType::FloodResponse(
                FloodResponse { flood_id: signed.flood_id, path_trace: signed.path_trace },
            ),
            routing_header: SourceRoutingHeader { hop_index: 0, hops: reversed_ids(&ids) },
            session_id: 0,
        };
        post_each(out, &self.packet_send, &packet);
    }

    /// Takes part in a flood.
    pub fn process_flood_request(&mut self, request: &FloodRequest, out: &mut Vec<Outgoing>)
        ensures
            final(self)@ == (PlainView {
                seen: old(self)@.seen.insert(request.flood_id),
                ..old(self)@
            }),
            outbox(final(out)@) == outbox(old(out)@) + old(self)@.flooded(request@),
    {
        let ghost a = self@;
        if self.seen_flood_ids.contains(&request.flood_id) {
            self.send_flood_response(request, out);
            assert(a.seen.insert(request.flood_id) =~= a.seen);
            return;
        }
        self.seen_flood_ids.insert(request.flood_id);
        let others: Vec<NodeId> = remove_id(&self.packet_send, request.initiator_id);
        let ghost all = a.flooded(request@);
        let mut i: usize = 0;
        assert(outbox(out@) =~= outbox(old(out)@) + all.subrange(0, 0));
        while i < others.len()
            invariant
                i <= others@.len(),
                self.id == a.id,
                all == others@.map_values(|to: NodeId| spread_request(a.id, to, request@)),
                outbox(out@) == outbox(old(out)@) + all.subrange(0, i as int),
            decreases others@.len() - i,
        {
            let mut hops: Vec<NodeId> = Vec::new();
            hops.push(self.id);
            hops.push(others[i]);
            let packet = Packet {
                pack_type: PacketType::FloodRequest(request.clone()),
                routing_header: SourceRoutingHeader { hop_index: 0, hops },
                session_id: 0,
            };
            assert(packet@ =~= spread_request(a.id, others@[i as int], request@).packet);
            post(out, others[i], packet);
            i = i + 1;
            assert(outbox(out@) =~= outbox(old(out)@) + all.subrange(0, i as int));
        }
        assert(all.subrange(0, i as int) =~= all);
    }

    /// Hands a flood response on.
    pub fn process_flood_response(&mut self, response: &FloodResponse, out: &mut Vec<Outgoing>)
        ensures
            final(self)@ == (PlainView {
                seen: old(self)@.seen.insert(response.flood_id),
                ..old(self)@
            }),
            outbox(final(out)@) == outbox(old(out)@) + old(self)@.spread_on(response@),
    {
        let ghost a = self@;
        assert(outbox(out@) =~= outbox(out@) + Seq::<OutgoingView>::empty());
        if self.seen_flood_ids.contains(&response.flood_id) {
            assert(a.seen.insert(response.flood_id) =~= a.seen);
            return;
        }
        self.seen_flood_ids.insert(response.flood_id);
        let n: usize = response.path_trace.len();
        if n > 0 {
            let ids: Vec<NodeId> = ids_of_trace(&response.path_trace);
            let packet = Packet {
                pack_type: PacketType::FloodResponse(response.clone()),
                routing_header: SourceRoutingHeader { hop_index: 0, hops: reversed_ids(&ids) },
                session_id: 0,
            };
            let others: Vec<NodeId> = remove_id(&self.packet_send, response.path_trace[n - 1].0);
            post_each(out, &others, &packet);
        }
    }

    /// Takes a packet in; `drop` says whether the drone loses a fragment.
    pub fn handle_packet(&mut self, packet: &Packet, drop: bool, out: &mut Vec<Outgoing>)
        requires
            old(self)@.fits(packet@, drop),
        ensures
            final(self)@ == old(self)@.after_packet(packet@),
            outbox(final(out)@) == outbox(old(out)@) + old(self)@.handled(packet@, drop),
    {
        match &packet.pack_type {
            PacketType::MsgFragment(_) => {
                if drop && packet.routing_header.hop_index == 0 {
                    assert(outbox(out@) =~= outbox(old(out)@) + self@.handled(packet@, drop));
                } else if drop {
                    self.send_nack(packet, NackType::Dropped, out);
                } else {
                    self.forward_packet(packet, out);
                }
            },
            PacketType::Ack(_) => self.forward_back(packet.clone(), out),
            PacketType::Nack(_) => self.forward_back(packet.clone(), out),
            PacketType::FloodRequest(request) => self.process_flood_request(request, out),
            PacketType::FloodResponse(response) => self.process_flood_response(response, out),
        }
    }

    /// Obeys a command; tells whether the drone goes on.
    pub fn handle_command(&mut self, command: ChannelCommand) -> (r: bool)
        requires
            old(self)@.wf(),
        ensures
            final(self)@.wf(),
            final(self)@ == (match command {
                ChannelCommand::Crash => old(self)@,
                ChannelCommand::AddChannel(id) => PlainView {
                    neighbours: with_neighbour(old(self)@.neighbours, id),
                    ..old(self)@
                },
            }),
            r == (command != ChannelCommand::Crash),
    {
        match command {
            ChannelCommand::Crash => false,
            ChannelCommand::AddChannel(id) => {
                if !has_id(&self.packet_send, id) {
                    self.packet_send.push(id);
                }
                assert(self@.neighbours =~= with_neighbour(old(self)@.neighbours, id));
                true
            },
        }
    }
}

}
