//! A drone: it hands packets on along their routes.
use crate::client1::with_neighbour;
use crate::packet::{
    copy_ids, copy_trace, has_id, ids_of_trace, lemma_without_id, remove_id, trace_ids, without_id,
    Ack, BodyView, FloodRequest, FloodRequestView, FloodResponse, FloodResponseView, HeaderView,
    Nack, NackType, NodeId, NodeType, Packet, PacketType, PacketView, SourceRoutingHeader,
};
use std::collections::HashSet;
use vstd::prelude::*;

verus! {

broadcast use vstd::std_specs::hash::group_hash_axioms;

/// What a drone tells the simulation controller.
#[derive(PartialEq, Eq, Debug)]
pub enum DroneEvent {
    PacketSent(Packet),
    PacketDropped(Packet),
    ControllerShortcut(Packet),
}

/// What the simulation controller tells a drone about its channels.
#[derive(Clone, Copy, PartialEq, Eq, Structural, Debug)]
pub enum DroneCommand {
    AddSender(NodeId),
    RemoveSender(NodeId),
    Crash,
}

/// What a drone does.
#[derive(PartialEq, Eq, Debug)]
pub enum DroneAction {
    /// Send a packet to a neighbour.
    Send(NodeId, Packet),
    /// Send a packet to a neighbour, and tell whether its channel took it.
    Try(NodeId, Packet),
    /// Tell the simulation controller something.
    Report(DroneEvent),
}

#[verifier::ext_equal]
pub enum EventView {
    PacketSent(PacketView),
    PacketDropped(PacketView),
    ControllerShortcut(PacketView),
}

#[verifier::ext_equal]
pub enum ActionView {
    Send(NodeId, PacketView),
    Try(NodeId, PacketView),
    Report(EventView),
}

impl View for DroneEvent {
    type V = EventView;

    open spec fn view(&self) -> EventView {
        match self {
            DroneEvent::PacketSent(p) => EventView::PacketSent(p@),
            DroneEvent::PacketDropped(p) => EventView::PacketDropped(p@),
            DroneEvent::ControllerShortcut(p) => EventView::ControllerShortcut(p@),
        }
    }
}

impl View for DroneAction {
    type V = ActionView;

    open spec fn view(&self) -> ActionView {
        match self {
            DroneAction::Send(to, p) => ActionView::Send(*to, p@),
            DroneAction::Try(to, p) => ActionView::Try(*to, p@),
            DroneAction::Report(e) => ActionView::Report(e@),
        }
    }
}

/// A list of actions.
pub open spec fn deeds(v: Seq<DroneAction>) -> Seq<ActionView> {
    v.map_values(|a: DroneAction| a@)
}

fn act(actions: &mut Vec<DroneAction>, a: DroneAction)
    ensures
        deeds(final(actions)@) == deeds(old(actions)@) + seq![a@],
{
    actions.push(a);
    assert(deeds(actions@) =~= deeds(old(actions)@) + seq![a@]);
}

/// A packet one hop further on its route.
pub open spec fn moved(p: PacketView) -> PacketView {
    PacketView { header: HeaderView { hop_index: p.header.hop_index + 1, ..p.header }, ..p }
}

/// The index of the fragment that a packet carries, and 0 for other packets.
pub open spec fn index_carried(p: PacketView) -> u64 {
    match p.body {
        BodyView::MsgFragment(f) => f.fragment_index,
        _ => 0,
    }
}

/// The way back from a drone to the source of a packet that is bound for hop `pos`.
/// A packet that is still bound for its first hop came from there.
pub open spec fn route_back(id: NodeId, hops: Seq<NodeId>, pos: int) -> Seq<NodeId> {
    if pos == 0 && hops[0] != id {
        seq![id, hops[0]]
    } else {
        seq![id] + hops.subrange(0, pos).reverse()
    }
}

/// The nack that answers a packet.
pub open spec fn nack_for(id: NodeId, p: PacketView, t: NackType) -> PacketView {
    PacketView {
        body: BodyView::Nack(Nack { fragment_index: index_carried(p), nack_type: t }),
        header: HeaderView {
            hop_index: 1,
            hops: route_back(id, p.header.hops, p.header.hop_index),
        },
        session_id: p.session_id,
    }
}

/// The request after a drone has put itself on the trace.
pub open spec fn signed(r: FloodRequestView, id: NodeId) -> FloodRequestView {
    FloodRequestView { path_trace: r.path_trace.push((id, NodeType::Drone)), ..r }
}

/// The request as a drone hands it on.
pub open spec fn request_packet(r: FloodRequestView) -> PacketView {
    PacketView {
        body: BodyView::FloodRequest(
            FloodRequestView { initiator_id: r.path_trace[0].0, ..r },
        ),
        header: HeaderView { hop_index: r.path_trace.len() - 1, hops: trace_ids(r.path_trace) },
        session_id: 0,
    }
}

/// The response that goes back on the trace of a request.
pub open spec fn turned(r: FloodRequestView) -> FloodResponseView {
    FloodResponseView { flood_id: r.flood_id, path_trace: r.path_trace.reverse() }
}

/// A packet with a flood response.
pub open spec fn response_packet(r: FloodResponseView) -> PacketView {
    PacketView {
        body: BodyView::FloodResponse(r),
        header: HeaderView { hop_index: r.path_trace.len() - 1, hops: trace_ids(r.path_trace) },
        session_id: 0,
    }
}

/// The same packet for each node of a list.
pub open spec fn sends(ids: Seq<NodeId>, p: PacketView) -> Seq<ActionView> {
    ids.map_values(|to: NodeId| ActionView::Send(to, p))
}

#[verifier::ext_equal]
pub struct DroneView {
    pub id: NodeId,
    pub neighbours: Seq<NodeId>,
    pub seen: Set<u64>,
}

impl DroneView {
    /// No neighbour is listed twice.
    pub open spec fn wf(self) -> bool {
        self.neighbours.no_duplicates()
    }

    /// The drone can take a packet in: it is bound for one of its hops, a flood
    /// request comes from some node, and a flood response has a node to go to.
    pub open spec fn fits(self, p: PacketView) -> bool {
        &&& 0 <= p.header.hop_index < p.header.hops.len()
        &&& match p.body {
            BodyView::FloodRequest(r) => r.path_trace.len() >= 1,
            BodyView::FloodResponse(r) => r.path_trace.len() >= 2,
            _ => true,
        }
    }

    /// A nack goes back where the previous node is a neighbour.
    pub open spec fn nacked(self, p: PacketView, t: NackType) -> Seq<ActionView> {
        let nack = nack_for(self.id, p, t);
        let hops = nack.header.hops;
        if hops.len() > 1 && self.neighbours.contains(hops[1]) {
            seq![ActionView::Try(hops[1], nack)]
        } else {
            Seq::empty()
        }
    }

    /// The ack for a packet that was handed on is bound for the hop of the drone
    /// itself, so it goes nowhere but through a channel of the drone to itself.
    pub open spec fn acked(self, p: PacketView) -> Seq<ActionView> {
        let ack = PacketView {
            body: BodyView::Ack(Ack { fragment_index: index_carried(p) }),
            ..p
        };
        if self.neighbours.contains(self.id) {
            seq![ActionView::Try(self.id, ack)]
        } else {
            Seq::empty()
        }
    }

    /// A flood response goes to the second node on its trace, through the simulation
    /// controller where that is no neighbour.
    pub open spec fn responded(self, r: FloodResponseView) -> Seq<ActionView> {
        let to = r.path_trace[1].0;
        if self.neighbours.contains(to) {
            seq![ActionView::Send(to, response_packet(r))]
        } else {
            seq![ActionView::Report(EventView::ControllerShortcut(response_packet(r)))]
        }
    }

    /// A flood request is answered. A new one is spread to all neighbours but the one
    /// that it came from, and answered once more where there is no other; a known one
    /// is answered once more too.
    pub open spec fn flood_answered(self, r: FloodRequestView) -> Seq<ActionView> {
        let s = signed(r, self.id);
        let answer = self.responded(turned(s));
        if self.seen.contains(r.flood_id) {
            answer + answer
        } else {
            answer + sends(without_id(self.neighbours, r.path_trace.last().0), request_packet(s))
                + (if self.neighbours.len() == 1 {
                answer
            } else {
                Seq::empty()
            })
        }
    }

    /// What the drone does with a packet whose next hop is a neighbour; `drop` says
    /// whether the drone loses a fragment.
    pub open spec fn passed_on(self, p: PacketView, drop: bool) -> Seq<ActionView> {
        let q = moved(p);
        let next = q.header.hops[q.header.hop_index];
        match p.body {
            BodyView::FloodRequest(r) => self.flood_answered(r),
            BodyView::FloodResponse(r) => self.responded(r),
            BodyView::MsgFragment(_) => if drop {
                seq![ActionView::Report(EventView::PacketDropped(q))] + self.nacked(
                    p,
                    NackType::Dropped,
                )
            } else {
                seq![ActionView::Send(next, q)] + self.acked(p) + seq![
                    ActionView::Report(EventView::PacketSent(q)),
                ]
            },
            _ => seq![ActionView::Try(next, q)],
        }
    }

    /// The packet has a next hop that is a neighbour, and it reached the right drone.
    pub open spec fn passable(self, p: PacketView) -> bool {
        &&& p.header.hops[p.header.hop_index] == self.id
        &&& p.header.hop_index + 1 < p.header.hops.len()
        &&& self.neighbours.contains(p.header.hops[p.header.hop_index + 1])
    }

    /// What the drone does with a packet.
    pub open spec fn handled(self, p: PacketView, drop: bool) -> Seq<ActionView> {
        let pos = p.header.hop_index;
        let hops = p.header.hops;
        if hops[pos] != self.id {
            self.nacked(p, NackType::UnexpectedRecipient(self.id))
        } else if pos + 1 == hops.len() {
            self.nacked(p, NackType::DestinationIsDrone)
        } else if !self.neighbours.contains(hops[pos + 1]) {
            self.nacked(p, NackType::ErrorInRouting(hops[pos + 1]))
        } else {
            self.passed_on(p, drop)
        }
    }

    /// The drone after a packet: it remembers the floods that it took part in.
    pub open spec fn after_packet(self, p: PacketView) -> DroneView {
        match p.body {
            BodyView::FloodRequest(r) => if self.passable(p) {
                DroneView { seen: self.seen.insert(r.flood_id), ..self }
            } else {
                self
            },
            _ => self,
        }
    }

    /// What a crashing drone does with a packet that is still waiting for it.
    pub open spec fn drained(self, p: PacketView) -> Seq<ActionView> {
        let q = moved(p);
        let next = q.header.hops[q.header.hop_index];
        match p.body {
            BodyView::FloodRequest(_) => Seq::empty(),
            BodyView::MsgFragment(_) => {
                let t = NackType::ErrorInRouting(self.id);
                self.nacked(p, t) + seq![
                    ActionView::Report(EventView::PacketSent(nack_for(self.id, p, t))),
                ]
            },
            _ => (if q.header.hop_index < q.header.hops.len() && self.neighbours.contains(next) {
                seq![ActionView::Try(next, q)]
            } else {
                Seq::empty()
            }) + seq![ActionView::Report(EventView::PacketSent(q))],
        }
    }

    /// The drone after a command.
    pub open spec fn after_command(self, c: DroneCommand) -> DroneView {
        DroneView {
            neighbours: match c {
                DroneCommand::AddSender(id) => with_neighbour(self.neighbours, id),
                DroneCommand::RemoveSender(id) => without_id(self.neighbours, id),
                DroneCommand::Crash => Seq::empty(),
            },
            ..self
        }
    }
}

/// A drone that runs on its own until it crashes.
pub trait DroneImplementation: Send + 'static {
    /// Runs the drone.
    fn run(&mut self);
}

/// A drone.
#[derive(Debug)]
pub struct MyDrone {
    pub id: NodeId,
    pub packet_send: Vec<NodeId>,
    pub seen_flood_ids: HashSet<u64>,
}

impl View for MyDrone {
    type V = DroneView;

    open spec fn view(&self) -> DroneView {
        DroneView {
            id: self.id,
            neighbours: self.packet_send@,
            seen: self.seen_flood_ids@,
        }
    }
}

/// The way back of a packet.
fn way_back(id: NodeId, header: &SourceRoutingHeader) -> (r: Vec<NodeId>)
    requires
        header.hop_index < header.hops@.len(),
    ensures
        r@ == route_back(id, header@.hops, header@.hop_index),
{
    let mut r: Vec<NodeId> = Vec::new();
    r.push(id);
    let pos: usize = header.hop_index;
    if pos == 0 && header.hops[0] != id {
        r.push(header.hops[0]);
        assert(r@ =~= seq![id, header.hops@[0]]);
        return r;
    }
    let mut i: usize = pos;
    let ghost back = header.hops@.subrange(0, pos as int).reverse();
    assert(r@ =~= seq![id] + back.subrange(0, 0));
    while i > 0
        invariant
            i <= pos < header.hops@.len(),
            back == header.hops@.subrange(0, pos as int).reverse(),
            r@ == seq![id] + back.subrange(0, pos - i),
        decreases i,
    {
        i = i - 1;
        r.push(header.hops[i]);
        assert(r@ =~= seq![id] + back.subrange(0, pos - i));
    }
    assert(back.subrange(0, pos as int) =~= back);
    r
}

/// The trace, last node first.
fn reversed_trace(v: &Vec<(NodeId, NodeType)>) -> (r: Vec<(NodeId, NodeType)>)
    ensures
        r@ == v@.reverse(),
{
    let mut r: Vec<(NodeId, NodeType)> = Vec::new();
    let mut i: usize = v.len();
    while i > 0
        invariant
            i <= v@.len(),
            r@.len() == v@.len() - i,
            forall|j: int| 0 <= j < r@.len() ==> #[trigger] r@[j] == v@[v@.len() - 1 - j],
        decreases i,
    {
        i = i - 1;
        r.push(v[i]);
    }
    assert(r@ =~= v@.reverse());
    r
}

impl MyDrone {
    /// A drone with channels to some neighbours.
    pub fn new(id: NodeId, neighbours: &Vec<NodeId>) -> (r: Self)
        requires
            neighbours@.no_duplicates(),
        ensures
            r@ == (DroneView { id, neighbours: neighbours@, seen: Set::empty() }),
            r@.wf(),
    {
        MyDrone { id, packet_send: copy_ids(neighbours), seen_flood_ids: HashSet::new() }
    }

    /// Whether the drone can take a packet in.
    pub fn can_process(&self, packet: &Packet) -> (r: bool)
        ensures
            r == self@.fits(packet@),
    {
        packet.routing_header.hop_index < packet.routing_header.hops.len()
            && match &packet.pack_type {
            PacketType::FloodRequest(q) => q.path_trace.len() >= 1,
            PacketType::FloodResponse(q) => q.path_trace.len() >= 2,
            _ => true,
        }
    }

    /// The nack that answers a packet.
    fn nack(&self, packet: &Packet, nack_type: NackType) -> (r: Packet)
        requires
            packet.routing_header.hop_index < packet.routing_header.hops@.len(),
        ensures
            r@ == nack_for(self.id, packet@, nack_type),
    {
        let fragment_index: u64 = match &packet.pack_type {
            PacketType::MsgFragment(f) => f.fragment_index,
            _ => 0,
        };
        Packet {
            pack_type: PacketType::Nack(Nack { fragment_index, nack_type }),
            routing_header: SourceRoutingHeader {
                hop_index: 1,
                hops: way_back(self.id, &packet.routing_header),
            },
            session_id: packet.session_id,
        }
    }

    /// Sends a nack back.
    pub fn send_nack(&self, packet: &Packet, nack_type: NackType, actions: &mut Vec<DroneAction>)
        requires
            packet.routing_header.hop_index < packet.routing_header.hops@.len(),
        ensures
            deeds(final(actions)@) == deeds(old(actions)@) + self@.nacked(packet@, nack_type),
    {
        let nack: Packet = self.nack(packet, nack_type);
        if nack.routing_header.hops.len() > 1 {
            let to: NodeId = nack.routing_header.hops[1];
            if has_id(&self.packet_send, to) {
                act(actions, DroneAction::Try(to, nack));
                return;
            }
        }
        assert(deeds(actions@) =~= deeds(old(actions)@) + self@.nacked(packet@, nack_type));
    }

    /// Acknowledges a packet that was handed on.
    pub fn send_ack(&self, packet: &Packet, actions: &mut Vec<DroneAction>)
        ensures
            deeds(final(actions)@) == deeds(old(actions)@) + self@.acked(packet@),
    {
        if has_id(&self.packet_send, self.id) {
            let fragment_index: u64 = match &packet.pack_type {
                PacketType::MsgFragment(f) => f.fragment_index,
                _ => 0,
            };
            let ack = Packet {
                pack_type: PacketType::Ack(Ack { fragment_index }),
                routing_header: packet.routing_header.clone(),
                session_id: packet.session_id,
            };
            act(actions, DroneAction::Try(self.id, ack));
            return;
        }
        assert(deeds(actions@) =~= deeds(old(actions)@) + self@.acked(packet@));
    }

    /// Hands a flood response on.
    pub fn forward_back_response(&self, response: &FloodResponse, actions: &mut Vec<DroneAction>)
        requires
            response.path_trace@.len() >= 2,
        ensures
            deeds(final(actions)@) == deeds(old(actions)@) + self@.responded(response@),
    {
        let to: NodeId = response.path_trace[1].0;
        let packet = Packet {
            pack_type: PacketType::FloodResponse(response.clone()),
            routing_header: SourceRoutingHeader {
                hop_index: response.path_trace.len() - 1,
                hops: ids_of_trace(&response.path_trace),
            },
            session_id: 0,
        };
        assert(packet@ =~= response_packet(response@));
        if has_id(&self.packet_send, to) {
            act(actions, DroneAction::Send(to, packet));
        } else {
            act(actions, DroneAction::Report(DroneEvent::ControllerShortcut(packet)));
        }
    }

    /// Answers a flood request.
    pub fn send_flood_response(&self, request: &FloodRequest, actions: &mut Vec<DroneAction>)
        requires
            request.path_trace@.len() >= 2,
        ensures
            deeds(final(actions)@) == deeds(old(actions)@) + self@.responded(turned(request@)),
    {
        let response = FloodResponse {
            flood_id: request.flood_id,
            path_trace: reversed_trace(&request.path_trace),
        };
        self.forward_back_response(&response, actions);
    }

    /// Takes part in a flood.
    pub fn process_flood_request(&mut self, request: &FloodRequest, actions: &mut Vec<DroneAction>)
        requires
            request.path_trace@.len() >= 1,
        ensures
            final(self)@ == (DroneView {
                seen: old(self)@.seen.insert(request.flood_id),
                ..old(self)@
            }),
            deeds(final(actions)@) == deeds(old(actions)@) + old(self)@.flood_answered(request@),
    {
        let ghost a = self@;
        let ghost before = deeds(actions@);
        let n: usize = request.path_trace.len();
        let from: NodeId = request.path_trace[n - 1].0;
        let signed_request: FloodRequest = request.get_incremented(self.id, NodeType::Drone);
        let ghost s = signed(request@, self.id);
        let ghost answer = a.responded(turned(s));
        self.send_flood_response(&signed_request, actions);
        if self.seen_flood_ids.contains(&request.flood_id) {
            self.send_flood_response(&signed_request, actions);
            assert(a.seen.insert(request.flood_id) =~= a.seen);
            assert(self@ =~= DroneView { seen: a.seen.insert(request.flood_id), ..a });
            assert(deeds(actions@) =~= before + a.flood_answered(request@));
            return;
        }
        self.seen_flood_ids.insert(request.flood_id);
        let others: Vec<NodeId> = remove_id(&self.packet_send, from);
        let ghost spread = sends(others@, request_packet(s));
        let mut i: usize = 0;
        assert(deeds(actions@) =~= before + answer + spread.subrange(0, 0));
        while i < others.len()
            invariant
                i <= others@.len(),
                spread == sends(others@, request_packet(s)),
                s == signed_request@,
                s.path_trace.len() >= 2,
                deeds(actions@) == before + answer + spread.subrange(0, i as int),
            decreases others@.len() - i,
        {
            let packet = Packet {
                pack_type: PacketType::FloodRequest(
                    FloodRequest {
                        flood_id: signed_request.flood_id,
                        initiator_id: signed_request.path_trace[0].0,
                        path_trace: copy_trace(&signed_request.path_trace),
                    },
                ),
                routing_header: SourceRoutingHeader {
                    hop_index: signed_request.path_trace.len() - 1,
                    hops: ids_of_trace(&signed_request.path_trace),
                },
                session_id: 0,
            };
            assert(packet@ =~= request_packet(s));
            act(actions, DroneAction::Send(others[i], packet));
            i = i + 1;
            assert(deeds(actions@) =~= before + answer + spread.subrange(0, i as int));
        }
        assert(spread.subrange(0, i as int) =~= spread);
        if self.packet_send.len() == 1 {
            self.send_flood_response(&signed_request, actions);
        }
        assert(deeds(actions@) =~= before + a.flood_answered(request@));
    }

    /// Takes a packet in; `drop` says whether the drone loses a fragment.
    pub fn handle_packet(&mut self, packet: &Packet, drop: bool, actions: &mut Vec<DroneAction>)
        requires
            old(self)@.fits(packet@),
        ensures
            final(self)@ == old(self)@.after_packet(packet@),
            deeds(final(actions)@) == deeds(old(actions)@) + old(self)@.handled(packet@, drop),
    {
        let pos: usize = packet.routing_header.hop_index;
        let n: usize = packet.routing_header.hops.len();
        if packet.routing_header.hops[pos] != self.id {
            self.send_nack(packet, NackType::UnexpectedRecipient(self.id), actions);
            return;
        }
        if pos + 1 == n {
            self.send_nack(packet, NackType::DestinationIsDrone, actions);
            return;
        }
        let next: NodeId = packet.routing_header.hops[pos + 1];
        if !has_id(&self.packet_send, next) {
            self.send_nack(packet, NackType::ErrorInRouting(next), actions);
            return;
        }
        self.process_packet(packet, drop, actions);
    }

    /// Takes a packet in whose next hop is a neighbour.
    pub fn process_packet(&mut self, packet: &Packet, drop: bool, actions: &mut Vec<DroneAction>)
        requires
            old(self)@.fits(packet@),
            old(self)@.passable(packet@),
        ensures
            final(self)@ == old(self)@.after_packet(packet@),
            deeds(final(actions)@) == deeds(old(actions)@) + old(self)@.passed_on(packet@, drop),
    {
        let ghost a = self@;
        let ghost before = deeds(actions@);
        let n: usize = packet.routing_header.hops.len();
        let pos: usize = packet.routing_header.hop_index;
        match &packet.pack_type {
            PacketType::FloodRequest(request) => {
                self.process_flood_request(request, actions);
            },
            PacketType::FloodResponse(response) => {
                self.forward_back_response(response, actions);
            },
            PacketType::MsgFragment(_) => {
                let mut next: Packet = packet.clone();
                next.routing_header.hop_index = pos + 1;
                assert(next@ =~= moved(packet@));
                if drop {
                    act(actions, DroneAction::Report(DroneEvent::PacketDropped(next)));
                    self.send_nack(packet, NackType::Dropped, actions);
                } else {
                    act(actions, DroneAction::Send(packet.routing_header.hops[pos + 1], next.clone()));
                    self.send_ack(packet, actions);
                    act(actions, DroneAction::Report(DroneEvent::PacketSent(next)));
                }
                assert(deeds(actions@) =~= before + a.passed_on(packet@, drop));
            },
            _ => {
                let mut next: Packet = packet.clone();
                next.routing_header.hop_index = pos + 1;
                assert(next@ =~= moved(packet@));
                act(actions, DroneAction::Try(packet.routing_header.hops[pos + 1], next));
            },
        }
    }

    /// Takes a packet in that is still waiting when the drone crashes.
    pub fn process_crash(&self, packet: &Packet, actions: &mut Vec<DroneAction>)
        requires
            self@.fits(packet@),
        ensures
            deeds(final(actions)@) == deeds(old(actions)@) + self@.drained(packet@),
    {
        let ghost before = deeds(actions@);
        let n: usize = packet.routing_header.hops.len();
        let pos: usize = packet.routing_header.hop_index;
        match &packet.pack_type {
            PacketType::FloodRequest(_) => {},
            PacketType::MsgFragment(_) => {
                let nack_type = NackType::ErrorInRouting(self.id);
                self.send_nack(packet, nack_type, actions);
                let nack: Packet = self.nack(packet, nack_type);
                act(actions, DroneAction::Report(DroneEvent::PacketSent(nack)));
            },
            _ => {
                let mut next: Packet = packet.clone();
                next.routing_header.hop_index = pos + 1;
                assert(next@ =~= moved(packet@));
                if pos + 1 < n && has_id(
                    &self.packet_send,
                    packet.routing_header.hops[pos + 1],
                ) {
                    act(actions, DroneAction::Try(packet.routing_header.hops[pos + 1], next.clone()));
                }
                act(actions, DroneAction::Report(DroneEvent::PacketSent(next)));
            },
        }
        assert(deeds(actions@) =~= before + self@.drained(packet@));
    }

    /// Obeys a command; tells whether the drone goes on.
    pub fn handle_command(&mut self, command: DroneCommand) -> (r: bool)
        requires
            old(self)@.wf(),
        ensures
            final(self)@.wf(),
            final(self)@ == old(self)@.after_command(command),
            r == (command != DroneCommand::Crash),
    {
        match command {
            DroneCommand::AddSender(id) => {
                if !has_id(&self.packet_send, id) {
                    self.packet_send.push(id);
                }
                assert(self@ =~= old(self)@.after_command(command));
                true
            },
            DroneCommand::RemoveSender(id) => {
                self.packet_send = remove_id(&self.packet_send, id);
                proof {
                    lemma_without_id(old(self).packet_send@, id);
                }
                assert(self@ =~= old(self)@.after_command(command));
                true
            },
            DroneCommand::Crash => {
                self.packet_send = Vec::new();
                assert(self@ =~= old(self)@.after_command(command));
                false
            },
        }
    }
}

/// What follows an attempt to send: a packet that was taken goes out once more, one
/// that was not goes through the simulation controller.
pub open spec fn tried(to: NodeId, p: PacketView, taken: bool) -> ActionView {
    if taken {
        ActionView::Send(to, p)
    } else {
        ActionView::Report(EventView::ControllerShortcut(p))
    }
}

/// What follows an attempt to send a packet.
pub fn after_try(to: NodeId, packet: Packet, taken: bool) -> (r: DroneAction)
    ensures
        r@ == tried(to, packet@, taken),
{
    if taken {
        DroneAction::Send(to, packet)
    } else {
        DroneAction::Report(DroneEvent::ControllerShortcut(packet))
    }
}

/// Drones stand on the hops `from..to` of a route, each with a channel to the next hop.
pub open spec fn drones_on(drones: Seq<DroneView>, hops: Seq<NodeId>, from: int, to: int) -> bool {
    &&& 0 <= from <= to < hops.len()
    &&& drones.len() == to - from
    &&& forall|k: int|
        0 <= k < drones.len() ==> (#[trigger] drones[k]).id == hops[from + k]
            && drones[k].neighbours.contains(hops[from + k + 1])
}

/// `p` goes into the first of the drones, each one hands it to the next, and `q` comes
/// out of the last.
pub open spec fn carried(drones: Seq<DroneView>, p: PacketView, q: PacketView) -> bool
    decreases drones.len(),
{
    if drones.len() == 0 {
        q == p
    } else {
        &&& drones[0].fits(p)
        &&& drones[0].passable(p)
        &&& drones[0].handled(p, false).len() > 0
        &&& (drones[0].handled(p, false)[0] == ActionView::Send(
            p.header.hops[p.header.hop_index + 1],
            moved(p),
        ) || drones[0].handled(p, false)[0] == ActionView::Try(
            p.header.hops[p.header.hop_index + 1],
            moved(p),
        ))
        &&& carried(drones.drop_first(), moved(p), q)
    }
}

/// A fragment that no drone on its route loses reaches the end of the route unchanged,
/// and so does an ack or a nack.
pub proof fn law_packets_reach_the_end_of_their_route(
    drones: Seq<DroneView>,
    p: PacketView,
    to: int,
)
    requires
        drones_on(drones, p.header.hops, p.header.hop_index, to),
        p.body is MsgFragment || p.body is Ack || p.body is Nack,
    ensures
        carried(
            drones,
            p,
            PacketView { header: HeaderView { hop_index: to, ..p.header }, ..p },
        ),
    decreases drones.len(),
{
    let q = PacketView { header: HeaderView { hop_index: to, ..p.header }, ..p };
    if drones.len() == 0 {
        assert(q == p);
    } else {
        let d = drones[0];
        let m = moved(p);
        let rest = drones.drop_first();
        assert(d.passable(p));
        assert forall|k: int| 0 <= k < rest.len() implies (#[trigger] rest[k]).id
            == m.header.hops[m.header.hop_index + k] && rest[k].neighbours.contains(
            m.header.hops[m.header.hop_index + k + 1],
        ) by {
            assert(rest[k] == drones[k + 1]);
        }
        law_packets_reach_the_end_of_their_route(rest, m, to);
        assert(q == PacketView { header: HeaderView { hop_index: to, ..m.header }, ..m });
        assert(d.handled(p, false) == d.passed_on(p, false));
    }
}

/// A lost fragment is reported to the source of its route: the nack is bound for the
/// node before the drone, and its route ends at the source.
pub proof fn law_a_loss_is_reported_to_the_source(d: DroneView, p: PacketView)
    requires
        d.fits(p),
        d.passable(p),
        p.header.hop_index > 0,
        p.body is MsgFragment,
        d.neighbours.contains(p.header.hops[p.header.hop_index - 1]),
    ensures
        ({
            let nack = nack_for(d.id, p, NackType::Dropped);
            let pos = p.header.hop_index;
            &&& d.handled(p, true) == seq![
                ActionView::Report(EventView::PacketDropped(moved(p))),
                ActionView::Try(p.header.hops[pos - 1], nack),
            ]
            &&& nack.header.hops == p.header.hops.subrange(0, pos + 1).reverse()
            &&& nack.header.hops.last() == p.header.hops[0]
            &&& nack.header.hop_index == 1
        }),
{
    let pos = p.header.hop_index;
    let nack = nack_for(d.id, p, NackType::Dropped);
    let hops = p.header.hops;
    assert(nack.header.hops =~= hops.subrange(0, pos + 1).reverse());
    assert(nack.header.hops[1] == hops[pos - 1]);
    assert(d.handled(p, true) =~= seq![
        ActionView::Report(EventView::PacketDropped(moved(p))),
        ActionView::Try(hops[pos - 1], nack),
    ]);
}

/// A drone spreads each flood once: a request that it has spread is only answered.
pub proof fn law_a_flood_is_spread_once(d: DroneView, p: PacketView, again: PacketView)
    requires
        d.passable(p),
        d.after_packet(p).passable(again),
        p.body is FloodRequest,
        again.body is FloodRequest,
        again.body->FloodRequest_0.flood_id == p.body->FloodRequest_0.flood_id,
    ensures
        ({
            let e = d.after_packet(p);
            let answer = e.responded(turned(signed(again.body->FloodRequest_0, e.id)));
            e.handled(again, false) == answer + answer
        }),
{
}

/// A crashed drone hands nothing on: it has no channel left.
pub proof fn law_a_crashed_drone_is_cut_off(d: DroneView, p: PacketView, drop: bool)
    requires
        d.fits(p),
    ensures
        d.after_command(DroneCommand::Crash).handled(p, drop) == Seq::<ActionView>::empty(),
{
}

}
