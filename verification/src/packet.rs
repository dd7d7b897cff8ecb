//! Packets that travel through the network.
use vstd::prelude::*;

verus! {

/// Identifier of a node.
pub type NodeId = u8;

/// Role of a node.
#[derive(Clone, Copy, PartialEq, Eq, Structural, Debug)]
pub enum NodeType {
    Client,
    Drone,
    Server,
}

/// The hops that a packet takes, and the hop that it is bound for.
#[derive(PartialEq, Eq, Debug)]
pub struct SourceRoutingHeader {
    pub hop_index: usize,
    pub hops: Vec<NodeId>,
}

/// A piece of a message.
#[derive(Clone, Copy, PartialEq, Eq, Debug)]
pub struct Fragment {
    pub fragment_index: u64,
    pub total_n_fragments: u64,
    pub length: u8,
    pub data: [u8; 128],
}

/// Receipt of a fragment.
#[derive(Clone, Copy, PartialEq, Eq, Structural, Debug)]
pub struct Ack {
    pub fragment_index: u64,
}

/// Why a packet was not delivered.
#[derive(Clone, Copy, PartialEq, Eq, Structural, Debug)]
pub enum NackType {
    ErrorInRouting(NodeId),
    DestinationIsDrone,
    Dropped,
    UnexpectedRecipient(NodeId),
}

/// Report that a fragment was not delivered.
#[derive(Clone, Copy, PartialEq, Eq, Structural, Debug)]
pub struct Nack {
    pub fragment_index: u64,
    pub nack_type: NackType,
}

/// A question about the shape of the network, spread from node to node.
#[derive(PartialEq, Eq, Debug)]
pub struct FloodRequest {
    pub flood_id: u64,
    pub initiator_id: NodeId,
    pub path_trace: Vec<(NodeId, NodeType)>,
}

/// The way that a flood request took.
#[derive(PartialEq, Eq, Debug)]
pub struct FloodResponse {
    pub flood_id: u64,
    pub path_trace: Vec<(NodeId, NodeType)>,
}

/// What a packet carries.
#[derive(PartialEq, Eq, Debug)]
pub enum PacketType {
    MsgFragment(Fragment),
    Ack(Ack),
    Nack(Nack),
    FloodRequest(FloodRequest),
    FloodResponse(FloodResponse),
}

/// A packet.
#[derive(PartialEq, Eq, Debug)]
pub struct Packet {
    pub pack_type: PacketType,
    pub routing_header: SourceRoutingHeader,
    pub session_id: u64,
}

/// A packet handed to the channel of a neighbour.
#[derive(PartialEq, Eq, Debug)]
pub struct Outgoing {
    pub to: NodeId,
    pub packet: Packet,
}

#[verifier::ext_equal]
pub struct HeaderView {
    pub hop_index: int,
    pub hops: Seq<NodeId>,
}

#[verifier::ext_equal]
pub struct FloodRequestView {
    pub flood_id: u64,
    pub initiator_id: NodeId,
    pub path_trace: Seq<(NodeId, NodeType)>,
}

#[verifier::ext_equal]
pub struct FloodResponseView {
    pub flood_id: u64,
    pub path_trace: Seq<(NodeId, NodeType)>,
}

#[verifier::ext_equal]
pub enum BodyView {
    MsgFragment(Fragment),
    Ack(Ack),
    Nack(Nack),
    FloodRequest(FloodRequestView),
    FloodResponse(FloodResponseView),
}

#[verifier::ext_equal]
pub struct PacketView {
    pub body: BodyView,
    pub header: HeaderView,
    pub session_id: u64,
}

#[verifier::ext_equal]
pub struct OutgoingView {
    pub to: NodeId,
    pub packet: PacketView,
}

impl View for SourceRoutingHeader {
    type V = HeaderView;

    open spec fn view(&self) -> HeaderView {
        HeaderView { hop_index: self.hop_index as int, hops: self.hops@ }
    }
}

impl View for FloodRequest {
    type V = FloodRequestView;

    open spec fn view(&self) -> FloodRequestView {
        FloodRequestView {
            flood_id: self.flood_id,
            initiator_id: self.initiator_id,
            path_trace: self.path_trace@,
        }
    }
}

impl View for FloodResponse {
    type V = FloodResponseView;

    open spec fn view(&self) -> FloodResponseView {
        FloodResponseView { flood_id: self.flood_id, path_trace: self.path_trace@ }
    }
}

impl View for PacketType {
    type V = BodyView;

    open spec fn view(&self) -> BodyView {
        match self {
            PacketType::MsgFragment(f) => BodyView::MsgFragment(*f),
            PacketType::Ack(a) => BodyView::Ack(*a),
            PacketType::Nack(n) => BodyView::Nack(*n),
            PacketType::FloodRequest(r) => BodyView::FloodRequest(r@),
            PacketType::FloodResponse(r) => BodyView::FloodResponse(r@),
        }
    }
}

impl View for Packet {
    type V = PacketView;

    open spec fn view(&self) -> PacketView {
        PacketView {
            body: self.pack_type@,
            header: self.routing_header@,
            session_id: self.session_id,
        }
    }
}

impl View for Outgoing {
    type V = OutgoingView;

    open spec fn view(&self) -> OutgoingView {
        OutgoingView { to: self.to, packet: self.packet@ }
    }
}

/// The packets of an outbox, in the order in which they leave.
pub open spec fn outbox(out: Seq<Outgoing>) -> Seq<OutgoingView> {
    out.map_values(|o: Outgoing| o@)
}

/// The ids of a path trace.
pub open spec fn trace_ids(trace: Seq<(NodeId, NodeType)>) -> Seq<NodeId> {
    trace.map_values(|n: (NodeId, NodeType)| n.0)
}

/// Copies a list of ids.
pub fn copy_ids(v: &Vec<NodeId>) -> (r: Vec<NodeId>)
    ensures
        r@ == v@,
{
    let mut r: Vec<NodeId> = Vec::new();
    let mut i: usize = 0;
    while i < v.len()
        invariant
            i <= v@.len(),
            r@ == v@.subrange(0, i as int),
        decreases v@.len() - i,
    {
        r.push(v[i]);
        i = i + 1;
    }
    assert(r@ =~= v@);
    r
}

/// Copies a path trace.
pub fn copy_trace(v: &Vec<(NodeId, NodeType)>) -> (r: Vec<(NodeId, NodeType)>)
    ensures
        r@ == v@,
{
    let mut r: Vec<(NodeId, NodeType)> = Vec::new();
    let mut i: usize = 0;
    while i < v.len()
        invariant
            i <= v@.len(),
            r@ == v@.subrange(0, i as int),
        decreases v@.len() - i,
    {
        r.push(v[i]);
        i = i + 1;
    }
    assert(r@ =~= v@);
    r
}

/// The ids of a list, last one first.
pub fn reversed_ids(v: &Vec<NodeId>) -> (r: Vec<NodeId>)
    ensures
        r@ == v@.reverse(),
{
    let mut r: Vec<NodeId> = Vec::new();
    let mut i: usize = v.len();
    while i > 0
        invariant
            i <= v@.len(),
            r@.len() == v@.len() - i,
            forall|j: int| 0 <= j < r@.len() ==> #[trigger] r@[j] == v@[v@.len() - 1 - j],
        decreases i,
    {
        i = i - 1;
        r.push(v[i]);
    }
    assert(r@ =~= v@.reverse());
    r
}

/// The ids of a path trace.
pub fn ids_of_trace(v: &Vec<(NodeId, NodeType)>) -> (r: Vec<NodeId>)
    ensures
        r@ == trace_ids(v@),
{
    let mut r: Vec<NodeId> = Vec::new();
    let mut i: usize = 0;
    while i < v.len()
        invariant
            i <= v@.len(),
            r@ == trace_ids(v@).subrange(0, i as int),
        decreases v@.len() - i,
    {
        r.push(v[i].0);
        i = i + 1;
        assert(r@ =~= trace_ids(v@).subrange(0, i as int));
    }
    assert(r@ =~= trace_ids(v@));
    r
}

/// Whether an id occurs in a list.
pub fn has_id(v: &Vec<NodeId>, id: NodeId) -> (r: bool)
    ensures
        r == v@.contains(id),
{
    let mut i: usize = 0;
    while i < v.len()
        invariant
            i <= v@.len(),
            forall|j: int| 0 <= j < i ==> v@[j] != id,
        decreases v@.len() - i,
    {
        if v[i] == id {
            return true;
        }
        i = i + 1;
    }
    false
}

/// `v` without the entries equal to `id`.
pub open spec fn without_id(v: Seq<NodeId>, id: NodeId) -> Seq<NodeId> {
    v.filter(|x: NodeId| x != id)
}

/// Removes every entry equal to `id` from a list.
pub fn remove_id(v: &Vec<NodeId>, id: NodeId) -> (r: Vec<NodeId>)
    ensures
        r@ == without_id(v@, id),
{
    let mut r: Vec<NodeId> = Vec::new();
    let mut i: usize = 0;
    assert(without_id(v@.subrange(0, 0), id) =~= Seq::<NodeId>::empty()) by {
        reveal(Seq::filter);
    }
    while i < v.len()
        invariant
            i <= v@.len(),
            r@ == without_id(v@.subrange(0, i as int), id),
        decreases v@.len() - i,
    {
        proof {
            reveal(Seq::filter);
            assert(v@.subrange(0, i + 1).drop_last() =~= v@.subrange(0, i as int));
            assert(v@.subrange(0, i + 1).last() == v@[i as int]);
        }
        if v[i] != id {
            r.push(v[i]);
        }
        i = i + 1;
    }
    assert(v@.subrange(0, v@.len() as int) =~= v@);
    r
}

/// A list without `id` holds the other entries and no others.
pub proof fn lemma_without_id(v: Seq<NodeId>, id: NodeId)
    ensures
        forall|x: NodeId| #[trigger] without_id(v, id).contains(x) <==> v.contains(x) && x != id,
        v.no_duplicates() ==> without_id(v, id).no_duplicates(),
        without_id(v, id).len() <= v.len(),
    decreases v.len(),
{
    reveal(Seq::filter);
    if v.len() > 0 {
        let init = v.drop_last();
        lemma_without_id(init, id);
        let f = without_id(init, id);
        assert forall|x: NodeId| #[trigger] without_id(v, id).contains(x) <==> v.contains(x) && x != id by {
            if v.contains(x) && x != id {
                if v.last() == x {
                    assert(without_id(v, id) == f.push(x));
                    assert(without_id(v, id)[f.len() as int] == x);
                } else {
                    let j = v.index_of(x);
                    assert(init[j] == x);
                    assert(f.contains(x));
                    let k = f.index_of(x);
                    assert(without_id(v, id)[k] == x);
                }
            }
            if without_id(v, id).contains(x) {
                let k = without_id(v, id).index_of(x);
                if k < f.len() {
                    assert(f[k] == x);
                    assert(f.contains(x));
                    assert(init.contains(x));
                    let j = init.index_of(x);
                    assert(v[j] == x);
                } else {
                    assert(x == v.last());
                }
            }
        }
        if v.no_duplicates() {
            assert(init.no_duplicates());
            if v.last() != id {
                assert(!f.contains(v.last())) by {
                    if f.contains(v.last()) {
                        let j = init.index_of(v.last());
                        assert(v[j] == v[v.len() - 1]);
                    }
                }
                assert(without_id(v, id) == f.push(v.last()));
                assert forall|i: int, j: int| 0 <= i < j < without_id(v, id).len() implies without_id(v, id)[i]
                    != without_id(v, id)[j] by {
                    if j == f.len() {
                        assert(f.contains(f[i]));
                    }
                }
            }
        }
    }
}

impl SourceRoutingHeader {
    /// A header without hops.
    pub fn empty_route() -> (r: Self)
        ensures
            r@ == (HeaderView { hop_index: 0, hops: Seq::empty() }),
    {
        SourceRoutingHeader { hop_index: 0, hops: Vec::new() }
    }
}

impl Clone for SourceRoutingHeader {
    fn clone(&self) -> (r: Self)
        ensures
            r@ == self@,
    {
        SourceRoutingHeader { hop_index: self.hop_index, hops: copy_ids(&self.hops) }
    }
}

impl Clone for FloodRequest {
    fn clone(&self) -> (r: Self)
        ensures
            r@ == self@,
    {
        FloodRequest {
            flood_id: self.flood_id,
            initiator_id: self.initiator_id,
            path_trace: copy_trace(&self.path_trace),
        }
    }
}

impl Clone for FloodResponse {
    fn clone(&self) -> (r: Self)
        ensures
            r@ == self@,
    {
        FloodResponse { flood_id: self.flood_id, path_trace: copy_trace(&self.path_trace) }
    }
}

impl Clone for PacketType {
    fn clone(&self) -> (r: Self)
        ensures
            r@ == self@,
    {
        match self {
            PacketType::MsgFragment(f) => PacketType::MsgFragment(*f),
            PacketType::Ack(a) => PacketType::Ack(*a),
            PacketType::Nack(n) => PacketType::Nack(*n),
            PacketType::FloodRequest(q) => PacketType::FloodRequest(q.clone()),
            PacketType::FloodResponse(q) => PacketType::FloodResponse(q.clone()),
        }
    }
}

impl Clone for Packet {
    fn clone(&self) -> (r: Self)
        ensures
            r@ == self@,
    {
        Packet {
            pack_type: self.pack_type.clone(),
            routing_header: self.routing_header.clone(),
            session_id: self.session_id,
        }
    }
}

/// Puts a packet for a neighbour at the end of an outbox.
pub fn post(out: &mut Vec<Outgoing>, to: NodeId, packet: Packet)
    ensures
        outbox(final(out)@) == outbox(old(out)@).push(OutgoingView { to, packet: packet@ }),
{
    out.push(Outgoing { to, packet });
    assert(outbox(out@) =~= outbox(old(out)@).push(OutgoingView { to, packet: packet@ }));
}

/// The same packet for each neighbour of a list.
pub open spec fn to_each(ids: Seq<NodeId>, packet: PacketView) -> Seq<OutgoingView> {
    ids.map_values(|to: NodeId| OutgoingView { to, packet })
}

/// Posts a copy of a packet for each neighbour of a list.
pub fn post_each(out: &mut Vec<Outgoing>, ids: &Vec<NodeId>, packet: &Packet)
    ensures
        outbox(final(out)@) == outbox(old(out)@) + to_each(ids@, packet@),
{
    let mut i: usize = 0;
    while i < ids.len()
        invariant
            i <= ids@.len(),
            outbox(out@) == outbox(old(out)@) + to_each(ids@, packet@).subrange(0, i as int),
        decreases ids@.len() - i,
    {
        post(out, ids[i], packet.clone());
        i = i + 1;
        assert(outbox(out@) =~= outbox(old(out)@) + to_each(ids@, packet@).subrange(0, i as int));
    }
    assert(to_each(ids@, packet@).subrange(0, ids@.len() as int) =~= to_each(ids@, packet@));
}

/// The hops of the response to a flood request: its trace backwards, with the
/// initiator at the end.
pub open spec fn response_hops(r: FloodRequestView) -> Seq<NodeId> {
    let back = trace_ids(r.path_trace).reverse();
    if back.len() > 0 && back.last() != r.initiator_id {
        back.push(r.initiator_id)
    } else {
        back
    }
}

/// The response to a flood request.
pub open spec fn response_to(r: FloodRequestView, session_id: u64, hop_index: int) -> PacketView {
    PacketView {
        body: BodyView::FloodResponse(
            FloodResponseView { flood_id: r.flood_id, path_trace: r.path_trace },
        ),
        header: HeaderView { hop_index, hops: response_hops(r) },
        session_id,
    }
}

impl FloodRequest {
    /// The request with another node on its trace.
    pub fn get_incremented(&self, id: NodeId, node_type: NodeType) -> (r: Self)
        ensures
            r@ == (FloodRequestView { path_trace: self@.path_trace.push((id, node_type)), ..self@ }),
    {
        let mut path_trace: Vec<(NodeId, NodeType)> = copy_trace(&self.path_trace);
        path_trace.push((id, node_type));
        FloodRequest { flood_id: self.flood_id, initiator_id: self.initiator_id, path_trace }
    }

    /// The response to the request, on its way from the first hop to the next one.
    pub fn generate_response(&self, session_id: u64) -> (r: Packet)
        ensures
            r@ == response_to(self@, session_id, 1),
    {
        let ids: Vec<NodeId> = ids_of_trace(&self.path_trace);
        let mut hops: Vec<NodeId> = reversed_ids(&ids);
        let n: usize = hops.len();
        if n > 0 && hops[n - 1] != self.initiator_id {
            hops.push(self.initiator_id);
        }
        Packet {
            pack_type: PacketType::FloodResponse(
                FloodResponse {
                    flood_id: self.flood_id,
                    path_trace: copy_trace(&self.path_trace),
                },
            ),
            routing_header: SourceRoutingHeader { hop_index: 1, hops },
            session_id,
        }
    }
}

}
