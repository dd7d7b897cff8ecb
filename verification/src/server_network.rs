//! What a server knows of the network.
use crate::channels::{channels_of, SharedSenders};
use crate::graphs::{
    directed_add_node, directed_edge_count, directed_edge_references, directed_edges,
    directed_edges_from, directed_find_edge, directed_new, directed_node_bound,
    directed_node_weight, directed_nodes, directed_remove_edge, directed_remove_node,
    directed_set_edge_weight, directed_update_edge, edge_at, edge_taken_out, edges_left,
    edges_taken_out, node_taken_out, touches, DirectedNet,
};
use crate::known_network::{ids_view, one_more};
use crate::packet::{NodeId, NodeType};
use crate::routing::{
    clean_interior, enterable, least_cost, listed_arcs, marked, shortest_route, targets_within,
    unreachable_within, walk_between, Arc,
};
use std::collections::HashMap;
use vstd::prelude::*;

verus! {

broadcast use vstd::std_specs::hash::group_hash_axioms;

/// The nodes and links that a server has heard of. A node is found by the index
/// that it was given; where a node is taken out, the last one moves to its index,
/// and the index by which that one is found stays as it was.
#[derive(Debug)]
pub struct NetworkGraph {
    graph: DirectedNet,
    node_indices: HashMap<NodeId, u32>,
    node_types: HashMap<NodeId, NodeType>,
}

#[verifier::ext_equal]
pub struct GraphView {
    pub nodes: Seq<NodeId>,
    pub edges: Seq<(u32, u32, usize)>,
    pub index: Map<NodeId, u32>,
    pub types: Map<NodeId, NodeType>,
}

/// No two edges have the same ends.
pub open spec fn ends_differ<W>(edges: Seq<(u32, u32, W)>) -> bool {
    forall|i: int, j: int|
        0 <= i < edges.len() && 0 <= j < edges.len() && (#[trigger] edges[i]).0 == (
        #[trigger] edges[j]).0 && edges[i].1 == edges[j].1 ==> i == j
}

/// An edge leads from `a` to `b`.
pub open spec fn has_edge(edges: Seq<(u32, u32, usize)>, a: u32, b: u32) -> bool {
    exists|e: int| edge_at(edges, e, a, b)
}

/// The position of an edge from `a` to `b`.
pub open spec fn edge_pos(edges: Seq<(u32, u32, usize)>, a: u32, b: u32) -> int {
    choose|e: int| edge_at(edges, e, a, b)
}

/// `edges` with an edge from `a` to `b` of weight `w`.
pub open spec fn edge_put(edges: Seq<(u32, u32, usize)>, a: u32, b: u32, w: usize) -> Seq<
    (u32, u32, usize),
> {
    if has_edge(edges, a, b) {
        edges.update(edge_pos(edges, a, b), (a, b, w))
    } else {
        edges.push((a, b, w))
    }
}

/// `edges` without an edge from `a` to `b`.
pub open spec fn edge_cut(edges: Seq<(u32, u32, usize)>, a: u32, b: u32) -> Seq<(u32, u32, usize)> {
    if has_edge(edges, a, b) {
        edge_taken_out(edges, edge_pos(edges, a, b) as u32)
    } else {
        edges
    }
}

/// `edges` with one more loss on an edge from `a` to `b`.
pub open spec fn edge_raised(edges: Seq<(u32, u32, usize)>, a: u32, b: u32) -> Seq<
    (u32, u32, usize),
> {
    if has_edge(edges, a, b) {
        let e = edge_pos(edges, a, b);
        edges.update(e, (a, b, one_more(edges[e].2)))
    } else {
        edges
    }
}

impl GraphView {
    /// Indices fit, edges have both their ends, and no two have the same ends.
    pub open spec fn wf(self) -> bool {
        &&& self.nodes.len() <= u32::MAX
        &&& self.edges.len() <= u32::MAX
        &&& ends_differ(self.edges)
        &&& forall|e: int|
            0 <= e < self.edges.len() ==> (#[trigger] self.edges[e]).0 < self.nodes.len()
                && self.edges[e].1 < self.nodes.len()
    }

    /// The graph has indices left for two nodes and two edges.
    pub open spec fn room(self) -> bool {
        self.nodes.len() + 2 < u32::MAX && self.edges.len() + 2 < u32::MAX
    }

    /// The id has an index that is in use.
    pub open spec fn placed(self, id: NodeId) -> bool {
        self.index.contains_key(id) && self.index[id] < self.nodes.len()
    }

    /// The graph with a node: found by the index that it has, where that one is in
    /// use, else added.
    pub open spec fn with_node(self, id: NodeId, t: NodeType) -> GraphView {
        if self.placed(id) {
            GraphView { types: self.types.insert(id, t), ..self }
        } else {
            GraphView {
                nodes: self.nodes.push(id),
                index: self.index.insert(id, self.nodes.len() as u32),
                types: self.types.insert(id, t),
                ..self
            }
        }
    }

    /// The graph with a link both ways, without losses. Nothing happens where the
    /// graph has no indices left.
    pub open spec fn with_link(self, a: NodeId, ta: NodeType, b: NodeId, tb: NodeType) -> GraphView {
        if self.room() {
            let m = self.with_node(a, ta).with_node(b, tb);
            let x = m.index[a];
            let y = m.index[b];
            GraphView { edges: edge_put(edge_put(m.edges, x, y, 1), y, x, 1), ..m }
        } else {
            self
        }
    }

    /// The graph without a link.
    pub open spec fn without_link(self, a: NodeId, b: NodeId) -> GraphView {
        if self.index.contains_key(a) && self.index.contains_key(b) {
            let x = self.index[a];
            let y = self.index[b];
            GraphView { edges: edge_cut(edge_cut(self.edges, x, y), y, x), ..self }
        } else {
            self
        }
    }

    /// The graph with one more loss on a link, both ways.
    pub open spec fn with_loss(self, a: NodeId, b: NodeId) -> GraphView {
        if self.index.contains_key(a) && self.index.contains_key(b) {
            let x = self.index[a];
            let y = self.index[b];
            GraphView { edges: edge_raised(edge_raised(self.edges, x, y), y, x), ..self }
        } else {
            self
        }
    }

    /// The graph without the links between the given ids.
    pub open spec fn without_links(self, list: Seq<(NodeId, NodeId)>) -> GraphView
        decreases list.len(),
    {
        if list.len() == 0 {
            self
        } else {
            self.without_links(list.drop_last()).without_link(list.last().0, list.last().1)
        }
    }

    /// The links whose ends share no channel.
    pub open spec fn unshared(self, channels: Option<Set<(NodeId, NodeId)>>, upto: int) -> Seq<
        (NodeId, NodeId),
    >
        decreases upto,
    {
        if upto <= 0 || channels is None {
            Seq::empty()
        } else {
            let rest = self.unshared(channels, upto - 1);
            let a = self.nodes[self.edges[upto - 1].0 as int];
            let b = self.nodes[self.edges[upto - 1].1 as int];
            if channels->0.contains((a, b)) || channels->0.contains((b, a)) {
                rest
            } else {
                rest.push((a, b))
            }
        }
    }

    /// The graph without the links whose ends share no channel.
    pub open spec fn pruned(self, channels: Option<Set<(NodeId, NodeId)>>) -> GraphView {
        self.without_links(self.unshared(channels, self.edges.len() as int))
    }

    /// The arcs of the graph.
    pub open spec fn arcs(self) -> Set<Arc> {
        Set::new(
            |a: Arc|
                exists|e: int|
                    0 <= e < self.edges.len() && (#[trigger] self.edges[e]).0 == a.0
                        && self.edges[e].1 == a.1 && self.edges[e].2 == a.2,
        )
    }

    /// The node at an index is known as a drone.
    pub open spec fn is_drone(self, i: int) -> bool {
        0 <= i < self.nodes.len() && self.types.contains_key(self.nodes[i])
            && self.types[self.nodes[i]] == NodeType::Drone
    }

    /// The indices of the drones.
    pub open spec fn drones(self) -> Set<int> {
        Set::new(|i: int| self.is_drone(i))
    }

    /// The ids along a route of indices.
    pub open spec fn ids_along(self, p: Seq<int>) -> Seq<NodeId> {
        p.map_values(|i: int| self.nodes[i])
    }

    /// `r` is a least-cost route between two indices by way of drones that passes no
    /// node twice, and no id twice where ids differ, or there is none.
    pub open spec fn is_route(self, s: int, t: int, r: Option<Seq<NodeId>>) -> bool {
        let enter = enterable(self.drones(), s, t);
        match r {
            Some(ids) => exists|p: Seq<int>|
                {
                    &&& #[trigger] least_cost(self.arcs(), enter, s, t, u64::MAX as int, p)
                    &&& clean_interior(self.drones(), s, t, p)
                    &&& p.no_duplicates()
                    &&& ids == self.ids_along(p)
                    &&& self.nodes.no_duplicates() ==> ids.no_duplicates()
                },
            None => unreachable_within(self.arcs(), enter, s, t, u64::MAX as int),
        }
    }

    /// The graph after a search for a route.
    pub open spec fn after_best_path(
        self,
        source: NodeId,
        target: NodeId,
        channels: Option<Set<(NodeId, NodeId)>>,
    ) -> GraphView {
        if self.index.contains_key(source) && self.index.contains_key(target) {
            self.pruned(channels)
        } else {
            self
        }
    }

    /// What a search for a route gives: a least-cost route where both ids have an
    /// index that is in use.
    pub open spec fn best_path_is(
        self,
        source: NodeId,
        target: NodeId,
        channels: Option<Set<(NodeId, NodeId)>>,
        r: Option<Seq<NodeId>>,
    ) -> bool {
        if self.placed(source) && self.placed(target) {
            self.pruned(channels).is_route(
                self.index[source] as int,
                self.index[target] as int,
                r,
            )
        } else {
            r is None
        }
    }
}

/// `b` is `a` without a node: the last node has moved to its index.
pub open spec fn node_removed(a: GraphView, b: GraphView, id: NodeId) -> bool {
    if a.index.contains_key(id) {
        &&& b.nodes == node_taken_out(a.nodes, a.index[id])
        &&& edges_left(a.edges, b.edges, a.nodes.len(), a.index[id])
        &&& b.index == a.index.remove(id)
        &&& b.types == a.types.remove(id)
    } else {
        b == a
    }
}

proof fn lemma_edge_pos(edges: Seq<(u32, u32, usize)>, e: int, a: u32, b: u32)
    requires
        ends_differ(edges),
        edge_at(edges, e, a, b),
    ensures
        has_edge(edges, a, b),
        edge_pos(edges, a, b) == e,
{
    let f = edge_pos(edges, a, b);
    assert(edge_at(edges, f, a, b));
    assert(edges[e].0 == edges[f].0);
}

pub proof fn lemma_edge_cut_keeps(edges: Seq<(u32, u32, usize)>, n: int, a: u32, b: u32)
    requires
        ends_differ(edges),
        edges.len() <= u32::MAX,
        forall|e: int|
            0 <= e < edges.len() ==> (#[trigger] edges[e]).0 < n && edges[e].1 < n,
    ensures
        ends_differ(edge_cut(edges, a, b)),
        edge_cut(edges, a, b).len() <= edges.len(),
        forall|e: int|
            0 <= e < edge_cut(edges, a, b).len() ==> (#[trigger] edge_cut(edges, a, b)[e]).0 < n
                && edge_cut(edges, a, b)[e].1 < n,
        !has_edge(edge_cut(edges, a, b), a, b),
        forall|t: (u32, u32, usize)| #[trigger]
            edge_cut(edges, a, b).contains(t) <==> edges.contains(t) && !(t.0 == a && t.1 == b),
{
    let r = edge_cut(edges, a, b);
    if has_edge(edges, a, b) {
        let p = edge_pos(edges, a, b);
        assert(edge_at(edges, p, a, b));
        let last = edges.len() - 1;
        assert forall|i: int| 0 <= i < r.len() implies #[trigger] r[i] == (if i == p {
            edges[last]
        } else {
            edges[i]
        }) by {}
        assert forall|i: int, j: int|
            0 <= i < r.len() && 0 <= j < r.len() && (#[trigger] r[i]).0 == (#[trigger] r[j]).0
                && r[i].1 == r[j].1 implies i == j by {
            let x = if i == p {
                last
            } else {
                i
            };
            let y = if j == p {
                last
            } else {
                j
            };
            assert(edges[x].0 == edges[y].0);
        }
        assert forall|t: (u32, u32, usize)| #[trigger] r.contains(t) <==> edges.contains(t) && !(t.0
            == a && t.1 == b) by {
            if r.contains(t) {
                let i = r.index_of(t);
                let x = if i == p {
                    last
                } else {
                    i
                };
                assert(edges[x] == t);
                if t.0 == a && t.1 == b {
                    assert(edges[x].0 == edges[p].0);
                }
            }
            if edges.contains(t) && !(t.0 == a && t.1 == b) {
                let i = edges.index_of(t);
                assert(i != p);
                if i == last {
                    assert(r[p] == t);
                } else {
                    assert(r[i] == t);
                }
            }
        }
        if has_edge(r, a, b) {
            let i = choose|i: int| edge_at(r, i, a, b);
            assert(r.contains(r[i]));
        }
    } else {
        assert forall|t: (u32, u32, usize)| #[trigger] r.contains(t) <==> edges.contains(t) && !(t.0
            == a && t.1 == b) by {
            if edges.contains(t) && t.0 == a && t.1 == b {
                let i = edges.index_of(t);
                assert(edge_at(edges, i, a, b));
            }
        }
    }
}

proof fn lemma_edge_put_keeps(edges: Seq<(u32, u32, usize)>, n: int, a: u32, b: u32, w: usize)
    requires
        ends_differ(edges),
        a < n,
        b < n,
        forall|e: int| 0 <= e < edges.len() ==> (#[trigger] edges[e]).0 < n && edges[e].1 < n,
    ensures
        ends_differ(edge_put(edges, a, b, w)),
        edge_put(edges, a, b, w).len() <= edges.len() + 1,
        forall|e: int|
            0 <= e < edge_put(edges, a, b, w).len() ==> (#[trigger] edge_put(edges, a, b, w)[e]).0
                < n && edge_put(edges, a, b, w)[e].1 < n,
{
    let r = edge_put(edges, a, b, w);
    if has_edge(edges, a, b) {
        let p = edge_pos(edges, a, b);
        assert(edge_at(edges, p, a, b));
        assert forall|i: int, j: int|
            0 <= i < r.len() && 0 <= j < r.len() && (#[trigger] r[i]).0 == (#[trigger] r[j]).0
                && r[i].1 == r[j].1 implies i == j by {
            assert(edges[i].0 == edges[j].0);
        }
    } else {
        assert forall|i: int, j: int|
            0 <= i < r.len() && 0 <= j < r.len() && (#[trigger] r[i]).0 == (#[trigger] r[j]).0
                && r[i].1 == r[j].1 implies i == j by {
            if i < edges.len() && j < edges.len() {
                assert(edges[i].0 == edges[j].0);
            } else if i < edges.len() {
                assert(edge_at(edges, i, a, b));
            } else if j < edges.len() {
                assert(edge_at(edges, j, a, b));
            }
        }
    }
}

proof fn lemma_edge_raised_keeps(edges: Seq<(u32, u32, usize)>, n: int, a: u32, b: u32)
    requires
        ends_differ(edges),
        forall|e: int| 0 <= e < edges.len() ==> (#[trigger] edges[e]).0 < n && edges[e].1 < n,
    ensures
        ends_differ(edge_raised(edges, a, b)),
        edge_raised(edges, a, b).len() == edges.len(),
        forall|e: int|
            0 <= e < edges.len() ==> (#[trigger] edge_raised(edges, a, b)[e]).0 < n && edge_raised(
                edges,
                a,
                b,
            )[e].1 < n,
{
    let r = edge_raised(edges, a, b);
    if has_edge(edges, a, b) {
        let p = edge_pos(edges, a, b);
        assert(edge_at(edges, p, a, b));
        assert forall|i: int, j: int|
            0 <= i < r.len() && 0 <= j < r.len() && (#[trigger] r[i]).0 == (#[trigger] r[j]).0
                && r[i].1 == r[j].1 implies i == j by {
            assert(edges[i].0 == edges[j].0);
        }
    }
}

proof fn lemma_edges_left_keep<W>(
    before: Seq<(u32, u32, W)>,
    after: Seq<(u32, u32, W)>,
    n: nat,
    i: u32,
)
    requires
        ends_differ(before),
        n <= u32::MAX,
        forall|e: int| 0 <= e < before.len() ==> (#[trigger] before[e]).0 < n && before[e].1 < n,
        edges_left(before, after, n, i),
        i < n,
    ensures
        ends_differ(after),
        after.len() <= before.len(),
        forall|e: int|
            0 <= e < after.len() ==> (#[trigger] after[e]).0 < n - 1 && after[e].1 < n - 1,
{
    let order = choose|order: Seq<int>| #[trigger] edges_taken_out(before, after, n, i, order);
    assert forall|p: int, q: int|
        0 <= p < after.len() && 0 <= q < after.len() && (#[trigger] after[p]).0 == (
        #[trigger] after[q]).0 && after[p].1 == after[q].1 implies p == q by {
        assert(0 <= order[p] < before.len() && 0 <= order[q] < before.len());
        assert(!touches(before, order[p], i) && !touches(before, order[q], i));
        assert(before[order[p]].0 == before[order[q]].0);
        assert(before[order[p]].1 == before[order[q]].1);
    }
    assert forall|e: int| 0 <= e < after.len() implies (#[trigger] after[e]).0 < n - 1 && after[e].1
        < n - 1 by {
        assert(0 <= order[e] < before.len());
        assert(!touches(before, order[e], i));
    }
    assert(order.to_set().subset_of(vstd::set_lib::set_int_range(0, before.len() as int))) by {
        assert forall|x: int| order.to_set().contains(x) implies vstd::set_lib::set_int_range(
            0,
            before.len() as int,
        ).contains(x) by {
            let k = order.index_of(x);
            assert(order[k] == x);
        }
    }
    vstd::set_lib::lemma_int_range(0, before.len() as int);
    vstd::set_lib::lemma_len_subset(
        order.to_set(),
        vstd::set_lib::set_int_range(0, before.len() as int),
    );
    order.unique_seq_to_set();
}

/// An edge leads from node `i` to node `b` at cost `c`.
spec fn has_arc(net: GraphView, i: int, b: int, c: int) -> bool {
    exists|e: int|
        0 <= e < net.edges.len() && (#[trigger] net.edges[e]).0 == i && net.edges[e].1 == b
            && net.edges[e].2 == c
}

/// `row` has an entry for target `b` at cost `c`.
spec fn row_has(row: Seq<(usize, u64)>, b: int, c: int) -> bool {
    exists|j: int| 0 <= j < row.len() && #[trigger] row[j].0 == b && row[j].1 == c
}

/// `row` lists targets and costs of the edges that leave node `i`.
spec fn lists_edges(net: GraphView, i: int, row: Seq<(usize, u64)>) -> bool {
    &&& forall|b: int, c: int| #[trigger] row_has(row, b, c) <==> has_arc(net, i, b, c)
    &&& forall|j: int| 0 <= j < row.len() ==> (#[trigger] row[j]).0 < net.nodes.len()
}

proof fn lemma_without_links_keeps(a: GraphView, list: Seq<(NodeId, NodeId)>)
    ensures
        a.without_links(list).nodes == a.nodes,
        a.without_links(list).index == a.index,
        a.without_links(list).types == a.types,
    decreases list.len(),
{
    if list.len() > 0 {
        lemma_without_links_keeps(a, list.drop_last());
    }
}

impl View for NetworkGraph {
    type V = GraphView;

    closed spec fn view(&self) -> GraphView {
        GraphView {
            nodes: directed_nodes(self.graph),
            edges: directed_edges(self.graph),
            index: self.node_indices@,
            types: self.node_types@,
        }
    }
}

impl NetworkGraph {
    /// A graph without nodes.
    pub fn new() -> (r: Self)
        ensures
            r@.wf(),
            r@.nodes == Seq::<NodeId>::empty(),
            r@.edges == Seq::<(u32, u32, usize)>::empty(),
            r@.index == Map::<NodeId, u32>::empty(),
            r@.types == Map::<NodeId, NodeType>::empty(),
    {
        let r = NetworkGraph {
            graph: directed_new(),
            node_indices: HashMap::new(),
            node_types: HashMap::new(),
        };
        assert(r@.edges =~= Seq::<(u32, u32, usize)>::empty());
        r
    }

    /// Notes the type of a node.
    pub fn set_node_type(&mut self, node_id: NodeId, node_type: NodeType)
        requires
            old(self)@.wf(),
        ensures
            final(self)@.wf(),
            final(self)@ == (GraphView {
                types: old(self)@.types.insert(node_id, node_type),
                ..old(self)@
            }),
    {
        self.node_types.insert(node_id, node_type);
        assert(self@ =~= GraphView {
            types: old(self)@.types.insert(node_id, node_type),
            ..old(self)@
        });
    }

    /// The type of a node.
    pub fn get_node_type(&self, node_id: NodeId) -> (r: Option<NodeType>)
        ensures
            r == (if self@.types.contains_key(node_id) {
                Some(self@.types[node_id])
            } else {
                None
            }),
    {
        match self.node_types.get(&node_id) {
            Some(t) => Some(*t),
            None => None,
        }
    }

    /// The ids whose type is known, in no particular order.
    pub fn typed_ids(&self) -> (r: Vec<NodeId>)
        ensures
            r@.no_duplicates(),
            r@.to_set() == self@.types.dom(),
    {
        let mut r: Vec<NodeId> = Vec::new();
        let mut id: u16 = 0;
        while id < 256
            invariant
                id <= 256,
                r@.no_duplicates(),
                forall|x: NodeId| #[trigger]
                    r@.contains(x) <==> x < id && self.node_types@.contains_key(x),
            decreases 256 - id,
        {
            let ghost before = r@;
            let this: u8 = id as u8;
            assert(this == id);
            if self.node_types.contains_key(&this) {
                r.push(this);
                proof {
                    assert(!before.contains(this));
                    assert forall|x: NodeId| r@.contains(x) <==> before.contains(x) || x == id by {
                        if before.contains(x) {
                            assert(r@[before.index_of(x)] == x);
                        }
                        if r@.contains(x) && x != id {
                            assert(before[r@.index_of(x)] == x);
                        }
                        assert(r@[before.len() as int] == this);
                    }
                    assert forall|p: int, q: int| 0 <= p < q < r@.len() implies r@[p] != r@[q] by {
                        if q == before.len() {
                            assert(before.contains(before[p]));
                        }
                    }
                }
            }
            proof {
                assert forall|x: NodeId| #[trigger] r@.contains(x) <==> x < id + 1
                    && self.node_types@.contains_key(x) by {
                    assert(before.contains(x) <==> x < id && self.node_types@.contains_key(x));
                }
            }
            id = id + 1;
        }
        assert(r@.to_set() =~= self@.types.dom());
        r
    }

    /// Whether the graph has indices left for two nodes and two edges.
    pub fn has_room(&self) -> (r: bool)
        ensures
            r == self@.room(),
    {
        let max: usize = u32::MAX as usize;
        let nodes: usize = directed_node_bound(&self.graph);
        let edges: usize = directed_edge_count(&self.graph);
        nodes < max - 2 && edges < max - 2
    }

    /// The index of a node, added where its own one is not in use.
    pub fn add_node(&mut self, id: NodeId, node_type: NodeType) -> (r: u32)
        requires
            old(self)@.wf(),
            old(self)@.nodes.len() < u32::MAX,
        ensures
            final(self)@.wf(),
            final(self)@ == old(self)@.with_node(id, node_type),
            r == final(self)@.index[id],
            r < final(self)@.nodes.len(),
    {
        if let Some(i) = self.node_indices.get(&id) {
            let i: u32 = *i;
            if (i as usize) < directed_node_bound(&self.graph) {
                self.node_types.insert(id, node_type);
                assert(self@ =~= old(self)@.with_node(id, node_type));
                return i;
            }
        }
        let i: u32 = directed_add_node(&mut self.graph, id);
        self.node_indices.insert(id, i);
        self.node_types.insert(id, node_type);
        proof {
            assert(self@ =~= old(self)@.with_node(id, node_type));
            assert(self@.edges == old(self)@.edges);
        }
        i
    }

    fn put_edge(&mut self, x: u32, y: u32, w: usize)
        requires
            old(self)@.wf(),
            old(self)@.edges.len() < u32::MAX,
            x < old(self)@.nodes.len(),
            y < old(self)@.nodes.len(),
        ensures
            final(self)@.wf(),
            final(self)@ == (GraphView {
                edges: edge_put(old(self)@.edges, x, y, w),
                ..old(self)@
            }),
    {
        let e: u32 = directed_update_edge(&mut self.graph, x, y, w);
        proof {
            let a = old(self)@;
            lemma_edge_put_keeps(a.edges, a.nodes.len() as int, x, y, w);
            if has_edge(a.edges, x, y) {
                lemma_edge_pos(a.edges, e as int, x, y);
            }
            assert(self@ =~= GraphView { edges: edge_put(a.edges, x, y, w), ..a });
        }
    }

    /// Adds a link both ways, without losses; a link that is there loses its count.
    pub fn add_link(&mut self, a: NodeId, node_type_a: NodeType, b: NodeId, node_type_b: NodeType)
        requires
            old(self)@.wf(),
        ensures
            final(self)@.wf(),
            final(self)@ == old(self)@.with_link(a, node_type_a, b, node_type_b),
    {
        if !self.has_room() {
            return;
        }
        let x: u32 = self.add_node(a, node_type_a);
        let ghost first = self@;
        let y: u32 = self.add_node(b, node_type_b);
        let ghost m = self@;
        assert(m.index[a] == x);
        self.put_edge(x, y, 1);
        proof {
            lemma_edge_put_keeps(m.edges, m.nodes.len() as int, x, y, 1);
        }
        self.put_edge(y, x, 1);
        assert(self@ =~= old(self)@.with_link(a, node_type_a, b, node_type_b));
    }

    fn cut_edge(&mut self, x: u32, y: u32)
        requires
            old(self)@.wf(),
        ensures
            final(self)@.wf(),
            final(self)@ == (GraphView { edges: edge_cut(old(self)@.edges, x, y), ..old(self)@ }),
    {
        let ghost a = self@;
        proof {
            lemma_edge_cut_keeps(a.edges, a.nodes.len() as int, x, y);
        }
        match directed_find_edge(&self.graph, x, y) {
            Some(e) => {
                proof {
                    lemma_edge_pos(a.edges, e as int, x, y);
                }
                directed_remove_edge(&mut self.graph, e);
            },
            None => {
                assert(!has_edge(a.edges, x, y));
            },
        }
        assert(self@ =~= GraphView { edges: edge_cut(a.edges, x, y), ..a });
    }

    /// Forgets a link.
    pub fn remove_link(&mut self, a: NodeId, b: NodeId)
        requires
            old(self)@.wf(),
        ensures
            final(self)@.wf(),
            final(self)@ == old(self)@.without_link(a, b),
    {
        match (self.node_indices.get(&a), self.node_indices.get(&b)) {
            (Some(x), Some(y)) => {
                let x: u32 = *x;
                let y: u32 = *y;
                self.cut_edge(x, y);
                self.cut_edge(y, x);
                assert(self@ =~= old(self)@.without_link(a, b));
            },
            _ => {},
        }
    }

    fn raise_edge(&mut self, x: u32, y: u32)
        requires
            old(self)@.wf(),
        ensures
            final(self)@.wf(),
            final(self)@ == (GraphView {
                edges: edge_raised(old(self)@.edges, x, y),
                ..old(self)@
            }),
    {
        let ghost a = self@;
        proof {
            lemma_edge_raised_keeps(a.edges, a.nodes.len() as int, x, y);
        }
        match directed_find_edge(&self.graph, x, y) {
            Some(e) => {
                proof {
                    lemma_edge_pos(a.edges, e as int, x, y);
                }
                let list: Vec<(u32, u32, usize)> = directed_edge_references(&self.graph);
                let w: usize = list[e as usize].2;
                let more: usize = if w < usize::MAX {
                    w + 1
                } else {
                    w
                };
                directed_set_edge_weight(&mut self.graph, e, more);
            },
            None => {
                assert(!has_edge(a.edges, x, y));
            },
        }
        assert(self@ =~= GraphView { edges: edge_raised(a.edges, x, y), ..a });
    }

    /// Counts a loss on a link, both ways.
    pub fn increment_drop(&mut self, a: NodeId, b: NodeId)
        requires
            old(self)@.wf(),
        ensures
            final(self)@.wf(),
            final(self)@ == old(self)@.with_loss(a, b),
    {
        match (self.node_indices.get(&a), self.node_indices.get(&b)) {
            (Some(x), Some(y)) => {
                let x: u32 = *x;
                let y: u32 = *y;
                self.raise_edge(x, y);
                self.raise_edge(y, x);
                assert(self@ =~= old(self)@.with_loss(a, b));
            },
            _ => {},
        }
    }

    /// Whether an id has an index.
    pub fn knows(&self, id: NodeId) -> (r: bool)
        ensures
            r == self@.index.contains_key(id),
    {
        self.node_indices.contains_key(&id)
    }

    /// Forgets a node and its links.
    pub fn remove_node(&mut self, node_id: NodeId)
        requires
            old(self)@.wf(),
        ensures
            final(self)@.wf(),
            node_removed(old(self)@, final(self)@, node_id),
    {
        let ghost a = self@;
        match self.node_indices.remove(&node_id) {
            Some(i) => {
                directed_remove_node(&mut self.graph, i);
                self.node_types.remove(&node_id);
                proof {
                    assert(self@.index =~= a.index.remove(node_id));
                    assert(self@.types =~= a.types.remove(node_id));
                    if i < a.nodes.len() {
                        lemma_edges_left_keep(a.edges, self@.edges, a.nodes.len(), i);
                    }
                }
            },
            None => {
                assert(self@.index =~= a.index);
                assert(self@ =~= a);
            },
        }
    }

    /// The links whose ends share no channel, in the order of the edges.
    fn unshared(&self, shared: &Option<SharedSenders>) -> (r: Vec<(NodeId, NodeId)>)
        requires
            self@.wf(),
        ensures
            r@ == self@.unshared(channels_of(*shared), self@.edges.len() as int),
    {
        let mut r: Vec<(NodeId, NodeId)> = Vec::new();
        match shared {
            None => {
                assert(r@ =~= self@.unshared(None, self@.edges.len() as int));
                r
            },
            Some(channels) => {
                let list: Vec<(u32, u32, usize)> = directed_edge_references(&self.graph);
                let mut k: usize = 0;
                assert(r@ =~= self@.unshared(Some(channels@), 0));
                while k < list.len()
                    invariant
                        self@.wf(),
                        list@ == self@.edges,
                        k <= list@.len(),
                        r@ == self@.unshared(Some(channels@), k as int),
                    decreases list@.len() - k,
                {
                    let (x, y, _): (u32, u32, usize) = list[k];
                    assert(self@.edges[k as int].0 == x);
                    let a: NodeId = directed_node_weight(&self.graph, x).unwrap();
                    let b: NodeId = directed_node_weight(&self.graph, y).unwrap();
                    if !channels.contains(a, b) && !channels.contains(b, a) {
                        r.push((a, b));
                    }
                    k = k + 1;
                }
                r
            },
        }
    }

    /// Forgets the links whose ends share no channel.
    fn prune(&mut self, shared: &Option<SharedSenders>)
        requires
            old(self)@.wf(),
        ensures
            final(self)@.wf(),
            final(self)@ == old(self)@.pruned(channels_of(*shared)),
    {
        let list: Vec<(NodeId, NodeId)> = self.unshared(shared);
        let mut k: usize = 0;
        assert(list@.subrange(0, 0) =~= Seq::<(NodeId, NodeId)>::empty());
        while k < list.len()
            invariant
                self@.wf(),
                k <= list@.len(),
                self@ == old(self)@.without_links(list@.subrange(0, k as int)),
            decreases list@.len() - k,
        {
            proof {
                let s = list@.subrange(0, k + 1);
                assert(s.drop_last() =~= list@.subrange(0, k as int));
                assert(s.last() == list@[k as int]);
            }
            let (a, b): (NodeId, NodeId) = list[k];
            self.remove_link(a, b);
            k = k + 1;
        }
        assert(list@.subrange(0, k as int) =~= list@);
    }

    /// Targets and costs of the edges that leave each node.
    fn adjacency(&self) -> (r: Vec<Vec<(usize, u64)>>)
        requires
            self@.wf(),
        ensures
            r@.len() == self@.nodes.len(),
            targets_within(r@),
            listed_arcs(r@) == self@.arcs(),
    {
        let n: usize = directed_node_bound(&self.graph);
        let mut r: Vec<Vec<(usize, u64)>> = Vec::new();
        let mut i: usize = 0;
        while i < n
            invariant
                self@.wf(),
                n == self@.nodes.len(),
                i <= n,
                r@.len() == i,
                forall|u: int| 0 <= u < i ==> lists_edges(self@, u, (#[trigger] r@[u])@),
            decreases n - i,
        {
            let row: Vec<(usize, u64)> = self.row(i as u32);
            r.push(row);
            i = i + 1;
        }
        proof {
            assert forall|a: Arc| listed_arcs(r@).contains(a) <==> self@.arcs().contains(a) by {
                if listed_arcs(r@).contains(a) {
                    let k = choose|k: int|
                        0 <= k < r@[a.0]@.len() && #[trigger] r@[a.0]@[k].0 == a.1 && r@[a.0]@[k].1
                            == a.2;
                    assert(lists_edges(self@, a.0, r@[a.0]@));
                    assert(row_has(r@[a.0]@, a.1, a.2));
                    assert(has_arc(self@, a.0, a.1, a.2));
                }
                if self@.arcs().contains(a) {
                    assert(has_arc(self@, a.0, a.1, a.2));
                    let e = choose|e: int|
                        0 <= e < self@.edges.len() && (#[trigger] self@.edges[e]).0 == a.0
                            && self@.edges[e].1 == a.1 && self@.edges[e].2 == a.2;
                    assert(lists_edges(self@, a.0, r@[a.0]@));
                    assert(row_has(r@[a.0]@, a.1, a.2));
                }
            }
            assert(listed_arcs(r@) =~= self@.arcs());
            assert forall|u: int, k: int|
                0 <= u < r@.len() && 0 <= k < r@[u]@.len() implies (#[trigger] r@[u]@[k]).0
                < r@.len() by {
                assert(lists_edges(self@, u, r@[u]@));
            }
        }
        r
    }

    /// Targets and costs of the edges that leave a node.
    fn row(&self, i: u32) -> (row: Vec<(usize, u64)>)
        requires
            self@.wf(),
        ensures
            lists_edges(self@, i as int, row@),
    {
        let from: Vec<(u32, usize)> = directed_edges_from(&self.graph, i);
        let mut row: Vec<(usize, u64)> = Vec::new();
        let mut k: usize = 0;
        while k < from.len()
            invariant
                k <= from@.len(),
                row@.len() == k,
                forall|j: int|
                    0 <= j < k ==> (#[trigger] row@[j]).0 == from@[j].0 && row@[j].1 == from@[j].1,
            decreases from@.len() - k,
        {
            let (b, w): (u32, usize) = from[k];
            row.push((b as usize, w as u64));
            k = k + 1;
        }
        proof {
            assert forall|b: int, c: int| #[trigger] row_has(row@, b, c) implies has_arc(
                self@,
                i as int,
                b,
                c,
            ) by {
                let j = choose|j: int|
                    0 <= j < row@.len() && #[trigger] row@[j].0 == b && row@[j].1 == c;
                assert(from@.contains(from@[j]));
                let t = (i, from@[j].0, from@[j].1);
                assert(self@.edges.contains(t));
                let e = self@.edges.index_of(t);
                assert(self@.edges[e].0 == i);
            }
            assert forall|b: int, c: int| has_arc(self@, i as int, b, c) implies #[trigger] row_has(
                row@,
                b,
                c,
            ) by {
                let e = choose|e: int|
                    0 <= e < self@.edges.len() && (#[trigger] self@.edges[e]).0 == i
                        && self@.edges[e].1 == b && self@.edges[e].2 == c;
                let t = (self@.edges[e].1, self@.edges[e].2);
                assert(self@.edges.contains(self@.edges[e]));
                assert(self@.edges[e] == (i, t.0, t.1));
                assert(from@.contains(t));
                let j = from@.index_of(t);
                assert(row@[j].0 == from@[j].0);
            }
            assert forall|j: int| 0 <= j < row@.len() implies (#[trigger] row@[j]).0
                < self@.nodes.len() by {
                assert(row_has(row@, row@[j].0 as int, row@[j].1 as int));
                let e = choose|e: int|
                    0 <= e < self@.edges.len() && (#[trigger] self@.edges[e]).0 == i
                        && self@.edges[e].1 == row@[j].0 && self@.edges[e].2 == row@[j].1;
                assert(self@.edges[e].1 < self@.nodes.len());
            }
        }
        row
    }

    /// Which indices belong to drones.
    fn drone_flags(&self) -> (r: Vec<bool>)
        requires
            self@.wf(),
        ensures
            r@.len() == self@.nodes.len(),
            marked(r@) == self@.drones(),
    {
        let n: usize = directed_node_bound(&self.graph);
        let mut r: Vec<bool> = Vec::new();
        let mut i: usize = 0;
        while i < n
            invariant
                self@.wf(),
                n == self@.nodes.len(),
                i <= n,
                r@.len() == i,
                forall|u: int| 0 <= u < i ==> (#[trigger] r@[u] <==> self@.is_drone(u)),
            decreases n - i,
        {
            let id: NodeId = directed_node_weight(&self.graph, i as u32).unwrap();
            let drone: bool = match self.node_types.get(&id) {
                Some(t) => *t == NodeType::Drone,
                None => false,
            };
            r.push(drone);
            i = i + 1;
        }
        assert(marked(r@) =~= self@.drones());
        r
    }

    /// Least-cost route from one id to another by way of drones, with the links
    /// forgotten whose ends share no channel.
    pub fn best_path(
        &mut self,
        source: NodeId,
        target: NodeId,
        shared: &Option<SharedSenders>,
    ) -> (r: Option<Vec<NodeId>>)
        requires
            old(self)@.wf(),
        ensures
            final(self)@.wf(),
            final(self)@ == old(self)@.after_best_path(source, target, channels_of(*shared)),
            old(self)@.best_path_is(source, target, channels_of(*shared), ids_view(r)),
    {
        let (s, t): (u32, u32) = match (
            self.node_indices.get(&source),
            self.node_indices.get(&target),
        ) {
            (Some(s), Some(t)) => (*s, *t),
            _ => {
                return None;
            },
        };
        self.prune(shared);
        proof {
            lemma_without_links_keeps(
                old(self)@,
                old(self)@.unshared(channels_of(*shared), old(self)@.edges.len() as int),
            );
        }
        let n: usize = directed_node_bound(&self.graph);
        if s as usize >= n || t as usize >= n {
            return None;
        }
        let adjacency: Vec<Vec<(usize, u64)>> = self.adjacency();
        let relays: Vec<bool> = self.drone_flags();
        match shortest_route(&adjacency, &relays, s as usize, t as usize, u64::MAX) {
            None => None,
            Some(p) => {
                let mut ids: Vec<NodeId> = Vec::new();
                let ghost q = p@.map_values(|i: usize| i as int);
                let mut k: usize = 0;
                while k < p.len()
                    invariant
                        k <= p@.len(),
                        n == self@.nodes.len(),
                        n <= u32::MAX,
                        q == p@.map_values(|i: usize| i as int),
                        forall|j: int| 0 <= j < p@.len() ==> #[trigger] p@[j] < n,
                        ids@ == self@.ids_along(q).subrange(0, k as int),
                    decreases p@.len() - k,
                {
                    assert(q[k as int] == p@[k as int]);
                    let id: NodeId = directed_node_weight(&self.graph, p[k] as u32).unwrap();
                    ids.push(id);
                    k = k + 1;
                    assert(ids@ =~= self@.ids_along(q).subrange(0, k as int));
                }
                proof {
                    assert(ids@ =~= self@.ids_along(q));
                    if self@.nodes.no_duplicates() {
                        assert forall|i: int, j: int| 0 <= i < j < ids@.len() implies ids@[i]
                            != ids@[j] by {
                            assert(q[i] == p@[i] && q[j] == p@[j]);
                            assert(q[i] != q[j]);
                        }
                    }
                    assert(least_cost(
                        self@.arcs(),
                        enterable(self@.drones(), s as int, t as int),
                        s as int,
                        t as int,
                        u64::MAX as int,
                        q,
                    ));
                }
                Some(ids)
            },
        }
    }
}

/// Every node is found under its own id, and every id leads to its node.
pub open spec fn in_place(net: GraphView) -> bool {
    &&& forall|i: int|
        0 <= i < net.nodes.len() ==> net.index.contains_key(#[trigger] net.nodes[i])
            && net.index[net.nodes[i]] == i
    &&& forall|id: NodeId| #[trigger]
        net.placed(id) ==> net.nodes[net.index[id] as int] == id
}

/// A route that the server finds leads from its source to its target, every node between
/// them is a drone, and no id occurs twice.
pub proof fn law_server_routes_lead_through_drones(
    net: GraphView,
    source: NodeId,
    target: NodeId,
    channels: Option<Set<(NodeId, NodeId)>>,
    ids: Seq<NodeId>,
)
    requires
        net.wf(),
        in_place(net),
        net.best_path_is(source, target, channels, Some(ids)),
    ensures
        ids.len() > 0,
        ids[0] == source,
        ids.last() == target,
        ids.no_duplicates(),
        forall|k: int|
            0 < k < ids.len() - 1 ==> net.types.contains_key(#[trigger] ids[k])
                && net.types[ids[k]] == NodeType::Drone,
{
    let m = net.pruned(channels);
    lemma_without_links_keeps(net, net.unshared(channels, net.edges.len() as int));
    assert forall|i: int, j: int| 0 <= i < j < m.nodes.len() implies m.nodes[i] != m.nodes[j] by {
        assert(net.index[net.nodes[i]] == i && net.index[net.nodes[j]] == j);
    }
    let s = net.index[source] as int;
    let t = net.index[target] as int;
    let enter = enterable(m.drones(), s, t);
    let p = choose|p: Seq<int>|
        {
            &&& #[trigger] least_cost(m.arcs(), enter, s, t, u64::MAX as int, p)
            &&& clean_interior(m.drones(), s, t, p)
            &&& p.no_duplicates()
            &&& ids == m.ids_along(p)
            &&& m.nodes.no_duplicates() ==> ids.no_duplicates()
        };
    assert(least_cost(m.arcs(), enter, s, t, u64::MAX as int, p));
    let cost = choose|cost: int|
        {
            &&& #[trigger] walk_between(m.arcs(), enter, s, t, p, cost)
            &&& cost < u64::MAX
            &&& forall|q: Seq<int>, d: int| #[trigger]
                walk_between(m.arcs(), enter, s, t, q, d) ==> cost <= d
        };
    assert(walk_between(m.arcs(), enter, s, t, p, cost));
    assert(ids[0] == m.nodes[p[0]]);
    assert(ids.last() == m.nodes[p.last()]);
    assert forall|k: int| 0 < k < ids.len() - 1 implies net.types.contains_key(#[trigger] ids[k])
        && net.types[ids[k]] == NodeType::Drone by {
        assert(m.drones().contains(p[k]));
    }
}

}
