//! What the second kind of client knows of the network.
use crate::channels::{channels_of, SharedSenders};
use crate::graphs::{
    age_taken_out, edge_between, edge_taken_out, edges_left, edges_taken_out, links_left,
    listed_at, node_taken_out, touches, undirected_add_edge, undirected_add_node, undirected_ages,
    undirected_clone, undirected_edge_count, undirected_edge_references, undirected_edges,
    undirected_edges_at, undirected_find_edge, undirected_new, undirected_node_bound,
    undirected_node_weight, undirected_nodes, undirected_remove_edge, undirected_remove_node,
    undirected_update_edge, UndirectedNet,
};
use crate::known_network::ids_view;
use crate::packet::{NodeId, NodeType};
use crate::routing::{
    clean_interior, enterable, least_cost, listed_arcs, marked, settle_route, settled_before,
    targets_within, unreachable_within, walk_between, Arc,
};
use std::collections::HashMap;
use vstd::prelude::*;

verus! {

broadcast use vstd::std_specs::hash::group_hash_axioms;

/// The nodes and links that a client has heard of. Links have no direction. A node
/// is found by the index that it was given; where a node is taken out, the last one
/// moves to its index, and the index by which that one is found stays as it was.
#[derive(Debug)]
pub struct Mesh {
    net_graph: UndirectedNet,
    node_map: HashMap<NodeId, (u32, NodeType)>,
}

#[verifier::ext_equal]
pub struct MeshView {
    pub nodes: Seq<NodeId>,
    pub edges: Seq<(u32, u32, u8)>,
    /// The indices of the links in the order in which the links were added.
    pub ages: Seq<u32>,
    pub map: Map<NodeId, (u32, NodeType)>,
}

/// A link joins `a` and `b`.
pub open spec fn has_link(edges: Seq<(u32, u32, u8)>, a: u32, b: u32) -> bool {
    exists|e: int| edge_between(edges, e, a, b)
}

/// The position of a link between `a` and `b`.
pub open spec fn link_pos(edges: Seq<(u32, u32, u8)>, a: u32, b: u32) -> int {
    choose|e: int| edge_between(edges, e, a, b)
}

/// No two links join the same nodes.
pub open spec fn links_differ(edges: Seq<(u32, u32, u8)>) -> bool {
    forall|i: int, j: int|
        0 <= i < edges.len() && 0 <= j < edges.len() && (((#[trigger] edges[i]).0 == (
        #[trigger] edges[j]).0 && edges[i].1 == edges[j].1) || (edges[i].0 == edges[j].1
            && edges[i].1 == edges[j].0)) ==> i == j
}

/// A cost, one higher where the type can hold it.
pub open spec fn dearer(w: u8) -> u8 {
    if w < u8::MAX {
        (w + 1) as u8
    } else {
        w
    }
}

/// `edges` with every link at node `i` one dearer.
pub open spec fn dearer_at(edges: Seq<(u32, u32, u8)>, i: u32) -> Seq<(u32, u32, u8)> {
    Seq::new(
        edges.len(),
        |e: int|
            if touches(edges, e, i) {
                (edges[e].0, edges[e].1, dearer(edges[e].2))
            } else {
                edges[e]
            },
    )
}

impl MeshView {
    /// Indices fit, links have both their ends, and no two join the same nodes.
    pub open spec fn wf(self) -> bool {
        &&& self.nodes.len() <= u32::MAX
        &&& self.edges.len() <= u32::MAX
        &&& links_differ(self.edges)
        &&& forall|e: int|
            0 <= e < self.edges.len() ==> (#[trigger] self.edges[e]).0 < self.nodes.len()
                && self.edges[e].1 < self.nodes.len()
    }

    /// The graph has indices left for `n` nodes and as many links.
    pub open spec fn room(self, n: nat) -> bool {
        self.nodes.len() + n < u32::MAX && self.edges.len() + n < u32::MAX
    }

    /// The index of a node, or the first index where it is unknown.
    pub open spec fn index_or_first(self, id: NodeId) -> u32 {
        if self.map.contains_key(id) {
            self.map[id].0
        } else {
            0
        }
    }

    /// The mesh with a node, added where it is unknown.
    pub open spec fn with_node(self, id: NodeId, t: NodeType) -> MeshView {
        if self.map.contains_key(id) {
            self
        } else {
            MeshView {
                nodes: self.nodes.push(id),
                map: self.map.insert(id, (self.nodes.len() as u32, t)),
                ..self
            }
        }
    }

    /// The mesh with a link, added where both indices are in use and not joined.
    pub open spec fn with_link(self, a: u32, b: u32, w: u8) -> MeshView {
        if a < self.nodes.len() && b < self.nodes.len() && !has_link(self.edges, a, b) {
            MeshView {
                edges: self.edges.push((a, b, w)),
                ages: self.ages.push(self.edges.len() as u32),
                ..self
            }
        } else {
            self
        }
    }

    /// The mesh without the link with index `e`. The last link takes its index over.
    pub open spec fn without_edge(self, e: u32) -> MeshView {
        MeshView {
            edges: edge_taken_out(self.edges, e),
            ages: age_taken_out(self.ages, self.edges.len(), e),
            ..self
        }
    }

    /// The mesh after links are taken out one after the other, each by the index that it
    /// has then.
    pub open spec fn without_edges(self, list: Seq<u32>) -> MeshView
        decreases list.len(),
    {
        if list.len() == 0 {
            self
        } else {
            self.without_edges(list.drop_last()).without_edge(list.last())
        }
    }

    /// The mesh after links are taken out by the indices that the links at node `i` have
    /// at first.
    pub open spec fn without_links_at(self, i: u32) -> MeshView {
        self.without_edges(listed_at(self.edges, self.ages, i))
    }

    /// The mesh without the link between two nodes.
    pub open spec fn without_link(self, a: u32, b: u32) -> MeshView {
        if has_link(self.edges, a, b) {
            self.without_edge(link_pos(self.edges, a, b) as u32)
        } else {
            self
        }
    }

    /// The mesh without the links between the given nodes.
    pub open spec fn without_links(self, list: Seq<(u32, u32)>) -> MeshView
        decreases list.len(),
    {
        if list.len() == 0 {
            self
        } else {
            self.without_links(list.drop_last()).without_link(list.last().0, list.last().1)
        }
    }

    /// The links whose ends share no channel.
    pub open spec fn unshared(self, c: Set<(NodeId, NodeId)>, upto: int) -> Seq<(u32, u32)>
        decreases upto,
    {
        if upto <= 0 {
            Seq::empty()
        } else {
            let rest = self.unshared(c, upto - 1);
            let (x, y, _) = self.edges[upto - 1];
            let a = self.nodes[x as int];
            let b = self.nodes[y as int];
            if c.contains((a, b)) || c.contains((b, a)) {
                rest
            } else {
                rest.push((x, y))
            }
        }
    }

    /// The mesh without the links whose ends share no channel.
    pub open spec fn pruned(self, channels: Option<Set<(NodeId, NodeId)>>) -> MeshView {
        match channels {
            Some(c) => self.without_links(self.unshared(c, self.edges.len() as int)),
            None => self,
        }
    }

    /// Each link gives an arc both ways.
    pub open spec fn arcs(self) -> Set<Arc> {
        Set::new(
            |a: Arc|
                exists|e: int|
                    0 <= e < self.edges.len() && #[trigger] joins(self.edges[e], a.0, a.1)
                        && self.edges[e].2 == a.2,
        )
    }

    /// `names` gives each index that some id has one of these ids, and `t` the id
    /// `target`.
    pub open spec fn naming(self, names: Map<u32, NodeId>, t: u32, target: NodeId) -> bool {
        &&& forall|i: u32| #[trigger]
            names.contains_key(i) ==> self.map.contains_key(names[i]) && self.map[names[i]].0 == i
        &&& forall|id: NodeId| #[trigger]
            self.map.contains_key(id) && self.map[id].0 < self.nodes.len() ==> names.contains_key(
                self.map[id].0,
            )
        &&& names.contains_key(t) && names[t] == target
    }

    /// The indices that a route may pass: those with a name, but for servers.
    pub open spec fn relays(self, names: Map<u32, NodeId>) -> Set<int> {
        Set::new(|i: int| self.is_relay(names, i))
    }

    /// Index `i` has a name, and it is not that of a server.
    pub open spec fn is_relay(self, names: Map<u32, NodeId>, i: int) -> bool {
        0 <= i < self.nodes.len() && names.contains_key(i as u32) && self.map[names[i as u32]].1
            != NodeType::Server
    }

    /// The names along a route of indices.
    pub open spec fn names_along(names: Map<u32, NodeId>, p: Seq<int>) -> Seq<NodeId> {
        p.map_values(|i: int| names[i as u32])
    }

    /// One of the nodes has a link to an index that has no name.
    pub open spec fn leads_to_nameless(self, names: Map<u32, NodeId>, nodes: Set<int>) -> bool {
        exists|u: int, e: int| #[trigger]
            touches_nameless(self.edges, e, u, names) && nodes.contains(u)
    }

    /// `r` is a least-cost route between two indices that passes no server, no node
    /// twice and no id twice. There is none where the target is out of reach, or where
    /// the search comes upon an index without a name before it comes to the target.
    pub open spec fn is_route(
        self,
        names: Map<u32, NodeId>,
        s: int,
        t: int,
        r: Option<Seq<NodeId>>,
    ) -> bool {
        let enter = enterable(self.relays(names), s, t);
        exists|order: Seq<int>|
            {
                &&& #[trigger] settled_before(self.arcs(), enter, s, t, u32::MAX as int, order)
                &&& match r {
                    Some(ids) => !self.leads_to_nameless(names, order.to_set()) && exists|p: Seq<int>|
                        {
                            &&& #[trigger] least_cost(self.arcs(), enter, s, t, u32::MAX as int, p)
                            &&& clean_interior(self.relays(names), s, t, p)
                            &&& p.no_duplicates()
                            &&& ids == Self::names_along(names, p)
                            &&& ids.no_duplicates()
                        },
                    None => unreachable_within(self.arcs(), enter, s, t, u32::MAX as int)
                        || self.leads_to_nameless(names, order.to_set()),
                }
            }
    }

    /// What a search for a route gives.
    pub open spec fn best_path_is(
        self,
        source: NodeId,
        target: NodeId,
        channels: Option<Set<(NodeId, NodeId)>>,
        r: Option<Seq<NodeId>>,
    ) -> bool {
        let m = self.pruned(channels);
        if target == 0 {
            r is None
        } else if source == target {
            r == Some(seq![source])
        } else if !self.map.contains_key(source) || !self.map.contains_key(target) {
            r is None
        } else {
            let s = self.map[source].0;
            let t = self.map[target].0;
            if s == t {
                r == Some(seq![target])
            } else if s >= self.nodes.len() || t >= self.nodes.len() {
                r is None
            } else {
                exists|names: Map<u32, NodeId>| #[trigger]
                    m.naming(names, t, target) && m.is_route(names, s as int, t as int, r)
            }
        }
    }

    /// The mesh after a search for a route.
    pub open spec fn after_best_path(
        self,
        source: NodeId,
        target: NodeId,
        channels: Option<Set<(NodeId, NodeId)>>,
    ) -> MeshView {
        if target == 0 || source == target {
            self
        } else {
            self.pruned(channels)
        }
    }
}

/// An edge joins two indices.
pub open spec fn joins(e: (u32, u32, u8), a: int, b: int) -> bool {
    (e.0 == a && e.1 == b) || (e.0 == b && e.1 == a)
}

/// Edge `e` joins node `u` with an index that has no name.
pub open spec fn touches_nameless(
    edges: Seq<(u32, u32, u8)>,
    e: int,
    u: int,
    names: Map<u32, NodeId>,
) -> bool {
    0 <= e < edges.len() && ((edges[e].0 == u && !names.contains_key(edges[e].1)) || (edges[e].1 == u
        && !names.contains_key(edges[e].0)))
}

/// `b` is `a` without a node: the last node has moved to its index.
pub open spec fn mesh_node_removed(a: MeshView, b: MeshView, i: u32) -> bool {
    &&& b.nodes == node_taken_out(a.nodes, i)
    &&& links_left(a.edges, a.ages, b.edges, b.ages, a.nodes.len(), i)
    &&& b.map == a.map
}

/// One step of a trace taken in: `copy` gathers the nodes; where one is new to it,
/// the mesh itself becomes `copy`. The link is added to the mesh itself.
pub open spec fn trace_step(
    copy: MeshView,
    own: MeshView,
    x: (NodeId, NodeType),
    y: (NodeId, NodeType),
) -> (MeshView, MeshView) {
    let c1 = copy.with_node(x.0, x.1);
    let o1 = if copy.map.contains_key(x.0) {
        own
    } else {
        c1
    };
    let c2 = c1.with_node(y.0, y.1);
    let o2 = if c1.map.contains_key(y.0) {
        o1
    } else {
        c2
    };
    (c2, o2.with_link(c2.map[x.0].0, c2.map[y.0].0, 1))
}

/// The first `n` nodes of a trace taken in, link by link.
pub open spec fn trace_taken(own: MeshView, trace: Seq<(NodeId, NodeType)>, n: int) -> (
    MeshView,
    MeshView,
)
    decreases n,
{
    if n <= 1 {
        (own, own)
    } else {
        let before = trace_taken(own, trace, n - 1);
        trace_step(before.0, before.1, trace[n - 2], trace[n - 1])
    }
}

/// The mesh after a trace. Nothing happens where the graph has no indices left.
pub open spec fn after_trace(own: MeshView, trace: Seq<(NodeId, NodeType)>) -> MeshView {
    if own.room(2 * trace.len()) {
        trace_taken(own, trace, trace.len() as int).1
    } else {
        own
    }
}

proof fn lemma_link_pos(edges: Seq<(u32, u32, u8)>, e: int, a: u32, b: u32)
    requires
        links_differ(edges),
        edge_between(edges, e, a, b),
    ensures
        has_link(edges, a, b),
        link_pos(edges, a, b) == e,
{
    let f = link_pos(edges, a, b);
    assert(edge_between(edges, f, a, b));
    assert(edges[e].0 == edges[f].0 || edges[e].0 == edges[f].1);
}

proof fn lemma_taken_out_keeps(edges: Seq<(u32, u32, u8)>, n: int, e: u32)
    requires
        links_differ(edges),
        forall|k: int| 0 <= k < edges.len() ==> (#[trigger] edges[k]).0 < n && edges[k].1 < n,
    ensures
        links_differ(edge_taken_out(edges, e)),
        edge_taken_out(edges, e).len() <= edges.len(),
        forall|k: int|
            0 <= k < edge_taken_out(edges, e).len() ==> (#[trigger] edge_taken_out(edges, e)[k]).0
                < n && edge_taken_out(edges, e)[k].1 < n,
{
    let r = edge_taken_out(edges, e);
    if e < edges.len() {
        let last = edges.len() - 1;
        assert forall|i: int| 0 <= i < r.len() implies #[trigger] r[i] == (if i == e {
            edges[last]
        } else {
            edges[i]
        }) by {}
        assert forall|i: int, j: int|
            0 <= i < r.len() && 0 <= j < r.len() && (((#[trigger] r[i]).0 == (#[trigger] r[j]).0
                && r[i].1 == r[j].1) || (r[i].0 == r[j].1 && r[i].1 == r[j].0)) implies i == j by {
            let x = if i == e {
                last
            } else {
                i
            };
            let y = if j == e {
                last
            } else {
                j
            };
            assert(edges[x] == r[i] && edges[y] == r[j]);
        }
    }
}

proof fn lemma_without_links_keeps(a: MeshView, list: Seq<(u32, u32)>)
    ensures
        a.without_links(list).nodes == a.nodes,
        a.without_links(list).map == a.map,
    decreases list.len(),
{
    if list.len() > 0 {
        lemma_without_links_keeps(a, list.drop_last());
    }
}

proof fn lemma_edges_left_keep(
    before: Seq<(u32, u32, u8)>,
    after: Seq<(u32, u32, u8)>,
    n: nat,
    i: u32,
)
    requires
        links_differ(before),
        n <= u32::MAX,
        forall|e: int| 0 <= e < before.len() ==> (#[trigger] before[e]).0 < n && before[e].1 < n,
        edges_left(before, after, n, i),
        i < n,
    ensures
        links_differ(after),
        after.len() <= before.len(),
        forall|e: int|
            0 <= e < after.len() ==> (#[trigger] after[e]).0 < n - 1 && after[e].1 < n - 1,
{
    let order = choose|order: Seq<int>| #[trigger] edges_taken_out(before, after, n, i, order);
    assert forall|p: int, q: int|
        0 <= p < after.len() && 0 <= q < after.len() && (((#[trigger] after[p]).0 == (
        #[trigger] after[q]).0 && after[p].1 == after[q].1) || (after[p].0 == after[q].1
            && after[p].1 == after[q].0)) implies p == q by {
        assert(0 <= order[p] < before.len() && 0 <= order[q] < before.len());
        assert(!touches(before, order[p], i) && !touches(before, order[q], i));
        let x = before[order[p]];
        let y = before[order[q]];
        assert((x.0 == y.0 && x.1 == y.1) || (x.0 == y.1 && x.1 == y.0));
        assert(order[p] == order[q]);
    }
    assert forall|e: int| 0 <= e < after.len() implies (#[trigger] after[e]).0 < n - 1 && after[e].1
        < n - 1 by {
        assert(0 <= order[e] < before.len());
        assert(!touches(before, order[e], i));
    }
    assert(order.to_set().subset_of(vstd::set_lib::set_int_range(0, before.len() as int))) by {
        assert forall|x: int| order.to_set().contains(x) implies vstd::set_lib::set_int_range(
            0,
            before.len() as int,
        ).contains(x) by {
            let k = order.index_of(x);
            assert(order[k] == x);
        }
    }
    vstd::set_lib::lemma_int_range(0, before.len() as int);
    vstd::set_lib::lemma_len_subset(
        order.to_set(),
        vstd::set_lib::set_int_range(0, before.len() as int),
    );
    order.unique_seq_to_set();
}

/// One of the first `k` entries is edge `e`.
spec fn listed_edge(at: Seq<(u32, u32, u8)>, k: int, e: int) -> bool {
    exists|j: int| 0 <= j < k && (#[trigger] at[j]).0 == e
}

/// A link joins node `i` and node `b` at cost `c`.
spec fn has_arc(net: MeshView, i: int, b: int, c: int) -> bool {
    exists|e: int|
        0 <= e < net.edges.len() && #[trigger] joins(net.edges[e], i, b) && net.edges[e].2 == c
}

/// `row` has an entry for target `b` at cost `c`.
spec fn row_has(row: Seq<(usize, u64)>, b: int, c: int) -> bool {
    exists|j: int| 0 <= j < row.len() && #[trigger] row[j].0 == b && row[j].1 == c
}

/// `row` lists targets and costs of the links at node `i`.
spec fn lists_links(net: MeshView, i: int, row: Seq<(usize, u64)>) -> bool {
    &&& forall|b: int, c: int| #[trigger] row_has(row, b, c) <==> has_arc(net, i, b, c)
    &&& forall|j: int| 0 <= j < row.len() ==> (#[trigger] row[j]).0 < net.nodes.len()
}

/// `name` is an id below `bound` that has index `i`, or there is none.
spec fn name_ok(net: MeshView, i: int, name: Option<NodeId>, bound: int) -> bool {
    match name {
        Some(x) => x < bound && net.map.contains_key(x) && net.map[x].0 == i,
        None => nobody_has(net, i, bound),
    }
}

/// No id below `bound` has index `i`.
spec fn nobody_has(net: MeshView, i: int, bound: int) -> bool {
    forall|id: NodeId| #[trigger] net.map.contains_key(id) && id < bound ==> net.map[id].0 != i
}

/// The names of a list by index.
spec fn names_map(names: Seq<Option<NodeId>>) -> Map<u32, NodeId> {
    Map::new(|i: u32| i < names.len() && names[i as int] is Some, |i: u32| names[i as int]->0)
}

impl View for Mesh {
    type V = MeshView;

    closed spec fn view(&self) -> MeshView {
        MeshView {
            nodes: undirected_nodes(self.net_graph),
            edges: undirected_edges(self.net_graph),
            ages: undirected_ages(self.net_graph),
            map: self.node_map@,
        }
    }
}

impl Mesh {
    /// A mesh without nodes.
    pub fn new() -> (r: Self)
        ensures
            r@.wf(),
            r@.nodes == Seq::<NodeId>::empty(),
            r@.edges == Seq::<(u32, u32, u8)>::empty(),
            r@.ages == Seq::<u32>::empty(),
            r@.map == Map::<NodeId, (u32, NodeType)>::empty(),
    {
        let r = Mesh { net_graph: undirected_new(), node_map: HashMap::new() };
        assert(r@.edges =~= Seq::<(u32, u32, u8)>::empty());
        r
    }

    /// A copy.
    pub fn duplicate(&self) -> (r: Self)
        ensures
            r@ == self@,
    {
        let mut node_map: HashMap<NodeId, (u32, NodeType)> = HashMap::new();
        let mut id: u16 = 0;
        while id < 256
            invariant
                id <= 256,
                forall|x: NodeId| #[trigger]
                    node_map@.contains_key(x) <==> x < id && self.node_map@.contains_key(x),
                forall|x: NodeId| #[trigger]
                    node_map@.contains_key(x) ==> node_map@[x] == self.node_map@[x],
            decreases 256 - id,
        {
            let this: u8 = id as u8;
            assert(this == id);
            let ghost before = node_map@;
            if let Some(v) = self.node_map.get(&this) {
                node_map.insert(this, *v);
            }
            proof {
                assert forall|x: NodeId| #[trigger] node_map@.contains_key(x) <==> x < id + 1
                    && self.node_map@.contains_key(x) by {
                    assert(before.contains_key(x) <==> x < id && self.node_map@.contains_key(x));
                }
                assert forall|x: NodeId| #[trigger] node_map@.contains_key(x) implies node_map@[x]
                    == self.node_map@[x] by {
                    if x != this {
                        assert(before.contains_key(x));
                    }
                }
            }
            id = id + 1;
        }
        let r = Mesh { net_graph: undirected_clone(&self.net_graph), node_map };
        assert(r@.map =~= self@.map);
        r
    }

    /// Whether an id is known.
    pub fn knows(&self, id: NodeId) -> (r: bool)
        ensures
            r == self@.map.contains_key(id),
    {
        self.node_map.contains_key(&id)
    }

    /// The type of a node.
    pub fn node_type(&self, id: NodeId) -> (r: Option<NodeType>)
        ensures
            r == (if self@.map.contains_key(id) {
                Some(self@.map[id].1)
            } else {
                None
            }),
    {
        match self.node_map.get(&id) {
            Some(v) => Some(v.1),
            None => None,
        }
    }

    /// The index of a node, or the first index where it is unknown.
    pub fn index_or_first(&self, id: NodeId) -> (r: u32)
        ensures
            r == self@.index_or_first(id),
    {
        match self.node_map.get(&id) {
            Some(v) => v.0,
            None => 0,
        }
    }

    /// Whether two indices are joined.
    pub fn joined(&self, a: u32, b: u32) -> (r: bool)
        ensures
            r == has_link(self@.edges, a, b),
    {
        undirected_find_edge(&self.net_graph, a, b).is_some()
    }

    /// The cost of the link between two indices.
    pub fn cost(&self, a: u32, b: u32) -> (r: Option<u8>)
        requires
            self@.wf(),
        ensures
            r == (if has_link(self@.edges, a, b) {
                Some(self@.edges[link_pos(self@.edges, a, b)].2)
            } else {
                None
            }),
    {
        match undirected_find_edge(&self.net_graph, a, b) {
            Some(e) => {
                proof {
                    lemma_link_pos(self@.edges, e as int, a, b);
                }
                let list: Vec<(u32, u32, u8)> = undirected_edge_references(&self.net_graph);
                Some(list[e as usize].2)
            },
            None => None,
        }
    }

    /// Whether the graph has indices left for `n` nodes and as many links.
    pub fn has_room(&self, n: usize) -> (r: bool)
        ensures
            r == self@.room(n as nat),
    {
        let max: usize = u32::MAX as usize;
        let nodes: usize = undirected_node_bound(&self.net_graph);
        let edges: usize = undirected_edge_count(&self.net_graph);
        nodes < max && n < max - nodes && edges < max && n < max - edges
    }

    /// The index of a node, added where it is unknown; says whether it was added.
    pub fn add_node_no_duplicate(&mut self, id: NodeId, node_type: NodeType) -> (r: (u32, bool))
        requires
            old(self)@.wf(),
            old(self)@.room(1),
        ensures
            final(self)@.wf(),
            final(self)@ == old(self)@.with_node(id, node_type),
            r.0 == final(self)@.map[id].0,
            r.1 == !old(self)@.map.contains_key(id),
    {
        if let Some(v) = self.node_map.get(&id) {
            return (v.0, false);
        }
        let i: u32 = undirected_add_node(&mut self.net_graph, id);
        self.node_map.insert(id, (i, node_type));
        assert(self@ =~= old(self)@.with_node(id, node_type));
        (i, true)
    }

    /// Adds a link where both indices are in use and not joined; says whether it was
    /// added.
    pub fn add_edge_no_duplicate(&mut self, a: u32, b: u32, weight: u8) -> (r: bool)
        requires
            old(self)@.wf(),
            old(self)@.room(1),
        ensures
            final(self)@.wf(),
            final(self)@ == old(self)@.with_link(a, b, weight),
            r == (a < old(self)@.nodes.len() && b < old(self)@.nodes.len() && !has_link(
                old(self)@.edges,
                a,
                b,
            )),
    {
        let n: usize = undirected_node_bound(&self.net_graph);
        if (a as usize) < n && (b as usize) < n && undirected_find_edge(&self.net_graph, a, b).is_none() {
            undirected_add_edge(&mut self.net_graph, a, b, weight);
            proof {
                let o = old(self)@;
                assert(!has_link(o.edges, a, b));
                assert(self@ =~= o.with_link(a, b, weight));
                assert forall|i: int, j: int|
                    0 <= i < self@.edges.len() && 0 <= j < self@.edges.len() && (((
                    #[trigger] self@.edges[i]).0 == (#[trigger] self@.edges[j]).0
                        && self@.edges[i].1 == self@.edges[j].1) || (self@.edges[i].0
                        == self@.edges[j].1 && self@.edges[i].1 == self@.edges[j].0)) implies i
                    == j by {
                    if i < o.edges.len() && j < o.edges.len() {
                        assert(o.edges[i] == self@.edges[i] && o.edges[j] == self@.edges[j]);
                    } else if i < o.edges.len() {
                        assert(edge_between(o.edges, i, a, b));
                    } else if j < o.edges.len() {
                        assert(edge_between(o.edges, j, a, b));
                    }
                }
            }
            true
        } else {
            false
        }
    }

    /// Takes the link between two indices out.
    pub fn remove_link(&mut self, a: u32, b: u32)
        requires
            old(self)@.wf(),
        ensures
            final(self)@.wf(),
            final(self)@ == old(self)@.without_link(a, b),
    {
        let ghost o = self@;
        match undirected_find_edge(&self.net_graph, a, b) {
            Some(e) => {
                proof {
                    lemma_link_pos(o.edges, e as int, a, b);
                    lemma_taken_out_keeps(o.edges, o.nodes.len() as int, e);
                }
                undirected_remove_edge(&mut self.net_graph, e);
            },
            None => {
                assert(!has_link(o.edges, a, b));
            },
        }
        assert(self@ =~= o.without_link(a, b));
    }

    /// Takes links out by the indices that the links at node `i` have at first. Where the
    /// last link moves to an index that is free, it goes by that index from then on.
    pub fn remove_all_edges_with_node(&mut self, i: u32)
        requires
            old(self)@.wf(),
        ensures
            final(self)@.wf(),
            final(self)@ == old(self)@.without_links_at(i),
    {
        let ghost o = self@;
        let at: Vec<(u32, u32, u8)> = undirected_edges_at(&self.net_graph, i);
        let ghost list = listed_at(o.edges, o.ages, i);
        let mut k: usize = 0;
        assert(list.subrange(0, 0) =~= Seq::<u32>::empty());
        while k < at.len()
            invariant
                k <= at@.len(),
                list == at@.map_values(|t: (u32, u32, u8)| t.0),
                self@.wf(),
                self@ == o.without_edges(list.subrange(0, k as int)),
            decreases at@.len() - k,
        {
            let e: u32 = at[k].0;
            proof {
                let s = list.subrange(0, k + 1);
                assert(s.drop_last() =~= list.subrange(0, k as int));
                assert(s.last() == e);
                lemma_taken_out_keeps(self@.edges, self@.nodes.len() as int, e);
            }
            let ghost before = self@;
            undirected_remove_edge(&mut self.net_graph, e);
            assert(self@ =~= before.without_edge(e));
            k = k + 1;
        }
        assert(list.subrange(0, k as int) =~= list);
    }

    /// Forgets that an id has an index.
    pub fn forget(&mut self, id: NodeId) -> (r: Option<u32>)
        requires
            old(self)@.wf(),
        ensures
            final(self)@.wf(),
            final(self)@ == (MeshView { map: old(self)@.map.remove(id), ..old(self)@ }),
            r == (if old(self)@.map.contains_key(id) {
                Some(old(self)@.map[id].0)
            } else {
                None
            }),
    {
        let r: Option<u32> = match self.node_map.remove(&id) {
            Some(v) => Some(v.0),
            None => None,
        };
        assert(self@.map =~= old(self)@.map.remove(id));
        assert(self@ =~= MeshView { map: old(self)@.map.remove(id), ..old(self)@ });
        r
    }

    /// Takes the node at an index out.
    pub fn remove_node(&mut self, i: u32)
        requires
            old(self)@.wf(),
        ensures
            final(self)@.wf(),
            mesh_node_removed(old(self)@, final(self)@, i),
    {
        let ghost o = self@;
        undirected_remove_node(&mut self.net_graph, i);
        proof {
            if i < o.nodes.len() {
                lemma_edges_left_keep(o.edges, self@.edges, o.nodes.len(), i);
            }
        }
    }

    /// Makes every link at a node one dearer.
    pub fn increase_cost(&mut self, id: NodeId)
        requires
            old(self)@.wf(),
            old(self)@.map.contains_key(id),
        ensures
            final(self)@.wf(),
            final(self)@ == (MeshView {
                edges: dearer_at(old(self)@.edges, old(self)@.map[id].0),
                ..old(self)@
            }),
    {
        let ghost o = self@;
        let i: u32 = self.index_or_first(id);
        let at: Vec<(u32, u32, u8)> = undirected_edges_at(&self.net_graph, i);
        let mut k: usize = 0;
        let ghost want = dearer_at(o.edges, i);
        while k < at.len()
            invariant
                o.wf(),
                want == dearer_at(o.edges, i),
                k <= at@.len(),
                at@.no_duplicates(),
                forall|t: (u32, u32, u8)| #[trigger]
                    at@.contains(t) <==> (edge_between(o.edges, t.0 as int, i, t.1)
                        && o.edges[t.0 as int].2 == t.2),
                self@.nodes == o.nodes,
                self@.ages == o.ages,
                self@.map == o.map,
                self@.edges.len() == o.edges.len(),
                forall|e: int|
                    0 <= e < o.edges.len() ==> #[trigger] self@.edges[e] == (if listed_edge(
                        at@,
                        k as int,
                        e,
                    ) {
                        want[e]
                    } else {
                        o.edges[e]
                    }),
            decreases at@.len() - k,
        {
            let (e, other, w): (u32, u32, u8) = at[k];
            let ghost before = self@;
            proof {
                assert(at@.contains(at@[k as int]));
                assert(edge_between(o.edges, e as int, i, other));
                assert(!listed_edge(at@, k as int, e as int)) by {
                    if listed_edge(at@, k as int, e as int) {
                        let j = choose|j: int| 0 <= j < k && (#[trigger] at@[j]).0 == e;
                        assert(at@.contains(at@[j]));
                        assert(edge_between(o.edges, at@[j].0 as int, i, at@[j].1));
                        assert(at@[j] == at@[k as int]);
                    }
                }
                assert forall|x: int| #[trigger] edge_between(before.edges, x, i, other) implies x == e by {
                    assert(before.edges[x].0 == o.edges[x].0 && before.edges[x].1 == o.edges[x].1);
                    assert(o.edges[x].0 == o.edges[e as int].0 || o.edges[x].0 == o.edges[e as int].1);
                }
                assert(before.edges[e as int] == o.edges[e as int]);
                assert(o.edges[e as int].0 < o.nodes.len() && o.edges[e as int].1 < o.nodes.len());
                assert(edge_between(before.edges, e as int, i, other));
            }
            if w != u8::MAX {
                undirected_update_edge(&mut self.net_graph, i, other, w + 1);
            }
            proof {
                assert forall|x: int| 0 <= x < o.edges.len() implies #[trigger] self@.edges[x] == (
                if listed_edge(at@, k + 1, x) {
                    want[x]
                } else {
                    o.edges[x]
                }) by {
                    assert(listed_edge(at@, k + 1, x) <==> listed_edge(at@, k as int, x) || x == e) by {
                        if listed_edge(at@, k as int, x) {
                            let j = choose|j: int| 0 <= j < k && (#[trigger] at@[j]).0 == x;
                            assert(at@[j].0 == x);
                        }
                        if x == e {
                            assert(at@[k as int].0 == x);
                        }
                    }
                    assert(before.edges[x] == (if listed_edge(at@, k as int, x) {
                        want[x]
                    } else {
                        o.edges[x]
                    }));
                }
            }
            k = k + 1;
        }
        proof {
            assert forall|e: int| 0 <= e < o.edges.len() implies #[trigger] self@.edges[e] == want[e] by {
                if touches(o.edges, e, i) {
                    let other = if o.edges[e].0 == i {
                        o.edges[e].1
                    } else {
                        o.edges[e].0
                    };
                    let t = (e as u32, other, o.edges[e].2);
                    assert(edge_between(o.edges, t.0 as int, i, t.1));
                    assert(at@.contains(t));
                    let j = at@.index_of(t);
                    assert(at@[j].0 == e);
                    assert(listed_edge(at@, k as int, e));
                } else {
                    if listed_edge(at@, k as int, e) {
                        let j = choose|j: int| 0 <= j < k && (#[trigger] at@[j]).0 == e;
                        assert(at@.contains(at@[j]));
                        assert(edge_between(o.edges, at@[j].0 as int, i, at@[j].1));
                    }
                }
            }
            assert(self@.edges =~= want);
            assert forall|x: int, y: int|
                0 <= x < want.len() && 0 <= y < want.len() && (((#[trigger] want[x]).0 == (
                #[trigger] want[y]).0 && want[x].1 == want[y].1) || (want[x].0 == want[y].1
                    && want[x].1 == want[y].0)) implies x == y by {
                assert(o.edges[x].0 == want[x].0 && o.edges[y].0 == want[y].0);
            }
            assert forall|e: int| 0 <= e < want.len() implies (#[trigger] want[e]).0 < o.nodes.len()
                && want[e].1 < o.nodes.len() by {
                assert(o.edges[e].0 < o.nodes.len());
            }
            assert(self@ =~= MeshView { edges: want, ..o });
        }
    }

    /// Takes a trace in, link by link.
    pub fn take_trace(&mut self, trace: &Vec<(NodeId, NodeType)>)
        requires
            old(self)@.wf(),
        ensures
            final(self)@.wf(),
            final(self)@ == after_trace(old(self)@, trace@),
    {
        let ghost o = self@;
        let n: usize = trace.len();
        if n > usize::MAX / 2 || !self.has_room(2 * n) {
            return;
        }
        let mut copy: Mesh = self.duplicate();
        let mut i: usize = 1;
        while i < n
            invariant
                o == old(self)@,
                o.room(2 * n as nat),
                n == trace@.len(),
                1 <= i,
                i <= n || i == 1,
                copy@.wf(),
                self@.wf(),
                copy@.nodes.len() <= o.nodes.len() + 2 * (i - 1),
                copy@.edges == o.edges,
                self@.nodes.len() <= o.nodes.len() + 2 * (i - 1),
                self@.edges.len() <= o.edges.len() + (i - 1),
                (copy@, self@) == trace_taken(o, trace@, i as int),
            decreases n - i,
        {
            let ghost c0 = copy@;
            let ghost o0 = self@;
            let (x, tx): (NodeId, NodeType) = trace[i - 1];
            let (y, ty): (NodeId, NodeType) = trace[i];
            let (_, new_x): (u32, bool) = copy.add_node_no_duplicate(x, tx);
            if new_x {
                *self = copy.duplicate();
            }
            let (b, new_y): (u32, bool) = copy.add_node_no_duplicate(y, ty);
            if new_y {
                *self = copy.duplicate();
            }
            let a: u32 = copy.index_or_first(x);
            self.add_edge_no_duplicate(a, b, 1);
            i = i + 1;
            proof {
                assert(trace@[i - 2] == (x, tx));
                assert(trace@[i - 1] == (y, ty));
                assert((copy@, self@) == trace_step(c0, o0, (x, tx), (y, ty)));
            }
        }
    }

    /// The links whose ends share no channel, in the order of the edges.
    fn unshared(&self, channels: &SharedSenders) -> (r: Vec<(u32, u32)>)
        requires
            self@.wf(),
        ensures
            r@ == self@.unshared(channels@, self@.edges.len() as int),
    {
        let mut r: Vec<(u32, u32)> = Vec::new();
        let list: Vec<(u32, u32, u8)> = undirected_edge_references(&self.net_graph);
        let mut k: usize = 0;
        assert(r@ =~= self@.unshared(channels@, 0));
        while k < list.len()
            invariant
                self@.wf(),
                list@ == self@.edges,
                k <= list@.len(),
                r@ == self@.unshared(channels@, k as int),
            decreases list@.len() - k,
        {
            let (x, y, _): (u32, u32, u8) = list[k];
            assert(self@.edges[k as int].0 == x);
            let a: NodeId = undirected_node_weight(&self.net_graph, x).unwrap();
            let b: NodeId = undirected_node_weight(&self.net_graph, y).unwrap();
            if !channels.contains(a, b) && !channels.contains(b, a) {
                r.push((x, y));
            }
            k = k + 1;
        }
        r
    }

    /// Forgets the links whose ends share no channel.
    fn prune(&mut self, shared: &Option<SharedSenders>)
        requires
            old(self)@.wf(),
        ensures
            final(self)@.wf(),
            final(self)@ == old(self)@.pruned(channels_of(*shared)),
    {
        if let Some(channels) = shared {
            let list: Vec<(u32, u32)> = self.unshared(channels);
            let mut k: usize = 0;
            assert(list@.subrange(0, 0) =~= Seq::<(u32, u32)>::empty());
            while k < list.len()
                invariant
                    self@.wf(),
                    k <= list@.len(),
                    self@ == old(self)@.without_links(list@.subrange(0, k as int)),
                decreases list@.len() - k,
            {
                proof {
                    let s = list@.subrange(0, k + 1);
                    assert(s.drop_last() =~= list@.subrange(0, k as int));
                    assert(s.last() == list@[k as int]);
                }
                let (a, b): (u32, u32) = list[k];
                self.remove_link(a, b);
                k = k + 1;
            }
            assert(list@.subrange(0, k as int) =~= list@);
        }
    }

    /// Targets and costs of the links at a node.
    fn row(&self, i: u32) -> (row: Vec<(usize, u64)>)
        requires
            self@.wf(),
        ensures
            lists_links(self@, i as int, row@),
    {
        let at: Vec<(u32, u32, u8)> = undirected_edges_at(&self.net_graph, i);
        let mut row: Vec<(usize, u64)> = Vec::new();
        let mut k: usize = 0;
        while k < at.len()
            invariant
                k <= at@.len(),
                row@.len() == k,
                forall|j: int|
                    0 <= j < k ==> (#[trigger] row@[j]).0 == at@[j].1 && row@[j].1 == at@[j].2,
            decreases at@.len() - k,
        {
            let (_, b, w): (u32, u32, u8) = at[k];
            row.push((b as usize, w as u64));
            k = k + 1;
        }
        proof {
            let edges = self@.edges;
            assert forall|b: int, c: int| #[trigger] row_has(row@, b, c) implies has_arc(
                self@,
                i as int,
                b,
                c,
            ) by {
                let j = choose|j: int|
                    0 <= j < row@.len() && #[trigger] row@[j].0 == b && row@[j].1 == c;
                assert(at@.contains(at@[j]));
                assert(edge_between(edges, at@[j].0 as int, i, at@[j].1));
                assert(joins(edges[at@[j].0 as int], i as int, b));
            }
            assert forall|b: int, c: int| has_arc(self@, i as int, b, c) implies #[trigger] row_has(
                row@,
                b,
                c,
            ) by {
                let e = choose|e: int|
                    0 <= e < edges.len() && #[trigger] joins(edges[e], i as int, b) && edges[e].2 == c;
                let other = if edges[e].0 == i {
                    edges[e].1
                } else {
                    edges[e].0
                };
                let t = (e as u32, other, edges[e].2);
                assert(edge_between(edges, t.0 as int, i, t.1));
                assert(at@.contains(t));
                let j = at@.index_of(t);
                assert(row@[j].0 == at@[j].1);
            }
            assert forall|j: int| 0 <= j < row@.len() implies (#[trigger] row@[j]).0
                < self@.nodes.len() by {
                assert(at@.contains(at@[j]));
                assert(edge_between(edges, at@[j].0 as int, i, at@[j].1));
                assert(edges[at@[j].0 as int].0 < self@.nodes.len());
            }
        }
        row
    }

    /// Targets and costs of the links at each node.
    fn adjacency(&self) -> (r: Vec<Vec<(usize, u64)>>)
        requires
            self@.wf(),
        ensures
            r@.len() == self@.nodes.len(),
            targets_within(r@),
            listed_arcs(r@) == self@.arcs(),
            forall|u: int| 0 <= u < r@.len() ==> lists_links(self@, u, (#[trigger] r@[u])@),
    {
        let n: usize = undirected_node_bound(&self.net_graph);
        let mut r: Vec<Vec<(usize, u64)>> = Vec::new();
        let mut i: usize = 0;
        while i < n
            invariant
                self@.wf(),
                n == self@.nodes.len(),
                i <= n,
                r@.len() == i,
                forall|u: int| 0 <= u < i ==> lists_links(self@, u, (#[trigger] r@[u])@),
            decreases n - i,
        {
            let row: Vec<(usize, u64)> = self.row(i as u32);
            r.push(row);
            i = i + 1;
        }
        proof {
            assert forall|a: Arc| listed_arcs(r@).contains(a) <==> self@.arcs().contains(a) by {
                if listed_arcs(r@).contains(a) {
                    let k = choose|k: int|
                        0 <= k < r@[a.0]@.len() && #[trigger] r@[a.0]@[k].0 == a.1 && r@[a.0]@[k].1
                            == a.2;
                    assert(lists_links(self@, a.0, r@[a.0]@));
                    assert(row_has(r@[a.0]@, a.1, a.2));
                    assert(has_arc(self@, a.0, a.1, a.2));
                }
                if self@.arcs().contains(a) {
                    assert(has_arc(self@, a.0, a.1, a.2));
                    let e = choose|e: int|
                        0 <= e < self@.edges.len() && #[trigger] joins(self@.edges[e], a.0, a.1)
                            && self@.edges[e].2 == a.2;
                    assert(self@.edges[e].0 < self@.nodes.len());
                    assert(lists_links(self@, a.0, r@[a.0]@));
                    assert(row_has(r@[a.0]@, a.1, a.2));
                }
            }
            assert(listed_arcs(r@) =~= self@.arcs());
            assert forall|u: int, k: int|
                0 <= u < r@.len() && 0 <= k < r@[u]@.len() implies (#[trigger] r@[u]@[k]).0
                < r@.len() by {
                assert(lists_links(self@, u, r@[u]@));
            }
        }
        r
    }

    /// For each index a name, where some id has it; index `t` is named `target`.
    fn names(&self, t: u32, target: NodeId) -> (r: Vec<Option<NodeId>>)
        requires
            self@.wf(),
            self@.map.contains_key(target),
            self@.map[target].0 == t,
            t < self@.nodes.len(),
        ensures
            r@.len() == self@.nodes.len(),
            forall|i: int| 0 <= i < r@.len() ==> name_ok(self@, i, #[trigger] r@[i], 256),
            r@[t as int] == Some(target),
    {
        let n: usize = undirected_node_bound(&self.net_graph);
        let mut r: Vec<Option<NodeId>> = Vec::new();
        let mut k: usize = 0;
        while k < n
            invariant
                k <= n,
                r@.len() == k,
                forall|i: int| 0 <= i < k ==> #[trigger] r@[i] == None::<NodeId>,
            decreases n - k,
        {
            r.push(None);
            k = k + 1;
        }
        let mut id: u16 = 0;
        while id < 256
            invariant
                id <= 256,
                n == self@.nodes.len(),
                r@.len() == n,
                forall|i: int| 0 <= i < n ==> name_ok(self@, i, #[trigger] r@[i], id as int),
            decreases 256 - id,
        {
            let this: u8 = id as u8;
            assert(this == id);
            let ghost before = r@;
            if let Some(v) = self.node_map.get(&this) {
                let i: usize = v.0 as usize;
                if i < n && r[i].is_none() {
                    r.set(i, Some(this));
                }
            }
            proof {
                assert forall|i: int| 0 <= i < n implies name_ok(
                    self@,
                    i,
                    #[trigger] r@[i],
                    id + 1,
                ) by {
                    assert(name_ok(self@, i, before[i], id as int));
                }
            }
            id = id + 1;
        }
        r.set(t as usize, Some(target));
        r
    }

    /// Which indices a route may pass.
    fn relay_flags(&self, names: &Vec<Option<NodeId>>) -> (r: Vec<bool>)
        requires
            names@.len() == self@.nodes.len(),
            self@.nodes.len() <= u32::MAX,
            forall|i: int|
                0 <= i < names@.len() ==> name_ok(self@, i, #[trigger] names@[i], 256),
        ensures
            r@.len() == self@.nodes.len(),
            marked(r@) == self@.relays(names_map(names@)),
    {
        let mut r: Vec<bool> = Vec::new();
        let mut i: usize = 0;
        let ghost nm = names_map(names@);
        while i < names.len()
            invariant
                i <= names@.len(),
                r@.len() == i,
                nm == names_map(names@),
                names@.len() == self@.nodes.len(),
                self@.nodes.len() <= u32::MAX,
                forall|k: int|
                    0 <= k < names@.len() ==> name_ok(self@, k, #[trigger] names@[k], 256),
                forall|u: int| 0 <= u < i ==> (#[trigger] r@[u] <==> self@.is_relay(nm, u)),
            decreases names@.len() - i,
        {
            let relay: bool = match names[i] {
                Some(id) => match self.node_map.get(&id) {
                    Some(v) => v.1 != NodeType::Server,
                    None => false,
                },
                None => false,
            };
            r.push(relay);
            i = i + 1;
        }
        assert(marked(r@) =~= self@.relays(nm));
        r
    }

    /// A flagged node with a link to an index without a name, where there is one.
    fn meets_nameless(
        &self,
        adjacency: &Vec<Vec<(usize, u64)>>,
        settled: &Vec<bool>,
        names: &Vec<Option<NodeId>>,
    ) -> (r: Option<usize>)
        requires
            self@.wf(),
            adjacency@.len() == self@.nodes.len(),
            settled@.len() == self@.nodes.len(),
            names@.len() == self@.nodes.len(),
            targets_within(adjacency@),
            forall|u: int|
                0 <= u < adjacency@.len() ==> lists_links(self@, u, (#[trigger] adjacency@[u])@),
        ensures
            match r {
                Some(u) => u < settled@.len() && settled@[u as int] && exists|e: int| #[trigger]
                    touches_nameless(self@.edges, e, u as int, names_map(names@)),
                None => !self@.leads_to_nameless(names_map(names@), marked(settled@)),
            },
    {
        let mut u: usize = 0;
        while u < adjacency.len()
            invariant
                forall|x: int, j: int|
                    0 <= x < u && settled@[x] && 0 <= j < adjacency@[x]@.len()
                        ==> names@[(#[trigger] adjacency@[x]@[j]).0 as int] is Some,
                u <= adjacency@.len(),
                self@.wf(),
                adjacency@.len() == self@.nodes.len(),
                settled@.len() == self@.nodes.len(),
                names@.len() == self@.nodes.len(),
                targets_within(adjacency@),
                forall|x: int|
                    0 <= x < adjacency@.len() ==> lists_links(
                        self@,
                        x,
                        (#[trigger] adjacency@[x])@,
                    ),
            decreases adjacency@.len() - u,
        {
            if settled[u] {
                let mut k: usize = 0;
                while k < adjacency[u].len()
                    invariant
                        u < adjacency@.len(),
                        k <= adjacency@[u as int]@.len(),
                        forall|j: int|
                            0 <= j < k ==> names@[(#[trigger] adjacency@[u as int]@[j]).0 as int] is Some,
                        self@.wf(),
                        adjacency@.len() == self@.nodes.len(),
                        settled@.len() == self@.nodes.len(),
                        settled@[u as int],
                        names@.len() == self@.nodes.len(),
                        targets_within(adjacency@),
                        lists_links(self@, u as int, adjacency@[u as int]@),
                    decreases adjacency@[u as int]@.len() - k,
                {
                    let (v, w): (usize, u64) = adjacency[u][k];
                    assert(adjacency@[u as int]@[k as int].0 < adjacency@.len());
                    if names[v].is_none() {
                        proof {
                            assert(row_has(adjacency@[u as int]@, v as int, w as int));
                            assert(has_arc(self@, u as int, v as int, w as int));
                            let e = choose|e: int|
                                0 <= e < self@.edges.len() && #[trigger] joins(
                                    self@.edges[e],
                                    u as int,
                                    v as int,
                                ) && self@.edges[e].2 == w;
                            assert(!names_map(names@).contains_key(v as u32));
                            assert(touches_nameless(
                                self@.edges,
                                e,
                                u as int,
                                names_map(names@),
                            ));
                        }
                        return Some(u);
                    }
                    k = k + 1;
                }
            }
            u = u + 1;
        }
        proof {
            let edges = self@.edges;
            let nm = names_map(names@);
            assert forall|x: int, e: int| #[trigger]
                touches_nameless(edges, e, x, nm) implies !marked(settled@).contains(x) by {
                if marked(settled@).contains(x) {
                    let v = if edges[e].0 == x && !nm.contains_key(edges[e].1) {
                        edges[e].1
                    } else {
                        edges[e].0
                    };
                    assert(joins(edges[e], x, v as int));
                    assert(has_arc(self@, x, v as int, edges[e].2 as int));
                    assert(lists_links(self@, x, adjacency@[x]@));
                    assert(row_has(adjacency@[x]@, v as int, edges[e].2 as int));
                    let j = choose|j: int|
                        0 <= j < adjacency@[x]@.len() && #[trigger] adjacency@[x]@[j].0 == v
                            && adjacency@[x]@[j].1 == edges[e].2;
                    assert(adjacency@[x]@[j].0 < adjacency@.len());
                    assert(names@[adjacency@[x]@[j].0 as int] is Some);
                }
            }
        }
        None
    }

    /// Least-cost route from one id to another that passes no server, with the links
    /// forgotten whose ends share no channel.
    pub fn best_path(
        &mut self,
        source: NodeId,
        target: NodeId,
        shared: &Option<SharedSenders>,
    ) -> (r: Option<Vec<NodeId>>)
        requires
            old(self)@.wf(),
        ensures
            final(self)@.wf(),
            final(self)@ == old(self)@.after_best_path(source, target, channels_of(*shared)),
            old(self)@.best_path_is(source, target, channels_of(*shared), ids_view(r)),
    {
        if target == 0 {
            return None;
        }
        let mut only: Vec<NodeId> = Vec::new();
        if source == target {
            only.push(source);
            assert(only@ =~= seq![source]);
            return Some(only);
        }
        self.prune(shared);
        proof {
            if let Some(c) = channels_of(*shared) {
                let o = old(self)@;
                lemma_without_links_keeps(o, o.unshared(c, o.edges.len() as int));
            }
        }
        let (s, t): (u32, u32) = match (self.node_map.get(&source), self.node_map.get(&target)) {
            (Some(s), Some(t)) => (s.0, t.0),
            _ => {
                return None;
            },
        };
        if s == t {
            only.push(target);
            assert(only@ =~= seq![target]);
            return Some(only);
        }
        let n: usize = undirected_node_bound(&self.net_graph);
        if s as usize >= n || t as usize >= n {
            return None;
        }
        let adjacency: Vec<Vec<(usize, u64)>> = self.adjacency();
        let names: Vec<Option<NodeId>> = self.names(t, target);
        let ghost nm = names_map(names@);
        let relays: Vec<bool> = self.relay_flags(&names);
        let (route, settled): (Option<Vec<usize>>, Vec<bool>) = settle_route(
            &adjacency,
            &relays,
            s as usize,
            t as usize,
            u32::MAX as u64,
        );
        proof {
            assert(self@.naming(nm, t, target)) by {
                assert forall|i: u32| #[trigger] nm.contains_key(i) implies self@.map.contains_key(
                    nm[i],
                ) && self@.map[nm[i]].0 == i by {
                    assert(name_ok(self@, i as int, names@[i as int], 256));
                }
                assert forall|id: NodeId| #[trigger]
                    self@.map.contains_key(id) && self@.map[id].0 < n implies nm.contains_key(
                    self@.map[id].0,
                ) by {
                    let i = self@.map[id].0;
                    assert(name_ok(self@, i as int, names@[i as int], 256));
                }
            }
        }
        let ghost order = choose|order: Seq<int>|
            {
                &&& #[trigger] settled_before(
                    self@.arcs(),
                    enterable(self@.relays(nm), s as int, t as int),
                    s as int,
                    t as int,
                    u32::MAX as int,
                    order,
                )
                &&& marked(settled@) == order.to_set()
            };
        match self.meets_nameless(&adjacency, &settled, &names) {
            Some(u) => {
                proof {
                    let e = choose|e: int| #[trigger]
                        touches_nameless(self@.edges, e, u as int, nm);
                    assert(order.to_set().contains(u as int));
                    assert(self@.leads_to_nameless(nm, order.to_set()));
                    assert(self@.is_route(nm, s as int, t as int, None));
                }
                return None;
            },
            None => {},
        }
        match route {
            None => {
                assert(self@.is_route(nm, s as int, t as int, None));
                None
            },
            Some(p) => {
                let mut ids: Vec<NodeId> = Vec::new();
                let ghost q = p@.map_values(|i: usize| i as int);
                let ghost want = MeshView::names_along(nm, q);
                proof {
                    assert(self@.map.contains_key(source));
                    assert(q.len() == p@.len());
                    let enter = enterable(self@.relays(nm), s as int, t as int);
                    assert(least_cost(
                        self@.arcs(),
                        enter,
                        s as int,
                        t as int,
                        u32::MAX as int,
                        q,
                    ));
                    let cost = choose|cost: int|
                        {
                            &&& #[trigger] walk_between(
                                self@.arcs(),
                                enter,
                                s as int,
                                t as int,
                                q,
                                cost,
                            )
                            &&& cost < u32::MAX
                            &&& forall|x: Seq<int>, d: int| #[trigger]
                                walk_between(self@.arcs(), enter, s as int, t as int, x, d)
                                    ==> cost <= d
                        };
                    assert(q[0] == s && q.last() == t);
                    assert forall|j: int| 0 <= j < p@.len() implies nm.contains_key(
                        #[trigger] p@[j] as u32,
                    ) by {
                        assert(q[j] == p@[j]);
                        if 0 < j < q.len() - 1 {
                            assert(self@.relays(nm).contains(q[j]));
                        }
                    }
                }
                let mut k: usize = 0;
                while k < p.len()
                    invariant
                        k <= p@.len(),
                        n == names@.len(),
                        n <= u32::MAX,
                        nm == names_map(names@),
                        q == p@.map_values(|i: usize| i as int),
                        want == MeshView::names_along(nm, q),
                        forall|j: int| 0 <= j < p@.len() ==> #[trigger] p@[j] < n,
                        forall|j: int|
                            0 <= j < p@.len() ==> nm.contains_key(#[trigger] p@[j] as u32),
                        ids@ == want.subrange(0, k as int),
                    decreases p@.len() - k,
                {
                    assert(q[k as int] == p@[k as int]);
                    let i: usize = p[k];
                    match names[i] {
                        Some(id) => {
                            assert(nm[i as u32] == id);
                            assert(want[k as int] == id);
                            ids.push(id);
                        },
                        None => {
                            assert(false);
                        },
                    }
                    k = k + 1;
                    assert(ids@ =~= want.subrange(0, k as int));
                }
                proof {
                    assert(ids@ =~= want);
                    assert(least_cost(
                        self@.arcs(),
                        enterable(self@.relays(nm), s as int, t as int),
                        s as int,
                        t as int,
                        u32::MAX as int,
                        q,
                    ));
                    assert(self@.is_route(nm, s as int, t as int, Some(ids@)));
                }
                Some(ids)
            },
        }
    }
}

}
