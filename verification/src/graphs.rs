//! The graphs of the `petgraph` crate that hold what a node knows of the network.
use crate::packet::{NodeId, NodeType};
use petgraph::graph::{EdgeIndex, Graph, NodeIndex};
use petgraph::stable_graph::StableGraph;
use petgraph::visit::{EdgeRef, IntoEdgeReferences, NodeIndexable};
use vstd::prelude::*;

verus! {

/// A node as a client remembers it.
#[derive(Clone, Copy, PartialEq, Eq, Structural, Debug)]
pub struct NodeInfo {
    pub id: NodeId,
    pub node_type: NodeType,
}

/// `petgraph::stable_graph::StableGraph`: a graph whose indices stay valid.
#[verifier::external_type_specification]
#[verifier::external_body]
#[verifier::reject_recursive_types(N)]
#[verifier::reject_recursive_types(E)]
#[verifier::reject_recursive_types(Ty)]
#[verifier::reject_recursive_types(Ix)]
pub struct ExStableGraph<N, E, Ty, Ix>(StableGraph<N, E, Ty, Ix>);

/// `petgraph::graph::Graph`: a graph with compact indices.
#[verifier::external_type_specification]
#[verifier::external_body]
#[verifier::reject_recursive_types(N)]
#[verifier::reject_recursive_types(E)]
#[verifier::reject_recursive_types(Ty)]
#[verifier::reject_recursive_types(Ix)]
pub struct ExGraph<N, E, Ty, Ix>(Graph<N, E, Ty, Ix>);

/// `petgraph::Directed`.
#[verifier::external_type_specification]
#[verifier::external_body]
pub struct ExDirected(petgraph::Directed);

/// `petgraph::Undirected`.
#[verifier::external_type_specification]
#[verifier::external_body]
pub struct ExUndirected(petgraph::Undirected);

/// Directed graph with stable indices: nodes carry what is known of them, edges
/// the number of packets lost on them.
pub type StableNet = StableGraph<NodeInfo, usize, petgraph::Directed, u32>;

/// Directed graph with compact indices.
pub type DirectedNet = Graph<NodeId, usize, petgraph::Directed, u32>;

/// Undirected graph with compact indices.
pub type UndirectedNet = Graph<NodeId, u8, petgraph::Undirected, u32>;

/// The nodes of a stable graph by index.
pub uninterp spec fn stable_nodes(g: StableNet) -> Map<u32, NodeInfo>;

/// The edges of a stable graph by index: source, target, weight.
pub uninterp spec fn stable_edges(g: StableNet) -> Map<u32, (u32, u32, usize)>;

/// The nodes of a directed graph in the order of their indices.
pub uninterp spec fn directed_nodes(g: DirectedNet) -> Seq<NodeId>;

/// The edges of a directed graph in the order of their indices.
pub uninterp spec fn directed_edges(g: DirectedNet) -> Seq<(u32, u32, usize)>;

/// The nodes of an undirected graph in the order of their indices.
pub uninterp spec fn undirected_nodes(g: UndirectedNet) -> Seq<NodeId>;

/// The edges of an undirected graph in the order of their indices.
pub uninterp spec fn undirected_edges(g: UndirectedNet) -> Seq<(u32, u32, u8)>;

/// The indices of the edges of an undirected graph in the order in which the edges were
/// added.
pub uninterp spec fn undirected_ages(g: UndirectedNet) -> Seq<u32>;

/// `StableGraph::new`: a graph without nodes and edges.
#[verifier::external_body]
pub(crate) fn stable_new() -> (g: StableNet)
    ensures
        stable_nodes(g).dom() == Set::<u32>::empty(),
        stable_edges(g).dom() == Set::<u32>::empty(),
{
    StableGraph::new()
}

/// `StableGraph::node_count`: the number of nodes.
#[verifier::external_body]
pub(crate) fn stable_node_count(g: &StableNet) -> (n: usize)
    ensures
        n == stable_nodes(*g).len(),
{
    g.node_count()
}

/// `StableGraph::edge_count`: the number of edges.
#[verifier::external_body]
pub(crate) fn stable_edge_count(g: &StableNet) -> (n: usize)
    ensures
        n == stable_edges(*g).len(),
{
    g.edge_count()
}

/// `StableGraph::add_node`: the node gets an index that no node has; nothing else
/// changes. It panics where every index is taken.
#[verifier::external_body]
pub(crate) fn stable_add_node(g: &mut StableNet, node: NodeInfo) -> (i: u32)
    requires
        stable_nodes(*old(g)).len() < u32::MAX,
    ensures
        i < u32::MAX,
        !stable_nodes(*old(g)).contains_key(i),
        stable_nodes(*final(g)) == stable_nodes(*old(g)).insert(i, node),
        stable_edges(*final(g)) == stable_edges(*old(g)),
{
    g.add_node(node).index() as u32
}

/// `StableGraph::remove_node`: the node leaves with every edge at it; the other
/// indices stay.
#[verifier::external_body]
pub(crate) fn stable_remove_node(g: &mut StableNet, i: u32)
    ensures
        stable_nodes(*final(g)) == stable_nodes(*old(g)).remove(i),
        stable_edges(*final(g)) == stable_edges(*old(g)).restrict(
            Set::new(
                |e: u32|
                    stable_nodes(*old(g)).contains_key(i) ==> stable_edges(*old(g))[e].0 != i
                        && stable_edges(*old(g))[e].1 != i,
            ),
        ),
{
    g.remove_node(NodeIndex::new(i as usize));
}

/// `StableGraph::node_weight`: the node with an index, where there is one.
#[verifier::external_body]
pub(crate) fn stable_node_weight(g: &StableNet, i: u32) -> (r: Option<NodeInfo>)
    ensures
        r == (if stable_nodes(*g).contains_key(i) {
            Some(stable_nodes(*g)[i])
        } else {
            None
        }),
{
    g.node_weight(NodeIndex::new(i as usize)).copied()
}

/// `StableGraph::node_indices`: the index of every node, each one once.
#[verifier::external_body]
pub(crate) fn stable_node_indices(g: &StableNet) -> (r: Vec<u32>)
    ensures
        r@.no_duplicates(),
        forall|i: u32| #[trigger] r@.contains(i) <==> stable_nodes(*g).contains_key(i),
{
    g.node_indices().map(|i| i.index() as u32).collect()
}

/// `StableGraph::add_edge`: the edge gets an index that no edge has; nothing else
/// changes. It panics where an end is missing or every index is taken.
#[verifier::external_body]
pub(crate) fn stable_add_edge(g: &mut StableNet, a: u32, b: u32, weight: usize) -> (e: u32)
    requires
        stable_nodes(*old(g)).contains_key(a),
        stable_nodes(*old(g)).contains_key(b),
        stable_edges(*old(g)).len() < u32::MAX,
    ensures
        !stable_edges(*old(g)).contains_key(e),
        stable_edges(*final(g)) == stable_edges(*old(g)).insert(e, (a, b, weight)),
        stable_nodes(*final(g)) == stable_nodes(*old(g)),
{
    g.add_edge(NodeIndex::new(a as usize), NodeIndex::new(b as usize), weight).index() as u32
}

/// `StableGraph::find_edge`: an edge from `a` to `b`, where there is one.
#[verifier::external_body]
pub(crate) fn stable_find_edge(g: &StableNet, a: u32, b: u32) -> (r: Option<u32>)
    ensures
        match r {
            Some(e) => stable_edges(*g).contains_key(e) && stable_edges(*g)[e].0 == a
                && stable_edges(*g)[e].1 == b,
            None => forall|e: u32| #[trigger]
                stable_edges(*g).contains_key(e) ==> !(stable_edges(*g)[e].0 == a
                    && stable_edges(*g)[e].1 == b),
        },
{
    g.find_edge(NodeIndex::new(a as usize), NodeIndex::new(b as usize)).map(|e| e.index() as u32)
}

/// `StableGraph::edge_weight`: the weight of an edge.
#[verifier::external_body]
pub(crate) fn stable_edge_weight(g: &StableNet, e: u32) -> (r: Option<usize>)
    ensures
        r == (if stable_edges(*g).contains_key(e) {
            Some(stable_edges(*g)[e].2)
        } else {
            None
        }),
{
    g.edge_weight(EdgeIndex::new(e as usize)).copied()
}

/// `StableGraph::edge_weight_mut`: the weight of an edge is overwritten.
#[verifier::external_body]
pub(crate) fn stable_set_edge_weight(g: &mut StableNet, e: u32, weight: usize)
    requires
        stable_edges(*old(g)).contains_key(e),
    ensures
        stable_nodes(*final(g)) == stable_nodes(*old(g)),
        stable_edges(*final(g)) == stable_edges(*old(g)).insert(
            e,
            (stable_edges(*old(g))[e].0, stable_edges(*old(g))[e].1, weight),
        ),
{
    *g.edge_weight_mut(EdgeIndex::new(e as usize)).unwrap() = weight;
}

/// `StableGraph::remove_edge`: the edge leaves; the other indices stay.
#[verifier::external_body]
pub(crate) fn stable_remove_edge(g: &mut StableNet, e: u32)
    ensures
        stable_nodes(*final(g)) == stable_nodes(*old(g)),
        stable_edges(*final(g)) == stable_edges(*old(g)).remove(e),
{
    g.remove_edge(EdgeIndex::new(e as usize));
}

/// `StableGraph::edges`: target and weight of every edge that leaves a node.
#[verifier::external_body]
pub(crate) fn stable_edges_from(g: &StableNet, a: u32) -> (r: Vec<(u32, usize)>)
    ensures
        forall|t: (u32, usize)| #[trigger]
            r@.contains(t) <==> (exists|e: u32| #[trigger]
                stable_edges(*g).contains_key(e) && stable_edges(*g)[e] == (a, t.0, t.1)),
{
    g.edges(NodeIndex::new(a as usize)).map(|e| (e.target().index() as u32, *e.weight())).collect()
}

/// `StableGraph::edge_references`: index, source and target of every edge, each
/// edge once.
#[verifier::external_body]
pub(crate) fn stable_edge_references(g: &StableNet) -> (r: Vec<(u32, u32, u32)>)
    ensures
        forall|k: int|
            0 <= k < r@.len() ==> stable_edges(*g).contains_key((#[trigger] r@[k]).0) && stable_edges(
                *g,
            )[r@[k].0].0 == r@[k].1 && stable_edges(*g)[r@[k].0].1 == r@[k].2,
        forall|e: u32| #[trigger]
            stable_edges(*g).contains_key(e) ==> exists|k: int|
                0 <= k < r@.len() && (#[trigger] r@[k]).0 == e,
{
    g.edge_references()
        .map(|e| (e.id().index() as u32, e.source().index() as u32, e.target().index() as u32))
        .collect()
}

/// `Graph::new`: a directed graph without nodes and edges.
#[verifier::external_body]
pub(crate) fn directed_new() -> (g: DirectedNet)
    ensures
        directed_nodes(g) == Seq::<NodeId>::empty(),
        directed_edges(g).len() == 0,
{
    Graph::new()
}

/// `NodeIndexable::node_bound`, for a graph with compact indices the number of
/// its nodes.
#[verifier::external_body]
pub(crate) fn directed_node_bound(g: &DirectedNet) -> (n: usize)
    ensures
        n == directed_nodes(*g).len(),
{
    g.node_bound()
}

/// `Graph::edge_count`: the number of edges.
#[verifier::external_body]
pub(crate) fn directed_edge_count(g: &DirectedNet) -> (n: usize)
    ensures
        n == directed_edges(*g).len(),
{
    g.edge_count()
}

/// `Graph::add_node`: the node gets the next index. It panics where every index
/// is taken.
#[verifier::external_body]
pub(crate) fn directed_add_node(g: &mut DirectedNet, node: NodeId) -> (i: u32)
    requires
        directed_nodes(*old(g)).len() < u32::MAX,
    ensures
        i == directed_nodes(*old(g)).len(),
        directed_nodes(*final(g)) == directed_nodes(*old(g)).push(node),
        directed_edges(*final(g)) == directed_edges(*old(g)),
{
    g.add_node(node).index() as u32
}

/// `Graph::node_weight`: the node with an index, where there is one.
#[verifier::external_body]
pub(crate) fn directed_node_weight(g: &DirectedNet, i: u32) -> (r: Option<NodeId>)
    ensures
        r == (if i < directed_nodes(*g).len() {
            Some(directed_nodes(*g)[i as int])
        } else {
            None
        }),
{
    g.node_weight(NodeIndex::new(i as usize)).copied()
}

/// The nodes after the one with index `i` is taken out: the last node gets the
/// index that is free now.
pub open spec fn node_taken_out(nodes: Seq<NodeId>, i: u32) -> Seq<NodeId> {
    if i < nodes.len() {
        nodes.update(i as int, nodes.last()).drop_last()
    } else {
        nodes
    }
}

/// The index `x` after node `i` of `n` nodes is taken out.
pub open spec fn renamed(n: nat, i: u32, x: u32) -> u32 {
    if x == n - 1 {
        i
    } else {
        x
    }
}

/// Edge `j` has an end at node `i`.
pub open spec fn touches<W>(edges: Seq<(u32, u32, W)>, j: int, i: u32) -> bool {
    edges[j].0 == i || edges[j].1 == i
}

/// `after` holds the edges of `before` that do not end at node `i` of `n` nodes,
/// with their ends renamed; `order` says where each of them came from.
pub open spec fn edges_taken_out<W>(
    before: Seq<(u32, u32, W)>,
    after: Seq<(u32, u32, W)>,
    n: nat,
    i: u32,
    order: Seq<int>,
) -> bool {
    &&& order.len() == after.len()
    &&& order.no_duplicates()
    &&& forall|k: int|
        0 <= k < order.len() ==> 0 <= #[trigger] order[k] < before.len() && !touches(
            before,
            order[k],
            i,
        ) && after[k] == (
            renamed(n, i, before[order[k]].0),
            renamed(n, i, before[order[k]].1),
            before[order[k]].2,
        )
    &&& forall|j: int|
        0 <= j < before.len() && !#[trigger] touches(before, j, i) ==> order.contains(j)
}

/// `after` is what is left of `before` once node `i` of `n` nodes is taken out, in
/// some order.
pub open spec fn edges_left<W>(
    before: Seq<(u32, u32, W)>,
    after: Seq<(u32, u32, W)>,
    n: nat,
    i: u32,
) -> bool {
    if i < n {
        exists|order: Seq<int>| #[trigger] edges_taken_out(before, after, n, i, order)
    } else {
        after == before
    }
}

/// `Graph::remove_node`: the node leaves with every edge at it, and the last node
/// takes its index over. In which order the remaining edges stand is left unsaid.
#[verifier::external_body]
pub(crate) fn directed_remove_node(g: &mut DirectedNet, i: u32)
    ensures
        directed_nodes(*final(g)) == node_taken_out(directed_nodes(*old(g)), i),
        edges_left(
            directed_edges(*old(g)),
            directed_edges(*final(g)),
            directed_nodes(*old(g)).len(),
            i,
        ),
{
    g.remove_node(NodeIndex::new(i as usize));
}

/// Position `e` holds an edge from `a` to `b`.
pub open spec fn edge_at<W>(edges: Seq<(u32, u32, W)>, e: int, a: u32, b: u32) -> bool {
    0 <= e < edges.len() && edges[e].0 == a && edges[e].1 == b
}

/// `Graph::update_edge`: the weight of an edge from `a` to `b` is overwritten, or
/// the edge is added where there is none. It panics where an end is missing or
/// every index is taken.
#[verifier::external_body]
pub(crate) fn directed_update_edge(g: &mut DirectedNet, a: u32, b: u32, weight: usize) -> (e: u32)
    requires
        a < directed_nodes(*old(g)).len(),
        b < directed_nodes(*old(g)).len(),
        directed_edges(*old(g)).len() < u32::MAX || exists|x: int|
            edge_at(directed_edges(*old(g)), x, a, b),
    ensures
        directed_nodes(*final(g)) == directed_nodes(*old(g)),
        if exists|x: int| edge_at(directed_edges(*old(g)), x, a, b) {
            edge_at(directed_edges(*old(g)), e as int, a, b) && directed_edges(*final(g))
                == directed_edges(*old(g)).update(e as int, (a, b, weight))
        } else {
            e == directed_edges(*old(g)).len() && directed_edges(*final(g)) == directed_edges(
                *old(g),
            ).push((a, b, weight))
        },
{
    g.update_edge(NodeIndex::new(a as usize), NodeIndex::new(b as usize), weight).index() as u32
}

/// `Graph::find_edge`: an edge from `a` to `b`, where there is one.
#[verifier::external_body]
pub(crate) fn directed_find_edge(g: &DirectedNet, a: u32, b: u32) -> (r: Option<u32>)
    ensures
        match r {
            Some(e) => edge_at(directed_edges(*g), e as int, a, b),
            None => forall|e: int| !#[trigger] edge_at(directed_edges(*g), e, a, b),
        },
{
    g.find_edge(NodeIndex::new(a as usize), NodeIndex::new(b as usize)).map(|e| e.index() as u32)
}

/// `Graph::edge_weight_mut`: the weight of an edge is overwritten.
#[verifier::external_body]
pub(crate) fn directed_set_edge_weight(g: &mut DirectedNet, e: u32, weight: usize)
    requires
        e < directed_edges(*old(g)).len(),
    ensures
        directed_nodes(*final(g)) == directed_nodes(*old(g)),
        directed_edges(*final(g)) == directed_edges(*old(g)).update(
            e as int,
            (directed_edges(*old(g))[e as int].0, directed_edges(*old(g))[e as int].1, weight),
        ),
{
    *g.edge_weight_mut(EdgeIndex::new(e as usize)).unwrap() = weight;
}

/// The edges after the one at position `e` is taken out: the last edge gets the
/// position that is free now.
pub open spec fn edge_taken_out<W>(edges: Seq<(u32, u32, W)>, e: u32) -> Seq<(u32, u32, W)> {
    if e < edges.len() {
        edges.update(e as int, edges.last()).drop_last()
    } else {
        edges
    }
}

/// `Graph::remove_edge`: the edge leaves, and the last edge takes its index over.
#[verifier::external_body]
pub(crate) fn directed_remove_edge(g: &mut DirectedNet, e: u32)
    ensures
        directed_nodes(*final(g)) == directed_nodes(*old(g)),
        directed_edges(*final(g)) == edge_taken_out(directed_edges(*old(g)), e),
{
    g.remove_edge(EdgeIndex::new(e as usize));
}

/// `Graph::edge_references`: source, target and weight of every edge in the order
/// of their indices.
#[verifier::external_body]
pub(crate) fn directed_edge_references(g: &DirectedNet) -> (r: Vec<(u32, u32, usize)>)
    ensures
        r@ == directed_edges(*g),
{
    g.edge_references()
        .map(|e| (e.source().index() as u32, e.target().index() as u32, *e.weight()))
        .collect()
}

/// `Graph::edges`: target and weight of every edge that leaves a node.
#[verifier::external_body]
pub(crate) fn directed_edges_from(g: &DirectedNet, a: u32) -> (r: Vec<(u32, usize)>)
    ensures
        forall|t: (u32, usize)| #[trigger]
            r@.contains(t) <==> directed_edges(*g).contains((a, t.0, t.1)),
{
    g.edges(NodeIndex::new(a as usize)).map(|e| (e.target().index() as u32, *e.weight())).collect()
}

/// `Graph::new_undirected`: an undirected graph without nodes and edges.
#[verifier::external_body]
pub(crate) fn undirected_new() -> (g: UndirectedNet)
    ensures
        undirected_nodes(g) == Seq::<NodeId>::empty(),
        undirected_edges(g).len() == 0,
        undirected_ages(g) == Seq::<u32>::empty(),
{
    Graph::new_undirected()
}

/// `Graph::clone`: a graph with the same nodes and edges, which count as added in the same
/// order.
#[verifier::external_body]
pub(crate) fn undirected_clone(g: &UndirectedNet) -> (r: UndirectedNet)
    ensures
        undirected_nodes(r) == undirected_nodes(*g),
        undirected_edges(r) == undirected_edges(*g),
        undirected_ages(r) == undirected_ages(*g),
{
    g.clone()
}

/// `NodeIndexable::node_bound`, for a graph with compact indices the number of
/// its nodes.
#[verifier::external_body]
pub(crate) fn undirected_node_bound(g: &UndirectedNet) -> (n: usize)
    ensures
        n == undirected_nodes(*g).len(),
{
    g.node_bound()
}

/// `Graph::edge_count`: the number of edges.
#[verifier::external_body]
pub(crate) fn undirected_edge_count(g: &UndirectedNet) -> (n: usize)
    ensures
        n == undirected_edges(*g).len(),
{
    g.edge_count()
}

/// `Graph::add_node`: the node gets the next index. It panics where every index
/// is taken.
#[verifier::external_body]
pub(crate) fn undirected_add_node(g: &mut UndirectedNet, node: NodeId) -> (i: u32)
    requires
        undirected_nodes(*old(g)).len() < u32::MAX,
    ensures
        i == undirected_nodes(*old(g)).len(),
        undirected_nodes(*final(g)) == undirected_nodes(*old(g)).push(node),
        undirected_edges(*final(g)) == undirected_edges(*old(g)),
        undirected_ages(*final(g)) == undirected_ages(*old(g)),
{
    g.add_node(node).index() as u32
}

/// `Graph::node_weight`: the node with an index, where there is one.
#[verifier::external_body]
pub(crate) fn undirected_node_weight(g: &UndirectedNet, i: u32) -> (r: Option<NodeId>)
    ensures
        r == (if i < undirected_nodes(*g).len() {
            Some(undirected_nodes(*g)[i as int])
        } else {
            None
        }),
{
    g.node_weight(NodeIndex::new(i as usize)).copied()
}

/// The edges that do not end at node `i`, by their indices `order` before it was taken
/// out, count as added in the same order as before.
pub open spec fn ages_left(
    before: Seq<(u32, u32, u8)>,
    ages: Seq<u32>,
    left: Seq<u32>,
    i: u32,
    order: Seq<int>,
) -> bool {
    left.map_values(|k: u32| order[k as int]) == ages.map_values(|e: u32| e as int).filter(
        |e: int| !touches(before, e, i),
    )
}

/// `after` is what is left of `before` once node `i` of `n` nodes is taken out, in some
/// order, and `left` tells in which order it was added.
pub open spec fn links_left(
    before: Seq<(u32, u32, u8)>,
    ages: Seq<u32>,
    after: Seq<(u32, u32, u8)>,
    left: Seq<u32>,
    n: nat,
    i: u32,
) -> bool {
    if i < n {
        exists|order: Seq<int>| #[trigger]
            edges_taken_out(before, after, n, i, order) && ages_left(before, ages, left, i, order)
    } else {
        after == before && left == ages
    }
}

/// `Graph::remove_node`: the node leaves with every edge at it, and the last node
/// takes its index over. In which order the remaining edges stand is left unsaid; they
/// count as added in the same order as before.
#[verifier::external_body]
pub(crate) fn undirected_remove_node(g: &mut UndirectedNet, i: u32)
    ensures
        undirected_nodes(*final(g)) == node_taken_out(undirected_nodes(*old(g)), i),
        links_left(
            undirected_edges(*old(g)),
            undirected_ages(*old(g)),
            undirected_edges(*final(g)),
            undirected_ages(*final(g)),
            undirected_nodes(*old(g)).len(),
            i,
        ),
{
    g.remove_node(NodeIndex::new(i as usize));
}

/// `Graph::add_edge`: the edge gets the next index. It panics where an end is
/// missing or every index is taken.
#[verifier::external_body]
pub(crate) fn undirected_add_edge(g: &mut UndirectedNet, a: u32, b: u32, weight: u8) -> (e: u32)
    requires
        a < undirected_nodes(*old(g)).len(),
        b < undirected_nodes(*old(g)).len(),
        undirected_edges(*old(g)).len() < u32::MAX,
    ensures
        e == undirected_edges(*old(g)).len(),
        undirected_nodes(*final(g)) == undirected_nodes(*old(g)),
        undirected_edges(*final(g)) == undirected_edges(*old(g)).push((a, b, weight)),
        undirected_ages(*final(g)) == undirected_ages(*old(g)).push(e),
{
    g.add_edge(NodeIndex::new(a as usize), NodeIndex::new(b as usize), weight).index() as u32
}

/// Position `e` holds an edge between `a` and `b`.
pub open spec fn edge_between(edges: Seq<(u32, u32, u8)>, e: int, a: u32, b: u32) -> bool {
    edge_at(edges, e, a, b) || edge_at(edges, e, b, a)
}

/// `Graph::find_edge`: an edge between `a` and `b`, where there is one.
#[verifier::external_body]
pub(crate) fn undirected_find_edge(g: &UndirectedNet, a: u32, b: u32) -> (r: Option<u32>)
    ensures
        match r {
            Some(e) => edge_between(undirected_edges(*g), e as int, a, b),
            None => forall|e: int| !#[trigger] edge_between(undirected_edges(*g), e, a, b),
        },
{
    g.find_edge(NodeIndex::new(a as usize), NodeIndex::new(b as usize)).map(|e| e.index() as u32)
}

/// The indices `ages` of `n` edges after edge `e` is taken out: the last edge goes by the
/// index that is free now.
pub open spec fn age_taken_out(ages: Seq<u32>, n: nat, e: u32) -> Seq<u32> {
    if e < n {
        ages.filter(|x: u32| x != e).map_values(
            |x: u32|
                if x == n - 1 {
                    e
                } else {
                    x
                },
        )
    } else {
        ages
    }
}

/// `Graph::remove_edge`: the edge leaves, and the last edge takes its index over. The
/// others count as added in the same order as before.
#[verifier::external_body]
pub(crate) fn undirected_remove_edge(g: &mut UndirectedNet, e: u32)
    ensures
        undirected_nodes(*final(g)) == undirected_nodes(*old(g)),
        undirected_edges(*final(g)) == edge_taken_out(undirected_edges(*old(g)), e),
        undirected_ages(*final(g)) == age_taken_out(
            undirected_ages(*old(g)),
            undirected_edges(*old(g)).len(),
            e,
        ),
{
    g.remove_edge(EdgeIndex::new(e as usize));
}

/// `Graph::edge_references`: source, target and weight of every edge in the order
/// of their indices.
#[verifier::external_body]
pub(crate) fn undirected_edge_references(g: &UndirectedNet) -> (r: Vec<(u32, u32, u8)>)
    ensures
        r@ == undirected_edges(*g),
{
    g.edge_references()
        .map(|e| (e.source().index() as u32, e.target().index() as u32, *e.weight()))
        .collect()
}

/// The indices of the edges that begin at node `a`, and then of those that only end there,
/// each time those that were added last first.
pub open spec fn listed_at(edges: Seq<(u32, u32, u8)>, ages: Seq<u32>, a: u32) -> Seq<u32> {
    ages.reverse().filter(|e: u32| edges[e as int].0 == a) + ages.reverse().filter(
        |e: u32| edges[e as int].0 != a && edges[e as int].1 == a,
    )
}

/// `Graph::edges`: index, other end and weight of every edge at a node, each edge
/// once. The edges that were added with the node as their first end come first; the
/// edges that were added last come first among these and among the others.
#[verifier::external_body]
pub(crate) fn undirected_edges_at(g: &UndirectedNet, a: u32) -> (r: Vec<(u32, u32, u8)>)
    ensures
        r@.no_duplicates(),
        r@.map_values(|t: (u32, u32, u8)| t.0) == listed_at(
            undirected_edges(*g),
            undirected_ages(*g),
            a,
        ),
        forall|t: (u32, u32, u8)| #[trigger]
            r@.contains(t) <==> (edge_between(undirected_edges(*g), t.0 as int, a, t.1)
                && undirected_edges(*g)[t.0 as int].2 == t.2),
{
    g.edges(NodeIndex::new(a as usize))
        .map(|e| (e.id().index() as u32, e.target().index() as u32, *e.weight()))
        .collect()
}

/// `Graph::update_edge`: the weight of an edge between `a` and `b` is overwritten,
/// or the edge is added where there is none. It panics where an end is missing or
/// every index is taken.
#[verifier::external_body]
pub(crate) fn undirected_update_edge(g: &mut UndirectedNet, a: u32, b: u32, weight: u8) -> (e: u32)
    requires
        a < undirected_nodes(*old(g)).len(),
        b < undirected_nodes(*old(g)).len(),
        undirected_edges(*old(g)).len() < u32::MAX || exists|x: int|
            edge_between(undirected_edges(*old(g)), x, a, b),
    ensures
        undirected_nodes(*final(g)) == undirected_nodes(*old(g)),
        if exists|x: int| edge_between(undirected_edges(*old(g)), x, a, b) {
            edge_between(undirected_edges(*old(g)), e as int, a, b) && undirected_edges(*final(g))
                == undirected_edges(*old(g)).update(
                e as int,
                (
                    undirected_edges(*old(g))[e as int].0,
                    undirected_edges(*old(g))[e as int].1,
                    weight,
                ),
            ) && undirected_ages(*final(g)) == undirected_ages(*old(g))
        } else {
            e == undirected_edges(*old(g)).len() && undirected_edges(*final(g))
                == undirected_edges(*old(g)).push((a, b, weight)) && undirected_ages(*final(g))
                == undirected_ages(*old(g)).push(e)
        },
{
    g.update_edge(NodeIndex::new(a as usize), NodeIndex::new(b as usize), weight).index() as u32
}

}
