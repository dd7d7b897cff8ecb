//! What a client knows of the network.
use crate::channels::{channels_of, SharedSenders};
use crate::graphs::{
    stable_add_edge, stable_add_node, stable_edge_count, stable_edge_references, stable_edge_weight,
    stable_edges, stable_edges_from, stable_find_edge, stable_new, stable_node_count,
    stable_node_indices, stable_node_weight, stable_nodes, stable_remove_edge, stable_remove_node,
    stable_set_edge_weight, NodeInfo, StableNet,
};
use crate::packet::{NodeId, NodeType};
use crate::routing::{
    clean_interior, enterable, least_cost, listed_arcs, marked, shortest_route, targets_within,
    unreachable_within, walk, walk_between, Arc,
};
use std::collections::HashMap;
use vstd::prelude::*;

verus! {

broadcast use vstd::std_specs::hash::group_hash_axioms;

/// The nodes and links that a client has heard of. Links are directed and carry
/// the number of packets lost on them.
#[derive(Debug)]
pub struct KnownNetwork {
    graph: StableNet,
    index: HashMap<NodeId, u32>,
}

/// Nodes and edges by index, and the index under which a node id is found.
#[verifier::ext_equal]
pub struct NetView {
    pub nodes: Map<u32, NodeInfo>,
    pub edges: Map<u32, (u32, u32, usize)>,
    pub index: Map<NodeId, u32>,
}

impl NetView {
    /// Every id leads to a node with that id, edges have both their ends, and two
    /// edges with the same ends are loops.
    pub open spec fn wf(self) -> bool {
        &&& self.nodes.dom().finite()
        &&& self.edges.dom().finite()
        &&& forall|i: u32| #[trigger] self.nodes.contains_key(i) ==> i < u32::MAX
        &&& forall|id: NodeId| #[trigger]
            self.index.contains_key(id) ==> self.nodes.contains_key(self.index[id])
                && self.nodes[self.index[id]].id == id
        &&& forall|e: u32| #[trigger]
            self.edges.contains_key(e) ==> self.nodes.contains_key(self.edges[e].0)
                && self.nodes.contains_key(self.edges[e].1)
        &&& forall|e: u32, f: u32| #[trigger]
            self.edges.contains_key(e) && #[trigger] self.edges.contains_key(f) && self.edges[e].0
                == self.edges[f].0 && self.edges[e].1 == self.edges[f].1 && self.edges[e].0
                != self.edges[e].1 ==> e == f
    }

    /// An edge leads from node `x` to node `y`.
    pub open spec fn joined(self, x: u32, y: u32) -> bool {
        exists|e: u32| #[trigger]
            self.edges.contains_key(e) && self.edges[e].0 == x && self.edges[e].1 == y
    }

    /// Edges come in pairs: one each way.
    pub open spec fn two_way(self) -> bool {
        forall|x: u32, y: u32| #[trigger] self.joined(x, y) ==> self.joined(y, x)
    }

    /// The id is known.
    pub open spec fn knows(self, id: NodeId) -> bool {
        self.index.contains_key(id)
    }

    /// Both ids are known, and an edge leads from the first to the second.
    pub open spec fn linked(self, a: NodeId, b: NodeId) -> bool {
        self.knows(a) && self.knows(b) && self.joined(self.index[a], self.index[b])
    }

    /// The graph has indices left for `n` nodes and twice as many edges.
    pub open spec fn room(self, n: nat) -> bool {
        self.nodes.len() + n < u32::MAX && self.edges.len() + 2 * n < u32::MAX
    }

    /// No two nodes have the same id.
    pub open spec fn ids_differ(self) -> bool {
        forall|i: u32, j: u32| #[trigger]
            self.nodes.contains_key(i) && #[trigger] self.nodes.contains_key(j) && self.nodes[i].id
                == self.nodes[j].id ==> i == j
    }

    /// The arcs of the network, their cost cut down to 32 bits.
    pub open spec fn arcs(self) -> Set<Arc> {
        Set::new(
            |a: Arc|
                exists|e: u32| #[trigger]
                    self.edges.contains_key(e) && self.edges[e].0 == a.0 && self.edges[e].1 == a.1
                        && (self.edges[e].2 as u32) == a.2,
        )
    }

    /// The indices of the drones.
    pub open spec fn drones(self) -> Set<int> {
        Set::new(
            |i: int|
                exists|x: u32|
                    x == i && #[trigger] self.nodes.contains_key(x) && self.nodes[x].node_type
                        == NodeType::Drone,
        )
    }

    /// The ids along a route of indices.
    pub open spec fn ids_along(self, p: Seq<int>) -> Seq<NodeId> {
        p.map_values(|i: int| self.nodes[i as u32].id)
    }

    /// The network without the edges whose ends share no channel.
    pub open spec fn pruned(self, channels: Option<Set<(NodeId, NodeId)>>) -> NetView {
        match channels {
            None => self,
            Some(c) => NetView {
                edges: self.edges.restrict(
                    Set::new(
                        |e: u32|
                            {
                                let a = self.nodes[self.edges[e].0].id;
                                let b = self.nodes[self.edges[e].1].id;
                                c.contains((a, b)) || c.contains((b, a))
                            },
                    ),
                ),
                ..self
            },
        }
    }

    /// The network without a node and its edges.
    pub open spec fn without_node(self, id: NodeId) -> NetView {
        if self.knows(id) {
            let i = self.index[id];
            NetView {
                nodes: self.nodes.remove(i),
                edges: self.edges.restrict(
                    Set::new(|e: u32| self.edges[e].0 != i && self.edges[e].1 != i),
                ),
                index: self.index.remove(id),
            }
        } else {
            self
        }
    }

    /// `r` is a least-cost route from `source` to `target` by way of drones that passes
    /// no node twice, and no id twice where ids differ, or there is none.
    pub open spec fn is_route(self, source: NodeId, target: NodeId, r: Option<Seq<NodeId>>) -> bool {
        if self.knows(source) && self.knows(target) {
            let s = self.index[source] as int;
            let t = self.index[target] as int;
            let enter = enterable(self.drones(), s, t);
            match r {
                Some(ids) => exists|p: Seq<int>|
                    {
                        &&& #[trigger] least_cost(self.arcs(), enter, s, t, u32::MAX as int, p)
                        &&& clean_interior(self.drones(), s, t, p)
                        &&& p.no_duplicates()
                        &&& ids == self.ids_along(p)
                        &&& self.ids_differ() ==> ids.no_duplicates()
                    },
                None => unreachable_within(self.arcs(), enter, s, t, u32::MAX as int),
            }
        } else {
            r is None
        }
    }

    /// What `best_path` gives: no route to id 0, the node itself where both ends
    /// are equal, else a least-cost route.
    pub open spec fn best_path_is(
        self,
        source: NodeId,
        target: NodeId,
        channels: Option<Set<(NodeId, NodeId)>>,
        r: Option<Seq<NodeId>>,
    ) -> bool {
        if target == 0 {
            r is None
        } else if source == target {
            r == Some(seq![source])
        } else {
            self.pruned(channels).is_route(source, target, r)
        }
    }

    /// The network after `best_path`.
    pub open spec fn after_best_path(
        self,
        source: NodeId,
        target: NodeId,
        channels: Option<Set<(NodeId, NodeId)>>,
    ) -> NetView {
        if target == 0 || source == target {
            self
        } else {
            self.pruned(channels)
        }
    }
}

/// `b` is `a` with a node that has not been there, found under its id.
pub open spec fn node_added(a: NetView, b: NetView, node: NodeInfo) -> bool {
    exists|i: u32|
        {
            &&& !#[trigger] a.nodes.contains_key(i)
            &&& b.nodes == a.nodes.insert(i, node)
            &&& b.edges == a.edges
            &&& b.index == a.index.insert(node.id, i)
        }
}

/// `b` is `a` with an edge that has not been there.
pub open spec fn edge_added(a: NetView, b: NetView, x: u32, y: u32, w: usize) -> bool {
    exists|e: u32|
        {
            &&& !#[trigger] a.edges.contains_key(e)
            &&& b.edges == a.edges.insert(e, (x, y, w))
            &&& b.nodes == a.nodes
            &&& b.index == a.index
        }
}

/// `b` is `a` with an edge from `x` to `y`, added without losses where there was
/// none.
pub open spec fn edge_ensured(a: NetView, b: NetView, x: u32, y: u32) -> bool {
    if a.joined(x, y) {
        b == a
    } else {
        edge_added(a, b, x, y, 0)
    }
}

/// `b` is `a` with a node linked to a drone both ways. The drone is added where it
/// is unknown. Nothing happens where the graph has no indices left.
pub open spec fn own_link_added(a: NetView, b: NetView, id: NodeId, peer: NodeId) -> bool {
    if a.room(1) {
        exists|m: NetView, n: NetView|
            {
                &&& if a.knows(peer) {
                    m == a
                } else {
                    node_added(a, m, NodeInfo { id: peer, node_type: NodeType::Drone })
                }
                &&& #[trigger] edge_ensured(m, n, m.index[id], m.index[peer])
                &&& edge_ensured(n, b, m.index[peer], m.index[id])
            }
    } else {
        b == a
    }
}

/// `b` is `a` with a drone under its id. Nothing happens where the graph has no
/// indices left.
pub open spec fn drone_added(a: NetView, b: NetView, id: NodeId) -> bool {
    if a.room(1) {
        node_added(a, b, NodeInfo { id, node_type: NodeType::Drone })
    } else {
        b == a
    }
}

/// `b` is `a` with a trace merged in. Nothing happens where the graph has no
/// indices left for it.
pub open spec fn trace_merged(a: NetView, b: NetView, trace: Seq<(NodeId, NodeType)>) -> bool {
    if a.room(trace.len()) {
        merged(a, b, trace)
    } else {
        b == a
    }
}

/// `b` is `a` without an edge from `x` to `y`, where there is one.
pub open spec fn edge_dropped(a: NetView, b: NetView, x: u32, y: u32) -> bool {
    if a.joined(x, y) {
        exists|e: u32|
            {
                &&& #[trigger] a.edges.contains_key(e)
                &&& a.edges[e].0 == x
                &&& a.edges[e].1 == y
                &&& b == (NetView { edges: a.edges.remove(e), ..a })
            }
    } else {
        b == a
    }
}

/// `b` is `a` without the link between two ids.
pub open spec fn unlinked(a: NetView, b: NetView, from: NodeId, to: NodeId) -> bool {
    if a.knows(from) && a.knows(to) {
        exists|m: NetView| #[trigger]
            edge_dropped(a, m, a.index[from], a.index[to]) && edge_dropped(
                m,
                b,
                a.index[to],
                a.index[from],
            )
    } else {
        b == a
    }
}

/// A number of losses, one higher where the type can hold it.
pub open spec fn one_more(w: usize) -> usize {
    if w < usize::MAX {
        (w + 1) as usize
    } else {
        w
    }
}

/// `b` is `a` with one more loss on an edge between two ids, where there is one.
pub open spec fn loss_counted(a: NetView, b: NetView, from: NodeId, to: NodeId) -> bool {
    if a.linked(from, to) {
        exists|e: u32|
            {
                &&& #[trigger] a.edges.contains_key(e)
                &&& a.edges[e].0 == a.index[from]
                &&& a.edges[e].1 == a.index[to]
                &&& b == (NetView {
                    edges: a.edges.insert(
                        e,
                        (a.edges[e].0, a.edges[e].1, one_more(a.edges[e].2)),
                    ),
                    ..a
                })
            }
    } else {
        b == a
    }
}

/// `b` is `a` with a loss counted on the link between two ids in both directions.
pub open spec fn loss_counted_both(a: NetView, b: NetView, from: NodeId, to: NodeId) -> bool {
    exists|m: NetView| #[trigger] loss_counted(a, m, from, to) && loss_counted(m, b, to, from)
}

/// The position at which an id occurs first in a trace.
pub open spec fn first_at(trace: Seq<(NodeId, NodeType)>, id: NodeId, k: int) -> bool {
    0 <= k < trace.len() && trace[k].0 == id && forall|j: int|
        0 <= j < k ==> (#[trigger] trace[j]).0 != id
}

/// An id occurs in a trace.
pub open spec fn on_trace(trace: Seq<(NodeId, NodeType)>, id: NodeId) -> bool {
    exists|k: int| 0 <= k < trace.len() && (#[trigger] trace[k]).0 == id
}

/// Two ids stand side by side in a trace, in either order.
pub open spec fn side_by_side(trace: Seq<(NodeId, NodeType)>, a: NodeId, b: NodeId) -> bool {
    exists|k: int|
        0 < k < trace.len() && (((#[trigger] trace[k]).0 == a && trace[k - 1].0 == b) || (
        trace[k].0 == b && trace[k - 1].0 == a))
}

/// `b` is `a` with edges between `x` and `y` both ways, where there was none in
/// either direction.
pub open spec fn pair_added(a: NetView, b: NetView, x: u32, y: u32) -> bool {
    if a.joined(x, y) || a.joined(y, x) {
        b == a
    } else {
        exists|m: NetView| #[trigger] edge_added(a, m, x, y, 0) && edge_added(m, b, y, x, 0)
    }
}

/// `b` is `a` with the nodes of a trace. A node that was unknown has the type of
/// its first occurrence.
pub open spec fn nodes_merged(a: NetView, b: NetView, trace: Seq<(NodeId, NodeType)>) -> bool {
    &&& forall|i: u32| #[trigger]
        a.nodes.contains_key(i) ==> b.nodes.contains_key(i) && b.nodes[i] == a.nodes[i]
    &&& forall|id: NodeId| #[trigger] b.knows(id) <==> a.knows(id) || on_trace(trace, id)
    &&& forall|id: NodeId| #[trigger] a.knows(id) ==> b.index[id] == a.index[id]
    &&& forall|id: NodeId, k: int|
        !a.knows(id) && #[trigger] first_at(trace, id, k) ==> !a.nodes.contains_key(b.index[id])
            && b.nodes[b.index[id]] == (NodeInfo { id, node_type: trace[k].1 })
    &&& forall|i: u32| #[trigger]
        b.nodes.contains_key(i) && !a.nodes.contains_key(i) ==> b.knows(b.nodes[i].id)
            && !a.knows(b.nodes[i].id) && b.index[b.nodes[i].id] == i
}

/// `b` is `a` with the links of a trace. A link is added both ways, without
/// losses, where there was none in either direction. The other links stay.
pub open spec fn links_merged(a: NetView, b: NetView, trace: Seq<(NodeId, NodeType)>) -> bool {
    &&& forall|e: u32| #[trigger]
        a.edges.contains_key(e) ==> b.edges.contains_key(e) && b.edges[e] == a.edges[e]
    &&& forall|x: NodeId, y: NodeId| #[trigger]
        b.linked(x, y) <==> a.linked(x, y) || (side_by_side(trace, x, y) && !a.linked(y, x))
    &&& forall|e: u32| #[trigger]
        b.edges.contains_key(e) && !a.edges.contains_key(e) ==> new_edge_ok(a, b, trace, e)
}

/// `b` is `a` with the nodes and links of a trace.
pub open spec fn merged(a: NetView, b: NetView, trace: Seq<(NodeId, NodeType)>) -> bool {
    nodes_merged(a, b, trace) && links_merged(a, b, trace)
}

proof fn lemma_merged_nothing(a: NetView)
    ensures
        merged(a, a, Seq::empty()),
{
}

proof fn lemma_merged_node(
    a: NetView,
    m: NetView,
    b: NetView,
    trace: Seq<(NodeId, NodeType)>,
    next: (NodeId, NodeType),
)
    requires
        a.wf(),
        m.wf(),
        b.wf(),
        merged(a, m, trace),
        if m.knows(next.0) {
            b == m
        } else {
            node_added(m, b, NodeInfo { id: next.0, node_type: next.1 })
        },
    ensures
        merged_but_last_link(a, b, trace.push(next)),
{
    let t = trace.push(next);
    assert(t[t.len() - 1] == next);
    assert forall|k: int| 0 <= k < trace.len() implies #[trigger] t[k] == trace[k] by {}
    assert forall|id: NodeId| on_trace(t, id) <==> on_trace(trace, id) || id == next.0 by {
        if on_trace(trace, id) {
            let k = choose|k: int| 0 <= k < trace.len() && (#[trigger] trace[k]).0 == id;
            assert(t[k].0 == id);
        }
        if on_trace(t, id) {
            let k = choose|k: int| 0 <= k < t.len() && (#[trigger] t[k]).0 == id;
            if k < trace.len() {
                assert(trace[k].0 == id);
            }
        }
    }
    assert forall|id: NodeId, k: int| #[trigger] first_at(t, id, k) implies first_at(trace, id, k) || (
    id == next.0 && k == trace.len() && !on_trace(trace, id)) by {
        if k < trace.len() {
            assert forall|j: int| 0 <= j < k implies (#[trigger] trace[j]).0 != id by {
                assert(t[j].0 != id);
            }
        } else {
            if on_trace(trace, id) {
                let j = choose|j: int| 0 <= j < trace.len() && (#[trigger] trace[j]).0 == id;
                assert(t[j].0 == id);
            }
        }
    }
    if m.knows(next.0) {
        assert forall|id: NodeId, k: int|
            !a.knows(id) && #[trigger] first_at(t, id, k) implies !a.nodes.contains_key(b.index[id])
            && b.nodes[b.index[id]] == (NodeInfo { id, node_type: t[k].1 }) by {
            assert(m.knows(id));
            assert(on_trace(trace, id));
            assert(first_at(trace, id, k));
        }
    } else {
        let i = choose|i: u32|
            {
                &&& !#[trigger] m.nodes.contains_key(i)
                &&& b.nodes == m.nodes.insert(i, NodeInfo { id: next.0, node_type: next.1 })
                &&& b.edges == m.edges
                &&& b.index == m.index.insert(next.0, i)
            };
        assert(!m.nodes.contains_key(i));
        assert forall|id: NodeId, k: int|
            !a.knows(id) && #[trigger] first_at(t, id, k) implies !a.nodes.contains_key(b.index[id])
            && b.nodes[b.index[id]] == (NodeInfo { id, node_type: t[k].1 }) by {
            if id != next.0 {
                assert(first_at(trace, id, k));
                assert(on_trace(trace, id));
                assert(m.knows(id));
            } else {
                assert(b.index[id] == i);
                assert(!on_trace(trace, id));
            }
        }
        assert forall|x: NodeId, y: NodeId| b.linked(x, y) <==> #[trigger] m.linked(x, y) by {
            if b.linked(x, y) {
                let e = choose|e: u32| #[trigger]
                    b.edges.contains_key(e) && b.edges[e].0 == b.index[x] && b.edges[e].1
                        == b.index[y];
                assert(m.edges.contains_key(e));
                assert(x != next.0 && y != next.0);
            }
            if m.linked(x, y) {
                let e = choose|e: u32| #[trigger]
                    m.edges.contains_key(e) && m.edges[e].0 == m.index[x] && m.edges[e].1
                        == m.index[y];
                assert(b.edges.contains_key(e));
            }
        }
        assert forall|x: NodeId, y: NodeId| #[trigger] b.linked(x, y) <==> a.linked(x, y) || (
        side_by_side(trace, x, y) && !a.linked(y, x)) by {
            assert(b.linked(x, y) <==> m.linked(x, y));
        }
        assert forall|e: u32| #[trigger]
            b.edges.contains_key(e) && !a.edges.contains_key(e) implies new_edge_ok(a, b, trace, e) by {
            assert(m.edges.contains_key(e));
            assert(new_edge_ok(a, m, trace, e));
        }
    }
    assert(t.drop_last() =~= trace);
    assert forall|id: NodeId| #[trigger] b.knows(id) <==> a.knows(id) || on_trace(t, id) by {
        assert(m.knows(id) <==> a.knows(id) || on_trace(trace, id));
    }
    assert(nodes_merged(a, b, t));
    assert(links_merged(a, b, trace));
}

/// `new_edge_ok` holds of an edge that the trace brought.
pub open spec fn new_edge_ok(
    a: NetView,
    b: NetView,
    trace: Seq<(NodeId, NodeType)>,
    e: u32,
) -> bool {
    let (x, y, w) = b.edges[e];
    &&& w == 0
    &&& !a.joined(x, y)
    &&& !a.joined(y, x)
    &&& b.knows(b.nodes[x].id)
    &&& b.index[b.nodes[x].id] == x
    &&& b.knows(b.nodes[y].id)
    &&& b.index[b.nodes[y].id] == y
    &&& side_by_side(trace, b.nodes[x].id, b.nodes[y].id)
}

/// As `merged`, with the links of all but the last step of the trace.
spec fn merged_but_last_link(a: NetView, b: NetView, trace: Seq<(NodeId, NodeType)>) -> bool {
    let known = trace.drop_last();
    &&& nodes_merged(a, b, trace)
    &&& links_merged(a, b, known)
}

proof fn lemma_merged_first(a: NetView, b: NetView, trace: Seq<(NodeId, NodeType)>)
    requires
        trace.len() == 1,
        merged_but_last_link(a, b, trace),
    ensures
        merged(a, b, trace),
{
}

proof fn lemma_side_by_side_push(
    trace: Seq<(NodeId, NodeType)>,
    next: (NodeId, NodeType),
    x: NodeId,
    y: NodeId,
)
    requires
        trace.len() > 0,
    ensures
        side_by_side(trace.push(next), x, y) <==> side_by_side(trace, x, y) || (x == next.0 && y
            == trace.last().0) || (y == next.0 && x == trace.last().0),
{
    let t = trace.push(next);
    assert forall|k: int| 0 <= k < trace.len() implies #[trigger] t[k] == trace[k] by {}
    if side_by_side(trace, x, y) {
        let k = choose|k: int|
            0 < k < trace.len() && (((#[trigger] trace[k]).0 == x && trace[k - 1].0 == y) || (
            trace[k].0 == y && trace[k - 1].0 == x));
        assert(t[k] == trace[k] && t[k - 1] == trace[k - 1]);
    }
    if side_by_side(t, x, y) {
        let k = choose|k: int|
            0 < k < t.len() && (((#[trigger] t[k]).0 == x && t[k - 1].0 == y) || (t[k].0 == y && t[k
                - 1].0 == x));
        if k < trace.len() {
            assert(trace[k] == t[k] && trace[k - 1] == t[k - 1]);
        }
    }
    assert(t[trace.len() as int] == next);
    assert(t[trace.len() - 1] == trace.last());
}

proof fn lemma_merged_link(
    a: NetView,
    m: NetView,
    b: NetView,
    trace: Seq<(NodeId, NodeType)>,
    next: (NodeId, NodeType),
)
    requires
        a.wf(),
        m.wf(),
        b.wf(),
        trace.len() > 0,
        merged_but_last_link(a, m, trace.push(next)),
        m.knows(trace.last().0),
        m.knows(next.0),
        pair_added(m, b, m.index[trace.last().0], m.index[next.0]),
    ensures
        merged(a, b, trace.push(next)),
{
    let t = trace.push(next);
    assert(t.drop_last() =~= trace);
    let p = trace.last().0;
    let c = next.0;
    let x = m.index[p];
    let y = m.index[c];
    assert forall|u: NodeId, v: NodeId| side_by_side(t, u, v) <==> #[trigger] side_by_side(
        trace,
        u,
        v,
    ) || (u == c && v == p) || (v == c && u == p) by {
        lemma_side_by_side_push(trace, next, u, v);
    }
    assert forall|u: NodeId, v: NodeId| #[trigger] a.linked(u, v) implies m.linked(u, v) by {
        let e = choose|e: u32| #[trigger]
            a.edges.contains_key(e) && a.edges[e].0 == a.index[u] && a.edges[e].1 == a.index[v];
        assert(m.edges.contains_key(e));
        assert(a.knows(u) && a.knows(v));
        assert(m.knows(u) && m.knows(v));
    }
    if m.joined(x, y) || m.joined(y, x) {
        assert(m.linked(p, c) || m.linked(c, p));
        assert forall|u: NodeId, v: NodeId| #[trigger] b.linked(u, v) <==> a.linked(u, v) || (
        side_by_side(t, u, v) && !a.linked(v, u)) by {
            assert(m.linked(u, v) <==> a.linked(u, v) || (side_by_side(trace, u, v) && !a.linked(v, u)));
            assert(m.linked(v, u) <==> a.linked(v, u) || (side_by_side(trace, v, u) && !a.linked(u, v)));
            lemma_side_by_side_push(trace, next, u, v);
            lemma_side_by_side_push(trace, next, v, u);
        }
        assert forall|e: u32| #[trigger]
            b.edges.contains_key(e) && !a.edges.contains_key(e) implies new_edge_ok(a, b, t, e) by {
            assert(new_edge_ok(a, m, trace, e));
            let (ex, ey, ew) = m.edges[e];
            lemma_side_by_side_push(trace, next, m.nodes[ex].id, m.nodes[ey].id);
        }
    } else {
        let n = choose|n: NetView| #[trigger] edge_added(m, n, x, y, 0) && edge_added(n, b, y, x, 0);
        let e1 = choose|e: u32|
            {
                &&& !#[trigger] m.edges.contains_key(e)
                &&& n.edges == m.edges.insert(e, (x, y, 0usize))
                &&& n.nodes == m.nodes
                &&& n.index == m.index
            };
        let e2 = choose|e: u32|
            {
                &&& !#[trigger] n.edges.contains_key(e)
                &&& b.edges == n.edges.insert(e, (y, x, 0usize))
                &&& b.nodes == n.nodes
                &&& b.index == n.index
            };
        assert(!m.edges.contains_key(e1));
        assert(!n.edges.contains_key(e2));
        assert(b.edges.contains_key(e1) && b.edges.contains_key(e2));
        assert(m.nodes[x].id == p && m.nodes[y].id == c);
        assert(!a.joined(x, y)) by {
            if a.joined(x, y) {
                let e = choose|e: u32| #[trigger]
                    a.edges.contains_key(e) && a.edges[e].0 == x && a.edges[e].1 == y;
                assert(m.edges.contains_key(e));
            }
        }
        assert(!a.joined(y, x)) by {
            if a.joined(y, x) {
                let e = choose|e: u32| #[trigger]
                    a.edges.contains_key(e) && a.edges[e].0 == y && a.edges[e].1 == x;
                assert(m.edges.contains_key(e));
            }
        }
        assert forall|e: u32| #[trigger]
            a.edges.contains_key(e) implies b.edges.contains_key(e) && b.edges[e] == a.edges[e] by {
            assert(m.edges.contains_key(e));
        }
        assert forall|u: NodeId, v: NodeId| #[trigger] b.linked(u, v) <==> m.linked(u, v) || (u == p
            && v == c) || (u == c && v == p) by {
            if b.linked(u, v) {
                let e = choose|e: u32| #[trigger]
                    b.edges.contains_key(e) && b.edges[e].0 == b.index[u] && b.edges[e].1
                        == b.index[v];
                if e != e1 && e != e2 {
                    assert(m.edges.contains_key(e));
                }
            }
            if m.linked(u, v) {
                let e = choose|e: u32| #[trigger]
                    m.edges.contains_key(e) && m.edges[e].0 == m.index[u] && m.edges[e].1
                        == m.index[v];
                assert(b.edges.contains_key(e));
            }
        }
        assert(!m.linked(p, c) && !m.linked(c, p));
        assert forall|u: NodeId, v: NodeId| #[trigger] b.linked(u, v) <==> a.linked(u, v) || (
        side_by_side(t, u, v) && !a.linked(v, u)) by {
            assert(m.linked(u, v) <==> a.linked(u, v) || (side_by_side(trace, u, v) && !a.linked(v, u)));
            lemma_side_by_side_push(trace, next, u, v);
        }
        assert forall|e: u32| #[trigger]
            b.edges.contains_key(e) && !a.edges.contains_key(e) implies new_edge_ok(a, b, t, e) by {
            lemma_side_by_side_push(trace, next, p, c);
            lemma_side_by_side_push(trace, next, c, p);
            if e != e1 && e != e2 {
                assert(m.edges.contains_key(e));
                assert(new_edge_ok(a, m, trace, e));
                let (ex, ey, ew) = m.edges[e];
                lemma_side_by_side_push(trace, next, m.nodes[ex].id, m.nodes[ey].id);
            }
        }
    }
    assert(b.nodes == m.nodes && b.index == m.index);
    assert forall|id: NodeId| #[trigger] b.knows(id) <==> a.knows(id) || on_trace(t, id) by {
        assert(m.knows(id) <==> a.knows(id) || on_trace(t, id));
    }
    assert forall|i: u32| #[trigger]
        b.nodes.contains_key(i) && !a.nodes.contains_key(i) implies b.knows(b.nodes[i].id)
        && !a.knows(b.nodes[i].id) && b.index[b.nodes[i].id] == i by {
        assert(m.nodes.contains_key(i));
    }
    assert(nodes_merged(a, b, t));
    assert(links_merged(a, b, t));
}

/// The ids of a route, where there is one.
pub open spec fn ids_view(r: Option<Vec<NodeId>>) -> Option<Seq<NodeId>> {
    match r {
        Some(ids) => Some(ids@),
        None => None,
    }
}

/// An edge leads from node `i` to node `b` at cost `c`.
spec fn has_arc(net: NetView, i: int, b: int, c: int) -> bool {
    exists|e: u32| #[trigger]
        net.edges.contains_key(e) && net.edges[e].0 == i && net.edges[e].1 == b && (
        net.edges[e].2 as u32) == c
}

/// `row` has an entry for target `b` at cost `c`.
spec fn row_has(row: Seq<(usize, u64)>, b: int, c: int) -> bool {
    exists|j: int| 0 <= j < row.len() && #[trigger] row[j].0 == b && row[j].1 == c
}

/// `row` lists targets and costs of the edges that leave node `i`.
spec fn lists_edges(net: NetView, i: int, row: Seq<(usize, u64)>, n: int) -> bool {
    &&& forall|b: int, c: int| #[trigger] row_has(row, b, c) <==> has_arc(net, i, b, c)
    &&& forall|j: int| 0 <= j < row.len() ==> (#[trigger] row[j]).0 < n
}

/// A walk from a node of the network visits nodes of the network.
proof fn lemma_walk_nodes(net: NetView, enter: Set<int>, p: Seq<int>, cost: int)
    requires
        net.wf(),
        walk(net.arcs(), enter, p, cost),
        0 <= p[0] <= u32::MAX,
        net.nodes.contains_key(p[0] as u32),
    ensures
        forall|k: int|
            0 <= k < p.len() ==> 0 <= #[trigger] p[k] <= u32::MAX && net.nodes.contains_key(p[k] as u32),
    decreases p.len(),
{
    if p.len() > 1 {
        let w = choose|w: int|
            #![trigger net.arcs().contains((p[p.len() - 2], p.last(), w))]
            net.arcs().contains((p[p.len() - 2], p.last(), w)) && walk(
                net.arcs(),
                enter,
                p.drop_last(),
                cost - w,
            );
        lemma_walk_nodes(net, enter, p.drop_last(), cost - w);
        assert(net.arcs().contains((p[p.len() - 2], p.last(), w)));
        let e = choose|e: u32| #[trigger]
            net.edges.contains_key(e) && net.edges[e].0 == p[p.len() - 2] && net.edges[e].1 == p.last()
                && (net.edges[e].2 as u32) == w;
        assert(net.edges.contains_key(e));
        assert forall|k: int| 0 <= k < p.len() implies 0 <= #[trigger] p[k] <= u32::MAX
            && net.nodes.contains_key(p[k] as u32) by {
            if k < p.len() - 1 {
                assert(p[k] == p.drop_last()[k]);
            }
        }
    }
}

proof fn lemma_walk_stays(net: NetView, p: Seq<int>, s: int, t: int)
    requires
        net.wf(),
        0 <= s <= u32::MAX,
        net.nodes.contains_key(s as u32),
        least_cost(net.arcs(), enterable(net.drones(), s, t), s, t, u32::MAX as int, p),
    ensures
        forall|k: int|
            0 <= k < p.len() ==> 0 <= #[trigger] p[k] <= u32::MAX && net.nodes.contains_key(p[k] as u32),
{
    let enter = enterable(net.drones(), s, t);
    let cost = choose|cost: int|
        {
            &&& #[trigger] walk_between(net.arcs(), enter, s, t, p, cost)
            &&& cost < u32::MAX
            &&& forall|q: Seq<int>, d: int| #[trigger]
                walk_between(net.arcs(), enter, s, t, q, d) ==> cost <= d
        };
    lemma_walk_nodes(net, enter, p, cost);
}

/// One of the first `k` entries lists edge `e`.
spec fn listed_before(list: Seq<(u32, u32, u32)>, k: int, e: u32) -> bool {
    exists|j: int| 0 <= j < k && (#[trigger] list[j]).0 == e
}

impl View for KnownNetwork {
    type V = NetView;

    closed spec fn view(&self) -> NetView {
        NetView {
            nodes: stable_nodes(self.graph),
            edges: stable_edges(self.graph),
            index: self.index@,
        }
    }
}

impl KnownNetwork {
    /// A network without nodes.
    pub fn new() -> (r: Self)
        ensures
            r@.wf(),
            r@.two_way(),
            r@.nodes == Map::<u32, NodeInfo>::empty(),
            r@.edges == Map::<u32, (u32, u32, usize)>::empty(),
            r@.index == Map::<NodeId, u32>::empty(),
    {
        let r = KnownNetwork { graph: stable_new(), index: HashMap::new() };
        assert(r@.nodes =~= Map::<u32, NodeInfo>::empty());
        assert(r@.edges =~= Map::<u32, (u32, u32, usize)>::empty());
        assert(r@.index =~= Map::<NodeId, u32>::empty());
        r
    }

    /// Number of nodes.
    pub fn node_count(&self) -> (n: usize)
        ensures
            n == self@.nodes.len(),
    {
        stable_node_count(&self.graph)
    }

    /// Number of edges.
    pub fn edge_count(&self) -> (n: usize)
        ensures
            n == self@.edges.len(),
    {
        stable_edge_count(&self.graph)
    }

    /// Number of ids that are known.
    pub fn known_count(&self) -> (n: usize)
        ensures
            n == self@.index.len(),
    {
        self.index.len()
    }

    /// Whether an id is known.
    pub fn knows(&self, id: NodeId) -> (r: bool)
        ensures
            r == self@.knows(id),
    {
        self.index.contains_key(&id)
    }

    /// The type of a node.
    pub fn node_type(&self, id: NodeId) -> (r: Option<NodeType>)
        requires
            self@.wf(),
        ensures
            r == (if self@.knows(id) {
                Some(self@.nodes[self@.index[id]].node_type)
            } else {
                None
            }),
    {
        match self.index.get(&id) {
            Some(i) => match stable_node_weight(&self.graph, *i) {
                Some(node) => Some(node.node_type),
                None => None,
            },
            None => None,
        }
    }

    /// Whether an edge leads from one id to another.
    pub fn linked(&self, a: NodeId, b: NodeId) -> (r: bool)
        ensures
            r == self@.linked(a, b),
    {
        match (self.index.get(&a), self.index.get(&b)) {
            (Some(x), Some(y)) => {
                let found: Option<u32> = stable_find_edge(&self.graph, *x, *y);
                proof {
                    if let Some(e) = found {
                        assert(self@.edges.contains_key(e));
                    }
                }
                found.is_some()
            },
            _ => false,
        }
    }

    /// The losses on an edge from one id to another.
    pub fn losses(&self, a: NodeId, b: NodeId) -> (r: Option<usize>)
        ensures
            match r {
                Some(w) => self@.knows(a) && self@.knows(b) && exists|e: u32| #[trigger]
                    self@.edges.contains_key(e) && self@.edges[e] == (
                        self@.index[a],
                        self@.index[b],
                        w,
                    ),
                None => !self@.linked(a, b),
            },
    {
        match (self.index.get(&a), self.index.get(&b)) {
            (Some(x), Some(y)) => match stable_find_edge(&self.graph, *x, *y) {
                Some(e) => {
                    assert(self@.edges.contains_key(e));
                    stable_edge_weight(&self.graph, e)
                },
                None => None,
            },
            _ => None,
        }
    }

    /// Adds a node and finds it under its id from now on, also where the id was
    /// known before.
    pub fn add_node(&mut self, id: NodeId, node_type: NodeType)
        requires
            old(self)@.wf(),
            old(self)@.room(1),
        ensures
            final(self)@.wf(),
            node_added(old(self)@, final(self)@, NodeInfo { id, node_type }),
    {
        let node = NodeInfo { id, node_type };
        let i: u32 = stable_add_node(&mut self.graph, node);
        self.index.insert(id, i);
        assert(!old(self)@.nodes.contains_key(i));
        assert(node_added(old(self)@, self@, node));
    }

    /// Adds an edge between two known ids that are not linked.
    pub fn add_edge(&mut self, a: NodeId, b: NodeId, weight: usize)
        requires
            old(self)@.wf(),
            old(self)@.room(1),
            old(self)@.knows(a),
            old(self)@.knows(b),
            !old(self)@.linked(a, b),
        ensures
            final(self)@.wf(),
            edge_added(
                old(self)@,
                final(self)@,
                old(self)@.index[a],
                old(self)@.index[b],
                weight,
            ),
    {
        let x: u32 = *self.index.get(&a).unwrap();
        let y: u32 = *self.index.get(&b).unwrap();
        let e: u32 = stable_add_edge(&mut self.graph, x, y, weight);
        assert(!old(self)@.edges.contains_key(e));
        assert(self@.index == old(self)@.index);
        assert(edge_added(old(self)@, self@, x, y, weight));
        assert forall|f: u32| #[trigger] old(self)@.edges.contains_key(f) implies !(
        old(self)@.edges[f].0 == x && old(self)@.edges[f].1 == y) by {
            if old(self)@.edges[f].0 == x && old(self)@.edges[f].1 == y {
                assert(old(self)@.joined(x, y));
            }
        }
    }

    /// Forgets a node and its edges.
    pub fn remove_node(&mut self, id: NodeId)
        requires
            old(self)@.wf(),
        ensures
            final(self)@.wf(),
            final(self)@ == old(self)@.without_node(id),
    {
        match self.index.remove(&id) {
            Some(i) => {
                stable_remove_node(&mut self.graph, i);
                proof {
                    let a = old(self)@;
                    assert(a.knows(id));
                    assert(self@ =~= a.without_node(id));
                    assert(self@.edges.dom() =~= a.edges.dom().intersect(
                        Set::new(|e: u32| a.edges[e].0 != i && a.edges[e].1 != i),
                    ));
                    assert forall|other: NodeId| #[trigger]
                        self@.index.contains_key(other) implies self@.nodes.contains_key(
                        self@.index[other],
                    ) && self@.nodes[self@.index[other]].id == other by {
                        assert(a.index.contains_key(other));
                    }
                    assert forall|e: u32| #[trigger] self@.edges.contains_key(e) implies {
                        &&& self@.nodes.contains_key(self@.edges[e].0)
                        &&& self@.nodes.contains_key(self@.edges[e].1)
                        &&& a.edges.contains_key(e)
                    } by {
                        assert(a.edges.contains_key(e));
                    }
                }
            },
            None => {
                assert(self@.index =~= old(self)@.index);
            },
        }
    }

    fn drop_edge(&mut self, x: u32, y: u32)
        requires
            old(self)@.wf(),
        ensures
            final(self)@.wf(),
            edge_dropped(old(self)@, final(self)@, x, y),
            final(self)@.index == old(self)@.index,
            final(self)@.nodes == old(self)@.nodes,
    {
        match stable_find_edge(&self.graph, x, y) {
            Some(e) => {
                stable_remove_edge(&mut self.graph, e);
                assert(old(self)@.edges.contains_key(e));
                assert(self@ =~= NetView { edges: old(self)@.edges.remove(e), ..old(self)@ });
            },
            None => {},
        }
    }

    /// Forgets the link between two ids.
    pub fn remove_link(&mut self, from: NodeId, to: NodeId)
        requires
            old(self)@.wf(),
        ensures
            final(self)@.wf(),
            unlinked(old(self)@, final(self)@, from, to),
    {
        match (self.index.get(&from), self.index.get(&to)) {
            (Some(x), Some(y)) => {
                let x: u32 = *x;
                let y: u32 = *y;
                self.drop_edge(x, y);
                let ghost m = self@;
                self.drop_edge(y, x);
                assert(edge_dropped(old(self)@, m, x, y));
            },
            _ => {},
        }
    }

    /// Counts a loss on the edge from one id to another.
    pub fn increment_drop(&mut self, from: NodeId, to: NodeId)
        requires
            old(self)@.wf(),
        ensures
            final(self)@.wf(),
            loss_counted(old(self)@, final(self)@, from, to),
    {
        match (self.index.get(&from), self.index.get(&to)) {
            (Some(x), Some(y)) => {
                let x: u32 = *x;
                let y: u32 = *y;
                match stable_find_edge(&self.graph, x, y) {
                    Some(e) => {
                        let w: usize = stable_edge_weight(&self.graph, e).unwrap();
                        let more: usize = if w < usize::MAX {
                            w + 1
                        } else {
                            w
                        };
                        stable_set_edge_weight(&mut self.graph, e, more);
                        proof {
                            let a = old(self)@;
                            assert(a.edges.contains_key(e));
                            assert(a.joined(x, y));
                            assert(self@ =~= NetView {
                                edges: a.edges.insert(
                                    e,
                                    (a.edges[e].0, a.edges[e].1, one_more(a.edges[e].2)),
                                ),
                                ..a
                            });
                        }
                    },
                    None => {},
                }
            },
            _ => {},
        }
    }

    /// Adds the node of a trace entry where it is unknown.
    fn learn_node(&mut self, id: NodeId, node_type: NodeType)
        requires
            old(self)@.wf(),
            old(self)@.room(1),
        ensures
            final(self)@.wf(),
            if old(self)@.knows(id) {
                final(self)@ == old(self)@
            } else {
                node_added(old(self)@, final(self)@, NodeInfo { id, node_type })
            },
    {
        if !self.index.contains_key(&id) {
            self.add_node(id, node_type);
        }
    }

    fn put_edge(&mut self, x: u32, y: u32)
        requires
            old(self)@.wf(),
            old(self)@.edges.len() < u32::MAX,
            old(self)@.nodes.contains_key(x),
            old(self)@.nodes.contains_key(y),
            x == y || !old(self)@.joined(x, y),
        ensures
            final(self)@.wf(),
            edge_added(old(self)@, final(self)@, x, y, 0),
            final(self)@.edges.len() == old(self)@.edges.len() + 1,
            final(self)@.index == old(self)@.index,
            final(self)@.nodes == old(self)@.nodes,
    {
        let e: u32 = stable_add_edge(&mut self.graph, x, y, 0);
        assert(!old(self)@.edges.contains_key(e));
        assert(edge_added(old(self)@, self@, x, y, 0));
        assert forall|f: u32| #[trigger] old(self)@.edges.contains_key(f) && x != y implies !(
        old(self)@.edges[f].0 == x && old(self)@.edges[f].1 == y) by {
            if old(self)@.edges[f].0 == x && old(self)@.edges[f].1 == y {
                assert(old(self)@.joined(x, y));
            }
        }
    }

    /// Adds edges between two nodes both ways where there is none.
    fn learn_link(&mut self, x: u32, y: u32)
        requires
            old(self)@.wf(),
            old(self)@.edges.len() + 2 <= u32::MAX,
            old(self)@.nodes.contains_key(x),
            old(self)@.nodes.contains_key(y),
        ensures
            final(self)@.wf(),
            pair_added(old(self)@, final(self)@, x, y),
            final(self)@.edges.len() <= old(self)@.edges.len() + 2,
            final(self)@.index == old(self)@.index,
            final(self)@.nodes == old(self)@.nodes,
    {
        let back: Option<u32> = stable_find_edge(&self.graph, y, x);
        let forth: Option<u32> = stable_find_edge(&self.graph, x, y);
        proof {
            if let Some(e) = back {
                assert(self@.edges.contains_key(e));
                assert(self@.joined(y, x));
            }
            if let Some(e) = forth {
                assert(self@.edges.contains_key(e));
                assert(self@.joined(x, y));
            }
        }
        if back.is_none() && forth.is_none() {
            self.put_edge(x, y);
            let ghost m = self@;
            proof {
                if x != y && m.joined(y, x) {
                    let e = choose|e: u32| #[trigger]
                        m.edges.contains_key(e) && m.edges[e].0 == y && m.edges[e].1 == x;
                    assert(old(self)@.edges.contains_key(e));
                    assert(old(self)@.joined(y, x));
                }
            }
            self.put_edge(y, x);
            assert(edge_added(old(self)@, m, x, y, 0) && edge_added(m, self@, y, x, 0));
        }
    }

    /// Whether the graph has indices left for `n` nodes and twice as many edges.
    pub fn has_room(&self, n: usize) -> (r: bool)
        ensures
            r == self@.room(n as nat),
    {
        let max: usize = u32::MAX as usize;
        let nodes: usize = self.node_count();
        let edges: usize = self.edge_count();
        nodes < max && n < max - nodes && edges < max && n <= (max - edges - 1) / 2
    }

    /// Adds the nodes and links of a flood response's trace. Nothing happens where
    /// the graph has no indices left for them.
    pub fn create_topology(&mut self, trace: &Vec<(NodeId, NodeType)>)
        requires
            old(self)@.wf(),
        ensures
            final(self)@.wf(),
            trace_merged(old(self)@, final(self)@, trace@),
    {
        if !self.has_room(trace.len()) {
            return;
        }
        let mut i: usize = 0;
        proof {
            lemma_merged_nothing(self@);
            assert(trace@.subrange(0, 0) =~= Seq::<(NodeId, NodeType)>::empty());
        }
        while i < trace.len()
            invariant
                old(self)@.wf(),
                self@.wf(),
                i <= trace@.len(),
                self@.room((trace@.len() - i) as nat),
                merged(old(self)@, self@, trace@.subrange(0, i as int)),
            decreases trace@.len() - i,
        {
            let (id, node_type): (NodeId, NodeType) = trace[i];
            let ghost before = self@;
            let ghost seen = trace@.subrange(0, i as int);
            self.learn_node(id, node_type);
            let ghost m = self@;
            proof {
                lemma_merged_node(old(self)@, before, m, seen, (id, node_type));
                assert(seen.push((id, node_type)) =~= trace@.subrange(0, i + 1));
                if !before.knows(id) {
                    let k = choose|k: u32|
                        {
                            &&& !#[trigger] before.nodes.contains_key(k)
                            &&& m.nodes == before.nodes.insert(k, NodeInfo { id, node_type })
                            &&& m.edges == before.edges
                            &&& m.index == before.index.insert(id, k)
                        };
                    assert(m.nodes.len() <= before.nodes.len() + 1);
                }
                assert(m.edges == before.edges);
                assert(m.nodes.len() <= before.nodes.len() + 1);
            }
            if i > 0 {
                let prev: NodeId = trace[i - 1].0;
                proof {
                    assert(seen.last() == trace@[i - 1]);
                    assert(seen[i - 1].0 == prev);
                    assert(on_trace(seen, prev));
                    assert(before.knows(prev));
                    assert(m.knows(prev));
                    assert(m.knows(id));
                }
                match (self.index.get(&prev), self.index.get(&id)) {
                    (Some(x), Some(y)) => {
                        let x: u32 = *x;
                        let y: u32 = *y;
                        self.learn_link(x, y);
                    },
                    _ => {},
                }
                proof {
                    lemma_merged_link(old(self)@, m, self@, seen, (id, node_type));
                }
            } else {
                proof {
                    lemma_merged_first(old(self)@, m, trace@.subrange(0, 1));
                }
            }
            i = i + 1;
        }
        assert(trace@.subrange(0, trace@.len() as int) =~= trace@);
    }

    /// Adds an edge between two nodes where there is none.
    fn ensure_edge(&mut self, x: u32, y: u32)
        requires
            old(self)@.wf(),
            old(self)@.edges.len() < u32::MAX,
            old(self)@.nodes.contains_key(x),
            old(self)@.nodes.contains_key(y),
        ensures
            final(self)@.wf(),
            edge_ensured(old(self)@, final(self)@, x, y),
            final(self)@.nodes == old(self)@.nodes,
            final(self)@.index == old(self)@.index,
            final(self)@.edges.len() <= old(self)@.edges.len() + 1,
    {
        let found: Option<u32> = stable_find_edge(&self.graph, x, y);
        proof {
            if let Some(e) = found {
                assert(self@.edges.contains_key(e));
                assert(self@.joined(x, y));
            }
        }
        if found.is_none() {
            self.put_edge(x, y);
        }
    }

    /// Links a known node to a drone both ways; adds the drone where it is unknown.
    pub fn link_own(&mut self, id: NodeId, peer: NodeId)
        requires
            old(self)@.wf(),
            old(self)@.knows(id),
        ensures
            final(self)@.wf(),
            own_link_added(old(self)@, final(self)@, id, peer),
    {
        if !self.has_room(1) {
            return;
        }
        self.learn_node(peer, NodeType::Drone);
        let ghost m = self@;
        assert(m.knows(id) && m.knows(peer));
        assert(m.edges == old(self)@.edges);
        match (self.index.get(&id), self.index.get(&peer)) {
            (Some(x), Some(y)) => {
                let x: u32 = *x;
                let y: u32 = *y;
                self.ensure_edge(x, y);
                let ghost n = self@;
                self.ensure_edge(y, x);
                assert(edge_ensured(m, n, m.index[id], m.index[peer]));
            },
            _ => {
                assert(false);
            },
        }
    }

    /// Adds a drone, also where its id was known before.
    pub fn add_drone(&mut self, id: NodeId)
        requires
            old(self)@.wf(),
        ensures
            final(self)@.wf(),
            drone_added(old(self)@, final(self)@, id),
    {
        if self.has_room(1) {
            self.add_node(id, NodeType::Drone);
        }
    }

    /// Forgets the edges whose ends share no channel.
    fn prune(&mut self, shared: &Option<SharedSenders>)
        requires
            old(self)@.wf(),
        ensures
            final(self)@.wf(),
            final(self)@ == old(self)@.pruned(channels_of(*shared)),
    {
        if let Some(channels) = shared {
            let list: Vec<(u32, u32, u32)> = stable_edge_references(&self.graph);
            let ghost a = old(self)@;
            let ghost keep = Set::new(
                |e: u32|
                    {
                        let from = a.nodes[a.edges[e].0].id;
                        let to = a.nodes[a.edges[e].1].id;
                        channels@.contains((from, to)) || channels@.contains((to, from))
                    },
            );
            let mut k: usize = 0;
            while k < list.len()
                invariant
                    a.wf(),
                    a == old(self)@,
                    k <= list@.len(),
                    self@.nodes == a.nodes,
                    self@.index == a.index,
                    forall|j: int|
                        0 <= j < list@.len() ==> a.edges.contains_key((#[trigger] list@[j]).0)
                            && a.edges[list@[j].0].0 == list@[j].1 && a.edges[list@[j].0].1
                            == list@[j].2,
                    keep == Set::new(
                        |e: u32|
                            {
                                let from = a.nodes[a.edges[e].0].id;
                                let to = a.nodes[a.edges[e].1].id;
                                channels@.contains((from, to)) || channels@.contains((to, from))
                            },
                    ),
                    forall|e: u32| #[trigger]
                        self@.edges.contains_key(e) <==> a.edges.contains_key(e) && (keep.contains(e)
                            || !listed_before(list@, k as int, e)),
                    forall|e: u32| #[trigger]
                        self@.edges.contains_key(e) ==> self@.edges[e] == a.edges[e],
                decreases list@.len() - k,
            {
                let (e, x, y): (u32, u32, u32) = list[k];
                assert(list@[k as int] == (e, x, y));
                assert(a.nodes.contains_key(x) && a.nodes.contains_key(y));
                let from: NodeId = stable_node_weight(&self.graph, x).unwrap().id;
                let to: NodeId = stable_node_weight(&self.graph, y).unwrap().id;
                let ghost before = self@;
                if !channels.contains(from, to) && !channels.contains(to, from) {
                    stable_remove_edge(&mut self.graph, e);
                    assert(!keep.contains(e));
                    assert(self@.edges == before.edges.remove(e));
                } else {
                    assert(keep.contains(e));
                }
                proof {
                    assert forall|f: u32| listed_before(list@, k + 1, f) <==> #[trigger] listed_before(
                        list@,
                        k as int,
                        f,
                    ) || f == e by {
                        if f == e {
                            assert(list@[k as int].0 == f);
                        }
                        if listed_before(list@, k as int, f) {
                            let j = choose|j: int| 0 <= j < k && (#[trigger] list@[j]).0 == f;
                            assert(list@[j].0 == f);
                        }
                    }
                    assert forall|f: u32| #[trigger] self@.edges.contains_key(f) <==> a.edges.contains_key(
                        f,
                    ) && (keep.contains(f) || !listed_before(list@, k + 1, f)) by {
                        assert(before.edges.contains_key(f) <==> a.edges.contains_key(f) && (
                        keep.contains(f) || !listed_before(list@, k as int, f)));
                    }
                    assert forall|f: u32| #[trigger] self@.edges.contains_key(f) implies self@.edges[f]
                        == a.edges[f] by {
                        assert(before.edges.contains_key(f));
                    }
                }
                k = k + 1;
            }
            proof {
                assert forall|e: u32| #[trigger]
                    a.edges.contains_key(e) && !keep.contains(e) implies listed_before(
                    list@,
                    k as int,
                    e,
                ) by {
                    let j = choose|j: int| 0 <= j < list@.len() && (#[trigger] list@[j]).0 == e;
                    assert(list@[j].0 == e);
                }
                assert(self@.edges =~= a.edges.restrict(keep));
                assert(self@.edges.dom() =~= a.edges.dom().intersect(keep));
                assert(self@ =~= a.pruned(channels_of(*shared)));
                assert forall|e: u32| #[trigger] self@.edges.contains_key(e) implies a.edges.contains_key(
                    e,
                ) by {}
            }
        }
    }

    /// The largest index in use, plus one.
    fn bound(&self, list: &Vec<u32>) -> (n: usize)
        requires
            self@.wf(),
            forall|i: u32| #[trigger] list@.contains(i) <==> self@.nodes.contains_key(i),
        ensures
            forall|i: u32| #[trigger] self@.nodes.contains_key(i) ==> i < n,
            n <= u32::MAX,
    {
        let mut n: usize = 0;
        let mut k: usize = 0;
        while k < list.len()
            invariant
                k <= list@.len(),
                n <= u32::MAX,
                self@.wf(),
                forall|i: u32| #[trigger] list@.contains(i) <==> self@.nodes.contains_key(i),
                forall|j: int| 0 <= j < k ==> (#[trigger] list@[j]) < n,
            decreases list@.len() - k,
        {
            assert(list@.contains(list@[k as int]));
            if list[k] as usize >= n {
                n = list[k] as usize + 1;
            }
            k = k + 1;
        }
        proof {
            assert forall|i: u32| #[trigger] self@.nodes.contains_key(i) implies i < n by {
                assert(list@.contains(i));
                let j = list@.index_of(i);
                assert(list@[j] < n);
            }
        }
        n
    }

    /// Targets and costs of the edges that leave a node.
    fn row(&self, i: u32, n: usize) -> (row: Vec<(usize, u64)>)
        requires
            self@.wf(),
            forall|i: u32| #[trigger] self@.nodes.contains_key(i) ==> i < n,
        ensures
            lists_edges(self@, i as int, row@, n as int),
    {
        let from: Vec<(u32, usize)> = stable_edges_from(&self.graph, i);
        let mut row: Vec<(usize, u64)> = Vec::new();
        let mut k: usize = 0;
        while k < from.len()
            invariant
                k <= from@.len(),
                row@.len() == k,
                forall|j: int|
                    0 <= j < k ==> (#[trigger] row@[j]).0 == from@[j].0 && row@[j].1 == (
                    from@[j].1 as u32),
            decreases from@.len() - k,
        {
            let (b, w): (u32, usize) = from[k];
            row.push((b as usize, (w as u32) as u64));
            k = k + 1;
        }
        proof {
            assert forall|b: int, c: int| #[trigger] row_has(row@, b, c) implies has_arc(
                self@,
                i as int,
                b,
                c,
            ) by {
                let j = choose|j: int|
                    0 <= j < row@.len() && #[trigger] row@[j].0 == b && row@[j].1 == c;
                assert(from@.contains(from@[j]));
                let e = choose|e: u32| #[trigger]
                    stable_edges(self.graph).contains_key(e) && stable_edges(self.graph)[e] == (
                        i,
                        from@[j].0,
                        from@[j].1,
                    );
                assert(self@.edges.contains_key(e));
            }
            assert forall|b: int, c: int| has_arc(self@, i as int, b, c) implies #[trigger] row_has(
                row@,
                b,
                c,
            ) by {
                let e = choose|e: u32| #[trigger]
                    self@.edges.contains_key(e) && self@.edges[e].0 == i && self@.edges[e].1 == b && (
                    self@.edges[e].2 as u32) == c;
                let t = (self@.edges[e].1, self@.edges[e].2);
                assert(stable_edges(self.graph).contains_key(e));
                assert(from@.contains(t));
                let j = from@.index_of(t);
                assert(row@[j].0 == from@[j].0);
            }
            assert forall|j: int| 0 <= j < row@.len() implies (#[trigger] row@[j]).0 < n by {
                assert(row_has(row@, row@[j].0 as int, row@[j].1 as int));
                let e = choose|e: u32| #[trigger]
                    self@.edges.contains_key(e) && self@.edges[e].0 == i && self@.edges[e].1
                        == row@[j].0 && (self@.edges[e].2 as u32) == row@[j].1;
                assert(self@.nodes.contains_key(self@.edges[e].1));
            }
        }
        row
    }

    /// Targets and costs of the edges that leave each node, by index.
    fn adjacency(&self, n: usize) -> (r: Vec<Vec<(usize, u64)>>)
        requires
            self@.wf(),
            forall|i: u32| #[trigger] self@.nodes.contains_key(i) ==> i < n,
            n <= u32::MAX,
        ensures
            r@.len() == n,
            targets_within(r@),
            listed_arcs(r@) == self@.arcs(),
    {
        let mut r: Vec<Vec<(usize, u64)>> = Vec::new();
        let mut i: usize = 0;
        while i < n
            invariant
                self@.wf(),
                forall|x: u32| #[trigger] self@.nodes.contains_key(x) ==> x < n,
                n <= u32::MAX,
                i <= n,
                r@.len() == i,
                forall|u: int| 0 <= u < i ==> lists_edges(self@, u, (#[trigger] r@[u])@, n as int),
            decreases n - i,
        {
            let row: Vec<(usize, u64)> = self.row(i as u32, n);
            r.push(row);
            i = i + 1;
        }
        proof {
            assert forall|a: Arc| listed_arcs(r@).contains(a) <==> self@.arcs().contains(a) by {
                if listed_arcs(r@).contains(a) {
                    let k = choose|k: int|
                        0 <= k < r@[a.0]@.len() && #[trigger] r@[a.0]@[k].0 == a.1 && r@[a.0]@[k].1
                            == a.2;
                    assert(lists_edges(self@, a.0, r@[a.0]@, n as int));
                    assert(row_has(r@[a.0]@, a.1, a.2));
                    assert(has_arc(self@, a.0, a.1, a.2));
                }
                if self@.arcs().contains(a) {
                    assert(has_arc(self@, a.0, a.1, a.2));
                    let e = choose|e: u32| #[trigger]
                        self@.edges.contains_key(e) && self@.edges[e].0 == a.0 && self@.edges[e].1
                            == a.1 && (self@.edges[e].2 as u32) == a.2;
                    assert(self@.nodes.contains_key(self@.edges[e].0));
                    assert(lists_edges(self@, a.0, r@[a.0]@, n as int));
                    assert(row_has(r@[a.0]@, a.1, a.2));
                }
            }
            assert(listed_arcs(r@) =~= self@.arcs());
            assert forall|u: int, k: int|
                0 <= u < r@.len() && 0 <= k < r@[u]@.len() implies (#[trigger] r@[u]@[k]).0
                < r@.len() by {
                assert(lists_edges(self@, u, r@[u]@, n as int));
            }
        }
        r
    }

    /// Which indices belong to drones.
    fn drone_flags(&self, n: usize) -> (r: Vec<bool>)
        requires
            forall|i: u32| #[trigger] self@.nodes.contains_key(i) ==> i < n,
            n <= u32::MAX,
        ensures
            r@.len() == n,
            marked(r@) == self@.drones(),
    {
        let mut r: Vec<bool> = Vec::new();
        let mut i: usize = 0;
        while i < n
            invariant
                n <= u32::MAX,
                i <= n,
                r@.len() == i,
                forall|u: int|
                    0 <= u < i ==> (#[trigger] r@[u] <==> self@.nodes.contains_key(u as u32)
                        && self@.nodes[u as u32].node_type == NodeType::Drone),
            decreases n - i,
        {
            let drone: bool = match stable_node_weight(&self.graph, i as u32) {
                Some(node) => node.node_type == NodeType::Drone,
                None => false,
            };
            r.push(drone);
            i = i + 1;
        }
        proof {
            assert(marked(r@) =~= self@.drones()) by {
                assert forall|u: int| marked(r@).contains(u) <==> self@.drones().contains(u) by {
                    if marked(r@).contains(u) {
                        assert(r@[u]);
                        assert(self@.nodes.contains_key(u as u32));
                    }
                    if self@.drones().contains(u) {
                        let x = choose|x: u32|
                            x == u && #[trigger] self@.nodes.contains_key(x)
                                && self@.nodes[x].node_type == NodeType::Drone;
                        assert(r@[u]);
                    }
                }
            }
        }
        r
    }

    /// Least-cost route from one id to another by way of drones, with the edges
    /// forgotten whose ends share no channel.
    pub fn best_path(
        &mut self,
        source: NodeId,
        target: NodeId,
        shared: &Option<SharedSenders>,
    ) -> (r: Option<Vec<NodeId>>)
        requires
            old(self)@.wf(),
        ensures
            final(self)@.wf(),
            final(self)@ == old(self)@.after_best_path(source, target, channels_of(*shared)),
            old(self)@.best_path_is(source, target, channels_of(*shared), ids_view(r)),
    {
        if target == 0 {
            return None;
        }
        if source == target {
            let mut only: Vec<NodeId> = Vec::new();
            only.push(source);
            assert(only@ =~= seq![source]);
            return Some(only);
        }
        self.prune(shared);
        let (s, t): (u32, u32) = match (self.index.get(&source), self.index.get(&target)) {
            (Some(s), Some(t)) => (*s, *t),
            _ => {
                return None;
            },
        };
        let list: Vec<u32> = stable_node_indices(&self.graph);
        let n: usize = self.bound(&list);
        proof {
            assert(self@.knows(source) && self@.knows(target));
            assert(self@.nodes.contains_key(s) && self@.nodes.contains_key(t));
        }
        let adjacency: Vec<Vec<(usize, u64)>> = self.adjacency(n);
        let relays: Vec<bool> = self.drone_flags(n);
        match shortest_route(&adjacency, &relays, s as usize, t as usize, u32::MAX as u64) {
            None => None,
            Some(p) => {
                let mut ids: Vec<NodeId> = Vec::new();
                let ghost q = p@.map_values(|i: usize| i as int);
                proof {
                    lemma_walk_stays(self@, q, s as int, t as int);
                }
                let mut k: usize = 0;
                while k < p.len()
                    invariant
                        k <= p@.len(),
                        n <= u32::MAX,
                        q == p@.map_values(|i: usize| i as int),
                        forall|j: int| 0 <= j < p@.len() ==> #[trigger] p@[j] < n,
                        forall|j: int|
                            0 <= j < p@.len() ==> self@.nodes.contains_key(#[trigger] q[j] as u32),
                        ids@ == self@.ids_along(q).subrange(0, k as int),
                    decreases p@.len() - k,
                {
                    assert(q[k as int] == p@[k as int]);
                    match stable_node_weight(&self.graph, p[k] as u32) {
                        Some(node) => {
                            ids.push(node.id);
                        },
                        None => {
                            assert(false);
                        },
                    }
                    k = k + 1;
                    assert(ids@ =~= self@.ids_along(q).subrange(0, k as int));
                }
                proof {
                    assert(ids@ =~= self@.ids_along(q));
                    if self@.ids_differ() {
                        assert forall|i: int, j: int| 0 <= i < j < ids@.len() implies ids@[i]
                            != ids@[j] by {
                            assert(q[i] != q[j]);
                            assert(self@.nodes.contains_key(q[i] as u32));
                            assert(self@.nodes.contains_key(q[j] as u32));
                        }
                    }
                    assert(least_cost(
                        self@.arcs(),
                        enterable(self@.drones(), s as int, t as int),
                        s as int,
                        t as int,
                        u32::MAX as int,
                        q,
                    ));
                }
                Some(ids)
            },
        }
    }
}

/// Taking the same trace in a second time changes nothing.
pub proof fn law_merging_twice_changes_nothing(
    a: NetView,
    b: NetView,
    c: NetView,
    trace: Seq<(NodeId, NodeType)>,
)
    requires
        a.wf(),
        b.wf(),
        c.wf(),
        merged(a, b, trace),
        merged(b, c, trace),
    ensures
        c == b,
{
    assert forall|id: NodeId| #[trigger] c.knows(id) <==> b.knows(id) by {
        assert(b.knows(id) <==> a.knows(id) || on_trace(trace, id));
    }
    assert(c.index =~= b.index) by {
        assert forall|id: NodeId| c.index.contains_key(id) <==> b.index.contains_key(id) by {
            assert(c.knows(id) <==> b.knows(id));
        }
        assert forall|id: NodeId| b.index.contains_key(id) implies c.index[id] == b.index[id] by {
            assert(b.knows(id));
        }
    }
    assert forall|i: u32| c.nodes.contains_key(i) implies b.nodes.contains_key(i) by {
        if !b.nodes.contains_key(i) {
            assert(c.knows(c.nodes[i].id));
        }
    }
    assert(c.nodes =~= b.nodes);
    assert forall|e: u32| c.edges.contains_key(e) implies b.edges.contains_key(e) by {
        if !b.edges.contains_key(e) {
            assert(new_edge_ok(b, c, trace, e));
            let (x, y, w) = c.edges[e];
            let p = c.nodes[x].id;
            let q = c.nodes[y].id;
            lemma_side_by_side_symmetric(trace, p, q);
            assert(b.linked(p, q) <==> a.linked(p, q) || (side_by_side(trace, p, q) && !a.linked(q, p)));
            assert(b.linked(q, p) <==> a.linked(q, p) || (side_by_side(trace, q, p) && !a.linked(p, q)));
        }
    }
    assert(c.edges =~= b.edges);
}

proof fn lemma_side_by_side_symmetric(trace: Seq<(NodeId, NodeType)>, x: NodeId, y: NodeId)
    ensures
        side_by_side(trace, x, y) == side_by_side(trace, y, x),
{
    if side_by_side(trace, x, y) {
        let k = choose|k: int|
            0 < k < trace.len() && (((#[trigger] trace[k]).0 == x && trace[k - 1].0 == y) || (
            trace[k].0 == y && trace[k - 1].0 == x));
        assert(trace[k].0 == x || trace[k].0 == y);
    }
    if side_by_side(trace, y, x) {
        let k = choose|k: int|
            0 < k < trace.len() && (((#[trigger] trace[k]).0 == y && trace[k - 1].0 == x) || (
            trace[k].0 == x && trace[k - 1].0 == y));
        assert(trace[k].0 == x || trace[k].0 == y);
    }
}

/// Taking a trace in keeps links two-way.
pub proof fn law_merging_keeps_links_two_way(
    a: NetView,
    b: NetView,
    trace: Seq<(NodeId, NodeType)>,
)
    requires
        a.wf(),
        b.wf(),
        a.two_way(),
        merged(a, b, trace),
    ensures
        b.two_way(),
{
    assert forall|x: u32, y: u32| #[trigger] b.joined(x, y) implies b.joined(y, x) by {
        let e = choose|e: u32| #[trigger]
            b.edges.contains_key(e) && b.edges[e].0 == x && b.edges[e].1 == y;
        if a.edges.contains_key(e) {
            assert(a.joined(x, y));
            assert(a.joined(y, x));
            let f = choose|f: u32| #[trigger]
                a.edges.contains_key(f) && a.edges[f].0 == y && a.edges[f].1 == x;
            assert(b.edges.contains_key(f));
        } else {
            assert(new_edge_ok(a, b, trace, e));
            let p = b.nodes[x].id;
            let q = b.nodes[y].id;
            lemma_side_by_side_symmetric(trace, p, q);
            assert(b.linked(p, q));
            assert(b.linked(q, p) <==> a.linked(q, p) || (side_by_side(trace, q, p) && !a.linked(p, q)));
            if a.linked(p, q) {
                assert(a.joined(a.index[p], a.index[q]));
                assert(a.knows(p) && a.knows(q));
            }
        }
    }
}

/// Forgetting a node keeps links two-way, and takes exactly the edges at it.
pub proof fn law_removing_a_node_keeps_the_rest(a: NetView, id: NodeId)
    requires
        a.wf(),
        a.knows(id),
    ensures
        !a.without_node(id).knows(id),
        a.two_way() ==> a.without_node(id).two_way(),
        forall|other: NodeId|
            other != id ==> (#[trigger] a.without_node(id).knows(other) <==> a.knows(other)),
        forall|x: NodeId, y: NodeId|
            x != id && y != id ==> (#[trigger] a.without_node(id).linked(x, y) <==> a.linked(x, y)),
{
    let b = a.without_node(id);
    let i = a.index[id];
    assert forall|x: u32, y: u32| b.joined(x, y) <==> #[trigger] a.joined(x, y) && x != i && y != i by {
        if b.joined(x, y) {
            let e = choose|e: u32| #[trigger]
                b.edges.contains_key(e) && b.edges[e].0 == x && b.edges[e].1 == y;
            assert(a.edges.contains_key(e));
        }
        if a.joined(x, y) && x != i && y != i {
            let e = choose|e: u32| #[trigger]
                a.edges.contains_key(e) && a.edges[e].0 == x && a.edges[e].1 == y;
            assert(b.edges.contains_key(e));
        }
    }
    if a.two_way() {
        assert forall|x: u32, y: u32| #[trigger] b.joined(x, y) implies b.joined(y, x) by {
            assert(a.joined(x, y));
            assert(a.joined(y, x));
        }
    }
    assert forall|x: NodeId, y: NodeId| x != id && y != id implies (#[trigger] b.linked(x, y)
        <==> a.linked(x, y)) by {
        if a.knows(x) && a.knows(y) {
            assert(a.nodes[a.index[x]].id == x && a.nodes[a.index[y]].id == y);
            assert(b.joined(a.index[x], a.index[y]) <==> a.joined(a.index[x], a.index[y])
                && a.index[x] != i && a.index[y] != i);
        }
    }
}

/// A route that is found leads from its source to its target, and every node
/// between them is a drone. It passes no id twice where ids differ.
pub proof fn law_routes_lead_through_drones(
    net: NetView,
    source: NodeId,
    target: NodeId,
    channels: Option<Set<(NodeId, NodeId)>>,
    ids: Seq<NodeId>,
)
    requires
        net.wf(),
        net.best_path_is(source, target, channels, Some(ids)),
    ensures
        ids.len() > 0,
        ids[0] == source,
        ids.last() == target,
        net.ids_differ() ==> ids.no_duplicates(),
        forall|k: int|
            0 < k < ids.len() - 1 ==> exists|i: u32| #[trigger]
                net.nodes.contains_key(i) && net.nodes[i] == (NodeInfo {
                    id: #[trigger] ids[k],
                    node_type: NodeType::Drone,
                }),
{
    if source != target {
        let m = net.pruned(channels);
        let s = m.index[source] as int;
        let t = m.index[target] as int;
        let enter = enterable(m.drones(), s, t);
        let p = choose|p: Seq<int>|
            {
                &&& #[trigger] least_cost(m.arcs(), enter, s, t, u32::MAX as int, p)
                &&& clean_interior(m.drones(), s, t, p)
                &&& p.no_duplicates()
                &&& ids == m.ids_along(p)
                &&& m.ids_differ() ==> ids.no_duplicates()
            };
        assert(least_cost(m.arcs(), enter, s, t, u32::MAX as int, p));
        let cost = choose|cost: int|
            {
                &&& #[trigger] walk_between(m.arcs(), enter, s, t, p, cost)
                &&& cost < u32::MAX
                &&& forall|q: Seq<int>, d: int| #[trigger]
                    walk_between(m.arcs(), enter, s, t, q, d) ==> cost <= d
            };
        assert(walk_between(m.arcs(), enter, s, t, p, cost));
        assert(m.knows(source) && m.knows(target));
        assert(m.index == net.index && m.nodes == net.nodes);
        assert(ids[0] == m.nodes[p[0] as u32].id);
        assert(ids.last() == m.nodes[p.last() as u32].id);
        assert forall|k: int| 0 < k < ids.len() - 1 implies exists|i: u32| #[trigger]
            net.nodes.contains_key(i) && net.nodes[i] == (NodeInfo {
                id: #[trigger] ids[k],
                node_type: NodeType::Drone,
            }) by {
            assert(m.drones().contains(p[k]));
            let x = choose|x: u32|
                x == p[k] && #[trigger] m.nodes.contains_key(x) && m.nodes[x].node_type
                    == NodeType::Drone;
            assert(net.nodes.contains_key(x));
            assert(ids[k] == m.nodes[x].id);
        }
    }
}

}
