//! What clients and servers learn of the network from floods.
use crate::client1::{
    all_pending_handled, expired_floods, floods_closed, floods_merged, responses_merged,
    timeouts_checked, ClientView, FloodView,
};
use crate::client2::{packet_handled2, Client2View, ClientGlobals, NewsView};
use crate::graphs::{edge_at, edge_between};
use crate::known_network::{merged, on_trace, side_by_side, trace_merged, NetView};
use crate::mesh::{after_trace, has_link, trace_taken, MeshView};
use crate::packet::{FloodResponseView, NodeId, NodeType, OutgoingView, PacketView};
use crate::server::{trace_linked, ServerView};
use crate::server_control::{packet_handled, shortcut_handled};
use crate::server_network::{edge_pos, edge_put, has_edge, GraphView};
use vstd::prelude::*;

verus! {

/// Some link joins two indices.
pub open spec fn link_between(edges: Seq<(u32, u32, u8)>, a: u32, b: u32) -> bool {
    exists|e: int|
        0 <= e < edges.len() && (((#[trigger] edges[e]).0 == a && edges[e].1 == b) || (edges[e].0
            == b && edges[e].1 == a))
}

/// A node stands on the first `n` places of a trace.
pub open spec fn met_within(trace: Seq<(NodeId, NodeType)>, n: int, id: NodeId) -> bool {
    exists|k: int| 0 <= k < n && k < trace.len() && (#[trigger] trace[k]).0 == id
}

/// Every node behind place `k` of a trace, up to place `n`, was known before or has come
/// up to place `k`.
pub open spec fn nothing_new_after(own: MeshView, trace: Seq<(NodeId, NodeType)>, k: int, n: int) -> bool {
    forall|j: int|
        k < j < n ==> own.map.contains_key((#[trigger] trace[j]).0) || met_within(
            trace,
            k + 1,
            trace[j].0,
        )
}

/// The link at place `k` of a trace joins two indices that are in use.
pub open spec fn seated(m: MeshView, trace: Seq<(NodeId, NodeType)>, k: int) -> bool {
    m.map[trace[k - 1].0].0 < m.nodes.len() && m.map[trace[k].0].0 < m.nodes.len()
}

/// `m` holds what `own` holds, and the first `n` nodes of a trace.
pub open spec fn nodes_learned(own: MeshView, m: MeshView, trace: Seq<(NodeId, NodeType)>, n: int) -> bool {
    &&& forall|k: int| 0 <= k < n ==> m.map.contains_key((#[trigger] trace[k]).0)
    &&& forall|id: NodeId| #[trigger]
        own.map.contains_key(id) ==> m.map.contains_key(id) && m.map[id] == own.map[id]
    &&& forall|id: NodeId| #[trigger]
        m.map.contains_key(id) && !own.map.contains_key(id) ==> own.nodes.len() <= m.map[id].0
            < m.nodes.len() && m.nodes[m.map[id].0 as int] == id && met_within(trace, n, id)
    &&& own.nodes.len() <= m.nodes.len()
    &&& forall|i: int| 0 <= i < own.nodes.len() ==> #[trigger] m.nodes[i] == own.nodes[i]
}

/// `m` holds the links of `own`, and no other ones but links between nodes that stand side
/// by side among the first `n` of a trace.
pub open spec fn links_learned(own: MeshView, m: MeshView, trace: Seq<(NodeId, NodeType)>, n: int) -> bool {
    &&& own.edges.len() <= m.edges.len()
    &&& forall|e: int| 0 <= e < own.edges.len() ==> #[trigger] m.edges[e] == own.edges[e]
    &&& forall|e: int|
        own.edges.len() <= e < m.edges.len() ==> (#[trigger] m.edges[e]).2 == 1 && exists|k: int|
            #![trigger trace[k]]
            1 <= k < n && m.edges[e].0 == m.map[trace[k - 1].0].0 && m.edges[e].1
                == m.map[trace[k].0].0
}

/// Each two nodes that stand side by side among the first `n` of a trace are joined, where
/// no new node follows them.
pub open spec fn neighbours_joined(own: MeshView, m: MeshView, trace: Seq<(NodeId, NodeType)>, n: int) -> bool {
    forall|k: int|
        1 <= k < n && #[trigger] nothing_new_after(own, trace, k, n) && seated(m, trace, k)
            ==> link_between(m.edges, m.map[trace[k - 1].0].0, m.map[trace[k].0].0)
}

/// A client of the second make learns from a trace: it knows every node on it afterwards,
/// and what it knew stays. Two nodes side by side on the trace are joined by a link
/// afterwards, where no node that is new follows them; so the last two are in any case,
/// and all are where every node was known. No other links come up.
pub proof fn law_meshes_learn_from_traces(own: MeshView, trace: Seq<(NodeId, NodeType)>)
    requires
        own.wf(),
        own.room(2 * trace.len()),
        trace.len() >= 2,
    ensures
        nodes_learned(own, after_trace(own, trace), trace, trace.len() as int),
        links_learned(own, after_trace(own, trace), trace, trace.len() as int),
        neighbours_joined(own, after_trace(own, trace), trace, trace.len() as int),
        seated(after_trace(own, trace), trace, trace.len() - 1) ==> link_between(
            after_trace(own, trace).edges,
            after_trace(own, trace).map[trace[trace.len() - 2].0].0,
            after_trace(own, trace).map[trace[trace.len() - 1].0].0,
        ),
        (forall|k: int| 0 <= k < trace.len() ==> own.map.contains_key((#[trigger] trace[k]).0)) ==> ({
            let m = after_trace(own, trace);
            &&& m.nodes == own.nodes
            &&& m.map == own.map
            &&& forall|k: int|
                1 <= k < trace.len() && own.map[trace[k - 1].0].0 < own.nodes.len()
                    && own.map[(#[trigger] trace[k]).0].0 < own.nodes.len() ==> link_between(
                    m.edges,
                    own.map[trace[k - 1].0].0,
                    own.map[trace[k].0].0,
                )
        }),
{
    let n = trace.len() as int;
    lemma_trace_learned(own, trace, n);
    let m = after_trace(own, trace);
    assert(nothing_new_after(own, trace, n - 1, n));
    if forall|k: int| 0 <= k < trace.len() ==> own.map.contains_key((#[trigger] trace[k]).0) {
        assert(m.map =~= own.map) by {
            assert forall|id: NodeId| m.map.contains_key(id) <==> own.map.contains_key(id) by {
                if m.map.contains_key(id) && !own.map.contains_key(id) {
                    let k = choose|k: int| 0 <= k < n && k < trace.len() && (#[trigger] trace[k]).0 == id;
                    assert(own.map.contains_key(trace[k].0));
                }
            }
        }
        lemma_all_known(own, trace, n);
        assert forall|k: int|
            1 <= k < trace.len() && own.map[trace[k - 1].0].0 < own.nodes.len()
                && own.map[(#[trigger] trace[k]).0].0 < own.nodes.len() implies link_between(
            m.edges,
            own.map[trace[k - 1].0].0,
            own.map[trace[k].0].0,
        ) by {
            assert(nothing_new_after(own, trace, k, n)) by {
                assert forall|j: int| k < j < n implies own.map.contains_key((#[trigger] trace[j]).0)
                    || met_within(trace, k + 1, trace[j].0) by {}
            }
            assert(own.map.contains_key(trace[k - 1].0));
            assert(seated(m, trace, k));
        }
    }
}

/// Known nodes bring no new ones.
proof fn lemma_all_known(own: MeshView, trace: Seq<(NodeId, NodeType)>, n: int)
    requires
        0 <= n <= trace.len(),
        forall|k: int| 0 <= k < trace.len() ==> own.map.contains_key((#[trigger] trace[k]).0),
    ensures
        trace_taken(own, trace, n).0.nodes == own.nodes,
        trace_taken(own, trace, n).0.map == own.map,
        trace_taken(own, trace, n).1.nodes == own.nodes,
    decreases n,
{
    if n > 1 {
        lemma_all_known(own, trace, n - 1);
        assert(own.map.contains_key(trace[n - 2].0));
        assert(own.map.contains_key(trace[n - 1].0));
    }
}

proof fn lemma_trace_learned(own: MeshView, trace: Seq<(NodeId, NodeType)>, n: int)
    requires
        own.wf(),
        own.room(2 * trace.len()),
        2 <= n <= trace.len(),
    ensures
        ({
            let (c, m) = trace_taken(own, trace, n);
            &&& c.nodes == m.nodes
            &&& c.map == m.map
            &&& c.edges == own.edges
            &&& c.nodes.len() <= own.nodes.len() + 2 * n
            &&& nodes_learned(own, m, trace, n)
            &&& links_learned(own, m, trace, n)
            &&& neighbours_joined(own, m, trace, n)
        }),
    decreases n,
{
    let (c, o) = trace_taken(own, trace, n - 1);
    let x = trace[n - 2];
    let y = trace[n - 1];
    if n > 2 {
        lemma_trace_learned(own, trace, n - 1);
        assert(c.map.contains_key(x.0));
    } else {
        assert(c == own && o == own);
    }
    let c1 = c.with_node(x.0, x.1);
    let o1 = if c.map.contains_key(x.0) {
        o
    } else {
        c1
    };
    let c2 = c1.with_node(y.0, y.1);
    let o2 = if c1.map.contains_key(y.0) {
        o1
    } else {
        c2
    };
    let a = c2.map[x.0].0;
    let b = c2.map[y.0].0;
    let m = o2.with_link(a, b, 1);
    assert(trace_taken(own, trace, n) == (c2, m));
    assert(c2.map.contains_key(x.0) && c2.map.contains_key(y.0));
    assert(o2.nodes == c2.nodes && o2.map == c2.map);
    // the nodes
    assert forall|k: int| 0 <= k < n implies m.map.contains_key((#[trigger] trace[k]).0) by {
        if k < n - 2 {
            assert(c.map.contains_key(trace[k].0));
        }
    }
    assert forall|id: NodeId| #[trigger]
        m.map.contains_key(id) && !own.map.contains_key(id) implies own.nodes.len() <= m.map[id].0
        < m.nodes.len() && m.nodes[m.map[id].0 as int] == id && met_within(trace, n, id) by {
        if n > 2 && c.map.contains_key(id) {
            assert(met_within(trace, n - 1, id));
            let k = choose|k: int| 0 <= k < n - 1 && k < trace.len() && (#[trigger] trace[k]).0 == id;
            assert(trace[k].0 == id);
        } else if id == x.0 {
            assert(trace[n - 2].0 == id);
        } else {
            assert(id == y.0);
            assert(trace[n - 1].0 == id);
        }
    }
    assert(nodes_learned(own, m, trace, n));
    // the links
    assert(own.edges.len() <= o2.edges.len());
    assert forall|e: int| own.edges.len() <= e < m.edges.len() implies (#[trigger] m.edges[e]).2 == 1
        && exists|k: int|
        #![trigger trace[k]]
        1 <= k < n && m.edges[e].0 == m.map[trace[k - 1].0].0 && m.edges[e].1
            == m.map[trace[k].0].0 by {
        if e < o2.edges.len() {
            assert(o2 == o);
            assert(m.edges[e] == o.edges[e]);
            let k = choose|k: int|
                #![trigger trace[k]]
                1 <= k < n - 1 && o.edges[e].0 == o.map[trace[k - 1].0].0 && o.edges[e].1
                    == o.map[trace[k].0].0;
            assert(c.map.contains_key(trace[k].0) && c.map.contains_key(trace[k - 1].0));
            assert(m.edges[e].1 == m.map[trace[k].0].0);
        } else {
            assert(m.edges[e] == (a, b, 1u8));
            assert(trace[n - 1] == y);
        }
    }
    assert(links_learned(own, m, trace, n));
    assert forall|k: int|
        1 <= k < n && #[trigger] nothing_new_after(own, trace, k, n) && seated(
            m,
            trace,
            k,
        ) implies link_between(m.edges, m.map[trace[k - 1].0].0, m.map[trace[k].0].0) by {
        if k == n - 1 {
            lemma_link_there(o2, a, b);
        } else {
            assert(n > 2);
            assert(own.map.contains_key(y.0) || met_within(trace, k + 1, y.0)) by {
                assert(trace[n - 1] == y);
            }
            if met_within(trace, k + 1, y.0) {
                let j = choose|j: int| 0 <= j < k + 1 && j < trace.len() && (#[trigger] trace[j]).0 == y.0;
                assert(c.map.contains_key(trace[j].0));
            }
            assert(c.map.contains_key(y.0));
            assert(o2 == o);
            assert(nothing_new_after(own, trace, k, n - 1)) by {
                assert forall|j: int| k < j < n - 1 implies own.map.contains_key(
                    (#[trigger] trace[j]).0,
                ) || met_within(trace, k + 1, trace[j].0) by {}
            }
            assert(c.map.contains_key(trace[k].0) && c.map.contains_key(trace[k - 1].0));
            assert(seated(o, trace, k));
            let e = choose|e: int|
                0 <= e < o.edges.len() && (((#[trigger] o.edges[e]).0 == o.map[trace[k - 1].0].0
                    && o.edges[e].1 == o.map[trace[k].0].0) || (o.edges[e].0 == o.map[trace[k].0].0
                    && o.edges[e].1 == o.map[trace[k - 1].0].0));
            assert(m.edges[e] == o.edges[e]);
        }
    }
}

/// A link is there once it has been added.
proof fn lemma_link_there(o: MeshView, a: u32, b: u32)
    requires
        a < o.nodes.len(),
        b < o.nodes.len(),
    ensures
        link_between(o.with_link(a, b, 1).edges, a, b),
{
    let m = o.with_link(a, b, 1);
    if has_link(o.edges, a, b) {
        let e = choose|e: int| edge_between(o.edges, e, a, b);
        assert(m.edges[e] == o.edges[e]);
    } else {
        assert(m.edges[o.edges.len() as int] == (a, b, 1u8));
    }
}

/// A client of the second make that gets a flood response knows the nodes and links of its
/// trace afterwards, whatever it knew; nothing else about it changes, and nothing leaves.
pub proof fn law_second_clients_learn_from_responses(
    a: Client2View,
    b: Client2View,
    p: PacketView,
    g0: ClientGlobals,
    g1: ClientGlobals,
    added: Seq<OutgoingView>,
    news: Option<NewsView>,
    ok: bool,
)
    requires
        a.wf(),
        p.body is FloodResponse,
        p.body->FloodResponse_0.path_trace.len() >= 2,
        a.mesh.room(2 * p.body->FloodResponse_0.path_trace.len()),
        packet_handled2(a, b, p, g0, g1, added, news, ok),
    ensures
        ({
            let trace = p.body->FloodResponse_0.path_trace;
            let n = trace.len() as int;
            &&& nodes_learned(a.mesh, b.mesh, trace, n)
            &&& links_learned(a.mesh, b.mesh, trace, n)
            &&& neighbours_joined(a.mesh, b.mesh, trace, n)
            &&& seated(b.mesh, trace, n - 1) ==> link_between(
                b.mesh.edges,
                b.mesh.map[trace[n - 2].0].0,
                b.mesh.map[trace[n - 1].0].0,
            )
            &&& b == (Client2View { mesh: b.mesh, ..a })
            &&& added.len() == 0
            &&& g1 == g0
        }),
{
    law_meshes_learn_from_traces(a.mesh, p.body->FloodResponse_0.path_trace);
}

/// The same response twice: after the second time each two nodes side by side on its trace
/// are joined, where their indices are in use.
pub proof fn law_second_responses_complete_the_links(own: MeshView, trace: Seq<(NodeId, NodeType)>, k: int)
    requires
        own.wf(),
        after_trace(own, trace).wf(),
        own.room(2 * trace.len()),
        after_trace(own, trace).room(2 * trace.len()),
        1 <= k < trace.len(),
    ensures
        ({
            let m = after_trace(own, trace);
            let again = after_trace(m, trace);
            seated(m, trace, k) ==> again.map == m.map && link_between(
                again.edges,
                m.map[trace[k - 1].0].0,
                m.map[trace[k].0].0,
            )
        }),
{
    let m = after_trace(own, trace);
    law_meshes_learn_from_traces(own, trace);
    law_meshes_learn_from_traces(m, trace);
    assert(m.map.contains_key(trace[k].0));
}

/// An edge without losses leads from the index of one node to that of another, and both
/// indices are in use.
pub open spec fn edge_known(g: GraphView, x: NodeId, y: NodeId) -> bool {
    &&& g.index.contains_key(x) && g.index[x] < g.nodes.len()
    &&& g.index.contains_key(y) && g.index[y] < g.nodes.len()
    &&& g.edges.contains((g.index[x], g.index[y], 1usize))
}

/// Edges lead both ways between the node at place `k` of a trace and the one before it.
pub open spec fn step_known(g: GraphView, trace: Seq<(NodeId, NodeType)>, k: int) -> bool {
    edge_known(g, trace[k - 1].0, trace[k].0) && edge_known(g, trace[k].0, trace[k - 1].0)
}

/// The node at place `k` of a trace does not come again up to place `n`.
pub open spec fn comes_last(trace: Seq<(NodeId, NodeType)>, k: int, n: int) -> bool {
    forall|j: int| k < j < n ==> (#[trigger] trace[j]).0 != trace[k].0
}

/// What a server learns from the first `n` nodes of a trace: the links between them, and
/// the role of each one.
pub open spec fn trace_known(g: GraphView, trace: Seq<(NodeId, NodeType)>, n: int) -> bool {
    &&& forall|k: int| 1 <= k < n ==> #[trigger] step_known(g, trace, k)
    &&& forall|k: int| 0 <= k < n && n >= 2 ==> g.types.contains_key((#[trigger] trace[k]).0)
    &&& forall|k: int|
        0 <= k < n && n >= 2 && #[trigger] comes_last(trace, k, n) ==> g.types[trace[k].0]
            == trace[k].1
}

/// `h` holds the nodes of `g` at their indices, and an edge for each edge of `g`.
pub open spec fn grown_from(g: GraphView, h: GraphView) -> bool {
    &&& g.nodes.len() <= h.nodes.len()
    &&& g.edges.len() <= h.edges.len()
    &&& forall|i: int| 0 <= i < g.nodes.len() ==> #[trigger] h.nodes[i] == g.nodes[i]
    &&& forall|e: int|
        0 <= e < g.edges.len() ==> h.edges[e].0 == (#[trigger] g.edges[e]).0 && h.edges[e].1
            == g.edges[e].1 && (h.edges[e].2 == g.edges[e].2 || h.edges[e].2 == 1)
    &&& forall|id: NodeId| #[trigger]
        g.index.contains_key(id) && g.index[id] < g.nodes.len() ==> h.index.contains_key(id)
            && h.index[id] == g.index[id]
    &&& forall|id: NodeId| #[trigger] g.types.contains_key(id) ==> h.types.contains_key(id)
}

proof fn lemma_edge_put(edges: Seq<(u32, u32, usize)>, a: u32, b: u32)
    ensures
        ({
            let r = edge_put(edges, a, b, 1);
            &&& r.contains((a, b, 1usize))
            &&& edges.len() <= r.len() <= edges.len() + 1
            &&& forall|e: int|
                0 <= e < edges.len() ==> r[e].0 == (#[trigger] edges[e]).0 && r[e].1 == edges[e].1
                    && (r[e].2 == edges[e].2 || r[e].2 == 1)
            &&& forall|x: u32, y: u32|
                edges.contains((x, y, 1usize)) ==> #[trigger] r.contains((x, y, 1usize))
        }),
{
    let r = edge_put(edges, a, b, 1);
    if has_edge(edges, a, b) {
        let e = edge_pos(edges, a, b);
        assert(edge_at(edges, e, a, b));
        assert(r[e] == (a, b, 1usize));
    } else {
        assert(r[edges.len() as int] == (a, b, 1usize));
    }
    assert forall|x: u32, y: u32| edges.contains((x, y, 1usize)) implies #[trigger] r.contains(
        (x, y, 1usize),
    ) by {
        let e = edges.index_of((x, y, 1usize));
        assert(r[e] == (x, y, 1usize));
    }
}

/// A link that is put in is there, and what was there stays.
pub proof fn lemma_with_link(g: GraphView, x: (NodeId, NodeType), y: (NodeId, NodeType))
    requires
        g.room(),
    ensures
        ({
            let h = g.with_link(x.0, x.1, y.0, y.1);
            &&& grown_from(g, h)
            &&& edge_known(h, x.0, y.0)
            &&& edge_known(h, y.0, x.0)
            &&& forall|u: NodeId, v: NodeId| edge_known(g, u, v) ==> #[trigger] edge_known(h, u, v)
            &&& h.types == g.types.insert(x.0, x.1).insert(y.0, y.1)
        }),
{
    let m = g.with_node(x.0, x.1).with_node(y.0, y.1);
    let h = g.with_link(x.0, x.1, y.0, y.1);
    let i = m.index[x.0];
    let j = m.index[y.0];
    lemma_edge_put(m.edges, i, j);
    lemma_edge_put(edge_put(m.edges, i, j, 1), j, i);
    assert(h.types =~= g.types.insert(x.0, x.1).insert(y.0, y.1));
    assert forall|u: NodeId, v: NodeId| edge_known(g, u, v) implies #[trigger] edge_known(h, u, v) by {
        assert(g.index.contains_key(u) && g.index.contains_key(v));
    }
}

pub proof fn lemma_grown_twice(g: GraphView, m: GraphView, h: GraphView)
    requires
        grown_from(g, m),
        grown_from(m, h),
    ensures
        grown_from(g, h),
{
    assert forall|e: int| 0 <= e < g.edges.len() implies h.edges[e].0 == (#[trigger] g.edges[e]).0
        && h.edges[e].1 == g.edges[e].1 && (h.edges[e].2 == g.edges[e].2 || h.edges[e].2 == 1) by {
        assert(m.edges[e].0 == g.edges[e].0);
    }
    assert forall|i: int| 0 <= i < g.nodes.len() implies #[trigger] h.nodes[i] == g.nodes[i] by {
        assert(m.nodes[i] == g.nodes[i]);
    }
    assert forall|id: NodeId| #[trigger]
        g.index.contains_key(id) && g.index[id] < g.nodes.len() implies h.index.contains_key(id)
        && h.index[id] == g.index[id] by {
        assert(m.index.contains_key(id));
    }
    assert forall|id: NodeId| #[trigger] g.types.contains_key(id) implies h.types.contains_key(
        id,
    ) by {
        assert(m.types.contains_key(id));
    }
}

/// A server that knows the first nodes of a trace knows one more after another link.
proof fn lemma_known_further(m: GraphView, trace: Seq<(NodeId, NodeType)>, n: int)
    requires
        2 <= n <= trace.len(),
        m.room(),
        trace_known(m, trace, n - 1),
    ensures
        trace_known(
            m.with_link(trace[n - 2].0, trace[n - 2].1, trace[n - 1].0, trace[n - 1].1),
            trace,
            n,
        ),
{
    let h = m.with_link(trace[n - 2].0, trace[n - 2].1, trace[n - 1].0, trace[n - 1].1);
    lemma_with_link(m, trace[n - 2], trace[n - 1]);
    assert forall|k: int| 1 <= k < n implies #[trigger] step_known(h, trace, k) by {
        if k < n - 1 {
            assert(step_known(m, trace, k));
        }
    }
    assert forall|k: int| 0 <= k < n implies h.types.contains_key((#[trigger] trace[k]).0) by {
        if k < n - 2 {
            assert(m.types.contains_key(trace[k].0));
        }
    }
    assert forall|k: int| 0 <= k < n && #[trigger] comes_last(trace, k, n) implies h.types[trace[k].0]
        == trace[k].1 by {
        if k < n - 2 {
            assert(trace[n - 2].0 != trace[k].0);
            assert(trace[n - 1].0 != trace[k].0);
            assert(comes_last(trace, k, n - 1));
        } else if k == n - 2 {
            assert(trace[n - 1].0 != trace[k].0);
        }
    }
}

proof fn lemma_trace_linked(g: GraphView, trace: Seq<(NodeId, NodeType)>, n: int)
    requires
        0 <= n <= trace.len(),
        trace_linked(g, trace, n).room(),
    ensures
        grown_from(g, trace_linked(g, trace, n)),
        trace_known(trace_linked(g, trace, n), trace, n),
    decreases n,
{
    if n >= 2 {
        let m = trace_linked(g, trace, n - 1);
        if m.room() {
            lemma_trace_linked(g, trace, n - 1);
            lemma_with_link(m, trace[n - 2], trace[n - 1]);
            lemma_known_further(m, trace, n);
            lemma_grown_twice(g, m, trace_linked(g, trace, n));
        }
    }
}

/// A server that gets a flood response knows the nodes of its trace afterwards, each with
/// its role, and the links between nodes that stand side by side on it, both ways and
/// without losses; what it knew stays. Nothing else about it changes, and nothing leaves.
/// A graph that has run out of indices is left out.
pub proof fn law_servers_learn_from_responses(
    a: ServerView,
    b: ServerView,
    p: PacketView,
    added: Seq<OutgoingView>,
    lines: Seq<Seq<char>>,
)
    requires
        p.body is FloodResponse,
        packet_handled(a, b, p, added, lines) || shortcut_handled(a, b, p, added, lines),
        b.net.room(),
    ensures
        trace_known(
            b.net,
            p.body->FloodResponse_0.path_trace,
            p.body->FloodResponse_0.path_trace.len() as int,
        ),
        grown_from(a.net, b.net),
        b == (ServerView { net: b.net, ..a }),
        added.len() == 0,
        lines.len() == 0,
{
    let trace = p.body->FloodResponse_0.path_trace;
    lemma_trace_linked(a.net, trace, trace.len() as int);
}

/// An edge leads one way or the other between the node at place `k` of a trace and the one
/// before it.
pub open spec fn step_heard(net: NetView, trace: Seq<(NodeId, NodeType)>, k: int) -> bool {
    edge_leads(net, trace[k - 1].0, trace[k].0) || edge_leads(net, trace[k].0, trace[k - 1].0)
}

/// What a client of the first make knows of a trace: it knows each node on it, and a link
/// one way or the other between any two that stand side by side.
pub open spec fn trace_heard(net: NetView, trace: Seq<(NodeId, NodeType)>) -> bool {
    &&& forall|k: int| 0 <= k < trace.len() ==> net.index.contains_key((#[trigger] trace[k]).0)
    &&& forall|k: int| 1 <= k < trace.len() ==> #[trigger] step_heard(net, trace, k)
}

/// An edge leads from one node to another.
pub open spec fn edge_leads(net: NetView, x: NodeId, y: NodeId) -> bool {
    &&& net.index.contains_key(x)
    &&& net.index.contains_key(y)
    &&& exists|e: u32| #[trigger]
        net.edges.contains_key(e) && net.edges[e].0 == net.index[x] && net.edges[e].1
            == net.index[y]
}

/// `b` holds the nodes, edges and ids of `a`.
pub open spec fn kept_in(a: NetView, b: NetView) -> bool {
    &&& forall|i: u32| #[trigger]
        a.nodes.contains_key(i) ==> b.nodes.contains_key(i) && b.nodes[i] == a.nodes[i]
    &&& forall|e: u32| #[trigger]
        a.edges.contains_key(e) ==> b.edges.contains_key(e) && b.edges[e] == a.edges[e]
    &&& forall|id: NodeId| #[trigger]
        a.index.contains_key(id) ==> b.index.contains_key(id) && b.index[id] == a.index[id]
}

/// A network within one that has room has room, too.
proof fn lemma_room_within(a: NetView, b: NetView, n: nat)
    requires
        kept_in(a, b),
        b.nodes.dom().finite(),
        b.edges.dom().finite(),
        b.room(n),
    ensures
        a.room(n),
{
    assert(a.nodes.dom().subset_of(b.nodes.dom()));
    assert(a.edges.dom().subset_of(b.edges.dom()));
    vstd::set_lib::lemma_len_subset(a.nodes.dom(), b.nodes.dom());
    vstd::set_lib::lemma_len_subset(a.edges.dom(), b.edges.dom());
}

proof fn lemma_heard_stays(a: NetView, b: NetView, trace: Seq<(NodeId, NodeType)>)
    requires
        kept_in(a, b),
        trace_heard(a, trace),
    ensures
        trace_heard(b, trace),
{
    assert forall|x: NodeId, y: NodeId| #[trigger] edge_leads(a, x, y) implies edge_leads(b, x, y) by {
        let e = choose|e: u32| #[trigger]
            a.edges.contains_key(e) && a.edges[e].0 == a.index[x] && a.edges[e].1 == a.index[y];
        assert(b.edges.contains_key(e));
    }
    assert forall|k: int| 1 <= k < trace.len() implies #[trigger] step_heard(b, trace, k) by {
        assert(step_heard(a, trace, k));
    }
    assert forall|k: int| 0 <= k < trace.len() implies b.index.contains_key(
        (#[trigger] trace[k]).0,
    ) by {
        assert(a.index.contains_key(trace[k].0));
    }
}

proof fn lemma_trace_merged(a: NetView, b: NetView, trace: Seq<(NodeId, NodeType)>)
    requires
        trace_merged(a, b, trace),
    ensures
        kept_in(a, b),
        a.room(trace.len()) ==> trace_heard(b, trace),
{
    if a.room(trace.len()) {
        assert(merged(a, b, trace));
        assert forall|id: NodeId| #[trigger] a.index.contains_key(id) implies b.index.contains_key(
            id,
        ) && b.index[id] == a.index[id] by {
            assert(a.knows(id));
            assert(b.knows(id));
        }
        assert forall|k: int| 0 <= k < trace.len() implies b.index.contains_key(
            (#[trigger] trace[k]).0,
        ) by {
            assert(on_trace(trace, trace[k].0));
            assert(b.knows(trace[k].0));
        }
        assert forall|k: int| 1 <= k < trace.len() implies #[trigger] step_heard(b, trace, k) by {
            let x = trace[k - 1].0;
            let y = trace[k].0;
            assert(side_by_side(trace, x, y));
            assert(b.linked(x, y) <==> a.linked(x, y) || (side_by_side(trace, x, y) && !a.linked(
                y,
                x,
            )));
            if a.linked(y, x) {
                assert(b.linked(y, x) <==> a.linked(y, x) || (side_by_side(trace, y, x)
                    && !a.linked(x, y)));
                assert(edge_leads(b, y, x));
            } else {
                assert(edge_leads(b, x, y));
            }
        }
    }
}

proof fn lemma_responses_heard(a: NetView, b: NetView, r: Seq<FloodResponseView>)
    requires
        responses_merged(a, b, r),
        b.nodes.dom().finite(),
        b.edges.dom().finite(),
    ensures
        kept_in(a, b),
        forall|i: int|
            0 <= i < r.len() && b.room((#[trigger] r[i]).path_trace.len()) ==> trace_heard(
                b,
                r[i].path_trace,
            ),
    decreases r.len(),
{
    if r.len() > 0 {
        let m = choose|m: NetView|
            responses_merged(a, m, r.drop_last()) && #[trigger] trace_merged(
                m,
                b,
                r.last().path_trace,
            );
        lemma_trace_merged(m, b, r.last().path_trace);
        lemma_room_finite(m, b);
        lemma_responses_heard(a, m, r.drop_last());
        assert forall|i: int|
            0 <= i < r.len() && b.room((#[trigger] r[i]).path_trace.len()) implies trace_heard(
            b,
            r[i].path_trace,
        ) by {
            lemma_room_within(m, b, r[i].path_trace.len());
            if i < r.len() - 1 {
                assert(r.drop_last()[i] == r[i]);
                lemma_heard_stays(m, b, r[i].path_trace);
            }
        }
        lemma_kept_twice(a, m, b);
    }
}

proof fn lemma_room_finite(a: NetView, b: NetView)
    requires
        kept_in(a, b),
        b.nodes.dom().finite(),
        b.edges.dom().finite(),
    ensures
        a.nodes.dom().finite(),
        a.edges.dom().finite(),
{
    assert(a.nodes.dom().subset_of(b.nodes.dom()));
    assert(a.edges.dom().subset_of(b.edges.dom()));
    vstd::set_lib::lemma_set_subset_finite(b.nodes.dom(), a.nodes.dom());
    vstd::set_lib::lemma_set_subset_finite(b.edges.dom(), a.edges.dom());
}

proof fn lemma_kept_twice(a: NetView, m: NetView, b: NetView)
    requires
        kept_in(a, m),
        kept_in(m, b),
    ensures
        kept_in(a, b),
{
    assert forall|i: u32| #[trigger] a.nodes.contains_key(i) implies b.nodes.contains_key(i)
        && b.nodes[i] == a.nodes[i] by {
        assert(m.nodes.contains_key(i));
    }
    assert forall|e: u32| #[trigger] a.edges.contains_key(e) implies b.edges.contains_key(e)
        && b.edges[e] == a.edges[e] by {
        assert(m.edges.contains_key(e));
    }
    assert forall|id: NodeId| #[trigger] a.index.contains_key(id) implies b.index.contains_key(id)
        && b.index[id] == a.index[id] by {
        assert(m.index.contains_key(id));
    }
}

proof fn lemma_floods_heard(
    a: NetView,
    b: NetView,
    floods: Map<u64, FloodView>,
    order: Seq<u64>,
)
    requires
        floods_merged(a, b, floods, order),
        b.nodes.dom().finite(),
        b.edges.dom().finite(),
    ensures
        kept_in(a, b),
        forall|j: int, i: int|
            0 <= j < order.len() && 0 <= i < floods[order[j]].responses.len() && b.room(
                (#[trigger] floods[order[j]].responses[i]).path_trace.len(),
            ) ==> trace_heard(b, floods[order[j]].responses[i].path_trace),
    decreases order.len(),
{
    if order.len() > 0 {
        let m = choose|m: NetView|
            floods_merged(a, m, floods, order.drop_last()) && #[trigger] responses_merged(
                m,
                b,
                floods[order.last()].responses,
            );
        lemma_responses_heard(m, b, floods[order.last()].responses);
        lemma_room_finite(m, b);
        lemma_floods_heard(a, m, floods, order.drop_last());
        lemma_kept_twice(a, m, b);
        assert forall|j: int, i: int|
            0 <= j < order.len() && 0 <= i < floods[order[j]].responses.len() && b.room(
                (#[trigger] floods[order[j]].responses[i]).path_trace.len(),
            ) implies trace_heard(b, floods[order[j]].responses[i].path_trace) by {
            let t = floods[order[j]].responses[i].path_trace;
            if j < order.len() - 1 {
                assert(order.drop_last()[j] == order[j]);
                lemma_room_within(m, b, t.len());
                assert(trace_heard(m, floods[order.drop_last()[j]].responses[i].path_trace));
                lemma_heard_stays(m, b, t);
            }
        }
    }
}

/// A client of the first make gathers the responses to a flood of its own, and learns from
/// them when two seconds have passed: it then knows every node on every trace, and a link
/// between any two that stand side by side. The flood is over, and what the client knew
/// stays. A graph that has run out of indices is left out, and so are commands that wait
/// for the flood.
pub proof fn law_first_clients_learn_from_floods(
    a: ClientView,
    b: ClientView,
    now: u64,
    c0: u64,
    c1: u64,
    added: Seq<OutgoingView>,
    flood: u64,
    i: int,
)
    requires
        b.wf(),
        timeouts_checked(a, b, now, c0, c1, added),
        a.pending.len() == 0,
        a.floods.contains_key(flood),
        0 <= i < a.floods[flood].responses.len(),
        b.net.room(a.floods[flood].responses[i].path_trace.len()),
    ensures
        now - a.floods[flood].start > 2_000_000_000 ==> trace_heard(
            b.net,
            a.floods[flood].responses[i].path_trace,
        ) && !b.floods.contains_key(flood),
        now - a.floods[flood].start <= 2_000_000_000 ==> b.floods.contains_key(flood)
            && b.floods[flood] == a.floods[flood],
        kept_in(a.net, b.net),
        added.len() == 0,
{
    let m = choose|m: ClientView|
        {
            &&& #[trigger] floods_closed(a, m, now)
            &&& if expired_floods(a.floods, now) == Set::<u64>::empty() {
                b == m && c1 == c0 && added == Seq::<OutgoingView>::empty()
            } else {
                all_pending_handled(
                    ClientView { pending: Seq::empty(), ..m },
                    b,
                    a.pending,
                    c0,
                    c1,
                    added,
                )
            }
        };
    assert(b.net == m.net && b.floods == m.floods && added.len() == 0);
    let order = choose|order: Seq<u64>|
        {
            &&& order.no_duplicates()
            &&& order.to_set() == expired_floods(a.floods, now)
            &&& #[trigger] floods_merged(a.net, m.net, a.floods, order)
        };
    lemma_floods_heard(a.net, m.net, a.floods, order);
    if now - a.floods[flood].start > 2_000_000_000 {
        assert(expired_floods(a.floods, now).contains(flood));
        assert(order.to_set().contains(flood));
        let j = order.index_of(flood);
        assert(order[j] == flood);
        assert(b.net.room(a.floods[order[j]].responses[i].path_trace.len()));
    }
}

/// A client of the first make keeps a response to a flood of its own with those that came
/// before, and learns at once from any other response.
pub proof fn law_first_clients_gather_responses(a: ClientView, net: NetView, p: PacketView)
    requires
        p.body is FloodResponse,
        a.packet_net(net, p),
    ensures
        ({
            let r = p.body->FloodResponse_0;
            let b = a.after_packet(net, p);
            &&& a.packet_answer(p).len() == 0
            &&& a.packet_notice(p) is None
            &&& a.floods.contains_key(r.flood_id) ==> b.floods.contains_key(r.flood_id)
                && b.floods[r.flood_id].responses == a.floods[r.flood_id].responses.push(r)
                && b.floods[r.flood_id].start == a.floods[r.flood_id].start && b.net == a.net
            &&& !a.floods.contains_key(r.flood_id) ==> kept_in(a.net, b.net) && (a.net.room(
                r.path_trace.len(),
            ) ==> trace_heard(b.net, r.path_trace)) && b.floods == a.floods
            &&& forall|f: u64|
                f != r.flood_id ==> (#[trigger] b.floods.contains_key(f) <==> a.floods.contains_key(
                    f,
                )) && b.floods[f] == a.floods[f]
            &&& b.neighbours == a.neighbours && b.sent == a.sent && b.server == a.server
                && b.received == a.received && b.pending == a.pending && b.routes == a.routes
        }),
{
    let r = p.body->FloodResponse_0;
    if !a.floods.contains_key(r.flood_id) {
        lemma_trace_merged(a.net, net, r.path_trace);
    }
}

}
