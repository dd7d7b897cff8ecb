//! Which links a search for a route leaves, and which routes it finds.
use crate::graphs::edge_between;
use crate::known_network::NetView;
use crate::mesh::{has_link, joins, link_pos, touches_nameless, MeshView};
use crate::packet::{NodeId, NodeType};
use crate::routing::{
    clean_interior, enterable, least_cost, settled_before, unreachable_within, walk, walk_between,
    Arc,
};
use crate::server_network::{edge_cut, in_place, lemma_edge_cut_keeps, GraphView};
use vstd::prelude::*;

verus! {

/// A channel leads from one of two nodes to the other, where the channels are known.
pub open spec fn share(channels: Option<Set<(NodeId, NodeId)>>, x: NodeId, y: NodeId) -> bool {
    channels is None || channels->0.contains((x, y)) || channels->0.contains((y, x))
}

/// What some steps cost together.
pub open spec fn toll(steps: Seq<Arc>) -> int
    decreases steps.len(),
{
    if steps.len() == 0 {
        0
    } else {
        toll(steps.drop_last()) + steps.last().2
    }
}

/// Each step begins where the one before it ends; the first one begins at `s`, and the last
/// one ends at `t`.
pub open spec fn leads_from_to(steps: Seq<Arc>, s: int, t: int) -> bool {
    &&& steps.len() > 0
    &&& steps[0].0 == s
    &&& steps.last().1 == t
    &&& forall|k: int, l: int|
        0 <= k && l == k + 1 && l < steps.len() ==> (#[trigger] steps[k]).1 == (
        #[trigger] steps[l]).0
}

/// The nodes that the steps pass.
pub open spec fn passed(steps: Seq<Arc>) -> Seq<int> {
    Seq::new(
        steps.len() + 1,
        |k: int|
            if k < steps.len() {
                steps[k].0
            } else {
                steps.last().1
            },
    )
}

/// A step may be taken, where it does not lead to the end, only to a relay other than `s`.
pub open spec fn by_relays(steps: Seq<Arc>, relays: Set<int>, s: int) -> bool {
    forall|k: int|
        0 <= k < steps.len() - 1 ==> relays.contains((#[trigger] steps[k]).1) && steps[k].1 != s
}

/// Every step is one of `arcs`.
pub open spec fn all_among(steps: Seq<Arc>, arcs: Set<Arc>) -> bool {
    forall|k: int| 0 <= k < steps.len() ==> arcs.contains(#[trigger] steps[k])
}

/// Steps that lead somewhere are a walk at their toll.
proof fn lemma_steps_walk(arcs: Set<Arc>, enter: Set<int>, steps: Seq<Arc>, s: int, t: int)
    requires
        leads_from_to(steps, s, t),
        all_among(steps, arcs),
        forall|k: int| 0 <= k < steps.len() ==> enter.contains((#[trigger] steps[k]).1),
    ensures
        walk_between(arcs, enter, s, t, passed(steps), toll(steps)),
    decreases steps.len(),
{
    let p = passed(steps);
    let n = steps.len() as int;
    assert(p.last() == steps.last().1);
    assert(p[n - 1] == steps.last().0);
    let (x, y, w) = steps.last();
    assert(arcs.contains(steps[n - 1]));
    if n == 1 {
        assert(p.drop_last() =~= seq![s]);
        assert(toll(steps.drop_last()) == 0) by {
            assert(steps.drop_last().len() == 0);
        }
        assert(walk(arcs, enter, p.drop_last(), toll(steps) - w));
        assert(arcs.contains((p[p.len() - 2], p.last(), w)));
    } else {
        let init = steps.drop_last();
        assert(init.last() == steps[n - 2]);
        assert(steps[n - 2].1 == steps[n - 1].0);
        assert forall|k: int| 0 <= k < init.len() implies arcs.contains(#[trigger] init[k])
            && enter.contains(init[k].1) by {
            assert(init[k] == steps[k]);
        }
        assert forall|k: int, l: int| 0 <= k && l == k + 1 && l < init.len() implies (
        #[trigger] init[k]).1 == (#[trigger] init[l]).0 by {
            assert(steps[k].1 == steps[l].0);
        }
        lemma_steps_walk(arcs, enter, init, s, x);
        assert(p.drop_last() =~= passed(init));
        assert(walk(arcs, enter, p.drop_last(), toll(steps) - w));
        assert(arcs.contains((p[p.len() - 2], p.last(), w)));
    }
    assert(enter.contains(p.last()));
}

/// A walk of two nodes or more is made of steps.
proof fn lemma_walk_steps(arcs: Set<Arc>, enter: Set<int>, p: Seq<int>, cost: int) -> (steps: Seq<Arc>)
    requires
        p.len() > 1,
        walk(arcs, enter, p, cost),
    ensures
        leads_from_to(steps, p[0], p.last()),
        all_among(steps, arcs),
        passed(steps) == p,
        toll(steps) == cost,
    decreases p.len(),
{
    let w = choose|w: int|
        #![trigger arcs.contains((p[p.len() - 2], p.last(), w))]
        arcs.contains((p[p.len() - 2], p.last(), w)) && walk(arcs, enter, p.drop_last(), cost - w);
    let step = (p[p.len() - 2], p.last(), w);
    let init = p.drop_last();
    if init.len() <= 1 {
        let steps = seq![step];
        assert(steps.drop_last().len() == 0);
        assert(toll(steps.drop_last()) == 0);
        assert(passed(steps) =~= p);
        steps
    } else {
        let before = lemma_walk_steps(arcs, enter, init, cost - w);
        let steps = before.push(step);
        assert(steps.drop_last() =~= before);
        assert(passed(before).len() == init.len());
        assert forall|k: int| 0 <= k < p.len() implies passed(steps)[k] == p[k] by {
            if k < p.len() - 2 {
                assert(passed(before)[k] == init[k]);
                assert(steps[k] == before[k]);
            }
        }
        assert(passed(steps) =~= p);
        assert(before.last().1 == init.last());
        assert forall|k: int, l: int| 0 <= k && l == k + 1 && l < steps.len() implies (
        #[trigger] steps[k]).1 == (#[trigger] steps[l]).0 by {
            if l < before.len() {
                assert(before[k].1 == before[l].0);
            } else {
                assert(steps[k] == before.last());
            }
        }
        assert(steps[0] == before[0]);
        steps
    }
}

/// `ids` are the ids of the nodes that the steps pass.
pub open spec fn spells(ids: Seq<NodeId>, steps: Seq<Arc>, name: spec_fn(int) -> NodeId) -> bool {
    &&& ids.len() == steps.len() + 1
    &&& forall|k: int| 0 <= k < steps.len() ==> #[trigger] ids[k] == name(steps[k].0)
    &&& ids.last() == name(steps.last().1)
}

/// The steps lead from `s` to `t` by relays, along arcs of the network.
pub open spec fn trip(steps: Seq<Arc>, s: int, t: int, relays: Set<int>, arcs: Set<Arc>) -> bool {
    leads_from_to(steps, s, t) && by_relays(steps, relays, s) && all_among(steps, arcs)
}

/// A route of least cost is made of steps, and no other steps cost less.
proof fn lemma_cheapest(
    arcs: Set<Arc>,
    relays: Set<int>,
    s: int,
    t: int,
    limit: int,
    p: Seq<int>,
) -> (steps: Seq<Arc>)
    requires
        s != t,
        least_cost(arcs, enterable(relays, s, t), s, t, limit, p),
        forall|k: int|
            0 < k < p.len() - 1 ==> relays.contains(#[trigger] p[k]) && p[k] != s && p[k] != t,
    ensures
        trip(steps, s, t, relays, arcs),
        passed(steps) == p,
        toll(steps) < limit,
        forall|other: Seq<Arc>| #[trigger] trip(other, s, t, relays, arcs) ==> toll(steps) <= toll(other),
{
    let enter = enterable(relays, s, t);
    let cost = choose|cost: int|
        {
            &&& #[trigger] walk_between(arcs, enter, s, t, p, cost)
            &&& cost < limit
            &&& forall|q: Seq<int>, d: int| #[trigger]
                walk_between(arcs, enter, s, t, q, d) ==> cost <= d
        };
    let steps = lemma_walk_steps(arcs, enter, p, cost);
    assert forall|k: int| 0 <= k < steps.len() - 1 implies relays.contains((#[trigger] steps[k]).1)
        && steps[k].1 != s by {
        assert(steps[k].1 == steps[k + 1].0);
        assert(p[k + 1] == steps[k + 1].0);
    }
    assert forall|other: Seq<Arc>| #[trigger] trip(other, s, t, relays, arcs) implies toll(steps)
        <= toll(other) by {
        lemma_trip_walks(arcs, relays, other, s, t);
    }
    steps
}

proof fn lemma_trip_walks(arcs: Set<Arc>, relays: Set<int>, steps: Seq<Arc>, s: int, t: int)
    requires
        trip(steps, s, t, relays, arcs),
    ensures
        walk_between(arcs, enterable(relays, s, t), s, t, passed(steps), toll(steps)),
{
    let enter = enterable(relays, s, t);
    assert forall|k: int| 0 <= k < steps.len() implies enter.contains((#[trigger] steps[k]).1) by {
        if k == steps.len() - 1 {
            assert(steps[k] == steps.last());
        }
    }
    lemma_steps_walk(arcs, enter, steps, s, t);
}

proof fn lemma_spelled(ids: Seq<NodeId>, p: Seq<int>, steps: Seq<Arc>, name: spec_fn(int) -> NodeId)
    requires
        passed(steps) == p,
        steps.len() > 0,
        ids == p.map_values(name),
    ensures
        spells(ids, steps, name),
{
    assert(ids.len() == steps.len() + 1);
    assert forall|k: int| 0 <= k < steps.len() implies #[trigger] ids[k] == name(steps[k].0) by {
        assert(p[k] == steps[k].0);
    }
    assert(p[steps.len() as int] == steps.last().1);
}

/// A search among the links of a server leaves exactly those whose ends share a channel,
/// with their losses; nodes stay.
pub proof fn law_server_searches_drop_dead_links(
    net: GraphView,
    channels: Option<Set<(NodeId, NodeId)>>,
)
    requires
        net.wf(),
        in_place(net),
    ensures
        net.pruned(channels).nodes == net.nodes,
        net.pruned(channels).index == net.index,
        net.pruned(channels).types == net.types,
        forall|e: (u32, u32, usize)| #[trigger]
            net.pruned(channels).edges.contains(e) <==> net.edges.contains(e) && share(
                channels,
                net.nodes[e.0 as int],
                net.nodes[e.1 as int],
            ),
{
    let list = net.unshared(channels, net.edges.len() as int);
    lemma_unshared(net, channels, net.edges.len() as int);
    lemma_links_out(net, list);
    let m = net.pruned(channels);
    assert forall|e: (u32, u32, usize)| #[trigger] m.edges.contains(e) <==> net.edges.contains(e)
        && share(channels, net.nodes[e.0 as int], net.nodes[e.1 as int]) by {
        if net.edges.contains(e) {
            let x = net.nodes[e.0 as int];
            let y = net.nodes[e.1 as int];
            let k = net.edges.index_of(e);
            assert(net.edges[k] == e);
            assert(net.index[x] == e.0 && net.index[y] == e.1);
            if !share(channels, x, y) {
                assert(list.contains((x, y)));
            } else if strikes(net, list, e) {
                let l = choose|l: int|
                    0 <= l < list.len() && struck_by(net, #[trigger] list[l], e);
                assert(list.contains(list[l]));
                let (a, b) = list[l];
                assert(net.nodes[net.index[a] as int] == a && net.nodes[net.index[b] as int] == b);
            }
        }
    }
}

/// The edge joins the nodes of two ids.
pub open spec fn struck_by(net: GraphView, ids: (NodeId, NodeId), e: (u32, u32, usize)) -> bool {
    &&& net.index.contains_key(ids.0)
    &&& net.index.contains_key(ids.1)
    &&& (net.index[ids.0] == e.0 && net.index[ids.1] == e.1) || (net.index[ids.0] == e.1
        && net.index[ids.1] == e.0)
}

/// The edge joins the nodes of one of the pairs.
pub open spec fn strikes(
    net: GraphView,
    list: Seq<(NodeId, NodeId)>,
    e: (u32, u32, usize),
) -> bool {
    exists|l: int| 0 <= l < list.len() && struck_by(net, #[trigger] list[l], e)
}

proof fn lemma_unshared(net: GraphView, channels: Option<Set<(NodeId, NodeId)>>, n: int)
    requires
        net.wf(),
        in_place(net),
        0 <= n <= net.edges.len(),
    ensures
        forall|k: int|
            0 <= k < n && !share(
                channels,
                net.nodes[(#[trigger] net.edges[k]).0 as int],
                net.nodes[net.edges[k].1 as int],
            ) ==> net.unshared(channels, n).contains(
                (net.nodes[net.edges[k].0 as int], net.nodes[net.edges[k].1 as int]),
            ),
        forall|q: (NodeId, NodeId)| #[trigger]
            net.unshared(channels, n).contains(q) ==> !share(channels, q.0, q.1)
                && net.placed(q.0) && net.placed(q.1),
    decreases n,
{
    if n > 0 && channels is Some {
        lemma_unshared(net, channels, n - 1);
        let rest = net.unshared(channels, n - 1);
        let e = net.edges[n - 1];
        let q = (net.nodes[e.0 as int], net.nodes[e.1 as int]);
        assert(net.index[q.0] == e.0 && net.index[q.1] == e.1);
        let all = rest.push(q);
        assert(all[rest.len() as int] == q);
        assert forall|r: (NodeId, NodeId)| rest.contains(r) implies #[trigger] all.contains(r) by {
            let k = rest.index_of(r);
            assert(all[k] == r);
        }
        assert forall|r: (NodeId, NodeId)| #[trigger] all.contains(r) implies rest.contains(r) || r
            == q by {
            let k = all.index_of(r);
            assert(all[k] == r);
            if k < rest.len() {
                assert(rest[k] == r);
            }
        }
    }
}

proof fn lemma_links_out(net: GraphView, list: Seq<(NodeId, NodeId)>)
    requires
        net.wf(),
    ensures
        net.without_links(list).wf(),
        net.without_links(list).nodes == net.nodes,
        net.without_links(list).index == net.index,
        net.without_links(list).types == net.types,
        forall|e: (u32, u32, usize)| #[trigger]
            net.without_links(list).edges.contains(e) <==> net.edges.contains(e) && !strikes(
                net,
                list,
                e,
            ),
    decreases list.len(),
{
    if list.len() > 0 {
        let init = list.drop_last();
        lemma_links_out(net, init);
        let m = net.without_links(init);
        let (a, b) = list.last();
        if m.index.contains_key(a) && m.index.contains_key(b) {
            let x = m.index[a];
            let y = m.index[b];
            let n = m.nodes.len() as int;
            lemma_edge_cut_keeps(m.edges, n, x, y);
            lemma_edge_cut_keeps(edge_cut(m.edges, x, y), n, y, x);
        }
        assert forall|e: (u32, u32, usize)| strikes(net, list, e) <==> strikes(net, init, e)
            || struck_by(net, list.last(), e) by {
            if strikes(net, init, e) {
                let l = choose|l: int|
                    0 <= l < init.len() && struck_by(net, #[trigger] init[l], e);
                assert(struck_by(net, list[l], e));
            }
            if struck_by(net, list.last(), e) {
                assert(struck_by(net, list[list.len() - 1], e));
            }
            if strikes(net, list, e) {
                let l = choose|l: int|
                    0 <= l < list.len() && struck_by(net, #[trigger] list[l], e);
                if l < init.len() {
                    assert(struck_by(net, init[l], e));
                }
            }
        }
    }
}

/// The step goes along an edge of a server's graph whose ends share a channel, and costs
/// its weight.
pub open spec fn server_step(
    net: GraphView,
    channels: Option<Set<(NodeId, NodeId)>>,
    a: Arc,
) -> bool {
    exists|e: int|
        0 <= e < net.edges.len() && (#[trigger] net.edges[e]).0 == a.0 && net.edges[e].1 == a.1
            && net.edges[e].2 == a.2 && share(
            channels,
            net.nodes[net.edges[e].0 as int],
            net.nodes[net.edges[e].1 as int],
        )
}

/// The steps lead from one index to another along edges whose ends share a channel, by way
/// of drones.
pub open spec fn server_trip(
    net: GraphView,
    channels: Option<Set<(NodeId, NodeId)>>,
    steps: Seq<Arc>,
    s: int,
    t: int,
) -> bool {
    &&& leads_from_to(steps, s, t)
    &&& forall|k: int| 0 <= k < steps.len() ==> server_step(net, channels, #[trigger] steps[k])
    &&& forall|k: int|
        0 <= k < steps.len() - 1 ==> 0 <= (#[trigger] steps[k]).1 < net.nodes.len() && steps[k].1
            != s && net.types.contains_key(net.nodes[steps[k].1]) && net.types[net.nodes[steps[k].1]]
            == NodeType::Drone
}

proof fn lemma_server_trip(
    net: GraphView,
    channels: Option<Set<(NodeId, NodeId)>>,
    steps: Seq<Arc>,
    s: int,
    t: int,
)
    requires
        net.wf(),
        in_place(net),
    ensures
        server_trip(net, channels, steps, s, t) <==> trip(
            steps,
            s,
            t,
            net.pruned(channels).drones(),
            net.pruned(channels).arcs(),
        ),
{
    law_server_searches_drop_dead_links(net, channels);
    let m = net.pruned(channels);
    assert forall|a: Arc| server_step(net, channels, a) <==> #[trigger] m.arcs().contains(a) by {
        if server_step(net, channels, a) {
            let e = choose|e: int|
                0 <= e < net.edges.len() && (#[trigger] net.edges[e]).0 == a.0 && net.edges[e].1
                    == a.1 && net.edges[e].2 == a.2 && share(
                    channels,
                    net.nodes[net.edges[e].0 as int],
                    net.nodes[net.edges[e].1 as int],
                );
            assert(net.edges.contains(net.edges[e]));
            assert(m.edges.contains(net.edges[e]));
            let f = m.edges.index_of(net.edges[e]);
            assert(m.edges[f] == net.edges[e]);
        }
        if m.arcs().contains(a) {
            let f = choose|f: int|
                0 <= f < m.edges.len() && (#[trigger] m.edges[f]).0 == a.0 && m.edges[f].1 == a.1
                    && m.edges[f].2 == a.2;
            assert(m.edges.contains(m.edges[f]));
            let e = net.edges.index_of(m.edges[f]);
            assert(net.edges[e] == m.edges[f]);
        }
    }
    let arcs = m.arcs();
    let drones = m.drones();
    if server_trip(net, channels, steps, s, t) {
        assert forall|k: int| 0 <= k < steps.len() implies arcs.contains(#[trigger] steps[k]) by {
            assert(server_step(net, channels, steps[k]));
        }
    }
    if trip(steps, s, t, drones, arcs) {
        assert forall|k: int| 0 <= k < steps.len() implies server_step(
            net,
            channels,
            #[trigger] steps[k],
        ) by {
            assert(arcs.contains(steps[k]));
        }
        assert forall|k: int| 0 <= k < steps.len() - 1 implies 0 <= (#[trigger] steps[k]).1
            < net.nodes.len() && steps[k].1 != s && net.types.contains_key(net.nodes[steps[k].1])
            && net.types[net.nodes[steps[k].1]] == NodeType::Drone by {
            assert(drones.contains(steps[k].1));
        }
    }
}

/// A route of a server goes along links whose ends share a channel, by way of drones, and
/// no other way costs fewer losses. There is none only where there is no such way.
pub proof fn law_server_routes_are_cheapest(
    net: GraphView,
    source: NodeId,
    target: NodeId,
    channels: Option<Set<(NodeId, NodeId)>>,
    r: Option<Seq<NodeId>>,
)
    requires
        net.wf(),
        in_place(net),
        source != target,
        net.best_path_is(source, target, channels, r),
    ensures
        r is Some ==> net.placed(source) && net.placed(target) && exists|steps: Seq<Arc>|
            {
                &&& #[trigger] server_trip(
                    net,
                    channels,
                    steps,
                    net.index[source] as int,
                    net.index[target] as int,
                )
                &&& spells(r->0, steps, |i: int| net.nodes[i])
                &&& forall|other: Seq<Arc>| #[trigger]
                    server_trip(
                        net,
                        channels,
                        other,
                        net.index[source] as int,
                        net.index[target] as int,
                    ) ==> toll(steps) <= toll(other)
            },
        r is None && net.placed(source) && net.placed(target) ==> forall|other: Seq<Arc>| #[trigger]
            server_trip(
                net,
                channels,
                other,
                net.index[source] as int,
                net.index[target] as int,
            ) ==> toll(other) >= u64::MAX,
{
    let m = net.pruned(channels);
    let s = net.index[source] as int;
    let t = net.index[target] as int;
    law_server_searches_drop_dead_links(net, channels);
    if net.placed(source) && net.placed(target) {
        assert(net.nodes[s] == source && net.nodes[t] == target);
        let enter = enterable(m.drones(), s, t);
        match r {
            Some(ids) => {
                let p = choose|p: Seq<int>|
                    {
                        &&& #[trigger] least_cost(m.arcs(), enter, s, t, u64::MAX as int, p)
                        &&& clean_interior(m.drones(), s, t, p)
                        &&& p.no_duplicates()
                        &&& ids == m.ids_along(p)
                        &&& m.nodes.no_duplicates() ==> ids.no_duplicates()
                    };
                let steps = lemma_cheapest(m.arcs(), m.drones(), s, t, u64::MAX as int, p);
                lemma_server_trip(net, channels, steps, s, t);
                lemma_spelled(ids, p, steps, |i: int| net.nodes[i]);
                assert forall|other: Seq<Arc>| #[trigger]
                    server_trip(net, channels, other, s, t) implies toll(steps) <= toll(other) by {
                    lemma_server_trip(net, channels, other, s, t);
                }
            },
            None => {
                assert forall|other: Seq<Arc>| #[trigger]
                    server_trip(net, channels, other, s, t) implies toll(other) >= u64::MAX by {
                    lemma_server_trip(net, channels, other, s, t);
                    lemma_trip_walks(m.arcs(), m.drones(), other, s, t);
                }
            },
        }
    }
}

/// The step goes along an edge of a client's network whose ends share a channel, and costs
/// its losses, of which 32 bits count.
pub open spec fn client_step(
    net: NetView,
    channels: Option<Set<(NodeId, NodeId)>>,
    a: Arc,
) -> bool {
    exists|e: u32| #[trigger]
        net.edges.contains_key(e) && net.edges[e].0 == a.0 && net.edges[e].1 == a.1
            && (net.edges[e].2 as u32) == a.2 && share(
            channels,
            net.nodes[net.edges[e].0].id,
            net.nodes[net.edges[e].1].id,
        )
}

/// An index stands for a drone.
pub open spec fn drone_at(net: NetView, i: int) -> bool {
    exists|x: u32|
        x == i && #[trigger] net.nodes.contains_key(x) && net.nodes[x].node_type
            == NodeType::Drone
}

/// The steps lead from one index to another along edges whose ends share a channel, by way
/// of drones.
pub open spec fn client_trip(
    net: NetView,
    channels: Option<Set<(NodeId, NodeId)>>,
    steps: Seq<Arc>,
    s: int,
    t: int,
) -> bool {
    &&& leads_from_to(steps, s, t)
    &&& forall|k: int| 0 <= k < steps.len() ==> client_step(net, channels, #[trigger] steps[k])
    &&& forall|k: int|
        0 <= k < steps.len() - 1 ==> drone_at(net, (#[trigger] steps[k]).1) && steps[k].1 != s
}

proof fn lemma_client_trip(
    net: NetView,
    channels: Option<Set<(NodeId, NodeId)>>,
    steps: Seq<Arc>,
    s: int,
    t: int,
)
    ensures
        client_trip(net, channels, steps, s, t) <==> trip(
            steps,
            s,
            t,
            net.pruned(channels).drones(),
            net.pruned(channels).arcs(),
        ),
{
    let m = net.pruned(channels);
    assert forall|a: Arc| client_step(net, channels, a) <==> #[trigger] m.arcs().contains(a) by {
        if client_step(net, channels, a) {
            let e = choose|e: u32| #[trigger]
                net.edges.contains_key(e) && net.edges[e].0 == a.0 && net.edges[e].1 == a.1 && (
                net.edges[e].2 as u32) == a.2 && share(
                    channels,
                    net.nodes[net.edges[e].0].id,
                    net.nodes[net.edges[e].1].id,
                );
            assert(m.edges.contains_key(e));
        }
        if m.arcs().contains(a) {
            let e = choose|e: u32| #[trigger]
                m.edges.contains_key(e) && m.edges[e].0 == a.0 && m.edges[e].1 == a.1 && (
                m.edges[e].2 as u32) == a.2;
            assert(net.edges.contains_key(e));
        }
    }
    let arcs = m.arcs();
    let drones = m.drones();
    assert forall|i: int| drone_at(net, i) <==> #[trigger] drones.contains(i) by {}
    if client_trip(net, channels, steps, s, t) {
        assert forall|k: int| 0 <= k < steps.len() implies arcs.contains(#[trigger] steps[k]) by {
            assert(client_step(net, channels, steps[k]));
        }
        assert forall|k: int| 0 <= k < steps.len() - 1 implies drones.contains(
            (#[trigger] steps[k]).1,
        ) && steps[k].1 != s by {
            assert(drone_at(net, steps[k].1));
        }
    }
    if trip(steps, s, t, drones, arcs) {
        assert forall|k: int| 0 <= k < steps.len() implies client_step(
            net,
            channels,
            #[trigger] steps[k],
        ) by {
            assert(arcs.contains(steps[k]));
        }
        assert forall|k: int| 0 <= k < steps.len() - 1 implies drone_at(
            net,
            (#[trigger] steps[k]).1,
        ) && steps[k].1 != s by {
            assert(drones.contains(steps[k].1));
        }
    }
}

/// A route of a client goes along links whose ends share a channel, by way of drones, and
/// no other way costs fewer losses. There is none only where there is no such way.
pub proof fn law_client_routes_are_cheapest(
    net: NetView,
    source: NodeId,
    target: NodeId,
    channels: Option<Set<(NodeId, NodeId)>>,
    r: Option<Seq<NodeId>>,
)
    requires
        net.wf(),
        source != target,
        target != 0,
        net.index.contains_key(source),
        net.index.contains_key(target),
        net.best_path_is(source, target, channels, r),
    ensures
        r is Some ==> exists|steps: Seq<Arc>|
            {
                &&& #[trigger] client_trip(
                    net,
                    channels,
                    steps,
                    net.index[source] as int,
                    net.index[target] as int,
                )
                &&& spells(r->0, steps, |i: int| net.nodes[i as u32].id)
                &&& forall|other: Seq<Arc>| #[trigger]
                    client_trip(
                        net,
                        channels,
                        other,
                        net.index[source] as int,
                        net.index[target] as int,
                    ) ==> toll(steps) <= toll(other)
            },
        r is None ==> forall|other: Seq<Arc>| #[trigger]
            client_trip(
                net,
                channels,
                other,
                net.index[source] as int,
                net.index[target] as int,
            ) ==> toll(other) >= u32::MAX,
{
    let m = net.pruned(channels);
    let s = net.index[source] as int;
    let t = net.index[target] as int;
    assert(net.nodes[s as u32].id == source && net.nodes[t as u32].id == target);
    let enter = enterable(m.drones(), s, t);
    match r {
        Some(ids) => {
            let p = choose|p: Seq<int>|
                {
                    &&& #[trigger] least_cost(m.arcs(), enter, s, t, u32::MAX as int, p)
                    &&& clean_interior(m.drones(), s, t, p)
                    &&& p.no_duplicates()
                    &&& ids == m.ids_along(p)
                    &&& m.ids_differ() ==> ids.no_duplicates()
                };
            let steps = lemma_cheapest(m.arcs(), m.drones(), s, t, u32::MAX as int, p);
            lemma_client_trip(net, channels, steps, s, t);
            let name = |i: int| net.nodes[i as u32].id;
            assert(ids =~= p.map_values(name));
            lemma_spelled(ids, p, steps, name);
            assert forall|other: Seq<Arc>| #[trigger]
                client_trip(net, channels, other, s, t) implies toll(steps) <= toll(other) by {
                lemma_client_trip(net, channels, other, s, t);
            }
        },
        None => {
            assert forall|other: Seq<Arc>| #[trigger]
                client_trip(net, channels, other, s, t) implies toll(other) >= u32::MAX by {
                lemma_client_trip(net, channels, other, s, t);
                lemma_trip_walks(m.arcs(), m.drones(), other, s, t);
            }
        },
    }
}

/// Taking a link out of a mesh takes the link between two nodes and no other one.
pub proof fn law_meshes_lose_one_link(m: MeshView, a: u32, b: u32)
    requires
        m.wf(),
    ensures
        m.without_link(a, b).wf(),
        m.without_link(a, b).nodes == m.nodes,
        m.without_link(a, b).map == m.map,
        forall|e: (u32, u32, u8)| #[trigger]
            m.without_link(a, b).edges.contains(e) <==> m.edges.contains(e) && !((e.0 == a && e.1
                == b) || (e.0 == b && e.1 == a)),
{
    let r = m.without_link(a, b).edges;
    let edges = m.edges;
    if has_link(edges, a, b) {
        let p = link_pos(edges, a, b);
        assert(edge_between(edges, p, a, b));
        let last = edges.len() - 1;
        assert forall|i: int| 0 <= i < r.len() implies #[trigger] r[i] == (if i == p {
            edges[last]
        } else {
            edges[i]
        }) by {}
        assert forall|i: int, j: int|
            0 <= i < r.len() && 0 <= j < r.len() && (((#[trigger] r[i]).0 == (#[trigger] r[j]).0
                && r[i].1 == r[j].1) || (r[i].0 == r[j].1 && r[i].1 == r[j].0)) implies i == j by {
            let x = if i == p {
                last
            } else {
                i
            };
            let y = if j == p {
                last
            } else {
                j
            };
            assert(edges[x] == r[i] && edges[y] == r[j]);
        }
        assert forall|e: (u32, u32, u8)| #[trigger] r.contains(e) <==> edges.contains(e) && !((e.0
            == a && e.1 == b) || (e.0 == b && e.1 == a)) by {
            if r.contains(e) {
                let i = r.index_of(e);
                let x = if i == p {
                    last
                } else {
                    i
                };
                assert(edges[x] == e);
                assert(x != p);
                assert(edges[p].0 == a || edges[p].0 == b);
            }
            if edges.contains(e) && !((e.0 == a && e.1 == b) || (e.0 == b && e.1 == a)) {
                let x = edges.index_of(e);
                assert(x != p);
                if x == last {
                    assert(r[p] == e);
                } else {
                    assert(r[x] == e);
                }
            }
        }
    } else {
        assert forall|e: (u32, u32, u8)| #[trigger] edges.contains(e) implies !((e.0 == a && e.1
            == b) || (e.0 == b && e.1 == a)) by {
            let x = edges.index_of(e);
            assert(edges[x] == e);
            assert(edge_between(edges, x, a, b) || e.0 != a || e.1 != b);
            assert(!edge_between(edges, x, a, b));
        }
    }
}

/// The edge joins one of the pairs of indices.
pub open spec fn joins_one(list: Seq<(u32, u32)>, e: (u32, u32, u8)) -> bool {
    exists|l: int| 0 <= l < list.len() && joins_pair(#[trigger] list[l], e)
}

/// The edge joins a pair of indices, in either order.
pub open spec fn joins_pair(q: (u32, u32), e: (u32, u32, u8)) -> bool {
    (e.0 == q.0 && e.1 == q.1) || (e.0 == q.1 && e.1 == q.0)
}

proof fn lemma_mesh_links_out(m: MeshView, list: Seq<(u32, u32)>)
    requires
        m.wf(),
    ensures
        m.without_links(list).wf(),
        m.without_links(list).nodes == m.nodes,
        m.without_links(list).map == m.map,
        forall|e: (u32, u32, u8)| #[trigger]
            m.without_links(list).edges.contains(e) <==> m.edges.contains(e) && !joins_one(list, e),
    decreases list.len(),
{
    if list.len() > 0 {
        let init = list.drop_last();
        lemma_mesh_links_out(m, init);
        law_meshes_lose_one_link(m.without_links(init), list.last().0, list.last().1);
        assert forall|e: (u32, u32, u8)| joins_one(list, e) <==> joins_one(init, e) || joins_pair(
            list.last(),
            e,
        ) by {
            if joins_one(init, e) {
                let l = choose|l: int| 0 <= l < init.len() && joins_pair(#[trigger] init[l], e);
                assert(joins_pair(list[l], e));
            }
            if joins_pair(list.last(), e) {
                assert(joins_pair(list[list.len() - 1], e));
            }
            if joins_one(list, e) {
                let l = choose|l: int| 0 <= l < list.len() && joins_pair(#[trigger] list[l], e);
                if l < init.len() {
                    assert(joins_pair(init[l], e));
                }
            }
        }
    }
}

proof fn lemma_mesh_unshared(m: MeshView, c: Set<(NodeId, NodeId)>, n: int)
    requires
        m.wf(),
        0 <= n <= m.edges.len(),
    ensures
        forall|k: int|
            0 <= k < n && !share(
                Some(c),
                m.nodes[(#[trigger] m.edges[k]).0 as int],
                m.nodes[m.edges[k].1 as int],
            ) ==> m.unshared(c, n).contains((m.edges[k].0, m.edges[k].1)),
        forall|q: (u32, u32)| #[trigger]
            m.unshared(c, n).contains(q) ==> !share(
                Some(c),
                m.nodes[q.0 as int],
                m.nodes[q.1 as int],
            ),
    decreases n,
{
    if n > 0 {
        lemma_mesh_unshared(m, c, n - 1);
        let rest = m.unshared(c, n - 1);
        let e = m.edges[n - 1];
        let q = (e.0, e.1);
        let all = rest.push(q);
        assert(all[rest.len() as int] == q);
        assert forall|r: (u32, u32)| rest.contains(r) implies #[trigger] all.contains(r) by {
            let k = rest.index_of(r);
            assert(all[k] == r);
        }
        assert forall|r: (u32, u32)| #[trigger] all.contains(r) implies rest.contains(r) || r == q by {
            let k = all.index_of(r);
            assert(all[k] == r);
            if k < rest.len() {
                assert(rest[k] == r);
            }
        }
    }
}

/// A search in a mesh leaves exactly the links whose ends share a channel, with their costs;
/// nodes stay.
pub proof fn law_mesh_searches_drop_dead_links(
    m: MeshView,
    channels: Option<Set<(NodeId, NodeId)>>,
)
    requires
        m.wf(),
    ensures
        m.pruned(channels).wf(),
        m.pruned(channels).nodes == m.nodes,
        m.pruned(channels).map == m.map,
        forall|e: (u32, u32, u8)| #[trigger]
            m.pruned(channels).edges.contains(e) <==> m.edges.contains(e) && share(
                channels,
                m.nodes[e.0 as int],
                m.nodes[e.1 as int],
            ),
{
    if let Some(c) = channels {
        let list = m.unshared(c, m.edges.len() as int);
        lemma_mesh_unshared(m, c, m.edges.len() as int);
        lemma_mesh_links_out(m, list);
        assert forall|e: (u32, u32, u8)| m.edges.contains(e) implies (#[trigger] joins_one(list, e)
            <==> !share(channels, m.nodes[e.0 as int], m.nodes[e.1 as int])) by {
            let k = m.edges.index_of(e);
            assert(m.edges[k] == e);
            if joins_one(list, e) {
                let l = choose|l: int| 0 <= l < list.len() && joins_pair(#[trigger] list[l], e);
                assert(list.contains(list[l]));
            }
            if !share(channels, m.nodes[e.0 as int], m.nodes[e.1 as int]) {
                assert(list.contains((e.0, e.1)));
                let l = list.index_of((e.0, e.1));
                assert(joins_pair(list[l], e));
            }
        }
    }
}

/// The step goes along a link of a mesh whose ends share a channel, in either direction, and
/// costs what the link costs.
pub open spec fn mesh_step(m: MeshView, channels: Option<Set<(NodeId, NodeId)>>, a: Arc) -> bool {
    exists|e: int|
        0 <= e < m.edges.len() && (((#[trigger] m.edges[e]).0 == a.0 && m.edges[e].1 == a.1) || (
        m.edges[e].0 == a.1 && m.edges[e].1 == a.0)) && m.edges[e].2 == a.2 && share(
            channels,
            m.nodes[m.edges[e].0 as int],
            m.nodes[m.edges[e].1 as int],
        )
}

/// The index belongs to an id that is not that of a server.
pub open spec fn passable(m: MeshView, names: Map<u32, NodeId>, i: int) -> bool {
    &&& 0 <= i < m.nodes.len()
    &&& names.contains_key(i as u32)
    &&& m.map.contains_key(names[i as u32])
    &&& m.map[names[i as u32]].0 == i
    &&& m.map[names[i as u32]].1 != NodeType::Server
}

/// The steps lead from one index to another along links whose ends share a channel, and
/// pass no server.
pub open spec fn mesh_trip(
    m: MeshView,
    channels: Option<Set<(NodeId, NodeId)>>,
    names: Map<u32, NodeId>,
    steps: Seq<Arc>,
    s: int,
    t: int,
) -> bool {
    &&& leads_from_to(steps, s, t)
    &&& forall|k: int| 0 <= k < steps.len() ==> mesh_step(m, channels, #[trigger] steps[k])
    &&& forall|k: int|
        0 <= k < steps.len() - 1 ==> passable(m, names, (#[trigger] steps[k]).1) && steps[k].1 != s
}

proof fn lemma_mesh_trip(
    m: MeshView,
    channels: Option<Set<(NodeId, NodeId)>>,
    names: Map<u32, NodeId>,
    steps: Seq<Arc>,
    s: int,
    t: int,
    target: NodeId,
)
    requires
        m.wf(),
        m.naming(names, t as u32, target),
    ensures
        mesh_trip(m, channels, names, steps, s, t) <==> trip(
            steps,
            s,
            t,
            m.pruned(channels).relays(names),
            m.pruned(channels).arcs(),
        ),
{
    law_mesh_searches_drop_dead_links(m, channels);
    let w = m.pruned(channels);
    let arcs = w.arcs();
    let relays = w.relays(names);
    assert forall|a: Arc| mesh_step(m, channels, a) <==> #[trigger] arcs.contains(a) by {
        if mesh_step(m, channels, a) {
            let e = choose|e: int|
                0 <= e < m.edges.len() && (((#[trigger] m.edges[e]).0 == a.0 && m.edges[e].1 == a.1)
                    || (m.edges[e].0 == a.1 && m.edges[e].1 == a.0)) && m.edges[e].2 == a.2
                    && share(
                    channels,
                    m.nodes[m.edges[e].0 as int],
                    m.nodes[m.edges[e].1 as int],
                );
            assert(m.edges.contains(m.edges[e]));
            assert(w.edges.contains(m.edges[e]));
            let f = w.edges.index_of(m.edges[e]);
            assert(w.edges[f] == m.edges[e]);
            assert(joins(w.edges[f], a.0, a.1));
        }
        if arcs.contains(a) {
            let f = choose|f: int|
                0 <= f < w.edges.len() && #[trigger] joins(w.edges[f], a.0, a.1) && w.edges[f].2
                    == a.2;
            assert(w.edges.contains(w.edges[f]));
            let e = m.edges.index_of(w.edges[f]);
            assert(m.edges[e] == w.edges[f]);
        }
    }
    assert forall|i: int| passable(m, names, i) <==> #[trigger] relays.contains(i) by {
        assert(relays.contains(i) <==> w.is_relay(names, i));
    }
    if mesh_trip(m, channels, names, steps, s, t) {
        assert forall|k: int| 0 <= k < steps.len() implies arcs.contains(#[trigger] steps[k]) by {
            assert(mesh_step(m, channels, steps[k]));
        }
        assert forall|k: int| 0 <= k < steps.len() - 1 implies relays.contains(
            (#[trigger] steps[k]).1,
        ) && steps[k].1 != s by {
            assert(passable(m, names, steps[k].1));
        }
    }
    if trip(steps, s, t, relays, arcs) {
        assert forall|k: int| 0 <= k < steps.len() implies mesh_step(
            m,
            channels,
            #[trigger] steps[k],
        ) by {
            assert(arcs.contains(steps[k]));
        }
        assert forall|k: int| 0 <= k < steps.len() - 1 implies passable(
            m,
            names,
            (#[trigger] steps[k]).1,
        ) && steps[k].1 != s by {
            assert(relays.contains(steps[k].1));
        }
    }
}

/// `ids` name a way through a mesh, and no other way costs less. Each index goes by an id
/// that is known under it.
pub open spec fn cheapest_way(
    m: MeshView,
    channels: Option<Set<(NodeId, NodeId)>>,
    names: Map<u32, NodeId>,
    s: int,
    t: int,
    ids: Seq<NodeId>,
) -> bool {
    exists|steps: Seq<Arc>|
        {
            &&& #[trigger] mesh_trip(m, channels, names, steps, s, t)
            &&& spells(ids, steps, |i: int| names[i as u32])
            &&& forall|other: Seq<Arc>| #[trigger]
                mesh_trip(m, channels, names, other, s, t) ==> toll(steps) <= toll(other)
        }
}

/// `names` gives every index that an id is known under one of those ids.
pub open spec fn named(m: MeshView, names: Map<u32, NodeId>) -> bool {
    &&& forall|i: u32| #[trigger]
        names.contains_key(i) ==> m.map.contains_key(names[i]) && m.map[names[i]].0 == i
    &&& forall|id: NodeId| #[trigger]
        m.map.contains_key(id) && m.map[id].0 < m.nodes.len() ==> names.contains_key(m.map[id].0)
}

/// A route through a mesh goes along links whose ends share a channel, passes no server,
/// and no other way costs less. Where every index goes by some id, there is none only where
/// there is no such way.
pub proof fn law_mesh_routes_are_cheapest(
    m: MeshView,
    source: NodeId,
    target: NodeId,
    channels: Option<Set<(NodeId, NodeId)>>,
    r: Option<Seq<NodeId>>,
)
    requires
        m.wf(),
        target != 0,
        m.map.contains_key(source),
        m.map.contains_key(target),
        m.map[source].0 != m.map[target].0,
        m.map[source].0 < m.nodes.len(),
        m.map[target].0 < m.nodes.len(),
        m.best_path_is(source, target, channels, r),
    ensures
        exists|names: Map<u32, NodeId>|
            {
                let s = m.map[source].0 as int;
                let t = m.map[target].0 as int;
                &&& #[trigger] named(m, names)
                &&& names[t as u32] == target
                &&& r is Some ==> cheapest_way(m, channels, names, s, t, r->0)
                &&& r is None && (forall|i: int|
                    0 <= i < m.nodes.len() ==> names.contains_key(#[trigger] (i as u32)))
                    ==> forall|other: Seq<Arc>| #[trigger]
                    mesh_trip(m, channels, names, other, s, t) ==> toll(other) >= u32::MAX
            },
{
    let w = m.pruned(channels);
    law_mesh_searches_drop_dead_links(m, channels);
    let s = m.map[source].0 as int;
    let t = m.map[target].0 as int;
    let names = choose|names: Map<u32, NodeId>| #[trigger]
        w.naming(names, t as u32, target) && w.is_route(names, s, t, r);
    let relays = w.relays(names);
    let enter = enterable(relays, s, t);
    assert(named(m, names));
    let order = choose|order: Seq<int>|
        {
            &&& #[trigger] settled_before(w.arcs(), enter, s, t, u32::MAX as int, order)
            &&& match r {
                Some(ids) => !w.leads_to_nameless(names, order.to_set()) && exists|p: Seq<int>|
                    {
                        &&& #[trigger] least_cost(w.arcs(), enter, s, t, u32::MAX as int, p)
                        &&& clean_interior(w.relays(names), s, t, p)
                        &&& p.no_duplicates()
                        &&& ids == MeshView::names_along(names, p)
                        &&& ids.no_duplicates()
                    },
                None => unreachable_within(w.arcs(), enter, s, t, u32::MAX as int)
                    || w.leads_to_nameless(names, order.to_set()),
            }
        };
    match r {
        Some(ids) => {
            let p = choose|p: Seq<int>|
                {
                    &&& #[trigger] least_cost(w.arcs(), enter, s, t, u32::MAX as int, p)
                    &&& clean_interior(w.relays(names), s, t, p)
                    &&& p.no_duplicates()
                    &&& ids == MeshView::names_along(names, p)
                    &&& ids.no_duplicates()
                };
            let steps = lemma_cheapest(w.arcs(), relays, s, t, u32::MAX as int, p);
            lemma_mesh_trip(m, channels, names, steps, s, t, target);
            let name = |i: int| names[i as u32];
            assert(ids =~= p.map_values(name));
            lemma_spelled(ids, p, steps, name);
            assert forall|other: Seq<Arc>| #[trigger]
                mesh_trip(m, channels, names, other, s, t) implies toll(steps) <= toll(other) by {
                lemma_mesh_trip(m, channels, names, other, s, t, target);
            }
            assert(cheapest_way(m, channels, names, s, t, ids));
        },
        None => {
            if forall|i: int| 0 <= i < m.nodes.len() ==> names.contains_key(#[trigger] (i as u32)) {
                if w.leads_to_nameless(names, order.to_set()) {
                    let (u, e) = choose|u: int, e: int| #[trigger]
                        touches_nameless(w.edges, e, u, names) && order.to_set().contains(u);
                    assert(w.edges[e].0 < m.nodes.len() && w.edges[e].1 < m.nodes.len());
                    assert(names.contains_key((w.edges[e].0 as int) as u32));
                    assert(names.contains_key((w.edges[e].1 as int) as u32));
                }
                assert forall|other: Seq<Arc>| #[trigger]
                    mesh_trip(m, channels, names, other, s, t) implies toll(other) >= u32::MAX by {
                    lemma_mesh_trip(m, channels, names, other, s, t, target);
                    lemma_trip_walks(w.arcs(), relays, other, s, t);
                }
            }
        },
    }
}

}
