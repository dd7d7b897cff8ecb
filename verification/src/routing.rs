//! Least-cost routes over a network whose links carry a cost.
use vstd::prelude::*;

verus! {

/// A directed link: source index, target index, cost.
pub type Arc = (int, int, int);

/// `p` follows arcs of `arcs`, every node after the first one may be entered,
/// and the costs of the arcs taken add up to `cost`.
pub open spec fn walk(arcs: Set<Arc>, enter: Set<int>, p: Seq<int>, cost: int) -> bool
    decreases p.len(),
{
    if p.len() <= 1 {
        p.len() == 1 && cost == 0
    } else {
        &&& enter.contains(p.last())
        &&& exists|w: int|
            #![trigger arcs.contains((p[p.len() - 2], p.last(), w))]
            arcs.contains((p[p.len() - 2], p.last(), w)) && walk(
                arcs,
                enter,
                p.drop_last(),
                cost - w,
            )
    }
}

/// A walk from `s` to `t`.
pub open spec fn walk_between(
    arcs: Set<Arc>,
    enter: Set<int>,
    s: int,
    t: int,
    p: Seq<int>,
    cost: int,
) -> bool {
    walk(arcs, enter, p, cost) && p[0] == s && p.last() == t
}

/// `p` is a walk from `s` to `t` that costs less than `limit`, and no other walk
/// from `s` to `t` costs less than it does.
pub open spec fn least_cost(
    arcs: Set<Arc>,
    enter: Set<int>,
    s: int,
    t: int,
    limit: int,
    p: Seq<int>,
) -> bool {
    exists|cost: int|
        {
            &&& #[trigger] walk_between(arcs, enter, s, t, p, cost)
            &&& cost < limit
            &&& forall|q: Seq<int>, d: int|
                #[trigger] walk_between(arcs, enter, s, t, q, d) ==> cost <= d
        }
}

/// Every walk from `s` to `t` costs `limit` or more.
pub open spec fn unreachable_within(
    arcs: Set<Arc>,
    enter: Set<int>,
    s: int,
    t: int,
    limit: int,
) -> bool {
    forall|q: Seq<int>, d: int| #[trigger]
        walk_between(arcs, enter, s, t, q, d) ==> d >= limit
}

/// A walk from `s` by way of nodes of `by`, whatever its last node is.
pub open spec fn walk_by(
    arcs: Set<Arc>,
    enter: Set<int>,
    s: int,
    by: Set<int>,
    p: Seq<int>,
    cost: int,
) -> bool {
    &&& walk(arcs, enter, p, cost)
    &&& p[0] == s
    &&& forall|k: int| 0 <= k < p.len() - 1 ==> by.contains(#[trigger] p[k])
}

/// Among the nodes outside of `by`, none is nearer to `s` by way of `by` than `u` is,
/// and none with a smaller index is as near.
pub open spec fn nearest(
    arcs: Set<Arc>,
    enter: Set<int>,
    s: int,
    limit: int,
    by: Set<int>,
    u: int,
) -> bool {
    &&& !by.contains(u)
    &&& exists|p: Seq<int>, cost: int|
        {
            &&& #[trigger] walk_by(arcs, enter, s, by, p, cost)
            &&& p.last() == u
            &&& cost < limit
            &&& forall|q: Seq<int>, d: int| #[trigger]
                walk_by(arcs, enter, s, by, q, d) && !by.contains(q.last()) ==> cost < d || (cost
                    == d && u <= q.last())
        }
}

/// No node outside of `by` is within `limit` of `s` by way of `by`.
pub open spec fn none_near(arcs: Set<Arc>, enter: Set<int>, s: int, limit: int, by: Set<int>) -> bool {
    forall|q: Seq<int>, d: int| #[trigger]
        walk_by(arcs, enter, s, by, q, d) && !by.contains(q.last()) ==> d >= limit
}

/// Each node of `order` is the nearest one by way of those before it, and `t` is not
/// among them.
pub open spec fn settled_in_order(
    arcs: Set<Arc>,
    enter: Set<int>,
    s: int,
    t: int,
    limit: int,
    order: Seq<int>,
) -> bool {
    forall|k: int|
        0 <= k < order.len() ==> #[trigger] order[k] != t && nearest(
            arcs,
            enter,
            s,
            limit,
            order.take(k).to_set(),
            order[k],
        )
}

/// `order` holds the nodes that come before `t` in the order of their distance from
/// `s`, up to `t` or up to the last node within reach.
pub open spec fn settled_before(
    arcs: Set<Arc>,
    enter: Set<int>,
    s: int,
    t: int,
    limit: int,
    order: Seq<int>,
) -> bool {
    &&& settled_in_order(arcs, enter, s, t, limit, order)
    &&& nearest(arcs, enter, s, limit, order.to_set(), t) || none_near(
        arcs,
        enter,
        s,
        limit,
        order.to_set(),
    )
}

/// The nodes that a route from `s` to `t` may enter: the target, and every relay
/// but the source.
pub open spec fn enterable(relays: Set<int>, s: int, t: int) -> Set<int> {
    Set::new(|v: int| v == t || (v != s && relays.contains(v)))
}

/// The nodes between the two ends are relays, and neither end occurs among them.
pub open spec fn clean_interior(relays: Set<int>, s: int, t: int, p: Seq<int>) -> bool {
    forall|k: int|
        0 < k < p.len() - 1 ==> relays.contains(#[trigger] p[k]) && p[k] != s && p[k] != t
}

/// The arcs that an adjacency list holds: entry `u` lists the targets and costs
/// of the arcs that leave `u`.
pub open spec fn listed_arcs(adjacency: Seq<Vec<(usize, u64)>>) -> Set<Arc> {
    Set::new(
        |a: Arc|
            0 <= a.0 < adjacency.len() && exists|k: int|
                0 <= k < adjacency[a.0]@.len() && #[trigger] adjacency[a.0]@[k].0 == a.1
                    && adjacency[a.0]@[k].1 == a.2,
    )
}

/// The indices marked in `flags`.
pub open spec fn marked(flags: Seq<bool>) -> Set<int> {
    Set::new(|v: int| 0 <= v < flags.len() && flags[v])
}

/// Every target in the adjacency list is an index of the list.
pub open spec fn targets_within(adjacency: Seq<Vec<(usize, u64)>>) -> bool {
    forall|u: int, k: int|
        0 <= u < adjacency.len() && 0 <= k < adjacency[u]@.len() ==> (#[trigger] adjacency[u]@[k]).0
            < adjacency.len()
}

spec fn relaxed(arcs: Set<Arc>, enter: Set<int>, dist: Seq<u64>, u: int, limit: int) -> bool {
    forall|v: int, w: int|
        #[trigger] arcs.contains((u, v, w)) && enter.contains(v) && dist[u] + w < limit ==> dist[v]
            <= dist[u] + w
}

spec fn ways_hold(
    arcs: Set<Arc>,
    enter: Set<int>,
    s: int,
    limit: int,
    dist: Seq<u64>,
    pred: Seq<usize>,
    done: Seq<bool>,
    ways: Map<int, Seq<int>>,
) -> bool {
    forall|v: int|
        0 <= v < dist.len() && dist[v] < limit ==> {
            let way = #[trigger] ways[v];
            &&& walk(arcs, enter, way, dist[v] as int)
            &&& way[0] == s
            &&& way.last() == v
            &&& v != s ==> {
                &&& way.len() >= 2
                &&& pred[v] < dist.len()
                &&& done[pred[v] as int]
                &&& dist[pred[v] as int] < limit
                &&& ways[pred[v] as int] == way.drop_last()
            }
            &&& v == s ==> way.len() == 1
            &&& way.no_duplicates()
            &&& forall|k: int| 0 <= k < way.len() - 1 ==> 0 <= #[trigger] way[k] < dist.len() && done[way[k]]
            &&& forall|k: int| 0 < k < way.len() ==> enter.contains(#[trigger] way[k])
        }
}

/// A walk cheaper than every open node stays among the closed ones.
proof fn lemma_cheap_walk_is_closed(
    arcs: Set<Arc>,
    enter: Set<int>,
    s: int,
    limit: int,
    bound: int,
    dist: Seq<u64>,
    done: Seq<bool>,
    q: Seq<int>,
    d: int,
)
    requires
        0 <= s < dist.len(),
        done.len() == dist.len(),
        dist[s] == 0,
        bound <= limit,
        d < bound,
        walk(arcs, enter, q, d),
        q[0] == s,
        forall|a: Arc| #[trigger] arcs.contains(a) ==> 0 <= a.1 < dist.len() && 0 <= a.2,
        forall|u: int| 0 <= u < dist.len() && #[trigger] done[u] ==> relaxed(arcs, enter, dist, u, limit),
        forall|u: int| 0 <= u < dist.len() && !#[trigger] done[u] ==> dist[u] >= bound,
    ensures
        0 <= q.last() < dist.len(),
        done[q.last()],
        dist[q.last()] <= d,
    decreases q.len(),
{
    if q.len() > 1 {
        let n = q.len() as int;
        let w = choose|w: int|
            #![trigger arcs.contains((q[n - 2], q.last(), w))]
            arcs.contains((q[n - 2], q.last(), w)) && walk(arcs, enter, q.drop_last(), d - w);
        assert(arcs.contains((q[n - 2], q.last(), w)));
        let r = q.drop_last();
        assert(r[0] == s);
        assert(r.last() == q[n - 2]);
        lemma_cheap_walk_is_closed(arcs, enter, s, limit, bound, dist, done, r, d - w);
        assert(relaxed(arcs, enter, dist, r.last(), limit));
        assert(dist[q.last()] <= dist[r.last()] + w);
    } else {
        assert(q.last() == s);
    }
}

/// The distance of a node is no more than the cost of a walk to it by way of closed nodes.
proof fn lemma_walk_by_closed(
    arcs: Set<Arc>,
    enter: Set<int>,
    s: int,
    limit: int,
    dist: Seq<u64>,
    done: Seq<bool>,
    closed: Set<int>,
    q: Seq<int>,
    d: int,
)
    requires
        0 <= s < dist.len(),
        done.len() == dist.len(),
        dist[s] == 0,
        d < limit,
        walk_by(arcs, enter, s, closed, q, d),
        forall|v: int| #[trigger] closed.contains(v) ==> 0 <= v < dist.len() && done[v],
        forall|a: Arc| #[trigger] arcs.contains(a) ==> 0 <= a.1 < dist.len() && 0 <= a.2,
        forall|u: int| 0 <= u < dist.len() && #[trigger] done[u] ==> relaxed(arcs, enter, dist, u, limit),
    ensures
        0 <= q.last() < dist.len(),
        dist[q.last()] <= d,
    decreases q.len(),
{
    if q.len() > 1 {
        let n = q.len() as int;
        let w = choose|w: int|
            #![trigger arcs.contains((q[n - 2], q.last(), w))]
            arcs.contains((q[n - 2], q.last(), w)) && walk(arcs, enter, q.drop_last(), d - w);
        assert(arcs.contains((q[n - 2], q.last(), w)));
        let r = q.drop_last();
        assert(r.last() == q[n - 2]);
        assert(closed.contains(q[n - 2]));
        assert forall|k: int| 0 <= k < r.len() - 1 implies closed.contains(#[trigger] r[k]) by {
            assert(r[k] == q[k]);
        }
        lemma_walk_by_closed(arcs, enter, s, limit, dist, done, closed, r, d - w);
        assert(relaxed(arcs, enter, dist, r.last(), limit));
    } else {
        assert(q.last() == s);
    }
}

/// Index of an open node of least distance below `limit`, the smallest one among
/// equals.
fn nearest_open(dist: &Vec<u64>, done: &Vec<bool>, limit: u64) -> (r: Option<usize>)
    requires
        dist@.len() == done@.len(),
    ensures
        match r {
            Some(u) => {
                &&& u < dist@.len()
                &&& !done@[u as int]
                &&& dist@[u as int] < limit
                &&& forall|v: int| 0 <= v < dist@.len() && !#[trigger] done@[v] ==> dist@[u as int] <= dist@[v]
                &&& forall|v: int| 0 <= v < u && !#[trigger] done@[v] ==> dist@[u as int] < dist@[v]
            },
            None => forall|v: int| 0 <= v < dist@.len() && !#[trigger] done@[v] ==> dist@[v] >= limit,
        },
{
    let mut best: Option<usize> = None;
    let mut i: usize = 0;
    while i < dist.len()
        invariant
            dist@.len() == done@.len(),
            i <= dist@.len(),
            match best {
                Some(u) => {
                    &&& u < i
                    &&& !done@[u as int]
                    &&& dist@[u as int] < limit
                    &&& forall|v: int| 0 <= v < i && !#[trigger] done@[v] ==> dist@[u as int] <= dist@[v]
                    &&& forall|v: int| 0 <= v < u && !#[trigger] done@[v] ==> dist@[u as int] < dist@[v]
                },
                None => forall|v: int| 0 <= v < i && !#[trigger] done@[v] ==> dist@[v] >= limit,
            },
        decreases dist@.len() - i,
    {
        if !done[i] && dist[i] < limit {
            match best {
                Some(u) => {
                    if dist[i] < dist[u] {
                        best = Some(i);
                    }
                },
                None => {
                    best = Some(i);
                },
            }
        }
        i = i + 1;
    }
    best
}

/// Least-cost route from `s` to `t` that passes through relays only.
pub fn shortest_route(
    adjacency: &Vec<Vec<(usize, u64)>>,
    relays: &Vec<bool>,
    s: usize,
    t: usize,
    limit: u64,
) -> (r: Option<Vec<usize>>)
    requires
        s < adjacency@.len(),
        t < adjacency@.len(),
        relays@.len() == adjacency@.len(),
        targets_within(adjacency@),
        limit > 0,
    ensures
        is_shortest(adjacency@, relays@, s, t, limit, r),
{
    let (r, _): (Option<Vec<usize>>, Vec<bool>) = settle_route(adjacency, relays, s, t, limit);
    r
}

/// `r` is a least-cost route from `s` to `t` that passes through relays only and no
/// node twice, or there is none that costs less than `limit`.
pub open spec fn is_shortest(
    adjacency: Seq<Vec<(usize, u64)>>,
    relays: Seq<bool>,
    s: usize,
    t: usize,
    limit: u64,
    r: Option<Vec<usize>>,
) -> bool {
    match r {
        Some(p) => {
            let q = p@.map_values(|i: usize| i as int);
            &&& least_cost(
                listed_arcs(adjacency),
                enterable(marked(relays), s as int, t as int),
                s as int,
                t as int,
                limit as int,
                q,
            )
            &&& clean_interior(marked(relays), s as int, t as int, q)
            &&& q.no_duplicates()
            &&& forall|k: int| 0 <= k < p@.len() ==> #[trigger] p@[k] < adjacency.len()
            &&& s == t ==> p@ == seq![s]
            &&& s != t ==> p@.len() >= 2
        },
        None => unreachable_within(
            listed_arcs(adjacency),
            enterable(marked(relays), s as int, t as int),
            s as int,
            t as int,
            limit as int,
        ),
    }
}

/// Least-cost route from `s` to `t` that passes through relays only, with the
/// nodes that were settled before `t`.
///
/// The route is found by settling nodes in order of their distance from `s`,
/// nodes at equal distance in order of their index.
pub fn settle_route(
    adjacency: &Vec<Vec<(usize, u64)>>,
    relays: &Vec<bool>,
    s: usize,
    t: usize,
    limit: u64,
) -> (r: (Option<Vec<usize>>, Vec<bool>))
    requires
        s < adjacency@.len(),
        t < adjacency@.len(),
        relays@.len() == adjacency@.len(),
        targets_within(adjacency@),
        limit > 0,
    ensures
        is_shortest(adjacency@, relays@, s, t, limit, r.0),
        r.1@.len() == adjacency@.len(),
        exists|order: Seq<int>|
            {
                &&& #[trigger] settled_before(
                    listed_arcs(adjacency@),
                    enterable(marked(relays@), s as int, t as int),
                    s as int,
                    t as int,
                    limit as int,
                    order,
                )
                &&& marked(r.1@) == order.to_set()
            },
{
    let n: usize = adjacency.len();
    let ghost arcs = listed_arcs(adjacency@);
    let ghost enter = enterable(marked(relays@), s as int, t as int);
    let mut dist: Vec<u64> = vec![limit; n];
    let mut pred: Vec<usize> = vec![0; n];
    let mut done: Vec<bool> = vec![false; n];
    dist.set(s, 0);
    let ghost mut ways: Map<int, Seq<int>> = Map::new(|v: int| v == s, |v: int| seq![s as int]);
    let ghost mut closed: Set<int> = Set::empty();
    let ghost mut order: Seq<int> = Seq::empty();
    proof {
        assert(order.to_set() =~= closed);
        assert(walk(arcs, enter, ways[s as int], 0));
    }
    loop
        invariant
            n == adjacency@.len(),
            arcs == listed_arcs(adjacency@),
            enter == enterable(marked(relays@), s as int, t as int),
            s < n,
            t < n,
            limit > 0,
            relays@.len() == n,
            targets_within(adjacency@),
            dist@.len() == n,
            pred@.len() == n,
            done@.len() == n,
            dist@[s as int] == 0,
            !done@[t as int],
            forall|v: int| 0 <= v < n ==> #[trigger] dist@[v] <= limit,
            forall|u: int|
                0 <= u < n && #[trigger] done@[u] ==> relaxed(arcs, enter, dist@, u, limit as int),
            forall|u: int, v: int|
                0 <= u < n && 0 <= v < n && #[trigger] done@[u] && !#[trigger] done@[v] ==> dist@[u]
                    <= dist@[v],
            forall|u: int| 0 <= u < n && #[trigger] done@[u] ==> dist@[u] < limit,
            ways_hold(arcs, enter, s as int, limit as int, dist@, pred@, done@, ways),
            forall|v: int| #[trigger] closed.contains(v) <==> 0 <= v < n && done@[v],
            closed.finite(),
            order.to_set() == closed,
            settled_in_order(arcs, enter, s as int, t as int, limit as int, order),
        decreases n - closed.len(),
    {
        proof {
            lemma_listed_arcs_bounds(adjacency@);
        }
        match nearest_open(&dist, &done, limit) {
            None => {
                proof {
                    assert forall|q: Seq<int>, d: int| #[trigger]
                        walk_between(arcs, enter, s as int, t as int, q, d) implies d >= limit by {
                        if d < limit {
                            lemma_cheap_walk_is_closed(
                                arcs,
                                enter,
                                s as int,
                                limit as int,
                                limit as int,
                                dist@,
                                done@,
                                q,
                                d,
                            );
                        }
                    }
                }
                proof {
                    assert forall|q: Seq<int>, d: int| #[trigger]
                        walk_by(arcs, enter, s as int, closed, q, d) && !closed.contains(
                            q.last(),
                        ) implies d >= limit by {
                        if d < limit {
                            lemma_walk_by_closed(
                                arcs,
                                enter,
                                s as int,
                                limit as int,
                                dist@,
                                done@,
                                closed,
                                q,
                                d,
                            );
                        }
                    }
                    assert(none_near(arcs, enter, s as int, limit as int, closed));
                    assert(marked(done@) =~= closed);
                    assert(settled_before(
                        arcs,
                        enter,
                        s as int,
                        t as int,
                        limit as int,
                        order,
                    ));
                }
                return (None, done);
            },
            Some(u) => {
                proof {
                    let way = ways[u as int];
                    assert(walk_by(arcs, enter, s as int, closed, way, dist@[u as int] as int));
                    assert forall|q: Seq<int>, d: int| #[trigger]
                        walk_by(arcs, enter, s as int, closed, q, d) && !closed.contains(
                            q.last(),
                        ) implies dist@[u as int] < d || (dist@[u as int] == d && u <= q.last()) by {
                        if d < limit {
                            lemma_walk_by_closed(
                                arcs,
                                enter,
                                s as int,
                                limit as int,
                                dist@,
                                done@,
                                closed,
                                q,
                                d,
                            );
                            assert(!done@[q.last()]);
                        }
                    }
                    assert(nearest(arcs, enter, s as int, limit as int, closed, u as int));
                }
                if u == t {
                    proof {
                        assert forall|q: Seq<int>, d: int| #[trigger]
                            walk_between(arcs, enter, s as int, t as int, q, d) implies dist@[t as int]
                            <= d by {
                            if d < dist@[t as int] {
                                lemma_cheap_walk_is_closed(
                                    arcs,
                                    enter,
                                    s as int,
                                    limit as int,
                                    dist@[t as int] as int,
                                    dist@,
                                    done@,
                                    q,
                                    d,
                                );
                            }
                        }
                        assert(walk_between(
                            arcs,
                            enter,
                            s as int,
                            t as int,
                            ways[t as int],
                            dist@[t as int] as int,
                        ));
                        assert(least_cost(
                            arcs,
                            enter,
                            s as int,
                            t as int,
                            limit as int,
                            ways[t as int],
                        ));
                    }
                    let p: Vec<usize> = trace_back(
                        &pred,
                        s,
                        t,
                        Ghost(arcs),
                        Ghost(enter),
                        Ghost(limit as int),
                        Ghost(dist@),
                        Ghost(done@),
                        Ghost(ways),
                    );
                    proof {
                        let q = p@.map_values(|i: usize| i as int);
                        assert forall|k: int| 0 < k < q.len() - 1 implies marked(relays@).contains(
                            #[trigger] q[k],
                        ) && q[k] != s && q[k] != t by {
                            assert(enter.contains(ways[t as int][k]));
                            assert(done@[ways[t as int][k]]);
                        }
                        assert forall|k: int| 0 <= k < p@.len() implies #[trigger] p@[k]
                            < adjacency@.len() by {
                            assert(q[k] == p@[k]);
                            if k < q.len() - 1 {
                                assert(0 <= ways[t as int][k] < dist@.len());
                            }
                        }
                        if s == t {
                            assert(p@[0] == q[0]);
                            assert(p@ =~= seq![s]);
                        }
                    }
                    proof {
                        assert(marked(done@) =~= closed);
                        assert(settled_before(
                            arcs,
                            enter,
                            s as int,
                            t as int,
                            limit as int,
                            order,
                        ));
                    }
                    return (Some(p), done);
                }
                proof {
                    assert(relaxed_upto(arcs, enter, adjacency@[u as int]@, dist@, u as int, limit as int, 0));
                }
                done.set(u, true);
                let room: u64 = limit - dist[u];
                let mut k: usize = 0;
                while k < adjacency[u].len()
                    invariant
                        n == adjacency@.len(),
                        arcs == listed_arcs(adjacency@),
                        enter == enterable(marked(relays@), s as int, t as int),
                        s < n,
                        t < n,
                        u < n,
                        u != t,
                        relays@.len() == n,
                        targets_within(adjacency@),
                        dist@.len() == n,
                        pred@.len() == n,
                        done@.len() == n,
                        dist@[s as int] == 0,
                        !done@[t as int],
                        done@[u as int],
                        room == limit - dist@[u as int],
                        k <= adjacency@[u as int]@.len(),
                        forall|v: int| 0 <= v < n ==> #[trigger] dist@[v] <= limit,
                        forall|x: int|
                            0 <= x < n && x != u && #[trigger] done@[x] ==> relaxed(
                                arcs,
                                enter,
                                dist@,
                                x,
                                limit as int,
                            ),
                        relaxed_upto(
                            arcs,
                            enter,
                            adjacency@[u as int]@,
                            dist@,
                            u as int,
                            limit as int,
                            k as int,
                        ),
                        forall|x: int, v: int|
                            0 <= x < n && 0 <= v < n && #[trigger] done@[x] && !#[trigger] done@[v]
                                ==> dist@[x] <= dist@[v],
                        forall|x: int| 0 <= x < n && #[trigger] done@[x] ==> dist@[x] <= dist@[u as int],
                        forall|x: int| 0 <= x < n && #[trigger] done@[x] ==> dist@[x] < limit,
                        ways_hold(arcs, enter, s as int, limit as int, dist@, pred@, done@, ways),
                    decreases adjacency@[u as int]@.len() - k,
                {
                    let (v, w): (usize, u64) = adjacency[u][k];
                    proof {
                        assert(adjacency@[u as int]@[k as int].0 < adjacency@.len());
                        lemma_listed_arc(adjacency@, u as int, k as int);
                    }
                    let usable: bool = v == t || (v != s && relays[v]);
                    if usable && w < room {
                        let alt: u64 = dist[u] + w;
                        if alt < dist[v] {
                            let ghost before = (dist@, pred@, ways);
                            proof {
                                let way = ways[u as int].push(v as int);
                                assert(way.drop_last() =~= ways[u as int]);
                                assert(way.last() == v);
                                assert(way[way.len() - 2] == u);
                                assert(enter.contains(v as int));
                                assert(walk(arcs, enter, way, alt as int)) by {
                                    assert(arcs.contains((way[way.len() - 2], way.last(), w as int)));
                                    assert(walk(arcs, enter, way.drop_last(), alt - w));
                                }
                                ways = ways.insert(v as int, way);
                                assert forall|j: int| 0 <= j < way.len() - 1 implies 0
                                    <= #[trigger] way[j] < dist@.len() && done@[way[j]] by {
                                    if j < way.len() - 2 {
                                        assert(way[j] == before.2[u as int][j]);
                                    }
                                }
                                assert forall|j: int| 0 < j < way.len() implies enter.contains(
                                    #[trigger] way[j],
                                ) by {
                                    if j < way.len() - 1 {
                                        assert(way[j] == before.2[u as int][j]);
                                    }
                                }
                            }
                            dist.set(v, alt);
                            pred.set(v, u);
                            proof {
                                lemma_ways_extended(
                                    arcs,
                                    enter,
                                    s as int,
                                    limit as int,
                                    before.0,
                                    before.1,
                                    done@,
                                    before.2,
                                    u as int,
                                    v as int,
                                    alt,
                                );
                                assert(dist@ =~= before.0.update(v as int, alt));
                            }
                        }
                    }
                    k = k + 1;
                }
                proof {
                    assert(relaxed(arcs, enter, dist@, u as int, limit as int)) by {
                        assert forall|v: int, w: int| #[trigger]
                            arcs.contains((u as int, v, w)) && enter.contains(v) && dist@[u as int] + w
                                < limit implies dist@[v] <= dist@[u as int] + w by {
                            let j = choose|j: int|
                                0 <= j < adjacency@[u as int]@.len()
                                    && #[trigger] adjacency@[u as int]@[j].0 == v
                                    && adjacency@[u as int]@[j].1 == w;
                            assert(adjacency@[u as int]@[j].0 == v);
                        }
                    }
                }
                proof {
                    let grown = closed.insert(u as int);
                    let longer = order.push(u as int);
                    assert forall|k: int| 0 <= k < longer.len() implies #[trigger] longer[k] != t
                        && nearest(
                        arcs,
                        enter,
                        s as int,
                        limit as int,
                        longer.take(k).to_set(),
                        longer[k],
                    ) by {
                        assert(longer.take(k) =~= order.take(k));
                        if k < order.len() {
                            assert(longer[k] == order[k]);
                        } else {
                            assert(order.take(k) =~= order);
                        }
                    }
                    assert(longer.to_set() =~= grown) by {
                        assert forall|x: int| longer.contains(x) <==> order.contains(x) || x == u by {
                            if order.contains(x) {
                                assert(longer[order.index_of(x)] == x);
                            }
                            assert(longer[order.len() as int] == u);
                        }
                        assert forall|x: int| order.contains(x) <==> closed.contains(x) by {
                            assert(order.to_set().contains(x) <==> order.contains(x));
                        }
                    }
                    order = longer;
                    assert(grown.subset_of(vstd::set_lib::set_int_range(0, n as int)));
                    vstd::set_lib::lemma_int_range(0, n as int);
                    vstd::set_lib::lemma_len_subset(
                        grown,
                        vstd::set_lib::set_int_range(0, n as int),
                    );
                    closed = grown;
                }
            },
        }
    }
}

proof fn lemma_listed_arc(adjacency: Seq<Vec<(usize, u64)>>, u: int, k: int)
    requires
        0 <= u < adjacency.len(),
        0 <= k < adjacency[u]@.len(),
    ensures
        listed_arcs(adjacency).contains(
            (u, adjacency[u]@[k].0 as int, adjacency[u]@[k].1 as int),
        ),
{
    let a: Arc = (u, adjacency[u]@[k].0 as int, adjacency[u]@[k].1 as int);
    assert(adjacency[a.0]@[k].0 == a.1 && adjacency[a.0]@[k].1 == a.2);
}

proof fn lemma_listed_arcs_bounds(adjacency: Seq<Vec<(usize, u64)>>)
    requires
        targets_within(adjacency),
    ensures
        forall|a: Arc| #[trigger]
            listed_arcs(adjacency).contains(a) ==> 0 <= a.0 < adjacency.len() && 0 <= a.1
                < adjacency.len() && 0 <= a.2,
{
    assert forall|a: Arc| #[trigger] listed_arcs(adjacency).contains(a) implies 0 <= a.0
        < adjacency.len() && 0 <= a.1 < adjacency.len() && 0 <= a.2 by {
        let k = choose|k: int|
            0 <= k < adjacency[a.0]@.len() && #[trigger] adjacency[a.0]@[k].0 == a.1
                && adjacency[a.0]@[k].1 == a.2;
        assert(adjacency[a.0]@[k].0 < adjacency.len());
    }
}

/// The first `count` arcs that leave `u` have been taken into account.
spec fn relaxed_upto(
    arcs: Set<Arc>,
    enter: Set<int>,
    list: Seq<(usize, u64)>,
    dist: Seq<u64>,
    u: int,
    limit: int,
    count: int,
) -> bool {
    forall|j: int|
        0 <= j < count && enter.contains((#[trigger] list[j]).0 as int) && dist[u] + list[j].1 < limit
            ==> dist[list[j].0 as int] <= dist[u] + list[j].1
}

proof fn lemma_ways_extended(
    arcs: Set<Arc>,
    enter: Set<int>,
    s: int,
    limit: int,
    dist: Seq<u64>,
    pred: Seq<usize>,
    done: Seq<bool>,
    ways: Map<int, Seq<int>>,
    u: int,
    v: int,
    alt: u64,
)
    requires
        ways_hold(arcs, enter, s, limit, dist, pred, done, ways),
        dist.len() == pred.len() == done.len(),
        dist.len() <= usize::MAX,
        0 <= u < dist.len(),
        0 <= v < dist.len(),
        done[u],
        !done[v],
        v != s,
        dist[u] < limit,
        alt < limit,
        walk(arcs, enter, ways[u].push(v), alt as int),
        enter.contains(v),
        forall|x: int| 0 <= x < done.len() && #[trigger] done[x] ==> dist[x] < limit,
    ensures
        ways_hold(
            arcs,
            enter,
            s,
            limit,
            dist.update(v, alt),
            pred.update(v, u as usize),
            done,
            ways.insert(v, ways[u].push(v)),
        ),
{
    let dist2 = dist.update(v, alt);
    let pred2 = pred.update(v, u as usize);
    let ways2 = ways.insert(v, ways[u].push(v));
    assert forall|x: int| 0 <= x < dist2.len() && dist2[x] < limit implies {
        let way = #[trigger] ways2[x];
        &&& walk(arcs, enter, way, dist2[x] as int)
        &&& way[0] == s
        &&& way.last() == x
        &&& x != s ==> {
            &&& way.len() >= 2
            &&& pred2[x] < dist2.len()
            &&& done[pred2[x] as int]
            &&& dist2[pred2[x] as int] < limit
            &&& ways2[pred2[x] as int] == way.drop_last()
        }
        &&& x == s ==> way.len() == 1
        &&& way.no_duplicates()
        &&& forall|k: int|
            0 <= k < way.len() - 1 ==> 0 <= #[trigger] way[k] < dist2.len() && done[way[k]]
        &&& forall|k: int| 0 < k < way.len() ==> enter.contains(#[trigger] way[k])
    } by {
        if x == v {
            let way = ways[u].push(v);
            assert(ways2[x] == way);
            assert(way.drop_last() =~= ways[u]);
            assert(ways2[u] == ways[u]);
            assert forall|k: int| 0 <= k < way.len() - 1 implies 0 <= #[trigger] way[k] < dist2.len()
                && done[way[k]] by {
                if k < way.len() - 2 {
                    assert(way[k] == ways[u][k]);
                }
            }
            assert forall|k: int| 0 < k < way.len() implies enter.contains(#[trigger] way[k]) by {
                if k < way.len() - 1 {
                    assert(way[k] == ways[u][k]);
                }
            }
            assert forall|j: int, k: int| 0 <= j < k < way.len() implies way[j] != way[k] by {
                assert(done[way[j]]);
                if k < way.len() - 1 {
                    assert(way[j] == ways[u][j] && way[k] == ways[u][k]);
                }
            }
        } else {
            assert(ways2[x] == ways[x]);
            if x != s {
                assert(pred2[x] == pred[x]);
                assert(pred[x] != v);
                assert(ways2[pred[x] as int] == ways[pred[x] as int]);
            }
        }
    }
}

/// Collects the route to `t` from the predecessor of each node.
fn trace_back(
    pred: &Vec<usize>,
    s: usize,
    t: usize,
    Ghost(arcs): Ghost<Set<Arc>>,
    Ghost(enter): Ghost<Set<int>>,
    Ghost(limit): Ghost<int>,
    Ghost(dist): Ghost<Seq<u64>>,
    Ghost(done): Ghost<Seq<bool>>,
    Ghost(ways): Ghost<Map<int, Seq<int>>>,
) -> (p: Vec<usize>)
    requires
        s < pred@.len(),
        t < pred@.len(),
        dist.len() == pred@.len(),
        done.len() == pred@.len(),
        dist[t as int] < limit,
        dist[s as int] < limit,
        ways_hold(arcs, enter, s as int, limit, dist, pred@, done, ways),
    ensures
        p@.map_values(|i: usize| i as int) == ways[t as int],
{
    let mut backwards: Vec<usize> = Vec::new();
    let mut current: usize = t;
    let ghost whole = ways[t as int];
    backwards.push(t);
    while current != s
        invariant
            s < pred@.len(),
            t < pred@.len(),
            current < pred@.len(),
            dist.len() == pred@.len(),
            done.len() == pred@.len(),
            dist[current as int] < limit,
            dist[t as int] < limit,
            ways_hold(arcs, enter, s as int, limit, dist, pred@, done, ways),
            whole == ways[t as int],
            1 <= backwards@.len() <= whole.len(),
            ways[current as int] == whole.subrange(0, whole.len() - backwards@.len() + 1),
            forall|j: int|
                0 <= j < backwards@.len() ==> #[trigger] backwards@[j] == whole[whole.len() - 1 - j],
        decreases ways[current as int].len(),
    {
        let before: usize = pred[current];
        proof {
            let way = ways[current as int];
            assert(ways[before as int] == way.drop_last());
            assert(ways[before as int].last() == before);
            assert(way.drop_last() =~= whole.subrange(0, whole.len() - backwards@.len()));
            assert(ways[before as int].last() == whole[whole.len() - 1 - backwards@.len()]);
        }
        current = before;
        backwards.push(before);
    }
    proof {
        assert(ways[s as int].len() == 1);
        assert(backwards@.len() == whole.len());
    }
    let p: Vec<usize> = reversed(&backwards);
    assert(p@.map_values(|i: usize| i as int) =~= whole);
    p
}

fn reversed(v: &Vec<usize>) -> (r: Vec<usize>)
    ensures
        r@ == v@.reverse(),
{
    let mut r: Vec<usize> = Vec::new();
    let mut i: usize = v.len();
    while i > 0
        invariant
            i <= v@.len(),
            r@.len() == v@.len() - i,
            forall|j: int| 0 <= j < r@.len() ==> #[trigger] r@[j] == v@[v@.len() - 1 - j],
        decreases i,
    {
        i = i - 1;
        r.push(v[i]);
    }
    assert(r@ =~= v@.reverse());
    r
}

}
