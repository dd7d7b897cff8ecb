//! Which changes of a network the controller allows.
use crate::adjacency::{ids_where, is_way, leads, lemma_ids_where, Links};
use crate::config::{entry_ids, lemma_first_index, ConfigView, EntryView};
use crate::control_laws::{leads_to, lemma_listed, listed, listed_with};
use crate::packet::{NodeId, NodeType};
use crate::reach::ID_COUNT;
use crate::sc_backend::{
    drone_of, drone_rows, host_rows, linked_back, network_links, step_within, ControllerView,
};
use crate::topology::how_many;
use vstd::prelude::*;

verus! {

/// A node is in the network and not left out.
pub open spec fn there(g: Links, without: Option<NodeId>, x: NodeId) -> bool {
    Some(x) != without && g.contains_key(x)
}

/// A link leads from place `i` of a path to a node at the next place that is there. Where
/// there is an aim, that node is the aim or a drone.
pub open spec fn hop(
    c: ConfigView,
    g: Links,
    aim: Option<NodeId>,
    without: Option<NodeId>,
    p: Seq<NodeId>,
    i: int,
) -> bool {
    &&& leads_to(g, p[i], p[i + 1])
    &&& there(g, without, p[i + 1])
    &&& aim is None || aim == Some(p[i + 1]) || listed(c.drone, p[i + 1])
}

/// Links lead along a path from `a` to `b`.
pub open spec fn path(
    c: ConfigView,
    g: Links,
    aim: Option<NodeId>,
    without: Option<NodeId>,
    p: Seq<NodeId>,
    a: NodeId,
    b: NodeId,
) -> bool {
    &&& p.len() > 0
    &&& p[0] == a
    &&& p.last() == b
    &&& forall|i: int| 0 <= i < p.len() - 1 ==> #[trigger] hop(c, g, aim, without, p, i)
}

/// Links lead from `a` to `b`.
pub open spec fn connects(
    c: ConfigView,
    g: Links,
    aim: Option<NodeId>,
    without: Option<NodeId>,
    a: NodeId,
    b: NodeId,
) -> bool {
    exists|p: Seq<NodeId>| #[trigger] path(c, g, aim, without, p, a, b)
}

proof fn lemma_connects(
    c: ConfigView,
    g: Links,
    aim: Option<NodeId>,
    without: Option<NodeId>,
    a: NodeId,
    b: NodeId,
)
    ensures
        connects(c, g, aim, without, a, b) <==> leads(step_within(c, g, aim, without), a, b),
{
    let step = step_within(c, g, aim, without);
    assert forall|p: Seq<NodeId>, i: int| #[trigger] hop(c, g, aim, without, p, i) <==> step(
        p[i],
        p[i + 1],
    ) by {
        lemma_listed(c.drone, p[i + 1]);
    }
    if leads(step, a, b) {
        let p = choose|p: Seq<NodeId>| #[trigger]
            is_way(step, p) && p.len() > 0 && p[0] == a && p.last() == b;
        assert forall|i: int| 0 <= i < p.len() - 1 implies #[trigger] hop(
            c,
            g,
            aim,
            without,
            p,
            i,
        ) by {
            assert(step(p[i], p[i + 1]));
        }
        assert(path(c, g, aim, without, p, a, b));
    }
    if connects(c, g, aim, without, a, b) {
        let p = choose|p: Seq<NodeId>| #[trigger] path(c, g, aim, without, p, a, b);
        assert forall|i: int| 0 <= i < p.len() - 1 implies step(#[trigger] p[i], p[i + 1]) by {
            assert(hop(c, g, aim, without, p, i));
        }
        assert(is_way(step, p));
    }
}

/// A server has links to two drones that are in the network.
pub open spec fn two_drones(c: ConfigView, g: Links, s: NodeId) -> bool {
    exists|x: NodeId, y: NodeId|
        x != y && #[trigger] served_by(c, g, s, x) && #[trigger] served_by(c, g, s, y)
}

/// A node has a link to a drone that is in the network.
pub open spec fn served_by(c: ConfigView, g: Links, s: NodeId, x: NodeId) -> bool {
    leads_to(g, s, x) && g.contains_key(x) && listed(c.drone, x)
}

proof fn lemma_two_drones(v: ControllerView, g: Links, s: NodeId)
    ensures
        v.drones_at(g, s) >= 2 <==> two_drones(v.config, g, s),
{
    let p = drone_of(v.config, g, s, true);
    lemma_ids_where(p, ID_COUNT as int);
    let ids = ids_where(p, ID_COUNT as int);
    assert forall|d: NodeId| #[trigger] ids.contains(d) <==> served_by(v.config, g, s, d) by {
        lemma_listed(v.config.drone, d);
        assert(ids.contains(d) <==> p(d));
    }
    if ids.len() >= 2 {
        assert(ids.contains(ids[0]) && ids.contains(ids[1]));
        assert(ids[0] != ids[1]);
        assert(served_by(v.config, g, s, ids[0]) && served_by(v.config, g, s, ids[1]));
    }
    if two_drones(v.config, g, s) {
        let (x, y) = choose|x: NodeId, y: NodeId|
            x != y && #[trigger] served_by(v.config, g, s, x) && #[trigger] served_by(
                v.config,
                g,
                s,
                y,
            );
        assert(ids.contains(x) && ids.contains(y));
        assert(ids[ids.index_of(x)] == x && ids[ids.index_of(y)] == y);
        assert(ids.len() >= 2);
    }
}

/// Every server has links to two drones.
pub open spec fn all_served(c: ConfigView, g: Links) -> bool {
    forall|s: NodeId| #[trigger] listed(c.server, s) ==> two_drones(c, g, s)
}

/// A client and a server that are there have paths to each other by way of drones.
pub open spec fn in_touch(
    c: ConfigView,
    g: Links,
    without: Option<NodeId>,
    x: NodeId,
    y: NodeId,
) -> bool {
    there(g, without, x) && there(g, without, y) ==> x == y || (connects(
        c,
        g,
        Some(y),
        without,
        x,
        y,
    ) && connects(c, g, Some(x), without, y, x))
}

/// All clients and servers that are there have paths to each other by way of drones.
pub open spec fn all_in_touch(c: ConfigView, g: Links, without: Option<NodeId>) -> bool {
    forall|x: NodeId, y: NodeId|
        listed(c.client, x) && listed(c.server, y) ==> #[trigger] in_touch(c, g, without, x, y)
}

/// Paths lead from a node to all that are there.
pub open spec fn reaches_everyone(
    c: ConfigView,
    g: Links,
    without: Option<NodeId>,
    start: NodeId,
) -> bool {
    forall|x: NodeId| #[trigger] there(g, without, x) ==> connects(c, g, None, without, start, x)
}

proof fn lemma_pair(v: ControllerView, g: Links, without: Option<NodeId>, x: NodeId, y: NodeId)
    ensures
        v.pair_joined(g, x, y, without) <==> in_touch(v.config, g, without, x, y),
{
    lemma_connects(v.config, g, Some(y), without, x, y);
    lemma_connects(v.config, g, Some(x), without, y, x);
}

proof fn lemma_fewer(p: spec_fn(NodeId) -> bool, q: spec_fn(NodeId) -> bool, n: int)
    requires
        0 <= n <= ID_COUNT,
        forall|x: NodeId| #[trigger] p(x) ==> q(x),
    ensures
        how_many(p, n) <= how_many(q, n),
        how_many(p, n) == how_many(q, n) <==> forall|x: NodeId| x < n && #[trigger] q(x) ==> p(x),
    decreases n,
{
    if n > 0 {
        lemma_fewer(p, q, n - 1);
        let x = (n - 1) as NodeId;
        assert(p(x) ==> q(x));
        if how_many(p, n) == how_many(q, n) {
            assert forall|y: NodeId| y < n && #[trigger] q(y) implies p(y) by {
                if y != x {
                    assert(y < n - 1);
                }
            }
        }
        if forall|y: NodeId| y < n && #[trigger] q(y) ==> p(y) {
            assert forall|y: NodeId| y < n - 1 && #[trigger] q(y) implies p(y) by {}
        }
    }
}

/// What a path leads to is there, where the path begins there.
proof fn lemma_ends_there(
    c: ConfigView,
    g: Links,
    without: Option<NodeId>,
    start: NodeId,
    x: NodeId,
)
    requires
        there(g, without, start),
        connects(c, g, None, without, start, x),
    ensures
        there(g, without, x),
{
    let p = choose|p: Seq<NodeId>| #[trigger] path(c, g, None, without, p, start, x);
    if p.len() > 1 {
        assert(hop(c, g, None, without, p, p.len() - 2));
    }
}

/// A network without a node counts as valid exactly where every server has links to two
/// drones, all clients and servers have paths to each other by way of drones, and paths lead
/// from some node to all others. Nodes that have no role are left out.
pub proof fn law_which_networks_are_valid(
    v: ControllerView,
    g: Links,
    without: Option<NodeId>,
    ok: bool,
)
    requires
        v.valid(g, without, ok),
        forall|x: NodeId| #[trigger]
            there(g, without, x) ==> v.config.node_type(x) is Some && v.graph.contains_key(x),
    ensures
        !all_served(v.config, g) || !all_in_touch(v.config, g, without) ==> !ok,
        all_served(v.config, g) && all_in_touch(v.config, g, without) ==> if exists|x: NodeId|
            #[trigger] there(g, without, x) {
            exists|start: NodeId| #[trigger]
                there(g, without, start) && (ok <==> reaches_everyone(v.config, g, without, start))
        } else {
            ok
        },
{
    let c = v.config;
    assert(v.servers_served(g) <==> all_served(c, g)) by {
        assert forall|s: NodeId| #[trigger] listed(c.server, s) <==> entry_ids(c.server).contains(
            s,
        ) by {
            lemma_listed(c.server, s);
        }
        assert forall|s: NodeId| #[trigger] entry_ids(c.server).contains(s) <==> listed(
            c.server,
            s,
        ) by {
            lemma_listed(c.server, s);
        }
        assert forall|s: NodeId| v.drones_at(g, s) >= 2 <==> #[trigger] two_drones(c, g, s) by {
            lemma_two_drones(v, g, s);
        }
        assert forall|s: NodeId| #[trigger] v.drones_at(g, s) >= 2 <==> two_drones(c, g, s) by {
            lemma_two_drones(v, g, s);
        }
    }
    assert(v.all_mutual(g, without) <==> all_in_touch(c, g, without)) by {
        if v.all_mutual(g, without) {
            assert forall|x: NodeId, y: NodeId|
                listed(c.client, x) && listed(c.server, y) implies #[trigger] in_touch(
                c,
                g,
                without,
                x,
                y,
            ) by {
                lemma_listed(c.client, x);
                lemma_listed(c.server, y);
                lemma_pair(v, g, without, x, y);
                assert(v.pair_joined(g, x, y, without));
            }
        }
        if all_in_touch(c, g, without) {
            assert forall|x: NodeId, y: NodeId|
                entry_ids(c.client).contains(x) && entry_ids(c.server).contains(
                    y,
                ) implies #[trigger] v.pair_joined(g, x, y, without) by {
                lemma_listed(c.client, x);
                lemma_listed(c.server, y);
                lemma_pair(v, g, without, x, y);
                assert(in_touch(c, g, without, x, y));
            }
        }
    }
    if all_served(c, g) && all_in_touch(c, g, without) {
        if exists|x: NodeId| #[trigger] there(g, without, x) {
            let x = choose|x: NodeId| #[trigger] there(g, without, x);
            assert(v.takes_part(g, x, without));
            let start = choose|start: NodeId| #[trigger]
                v.takes_part(g, start, without) && ok == v.connected_from(g, start, without);
            assert(there(g, without, start));
            let p = |x: NodeId| leads(step_within(c, g, None, without), start, x);
            let q = |x: NodeId| v.takes_part(g, x, without) && v.active(x);
            assert forall|x: NodeId| #[trigger] p(x) implies q(x) by {
                lemma_connects(c, g, None, without, start, x);
                lemma_ends_there(c, g, without, start, x);
                assert(there(g, without, x));
            }
            lemma_fewer(p, q, ID_COUNT as int);
            if ok {
                assert forall|x: NodeId| #[trigger] there(g, without, x) implies connects(
                    c,
                    g,
                    None,
                    without,
                    start,
                    x,
                ) by {
                    assert(q(x));
                    assert(p(x));
                    lemma_connects(c, g, None, without, start, x);
                }
            }
            if reaches_everyone(c, g, without, start) {
                assert forall|x: NodeId| x < ID_COUNT && #[trigger] q(x) implies p(x) by {
                    assert(there(g, without, x));
                    lemma_connects(c, g, None, without, start, x);
                }
            }
        } else {
            assert forall|x: NodeId| !(#[trigger] v.takes_part(g, x, without)) by {
                assert(!there(g, without, x));
            }
        }
    }
}

proof fn lemma_drone_rows(s: Seq<EntryView>)
    requires
        entry_ids(s).no_duplicates(),
    ensures
        forall|a: NodeId, b: NodeId| #[trigger]
            leads_to(drone_rows(s), a, b) <==> listed_with(s, a, b),
        forall|a: NodeId| #[trigger] drone_rows(s).contains_key(a) <==> listed(s, a),
    decreases s.len(),
{
    if s.len() > 0 {
        let init = s.drop_last();
        let e = s.last();
        assert forall|i: int, j: int| 0 <= i < j < entry_ids(init).len() implies entry_ids(init)[i]
            != entry_ids(init)[j] by {
            assert(entry_ids(s)[i] != entry_ids(s)[j]);
        }
        lemma_drone_rows(init);
        lemma_one_more_entry(s);
        assert forall|a: NodeId| #[trigger] drone_rows(s).contains_key(a) <==> listed(s, a) by {
            assert(drone_rows(init).contains_key(a) <==> listed(init, a));
        }
        assert(!listed(init, e.id)) by {
            if listed(init, e.id) {
                let k = choose|k: int| 0 <= k < init.len() && (#[trigger] init[k]).id == e.id;
                assert(entry_ids(s)[k] == entry_ids(s)[s.len() - 1]);
            }
        }
        assert forall|a: NodeId, b: NodeId| #[trigger] leads_to(drone_rows(s), a, b) <==> listed_with(
            s,
            a,
            b,
        ) by {
            assert(leads_to(drone_rows(init), a, b) <==> listed_with(init, a, b));
            if a == e.id {
                assert(!listed_with(init, a, b)) by {
                    if listed_with(init, a, b) {
                        let k = choose|k: int|
                            0 <= k < init.len() && (#[trigger] init[k]).id == a
                                && init[k].links.contains(b);
                        assert(init[k].id == e.id);
                    }
                }
            }
        }
    }
}

proof fn lemma_one_more_entry(s: Seq<EntryView>)
    requires
        s.len() > 0,
    ensures
        forall|a: NodeId| #[trigger] listed(s, a) <==> listed(s.drop_last(), a) || a == s.last().id,
        forall|a: NodeId, b: NodeId| #[trigger]
            listed_with(s, a, b) <==> listed_with(s.drop_last(), a, b) || (a == s.last().id
                && s.last().links.contains(b)),
{
    let init = s.drop_last();
    assert forall|a: NodeId| #[trigger] listed(s, a) <==> listed(init, a) || a == s.last().id by {
        if listed(s, a) {
            let k = choose|k: int| 0 <= k < s.len() && (#[trigger] s[k]).id == a;
            if k < init.len() {
                assert(init[k].id == a);
            }
        }
        if listed(init, a) {
            let k = choose|k: int| 0 <= k < init.len() && (#[trigger] init[k]).id == a;
            assert(s[k].id == a);
        }
        assert(s[s.len() - 1] == s.last());
    }
    assert forall|a: NodeId, b: NodeId| #[trigger] listed_with(s, a, b) <==> listed_with(init, a, b)
        || (a == s.last().id && s.last().links.contains(b)) by {
        if listed_with(s, a, b) {
            let k = choose|k: int|
                0 <= k < s.len() && (#[trigger] s[k]).id == a && s[k].links.contains(b);
            if k < init.len() {
                assert(init[k].id == a);
            }
        }
        if listed_with(init, a, b) {
            let k = choose|k: int|
                0 <= k < init.len() && (#[trigger] init[k]).id == a && init[k].links.contains(b);
            assert(s[k].id == a);
        }
        assert(s[s.len() - 1] == s.last());
    }
}

proof fn lemma_linked_back(m: Links, links: Seq<NodeId>, id: NodeId)
    ensures
        forall|a: NodeId, b: NodeId| #[trigger]
            leads_to(linked_back(m, links, id), a, b) <==> leads_to(m, a, b) || (b == id
                && links.contains(a)),
    decreases links.len(),
{
    if links.len() > 0 {
        let init = links.drop_last();
        lemma_linked_back(m, init, id);
        let before = linked_back(m, init, id);
        assert forall|a: NodeId, b: NodeId| #[trigger]
            leads_to(linked_back(m, links, id), a, b) <==> leads_to(m, a, b) || (b == id
            && links.contains(a)) by {
            assert(leads_to(before, a, b) <==> leads_to(m, a, b) || (b == id && init.contains(a)));
            if links.contains(a) {
                let k = links.index_of(a);
                if k < init.len() {
                    assert(init[k] == a);
                }
            }
            if init.contains(a) {
                let k = init.index_of(a);
                assert(links[k] == a);
            }
            assert(links[links.len() - 1] == links.last());
        }
    }
}

/// No host of a list is connected to a host of the list.
pub open spec fn hosts_apart(s: Seq<EntryView>) -> bool {
    forall|j: int, k: int, i: int|
        0 <= j < s.len() && 0 <= k < s.len() && 0 <= i < s[k].links.len() ==> (#[trigger] s[j]).id
            != #[trigger] s[k].links[i]
}

proof fn lemma_host_rows(m: Links, s: Seq<EntryView>)
    requires
        entry_ids(s).no_duplicates(),
        hosts_apart(s),
        forall|k: int, b: NodeId|
            0 <= k < s.len() ==> !(#[trigger] leads_to(m, (#[trigger] s[k]).id, b)),
    ensures
        forall|a: NodeId, b: NodeId| #[trigger]
            leads_to(host_rows(m, s), a, b) <==> leads_to(m, a, b) || listed_with(s, a, b)
                || listed_with(s, b, a),
    decreases s.len(),
{
    if s.len() > 0 {
        let init = s.drop_last();
        let e = s.last();
        let n = s.len() - 1;
        assert forall|i: int, j: int| 0 <= i < j < entry_ids(init).len() implies entry_ids(init)[i]
            != entry_ids(init)[j] by {
            assert(entry_ids(s)[i] != entry_ids(s)[j]);
        }
        assert forall|j: int, k: int, i: int|
            0 <= j < init.len() && 0 <= k < init.len() && 0 <= i < init[k].links.len() implies (
        #[trigger] init[j]).id != #[trigger] init[k].links[i] by {
            assert(s[j].id != s[k].links[i]);
        }
        assert forall|k: int, b: NodeId| 0 <= k < init.len() implies !(#[trigger] leads_to(
            m,
            (#[trigger] init[k]).id,
            b,
        )) by {
            assert(!leads_to(m, s[k].id, b));
        }
        lemma_host_rows(m, init);
        lemma_one_more_entry(s);
        let before = host_rows(m, init);
        lemma_linked_back(before, e.links, e.id);
        let back = linked_back(before, e.links, e.id);
        let h = host_rows(m, s);
        assert forall|b: NodeId| !leads_to(m, e.id, b) by {
            assert(!leads_to(m, s[n].id, b));
        }
        assert forall|b: NodeId| !listed_with(init, e.id, b) && !(#[trigger] listed_with(
            init,
            b,
            e.id,
        )) by {
            if listed_with(init, e.id, b) {
                let k = choose|k: int|
                    0 <= k < init.len() && (#[trigger] init[k]).id == e.id
                        && init[k].links.contains(b);
                assert(entry_ids(s)[k] == entry_ids(s)[n]);
            }
            if listed_with(init, b, e.id) {
                let k = choose|k: int|
                    0 <= k < init.len() && (#[trigger] init[k]).id == b && init[k].links.contains(
                        e.id,
                    );
                let i = init[k].links.index_of(e.id);
                assert(s[n].id != s[k].links[i]);
            }
        }
        assert(!e.links.contains(e.id)) by {
            if e.links.contains(e.id) {
                let i = e.links.index_of(e.id);
                assert(s[n].id != s[n].links[i]);
            }
        }
        assert forall|a: NodeId, b: NodeId| #[trigger] leads_to(h, a, b) <==> leads_to(m, a, b)
            || listed_with(s, a, b) || listed_with(s, b, a) by {
            assert(leads_to(back, a, b) <==> leads_to(before, a, b) || (b == e.id
                && e.links.contains(a)));
            assert(leads_to(before, a, b) <==> leads_to(m, a, b) || listed_with(init, a, b)
                || listed_with(init, b, a));
            if a == e.id {
                assert(h[a] == e.links.to_set());
                assert(!leads_to(m, e.id, b));
                assert(!listed_with(init, b, e.id));
                assert(leads_to(h, a, b) <==> e.links.contains(b));
                if b == e.id {
                    assert(!e.links.contains(b));
                }
            } else {
                assert(h.contains_key(a) <==> back.contains_key(a));
                assert(leads_to(h, a, b) <==> leads_to(back, a, b));
            }
        }
    }
}

/// The controller knows at first the links that the configuration lists: those of drones as
/// they are listed, and those of hosts both ways. Hosts that are connected to hosts, and
/// drones that are hosts, are left out.
pub proof fn law_networks_begin_as_configured(c: ConfigView, a: NodeId, b: NodeId)
    requires
        entry_ids(c.drone).no_duplicates(),
        entry_ids(c.client).no_duplicates(),
        entry_ids(c.server).no_duplicates(),
        hosts_apart(c.client),
        hosts_apart(c.server),
        forall|k: int|
            0 <= k < c.client.len() ==> !listed(c.drone, (#[trigger] c.client[k]).id),
        forall|k: int|
            0 <= k < c.server.len() ==> !listed(c.drone, (#[trigger] c.server[k]).id)
                && !listed(c.client, c.server[k].id),
        forall|k: int, x: NodeId|
            0 <= k < c.server.len() ==> !(#[trigger] listed_with(
                c.client,
                x,
                (#[trigger] c.server[k]).id,
            )),
    ensures
        leads_to(network_links(c), a, b) <==> {
            ||| listed_with(c.drone, a, b)
            ||| listed_with(c.client, a, b)
            ||| listed_with(c.client, b, a)
            ||| listed_with(c.server, a, b)
            ||| listed_with(c.server, b, a)
        },
{
    let d = drone_rows(c.drone);
    lemma_drone_rows(c.drone);
    assert forall|k: int, x: NodeId| 0 <= k < c.client.len() implies !(#[trigger] leads_to(
        d,
        (#[trigger] c.client[k]).id,
        x,
    )) by {
        assert(leads_to(d, c.client[k].id, x) <==> listed_with(c.drone, c.client[k].id, x));
        lemma_listed_alone(c.drone, c.client[k].id, x);
    }
    lemma_host_rows(d, c.client);
    let m = host_rows(d, c.client);
    assert forall|k: int, x: NodeId| 0 <= k < c.server.len() implies !(#[trigger] leads_to(
        m,
        (#[trigger] c.server[k]).id,
        x,
    )) by {
        let id = c.server[k].id;
        assert(leads_to(d, id, x) <==> listed_with(c.drone, id, x));
        lemma_listed_alone(c.drone, id, x);
        lemma_listed_alone(c.client, id, x);
        assert(!listed_with(c.client, x, id));
        assert(leads_to(m, id, x) <==> leads_to(d, id, x) || listed_with(c.client, id, x)
            || listed_with(c.client, x, id));
    }
    lemma_host_rows(m, c.server);
    assert(leads_to(m, a, b) <==> leads_to(d, a, b) || listed_with(c.client, a, b) || listed_with(
        c.client,
        b,
        a,
    ));
    assert(leads_to(d, a, b) <==> listed_with(c.drone, a, b));
}

proof fn lemma_listed_alone(s: Seq<EntryView>, a: NodeId, b: NodeId)
    ensures
        listed_with(s, a, b) ==> listed(s, a),
{
    if listed_with(s, a, b) {
        let k = choose|k: int|
            0 <= k < s.len() && (#[trigger] s[k]).id == a && s[k].links.contains(b);
        assert(s[k].id == a);
    }
}

/// The controller knows the role of every node that is listed, the drop rate of a drone from
/// its entry, and whether a node is in the network. Ids that occur twice are left out.
pub proof fn law_what_is_known_of_nodes(v: ControllerView, id: NodeId, k: int)
    ensures
        !listed(v.config.drone, id) && !listed(v.config.client, id) && !listed(v.config.server, id)
            ==> v.state_of(id) is None,
        0 <= k < v.config.drone.len() && v.config.drone[k].id == id && (forall|j: int|
            0 <= j < v.config.drone.len() && j != k ==> (#[trigger] v.config.drone[j]).id != id)
            ==> {
            let n = v.state_of(id);
            &&& n is Some
            &&& n->0.id == id
            &&& n->0.node_type == NodeType::Drone
            &&& n->0.pdr == v.config.drone[k].pdr
            &&& n->0.active == v.graph.contains_key(id)
        },
        listed(v.config.client, id) && !listed(v.config.drone, id) ==> {
            let n = v.state_of(id);
            &&& n is Some
            &&& n->0.node_type == NodeType::Client
            &&& n->0.active == v.graph.contains_key(id)
        },
        listed(v.config.server, id) && !listed(v.config.drone, id) && !listed(v.config.client, id)
            ==> {
            let n = v.state_of(id);
            &&& n is Some
            &&& n->0.node_type == NodeType::Server
            &&& n->0.active == v.graph.contains_key(id)
        },
{
    lemma_listed(v.config.drone, id);
    lemma_listed(v.config.client, id);
    lemma_listed(v.config.server, id);
    if 0 <= k < v.config.drone.len() && v.config.drone[k].id == id {
        assert(listed(v.config.drone, id));
        lemma_first_index(v.config.drone, id);
    }
}

}
