//! What the simulation controller does to the network, said of nodes and links.
use crate::adjacency::{ids_where, lemma_ids_where, Links};
use crate::config::{
    adding, entry_ids, first_index, lemma_first_index, relinked, struck, unlinked, without_link_of,
    ConfigView, EntryView,
};
use crate::gui_queue::{broadcast_to_hosts, hosts, pushed_to, waiting_for, Waiting};
use crate::packet::{lemma_without_id, NodeId, NodeType};
use crate::reach::ID_COUNT;
use crate::sc_backend::{drone_of, Command, ControlError, ControllerView, Order};
use crate::sc_changes::{linked_to_all, removals, shared_with_all};
use vstd::prelude::*;

verus! {

/// A node is listed among some.
pub open spec fn listed(s: Seq<EntryView>, id: NodeId) -> bool {
    exists|k: int| 0 <= k < s.len() && (#[trigger] s[k]).id == id
}

/// A node is listed with a connection.
pub open spec fn listed_with(s: Seq<EntryView>, id: NodeId, peer: NodeId) -> bool {
    exists|k: int| 0 <= k < s.len() && (#[trigger] s[k]).id == id && s[k].links.contains(peer)
}

/// A drone to which commands can be sent.
pub open spec fn obedient(v: ControllerView, id: NodeId) -> bool {
    listed(v.config.drone, id) && v.commands.contains(id)
}

/// A link leads from one node to another.
pub open spec fn leads_to(g: Links, a: NodeId, b: NodeId) -> bool {
    g.contains_key(a) && g[a].contains(b)
}

/// Two nodes are the given ones, in either order.
pub open spec fn same_two(x: NodeId, y: NodeId, a: NodeId, b: NodeId) -> bool {
    (x == a && y == b) || (x == b && y == a)
}

/// Exactly one order goes to a node, and it is the given one.
pub open spec fn told_once(orders: Seq<Order>, id: NodeId, command: Command) -> bool {
    exists|k: int|
        {
            &&& 0 <= k < orders.len()
            &&& (#[trigger] orders[k]).to == id
            &&& orders[k].command == command
            &&& forall|j: int| 0 <= j < orders.len() && (#[trigger] orders[j]).to == id ==> j == k
        }
}

/// No order goes to a node.
pub open spec fn untold(orders: Seq<Order>, id: NodeId) -> bool {
    forall|k: int| 0 <= k < orders.len() ==> (#[trigger] orders[k]).to != id
}

pub proof fn lemma_listed(s: Seq<EntryView>, id: NodeId)
    ensures
        listed(s, id) == entry_ids(s).contains(id),
{
    if listed(s, id) {
        let k = choose|k: int| 0 <= k < s.len() && (#[trigger] s[k]).id == id;
        assert(entry_ids(s)[k] == id);
    }
    if entry_ids(s).contains(id) {
        let k = entry_ids(s).index_of(id);
        assert(s[k].id == id);
    }
}

/// When a link between two nodes is granted, each end that is a drone and takes commands is
/// told of the other one, exactly once; nobody else is told anything. It does not matter
/// in which order the ends are given.
pub proof fn law_both_ends_hear_of_a_new_link(v: ControllerView, a: NodeId, b: NodeId)
    requires
        a != b,
    ensures
        obedient(v, a) ==> told_once(v.link_orders(a, b), a, Command::AddSender(b, a, b)),
        obedient(v, b) ==> told_once(v.link_orders(a, b), b, Command::AddSender(a, b, a)),
        forall|x: NodeId|
            !(obedient(v, x) && (x == a || x == b)) ==> #[trigger] untold(v.link_orders(a, b), x),
        v.link_orders(a, b).to_multiset() == v.link_orders(b, a).to_multiset(),
{
    lemma_two_orders(v, a, b, Command::AddSender(b, a, b), Command::AddSender(a, b, a));
    lemma_two_orders(v, b, a, Command::AddSender(a, b, a), Command::AddSender(b, a, b));
    let x = v.order(a, Command::AddSender(b, a, b));
    let y = v.order(b, Command::AddSender(a, b, a));
    vstd::seq_lib::lemma_multiset_commutative(x, y);
    vstd::seq_lib::lemma_multiset_commutative(y, x);
    assert(x.to_multiset().add(y.to_multiset()) =~= y.to_multiset().add(x.to_multiset()));
}

proof fn lemma_two_orders(v: ControllerView, a: NodeId, b: NodeId, c: Command, d: Command)
    requires
        a != b,
    ensures
        ({
            let orders = v.order(a, c) + v.order(b, d);
            &&& obedient(v, a) ==> told_once(orders, a, c)
            &&& obedient(v, b) ==> told_once(orders, b, d)
            &&& forall|x: NodeId|
                !(obedient(v, x) && (x == a || x == b)) ==> #[trigger] untold(orders, x)
        }),
{
    lemma_listed(v.config.drone, a);
    lemma_listed(v.config.drone, b);
    let orders = v.order(a, c) + v.order(b, d);
    if obedient(v, a) {
        assert(orders[0] == (Order { to: a, command: c }));
    }
    if obedient(v, b) {
        let k = v.order(a, c).len() as int;
        assert(orders[k] == (Order { to: b, command: d }));
    }
}

/// A link is refused where an end that is a drone takes no commands, where an end has no
/// channels, or where an end is a client with two drones already and the other one is a
/// drone; it is granted in all other cases.
pub proof fn law_when_links_are_granted(v: ControllerView, a: NodeId, b: NodeId)
    ensures
        v.add_fault(a, b) is None <==> ({
            &&& listed(v.config.drone, a) ==> v.commands.contains(a)
            &&& listed(v.config.drone, b) ==> v.commands.contains(b)
            &&& v.packets.contains_key(a)
            &&& v.packets.contains_key(b)
            &&& !overloaded(v, a, b)
            &&& !overloaded(v, b, a)
        }),
{
    lemma_listed(v.config.drone, a);
    lemma_listed(v.config.drone, b);
    lemma_listed(v.config.client, a);
    lemma_listed(v.config.client, b);
    lemma_overloaded(v, a, b);
    lemma_overloaded(v, b, a);
}

/// A client has links to two different drones, and would get a third one.
pub open spec fn overloaded(v: ControllerView, client: NodeId, drone: NodeId) -> bool {
    &&& listed(v.config.client, client) && !listed(v.config.drone, client)
    &&& listed(v.config.drone, drone)
    &&& exists|x: NodeId, y: NodeId|
        x != y && #[trigger] leads_to(v.graph, client, x) && #[trigger] leads_to(
            v.graph,
            client,
            y,
        ) && listed(v.config.drone, x) && listed(v.config.drone, y)
}

proof fn lemma_overloaded(v: ControllerView, client: NodeId, drone: NodeId)
    ensures
        v.client_full(client, drone) == overloaded(v, client, drone),
{
    lemma_listed(v.config.drone, client);
    lemma_listed(v.config.client, client);
    lemma_listed(v.config.drone, drone);
    let p = drone_of(v.config, v.graph, client, false);
    lemma_ids_where(p, ID_COUNT as int);
    let ids = ids_where(p, ID_COUNT as int);
    assert forall|d: NodeId| #[trigger] ids.contains(d) <==> leads_to(v.graph, client, d) && listed(
        v.config.drone,
        d,
    ) by {
        lemma_listed(v.config.drone, d);
        assert(ids.contains(d) <==> p(d));
    }
    if ids.len() >= 2 {
        assert(ids.contains(ids[0]) && ids.contains(ids[1]));
        assert(ids[0] != ids[1]);
        assert(leads_to(v.graph, client, ids[0]) && leads_to(v.graph, client, ids[1]));
    }
    if exists|x: NodeId, y: NodeId|
        x != y && #[trigger] leads_to(v.graph, client, x) && #[trigger] leads_to(
            v.graph,
            client,
            y,
        ) && listed(v.config.drone, x) && listed(v.config.drone, y) {
        let (x, y) = choose|x: NodeId, y: NodeId|
            x != y && #[trigger] leads_to(v.graph, client, x) && #[trigger] leads_to(
                v.graph,
                client,
                y,
            ) && listed(v.config.drone, x) && listed(v.config.drone, y);
        assert(ids.contains(x) && ids.contains(y));
        assert(ids[ids.index_of(x)] == x && ids[ids.index_of(y)] == y);
        assert(ids.len() >= 2);
    }
}

/// A link that is added leads both ways, in the graph and in the channels, and no other
/// link changes. Each end that is listed is connected to the other one in the
/// configuration, where at least one of them is a drone.
pub proof fn law_added_links_lead_both_ways(v: ControllerView, a: NodeId, b: NodeId)
    requires
        a != b,
    ensures
        ({
            let w = v.link_added(a, b);
            &&& forall|x: NodeId, y: NodeId| #[trigger]
                leads_to(w.graph, x, y) <==> leads_to(v.graph, x, y) || same_two(x, y, a, b)
            &&& forall|x: NodeId| #[trigger]
                w.graph.contains_key(x) <==> v.graph.contains_key(x) || x == a || x == b
            &&& forall|x: NodeId, y: NodeId| #[trigger]
                w.shared.contains((x, y)) <==> v.shared.contains((x, y)) || same_two(x, y, a, b)
            &&& w.commands == v.commands && w.packets == v.packets && w.hosts == v.hosts
            &&& listed(v.config.drone, a) && listed(v.config.drone, b) ==> listed_with(
                w.config.drone,
                a,
                b,
            ) && listed_with(w.config.drone, b, a)
            &&& listed(v.config.drone, a) && !listed(v.config.drone, b) && listed(
                v.config.client,
                b,
            ) ==> listed_with(w.config.drone, a, b) && listed_with(w.config.client, b, a)
            &&& listed(v.config.drone, a) && !listed(v.config.drone, b) && !listed(
                v.config.client,
                b,
            ) && listed(v.config.server, b) ==> listed_with(w.config.drone, a, b) && listed_with(
                w.config.server,
                b,
                a,
            )
            &&& listed(v.config.drone, b) && !listed(v.config.drone, a) && listed(
                v.config.client,
                a,
            ) ==> listed_with(w.config.drone, b, a) && listed_with(w.config.client, a, b)
            &&& listed(v.config.drone, b) && !listed(v.config.drone, a) && !listed(
                v.config.client,
                a,
            ) && listed(v.config.server, a) ==> listed_with(w.config.drone, b, a) && listed_with(
                w.config.server,
                a,
                b,
            )
            &&& only_joined(v.config.drone, w.config.drone, a, b)
            &&& only_joined(v.config.client, w.config.client, a, b)
            &&& only_joined(v.config.server, w.config.server, a, b)
        }),
{
    let w = v.link_added(a, b);
    let c = v.config;
    lemma_listed(c.drone, a);
    lemma_listed(c.drone, b);
    lemma_listed(c.client, a);
    lemma_listed(c.client, b);
    lemma_listed(c.server, a);
    lemma_listed(c.server, b);
    lemma_relinked(c.drone, a, b);
    lemma_relinked(c.drone, b, a);
    let d = relinked(c.drone, a, adding(b));
    lemma_relinked(d, b, a);
    lemma_relinked(c.client, a, b);
    lemma_relinked(c.client, b, a);
    lemma_relinked(c.server, a, b);
    lemma_relinked(c.server, b, a);
    lemma_listed(d, b);
    lemma_joined_twice(c.drone, d, relinked(d, b, adding(a)), a, b);
    lemma_joined_turned(c.drone, relinked(c.drone, b, adding(a)), b, a);
    lemma_joined_turned(c.client, relinked(c.client, b, adding(a)), b, a);
    lemma_joined_turned(c.server, relinked(c.server, b, adding(a)), b, a);
    assert(only_joined(c.drone, c.drone, a, b));
    assert(only_joined(c.client, c.client, a, b));
    assert(only_joined(c.server, c.server, a, b));
    if listed_with(d, a, b) {
        lemma_kept_by_joining(d, relinked(d, b, adding(a)), b, a, a, b);
    }
}

/// `t` is `s` but for connections between two nodes, which may have come up; nothing is
/// lost.
pub open spec fn only_joined(s: Seq<EntryView>, t: Seq<EntryView>, a: NodeId, b: NodeId) -> bool {
    &&& t.len() == s.len()
    &&& forall|k: int|
        0 <= k < s.len() ==> (#[trigger] t[k]).id == s[k].id && t[k].pdr == s[k].pdr
    &&& forall|k: int, x: NodeId|
        0 <= k < s.len() && #[trigger] t[k].links.contains(x) ==> s[k].links.contains(x)
            || same_two(s[k].id, x, a, b)
    &&& forall|k: int, x: NodeId|
        0 <= k < s.len() && #[trigger] s[k].links.contains(x) ==> t[k].links.contains(x)
}

proof fn lemma_joined_turned(s: Seq<EntryView>, t: Seq<EntryView>, a: NodeId, b: NodeId)
    requires
        only_joined(s, t, a, b),
    ensures
        only_joined(s, t, b, a),
{
    assert forall|k: int, x: NodeId| 0 <= k < s.len() && #[trigger] t[k].links.contains(
        x,
    ) implies s[k].links.contains(x) || same_two(s[k].id, x, b, a) by {}
}

pub proof fn lemma_joined_twice(
    s: Seq<EntryView>,
    t: Seq<EntryView>,
    u: Seq<EntryView>,
    a: NodeId,
    b: NodeId,
)
    requires
        only_joined(s, t, a, b),
        only_joined(t, u, b, a),
    ensures
        only_joined(s, u, a, b),
{
    assert forall|k: int| 0 <= k < s.len() implies (#[trigger] u[k]).id == s[k].id && u[k].pdr
        == s[k].pdr by {
        assert(t[k].id == s[k].id);
    }
    assert forall|k: int, x: NodeId| 0 <= k < s.len() && #[trigger] u[k].links.contains(
        x,
    ) implies s[k].links.contains(x) || same_two(s[k].id, x, a, b) by {
        assert(t[k].id == s[k].id);
        assert(t[k].links.contains(x) || same_two(t[k].id, x, b, a));
    }
    assert forall|k: int, x: NodeId|
        0 <= k < s.len() && #[trigger] s[k].links.contains(x) implies u[k].links.contains(x) by {
        assert(t[k].links.contains(x));
    }
}

pub proof fn lemma_kept_by_joining(
    s: Seq<EntryView>,
    t: Seq<EntryView>,
    a: NodeId,
    b: NodeId,
    x: NodeId,
    y: NodeId,
)
    requires
        only_joined(s, t, a, b),
        listed_with(s, x, y),
    ensures
        listed_with(t, x, y),
{
    let k = choose|k: int| 0 <= k < s.len() && (#[trigger] s[k]).id == x && s[k].links.contains(y);
    assert(t[k].id == s[k].id);
    assert(t[k].links.contains(y));
}

pub proof fn lemma_relinked(s: Seq<EntryView>, id: NodeId, peer: NodeId)
    ensures
        only_joined(s, relinked(s, id, adding(peer)), id, peer),
        listed(s, id) ==> listed_with(relinked(s, id, adding(peer)), id, peer),
{
    let t = relinked(s, id, adding(peer));
    lemma_listed(s, id);
    if listed(s, id) {
        lemma_first_index(s, id);
        let k = first_index(s, id);
        let links = s[k].links;
        let more = links.push(peer);
        assert(more[links.len() as int] == peer);
        assert forall|x: NodeId| #[trigger] more.contains(x) <==> links.contains(x) || x == peer by {
            if links.contains(x) {
                assert(more[links.index_of(x)] == x);
            }
            if more.contains(x) && x != peer {
                assert(links[more.index_of(x)] == x);
            }
        }
        assert(t[k].id == id && t[k].links.contains(peer));
        assert forall|j: int, x: NodeId| 0 <= j < s.len() && #[trigger] t[j].links.contains(
            x,
        ) implies s[j].links.contains(x) || same_two(s[j].id, x, id, peer) by {
            if j == k {
                assert(t[j].links == links || t[j].links == more);
            }
        }
        assert forall|j: int, x: NodeId|
            0 <= j < s.len() && #[trigger] s[j].links.contains(x) implies t[j].links.contains(x) by {
            if j == k {
                assert(t[j].links == links || t[j].links == more);
            }
        }
    }
}

/// A removal that is granted is told to both ends as far as they are drones that take
/// commands, to each one once, and to nobody else. There was a link.
pub proof fn law_both_ends_hear_of_a_removal(
    v: ControllerView,
    a: NodeId,
    b: NodeId,
    r: Result<Seq<Order>, ControlError>,
)
    requires
        a != b,
        v.removal_decided(a, b, r),
    ensures
        r is Ok ==> leads_to(v.graph, a, b),
        r is Ok && obedient(v, a) ==> told_once(r->Ok_0, a, Command::RemoveSender(b)),
        r is Ok && obedient(v, b) ==> told_once(r->Ok_0, b, Command::RemoveSender(a)),
        r is Ok ==> forall|x: NodeId|
            !(obedient(v, x) && (x == a || x == b)) ==> #[trigger] untold(r->Ok_0, x),
        !v.graph.contains_key(a) ==> r == Err::<Seq<Order>, ControlError>(
            ControlError::NotInGraph(a),
        ),
        v.graph.contains_key(a) && !leads_to(v.graph, a, b) ==> r == Err::<
            Seq<Order>,
            ControlError,
        >(ControlError::NoLink(a, b)),
        leads_to(v.graph, a, b) && r is Err ==> r->Err_0 == ControlError::RemovalForbidden,
{
    lemma_two_orders(v, a, b, Command::RemoveSender(b), Command::RemoveSender(a));
}

/// A link that is removed leads neither way, in the graph, in the channels and in the
/// connection lists; every other link and connection stays.
pub proof fn law_removed_links_are_gone(v: ControllerView, a: NodeId, b: NodeId)
    requires
        a != b,
    ensures
        ({
            let w = v.link_removed(a, b);
            &&& forall|x: NodeId, y: NodeId| #[trigger]
                leads_to(w.graph, x, y) <==> leads_to(v.graph, x, y) && !same_two(x, y, a, b)
            &&& forall|x: NodeId| #[trigger] w.graph.contains_key(x) <==> v.graph.contains_key(x)
            &&& forall|x: NodeId, y: NodeId| #[trigger]
                w.shared.contains((x, y)) <==> v.shared.contains((x, y)) && !same_two(x, y, a, b)
            &&& only_parted(v.config.drone, w.config.drone, a, b)
            &&& only_parted(v.config.client, w.config.client, a, b)
            &&& only_parted(v.config.server, w.config.server, a, b)
            &&& w.commands == v.commands && w.packets == v.packets && w.hosts == v.hosts
        }),
{
    lemma_unlinked(v.config.drone, a, b);
    lemma_unlinked(v.config.client, a, b);
    lemma_unlinked(v.config.server, a, b);
}

/// `t` is `s` without the connections between two nodes.
pub open spec fn only_parted(s: Seq<EntryView>, t: Seq<EntryView>, a: NodeId, b: NodeId) -> bool {
    &&& t.len() == s.len()
    &&& forall|k: int|
        0 <= k < s.len() ==> (#[trigger] t[k]).id == s[k].id && t[k].pdr == s[k].pdr
    &&& forall|k: int, x: NodeId|
        0 <= k < s.len() ==> (#[trigger] t[k].links.contains(x) <==> s[k].links.contains(x)
            && !same_two(s[k].id, x, a, b))
}

proof fn lemma_unlinked(s: Seq<EntryView>, a: NodeId, b: NodeId)
    requires
        a != b,
    ensures
        only_parted(s, unlinked(s, a, b), a, b),
{
    let t = unlinked(s, a, b);
    assert forall|k: int, x: NodeId| 0 <= k < s.len() implies (#[trigger] t[k].links.contains(x)
        <==> s[k].links.contains(x) && !same_two(s[k].id, x, a, b)) by {
        lemma_without_id(s[k].links, a);
        lemma_without_id(s[k].links, b);
        assert(t[k] == without_link_of(s[k], a, b));
    }
}

/// When a crash is granted, every drone that the node has a link to and that takes commands
/// is told once to drop it, the node itself is told once to crash where it takes commands,
/// and nobody else is told anything. The node is a part of the network.
pub proof fn law_a_crash_is_told_to_all_around(
    v: ControllerView,
    id: NodeId,
    r: Result<Seq<Order>, ControlError>,
)
    requires
        v.crash_decided(id, r),
        !leads_to(v.graph, id, id),
    ensures
        r is Ok ==> v.graph.contains_key(id) && v.config.node_type(id) is Some,
        r is Ok && v.commands.contains(id) ==> told_once(r->Ok_0, id, Command::Crash),
        r is Ok && !v.commands.contains(id) ==> untold(r->Ok_0, id),
        r is Ok ==> forall|n: NodeId|
            n != id && #[trigger] leads_to(v.graph, id, n) && obedient(v, n) ==> told_once(
                r->Ok_0,
                n,
                Command::RemoveSender(id),
            ),
        r is Ok ==> forall|n: NodeId|
            n != id && !(leads_to(v.graph, id, n) && obedient(v, n)) ==> #[trigger] untold(
                r->Ok_0,
                n,
            ),
        v.config.node_type(id) is None ==> r == Err::<Seq<Order>, ControlError>(
            ControlError::NotFound(id),
        ),
        v.config.node_type(id) is Some && !v.graph.contains_key(id) ==> r == Err::<
            Seq<Order>,
            ControlError,
        >(ControlError::AlreadyInactive(id)),
{
    if let Ok(orders) = r {
        let p = v.told_of(id);
        let ids = ids_where(p, ID_COUNT as int);
        lemma_ids_where(p, ID_COUNT as int);
        let first = removals(ids, id);
        let n0 = first.len() as int;
        assert(orders == v.crash_orders(id));
        assert forall|n: NodeId| #[trigger] ids.contains(n) <==> leads_to(v.graph, id, n)
            && obedient(v, n) by {
            lemma_listed(v.config.drone, n);
            assert(ids.contains(n) <==> p(n));
        }
        assert forall|k: int| 0 <= k < n0 implies #[trigger] orders[k] == (Order {
            to: ids[k],
            command: Command::RemoveSender(id),
        }) by {}
        assert forall|k: int| n0 <= k < orders.len() implies #[trigger] orders[k] == (Order {
            to: id,
            command: Command::Crash,
        }) by {}
        assert forall|k: int| 0 <= k < n0 implies (#[trigger] orders[k]).to != id by {
            assert(ids.contains(ids[k]));
        }
        if v.commands.contains(id) {
            assert(orders[n0].to == id);
        }
        assert forall|n: NodeId|
            n != id && #[trigger] leads_to(v.graph, id, n) && obedient(v, n) implies told_once(
            orders,
            n,
            Command::RemoveSender(id),
        ) by {
            assert(ids.contains(n));
            let k = ids.index_of(n);
            assert(orders[k].to == n);
            assert forall|j: int| 0 <= j < orders.len() && (#[trigger] orders[j]).to == n implies j
                == k by {
                if j < n0 {
                    assert(ids[j] == n);
                }
            }
        }
        assert forall|n: NodeId|
            n != id && !(leads_to(v.graph, id, n) && obedient(v, n)) implies #[trigger] untold(
            orders,
            n,
        ) by {
            assert forall|k: int| 0 <= k < orders.len() implies (#[trigger] orders[k]).to != n by {
                if k < n0 {
                    assert(ids.contains(ids[k]));
                }
            }
        }
    }
}

/// A crashed node is out of the network: it has no links, and where links led both ways
/// none leads to it; no list holds it, and no channel. Everything between other nodes
/// stays.
pub proof fn law_only_the_crashed_node_is_taken_out(v: ControllerView, id: NodeId)
    ensures
        ({
            let w = v.crashed(id);
            &&& forall|x: NodeId| #[trigger]
                w.graph.contains_key(x) <==> v.graph.contains_key(x) && x != id
            &&& forall|x: NodeId, y: NodeId|
                x != id && y != id ==> (#[trigger] leads_to(w.graph, x, y) <==> leads_to(
                    v.graph,
                    x,
                    y,
                ))
            &&& forall|x: NodeId| leads_to(v.graph, id, x) ==> !#[trigger] leads_to(w.graph, x, id)
            &&& forall|x: NodeId, y: NodeId| #[trigger]
                w.shared.contains((x, y)) <==> v.shared.contains((x, y)) && x != id && y != id
            &&& forall|x: NodeId| #[trigger]
                w.commands.contains(x) <==> v.commands.contains(x) && x != id
            &&& forall|x: NodeId| #[trigger]
                w.packets.contains_key(x) <==> v.packets.contains_key(x) && x != id
            &&& only_struck(v.config.drone, w.config.drone, id)
            &&& only_struck(v.config.client, w.config.client, id)
            &&& only_struck(v.config.server, w.config.server, id)
        }),
{
    lemma_without_id(v.commands, id);
    lemma_struck(v.config.drone, id);
    lemma_struck(v.config.client, id);
    lemma_struck(v.config.server, id);
}

/// `t` is `s` without any connection to a node.
pub open spec fn only_struck(s: Seq<EntryView>, t: Seq<EntryView>, id: NodeId) -> bool {
    &&& t.len() == s.len()
    &&& forall|k: int|
        0 <= k < s.len() ==> (#[trigger] t[k]).id == s[k].id && t[k].pdr == s[k].pdr
    &&& forall|k: int, x: NodeId|
        0 <= k < s.len() ==> (#[trigger] t[k].links.contains(x) <==> s[k].links.contains(x) && x
            != id)
}

proof fn lemma_struck(s: Seq<EntryView>, id: NodeId)
    ensures
        only_struck(s, struck(s, id), id),
{
    let t = struck(s, id);
    assert forall|k: int, x: NodeId| 0 <= k < s.len() implies (#[trigger] t[k].links.contains(x)
        <==> s[k].links.contains(x) && x != id) by {
        lemma_without_id(s[k].links, id);
    }
}

/// The links of a new node lead both ways to each of its peers, and no other link changes.
proof fn lemma_linked_to_all(g: Links, id: NodeId, c: Seq<NodeId>)
    ensures
        forall|x: NodeId, y: NodeId| #[trigger]
            leads_to(linked_to_all(g, id, c), x, y) <==> leads_to(g, x, y) || (x == id
                && c.contains(y)) || (y == id && c.contains(x)),
        forall|x: NodeId| #[trigger]
            linked_to_all(g, id, c).contains_key(x) <==> g.contains_key(x) || c.contains(x) || (x
                == id && c.len() > 0),
    decreases c.len(),
{
    if c.len() > 0 {
        let init = c.drop_last();
        lemma_linked_to_all(g, id, init);
        assert forall|x: NodeId| #[trigger] c.contains(x) <==> init.contains(x) || x == c.last() by {
            if init.contains(x) {
                assert(c[init.index_of(x)] == x);
            }
            if c.contains(x) && x != c.last() {
                assert(init[c.index_of(x)] == x);
            }
            assert(c[c.len() - 1] == c.last());
        }
        let m = linked_to_all(g, id, init);
        let h = linked_to_all(g, id, c);
        assert forall|x: NodeId, y: NodeId| #[trigger]
            leads_to(h, x, y) <==> leads_to(g, x, y) || (x == id && c.contains(y)) || (y == id
                && c.contains(x)) by {
            assert(leads_to(h, x, y) <==> leads_to(m, x, y) || same_two(x, y, id, c.last()));
        }
        assert forall|x: NodeId| #[trigger] h.contains_key(x) <==> g.contains_key(x) || c.contains(x)
            || (x == id && c.len() > 0) by {
            assert(h.contains_key(x) <==> m.contains_key(x) || x == id || x == c.last());
        }
    }
}

proof fn lemma_shared_with_all(s: Set<(NodeId, NodeId)>, id: NodeId, c: Seq<NodeId>)
    ensures
        forall|x: NodeId, y: NodeId| #[trigger]
            shared_with_all(s, id, c).contains((x, y)) <==> s.contains((x, y)) || (x == id
                && c.contains(y)) || (y == id && c.contains(x)),
    decreases c.len(),
{
    if c.len() > 0 {
        let init = c.drop_last();
        lemma_shared_with_all(s, id, init);
        assert forall|x: NodeId| #[trigger] c.contains(x) <==> init.contains(x) || x == c.last() by {
            if init.contains(x) {
                assert(c[init.index_of(x)] == x);
            }
            if c.contains(x) && x != c.last() {
                assert(init[c.index_of(x)] == x);
            }
            assert(c[c.len() - 1] == c.last());
        }
        let m = shared_with_all(s, id, init);
        let h = shared_with_all(s, id, c);
        assert forall|x: NodeId, y: NodeId| #[trigger]
            h.contains((x, y)) <==> s.contains((x, y)) || (x == id && c.contains(y)) || (y == id
                && c.contains(x)) by {
            assert(h.contains((x, y)) <==> m.contains((x, y)) || same_two(x, y, id, c.last()));
        }
    }
}

/// A new drone is linked both ways to each node that it is connected to, and no other link
/// changes; the same holds of its channels. It takes commands from then on.
pub proof fn law_new_drones_join_their_peers(
    v: ControllerView,
    id: NodeId,
    pdr: u32,
    c: Seq<NodeId>,
)
    ensures
        ({
            let w = v.drone_joined(id, pdr, c);
            &&& forall|x: NodeId, y: NodeId| #[trigger]
                leads_to(w.graph, x, y) <==> leads_to(v.graph, x, y) || (x == id && c.contains(y))
                    || (y == id && c.contains(x))
            &&& forall|x: NodeId| #[trigger]
                w.graph.contains_key(x) <==> v.graph.contains_key(x) || c.contains(x) || (x == id
                    && c.len() > 0)
            &&& forall|x: NodeId| #[trigger]
                w.commands.contains(x) <==> v.commands.contains(x) || x == id
            &&& w.packets.contains_key(id)
            &&& forall|x: NodeId|
                c.contains(x) ==> #[trigger] leads_to(w.packets, id, x) && leads_to(w.packets, x, id)
            &&& w.shared == v.shared
        }),
        forall|x: NodeId, y: NodeId| #[trigger]
            v.drone_shared(id, c).shared.contains((x, y)) <==> v.shared.contains((x, y)) || (x == id
                && c.contains(y)) || (y == id && c.contains(x)),
{
    lemma_linked_to_all(v.graph, id, c);
    lemma_linked_to_all(v.packets.insert(id, Set::empty()), id, c);
    lemma_shared_with_all(v.shared, id, c);
    let more = v.commands.push(id);
    assert(more[v.commands.len() as int] == id);
    assert forall|x: NodeId| #[trigger] more.contains(x) <==> v.commands.contains(x) || x == id by {
        if v.commands.contains(x) {
            assert(more[v.commands.index_of(x)] == x);
        }
        if more.contains(x) && x != id {
            assert(v.commands[more.index_of(x)] == x);
        }
    }
}

/// A new drone is told of each node that it is connected to; each of these that is a drone
/// and takes commands is told of the new one. Nothing else is told.
pub proof fn law_peers_hear_of_a_new_drone(v: ControllerView, id: NodeId, c: Seq<NodeId>)
    ensures
        ({
            let orders = v.spawn_orders(id, c);
            &&& forall|n: NodeId| #[trigger]
                c.contains(n) ==> orders.contains(
                    Order { to: id, command: Command::AddSender(n, n, id) },
                )
            &&& forall|n: NodeId| #[trigger]
                c.contains(n) && obedient(v, n) ==> orders.contains(
                    Order { to: n, command: Command::AddSender(id, id, n) },
                )
            &&& forall|k: int|
                0 <= k < orders.len() ==> exists|n: NodeId| #[trigger]
                    c.contains(n) && ((#[trigger] orders[k]) == (Order {
                        to: id,
                        command: Command::AddSender(n, n, id),
                    }) || (obedient(v, n) && orders[k] == (Order {
                        to: n,
                        command: Command::AddSender(id, id, n),
                    })))
        }),
    decreases c.len(),
{
    let orders = v.spawn_orders(id, c);
    if c.len() > 0 {
        let init = c.drop_last();
        let peer = c.last();
        law_peers_hear_of_a_new_drone(v, id, init);
        lemma_listed(v.config.drone, peer);
        let before = v.spawn_orders(id, init);
        let mine = Order { to: id, command: Command::AddSender(peer, peer, id) };
        let his = Order { to: peer, command: Command::AddSender(id, id, peer) };
        let middle = v.order(peer, Command::AddSender(id, id, peer));
        assert(orders == before + middle + seq![mine]);
        assert(orders[orders.len() - 1] == mine);
        assert forall|o: Order| before.contains(o) implies #[trigger] orders.contains(o) by {
            assert(orders[before.index_of(o)] == o);
        }
        assert forall|n: NodeId| #[trigger] c.contains(n) implies init.contains(n) || n == peer by {
            if n != peer {
                assert(init[c.index_of(n)] == n);
            }
        }
        assert(c[c.len() - 1] == peer);
        if obedient(v, peer) {
            assert(orders[before.len() as int] == his);
        }
        assert forall|k: int| 0 <= k < orders.len() implies exists|n: NodeId| #[trigger]
            c.contains(n) && ((#[trigger] orders[k]) == (Order {
                to: id,
                command: Command::AddSender(n, n, id),
            }) || (obedient(v, n) && orders[k] == (Order {
                to: n,
                command: Command::AddSender(id, id, n),
            }))) by {
            if k < before.len() {
                assert(orders[k] == before[k]);
                let n = choose|n: NodeId| #[trigger]
                    init.contains(n) && (before[k] == (Order {
                        to: id,
                        command: Command::AddSender(n, n, id),
                    }) || (obedient(v, n) && before[k] == (Order {
                        to: n,
                        command: Command::AddSender(id, id, n),
                    })));
                assert(c[init.index_of(n)] == n);
                assert(c.contains(n));
            } else {
                assert(c.contains(peer));
                assert(orders[k] == mine || (obedient(v, peer) && orders[k] == his));
            }
        }
    }
}

/// A new drone is refused where its id is taken, where it names a node that is not there,
/// or where it names a client that has two drones already; it is let in otherwise.
pub proof fn law_when_drones_are_let_in(
    v: ControllerView,
    id: NodeId,
    c: Seq<NodeId>,
    r: Result<bool, ControlError>,
)
    requires
        v.drone_validated(id, c, r),
    ensures
        r is Ok <==> ({
            &&& !v.graph.contains_key(id)
            &&& forall|n: NodeId| #[trigger] c.contains(n) ==> v.graph.contains_key(n)
            &&& forall|n: NodeId| #[trigger]
                c.contains(n) && listed(v.config.client, n) && !listed(v.config.drone, n) ==> forall|
                    x: NodeId,
                    y: NodeId,
                |
                    #[trigger] leads_to(v.graph, n, x) && #[trigger] leads_to(v.graph, n, y)
                        && listed(v.config.drone, x) && listed(v.config.drone, y) ==> x == y
        }),
{
    assert forall|n: NodeId| #[trigger] c.contains(n) implies ((v.config.node_type(n) == Some(
        NodeType::Client,
    ) && v.client_drones(n) >= 2) <==> (listed(v.config.client, n) && !listed(v.config.drone, n)
        && exists|x: NodeId, y: NodeId|
        x != y && #[trigger] leads_to(v.graph, n, x) && #[trigger] leads_to(v.graph, n, y)
            && listed(v.config.drone, x) && listed(v.config.drone, y))) by {
        lemma_two_drones(v, n);
        lemma_listed(v.config.drone, n);
        lemma_listed(v.config.client, n);
    }
    assert forall|k: int| v.missing_at(c, k) implies c.contains(c[k]) by {}
    assert forall|k: int| v.full_at(c, k) implies c.contains(c[k]) by {}
    assert forall|n: NodeId| #[trigger] c.contains(n) && !v.graph.contains_key(n) implies exists|
        k: int,
    | #[trigger] v.missing_at(c, k) by {
        assert(v.missing_at(c, c.index_of(n)));
    }
    assert forall|n: NodeId| #[trigger]
        c.contains(n) && v.config.node_type(n) == Some(NodeType::Client)
            && v.client_drones(n) >= 2 implies exists|k: int| #[trigger] v.full_at(c, k) by {
        assert(v.full_at(c, c.index_of(n)));
    }
}

proof fn lemma_two_drones(v: ControllerView, client: NodeId)
    ensures
        v.client_drones(client) >= 2 <==> exists|x: NodeId, y: NodeId|
            x != y && #[trigger] leads_to(v.graph, client, x) && #[trigger] leads_to(
                v.graph,
                client,
                y,
            ) && listed(v.config.drone, x) && listed(v.config.drone, y),
{
    let p = drone_of(v.config, v.graph, client, false);
    lemma_ids_where(p, ID_COUNT as int);
    let ids = ids_where(p, ID_COUNT as int);
    assert forall|d: NodeId| #[trigger] ids.contains(d) <==> leads_to(v.graph, client, d) && listed(
        v.config.drone,
        d,
    ) by {
        lemma_listed(v.config.drone, d);
        assert(ids.contains(d) <==> p(d));
    }
    if ids.len() >= 2 {
        assert(ids.contains(ids[0]) && ids.contains(ids[1]));
        assert(ids[0] != ids[1]);
        assert(leads_to(v.graph, client, ids[0]) && leads_to(v.graph, client, ids[1]));
    }
    if exists|x: NodeId, y: NodeId|
        x != y && #[trigger] leads_to(v.graph, client, x) && #[trigger] leads_to(
            v.graph,
            client,
            y,
        ) && listed(v.config.drone, x) && listed(v.config.drone, y) {
        let (x, y) = choose|x: NodeId, y: NodeId|
            x != y && #[trigger] leads_to(v.graph, client, x) && #[trigger] leads_to(
                v.graph,
                client,
                y,
            ) && listed(v.config.drone, x) && listed(v.config.drone, y);
        assert(ids.contains(x) && ids.contains(y));
        assert(ids[ids.index_of(x)] == x && ids[ids.index_of(y)] == y);
        assert(ids.len() >= 2);
    }
}

/// A broadcast puts its message behind what waits for each client and each server, once
/// where none is listed twice, and leaves what waits for other nodes as it is.
pub proof fn law_broadcasts_reach_hosts_only(
    q: Waiting,
    c: ConfigView,
    message: Seq<char>,
    id: NodeId,
)
    ensures
        ({
            let host = listed(c.client, id) || listed(c.server, id);
            let after = broadcast_to_hosts(q, c, message);
            let before = if q.contains_key(id) {
                q[id]
            } else {
                Seq::empty()
            };
            &&& host ==> after.contains_key(id) && after[id].len() > before.len()
                && after[id].last() == message
            &&& host ==> forall|k: int| 0 <= k < before.len() ==> #[trigger] after[id][k]
                == before[k]
            &&& host && (entry_ids(c.client) + entry_ids(c.server)).no_duplicates() ==> after[id]
                == before.push(message)
            &&& !host ==> (after.contains_key(id) <==> q.contains_key(id)) && (q.contains_key(id)
                ==> after[id] == q[id])
        }),
{
    lemma_listed(c.client, id);
    lemma_listed(c.server, id);
    let all = entry_ids(c.client) + entry_ids(c.server);
    if entry_ids(c.client).contains(id) {
        assert(all[entry_ids(c.client).index_of(id)] == id);
    }
    if entry_ids(c.server).contains(id) {
        assert(all[entry_ids(c.client).len() + entry_ids(c.server).index_of(id)] == id);
    }
    if all.contains(id) {
        let k = all.index_of(id);
        if k < entry_ids(c.client).len() {
            assert(entry_ids(c.client)[k] == id);
        } else {
            assert(entry_ids(c.server)[k - entry_ids(c.client).len()] == id);
        }
    }
    lemma_pushed(q, all, message, id);
}

proof fn lemma_pushed(q: Waiting, ids: Seq<NodeId>, message: Seq<char>, id: NodeId)
    ensures
        ({
            let after = pushed_to(q, ids, message);
            let before = waiting_for(q, id);
            &&& ids.contains(id) ==> after.contains_key(id) && after[id].len() > before.len()
                && after[id].last() == message
            &&& after.contains_key(id) ==> before.len() <= after[id].len() && forall|k: int|
                0 <= k < before.len() ==> #[trigger] after[id][k] == before[k]
            &&& q.contains_key(id) ==> after.contains_key(id)
            &&& ids.contains(id) && ids.no_duplicates() ==> after[id] == before.push(message)
            &&& !ids.contains(id) ==> (after.contains_key(id) <==> q.contains_key(id)) && (
            q.contains_key(id) ==> after[id] == q[id])
        }),
    decreases ids.len(),
{
    if ids.len() > 0 {
        let init = ids.drop_last();
        lemma_pushed(q, init, message, id);
        assert(ids[ids.len() - 1] == ids.last());
        if ids.contains(id) && ids.last() != id {
            assert(init[ids.index_of(id)] == id);
        }
        if init.contains(id) {
            assert(ids[init.index_of(id)] == id);
        }
        if ids.no_duplicates() {
            assert(init.no_duplicates());
            if ids.last() == id {
                assert(!init.contains(id)) by {
                    if init.contains(id) {
                        assert(ids[init.index_of(id)] == ids[ids.len() - 1]);
                    }
                }
            }
        }
    }
}

}
