//! Which configurations are valid, and which fault is found in the others.
use crate::config::{entry_ids, first_is, ConfigView, EntryView};
use crate::config_check::{
    connected, drone_links, drones_joined, first_fault, make_of, network_ids, out_links,
    share_start, verdict, with_reverses, ClientMake, ConfigError,
};
use crate::packet::NodeId;
use crate::reach::{follows_links, reaches};
use vstd::prelude::*;

verus! {

/// Node `k` lists a connection from `a` to `b`.
pub open spec fn lists(s: Seq<EntryView>, k: int, a: NodeId, b: NodeId) -> bool {
    0 <= k < s.len() && s[k].id == a && s[k].links.contains(b)
}

/// Some node lists a connection from `a` to `b`.
pub open spec fn listed(s: Seq<EntryView>, a: NodeId, b: NodeId) -> bool {
    exists|k: int| #[trigger] lists(s, k, a, b)
}

/// A node is listed, or another node lists a connection to it.
pub open spec fn mentioned(s: Seq<EntryView>, a: NodeId) -> bool {
    exists|k: int| 0 <= k < s.len() && ((#[trigger] s[k]).id == a || s[k].links.contains(a))
}

/// A connection leads from place `i` of a path to the next one, or back.
pub open spec fn step(s: Seq<EntryView>, p: Seq<NodeId>, i: int) -> bool {
    listed(s, p[i], p[i + 1]) || listed(s, p[i + 1], p[i])
}

/// Connections lead along `p`, each taken one way or the other.
pub open spec fn chain(s: Seq<EntryView>, p: Seq<NodeId>) -> bool {
    forall|i: int| 0 <= i < p.len() - 1 ==> #[trigger] step(s, p, i)
}

/// A connection leads from place `i` of a path to a drone at the next one.
pub open spec fn drone_step(s: Seq<EntryView>, p: Seq<NodeId>, i: int) -> bool {
    listed(s, p[i], p[i + 1]) && entry_ids(s).contains(p[i + 1])
}

/// Connections lead along `p`, from drone to drone.
pub open spec fn drone_chain(s: Seq<EntryView>, p: Seq<NodeId>) -> bool {
    forall|i: int| 0 <= i < p.len() - 1 ==> #[trigger] drone_step(s, p, i)
}

/// The path begins at `a` and ends at `b`.
pub open spec fn spans(p: Seq<NodeId>, a: NodeId, b: NodeId) -> bool {
    p.len() > 0 && p[0] == a && p.last() == b
}

proof fn lemma_out_links(s: Seq<EntryView>)
    ensures
        forall|a: NodeId, b: NodeId| #[trigger] out_links(s).contains((a, b)) <==> listed(s, a, b),
    decreases s.len(),
{
    if s.len() > 0 {
        let init = s.drop_last();
        let e = s.last();
        let last = s.last().links.map_values(|l: NodeId| (s.last().id, l));
        lemma_out_links(init);
        assert(out_links(s) == out_links(init) + last);
        assert forall|a: NodeId, b: NodeId| #[trigger] out_links(s).contains((a, b)) <==> listed(
            s,
            a,
            b,
        ) by {
            let all = out_links(init) + last;
            if all.contains((a, b)) {
                let k = all.index_of((a, b));
                if k < out_links(init).len() {
                    assert(out_links(init)[k] == (a, b));
                    assert(out_links(init).contains((a, b)));
                    let j = choose|j: int| #[trigger] lists(init, j, a, b);
                    assert(lists(s, j, a, b));
                } else {
                    assert(last[k - out_links(init).len()] == (a, b));
                    assert(e.links.contains(e.links[k - out_links(init).len()]));
                    assert(lists(s, s.len() - 1, a, b));
                }
            }
            if listed(s, a, b) {
                let j = choose|j: int| #[trigger] lists(s, j, a, b);
                if j < init.len() {
                    assert(lists(init, j, a, b));
                    assert(out_links(init).contains((a, b)));
                    let k = out_links(init).index_of((a, b));
                    assert(all[k] == (a, b));
                } else {
                    let k = e.links.index_of(b);
                    assert(last[k] == (a, b));
                    assert(all[out_links(init).len() + k] == (a, b));
                }
            }
        }
    } else {
        assert forall|a: NodeId, b: NodeId| !(#[trigger] out_links(s).contains((a, b))) && !listed(
            s,
            a,
            b,
        ) by {}
    }
}

proof fn lemma_either_way(s: Seq<EntryView>, a: NodeId, b: NodeId)
    ensures
        with_reverses(out_links(s)).contains((a, b)) <==> listed(s, a, b) || listed(s, b, a),
{
    lemma_out_links(s);
    let links = out_links(s);
    let back = links.map_values(|p: (NodeId, NodeId)| (p.1, p.0));
    let all = links + back;
    if all.contains((a, b)) {
        let k = all.index_of((a, b));
        if k < links.len() {
            assert(links[k] == (a, b));
            assert(links.contains((a, b)));
        } else {
            assert(back[k - links.len()] == (a, b));
            assert(links[k - links.len()] == (b, a));
            assert(links.contains((b, a)));
        }
    }
    if listed(s, a, b) {
        assert(links.contains((a, b)));
        let k = links.index_of((a, b));
        assert(all[k] == (a, b));
    }
    if listed(s, b, a) {
        assert(links.contains((b, a)));
        let k = links.index_of((b, a));
        assert(back[k] == (a, b));
        assert(all[links.len() + k] == (a, b));
    }
}

proof fn lemma_mentioned(s: Seq<EntryView>, a: NodeId)
    ensures
        network_ids(s).contains(a) <==> mentioned(s, a),
{
    lemma_out_links(s);
    let own = entry_ids(s);
    let ends = out_links(s).map_values(|p: (NodeId, NodeId)| p.1);
    let all = own + ends;
    if all.contains(a) {
        let k = all.index_of(a);
        if k < own.len() {
            assert(s[k].id == a);
        } else {
            let q = out_links(s)[k - own.len()];
            assert(ends[k - own.len()] == a);
            assert(out_links(s).contains((q.0, q.1)));
            let j = choose|j: int| #[trigger] lists(s, j, q.0, q.1);
            assert(s[j].links.contains(a));
        }
    }
    if mentioned(s, a) {
        let k = choose|k: int|
            0 <= k < s.len() && ((#[trigger] s[k]).id == a || s[k].links.contains(a));
        if s[k].id == a {
            assert(all[k] == a);
        } else {
            assert(lists(s, k, s[k].id, a));
            assert(out_links(s).contains((s[k].id, a)));
            let j = out_links(s).index_of((s[k].id, a));
            assert(ends[j] == a);
            assert(all[own.len() + j] == a);
        }
    }
}

proof fn lemma_chain(s: Seq<EntryView>, p: Seq<NodeId>)
    ensures
        chain(s, p) <==> follows_links(with_reverses(out_links(s)), p),
{
    let links = with_reverses(out_links(s));
    if chain(s, p) {
        assert forall|i: int| 0 <= i < p.len() - 1 implies links.contains(
            (#[trigger] p[i], p[i + 1]),
        ) by {
            assert(step(s, p, i));
            lemma_either_way(s, p[i], p[i + 1]);
        }
    }
    if follows_links(links, p) {
        assert forall|i: int| 0 <= i < p.len() - 1 implies #[trigger] step(s, p, i) by {
            assert(links.contains((p[i], p[i + 1])));
            lemma_either_way(s, p[i], p[i + 1]);
        }
    }
}

/// Connections lead from `a` to `b`, each taken one way or the other.
pub open spec fn in_touch(s: Seq<EntryView>, a: NodeId, b: NodeId) -> bool {
    exists|p: Seq<NodeId>| #[trigger] chain(s, p) && spans(p, a, b)
}

proof fn lemma_in_touch(s: Seq<EntryView>, a: NodeId, b: NodeId)
    ensures
        in_touch(s, a, b) <==> reaches(with_reverses(out_links(s)), a, b),
{
    let links = with_reverses(out_links(s));
    if reaches(links, a, b) {
        let p = choose|p: Seq<NodeId>| #[trigger]
            follows_links(links, p) && p.len() > 0 && p[0] == a && p.last() == b;
        lemma_chain(s, p);
        assert(chain(s, p) && spans(p, a, b));
    }
    if in_touch(s, a, b) {
        let p = choose|p: Seq<NodeId>| #[trigger] chain(s, p) && spans(p, a, b);
        lemma_chain(s, p);
        assert(follows_links(links, p));
    }
}

/// A network is in one piece exactly where connections, taken one way or the other, lead
/// from any node that is mentioned to any other.
pub proof fn law_connected_networks(s: Seq<EntryView>)
    ensures
        connected(s) <==> forall|a: NodeId, b: NodeId| #[trigger]
            mentioned(s, a) && #[trigger] mentioned(s, b) ==> in_touch(s, a, b),
{
    let links = with_reverses(out_links(s));
    let ids = network_ids(s);
    if connected(s) {
        assert forall|a: NodeId, b: NodeId| #[trigger] mentioned(s, a) && #[trigger] mentioned(
            s,
            b,
        ) implies in_touch(s, a, b) by {
            lemma_mentioned(s, a);
            lemma_mentioned(s, b);
            lemma_in_touch(s, a, b);
        }
    }
    if forall|a: NodeId, b: NodeId| #[trigger]
        mentioned(s, a) && #[trigger] mentioned(s, b) ==> in_touch(s, a, b) {
        assert forall|a: NodeId, b: NodeId|
            #![trigger ids.contains(a), ids.contains(b)]
            ids.contains(a) && ids.contains(b) implies reaches(links, a, b) by {
            lemma_mentioned(s, a);
            lemma_mentioned(s, b);
            lemma_in_touch(s, a, b);
        }
    }
}

pub proof fn lemma_filter<A>(s: Seq<A>, f: spec_fn(A) -> bool, x: A)
    ensures
        s.filter(f).contains(x) <==> s.contains(x) && f(x),
    decreases s.len(),
{
    reveal(Seq::filter);
    if s.len() > 0 {
        let init = s.drop_last();
        lemma_filter(init, f, x);
        let r = init.filter(f);
        if r.contains(x) && f(s.last()) {
            let k = r.index_of(x);
            assert(r.push(s.last())[k] == x);
        }
        if s.contains(x) {
            let k = s.index_of(x);
            if k < init.len() {
                assert(init[k] == x);
            } else if f(x) {
                assert(r.push(x)[r.len() as int] == x);
            }
        }
        if init.contains(x) {
            let k = init.index_of(x);
            assert(s[k] == x);
        }
        if f(s.last()) && r.push(s.last()).contains(x) {
            let k = r.push(s.last()).index_of(x);
            if k < r.len() {
                assert(r[k] == x);
            } else {
                assert(s[s.len() - 1] == x);
            }
        }
    }
}

proof fn lemma_drone_chain(s: Seq<EntryView>, p: Seq<NodeId>)
    ensures
        drone_chain(s, p) <==> follows_links(drone_links(s), p),
{
    let links = drone_links(s);
    let f = |p: (NodeId, NodeId)| entry_ids(s).contains(p.1);
    lemma_out_links(s);
    if drone_chain(s, p) {
        assert forall|i: int| 0 <= i < p.len() - 1 implies links.contains(
            (#[trigger] p[i], p[i + 1]),
        ) by {
            assert(drone_step(s, p, i));
            assert(out_links(s).contains((p[i], p[i + 1])));
            lemma_filter(out_links(s), f, (p[i], p[i + 1]));
        }
    }
    if follows_links(links, p) {
        assert forall|i: int| 0 <= i < p.len() - 1 implies #[trigger] drone_step(s, p, i) by {
            assert(links.contains((p[i], p[i + 1])));
            lemma_filter(out_links(s), f, (p[i], p[i + 1]));
            assert(out_links(s).contains((p[i], p[i + 1])));
        }
    }
}

/// Connections from drone to drone lead from `a` to `b`.
pub open spec fn in_touch_by_drones(s: Seq<EntryView>, a: NodeId, b: NodeId) -> bool {
    exists|p: Seq<NodeId>| #[trigger] drone_chain(s, p) && spans(p, a, b)
}

/// The drones are in one piece, as seen from one of them, exactly where connections from
/// drone to drone lead from it to every other one.
pub proof fn law_joined_drones(s: Seq<EntryView>, start: NodeId)
    ensures
        drones_joined(s, start) <==> forall|b: NodeId| #[trigger]
            entry_ids(s).contains(b) ==> in_touch_by_drones(s, start, b),
{
    let links = drone_links(s);
    assert forall|b: NodeId| #[trigger] reaches(links, start, b) <==> in_touch_by_drones(
        s,
        start,
        b,
    ) by {
        if reaches(links, start, b) {
            let p = choose|p: Seq<NodeId>| #[trigger]
                follows_links(links, p) && p.len() > 0 && p[0] == start && p.last() == b;
            lemma_drone_chain(s, p);
            assert(drone_chain(s, p) && spans(p, start, b));
        }
        if in_touch_by_drones(s, start, b) {
            let p = choose|p: Seq<NodeId>| #[trigger] drone_chain(s, p) && spans(p, start, b);
            lemma_drone_chain(s, p);
            assert(follows_links(links, p));
        }
    }
    if drones_joined(s, start) {
        assert forall|b: NodeId| #[trigger] entry_ids(s).contains(b) implies in_touch_by_drones(
            s,
            start,
            b,
        ) by {
            assert(reaches(links, start, b));
        }
    }
}

/// No earlier node has the id of node `i`.
pub open spec fn new_id(s: Seq<EntryView>, i: int) -> bool {
    forall|j: int| 0 <= j < i ==> (#[trigger] s[j]).id != s[i].id
}

/// The connections of a host are all different and lead elsewhere.
pub open spec fn tidy(e: EntryView) -> bool {
    &&& forall|j: int, k: int|
        0 <= j < k < e.links.len() ==> #[trigger] e.links[j] != #[trigger] e.links[k]
    &&& forall|k: int| 0 <= k < e.links.len() ==> #[trigger] e.links[k] != e.id
}

/// Node `i` is as it should be on its own.
pub open spec fn sound_alone(c: ConfigView, i: int) -> bool {
    let e = c.nodes()[i];
    &&& new_id(c.nodes(), i)
    &&& c.drone.len() <= i ==> tidy(e)
    &&& c.drone.len() <= i < c.drone.len() + c.client.len() ==> 1 <= e.links.len() <= 2
    &&& c.drone.len() + c.client.len() <= i ==> 2 <= e.links.len()
}

/// Some node up to `i` that goes by the id of the other end of connection `k` lists node
/// `i`.
pub open spec fn answered(c: ConfigView, i: int, k: int) -> bool {
    exists|j: int|
        0 <= j <= i && (#[trigger] c.nodes()[j]).id == c.nodes()[i].links[k]
            && c.nodes()[j].links.contains(c.nodes()[i].id)
}

proof fn lemma_first_fault(f: spec_fn(int) -> Option<ConfigError>, from: int, k: int, to: int)
    requires
        from <= k < to,
        forall|j: int| from <= j < k ==> #[trigger] f(j) is None,
        f(k) is Some,
    ensures
        first_fault(f, from, to) == f(k),
    decreases to - from,
{
    if k == to - 1 {
        lemma_no_faults(f, from, k);
    } else {
        lemma_first_fault(f, from, k, to - 1);
    }
}

proof fn lemma_no_faults(f: spec_fn(int) -> Option<ConfigError>, from: int, to: int)
    requires
        forall|j: int| from <= j < to ==> #[trigger] f(j) is None,
    ensures
        first_fault(f, from, to) is None,
    decreases to - from,
{
    if from < to {
        lemma_no_faults(f, from, to - 1);
        assert(f(to - 1) is None);
    }
}

proof fn lemma_sound_alone(c: ConfigView, i: int)
    requires
        0 <= i < c.nodes().len(),
    ensures
        c.node_fault(i) is None <==> sound_alone(c, i),
        c.node_fault(i) == Some(ConfigError::DuplicateId) <==> !new_id(c.nodes(), i),
{
    let s = c.nodes();
    let ids = entry_ids(s).subrange(0, i);
    if ids.contains(s[i].id) {
        let j = ids.index_of(s[i].id);
        assert(s[j].id == s[i].id);
    }
    if !new_id(s, i) {
        let j = choose|j: int| 0 <= j < i && (#[trigger] s[j]).id == s[i].id;
        assert(ids[j] == s[i].id);
    }
    let e = s[i];
    if e.links.contains(e.id) {
        let k = e.links.index_of(e.id);
        assert(e.links[k] == e.id);
    }
    if !tidy(e) && e.links.no_duplicates() {
        let k = choose|k: int| 0 <= k < e.links.len() && #[trigger] e.links[k] == e.id;
        assert(e.links.contains(e.id));
    }
}

proof fn lemma_answered(c: ConfigView, i: int, k: int)
    requires
        0 <= i < c.nodes().len(),
        0 <= k < c.nodes()[i].links.len(),
    ensures
        c.link_fault(i, k) is None <==> answered(c, i, k),
{
    let s = c.nodes();
    let d = s[i].links[k];
    let ids = entry_ids(s).subrange(0, i + 1);
    if answered(c, i, k) {
        let j = choose|j: int|
            0 <= j <= i && (#[trigger] s[j]).id == d && s[j].links.contains(s[i].id);
        assert(ids[j] == d);
    }
}

/// A configuration is valid, as far as its nodes and connections go, exactly where every
/// node is as it should be on its own, every connection of a client or a server is listed at
/// its other end, and the network is in one piece.
pub proof fn law_which_configurations_are_valid(c: ConfigView)
    ensures
        c.fault() is None <==> {
            &&& forall|i: int| 0 <= i < c.nodes().len() ==> #[trigger] sound_alone(c, i)
            &&& forall|i: int, k: int|
                c.drone.len() <= i < c.nodes().len() && 0 <= k < c.nodes()[i].links.len()
                    ==> #[trigger] answered(c, i, k)
            &&& connected(c.nodes())
        },
{
    let s = c.nodes();
    let n = s.len() as int;
    let f = |i: int| c.node_fault(i);
    let g = |i: int| c.links_fault(i);
    let from = c.drone.len() as int;
    if c.own_fault() is None {
        assert forall|i: int| 0 <= i < n implies #[trigger] sound_alone(c, i) by {
            lemma_none_found(f, 0, n, i);
            lemma_sound_alone(c, i);
        }
    } else if forall|i: int| 0 <= i < n ==> #[trigger] sound_alone(c, i) {
        assert forall|i: int| 0 <= i < n implies #[trigger] f(i) is None by {
            assert(sound_alone(c, i));
            lemma_sound_alone(c, i);
        }
        lemma_no_faults(f, 0, n);
    }
    if c.one_way_fault() is None {
        assert forall|i: int, k: int|
            from <= i < n && 0 <= k < s[i].links.len() implies #[trigger] answered(c, i, k) by {
            lemma_none_found(g, from, n, i);
            let h = |l: int| c.link_fault(i, l);
            lemma_none_found(h, 0, s[i].links.len() as int, k);
            lemma_answered(c, i, k);
        }
    } else if forall|i: int, k: int|
        from <= i < n && 0 <= k < s[i].links.len() ==> #[trigger] answered(c, i, k) {
        assert forall|i: int| from <= i < n implies #[trigger] g(i) is None by {
            let h = |l: int| c.link_fault(i, l);
            assert forall|k: int| 0 <= k < s[i].links.len() implies #[trigger] h(k) is None by {
                assert(answered(c, i, k));
                lemma_answered(c, i, k);
            }
            lemma_no_faults(h, 0, s[i].links.len() as int);
        }
        lemma_no_faults(g, from, n);
    }
}

proof fn lemma_none_found(f: spec_fn(int) -> Option<ConfigError>, from: int, to: int, k: int)
    requires
        first_fault(f, from, to) is None,
        from <= k < to,
    ensures
        f(k) is None,
    decreases to - from,
{
    if k < to - 1 {
        lemma_none_found(f, from, to - 1, k);
    }
}

/// The first node that is not as it should be on its own gives the fault: an id that was
/// there before, a number of connections that does not suit its role, a connection that is
/// listed twice, or one to itself, in this order.
pub proof fn law_faulty_nodes_are_found(c: ConfigView, i: int)
    requires
        0 <= i < c.nodes().len(),
        forall|j: int| 0 <= j < i ==> #[trigger] sound_alone(c, j),
        !sound_alone(c, i),
    ensures
        ({
            let e = c.nodes()[i];
            let client = c.drone.len() <= i < c.drone.len() + c.client.len();
            let server = c.drone.len() + c.client.len() <= i;
            let fault = c.fault();
            &&& !new_id(c.nodes(), i) ==> fault == Some(ConfigError::DuplicateId)
            &&& new_id(c.nodes(), i) && client && e.links.len() > 2 ==> fault == Some(
                ConfigError::ClientWithTooManyDrones,
            )
            &&& new_id(c.nodes(), i) && client && e.links.len() == 0 ==> fault == Some(
                ConfigError::ClientWithoutDrone,
            )
            &&& new_id(c.nodes(), i) && client && e.links.len() == 2 && e.links[0] == e.links[1]
                ==> fault == Some(ConfigError::DuplicateClientConnection)
            &&& new_id(c.nodes(), i) && client && e.links.len() == 1 && e.links[0] == e.id
                ==> fault == Some(ConfigError::ClientConnectedToItself)
            &&& new_id(c.nodes(), i) && server && e.links.len() < 2 ==> fault == Some(
                ConfigError::ServerWithTooFewDrones,
            )
            &&& new_id(c.nodes(), i) && server && e.links.len() >= 2 && e.links[0] == e.links[1]
                ==> fault == Some(ConfigError::DuplicateServerConnection)
            &&& new_id(c.nodes(), i) && server && e.links.len() == 2 && e.links[0] != e.links[1] && (
            e.links[0] == e.id || e.links[1] == e.id) ==> fault == Some(
                ConfigError::ServerConnectedToItself,
            )
        }),
{
    let f = |j: int| c.node_fault(j);
    let n = c.nodes().len() as int;
    assert forall|j: int| 0 <= j < i implies #[trigger] f(j) is None by {
        assert(sound_alone(c, j));
        lemma_sound_alone(c, j);
    }
    lemma_sound_alone(c, i);
    lemma_first_fault(f, 0, i, n);
    assert(c.fault() == c.node_fault(i));
    let e = c.nodes()[i];
    if e.links.len() == 1 && e.links[0] == e.id {
        assert(e.links.contains(e.id));
    }
    if e.links.len() == 2 && (e.links[0] == e.id || e.links[1] == e.id) {
        assert(e.links.contains(e.id));
    }
}

/// Where every node is as it should be on its own, the first connection of a client or a
/// server that is not listed at its other end gives the fault, by the two ids.
pub proof fn law_one_way_links_are_found(c: ConfigView, i: int, k: int)
    requires
        forall|j: int| 0 <= j < c.nodes().len() ==> #[trigger] sound_alone(c, j),
        c.drone.len() <= i < c.nodes().len(),
        0 <= k < c.nodes()[i].links.len(),
        !answered(c, i, k),
        forall|j: int, l: int|
            c.drone.len() <= j < i && 0 <= l < c.nodes()[j].links.len() ==> #[trigger] answered(
                c,
                j,
                l,
            ),
        forall|l: int| 0 <= l < k ==> #[trigger] answered(c, i, l),
    ensures
        ({
            let id = c.nodes()[i].id;
            let d = c.nodes()[i].links[k];
            let there = exists|j: int| 0 <= j <= i && (#[trigger] c.nodes()[j]).id == d;
            c.fault() == Some(
                if i < c.drone.len() + c.client.len() {
                    if there {
                        ConfigError::ClientLinkOneWay(id, d)
                    } else {
                        ConfigError::ClientDroneMissing(id, d)
                    }
                } else {
                    if there {
                        ConfigError::ServerLinkOneWay(id, d)
                    } else {
                        ConfigError::ServerDroneMissing(id, d)
                    }
                },
            )
        }),
{
    let s = c.nodes();
    let n = s.len() as int;
    let f = |j: int| c.node_fault(j);
    let g = |j: int| c.links_fault(j);
    let h = |l: int| c.link_fault(i, l);
    let from = c.drone.len() as int;
    assert forall|j: int| 0 <= j < n implies #[trigger] f(j) is None by {
        assert(sound_alone(c, j));
        lemma_sound_alone(c, j);
    }
    lemma_no_faults(f, 0, n);
    assert forall|j: int| from <= j < i implies #[trigger] g(j) is None by {
        let m = |l: int| c.link_fault(j, l);
        assert forall|l: int| 0 <= l < s[j].links.len() implies #[trigger] m(l) is None by {
            assert(answered(c, j, l));
            lemma_answered(c, j, l);
        }
        lemma_no_faults(m, 0, s[j].links.len() as int);
    }
    assert forall|l: int| 0 <= l < k implies #[trigger] h(l) is None by {
        assert(answered(c, i, l));
        lemma_answered(c, i, l);
    }
    lemma_answered(c, i, k);
    lemma_first_fault(h, 0, k, s[i].links.len() as int);
    lemma_first_fault(g, from, i, n);
    let d = s[i].links[k];
    let ids = entry_ids(s).subrange(0, i + 1);
    if ids.contains(d) {
        let j = ids.index_of(d);
        assert(s[j].id == d);
    }
    if exists|j: int| 0 <= j <= i && (#[trigger] s[j]).id == d {
        let j = choose|j: int| 0 <= j <= i && (#[trigger] s[j]).id == d;
        assert(ids[j] == d);
    }
}

/// A file is accepted exactly where ids differ, clients have at most two connections and
/// servers at least two. Otherwise the complaint names what is wrong.
pub proof fn law_verdicts(c: ConfigView, r: Result<(), Seq<char>>)
    requires
        verdict(c, r),
    ensures
        r is Ok <==> {
            &&& forall|i: int| 0 <= i < c.nodes().len() ==> #[trigger] new_id(c.nodes(), i)
            &&& forall|i: int| 0 <= i < c.client.len() ==> (#[trigger] c.client[i]).links.len() <= 2
            &&& forall|i: int| 0 <= i < c.server.len() ==> (#[trigger] c.server[i]).links.len() >= 2
        },
        (exists|i: int| 0 <= i < c.nodes().len() && !(#[trigger] new_id(c.nodes(), i))) ==> r
            == Err::<(), Seq<char>>("Duplicate node IDs found"@),
{
    let s = c.nodes();
    let ids = entry_ids(s);
    if ids.no_duplicates() {
        assert forall|i: int| 0 <= i < s.len() implies #[trigger] new_id(s, i) by {
            assert forall|j: int| 0 <= j < i implies (#[trigger] s[j]).id != s[i].id by {
                assert(ids[j] != ids[i]);
            }
        }
    } else if forall|i: int| 0 <= i < s.len() ==> #[trigger] new_id(s, i) {
        assert forall|a: int, b: int| 0 <= a < b < ids.len() implies ids[a] != ids[b] by {
            assert(new_id(s, b));
            assert(s[a].id != s[b].id);
        }
    }
}

/// A channel leads from one node to another exactly where the first one lists it and the
/// other one is a node. Ids that occur twice are left out.
pub proof fn law_channels_follow_connections(c: ConfigView, a: NodeId, b: NodeId)
    requires
        forall|i: int| 0 <= i < c.nodes().len() ==> #[trigger] new_id(c.nodes(), i),
    ensures
        c.has_channel(a, b) <==> listed(c.nodes(), a, b) && entry_ids(c.nodes()).contains(b),
{
    let s = c.nodes();
    if c.has_channel(a, b) {
        let k = choose|k: int| #[trigger]
            first_is(s, a, k) && s[k].links.contains(b) && entry_ids(s).contains(b);
        assert(lists(s, k, a, b));
    }
    if listed(s, a, b) && entry_ids(s).contains(b) {
        let k = choose|k: int| #[trigger] lists(s, k, a, b);
        assert(new_id(s, k));
        assert(first_is(s, a, k));
    }
}

/// Drones are shared out in order: each group gets a row of them, no group gets two more than
/// another, and a later group does not get more than an earlier one.
pub proof fn law_drones_are_shared_out(drones: int, groups: int, g: int)
    requires
        groups > 0,
        drones >= 0,
        0 <= g < groups,
    ensures
        share_start(drones, groups, 0) == 0,
        share_start(drones, groups, groups) == drones,
        share_start(drones, groups, g) <= share_start(drones, groups, g + 1),
        share_start(drones, groups, g + 1) - share_start(drones, groups, g) <= drones / groups + 1,
        share_start(drones, groups, g + 1) - share_start(drones, groups, g) >= drones / groups,
{
    let each = drones / groups;
    assert(drones == groups * each + drones % groups) by (nonlinear_arith)
        requires
            groups > 0,
            each == drones / groups,
    ;
    assert(0 <= drones % groups < groups) by (nonlinear_arith)
        requires
            groups > 0,
    ;
    assert(each >= 0) by (nonlinear_arith)
        requires
            groups > 0,
            drones >= 0,
            each == drones / groups,
    ;
    assert((g + 1) * each == g * each + each) by (nonlinear_arith);
    assert(0 * each == 0) by (nonlinear_arith);
}

/// Clients are of the two makes by turns, the second one first; of two clients those with an
/// even id are of the second make.
pub proof fn law_makes_take_turns(count: int, i: int, id: NodeId)
    requires
        0 <= i < count,
    ensures
        count == 2 && id % 2 == 0 ==> make_of(count, i, id) == ClientMake::Second,
        count == 2 && id % 2 == 1 ==> make_of(count, i, id) == ClientMake::First,
        count != 2 ==> make_of(count, 0, id) == ClientMake::Second,
        count != 2 ==> make_of(count, i, id) != make_of(count, i + 1, id),
{
}

}
