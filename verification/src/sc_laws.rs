//! What holds of a link that is added and removed again.
use crate::adjacency::{has_link, is_way, leads, with_both, without_both};
use crate::config::{
    adding, entry_ids, lemma_first_index, relinked, unlinked, with_links, without_link_of,
    ConfigView, EntryView,
};
use crate::laws::lemma_absent;
use crate::packet::{without_id, NodeId};
use crate::reach::ID_COUNT;
use crate::sc_backend::{drone_of, step_within, Command, ControlError, ControllerView, Order};
use crate::sc_changes::{
    connected_in, law_removing_undoes_adding, lemma_connecting_keeps_types,
    lemma_relinking_keeps_ids,
};
use crate::topology::how_many;
use vstd::prelude::*;

verus! {

/// The connections that nodes of the network list are links of it.
pub open spec fn listed_links(v: ControllerView, s: Seq<EntryView>) -> bool {
    forall|k: int, y: NodeId|
        0 <= k < s.len() && v.graph.contains_key(s[k].id) && #[trigger] s[k].links.contains(y)
            ==> has_link(v.graph, s[k].id, y)
}

impl ControllerView {
    /// Links lead both ways between nodes that are configured, and the configuration lists
    /// no other connections.
    pub open spec fn coherent(self) -> bool {
        &&& forall|x: NodeId, y: NodeId| #[trigger]
            has_link(self.graph, x, y) ==> has_link(self.graph, y, x)
        &&& forall|x: NodeId| #[trigger]
            self.graph.contains_key(x) ==> self.config.node_type(x) is Some
        &&& listed_links(self, self.config.drone)
        &&& listed_links(self, self.config.client)
        &&& listed_links(self, self.config.server)
    }
}

/// `t` is `s` with a connection between `a` and `b` at the end of some of their lists.
spec fn grown(s: Seq<EntryView>, t: Seq<EntryView>, a: NodeId, b: NodeId) -> bool {
    &&& t.len() == s.len()
    &&& forall|k: int| 0 <= k < s.len() ==> grown_at(s[k], #[trigger] t[k], a, b)
}

spec fn grown_at(e: EntryView, f: EntryView, a: NodeId, b: NodeId) -> bool {
    ||| f == e
    ||| e.id == a && f == with_links(e, e.links.push(b))
    ||| e.id == b && f == with_links(e, e.links.push(a))
}

/// Neither of two nodes lists the other.
spec fn apart(s: Seq<EntryView>, a: NodeId, b: NodeId) -> bool {
    forall|k: int|
        0 <= k < s.len() ==> ((#[trigger] s[k]).id == a ==> !s[k].links.contains(b)) && (s[k].id == b
            ==> !s[k].links.contains(a))
}

proof fn lemma_pushed_absent(v: Seq<NodeId>, id: NodeId)
    requires
        !v.contains(id),
    ensures
        without_id(v.push(id), id) == v,
{
    reveal(Seq::filter);
    assert(v.push(id).drop_last() =~= v);
    lemma_absent(v, id);
}

/// Taking the connection out gives the lists back.
proof fn lemma_given_back(s: Seq<EntryView>, t: Seq<EntryView>, a: NodeId, b: NodeId)
    requires
        a != b,
        apart(s, a, b),
        grown(s, t, a, b),
    ensures
        unlinked(t, a, b) == s,
{
    assert forall|k: int| 0 <= k < s.len() implies #[trigger] unlinked(t, a, b)[k] == s[k] by {
        let e = s[k];
        assert(grown_at(e, t[k], a, b));
        if e.id == a {
            lemma_absent(e.links, b);
            lemma_pushed_absent(e.links, b);
        } else if e.id == b {
            lemma_absent(e.links, a);
            lemma_pushed_absent(e.links, a);
        }
        assert(without_link_of(t[k], a, b) == e);
    }
    assert(unlinked(t, a, b) =~= s);
}

/// A connection of `a` to `b` is added at the end of a list.
proof fn lemma_linking_grows(s: Seq<EntryView>, t: Seq<EntryView>, a: NodeId, b: NodeId)
    requires
        a != b,
        apart(s, a, b),
        grown(s, t, a, b),
        forall|k: int| 0 <= k < s.len() && (#[trigger] t[k]).id == a ==> t[k] == s[k],
    ensures
        grown(s, relinked(t, a, adding(b)), a, b),
        forall|k: int| 0 <= k < s.len() && (#[trigger] t[k]).id == b ==> relinked(
            t,
            a,
            adding(b),
        )[k] == t[k],
{
    if entry_ids(t).contains(a) {
        lemma_first_index(t, a);
    }
    let r = relinked(t, a, adding(b));
    assert forall|k: int| 0 <= k < s.len() implies grown_at(s[k], #[trigger] r[k], a, b) by {
        assert(grown_at(s[k], t[k], a, b));
        assert(t[k].id == a ==> t[k] == s[k]);
    }
}

/// One list linked, for `a`, for `b` or for both.
proof fn lemma_one_linked(s: Seq<EntryView>, a: NodeId, b: NodeId)
    requires
        a != b,
        apart(s, a, b),
    ensures
        unlinked(s, a, b) == s,
        unlinked(relinked(s, a, adding(b)), a, b) == s,
        unlinked(relinked(s, b, adding(a)), a, b) == s,
        unlinked(relinked(relinked(s, a, adding(b)), b, adding(a)), a, b) == s,
{
    assert(grown(s, s, a, b));
    assert(grown(s, s, b, a));
    lemma_given_back(s, s, a, b);
    lemma_linking_grows(s, s, a, b);
    lemma_given_back(s, relinked(s, a, adding(b)), a, b);
    assert(apart(s, b, a));
    lemma_linking_grows(s, s, b, a);
    lemma_turned(s, relinked(s, b, adding(a)), b, a);
    lemma_given_back(s, relinked(s, b, adding(a)), a, b);
    let t = relinked(s, a, adding(b));
    lemma_turned(s, t, a, b);
    assert forall|k: int| 0 <= k < s.len() && (#[trigger] t[k]).id == b implies t[k] == s[k] by {
        assert(grown_at(s[k], t[k], a, b));
        assert(s[k].id == b);
    }
    lemma_linking_grows(s, t, b, a);
    lemma_turned(s, relinked(t, b, adding(a)), b, a);
    lemma_given_back(s, relinked(t, b, adding(a)), a, b);
}

proof fn lemma_turned(s: Seq<EntryView>, t: Seq<EntryView>, a: NodeId, b: NodeId)
    requires
        grown(s, t, a, b),
    ensures
        grown(s, t, b, a),
{
    assert forall|k: int| 0 <= k < s.len() implies grown_at(s[k], #[trigger] t[k], b, a) by {
        assert(grown_at(s[k], t[k], a, b));
    }
}

proof fn lemma_lists_apart(v: ControllerView, s: Seq<EntryView>, a: NodeId, b: NodeId)
    requires
        listed_links(v, s),
        v.graph.contains_key(a),
        v.graph.contains_key(b),
        !has_link(v.graph, a, b),
        !has_link(v.graph, b, a),
    ensures
        apart(s, a, b),
{
    assert forall|k: int| 0 <= k < s.len() implies ((#[trigger] s[k]).id == a
        ==> !s[k].links.contains(b)) && (s[k].id == b ==> !s[k].links.contains(a)) by {}
}

/// The connection lists of two nodes that were not connected are as before once they have
/// been connected and parted again, order included.
proof fn lemma_config_given_back(v: ControllerView, a: NodeId, b: NodeId)
    requires
        v.coherent(),
        a != b,
        v.graph.contains_key(a),
        v.graph.contains_key(b),
        !has_link(v.graph, a, b),
    ensures
        connected_in(v.config, a, b).unlinked(a, b) == v.config,
{
    assert(!has_link(v.graph, b, a));
    lemma_lists_apart(v, v.config.drone, a, b);
    lemma_lists_apart(v, v.config.client, a, b);
    lemma_lists_apart(v, v.config.server, a, b);
    lemma_one_linked(v.config.drone, a, b);
    lemma_one_linked(v.config.client, a, b);
    lemma_one_linked(v.config.server, a, b);
    assert(connected_in(v.config, a, b).unlinked(a, b) =~= v.config);
}

/// Where one property includes another and both hold of equally many ids, they are equal.
proof fn lemma_equally_many(
    p: spec_fn(NodeId) -> bool,
    q: spec_fn(NodeId) -> bool,
    upto: int,
)
    requires
        0 <= upto <= ID_COUNT,
        forall|x: NodeId| #[trigger] p(x) ==> q(x),
    ensures
        how_many(p, upto) <= how_many(q, upto),
        how_many(p, upto) == how_many(q, upto) ==> forall|x: NodeId|
            x < upto && #[trigger] q(x) ==> p(x),
    decreases upto,
{
    if upto > 0 {
        lemma_equally_many(p, q, upto - 1);
        let y = (upto - 1) as NodeId;
        assert(p(y) ==> q(y));
        if how_many(p, upto) == how_many(q, upto) {
            assert forall|x: NodeId| x < upto && #[trigger] q(x) implies p(x) by {
                if x != y {
                    assert(x < upto - 1);
                }
            }
        }
    }
}

proof fn lemma_way_on(step: spec_fn(NodeId, NodeId) -> bool, a: NodeId, b: NodeId, c: NodeId)
    requires
        leads(step, a, b),
        step(b, c),
    ensures
        leads(step, a, c),
{
    let p = choose|p: Seq<NodeId>| #[trigger]
        is_way(step, p) && p.len() > 0 && p[0] == a && p.last() == b;
    let q = p.push(c);
    assert forall|i: int| 0 <= i < q.len() - 1 implies step(#[trigger] q[i], q[i + 1]) by {
        if i < p.len() - 1 {
            assert(q[i] == p[i] && q[i + 1] == p[i + 1]);
        }
    }
    assert(is_way(step, q) && q[0] == a && q.last() == c);
}

proof fn lemma_way_through(
    step: spec_fn(NodeId, NodeId) -> bool,
    a: NodeId,
    q: Seq<NodeId>,
    k: int,
)
    requires
        is_way(step, q),
        0 <= k < q.len(),
        leads(step, a, q[0]),
    ensures
        leads(step, a, q[k]),
    decreases k,
{
    if k > 0 {
        lemma_way_through(step, a, q, k - 1);
        assert(step(q[k - 1], q[k - 1 + 1]));
        lemma_way_on(step, a, q[k - 1], q[k]);
    }
}

/// A way over links that lead both ways can be gone back.
proof fn lemma_way_back(step: spec_fn(NodeId, NodeId) -> bool, q: Seq<NodeId>, k: int)
    requires
        is_way(step, q),
        0 <= k < q.len(),
        forall|i: int| 0 <= i < q.len() - 1 ==> step(#[trigger] q[i + 1], q[i]),
    ensures
        leads(step, q[k], q[0]),
    decreases k,
{
    let only = seq![q[k]];
    assert(is_way(step, only));
    assert(leads(step, q[k], q[k]));
    if k > 0 {
        lemma_way_back(step, q, k - 1);
        assert(step(q[k - 1 + 1], q[k - 1]));
        lemma_way_on(step, q[k], q[k], q[k - 1]);
        let p = choose|p: Seq<NodeId>| #[trigger]
            is_way(step, p) && p.len() > 0 && p[0] == q[k - 1] && p.last() == q[0];
        lemma_way_through(step, q[k], p, p.len() - 1);
    }
}

/// A network in one piece is so from wherever it is seen.
proof fn lemma_seen_from_anywhere(v: ControllerView, from: NodeId, start: NodeId)
    requires
        v.coherent(),
        v.graph.contains_key(from),
        v.graph.contains_key(start),
        v.connected_from(v.graph, from, None),
    ensures
        v.connected_from(v.graph, start, None),
{
    let g = v.graph;
    let step = step_within(v.config, g, None, None);
    let seen = |x: NodeId| leads(step, from, x);
    let other = |x: NodeId| leads(step, start, x);
    let there = |x: NodeId| v.takes_part(g, x, None) && v.active(x);
    assert forall|x: NodeId| #[trigger] seen(x) implies there(x) by {
        lemma_ends_inside(v, from, x);
    }
    lemma_equally_many(seen, there, ID_COUNT as int);
    assert(there(start));
    assert(seen(start));
    let p = choose|p: Seq<NodeId>| #[trigger]
        is_way(step, p) && p.len() > 0 && p[0] == from && p.last() == start;
    assert forall|i: int| 0 <= i < p.len() - 1 implies step(#[trigger] p[i + 1], p[i]) by {
        assert(step(p[i], p[i + 1]));
        assert(has_link(g, p[i], p[i + 1]));
        assert(has_link(g, p[i + 1], p[i]));
    }
    lemma_way_back(step, p, p.len() - 1);
    assert(leads(step, start, from));
    assert forall|x: NodeId| #[trigger] there(x) implies other(x) by {
        assert(seen(x));
        let q = choose|q: Seq<NodeId>| #[trigger]
            is_way(step, q) && q.len() > 0 && q[0] == from && q.last() == x;
        lemma_way_through(step, start, q, q.len() - 1);
    }
    assert forall|x: NodeId| #[trigger] other(x) implies there(x) by {
        lemma_ends_inside(v, start, x);
    }
    lemma_equally_many(there, other, ID_COUNT as int);
    lemma_equally_many(other, there, ID_COUNT as int);
}

/// Steps lead to nodes of the network.
proof fn lemma_ends_inside(v: ControllerView, start: NodeId, x: NodeId)
    requires
        v.coherent(),
        v.graph.contains_key(start),
        leads(step_within(v.config, v.graph, None, None), start, x),
    ensures
        v.takes_part(v.graph, x, None),
        v.active(x),
{
    let step = step_within(v.config, v.graph, None, None);
    let p = choose|p: Seq<NodeId>| #[trigger]
        is_way(step, p) && p.len() > 0 && p[0] == start && p.last() == x;
    if p.len() > 1 {
        assert(step(p[p.len() - 2], p[p.len() - 2 + 1]));
    }
    assert(v.graph.contains_key(x));
}

/// Controllers that agree on the nodes and their roles agree on a network.
proof fn lemma_same_verdict(v: ControllerView, w: ControllerView, ok: bool)
    requires
        forall|x: NodeId| #[trigger] w.config.node_type(x) == v.config.node_type(x),
        entry_ids(w.config.client) == entry_ids(v.config.client),
        entry_ids(w.config.server) == entry_ids(v.config.server),
        w.graph.dom() == v.graph.dom(),
        w.valid(v.graph, None, ok),
    ensures
        v.valid(v.graph, None, ok),
{
    let g = v.graph;
    assert forall|target: Option<NodeId>| #[trigger]
        step_within(w.config, g, target, None) == step_within(v.config, g, target, None) by {
        assert(step_within(w.config, g, target, None) =~= step_within(v.config, g, target, None));
    }
    assert forall|s: NodeId| #[trigger] w.drones_at(g, s) == v.drones_at(g, s) by {
        assert(drone_of(w.config, g, s, true) =~= drone_of(v.config, g, s, true));
    }
    assert forall|c: NodeId, s: NodeId| #[trigger]
        w.pair_joined(g, c, s, None) == v.pair_joined(g, c, s, None) by {}
    assert(w.servers_served(g) == v.servers_served(g));
    if w.all_mutual(g, None) {
        assert forall|c: NodeId, s: NodeId|
            entry_ids(v.config.client).contains(c) && entry_ids(v.config.server).contains(
                s,
            ) implies #[trigger] v.pair_joined(g, c, s, None) by {
            assert(w.pair_joined(g, c, s, None));
        }
    }
    if v.all_mutual(g, None) {
        assert forall|c: NodeId, s: NodeId|
            entry_ids(w.config.client).contains(c) && entry_ids(w.config.server).contains(
                s,
            ) implies #[trigger] w.pair_joined(g, c, s, None) by {
            assert(v.pair_joined(g, c, s, None));
        }
    }
    assert forall|start: NodeId| #[trigger]
        w.connected_from(g, start, None) == v.connected_from(g, start, None) by {
        assert forall|x: NodeId| #[trigger] w.active(x) == v.active(x) by {
            assert(w.graph.dom().contains(x) == v.graph.dom().contains(x));
        }
        assert((|x: NodeId| w.takes_part(g, x, None) && w.active(x)) =~= (|x: NodeId|
            v.takes_part(g, x, None) && v.active(x)));
    }
    assert forall|x: NodeId| #[trigger] w.takes_part(g, x, None) == v.takes_part(g, x, None) by {}
    if w.servers_served(g) && w.all_mutual(g, None) {
        if exists|x: NodeId| #[trigger] w.takes_part(g, x, None) {
            let start = choose|start: NodeId| #[trigger]
                w.takes_part(g, start, None) && ok == w.connected_from(g, start, None);
            assert(v.takes_part(g, start, None));
        } else {
            assert forall|x: NodeId| !(#[trigger] v.takes_part(g, x, None)) by {
                assert(!w.takes_part(g, x, None));
            }
        }
    }
}

/// A link that has been added to a valid network can be removed again. The removal is
/// granted, and the graph and the connection lists are then what they were before the
/// link was added.
pub proof fn law_an_added_link_can_be_removed(
    v: ControllerView,
    a: NodeId,
    b: NodeId,
    r: Result<Seq<Order>, ControlError>,
)
    requires
        v.coherent(),
        v.valid(v.graph, None, true),
        a != b,
        v.graph.contains_key(a),
        v.graph.contains_key(b),
        !has_link(v.graph, a, b),
        v.channels_added(a, b).link_added(a, b).removal_decided(a, b, r),
    ensures
        r is Ok,
        v.channels_added(a, b).link_added(a, b).link_removed(a, b).graph == v.graph,
        v.channels_added(a, b).link_added(a, b).link_removed(a, b).config == v.config,
{
    let w = v.channels_added(a, b).link_added(a, b);
    let g = v.graph;
    assert(!has_link(g, b, a));
    law_removing_undoes_adding(g, a, b);
    lemma_config_given_back(v, a, b);
    assert(w.graph[a].contains(b));
    let ok = choose|ok: bool| #[trigger]
        w.removal_allowed(a, b, ok) && r == (if ok {
            Ok::<Seq<Order>, ControlError>(
                w.order(a, Command::RemoveSender(b)) + w.order(b, Command::RemoveSender(a)),
            )
        } else {
            Err::<Seq<Order>, ControlError>(ControlError::RemovalForbidden)
        });
    assert(without_both(with_both(g, a, b), a, b) == g);
    assert(w.valid(g, None, ok));
    assert forall|x: NodeId| #[trigger] w.config.node_type(x) == v.config.node_type(x) by {
        lemma_connecting_keeps_types(v.config, a, b, x);
    }
    lemma_host_ids_kept(v.config, a, b);
    assert(w.graph.dom() =~= g.dom());
    lemma_same_verdict(v, w, ok);
    if !ok {
        let from = choose|from: NodeId| #[trigger]
            v.takes_part(g, from, None) && v.connected_from(g, from, None);
        let start = choose|start: NodeId| #[trigger]
            v.takes_part(g, start, None) && false == v.connected_from(g, start, None);
        assert(v.takes_part(g, a, None));
        lemma_seen_from_anywhere(v, from, start);
    }
}

proof fn lemma_host_ids_kept(c: ConfigView, a: NodeId, b: NodeId)
    ensures
        entry_ids(connected_in(c, a, b).client) == entry_ids(c.client),
        entry_ids(connected_in(c, a, b).server) == entry_ids(c.server),
{
    lemma_relinking_keeps_ids(c.client, a, b);
    lemma_relinking_keeps_ids(c.client, b, a);
    lemma_relinking_keeps_ids(c.server, a, b);
    lemma_relinking_keeps_ids(c.server, b, a);
}

}
