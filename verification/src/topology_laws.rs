//! Which networks have which shape.
use crate::adjacency::{ids_where, lemma_ids_where};
use crate::config::{entry_ids, EntryView};
use crate::packet::NodeId;
use crate::reach::ID_COUNT;
use crate::topology::{
    degree, drones_linked, how_many, is_double_chain, is_star, last_is, mutual_degree, ordered_ids,
    shape_of, third_neighbours, total, with_degree, Topology,
};
use vstd::prelude::*;

verus! {

/// The list holds exactly the ids that have a property, each one once.
pub open spec fn exactly(p: spec_fn(NodeId) -> bool, list: Seq<NodeId>) -> bool {
    list.no_duplicates() && forall|x: NodeId| #[trigger] list.contains(x) <==> p(x)
}

proof fn lemma_exactly(p: spec_fn(NodeId) -> bool, list: Seq<NodeId>)
    requires
        exactly(p, list),
    ensures
        how_many(p, ID_COUNT as int) == list.len(),
{
    lemma_ids_where(p, ID_COUNT as int);
    let ids = ids_where(p, ID_COUNT as int);
    assert(ids.to_set() =~= list.to_set()) by {
        assert forall|x: NodeId| ids.to_set().contains(x) <==> list.to_set().contains(x) by {
            assert(ids.contains(x) <==> p(x));
            assert(list.contains(x) <==> p(x));
        }
    }
    ids.unique_seq_to_set();
    list.unique_seq_to_set();
}

/// A drone is listed with a drone as a connection. Of entries with the same id the last one
/// counts.
pub open spec fn next_to(s: Seq<EntryView>, a: NodeId, b: NodeId) -> bool {
    &&& exists|k: int| 0 <= k < s.len() && (#[trigger] s[k]).id == b
    &&& exists|k: int|
        {
            &&& 0 <= k < s.len()
            &&& (#[trigger] s[k]).id == a
            &&& s[k].links.contains(b)
            &&& forall|j: int| k < j < s.len() ==> (#[trigger] s[j]).id != a
        }
}

proof fn lemma_next_to(s: Seq<EntryView>, a: NodeId, b: NodeId)
    ensures
        drones_linked(s, a, b) <==> next_to(s, a, b),
{
    if drones_linked(s, a, b) {
        let k = entry_ids(s).index_of(b);
        assert(s[k].id == b);
        let j = choose|j: int| #[trigger] last_is(s, a, j) && s[j].links.contains(b);
        assert(s[j].id == a);
    }
    if next_to(s, a, b) {
        let k = choose|k: int| 0 <= k < s.len() && (#[trigger] s[k]).id == b;
        assert(entry_ids(s)[k] == b);
        let j = choose|j: int|
            {
                &&& 0 <= j < s.len()
                &&& (#[trigger] s[j]).id == a
                &&& s[j].links.contains(b)
                &&& forall|i: int| j < i < s.len() ==> (#[trigger] s[i]).id != a
            };
        assert(last_is(s, a, j));
    }
}

/// A drone is connected to exactly the drones of a list.
pub open spec fn has_neighbours(s: Seq<EntryView>, a: NodeId, list: Seq<NodeId>) -> bool {
    list.no_duplicates() && forall|b: NodeId| #[trigger] list.contains(b) <==> next_to(s, a, b)
}

/// A drone is connected to so many drones.
pub open spec fn has_so_many(s: Seq<EntryView>, a: NodeId, n: nat) -> bool {
    exists|list: Seq<NodeId>| #[trigger] has_neighbours(s, a, list) && list.len() == n
}

proof fn lemma_degree(s: Seq<EntryView>, a: NodeId, list: Seq<NodeId>)
    requires
        has_neighbours(s, a, list),
    ensures
        degree(s, a) == list.len(),
{
    let p = |b: NodeId| drones_linked(s, a, b);
    assert forall|b: NodeId| #[trigger] list.contains(b) <==> p(b) by {
        lemma_next_to(s, a, b);
    }
    lemma_exactly(p, list);
}

/// The number of connections to drones is what it is called.
pub proof fn law_degrees(s: Seq<EntryView>, a: NodeId, n: nat)
    ensures
        has_so_many(s, a, n) <==> degree(s, a) == n,
{
    if has_so_many(s, a, n) {
        let list = choose|list: Seq<NodeId>| #[trigger]
            has_neighbours(s, a, list) && list.len() == n;
        lemma_degree(s, a, list);
    }
    if degree(s, a) == n {
        let p = |b: NodeId| drones_linked(s, a, b);
        lemma_ids_where(p, ID_COUNT as int);
        let ids = ids_where(p, ID_COUNT as int);
        assert forall|b: NodeId| #[trigger] ids.contains(b) <==> next_to(s, a, b) by {
            lemma_next_to(s, a, b);
            assert(ids.contains(b) <==> p(b));
        }
        assert(has_neighbours(s, a, ids));
    }
}

/// The list holds exactly the drones that are connected to so many drones.
pub open spec fn all_with(s: Seq<EntryView>, n: nat, list: Seq<NodeId>) -> bool {
    list.no_duplicates() && forall|a: NodeId| #[trigger]
        list.contains(a) <==> entry_ids(s).contains(a) && has_so_many(s, a, n)
}

proof fn lemma_all_with(s: Seq<EntryView>, n: nat, list: Seq<NodeId>)
    requires
        all_with(s, n, list),
    ensures
        with_degree(s, n) == list.len(),
{
    let p = |a: NodeId| entry_ids(s).contains(a) && degree(s, a) == n;
    assert forall|a: NodeId| #[trigger] list.contains(a) <==> p(a) by {
        law_degrees(s, a, n);
    }
    lemma_exactly(p, list);
}

/// Ten drones of which one is connected to two drones, two to four, three to six and four to
/// three form a tree.
pub proof fn law_trees(
    s: Seq<EntryView>,
    top: Seq<NodeId>,
    second: Seq<NodeId>,
    third: Seq<NodeId>,
    last: Seq<NodeId>,
)
    requires
        s.len() == 10,
        all_with(s, 2, top),
        all_with(s, 4, second),
        all_with(s, 6, third),
        all_with(s, 3, last),
    ensures
        shape_of(s) == Some(Topology::Tree) <==> top.len() == 1 && second.len() == 2 && third.len()
            == 3 && last.len() == 4,
{
    lemma_all_with(s, 2, top);
    lemma_all_with(s, 4, second);
    lemma_all_with(s, 6, third);
    lemma_all_with(s, 3, last);
}

/// A drone is connected to four drones or more.
pub open spec fn is_hub(s: Seq<EntryView>, a: NodeId) -> bool {
    entry_ids(s).contains(a) && exists|n: nat| n >= 4 && #[trigger] has_so_many(s, a, n)
}

/// Ten drones of which three or more are connected to four drones or more form a sub-net,
/// unless they form a tree; others do not.
pub proof fn law_sub_nets(s: Seq<EntryView>, hubs: Seq<NodeId>)
    requires
        s.len() == 10,
        hubs.no_duplicates(),
        forall|a: NodeId| #[trigger] hubs.contains(a) <==> is_hub(s, a),
    ensures
        shape_of(s) == Some(Topology::SubNet) <==> hubs.len() >= 3 && shape_of(s) != Some(
            Topology::Tree,
        ),
{
    let p = |a: NodeId| entry_ids(s).contains(a) && degree(s, a) >= 4;
    assert forall|a: NodeId| #[trigger] hubs.contains(a) <==> p(a) by {
        if is_hub(s, a) {
            let n = choose|n: nat| n >= 4 && #[trigger] has_so_many(s, a, n);
            law_degrees(s, a, n);
        }
        if p(a) {
            law_degrees(s, a, degree(s, a));
            assert(has_so_many(s, a, degree(s, a)));
        }
    }
    lemma_exactly(p, hubs);
}

/// Drone `i` of ten is connected to the third one on either side, and to no other drone.
pub open spec fn third_on_either_side(s: Seq<EntryView>, i: int) -> bool {
    has_neighbours(s, s[i].id, seq![s[(i + 3) % 10].id, s[(i + 7) % 10].id])
}

/// Ten drones in the order of their ids, each connected to the third one on either side and to
/// no other drone, form a star.
pub proof fn law_stars(s: Seq<EntryView>)
    requires
        s.len() == 10,
        forall|i: int, j: int| 0 <= i < j < 10 ==> (#[trigger] s[i]).id < (#[trigger] s[j]).id,
        forall|i: int| 0 <= i < 10 ==> #[trigger] third_on_either_side(s, i),
    ensures
        shape_of(s) == Some(Topology::Star),
{
    let v = entry_ids(s);
    let leq = |a: NodeId, b: NodeId| a <= b;
    assert(v.sort_by(leq) =~= v) by {
        v.lemma_sort_by_ensures(leq);
        assert(vstd::relations::sorted_by(v, leq)) by {
            assert forall|i: int, j: int| 0 <= i < j < v.len() implies #[trigger] leq(v[i], v[j]) by {
                assert(s[i].id < s[j].id);
            }
        }
        vstd::seq_lib::lemma_sorted_unique(v.sort_by(leq), v, leq);
    }
    assert(ordered_ids(s) == v);
    assert forall|i: int| 0 <= i < 10 implies #[trigger] third_neighbours(s, v, i) by {
        let x = s[(i + 3) % 10].id;
        let y = s[(i + 7) % 10].id;
        let list = seq![x, y];
        assert(third_on_either_side(s, i));
        lemma_degree(s, s[i].id, list);
        assert(list[0] == x && list[1] == y);
        assert(list.contains(x) && list.contains(y));
        lemma_next_to(s, s[i].id, x);
        lemma_next_to(s, s[i].id, y);
    }
    assert(is_star(s));
    assert forall|a: NodeId| #[trigger] v.contains(a) implies degree(s, a) == 2 by {
        let i = v.index_of(a);
        assert(third_neighbours(s, v, i));
    }
    assert(v.no_duplicates()) by {
        assert forall|i: int, j: int| 0 <= i < j < v.len() implies v[i] != v[j] by {
            assert(s[i].id < s[j].id);
        }
    }
    let two = |a: NodeId| entry_ids(s).contains(a) && degree(s, a) == 2;
    assert(exactly(two, v));
    lemma_exactly(two, v);
    let four = |a: NodeId| entry_ids(s).contains(a) && degree(s, a) >= 4;
    let none = Seq::<NodeId>::empty();
    assert(exactly(four, none));
    lemma_exactly(four, none);
}

/// A network that does not have ten drones has none of the known shapes.
pub proof fn law_other_sizes_have_no_shape(s: Seq<EntryView>)
    requires
        s.len() != 10,
    ensures
        shape_of(s) is None,
{
}

/// Every connection between drones is there both ways.
pub open spec fn all_mutual(s: Seq<EntryView>) -> bool {
    forall|a: NodeId, b: NodeId| #[trigger] next_to(s, a, b) ==> next_to(s, b, a)
}

proof fn lemma_same_count(p: spec_fn(NodeId) -> bool, q: spec_fn(NodeId) -> bool, n: int)
    requires
        forall|x: NodeId| #[trigger] p(x) == q(x),
    ensures
        how_many(p, n) == how_many(q, n),
    decreases n,
{
    if n > 0 {
        lemma_same_count(p, q, n - 1);
        assert(p((n - 1) as NodeId) == q((n - 1) as NodeId));
    }
}

proof fn lemma_sum(
    f: spec_fn(NodeId) -> nat,
    two: spec_fn(NodeId) -> bool,
    three: spec_fn(NodeId) -> bool,
    n: int,
)
    requires
        forall|x: NodeId|
            #[trigger] f(x) == (if two(x) {
                2nat
            } else {
                0
            }) + (if three(x) {
                3nat
            } else {
                0
            }),
    ensures
        total(f, n) == 2 * how_many(two, n) + 3 * how_many(three, n),
    decreases n,
{
    if n > 0 {
        lemma_sum(f, two, three, n - 1);
        let x = (n - 1) as NodeId;
        assert(f(x) == (if two(x) {
            2nat
        } else {
            0
        }) + (if three(x) {
            3nat
        } else {
            0
        }));
    }
}

proof fn lemma_no_neighbours(s: Seq<EntryView>, a: NodeId)
    requires
        !entry_ids(s).contains(a),
    ensures
        forall|b: NodeId| !(#[trigger] drones_linked(s, a, b)),
{
    assert forall|b: NodeId| !(#[trigger] drones_linked(s, a, b)) by {
        if drones_linked(s, a, b) {
            let k = choose|k: int| #[trigger] last_is(s, a, k) && s[k].links.contains(b);
            assert(entry_ids(s)[k] == a);
        }
    }
}

/// Ten drones of which four are connected to two drones and six to three, all of them both
/// ways, form a double chain. Those in which the drones with the ids 9 and 10 are connected
/// are left out: they may form a butterfly.
pub proof fn law_double_chains(s: Seq<EntryView>, ends: Seq<NodeId>, inner: Seq<NodeId>)
    requires
        s.len() == 10,
        all_mutual(s),
        !next_to(s, 9, 10),
        all_with(s, 2, ends),
        all_with(s, 3, inner),
        ends.len() == 4,
        inner.len() == 6,
        forall|a: NodeId| #[trigger]
            entry_ids(s).contains(a) ==> has_so_many(s, a, 2) || has_so_many(s, a, 3),
    ensures
        shape_of(s) == Some(Topology::DoubleChain),
{
    lemma_all_with(s, 2, ends);
    lemma_all_with(s, 3, inner);
    assert forall|a: NodeId| #[trigger] entry_ids(s).contains(a) implies degree(s, a) == 2
        || degree(s, a) == 3 by {
        law_degrees(s, a, 2);
        law_degrees(s, a, 3);
    }
    let none = Seq::<NodeId>::empty();
    let six = |a: NodeId| entry_ids(s).contains(a) && degree(s, a) == 6;
    assert(exactly(six, none));
    lemma_exactly(six, none);
    let hubs = |a: NodeId| entry_ids(s).contains(a) && degree(s, a) >= 4;
    assert(exactly(hubs, none));
    lemma_exactly(hubs, none);
    lemma_next_to(s, 9, 10);
    assert(!is_star(s)) by {
        let v = ordered_ids(s);
        let a = inner[0];
        assert(inner.contains(a));
        law_degrees(s, a, 3);
        let leq = |a: NodeId, b: NodeId| a <= b;
        entry_ids(s).lemma_sort_by_ensures(leq);
        assert(v.to_multiset() =~= entry_ids(s).to_multiset());
        assert(entry_ids(s).to_multiset().contains(a)) by {
            entry_ids(s).to_multiset_ensures();
        }
        v.to_multiset_ensures();
        assert(v.contains(a));
        entry_ids(s).to_multiset_ensures();
        assert(v.len() == 10);
        let i = v.index_of(a);
        if is_star(s) {
            assert(third_neighbours(s, v, i));
        }
    }
    let f = |a: NodeId| mutual_degree(s, a);
    let two = |a: NodeId| entry_ids(s).contains(a) && degree(s, a) == 2;
    let three = |a: NodeId| entry_ids(s).contains(a) && degree(s, a) == 3;
    assert forall|a: NodeId|
        #[trigger] f(a) == (if two(a) {
            2nat
        } else {
            0
        }) + (if three(a) {
            3nat
        } else {
            0
        }) by {
        let p = |b: NodeId| drones_linked(s, a, b) && drones_linked(s, b, a);
        let q = |b: NodeId| drones_linked(s, a, b);
        assert forall|b: NodeId| #[trigger] p(b) == q(b) by {
            lemma_next_to(s, a, b);
            lemma_next_to(s, b, a);
        }
        lemma_same_count(p, q, ID_COUNT as int);
        assert(f(a) == degree(s, a));
        if !entry_ids(s).contains(a) {
            lemma_no_neighbours(s, a);
            assert(exactly(q, none));
            lemma_exactly(q, none);
        }
    }
    lemma_sum(f, two, three, ID_COUNT as int);
    assert(is_double_chain(s));
}

}
