//! Nodes and, for each of them, the nodes that it is linked to.
use crate::packet::NodeId;
use crate::reach::{follows_links, reached_from, reaches, ID_COUNT};
use crate::topology::how_many;
use vstd::prelude::*;

verus! {

/// The nodes that each node is linked to.
pub type Links = Map<NodeId, Set<NodeId>>;

/// Nodes with the nodes that they are linked to.
#[derive(Debug)]
pub struct Adjacency {
    present: Vec<bool>,
    rows: Vec<Vec<bool>>,
}

impl View for Adjacency {
    type V = Links;

    closed spec fn view(&self) -> Links {
        Map::new(
            |a: NodeId| self.present@[a as int],
            |a: NodeId| Set::new(|b: NodeId| self.rows@[a as int]@[b as int]),
        )
    }
}

/// `m` with a node that has no links, where it is not there yet.
pub open spec fn with_key(m: Links, a: NodeId) -> Links {
    if m.contains_key(a) {
        m
    } else {
        m.insert(a, Set::empty())
    }
}

/// `m` with a link from `a` to `b`.
pub open spec fn with_link(m: Links, a: NodeId, b: NodeId) -> Links {
    m.insert(a, with_key(m, a)[a].insert(b))
}

/// `m` with links both ways.
pub open spec fn with_both(m: Links, a: NodeId, b: NodeId) -> Links {
    with_link(with_link(m, a, b), b, a)
}

/// `m` without the link from `a` to `b`.
pub open spec fn without_link(m: Links, a: NodeId, b: NodeId) -> Links {
    if m.contains_key(a) {
        m.insert(a, m[a].remove(b))
    } else {
        m
    }
}

/// `m` without links either way.
pub open spec fn without_both(m: Links, a: NodeId, b: NodeId) -> Links {
    without_link(without_link(m, a, b), b, a)
}

/// `m` has a link from `a` to `b`.
pub open spec fn has_link(m: Links, a: NodeId, b: NodeId) -> bool {
    m.contains_key(a) && m[a].contains(b)
}

fn blank() -> (r: Vec<bool>)
    ensures
        r@.len() == ID_COUNT,
        forall|i: int| 0 <= i < ID_COUNT ==> !(#[trigger] r@[i]),
{
    let mut r: Vec<bool> = Vec::new();
    let mut i: usize = 0;
    while i < ID_COUNT
        invariant
            i <= ID_COUNT,
            r@.len() == i,
            forall|j: int| 0 <= j < i ==> !(#[trigger] r@[j]),
        decreases ID_COUNT - i,
    {
        r.push(false);
        i = i + 1;
    }
    r
}

fn copy_flags(v: &Vec<bool>) -> (r: Vec<bool>)
    ensures
        r@ == v@,
{
    let mut r: Vec<bool> = Vec::new();
    let mut i: usize = 0;
    while i < v.len()
        invariant
            i <= v@.len(),
            r@ == v@.subrange(0, i as int),
        decreases v@.len() - i,
    {
        r.push(v[i]);
        i = i + 1;
        assert(r@ =~= v@.subrange(0, i as int));
    }
    assert(r@ =~= v@);
    r
}

impl Adjacency {
    /// The tables are complete, and a node that is not there has no links.
    pub closed spec fn wf(&self) -> bool {
        &&& self.present@.len() == ID_COUNT
        &&& self.rows@.len() == ID_COUNT
        &&& forall|i: int| 0 <= i < ID_COUNT ==> (#[trigger] self.rows@[i])@.len() == ID_COUNT
        &&& forall|i: int, j: int|
            0 <= i < ID_COUNT && 0 <= j < ID_COUNT && !self.present@[i] ==> !(
            #[trigger] self.rows@[i]@[j])
    }

    /// No nodes.
    pub fn new() -> (r: Self)
        ensures
            r.wf(),
            r@ == Map::<NodeId, Set<NodeId>>::empty(),
    {
        let present: Vec<bool> = blank();
        let mut rows: Vec<Vec<bool>> = Vec::new();
        let mut i: usize = 0;
        while i < ID_COUNT
            invariant
                i <= ID_COUNT,
                rows@.len() == i,
                forall|k: int| 0 <= k < i ==> (#[trigger] rows@[k])@.len() == ID_COUNT,
                forall|k: int, j: int|
                    0 <= k < i && 0 <= j < ID_COUNT ==> !(#[trigger] rows@[k]@[j]),
            decreases ID_COUNT - i,
        {
            let row: Vec<bool> = blank();
            rows.push(row);
            i = i + 1;
        }
        let r = Adjacency { present, rows };
        assert(r@ =~= Map::<NodeId, Set<NodeId>>::empty());
        r
    }

    /// A copy.
    pub fn duplicate(&self) -> (r: Self)
        requires
            self.wf(),
        ensures
            r.wf(),
            r@ == self@,
    {
        let mut rows: Vec<Vec<bool>> = Vec::new();
        let mut i: usize = 0;
        while i < ID_COUNT
            invariant
                i <= ID_COUNT,
                self.wf(),
                rows@.len() == i,
                forall|k: int| 0 <= k < i ==> (#[trigger] rows@[k])@ == self.rows@[k]@,
            decreases ID_COUNT - i,
        {
            rows.push(copy_flags(&self.rows[i]));
            i = i + 1;
        }
        let r = Adjacency { present: copy_flags(&self.present), rows };
        assert forall|i: int, j: int|
            0 <= i < ID_COUNT && 0 <= j < ID_COUNT && !r.present@[i] implies !(
        #[trigger] r.rows@[i]@[j]) by {
            assert(r.rows@[i]@ == self.rows@[i]@);
            assert(!self.rows@[i]@[j]);
        }
        assert(r@ =~= self@) by {
            assert forall|a: NodeId| r@.contains_key(a) implies #[trigger] r@[a] == self@[a] by {
                assert(r.rows@[a as int]@ == self.rows@[a as int]@);
                assert(r@[a] =~= self@[a]);
            }
        }
        r
    }

    /// Whether a node is there.
    pub fn contains_key(&self, a: NodeId) -> (r: bool)
        requires
            self.wf(),
        ensures
            r == self@.contains_key(a),
    {
        self.present[a as usize]
    }

    /// Whether a link is there.
    pub fn linked(&self, a: NodeId, b: NodeId) -> (r: bool)
        requires
            self.wf(),
        ensures
            r == has_link(self@, a, b),
    {
        let r: bool = self.rows[a as usize][b as usize];
        assert(self.rows@[a as int]@[b as int] == r);
        assert(self@.contains_key(a) ==> self@[a].contains(b) == r);
        r
    }

    /// Adds a node, where it is not there yet.
    pub fn add_key(&mut self, a: NodeId)
        requires
            old(self).wf(),
        ensures
            final(self).wf(),
            final(self)@ == with_key(old(self)@, a),
    {
        self.present.set(a as usize, true);
        proof {
            assert forall|x: NodeId| self@.contains_key(x) implies #[trigger] self@[x] == with_key(
                old(self)@,
                a,
            )[x] by {
                assert(self.rows@[x as int] == old(self).rows@[x as int]);
                if x == a && !old(self)@.contains_key(a) {
                    assert forall|b: NodeId| !(#[trigger] self@[x].contains(b)) by {
                        assert(!old(self).rows@[x as int]@[b as int]);
                    }
                    assert(self@[x] =~= Set::empty());
                } else {
                    assert(self@[x] =~= old(self)@[x]);
                }
            }
            assert(self@ =~= with_key(old(self)@, a));
        }
    }

    /// Adds a link from a node, and the node where it is not there yet.
    pub fn add_link(&mut self, a: NodeId, b: NodeId)
        requires
            old(self).wf(),
        ensures
            final(self).wf(),
            final(self)@ == with_link(old(self)@, a, b),
    {
        self.add_key(a);
        let ghost m = self@;
        let ghost before = self.rows@;
        self.rows[a as usize].set(b as usize, true);
        proof {
            assert(self.rows@[a as int]@ == before[a as int]@.update(b as int, true));
            assert forall|i: int, j: int|
                0 <= i < ID_COUNT && 0 <= j < ID_COUNT && !self.present@[i] implies !(
            #[trigger] self.rows@[i]@[j]) by {
                assert(m.contains_key(a));
                assert(i != a);
                assert(self.rows@[i] == before[i]);
                assert(!before[i]@[j]);
            }
            assert forall|x: NodeId| self@.contains_key(x) implies #[trigger] self@[x] == with_link(
                old(self)@,
                a,
                b,
            )[x] by {
                if x == a {
                    assert(self@[x] =~= m[a].insert(b));
                } else {
                    assert(self.rows@[x as int] == before[x as int]);
                    assert(self@[x] =~= m[x]);
                }
            }
            assert(m.contains_key(a));
            assert(self@.dom() =~= m.dom());
            assert(m.dom() =~= with_link(old(self)@, a, b).dom());
            assert(self@ =~= with_link(old(self)@, a, b));
        }
    }

    /// Removes a link from a node.
    pub fn remove_link(&mut self, a: NodeId, b: NodeId)
        requires
            old(self).wf(),
        ensures
            final(self).wf(),
            final(self)@ == without_link(old(self)@, a, b),
    {
        let ghost m = self@;
        let ghost before = self.rows@;
        self.rows[a as usize].set(b as usize, false);
        proof {
            assert(self.rows@[a as int]@ == before[a as int]@.update(b as int, false));
            assert forall|i: int, j: int|
                0 <= i < ID_COUNT && 0 <= j < ID_COUNT && !self.present@[i] implies !(
            #[trigger] self.rows@[i]@[j]) by {
                if i != a {
                    assert(self.rows@[i] == before[i]);
                }
                assert(!before[i]@[j]);
            }
            assert forall|x: NodeId| self@.contains_key(x) implies #[trigger] self@[x]
                == without_link(m, a, b)[x] by {
                if x == a {
                    assert(self@[x] =~= m[a].remove(b));
                } else {
                    assert(self.rows@[x as int] == before[x as int]);
                    assert(self@[x] =~= m[x]);
                }
            }
            assert(self@ =~= without_link(m, a, b));
        }
    }

    /// Removes a node with its links to others; links to it stay.
    pub fn remove_key(&mut self, a: NodeId)
        requires
            old(self).wf(),
        ensures
            final(self).wf(),
            final(self)@ == old(self)@.remove(a),
    {
        let ghost m = self@;
        let ghost before = self.rows@;
        let row: Vec<bool> = blank();
        self.rows.set(a as usize, row);
        self.present.set(a as usize, false);
        proof {
            assert forall|i: int, j: int|
                0 <= i < ID_COUNT && 0 <= j < ID_COUNT && !self.present@[i] implies !(
            #[trigger] self.rows@[i]@[j]) by {
                if i != a {
                    assert(self.rows@[i] == before[i]);
                    assert(!before[i]@[j]);
                }
            }
            assert forall|x: NodeId| self@.contains_key(x) implies #[trigger] self@[x] == m.remove(
                a,
            )[x] by {
                assert(self.rows@[x as int] == before[x as int]);
                assert(self@[x] =~= m[x]);
            }
            assert(self@ =~= m.remove(a));
        }
    }

    /// Gives a node the links of a list in place of those that it has.
    pub fn put(&mut self, a: NodeId, links: &Vec<NodeId>)
        requires
            old(self).wf(),
        ensures
            final(self).wf(),
            final(self)@ == old(self)@.insert(a, links@.to_set()),
    {
        let ghost m = self@;
        self.remove_key(a);
        self.add_key(a);
        let mut i: usize = 0;
        assert(links@.subrange(0, 0).to_set() =~= Set::empty());
        assert(self@ =~= m.insert(a, links@.subrange(0, 0).to_set()));
        while i < links.len()
            invariant
                i <= links@.len(),
                self.wf(),
                self@ == m.insert(a, links@.subrange(0, i as int).to_set()),
            decreases links@.len() - i,
        {
            self.add_link(a, links[i]);
            proof {
                let t = links@.subrange(0, i as int);
                let u = links@.subrange(0, i + 1);
                assert(u =~= t.push(links@[i as int]));
                assert forall|x: NodeId| u.to_set().contains(x) <==> t.to_set().insert(
                    links@[i as int],
                ).contains(x) by {
                    assert(u[i as int] == links@[i as int]);
                    if t.contains(x) {
                        let k = t.index_of(x);
                        assert(u[k] == x);
                    }
                    if u.contains(x) && x != links@[i as int] {
                        let k = u.index_of(x);
                        assert(t[k] == x);
                    }
                }
                assert(u.to_set() =~= t.to_set().insert(links@[i as int]));
                assert(self@ =~= m.insert(a, u.to_set()));
            }
            i = i + 1;
        }
        assert(links@.subrange(0, i as int) =~= links@);
    }
}

/// Every two neighbours on `p` are a step apart.
pub open spec fn is_way(step: spec_fn(NodeId, NodeId) -> bool, p: Seq<NodeId>) -> bool {
    forall|i: int| 0 <= i < p.len() - 1 ==> step(#[trigger] p[i], p[i + 1])
}

/// Steps lead from `a` to `b`.
pub open spec fn leads(step: spec_fn(NodeId, NodeId) -> bool, a: NodeId, b: NodeId) -> bool {
    exists|p: Seq<NodeId>| #[trigger] is_way(step, p) && p.len() > 0 && p[0] == a && p.last() == b
}

/// The links of a list are the steps.
pub open spec fn lists(links: Seq<(NodeId, NodeId)>, step: spec_fn(NodeId, NodeId) -> bool) -> bool {
    forall|a: NodeId, b: NodeId| #[trigger] links.contains((a, b)) <==> step(a, b)
}

proof fn lemma_same_ways(
    links: Seq<(NodeId, NodeId)>,
    step: spec_fn(NodeId, NodeId) -> bool,
    a: NodeId,
    b: NodeId,
)
    requires
        lists(links, step),
    ensures
        reaches(links, a, b) == leads(step, a, b),
{
    if reaches(links, a, b) {
        let p = choose|p: Seq<NodeId>| #[trigger]
            follows_links(links, p) && p.len() > 0 && p[0] == a && p.last() == b;
        assert forall|i: int| 0 <= i < p.len() - 1 implies step(#[trigger] p[i], p[i + 1]) by {
            assert(links.contains((p[i], p[i + 1])));
        }
        assert(is_way(step, p));
    }
    if leads(step, a, b) {
        let p = choose|p: Seq<NodeId>| #[trigger]
            is_way(step, p) && p.len() > 0 && p[0] == a && p.last() == b;
        assert forall|i: int| 0 <= i < p.len() - 1 implies links.contains((#[trigger] p[i], p[i + 1])) by {
            assert(step(p[i], p[i + 1]));
        }
        assert(follows_links(links, p));
    }
}

/// Marks the nodes that the listed steps lead to.
pub fn marks_from(
    links: &Vec<(NodeId, NodeId)>,
    start: NodeId,
    Ghost(step): Ghost<spec_fn(NodeId, NodeId) -> bool>,
) -> (r: Vec<bool>)
    requires
        lists(links@, step),
    ensures
        r@.len() == ID_COUNT,
        forall|x: NodeId| #[trigger] r@[x as int] == leads(step, start, x),
{
    let r: Vec<bool> = reached_from(links, start);
    proof {
        assert forall|x: NodeId| #[trigger] r@[x as int] == leads(step, start, x) by {
            lemma_same_ways(links@, step, start, x);
        }
    }
    r
}

/// The ids below `upto` that have a property, in ascending order.
pub open spec fn ids_where(p: spec_fn(NodeId) -> bool, upto: int) -> Seq<NodeId>
    decreases upto,
{
    if upto <= 0 {
        Seq::empty()
    } else if p((upto - 1) as NodeId) {
        ids_where(p, upto - 1).push((upto - 1) as NodeId)
    } else {
        ids_where(p, upto - 1)
    }
}

/// The ids that have a property are the ones listed, each one once.
pub proof fn lemma_ids_where(p: spec_fn(NodeId) -> bool, upto: int)
    requires
        0 <= upto <= ID_COUNT,
    ensures
        forall|x: NodeId| #[trigger] ids_where(p, upto).contains(x) <==> x < upto && p(x),
        ids_where(p, upto).no_duplicates(),
        ids_where(p, upto).len() == how_many(p, upto),
    decreases upto,
{
    if upto > 0 {
        lemma_ids_where(p, upto - 1);
        let before = ids_where(p, upto - 1);
        let last = (upto - 1) as NodeId;
        let all = ids_where(p, upto);
        assert forall|x: NodeId| #[trigger] all.contains(x) <==> x < upto && p(x) by {
            if before.contains(x) {
                let j = before.index_of(x);
                assert(all[j] == x);
            }
            if all.contains(x) {
                let j = all.index_of(x);
                if j < before.len() {
                    assert(before[j] == x);
                    assert(before.contains(x));
                }
            }
            if p(last) {
                assert(all[before.len() as int] == last);
            }
            assert(before.contains(x) <==> x < upto - 1 && p(x));
        }
        if p(last) {
            assert(!before.contains(last));
            assert forall|i: int, j: int| 0 <= i < j < all.len() implies all[i] != all[j] by {
                if j == before.len() {
                    assert(before.contains(before[i]));
                }
            }
        }
    }
}

}
