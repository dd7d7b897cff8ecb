//! Which nodes can be reached over which links.
use crate::packet::NodeId;
use vstd::prelude::*;

verus! {

/// Number of different node ids.
pub const ID_COUNT: usize = 256;

/// Every two neighbours on `p` are joined by a link.
pub open spec fn follows_links(links: Seq<(NodeId, NodeId)>, p: Seq<NodeId>) -> bool {
    forall|i: int| 0 <= i < p.len() - 1 ==> links.contains((#[trigger] p[i], p[i + 1]))
}

/// Links lead from `a` to `b`.
pub open spec fn reaches(links: Seq<(NodeId, NodeId)>, a: NodeId, b: NodeId) -> bool {
    exists|p: Seq<NodeId>| #[trigger]
        follows_links(links, p) && p.len() > 0 && p[0] == a && p.last() == b
}

/// Every node reaches itself.
pub proof fn lemma_reaches_itself(links: Seq<(NodeId, NodeId)>, a: NodeId)
    ensures
        reaches(links, a, a),
{
    let p = seq![a];
    assert(follows_links(links, p));
}

/// A link leads one node further.
pub proof fn lemma_reaches_on(links: Seq<(NodeId, NodeId)>, a: NodeId, b: NodeId, c: NodeId)
    requires
        reaches(links, a, b),
        links.contains((b, c)),
    ensures
        reaches(links, a, c),
{
    let p = choose|p: Seq<NodeId>| #[trigger]
        follows_links(links, p) && p.len() > 0 && p[0] == a && p.last() == b;
    let q = p.push(c);
    assert forall|i: int| 0 <= i < q.len() - 1 implies links.contains((#[trigger] q[i], q[i + 1])) by {
        if i < p.len() - 1 {
            assert(q[i] == p[i] && q[i + 1] == p[i + 1]);
        }
    }
    assert(follows_links(links, q) && q[0] == a && q.last() == c);
}

proof fn lemma_reaches_along(links: Seq<(NodeId, NodeId)>, a: NodeId, q: Seq<NodeId>, k: int)
    requires
        follows_links(links, q),
        0 <= k < q.len(),
        reaches(links, a, q[0]),
    ensures
        reaches(links, a, q[k]),
    decreases k,
{
    if k > 0 {
        lemma_reaches_along(links, a, q, k - 1);
        assert(links.contains((q[k - 1], q[k - 1 + 1])));
        lemma_reaches_on(links, a, q[k - 1], q[k]);
    }
}

/// What is reached from what is reached is reached.
pub proof fn lemma_reaches_through(links: Seq<(NodeId, NodeId)>, a: NodeId, b: NodeId, c: NodeId)
    requires
        reaches(links, a, b),
        reaches(links, b, c),
    ensures
        reaches(links, a, c),
{
    let q = choose|q: Seq<NodeId>| #[trigger]
        follows_links(links, q) && q.len() > 0 && q[0] == b && q.last() == c;
    lemma_reaches_along(links, a, q, q.len() - 1);
}

/// Every link has its reverse.
pub open spec fn both_ways(links: Seq<(NodeId, NodeId)>) -> bool {
    forall|a: NodeId, b: NodeId| #[trigger] links.contains((a, b)) ==> links.contains((b, a))
}

proof fn lemma_back_along(links: Seq<(NodeId, NodeId)>, p: Seq<NodeId>, k: int)
    requires
        both_ways(links),
        follows_links(links, p),
        0 <= k < p.len(),
    ensures
        reaches(links, p[k], p[0]),
    decreases k,
{
    lemma_reaches_itself(links, p[k]);
    if k > 0 {
        lemma_back_along(links, p, k - 1);
        assert(links.contains((p[k - 1], p[k - 1 + 1])));
        lemma_reaches_on(links, p[k], p[k], p[k - 1]);
        lemma_reaches_through(links, p[k], p[k - 1], p[0]);
    }
}

/// Where every link has its reverse, every way does.
pub proof fn lemma_reaches_back(links: Seq<(NodeId, NodeId)>, a: NodeId, b: NodeId)
    requires
        both_ways(links),
        reaches(links, a, b),
    ensures
        reaches(links, b, a),
{
    let p = choose|p: Seq<NodeId>| #[trigger]
        follows_links(links, p) && p.len() > 0 && p[0] == a && p.last() == b;
    lemma_back_along(links, p, p.len() - 1);
}

/// The number of entries of `v` that are false.
pub open spec fn unmarked(v: Seq<bool>) -> nat
    decreases v.len(),
{
    if v.len() == 0 {
        0
    } else {
        unmarked(v.drop_last()) + (if v.last() {
            0nat
        } else {
            1nat
        })
    }
}

proof fn lemma_marking(v: Seq<bool>, i: int)
    requires
        0 <= i < v.len(),
        !v[i],
    ensures
        unmarked(v.update(i, true)) == unmarked(v) - 1,
    decreases v.len(),
{
    let w = v.update(i, true);
    if i == v.len() - 1 {
        assert(w.drop_last() =~= v.drop_last());
    } else {
        assert(w.drop_last() =~= v.drop_last().update(i, true));
        lemma_marking(v.drop_last(), i);
    }
}

proof fn lemma_closed(links: Seq<(NodeId, NodeId)>, marks: Seq<bool>, start: NodeId, p: Seq<NodeId>, k: int)
    requires
        marks.len() == ID_COUNT,
        marks[start as int],
        forall|i: int|
            0 <= i < links.len() && marks[(#[trigger] links[i]).0 as int] ==> marks[links[i].1 as int],
        follows_links(links, p),
        p.len() > 0,
        p[0] == start,
        0 <= k < p.len(),
    ensures
        marks[p[k] as int],
    decreases k,
{
    if k > 0 {
        lemma_closed(links, marks, start, p, k - 1);
        assert(links.contains((p[k - 1], p[k - 1 + 1])));
        let i = links.index_of((p[k - 1], p[k]));
        assert(links[i] == (p[k - 1], p[k]));
    }
}

/// Marks the nodes that links lead to from `start`.
pub fn reached_from(links: &Vec<(NodeId, NodeId)>, start: NodeId) -> (r: Vec<bool>)
    ensures
        r@.len() == ID_COUNT,
        forall|x: NodeId| #[trigger] r@[x as int] == reaches(links@, start, x),
{
    let mut marks: Vec<bool> = Vec::new();
    let mut i: usize = 0;
    while i < ID_COUNT
        invariant
            i <= ID_COUNT,
            marks@.len() == i,
            forall|j: int| 0 <= j < i ==> !(#[trigger] marks@[j]),
        decreases ID_COUNT - i,
    {
        marks.push(false);
        i = i + 1;
    }
    marks.set(start as usize, true);
    proof {
        lemma_reaches_itself(links@, start);
    }
    let mut changed: bool = true;
    while changed
        invariant
            marks@.len() == ID_COUNT,
            marks@[start as int],
            forall|x: NodeId| #[trigger] marks@[x as int] ==> reaches(links@, start, x),
            !changed ==> forall|k: int|
                0 <= k < links@.len() && marks@[(#[trigger] links@[k]).0 as int]
                    ==> marks@[links@[k].1 as int],
        decreases unmarked(marks@) + (if changed {
            1nat
        } else {
            0nat
        }),
    {
        changed = false;
        let ghost before = marks@;
        let mut k: usize = 0;
        while k < links.len()
            invariant
                k <= links@.len(),
                marks@.len() == ID_COUNT,
                marks@[start as int],
                forall|x: NodeId| #[trigger] marks@[x as int] ==> reaches(links@, start, x),
                !changed ==> marks@ == before && forall|j: int|
                    0 <= j < k && marks@[(#[trigger] links@[j]).0 as int]
                        ==> marks@[links@[j].1 as int],
                unmarked(marks@) + (if changed {
                    1nat
                } else {
                    0nat
                }) <= unmarked(before),
            decreases links@.len() - k,
        {
            let (a, b): (NodeId, NodeId) = links[k];
            if marks[a as usize] && !marks[b as usize] {
                proof {
                    assert(links@[k as int] == (a, b));
                    lemma_reaches_on(links@, start, a, b);
                    lemma_marking(marks@, b as int);
                }
                marks.set(b as usize, true);
                changed = true;
            }
            k = k + 1;
        }
    }
    proof {
        assert forall|x: NodeId| #[trigger] marks@[x as int] == reaches(links@, start, x) by {
            if reaches(links@, start, x) {
                let p = choose|p: Seq<NodeId>| #[trigger]
                    follows_links(links@, p) && p.len() > 0 && p[0] == start && p.last() == x;
                lemma_closed(links@, marks@, start, p, p.len() - 1);
            }
        }
    }
    marks
}

/// Every node of `ids` reaches every other one.
pub open spec fn all_joined(links: Seq<(NodeId, NodeId)>, ids: Seq<NodeId>) -> bool {
    forall|a: NodeId, b: NodeId|
        #![trigger ids.contains(a), ids.contains(b)]
        ids.contains(a) && ids.contains(b) ==> reaches(links, a, b)
}

/// `start` reaches every node of `ids`.
pub open spec fn joined_from(links: Seq<(NodeId, NodeId)>, ids: Seq<NodeId>, start: NodeId) -> bool {
    forall|b: NodeId| #[trigger] ids.contains(b) ==> reaches(links, start, b)
}

/// Whether `start` reaches every node of a list.
pub fn reaches_all(links: &Vec<(NodeId, NodeId)>, ids: &Vec<NodeId>, start: NodeId) -> (r: bool)
    ensures
        r == joined_from(links@, ids@, start),
{
    let marks: Vec<bool> = reached_from(links, start);
    let mut i: usize = 0;
    while i < ids.len()
        invariant
            i <= ids@.len(),
            marks@.len() == ID_COUNT,
            forall|x: NodeId| #[trigger] marks@[x as int] == reaches(links@, start, x),
            forall|j: int| 0 <= j < i ==> reaches(links@, start, #[trigger] ids@[j]),
        decreases ids@.len() - i,
    {
        if !marks[ids[i] as usize] {
            assert(ids@.contains(ids@[i as int]));
            return false;
        }
        i = i + 1;
    }
    assert forall|b: NodeId| #[trigger] ids@.contains(b) implies reaches(links@, start, b) by {
        let j = ids@.index_of(b);
        assert(ids@[j] == b);
    }
    true
}

/// Where every link has its reverse, one node that reaches all shows that each does.
pub proof fn lemma_joined_from_any(links: Seq<(NodeId, NodeId)>, ids: Seq<NodeId>, start: NodeId)
    requires
        both_ways(links),
        ids.contains(start),
    ensures
        joined_from(links, ids, start) == all_joined(links, ids),
{
    if joined_from(links, ids, start) {
        assert forall|a: NodeId, b: NodeId|
            #![trigger ids.contains(a), ids.contains(b)]
            ids.contains(a) && ids.contains(b) implies reaches(links, a, b) by {
            lemma_reaches_back(links, start, a);
            lemma_reaches_through(links, a, start, b);
        }
    }
}

}
