//! Small tables, searched from front to back.
use crate::text::same_text;
use vstd::prelude::*;

verus! {

/// A key of a table.
pub trait TableKey: View + Sized {
    /// Whether two keys are equal.
    fn same(&self, other: &Self) -> (r: bool)
        ensures
            r == (self@ == other@),
    ;
}

impl TableKey for (u64, u8) {
    fn same(&self, other: &Self) -> (r: bool) {
        self.0 == other.0 && self.1 == other.1
    }
}

impl TableKey for (u64, u64) {
    fn same(&self, other: &Self) -> (r: bool) {
        self.0 == other.0 && self.1 == other.1
    }
}

impl TableKey for (u8, u8) {
    fn same(&self, other: &Self) -> (r: bool) {
        self.0 == other.0 && self.1 == other.1
    }
}

impl TableKey for u8 {
    fn same(&self, other: &Self) -> (r: bool) {
        *self == *other
    }
}

impl TableKey for String {
    fn same(&self, other: &Self) -> (r: bool) {
        same_text(self.as_str(), other.as_str())
    }
}

/// A table of values, at most one for each key.
#[derive(Debug)]
pub struct Table<K: TableKey, V> {
    entries: Vec<(K, V)>,
}

/// Position `i` holds the value for a key.
spec fn holds<K: TableKey, V>(entries: Seq<(K, V)>, i: int, k: K::V) -> bool {
    0 <= i < entries.len() && entries[i].0@ == k
}

/// The values by key.
spec fn contents<K: TableKey, V>(entries: Seq<(K, V)>) -> Map<K::V, V> {
    Map::new(
        |k: K::V| exists|i: int| holds(entries, i, k),
        |k: K::V| entries[choose|i: int| holds(entries, i, k)].1,
    )
}

/// No key occurs twice.
spec fn keys_differ<K: TableKey, V>(entries: Seq<(K, V)>) -> bool {
    forall|i: int, j: int|
        0 <= i < entries.len() && 0 <= j < entries.len() && (#[trigger] entries[i]).0@ == (
        #[trigger] entries[j]).0@ ==> i == j
}

proof fn lemma_contents<K: TableKey, V>(entries: Seq<(K, V)>)
    requires
        keys_differ(entries),
    ensures
        forall|i: int|
            0 <= i < entries.len() ==> contents(entries).contains_key((#[trigger] entries[i]).0@)
                && contents(entries)[entries[i].0@] == entries[i].1,
        forall|k: K::V| #[trigger]
            contents(entries).contains_key(k) ==> exists|i: int| holds(entries, i, k),
{
    assert forall|i: int| 0 <= i < entries.len() implies contents(entries).contains_key(
        (#[trigger] entries[i]).0@,
    ) && contents(entries)[entries[i].0@] == entries[i].1 by {
        let k = entries[i].0@;
        assert(holds(entries, i, k));
        let j = choose|j: int| holds(entries, j, k);
        assert(entries[j].0@ == entries[i].0@);
    }
}

impl<K: TableKey, V> View for Table<K, V> {
    type V = Map<K::V, V>;

    closed spec fn view(&self) -> Map<K::V, V> {
        contents(self.entries@)
    }
}

impl<K: TableKey, V> Table<K, V> {
    /// No key has two entries.
    pub closed spec fn wf(&self) -> bool {
        keys_differ(self.entries@)
    }

    /// A table without entries.
    pub fn new() -> (r: Self)
        ensures
            r.wf(),
            r@ == Map::<K::V, V>::empty(),
    {
        let r = Table { entries: Vec::new() };
        assert(r@ =~= Map::<K::V, V>::empty());
        r
    }

    fn position(&self, k: &K) -> (r: Option<usize>)
        ensures
            match r {
                Some(i) => holds(self.entries@, i as int, k@),
                None => forall|i: int| !holds(self.entries@, i, k@),
            },
    {
        let mut i: usize = 0;
        while i < self.entries.len()
            invariant
                i <= self.entries@.len(),
                forall|j: int| 0 <= j < i ==> !holds(self.entries@, j, k@),
            decreases self.entries@.len() - i,
        {
            if self.entries[i].0.same(k) {
                return Some(i);
            }
            i = i + 1;
        }
        None
    }

    /// Whether there is a value for a key.
    pub fn contains_key(&self, k: &K) -> (r: bool)
        ensures
            r == self@.contains_key(k@),
    {
        self.position(k).is_some()
    }

    /// The value for a key.
    pub fn get(&self, k: &K) -> (r: Option<&V>)
        requires
            self.wf(),
        ensures
            match r {
                Some(v) => self@.contains_key(k@) && *v == self@[k@],
                None => !self@.contains_key(k@),
            },
    {
        match self.position(k) {
            Some(i) => {
                proof {
                    lemma_contents(self.entries@);
                }
                Some(&self.entries[i].1)
            },
            None => None,
        }
    }

    /// Takes the value for a key out.
    pub fn remove(&mut self, k: &K) -> (r: Option<V>)
        requires
            old(self).wf(),
        ensures
            final(self).wf(),
            final(self)@ == old(self)@.remove(k@),
            match r {
                Some(v) => old(self)@.contains_key(k@) && v == old(self)@[k@],
                None => !old(self)@.contains_key(k@),
            },
    {
        proof {
            lemma_contents(self.entries@);
        }
        match self.position(k) {
            Some(i) => {
                let ghost before = self.entries@;
                assert forall|x: int, y: int|
                    0 <= x < before.remove(i as int).len() && 0 <= y < before.remove(i as int).len()
                        && (#[trigger] before.remove(i as int)[x]).0@ == (#[trigger] before.remove(
                        i as int,
                    )[y]).0@ implies x == y by {
                    let p = if x < i {
                        x
                    } else {
                        x + 1
                    };
                    let q = if y < i {
                        y
                    } else {
                        y + 1
                    };
                    assert(before[p].0@ == before[q].0@);
                }
                let (_, v): (K, V) = self.entries.remove(i);
                proof {
                    lemma_contents(self.entries@);
                    assert forall|x: K::V| #[trigger] self@.contains_key(x) <==> old(
                        self,
                    )@.contains_key(x) && x != k@ by {
                        if self@.contains_key(x) {
                            let p = choose|p: int| holds(self.entries@, p, x);
                            let q = if p < i {
                                p
                            } else {
                                p + 1
                            };
                            assert(before[q].0@ == x);
                            if x == k@ {
                                assert(before[i as int].0@ == before[q].0@);
                            }
                        }
                        if old(self)@.contains_key(x) && x != k@ {
                            let q = choose|q: int| holds(before, q, x);
                            let p = if q < i {
                                q
                            } else {
                                q - 1
                            };
                            assert(holds(self.entries@, p, x));
                        }
                    }
                    assert forall|x: K::V| self@.contains_key(x) implies self@[x] == old(self)@[x] by {
                        let p = choose|p: int| holds(self.entries@, p, x);
                        let q = if p < i {
                            p
                        } else {
                            p + 1
                        };
                        assert(self.entries@[p] == before[q]);
                        assert(before[q].0@ == x);
                    }
                    assert(self@ =~= old(self)@.remove(k@));
                }
                Some(v)
            },
            None => {
                assert(self@ =~= old(self)@.remove(k@));
                None
            },
        }
    }

    /// Sets the value for a key.
    pub fn insert(&mut self, k: K, v: V)
        requires
            old(self).wf(),
        ensures
            final(self).wf(),
            final(self)@ == old(self)@.insert(k@, v),
    {
        self.remove(&k);
        let ghost m = self@;
        proof {
            lemma_contents(self.entries@);
            assert(!self@.contains_key(k@));
            assert forall|x: int| 0 <= x < self.entries@.len() implies (#[trigger] self.entries@[x]).0@
                != k@ by {
                assert(self@.contains_key(self.entries@[x].0@));
            }
        }
        let ghost before = self.entries@;
        self.entries.push((k, v));
        proof {
            lemma_contents(self.entries@);
            assert forall|x: K::V| #[trigger] self@.contains_key(x) <==> m.contains_key(x) || x == k@ by {
                if self@.contains_key(x) && x != k@ {
                    let p = choose|p: int| holds(self.entries@, p, x);
                    assert(holds(before, p, x));
                }
                if m.contains_key(x) {
                    let p = choose|p: int| holds(before, p, x);
                    assert(holds(self.entries@, p, x));
                }
                assert(holds(self.entries@, before.len() as int, k@));
            }
            assert forall|x: K::V| self@.contains_key(x) implies self@[x] == m.insert(k@, v)[x] by {
                let p = choose|p: int| holds(self.entries@, p, x);
                assert(self.entries@[p].0@ == x);
                if p < before.len() {
                    assert(before[p].0@ == x);
                    lemma_contents(before);
                }
            }
            assert(self@ =~= old(self)@.insert(k@, v));
        }
    }

    /// The number of entries up to which `key_at` gives keys.
    pub closed spec fn size(&self) -> nat {
        self.entries@.len()
    }

    /// The key of entry `i`.
    pub closed spec fn key_view(&self, i: int) -> K::V {
        self.entries@[i].0@
    }

    /// Number of entries to go through.
    pub fn count(&self) -> (n: usize)
        ensures
            n == self.size(),
    {
        self.entries.len()
    }

    /// The key of entry `i`.
    pub fn key_at(&self, i: usize) -> (r: &K)
        requires
            i < self.size(),
        ensures
            r@ == self.key_view(i as int),
    {
        &self.entries[i].0
    }

    /// The keys of the entries are the keys of the table, each one once.
    pub proof fn keys_complete(&self)
        requires
            self.wf(),
        ensures
            forall|i: int| 0 <= i < self.size() ==> self@.contains_key(#[trigger] self.key_view(i)),
            forall|k: K::V| #[trigger]
                self@.contains_key(k) ==> exists|i: int|
                    0 <= i < self.size() && #[trigger] self.key_view(i) == k,
            forall|i: int, j: int|
                0 <= i < self.size() && 0 <= j < self.size() && #[trigger] self.key_view(i)
                    == #[trigger] self.key_view(j) ==> i == j,
    {
        lemma_contents(self.entries@);
        assert forall|k: K::V| #[trigger] self@.contains_key(k) implies exists|i: int|
            0 <= i < self.size() && #[trigger] self.key_view(i) == k by {
            let i = choose|i: int| holds(self.entries@, i, k);
            assert(self.key_view(i) == k);
        }
    }
}

}
