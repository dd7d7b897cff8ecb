//! Floods that a node has seen.
use crate::packet::NodeId;
use std::collections::HashMap;
use vstd::prelude::*;
use vstd::std_specs::iter::IteratorSpec;

verus! {

broadcast use vstd::std_specs::hash::group_hash_axioms;

/// Floods by flood id and initiator.
#[derive(Debug)]
pub struct FloodSet {
    entries: Vec<(u64, NodeId)>,
}

impl View for FloodSet {
    type V = Set<(u64, NodeId)>;

    closed spec fn view(&self) -> Set<(u64, NodeId)> {
        self.entries@.to_set()
    }
}

impl FloodSet {
    /// No floods.
    pub fn new() -> (r: Self)
        ensures
            r@ == Set::<(u64, NodeId)>::empty(),
    {
        let r = FloodSet { entries: Vec::new() };
        assert(r@ =~= Set::<(u64, NodeId)>::empty());
        r
    }

    /// Whether a flood has been seen.
    pub fn contains(&self, flood_id: u64, initiator: NodeId) -> (r: bool)
        ensures
            r == self@.contains((flood_id, initiator)),
    {
        let mut i: usize = 0;
        while i < self.entries.len()
            invariant
                i <= self.entries@.len(),
                forall|j: int| 0 <= j < i ==> self.entries@[j] != (flood_id, initiator),
            decreases self.entries@.len() - i,
        {
            let e: (u64, NodeId) = self.entries[i];
            if e.0 == flood_id && e.1 == initiator {
                assert(self.entries@[i as int] == (flood_id, initiator));
                return true;
            }
            i = i + 1;
        }
        false
    }

    /// Remembers a flood.
    pub fn insert(&mut self, flood_id: u64, initiator: NodeId)
        ensures
            final(self)@ == old(self)@.insert((flood_id, initiator)),
    {
        if self.contains(flood_id, initiator) {
            assert(self@ =~= old(self)@.insert((flood_id, initiator)));
            return;
        }
        self.entries.push((flood_id, initiator));
        assert(self@ =~= old(self)@.insert((flood_id, initiator))) by {
            assert forall|k: (u64, NodeId)| self.entries@.contains(k) <==> old(self).entries@.contains(
                k,
            ) || k == (flood_id, initiator) by {
                if old(self).entries@.contains(k) {
                    let i = old(self).entries@.index_of(k);
                    assert(self.entries@[i] == k);
                }
                assert(self.entries@[old(self).entries@.len() as int] == (flood_id, initiator));
            }
        }
    }
}

/// The keys of a map, each one once, in no particular order.
pub fn keys_of<V>(m: &HashMap<u64, V>) -> (r: Vec<u64>)
    ensures
        r@.no_duplicates(),
        r@.to_set() == m@.dom(),
{
    let mut r: Vec<u64> = Vec::new();
    let ghost all = m.keys().remaining().unref();
    for k in it: m.keys()
        invariant
            r@ == it.seq().unref().subrange(0, it.index()),
            it.seq().unref() == all,
            it.seq().no_duplicates(),
            all.to_set() == m@.dom(),
    {
        r.push(*k);
        assert(r@ =~= it.seq().unref().subrange(0, it.index() + 1));
    }
    assert(r@ =~= all);
    r
}

}
