//! Which pairs of nodes share a channel.
use crate::packet::NodeId;
use vstd::prelude::*;

verus! {

/// The pairs of nodes between which a channel exists, from the first to the
/// second.
#[derive(Debug)]
pub struct SharedSenders {
    keys: Vec<(NodeId, NodeId)>,
}

impl View for SharedSenders {
    type V = Set<(NodeId, NodeId)>;

    closed spec fn view(&self) -> Set<(NodeId, NodeId)> {
        self.keys@.to_set()
    }
}

/// The pairs, where the channels are shared at all.
pub open spec fn channels_of(shared: Option<SharedSenders>) -> Option<Set<(NodeId, NodeId)>> {
    match shared {
        Some(s) => Some(s@),
        None => None,
    }
}

/// A node is an end of some channel.
pub open spec fn mentioned(channels: Set<(NodeId, NodeId)>, id: NodeId) -> bool {
    exists|k: (NodeId, NodeId)| #[trigger] channels.contains(k) && (k.0 == id || k.1 == id)
}

impl SharedSenders {
    /// No channels.
    pub fn new() -> (r: Self)
        ensures
            r@ == Set::<(NodeId, NodeId)>::empty(),
    {
        let r = SharedSenders { keys: Vec::new() };
        assert(r@ =~= Set::<(NodeId, NodeId)>::empty());
        r
    }

    /// Adds a channel.
    pub fn insert(&mut self, a: NodeId, b: NodeId)
        ensures
            final(self)@ == old(self)@.insert((a, b)),
    {
        self.keys.push((a, b));
        assert(self@ =~= old(self)@.insert((a, b))) by {
            assert forall|k: (NodeId, NodeId)| self.keys@.contains(k) <==> old(self).keys@.contains(k)
                || k == (a, b) by {
                if old(self).keys@.contains(k) {
                    let i = old(self).keys@.index_of(k);
                    assert(self.keys@[i] == k);
                }
                assert(self.keys@[old(self).keys@.len() as int] == (a, b));
            }
        }
    }

    /// Removes a channel.
    pub fn remove(&mut self, a: NodeId, b: NodeId)
        ensures
            final(self)@ == old(self)@.remove((a, b)),
    {
        let mut kept: Vec<(NodeId, NodeId)> = Vec::new();
        let mut i: usize = 0;
        while i < self.keys.len()
            invariant
                i <= self.keys@.len(),
                self.keys@ == old(self).keys@,
                forall|k: (NodeId, NodeId)| #[trigger]
                    kept@.contains(k) <==> k != (a, b) && self.keys@.subrange(0, i as int).contains(k),
            decreases self.keys@.len() - i,
        {
            let k: (NodeId, NodeId) = self.keys[i];
            let ghost before = kept@;
            if !(k.0 == a && k.1 == b) {
                kept.push(k);
            }
            proof {
                let s = self.keys@.subrange(0, i as int);
                let t = self.keys@.subrange(0, i + 1);
                assert(t =~= s.push(k));
                assert forall|x: (NodeId, NodeId)| #[trigger] kept@.contains(x) <==> x != (a, b)
                    && t.contains(x) by {
                    if s.contains(x) {
                        let j = s.index_of(x);
                        assert(t[j] == x);
                    }
                    assert(t[i as int] == k);
                    if before.contains(x) {
                        let j = before.index_of(x);
                        assert(kept@[j] == x);
                    }
                    if kept@.len() > before.len() {
                        assert(kept@[before.len() as int] == k);
                    }
                    if kept@.contains(x) && x != k {
                        let j = kept@.index_of(x);
                        assert(before[j] == x);
                        assert(before.contains(x));
                    }
                    if t.contains(x) && x != k {
                        let j = t.index_of(x);
                        assert(s[j] == x);
                        assert(s.contains(x));
                        assert(x != (a, b) ==> before.contains(x));
                    }
                }
            }
            i = i + 1;
        }
        assert(self.keys@.subrange(0, i as int) =~= self.keys@);
        self.keys = kept;
        assert(self@ =~= old(self)@.remove((a, b)));
    }

    /// Whether a channel exists.
    pub fn contains(&self, a: NodeId, b: NodeId) -> (r: bool)
        ensures
            r == self@.contains((a, b)),
    {
        let mut i: usize = 0;
        while i < self.keys.len()
            invariant
                i <= self.keys@.len(),
                forall|j: int| 0 <= j < i ==> self.keys@[j] != (a, b),
            decreases self.keys@.len() - i,
        {
            let k: (NodeId, NodeId) = self.keys[i];
            if k.0 == a && k.1 == b {
                assert(self.keys@[i as int] == (a, b));
                return true;
            }
            i = i + 1;
        }
        false
    }

    /// Removes the channels of a node.
    pub fn remove_mentions(&mut self, id: NodeId)
        ensures
            final(self)@ == old(self)@.filter(|k: (NodeId, NodeId)| k.0 != id && k.1 != id),
    {
        let ghost all = self.keys@;
        let mut kept: Vec<(NodeId, NodeId)> = Vec::new();
        let mut i: usize = 0;
        while i < self.keys.len()
            invariant
                i <= self.keys@.len(),
                self.keys@ == all,
                forall|j: int| 0 <= j < kept@.len() ==> all.contains(#[trigger] kept@[j]) && kept@[j].0 != id
                    && kept@[j].1 != id,
                forall|j: int|
                    0 <= j < i && (#[trigger] all[j]).0 != id && all[j].1 != id ==> kept@.contains(all[j]),
            decreases self.keys@.len() - i,
        {
            let k: (NodeId, NodeId) = self.keys[i];
            let ghost before = kept@;
            if k.0 != id && k.1 != id {
                kept.push(k);
                proof {
                    assert(all[i as int] == k);
                    assert(kept@[before.len() as int] == k);
                    assert forall|j: int| 0 <= j < i && (#[trigger] all[j]).0 != id && all[j].1 != id implies kept@.contains(all[j]) by {
                        let m = before.index_of(all[j]);
                        assert(kept@[m] == all[j]);
                    }
                }
            }
            i = i + 1;
        }
        self.keys = kept;
        proof {
            let want = old(self)@.filter(|k: (NodeId, NodeId)| k.0 != id && k.1 != id);
            assert forall|k: (NodeId, NodeId)| #[trigger] self@.contains(k) <==> want.contains(k) by {
                if self@.contains(k) {
                    let j = self.keys@.index_of(k);
                    assert(self.keys@[j] == k);
                }
                if want.contains(k) {
                    let j = all.index_of(k);
                    assert(all[j] == k);
                }
            }
            assert(self@ =~= want);
        }
    }

    /// The channels.
    pub fn pairs(&self) -> (r: Vec<(NodeId, NodeId)>)
        ensures
            r@.to_set() == self@,
    {
        let mut r: Vec<(NodeId, NodeId)> = Vec::new();
        let mut i: usize = 0;
        while i < self.keys.len()
            invariant
                i <= self.keys@.len(),
                r@ == self.keys@.subrange(0, i as int),
            decreases self.keys@.len() - i,
        {
            r.push(self.keys[i]);
            i = i + 1;
            assert(r@ =~= self.keys@.subrange(0, i as int));
        }
        assert(r@ =~= self.keys@);
        r
    }

    /// Whether a node is an end of some channel.
    pub fn mentions(&self, id: NodeId) -> (r: bool)
        ensures
            r == mentioned(self@, id),
    {
        let mut i: usize = 0;
        while i < self.keys.len()
            invariant
                i <= self.keys@.len(),
                forall|j: int| 0 <= j < i ==> (#[trigger] self.keys@[j]).0 != id && self.keys@[j].1 != id,
            decreases self.keys@.len() - i,
        {
            let k: (NodeId, NodeId) = self.keys[i];
            if k.0 == id || k.1 == id {
                assert(self.keys@[i as int] == k);
                assert(self@.contains(k));
                return true;
            }
            i = i + 1;
        }
        proof {
            assert forall|k: (NodeId, NodeId)| #[trigger] self@.contains(k) implies k.0 != id && k.1
                != id by {
                let j = self.keys@.index_of(k);
                assert(self.keys@[j] == k);
            }
        }
        false
    }
}

}
