//! Messages from the user and the controller that wait for nodes.
use crate::config::{entry_ids, ids_in_order, ConfigView, ParsedConfig};
use crate::packet::NodeId;
use crate::text::{copy_texts, texts};
use std::collections::HashMap;
use vstd::prelude::*;

verus! {

broadcast use vstd::std_specs::hash::group_hash_axioms;

/// The messages that wait for each node, the oldest first.
pub type Waiting = Map<NodeId, Seq<Seq<char>>>;

/// Messages that wait for nodes.
#[derive(Debug)]
pub struct GuiQueue {
    waiting: HashMap<NodeId, Vec<String>>,
}

impl View for GuiQueue {
    type V = Waiting;

    closed spec fn view(&self) -> Waiting {
        self.waiting@.map_values(|v: Vec<String>| texts(v@))
    }
}

/// The messages that wait for a node.
pub open spec fn waiting_for(q: Waiting, id: NodeId) -> Seq<Seq<char>> {
    if q.contains_key(id) {
        q[id]
    } else {
        Seq::empty()
    }
}

/// The queue with another message for a node.
pub open spec fn pushed(q: Waiting, id: NodeId, message: Seq<char>) -> Waiting {
    q.insert(id, waiting_for(q, id).push(message))
}

/// The queue with the same message for each node of a list.
pub open spec fn pushed_to(q: Waiting, ids: Seq<NodeId>, message: Seq<char>) -> Waiting
    decreases ids.len(),
{
    if ids.len() == 0 {
        q
    } else {
        pushed(pushed_to(q, ids.drop_last(), message), ids.last(), message)
    }
}

/// The clients and the servers of a network.
pub open spec fn hosts(c: ConfigView) -> Seq<NodeId> {
    entry_ids(c.client) + entry_ids(c.server)
}

/// The queue with a message for each client and each server.
pub open spec fn broadcast_to_hosts(q: Waiting, c: ConfigView, message: Seq<char>) -> Waiting {
    pushed_to(q, hosts(c), message)
}

impl GuiQueue {
    /// A queue without messages.
    pub fn new_gui_input_queue() -> (r: Self)
        ensures
            r@ == Map::<NodeId, Seq<Seq<char>>>::empty(),
    {
        let r = GuiQueue { waiting: HashMap::new() };
        assert(r@ =~= Map::<NodeId, Seq<Seq<char>>>::empty());
        r
    }

    /// Adds a message for a node.
    pub fn push_gui_message(&mut self, from: NodeId, message: String)
        ensures
            final(self)@ == pushed(old(self)@, from, message@),
    {
        let ghost a = self@;
        let ghost m = message@;
        let mut list: Vec<String> = match self.waiting.remove(&from) {
            Some(v) => v,
            None => Vec::new(),
        };
        let ghost before = texts(list@);
        assert(before =~= waiting_for(a, from));
        list.push(message);
        assert(texts(list@) =~= before.push(m));
        self.waiting.insert(from, list);
        assert(self@ =~= pushed(a, from, m));
    }

    /// Adds a message for each client and each server of a network.
    pub fn broadcast_topology_change(&mut self, config: &ParsedConfig, message: &str)
        ensures
            final(self)@ == broadcast_to_hosts(old(self)@, config@, message@),
    {
        let ghost a = self@;
        let mut ids: Vec<NodeId> = ids_in_order(&config.client);
        let mut servers: Vec<NodeId> = ids_in_order(&config.server);
        ids.append(&mut servers);
        assert(ids@ == hosts(config@));
        let mut i: usize = 0;
        while i < ids.len()
            invariant
                i <= ids@.len(),
                self@ == pushed_to(a, ids@.subrange(0, i as int), message@),
            decreases ids@.len() - i,
        {
            self.push_gui_message(ids[i], message.to_owned());
            i = i + 1;
            proof {
                let t = ids@.subrange(0, i as int);
                assert(t.drop_last() =~= ids@.subrange(0, i - 1));
                assert(t.last() == ids@[i - 1]);
            }
        }
        assert(ids@.subrange(0, i as int) =~= ids@);
    }

    /// The messages that wait for a node.
    pub fn messages_for(&self, id: NodeId) -> (r: Vec<String>)
        ensures
            texts(r@) == waiting_for(self@, id),
    {
        match self.waiting.get(&id) {
            Some(v) => copy_texts(v),
            None => {
                let none: Vec<String> = Vec::new();
                assert(texts(none@) =~= Seq::empty());
                none
            },
        }
    }

    /// Takes the oldest message for a node.
    pub fn take_message(&mut self, id: NodeId) -> (r: Option<String>)
        ensures
            match r {
                Some(m) => waiting_for(old(self)@, id).len() > 0 && m@ == waiting_for(
                    old(self)@,
                    id,
                )[0] && final(self)@ == old(self)@.insert(
                    id,
                    waiting_for(old(self)@, id).remove(0),
                ),
                None => waiting_for(old(self)@, id).len() == 0 && final(self)@ == old(self)@,
            },
    {
        let ghost a = self@;
        match self.waiting.remove(&id) {
            Some(v) => {
                let mut v: Vec<String> = v;
                let ghost before = texts(v@);
                assert(before == waiting_for(a, id));
                if v.len() == 0 {
                    self.waiting.insert(id, v);
                    assert(self@ =~= a);
                    return None;
                }
                let m: String = v.remove(0);
                assert(texts(v@) =~= before.remove(0));
                assert(m@ == before[0]);
                self.waiting.insert(id, v);
                assert(self@ =~= a.insert(id, before.remove(0)));
                Some(m)
            },
            None => {
                assert(self@ =~= a);
                None
            },
        }
    }
}

/// A broadcast reaches every client and every server, behind what waits already.
pub proof fn law_broadcasts_reach_all_hosts(
    q: Waiting,
    c: ConfigView,
    message: Seq<char>,
    id: NodeId,
)
    requires
        hosts(c).contains(id),
    ensures
        waiting_for(broadcast_to_hosts(q, c, message), id).len() > waiting_for(q, id).len(),
        waiting_for(broadcast_to_hosts(q, c, message), id).last() == message,
{
    lemma_pushed_to(q, hosts(c), message, id);
}

proof fn lemma_pushed_to(q: Waiting, ids: Seq<NodeId>, message: Seq<char>, id: NodeId)
    ensures
        waiting_for(pushed_to(q, ids, message), id).len() >= waiting_for(q, id).len(),
        ids.contains(id) ==> waiting_for(pushed_to(q, ids, message), id).len() > waiting_for(
            q,
            id,
        ).len() && waiting_for(pushed_to(q, ids, message), id).last() == message,
    decreases ids.len(),
{
    if ids.len() > 0 {
        lemma_pushed_to(q, ids.drop_last(), message, id);
        if ids.contains(id) && ids.last() != id {
            let k = ids.index_of(id);
            assert(ids.drop_last()[k] == id);
        }
    }
}

}
