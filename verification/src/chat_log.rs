//! Records of chats, and the text in which servers hand them on.
use crate::packet::NodeId;
use crate::text::{join3, texts};
use std::collections::VecDeque;
use vstd::prelude::*;

verus! {

/// Number of entries that a chat record keeps.
pub const MAX_CHAT_HISTORY: usize = 50;

/// Two clients, the smaller id first.
pub open spec fn pair(a: NodeId, b: NodeId) -> (NodeId, NodeId) {
    if a <= b {
        (a, b)
    } else {
        (b, a)
    }
}

/// Two clients, the smaller id first.
pub fn ordered_pair(a: NodeId, b: NodeId) -> (r: (NodeId, NodeId))
    ensures
        r == pair(a, b),
{
    if a <= b {
        (a, b)
    } else {
        (b, a)
    }
}

/// A chat record with an entry at its end. Where it gets too long, its first entry
/// leaves.
pub open spec fn recorded(h: Seq<Seq<char>>, entry: Seq<char>) -> Seq<Seq<char>> {
    let longer = h.push(entry);
    if longer.len() > MAX_CHAT_HISTORY {
        longer.subrange(1, longer.len() as int)
    } else {
        longer
    }
}

/// Adds an entry to a chat record.
pub fn record(h: &mut Vec<String>, entry: String)
    ensures
        texts(final(h)@) == recorded(texts(old(h)@), entry@),
{
    h.push(entry);
    assert(texts(h@) =~= texts(old(h)@).push(entry@));
    if h.len() > MAX_CHAT_HISTORY {
        let ghost longer = h@;
        h.remove(0);
        assert(texts(h@) =~= texts(longer).subrange(1, longer.len() as int));
    }
}

/// A chat record that is not too long stays so.
pub proof fn law_chat_record_stays_short(h: Seq<Seq<char>>, entry: Seq<char>)
    requires
        h.len() <= MAX_CHAT_HISTORY,
    ensures
        recorded(h, entry).len() <= MAX_CHAT_HISTORY,
        recorded(h, entry).last() == entry,
{
}

/// The JSON text of the record of a chat.
pub uninterp spec fn record_json(a: NodeId, b: NodeId, h: Seq<Seq<char>>) -> Option<Seq<char>>;

/// The clients and the record that a JSON text writes, where it writes any.
pub uninterp spec fn json_record(text: Seq<char>) -> Option<((NodeId, NodeId), Seq<Seq<char>>)>;

/// The contents of a text, where there is one.
pub open spec fn text_view(r: Option<String>) -> Option<Seq<char>> {
    match r {
        Some(s) => Some(s@),
        None => None,
    }
}

/// The contents of a record, where there is one.
pub open spec fn record_view(r: Option<((NodeId, NodeId), Vec<String>)>) -> Option<
    ((NodeId, NodeId), Seq<Seq<char>>),
> {
    match r {
        Some((k, h)) => Some((k, texts(h@))),
        None => None,
    }
}

/// `serde_json::to_string` for two clients and the record of their chat: a text
/// from which reading gives them back.
#[verifier::external_body]
pub(crate) fn write_record(a: NodeId, b: NodeId, h: &Vec<String>) -> (r: Option<String>)
    ensures
        text_view(r) == record_json(a, b, texts(h@)),
        r is Some ==> json_record(r->0@) == Some(((a, b), texts(h@))),
{
    serde_json::to_string(&((a, b), h)).ok()
}

/// `serde_json::from_str` for two clients and the record of their chat: what the
/// text writes, or none where it writes something else.
#[verifier::external_body]
pub(crate) fn read_record(text: &str) -> (r: Option<((NodeId, NodeId), Vec<String>)>)
    ensures
        record_view(r) == json_record(text@),
{
    let (k, h) = serde_json::from_str::<((NodeId, NodeId), VecDeque<String>)>(text).ok()?;
    Some((k, Vec::from(h)))
}

/// The entry with which a message goes on record.
pub open spec fn entry_of(from: Seq<char>, message: Seq<char>) -> Seq<char> {
    from + ":\n "@ + message
}

/// The entry with which a message goes on record.
pub fn chat_entry(from: &str, message: &str) -> (r: String)
    ensures
        r@ == entry_of(from@, message@),
{
    join3(from, ":\n ", message)
}

}
