//! News of changes of the network that the controller spreads as text.
use crate::packet::NodeId;
use crate::text::{
    after, all_parts, begins_with, id_number, joined, join_from, parse_id, parts, same_text,
    split_all, split_parts, starts_with, strip_prefix, texts, trim, trim_both,
};
use vstd::prelude::*;

verus! {

/// The list of node ids that a JSON text writes, where it writes one.
pub uninterp spec fn json_ids(text: Seq<char>) -> Option<Seq<NodeId>>;

/// The ids of a list, where there is one.
pub open spec fn list_view(r: Option<Vec<NodeId>>) -> Option<Seq<NodeId>> {
    match r {
        Some(v) => Some(v@),
        None => None,
    }
}

/// `serde_json::from_str` for a list of node ids: the list that the text writes,
/// or none where it is not such a list.
#[verifier::external_body]
pub(crate) fn parse_json_ids(text: &str) -> (r: Option<Vec<NodeId>>)
    ensures
        list_view(r) == json_ids(text@),
{
    serde_json::from_str::<Vec<NodeId>>(text).ok()
}

/// What has changed in the network.
#[derive(Debug)]
pub enum Change {
    /// Two nodes have been linked.
    AddSender(NodeId, NodeId),
    /// Two nodes have been separated.
    RemoveSender(NodeId, NodeId),
    /// A drone has joined, linked to the nodes of a list.
    SpawnDrone(NodeId, Vec<NodeId>),
    /// A node is gone.
    Crash(NodeId),
    /// A change that cannot be read.
    Malformed,
    /// Any other change.
    Other,
}

#[verifier::ext_equal]
pub enum ChangeView {
    AddSender(NodeId, NodeId),
    RemoveSender(NodeId, NodeId),
    SpawnDrone(NodeId, Seq<NodeId>),
    Crash(NodeId),
    Malformed,
    Other,
}

impl View for Change {
    type V = ChangeView;

    open spec fn view(&self) -> ChangeView {
        match self {
            Change::AddSender(a, b) => ChangeView::AddSender(*a, *b),
            Change::RemoveSender(a, b) => ChangeView::RemoveSender(*a, *b),
            Change::SpawnDrone(a, peers) => ChangeView::SpawnDrone(*a, peers@),
            Change::Crash(a) => ChangeView::Crash(*a),
            Change::Malformed => ChangeView::Malformed,
            Change::Other => ChangeView::Other,
        }
    }
}

/// The two ids that a text writes with double colons between them.
pub open spec fn two_ids(s: Seq<char>) -> Option<(NodeId, NodeId)> {
    let p = parts(s, 2);
    if p.len() == 2 {
        match (id_number(p[0]), id_number(p[1])) {
            (Some(a), Some(b)) => Some((a, b)),
            _ => None,
        }
    } else {
        None
    }
}

/// A drone and its peers, given how the list of peers was read.
pub open spec fn spawn_of(drone: Option<NodeId>, peers: Option<Seq<NodeId>>) -> ChangeView {
    match (drone, peers) {
        (Some(d), Some(p)) => ChangeView::SpawnDrone(d, p),
        _ => ChangeView::Malformed,
    }
}

/// The change that an action names.
pub open spec fn change_of(action: Seq<char>) -> ChangeView {
    if begins_with(action, "AddSender::"@) {
        match two_ids(after(action, "AddSender::"@.len() as int)) {
            Some((a, b)) => ChangeView::AddSender(a, b),
            None => ChangeView::Malformed,
        }
    } else if begins_with(action, "RemoveSender::"@) {
        match two_ids(after(action, "RemoveSender::"@.len() as int)) {
            Some((a, b)) => ChangeView::RemoveSender(a, b),
            None => ChangeView::Malformed,
        }
    } else if begins_with(action, "SpawnDrone::"@) {
        let p = parts(after(action, "SpawnDrone::"@.len() as int), 2);
        if p.len() == 2 {
            spawn_of(id_number(p[0]), json_ids(p[1]))
        } else {
            ChangeView::Malformed
        }
    } else if begins_with(action, "Crash::"@) {
        let p = all_parts(action);
        if p.len() == 2 {
            match id_number(p[1]) {
                Some(a) => ChangeView::Crash(a),
                None => ChangeView::Malformed,
            }
        } else {
            ChangeView::Malformed
        }
    } else {
        ChangeView::Other
    }
}

/// The parts of a command, white space around it aside.
pub open spec fn tokens_of(command: Seq<char>) -> Seq<Seq<char>> {
    all_parts(trim_both(command))
}

/// The change that a command announces, where it announces one.
pub open spec fn announced(command: Seq<char>) -> Option<ChangeView> {
    let t = tokens_of(command);
    if t.len() >= 2 && t[0] == "[FloodRequired]"@ {
        Some(change_of(joined(t.subrange(1, t.len() as int))))
    } else {
        None
    }
}

/// The view of a change, where there is one.
pub open spec fn change_view(r: Option<Change>) -> Option<ChangeView> {
    match r {
        Some(c) => Some(c@),
        None => None,
    }
}

fn parse_two_ids(s: &str) -> (r: Option<(NodeId, NodeId)>)
    ensures
        r == two_ids(s@),
{
    let p: Vec<String> = split_parts(s, 2);
    proof {
        assert(texts(p@) == parts(s@, 2));
        assert forall|i: int| 0 <= i < p@.len() implies #[trigger] p@[i]@ == parts(s@, 2)[i] by {
            assert(texts(p@)[i] == p@[i]@);
        }
    }
    if p.len() == 2 {
        match (parse_id(p[0].as_str()), parse_id(p[1].as_str())) {
            (Some(a), Some(b)) => Some((a, b)),
            _ => None,
        }
    } else {
        None
    }
}

/// A drone and its peers, given how the list of peers was read.
pub fn spawn_change(drone: Option<NodeId>, peers: Option<Vec<NodeId>>) -> (r: Change)
    ensures
        r@ == spawn_of(drone, list_view(peers)),
{
    match (drone, peers) {
        (Some(d), Some(p)) => Change::SpawnDrone(d, p),
        _ => Change::Malformed,
    }
}

/// The change that an action names.
pub fn read_change(action: &str) -> (r: Change)
    ensures
        r@ == change_of(action@),
{
    if let Some(rest) = strip_prefix(action, "AddSender::") {
        return match parse_two_ids(rest.as_str()) {
            Some((a, b)) => Change::AddSender(a, b),
            None => Change::Malformed,
        };
    }
    if let Some(rest) = strip_prefix(action, "RemoveSender::") {
        return match parse_two_ids(rest.as_str()) {
            Some((a, b)) => Change::RemoveSender(a, b),
            None => Change::Malformed,
        };
    }
    if let Some(rest) = strip_prefix(action, "SpawnDrone::") {
        let p: Vec<String> = split_parts(rest.as_str(), 2);
        proof {
            assert(texts(p@) == parts(rest@, 2));
            assert forall|i: int| 0 <= i < p@.len() implies #[trigger] p@[i]@ == parts(rest@, 2)[i] by {
                assert(texts(p@)[i] == p@[i]@);
            }
        }
        if p.len() == 2 {
            let drone: Option<NodeId> = parse_id(p[0].as_str());
            let peers: Option<Vec<NodeId>> = parse_json_ids(p[1].as_str());
            return spawn_change(drone, peers);
        }
        return Change::Malformed;
    }
    if starts_with(action, "Crash::") {
        let p: Vec<String> = split_all(action);
        proof {
            assert(texts(p@) == all_parts(action@));
            assert forall|i: int| 0 <= i < p@.len() implies #[trigger] p@[i]@ == all_parts(
                action@,
            )[i] by {
                assert(texts(p@)[i] == p@[i]@);
            }
        }
        if p.len() == 2 {
            if let Some(a) = parse_id(p[1].as_str()) {
                return Change::Crash(a);
            }
        }
        return Change::Malformed;
    }
    Change::Other
}

/// The parts of a command, white space around it aside.
pub fn tokens(command: &str) -> (r: Vec<String>)
    ensures
        texts(r@) == tokens_of(command@),
        r@.len() >= 1,
{
    let trimmed: String = trim(command);
    let r: Vec<String> = split_all(trimmed.as_str());
    proof {
        crate::notices::lemma_parts_not_empty(trimmed@, (trimmed@.len() + 1) as nat);
        assert(texts(r@).len() == r@.len());
    }
    r
}

/// The change that a command announces, where it announces one.
pub fn announcement(command: &str) -> (r: Option<Change>)
    ensures
        change_view(r) == announced(command@),
{
    let t: Vec<String> = tokens(command);
    proof {
        assert(texts(t@)[0] == t@[0]@);
    }
    if t.len() >= 2 && same_text(t[0].as_str(), "[FloodRequired]") {
        let action: String = join_from(&t, 1);
        Some(read_change(action.as_str()))
    } else {
        None
    }
}

}
