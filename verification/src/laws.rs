//! What holds of clients, servers and the controller together.
use crate::changes::{announced, change_of, json_ids, tokens_of, two_ids, ChangeView};
use crate::chat_log::{entry_of, pair};
use crate::client1::{command_handled, message_of, ClientView};
use crate::client2::{command_outcome, ClientGlobals, CommandError};
use crate::media::base64_bytes;
use crate::notices::{layout_of, lowered, media_notice_of, notice_of, NoticeView};
use crate::packet::{without_id, FloodRequestView, NodeId, OutgoingView, PacketView};
use crate::sc_changes::{crash_note, link_note, spawn_note};
use crate::server::ServerView;
use crate::server_requests::{ids_text, tagged, tagged2};
use crate::text::{
    after, all_parts, begins_with, decimal, id_number, is_space, law_decimal_reads_back,
    lemma_decimal_digits, parts, trim_both,
};
use crate::wording::{
    coupled, law_coupled_texts_come_apart, law_id_lists_read_back, law_parts_join_back,
    lemma_colons, lemma_coupled_parts, lemma_digits_plain, lemma_id_reads_back, lemma_single_part,
    lemma_trimmed, plain, seamless, trimmed,
};
use vstd::prelude::*;

verus! {

/// A text that does not end in white space.
pub open spec fn tight(s: Seq<char>) -> bool {
    s.len() > 0 ==> !is_space(s.last())
}

proof fn lemma_coupled_trimmed(a: Seq<char>, b: Seq<char>)
    requires
        trimmed(a),
        tight(b),
    ensures
        trimmed(coupled(a, b)),
{
    lemma_colons();
    let s = coupled(a, b);
    assert(s[0] == a[0]);
    if b.len() > 0 {
        assert(s.last() == b.last());
    } else {
        assert(s.last() == ':');
    }
}

proof fn lemma_coupled_tight(a: Seq<char>, b: Seq<char>)
    requires
        tight(b),
    ensures
        tight(coupled(a, b)),
{
    lemma_colons();
    let s = coupled(a, b);
    if b.len() > 0 {
        assert(s.last() == b.last());
    } else {
        assert(s.last() == ':');
    }
}

/// A message of three parts is read as three parts.
pub proof fn law_three_parts_read_back(tag: Seq<char>, a: Seq<char>, b: Seq<char>)
    requires
        plain(tag),
        trimmed(tag),
        plain(a),
        tight(b),
    ensures
        parts(trim_both(tagged2(tag, a, b)), 3) == seq![tag, a, b],
{
    lemma_coupled_tight(a, b);
    lemma_coupled_trimmed(tag, coupled(a, b));
    lemma_trimmed(coupled(tag, coupled(a, b)));
    law_coupled_texts_come_apart(tag, a, b);
}

/// A message of two parts is read as two parts.
pub proof fn law_two_parts_read_back(tag: Seq<char>, a: Seq<char>)
    requires
        plain(tag),
        trimmed(tag),
        seamless(a),
        tight(a),
    ensures
        parts(trim_both(tagged(tag, a)), 3) == seq![tag, a],
{
    lemma_coupled_trimmed(tag, a);
    lemma_trimmed(coupled(tag, a));
    lemma_coupled_parts(tag, a, 3);
    lemma_single_part(a, 2);
    assert(seq![tag] + seq![a] =~= seq![tag, a]);
}

/// The tags of messages are plain.
proof fn lemma_tags()
    ensures
        plain("[MessageTo]"@) && trimmed("[MessageTo]"@),
        plain("[MessageFrom]"@) && trimmed("[MessageFrom]"@),
        plain("[MediaUpload]"@) && trimmed("[MediaUpload]"@),
        plain("[MediaDownloadRequest]"@) && trimmed("[MediaDownloadRequest]"@),
        plain("[MediaDownloadResponse]"@) && trimmed("[MediaDownloadResponse]"@),
        plain("[ClientListResponse]"@) && trimmed("[ClientListResponse]"@),
        plain("[LoginAck]"@) && trimmed("[LoginAck]"@),
        plain("[Login]"@) && trimmed("[Login]"@),
        plain("[FloodRequired]"@) && trimmed("[FloodRequired]"@),
{
    reveal_strlit("[MessageTo]");
    reveal_strlit("[MessageFrom]");
    reveal_strlit("[MediaUpload]");
    reveal_strlit("[MediaDownloadRequest]");
    reveal_strlit("[MediaDownloadResponse]");
    reveal_strlit("[ClientListResponse]");
    reveal_strlit("[LoginAck]");
    reveal_strlit("[Login]");
    reveal_strlit("[FloodRequired]");
}

/// A message from one client to another arrives as it was written: the server reads
/// from the sender's text whom it is for, hands it on to that client alone, and that
/// client reads from whom it is and what it says. White space at the end of the message
/// is lost.
pub proof fn law_messages_arrive(
    v: ServerView,
    sender: NodeId,
    receiver: NodeId,
    session: u64,
    server: NodeId,
    text: Seq<char>,
)
    requires
        v.clients.contains(receiver),
        tight(text),
    ensures
        ({
            let t = seq!["[MessageTo]"@, decimal(receiver as nat), text];
            let sent = message_of(Some(server), t);
            let m = tagged2("[MessageFrom]"@, decimal(sender as nat), text);
            &&& sent == Some(tagged2("[MessageTo]"@, decimal(receiver as nat), text))
            &&& parts(trim_both(sent->0), 3) == t
            &&& v.replies(sender, session, t) == seq![(receiver, m)]
            &&& notice_of(receiver, m) == NoticeView::Message(sender, text)
        }),
{
    lemma_tags();
    lemma_id_reads_back(receiver);
    lemma_id_reads_back(sender);
    law_three_parts_read_back("[MessageTo]"@, decimal(receiver as nat), text);
    law_three_parts_read_back("[MessageFrom]"@, decimal(sender as nat), text);
    lemma_tags_differ();
}

/// Some tags are different texts.
proof fn lemma_tags_differ()
    ensures
        "[MessageTo]"@ != "[Login]"@,
        "[MessageTo]"@ != "[MediaUpload]"@,
        "[MessageTo]"@ != "[MediaBroadcast]"@,
        "[MessageTo]"@ != "[ChatHistoryUpdate]"@,
        "[MediaUpload]"@ != "[MessageTo]"@,
        "[MediaUpload]"@ != "[ChatHistoryUpdate]"@,
        "[MediaUpload]"@ != "[HistoryRequest]"@,
        "[MediaDownloadResponse]"@ != "[MessageFrom]"@,
        "[MediaDownloadRequest]"@ != "[Login]"@,
        "[MediaDownloadRequest]"@ != "[ChatRequest]"@,
        "[ClientListResponse]"@ != "[ChatStart]"@,
        "[LoginAck]"@ != "[ClientListResponse]"@,
        "[LoginAck]"@ != "[ChatStart]"@,
        "[LoginAck]"@ != "[ChatRequest]"@,
        "[LoginAck]"@ != "[HistoryResponse]"@,
        "[LoginAck]"@ != "[MediaUploadAck]"@,
        "[LoginAck]"@ != "[MediaListResponse]"@,
        "[Logout]"@ != "[Login]"@,
{
    reveal_strlit("[MessageTo]");
    reveal_strlit("[Login]");
    reveal_strlit("[MediaUpload]");
    reveal_strlit("[MediaBroadcast]");
    reveal_strlit("[ChatHistoryUpdate]");
    reveal_strlit("[HistoryRequest]");
    reveal_strlit("[MediaDownloadResponse]");
    reveal_strlit("[MessageFrom]");
    reveal_strlit("[MediaDownloadRequest]");
    reveal_strlit("[ChatRequest]");
    reveal_strlit("[ClientListResponse]");
    reveal_strlit("[ChatStart]");
    reveal_strlit("[LoginAck]");
    reveal_strlit("[HistoryResponse]");
    reveal_strlit("[MediaUploadAck]");
    reveal_strlit("[MediaListResponse]");
    reveal_strlit("[Logout]");
    assert("[MessageTo]"@.len() == 11);
    assert("[MediaUpload]"@.len() == 13);
    assert("[MediaDownloadRequest]"@.len() == 22);
    assert("[MediaDownloadResponse]"@.len() == 23 && "[MessageFrom]"@.len() == 13);
    assert("[ClientListResponse]"@.len() == 20 && "[ChatStart]"@.len() == 11);
    assert("[LoginAck]"@[1] == 'L');
    assert("[Logout]"@.len() == 8);
    assert("[Login]"@.len() == 7);
}

/// A message for a client that is not logged in is answered with an error, and nothing
/// is recorded.
pub proof fn law_messages_to_strangers_are_refused(
    v: ServerView,
    sender: NodeId,
    receiver: NodeId,
    session: u64,
    text: Seq<char>,
)
    requires
        !v.clients.contains(receiver),
    ensures
        ({
            let t = seq!["[MessageTo]"@, decimal(receiver as nat), text];
            &&& v.replies(sender, session, t) == seq![(sender, "error_wrong_client_id!"@)]
            &&& v.updated(sender, t) == v
        }),
{
    lemma_id_reads_back(receiver);
    lemma_tags_differ();
}

/// A message that is handed on is the last entry of the record of the two clients,
/// whichever of them asks.
pub proof fn law_messages_are_recorded(
    v: ServerView,
    sender: NodeId,
    receiver: NodeId,
    text: Seq<char>,
)
    requires
        v.clients.contains(receiver),
    ensures
        ({
            let t = seq!["[MessageTo]"@, decimal(receiver as nat), text];
            let w = v.updated(sender, t);
            let h = w.record_of(pair(receiver, sender));
            h.len() > 0 && h.last() == entry_of(decimal(sender as nat), text)
        }),
{
    lemma_id_reads_back(receiver);
    lemma_tags_differ();
    let k = pair(sender, receiver);
    let e = entry_of(decimal(sender as nat), text);
    let longer = v.record_of(k).push(e);
    assert(longer.last() == e);
    assert(pair(receiver, sender) == k);
}

/// A media file that was uploaded can be downloaded: the server keeps its text under its
/// name, hands it out to whoever asks, and the client that asked reads the bytes that
/// the text stands for.
pub proof fn law_uploads_can_be_downloaded(
    v: ServerView,
    from: NodeId,
    to: NodeId,
    session: u64,
    name: Seq<char>,
    data: Seq<char>,
)
    requires
        plain(name),
        tight(data),
        name != "ERROR"@ || data != "NotFound"@,
    ensures
        ({
            let up = seq!["[MediaUpload]"@, name, data];
            let down = seq!["[MediaDownloadRequest]"@, name];
            let m = tagged2("[MediaDownloadResponse]"@, name, data);
            &&& parts(trim_both(tagged2("[MediaUpload]"@, name, data)), 3) == up
            &&& v.updated(from, up).replies(to, session, down) == seq![(to, m)]
            &&& notice_of(to, m) == media_notice_of(
                to,
                name,
                base64_bytes(data),
                layout_of(base64_bytes(data)),
            )
        }),
{
    lemma_tags();
    lemma_tags_differ();
    law_three_parts_read_back("[MediaUpload]"@, name, data);
    law_three_parts_read_back("[MediaDownloadResponse]"@, name, data);
}

/// A client that logs in is registered and told so, and a client that logs out is
/// forgotten: both together leave the server as it was.
pub proof fn law_logging_in_and_out(v: ServerView, client: NodeId, session: u64)
    requires
        !v.clients.contains(client),
    ensures
        ({
            let enter = seq!["[Login]"@, decimal(v.id as nat)];
            let leave = seq!["[Logout]"@];
            let m = tagged("[LoginAck]"@, decimal(session as nat));
            &&& v.updated(client, enter).clients.contains(client)
            &&& v.replies(client, session, enter) == seq![(client, m)]
            &&& notice_of(client, m) == NoticeView::LoggedIn(session)
            &&& v.updated(client, enter).updated(client, leave) == v
        }),
{
    lemma_tags();
    lemma_tags_differ();
    lemma_id_reads_back(v.id);
    let enter = seq!["[Login]"@, decimal(v.id as nat)];
    let longer = v.clients.push(client);
    assert(v.updated(client, enter).clients == longer);
    assert(longer[v.clients.len() as int] == client);
    law_decimal_reads_back(session as nat, u64::MAX as nat);
    lemma_decimal_digits(session as nat);
    lemma_digits_plain(decimal(session as nat));
    law_two_parts_read_back("[LoginAck]"@, decimal(session as nat));
    reveal(Seq::filter);
    assert(longer.drop_last() =~= v.clients);
    lemma_absent(v.clients, client);
    let w = v.updated(client, enter).updated(client, seq!["[Logout]"@]);
    assert(w.clients == v.clients);
    assert(w =~= v);
}

pub proof fn lemma_absent(v: Seq<NodeId>, id: NodeId)
    requires
        !v.contains(id),
    ensures
        without_id(v, id) == v,
    decreases v.len(),
{
    reveal(Seq::filter);
    if v.len() > 0 {
        assert(v[v.len() - 1] != id);
        assert forall|x: NodeId| v.drop_last().contains(x) implies v.contains(x) by {
            let k = v.drop_last().index_of(x);
            assert(v[k] == x);
        }
        lemma_absent(v.drop_last(), id);
        assert(v.drop_last().push(v.last()) =~= v);
    } else {
        assert(without_id(v, id) =~= v);
    }
}

/// A finished chat reaches the other servers as it was recorded: what one server hands
/// on, another one takes into its records.
pub proof fn law_records_reach_other_servers(
    a: ServerView,
    b: ServerView,
    client: NodeId,
    t: Seq<Seq<char>>,
    json: Seq<char>,
)
    requires
        a.reads_back(client, t, json),
        tight(json),
    ensures
        ({
            let m = tagged2("[ChatHistoryUpdate]"@, decimal(a.id as nat), json);
            let k = pair(client, id_number(t[1])->0);
            b.updated(a.id, parts(trim_both(m), 3)).record_of(k) == a.record_of(k)
        }),
{
    lemma_tags_differ();
    lemma_id_reads_back(a.id);
    reveal_strlit("[ChatHistoryUpdate]");
    assert(plain("[ChatHistoryUpdate]"@) && trimmed("[ChatHistoryUpdate]"@));
    law_three_parts_read_back("[ChatHistoryUpdate]"@, decimal(a.id as nat), json);
}

/// A client that asks for the clients reads the list that the server has.
pub proof fn law_client_lists_arrive(v: ServerView, client: NodeId)
    ensures
        notice_of(client, tagged("[ClientListResponse]"@, ids_text(v.clients)))
            == NoticeView::ClientList(v.clients),
{
    lemma_tags();
    lemma_tags_differ();
    lemma_id_list_plain(v.clients);
    law_two_parts_read_back("[ClientListResponse]"@, ids_text(v.clients));
    law_id_lists_read_back(v.clients);
}

/// A client that asks for a chat is told whether the other client is there.
pub proof fn law_chat_requests_are_answered(
    v: ServerView,
    client: NodeId,
    peer: NodeId,
    session: u64,
)
    ensures
        ({
            let t = seq!["[ChatRequest]"@, decimal(peer as nat)];
            let list = v.replies(client, session, t);
            &&& list.len() == 1
            &&& list[0].0 == client
            &&& notice_of(client, list[0].1) == (if v.clients.contains(peer) {
                NoticeView::ChatAccepted
            } else {
                NoticeView::ChatDenied
            })
        }),
{
    lemma_tags();
    lemma_tags_differ();
    lemma_id_reads_back(peer);
    reveal_strlit("[ChatStart]");
    reveal_strlit("[ChatRequest]");
    reveal_strlit("[Login]");
    reveal_strlit("true");
    reveal_strlit("false");
    let answer = if v.clients.contains(peer) {
        "true"@
    } else {
        "false"@
    };
    assert(lowered(answer) =~= answer);
    assert("true"@.len() == 4 && "false"@.len() == 5);
    assert("[ChatStart]"@.len() == 11 && "[ClientListResponse]"@.len() == 20) by {
        reveal_strlit("[ClientListResponse]");
    }
    law_two_parts_read_back("[ChatStart]"@, answer);
}

/// A client that asks for a record reads it as the server has it. A record with a double
/// colon in it, or with white space at its end, is left out.
pub proof fn law_records_can_be_read(
    v: ServerView,
    client: NodeId,
    other: NodeId,
    session: u64,
)
    requires
        seamless(v.history_text(pair(client, other))),
        tight(v.history_text(pair(client, other))),
    ensures
        ({
            let t = seq!["[HistoryRequest]"@, decimal(client as nat), decimal(other as nat)];
            let list = v.replies(client, session, t);
            &&& list.len() == 1
            &&& list[0].0 == client
            &&& notice_of(client, list[0].1) == NoticeView::History(
                v.history_text(pair(client, other)),
            )
        }),
{
    lemma_id_reads_back(client);
    lemma_id_reads_back(other);
    reveal_strlit("[HistoryRequest]");
    reveal_strlit("[MessageTo]");
    reveal_strlit("[HistoryResponse]");
    reveal_strlit("[ClientListResponse]");
    reveal_strlit("[ChatStart]");
    reveal_strlit("[ChatRequest]");
    assert("[HistoryRequest]"@.len() == 16 && "[MessageTo]"@.len() == 11);
    assert("[HistoryResponse]"@.len() == 17 && "[ClientListResponse]"@.len() == 20);
    assert("[ChatStart]"@.len() == 11 && "[ChatRequest]"@.len() == 13);
    law_two_parts_read_back("[HistoryResponse]"@, v.history_text(pair(client, other)));
}

/// A list of ids as text holds no colon, and ends in a bracket.
pub proof fn lemma_id_list_plain(ids: Seq<NodeId>)
    ensures
        seamless(ids_text(ids)),
        tight(ids_text(ids)),
{
    let p = ids.map_values(|id: NodeId| decimal(id as nat));
    let j = crate::text::joined_with(p, ", "@);
    reveal_strlit("[");
    reveal_strlit("]");
    lemma_no_colon(ids);
    let s = ids_text(ids);
    assert forall|i: int| 0 <= i < s.len() implies #[trigger] s[i] != ':' by {
        if 0 < i < s.len() - 1 {
            assert(s[i] == j[i - 1]);
        }
    }
    assert forall|i: int| 0 <= i < s.len() implies !(#[trigger] crate::text::separator_at(s, i)) by {
        assert(s[i] != ':');
    }
    assert(s.last() == ']');
}

proof fn lemma_no_colon(ids: Seq<NodeId>)
    ensures
        ({
            let p = ids.map_values(|id: NodeId| decimal(id as nat));
            let j = crate::text::joined_with(p, ", "@);
            forall|i: int| 0 <= i < j.len() ==> #[trigger] j[i] != ':'
        }),
    decreases ids.len(),
{
    let f = |id: NodeId| decimal(id as nat);
    let p = ids.map_values(f);
    let j = crate::text::joined_with(p, ", "@);
    if ids.len() > 0 {
        let d = decimal(ids.last() as nat);
        lemma_id_reads_back(ids.last());
        assert forall|i: int| 0 <= i < d.len() implies #[trigger] d[i] != ':' by {
            assert(crate::text::is_digit(d[i]));
        }
        assert(p.last() == d);
        if ids.len() > 1 {
            reveal_strlit(", ");
            lemma_no_colon(ids.drop_last());
            assert(ids.drop_last().map_values(f) =~= p.drop_last());
            let k = crate::text::joined_with(p.drop_last(), ", "@);
            assert forall|i: int| 0 <= i < j.len() implies #[trigger] j[i] != ':' by {
                if i < k.len() {
                    assert(j[i] == k[i]);
                } else if i < k.len() + 2 {
                    assert(j[i] == ", "@[i - k.len()]);
                } else {
                    assert(j[i] == d[i - k.len() - 2]);
                }
            }
        }
    }
}

/// What is behind the tag of an announcement is the action that it names.
proof fn lemma_announced(rest: Seq<char>)
    requires
        tight(rest),
    ensures
        announced(coupled("[FloodRequired]"@, rest)) == Some(change_of(rest)),
{
    lemma_tags();
    lemma_colons();
    let tag = "[FloodRequired]"@;
    let s = coupled(tag, rest);
    lemma_coupled_trimmed(tag, rest);
    lemma_trimmed(s);
    let n = (s.len() + 1) as nat;
    lemma_coupled_parts(tag, rest, n);
    let p = parts(rest, (n - 1) as nat);
    law_parts_join_back(rest, (n - 1) as nat);
    let t = all_parts(s);
    assert(t == seq![tag] + p);
    assert(t.subrange(1, t.len() as int) =~= p);
    assert(t[0] == tag);
}

proof fn lemma_two_ids(a: NodeId, b: NodeId)
    ensures
        ({
            let two = coupled(decimal(a as nat), decimal(b as nat));
            two_ids(two) == Some((a, b)) && tight(two) && two.len() > 0
        }),
{
    lemma_id_reads_back(a);
    lemma_id_reads_back(b);
    let x = decimal(a as nat);
    let y = decimal(b as nat);
    law_coupled_texts_come_apart(x, x, y);
    lemma_coupled_tight(x, y);
}

proof fn lemma_link_added_note(a: NodeId, b: NodeId)
    ensures
        announced(link_note("[FloodRequired]::AddSender::"@, a, b)) == Some(
            ChangeView::AddSender(a, b),
        ),
{
    let two = coupled(decimal(a as nat), decimal(b as nat));
    lemma_two_ids(a, b);
    reveal_strlit("::");
    reveal_strlit("[FloodRequired]");
    reveal_strlit("[FloodRequired]::AddSender::");
    reveal_strlit("AddSender::");
    let add = "AddSender::"@ + two;
    assert(link_note("[FloodRequired]::AddSender::"@, a, b) =~= coupled("[FloodRequired]"@, add));
    assert(add.last() == two.last());
    lemma_announced(add);
    assert(add.subrange(0, 11) =~= "AddSender::"@);
    assert(after(add, 11) =~= two);
}

proof fn lemma_link_removed_note(a: NodeId, b: NodeId)
    ensures
        announced(link_note("[FloodRequired]::RemoveSender::"@, a, b)) == Some(
            ChangeView::RemoveSender(a, b),
        ),
{
    let two = coupled(decimal(a as nat), decimal(b as nat));
    lemma_two_ids(a, b);
    reveal_strlit("::");
    reveal_strlit("[FloodRequired]");
    reveal_strlit("[FloodRequired]::RemoveSender::");
    reveal_strlit("RemoveSender::");
    let remove = "RemoveSender::"@ + two;
    assert(link_note("[FloodRequired]::RemoveSender::"@, a, b) =~= coupled(
        "[FloodRequired]"@,
        remove,
    ));
    assert(remove.last() == two.last());
    lemma_announced(remove);
    assert(remove.subrange(0, 14) =~= "RemoveSender::"@);
    assert(after(remove, 14) =~= two);
    assert(remove[0] == 'R');
    reveal_strlit("AddSender::");
    lemma_other_beginning(remove, "AddSender::"@);
}

/// A text begins with another one only if their first characters agree.
proof fn lemma_other_beginning(s: Seq<char>, prefix: Seq<char>)
    requires
        s.len() > 0,
        prefix.len() > 0,
        s[0] != prefix[0],
    ensures
        !begins_with(s, prefix),
{
    if begins_with(s, prefix) {
        assert(s.subrange(0, prefix.len() as int)[0] == s[0]);
    }
}

proof fn lemma_crash_note(a: NodeId)
    ensures
        announced(crash_note(a)) == Some(ChangeView::Crash(a)),
{
    lemma_id_reads_back(a);
    let x = decimal(a as nat);
    reveal_strlit("::");
    reveal_strlit("[FloodRequired]");
    reveal_strlit("[FloodRequired]::Crash::");
    reveal_strlit("AddSender::");
    reveal_strlit("RemoveSender::");
    reveal_strlit("SpawnDrone::");
    reveal_strlit("Crash::");
    reveal_strlit("Crash");
    let crash = "Crash::"@ + x;
    assert(crash_note(a) =~= coupled("[FloodRequired]"@, crash));
    assert(crash.last() == x.last());
    lemma_announced(crash);
    assert(crash.subrange(0, 7) =~= "Crash::"@);
    assert(crash[0] == 'C');
    lemma_other_beginning(crash, "AddSender::"@);
    lemma_other_beginning(crash, "RemoveSender::"@);
    lemma_other_beginning(crash, "SpawnDrone::"@);
    assert(crash =~= coupled("Crash"@, x));
    assert(plain("Crash"@));
    let n = (crash.len() + 1) as nat;
    lemma_coupled_parts("Crash"@, x, n);
    lemma_single_part(x, (n - 1) as nat);
    assert(all_parts(crash) =~= seq!["Crash"@, x]);
}

/// What the controller announces of a new drone, the clients read as it was meant, as far as
/// the list of its connections can be read.
pub proof fn law_spawn_announcements_are_understood(id: NodeId, connections: Seq<NodeId>)
    ensures
        announced(spawn_note(id, connections)) == Some(
            match json_ids(ids_text(connections)) {
                Some(peers) => ChangeView::SpawnDrone(id, peers),
                None => ChangeView::Malformed,
            },
        ),
{
    lemma_id_reads_back(id);
    lemma_id_list_plain(connections);
    let x = decimal(id as nat);
    let list = ids_text(connections);
    reveal_strlit("::");
    reveal_strlit("[FloodRequired]");
    reveal_strlit("[FloodRequired]::SpawnDrone::");
    reveal_strlit("SpawnDrone::");
    reveal_strlit("AddSender::");
    reveal_strlit("RemoveSender::");
    let two = coupled(x, list);
    let spawn = "SpawnDrone::"@ + two;
    assert(spawn_note(id, connections) =~= coupled("[FloodRequired]"@, spawn));
    lemma_coupled_tight(x, list);
    assert(two.len() > 0);
    assert(spawn.last() == two.last());
    lemma_announced(spawn);
    assert(spawn.subrange(0, 12) =~= "SpawnDrone::"@);
    assert(after(spawn, 12) =~= two);
    assert(spawn[0] == 'S');
    lemma_other_beginning(spawn, "AddSender::"@);
    lemma_other_beginning(spawn, "RemoveSender::"@);
    lemma_coupled_parts(x, list, 2);
    lemma_single_part(list, 1);
    assert(seq![x] + seq![list] =~= seq![x, list]);
}

/// What the controller announces of links and crashes, the clients read as it was meant.
pub proof fn law_announcements_are_understood(a: NodeId, b: NodeId)
    ensures
        announced(link_note("[FloodRequired]::AddSender::"@, a, b)) == Some(
            ChangeView::AddSender(a, b),
        ),
        announced(link_note("[FloodRequired]::RemoveSender::"@, a, b)) == Some(
            ChangeView::RemoveSender(a, b),
        ),
        announced(crash_note(a)) == Some(ChangeView::Crash(a)),
{
    lemma_link_added_note(a, b);
    lemma_link_removed_note(a, b);
    lemma_crash_note(a);
}

/// A flood that a client has spread it does not spread again.
pub proof fn law_clients_spread_a_flood_once(v: ClientView, r: FloodRequestView, again: FloodRequestView)
    requires
        again.flood_id == r.flood_id,
        again.initiator_id == r.initiator_id,
        !v.answers_flood(r),
    ensures
        v.after_flood_request(r).answers_flood(again),
        v.after_flood_request(r).after_flood_request(again) == v.after_flood_request(r),
{
}

/// The response to a flood request leads from the client back along the trace.
pub proof fn law_flood_responses_lead_back(v: ClientView, r: FloodRequestView)
    requires
        v.answers_flood(r),
        r.path_trace.len() > 0,
        v.neighbours.contains(r.path_trace.last().0),
    ensures
        ({
            let o = v.flood_answer(r)[0];
            let hops = o.packet.header.hops;
            &&& v.flood_answer(r).len() == 1
            &&& hops[0] == v.id
            &&& hops[1] == o.to
            &&& hops.last() == r.path_trace[0].0
            &&& o.packet.header.hop_index == 1
        }),
{
}

/// The receipt of a fragment leads back to the sender of the fragment.
pub proof fn law_receipts_lead_back(v: ClientView, p: PacketView, fragment_index: u64)
    requires
        p.header.hops.len() >= 2,
        v.ack(p, fragment_index).len() > 0,
    ensures
        ({
            let o = v.ack(p, fragment_index)[0];
            let hops = o.packet.header.hops;
            &&& hops.last() == p.header.hops[0]
            &&& hops[0] == p.header.hops.last()
            &&& o.to == hops[1]
            &&& o.packet.header.hop_index == 1
            &&& o.packet.session_id == p.session_id
        }),
{
}

/// A client that is not logged in sends nothing but a login: any other command of its
/// user leaves it as it is, and nothing goes out.
pub proof fn law_only_logins_without_a_server(
    a: ClientView,
    b: ClientView,
    command: Seq<char>,
    now: u64,
    c0: u64,
    c1: u64,
    added: Seq<OutgoingView>,
)
    requires
        a.server is None,
        announced(command) is None,
        tokens_of(command).len() > 0 ==> tokens_of(command)[0] != "[Login]"@,
        command_handled(a, b, command, now, c0, c1, added),
    ensures
        b == a,
        c1 == c0,
        added == Seq::<OutgoingView>::empty(),
{
    let t = tokens_of(command);
    assert(message_of(a.server, t) is None);
    assert(ClientView { server: a.server, ..a } =~= a);
}

/// A user who is in a chat can neither log out nor ask for another chat, and nothing
/// changes; once the chat is finished, both are possible.
pub proof fn law_one_chat_at_a_time(g: ClientGlobals, peer: Seq<char>)
    requires
        g.chatting,
        id_number(peer) is Some,
    ensures
        command_outcome(g, seq!["[Logout]"@]) == (g, Err::<(), CommandError>(
            CommandError::StillChatting,
        )),
        command_outcome(g, seq!["[ChatRequest]"@, peer]) == (g, Err::<(), CommandError>(
            CommandError::AlreadyChatting,
        )),
        ({
            let f = command_outcome(g, seq!["[ChatFinish]"@, peer]).0;
            &&& command_outcome(g, seq!["[ChatFinish]"@, peer]).1 is Ok
            &&& command_outcome(f, seq!["[ChatRequest]"@, peer]).1 is Ok
            &&& command_outcome(f, seq!["[Logout]"@]).1 is Ok <==> g.server != 0
        }),
{
    reveal_strlit("[Logout]");
    reveal_strlit("[ChatRequest]");
    reveal_strlit("[ChatFinish]");
    reveal_strlit("[Login]");
    assert("[ChatRequest]"@.len() == 13 && "[ChatFinish]"@.len() == 12 && "[Login]"@.len() == 7);
}

}
