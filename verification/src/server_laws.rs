//! What servers do with the messages of clients, said of the messages that come in and
//! go out.
use crate::chat_log::{json_record, record_json};
use crate::laws::{
    law_chat_requests_are_answered, law_client_lists_arrive, law_logging_in_and_out,
    law_messages_arrive, law_messages_to_strangers_are_refused, law_three_parts_read_back,
    law_two_parts_read_back, tight,
};
use crate::notices::{notice_of, NoticeView};
use crate::packet::{lemma_without_id, without_id, NodeId, NodeType, OutgoingView};
use crate::sending_laws::{
    carries_bytes, in_turn, lemma_all_sent, lemma_chat_sent, lemma_search_keeps, lemma_turn_on,
    message_at, only_sent, sent_in_turn,
};
use crate::server::{after_search, all_sent, chat_sent, ServerView};
use crate::server_control::gui_handled;
use crate::server_network::GraphView;
use crate::server_requests::{
    is_order, message_handled, record_spread, spread_to, spread_to_all, tagged2,
};
use crate::text::{after, decimal, joined_with, parts, separator_at, trim_both};
use crate::wording::{
    coupled, law_coupled_texts_come_apart, lemma_id_reads_back, lemma_single_part, lemma_trimmed,
    plain, seamless, trimmed,
};
use vstd::prelude::*;

verus! {

/// A server sends one message and nothing else.
pub open spec fn sends_one(
    a: ServerView,
    to: NodeId,
    text: Seq<char>,
    session: u64,
    out: Seq<OutgoingView>,
) -> bool {
    message_at(a, to, text, session, out, 0, out.len() as int)
}

/// The record of two clients, whichever is named first.
pub open spec fn kept_record(v: ServerView, x: NodeId, y: NodeId) -> Option<Seq<Seq<char>>> {
    let k = if x <= y {
        (x, y)
    } else {
        (y, x)
    };
    if v.history.contains_key(k) {
        Some(v.history[k])
    } else {
        None
    }
}

/// The records of all but two clients are the same.
pub open spec fn other_records_stay(a: ServerView, b: ServerView, x: NodeId, y: NodeId) -> bool {
    forall|k: (u8, u8)|
        k != (if x <= y {
            (x, y)
        } else {
            (y, x)
        }) ==> (#[trigger] b.history.contains_key(k) <==> a.history.contains_key(k)) && (
        a.history.contains_key(k) ==> b.history[k] == a.history[k])
}

/// A text holds the given texts in order, with a character between any two of them;
/// `at` tells where each one begins.
pub open spec fn holds_in_order(s: Seq<char>, list: Seq<Seq<char>>, between: char, at: Seq<int>) -> bool {
    &&& at.len() == list.len()
    &&& list.len() == 0 ==> s.len() == 0
    &&& list.len() > 0 ==> at[0] == 0 && s.len() == at.last() + list.last().len()
    &&& forall|i: int|
        0 <= i < list.len() ==> 0 <= #[trigger] at[i] && at[i] + list[i].len() <= s.len()
            && s.subrange(at[i], at[i] + list[i].len()) == list[i]
    &&& forall|i: int|
        1 <= i < list.len() ==> ends_before(s, list, between, at, i)
}

/// Text `i` begins behind the one before it, with a character between them.
pub open spec fn ends_before(
    s: Seq<char>,
    list: Seq<Seq<char>>,
    between: char,
    at: Seq<int>,
    i: int,
) -> bool {
    at[i] == at[i - 1] + list[i - 1].len() + 1 && s[at[i] - 1] == between
}

/// A text is a list of texts in order, with a character between any two of them.
pub open spec fn is_list(s: Seq<char>, list: Seq<Seq<char>>, between: char) -> bool {
    exists|at: Seq<int>| #[trigger] holds_in_order(s, list, between, at)
}

proof fn lemma_is_list(list: Seq<Seq<char>>, sep: Seq<char>, between: char)
    requires
        sep == seq![between],
    ensures
        is_list(joined_with(list, sep), list, between),
    decreases list.len(),
{
    let s = joined_with(list, sep);
    if list.len() == 0 {
        assert(holds_in_order(s, list, between, Seq::empty()));
    } else if list.len() == 1 {
        let at = seq![0int];
        assert(s.subrange(0, s.len() as int) =~= s);
        assert(holds_in_order(s, list, between, at));
    } else {
        let init = list.drop_last();
        lemma_is_list(init, sep, between);
        let front = joined_with(init, sep);
        let before = choose|at: Seq<int>| #[trigger] holds_in_order(front, init, between, at);
        let at = before.push(front.len() as int + 1);
        assert(s == front + sep + list.last());
        assert forall|i: int| 0 <= i < list.len() implies 0 <= #[trigger] at[i] && at[i]
            + list[i].len() <= s.len() && s.subrange(at[i], at[i] + list[i].len()) == list[i] by {
            if i < init.len() {
                assert(at[i] == before[i]);
                assert(init[i] == list[i]);
                assert(s.subrange(at[i], at[i] + list[i].len()) =~= front.subrange(
                    at[i],
                    at[i] + list[i].len(),
                ));
            } else {
                assert(s.subrange(at[i], at[i] + list[i].len()) =~= list.last());
            }
        }
        assert forall|i: int| 1 <= i < list.len() implies ends_before(s, list, between, at, i) by {
            if i < init.len() {
                assert(ends_before(front, init, between, before, i));
                assert(at[i] == before[i] && at[i - 1] == before[i - 1]);
                assert(init[i - 1] == list[i - 1]);
                assert(s[at[i] - 1] == front[at[i] - 1]);
            } else {
                assert(at[i - 1] == before.last());
                assert(list[i - 1] == init.last());
                assert(s[at[i] - 1] == sep[0]);
            }
        }
        assert(holds_in_order(s, list, between, at));
    }
}

/// The lengths of the tags of requests.
pub proof fn lemma_request_tags()
    ensures
        "[Login]"@.len() == 7,
        "[Logout]"@.len() == 8,
        "[ClientListRequest]"@.len() == 19,
        "[ChatRequest]"@.len() == 13,
        "[MessageTo]"@.len() == 11,
        "[HistoryRequest]"@.len() == 16,
        "[ChatHistoryUpdate]"@.len() == 19,
        "[MediaUpload]"@.len() == 13,
        "[MediaListRequest]"@.len() == 18,
        "[MediaDownloadRequest]"@.len() == 22,
        "[MediaBroadcast]"@.len() == 16,
        "[ChatFinish]"@.len() == 12,
        "[HistoryRequest]"@ != "[MediaBroadcast]"@,
        plain("[Login]"@) && trimmed("[Login]"@),
        plain("[Logout]"@) && trimmed("[Logout]"@) && seamless("[Logout]"@),
        plain("[ClientListRequest]"@) && trimmed("[ClientListRequest]"@) && seamless(
            "[ClientListRequest]"@,
        ),
        plain("[MediaListRequest]"@) && trimmed("[MediaListRequest]"@) && seamless(
            "[MediaListRequest]"@,
        ),
        plain("[ChatRequest]"@) && trimmed("[ChatRequest]"@),
        plain("[MessageTo]"@) && trimmed("[MessageTo]"@),
        plain("[HistoryRequest]"@) && trimmed("[HistoryRequest]"@),
        plain("[ChatHistoryUpdate]"@) && trimmed("[ChatHistoryUpdate]"@),
        plain("[MediaUpload]"@) && trimmed("[MediaUpload]"@),
        plain("[MediaDownloadRequest]"@) && trimmed("[MediaDownloadRequest]"@),
        plain("[MediaBroadcast]"@) && trimmed("[MediaBroadcast]"@),
        plain("[ChatFinish]"@) && trimmed("[ChatFinish]"@),
{
    reveal_strlit("[Login]");
    reveal_strlit("[Logout]");
    reveal_strlit("[ClientListRequest]");
    reveal_strlit("[ChatRequest]");
    reveal_strlit("[MessageTo]");
    reveal_strlit("[HistoryRequest]");
    reveal_strlit("[ChatHistoryUpdate]");
    reveal_strlit("[MediaUpload]");
    reveal_strlit("[MediaListRequest]");
    reveal_strlit("[MediaDownloadRequest]");
    reveal_strlit("[MediaBroadcast]");
    reveal_strlit("[ChatFinish]");
    assert("[HistoryRequest]"@[1] == 'H');
    assert("[MediaBroadcast]"@[1] == 'M');
    lemma_no_colons("[Logout]"@);
    lemma_no_colons("[ClientListRequest]"@);
    lemma_no_colons("[MediaListRequest]"@);
}

proof fn lemma_no_colons(s: Seq<char>)
    requires
        forall|i: int| 0 <= i < s.len() ==> #[trigger] s[i] != ':',
    ensures
        seamless(s),
{
    assert forall|i: int| 0 <= i < s.len() implies !(#[trigger] separator_at(s, i)) by {
        assert(s[i] != ':');
    }
}

/// A text of one part.
pub proof fn lemma_one_part(s: Seq<char>)
    requires
        trimmed(s),
        seamless(s),
    ensures
        parts(trim_both(s), 3) == seq![s],
{
    lemma_trimmed(s);
    lemma_single_part(s, 3);
}

/// What is sent does not depend on what else a server knows.
proof fn lemma_same_sender(
    a: ServerView,
    b: ServerView,
    list: Seq<(NodeId, Seq<char>)>,
    session: u64,
    out: Seq<OutgoingView>,
)
    requires
        sent_in_turn(a, list, session, out),
        b.id == a.id,
        b.net == a.net,
        b.neighbours == a.neighbours,
        b.known_channels() == a.known_channels(),
    ensures
        sent_in_turn(b, list, session, out),
        list.len() == 1 ==> sends_one(b, list[0].0, list[0].1, session, out),
        list.len() == 0 ==> out.len() == 0,
{
    let cuts = choose|cuts: Seq<int>| #[trigger] in_turn(a, list, session, out, cuts);
    assert forall|i: int| 0 <= i < list.len() implies message_at(
        b,
        (#[trigger] list[i]).0,
        list[i].1,
        session,
        out,
        cuts[i],
        cuts[i + 1],
    ) by {
        assert(message_at(a, list[i].0, list[i].1, session, out, cuts[i], cuts[i + 1]));
    }
    assert(in_turn(b, list, session, out, cuts));
    if list.len() == 1 {
        assert(message_at(b, list[0].0, list[0].1, session, out, cuts[0], cuts[1]));
    }
}

/// A message that ends no chat is answered, and the server is brought up to date.
pub proof fn lemma_answered(
    a: ServerView,
    b: ServerView,
    client: NodeId,
    session: u64,
    text: Seq<char>,
    t: Seq<Seq<char>>,
    added: Seq<OutgoingView>,
    lines: Seq<Seq<char>>,
) -> (list: Seq<(NodeId, Seq<char>)>)
    requires
        message_handled(a, b, client, session, text, added, lines),
        parts(trim_both(text), 3) == t,
        !(t.len() == 2 && t[0] == "[ChatFinish]"@),
    ensures
        a.replies_are(client, session, t, list),
        only_sent(a.updated(client, t), b),
        sent_in_turn(a, list, session, added),
        list.len() == 1 ==> sends_one(a, list[0].0, list[0].1, session, added),
        list.len() == 0 ==> added.len() == 0,
{
    let list = choose|list: Seq<(NodeId, Seq<char>)>|
        {
            &&& a.replies_are(client, session, t, list)
            &&& #[trigger] all_sent(a.updated(client, t), b, session, list, added)
        };
    lemma_all_sent(a.updated(client, t), b, session, list, added);
    lemma_same_sender(a.updated(client, t), a, list, session, added);
    list
}

/// A client that is not registered logs in: it is registered, behind those that are, and
/// gets an acknowledgement with the session, which it understands. A client that is
/// registered already, or that names another server, changes nothing and gets nothing.
pub proof fn law_logins(
    a: ServerView,
    b: ServerView,
    client: NodeId,
    named: NodeId,
    session: u64,
    added: Seq<OutgoingView>,
    lines: Seq<Seq<char>>,
)
    requires
        message_handled(
            a,
            b,
            client,
            session,
            "[Login]"@ + "::"@ + decimal(named as nat),
            added,
            lines,
        ),
    ensures
        named == a.id && !a.clients.contains(client) ==> ({
            let m = "[LoginAck]"@ + "::"@ + decimal(session as nat);
            &&& only_sent(ServerView { clients: a.clients.push(client), ..a }, b)
            &&& sends_one(a, client, m, session, added)
            &&& notice_of(client, m) == NoticeView::LoggedIn(session)
        }),
        named != a.id || a.clients.contains(client) ==> only_sent(a, b) && added.len() == 0,
{
    lemma_request_tags();
    lemma_id_reads_back(named);
    let t = seq!["[Login]"@, decimal(named as nat)];
    law_two_parts_read_back("[Login]"@, decimal(named as nat));
    let list = lemma_answered(
        a,
        b,
        client,
        session,
        "[Login]"@ + "::"@ + decimal(named as nat),
        t,
        added,
        lines,
    );
    if named == a.id && !a.clients.contains(client) {
        law_logging_in_and_out(a, client, session);
        assert(a.updated(client, t) =~= ServerView { clients: a.clients.push(client), ..a });
    }
}

/// A client that logs out is no longer registered; the others stay, and nothing leaves.
pub proof fn law_logouts(
    a: ServerView,
    b: ServerView,
    client: NodeId,
    session: u64,
    added: Seq<OutgoingView>,
    lines: Seq<Seq<char>>,
)
    requires
        message_handled(a, b, client, session, "[Logout]"@, added, lines),
    ensures
        forall|x: NodeId| #[trigger]
            b.clients.contains(x) <==> a.clients.contains(x) && x != client,
        only_sent(ServerView { clients: b.clients, ..a }, b),
        added.len() == 0,
{
    lemma_request_tags();
    lemma_one_part("[Logout]"@);
    let t = seq!["[Logout]"@];
    let list = lemma_answered(a, b, client, session, "[Logout]"@, t, added, lines);
    lemma_without_id(a.clients, client);
}

/// A client that asks for the clients gets a list that it reads as the registered ones, in
/// the order in which they came. Nothing else leaves, and nothing changes.
pub proof fn law_client_lists(
    a: ServerView,
    b: ServerView,
    client: NodeId,
    session: u64,
    added: Seq<OutgoingView>,
    lines: Seq<Seq<char>>,
)
    requires
        message_handled(a, b, client, session, "[ClientListRequest]"@, added, lines),
    ensures
        only_sent(a, b),
        exists|m: Seq<char>|
            {
                &&& #[trigger] sends_one(a, client, m, session, added)
                &&& notice_of(client, m) == NoticeView::ClientList(a.clients)
            },
{
    lemma_request_tags();
    lemma_one_part("[ClientListRequest]"@);
    let t = seq!["[ClientListRequest]"@];
    let list = lemma_answered(a, b, client, session, "[ClientListRequest]"@, t, added, lines);
    law_client_lists_arrive(a, client);
    assert(sends_one(a, client, list[0].1, session, added));
}

/// A client that asks for a chat is told whether the other client is registered. The two
/// have a record from then on; one that they had stays.
pub proof fn law_chat_requests(
    a: ServerView,
    b: ServerView,
    client: NodeId,
    peer: NodeId,
    session: u64,
    added: Seq<OutgoingView>,
    lines: Seq<Seq<char>>,
)
    requires
        message_handled(
            a,
            b,
            client,
            session,
            "[ChatRequest]"@ + "::"@ + decimal(peer as nat),
            added,
            lines,
        ),
    ensures
        only_sent(ServerView { history: b.history, ..a }, b),
        kept_record(b, client, peer) == (match kept_record(a, client, peer) {
            Some(h) => Some(h),
            None => Some(Seq::<Seq<char>>::empty()),
        }),
        other_records_stay(a, b, client, peer),
        exists|m: Seq<char>|
            {
                &&& #[trigger] sends_one(a, client, m, session, added)
                &&& notice_of(client, m) == (if a.clients.contains(peer) {
                    NoticeView::ChatAccepted
                } else {
                    NoticeView::ChatDenied
                })
            },
{
    lemma_request_tags();
    lemma_id_reads_back(peer);
    let t = seq!["[ChatRequest]"@, decimal(peer as nat)];
    law_two_parts_read_back("[ChatRequest]"@, decimal(peer as nat));
    let list = lemma_answered(
        a,
        b,
        client,
        session,
        "[ChatRequest]"@ + "::"@ + decimal(peer as nat),
        t,
        added,
        lines,
    );
    law_chat_requests_are_answered(a, client, peer, session);
    assert(sends_one(a, client, list[0].1, session, added));
}

/// A message for a registered client goes to that client alone, with the sender and the
/// text as it was written, and is the last entry of the record of the two; the entries
/// before it stay, but for the oldest one where there are fifty. A message for anybody
/// else is answered with an error and not recorded.
pub proof fn law_messages(
    a: ServerView,
    b: ServerView,
    sender: NodeId,
    receiver: NodeId,
    text: Seq<char>,
    session: u64,
    added: Seq<OutgoingView>,
    lines: Seq<Seq<char>>,
)
    requires
        tight(text),
        message_handled(
            a,
            b,
            sender,
            session,
            "[MessageTo]"@ + "::"@ + (decimal(receiver as nat) + "::"@ + text),
            added,
            lines,
        ),
    ensures
        a.clients.contains(receiver) ==> ({
            let m = "[MessageFrom]"@ + "::"@ + (decimal(sender as nat) + "::"@ + text);
            let entry = decimal(sender as nat) + ":\n "@ + text;
            let before = match kept_record(a, sender, receiver) {
                Some(h) => h,
                None => Seq::empty(),
            };
            &&& sends_one(a, receiver, m, session, added)
            &&& notice_of(receiver, m) == NoticeView::Message(sender, text)
            &&& only_sent(ServerView { history: b.history, ..a }, b)
            &&& kept_record(b, sender, receiver) == Some(
                if before.len() < 50 {
                    before.push(entry)
                } else {
                    before.push(entry).subrange(1, before.len() as int + 1)
                },
            )
            &&& other_records_stay(a, b, sender, receiver)
        }),
        !a.clients.contains(receiver) ==> only_sent(a, b) && sends_one(
            a,
            sender,
            "error_wrong_client_id!"@,
            session,
            added,
        ),
{
    lemma_request_tags();
    lemma_id_reads_back(receiver);
    let d = decimal(receiver as nat);
    let t = seq!["[MessageTo]"@, d, text];
    law_three_parts_read_back("[MessageTo]"@, d, text);
    let list = lemma_answered(
        a,
        b,
        sender,
        session,
        "[MessageTo]"@ + "::"@ + (d + "::"@ + text),
        t,
        added,
        lines,
    );
    if a.clients.contains(receiver) {
        law_messages_arrive(a, sender, receiver, session, a.id, text);
    } else {
        law_messages_to_strangers_are_refused(a, sender, receiver, session, text);
    }
}

/// A client that asks for the record of two clients gets all its entries, oldest first,
/// with a line break between any two of them, or is told that there is none. Nothing
/// changes.
pub proof fn law_histories(
    a: ServerView,
    b: ServerView,
    client: NodeId,
    x: NodeId,
    y: NodeId,
    session: u64,
    added: Seq<OutgoingView>,
    lines: Seq<Seq<char>>,
)
    requires
        message_handled(
            a,
            b,
            client,
            session,
            "[HistoryRequest]"@ + "::"@ + (decimal(x as nat) + "::"@ + decimal(y as nat)),
            added,
            lines,
        ),
    ensures
        only_sent(a, b),
        match kept_record(a, x, y) {
            Some(h) => exists|s: Seq<char>|
                {
                    &&& #[trigger] is_list(s, h, '\n')
                    &&& sends_one(a, client, "[HistoryResponse]"@ + "::"@ + s, session, added)
                },
            None => sends_one(
                a,
                client,
                "[HistoryResponse]"@ + "::"@ + "No history available"@,
                session,
                added,
            ),
        },
        kept_record(a, x, y) is Some && kept_record(a, x, y)->0.len() == 1 ==> sends_one(
            a,
            client,
            "[HistoryResponse]"@ + "::"@ + kept_record(a, x, y)->0[0],
            session,
            added,
        ),
        kept_record(a, x, y) is Some && kept_record(a, x, y)->0.len() == 2 ==> sends_one(
            a,
            client,
            "[HistoryResponse]"@ + "::"@ + (kept_record(a, x, y)->0[0] + seq!['\n'] + kept_record(
                a,
                x,
                y,
            )->0[1]),
            session,
            added,
        ),
{
    lemma_request_tags();
    lemma_id_reads_back(x);
    lemma_id_reads_back(y);
    let dx = decimal(x as nat);
    let dy = decimal(y as nat);
    let t = seq!["[HistoryRequest]"@, dx, dy];
    law_three_parts_read_back("[HistoryRequest]"@, dx, dy);
    let list = lemma_answered(
        a,
        b,
        client,
        session,
        "[HistoryRequest]"@ + "::"@ + (dx + "::"@ + dy),
        t,
        added,
        lines,
    );
    assert("\n"@ == seq!['\n']) by {
        reveal_strlit("\n");
        assert("\n"@ =~= seq!['\n']);
    }
    if let Some(h) = kept_record(a, x, y) {
        lemma_is_list(h, "\n"@, '\n');
        assert(is_list(joined_with(h, "\n"@), h, '\n'));
        if h.len() == 2 {
            assert(h.drop_last().len() == 1 && h.drop_last()[0] == h[0]);
            assert(joined_with(h.drop_last(), "\n"@) == h[0]);
            assert(joined_with(h, "\n"@) == h[0] + "\n"@ + h[1]);
        }
    }
}

/// A media file that a client uploads is stored under its name, with the client as its
/// owner, and replaces one of that name; the client gets an acknowledgement. The other
/// files stay.
pub proof fn law_uploads(
    a: ServerView,
    b: ServerView,
    client: NodeId,
    name: Seq<char>,
    data: Seq<char>,
    session: u64,
    added: Seq<OutgoingView>,
    lines: Seq<Seq<char>>,
)
    requires
        plain(name),
        tight(data),
        message_handled(
            a,
            b,
            client,
            session,
            "[MediaUpload]"@ + "::"@ + (name + "::"@ + data),
            added,
            lines,
        ),
    ensures
        only_sent(ServerView { media: a.media.insert(name, (client, data)), ..a }, b),
        sends_one(a, client, "[MediaUploadAck]"@ + "::"@ + name, session, added),
{
    lemma_request_tags();
    let t = seq!["[MediaUpload]"@, name, data];
    law_three_parts_read_back("[MediaUpload]"@, name, data);
    let list = lemma_answered(
        a,
        b,
        client,
        session,
        "[MediaUpload]"@ + "::"@ + (name + "::"@ + data),
        t,
        added,
        lines,
    );
}

/// A client that asks for a media file gets it as it is stored, whoever stored it, or is
/// told that there is none. Nothing changes.
pub proof fn law_downloads(
    a: ServerView,
    b: ServerView,
    client: NodeId,
    name: Seq<char>,
    session: u64,
    added: Seq<OutgoingView>,
    lines: Seq<Seq<char>>,
)
    requires
        seamless(name),
        tight(name),
        message_handled(
            a,
            b,
            client,
            session,
            "[MediaDownloadRequest]"@ + "::"@ + name,
            added,
            lines,
        ),
    ensures
        only_sent(a, b),
        a.media.contains_key(name) ==> sends_one(
            a,
            client,
            "[MediaDownloadResponse]"@ + "::"@ + (name + "::"@ + a.media[name].1),
            session,
            added,
        ),
        !a.media.contains_key(name) ==> sends_one(
            a,
            client,
            "[MediaDownloadResponse]::ERROR::NotFound"@,
            session,
            added,
        ),
{
    lemma_request_tags();
    let t = seq!["[MediaDownloadRequest]"@, name];
    law_two_parts_read_back("[MediaDownloadRequest]"@, name);
    let list = lemma_answered(
        a,
        b,
        client,
        session,
        "[MediaDownloadRequest]"@ + "::"@ + name,
        t,
        added,
        lines,
    );
}

/// A client that asks for the media gets the names of all that are stored, each one once,
/// with commas between them. Nothing changes.
pub proof fn law_media_lists(
    a: ServerView,
    b: ServerView,
    client: NodeId,
    session: u64,
    added: Seq<OutgoingView>,
    lines: Seq<Seq<char>>,
)
    requires
        message_handled(a, b, client, session, "[MediaListRequest]"@, added, lines),
    ensures
        only_sent(a, b),
        exists|names: Seq<Seq<char>>, s: Seq<char>|
            {
                &&& #[trigger] is_list(s, names, ',')
                &&& names.no_duplicates()
                &&& forall|n: Seq<char>| #[trigger] names.contains(n) <==> a.media.contains_key(n)
                &&& sends_one(a, client, "[MediaListResponse]"@ + "::"@ + s, session, added)
            },
{
    lemma_request_tags();
    lemma_one_part("[MediaListRequest]"@);
    let t = seq!["[MediaListRequest]"@];
    let list = lemma_answered(a, b, client, session, "[MediaListRequest]"@, t, added, lines);
    assert(","@ == seq![',']) by {
        reveal_strlit(",");
        assert(","@ =~= seq![',']);
    }
    let names = choose|names: Seq<Seq<char>>|
        {
            &&& #[trigger] is_order(names, a.media.dom())
            &&& list == seq![
                (client, "[MediaListResponse]"@ + "::"@ + joined_with(names, ","@)),
            ]
        };
    lemma_is_list(names, ","@, ',');
    assert forall|n: Seq<char>| #[trigger] names.contains(n) <==> a.media.contains_key(n) by {
        assert(names.to_set().contains(n) <==> a.media.dom().contains(n));
    }
    assert(is_list(joined_with(names, ","@), names, ','));
}

/// A media file that a client broadcasts is stored, and goes to every other registered
/// client, to each one in turn; the client gets an acknowledgement at the end.
pub proof fn law_broadcasts_of_clients(
    a: ServerView,
    b: ServerView,
    client: NodeId,
    name: Seq<char>,
    data: Seq<char>,
    session: u64,
    added: Seq<OutgoingView>,
    lines: Seq<Seq<char>>,
)
    requires
        plain(name),
        tight(data),
        message_handled(
            a,
            b,
            client,
            session,
            "[MediaBroadcast]"@ + "::"@ + (name + "::"@ + data),
            added,
            lines,
        ),
    ensures
        only_sent(ServerView { media: a.media.insert(name, (client, data)), ..a }, b),
        exists|list: Seq<(NodeId, Seq<char>)>|
            {
                &&& #[trigger] sent_in_turn(a, list, session, added)
                &&& list.len() > 0
                &&& list.last() == (
                    client,
                    "[MediaBroadcastAck]"@ + "::"@ + (name + "::"@ + "Broadcasted"@),
                )
                &&& goes_round(
                    list.drop_last(),
                    a.clients,
                    Some(client),
                    "[MediaDownloadResponse]"@ + "::"@ + (name + "::"@ + data),
                )
            },
{
    lemma_request_tags();
    let t = seq!["[MediaBroadcast]"@, name, data];
    law_three_parts_read_back("[MediaBroadcast]"@, name, data);
    let list = lemma_answered(
        a,
        b,
        client,
        session,
        "[MediaBroadcast]"@ + "::"@ + (name + "::"@ + data),
        t,
        added,
        lines,
    );
    let m = "[MediaDownloadResponse]"@ + "::"@ + (name + "::"@ + data);
    lemma_without_id(a.clients, client);
    let others = without_id(a.clients, client);
    let init = list.drop_last();
    assert(init =~= others.map_values(|id: NodeId| (id, m)));
    lemma_goes_round(init, others, a.clients, Some(client), m);
}

/// The same text goes to every node of a list but one, and to nobody else; to each one
/// once where none is listed twice.
pub open spec fn goes_round(
    list: Seq<(NodeId, Seq<char>)>,
    ids: Seq<NodeId>,
    but: Option<NodeId>,
    text: Seq<char>,
) -> bool {
    &&& forall|n: NodeId| #[trigger]
        ids.contains(n) && Some(n) != but ==> exists|k: int|
            0 <= k < list.len() && (#[trigger] list[k]) == (n, text)
    &&& forall|k: int|
        0 <= k < list.len() ==> (#[trigger] list[k]).1 == text && ids.contains(list[k].0) && Some(
            list[k].0,
        ) != but
    &&& ids.no_duplicates() ==> forall|j: int, k: int|
        0 <= j < k < list.len() ==> (#[trigger] list[j]).0 != (#[trigger] list[k]).0
}

proof fn lemma_goes_round(
    list: Seq<(NodeId, Seq<char>)>,
    some: Seq<NodeId>,
    ids: Seq<NodeId>,
    but: Option<NodeId>,
    text: Seq<char>,
)
    requires
        list == some.map_values(|id: NodeId| (id, text)),
        forall|n: NodeId| #[trigger] some.contains(n) <==> ids.contains(n) && Some(n) != but,
        ids.no_duplicates() ==> some.no_duplicates(),
    ensures
        goes_round(list, ids, but, text),
{
    assert forall|n: NodeId| #[trigger] ids.contains(n) && Some(n) != but implies exists|k: int|
        0 <= k < list.len() && (#[trigger] list[k]) == (n, text) by {
        assert(some.contains(n));
        let k = some.index_of(n);
        assert(list[k] == (n, text));
    }
    assert forall|k: int| 0 <= k < list.len() implies (#[trigger] list[k]).1 == text
        && ids.contains(list[k].0) && Some(list[k].0) != but by {
        assert(some.contains(some[k]));
    }
}

/// A media file that the user of a server broadcasts is stored with the server as its
/// owner, and goes to every registered client, to each one in turn.
pub proof fn law_broadcasts_of_servers(
    a: ServerView,
    b: ServerView,
    name: Seq<char>,
    data: Seq<char>,
    added: Seq<OutgoingView>,
)
    requires
        plain(name),
        gui_handled(a, b, "[MediaBroadcast]::"@ + (name + "::"@ + data), added),
    ensures
        only_sent(ServerView { media: a.media.insert(name, (a.id, data)), ..a }, b),
        exists|list: Seq<(NodeId, Seq<char>)>|
            {
                &&& #[trigger] sent_in_turn(a, list, 0, added)
                &&& goes_round(
                    list,
                    a.clients,
                    None,
                    "[MediaDownloadResponse]"@ + "::"@ + (name + "::"@ + data),
                )
            },
{
    let message = "[MediaBroadcast]::"@ + (name + "::"@ + data);
    let m = "[MediaDownloadResponse]"@ + "::"@ + (name + "::"@ + data);
    let n = "[MediaBroadcast]::"@.len() as int;
    assert(message.subrange(0, n) =~= "[MediaBroadcast]::"@);
    assert(after(message, n) =~= coupled(name, data));
    law_coupled_texts_come_apart(name, Seq::empty(), data);
    let p = parts(after(message, n), 2);
    assert(p == seq![name, data]);
    let w = ServerView { media: a.media.insert(name, (a.id, data)), ..a };
    let list = a.clients.map_values(|id: NodeId| (id, m));
    assert(list =~= a.clients.map_values(
        |id: NodeId| (id, tagged2("[MediaDownloadResponse]"@, p[0], p[1])),
    ));
    lemma_all_sent(w, b, 0, list, added);
    lemma_same_sender(w, a, list, 0, added);
    lemma_goes_round(list, a.clients, a.clients, None, m);
}

/// The media file that a server broadcasts reaches each registered client for which there
/// is a route by way of a neighbour, in pieces. Graphs that go by channels of their own
/// are left out.
pub proof fn law_broadcasts_reach_the_clients(
    a: ServerView,
    b: ServerView,
    name: Seq<char>,
    data: Seq<char>,
    added: Seq<OutgoingView>,
    client: NodeId,
)
    requires
        plain(name),
        gui_handled(a, b, "[MediaBroadcast]::"@ + (name + "::"@ + data), added),
        a.clients.contains(client),
        a.known_channels() is None,
        !a.net.best_path_is(a.id, client, None, None),
        forall|p: Seq<NodeId>| #[trigger]
            a.net.best_path_is(a.id, client, None, Some(p)) ==> p.len() > 1
                && a.neighbours.contains(p[1]),
    ensures
        exists|p: Seq<NodeId>, from: int, to: int|
            {
                &&& a.net.best_path_is(a.id, client, None, Some(p))
                &&& #[trigger] carries_bytes(
                    added,
                    from,
                    to,
                    p,
                    0,
                    vstd::utf8::encode_utf8(
                        "[MediaDownloadResponse]"@ + "::"@ + (name + "::"@ + data),
                    ),
                )
            },
{
    let m = "[MediaDownloadResponse]"@ + "::"@ + (name + "::"@ + data);
    law_broadcasts_of_servers(a, b, name, data, added);
    let list = choose|list: Seq<(NodeId, Seq<char>)>|
        {
            &&& #[trigger] sent_in_turn(a, list, 0, added)
            &&& goes_round(list, a.clients, None, m)
        };
    let cuts = choose|cuts: Seq<int>| #[trigger] in_turn(a, list, 0, added, cuts);
    let k = choose|k: int| 0 <= k < list.len() && (#[trigger] list[k]) == (client, m);
    assert(message_at(a, list[k].0, list[k].1, 0, added, cuts[k], cuts[k + 1]));
    let (net, path) = choose|net: GraphView, path: Option<Seq<NodeId>>|
        {
            &&& #[trigger] net.best_path_is(a.id, client, a.known_channels(), path)
            &&& a.known_channels() is None ==> net == a.net
            &&& if path is Some && path->0.len() > 1 && a.neighbours.contains(path->0[1]) {
                carries_bytes(
                    added,
                    cuts[k],
                    cuts[k + 1],
                    path->0,
                    0,
                    vstd::utf8::encode_utf8(m),
                )
            } else {
                cuts[k] == cuts[k + 1]
            }
        };
    assert(net == a.net);
    assert(path is Some);
    assert(a.net.best_path_is(a.id, client, None, Some(path->0)));
}

/// A chat that is finished goes to every other server that is known, to each one in turn,
/// in a text that reads back as the record of the two clients. Nothing else leaves.
pub proof fn law_finished_chats_are_shared(
    a: ServerView,
    b: ServerView,
    client: NodeId,
    peer: NodeId,
    session: u64,
    added: Seq<OutgoingView>,
    lines: Seq<Seq<char>>,
)
    requires
        message_handled(
            a,
            b,
            client,
            session,
            "[ChatFinish]"@ + "::"@ + decimal(peer as nat),
            added,
            lines,
        ),
        kept_record(a, client, peer) is Some,
        record_json(
            if client <= peer {
                client
            } else {
                peer
            },
            if client <= peer {
                peer
            } else {
                client
            },
            kept_record(a, client, peer)->0,
        ) is Some,
    ensures
        only_sent(a, b),
        exists|list: Seq<(NodeId, Seq<char>)>, json: Seq<char>|
            {
                &&& #[trigger] sent_in_turn(a, list, session, added)
                &&& #[trigger] json_record(json) == Some(
                    (
                        if client <= peer {
                            (client, peer)
                        } else {
                            (peer, client)
                        },
                        kept_record(a, client, peer)->0,
                    ),
                )
                &&& forall|s: NodeId|
                    s != a.id && #[trigger] a.net.types.contains_key(s) && a.net.types[s]
                        == NodeType::Server ==> exists|k: int|
                        0 <= k < list.len() && (#[trigger] list[k]).0 == s
                &&& forall|k: int|
                    0 <= k < list.len() ==> (#[trigger] list[k]).0 != a.id
                        && a.net.types.contains_key(list[k].0) && a.net.types[list[k].0]
                        == NodeType::Server && list[k].1 == "[ChatHistoryUpdate]"@ + "::"@ + (
                    decimal(a.id as nat) + "::"@ + json)
                &&& forall|j: int, k: int|
                    0 <= j < k < list.len() ==> (#[trigger] list[j]).0 != (#[trigger] list[k]).0
            },
{
    lemma_request_tags();
    lemma_id_reads_back(peer);
    let t = seq!["[ChatFinish]"@, decimal(peer as nat)];
    law_two_parts_read_back("[ChatFinish]"@, decimal(peer as nat));
    let json = a.record_to_spread(client, t)->0;
    let told = choose|told: Seq<NodeId>|
        {
            &&& #[trigger] record_spread(a, b, session, json, added, told)
            &&& lines == a.message_lines(client, session, t, told)
        };
    let text = "[ChatHistoryUpdate]"@ + "::"@ + (decimal(a.id as nat) + "::"@ + json);
    let servers = choose|servers: Seq<NodeId>|
        {
            &&& is_order(servers, a.other_servers())
            &&& #[trigger] spread_to_all(a, b, session, servers, text, added, told)
        };
    lemma_spread(a, b, session, servers, text, added, told);
    let list = servers.map_values(|id: NodeId| (id, text));
    assert forall|s: NodeId|
        s != a.id && #[trigger] a.net.types.contains_key(s) && a.net.types[s]
            == NodeType::Server implies exists|k: int|
        0 <= k < list.len() && (#[trigger] list[k]).0 == s by {
        assert(a.other_servers().contains(s));
        assert(servers.to_set().contains(s));
        let k = servers.index_of(s);
        assert(list[k].0 == s);
    }
    assert forall|k: int| 0 <= k < list.len() implies (#[trigger] list[k]).0 != a.id
        && a.net.types.contains_key(list[k].0) && a.net.types[list[k].0] == NodeType::Server
        && list[k].1 == text by {
        assert(servers.contains(servers[k]));
        assert(servers.to_set().contains(servers[k]));
        assert(a.other_servers().contains(servers[k]));
    }
    assert(sent_in_turn(a, list, session, added));
    assert(json_record(json) is Some);
}

/// A text that goes to other servers is sent in turn.
proof fn lemma_spread(
    a: ServerView,
    b: ServerView,
    session: u64,
    servers: Seq<NodeId>,
    text: Seq<char>,
    added: Seq<OutgoingView>,
    told: Seq<NodeId>,
)
    requires
        spread_to_all(a, b, session, servers, text, added, told),
    ensures
        only_sent(a, b),
        sent_in_turn(a, servers.map_values(|id: NodeId| (id, text)), session, added),
    decreases servers.len(),
{
    let list = servers.map_values(|id: NodeId| (id, text));
    if servers.len() == 0 {
        assert(in_turn(a, list, session, added, seq![0int]));
    } else {
        let (m, cut, last) = choose|m: ServerView, cut: int, last: bool|
            {
                &&& 0 <= cut <= added.len()
                &&& last ==> told.len() > 0 && told.last() == servers.last()
                &&& spread_to_all(
                    a,
                    m,
                    session,
                    servers.drop_last(),
                    text,
                    added.subrange(0, cut),
                    if last {
                        told.drop_last()
                    } else {
                        told
                    },
                )
                &&& #[trigger] spread_to(
                    m,
                    b,
                    session,
                    servers.last(),
                    text,
                    added.subrange(cut, added.len() as int),
                    last,
                )
            };
        let part = added.subrange(0, cut);
        let rest = added.subrange(cut, added.len() as int);
        lemma_spread(
            a,
            m,
            session,
            servers.drop_last(),
            text,
            part,
            if last {
                told.drop_last()
            } else {
                told
            },
        );
        let to = servers.last();
        let path = choose|path: Option<Seq<NodeId>>|
            {
                &&& #[trigger] m.net.best_path_is(m.id, to, m.known_channels(), path)
                &&& last == (path is Some)
                &&& match path {
                    Some(_) => chat_sent(after_search(m, to), b, session, to, text, rest),
                    None => b == after_search(m, to) && rest == Seq::<OutgoingView>::empty(),
                }
            };
        lemma_search_keeps(m, to);
        if path is Some {
            lemma_chat_sent(a, after_search(m, to), b, session, to, text, rest);
        } else {
            assert(m.net.best_path_is(a.id, to, a.known_channels(), None::<Seq<NodeId>>));
            assert(message_at(a, to, text, session, rest, 0, 0));
        }
        let init = servers.drop_last().map_values(|id: NodeId| (id, text));
        assert(init =~= list.drop_last());
        lemma_turn_on(a, list, session, added, cut);
    }
}

/// A record that another server hands on is kept as it reads, and replaces the one of the
/// same clients; other records stay, and nothing leaves.
pub proof fn law_shared_chats_are_kept(
    a: ServerView,
    b: ServerView,
    from: NodeId,
    id: NodeId,
    json: Seq<char>,
    session: u64,
    added: Seq<OutgoingView>,
    lines: Seq<Seq<char>>,
)
    requires
        tight(json),
        message_handled(
            a,
            b,
            from,
            session,
            "[ChatHistoryUpdate]"@ + "::"@ + (decimal(id as nat) + "::"@ + json),
            added,
            lines,
        ),
    ensures
        added.len() == 0,
        only_sent(
            ServerView {
                history: match json_record(json) {
                    Some(r) => a.history.insert(r.0, r.1),
                    None => a.history,
                },
                ..a
            },
            b,
        ),
{
    lemma_request_tags();
    lemma_id_reads_back(id);
    let d = decimal(id as nat);
    let t = seq!["[ChatHistoryUpdate]"@, d, json];
    law_three_parts_read_back("[ChatHistoryUpdate]"@, d, json);
    let list = lemma_answered(
        a,
        b,
        from,
        session,
        "[ChatHistoryUpdate]"@ + "::"@ + (d + "::"@ + json),
        t,
        added,
        lines,
    );
    assert(a.updated(from, t) =~= ServerView {
        history: match json_record(json) {
            Some(r) => a.history.insert(r.0, r.1),
            None => a.history,
        },
        ..a
    });
}

}
