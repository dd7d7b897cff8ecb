//! What clients do with the commands of their users and with packets.
use crate::changes::{announced, tokens_of, ChangeView};
use crate::channels::mentioned;
use crate::client1::{
    after_search, all_pending_handled, change_handled, command_handled, dispatched, expired_floods,
    first_request, floods_closed, fragment_with, logged_out, message_of, next_id, pending_handled,
    sent_along, server_after, timeouts_checked, waiting, with_neighbour, ClientView,
};
use crate::flood_laws::{goes_to_all, lemma_to_each, starts_flood};
use crate::fragment::{
    accepted_all, are_chunks, arrived, chunk_count, completes, fresh, is_chunk,
    law_reassembly_gives_message_back, law_text_survives_the_way,
};
use crate::graphs::NodeInfo;
use crate::known_network::{
    edge_dropped, edge_ensured, loss_counted, loss_counted_both, node_added, own_link_added,
    unlinked, NetView,
};
use crate::laws::tight;
use crate::notices::notice_of;
use crate::packet::{
    lemma_without_id, to_each, BodyView, Fragment, NackType, NodeId, NodeType, OutgoingView,
    PacketView,
};
use crate::sending_laws::{carries_bytes, lemma_fragments_carry};
use crate::text::{begins_with, decimal, id_number, separator_at, trim_both};
use crate::text_laws::law_trimming_twice;
use crate::wording::{
    coupled, lemma_colons, lemma_coupled_parts, lemma_id_reads_back, lemma_single_part,
    lemma_trimmed, plain, seamless, trimmed,
};
use vstd::prelude::*;
use vstd::utf8::encode_utf8;

verus! {

/// A tag, double colons and an id.
pub open spec fn tag_id(tag: Seq<char>, id: NodeId) -> Seq<char> {
    tag + "::"@ + decimal(id as nat)
}

/// A tag and two texts, with double colons between them.
pub open spec fn tag_two(tag: Seq<char>, x: Seq<char>, y: Seq<char>) -> Seq<char> {
    tag + "::"@ + (x + "::"@ + y)
}

/// A tag with a name behind it.
pub open spec fn names(command: Seq<char>, tag: Seq<char>, name: Seq<char>) -> bool {
    command == tag + "::"@ + name && seamless(name) && tight(name)
}

/// A tag with a name and data behind it.
pub open spec fn names_two(
    command: Seq<char>,
    tag: Seq<char>,
    name: Seq<char>,
    data: Seq<char>,
) -> bool {
    command == tag_two(tag, name, data) && plain(name) && seamless(data) && tight(data)
}

/// A command that asks for something or sends something.
pub open spec fn plain_command(command: Seq<char>) -> bool {
    ||| command == "[ClientListRequest]"@
    ||| command == "[MediaListRequest]"@
    ||| exists|name: Seq<char>| #[trigger] names(command, "[MediaDownloadRequest]"@, name)
    ||| exists|id: NodeId, text: Seq<char>| #[trigger]
        names_two(command, "[MessageTo]"@, decimal(id as nat), text)
    ||| exists|name: Seq<char>, data: Seq<char>| #[trigger]
        names_two(command, "[MediaUpload]"@, name, data)
    ||| exists|name: Seq<char>, data: Seq<char>| #[trigger]
        names_two(command, "[MediaBroadcast]"@, name, data)
    ||| exists|x: NodeId, y: NodeId| #[trigger]
        names_two(command, "[HistoryRequest]"@, decimal(x as nat), decimal(y as nat))
}

/// A command that a user can give once the client is logged in.
pub open spec fn chat_command(command: Seq<char>) -> bool {
    ||| command == "[Logout]"@
    ||| exists|id: NodeId| command == #[trigger] tag_id("[ChatRequest]"@, id)
    ||| exists|id: NodeId| command == #[trigger] tag_id("[ChatFinish]"@, id)
    ||| plain_command(command)
}

/// The tags of commands.
pub proof fn lemma_command_tags()
    ensures
        "[Login]"@.len() == 7,
        "[Logout]"@.len() == 8,
        "[ClientListRequest]"@.len() == 19,
        "[MediaListRequest]"@.len() == 18,
        "[ChatRequest]"@.len() == 13,
        "[ChatFinish]"@.len() == 12,
        "[MediaDownloadRequest]"@.len() == 22,
        "[MessageTo]"@.len() == 11,
        "[MediaUpload]"@.len() == 13,
        "[MediaBroadcast]"@.len() == 16,
        "[HistoryRequest]"@.len() == 16,
        "[FloodRequired]"@.len() == 15,
        "[MediaBroadcast]"@ != "[HistoryRequest]"@,
        "[MediaUpload]"@ != "[ChatRequest]"@,
        plain("[Login]"@) && trimmed("[Login]"@),
        seamless("[Logout]"@) && trimmed("[Logout]"@),
        seamless("[ClientListRequest]"@) && trimmed("[ClientListRequest]"@),
        seamless("[MediaListRequest]"@) && trimmed("[MediaListRequest]"@),
        plain("[ChatRequest]"@) && trimmed("[ChatRequest]"@),
        plain("[ChatFinish]"@) && trimmed("[ChatFinish]"@),
        plain("[MediaDownloadRequest]"@) && trimmed("[MediaDownloadRequest]"@),
        plain("[MessageTo]"@) && trimmed("[MessageTo]"@),
        plain("[MediaUpload]"@) && trimmed("[MediaUpload]"@),
        plain("[MediaBroadcast]"@) && trimmed("[MediaBroadcast]"@),
        plain("[HistoryRequest]"@) && trimmed("[HistoryRequest]"@),
{
    reveal_strlit("[Login]");
    reveal_strlit("[Logout]");
    reveal_strlit("[ClientListRequest]");
    reveal_strlit("[MediaListRequest]");
    reveal_strlit("[ChatRequest]");
    reveal_strlit("[ChatFinish]");
    reveal_strlit("[MediaDownloadRequest]");
    reveal_strlit("[MessageTo]");
    reveal_strlit("[MediaUpload]");
    reveal_strlit("[MediaBroadcast]");
    reveal_strlit("[HistoryRequest]");
    reveal_strlit("[FloodRequired]");
    assert("[MediaBroadcast]"@[1] == 'M');
    assert("[HistoryRequest]"@[1] == 'H');
    assert("[MediaUpload]"@[1] == 'M');
    assert("[ChatRequest]"@[1] == 'C');
    lemma_no_colon("[Logout]"@);
    lemma_no_colon("[ClientListRequest]"@);
    lemma_no_colon("[MediaListRequest]"@);
}

proof fn lemma_no_colon(s: Seq<char>)
    requires
        forall|i: int| 0 <= i < s.len() ==> #[trigger] s[i] != ':',
    ensures
        seamless(s),
{
    assert forall|i: int| 0 <= i < s.len() implies !(#[trigger] separator_at(s, i)) by {
        assert(s[i] != ':');
    }
}

pub proof fn lemma_tokens_one(s: Seq<char>)
    requires
        seamless(s),
        trimmed(s),
    ensures
        tokens_of(s) == seq![s],
{
    lemma_trimmed(s);
    lemma_single_part(s, (s.len() + 1) as nat);
}

pub proof fn lemma_tokens_two(tag: Seq<char>, x: Seq<char>)
    requires
        plain(tag),
        trimmed(tag),
        seamless(x),
        tight(x),
    ensures
        tokens_of(tag + "::"@ + x) == seq![tag, x],
{
    lemma_colons();
    let s = coupled(tag, x);
    lemma_ends(tag, x);
    lemma_trimmed(s);
    let n = (s.len() + 1) as nat;
    lemma_coupled_parts(tag, x, n);
    lemma_single_part(x, (n - 1) as nat);
    assert(seq![tag] + seq![x] =~= seq![tag, x]);
}

pub proof fn lemma_tokens_three(tag: Seq<char>, x: Seq<char>, y: Seq<char>)
    requires
        plain(tag),
        trimmed(tag),
        plain(x),
        seamless(y),
        tight(y),
    ensures
        tokens_of(tag_two(tag, x, y)) == seq![tag, x, y],
{
    lemma_colons();
    let rest = coupled(x, y);
    let s = coupled(tag, rest);
    if y.len() > 0 {
        assert(rest.last() == y.last());
    } else {
        assert(rest.last() == ':');
    }
    lemma_ends(tag, rest);
    lemma_trimmed(s);
    let n = (s.len() + 1) as nat;
    lemma_coupled_parts(tag, rest, n);
    lemma_coupled_parts(x, y, (n - 1) as nat);
    lemma_single_part(y, (n - 2) as nat);
    assert(seq![tag] + (seq![x] + seq![y]) =~= seq![tag, x, y]);
}

proof fn lemma_ends(a: Seq<char>, b: Seq<char>)
    requires
        trimmed(a),
        tight(b),
    ensures
        trimmed(coupled(a, b)),
{
    lemma_colons();
    let s = coupled(a, b);
    assert(s[0] == a[0]);
    if b.len() > 0 {
        assert(s.last() == b.last());
    } else {
        assert(s.last() == ':');
    }
}

/// How many parts a command has, and what they are.
pub open spec fn plain_tokens(command: Seq<char>, t: Seq<Seq<char>>) -> bool {
    ||| t == seq![command] && (command == "[ClientListRequest]"@ || command
        == "[MediaListRequest]"@)
    ||| t.len() == 2 && t[0] == "[MediaDownloadRequest]"@ && command == t[0] + "::"@ + t[1]
    ||| t.len() == 3 && (t[0] == "[MediaUpload]"@ || t[0] == "[MediaBroadcast]"@) && command
        == tag_two(t[0], t[1], t[2])
    ||| t.len() == 3 && t[0] == "[MessageTo]"@ && command == tag_two(t[0], t[1], t[2]) && exists|
        id: NodeId,
    |
        t[1] == #[trigger] decimal(id as nat)
    ||| t.len() == 3 && t[0] == "[HistoryRequest]"@ && command == tag_two(t[0], t[1], t[2])
        && exists|x: NodeId, y: NodeId|
        t[1] == #[trigger] decimal(x as nat) && t[2] == #[trigger] decimal(y as nat)
}

pub proof fn lemma_plain_tokens(command: Seq<char>)
    requires
        plain_command(command),
    ensures
        plain_tokens(command, tokens_of(command)),
{
    lemma_command_tags();
    lemma_colons();
    if command == "[ClientListRequest]"@ || command == "[MediaListRequest]"@ {
        lemma_tokens_one(command);
    } else if exists|name: Seq<char>| #[trigger] names(command, "[MediaDownloadRequest]"@, name) {
        let name = choose|name: Seq<char>| #[trigger]
            names(command, "[MediaDownloadRequest]"@, name);
        lemma_tokens_two("[MediaDownloadRequest]"@, name);
    } else if exists|id: NodeId, text: Seq<char>| #[trigger]
        names_two(command, "[MessageTo]"@, decimal(id as nat), text) {
        let (id, text) = choose|id: NodeId, text: Seq<char>| #[trigger]
            names_two(command, "[MessageTo]"@, decimal(id as nat), text);
        lemma_tokens_three("[MessageTo]"@, decimal(id as nat), text);
    } else if exists|name: Seq<char>, data: Seq<char>| #[trigger]
        names_two(command, "[MediaUpload]"@, name, data) {
        let (name, data) = choose|name: Seq<char>, data: Seq<char>| #[trigger]
            names_two(command, "[MediaUpload]"@, name, data);
        lemma_tokens_three("[MediaUpload]"@, name, data);
    } else if exists|name: Seq<char>, data: Seq<char>| #[trigger]
        names_two(command, "[MediaBroadcast]"@, name, data) {
        let (name, data) = choose|name: Seq<char>, data: Seq<char>| #[trigger]
            names_two(command, "[MediaBroadcast]"@, name, data);
        lemma_tokens_three("[MediaBroadcast]"@, name, data);
    } else {
        let (x, y) = choose|x: NodeId, y: NodeId| #[trigger]
            names_two(command, "[HistoryRequest]"@, decimal(x as nat), decimal(y as nat));
        lemma_tokens_three("[HistoryRequest]"@, decimal(x as nat), decimal(y as nat));
    }
}

/// A command of a user who is logged in goes to the server as it was given.
pub proof fn law_commands_become_messages(server: NodeId, command: Seq<char>)
    requires
        chat_command(command),
    ensures
        message_of(Some(server), tokens_of(command)) == Some(command),
        message_of(None, tokens_of(command)) is None,
        announced(command) is None,
        server_after(Some(server), tokens_of(command)) == Some(server),
        tokens_of(command)[0] == "[Logout]"@ <==> command == "[Logout]"@,
{
    lemma_command_tags();
    lemma_colons();
    if command == "[Logout]"@ {
        lemma_tokens_one(command);
    } else if exists|id: NodeId| command == #[trigger] tag_id("[ChatRequest]"@, id) {
        let id = choose|id: NodeId| command == #[trigger] tag_id("[ChatRequest]"@, id);
        lemma_id_reads_back(id);
        lemma_tokens_two("[ChatRequest]"@, decimal(id as nat));
    } else if exists|id: NodeId| command == #[trigger] tag_id("[ChatFinish]"@, id) {
        let id = choose|id: NodeId| command == #[trigger] tag_id("[ChatFinish]"@, id);
        lemma_id_reads_back(id);
        lemma_tokens_two("[ChatFinish]"@, decimal(id as nat));
    } else {
        lemma_plain_tokens(command);
        let t = tokens_of(command);
        if t.len() == 3 && t[0] == "[MessageTo]"@ {
            let id = choose|id: NodeId| t[1] == #[trigger] decimal(id as nat);
            lemma_id_reads_back(id);
        }
        if t.len() == 3 && t[0] == "[HistoryRequest]"@ {
            let (x, y) = choose|x: NodeId, y: NodeId|
                t[1] == #[trigger] decimal(x as nat) && t[2] == #[trigger] decimal(y as nat);
            lemma_id_reads_back(x);
            lemma_id_reads_back(y);
        }
    }
}

/// A channel leads from a client to a node.
pub open spec fn can_send(v: ClientView, to: NodeId) -> bool {
    v.neighbours.contains(to) || (v.channels is Some && v.channels->0.contains((v.id, to)))
}

/// A client has sent a text along a path under a session: its pieces are on their way where
/// a channel leads to the next hop, and are kept with the path; none is acknowledged yet.
pub open spec fn text_sent(
    a: ClientView,
    b: ClientView,
    dest: NodeId,
    path: Seq<NodeId>,
    text: Seq<char>,
    session: u64,
    added: Seq<OutgoingView>,
) -> bool {
    &&& if path.len() > 1 && can_send(a, path[1]) {
        carries_bytes(added, 0, added.len() as int, path, session, encode_utf8(text))
    } else {
        added.len() == 0
    }
    &&& b.sent.contains_key(session)
    &&& b.sent[session].header.hops == path
    &&& b.sent[session].header.hop_index == 1
    &&& !b.sent[session].stale
    &&& forall|i: u64| !(#[trigger] b.sent[session].acked.contains(i))
    &&& forall|k: int|
        0 <= k < added.len() ==> k < b.sent[session].fragments.len() && (
        #[trigger] added[k]).packet.body == BodyView::MsgFragment(b.sent[session].fragments[k])
    &&& forall|s: u64|
        s != session ==> (#[trigger] b.sent.contains_key(s) <==> a.sent.contains_key(s))
            && b.sent[s] == a.sent[s]
    &&& b.routes == a.routes.insert(dest, path)
    &&& b.neighbours == a.neighbours && b.received == a.received && b.seen == a.seen && b.channels
        == a.channels && b.id == a.id
}

proof fn lemma_text_sent(
    a: ClientView,
    b: ClientView,
    dest: NodeId,
    path: Seq<NodeId>,
    text: Seq<char>,
    c0: u64,
    added: Seq<OutgoingView>,
)
    requires
        c0 < u64::MAX,
        sent_along(a, b, dest, path, text, c0, added),
    ensures
        text_sent(a, b, dest, path, text, (c0 + 1) as u64, added),
        b.net == a.net && b.server == a.server && b.pending == a.pending && b.floods == a.floods,
{
    let session = (c0 + 1) as u64;
    let fragments = choose|fragments: Seq<Fragment>|
        {
            &&& #[trigger] are_chunks(fragments, encode_utf8(text))
            &&& b == a.message_sent(dest, path, fragments, session)
            &&& added == a.fragment_packets(path, fragments, session)
        };
    if path.len() > 1 && can_send(a, path[1]) {
        lemma_fragments_carry(added, path, fragments, session, encode_utf8(text));
    }
}

/// The client has started a flood within the last five seconds that is still under way.
pub open spec fn asked_of_late(v: ClientView, now: u64) -> bool {
    exists|k: u64| #[trigger]
        v.floods.contains_key(k) && v.floods[k].initiator == v.id && now - v.floods[k].start
            < 5_000_000_000
}

/// A client asks all its neighbours under a flood id.
pub open spec fn asks_all(
    out: Seq<OutgoingView>,
    neighbours: Seq<NodeId>,
    id: NodeId,
    flood_id: u64,
) -> bool {
    goes_to_all(
        out,
        neighbours,
        None,
        |q: PacketView| starts_flood(id, NodeType::Client, flood_id, q),
    )
}

proof fn lemma_asks_all(neighbours: Seq<NodeId>, id: NodeId, counter: u64)
    requires
        counter < u64::MAX,
    ensures
        asks_all(
            to_each(neighbours, first_request(id, (counter + 1) as u64)),
            neighbours,
            id,
            (counter + 1) as u64,
        ),
{
    let flood_id = (counter + 1) as u64;
    let good = |q: PacketView| starts_flood(id, NodeType::Client, flood_id, q);
    let q = first_request(id, flood_id);
    assert(good(q));
    lemma_to_each(neighbours, q, good);
}

/// A command of a user who is logged in leaves for the server along a least-cost route,
/// under a session that the counter has not given before. A logout that has left ends the
/// connection. Where there is no route, the command waits for one, and a flood is started
/// unless one of the last five seconds is under way.
pub proof fn law_commands_are_sent(
    a: ClientView,
    b: ClientView,
    command: Seq<char>,
    now: u64,
    c0: u64,
    c1: u64,
    added: Seq<OutgoingView>,
    dest: NodeId,
)
    requires
        chat_command(command),
        a.server == Some(dest),
        dest != a.id,
        c0 < u64::MAX - 1,
        command_handled(a, b, command, now, c0, c1, added),
    ensures
        exists|path: Option<Seq<NodeId>>|
            {
                &&& #[trigger] a.net.best_path_is(a.id, dest, a.channels, path)
                &&& path is Some && path->0.len() > 1 ==> ({
                    &&& text_sent(a, b, dest, path->0, command, (c0 + 1) as u64, added)
                    &&& b.server == (if command == "[Logout]"@ {
                        None
                    } else {
                        Some(dest)
                    })
                    &&& b.pending == a.pending
                    &&& c1 == c0 + 1
                })
                &&& path is None ==> ({
                    &&& b.pending == a.pending.push((dest, command))
                    &&& b.server == a.server
                    &&& b.sent == a.sent
                    &&& b.routes == a.routes
                    &&& if asked_of_late(a, now) {
                        c1 == c0 && added.len() == 0 && b.floods == a.floods
                    } else {
                        c1 == c0 + 1 && asks_all(added, a.neighbours, a.id, c1)
                            && b.floods.contains_key(c1) && b.floods[c1].initiator == a.id
                    }
                })
            },
{
    law_commands_become_messages(dest, command);
    assert(ClientView { server: a.server, ..a } =~= a);
    let logout = tokens_of(command)[0] == "[Logout]"@;
    assert(dispatched(a, b, dest, command, command, logout, now, c0, c1, added));
    let s = after_search(a, dest);
    let path = choose|path: Option<Seq<NodeId>>|
        {
            &&& #[trigger] a.net.best_path_is(a.id, dest, a.channels, path)
            &&& match path {
                None => if s.own_flood_active(now) {
                    b == waiting(s, dest, command) && c1 == c0 && added == Seq::<
                        OutgoingView,
                    >::empty()
                } else {
                    b == waiting(s.flooding(c0, now), dest, command) && c1
                        == next_id(c0) && added == s.flood_requests(c0)
                },
                Some(p) => exists|m: ClientView, sent: Seq<OutgoingView>|
                    {
                        &&& #[trigger] sent_along(s, m, dest, p, command, c0, sent)
                        &&& if p.len() > 1 {
                            b == logged_out(m, logout) && c1
                                == next_id(c0) && added == sent
                        } else {
                            b == logged_out(
                                m.flooding(next_id(c0), now),
                                logout,
                            ) && c1 == next_id(next_id(c0))
                                && added == m.flood_requests(next_id(c0))
                        }
                    },
            }
        };
    if path is None {
        lemma_asks_all(a.neighbours, a.id, c0);
    }
    if path is Some && path->0.len() > 1 {
        let p = path->0;
        let (m, sent) = choose|m: ClientView, sent: Seq<OutgoingView>|
            {
                &&& #[trigger] sent_along(s, m, dest, p, command, c0, sent)
                &&& b == logged_out(m, logout)
                &&& c1 == next_id(c0)
                &&& added == sent
            };
        lemma_text_sent(s, m, dest, p, command, c0, added);
    }
}

/// A user who logs in is connected to the server named, and the login leaves for it like
/// any other command, whatever the client was connected to.
pub proof fn law_logins_are_sent(
    a: ClientView,
    b: ClientView,
    dest: NodeId,
    now: u64,
    c0: u64,
    c1: u64,
    added: Seq<OutgoingView>,
)
    requires
        dest != a.id,
        c0 < u64::MAX - 1,
        command_handled(a, b, tag_id("[Login]"@, dest), now, c0, c1, added),
    ensures
        b.server == Some(dest),
        exists|path: Option<Seq<NodeId>>|
            {
                &&& #[trigger] a.net.best_path_is(a.id, dest, a.channels, path)
                &&& path is Some && path->0.len() > 1 ==> text_sent(
                    a,
                    b,
                    dest,
                    path->0,
                    tag_id("[Login]"@, dest),
                    (c0 + 1) as u64,
                    added,
                )
                &&& path is None ==> b.pending == a.pending.push(
                    (dest, tag_id("[Login]"@, dest)),
                ) && b.sent == a.sent
            },
{
    lemma_command_tags();
    lemma_id_reads_back(dest);
    let command = tag_id("[Login]"@, dest);
    lemma_tokens_two("[Login]"@, decimal(dest as nat));
    let w = ClientView { server: Some(dest), ..a };
    assert(dispatched(w, b, dest, command, command, false, now, c0, c1, added));
    let s = after_search(w, dest);
    let path = choose|path: Option<Seq<NodeId>>|
        {
            &&& #[trigger] w.net.best_path_is(w.id, dest, w.channels, path)
            &&& match path {
                None => if s.own_flood_active(now) {
                    b == waiting(s, dest, command) && c1 == c0 && added == Seq::<
                        OutgoingView,
                    >::empty()
                } else {
                    b == waiting(s.flooding(c0, now), dest, command) && c1
                        == next_id(c0) && added == s.flood_requests(c0)
                },
                Some(p) => exists|m: ClientView, sent: Seq<OutgoingView>|
                    {
                        &&& #[trigger] sent_along(s, m, dest, p, command, c0, sent)
                        &&& if p.len() > 1 {
                            b == logged_out(m, false) && c1
                                == next_id(c0) && added == sent
                        } else {
                            b == logged_out(
                                m.flooding(next_id(c0), now),
                                false,
                            ) && c1 == next_id(next_id(c0))
                                && added == m.flood_requests(next_id(c0))
                        }
                    },
            }
        };
    if path is Some {
        let p = path->0;
        let (m, sent) = choose|m: ClientView, sent: Seq<OutgoingView>|
            {
                &&& #[trigger] sent_along(s, m, dest, p, command, c0, sent)
                &&& if p.len() > 1 {
                    b == logged_out(m, false) && c1 == next_id(c0)
                        && added == sent
                } else {
                    b == logged_out(
                        m.flooding(next_id(c0), now),
                        false,
                    ) && c1 == next_id(next_id(c0)) && added
                        == m.flood_requests(next_id(c0))
                }
            };
        lemma_text_sent(s, m, dest, p, command, c0, sent);
    }
    assert(a.net.best_path_is(a.id, dest, a.channels, path));
}

/// A command that has waited for a flood leaves for its server along a least-cost route,
/// where there is one now, and is lost otherwise. A logout that has left ends the
/// connection.
pub proof fn law_waiting_commands_are_sent(
    a: ClientView,
    b: ClientView,
    dest: NodeId,
    command: Seq<char>,
    c0: u64,
    c1: u64,
    added: Seq<OutgoingView>,
)
    requires
        c0 < u64::MAX,
        pending_handled(a, b, (dest, command), c0, c1, added),
    ensures
        exists|path: Option<Seq<NodeId>>|
            {
                &&& #[trigger] a.net.best_path_is(a.id, dest, a.channels, path)
                &&& path is Some ==> text_sent(
                    a,
                    b,
                    dest,
                    path->0,
                    command,
                    (c0 + 1) as u64,
                    added,
                ) && c1 == c0 + 1 && (command == "[Logout]"@ ==> b.server is None) && ((
                command.len() < 8 || command[1] != 'L') ==> b.server == a.server)
                &&& path is None ==> added.len() == 0 && c1 == c0 && b.sent == a.sent && b.server
                    == a.server
            },
{
    let path = choose|path: Option<Seq<NodeId>>|
        {
            &&& #[trigger] a.net.best_path_is(a.id, dest, a.channels, path)
            &&& match path {
                None => b == after_search(a, dest) && c1 == c0 && added == Seq::<
                    OutgoingView,
                >::empty(),
                Some(p) => {
                    &&& c1 == next_id(c0)
                    &&& exists|m: ClientView| #[trigger]
                        sent_along(after_search(a, dest), m, dest, p, command, c0, added) && b == (
                        if begins_with(command, "[Logout]"@) {
                            ClientView { server: None, ..m }
                        } else {
                            m
                        })
                },
            }
        };
    if let Some(p) = path {
        let m = choose|m: ClientView| #[trigger]
            sent_along(after_search(a, dest), m, dest, p, command, c0, added) && b == (
            if begins_with(command, "[Logout]"@) {
                ClientView { server: None, ..m }
            } else {
                m
            });
        lemma_text_sent(after_search(a, dest), m, dest, p, command, c0, added);
        reveal_strlit("[Logout]");
        let tag = "[Logout]"@;
        assert(tag.subrange(0, 8) =~= tag);
        if begins_with(command, tag) {
            assert(command.subrange(0, 8)[1] == command[1]);
        }
    }
}

/// The receipt of a fragment is noted with its message; nothing else changes, and nothing
/// leaves.
pub proof fn law_receipts_are_noted(a: ClientView, net: NetView, p: PacketView)
    requires
        p.body is Ack,
        a.packet_net(net, p),
        a.sent.contains_key(p.session_id),
    ensures
        ({
            let i = p.body->Ack_0.fragment_index;
            let b = a.after_packet(net, p);
            &&& b.sent.contains_key(p.session_id)
            &&& forall|k: u64| #[trigger]
                b.sent[p.session_id].acked.contains(k) <==> k == i
                    || a.sent[p.session_id].acked.contains(k)
            &&& b.sent[p.session_id].fragments == a.sent[p.session_id].fragments
            &&& b.sent[p.session_id].header == a.sent[p.session_id].header
            &&& b.net == a.net && b.neighbours == a.neighbours && b.routes == a.routes && b.server
                == a.server && b.floods == a.floods && b.pending == a.pending
            &&& a.packet_answer(p).len() == 0
        }),
{
}

/// A fragment that was lost is sent once more along the route of its message, and the link
/// on which it was lost counts one more loss, both ways; other links do not.
pub proof fn law_lost_pieces_are_sent_again(a: ClientView, net: NetView, p: PacketView, k: int)
    requires
        a.wf(),
        p.body is Nack,
        p.body->Nack_0.nack_type == NackType::Dropped,
        a.sent.contains_key(p.session_id),
        0 <= k < a.sent[p.session_id].fragments.len(),
        a.sent[p.session_id].fragments[k].fragment_index == p.body->Nack_0.fragment_index,
        forall|j: int|
            0 <= j < k ==> (#[trigger] a.sent[p.session_id].fragments[j]).fragment_index
                != p.body->Nack_0.fragment_index,
        a.sent[p.session_id].header.hop_index == 1,
        a.packet_net(net, p),
    ensures
        ({
            let s = a.sent[p.session_id];
            let out = a.packet_answer(p);
            let b = a.after_packet(net, p);
            &&& s.header.hops.len() > 1 && can_send(a, s.header.hops[1]) ==> out.len() == 1
                && out[0].to == s.header.hops[1] && out[0].packet.body == BodyView::MsgFragment(
                s.fragments[k],
            ) && out[0].packet.header == s.header && out[0].packet.session_id == p.session_id
            &&& !(s.header.hops.len() > 1 && can_send(a, s.header.hops[1])) ==> out.len() == 0
            &&& b == (ClientView { net, ..a })
            &&& if 0 < p.header.hop_index < p.header.hops.len() {
                p.header.hops[p.header.hop_index - 1] != p.header.hops[p.header.hop_index]
                    ==> one_loss_more(
                    a.net,
                    net,
                    p.header.hops[p.header.hop_index - 1],
                    p.header.hops[p.header.hop_index],
                )
            } else {
                net == a.net
            }
        }),
{
    lemma_found(a.sent[p.session_id].fragments, p.body->Nack_0.fragment_index, k);
    let h = p.header;
    if 0 < h.hop_index < h.hops.len() && h.hops[h.hop_index - 1] != h.hops[h.hop_index] {
        lemma_one_loss_more(a.net, net, h.hops[h.hop_index - 1], h.hops[h.hop_index]);
    }
}

/// An edge leads from one node to another.
pub open spec fn leads(net: NetView, e: u32, x: NodeId, y: NodeId) -> bool {
    &&& net.index.contains_key(x)
    &&& net.index.contains_key(y)
    &&& net.edges.contains_key(e)
    &&& net.edges[e].0 == net.index[x]
    &&& net.edges[e].1 == net.index[y]
}

/// The edges between two nodes count one more loss, as far as the number fits; all else
/// stays.
pub open spec fn one_loss_more(a: NetView, b: NetView, x: NodeId, y: NodeId) -> bool {
    &&& b.nodes == a.nodes
    &&& b.index == a.index
    &&& forall|e: u32| #[trigger] b.edges.contains_key(e) <==> a.edges.contains_key(e)
    &&& forall|e: u32| #[trigger]
        a.edges.contains_key(e) ==> b.edges[e].0 == a.edges[e].0 && b.edges[e].1 == a.edges[e].1
            && b.edges[e].2 == a.edges[e].2 + (if (leads(a, e, x, y) || leads(a, e, y, x))
            && a.edges[e].2 < usize::MAX {
            1int
        } else {
            0int
        })
}

proof fn lemma_one_loss_more(a: NetView, b: NetView, x: NodeId, y: NodeId)
    requires
        a.wf(),
        x != y,
        loss_counted_both(a, b, x, y),
    ensures
        one_loss_more(a, b, x, y),
{
    let m = choose|m: NetView| #[trigger]
        loss_counted(a, m, x, y) && loss_counted(m, b, y, x);
    if a.index.contains_key(x) && a.index.contains_key(y) {
        assert(a.nodes[a.index[x]].id == x && a.nodes[a.index[y]].id == y);
        assert(a.index[x] != a.index[y]);
        assert(m.index == a.index && m.nodes == a.nodes);
        assert forall|e: u32| #[trigger] a.edges.contains_key(e) implies m.edges.contains_key(e)
            && m.edges[e].0 == a.edges[e].0 && m.edges[e].1 == a.edges[e].1 && m.edges[e].2
            == a.edges[e].2 + (if leads(a, e, x, y) && a.edges[e].2 < usize::MAX {
            1int
        } else {
            0int
        }) by {
            if leads(a, e, x, y) {
                assert(a.joined(a.index[x], a.index[y]));
            }
        }
        assert forall|e: u32| #[trigger] m.edges.contains_key(e) implies a.edges.contains_key(e) by {}
        assert(m.wf());
        assert forall|e: u32| #[trigger] m.edges.contains_key(e) implies b.edges.contains_key(e)
            && b.edges[e].0 == m.edges[e].0 && b.edges[e].1 == m.edges[e].1 && b.edges[e].2
            == m.edges[e].2 + (if leads(m, e, y, x) && m.edges[e].2 < usize::MAX {
            1int
        } else {
            0int
        }) by {
            if leads(m, e, y, x) {
                assert(m.joined(m.index[y], m.index[x]));
            }
        }
    }
}

proof fn lemma_found(fragments: Seq<Fragment>, index: u64, k: int)
    requires
        0 <= k < fragments.len(),
        fragments[k].fragment_index == index,
        forall|j: int| 0 <= j < k ==> (#[trigger] fragments[j]).fragment_index != index,
    ensures
        fragment_with(fragments, index) == Some(fragments[k]),
    decreases k,
{
    if k > 0 {
        assert(fragments[0].fragment_index != index);
        let rest = fragments.subrange(1, fragments.len() as int);
        assert(rest[k - 1] == fragments[k]);
        assert forall|j: int| 0 <= j < k - 1 implies (#[trigger] rest[j]).fragment_index != index by {
            assert(rest[j] == fragments[j + 1]);
        }
        lemma_found(rest, index, k - 1);
    }
}

/// A node that cannot be reached any more is no neighbour afterwards; where no channel
/// names it, the client does not know it any more, and otherwise no link leads from the
/// node before to it or back. The route of the message is given up. The other nodes and
/// neighbours stay.
pub proof fn law_failed_hops_are_avoided(a: ClientView, net: NetView, p: PacketView, node: NodeId)
    requires
        a.wf(),
        p.body is Nack,
        p.body->Nack_0.nack_type == NackType::ErrorInRouting(node),
        0 < p.header.hop_index <= p.header.hops.len(),
        p.header.hops[p.header.hop_index - 1] != node,
        a.packet_net(net, p),
    ensures
        ({
            let b = a.after_packet(net, p);
            let from = p.header.hops[p.header.hop_index - 1];
            let gone = a.channels is Some && !exists|k: (NodeId, NodeId)| #[trigger]
                a.channels->0.contains(k) && (k.0 == node || k.1 == node);
            &&& forall|x: NodeId| #[trigger]
                b.neighbours.contains(x) <==> a.neighbours.contains(x) && x != node
            &&& gone ==> !b.net.index.contains_key(node)
            &&& !gone ==> !link_leads(b.net, from, node) && !link_leads(b.net, node, from)
            &&& forall|x: NodeId|
                x != node ==> (#[trigger] b.net.index.contains_key(x) <==> a.net.index.contains_key(
                    x,
                ))
            &&& a.sent.contains_key(p.session_id) ==> b.sent[p.session_id].stale
            &&& a.sent.contains_key(p.session_id) && a.sent[p.session_id].header.hops.len() > 0
                ==> !b.routes.contains_key(a.sent[p.session_id].header.hops.last())
            &&& a.packet_answer(p).len() == 0
        }),
{
    lemma_without_id(a.neighbours, node);
    let from = p.header.hops[p.header.hop_index - 1];
    let b = a.after_packet(net, p);
    let gone = a.channels is Some && !mentioned(a.channels->0, node);
    assert(b.net == net);
    if !gone && a.net.knows(from) && a.net.knows(node) {
        let m = choose|m: NetView| #[trigger]
            edge_dropped(a.net, m, a.net.index[from], a.net.index[node])
                && edge_dropped(
                m,
                net,
                a.net.index[node],
                a.net.index[from],
            );
        let x = a.net.index[from];
        let y = a.net.index[node];
        assert(x != y);
        lemma_dropped(a.net, m, x, y);
        lemma_dropped(m, net, y, x);
    }
}

/// A link leads from one node to another.
pub open spec fn link_leads(net: NetView, x: NodeId, y: NodeId) -> bool {
    exists|e: u32| #[trigger] leads(net, e, x, y)
}

proof fn lemma_dropped(a: NetView, b: NetView, x: u32, y: u32)
    requires
        a.wf(),
        x != y,
        edge_dropped(a, b, x, y),
    ensures
        b.wf(),
        b.index == a.index,
        b.nodes == a.nodes,
        !b.joined(x, y),
        b.edges.dom().subset_of(a.edges.dom()),
        !a.joined(y, x) ==> !b.joined(y, x),
        forall|e: u32| #[trigger] b.edges.contains_key(e) ==> b.edges[e] == a.edges[e],
{
    if a.joined(x, y) {
        let e = choose|e: u32|
            {
                &&& #[trigger] a.edges.contains_key(e)
                &&& a.edges[e].0 == x
                &&& a.edges[e].1 == y
                &&& b == (NetView { edges: a.edges.remove(e), ..a })
            };
        assert forall|f: u32| #[trigger] b.edges.contains_key(f) implies !(b.edges[f].0 == x
            && b.edges[f].1 == y) by {
            assert(a.edges.contains_key(f) && f != e);
        }
    }
}

/// The list holds one node more, and no other.
pub open spec fn gained(a: Seq<NodeId>, b: Seq<NodeId>, id: NodeId) -> bool {
    forall|x: NodeId| #[trigger] b.contains(x) <==> a.contains(x) || x == id
}

/// The list does not hold a node any more, and holds all others as before.
pub open spec fn lost(a: Seq<NodeId>, b: Seq<NodeId>, id: NodeId) -> bool {
    forall|x: NodeId| #[trigger] b.contains(x) <==> a.contains(x) && x != id
}

pub proof fn lemma_gained(v: Seq<NodeId>, id: NodeId)
    ensures
        gained(v, with_neighbour(v, id), id),
        v.no_duplicates() ==> with_neighbour(v, id).no_duplicates(),
{
    if !v.contains(id) {
        let w = v.push(id);
        assert forall|x: NodeId| #[trigger] w.contains(x) <==> v.contains(x) || x == id by {
            if v.contains(x) {
                let k = v.index_of(x);
                assert(w[k] == x);
            }
            assert(w[v.len() as int] == id);
        }
    }
}

/// A client that hears of a new link of its own has the other end as a neighbour and links
/// it both ways, where a channel leads there, and asks all its neighbours. A link between
/// others changes nothing.
pub proof fn law_first_clients_hear_of_new_links(
    a: ClientView,
    b: ClientView,
    peer: NodeId,
    from_here: bool,
    now: u64,
    c0: u64,
    c1: u64,
    added: Seq<OutgoingView>,
)
    requires
        a.wf(),
        a.net.index.contains_key(a.id),
        peer != a.id,
        c0 < u64::MAX,
        a.channels is Some,
        change_handled(
            a,
            b,
            if from_here {
                ChangeView::AddSender(a.id, peer)
            } else {
                ChangeView::AddSender(peer, a.id)
            },
            now,
            c0,
            c1,
            added,
        ),
    ensures
        a.channels->0.contains((a.id, peer)) ==> gained(a.neighbours, b.neighbours, peer),
        a.channels->0.contains((a.id, peer)) && a.net.room(1) ==> link_leads(b.net, a.id, peer)
            && link_leads(b.net, peer, a.id),
        !a.channels->0.contains((a.id, peer)) ==> b.neighbours == a.neighbours && b.net == a.net,
        c1 == c0 + 1,
        asks_all(added, b.neighbours, a.id, c1),
        b.floods.contains_key(c1) && b.floods[c1].initiator == a.id && b.floods[c1].start == now,
        b.sent == a.sent && b.server == a.server && b.pending == a.pending && b.routes == a.routes,
{
    lemma_gained(a.neighbours, peer);
    lemma_asks_all(b.neighbours, a.id, c0);
    if a.channels->0.contains((a.id, peer)) && a.net.room(1) {
        assert(own_link_added(a.net, b.net, a.id, peer));
        let (m, n) = choose|m: NetView, n: NetView|
            {
                &&& if a.net.knows(peer) {
                    m == a.net
                } else {
                    node_added(a.net, m, NodeInfo { id: peer, node_type: NodeType::Drone })
                }
                &&& #[trigger] edge_ensured(m, n, m.index[a.id], m.index[peer])
                &&& edge_ensured(n, b.net, m.index[peer], m.index[a.id])
            };
        assert(m.knows(peer) && m.knows(a.id));
        lemma_ensured(m, n, a.id, peer);
        lemma_ensured(n, b.net, peer, a.id);
    }
}

proof fn lemma_ensured(a: NetView, b: NetView, x: NodeId, y: NodeId)
    requires
        a.index.contains_key(x),
        a.index.contains_key(y),
        edge_ensured(a, b, a.index[x], a.index[y]),
    ensures
        b.index == a.index,
        link_leads(b, x, y),
        forall|p: NodeId, q: NodeId| #[trigger] link_leads(a, p, q) ==> link_leads(b, p, q),
{
    if a.joined(a.index[x], a.index[y]) {
        let e = choose|e: u32| #[trigger]
            a.edges.contains_key(e) && a.edges[e].0 == a.index[x] && a.edges[e].1 == a.index[y];
        assert(leads(b, e, x, y));
    } else {
        let e = choose|e: u32|
            {
                &&& !#[trigger] a.edges.contains_key(e)
                &&& b.edges == a.edges.insert(e, (a.index[x], a.index[y], 0usize))
                &&& b.nodes == a.nodes
                &&& b.index == a.index
            };
        assert(leads(b, e, x, y));
        assert forall|p: NodeId, q: NodeId| #[trigger] link_leads(a, p, q) implies link_leads(
            b,
            p,
            q,
        ) by {
            let f = choose|f: u32| #[trigger] leads(a, f, p, q);
            assert(leads(b, f, p, q));
        }
    }
}

/// A client that hears that one of its links is gone has the other end as a neighbour no
/// more, and no link to it or back, and asks the neighbours that are left.
pub proof fn law_first_clients_hear_of_removed_links(
    a: ClientView,
    b: ClientView,
    peer: NodeId,
    from_here: bool,
    now: u64,
    c0: u64,
    c1: u64,
    added: Seq<OutgoingView>,
)
    requires
        a.wf(),
        peer != a.id,
        c0 < u64::MAX,
        change_handled(
            a,
            b,
            if from_here {
                ChangeView::RemoveSender(a.id, peer)
            } else {
                ChangeView::RemoveSender(peer, a.id)
            },
            now,
            c0,
            c1,
            added,
        ),
    ensures
        lost(a.neighbours, b.neighbours, peer),
        !link_leads(b.net, a.id, peer),
        !link_leads(b.net, peer, a.id),
        b.net.nodes == a.net.nodes && b.net.index == a.net.index,
        forall|p: NodeId, q: NodeId|
            #![trigger link_leads(b.net, p, q)]
            link_leads(a.net, p, q) && !(p == a.id && q == peer) && !(p == peer && q == a.id)
                ==> link_leads(b.net, p, q),
        c1 == c0 + 1,
        asks_all(added, b.neighbours, a.id, c1),
        b.sent == a.sent && b.server == a.server && b.pending == a.pending && b.routes == a.routes,
{
    lemma_without_id(a.neighbours, peer);
    lemma_asks_all(b.neighbours, a.id, c0);
    let (x, y) = if from_here {
        (a.id, peer)
    } else {
        (peer, a.id)
    };
    assert(unlinked(a.net, b.net, x, y));
    if a.net.knows(x) && a.net.knows(y) {
        let m = choose|m: NetView| #[trigger]
            edge_dropped(a.net, m, a.net.index[x], a.net.index[y]) && edge_dropped(
                m,
                b.net,
                a.net.index[y],
                a.net.index[x],
            );
        assert(a.net.nodes[a.net.index[x]].id == x && a.net.nodes[a.net.index[y]].id == y);
        let i = a.net.index[x];
        let j = a.net.index[y];
        lemma_dropped(a.net, m, i, j);
        lemma_dropped(m, b.net, j, i);
        assert(!b.net.joined(i, j) && !b.net.joined(j, i));
        assert forall|p: NodeId, q: NodeId|
            #![trigger link_leads(b.net, p, q)]
            link_leads(a.net, p, q) && !(p == a.id && q == peer) && !(p == peer && q
                == a.id) implies link_leads(b.net, p, q) by {
            let e = choose|e: u32| #[trigger] leads(a.net, e, p, q);
            assert(a.net.nodes[a.net.index[p]].id == p && a.net.nodes[a.net.index[q]].id == q);
            assert(leads(b.net, e, p, q));
        }
        assert forall|p: NodeId, q: NodeId| #[trigger]
            link_leads(b.net, p, q) implies b.net.joined(b.net.index[p], b.net.index[q]) by {
            let e = choose|e: u32| #[trigger] leads(b.net, e, p, q);
        }
    } else {
        assert(b.net == a.net);
    }
}

/// A client that hears of a crash forgets the node and every link at it, keeps all other
/// nodes, neighbours and links, and asks the neighbours that are left.
pub proof fn law_first_clients_hear_of_crashes(
    a: ClientView,
    b: ClientView,
    node: NodeId,
    now: u64,
    c0: u64,
    c1: u64,
    added: Seq<OutgoingView>,
)
    requires
        a.wf(),
        c0 < u64::MAX,
        change_handled(a, b, ChangeView::Crash(node), now, c0, c1, added),
    ensures
        lost(a.neighbours, b.neighbours, node),
        forall|x: NodeId| #[trigger]
            b.net.index.contains_key(x) <==> a.net.index.contains_key(x) && x != node,
        forall|p: NodeId, q: NodeId| #[trigger]
            link_leads(b.net, p, q) <==> link_leads(a.net, p, q) && p != node && q != node,
        c1 == c0 + 1,
        asks_all(added, b.neighbours, a.id, c1),
        b.sent == a.sent && b.server == a.server && b.pending == a.pending && b.routes == a.routes,
{
    lemma_without_id(a.neighbours, node);
    lemma_asks_all(b.neighbours, a.id, c0);
    if a.net.knows(node) {
        let i = a.net.index[node];
        assert forall|p: NodeId, q: NodeId| #[trigger]
            link_leads(b.net, p, q) <==> link_leads(a.net, p, q) && p != node && q != node by {
            if link_leads(a.net, p, q) && p != node && q != node {
                let e = choose|e: u32| #[trigger] leads(a.net, e, p, q);
                assert(a.net.nodes[a.net.index[p]].id == p && a.net.nodes[a.net.index[q]].id == q);
                assert(leads(b.net, e, p, q));
            }
            if link_leads(b.net, p, q) {
                let e = choose|e: u32| #[trigger] leads(b.net, e, p, q);
                assert(leads(a.net, e, p, q));
            }
        }
    } else {
        assert forall|p: NodeId, q: NodeId| #[trigger] link_leads(b.net, p, q) implies p != node
            && q != node by {
            let e = choose|e: u32| #[trigger] leads(b.net, e, p, q);
        }
    }
}

/// A client that hears of a new drone with which it shares a channel has it as a neighbour
/// and knows it, and asks all its neighbours. One without a channel only asks.
pub proof fn law_first_clients_hear_of_new_drones(
    a: ClientView,
    b: ClientView,
    drone: NodeId,
    peers: Seq<NodeId>,
    now: u64,
    c0: u64,
    c1: u64,
    added: Seq<OutgoingView>,
)
    requires
        a.wf(),
        c0 < u64::MAX,
        change_handled(a, b, ChangeView::SpawnDrone(drone, peers), now, c0, c1, added),
    ensures
        ({
            let shared = a.channels is Some && (a.channels->0.contains((drone, a.id))
                || a.channels->0.contains((a.id, drone)));
            &&& shared ==> gained(a.neighbours, b.neighbours, drone)
            &&& shared && a.net.room(1) ==> b.net.index.contains_key(drone)
                && b.net.nodes[b.net.index[drone]].id == drone
                && b.net.nodes[b.net.index[drone]].node_type == NodeType::Drone
            &&& !shared ==> b.neighbours == a.neighbours && b.net == a.net
        }),
        b.net.edges == a.net.edges,
        c1 == c0 + 1,
        asks_all(added, b.neighbours, a.id, c1),
{
    lemma_gained(a.neighbours, drone);
    lemma_asks_all(b.neighbours, a.id, c0);
}

/// A client acknowledges every fragment, to the node that it came from and back along its
/// hops, where a channel leads there.
pub proof fn law_first_clients_acknowledge(v: ClientView, p: PacketView)
    requires
        p.body is MsgFragment,
        p.header.hops.len() > 1,
    ensures
        ({
            let n = p.header.hops.len();
            let out = v.packet_answer(p);
            if can_send(v, p.header.hops[n - 2]) {
                &&& out.len() == 1
                &&& out[0].to == p.header.hops[n - 2]
                &&& out[0].packet.body is Ack
                &&& out[0].packet.body->Ack_0.fragment_index
                    == p.body->MsgFragment_0.fragment_index
                &&& out[0].packet.session_id == p.session_id
                &&& out[0].packet.header.hop_index == 1
                &&& out[0].packet.header.hops.len() == n
                &&& forall|k: int|
                    0 <= k < n ==> #[trigger] out[0].packet.header.hops[k] == p.header.hops[n - 1
                        - k]
            } else {
                out.len() == 0
            }
        }),
{
    let n = p.header.hops.len();
    assert(p.header.hops.reverse()[1] == p.header.hops[n - 2]);
}

/// The client after some fragments of a session, one after the other.
pub open spec fn fed(v: ClientView, session: u64, arrivals: Seq<Fragment>) -> ClientView
    decreases arrivals.len(),
{
    if arrivals.len() == 0 {
        v
    } else {
        fed(v, session, arrivals.drop_last()).after_fragment(session, arrivals.last())
    }
}

/// Every piece of a message has arrived.
pub open spec fn all_arrived(bytes: Seq<u8>, arrivals: Seq<Fragment>) -> bool {
    forall|i: int| 0 <= i < chunk_count(bytes.len() as int) ==> #[trigger] arrived(arrivals, i)
}

/// The fragments are pieces of a message.
pub open spec fn pieces_of(bytes: Seq<u8>, arrivals: Seq<Fragment>) -> bool {
    forall|k: int|
        0 <= k < arrivals.len() ==> is_chunk(
            #[trigger] arrivals[k],
            bytes,
            arrivals[k].fragment_index as int,
        )
}

proof fn lemma_fed(v: ClientView, session: u64, bytes: Seq<u8>, arrivals: Seq<Fragment>)
    requires
        !v.received.contains_key(session),
        bytes.len() > 0,
        chunk_count(bytes.len() as int) <= u64::MAX,
        pieces_of(bytes, arrivals),
        !all_arrived(bytes, arrivals),
    ensures
        ({
            let w = fed(v, session, arrivals);
            let n = chunk_count(bytes.len() as int) as u64;
            &&& w.id == v.id
            &&& arrivals.len() == 0 ==> !w.received.contains_key(session)
            &&& arrivals.len() > 0 ==> w.received.contains_key(session) && w.received[session]
                == accepted_all(fresh(n), arrivals)
        }),
    decreases arrivals.len(),
{
    if arrivals.len() > 0 {
        let init = arrivals.drop_last();
        let f = arrivals.last();
        assert forall|k: int| 0 <= k < init.len() implies is_chunk(
            #[trigger] init[k],
            bytes,
            init[k].fragment_index as int,
        ) by {
            assert(init[k] == arrivals[k]);
        }
        assert(is_chunk(arrivals[arrivals.len() - 1], bytes, f.fragment_index as int));
        if all_arrived(bytes, init) {
            assert forall|i: int| 0 <= i < chunk_count(
                bytes.len() as int,
            ) implies #[trigger] arrived(arrivals, i) by {
                assert(arrived(init, i));
                let k = choose|k: int|
                    0 <= k < init.len() && #[trigger] init[k].fragment_index == i;
                assert(arrivals[k].fragment_index == i);
            }
        }
        lemma_fed(v, session, bytes, init);
        law_reassembly_gives_message_back(bytes, arrivals);
        let n = chunk_count(bytes.len() as int) as u64;
        let before = accepted_all(fresh(n), init);
        let w = fed(v, session, init);
        assert(w.progress(session, f) == before);
        assert(!completes(before, f));
    }
}

/// A text that reaches a client in fragments, in whatever order and however often they
/// arrive, is read when the last missing one arrives, and not before; then the client is
/// told what the text says.
pub proof fn law_first_clients_put_messages_together(
    v: ClientView,
    session: u64,
    text: Seq<char>,
    arrivals: Seq<Fragment>,
)
    requires
        !v.received.contains_key(session),
        encode_utf8(text).len() > 0,
        chunk_count(encode_utf8(text).len() as int) <= u64::MAX,
        arrivals.len() > 0,
        pieces_of(encode_utf8(text), arrivals),
        !all_arrived(encode_utf8(text), arrivals.drop_last()),
    ensures
        ({
            let w = fed(v, session, arrivals.drop_last());
            let notice = w.fragment_notice(session, arrivals.last());
            if all_arrived(encode_utf8(text), arrivals) {
                notice == Some(notice_of(v.id, text)) && !fed(
                    v,
                    session,
                    arrivals,
                ).received.contains_key(session)
            } else {
                notice is None
            }
        }),
{
    let bytes = encode_utf8(text);
    let init = arrivals.drop_last();
    let f = arrivals.last();
    let n = chunk_count(bytes.len() as int) as u64;
    assert forall|k: int| 0 <= k < init.len() implies is_chunk(
        #[trigger] init[k],
        bytes,
        init[k].fragment_index as int,
    ) by {
        assert(init[k] == arrivals[k]);
    }
    assert(is_chunk(arrivals[arrivals.len() - 1], bytes, f.fragment_index as int));
    lemma_fed(v, session, bytes, init);
    law_reassembly_gives_message_back(bytes, arrivals);
    law_text_survives_the_way(text, arrivals);
    let before = accepted_all(fresh(n), init);
    let w = fed(v, session, init);
    assert(w.progress(session, f) == before);
    if all_arrived(bytes, arrivals) {
        assert(!arrived(init, f.fragment_index as int)) by {
            if arrived(init, f.fragment_index as int) {
                assert forall|i: int| 0 <= i < n implies #[trigger] arrived(init, i) by {
                    assert(arrived(arrivals, i));
                    let k = choose|k: int|
                        0 <= k < arrivals.len() && #[trigger] arrivals[k].fragment_index == i;
                    if k < init.len() {
                        assert(init[k].fragment_index == i);
                    }
                }
            }
        }
        assert(completes(before, f));
    } else {
        assert(!completes(before, f));
    }
}

/// A message that has come to a drone, or to the wrong node, is not sent along its route
/// again: the route is given up, and nothing leaves.
pub proof fn law_wrong_routes_are_given_up(a: ClientView, net: NetView, p: PacketView)
    requires
        p.body is Nack,
        p.body->Nack_0.nack_type is DestinationIsDrone || p.body->Nack_0.nack_type
            is UnexpectedRecipient,
        a.sent.contains_key(p.session_id),
        a.packet_net(net, p),
    ensures
        ({
            let b = a.after_packet(net, p);
            &&& b.sent.contains_key(p.session_id)
            &&& b.sent[p.session_id].stale
            &&& b.sent[p.session_id].fragments == a.sent[p.session_id].fragments
            &&& a.sent[p.session_id].header.hops.len() > 0 ==> !b.routes.contains_key(
                a.sent[p.session_id].header.hops.last(),
            )
            &&& b.neighbours == a.neighbours
            &&& b.net.nodes == a.net.nodes && b.net.index == a.net.index
            &&& a.packet_answer(p).len() == 0
        }),
{
}

/// White space around a command does not matter for what it says.
pub proof fn law_white_space_around_commands(command: Seq<char>)
    ensures
        tokens_of(trim_both(command)) == tokens_of(command),
        announced(trim_both(command)) == announced(command),
{
    law_trimming_twice(command);
}

/// A command of more than three parts, or for a node whose id cannot be read, or one that the
/// client does not know, is passed over: nothing changes, and nothing leaves.
pub proof fn law_unknown_commands_are_passed_over(
    a: ClientView,
    b: ClientView,
    command: Seq<char>,
    now: u64,
    c0: u64,
    c1: u64,
    added: Seq<OutgoingView>,
)
    requires
        announced(command) is None,
        command_handled(a, b, command, now, c0, c1, added),
        ({
            let t = tokens_of(command);
            ||| t.len() > 3
            ||| t.len() == 2 && id_number(t[1]) is None && (t[0] == "[Login]"@ || t[0]
                == "[ChatRequest]"@ || t[0] == "[ChatFinish]"@)
            ||| t.len() == 3 && id_number(t[1]) is None && (t[0] == "[MessageTo]"@ || t[0]
                == "[HistoryRequest]"@)
            ||| t[0].len() < 7 || t[0].len() > 22
        }),
    ensures
        b == a,
        c1 == c0,
        added.len() == 0,
{
    lemma_command_tags();
    assert(ClientView { server: a.server, ..a } =~= a);
}

/// A waiting command has been handled while some of the packets left, from `from` up to `to`.
pub open spec fn handled_between(
    command: (NodeId, Seq<char>),
    added: Seq<OutgoingView>,
    from: int,
    to: int,
) -> bool {
    &&& 0 <= from <= to <= added.len()
    &&& exists|m: ClientView, n: ClientView, cm: u64, cn: u64| #[trigger]
        pending_handled(m, n, command, cm, cn, added.subrange(from, to))
}

/// A waiting command has been handled while some of the packets left.
pub open spec fn handled_within(command: (NodeId, Seq<char>), added: Seq<OutgoingView>) -> bool {
    exists|from: int, to: int| #[trigger] handled_between(command, added, from, to)
}

proof fn lemma_pending_kept(
    a: ClientView,
    b: ClientView,
    command: (NodeId, Seq<char>),
    c0: u64,
    c1: u64,
    added: Seq<OutgoingView>,
)
    requires
        pending_handled(a, b, command, c0, c1, added),
    ensures
        b.pending == a.pending,
        b.floods == a.floods,
{
}

proof fn lemma_handled_in_turn(
    a: ClientView,
    b: ClientView,
    commands: Seq<(NodeId, Seq<char>)>,
    c0: u64,
    c1: u64,
    added: Seq<OutgoingView>,
)
    requires
        all_pending_handled(a, b, commands, c0, c1, added),
    ensures
        b.pending == a.pending,
        b.floods == a.floods,
        forall|k: int|
            0 <= k < commands.len() ==> handled_within(#[trigger] commands[k], added),
    decreases commands.len(),
{
    if commands.len() > 0 {
        let init = commands.drop_last();
        let (m, cm, cut) = choose|m: ClientView, cm: u64, cut: int|
            {
                &&& 0 <= cut <= added.len()
                &&& all_pending_handled(a, m, init, c0, cm, added.subrange(0, cut))
                &&& #[trigger] pending_handled(
                    m,
                    b,
                    commands.last(),
                    cm,
                    c1,
                    added.subrange(cut, added.len() as int),
                )
            };
        let first = added.subrange(0, cut);
        lemma_handled_in_turn(a, m, init, c0, cm, first);
        lemma_pending_kept(
            m,
            b,
            commands.last(),
            cm,
            c1,
            added.subrange(cut, added.len() as int),
        );
        assert forall|k: int| 0 <= k < commands.len() implies handled_within(
            #[trigger] commands[k],
            added,
        ) by {
            if k < init.len() {
                assert(init[k] == commands[k]);
                assert(handled_within(init[k], first));
                let (from, to) = choose|from: int, to: int| #[trigger]
                    handled_between(init[k], first, from, to);
                assert(first.subrange(from, to) =~= added.subrange(from, to));
                assert(handled_between(commands[k], added, from, to));
            } else {
                assert(handled_between(commands[k], added, cut, added.len() as int));
            }
        }
    }
}

/// When a flood is over, two seconds after it began, every command that has waited is handled,
/// and none waits any more. Before that all of them wait on.
pub proof fn law_waiting_commands_follow_a_flood(
    a: ClientView,
    b: ClientView,
    now: u64,
    c0: u64,
    c1: u64,
    added: Seq<OutgoingView>,
)
    requires
        timeouts_checked(a, b, now, c0, c1, added),
    ensures
        (exists|f: u64| #[trigger]
            a.floods.contains_key(f) && now - a.floods[f].start > 2_000_000_000) ==> {
            &&& b.pending.len() == 0
            &&& forall|k: int|
                0 <= k < a.pending.len() ==> handled_within(#[trigger] a.pending[k], added)
        },
        (forall|f: u64| #[trigger]
            a.floods.contains_key(f) ==> now - a.floods[f].start <= 2_000_000_000) ==> b.pending
            == a.pending && added.len() == 0 && c1 == c0 && b.sent == a.sent,
        forall|f: u64| #[trigger]
            b.floods.contains_key(f) <==> a.floods.contains_key(f) && now - a.floods[f].start
                <= 2_000_000_000,
{
    let over = expired_floods(a.floods, now);
    let m = choose|m: ClientView|
        {
            &&& #[trigger] floods_closed(a, m, now)
            &&& if over == Set::<u64>::empty() {
                b == m && c1 == c0 && added == Seq::<OutgoingView>::empty()
            } else {
                all_pending_handled(
                    ClientView { pending: Seq::empty(), ..m },
                    b,
                    a.pending,
                    c0,
                    c1,
                    added,
                )
            }
        };
    if over != Set::<u64>::empty() {
        lemma_handled_in_turn(
            ClientView { pending: Seq::empty(), ..m },
            b,
            a.pending,
            c0,
            c1,
            added,
        );
    }
    if exists|f: u64| #[trigger]
        a.floods.contains_key(f) && now - a.floods[f].start > 2_000_000_000 {
        let f = choose|f: u64| #[trigger]
            a.floods.contains_key(f) && now - a.floods[f].start > 2_000_000_000;
        assert(over.contains(f));
    }
    if forall|f: u64| #[trigger]
        a.floods.contains_key(f) ==> now - a.floods[f].start <= 2_000_000_000 {
        assert(over =~= Set::<u64>::empty());
    }
}

}
