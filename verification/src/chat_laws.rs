//! What the chat window shows and does.
use crate::chat_ui::{
    all_offline, lemma_decimal_short, login_code, previewed, pushed_for, takes, text_bytes,
    up_to_five, zero_chars, ChatType, ChatView, ClientStatus, MessageView,
};
use crate::gui_queue::{pushed, Waiting};
use crate::packet::{lemma_without_id, NodeId};
use crate::text::{
    all_digits, begins_with, decimal, digits_value, is_digit, lemma_decimal_digits, parts,
    trim_both,
};
use crate::wording::{law_coupled_texts_come_apart, plain};
use vstd::prelude::*;

verus! {

/// The two clients, the smaller id first.
pub open spec fn in_order(a: NodeId, b: NodeId) -> (NodeId, NodeId) {
    if a <= b {
        (a, b)
    } else {
        (b, a)
    }
}

/// Nobody else is doing anything new.
pub open spec fn others_go_on(v: ChatView, w: ChatView, a: NodeId, b: NodeId) -> bool {
    forall|x: NodeId|
        x != a && x != b ==> (#[trigger] w.status.contains_key(x) <==> v.status.contains_key(x))
            && w.status[x] == v.status[x]
}

/// A client that accepts a chat chats with the one that asked, and the other way round. A
/// normal chat, which a chat is unless the user has picked the other kind, goes on with the
/// messages that were kept; a temporary one begins empty.
pub proof fn law_accepted_chats_begin(v: ChatView, requester: NodeId, target: NodeId)
    requires
        v.request == Some((requester, target)),
        v.selected_client == Some(target),
        requester != target,
    ensures
        ({
            let w = v.accepted();
            let key = in_order(requester, target);
            &&& w.status.contains_key(requester) && w.status[requester] == ClientStatus::Chatting(
                target,
            )
            &&& w.status.contains_key(target) && w.status[target] == ClientStatus::Chatting(
                requester,
            )
            &&& others_go_on(v, w, requester, target)
            &&& w.chat == Some((requester, target))
            &&& w.sender == Some(target)
            &&& w.request is None
            &&& w.pending_type is None
            &&& w.types.contains_key(key)
            &&& w.history == v.history
            &&& if v.pending_type == Some(ChatType::Temporary) {
                w.types[key] == ChatType::Temporary && w.messages.len() == 0
            } else {
                w.types[key] == ChatType::Normal && w.messages == (if v.history.contains_key(key) {
                    v.history[key]
                } else {
                    Seq::<MessageView>::empty()
                })
            }
        }),
{
}

/// A request that nobody has picked, or that is not there, is not answered.
pub proof fn law_only_the_asked_can_answer(v: ChatView)
    requires
        v.request is None || v.selected_client != Some((v.request->0).1),
    ensures
        v.accepted() == v,
        v.declined() == v,
{
}

/// A request that is declined is gone, and nothing else changes.
pub proof fn law_declined_requests_are_gone(v: ChatView)
    requires
        v.request is Some,
        v.selected_client == Some((v.request->0).1),
    ensures
        v.declined().request is None,
        v.declined().chat == v.chat && v.declined().status == v.status && v.declined().messages
            == v.messages,
{
}

/// A message that is sent in a chat stands at the end of what is shown, under the name of
/// the client that sent it, and the line to type in is empty. In a normal chat it is kept
/// behind what was kept before; in a temporary one it is not.
pub proof fn law_sent_messages_are_shown(v: ChatView, a: NodeId, b: NodeId, from: NodeId)
    requires
        v.chat == Some((a, b)),
        v.sender == Some(from),
        from == a || from == b,
        trim_both(v.input).len() > 0,
    ensures
        ({
            let w = v.message_sent();
            let key = in_order(a, b);
            let normal = v.types.contains_key(key) && v.types[key] == ChatType::Normal;
            let before = if v.history.contains_key(key) {
                v.history[key]
            } else {
                Seq::<MessageView>::empty()
            };
            &&& w.messages == v.messages.push((from, v.input))
            &&& w.input.len() == 0
            &&& normal ==> w.history.contains_key(key) && w.history[key] == before.push(
                (from, v.input),
            )
            &&& !normal ==> w.history == v.history
            &&& forall|k: (NodeId, NodeId)|
                k != key ==> (#[trigger] w.history.contains_key(k) <==> v.history.contains_key(k))
                    && w.history[k] == v.history[k]
            &&& w.chat == v.chat && w.status == v.status
            &&& v.receiver() == (if from == a {
                b
            } else {
                a
            })
        }),
{
}

/// Nothing is sent without a chat, without a sender or without words.
pub proof fn law_nothing_is_sent_in_vain(v: ChatView)
    requires
        v.chat is None || v.sender is None || trim_both(v.input).len() == 0,
    ensures
        v.message_sent() == v,
{
}

/// When a chat ends both clients are connected, nobody else is affected, and the kind of the
/// chat is forgotten; the messages of a temporary chat are gone from the window.
pub proof fn law_ended_chats_are_over(v: ChatView, a: NodeId, b: NodeId)
    requires
        v.chat == Some((a, b)),
    ensures
        ({
            let w = v.chat_ended();
            let key = in_order(a, b);
            &&& w.chat is None
            &&& w.request is None
            &&& w.status.contains_key(a) && w.status[a] == ClientStatus::Connected
            &&& w.status.contains_key(b) && w.status[b] == ClientStatus::Connected
            &&& others_go_on(v, w, a, b)
            &&& !w.types.contains_key(key)
            &&& w.history == v.history
            &&& v.types.contains_key(key) && v.types[key] == ChatType::Temporary
                ==> w.messages.len() == 0
            &&& !(v.types.contains_key(key) && v.types[key] == ChatType::Temporary) ==> w.messages
                == v.messages
        }),
{
}

/// A client that logs in is connected and listed at the server that was picked, behind those
/// that are there, with its code.
pub proof fn law_logins_are_shown(v: ChatView, client: NodeId, code: Seq<char>, server: NodeId)
    requires
        v.selected_server == Some(server),
    ensures
        ({
            let w = v.logged_in(client, code);
            let before = if v.logged.contains_key(server) {
                v.logged[server]
            } else {
                Seq::<NodeId>::empty()
            };
            &&& w.status.contains_key(client) && w.status[client] == ClientStatus::Connected
            &&& others_go_on(v, w, client, client)
            &&& w.logged.contains_key(server) && w.logged[server] == before.push(client)
            &&& forall|s: NodeId|
                s != server ==> (#[trigger] w.logged.contains_key(s) <==> v.logged.contains_key(s))
                    && w.logged[s] == v.logged[s]
            &&& w.codes.contains_key((client, server)) && w.codes[(client, server)] == code
            &&& w.chat == v.chat && w.messages == v.messages
        }),
{
}

/// A client that logs out is offline and not listed at the server any more; requests and
/// chats that it has part in are gone, and other clients stay as they are.
pub proof fn law_logouts_are_shown(v: ChatView, w: ChatView, client: NodeId, server: NodeId)
    requires
        v.logged.contains_key(server),
        v.logged[server].contains(client),
        forall|s: NodeId|
            s != server && #[trigger] v.logged.contains_key(s) ==> !v.logged[s].contains(client),
        v.logged_out(w, client),
    ensures
        w.status.contains_key(client) && w.status[client] == ClientStatus::Offline,
        others_go_on(v, w, client, client),
        w.logged.contains_key(server),
        forall|x: NodeId| #[trigger]
            w.logged[server].contains(x) <==> v.logged[server].contains(x) && x != client,
        forall|s: NodeId|
            s != server ==> (#[trigger] w.logged.contains_key(s) <==> v.logged.contains_key(s))
                && w.logged[s] == v.logged[s],
        v.chat is Some && ((v.chat->0).0 == client || (v.chat->0).1 == client) ==> w.chat is None,
        v.chat is Some && (v.chat->0).0 != client && (v.chat->0).1 != client ==> w.chat == v.chat,
        v.request is Some && ((v.request->0).0 == client || (v.request->0).1 == client)
            ==> w.request is None,
        v.request is Some && (v.request->0).0 != client && (v.request->0).1 != client ==> w.request
            == v.request,
        w.history == v.history && w.messages == v.messages,
{
    assert(v.logged_at(client, server));
    let s = choose|s: NodeId| #[trigger]
        v.logged_at(client, s) && w == v.logged_out_from(client, s);
    assert(s == server);
    lemma_without_id(v.clients_at(server), client);
}

/// A client can be asked for a chat where it is connected at a server together with the one
/// that asks.
pub proof fn law_who_can_be_asked(v: ChatView, client: NodeId, other: NodeId, server: NodeId)
    requires
        client != other,
        v.status.contains_key(other) && v.status[other] == ClientStatus::Connected,
        v.logged.contains_key(server),
        v.logged[server].contains(client),
        v.logged[server].contains(other),
    ensures
        v.can_ask(client, other),
        forall|w: ChatView| #[trigger]
            v.chat_asked(w, client, other) ==> w.request == Some((client, other))
                && w.selected_client == Some(other) && w.status == v.status && w.chat == v.chat,
{
    assert(v.both_at(client, other, server));
}

/// A client that is not connected cannot be asked, and neither can one that shares no
/// server.
pub proof fn law_who_cannot_be_asked(v: ChatView, client: NodeId, other: NodeId)
    requires
        client == other || !v.status.contains_key(other) || v.status[other]
            != ClientStatus::Connected || forall|s: NodeId| #[trigger]
            v.logged.contains_key(s) ==> !v.logged[s].contains(client) || !v.logged[s].contains(
                other,
            ),
    ensures
        !v.can_ask(client, other),
{
}

/// The clients of a list are offline, and all others stay as they are.
pub proof fn law_clients_begin_offline(m: Map<NodeId, ClientStatus>, clients: Seq<NodeId>)
    ensures
        forall|x: NodeId| #[trigger]
            all_offline(m, clients).contains_key(x) <==> m.contains_key(x) || clients.contains(x),
        forall|x: NodeId| #[trigger]
            clients.contains(x) ==> all_offline(m, clients)[x] == ClientStatus::Offline,
        forall|x: NodeId| !clients.contains(x) ==> #[trigger] all_offline(m, clients)[x] == m[x],
    decreases clients.len(),
{
    if clients.len() > 0 {
        let init = clients.drop_last();
        law_clients_begin_offline(m, init);
        assert forall|x: NodeId| clients.contains(x) <==> init.contains(x) || x
            == clients.last() by {
            if clients.contains(x) {
                let k = clients.index_of(x);
                if k < init.len() {
                    assert(init[k] == x);
                }
            }
            if init.contains(x) {
                let k = init.index_of(x);
                assert(clients[k] == x);
            }
            assert(clients[clients.len() - 1] == clients.last());
        }
    }
}

/// A message that is put in the queue of a node stands behind those that wait for it; what
/// waits for other nodes stays as it is.
pub proof fn law_queued_messages_wait_in_order(
    q: Waiting,
    id: NodeId,
    message: Seq<char>,
    other: NodeId,
)
    ensures
        ({
            let w = pushed(q, id, message);
            let before = if q.contains_key(id) {
                q[id]
            } else {
                Seq::<Seq<char>>::empty()
            };
            &&& w.contains_key(id) && w[id] == before.push(message)
            &&& other != id ==> (w.contains_key(other) <==> q.contains_key(other)) && w[other]
                == q[other]
            &&& pushed_for(q, Some(id), message) == w
            &&& pushed_for(q, None, message) == q
        }),
{
}

/// A download is asked for by a name without white space around it, and the user is told.
pub proof fn law_downloads_are_asked_for(v: ChatView)
    requires
        v.selected_client is Some,
        trim_both(v.download_input).len() > 0,
    ensures
        v.download_asked().download_input.len() == 0,
        v.download_asked().download_note == Some(
            "Requested \""@ + trim_both(v.download_input) + "\""@,
        ),
        v.download_asked().chat == v.chat && v.download_asked().status == v.status,
{
}

/// Picking a client or a server.
pub proof fn law_picking(v: ChatView, id: NodeId)
    ensures
        v.client_selected(id).selected_client == Some(id),
        v.chat is Some ==> v.client_selected(id).selected_server == v.selected_server,
        v.chat is None ==> v.client_selected(id).selected_server is None,
        v.server_selected(id).selected_server == Some(id),
        v.server_selected(id).selected_client is None,
        v.server_selected(id).chat == v.chat,
{
}

proof fn lemma_zeros_first(n: nat, d: Seq<char>)
    requires
        all_digits(d),
    ensures
        all_digits(zero_chars(n) + d),
        digits_value(zero_chars(n) + d) == digits_value(d),
    decreases d.len(),
{
    let s = zero_chars(n) + d;
    assert forall|i: int| 0 <= i < s.len() implies is_digit(#[trigger] s[i]) by {
        if i >= n {
            assert(s[i] == d[i - n]);
        }
    }
    if d.len() == 0 {
        lemma_zeros(n);
        assert(s =~= zero_chars(n));
    } else {
        let init = d.drop_last();
        assert forall|i: int| 0 <= i < init.len() implies is_digit(#[trigger] init[i]) by {
            assert(init[i] == d[i]);
        }
        lemma_zeros_first(n, init);
        assert(s.drop_last() =~= zero_chars(n) + init);
        assert(s.last() == d.last());
    }
}

proof fn lemma_zeros(n: nat)
    ensures
        digits_value(zero_chars(n)) == 0,
    decreases n,
{
    if n > 0 {
        lemma_zeros((n - 1) as nat);
        assert(zero_chars(n).drop_last() =~= zero_chars((n - 1) as nat));
        assert(zero_chars(n).last() == '0');
    }
}

/// A code has six digits, which write the last six of the number that was drawn.
pub proof fn law_codes_have_six_digits(drawn: u32)
    ensures
        login_code(drawn).len() == 6,
        all_digits(login_code(drawn)),
        digits_value(login_code(drawn)) == drawn % 1_000_000,
{
    let n = (drawn % 1_000_000) as nat;
    let d = decimal(n);
    lemma_decimal_short(n, 6, 1_000_000);
    lemma_decimal_digits(n);
    lemma_zeros_first((6 - d.len()) as nat, d);
}

/// A message that carries no media is shown as it is.
pub proof fn law_plain_messages_are_shown_whole(m: Seq<char>, r: Seq<char>)
    requires
        previewed(m, r),
        parts(m, 3).len() != 3 || m.len() < 2 || m[1] != 'M',
    ensures
        r == m,
{
    reveal_strlit("[MediaBroadcast]:");
    reveal_strlit("[MediaUpload]:");
    if begins_with(m, "[MediaBroadcast]:"@) {
        assert(m.subrange(0, 17)[1] == m[1]);
    }
    if begins_with(m, "[MediaUpload]:"@) {
        assert(m.subrange(0, 14)[1] == m[1]);
    }
}

proof fn lemma_ascii_bytes(s: Seq<char>)
    requires
        forall|i: int| 0 <= i < s.len() ==> #[trigger] s[i] as u32 <= 127,
    ensures
        text_bytes(s) == s.len(),
    decreases s.len(),
{
    if s.len() > 0 {
        let init = s.drop_last();
        assert forall|i: int| 0 <= i < init.len() implies #[trigger] init[i] as u32 <= 127 by {
            assert(init[i] == s[i]);
        }
        lemma_ascii_bytes(init);
        assert(s[s.len() - 1] as u32 <= 127);
    }
}

/// A media upload is shown with its name and the first five characters of its data. Data
/// with characters beyond ASCII, or with fewer than five, are left out.
pub proof fn law_uploads_are_shown_in_short(name: Seq<char>, data: Seq<char>, r: Seq<char>)
    requires
        plain(name),
        data.len() >= 5,
        forall|i: int| 0 <= i < data.len() ==> #[trigger] data[i] as u32 <= 127,
        previewed("[MediaUpload]"@ + "::"@ + (name + "::"@ + data), r),
    ensures
        r == "[MediaUpload]"@ + "::"@ + name + ("::"@ + data.subrange(0, 5) + "..."@),
{
    let m = "[MediaUpload]"@ + "::"@ + (name + "::"@ + data);
    reveal_strlit("[MediaUpload]");
    reveal_strlit("[MediaUpload]:");
    reveal_strlit("[MediaBroadcast]:");
    reveal_strlit("::");
    assert(plain("[MediaUpload]"@));
    law_coupled_texts_come_apart("[MediaUpload]"@, name, data);
    let p = parts(m, 3);
    assert(p == seq!["[MediaUpload]"@, name, data]);
    assert(m.subrange(0, 14) =~= "[MediaUpload]:"@);
    assert(m[6] == 'U');
    if begins_with(m, "[MediaBroadcast]:"@) {
        assert(m.subrange(0, 17)[6] == m[6]);
    }
    lemma_ascii_bytes(data);
    assert(up_to_five(data) == 5);
    let k = choose|k: int| #[trigger]
        takes(data, k, 5) && r == "[MediaUpload]"@ + "::"@ + name + ("::"@ + data.subrange(0, k)
            + "..."@);
    let t = data.subrange(0, k);
    assert forall|i: int| 0 <= i < t.len() implies #[trigger] t[i] as u32 <= 127 by {
        assert(t[i] == data[i]);
    }
    lemma_ascii_bytes(t);
    assert(k == 5);
}

}
