//! Which lines the simulation log gets.
use crate::client1::ClientView;
use crate::client2::ClientGlobals;
use crate::client_laws::{
    lemma_command_tags, lemma_tokens_one, lemma_tokens_three, lemma_tokens_two, tag_id, tag_two,
};
use crate::journal::other_client_line;
use crate::laws::{law_three_parts_read_back, law_two_parts_read_back, tight};
use crate::packet::{lemma_without_id, without_id, HeaderView, Nack, NackType, NodeId, OutgoingView};
use crate::server::ServerView;
use crate::server_laws::{lemma_one_part, lemma_request_tags};
use crate::server_requests::{ids_text, message_handled, tagged, tagged2};
use crate::text::{decimal, parts, trim_both};
use crate::wording::{lemma_colons, lemma_id_reads_back, plain, seamless};
use vstd::prelude::*;

verus! {

proof fn lemma_nothing_added(s: Seq<char>)
    ensures
        s + ""@ == s,
        forall|t: Seq<char>| #[trigger] (t + ""@) == t,
{
    reveal_strlit("");
    assert(s + ""@ =~= s);
    assert forall|t: Seq<char>| #[trigger] (t + ""@) == t by {
        assert(t + ""@ =~= t);
    }
}

/// A client logs each command of its user that goes to the server, with its own id.
pub proof fn law_first_clients_log_commands(v: ClientView, server: NodeId, peer: NodeId)
    requires
        v.server == Some(server),
    ensures
        v.command_line("[Logout]"@) == Some("Logout command from client: "@ + decimal(v.id as nat)),
        v.command_line("[ClientListRequest]"@) == Some(
            "ClientListRequest command from client: "@ + decimal(v.id as nat),
        ),
        v.command_line("[MediaListRequest]"@) == Some(
            "MediaListRequest command from client: "@ + decimal(v.id as nat),
        ),
        v.command_line(tag_id("[Login]"@, peer)) == Some(
            "Login command from client: "@ + decimal(v.id as nat),
        ),
        v.command_line(tag_id("[ChatRequest]"@, peer)) == Some(
            "Chat Request::"@ + decimal(peer as nat) + " command from client: "@ + decimal(
                v.id as nat,
            ),
        ),
        v.command_line(tag_id("[ChatFinish]"@, peer)) == Some(
            "ChatFinish::"@ + decimal(peer as nat) + " command from client: "@ + decimal(
                v.id as nat,
            ),
        ),
{
    lemma_command_tags();
    lemma_colons();
    lemma_id_reads_back(peer);
    lemma_nothing_added(decimal(v.id as nat));
    lemma_tokens_one("[Logout]"@);
    lemma_tokens_one("[ClientListRequest]"@);
    lemma_tokens_one("[MediaListRequest]"@);
    lemma_tokens_two("[Login]"@, decimal(peer as nat));
    lemma_tokens_two("[ChatRequest]"@, decimal(peer as nat));
    lemma_tokens_two("[ChatFinish]"@, decimal(peer as nat));
}

/// A client logs the messages and the media that its user sends, and to whom.
pub proof fn law_first_clients_log_messages(
    v: ClientView,
    server: NodeId,
    peer: NodeId,
    name: Seq<char>,
    text: Seq<char>,
)
    requires
        v.server == Some(server),
        plain(name),
        seamless(text),
        tight(text),
    ensures
        v.command_line(tag_two("[MessageTo]"@, decimal(peer as nat), text)) == Some(
            "Client "@ + decimal(v.id as nat) + " sent a message to::"@ + (decimal(peer as nat) + (
            " : "@ + text)),
        ),
        v.command_line(tag_two("[MediaUpload]"@, name, text)) == Some(
            "Client "@ + decimal(v.id as nat) + " uploaded the '"@ + (name + "' to the server"@),
        ),
        v.command_line(tag_two("[MediaBroadcast]"@, name, text)) == Some(
            "Client "@ + decimal(v.id as nat) + " did a Media Broadcast of '"@ + (name + "'"@),
        ),
        v.command_line("[MediaDownloadRequest]"@ + "::"@ + text) == Some(
            "Client "@ + decimal(v.id as nat) + " downloaded the '"@ + (text + "'"@),
        ),
{
    lemma_command_tags();
    lemma_colons();
    lemma_id_reads_back(peer);
    lemma_tokens_three("[MessageTo]"@, decimal(peer as nat), text);
    lemma_tokens_three("[MediaUpload]"@, name, text);
    lemma_tokens_three("[MediaBroadcast]"@, name, text);
    lemma_tokens_two("[MediaDownloadRequest]"@, text);
}

/// Clients and servers log a hop that has failed: a node that no channel names any more has
/// crashed, and otherwise its link to the node before is gone.
pub proof fn law_failures_are_logged(v: ClientView, w: ServerView, node: NodeId, n: Nack, h: HeaderView)
    requires
        n.nack_type == NackType::ErrorInRouting(node),
        1 <= h.hop_index <= h.hops.len(),
        v.channels is Some,
        w.channels is Some,
    ensures
        ({
            let from = h.hops[h.hop_index - 1];
            let crash = "Node "@ + decimal(node as nat) + " crashed (removed from graph)"@;
            let link = "Link removed between "@ + decimal(from as nat) + " and "@ + decimal(
                node as nat,
            );
            &&& v.nack_line(n, h) == Some(
                if named_in(v.channels->0, node) {
                    link
                } else {
                    crash
                },
            )
            &&& w.nack_line(n, h) == Some(
                if named_in(w.channels->0, node) {
                    link
                } else {
                    crash
                },
            )
        }),
{
    lemma_nothing_added(decimal(node as nat));
}

/// A channel begins or ends at a node.
pub open spec fn named_in(c: Set<(NodeId, NodeId)>, id: NodeId) -> bool {
    exists|k: (NodeId, NodeId)| #[trigger] c.contains(k) && (k.0 == id || k.1 == id)
}

/// The message leaves one line in the log.
pub open spec fn one_line(lines: Seq<Seq<char>>, line: Seq<char>) -> bool {
    lines.len() == 1 && lines[0] == line
}

proof fn lemma_line(
    a: ServerView,
    b: ServerView,
    client: NodeId,
    session: u64,
    text: Seq<char>,
    t: Seq<Seq<char>>,
    added: Seq<OutgoingView>,
    lines: Seq<Seq<char>>,
)
    requires
        message_handled(a, b, client, session, text, added, lines),
        parts(trim_both(text), 3) == t,
        !(t.len() == 2 && t[0] == "[ChatFinish]"@),
    ensures
        match a.message_line(client, session, t) {
            Some(line) => one_line(lines, line),
            None => lines.len() == 0,
        },
{
    lemma_request_tags();
    assert(a.record_to_spread(client, t) is None);
}

/// A server logs the requests of a client that have no argument.
pub proof fn law_servers_log_short_requests(
    a: ServerView,
    b: ServerView,
    client: NodeId,
    session: u64,
    added: Seq<OutgoingView>,
    lines: Seq<Seq<char>>,
)
    ensures
        message_handled(a, b, client, session, "[ClientListRequest]"@, added, lines) ==> one_line(
            lines,
            "server has the following connected clients: "@ + ids_text(a.clients),
        ),
        message_handled(a, b, client, session, "[MediaListRequest]"@, added, lines) ==> one_line(
            lines,
            "Server received MediaListRequest from "@ + decimal(client as nat),
        ),
{
    lemma_request_tags();
    lemma_nothing_added(decimal(client as nat));
    if message_handled(a, b, client, session, "[ClientListRequest]"@, added, lines) {
        lemma_one_part("[ClientListRequest]"@);
        let t = seq!["[ClientListRequest]"@];
        lemma_line(a, b, client, session, "[ClientListRequest]"@, t, added, lines);
    }
    if message_handled(a, b, client, session, "[MediaListRequest]"@, added, lines) {
        lemma_one_part("[MediaListRequest]"@);
        let t = seq!["[MediaListRequest]"@];
        lemma_line(a, b, client, session, "[MediaListRequest]"@, t, added, lines);
    }
}

/// A server logs a message from one registered client to another, with both ids.
pub proof fn law_servers_log_messages(
    a: ServerView,
    b: ServerView,
    client: NodeId,
    peer: NodeId,
    words: Seq<char>,
    session: u64,
    added: Seq<OutgoingView>,
    lines: Seq<Seq<char>>,
)
    requires
        tight(words),
        a.clients.contains(peer),
        message_handled(
            a,
            b,
            client,
            session,
            tagged2("[MessageTo]"@, decimal(peer as nat), words),
            added,
            lines,
        ),
    ensures
        one_line(
            lines,
            "Server received chat message from "@ + decimal(client as nat) + " to "@ + decimal(
                peer as nat,
            ),
        ),
{
    lemma_request_tags();
    lemma_id_reads_back(peer);
    lemma_nothing_added(decimal(peer as nat));
    law_three_parts_read_back("[MessageTo]"@, decimal(peer as nat), words);
    let t = seq!["[MessageTo]"@, decimal(peer as nat), words];
    let text = tagged2("[MessageTo]"@, decimal(peer as nat), words);
    lemma_line(a, b, client, session, text, t, added, lines);
}

/// A server logs a request for a chat, with both ids.
pub proof fn law_servers_log_chat_requests(
    a: ServerView,
    b: ServerView,
    client: NodeId,
    peer: NodeId,
    session: u64,
    added: Seq<OutgoingView>,
    lines: Seq<Seq<char>>,
)
    requires
        message_handled(
            a,
            b,
            client,
            session,
            tagged("[ChatRequest]"@, decimal(peer as nat)),
            added,
            lines,
        ),
    ensures
        one_line(
            lines,
            "Server received chat request from "@ + decimal(client as nat) + " to "@ + decimal(
                peer as nat,
            ),
        ),
{
    lemma_request_tags();
    lemma_id_reads_back(peer);
    lemma_nothing_added(decimal(peer as nat));
    law_two_parts_read_back("[ChatRequest]"@, decimal(peer as nat));
    let t = seq!["[ChatRequest]"@, decimal(peer as nat)];
    let text = tagged("[ChatRequest]"@, decimal(peer as nat));
    lemma_line(a, b, client, session, text, t, added, lines);
}

/// A server logs a client that it registers; a client that is registered already leaves no
/// line.
pub proof fn law_servers_log_logins(
    a: ServerView,
    b: ServerView,
    client: NodeId,
    session: u64,
    added: Seq<OutgoingView>,
    lines: Seq<Seq<char>>,
)
    requires
        message_handled(
            a,
            b,
            client,
            session,
            tagged("[Login]"@, decimal(a.id as nat)),
            added,
            lines,
        ),
    ensures
        !a.clients.contains(client) ==> one_line(
            lines,
            "Client "@ + decimal(client as nat) + " registered to this server"@,
        ),
        a.clients.contains(client) ==> lines.len() == 0,
{
    lemma_request_tags();
    lemma_id_reads_back(a.id);
    law_two_parts_read_back("[Login]"@, decimal(a.id as nat));
    let t = seq!["[Login]"@, decimal(a.id as nat)];
    let text = tagged("[Login]"@, decimal(a.id as nat));
    lemma_line(a, b, client, session, text, t, added, lines);
}

/// A server logs who has logged out, and the clients that are left.
pub proof fn law_servers_log_logouts(
    a: ServerView,
    b: ServerView,
    client: NodeId,
    session: u64,
    added: Seq<OutgoingView>,
    lines: Seq<Seq<char>>,
)
    requires
        message_handled(a, b, client, session, "[Logout]"@, added, lines),
    ensures
        exists|left: Seq<NodeId>|
            {
                &&& forall|x: NodeId| #[trigger]
                    left.contains(x) <==> a.clients.contains(x) && x != client
                &&& one_line(
                    lines,
                    "\u{1F440}\u{1F440}\u{1F440} Client "@ + decimal(client as nat)
                        + " has been logged out, now the registered clients are: "@ + (
                    #[trigger] ids_text(left) + " \u{1F440}\u{1F440}\u{1F440}"@),
                )
            },
{
    lemma_request_tags();
    lemma_one_part("[Logout]"@);
    let t = seq!["[Logout]"@];
    lemma_line(a, b, client, session, "[Logout]"@, t, added, lines);
    let left = without_id(a.clients, client);
    lemma_without_id(a.clients, client);
    assert(ids_text(left) == ids_text(without_id(a.clients, client)));
}

/// A server logs media that a client stores, asks for or broadcasts.
pub proof fn law_servers_log_media(
    a: ServerView,
    b: ServerView,
    client: NodeId,
    name: Seq<char>,
    data: Seq<char>,
    session: u64,
    added: Seq<OutgoingView>,
    lines: Seq<Seq<char>>,
)
    requires
        plain(name),
        tight(data),
        seamless(data),
    ensures
        message_handled(
            a,
            b,
            client,
            session,
            tagged2("[MediaUpload]"@, name, data),
            added,
            lines,
        ) ==> one_line(
            lines,
            "Server received MediaUpload from "@ + decimal(client as nat) + " of the media: "@
                + name,
        ),
        message_handled(
            a,
            b,
            client,
            session,
            tagged2("[MediaBroadcast]"@, name, data),
            added,
            lines,
        ) ==> one_line(
            lines,
            "Server received MediaBroadcast from "@ + decimal(client as nat) + " of the media; "@
                + name,
        ),
        message_handled(
            a,
            b,
            client,
            session,
            tagged("[MediaDownloadRequest]"@, data),
            added,
            lines,
        ) ==> one_line(
            lines,
            "Server received MediaDownloadRequest from "@ + decimal(client as nat),
        ),
{
    lemma_request_tags();
    lemma_nothing_added(name);
    law_three_parts_read_back("[MediaUpload]"@, name, data);
    law_three_parts_read_back("[MediaBroadcast]"@, name, data);
    law_two_parts_read_back("[MediaDownloadRequest]"@, data);
    let up = tagged2("[MediaUpload]"@, name, data);
    let all = tagged2("[MediaBroadcast]"@, name, data);
    let down = tagged("[MediaDownloadRequest]"@, data);
    assert("[MediaUpload]"@ != "[ChatRequest]"@) by {
        lemma_command_tags();
    }
    if message_handled(a, b, client, session, up, added, lines) {
        lemma_line(a, b, client, session, up, seq!["[MediaUpload]"@, name, data], added, lines);
    }
    if message_handled(a, b, client, session, all, added, lines) {
        lemma_line(a, b, client, session, all, seq!["[MediaBroadcast]"@, name, data], added, lines);
    }
    if message_handled(a, b, client, session, down, added, lines) {
        lemma_line(a, b, client, session, down, seq!["[MediaDownloadRequest]"@, data], added, lines);
    }
}

/// A client of the second make logs what its user does, as far as it is let through.
pub proof fn law_second_clients_log_commands(id: NodeId, g: ClientGlobals, peer: NodeId)
    ensures
        other_client_line(id, g, tag_id("[Login]"@, peer)) == Some(
            "Login from client "@ + decimal(id as nat),
        ),
        other_client_line(id, g, "[Logout]"@) == (if !g.chatting && g.server != 0 {
            Some("Logout from client "@ + decimal(id as nat))
        } else {
            None
        }),
        other_client_line(id, g, tag_id("[ChatRequest]"@, peer)) == (if !g.chatting && g.peer == 0 {
            Some(
                "Client "@ + decimal(id as nat) + " is requesting to chat with client: "@ + decimal(
                    peer as nat,
                ),
            )
        } else {
            None
        }),
        other_client_line(id, g, tag_id("[ChatFinish]"@, peer)) == (if g.chatting {
            Some("Client "@ + decimal(id as nat) + " is trying to end current chat"@)
        } else {
            None
        }),
{
    lemma_command_tags();
    lemma_colons();
    lemma_id_reads_back(peer);
    lemma_nothing_added(decimal(peer as nat));
    lemma_tokens_one("[Logout]"@);
    lemma_tokens_two("[Login]"@, decimal(peer as nat));
    lemma_tokens_two("[ChatRequest]"@, decimal(peer as nat));
    lemma_tokens_two("[ChatFinish]"@, decimal(peer as nat));
}

}
