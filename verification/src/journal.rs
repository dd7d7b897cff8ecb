//! What the nodes write into the simulation log.
use crate::changes::{announced, tokens, tokens_of};
use crate::channels::mentioned;
use crate::client1::{gui_message, message_of, text_view, ClientView};
use crate::client2::ClientGlobals;
use crate::packet::{
    has_id, remove_id, without_id, HeaderView, Nack, NackType, NodeId, SourceRoutingHeader,
};
use crate::server::{server, ServerView};
use crate::server_control::{read_server_change, server_change_of, ServerChange, ServerChangeView};
use crate::server_requests::{id_list_text, ids_text};
use crate::text::{
    after, begins_with, decimal, decimal_text, id_number, id_text, join2, join3, parse_id, parts,
    same_text, slice_text, split_parts, strip_prefix, texts,
};
use vstd::prelude::*;
use vstd::string::*;

verus! {

/// A line about a node.
pub open spec fn line1(front: Seq<char>, id: NodeId, back: Seq<char>) -> Seq<char> {
    front + decimal(id as nat) + back
}

/// A line about two texts.
pub open spec fn line2(
    front: Seq<char>,
    a: Seq<char>,
    middle: Seq<char>,
    b: Seq<char>,
    back: Seq<char>,
) -> Seq<char> {
    front + a + middle + (b + back)
}

/// The line on a node that has crashed.
pub open spec fn crash_line(id: NodeId) -> Seq<char> {
    line1("Node "@, id, " crashed (removed from graph)"@)
}

/// The line on a link that has failed.
pub open spec fn link_line(from: NodeId, to: NodeId) -> Seq<char> {
    line2(
        "Link removed between "@,
        decimal(from as nat),
        " and "@,
        decimal(to as nat),
        ""@,
    )
}

/// The line on a record that has gone to another server.
pub open spec fn update_line(to: NodeId) -> Seq<char> {
    line1("Sent chat history update to server "@, to, ""@)
}

/// The first characters of a text, at most `n`.
pub open spec fn beginning(s: Seq<char>, n: int) -> Seq<char> {
    if s.len() > n {
        s.subrange(0, n)
    } else {
        s
    }
}

/// A list of one line, or of none.
pub open spec fn as_lines(line: Option<Seq<char>>) -> Seq<Seq<char>> {
    match line {
        Some(s) => seq![s],
        None => Seq::empty(),
    }
}

/// A line, where there is one, and the lines on a record that has gone to other servers.
pub open spec fn lines_of(line: Option<Seq<char>>, told: Seq<NodeId>) -> Seq<Seq<char>> {
    as_lines(line) + told.map_values(|id: NodeId| update_line(id))
}

impl ClientView {
    /// The line on a nack: a node that has crashed or a link that has failed.
    pub open spec fn nack_line(self, n: Nack, h: HeaderView) -> Option<Seq<char>> {
        match (n.nack_type, Self::hop_before(h)) {
            (NackType::ErrorInRouting(node), Some(from)) => Some(
                if self.seems_crashed(node) {
                    crash_line(node)
                } else {
                    link_line(from, node)
                },
            ),
            _ => None,
        }
    }

    /// The line on a command of the user or on a change of the network: there is one
    /// for each command that the client sends on.
    pub open spec fn command_line(self, command: Seq<char>) -> Option<Seq<char>> {
        let t = tokens_of(command);
        if announced(command) is Some {
            Some(line1("Client "@, self.id, " received a call to flooding the network"@))
        } else if message_of(self.server, t) is Some {
            Some(client_line(self.id, t))
        } else {
            None
        }
    }
}

/// The line on a command that a client sends on.
pub open spec fn client_line(id: NodeId, t: Seq<Seq<char>>) -> Seq<char> {
    let own = decimal(id as nat);
    if t[0] == "[Login]"@ {
        line1("Login command from client: "@, id, ""@)
    } else if t[0] == "[Logout]"@ {
        line1("Logout command from client: "@, id, ""@)
    } else if t[0] == "[ClientListRequest]"@ {
        line1("ClientListRequest command from client: "@, id, ""@)
    } else if t[0] == "[MediaListRequest]"@ {
        line1("MediaListRequest command from client: "@, id, ""@)
    } else if t[0] == "[MessageTo]"@ {
        line2("Client "@, own, " sent a message to::"@, number_again(t[1]), " : "@ + t[2])
    } else if t[0] == "[ChatRequest]"@ {
        line2("Chat Request::"@, number_again(t[1]), " command from client: "@, own, ""@)
    } else if t[0] == "[ChatFinish]"@ {
        line2("ChatFinish::"@, number_again(t[1]), " command from client: "@, own, ""@)
    } else if t[0] == "[MediaUpload]"@ {
        line2("Client "@, own, " uploaded the '"@, t[1], "' to the server"@)
    } else if t[0] == "[MediaDownloadRequest]"@ {
        line2("Client "@, own, " downloaded the '"@, t[1], "'"@)
    } else if t[0] == "[MediaBroadcast]"@ {
        line2("Client "@, own, " did a Media Broadcast of '"@, t[1], "'"@)
    } else {
        line2(
            " Client "@,
            own,
            " requested chat history between ::"@,
            number_again(t[1]),
            "::"@ + number_again(t[2]),
        )
    }
}

/// An id that was read from a text, written once more.
pub open spec fn number_again(s: Seq<char>) -> Seq<char> {
    match id_number(s) {
        Some(id) => decimal(id as nat),
        None => Seq::empty(),
    }
}

/// The line of the other client on a command of the user or on a change of the network.
pub open spec fn other_client_line(id: NodeId, g: ClientGlobals, command: Seq<char>) -> Option<
    Seq<char>,
> {
    let t = tokens_of(command);
    let own = decimal(id as nat);
    if announced(command) is Some {
        Some(line1("Client "@, id, " received a call to flooding the network"@))
    } else if t.len() == 2 && t[0] == "[Login]"@ {
        match id_number(t[1]) {
            Some(_) => Some(line1("Login from client "@, id, ""@)),
            None => None,
        }
    } else if t.len() == 1 && t[0] == "[Logout]"@ {
        if !g.chatting && g.server != 0 {
            Some(line1("Logout from client "@, id, ""@))
        } else {
            None
        }
    } else if t.len() == 3 && t[0] == "[MessageTo]"@ {
        Some(line2("Client "@, own, " is sending a message to client "@, t[1], ""@))
    } else if t.len() == 2 && t[0] == "[ChatRequest]"@ {
        if !g.chatting && g.peer == 0 {
            Some(line2("Client "@, own, " is requesting to chat with client: "@, t[1], ""@))
        } else {
            None
        }
    } else if t.len() == 3 && t[0] == "[MediaUpload]"@ {
        Some(
            line2(
                "Client "@,
                own,
                " is uploading media with name: "@,
                t[1],
                " , encoded as: "@ + t[2],
            ),
        )
    } else if t.len() == 2 && t[0] == "[MediaDownloadRequest]"@ {
        Some(line2("Client "@, own, " is requesting to download media: "@, t[1], ""@))
    } else if t.len() == 2 && t[0] == "[ChatFinish]"@ {
        if g.chatting {
            Some(line1("Client "@, id, " is trying to end current chat"@))
        } else {
            None
        }
    } else if t.len() == 3 && t[0] == "[MediaBroadcast]"@ {
        Some(
            line2("Client "@, own, " is broadcasting "@, t[1], " to all connected clients"@),
        )
    } else {
        None
    }
}

impl ServerView {
    /// The line on a nack: a node that has crashed or a link that has failed.
    pub open spec fn nack_line(self, n: Nack, h: HeaderView) -> Option<Seq<char>> {
        match (n.nack_type, self.channels, Self::hop_before(h)) {
            (NackType::ErrorInRouting(node), Some(c), Some(from)) => Some(
                if mentioned(c, node) {
                    link_line(from, node)
                } else {
                    crash_line(node)
                },
            ),
            _ => None,
        }
    }

    /// The line on a command of the user or on news of the controller: a file that is
    /// broadcast, with the beginning of its contents, or a drone that has crashed.
    pub open spec fn gui_line(self, message: Seq<char>) -> Option<Seq<char>> {
        if begins_with(message, "[MediaBroadcast]::"@) {
            let p = parts(after(message, "[MediaBroadcast]::"@.len() as int), 2);
            if p.len() == 2 {
                Some(
                    line2(
                        "Media stored in server '"@,
                        p[0],
                        "' is: ("@,
                        decimal(self.id as nat),
                        ", \""@ + beginning(p[1], 10) + "\u{2026}\")"@,
                    ),
                )
            } else {
                None
            }
        } else if begins_with(message, "[FloodRequired]::"@) {
            match server_change_of(after(message, "[FloodRequired]::"@.len() as int)) {
                ServerChangeView::Crash(Some(d)) => Some(line1("Drone "@, d, " crashed!"@)),
                _ => None,
            }
        } else {
            None
        }
    }

    /// The line on a message of a client.
    pub open spec fn message_line(self, client: NodeId, session: u64, t: Seq<Seq<char>>) -> Option<
        Seq<char>,
    > {
        let from = decimal(client as nat);
        if t.len() == 2 && t[0] == "[Login]"@ {
            if self.registers(client, t) {
                Some(line1("Client "@, client, " registered to this server"@))
            } else {
                None
            }
        } else if t.len() == 1 && t[0] == "[ClientListRequest]"@ {
            Some("server has the following connected clients: "@ + ids_text(self.clients))
        } else if t.len() == 2 && t[0] == "[ChatRequest]"@ {
            Some(line2("Server received chat request from "@, from, " to "@, t[1], ""@))
        } else if t.len() == 3 && t[0] == "[MessageTo]"@ {
            match id_number(t[1]) {
                Some(x) => if self.clients.contains(x) {
                    Some(line2("Server received chat message from "@, from, " to "@, t[1], ""@))
                } else {
                    None
                },
                None => None,
            }
        } else if t.len() == 3 && t[0] == "[HistoryRequest]"@ {
            Some(
                line2("Server received CHAT-HISTORY request from "@, t[1], " with "@, t[2], ""@),
            )
        } else if t.len() == 3 && t[0] == "[MediaUpload]"@ {
            Some(
                line2("Server received MediaUpload from "@, from, " of the media: "@, t[1], ""@),
            )
        } else if t.len() == 1 && t[0] == "[MediaListRequest]"@ {
            Some(line1("Server received MediaListRequest from "@, client, ""@))
        } else if t.len() == 2 && t[0] == "[MediaDownloadRequest]"@ {
            Some(line1("Server received MediaDownloadRequest from "@, client, ""@))
        } else if t.len() == 3 && t[0] == "[MediaBroadcast]"@ {
            Some(
                line2(
                    "Server received MediaBroadcast from "@,
                    from,
                    " of the media; "@,
                    t[1],
                    ""@,
                ),
            )
        } else if t.len() == 2 && t[0] == "[ChatFinish]"@ {
            Some(
                line2(
                    "Server received ChatFinish from "@,
                    from,
                    " for session: "@,
                    decimal(session as nat),
                    ""@,
                ),
            )
        } else if t.len() == 1 && t[0] == "[Logout]"@ {
            Some(
                line2(
                    "\u{1F440}\u{1F440}\u{1F440} Client "@,
                    from,
                    " has been logged out, now the registered clients are: "@,
                    ids_text(without_id(self.clients, client)),
                    " \u{1F440}\u{1F440}\u{1F440}"@,
                ),
            )
        } else {
            None
        }
    }

    /// The lines on a message of a client. `told` are the servers that the record of a
    /// finished chat has gone to.
    pub open spec fn message_lines(
        self,
        client: NodeId,
        session: u64,
        t: Seq<Seq<char>>,
        told: Seq<NodeId>,
    ) -> Seq<Seq<char>> {
        lines_of(self.message_line(client, session, t), told)
    }
}

/// A line about a node.
fn say1(front: &str, id: NodeId, back: &str) -> (r: String)
    ensures
        r@ == line1(front@, id, back@),
{
    let number: String = id_text(id);
    join3(front, number.as_str(), back)
}

/// A line about two texts.
fn say2(front: &str, a: &str, middle: &str, b: &str, back: &str) -> (r: String)
    ensures
        r@ == line2(front@, a@, middle@, b@, back@),
{
    let begun: String = join3(front, a, middle);
    let rest: String = join2(b, back);
    join2(begun.as_str(), rest.as_str())
}

/// The line on a node that has crashed.
fn say_crash(id: NodeId) -> (r: String)
    ensures
        r@ == crash_line(id),
{
    say1("Node ", id, " crashed (removed from graph)")
}

/// The line on a link that has failed.
fn say_link(from: NodeId, to: NodeId) -> (r: String)
    ensures
        r@ == link_line(from, to),
{
    let a: String = id_text(from);
    let b: String = id_text(to);
    say2("Link removed between ", a.as_str(), " and ", b.as_str(), "")
}

/// The line on a record that has gone to another server.
fn say_update(to: NodeId) -> (r: String)
    ensures
        r@ == update_line(to),
{
    say1("Sent chat history update to server ", to, "")
}

/// A line, where there is one, and the lines on a record that has gone to other servers.
pub fn all_lines(line: Option<String>, told: &Vec<NodeId>) -> (r: Vec<String>)
    ensures
        texts(r@) == lines_of(text_view(line), told@),
{
    let ghost all = lines_of(text_view(line), told@);
    let ghost n = as_lines(text_view(line)).len();
    let mut r: Vec<String> = Vec::new();
    if let Some(s) = line {
        r.push(s);
    }
    let mut i: usize = 0;
    while i < told.len()
        invariant
            i <= told@.len(),
            n <= 1,
            all.len() == n + told@.len(),
            forall|j: int| 0 <= j < told@.len() ==> #[trigger] all[n + j] == update_line(told@[j]),
            r@.len() == n + i,
            forall|j: int| 0 <= j < n + i ==> (#[trigger] r@[j])@ == all[j],
        decreases told@.len() - i,
    {
        r.push(say_update(told[i]));
        assert(all[n + i] == update_line(told@[i as int]));
        i = i + 1;
    }
    assert(texts(r@) =~= all);
    r
}

/// A list of one line.
pub fn one_line(line: String) -> (r: Vec<String>)
    ensures
        texts(r@) == as_lines(Some(line@)),
{
    let mut r: Vec<String> = Vec::new();
    r.push(line);
    assert(texts(r@) =~= seq![line@]);
    r
}

/// An id that was read from a text, written once more.
fn write_again(s: &str) -> (r: String)
    ensures
        r@ == number_again(s@),
{
    match parse_id(s) {
        Some(id) => id_text(id),
        None => {
            let r: String = "".to_owned();
            proof {
                reveal_strlit("");
                assert(r@ =~= Seq::<char>::empty());
            }
            r
        },
    }
}

/// The index of the hop that a packet came from.
fn before_hop(header: &SourceRoutingHeader) -> (r: Option<NodeId>)
    ensures
        r == ClientView::hop_before(header@),
        r == ServerView::hop_before(header@),
{
    let k: usize = if header.hop_index > 0 {
        header.hop_index - 1
    } else {
        0
    };
    if k < header.hops.len() {
        Some(header.hops[k])
    } else {
        None
    }
}

/// The line on a command that a client sends on.
fn say_command(id: NodeId, t: &Vec<String>) -> (r: String)
    requires
        message_of(Some(0), texts(t@)) is Some,
    ensures
        r@ == client_line(id, texts(t@)),
{
    let ghost p = texts(t@);
    proof {
        assert forall|i: int| 0 <= i < t@.len() implies #[trigger] t@[i]@ == p[i] by {
            assert(texts(t@)[i] == t@[i]@);
        }
        lemma_lengths();
    }
    let own: String = id_text(id);
    let tag: &str = t[0].as_str();
    if same_text(tag, "[Login]") {
        return say1("Login command from client: ", id, "");
    }
    if same_text(tag, "[Logout]") {
        return say1("Logout command from client: ", id, "");
    }
    if same_text(tag, "[ClientListRequest]") {
        return say1("ClientListRequest command from client: ", id, "");
    }
    if same_text(tag, "[MediaListRequest]") {
        return say1("MediaListRequest command from client: ", id, "");
    }
    let name: &str = t[1].as_str();
    let number: String = write_again(name);
    if same_text(tag, "[MessageTo]") {
        let back: String = join2(" : ", t[2].as_str());
        return say2(
            "Client ",
            own.as_str(),
            " sent a message to::",
            number.as_str(),
            back.as_str(),
        );
    }
    if same_text(tag, "[ChatRequest]") {
        return say2(
            "Chat Request::",
            number.as_str(),
            " command from client: ",
            own.as_str(),
            "",
        );
    }
    if same_text(tag, "[ChatFinish]") {
        return say2(
            "ChatFinish::",
            number.as_str(),
            " command from client: ",
            own.as_str(),
            "",
        );
    }
    if same_text(tag, "[MediaUpload]") {
        return say2("Client ", own.as_str(), " uploaded the '", name, "' to the server");
    }
    if same_text(tag, "[MediaDownloadRequest]") {
        return say2("Client ", own.as_str(), " downloaded the '", name, "'");
    }
    if same_text(tag, "[MediaBroadcast]") {
        return say2("Client ", own.as_str(), " did a Media Broadcast of '", name, "'");
    }
    let second: String = write_again(t[2].as_str());
    let back: String = join2("::", second.as_str());
    say2(
        " Client ",
        own.as_str(),
        " requested chat history between ::",
        number.as_str(),
        back.as_str(),
    )
}

impl crate::client1::MyClient {
    /// The line on a nack.
    pub fn nack_log(&self, nack: &Nack, header: &SourceRoutingHeader) -> (r: Option<String>)
        ensures
            text_view(r) == self@.nack_line(*nack, header@),
    {
        match (nack.nack_type, before_hop(header)) {
            (NackType::ErrorInRouting(node), Some(from)) => {
                let crashed: bool = match &self.shared_senders {
                    Some(s) => !s.mentions(node),
                    None => false,
                };
                if crashed {
                    Some(say_crash(node))
                } else {
                    Some(say_link(from, node))
                }
            },
            _ => None,
        }
    }

    /// The line on a command of the user or on a change of the network.
    pub fn command_log(&self, command: &str) -> (r: Option<String>)
        ensures
            text_view(r) == self@.command_line(command@),
    {
        let t: Vec<String> = tokens(command);
        proof {
            assert(texts(t@)[0] == t@[0]@);
        }
        if t.len() >= 2 && same_text(t[0].as_str(), "[FloodRequired]") {
            return Some(say1("Client ", self.id, " received a call to flooding the network"));
        }
        match gui_message(self.connected_server_id, &t) {
            Some(_) => Some(say_command(self.id, &t)),
            None => None,
        }
    }
}

impl crate::client2::MyClient {
    /// The line on a command of the user or on a change of the network.
    pub fn command_log(&self, globals: &ClientGlobals, command: &str) -> (r: Option<String>)
        ensures
            text_view(r) == other_client_line(self@.id, *globals, command@),
    {
        let t: Vec<String> = tokens(command);
        let ghost p = texts(t@);
        proof {
            assert forall|i: int| 0 <= i < t@.len() implies #[trigger] t@[i]@ == p[i] by {
                assert(texts(t@)[i] == t@[i]@);
            }
        }
        let own: String = id_text(self.id);
        let n: usize = t.len();
        let tag: &str = t[0].as_str();
        if n >= 2 && same_text(tag, "[FloodRequired]") {
            return Some(say1("Client ", self.id, " received a call to flooding the network"));
        }
        if n == 2 && same_text(tag, "[Login]") {
            return match parse_id(t[1].as_str()) {
                Some(_) => Some(say1("Login from client ", self.id, "")),
                None => None,
            };
        }
        if n == 1 && same_text(tag, "[Logout]") {
            return if !globals.chatting && globals.server != 0 {
                Some(say1("Logout from client ", self.id, ""))
            } else {
                None
            };
        }
        if n == 3 && same_text(tag, "[MessageTo]") {
            return Some(
                say2("Client ", own.as_str(), " is sending a message to client ", t[1].as_str(), ""),
            );
        }
        if n == 2 && same_text(tag, "[ChatRequest]") {
            return if !globals.chatting && globals.peer == 0 {
                Some(
                    say2(
                        "Client ",
                        own.as_str(),
                        " is requesting to chat with client: ",
                        t[1].as_str(),
                        "",
                    ),
                )
            } else {
                None
            };
        }
        if n == 3 && same_text(tag, "[MediaUpload]") {
            let back: String = join2(" , encoded as: ", t[2].as_str());
            return Some(
                say2(
                    "Client ",
                    own.as_str(),
                    " is uploading media with name: ",
                    t[1].as_str(),
                    back.as_str(),
                ),
            );
        }
        if n == 2 && same_text(tag, "[MediaDownloadRequest]") {
            return Some(
                say2(
                    "Client ",
                    own.as_str(),
                    " is requesting to download media: ",
                    t[1].as_str(),
                    "",
                ),
            );
        }
        if n == 2 && same_text(tag, "[ChatFinish]") {
            return if globals.chatting {
                Some(say1("Client ", self.id, " is trying to end current chat"))
            } else {
                None
            };
        }
        if n == 3 && same_text(tag, "[MediaBroadcast]") {
            return Some(
                say2(
                    "Client ",
                    own.as_str(),
                    " is broadcasting ",
                    t[1].as_str(),
                    " to all connected clients",
                ),
            );
        }
        None
    }
}

proof fn lemma_lengths()
    ensures
        "[Login]"@.len() == 7,
        "[Logout]"@.len() == 8,
        "[ClientListRequest]"@.len() == 19,
        "[MediaListRequest]"@.len() == 18,
        "[MessageTo]"@.len() == 11,
        "[ChatRequest]"@.len() == 13,
        "[ChatFinish]"@.len() == 12,
        "[MediaUpload]"@.len() == 13,
        "[MediaDownloadRequest]"@.len() == 22,
        "[MediaBroadcast]"@.len() == 16,
        "[HistoryRequest]"@.len() == 16,
        "[ChatRequest]"@ != "[MediaUpload]"@,
        "[MediaBroadcast]"@ != "[HistoryRequest]"@,
{
    reveal_strlit("[Login]");
    reveal_strlit("[Logout]");
    reveal_strlit("[ClientListRequest]");
    reveal_strlit("[MediaListRequest]");
    reveal_strlit("[MessageTo]");
    reveal_strlit("[ChatRequest]");
    reveal_strlit("[ChatFinish]");
    reveal_strlit("[MediaUpload]");
    reveal_strlit("[MediaDownloadRequest]");
    reveal_strlit("[MediaBroadcast]");
    reveal_strlit("[HistoryRequest]");
    assert("[ChatRequest]"@[1] == 'C');
    assert("[MediaUpload]"@[1] == 'M');
    assert("[MediaBroadcast]"@[1] == 'M');
    assert("[HistoryRequest]"@[1] == 'H');
}

impl server {
    /// The line on a nack.
    pub fn nack_log(&self, nack: &Nack, header: &SourceRoutingHeader) -> (r: Option<String>)
        ensures
            text_view(r) == self@.nack_line(*nack, header@),
    {
        match (nack.nack_type, before_hop(header), &self.shared_senders) {
            (NackType::ErrorInRouting(node), Some(from), Some(s)) => {
                if s.mentions(node) {
                    Some(say_link(from, node))
                } else {
                    Some(say_crash(node))
                }
            },
            _ => None,
        }
    }

    /// The line on a command of the user or on news of the controller.
    pub fn gui_log(&self, message: &str) -> (r: Option<String>)
        ensures
            text_view(r) == self@.gui_line(message@),
    {
        if let Some(rest) = strip_prefix(message, "[MediaBroadcast]::") {
            let p: Vec<String> = split_parts(rest.as_str(), 2);
            if p.len() != 2 {
                return None;
            }
            proof {
                assert(texts(p@)[0] == p@[0]@);
                assert(texts(p@)[1] == p@[1]@);
            }
            let own: String = id_text(self.id);
            let begun: String = if p[1].as_str().unicode_len() > 10 {
                slice_text(p[1].as_str(), 0, 10)
            } else {
                p[1].clone()
            };
            let back: String = join3(", \"", begun.as_str(), "\u{2026}\")");
            return Some(
                say2(
                    "Media stored in server '",
                    p[0].as_str(),
                    "' is: (",
                    own.as_str(),
                    back.as_str(),
                ),
            );
        }
        if let Some(action) = strip_prefix(message, "[FloodRequired]::") {
            return match read_server_change(action.as_str()) {
                ServerChange::Crash(Some(d)) => Some(say1("Drone ", d, " crashed!")),
                _ => None,
            };
        }
        None
    }

    /// The line on a message of a client, before the message is handled.
    pub fn message_log(&self, client: NodeId, session: u64, t: &Vec<String>) -> (r: Option<String>)
        requires
            t@.len() >= 1,
        ensures
            text_view(r) == self@.message_line(client, session, texts(t@)),
    {
        let ghost p = texts(t@);
        proof {
            assert forall|i: int| 0 <= i < t@.len() implies #[trigger] t@[i]@ == p[i] by {
                assert(texts(t@)[i] == t@[i]@);
            }
        }
        let from: String = id_text(client);
        let n: usize = t.len();
        let tag: &str = t[0].as_str();
        if n == 2 && same_text(tag, "[Login]") {
            return if parse_id(t[1].as_str()) == Some(self.id) && !has_id(
                &self.registered_clients,
                client,
            ) {
                Some(say1("Client ", client, " registered to this server"))
            } else {
                None
            };
        }
        if n == 1 && same_text(tag, "[ClientListRequest]") {
            let list: String = id_list_text(&self.registered_clients);
            return Some(join2("server has the following connected clients: ", list.as_str()));
        }
        if n == 2 && same_text(tag, "[ChatRequest]") {
            return Some(
                say2(
                    "Server received chat request from ",
                    from.as_str(),
                    " to ",
                    t[1].as_str(),
                    "",
                ),
            );
        }
        if n == 3 && same_text(tag, "[MessageTo]") {
            return match parse_id(t[1].as_str()) {
                Some(x) => if has_id(&self.registered_clients, x) {
                    Some(
                        say2(
                            "Server received chat message from ",
                            from.as_str(),
                            " to ",
                            t[1].as_str(),
                            "",
                        ),
                    )
                } else {
                    None
                },
                None => None,
            };
        }
        if n == 3 && same_text(tag, "[HistoryRequest]") {
            return Some(
                say2(
                    "Server received CHAT-HISTORY request from ",
                    t[1].as_str(),
                    " with ",
                    t[2].as_str(),
                    "",
                ),
            );
        }
        if n == 3 && same_text(tag, "[MediaUpload]") {
            return Some(
                say2(
                    "Server received MediaUpload from ",
                    from.as_str(),
                    " of the media: ",
                    t[1].as_str(),
                    "",
                ),
            );
        }
        if n == 1 && same_text(tag, "[MediaListRequest]") {
            return Some(say1("Server received MediaListRequest from ", client, ""));
        }
        if n == 2 && same_text(tag, "[MediaDownloadRequest]") {
            return Some(say1("Server received MediaDownloadRequest from ", client, ""));
        }
        if n == 3 && same_text(tag, "[MediaBroadcast]") {
            return Some(
                say2(
                    "Server received MediaBroadcast from ",
                    from.as_str(),
                    " of the media; ",
                    t[1].as_str(),
                    "",
                ),
            );
        }
        if n == 2 && same_text(tag, "[ChatFinish]") {
            let number: String = decimal_text(session);
            return Some(
                say2(
                    "Server received ChatFinish from ",
                    from.as_str(),
                    " for session: ",
                    number.as_str(),
                    "",
                ),
            );
        }
        if n == 1 && same_text(tag, "[Logout]") {
            let left: Vec<NodeId> = remove_id(&self.registered_clients, client);
            let list: String = id_list_text(&left);
            return Some(
                say2(
                    "\u{1F440}\u{1F440}\u{1F440} Client ",
                    from.as_str(),
                    " has been logged out, now the registered clients are: ",
                    list.as_str(),
                    " \u{1F440}\u{1F440}\u{1F440}",
                ),
            );
        }
        None
    }
}

}
