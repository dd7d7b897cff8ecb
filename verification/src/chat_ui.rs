//! What the user sees and does in the chat window.
use crate::chat_log::{ordered_pair, pair};
use crate::gui_queue::{pushed, GuiQueue, Waiting};
use crate::media::{media_message, upload_text};
use crate::notices::lowered;
use crate::packet::{copy_ids, has_id, remove_id, without_id, NodeId};
use crate::tables::Table;
use crate::text::{
    begins_with, chars_of, decimal, decimal_text, id_number, id_text, join2, join3, parse_id, parts,
    same_text, slice_text, split_parts, starts_with, texts, trim, trim_both,
};
use vstd::prelude::*;

verus! {

/// A message of a chat.
#[derive(PartialEq, Eq, Debug)]
pub struct ChatMessage {
    pub from: NodeId,
    pub content: String,
}

/// A message: who it is from, and what it says.
pub type MessageView = (NodeId, Seq<char>);

impl View for ChatMessage {
    type V = MessageView;

    open spec fn view(&self) -> MessageView {
        (self.from, self.content@)
    }
}

/// What a client is doing.
#[derive(Clone, Copy, PartialEq, Eq, Structural, Debug)]
pub enum ClientStatus {
    Offline,
    Connected,
    Chatting(NodeId),
}

/// Kinds of chat: a normal one is kept, a temporary one is not.
#[derive(Clone, Copy, PartialEq, Eq, Structural, Debug)]
pub enum ChatType {
    Normal,
    Temporary,
}

/// A list of messages.
pub open spec fn messages(v: Seq<ChatMessage>) -> Seq<MessageView> {
    v.map_values(|m: ChatMessage| m@)
}

#[verifier::ext_equal]
pub struct ChatView {
    pub status: Map<NodeId, ClientStatus>,
    pub servers: Seq<NodeId>,
    pub selected_client: Option<NodeId>,
    pub selected_server: Option<NodeId>,
    pub messages: Seq<MessageView>,
    pub input: Seq<char>,
    pub chat: Option<(NodeId, NodeId)>,
    pub request: Option<(NodeId, NodeId)>,
    pub sender: Option<NodeId>,
    pub logged: Map<NodeId, Seq<NodeId>>,
    pub history: Map<(NodeId, NodeId), Seq<MessageView>>,
    pub types: Map<(NodeId, NodeId), ChatType>,
    pub pending_type: Option<ChatType>,
    pub codes: Map<(NodeId, NodeId), Seq<char>>,
    pub popup: Option<NodeId>,
    pub show_upload: bool,
    pub show_broadcast: bool,
    pub show_history: bool,
    pub download_input: Seq<char>,
    pub download_note: Option<Seq<char>>,
    pub history_client: Seq<char>,
    pub history_target: Seq<char>,
}

/// The chat window.
#[derive(Debug)]
pub struct ChatUIState {
    pub client_status: Table<NodeId, ClientStatus>,
    pub servers: Vec<NodeId>,
    pub selected_client: Option<NodeId>,
    pub selected_server: Option<NodeId>,
    pub chat_messages: Vec<ChatMessage>,
    pub chat_input: String,
    pub active_chat_pair: Option<(NodeId, NodeId)>,
    pub pending_chat_request: Option<(NodeId, NodeId)>,
    pub selected_sender: Option<NodeId>,
    pub server_client_map: Table<NodeId, Vec<NodeId>>,
    pub chat_history: Table<(NodeId, NodeId), Vec<ChatMessage>>,
    pub chat_type_map: Table<(NodeId, NodeId), ChatType>,
    pub pending_chat_type: Option<ChatType>,
    pub client_server_codes: Table<(NodeId, NodeId), String>,
    pub show_server_popup: Option<NodeId>,
    pub show_upload_media_list: bool,
    pub show_broadcast_list: bool,
    pub show_history_popup: bool,
    pub download_media_name_input: String,
    pub download_result_message: Option<String>,
    pub history_client_id_input: String,
    pub history_target_id_input: String,
}

/// A text that may be missing.
pub open spec fn text_option(t: Option<String>) -> Option<Seq<char>> {
    match t {
        Some(s) => Some(s@),
        None => None,
    }
}

impl View for ChatUIState {
    type V = ChatView;

    open spec fn view(&self) -> ChatView {
        ChatView {
            status: self.client_status@,
            servers: self.servers@,
            selected_client: self.selected_client,
            selected_server: self.selected_server,
            messages: messages(self.chat_messages@),
            input: self.chat_input@,
            chat: self.active_chat_pair,
            request: self.pending_chat_request,
            sender: self.selected_sender,
            logged: self.server_client_map@.map_values(|v: Vec<NodeId>| v@),
            history: self.chat_history@.map_values(|v: Vec<ChatMessage>| messages(v@)),
            types: self.chat_type_map@,
            pending_type: self.pending_chat_type,
            codes: self.client_server_codes@.map_values(|s: String| s@),
            popup: self.show_server_popup,
            show_upload: self.show_upload_media_list,
            show_broadcast: self.show_broadcast_list,
            show_history: self.show_history_popup,
            download_input: self.download_media_name_input@,
            download_note: text_option(self.download_result_message),
            history_client: self.history_client_id_input@,
            history_target: self.history_target_id_input@,
        }
    }
}

/// `n` as six decimal digits.
pub open spec fn six_digits(n: nat) -> Seq<char> {
    let d = decimal(n);
    zero_chars((6 - d.len()) as nat) + d
}

/// Some zeros.
pub open spec fn zero_chars(n: nat) -> Seq<char> {
    Seq::new(n, |i: int| '0')
}

/// The code that a number drawn at random gives.
pub open spec fn login_code(drawn: u32) -> Seq<char> {
    six_digits((drawn % 1_000_000) as nat)
}

impl ChatView {
    /// What a client is doing; one that is unknown is offline.
    pub open spec fn status_of(self, id: NodeId) -> ClientStatus {
        if self.status.contains_key(id) {
            self.status[id]
        } else {
            ClientStatus::Offline
        }
    }

    /// The clients that are logged in at a server.
    pub open spec fn clients_at(self, server: NodeId) -> Seq<NodeId> {
        if self.logged.contains_key(server) {
            self.logged[server]
        } else {
            Seq::empty()
        }
    }

    /// A client is logged in at a server.
    pub open spec fn logged_at(self, client: NodeId, server: NodeId) -> bool {
        self.clients_at(server).contains(client)
    }

    /// Two clients are logged in at a server.
    pub open spec fn both_at(self, a: NodeId, b: NodeId, server: NodeId) -> bool {
        self.logged_at(a, server) && self.logged_at(b, server)
    }

    /// The user has picked a client.
    pub open spec fn client_selected(self, id: NodeId) -> ChatView {
        ChatView {
            selected_client: Some(id),
            selected_server: if self.chat is None {
                None
            } else {
                self.selected_server
            },
            ..self
        }
    }

    /// The user has picked a server.
    pub open spec fn server_selected(self, id: NodeId) -> ChatView {
        ChatView {
            selected_server: Some(id),
            selected_client: None,
            show_broadcast: false,
            ..self
        }
    }

    /// A client has logged in at the server that was picked.
    pub open spec fn logged_in(self, client: NodeId, code: Seq<char>) -> ChatView {
        match self.selected_server {
            Some(s) => ChatView {
                status: self.status.insert(client, ClientStatus::Connected),
                logged: self.logged.insert(s, self.clients_at(s).push(client)),
                codes: self.codes.insert((client, s), code),
                ..self
            },
            None => self,
        }
    }

    /// A client can ask another one for a chat.
    pub open spec fn can_ask(self, client: NodeId, other: NodeId) -> bool {
        &&& other != client
        &&& self.status.contains_key(other)
        &&& self.status[other] == ClientStatus::Connected
        &&& exists|s: NodeId| #[trigger] self.both_at(client, other, s)
    }

    /// A client has asked another one for a chat, at some server that both are at.
    pub open spec fn chat_asked(self, after: ChatView, client: NodeId, peer: NodeId) -> bool {
        if exists|s: NodeId| #[trigger] self.both_at(client, peer, s) {
            exists|s: NodeId| #[trigger]
                self.both_at(client, peer, s) && after == (ChatView {
                    request: Some((client, peer)),
                    selected_client: Some(peer),
                    selected_server: Some(s),
                    ..self
                })
        } else {
            after == self
        }
    }

    /// A pair without a client.
    pub open spec fn spared(p: Option<(NodeId, NodeId)>, client: NodeId) -> Option<
        (NodeId, NodeId),
    > {
        match p {
            Some((a, b)) => if a == client || b == client {
                None
            } else {
                p
            },
            None => None,
        }
    }

    /// A client has logged out from a server.
    pub open spec fn logged_out_from(self, client: NodeId, server: NodeId) -> ChatView {
        ChatView {
            status: self.status.insert(client, ClientStatus::Offline),
            logged: self.logged.insert(server, without_id(self.clients_at(server), client)),
            request: ChatView::spared(self.request, client),
            chat: ChatView::spared(self.chat, client),
            selected_client: if self.selected_client == Some(client) {
                None
            } else {
                self.selected_client
            },
            selected_server: None,
            popup: None,
            show_upload: false,
            ..self
        }
    }

    /// A client has logged out from some server that it was at.
    pub open spec fn logged_out(self, after: ChatView, client: NodeId) -> bool {
        if exists|s: NodeId| #[trigger] self.logged_at(client, s) {
            exists|s: NodeId| #[trigger]
                self.logged_at(client, s) && after == self.logged_out_from(client, s)
        } else {
            after == self
        }
    }

    /// The chat has ended.
    pub open spec fn chat_ended(self) -> ChatView {
        match self.chat {
            Some((a, b)) => ChatView {
                messages: if self.types.contains_key(pair(a, b)) && self.types[pair(a, b)]
                    == ChatType::Temporary {
                    Seq::empty()
                } else {
                    self.messages
                },
                types: self.types.remove(pair(a, b)),
                status: self.status.insert(a, ClientStatus::Connected).insert(
                    b,
                    ClientStatus::Connected,
                ),
                chat: None,
                request: None,
                ..self
            },
            None => self,
        }
    }

    /// The kind of chat that the user has picked.
    pub open spec fn chosen_type(self) -> ChatType {
        match self.pending_type {
            Some(t) => t,
            None => ChatType::Normal,
        }
    }

    /// The request can be answered: the client that it is for is picked.
    pub open spec fn answerable(self) -> bool {
        match self.request {
            Some((_, target)) => self.selected_client == Some(target),
            None => false,
        }
    }

    /// The messages that were kept for two clients.
    pub open spec fn kept(self, key: (NodeId, NodeId)) -> Seq<MessageView> {
        if self.history.contains_key(key) {
            self.history[key]
        } else {
            Seq::empty()
        }
    }

    /// The request has been accepted.
    pub open spec fn accepted(self) -> ChatView {
        match self.request {
            Some((requester, target)) => if self.answerable() {
                let key = pair(requester, target);
                let t = self.chosen_type();
                ChatView {
                    types: self.types.insert(key, t),
                    status: self.status.insert(
                        requester,
                        ClientStatus::Chatting(target),
                    ).insert(target, ClientStatus::Chatting(requester)),
                    chat: Some((requester, target)),
                    sender: Some(target),
                    request: None,
                    pending_type: None,
                    messages: if t == ChatType::Temporary {
                        Seq::empty()
                    } else {
                        self.kept(key)
                    },
                    ..self
                }
            } else {
                self
            },
            None => self,
        }
    }

    /// The request has been declined.
    pub open spec fn declined(self) -> ChatView {
        if self.answerable() {
            ChatView { request: None, ..self }
        } else {
            self
        }
    }

    /// The client that a message goes to.
    pub open spec fn receiver(self) -> NodeId {
        let p = self.chat->0;
        if self.sender == Some(p.0) {
            p.1
        } else {
            p.0
        }
    }

    /// There is something to send, and somebody to send it.
    pub open spec fn can_send(self) -> bool {
        self.chat is Some && self.sender is Some && trim_both(self.input).len() > 0
    }

    /// A message has been sent.
    pub open spec fn message_sent(self) -> ChatView {
        if self.can_send() {
            let from = self.sender->0;
            let key = pair(from, self.receiver());
            let m = (from, self.input);
            ChatView {
                messages: self.messages.push(m),
                history: if self.types.contains_key(key) && self.types[key] == ChatType::Normal {
                    self.history.insert(key, self.kept(key).push(m))
                } else {
                    self.history
                },
                input: Seq::empty(),
                ..self
            }
        } else {
            self
        }
    }

    /// A download has been asked for.
    pub open spec fn download_asked(self) -> ChatView {
        let name = trim_both(self.download_input);
        if self.selected_client is Some && name.len() > 0 {
            ChatView {
                download_note: Some("Requested \""@ + name + "\""@),
                download_input: Seq::empty(),
                ..self
            }
        } else {
            self
        }
    }

    /// A chat record can be asked for: both ids can be read, and a server is picked.
    pub open spec fn history_askable(self) -> bool {
        &&& id_number(self.history_client) is Some
        &&& id_number(self.history_target) is Some
        &&& self.selected_server is Some
    }
}

/// The queue with a message for a client, where one is picked.
pub open spec fn pushed_for(q: Waiting, client: Option<NodeId>, m: Seq<char>) -> Waiting {
    match client {
        Some(c) => pushed(q, c, m),
        None => q,
    }
}

impl ChatUIState {
    /// No table has two entries for a key.
    pub open spec fn wf(&self) -> bool {
        &&& self.client_status.wf()
        &&& self.server_client_map.wf()
        &&& self.chat_history.wf()
        &&& self.chat_type_map.wf()
        &&& self.client_server_codes.wf()
    }

    /// A window without clients and servers.
    pub fn new() -> (r: Self)
        ensures
            r.wf(),
            r@ == (ChatView {
                status: Map::empty(),
                servers: Seq::empty(),
                selected_client: None,
                selected_server: None,
                messages: Seq::empty(),
                input: Seq::empty(),
                chat: None,
                request: None,
                sender: None,
                logged: Map::empty(),
                history: Map::empty(),
                types: Map::empty(),
                pending_type: None,
                codes: Map::empty(),
                popup: None,
                show_upload: false,
                show_broadcast: false,
                show_history: false,
                download_input: Seq::empty(),
                download_note: None,
                history_client: Seq::empty(),
                history_target: Seq::empty(),
            }),
    {
        let r = ChatUIState {
            client_status: Table::new(),
            servers: Vec::new(),
            selected_client: None,
            selected_server: None,
            chat_messages: Vec::new(),
            chat_input: String::new(),
            active_chat_pair: None,
            pending_chat_request: None,
            selected_sender: None,
            server_client_map: Table::new(),
            chat_history: Table::new(),
            chat_type_map: Table::new(),
            pending_chat_type: None,
            client_server_codes: Table::new(),
            show_server_popup: None,
            show_upload_media_list: false,
            show_broadcast_list: false,
            show_history_popup: false,
            download_media_name_input: String::new(),
            download_result_message: None,
            history_client_id_input: String::new(),
            history_target_id_input: String::new(),
        };
        assert(r@.messages =~= Seq::empty());
        assert(r@.logged =~= Map::empty());
        assert(r@.history =~= Map::empty());
        assert(r@.codes =~= Map::empty());
        assert(r@.input =~= Seq::empty());
        assert(r@.download_input =~= Seq::empty());
        assert(r@.history_client =~= Seq::empty());
        assert(r@.history_target =~= Seq::empty());
        r
    }

    /// Lists the clients, all offline, and the servers.
    pub fn bootstrap(&mut self, clients: &Vec<NodeId>, servers: &Vec<NodeId>)
        requires
            old(self).wf(),
        ensures
            final(self).wf(),
            final(self)@ == (ChatView {
                status: all_offline(old(self)@.status, clients@),
                servers: servers@,
                ..old(self)@
            }),
    {
        let ghost a = self@;
        let mut i: usize = 0;
        assert(clients@.subrange(0, 0) =~= Seq::empty());
        while i < clients.len()
            invariant
                i <= clients@.len(),
                self.wf(),
                self@ == (ChatView {
                    status: all_offline(a.status, clients@.subrange(0, i as int)),
                    ..a
                }),
            decreases clients@.len() - i,
        {
            proof {
                let t = clients@.subrange(0, i + 1);
                assert(t.drop_last() =~= clients@.subrange(0, i as int));
                assert(t.last() == clients@[i as int]);
            }
            self.client_status.insert(clients[i], ClientStatus::Offline);
            i = i + 1;
            assert(self@ =~= ChatView {
                status: all_offline(a.status, clients@.subrange(0, i as int)),
                ..a
            });
        }
        assert(clients@.subrange(0, i as int) =~= clients@);
        self.servers = copy_ids(servers);
        assert(self@ =~= ChatView {
            status: all_offline(a.status, clients@),
            servers: servers@,
            ..a
        });
    }

    /// What a client is doing.
    pub fn status_of(&self, id: NodeId) -> (r: ClientStatus)
        requires
            self.wf(),
        ensures
            r == self@.status_of(id),
    {
        match self.client_status.get(&id) {
            Some(s) => *s,
            None => ClientStatus::Offline,
        }
    }

    /// The user picks a client.
    pub fn select_client(&mut self, id: NodeId)
        requires
            old(self).wf(),
        ensures
            final(self).wf(),
            final(self)@ == old(self)@.client_selected(id),
    {
        self.selected_client = Some(id);
        if self.active_chat_pair.is_none() {
            self.selected_server = None;
        }
    }

    /// The user picks a server.
    pub fn select_server(&mut self, id: NodeId)
        requires
            old(self).wf(),
        ensures
            final(self).wf(),
            final(self)@ == old(self)@.server_selected(id),
    {
        self.selected_server = Some(id);
        self.selected_client = None;
        self.show_broadcast_list = false;
    }

    /// The clients that are logged in at a server.
    pub fn clients_at(&self, server: NodeId) -> (r: Vec<NodeId>)
        requires
            self.wf(),
        ensures
            r@ == self@.clients_at(server),
    {
        match self.server_client_map.get(&server) {
            Some(v) => copy_ids(v),
            None => Vec::new(),
        }
    }

    /// Whether a client is logged in at a server.
    pub fn is_logged_in(&self, client: NodeId, server: NodeId) -> (r: bool)
        requires
            self.wf(),
        ensures
            r == self@.logged_at(client, server),
    {
        let v: Vec<NodeId> = self.clients_at(server);
        has_id(&v, client)
    }

    /// A client logs in at the server that was picked, with a code from a number drawn
    /// at random.
    pub fn login(&mut self, client: NodeId, drawn: u32, queue: &mut GuiQueue)
        requires
            old(self).wf(),
        ensures
            final(self).wf(),
            final(self)@ == old(self)@.logged_in(client, login_code(drawn)),
            final(queue)@ == (match old(self)@.selected_server {
                Some(s) => pushed(old(queue)@, client, "[Login]::"@ + decimal(s as nat)),
                None => old(queue)@,
            }),
    {
        let ghost a = self@;
        if let Some(server) = self.selected_server {
            self.client_status.insert(client, ClientStatus::Connected);
            let mut list: Vec<NodeId> = self.clients_at(server);
            list.push(client);
            self.server_client_map.insert(server, list);
            queue.push_gui_message(client, join2("[Login]::", id_text(server).as_str()));
            let code: String = code_text(drawn);
            self.client_server_codes.insert((client, server), code);
            proof {
                let want = a.logged_in(client, login_code(drawn));
                assert(self@.logged =~= want.logged);
                assert(self@.codes =~= want.codes);
                assert(self@ =~= want);
            }
        }
    }

    /// Some server that two clients are at.
    fn shared_server(&self, a: NodeId, b: NodeId) -> (r: Option<NodeId>)
        requires
            self.wf(),
        ensures
            match r {
                Some(s) => self@.both_at(a, b, s),
                None => forall|s: NodeId| !(#[trigger] self@.both_at(a, b, s)),
            },
    {
        let mut i: usize = 0;
        while i < 256
            invariant
                i <= 256,
                self.wf(),
                forall|s: NodeId| s < i ==> !(#[trigger] self@.both_at(a, b, s)),
            decreases 256 - i,
        {
            let s: NodeId = i as NodeId;
            if self.is_logged_in(a, s) && self.is_logged_in(b, s) {
                return Some(s);
            }
            i = i + 1;
        }
        None
    }

    /// Whether a client can ask another one for a chat.
    pub fn can_ask(&self, client: NodeId, other: NodeId) -> (r: bool)
        requires
            self.wf(),
        ensures
            r == self@.can_ask(client, other),
    {
        if other == client {
            return false;
        }
        let connected: bool = match self.client_status.get(&other) {
            Some(s) => *s == ClientStatus::Connected,
            None => false,
        };
        connected && self.shared_server(client, other).is_some()
    }

    /// A client asks another one for a chat.
    pub fn request_chat(&mut self, client: NodeId, peer: NodeId)
        requires
            old(self).wf(),
        ensures
            final(self).wf(),
            old(self)@.chat_asked(final(self)@, client, peer),
    {
        let ghost a = self@;
        if let Some(s) = self.shared_server(client, peer) {
            self.pending_chat_request = Some((client, peer));
            self.selected_client = Some(peer);
            self.selected_server = Some(s);
            assert(a.both_at(client, peer, s) && self@ == (ChatView {
                request: Some((client, peer)),
                selected_client: Some(peer),
                selected_server: Some(s),
                ..a
            }));
        }
    }

    /// Sends a request without arguments for the client that is picked.
    pub fn ask(&self, tag: &str, queue: &mut GuiQueue)
        ensures
            final(queue)@ == pushed_for(old(queue)@, self@.selected_client, tag@),
    {
        if let Some(client) = self.selected_client {
            queue.push_gui_message(client, tag.to_owned());
        }
    }

    /// Sends a media file for the client that is picked.
    pub fn send_media(&self, tag: &str, name: &str, bytes: &Vec<u8>, queue: &mut GuiQueue)
        ensures
            final(queue)@ == pushed_for(
                old(queue)@,
                self@.selected_client,
                upload_text(tag@, name@, bytes@),
            ),
    {
        if let Some(client) = self.selected_client {
            let m: String = media_message(tag, name, bytes);
            queue.push_gui_message(client, m);
        }
    }

    /// Sends a media file for the server that is picked.
    pub fn broadcast_media(&self, name: &str, bytes: &Vec<u8>, queue: &mut GuiQueue)
        ensures
            final(queue)@ == pushed_for(
                old(queue)@,
                self@.selected_server,
                upload_text("[MediaBroadcast]"@, name@, bytes@),
            ),
    {
        if let Some(server) = self.selected_server {
            let m: String = media_message("[MediaBroadcast]", name, bytes);
            queue.push_gui_message(server, m);
        }
    }

    /// Asks for the media file whose name was typed in.
    pub fn request_download(&mut self, queue: &mut GuiQueue)
        requires
            old(self).wf(),
        ensures
            final(self).wf(),
            final(self)@ == old(self)@.download_asked(),
            final(queue)@ == (if trim_both(old(self)@.download_input).len() > 0 {
                pushed_for(
                    old(queue)@,
                    old(self)@.selected_client,
                    "[MediaDownloadRequest]::"@ + trim_both(old(self)@.download_input),
                )
            } else {
                old(queue)@
            }),
    {
        let ghost a = self@;
        if let Some(client) = self.selected_client {
            let name: String = trim(self.download_media_name_input.as_str());
            if !same_text(name.as_str(), "") {
                proof {
                    reveal_strlit("");
                    assert(name@.len() > 0) by {
                        if name@.len() == 0 {
                            assert(name@ =~= ""@);
                        }
                    }
                }
                queue.push_gui_message(client, join2("[MediaDownloadRequest]::", name.as_str()));
                self.download_result_message = Some(join3("Requested \"", name.as_str(), "\""));
                self.download_media_name_input = String::new();
                assert(self@.download_input =~= Seq::empty());
                assert(self@ =~= a.download_asked());
            } else {
                proof {
                    reveal_strlit("");
                }
            }
        }
    }

    /// A client logs out.
    pub fn logout(&mut self, client: NodeId, queue: &mut GuiQueue)
        requires
            old(self).wf(),
        ensures
            final(self).wf(),
            old(self)@.logged_out(final(self)@, client),
            final(queue)@ == (if exists|s: NodeId| #[trigger] old(self)@.logged_at(client, s) {
                pushed(old(queue)@, client, "[Logout]"@)
            } else {
                old(queue)@
            }),
    {
        let ghost a = self@;
        if let Some(server) = self.shared_server(client, client) {
            assert(a.both_at(client, client, server));
            assert(a.logged_at(client, server));
            self.client_status.insert(client, ClientStatus::Offline);
            let list: Vec<NodeId> = self.clients_at(server);
            self.server_client_map.insert(server, remove_id(&list, client));
            if let Some((x, y)) = self.pending_chat_request {
                if x == client || y == client {
                    self.pending_chat_request = None;
                }
            }
            if let Some((x, y)) = self.active_chat_pair {
                if x == client || y == client {
                    self.active_chat_pair = None;
                }
            }
            if let Some(c) = self.selected_client {
                if c == client {
                    self.selected_client = None;
                }
            }
            self.selected_server = None;
            queue.push_gui_message(client, "[Logout]".to_owned());
            self.show_server_popup = None;
            self.show_upload_media_list = false;
            proof {
                let want = a.logged_out_from(client, server);
                assert(self@.logged =~= want.logged);
                assert(self@ =~= want);
            }
        } else {
            assert forall|s: NodeId| !(#[trigger] a.logged_at(client, s)) by {
                assert(!a.both_at(client, client, s));
            }
        }
    }

    /// Ends the chat.
    pub fn end_chat(&mut self, queue: &mut GuiQueue)
        requires
            old(self).wf(),
        ensures
            final(self).wf(),
            final(self)@ == old(self)@.chat_ended(),
            final(queue)@ == (match (old(self)@.chat, old(self)@.selected_server) {
                (Some((a, b)), Some(_)) => pushed(
                    pushed(old(queue)@, a, "[ChatFinish]::"@ + decimal(b as nat)),
                    b,
                    "[ChatFinish]::"@ + decimal(a as nat),
                ),
                _ => old(queue)@,
            }),
    {
        let ghost v = self@;
        if let Some((a, b)) = self.active_chat_pair {
            if self.selected_server.is_some() {
                queue.push_gui_message(a, join2("[ChatFinish]::", id_text(b).as_str()));
                queue.push_gui_message(b, join2("[ChatFinish]::", id_text(a).as_str()));
            }
            let key: (NodeId, NodeId) = ordered_pair(a, b);
            let temporary: bool = match self.chat_type_map.get(&key) {
                Some(t) => *t == ChatType::Temporary,
                None => false,
            };
            if temporary {
                self.chat_messages = Vec::new();
                assert(self@.messages =~= Seq::empty());
            }
            self.chat_type_map.remove(&key);
            self.client_status.insert(a, ClientStatus::Connected);
            self.client_status.insert(b, ClientStatus::Connected);
            self.active_chat_pair = None;
            self.pending_chat_request = None;
            assert(self@ =~= v.chat_ended());
        }
    }

    /// The client that was asked accepts the chat.
    pub fn accept(&mut self, queue: &mut GuiQueue)
        requires
            old(self).wf(),
        ensures
            final(self).wf(),
            final(self)@ == old(self)@.accepted(),
            final(queue)@ == (match old(self)@.request {
                Some((requester, target)) => if old(self)@.answerable() {
                    pushed(old(queue)@, requester, "[ChatRequest]::"@ + decimal(target as nat))
                } else {
                    old(queue)@
                },
                None => old(queue)@,
            }),
    {
        let ghost v = self@;
        if let Some((requester, target)) = self.pending_chat_request {
            if self.is_selected(target) {
                let chat_type: ChatType = match self.pending_chat_type {
                    Some(t) => t,
                    None => ChatType::Normal,
                };
                let key: (NodeId, NodeId) = ordered_pair(requester, target);
                self.chat_type_map.insert(key, chat_type);
                self.client_status.insert(requester, ClientStatus::Chatting(target));
                self.client_status.insert(target, ClientStatus::Chatting(requester));
                self.active_chat_pair = Some((requester, target));
                self.selected_sender = Some(target);
                self.pending_chat_request = None;
                self.pending_chat_type = None;
                if chat_type == ChatType::Temporary {
                    self.chat_messages = Vec::new();
                    assert(self@.messages =~= Seq::empty());
                } else {
                    self.chat_messages = self.kept_messages(key);
                }
                queue.push_gui_message(
                    requester,
                    join2("[ChatRequest]::", id_text(target).as_str()),
                );
                assert(self@ =~= v.accepted());
            }
        }
    }

    fn is_selected(&self, id: NodeId) -> (r: bool)
        ensures
            r == (self@.selected_client == Some(id)),
    {
        match self.selected_client {
            Some(c) => c == id,
            None => false,
        }
    }

    /// The messages that were kept for two clients.
    fn kept_messages(&self, key: (NodeId, NodeId)) -> (r: Vec<ChatMessage>)
        requires
            self.wf(),
        ensures
            messages(r@) == self@.kept(key),
    {
        let mut r: Vec<ChatMessage> = Vec::new();
        assert(messages(r@) =~= Seq::empty());
        if let Some(v) = self.chat_history.get(&key) {
            assert(self@.kept(key) == messages(v@));
            let mut i: usize = 0;
            while i < v.len()
                invariant
                    i <= v@.len(),
                    messages(r@) == messages(v@).subrange(0, i as int),
                decreases v@.len() - i,
            {
                let ghost before = messages(r@);
                let m = ChatMessage { from: v[i].from, content: v[i].content.as_str().to_owned() };
                let ghost mv = m@;
                assert(mv == messages(v@)[i as int]);
                r.push(m);
                assert(messages(r@) =~= before.push(mv));
                i = i + 1;
                assert(messages(r@) =~= messages(v@).subrange(0, i as int));
            }
            assert(messages(r@) =~= messages(v@));
        }
        r
    }

    /// The client that was asked declines the chat.
    pub fn decline(&mut self)
        requires
            old(self).wf(),
        ensures
            final(self).wf(),
            final(self)@ == old(self)@.declined(),
    {
        if let Some((_, target)) = self.pending_chat_request {
            if self.is_selected(target) {
                self.pending_chat_request = None;
            }
        }
    }

    /// Sends the message that was typed in.
    pub fn send_message(&mut self, queue: &mut GuiQueue)
        requires
            old(self).wf(),
        ensures
            final(self).wf(),
            final(self)@ == old(self)@.message_sent(),
            final(queue)@ == (if old(self)@.can_send() {
                pushed(
                    old(queue)@,
                    old(self)@.sender->0,
                    "[MessageTo]::"@ + decimal(old(self)@.receiver() as nat) + ("::"@ + old(
                        self,
                    )@.input),
                )
            } else {
                old(queue)@
            }),
    {
        let ghost v = self@;
        if let Some((a, b)) = self.active_chat_pair {
            if let Some(from) = self.selected_sender {
                let to: NodeId = if from == a {
                    b
                } else {
                    a
                };
                let trimmed: String = trim(self.chat_input.as_str());
                proof {
                    reveal_strlit("");
                    if trimmed@.len() == 0 {
                        assert(trimmed@ =~= ""@);
                    }
                }
                if !same_text(trimmed.as_str(), "") {
                    let content: String = self.chat_input.as_str().to_owned();
                    let ghost m = (from, content@);
                    let ghost before = self.chat_messages@;
                    self.chat_messages.push(
                        ChatMessage { from, content: content.as_str().to_owned() },
                    );
                    assert(messages(self.chat_messages@) =~= messages(before).push(m));
                    let key: (NodeId, NodeId) = ordered_pair(from, to);
                    let normal: bool = match self.chat_type_map.get(&key) {
                        Some(t) => *t == ChatType::Normal,
                        None => false,
                    };
                    if normal {
                        let mut list: Vec<ChatMessage> = match self.chat_history.remove(&key) {
                            Some(l) => l,
                            None => {
                                let none: Vec<ChatMessage> = Vec::new();
                                assert(messages(none@) =~= Seq::empty());
                                none
                            },
                        };
                        let ghost kept = list@;
                        assert(messages(kept) == v.kept(key));
                        list.push(ChatMessage { from, content: content.as_str().to_owned() });
                        assert(messages(list@) =~= messages(kept).push(m));
                        self.chat_history.insert(key, list);
                    }
                    let tail: String = join2("::", content.as_str());
                    queue.push_gui_message(
                        from,
                        join3("[MessageTo]::", id_text(to).as_str(), tail.as_str()),
                    );
                    self.chat_input = String::new();
                    proof {
                        let want = v.message_sent();
                        assert(self@.input =~= Seq::empty());
                        assert(self@.history =~= want.history);
                        assert(self@ =~= want);
                    }
                }
            }
        }
    }

    /// Opens the window that asks for a chat record.
    pub fn open_history(&mut self)
        requires
            old(self).wf(),
        ensures
            final(self).wf(),
            final(self)@ == (ChatView {
                show_history: true,
                history_client: Seq::empty(),
                history_target: Seq::empty(),
                ..old(self)@
            }),
    {
        self.show_history_popup = true;
        self.history_client_id_input = String::new();
        self.history_target_id_input = String::new();
        assert(self@ =~= ChatView {
            show_history: true,
            history_client: Seq::empty(),
            history_target: Seq::empty(),
            ..old(self)@
        });
    }

    /// Asks for a chat record.
    pub fn request_history(&mut self, queue: &mut GuiQueue)
        requires
            old(self).wf(),
        ensures
            final(self).wf(),
            if old(self)@.history_askable() {
                let a = id_number(old(self)@.history_client)->0;
                let b = id_number(old(self)@.history_target)->0;
                &&& final(self)@ == (ChatView { show_history: false, ..old(self)@ })
                &&& final(queue)@ == pushed(
                    old(queue)@,
                    a,
                    "[HistoryRequest]::"@ + decimal(a as nat) + ("::"@ + decimal(b as nat)),
                )
            } else {
                final(self)@ == old(self)@ && final(queue)@ == old(queue)@
            },
    {
        if self.selected_server.is_none() {
            return;
        }
        if let Some(a) = parse_id(self.history_client_id_input.as_str()) {
            if let Some(b) = parse_id(self.history_target_id_input.as_str()) {
                let tail: String = join2("::", id_text(b).as_str());
                queue.push_gui_message(
                    a,
                    join3("[HistoryRequest]::", id_text(a).as_str(), tail.as_str()),
                );
                self.show_history_popup = false;
            }
        }
    }
}

/// The clients of a list are offline.
pub open spec fn all_offline(m: Map<NodeId, ClientStatus>, clients: Seq<NodeId>) -> Map<
    NodeId,
    ClientStatus,
>
    decreases clients.len(),
{
    if clients.len() == 0 {
        m
    } else {
        all_offline(m, clients.drop_last()).insert(clients.last(), ClientStatus::Offline)
    }
}

pub proof fn lemma_decimal_short(n: nat, k: nat, bound: nat)
    requires
        n < bound,
        bound == (if k == 1 {
            10nat
        } else if k == 2 {
            100nat
        } else if k == 3 {
            1000nat
        } else if k == 4 {
            10_000nat
        } else if k == 5 {
            100_000nat
        } else {
            1_000_000nat
        }),
        1 <= k <= 6,
    ensures
        1 <= decimal(n).len() <= k,
    decreases k,
{
    if n >= 10 {
        let smaller: nat = if k == 2 {
            10
        } else if k == 3 {
            100
        } else if k == 4 {
            1000
        } else if k == 5 {
            10_000
        } else {
            100_000
        };
        lemma_decimal_short(n / 10, (k - 1) as nat, smaller);
    }
}

/// The code that a number drawn at random gives.
pub fn code_text(drawn: u32) -> (r: String)
    ensures
        r@ == login_code(drawn),
{
    let n: u32 = drawn % 1_000_000;
    proof {
        lemma_decimal_short(n as nat, 6, 1_000_000);
    }
    let digits: String = decimal_text(n as u64);
    let missing: usize = 6 - digits.as_str().unicode_len();
    let mut r: String = String::new();
    let mut i: usize = 0;
    assert(r@ =~= zero_chars(0));
    while i < missing
        invariant
            i <= missing,
            r@ == zero_chars(i as nat),
        decreases missing - i,
    {
        r.append("0");
        proof {
            reveal_strlit("0");
        }
        i = i + 1;
        assert(r@ =~= zero_chars(i as nat));
    }
    r.append(digits.as_str());
    r
}

/// The number of bytes that a character takes.
pub open spec fn char_bytes(c: char) -> nat {
    let n = c as u32;
    if n < 0x80 {
        1
    } else if n < 0x800 {
        2
    } else if n < 0x1_0000 {
        3
    } else {
        4
    }
}

/// The number of bytes that a text takes.
pub open spec fn text_bytes(s: Seq<char>) -> nat
    decreases s.len(),
{
    if s.len() == 0 {
        0
    } else {
        text_bytes(s.drop_last()) + char_bytes(s.last())
    }
}

/// The first `k` characters of a text take `n` bytes.
pub open spec fn takes(s: Seq<char>, k: int, n: nat) -> bool {
    0 <= k <= s.len() && text_bytes(s.subrange(0, k)) == n
}

/// The smaller one of five and the number of bytes of a text.
pub open spec fn up_to_five(s: Seq<char>) -> nat {
    if text_bytes(s) < 5 {
        text_bytes(s)
    } else {
        5
    }
}

/// The number of bytes that the preview of a message shows of the media that it carries,
/// and the tag of the message; none where it carries no media.
pub open spec fn preview_size(m: Seq<char>) -> Option<(Seq<char>, nat)> {
    let p = parts(m, 3);
    if p.len() != 3 {
        None
    } else if begins_with(m, "[MediaBroadcast]:"@) {
        Some(("[MediaBroadcast]"@, up_to_five(p[1])))
    } else if begins_with(m, "[MediaUpload]:"@) {
        Some(("[MediaUpload]"@, up_to_five(p[2])))
    } else {
        None
    }
}

/// A message can be shown: what is shown of media ends between two characters.
pub open spec fn previewable(m: Seq<char>) -> bool {
    match preview_size(m) {
        Some((_, n)) => exists|k: int| #[trigger] takes(parts(m, 3)[2], k, n),
        None => true,
    }
}

/// `r` shows a tag, a name and the first `n` bytes of some data.
pub open spec fn shows(
    r: Seq<char>,
    tag: Seq<char>,
    name: Seq<char>,
    data: Seq<char>,
    n: nat,
) -> bool {
    exists|k: int| #[trigger]
        takes(data, k, n) && r == tag + "::"@ + name + ("::"@ + data.subrange(0, k) + "..."@)
}

/// `r` is what is shown of a message.
pub open spec fn previewed(m: Seq<char>, r: Seq<char>) -> bool {
    let p = parts(m, 3);
    match preview_size(m) {
        Some((tag, n)) => shows(r, tag, p[1], p[2], n),
        None => r == m,
    }
}

/// The number of bytes that a text takes, as far as it is below some bound.
fn bytes_up_to(c: &Vec<char>, bound: usize) -> (r: usize)
    requires
        bound <= 100,
    ensures
        r == (if text_bytes(c@) < bound {
            text_bytes(c@)
        } else {
            bound as nat
        }),
{
    let mut n: usize = 0;
    let mut i: usize = 0;
    assert(c@.subrange(0, 0) =~= Seq::empty());
    while i < c.len()
        invariant
            i <= c@.len(),
            bound <= 100,
            n == text_bytes(c@.subrange(0, i as int)),
            n <= bound + 4,
        decreases c@.len() - i,
    {
        if n >= bound {
            proof {
                lemma_bytes_grow(c@, i as int, c@.len() as int);
                assert(c@.subrange(0, c@.len() as int) =~= c@);
            }
            return bound;
        }
        proof {
            let t = c@.subrange(0, i + 1);
            assert(t.drop_last() =~= c@.subrange(0, i as int));
            assert(t.last() == c@[i as int]);
        }
        n = n + bytes_of(c[i]);
        i = i + 1;
    }
    assert(c@.subrange(0, i as int) =~= c@);
    if n < bound {
        n
    } else {
        bound
    }
}

fn bytes_of(c: char) -> (r: usize)
    ensures
        r == char_bytes(c),
        r <= 4,
{
    let n: u32 = c as u32;
    if n < 0x80 {
        1
    } else if n < 0x800 {
        2
    } else if n < 0x1_0000 {
        3
    } else {
        4
    }
}

proof fn lemma_bytes_grow(s: Seq<char>, i: int, j: int)
    requires
        0 <= i <= j <= s.len(),
    ensures
        text_bytes(s.subrange(0, i)) <= text_bytes(s.subrange(0, j)),
        i < j ==> text_bytes(s.subrange(0, i)) < text_bytes(s.subrange(0, j)),
    decreases j - i,
{
    if i < j {
        lemma_bytes_grow(s, i, j - 1);
        let t = s.subrange(0, j);
        assert(t.drop_last() =~= s.subrange(0, j - 1));
    }
}

/// The number of characters at the beginning of a text that take `n` bytes.
fn cut_at(c: &Vec<char>, n: usize) -> (r: Option<usize>)
    requires
        n <= 100,
    ensures
        match r {
            Some(k) => takes(c@, k as int, n as nat),
            None => forall|k: int| !(#[trigger] takes(c@, k, n as nat)),
        },
{
    let mut used: usize = 0;
    let mut i: usize = 0;
    assert(c@.subrange(0, 0) =~= Seq::empty());
    loop
        invariant
            i <= c@.len(),
            n <= 100,
            used <= n + 4,
            used == text_bytes(c@.subrange(0, i as int)),
            forall|k: int| 0 <= k < i ==> !(#[trigger] takes(c@, k, n as nat)),
        decreases c@.len() - i,
    {
        if used == n {
            assert(takes(c@, i as int, n as nat));
            return Some(i);
        }
        if used > n || i == c.len() {
            proof {
                assert forall|k: int| !(#[trigger] takes(c@, k, n as nat)) by {
                    if i <= k <= c@.len() {
                        lemma_bytes_grow(c@, i as int, k);
                    }
                }
            }
            return None;
        }
        proof {
            let t = c@.subrange(0, i + 1);
            assert(t.drop_last() =~= c@.subrange(0, i as int));
            assert(t.last() == c@[i as int]);
            assert(!takes(c@, i as int, n as nat));
        }
        used = used + bytes_of(c[i]);
        i = i + 1;
    }
}

/// What is shown of a message, where it can be shown.
pub fn preview(message: &str) -> (r: Option<String>)
    ensures
        match r {
            Some(t) => previewed(message@, t@),
            None => !previewable(message@),
        },
{
    let p: Vec<String> = split_parts(message, 3);
    let ghost all = parts(message@, 3);
    proof {
        assert forall|i: int| 0 <= i < p@.len() implies #[trigger] p@[i]@ == all[i] by {
            assert(texts(p@)[i] == p@[i]@);
        }
    }
    if p.len() != 3 {
        return Some(message.to_owned());
    }
    let broadcast: bool = starts_with(message, "[MediaBroadcast]:");
    let upload: bool = starts_with(message, "[MediaUpload]:");
    if !broadcast && !upload {
        return Some(message.to_owned());
    }
    let name: Vec<char> = chars_of(p[1].as_str());
    let data: Vec<char> = chars_of(p[2].as_str());
    let n: usize = if broadcast {
        bytes_up_to(&name, 5)
    } else {
        bytes_up_to(&data, 5)
    };
    let tag: &str = if broadcast {
        "[MediaBroadcast]"
    } else {
        "[MediaUpload]"
    };
    assert(preview_size(message@) == Some((tag@, n as nat)));
    match cut_at(&data, n) {
        Some(k) => {
            let shown: String = slice_text(p[2].as_str(), 0, k);
            let tail: String = join3("::", shown.as_str(), "...");
            let head: String = join3(tag, "::", p[1].as_str());
            let r: String = join2(head.as_str(), tail.as_str());
            assert(data@ == all[2]);
            assert(takes(all[2], k as int, n as nat) && r@ == tag@ + "::"@ + all[1] + ("::"@
                + all[2].subrange(0, k as int) + "..."@));
            assert(shows(r@, tag@, all[1], all[2], n as nat));
            Some(r)
        },
        None => None,
    }
}

/// The extensions of picture files.
pub open spec fn picture_extension(ext: Seq<char>) -> bool {
    let e = lowered(ext);
    e == "jpg"@ || e == "jpeg"@ || e == "png"@
}

/// Whether a file extension is that of a picture.
pub fn is_picture_extension(ext: &str) -> (r: bool)
    ensures
        r == picture_extension(ext@),
{
    let e: String = ext.to_lowercase();
    same_text(e.as_str(), "jpg") || same_text(e.as_str(), "jpeg") || same_text(e.as_str(), "png")
}

/// A chat that is accepted and ended leaves both clients connected and nobody chatting.
pub proof fn law_an_ended_chat_leaves_both_connected(v: ChatView)
    requires
        v.answerable(),
    ensures
        ({
            let w = v.accepted().chat_ended();
            let p = v.request->0;
            &&& w.status_of(p.0) == ClientStatus::Connected
            &&& w.status_of(p.1) == ClientStatus::Connected
            &&& w.chat is None
            &&& w.request is None
            &&& !w.types.contains_key(pair(p.0, p.1))
        }),
{
}

/// A temporary chat keeps nothing: its messages are gone when it ends, and the records
/// are as before.
pub proof fn law_temporary_chats_leave_no_trace(v: ChatView)
    requires
        v.answerable(),
        v.chosen_type() == ChatType::Temporary,
    ensures
        v.accepted().message_sent().chat_ended().messages == Seq::<MessageView>::empty(),
        v.accepted().message_sent().chat_ended().history == v.history,
{
    let p = v.request->0;
    let w = v.accepted();
    assert(w.types[pair(p.0, p.1)] == ChatType::Temporary);
    assert(w.sender == Some(p.1));
    assert(pair(p.1, w.receiver()) == pair(p.0, p.1) || w.receiver() == p.1);
}

/// A normal chat is kept: a message that was sent is shown again when the two clients
/// chat once more.
pub proof fn law_normal_chats_are_kept(v: ChatView)
    requires
        v.answerable(),
        v.chosen_type() == ChatType::Normal,
        ({
            let p = v.request->0;
            p.0 != p.1
        }),
        trim_both(v.input).len() > 0,
    ensures
        ({
            let p = v.request->0;
            let key = pair(p.0, p.1);
            v.accepted().message_sent().chat_ended().kept(key) == v.kept(key).push(
                (p.1, v.input),
            )
        }),
{
}

/// A client that logs in and out again is offline, and a server that it was not at
/// before has the clients that it had.
pub proof fn law_logging_out_undoes_logging_in(v: ChatView, client: NodeId, code: Seq<char>, s: NodeId)
    requires
        v.selected_server == Some(s),
        !v.logged_at(client, s),
    ensures
        v.logged_in(client, code).logged_at(client, s),
        v.logged_in(client, code).logged_out_from(client, s).clients_at(s) == v.clients_at(s),
        v.logged_in(client, code).logged_out_from(client, s).status_of(client)
            == ClientStatus::Offline,
{
    let list = v.clients_at(s);
    let longer = list.push(client);
    assert(longer[list.len() as int] == client);
    reveal(Seq::filter);
    assert(longer.drop_last() =~= list);
    lemma_absent(list, client);
}

/// Removing what is not there changes nothing.
proof fn lemma_absent(v: Seq<NodeId>, id: NodeId)
    requires
        !v.contains(id),
    ensures
        without_id(v, id) == v,
    decreases v.len(),
{
    reveal(Seq::filter);
    if v.len() > 0 {
        assert(v[v.len() - 1] != id);
        assert forall|x: NodeId| v.drop_last().contains(x) implies v.contains(x) by {
            let k = v.drop_last().index_of(x);
            assert(v[k] == x);
        }
        lemma_absent(v.drop_last(), id);
        assert(v.drop_last().push(v.last()) =~= v);
    } else {
        assert(without_id(v, id) =~= v);
    }
}

}
