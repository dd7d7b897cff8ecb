//! What the server does with the messages of its clients.
use crate::chat_log::{
    chat_entry, entry_of, json_record, ordered_pair, pair, read_record, record, record_json,
    recorded, text_view, write_record,
};
use crate::journal::all_lines;
use crate::known_network::ids_view;
use crate::packet::{
    has_id, outbox, remove_id, without_id, NodeId, NodeType, Outgoing, OutgoingView,
};
use crate::server::{after_search, all_sent, chat_sent, messages_of, server, ServerView};
use crate::text::{
    decimal, decimal_text, id_number, id_text, join3, join_with, joined_with, parse_id, parts,
    same_text, split_parts, texts, trim, trim_both,
};
use vstd::prelude::*;
use vstd::string::*;

verus! {

/// The names of a set, each one once, in some order.
pub open spec fn is_order<A>(names: Seq<A>, all: Set<A>) -> bool {
    names.no_duplicates() && names.to_set() == all
}

/// A list of ids as text.
pub open spec fn ids_text(ids: Seq<NodeId>) -> Seq<char> {
    "["@ + joined_with(ids.map_values(|id: NodeId| decimal(id as nat)), ", "@) + "]"@
}

/// A tag with a text behind it.
pub open spec fn tagged(tag: Seq<char>, text: Seq<char>) -> Seq<char> {
    tag + "::"@ + text
}

/// A tag with two texts behind it.
pub open spec fn tagged2(tag: Seq<char>, a: Seq<char>, b: Seq<char>) -> Seq<char> {
    tag + "::"@ + (a + "::"@ + b)
}

/// The same text for every client of a list but one.
pub open spec fn broadcast(clients: Seq<NodeId>, but: NodeId, text: Seq<char>) -> Seq<
    (NodeId, Seq<char>),
> {
    without_id(clients, but).map_values(|id: NodeId| (id, text))
}

impl ServerView {
    /// A login that registers a client.
    pub open spec fn registers(self, client: NodeId, t: Seq<Seq<char>>) -> bool {
        id_number(t[1]) == Some(self.id) && !self.clients.contains(client)
    }

    /// The record of two clients, or an empty one.
    pub open spec fn record_of(self, k: (u8, u8)) -> Seq<Seq<char>> {
        if self.history.contains_key(k) {
            self.history[k]
        } else {
            Seq::empty()
        }
    }

    /// What a client sees of a chat record.
    pub open spec fn history_text(self, k: (u8, u8)) -> Seq<char> {
        if self.history.contains_key(k) {
            joined_with(self.history[k], "\n"@)
        } else {
            "No history available"@
        }
    }

    /// What a client gets of a media file.
    pub open spec fn download_text(self, name: Seq<char>) -> Seq<char> {
        if self.media.contains_key(name) {
            tagged2("[MediaDownloadResponse]"@, name, self.media[name].1)
        } else {
            "[MediaDownloadResponse]::ERROR::NotFound"@
        }
    }

    /// The server after a message of a client.
    pub open spec fn updated(self, client: NodeId, t: Seq<Seq<char>>) -> ServerView {
        if t.len() == 2 && t[0] == "[Login]"@ {
            if self.registers(client, t) {
                ServerView { clients: self.clients.push(client), ..self }
            } else {
                self
            }
        } else if t.len() == 2 && t[0] == "[ChatRequest]"@ {
            match id_number(t[1]) {
                Some(x) => {
                    let k = pair(client, x);
                    ServerView { history: self.history.insert(k, self.record_of(k)), ..self }
                },
                None => self,
            }
        } else if t.len() == 3 && t[0] == "[MessageTo]"@ {
            match id_number(t[1]) {
                Some(x) => if self.clients.contains(x) {
                    let k = pair(client, x);
                    ServerView {
                        history: self.history.insert(
                            k,
                            recorded(
                                self.record_of(k),
                                entry_of(decimal(client as nat), t[2]),
                            ),
                        ),
                        ..self
                    }
                } else {
                    self
                },
                None => self,
            }
        } else if t.len() == 3 && t[0] == "[ChatHistoryUpdate]"@ {
            match json_record(t[2]) {
                Some((k, h)) => ServerView { history: self.history.insert(k, h), ..self },
                None => self,
            }
        } else if t.len() == 3 && (t[0] == "[MediaUpload]"@ || t[0] == "[MediaBroadcast]"@) {
            ServerView { media: self.media.insert(t[1], (client, t[2])), ..self }
        } else if t.len() == 1 && t[0] == "[Logout]"@ {
            ServerView { clients: without_id(self.clients, client), ..self }
        } else {
            self
        }
    }

    /// The messages that answer a message of a client, but for a list of media.
    pub open spec fn replies(self, client: NodeId, session: u64, t: Seq<Seq<char>>) -> Seq<
        (NodeId, Seq<char>),
    > {
        if t.len() == 2 && t[0] == "[Login]"@ {
            if self.registers(client, t) {
                seq![(client, tagged("[LoginAck]"@, decimal(session as nat)))]
            } else {
                Seq::empty()
            }
        } else if t.len() == 1 && t[0] == "[ClientListRequest]"@ {
            seq![(client, tagged("[ClientListResponse]"@, ids_text(self.clients)))]
        } else if t.len() == 2 && t[0] == "[ChatRequest]"@ {
            match id_number(t[1]) {
                Some(x) => seq![
                    (
                        client,
                        tagged(
                            "[ChatStart]"@,
                            if self.clients.contains(x) {
                                "true"@
                            } else {
                                "false"@
                            },
                        ),
                    ),
                ],
                None => Seq::empty(),
            }
        } else if t.len() == 3 && t[0] == "[MessageTo]"@ {
            match id_number(t[1]) {
                Some(x) => if self.clients.contains(x) {
                    seq![(x, tagged2("[MessageFrom]"@, decimal(client as nat), t[2]))]
                } else {
                    seq![(client, "error_wrong_client_id!"@)]
                },
                None => Seq::empty(),
            }
        } else if t.len() == 3 && t[0] == "[HistoryRequest]"@ {
            match id_number(t[2]) {
                Some(c2) => {
                    let c1 = match id_number(t[1]) {
                        Some(x) => x,
                        None => client,
                    };
                    seq![
                        (client, tagged("[HistoryResponse]"@, self.history_text(pair(c1, c2)))),
                    ]
                },
                None => Seq::empty(),
            }
        } else if t.len() == 3 && t[0] == "[MediaUpload]"@ {
            seq![(client, tagged("[MediaUploadAck]"@, t[1]))]
        } else if t.len() == 2 && t[0] == "[MediaDownloadRequest]"@ {
            seq![(client, self.download_text(t[1]))]
        } else if t.len() == 3 && t[0] == "[MediaBroadcast]"@ {
            broadcast(
                self.clients,
                client,
                tagged2("[MediaDownloadResponse]"@, t[1], t[2]),
            ).push((client, tagged2("[MediaBroadcastAck]"@, t[1], "Broadcasted"@)))
        } else {
            Seq::empty()
        }
    }

    /// `list` holds the messages that answer a message of a client. The names in a
    /// list of media come in some order.
    pub open spec fn replies_are(
        self,
        client: NodeId,
        session: u64,
        t: Seq<Seq<char>>,
        list: Seq<(NodeId, Seq<char>)>,
    ) -> bool {
        if t.len() == 1 && t[0] == "[MediaListRequest]"@ {
            exists|names: Seq<Seq<char>>|
                {
                    &&& #[trigger] is_order(names, self.media.dom())
                    &&& list == seq![
                        (client, tagged("[MediaListResponse]"@, joined_with(names, ","@))),
                    ]
                }
        } else {
            list == self.replies(client, session, t)
        }
    }

    /// The record that a finished chat hands on to the other servers.
    pub open spec fn record_to_spread(self, client: NodeId, t: Seq<Seq<char>>) -> Option<Seq<char>> {
        if t.len() == 2 && t[0] == "[ChatFinish]"@ {
            match id_number(t[1]) {
                Some(x) => {
                    let k = pair(client, x);
                    if self.history.contains_key(k) {
                        record_json(k.0, k.1, self.history[k])
                    } else {
                        None
                    }
                },
                None => None,
            }
        } else {
            None
        }
    }

    /// What is handed on of a finished chat reads back as the record of the two clients.
    pub open spec fn reads_back(self, client: NodeId, t: Seq<Seq<char>>, json: Seq<char>) -> bool {
        match id_number(t[1]) {
            Some(x) => {
                let k = pair(client, x);
                json_record(json) == Some((k, self.record_of(k)))
            },
            None => false,
        }
    }

    /// The other servers that are known.
    pub open spec fn other_servers(self) -> Set<NodeId> {
        Set::new(
            |id: NodeId|
                id != self.id && self.net.types.contains_key(id) && self.net.types[id]
                    == NodeType::Server,
        )
    }
}

/// A message has gone to another server, where there is a route; `told` says whether
/// there is one.
pub open spec fn spread_to(
    a: ServerView,
    b: ServerView,
    session: u64,
    to: NodeId,
    text: Seq<char>,
    added: Seq<OutgoingView>,
    told: bool,
) -> bool {
    exists|path: Option<Seq<NodeId>>|
        {
            &&& #[trigger] a.net.best_path_is(a.id, to, a.known_channels(), path)
            &&& told == (path is Some)
            &&& match path {
                Some(_) => chat_sent(after_search(a, to), b, session, to, text, added),
                None => b == after_search(a, to) && added == Seq::<OutgoingView>::empty(),
            }
        }
}

/// A message has gone to other servers, one after the other; `told` are those to which
/// there is a route.
pub open spec fn spread_to_all(
    a: ServerView,
    b: ServerView,
    session: u64,
    servers: Seq<NodeId>,
    text: Seq<char>,
    added: Seq<OutgoingView>,
    told: Seq<NodeId>,
) -> bool
    decreases servers.len(),
{
    if servers.len() == 0 {
        b == a && added == Seq::<OutgoingView>::empty() && told == Seq::<NodeId>::empty()
    } else {
        exists|m: ServerView, cut: int, last: bool|
            {
                &&& 0 <= cut <= added.len()
                &&& last ==> told.len() > 0 && told.last() == servers.last()
                &&& spread_to_all(
                    a,
                    m,
                    session,
                    servers.drop_last(),
                    text,
                    added.subrange(0, cut),
                    if last {
                        told.drop_last()
                    } else {
                        told
                    },
                )
                &&& #[trigger] spread_to(
                    m,
                    b,
                    session,
                    servers.last(),
                    text,
                    added.subrange(cut, added.len() as int),
                    last,
                )
            }
    }
}

/// The record of a finished chat has gone to the other servers, in some order; `told`
/// are those to which there is a route.
pub open spec fn record_spread(
    a: ServerView,
    b: ServerView,
    session: u64,
    json: Seq<char>,
    added: Seq<OutgoingView>,
    told: Seq<NodeId>,
) -> bool {
    exists|servers: Seq<NodeId>|
        {
            &&& is_order(servers, a.other_servers())
            &&& #[trigger] spread_to_all(
                a,
                b,
                session,
                servers,
                tagged2("[ChatHistoryUpdate]"@, decimal(a.id as nat), json),
                added,
                told,
            )
        }
}

/// A message of a client has been handled: the server is brought up to date, and
/// the answers are sent. A finished chat goes to the other servers, in some order.
/// `lines` go to the simulation log.
pub open spec fn message_handled(
    a: ServerView,
    b: ServerView,
    client: NodeId,
    session: u64,
    text: Seq<char>,
    added: Seq<OutgoingView>,
    lines: Seq<Seq<char>>,
) -> bool {
    let t = parts(trim_both(text), 3);
    match a.record_to_spread(client, t) {
        Some(json) => a.reads_back(client, t, json) && exists|told: Seq<NodeId>|
            {
                &&& #[trigger] record_spread(a, b, session, json, added, told)
                &&& lines == a.message_lines(client, session, t, told)
            },
        None => lines == a.message_lines(client, session, t, Seq::empty())
            && exists|list: Seq<(NodeId, Seq<char>)>|
            {
                &&& a.replies_are(client, session, t, list)
                &&& #[trigger] all_sent(a.updated(client, t), b, session, list, added)
            },
    }
}

fn tag1(tag: &str, text: &str) -> (r: String)
    ensures
        r@ == tagged(tag@, text@),
{
    join3(tag, "::", text)
}

fn tag2(tag: &str, a: &str, b: &str) -> (r: String)
    ensures
        r@ == tagged2(tag@, a@, b@),
{
    let rest: String = join3(a, "::", b);
    join3(tag, "::", rest.as_str())
}

/// A list of ids as text.
pub fn id_list_text(ids: &Vec<NodeId>) -> (r: String)
    ensures
        r@ == ids_text(ids@),
{
    let mut v: Vec<String> = Vec::new();
    let mut i: usize = 0;
    while i < ids.len()
        invariant
            i <= ids@.len(),
            v@.len() == i,
            forall|j: int| 0 <= j < i ==> (#[trigger] v@[j])@ == decimal(ids@[j] as nat),
        decreases ids@.len() - i,
    {
        v.push(id_text(ids[i]));
        i = i + 1;
    }
    assert(texts(v@) =~= ids@.map_values(|id: NodeId| decimal(id as nat)));
    let inner: String = join_with(&v, ", ");
    join3("[", inner.as_str(), "]")
}

fn one(to: NodeId, text: String) -> (r: Vec<(NodeId, String)>)
    ensures
        messages_of(r@) == seq![(to, text@)],
{
    let mut r: Vec<(NodeId, String)> = Vec::new();
    r.push((to, text));
    assert(messages_of(r@) =~= seq![(to, text@)]);
    r
}

impl server {
    /// The names of the media, each one once.
    fn media_names(&self) -> (r: Vec<String>)
        requires
            self.wf(),
        ensures
            is_order(texts(r@), self@.media.dom()),
    {
        let n: usize = self.media_storage.count();
        let mut r: Vec<String> = Vec::new();
        let mut i: usize = 0;
        while i < n
            invariant
                n == self.media_storage.size(),
                i <= n,
                r@.len() == i,
                forall|j: int| 0 <= j < i ==> (#[trigger] r@[j])@ == self.media_storage.key_view(j),
            decreases n - i,
        {
            r.push(self.media_storage.key_at(i).clone());
            i = i + 1;
        }
        proof {
            self.media_storage.keys_complete();
            let names = texts(r@);
            assert forall|x: int, y: int| 0 <= x < y < names.len() implies names[x] != names[y] by {
                assert(r@[x]@ == self.media_storage.key_view(x));
                assert(r@[y]@ == self.media_storage.key_view(y));
            }
            assert forall|k: Seq<char>| names.to_set().contains(k) <==> self@.media.dom().contains(k) by {
                if names.contains(k) {
                    let x = names.index_of(k);
                    assert(r@[x]@ == self.media_storage.key_view(x));
                    assert(self.media_storage@.contains_key(k));
                }
                if self@.media.contains_key(k) {
                    assert(self.media_storage@.contains_key(k));
                    let x = choose|x: int|
                        0 <= x < self.media_storage.size() && #[trigger] self.media_storage.key_view(
                            x,
                        ) == k;
                    assert(r@[x]@ == k);
                    assert(names[x] == k);
                }
            }
            assert(names.to_set() =~= self@.media.dom());
        }
        r
    }

    /// Puts a media file into the store.
    fn store_media(&mut self, name: String, owner: NodeId, data: String)
        requires
            old(self).wf(),
        ensures
            final(self).wf(),
            final(self)@ == (ServerView {
                media: old(self)@.media.insert(name@, (owner, data@)),
                ..old(self)@
            }),
    {
        self.media_storage.insert(name, (owner, data));
        assert(self@.media =~= old(self)@.media.insert(name@, (owner, data@)));
        assert(self@ =~= ServerView {
            media: old(self)@.media.insert(name@, (owner, data@)),
            ..old(self)@
        });
    }

    /// Takes the record of two clients out of the store.
    fn take_record(&mut self, k: (u8, u8)) -> (r: Vec<String>)
        requires
            old(self).wf(),
        ensures
            final(self).wf(),
            texts(r@) == old(self)@.record_of(k),
            final(self)@ == (ServerView { history: old(self)@.history.remove(k), ..old(self)@ }),
    {
        let r: Vec<String> = match self.chat_history.remove(&k) {
            Some(h) => {
                assert(old(self)@.history.contains_key(k));
                h
            },
            None => {
                assert(!old(self)@.history.contains_key(k));
                let h: Vec<String> = Vec::new();
                assert(texts(h@) =~= Seq::<Seq<char>>::empty());
                h
            },
        };
        assert(self@.history =~= old(self)@.history.remove(k));
        assert(self@ =~= ServerView { history: old(self)@.history.remove(k), ..old(self)@ });
        r
    }

    /// Puts the record of two clients into the store.
    fn put_record(&mut self, k: (u8, u8), h: Vec<String>)
        requires
            old(self).wf(),
        ensures
            final(self).wf(),
            final(self)@ == (ServerView {
                history: old(self)@.history.insert(k, texts(h@)),
                ..old(self)@
            }),
    {
        self.chat_history.insert(k, h);
        assert(self@.history =~= old(self)@.history.insert(k, texts(h@)));
        assert(self@ =~= ServerView {
            history: old(self)@.history.insert(k, texts(h@)),
            ..old(self)@
        });
    }

    /// The same text for every client but one.
    fn broadcast_list(&self, but: NodeId, text: &str) -> (r: Vec<(NodeId, String)>)
        ensures
            messages_of(r@) == broadcast(self@.clients, but, text@),
    {
        let others: Vec<NodeId> = remove_id(&self.registered_clients, but);
        let mut r: Vec<(NodeId, String)> = Vec::new();
        let mut i: usize = 0;
        while i < others.len()
            invariant
                i <= others@.len(),
                r@.len() == i,
                forall|j: int|
                    0 <= j < i ==> (#[trigger] r@[j]).0 == others@[j] && r@[j].1@ == text@,
            decreases others@.len() - i,
        {
            r.push((others[i], text.to_owned()));
            i = i + 1;
        }
        assert(messages_of(r@) =~= broadcast(self@.clients, but, text@));
        r
    }

    /// Brings the server up to date with a message of a client; returns the answers.
    pub fn answer(&mut self, client: NodeId, session: u64, t: &Vec<String>) -> (r: Vec<
        (NodeId, String),
    >)
        requires
            old(self).wf(),
            t@.len() >= 1,
        ensures
            final(self).wf(),
            final(self)@ == old(self)@.updated(client, texts(t@)),
            old(self)@.replies_are(client, session, texts(t@), messages_of(r@)),
    {
        let ghost a = self@;
        let ghost p = texts(t@);
        proof {
            assert forall|i: int| 0 <= i < t@.len() implies #[trigger] t@[i]@ == p[i] by {
                assert(texts(t@)[i] == t@[i]@);
            }
            lemma_tags_differ();
        }
        let none: Vec<(NodeId, String)> = Vec::new();
        assert(messages_of(none@) =~= Seq::<(NodeId, Seq<char>)>::empty());
        let n: usize = t.len();
        let tag: &str = t[0].as_str();
        if n == 2 && same_text(tag, "[Login]") {
            if parse_id(t[1].as_str()) == Some(self.id) && !has_id(&self.registered_clients, client) {
                self.registered_clients.push(client);
                assert(self@ =~= a.updated(client, p));
                let number: String = decimal_text(session);
                return one(client, tag1("[LoginAck]", number.as_str()));
            }
            return none;
        }
        if n == 1 && same_text(tag, "[ClientListRequest]") {
            let list: String = id_list_text(&self.registered_clients);
            return one(client, tag1("[ClientListResponse]", list.as_str()));
        }
        if n == 2 && same_text(tag, "[ChatRequest]") {
            if let Some(x) = parse_id(t[1].as_str()) {
                let k: (u8, u8) = ordered_pair(client, x);
                let h: Vec<String> = self.take_record(k);
                self.put_record(k, h);
                assert(self@.history =~= a.updated(client, p).history);
                assert(self@ =~= a.updated(client, p));
                let status: &str = if has_id(&self.registered_clients, x) {
                    "true"
                } else {
                    "false"
                };
                return one(client, tag1("[ChatStart]", status));
            }
            return none;
        }
        if n == 3 && same_text(tag, "[MessageTo]") {
            if let Some(x) = parse_id(t[1].as_str()) {
                if has_id(&self.registered_clients, x) {
                    let from: String = id_text(client);
                    let k: (u8, u8) = ordered_pair(client, x);
                    let mut h: Vec<String> = self.take_record(k);
                    record(&mut h, chat_entry(from.as_str(), t[2].as_str()));
                    self.put_record(k, h);
                    assert(self@.history =~= a.updated(client, p).history);
                    assert(self@ =~= a.updated(client, p));
                    return one(x, tag2("[MessageFrom]", from.as_str(), t[2].as_str()));
                }
                return one(client, "error_wrong_client_id!".to_owned());
            }
            return none;
        }
        if n == 3 && same_text(tag, "[HistoryRequest]") {
            if let Some(c2) = parse_id(t[2].as_str()) {
                let c1: NodeId = match parse_id(t[1].as_str()) {
                    Some(x) => x,
                    None => client,
                };
                let k: (u8, u8) = ordered_pair(c1, c2);
                let text: String = match self.chat_history.get(&k) {
                    Some(h) => {
                        assert(a.history.contains_key(k));
                        join_with(h, "\n")
                    },
                    None => {
                        assert(!a.history.contains_key(k));
                        "No history available".to_owned()
                    },
                };
                return one(client, tag1("[HistoryResponse]", text.as_str()));
            }
            return none;
        }
        if n == 3 && same_text(tag, "[ChatHistoryUpdate]") {
            if let Some((k, h)) = read_record(t[2].as_str()) {
                self.put_record(k, h);
                assert(self@ =~= a.updated(client, p));
            }
            return none;
        }
        if n == 3 && same_text(tag, "[MediaUpload]") {
            self.store_media(t[1].clone(), client, t[2].clone());
            assert(self@ =~= a.updated(client, p));
            return one(client, tag1("[MediaUploadAck]", t[1].as_str()));
        }
        if n == 1 && same_text(tag, "[MediaListRequest]") {
            let names: Vec<String> = self.media_names();
            let list: String = join_with(&names, ",");
            assert(is_order(texts(names@), a.media.dom()));
            return one(client, tag1("[MediaListResponse]", list.as_str()));
        }
        if n == 2 && same_text(tag, "[MediaDownloadRequest]") {
            let text: String = match self.media_storage.get(&t[1]) {
                Some(m) => {
                    assert(a.media.contains_key(p[1]));
                    tag2("[MediaDownloadResponse]", t[1].as_str(), m.1.as_str())
                },
                None => {
                    assert(!a.media.contains_key(p[1]));
                    "[MediaDownloadResponse]::ERROR::NotFound".to_owned()
                },
            };
            return one(client, text);
        }
        if n == 3 && same_text(tag, "[MediaBroadcast]") {
            self.store_media(t[1].clone(), client, t[2].clone());
            assert(self@ =~= a.updated(client, p));
            let text: String = tag2("[MediaDownloadResponse]", t[1].as_str(), t[2].as_str());
            let mut list: Vec<(NodeId, String)> = self.broadcast_list(client, text.as_str());
            let ghost before = list@;
            let ack: String = tag2("[MediaBroadcastAck]", t[1].as_str(), "Broadcasted");
            list.push((client, ack));
            assert(messages_of(list@) =~= messages_of(before).push((client, ack@)));
            return list;
        }
        if n == 1 && same_text(tag, "[Logout]") {
            self.registered_clients = remove_id(&self.registered_clients, client);
            proof {
                crate::packet::lemma_without_id(a.clients, client);
                assert(self@ =~= a.updated(client, p));
            }
            return none;
        }
        none
    }

    /// The other servers that are known, each one once.
    fn other_server_ids(&self) -> (r: Vec<NodeId>)
        ensures
            is_order(r@, self@.other_servers()),
    {
        let all: Vec<NodeId> = self.network_graph.typed_ids();
        let mut r: Vec<NodeId> = Vec::new();
        let mut i: usize = 0;
        while i < all.len()
            invariant
                i <= all@.len(),
                all@.no_duplicates(),
                all@.to_set() == self@.net.types.dom(),
                r@.no_duplicates(),
                forall|x: NodeId| #[trigger]
                    r@.contains(x) <==> all@.subrange(0, i as int).contains(x)
                        && self@.other_servers().contains(x),
            decreases all@.len() - i,
        {
            let id: NodeId = all[i];
            let ghost s = all@.subrange(0, i as int);
            let ghost t = all@.subrange(0, i + 1);
            let ghost before = r@;
            proof {
                assert(all@.to_set().contains(id));
                assert(!s.contains(id)) by {
                    if s.contains(id) {
                        let j = s.index_of(id);
                        assert(all@[j] == all@[i as int]);
                    }
                }
                assert(!before.contains(id));
            }
            let other: bool = id != self.id && self.network_graph.get_node_type(id) == Some(
                NodeType::Server,
            );
            if other {
                r.push(id);
            }
            proof {
                assert forall|x: NodeId| #[trigger] r@.contains(x) <==> t.contains(x)
                    && self@.other_servers().contains(x) by {
                    assert(t.contains(x) <==> s.contains(x) || x == id) by {
                        if s.contains(x) {
                            assert(t[s.index_of(x)] == x);
                        }
                        if t.contains(x) && x != id {
                            assert(s[t.index_of(x)] == x);
                        }
                        assert(t[i as int] == id);
                    }
                    assert(r@.contains(x) <==> before.contains(x) || (other && x == id)) by {
                        if before.contains(x) {
                            assert(r@[before.index_of(x)] == x);
                        }
                        if r@.contains(x) && !(other && x == id) {
                            assert(before[r@.index_of(x)] == x);
                        }
                        if other {
                            assert(r@[before.len() as int] == id);
                        }
                    }
                }
                assert forall|x: int, y: int| 0 <= x < y < r@.len() implies r@[x] != r@[y] by {
                    if y == before.len() {
                        assert(before.contains(before[x]));
                    }
                }
            }
            i = i + 1;
        }
        proof {
            assert(all@.subrange(0, i as int) =~= all@);
            assert forall|x: NodeId| r@.to_set().contains(x) <==> self@.other_servers().contains(x) by {
                assert(r@.contains(x) <==> all@.contains(x) && self@.other_servers().contains(x));
                assert(all@.contains(x) <==> all@.to_set().contains(x));
            }
            assert(r@.to_set() =~= self@.other_servers());
        }
        r
    }

    /// Sends a message to another server, where there is a route; says whether there is
    /// one.
    fn spread(&mut self, session: u64, to: NodeId, text: &str, out: &mut Vec<Outgoing>) -> (r: bool)
        requires
            old(self).wf(),
        ensures
            final(self).wf(),
            exists|added: Seq<OutgoingView>|
                {
                    &&& #[trigger] spread_to(
                        old(self)@,
                        final(self)@,
                        session,
                        to,
                        text@,
                        added,
                        r,
                    )
                    &&& outbox(final(out)@) == outbox(old(out)@) + added
                },
    {
        let ghost a = self@;
        let path: Option<Vec<NodeId>> = self.compute_best_path(self.id, to);
        assert(self@ =~= after_search(a, to));
        assert(a.net.best_path_is(a.id, to, a.known_channels(), ids_view(path)));
        if path.is_some() {
            self.send_chat_message(session, to, text, out);
            proof {
                let added = choose|added: Seq<OutgoingView>|
                    {
                        &&& #[trigger] chat_sent(
                            after_search(a, to),
                            self@,
                            session,
                            to,
                            text@,
                            added,
                        )
                        &&& outbox(out@) == outbox(old(out)@) + added
                    };
                assert(spread_to(a, self@, session, to, text@, added, true));
            }
            true
        } else {
            proof {
                let added = Seq::<OutgoingView>::empty();
                assert(outbox(out@) =~= outbox(old(out)@) + added);
                assert(spread_to(a, self@, session, to, text@, added, false));
            }
            false
        }
    }

    /// Sends a message to other servers, one after the other; returns those to which
    /// there is a route.
    fn spread_all(
        &mut self,
        session: u64,
        servers: &Vec<NodeId>,
        text: &str,
        out: &mut Vec<Outgoing>,
    ) -> (r: Vec<NodeId>)
        requires
            old(self).wf(),
        ensures
            final(self).wf(),
            exists|added: Seq<OutgoingView>|
                {
                    &&& #[trigger] spread_to_all(
                        old(self)@,
                        final(self)@,
                        session,
                        servers@,
                        text@,
                        added,
                        r@,
                    )
                    &&& outbox(final(out)@) == outbox(old(out)@) + added
                },
    {
        let ghost a = self@;
        let ghost mut added = Seq::<OutgoingView>::empty();
        let mut told: Vec<NodeId> = Vec::new();
        let mut i: usize = 0;
        assert(outbox(out@) =~= outbox(old(out)@) + added);
        assert(servers@.subrange(0, 0) =~= Seq::<NodeId>::empty());
        assert(told@ =~= Seq::<NodeId>::empty());
        while i < servers.len()
            invariant
                self.wf(),
                i <= servers@.len(),
                spread_to_all(
                    a,
                    self@,
                    session,
                    servers@.subrange(0, i as int),
                    text@,
                    added,
                    told@,
                ),
                outbox(out@) == outbox(old(out)@) + added,
            decreases servers@.len() - i,
        {
            let ghost before = self@;
            let ghost posted = outbox(out@);
            let ghost told_before = told@;
            let routed: bool = self.spread(session, servers[i], text, out);
            if routed {
                told.push(servers[i]);
            }
            proof {
                let s = servers@.subrange(0, i + 1);
                assert(s.drop_last() =~= servers@.subrange(0, i as int));
                assert(s.last() == servers@[i as int]);
                let last = choose|last: Seq<OutgoingView>|
                    {
                        &&& #[trigger] spread_to(
                            before,
                            self@,
                            session,
                            servers@[i as int],
                            text@,
                            last,
                            routed,
                        )
                        &&& outbox(out@) == posted + last
                    };
                let more = added + last;
                let cut = added.len() as int;
                assert(more.subrange(0, cut) =~= added);
                assert(more.subrange(cut, more.len() as int) =~= last);
                assert(outbox(out@) =~= outbox(old(out)@) + more);
                if routed {
                    assert(told@.drop_last() =~= told_before);
                }
                assert(spread_to(
                    before,
                    self@,
                    session,
                    s.last(),
                    text@,
                    more.subrange(cut, more.len() as int),
                    routed,
                ));
                assert(spread_to_all(a, self@, session, s, text@, more, told@));
                added = more;
            }
            i = i + 1;
        }
        assert(servers@.subrange(0, i as int) =~= servers@);
        told
    }

    /// The record that a finished chat hands on.
    fn finished_record(&self, client: NodeId, t: &Vec<String>) -> (r: Option<String>)
        requires
            self.wf(),
            t@.len() >= 1,
        ensures
            text_view(r) == self@.record_to_spread(client, texts(t@)),
            r is Some ==> self@.reads_back(client, texts(t@), r->0@),
    {
        let ghost p = texts(t@);
        proof {
            assert forall|i: int| 0 <= i < t@.len() implies #[trigger] t@[i]@ == p[i] by {
                assert(texts(t@)[i] == t@[i]@);
            }
        }
        if t.len() == 2 && same_text(t[0].as_str(), "[ChatFinish]") {
            if let Some(x) = parse_id(t[1].as_str()) {
                let k: (u8, u8) = ordered_pair(client, x);
                if let Some(h) = self.chat_history.get(&k) {
                    assert(self@.history.contains_key(k));
                    return write_record(k.0, k.1, h);
                } else {
                    assert(!self@.history.contains_key(k));
                }
            }
        }
        None
    }

    /// Handles a message of a client; returns the lines for the simulation log.
    pub fn handle_complete_message(
        &mut self,
        client: NodeId,
        session: u64,
        text: &str,
        out: &mut Vec<Outgoing>,
    ) -> (r: Vec<String>)
        requires
            old(self).wf(),
        ensures
            final(self).wf(),
            exists|added: Seq<OutgoingView>|
                {
                    &&& #[trigger] message_handled(
                        old(self)@,
                        final(self)@,
                        client,
                        session,
                        text@,
                        added,
                        texts(r@),
                    )
                    &&& outbox(final(out)@) == outbox(old(out)@) + added
                },
    {
        let ghost a = self@;
        let ghost posted = outbox(out@);
        let trimmed: String = trim(text);
        let t: Vec<String> = split_parts(trimmed.as_str(), 3);
        let ghost p = parts(trim_both(text@), 3);
        proof {
            assert(texts(t@) == p);
            crate::notices::lemma_parts_not_empty(trim_both(text@), 3);
            assert(texts(t@).len() == t@.len());
        }
        let line: Option<String> = self.message_log(client, session, &t);
        if let Some(json) = self.finished_record(client, &t) {
            let servers: Vec<NodeId> = self.other_server_ids();
            assert(is_order(servers@, a.other_servers()));
            let own: String = id_text(self.id);
            let message: String = tag2("[ChatHistoryUpdate]", own.as_str(), json.as_str());
            let told: Vec<NodeId> = self.spread_all(session, &servers, message.as_str(), out);
            let lines: Vec<String> = all_lines(line, &told);
            proof {
                let added = choose|added: Seq<OutgoingView>|
                    {
                        &&& #[trigger] spread_to_all(
                            a,
                            self@,
                            session,
                            servers@,
                            message@,
                            added,
                            told@,
                        )
                        &&& outbox(out@) == posted + added
                    };
                assert(a.record_to_spread(client, p) == Some(json@));
                assert(message@ == tagged2("[ChatHistoryUpdate]"@, decimal(a.id as nat), json@));
                assert(record_spread(a, self@, session, json@, added, told@));
                assert(texts(lines@) == a.message_lines(client, session, p, told@));
                assert(message_handled(
                    a,
                    self@,
                    client,
                    session,
                    text@,
                    added,
                    texts(lines@),
                ));
            }
            return lines;
        }
        let list: Vec<(NodeId, String)> = self.answer(client, session, &t);
        self.send_all(session, &list, out);
        let none: Vec<NodeId> = Vec::new();
        let lines: Vec<String> = all_lines(line, &none);
        proof {
            let m = a.updated(client, p);
            let added = choose|added: Seq<OutgoingView>|
                {
                    &&& #[trigger] all_sent(m, self@, session, messages_of(list@), added)
                    &&& outbox(out@) == posted + added
                };
            assert(none@ =~= Seq::<NodeId>::empty());
            assert(message_handled(a, self@, client, session, text@, added, texts(lines@)));
        }
        lines
    }
}

proof fn lemma_tags_differ()
    ensures
        "[Login]"@.len() == 7,
        "[Logout]"@.len() == 8,
        "[ClientListRequest]"@.len() == 19,
        "[ChatRequest]"@.len() == 13,
        "[MessageTo]"@.len() == 11,
        "[HistoryRequest]"@.len() == 16,
        "[ChatHistoryUpdate]"@.len() == 19,
        "[MediaUpload]"@.len() == 13,
        "[MediaListRequest]"@.len() == 18,
        "[MediaDownloadRequest]"@.len() == 22,
        "[MediaBroadcast]"@.len() == 16,
        "[HistoryRequest]"@ != "[MediaBroadcast]"@,
{
    reveal_strlit("[Login]");
    reveal_strlit("[Logout]");
    reveal_strlit("[ClientListRequest]");
    reveal_strlit("[ChatRequest]");
    reveal_strlit("[MessageTo]");
    reveal_strlit("[HistoryRequest]");
    reveal_strlit("[ChatHistoryUpdate]");
    reveal_strlit("[MediaUpload]");
    reveal_strlit("[MediaListRequest]");
    reveal_strlit("[MediaDownloadRequest]");
    reveal_strlit("[MediaBroadcast]");
    assert("[HistoryRequest]"@[1] == 'H');
    assert("[MediaBroadcast]"@[1] == 'M');
}

}
