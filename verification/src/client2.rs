//! The client that counts losses by node and asks the user's status before it
//! passes a command on.
use crate::changes::{announced, announcement, tokens, tokens_of, Change, ChangeView};
use crate::channels::{channels_of, mentioned, SharedSenders};
use crate::client1::{fragment_packet, next_id, with_neighbour};
use crate::floods::FloodSet;
use crate::fragment::{
    are_chunks, fragment_bytes, message_text, overwritten, received_text,
};
use crate::known_network::ids_view;
use crate::media::{base64_bytes, bytes_view, decode_base64, file_of, media_file, MediaFile, MediaFileView};
use crate::mesh::{after_trace, dearer_at, mesh_node_removed, Mesh, MeshView};
use crate::packet::{
    copy_ids, has_id, outbox, post, post_each, remove_id, response_to, to_each, without_id, Ack,
    BodyView, FloodRequest, FloodRequestView, FloodResponse, Fragment, HeaderView, Nack, NackType,
    NodeId, NodeType, Outgoing, OutgoingView, Packet, PacketType, PacketView, SourceRoutingHeader,
};
use crate::text::{
    drop_trailing, id_fault, id_number, parse_id, parts, read_id, same_text, split_parts, texts,
    trim, trim_back, trim_both, trim_end, trim_trailing, IdFault,
};
use std::collections::HashMap;
use vstd::prelude::*;
use vstd::string::*;
use vstd::utf8::encode_utf8;

verus! {

broadcast use vstd::std_specs::hash::group_hash_axioms;

/// What all clients of this kind share: the counters for floods and sessions, and
/// whether the user chats, with whom and by way of which server.
#[derive(Clone, Copy, PartialEq, Eq, Structural, Debug)]
pub struct ClientGlobals {
    pub flood_ids: u64,
    pub session_ids: u64,
    pub chatting: bool,
    pub peer: NodeId,
    pub server: NodeId,
}

impl ClientGlobals {
    /// Counters at zero, no chat and no server.
    pub fn new() -> (r: Self)
        ensures
            r == (ClientGlobals { flood_ids: 0, session_ids: 0, chatting: false, peer: 0, server: 0 }),
    {
        ClientGlobals { flood_ids: 0, session_ids: 0, chatting: false, peer: 0, server: 0 }
    }

    /// The session counter goes on by one.
    pub open spec fn next_session(self) -> ClientGlobals {
        ClientGlobals { session_ids: next_id(self.session_ids), ..self }
    }

    /// Both counters go on by one.
    pub open spec fn next_flood(self) -> ClientGlobals {
        ClientGlobals {
            flood_ids: next_id(self.flood_ids),
            session_ids: next_id(self.session_ids),
            ..self
        }
    }

    fn count_session(&mut self)
        ensures
            *final(self) == old(self).next_session(),
    {
        if self.session_ids < u64::MAX {
            self.session_ids = self.session_ids + 1;
        }
    }
}

/// A client.
#[derive(Debug)]
pub struct MyClient {
    pub id: NodeId,
    /// The neighbours to which a channel leads.
    pub packet_send: Vec<NodeId>,
    pub sent_messages: HashMap<u64, Vec<Fragment>>,
    pub mesh: Mesh,
    pub received_packets: HashMap<u64, Vec<u8>>,
    pub seen_flood_ids: FloodSet,
    pub shared_senders: Option<SharedSenders>,
}

#[verifier::ext_equal]
pub struct Client2View {
    pub id: NodeId,
    pub neighbours: Seq<NodeId>,
    pub sent: Map<u64, Seq<Fragment>>,
    pub mesh: MeshView,
    pub received: Map<u64, Seq<u8>>,
    pub seen: Set<(u64, NodeId)>,
    pub channels: Option<Set<(NodeId, NodeId)>>,
}

impl View for MyClient {
    type V = Client2View;

    open spec fn view(&self) -> Client2View {
        Client2View {
            id: self.id,
            neighbours: self.packet_send@,
            sent: self.sent_messages@.map_values(|v: Vec<Fragment>| v@),
            mesh: self.mesh@,
            received: self.received_packets@.map_values(|v: Vec<u8>| v@),
            seen: self.seen_flood_ids@,
            channels: channels_of(self.shared_senders),
        }
    }
}

/// The packet for each neighbour: twice for all but the one that it came from.
pub open spec fn doubled(ids: Seq<NodeId>, from: Option<NodeId>, packet: PacketView) -> Seq<
    OutgoingView,
>
    decreases ids.len(),
{
    if ids.len() == 0 {
        Seq::empty()
    } else {
        let before = doubled(ids.drop_last(), from, packet);
        let o = OutgoingView { to: ids.last(), packet };
        if from == Some(ids.last()) {
            before.push(o)
        } else {
            before.push(o).push(o)
        }
    }
}

/// The last node of a trace.
pub open spec fn last_of(trace: Seq<(NodeId, NodeType)>) -> Option<NodeId> {
    if trace.len() > 0 {
        Some(trace.last().0)
    } else {
        None
    }
}

/// Bytes, all of them zero.
pub open spec fn zeros(n: int) -> Seq<u8> {
    Seq::new(n as nat, |i: int| 0u8)
}

/// `data` cut off or filled up with zeros to `n` bytes.
pub open spec fn resized(data: Seq<u8>, n: int) -> Seq<u8> {
    Seq::new(
        n as nat,
        |i: int|
            if i < data.len() {
                data[i]
            } else {
                0u8
            },
    )
}

/// One of the first `n` bytes of slot `i` is not zero.
pub open spec fn slot_used(data: Seq<u8>, i: int, n: int) -> bool {
    exists|j: int| 0 <= j < n && #[trigger] data[i * 128 + j] != 0
}

/// Slot `i` of `total` has been written to; the last one is taken to hold `last`
/// bytes.
pub open spec fn slot_written_to(data: Seq<u8>, i: int, total: int, last: int) -> bool {
    slot_used(
        data,
        i,
        if i == total - 1 {
            last
        } else {
            128
        },
    )
}

/// Every slot has been written to.
pub open spec fn slots_used(data: Seq<u8>, total: int, last: int) -> bool {
    forall|i: int| 0 <= i < total ==> #[trigger] slot_written_to(data, i, total, last)
}

/// The fragment has its place in its message.
pub open spec fn has_place(f: Fragment) -> bool {
    f.fragment_index < f.total_n_fragments && f.total_n_fragments * 128 <= isize::MAX && f.length <= 128
}

/// What a message from the server says.
#[derive(Debug)]
pub enum News {
    LoggedIn,
    Message(NodeId, String),
    ChatStarted,
    ChatFailed,
    ClientList(String),
    History(String),
    MediaUploaded(String),
    MediaList(String),
    MediaNotFound,
    /// A media file to be saved and shown.
    Media(MediaFile),
    MediaUnreadable(String),
    Broadcasted(String),
    Unknown,
}

#[verifier::ext_equal]
pub enum NewsView {
    LoggedIn,
    Message(NodeId, Seq<char>),
    ChatStarted,
    ChatFailed,
    ClientList(Seq<char>),
    History(Seq<char>),
    MediaUploaded(Seq<char>),
    MediaList(Seq<char>),
    MediaNotFound,
    Media(MediaFileView),
    MediaUnreadable(Seq<char>),
    Broadcasted(Seq<char>),
    Unknown,
}

impl View for News {
    type V = NewsView;

    open spec fn view(&self) -> NewsView {
        match self {
            News::LoggedIn => NewsView::LoggedIn,
            News::Message(a, b) => NewsView::Message(*a, b@),
            News::ChatStarted => NewsView::ChatStarted,
            News::ChatFailed => NewsView::ChatFailed,
            News::ClientList(a) => NewsView::ClientList(a@),
            News::History(a) => NewsView::History(a@),
            News::MediaUploaded(a) => NewsView::MediaUploaded(a@),
            News::MediaList(a) => NewsView::MediaList(a@),
            News::MediaNotFound => NewsView::MediaNotFound,
            News::Media(f) => NewsView::Media(f@),
            News::MediaUnreadable(a) => NewsView::MediaUnreadable(a@),
            News::Broadcasted(a) => NewsView::Broadcasted(a@),
            News::Unknown => NewsView::Unknown,
        }
    }
}

/// What a media file says, given the bytes that its base64 text turned out to hold.
pub open spec fn media_news_of(name: Seq<char>, bytes: Option<Seq<u8>>) -> NewsView {
    match bytes {
        Some(b) => NewsView::Media(file_of(name, b)),
        None => NewsView::MediaUnreadable(name),
    }
}

/// What a message says.
pub open spec fn news_of(text: Seq<char>) -> NewsView {
    let t = parts(trim_both(text), 3);
    if t.len() == 2 && t[0] == "[LoginAck]"@ {
        NewsView::LoggedIn
    } else if t.len() == 3 && t[0] == "[MessageFrom]"@ {
        NewsView::Message(
            match id_number(t[1]) {
                Some(id) => id,
                None => 0,
            },
            t[2],
        )
    } else if t.len() == 2 && t[0] == "[ChatStart]"@ {
        if drop_trailing(t[1], '\0') == "true"@ {
            NewsView::ChatStarted
        } else {
            NewsView::ChatFailed
        }
    } else if t.len() == 2 && t[0] == "[ClientListResponse]"@ {
        NewsView::ClientList(t[1])
    } else if t.len() == 2 && t[0] == "[HistoryResponse]"@ {
        NewsView::History(t[1])
    } else if t.len() == 2 && t[0] == "[MediaUploadAck]"@ {
        NewsView::MediaUploaded(t[1])
    } else if t.len() == 2 && t[0] == "[MediaListResponse]"@ {
        NewsView::MediaList(t[1])
    } else if t.len() == 3 && t[0] == "[MediaDownloadResponse]"@ {
        if t[1] == "ERROR"@ && t[2] == "NotFound"@ {
            NewsView::MediaNotFound
        } else {
            media_news_of(t[1], base64_bytes(drop_trailing(t[2], '\0')))
        }
    } else if t.len() == 3 && t[0] == "[MediaBroadcastAck]"@ && t[2] == "Broadcasted"@ {
        NewsView::Broadcasted(t[1])
    } else {
        NewsView::Unknown
    }
}

/// The user's status after news: a message opens a chat with its sender, a chat that
/// failed to start closes it.
pub open spec fn status_after(g: ClientGlobals, n: NewsView) -> ClientGlobals {
    match n {
        NewsView::Message(id, _) => ClientGlobals { chatting: true, peer: id, ..g },
        NewsView::ChatFailed => ClientGlobals { chatting: false, peer: 0, ..g },
        _ => g,
    }
}

/// The view of news, where there are any.
pub open spec fn news_view(r: Option<News>) -> Option<NewsView> {
    match r {
        Some(n) => Some(n@),
        None => None,
    }
}

impl Client2View {
    /// The mesh is well formed, and no neighbour is listed twice.
    pub open spec fn wf(self) -> bool {
        self.mesh.wf() && self.neighbours.no_duplicates()
    }

    /// The requests that start a flood.
    pub open spec fn flood_requests(self, g: ClientGlobals) -> Seq<OutgoingView> {
        to_each(
            self.neighbours,
            PacketView {
                body: BodyView::FloodRequest(
                    FloodRequestView {
                        flood_id: next_id(g.flood_ids),
                        initiator_id: self.id,
                        path_trace: seq![(self.id, NodeType::Client)],
                    },
                ),
                header: HeaderView { hop_index: 0, hops: seq![self.id] },
                session_id: g.session_ids,
            },
        )
    }

    /// A flood request is answered, not spread.
    pub open spec fn answers_flood(self, r: FloodRequestView) -> bool {
        self.seen.contains((r.flood_id, r.initiator_id)) || self.neighbours.len() == 1
    }

    /// The client can take a flood request in: where it answers, it can reach the
    /// node that the request came from.
    pub open spec fn flood_fits(self, r: FloodRequestView, h: HeaderView) -> bool {
        &&& h.hop_index < usize::MAX
        &&& self.answers_flood(r) ==> r.path_trace.len() > 0 && self.neighbours.contains(
            r.path_trace.last().0,
        )
    }

    /// The client after a flood request.
    pub open spec fn after_flood_request(self, r: FloodRequestView) -> Client2View {
        if self.answers_flood(r) {
            self
        } else {
            Client2View { seen: self.seen.insert((r.flood_id, r.initiator_id)), ..self }
        }
    }

    /// What leaves upon a flood request.
    pub open spec fn flood_answer(self, r: FloodRequestView, h: HeaderView, session: u64) -> Seq<
        OutgoingView,
    > {
        let longer = FloodRequestView {
            path_trace: r.path_trace.push((self.id, NodeType::Client)),
            ..r
        };
        if self.answers_flood(r) {
            seq![
                OutgoingView {
                    to: r.path_trace.last().0,
                    packet: response_to(longer, session, 1),
                },
            ]
        } else {
            doubled(
                self.neighbours,
                last_of(r.path_trace),
                PacketView {
                    body: BodyView::FloodRequest(
                        FloodRequestView { initiator_id: longer.path_trace[0].0, ..longer },
                    ),
                    header: HeaderView {
                        hop_index: h.hop_index + 1,
                        hops: h.hops.push(self.id),
                    },
                    session_id: session,
                },
            )
        }
    }

    /// What leaves upon a fragment: its receipt, twice, for the hop of its header.
    pub open spec fn ack(self, p: PacketView, fragment_index: u64) -> Seq<OutgoingView> {
        let h = p.header;
        if 0 <= h.hop_index < h.hops.len() && self.neighbours.contains(h.hops[h.hop_index]) {
            let o = OutgoingView {
                to: h.hops[h.hop_index],
                packet: PacketView {
                    body: BodyView::Ack(Ack { fragment_index }),
                    header: h,
                    session_id: p.session_id,
                },
            };
            seq![o, o]
        } else {
            Seq::empty()
        }
    }

    /// The bytes of a message after fragment `f`.
    pub open spec fn buffer(self, session: u64, f: Fragment) -> Seq<u8> {
        let size = f.total_n_fragments * 128;
        let before = if self.received.contains_key(session) {
            resized(self.received[session], size)
        } else {
            zeros(size)
        };
        overwritten(before, f.fragment_index * 128, f.data@, f.length as int)
    }

    /// Fragment `f` completes its message: every slot holds a byte that is not zero.
    pub open spec fn completes(self, session: u64, f: Fragment) -> bool {
        slots_used(self.buffer(session, f), f.total_n_fragments as int, f.length as int)
    }

    /// The message that fragment `f` completes.
    pub open spec fn completed(self, session: u64, f: Fragment) -> Seq<u8> {
        self.buffer(session, f).subrange(0, (f.total_n_fragments - 1) * 128 + f.length)
    }

    /// The client after fragment `f`.
    pub open spec fn after_fragment(self, session: u64, f: Fragment) -> Client2View {
        Client2View {
            received: if self.completes(session, f) {
                self.received.remove(session)
            } else {
                self.received.insert(session, self.buffer(session, f))
            },
            ..self
        }
    }

    /// What fragment `f` tells the client.
    pub open spec fn fragment_news(self, session: u64, f: Fragment) -> Option<NewsView> {
        if self.completes(session, f) {
            Some(news_of(received_text(self.completed(session, f))))
        } else {
            None
        }
    }
}

/// What a media file says, given the bytes that its base64 text turned out to hold.
pub fn media_news(name: &str, bytes: Option<Vec<u8>>) -> (r: News)
    ensures
        r@ == media_news_of(name@, bytes_view(bytes)),
{
    match bytes {
        Some(b) => News::Media(media_file(name, b)),
        None => News::MediaUnreadable(name.to_owned()),
    }
}

/// What a message says.
pub fn read_news(text: &str) -> (r: News)
    ensures
        r@ == news_of(text@),
{
    let trimmed: String = trim(text);
    let t: Vec<String> = split_parts(trimmed.as_str(), 3);
    let ghost p = parts(trim_both(text@), 3);
    proof {
        assert(texts(t@) == p);
        assert forall|i: int| 0 <= i < t@.len() implies #[trigger] t@[i]@ == p[i] by {
            assert(texts(t@)[i] == t@[i]@);
        }
        crate::notices::lemma_parts_not_empty(trim_both(text@), 3);
        assert(t@.len() == p.len());
    }
    let n: usize = t.len();
    let tag: &str = t[0].as_str();
    if n == 2 && same_text(tag, "[LoginAck]") {
        News::LoggedIn
    } else if n == 3 && same_text(tag, "[MessageFrom]") {
        let id: NodeId = match parse_id(t[1].as_str()) {
            Some(id) => id,
            None => 0,
        };
        News::Message(id, t[2].clone())
    } else if n == 2 && same_text(tag, "[ChatStart]") {
        let status: String = trim_trailing(t[1].as_str(), '\0');
        if same_text(status.as_str(), "true") {
            News::ChatStarted
        } else {
            News::ChatFailed
        }
    } else if n == 2 && same_text(tag, "[ClientListResponse]") {
        News::ClientList(t[1].clone())
    } else if n == 2 && same_text(tag, "[HistoryResponse]") {
        News::History(t[1].clone())
    } else if n == 2 && same_text(tag, "[MediaUploadAck]") {
        News::MediaUploaded(t[1].clone())
    } else if n == 2 && same_text(tag, "[MediaListResponse]") {
        News::MediaList(t[1].clone())
    } else if n == 3 && same_text(tag, "[MediaDownloadResponse]") {
        if same_text(t[1].as_str(), "ERROR") && same_text(t[2].as_str(), "NotFound") {
            News::MediaNotFound
        } else {
            let data: String = trim_trailing(t[2].as_str(), '\0');
            let bytes: Option<Vec<u8>> = decode_base64(data.as_str());
            media_news(t[1].as_str(), bytes)
        }
    } else if n == 3 && same_text(tag, "[MediaBroadcastAck]") && same_text(
        t[2].as_str(),
        "Broadcasted",
    ) {
        News::Broadcasted(t[1].clone())
    } else {
        News::Unknown
    }
}

/// Handles a message: tells what it says and brings the user's status up to date.
pub fn packet_command_handling(text: &str, globals: &mut ClientGlobals) -> (r: News)
    ensures
        r@ == news_of(text@),
        *final(globals) == status_after(*old(globals), news_of(text@)),
{
    let news: News = read_news(text);
    match &news {
        News::Message(id, _) => {
            globals.chatting = true;
            globals.peer = *id;
        },
        News::ChatFailed => {
            globals.chatting = false;
            globals.peer = 0;
        },
        _ => {},
    }
    news
}

fn slot_written(data: &Vec<u8>, i: usize, n: usize) -> (r: bool)
    requires
        i * 128 + n <= data@.len(),
    ensures
        r == slot_used(data@, i as int, n as int),
{
    let size: usize = data.len();
    let start: usize = i * 128;
    let mut j: usize = 0;
    while j < n
        invariant
            j <= n,
            start == i * 128,
            start + n <= size,
            size == data@.len(),
            forall|k: int| 0 <= k < j ==> #[trigger] data@[i * 128 + k] == 0,
        decreases n - j,
    {
        if data[start + j] != 0 {
            assert(data@[i * 128 + j] != 0);
            return true;
        }
        j = j + 1;
    }
    false
}

fn all_slots_written(data: &Vec<u8>, total: usize, last: usize) -> (r: bool)
    requires
        data@.len() == total * 128,
        last <= 128,
    ensures
        r == slots_used(data@, total as int, last as int),
{
    let size: usize = data.len();
    let mut i: usize = 0;
    while i < total
        invariant
            i <= total,
            last <= 128,
            size == data@.len(),
            data@.len() == total * 128,
            forall|k: int|
                0 <= k < i ==> #[trigger] slot_written_to(data@, k, total as int, last as int),
        decreases total - i,
    {
        let n: usize = if i + 1 == total {
            last
        } else {
            128
        };
        if !slot_written(data, i, n) {
            assert(!slot_written_to(data@, i as int, total as int, last as int));
            return false;
        }
        i = i + 1;
    }
    true
}

impl MyClient {
    /// A client that knows nothing of the network yet.
    pub fn new(id: NodeId, packet_send: Vec<NodeId>, shared_senders: Option<SharedSenders>) -> (r:
        Self)
        requires
            packet_send@.no_duplicates(),
        ensures
            r@.wf(),
            r@.id == id,
            r@.neighbours == packet_send@,
            r@.sent == Map::<u64, Seq<Fragment>>::empty(),
            r@.mesh.nodes == Seq::<NodeId>::empty(),
            r@.mesh.map == Map::<NodeId, (u32, NodeType)>::empty(),
            r@.received == Map::<u64, Seq<u8>>::empty(),
            r@.seen == Set::<(u64, NodeId)>::empty(),
            r@.channels == channels_of(shared_senders),
    {
        let r = MyClient {
            id,
            packet_send,
            sent_messages: HashMap::new(),
            mesh: Mesh::new(),
            received_packets: HashMap::new(),
            seen_flood_ids: FloodSet::new(),
            shared_senders,
        };
        assert(r@.sent =~= Map::<u64, Seq<Fragment>>::empty());
        assert(r@.received =~= Map::<u64, Seq<u8>>::empty());
        r
    }

    /// Starts a flood.
    pub fn send_flood_request(&self, globals: &mut ClientGlobals, out: &mut Vec<Outgoing>)
        ensures
            *final(globals) == old(globals).next_flood(),
            outbox(final(out)@) == outbox(old(out)@) + self@.flood_requests(*old(globals)),
    {
        if globals.flood_ids < u64::MAX {
            globals.flood_ids = globals.flood_ids + 1;
        }
        let mut path_trace: Vec<(NodeId, NodeType)> = Vec::new();
        path_trace.push((self.id, NodeType::Client));
        let mut hops: Vec<NodeId> = Vec::new();
        hops.push(self.id);
        assert(path_trace@ =~= seq![(self.id, NodeType::Client)]);
        assert(hops@ =~= seq![self.id]);
        let packet = Packet {
            pack_type: PacketType::FloodRequest(
                FloodRequest { flood_id: globals.flood_ids, initiator_id: self.id, path_trace },
            ),
            routing_header: SourceRoutingHeader { hop_index: 0, hops },
            session_id: globals.session_ids,
        };
        post_each(out, &self.packet_send, &packet);
        globals.count_session();
    }

    /// Answers a flood request or spreads it.
    pub fn process_flood_request(
        &mut self,
        request: &FloodRequest,
        header: &SourceRoutingHeader,
        globals: &mut ClientGlobals,
        out: &mut Vec<Outgoing>,
    )
        requires
            old(self)@.wf(),
            old(self)@.flood_fits(request@, header@),
        ensures
            final(self)@.wf(),
            final(self)@ == old(self)@.after_flood_request(request@),
            *final(globals) == old(globals).next_session(),
            outbox(final(out)@) == outbox(old(out)@) + old(self)@.flood_answer(
                request@,
                header@,
                old(globals).session_ids,
            ),
    {
        let longer: FloodRequest = request.get_incremented(self.id, NodeType::Client);
        let n: usize = request.path_trace.len();
        let session_id: u64 = globals.session_ids;
        globals.count_session();
        if self.seen_flood_ids.contains(request.flood_id, request.initiator_id)
            || self.packet_send.len() == 1 {
            let from: NodeId = request.path_trace[n - 1].0;
            let response: Packet = longer.generate_response(session_id);
            post(out, from, response);
            assert(outbox(out@) =~= outbox(old(out)@) + old(self)@.flood_answer(
                request@,
                header@,
                session_id,
            ));
            return;
        }
        self.seen_flood_ids.insert(request.flood_id, request.initiator_id);
        let mut hops: Vec<NodeId> = copy_ids(&header.hops);
        hops.push(self.id);
        let initiator_id: NodeId = longer.path_trace[0].0;
        let packet = Packet {
            pack_type: PacketType::FloodRequest(
                FloodRequest {
                    flood_id: longer.flood_id,
                    initiator_id,
                    path_trace: longer.path_trace,
                },
            ),
            routing_header: SourceRoutingHeader { hop_index: header.hop_index + 1, hops },
            session_id,
        };
        let from: Option<NodeId> = if n > 0 {
            Some(request.path_trace[n - 1].0)
        } else {
            None
        };
        let mut i: usize = 0;
        assert(self.packet_send@.subrange(0, 0) =~= Seq::<NodeId>::empty());
        assert(outbox(out@) =~= outbox(old(out)@) + doubled(Seq::<NodeId>::empty(), from, packet@));
        while i < self.packet_send.len()
            invariant
                i <= self.packet_send@.len(),
                outbox(out@) == outbox(old(out)@) + doubled(
                    self.packet_send@.subrange(0, i as int),
                    from,
                    packet@,
                ),
            decreases self.packet_send@.len() - i,
        {
            let to: NodeId = self.packet_send[i];
            proof {
                let s = self.packet_send@.subrange(0, i + 1);
                assert(s.drop_last() =~= self.packet_send@.subrange(0, i as int));
                assert(s.last() == to);
            }
            let back: bool = match from {
                Some(x) => x == to,
                None => false,
            };
            if !back {
                post(out, to, packet.clone());
            }
            post(out, to, packet.clone());
            i = i + 1;
            assert(outbox(out@) =~= outbox(old(out)@) + doubled(
                self.packet_send@.subrange(0, i as int),
                from,
                packet@,
            ));
        }
        assert(self.packet_send@.subrange(0, i as int) =~= self.packet_send@);
        assert(self@ =~= old(self)@.after_flood_request(request@));
    }

    /// Sends the receipt of a fragment, twice, to the hop of its header.
    pub fn send_ack(&self, packet: &Packet, fragment: &Fragment, out: &mut Vec<Outgoing>)
        ensures
            outbox(final(out)@) == outbox(old(out)@) + self@.ack(packet@, fragment.fragment_index),
    {
        let i: usize = packet.routing_header.hop_index;
        if i < packet.routing_header.hops.len() {
            let next: NodeId = packet.routing_header.hops[i];
            if has_id(&self.packet_send, next) {
                let ack = Packet {
                    pack_type: PacketType::Ack(Ack { fragment_index: fragment.fragment_index }),
                    routing_header: packet.routing_header.clone(),
                    session_id: packet.session_id,
                };
                post(out, next, ack.clone());
                post(out, next, ack);
            }
        }
        assert(outbox(out@) =~= outbox(old(out)@) + self@.ack(packet@, fragment.fragment_index));
    }

    /// Takes a fragment in; returns the message that it completes.
    pub fn store_fragment(&mut self, session_id: u64, fragment: &Fragment) -> (r: Option<Vec<u8>>)
        requires
            old(self)@.wf(),
            has_place(*fragment),
        ensures
            final(self)@.wf(),
            final(self)@ == old(self)@.after_fragment(session_id, *fragment),
            match r {
                Some(message) => old(self)@.completes(session_id, *fragment) && message@ == old(
                    self,
                )@.completed(session_id, *fragment),
                None => !old(self)@.completes(session_id, *fragment),
            },
    {
        let ghost a = self@;
        let total: usize = fragment.total_n_fragments as usize;
        let size: usize = total * 128;
        let n: usize = fragment.length as usize;
        let at: usize = fragment.fragment_index as usize * 128;
        let mut data: Vec<u8> = match self.received_packets.remove(&session_id) {
            Some(d) => {
                assert(a.received.contains_key(session_id));
                let mut d: Vec<u8> = d;
                let ghost before = d@;
                if d.len() != size {
                    d.resize(size, 0);
                }
                assert(d@ =~= resized(before, size as int));
                d
            },
            None => {
                assert(!a.received.contains_key(session_id));
                let d: Vec<u8> = vec![0u8; size];
                assert(d@ =~= zeros(size as int));
                d
            },
        };
        let ghost before = data@;
        let mut j: usize = 0;
        while j < n
            invariant
                n == fragment.length,
                n <= 128,
                j <= n,
                size == data@.len(),
                size == before.len(),
                at + 128 <= size,
                data@ == overwritten(before, at as int, fragment.data@, j as int),
            decreases n - j,
        {
            let b: u8 = fragment.data[j];
            data.set(at + j, b);
            j = j + 1;
            assert(data@ =~= overwritten(before, at as int, fragment.data@, j as int));
        }
        assert(data@ == a.buffer(session_id, *fragment));
        if all_slots_written(&data, total, n) {
            let keep: usize = (total - 1) * 128 + n;
            data.truncate(keep);
            assert(self@.received =~= a.received.remove(session_id));
            assert(self@ =~= a.after_fragment(session_id, *fragment));
            assert(data@ =~= a.completed(session_id, *fragment));
            Some(data)
        } else {
            self.received_packets.insert(session_id, data);
            assert(self@.received =~= a.received.insert(
                session_id,
                a.buffer(session_id, *fragment),
            ));
            assert(self@ =~= a.after_fragment(session_id, *fragment));
            None
        }
    }

    /// Takes a fragment in; tells what the message says that it completes.
    pub fn reassemble_packet(
        &mut self,
        fragment: &Fragment,
        packet: &Packet,
        globals: &mut ClientGlobals,
        out: &mut Vec<Outgoing>,
    ) -> (r: Option<News>)
        requires
            old(self)@.wf(),
            has_place(*fragment),
        ensures
            final(self)@.wf(),
            final(self)@ == old(self)@.after_fragment(packet.session_id, *fragment),
            news_view(r) == old(self)@.fragment_news(packet.session_id, *fragment),
            *final(globals) == (match old(self)@.fragment_news(packet.session_id, *fragment) {
                Some(n) => status_after(*old(globals), n),
                None => *old(globals),
            }),
            outbox(final(out)@) == outbox(old(out)@) + old(self)@.ack(
                packet@,
                fragment.fragment_index,
            ),
    {
        self.send_ack(packet, fragment, out);
        match self.store_fragment(packet.session_id, fragment) {
            Some(message) => {
                let text: String = message_text(&message);
                Some(packet_command_handling(text.as_str(), globals))
            },
            None => None,
        }
    }

    /// Takes in what a flood response tells of the network.
    pub fn process_flood_response(&mut self, response: &FloodResponse)
        requires
            old(self)@.wf(),
        ensures
            final(self)@.wf(),
            final(self)@ == (Client2View {
                mesh: after_trace(old(self)@.mesh, response@.path_trace),
                ..old(self)@
            }),
    {
        self.mesh.take_trace(&response.path_trace);
        assert(self@ =~= Client2View {
            mesh: after_trace(old(self)@.mesh, response@.path_trace),
            ..old(self)@
        });
    }
}

/// Position at which an id occurs first.
pub open spec fn first_position(hops: Seq<NodeId>, id: NodeId) -> Option<int> {
    hops.index_of_first(id)
}

/// The client with the mesh that a search for a route leaves behind.
pub open spec fn after_search2(a: Client2View, target: NodeId) -> Client2View {
    Client2View { mesh: a.mesh.after_best_path(a.id, target, a.channels), ..a }
}

/// A lost fragment has been sent once more along a new route; `ok` says whether
/// there was one with a next hop that a channel leads to.
pub open spec fn resent_one(
    a: Client2View,
    b: Client2View,
    f: Fragment,
    session: u64,
    server: NodeId,
    added: Seq<OutgoingView>,
    ok: bool,
) -> bool {
    exists|path: Option<Seq<NodeId>>|
        {
            &&& #[trigger] a.mesh.best_path_is(a.id, server, a.channels, path)
            &&& b == after_search2(a, server)
            &&& match path {
                Some(p) => if p.len() > 1 && a.neighbours.contains(p[1]) {
                    ok && added == seq![
                        OutgoingView { to: p[1], packet: fragment_packet(p, f, session) },
                    ]
                } else {
                    !ok && added == Seq::<OutgoingView>::empty()
                },
                None => !ok && added == Seq::<OutgoingView>::empty(),
            }
        }
}

/// The fragments with an index have been sent once more, up to the first one
/// without a route.
pub open spec fn resent_all(
    a: Client2View,
    b: Client2View,
    fragments: Seq<Fragment>,
    index: u64,
    session: u64,
    server: NodeId,
    added: Seq<OutgoingView>,
    ok: bool,
) -> bool
    decreases fragments.len(),
{
    if fragments.len() == 0 {
        b == a && added == Seq::<OutgoingView>::empty() && ok
    } else if fragments.last().fragment_index != index {
        resent_all(a, b, fragments.drop_last(), index, session, server, added, ok)
    } else {
        ||| !ok && resent_all(a, b, fragments.drop_last(), index, session, server, added, false)
        ||| exists|m: Client2View, cut: int|
            {
                &&& 0 <= cut <= added.len()
                &&& resent_all(
                    a,
                    m,
                    fragments.drop_last(),
                    index,
                    session,
                    server,
                    added.subrange(0, cut),
                    true,
                )
                &&& #[trigger] resent_one(
                    m,
                    b,
                    fragments.last(),
                    session,
                    server,
                    added.subrange(cut, added.len() as int),
                    ok,
                )
            }
    }
}

impl Client2View {
    /// The client after a loss at a node: all links of the node are dearer.
    pub open spec fn after_loss(self, h: HeaderView) -> Client2View {
        Client2View {
            mesh: MeshView {
                edges: dearer_at(self.mesh.edges, self.mesh.map[h.hops[0]].0),
                ..self.mesh
            },
            ..self
        }
    }

    /// The client can take a nack in: a loss is reported by a node that it knows,
    /// and for a failed link the channels are known.
    pub open spec fn nack_fits(self, n: Nack, h: HeaderView) -> bool {
        match n.nack_type {
            NackType::Dropped => h.hops.len() > 0 && self.mesh.map.contains_key(h.hops[0]),
            NackType::ErrorInRouting(_) => self.channels is Some,
            _ => true,
        }
    }

    /// `mesh` is the mesh after a failed link or a crashed node.
    pub open spec fn error_mesh(self, mesh: MeshView, node: NodeId, h: HeaderView) -> bool {
        if self.channels is Some && mentioned(self.channels->0, node) {
            match first_position(h.hops, node) {
                Some(k) => if k > 0 && self.mesh.map.contains_key(h.hops[k - 1])
                    && self.mesh.map.contains_key(node) {
                    mesh == self.mesh.without_link(
                        self.mesh.map[h.hops[k - 1]].0,
                        self.mesh.map[node].0,
                    )
                } else {
                    mesh == self.mesh
                },
                None => mesh == self.mesh,
            }
        } else {
            if self.mesh.map.contains_key(node) {
                mesh == (MeshView { map: self.mesh.map.remove(node), ..self.mesh }).without_links_at(
                    self.mesh.map[node].0,
                )
            } else {
                mesh == self.mesh
            }
        }
    }
}

/// A nack has been handled. A loss makes the links of the node dearer, and the
/// fragment is sent once more; anything else is followed by a flood. `ok` is false
/// where there is no route for the fragment.
pub open spec fn nack_handled2(
    a: Client2View,
    b: Client2View,
    n: Nack,
    session: u64,
    h: HeaderView,
    g0: ClientGlobals,
    g1: ClientGlobals,
    added: Seq<OutgoingView>,
    ok: bool,
) -> bool {
    match n.nack_type {
        NackType::Dropped => {
            &&& g1 == g0
            &&& if a.sent.contains_key(session) {
                resent_all(
                    a.after_loss(h),
                    b,
                    a.sent[session],
                    n.fragment_index,
                    session,
                    g0.server,
                    added,
                    ok,
                )
            } else {
                ok && b == a.after_loss(h) && added == Seq::<OutgoingView>::empty()
            }
        },
        NackType::ErrorInRouting(node) => {
            &&& ok
            &&& a.error_mesh(b.mesh, node, h)
            &&& b == (Client2View { mesh: b.mesh, ..a })
            &&& g1 == g0.next_flood()
            &&& added == a.flood_requests(g0)
        },
        _ => ok && b == a && g1 == g0.next_flood() && added == a.flood_requests(g0),
    }
}

impl MyClient {
    /// Sends a fragment along a new route; says whether there was one.
    fn resend(
        &mut self,
        fragment: &Fragment,
        session_id: u64,
        server: NodeId,
        out: &mut Vec<Outgoing>,
    ) -> (ok: bool)
        requires
            old(self)@.wf(),
        ensures
            final(self)@.wf(),
            final(self)@.sent == old(self)@.sent,
            final(self)@.neighbours == old(self)@.neighbours,
            exists|added: Seq<OutgoingView>|
                {
                    &&& #[trigger] resent_one(
                        old(self)@,
                        final(self)@,
                        *fragment,
                        session_id,
                        server,
                        added,
                        ok,
                    )
                    &&& outbox(final(out)@) == outbox(old(out)@) + added
                },
    {
        let ghost a = self@;
        let path: Option<Vec<NodeId>> = self.mesh.best_path(self.id, server, &self.shared_senders);
        assert(self@ =~= after_search2(a, server));
        assert(a.mesh.best_path_is(a.id, server, a.channels, ids_view(path)));
        match path {
            Some(hops) => {
                let ghost p = hops@;
                if hops.len() > 1 {
                    let next: NodeId = hops[1];
                    if has_id(&self.packet_send, next) {
                        let packet = Packet {
                            pack_type: PacketType::MsgFragment(*fragment),
                            routing_header: SourceRoutingHeader { hop_index: 1, hops },
                            session_id,
                        };
                        post(out, next, packet);
                        proof {
                            let added = seq![
                                OutgoingView {
                                    to: next,
                                    packet: fragment_packet(p, *fragment, session_id),
                                },
                            ];
                            assert(packet@ == fragment_packet(p, *fragment, session_id));
                            assert(outbox(out@) =~= outbox(old(out)@) + added);
                            assert(a.mesh.best_path_is(a.id, server, a.channels, Some(p)));
                            assert(resent_one(
                                a,
                                self@,
                                *fragment,
                                session_id,
                                server,
                                added,
                                true,
                            ));
                        }
                        return true;
                    }
                }
                proof {
                    let added = Seq::<OutgoingView>::empty();
                    assert(outbox(out@) =~= outbox(old(out)@) + added);
                    assert(a.mesh.best_path_is(a.id, server, a.channels, Some(p)));
                    assert(resent_one(a, self@, *fragment, session_id, server, added, false));
                }
                false
            },
            None => {
                proof {
                    let added = Seq::<OutgoingView>::empty();
                    assert(outbox(out@) =~= outbox(old(out)@) + added);
                    assert(a.mesh.best_path_is(a.id, server, a.channels, None::<Seq<NodeId>>));
                    assert(resent_one(a, self@, *fragment, session_id, server, added, false));
                }
                false
            },
        }
    }

    /// Sends the fragments with an index once more; says whether each had a route.
    fn resend_index(
        &mut self,
        fragments: &Vec<Fragment>,
        index: u64,
        session_id: u64,
        server: NodeId,
        out: &mut Vec<Outgoing>,
    ) -> (ok: bool)
        requires
            old(self)@.wf(),
        ensures
            final(self)@.wf(),
            exists|added: Seq<OutgoingView>|
                {
                    &&& #[trigger] resent_all(
                        old(self)@,
                        final(self)@,
                        fragments@,
                        index,
                        session_id,
                        server,
                        added,
                        ok,
                    )
                    &&& outbox(final(out)@) == outbox(old(out)@) + added
                },
    {
        let ghost a = self@;
        let mut i: usize = 0;
        let mut ok: bool = true;
        let ghost mut added = Seq::<OutgoingView>::empty();
        assert(outbox(out@) =~= outbox(old(out)@) + added);
        assert(fragments@.subrange(0, 0) =~= Seq::<Fragment>::empty());
        while i < fragments.len()
            invariant
                self@.wf(),
                i <= fragments@.len(),
                resent_all(
                    a,
                    self@,
                    fragments@.subrange(0, i as int),
                    index,
                    session_id,
                    server,
                    added,
                    ok,
                ),
                outbox(out@) == outbox(old(out)@) + added,
            decreases fragments@.len() - i,
        {
            let ghost s = fragments@.subrange(0, i + 1);
            proof {
                assert(s.drop_last() =~= fragments@.subrange(0, i as int));
                assert(s.last() == fragments@[i as int]);
            }
            if ok && fragments[i].fragment_index == index {
                let ghost before = self@;
                let ghost posted = outbox(out@);
                ok = self.resend(&fragments[i], session_id, server, out);
                proof {
                    let last = choose|last: Seq<OutgoingView>|
                        {
                            &&& #[trigger] resent_one(
                                before,
                                self@,
                                fragments@[i as int],
                                session_id,
                                server,
                                last,
                                ok,
                            )
                            &&& outbox(out@) == posted + last
                        };
                    let more = added + last;
                    let cut = added.len() as int;
                    assert(more.subrange(0, cut) =~= added);
                    assert(more.subrange(cut, more.len() as int) =~= last);
                    assert(outbox(out@) =~= outbox(old(out)@) + more);
                    assert(resent_one(
                        before,
                        self@,
                        s.last(),
                        session_id,
                        server,
                        more.subrange(cut, more.len() as int),
                        ok,
                    ));
                    assert(resent_all(a, self@, s, index, session_id, server, more, ok));
                    added = more;
                }
            } else {
                assert(resent_all(a, self@, s, index, session_id, server, added, ok));
            }
            i = i + 1;
        }
        assert(fragments@.subrange(0, i as int) =~= fragments@);
        ok
    }

    /// Reacts to the report that a packet was not delivered; says whether a lost
    /// fragment could be sent once more.
    pub fn process_nack(
        &mut self,
        nack: &Nack,
        packet: &Packet,
        globals: &mut ClientGlobals,
        out: &mut Vec<Outgoing>,
    ) -> (ok: bool)
        requires
            old(self)@.wf(),
            old(self)@.nack_fits(*nack, packet@.header),
        ensures
            final(self)@.wf(),
            exists|added: Seq<OutgoingView>|
                {
                    &&& #[trigger] nack_handled2(
                        old(self)@,
                        final(self)@,
                        *nack,
                        packet.session_id,
                        packet@.header,
                        *old(globals),
                        *final(globals),
                        added,
                        ok,
                    )
                    &&& outbox(final(out)@) == outbox(old(out)@) + added
                },
    {
        let ghost a = self@;
        let ghost g0 = *globals;
        let ghost posted = outbox(out@);
        let hops: &Vec<NodeId> = &packet.routing_header.hops;
        let session_id: u64 = packet.session_id;
        match nack.nack_type {
            NackType::Dropped => {
                self.mesh.increase_cost(hops[0]);
                let ghost m = a.after_loss(packet@.header);
                assert(self@ =~= m);
                let fragments: Option<Vec<Fragment>> = match self.sent_messages.get(&session_id) {
                    Some(list) => {
                        assert(a.sent.contains_key(session_id));
                        Some(copy_fragments(list))
                    },
                    None => {
                        assert(!a.sent.contains_key(session_id));
                        None
                    },
                };
                match fragments {
                    Some(list) => {
                        let ok: bool = self.resend_index(
                            &list,
                            nack.fragment_index,
                            session_id,
                            globals.server,
                            out,
                        );
                        proof {
                            let added = choose|added: Seq<OutgoingView>|
                                {
                                    &&& #[trigger] resent_all(
                                        m,
                                        self@,
                                        list@,
                                        nack.fragment_index,
                                        session_id,
                                        g0.server,
                                        added,
                                        ok,
                                    )
                                    &&& outbox(out@) == posted + added
                                };
                            assert(nack_handled2(
                                a,
                                self@,
                                *nack,
                                session_id,
                                packet@.header,
                                g0,
                                *globals,
                                added,
                                ok,
                            ));
                        }
                        ok
                    },
                    None => {
                        proof {
                            let added = Seq::<OutgoingView>::empty();
                            assert(outbox(out@) =~= posted + added);
                            assert(nack_handled2(
                                a,
                                self@,
                                *nack,
                                session_id,
                                packet@.header,
                                g0,
                                *globals,
                                added,
                                true,
                            ));
                        }
                        true
                    },
                }
            },
            NackType::ErrorInRouting(node) => {
                let involved: bool = match &self.shared_senders {
                    Some(s) => s.mentions(node),
                    None => false,
                };
                if involved {
                    if let Some(k) = position_of(hops, node) {
                        if k > 0 && self.mesh.knows(hops[k - 1]) && self.mesh.knows(node) {
                            let x: u32 = self.mesh.index_or_first(hops[k - 1]);
                            let y: u32 = self.mesh.index_or_first(node);
                            self.mesh.remove_link(x, y);
                        }
                    }
                } else {
                    if let Some(i) = self.mesh.forget(node) {
                        self.mesh.remove_all_edges_with_node(i);
                    } else {
                        assert(self@.mesh =~= a.mesh) by {
                            assert(a.mesh.map.remove(node) =~= a.mesh.map);
                        }
                    }
                }
                assert(self@ =~= Client2View { mesh: self@.mesh, ..a });
                self.send_flood_request(globals, out);
                proof {
                    assert(nack_handled2(
                        a,
                        self@,
                        *nack,
                        session_id,
                        packet@.header,
                        g0,
                        *globals,
                        a.flood_requests(g0),
                        true,
                    ));
                }
                true
            },
            _ => {
                self.send_flood_request(globals, out);
                assert(nack_handled2(
                    a,
                    self@,
                    *nack,
                    session_id,
                    packet@.header,
                    g0,
                    *globals,
                    a.flood_requests(g0),
                    true,
                ));
                true
            },
        }
    }
}

/// A copy of a list of fragments.
pub fn copy_fragments(v: &Vec<Fragment>) -> (r: Vec<Fragment>)
    ensures
        r@ == v@,
{
    let mut r: Vec<Fragment> = Vec::new();
    let mut i: usize = 0;
    while i < v.len()
        invariant
            i <= v@.len(),
            r@ == v@.subrange(0, i as int),
        decreases v@.len() - i,
    {
        r.push(v[i]);
        i = i + 1;
    }
    assert(r@ =~= v@);
    r
}

fn position_of(hops: &Vec<NodeId>, id: NodeId) -> (r: Option<usize>)
    ensures
        match r {
            Some(k) => k < hops@.len() && first_position(hops@, id) == Some(k as int),
            None => first_position(hops@, id) is None,
        },
{
    let mut i: usize = 0;
    while i < hops.len()
        invariant
            i <= hops@.len(),
            forall|j: int| 0 <= j < i ==> hops@[j] != id,
        decreases hops@.len() - i,
    {
        if hops[i] == id {
            proof {
                assert(hops@.contains(id));
                hops@.index_of_first_ensures(id);
            }
            return Some(i);
        }
        i = i + 1;
    }
    proof {
        hops@.index_of_first_ensures(id);
    }
    None
}

/// What the client does about a route for a message.
#[derive(Debug)]
pub enum RouteStep {
    /// Send the message along the route.
    Ready(Vec<NodeId>),
    /// Go on with the next stage.
    Continue(u8),
    /// Wait for some milliseconds, then go on with the next stage.
    Wait(u64, u8),
    /// Give the message up.
    GiveUp,
}

/// The first stage of a search for a route that is not the one to send by yet.
pub const FIRST_SEARCH: u8 = 0;

/// The stage after the first search has failed and some time has passed.
pub const SEARCH_AGAIN: u8 = 1;

/// The stage of the first of three attempts to find a route to send by.
pub const FIRST_ATTEMPT: u8 = 2;

/// The stage after the last attempt.
pub const OUT_OF_ATTEMPTS: u8 = 5;

/// One stage of the search for a route has been passed: the client looks for one,
/// and starts a flood where there is none. The second search only clears the mesh.
pub open spec fn route_step_done(
    a: Client2View,
    b: Client2View,
    stage: u8,
    target: NodeId,
    g0: ClientGlobals,
    g1: ClientGlobals,
    step: RouteStep,
    added: Seq<OutgoingView>,
) -> bool {
    let m = after_search2(a, target);
    let quiet = g1 == g0 && added == Seq::<OutgoingView>::empty();
    let flooded = g1 == g0.next_flood() && added == m.flood_requests(g0);
    if stage >= OUT_OF_ATTEMPTS {
        b == a && quiet && step == RouteStep::GiveUp
    } else {
        &&& b == m
        &&& exists|path: Option<Seq<NodeId>>|
            {
                &&& #[trigger] a.mesh.best_path_is(a.id, target, a.channels, path)
                &&& if stage == FIRST_SEARCH {
                    if path is Some {
                        quiet && step == RouteStep::Continue(FIRST_ATTEMPT)
                    } else {
                        flooded && step == RouteStep::Wait(100, SEARCH_AGAIN)
                    }
                } else if stage == SEARCH_AGAIN {
                    quiet && step == RouteStep::Continue(FIRST_ATTEMPT)
                } else {
                    match path {
                        Some(p) => quiet && step is Ready && step->Ready_0@ == p,
                        None => flooded && step == RouteStep::Wait(150, (stage + 1) as u8),
                    }
                }
            }
    }
}

/// A message has been sent along a route: its fragments are kept under the session.
pub open spec fn sent_along2(
    a: Client2View,
    b: Client2View,
    input: Seq<char>,
    hops: Seq<NodeId>,
    session: u64,
    added: Seq<OutgoingView>,
) -> bool {
    exists|fragments: Seq<Fragment>|
        {
            &&& #[trigger] are_chunks(fragments, encode_utf8(trim_back(input)))
            &&& b == (if fragments.len() > 0 {
                Client2View {
                    sent: a.sent.insert(
                        session,
                        (if a.sent.contains_key(session) {
                            a.sent[session]
                        } else {
                            Seq::empty()
                        }) + fragments,
                    ),
                    ..a
                }
            } else {
                a
            })
            &&& added == (if hops.len() > 1 && a.neighbours.contains(hops[1]) {
                fragments.map_values(
                    |f: Fragment|
                        OutgoingView { to: hops[1], packet: fragment_packet(hops, f, session) },
                )
            } else {
                Seq::<OutgoingView>::empty()
            })
        }
}

impl MyClient {
    /// Passes one stage of the search for a route to the server.
    pub fn route_step(&mut self, stage: u8, globals: &mut ClientGlobals, out: &mut Vec<Outgoing>) -> (r:
        RouteStep)
        requires
            old(self)@.wf(),
        ensures
            final(self)@.wf(),
            exists|added: Seq<OutgoingView>|
                {
                    &&& #[trigger] route_step_done(
                        old(self)@,
                        final(self)@,
                        stage,
                        old(globals).server,
                        *old(globals),
                        *final(globals),
                        r,
                        added,
                    )
                    &&& outbox(final(out)@) == outbox(old(out)@) + added
                },
    {
        let ghost a = self@;
        let ghost g0 = *globals;
        let ghost nothing = Seq::<OutgoingView>::empty();
        assert(outbox(out@) =~= outbox(old(out)@) + nothing);
        let target: NodeId = globals.server;
        if stage >= OUT_OF_ATTEMPTS {
            let r = RouteStep::GiveUp;
            assert(route_step_done(a, self@, stage, target, g0, *globals, r, nothing));
            return r;
        }
        let path: Option<Vec<NodeId>> = self.mesh.best_path(self.id, target, &self.shared_senders);
        let ghost m = after_search2(a, target);
        assert(self@ =~= m);
        let ghost p = ids_view(path);
        assert(a.mesh.best_path_is(a.id, target, a.channels, p));
        let r: RouteStep = if stage == SEARCH_AGAIN {
            RouteStep::Continue(FIRST_ATTEMPT)
        } else {
            match path {
                Some(hops) => if stage == FIRST_SEARCH {
                    RouteStep::Continue(FIRST_ATTEMPT)
                } else {
                    RouteStep::Ready(hops)
                },
                None => {
                    self.send_flood_request(globals, out);
                    assert(self@ == m);
                    let r: RouteStep = if stage == FIRST_SEARCH {
                        RouteStep::Wait(100, SEARCH_AGAIN)
                    } else {
                        RouteStep::Wait(150, stage + 1)
                    };
                    assert(route_step_done(
                        a,
                        self@,
                        stage,
                        target,
                        g0,
                        *globals,
                        r,
                        m.flood_requests(g0),
                    ));
                    return r;
                },
            }
        };
        assert(route_step_done(a, self@, stage, target, g0, *globals, r, nothing));
        r
    }

    /// Sends a message along a route.
    pub fn send_packet(
        &mut self,
        input: &str,
        hops: &Vec<NodeId>,
        globals: &mut ClientGlobals,
        out: &mut Vec<Outgoing>,
    )
        requires
            old(self)@.wf(),
        ensures
            final(self)@.wf(),
            *final(globals) == old(globals).next_session(),
            exists|added: Seq<OutgoingView>|
                {
                    &&& #[trigger] sent_along2(
                        old(self)@,
                        final(self)@,
                        input@,
                        hops@,
                        old(globals).session_ids,
                        added,
                    )
                    &&& outbox(final(out)@) == outbox(old(out)@) + added
                },
    {
        let ghost a = self@;
        let session_id: u64 = globals.session_ids;
        let message: String = trim_end(input);
        let fragments: Vec<Fragment> = fragment_bytes(message.as_str().as_bytes());
        let reached: bool = hops.len() > 1 && has_id(&self.packet_send, hops[1]);
        let ghost packets = if reached {
            fragments@.map_values(
                |f: Fragment|
                    OutgoingView {
                        to: hops@[1],
                        packet: fragment_packet(hops@, f, session_id),
                    },
            )
        } else {
            Seq::<OutgoingView>::empty()
        };
        let mut i: usize = 0;
        assert(outbox(out@) =~= outbox(old(out)@) + packets.subrange(0, 0));
        if reached {
            while i < fragments.len()
                invariant
                    i <= fragments@.len(),
                    reached,
                    hops@.len() > 1,
                    packets == fragments@.map_values(
                        |f: Fragment|
                            OutgoingView {
                                to: hops@[1],
                                packet: fragment_packet(hops@, f, session_id),
                            },
                    ),
                    outbox(out@) == outbox(old(out)@) + packets.subrange(0, i as int),
                decreases fragments@.len() - i,
            {
                let packet = Packet {
                    pack_type: PacketType::MsgFragment(fragments[i]),
                    routing_header: SourceRoutingHeader { hop_index: 1, hops: copy_ids(hops) },
                    session_id,
                };
                post(out, hops[1], packet);
                i = i + 1;
                proof {
                    assert(packets[i - 1] == (OutgoingView { to: hops@[1], packet: packet@ }));
                    assert(packets.subrange(0, i as int) =~= packets.subrange(0, i - 1).push(
                        packets[i - 1],
                    ));
                    assert(outbox(out@) =~= outbox(old(out)@) + packets.subrange(0, i as int));
                }
            }
        }
        assert(outbox(out@) =~= outbox(old(out)@) + packets);
        if fragments.len() > 0 {
            let mut kept: Vec<Fragment> = match self.sent_messages.remove(&session_id) {
                Some(list) => {
                    assert(a.sent.contains_key(session_id));
                    list
                },
                None => {
                    assert(!a.sent.contains_key(session_id));
                    Vec::new()
                },
            };
            let mut k: usize = 0;
            let ghost before = kept@;
            assert(kept@ =~= before + fragments@.subrange(0, 0));
            while k < fragments.len()
                invariant
                    k <= fragments@.len(),
                    kept@ == before + fragments@.subrange(0, k as int),
                decreases fragments@.len() - k,
            {
                kept.push(fragments[k]);
                k = k + 1;
                assert(kept@ =~= before + fragments@.subrange(0, k as int));
            }
            assert(kept@ =~= before + fragments@);
            self.sent_messages.insert(session_id, kept);
            assert(self@.sent =~= a.sent.insert(session_id, before + fragments@));
        }
        globals.count_session();
        proof {
            let want = if fragments@.len() > 0 {
                Client2View {
                    sent: a.sent.insert(
                        session_id,
                        (if a.sent.contains_key(session_id) {
                            a.sent[session_id]
                        } else {
                            Seq::empty()
                        }) + fragments@,
                    ),
                    ..a
                }
            } else {
                a
            };
            assert(self@.sent =~= want.sent);
            assert(self@ =~= want);
            assert(are_chunks(fragments@, encode_utf8(trim_back(input@))));
            assert(sent_along2(a, self@, input@, hops@, session_id, packets));
        }
    }
}

/// Why a command was refused.
#[derive(Clone, Copy, PartialEq, Eq, Structural, Debug)]
pub enum CommandError {
    /// An id cannot be read.
    InvalidId(IdFault),
    /// The user is still in a chat.
    StillChatting,
    /// The user has not logged in anywhere.
    NotLoggedIn,
    /// The user is in a chat already.
    AlreadyChatting,
    /// The user is in no chat.
    NotChatting,
    /// The command is unknown.
    UnknownFormat,
}

impl CommandError {
    /// The error in words.
    pub fn message(&self) -> (r: String)
        ensures
            r@ == (match self {
                CommandError::InvalidId(IdFault::Empty) => "cannot parse integer from empty string"@,
                CommandError::InvalidId(IdFault::InvalidDigit) => "invalid digit found in string"@,
                CommandError::InvalidId(IdFault::TooLarge) => "number too large to fit in target type"@,
                CommandError::StillChatting => "You are still in a chat with another user. End the chat before logging out"@,
                CommandError::NotLoggedIn => "You have yet to login to any server"@,
                CommandError::AlreadyChatting => "You are already in a chat with another user."@,
                CommandError::NotChatting => "You are not chatting with any user."@,
                CommandError::UnknownFormat => "Unknown format"@,
            }),
    {
        match self {
            CommandError::InvalidId(IdFault::Empty) => "cannot parse integer from empty string".to_owned(),
            CommandError::InvalidId(IdFault::InvalidDigit) => "invalid digit found in string".to_owned(),
            CommandError::InvalidId(IdFault::TooLarge) => "number too large to fit in target type".to_owned(),
            CommandError::StillChatting => "You are still in a chat with another user. End the chat before logging out".to_owned(),
            CommandError::NotLoggedIn => "You have yet to login to any server".to_owned(),
            CommandError::AlreadyChatting => "You are already in a chat with another user.".to_owned(),
            CommandError::NotChatting => "You are not chatting with any user.".to_owned(),
            CommandError::UnknownFormat => "Unknown format".to_owned(),
        }
    }
}

/// The user's status after a command, and whether the command goes to the server.
pub open spec fn command_outcome(g: ClientGlobals, t: Seq<Seq<char>>) -> (
    ClientGlobals,
    Result<(), CommandError>,
) {
    let one = t.len() == 1;
    let two = t.len() == 2;
    let three = t.len() == 3;
    if two && t[0] == "[Login]"@ {
        match id_number(t[1]) {
            Some(id) => (ClientGlobals { chatting: false, peer: 0, server: id, ..g }, Ok(())),
            None => (g, Err(CommandError::InvalidId(id_fault(t[1])->0))),
        }
    } else if one && t[0] == "[Logout]"@ {
        if g.chatting {
            (g, Err(CommandError::StillChatting))
        } else if g.server != 0 {
            (g, Ok(()))
        } else {
            (g, Err(CommandError::NotLoggedIn))
        }
    } else if two && t[0] == "[ChatRequest]"@ {
        if !g.chatting && g.peer == 0 {
            match id_number(t[1]) {
                Some(id) => (ClientGlobals { chatting: true, peer: id, ..g }, Ok(())),
                None => (g, Err(CommandError::InvalidId(id_fault(t[1])->0))),
            }
        } else {
            (g, Err(CommandError::AlreadyChatting))
        }
    } else if two && t[0] == "[ChatFinish]"@ {
        if g.chatting {
            (ClientGlobals { chatting: false, peer: 0, ..g }, Ok(()))
        } else {
            (g, Err(CommandError::NotChatting))
        }
    } else if (one && (t[0] == "[ClientListRequest]"@ || t[0] == "[MediaListRequest]"@)) || (two
        && t[0] == "[MediaDownloadRequest]"@) || (three && (t[0] == "[MessageTo]"@ || t[0]
        == "[HistoryRequest]"@ || t[0] == "[MediaUpload]"@ || t[0] == "[MediaBroadcast]"@)) {
        (g, Ok(()))
    } else {
        (g, Err(CommandError::UnknownFormat))
    }
}

/// Decides on a command of the user.
pub fn decide_command(t: &Vec<String>, globals: &mut ClientGlobals) -> (r: Result<(), CommandError>)
    requires
        t@.len() >= 1,
    ensures
        (*final(globals), r) == command_outcome(*old(globals), texts(t@)),
{
    let ghost p = texts(t@);
    proof {
        assert forall|i: int| 0 <= i < t@.len() implies #[trigger] t@[i]@ == p[i] by {
            assert(texts(t@)[i] == t@[i]@);
        }
    }
    let n: usize = t.len();
    let tag: &str = t[0].as_str();
    if n == 2 && same_text(tag, "[Login]") {
        return match read_id(t[1].as_str()) {
            Ok(id) => {
                globals.chatting = false;
                globals.peer = 0;
                globals.server = id;
                Ok(())
            },
            Err(fault) => Err(CommandError::InvalidId(fault)),
        };
    }
    if n == 1 && same_text(tag, "[Logout]") {
        return if globals.chatting {
            Err(CommandError::StillChatting)
        } else if globals.server != 0 {
            Ok(())
        } else {
            Err(CommandError::NotLoggedIn)
        };
    }
    if n == 2 && same_text(tag, "[ChatRequest]") {
        if globals.chatting || globals.peer != 0 {
            return Err(CommandError::AlreadyChatting);
        }
        return match read_id(t[1].as_str()) {
            Ok(id) => {
                globals.chatting = true;
                globals.peer = id;
                Ok(())
            },
            Err(fault) => Err(CommandError::InvalidId(fault)),
        };
    }
    if n == 2 && same_text(tag, "[ChatFinish]") {
        if !globals.chatting {
            return Err(CommandError::NotChatting);
        }
        globals.chatting = false;
        globals.peer = 0;
        return Ok(());
    }
    if n == 1 && (same_text(tag, "[ClientListRequest]") || same_text(tag, "[MediaListRequest]")) {
        return Ok(());
    }
    if n == 2 && same_text(tag, "[MediaDownloadRequest]") {
        return Ok(());
    }
    if n == 3 && (same_text(tag, "[MessageTo]") || same_text(tag, "[HistoryRequest]") || same_text(
        tag,
        "[MediaUpload]",
    ) || same_text(tag, "[MediaBroadcast]")) {
        return Ok(());
    }
    Err(CommandError::UnknownFormat)
}

/// What comes of a command.
#[derive(Debug)]
pub enum CommandResult {
    /// The network has changed; nothing goes to the server.
    NoChatCommand,
    /// The command goes to the server; media that it broadcasts are shown.
    Send(Option<News>),
    /// The command is refused.
    Refused(CommandError),
}

/// The media that a command broadcasts.
pub open spec fn broadcast_media(t: Seq<Seq<char>>) -> Option<NewsView> {
    if t.len() == 3 && t[0] == "[MediaBroadcast]"@ {
        Some(media_news_of(t[1], base64_bytes(t[2])))
    } else {
        None
    }
}

impl Client2View {
    /// The other end of a link that the client is an end of.
    pub open spec fn peer_of(self, x: NodeId, y: NodeId) -> Option<NodeId> {
        if self.id == x {
            Some(y)
        } else if self.id == y {
            Some(x)
        } else {
            None
        }
    }

    /// The change links the client itself to a node that it has a channel to.
    pub open spec fn adds_own_link(self, x: NodeId, y: NodeId) -> bool {
        match (self.peer_of(x, y), self.channels) {
            (Some(peer), Some(c)) => c.contains((self.id, peer)),
            _ => false,
        }
    }

    /// A channel leads from the client to `other` or back.
    pub open spec fn channel_with(self, other: NodeId) -> bool {
        match self.channels {
            Some(c) => c.contains((other, self.id)) || c.contains((self.id, other)),
            None => false,
        }
    }

    /// The mesh with the client linked to a drone.
    pub open spec fn own_linked(self, peer: NodeId) -> MeshView {
        if self.mesh.room(2) {
            let m = self.mesh.with_node(peer, NodeType::Drone);
            m.with_link(self.mesh.index_or_first(self.id), m.map[peer].0, 1)
        } else {
            self.mesh
        }
    }

    /// The mesh with a drone, added where it is unknown.
    pub open spec fn with_drone(self, d: NodeId) -> MeshView {
        if self.mesh.room(1) {
            self.mesh.with_node(d, NodeType::Drone)
        } else {
            self.mesh
        }
    }

    /// `mesh` is the mesh after a change.
    pub open spec fn change_mesh(self, mesh: MeshView, c: ChangeView) -> bool {
        match c {
            ChangeView::AddSender(x, y) => mesh == (if self.adds_own_link(x, y) {
                self.own_linked(self.peer_of(x, y)->0)
            } else {
                self.mesh
            }),
            ChangeView::RemoveSender(x, y) => mesh == (if self.peer_of(x, y) is Some {
                self.mesh.without_link(
                    self.mesh.index_or_first(x),
                    self.mesh.index_or_first(y),
                )
            } else {
                self.mesh
            }),
            ChangeView::SpawnDrone(d, _) => mesh == (if self.channel_with(d) {
                self.with_drone(d)
            } else {
                self.mesh
            }),
            ChangeView::Crash(d) => if self.mesh.map.contains_key(d) {
                exists|m: MeshView| #[trigger]
                    mesh_node_removed(
                        MeshView { map: self.mesh.map.remove(d), ..self.mesh },
                        m,
                        self.mesh.map[d].0,
                    ) && mesh == m.without_links_at(self.mesh.map[d].0)
            } else {
                mesh == self.mesh
            },
            _ => mesh == self.mesh,
        }
    }

    /// The neighbours after a change.
    pub open spec fn change_neighbours(self, c: ChangeView) -> Seq<NodeId> {
        match c {
            ChangeView::AddSender(x, y) => if self.adds_own_link(x, y) {
                with_neighbour(self.neighbours, self.peer_of(x, y)->0)
            } else {
                self.neighbours
            },
            ChangeView::RemoveSender(x, y) => match self.peer_of(x, y) {
                Some(peer) => without_id(self.neighbours, peer),
                None => self.neighbours,
            },
            ChangeView::SpawnDrone(d, _) => if self.channel_with(d) {
                with_neighbour(self.neighbours, d)
            } else {
                self.neighbours
            },
            ChangeView::Crash(d) => without_id(self.neighbours, d),
            _ => self.neighbours,
        }
    }

    /// The client explores the network anew after a change.
    pub open spec fn change_floods(self, c: ChangeView) -> bool {
        match c {
            ChangeView::AddSender(x, y) => self.peer_of(x, y) is Some && self.channels is Some,
            ChangeView::Malformed => false,
            _ => true,
        }
    }
}

/// A change has been taken in.
pub open spec fn change_handled2(
    a: Client2View,
    b: Client2View,
    c: ChangeView,
    g0: ClientGlobals,
    g1: ClientGlobals,
    added: Seq<OutgoingView>,
) -> bool {
    &&& a.change_mesh(b.mesh, c)
    &&& b == (Client2View { mesh: b.mesh, neighbours: a.change_neighbours(c), ..a })
    &&& if a.change_floods(c) {
        g1 == g0.next_flood() && added == b.flood_requests(g0)
    } else {
        g1 == g0 && added == Seq::<OutgoingView>::empty()
    }
}

/// A command has been handled.
pub open spec fn command_handled2(
    a: Client2View,
    b: Client2View,
    command: Seq<char>,
    g0: ClientGlobals,
    g1: ClientGlobals,
    added: Seq<OutgoingView>,
    r: CommandResult,
) -> bool {
    let t = tokens_of(command);
    match announced(command) {
        Some(c) => change_handled2(a, b, c, g0, g1, added) && r is NoChatCommand,
        None => {
            &&& b == a
            &&& added == Seq::<OutgoingView>::empty()
            &&& g1 == command_outcome(g0, t).0
            &&& match command_outcome(g0, t).1 {
                Ok(_) => r is Send && news_view(r->Send_0) == broadcast_media(t),
                Err(e) => r is Refused && r->Refused_0 == e,
            }
        },
    }
}

impl MyClient {
    fn gain_neighbour(&mut self, id: NodeId)
        requires
            old(self)@.wf(),
        ensures
            final(self)@.wf(),
            final(self)@ == (Client2View {
                neighbours: with_neighbour(old(self)@.neighbours, id),
                ..old(self)@
            }),
    {
        if !has_id(&self.packet_send, id) {
            self.packet_send.push(id);
        }
        assert(self@ =~= Client2View {
            neighbours: with_neighbour(old(self)@.neighbours, id),
            ..old(self)@
        });
    }

    fn lose_neighbour(&mut self, id: NodeId)
        requires
            old(self)@.wf(),
        ensures
            final(self)@.wf(),
            final(self)@ == (Client2View {
                neighbours: without_id(old(self)@.neighbours, id),
                ..old(self)@
            }),
    {
        self.packet_send = remove_id(&self.packet_send, id);
        proof {
            crate::packet::lemma_without_id(old(self).packet_send@, id);
            assert(self@ =~= Client2View {
                neighbours: without_id(old(self)@.neighbours, id),
                ..old(self)@
            });
        }
    }

    /// Takes a change of the network in.
    pub fn process_change(
        &mut self,
        change: &Change,
        globals: &mut ClientGlobals,
        out: &mut Vec<Outgoing>,
    )
        requires
            old(self)@.wf(),
        ensures
            final(self)@.wf(),
            exists|added: Seq<OutgoingView>|
                {
                    &&& #[trigger] change_handled2(
                        old(self)@,
                        final(self)@,
                        change@,
                        *old(globals),
                        *final(globals),
                        added,
                    )
                    &&& outbox(final(out)@) == outbox(old(out)@) + added
                },
    {
        let ghost a = self@;
        let ghost g0 = *globals;
        let mut flood: bool = true;
        match change {
            Change::AddSender(x, y) => {
                let x: NodeId = *x;
                let y: NodeId = *y;
                if self.id == x || self.id == y {
                    let peer: NodeId = if self.id == x {
                        y
                    } else {
                        x
                    };
                    let channel: bool = match &self.shared_senders {
                        Some(s) => s.contains(self.id, peer),
                        None => {
                            flood = false;
                            false
                        },
                    };
                    if channel {
                        if self.mesh.has_room(2) {
                            let own: u32 = self.mesh.index_or_first(self.id);
                            let (other, _): (u32, bool) = self.mesh.add_node_no_duplicate(
                                peer,
                                NodeType::Drone,
                            );
                            self.mesh.add_edge_no_duplicate(own, other, 1);
                        }
                        assert(self@.mesh == a.own_linked(peer));
                        self.gain_neighbour(peer);
                    }
                } else {
                    flood = false;
                }
            },
            Change::RemoveSender(x, y) => {
                let x: NodeId = *x;
                let y: NodeId = *y;
                if self.id == x || self.id == y {
                    let peer: NodeId = if self.id == x {
                        y
                    } else {
                        x
                    };
                    let i: u32 = self.mesh.index_or_first(x);
                    let j: u32 = self.mesh.index_or_first(y);
                    self.mesh.remove_link(i, j);
                    self.lose_neighbour(peer);
                }
            },
            Change::SpawnDrone(d, _) => {
                let d: NodeId = *d;
                let channel: bool = match &self.shared_senders {
                    Some(s) => s.contains(d, self.id) || s.contains(self.id, d),
                    None => false,
                };
                if channel {
                    if self.mesh.has_room(1) {
                        self.mesh.add_node_no_duplicate(d, NodeType::Drone);
                    }
                    self.gain_neighbour(d);
                }
            },
            Change::Crash(d) => {
                let d: NodeId = *d;
                if let Some(i) = self.mesh.forget(d) {
                    let ghost f = self@.mesh;
                    self.mesh.remove_node(i);
                    let ghost m = self@.mesh;
                    self.mesh.remove_all_edges_with_node(i);
                    assert(mesh_node_removed(f, m, i) && self@.mesh == m.without_links_at(i));
                    assert(a.change_mesh(self@.mesh, change@));
                } else {
                    assert(a.mesh.map.remove(d) =~= a.mesh.map);
                    assert(self@.mesh =~= a.mesh);
                }
                self.lose_neighbour(d);
            },
            Change::Malformed => {
                flood = false;
            },
            Change::Other => {},
        }
        let ghost m = Client2View {
            mesh: self@.mesh,
            neighbours: a.change_neighbours(change@),
            ..a
        };
        assert(self@ =~= m);
        assert(flood == a.change_floods(change@));
        assert(a.change_mesh(self@.mesh, change@));
        if flood {
            self.send_flood_request(globals, out);
            assert(change_handled2(a, self@, change@, g0, *globals, self@.flood_requests(g0)));
        } else {
            let ghost added = Seq::<OutgoingView>::empty();
            assert(outbox(out@) =~= outbox(old(out)@) + added);
            assert(change_handled2(a, self@, change@, g0, *globals, added));
        }
    }

    /// Handles a command: the announcement of a change, or a command of the user.
    pub fn process_gui_command(
        &mut self,
        command: &str,
        globals: &mut ClientGlobals,
        out: &mut Vec<Outgoing>,
    ) -> (r: CommandResult)
        requires
            old(self)@.wf(),
        ensures
            final(self)@.wf(),
            exists|added: Seq<OutgoingView>|
                {
                    &&& #[trigger] command_handled2(
                        old(self)@,
                        final(self)@,
                        command@,
                        *old(globals),
                        *final(globals),
                        added,
                        r,
                    )
                    &&& outbox(final(out)@) == outbox(old(out)@) + added
                },
    {
        let ghost a = self@;
        let ghost g0 = *globals;
        let ghost posted = outbox(out@);
        if let Some(change) = announcement(command) {
            self.process_change(&change, globals, out);
            let r = CommandResult::NoChatCommand;
            proof {
                let added = choose|added: Seq<OutgoingView>|
                    {
                        &&& #[trigger] change_handled2(a, self@, change@, g0, *globals, added)
                        &&& outbox(out@) == posted + added
                    };
                assert(command_handled2(a, self@, command@, g0, *globals, added, r));
            }
            return r;
        }
        let t: Vec<String> = tokens(command);
        let ghost p = tokens_of(command@);
        proof {
            assert forall|i: int| 0 <= i < t@.len() implies #[trigger] t@[i]@ == p[i] by {
                assert(texts(t@)[i] == t@[i]@);
            }
        }
        let r: CommandResult = match decide_command(&t, globals) {
            Ok(()) => {
                if t.len() == 3 && same_text(t[0].as_str(), "[MediaBroadcast]") {
                    let bytes: Option<Vec<u8>> = decode_base64(t[2].as_str());
                    CommandResult::Send(Some(media_news(t[1].as_str(), bytes)))
                } else {
                    CommandResult::Send(None)
                }
            },
            Err(e) => CommandResult::Refused(e),
        };
        proof {
            let added = Seq::<OutgoingView>::empty();
            assert(outbox(out@) =~= posted + added);
            assert(command_handled2(a, self@, command@, g0, *globals, added, r));
        }
        r
    }

    /// Whether the client can take a packet in.
    pub fn can_process(&self, packet: &Packet) -> (r: bool)
        ensures
            r == packet_fits2(self@, packet@),
    {
        match &packet.pack_type {
            PacketType::FloodRequest(request) => {
                let n: usize = request.path_trace.len();
                let answers: bool = self.seen_flood_ids.contains(
                    request.flood_id,
                    request.initiator_id,
                ) || self.packet_send.len() == 1;
                packet.routing_header.hop_index < usize::MAX && (!answers || (n > 0 && has_id(
                    &self.packet_send,
                    request.path_trace[n - 1].0,
                )))
            },
            PacketType::MsgFragment(f) => f.fragment_index < f.total_n_fragments
                && f.total_n_fragments as u128 * 128 <= isize::MAX as u128 && f.length <= 128,
            PacketType::Nack(nack) => match nack.nack_type {
                NackType::Dropped => packet.routing_header.hops.len() > 0 && self.mesh.knows(
                    packet.routing_header.hops[0],
                ),
                NackType::ErrorInRouting(_) => self.shared_senders.is_some(),
                _ => true,
            },
            _ => true,
        }
    }

    /// Takes a packet in; tells what the message says that it completes, and whether
    /// a lost fragment could be sent once more.
    pub fn process_packet(
        &mut self,
        packet: &Packet,
        globals: &mut ClientGlobals,
        out: &mut Vec<Outgoing>,
    ) -> (r: (Option<News>, bool))
        requires
            old(self)@.wf(),
            packet_fits2(old(self)@, packet@),
        ensures
            final(self)@.wf(),
            exists|added: Seq<OutgoingView>|
                {
                    &&& #[trigger] packet_handled2(
                        old(self)@,
                        final(self)@,
                        packet@,
                        *old(globals),
                        *final(globals),
                        added,
                        news_view(r.0),
                        r.1,
                    )
                    &&& outbox(final(out)@) == outbox(old(out)@) + added
                },
    {
        let ghost a = self@;
        let ghost g0 = *globals;
        let ghost posted = outbox(out@);
        let ghost nothing = Seq::<OutgoingView>::empty();
        assert(posted =~= posted + nothing);
        match &packet.pack_type {
            PacketType::FloodRequest(request) => {
                self.process_flood_request(request, &packet.routing_header, globals, out);
                let r: (Option<News>, bool) = (None, true);
                assert(packet_handled2(
                    a,
                    self@,
                    packet@,
                    g0,
                    *globals,
                    a.flood_answer(request@, packet@.header, g0.session_ids),
                    news_view(r.0),
                    r.1,
                ));
                r
            },
            PacketType::FloodResponse(response) => {
                self.process_flood_response(response);
                let r: (Option<News>, bool) = (None, true);
                assert(packet_handled2(a, self@, packet@, g0, *globals, nothing, news_view(r.0), r.1));
                r
            },
            PacketType::MsgFragment(fragment) => {
                let news: Option<News> = self.reassemble_packet(fragment, packet, globals, out);
                let r: (Option<News>, bool) = (news, true);
                assert(packet_handled2(
                    a,
                    self@,
                    packet@,
                    g0,
                    *globals,
                    a.ack(packet@, fragment.fragment_index),
                    news_view(r.0),
                    r.1,
                ));
                r
            },
            PacketType::Ack(_) => {
                let r: (Option<News>, bool) = (None, true);
                assert(packet_handled2(a, self@, packet@, g0, *globals, nothing, news_view(r.0), r.1));
                r
            },
            PacketType::Nack(nack) => {
                let ok: bool = self.process_nack(nack, packet, globals, out);
                let r: (Option<News>, bool) = (None, ok);
                proof {
                    let added = choose|added: Seq<OutgoingView>|
                        {
                            &&& #[trigger] nack_handled2(
                                a,
                                self@,
                                *nack,
                                packet.session_id,
                                packet@.header,
                                g0,
                                *globals,
                                added,
                                ok,
                            )
                            &&& outbox(out@) == posted + added
                        };
                    assert(packet_handled2(
                        a,
                        self@,
                        packet@,
                        g0,
                        *globals,
                        added,
                        news_view(r.0),
                        r.1,
                    ));
                }
                r
            },
        }
    }
}

/// The client can take a packet in.
pub open spec fn packet_fits2(a: Client2View, p: PacketView) -> bool {
    match p.body {
        BodyView::FloodRequest(r) => a.flood_fits(r, p.header),
        BodyView::MsgFragment(f) => has_place(f),
        BodyView::Nack(n) => a.nack_fits(n, p.header),
        _ => true,
    }
}

/// A packet has been handled; `news` is what it tells, and `ok` is false where a
/// lost fragment has no route.
pub open spec fn packet_handled2(
    a: Client2View,
    b: Client2View,
    p: PacketView,
    g0: ClientGlobals,
    g1: ClientGlobals,
    added: Seq<OutgoingView>,
    news: Option<NewsView>,
    ok: bool,
) -> bool {
    match p.body {
        BodyView::FloodRequest(r) => {
            &&& b == a.after_flood_request(r)
            &&& g1 == g0.next_session()
            &&& added == a.flood_answer(r, p.header, g0.session_ids)
            &&& news is None
            &&& ok
        },
        BodyView::FloodResponse(r) => {
            &&& b == (Client2View { mesh: after_trace(a.mesh, r.path_trace), ..a })
            &&& g1 == g0
            &&& added == Seq::<OutgoingView>::empty()
            &&& news is None
            &&& ok
        },
        BodyView::MsgFragment(f) => {
            &&& b == a.after_fragment(p.session_id, f)
            &&& news == a.fragment_news(p.session_id, f)
            &&& g1 == (match news {
                Some(n) => status_after(g0, n),
                None => g0,
            })
            &&& added == a.ack(p, f.fragment_index)
            &&& ok
        },
        BodyView::Ack(_) => {
            &&& b == a
            &&& g1 == g0
            &&& added == Seq::<OutgoingView>::empty()
            &&& news is None
            &&& ok
        },
        BodyView::Nack(n) => {
            &&& nack_handled2(a, b, n, p.session_id, p.header, g0, g1, added, ok)
            &&& news is None
        },
    }
}

}
