//! What a client learns from the messages that the server sends it.
use crate::media::{
    base64_bytes, bytes_view, decode_base64, pixel_layout, preview_ending, preview_extension,
    read_pixel_layout, PixelLayout,
};
use crate::packet::NodeId;
use crate::text::{
    decimal, drop_leading, drop_trailing, id_number, id_text, join2, join3, number, parse_id,
    parse_number, parts, pieces, same_text, split_at_char, split_parts, texts, trim, trim_both,
    trim_leading, trim_trailing,
};
use vstd::prelude::*;

verus! {

/// What a message from the server says.
#[derive(Debug)]
pub enum Notice {
    Message(NodeId, String),
    InvalidSender(String),
    ClientList(Vec<NodeId>),
    ChatAccepted,
    ChatDenied,
    InvalidChatStart(String),
    ChatTerminated,
    ChatRequest(NodeId),
    InvalidChatRequest(String),
    History(String),
    MediaUploaded(String),
    MediaNotFound,
    /// An image file to be saved under the second name and shown.
    Preview(String, String, Vec<u8>),
    NotAnImage(String),
    NotBase64(String),
    MediaList(Vec<String>),
    LoggedIn(u64),
    InvalidLoginAck(String),
    Unrecognized(String),
}

#[verifier::ext_equal]
pub enum NoticeView {
    Message(NodeId, Seq<char>),
    InvalidSender(Seq<char>),
    ClientList(Seq<NodeId>),
    ChatAccepted,
    ChatDenied,
    InvalidChatStart(Seq<char>),
    ChatTerminated,
    ChatRequest(NodeId),
    InvalidChatRequest(Seq<char>),
    History(Seq<char>),
    MediaUploaded(Seq<char>),
    MediaNotFound,
    Preview(Seq<char>, Seq<char>, Seq<u8>),
    NotAnImage(Seq<char>),
    NotBase64(Seq<char>),
    MediaList(Seq<Seq<char>>),
    LoggedIn(u64),
    InvalidLoginAck(Seq<char>),
    Unrecognized(Seq<char>),
}

impl View for Notice {
    type V = NoticeView;

    open spec fn view(&self) -> NoticeView {
        match self {
            Notice::Message(a, b) => NoticeView::Message(*a, b@),
            Notice::InvalidSender(a) => NoticeView::InvalidSender(a@),
            Notice::ClientList(a) => NoticeView::ClientList(a@),
            Notice::ChatAccepted => NoticeView::ChatAccepted,
            Notice::ChatDenied => NoticeView::ChatDenied,
            Notice::InvalidChatStart(a) => NoticeView::InvalidChatStart(a@),
            Notice::ChatTerminated => NoticeView::ChatTerminated,
            Notice::ChatRequest(a) => NoticeView::ChatRequest(*a),
            Notice::InvalidChatRequest(a) => NoticeView::InvalidChatRequest(a@),
            Notice::History(a) => NoticeView::History(a@),
            Notice::MediaUploaded(a) => NoticeView::MediaUploaded(a@),
            Notice::MediaNotFound => NoticeView::MediaNotFound,
            Notice::Preview(a, b, c) => NoticeView::Preview(a@, b@, c@),
            Notice::NotAnImage(a) => NoticeView::NotAnImage(a@),
            Notice::NotBase64(a) => NoticeView::NotBase64(a@),
            Notice::MediaList(a) => NoticeView::MediaList(texts(a@)),
            Notice::LoggedIn(a) => NoticeView::LoggedIn(*a),
            Notice::InvalidLoginAck(a) => NoticeView::InvalidLoginAck(a@),
            Notice::Unrecognized(a) => NoticeView::Unrecognized(a@),
        }
    }
}

/// A text in lower case.
pub uninterp spec fn lower_case(s: Seq<char>) -> Seq<char>;

/// A text of ASCII characters.
pub open spec fn is_ascii(s: Seq<char>) -> bool {
    forall|i: int| 0 <= i < s.len() ==> #[trigger] s[i] as u32 <= 127
}

/// An ASCII character in lower case: a letter from A to Z becomes one from a to z.
pub open spec fn ascii_lower(c: char) -> char {
    if 'A' <= c <= 'Z' {
        (c as u32 + 32) as char
    } else {
        c
    }
}

/// A text in lower case, letter by letter where it is ASCII.
pub open spec fn lowered(s: Seq<char>) -> Seq<char> {
    if is_ascii(s) {
        s.map_values(|c: char| ascii_lower(c))
    } else {
        lower_case(s)
    }
}

/// `str::to_lowercase`: the lower-case equivalent of a text. The letters from A to Z
/// become those from a to z; how other characters are mapped is left unsaid.
pub assume_specification[ str::to_lowercase ](s: &str) -> (r: String)
    ensures
        r@ == (if is_ascii(s@) {
            lowered(s@)
        } else {
            lower_case(s@)
        }),
;

/// The node ids among pieces of text, white space around them aside.
pub open spec fn ids_in(p: Seq<Seq<char>>) -> Seq<NodeId>
    decreases p.len(),
{
    if p.len() == 0 {
        Seq::empty()
    } else {
        match id_number(trim_both(p.last())) {
            Some(id) => ids_in(p.drop_last()).push(id),
            None => ids_in(p.drop_last()),
        }
    }
}

/// The names among pieces of text, white space around them aside.
pub open spec fn names_in(p: Seq<Seq<char>>) -> Seq<Seq<char>>
    decreases p.len(),
{
    if p.len() == 0 {
        Seq::empty()
    } else if trim_both(p.last()).len() == 0 {
        names_in(p.drop_last())
    } else {
        names_in(p.drop_last()).push(trim_both(p.last()))
    }
}

/// What a media download says, given the bytes and the pixel layout that the
/// base64 text turned out to hold.
pub open spec fn media_notice_of(
    id: NodeId,
    name: Seq<char>,
    bytes: Option<Seq<u8>>,
    layout: Option<PixelLayout>,
) -> NoticeView {
    match bytes {
        None => NoticeView::NotBase64(name),
        Some(b) => match layout {
            None => NoticeView::NotAnImage(name),
            Some(l) => NoticeView::Preview(
                name,
                "media_preview_"@ + decimal(id as nat) + ("."@ + preview_ending(l)),
                b,
            ),
        },
    }
}

/// The pixel layout of bytes, where there are any.
pub open spec fn layout_of(bytes: Option<Seq<u8>>) -> Option<PixelLayout> {
    match bytes {
        Some(b) => pixel_layout(b),
        None => None,
    }
}

/// What a message says to client `id`: its first part tells the kind, the other
/// parts are read accordingly.
pub open spec fn notice_of(id: NodeId, message: Seq<char>) -> NoticeView {
    let t = parts(trim_both(message), 3);
    if t.len() == 3 && t[0] == "[MessageFrom]"@ {
        match id_number(t[1]) {
            Some(sender) => NoticeView::Message(sender, t[2]),
            None => NoticeView::InvalidSender(t[1]),
        }
    } else if t.len() == 2 && t[0] == "[ClientListResponse]"@ {
        NoticeView::ClientList(
            ids_in(pieces(drop_trailing(drop_leading(t[1], '['), ']'), ',')),
        )
    } else if t.len() == 2 && t[0] == "[ChatStart]"@ {
        if lowered(t[1]) == "true"@ {
            NoticeView::ChatAccepted
        } else if lowered(t[1]) == "false"@ {
            NoticeView::ChatDenied
        } else {
            NoticeView::InvalidChatStart(t[1])
        }
    } else if t.len() == 1 && t[0] == "[ChatFinish]"@ {
        NoticeView::ChatTerminated
    } else if t.len() == 2 && t[0] == "[ChatRequest]"@ {
        match id_number(t[1]) {
            Some(requester) => NoticeView::ChatRequest(requester),
            None => NoticeView::InvalidChatRequest(t[1]),
        }
    } else if t.len() == 2 && t[0] == "[HistoryResponse]"@ {
        NoticeView::History(t[1])
    } else if t.len() == 2 && t[0] == "[MediaUploadAck]"@ {
        NoticeView::MediaUploaded(t[1])
    } else if t.len() == 3 && t[0] == "[MediaDownloadResponse]"@ {
        if t[1] == "ERROR"@ && t[2] == "NotFound"@ {
            NoticeView::MediaNotFound
        } else {
            media_notice_of(id, t[1], base64_bytes(t[2]), layout_of(base64_bytes(t[2])))
        }
    } else if t.len() == 2 && t[0] == "[MediaListResponse]"@ {
        NoticeView::MediaList(names_in(pieces(t[1], ',')))
    } else if t.len() == 2 && t[0] == "[LoginAck]"@ {
        match number(t[1], u64::MAX as nat) {
            Some(session) => NoticeView::LoggedIn(session as u64),
            None => NoticeView::InvalidLoginAck(t[1]),
        }
    } else {
        NoticeView::Unrecognized(t[0])
    }
}

/// The node ids among pieces of text.
pub fn collect_ids(p: &Vec<String>) -> (r: Vec<NodeId>)
    ensures
        r@ == ids_in(texts(p@)),
{
    let mut r: Vec<NodeId> = Vec::new();
    let mut i: usize = 0;
    let ghost all = texts(p@);
    assert(all.subrange(0, 0) =~= Seq::<Seq<char>>::empty());
    while i < p.len()
        invariant
            i <= p@.len(),
            all == texts(p@),
            r@ == ids_in(all.subrange(0, i as int)),
        decreases p@.len() - i,
    {
        proof {
            let s = all.subrange(0, i + 1);
            assert(s.drop_last() =~= all.subrange(0, i as int));
            assert(s.last() == p@[i as int]@);
        }
        let piece: String = trim(p[i].as_str());
        match parse_id(piece.as_str()) {
            Some(id) => {
                r.push(id);
            },
            None => {},
        }
        i = i + 1;
    }
    assert(all.subrange(0, i as int) =~= all);
    r
}

/// The names among pieces of text.
pub fn collect_names(p: &Vec<String>) -> (r: Vec<String>)
    ensures
        texts(r@) == names_in(texts(p@)),
{
    let mut r: Vec<String> = Vec::new();
    let mut i: usize = 0;
    let ghost all = texts(p@);
    assert(all.subrange(0, 0) =~= Seq::<Seq<char>>::empty());
    assert(texts(r@) =~= Seq::<Seq<char>>::empty());
    while i < p.len()
        invariant
            i <= p@.len(),
            all == texts(p@),
            texts(r@) == names_in(all.subrange(0, i as int)),
        decreases p@.len() - i,
    {
        proof {
            let s = all.subrange(0, i + 1);
            assert(s.drop_last() =~= all.subrange(0, i as int));
            assert(s.last() == p@[i as int]@);
        }
        let piece: String = trim(p[i].as_str());
        if !piece.as_str().is_empty() {
            let ghost before = r@;
            r.push(piece);
            assert(texts(r@) =~= texts(before).push(piece@));
        }
        i = i + 1;
    }
    assert(all.subrange(0, i as int) =~= all);
    r
}

/// What a media download says, given what the base64 text turned out to hold.
pub fn media_notice(
    id: NodeId,
    name: String,
    bytes: Option<Vec<u8>>,
    layout: Option<PixelLayout>,
) -> (r: Notice)
    ensures
        r@ == media_notice_of(id, name@, bytes_view(bytes), layout),
{
    match bytes {
        None => Notice::NotBase64(name),
        Some(b) => match layout {
            None => Notice::NotAnImage(name),
            Some(l) => {
                let number: String = id_text(id);
                let ending: String = preview_extension(l);
                let end: String = join2(".", ending.as_str());
                let file: String = join3("media_preview_", number.as_str(), end.as_str());
                Notice::Preview(name, file, b)
            },
        },
    }
}

/// What a message says to client `id`.
pub fn read_notice(id: NodeId, message: &str) -> (r: Notice)
    ensures
        r@ == notice_of(id, message@),
{
    let trimmed: String = trim(message);
    let t: Vec<String> = split_parts(trimmed.as_str(), 3);
    let ghost p = parts(trim_both(message@), 3);
    proof {
        assert(texts(t@) == p);
        assert forall|i: int| 0 <= i < t@.len() implies #[trigger] t@[i]@ == p[i] by {
            assert(texts(t@)[i] == t@[i]@);
        }
        lemma_parts_not_empty(trim_both(message@), 3);
        assert(t@.len() == p.len());
    }
    let n: usize = t.len();
    let tag: &str = t[0].as_str();
    if n == 3 && same_text(tag, "[MessageFrom]") {
        match parse_id(t[1].as_str()) {
            Some(sender) => Notice::Message(sender, t[2].clone()),
            None => Notice::InvalidSender(t[1].clone()),
        }
    } else if n == 2 && same_text(tag, "[ClientListResponse]") {
        let open: String = trim_leading(t[1].as_str(), '[');
        let inner: String = trim_trailing(open.as_str(), ']');
        let list: Vec<String> = split_at_char(inner.as_str(), ',');
        Notice::ClientList(collect_ids(&list))
    } else if n == 2 && same_text(tag, "[ChatStart]") {
        let status: String = t[1].as_str().to_lowercase();
        if same_text(status.as_str(), "true") {
            Notice::ChatAccepted
        } else if same_text(status.as_str(), "false") {
            Notice::ChatDenied
        } else {
            Notice::InvalidChatStart(t[1].clone())
        }
    } else if n == 1 && same_text(tag, "[ChatFinish]") {
        Notice::ChatTerminated
    } else if n == 2 && same_text(tag, "[ChatRequest]") {
        match parse_id(t[1].as_str()) {
            Some(requester) => Notice::ChatRequest(requester),
            None => Notice::InvalidChatRequest(t[1].clone()),
        }
    } else if n == 2 && same_text(tag, "[HistoryResponse]") {
        Notice::History(t[1].clone())
    } else if n == 2 && same_text(tag, "[MediaUploadAck]") {
        Notice::MediaUploaded(t[1].clone())
    } else if n == 3 && same_text(tag, "[MediaDownloadResponse]") {
        if same_text(t[1].as_str(), "ERROR") && same_text(t[2].as_str(), "NotFound") {
            Notice::MediaNotFound
        } else {
            let bytes: Option<Vec<u8>> = decode_base64(t[2].as_str());
            let layout: Option<PixelLayout> = match &bytes {
                Some(b) => read_pixel_layout(b),
                None => None,
            };
            media_notice(id, t[1].clone(), bytes, layout)
        }
    } else if n == 2 && same_text(tag, "[MediaListResponse]") {
        let list: Vec<String> = split_at_char(t[1].as_str(), ',');
        Notice::MediaList(collect_names(&list))
    } else if n == 2 && same_text(tag, "[LoginAck]") {
        match parse_number(t[1].as_str(), u64::MAX) {
            Some(session) => Notice::LoggedIn(session),
            None => Notice::InvalidLoginAck(t[1].clone()),
        }
    } else {
        Notice::Unrecognized(t[0].clone())
    }
}

/// Splitting gives at least one part.
pub proof fn lemma_parts_not_empty(s: Seq<char>, n: nat)
    ensures
        parts(s, n).len() >= 1,
        n >= 1 ==> parts(s, n).len() <= n,
    decreases n,
{
    let i = crate::text::separator_from(s, 0);
    if !(n <= 1 || i >= s.len()) {
        lemma_parts_not_empty(s.subrange(i + 2, s.len() as int), (n - 1) as nat);
    }
}

}
