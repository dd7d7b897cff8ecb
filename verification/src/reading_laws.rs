//! What clients read in the messages of a server, and what becomes of records and media.
use crate::chat_log::{pair, recorded};
use crate::client2::{news_of, NewsView};
use crate::laws::{law_three_parts_read_back, law_two_parts_read_back, tight};
use crate::media::{base64_bytes, file_of, has_bytes, pixel_layout, MediaKind};
use crate::notices::{names_in, notice_of, NoticeView};
use crate::packet::NodeId;
use crate::server_requests::tagged2;
use crate::text::{
    decimal, drop_trailing, joined_with, law_decimal_reads_back, lemma_decimal_digits, pieces,
    separator_at,
};
use crate::wording::{
    lemma_digits_plain, lemma_id_reads_back, lemma_single_part, lemma_trimmed, plain, seamless,
    trimmed,
};
use vstd::prelude::*;

verus! {

/// The tags of answers.
proof fn lemma_answer_tags()
    ensures
        "[MessageFrom]"@.len() == 13,
        "[ClientListResponse]"@.len() == 20,
        "[ChatStart]"@.len() == 11,
        "[ChatFinish]"@.len() == 12,
        "[ChatRequest]"@.len() == 13,
        "[HistoryResponse]"@.len() == 17,
        "[MediaUploadAck]"@.len() == 16,
        "[MediaDownloadResponse]"@.len() == 23,
        "[MediaListResponse]"@.len() == 19,
        "[MediaBroadcastAck]"@.len() == 19,
        "[LoginAck]"@.len() == 10,
        plain("[ChatFinish]"@) && trimmed("[ChatFinish]"@) && seamless("[ChatFinish]"@),
        plain("[ChatRequest]"@) && trimmed("[ChatRequest]"@),
        plain("[ChatStart]"@) && trimmed("[ChatStart]"@),
        plain("[ClientListResponse]"@) && trimmed("[ClientListResponse]"@),
        plain("[HistoryResponse]"@) && trimmed("[HistoryResponse]"@),
        plain("[MediaUploadAck]"@) && trimmed("[MediaUploadAck]"@),
        plain("[MediaDownloadResponse]"@) && trimmed("[MediaDownloadResponse]"@),
        plain("[MediaListResponse]"@) && trimmed("[MediaListResponse]"@),
        plain("[MediaBroadcastAck]"@) && trimmed("[MediaBroadcastAck]"@),
        plain("[LoginAck]"@) && trimmed("[LoginAck]"@),
        plain("[MessageFrom]"@) && trimmed("[MessageFrom]"@),
{
    reveal_strlit("[MessageFrom]");
    reveal_strlit("[ClientListResponse]");
    reveal_strlit("[ChatStart]");
    reveal_strlit("[ChatFinish]");
    reveal_strlit("[ChatRequest]");
    reveal_strlit("[HistoryResponse]");
    reveal_strlit("[MediaUploadAck]");
    reveal_strlit("[MediaDownloadResponse]");
    reveal_strlit("[MediaListResponse]");
    reveal_strlit("[MediaBroadcastAck]");
    reveal_strlit("[LoginAck]");
    let s = "[ChatFinish]"@;
    assert forall|i: int| 0 <= i < s.len() implies !(#[trigger] separator_at(s, i)) by {
        assert(s[i] != ':');
    }
}

/// A client reads in a server's answers what they carry. A text with a double colon in it,
/// or with white space at its end, is left out.
pub proof fn law_first_clients_read_answers(id: NodeId, text: Seq<char>)
    requires
        seamless(text),
        tight(text),
    ensures
        notice_of(id, "[HistoryResponse]"@ + "::"@ + text) == NoticeView::History(text),
        notice_of(id, "[MediaUploadAck]"@ + "::"@ + text) == NoticeView::MediaUploaded(text),
        notice_of(id, "[ChatFinish]"@) is ChatTerminated,
{
    lemma_answer_tags();
    law_two_parts_read_back("[HistoryResponse]"@, text);
    law_two_parts_read_back("[MediaUploadAck]"@, text);
    lemma_trimmed("[ChatFinish]"@);
    lemma_single_part("[ChatFinish]"@, 3);
}

/// A client reads who asks it for a chat, and under which session it is logged in.
pub proof fn law_first_clients_read_numbers(id: NodeId, peer: NodeId, session: u64)
    ensures
        notice_of(id, "[ChatRequest]"@ + "::"@ + decimal(peer as nat)) == NoticeView::ChatRequest(
            peer,
        ),
        notice_of(id, "[LoginAck]"@ + "::"@ + decimal(session as nat)) == NoticeView::LoggedIn(
            session,
        ),
{
    lemma_answer_tags();
    lemma_id_reads_back(peer);
    law_two_parts_read_back("[ChatRequest]"@, decimal(peer as nat));
    let d = decimal(session as nat);
    lemma_decimal_digits(session as nat);
    lemma_digits_plain(d);
    law_decimal_reads_back(session as nat, u64::MAX as nat);
    law_two_parts_read_back("[LoginAck]"@, d);
}

/// A client that downloads media reads the bytes that its text stands for; where there are
/// none under the name, it is told so.
pub proof fn law_first_clients_read_media(id: NodeId, name: Seq<char>, data: Seq<char>)
    requires
        plain(name),
        tight(data),
    ensures
        name != "ERROR"@ && base64_bytes(data) is None ==> notice_of(
            id,
            tagged2("[MediaDownloadResponse]"@, name, data),
        ) == NoticeView::NotBase64(name),
        name != "ERROR"@ && base64_bytes(data) is Some && pixel_layout(
            base64_bytes(data)->0,
        ) is None ==> notice_of(id, tagged2("[MediaDownloadResponse]"@, name, data))
            == NoticeView::NotAnImage(name),
        name != "ERROR"@ && base64_bytes(data) is Some && pixel_layout(
            base64_bytes(data)->0,
        ) is Some ==> ({
            let n = notice_of(id, tagged2("[MediaDownloadResponse]"@, name, data));
            &&& n is Preview
            &&& n->Preview_0 == name
            &&& n->Preview_2 == base64_bytes(data)->0
        }),
        notice_of(id, tagged2("[MediaDownloadResponse]"@, "ERROR"@, "NotFound"@)) is MediaNotFound,
{
    lemma_answer_tags();
    law_three_parts_read_back("[MediaDownloadResponse]"@, name, data);
    reveal_strlit("ERROR");
    reveal_strlit("NotFound");
    law_three_parts_read_back("[MediaDownloadResponse]"@, "ERROR"@, "NotFound"@);
}

/// A name in a list: it is not empty, has no comma in it and no white space around it.
pub open spec fn list_name(s: Seq<char>) -> bool {
    trimmed(s) && !s.contains(',')
}

proof fn lemma_piece(s: Seq<char>, x: Seq<char>, c: char)
    requires
        !x.contains(c),
    ensures
        pieces(s + seq![c] + x, c) == pieces(s, c).push(x),
    decreases x.len(),
{
    let t = s + seq![c] + x;
    if x.len() == 0 {
        assert(t.drop_last() =~= s);
        assert(t.last() == c);
        assert(x =~= Seq::<char>::empty());
    } else {
        let y = x.drop_last();
        assert forall|a: char| y.contains(a) implies x.contains(a) by {
            let k = y.index_of(a);
            assert(x[k] == a);
        }
        lemma_piece(s, y, c);
        assert(t.drop_last() =~= s + seq![c] + y);
        assert(t.last() == x.last());
        assert(x.contains(x.last()));
        let p = pieces(s, c).push(y);
        assert(p.last() == y);
        assert(y.push(x.last()) =~= x);
        assert(p.update(p.len() - 1, x) =~= pieces(s, c).push(x));
    }
}

proof fn lemma_whole(x: Seq<char>, c: char)
    requires
        !x.contains(c),
    ensures
        pieces(x, c) == seq![x],
    decreases x.len(),
{
    if x.len() > 0 {
        let y = x.drop_last();
        assert forall|a: char| y.contains(a) implies x.contains(a) by {
            let k = y.index_of(a);
            assert(x[k] == a);
        }
        lemma_whole(y, c);
        assert(x.contains(x.last()));
        assert(y.push(x.last()) =~= x);
        assert(seq![y].update(0, x) =~= seq![x]);
    }
}

proof fn lemma_names(names: Seq<Seq<char>>)
    requires
        names.len() > 0,
        forall|k: int| 0 <= k < names.len() ==> list_name(#[trigger] names[k]),
    ensures
        pieces(joined_with(names, ","@), ',') == names,
        names_in(names) == names,
    decreases names.len(),
{
    reveal_strlit(",");
    assert(","@ =~= seq![',']);
    let init = names.drop_last();
    let x = names.last();
    assert(list_name(names[names.len() - 1]));
    lemma_trimmed(x);
    if names.len() == 1 {
        lemma_whole(x, ',');
        assert(names =~= seq![x]);
        assert(names_in(init) =~= Seq::empty());
        assert(joined_with(names, ","@) =~= x);
        assert(names_in(names) =~= names);
    } else {
        assert forall|k: int| 0 <= k < init.len() implies list_name(#[trigger] init[k]) by {
            assert(init[k] == names[k]);
        }
        lemma_names(init);
        lemma_piece(joined_with(init, ","@), x, ',');
        assert(joined_with(names, ","@) =~= joined_with(init, ","@) + seq![','] + x);
        assert(init.push(x) =~= names);
    }
}

/// A client reads the names in a list of media as they were listed.
pub proof fn law_media_lists_are_read(id: NodeId, names: Seq<Seq<char>>)
    requires
        names.len() > 0,
        forall|k: int| 0 <= k < names.len() ==> list_name(#[trigger] names[k]),
        seamless(joined_with(names, ","@)),
        tight(joined_with(names, ","@)),
    ensures
        notice_of(id, "[MediaListResponse]"@ + "::"@ + joined_with(names, ","@))
            == NoticeView::MediaList(names),
        news_of("[MediaListResponse]"@ + "::"@ + joined_with(names, ","@)) == NewsView::MediaList(
            joined_with(names, ","@),
        ),
{
    lemma_answer_tags();
    assert("[MediaListResponse]"@ != "[MediaBroadcastAck]"@) by {
        reveal_strlit("[MediaListResponse]");
        reveal_strlit("[MediaBroadcastAck]");
        assert("[MediaListResponse]"@[6] == 'L');
        assert("[MediaBroadcastAck]"@[6] == 'B');
    }
    lemma_names(names);
    law_two_parts_read_back("[MediaListResponse]"@, joined_with(names, ","@));
}

/// Clients of the second make read in a server's answers what they carry.
pub proof fn law_second_clients_read_answers(text: Seq<char>, sender: NodeId)
    requires
        seamless(text),
        tight(text),
    ensures
        news_of(tagged2("[MessageFrom]"@, decimal(sender as nat), text)) == NewsView::Message(
            sender,
            text,
        ),
        news_of("[LoginAck]"@ + "::"@ + text) is LoggedIn,
        news_of("[ClientListResponse]"@ + "::"@ + text) == NewsView::ClientList(text),
        news_of("[HistoryResponse]"@ + "::"@ + text) == NewsView::History(text),
        news_of("[MediaUploadAck]"@ + "::"@ + text) == NewsView::MediaUploaded(text),
        plain(text) ==> news_of(tagged2("[MediaBroadcastAck]"@, text, "Broadcasted"@))
            == NewsView::Broadcasted(text),
        news_of("[ChatStart]"@ + "::"@ + "true"@) is ChatStarted,
        news_of("[ChatStart]"@ + "::"@ + "false"@) is ChatFailed,
        news_of(tagged2("[MediaDownloadResponse]"@, "ERROR"@, "NotFound"@)) is MediaNotFound,
{
    lemma_answer_tags();
    lemma_id_reads_back(sender);
    reveal_strlit("ERROR");
    reveal_strlit("NotFound");
    reveal_strlit("Broadcasted");
    reveal_strlit("true");
    reveal_strlit("false");
    law_three_parts_read_back("[MessageFrom]"@, decimal(sender as nat), text);
    law_two_parts_read_back("[LoginAck]"@, text);
    law_two_parts_read_back("[ClientListResponse]"@, text);
    law_two_parts_read_back("[HistoryResponse]"@, text);
    law_two_parts_read_back("[MediaUploadAck]"@, text);
    if plain(text) {
        law_three_parts_read_back("[MediaBroadcastAck]"@, text, "Broadcasted"@);
    }
    let t = "true"@;
    let f = "false"@;
    assert forall|i: int| 0 <= i < t.len() implies !(#[trigger] separator_at(t, i)) by {
        assert(t[i] != ':');
    }
    assert forall|i: int| 0 <= i < f.len() implies !(#[trigger] separator_at(f, i)) by {
        assert(f[i] != ':');
    }
    law_two_parts_read_back("[ChatStart]"@, t);
    law_two_parts_read_back("[ChatStart]"@, f);
    assert(drop_trailing(t, '\0') == t);
    assert(drop_trailing(f, '\0') == f);
    assert(t.len() == 4 && f.len() == 5);
    law_three_parts_read_back("[MediaDownloadResponse]"@, "ERROR"@, "NotFound"@);
}

/// Clients of the second make keep downloaded media under their name, with an ending by
/// their kind, byte for byte.
pub proof fn law_second_clients_keep_media(name: Seq<char>, data: Seq<char>)
    requires
        plain(name),
        tight(data),
        data.len() > 0,
        data.last() != '\0',
        name != "ERROR"@,
        base64_bytes(data) is Some,
    ensures
        ({
            let n = news_of(tagged2("[MediaDownloadResponse]"@, name, data));
            &&& n is Media
            &&& n->Media_0.bytes == base64_bytes(data)->0
            &&& n->Media_0.file_path.subrange(0, name.len() as int + 1) == name + "."@
        }),
{
    lemma_answer_tags();
    law_three_parts_read_back("[MediaDownloadResponse]"@, name, data);
    assert(drop_trailing(data, '\0') == data);
    let path = file_of(name, base64_bytes(data)->0).file_path;
    reveal_strlit(".");
    assert(path.subrange(0, name.len() as int + 1) =~= name + "."@);
}

/// The file begins with some bytes.
pub open spec fn opens_with(data: Seq<u8>, magic: Seq<u8>) -> bool {
    data.len() >= 12 && forall|k: int| 0 <= k < magic.len() ==> data[k] == #[trigger] magic[k]
}

/// Media files of the common kinds are told apart by their first bytes.
pub proof fn law_media_kinds(name: Seq<char>, data: Seq<u8>)
    ensures
        opens_with(data, seq![0x89u8, 0x50, 0x4E, 0x47]) ==> kept_as(
            name,
            data,
            MediaKind::Image,
            "png"@,
        ),
        opens_with(data, seq![0xFFu8, 0xD8, 0xFF]) ==> kept_as(
            name,
            data,
            MediaKind::Image,
            "jpg"@,
        ),
        opens_with(data, seq![0x47u8, 0x49, 0x46, 0x38]) ==> kept_as(
            name,
            data,
            MediaKind::Image,
            "gif"@,
        ),
        opens_with(data, seq![0x42u8, 0x4D]) ==> kept_as(name, data, MediaKind::Image, "bmp"@),
        data.len() < 12 ==> kept_as(name, data, MediaKind::Unknown, "bin"@),
{
    lemma_kinds(data);
}

/// The media are of a kind and kept with an ending, byte for byte.
pub open spec fn kept_as(
    name: Seq<char>,
    data: Seq<u8>,
    kind: MediaKind,
    ending: Seq<char>,
) -> bool {
    let f = file_of(name, data);
    f.kind == kind && f.file_path == name + "."@ + ending && f.bytes == data
}

/// Sounds and films are told apart by their first bytes, too, and so is a film by what
/// stands behind the first four.
pub proof fn law_sounds_and_films(name: Seq<char>, data: Seq<u8>)
    ensures
        opens_with(data, seq![0x49u8, 0x44, 0x33]) && !film(data) ==> kept_as(
            name,
            data,
            MediaKind::Audio,
            "mp3"@,
        ),
        opens_with(data, seq![0x52u8, 0x49, 0x46, 0x46]) && !film(data) ==> kept_as(
            name,
            data,
            MediaKind::Audio,
            "wav"@,
        ),
        opens_with(data, seq![0x66u8, 0x4C, 0x61, 0x43]) && !film(data) ==> kept_as(
            name,
            data,
            MediaKind::Audio,
            "flac"@,
        ),
        film(data) && data[0] == 0 ==> kept_as(name, data, MediaKind::Video, "mp4"@),
{
    lemma_kinds(data);
    let one = seq![0x66u8, 0x74, 0x79, 0x70, 0x69, 0x73, 0x6F, 0x6D];
    let two = seq![0x66u8, 0x74, 0x79, 0x70, 0x6D, 0x70, 0x34, 0x32];
    if data.len() >= 12 {
        if film(data) {
            assert(data.subrange(4, 12) =~= one || data.subrange(4, 12) =~= two);
        } else {
            assert forall|k: int| 0 <= k < 8 implies data.subrange(4, 12)[k] == #[trigger] data[4
                + k] by {}
            if data.subrange(4, 12) == one || data.subrange(4, 12) == two {
                assert(data.subrange(4, 12)[0] == 0x66u8 && data.subrange(4, 12)[1] == 0x74u8);
                assert(data.subrange(4, 12)[2] == 0x79u8 && data.subrange(4, 12)[3] == 0x70u8);
                assert(data[4] == data.subrange(4, 12)[0]);
                assert(data[5] == data.subrange(4, 12)[1]);
                assert(data[6] == data.subrange(4, 12)[2]);
                assert(data[7] == data.subrange(4, 12)[3]);
                assert(data[8] == data.subrange(4, 12)[4]);
                assert(data[9] == data.subrange(4, 12)[5]);
                assert(data[10] == data.subrange(4, 12)[6]);
                assert(data[11] == data.subrange(4, 12)[7]);
            }
        }
    }
}

/// Behind its first four bytes the file names one of two kinds of film.
pub open spec fn film(data: Seq<u8>) -> bool {
    &&& data.len() >= 12
    &&& data[4] == 0x66 && data[5] == 0x74 && data[6] == 0x79 && data[7] == 0x70
    &&& (data[8] == 0x69 && data[9] == 0x73 && data[10] == 0x6F && data[11] == 0x6D) || (data[8]
        == 0x6D && data[9] == 0x70 && data[10] == 0x34 && data[11] == 0x32)
}

/// A file begins with some bytes exactly when it is read so.
proof fn lemma_magic(data: Seq<u8>, magic: Seq<u8>)
    requires
        data.len() >= 12,
        magic.len() <= 8,
    ensures
        has_bytes(data, 0, magic) <==> opens_with(data, magic),
{
    let s = data.subrange(0, magic.len() as int);
    if opens_with(data, magic) {
        assert(s =~= magic);
    }
    if has_bytes(data, 0, magic) {
        assert forall|k: int| 0 <= k < magic.len() implies data[k] == #[trigger] magic[k] by {
            assert(s[k] == data[k]);
        }
    }
}

/// The first bytes of the kinds of media differ.
proof fn lemma_kinds(data: Seq<u8>)
    ensures
        data.len() >= 12 ==> {
            let png = seq![0x89u8, 0x50, 0x4E, 0x47];
            let jpg = seq![0xFFu8, 0xD8, 0xFF];
            let gif = seq![0x47u8, 0x49, 0x46, 0x38];
            let bmp = seq![0x42u8, 0x4D];
            let mp3 = seq![0x49u8, 0x44, 0x33];
            let wav = seq![0x52u8, 0x49, 0x46, 0x46];
            let flac = seq![0x66u8, 0x4C, 0x61, 0x43];
            &&& has_bytes(data, 0, png) <==> opens_with(data, png)
            &&& has_bytes(data, 0, jpg) <==> opens_with(data, jpg)
            &&& has_bytes(data, 0, gif) <==> opens_with(data, gif)
            &&& has_bytes(data, 0, bmp) <==> opens_with(data, bmp)
            &&& has_bytes(data, 0, mp3) <==> opens_with(data, mp3)
            &&& has_bytes(data, 0, wav) <==> opens_with(data, wav)
            &&& has_bytes(data, 0, flac) <==> opens_with(data, flac)
            &&& opens_with(data, png) ==> data[0] == 0x89
            &&& opens_with(data, jpg) ==> data[0] == 0xFF
            &&& opens_with(data, gif) ==> data[0] == 0x47
            &&& opens_with(data, bmp) ==> data[0] == 0x42
            &&& opens_with(data, mp3) ==> data[0] == 0x49
            &&& opens_with(data, wav) ==> data[0] == 0x52
            &&& opens_with(data, flac) ==> data[0] == 0x66
        },
{
    if data.len() >= 12 {
        let png = seq![0x89u8, 0x50, 0x4E, 0x47];
        let jpg = seq![0xFFu8, 0xD8, 0xFF];
        let gif = seq![0x47u8, 0x49, 0x46, 0x38];
        let bmp = seq![0x42u8, 0x4D];
        let mp3 = seq![0x49u8, 0x44, 0x33];
        let wav = seq![0x52u8, 0x49, 0x46, 0x46];
        let flac = seq![0x66u8, 0x4C, 0x61, 0x43];
        lemma_magic(data, png);
        lemma_magic(data, jpg);
        lemma_magic(data, gif);
        lemma_magic(data, bmp);
        lemma_magic(data, mp3);
        lemma_magic(data, wav);
        lemma_magic(data, flac);
        assert(png[0] == 0x89 && jpg[0] == 0xFF && gif[0] == 0x47 && bmp[0] == 0x42);
        assert(mp3[0] == 0x49 && wav[0] == 0x52 && flac[0] == 0x66);
    }
}

/// A record has the newest entry at its end and the others before it, in order; of more than
/// fifty only the oldest leaves.
pub proof fn law_records_keep_the_newest(h: Seq<Seq<char>>, entry: Seq<char>)
    requires
        h.len() <= 50,
    ensures
        recorded(h, entry).last() == entry,
        h.len() < 50 ==> recorded(h, entry).len() == h.len() + 1 && forall|k: int|
            0 <= k < h.len() ==> #[trigger] recorded(h, entry)[k] == h[k],
        h.len() == 50 ==> recorded(h, entry).len() == 50 && forall|k: int|
            0 <= k < 49 ==> #[trigger] recorded(h, entry)[k] == h[k + 1],
{
}

/// A chat has one record, whichever of the two clients is named first; other chats have
/// other records.
pub proof fn law_a_chat_has_one_record(a: NodeId, b: NodeId, c: NodeId, d: NodeId)
    ensures
        pair(a, b) == pair(b, a),
        pair(a, b) == pair(c, d) <==> (a == c && b == d) || (a == d && b == c),
        pair(a, b).0 <= pair(a, b).1,
{
}

}
