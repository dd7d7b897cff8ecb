//! Media files that travel as base64 text.
use crate::text::join3;
use base64::engine::general_purpose::STANDARD;
use base64::Engine;
use vstd::prelude::*;

verus! {

/// The bytes that a base64 text writes, where it writes any.
pub uninterp spec fn base64_bytes(text: Seq<char>) -> Option<Seq<u8>>;

/// The base64 text of bytes.
pub uninterp spec fn base64_text(bytes: Seq<u8>) -> Seq<char>;

/// How the pixels of an image file are laid out, where the file can be read.
pub uninterp spec fn pixel_layout(bytes: Seq<u8>) -> Option<PixelLayout>;

/// Layout of the pixels of an image.
#[derive(Clone, Copy, PartialEq, Eq, Structural, Debug)]
pub enum PixelLayout {
    L8,
    La8,
    Rgb8,
    Rgba8,
    L16,
    La16,
    Rgb16,
    Rgba16,
    Other,
}

/// The bytes of a list, where there is one.
pub open spec fn bytes_view(r: Option<Vec<u8>>) -> Option<Seq<u8>> {
    match r {
        Some(v) => Some(v@),
        None => None,
    }
}

/// `STANDARD.decode` of the `base64` crate: the bytes that a text writes in the
/// standard alphabet with padding, or none where it is not base64.
#[verifier::external_body]
pub(crate) fn decode_base64(text: &str) -> (r: Option<Vec<u8>>)
    ensures
        bytes_view(r) == base64_bytes(text@),
{
    STANDARD.decode(text).ok()
}

/// `STANDARD.encode` of the `base64` crate: a text from which decoding gives the
/// bytes back.
#[verifier::external_body]
pub(crate) fn encode_base64(bytes: &Vec<u8>) -> (r: String)
    ensures
        r@ == base64_text(bytes@),
        base64_bytes(r@) == Some(bytes@),
{
    STANDARD.encode(bytes)
}

/// `load_from_memory` of the `image` crate: the pixel layout of an image file in a
/// format that it can tell and read, or none. It depends on the bytes alone as long as no
/// decoding hook is registered with the crate; this project registers none.
#[verifier::external_body]
pub(crate) fn read_pixel_layout(bytes: &Vec<u8>) -> (r: Option<PixelLayout>)
    ensures
        r == pixel_layout(bytes@),
{
    match image::load_from_memory(bytes).ok()?.color() {
        image::ColorType::L8 => Some(PixelLayout::L8),
        image::ColorType::La8 => Some(PixelLayout::La8),
        image::ColorType::Rgb8 => Some(PixelLayout::Rgb8),
        image::ColorType::Rgba8 => Some(PixelLayout::Rgba8),
        image::ColorType::L16 => Some(PixelLayout::L16),
        image::ColorType::La16 => Some(PixelLayout::La16),
        image::ColorType::Rgb16 => Some(PixelLayout::Rgb16),
        image::ColorType::Rgba16 => Some(PixelLayout::Rgba16),
        _ => Some(PixelLayout::Other),
    }
}

/// Name ending of the file in which an image is previewed.
pub open spec fn preview_ending(layout: PixelLayout) -> Seq<char> {
    if layout == PixelLayout::Other {
        "bin"@
    } else {
        "png"@
    }
}

/// Name ending of the file in which an image is previewed.
pub fn preview_extension(layout: PixelLayout) -> (r: String)
    ensures
        r@ == preview_ending(layout),
{
    match layout {
        PixelLayout::Other => "bin".to_owned(),
        _ => "png".to_owned(),
    }
}

/// The bytes from position `at` on are `magic`.
pub open spec fn has_bytes(data: Seq<u8>, at: int, magic: Seq<u8>) -> bool {
    at + magic.len() <= data.len() && data.subrange(at, at + magic.len()) == magic
}

/// Kind of a media file.
#[derive(Clone, Copy, PartialEq, Eq, Structural, Debug)]
pub enum MediaFormat {
    Png,
    Jpg,
    Gif,
    Bmp,
    Mp4,
    Mp3,
    Wav,
    Flac,
    Bin,
}

/// The format that the first bytes of a file of twelve bytes or more tell.
pub open spec fn format_of(data: Seq<u8>) -> MediaFormat {
    if data.len() < 12 {
        MediaFormat::Bin
    } else if has_bytes(data, 0, seq![0x89u8, 0x50, 0x4E, 0x47]) {
        MediaFormat::Png
    } else if has_bytes(data, 0, seq![0xFFu8, 0xD8, 0xFF]) {
        MediaFormat::Jpg
    } else if has_bytes(data, 0, seq![0x47u8, 0x49, 0x46, 0x38]) {
        MediaFormat::Gif
    } else if has_bytes(data, 0, seq![0x42u8, 0x4D]) {
        MediaFormat::Bmp
    } else if has_bytes(data, 4, seq![0x66u8, 0x74, 0x79, 0x70, 0x69, 0x73, 0x6F, 0x6D])
        || has_bytes(data, 4, seq![0x66u8, 0x74, 0x79, 0x70, 0x6D, 0x70, 0x34, 0x32]) {
        MediaFormat::Mp4
    } else if has_bytes(data, 0, seq![0x49u8, 0x44, 0x33]) {
        MediaFormat::Mp3
    } else if has_bytes(data, 0, seq![0x52u8, 0x49, 0x46, 0x46]) {
        MediaFormat::Wav
    } else if has_bytes(data, 0, seq![0x66u8, 0x4C, 0x61, 0x43]) {
        MediaFormat::Flac
    } else {
        MediaFormat::Bin
    }
}

/// Name ending of a media file.
pub open spec fn ending(f: MediaFormat) -> Seq<char> {
    match f {
        MediaFormat::Png => "png"@,
        MediaFormat::Jpg => "jpg"@,
        MediaFormat::Gif => "gif"@,
        MediaFormat::Bmp => "bmp"@,
        MediaFormat::Mp4 => "mp4"@,
        MediaFormat::Mp3 => "mp3"@,
        MediaFormat::Wav => "wav"@,
        MediaFormat::Flac => "flac"@,
        MediaFormat::Bin => "bin"@,
    }
}

fn has_magic(data: &Vec<u8>, at: usize, magic: &[u8]) -> (r: bool)
    requires
        at <= data@.len(),
    ensures
        r == has_bytes(data@, at as int, magic@),
{
    if magic.len() > data.len() - at {
        return false;
    }
    let size: usize = data.len();
    let mut i: usize = 0;
    while i < magic.len()
        invariant
            i <= magic@.len(),
            size == data@.len(),
            at + magic@.len() <= size,
            forall|j: int| 0 <= j < i ==> data@[at + j] == #[trigger] magic@[j],
        decreases magic@.len() - i,
    {
        if data[at + i] != magic[i] {
            assert(data@.subrange(at as int, at + magic@.len())[i as int] != magic@[i as int]);
            return false;
        }
        i = i + 1;
    }
    assert(data@.subrange(at as int, at + magic@.len()) =~= magic@);
    true
}

/// The format that the first bytes of a file tell.
pub fn media_format(data: &Vec<u8>) -> (r: MediaFormat)
    ensures
        r == format_of(data@),
{
    if data.len() < 12 {
        return MediaFormat::Bin;
    }
    let png: [u8; 4] = [0x89, 0x50, 0x4E, 0x47];
    let jpg: [u8; 3] = [0xFF, 0xD8, 0xFF];
    let gif: [u8; 4] = [0x47, 0x49, 0x46, 0x38];
    let bmp: [u8; 2] = [0x42, 0x4D];
    let isom: [u8; 8] = [0x66, 0x74, 0x79, 0x70, 0x69, 0x73, 0x6F, 0x6D];
    let mp42: [u8; 8] = [0x66, 0x74, 0x79, 0x70, 0x6D, 0x70, 0x34, 0x32];
    let mp3: [u8; 3] = [0x49, 0x44, 0x33];
    let wav: [u8; 4] = [0x52, 0x49, 0x46, 0x46];
    let flac: [u8; 4] = [0x66, 0x4C, 0x61, 0x43];
    proof {
        assert(png@ =~= seq![0x89u8, 0x50, 0x4E, 0x47]);
        assert(jpg@ =~= seq![0xFFu8, 0xD8, 0xFF]);
        assert(gif@ =~= seq![0x47u8, 0x49, 0x46, 0x38]);
        assert(bmp@ =~= seq![0x42u8, 0x4D]);
        assert(isom@ =~= seq![0x66u8, 0x74, 0x79, 0x70, 0x69, 0x73, 0x6F, 0x6D]);
        assert(mp42@ =~= seq![0x66u8, 0x74, 0x79, 0x70, 0x6D, 0x70, 0x34, 0x32]);
        assert(mp3@ =~= seq![0x49u8, 0x44, 0x33]);
        assert(wav@ =~= seq![0x52u8, 0x49, 0x46, 0x46]);
        assert(flac@ =~= seq![0x66u8, 0x4C, 0x61, 0x43]);
    }
    if has_magic(data, 0, png.as_slice()) {
        MediaFormat::Png
    } else if has_magic(data, 0, jpg.as_slice()) {
        MediaFormat::Jpg
    } else if has_magic(data, 0, gif.as_slice()) {
        MediaFormat::Gif
    } else if has_magic(data, 0, bmp.as_slice()) {
        MediaFormat::Bmp
    } else if has_magic(data, 4, isom.as_slice()) || has_magic(data, 4, mp42.as_slice()) {
        MediaFormat::Mp4
    } else if has_magic(data, 0, mp3.as_slice()) {
        MediaFormat::Mp3
    } else if has_magic(data, 0, wav.as_slice()) {
        MediaFormat::Wav
    } else if has_magic(data, 0, flac.as_slice()) {
        MediaFormat::Flac
    } else {
        MediaFormat::Bin
    }
}

/// Name ending of the file that media are saved in.
pub fn detect_media_format(data: &Vec<u8>) -> (r: String)
    ensures
        r@ == ending(format_of(data@)),
{
    match media_format(data) {
        MediaFormat::Png => "png".to_owned(),
        MediaFormat::Jpg => "jpg".to_owned(),
        MediaFormat::Gif => "gif".to_owned(),
        MediaFormat::Bmp => "bmp".to_owned(),
        MediaFormat::Mp4 => "mp4".to_owned(),
        MediaFormat::Mp3 => "mp3".to_owned(),
        MediaFormat::Wav => "wav".to_owned(),
        MediaFormat::Flac => "flac".to_owned(),
        MediaFormat::Bin => "bin".to_owned(),
    }
}

/// How media are shown.
#[derive(Clone, Copy, PartialEq, Eq, Structural, Debug)]
pub enum MediaKind {
    Image,
    Video,
    Audio,
    Unknown,
}

/// How media of a format are shown.
pub open spec fn kind_of(f: MediaFormat) -> MediaKind {
    match f {
        MediaFormat::Png | MediaFormat::Jpg | MediaFormat::Gif | MediaFormat::Bmp => MediaKind::Image,
        MediaFormat::Mp4 => MediaKind::Video,
        MediaFormat::Mp3 | MediaFormat::Wav | MediaFormat::Flac => MediaKind::Audio,
        MediaFormat::Bin => MediaKind::Unknown,
    }
}

/// Media to be saved under a name and shown.
#[derive(Debug)]
pub struct MediaFile {
    pub kind: MediaKind,
    pub file_path: String,
    pub bytes: Vec<u8>,
}

#[verifier::ext_equal]
pub struct MediaFileView {
    pub kind: MediaKind,
    pub file_path: Seq<char>,
    pub bytes: Seq<u8>,
}

impl View for MediaFile {
    type V = MediaFileView;

    open spec fn view(&self) -> MediaFileView {
        MediaFileView { kind: self.kind, file_path: self.file_path@, bytes: self.bytes@ }
    }
}

/// The media file for bytes under a name.
pub open spec fn file_of(name: Seq<char>, bytes: Seq<u8>) -> MediaFileView {
    MediaFileView {
        kind: kind_of(format_of(bytes)),
        file_path: name + "."@ + ending(format_of(bytes)),
        bytes,
    }
}

/// The media file for bytes under a name.
pub fn media_file(name: &str, bytes: Vec<u8>) -> (r: MediaFile)
    ensures
        r@ == file_of(name@, bytes@),
{
    let kind: MediaKind = match media_format(&bytes) {
        MediaFormat::Png | MediaFormat::Jpg | MediaFormat::Gif | MediaFormat::Bmp => MediaKind::Image,
        MediaFormat::Mp4 => MediaKind::Video,
        MediaFormat::Mp3 | MediaFormat::Wav | MediaFormat::Flac => MediaKind::Audio,
        MediaFormat::Bin => MediaKind::Unknown,
    };
    let extension: String = detect_media_format(&bytes);
    MediaFile { kind, file_path: join3(name, ".", extension.as_str()), bytes }
}

/// The media file that a base64 text holds, or none where it is not base64.
pub fn display_media(name: &str, base64_data: &str) -> (r: Option<MediaFile>)
    ensures
        match r {
            Some(f) => base64_bytes(base64_data@) == Some(f.bytes@) && f@ == file_of(name@, f.bytes@),
            None => base64_bytes(base64_data@) is None,
        },
{
    match decode_base64(base64_data) {
        Some(bytes) => Some(media_file(name, bytes)),
        None => None,
    }
}

/// The text that carries a media file to the server.
pub open spec fn upload_text(tag: Seq<char>, name: Seq<char>, bytes: Seq<u8>) -> Seq<char> {
    tag + "::"@ + (name + "::"@ + base64_text(bytes))
}

/// The text that carries a media file to the server.
pub fn media_message(tag: &str, name: &str, bytes: &Vec<u8>) -> (r: String)
    ensures
        r@ == upload_text(tag@, name@, bytes@),
        base64_bytes(base64_text(bytes@)) == Some(bytes@),
{
    let data: String = encode_base64(bytes);
    let rest: String = join3(name, "::", data.as_str());
    join3(tag, "::", rest.as_str())
}

}
