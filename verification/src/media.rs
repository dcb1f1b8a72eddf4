//! Previews of files: which files can be shown and how, the text a text preview
//! shows, and the answers of the local protocol that streams a video to the player.
use vstd::prelude::*;
use vstd::string::*;
use vstd::utf8::*;

use crate::paths::{extension_of, extension_str, utf8_str};
use crate::records::text_of;
use crate::text::{ascii_lowercase, ascii_lowercase_of, str_eq};

verus! {

broadcast use encode_utf8_decode_utf8;

/// The largest text, in bytes, that a text preview shows (1 MiB).
pub const TEXT_LIMIT: u64 = 1048576;

/// The largest piece of a video, in bytes, that one range request is answered with (8 MiB).
pub const RANGE_CHUNK: u64 = 8388608;

/// The largest video, in bytes, that is sent to a client that asks for no range (64 MiB).
pub const WHOLE_VIDEO_LIMIT: u64 = 67108864;

/// How a file is previewed.
#[derive(Clone, Copy, Debug, PartialEq, Eq, Structural)]
pub enum Kind {
    Markdown,
    Text,
    Image,
    Video,
}

/// The preview kind of a lowercase extension.
pub open spec fn kind_for_extension(e: Seq<char>) -> Option<Kind> {
    if e == "md"@ || e == "markdown"@ {
        Some(Kind::Markdown)
    } else if e == "txt"@ || e == "log"@ || e == "csv"@ || e == "json"@ || e == "toml"@ || e
        == "yaml"@ || e == "yml"@ || e == "rs"@ {
        Some(Kind::Text)
    } else if e == "png"@ || e == "jpg"@ || e == "jpeg"@ || e == "gif"@ || e == "webp"@ || e
        == "bmp"@ || e == "tif"@ || e == "tiff"@ {
        Some(Kind::Image)
    } else if e == "mp4"@ || e == "m4v"@ || e == "mov"@ || e == "webm"@ || e == "ogv"@ {
        Some(Kind::Video)
    } else {
        None
    }
}

/// The preview kind of a path: that of its UTF-8 extension, ASCII letters lowered.
pub open spec fn preview_kind(path: Seq<u8>) -> Option<Kind> {
    match text_of(extension_of(path)) {
        Some(ext) => kind_for_extension(ascii_lowercase_of(ext)),
        None => None,
    }
}

/// How files are previewed by extension, whatever the case of its ASCII letters: the
/// Markdown extensions as Markdown, the text extensions as text, the image extensions
/// (png, jpg, jpeg, gif, webp, bmp, tif, tiff) as images, the video extensions as videos.
pub proof fn lemma_preview_kinds_of_extensions(path: Seq<u8>, ext: Seq<char>)
    requires
        text_of(extension_of(path)) == Some(ext),
    ensures
        ({
            let e = ascii_lowercase_of(ext);
            &&& (e == "md"@ || e == "markdown"@) ==> preview_kind(path) == Some(Kind::Markdown)
            &&& (e == "txt"@ || e == "log"@ || e == "csv"@ || e == "json"@ || e == "toml"@ || e
                == "yaml"@ || e == "yml"@ || e == "rs"@) ==> preview_kind(path) == Some(
                Kind::Text,
            )
            &&& (e == "png"@ || e == "jpg"@ || e == "jpeg"@ || e == "gif"@ || e == "webp"@ || e
                == "bmp"@ || e == "tif"@ || e == "tiff"@) ==> preview_kind(path) == Some(
                Kind::Image,
            )
            &&& (e == "mp4"@ || e == "m4v"@ || e == "mov"@ || e == "webm"@ || e == "ogv"@)
                ==> preview_kind(path) == Some(Kind::Video)
        }),
{
    let e = ascii_lowercase_of(ext);
    assert(preview_kind(path) == kind_for_extension(e));
    reveal_strlit("md");
    reveal_strlit("markdown");
    reveal_strlit("txt");
    reveal_strlit("log");
    reveal_strlit("csv");
    reveal_strlit("json");
    reveal_strlit("toml");
    reveal_strlit("yaml");
    reveal_strlit("yml");
    reveal_strlit("rs");
    reveal_strlit("png");
    reveal_strlit("jpg");
    reveal_strlit("jpeg");
    reveal_strlit("gif");
    reveal_strlit("webp");
    reveal_strlit("bmp");
    reveal_strlit("tif");
    reveal_strlit("tiff");
    reveal_strlit("mp4");
    reveal_strlit("m4v");
    reveal_strlit("mov");
    reveal_strlit("webm");
    reveal_strlit("ogv");
    if e == "md"@ {
        assert(e.len() == 2);
        assert(e[0] == 'm'); assert(e[1] == 'd');
    }
    if e == "markdown"@ {
        assert(e.len() == 8);
        assert(e[0] == 'm'); assert(e[1] == 'a'); assert(e[2] == 'r');
    }
    if e == "txt"@ {
        assert(e.len() == 3);
        assert(e[0] == 't'); assert(e[1] == 'x'); assert(e[2] == 't');
    }
    if e == "log"@ {
        assert(e.len() == 3);
        assert(e[0] == 'l'); assert(e[1] == 'o'); assert(e[2] == 'g');
    }
    if e == "csv"@ {
        assert(e.len() == 3);
        assert(e[0] == 'c'); assert(e[1] == 's'); assert(e[2] == 'v');
    }
    if e == "json"@ {
        assert(e.len() == 4);
        assert(e[0] == 'j'); assert(e[1] == 's'); assert(e[2] == 'o');
    }
    if e == "toml"@ {
        assert(e.len() == 4);
        assert(e[0] == 't'); assert(e[1] == 'o'); assert(e[2] == 'm');
    }
    if e == "yaml"@ {
        assert(e.len() == 4);
        assert(e[0] == 'y'); assert(e[1] == 'a'); assert(e[2] == 'm');
    }
    if e == "yml"@ {
        assert(e.len() == 3);
        assert(e[0] == 'y'); assert(e[1] == 'm'); assert(e[2] == 'l');
    }
    if e == "rs"@ {
        assert(e.len() == 2);
        assert(e[0] == 'r'); assert(e[1] == 's');
    }
    if e == "png"@ {
        assert(e.len() == 3);
        assert(e[0] == 'p'); assert(e[1] == 'n'); assert(e[2] == 'g');
    }
    if e == "jpg"@ {
        assert(e.len() == 3);
        assert(e[0] == 'j'); assert(e[1] == 'p'); assert(e[2] == 'g');
    }
    if e == "jpeg"@ {
        assert(e.len() == 4);
        assert(e[0] == 'j'); assert(e[1] == 'p'); assert(e[2] == 'e');
    }
    if e == "gif"@ {
        assert(e.len() == 3);
        assert(e[0] == 'g'); assert(e[1] == 'i'); assert(e[2] == 'f');
    }
    if e == "webp"@ {
        assert(e.len() == 4);
        assert(e[0] == 'w'); assert(e[1] == 'e'); assert(e[2] == 'b');
    }
    if e == "bmp"@ {
        assert(e.len() == 3);
        assert(e[0] == 'b'); assert(e[1] == 'm'); assert(e[2] == 'p');
    }
    if e == "tif"@ {
        assert(e.len() == 3);
        assert(e[0] == 't'); assert(e[1] == 'i'); assert(e[2] == 'f');
    }
    if e == "tiff"@ {
        assert(e.len() == 4);
        assert(e[0] == 't'); assert(e[1] == 'i'); assert(e[2] == 'f');
    }
    if e == "mp4"@ {
        assert(e.len() == 3);
        assert(e[0] == 'm'); assert(e[1] == 'p'); assert(e[2] == '4');
    }
    if e == "m4v"@ {
        assert(e.len() == 3);
        assert(e[0] == 'm'); assert(e[1] == '4'); assert(e[2] == 'v');
    }
    if e == "mov"@ {
        assert(e.len() == 3);
        assert(e[0] == 'm'); assert(e[1] == 'o'); assert(e[2] == 'v');
    }
    if e == "webm"@ {
        assert(e.len() == 4);
        assert(e[0] == 'w'); assert(e[1] == 'e'); assert(e[2] == 'b'); assert(e[3] == 'm');
    }
    if e == "ogv"@ {
        assert(e.len() == 3);
        assert(e[0] == 'o'); assert(e[1] == 'g'); assert(e[2] == 'v');
    }
}

fn kind_of_extension(e: &str) -> (kind: Option<Kind>)
    ensures
        kind == kind_for_extension(e@),
{
    if str_eq(e, "md") || str_eq(e, "markdown") {
        Some(Kind::Markdown)
    } else if str_eq(e, "txt") || str_eq(e, "log") || str_eq(e, "csv") || str_eq(e, "json")
        || str_eq(e, "toml") || str_eq(e, "yaml") || str_eq(e, "yml") || str_eq(e, "rs") {
        Some(Kind::Text)
    } else if str_eq(e, "png") || str_eq(e, "jpg") || str_eq(e, "jpeg") || str_eq(e, "gif")
        || str_eq(e, "webp") || str_eq(e, "bmp") || str_eq(e, "tif") || str_eq(e, "tiff") {
        Some(Kind::Image)
    } else if str_eq(e, "mp4") || str_eq(e, "m4v") || str_eq(e, "mov") || str_eq(e, "webm")
        || str_eq(e, "ogv") {
        Some(Kind::Video)
    } else {
        None
    }
}

impl Kind {
    /// The preview kind of `path`, or nothing for a file that cannot be previewed.
    pub fn for_path(path: &[u8]) -> (kind: Option<Kind>)
        ensures
            kind == preview_kind(path@),
    {
        match extension_str(path) {
            Some(ext) => {
                let lower = ascii_lowercase(ext);
                kind_of_extension(lower.as_str())
            },
            None => None,
        }
    }

    /// Whether the preview shows the file's text.
    pub fn shows_text(&self) -> (text: bool)
        ensures
            text == (*self == Kind::Markdown || *self == Kind::Text),
    {
        match self {
            Kind::Markdown => true,
            Kind::Text => true,
            _ => false,
        }
    }
}

/// Why a file cannot be previewed.
#[derive(Clone, Copy, Debug, PartialEq, Eq, Structural)]
pub enum PreviewError {
    /// The file's extension has no preview.
    Unsupported,
    /// The path does not name a regular file.
    NotRegularFile,
    /// A text file is not UTF-8.
    NotUtf8,
    /// A text file is longer than `TEXT_LIMIT` bytes.
    TooLarge,
}

/// The text that a preview of `kind` shows, given the first `TEXT_LIMIT + 1` bytes of the
/// file (all of it when it is shorter): nothing for images and videos; for text, the bytes
/// as UTF-8, refused when they are not UTF-8 or longer than `TEXT_LIMIT`.
pub fn preview_text(kind: Kind, read: &[u8]) -> (text: Result<String, PreviewError>)
    ensures
        !(kind == Kind::Markdown || kind == Kind::Text) ==> (text matches Ok(t) && t@.len() == 0),
        (kind == Kind::Markdown || kind == Kind::Text) ==> {
            if !valid_utf8(read@) {
                text == Err::<String, _>(PreviewError::NotUtf8)
            } else if read@.len() > TEXT_LIMIT {
                text == Err::<String, _>(PreviewError::TooLarge)
            } else {
                (text matches Ok(t) && encode_utf8(t@) == read@)
            }
        },
{
    if !kind.shows_text() {
        return Ok(String::new());
    }
    match utf8_str(read) {
        None => Err(PreviewError::NotUtf8),
        Some(s) => if read.len() as u64 > TEXT_LIMIT {
            Err(PreviewError::TooLarge)
        } else {
            Ok(s.to_owned())
        },
    }
}

/// Whether a byte is an ASCII decimal digit.
pub open spec fn is_digit(b: u8) -> bool {
    48u8 <= b && b <= 57u8
}

/// The number that a run of decimal digits spells.
pub open spec fn digits_value(s: Seq<u8>) -> nat
    decreases s.len(),
{
    if s.len() == 0 {
        0
    } else {
        digits_value(s.drop_last()) * 10 + (s.last() - 48) as nat
    }
}

/// Whether every byte of `s` is a decimal digit.
pub open spec fn all_digits(s: Seq<u8>) -> bool {
    forall|i: int| 0 <= i < s.len() ==> is_digit(#[trigger] s[i])
}

/// `s` without one leading `+`.
pub open spec fn unsigned_digits(s: Seq<u8>) -> Seq<u8> {
    if s.len() > 0 && s[0] == 43u8 {
        s.drop_first()
    } else {
        s
    }
}

/// `u64::from_str`: an optional `+`, then one or more decimal digits whose value fits in
/// a `u64`; nothing otherwise.
pub open spec fn parsed_u64(s: Seq<u8>) -> Option<u64> {
    let digits = unsigned_digits(s);
    if digits.len() > 0 && all_digits(digits) && digits_value(digits) <= u64::MAX {
        Some(digits_value(digits) as u64)
    } else {
        None
    }
}

proof fn lemma_digits_value_grows(s: Seq<u8>, k: int)
    requires
        0 <= k <= s.len(),
        all_digits(s),
    ensures
        digits_value(s.take(k)) <= digits_value(s),
    decreases s.len() - k,
{
    if k < s.len() {
        lemma_digits_value_grows(s, k + 1);
        assert(s.take(k + 1).drop_last() =~= s.take(k));
    } else {
        assert(s.take(k) =~= s);
    }
}

fn parse_u64(s: &[u8]) -> (value: Option<u64>)
    ensures
        value == parsed_u64(s@),
{
    let start: usize = if s.len() > 0 && s[0] == 43u8 {
        1
    } else {
        0
    };
    let ghost digits = s@.subrange(start as int, s@.len() as int);
    assert(digits =~= unsigned_digits(s@));
    if start >= s.len() {
        return None;
    }
    let mut i: usize = start;
    while i < s.len()
        invariant
            start <= i <= s@.len(),
            digits == s@.subrange(start as int, s@.len() as int),
            digits == unsigned_digits(s@),
            start < s@.len(),
            forall|j: int| 0 <= j < i - start ==> is_digit(#[trigger] digits[j]),
        decreases s@.len() - i,
    {
        if !(48u8 <= s[i] && s[i] <= 57u8) {
            assert(digits[i - start] == s@[i as int]);
            assert(!is_digit(digits[i - start]));

            return None;
        }
        i = i + 1;
    }
    let mut value: u64 = 0;
    let mut i: usize = start;
    assert(digits.take(0) =~= Seq::<u8>::empty());
    while i < s.len()
        invariant
            start <= i <= s@.len(),
            digits == s@.subrange(start as int, s@.len() as int),
            digits == unsigned_digits(s@),
            start < s@.len(),
            forall|j: int| 0 <= j < digits.len() ==> is_digit(#[trigger] digits[j]),
            value == digits_value(digits.take(i - start)),
        decreases s@.len() - i,
    {
        let ghost k = i - start;
        assert(digits.take(k + 1).drop_last() =~= digits.take(k));
        assert(digits[k] == s@[i as int]);
        let digit = (s[i] - 48u8) as u64;
        let next = match value.checked_mul(10) {
            Some(v) => v.checked_add(digit),
            None => None,
        };
        match next {
            Some(v) => {
                value = v;
            },
            None => {
                proof {
                    lemma_digits_value_grows(digits, k + 1);
                }
                return None;
            },
        }
        i = i + 1;
    }
    assert(digits.take(digits.len() as int) =~= digits);
    Some(value)
}

/// The index of the first `-` in `s`, if it holds one.
pub open spec fn first_dash(s: Seq<u8>) -> Option<int> {
    if exists|i: int| 0 <= i < s.len() && s[i] == 45u8 && forall|j: int| 0 <= j < i ==> s[j] != 45u8 {
        Some(
            choose|i: int|
                0 <= i < s.len() && s[i] == 45u8 && forall|j: int| 0 <= j < i ==> s[j] != 45u8,
        )
    } else {
        None
    }
}

fn find_dash(s: &[u8]) -> (k: Option<usize>)
    ensures
        match first_dash(s@) {
            Some(i) => k == Some(i as usize),
            None => k is None,
        },
        k matches Some(j) ==> j < s@.len(),
{
    let mut i: usize = 0;
    while i < s.len()
        invariant
            i <= s@.len(),
            forall|j: int| 0 <= j < i ==> s@[j] != 45u8,
        decreases s@.len() - i,
    {
        if s[i] == 45u8 {
            proof {
                let w = choose|w: int|
                    0 <= w < s@.len() && s@[w] == 45u8 && forall|j: int| 0 <= j < w ==> s@[j] != 45u8;
                assert(0 <= i < s@.len() && s@[i as int] == 45u8 && forall|j: int| 0 <= j < i ==> s@[j] != 45u8);
                if w < i {
                    assert(s@[w] != 45u8);
                }
                if w > i {
                    assert(s@[i as int] != 45u8);
                }
            }
            return Some(i);
        }
        i = i + 1;
    }
    None
}

/// The bytes of `bytes=`, the unit prefix of a range header.
pub open spec fn range_unit() -> Seq<u8> {
    seq![98u8, 121u8, 116u8, 101u8, 115u8, 61u8]
}

/// The first and last byte that the range set `spec` (the header after `bytes=`) asks of
/// a file of `len > 0` bytes, before they are checked: `-n` is the last `n` bytes, `a-` runs
/// to the end and `a-b` is cut at the end.
pub open spec fn requested_bounds(spec: Seq<u8>, len: u64) -> Option<(int, int)> {
    match first_dash(spec) {
        None => None,
        Some(k) => {
            let first = spec.take(k);
            let second = spec.skip(k + 1);
            if first.len() == 0 {
                match parsed_u64(second) {
                    None => None,
                    Some(n) => if n == 0 {
                        None
                    } else if n <= len {
                        Some(((len - n) as int, len - 1))
                    } else {
                        Some((0, len - 1))
                    },
                }
            } else {
                match parsed_u64(first) {
                    None => None,
                    Some(start) => if second.len() == 0 {
                        Some((start as int, len - 1))
                    } else {
                        match parsed_u64(second) {
                            None => None,
                            Some(end) => Some(
                                (start as int, if end <= len - 1 {
                                    end as int
                                } else {
                                    len - 1
                                }),
                            ),
                        }
                    },
                }
            }
        },
    }
}

/// The bytes of a file of `len` bytes that a response covers, first and last: the whole
/// file when no range header is given; for a single range `bytes=...` that lies in the
/// file, that range, cut to `RANGE_CHUNK` bytes; nothing for an empty file or a range that
/// cannot be served.
pub open spec fn served_range(header: Option<Seq<u8>>, len: u64) -> Option<(u64, u64)> {
    if len == 0 {
        None
    } else {
        match header {
            None => Some((0, (len - 1) as u64)),
            Some(h) => if h.len() >= 6 && h.take(6) == range_unit() {
                match requested_bounds(h.skip(6), len) {
                    None => None,
                    Some(bounds) => if bounds.0 > bounds.1 || bounds.0 >= len {
                        None
                    } else if bounds.1 <= bounds.0 + RANGE_CHUNK - 1 {
                        Some((bounds.0 as u64, bounds.1 as u64))
                    } else {
                        Some((bounds.0 as u64, (bounds.0 + RANGE_CHUNK - 1) as u64))
                    },
                }
            } else {
                None
            },
        }
    }
}

fn requested(spec: &[u8], len: u64) -> (bounds: Option<(u64, u64)>)
    requires
        len > 0,
    ensures
        match requested_bounds(spec@, len) {
            None => bounds is None,
            Some(b) => (bounds matches Some(r) && r.0 == b.0 && r.1 == b.1),
        },
{
    let last = len - 1;
    let k = match find_dash(spec) {
        Some(k) => k,
        None => {
            return None;
        },
    };
    let n = spec.len();
    assert(k < n);
    let first = &spec[0..k];
    let second = &spec[k + 1..n];
    assert(first@ =~= spec@.take(k as int));
    assert(second@ =~= spec@.skip(k + 1));
    if first.len() == 0 {
        match parse_u64(second) {
            None => None,
            Some(n) => if n == 0 {
                None
            } else {
                Some((len.saturating_sub(n), last))
            },
        }
    } else {
        match parse_u64(first) {
            None => None,
            Some(start) => if second.len() == 0 {
                Some((start, last))
            } else {
                match parse_u64(second) {
                    None => None,
                    Some(end) => Some(
                        (start, if end <= last {
                            end
                        } else {
                            last
                        }),
                    ),
                }
            },
        }
    }
}

/// The first and last byte of a file of `len` bytes that a response to the range header
/// `range` covers (see `served_range`).
pub fn byte_range(range: Option<&str>, len: u64) -> (served: Option<(u64, u64)>)
    ensures
        served == served_range(
            match range {
                Some(r) => Some(r.spec_bytes()),
                None => None,
            },
            len,
        ),
{
    if len == 0 {
        return None;
    }
    let last = len - 1;
    let header = match range {
        None => {
            return Some((0, last));
        },
        Some(r) => r.as_bytes(),
    };
    if header.len() < 6 || !(header[0] == 98u8 && header[1] == 121u8 && header[2] == 116u8
        && header[3] == 101u8 && header[4] == 115u8 && header[5] == 61u8) {
        proof {
            if header@.len() >= 6 && header@.take(6) == range_unit() {
                assert(header@.take(6)[0] == 98u8);
                assert(header@.take(6)[1] == 121u8);
                assert(header@.take(6)[2] == 116u8);
                assert(header@.take(6)[3] == 101u8);
                assert(header@.take(6)[4] == 115u8);
                assert(header@.take(6)[5] == 61u8);
            }
        }
        return None;
    }
    assert(header@.take(6) =~= range_unit());
    let spec = &header[6..header.len()];
    assert(spec@ =~= header@.skip(6));
    let (start, end) = match requested(spec, len) {
        Some(bounds) => bounds,
        None => {
            return None;
        },
    };
    if start > end || start >= len {
        return None;
    }
    let cap = start.saturating_add(RANGE_CHUNK - 1);
    Some((start, if end <= cap {
        end
    } else {
        cap
    }))
}

/// The laws of a served range: it lies in the file, runs forward, and a range request is
/// answered with at most `RANGE_CHUNK` bytes.
pub proof fn lemma_served_range_within_file(header: Option<Seq<u8>>, len: u64)
    ensures
        served_range(header, len) matches Some(r) ==> r.0 <= r.1 < len,
        header is Some ==> (served_range(header, len) matches Some(r) ==> r.1 - r.0 < RANGE_CHUNK),
        header is None && len > 0 ==> served_range(header, len) == Some((0u64, (len - 1) as u64)),
{
}

/// What a request to the preview protocol is answered with, before any file is read.
#[derive(Clone, Copy, Debug, PartialEq, Eq, Structural)]
pub enum MediaRoute {
    /// 405: only `GET` and `HEAD` are served.
    MethodNotAllowed,
    /// The player page, at `/`.
    Player,
    /// The previewed video, at `/video`; the URL never selects another file.
    Video,
    /// 404: every other path.
    NotFound,
}

/// The route of a request with `method` to `uri_path`.
pub open spec fn media_route(method: Seq<char>, uri_path: Seq<char>) -> MediaRoute {
    if method != "GET"@ && method != "HEAD"@ {
        MediaRoute::MethodNotAllowed
    } else if uri_path == "/"@ {
        MediaRoute::Player
    } else if uri_path == "/video"@ {
        MediaRoute::Video
    } else {
        MediaRoute::NotFound
    }
}

/// Routes a request to the preview protocol (see `media_route`).
pub fn route_media(method: &str, uri_path: &str) -> (route: MediaRoute)
    ensures
        route == media_route(method@, uri_path@),
{
    if !str_eq(method, "GET") && !str_eq(method, "HEAD") {
        MediaRoute::MethodNotAllowed
    } else if str_eq(uri_path, "/") {
        MediaRoute::Player
    } else if str_eq(uri_path, "/video") {
        MediaRoute::Video
    } else {
        MediaRoute::NotFound
    }
}

/// The media type a video is sent as.
#[derive(Clone, Copy, Debug, PartialEq, Eq, Structural)]
pub enum VideoMime {
    QuickTime,
    WebM,
    Ogg,
    Mp4,
}

/// The media type of a video at `path`, by its extension with ASCII letters lowered; MP4
/// for every other extension and for none.
pub open spec fn video_mime_of(path: Seq<u8>) -> VideoMime {
    let ext = match text_of(extension_of(path)) {
        Some(e) => ascii_lowercase_of(e),
        None => Seq::empty(),
    };
    if ext == "mov"@ {
        VideoMime::QuickTime
    } else if ext == "webm"@ {
        VideoMime::WebM
    } else if ext == "ogv"@ {
        VideoMime::Ogg
    } else {
        VideoMime::Mp4
    }
}

/// The media type of the video at `path` (see `video_mime_of`).
pub fn video_mime(path: &[u8]) -> (mime: VideoMime)
    ensures
        mime == video_mime_of(path@),
{
    let lower = match extension_str(path) {
        Some(ext) => ascii_lowercase(ext),
        None => String::new(),
    };
    let e = lower.as_str();
    if str_eq(e, "mov") {
        VideoMime::QuickTime
    } else if str_eq(e, "webm") {
        VideoMime::WebM
    } else if str_eq(e, "ogv") {
        VideoMime::Ogg
    } else {
        VideoMime::Mp4
    }
}

impl VideoMime {
    /// The `Content-Type` value.
    pub fn as_str(&self) -> (text: &'static str)
        ensures
            text@ == match *self {
                VideoMime::QuickTime => "video/quicktime"@,
                VideoMime::WebM => "video/webm"@,
                VideoMime::Ogg => "video/ogg"@,
                VideoMime::Mp4 => "video/mp4"@,
            },
    {
        match self {
            VideoMime::QuickTime => "video/quicktime",
            VideoMime::WebM => "video/webm",
            VideoMime::Ogg => "video/ogg",
            VideoMime::Mp4 => "video/mp4",
        }
    }
}

/// The answer to a request for the video.
#[derive(Clone, Copy, Debug, PartialEq, Eq, Structural)]
pub enum VideoResponse {
    /// 416, with `Content-Range: bytes */len`.
    Unsatisfiable { len: u64 },
    /// The bytes `start..=end` of a video of `len` bytes: status 206 with
    /// `Content-Range: bytes start-end/len` when `partial`, 200 otherwise; the body is left
    /// empty when `send_body` is false (a `HEAD` request).
    Content { partial: bool, start: u64, end: u64, len: u64, mime: VideoMime, send_body: bool },
}

/// Why a request for the video cannot be answered.
#[derive(Clone, Copy, Debug, PartialEq, Eq, Structural)]
pub enum VideoError {
    /// The client asked for a whole video larger than `WHOLE_VIDEO_LIMIT` bytes.
    RangesRequired,
}

/// The answer to a `GET` (or, when `head`, `HEAD`) request for the video at `path`, of
/// `len` bytes, with the range header `range`.
pub open spec fn video_answer(path: Seq<u8>, head: bool, range: Option<Seq<u8>>, len: u64) -> Result<
    VideoResponse,
    VideoError,
> {
    match served_range(range, len) {
        None => Ok(VideoResponse::Unsatisfiable { len }),
        Some(r) => if range is None && r.1 - r.0 + 1 > WHOLE_VIDEO_LIMIT {
            Err(VideoError::RangesRequired)
        } else {
            Ok(
                VideoResponse::Content {
                    partial: range is Some,
                    start: r.0,
                    end: r.1,
                    len,
                    mime: video_mime_of(path),
                    send_body: !head,
                },
            )
        },
    }
}

/// Answers a request for the video at `path` (see `video_answer`).
pub fn plan_video(path: &[u8], head: bool, range: Option<&str>, len: u64) -> (answer: Result<
    VideoResponse,
    VideoError,
>)
    ensures
        answer == video_answer(
            path@,
            head,
            match range {
                Some(r) => Some(r.spec_bytes()),
                None => None,
            },
            len,
        ),
{
    let (start, end) = match byte_range(range, len) {
        Some(r) => r,
        None => {
            return Ok(VideoResponse::Unsatisfiable { len });
        },
    };
    proof {
        lemma_served_range_within_file(
            match range {
                Some(r) => Some(r.spec_bytes()),
                None => None,
            },
            len,
        );
    }
    if range.is_none() && end - start >= WHOLE_VIDEO_LIMIT {
        return Err(VideoError::RangesRequired);
    }
    Ok(
        VideoResponse::Content {
            partial: range.is_some(),
            start,
            end,
            len,
            mime: video_mime(path),
            send_body: !head,
        },
    )
}

} // verus!
