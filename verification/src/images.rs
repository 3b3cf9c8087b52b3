//! Images: which vault files are served as pictures, and how a pasted image
//! is checked, named and linked before it is written beside its note.
use vstd::prelude::*;
use vstd::utf8::*;
use vstd::string::StringSliceAdditionalSpecFns;
use base64::Engine;
use crate::assets::opt_view;
use crate::error::{message, AppError};
use crate::notes::{text_or_empty, trim_rel, trim_rel_spec};
use crate::paths::{extension, extension_spec, file_name, file_name_spec, stem, stem_spec};
use crate::text::{
    decimal, find_char, first_index, has_char, lemma_first_index, lowercase, push_char,
    push_decimal, push_str, string_of, to_chars, to_lowercase,
};
use crate::wikilinks::{chars_eq_ignore_ascii_case, eq_ignore_ascii_case};

verus! {

// ── Sniffing ──

pub open spec fn png_magic() -> Seq<u8> {
    seq![0x89u8, 0x50, 0x4e, 0x47, 0x0d, 0x0a, 0x1a, 0x0a]
}

pub open spec fn jpg_magic() -> Seq<u8> {
    seq![0xffu8, 0xd8, 0xff]
}

/// "GIF87a" and "GIF89a" differ only in their fifth byte.
pub open spec fn gif_magic(v: u8) -> Seq<u8> {
    seq![0x47u8, 0x49, 0x46, 0x38, v, 0x61]
}

/// "BM"
pub open spec fn bmp_magic() -> Seq<u8> {
    seq![0x42u8, 0x4d]
}

/// "RIFF"
pub open spec fn riff_tag() -> Seq<u8> {
    seq![0x52u8, 0x49, 0x46, 0x46]
}

/// "WEBP"
pub open spec fn webp_tag() -> Seq<u8> {
    seq![0x57u8, 0x45, 0x42, 0x50]
}

/// "ftyp"
pub open spec fn ftyp_tag() -> Seq<u8> {
    seq![0x66u8, 0x74, 0x79, 0x70]
}

/// "avif"
pub open spec fn avif_tag() -> Seq<u8> {
    seq![0x61u8, 0x76, 0x69, 0x66]
}

/// "<svg"
pub open spec fn svg_tag() -> Seq<u8> {
    seq![0x3cu8, 0x73, 0x76, 0x67]
}

/// "<?xml"
pub open spec fn xml_tag() -> Seq<u8> {
    seq![0x3cu8, 0x3f, 0x78, 0x6d, 0x6c]
}

pub open spec fn starts_with_bytes(d: Seq<u8>, m: Seq<u8>) -> bool {
    m.len() <= d.len() && d.take(m.len() as int) == m
}

/// `needle` occurs somewhere in `haystack`.
pub open spec fn contains_spec(haystack: Seq<u8>, needle: Seq<u8>) -> bool {
    exists|i: int|
        0 <= i && i + needle.len() <= haystack.len() && #[trigger] haystack.subrange(
            i,
            i + needle.len(),
        ) == needle
}

/// The bytes `u8::is_ascii_whitespace` accepts.
pub open spec fn ascii_ws_byte(b: u8) -> bool {
    b == 0x20 || b == 0x09 || b == 0x0a || b == 0x0c || b == 0x0d
}

pub open spec fn skip_ascii_ws(s: Seq<u8>) -> Seq<u8>
    decreases s.len(),
{
    if s.len() > 0 && ascii_ws_byte(s[0]) {
        skip_ascii_ws(s.drop_first())
    } else {
        s
    }
}

pub open spec fn min_len(n: nat, cap: nat) -> nat {
    if n < cap {
        n
    } else {
        cap
    }
}

/// The image type these bytes are, by their leading bytes, as the suffix a
/// file of that type takes. An SVG may follow whitespace within its first
/// 400 bytes, or an XML declaration with `<svg` in the first 2000.
pub open spec fn sniff_spec(d: Seq<u8>) -> Option<Seq<char>> {
    if starts_with_bytes(d, png_magic()) {
        Some(".png"@)
    } else if starts_with_bytes(d, jpg_magic()) {
        Some(".jpg"@)
    } else if starts_with_bytes(d, gif_magic(0x37)) || starts_with_bytes(d, gif_magic(0x39)) {
        Some(".gif"@)
    } else if starts_with_bytes(d, bmp_magic()) {
        Some(".bmp"@)
    } else if d.len() >= 12 && d.take(4) == riff_tag() && d.subrange(8, 12) == webp_tag() {
        Some(".webp"@)
    } else if d.len() >= 24 && d.subrange(4, 8) == ftyp_tag() && contains_spec(
        d.subrange(8, 24),
        avif_tag(),
    ) {
        Some(".avif"@)
    } else {
        let head = skip_ascii_ws(d.take(min_len(d.len(), 400) as int));
        if starts_with_bytes(head, svg_tag()) || (starts_with_bytes(head, xml_tag())
            && contains_spec(d.take(min_len(d.len(), 2000) as int), svg_tag())) {
            Some(".svg"@)
        } else {
            None
        }
    }
}

fn starts_with(data: &[u8], magic: &[u8]) -> (b: bool)
    ensures
        b == starts_with_bytes(data@, magic@),
{
    if magic.len() > data.len() {
        return false;
    }
    let mut i: usize = 0;
    while i < magic.len()
        invariant
            magic.len() <= data.len(),
            i <= magic.len(),
            forall|j: int| 0 <= j < i ==> data@[j] == magic@[j],
        decreases magic.len() - i,
    {
        if data[i] != magic[i] {
            assert(data@.take(magic@.len() as int)[i as int] != magic@[i as int]);
            return false;
        }
        i += 1;
    }
    assert(data@.take(magic@.len() as int) =~= magic@);
    true
}

/// Whether `needle` occurs in `haystack`.
fn contains(haystack: &[u8], needle: &[u8]) -> (b: bool)
    requires
        needle@.len() > 0,
    ensures
        b == contains_spec(haystack@, needle@),
{
    let n = needle.len();
    if n > haystack.len() {
        return false;
    }
    let last: usize = haystack.len() - n;
    let mut i: usize = 0;
    while i <= last
        invariant
            n == needle@.len(),
            0 < n <= haystack.len(),
            last == haystack.len() - n,
            i <= last + 1,
            forall|k: int| 0 <= k < i ==> #[trigger] haystack@.subrange(k, k + n) != needle@,
        decreases last + 1 - i,
    {
        let window = &haystack[i..i + n];
        if starts_with(window, needle) {
            assert(window@.take(n as int) =~= window@);
            return true;
        }
        assert(window@.take(n as int) =~= window@);
        i += 1;
    }
    assert forall|k: int| 0 <= k && k + n <= haystack@.len() implies #[trigger] haystack@.subrange(
        k,
        k + n,
    ) != needle@ by {}
    false
}

proof fn lemma_skip_ws_step(s: Seq<u8>, k: int)
    requires
        0 <= k < s.len(),
        ascii_ws_byte(s[k]),
    ensures
        skip_ascii_ws(s.skip(k)) == skip_ascii_ws(s.skip(k + 1)),
{
    assert(s.skip(k).drop_first() =~= s.skip(k + 1));
}

/// The image suffix for these bytes, or `None` when they are not an image.
/// The leading bytes are trusted over whatever type the clipboard claimed.
pub fn sniff_image(data: &[u8]) -> (r: Option<&'static str>)
    ensures
        match r {
            Some(s) => sniff_spec(data@) == Some(s@),
            None => sniff_spec(data@) is None,
        },
{
    if starts_with(data, &[0x89u8, 0x50, 0x4e, 0x47, 0x0d, 0x0a, 0x1a, 0x0a]) {
        return Some(".png");
    }
    if starts_with(data, &[0xffu8, 0xd8, 0xff]) {
        return Some(".jpg");
    }
    if starts_with(data, &[0x47u8, 0x49, 0x46, 0x38, 0x37, 0x61]) || starts_with(
        data,
        &[0x47u8, 0x49, 0x46, 0x38, 0x39, 0x61],
    ) {
        return Some(".gif");
    }
    if starts_with(data, &[0x42u8, 0x4d]) {
        return Some(".bmp");
    }
    if data.len() >= 12 && starts_with(&data[0..4], &[0x52u8, 0x49, 0x46, 0x46]) && starts_with(
        &data[8..12],
        &[0x57u8, 0x45, 0x42, 0x50],
    ) {
        assert(data@.subrange(0, 4).take(4) =~= data@.take(4));
        assert(data@.subrange(8, 12).take(4) =~= data@.subrange(8, 12));
        return Some(".webp");
    }
    if data.len() >= 12 {
        assert(data@.subrange(0, 4).take(4) =~= data@.take(4));
        assert(data@.subrange(8, 12).take(4) =~= data@.subrange(8, 12));
    }
    if data.len() >= 24 && starts_with(&data[4..8], &[0x66u8, 0x74, 0x79, 0x70]) && contains(
        &data[8..24],
        &[0x61u8, 0x76, 0x69, 0x66],
    ) {
        assert(data@.subrange(4, 8).take(4) =~= data@.subrange(4, 8));
        return Some(".avif");
    }
    if data.len() >= 24 {
        assert(data@.subrange(4, 8).take(4) =~= data@.subrange(4, 8));
    }
    let head_len: usize = if data.len() < 400 {
        data.len()
    } else {
        400
    };
    let slice = &data[0..head_len];
    let mut start: usize = 0;
    assert(slice@.skip(0) =~= slice@);
    while start < head_len && (slice[start] == 0x20 || slice[start] == 0x09 || slice[start] == 0x0a
        || slice[start] == 0x0c || slice[start] == 0x0d)
        invariant
            start <= head_len,
            head_len == slice@.len(),
            skip_ascii_ws(slice@.skip(start as int)) == skip_ascii_ws(slice@),
        decreases head_len - start,
    {
        proof {
            lemma_skip_ws_step(slice@, start as int);
        }
        start += 1;
    }
    let head = &slice[start..head_len];
    assert(slice@ =~= data@.take(head_len as int));
    assert(head@ =~= slice@.skip(start as int));
    assert(skip_ascii_ws(head@) == head@);
    let xml_len: usize = if data.len() < 2000 {
        data.len()
    } else {
        2000
    };
    assert(data@.subrange(0, xml_len as int) =~= data@.take(xml_len as int));
    if starts_with(head, &[0x3cu8, 0x73, 0x76, 0x67]) || (starts_with(
        head,
        &[0x3cu8, 0x3f, 0x78, 0x6d, 0x6c],
    ) && contains(&data[0..xml_len], &[0x3cu8, 0x73, 0x76, 0x67])) {
        return Some(".svg");
    }
    None
}

// ── Serving ──

/// The extensions served as pictures. An allow-list of media types: the
/// endpoint exists so notes can show their own pictures, not to read any file
/// in the vault.
pub open spec fn asset_suffix(s: Seq<char>) -> bool {
    ||| s == "png"@
    ||| s == "jpg"@
    ||| s == "jpeg"@
    ||| s == "gif"@
    ||| s == "webp"@
    ||| s == "avif"@
    ||| s == "bmp"@
    ||| s == "svg"@
    ||| s == "ico"@
}

/// The lower-cased extension of the file a path names, "" when it has none.
pub open spec fn suffix_spec(path: Seq<char>) -> Seq<char> {
    match file_name_spec(path) {
        Some(n) => match extension_spec(n) {
            Some(e) => lowercase(e),
            None => Seq::empty(),
        },
        None => Seq::empty(),
    }
}

/// What `mime_guess::from_path(path).first_raw()` gives: the first media type
/// registered for the path's extension, if any.
pub uninterp spec fn guessed_type(path: Seq<char>) -> Option<Seq<char>>;

/// `mime_guess::from_path(path).first_raw()`; the guess reads the extension
/// only, never the disk.
#[verifier::external_body]
fn guess_media_type(path: &str) -> (r: Option<&'static str>)
    ensures
        match r {
            Some(t) => guessed_type(path@) == Some(t@),
            None => guessed_type(path@) is None,
        },
{
    mime_guess::from_path(path).first_raw()
}

pub open spec fn media_type_spec(path: Seq<char>) -> Seq<char> {
    match guessed_type(path) {
        Some(t) => t,
        None => "application/octet-stream"@,
    }
}

/// The Content-Type to serve a file under: the guess for its extension, or
/// `application/octet-stream`.
pub fn media_type(path: &str) -> (r: String)
    ensures
        r@ == media_type_spec(path@),
{
    match guess_media_type(path) {
        Some(t) => String::from_str(t),
        None => String::from_str("application/octet-stream"),
    }
}

/// How an image from the vault is served.
#[derive(Debug, Clone)]
pub struct AssetType {
    pub media_type: String,
    /// An SVG is a document that could run script when opened directly, so
    /// it is served under a policy that forbids it.
    pub svg: bool,
}

/// Decides whether the resolved file `full` (asked for as `filepath`) is
/// served as an image, and under which type.
pub fn asset_type(full: &str, filepath: &str) -> (r: Result<AssetType, AppError>)
    ensures
        r is Ok <==> ({
            let e = suffix_spec(full@);
            ||| e == "png"@
            ||| e == "jpg"@
            ||| e == "jpeg"@
            ||| e == "gif"@
            ||| e == "webp"@
            ||| e == "avif"@
            ||| e == "bmp"@
            ||| e == "svg"@
            ||| e == "ico"@
        }),
        match r {
            Ok(t) => {
                &&& asset_suffix(suffix_spec(full@))
                &&& t.media_type@ == media_type_spec(full@)
                &&& t.svg == (suffix_spec(full@) == "svg"@)
            },
            Err(e) => {
                &&& !asset_suffix(suffix_spec(full@))
                &&& e.status == 415
                &&& e.detail@ == "Not an image: "@ + filepath@
            },
        },
{
    let suffix = match file_name(full) {
        Some(n) => match extension(n.as_str()) {
            Some(e) => to_lowercase(e.as_str()),
            None => String::new(),
        },
        None => String::new(),
    };
    let sc = to_chars(suffix.as_str());
    let allowed = ["png", "jpg", "jpeg", "gif", "webp", "avif", "bmp", "svg", "ico"];
    let mut ok = false;
    let mut i: usize = 0;
    while i < 9
        invariant
            i <= 9,
            sc@ == suffix_spec(full@),
            allowed@ == seq!["png", "jpg", "jpeg", "gif", "webp", "avif", "bmp", "svg", "ico"],
            ok == exists|j: int| 0 <= j < i && sc@ == (#[trigger] allowed@[j])@,
        decreases 9 - i,
    {
        if crate::text::chars_eq(&sc, &to_chars(allowed[i])) {
            ok = true;
        }
        i += 1;
    }
    assert(ok == asset_suffix(sc@)) by {
        if asset_suffix(sc@) {
            if sc@ == "png"@ { assert(sc@ == allowed@[0]@); }
            else if sc@ == "jpg"@ { assert(sc@ == allowed@[1]@); }
            else if sc@ == "jpeg"@ { assert(sc@ == allowed@[2]@); }
            else if sc@ == "gif"@ { assert(sc@ == allowed@[3]@); }
            else if sc@ == "webp"@ { assert(sc@ == allowed@[4]@); }
            else if sc@ == "avif"@ { assert(sc@ == allowed@[5]@); }
            else if sc@ == "bmp"@ { assert(sc@ == allowed@[6]@); }
            else if sc@ == "svg"@ { assert(sc@ == allowed@[7]@); }
            else { assert(sc@ == allowed@[8]@); }
        }
    }
    if !ok {
        return Err(AppError::unsupported_media(message("Not an image: ", filepath)));
    }
    let svg = crate::text::chars_eq(&sc, &to_chars("svg"));
    Ok(AssetType { media_type: media_type(full), svg })
}

// ── Pasting ──

/// The most a pasted image may weigh: 25 MiB.
pub const PASTE_MAX_BYTES: usize = 26214400;

/// The note a paste goes beside, trimmed; a paste with no open note is
/// refused.
pub fn paste_note(note: Option<String>) -> (r: Result<String, AppError>)
    ensures
        ({
            let rel = trim_rel_spec(text_or_empty(note));
            match r {
                Ok(s) => rel.len() > 0 && s@ == rel,
                Err(e) => rel.len() == 0 && e.status == 400 && e.detail@
                    == "No note given — open a note before pasting"@,
            }
        }),
{
    let text = match note {
        Some(s) => s,
        None => String::new(),
    };
    let rel = trim_rel(text.as_str());
    if to_chars(rel.as_str()).len() == 0 {
        return Err(AppError::bad_request(String::from_str("No note given — open a note before pasting")));
    }
    Ok(rel)
}

/// A data URL ("data:image/png;base64,....") keeps only what follows its
/// first comma; anything else is taken as bare base64.
pub open spec fn strip_data_url(raw: Seq<char>) -> Seq<char> {
    if raw.len() >= 5 && raw.take(5) == "data:"@ && has_char(raw, ',') {
        raw.skip(first_index(raw, ',') + 1)
    } else {
        raw
    }
}

/// What base64's standard engine decodes `input` to, or `None` when the
/// input is not valid padded base64 of the standard alphabet.
pub uninterp spec fn base64_decoded(input: Seq<u8>) -> Option<Seq<u8>>;

#[verifier::external_type_specification]
#[verifier::external_body]
pub struct ExDecodeError(base64::DecodeError);

/// `base64::engine::general_purpose::STANDARD.decode`: the decoded bytes, or
/// the reason the input is not base64.
#[verifier::external_body]
fn decode_base64(input: &[u8]) -> (r: Result<Vec<u8>, base64::DecodeError>)
    ensures
        match r {
            Ok(v) => base64_decoded(input@) == Some(v@),
            Err(_) => base64_decoded(input@) is None,
        },
{
    base64::engine::general_purpose::STANDARD.decode(input)
}

/// What a paste's data decodes and sniffs to: the image bytes and their
/// suffix, or the error the request is answered with.
pub open spec fn paste_data_spec(data: Seq<char>) -> Result<(Seq<u8>, Seq<char>), (u16, Seq<char>)> {
    match base64_decoded(encode_utf8(strip_data_url(data))) {
        None => Err((400u16, "Image data was not valid base64"@)),
        Some(d) => if d.len() == 0 {
            Err((400u16, "Image data was empty"@))
        } else if d.len() > PASTE_MAX_BYTES {
            Err((413u16, "Image is "@ + decimal(d.len() / 1048576) + "MB; the limit is "@ + decimal(25)
                + "MB"@))
        } else {
            match sniff_spec(d) {
                Some(s) => Ok((d, s)),
                None => Err((415u16, "That doesn't look like an image"@)),
            }
        },
    }
}

/// Decodes a pasted image: a data URL's prefix is dropped, the rest must be
/// base64 of a non-empty image no larger than the limit, and its own leading
/// bytes decide its type.
pub fn paste_data(data: Option<String>) -> (r: Result<(Vec<u8>, &'static str), AppError>)
    ensures
        match r {
            Ok((bytes, suffix)) => paste_data_spec(text_or_empty(data)) == Ok::<
                (Seq<u8>, Seq<char>),
                (u16, Seq<char>),
            >((bytes@, suffix@)),
            Err(e) => paste_data_spec(text_or_empty(data)) == Err::<(Seq<u8>, Seq<char>), (u16, Seq<char>)>((e.status, e.detail@)),
        },
{
    let raw = match data {
        Some(s) => s,
        None => String::new(),
    };
    let chars = to_chars(raw.as_str());
    let prefix = to_chars("data:");
    proof {
        reveal_strlit("data:");
    }
    let stripped = if crate::text::starts_with_chars(&chars, &prefix) {
        match find_char(&chars, ',', 0) {
            Some(k) => {
                proof {
                    lemma_first_index(chars@, ',', k as int);
                }
                let rest = string_of(&chars, k + 1, chars.len());
                assert(chars@.subrange(k + 1, chars@.len() as int) =~= chars@.skip(k + 1));
                rest
            },
            None => raw,
        }
    } else {
        raw
    };
    assert(stripped@ == strip_data_url(chars@));
    let decoded = match decode_base64(stripped.as_str().as_bytes()) {
        Ok(v) => v,
        Err(_) => {
            return Err(AppError::bad_request(String::from_str("Image data was not valid base64")));
        },
    };
    if decoded.len() == 0 {
        return Err(AppError::bad_request(String::from_str("Image data was empty")));
    }
    if decoded.len() > PASTE_MAX_BYTES {
        let mut detail = String::from_str("Image is ");
        push_decimal(&mut detail, (decoded.len() / 1048576) as u64);
        push_str(&mut detail, "MB; the limit is ");
        push_decimal(&mut detail, 25);
        push_str(&mut detail, "MB");
        return Err(AppError::new(413, detail));
    }
    match sniff_image(decoded.as_slice()) {
        Some(suffix) => Ok((decoded, suffix)),
        None => Err(AppError::unsupported_media(String::from_str("That doesn't look like an image"))),
    }
}

/// `is_ascii_alphanumeric`.
pub open spec fn is_ascii_alnum(c: char) -> bool {
    ('0' <= c <= '9') || ('a' <= c <= 'z') || ('A' <= c <= 'Z')
}

/// Characters a pasted file's name keeps as they are.
pub open spec fn keeps(c: char) -> bool {
    is_ascii_alnum(c) || c == '.' || c == '_' || c == '-'
}

/// `s` with each run of other characters replaced by one '-', and whether
/// it ends inside such a run.
pub open spec fn clean_state(s: Seq<char>) -> (Seq<char>, bool)
    decreases s.len(),
{
    if s.len() == 0 {
        (Seq::empty(), false)
    } else {
        let (out, in_run) = clean_state(s.drop_last());
        if keeps(s.last()) {
            (out.push(s.last()), false)
        } else if !in_run {
            (out.push('-'), true)
        } else {
            (out, true)
        }
    }
}

pub open spec fn dash_or_dot(c: char) -> bool {
    c == '-' || c == '.'
}

pub open spec fn trim_dash_dot_start(s: Seq<char>) -> Seq<char>
    decreases s.len(),
{
    if s.len() > 0 && dash_or_dot(s[0]) {
        trim_dash_dot_start(s.drop_first())
    } else {
        s
    }
}

pub open spec fn trim_dash_dot_end(s: Seq<char>) -> Seq<char>
    decreases s.len(),
{
    if s.len() > 0 && dash_or_dot(s.last()) {
        trim_dash_dot_end(s.drop_last())
    } else {
        s
    }
}

/// The file stem of a path, "" when it names no file.
pub open spec fn stem_of_path(p: Seq<char>) -> Seq<char> {
    match file_name_spec(p) {
        Some(n) => stem_spec(n),
        None => Seq::empty(),
    }
}

/// The names every clipboard bitmap gets; a time stamp tells two pastes
/// apart where "image-7" would not. Compared without regard to case.
pub open spec fn generic_name(c: Seq<char>) -> bool {
    eq_ignore_ascii_case(c, "image"@) || eq_ignore_ascii_case(c, "screenshot"@)
        || eq_ignore_ascii_case(c, "untitled"@)
}

/// The stem a pasted file's name is cleaned to.
pub open spec fn cleaned_stem(name: Seq<char>) -> Seq<char> {
    trim_dash_dot_end(trim_dash_dot_start(clean_state(stem_of_path(name)).0))
}

/// The stem a pasted image is saved under: the source file's cleaned stem
/// (at most 60 characters) when there is a usable one, else "pasted-" and
/// the time stamp.
pub open spec fn paste_stem_spec(name: Option<Seq<char>>, stamp: Seq<char>) -> Seq<char> {
    match name {
        Some(n) => {
            let c = cleaned_stem(n);
            if n.len() > 0 && c.len() > 0 && !generic_name(c) {
                c.take(if c.len() < 60 {
                    c.len() as int
                } else {
                    60
                })
            } else {
                "pasted-"@ + stamp
            }
        },
        None => "pasted-"@ + stamp,
    }
}

proof fn lemma_trim_dd_start(s: Seq<char>, k: int)
    requires
        0 <= k < s.len(),
        dash_or_dot(s[k]),
    ensures
        trim_dash_dot_start(s.skip(k)) == trim_dash_dot_start(s.skip(k + 1)),
{
    assert(s.skip(k).drop_first() =~= s.skip(k + 1));
}

proof fn lemma_trim_dd_end(s: Seq<char>, k: int)
    requires
        0 < k <= s.len(),
        dash_or_dot(s[k - 1]),
    ensures
        trim_dash_dot_end(s.take(k)) == trim_dash_dot_end(s.take(k - 1)),
{
    assert(s.take(k).drop_last() =~= s.take(k - 1));
}

fn keeps_char(c: char) -> (b: bool)
    ensures
        b == keeps(c),
{
    ('0' <= c && c <= '9') || ('a' <= c && c <= 'z') || ('A' <= c && c <= 'Z') || c == '.' || c
        == '_' || c == '-'
}

/// A safe file stem for a pasted image: the source name's stem when it is
/// usable, else "pasted-" followed by `stamp`.
pub fn paste_stem(name: Option<&str>, stamp: &str) -> (r: String)
    ensures
        r@ == paste_stem_spec(
            opt_view(name),
            stamp@,
        ),
{
    if let Some(n) = name {
        if to_chars(n).len() > 0 {
            let st = match file_name(n) {
                Some(f) => stem(f.as_str()),
                None => String::new(),
            };
            let sc = to_chars(st.as_str());
            let mut cleaned: Vec<char> = Vec::new();
            let mut in_run = false;
            let mut i: usize = 0;
            while i < sc.len()
                invariant
                    i <= sc.len(),
                    (cleaned@, in_run) == clean_state(sc@.take(i as int)),
                decreases sc.len() - i,
            {
                assert(sc@.take(i + 1 as int).drop_last() =~= sc@.take(i as int));
                let c = sc[i];
                if keeps_char(c) {
                    cleaned.push(c);
                    in_run = false;
                } else if !in_run {
                    cleaned.push('-');
                    in_run = true;
                }
                i += 1;
            }
            assert(sc@.take(sc.len() as int) =~= sc@);
            let mut a: usize = 0;
            assert(cleaned@.skip(0) =~= cleaned@);
            while a < cleaned.len() && (cleaned[a] == '-' || cleaned[a] == '.')
                invariant
                    a <= cleaned.len(),
                    trim_dash_dot_start(cleaned@.skip(a as int)) == trim_dash_dot_start(cleaned@),
                decreases cleaned.len() - a,
            {
                proof {
                    lemma_trim_dd_start(cleaned@, a as int);
                }
                a += 1;
            }
            let ghost front = cleaned@.skip(a as int);
            assert(a == cleaned.len() || front[0] == cleaned@[a as int]);
            assert(trim_dash_dot_start(cleaned@) == front);
            let mut b: usize = cleaned.len();
            assert(front.take(front.len() as int) =~= front);
            while b > a && (cleaned[b - 1] == '-' || cleaned[b - 1] == '.')
                invariant
                    a <= b <= cleaned.len(),
                    front == cleaned@.skip(a as int),
                    trim_dash_dot_end(front.take(b - a)) == trim_dash_dot_end(front),
                decreases b,
            {
                proof {
                    assert(front[b - a - 1] == cleaned@[b - 1]);
                    lemma_trim_dd_end(front, b - a);
                }
                b -= 1;
            }
            assert(front.take(b - a) =~= cleaned@.subrange(a as int, b as int));
            assert(b == a || front.take(b - a).last() == cleaned@[b - 1]);
            let c = crate::text::chars_between(&cleaned, a, b);
            proof {
                reveal_strlit("image");
                reveal_strlit("screenshot");
                reveal_strlit("untitled");
            }
            let generic = chars_eq_ignore_ascii_case(&c, &to_chars("image"))
                || chars_eq_ignore_ascii_case(&c, &to_chars("screenshot"))
                || chars_eq_ignore_ascii_case(&c, &to_chars("untitled"));
            if c.len() > 0 && !generic {
                let keep: usize = if c.len() < 60 {
                    c.len()
                } else {
                    60
                };
                let out = string_of(&c, 0, keep);
                assert(c@.subrange(0, keep as int) =~= c@.take(keep as int));
                return out;
            }
        }
    }
    let mut out = String::from_str("pasted-");
    push_str(&mut out, stamp);
    out
}

/// A time stamp as "%Y%m%d-%H%M%S" writes one: at least fifteen characters
/// (a year of four digits or more, then fixed two-digit fields), each a
/// digit, the sign chrono puts before a year outside 0..=9999, or '-'.
pub open spec fn is_compact_stamp(s: Seq<char>) -> bool {
    &&& s.len() >= 15
    &&& forall|i: int| 0 <= i < s.len() ==> ('0' <= #[trigger] s[i] <= '9') || s[i] == '+' || s[i] == '-'
}

/// A time stamp as "%Y-%m-%dT%H:%M:%S" writes one: at least nineteen
/// characters, each a digit, a sign, or one of the separators '-', ':', 'T'.
pub open spec fn is_iso_stamp(s: Seq<char>) -> bool {
    &&& s.len() >= 19
    &&& forall|i: int|
        0 <= i < s.len() ==> ('0' <= #[trigger] s[i] <= '9') || s[i] == '+' || s[i] == '-' || s[i]
            == ':' || s[i] == 'T'
}

/// The local time formatted by `chrono` (`Local::now().format(fmt)`), for
/// the two formats used here. Which time it shows depends on the clock and
/// the machine's time zone and is not stated; its shape is: chrono writes
/// the year zero-padded to four digits (with a sign outside 0..=9999) and
/// every other field as two digits.
#[verifier::external_body]
pub(crate) fn local_time(fmt: &str) -> (r: String)
    requires
        fmt@ == "%Y%m%d-%H%M%S"@ || fmt@ == "%Y-%m-%dT%H:%M:%S"@,
    ensures
        fmt@ == "%Y%m%d-%H%M%S"@ ==> is_compact_stamp(r@),
        fmt@ == "%Y-%m-%dT%H:%M:%S"@ ==> is_iso_stamp(r@),
{
    chrono::Local::now().format(fmt).to_string()
}

/// The stem a pasted image is saved under, stamped with the current time
/// when the source name is not usable.
pub fn paste_file_stem(name: Option<&str>) -> (r: String)
    ensures
        exists|stamp: Seq<char>|
            is_compact_stamp(stamp) && r@ == #[trigger] paste_stem_spec(opt_view(name), stamp),
{
    let stamp = local_time("%Y%m%d-%H%M%S");
    let r = paste_stem(name, stamp.as_str());
    assert(r@ == paste_stem_spec(
        opt_view(name),
        stamp@,
    ));
    r
}

/// The folder beside a note that holds its pasted images: the note's stem
/// and "_images", so a note and its pictures move as one unit.
pub fn images_folder_name(note_path: &str) -> (r: String)
    ensures
        r@ == stem_of_path(note_path@) + "_images"@,
{
    let mut out = match file_name(note_path) {
        Some(n) => stem(n.as_str()),
        None => String::new(),
    };
    push_str(&mut out, "_images");
    out
}

/// The file name to try for a pasted image: `stem` and `suffix`, or with
/// "-n" between them once that is taken.
pub fn candidate_name(stem_text: &str, suffix: &str, counter: Option<u64>) -> (r: String)
    ensures
        r@ == match counter {
            None => stem_text@ + suffix@,
            Some(n) => stem_text@ + seq!['-'] + decimal(n as nat) + suffix@,
        },
{
    let mut out = String::from_str(stem_text);
    if let Some(n) = counter {
        push_char(&mut out, '-');
        push_decimal(&mut out, n);
    }
    push_str(&mut out, suffix);
    out
}

/// The link a note writes to a pasted image, relative to the note.
pub fn paste_markdown(folder_name: &str, file_name_text: &str) -> (r: String)
    ensures
        r@ == folder_name@ + seq!['/'] + file_name_text@,
{
    let mut out = String::from_str(folder_name);
    push_char(&mut out, '/');
    push_str(&mut out, file_name_text);
    out
}

/// A file name that stays in its folder: no separator of either kind.
pub open spec fn no_separator(s: Seq<char>) -> bool {
    forall|i: int| 0 <= i < s.len() ==> s[i] != '/' && s[i] != '\\'
}

proof fn lemma_clean_plain(s: Seq<char>)
    ensures
        forall|i: int|
            0 <= i < clean_state(s).0.len() ==> keeps(#[trigger] clean_state(s).0[i]) || clean_state(
                s,
            ).0[i] == '-',
    decreases s.len(),
{
    if s.len() > 0 {
        lemma_clean_plain(s.drop_last());
        let (out, in_run) = clean_state(s.drop_last());
        assert forall|i: int| 0 <= i < clean_state(s).0.len() implies keeps(
            #[trigger] clean_state(s).0[i],
        ) || clean_state(s).0[i] == '-' by {
            if i < out.len() {
                assert(clean_state(s).0[i] == out[i]);
            }
        }
    }
}

proof fn lemma_trim_dd_plain(s: Seq<char>)
    requires
        no_separator(s),
    ensures
        no_separator(trim_dash_dot_start(s)),
        no_separator(trim_dash_dot_end(s)),
    decreases s.len(),
{
    if s.len() > 0 {
        assert(no_separator(s.drop_first())) by {
            assert forall|i: int| 0 <= i < s.drop_first().len() implies s.drop_first()[i] != '/'
                && s.drop_first()[i] != '\\' by {
                assert(s.drop_first()[i] == s[i + 1]);
            }
        }
        assert(no_separator(s.drop_last())) by {
            assert forall|i: int| 0 <= i < s.drop_last().len() implies s.drop_last()[i] != '/'
                && s.drop_last()[i] != '\\' by {
                assert(s.drop_last()[i] == s[i]);
            }
        }
        lemma_trim_dd_plain(s.drop_first());
        lemma_trim_dd_plain(s.drop_last());
    }
}

/// A pasted image's stem is a plain, non-empty file name: cleaning keeps
/// only letters, digits, '.', '_' and '-', so no name a client sends can
/// place the image outside its note's image folder.
pub proof fn paste_stem_is_plain(name: Option<Seq<char>>, stamp: Seq<char>)
    requires
        no_separator(stamp),
    ensures
        no_separator(paste_stem_spec(name, stamp)),
        paste_stem_spec(name, stamp).len() > 0,
{
    reveal_strlit("pasted-");
    let fallback = "pasted-"@ + stamp;
    assert(no_separator(fallback)) by {
        assert forall|i: int| 0 <= i < fallback.len() implies fallback[i] != '/' && fallback[i]
            != '\\' by {
            if i >= 7 {
                assert(fallback[i] == stamp[i - 7]);
            }
        }
    }
    if let Some(n) = name {
        let raw = clean_state(stem_of_path(n)).0;
        lemma_clean_plain(stem_of_path(n));
        assert(no_separator(raw)) by {
            assert forall|i: int| 0 <= i < raw.len() implies raw[i] != '/' && raw[i] != '\\' by {
                assert(keeps(raw[i]) || raw[i] == '-');
            }
        }
        lemma_trim_dd_plain(raw);
        lemma_trim_dd_plain(trim_dash_dot_start(raw));
        let c = cleaned_stem(n);
        if n.len() > 0 && c.len() > 0 && !generic_name(c) {
            let k = if c.len() < 60 {
                c.len() as int
            } else {
                60
            };
            assert forall|i: int| 0 <= i < c.take(k).len() implies c.take(k)[i] != '/' && c.take(
                k,
            )[i] != '\\' by {
                assert(c.take(k)[i] == c[i]);
            }
        }
    }
}

/// The image suffixes a paste can be sniffed as.
pub open spec fn sniffable_suffix(x: Seq<char>) -> bool {
    ||| x == ".png"@
    ||| x == ".jpg"@
    ||| x == ".gif"@
    ||| x == ".bmp"@
    ||| x == ".webp"@
    ||| x == ".avif"@
    ||| x == ".svg"@
}

/// Whatever bytes are pasted, what they are sniffed as is one of the seven
/// image suffixes, a dot and an extension that the asset endpoint serves,
/// so a sniffed paste can always be shown again.
pub proof fn sniffed_suffix_is_served(d: Seq<u8>)
    ensures
        sniff_spec(d) matches Some(x) ==> sniffable_suffix(x) && x.len() > 1 && x[0] == '.'
            && asset_suffix(x.drop_first()),
{
    reveal_strlit(".png");
    reveal_strlit(".jpg");
    reveal_strlit(".gif");
    reveal_strlit(".bmp");
    reveal_strlit(".webp");
    reveal_strlit(".avif");
    reveal_strlit(".svg");
    reveal_strlit("png");
    reveal_strlit("jpg");
    reveal_strlit("gif");
    reveal_strlit("bmp");
    reveal_strlit("webp");
    reveal_strlit("avif");
    reveal_strlit("svg");
    if let Some(x) = sniff_spec(d) {
        assert(x.drop_first() =~= "png"@ || x.drop_first() =~= "jpg"@ || x.drop_first() =~= "gif"@
            || x.drop_first() =~= "bmp"@ || x.drop_first() =~= "webp"@ || x.drop_first()
            =~= "avif"@ || x.drop_first() =~= "svg"@);
    }
}

/// The pictures the asset endpoint serves are exactly those whose extension,
/// lower-cased, is png, jpg, jpeg, gif, webp, avif, bmp, svg or ico.
pub proof fn served_extensions(e: Seq<char>)
    ensures
        asset_suffix(e) <==> (e == "png"@ || e == "jpg"@ || e == "jpeg"@ || e == "gif"@ || e
            == "webp"@ || e == "avif"@ || e == "bmp"@ || e == "svg"@ || e == "ico"@),
{
}

} // verus!
