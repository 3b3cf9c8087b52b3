//! Turning an image path written in a note into a URL the browser can fetch.
//!
//! A note saying `![](images/plan.png)` means "images/ next to this note", but
//! a browser resolves that against the page URL instead, so every relative
//! image 404s. Both the rendered preview and the editor's inline thumbnails
//! route through here to rewrite such paths onto `/api/asset/`.
use vstd::prelude::*;
use vstd::utf8::*;
use crate::text::{
    chars_before, chars_between, dir_of, first_index, lemma_first_index, find_char, has_char, is_whitespace, is_ws, join,
    prefix_before, push_char, push_chars, rfind_char, split_chars, split_on, string_from_utf8,
    string_of, to_chars, trim, trim_chars, vviews, lemma_encode_utf8_add, lemma_split_join,
    lemma_split_pieces, trim_end, trim_start,
};

verus! {

// ── Specifications ──

pub open spec fn is_ascii_alpha(c: char) -> bool {
    ('a' <= c <= 'z') || ('A' <= c <= 'Z')
}

pub open spec fn is_ascii_digit(c: char) -> bool {
    '0' <= c <= '9'
}

/// A character allowed after the first letter of a URL scheme.
pub open spec fn is_scheme_char(c: char) -> bool {
    is_ascii_alpha(c) || is_ascii_digit(c) || c == '+' || c == '-' || c == '.'
}

/// `s` starts like a Windows path: a drive letter, ':', then a slash or a
/// backslash.
pub open spec fn is_drive_path(s: Seq<char>) -> bool {
    s.len() >= 3 && is_ascii_alpha(s[0]) && s[1] == ':' && (s[2] == '/' || s[2] == '\\')
}

/// `src` has a scheme (a letter, then scheme characters, then ':') or is
/// protocol-relative (`//host/…`). A Windows path never reads as a scheme.
pub open spec fn is_external_spec(s: Seq<char>) -> bool {
    ||| (s.len() >= 2 && s[0] == '/' && s[1] == '/')
    ||| (!is_drive_path(s) && s.len() >= 1 && is_ascii_alpha(s[0]) && exists|k: int|
        1 <= k < s.len() && s[k] == ':' && forall|j: int| 1 <= j < k ==> is_scheme_char(s[j]))
}

/// Value of one hexadecimal digit.
pub open spec fn hex_val(b: u8) -> Option<u8> {
    if 48 <= b <= 57 {
        Some((b - 48) as u8)
    } else if 97 <= b <= 102 {
        Some((b - 87) as u8)
    } else if 65 <= b <= 70 {
        Some((b - 55) as u8)
    } else {
        None
    }
}

/// The byte that the two bytes after a '%' encode, when both are hex digits.
pub open spec fn hex_pair(a: u8, b: u8) -> Option<u8> {
    match (hex_val(a), hex_val(b)) {
        (Some(x), Some(y)) => Some((16 * x + y) as u8),
        _ => None,
    }
}

/// Prepends `prefix` to a decoded tail, keeping a failure a failure.
pub open spec fn prepend(prefix: Seq<u8>, tail: Option<Seq<u8>>) -> Option<Seq<u8>> {
    match tail {
        Some(t) => Some(prefix + t),
        None => None,
    }
}

/// Percent-decoding of bytes; None when an escape with two bytes after it is
/// not hexadecimal.
pub open spec fn pct_decode(b: Seq<u8>) -> Option<Seq<u8>>
    decreases b.len(),
{
    if b.len() == 0 {
        Some(Seq::empty())
    } else if b[0] == 37 && b.len() > 2 {
        match hex_pair(b[1], b[2]) {
            Some(v) => prepend(seq![v], pct_decode(b.skip(3))),
            None => None,
        }
    } else {
        prepend(seq![b[0]], pct_decode(b.skip(1)))
    }
}

/// `s` with its percent-escapes decoded, or unchanged when the escapes or the
/// bytes they produce are not valid.
pub open spec fn percent_decoded(s: Seq<char>) -> Seq<char> {
    match pct_decode(encode_utf8(s)) {
        Some(out) => if valid_utf8(out) {
            decode_utf8(out)
        } else {
            s
        },
        None => s,
    }
}

/// The segment ".." as characters.
pub open spec fn dot_dot() -> Seq<char> {
    seq!['.', '.']
}

/// One path segment applied to the folders walked so far.
pub open spec fn step(parts: Seq<Seq<char>>, seg: Seq<char>) -> Option<Seq<Seq<char>>> {
    if seg.len() == 0 || seg == seq!['.'] {
        Some(parts)
    } else if seg == dot_dot() {
        if parts.len() == 0 {
            None
        } else {
            Some(parts.drop_last())
        }
    } else {
        Some(parts.push(seg))
    }
}

/// Walk `segs` from `parts`; None when a ".." climbs above the start.
pub open spec fn walk(parts: Seq<Seq<char>>, segs: Seq<Seq<char>>) -> Option<Seq<Seq<char>>>
    decreases segs.len(),
{
    if segs.len() == 0 {
        Some(parts)
    } else {
        match step(parts, segs[0]) {
            Some(next) => walk(next, segs.drop_first()),
            None => None,
        }
    }
}

/// The view of an optional string.
pub open spec fn opt_view(o: Option<&str>) -> Option<Seq<char>> {
    match o {
        Some(s) => Some(s@),
        None => None,
    }
}

/// The image path as written, before decoding: trimmed, without any
/// `#fragment` or `?query`.
pub open spec fn bare_src(src: Seq<char>) -> Seq<char> {
    prefix_before(prefix_before(trim(src), '#'), '?')
}

/// The folders of the note's own location that a relative path starts from.
pub open spec fn base_parts(raw: Seq<char>, note: Option<Seq<char>>) -> Seq<Seq<char>> {
    let from_root = raw.len() > 0 && raw[0] == '/';
    match note {
        Some(n) => if !from_root && has_char(n, '/') {
            split_on(dir_of(n), '/')
        } else {
            Seq::empty()
        },
        None => Seq::empty(),
    }
}

/// Vault-relative path of image `src` written in the note at `note`.
pub open spec fn resolve_spec(src: Seq<char>, note: Option<Seq<char>>) -> Option<Seq<char>> {
    let raw = percent_decoded(bare_src(src));
    match walk(base_parts(raw, note), split_on(raw, '/')) {
        Some(parts) => if parts.len() > 0 {
            Some(join(parts, '/'))
        } else {
            None
        },
        None => None,
    }
}

/// A byte that needs no escaping in a URL path segment.
pub open spec fn is_unreserved(b: u8) -> bool {
    (65 <= b <= 90) || (97 <= b <= 122) || (48 <= b <= 57) || b == 45 || b == 95 || b == 46
        || b == 126
}

/// An upper-case hexadecimal digit.
pub open spec fn hex_digit(v: u8) -> char {
    if v < 10 {
        (v + 48) as char
    } else {
        (v + 55) as char
    }
}

/// One byte, percent-encoded when it needs to be.
pub open spec fn encode_byte(b: u8) -> Seq<char> {
    if is_unreserved(b) {
        seq![b as char]
    } else {
        seq!['%', hex_digit(b / 16), hex_digit(b % 16)]
    }
}

/// Percent-encoding of a byte string.
pub open spec fn encode_bytes(b: Seq<u8>) -> Seq<char>
    decreases b.len(),
{
    if b.len() == 0 {
        Seq::empty()
    } else {
        encode_bytes(b.drop_last()) + encode_byte(b.last())
    }
}

/// One path segment, percent-encoded.
pub open spec fn encode_segment_spec(s: Seq<char>) -> Seq<char> {
    encode_bytes(encode_utf8(s))
}

/// Each piece percent-encoded.
pub open spec fn encode_all(parts: Seq<Seq<char>>) -> Seq<Seq<char>> {
    parts.map_values(|p: Seq<char>| encode_segment_spec(p))
}

/// The URL that serves `src` for a note at `note`.
pub open spec fn url_spec(src: Seq<char>, note: Option<Seq<char>>) -> Seq<char> {
    if src.len() == 0 || is_external_spec(src) {
        src
    } else {
        match resolve_spec(src, note) {
            Some(path) => "/api/asset/"@ + join(encode_all(split_on(path, '/')), '/'),
            None => src,
        }
    }
}

/// An image opener "![" starts at `j`.
pub open spec fn opener_at(s: Seq<char>, j: int) -> bool {
    s[j] == '!' && s[j + 1] == '['
}

/// Index `k` is where the first "![" in `s` starts.
pub open spec fn image_start_at(s: Seq<char>, k: int) -> bool {
    &&& 0 <= k && k + 1 < s.len()
    &&& opener_at(s, k)
    &&& forall|j: int| 0 <= j < k ==> !#[trigger] opener_at(s, j)
}

/// The part of `s` before its first whitespace character.
pub open spec fn prefix_before_ws(s: Seq<char>) -> Seq<char>
    decreases s.len(),
{
    if s.len() == 0 {
        s
    } else if is_ws(s[0]) {
        Seq::empty()
    } else {
        seq![s[0]] + prefix_before_ws(s.drop_first())
    }
}

/// The `src` of an image, from what stands between its parentheses.
pub open spec fn image_src(inside: Seq<char>) -> Seq<char> {
    if inside.len() > 0 && inside[0] == '<' {
        prefix_before(inside.drop_first(), '>')
    } else {
        prefix_before_ws(inside)
    }
}

/// The (alt, src) of the first `![alt](src "title")` on a line.
pub open spec fn parse_image_spec(line: Seq<char>) -> Option<(Seq<char>, Seq<char>)> {
    if !(exists|k: int| image_start_at(line, k)) {
        None
    } else {
        let k = choose|k: int| image_start_at(line, k);
        let rest = line.skip(k + 2);
        if !has_char(rest, ']') {
            None
        } else {
            let close = first_index(rest, ']');
            let alt = rest.take(close);
            let after0 = rest.skip(close + 1);
            if !(after0.len() > 0 && after0[0] == '(') {
                None
            } else {
                let after = after0.drop_first();
                if !has_char(after, ')') {
                    None
                } else {
                    let src = image_src(trim(after.take(first_index(after, ')'))));
                    if src.len() == 0 {
                        None
                    } else {
                        Some((alt, src))
                    }
                }
            }
        }
    }
}

// ── Lemmas ──

pub proof fn lemma_prefix_before_ws(s: Seq<char>, k: int)
    requires
        0 <= k <= s.len(),
        k < s.len() ==> is_ws(s[k]),
        forall|j: int| 0 <= j < k ==> !is_ws(#[trigger] s[j]),
    ensures
        prefix_before_ws(s) == s.take(k),
    decreases s.len(),
{
    if s.len() == 0 {
    } else if k == 0 {
    } else {
        lemma_prefix_before_ws(s.drop_first(), k - 1);
        assert(s.take(k) =~= seq![s[0]] + s.drop_first().take(k - 1));
    }
}

// ── Executable ──

/// Whether `src` is already a URL rather than a vault path.
///
/// Anything with a scheme, or a protocol-relative `//host/…`, is left alone —
/// rewriting those would break them.
pub fn is_external(src: &str) -> (b: bool)
    ensures
        b == is_external_spec(src@),
{
    let s = to_chars(src);
    if s.len() >= 2 && s[0] == '/' && s[1] == '/' {
        return true;
    }
    if s.len() == 0 {
        return false;
    }
    if s.len() >= 3 && (('a' <= s[0] && s[0] <= 'z') || ('A' <= s[0] && s[0] <= 'Z')) && s[1]
        == ':' && (s[2] == '/' || s[2] == '\\') {
        return false;
    }
    let first = s[0];
    if !(('a' <= first && first <= 'z') || ('A' <= first && first <= 'Z')) {
        return false;
    }
    let mut i: usize = 1;
    while i < s.len()
        invariant
            1 <= i <= s.len(),
            s@ == src@,
            is_ascii_alpha(s@[0]),
            !(s@.len() >= 2 && s@[0] == '/' && s@[1] == '/'),
            !is_drive_path(s@),
            forall|j: int| 1 <= j < i ==> is_scheme_char(#[trigger] s@[j]) && s@[j] != ':',
        decreases s.len() - i,
    {
        let ch = s[i];
        if ch == ':' {
            assert(forall|j: int| 1 <= j < i ==> is_scheme_char(s@[j]));
            return true;
        }
        if !(('a' <= ch && ch <= 'z') || ('A' <= ch && ch <= 'Z') || ('0' <= ch && ch <= '9')
            || ch == '+' || ch == '-' || ch == '.') {
            proof {
                assert forall|k: int|
                    1 <= k < s@.len() && s@[k] == ':' implies !(forall|j: int|
                    1 <= j < k ==> is_scheme_char(s@[j])) by {
                    assert(k > i);
                    assert(!is_scheme_char(s@[i as int]));
                }
            }
            return false;
        }
        i += 1;
    }
    false
}

fn hex_value(b: u8) -> (r: Option<u8>)
    ensures
        r == hex_val(b),
{
    if 48 <= b && b <= 57 {
        Some(b - 48)
    } else if 97 <= b && b <= 102 {
        Some(b - 87)
    } else if 65 <= b && b <= 70 {
        Some(b - 55)
    } else {
        None
    }
}

fn hex_pair_value(a: u8, b: u8) -> (r: Option<u8>)
    ensures
        r == hex_pair(a, b),
{
    match (hex_value(a), hex_value(b)) {
        (Some(x), Some(y)) => Some(16 * x + y),
        _ => None,
    }
}

/// Decode percent-escapes, returning the input unchanged if it isn't valid
/// encoding — a bare '%' in a filename is not an error here.
pub fn percent_decode(raw: &str) -> (out: String)
    ensures
        out@ == percent_decoded(raw@),
{
    let bytes = raw.as_bytes();
    let mut out: Vec<u8> = Vec::new();
    let mut index: usize = 0;
    assert(bytes@.skip(0) =~= bytes@);
    proof {
        if let Some(t) = pct_decode(bytes@) {
            assert(out@ + t =~= t);
        }
    }
    while index < bytes.len()
        invariant
            index <= bytes@.len(),
            bytes@ == encode_utf8(raw@),
            pct_decode(bytes@) == prepend(out@, pct_decode(bytes@.skip(index as int))),
        decreases bytes.len() - index,
    {
        let ghost rest = bytes@.skip(index as int);
        if bytes[index] == 37 && bytes.len() - index > 2 {
            match hex_pair_value(bytes[index + 1], bytes[index + 2]) {
                Some(byte) => {
                    assert(rest.skip(3) =~= bytes@.skip(index + 3));
                    proof {
                        if let Some(t) = pct_decode(rest.skip(3)) {
                            assert(out@.push(byte) + t =~= out@ + (seq![byte] + t));
                        }
                    }
                    out.push(byte);
                    index += 3;
                    continue ;
                },
                None => {
                    return raw.to_owned();
                },
            }
        }
        assert(rest.skip(1) =~= bytes@.skip(index + 1));
        proof {
            if let Some(t) = pct_decode(rest.skip(1)) {
                assert(out@.push(bytes@[index as int]) + t =~= out@ + (seq![bytes@[index as int]]
                    + t));
            }
        }
        out.push(bytes[index]);
        index += 1;
    }
    assert(out@ + Seq::<u8>::empty() =~= out@);
    match string_from_utf8(out) {
        Some(s) => s,
        None => raw.to_owned(),
    }
}

/// The pieces joined with `sep` between them.
pub fn join_chars(parts: &Vec<Vec<char>>, sep: char) -> (out: String)
    ensures
        out@ == join(vviews(parts@), sep),
{
    let mut out = String::new();
    let mut i: usize = 0;
    while i < parts.len()
        invariant
            i <= parts.len(),
            out@ == join(vviews(parts@).take(i as int), sep),
        decreases parts.len() - i,
    {
        let ghost before = vviews(parts@).take(i as int);
        if i > 0 {
            push_char(&mut out, sep);
        }
        let part = &parts[i];
        push_chars(&mut out, part, 0, part.len());
        assert(part@.subrange(0, part@.len() as int) =~= part@);
        i += 1;
        assert(vviews(parts@).take(i as int).drop_last() =~= before);
        if i == 1 {
            assert(before =~= Seq::<Seq<char>>::empty());
        }
    }
    assert(vviews(parts@).take(parts.len() as int) =~= vviews(parts@));
    out
}

/// Resolve `src` against the folder holding `note_path`, vault-relative.
///
/// A leading slash means "from the vault root". Returns None if the path climbs
/// out of the vault, in which case the caller leaves it untouched and the
/// server would refuse it anyway.
pub fn resolve(src: &str, note_path: Option<&str>) -> (r: Option<String>)
    ensures
        match resolve_spec(src@, opt_view(note_path)) {
            Some(p) => r is Some && r.unwrap()@ == p,
            None => r is None,
        },
{
    let chars = to_chars(src);
    let t = trim_chars(&chars);
    let t = chars_before(&t, '#');
    let t = chars_before(&t, '?');
    let bare = string_of(&t, 0, t.len());
    assert(t@.subrange(0, t@.len() as int) =~= t@);
    let decoded = percent_decode(bare.as_str());
    let raw = to_chars(decoded.as_str());
    assert(bare@ == bare_src(src@));
    assert(raw@ == percent_decoded(bare_src(src@)));
    let from_root = raw.len() > 0 && raw[0] == '/';

    let mut parts: Vec<Vec<char>> = Vec::new();
    if let Some(note) = note_path {
        if !from_root {
            let n = to_chars(note);
            if let Some(i) = rfind_char(&n, '/') {
                let dir = chars_between(&n, 0, i);
                assert(dir@ =~= dir_of(n@));
                parts = split_chars(&dir, '/');
            }
        }
    }
    let ghost base = vviews(parts@);
    assert(base =~= base_parts(raw@, opt_view(note_path)));

    let segs = split_chars(&raw, '/');
    let mut k: usize = 0;
    assert(vviews(segs@).skip(0) =~= vviews(segs@));
    while k < segs.len()
        invariant
            k <= segs.len(),
            vviews(segs@) == split_on(raw@, '/'),
            base == base_parts(raw@, opt_view(note_path)),
            raw@ == percent_decoded(bare_src(src@)),
            walk(base, vviews(segs@)) == walk(vviews(parts@), vviews(segs@).skip(k as int)),
        decreases segs.len() - k,
    {
        let ghost rest = vviews(segs@).skip(k as int);
        assert(rest.drop_first() =~= vviews(segs@).skip(k + 1));
        assert(rest[0] == segs@[k as int]@);
        let seg = &segs[k];
        if seg.len() == 0 || (seg.len() == 1 && seg[0] == '.') {
            assert(seg.len() == 1 ==> seg@ =~= seq!['.']);
        } else if seg.len() == 2 && seg[0] == '.' && seg[1] == '.' {
            assert(seg@ =~= dot_dot());
            assert(seg@ != seq!['.']);
            if parts.len() == 0 {
                assert(rest[0] == dot_dot());
                assert(step(vviews(parts@), rest[0]) is None);
                assert(walk(vviews(parts@), rest) is None);
                assert(walk(base, vviews(segs@)) is None);
                assert(vviews(segs@) == split_on(raw@, '/'));
                assert(base == base_parts(raw@, opt_view(note_path)));
                assert(resolve_spec(src@, opt_view(note_path)) is None);
                return None;
            }
            let ghost old_parts = vviews(parts@);
            parts.pop();
            assert(vviews(parts@) =~= old_parts.drop_last());
        } else {
            assert(seg@ != seq!['.']) by {
                if seg.len() == 1 {
                    assert(seg@[0] != seq!['.'][0]);
                }
            }
            assert(seg@ != dot_dot()) by {
                if seg.len() == 2 {
                    assert(seg@[0] != dot_dot()[0] || seg@[1] != dot_dot()[1]);
                }
            }
            let ghost old_parts = vviews(parts@);
            let copy = chars_between(seg, 0, seg.len());
            assert(copy@ =~= seg@);
            parts.push(copy);
            assert(vviews(parts@) =~= old_parts.push(seg@));
        }
        k += 1;
    }
    assert(vviews(segs@).skip(segs.len() as int) =~= Seq::<Seq<char>>::empty());
    if parts.len() == 0 {
        None
    } else {
        Some(join_chars(&parts, '/'))
    }
}

fn hex_char(v: u8) -> (c: char)
    requires
        v < 16,
    ensures
        c == hex_digit(v),
{
    if v < 10 {
        (v + 48) as char
    } else {
        (v + 55) as char
    }
}

/// Percent-encode one path segment. Invalid encoding is left as written, which
/// is what a bare '%' in a filename needs.
pub fn encode_segment(segment: &str) -> (out: String)
    ensures
        out@ == encode_segment_spec(segment@),
{
    let bytes = segment.as_bytes();
    let mut out = String::new();
    let mut i: usize = 0;
    while i < bytes.len()
        invariant
            i <= bytes@.len(),
            bytes@ == encode_utf8(segment@),
            out@ == encode_bytes(bytes@.take(i as int)),
        decreases bytes.len() - i,
    {
        let b = bytes[i];
        assert(bytes@.take(i + 1 as int).drop_last() =~= bytes@.take(i as int));
        if (65 <= b && b <= 90) || (97 <= b && b <= 122) || (48 <= b && b <= 57) || b == 45 || b
            == 95 || b == 46 || b == 126 {
            push_char(&mut out, b as char);
            assert(out@ =~= encode_bytes(bytes@.take(i + 1 as int)));
        } else {
            push_char(&mut out, '%');
            push_char(&mut out, hex_char(b / 16));
            push_char(&mut out, hex_char(b % 16));
            assert(out@ =~= encode_bytes(bytes@.take(i + 1 as int)));
        }
        i += 1;
    }
    assert(bytes@.take(bytes@.len() as int) =~= bytes@);
    out
}

/// The URL that serves `src` for a note at `note_path`.
pub fn url(src: &str, note_path: Option<&str>) -> (out: String)
    ensures
        out@ == url_spec(src@, opt_view(note_path)),
{
    if src.is_empty() || is_external(src) {
        return src.to_owned();
    }
    match resolve(src, note_path) {
        // Each segment is encoded separately so slashes stay slashes while
        // spaces and '#' in real filenames survive the trip.
        Some(path) => {
            let pieces = split_chars(&to_chars(path.as_str()), '/');
            let mut encoded: Vec<Vec<char>> = Vec::new();
            let mut i: usize = 0;
            while i < pieces.len()
                invariant
                    i <= pieces.len(),
                    vviews(encoded@) == encode_all(vviews(pieces@)).take(i as int),
                decreases pieces.len() - i,
            {
                let piece = string_of(&pieces[i], 0, pieces[i].len());
                assert(pieces@[i as int]@.subrange(0, pieces@[i as int]@.len() as int)
                    =~= pieces@[i as int]@);
                assert(piece@ == vviews(pieces@)[i as int]);
                let enc = encode_segment(piece.as_str());
                let ghost before = vviews(encoded@);
                assert(encode_all(vviews(pieces@))[i as int] == encode_segment_spec(
                    vviews(pieces@)[i as int],
                ));
                encoded.push(to_chars(enc.as_str()));
                assert(vviews(encoded@) =~= before.push(enc@));
                assert(encode_all(vviews(pieces@)).take(i + 1 as int) =~= encode_all(
                    vviews(pieces@),
                ).take(i as int).push(encode_all(vviews(pieces@))[i as int]));
                i += 1;
                assert(vviews(encoded@) =~= encode_all(vviews(pieces@)).take(i as int));
            }
            assert(encode_all(vviews(pieces@)).take(pieces.len() as int) =~= encode_all(
                vviews(pieces@),
            ));
            let mut out = "/api/asset/".to_owned();
            let joined = join_chars(&encoded, '/');
            out.append(joined.as_str());
            out
        },
        None => src.to_owned(),
    }
}

/// One markdown image: `![alt](src "title")`.
#[derive(Debug, Clone, PartialEq, Eq)]
pub struct InlineImage {
    pub alt: String,
    pub src: String,
}

/// The first markdown image on a line.
///
/// Bare-URL images (`<img>` tags, reference links) are out of scope: this feeds
/// the editor's inline thumbnails, where the point is to preview what the
/// writer just typed.
pub fn parse_image(line: &str) -> (r: Option<InlineImage>)
    ensures
        match parse_image_spec(line@) {
            Some((alt, src)) => r is Some && r.unwrap().alt@ == alt && r.unwrap().src@ == src,
            None => r is None,
        },
{
    let s = to_chars(line);
    // Where "![" first appears.
    let mut k: usize = 0;
    while s.len() - k > 1 && !(s[k] == '!' && s[k + 1] == '[')
        invariant
            k <= s.len(),
            forall|j: int| 0 <= j < k ==> !#[trigger] opener_at(s@, j),
        decreases s.len() - k,
    {
        k += 1;
    }
    if s.len() - k <= 1 {
        assert(!exists|k: int| image_start_at(s@, k)) by {
            assert forall|j: int| !image_start_at(s@, j) by {
                if image_start_at(s@, j) && j >= k {
                    assert(j + 1 < s@.len());
                }
            }
        }
        return None;
    }
    assert(opener_at(s@, k as int));
    assert(image_start_at(s@, k as int));
    assert(forall|j: int| image_start_at(s@, j) ==> j == k) by {
        assert forall|j: int| image_start_at(s@, j) implies j == k by {
            if j < k {
            }
            if k < j {
                assert(!opener_at(s@, k as int));
            }
        }
    }
    let rest = chars_between(&s, k + 2, s.len());
    assert(rest@ =~= s@.skip(k + 2));
    let close = match find_char(&rest, ']', 0) {
        Some(c) => c,
        None => {
            return None;
        },
    };
    proof {
        lemma_first_index(rest@, ']', close as int);
    }
    let alt = string_of(&rest, 0, close);
    if !(close + 1 < rest.len() && rest[close + 1] == '(') {
        return None;
    }
    let after = chars_between(&rest, close + 2, rest.len());
    assert(after@ =~= rest@.skip(close + 1).drop_first());
    let end = match find_char(&after, ')', 0) {
        Some(e) => e,
        None => {
            return None;
        },
    };
    proof {
        lemma_first_index(after@, ')', end as int);
    }
    let inner = chars_between(&after, 0, end);
    let inside = trim_chars(&inner);
    // <angle-bracketed src> may contain spaces; otherwise the src runs to the
    // first whitespace and anything after it is the title.
    let src = if inside.len() > 0 && inside[0] == '<' {
        let tail = chars_between(&inside, 1, inside.len());
        assert(tail@ =~= inside@.drop_first());
        chars_before(&tail, '>')
    } else {
        let mut e: usize = 0;
        while e < inside.len() && !is_whitespace(inside[e])
            invariant
                e <= inside.len(),
                forall|j: int| 0 <= j < e ==> !is_ws(#[trigger] inside@[j]),
            decreases inside.len() - e,
        {
            e += 1;
        }
        proof {
            lemma_prefix_before_ws(inside@, e as int);
        }
        chars_between(&inside, 0, e)
    };
    if src.len() == 0 {
        return None;
    }
    let src_text = string_of(&src, 0, src.len());
    assert(src@.subrange(0, src@.len() as int) =~= src@);
    Some(InlineImage { alt, src: src_text })
}

// ── Encoding and decoding undo each other ──

proof fn lemma_encode_bytes_front(b: Seq<u8>)
    requires
        b.len() > 0,
    ensures
        encode_bytes(b) == encode_byte(b[0]) + encode_bytes(b.drop_first()),
    decreases b.len(),
{
    if b.len() == 1 {
        assert(b.drop_last() =~= Seq::<u8>::empty());
        assert(b.drop_first() =~= Seq::<u8>::empty());
        assert(encode_byte(b[0]) + Seq::<char>::empty() =~= encode_byte(b[0]));
    } else {
        lemma_encode_bytes_front(b.drop_last());
        assert(b.drop_last().drop_first() =~= b.drop_first().drop_last());
        assert(b.drop_first().last() == b.last());
        assert(b.drop_last()[0] == b[0]);
        assert(encode_byte(b[0]) + encode_bytes(b.drop_last().drop_first()) + encode_byte(b.last())
            =~= encode_byte(b[0]) + (encode_bytes(b.drop_first().drop_last()) + encode_byte(
            b.drop_first().last(),
        )));
    }
}

pub proof fn lemma_ascii_char_bytes(c: char)
    requires
        (c as u32) < 128,
    ensures
        encode_utf8(seq![c]) == seq![(c as u32) as u8],
{
    assert(seq![c].drop_first() =~= Seq::<char>::empty());
    let u: u32 = c as u32;
    assert(u & 0x7F == u) by (bit_vector)
        requires
            u < 128,
    ;
    assert(encode_scalar(c as u32) =~= seq![(c as u32) as u8]);
    assert(encode_utf8(Seq::<char>::empty()) =~= Seq::<u8>::empty());
    assert(seq![c][0] == c);
    assert(encode_utf8(seq![c]) == encode_scalar(c as u32) + encode_utf8(seq![c].drop_first()));
    assert(encode_scalar(c as u32) + Seq::<u8>::empty() =~= seq![(c as u32) as u8]);
}

proof fn lemma_hex_digit(v: u8)
    requires
        v < 16,
    ensures
        (hex_digit(v) as u32) < 128,
        ((hex_digit(v) as u32) as u8) != 43,
        hex_val((hex_digit(v) as u32) as u8) == Some(v),
{
}

proof fn lemma_encode_byte_bytes(x: u8)
    ensures
        encode_utf8(encode_byte(x)) == if is_unreserved(x) {
            seq![x]
        } else {
            seq![37u8, (hex_digit(x / 16) as u32) as u8, (hex_digit(x % 16) as u32) as u8]
        },
{
    if is_unreserved(x) {
        lemma_ascii_char_bytes(x as char);
    } else {
        let a = hex_digit(x / 16);
        let b = hex_digit(x % 16);
        lemma_hex_digit(x / 16);
        lemma_hex_digit(x % 16);
        lemma_ascii_char_bytes('%');
        lemma_ascii_char_bytes(a);
        lemma_ascii_char_bytes(b);
        assert(seq!['%', a, b] =~= seq!['%'] + seq![a] + seq![b]);
        lemma_encode_utf8_add(seq!['%'] + seq![a], seq![b]);
        lemma_encode_utf8_add(seq!['%'], seq![a]);
        assert(seq![37u8] + seq![(a as u32) as u8] + seq![(b as u32) as u8] =~= seq![
            37u8,
            (a as u32) as u8,
            (b as u32) as u8,
        ]);
    }
}

proof fn lemma_decode_encoded(b: Seq<u8>)
    ensures
        pct_decode(encode_utf8(encode_bytes(b))) == Some(b),
    decreases b.len(),
{
    if b.len() == 0 {
        assert(encode_bytes(b) =~= Seq::<char>::empty());
        assert(encode_utf8(Seq::<char>::empty()) =~= Seq::<u8>::empty());
        assert(b =~= Seq::<u8>::empty());
    } else {
        let x = b[0];
        let rest = b.drop_first();
        lemma_encode_bytes_front(b);
        lemma_decode_encoded(rest);
        lemma_encode_utf8_add(encode_byte(x), encode_bytes(rest));
        lemma_encode_byte_bytes(x);
        let head = encode_utf8(encode_byte(x));
        let tail = encode_utf8(encode_bytes(rest));
        let all = head + tail;
        if is_unreserved(x) {
            assert(all[0] == x);
            assert(all.skip(1) =~= tail);
            assert(seq![x] + rest =~= b);
        } else {
            lemma_hex_digit(x / 16);
            lemma_hex_digit(x % 16);
            assert(all[0] == 37u8);
            assert(all[1] == (hex_digit(x / 16) as u32) as u8);
            assert(all[2] == (hex_digit(x % 16) as u32) as u8);
            assert(all.skip(3) =~= tail);
            assert(hex_pair(all[1], all[2]) == Some(x)) by {
                assert((16 * (x / 16) + x % 16) as u8 == x);
            }
            assert(seq![x] + rest =~= b);
        }
    }
}

/// Decoding an encoded segment gives the segment back: the escapes `url`
/// writes are exactly the ones `percent_decode` reads.
pub proof fn decode_undoes_encode(s: Seq<char>)
    ensures
        percent_decoded(encode_segment_spec(s)) == s,
{
    lemma_decode_encoded(encode_utf8(s));
    encode_utf8_valid_utf8(s);
    encode_utf8_decode_utf8(s);
}

/// A character a URL path segment may hold as it is.
pub open spec fn is_unreserved_char(c: char) -> bool {
    ('A' <= c <= 'Z') || ('a' <= c <= 'z') || ('0' <= c <= '9') || c == '-' || c == '_' || c == '.'
        || c == '~'
}

pub open spec fn is_upper_hex(c: char) -> bool {
    ('0' <= c <= '9') || ('A' <= c <= 'F')
}

/// Text made only of unreserved characters and escapes: every character is
/// unreserved or a '%', and every '%' is followed by two upper-case hex
/// digits.
pub open spec fn escaped_well(e: Seq<char>) -> bool {
    &&& forall|i: int| 0 <= i < e.len() ==> is_unreserved_char(#[trigger] e[i]) || e[i] == '%'
    &&& forall|i: int|
        0 <= i < e.len() && #[trigger] e[i] == '%' ==> i + 2 < e.len() && is_upper_hex(e[i + 1])
            && is_upper_hex(e[i + 2])
}

proof fn lemma_encode_bytes_escaped(b: Seq<u8>)
    ensures
        escaped_well(encode_bytes(b)),
    decreases b.len(),
{
    if b.len() > 0 {
        lemma_encode_bytes_escaped(b.drop_last());
        let e = encode_bytes(b.drop_last());
        let x = b.last();
        let t = encode_byte(x);
        let all = e + t;
        assert(encode_bytes(b) == all);
        if is_unreserved(x) {
            assert(is_unreserved_char(t[0]));
        } else {
            assert(is_upper_hex(t[1]) && is_unreserved_char(t[1]));
            assert(is_upper_hex(t[2]) && is_unreserved_char(t[2]));
        }
        assert forall|i: int| 0 <= i < all.len() implies is_unreserved_char(#[trigger] all[i])
            || all[i] == '%' by {
            if i < e.len() {
                assert(all[i] == e[i]);
            } else {
                assert(all[i] == t[i - e.len()]);
            }
        }
        assert forall|i: int| 0 <= i < all.len() && #[trigger] all[i] == '%' implies i + 2
            < all.len() && is_upper_hex(all[i + 1]) && is_upper_hex(all[i + 2]) by {
            if i < e.len() {
                assert(all[i] == e[i]);
                assert(all[i + 1] == e[i + 1]);
                assert(all[i + 2] == e[i + 2]);
            } else {
                assert(all[i] == t[i - e.len()]);
                assert(i == e.len());
                assert(all[i + 1] == t[1]);
                assert(all[i + 2] == t[2]);
            }
        }
    }
}

/// An encoded segment is safe to put in a URL path: it holds only
/// unreserved characters and escapes of the form '%' and two upper-case hex
/// digits (and decoding it gives the segment back: `decode_undoes_encode`).
pub proof fn encoded_segment_is_escaped(s: Seq<char>)
    ensures
        escaped_well(encode_segment_spec(s)),
{
    lemma_encode_bytes_escaped(encode_utf8(s));
}

// ── Resolving stays inside the vault ──

/// Every folder of `parts` is a plain name: no '/', and not "..".
pub open spec fn plain_parts(parts: Seq<Seq<char>>) -> bool {
    forall|i: int| 0 <= i < parts.len() ==> !has_char(#[trigger] parts[i], '/') && parts[i] != dot_dot()
}

proof fn lemma_walk_plain(parts: Seq<Seq<char>>, segs: Seq<Seq<char>>)
    requires
        plain_parts(parts),
        forall|i: int| 0 <= i < segs.len() ==> !has_char(#[trigger] segs[i], '/'),
    ensures
        walk(parts, segs) matches Some(out) ==> plain_parts(out),
    decreases segs.len(),
{
    if segs.len() > 0 {
        let rest = segs.drop_first();
        assert forall|i: int| 0 <= i < rest.len() implies !has_char(#[trigger] rest[i], '/') by {
            assert(rest[i] == segs[i + 1]);
        }
        match step(parts, segs[0]) {
            Some(next) => {
                assert(plain_parts(next)) by {
                    assert forall|i: int| 0 <= i < next.len() implies !has_char(#[trigger] next[i], '/')
                        && next[i] != dot_dot() by {
                        if i < parts.len() && !(segs[0].len() == 0 || segs[0] == seq!['.'] || segs[0]
                            == dot_dot()) {
                            assert(next[i] == parts[i]);
                        } else if i < parts.len() {
                            assert(next[i] == parts[i]);
                        }
                    }
                }
                lemma_walk_plain(next, rest);
            },
            None => {},
        }
    }
}

/// Resolving an image never climbs out of the vault: when the note's own
/// folders name no "..", no folder of the resolved path does, however many
/// ".." the image path holds (too many and there is no result at all).
pub proof fn resolve_stays_in_vault(src: Seq<char>, note: Option<Seq<char>>)
    requires
        note matches Some(n) ==> forall|i: int|
            0 <= i < split_on(dir_of(n), '/').len() ==> #[trigger] split_on(dir_of(n), '/')[i]
                != dot_dot(),
    ensures
        resolve_spec(src, note) matches Some(p) ==> forall|i: int|
            0 <= i < split_on(p, '/').len() ==> #[trigger] split_on(p, '/')[i] != dot_dot(),
{
    let raw = percent_decoded(bare_src(src));
    let base = base_parts(raw, note);
    let segs = split_on(raw, '/');
    lemma_split_pieces(raw, '/');
    if let Some(n) = note {
        lemma_split_pieces(dir_of(n), '/');
    }
    assert(plain_parts(base));
    lemma_walk_plain(base, segs);
    if let Some(out) = walk(base, segs) {
        if out.len() > 0 {
            lemma_split_join(out, '/');
        }
    }
}

/// Path segments as a normalised path has them: none empty, none "." or
/// "..".
pub open spec fn normal_segments(parts: Seq<Seq<char>>) -> bool {
    forall|i: int|
        0 <= i < parts.len() ==> (#[trigger] parts[i]).len() > 0 && parts[i] != seq!['.']
            && parts[i] != dot_dot()
}

proof fn lemma_walk_normal(parts: Seq<Seq<char>>, segs: Seq<Seq<char>>)
    requires
        normal_segments(parts),
    ensures
        walk(parts, segs) matches Some(out) ==> normal_segments(out),
    decreases segs.len(),
{
    if segs.len() > 0 {
        match step(parts, segs[0]) {
            Some(next) => {
                assert(normal_segments(next)) by {
                    assert forall|i: int| 0 <= i < next.len() implies (#[trigger] next[i]).len() > 0
                        && next[i] != seq!['.'] && next[i] != dot_dot() by {
                        if i < parts.len() {
                            assert(next[i] == parts[i]);
                        }
                    }
                }
                lemma_walk_normal(next, segs.drop_first());
            },
            None => {},
        }
    }
}

/// The folders of a note whose whole path is normal are normal.
proof fn lemma_note_folders_normal(n: Seq<char>)
    requires
        has_char(n, '/'),
        normal_segments(split_on(n, '/')),
    ensures
        normal_segments(split_on(dir_of(n), '/')),
{
    crate::wikilinks::lemma_last_index_props(n, '/');
    let k = crate::text::last_index_of(n, '/');
    if k < 0 {
        let j = choose|j: int| 0 <= j < n.len() && n[j] == '/';
        assert(false);
    }
    let d = dir_of(n);
    let l = crate::text::last_segment(n);
    assert(n =~= d.push('/') + l);
    assert(!has_char(l, '/')) by {
        if has_char(l, '/') {
            let j = choose|j: int| 0 <= j < l.len() && l[j] == '/';
            assert(n[k + 1 + j] == '/');
        }
    }
    assert(d.push('/').drop_last() =~= d);
    assert(split_on(d.push('/'), '/') == split_on(d, '/').push(Seq::empty()));
    crate::text::lemma_split_append_plain(d.push('/'), l, '/');
    let sd = split_on(d, '/');
    assert(split_on(n, '/') =~= sd.push(l)) by {
        assert(Seq::<char>::empty() + l =~= l);
    }
    assert forall|i: int| 0 <= i < sd.len() implies (#[trigger] sd[i]).len() > 0 && sd[i] != seq!['.']
        && sd[i] != dot_dot() by {
        assert(split_on(n, '/')[i] == sd[i]);
    }
}

/// A resolved image path is normal: it is not empty, does not start with a
/// slash, and every folder and the file name are non-empty and none is "."
/// or ".." — provided the note's own path is normal.
pub proof fn resolved_path_is_normal(src: Seq<char>, note: Option<Seq<char>>)
    requires
        note matches Some(n) ==> normal_segments(split_on(n, '/')),
    ensures
        resolve_spec(src, note) matches Some(p) ==> p.len() > 0 && p[0] != '/' && normal_segments(
            split_on(p, '/'),
        ),
{
    let raw = percent_decoded(bare_src(src));
    let base = base_parts(raw, note);
    let segs = split_on(raw, '/');
    lemma_split_pieces(raw, '/');
    if let Some(n) = note {
        lemma_split_pieces(dir_of(n), '/');
        if has_char(n, '/') {
            lemma_note_folders_normal(n);
        }
    }
    assert(plain_parts(base)) by {
        if base.len() > 0 {
            let n = note.unwrap();
            assert forall|i: int| 0 <= i < base.len() implies !has_char(#[trigger] base[i], '/')
                && base[i] != dot_dot() by {
                assert(base[i] == split_on(dir_of(n), '/')[i]);
            }
        }
    }
    lemma_walk_plain(base, segs);
    lemma_walk_normal(base, segs);
    if let Some(out) = walk(base, segs) {
        if out.len() > 0 {
            lemma_split_join(out, '/');
            let p = join(out, '/');
            if p.len() == 0 {
                assert(split_on(p, '/') == seq![Seq::<char>::empty()]);
                assert(out[0].len() > 0);
            } else {
                crate::source::lemma_join_update(out, '/', 0, 0, '/');
                assert(crate::source::join_offset(out, '/', 0) == 0);
                assert(p[0] == out[0][0]);
                assert(!has_char(out[0], '/'));
            }
        }
    }
}

// ── A leading slash ──

proof fn lemma_trim_end_slash(s: Seq<char>)
    ensures
        trim_end(seq!['/'] + s) == seq!['/'] + trim_end(s),
    decreases s.len(),
{
    let t = seq!['/'] + s;
    if s.len() == 0 {
        assert(t.last() == '/');
        assert(s =~= Seq::<char>::empty());
    } else {
        assert(t.last() == s.last());
        if is_ws(s.last()) {
            assert(t.drop_last() =~= seq!['/'] + s.drop_last());
            lemma_trim_end_slash(s.drop_last());
        }
    }
}

proof fn lemma_prefix_before_slash(a: Seq<char>, c: char)
    requires
        c != '/',
    ensures
        prefix_before(seq!['/'] + a, c) == seq!['/'] + prefix_before(a, c),
{
    let t = seq!['/'] + a;
    assert(t[0] == '/');
    assert(t.drop_first() =~= a);
}

proof fn lemma_bare_src_slash(s: Seq<char>)
    requires
        s.len() == 0 || !is_ws(s[0]),
    ensures
        bare_src(seq!['/'] + s) == seq!['/'] + bare_src(s),
{
    let t = seq!['/'] + s;
    assert(t[0] == '/');
    assert(trim_start(t) == t);
    assert(trim_start(s) == s);
    lemma_trim_end_slash(s);
    assert(trim(t) == seq!['/'] + trim(s));
    lemma_prefix_before_slash(trim(s), '#');
    lemma_prefix_before_slash(prefix_before(trim(s), '#'), '?');
}

proof fn lemma_slash_utf8(out: Seq<u8>)
    ensures
        valid_utf8(seq![47u8] + out) == valid_utf8(out),
        valid_utf8(out) ==> decode_utf8(seq![47u8] + out) == seq!['/'] + decode_utf8(out),
{
    let b = seq![47u8] + out;
    assert(b[0] == 47u8);
    assert(is_leading_byte_width_1(b[0]));
    assert(valid_leading_and_continuation_bytes_first_codepoint(b));
    assert(length_of_first_codepoint(b) == 1);
    assert((47u8 & 0x7F) == 47u8) by (bit_vector);
    assert(decode_first_codepoint(b) == 47u32);
    assert(valid_first_scalar(b));
    assert(pop_first_scalar(b) =~= out);
    if valid_utf8(out) {
        assert(decode_utf8(b) == seq![(47u32) as char] + decode_utf8(out));
        assert((47u32) as char == '/');
    }
}

proof fn lemma_decoded_slash(y: Seq<char>)
    ensures
        percent_decoded(seq!['/'] + y) == seq!['/'] + percent_decoded(y),
{
    lemma_encode_utf8_add(seq!['/'], y);
    lemma_ascii_char_bytes('/');
    let bb = encode_utf8(y);
    let all = seq![47u8] + bb;
    assert(encode_utf8(seq!['/'] + y) == all);
    assert(all[0] == 47u8);
    assert(all.skip(1) =~= bb);
    assert(pct_decode(all) == prepend(seq![47u8], pct_decode(bb)));
    if let Some(out) = pct_decode(bb) {
        lemma_slash_utf8(out);
    }
}

proof fn lemma_split_slash(raw: Seq<char>)
    ensures
        split_on(seq!['/'] + raw, '/') == seq![Seq::<char>::empty()] + split_on(raw, '/'),
    decreases raw.len(),
{
    let t = seq!['/'] + raw;
    if raw.len() == 0 {
        assert(t.drop_last() =~= Seq::<char>::empty());
        assert(t.last() == '/');
        assert(split_on(t.drop_last(), '/') == seq![Seq::<char>::empty()]);
        assert(split_on(raw, '/') == seq![Seq::<char>::empty()]);
        assert(split_on(t, '/') =~= seq![Seq::<char>::empty()] + split_on(raw, '/'));
    } else {
        assert(t.drop_last() =~= seq!['/'] + raw.drop_last());
        assert(t.last() == raw.last());
        lemma_split_slash(raw.drop_last());
        lemma_split_pieces(raw.drop_last(), '/');
        let p = split_on(raw.drop_last(), '/');
        if raw.last() == '/' {
            assert((seq![Seq::<char>::empty()] + p).push(Seq::empty()) =~= seq![Seq::<char>::empty()]
                + p.push(Seq::empty()));
        } else {
            let q = seq![Seq::<char>::empty()] + p;
            assert(q.update(q.len() - 1, q.last().push(raw.last())) =~= seq![Seq::<char>::empty()]
                + p.update(p.len() - 1, p.last().push(raw.last())));
        }
    }
}

/// A leading slash means "from the vault root": an image path written with
/// one resolves as the rest of it would for no note at all, wherever the
/// note that holds it is.
pub proof fn leading_slash_resolves_from_root(s: Seq<char>, note: Option<Seq<char>>)
    requires
        s.len() == 0 || !is_ws(s[0]),
    ensures
        resolve_spec(seq!['/'] + s, note) == resolve_spec(s, None),
{
    lemma_bare_src_slash(s);
    let raw = percent_decoded(bare_src(s));
    lemma_decoded_slash(bare_src(s));
    let raw2 = seq!['/'] + raw;
    assert(raw2[0] == '/');
    assert(base_parts(raw2, note) =~= Seq::<Seq<char>>::empty());
    lemma_split_slash(raw);
    let segs = split_on(raw, '/');
    let segs2 = seq![Seq::<char>::empty()] + segs;
    assert(segs2[0] =~= Seq::<char>::empty());
    assert(segs2.drop_first() =~= segs);
    assert(walk(Seq::empty(), segs2) == walk(Seq::empty(), segs));
}

} // verus!
