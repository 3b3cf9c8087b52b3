//! Which paths of the web root the browser may reach.
//!
//! The project directory also holds app.py, the config file and — by default —
//! the vault itself, none of which are the browser's business. Serving a whole
//! directory that happens to contain them is what makes "/js/../app.py" a
//! question worth answering, so each lookup is confined to one of the served
//! directories, or to one of the two pages at the root.
use vstd::prelude::*;
use vstd::utf8::*;
use vstd::string::StringSliceAdditionalSpecFns;
use crate::notes::trim_char_start;
use crate::text::{
    byte_slice, chars_eq, lemma_ascii_boundaries, lemma_encode_utf8_add, push_signed, push_str,
    signed_decimal, to_chars,
};

verus! {

broadcast use encode_utf8_valid_utf8, encode_utf8_decode_utf8;

/// The only files at the web root itself that are reachable: the JS app's
/// page and the Rust UI's page.
pub open spec fn served_file(p: Seq<char>) -> bool {
    p == "index.html"@ || p == "next.html"@
}

/// The only directories reachable from the browser.
pub open spec fn served_dir(p: Seq<char>) -> bool {
    p == "css"@ || p == "js"@ || p == "vendor"@ || p == "pkg"@
}

/// Index of the first `/` byte at or after `from`.
pub open spec fn next_slash(t: Seq<u8>, from: int) -> Option<int>
    decreases t.len() - from,
{
    if from < 0 || from >= t.len() {
        None
    } else if t[from] == 47 {
        Some(from)
    } else {
        next_slash(t, from + 1)
    }
}

/// (served directory, path within it) for a web-root path, or None when it
/// names neither a served file nor a served directory.
pub open spec fn split_served_spec(path: &str) -> Option<(Seq<char>, Seq<char>)> {
    let b = path.spec_bytes();
    match next_slash(b, 0) {
        Some(k) => {
            let prefix = decode_utf8(b.take(k));
            if served_dir(prefix) {
                Some((prefix, decode_utf8(b.skip(k + 1))))
            } else {
                None
            }
        },
        None => if served_file(path@) {
            Some((Seq::empty(), path@))
        } else {
            None
        },
    }
}

proof fn lemma_next_slash(t: Seq<u8>, from: int)
    requires
        0 <= from,
    ensures
        next_slash(t, from) matches Some(k) ==> from <= k < t.len() && t[k] == 47,
    decreases t.len() - from,
{
    if from < t.len() && t[from] != 47 {
        lemma_next_slash(t, from + 1);
    }
}

fn is_one_of(s: &str, a: &str, b: &str) -> (r: bool)
    ensures
        r == (s@ == a@ || s@ == b@),
{
    let c = to_chars(s);
    chars_eq(&c, &to_chars(a)) || chars_eq(&c, &to_chars(b))
}

/// Split a web-root path into its served directory and the path within it,
/// rejecting anything that names neither a served file nor a served directory.
///
/// A path climbing out of its directory ("js/../app.py") is accepted here:
/// confining it is the path resolver's job.
pub fn split_served(path: &str) -> (r: Option<(&str, &str)>)
    ensures
        match split_served_spec(path) {
            Some((dir, rest)) => r is Some && r.unwrap().0@ == dir && r.unwrap().1@ == rest,
            None => r is None,
        },
{
    let bytes = path.as_bytes();
    let mut k: usize = 0;
    while k < bytes.len() && bytes[k] != 47
        invariant
            k <= bytes.len(),
            next_slash(bytes@, 0) == next_slash(bytes@, k as int),
        decreases bytes.len() - k,
    {
        k += 1;
    }
    if k == bytes.len() {
        if is_one_of(path, "index.html", "next.html") {
            let empty = "";
            proof {
                reveal_strlit("");
            }
            return Some((empty, path));
        }
        return None;
    }
    proof {
        lemma_ascii_boundaries(bytes@, k as int);
        is_char_boundary_start_end_of_seq(bytes@);
    }
    let prefix = byte_slice(path, 0, k);
    let rest = byte_slice(path, k + 1, bytes.len());
    assert(bytes@.take(k as int) =~= bytes@.subrange(0, k as int));
    assert(bytes@.skip(k + 1) =~= bytes@.subrange(k + 1, bytes@.len() as int));
    if is_one_of(prefix, "css", "js") || is_one_of(prefix, "vendor", "pkg") {
        Some((prefix, rest))
    } else {
        None
    }
}

/// A path the web root serves is exactly its directory, a '/', and the path
/// within it (nothing dropped, nothing added), or one of the two pages.
pub proof fn split_served_recombines(path: &str)
    ensures
        split_served_spec(path) matches Some((dir, rest)) ==> if dir.len() == 0 {
            served_file(path@) && rest == path@
        } else {
            served_dir(dir) && encode_utf8(dir + seq!['/'] + rest) == path.spec_bytes()
        },
{
    let b = path.spec_bytes();
    lemma_next_slash(b, 0);
    if let Some(k) = next_slash(b, 0) {
        let prefix = decode_utf8(b.take(k));
        if served_dir(prefix) {
            reveal_strlit("css");
            reveal_strlit("js");
            reveal_strlit("vendor");
            reveal_strlit("pkg");
            lemma_ascii_boundaries(b, k);
            valid_utf8_split(b, k);
            valid_utf8_split(b, k + 1);
            let rest = decode_utf8(b.skip(k + 1));
            decode_utf8_encode_utf8(b.take(k));
            decode_utf8_encode_utf8(b.skip(k + 1));
            lemma_encode_utf8_add(prefix + seq!['/'], rest);
            lemma_encode_utf8_add(prefix, seq!['/']);
            crate::assets::lemma_ascii_char_bytes('/');
            assert(encode_utf8(seq!['/']) =~= seq![47u8]);
            assert(b.take(k) + seq![47u8] + b.skip(k + 1) =~= b);
        }
    }
}

// ── Cache-busting the page ──

/// What the `regex` crate finds in `haystack` with `pattern`: for each
/// successive, non-overlapping match, the byte range of capture group
/// `group`, or None when the group takes no part in that match. None when
/// the pattern does not compile.
pub uninterp spec fn capture_spans(pattern: Seq<char>, group: int, haystack: Seq<u8>) -> Option<
    Seq<Option<(int, int)>>,
>;

/// Ranges that lie in order inside `bytes`, each between character
/// boundaries, none overlapping the next.
pub open spec fn ordered_spans(bytes: Seq<u8>, spans: Seq<(int, int)>) -> bool {
    &&& forall|i: int|
        0 <= i < spans.len() ==> 0 <= (#[trigger] spans[i]).0 <= spans[i].1 <= bytes.len()
            && is_char_boundary(bytes, spans[i].0) && is_char_boundary(bytes, spans[i].1)
    &&& forall|i: int, j: int| 0 <= i < j < spans.len() ==> (#[trigger] spans[i]).1 <= (#[trigger] spans[j]).0
}

/// The ranges that are there, in order.
pub open spec fn present(s: Seq<Option<(int, int)>>) -> Seq<(int, int)>
    decreases s.len(),
{
    if s.len() == 0 {
        Seq::empty()
    } else {
        match s.last() {
            Some(r) => present(s.drop_last()).push(r),
            None => present(s.drop_last()),
        }
    }
}

pub open spec fn span_view(v: Seq<(usize, usize)>) -> Seq<(int, int)> {
    v.map_values(|p: (usize, usize)| (p.0 as int, p.1 as int))
}

pub open spec fn opt_span_view(v: Seq<Option<(usize, usize)>>) -> Seq<Option<(int, int)>> {
    v.map_values(
        |o: Option<(usize, usize)>|
            match o {
                Some(p) => Some((p.0 as int, p.1 as int)),
                None => None,
            },
    )
}

/// `regex::Regex::new` and `captures_iter`: compiles `pattern` and gives,
/// for each successive, non-overlapping match, the byte range of group
/// `group` (`Captures::get`), if it took part. Claimed: the result is the
/// named `capture_spans` of the arguments, and the ranges there are in order
/// and on character boundaries, as the offsets of matches in a `&str` are.
/// Whether a given pattern compiles is left to the name: regex's parser
/// decides it.
#[verifier::external_body]
fn find_capture_spans(pattern: &str, group: usize, haystack: &str) -> (r: Option<
    Vec<Option<(usize, usize)>>,
>)
    ensures
        match r {
            Some(v) => capture_spans(pattern@, group as int, haystack.spec_bytes()) == Some(
                opt_span_view(v@),
            ) && ordered_spans(haystack.spec_bytes(), present(opt_span_view(v@))),
            None => capture_spans(pattern@, group as int, haystack.spec_bytes()) is None,
        },
{
    let re = match regex::Regex::new(pattern) {
        Ok(re) => re,
        Err(_) => return None,
    };
    let mut out = Vec::new();
    for caps in re.captures_iter(haystack) {
        out.push(caps.get(group).map(|m| (m.start(), m.end())));
    }
    Some(out)
}

/// The ranges of `v` that are there, in order.
pub fn present_spans(v: &Vec<Option<(usize, usize)>>) -> (out: Vec<(usize, usize)>)
    ensures
        span_view(out@) == present(opt_span_view(v@)),
{
    let ghost all = opt_span_view(v@);
    let mut out: Vec<(usize, usize)> = Vec::new();
    let mut i: usize = 0;
    assert(all.take(0) =~= Seq::<Option<(int, int)>>::empty());
    assert(span_view(out@) =~= Seq::<(int, int)>::empty());
    while i < v.len()
        invariant
            i <= v.len(),
            all == opt_span_view(v@),
            span_view(out@) == present(all.take(i as int)),
        decreases v.len() - i,
    {
        assert(all.take(i + 1).drop_last() =~= all.take(i as int));
        assert(all.take(i + 1).last() == all[i as int]);
        let ghost prev = out@;
        if let Some(p) = v[i] {
            out.push(p);
            assert(span_view(out@) =~= span_view(prev).push((p.0 as int, p.1 as int)));
        }
        i += 1;
    }
    assert(all.take(v.len() as int) =~= all);
    out
}

/// The page's asset pattern: an `href="` or `src="` attribute whose value is
/// a path under /css/ or /js/ (vendor/ is left alone, since those files never
/// change). The path is its second group.
pub open spec fn asset_pattern_spec() -> Seq<char> {
    "((?:href|src)=\")(/(?:css|js)/[^\"]+)(\")"@
}

pub fn asset_pattern() -> (r: &'static str)
    ensures
        r@ == asset_pattern_spec(),
{
    "((?:href|src)=\")(/(?:css|js)/[^\"]+)(\")"
}

/// The byte ranges of the page's asset paths, in the order they appear.
pub open spec fn asset_path_spans(html: Seq<u8>) -> Option<Seq<(int, int)>> {
    match capture_spans(asset_pattern_spec(), 2, html) {
        Some(s) => Some(present(s)),
        None => None,
    }
}

/// Where in the page its own CSS and JS files are named: the ranges the
/// asset pattern picks out, or none if the pattern were not to compile.
pub fn asset_paths(html: &str) -> (r: Vec<(usize, usize)>)
    ensures
        match asset_path_spans(html.spec_bytes()) {
            Some(spans) => span_view(r@) == spans,
            None => r@.len() == 0,
        },
        ordered_spans(html.spec_bytes(), span_view(r@)),
{
    match find_capture_spans(asset_pattern(), 2, html) {
        Some(v) => present_spans(&v),
        None => {
            let v: Vec<(usize, usize)> = Vec::new();
            assert(span_view(v@) =~= Seq::<(int, int)>::empty());
            v
        },
    }
}

/// The file a named asset path stands for, without its leading slashes.
pub fn span_path(html: &str, span: (usize, usize)) -> (r: String)
    requires
        ordered_spans(html.spec_bytes(), seq![(span.0 as int, span.1 as int)]),
    ensures
        encode_utf8(r@) == encode_utf8(trim_char_start(
            decode_utf8(html.spec_bytes().subrange(span.0 as int, span.1 as int)),
            '/',
        )),
{
    assert(seq![(span.0 as int, span.1 as int)][0] == (span.0 as int, span.1 as int));
    let piece = byte_slice(html, span.0, span.1);
    let chars = to_chars(piece);
    let mut i: usize = 0;
    assert(chars@.skip(0) =~= chars@);
    while i < chars.len() && chars[i] == '/'
        invariant
            i <= chars.len(),
            trim_char_start(chars@.skip(i as int), '/') == trim_char_start(chars@, '/'),
        decreases chars.len() - i,
    {
        assert(chars@.skip(i as int).drop_first() =~= chars@.skip(i + 1));
        i += 1;
    }
    assert(i == chars.len() || chars@.skip(i as int)[0] != '/');
    let r = crate::text::string_of(&chars, i, chars.len());
    assert(chars@.subrange(i as int, chars@.len() as int) =~= chars@.skip(i as int));
    r
}

/// The query string appended to an asset path.
pub open spec fn version_tag(v: i64) -> Seq<u8> {
    encode_utf8("?v="@ + signed_decimal(v as int))
}

/// The page with each asset path followed by its version tag.
pub open spec fn busted(bytes: Seq<u8>, spans: Seq<(int, int)>, versions: Seq<i64>) -> Seq<u8>
    decreases spans.len(),
{
    if spans.len() == 0 || versions.len() == 0 {
        bytes
    } else {
        let end = spans.last().1;
        busted(bytes.take(end), spans.drop_last(), versions.drop_last()) + version_tag(versions.last())
            + bytes.skip(end)
    }
}

proof fn lemma_busted_extend(bytes: Seq<u8>, spans: Seq<(int, int)>, versions: Seq<i64>, e: int, f: int)
    requires
        spans.len() == versions.len(),
        0 <= e <= f <= bytes.len(),
        forall|i: int| 0 <= i < spans.len() ==> 0 <= (#[trigger] spans[i]).1 <= e,
    ensures
        busted(bytes.take(f), spans, versions) == busted(bytes.take(e), spans, versions)
            + bytes.subrange(e, f),
{
    if spans.len() == 0 {
        assert(bytes.take(f) =~= bytes.take(e) + bytes.subrange(e, f));
    } else {
        let end = spans.last().1;
        assert(spans[spans.len() - 1] == spans.last());
        assert(bytes.take(f).take(end) =~= bytes.take(end));
        assert(bytes.take(e).take(end) =~= bytes.take(end));
        assert(bytes.take(f).skip(end) =~= bytes.take(e).skip(end) + bytes.subrange(e, f));
    }
}

/// The page with `?v=<version>` after each asset path, so the browser
/// fetches a file again exactly when its version changes. `spans` are where
/// the asset paths stand, `versions` the token for each.
pub fn bust_cache(html: &str, spans: &Vec<(usize, usize)>, versions: &Vec<i64>) -> (r: String)
    requires
        spans.len() == versions.len(),
        ordered_spans(html.spec_bytes(), span_view(spans@)),
    ensures
        encode_utf8(r@) == busted(html.spec_bytes(), span_view(spans@), versions@),
{
    let ghost bytes = html.spec_bytes();
    let ghost sv = span_view(spans@);
    let len = html.as_bytes().len();
    proof {
        is_char_boundary_start_end_of_seq(bytes);
    }
    let mut out = String::new();
    let mut pos: usize = 0;
    let mut i: usize = 0;
    assert(bytes.take(0) =~= Seq::<u8>::empty());
    while i < spans.len()
        invariant
            len == bytes.len(),
            bytes == html.spec_bytes(),
            sv == span_view(spans@),
            spans.len() == versions.len(),
            ordered_spans(bytes, sv),
            i <= spans.len(),
            pos <= len,
            is_char_boundary(bytes, pos as int),
            i > 0 ==> pos == spans@[i - 1].1,
            i == 0 ==> pos == 0,
            forall|j: int| i <= j < spans.len() ==> pos <= (#[trigger] spans@[j]).0,
            encode_utf8(out@) == busted(bytes.take(pos as int), sv.take(i as int), versions@.take(i as int)),
        decreases spans.len() - i,
    {
        let (a, b) = spans[i];
        assert(sv[i as int] == (a as int, b as int));
        let piece = byte_slice(html, pos, b);
        let ghost prev = out@;
        push_str(&mut out, piece);
        let mut tag = String::from_str("?v=");
        push_signed(&mut tag, versions[i]);
        let ghost tagv = tag@;
        push_str(&mut out, tag.as_str());
        proof {
            lemma_encode_utf8_add(prev, piece@);
            lemma_encode_utf8_add(prev + piece@, tagv);
            assert(out@ == prev + piece@ + tagv);
            let st = sv.take(i as int);
            let vt = versions@.take(i as int);
            assert forall|j: int| 0 <= j < st.len() implies 0 <= (#[trigger] st[j]).1 <= pos by {
                assert(st[j] == sv[j]);
                if j < i - 1 {
                    assert(sv[j].1 <= sv[i - 1].0);
                }
            }
            lemma_busted_extend(bytes, st, vt, pos as int, b as int);
            let s2 = sv.take(i + 1);
            let v2 = versions@.take(i + 1);
            assert(s2.drop_last() =~= st);
            assert(v2.drop_last() =~= vt);
            assert(s2.last() == sv[i as int]);
            assert(bytes.take(b as int).take(b as int) =~= bytes.take(b as int));
            assert(bytes.take(b as int).skip(b as int) =~= Seq::<u8>::empty());
            assert(busted(bytes.take(b as int), s2, v2) == busted(bytes.take(b as int), st, vt)
                + version_tag(versions@[i as int]) + Seq::<u8>::empty());
            assert(version_tag(versions@[i as int]) == encode_utf8(tagv));
            assert(bytes.subrange(pos as int, b as int) == piece.spec_bytes());
            assert forall|j: int| i + 1 <= j < spans.len() implies b <= (#[trigger] spans@[j]).0 by {
                assert(sv[i as int].1 <= sv[j].0);
            }
        }
        pos = b;
        i += 1;
    }
    let rest = byte_slice(html, pos, len);
    let ghost prev = out@;
    push_str(&mut out, rest);
    proof {
        lemma_encode_utf8_add(prev, rest@);
        assert(sv.take(i as int) =~= sv);
        assert(versions@.take(i as int) =~= versions@);
        if i == 0 {
            assert(bytes.take(0) + bytes.subrange(0, len as int) =~= bytes);
        } else {
            let end = sv.last().1;
            assert(sv.last() == sv[i - 1]);
            assert(bytes.take(pos as int).take(end) =~= bytes.take(end));
            assert(bytes.take(pos as int).skip(end) =~= Seq::<u8>::empty());
            assert(bytes.skip(end) =~= bytes.subrange(pos as int, len as int));
            assert(busted(bytes.take(pos as int), sv, versions@) + bytes.subrange(pos as int, len as int)
                =~= busted(bytes, sv, versions@));
        }
    }
    out
}

} // verus!
