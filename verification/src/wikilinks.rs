//! `[[Wiki links]]` — the shorthand that turns a folder of markdown into a vault.
//!
//! ```text
//! [[Ideas]]              by name, found anywhere in the vault
//! [[projects/Ideas]]     by path, when two notes share a name
//! [[Ideas|my ideas]]     with different display text
//! [[Ideas#Later]]        the heading is kept for display, ignored for lookup
//! ```
//!
//! Resolution runs against the note list the sidebar already holds, so typing a
//! link doesn't cost a round trip.
//!
//! Link positions are byte offsets into the UTF-8 text; every delimiter the
//! scanners look for is ASCII, so they work on bytes.
use vstd::prelude::*;
use vstd::utf8::*;
use vstd::string::StringSliceAdditionalSpecFns;
use crate::text::{
    chars_before, chars_between, chars_eq, dir_of, ends_with_chars, find_char, first_index,
    has_char, last_index_of, last_segment, lemma_ascii_boundaries, lemma_first_index, lemma_last_index_of,
    prefix_before, rfind_char, string_of, to_chars, to_lowercase, trim,
    trim_chars, views, lowercase,
};

verus! {

broadcast use encode_utf8_valid_utf8;

// ── Specifications: scanning for links ──

/// Scans a link body from byte `i`, the state being whether the `|` was seen
/// and whether the target so far is non-empty; yields the index of the
/// closing `]]`.
pub open spec fn link_close(t: Seq<u8>, i: int, seen_pipe: bool, has_target: bool) -> Option<int>
    decreases t.len() - i,
{
    if i < 0 || i >= t.len() {
        None
    } else if t[i] == 10 {
        None
    } else if t[i] == 93 {
        if !(i + 1 < t.len() && t[i + 1] == 93) || (!seen_pipe && !has_target) {
            None
        } else {
            Some(i)
        }
    } else if t[i] == 124 {
        if seen_pipe || !has_target {
            None
        } else {
            link_close(t, i + 1, true, has_target)
        }
    } else {
        link_close(t, i + 1, seen_pipe, has_target || !seen_pipe)
    }
}

/// The first `[[…]]` starting at or after byte `s`, as (start, end).
pub open spec fn next_link_from(t: Seq<u8>, s: int) -> Option<(int, int)>
    decreases t.len() - s,
{
    if s < 0 || s + 1 >= t.len() {
        None
    } else if t[s] == 91 && t[s + 1] == 91 {
        match link_close(t, s + 2, false, false) {
            Some(c) => Some((s, c + 2)),
            None => next_link_from(t, s + 2),
        }
    } else {
        next_link_from(t, s + 1)
    }
}

/// Every link from byte `offset` on, in order.
pub open spec fn links_from(t: Seq<u8>, offset: int) -> Seq<(int, int)>
    decreases t.len() - offset,
{
    if offset < 0 {
        Seq::empty()
    } else {
        match next_link_from(t, offset) {
            Some((s, e)) => {
                proof {
                    lemma_next_link(t, offset);
                }
                seq![(s, e)] + links_from(t, e)
            },
            None => Seq::empty(),
        }
    }
}

/// Whether byte `p` falls inside one of `spans`.
pub open spec fn in_spans(spans: Seq<(int, int)>, p: int) -> bool {
    exists|k: int| 0 <= k < spans.len() && (#[trigger] spans[k]).0 <= p < spans[k].1
}

/// The links from byte `offset` on that do not start inside a code span.
pub open spec fn kept_from(t: Seq<u8>, offset: int, code: Seq<(int, int)>) -> Seq<(int, int)>
    decreases t.len() - offset,
{
    if offset < 0 {
        Seq::empty()
    } else {
        match next_link_from(t, offset) {
            Some((s, e)) => {
                proof {
                    lemma_next_link(t, offset);
                }
                if in_spans(code, s) {
                    kept_from(t, e, code)
                } else {
                    seq![(s, e)] + kept_from(t, e, code)
                }
            },
            None => Seq::empty(),
        }
    }
}

/// Code spans found so far, and where an unclosed one opened.
pub open spec fn spans_state(t: Seq<u8>) -> (Seq<(int, int)>, Option<int>)
    decreases t.len(),
{
    if t.len() == 0 {
        (Seq::empty(), None)
    } else {
        let prev = spans_state(t.drop_last());
        let i = t.len() - 1;
        if t[i] != 96 {
            prev
        } else {
            match prev.1 {
                None => (prev.0, Some(i)),
                Some(s) => (prev.0.push((s, i + 1)), None),
            }
        }
    }
}

/// Byte ranges of the `` `code spans` `` on a line: backticks paired in order.
pub open spec fn code_spans_spec(t: Seq<u8>) -> Seq<(int, int)> {
    spans_state(t).0
}

/// The links on a line that are not inside code spans.
pub open spec fn ranges_spec(t: Seq<u8>) -> Seq<(int, int)> {
    kept_from(t, 0, code_spans_spec(t))
}

/// The range is a well-formed link: "[[", a non-empty body, "]]".
pub open spec fn is_link(t: Seq<u8>, s: int, e: int) -> bool {
    &&& 0 <= s && s + 5 <= e <= t.len()
    &&& t[s] == 91 && t[s + 1] == 91
    &&& t[e - 2] == 93 && t[e - 1] == 93
    &&& forall|j: int| s <= j < e ==> t[j] != 10
}

// ── Specifications: parsing and resolving ──

/// (target, path, alias, label) of one link body.
pub open spec fn parse_spec(raw: Seq<char>) -> (Seq<char>, Seq<char>, Seq<char>, Seq<char>) {
    let target_part = if has_char(raw, '|') {
        raw.take(first_index(raw, '|'))
    } else {
        raw
    };
    let alias = if has_char(raw, '|') {
        trim(raw.skip(first_index(raw, '|') + 1))
    } else {
        Seq::empty()
    };
    let target = trim(target_part);
    let path = trim(prefix_before(target, '#'));
    let label = if alias.len() == 0 {
        target
    } else {
        alias
    };
    (target, path, alias, label)
}

/// ASCII lower-casing of one character.
pub open spec fn ascii_lower(c: char) -> char {
    if 'A' <= c <= 'Z' {
        ((c as u32) + 32) as char
    } else {
        c
    }
}

/// Equal apart from ASCII case.
pub open spec fn eq_ignore_ascii_case(a: Seq<char>, b: Seq<char>) -> bool {
    a.len() == b.len() && forall|i: int| 0 <= i < a.len() ==> ascii_lower(a[i]) == ascii_lower(
        b[i],
    )
}

/// The first note equal to `cand` apart from ASCII case.
pub open spec fn first_ci(notes: Seq<Seq<char>>, cand: Seq<char>) -> Option<Seq<char>>
    decreases notes.len(),
{
    if notes.len() == 0 {
        None
    } else if eq_ignore_ascii_case(notes[0], cand) {
        Some(notes[0])
    } else {
        first_ci(notes.drop_first(), cand)
    }
}

/// `path` with ".md" added unless it already ends so.
pub open spec fn with_ext(path: Seq<char>) -> Seq<char> {
    if path.len() >= 3 && path.skip(path.len() - 3) == ".md"@ {
        path
    } else {
        path + ".md"@
    }
}

/// The folder of the linking note, when it is in one.
pub open spec fn note_dir(from: Option<Seq<char>>) -> Option<Seq<char>> {
    match from {
        Some(n) => if has_char(n, '/') {
            Some(dir_of(n))
        } else {
            None
        },
        None => None,
    }
}

/// Number of '/' in a path, one less than the number of its pieces.
pub open spec fn segment_count(s: Seq<char>) -> int
    decreases s.len(),
{
    if s.len() == 0 {
        0
    } else {
        segment_count(s.drop_last()) + if s.last() == '/' {
            1int
        } else {
            0int
        }
    }
}

/// 0 for a note inside the linking note's folder, 1 otherwise.
pub open spec fn nearness(p: Seq<char>, dir: Option<Seq<char>>) -> int {
    match dir {
        Some(d) => if d.len() + 1 <= p.len() && p.take((d.len() + 1) as int) == d.push('/') {
            0
        } else {
            1
        },
        None => 1,
    }
}

/// Lexicographic order of character sequences, which for UTF-8 strings is
/// the byte order `String`'s `Ord` uses.
pub open spec fn seq_lt(a: Seq<char>, b: Seq<char>) -> bool
    decreases a.len(),
{
    if a.len() == 0 {
        b.len() > 0
    } else if b.len() == 0 {
        false
    } else if (a[0] as u32) < (b[0] as u32) {
        true
    } else if (a[0] as u32) > (b[0] as u32) {
        false
    } else {
        seq_lt(a.drop_first(), b.drop_first())
    }
}

/// `a` sorts before `b`: nearer first, then shallower, then by name.
pub open spec fn better(a: Seq<char>, b: Seq<char>, dir: Option<Seq<char>>) -> bool {
    ||| nearness(a, dir) < nearness(b, dir)
    ||| (nearness(a, dir) == nearness(b, dir) && segment_count(a) < segment_count(b))
    ||| (nearness(a, dir) == nearness(b, dir) && segment_count(a) == segment_count(b) && seq_lt(
        a,
        b,
    ))
}

/// A note whose file name is `wanted`, compared lower-cased.
pub open spec fn name_matches(n: Seq<char>, wanted: Seq<char>) -> bool {
    lowercase(last_segment(n)) == wanted
}

/// The best-sorted note among `notes[i..]` named `wanted`, starting from `cur`.
pub open spec fn best_from(
    notes: Seq<Seq<char>>,
    i: int,
    cur: Option<Seq<char>>,
    wanted: Seq<char>,
    dir: Option<Seq<char>>,
) -> Option<Seq<char>>
    decreases notes.len() - i,
{
    if i < 0 || i >= notes.len() {
        cur
    } else {
        let n = notes[i];
        let next = if name_matches(n, wanted) {
            match cur {
                None => Some(n),
                Some(c) => if better(n, c, dir) {
                    Some(n)
                } else {
                    Some(c)
                },
            }
        } else {
            cur
        };
        best_from(notes, i + 1, next, wanted, dir)
    }
}

/// Vault-relative path of the note a link points at.
pub open spec fn resolve_spec(path: Seq<char>, from: Option<Seq<char>>, notes: Seq<Seq<char>>) -> Option<
    Seq<char>,
> {
    if path.len() == 0 {
        None
    } else {
        let ext = with_ext(path);
        let dir = note_dir(from);
        let sibling = match dir {
            Some(d) => first_ci(notes, d.push('/') + ext),
            None => None,
        };
        if sibling is Some {
            sibling
        } else if first_ci(notes, ext) is Some {
            first_ci(notes, ext)
        } else {
            best_from(notes, 0, None, lowercase(last_segment(ext)), dir)
        }
    }
}

// ── Lemmas ──

/// A link body closes at "]]", after its start, with no newline before it.
pub proof fn lemma_link_close(t: Seq<u8>, i: int, seen: bool, has: bool)
    requires
        0 <= i,
    ensures
        link_close(t, i, seen, has) matches Some(c) ==> i <= c && c + 2 <= t.len() && t[c] == 93
            && t[c + 1] == 93 && forall|j: int| i <= j <= c + 1 ==> t[j] != 10,
        link_close(t, i, seen, has) matches Some(c) ==> (seen || has || c > i),
    decreases t.len() - i,
{
    if i >= t.len() || t[i] == 10 || t[i] == 93 {
    } else if t[i] == 124 {
        if !seen && has {
            lemma_link_close(t, i + 1, true, has);
        }
    } else {
        lemma_link_close(t, i + 1, seen, has || !seen);
    }
}

/// The next link lies at or after the search start and is well formed.
pub proof fn lemma_next_link(t: Seq<u8>, s: int)
    requires
        0 <= s,
    ensures
        next_link_from(t, s) matches Some((a, e)) ==> s <= a && is_link(t, a, e),
    decreases t.len() - s,
{
    if s + 1 >= t.len() {
    } else if t[s] == 91 && t[s + 1] == 91 {
        lemma_link_close(t, s + 2, false, false);
        if link_close(t, s + 2, false, false) is None {
            lemma_next_link(t, s + 2);
        }
    } else {
        lemma_next_link(t, s + 1);
    }
}

/// Every link found from `offset` on is well formed and they come in order,
/// without overlapping.
pub proof fn lemma_links_from(t: Seq<u8>, offset: int)
    requires
        0 <= offset,
    ensures
        forall|k: int|
            0 <= k < links_from(t, offset).len() ==> offset <= #[trigger] links_from(t, offset)[k].0
                && is_link(t, links_from(t, offset)[k].0, links_from(t, offset)[k].1),
        forall|k: int|
            0 <= k < links_from(t, offset).len() - 1 ==> #[trigger] links_from(t, offset)[k].1
                <= links_from(t, offset)[k + 1].0,
    decreases t.len() - offset,
{
    lemma_next_link(t, offset);
    if let Some((s, e)) = next_link_from(t, offset) {
        lemma_links_from(t, e);
        let rest = links_from(t, e);
        assert(links_from(t, offset) == seq![(s, e)] + rest);
        assert forall|k: int| 0 <= k < links_from(t, offset).len() - 1 implies #[trigger] links_from(
            t,
            offset,
        )[k].1 <= links_from(t, offset)[k + 1].0 by {
            if k > 0 {
                assert(links_from(t, offset)[k] == rest[k - 1]);
                assert(links_from(t, offset)[k + 1] == rest[k]);
            } else {
                assert(links_from(t, offset)[1] == rest[0]);
            }
        }
        assert forall|k: int| 0 <= k < links_from(t, offset).len() implies offset <= #[trigger] links_from(
            t,
            offset,
        )[k].0 && is_link(t, links_from(t, offset)[k].0, links_from(t, offset)[k].1) by {
            if k > 0 {
                assert(links_from(t, offset)[k] == rest[k - 1]);
            }
        }
    }
}

/// The kept links are some of all the links, in order.
pub proof fn lemma_kept_from(t: Seq<u8>, offset: int, code: Seq<(int, int)>)
    requires
        0 <= offset,
    ensures
        forall|k: int|
            0 <= k < kept_from(t, offset, code).len() ==> offset <= #[trigger] kept_from(
                t,
                offset,
                code,
            )[k].0 && is_link(t, kept_from(t, offset, code)[k].0, kept_from(t, offset, code)[k].1)
                && !in_spans(code, kept_from(t, offset, code)[k].0),
    decreases t.len() - offset,
{
    lemma_next_link(t, offset);
    if let Some((s, e)) = next_link_from(t, offset) {
        lemma_kept_from(t, e, code);
        let rest = kept_from(t, e, code);
        assert forall|k: int| 0 <= k < kept_from(t, offset, code).len() implies offset
            <= #[trigger] kept_from(t, offset, code)[k].0 && is_link(
            t,
            kept_from(t, offset, code)[k].0,
            kept_from(t, offset, code)[k].1,
        ) && !in_spans(code, kept_from(t, offset, code)[k].0) by {
            if !in_spans(code, s) && k > 0 {
                assert(kept_from(t, offset, code)[k] == rest[k - 1]);
            }
            if in_spans(code, s) {
                assert(kept_from(t, offset, code)[k] == rest[k]);
            }
        }
    }
}

proof fn lemma_kept_ordered(t: Seq<u8>, offset: int, code: Seq<(int, int)>)
    requires
        0 <= offset,
    ensures
        forall|k: int|
            0 <= k < kept_from(t, offset, code).len() - 1 ==> #[trigger] kept_from(t, offset, code)[k].1
                <= kept_from(t, offset, code)[k + 1].0,
    decreases t.len() - offset,
{
    lemma_next_link(t, offset);
    if let Some((s, e)) = next_link_from(t, offset) {
        lemma_kept_ordered(t, e, code);
        lemma_kept_from(t, e, code);
        let rest = kept_from(t, e, code);
        let all = kept_from(t, offset, code);
        assert forall|k: int| 0 <= k < all.len() - 1 implies #[trigger] all[k].1 <= all[k + 1].0 by {
            if in_spans(code, s) {
                assert(all[k] == rest[k] && all[k + 1] == rest[k + 1]);
            } else if k == 0 {
                assert(all[0] == (s, e));
                assert(all[1] == rest[0]);
            } else {
                assert(all[k] == rest[k - 1] && all[k + 1] == rest[k]);
            }
        }
    }
}

/// Every link `ranges` finds is a well-formed `[[…]]` on one line that does
/// not start inside a code span, and they come in order without
/// overlapping, so the editor can style each one independently.
pub proof fn ranges_are_links(t: Seq<u8>)
    ensures
        forall|k: int|
            0 <= k < ranges_spec(t).len() ==> is_link(t, (#[trigger] ranges_spec(t)[k]).0, ranges_spec(
                t,
            )[k].1) && !in_spans(code_spans_spec(t), ranges_spec(t)[k].0),
        forall|k: int|
            0 <= k < ranges_spec(t).len() - 1 ==> #[trigger] ranges_spec(t)[k].1 <= ranges_spec(
                t,
            )[k + 1].0,
{
    lemma_kept_from(t, 0, code_spans_spec(t));
    lemma_kept_ordered(t, 0, code_spans_spec(t));
}

/// The links that do not start inside a code span, as a filter.
pub open spec fn outside_code(code: Seq<(int, int)>) -> spec_fn((int, int)) -> bool {
    |r: (int, int)| !in_spans(code, r.0)
}

proof fn lemma_kept_is_filter(t: Seq<u8>, offset: int, code: Seq<(int, int)>)
    requires
        0 <= offset,
    ensures
        kept_from(t, offset, code) == links_from(t, offset).filter(outside_code(code)),
    decreases t.len() - offset,
{
    reveal(Seq::filter);
    lemma_next_link(t, offset);
    match next_link_from(t, offset) {
        Some((s, e)) => {
            lemma_kept_is_filter(t, e, code);
            let one = seq![(s, e)];
            Seq::filter_distributes_over_add(one, links_from(t, e), outside_code(code));
            assert(one.drop_last() =~= Seq::<(int, int)>::empty());
            assert(one.last() == (s, e));
            assert(one.drop_last().filter(outside_code(code)) =~= Seq::<(int, int)>::empty());
            if in_spans(code, s) {
                assert(!(outside_code(code))((s, e)));
                assert(one.filter(outside_code(code)) =~= Seq::<(int, int)>::empty());
            } else {
                assert(one.filter(outside_code(code)) =~= one);
            }
            assert(links_from(t, offset) == one + links_from(t, e));
        },
        None => {
            assert(links_from(t, offset) =~= Seq::<(int, int)>::empty());
        },
    }
}

/// `ranges` is `all_ranges` without the links that start inside a code
/// span: every link found on the line is kept, in order, unless it begins in
/// code.
pub proof fn ranges_are_all_ranges_outside_code(t: Seq<u8>)
    ensures
        ranges_spec(t) == links_from(t, 0).filter(outside_code(code_spans_spec(t))),
{
    lemma_kept_is_filter(t, 0, code_spans_spec(t));
}

// ── Resolving a link: laws ──

pub proof fn lemma_last_index_props(s: Seq<char>, c: char)
    ensures
        -1 <= last_index_of(s, c) < s.len(),
        last_index_of(s, c) >= 0 ==> s[last_index_of(s, c)] == c,
        forall|j: int| last_index_of(s, c) < j < s.len() ==> s[j] != c,
    decreases s.len(),
{
    if s.len() > 0 && s.last() != c {
        lemma_last_index_props(s.drop_last(), c);
        assert forall|j: int| last_index_of(s, c) < j < s.len() implies s[j] != c by {
            if j < s.len() - 1 {
                assert(s[j] == s.drop_last()[j]);
            }
        }
    }
}

/// Names equal apart from ASCII case have their last segments equal apart
/// from ASCII case.
proof fn lemma_ci_last_segment(a: Seq<char>, b: Seq<char>)
    requires
        eq_ignore_ascii_case(a, b),
    ensures
        eq_ignore_ascii_case(last_segment(a), last_segment(b)),
{
    lemma_last_index_props(a, '/');
    let k = last_index_of(a, '/');
    assert forall|j: int| 0 <= j < a.len() implies (a[j] == '/') == (b[j] == '/') by {
        assert(ascii_lower(a[j]) == ascii_lower(b[j]));
    }
    lemma_last_index_of(b, '/', k);
    let la = last_segment(a);
    let lb = last_segment(b);
    assert forall|j: int| 0 <= j < la.len() implies ascii_lower(la[j]) == ascii_lower(lb[j]) by {
        assert(la[j] == a[k + 1 + j]);
        assert(lb[j] == b[k + 1 + j]);
    }
}

/// A name under a folder has the name's own last segment.
proof fn lemma_last_segment_under(d: Seq<char>, ext: Seq<char>)
    ensures
        last_segment(d.push('/') + ext) == last_segment(ext),
{
    let s = d.push('/') + ext;
    lemma_last_index_props(ext, '/');
    let k = last_index_of(ext, '/');
    assert forall|j: int| d.len() + 1 + k < j < s.len() implies s[j] != '/' by {
        assert(s[j] == ext[j - d.len() - 1]);
    }
    if k >= 0 {
        assert(s[d.len() + 1 + k] == ext[k]);
    } else {
        assert(s[d.len() as int] == '/');
    }
    lemma_last_index_of(s, '/', d.len() + 1 + k);
    assert(s.skip(d.len() + 1 + k + 1) =~= ext.skip(k + 1));
}

proof fn lemma_first_ci(notes: Seq<Seq<char>>, cand: Seq<char>)
    ensures
        first_ci(notes, cand) matches Some(r) ==> notes.contains(r) && eq_ignore_ascii_case(r, cand),
        first_ci(notes, cand) is None ==> forall|i: int|
            0 <= i < notes.len() ==> !eq_ignore_ascii_case(#[trigger] notes[i], cand),
    decreases notes.len(),
{
    if notes.len() > 0 {
        lemma_first_ci(notes.drop_first(), cand);
        if eq_ignore_ascii_case(notes[0], cand) {
            assert(notes[0] == notes[0]);
        } else {
            if let Some(r) = first_ci(notes.drop_first(), cand) {
                let j = choose|j: int| 0 <= j < notes.drop_first().len() && notes.drop_first()[j] == r;
                assert(notes[j + 1] == r);
            } else {
                assert forall|i: int| 0 <= i < notes.len() implies !eq_ignore_ascii_case(
                    #[trigger] notes[i],
                    cand,
                ) by {
                    if i > 0 {
                        assert(notes[i] == notes.drop_first()[i - 1]);
                    }
                }
            }
        }
    }
}

proof fn lemma_seq_lt_irreflexive(a: Seq<char>)
    ensures
        !seq_lt(a, a),
    decreases a.len(),
{
    if a.len() > 0 {
        lemma_seq_lt_irreflexive(a.drop_first());
    }
}

proof fn lemma_seq_lt_order(a: Seq<char>, b: Seq<char>)
    ensures
        seq_lt(a, b) ==> !seq_lt(b, a),
        a != b ==> seq_lt(a, b) || seq_lt(b, a),
    decreases a.len(),
{
    if a.len() > 0 && b.len() > 0 {
        lemma_seq_lt_order(a.drop_first(), b.drop_first());
        char_u32_cast(a[0], a[0] as u32);
        char_u32_cast(b[0], b[0] as u32);
        if a[0] == b[0] && a.drop_first() == b.drop_first() {
            assert(a =~= seq![a[0]] + a.drop_first());
            assert(b =~= seq![b[0]] + b.drop_first());
        }
    } else if a.len() == 0 && b.len() == 0 {
        assert(a =~= b);
    }
}

proof fn lemma_seq_lt_transitive(a: Seq<char>, b: Seq<char>, c: Seq<char>)
    requires
        seq_lt(a, b),
        seq_lt(b, c),
    ensures
        seq_lt(a, c),
    decreases a.len(),
{
    if a.len() > 0 && b.len() > 0 && c.len() > 0 {
        if (a[0] as u32) == (b[0] as u32) && (b[0] as u32) == (c[0] as u32) {
            lemma_seq_lt_transitive(a.drop_first(), b.drop_first(), c.drop_first());
        }
    }
}

/// `better` is a strict total order on distinct paths.
proof fn lemma_better_order(a: Seq<char>, b: Seq<char>, c: Seq<char>, d: Option<Seq<char>>)
    ensures
        !better(a, a, d),
        better(a, b, d) ==> !better(b, a, d),
        a != b ==> better(a, b, d) || better(b, a, d),
        better(a, b, d) && better(b, c, d) ==> better(a, c, d),
{
    lemma_seq_lt_irreflexive(a);
    lemma_seq_lt_order(a, b);
    if better(a, b, d) && better(b, c, d) && seq_lt(a, b) && seq_lt(b, c) {
        lemma_seq_lt_transitive(a, b, c);
    }
}

/// What `best_from` finds: the `better`-least of `cur` and the notes from
/// `i` on with the wanted name.
proof fn lemma_best_from(
    notes: Seq<Seq<char>>,
    i: int,
    cur: Option<Seq<char>>,
    w: Seq<char>,
    d: Option<Seq<char>>,
)
    requires
        0 <= i <= notes.len(),
    ensures
        best_from(notes, i, cur, w, d) is None <==> cur is None && forall|j: int|
            i <= j < notes.len() ==> !name_matches(#[trigger] notes[j], w),
        best_from(notes, i, cur, w, d) matches Some(r) ==> cur == Some(r) || exists|j: int|
            i <= j < notes.len() && notes[j] == r && name_matches(notes[j], w),
        best_from(notes, i, cur, w, d) matches Some(r) ==> (cur matches Some(c) ==> c == r || better(
            r,
            c,
            d,
        )),
        best_from(notes, i, cur, w, d) matches Some(r) ==> forall|j: int|
            i <= j < notes.len() && name_matches(#[trigger] notes[j], w) ==> notes[j] == r || better(
                r,
                notes[j],
                d,
            ),
    decreases notes.len() - i,
{
    if i < notes.len() {
        let n = notes[i];
        let next = if name_matches(n, w) {
            match cur {
                None => Some(n),
                Some(c) => if better(n, c, d) {
                    Some(n)
                } else {
                    Some(c)
                },
            }
        } else {
            cur
        };
        lemma_best_from(notes, i + 1, next, w, d);
        if let Some(r) = best_from(notes, i, cur, w, d) {
            if let Some(c) = cur {
                if name_matches(n, w) {
                    lemma_better_order(r, n, c, d);
                    lemma_better_order(n, c, r, d);
                    lemma_better_order(r, c, n, d);
                }
            }
            if name_matches(n, w) {
                if let Some(c) = cur {
                    lemma_better_order(r, c, n, d);
                    lemma_better_order(c, n, r, d);
                    lemma_better_order(n, c, c, d);
                }
            }
        }
    }
}

/// The file name a link asks for: its last segment with ".md" added,
/// lower-cased.
pub open spec fn link_name(path: Seq<char>) -> Seq<char> {
    lowercase(last_segment(with_ext(path)))
}

/// Lower-casing treats the names of `notes` alike with the link's name
/// whenever they differ from it only in ASCII case (what `to_lowercase`
/// states of the text it lower-cases; `resolve` has it so).
pub open spec fn lowercase_ignores_ascii_case(notes: Seq<Seq<char>>, path: Seq<char>) -> bool {
    forall|i: int|
        0 <= i < notes.len() && eq_ignore_ascii_case(
            last_segment(#[trigger] notes[i]),
            last_segment(with_ext(path)),
        ) ==> lowercase(last_segment(notes[i])) == link_name(path)
}

proof fn lemma_exact_has_name(notes: Seq<Seq<char>>, cand: Seq<char>, path: Seq<char>)
    requires
        lowercase_ignores_ascii_case(notes, path),
        last_segment(cand) == last_segment(with_ext(path)),
    ensures
        first_ci(notes, cand) matches Some(r) ==> notes.contains(r) && name_matches(r, link_name(path)),
{
    lemma_first_ci(notes, cand);
    if let Some(r) = first_ci(notes, cand) {
        lemma_ci_last_segment(r, cand);
        let j = choose|j: int| 0 <= j < notes.len() && notes[j] == r;
        assert(eq_ignore_ascii_case(last_segment(notes[j]), last_segment(with_ext(path))));
    }
}

/// A link resolves exactly when some note has the file name it asks for
/// (".md" added, compared lower-cased), and what it resolves to is one of
/// the notes and has that name — lower-casing treating names that differ
/// only in ASCII case alike.
pub proof fn link_resolves_to_a_note_of_its_name(
    path: Seq<char>,
    from: Option<Seq<char>>,
    notes: Seq<Seq<char>>,
)
    requires
        lowercase_ignores_ascii_case(notes, path),
    ensures
        resolve_spec(path, from, notes) is None <==> (path.len() == 0 || forall|i: int|
            0 <= i < notes.len() ==> !name_matches(#[trigger] notes[i], link_name(path))),
        resolve_spec(path, from, notes) matches Some(r) ==> notes.contains(r) && name_matches(
            r,
            link_name(path),
        ),
{
    if path.len() > 0 {
        let ext = with_ext(path);
        let dir = note_dir(from);
        let w = link_name(path);
        if let Some(d) = dir {
            lemma_last_segment_under(d, ext);
            lemma_exact_has_name(notes, d.push('/') + ext, path);
        }
        lemma_exact_has_name(notes, ext, path);
        lemma_best_from(notes, 0, None, w, dir);
        if let Some(r) = best_from(notes, 0, None, w, dir) {
            let j = choose|j: int| 0 <= j < notes.len() && notes[j] == r && name_matches(notes[j], w);
            assert(notes.contains(r));
        }
        if let Some(r) = resolve_spec(path, from, notes) {
            assert(notes.contains(r));
            let j = choose|j: int| 0 <= j < notes.len() && notes[j] == r;
            assert(name_matches(notes[j], w));
        }
    }
}

/// When no note is named exactly as the link (beside the linking note or
/// from the root, ignoring ASCII case), the note it resolves to is the best
/// of those with its file name: in the linking note's folder before
/// elsewhere, then the shallowest, then the first by name.
pub proof fn link_picks_the_nearest_of_its_name(
    path: Seq<char>,
    from: Option<Seq<char>>,
    notes: Seq<Seq<char>>,
)
    requires
        path.len() > 0,
        note_dir(from) matches Some(d) ==> first_ci(notes, d.push('/') + with_ext(path)) is None,
        first_ci(notes, with_ext(path)) is None,
    ensures
        resolve_spec(path, from, notes) matches Some(r) ==> forall|j: int|
            0 <= j < notes.len() && name_matches(#[trigger] notes[j], link_name(path)) ==> notes[j]
                == r || better(r, notes[j], note_dir(from)),
{
    lemma_best_from(notes, 0, None, link_name(path), note_dir(from));
}

/// A link goes to the note beside the linking note when there is one: for
/// a linking note `d/f` (`f` a file name, so `d` is its own folder) and a
/// note named `d/<link>.md` apart from ASCII case, the link resolves to such
/// a note, however many other notes share its name, in `d`'s parent folders
/// or elsewhere.
pub proof fn link_prefers_the_linking_notes_folder(
    path: Seq<char>,
    d: Seq<char>,
    f: Seq<char>,
    notes: Seq<Seq<char>>,
    j: int,
)
    requires
        path.len() > 0,
        !has_char(f, '/'),
        0 <= j < notes.len(),
        eq_ignore_ascii_case(notes[j], d.push('/') + with_ext(path)),
    ensures
        resolve_spec(path, Some(d.push('/') + f), notes) matches Some(r) && notes.contains(r)
            && eq_ignore_ascii_case(r, d.push('/') + with_ext(path)),
{
    let n = d.push('/') + f;
    assert(n[d.len() as int] == '/');
    assert forall|k: int| d.len() < k < n.len() implies n[k] != '/' by {
        assert(n[k] == f[k - d.len() - 1]);
        if n[k] == '/' {
            assert(has_char(f, '/'));
        }
    }
    lemma_last_index_of(n, '/', d.len() as int);
    assert(has_char(n, '/'));
    assert(dir_of(n) =~= d);
    let cand = d.push('/') + with_ext(path);
    lemma_first_ci(notes, cand);
    if first_ci(notes, cand) is None {
        assert(!eq_ignore_ascii_case(notes[j], cand));
    }
}

/// No two notes are equal apart from ASCII case.
pub open spec fn ci_distinct(notes: Seq<Seq<char>>) -> bool {
    forall|i: int, j: int|
        0 <= i < j < notes.len() ==> !eq_ignore_ascii_case(#[trigger] notes[i], #[trigger] notes[j])
}

proof fn lemma_first_ci_same(a: Seq<Seq<char>>, b: Seq<Seq<char>>, cand: Seq<char>)
    requires
        ci_distinct(a),
        forall|x: Seq<char>| a.contains(x) <==> b.contains(x),
    ensures
        first_ci(a, cand) == first_ci(b, cand),
{
    lemma_first_ci(a, cand);
    lemma_first_ci(b, cand);
    match (first_ci(a, cand), first_ci(b, cand)) {
        (Some(r1), Some(r2)) => {
            assert(a.contains(r2));
            let i = choose|i: int| 0 <= i < a.len() && a[i] == r1;
            let j = choose|j: int| 0 <= j < a.len() && a[j] == r2;
            if i != j {
                assert(eq_ignore_ascii_case(a[i], a[j]));
                if i < j {
                    assert(!eq_ignore_ascii_case(a[i], a[j]));
                } else {
                    assert(!eq_ignore_ascii_case(a[j], a[i]));
                }
            }
        },
        (Some(r1), None) => {
            assert(b.contains(r1));
            let j = choose|j: int| 0 <= j < b.len() && b[j] == r1;
            assert(!eq_ignore_ascii_case(b[j], cand));
        },
        (None, Some(r2)) => {
            assert(a.contains(r2));
            let j = choose|j: int| 0 <= j < a.len() && a[j] == r2;
            assert(!eq_ignore_ascii_case(a[j], cand));
        },
        (None, None) => {},
    }
}

proof fn lemma_best_same(
    a: Seq<Seq<char>>,
    b: Seq<Seq<char>>,
    w: Seq<char>,
    d: Option<Seq<char>>,
)
    requires
        forall|x: Seq<char>| a.contains(x) <==> b.contains(x),
    ensures
        best_from(a, 0, None, w, d) == best_from(b, 0, None, w, d),
{
    lemma_best_from(a, 0, None, w, d);
    lemma_best_from(b, 0, None, w, d);
    match (best_from(a, 0, None, w, d), best_from(b, 0, None, w, d)) {
        (Some(r1), Some(r2)) => {
            let i = choose|i: int| 0 <= i < a.len() && a[i] == r1 && name_matches(a[i], w);
            let j = choose|j: int| 0 <= j < b.len() && b[j] == r2 && name_matches(b[j], w);
            assert(b.contains(r1));
            assert(a.contains(r2));
            let i2 = choose|i2: int| 0 <= i2 < b.len() && b[i2] == r1;
            let j2 = choose|j2: int| 0 <= j2 < a.len() && a[j2] == r2;
            assert(name_matches(a[j2], w));
            assert(name_matches(b[i2], w));
            lemma_better_order(r1, r2, r1, d);
        },
        (Some(r1), None) => {
            let i = choose|i: int| 0 <= i < a.len() && a[i] == r1 && name_matches(a[i], w);
            assert(b.contains(r1));
            let j = choose|j: int| 0 <= j < b.len() && b[j] == r1;
            assert(!name_matches(b[j], w));
        },
        (None, Some(r2)) => {
            let j = choose|j: int| 0 <= j < b.len() && b[j] == r2 && name_matches(b[j], w);
            assert(a.contains(r2));
            let i = choose|i: int| 0 <= i < a.len() && a[i] == r2;
            assert(!name_matches(a[i], w));
        },
        (None, None) => {},
    }
}

/// Where a link goes does not depend on the order the notes are listed in,
/// as long as no two notes differ only in ASCII case: any reordering of the
/// same notes resolves every link to the same note.
pub proof fn link_resolution_ignores_note_order(
    path: Seq<char>,
    from: Option<Seq<char>>,
    notes: Seq<Seq<char>>,
    reordered: Seq<Seq<char>>,
)
    requires
        ci_distinct(notes),
        forall|x: Seq<char>| notes.contains(x) <==> reordered.contains(x),
    ensures
        resolve_spec(path, from, reordered) == resolve_spec(path, from, notes),
{
    let ext = with_ext(path);
    if let Some(d) = note_dir(from) {
        lemma_first_ci_same(notes, reordered, d.push('/') + ext);
    }
    lemma_first_ci_same(notes, reordered, ext);
    lemma_best_same(notes, reordered, lowercase(last_segment(ext)), note_dir(from));
}

// ── Executable ──

/// The parts of one `[[…]]`.
#[derive(Debug, Clone, PartialEq, Eq)]
pub struct WikiLink {
    /// Everything before the `|`, heading included.
    pub target: String,
    /// The part used for lookup: no alias, no `#heading`.
    pub path: String,
    pub alias: String,
    /// What to display: the alias when given, else the whole target.
    pub label: String,
}

/// Split "target|alias" into its parts, dropping any #heading from the path
/// used for lookup but keeping it in the default display text.
pub fn parse(raw: &str) -> (link: WikiLink)
    ensures
        (link.target@, link.path@, link.alias@, link.label@) == parse_spec(raw@),
{
    let chars = to_chars(raw);
    let (target_part, alias) = match find_char(&chars, '|', 0) {
        Some(k) => {
            proof {
                lemma_first_index(chars@, '|', k as int);
            }
            let after = chars_between(&chars, k + 1, chars.len());
            assert(after@ =~= chars@.skip(k + 1));
            (chars_between(&chars, 0, k), trim_chars(&after))
        },
        None => {
            assert(!has_char(chars@, '|'));
            assert(chars@.subrange(0, chars@.len() as int) =~= chars@);
            (chars_between(&chars, 0, chars.len()), Vec::new())
        },
    };
    let target = trim_chars(&target_part);
    let path = trim_chars(&chars_before(&target, '#'));
    let label = if alias.len() == 0 {
        string_of(&target, 0, target.len())
    } else {
        string_of(&alias, 0, alias.len())
    };
    assert(target@.subrange(0, target@.len() as int) =~= target@);
    assert(alias@.subrange(0, alias@.len() as int) =~= alias@);
    assert(path@.subrange(0, path@.len() as int) =~= path@);
    WikiLink {
        target: string_of(&target, 0, target.len()),
        path: string_of(&path, 0, path.len()),
        alias: string_of(&alias, 0, alias.len()),
        label,
    }
}

pub fn ascii_lower_char(c: char) -> (r: char)
    ensures
        r == ascii_lower(c),
{
    if 'A' <= c && c <= 'Z' {
        ((c as u8) + 32) as char
    } else {
        c
    }
}

pub fn chars_eq_ignore_ascii_case(a: &Vec<char>, b: &Vec<char>) -> (r: bool)
    ensures
        r == eq_ignore_ascii_case(a@, b@),
{
    if a.len() != b.len() {
        return false;
    }
    let mut i: usize = 0;
    while i < a.len()
        invariant
            a.len() == b.len(),
            i <= a.len(),
            forall|j: int| 0 <= j < i ==> ascii_lower(a@[j]) == ascii_lower(b@[j]),
        decreases a.len() - i,
    {
        if ascii_lower_char(a[i]) != ascii_lower_char(b[i]) {
            return false;
        }
        i += 1;
    }
    true
}

/// The first of `notes` equal to `cand` apart from ASCII case.
fn find_exact(notes: &Vec<Vec<char>>, cand: &Vec<char>) -> (r: Option<usize>)
    ensures
        match first_ci(crate::text::vviews(notes@), cand@) {
            Some(n) => r matches Some(i) && i < notes.len() && notes@[i as int]@ == n,
            None => r is None,
        },
{
    let ghost all = crate::text::vviews(notes@);
    let mut i: usize = 0;
    assert(all.skip(0) =~= all);
    while i < notes.len()
        invariant
            i <= notes.len(),
            all == crate::text::vviews(notes@),
            first_ci(all, cand@) == first_ci(all.skip(i as int), cand@),
        decreases notes.len() - i,
    {
        assert(all.skip(i as int).drop_first() =~= all.skip(i + 1));
        assert(all.skip(i as int)[0] == notes@[i as int]@);
        if chars_eq_ignore_ascii_case(&notes[i], cand) {
            return Some(i);
        }
        i += 1;
    }
    None
}

fn count_segments(v: &Vec<char>) -> (n: usize)
    ensures
        n == segment_count(v@),
{
    let mut n: usize = 0;
    let mut i: usize = 0;
    while i < v.len()
        invariant
            i <= v.len(),
            n == segment_count(v@.take(i as int)),
            n <= i,
        decreases v.len() - i,
    {
        assert(v@.take(i + 1 as int).drop_last() =~= v@.take(i as int));
        if v[i] == '/' {
            n += 1;
        }
        i += 1;
    }
    assert(v@.take(v.len() as int) =~= v@);
    n
}

pub fn is_less(a: &Vec<char>, b: &Vec<char>) -> (r: bool)
    ensures
        r == seq_lt(a@, b@),
{
    let mut i: usize = 0;
    assert(a@.skip(0) =~= a@);
    assert(b@.skip(0) =~= b@);
    while i < a.len() && i < b.len() && a[i] == b[i]
        invariant
            i <= a.len(),
            i <= b.len(),
            seq_lt(a@, b@) == seq_lt(a@.skip(i as int), b@.skip(i as int)),
        decreases a.len() - i,
    {
        assert(a@.skip(i as int).drop_first() =~= a@.skip(i + 1));
        assert(b@.skip(i as int).drop_first() =~= b@.skip(i + 1));
        i += 1;
    }
    if i == a.len() {
        assert(a@.skip(i as int).len() == 0);
        i < b.len()
    } else if i == b.len() {
        assert(b@.skip(i as int).len() == 0);
        false
    } else {
        let (x, y) = (a[i], b[i]);
        assert(a@.skip(i as int)[0] == x);
        assert(b@.skip(i as int)[0] == y);
        assert(a@.skip(i as int).len() > 0 && b@.skip(i as int).len() > 0);
        assert(x != y);
        proof {
            char_u32_cast(x, x as u32);
            char_u32_cast(y, y as u32);
        }
        assert((x as u32) != (y as u32));
        (x as u32) < (y as u32)
    }
}

fn near(p: &Vec<char>, dir: &Option<Vec<char>>) -> (r: u8)
    ensures
        r == nearness(p@, opt_chars(*dir)),
{
    match dir {
        Some(d) => {
            let mut prefix = chars_between(d, 0, d.len());
            assert(prefix@ =~= d@);
            prefix.push('/');
            if crate::text::starts_with_chars(p, &prefix) {
                0
            } else {
                1
            }
        },
        None => 1,
    }
}

/// The view of an optional character vector.
pub open spec fn opt_chars(o: Option<Vec<char>>) -> Option<Seq<char>> {
    match o {
        Some(v) => Some(v@),
        None => None,
    }
}

fn is_better(a: &Vec<char>, b: &Vec<char>, dir: &Option<Vec<char>>) -> (r: bool)
    ensures
        r == better(a@, b@, opt_chars(*dir)),
{
    let (na, nb) = (near(a, dir), near(b, dir));
    if na != nb {
        return na < nb;
    }
    let (ca, cb) = (count_segments(a), count_segments(b));
    if ca != cb {
        return ca < cb;
    }
    is_less(a, b)
}

/// Vault-relative path of the note a link points at, or None if nothing matches.
///
/// Order matters: an explicit path must win over a same-named note elsewhere,
/// or `[[projects/Ideas]]` could open the wrong Ideas. Whatever it resolves
/// to is one of the notes with the file name the link asks for, and it
/// resolves whenever there is such a note.
pub fn resolve(path: &str, from_note: Option<&str>, notes: &[String]) -> (r: Option<String>)
    ensures
        match resolve_spec(path@, crate::assets::opt_view(from_note), views(notes@)) {
            Some(p) => r is Some && r.unwrap()@ == p,
            None => r is None,
        },
        r is None <==> (path@.len() == 0 || forall|i: int|
            0 <= i < notes@.len() ==> !name_matches(#[trigger] views(notes@)[i], link_name(path@))),
        r matches Some(x) ==> views(notes@).contains(x@) && name_matches(x@, link_name(path@)),
{
    let p = to_chars(path);
    let md: Vec<char> = vec!['.', 'm', 'd'];
    assert(md@ =~= ".md"@) by {
        reveal_strlit(".md");
    }
    let ext = if ends_with_chars(&p, &md) {
        p
    } else {
        let mut e = chars_between(&p, 0, p.len());
        e.push('.');
        e.push('m');
        e.push('d');
        assert(e@ =~= p@ + md@);
        e
    };
    assert(ext@ == with_ext(path@));
    let last = match rfind_char(&ext, '/') {
        Some(i) => chars_between(&ext, i + 1, ext.len()),
        None => chars_between(&ext, 0, ext.len()),
    };
    assert(last@ =~= last_segment(ext@));
    assert(last@.subrange(0, last@.len() as int) =~= last@);
    let lowered = to_lowercase(string_of(&last, 0, last.len()).as_str());
    let wanted = to_chars(lowered.as_str());
    let r = resolve_in(path, from_note, notes, &wanted);
    proof {
        let nv = views(notes@);
        // Names differing from the asked-for name only in ASCII case lower-case alike.
        assert forall|i: int|
            0 <= i < nv.len() && eq_ignore_ascii_case(
                last_segment(#[trigger] nv[i]),
                last_segment(with_ext(path@)),
            ) implies lowercase(last_segment(nv[i])) == link_name(path@) by {
            assert(lowercase(last_segment(nv[i])) == lowered@);
        }
        link_resolves_to_a_note_of_its_name(path@, crate::assets::opt_view(from_note), nv);
    }
    r
}

fn resolve_in(path: &str, from_note: Option<&str>, notes: &[String], wanted: &Vec<char>) -> (r: Option<String>)
    requires
        path@.len() > 0 ==> wanted@ == link_name(path@),
    ensures
        match resolve_spec(path@, crate::assets::opt_view(from_note), views(notes@)) {
            Some(p) => r is Some && r.unwrap()@ == p,
            None => r is None,
        },
{
    if path.is_empty() {
        return None;
    }
    let p = to_chars(path);
    let md: Vec<char> = vec!['.', 'm', 'd'];
    assert(md@ =~= ".md"@) by {
        reveal_strlit(".md");
    }
    let ext = if ends_with_chars(&p, &md) {
        p
    } else {
        let mut e = chars_between(&p, 0, p.len());
        e.push('.');
        e.push('m');
        e.push('d');
        assert(e@ =~= p@ + md@);
        e
    };
    assert(ext@ == with_ext(path@));

    let dir: Option<Vec<char>> = match from_note {
        Some(note) => {
            let n = to_chars(note);
            match rfind_char(&n, '/') {
                Some(i) => Some(chars_between(&n, 0, i)),
                None => None,
            }
        },
        None => None,
    };
    assert(opt_chars(dir) == note_dir(crate::assets::opt_view(from_note)));

    let mut all: Vec<Vec<char>> = Vec::new();
    let mut k: usize = 0;
    while k < notes.len()
        invariant
            k <= notes.len(),
            crate::text::vviews(all@) == views(notes@).take(k as int),
        decreases notes.len() - k,
    {
        let ghost prev = crate::text::vviews(all@);
        assert(views(notes@)[k as int] == notes@[k as int]@);
        all.push(to_chars(notes[k].as_str()));
        assert(crate::text::vviews(all@) =~= prev.push(notes@[k as int]@));
        assert(views(notes@).take(k + 1 as int) =~= views(notes@).take(k as int).push(
            views(notes@)[k as int],
        ));
        k += 1;
        assert(crate::text::vviews(all@) =~= views(notes@).take(k as int));
    }
    assert(views(notes@).take(notes.len() as int) =~= views(notes@));
    let ghost nv = views(notes@);

    // 1. Beside the note that links to it, 2. from the vault root.
    if let Some(d) = &dir {
        let mut cand = chars_between(d, 0, d.len());
        cand.push('/');
        let mut j: usize = 0;
        while j < ext.len()
            invariant
                j <= ext.len(),
                cand@ == d@.push('/') + ext@.take(j as int),
            decreases ext.len() - j,
        {
            cand.push(ext[j]);
            j += 1;
            assert(cand@ =~= d@.push('/') + ext@.take(j as int));
        }
        assert(ext@.take(ext.len() as int) =~= ext@);
        if let Some(i) = find_exact(&all, &cand) {
            return Some(string_of(&all[i], 0, all[i].len()));
        }
    }
    if let Some(i) = find_exact(&all, &ext) {
        assert(all@[i as int]@.subrange(0, all@[i as int]@.len() as int) =~= all@[i as int]@);
        return Some(string_of(&all[i], 0, all[i].len()));
    }

    // 3. By filename anywhere. Several notes can share a name, so prefer the
    // nearest: same folder first, then the shallowest path, so the answer is
    // stable rather than dependent on directory-walk order.

    let mut best: Option<usize> = None;
    let mut i: usize = 0;
    while i < all.len()
        invariant
            i <= all.len(),
            nv == crate::text::vviews(all@),
            all.len() == notes.len(),
            best matches Some(b) ==> b < all.len(),
            best_from(nv, 0, None, wanted@, opt_chars(dir)) == best_from(
                nv,
                i as int,
                match best {
                    Some(b) => Some(all@[b as int]@),
                    None => None,
                },
                wanted@,
                opt_chars(dir),
            ),
        decreases all.len() - i,
    {
        let n = &all[i];
        let lastn = match rfind_char(n, '/') {
            Some(x) => chars_between(n, x + 1, n.len()),
            None => chars_between(n, 0, n.len()),
        };
        assert(lastn@ =~= last_segment(n@));
        let lower = to_chars(to_lowercase(string_of(&lastn, 0, lastn.len()).as_str()).as_str());
        assert(lastn@.subrange(0, lastn@.len() as int) =~= lastn@);
        assert(nv[i as int] == n@);
        if chars_eq(&lower, wanted) {
            match best {
                None => {
                    best = Some(i);
                },
                Some(b) => {
                    if is_better(n, &all[b], &dir) {
                        best = Some(i);
                    }
                },
            }
        }
        i += 1;
    }
    match best {
        Some(b) => Some(string_of(&all[b], 0, all[b].len())),
        None => None,
    }
}

// ── Link scanning ──

/// Index of the closing "]]" of a link body starting at byte `from`, or None
/// if what follows never closes as one.
///
/// Neither part may span a newline or contain a `]`, and the target may not
/// contain a `|` — that is what separates it from the alias.
fn link_body_end(text: &[u8], from: usize) -> (r: Option<usize>)
    ensures
        match link_close(text@, from as int, false, false) {
            Some(c) => r == Some(c as usize),
            None => r is None,
        },
{
    let mut seen_pipe = false;
    let mut has_target = false;
    let mut i = from;
    while i < text.len()
        invariant
            from <= i,
            link_close(text@, from as int, false, false) == link_close(
                text@,
                i as int,
                seen_pipe,
                has_target,
            ),
        decreases text.len() - i,
    {
        let b = text[i];
        if b == 10 {
            return None;
        } else if b == 93 {
            // Must be "]]", and the target must not have been empty.
            if !(i + 1 < text.len() && text[i + 1] == 93) || (!seen_pipe && !has_target) {
                return None;
            }
            return Some(i);
        } else if b == 124 {
            if seen_pipe || !has_target {
                return None;
            }
            seen_pipe = true;
        } else if !seen_pipe {
            has_target = true;
        }
        i += 1;
    }
    None
}

/// The byte range of the first `[[target|alias]]` at or after byte `from`.
fn next_link(text: &[u8], from: usize) -> (r: Option<(usize, usize)>)
    ensures
        match next_link_from(text@, from as int) {
            Some((s, e)) => r == Some((s as usize, e as usize)),
            None => r is None,
        },
{
    let mut search = from;
    while search < text.len() && text.len() - search > 1
        invariant
            from <= search,
            next_link_from(text@, from as int) == next_link_from(text@, search as int),
        decreases text.len() - search,
    {
        if text[search] == 91 && text[search + 1] == 91 {
            match link_body_end(text, search + 2) {
                Some(close) => {
                    proof {
                        lemma_link_close(text@, search + 2, false, false);
                    }
                    return Some((search, close + 2));
                },
                // Not a link after all — keep looking past these brackets.
                None => {
                    search = search + 2;
                },
            }
        } else {
            search = search + 1;
        }
    }
    None
}

/// Byte ranges of every `[[…]]` in `text`, code spans included.
///
/// For the renderer, which knows from the parse what is code and never offers
/// those runs here. A link may not span a newline, so this is safe to run over
/// a whole document.
pub fn all_ranges(text: &str) -> (found: Vec<(usize, usize)>)
    ensures
        found@.map_values(|r: (usize, usize)| (r.0 as int, r.1 as int)) == links_from(
            text.spec_bytes(),
            0,
        ),
{
    let bytes = text.as_bytes();
    let mut found: Vec<(usize, usize)> = Vec::new();
    let mut offset: usize = 0;
    loop
        invariant
            bytes@ == text.spec_bytes(),
            links_from(bytes@, 0) == found@.map_values(|r: (usize, usize)| (r.0 as int, r.1 as int))
                + links_from(bytes@, offset as int),
        decreases bytes.len() - offset,
    {
        proof {
            lemma_next_link(bytes@, offset as int);
        }
        match next_link(bytes, offset) {
            Some((start, end)) => {
                let ghost prev = found@.map_values(|r: (usize, usize)| (r.0 as int, r.1 as int));
                found.push((start, end));
                assert(found@.map_values(|r: (usize, usize)| (r.0 as int, r.1 as int)) =~= prev.push(
                    (start as int, end as int),
                ));
                assert(prev + links_from(bytes@, offset as int) =~= prev.push(
                    (start as int, end as int),
                ) + links_from(bytes@, end as int));
                offset = end;
            },
            None => {
                assert(links_from(bytes@, offset as int) =~= Seq::<(int, int)>::empty());
                assert(links_from(bytes@, 0) =~= found@.map_values(
                    |r: (usize, usize)| (r.0 as int, r.1 as int),
                ));
                return found;
            },
        }
    }
}

/// The int view of a list of byte ranges.
pub open spec fn spans_view(v: Seq<(usize, usize)>) -> Seq<(int, int)> {
    v.map_values(|r: (usize, usize)| (r.0 as int, r.1 as int))
}

/// Byte ranges of the `` `code spans` `` on one line.
pub fn code_spans(text: &str) -> (spans: Vec<(usize, usize)>)
    ensures
        spans_view(spans@) == code_spans_spec(text.spec_bytes()),
{
    let bytes = text.as_bytes();
    let mut spans: Vec<(usize, usize)> = Vec::new();
    let mut open: Option<usize> = None;
    let mut i: usize = 0;
    while i < bytes.len()
        invariant
            i <= bytes.len(),
            bytes@ == text.spec_bytes(),
            (spans_view(spans@), match open {
                Some(o) => Some(o as int),
                None => None,
            }) == spans_state(bytes@.take(i as int)),
            open matches Some(o) ==> o < i,
        decreases bytes.len() - i,
    {
        assert(bytes@.take(i + 1 as int).drop_last() =~= bytes@.take(i as int));
        if bytes[i] == 96 {
            match open {
                None => {
                    open = Some(i);
                },
                Some(start) => {
                    let ghost prev = spans_view(spans@);
                    spans.push((start, i + 1));
                    assert(spans_view(spans@) =~= prev.push((start as int, i + 1 as int)));
                    open = None;
                },
            }
        }
        i += 1;
    }
    assert(bytes@.take(bytes.len() as int) =~= bytes@);
    spans
}

fn in_code(code: &Vec<(usize, usize)>, p: usize) -> (r: bool)
    ensures
        r == in_spans(spans_view(code@), p as int),
{
    let mut k: usize = 0;
    while k < code.len()
        invariant
            k <= code.len(),
            forall|j: int| 0 <= j < k ==> !((#[trigger] code@[j]).0 <= p < code@[j].1),
        decreases code.len() - k,
    {
        if code[k].0 <= p && p < code[k].1 {
            assert(spans_view(code@)[k as int] == (code@[k as int].0 as int, code@[k as int].1 as int));
            return true;
        }
        k += 1;
    }
    assert forall|j: int| 0 <= j < spans_view(code@).len() implies !((
    #[trigger] spans_view(code@)[j]).0 <= p < spans_view(code@)[j].1) by {
        assert(spans_view(code@)[j] == (code@[j].0 as int, code@[j].1 as int));
    }
    false
}

/// Byte ranges of the `[[…]]` links on one line, skipping any inside a
/// `code span`.
///
/// For the editor overlay, which styles links in the raw source and has no
/// parse to consult, so it has to spot code spans itself.
pub fn ranges(text: &str) -> (found: Vec<(usize, usize)>)
    ensures
        spans_view(found@) == ranges_spec(text.spec_bytes()),
{
    let code = code_spans(text);
    let ghost cv = spans_view(code@);
    let bytes = text.as_bytes();
    let mut found: Vec<(usize, usize)> = Vec::new();
    let mut offset: usize = 0;
    loop
        invariant
            bytes@ == text.spec_bytes(),
            cv == spans_view(code@),
            cv == code_spans_spec(bytes@),
            kept_from(bytes@, 0, cv) == spans_view(found@) + kept_from(bytes@, offset as int, cv),
        decreases bytes.len() - offset,
    {
        proof {
            lemma_next_link(bytes@, offset as int);
        }
        match next_link(bytes, offset) {
            Some((start, end)) => {
                let ghost prev = spans_view(found@);
                if !in_code(&code, start) {
                    found.push((start, end));
                    assert(spans_view(found@) =~= prev.push((start as int, end as int)));
                    assert(prev + kept_from(bytes@, offset as int, cv) =~= prev.push(
                        (start as int, end as int),
                    ) + kept_from(bytes@, end as int, cv));
                }
                offset = end;
            },
            None => {
                assert(kept_from(bytes@, offset as int, cv) =~= Seq::<(int, int)>::empty());
                assert(kept_from(bytes@, 0, cv) =~= spans_view(found@));
                return found;
            },
        }
    }
}

/// The first of `links` containing byte `offset`, start and end included.
pub open spec fn first_containing(links: Seq<(int, int)>, offset: int) -> Option<(int, int)>
    decreases links.len(),
{
    if links.len() == 0 {
        None
    } else if links[0].0 <= offset <= links[0].1 {
        Some(links[0])
    } else {
        first_containing(links.drop_first(), offset)
    }
}

/// The link surrounding a byte offset, if the offset is inside one.
///
/// Returns the raw body — "target" or "target|alias" — ready for `parse`.
pub fn link_at(line: &str, offset: usize) -> (r: Option<String>)
    ensures
        match first_containing(ranges_spec(line.spec_bytes()), offset as int) {
            Some((s, e)) => r is Some && encode_utf8(r.unwrap()@) == line.spec_bytes().subrange(
                s + 2,
                e - 2,
            ),
            None => r is None,
        },
{
    let found = ranges(line);
    let ghost all = spans_view(found@);
    let mut k: usize = 0;
    assert(all.skip(0) =~= all);
    while k < found.len()
        invariant
            k <= found.len(),
            all == spans_view(found@),
            all == ranges_spec(line.spec_bytes()),
            first_containing(all, offset as int) == first_containing(all.skip(k as int), offset as int),
        decreases found.len() - k,
    {
        let (start, end) = found[k];
        assert(all.skip(k as int)[0] == (start as int, end as int));
        assert(all.skip(k as int).drop_first() =~= all.skip(k + 1));
        if offset >= start && offset <= end {
            let bytes = line.as_bytes();
            assert(all[k as int] == (start as int, end as int));
            proof {
                lemma_kept_from(line.spec_bytes(), 0, code_spans_spec(line.spec_bytes()));
                assert(kept_from(bytes@, 0, code_spans_spec(bytes@))[k as int].0 == start);
            }
            assert(is_link(bytes@, start as int, end as int));
            proof {
                lemma_ascii_boundaries(bytes@, start + 1);
            }
            let (_, tail) = line.split_at(start + 2);
            proof {
                let tb = tail.spec_bytes();
                assert(tb =~= bytes@.subrange(start + 2, bytes@.len() as int));
                assert(tb[end - 4 - start] == 93u8);
                is_char_boundary_iff_not_is_continuation_byte(tb, end - 4 - start);
            }
            let (body, _) = tail.split_at(end - 4 - start);
            assert(body.spec_bytes() =~= bytes@.subrange(start + 2, end - 2));
            return Some(body.to_owned());
        }
        k += 1;
    }
    None
}

} // verus!
