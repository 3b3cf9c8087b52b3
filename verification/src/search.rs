//! Full-text search across the vault's notes.
//!
//! Case-insensitive: the query and each line are lower-cased before they are
//! compared. One result per matching note, with its first matching line as a
//! snippet so the sidebar can show context without shipping whole notes.
use vstd::prelude::*;
use crate::api::{SearchResponse, SearchResult};
use crate::text::{
    chars_eq, lemma_join_split, lowercase, split_chars, split_on, string_of, to_chars,
    to_lowercase, trim, trim_bounds, vviews,
};
use crate::sorting::{lemma_lt_irreflexive, lemma_lt_total, lemma_lt_transitive};
use crate::wikilinks::{is_less, seq_lt};

verus! {

/// How many results a search returns when the request names no limit.
pub fn default_limit() -> (n: usize)
    ensures
        n == 100,
{
    100
}

/// A search request: the query text and how many results it wants.
#[derive(Debug, Clone)]
pub struct SearchQuery {
    pub q: String,
    pub limit: usize,
}

/// A note as search reads it: its path relative to the vault, its file name
/// and its text.
#[derive(Debug, Clone)]
pub struct NoteText {
    pub path: String,
    pub name: String,
    pub text: String,
}

// ── Specifications ──

/// `needle` occurs in `haystack`.
pub open spec fn contains_chars(haystack: Seq<char>, needle: Seq<char>) -> bool {
    exists|i: int|
        0 <= i && i + needle.len() <= haystack.len() && #[trigger] haystack.subrange(
            i,
            i + needle.len(),
        ) == needle
}

/// A line without the '\r' of a "\r\n" ending.
pub open spec fn strip_cr(line: Seq<char>) -> Seq<char> {
    if line.len() > 0 && line.last() == '\r' {
        line.drop_last()
    } else {
        line
    }
}

/// What `str::lines` yields: the pieces between '\n's, each without the '\r'
/// of a "\r\n"; a final empty piece (text ending in '\n', or no text) is no
/// line.
pub open spec fn lines_spec(text: Seq<char>) -> Seq<Seq<char>> {
    let parts = split_on(text, '\n');
    let body = parts.drop_last().map_values(|p: Seq<char>| strip_cr(p));
    if parts.last().len() == 0 {
        body
    } else {
        body.push(parts.last())
    }
}

/// The first line whose lower-cased text holds `needle`.
pub open spec fn first_matching(lines: Seq<Seq<char>>, needle: Seq<char>) -> Option<Seq<char>>
    decreases lines.len(),
{
    if lines.len() == 0 {
        None
    } else if contains_chars(lowercase(lines[0]), needle) {
        Some(lines[0])
    } else {
        first_matching(lines.drop_first(), needle)
    }
}

/// The first `n` characters of `s`, or all of it.
pub open spec fn take_chars(s: Seq<char>, n: nat) -> Seq<char> {
    if s.len() <= n {
        s
    } else {
        s.take(n as int)
    }
}

/// The snippet shown for a note: its first matching line, trimmed and cut to
/// 160 characters; empty when no line matches.
pub open spec fn snippet_spec(text: Seq<char>, needle: Seq<char>) -> Seq<char> {
    match first_matching(lines_spec(text), needle) {
        Some(line) => take_chars(trim(line), 160),
        None => Seq::empty(),
    }
}

/// A note is a result when a line matches or its file name does.
pub open spec fn is_hit(note: NoteText, needle: Seq<char>) -> bool {
    snippet_spec(note.text@, needle).len() > 0 || contains_chars(lowercase(note.name@), needle)
}

/// A result as (path, name, snippet).
pub open spec fn result_view(r: SearchResult) -> (Seq<char>, Seq<char>, Seq<char>) {
    (r.path@, r.name@, r.snippet@)
}

pub open spec fn hit_view(note: NoteText, needle: Seq<char>) -> (Seq<char>, Seq<char>, Seq<char>) {
    (note.path@, note.name@, snippet_spec(note.text@, needle))
}

/// The results for `notes[i..]`, given those found before: the notes are
/// read in order, and reading stops once `limit` results are found, checked
/// after each note (so a limit of 0 still reads the first note).
pub open spec fn search_from(
    notes: Seq<NoteText>,
    needle: Seq<char>,
    limit: nat,
    i: int,
    found: Seq<(Seq<char>, Seq<char>, Seq<char>)>,
) -> Seq<(Seq<char>, Seq<char>, Seq<char>)>
    decreases notes.len() - i,
{
    if i < 0 || i >= notes.len() {
        found
    } else {
        let more = if is_hit(notes[i], needle) {
            found.push(hit_view(notes[i], needle))
        } else {
            found
        };
        if more.len() >= limit {
            more
        } else {
            search_from(notes, needle, limit, i + 1, more)
        }
    }
}

// ── Executable ──

/// Whether `needle` occurs in `haystack`.
pub fn contains_exec(haystack: &Vec<char>, needle: &Vec<char>) -> (b: bool)
    ensures
        b == contains_chars(haystack@, needle@),
{
    let n = needle.len();
    if n == 0 {
        assert(haystack@.subrange(0, 0 + needle@.len() as int) =~= needle@);
        return true;
    }
    if n > haystack.len() {
        return false;
    }
    let last: usize = haystack.len() - n;
    let mut i: usize = 0;
    while i <= last
        invariant
            n == needle@.len(),
            0 < n <= haystack.len(),
            last == haystack.len() - n,
            i <= last + 1,
            forall|k: int| 0 <= k < i ==> #[trigger] haystack@.subrange(k, k + n) != needle@,
        decreases last + 1 - i,
    {
        let mut j: usize = 0;
        while j < n && haystack[i + j] == needle[j]
            invariant
                i <= last,
                last == haystack.len() - n,
                n == needle@.len(),
                j <= n,
                forall|t: int| 0 <= t < j ==> haystack@[i + t] == needle@[t],
            decreases n - j,
        {
            j += 1;
        }
        if j == n {
            assert(haystack@.subrange(i as int, i + n) =~= needle@);
            return true;
        }
        assert(haystack@.subrange(i as int, i + n)[j as int] != needle@[j as int]);
        i += 1;
    }
    assert forall|k: int| 0 <= k && k + n <= haystack@.len() implies #[trigger] haystack@.subrange(
        k,
        k + n,
    ) != needle@ by {}
    false
}

/// The lines of a text, as `str::lines` yields them.
pub fn lines(text: &Vec<char>) -> (out: Vec<Vec<char>>)
    ensures
        vviews(out@) == lines_spec(text@),
{
    let parts = split_chars(text, '\n');
    let ghost all = vviews(parts@);
    proof {
        crate::text::lemma_split_on_len(text@, '\n');
    }
    let count = parts.len();
    let mut out: Vec<Vec<char>> = Vec::new();
    let mut i: usize = 0;
    while i + 1 < count
        invariant
            count == parts.len(),
            count >= 1,
            i + 1 <= count,
            all == vviews(parts@),
            vviews(out@) == all.take(i as int).map_values(|p: Seq<char>| strip_cr(p)),
        decreases count - i,
    {
        let p = &parts[i];
        let mut line = crate::text::chars_between(p, 0, p.len());
        assert(p@.subrange(0, p@.len() as int) =~= p@);
        if line.len() > 0 && line[line.len() - 1] == '\r' {
            line.pop();
        }
        assert(line@ == strip_cr(all[i as int]));
        out.push(line);
        assert(all.take(i + 1 as int).map_values(|p: Seq<char>| strip_cr(p)) =~= all.take(
            i as int,
        ).map_values(|p: Seq<char>| strip_cr(p)).push(strip_cr(all[i as int])));
        i += 1;
    }
    assert(all.take(i as int) =~= all.drop_last());
    let last = &parts[count - 1];
    if last.len() > 0 {
        let l = crate::text::chars_between(last, 0, last.len());
        assert(last@.subrange(0, last@.len() as int) =~= last@);
        out.push(l);
    }
    out
}

/// The first `limit` characters of `text`: slicing by bytes could cut a
/// character in half.
pub fn truncate_chars(text: &str, limit: usize) -> (r: String)
    ensures
        r@ == take_chars(text@, limit as nat),
{
    let chars = to_chars(text);
    if chars.len() <= limit {
        String::from_str(text)
    } else {
        let r = string_of(&chars, 0, limit);
        assert(chars@.subrange(0, limit as int) =~= chars@.take(limit as int));
        r
    }
}

fn lowered(v: &Vec<char>) -> (r: Vec<char>)
    ensures
        r@ == lowercase(v@),
{
    let s = string_of(v, 0, v.len());
    assert(v@.subrange(0, v@.len() as int) =~= v@);
    let l = to_lowercase(s.as_str());
    to_chars(l.as_str())
}

/// The snippet for a note's text: its first matching line, trimmed and cut
/// to 160 characters, or "".
pub fn snippet(text: &str, needle: &Vec<char>) -> (r: String)
    ensures
        r@ == snippet_spec(text@, needle@),
{
    let chars = to_chars(text);
    let ls = lines(&chars);
    let ghost all = vviews(ls@);
    let mut i: usize = 0;
    assert(all.skip(0) =~= all);
    while i < ls.len()
        invariant
            i <= ls.len(),
            all == vviews(ls@),
            all == lines_spec(text@),
            first_matching(all.skip(i as int), needle@) == first_matching(all, needle@),
        decreases ls.len() - i,
    {
        let low = lowered(&ls[i]);
        assert(all.skip(i as int)[0] == all[i as int]);
        if contains_exec(&low, needle) {
            let (a, b) = trim_bounds(&ls[i]);
            let t = string_of(&ls[i], a, b);
            return truncate_chars(t.as_str(), 160);
        }
        assert(all.skip(i as int).drop_first() =~= all.skip(i + 1));
        i += 1;
    }
    String::new()
}

/// The lower-cased, trimmed query; `None` when nothing is left to search for.
pub fn search_needle(q: &str) -> (r: Option<String>)
    ensures
        match r {
            Some(n) => n@ == lowercase(trim(q@)) && n@.len() > 0,
            None => lowercase(trim(q@)).len() == 0,
        },
{
    let chars = to_chars(q);
    let (a, b) = trim_bounds(&chars);
    let t = string_of(&chars, a, b);
    let n = to_lowercase(t.as_str());
    if to_chars(n.as_str()).len() == 0 {
        None
    } else {
        Some(n)
    }
}

/// The results for `needle` among `notes`, read in order until `limit`
/// results are found.
pub fn search_notes(needle: &str, limit: usize, notes: &Vec<NoteText>) -> (found: Vec<SearchResult>)
    ensures
        found@.map_values(|r: SearchResult| result_view(r)) == search_from(
            notes@,
            needle@,
            limit as nat,
            0,
            Seq::empty(),
        ),
{
    let nc = to_chars(needle);
    let mut found: Vec<SearchResult> = Vec::new();
    let mut i: usize = 0;
    assert(found@.map_values(|r: SearchResult| result_view(r)) =~= Seq::empty());
    while i < notes.len()
        invariant
            i <= notes.len(),
            nc@ == needle@,
            found.len() < limit || i == 0,
            search_from(notes@, needle@, limit as nat, i as int, found@.map_values(
                |r: SearchResult| result_view(r),
            )) == search_from(notes@, needle@, limit as nat, 0, Seq::empty()),
        decreases notes.len() - i,
    {
        let note = &notes[i];
        let ghost before = found@.map_values(|r: SearchResult| result_view(r));
        let name_low = lowered(&to_chars(note.name.as_str()));
        let name_hit = contains_exec(&name_low, &nc);
        let snip = snippet(note.text.as_str(), &nc);
        if to_chars(snip.as_str()).len() > 0 || name_hit {
            found.push(
                SearchResult {
                    path: note.path.clone(),
                    name: note.name.clone(),
                    snippet: snip,
                },
            );
            assert(found@.map_values(|r: SearchResult| result_view(r)) =~= before.push(
                hit_view(notes@[i as int], needle@),
            ));
        }
        if found.len() >= limit {
            return found;
        }
        i += 1;
    }
    found
}

/// A search: the lower-cased, trimmed query looked for in `notes`, read in
/// ascending path order, which the caller reads only when there is a query at
/// all. The results come in ascending path order.
pub fn search(query: String, limit: usize, notes: Vec<NoteText>) -> (r: SearchResponse)
    ensures
        r.query@ == query@,
        lowercase(trim(query@)).len() == 0 ==> r.results@.len() == 0,
        lowercase(trim(query@)).len() > 0 ==> exists|sorted: Seq<NoteText>|
            #[trigger] path_sort_of(sorted, notes@) && r.results@.map_values(
                |x: SearchResult| result_view(x),
            ) == search_from(sorted, lowercase(trim(query@)), limit as nat, 0, Seq::empty()),
        forall|i: int, j: int|
            0 <= i < j < r.results@.len() ==> !path_lt(
                (#[trigger] r.results@[j]).path@,
                (#[trigger] r.results@[i]).path@,
            ),
{
    let results = match search_needle(query.as_str()) {
        Some(needle) => {
            let sorted = sort_by_path(notes);
            let found = search_notes(needle.as_str(), limit, &sorted);
            proof {
                lemma_search_ascending(sorted@, needle@, limit as nat, 0, Seq::empty());
                assert forall|i: int, j: int| 0 <= i < j < found@.len() implies !path_lt(
                    (#[trigger] found@[j]).path@,
                    (#[trigger] found@[i]).path@,
                ) by {
                    let v = found@.map_values(|x: SearchResult| result_view(x));
                    assert(v[i].0 == found@[i].path@ && v[j].0 == found@[j].path@);
                }
            }
            found
        },
        None => Vec::new(),
    };
    SearchResponse { query, results }
}

// ── A note named like the query is found ──

proof fn lemma_search_prefix(
    notes: Seq<NoteText>,
    needle: Seq<char>,
    limit: nat,
    i: int,
    found: Seq<(Seq<char>, Seq<char>, Seq<char>)>,
)
    requires
        0 <= i,
    ensures
        search_from(notes, needle, limit, i, found).len() >= found.len(),
        forall|k: int|
            0 <= k < found.len() ==> #[trigger] search_from(notes, needle, limit, i, found)[k]
                == found[k],
    decreases notes.len() - i,
{
    if i < notes.len() {
        let more = if is_hit(notes[i], needle) {
            found.push(hit_view(notes[i], needle))
        } else {
            found
        };
        if more.len() < limit {
            lemma_search_prefix(notes, needle, limit, i + 1, more);
            assert forall|k: int| 0 <= k < found.len() implies #[trigger] search_from(
                notes,
                needle,
                limit,
                i,
                found,
            )[k] == found[k] by {
                assert(more[k] == found[k]);
                assert(search_from(notes, needle, limit, i + 1, more)[k] == more[k]);
            }
        } else {
            assert forall|k: int| 0 <= k < found.len() implies #[trigger] search_from(
                notes,
                needle,
                limit,
                i,
                found,
            )[k] == found[k] by {
                assert(more[k] == found[k]);
            }
        }
    }
}

proof fn lemma_name_match_found(
    notes: Seq<NoteText>,
    needle: Seq<char>,
    limit: nat,
    i: int,
    found: Seq<(Seq<char>, Seq<char>, Seq<char>)>,
    j: int,
)
    requires
        0 <= i <= j < notes.len(),
        contains_chars(lowercase(notes[j].name@), needle),
        search_from(notes, needle, limit, i, found).len() < limit,
    ensures
        exists|k: int|
            0 <= k < search_from(notes, needle, limit, i, found).len() && (#[trigger] search_from(
                notes,
                needle,
                limit,
                i,
                found,
            )[k]).0 == notes[j].path@ && search_from(notes, needle, limit, i, found)[k].1
                == notes[j].name@,
    decreases notes.len() - i,
{
    let more = if is_hit(notes[i], needle) {
        found.push(hit_view(notes[i], needle))
    } else {
        found
    };
    let r = search_from(notes, needle, limit, i, found);
    if more.len() >= limit {
        assert(r == more);
        assert(false);
    }
    assert(r == search_from(notes, needle, limit, i + 1, more));
    if i == j {
        lemma_search_prefix(notes, needle, limit, i + 1, more);
        let k = found.len() as int;
        assert(r[k] == more[k]);
    } else {
        lemma_name_match_found(notes, needle, limit, i + 1, more, j);
    }
}

/// Search compares file names case-insensitively: a note whose file name,
/// lower-cased, holds the needle is among the results, with its path and
/// name, unless the limit was reached first.
pub proof fn notes_named_like_the_query_are_found(
    notes: Seq<NoteText>,
    needle: Seq<char>,
    limit: nat,
    j: int,
)
    requires
        0 <= j < notes.len(),
        contains_chars(lowercase(notes[j].name@), needle),
        search_from(notes, needle, limit, 0, Seq::empty()).len() < limit,
    ensures
        exists|k: int|
            0 <= k < search_from(notes, needle, limit, 0, Seq::empty()).len() && (
            #[trigger] search_from(notes, needle, limit, 0, Seq::empty())[k]).0 == notes[j].path@
                && search_from(notes, needle, limit, 0, Seq::empty())[k].1 == notes[j].name@,
{
    lemma_name_match_found(notes, needle, limit, 0, Seq::empty(), j);
}

// ── Path order ──

/// Paths compared component by component, as `Path`'s order does: the first
/// differing component decides, compared as text, and a path whose
/// components begin the other's comes first.
pub open spec fn parts_lt(a: Seq<Seq<char>>, b: Seq<Seq<char>>) -> bool
    decreases a.len(),
{
    if a.len() == 0 {
        b.len() > 0
    } else if b.len() == 0 {
        false
    } else if a[0] == b[0] {
        parts_lt(a.drop_first(), b.drop_first())
    } else {
        seq_lt(a[0], b[0])
    }
}

/// `a` comes before `b` in path order, their components being the pieces
/// between '/'s.
pub open spec fn path_lt(a: Seq<char>, b: Seq<char>) -> bool {
    parts_lt(split_on(a, '/'), split_on(b, '/'))
}

proof fn lemma_parts_order(a: Seq<Seq<char>>, b: Seq<Seq<char>>, c: Seq<Seq<char>>)
    ensures
        !parts_lt(a, a),
        a == b || parts_lt(a, b) || parts_lt(b, a),
        parts_lt(a, b) && parts_lt(b, c) ==> parts_lt(a, c),
    decreases a.len(),
{
    if a.len() > 0 {
        if b.len() > 0 && c.len() > 0 {
            lemma_parts_order(a.drop_first(), b.drop_first(), c.drop_first());
        } else if b.len() > 0 {
            lemma_parts_order(a.drop_first(), b.drop_first(), b.drop_first());
        } else {
            lemma_parts_order(a.drop_first(), a.drop_first(), a.drop_first());
        }
        lemma_lt_irreflexive(a[0]);
        if b.len() > 0 {
            lemma_lt_total(a[0], b[0]);
            if a[0] == b[0] && a.drop_first() == b.drop_first() {
                assert(a =~= seq![a[0]] + a.drop_first());
                assert(b =~= seq![b[0]] + b.drop_first());
            }
            if c.len() > 0 && parts_lt(a, b) && parts_lt(b, c) {
                if a[0] != b[0] && b[0] != c[0] {
                    lemma_lt_transitive(a[0], b[0], c[0]);
                    lemma_lt_irreflexive(c[0]);
                }
                if a[0] != b[0] && b[0] == c[0] {
                    lemma_lt_irreflexive(b[0]);
                }
            }
        }
    } else if b.len() == 0 {
        assert(a =~= b);
    }
}

/// Path order is a strict total order on paths.
pub proof fn path_order(a: Seq<char>, b: Seq<char>, c: Seq<char>)
    ensures
        !path_lt(a, a),
        a == b || path_lt(a, b) || path_lt(b, a),
        path_lt(a, b) && path_lt(b, c) ==> path_lt(a, c),
{
    lemma_parts_order(split_on(a, '/'), split_on(b, '/'), split_on(c, '/'));
    lemma_join_split(a, '/');
    lemma_join_split(b, '/');
}

// ── Sorting notes by path ──

/// No note comes after a later one in path order.
pub open spec fn sorted_by_path(s: Seq<NoteText>) -> bool {
    forall|i: int, j: int|
        0 <= i < j < s.len() ==> !path_lt((#[trigger] s[j]).path@, (#[trigger] s[i]).path@)
}

/// The notes of `s` whose path is `k`, in their order in `s`.
pub open spec fn with_path(s: Seq<NoteText>, k: Seq<char>) -> Seq<NoteText>
    decreases s.len(),
{
    if s.len() == 0 {
        s
    } else {
        let r = with_path(s.drop_last(), k);
        if s.last().path@ == k {
            r.push(s.last())
        } else {
            r
        }
    }
}

/// `out` is `input` sorted by path, notes with the same path kept in the
/// order they came.
pub open spec fn path_sort_of(out: Seq<NoteText>, input: Seq<NoteText>) -> bool {
    &&& sorted_by_path(out)
    &&& forall|k: Seq<char>| #[trigger] with_path(out, k) == with_path(input, k)
}

proof fn lemma_with_path_add(a: Seq<NoteText>, b: Seq<NoteText>, k: Seq<char>)
    ensures
        with_path(a + b, k) == with_path(a, k) + with_path(b, k),
    decreases b.len(),
{
    if b.len() == 0 {
        assert(a + b =~= a);
        assert(with_path(a, k) + with_path(b, k) =~= with_path(a, k));
    } else {
        lemma_with_path_add(a, b.drop_last(), k);
        assert((a + b).drop_last() =~= a + b.drop_last());
        assert((a + b).last() == b.last());
        if b.last().path@ == k {
            assert(with_path(a, k) + with_path(b.drop_last(), k).push(b.last()) =~= (with_path(a, k)
                + with_path(b.drop_last(), k)).push(b.last()));
        }
    }
}

proof fn lemma_with_path_none(s: Seq<NoteText>, k: Seq<char>)
    requires
        forall|i: int| 0 <= i < s.len() ==> (#[trigger] s[i]).path@ != k,
    ensures
        with_path(s, k) == Seq::<NoteText>::empty(),
    decreases s.len(),
{
    if s.len() > 0 {
        lemma_with_path_none(s.drop_last(), k);
        assert(s.last() == s[s.len() - 1]);
    }
}

proof fn lemma_with_path_single(x: NoteText, k: Seq<char>)
    ensures
        with_path(seq![x], k) == if x.path@ == k {
            seq![x]
        } else {
            Seq::empty()
        },
{
    let one = seq![x];
    assert(one.drop_last() =~= Seq::<NoteText>::empty());
    assert(one.last() == x);
    assert(with_path(one.drop_last(), k) == Seq::<NoteText>::empty());
    if x.path@ == k {
        assert(Seq::<NoteText>::empty().push(x) =~= seq![x]);
    }
}

/// Inserting `x` after every note not after it and before every note after
/// it keeps the order and adds `x` last among the notes of its path.
proof fn lemma_insert_by_path(s: Seq<NoteText>, p: int, x: NoteText)
    requires
        0 <= p <= s.len(),
        sorted_by_path(s),
        forall|i: int| 0 <= i < p ==> !path_lt(x.path@, (#[trigger] s[i]).path@),
        forall|i: int| p <= i < s.len() ==> path_lt(x.path@, (#[trigger] s[i]).path@),
    ensures
        sorted_by_path(s.insert(p, x)),
        forall|k: Seq<char>|
            #[trigger] with_path(s.insert(p, x), k) == if x.path@ == k {
                with_path(s, k).push(x)
            } else {
                with_path(s, k)
            },
{
    let t = s.insert(p, x);
    assert forall|i: int, j: int| 0 <= i < j < t.len() implies !path_lt(
        (#[trigger] t[j]).path@,
        (#[trigger] t[i]).path@,
    ) by {
        if j < p {
            assert(t[i] == s[i] && t[j] == s[j]);
        } else if j == p {
            assert(t[i] == s[i] && t[j] == x);
        } else if i == p {
            assert(t[i] == x && t[j] == s[j - 1]);
            path_order(x.path@, s[j - 1].path@, x.path@);
        } else if i < p {
            assert(t[i] == s[i] && t[j] == s[j - 1]);
        } else {
            assert(t[i] == s[i - 1] && t[j] == s[j - 1]);
        }
    }
    let front = s.take(p);
    let back = s.skip(p);
    assert(t =~= front + seq![x] + back);
    assert(s =~= front + back);
    assert forall|k: Seq<char>|
        #[trigger] with_path(t, k) == if x.path@ == k {
            with_path(s, k).push(x)
        } else {
            with_path(s, k)
        } by {
        lemma_with_path_add(front + seq![x], back, k);
        lemma_with_path_add(front, seq![x], k);
        lemma_with_path_add(front, back, k);
        lemma_with_path_single(x, k);
        if x.path@ == k {
            assert forall|i: int| 0 <= i < back.len() implies (#[trigger] back[i]).path@ != k by {
                assert(back[i] == s[p + i]);
                path_order(k, k, k);
            }
            lemma_with_path_none(back, k);
            assert(with_path(front, k) + seq![x] + Seq::<NoteText>::empty() =~= (with_path(front, k)
                + Seq::<NoteText>::empty()).push(x));
        } else {
            assert(with_path(front, k) + Seq::<NoteText>::empty() =~= with_path(front, k));
        }
    }
}

/// Whether path `a` comes before path `b`.
pub fn path_less(a: &str, b: &str) -> (r: bool)
    ensures
        r == path_lt(a@, b@),
{
    let ap = split_chars(&to_chars(a), '/');
    let bp = split_chars(&to_chars(b), '/');
    let ghost av = vviews(ap@);
    let ghost bv = vviews(bp@);
    let mut i: usize = 0;
    assert(av.skip(0) =~= av);
    assert(bv.skip(0) =~= bv);
    while i < ap.len() && i < bp.len() && chars_eq(&ap[i], &bp[i])
        invariant
            i <= ap.len(),
            i <= bp.len(),
            av == vviews(ap@),
            bv == vviews(bp@),
            av == split_on(a@, '/'),
            bv == split_on(b@, '/'),
            path_lt(a@, b@) == parts_lt(av.skip(i as int), bv.skip(i as int)),
        decreases ap.len() - i,
    {
        assert(av.skip(i as int)[0] == ap@[i as int]@);
        assert(bv.skip(i as int)[0] == bp@[i as int]@);
        assert(av.skip(i as int).drop_first() =~= av.skip(i + 1));
        assert(bv.skip(i as int).drop_first() =~= bv.skip(i + 1));
        i += 1;
    }
    if i == ap.len() {
        assert(av.skip(i as int).len() == 0);
        i < bp.len()
    } else if i == bp.len() {
        assert(bv.skip(i as int).len() == 0);
        false
    } else {
        assert(av.skip(i as int)[0] == ap@[i as int]@);
        assert(bv.skip(i as int)[0] == bp@[i as int]@);
        is_less(&ap[i], &bp[i])
    }
}

/// The notes sorted by path, notes with the same path in the order they
/// came (what sorting the paths with `Path`'s order gives).
pub fn sort_by_path(notes: Vec<NoteText>) -> (out: Vec<NoteText>)
    ensures
        path_sort_of(out@, notes@),
{
    let ghost orig = notes@;
    let mut rest = notes;
    let mut out: Vec<NoteText> = Vec::new();
    while rest.len() > 0
        invariant
            rest.len() <= orig.len(),
            rest@ == orig.skip(orig.len() - rest.len()),
            sorted_by_path(out@),
            forall|k: Seq<char>|
                #[trigger] with_path(out@, k) == with_path(orig.take(orig.len() - rest.len()), k),
        decreases rest.len(),
    {
        let ghost n = orig.len() - rest.len();
        let x = rest.remove(0);
        assert(x == orig[n]);
        assert(rest@ =~= orig.skip(orig.len() - rest.len()));
        let mut p: usize = 0;
        while p < out.len() && !path_less(x.path.as_str(), out[p].path.as_str())
            invariant
                p <= out.len(),
                forall|i: int| 0 <= i < p ==> !path_lt(x.path@, (#[trigger] out@[i]).path@),
            decreases out.len() - p,
        {
            p += 1;
        }
        proof {
            assert forall|i: int| p <= i < out@.len() implies path_lt(
                x.path@,
                (#[trigger] out@[i]).path@,
            ) by {
                if i > p {
                    path_order(x.path@, out@[p as int].path@, out@[i].path@);
                    path_order(out@[p as int].path@, out@[i].path@, out@[i].path@);
                }
            }
            lemma_insert_by_path(out@, p as int, x);
            assert(orig.take(n + 1).drop_last() =~= orig.take(n));
            assert(orig.take(n + 1).last() == x);
        }
        out.insert(p, x);
    }
    assert(orig.take(orig.len() as int) =~= orig);
    out
}

/// Searching notes sorted by path finds them in ascending path order.
proof fn lemma_search_ascending(
    notes: Seq<NoteText>,
    needle: Seq<char>,
    limit: nat,
    i: int,
    found: Seq<(Seq<char>, Seq<char>, Seq<char>)>,
)
    requires
        0 <= i,
        sorted_by_path(notes),
        forall|a: int, b: int| 0 <= a < b < found.len() ==> !path_lt(
            (#[trigger] found[b]).0,
            (#[trigger] found[a]).0,
        ),
        forall|a: int, m: int|
            0 <= a < found.len() && i <= m < notes.len() ==> !path_lt(
                (#[trigger] notes[m]).path@,
                (#[trigger] found[a]).0,
            ),
    ensures
        ({
            let r = search_from(notes, needle, limit, i, found);
            forall|a: int, b: int| 0 <= a < b < r.len() ==> !path_lt(
                (#[trigger] r[b]).0,
                (#[trigger] r[a]).0,
            )
        }),
    decreases notes.len() - i,
{
    if i < notes.len() {
        let more = if is_hit(notes[i], needle) {
            found.push(hit_view(notes[i], needle))
        } else {
            found
        };
        assert forall|a: int, b: int| 0 <= a < b < more.len() implies !path_lt(
            (#[trigger] more[b]).0,
            (#[trigger] more[a]).0,
        ) by {
            if b == found.len() {
                assert(more[b].0 == notes[i].path@);
                assert(more[a] == found[a]);
            } else {
                assert(more[a] == found[a] && more[b] == found[b]);
            }
        }
        assert forall|a: int, m: int| 0 <= a < more.len() && i + 1 <= m < notes.len() implies !path_lt(
            (#[trigger] notes[m]).path@,
            (#[trigger] more[a]).0,
        ) by {
            if a == found.len() {
                assert(more[a].0 == notes[i].path@);
            } else {
                assert(more[a] == found[a]);
            }
        }
        if more.len() < limit {
            lemma_search_ascending(notes, needle, limit, i + 1, more);
            assert(search_from(notes, needle, limit, i, found) == search_from(
                notes,
                needle,
                limit,
                i + 1,
                more,
            ));
        } else {
            assert(search_from(notes, needle, limit, i, found) == more);
        }
    } else {
        assert(search_from(notes, needle, limit, i, found) == found);
    }
}

/// A search returns at most `limit` results (one when the limit is 0, since
/// the limit is checked after each note), and never more than there are
/// notes.
pub proof fn search_bounded(notes: Seq<NoteText>, needle: Seq<char>, limit: nat)
    ensures
        search_from(notes, needle, limit, 0, Seq::empty()).len() <= if limit == 0 {
            1
        } else {
            limit
        },
        search_from(notes, needle, limit, 0, Seq::empty()).len() <= notes.len(),
{
    lemma_search_from(notes, needle, limit, 0, Seq::empty());
}

proof fn lemma_search_from(
    notes: Seq<NoteText>,
    needle: Seq<char>,
    limit: nat,
    i: int,
    found: Seq<(Seq<char>, Seq<char>, Seq<char>)>,
)
    requires
        0 <= i <= notes.len(),
        found.len() <= i,
        found.len() < limit || (i == 0 && found.len() == 0),
    ensures
        search_from(notes, needle, limit, i, found).len() <= if limit == 0 {
            1
        } else {
            limit
        },
        search_from(notes, needle, limit, i, found).len() <= notes.len(),
    decreases notes.len() - i,
{
    if i < notes.len() {
        let more = if is_hit(notes[i], needle) {
            found.push(hit_view(notes[i], needle))
        } else {
            found
        };
        if more.len() < limit {
            lemma_search_from(notes, needle, limit, i + 1, more);
        }
    }
}

} // verus!
