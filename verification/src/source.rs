//! Locating and editing pieces of the Markdown source.
//!
//! The preview lets you click a rendered line to edit the Markdown behind it.
//! Which bytes to replace is worked out here, against the *current* content
//! rather than what was rendered — the note can have changed in between, and
//! writing back a stale range would corrupt it.
use vstd::prelude::*;
use vstd::utf8::*;
use vstd::string::StringSliceAdditionalSpecFns;
use crate::text::{
    byte_slice, chars_between, has_char, join, lemma_ascii_boundaries, lemma_encode_utf8_add,
    lemma_join_split, lemma_split_join, lemma_split_pieces, split_chars, split_on, to_chars, vviews,
};
use crate::assets::{join_chars, lemma_ascii_char_bytes};
use crate::markdown::{
    events_view, note_dialect, note_dialect_spec, note_events, parse, MdEvent, MdEventView, MdKind,
};

verus! {

broadcast use encode_utf8_valid_utf8;

// ── Specifications: lines ──

/// Index of the first newline at or after byte `from`.
pub open spec fn next_newline(t: Seq<u8>, from: int) -> Option<int>
    decreases t.len() - from,
{
    if from < 0 || from >= t.len() {
        None
    } else if t[from] == 10 {
        Some(from)
    } else {
        next_newline(t, from + 1)
    }
}

/// Byte offset where line `n` (zero-based) starts, if the text has that many.
pub open spec fn line_start(t: Seq<u8>, n: nat) -> Option<int>
    decreases n,
{
    if n == 0 {
        Some(0)
    } else {
        match line_start(t, (n - 1) as nat) {
            Some(s) => match next_newline(t, s) {
                Some(p) => Some(p + 1),
                None => None,
            },
            None => None,
        }
    }
}

/// Where the line starting at `s` ends: its newline, or the end of the text,
/// stepping back over a '\r' before it.
pub open spec fn line_content_end(t: Seq<u8>, s: int) -> int {
    let end = match next_newline(t, s) {
        Some(p) => p,
        None => t.len() as int,
    };
    if end > s && t[end - 1] == 13 {
        end - 1
    } else {
        end
    }
}

/// Number of newline bytes in `t`.
pub open spec fn count_newlines(t: Seq<u8>) -> nat
    decreases t.len(),
{
    if t.len() == 0 {
        0
    } else {
        count_newlines(t.drop_last()) + if t.last() == 10 {
            1nat
        } else {
            0nat
        }
    }
}

// ── Specifications: task markers ──

/// A space or a tab.
pub open spec fn is_blank(c: char) -> bool {
    c == ' ' || c == '\t'
}

/// First index at or after `i` that is not a space or tab.
pub open spec fn skip_blanks(s: Seq<char>, i: int) -> int
    decreases s.len() - i,
{
    if 0 <= i < s.len() && is_blank(s[i]) {
        skip_blanks(s, i + 1)
    } else {
        i
    }
}

/// Index after the leading whitespace and `>` blockquote markers of a line.
pub open spec fn quote_end(s: Seq<char>, i: int) -> int
    decreases s.len() - i,
{
    let j = skip_blanks(s, i);
    if 0 <= i && i <= j && j < s.len() && s[j] == '>' {
        quote_end(s, j + 1)
    } else {
        j
    }
}

/// The fence character when the line opens or closes a fenced block.
pub open spec fn fence_of(line: Seq<char>) -> Option<char> {
    let r = line.skip(quote_end(line, 0));
    if r.len() >= 3 && r[0] == '`' && r[1] == '`' && r[2] == '`' {
        Some('`')
    } else if r.len() >= 3 && r[0] == '~' && r[1] == '~' && r[2] == '~' {
        Some('~')
    } else {
        None
    }
}

/// First index at or after `i` that is not an ASCII digit.
pub open spec fn skip_digits(s: Seq<char>, i: int) -> int
    decreases s.len() - i,
{
    if 0 <= i < s.len() && '0' <= s[i] <= '9' {
        skip_digits(s, i + 1)
    } else {
        i
    }
}

/// Index just past the list bullet ('-', '+', '*', "1." or "1)") that starts
/// at `c`.
pub open spec fn after_bullet(line: Seq<char>, c: int) -> Option<int> {
    if c >= line.len() {
        None
    } else if line[c] == '-' || line[c] == '+' || line[c] == '*' {
        Some(c + 1)
    } else if '0' <= line[c] <= '9' {
        let d = skip_digits(line, c);
        if d < line.len() && (line[d] == '.' || line[d] == ')') {
            Some(d + 1)
        } else {
            None
        }
    } else {
        None
    }
}

/// Index of the ' ' or 'x' inside a `- [ ]` marker on this line.
pub open spec fn task_marker(line: Seq<char>) -> Option<int> {
    let c = quote_end(line, 0);
    match after_bullet(line, c) {
        Some(a) => {
            let t = skip_blanks(line, a);
            if t == a || !(t + 2 < line.len() && line[t] == '[' && (line[t + 1] == ' '
                || line[t + 1] == 'x' || line[t + 1] == 'X') && line[t + 2] == ']') {
                None
            } else {
                Some(t + 1)
            }
        },
        None => None,
    }
}

/// The fence state after a fence line with character `m`: it opens a fence,
/// closes the one it matches, or is content of a different fence.
pub open spec fn next_fence(fence: Option<char>, m: char) -> Option<char> {
    match fence {
        None => Some(m),
        Some(open) => if open == m {
            None
        } else {
            fence
        },
    }
}

/// (line, position) of task number `wanted` from line `i` on, the tasks
/// before line `i` numbering `count` and the fence state being `fence`.
pub open spec fn find_task(
    lines: Seq<Seq<char>>,
    i: int,
    fence: Option<char>,
    count: int,
    wanted: int,
) -> Option<(int, int)>
    decreases lines.len() - i,
{
    if i < 0 || i >= lines.len() {
        None
    } else {
        match fence_of(lines[i]) {
            Some(m) => find_task(lines, i + 1, next_fence(fence, m), count, wanted),
            None => if fence is Some {
                find_task(lines, i + 1, fence, count, wanted)
            } else {
                match task_marker(lines[i]) {
                    Some(p) => if count == wanted {
                        Some((i, p))
                    } else {
                        find_task(lines, i + 1, fence, count + 1, wanted)
                    },
                    None => find_task(lines, i + 1, fence, count, wanted),
                }
            },
        }
    }
}

/// The note with task number `wanted` set to `checked`.
pub open spec fn set_task_spec(md: Seq<char>, wanted: int, checked: bool) -> Option<Seq<char>> {
    let lines = split_on(md, '\n');
    match find_task(lines, 0, None, 0, wanted) {
        Some((i, p)) => Some(
            join(lines.update(i, lines[i].update(p, if checked { 'x' } else { ' ' })), '\n'),
        ),
        None => None,
    }
}

// ── Executable ──

/// A located piece of the source and the text it holds.
#[derive(Debug, Clone, PartialEq, Eq)]
pub struct SourceRange {
    pub start: usize,
    pub end: usize,
    pub raw: String,
}

fn find_newline(bytes: &[u8], from: usize) -> (r: Option<usize>)
    ensures
        match next_newline(bytes@, from as int) {
            Some(p) => r == Some(p as usize),
            None => r is None,
        },
{
    let mut i = from;
    while i < bytes.len()
        invariant
            from <= i,
            next_newline(bytes@, from as int) == next_newline(bytes@, i as int),
        decreases bytes.len() - i,
    {
        if bytes[i] == 10 {
            return Some(i);
        }
        i += 1;
    }
    None
}

proof fn lemma_next_newline(t: Seq<u8>, from: int)
    requires
        0 <= from,
    ensures
        next_newline(t, from) matches Some(p) ==> from <= p < t.len() && t[p] == 10,
    decreases t.len() - from,
{
    if from < t.len() && t[from] != 10 {
        lemma_next_newline(t, from + 1);
    }
}

proof fn lemma_line_start(t: Seq<u8>, n: nat)
    ensures
        line_start(t, n) matches Some(s) ==> 0 <= s <= t.len() && (s == 0 || t[s - 1] == 10),
    decreases n,
{
    if n > 0 {
        lemma_line_start(t, (n - 1) as nat);
        if let Some(s) = line_start(t, (n - 1) as nat) {
            lemma_next_newline(t, s);
        }
    }
}

/// The byte range of one line, excluding its newline (and any \r before it).
pub fn line_range(markdown: &str, wanted_line: usize) -> (r: Option<SourceRange>)
    ensures
        match line_start(markdown.spec_bytes(), wanted_line as nat) {
            Some(s) => r matches Some(range) && range.start == s && range.end == line_content_end(
                markdown.spec_bytes(),
                s,
            ) && encode_utf8(range.raw@) == markdown.spec_bytes().subrange(
                s,
                line_content_end(markdown.spec_bytes(), s),
            ),
            None => r is None,
        },
{
    let bytes = markdown.as_bytes();
    let mut start: usize = 0;
    let mut n: usize = 0;
    while n < wanted_line
        invariant
            n <= wanted_line,
            bytes@ == markdown.spec_bytes(),
            line_start(bytes@, n as nat) == Some(start as int),
        decreases wanted_line - n,
    {
        proof {
            lemma_next_newline(bytes@, start as int);
        }
        match find_newline(bytes, start) {
            Some(p) => {
                assert(p < bytes.len());
                assert(line_start(bytes@, (n + 1) as nat) == Some(p + 1 as int));
                start = p + 1;
            },
            None => {
                assert(line_start(bytes@, (n + 1) as nat) is None);
                proof {
                    lemma_no_later_line(bytes@, (n + 1) as nat, wanted_line as nat);
                }
                return None;
            },
        }
        n += 1;
    }
    proof {
        lemma_line_start(bytes@, wanted_line as nat);
        lemma_next_newline(bytes@, start as int);
    }
    let end = match find_newline(bytes, start) {
        Some(p) => p,
        None => bytes.len(),
    };
    // A CRLF file would otherwise hand back a trailing \r to edit.
    let content_end = if end > start && bytes[end - 1] == 13 {
        end - 1
    } else {
        end
    };
    proof {
        if start > 0 {
            lemma_ascii_boundaries(bytes@, start - 1);
        } else {
            is_char_boundary_start_end_of_seq(bytes@);
        }
        if content_end < bytes.len() {
            lemma_ascii_boundaries(bytes@, content_end as int);
        } else {
            is_char_boundary_start_end_of_seq(bytes@);
        }
    }
    let (_, tail) = markdown.split_at(start);
    proof {
        let tb = tail.spec_bytes();
        assert(tb =~= bytes@.subrange(start as int, bytes@.len() as int));
        if content_end < bytes.len() {
            assert(tb[content_end - start] == bytes@[content_end as int]);
            is_char_boundary_iff_not_is_continuation_byte(tb, content_end - start);
        } else {
            is_char_boundary_start_end_of_seq(tb);
        }
    }
    let (piece, _) = tail.split_at(content_end - start);
    assert(piece.spec_bytes() =~= bytes@.subrange(start as int, content_end as int));
    Some(SourceRange { start, end: content_end, raw: piece.to_owned() })
}

proof fn lemma_no_later_line(t: Seq<u8>, n: nat, m: nat)
    requires
        line_start(t, n) is None,
        n <= m,
    ensures
        line_start(t, m) is None,
    decreases m - n,
{
    if n < m {
        lemma_no_later_line(t, n, (m - 1) as nat);
    }
}

/// Number of newlines among the first `offset` bytes (all of them when
/// `offset` is past the end).
pub(crate) fn newlines_before(bytes: &[u8], offset: usize) -> (n: usize)
    ensures
        n == count_newlines(
            bytes@.take(
                if offset < bytes@.len() {
                    offset as int
                } else {
                    bytes@.len() as int
                },
            ),
        ),
{
    let limit = if offset < bytes.len() {
        offset
    } else {
        bytes.len()
    };
    let mut n: usize = 0;
    let mut i: usize = 0;
    while i < limit
        invariant
            i <= limit <= bytes.len(),
            n <= i,
            n == count_newlines(bytes@.take(i as int)),
        decreases limit - i,
    {
        assert(bytes@.take(i + 1 as int).drop_last() =~= bytes@.take(i as int));
        if bytes[i] == 10 {
            n += 1;
        }
        i += 1;
    }
    n
}

/// The zero-based line a byte offset falls on.
pub fn line_index_at(markdown: &str, offset: usize) -> (n: usize)
    requires
        is_char_boundary(
            markdown.spec_bytes(),
            if offset < markdown.spec_bytes().len() {
                offset as int
            } else {
                markdown.spec_bytes().len() as int
            },
        ),
    ensures
        n == count_newlines(
            markdown.spec_bytes().take(
                if offset < markdown.spec_bytes().len() {
                    offset as int
                } else {
                    markdown.spec_bytes().len() as int
                },
            ),
        ),
{
    newlines_before(markdown.as_bytes(), offset)
}

fn skip_blanks_at(s: &Vec<char>, i: usize) -> (j: usize)
    requires
        i <= s.len(),
    ensures
        j == skip_blanks(s@, i as int),
        i <= j <= s.len(),
{
    let mut j = i;
    while j < s.len() && (s[j] == ' ' || s[j] == '\t')
        invariant
            i <= j <= s.len(),
            skip_blanks(s@, i as int) == skip_blanks(s@, j as int),
        decreases s.len() - j,
    {
        j += 1;
    }
    j
}

/// Drop leading whitespace and any `>` blockquote markers: the index where
/// the rest of the line begins.
fn strip_quote_and_space(line: &Vec<char>) -> (c: usize)
    ensures
        c == quote_end(line@, 0),
        c <= line.len(),
{
    let mut i: usize = 0;
    loop
        invariant
            i <= line.len(),
            quote_end(line@, 0) == quote_end(line@, i as int),
        decreases line.len() - i,
    {
        let j = skip_blanks_at(line, i);
        if j < line.len() && line[j] == '>' {
            i = j + 1;
        } else {
            return j;
        }
    }
}

/// The fence character if this line opens or closes a fenced block.
fn fence_marker(line: &Vec<char>) -> (r: Option<char>)
    ensures
        r == fence_of(line@),
{
    let c = strip_quote_and_space(line);
    let n = line.len() - c;
    assert(line@.skip(c as int).len() == n);
    if n >= 3 && line[c] == '`' && line[c + 1] == '`' && line[c + 2] == '`' {
        Some('`')
    } else if n >= 3 && line[c] == '~' && line[c + 1] == '~' && line[c + 2] == '~' {
        Some('~')
    } else {
        None
    }
}

/// Index of the ' ' or 'x' inside a `- [ ]` marker on this line.
fn task_marker_offset(line: &Vec<char>) -> (r: Option<usize>)
    ensures
        match r {
            Some(x) => task_marker(line@) == Some(x as int) && x < line.len(),
            None => task_marker(line@) is None,
        },
{
    let c = strip_quote_and_space(line);
    if c >= line.len() {
        return None;
    }
    // A bullet ('-', '+', '*') or an ordered marker ('1.', '1)').
    let first = line[c];
    let after = if first == '-' || first == '+' || first == '*' {
        c + 1
    } else if '0' <= first && first <= '9' {
        let mut d = c;
        while d < line.len() && '0' <= line[d] && line[d] <= '9'
            invariant
                c <= d <= line.len(),
                skip_digits(line@, c as int) == skip_digits(line@, d as int),
            decreases line.len() - d,
        {
            d += 1;
        }
        if d < line.len() && (line[d] == '.' || line[d] == ')') {
            d + 1
        } else {
            return None;
        }
    } else {
        return None;
    };
    assert(after_bullet(line@, c as int) == Some(after as int));
    // At least one space, then "[x]" or "[ ]".
    let t = skip_blanks_at(line, after);
    if t == after {
        return None;
    }
    if !(line.len() - t > 2 && line[t] == '[' && (line[t + 1] == ' ' || line[t + 1] == 'x'
        || line[t + 1] == 'X') && line[t + 2] == ']') {
        return None;
    }
    Some(t + 1)
}

/// Change the Nth Markdown task marker, ignoring fenced code blocks.
///
/// Blockquoted, nested, unordered and ordered task-list items are all
/// supported. Returns None when there is no such task, which means the preview
/// and the editor have fallen out of step and the click should be undone
/// rather than written somewhere arbitrary.
pub fn set_task_checked(markdown: &str, wanted: usize, checked: bool) -> (r: Option<String>)
    ensures
        match set_task_spec(markdown@, wanted as int, checked) {
            Some(out) => r is Some && r.unwrap()@ == out,
            None => r is None,
        },
{
    let chars = to_chars(markdown);
    let mut lines = split_chars(&chars, '\n');
    let ghost all = vviews(lines@);
    let mut fence: Option<char> = None;
    let mut index: usize = 0;
    let mut i: usize = 0;
    while i < lines.len()
        invariant
            i <= lines.len(),
            index <= i,
            all == vviews(lines@),
            all == split_on(markdown@, '\n'),
            find_task(all, 0, None, 0, wanted as int) == find_task(
                all,
                i as int,
                fence,
                index as int,
                wanted as int,
            ),
        decreases lines.len() - i,
    {
        assert(all[i as int] == lines@[i as int]@);
        match fence_marker(&lines[i]) {
            Some(marker) => {
                // Only the same character closes a fence, so ``` inside a ~~~
                // block stays content.
                fence = match fence {
                    None => Some(marker),
                    Some(open) => if open == marker {
                        None
                    } else {
                        Some(open)
                    },
                };
            },
            None => {
                if fence.is_none() {
                    if let Some(marker_at) = task_marker_offset(&lines[i]) {
                        if index == wanted {
                            assert(find_task(all, i as int, fence, index as int, wanted as int)
                                == Some((i as int, marker_at as int)));
                            let mut line = chars_between(&lines[i], 0, lines[i].len());
                            assert(line@ =~= all[i as int]);
                            line.set(marker_at, if checked { 'x' } else { ' ' });
                            lines.set(i, line);
                            assert(vviews(lines@) =~= all.update(
                                i as int,
                                all[i as int].update(marker_at as int, if checked { 'x' } else { ' ' }),
                            ));
                            return Some(join_chars(&lines, '\n'));
                        }
                        index += 1;
                    }
                }
            },
        }
        i += 1;
    }
    None
}

/// The byte ranges of the top-level blocks among `evs[i..]`, at nesting
/// depth `depth`.
pub open spec fn blocks_from(evs: Seq<MdEventView>, i: int, depth: int) -> Seq<(int, int)>
    decreases evs.len() - i,
{
    if i < 0 || i >= evs.len() {
        Seq::empty()
    } else {
        match evs[i].kind {
            MdKind::Start(_) => (if depth == 0 {
                seq![(evs[i].start, evs[i].end)]
            } else {
                Seq::empty()
            }) + blocks_from(evs, i + 1, depth + 1),
            MdKind::End(_) => blocks_from(
                evs,
                i + 1,
                if depth > 0 {
                    depth - 1
                } else {
                    0
                },
            ),
            _ => blocks_from(evs, i + 1, depth),
        }
    }
}

/// The byte ranges of every top-level block of `markdown`, in source order.
pub open spec fn block_ranges_spec(markdown: Seq<char>) -> Seq<(int, int)> {
    blocks_from(note_events(markdown), 0, 0)
}

/// The int view of a list of ranges.
pub open spec fn ranges_view(v: Seq<core::ops::Range<usize>>) -> Seq<(int, int)> {
    v.map_values(|r: core::ops::Range<usize>| (r.start as int, r.end as int))
}

/// The byte ranges of every top-level block, in source order.
///
/// This is the list the renderer indexes into when it stamps a code block with
/// `data-md-block-index`, so both sides agree on what "block 3" means by
/// construction rather than by coincidence.
pub fn block_ranges(markdown: &str) -> (blocks: Vec<core::ops::Range<usize>>)
    ensures
        ranges_view(blocks@) == block_ranges_spec(markdown@),
        forall|k: int|
            0 <= k < blocks@.len() ==> (#[trigger] blocks@[k]).start <= blocks@[k].end
                <= markdown.spec_bytes().len(),
{
    let parsed = parse(markdown, note_dialect());
    let blocks = blocks_of(parsed.event_list());
    proof {
        lemma_blocks_from_events(parsed.events(), 0, 0);
        assert forall|k: int| 0 <= k < blocks@.len() implies (#[trigger] blocks@[k]).start
            <= blocks@[k].end <= markdown.spec_bytes().len() by {
            assert(ranges_view(blocks@)[k] == (blocks@[k].start as int, blocks@[k].end as int));
        }
    }
    blocks
}

/// Each top-level block range is the range of one of the events.
proof fn lemma_blocks_from_events(evs: Seq<MdEventView>, i: int, depth: int)
    requires
        0 <= i,
    ensures
        forall|k: int|
            0 <= k < blocks_from(evs, i, depth).len() ==> exists|j: int|
                i <= j < evs.len() && #[trigger] blocks_from(evs, i, depth)[k] == (
                    evs[j].start,
                    evs[j].end,
                ),
    decreases evs.len() - i,
{
    if i < evs.len() {
        let d2 = match evs[i].kind {
            MdKind::Start(_) => depth + 1,
            MdKind::End(_) => if depth > 0 {
                depth - 1
            } else {
                0
            },
            _ => depth,
        };
        lemma_blocks_from_events(evs, i + 1, d2);
        let rest = blocks_from(evs, i + 1, d2);
        let all = blocks_from(evs, i, depth);
        assert forall|k: int| 0 <= k < all.len() implies exists|j: int|
            i <= j < evs.len() && #[trigger] all[k] == (evs[j].start, evs[j].end) by {
            if evs[i].kind is Start && depth == 0 {
                if k == 0 {
                    assert(all[0] == (evs[i].start, evs[i].end));
                } else {
                    assert(all[k] == rest[k - 1]);
                }
            } else {
                assert(all[k] == rest[k]);
            }
        }
    }
}

/// The byte ranges of the top-level blocks among parsed events: the range of
/// each start event at nesting depth 0, in order.
pub fn blocks_of(events: &Vec<MdEvent>) -> (blocks: Vec<core::ops::Range<usize>>)
    ensures
        ranges_view(blocks@) == blocks_from(events_view(events@), 0, 0),
{
    let ghost evs = events_view(events@);
    let mut depth: usize = 0;
    let mut blocks: Vec<core::ops::Range<usize>> = Vec::new();
    let mut i: usize = 0;
    while i < events.len()
        invariant
            evs == events_view(events@),
            i <= evs.len(),
            depth <= i,
            blocks_from(evs, 0, 0) == ranges_view(blocks@) + blocks_from(evs, i as int, depth as int),
        decreases evs.len() - i,
    {
        let event = &events[i];
        assert(evs[i as int] == event@);
        let ghost prev = ranges_view(blocks@);
        match event.kind {
            MdKind::Start(_) => {
                if depth == 0 {
                    blocks.push(event.start..event.end);
                    assert(ranges_view(blocks@) =~= prev.push((event.start as int, event.end as int)));
                    assert(prev + blocks_from(evs, i as int, depth as int) =~= ranges_view(blocks@)
                        + blocks_from(evs, i + 1, depth + 1));
                } else {
                    assert(prev + blocks_from(evs, i as int, depth as int) =~= prev
                        + blocks_from(evs, i + 1, depth + 1));
                }
                depth += 1;
            },
            MdKind::End(_) => {
                depth = if depth > 0 {
                    depth - 1
                } else {
                    0
                };
            },
            _ => {},
        }
        i += 1;
    }
    assert(blocks_from(evs, i as int, depth as int) =~= Seq::<(int, int)>::empty());
    assert(ranges_view(blocks@) + Seq::<(int, int)>::empty() =~= ranges_view(blocks@));
    blocks
}

/// The source of one top-level block, by its index in `block_ranges`; None
/// when there is no such block or its range does not cut the text at
/// character boundaries.
pub fn block_range(markdown: &str, wanted: usize) -> (r: Option<SourceRange>)
    ensures
        r matches Some(range) ==> wanted < block_ranges_spec(markdown@).len() && (
        range.start as int, range.end as int) == block_ranges_spec(markdown@)[wanted as int]
            && encode_utf8(range.raw@) == markdown.spec_bytes().subrange(
            range.start as int,
            range.end as int,
        ),
        r is None ==> wanted >= block_ranges_spec(markdown@).len() || !({
            let (s, e) = block_ranges_spec(markdown@)[wanted as int];
            s <= e <= markdown.spec_bytes().len() && is_char_boundary(markdown.spec_bytes(), s)
                && is_char_boundary(markdown.spec_bytes(), e)
        }),
{
    let blocks = block_ranges(markdown);
    assert(ranges_view(blocks@).len() == blocks@.len());
    if wanted >= blocks.len() {
        return None;
    }
    let start = blocks[wanted].start;
    let end = blocks[wanted].end;
    assert(ranges_view(blocks@)[wanted as int] == (start as int, end as int));
    if !(start <= end && end <= markdown.as_bytes().len() && markdown.is_char_boundary(start)
        && markdown.is_char_boundary(end)) {
        assert(block_ranges_spec(markdown@)[wanted as int] == (start as int, end as int));
        return None;
    }
    let raw = byte_slice(markdown, start, end);
    Some(SourceRange { start, end, raw: raw.to_owned() })
}

// ── Offsets map back to their line ──

proof fn lemma_next_newline_at(t: Seq<u8>, s: int, o: int)
    requires
        0 <= s <= o < t.len(),
        t[o] == 10,
        forall|j: int| s <= j < o ==> t[j] != 10,
    ensures
        next_newline(t, s) == Some(o),
    decreases o - s,
{
    if s < o {
        lemma_next_newline_at(t, s + 1, o);
    }
}

/// Every byte offset lies on the line `line_index_at` names: that line
/// starts at or before the offset, with no newline in between.
pub proof fn offset_lies_on_its_line(t: Seq<u8>, o: int)
    requires
        0 <= o <= t.len(),
    ensures
        line_start(t, count_newlines(t.take(o))) matches Some(s) && s <= o && forall|j: int|
            s <= j < o ==> t[j] != 10,
    decreases o,
{
    if o == 0 {
        assert(t.take(0) =~= Seq::<u8>::empty());
    } else {
        offset_lies_on_its_line(t, o - 1);
        let n = count_newlines(t.take(o - 1));
        assert(t.take(o).drop_last() =~= t.take(o - 1));
        assert(t.take(o).last() == t[o - 1]);
        let s = line_start(t, n)->0;
        lemma_line_start(t, n);
        if t[o - 1] == 10 {
            lemma_next_newline_at(t, s, o - 1);
            assert(count_newlines(t.take(o)) == n + 1);
            assert(line_start(t, (n + 1) as nat) == Some(o));
        } else {
            assert(count_newlines(t.take(o)) == n);
        }
    }
}

// ── Lines are cut at newlines ──

proof fn lemma_next_newline_first(t: Seq<u8>, a: int)
    requires
        0 <= a,
    ensures
        match next_newline(t, a) {
            Some(p) => a <= p < t.len() && t[p] == 10 && forall|j: int| a <= j < p ==> t[j] != 10,
            None => forall|j: int| a <= j < t.len() ==> t[j] != 10,
        },
    decreases t.len() - a,
{
    if a < t.len() && t[a] != 10 {
        lemma_next_newline_first(t, a + 1);
    }
}

proof fn lemma_count_no_newline(t: Seq<u8>, a: int, b: int)
    requires
        0 <= a <= b <= t.len(),
        forall|j: int| a <= j < b ==> t[j] != 10,
    ensures
        count_newlines(t.take(b)) == count_newlines(t.take(a)),
    decreases b - a,
{
    if a < b {
        lemma_count_no_newline(t, a, b - 1);
        assert(t.take(b).drop_last() =~= t.take(b - 1));
        assert(t.take(b).last() == t[b - 1]);
    }
}

proof fn lemma_count_prefix(t: Seq<u8>, a: int, b: int)
    requires
        0 <= a <= b <= t.len(),
    ensures
        count_newlines(t.take(a)) <= count_newlines(t.take(b)),
    decreases b - a,
{
    if a < b {
        lemma_count_prefix(t, a, b - 1);
        assert(t.take(b).drop_last() =~= t.take(b - 1));
    }
}

/// A text's lines are what its newlines cut it into: line `n` exists exactly
/// when the text has at least `n` newlines; it starts at 0 or just after a
/// newline, with `n` newlines before it, holds none itself, and ends at the
/// next newline or the end of the text (a '\r' before that newline left out).
pub proof fn lines_are_cut_at_newlines(t: Seq<u8>, n: nat)
    ensures
        line_start(t, n) is Some <==> n <= count_newlines(t),
        line_start(t, n) matches Some(s) ==> ({
            let e = line_content_end(t, s);
            &&& 0 <= s <= e <= t.len()
            &&& count_newlines(t.take(s)) == n
            &&& (s == 0 || t[s - 1] == 10)
            &&& forall|j: int| s <= j < e ==> t[j] != 10
            &&& (e == t.len() || t[e] == 10 || t[e] == 13)
        }),
    decreases n,
{
    assert(t.take(t.len() as int) =~= t);
    if n == 0 {
        assert(t.take(0) =~= Seq::<u8>::empty());
        lemma_count_prefix(t, 0, t.len() as int);
    } else {
        lines_are_cut_at_newlines(t, (n - 1) as nat);
        if let Some(s0) = line_start(t, (n - 1) as nat) {
            lemma_next_newline_first(t, s0);
            match next_newline(t, s0) {
                Some(p) => {
                    lemma_count_no_newline(t, s0, p);
                    assert(t.take(p + 1).drop_last() =~= t.take(p));
                    assert(t.take(p + 1).last() == t[p]);
                    assert(count_newlines(t.take(p + 1)) == n);
                    lemma_count_prefix(t, p + 1, t.len() as int);
                },
                None => {
                    lemma_count_no_newline(t, s0, t.len() as int);
                },
            }
        } else {
            lemma_no_later_line(t, (n - 1) as nat, n);
        }
    }
    if let Some(s) = line_start(t, n) {
        lemma_line_start(t, n);
        lemma_next_newline_first(t, s);
    }
}

// ── Setting a task reads back ──

/// Two lines of equal length that agree before index `k`.
pub open spec fn agree_below(a: Seq<char>, b: Seq<char>, k: int) -> bool {
    a.len() == b.len() && forall|j: int| 0 <= j < k && j < a.len() ==> a[j] == b[j]
}

proof fn lemma_skip_blanks_ge(a: Seq<char>, i: int)
    requires
        0 <= i,
    ensures
        i <= skip_blanks(a, i),
    decreases a.len() - i,
{
    if 0 <= i < a.len() && is_blank(a[i]) {
        lemma_skip_blanks_ge(a, i + 1);
    }
}

proof fn lemma_skip_blanks_agree(a: Seq<char>, b: Seq<char>, i: int, k: int)
    requires
        agree_below(a, b, k),
        0 <= i,
        skip_blanks(a, i) < k,
    ensures
        skip_blanks(b, i) == skip_blanks(a, i),
    decreases a.len() - i,
{
    lemma_skip_blanks_ge(a, i);
    if 0 <= i < a.len() && is_blank(a[i]) {
        lemma_skip_blanks_ge(a, i + 1);
        lemma_skip_blanks_agree(a, b, i + 1, k);
    }
}

proof fn lemma_skip_digits_ge(a: Seq<char>, i: int)
    requires
        0 <= i,
    ensures
        i <= skip_digits(a, i),
    decreases a.len() - i,
{
    if 0 <= i < a.len() && '0' <= a[i] <= '9' {
        lemma_skip_digits_ge(a, i + 1);
    }
}

proof fn lemma_skip_digits_agree(a: Seq<char>, b: Seq<char>, i: int, k: int)
    requires
        agree_below(a, b, k),
        0 <= i,
        skip_digits(a, i) < k,
    ensures
        skip_digits(b, i) == skip_digits(a, i),
    decreases a.len() - i,
{
    lemma_skip_digits_ge(a, i);
    if 0 <= i < a.len() && '0' <= a[i] <= '9' {
        lemma_skip_digits_ge(a, i + 1);
        lemma_skip_digits_agree(a, b, i + 1, k);
    }
}

proof fn lemma_quote_end_ge(a: Seq<char>, i: int)
    requires
        0 <= i,
    ensures
        skip_blanks(a, i) <= quote_end(a, i),
        i <= quote_end(a, i),
    decreases a.len() - i,
{
    lemma_skip_blanks_ge(a, i);
    let j = skip_blanks(a, i);
    if i <= j && j < a.len() && a[j] == '>' {
        lemma_quote_end_ge(a, j + 1);
    }
}

proof fn lemma_quote_end_agree(a: Seq<char>, b: Seq<char>, i: int, k: int)
    requires
        agree_below(a, b, k),
        0 <= i,
        quote_end(a, i) < k,
    ensures
        quote_end(b, i) == quote_end(a, i),
    decreases a.len() - i,
{
    lemma_quote_end_ge(a, i);
    let j = skip_blanks(a, i);
    lemma_skip_blanks_agree(a, b, i, k);
    lemma_skip_blanks_ge(a, i);
    if i <= j && j < a.len() && a[j] == '>' {
        lemma_quote_end_agree(a, b, j + 1, k);
    }
}

proof fn lemma_after_bullet_agree(a: Seq<char>, b: Seq<char>, c: int, k: int)
    requires
        agree_below(a, b, k),
        0 <= c,
        after_bullet(a, c) is Some,
        after_bullet(a, c)->0 <= k,
    ensures
        after_bullet(b, c) == after_bullet(a, c),
        c < after_bullet(a, c)->0,
{
    if a[c] == '-' || a[c] == '+' || a[c] == '*' {
    } else {
        lemma_skip_digits_ge(a, c);
        lemma_skip_digits_agree(a, b, c, k);
    }
}

/// Where a task marker sits, and what surrounds it.
proof fn lemma_task_marker_shape(line: Seq<char>)
    requires
        task_marker(line) is Some,
    ensures
        ({
            let p = task_marker(line)->0;
            let c = quote_end(line, 0);
            &&& c + 3 <= p
            &&& p + 1 < line.len()
            &&& after_bullet(line, c) is Some
            &&& after_bullet(line, c)->0 < p - 1
            &&& skip_blanks(line, after_bullet(line, c)->0) == p - 1
            &&& line[p - 1] == '['
            &&& line[p + 1] == ']'
        }),
{
    let c = quote_end(line, 0);
    lemma_quote_end_ge(line, 0);
    let a = after_bullet(line, c)->0;
    if line[c] == '-' || line[c] == '+' || line[c] == '*' {
    } else {
        lemma_skip_digits_ge(line, c);
    }
    lemma_skip_blanks_ge(line, a);
}

/// A task marker is a box: the place found holds ' ', 'x' or 'X', with '['
/// just before it and ']' just after it.
pub proof fn task_marker_is_a_box(line: Seq<char>)
    ensures
        task_marker(line) matches Some(k) ==> 1 <= k && k + 1 < line.len() && line[k - 1] == '['
            && (line[k] == ' ' || line[k] == 'x' || line[k] == 'X') && line[k + 1] == ']',
{
    if task_marker(line) is Some {
        lemma_task_marker_shape(line);
    }
}

// ── Which lines carry a task box ──

/// Leading characters a task line may have: spaces, tabs and '>' quotes.
pub open spec fn lead_chars(p: Seq<char>) -> bool {
    forall|k: int| 0 <= k < p.len() ==> p[k] == ' ' || p[k] == '\t' || p[k] == '>'
}

/// One or more spaces or tabs.
pub open spec fn blank_run(b: Seq<char>) -> bool {
    b.len() >= 1 && forall|k: int| 0 <= k < b.len() ==> b[k] == ' ' || b[k] == '\t'
}

/// One or more ASCII digits.
pub open spec fn digit_run(d: Seq<char>) -> bool {
    d.len() >= 1 && forall|k: int| 0 <= k < d.len() ==> '0' <= #[trigger] d[k] <= '9'
}

/// A box: '[', then ' ', 'x' or 'X', then ']'.
pub open spec fn task_box(m: char) -> Seq<char> {
    seq!['[', m, ']']
}

proof fn lemma_skip_blanks_run(s: Seq<char>, i: int, e: int)
    requires
        0 <= i <= e < s.len(),
        forall|k: int| i <= k < e ==> s[k] == ' ' || s[k] == '\t',
        s[e] != ' ' && s[e] != '\t',
    ensures
        skip_blanks(s, i) == e,
    decreases e - i,
{
    if i < e {
        lemma_skip_blanks_run(s, i + 1, e);
    }
}

proof fn lemma_skip_digits_run(s: Seq<char>, i: int, e: int)
    requires
        0 <= i <= e < s.len(),
        forall|k: int| i <= k < e ==> '0' <= #[trigger] s[k] <= '9',
        !('0' <= s[e] <= '9'),
    ensures
        skip_digits(s, i) == e,
    decreases e - i,
{
    if i < e {
        lemma_skip_digits_run(s, i + 1, e);
    }
}

proof fn lemma_quote_end_run(s: Seq<char>, i: int, e: int)
    requires
        0 <= i <= e < s.len(),
        forall|k: int| i <= k < e ==> s[k] == ' ' || s[k] == '\t' || s[k] == '>',
        s[e] != ' ' && s[e] != '\t' && s[e] != '>',
    ensures
        quote_end(s, i) == e,
    decreases e - i,
{
    // The first character at or after `i` that is not blank.
    let first = choose|j: int| i <= j <= e && s[j] != ' ' && s[j] != '\t' && forall|k: int|
        i <= k < j ==> s[k] == ' ' || s[k] == '\t';
    assert(exists|j: int| i <= j <= e && s[j] != ' ' && s[j] != '\t' && forall|k: int|
        i <= k < j ==> s[k] == ' ' || s[k] == '\t') by {
        lemma_first_non_blank(s, i, e);
    }
    lemma_skip_blanks_run(s, i, first);
    if first < e {
        assert(s[first] == '>');
        lemma_quote_end_run(s, first + 1, e);
    }
}

proof fn lemma_first_non_blank(s: Seq<char>, i: int, e: int)
    requires
        0 <= i <= e < s.len(),
        s[e] != ' ' && s[e] != '\t',
    ensures
        exists|j: int| i <= j <= e && s[j] != ' ' && s[j] != '\t' && forall|k: int|
            i <= k < j ==> s[k] == ' ' || s[k] == '\t',
    decreases e - i,
{
    if s[i] != ' ' && s[i] != '\t' {
        assert(forall|k: int| i <= k < i ==> s[k] == ' ' || s[k] == '\t');
    } else {
        lemma_first_non_blank(s, i + 1, e);
        let j = choose|j: int| i + 1 <= j <= e && s[j] != ' ' && s[j] != '\t' && forall|k: int|
            i + 1 <= k < j ==> s[k] == ' ' || s[k] == '\t';
        assert(forall|k: int| i <= k < j ==> s[k] == ' ' || s[k] == '\t');
    }
}

/// Every bulleted task line has its box found: after any spaces, tabs and
/// '>' quotes, a '-', '+' or '*' bullet, one or more blanks and a box
/// `[ ]`, `[x]` or `[X]`, the marker is the character inside the box.
pub proof fn bulleted_task_lines_have_a_box(
    p: Seq<char>,
    bullet: char,
    b: Seq<char>,
    m: char,
    rest: Seq<char>,
)
    requires
        lead_chars(p),
        bullet == '-' || bullet == '+' || bullet == '*',
        blank_run(b),
        m == ' ' || m == 'x' || m == 'X',
    ensures
        task_marker(p + seq![bullet] + b + task_box(m) + rest) == Some(
            (p.len() + 1 + b.len() + 1) as int,
        ),
{
    let line = p + seq![bullet] + b + task_box(m) + rest;
    let c = p.len() as int;
    let a = c + 1;
    let t = a + b.len();
    assert(line[c] == bullet);
    assert forall|k: int| 0 <= k < c implies line[k] == ' ' || line[k] == '\t' || line[k] == '>' by {
        assert(line[k] == p[k]);
    }
    lemma_quote_end_run(line, 0, c);
    assert(after_bullet(line, c) == Some(a));
    assert forall|k: int| a <= k < t implies line[k] == ' ' || line[k] == '\t' by {
        assert(line[k] == b[k - a]);
    }
    assert(line[t] == '[' && line[t + 1] == m && line[t + 2] == ']');
    lemma_skip_blanks_run(line, a, t);
}

/// Every numbered task line has its box found: after any spaces, tabs and
/// '>' quotes, digits and a '.' or ')', one or more blanks and a box
/// `[ ]`, `[x]` or `[X]`, the marker is the character inside the box.
pub proof fn numbered_task_lines_have_a_box(
    p: Seq<char>,
    d: Seq<char>,
    delim: char,
    b: Seq<char>,
    m: char,
    rest: Seq<char>,
)
    requires
        lead_chars(p),
        digit_run(d),
        delim == '.' || delim == ')',
        blank_run(b),
        m == ' ' || m == 'x' || m == 'X',
    ensures
        task_marker(p + d + seq![delim] + b + task_box(m) + rest) == Some(
            (p.len() + d.len() + 1 + b.len() + 1) as int,
        ),
{
    let line = p + d + seq![delim] + b + task_box(m) + rest;
    let c = p.len() as int;
    let e = c + d.len();
    let a = e + 1;
    let t = a + b.len();
    assert(line[c] == d[0]);
    assert forall|k: int| 0 <= k < c implies line[k] == ' ' || line[k] == '\t' || line[k] == '>' by {
        assert(line[k] == p[k]);
    }
    lemma_quote_end_run(line, 0, c);
    assert forall|k: int| c <= k < e implies '0' <= #[trigger] line[k] <= '9' by {
        assert(line[k] == d[k - c]);
    }
    assert(line[e] == delim);
    lemma_skip_digits_run(line, c, e);
    assert(after_bullet(line, c) == Some(a));
    assert forall|k: int| a <= k < t implies line[k] == ' ' || line[k] == '\t' by {
        assert(line[k] == b[k - a]);
    }
    assert(line[t] == '[' && line[t + 1] == m && line[t + 2] == ']');
    lemma_skip_blanks_run(line, a, t);
}

/// A list bullet: '-', '+' or '*', or digits followed by '.' or ')'.
pub open spec fn list_bullet(pre: Seq<char>) -> bool {
    ||| (pre.len() == 1 && (pre[0] == '-' || pre[0] == '+' || pre[0] == '*'))
    ||| (pre.len() >= 2 && digit_run(pre.drop_last()) && (pre.last() == '.' || pre.last() == ')'))
}

proof fn lemma_skip_blanks_props(s: Seq<char>, i: int)
    requires
        0 <= i <= s.len(),
    ensures
        i <= skip_blanks(s, i) <= s.len(),
        forall|k: int| i <= k < skip_blanks(s, i) ==> s[k] == ' ' || s[k] == '\t',
    decreases s.len() - i,
{
    if i < s.len() && is_blank(s[i]) {
        lemma_skip_blanks_props(s, i + 1);
    }
}

proof fn lemma_skip_digits_props(s: Seq<char>, i: int)
    requires
        0 <= i <= s.len(),
    ensures
        i <= skip_digits(s, i) <= s.len(),
        forall|k: int| i <= k < skip_digits(s, i) ==> '0' <= #[trigger] s[k] <= '9',
    decreases s.len() - i,
{
    if i < s.len() && '0' <= s[i] <= '9' {
        lemma_skip_digits_props(s, i + 1);
    }
}

proof fn lemma_quote_end_props(s: Seq<char>, i: int)
    requires
        0 <= i <= s.len(),
    ensures
        i <= quote_end(s, i) <= s.len(),
        forall|k: int| i <= k < quote_end(s, i) ==> s[k] == ' ' || s[k] == '\t' || s[k] == '>',
    decreases s.len() - i,
{
    lemma_skip_blanks_props(s, i);
    let j = skip_blanks(s, i);
    if i <= j && j < s.len() && s[j] == '>' {
        lemma_quote_end_props(s, j + 1);
    }
}

/// Only such lines have a box: a line whose task marker is found starts
/// with spaces, tabs and '>' quotes, a list bullet, one or more blanks and a
/// box `[ ]`, `[x]` or `[X]`, and the marker is the character inside it.
pub proof fn task_boxes_sit_after_a_bullet(line: Seq<char>)
    requires
        task_marker(line) is Some,
    ensures
        exists|p: Seq<char>, pre: Seq<char>, b: Seq<char>, m: char|
            #![trigger lead_chars(p), list_bullet(pre), blank_run(b), task_box(m)]
            lead_chars(p) && list_bullet(pre) && blank_run(b) && (m == ' ' || m == 'x' || m == 'X')
                && (p + pre + b + task_box(m)).len() <= line.len() && line.take(
                (p + pre + b + task_box(m)).len() as int,
            ) == p + pre + b + task_box(m) && task_marker(line) == Some(
                (p.len() + pre.len() + b.len() + 1) as int,
            ),
{
    let c = quote_end(line, 0);
    lemma_quote_end_props(line, 0);
    let a = after_bullet(line, c)->0;
    let t = skip_blanks(line, a);
    let k = task_marker(line)->0;
    assert(k == t + 1);
    let p = line.take(c);
    let pre = line.subrange(c, a);
    let b = line.subrange(a, t);
    let m = line[t + 1];
    assert(lead_chars(p)) by {
        assert forall|j: int| 0 <= j < p.len() implies p[j] == ' ' || p[j] == '\t' || p[j] == '>' by {
            assert(p[j] == line[j]);
        }
    }
    if line[c] == '-' || line[c] == '+' || line[c] == '*' {
        assert(pre =~= seq![line[c]]);
    } else {
        lemma_skip_digits_props(line, c);
        let e = skip_digits(line, c);
        assert(e > c);
        assert(pre.drop_last() =~= line.subrange(c, e));
        assert(digit_run(pre.drop_last())) by {
            assert forall|j: int| 0 <= j < pre.drop_last().len() implies '0' <= #[trigger] pre.drop_last()[j]
                <= '9' by {
                assert(pre.drop_last()[j] == line[c + j]);
            }
        }
        assert(pre.last() == line[e]);
    }
    assert(list_bullet(pre));
    lemma_skip_blanks_props(line, a);
    assert(blank_run(b)) by {
        assert forall|j: int| 0 <= j < b.len() implies b[j] == ' ' || b[j] == '\t' by {
            assert(b[j] == line[a + j]);
        }
    }
    assert(line.take(t + 3) =~= p + pre + b + task_box(m));
}

/// Re-marking a task's box leaves the line's fence and task readings as
/// they were.
proof fn lemma_remark_line(line: Seq<char>, mark: char)
    requires
        task_marker(line) is Some,
        mark == ' ' || mark == 'x',
    ensures
        task_marker(line.update(task_marker(line)->0, mark)) == task_marker(line),
        fence_of(line.update(task_marker(line)->0, mark)) == fence_of(line),
{
    let p = task_marker(line)->0;
    let line2 = line.update(p, mark);
    lemma_task_marker_shape(line);
    assert(agree_below(line, line2, p));
    let c = quote_end(line, 0);
    lemma_quote_end_agree(line, line2, 0, p);
    let a = after_bullet(line, c)->0;
    lemma_after_bullet_agree(line, line2, c, p);
    lemma_skip_blanks_agree(line, line2, a, p);
    assert(line2[p - 1] == line[p - 1]);
    assert(line2[p + 1] == line[p + 1]);
    assert(line2[p] == mark);
    let r = line.skip(c);
    let r2 = line2.skip(c);
    assert(r.len() == r2.len());
    assert(r2[0] == r[0] && r2[1] == r[1] && r2[2] == r[2]);
}

proof fn lemma_find_task_found(lines: Seq<Seq<char>>, i: int, fence: Option<char>, count: int, wanted: int)
    requires
        0 <= i,
        find_task(lines, i, fence, count, wanted) is Some,
    ensures
        ({
            let (j, p) = find_task(lines, i, fence, count, wanted)->0;
            &&& i <= j < lines.len()
            &&& task_marker(lines[j]) == Some(p)
        }),
    decreases lines.len() - i,
{
    if i < lines.len() {
        match fence_of(lines[i]) {
            Some(m) => lemma_find_task_found(lines, i + 1, next_fence(fence, m), count, wanted),
            None => if fence is Some {
                lemma_find_task_found(lines, i + 1, fence, count, wanted)
            } else {
                match task_marker(lines[i]) {
                    Some(p) => if count != wanted {
                        lemma_find_task_found(lines, i + 1, fence, count + 1, wanted)
                    },
                    None => lemma_find_task_found(lines, i + 1, fence, count, wanted),
                }
            },
        }
    }
}

proof fn lemma_find_task_same(
    a: Seq<Seq<char>>,
    b: Seq<Seq<char>>,
    i: int,
    fence: Option<char>,
    count: int,
    wanted: int,
)
    requires
        a.len() == b.len(),
        forall|j: int|
            0 <= j < a.len() ==> fence_of(#[trigger] a[j]) == fence_of(b[j]) && task_marker(a[j])
                == task_marker(b[j]),
    ensures
        find_task(a, i, fence, count, wanted) == find_task(b, i, fence, count, wanted),
    decreases a.len() - i,
{
    if 0 <= i < a.len() {
        assert(fence_of(a[i]) == fence_of(b[i]) && task_marker(a[i]) == task_marker(b[i]));
        match fence_of(a[i]) {
            Some(m) => lemma_find_task_same(a, b, i + 1, next_fence(fence, m), count, wanted),
            None => {
                lemma_find_task_same(a, b, i + 1, fence, count, wanted);
                lemma_find_task_same(a, b, i + 1, fence, count + 1, wanted);
            },
        }
    }
}

/// Checking or unchecking a task is what a later read finds: the same task
/// number is at the same place and carries the new mark. Setting it back to
/// the mark it had (' ' or 'x') gives the note back unchanged.
pub proof fn task_set_reads_back(md: Seq<char>, wanted: int, checked: bool)
    requires
        set_task_spec(md, wanted, checked) is Some,
    ensures
        ({
            let lines = split_on(md, '\n');
            let (i, p) = find_task(lines, 0, None, 0, wanted)->0;
            let md2 = set_task_spec(md, wanted, checked)->0;
            let lines2 = split_on(md2, '\n');
            &&& find_task(lines2, 0, None, 0, wanted) == Some((i, p))
            &&& lines2[i][p] == (if checked {
                'x'
            } else {
                ' '
            })
            &&& (lines[i][p] == ' ' || lines[i][p] == 'x') ==> set_task_spec(
                md2,
                wanted,
                lines[i][p] == 'x',
            ) == Some(md)
        }),
{
    let lines = split_on(md, '\n');
    let (i, p) = find_task(lines, 0, None, 0, wanted)->0;
    lemma_find_task_found(lines, 0, None, 0, wanted);
    lemma_task_marker_shape(lines[i]);
    let mark = if checked {
        'x'
    } else {
        ' '
    };
    let line2 = lines[i].update(p, mark);
    let l2 = lines.update(i, line2);
    lemma_split_pieces(md, '\n');
    assert forall|j: int| 0 <= j < l2.len() implies !has_char(#[trigger] l2[j], '\n') by {
        if j == i {
            assert(!has_char(lines[i], '\n'));
            if has_char(line2, '\n') {
                let k = choose|k: int| 0 <= k < line2.len() && line2[k] == '\n';
                assert(lines[i][k] == '\n');
            }
        } else {
            assert(l2[j] == lines[j]);
        }
    }
    lemma_split_join(l2, '\n');
    lemma_remark_line(lines[i], mark);
    assert forall|j: int|
        0 <= j < lines.len() implies fence_of(#[trigger] lines[j]) == fence_of(l2[j]) && task_marker(
        lines[j],
    ) == task_marker(l2[j]) by {
        if j != i {
            assert(l2[j] == lines[j]);
        }
    }
    lemma_find_task_same(lines, l2, 0, None, 0, wanted);
    let o = lines[i][p];
    if o == ' ' || o == 'x' {
        assert(line2.update(p, o) =~= lines[i]);
        assert(l2.update(i, l2[i].update(p, o)) =~= lines);
        lemma_join_split(md, '\n');
    }
}

/// Where piece `i` starts in the pieces joined with a separator.
pub open spec fn join_offset(parts: Seq<Seq<char>>, sep: char, i: int) -> int {
    if i == 0 {
        0
    } else {
        join(parts.take(i), sep).len() + 1int
    }
}

/// Changing one character of one piece changes one character of the joined
/// text, the one at the piece's offset plus the character's index.
pub proof fn lemma_join_update(parts: Seq<Seq<char>>, sep: char, i: int, p: int, m: char)
    requires
        0 <= i < parts.len(),
        0 <= p < parts[i].len(),
    ensures
        0 <= join_offset(parts, sep, i) + p < join(parts, sep).len(),
        join(parts, sep)[join_offset(parts, sep, i) + p] == parts[i][p],
        join(parts.update(i, parts[i].update(p, m)), sep) == join(parts, sep).update(
            join_offset(parts, sep, i) + p,
            m,
        ),
    decreases parts.len(),
{
    let u = parts.update(i, parts[i].update(p, m));
    if parts.len() > 1 {
        let d = parts.drop_last();
        let l = parts.last();
        let jd = join(d, sep);
        if i == parts.len() - 1 {
            assert(parts.take(i) =~= d);
            assert(u.drop_last() =~= d);
            assert(u.last() == l.update(p, m));
            let k = jd.len() + 1 + p;
            assert(jd.push(sep) + l.update(p, m) =~= (jd.push(sep) + l).update(k, m));
        } else {
            assert(u.drop_last() =~= d.update(i, d[i].update(p, m)));
            assert(u.last() == l);
            assert(d[i] == parts[i]);
            assert(d.take(i) =~= parts.take(i));
            lemma_join_update(d, sep, i, p, m);
            let k = join_offset(d, sep, i) + p;
            assert(join(u.drop_last(), sep).push(sep) + l =~= (jd.push(sep) + l).update(k, m));
        }
    }
}

/// The mark a set task box gets.
pub open spec fn task_mark(checked: bool) -> char {
    if checked {
        'x'
    } else {
        ' '
    }
}

/// `md2` is `md` with one task mark, a ' ', 'x' or 'X' between '[' and ']',
/// replaced by `mark`.
pub open spec fn one_mark_changed(md: Seq<char>, md2: Seq<char>, mark: char) -> bool {
    exists|k: int|
        1 <= k && k + 1 < md.len() && md[k - 1] == '[' && (md[k] == ' ' || md[k] == 'x' || md[k]
            == 'X') && md[k + 1] == ']' && #[trigger] md.update(k, mark) == md2
}

/// `b2` is `b` with one byte, a ' ', 'x' or 'X' between a '[' and a ']',
/// replaced by `mark`.
pub open spec fn one_mark_byte_changed(b: Seq<u8>, b2: Seq<u8>, mark: u8) -> bool {
    exists|kb: int|
        1 <= kb && kb + 1 < b.len() && b[kb - 1] == 91 && (b[kb] == 32 || b[kb] == 120 || b[kb]
            == 88) && b[kb + 1] == 93 && #[trigger] b.update(kb, mark) == b2
}

proof fn lemma_one_mark_bytes(md: Seq<char>, k: int, mark: char)
    requires
        1 <= k && k + 1 < md.len(),
        md[k - 1] == '[' && md[k + 1] == ']',
        md[k] == ' ' || md[k] == 'x' || md[k] == 'X',
        mark == ' ' || mark == 'x',
    ensures
        one_mark_byte_changed(encode_utf8(md), encode_utf8(md.update(k, mark)), (mark as u32) as u8),
{
    let md2 = md.update(k, mark);
    let a0 = md.take(k - 1);
    let b0 = md.skip(k + 2);
    assert(md =~= a0 + seq!['['] + seq![md[k]] + seq![']'] + b0);
    assert(md2 =~= a0 + seq!['['] + seq![mark] + seq![']'] + b0);
    lemma_encode_utf8_add(a0 + seq!['['] + seq![md[k]] + seq![']'], b0);
    lemma_encode_utf8_add(a0 + seq!['['] + seq![md[k]], seq![']']);
    lemma_encode_utf8_add(a0 + seq!['['], seq![md[k]]);
    lemma_encode_utf8_add(a0, seq!['[']);
    lemma_encode_utf8_add(a0 + seq!['['] + seq![mark] + seq![']'], b0);
    lemma_encode_utf8_add(a0 + seq!['['] + seq![mark], seq![']']);
    lemma_encode_utf8_add(a0 + seq!['['], seq![mark]);
    lemma_ascii_char_bytes(md[k]);
    lemma_ascii_char_bytes(mark);
    lemma_ascii_char_bytes('[');
    lemma_ascii_char_bytes(']');
    let e = encode_utf8(a0);
    let kb: int = e.len() + 1int;
    let tail = encode_utf8(b0);
    assert(encode_utf8(md) =~= e + seq![91u8] + seq![(md[k] as u32) as u8] + seq![93u8] + tail);
    assert(encode_utf8(md2) =~= e + seq![91u8] + seq![(mark as u32) as u8] + seq![93u8] + tail);
    assert(encode_utf8(md).update(kb, (mark as u32) as u8) =~= encode_utf8(md2));
    assert(encode_utf8(md)[kb - 1] == 91u8);
    assert(encode_utf8(md)[kb + 1] == 93u8);
    assert(encode_utf8(md)[kb] == (md[k] as u32) as u8);
}

/// Setting a task's box changes exactly one character of the note, and one
/// byte of its UTF-8: the mark between the '[' and ']' of that task, which
/// was ' ', 'x' or 'X' and becomes 'x' or ' '. The note keeps its length,
/// and setting the same task to the same value again changes nothing.
pub proof fn task_set_changes_one_mark(md: Seq<char>, wanted: int, checked: bool)
    requires
        set_task_spec(md, wanted, checked) is Some,
    ensures
        set_task_spec(md, wanted, checked)->0.len() == md.len(),
        one_mark_changed(md, set_task_spec(md, wanted, checked)->0, if checked { 'x' } else { ' ' }),
        one_mark_byte_changed(
            encode_utf8(md),
            encode_utf8(set_task_spec(md, wanted, checked)->0),
            if checked { 120u8 } else { 32u8 },
        ),
        set_task_spec(set_task_spec(md, wanted, checked)->0, wanted, checked) == set_task_spec(
            md,
            wanted,
            checked,
        ),
        exists|k: int|
            1 <= k && k + 1 < md.len() && md[k - 1] == '[' && md[k + 1] == ']' && (md[k] == ' '
                || md[k] == 'x' || md[k] == 'X') && #[trigger] md.update(k, task_mark(checked))
                == set_task_spec(md, wanted, checked)->0 && (md[k] != 'X' ==> set_task_spec(
                set_task_spec(md, wanted, checked)->0,
                wanted,
                md[k] == 'x',
            ) == Some(md)),
{
    let lines = split_on(md, '\n');
    let (i, p) = find_task(lines, 0, None, 0, wanted)->0;
    let mark = if checked {
        'x'
    } else {
        ' '
    };
    let md2 = set_task_spec(md, wanted, checked)->0;
    lemma_find_task_found(lines, 0, None, 0, wanted);
    lemma_task_marker_shape(lines[i]);
    lemma_join_split(md, '\n');
    let k = join_offset(lines, '\n', i) + p;
    lemma_join_update(lines, '\n', i, p, mark);
    lemma_join_update(lines, '\n', i, p - 1, mark);
    lemma_join_update(lines, '\n', i, p + 1, mark);
    assert(md[k - 1] == '[' && md[k + 1] == ']');
    assert(md[k] == ' ' || md[k] == 'x' || md[k] == 'X');
    assert(md2 == md.update(k, mark));
    assert(one_mark_changed(md, md2, mark));
    lemma_one_mark_bytes(md, k, mark);
    assert((mark as u32) as u8 == if checked { 120u8 } else { 32u8 });
    // The task is found again at the same place, already marked.
    task_set_reads_back(md, wanted, checked);
    assert(md[k] == lines[i][p]);
    assert(md.update(k, task_mark(checked)) == md2);
    let lines2 = split_on(md2, '\n');
    lemma_find_task_found(lines2, 0, None, 0, wanted);
    lemma_task_marker_shape(lines2[i]);
    assert(lines2[i].update(p, mark) =~= lines2[i]);
    assert(lines2.update(i, lines2[i]) =~= lines2);
    lemma_join_split(md2, '\n');
}

} // verus!
