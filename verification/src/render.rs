//! Rendering a note to the HTML the preview panel shows.
//!
//! Three things happen here that plain CommonMark rendering does not do:
//!
//! - Every top-level block, and every list item, carries the source line it
//!   came from, so clicking it can open an editor on exactly those bytes.
//! - Relative image paths are rewritten onto `/api/asset/`, because the browser
//!   would otherwise resolve them against the page URL.
//! - `[[wiki links]]` become anchors the app intercepts, and task checkboxes
//!   become live inputs that write back to the Markdown.
//!
//! pulldown-cmark hands back the exact byte range of every event, so each
//! annotation is computed from the source position rather than searched for.
use vstd::prelude::*;
use vstd::utf8::*;
use vstd::string::StringSliceAdditionalSpecFns;
use crate::text::{
    decimal, is_whitespace, lemma_ascii_boundaries, push_char, push_decimal, push_str, to_chars,
    trim_start, views,
};
use crate::assets::{opt_view, prefix_before_ws, url, url_spec};
use crate::markdown::{
    note_dialect, note_dialect_spec, note_events, note_html, parse, MdEnd, MdEventView, MdKind, MdTag,
    Parsed,
};
use crate::source::{block_ranges_spec, blocks_from, count_newlines, newlines_before};
use crate::wikilinks::{
    all_ranges, is_link, lemma_links_from, links_from, parse_spec, resolve_spec, spans_view,
};
use crate::text::byte_slice;

verus! {

broadcast use encode_utf8_valid_utf8, encode_utf8_decode_utf8;

// ── Specifications: pieces of HTML ──

/// One character, HTML-escaped.
pub open spec fn escape_char(c: char) -> Seq<char> {
    if c == '&' {
        "&amp;"@
    } else if c == '<' {
        "&lt;"@
    } else if c == '>' {
        "&gt;"@
    } else {
        seq![c]
    }
}

/// Text escaped for an HTML text node.
pub open spec fn escape_html_spec(s: Seq<char>) -> Seq<char>
    decreases s.len(),
{
    if s.len() == 0 {
        Seq::empty()
    } else {
        escape_html_spec(s.drop_last()) + escape_char(s.last())
    }
}

/// One character, escaped for an attribute value.
pub open spec fn escape_attr_char(c: char) -> Seq<char> {
    if c == '"' {
        "&quot;"@
    } else {
        escape_char(c)
    }
}

/// Text escaped for a double-quoted attribute value.
pub open spec fn escape_attr_spec(s: Seq<char>) -> Seq<char>
    decreases s.len(),
{
    if s.len() == 0 {
        Seq::empty()
    } else {
        escape_attr_spec(s.drop_last()) + escape_attr_char(s.last())
    }
}

/// A task checkbox the reader can click.
pub open spec fn task_html(checked: bool, index: nat) -> Seq<char> {
    "<input type=\"checkbox\" class=\"interactive-task-checkbox\" data-task-index=\""@ + decimal(
        index,
    ) + "\""@ + (if checked {
        " checked aria-label=\"Mark task incomplete\"> "@
    } else {
        " aria-label=\"Mark task complete\"> "@
    })
}

/// An image whose vault path is rewritten onto /api/asset.
pub open spec fn image_html(src: Seq<char>, alt: Seq<char>, note: Option<Seq<char>>) -> Seq<char> {
    "<img src=\""@ + escape_attr_spec(url_spec(src, note)) + "\" alt=\""@ + escape_attr_spec(alt)
        + "\" loading=\"lazy\" title=\""@ + escape_attr_spec(src) + "\">"@
}

/// One wiki link, from the parts of its body.
pub open spec fn wikilink_html(
    link: (Seq<char>, Seq<char>, Seq<char>, Seq<char>),
    note: Option<Seq<char>>,
    notes: Seq<Seq<char>>,
) -> Seq<char> {
    let path = link.1;
    let target = resolve_spec(path, note, notes);
    let class = if target is Some {
        "wikilink"@
    } else {
        "wikilink is-missing"@
    };
    let title = match target {
        Some(p) => p,
        None => path + " — not created yet"@,
    };
    "<a class=\""@ + class + "\" data-wikilink=\""@ + escape_attr_spec(path) + "\" title=\""@
        + escape_attr_spec(title) + "\">"@ + escape_html_spec(link.3) + "</a>"@
}

/// Whether any link overlaps the byte range `[start, end)`.
pub open spec fn overlaps_spec(links: Seq<(int, int)>, start: int, end: int) -> bool {
    exists|k: int| 0 <= k < links.len() && (#[trigger] links[k]).0 < end && start < links[k].1
}

/// A run of source text from `links[k..]` on, with `cursor` the first byte
/// not yet written, for a text event spanning `[rs, re)`.
pub open spec fn linked_text(
    bytes: Seq<u8>,
    links: Seq<(int, int)>,
    k: int,
    cursor: int,
    rs: int,
    re: int,
    note: Option<Seq<char>>,
    notes: Seq<Seq<char>>,
) -> Seq<char>
    decreases links.len() - k,
{
    if k < 0 || k >= links.len() {
        if cursor < re {
            escape_html_spec(decode_utf8(bytes.subrange(cursor, re)))
        } else {
            Seq::empty()
        }
    } else {
        let (s, e) = links[k];
        if e <= cursor || s >= re {
            linked_text(bytes, links, k + 1, cursor, rs, re, note, notes)
        } else {
            (if s > cursor {
                escape_html_spec(
                    decode_utf8(
                        bytes.subrange(
                            cursor,
                            if s < re {
                                s
                            } else {
                                re
                            },
                        ),
                    ),
                )
            } else {
                Seq::empty()
            }) + (if s >= rs {
                wikilink_html(parse_spec(decode_utf8(bytes.subrange(s + 2, e - 2))), note, notes)
            } else {
                Seq::empty()
            }) + linked_text(
                bytes,
                links,
                k + 1,
                if e > cursor {
                    e
                } else {
                    cursor
                },
                rs,
                re,
                note,
                notes,
            )
        }
    }
}

/// A text event that touches a wiki link: its source with each link written
/// as an anchor, or just the escaped text when the event is not a verbatim
/// slice of the source.
pub open spec fn text_with_links(
    text: Seq<char>,
    rs: int,
    re: int,
    bytes: Seq<u8>,
    links: Seq<(int, int)>,
    note: Option<Seq<char>>,
    notes: Seq<Seq<char>>,
) -> Seq<char> {
    if encode_utf8(text).len() != re - rs || !(0 <= rs <= re <= bytes.len() && is_char_boundary(
        bytes,
        rs,
    ) && is_char_boundary(bytes, re)) {
        escape_html_spec(text)
    } else {
        linked_text(bytes, links, 0, rs, rs, re, note, notes)
    }
}

/// Where the renderer is inside a table.
pub struct TableView {
    pub aligns: Seq<u8>,
    pub column: int,
    pub in_head: bool,
    pub inside: bool,
}

pub open spec fn table_start(t: TableView, tag: MdTag, aligns: Seq<u8>) -> TableView {
    match tag {
        MdTag::Table => TableView { aligns, inside: true, ..t },
        MdTag::TableHead => TableView { in_head: true, column: 0, ..t },
        MdTag::TableRow => TableView { column: 0, ..t },
        _ => t,
    }
}

pub open spec fn table_end(t: TableView, end: MdEnd) -> TableView {
    match end {
        MdEnd::Table => TableView { inside: false, aligns: Seq::empty(), ..t },
        MdEnd::TableHead => TableView { in_head: false, ..t },
        MdEnd::TableCell => TableView { column: t.column + 1, ..t },
        _ => t,
    }
}

/// The opening tag of the cell now starting: th in the head, td in the body,
/// with its column's alignment.
pub open spec fn cell_html(t: TableView) -> Seq<char> {
    let name = if t.in_head {
        "th"@
    } else {
        "td"@
    };
    let align = if 0 <= t.column < t.aligns.len() {
        t.aligns[t.column]
    } else {
        0
    };
    if align == 1 {
        "<"@ + name + " style=\"text-align: left\">"@
    } else if align == 2 {
        "<"@ + name + " style=\"text-align: center\">"@
    } else if align == 3 {
        "<"@ + name + " style=\"text-align: right\">"@
    } else {
        "<"@ + name + ">"@
    }
}

pub open spec fn heading_name(level: u8) -> Seq<char> {
    if level == 1 {
        "h1"@
    } else if level == 2 {
        "h2"@
    } else if level == 3 {
        "h3"@
    } else if level == 4 {
        "h4"@
    } else if level == 5 {
        "h5"@
    } else {
        "h6"@
    }
}

pub open spec fn heading_close(level: u8) -> Seq<char> {
    if level == 1 {
        "</h1>\n"@
    } else if level == 2 {
        "</h2>\n"@
    } else if level == 3 {
        "</h3>\n"@
    } else if level == 4 {
        "</h4>\n"@
    } else if level == 5 {
        "</h5>\n"@
    } else {
        "</h6>\n"@
    }
}

/// The annotations a tag carries: its source line and its block index.
pub open spec fn attrs_html(line: Option<nat>, block: Option<nat>) -> Seq<char> {
    (match line {
        Some(l) => " data-md-line-index=\""@ + decimal(l) + "\""@,
        None => Seq::empty(),
    }) + (match block {
        Some(b) => " data-md-block-index=\""@ + decimal(b) + "\""@,
        None => Seq::empty(),
    })
}

/// The language class of a fenced code block: the first word of its info.
pub open spec fn code_class(fenced: bool, info: Seq<char>) -> Seq<char> {
    let lang = prefix_before_ws(trim_start(info));
    if fenced && lang.len() > 0 {
        " class=\"language-"@ + escape_attr_spec(lang) + "\""@
    } else {
        Seq::empty()
    }
}

/// The opening tag for the blocks written by hand, or None to leave the tag
/// to pulldown-cmark.
pub open spec fn open_html(
    tag: MdTag,
    info: Seq<char>,
    line: Option<nat>,
    block: Option<nat>,
    t: TableView,
) -> Option<Seq<char>> {
    let a = attrs_html(line, block);
    match tag {
        MdTag::Paragraph => Some("<p"@ + a + ">"@),
        MdTag::Heading(level) => Some("<"@ + heading_name(level) + a + ">"@),
        MdTag::BlockQuote => Some("<blockquote"@ + a + ">"@),
        MdTag::List(Some(start)) => if start == 1 {
            Some("<ol"@ + a + ">"@)
        } else {
            Some("<ol"@ + a + " start=\""@ + decimal(start as nat) + "\">"@)
        },
        MdTag::List(None) => Some("<ul"@ + a + ">"@),
        MdTag::Item => Some("<li"@ + a + ">"@),
        MdTag::Table => Some("<table"@ + a + ">"@),
        MdTag::TableHead => Some("<thead><tr>"@),
        MdTag::TableRow => Some("<tr>"@),
        MdTag::TableCell => Some(cell_html(t)),
        MdTag::CodeBlock(fenced) => Some("<pre"@ + a + "><code"@ + code_class(fenced, info) + ">"@),
        _ => None,
    }
}

/// The closing tag for the blocks written by hand.
pub open spec fn close_html(end: MdEnd, t: TableView) -> Option<Seq<char>> {
    match end {
        MdEnd::Paragraph => Some("</p>\n"@),
        MdEnd::Heading(level) => Some(heading_close(level)),
        MdEnd::BlockQuote => Some("</blockquote>\n"@),
        MdEnd::List(true) => Some("</ol>\n"@),
        MdEnd::List(false) => Some("</ul>\n"@),
        MdEnd::Item => Some("</li>\n"@),
        MdEnd::CodeBlock => Some("</code></pre>\n"@),
        MdEnd::Table => Some("</tbody></table>\n"@),
        MdEnd::TableHead => Some("</tr></thead><tbody>\n"@),
        MdEnd::TableRow => Some("</tr>\n"@),
        MdEnd::TableCell => Some(
            if t.in_head {
                "</th>"@
            } else {
                "</td>"@
            },
        ),
        _ => None,
    }
}

// ── Specifications: the renderer ──

/// The renderer's state between events.
pub struct RenderState {
    pub out: Seq<char>,
    pub depth: nat,
    pub block: nat,
    pub task: nat,
    /// Inside an image: its source and the alt text gathered so far.
    pub image: Option<(Seq<char>, Seq<char>)>,
    pub in_code: bool,
    pub table: TableView,
    /// Events left to pulldown-cmark's writer, not yet written.
    pub pending: Seq<usize>,
}

/// What the renderer knows throughout: the text, its bytes, its wiki links,
/// and the note's context.
pub struct RenderInput {
    pub md: Seq<char>,
    pub bytes: Seq<u8>,
    pub links: Seq<(int, int)>,
    pub note: Option<Seq<char>>,
    pub notes: Seq<Seq<char>>,
}

/// Writes out the pending events.
pub open spec fn flush_spec(md: Seq<char>, s: RenderState) -> RenderState {
    if s.pending.len() == 0 {
        s
    } else {
        RenderState { out: s.out + note_html(md, s.pending), pending: Seq::empty(), ..s }
    }
}

/// Flushes, then writes `html`.
pub open spec fn emit(md: Seq<char>, s: RenderState, html: Seq<char>) -> RenderState {
    let f = flush_spec(md, s);
    RenderState { out: f.out + html, ..f }
}

pub open spec fn less_one(d: nat) -> nat {
    if d > 0 {
        (d - 1) as nat
    } else {
        0
    }
}

/// The renderer's response to event `i`.
pub open spec fn step(inp: RenderInput, s: RenderState, i: usize, e: MdEventView) -> RenderState {
    match s.image {
        Some((src, alt)) => match e.kind {
            MdKind::End(MdEnd::Image) => emit(
                inp.md,
                RenderState { depth: less_one(s.depth), image: None, ..s },
                image_html(src, alt, inp.note),
            ),
            MdKind::Text | MdKind::Code => RenderState { image: Some((src, alt + e.text)), ..s },
            _ => s,
        },
        None => match e.kind {
            MdKind::Start(tag) => if tag == MdTag::Image {
                RenderState { image: Some((e.text, Seq::empty())), depth: s.depth + 1, ..s }
            } else {
                let line = count_newlines(
                    inp.bytes.take(
                        if e.start < inp.bytes.len() {
                            e.start
                        } else {
                            inp.bytes.len() as int
                        },
                    ),
                );
                let annotate = s.depth == 0 || tag == MdTag::Item;
                let in_code = if tag is CodeBlock {
                    true
                } else {
                    s.in_code
                };
                let table = table_start(s.table, tag, e.aligns);
                let block = tag is CodeBlock && s.depth == 0;
                let s0 = RenderState { in_code, table, ..s };
                let s1 = match open_html(
                    tag,
                    e.text,
                    if annotate {
                        Some(line)
                    } else {
                        None
                    },
                    if block {
                        Some(s.block)
                    } else {
                        None
                    },
                    table,
                ) {
                    Some(html) => emit(inp.md, s0, html),
                    None => RenderState { pending: s0.pending.push(i), ..s0 },
                };
                RenderState {
                    block: if s.depth == 0 {
                        s.block + 1
                    } else {
                        s.block
                    },
                    depth: s.depth + 1,
                    ..s1
                }
            },
            MdKind::End(end) => {
                let in_code = if end == MdEnd::CodeBlock {
                    false
                } else {
                    s.in_code
                };
                let s0 = RenderState { depth: less_one(s.depth), in_code, ..s };
                if end == MdEnd::Image {
                    s0
                } else {
                    let s1 = match close_html(end, s.table) {
                        Some(html) => emit(inp.md, s0, html),
                        None => RenderState { pending: s0.pending.push(i), ..s0 },
                    };
                    RenderState { table: table_end(s.table, end), ..s1 }
                }
            },
            MdKind::TaskListMarker(checked) => {
                let f = emit(inp.md, s, task_html(checked, s.task));
                RenderState { task: s.task + 1, ..f }
            },
            MdKind::Text => if !s.in_code && overlaps_spec(inp.links, e.start, e.end) {
                emit(
                    inp.md,
                    s,
                    text_with_links(e.text, e.start, e.end, inp.bytes, inp.links, inp.note, inp.notes),
                )
            } else {
                RenderState { pending: s.pending.push(i), ..s }
            },
            _ => RenderState { pending: s.pending.push(i), ..s },
        },
    }
}

/// The renderer's state after events `i..`, from state `s`.
pub open spec fn run(inp: RenderInput, evs: Seq<MdEventView>, i: int, s: RenderState) -> RenderState
    decreases evs.len() - i,
{
    if i < 0 || i >= evs.len() {
        s
    } else {
        run(inp, evs, i + 1, step(inp, s, i as usize, evs[i]))
    }
}

pub open spec fn initial_state() -> RenderState {
    RenderState {
        out: Seq::empty(),
        depth: 0,
        block: 0,
        task: 0,
        image: None,
        in_code: false,
        table: TableView { aligns: Seq::empty(), column: 0, in_head: false, inside: false },
        pending: Seq::empty(),
    }
}

/// The annotated HTML of `md` for a note at `note` in a vault holding `notes`.
pub open spec fn render_spec(md: Seq<char>, note: Option<Seq<char>>, notes: Seq<Seq<char>>) -> Seq<
    char,
> {
    render_events_spec(md, note, notes, note_events(md))
}

/// The annotated HTML the renderer makes of `evs`, the events of `md`.
pub open spec fn render_events_spec(
    md: Seq<char>,
    note: Option<Seq<char>>,
    notes: Seq<Seq<char>>,
    evs: Seq<MdEventView>,
) -> Seq<char> {
    let bytes = encode_utf8(md);
    let inp = RenderInput { md, bytes, links: links_from(bytes, 0), note, notes };
    flush_spec(md, run(inp, evs, 0, initial_state())).out
}

// ── Executable: pieces of HTML ──

/// Appends a string slice.

fn push_escaped(out: &mut String, s: &str, attr: bool)
    ensures
        final(out)@ == old(out)@ + if attr {
            escape_attr_spec(s@)
        } else {
            escape_html_spec(s@)
        },
{
    let chars = to_chars(s);
    let mut i: usize = 0;
    while i < chars.len()
        invariant
            i <= chars.len(),
            chars@ == s@,
            out@ == old(out)@ + if attr {
                escape_attr_spec(chars@.take(i as int))
            } else {
                escape_html_spec(chars@.take(i as int))
            },
        decreases chars.len() - i,
    {
        let c = chars[i];
        assert(chars@.take(i + 1 as int).drop_last() =~= chars@.take(i as int));
        let ghost before = out@;
        if attr && c == '"' {
            push_str(out, "&quot;");
        } else if c == '&' {
            push_str(out, "&amp;");
        } else if c == '<' {
            push_str(out, "&lt;");
        } else if c == '>' {
            push_str(out, "&gt;");
        } else {
            push_char(out, c);
        }
        i += 1;
        assert(out@ =~= old(out)@ + if attr {
            escape_attr_spec(chars@.take(i as int))
        } else {
            escape_html_spec(chars@.take(i as int))
        });
    }
    assert(chars@.take(chars.len() as int) =~= chars@);
}

fn escape_html(text: &str) -> (r: String)
    ensures
        r@ == escape_html_spec(text@),
{
    let mut out = String::new();
    push_escaped(&mut out, text, false);
    out
}

/// A task checkbox the reader can actually click.
///
/// CommonMark renders these disabled, because HTML alone cannot persist a click
/// back to Markdown. The index is what lets a click find its marker in the
/// source, counted in the same source order `set_task_checked` walks.
fn render_task(checked: bool, index: usize) -> (r: String)
    ensures
        r@ == task_html(checked, index as nat),
{
    let mut out = String::new();
    push_str(&mut out, "<input type=\"checkbox\" class=\"interactive-task-checkbox\" data-task-index=\"");
    push_decimal(&mut out, index as u64);
    push_str(&mut out, "\"");
    // The trailing space is part of the rendering, not decoration: the parser
    // consumes it with the marker, and without it the label runs into the box.
    if checked {
        push_str(&mut out, " checked aria-label=\"Mark task incomplete\"> ");
    } else {
        push_str(&mut out, " aria-label=\"Mark task complete\"> ");
    }
    out
}

/// An image, with its path rewritten onto /api/asset when it is a vault path.
///
/// The src as written becomes the title, so hovering says what the note actually
/// wrote rather than the rewritten URL.
fn render_image(src: &str, alt: &str, note_path: Option<&str>) -> (r: String)
    ensures
        r@ == image_html(src@, alt@, opt_view(note_path)),
{
    let mut out = String::new();
    push_str(&mut out, "<img src=\"");
    let target = url(src, note_path);
    push_escaped(&mut out, target.as_str(), true);
    push_str(&mut out, "\" alt=\"");
    push_escaped(&mut out, alt, true);
    push_str(&mut out, "\" loading=\"lazy\" title=\"");
    push_escaped(&mut out, src, true);
    push_str(&mut out, "\">");
    out
}

/// What a note needs to render: which note it is (for relative image paths) and
/// which notes exist (for resolving wiki links).
pub struct RenderContext<'a> {
    pub note_path: Option<&'a str>,
    pub notes: &'a [String],
}

impl RenderContext<'_> {
    pub fn empty() -> (c: RenderContext<'static>)
        ensures
            c.note_path is None,
            c.notes@.len() == 0,
    {
        RenderContext { note_path: None, notes: &[] }
    }
}

/// One wiki link.
///
/// The target goes in an attribute rather than an href: these open a note
/// inside the app, and a real href would navigate the page away.
fn render_wikilink(body: &str, context: &RenderContext) -> (r: String)
    ensures
        r@ == wikilink_html(parse_spec(body@), opt_view(context.note_path), views(context.notes@)),
{
    let link = crate::wikilinks::parse(body);
    let target = crate::wikilinks::resolve(link.path.as_str(), context.note_path, context.notes);
    let mut out = String::new();
    push_str(&mut out, "<a class=\"");
    match &target {
        Some(_) => push_str(&mut out, "wikilink"),
        None => push_str(&mut out, "wikilink is-missing"),
    }
    push_str(&mut out, "\" data-wikilink=\"");
    push_escaped(&mut out, link.path.as_str(), true);
    push_str(&mut out, "\" title=\"");
    match &target {
        Some(path) => push_escaped(&mut out, path.as_str(), true),
        None => {
            let mut title = link.path.clone();
            assert(title@ == link.path@);
            push_str(&mut title, " — not created yet");
            push_escaped(&mut out, title.as_str(), true);
        },
    }
    push_str(&mut out, "\">");
    push_escaped(&mut out, link.label.as_str(), false);
    push_str(&mut out, "</a>");
    out
}

/// Whether a source range touches any wiki link.
fn overlaps(links: &Vec<(usize, usize)>, start: usize, end: usize) -> (r: bool)
    ensures
        r == overlaps_spec(spans_view(links@), start as int, end as int),
{
    let mut k: usize = 0;
    while k < links.len()
        invariant
            k <= links.len(),
            forall|j: int|
                0 <= j < k ==> !((#[trigger] links@[j]).0 < end && start < links@[j].1),
        decreases links.len() - k,
    {
        if links[k].0 < end && start < links[k].1 {
            assert(spans_view(links@)[k as int] == (links@[k as int].0 as int, links@[k as int].1 as int));
            return true;
        }
        k += 1;
    }
    assert forall|j: int| 0 <= j < spans_view(links@).len() implies !((
    #[trigger] spans_view(links@)[j]).0 < end && start < spans_view(links@)[j].1) by {
        assert(spans_view(links@)[j] == (links@[j].0 as int, links@[j].1 as int));
    }
    false
}

/// Render one text run that touches at least one wiki link.
///
/// The events covering a link are emitted as nothing until the one that starts
/// it, which emits the whole anchor — so the brackets pulldown-cmark hands back
/// separately never reach the output.
fn render_text_with_links(
    text: &str,
    start: usize,
    end: usize,
    markdown: &str,
    links: &Vec<(usize, usize)>,
    context: &RenderContext,
) -> (r: String)
    requires
        spans_view(links@) == links_from(markdown.spec_bytes(), 0),
    ensures
        r@ == text_with_links(
            text@,
            start as int,
            end as int,
            markdown.spec_bytes(),
            spans_view(links@),
            opt_view(context.note_path),
            views(context.notes@),
        ),
{
    let bytes = markdown.as_bytes();
    // Offsets into the event's text are only comparable with source offsets
    // when the event is a verbatim slice. Entity-decoded text is not, so fall
    // back to plain escaping rather than slicing at the wrong place.
    if !(start <= end && end <= bytes.len() && text.as_bytes().len() == end - start
        && markdown.is_char_boundary(start) && markdown.is_char_boundary(end)) {
        return escape_html(text);
    }
    let ghost lv = spans_view(links@);
    let ghost note = opt_view(context.note_path);
    let ghost notes = views(context.notes@);
    proof {
        lemma_links_from(bytes@, 0);
    }
    let mut out = String::new();
    let mut cursor = start;
    let mut k: usize = 0;
    while k < links.len()
        invariant
            k <= links.len(),
            bytes@ == markdown.spec_bytes(),
            lv == spans_view(links@),
            lv == links_from(bytes@, 0),
            note == opt_view(context.note_path),
            notes == views(context.notes@),
            forall|j: int| 0 <= j < lv.len() ==> is_link(bytes@, (#[trigger] lv[j]).0, lv[j].1),
            start <= cursor,
            start <= end <= bytes@.len(),
            cursor <= bytes@.len(),
            is_char_boundary(bytes@, cursor as int),
            is_char_boundary(bytes@, end as int),
            linked_text(bytes@, lv, 0, start as int, start as int, end as int, note, notes) == out@
                + linked_text(bytes@, lv, k as int, cursor as int, start as int, end as int, note, notes),
        decreases links.len() - k,
    {
        let (s, e) = links[k];
        assert(lv[k as int] == (s as int, e as int));
        assert(is_link(bytes@, s as int, e as int));
        let ghost before = out@;
        let ghost c0 = cursor as int;
        if !(e <= cursor || s >= end) {
            proof {
                lemma_ascii_boundaries(bytes@, s as int);
                lemma_ascii_boundaries(bytes@, s + 1);
                lemma_ascii_boundaries(bytes@, e - 2);
                lemma_ascii_boundaries(bytes@, e - 1);
            }
            let ghost p1 = if (s as int) > c0 {
                escape_html_spec(decode_utf8(bytes@.subrange(c0, s as int)))
            } else {
                Seq::<char>::empty()
            };
            let ghost p2 = if s >= start {
                wikilink_html(parse_spec(decode_utf8(bytes@.subrange(s + 2, e - 2))), note, notes)
            } else {
                Seq::<char>::empty()
            };
            // Text before the link, if this run holds any of it.
            if s > cursor {
                let piece = byte_slice(markdown, cursor, s);
                assert(piece@ == decode_utf8(bytes@.subrange(c0, s as int)));
                push_escaped(&mut out, piece, false);
            }
            assert(out@ =~= before + p1);
            // The link itself is emitted once, by the run that opens it.
            if s >= start {
                let body = byte_slice(markdown, s + 2, e - 2);
                assert(body@ == decode_utf8(bytes@.subrange(s + 2, e - 2)));
                let html = render_wikilink(body, context);
                assert(html@ == p2);
                push_str(&mut out, html.as_str());
            }
            assert(out@ =~= before + p1 + p2);
            cursor = if e > cursor {
                e
            } else {
                cursor
            };
            proof {
                let rest = linked_text(bytes@, lv, k + 1, cursor as int, start as int, end as int, note, notes);
                assert(linked_text(bytes@, lv, k as int, c0, start as int, end as int, note, notes)
                    == p1 + p2 + rest);
                assert(before + (p1 + p2 + rest) =~= out@ + rest);
            }
        }
        k += 1;
    }
    if cursor < end {
        let piece = byte_slice(markdown, cursor, end);
        push_escaped(&mut out, piece, false);
    }
    out
}

// ── Executable: tags ──

/// Where we are inside a table, which decides each cell's tag and alignment.
struct TableState {
    aligns: Vec<u8>,
    column: usize,
    in_head: bool,
    inside: bool,
}

impl View for TableState {
    type V = TableView;

    closed spec fn view(&self) -> TableView {
        TableView {
            aligns: self.aligns@,
            column: self.column as int,
            in_head: self.in_head,
            inside: self.inside,
        }
    }
}

impl TableState {
    fn note_start(&mut self, tag: MdTag, aligns: &Vec<u8>)
        ensures
            final(self)@ == table_start(old(self)@, tag, aligns@),
            final(self).column <= old(self).column,
    {
        match tag {
            MdTag::Table => {
                let mut copy: Vec<u8> = Vec::new();
                let mut k: usize = 0;
                while k < aligns.len()
                    invariant
                        k <= aligns.len(),
                        copy@ == aligns@.take(k as int),
                    decreases aligns.len() - k,
                {
                    copy.push(aligns[k]);
                    k += 1;
                    assert(copy@ =~= aligns@.take(k as int));
                }
                assert(aligns@.take(aligns.len() as int) =~= aligns@);
                self.aligns = copy;
                self.inside = true;
            },
            MdTag::TableHead => {
                self.in_head = true;
                self.column = 0;
            },
            MdTag::TableRow => {
                self.column = 0;
            },
            _ => {},
        }
    }

    fn note_end(&mut self, end: MdEnd)
        requires
            old(self).column < usize::MAX,
        ensures
            final(self)@ == table_end(old(self)@, end),
            final(self).column <= old(self).column + 1,
    {
        match end {
            MdEnd::Table => {
                self.inside = false;
                self.aligns = Vec::new();
            },
            MdEnd::TableHead => {
                self.in_head = false;
            },
            MdEnd::TableCell => {
                self.column += 1;
            },
            _ => {},
        }
    }

    /// The opening tag for the cell now starting.
    fn cell(&self) -> (r: String)
        ensures
            r@ == cell_html(self@),
    {
        let name = if self.in_head {
            "th"
        } else {
            "td"
        };
        let align = if self.column < self.aligns.len() {
            self.aligns[self.column]
        } else {
            0
        };
        let mut out = String::new();
        push_str(&mut out, "<");
        push_str(&mut out, name);
        if align == 1 {
            push_str(&mut out, " style=\"text-align: left\">");
        } else if align == 2 {
            push_str(&mut out, " style=\"text-align: center\">");
        } else if align == 3 {
            push_str(&mut out, " style=\"text-align: right\">");
        } else {
            push_str(&mut out, ">");
        }
        out
    }
}

fn heading_tag(level: u8) -> (r: &'static str)
    ensures
        r@ == heading_name(level),
{
    if level == 1 {
        "h1"
    } else if level == 2 {
        "h2"
    } else if level == 3 {
        "h3"
    } else if level == 4 {
        "h4"
    } else if level == 5 {
        "h5"
    } else {
        "h6"
    }
}

pub open spec fn opt_nat(o: Option<usize>) -> Option<nat> {
    match o {
        Some(n) => Some(n as nat),
        None => None,
    }
}

fn push_attrs(out: &mut String, line: Option<usize>, block: Option<usize>)
    ensures
        final(out)@ == old(out)@ + attrs_html(opt_nat(line), opt_nat(block)),
{
    if let Some(line) = line {
        push_str(out, " data-md-line-index=\"");
        push_decimal(out, line as u64);
        push_str(out, "\"");
    }
    if let Some(block) = block {
        push_str(out, " data-md-block-index=\"");
        push_decimal(out, block as u64);
        push_str(out, "\"");
    }
    assert(out@ =~= old(out)@ + attrs_html(opt_nat(line), opt_nat(block)));
}

fn push_code_class(out: &mut String, fenced: bool, info: &str)
    ensures
        final(out)@ == old(out)@ + code_class(fenced, info@),
{
    let chars = to_chars(info);
    let mut a: usize = 0;
    assert(chars@.skip(0) =~= chars@);
    while a < chars.len() && is_whitespace(chars[a])
        invariant
            a <= chars.len(),
            chars@ == info@,
            trim_start(chars@) == trim_start(chars@.skip(a as int)),
        decreases chars.len() - a,
    {
        assert(chars@.skip(a as int).drop_first() =~= chars@.skip(a + 1));
        a += 1;
    }
    let mut b: usize = a;
    while b < chars.len() && !is_whitespace(chars[b])
        invariant
            a <= b <= chars.len(),
            prefix_before_ws(chars@.skip(a as int)) == chars@.subrange(a as int, b as int)
                + prefix_before_ws(chars@.skip(b as int)),
        decreases chars.len() - b,
    {
        assert(chars@.skip(b as int).drop_first() =~= chars@.skip(b + 1));
        assert(chars@.subrange(a as int, b + 1 as int) =~= chars@.subrange(a as int, b as int).push(
            chars@[b as int],
        ));
        b += 1;
    }
    proof {
        if a == chars.len() {
            assert(chars@.skip(a as int) =~= Seq::<char>::empty());
        } else {
            assert(chars@.skip(a as int)[0] == chars@[a as int]);
        }
        if b == chars.len() {
            assert(chars@.skip(b as int) =~= Seq::<char>::empty());
        } else {
            assert(chars@.skip(b as int)[0] == chars@[b as int]);
        }
    }
    if fenced && b > a {
        push_str(out, " class=\"language-");
        let lang = crate::text::string_of(&chars, a, b);
        push_escaped(out, lang.as_str(), true);
        push_str(out, "\"");
    }
}

/// The opening tag for the blocks we annotate, or None to let the library
/// render this one.
fn open_tag(
    tag: MdTag,
    info: &str,
    line: Option<usize>,
    block: Option<usize>,
    table: &TableState,
) -> (r: Option<String>)
    ensures
        match open_html(tag, info@, opt_nat(line), opt_nat(block), table@) {
            Some(h) => r is Some && r.unwrap()@ == h,
            None => r is None,
        },
{
    let mut out = String::new();
    match tag {
        MdTag::Paragraph => {
            push_str(&mut out, "<p");
            push_attrs(&mut out, line, block);
            push_str(&mut out, ">");
        },
        MdTag::Heading(level) => {
            push_str(&mut out, "<");
            push_str(&mut out, heading_tag(level));
            push_attrs(&mut out, line, block);
            push_str(&mut out, ">");
        },
        MdTag::BlockQuote => {
            push_str(&mut out, "<blockquote");
            push_attrs(&mut out, line, block);
            push_str(&mut out, ">");
        },
        MdTag::List(Some(start)) => {
            push_str(&mut out, "<ol");
            push_attrs(&mut out, line, block);
            if start == 1 {
                push_str(&mut out, ">");
            } else {
                push_str(&mut out, " start=\"");
                push_decimal(&mut out, start);
                push_str(&mut out, "\">");
            }
        },
        MdTag::List(None) => {
            push_str(&mut out, "<ul");
            push_attrs(&mut out, line, block);
            push_str(&mut out, ">");
        },
        MdTag::Item => {
            push_str(&mut out, "<li");
            push_attrs(&mut out, line, block);
            push_str(&mut out, ">");
        },
        MdTag::Table => {
            push_str(&mut out, "<table");
            push_attrs(&mut out, line, block);
            push_str(&mut out, ">");
        },
        MdTag::TableHead => {
            push_str(&mut out, "<thead><tr>");
        },
        MdTag::TableRow => {
            push_str(&mut out, "<tr>");
        },
        MdTag::TableCell => {
            out = table.cell();
        },
        MdTag::CodeBlock(fenced) => {
            push_str(&mut out, "<pre");
            push_attrs(&mut out, line, block);
            push_str(&mut out, "><code");
            push_code_class(&mut out, fenced, info);
            push_str(&mut out, ">");
        },
        _ => {
            return None;
        },
    }
    Some(out)
}

fn close_tag(end: MdEnd, table: &TableState) -> (r: Option<&'static str>)
    ensures
        match close_html(end, table@) {
            Some(h) => r is Some && r.unwrap()@ == h,
            None => r is None,
        },
{
    match end {
        MdEnd::Paragraph => Some("</p>\n"),
        MdEnd::Heading(level) => {
            if level == 1 {
                Some("</h1>\n")
            } else if level == 2 {
                Some("</h2>\n")
            } else if level == 3 {
                Some("</h3>\n")
            } else if level == 4 {
                Some("</h4>\n")
            } else if level == 5 {
                Some("</h5>\n")
            } else {
                Some("</h6>\n")
            }
        },
        MdEnd::BlockQuote => Some("</blockquote>\n"),
        MdEnd::List(true) => Some("</ol>\n"),
        MdEnd::List(false) => Some("</ul>\n"),
        MdEnd::Item => Some("</li>\n"),
        MdEnd::CodeBlock => Some("</code></pre>\n"),
        MdEnd::Table => Some("</tbody></table>\n"),
        MdEnd::TableHead => Some("</tr></thead><tbody>\n"),
        MdEnd::TableRow => Some("</tr>\n"),
        MdEnd::TableCell => {
            if table.in_head {
                Some("</th>")
            } else {
                Some("</td>")
            }
        },
        _ => None,
    }
}

// ── Executable: the renderer ──

/// The renderer's state between events.
struct Renderer {
    out: String,
    depth: usize,
    block_index: usize,
    task_index: usize,
    /// Set while inside an image: its alt text is the events between Start
    /// and End, which are collected rather than rendered, since an <img> has
    /// no children.
    image: Option<(String, String)>,
    /// Tracked here rather than read back off the pending events: a code
    /// block's opening tag is written by hand, so it never reaches them.
    in_code: bool,
    /// pulldown-cmark's writer takes <th> vs <td> and each cell's alignment
    /// from the events it sees, so once the table is intercepted at all it is
    /// seen through here.
    table: TableState,
    pending: Vec<usize>,
}

impl View for Renderer {
    type V = RenderState;

    closed spec fn view(&self) -> RenderState {
        RenderState {
            out: self.out@,
            depth: self.depth as nat,
            block: self.block_index as nat,
            task: self.task_index as nat,
            image: match self.image {
                Some((src, alt)) => Some((src@, alt@)),
                None => None,
            },
            in_code: self.in_code,
            table: self.table@,
            pending: self.pending@,
        }
    }
}

/// What the renderer reads throughout, as plain values.
pub open spec fn input_of(
    markdown: &str,
    links: Seq<(usize, usize)>,
    context: &RenderContext,
) -> RenderInput {
    RenderInput {
        md: markdown@,
        bytes: markdown.spec_bytes(),
        links: spans_view(links),
        note: opt_view(context.note_path),
        notes: views(context.notes@),
    }
}

impl Renderer {
    /// Counters stay below the number of events seen, and pending events
    /// are among them.
    closed spec fn bounded(&self, n: int) -> bool {
        &&& self.depth <= n
        &&& self.block_index <= n
        &&& self.task_index <= n
        &&& self.table.column <= n
        &&& forall|k: int| 0 <= k < self.pending@.len() ==> self.pending@[k] < n
    }

    fn new() -> (r: Renderer)
        ensures
            r@ == initial_state(),
            r.bounded(0),
    {
        let r = Renderer {
            out: String::new(),
            depth: 0,
            block_index: 0,
            task_index: 0,
            image: None,
            in_code: false,
            table: TableState { aligns: Vec::new(), column: 0, in_head: false, inside: false },
            pending: Vec::new(),
        };
        assert(r@.table == initial_state().table);
        r
    }

    /// Hand any events not written by hand to pulldown-cmark's HTML writer.
    fn flush(&mut self, parsed: &Parsed)
        requires
            parsed.wf(),
            parsed.dialect() == note_dialect_spec(),
            forall|k: int| 0 <= k < old(self).pending@.len() ==> old(self).pending@[k]
                < parsed.events().len(),
        ensures
            final(self)@ == flush_spec(parsed.source(), old(self)@),
            final(self).depth == old(self).depth,
            final(self).block_index == old(self).block_index,
            final(self).task_index == old(self).task_index,
            final(self).table.column == old(self).table.column,
            final(self).pending@.len() == 0,
    {
        if self.pending.len() == 0 {
            return;
        }
        let html = parsed.html_of(&self.pending);
        push_str(&mut self.out, html.as_str());
        self.pending = Vec::new();
    }

    /// Flush, then write `html`.
    fn emit(&mut self, parsed: &Parsed, html: &str)
        requires
            parsed.wf(),
            parsed.dialect() == note_dialect_spec(),
            forall|k: int| 0 <= k < old(self).pending@.len() ==> old(self).pending@[k]
                < parsed.events().len(),
        ensures
            final(self)@ == emit(parsed.source(), old(self)@, html@),
            final(self).depth == old(self).depth,
            final(self).block_index == old(self).block_index,
            final(self).task_index == old(self).task_index,
            final(self).table.column == old(self).table.column,
            final(self).pending@.len() == 0,
    {
        self.flush(parsed);
        push_str(&mut self.out, html);
    }

    /// The response to event `i`.
    fn step(
        &mut self,
        parsed: &Parsed,
        markdown: &str,
        links: &Vec<(usize, usize)>,
        context: &RenderContext,
        i: usize,
    )
        requires
            parsed.wf(),
            parsed.dialect() == note_dialect_spec(),
            parsed.source() == markdown@,
            i < parsed.events().len(),
            i < usize::MAX,
            spans_view(links@) == links_from(markdown.spec_bytes(), 0),
            old(self).bounded(i as int),
        ensures
            final(self)@ == step(input_of(markdown, links@, context), old(self)@, i, parsed.events()[i as int]),
            final(self).bounded(i + 1),
    {
        let ghost inp = input_of(markdown, links@, context);
        let ghost s = self@;
        let e = parsed.event(i);
        // Inside an image, everything up to its End is alt text.
        if self.image.is_some() {
            let taken = self.image.take();
            match taken {
                Some((src, alt)) => {
                    match e.kind {
                        MdKind::End(MdEnd::Image) => {
                            self.depth = if self.depth > 0 { self.depth - 1 } else { 0 };
                            // Whatever came before the image is still
                            // buffered; without this the image is written
                            // ahead of its own paragraph.
                            let html = render_image(src.as_str(), alt.as_str(), context.note_path);
                            self.emit(parsed, html.as_str());
                        },
                        MdKind::Text | MdKind::Code => {
                            let mut alt = alt;
                            push_str(&mut alt, e.text.as_str());
                            self.image = Some((src, alt));
                        },
                        _ => {
                            self.image = Some((src, alt));
                        },
                    }
                },
                None => {},
            }
            return;
        }
        match e.kind {
            MdKind::Start(tag) => {
                if tag == MdTag::Image {
                    let dest = e.text.clone();
                    self.image = Some((dest, String::new()));
                    self.depth = self.depth + 1;
                    return;
                }
                let line = newlines_before(markdown.as_bytes(), e.start);
                // Only top-level blocks and list items are annotated: those
                // are the units the preview lets you click into.
                let annotate = self.depth == 0 || tag == MdTag::Item;
                if let MdTag::CodeBlock(_) = tag {
                    self.in_code = true;
                }
                self.table.note_start(tag, &e.aligns);
                let block = matches!(tag, MdTag::CodeBlock(_)) && self.depth == 0;
                let html = open_tag(
                    tag,
                    e.text.as_str(),
                    if annotate {
                        Some(line)
                    } else {
                        None
                    },
                    if block {
                        Some(self.block_index)
                    } else {
                        None
                    },
                    &self.table,
                );
                match html {
                    Some(html) => self.emit(parsed, html.as_str()),
                    // A tag not annotated by hand (footnotes, emphasis, links)
                    // is left to the library's own writer.
                    None => self.pending.push(i),
                }
                if self.depth == 0 {
                    self.block_index = self.block_index + 1;
                }
                self.depth = self.depth + 1;
            },
            MdKind::End(end) => {
                self.depth = if self.depth > 0 { self.depth - 1 } else { 0 };
                if end == MdEnd::CodeBlock {
                    self.in_code = false;
                }
                if end == MdEnd::Image {
                    return;
                }
                match close_tag(end, &self.table) {
                    Some(html) => self.emit(parsed, html),
                    None => self.pending.push(i),
                }
                self.table.note_end(end);
            },
            MdKind::TaskListMarker(checked) => {
                let html = render_task(checked, self.task_index);
                self.emit(parsed, html.as_str());
                self.task_index = self.task_index + 1;
            },
            // A text run that overlaps a wiki link is rewritten; everything
            // else is left to the library. Inline code arrives as Code and
            // fenced content as text inside a code block, so a link in a code
            // sample is never offered here.
            MdKind::Text => {
                if !self.in_code && overlaps(links, e.start, e.end) {
                    let html = render_text_with_links(
                        e.text.as_str(),
                        e.start,
                        e.end,
                        markdown,
                        links,
                        context,
                    );
                    self.emit(parsed, html.as_str());
                } else {
                    self.pending.push(i);
                }
            },
            _ => self.pending.push(i),
        }
    }
}

/// Render `markdown` to annotated HTML.
pub fn render(markdown: &str, context: &RenderContext) -> (html: String)
    ensures
        html@ == render_spec(markdown@, opt_view(context.note_path), views(context.notes@)),
{
    let parsed = parse(markdown, note_dialect());
    render_parsed(markdown, &parsed, context)
}

/// Render the parse of `markdown` to annotated HTML: what the renderer
/// decides for each of the parser's events.
pub fn render_parsed(markdown: &str, parsed: &Parsed, context: &RenderContext) -> (html: String)
    requires
        parsed.wf(),
        parsed.dialect() == note_dialect_spec(),
        parsed.source() == markdown@,
    ensures
        html@ == render_events_spec(
            markdown@,
            opt_view(context.note_path),
            views(context.notes@),
            parsed.events(),
        ),
{
    // Wiki links are located once over the whole source rather than by
    // scanning text events: pulldown-cmark splits "[[Ideas]]" into one event
    // per bracket, so no single event ever contains the syntax. Matching by
    // source range sidesteps that entirely — and because a link may not span
    // a newline, one document-wide scan is safe.
    let links = all_ranges(markdown);
    let ghost inp = input_of(markdown, links@, context);
    let ghost evs = parsed.events();
    let mut r = Renderer::new();
    let mut i: usize = 0;
    while i < parsed.len()
        invariant
            parsed.wf(),
            parsed.dialect() == note_dialect_spec(),
            parsed.source() == markdown@,
            evs == parsed.events(),
            inp == input_of(markdown, links@, context),
            spans_view(links@) == links_from(markdown.spec_bytes(), 0),
            i <= evs.len(),
            r.bounded(i as int),
            run(inp, evs, 0, initial_state()) == run(inp, evs, i as int, r@),
        decreases evs.len() - i,
    {
        r.step(parsed, markdown, &links, context, i);
        i += 1;
    }
    r.flush(parsed);
    assert(inp.links == links_from(encode_utf8(markdown@), 0));
    r.out
}

// ── Escaped text is inert ──

/// `s` holds none of the three characters.
pub open spec fn free_of(s: Seq<char>, x: char, y: char, z: char) -> bool {
    forall|i: int| 0 <= i < s.len() ==> s[i] != x && s[i] != y && s[i] != z
}

proof fn lemma_free_of_add(a: Seq<char>, b: Seq<char>, x: char, y: char, z: char)
    requires
        free_of(a, x, y, z),
        free_of(b, x, y, z),
    ensures
        free_of(a + b, x, y, z),
{
    assert forall|i: int| 0 <= i < (a + b).len() implies (a + b)[i] != x && (a + b)[i] != y && (a
        + b)[i] != z by {
        if i < a.len() {
            assert((a + b)[i] == a[i]);
        } else {
            assert((a + b)[i] == b[i - a.len()]);
        }
    }
}

/// Escaped text cannot open or close a tag, and escaped attribute text
/// cannot end its attribute: a note's text never becomes markup.
pub proof fn escaped_text_is_inert(s: Seq<char>)
    ensures
        free_of(escape_html_spec(s), '<', '>', '<'),
        free_of(escape_attr_spec(s), '<', '>', '"'),
    decreases s.len(),
{
    reveal_strlit("&amp;");
    reveal_strlit("&lt;");
    reveal_strlit("&gt;");
    reveal_strlit("&quot;");
    if s.len() > 0 {
        escaped_text_is_inert(s.drop_last());
        let c = s.last();
        assert(free_of(escape_char(c), '<', '>', '<'));
        assert(free_of(escape_attr_char(c), '<', '>', '"'));
        lemma_free_of_add(escape_html_spec(s.drop_last()), escape_char(c), '<', '>', '<');
        lemma_free_of_add(escape_attr_spec(s.drop_last()), escape_attr_char(c), '<', '>', '"');
    }
}

// ── Block indices agree with `block_ranges` ──

/// (nesting depth, top-level blocks begun) after the events before `i`,
/// counted the way `block_ranges` counts them.
pub open spec fn block_scan(evs: Seq<MdEventView>, i: int) -> (nat, nat)
    decreases i,
{
    if i <= 0 {
        (0, 0)
    } else {
        let (d, n) = block_scan(evs, i - 1);
        match evs[i - 1].kind {
            MdKind::Start(_) => (d + 1, if d == 0 {
                n + 1
            } else {
                n
            }),
            MdKind::End(_) => (less_one(d), n),
            _ => (d, n),
        }
    }
}

/// The depth at which the image open after the events before `i` began,
/// tracked as the renderer tracks it: an image opens at a Start(Image) and
/// closes at the next End(Image).
pub open spec fn image_scan(evs: Seq<MdEventView>, i: int) -> Option<nat>
    decreases i,
{
    if i <= 0 {
        None
    } else {
        let d = block_scan(evs, i - 1).0;
        match image_scan(evs, i - 1) {
            None => match evs[i - 1].kind {
                MdKind::Start(MdTag::Image) => Some(d),
                _ => None,
            },
            Some(k) => match evs[i - 1].kind {
                MdKind::End(MdEnd::Image) => None,
                _ => Some(k),
            },
        }
    }
}

/// Event `i` keeps images nested: an image starts inside a block, and what
/// its alt text opens is closed before the image ends.
pub open spec fn image_ok(evs: Seq<MdEventView>, i: int) -> bool {
    let d = block_scan(evs, i).0;
    match image_scan(evs, i) {
        None => evs[i].kind == MdKind::Start(MdTag::Image) ==> d >= 1,
        Some(k) => match evs[i].kind {
            MdKind::End(MdEnd::Image) => d == k + 1,
            MdKind::End(_) => d >= k + 2,
            _ => true,
        },
    }
}

/// Every event keeps images nested.
pub open spec fn images_nested(evs: Seq<MdEventView>) -> bool {
    forall|i: int| 0 <= i < evs.len() ==> #[trigger] image_ok(evs, i)
}

/// The renderer's state as it reaches event `i`.
pub open spec fn render_prefix(inp: RenderInput, evs: Seq<MdEventView>, i: int) -> RenderState
    decreases i,
{
    if i <= 0 {
        initial_state()
    } else {
        step(inp, render_prefix(inp, evs, i - 1), (i - 1) as usize, evs[i - 1])
    }
}

/// What the renderer knows of a note.
pub open spec fn render_input(md: Seq<char>, note: Option<Seq<char>>, notes: Seq<Seq<char>>) -> RenderInput {
    let bytes = encode_utf8(md);
    RenderInput { md, bytes, links: links_from(bytes, 0), note, notes }
}

/// Rendering runs through the states `render_prefix` names.
pub proof fn lemma_render_runs_prefix(inp: RenderInput, evs: Seq<MdEventView>, i: int)
    requires
        0 <= i <= evs.len(),
    ensures
        run(inp, evs, 0, initial_state()) == run(inp, evs, i, render_prefix(inp, evs, i)),
    decreases i,
{
    if i > 0 {
        lemma_render_runs_prefix(inp, evs, i - 1);
    }
}

/// The renderer's depth and block counter keep step with `block_scan`.
proof fn lemma_render_in_step(inp: RenderInput, evs: Seq<MdEventView>, i: int)
    requires
        images_nested(evs),
        0 <= i <= evs.len(),
    ensures
        ({
            let s = render_prefix(inp, evs, i);
            let (d, n) = block_scan(evs, i);
            &&& s.block == n
            &&& match image_scan(evs, i) {
                None => s.image is None && s.depth == d,
                Some(k) => s.image is Some && s.depth == k + 1 && d >= k + 1 && k >= 1,
            }
        }),
    decreases i,
{
    if i > 0 {
        lemma_render_in_step(inp, evs, i - 1);
        assert(image_ok(evs, i - 1));
    }
}

/// Block positions: the blocks `block_ranges` lists from event `i` on follow
/// the ones begun before it.
proof fn lemma_blocks_prefix(evs: Seq<MdEventView>, i: int)
    requires
        0 <= i <= evs.len(),
    ensures
        block_scan(evs, i).1 <= blocks_from(evs, 0, 0).len(),
        blocks_from(evs, 0, 0).skip(block_scan(evs, i).1 as int) == blocks_from(
            evs,
            i,
            block_scan(evs, i).0 as int,
        ),
    decreases i,
{
    if i == 0 {
        assert(blocks_from(evs, 0, 0).skip(0) =~= blocks_from(evs, 0, 0));
    } else {
        lemma_blocks_prefix(evs, i - 1);
        let (d, n) = block_scan(evs, i - 1);
        let all = blocks_from(evs, 0, 0);
        let rest = blocks_from(evs, i - 1, d as int);
        match evs[i - 1].kind {
            MdKind::Start(_) => {
                if d == 0 {
                    assert(rest == seq![(evs[i - 1].start, evs[i - 1].end)] + blocks_from(evs, i, 1));
                    assert(all.skip((n + 1) as int) =~= all.skip(n as int).skip(1));
                    assert(rest.skip(1) =~= blocks_from(evs, i, 1));
                } else {
                    assert(rest =~= Seq::<(int, int)>::empty() + blocks_from(evs, i, (d + 1) as int));
                }
            },
            MdKind::End(_) => {
                assert(rest == blocks_from(evs, i, less_one(d) as int));
            },
            _ => {},
        }
    }
}

/// A code block's `data-md-block-index` names that same block in
/// `block_ranges`: when the renderer reaches a top-level code block, it
/// writes an index (its depth is 0 and no image is open), and that index is
/// the block's position in `block_ranges`, so the preview and the editor
/// agree on what "block 3" means. Holds whenever the parser nests images
/// inside blocks and closes what an image's alt text opens before the image
/// ends.
pub proof fn block_index_matches_block_ranges(
    md: Seq<char>,
    note: Option<Seq<char>>,
    notes: Seq<Seq<char>>,
    i: int,
)
    requires
        images_nested(note_events(md)),
        0 <= i < note_events(md).len(),
        note_events(md)[i].kind matches MdKind::Start(MdTag::CodeBlock(_)),
        block_scan(note_events(md), i).0 == 0,
    ensures
        ({
            let evs = note_events(md);
            let inp = render_input(md, note, notes);
            let s = render_prefix(inp, evs, i);
            &&& render_spec(md, note, notes) == flush_spec(md, run(inp, evs, i, s)).out
            &&& s.image is None && s.depth == 0
            &&& s.block < block_ranges_spec(md).len()
            &&& block_ranges_spec(md)[s.block as int] == (evs[i].start, evs[i].end)
        }),
{
    let evs = note_events(md);
    let inp = render_input(md, note, notes);
    lemma_render_runs_prefix(inp, evs, i);
    lemma_render_in_step(inp, evs, i);
    lemma_blocks_prefix(evs, i);
    let (d, n) = block_scan(evs, i);
    let rest = blocks_from(evs, i, 0);
    assert(rest == seq![(evs[i].start, evs[i].end)] + blocks_from(evs, i + 1, 1));
    assert(blocks_from(evs, 0, 0).skip(n as int)[0] == rest[0]);
}

// ── A task box shows its mark ──

/// The opening of a task checkbox, up to and including its index attribute.
pub open spec fn task_box_open(index: nat) -> Seq<char> {
    "<input type=\"checkbox\" class=\"interactive-task-checkbox\" data-task-index=\""@ + decimal(
        index,
    ) + "\""@
}

/// A task list item's checkbox carries the `checked` attribute exactly when
/// the parser reports its marker as checked: the renderer writes the box,
/// numbered by how many boxes came before it, and right after the index
/// attribute comes " checked" for a ticked item and something else for an
/// open one. The next box gets the next number.
pub proof fn task_box_shows_its_mark(
    inp: RenderInput,
    s: RenderState,
    i: usize,
    e: MdEventView,
    checked: bool,
)
    requires
        s.image is None,
        e.kind == MdKind::TaskListMarker(checked),
    ensures
        ({
            let before = flush_spec(inp.md, s).out;
            let out = step(inp, s, i, e).out;
            let at = (before.len() + task_box_open(s.task).len()) as int;
            &&& out.len() >= at + 8
            &&& out.take(at) == before + task_box_open(s.task)
            &&& (out.subrange(at, at + 8) == " checked"@ <==> checked)
        }),
        step(inp, s, i, e).task == s.task + 1,
{
    reveal_strlit(" checked");
    reveal_strlit(" checked aria-label=\"Mark task incomplete\"> ");
    reveal_strlit(" aria-label=\"Mark task complete\"> ");
    let before = flush_spec(inp.md, s).out;
    let open = task_box_open(s.task);
    let tail = if checked {
        " checked aria-label=\"Mark task incomplete\"> "@
    } else {
        " aria-label=\"Mark task complete\"> "@
    };
    assert(task_html(checked, s.task) =~= open + tail);
    let out = step(inp, s, i, e).out;
    assert(out =~= before + open + tail);
    let at = (before.len() + open.len()) as int;
    assert(out.take(at) =~= before + open);
    assert(out.subrange(at, at + 8) =~= tail.take(8));
    if checked {
        assert(tail.take(8) =~= " checked"@);
    } else {
        assert(tail.take(8)[1] == 'a');
        assert(" checked"@[1] == 'c');
    }
}

} // verus!
