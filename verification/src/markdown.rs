//! The parsed form of a note: pulldown-cmark's events, read into plain values.
//!
//! The renderer and the block locator decide everything from these values;
//! pulldown-cmark parses, and writes HTML for the events the renderer leaves
//! to it.
use vstd::prelude::*;
use vstd::string::StringSliceAdditionalSpecFns;
use pulldown_cmark::{CodeBlockKind, Event, Options, Parser, Tag, TagEnd};

verus! {

#[verifier::external_type_specification]
#[verifier::external_body]
pub struct ExEvent<'a>(Event<'a>);

#[verifier::external_type_specification]
#[verifier::external_body]
pub struct ExOptions(Options);

/// The opening tags the renderer tells apart.
#[derive(Clone, Copy, Debug, PartialEq, Eq, Structural)]
pub enum MdTag {
    Paragraph,
    /// A heading, by level 1 to 6.
    Heading(u8),
    BlockQuote,
    /// A list, with the number of its first item when ordered.
    List(Option<u64>),
    Item,
    /// A table; its column alignments are in the event's `aligns`.
    Table,
    TableHead,
    TableRow,
    TableCell,
    /// A code block, fenced (with its info string in the event's `text`) or
    /// indented.
    CodeBlock(bool),
    /// An image; its destination is in the event's `text`.
    Image,
    Other,
}

/// The closing tags the renderer tells apart.
#[derive(Clone, Copy, Debug, PartialEq, Eq, Structural)]
pub enum MdEnd {
    Paragraph,
    Heading(u8),
    BlockQuote,
    /// The end of a list, `true` for an ordered one.
    List(bool),
    Item,
    CodeBlock,
    Table,
    TableHead,
    TableRow,
    TableCell,
    Image,
    Other,
}

/// What kind of event this is.
#[derive(Clone, Copy, Debug, PartialEq, Eq, Structural)]
pub enum MdKind {
    Start(MdTag),
    End(MdEnd),
    /// A text node; its text is in the event's `text`.
    Text,
    /// Inline code; its text is in the event's `text`.
    Code,
    /// A task checkbox, `true` when checked.
    TaskListMarker(bool),
    Other,
}

/// One parser event with the byte range of the source it came from.
pub struct MdEvent {
    pub kind: MdKind,
    pub text: String,
    /// Column alignments of a table: 0 none, 1 left, 2 center, 3 right.
    pub aligns: Vec<u8>,
    pub start: usize,
    pub end: usize,
}

/// The plain-value view of one event.
pub struct MdEventView {
    pub kind: MdKind,
    pub text: Seq<char>,
    pub aligns: Seq<u8>,
    pub start: int,
    pub end: int,
}

impl View for MdEvent {
    type V = MdEventView;

    open spec fn view(&self) -> MdEventView {
        MdEventView {
            kind: self.kind,
            text: self.text@,
            aligns: self.aligns@,
            start: self.start as int,
            end: self.end as int,
        }
    }
}

/// The views of a list of events.
pub open spec fn events_view(v: Seq<MdEvent>) -> Seq<MdEventView> {
    v.map_values(|e: MdEvent| e@)
}

/// The Markdown extensions a parse enables beyond CommonMark.
#[derive(Clone, Copy, Debug, PartialEq, Eq, Structural)]
pub struct Dialect {
    pub tables: bool,
    pub footnotes: bool,
    pub strikethrough: bool,
    pub tasklists: bool,
}

/// The Markdown notes are written in: CommonMark with tables, footnotes,
/// strikethrough and task lists.
pub open spec fn note_dialect_spec() -> Dialect {
    Dialect { tables: true, footnotes: true, strikethrough: true, tasklists: true }
}

/// The note dialect, in one place so the renderer and the block locator
/// always agree on what a note means.
pub fn note_dialect() -> (d: Dialect)
    ensures
        d == note_dialect_spec(),
{
    Dialect { tables: true, footnotes: true, strikethrough: true, tasklists: true }
}

/// The events pulldown-cmark produces for `markdown` in `dialect`, in order.
pub uninterp spec fn md_events(dialect: Dialect, markdown: Seq<char>) -> Seq<MdEventView>;

/// The HTML pulldown-cmark's writer makes of the events at `which`, in that
/// order, of the parse of `markdown` in `dialect`.
pub uninterp spec fn events_html(dialect: Dialect, markdown: Seq<char>, which: Seq<usize>) -> Seq<
    char,
>;

/// The events of a note.
pub open spec fn note_events(markdown: Seq<char>) -> Seq<MdEventView> {
    md_events(note_dialect_spec(), markdown)
}

/// The HTML pulldown-cmark writes for the events at `which` of a note.
pub open spec fn note_html(markdown: Seq<char>, which: Seq<usize>) -> Seq<char> {
    events_html(note_dialect_spec(), markdown, which)
}

/// A parsed note: its text, its events as plain values, and pulldown-cmark's
/// own events, index for index, for the HTML writer.
///
/// Only `parse` makes one, so the three always belong together.
pub struct Parsed {
    dialect: Dialect,
    source: String,
    events: Vec<MdEvent>,
    raw: Vec<Event<'static>>,
}

impl Parsed {
    pub closed spec fn source(&self) -> Seq<char> {
        self.source@
    }

    pub closed spec fn dialect(&self) -> Dialect {
        self.dialect
    }

    pub closed spec fn events(&self) -> Seq<MdEventView> {
        events_view(self.events@)
    }

    pub closed spec fn wf(&self) -> bool {
        &&& self.raw@.len() == self.events@.len()
        &&& self.events() == md_events(self.dialect(), self.source())
    }

    /// Number of events.
    pub fn len(&self) -> (n: usize)
        requires
            self.wf(),
        ensures
            n == self.events().len(),
    {
        self.events.len()
    }

    /// All the events, as plain values.
    pub fn event_list(&self) -> (v: &Vec<MdEvent>)
        ensures
            events_view(v@) == self.events(),
    {
        &self.events
    }

    /// The event at `i`.
    pub fn event(&self, i: usize) -> (e: &MdEvent)
        requires
            i < self.events().len(),
        ensures
            e@ == self.events()[i as int],
    {
        &self.events[i]
    }

    /// `pulldown_cmark::html::push_html` over the events at `which`, in that
    /// order. Claimed: the HTML is the named `events_html` of this parse. The
    /// claim rests on `raw` being what `parse` stored for `source` in
    /// `dialect`; only `parse` builds a `Parsed`, and nothing changes one.
    #[verifier::external_body]
    pub fn html_of(&self, which: &Vec<usize>) -> (r: String)
        requires
            self.wf(),
            forall|k: int| 0 <= k < which@.len() ==> which@[k] < self.events().len(),
        ensures
            r@ == events_html(self.dialect(), self.source(), which@),
    {
        let mut out = String::new();
        pulldown_cmark::html::push_html(&mut out, which.iter().map(|&i| self.raw[i].clone()));
        out
    }
}

/// pulldown-cmark's `Options` with exactly the extensions `dialect` names.
pub uninterp spec fn options_of(dialect: Dialect) -> Options;

/// pulldown-cmark's `Options` with exactly the extensions `dialect` names
/// (`Options::set` per flag, from none). Claimed: the result is the named
/// `options_of` the dialect, a function of the dialect alone.
#[verifier::external_body]
fn options_for(dialect: Dialect) -> (r: Options)
    ensures
        r == options_of(dialect),
{
    let mut options = Options::empty();
    options.set(Options::ENABLE_TABLES, dialect.tables);
    options.set(Options::ENABLE_FOOTNOTES, dialect.footnotes);
    options.set(Options::ENABLE_STRIKETHROUGH, dialect.strikethrough);
    options.set(Options::ENABLE_TASKLISTS, dialect.tasklists);
    options
}

/// Parser options for notes: those of the note dialect.
pub fn options() -> (r: Options)
    ensures
        r == options_of(note_dialect_spec()),
{
    options_for(note_dialect())
}

#[verifier::external_body]
fn table_tag(event: &Event) -> MdTag {
    match event {
        Event::Start(Tag::Table(_)) => MdTag::Table,
        Event::Start(Tag::TableHead) => MdTag::TableHead,
        Event::Start(Tag::TableRow) => MdTag::TableRow,
        Event::Start(Tag::TableCell) => MdTag::TableCell,
        _ => MdTag::Other,
    }
}

#[verifier::external_body]
fn start_tag(event: &Event) -> MdTag {
    match event {
        Event::Start(Tag::Paragraph) => MdTag::Paragraph,
        Event::Start(Tag::Heading { level, .. }) => MdTag::Heading(*level as u8),
        Event::Start(Tag::BlockQuote(_)) => MdTag::BlockQuote,
        Event::Start(Tag::List(start)) => MdTag::List(*start),
        Event::Start(Tag::Item) => MdTag::Item,
        Event::Start(Tag::CodeBlock(kind)) => MdTag::CodeBlock(kind.is_fenced()),
        Event::Start(Tag::Image { .. }) => MdTag::Image,
        _ => table_tag(event),
    }
}

#[verifier::external_body]
fn table_end(event: &Event) -> MdEnd {
    match event {
        Event::End(TagEnd::Table) => MdEnd::Table,
        Event::End(TagEnd::TableHead) => MdEnd::TableHead,
        Event::End(TagEnd::TableRow) => MdEnd::TableRow,
        Event::End(TagEnd::TableCell) => MdEnd::TableCell,
        _ => MdEnd::Other,
    }
}

#[verifier::external_body]
fn end_tag(event: &Event) -> MdEnd {
    match event {
        Event::End(TagEnd::Paragraph) => MdEnd::Paragraph,
        Event::End(TagEnd::Heading(level)) => MdEnd::Heading(*level as u8),
        Event::End(TagEnd::BlockQuote(_)) => MdEnd::BlockQuote,
        Event::End(TagEnd::List(ordered)) => MdEnd::List(*ordered),
        Event::End(TagEnd::Item) => MdEnd::Item,
        Event::End(TagEnd::CodeBlock) => MdEnd::CodeBlock,
        Event::End(TagEnd::Image) => MdEnd::Image,
        _ => table_end(event),
    }
}

#[verifier::external_body]
fn kind_of(event: &Event) -> MdKind {
    match event {
        Event::Start(_) => MdKind::Start(start_tag(event)),
        Event::End(_) => MdKind::End(end_tag(event)),
        Event::Text(_) => MdKind::Text,
        Event::Code(_) => MdKind::Code,
        Event::TaskListMarker(checked) => MdKind::TaskListMarker(*checked),
        _ => MdKind::Other,
    }
}

#[verifier::external_body]
fn text_of(event: &Event) -> String {
    match event {
        Event::Text(s) | Event::Code(s) => s.to_string(),
        Event::Start(Tag::CodeBlock(CodeBlockKind::Fenced(info))) => info.to_string(),
        Event::Start(Tag::Image { dest_url, .. }) => dest_url.to_string(),
        _ => String::new(),
    }
}

#[verifier::external_body]
fn aligns_of(event: &Event) -> Vec<u8> {
    match event {
        Event::Start(Tag::Table(aligns)) => aligns.iter().map(|a| *a as u8).collect(),
        _ => Vec::new(),
    }
}

/// Parses `markdown` in `dialect` with pulldown-cmark (`Parser::new_ext`,
/// `into_offset_iter`), keeping each event both as plain values and as
/// pulldown-cmark's own. Claimed: the events are the named `md_events`, and
/// each event's byte range is a range of the source, as `into_offset_iter`
/// documents.
#[verifier::external_body]
pub(crate) fn parse(markdown: &str, dialect: Dialect) -> (p: Parsed)
    ensures
        p.wf(),
        p.dialect() == dialect,
        p.source() == markdown@,
        p.events() == md_events(dialect, markdown@),
        forall|i: int|
            0 <= i < p.events().len() ==> 0 <= (#[trigger] p.events()[i]).start <= p.events()[i].end
                <= markdown.spec_bytes().len(),
{
    let (mut events, mut raw) = (Vec::new(), Vec::new());
    for (event, range) in Parser::new_ext(markdown, options_for(dialect)).into_offset_iter() {
        let (kind, text, aligns) = (kind_of(&event), text_of(&event), aligns_of(&event));
        events.push(MdEvent { kind, text, aligns, start: range.start, end: range.end });
        raw.push(event.into_static());
    }
    Parsed { dialect, source: markdown.to_string(), events, raw }
}

} // verus!
