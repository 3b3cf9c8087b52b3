use possess::render::{render, RenderContext};
use possess::source;

fn render_plain(markdown: &str) -> String {
    render(markdown, &RenderContext::empty())
}

#[test]
fn annotates_top_level_blocks_with_their_source_line() {
    let html = render_plain("# Title\n\nA paragraph.\n\nAnother.\n");
    assert!(html.contains(r#"<h1 data-md-line-index="0">"#), "{html}");
    assert!(html.contains(r#"<p data-md-line-index="2">"#), "{html}");
    assert!(html.contains(r#"<p data-md-line-index="4">"#), "{html}");
}

#[test]
fn annotates_list_items_individually() {
    // Each <li> must edit only its own line, not the whole list.
    let html = render_plain("- one\n- two\n- three\n");
    assert!(html.contains(r#"<li data-md-line-index="0">"#), "{html}");
    assert!(html.contains(r#"<li data-md-line-index="1">"#), "{html}");
    assert!(html.contains(r#"<li data-md-line-index="2">"#), "{html}");
}

#[test]
fn annotates_nested_list_items() {
    let html = render_plain("- one\n  - nested\n- two\n");
    assert!(html.contains(r#"<li data-md-line-index="1">"#), "{html}");
}

#[test]
fn a_code_block_carries_a_block_index_that_matches_block_ranges() {
    let md = "# Title\n\nText.\n\n```rust\nfn main() {}\n```\n";
    let html = render_plain(md);
    assert!(html.contains(r#"data-md-block-index="2""#), "{html}");
    assert!(html.contains(r#"<code class="language-rust">"#), "{html}");

    // The index must address the same block the editor will write back to.
    let block = source::block_range(md, 2).unwrap();
    assert!(block.raw.contains("fn main()"));
}

#[test]
fn task_markers_become_clickable_inputs_in_source_order() {
    let html = render_plain("- [ ] one\n- [x] two\n");
    assert!(html.contains(r#"data-task-index="0""#), "{html}");
    assert!(html.contains(r#"data-task-index="1""#), "{html}");
    assert!(html.contains("interactive-task-checkbox"), "{html}");
    // Rendered live, not disabled: a click has somewhere to go.
    assert!(!html.contains("disabled"), "{html}");
    assert!(html.contains(" checked"), "{html}");
}

#[test]
fn relative_images_are_rewritten_and_external_ones_are_not() {
    let context = RenderContext { note_path: Some("projects/note.md"), notes: &[] };
    let html = render("![cat](cat.png)", &context);
    assert!(html.contains(r#"src="/api/asset/projects/cat.png""#), "{html}");
    assert!(html.contains(r#"alt="cat""#), "{html}");
    assert!(html.contains(r#"loading="lazy""#), "{html}");
    // The title says what the note wrote, not where it was rewritten to.
    assert!(html.contains(r#"title="cat.png""#), "{html}");

    let external = render("![x](https://example.com/a.png)", &context);
    assert!(external.contains(r#"src="https://example.com/a.png""#), "{external}");
}

#[test]
fn wikilinks_resolve_against_the_note_list() {
    let notes = vec!["Ideas.md".to_string()];
    let context = RenderContext { note_path: None, notes: &notes };

    let hit = render("see [[Ideas]]", &context);
    assert!(hit.contains(r#"class="wikilink""#), "{hit}");
    assert!(hit.contains(r#"data-wikilink="Ideas""#), "{hit}");
    assert!(hit.contains(r#"title="Ideas.md""#), "{hit}");
    // An attribute, not an href: following it must not navigate away.
    assert!(!hit.contains("href="), "{hit}");

    let miss = render("see [[Nothing]]", &context);
    assert!(miss.contains("is-missing"), "{miss}");
    assert!(miss.contains("not created yet"), "{miss}");
}

#[test]
fn an_aliased_wikilink_shows_the_alias() {
    let notes = vec!["Ideas.md".to_string()];
    let context = RenderContext { note_path: None, notes: &notes };
    let html = render("[[Ideas|my ideas]]", &context);
    assert!(html.contains(">my ideas</a>"), "{html}");
    assert!(html.contains(r#"data-wikilink="Ideas""#), "{html}");
}

#[test]
fn wikilinks_inside_code_are_left_alone() {
    // This is the case the JavaScript needed a hand-rolled backtick scanner
    // for; here it falls out of the parse.
    let notes = vec!["Ideas.md".to_string()];
    let context = RenderContext { note_path: None, notes: &notes };

    let span = render("use `[[Ideas]]` to link", &context);
    assert!(!span.contains("wikilink"), "{span}");
    assert!(span.contains("[[Ideas]]"), "{span}");

    let fenced = render("```\n[[Ideas]]\n```\n", &context);
    assert!(!fenced.contains("wikilink"), "{fenced}");
}

#[test]
fn escapes_html_in_text_and_attributes() {
    let html = render_plain("a < b & c");
    assert!(html.contains("&lt;"), "{html}");
    assert!(html.contains("&amp;"), "{html}");

    let notes: Vec<String> = Vec::new();
    let context = RenderContext { note_path: None, notes: &notes };
    let quoted = render(r#"[[a"b]]"#, &context);
    assert!(!quoted.contains(r#"data-wikilink="a"b""#), "{quoted}");
    assert!(quoted.contains("&quot;"), "{quoted}");
}

#[test]
fn renders_ordinary_markdown_faithfully() {
    let html = render_plain("**bold** and *italic* and `code`\n");
    assert!(html.contains("<strong>bold</strong>"), "{html}");
    assert!(html.contains("<em>italic</em>"), "{html}");
    assert!(html.contains("<code>code</code>"), "{html}");

    let link = render_plain("[text](https://example.com)");
    assert!(link.contains(r#"<a href="https://example.com">text</a>"#), "{link}");
}

#[test]
fn handles_an_empty_document() {
    assert_eq!(render_plain(""), "");
}

#[test]
fn an_image_stays_in_its_place_in_the_text() {
    // Regression: the text before an image was still buffered when the
    // image was written, so every image jumped to the front of its
    // paragraph.
    let html = render_plain("before ![a](x.png) after");
    let img = html.find("<img").expect("an image");
    let before = html.find("before").expect("leading text");
    let after = html.find("after").expect("trailing text");
    assert!(before < img && img < after, "{html}");
}

#[test]
fn blocks_after_an_image_are_still_annotated() {
    // Regression: an image incremented the nesting depth and never
    // decremented it, so every later block looked nested and lost its
    // line index — silently disabling click-to-edit for the rest of a note.
    let html = render_plain("![a](x.png)\n\nafter one\n\nafter two\n");
    assert!(html.contains(r#"<p data-md-line-index="2">"#), "{html}");
    assert!(html.contains(r#"<p data-md-line-index="4">"#), "{html}");
}

#[test]
fn several_images_do_not_shift_later_blocks() {
    let html = render_plain("![a](1.png) ![b](2.png) ![c](3.png)\n\ntail\n");
    assert_eq!(html.matches("<img").count(), 3, "{html}");
    assert!(html.contains(r#"<p data-md-line-index="2">"#), "{html}");
}

#[test]
fn a_task_checkbox_is_separated_from_its_label() {
    // Without the space the label runs into the box.
    let html = render_plain("- [ ] a task");
    assert!(html.contains("> a task"), "{html}");
}

#[test]
fn tables_render_with_header_body_and_alignment() {
    let md = "| a | b | c |\n|:--|:-:|--:|\n| 1 | 2 | 3 |\n";
    let html = render_plain(md);

    // Header cells are th, body cells are td: half-intercepting the table
    // used to make every body cell a header.
    assert!(html.contains("<th"), "{html}");
    assert!(html.contains("<td"), "{html}");
    // Counted on the closing tags: "<th" also matches "<thead".
    assert_eq!(html.matches("</th>").count(), 3, "{html}");
    assert_eq!(html.matches("</td>").count(), 3, "{html}");

    // Alignment survives being rendered by hand.
    assert!(html.contains("text-align: left"), "{html}");
    assert!(html.contains("text-align: center"), "{html}");
    assert!(html.contains("text-align: right"), "{html}");

    // And the table can be clicked into, like any other block.
    assert!(html.contains(r#"<table data-md-line-index="0">"#), "{html}");
}
