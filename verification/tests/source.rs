use possess::markdown::{MdEnd, MdKind, MdTag};
use possess::source::{block_range, block_ranges, line_index_at, line_range, set_task_checked};

#[test]
fn finds_line_ranges() {
    let md = "one\ntwo\nthree";
    assert_eq!(line_range(md, 0).unwrap().raw, "one");
    assert_eq!(line_range(md, 1).unwrap().raw, "two");
    assert_eq!(line_range(md, 2).unwrap().raw, "three");
    assert_eq!(line_range(md, 3), None);
}

#[test]
fn a_line_range_excludes_the_carriage_return() {
    let md = "one\r\ntwo";
    let first = line_range(md, 0).unwrap();
    assert_eq!(first.raw, "one");
    assert_eq!(&md[first.start..first.end], "one");
}

#[test]
fn maps_offsets_back_to_lines() {
    let md = "one\ntwo\nthree";
    assert_eq!(line_index_at(md, 0), 0);
    assert_eq!(line_index_at(md, 4), 1);
    assert_eq!(line_index_at(md, 8), 2);
}

#[test]
fn finds_top_level_blocks() {
    let md = "# Title\n\nA paragraph.\n\n```rust\nfn main() {}\n```\n";
    let blocks = block_ranges(md);
    assert_eq!(blocks.len(), 3);
    assert!(md[blocks[0].clone()].starts_with("# Title"));
    assert!(md[blocks[1].clone()].starts_with("A paragraph."));
    assert!(md[blocks[2].clone()].starts_with("```rust"));

    // The code block round-trips, which is what the block editor writes back.
    let code = block_range(md, 2).unwrap();
    assert_eq!(code.raw.trim_end(), "```rust\nfn main() {}\n```");
}

#[test]
fn toggles_the_right_task() {
    let md = "- [ ] one\n- [ ] two\n- [ ] three";
    assert_eq!(
        set_task_checked(md, 1, true).unwrap(),
        "- [ ] one\n- [x] two\n- [ ] three"
    );
    assert_eq!(
        set_task_checked("- [x] one", 0, false).unwrap(),
        "- [ ] one"
    );
}

#[test]
fn toggles_nested_quoted_and_ordered_tasks() {
    let md = "  - [ ] nested\n> - [ ] quoted\n1. [ ] ordered\n2) [ ] paren";
    for index in 0..4 {
        let out = set_task_checked(md, index, true).unwrap();
        assert_eq!(out.matches("[x]").count(), 1, "index {index}");
    }
}

#[test]
fn ignores_tasks_inside_fenced_code() {
    // The checkbox in the fence is a code sample; the real one is after it.
    let md = "```\n- [ ] not a task\n```\n- [ ] real";
    let out = set_task_checked(md, 0, true).unwrap();
    assert_eq!(out, "```\n- [ ] not a task\n```\n- [x] real");
}

#[test]
fn a_tilde_fence_is_not_closed_by_backticks() {
    let md = "~~~\n```\n- [ ] inside\n~~~\n- [ ] real";
    let out = set_task_checked(md, 0, true).unwrap();
    assert!(out.ends_with("- [x] real"));
}

#[test]
fn a_missing_task_is_none() {
    assert_eq!(set_task_checked("- [ ] only", 5, true), None);
    assert_eq!(set_task_checked("no tasks here", 0, true), None);
}

#[test]
fn setting_a_task_and_back_restores_the_note() {
    let md = "- [ ] one\n> - [x] two\n```\n- [ ] code\n```\n3. [ ] three\n";
    for index in 0..3 {
        for checked in [true, false] {
            let changed = set_task_checked(md, index, checked).unwrap();
            let was_checked = index == 1;
            assert_eq!(set_task_checked(&changed, index, was_checked).unwrap(), md);
        }
    }
    assert_eq!(set_task_checked(md, 3, true), None);
}

#[test]
fn a_set_task_reads_back_checked() {
    let md = "- [ ] a\n- [ ] b";
    let once = set_task_checked(md, 1, true).unwrap();
    assert_eq!(once, "- [ ] a\n- [x] b");
    assert_eq!(set_task_checked(&once, 1, true).unwrap(), once);
}

#[test]
fn every_offset_maps_to_a_line_holding_it() {
    let md = "one\r\ntwo\n\nthree";
    for offset in 0..=md.len() {
        let line = line_index_at(md, offset);
        let range = line_range(md, line).unwrap();
        assert!(range.start <= offset);
        assert!(!md[range.start..offset].contains('\n'));
    }
}

#[test]
fn setting_a_task_changes_one_byte() {
    let md = "# T\n\n- [ ] one\n> - [X] two\n1. [ ] three\n";
    for (i, checked) in [(0, true), (1, false), (2, true), (1, true)] {
        let out = set_task_checked(md, i, checked).unwrap();
        assert_eq!(out.len(), md.len());
        let diff: Vec<usize> = (0..md.len()).filter(|&k| md.as_bytes()[k] != out.as_bytes()[k]).collect();
        assert!(diff.len() <= 1);
        for k in diff {
            assert_eq!(md.as_bytes()[k - 1], b'[');
            assert_eq!(md.as_bytes()[k + 1], b']');
            assert_eq!(out.as_bytes()[k], if checked { b'x' } else { b' ' });
        }
        assert_eq!(set_task_checked(&out, i, checked), Some(out.clone()));
    }
}

#[test]
fn task_markers_sit_in_boxes() {
    assert_eq!(set_task_checked("> - [ ] quoted", 0, true), Some("> - [x] quoted".to_string()));
    assert_eq!(set_task_checked("1. [ ] ordered", 0, true), Some("1. [x] ordered".to_string()));
    assert_eq!(set_task_checked("-[ ] x", 0, true), None);
}

#[test]
fn lines_are_cut_at_newlines() {
    let md = "a\r\nbb\n\nccc";
    assert_eq!(md.matches('\n').count(), 3);
    for n in 0..=3 {
        let r = line_range(md, n).unwrap();
        assert_eq!(md[..r.start].matches('\n').count(), n);
        assert!(!r.raw.contains('\n'));
        assert!(r.start == 0 || md.as_bytes()[r.start - 1] == b'\n');
        assert!(r.end == md.len() || md.as_bytes()[r.end] == b'\n' || md.as_bytes()[r.end] == b'\r');
    }
    assert_eq!(line_range(md, 0).unwrap().raw, "a");
    assert_eq!(line_range(md, 4), None);
}

fn ev(kind: MdKind, start: usize, end: usize) -> possess::markdown::MdEvent {
    possess::markdown::MdEvent { kind, text: String::new(), aligns: Vec::new(), start, end }
}

#[test]
fn blocks_are_the_top_level_start_events() {
    let events = vec![
        ev(MdKind::Start(MdTag::Paragraph), 0, 5),
        ev(MdKind::Text, 0, 5),
        ev(MdKind::End(MdEnd::Paragraph), 0, 5),
        ev(MdKind::Start(MdTag::List(None)), 7, 20),
        ev(MdKind::Start(MdTag::Item), 7, 12),
        ev(MdKind::End(MdEnd::Item), 7, 12),
        ev(MdKind::End(MdEnd::List(false)), 7, 20),
        ev(MdKind::Start(MdTag::CodeBlock(true)), 21, 30),
        ev(MdKind::End(MdEnd::CodeBlock), 21, 30),
    ];
    assert_eq!(possess::source::blocks_of(&events), vec![0..5, 7..20, 21..30]);
}

#[test]
fn block_ranges_lie_in_the_source() {
    let md = "# T\n\npara\n\n- a\n- b\n\n```\ncode\n```\n";
    for r in block_ranges(md) {
        assert!(r.start <= r.end && r.end <= md.len());
    }
}
