use possess::wikilinks::{link_at, parse, ranges, resolve};

fn notes(paths: &[&str]) -> Vec<String> {
    paths.iter().map(|p| p.to_string()).collect()
}

#[test]
fn parses_the_forms() {
    assert_eq!(parse("Ideas").label, "Ideas");
    assert_eq!(parse("Ideas").path, "Ideas");

    let aliased = parse("Ideas|my ideas");
    assert_eq!(aliased.path, "Ideas");
    assert_eq!(aliased.label, "my ideas");

    // The heading is display-only: it must not reach the lookup.
    let heading = parse("Ideas#Later");
    assert_eq!(heading.path, "Ideas");
    assert_eq!(heading.label, "Ideas#Later");

    assert_eq!(parse("projects/Ideas").path, "projects/Ideas");
}

#[test]
fn an_explicit_path_wins_over_a_same_named_note() {
    let all = notes(&["Ideas.md", "projects/Ideas.md"]);
    assert_eq!(
        resolve("projects/Ideas", None, &all).as_deref(),
        Some("projects/Ideas.md")
    );
}

#[test]
fn prefers_a_sibling_then_the_root_then_the_shallowest() {
    let all = notes(&["Ideas.md", "a/Ideas.md", "a/b/Ideas.md"]);
    // Beside the linking note.
    assert_eq!(
        resolve("Ideas", Some("a/note.md"), &all).as_deref(),
        Some("a/Ideas.md")
    );
    // From the root when there is no sibling.
    assert_eq!(
        resolve("Ideas", Some("z/note.md"), &all).as_deref(),
        Some("Ideas.md")
    );

    // With no root match, the shallowest wins over walk order.
    let deep = notes(&["a/b/c/Ideas.md", "a/Ideas.md"]);
    assert_eq!(
        resolve("Ideas", Some("z/note.md"), &deep).as_deref(),
        Some("a/Ideas.md")
    );
}

#[test]
fn matching_is_case_insensitive_and_extension_optional() {
    let all = notes(&["Ideas.md"]);
    assert_eq!(resolve("ideas", None, &all).as_deref(), Some("Ideas.md"));
    assert_eq!(resolve("Ideas.md", None, &all).as_deref(), Some("Ideas.md"));
}

#[test]
fn unresolved_links_are_none() {
    assert_eq!(resolve("Nothing", None, &notes(&["Ideas.md"])), None);
    assert_eq!(resolve("", None, &notes(&["Ideas.md"])), None);
}

#[test]
fn finds_link_ranges_on_a_line() {
    let line = "see [[One]] and [[two|2]] here";
    let found = ranges(line);
    assert_eq!(found.len(), 2);
    assert_eq!(&line[found[0].0..found[0].1], "[[One]]");
    assert_eq!(&line[found[1].0..found[1].1], "[[two|2]]");
}

#[test]
fn skips_links_inside_code_spans() {
    // A link in a code sample is a code sample, not a link.
    let line = "real [[One]] but `[[Two]]` is code";
    let found = ranges(line);
    assert_eq!(found.len(), 1);
    assert_eq!(&line[found[0].0..found[0].1], "[[One]]");
}

#[test]
fn ignores_malformed_brackets() {
    assert!(ranges("[[unclosed").is_empty());
    assert!(ranges("[[]]").is_empty());
    assert!(ranges("[[a|b|c]]").is_empty());
    assert!(ranges("[[multi\nline]]").is_empty());
}

#[test]
fn finds_the_link_under_a_cursor() {
    let line = "see [[One]] here";
    assert_eq!(link_at(line, 6).as_deref(), Some("One"));
    assert_eq!(link_at(line, 4).as_deref(), Some("One"));
    assert_eq!(link_at(line, 11).as_deref(), Some("One"));
    assert_eq!(link_at(line, 14), None);
    assert_eq!(link_at("no links", 3), None);
}

#[test]
fn resolution_does_not_depend_on_note_order() {
    let a = notes(&["x/Plan.md", "Plan.md", "y/z/Plan.md", "w/Other.md"]);
    let mut b = a.clone();
    b.reverse();
    for (path, from) in [("Plan", None), ("Plan", Some("y/z/n.md")), ("plan", Some("x/a.md")), ("Other", None)] {
        assert_eq!(resolve(path, from, &a), resolve(path, from, &b));
    }
}

#[test]
fn prefers_the_nearest_then_shallowest_then_first_by_name() {
    let n = notes(&["b/c/Idea.md", "a/c/Idea.md", "q/Idea.md", "d/Idea.md"]);
    assert_eq!(resolve("Idea", Some("b/c/x.md"), &n), Some("b/c/Idea.md".to_string()));
    assert_eq!(resolve("Idea", None, &n), Some("d/Idea.md".to_string()));
    assert_eq!(resolve("Idea", Some("a/note.md"), &n), Some("a/c/Idea.md".to_string()));
    assert_eq!(resolve("Missing", None, &n), None);
    assert_eq!(resolve("", None, &n), None);
}

#[test]
fn a_resolved_link_has_the_name_asked_for() {
    let n = notes(&["Projects/IDEAS.md", "other.md"]);
    let r = resolve("ideas", None, &n).unwrap();
    assert_eq!(r, "Projects/IDEAS.md");
    assert!(n.contains(&r));
}

#[test]
fn a_link_needs_a_body() {
    assert_eq!(ranges("[[]] and [[a]]"), vec![(9, 14)]);
    assert_eq!(ranges("[[|x]]"), vec![]);
}

#[test]
fn ranges_are_all_links_outside_code() {
    let t = "`[[code]]` [[a]] `x` [[b|c]]";
    let all = possess::wikilinks::all_ranges(t);
    let code = possess::wikilinks::code_spans(t);
    let kept: Vec<(usize, usize)> = all
        .into_iter()
        .filter(|(s, _)| !code.iter().any(|(a, b)| a <= s && s < b))
        .collect();
    assert_eq!(ranges(t), kept);
    assert_eq!(kept.len(), 2);
}
