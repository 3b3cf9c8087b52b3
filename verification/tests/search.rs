use possess::search::{
    default_limit, path_less, search, search_needle, snippet, sort_by_path, truncate_chars, NoteText,
};

fn note(path: &str, text: &str) -> NoteText {
    NoteText { path: path.to_string(), name: path.rsplit('/').next().unwrap().to_string(), text: text.to_string() }
}

fn notes() -> Vec<NoteText> {
    vec![
        note("a.md", "nothing\r\n   Some FOO here  \nfoo again"),
        note("dir/foo.md", "bar"),
        note("c.md", "x"),
        note("d.md", "another foo"),
    ]
}

#[test]
fn finds_notes_by_line_or_name() {
    let r = search("  Foo ".to_string(), 100, notes());
    assert_eq!(r.query, "  Foo ");
    let hits: Vec<(&str, &str, &str)> = r
        .results
        .iter()
        .map(|h| (h.path.as_str(), h.name.as_str(), h.snippet.as_str()))
        .collect();
    assert_eq!(
        hits,
        [
            ("a.md", "a.md", "Some FOO here"),
            ("d.md", "d.md", "another foo"),
            ("dir/foo.md", "foo.md", ""),
        ]
    );
}

#[test]
fn stops_at_the_limit() {
    assert_eq!(search("foo".to_string(), 1, notes()).results.len(), 1);
    assert_eq!(search("foo".to_string(), 2, notes()).results.len(), 2);
}

#[test]
fn a_zero_limit_still_reads_the_first_note() {
    assert_eq!(search("foo".to_string(), 0, notes()).results.len(), 1);
    assert_eq!(search("zzz".to_string(), 0, notes()).results.len(), 0);
    let r = search("x".to_string(), 0, notes());
    assert!(r.results.is_empty());
}

#[test]
fn an_empty_query_finds_nothing() {
    let r = search("   ".to_string(), 100, notes());
    assert!(r.results.is_empty());
    assert_eq!(r.query, "   ");
    assert_eq!(search_needle("  "), None);
    assert_eq!(search_needle(" AbC ").as_deref(), Some("abc"));
}

#[test]
fn snippets_are_trimmed_and_cut() {
    let needle: Vec<char> = "q".chars().collect();
    let long = format!("  q{}  ", "é".repeat(300));
    let s = snippet(&long, &needle);
    assert_eq!(s.chars().count(), 160);
    assert!(s.starts_with('q'));
    assert_eq!(snippet("no match", &needle), "");
}

#[test]
fn cuts_by_characters() {
    assert_eq!(truncate_chars("héllo", 2), "hé");
    assert_eq!(truncate_chars("hi", 10), "hi");
    assert_eq!(default_limit(), 100);
}

#[test]
fn results_come_in_path_order() {
    let ns = vec![note("a-b/x.md", "hit"), note("b.md", "hit"), note("a/b.md", "hit"), note("a.md", "hit")];
    let r = search("hit".to_string(), 100, ns);
    let paths: Vec<&str> = r.results.iter().map(|h| h.path.as_str()).collect();
    assert_eq!(paths, ["a/b.md", "a-b/x.md", "a.md", "b.md"]);
}

#[test]
fn paths_compare_by_component() {
    assert!(path_less("a/b.md", "a-b/x.md"));
    assert!(!path_less("a-b/x.md", "a/b.md"));
    assert!(path_less("a", "a/b"));
    assert!(!path_less("a.md", "a.md"));
    let sorted = sort_by_path(vec![note("z.md", "1"), note("a/z.md", "2"), note("z.md", "3")]);
    let got: Vec<(&str, &str)> = sorted.iter().map(|n| (n.path.as_str(), n.text.as_str())).collect();
    assert_eq!(got, [("a/z.md", "2"), ("z.md", "1"), ("z.md", "3")]);
}
