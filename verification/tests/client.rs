use possess::api::NoteEntry;
use possess::client::{
    browse_url, empty_vault, failure_message, file_url, folders_url, loaded_note, note_list,
    search_url,
};

#[test]
fn builds_request_urls() {
    assert_eq!(browse_url(None), "/api/browse");
    assert_eq!(browse_url(Some("/a b")), "/api/browse?path=%2Fa%20b");
    assert_eq!(folders_url(Some("x")), "/api/folders?root=x");
    assert_eq!(folders_url(None), "/api/folders");
    assert_eq!(file_url("a/b c.md"), "/api/file/a%2Fb%20c.md");
    assert_eq!(search_url("a&b"), "/api/search?q=a%26b");
}

#[test]
fn shows_the_servers_own_message() {
    assert_eq!(failure_message(200, None), None);
    assert_eq!(failure_message(204, Some("x".to_string())), None);
    assert_eq!(failure_message(404, Some("Not found: x".to_string())).as_deref(), Some("Not found: x"));
    assert_eq!(failure_message(502, None).as_deref(), Some("Request failed: 502"));
    assert_eq!(failure_message(199, None).as_deref(), Some("Request failed: 199"));
}

fn n(name: &str) -> NoteEntry {
    NoteEntry(name.to_string(), String::new())
}

#[test]
fn flattens_and_sorts_the_note_list() {
    let folders = vec![
        (".".to_string(), vec![n("b.md"), n("a.md")]),
        ("z".to_string(), vec![n("c.md")]),
        ("A".to_string(), vec![n("d.md")]),
    ];
    assert_eq!(note_list(&folders), ["A/d.md", "a.md", "b.md", "z/c.md"]);
    assert!(note_list(&vec![]).is_empty());
}

#[test]
fn an_empty_vault_says_so() {
    let l = empty_vault("V".to_string());
    assert_eq!(l.note, "no notes yet");
    assert_eq!(l.vault, "V");
    assert!(l.html.is_empty() && l.notes.is_empty());
}

#[test]
fn renders_the_first_note() {
    let l = loaded_note(
        "V".to_string(),
        "Ideas.md".to_string(),
        vec!["Ideas.md".to_string()],
        "# Hi\n\nsee [[Ideas]]",
    );
    assert!(l.html.contains("<h1"));
    assert!(l.html.contains("data-wikilink=\"Ideas"));
    assert_eq!(l.note, "Ideas.md");
}
