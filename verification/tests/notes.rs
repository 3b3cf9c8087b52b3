use possess::api::NoteEntry;
use possess::notes::{
    contained, delete_guard, deletion_record, deletion_token, entry_kind, folder_groups, folder_key,
    is_hidden, is_markdown, new_deletion_token, nothing_to_restore, plan_create, plan_delete,
    plan_rename, plan_restore, record_deletion, rename_dest, requested, trim_rel,
};

fn s(x: &str) -> Option<String> {
    Some(x.to_string())
}

#[test]
fn trims_client_paths() {
    assert_eq!(trim_rel(" /a/b/ "), "a/b");
    assert_eq!(trim_rel("//"), "");
    assert_eq!(trim_rel(" a "), "a");
    assert_eq!(trim_rel("//a//"), "a");
}

#[test]
fn trims_whitespace_and_slashes_in_any_order() {
    assert_eq!(trim_rel(" / notes/a.md / "), "notes/a.md");
    assert_eq!(trim_rel("/ \tx/y\n/"), "x/y");
    assert_eq!(trim_rel(" / / "), "");
}

#[test]
fn a_trimmed_path_has_no_outer_slash() {
    for raw in ["/x/", " //y// ", "z", "/ w /"] {
        let t = trim_rel(raw);
        assert!(!t.starts_with('/') && !t.ends_with('/'));
    }
}

#[test]
fn spots_hidden_entries_and_notes() {
    assert!(is_hidden(".obsidian"));
    assert!(!is_hidden("notes"));
    assert!(is_markdown("Plan.md"));
    assert!(!is_markdown("Plan.mdx"));
    assert!(!is_markdown("md"));
}

#[test]
fn plans_a_new_note_or_folder() {
    let p = plan_create(None, None, s("Idea")).unwrap();
    assert_eq!((p.kind.as_str(), p.rel.as_str()), ("note", "Idea.md"));
    let p = plan_create(s("folder"), s("/proj/"), s(" sub ")).unwrap();
    assert_eq!((p.kind.as_str(), p.rel.as_str()), ("folder", "proj/sub"));
    let p = plan_create(s("  "), s("a"), s("x.md")).unwrap();
    assert_eq!((p.kind.as_str(), p.rel.as_str()), ("note", "a/x.md"));
}

#[test]
fn refuses_a_bad_name() {
    let err = plan_create(None, None, s("   ")).unwrap_err();
    assert_eq!((err.status, err.detail.as_str()), (400, "No name provided"));
    let err = plan_create(None, None, s("../escape")).unwrap_err();
    assert_eq!((err.status, err.detail.as_str()), (400, "Name cannot contain path separators"));
    let err = plan_create(None, None, s("a\\b")).unwrap_err();
    assert_eq!(err.status, 400);
}

#[test]
fn plans_a_rename() {
    let (src, name) = plan_rename(s("/a/b.md"), s(" New ")).unwrap();
    assert_eq!((src.as_str(), name.as_str()), ("a/b.md", "New"));
    let err = plan_rename(s("a.md"), None).unwrap_err();
    assert_eq!((err.status, err.detail.as_str()), (400, "Both path and name are required"));
    let err = plan_rename(s("a.md"), s("x/y")).unwrap_err();
    assert_eq!((err.status, err.detail.as_str()), (400, "Name cannot contain path separators"));
}

#[test]
fn a_rename_stays_in_its_folder() {
    assert_eq!(rename_dest("a/b.md", "New", true), "a/New.md");
    assert_eq!(rename_dest("a/b.md", "New.md", true), "a/New.md");
    assert_eq!(rename_dest("a", "B", false), "B");
    assert_eq!(rename_dest("x/y/z", "w", false), "x/y/w");
    assert!(rename_dest("a/b/c.md", "d", true).starts_with("a/b/"));
}

#[test]
fn plans_delete_and_restore() {
    assert_eq!(plan_delete(s(" a.md ")).unwrap(), "a.md");
    let err = plan_delete(s(" / ")).unwrap_err();
    assert_eq!((err.status, err.detail.as_str()), (400, "No path provided"));
    assert_eq!(plan_restore(s(" tok ")).unwrap(), "tok");
    let err = plan_restore(None).unwrap_err();
    assert_eq!((err.status, err.detail.as_str()), (400, "No token provided"));
    let err = nothing_to_restore("t1");
    assert_eq!((err.status, err.detail.as_str()), (404, "Nothing to restore for t1"));
}

#[test]
fn never_deletes_the_vault_or_the_trash() {
    let err = delete_guard("/v", "/v").unwrap_err();
    assert_eq!((err.status, err.detail.as_str()), (403, "Cannot delete the vault itself"));
    assert_eq!(delete_guard("/v//", "/v").unwrap_err().detail, "Cannot delete the vault itself");
    let err = delete_guard("/v/.trash/x", "/v").unwrap_err();
    assert_eq!((err.status, err.detail.as_str()), (403, "Cannot delete the trash through this endpoint"));
    assert_eq!(delete_guard("/v/.trash", "/v").unwrap_err().status, 403);
    assert!(delete_guard("/v/.trashy", "/v").is_ok());
    assert!(delete_guard("/v/a.md", "/v").is_ok());
}

#[test]
fn makes_deletion_tokens() {
    assert_eq!(
        deletion_token("20240101-120000", "0123456789abcdef0123456789abcdef"),
        "20240101-120000-01234567"
    );
    let token = new_deletion_token();
    let (stamp, id) = token.rsplit_once('-').unwrap();
    assert_eq!(id.len(), 8);
    assert!(id.chars().all(|c| c.is_ascii_hexdigit() && !c.is_ascii_uppercase()));
    assert!(stamp.len() >= 15);
    assert!(stamp.chars().all(|c| c.is_ascii_digit() || c == '-' || c == '+'));
    assert_ne!(new_deletion_token(), token);
}

#[test]
fn records_a_deletion() {
    assert_eq!(entry_kind(true), "folder");
    assert_eq!(entry_kind(false), "note");
    let (manifest, response) = deletion_record(
        "a/b.md".to_string(),
        "b.md".to_string(),
        false,
        "tok".to_string(),
        "2024-01-01T12:00:00".to_string(),
    );
    assert_eq!(manifest.path, "a/b.md");
    assert_eq!(manifest.name, "b.md");
    assert_eq!(manifest.kind, "note");
    assert_eq!(manifest.deleted_at, "2024-01-01T12:00:00");
    assert_eq!(response.deleted, "a/b.md");
    assert_eq!(response.kind, "note");
    assert_eq!(response.token, "tok");
}

#[test]
fn keeps_only_given_options() {
    assert_eq!(requested(s("")), None);
    assert_eq!(requested(s("x")), s("x"));
    assert_eq!(requested(None), None);
}

#[test]
fn keys_folders_by_their_relative_path() {
    assert_eq!(folder_key(&vec![]), ".");
    assert_eq!(folder_key(&vec!["a".to_string(), "b".to_string()]), "a/b");
}

fn note(name: &str, path: &str) -> NoteEntry {
    NoteEntry(name.to_string(), path.to_string())
}

#[test]
fn groups_notes_by_folder_in_order() {
    let entries = vec![
        ("b".to_string(), note("z.md", "/v/b/z.md")),
        (".".to_string(), note("b.md", "/v/b.md")),
        ("b".to_string(), note("a.md", "/v/b/a.md")),
        (".".to_string(), note("a.md", "/v/a.md")),
    ];
    let groups = folder_groups(&entries);
    assert_eq!(groups.len(), 2);
    assert_eq!(groups[0].0, ".");
    let names: Vec<&str> = groups[0].1.iter().map(|e| e.0.as_str()).collect();
    assert_eq!(names, ["a.md", "b.md"]);
    assert_eq!(groups[0].1[0].1, "/v/a.md");
    assert_eq!(groups[1].0, "b");
    let names: Vec<&str> = groups[1].1.iter().map(|e| e.0.as_str()).collect();
    assert_eq!(names, ["a.md", "z.md"]);
    assert!(folder_groups(&vec![]).is_empty());
}

#[test]
fn stamps_a_deletion_with_the_time() {
    let (manifest, response) =
        record_deletion("d".to_string(), "d".to_string(), true, "t".to_string());
    assert_eq!(manifest.kind, "folder");
    assert_eq!(response.kind, "folder");
    assert_eq!(response.token, "t");
    assert_eq!(manifest.deleted_at.len(), "2024-01-01T12:00:00".len());
    assert_eq!(&manifest.deleted_at[4..5], "-");
    assert_eq!(&manifest.deleted_at[10..11], "T");
}

#[test]
fn serves_only_paths_inside_the_vault() {
    assert!(contained("/v/notes/a.md", "/v").is_ok());
    assert!(contained("/v", "/v").is_ok());
    let e = contained("/v2/a.md", "/v").unwrap_err();
    assert_eq!((e.status, e.detail.as_str()), (403, "Access denied"));
    assert!(contained("/etc/passwd", "/v").is_err());
}
