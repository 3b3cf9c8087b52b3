use possess::api::DirEntry;
use possess::vault::{
    browse_entries, hooks_enabled, plan_set_vault, set_hooks_enabled, vault_display_name,
    windows_drives,
};

fn list(items: &[&str]) -> Vec<String> {
    items.iter().map(|s| s.to_string()).collect()
}

#[test]
fn hooks_are_allowed_per_vault() {
    assert!(hooks_enabled(&list(&["/v1", "/v2"]), "/v2"));
    assert!(!hooks_enabled(&list(&["/v1", "/v2"]), "/v3"));
    assert!(!hooks_enabled(&vec![], "/v1"));
}

#[test]
fn turning_hooks_on_or_off_keeps_the_list_sorted() {
    assert_eq!(set_hooks_enabled(list(&["/b", "/a", "/c"]), "/b", false), list(&["/a", "/c"]));
    assert_eq!(set_hooks_enabled(list(&["/b"]), "/a", true), list(&["/a", "/b"]));
    assert_eq!(set_hooks_enabled(list(&["/a", "/a"]), "/a", true), list(&["/a"]));
}

#[test]
fn a_hooks_setting_reads_back() {
    let allowed = list(&["/z", "/x"]);
    let on = set_hooks_enabled(allowed.clone(), "/y", true);
    assert!(hooks_enabled(&on, "/y"));
    assert!(hooks_enabled(&on, "/z") && hooks_enabled(&on, "/x"));
    let off = set_hooks_enabled(on, "/y", false);
    assert!(!hooks_enabled(&off, "/y"));
    assert!(hooks_enabled(&off, "/z"));
}

#[test]
fn names_the_vault_after_its_folder() {
    assert_eq!(vault_display_name("/home/u/notes"), "notes");
    assert_eq!(vault_display_name("/home/u/notes/"), "notes");
    assert_eq!(vault_display_name("/"), "/");
}

#[test]
fn opening_a_vault_needs_a_folder() {
    assert_eq!(plan_set_vault(Some(" /x ".to_string())).unwrap(), "/x");
    let err = plan_set_vault(Some("   ".to_string())).unwrap_err();
    assert_eq!((err.status, err.detail.as_str()), (400, "No folder provided"));
    assert_eq!(plan_set_vault(None).unwrap_err().status, 400);
}

#[test]
fn offers_drive_roots_on_windows_only() {
    assert!(windows_drives(false).is_empty());
    let drives = windows_drives(true);
    assert_eq!(drives.len(), 26);
    assert_eq!(drives[0], "A:\\");
    assert_eq!(drives[25], "Z:\\");
}

fn dir(name: &str) -> DirEntry {
    DirEntry { name: name.to_string(), path: format!("/p/{name}") }
}

#[test]
fn lists_visible_folders_by_lowercase_name() {
    let got = browse_entries(vec![dir("b"), dir(".git"), dir("A"), dir("a"), dir("C")]);
    let names: Vec<&str> = got.iter().map(|d| d.name.as_str()).collect();
    assert_eq!(names, ["A", "a", "b", "C"]);
    assert_eq!(got[0].path, "/p/A");
    assert!(browse_entries(vec![dir(".x")]).is_empty());
}
