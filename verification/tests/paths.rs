use possess::paths::{
    config_file, default_vault, expand_user, extension, file_name, join, path_steps, scripts_dir,
    stem, trash_dir, PathStep,
};

#[test]
fn joins_like_path_join() {
    assert_eq!(join("/v", ".trash"), "/v/.trash");
    assert_eq!(join("/v/", "x"), "/v/x");
    assert_eq!(join("", "x"), "x");
    assert_eq!(join("/v", "/abs"), "/abs");
    assert_eq!(join("a", ""), "a/");
}

#[test]
fn names_the_vault_folders() {
    assert_eq!(trash_dir("/home/u/notes"), "/home/u/notes/.trash");
    assert_eq!(scripts_dir("/home/u/notes"), "/home/u/notes/scripts");
    assert_eq!(config_file("/opt/app"), "/opt/app/possess-config.json");
    assert_eq!(default_vault("/opt/app"), "/opt/app/notes");
}

#[test]
fn finds_the_file_name() {
    assert_eq!(file_name("/a/b.md").as_deref(), Some("b.md"));
    assert_eq!(file_name("/a/b/").as_deref(), Some("b"));
    assert_eq!(file_name("a/.").as_deref(), Some("a"));
    assert_eq!(file_name("/"), None);
    assert_eq!(file_name("a/.."), None);
    assert_eq!(file_name(""), None);
}

#[test]
fn splits_stem_and_extension() {
    assert_eq!(stem("b.md"), "b");
    assert_eq!(stem(".bashrc"), ".bashrc");
    assert_eq!(stem("a.tar.gz"), "a.tar");
    assert_eq!(stem("noext"), "noext");
    assert_eq!(extension("b.MD").as_deref(), Some("MD"));
    assert_eq!(extension(".bashrc"), None);
    assert_eq!(extension("a.").as_deref(), Some(""));
    assert_eq!(extension("noext"), None);
}

#[test]
fn a_client_path_becomes_plain_steps() {
    let steps = path_steps("a/../b\\c/./d//");
    assert_eq!(
        steps,
        vec![
            PathStep::Child("a".to_string()),
            PathStep::Parent,
            PathStep::Child("b".to_string()),
            PathStep::Child("c".to_string()),
            PathStep::Child("d".to_string()),
        ]
    );
    assert!(path_steps("").is_empty());
    assert_eq!(path_steps("../../etc"), vec![
        PathStep::Parent,
        PathStep::Parent,
        PathStep::Child("etc".to_string()),
    ]);
}

#[test]
fn no_step_names_a_separator_or_a_dot() {
    for step in path_steps("./x/.../..\\y/z") {
        if let PathStep::Child(name) = step {
            assert!(!name.is_empty());
            assert!(name != "." && name != "..");
            assert!(!name.contains('/') && !name.contains('\\'));
        }
    }
}

#[test]
fn expands_a_leading_tilde() {
    assert_eq!(expand_user("~/notes", Some("/home/u")), "/home/u/notes");
    assert_eq!(expand_user("~", Some("/home/u")), "/home/u/");
    assert_eq!(expand_user("~\\\\a", Some("/h")), "/h/a");
    assert_eq!(expand_user("~x", Some("/home/u")), "~x");
    assert_eq!(expand_user("~/a", None), "~/a");
    assert_eq!(expand_user("/abs", Some("/home/u")), "/abs");
}
