use possess::scripts::{
    changed_since, check_script, hook_log, is_script_name, plan_run_script, script_listing, tail,
    timeout_message, truncate, HookLog,
};

#[test]
fn recognises_scripts() {
    assert!(is_script_name("stats.py"));
    assert!(!is_script_name("_helpers.py"));
    assert!(!is_script_name("notes.txt"));
    assert!(!is_script_name(".py"));
}

#[test]
fn lists_scripts_then_hooks() {
    let listing = script_listing(
        &vec!["a.py".to_string(), "b.py".to_string()],
        &vec!["sync.py".to_string()],
    );
    let got: Vec<(&str, &str)> = listing.iter().map(|s| (s.name.as_str(), s.kind.as_str())).collect();
    assert_eq!(got, [("a.py", "manual"), ("b.py", "manual"), ("hooks/sync.py", "hook")]);
}

#[test]
fn a_run_names_its_script() {
    assert_eq!(plan_run_script(Some(" /x.py ".to_string())).unwrap(), "x.py");
    let err = plan_run_script(None).unwrap_err();
    assert_eq!((err.status, err.detail.as_str()), (400, "No script named"));
    assert!(check_script("/v/scripts/x.py", true, "x.py").is_ok());
    let err = check_script("/v/scripts/x.txt", true, "x.txt").unwrap_err();
    assert_eq!((err.status, err.detail.as_str()), (404, "No such script: x.txt"));
    assert_eq!(check_script("/v/scripts/x.py", false, "x.py").unwrap_err().status, 404);
}

#[test]
fn keeps_the_end_of_long_output() {
    assert_eq!(tail("abcdef", 3), "def");
    assert_eq!(tail("ab", 5), "ab");
    assert_eq!(tail("héllo", 4), "llo");
    let long = "x".repeat(30000);
    assert_eq!(tail(&long, 20000).len(), 20000);
}

#[test]
fn truncates_by_characters() {
    assert_eq!(truncate("héllo", 2), "hé");
    assert_eq!(truncate("hi", 400), "hi");
}

#[test]
fn reports_a_hook_run() {
    assert_eq!(
        hook_log("h.py", 1, "", "  boom \n"),
        HookLog::Failed("[PossessApp] hook h.py failed (1): boom".to_string())
    );
    assert_eq!(
        hook_log("h.py", -1, "", "Timed out"),
        HookLog::Failed("[PossessApp] hook h.py failed (-1): Timed out".to_string())
    );
    assert_eq!(hook_log("h.py", 0, " done \n", ""), HookLog::Said("[PossessApp] hook h.py: done".to_string()));
    assert_eq!(hook_log("h.py", 0, "  ", "err"), HookLog::Quiet);
    let long = "e".repeat(500);
    match hook_log("h.py", 2, "", &long) {
        HookLog::Failed(line) => assert!(line.ends_with(&"e".repeat(400)) && !line.ends_with(&"e".repeat(401))),
        other => panic!("unexpected {other:?}"),
    }
}

#[test]
fn says_when_a_run_timed_out() {
    assert_eq!(timeout_message(30), "Timed out after 30s — script killed.");
}

#[test]
fn lists_changed_notes_once_in_order() {
    let before = vec![("a".to_string(), 1u64), ("b".to_string(), 2), ("c".to_string(), 3)];
    let after = vec![("d".to_string(), 5u64), ("c".to_string(), 4), ("b".to_string(), 2)];
    assert_eq!(changed_since(&before, &after), ["a", "c", "d"]);
    assert!(changed_since(&before, &before).is_empty());
    assert!(changed_since(&vec![], &vec![]).is_empty());
}

#[test]
fn picks_the_interpreter() {
    let unix = possess::scripts::interpreter_candidates(false);
    assert_eq!(unix, ["python3", "python"]);
    assert_eq!(possess::scripts::interpreter_candidates(true), ["python.exe", "python3.exe"]);
    assert_eq!(possess::scripts::pick_interpreter(Some("/opt/py".to_string()), &unix, &vec![true, true]), "/opt/py");
    assert_eq!(possess::scripts::pick_interpreter(Some("  ".to_string()), &unix, &vec![false, true]), "python");
    assert_eq!(possess::scripts::pick_interpreter(None, &unix, &vec![true, true]), "python3");
    assert_eq!(possess::scripts::pick_interpreter(None, &unix, &vec![false, false]), "python3");
}
