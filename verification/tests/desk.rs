use witnos::desk::{
    agent_note, first_number, open_plan, percent_encode, resolve_file, resolve_target, windows_open_cmdline,
    OpenPlan, Target,
};
use witnos::types::{Goal, Pointer};

/// The nudge is typed into a shell, so "one line" is a hard property, not a
/// preference — including when the human's note is a multi-line paste.
#[test]
fn the_agent_note_is_one_line_and_names_the_goal() {
    let note = agent_note("g-7", 5, 3, "the palette\nis  still\r\nwrong");
    assert!(
        !note.contains('\n') && !note.contains('\r'),
        "must be a single line: {note:?}"
    );
    assert!(note.contains("From the user: the palette is still wrong"), "{note}");
    assert!(note.contains("moved to v5"), "{note}");
    assert!(note.contains("witnos contract show --goal g-7 --since 3"), "{note}");
    assert!(note.contains("witnos reconcile --goal g-7 --to 5"), "{note}");
}

/// An empty note is the common case and must not leave a dangling label.
#[test]
fn the_agent_note_omits_an_empty_human_note() {
    let note = agent_note("g-7", 2, 0, "   ");
    assert!(!note.contains("From the user"), "{note}");
    assert!(note.contains("witnos contract show --goal g-7 --since 0"), "{note}");
}

#[test]
fn cmd_metacharacters_cannot_leave_the_quoted_target() {
    assert_eq!(
        windows_open_cmdline("https://x.test/run?id=1&calc.exe").unwrap(),
        "/C start \"\" \"https://x.test/run?id=1&calc.exe\""
    );
    assert_eq!(windows_open_cmdline("x\"&calc.exe"), None);
}

#[test]
fn evidence_line_fields_yield_their_first_number() {
    assert_eq!(first_number("120-140"), Some(120));
    assert_eq!(first_number("L12"), Some(12));
    assert_eq!(first_number("none"), None);
}

#[test]
fn the_agent_note_reads_in_full() {
    assert_eq!(
        agent_note("g1", 4, 2, "look\tagain"),
        "[witnos] The verification contract moved to v4. From the user: look again \
         Run `witnos contract show --goal g1 --since 2` to see what changed, address it, \
         then `witnos reconcile --goal g1 --to 4`."
    );
}

#[test]
fn a_number_too_big_for_a_line_is_no_line() {
    assert_eq!(first_number("L99999999999"), None);
    assert_eq!(first_number("4294967295"), Some(4294967295));
    assert_eq!(first_number("x007y"), Some(7));
    assert_eq!(first_number(""), None);
}

#[test]
fn paths_are_percent_encoded_byte_by_byte() {
    assert_eq!(percent_encode("/src/main.rs"), "/src/main.rs");
    assert_eq!(percent_encode("/a b/c#d"), "/a%20b/c%23d");
    assert_eq!(percent_encode("/中"), "/%E4%B8%AD");
}

#[test]
fn pointers_resolve_against_the_goal() {
    let mut goal = Goal::new("g".to_string(), "t", 0);
    let url = resolve_target(&goal, &Pointer::Url { url: "https://x.test".to_string() }).unwrap();
    assert!(matches!(url, Some(Target::Url(u)) if u == "https://x.test"));
    let cmd = resolve_target(&goal, &Pointer::Command { cmd: "ls".to_string() }).unwrap();
    assert!(cmd.is_none());
    let err = resolve_target(
        &goal,
        &Pointer::File { path: "src/a.rs".to_string(), lines: None },
    );
    assert_eq!(
        err.err().unwrap(),
        "cannot open src/a.rs: relative path, and this goal has no project directory to resolve it against"
    );
    let abs = resolve_target(
        &goal,
        &Pointer::File { path: "/etc/x".to_string(), lines: Some("L3-9".to_string()) },
    )
    .unwrap();
    assert!(matches!(abs, Some(Target::File { path, line: Some(3) }) if path == "/etc/x"));
    goal.project_dir = Some("/proj".to_string());
    let rel = resolve_target(
        &goal,
        &Pointer::File { path: "src/a.rs".to_string(), lines: None },
    )
    .unwrap();
    assert!(matches!(rel, Some(Target::File { path, line: None }) if path == "/proj/src/a.rs"));
}

#[test]
fn a_file_opens_in_the_chosen_editor_or_the_system_default() {
    let file = Target::File { path: "/src/a b.rs".to_string(), line: Some(12) };
    match open_plan(&file, Some("vscode")) {
        OpenPlan::EditorUrl { url, fallback } => {
            assert_eq!(url, "vscode://file/src/a%20b.rs:12");
            assert_eq!(fallback, "/src/a b.rs");
        }
        _ => panic!("vscode opens through its URL scheme"),
    }
    let relative = Target::File { path: "notes.md".to_string(), line: None };
    match open_plan(&relative, Some("zed")) {
        OpenPlan::EditorUrl { url, .. } => assert_eq!(url, "zed://file/notes.md"),
        _ => panic!("zed opens through its URL scheme"),
    }
    match open_plan(&file, Some("xcode")) {
        OpenPlan::Xcode { line, path } => {
            assert_eq!(line, Some(12));
            assert_eq!(path, "/src/a b.rs");
        }
        _ => panic!("xcode opens through xed"),
    }
    assert!(matches!(open_plan(&file, Some("system")), OpenPlan::System(p) if p == "/src/a b.rs"));
    assert!(matches!(open_plan(&file, None), OpenPlan::System(p) if p == "/src/a b.rs"));
    let url = Target::Url("https://x.test".to_string());
    assert!(matches!(open_plan(&url, Some("vscode")), OpenPlan::System(u) if u == "https://x.test"));
}

#[test]
fn a_file_lands_where_the_platform_answers_say() {
    let mut goal = Goal::new("g".to_string(), "t", 0);
    let lines = Some("12-20".to_string());
    let kept = resolve_file(&goal, "/abs/f.rs", &lines, false, None).unwrap();
    assert!(matches!(kept, Some(Target::File { path, line: Some(12) }) if path == "/abs/f.rs"));
    let refused = resolve_file(&goal, "f.rs", &None, true, None);
    assert_eq!(
        refused.err().unwrap(),
        "cannot open f.rs: relative path, and this goal has no project directory to resolve it against"
    );
    goal.project_dir = Some("/proj".to_string());
    let joined = resolve_file(&goal, "f.rs", &lines, true, Some("/proj/f.rs".to_string())).unwrap();
    assert!(matches!(joined, Some(Target::File { path, line: Some(12) }) if path == "/proj/f.rs"));
    let absolute = resolve_file(&goal, "/abs/f.rs", &None, false, None).unwrap();
    assert!(matches!(absolute, Some(Target::File { path, line: None }) if path == "/abs/f.rs"));
}
