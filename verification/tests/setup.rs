use witnos::setup::{hook_action, hook_command, hooks, is_ours, HookAction};

#[test]
fn the_four_hooks_and_their_commands() {
    let h = hooks();
    let events: Vec<&str> = h.iter().map(|x| x.event).collect();
    assert_eq!(events, vec!["Stop", "PostToolUse", "UserPromptSubmit", "SessionEnd"]);
    assert_eq!(h[1].matcher, Some("*"));
    assert_eq!(hook_command("/opt/witnos", "stop"), "\"/opt/witnos\" hook stop");
}

#[test]
fn an_entry_of_ours_is_kept_updated_or_added() {
    let cmd = hook_command("/new/witnos", "stop");
    assert!(is_ours("\"/old/witnos\" hook stop  ", "stop"));
    assert!(!is_ours("\"/old/witnos\" hook stop-later", "stop"));
    assert!(!is_ours("other hook stop", "stop"));
    let groups = vec![vec![Some("lint".to_string()), None], vec![Some("\"/old/witnos\" hook stop".to_string())]];
    assert!(matches!(hook_action(&groups, "stop", &cmd), HookAction::Update(1, 0)));
    let current = vec![vec![Some(cmd.clone())]];
    assert!(matches!(hook_action(&current, "stop", &cmd), HookAction::Unchanged));
    assert!(matches!(hook_action(&vec![], "stop", &cmd), HookAction::Append));
    assert!(matches!(hook_action(&groups, "post-tool-use", &cmd), HookAction::Append));
}

#[test]
fn installing_the_same_hook_twice_changes_nothing_the_second_time() {
    let cmd = hook_command("/bin/witnos", "stop");
    let mut groups = vec![vec![Some("lint".to_string()), None]];
    match hook_action(&groups, "stop", &cmd) {
        HookAction::Append => groups.push(vec![Some(cmd.clone())]),
        HookAction::Update(g, h) => groups[g][h] = Some(cmd.clone()),
        HookAction::Unchanged => panic!("nothing of ours was there yet"),
    }
    assert!(matches!(hook_action(&groups, "stop", &cmd), HookAction::Unchanged));
    assert_eq!(groups[0], vec![Some("lint".to_string()), None]);
    assert_eq!(groups.len(), 2);

    let mut stale = vec![vec![Some("\"/old/witnos\" hook stop".to_string())]];
    if let HookAction::Update(g, h) = hook_action(&stale, "stop", &cmd) {
        stale[g][h] = Some(cmd.clone());
    } else {
        panic!("a stale entry of ours is rewritten");
    }
    assert!(matches!(hook_action(&stale, "stop", &cmd), HookAction::Unchanged));
}
