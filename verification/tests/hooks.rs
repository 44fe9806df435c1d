use witnos::hooks::{
    auto_goal_line, delivery_since, delivery_step, delivery_text, existing_goal_line, gate_verdict, prompt_plan,
    protocol_text, session_end_goal, stop_block, stop_plan, title_from_prompt, unreachable_reason,
    PromptPlan, StopPlan,
};
use witnos::marker::{ArmedMarker, GoalRef};

fn gref(id: &str, cv: u64, sv: u64) -> GoalRef {
    GoalRef { goal_id: id.to_string(), contract_version: cv, agent_synced_version: sv }
}

fn auto_marker() -> ArmedMarker {
    ArmedMarker { v: 2, auto: true, default_goal: None, sessions: vec![("sA".to_string(), gref("gA", 5, 2))] }
}

#[test]
fn titles_come_from_the_prompt() {
    assert_eq!(title_from_prompt(Some("  fix the\nlogin  flow "), "abcdefghijk"), "fix the login flow");
    assert_eq!(title_from_prompt(Some("   "), "abcdefghijk"), "session abcdefgh");
    assert_eq!(title_from_prompt(None, "abc"), "session abc");
    let long = "x".repeat(100);
    let t = title_from_prompt(Some(&long), "s");
    assert_eq!(t.chars().count(), 81);
    assert!(t.ends_with('…'));
    assert_eq!(title_from_prompt(Some(&"y".repeat(80)), "s"), "y".repeat(80));
}

#[test]
fn the_protocol_names_the_goal_everywhere() {
    let p = protocol_text("goal: \"demo\"", "g-1", 3, "/bin/witnos");
    assert!(p.starts_with("[witnos] This project is watched — goal: \"demo\", contract v3."));
    assert!(p.contains("call it as \"/bin/witnos\"; your goal id is g-1 — pass `--goal g-1`"));
    assert!(p.contains("`witnos item lay --goal g-1 --blindspot`"));
    assert!(p.contains("`witnos reconcile --goal g-1 --to <version>`"));
    assert_eq!(existing_goal_line(Some("demo"), "g-1"), "goal: \"demo\"");
    assert_eq!(existing_goal_line(None, "g-1"), "goal g-1");
    assert_eq!(auto_goal_line("t"), "goal: \"t\" (auto-created from this prompt)");
}

#[test]
fn the_first_prompt_is_answered_once() {
    let m = auto_marker();
    assert!(matches!(prompt_plan(&m, "sA", false, false), PromptPlan::Existing(g) if g.goal_id == "gA"));
    assert!(matches!(prompt_plan(&m, "sA", true, true), PromptPlan::Silent));
    assert!(matches!(prompt_plan(&m, "sB", false, true), PromptPlan::Create));
    assert!(matches!(prompt_plan(&m, "sB", false, false), PromptPlan::Silent));
    let manual = ArmedMarker { v: 2, auto: false, default_goal: None, sessions: vec![] };
    assert!(matches!(prompt_plan(&manual, "sB", false, true), PromptPlan::Silent));
}

#[test]
fn delivery_is_silent_until_the_contract_moves_past_what_was_seen() {
    let e = gref("gA", 5, 2);
    assert_eq!(delivery_since(None, &e), Some(2));
    assert_eq!(delivery_since(Some(4), &e), Some(4));
    assert_eq!(delivery_since(Some(1), &e), Some(2));
    assert_eq!(delivery_since(Some(5), &e), None);
    assert_eq!(delivery_since(None, &gref("g", 3, 3)), None);
    assert_eq!(
        delivery_text(5, 2, "- x", "gA"),
        "[witnos] The verification contract moved to v5 (you were synced to v2). The delta (items changed, and items REMOVED — stop working on those):\n- x\nAddress the delta, update interpretations/evidence through the `witnos` CLI, then run `witnos reconcile --goal gA --to 5`."
    );
}

#[test]
fn the_stop_hook_fails_closed_for_its_own_sessions() {
    let m = auto_marker();
    match stop_plan("/p", Some(&m), Some("sA".into()), Some(true), false) {
        StopPlan::Ask(q) => {
            assert_eq!(q.goal_id.as_deref(), Some("gA"));
            assert_eq!(q.stop_hook_active, Some(true));
        },
        _ => panic!("a session with a goal is always judged"),
    }
    match stop_plan("/p", Some(&m), Some("sB".into()), None, true) {
        StopPlan::Ask(q) => {
            assert!(q.goal_id.is_none());
            assert_eq!(q.project_dir.as_deref(), Some("/p"));
        },
        _ => panic!("an unbound session in scope asks the core"),
    }
    assert!(matches!(stop_plan("/p", Some(&m), Some("sB".into()), None, false), StopPlan::Allow));
    assert!(matches!(stop_plan("/p", None, None, None, true), StopPlan::Block(r) if r.contains("marker is unreadable")));
    assert!(matches!(stop_plan("/p", None, None, None, false), StopPlan::Allow));
    let manual = ArmedMarker { v: 2, auto: false, default_goal: None, sessions: vec![] };
    assert!(matches!(stop_plan("/p", Some(&manual), None, None, true), StopPlan::Block(r) if r.contains("names no goal")));

    assert_eq!(gate_verdict(Some("release"), None), Ok(None));
    assert_eq!(gate_verdict(Some("block"), Some("why")), Ok(Some("why".to_string())));
    assert_eq!(
        gate_verdict(Some("block"), None),
        Ok(Some("blocked by witnos (no reason given)".to_string()))
    );
    assert_eq!(gate_verdict(Some("maybe"), None), Err("core response carries no decision".to_string()));
    assert_eq!(stop_block(Ok(None)), None);
    assert_eq!(stop_block(Err("refused".into())), Some(unreachable_reason("refused")));
    assert!(unreachable_reason("refused").starts_with(
        "Witnos is watching this project but its core is unreachable (refused). Ask the user"
    ));
}

#[test]
fn a_session_end_accounts_only_its_own_goal() {
    let mut m = auto_marker();
    m.default_goal = Some(gref("gD", 1, 0));
    assert_eq!(session_end_goal(&m, "sA"), Some("gA"));
    assert_eq!(session_end_goal(&m, "sB"), None, "the default goal is shared");
}

#[test]
fn a_reply_is_delivered_whole_and_recorded_and_no_reply_changes_nothing() {
    let (text, recorded) = delivery_step(Some((7, "- calm UI: changed")), 4, "gB").unwrap();
    assert_eq!(recorded, 7);
    assert!(text.contains("- calm UI: changed"));
    assert!(text.contains(" --to 7`"));
    assert_eq!(text, delivery_text(7, 4, "- calm UI: changed", "gB"));
    assert!(delivery_step(None, 4, "gB").is_none());
}

#[test]
fn every_stall_names_witnos_disarm() {
    assert!(stop_block(Err("connection refused".into())).unwrap().contains("`witnos disarm`"));
    let m = ArmedMarker { v: 2, auto: false, default_goal: None, sessions: vec![] };
    match stop_plan("/p", Some(&m), Some("s".into()), None, true) {
        StopPlan::Block(reason) => assert!(reason.contains("`witnos disarm`")),
        _ => panic!("a marker naming no goal stalls in the app's terminal"),
    }
    match stop_plan("/p", None, Some("s".into()), None, true) {
        StopPlan::Block(reason) => assert!(reason.contains("`witnos disarm`")),
        _ => panic!("an unreadable marker stalls in the app's terminal"),
    }
    assert!(matches!(stop_plan("/p", None, Some("s".into()), None, false), StopPlan::Allow));
}
