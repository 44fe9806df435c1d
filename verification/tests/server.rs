use witnos::contract::{ItemEdit, NewEvidence, NewItem};
use witnos::registry::ProjectRegistry;
use witnos::server::{
    bearer_ok, block_reason, class_word, delta_note, gate, goal_or_404, lay_items, marker_dirs,
    no_goal_reason, reconcile, reconcile_session, register_project, render_delta, resync_dir,
    unregister_project, watch, AppState, AutoGoalReq, EditReq, GateReq, LayReq, ReconcileReq,
};
use witnos::store::Store;
use witnos::types::{Actor, Class, EventKind, GateDecisionKind, GoalStatus, Origin, Pointer, WorkspaceFingerprint};

fn state() -> AppState {
    AppState { store: Store::new(), token: "t".to_string(), registry: ProjectRegistry::new() }
}

fn item(claim: &str) -> NewItem {
    NewItem {
        claim: claim.to_string(),
        check: "look".to_string(),
        class: None,
        interpretation: None,
        origin: Origin::AgentInitial,
    }
}

fn evidence() -> NewEvidence {
    NewEvidence {
        conclusion: "holds".into(),
        basis: "seen".into(),
        provenance: vec![Pointer::Url { url: "https://x.test".into() }],
        workspace: WorkspaceFingerprint::default(),
    }
}

fn by_id(id: &str, session: Option<&str>, active: bool) -> GateReq {
    GateReq {
        goal_id: Some(id.to_string()),
        project_dir: None,
        session_id: session.map(str::to_string),
        stop_hook_active: Some(active),
    }
}

#[test]
fn a_stop_blocks_with_the_reasons_and_releases_when_met() {
    let mut st = state();
    let g = st.store.create_goal("demo").unwrap();
    let ids = st.store.lay_items(&g.id, vec![item("calm")], Actor::Agent).unwrap();

    let a = gate(&mut st, &by_id(&g.id, Some("s1"), false), "code-agent").unwrap();
    assert!(!a.release);
    let reason = a.reason.unwrap();
    assert!(reason.starts_with("[witnos] The verification contract (v1) is not met:\n- subjective item not laid"));
    assert!(reason.contains("\n- contract moved: you are synced to v0, latest is v1"));
    assert!(reason.ends_with(&("All witnos commands accept `--goal ".to_string() + &g.id + "`.")));
    let now = st.store.get_goal(&g.id).unwrap();
    assert_eq!(now.sessions.len(), 1, "the stopping session is bound");
    assert!(matches!(
        now.events.last().unwrap().kind,
        EventKind::GateDecision { decision: GateDecisionKind::Block, .. }
    ));

    st.store.set_interpretation(&g.id, &ids[0], "calm = still").unwrap();
    st.store.add_evidence(&g.id, &ids[0], evidence()).unwrap();
    st.store.reconcile(&g.id, "s1", 1, vec![]).unwrap();
    let a = gate(&mut st, &by_id(&g.id, Some("s1"), false), "code-agent").unwrap();
    assert!(a.release);
    assert!(a.reason.is_none());
    assert_eq!(st.store.get_goal(&g.id).unwrap().status, GoalStatus::AwaitingRulings);
}

#[test]
fn near_the_harness_cap_the_block_says_to_save_state_first() {
    let mut st = state();
    let g = st.store.create_goal("demo").unwrap();
    st.store.lay_items(&g.id, vec![item("calm")], Actor::Agent).unwrap();
    for _ in 0..5 {
        let a = gate(&mut st, &by_id(&g.id, None, true), "code-agent").unwrap();
        assert!(!a.reason.unwrap().contains("NOTE: the harness caps"));
    }
    let a = gate(&mut st, &by_id(&g.id, None, true), "code-agent").unwrap();
    assert!(a.reason.unwrap().ends_with("so the next turn resumes instead of redoing."));
    let a = gate(&mut st, &by_id(&g.id, None, false), "code-agent").unwrap();
    assert!(!a.reason.unwrap().contains("NOTE"));
}

#[test]
fn a_stop_by_session_heals_opts_out_or_fails_closed() {
    let mut st = state();
    let (own, _) = st.store.create_auto_goal("mine", "/p", "sA", "code-agent", None).unwrap();
    let req = |sid: &str| GateReq {
        goal_id: None,
        project_dir: Some("/p".to_string()),
        session_id: Some(sid.to_string()),
        stop_hook_active: None,
    };
    let a = gate(&mut st, &req("sA"), "code-agent").unwrap();
    assert!(!a.release);
    assert_eq!(a.heal.as_deref(), Some("/p"));

    let a = gate(&mut st, &req("sZ"), "code-agent").unwrap();
    assert!(!a.release);
    assert_eq!(a.reason.unwrap(), no_goal_reason());

    st.store.set_watch(&own.id, None, false).unwrap();
    let before = st.store.get_goal(&own.id).unwrap().events.len();
    let a = gate(&mut st, &req("sA"), "code-agent").unwrap();
    assert!(a.release && a.reason.is_none() && a.heal.is_none());
    assert_eq!(st.store.get_goal(&own.id).unwrap().events.len(), before, "nothing recorded");

    let bad = GateReq { goal_id: None, project_dir: None, session_id: None, stop_hook_active: None };
    assert_eq!(
        gate(&mut st, &bad, "code-agent").err().unwrap().message(),
        "invalid operation: gate needs goal_id, or project_dir + session_id"
    );
    assert_eq!(
        gate(&mut st, &by_id("ghost", None, false), "code-agent").err().unwrap().message(),
        "goal not found: ghost"
    );
}

#[test]
fn the_block_reason_reads_in_full() {
    let mut st = state();
    let g = st.store.create_goal("demo").unwrap();
    let g = st.store.get_goal(&g.id).unwrap();
    let r = block_reason(&g, &vec!["a".to_string(), "b".to_string()]);
    assert_eq!(
        r,
        format!(
            "[witnos] The verification contract (v0) is not met:\n- a\n- b\nFetch the latest contract with `witnos contract show --goal {id} --since 0`; lay interpretations with `witnos item interpret <item-id> <text>`; attach evidence with `witnos evidence add <item-id>` (JSON on stdin: {{conclusion, basis, provenance:[{{kind:\"file\"|\"command\"|\"url\", …}}]}}); report oracle runs with `witnos oracle report <item-id> --passed|--failed`; then declare alignment with `witnos reconcile --to 0`. All witnos commands accept `--goal {id}`.",
            id = g.id
        )
    );
}

#[test]
fn the_delta_lists_changes_then_removals() {
    let mut st = state();
    let g = st.store.create_goal("demo").unwrap();
    assert_eq!(render_delta(&st.store.get_goal(&g.id).unwrap(), 0), "(no items changed)");
    let ids = st
        .store
        .lay_items(&g.id, vec![item("calm"), item("gone soon")], Actor::Human)
        .unwrap();
    st.store.delete_item(&g.id, &ids[1]).unwrap();
    let now = st.store.get_goal(&g.id).unwrap();
    assert_eq!(
        render_delta(&now, 0),
        format!(
            "- [subjective] \"calm\" — check: look (id: {})\n- REMOVED from the contract: \"gone soon\" — nothing needed from you anymore",
            ids[0]
        )
    );
    assert_eq!(render_delta(&now, 3), "(no items changed)");
    assert_eq!(class_word(&Class::Subjective), "subjective");
    assert_eq!(delta_note(&now.items[0]), "");
}

#[test]
fn markers_follow_the_registry_and_the_goals() {
    let mut st = state();
    assert!(resync_dir(&st, "/p").is_none(), "nothing watches /p");
    let (added, m) = register_project(&mut st, "/p");
    assert!(added);
    let m = m.unwrap();
    assert!(m.auto && m.sessions.is_empty());
    let (g, _) = st.store.create_auto_goal("mine", "/p", "sA", "code-agent", None).unwrap();
    let manual = st.store.create_goal("by hand").unwrap();
    watch(&mut st, &manual.id, Some("/q".to_string()), true).unwrap();
    let dirs = marker_dirs(&st);
    assert_eq!(dirs, vec!["/p".to_string(), "/q".to_string()]);

    let (removed, m) = unregister_project(&mut st, "/p");
    assert!(removed);
    assert!(m.is_none(), "a manual directory with nothing watching has no marker");
    assert!(!st.store.get_goal(&g.id).unwrap().watching);
    assert!(st.store.get_goal(&manual.id).unwrap().watching, "goals watched by hand survive");
    assert_eq!(marker_dirs(&st), vec!["/q".to_string()]);
}

#[test]
fn handlers_move_the_marker_with_the_contract() {
    let mut st = state();
    register_project(&mut st, "/p");
    let (a, created, m) = witnos::server::create_auto_goal(
        &mut st,
        AutoGoalReq {
            title: "t".into(),
            project_dir: "/p".into(),
            session_id: "sA".into(),
            agent: "code-agent".into(),
            pane: Some(2),
        },
    )
    .unwrap();
    assert!(created);
    assert_eq!(m.unwrap().sessions[0].1.contract_version, 0);
    let (ids, version, m) =
        lay_items(&mut st, &a.id, LayReq { actor: Actor::Agent, items: vec![item("x")] }).unwrap();
    assert_eq!((ids.len(), version), (1, 1));
    let (dir, marker) = m.unwrap();
    assert_eq!(dir, "/p");
    assert_eq!(marker.unwrap().sessions[0].1.contract_version, 1);
    let (version, _) = witnos::server::edit_item(
        &mut st,
        &a.id,
        &ids[0],
        EditReq {
            actor: Actor::Agent,
            edit: ItemEdit { claim: None, check: Some("look harder".into()), class: None },
        },
    )
    .unwrap();
    assert_eq!(version, 2);
    let req = ReconcileReq { session_id: None, to_version: 2, reinterpreted_items: vec![] };
    assert_eq!(reconcile_session(&req), "agent-cli");
    let m = reconcile(&mut st, &a.id, req).unwrap();
    assert_eq!(m.unwrap().1.unwrap().sessions[0].1.agent_synced_version, 2);
    assert!(goal_or_404(&st, "nope").is_err());
}

#[test]
fn only_the_exact_bearer_token_is_let_in() {
    assert!(bearer_ok(Some("Bearer s3cret"), "s3cret"));
    assert!(!bearer_ok(Some("Bearer s3cret "), "s3cret"));
    assert!(!bearer_ok(Some("bearer s3cret"), "s3cret"));
    assert!(!bearer_ok(Some("Bearer other"), "s3cret"));
    assert!(!bearer_ok(Some("s3cret"), "s3cret"));
    assert!(!bearer_ok(None, "s3cret"));
}
