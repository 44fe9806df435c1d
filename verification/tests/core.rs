use witnos::contract::{ItemEdit, NewEvidence, NewItem, StoreError};
use witnos::gate::evaluate;
use witnos::marker::{compute, ArmedMarker, GoalRef};
use witnos::store::Store;
use witnos::types::{
    Actor, Class, EventKind, GateDecisionKind, GoalStatus, ItemStatus, Oracle, Origin, Pointer,
    WorkspaceFingerprint,
};

fn temp_store() -> Store {
    Store::new()
}

fn subjective(claim: &str, origin: Origin) -> NewItem {
    NewItem {
        claim: claim.to_string(),
        check: "look at it".to_string(),
        class: None,
        interpretation: None,
        origin,
    }
}

fn objective(claim: &str, promoted_by: Actor) -> NewItem {
    NewItem {
        claim: claim.to_string(),
        check: "run the oracle".to_string(),
        class: Some(Class::Objective {
            oracle: Oracle {
                command: "cargo test".into(),
                expected: "exit 0".into(),
            },
            promoted_by,
        }),
        interpretation: None,
        origin: Origin::AgentInitial,
    }
}

fn some_evidence() -> NewEvidence {
    NewEvidence {
        conclusion: "holds".into(),
        basis: "palette has exactly 3 colors: #000, #fff, #888".into(),
        provenance: vec![Pointer::Command {
            cmd: "extract-palette ./src".into(),
        }],
        workspace: WorkspaceFingerprint::default(),
    }
}

fn claim_edit(claim: &str) -> ItemEdit {
    ItemEdit { claim: Some(claim.to_string()), check: None, class: None }
}

fn entry<'a>(m: &'a ArmedMarker, sid: &str) -> &'a GoalRef {
    &m.sessions.iter().find(|(k, _)| k == sid).expect("session entry").1
}

#[test]
fn defaults_to_subjective_and_bumps_version_per_item() {
    let mut store = temp_store();
    let goal = store.create_goal("demo").unwrap();
    assert_eq!(goal.contract_version, 0);

    let ids = store
        .lay_items(
            &goal.id,
            vec![
                subjective("only black/white/grey", Origin::AgentInitial),
                subjective("feels Apple-like", Origin::AgentBlindspot),
            ],
            Actor::Agent,
        )
        .unwrap();
    assert_eq!(ids.len(), 2);

    let goal = store.get_goal(&goal.id).unwrap();
    assert_eq!(goal.contract_version, 2);
    assert!(goal.items.iter().all(|i| matches!(i.class, Class::Subjective)));
    assert_eq!(goal.items_since(1).len(), 1);
    assert_eq!(goal.items_since(0).len(), 2);
}

#[test]
fn agent_cannot_claim_human_promotion() {
    let mut store = temp_store();
    let goal = store.create_goal("demo").unwrap();
    let err = store
        .lay_items(&goal.id, vec![objective("builds", Actor::Human)], Actor::Agent)
        .unwrap_err();
    assert!(matches!(err, StoreError::Invalid(_)), "got: {err:?}");
}

#[test]
fn evidence_requires_provenance() {
    let mut store = temp_store();
    let goal = store.create_goal("demo").unwrap();
    let ids = store
        .lay_items(&goal.id, vec![subjective("x", Origin::AgentInitial)], Actor::Agent)
        .unwrap();
    let mut ev = some_evidence();
    ev.provenance.clear();
    let err = store.add_evidence(&goal.id, &ids[0], ev).unwrap_err();
    assert!(matches!(err, StoreError::Invalid(_)));
}

#[test]
fn subjective_needs_interpretation_before_it_counts_as_laid() {
    let mut store = temp_store();
    let goal = store.create_goal("demo").unwrap();
    let ids = store
        .lay_items(&goal.id, vec![subjective("tasteful", Origin::UserPreRun)], Actor::Human)
        .unwrap();

    store.add_evidence(&goal.id, &ids[0], some_evidence()).unwrap();
    let goal_now = store.get_goal(&goal.id).unwrap();
    assert_eq!(goal_now.items[0].status, ItemStatus::Open, "no interpretation yet");

    store
        .set_interpretation(&goal.id, &ids[0], "I read 'tasteful' as: max 3 colors, no gradients")
        .unwrap();
    store.add_evidence(&goal.id, &ids[0], some_evidence()).unwrap();
    let goal_now = store.get_goal(&goal.id).unwrap();
    assert_eq!(goal_now.items[0].status, ItemStatus::Laid);
}

#[test]
fn reconcile_bounds() {
    let mut store = temp_store();
    let goal = store.create_goal("demo").unwrap();
    store
        .lay_items(&goal.id, vec![subjective("x", Origin::AgentInitial)], Actor::Agent)
        .unwrap();
    assert!(store.reconcile(&goal.id, "s", 5, vec![]).is_err());
    store.reconcile(&goal.id, "s", 1, vec![]).unwrap();
    assert!(store.reconcile(&goal.id, "s", 0, vec![]).is_err());
}

#[test]
fn strong_bet_readout_counts_evidence_triggered_items() {
    let mut store = temp_store();
    let goal = store.create_goal("demo").unwrap();
    let ids = store
        .lay_items(&goal.id, vec![subjective("base", Origin::UserPreRun)], Actor::Human)
        .unwrap();
    store.set_interpretation(&goal.id, &ids[0], "whatever").unwrap();
    let ev = store.add_evidence(&goal.id, &ids[0], some_evidence()).unwrap();

    store
        .lay_items(
            &goal.id,
            vec![NewItem {
                claim: "only black/white/grey".into(),
                check: "count distinct colors".into(),
                class: None,
                interpretation: None,
                origin: Origin::UserViewingEvidence { evidence_id: ev },
            }],
            Actor::Human,
        )
        .unwrap();

    let g = store.get_goal(&goal.id).unwrap();
    assert_eq!(g.strong_bet_count(), 1);
}

#[test]
fn create_auto_goal_is_idempotent_per_session() {
    let mut store = temp_store();
    let (a, created) = store
        .create_auto_goal("fix login", "/proj", "sA", "code-agent", None)
        .unwrap();
    assert!(created);
    assert!(a.watching);
    assert_eq!(a.auto_session.as_deref(), Some("sA"));
    assert_eq!(a.project_dir.as_deref(), Some("/proj"));
    assert_eq!(a.sessions.len(), 1, "creation binds the owning session");

    store.set_watch(&a.id, None, false).unwrap();
    let (again, created) = store
        .create_auto_goal("fix login retry", "/proj", "sA", "code-agent", None)
        .unwrap();
    assert!(!created);
    assert_eq!(again.id, a.id);
    assert!(!again.watching, "opt-out must survive");

    let (b, created) = store
        .create_auto_goal("refactor payments", "/proj", "sB", "code-agent", None)
        .unwrap();
    assert!(created);
    assert_ne!(b.id, a.id);
}

#[test]
fn find_session_goal_prefers_the_owned_goal() {
    let mut store = temp_store();
    let (a, _) = store
        .create_auto_goal("own goal", "/proj", "sA", "code-agent", None)
        .unwrap();
    let manual = store.create_goal("manual").unwrap();
    store.set_watch(&manual.id, Some("/proj".into()), true).unwrap();
    store.bind_session(&manual.id, "code-agent", "sA", None).unwrap();

    let found = store.find_session_goal("/proj", "sA").unwrap();
    assert_eq!(found.id, a.id);
    store.bind_session(&manual.id, "code-agent", "sB", None).unwrap();
    assert_eq!(store.find_session_goal("/proj", "sB").unwrap().id, manual.id);
    assert!(store.find_session_goal("/proj", "sC").is_none());
    assert!(store.find_session_goal("/elsewhere", "sA").is_none());
}

#[test]
fn marker_compute_derives_sessions_and_default() {
    let mut store = temp_store();
    let (a, _) = store
        .create_auto_goal("auto A", "/proj", "sA", "code-agent", None)
        .unwrap();
    let manual = store.create_goal("manual").unwrap();
    store.set_watch(&manual.id, Some("/proj".into()), true).unwrap();
    store.bind_session(&manual.id, "code-agent", "sB", None).unwrap();
    store.bind_session(&manual.id, "code-agent", "sA", None).unwrap();

    let goals = store.goals_for_dir("/proj");
    let m = compute(true, &goals).unwrap();
    assert!(m.auto);
    assert_eq!(
        m.default_goal.as_ref().unwrap().goal_id,
        manual.id,
        "newest watching manual goal is the default"
    );
    assert_eq!(entry(&m, "sA").goal_id, a.id, "owner wins its slot");
    assert_eq!(entry(&m, "sB").goal_id, manual.id);

    store.set_watch(&a.id, None, false).unwrap();
    let m = compute(true, &store.goals_for_dir("/proj")).unwrap();
    assert_eq!(entry(&m, "sA").goal_id, manual.id, "falls back to the bound goal");

    store.set_watch(&manual.id, None, false).unwrap();
    let goals = store.goals_for_dir("/proj");
    assert!(compute(false, &goals).is_none());
    let m = compute(true, &goals).unwrap();
    assert!(m.sessions.is_empty() && m.default_goal.is_none());
}

#[test]
fn end_turn_accounts_only_running_goals_and_the_gate_revives() {
    let mut store = temp_store();
    let (g, _) = store
        .create_auto_goal("mid-run clear", "/proj", "sE", "code-agent", None)
        .unwrap();

    assert!(store.end_turn(&g.id).unwrap());
    assert_eq!(store.get_goal(&g.id).unwrap().status, GoalStatus::TurnEndedUnmet);
    assert!(!store.end_turn(&g.id).unwrap());

    store
        .record_gate_decision(&g.id, GateDecisionKind::Block, Some("delta".into()))
        .unwrap();
    assert_eq!(store.get_goal(&g.id).unwrap().status, GoalStatus::Running);

    store.record_gate_decision(&g.id, GateDecisionKind::Release, None).unwrap();
    let parked = store.get_goal(&g.id).unwrap().status;
    assert_ne!(parked, GoalStatus::Running);
    assert!(!store.end_turn(&g.id).unwrap());
    assert_eq!(store.get_goal(&g.id).unwrap().status, parked);
}

#[test]
fn startup_spares_sessions_witnos_did_not_spawn() {
    let mut store = temp_store();
    let (theirs, _) = store
        .create_auto_goal("their own terminal", "/proj", "s-theirs", "code-agent", None)
        .unwrap();
    let (mixed, _) = store
        .create_auto_goal("resumed here", "/proj", "s-elsewhere", "code-agent", None)
        .unwrap();
    store.bind_session(&mixed.id, "code-agent", "s-in-pane", Some(3)).unwrap();

    store.account_ended_panes(&[]);

    assert_eq!(
        store.get_goal(&theirs.id).unwrap().status,
        GoalStatus::Running,
        "a session Witnos did not spawn must never be declared dead"
    );
    assert_eq!(
        store.get_goal(&mixed.id).unwrap().status,
        GoalStatus::TurnEndedUnmet,
        "one recorded pane of ours is enough: that pane is gone"
    );
}

// ---------- beyond the original's own cases ----------

#[test]
fn the_release_loop_blocks_then_releases_and_an_edit_reopens_it() {
    let mut store = temp_store();
    let goal = store.create_goal("demo").unwrap();
    let out = evaluate(&store.get_goal(&goal.id).unwrap());
    assert!(!out.release);
    assert_eq!(out.reasons, vec!["contract is empty — lay out verification items first".to_string()]);

    let ids = store
        .lay_items(
            &goal.id,
            vec![
                objective("cargo test passes", Actor::Agent),
                subjective("UI feels calm", Origin::AgentInitial),
            ],
            Actor::Agent,
        )
        .unwrap();
    let (obj, subj) = (&ids[0], &ids[1]);
    let out = evaluate(&store.get_goal(&goal.id).unwrap());
    assert!(!out.release);
    assert_eq!(
        out.reasons,
        vec![
            "objective item not passed: \"cargo test passes\"".to_string(),
            "subjective item not laid (needs interpretation + evidence): \"UI feels calm\"".to_string(),
            "contract moved: you are synced to v0, latest is v2 — fetch the delta and reconcile".to_string(),
        ]
    );

    store.report_oracle(&goal.id, obj, true).unwrap();
    store.add_evidence(&goal.id, obj, some_evidence()).unwrap();
    store.set_interpretation(&goal.id, subj, "calm = whitespace, no motion").unwrap();
    store.add_evidence(&goal.id, subj, some_evidence()).unwrap();
    store.reconcile(&goal.id, "sess-1", 2, vec![]).unwrap();
    assert!(evaluate(&store.get_goal(&goal.id).unwrap()).release);

    store
        .edit_item(&goal.id, subj, claim_edit("UI feels calm (and NO animation at all)"), Actor::Human, true)
        .unwrap();
    let g = store.get_goal(&goal.id).unwrap();
    assert_eq!((g.contract_version, g.last_human_edit_version), (3, 3));
    let out = evaluate(&g);
    assert!(!out.release);
    assert!(out.reasons.iter().any(|r| r.contains("not laid")));
    assert!(out.reasons.iter().any(|r| r.contains("contract moved")));
    assert!(matches!(
        g.events.last().unwrap().kind,
        EventKind::ContractEdited { by: Actor::Human, version_after: 3, after_drill_down: true, .. }
    ));

    store.set_interpretation(&goal.id, subj, "no animation: no CSS transitions either").unwrap();
    store.add_evidence(&goal.id, subj, some_evidence()).unwrap();
    store.reconcile(&goal.id, "sess-1", 3, vec![subj.clone()]).unwrap();
    assert!(evaluate(&store.get_goal(&goal.id).unwrap()).release);
    store.record_gate_decision(&goal.id, GateDecisionKind::Release, None).unwrap();
    let g = store.get_goal(&goal.id).unwrap();
    assert_eq!(g.status, GoalStatus::AwaitingRulings);
    assert_eq!(g.item(subj).unwrap().interpretation_history.len(), 2);
}

#[test]
fn the_agent_cannot_edit_a_human_item_nor_move_the_human_mark() {
    let mut store = temp_store();
    let goal = store.create_goal("demo").unwrap();
    let ids = store
        .lay_items(
            &goal.id,
            vec![subjective("human's bar", Origin::UserMidRun), objective("builds", Actor::Agent)],
            Actor::Human,
        )
        .unwrap();
    let before = store.get_goal(&goal.id).unwrap();
    assert_eq!((before.contract_version, before.last_human_edit_version), (2, 2));
    let err = store
        .edit_item(&goal.id, &ids[0], claim_edit("weaker bar"), Actor::Agent, false)
        .unwrap_err();
    assert_eq!(
        err.message(),
        "invalid operation: agents must not edit human-authored items; update your interpretation instead"
    );
    let after = store.get_goal(&goal.id).unwrap();
    assert_eq!((after.contract_version, after.last_human_edit_version), (2, 2));
    let err = store.report_oracle(&goal.id, &ids[0], true).unwrap_err();
    assert!(matches!(err, StoreError::Invalid(_)));
    store.edit_item(&goal.id, &ids[1], claim_edit("builds in release too"), Actor::Agent, false).unwrap();
    let g = store.get_goal(&goal.id).unwrap();
    assert_eq!((g.contract_version, g.last_human_edit_version), (3, 2));
}

#[test]
fn an_agent_cannot_lay_user_origin_items() {
    let mut store = temp_store();
    let goal = store.create_goal("demo").unwrap();
    let err = store
        .lay_items(
            &goal.id,
            vec![subjective("fine", Origin::AgentInitial), subjective("forged", Origin::UserPreRun)],
            Actor::Agent,
        )
        .unwrap_err();
    assert_eq!(
        err.message(),
        "invalid operation: an agent cannot lay items with a user origin — that would corrupt the core-bet instrumentation"
    );
    assert_eq!(store.get_goal(&goal.id).unwrap().contract_version, 0, "all or nothing");
}

#[test]
fn deleting_an_item_takes_its_evidence_and_reaches_the_delta() {
    let mut store = temp_store();
    let goal = store.create_goal("demo").unwrap();
    let ids = store
        .lay_items(
            &goal.id,
            vec![subjective("keep", Origin::UserPreRun), subjective("drop me", Origin::UserPreRun)],
            Actor::Human,
        )
        .unwrap();
    store.add_evidence(&goal.id, &ids[1], some_evidence()).unwrap();
    store.add_evidence(&goal.id, &ids[0], some_evidence()).unwrap();
    store.delete_item(&goal.id, &ids[1]).unwrap();
    let g = store.get_goal(&goal.id).unwrap();
    assert_eq!(g.contract_version, 3);
    assert_eq!(g.last_human_edit_version, 3);
    assert_eq!(g.items.len(), 1);
    assert_eq!(g.evidence.len(), 1);
    assert_eq!(g.evidence[0].item_id, ids[0]);
    assert_eq!(g.deletions_since(2), vec!["drop me"]);
    assert!(g.deletions_since(3).is_empty());
    assert!(matches!(store.delete_item(&goal.id, &ids[1]), Err(StoreError::ItemNotFound(_))));
}

#[test]
fn unknown_goals_and_items_are_refused() {
    let mut store = temp_store();
    let err = store.report_oracle("nope", "x", true).unwrap_err();
    assert_eq!(err.message(), "goal not found: nope");
    let goal = store.create_goal("demo").unwrap();
    let err = store.set_interpretation(&goal.id, "missing", "t").unwrap_err();
    assert_eq!(err.message(), "item not found: missing");
    assert!(matches!(store.delete_goal("nope"), Err(StoreError::GoalNotFound(_))));
    let removed = store.delete_goal(&goal.id).unwrap();
    assert_eq!(removed.id, goal.id);
    assert!(store.get_goal(&goal.id).is_none());
}

#[test]
fn reconcile_messages_name_the_versions() {
    let mut store = temp_store();
    let goal = store.create_goal("demo").unwrap();
    store.lay_items(&goal.id, vec![subjective("x", Origin::AgentInitial)], Actor::Agent).unwrap();
    assert_eq!(
        store.reconcile(&goal.id, "s", 5, vec![]).unwrap_err().message(),
        "invalid operation: cannot reconcile to v5: latest is v1"
    );
    store.reconcile(&goal.id, "s", 1, vec![]).unwrap();
    assert_eq!(
        store.reconcile(&goal.id, "s", 0, vec![]).unwrap_err().message(),
        "invalid operation: cannot reconcile backwards: already synced to v1"
    );
}

#[test]
fn the_sweep_accounts_a_lost_pane_once_and_spares_a_surviving_one() {
    let mut store = temp_store();
    let (ours, _) = store
        .create_auto_goal("ran in our pane", "/proj", "s-ours", "code-agent", Some(4))
        .unwrap();
    let (alive, _) = store
        .create_auto_goal("still open", "/proj", "s-alive", "code-agent", Some(5))
        .unwrap();
    store.account_ended_panes(&[5]);
    assert_eq!(store.get_goal(&ours.id).unwrap().status, GoalStatus::TurnEndedUnmet);
    assert_eq!(store.get_goal(&alive.id).unwrap().status, GoalStatus::Running);
    store.account_ended_panes(&[5]);
    let turn_ends = store
        .get_goal(&ours.id)
        .unwrap()
        .events
        .iter()
        .filter(|e| matches!(e.kind, EventKind::TurnEnded { met: false }))
        .count();
    assert_eq!(turn_ends, 1);
}

#[test]
fn a_pane_learned_later_lands_on_the_binding() {
    let mut store = temp_store();
    let (g, _) = store
        .create_auto_goal("typed back", "/proj", "sP", "code-agent", Some(7))
        .unwrap();
    assert_eq!(g.sessions[0].pane, Some(7));
    store.bind_session(&g.id, "code-agent", "sP", None).unwrap();
    store.bind_session(&g.id, "code-agent", "sQ", None).unwrap();
    store.bind_session(&g.id, "code-agent", "sQ", Some(9)).unwrap();
    let g = store.get_goal(&g.id).unwrap();
    let pane_of = |sid: &str| g.sessions.iter().find(|b| b.session_id == sid).unwrap().pane;
    assert_eq!(pane_of("sP"), Some(7));
    assert_eq!(pane_of("sQ"), Some(9));
    assert_eq!(g.sessions.len(), 2);
}

#[test]
fn a_status_change_touches_only_the_status() {
    let mut store = temp_store();
    let g = store.create_goal("park me").unwrap();
    store.set_status(&g.id, GoalStatus::Closed).unwrap();
    let after = store.get_goal(&g.id).unwrap();
    assert_eq!(after.status, GoalStatus::Closed);
    assert_eq!(after.contract_version, g.contract_version);
    assert_eq!(after.events.len(), g.events.len());
    assert!(matches!(store.set_status("nope", GoalStatus::Running), Err(StoreError::GoalNotFound(id)) if id == "nope"));
}

#[test]
fn only_an_objective_item_ever_passes() {
    let mut store = temp_store();
    let g = store.create_goal("demo").unwrap();
    let ids = store
        .lay_items(
            &g.id,
            vec![objective("tests pass", Actor::Agent), subjective("reads calm", Origin::AgentInitial)],
            Actor::Agent,
        )
        .unwrap();
    let status = |s: &Store, id: &str| s.get_goal(&g.id).unwrap().item(id).unwrap().status;

    // The objective item passes on its oracle.
    store.report_oracle(&g.id, &ids[0], true).unwrap();
    assert_eq!(status(&store, &ids[0]), ItemStatus::Passed);

    // The subjective one is laid at most, and an oracle report on it is refused.
    store.set_interpretation(&g.id, &ids[1], "calm = no motion").unwrap();
    store.add_evidence(&g.id, &ids[1], some_evidence()).unwrap();
    assert_eq!(status(&store, &ids[1]), ItemStatus::Laid);
    assert!(matches!(store.report_oracle(&g.id, &ids[1], true), Err(StoreError::Invalid(_))));
    assert_eq!(status(&store, &ids[1]), ItemStatus::Laid);

    // Demoting the passed item to subjective reopens it rather than keeping the pass.
    store
        .edit_item(
            &g.id,
            &ids[0],
            ItemEdit { claim: None, check: None, class: Some(Class::Subjective) },
            Actor::Human,
            false,
        )
        .unwrap();
    assert_eq!(status(&store, &ids[0]), ItemStatus::Open);
}

#[test]
fn goal_ids_are_hyphenated_random_uuids() {
    let mut store = temp_store();
    let a = store.create_goal("one").unwrap();
    let b = store.create_goal("two").unwrap();
    assert_ne!(a.id, b.id);
    for id in [&a.id, &b.id] {
        assert_eq!(id.len(), 36);
        for (k, c) in id.chars().enumerate() {
            if [8, 13, 18, 23].contains(&k) {
                assert_eq!(c, '-');
            } else {
                assert!(c.is_ascii_digit() || ('a'..='f').contains(&c), "{id}");
            }
        }
        assert_eq!(id.chars().nth(14), Some('4'));
    }
}

#[test]
fn a_delta_from_version_zero_is_the_whole_contract() {
    let mut store = temp_store();
    let g = store.create_goal("demo").unwrap();
    let ids = store
        .lay_items(
            &g.id,
            vec![subjective("one", Origin::AgentInitial), objective("two", Actor::Agent)],
            Actor::Agent,
        )
        .unwrap();
    store.edit_item(&g.id, &ids[0], claim_edit("one, edited"), Actor::Agent, false).unwrap();
    let goal = store.get_goal(&g.id).unwrap();
    let all: Vec<String> = goal.items_since(0).iter().map(|i| i.id.clone()).collect();
    assert_eq!(all, ids);
    let later: Vec<String> = goal.items_since(2).iter().map(|i| i.id.clone()).collect();
    assert_eq!(later, vec![ids[0].clone()]);
}

#[test]
fn binding_a_session_again_keeps_a_single_binding() {
    let mut store = temp_store();
    let g = store.create_goal("one seat each").unwrap();
    store.bind_session(&g.id, "code-agent", "sX", Some(2)).unwrap();
    store.bind_session(&g.id, "other-agent", "sX", None).unwrap();
    store.bind_session(&g.id, "code-agent", "sX", Some(5)).unwrap();
    let after = store.get_goal(&g.id).unwrap();
    let mine: Vec<_> = after.sessions.iter().filter(|b| b.session_id == "sX").collect();
    assert_eq!(mine.len(), 1);
    assert_eq!(mine[0].agent, "code-agent");
    assert_eq!(mine[0].pane, Some(5));
    assert_eq!(after.items.len(), g.items.len());
    assert_eq!(after.contract_version, g.contract_version);
}

#[test]
fn the_marker_does_not_depend_on_the_order_of_goals() {
    let mut store = temp_store();
    let (a, _) = store
        .create_auto_goal("auto A", "/proj", "sA", "code-agent", None)
        .unwrap();
    let first = store.create_goal("first manual").unwrap();
    store.set_watch(&first.id, Some("/proj".into()), true).unwrap();
    let second = store.create_goal("second manual").unwrap();
    store.set_watch(&second.id, Some("/proj".into()), true).unwrap();
    store.bind_session(&first.id, "code-agent", "sB", None).unwrap();
    store.bind_session(&second.id, "code-agent", "sB", None).unwrap();
    store.bind_session(&second.id, "code-agent", "sA", None).unwrap();

    let goals = store.goals_for_dir("/proj");
    let mut reversed = goals.clone();
    reversed.reverse();
    let m1 = compute(false, &goals).unwrap();
    let m2 = compute(false, &reversed).unwrap();
    let default_of = |m: &ArmedMarker| m.default_goal.as_ref().map(|d| d.goal_id.clone());
    assert_eq!(default_of(&m1), default_of(&m2));
    assert_eq!(entry(&m1, "sA").goal_id, a.id);
    assert_eq!(entry(&m2, "sA").goal_id, a.id);
    assert_eq!(entry(&m1, "sB").goal_id, entry(&m2, "sB").goal_id);
    assert_eq!(m1.sessions.len(), m2.sessions.len());
}

#[test]
fn delete_goal_removes_memory_and_disk() {
    let mut store = temp_store();
    let goal = store.create_goal("doomed").unwrap();
    assert!(store.get_goal(&goal.id).is_some());

    let removed = store.delete_goal(&goal.id).unwrap();
    assert_eq!(removed.id, goal.id);
    assert!(store.get_goal(&goal.id).is_none());
    assert!(!store.goal_ids().contains(&goal.id));

    // deleting twice reports GoalNotFound
    assert!(matches!(store.delete_goal(&goal.id), Err(StoreError::GoalNotFound(_))));
}

/// A goal stays parked in `AwaitingRulings` after release: a turn ending or
/// a sweep of lost panes does not move it.
#[test]
fn a_released_goal_parks_awaiting_rulings_and_stays_there() {
    let mut store = temp_store();
    let goal = store.create_goal("demo").unwrap();
    let ids = store
        .lay_items(
            &goal.id,
            vec![
                subjective("calm UI", Origin::AgentInitial),
                subjective("readable copy", Origin::AgentInitial),
            ],
            Actor::Agent,
        )
        .unwrap();
    for id in &ids {
        store.set_interpretation(&goal.id, id, "how I read it").unwrap();
        store.add_evidence(&goal.id, id, some_evidence()).unwrap();
    }
    store.record_gate_decision(&goal.id, GateDecisionKind::Release, None).unwrap();
    let status = |s: &Store| s.get_goal(&goal.id).unwrap().status;
    assert_eq!(status(&store), GoalStatus::AwaitingRulings);

    assert!(!store.end_turn(&goal.id).unwrap());
    assert_eq!(status(&store), GoalStatus::AwaitingRulings);
    store.account_ended_panes(&[]);
    assert_eq!(status(&store), GoalStatus::AwaitingRulings);
}

#[test]
fn only_human_moves_bump_last_human_edit_version() {
    let mut store = temp_store();
    let goal = store.create_goal("demo").unwrap();
    assert_eq!(goal.last_human_edit_version, 0);
    let seen = |s: &Store| {
        let g = s.get_goal(&goal.id).unwrap();
        (g.contract_version, g.last_human_edit_version)
    };

    let agent_ids = store
        .lay_items(
            &goal.id,
            vec![subjective("calm UI", Origin::AgentInitial), objective("it builds", Actor::Agent)],
            Actor::Agent,
        )
        .unwrap();
    assert_eq!(seen(&store), (2, 0));

    store
        .edit_item(&goal.id, &agent_ids[0], claim_edit("calm UI, no motion"), Actor::Agent, false)
        .unwrap();
    assert_eq!(seen(&store), (3, 0));

    store.set_interpretation(&goal.id, &agent_ids[0], "calm = nothing animates").unwrap();
    store.add_evidence(&goal.id, &agent_ids[0], some_evidence()).unwrap();
    store.report_oracle(&goal.id, &agent_ids[1], true).unwrap();
    store.add_evidence(&goal.id, &agent_ids[1], some_evidence()).unwrap();
    store.reconcile(&goal.id, "s", 3, vec![]).unwrap();
    assert_eq!(seen(&store), (3, 0));

    let mine = store
        .lay_items(
            &goal.id,
            vec![subjective("nothing shifts on hover", Origin::UserMidRun)],
            Actor::Human,
        )
        .unwrap();
    assert_eq!(seen(&store), (4, 4));

    store
        .edit_item(
            &goal.id,
            &mine[0],
            claim_edit("nothing shifts on hover, anywhere"),
            Actor::Human,
            false,
        )
        .unwrap();
    assert_eq!(seen(&store), (5, 5));

    // A refused write leaves neither number moved.
    store
        .edit_item(&goal.id, &mine[0], claim_edit("agents must not touch this"), Actor::Agent, false)
        .unwrap_err();
    assert_eq!(seen(&store), (5, 5));
}

#[test]
fn startup_accounts_goals_whose_pane_died_with_the_app() {
    let mut store = temp_store();
    let (ours, _) = store
        .create_auto_goal("ran in our pane", "/proj", "s-ours", "code-agent", Some(4))
        .unwrap();
    let (parked, _) = store
        .create_auto_goal("released", "/proj", "s-parked", "code-agent", Some(5))
        .unwrap();
    store.record_gate_decision(&parked.id, GateDecisionKind::Release, None).unwrap();

    store.account_ended_panes(&[]);
    let status = |s: &Store, id: &str| s.get_goal(id).unwrap().status;
    assert_eq!(status(&store, &ours.id), GoalStatus::TurnEndedUnmet);
    assert_eq!(status(&store, &parked.id), GoalStatus::AwaitingRulings);

    let turn_ends = |s: &Store| {
        s.get_goal(&ours.id)
            .unwrap()
            .events
            .iter()
            .filter(|e| matches!(e.kind, EventKind::TurnEnded { met: false }))
            .count()
    };
    assert_eq!(turn_ends(&store), 1);
    store.account_ended_panes(&[]);
    assert_eq!(turn_ends(&store), 1, "a second start must not re-account it");

    store
        .record_gate_decision(&ours.id, GateDecisionKind::Block, Some("delta".into()))
        .unwrap();
    assert_eq!(status(&store, &ours.id), GoalStatus::Running);
}
