use witnos::contract::StoreError;
use witnos::desk::Target;
use witnos::human::{
    add_item, close_goal, delete_goal, delete_item, drill_down, edit_item, goals_newest_first, nudge,
    project_counts,
};
use witnos::registry::ProjectRegistry;
use witnos::server::{register_project, AppState};
use witnos::store::Store;
use witnos::types::{EventKind, GoalStatus, ItemStatus, Origin, Pointer};

fn state() -> AppState {
    AppState { store: Store::new(), token: "t".to_string(), registry: ProjectRegistry::new() }
}

#[test]
fn a_human_item_records_where_it_came_from() {
    let mut st = state();
    let g = st.store.create_goal("demo").unwrap();
    add_item(&mut st, &g.id, "calm".into(), "look".into(), None).unwrap();
    st.store.bind_session(&g.id, "agent", "s1", None).unwrap();
    add_item(&mut st, &g.id, "quiet".into(), "listen".into(), None).unwrap();
    add_item(&mut st, &g.id, "grey".into(), "swatch".into(), Some("e-9".into())).unwrap();
    let goal = st.store.get_goal(&g.id).unwrap();
    assert_eq!(goal.items[0].origin, Origin::UserPreRun);
    assert_eq!(goal.items[1].origin, Origin::UserMidRun);
    assert_eq!(goal.items[2].origin, Origin::UserViewingEvidence { evidence_id: "e-9".into() });
    assert_eq!(goal.contract_version, 3);
    assert_eq!(goal.last_human_edit_version, 3);
    assert!(goal.strong_bet_count() == 1);
    assert!(matches!(
        add_item(&mut st, "nope", "x".into(), "y".into(), None),
        Err(StoreError::GoalNotFound(id)) if id == "nope"
    ));
}

#[test]
fn the_human_edits_deletes_and_closes_and_the_marker_follows() {
    let mut st = state();
    let g = st.store.create_goal("demo").unwrap();
    st.store.set_watch(&g.id, Some("/proj".into()), true).unwrap();
    let m = add_item(&mut st, &g.id, "calm".into(), "look".into(), None).unwrap();
    let (dir, marker) = m.expect("a watched goal has a directory");
    assert_eq!(dir, "/proj");
    let marker = marker.expect("a watched goal arms its directory");
    assert_eq!(marker.default_goal.unwrap().contract_version, 1);

    let item = st.store.get_goal(&g.id).unwrap().items[0].id.clone();
    edit_item(&mut st, &g.id, &item, "calmer".into(), "look twice".into(), true).unwrap();
    let goal = st.store.get_goal(&g.id).unwrap();
    assert_eq!(goal.items[0].claim, "calmer");
    assert_eq!(goal.items[0].check, "look twice");
    assert_eq!(goal.items[0].status, ItemStatus::Open);
    assert!(matches!(
        goal.events.last().unwrap().kind,
        EventKind::ContractEdited { after_drill_down: true, version_after: 2, .. }
    ));

    delete_item(&mut st, &g.id, &item).unwrap();
    assert!(st.store.get_goal(&g.id).unwrap().items.is_empty());
    assert!(matches!(delete_item(&mut st, &g.id, &item), Err(StoreError::ItemNotFound(_))));

    let (_, marker) = close_goal(&mut st, &g.id).unwrap().unwrap();
    assert!(marker.is_none(), "the only goal of a manual directory closed: nothing arms it");
    let goal = st.store.get_goal(&g.id).unwrap();
    assert_eq!(goal.status, GoalStatus::Closed);
    assert!(!goal.watching);
    assert_eq!(goal.project_dir.as_deref(), Some("/proj"));

    let (dir, marker) = delete_goal(&mut st, &g.id).unwrap().unwrap();
    assert_eq!(dir, "/proj");
    assert!(marker.is_none());
    assert!(st.store.get_goal(&g.id).is_none());
}

#[test]
fn a_drill_down_is_recorded_and_resolves_its_pointer() {
    let mut st = state();
    let g = st.store.create_goal("demo").unwrap();
    st.store.set_watch(&g.id, Some("/proj".into()), true).unwrap();
    let url = Pointer::Url { url: "https://x.test".into() };
    let t = drill_down(&mut st, &g.id, "e-1", url).unwrap();
    assert!(matches!(t, Some(Target::Url(u)) if u == "https://x.test"));
    let cmd = Pointer::Command { cmd: "ls".into() };
    assert!(drill_down(&mut st, &g.id, "e-2", cmd).unwrap().is_none());
    let drills = st
        .store
        .get_goal(&g.id)
        .unwrap()
        .events
        .iter()
        .filter(|e| matches!(e.kind, EventKind::DrillDown { .. }))
        .count();
    assert_eq!(drills, 2);
    let err = drill_down(&mut st, "nope", "e-3", Pointer::Url { url: "u".into() }).unwrap_err();
    assert_eq!(err, "goal not found: nope");
}

#[test]
fn projects_are_counted_and_goals_listed_newest_first() {
    let mut st = state();
    register_project(&mut st, "/a");
    register_project(&mut st, "/b");
    let g1 = st.store.create_goal("one").unwrap();
    st.store.set_watch(&g1.id, Some("/a".into()), true).unwrap();
    let g2 = st.store.create_goal("two").unwrap();
    st.store.set_watch(&g2.id, Some("/a".into()), false).unwrap();
    let counts = project_counts(&st);
    assert_eq!(counts.len(), 2);
    assert_eq!((counts[0].dir.as_str(), counts[0].goal_count, counts[0].watching_count), ("/a", 2, 1));
    assert_eq!((counts[1].dir.as_str(), counts[1].goal_count, counts[1].watching_count), ("/b", 0, 0));

    let listed = goals_newest_first(&st.store);
    assert_eq!(listed.len(), 2);
    assert!(listed[0].created_at >= listed[1].created_at);
    let mut ids: Vec<String> = listed.iter().map(|g| g.id.clone()).collect();
    ids.sort();
    let mut want = vec![g1.id.clone(), g2.id.clone()];
    want.sort();
    assert_eq!(ids, want);
}

#[test]
fn a_nudge_goes_to_the_newest_pane() {
    let mut st = state();
    let g = st.store.create_goal("demo").unwrap();
    assert!(nudge(&st.store.get_goal(&g.id).unwrap(), "hi").is_none(), "no pane: nowhere to type");
    st.store.bind_session(&g.id, "agent", "s1", Some(4)).unwrap();
    st.store.bind_session(&g.id, "agent", "s2", Some(9)).unwrap();
    st.store.bind_session(&g.id, "agent", "s3", None).unwrap();
    let (pane, text) = nudge(&st.store.get_goal(&g.id).unwrap(), "look  again").unwrap();
    assert_eq!(pane, 9);
    assert!(text.contains("From the user: look again"), "{text}");
    assert!(!text.contains('\n'));
}
