//! The human's levers on the core: adding, editing and deleting items,
//! closing and deleting goals, opening the original behind evidence, and
//! what the projects and goals look like from the human's side. None of it
//! is reachable by an agent; each answers the marker the goal's directory
//! should carry afterwards.

use vstd::prelude::*;

use crate::contract::{refusal_of, refusal_text, ItemEdit, NewItem, Refusal, StoreError};
use crate::desk::{agent_note, agent_note_text, resolve_target, target_resolved, Target};
use crate::marker::ArmedMarker;
use crate::seqs::{count_where, first_where, keep, lemma_first_where_facts, lemma_keep_len};
use crate::server::{marker_of_goal, resync_after, resync_goal_dir, resynced, AppState};
use crate::store::{
    Store, delete_step, drill_step, edit_step, goal_has_id, in_dir, lay_step, no_goal, status_set, watch_set,
};
use crate::text::owned;
use crate::types::{views, Actor, DuplicateView, Goal, GoalStatus, GoalV, Origin, Pointer, SessionBindingV};

verus! {

/// Where an item the human adds comes from: read off a piece of evidence
/// when they were looking at one (the core bet's readout), before the run
/// while no session is bound, during it otherwise.
pub open spec fn human_origin_for(g: GoalV, viewing_evidence: Option<String>) -> Origin {
    match viewing_evidence {
        Some(e) => Origin::UserViewingEvidence { evidence_id: e },
        None => if g.sessions.len() == 0 {
            Origin::UserPreRun
        } else {
            Origin::UserMidRun
        },
    }
}

pub fn human_origin(goal: &Goal, viewing_evidence: Option<String>) -> (r: Origin)
    ensures
        r == human_origin_for(goal@, viewing_evidence),
{
    match viewing_evidence {
        Some(e) => Origin::UserViewingEvidence { evidence_id: e },
        None => if goal.sessions.len() == 0 {
            Origin::UserPreRun
        } else {
            Origin::UserMidRun
        },
    }
}

/// An item the human adds: subjective (promotion is a separate, deliberate
/// act) and with no interpretation of the agent's.
pub open spec fn human_item(claim: String, check: String, origin: Origin) -> NewItem {
    NewItem { claim, check, class: None, interpretation: None, origin }
}

/// The marker a goal's directory carries in `state`.
pub open spec fn marker_now(state: &AppState, i: int) -> Option<(Seq<char>, Option<crate::marker::ArmedMarkerV>)> {
    marker_of_goal(state.registry@, state.store@, state.store@[i])
}

/// The human adds an item to a goal, its origin recorded honestly.
pub fn add_item(
    state: &mut AppState,
    goal_id: &str,
    claim: String,
    check: String,
    viewing_evidence: Option<String>,
) -> (r: Result<Option<(String, Option<ArmedMarker>)>, StoreError>)
    requires
        old(state).wf(),
    ensures
        final(state).wf(),
        final(state).registry@ == old(state).registry@,
        match first_where(old(state).store@, goal_has_id(goal_id@)) {
            None => no_goal(old(state).store@, final(state).store@, goal_id@, refusal_of(r)),
            Some(i) => lay_step(
                old(state).store@,
                final(state).store@,
                i,
                seq![human_item(claim, check, human_origin_for(old(state).store@[i], viewing_evidence))],
                Actor::Human,
                refusal_of(r),
                None,
            ) && (r matches Ok(m) ==> resynced(m) == marker_now(final(state), i)),
        },
{
    let ghost s0 = state.store@;
    let ghost want = human_item(claim, check, human_origin_for(
        s0[first_where(s0, goal_has_id(goal_id@))->Some_0],
        viewing_evidence,
    ));
    let goal = match state.store.get_goal(goal_id) {
        Some(g) => g,
        None => {
            return Err(StoreError::GoalNotFound(owned(goal_id)));
        },
    };
    let origin = human_origin(&goal, viewing_evidence);
    let mut items: Vec<NewItem> = Vec::new();
    items.push(NewItem { claim, check, class: None, interpretation: None, origin });
    assert(items@ =~= seq![want]);
    match state.store.lay_items(goal_id, items, Actor::Human) {
        Ok(_) => {},
        Err(e) => {
            return Err(e);
        },
    }
    proof {
        lemma_first_where_facts(s0, goal_has_id(goal_id@));
        let i = first_where(s0, goal_has_id(goal_id@))->Some_0;
        let (idsv, at) = choose|idsv: Seq<Seq<char>>, at: u64|
            #[trigger] crate::store::stepped(
                s0,
                state.store@,
                i,
                crate::contract::laid(s0[i], seq![want], Actor::Human, idsv, at),
                None,
            ) && idsv.len() == 1;
        crate::contract::lemma_with_new_items(s0[i], seq![want], Actor::Human, idsv, at);
        crate::store::lemma_id_finds_goal(state.store@, i);
    }
    Ok(resync_after(state, goal_id))
}

/// The human moves an item's yardstick: claim and check replaced, the class
/// kept. `after_drill_down` records whether they opened an evidence original
/// first.
pub fn edit_item(
    state: &mut AppState,
    goal_id: &str,
    item_id: &str,
    claim: String,
    check: String,
    after_drill_down: bool,
) -> (r: Result<Option<(String, Option<ArmedMarker>)>, StoreError>)
    requires
        old(state).wf(),
    ensures
        final(state).wf(),
        final(state).registry@ == old(state).registry@,
        match first_where(old(state).store@, goal_has_id(goal_id@)) {
            None => no_goal(old(state).store@, final(state).store@, goal_id@, refusal_of(r)),
            Some(i) => edit_step(
                old(state).store@,
                final(state).store@,
                i,
                item_id@,
                ItemEdit { claim: Some(claim), check: Some(check), class: None },
                Actor::Human,
                after_drill_down,
                refusal_of(r),
            ) && (r matches Ok(m) ==> resynced(m) == marker_now(final(state), i)),
        },
{
    let ghost s0 = state.store@;
    let edit = ItemEdit { claim: Some(claim), check: Some(check), class: None };
    match state.store.edit_item(goal_id, item_id, edit, Actor::Human, after_drill_down) {
        Ok(()) => {},
        Err(e) => {
            return Err(e);
        },
    }
    proof {
        lemma_first_where_facts(s0, goal_has_id(goal_id@));
        let i = first_where(s0, goal_has_id(goal_id@))->Some_0;
        crate::store::lemma_id_finds_goal(state.store@, i);
    }
    Ok(resync_after(state, goal_id))
}

/// The human takes an item out of the contract, evidence and all.
pub fn delete_item(state: &mut AppState, goal_id: &str, item_id: &str) -> (r: Result<
    Option<(String, Option<ArmedMarker>)>,
    StoreError,
>)
    requires
        old(state).wf(),
    ensures
        final(state).wf(),
        final(state).registry@ == old(state).registry@,
        match first_where(old(state).store@, goal_has_id(goal_id@)) {
            None => no_goal(old(state).store@, final(state).store@, goal_id@, refusal_of(r)),
            Some(i) => delete_step(old(state).store@, final(state).store@, i, item_id@, refusal_of(r))
                && (r matches Ok(m) ==> resynced(m) == marker_now(final(state), i)),
        },
{
    let ghost s0 = state.store@;
    match state.store.delete_item(goal_id, item_id) {
        Ok(()) => {},
        Err(e) => {
            return Err(e);
        },
    }
    proof {
        lemma_first_where_facts(s0, goal_has_id(goal_id@));
        let i = first_where(s0, goal_has_id(goal_id@))->Some_0;
        crate::store::lemma_id_finds_goal(state.store@, i);
    }
    Ok(resync_after(state, goal_id))
}

/// The human closes a goal: no longer watched, and closed. Other goals in
/// its directory keep their place in the marker.
pub fn close_goal(state: &mut AppState, goal_id: &str) -> (r: Result<
    Option<(String, Option<ArmedMarker>)>,
    StoreError,
>)
    requires
        old(state).wf(),
    ensures
        final(state).wf(),
        final(state).registry@ == old(state).registry@,
        match first_where(old(state).store@, goal_has_id(goal_id@)) {
            None => no_goal(old(state).store@, final(state).store@, goal_id@, refusal_of(r)),
            Some(i) => final(state).store@ == old(state).store@.update(
                i,
                status_set(watch_set(old(state).store@[i], None, false), GoalStatus::Closed),
            ) && (r matches Ok(m) && resynced(m) == marker_now(final(state), i)),
        },
{
    let ghost s0 = state.store@;
    match state.store.set_watch(goal_id, None, false) {
        Ok(_) => {},
        Err(e) => {
            return Err(e);
        },
    }
    proof {
        lemma_first_where_facts(s0, goal_has_id(goal_id@));
        let i = first_where(s0, goal_has_id(goal_id@))->Some_0;
        crate::store::lemma_id_finds_goal(state.store@, i);
    }
    let ghost s1 = state.store@;
    match state.store.set_status(goal_id, GoalStatus::Closed) {
        Ok(()) => {},
        Err(e) => {
            return Err(e);
        },
    }
    proof {
        let i = first_where(s0, goal_has_id(goal_id@))->Some_0;
        assert(state.store@ =~= s0.update(
            i,
            status_set(watch_set(s0[i], None, false), GoalStatus::Closed),
        ));
        crate::store::lemma_id_finds_goal(state.store@, i);
    }
    Ok(resync_after(state, goal_id))
}

/// The human deletes a goal outright; its directory's marker is recomputed
/// from the goals left there.
pub fn delete_goal(state: &mut AppState, goal_id: &str) -> (r: Result<
    Option<(String, Option<ArmedMarker>)>,
    StoreError,
>)
    requires
        old(state).wf(),
    ensures
        final(state).wf(),
        final(state).registry@ == old(state).registry@,
        match first_where(old(state).store@, goal_has_id(goal_id@)) {
            None => no_goal(old(state).store@, final(state).store@, goal_id@, refusal_of(r)),
            Some(i) => final(state).store@ == old(state).store@.remove(i) && (r matches Ok(m)
                && resynced(m) == marker_of_goal(
                final(state).registry@,
                final(state).store@,
                old(state).store@[i],
            )),
        },
{
    let goal = match state.store.delete_goal(goal_id) {
        Ok(g) => g,
        Err(e) => {
            return Err(e);
        },
    };
    Ok(resync_goal_dir(state, &goal))
}

/// The human opens the original behind an evidence pointer: the drill-down
/// is recorded, then the pointer is resolved against the goal's workspace
/// (`Ok(None)`: nothing to open). Refusals come back as their text.
pub fn drill_down(state: &mut AppState, goal_id: &str, evidence_id: &str, pointer: Pointer) -> (r:
    Result<Option<Target>, String>)
    requires
        old(state).wf(),
    ensures
        final(state).wf(),
        final(state).registry@ == old(state).registry@,
        match first_where(old(state).store@, goal_has_id(goal_id@)) {
            None => final(state).store@ == old(state).store@ && (r matches Err(m) && m@
                == refusal_text(Refusal::GoalNotFound(goal_id@))),
            Some(i) => drill_step(
                old(state).store@,
                final(state).store@,
                i,
                evidence_id@,
                pointer@,
                None,
            ) && target_resolved(final(state).store@[i], pointer@, r),
        },
{
    let ghost s0 = state.store@;
    match state.store.record_drill_down(goal_id, evidence_id, pointer.duplicate()) {
        Ok(()) => {},
        Err(e) => {
            return Err(e.message());
        },
    }
    proof {
        lemma_first_where_facts(s0, goal_has_id(goal_id@));
        let i = first_where(s0, goal_has_id(goal_id@))->Some_0;
        crate::store::lemma_id_finds_goal(state.store@, i);
    }
    match state.store.get_goal(goal_id) {
        Some(goal) => resolve_target(&goal, &pointer),
        None => Err(owned("goal not found")),
    }
}

// ---------- what the human sees ----------

/// The goals a registered project holds, and how many of them are watched.
pub struct ProjectCount {
    pub dir: String,
    pub goal_count: usize,
    pub watching_count: usize,
}

pub open spec fn is_watching() -> spec_fn(GoalV) -> bool {
    |g: GoalV| g.watching
}

/// Every auto-watched project, in the registry's order, with its counts.
pub fn project_counts(state: &AppState) -> (r: Vec<ProjectCount>)
    requires
        state.wf(),
    ensures
        r@.len() == state.registry@.len(),
        forall|k: int|
            0 <= k < r@.len() ==> {
                let here = keep(state.store@, in_dir(state.registry@[k]));
                &&& (#[trigger] r@[k]).dir@ == state.registry@[k]
                &&& r@[k].goal_count == here.len()
                &&& r@[k].watching_count == count_where(here, is_watching())
            },
{
    let dirs = state.registry.list();
    let mut out: Vec<ProjectCount> = Vec::new();
    let mut k: usize = 0;
    while k < dirs.len()
        invariant
            k <= dirs@.len(),
            views(dirs@) == state.registry@,
            state.wf(),
            out@.len() == k,
            forall|j: int|
                0 <= j < k ==> {
                    let here = keep(state.store@, in_dir(state.registry@[j]));
                    &&& (#[trigger] out@[j]).dir@ == state.registry@[j]
                    &&& out@[j].goal_count == here.len()
                    &&& out@[j].watching_count == count_where(here, is_watching())
                },
        decreases dirs@.len() - k,
    {
        let goals = state.store.goals_for_dir(dirs[k].as_str());
        let ghost here = views(goals@);
        let mut n: usize = 0;
        let mut j: usize = 0;
        while j < goals.len()
            invariant
                j <= goals@.len(),
                here == views(goals@),
                n == count_where(here.take(j as int), is_watching()),
                n <= j,
            decreases goals@.len() - j,
        {
            proof {
                lemma_keep_len(here.take(j as int), is_watching());
                lemma_keep_len(here.take(j + 1), is_watching());
                assert(here.take(j + 1).drop_last() =~= here.take(j as int));
            }
            if goals[j].watching {
                n = n + 1;
            }
            j = j + 1;
        }
        proof {
            assert(here.take(goals@.len() as int) =~= here);
        }
        out.push(ProjectCount { dir: dirs[k].clone(), goal_count: goals.len(), watching_count: n });
        k = k + 1;
    }
    out
}

/// The pane of the newest session binding that records one.
pub open spec fn last_pane(sessions: Seq<SessionBindingV>) -> Option<u32>
    decreases sessions.len(),
{
    if sessions.len() == 0 {
        None
    } else {
        match sessions.last().pane {
            Some(p) => Some(p),
            None => last_pane(sessions.drop_last()),
        }
    }
}

/// Where a nudge for this goal goes and what it says: the pane of the newest
/// binding that has one (after a resume a goal can carry several sessions,
/// and the live one is the last heard from), and the one-line note.
/// `None`: no pane is known, so there is nowhere to type.
pub fn nudge(goal: &Goal, note: &str) -> (r: Option<(u32, String)>)
    ensures
        match last_pane(goal@.sessions) {
            None => r is None,
            Some(p) => r matches Some((q, t)) && q == p && t@ == agent_note_text(
                goal@.id,
                goal@.contract_version,
                goal@.agent_synced_version,
                note@,
            ),
        },
{
    let ghost s = goal@.sessions;
    let mut k: usize = goal.sessions.len();
    assert(s.take(k as int) =~= s);
    while k > 0
        invariant
            k <= goal.sessions@.len(),
            s == goal@.sessions,
            s.len() == goal.sessions@.len(),
            last_pane(s) == last_pane(s.take(k as int)),
        decreases k,
    {
        k = k - 1;
        proof {
            assert(s.take(k + 1).drop_last() =~= s.take(k as int));
            assert(s.take(k + 1).last() == s[k as int]);
        }
        match goal.sessions[k].pane {
            Some(p) => {
                let text = agent_note(
                    goal.id.as_str(),
                    goal.contract_version,
                    goal.agent_synced_version,
                    note,
                );
                return Some((p, text));
            },
            None => {},
        }
    }
    None
}

/// Newest first by creation time.
pub open spec fn newest_first(s: Seq<GoalV>) -> bool {
    forall|a: int, b: int| 0 <= a < b < s.len() ==> s[a].created_at >= s[b].created_at
}

proof fn lemma_views_insert(s: Seq<Goal>, i: int, x: Goal)
    requires
        0 <= i <= s.len(),
    ensures
        views(s.insert(i, x)) == views(s).insert(i, x@),
{
    assert(views(s.insert(i, x)) =~= views(s).insert(i, x@));
}

/// Every goal, newest first, as the human's goal list shows them.
pub fn goals_newest_first(store: &Store) -> (r: Vec<Goal>)
    ensures
        newest_first(views(r@)),
        views(r@).to_multiset() == store@.to_multiset(),
{
    let all = store.all_goals();
    let mut out: Vec<Goal> = Vec::new();
    let mut k: usize = 0;
    assert(views(out@) =~= store@.take(0));
    while k < all.len()
        invariant
            k <= all@.len(),
            views(all@) == store@,
            newest_first(views(out@)),
            views(out@).to_multiset() == store@.take(k as int).to_multiset(),
            out@.len() == k,
        decreases all@.len() - k,
    {
        let g = all[k].duplicate();
        let c = g.created_at;
        let ghost w = views(out@);
        let mut pos: usize = 0;
        while pos < out.len() && out[pos].created_at >= c
            invariant
                pos <= out@.len(),
                w == views(out@),
                forall|j: int| 0 <= j < pos ==> (#[trigger] w[j]).created_at >= c,
            decreases out@.len() - pos,
        {
            pos = pos + 1;
        }
        let ghost o0 = out@;
        let ghost g0 = g;
        out.insert(pos, g);
        proof {
            lemma_views_insert(o0, pos as int, g0);
            let w2 = views(out@);
            assert(w2 == w.insert(pos as int, g0@));
            if pos < w.len() {
                assert(w[pos as int].created_at < c);
            }
            assert forall|a: int, b: int| 0 <= a < b < w2.len() implies w2[a].created_at
                >= w2[b].created_at by {
                if b < pos {
                    assert(w2[a] == w[a] && w2[b] == w[b]);
                } else if b == pos {
                    assert(w2[a] == w[a]);
                } else if a < pos {
                    assert(w2[a] == w[a] && w2[b] == w[b - 1]);
                    assert(w[pos as int].created_at < c);
                } else if a == pos {
                    assert(w2[b] == w[b - 1]);
                    assert(w[pos as int].created_at < c);
                    assert(w[pos as int].created_at >= w[b - 1].created_at || b - 1 == pos);
                } else {
                    assert(w2[a] == w[a - 1] && w2[b] == w[b - 1]);
                }
            }
            assert(store@.take(k + 1) =~= store@.take(k as int).push(store@[k as int]));
            assert(views(all@)[k as int] == g0@);
            vstd::seq_lib::to_multiset_insert(w, pos as int, g0@);
            vstd::seq_lib::to_multiset_build(store@.take(k as int), store@[k as int]);
        }
        k = k + 1;
    }
    assert(store@.take(k as int) =~= store@);
    out
}

} // verus!
