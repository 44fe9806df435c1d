//! What the core's HTTP surface decides and says: the answer to a
//! stop, the block reasons and deltas the agent reads, and which project
//! directories need their marker rewritten. Transport, JSON and files are
//! the caller's business.

use vstd::prelude::*;
use vstd::string::*;

use crate::contract::{bound, gate_recorded, refusal_of, Refusal, StoreError};
use crate::gate::{evaluate, gate_reasons, releasable};
use crate::marker::{compute, derived_marker, ArmedMarker};
use crate::registry::ProjectRegistry;
use crate::seqs::{first_where, keep, lemma_first_where_facts};
use crate::store::{goal_has_id, in_dir, session_goal, Store};
use crate::hooks::mentions;
use crate::text::{decimal, owned, push_decimal, same};
use crate::types::{
    deleted_claims, edited_after, lemma_views_push, opt_text, views, Class, ClassV, EventKind,
    EventKindV, EventV, GateDecisionKind, Goal, GoalV, Item, ItemStatus, ItemV,
};

verus! {

// ---------- what the agent reads ----------

/// The pieces of `ws` with `sep` between neighbours.
pub open spec fn joined(ws: Seq<Seq<char>>, sep: Seq<char>) -> Seq<char>
    decreases ws.len(),
{
    if ws.len() == 0 {
        Seq::empty()
    } else if ws.len() == 1 {
        ws[0]
    } else {
        joined(ws.drop_last(), sep) + sep + ws.last()
    }
}

/// `ws` joined by `sep`.
pub fn join_texts(ws: &Vec<String>, sep: &str) -> (r: String)
    ensures
        r@ == joined(views(ws@), sep@),
{
    let mut out = String::new();
    let mut k: usize = 0;
    while k < ws.len()
        invariant
            k <= ws@.len(),
            out@ == joined(views(ws@).take(k as int), sep@),
        decreases ws@.len() - k,
    {
        proof {
            let t = views(ws@).take(k + 1);
            assert(t.drop_last() =~= views(ws@).take(k as int));
            assert(t.last() == ws@[k as int]@);
        }
        if k > 0 {
            out.append(sep);
        }
        out.append(ws[k].as_str());
        proof {
            let t = views(ws@).take(k + 1);
            if k == 0 {
                assert(out@ =~= t[0]);
            } else {
                assert(out@ =~= joined(t.drop_last(), sep@) + sep@ + t.last());
            }
        }
        k = k + 1;
    }
    assert(views(ws@).take(k as int) =~= views(ws@));
    out
}

pub open spec fn no_goal_text() -> Seq<char> {
    "[witnos] This project is auto-watched, but this session never got a goal — most likely Witnos was not running when your prompts were submitted, or the project started being watched after this session did. Tell the user: with the Witnos app open, one more prompt attaches a goal automatically; to stop watching instead, remove the project in the app or run `witnos disarm` in the project root. This stall is fail-closed by design."@
}

/// An auto project whose session never got a goal. The core cannot see
/// why, so the reason names no cause; it points at the ways out.
pub fn no_goal_reason() -> (r: String)
    ensures
        r@ == no_goal_text(),
{
    owned(
        "[witnos] This project is auto-watched, but this session never got a goal — most likely Witnos was not running when your prompts were submitted, or the project started being watched after this session did. Tell the user: with the Witnos app open, one more prompt attaches a goal automatically; to stop watching instead, remove the project in the app or run `witnos disarm` in the project root. This stall is fail-closed by design.",
    )
}

/// A block's reason: the version, each unmet thing on a line of its own,
/// and the commands that resolve them.
pub open spec fn block_text(g: GoalV, reasons: Seq<Seq<char>>) -> Seq<char> {
    "[witnos] The verification contract (v"@ + decimal(g.contract_version as nat)
        + ") is not met:\n- "@ + joined(reasons, "\n- "@)
        + "\nFetch the latest contract with `witnos contract show --goal "@ + g.id + " --since "@
        + decimal(g.agent_synced_version as nat)
        + "`; lay interpretations with `witnos item interpret <item-id> <text>`; attach evidence with `witnos evidence add <item-id>` (JSON on stdin: {conclusion, basis, provenance:[{kind:\"file\"|\"command\"|\"url\", …}]}); report oracle runs with `witnos oracle report <item-id> --passed|--failed`; then declare alignment with `witnos reconcile --to "@
        + decimal(g.contract_version as nat) + "`. All witnos commands accept `--goal "@ + g.id
        + "`."@
}

pub fn block_reason(goal: &Goal, reasons: &Vec<String>) -> (r: String)
    ensures
        r@ == block_text(goal@, views(reasons@)),
{
    let mut s = owned("[witnos] The verification contract (v");
    push_decimal(&mut s, goal.contract_version);
    s.append(") is not met:\n- ");
    let j = join_texts(reasons, "\n- ");
    s.append(j.as_str());
    s.append("\nFetch the latest contract with `witnos contract show --goal ");
    s.append(goal.id.as_str());
    s.append(" --since ");
    push_decimal(&mut s, goal.agent_synced_version);
    s.append(
        "`; lay interpretations with `witnos item interpret <item-id> <text>`; attach evidence with `witnos evidence add <item-id>` (JSON on stdin: {conclusion, basis, provenance:[{kind:\"file\"|\"command\"|\"url\", …}]}); report oracle runs with `witnos oracle report <item-id> --passed|--failed`; then declare alignment with `witnos reconcile --to ",
    );
    push_decimal(&mut s, goal.contract_version);
    s.append("`. All witnos commands accept `--goal ");
    s.append(goal.id.as_str());
    s.append("`.");
    assert(s@ =~= block_text(goal@, views(reasons@)));
    s
}

pub open spec fn class_text(c: ClassV) -> Seq<char> {
    match c {
        ClassV::Subjective => "subjective"@,
        ClassV::Objective { .. } => "objective"@,
    }
}

pub fn class_word(c: &Class) -> (r: &'static str)
    ensures
        r@ == class_text(c@),
{
    match c {
        Class::Subjective => "subjective",
        Class::Objective { .. } => "objective",
    }
}

pub open spec fn note_text(it: ItemV) -> Seq<char> {
    if it.status == ItemStatus::Waived {
        "  ← WAIVED by the human: nothing needed from you"@
    } else {
        ""@
    }
}

/// Why an item is in the delta when its claim alone would not say: only a
/// waived item, whose required action is to stop rather than address it.
pub fn delta_note(item: &Item) -> (r: &'static str)
    ensures
        r@ == note_text(item@),
{
    match item.status {
        ItemStatus::Waived => "  ← WAIVED by the human: nothing needed from you",
        _ => "",
    }
}

pub open spec fn changed_line(it: ItemV) -> Seq<char> {
    "- ["@ + class_text(it.class) + "] \""@ + it.claim + "\" — check: "@ + it.check + " (id: "@
        + it.id + ")"@ + note_text(it)
}

pub open spec fn removed_line(claim: Seq<char>) -> Seq<char> {
    "- REMOVED from the contract: \""@ + claim + "\" — nothing needed from you anymore"@
}

/// The delta since `since`, one line per changed item then one per removed
/// one; never the full list unless asked from v0.
pub open spec fn delta_text(g: GoalV, since: u64) -> Seq<char> {
    let lines = keep(g.items, edited_after(since)).map_values(|it: ItemV| changed_line(it))
        + deleted_claims(g.events, since).map_values(|c: Seq<char>| removed_line(c));
    if lines.len() == 0 {
        "(no items changed)"@
    } else {
        joined(lines, "\n"@)
    }
}

pub fn render_delta(goal: &Goal, since: u64) -> (r: String)
    ensures
        r@ == delta_text(goal@, since),
{
    let changed = goal.items_since(since);
    let mut lines: Vec<String> = Vec::new();
    let ghost cv = views(changed@);
    let mut k: usize = 0;
    while k < changed.len()
        invariant
            k <= changed@.len(),
            cv == views(changed@),
            views(lines@) == cv.take(k as int).map_values(|it: ItemV| changed_line(it)),
        decreases changed@.len() - k,
    {
        let it = changed[k];
        let mut l = owned("- [");
        l.append(class_word(&it.class));
        l.append("] \"");
        l.append(it.claim.as_str());
        l.append("\" — check: ");
        l.append(it.check.as_str());
        l.append(" (id: ");
        l.append(it.id.as_str());
        l.append(")");
        l.append(delta_note(it));
        let ghost l0 = lines@;
        let ghost lv = l;
        lines.push(l);
        proof {
            lemma_views_push(l0, lv);
            assert(cv[k as int] == it@);
            assert(lv@ =~= changed_line(it@));
            assert(cv.take(k + 1).map_values(|it: ItemV| changed_line(it)) =~= cv.take(
                k as int,
            ).map_values(|it: ItemV| changed_line(it)).push(changed_line(it@)));
        }
        k = k + 1;
    }
    assert(cv.take(k as int) =~= cv);
    let removed = goal.deletions_since(since);
    let ghost rv = views(removed@);
    let ghost head = views(lines@);
    let mut k: usize = 0;
    while k < removed.len()
        invariant
            k <= removed@.len(),
            rv == views(removed@),
            views(lines@) == head + rv.take(k as int).map_values(|c: Seq<char>| removed_line(c)),
        decreases removed@.len() - k,
    {
        let mut l = owned("- REMOVED from the contract: \"");
        l.append(removed[k]);
        l.append("\" — nothing needed from you anymore");
        let ghost l0 = lines@;
        let ghost lv = l;
        lines.push(l);
        proof {
            lemma_views_push(l0, lv);
            assert(rv[k as int] == removed@[k as int]@);
            assert(rv.take(k + 1).map_values(|c: Seq<char>| removed_line(c)) =~= rv.take(
                k as int,
            ).map_values(|c: Seq<char>| removed_line(c)).push(removed_line(rv[k as int])));
            assert(views(lines@) =~= head + rv.take(k + 1).map_values(
                |c: Seq<char>| removed_line(c),
            ));
        }
        k = k + 1;
    }
    assert(rv.take(k as int) =~= rv);
    if lines.len() == 0 {
        return owned("(no items changed)");
    }
    join_texts(&lines, "\n")
}

// ---------- the core's state ----------

/// What the core serves from: the goals, the auto-watch registry, and the
/// bearer token every request must carry.
pub struct AppState {
    pub store: Store,
    pub token: String,
    /// Auto-watch project registry — a human-only surface, never reached
    /// from the agent's side.
    pub registry: ProjectRegistry,
}

impl AppState {
    pub open spec fn wf(&self) -> bool {
        self.store.wf() && self.registry.wf()
    }
}

/// The marker `dir` should carry now, derived from the registry and all of
/// the directory's goals; `None` means no marker.
pub fn resync_dir(state: &AppState, dir: &str) -> (r: Option<ArmedMarker>)
    requires
        state.wf(),
    ensures
        match derived_marker(state.registry@.contains(dir@), keep(state.store@, in_dir(dir@))) {
            Some(m) => r matches Some(x) && x@ == m,
            None => r is None,
        },
{
    let auto = state.registry.contains(dir);
    let goals = state.store.goals_for_dir(dir);
    compute(auto, goals.as_slice())
}

/// For a goal that lives in a directory: the directory and the marker it
/// should carry now.
pub fn resync_goal_dir(state: &AppState, goal: &Goal) -> (r: Option<(String, Option<ArmedMarker>)>)
    requires
        state.wf(),
    ensures
        match goal@.project_dir {
            Some(dir) => r matches Some((d, m)) && d@ == dir && match derived_marker(
                state.registry@.contains(dir),
                keep(state.store@, in_dir(dir)),
            ) {
                Some(mv) => m matches Some(x) && x@ == mv,
                None => m is None,
            },
            None => r is None,
        },
{
    match &goal.project_dir {
        Some(dir) => Some((dir.clone(), resync_dir(state, dir.as_str()))),
        None => None,
    }
}

/// Register a directory for auto mode; answers whether it was new and the
/// marker it should carry now.
pub fn register_project(state: &mut AppState, dir: &str) -> (r: (bool, Option<ArmedMarker>))
    requires
        old(state).wf(),
    ensures
        final(state).wf(),
        r.0 == !old(state).registry@.contains(dir@),
        final(state).registry@.contains(dir@),
        final(state).store@ == old(state).store@,
        match derived_marker(true, keep(old(state).store@, in_dir(dir@))) {
            Some(m) => r.1 matches Some(x) && x@ == m,
            None => r.1 is None,
        },
{
    let added = state.registry.add(dir);
    let m = resync_dir(state, dir);
    (added, m)
}

/// Unregister a directory from auto mode and stop watching the goals its
/// sessions own there, so a restart cannot re-arm them; goals watched by
/// hand survive. Answers whether it was registered and the marker the
/// directory should carry now.
pub fn unregister_project(state: &mut AppState, dir: &str) -> (r: (bool, Option<ArmedMarker>))
    requires
        old(state).wf(),
    ensures
        final(state).wf(),
        r.0 == old(state).registry@.contains(dir@),
        !final(state).registry@.contains(dir@),
        forall|x: Seq<char>| x != dir@ ==> #[trigger] final(state).registry@.contains(x) == old(state).registry@.contains(x),
        final(state).store@ == Seq::new(
            old(state).store@.len(),
            |i: int|
                if crate::store::auto_watching_in(dir@, old(state).store@[i]) {
                    crate::store::watch_set(old(state).store@[i], None, false)
                } else {
                    old(state).store@[i]
                },
        ),
        match derived_marker(false, keep(final(state).store@, in_dir(dir@))) {
            Some(m) => r.1 matches Some(x) && x@ == m,
            None => r.1 is None,
        },
{
    let removed = state.registry.remove(dir);
    state.store.unwatch_auto_in(dir);
    let m = resync_dir(state, dir);
    (removed, m)
}

/// Every directory that carries a marker while the core runs: the
/// registered auto projects, and every directory with a watching goal.
/// Each once.
pub fn marker_dirs(state: &AppState) -> (r: Vec<String>)
    requires
        state.wf(),
    ensures
        forall|x: Seq<char>|
            #[trigger] views(r@).contains(x) == (state.registry@.contains(x) || exists|i: int|
                0 <= i < state.store@.len() && state.store@[i].watching && state.store@[i].project_dir
                    == Some(x)),
        forall|i: int, j: int| 0 <= i < j < r@.len() ==> r@[i]@ != r@[j]@,
{
    let mut dirs = state.registry.list();
    proof {
        assert forall|i: int, j: int| 0 <= i < j < dirs@.len() implies dirs@[i]@ != dirs@[j]@ by {
            assert(views(dirs@)[i] == dirs@[i]@);
            assert(views(dirs@)[j] == dirs@[j]@);
            crate::text::lemma_lex_irreflexive(dirs@[i]@);
        }
    }
    let ids = state.store.goal_ids();
    let ghost s = state.store@;
    assert(views(ids@).len() == ids@.len());
    proof {
        assert forall|x: Seq<char>| #[trigger] views(dirs@).contains(x) == (state.registry@.contains(x) || exists|i: int|
            0 <= i < 0 && s[i].watching && s[i].project_dir == Some(x)) by {}
    }
    let mut k: usize = 0;
    while k < ids.len()
        invariant
            k <= ids@.len(),
            s == state.store@,
            state.wf(),
            views(ids@) == s.map_values(|g: GoalV| g.id),
            ids@.len() == s.len(),
            forall|i: int, j: int| 0 <= i < j < dirs@.len() ==> dirs@[i]@ != dirs@[j]@,
            forall|x: Seq<char>|
                #[trigger] views(dirs@).contains(x) == (state.registry@.contains(x) || exists|i: int|
                    0 <= i < k && s[i].watching && s[i].project_dir == Some(x)),
        decreases ids@.len() - k,
    {
        proof {
            assert(views(ids@)[k as int] == ids@[k as int]@);
            crate::store::lemma_id_finds_goal(s, k as int);
        }
        match state.store.get_goal(ids[k].as_str()) {
            Some(goal) => {
                if goal.watching {
                    match goal.project_dir {
                        Some(dir) => {
                            let mut present = false;
                            let mut j: usize = 0;
                            while j < dirs.len()
                                invariant
                                    j <= dirs@.len(),
                                    present == exists|x: int| 0 <= x < j && dirs@[x]@ == dir@,
                                decreases dirs@.len() - j,
                            {
                                if crate::text::same(dirs[j].as_str(), dir.as_str()) {
                                    present = true;
                                }
                                j = j + 1;
                            }
                            let ghost d0 = dirs@;
                            if !present {
                                let ghost dv = dir;
                                dirs.push(dir);
                                proof {
                                    lemma_views_push(d0, dv);
                                }
                            }
                            proof {
                                assert forall|x: Seq<char>| #[trigger] views(dirs@).contains(x) == (
                                state.registry@.contains(x) || exists|i: int|
                                    0 <= i < k + 1 && s[i].watching && s[i].project_dir == Some(
                                        x,
                                    )) by {
                                    if views(d0).contains(x) {
                                        let y = choose|y: int| 0 <= y < views(d0).len() && views(d0)[y] == x;
                                        assert(views(dirs@)[y] == x);
                                    }
                                    if views(dirs@).contains(x) && !views(d0).contains(x) {
                                        let y = choose|y: int| 0 <= y < views(dirs@).len() && views(dirs@)[y] == x;
                                        if y < d0.len() {
                                            assert(views(d0)[y] == x);
                                        }
                                    }
                                    if x == s[k as int].project_dir->Some_0 && present {
                                        let y = choose|y: int| 0 <= y < j && dirs@[y]@ == dir@;
                                        assert(views(dirs@)[y] == x);
                                    }
                                    if x == s[k as int].project_dir->Some_0 && !present {
                                        assert(views(dirs@)[d0.len() as int] == x);
                                    }
                                }
                            }
                        },
                        None => {
                            proof {
                                assert forall|x: Seq<char>| #[trigger] views(dirs@).contains(x) == (
                                state.registry@.contains(x) || exists|i: int|
                                    0 <= i < k + 1 && s[i].watching && s[i].project_dir == Some(
                                        x,
                                    )) by {
                                    if exists|i: int| 0 <= i < k + 1 && s[i].watching && s[i].project_dir == Some(x) {
                                        let i = choose|i: int| 0 <= i < k + 1 && s[i].watching && s[i].project_dir == Some(x);
                                        assert(i < k);
                                    }
                                }
                            }
                        },
                    }
                } else {
                    proof {
                        assert forall|x: Seq<char>| #[trigger] views(dirs@).contains(x) == (
                        state.registry@.contains(x) || exists|i: int|
                            0 <= i < k + 1 && s[i].watching && s[i].project_dir == Some(x)) by {
                            if exists|i: int| 0 <= i < k + 1 && s[i].watching && s[i].project_dir == Some(x) {
                                let i = choose|i: int| 0 <= i < k + 1 && s[i].watching && s[i].project_dir == Some(x);
                                assert(i < k);
                            }
                        }
                    }
                }
            },
            None => {},
        }
        k = k + 1;
    }
    dirs
}

// ---------- stopping ----------

/// A stop, as the hook reports it. With no goal named, it resolves
/// the goal by project directory and session.
pub struct GateReq {
    pub goal_id: Option<String>,
    pub project_dir: Option<String>,
    pub session_id: Option<String>,
    pub stop_hook_active: Option<bool>,
}

/// The answer to a stop: release or block (with the reason the agent reads),
/// and a directory whose stale marker should be rewritten.
pub struct GateAnswer {
    pub release: bool,
    pub reason: Option<String>,
    pub heal: Option<String>,
}

/// Which goal a stop is judged against, or why none is.
pub ghost enum GateCase {
    Judge { i: int, heal: Option<Seq<char>> },
    Missing(Seq<char>),
    /// The human unwatched or closed this session's goal: their opt-out wins.
    OptedOut,
    /// An auto project whose session never got a goal: fail closed.
    NoGoal,
    Unaddressed,
}

pub open spec fn gate_case(
    s: Seq<GoalV>,
    goal_id: Option<Seq<char>>,
    dir: Option<Seq<char>>,
    session: Option<Seq<char>>,
) -> GateCase {
    match goal_id {
        Some(id) => match first_where(s, goal_has_id(id)) {
            Some(i) => GateCase::Judge { i, heal: None },
            None => GateCase::Missing(id),
        },
        None => if dir is Some && session is Some {
            match session_goal(s, dir->Some_0, session->Some_0) {
                Some(g) => if g.watching {
                    GateCase::Judge { i: first_where(s, goal_has_id(g.id))->Some_0, heal: dir }
                } else {
                    GateCase::OptedOut
                },
                None => GateCase::NoGoal,
            }
        } else {
            GateCase::Unaddressed
        },
    }
}

pub open spec fn msg_unaddressed() -> Seq<char> {
    "gate needs goal_id, or project_dir + session_id"@
}

/// How many gate answers at the end of the log were blocks in a row.
pub open spec fn trailing_blocks(events: Seq<EventV>) -> nat
    decreases events.len(),
{
    if events.len() > 0 && events.last().kind matches EventKindV::GateDecision {
        decision: GateDecisionKind::Block,
        ..
    } {
        1 + trailing_blocks(events.drop_last())
    } else {
        0
    }
}

pub open spec fn cap_note() -> Seq<char> {
    "\nNOTE: the harness caps consecutive stop-blocks and may end this turn soon. FIRST persist what is already done (`witnos evidence add`, `witnos reconcile`), so the next turn resumes instead of redoing."@
}

/// A block's reason; near the harness's cap on consecutive blocks it also
/// tells the agent to save its state first.
pub open spec fn block_answer(g: GoalV, stop_hook_active: bool) -> Seq<char> {
    block_text(g, gate_reasons(g)) + if stop_hook_active && trailing_blocks(g.events) >= 5 {
        cap_note()
    } else {
        Seq::empty()
    }
}

/// A session named in the stop is bound (learning nothing of a pane), then
/// the answer is logged.
pub open spec fn judged(
    g: GoalV,
    agent: Seq<char>,
    session: Option<Seq<char>>,
    decision: GateDecisionKind,
    reason: Option<Seq<char>>,
    at1: u64,
    at2: u64,
) -> GoalV {
    let g1 = match session {
        Some(sid) => bound(g, agent, sid, None, at1),
        None => g,
    };
    gate_recorded(g1, decision, reason, at2)
}

/// Goal `i` was judged, at some times.
pub open spec fn judge_step(
    before: Seq<GoalV>,
    after: Seq<GoalV>,
    i: int,
    agent: Seq<char>,
    session: Option<Seq<char>>,
    decision: GateDecisionKind,
    reason: Option<Seq<char>>,
) -> bool {
    exists|at1: u64, at2: u64|
        after == before.update(i, #[trigger] judged(before[i], agent, session, decision, reason, at1, at2))
}

fn trailing_block_count(goal: &Goal) -> (r: usize)
    ensures
        r == trailing_blocks(goal@.events),
{
    let ghost ev = goal@.events;
    let mut n: usize = 0;
    let total: usize = goal.events.len();
    let mut k: usize = total;
    assert(ev.take(k as int) =~= ev);
    while k > 0
        invariant
            k <= goal.events@.len(),
            ev == goal@.events,
            ev.len() == goal.events@.len(),
            trailing_blocks(ev) == n + trailing_blocks(ev.take(k as int)),
            n == ev.len() - k,
            total == ev.len(),
        decreases k,
    {
        proof {
            assert(ev.take(k as int).drop_last() =~= ev.take(k - 1));
            assert(ev.take(k as int).last() == ev[k - 1]);
        }
        let block = match &goal.events[k - 1].kind {
            EventKind::GateDecision { decision: GateDecisionKind::Block, .. } => true,
            _ => false,
        };
        if !block {
            return n;
        }
        n = n + 1;
        k = k - 1;
    }
    assert(ev.take(0) =~= Seq::<EventV>::empty());
    n
}

/// Judge one stop. A goal named by id is judged as it is; a stop resolved
/// by project and session is judged against the session's goal when it is
/// watched (its marker then needs healing), released unrecorded when the
/// human opted it out, and blocked when there is none. A session named in
/// the stop is bound to the goal under `agent`, learning nothing of a pane.
pub fn gate(state: &mut AppState, req: &GateReq, agent: &str) -> (r: Result<GateAnswer, StoreError>)
    requires
        old(state).wf(),
    ensures
        final(state).wf(),
        final(state).registry@ == old(state).registry@,
        final(state).token@ == old(state).token@,
        ({
            let s = old(state).store@;
            let f = final(state).store@;
            let session = opt_text(req.session_id);
            let active = req.stop_hook_active == Some(true);
            match gate_case(s, opt_text(req.goal_id), opt_text(req.project_dir), session) {
                GateCase::Missing(id) => refusal_of_gate(r) == Some(Refusal::GoalNotFound(id)) && f
                    == s,
                GateCase::Unaddressed => refusal_of_gate(r) == Some(Refusal::Invalid(msg_unaddressed()))
                    && f == s,
                GateCase::OptedOut => (r matches Ok(a) && a.release && a.reason is None
                    && a.heal is None) && f == s,
                GateCase::NoGoal => (r matches Ok(a) && !a.release && opt_text(a.reason) == Some(
                    no_goal_text(),
                ) && a.heal is None) && f == s,
                GateCase::Judge { i, heal } => r matches Ok(a) && a.release == releasable(s[i])
                    && opt_text(a.heal) == heal && (a.release ==> a.reason is None && judge_step(
                    s,
                    f,
                    i,
                    agent@,
                    session,
                    GateDecisionKind::Release,
                    None,
                )) && (!a.release ==> opt_text(a.reason) == Some(block_answer(s[i], active))
                    && judge_step(s, f, i, agent@, session, GateDecisionKind::Block, opt_text(a.reason))),
            }
        }),
{
    let ghost s = state.store@;
    let ghost mut i: int = 0;
    let mut heal: Option<String> = None;
    let goal = match &req.goal_id {
        Some(id) => match state.store.get_goal(id.as_str()) {
            Some(g) => {
                proof {
                    lemma_first_where_facts(s, goal_has_id(id@));
                    i = first_where(s, goal_has_id(id@))->Some_0;
                }
                g
            },
            None => {
                return Err(StoreError::GoalNotFound(id.clone()));
            },
        },
        None => {
            if req.project_dir.is_none() || req.session_id.is_none() {
                return Err(
                    StoreError::Invalid(owned("gate needs goal_id, or project_dir + session_id")),
                );
            }
            let dir = req.project_dir.as_ref().unwrap();
            let sid = req.session_id.as_ref().unwrap();
            match state.store.find_session_goal(dir.as_str(), sid.as_str()) {
                Some(g) => {
                    if !g.watching {
                        return Ok(GateAnswer { release: true, reason: None, heal: None });
                    }
                    proof {
                        let own = crate::store::owned_by(dir@, sid@);
                        let bnd = crate::store::bound_in(dir@, sid@);
                        lemma_first_where_facts(s, own);
                        lemma_first_where_facts(s, bnd);
                        i = if first_where(s, own) is Some {
                            first_where(s, own)->Some_0
                        } else {
                            first_where(s, bnd)->Some_0
                        };
                    }
                    heal = Some(dir.clone());
                    g
                },
                None => {
                    return Ok(GateAnswer { release: false, reason: Some(no_goal_reason()), heal: None });
                },
            }
        },
    };
    proof {
        crate::store::lemma_id_finds_goal(s, i);
        assert(goal@ == s[i]);
    }
    let ghost mut a1: Option<Refusal> = None;
    match &req.session_id {
        Some(sid) => {
            let b = state.store.bind_session(goal.id.as_str(), agent, sid.as_str(), None);
            proof {
                a1 = crate::contract::refusal_of(b);
            }
        },
        None => {},
    }
    let ghost s1 = state.store@;
    proof {
        if req.session_id is Some {
            let at1 = choose|at: u64|
                #[trigger] crate::store::stepped(
                    s,
                    s1,
                    i,
                    Ok(bound(s[i], agent@, req.session_id->Some_0@, None, at)),
                    a1,
                );
            assert(s1[i].id == s[i].id);
        }
        crate::store::lemma_id_finds_goal(s1, i);
    }
    let outcome = evaluate(&goal);
    if outcome.release {
        let d = state.store.record_gate_decision(goal.id.as_str(), GateDecisionKind::Release, None);
        proof {
            lemma_judged(
                s,
                s1,
                state.store@,
                i,
                agent@,
                opt_text(req.session_id),
                GateDecisionKind::Release,
                None,
                a1,
                crate::contract::refusal_of(d),
            );
        }
        Ok(GateAnswer { release: true, reason: None, heal })
    } else {
        let mut reason = block_reason(&goal, &outcome.reasons);
        if req.stop_hook_active == Some(true) && trailing_block_count(&goal) >= 5 {
            reason.append(
                "\nNOTE: the harness caps consecutive stop-blocks and may end this turn soon. FIRST persist what is already done (`witnos evidence add`, `witnos reconcile`), so the next turn resumes instead of redoing.",
            );
        }
        assert(reason@ =~= block_answer(s[i], req.stop_hook_active == Some(true)));
        let ghost rv = reason@;
        let d = state.store.record_gate_decision(
            goal.id.as_str(),
            GateDecisionKind::Block,
            Some(reason.clone()),
        );
        proof {
            lemma_judged(
                s,
                s1,
                state.store@,
                i,
                agent@,
                opt_text(req.session_id),
                GateDecisionKind::Block,
                Some(rv),
                a1,
                crate::contract::refusal_of(d),
            );
        }
        Ok(GateAnswer { release: false, reason: Some(reason), heal })
    }
}

proof fn lemma_judged(
    s: Seq<GoalV>,
    s1: Seq<GoalV>,
    s2: Seq<GoalV>,
    i: int,
    agent: Seq<char>,
    session: Option<Seq<char>>,
    decision: GateDecisionKind,
    reason: Option<Seq<char>>,
    a1: Option<Refusal>,
    a2: Option<Refusal>,
)
    requires
        0 <= i < s.len(),
        session is Some ==> crate::store::bind_step(s, s1, i, agent, session->Some_0, None, a1),
        session is None ==> s1 == s,
        crate::store::gate_step(s1, s2, i, decision, reason, a2),
    ensures
        judge_step(s, s2, i, agent, session, decision, reason),
{
    let at2 = choose|at: u64|
        #[trigger] crate::store::stepped(s1, s2, i, Ok(gate_recorded(s1[i], decision, reason, at)), a2);
    if session is Some {
        let at1 = choose|at: u64|
            #[trigger] crate::store::stepped(
                s,
                s1,
                i,
                Ok(bound(s[i], agent, session->Some_0, None, at)),
                a1,
            );
        assert(s2 =~= s.update(i, judged(s[i], agent, session, decision, reason, at1, at2)));
    } else {
        assert(s2 =~= s.update(i, judged(s[i], agent, session, decision, reason, 0, at2)));
    }
}

pub open spec fn refusal_of_gate(r: Result<GateAnswer, StoreError>) -> Option<Refusal> {
    match r {
        Ok(_) => None,
        Err(e) => Some(e@),
    }
}

// ---------- requests that move a marker ----------

/// The agent name a binding gets when the request names none.
pub fn default_agent() -> (r: String)
    ensures
        r@ == "unknown"@,
{
    owned("unknown")
}

pub struct CreateGoalReq {
    pub title: String,
}

pub struct AutoGoalReq {
    pub title: String,
    pub project_dir: String,
    pub session_id: String,
    pub agent: String,
    /// The terminal pane this session's shell runs in, when known.
    pub pane: Option<u32>,
}

pub struct WatchReq {
    pub project_dir: String,
}

pub struct BindReq {
    pub session_id: String,
    pub agent: String,
    pub pane: Option<u32>,
}

pub struct LayReq {
    pub actor: crate::types::Actor,
    pub items: Vec<crate::contract::NewItem>,
}

pub struct EditReq {
    pub actor: crate::types::Actor,
    pub edit: crate::contract::ItemEdit,
}

pub struct InterpretReq {
    pub item_id: String,
    pub text: String,
}

pub struct EvidenceReq {
    pub item_id: String,
    pub evidence: crate::contract::NewEvidence,
}

pub struct OracleReq {
    pub item_id: String,
    pub passed: bool,
}

pub struct ReconcileReq {
    pub session_id: Option<String>,
    pub to_version: u64,
    pub reinterpreted_items: Vec<String>,
}

pub struct DrillDownReq {
    pub evidence_id: String,
    pub pointer: crate::types::Pointer,
}

/// A copy of the goal, or the refusal that it does not exist.
pub fn goal_or_404(state: &AppState, id: &str) -> (r: Result<Goal, StoreError>)
    ensures
        match first_where(state.store@, goal_has_id(id@)) {
            Some(i) => r matches Ok(g) && g@ == state.store@[i],
            None => refusal_of(r) == Some(Refusal::GoalNotFound(id@)),
        },
{
    match state.store.get_goal(id) {
        Some(g) => Ok(g),
        None => Err(StoreError::GoalNotFound(owned(id))),
    }
}

/// The marker a goal's directory should carry, looked up after a change.
pub open spec fn marker_of_goal(state_registry: Seq<Seq<char>>, s: Seq<GoalV>, g: GoalV) -> Option<(Seq<char>, Option<crate::marker::ArmedMarkerV>)> {
    match g.project_dir {
        Some(dir) => Some((dir, derived_marker(state_registry.contains(dir), keep(s, in_dir(dir))))),
        None => None,
    }
}

pub open spec fn resynced(
    r: Option<(String, Option<ArmedMarker>)>,
) -> Option<(Seq<char>, Option<crate::marker::ArmedMarkerV>)> {
    match r {
        Some((d, m)) => Some((d@, match m {
            Some(x) => Some(x@),
            None => None,
        })),
        None => None,
    }
}

pub fn resync_after(state: &AppState, id: &str) -> (r: Option<(String, Option<ArmedMarker>)>)
    requires
        state.wf(),
    ensures
        match first_where(state.store@, goal_has_id(id@)) {
            Some(i) => resynced(r) == marker_of_goal(state.registry@, state.store@, state.store@[i]),
            None => r is None,
        },
{
    match state.store.get_goal(id) {
        Some(goal) => resync_goal_dir(state, &goal),
        None => None,
    }
}

/// Get or create the goal one session owns in a project, and the marker
/// its directory should carry now. Answers the goal and whether it is new.
pub fn create_auto_goal(state: &mut AppState, req: AutoGoalReq) -> (r: Result<
    (Goal, bool, Option<ArmedMarker>),
    StoreError,
>)
    requires
        old(state).wf(),
    ensures
        final(state).wf(),
        final(state).registry@ == old(state).registry@,
        r matches Ok((g, created, m)) && (exists|id: Seq<char>, at: u64|
            #[trigger] crate::store::auto_goal_outcome(
                old(state).store@,
                req.title@,
                req.project_dir@,
                req.session_id@,
                req.agent@,
                req.pane,
                id,
                at,
            ) == (final(state).store@, g@, created)) && (created ==> crate::types::id_shaped(g@.id)) && match derived_marker(
            final(state).registry@.contains(req.project_dir@),
            keep(final(state).store@, in_dir(req.project_dir@)),
        ) {
            Some(mv) => m matches Some(x) && x@ == mv,
            None => m is None,
        },
{
    let (goal, created) = state.store.create_auto_goal(
        req.title.as_str(),
        req.project_dir.as_str(),
        req.session_id.as_str(),
        req.agent.as_str(),
        req.pane,
    )?;
    let m = resync_dir(state, req.project_dir.as_str());
    Ok((goal, created, m))
}

/// Watch a goal in a project directory, or stop watching it; answers the
/// goal as it now is and the marker its directory should carry.
pub fn watch(state: &mut AppState, id: &str, project_dir: Option<String>, watching: bool) -> (r:
    Result<(Goal, Option<(String, Option<ArmedMarker>)>), StoreError>)
    requires
        old(state).wf(),
    ensures
        final(state).wf(),
        final(state).registry@ == old(state).registry@,
        match first_where(old(state).store@, goal_has_id(id@)) {
            None => crate::store::no_goal(old(state).store@, final(state).store@, id@, refusal_of(r)),
            Some(i) => final(state).store@ == old(state).store@.update(
                i,
                crate::store::watch_set(old(state).store@[i], opt_text(project_dir), watching),
            ) && (r matches Ok((g, m)) && g@ == final(state).store@[i] && resynced(m)
                == marker_of_goal(final(state).registry@, final(state).store@, g@)),
        },
{
    let goal = state.store.set_watch(id, project_dir, watching)?;
    let m = resync_goal_dir(state, &goal);
    Ok((goal, m))
}

/// Lay items on a goal; answers their ids, the version the goal is now at,
/// and the marker its directory should carry.
pub fn lay_items(state: &mut AppState, id: &str, req: LayReq) -> (r: Result<
    (Vec<String>, u64, Option<(String, Option<ArmedMarker>)>),
    StoreError,
>)
    requires
        old(state).wf(),
    ensures
        final(state).wf(),
        final(state).registry@ == old(state).registry@,
        match first_where(old(state).store@, goal_has_id(id@)) {
            None => crate::store::no_goal(old(state).store@, final(state).store@, id@, refusal_of(r)),
            Some(i) => crate::store::lay_step(
                old(state).store@,
                final(state).store@,
                i,
                req.items@,
                req.actor,
                refusal_of(r),
                match r {
                    Ok((v, _, _)) => Some(views(v@)),
                    Err(_) => None,
                },
            ) && (r matches Ok((_, version, m)) ==> version == final(state).store@[i].contract_version
                && resynced(m) == marker_of_goal(
                final(state).registry@,
                final(state).store@,
                final(state).store@[i],
            )),
        },
{
    let ghost s0 = state.store@;
    let ids = match state.store.lay_items(id, req.items, req.actor) {
        Ok(ids) => ids,
        Err(e) => {
            return Err(e);
        },
    };
    proof {
        let i = first_where(s0, goal_has_id(id@))->Some_0;
        lemma_first_where_facts(s0, goal_has_id(id@));
        let (idsv, at) = choose|idsv: Seq<Seq<char>>, at: u64|
            #[trigger] crate::store::stepped(
                s0,
                state.store@,
                i,
                crate::contract::laid(s0[i], req.items@, req.actor, idsv, at),
                None,
            ) && idsv.len() == req.items@.len() && (Some(views(ids@)) matches Some(o) ==> o == idsv);
        crate::contract::lemma_with_new_items(s0[i], req.items@, req.actor, idsv, at);
        crate::store::lemma_id_finds_goal(state.store@, i);
    }
    let version = match state.store.get_goal(id) {
        Some(g) => g.contract_version,
        None => 0,
    };
    let m = resync_after(state, id);
    Ok((ids, version, m))
}

/// Move one item's yardstick; answers the version the goal is now at and
/// the marker its directory should carry.
pub fn edit_item(state: &mut AppState, id: &str, item_id: &str, req: EditReq) -> (r: Result<
    (u64, Option<(String, Option<ArmedMarker>)>),
    StoreError,
>)
    requires
        old(state).wf(),
    ensures
        final(state).wf(),
        final(state).registry@ == old(state).registry@,
        match first_where(old(state).store@, goal_has_id(id@)) {
            None => crate::store::no_goal(old(state).store@, final(state).store@, id@, refusal_of(r)),
            Some(i) => crate::store::edit_step(
                old(state).store@,
                final(state).store@,
                i,
                item_id@,
                req.edit,
                req.actor,
                false,
                refusal_of(r),
            ) && (r matches Ok((version, m)) ==> version == final(state).store@[i].contract_version
                && resynced(m) == marker_of_goal(
                final(state).registry@,
                final(state).store@,
                final(state).store@[i],
            )),
        },
{
    let ghost s0 = state.store@;
    match state.store.edit_item(id, item_id, req.edit, req.actor, false) {
        Ok(()) => {},
        Err(e) => {
            return Err(e);
        },
    }
    proof {
        lemma_first_where_facts(s0, goal_has_id(id@));
        let i = first_where(s0, goal_has_id(id@))->Some_0;
        let at = choose|at: u64|
            #[trigger] crate::store::stepped(
                s0,
                state.store@,
                i,
                crate::contract::edited(s0[i], item_id@, req.edit, req.actor, false, at),
                None,
            );
        crate::store::lemma_id_finds_goal(state.store@, i);
    }
    let version = match state.store.get_goal(id) {
        Some(g) => g.contract_version,
        None => 0,
    };
    let m = resync_after(state, id);
    Ok((version, m))
}

/// The session a reconcile is recorded under when the request names none.
pub fn reconcile_session(req: &ReconcileReq) -> (r: String)
    ensures
        r@ == match req.session_id {
            Some(s) => s@,
            None => "agent-cli"@,
        },
{
    match &req.session_id {
        Some(s) => s.clone(),
        None => owned("agent-cli"),
    }
}

/// Declare alignment; answers the marker the goal's directory should carry
/// now, keeping the delivery baseline current.
pub fn reconcile(state: &mut AppState, id: &str, req: ReconcileReq) -> (r: Result<
    Option<(String, Option<ArmedMarker>)>,
    StoreError,
>)
    requires
        old(state).wf(),
    ensures
        final(state).wf(),
        final(state).registry@ == old(state).registry@,
        match first_where(old(state).store@, goal_has_id(id@)) {
            None => crate::store::no_goal(old(state).store@, final(state).store@, id@, refusal_of(r)),
            Some(i) => crate::store::reconcile_step(
                old(state).store@,
                final(state).store@,
                i,
                match req.session_id {
                    Some(s) => s@,
                    None => "agent-cli"@,
                },
                req.to_version,
                views(req.reinterpreted_items@),
                refusal_of(r),
            ) && (r matches Ok(m) ==> resynced(m) == marker_of_goal(
                final(state).registry@,
                final(state).store@,
                final(state).store@[i],
            )),
        },
{
    let ghost s0 = state.store@;
    let session = reconcile_session(&req);
    let ghost re = views(req.reinterpreted_items@);
    match state.store.reconcile(id, session.as_str(), req.to_version, req.reinterpreted_items) {
        Ok(()) => {},
        Err(e) => {
            return Err(e);
        },
    }
    proof {
        lemma_first_where_facts(s0, goal_has_id(id@));
        let i = first_where(s0, goal_has_id(id@))->Some_0;
        let at = choose|at: u64|
            #[trigger] crate::store::stepped(
                s0,
                state.store@,
                i,
                crate::contract::reconciled(s0[i], session@, req.to_version, re, at),
                None,
            );
        crate::store::lemma_id_finds_goal(state.store@, i);
    }
    Ok(resync_after(state, id))
}

/// The service answers only a request whose `Authorization` header is
/// exactly `Bearer ` followed by the service's token; a missing header, any
/// other scheme or any other token is refused.
pub fn bearer_ok(header: Option<&str>, token: &str) -> (r: bool)
    ensures
        r == (header matches Some(h) && h@ == "Bearer "@ + token@),
{
    match header {
        Some(h) => {
            let mut expected = owned("Bearer ");
            expected.append(token);
            same(h, expected.as_str())
        },
        None => false,
    }
}

proof fn lemma_keep_skips<T>(s: Seq<T>, p: spec_fn(T) -> bool, k: int)
    requires
        0 <= k < s.len(),
        !p(s[k]),
    ensures
        keep(s.remove(k), p) == keep(s, p),
    decreases s.len(),
{
    let d = s.drop_last();
    if k == s.len() - 1 {
        assert(s.remove(k) =~= d);
    } else {
        lemma_keep_skips(d, p, k);
        let r = s.remove(k);
        assert(r.drop_last() =~= d.remove(k));
        assert(r.last() == s.last());
    }
}

proof fn lemma_keep_has<T>(s: Seq<T>, p: spec_fn(T) -> bool, k: int)
    requires
        0 <= k < s.len(),
        p(s[k]),
    ensures
        keep(s, p).contains(s[k]),
    decreases s.len(),
{
    let d = s.drop_last();
    if k == s.len() - 1 {
        assert(keep(s, p).last() == s[k]);
    } else {
        lemma_keep_has(d, p, k);
        assert(d[k] == s[k]);
        let j = choose|j: int| 0 <= j < keep(d, p).len() && keep(d, p)[j] == s[k];
        if p(s.last()) {
            assert(keep(s, p)[j] == s[k]);
        }
    }
}

proof fn lemma_joined_mentions(ws: Seq<Seq<char>>, sep: Seq<char>, j: int)
    requires
        0 <= j < ws.len(),
    ensures
        mentions(joined(ws, sep), ws[j]),
    decreases ws.len(),
{
    let m = joined(ws, sep);
    if ws.len() == 1 {
        assert(m =~= Seq::<char>::empty() + ws[j] + Seq::<char>::empty());
    } else {
        let d = ws.drop_last();
        if j == ws.len() - 1 {
            assert(m =~= (joined(d, sep) + sep) + ws[j] + Seq::<char>::empty());
        } else {
            lemma_joined_mentions(d, sep, j);
            assert(d[j] == ws[j]);
            let (a, b) = choose|a: Seq<char>, b: Seq<char>| joined(d, sep) == a + d[j] + b;
            assert(m =~= a + ws[j] + (b + sep + ws.last()));
        }
    }
}

/// The delta since `since` is what the agent has not seen. An item last
/// edited at or before `since` plays no part in it: without that item the
/// delta reads the same. An item edited after `since` has its line in it.
pub proof fn the_delta_is_what_the_agent_has_not_seen(g: GoalV, since: u64, k: int)
    requires
        0 <= k < g.items.len(),
    ensures
        g.items[k].last_edited_version <= since ==> delta_text(
            GoalV { items: g.items.remove(k), ..g },
            since,
        ) == delta_text(g, since),
        g.items[k].last_edited_version > since ==> mentions(delta_text(g, since), changed_line(g.items[k])),
{
    if g.items[k].last_edited_version <= since {
        lemma_keep_skips(g.items, edited_after(since), k);
    } else {
        lemma_keep_has(g.items, edited_after(since), k);
        let kept = keep(g.items, edited_after(since));
        let j = choose|j: int| 0 <= j < kept.len() && kept[j] == g.items[k];
        let lines = kept.map_values(|it: ItemV| changed_line(it))
            + deleted_claims(g.events, since).map_values(|c: Seq<char>| removed_line(c));
        assert(lines[j] == changed_line(g.items[k]));
        lemma_joined_mentions(lines, "\n"@, j);
    }
}

/// When no item was edited and none removed after `since`, the delta says
/// that nothing changed.
pub proof fn nothing_unseen_means_no_delta(g: GoalV, since: u64)
    requires
        forall|k: int| 0 <= k < g.items.len() ==> (#[trigger] g.items[k]).last_edited_version <= since,
        deleted_claims(g.events, since).len() == 0,
    ensures
        delta_text(g, since) == "(no items changed)"@,
{
    lemma_keep_none(g.items, edited_after(since));
}

proof fn lemma_keep_none<T>(s: Seq<T>, p: spec_fn(T) -> bool)
    requires
        forall|k: int| 0 <= k < s.len() ==> !p(#[trigger] s[k]),
    ensures
        keep(s, p).len() == 0,
    decreases s.len(),
{
    if s.len() > 0 {
        let d = s.drop_last();
        assert forall|k: int| 0 <= k < d.len() implies !p(#[trigger] d[k]) by {
            assert(d[k] == s[k]);
        }
        lemma_keep_none(d, p);
        assert(!p(s[s.len() - 1]));
    }
}

} // verus!
