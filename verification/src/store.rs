//! The goals, held in memory, keyed by goal id.
//!
//! Every write goes through one goal's transition in `contract`: the goal is
//! found by id, the transition runs on a draft, and the draft replaces the
//! goal only when the transition succeeded. A refused write leaves the store
//! exactly as it was. Persisting the goals is the caller's business.

use vstd::prelude::*;
use crate::types::DuplicateView;

use crate::contract::{
    bound, deleted, drilled_down, lemma_with_new_items, edited, gate_recorded, interpreted, laid, oracle_reported,
    reconciled, refusal_of, turn_ended, with_evidence, ItemEdit, NewEvidence, NewItem, Refusal,
    StoreError,
};
use crate::seqs::{
    count_where, first_where, keep, lemma_first_where_facts, lemma_first_where_found, lemma_first_where_none,
    lemma_keep_push,
};
use crate::text::owned;
use crate::types::{
    id_shaped, lemma_views_empty, lemma_views_push, lemma_views_update, new_id, now, opt_text, views, Actor, GateDecisionKind, Goal, GoalId, GoalStatus, GoalV, ItemId, Pointer, PointerV,
    SessionBinding, SessionBindingV,
};

verus! {

pub open spec fn goal_has_id(id: Seq<char>) -> spec_fn(GoalV) -> bool {
    |g: GoalV| g.id == id
}

/// No two goals share an id.
pub open spec fn ids_distinct(s: Seq<GoalV>) -> bool {
    forall|i: int, j: int| 0 <= i < j < s.len() ==> s[i].id != s[j].id
}

/// Storing `g` under its id: it replaces the goal that had the id, if any.
pub open spec fn inserted(s: Seq<GoalV>, g: GoalV) -> Seq<GoalV> {
    match first_where(s, goal_has_id(g.id)) {
        Some(i) => s.update(i, g),
        None => s.push(g),
    }
}

/// A goal as `create_goal` makes it.
pub open spec fn fresh_goal(id: Seq<char>, title: Seq<char>, at: u64) -> GoalV {
    GoalV {
        id,
        title,
        status: GoalStatus::Running,
        contract_version: 0,
        agent_synced_version: 0,
        last_human_edit_version: 0,
        sessions: seq![],
        items: seq![],
        evidence: seq![],
        events: seq![],
        created_at: at,
        project_dir: None,
        watching: false,
        auto_session: None,
    }
}

/// A goal as auto mode makes it for one agent session in one project.
pub open spec fn fresh_auto_goal(
    id: Seq<char>,
    title: Seq<char>,
    dir: Seq<char>,
    session: Seq<char>,
    agent: Seq<char>,
    pane: Option<u32>,
    at: u64,
) -> GoalV {
    GoalV {
        sessions: seq![SessionBindingV { agent, session_id: session, bound_at: at, pane }],
        project_dir: Some(dir),
        watching: true,
        auto_session: Some(session),
        ..fresh_goal(id, title, at)
    }
}

/// The goal owned by `session` in `dir`.
pub open spec fn owned_by(dir: Seq<char>, session: Seq<char>) -> spec_fn(GoalV) -> bool {
    |g: GoalV| g.auto_session == Some(session) && g.project_dir == Some(dir)
}

pub open spec fn in_dir(dir: Seq<char>) -> spec_fn(GoalV) -> bool {
    |g: GoalV| g.project_dir == Some(dir)
}

pub open spec fn has_binding(sessions: Seq<SessionBindingV>, session: Seq<char>) -> bool {
    exists|j: int| 0 <= j < sessions.len() && #[trigger] sessions[j].session_id == session
}

/// A goal in `dir` that `session` was bound to.
pub open spec fn bound_in(dir: Seq<char>, session: Seq<char>) -> spec_fn(GoalV) -> bool {
    |g: GoalV| g.project_dir == Some(dir) && has_binding(g.sessions, session)
}

/// The goal a session gates against in a project: the one it owns, else the
/// first one it was bound to.
pub open spec fn session_goal(s: Seq<GoalV>, dir: Seq<char>, session: Seq<char>) -> Option<GoalV> {
    match first_where(s, owned_by(dir, session)) {
        Some(i) => Some(s[i]),
        None => match first_where(s, bound_in(dir, session)) {
            Some(i) => Some(s[i]),
            None => None,
        },
    }
}

/// What `create_auto_goal` leaves and answers: the store, the goal, and
/// whether the goal is new.
pub open spec fn auto_goal_outcome(
    s: Seq<GoalV>,
    title: Seq<char>,
    dir: Seq<char>,
    session: Seq<char>,
    agent: Seq<char>,
    pane: Option<u32>,
    id: Seq<char>,
    at: u64,
) -> (Seq<GoalV>, GoalV, bool) {
    match first_where(s, owned_by(dir, session)) {
        Some(i) => (s, s[i], false),
        None => {
            let g = fresh_auto_goal(id, title, dir, session, agent, pane, at);
            (inserted(s, g), g, true)
        },
    }
}

/// A watch change: a directory given replaces the goal's directory.
pub open spec fn watch_set(g: GoalV, dir: Option<Seq<char>>, watching: bool) -> GoalV {
    GoalV {
        project_dir: match dir {
            Some(d) => Some(d),
            None => g.project_dir,
        },
        watching,
        ..g
    }
}

/// A goal in `dir`, watched, and owned by a session.
pub open spec fn auto_watching_in(dir: Seq<char>, g: GoalV) -> bool {
    g.project_dir == Some(dir) && g.watching && g.auto_session is Some
}

pub open spec fn status_set(g: GoalV, status: GoalStatus) -> GoalV {
    GoalV { status, ..g }
}

/// The store after goal `i` took transition `t`, and the refusal answered.
pub open spec fn stepped(
    before: Seq<GoalV>,
    after: Seq<GoalV>,
    i: int,
    t: Result<GoalV, Refusal>,
    answer: Option<Refusal>,
) -> bool {
    match t {
        Ok(g) => answer is None && after == before.update(i, g),
        Err(e) => answer == Some(e) && after == before,
    }
}

/// Goal `i` was bound, at some time.
pub open spec fn bind_step(
    before: Seq<GoalV>,
    after: Seq<GoalV>,
    i: int,
    agent: Seq<char>,
    session: Seq<char>,
    pane: Option<u32>,
    answer: Option<Refusal>,
) -> bool {
    exists|at: u64|
        #[trigger] stepped(before, after, i, Ok(bound(before[i], agent, session, pane, at)), answer)
}

/// The ids a lay answered, if it succeeded.
pub open spec fn ids_answered(r: Result<Vec<ItemId>, StoreError>) -> Option<Seq<Seq<char>>> {
    match r {
        Ok(v) => Some(views(v@)),
        Err(_) => None,
    }
}

/// Items were laid on goal `i` under some fresh ids, at some time; the ids
/// answered are those.
pub open spec fn lay_step(
    before: Seq<GoalV>,
    after: Seq<GoalV>,
    i: int,
    items: Seq<NewItem>,
    actor: Actor,
    answer: Option<Refusal>,
    out: Option<Seq<Seq<char>>>,
) -> bool {
    exists|ids: Seq<Seq<char>>, at: u64|
        #[trigger] stepped(before, after, i, laid(before[i], items, actor, ids, at), answer)
            && ids.len() == items.len() && (out matches Some(o) ==> o == ids) && forall|k: int|
            0 <= k < ids.len() ==> id_shaped(#[trigger] ids[k])
}

/// An item of goal `i` was edited, at some time.
pub open spec fn edit_step(
    before: Seq<GoalV>,
    after: Seq<GoalV>,
    i: int,
    item_id: Seq<char>,
    edit: ItemEdit,
    actor: Actor,
    after_drill_down: bool,
    answer: Option<Refusal>,
) -> bool {
    exists|at: u64|
        #[trigger] stepped(
            before,
            after,
            i,
            edited(before[i], item_id, edit, actor, after_drill_down, at),
            answer,
        )
}

/// An item of goal `i` was deleted, at some time.
pub open spec fn delete_step(
    before: Seq<GoalV>,
    after: Seq<GoalV>,
    i: int,
    item_id: Seq<char>,
    answer: Option<Refusal>,
) -> bool {
    exists|at: u64| #[trigger] stepped(before, after, i, deleted(before[i], item_id, at), answer)
}

/// An item of goal `i` was interpreted, at some time.
pub open spec fn interpret_step(
    before: Seq<GoalV>,
    after: Seq<GoalV>,
    i: int,
    item_id: Seq<char>,
    text: Seq<char>,
    answer: Option<Refusal>,
) -> bool {
    exists|at: u64|
        #[trigger] stepped(before, after, i, interpreted(before[i], item_id, text, at), answer)
}

/// The evidence id answered, if the write succeeded.
pub open spec fn id_answered(r: Result<String, StoreError>) -> Option<Seq<char>> {
    match r {
        Ok(e) => Some(e@),
        Err(_) => None,
    }
}

/// Evidence went onto an item of goal `i` under some fresh id, at some
/// time; the id answered is that one.
pub open spec fn evidence_step(
    before: Seq<GoalV>,
    after: Seq<GoalV>,
    i: int,
    item_id: Seq<char>,
    new: NewEvidence,
    answer: Option<Refusal>,
    out: Option<Seq<char>>,
) -> bool {
    exists|eid: Seq<char>, at: u64|
        #[trigger] stepped(before, after, i, with_evidence(before[i], item_id, new, eid, at), answer)
            && (out matches Some(o) ==> o == eid) && id_shaped(eid)
}

/// A drill-down was logged on goal `i`, at some time.
pub open spec fn drill_step(
    before: Seq<GoalV>,
    after: Seq<GoalV>,
    i: int,
    evidence_id: Seq<char>,
    pointer: PointerV,
    answer: Option<Refusal>,
) -> bool {
    exists|at: u64|
        #[trigger] stepped(before, after, i, Ok(drilled_down(before[i], evidence_id, pointer, at)), answer)
}

/// Goal `i` was reconciled, at some time.
pub open spec fn reconcile_step(
    before: Seq<GoalV>,
    after: Seq<GoalV>,
    i: int,
    session: Seq<char>,
    to: u64,
    reinterpreted: Seq<Seq<char>>,
    answer: Option<Refusal>,
) -> bool {
    exists|at: u64|
        #[trigger] stepped(before, after, i, reconciled(before[i], session, to, reinterpreted, at), answer)
}

/// A gate answer was recorded on goal `i`, at some time.
pub open spec fn gate_step(
    before: Seq<GoalV>,
    after: Seq<GoalV>,
    i: int,
    decision: GateDecisionKind,
    reason: Option<Seq<char>>,
    answer: Option<Refusal>,
) -> bool {
    exists|at: u64|
        #[trigger] stepped(before, after, i, Ok(gate_recorded(before[i], decision, reason, at)), answer)
}

/// A turn end was accounted on goal `i`, at some time.
pub open spec fn end_turn_step(
    before: Seq<GoalV>,
    after: Seq<GoalV>,
    i: int,
    answer: Option<Refusal>,
) -> bool {
    exists|at: u64| #[trigger] stepped(before, after, i, Ok(turn_ended(before[i], at)), answer)
}

/// A binding recorded in a pane that is no longer there.
pub open spec fn pane_gone(b: SessionBindingV, surviving: Seq<u32>) -> bool {
    b.pane matches Some(p) && !surviving.contains(p)
}

/// A running goal whose agent ran in one of our panes that is gone. A
/// binding without a pane came from a shell we did not spawn: it proves
/// nothing either way.
pub open spec fn lost_pane(g: GoalV, surviving: Seq<u32>) -> bool {
    g.status == GoalStatus::Running && exists|j: int|
        0 <= j < g.sessions.len() && #[trigger] pane_gone(g.sessions[j], surviving)
}

/// Every goal that lost its pane has its turn accounted at `at`.
pub open spec fn swept(s: Seq<GoalV>, surviving: Seq<u32>, at: u64) -> Seq<GoalV> {
    Seq::new(
        s.len(),
        |i: int|
            if lost_pane(s[i], surviving) {
                turn_ended(s[i], at)
            } else {
                s[i]
            },
    )
}

/// The sweep ran, at some time.
pub open spec fn sweep_step(before: Seq<GoalV>, after: Seq<GoalV>, surviving: Seq<u32>) -> bool {
    exists|at: u64| #[trigger] swept(before, surviving, at) == after
}

/// No goal has this id: the write is refused and nothing moves.
pub open spec fn no_goal(
    before: Seq<GoalV>,
    after: Seq<GoalV>,
    id: Seq<char>,
    answer: Option<Refusal>,
) -> bool {
    answer == Some(Refusal::GoalNotFound(id)) && after == before
}

pub proof fn lemma_distinct_update(s: Seq<GoalV>, i: int, g: GoalV)
    requires
        ids_distinct(s),
        0 <= i < s.len(),
        g.id == s[i].id,
    ensures
        ids_distinct(s.update(i, g)),
{
    let t = s.update(i, g);
    assert forall|a: int, b: int| 0 <= a < b < t.len() implies t[a].id != t[b].id by {
        assert(t[a].id == s[a].id);
        assert(t[b].id == s[b].id);
    }
}

pub proof fn lemma_distinct_inserted(s: Seq<GoalV>, g: GoalV)
    requires
        ids_distinct(s),
    ensures
        ids_distinct(inserted(s, g)),
        first_where(s, goal_has_id(g.id)) is None ==> inserted(s, g).len() == s.len() + 1,
        first_where(s, goal_has_id(g.id)) is Some ==> inserted(s, g).len() == s.len(),
{
    lemma_first_where_facts(s, goal_has_id(g.id));
    match first_where(s, goal_has_id(g.id)) {
        Some(i) => {
            lemma_distinct_update(s, i, g);
        },
        None => {
            let t = s.push(g);
            assert forall|a: int, b: int| 0 <= a < b < t.len() implies t[a].id != t[b].id by {
                if b == s.len() {
                    assert(!goal_has_id(g.id)(s[a]));
                } else {
                    assert(t[a] == s[a] && t[b] == s[b]);
                }
            }
        },
    }
}

/// With ids distinct, a goal's id finds that goal.
pub proof fn lemma_id_finds_goal(s: Seq<GoalV>, i: int)
    requires
        ids_distinct(s),
        0 <= i < s.len(),
    ensures
        first_where(s, goal_has_id(s[i].id)) == Some(i),
{
    assert forall|j: int| 0 <= j < i implies !(#[trigger] goal_has_id(s[i].id)(s[j])) by {}
    lemma_first_where_found(s, goal_has_id(s[i].id), i);
}

pub proof fn lemma_distinct_remove(s: Seq<GoalV>, i: int)
    requires
        ids_distinct(s),
        0 <= i < s.len(),
    ensures
        ids_distinct(s.remove(i)),
{
    let t = s.remove(i);
    assert forall|a: int, b: int| 0 <= a < b < t.len() implies t[a].id != t[b].id by {
        let a2 = if a < i {
            a
        } else {
            a + 1
        };
        let b2 = if b < i {
            b
        } else {
            b + 1
        };
        assert(t[a] == s[a2]);
        assert(t[b] == s[b2]);
    }
}

impl Goal {
    /// A new goal as `create_goal` makes it, under a given id and time.
    pub fn new(id: String, title: &str, at: u64) -> (g: Goal)
        ensures
            g@ == fresh_goal(id@, title@, at),
    {
        let g = Goal {
            id,
            title: owned(title),
            status: GoalStatus::Running,
            contract_version: 0,
            agent_synced_version: 0,
            last_human_edit_version: 0,
            sessions: Vec::new(),
            items: Vec::new(),
            evidence: Vec::new(),
            events: Vec::new(),
            created_at: at,
            project_dir: None,
            watching: false,
            auto_session: None,
        };
        proof {
            lemma_views_empty(g.sessions@);
            lemma_views_empty(g.items@);
            lemma_views_empty(g.evidence@);
            lemma_views_empty(g.events@);
        }
        g
    }

    /// A new goal owned by one agent session in one project, watched from
    /// the start, with that session bound.
    pub fn new_auto(
        id: String,
        title: &str,
        project_dir: &str,
        session_id: &str,
        agent: &str,
        pane: Option<u32>,
        at: u64,
    ) -> (g: Goal)
        ensures
            g@ == fresh_auto_goal(id@, title@, project_dir@, session_id@, agent@, pane, at),
    {
        let mut g = Goal::new(id, title, at);
        let b = SessionBinding { agent: owned(agent), session_id: owned(session_id), bound_at: at, pane };
        let ghost b0 = b;
        let ghost s0 = g.sessions@;
        g.sessions.push(b);
        proof {
            lemma_views_push(s0, b0);
        }
        g.project_dir = Some(owned(project_dir));
        g.watching = true;
        g.auto_session = Some(owned(session_id));
        proof {
            assert(views(g.sessions@) =~= seq![b0@]);
        }
        g
    }
}

pub struct Store {
    goals: Vec<Goal>,
}

impl View for Store {
    type V = Seq<GoalV>;

    closed spec fn view(&self) -> Seq<GoalV> {
        views(self.goals@)
    }
}

impl Store {
    /// Goals are distinct by id.
    pub open spec fn wf(&self) -> bool {
        ids_distinct(self@)
    }

    /// An empty store.
    pub fn new() -> (r: Store)
        ensures
            r@ == Seq::<GoalV>::empty(),
            r.wf(),
    {
        let r = Store { goals: Vec::new() };
        proof {
            lemma_views_empty(r.goals@);
        }
        r
    }

    /// The index of the goal with this id.
    fn find(&self, id: &str) -> (r: Option<usize>)
        ensures
            match r {
                Some(k) => k < self@.len() && first_where(self@, goal_has_id(id@)) == Some(
                    k as int,
                ),
                None => first_where(self@, goal_has_id(id@)) is None,
            },
    {
        let mut k: usize = 0;
        while k < self.goals.len()
            invariant
                k <= self.goals@.len(),
                self@.len() == self.goals@.len(),
                forall|j: int| 0 <= j < k ==> !(#[trigger] goal_has_id(id@)(self@[j])),
            decreases self.goals@.len() - k,
        {
            if crate::text::same(self.goals[k].id.as_str(), id) {
                proof {
                    lemma_first_where_found(self@, goal_has_id(id@), k as int);
                }
                return Some(k);
            }
            k = k + 1;
        }
        proof {
            lemma_first_where_none(self@, goal_has_id(id@));
        }
        None
    }

    /// Replace goal `i` by `g`, which keeps its id.
    fn put(&mut self, i: usize, g: Goal)
        requires
            old(self).wf(),
            i < old(self)@.len(),
            g@.id == old(self)@[i as int].id,
        ensures
            final(self)@ == old(self)@.update(i as int, g@),
            final(self).wf(),
    {
        let ghost s0 = self.goals@;
        let ghost g0 = g;
        self.goals.set(i, g);
        proof {
            lemma_views_update(s0, i as int, g0);
            lemma_distinct_update(views(s0), i as int, g0@);
        }
    }

    /// Store `goal` under its id, replacing the goal that had it.
    pub fn insert_goal(&mut self, goal: Goal)
        requires
            old(self).wf(),
        ensures
            final(self)@ == inserted(old(self)@, goal@),
            final(self).wf(),
    {
        proof {
            lemma_distinct_inserted(self@, goal@);
            lemma_first_where_facts(self@, goal_has_id(goal@.id));
        }
        match self.find(goal.id.as_str()) {
            Some(i) => {
                self.put(i, goal);
            },
            None => {
                let ghost s0 = self.goals@;
                let ghost g0 = goal;
                self.goals.push(goal);
                proof {
                    lemma_views_push(s0, g0);
                }
            },
        }
    }

    /// The ids of all goals, in store order.
    /// Every goal, in the store's order.
    pub fn all_goals(&self) -> (r: Vec<Goal>)
        ensures
            views(r@) == self@,
    {
        let mut out: Vec<Goal> = Vec::new();
        let mut k: usize = 0;
        while k < self.goals.len()
            invariant
                k <= self.goals@.len(),
                self@ == views(self.goals@),
                views(out@) == self@.take(k as int),
            decreases self.goals@.len() - k,
        {
            let ghost o0 = out@;
            let g = self.goals[k].duplicate();
            let ghost g0 = g;
            out.push(g);
            proof {
                lemma_views_push(o0, g0);
                assert(self@.take(k + 1) =~= self@.take(k as int).push(self@[k as int]));
            }
            k = k + 1;
        }
        assert(self@.take(k as int) =~= self@);
        out
    }

    pub fn goal_ids(&self) -> (r: Vec<GoalId>)
        ensures
            views(r@) == self@.map_values(|g: GoalV| g.id),
    {
        let mut out: Vec<GoalId> = Vec::new();
        let mut k: usize = 0;
        while k < self.goals.len()
            invariant
                k <= self.goals@.len(),
                self@.len() == self.goals@.len(),
                views(out@) == self@.take(k as int).map_values(|g: GoalV| g.id),
            decreases self.goals@.len() - k,
        {
            let ghost o0 = out@;
            let id = self.goals[k].id.clone();
            let ghost i0 = id;
            out.push(id);
            proof {
                lemma_views_push(o0, i0);
                assert(self@.take(k + 1).map_values(|g: GoalV| g.id) =~= self@.take(
                    k as int,
                ).map_values(|g: GoalV| g.id).push(self@[k as int].id));
            }
            k = k + 1;
        }
        assert(self@.take(k as int) =~= self@);
        out
    }

    /// A copy of the goal with this id.
    pub fn get_goal(&self, id: &str) -> (r: Option<Goal>)
        ensures
            match first_where(self@, goal_has_id(id@)) {
                Some(i) => r matches Some(g) && g@ == self@[i],
                None => r is None,
            },
    {
        match self.find(id) {
            Some(i) => Some(self.goals[i].duplicate()),
            None => None,
        }
    }

    /// Create a goal titled `title` under a fresh id.
    pub fn create_goal(&mut self, title: &str) -> (r: Result<Goal, StoreError>)
        requires
            old(self).wf(),
        ensures
            final(self).wf(),
            r matches Ok(g) && (exists|at: u64| #[trigger] fresh_goal(g@.id, title@, at) == g@)
                && final(self)@ == inserted(old(self)@, g@) && id_shaped(g@.id),
    {
        let g = Goal::new(new_id(), title, now());
        self.insert_goal(g.duplicate());
        assert(fresh_goal(g@.id, title@, g.created_at) == g@);
        Ok(g)
    }

    /// Get or create the goal that `session_id` owns in `project_dir`.
    /// Answers the goal and whether it was created. An existing goal comes
    /// back as it is, closed or unwatched alike.
    pub fn create_auto_goal(
        &mut self,
        title: &str,
        project_dir: &str,
        session_id: &str,
        agent: &str,
        pane: Option<u32>,
    ) -> (r: Result<(Goal, bool), StoreError>)
        requires
            old(self).wf(),
        ensures
            final(self).wf(),
            r matches Ok((g, created)) && exists|id: Seq<char>, at: u64|
                #[trigger] auto_goal_outcome(
                    old(self)@,
                    title@,
                    project_dir@,
                    session_id@,
                    agent@,
                    pane,
                    id,
                    at,
                ) == (final(self)@, g@, created),
            r matches Ok((g, created)) && (created ==> id_shaped(g@.id)),
    {
        let mut k: usize = 0;
        while k < self.goals.len()
            invariant
                k <= self.goals@.len(),
                self@.len() == self.goals@.len(),
                self.wf(),
                forall|j: int|
                    0 <= j < k ==> !(#[trigger] owned_by(project_dir@, session_id@)(self@[j])),
            decreases self.goals@.len() - k,
        {
            let g = &self.goals[k];
            let owns = match (&g.auto_session, &g.project_dir) {
                (Some(s), Some(d)) => crate::text::same(s.as_str(), session_id)
                    && crate::text::same(d.as_str(), project_dir),
                _ => false,
            };
            assert(owns == owned_by(project_dir@, session_id@)(self@[k as int]));
            if owns {
                proof {
                    lemma_first_where_found(self@, owned_by(project_dir@, session_id@), k as int);
                }
                let found = self.goals[k].duplicate();
                assert(auto_goal_outcome(
                    self@,
                    title@,
                    project_dir@,
                    session_id@,
                    agent@,
                    pane,
                    found@.id,
                    0,
                ) == (self@, found@, false));
                return Ok((found, false));
            }
            k = k + 1;
        }
        proof {
            lemma_first_where_none(self@, owned_by(project_dir@, session_id@));
        }
        let ghost before = self@;
        let g = Goal::new_auto(new_id(), title, project_dir, session_id, agent, pane, now());
        self.insert_goal(g.duplicate());
        assert(auto_goal_outcome(
            before,
            title@,
            project_dir@,
            session_id@,
            agent@,
            pane,
            g@.id,
            g.created_at,
        ) == (self@, g@, true));
        Ok((g, true))
    }

    /// Copies of the goals watching-or-not in `dir`, in store order.
    pub fn goals_for_dir(&self, dir: &str) -> (r: Vec<Goal>)
        ensures
            views(r@) == keep(self@, in_dir(dir@)),
    {
        let mut out: Vec<Goal> = Vec::new();
        let mut k: usize = 0;
        while k < self.goals.len()
            invariant
                k <= self.goals@.len(),
                self@.len() == self.goals@.len(),
                views(out@) == keep(self@.take(k as int), in_dir(dir@)),
            decreases self.goals@.len() - k,
        {
            proof {
                lemma_keep_push(self@.take(k as int), in_dir(dir@), self@[k as int]);
                assert(self@.take(k as int).push(self@[k as int]) =~= self@.take(k + 1));
            }
            let here = match &self.goals[k].project_dir {
                Some(d) => crate::text::same(d.as_str(), dir),
                None => false,
            };
            if here {
                let ghost o0 = out@;
                let c = self.goals[k].duplicate();
                let ghost c0 = c;
                out.push(c);
                proof {
                    lemma_views_push(o0, c0);
                }
            }
            k = k + 1;
        }
        assert(self@.take(k as int) =~= self@);
        out
    }

    fn bound_here(g: &Goal, dir: &str, session_id: &str) -> (r: bool)
        ensures
            r == bound_in(dir@, session_id@)(g@),
    {
        let here = match &g.project_dir {
            Some(d) => crate::text::same(d.as_str(), dir),
            None => false,
        };
        if !here {
            return false;
        }
        let mut j: usize = 0;
        while j < g.sessions.len()
            invariant
                j <= g.sessions@.len(),
                g@.sessions.len() == g.sessions@.len(),
                g@.project_dir == Some(dir@),
                forall|x: int| 0 <= x < j ==> #[trigger] g@.sessions[x].session_id != session_id@,
            decreases g.sessions@.len() - j,
        {
            if crate::text::same(g.sessions[j].session_id.as_str(), session_id) {
                assert(g@.sessions[j as int].session_id == session_id@);
                return true;
            }
            j = j + 1;
        }
        false
    }

    /// The goal one session gates against in a project: the one it owns,
    /// else one it was bound to. Unwatched goals count.
    pub fn find_session_goal(&self, dir: &str, session_id: &str) -> (r: Option<Goal>)
        ensures
            match session_goal(self@, dir@, session_id@) {
                Some(g) => r matches Some(x) && x@ == g,
                None => r is None,
            },
    {
        let mut k: usize = 0;
        while k < self.goals.len()
            invariant
                k <= self.goals@.len(),
                self@.len() == self.goals@.len(),
                forall|j: int| 0 <= j < k ==> !(#[trigger] owned_by(dir@, session_id@)(self@[j])),
            decreases self.goals@.len() - k,
        {
            let g = &self.goals[k];
            let owns = match (&g.auto_session, &g.project_dir) {
                (Some(s), Some(d)) => crate::text::same(s.as_str(), session_id) && crate::text::same(
                    d.as_str(),
                    dir,
                ),
                _ => false,
            };
            assert(owns == owned_by(dir@, session_id@)(self@[k as int]));
            if owns {
                proof {
                    lemma_first_where_found(self@, owned_by(dir@, session_id@), k as int);
                }
                return Some(self.goals[k].duplicate());
            }
            k = k + 1;
        }
        proof {
            lemma_first_where_none(self@, owned_by(dir@, session_id@));
        }
        let mut k: usize = 0;
        while k < self.goals.len()
            invariant
                k <= self.goals@.len(),
                self@.len() == self.goals@.len(),
                first_where(self@, owned_by(dir@, session_id@)) is None,
                forall|j: int| 0 <= j < k ==> !(#[trigger] bound_in(dir@, session_id@)(self@[j])),
            decreases self.goals@.len() - k,
        {
            if Self::bound_here(&self.goals[k], dir, session_id) {
                proof {
                    lemma_first_where_found(self@, bound_in(dir@, session_id@), k as int);
                }
                return Some(self.goals[k].duplicate());
            }
            k = k + 1;
        }
        proof {
            lemma_first_where_none(self@, bound_in(dir@, session_id@));
        }
        None
    }

    /// Bind a session to a goal. An existing binding only learns a pane.
    pub fn bind_session(
        &mut self,
        goal_id: &str,
        agent: &str,
        session_id: &str,
        pane: Option<u32>,
    ) -> (r: Result<(), StoreError>)
        requires
            old(self).wf(),
        ensures
            final(self).wf(),
            match first_where(old(self)@, goal_has_id(goal_id@)) {
                None => no_goal(old(self)@, final(self)@, goal_id@, refusal_of(r)),
                Some(i) => bind_step(
                    old(self)@,
                    final(self)@,
                    i,
                    agent@,
                    session_id@,
                    pane,
                    refusal_of(r),
                ),
            },
    {
        let i = match self.find(goal_id) {
            None => {
                return Err(StoreError::GoalNotFound(owned(goal_id)));
            },
            Some(i) => i,
        };
        let ghost before = self@;
        let at = now();
        let mut g = self.goals[i].duplicate();
        g.apply_bind(agent, session_id, pane, at);
        self.put(i, g);
        let r: Result<(), StoreError> = Ok(());
        assert(stepped(
            before,
            self@,
            i as int,
            Ok(bound(before[i as int], agent@, session_id@, pane, at)),
            refusal_of(r),
        ));
        assert(bind_step(before, self@, i as int, agent@, session_id@, pane, refusal_of(r)));
        r
    }

    /// Lay `items` on a goal, each under a fresh id; answers the ids.
    pub fn lay_items(&mut self, goal_id: &str, items: Vec<NewItem>, actor: Actor) -> (r: Result<
        Vec<ItemId>,
        StoreError,
    >)
        requires
            old(self).wf(),
        ensures
            final(self).wf(),
            match first_where(old(self)@, goal_has_id(goal_id@)) {
                None => no_goal(old(self)@, final(self)@, goal_id@, refusal_of(r)),
                Some(i) => lay_step(
                    old(self)@,
                    final(self)@,
                    i,
                    items@,
                    actor,
                    refusal_of(r),
                    ids_answered(r),
                ),
            },
    {
        let i = match self.find(goal_id) {
            None => {
                return Err(StoreError::GoalNotFound(owned(goal_id)));
            },
            Some(i) => i,
        };
        let ghost before = self@;
        let mut ids: Vec<ItemId> = Vec::new();
        let mut k: usize = 0;
        while k < items.len()
            invariant
                k <= items@.len(),
                ids@.len() == k,
                forall|j: int| 0 <= j < k ==> id_shaped(#[trigger] ids@[j]@),
            decreases items@.len() - k,
        {
            ids.push(new_id());
            k = k + 1;
        }
        let at = now();
        let mut g = self.goals[i].duplicate();
        match g.apply_lay(&items, actor, &ids, at) {
            Ok(()) => {
                proof {
                    lemma_with_new_items(before[i as int], items@, actor, views(ids@), at);
                }
                self.put(i, g);
                let r: Result<Vec<ItemId>, StoreError> = Ok(ids);
                assert(stepped(
                    before,
                    self@,
                    i as int,
                    laid(before[i as int], items@, actor, views(ids@), at),
                    refusal_of(r),
                ));
                assert(lay_step(before, self@, i as int, items@, actor, refusal_of(r), ids_answered(r)));
                r
            },
            Err(e) => {
                let r: Result<Vec<ItemId>, StoreError> = Err(e);
                assert(stepped(
                    before,
                    self@,
                    i as int,
                    laid(before[i as int], items@, actor, views(ids@), at),
                    refusal_of(r),
                ));
                assert(lay_step(before, self@, i as int, items@, actor, refusal_of(r), ids_answered(r)));
                r
            },
        }
    }

    /// Move one item's yardstick (see `edited`).
    pub fn edit_item(
        &mut self,
        goal_id: &str,
        item_id: &str,
        edit: ItemEdit,
        actor: Actor,
        after_drill_down: bool,
    ) -> (r: Result<(), StoreError>)
        requires
            old(self).wf(),
        ensures
            final(self).wf(),
            match first_where(old(self)@, goal_has_id(goal_id@)) {
                None => no_goal(old(self)@, final(self)@, goal_id@, refusal_of(r)),
                Some(i) => edit_step(
                    old(self)@,
                    final(self)@,
                    i,
                    item_id@,
                    edit,
                    actor,
                    after_drill_down,
                    refusal_of(r),
                ),
            },
    {
        let i = match self.find(goal_id) {
            None => {
                return Err(StoreError::GoalNotFound(owned(goal_id)));
            },
            Some(i) => i,
        };
        let ghost before = self@;
        let ghost e0 = edit;
        let at = now();
        let mut g = self.goals[i].duplicate();
        let r = g.apply_edit(item_id, edit, actor, after_drill_down, at);
        if r.is_ok() {
            self.put(i, g);
        }
        assert(stepped(
            before,
            self@,
            i as int,
            edited(before[i as int], item_id@, e0, actor, after_drill_down, at),
            refusal_of(r),
        ));
        assert(edit_step(before, self@, i as int, item_id@, e0, actor, after_drill_down, refusal_of(r)));
        r
    }

    /// The human takes an item out of a goal's contract, evidence and all.
    pub fn delete_item(&mut self, goal_id: &str, item_id: &str) -> (r: Result<(), StoreError>)
        requires
            old(self).wf(),
        ensures
            final(self).wf(),
            match first_where(old(self)@, goal_has_id(goal_id@)) {
                None => no_goal(old(self)@, final(self)@, goal_id@, refusal_of(r)),
                Some(i) => delete_step(old(self)@, final(self)@, i, item_id@, refusal_of(r)),
            },
    {
        let i = match self.find(goal_id) {
            None => {
                return Err(StoreError::GoalNotFound(owned(goal_id)));
            },
            Some(i) => i,
        };
        let ghost before = self@;
        let at = now();
        let mut g = self.goals[i].duplicate();
        let r = g.apply_delete(item_id, at);
        if r.is_ok() {
            self.put(i, g);
        }
        assert(stepped(before, self@, i as int, deleted(before[i as int], item_id@, at), refusal_of(r)));
        assert(delete_step(before, self@, i as int, item_id@, refusal_of(r)));
        r
    }

    /// The agent records how it reads an item.
    pub fn set_interpretation(&mut self, goal_id: &str, item_id: &str, text: &str) -> (r: Result<
        (),
        StoreError,
    >)
        requires
            old(self).wf(),
        ensures
            final(self).wf(),
            match first_where(old(self)@, goal_has_id(goal_id@)) {
                None => no_goal(old(self)@, final(self)@, goal_id@, refusal_of(r)),
                Some(i) => interpret_step(old(self)@, final(self)@, i, item_id@, text@, refusal_of(r)),
            },
    {
        let i = match self.find(goal_id) {
            None => {
                return Err(StoreError::GoalNotFound(owned(goal_id)));
            },
            Some(i) => i,
        };
        let ghost before = self@;
        let at = now();
        let mut g = self.goals[i].duplicate();
        let r = g.apply_interpretation(item_id, text, at);
        if r.is_ok() {
            self.put(i, g);
        }
        assert(stepped(
            before,
            self@,
            i as int,
            interpreted(before[i as int], item_id@, text@, at),
            refusal_of(r),
        ));
        assert(interpret_step(before, self@, i as int, item_id@, text@, refusal_of(r)));
        r
    }

    /// Attach evidence to an item under a fresh id; answers the id.
    pub fn add_evidence(&mut self, goal_id: &str, item_id: &str, new: NewEvidence) -> (r: Result<
        String,
        StoreError,
    >)
        requires
            old(self).wf(),
        ensures
            final(self).wf(),
            match first_where(old(self)@, goal_has_id(goal_id@)) {
                None => no_goal(old(self)@, final(self)@, goal_id@, refusal_of(r)),
                Some(i) => evidence_step(
                    old(self)@,
                    final(self)@,
                    i,
                    item_id@,
                    new,
                    refusal_of(r),
                    id_answered(r),
                ),
            },
    {
        let i = match self.find(goal_id) {
            None => {
                return Err(StoreError::GoalNotFound(owned(goal_id)));
            },
            Some(i) => i,
        };
        let ghost before = self@;
        let ghost n0 = new;
        let eid = new_id();
        let at = now();
        let mut g = self.goals[i].duplicate();
        let r0 = g.apply_evidence(item_id, new, eid.clone(), at);
        let r = match r0 {
            Ok(()) => {
                self.put(i, g);
                Ok(eid)
            },
            Err(e) => Err(e),
        };
        assert(stepped(
            before,
            self@,
            i as int,
            with_evidence(before[i as int], item_id@, n0, eid@, at),
            refusal_of(r),
        ));
        assert(evidence_step(before, self@, i as int, item_id@, n0, refusal_of(r), id_answered(r)));
        r
    }

    /// The agent reports an oracle run on an objective item.
    pub fn report_oracle(&mut self, goal_id: &str, item_id: &str, passed: bool) -> (r: Result<
        (),
        StoreError,
    >)
        requires
            old(self).wf(),
        ensures
            final(self).wf(),
            match first_where(old(self)@, goal_has_id(goal_id@)) {
                None => no_goal(old(self)@, final(self)@, goal_id@, refusal_of(r)),
                Some(i) => stepped(
                    old(self)@,
                    final(self)@,
                    i,
                    oracle_reported(old(self)@[i], item_id@, passed),
                    refusal_of(r),
                ),
            },
    {
        let i = match self.find(goal_id) {
            None => {
                return Err(StoreError::GoalNotFound(owned(goal_id)));
            },
            Some(i) => i,
        };
        let mut g = self.goals[i].duplicate();
        let r = g.apply_oracle(item_id, passed);
        if r.is_ok() {
            self.put(i, g);
        }
        r
    }

    /// The human opened the original behind an evidence pointer.
    pub fn record_drill_down(&mut self, goal_id: &str, evidence_id: &str, pointer: Pointer) -> (r:
        Result<(), StoreError>)
        requires
            old(self).wf(),
        ensures
            final(self).wf(),
            match first_where(old(self)@, goal_has_id(goal_id@)) {
                None => no_goal(old(self)@, final(self)@, goal_id@, refusal_of(r)),
                Some(i) => drill_step(
                    old(self)@,
                    final(self)@,
                    i,
                    evidence_id@,
                    pointer@,
                    refusal_of(r),
                ),
            },
    {
        let i = match self.find(goal_id) {
            None => {
                return Err(StoreError::GoalNotFound(owned(goal_id)));
            },
            Some(i) => i,
        };
        let ghost before = self@;
        let ghost p0 = pointer;
        let at = now();
        let mut g = self.goals[i].duplicate();
        g.apply_drill_down(evidence_id, pointer, at);
        self.put(i, g);
        let r: Result<(), StoreError> = Ok(());
        assert(stepped(
            before,
            self@,
            i as int,
            Ok(drilled_down(before[i as int], evidence_id@, p0@, at)),
            refusal_of(r),
        ));
        assert(drill_step(before, self@, i as int, evidence_id@, p0@, refusal_of(r)));
        r
    }

    /// The agent declares it has read and aligned to `to_version`.
    pub fn reconcile(
        &mut self,
        goal_id: &str,
        session_id: &str,
        to_version: u64,
        reinterpreted_items: Vec<ItemId>,
    ) -> (r: Result<(), StoreError>)
        requires
            old(self).wf(),
        ensures
            final(self).wf(),
            match first_where(old(self)@, goal_has_id(goal_id@)) {
                None => no_goal(old(self)@, final(self)@, goal_id@, refusal_of(r)),
                Some(i) => reconcile_step(
                    old(self)@,
                    final(self)@,
                    i,
                    session_id@,
                    to_version,
                    views(reinterpreted_items@),
                    refusal_of(r),
                ),
            },
    {
        let i = match self.find(goal_id) {
            None => {
                return Err(StoreError::GoalNotFound(owned(goal_id)));
            },
            Some(i) => i,
        };
        let ghost before = self@;
        let ghost re = views(reinterpreted_items@);
        let at = now();
        let mut g = self.goals[i].duplicate();
        let r = g.apply_reconcile(session_id, to_version, reinterpreted_items, at);
        if r.is_ok() {
            self.put(i, g);
        }
        assert(stepped(
            before,
            self@,
            i as int,
            reconciled(before[i as int], session_id@, to_version, re, at),
            refusal_of(r),
        ));
        assert(reconcile_step(before, self@, i as int, session_id@, to_version, re, refusal_of(r)));
        r
    }

    /// Record one gate answer on a goal (see `gate_recorded`).
    pub fn record_gate_decision(
        &mut self,
        goal_id: &str,
        decision: GateDecisionKind,
        reason: Option<String>,
    ) -> (r: Result<(), StoreError>)
        requires
            old(self).wf(),
        ensures
            final(self).wf(),
            match first_where(old(self)@, goal_has_id(goal_id@)) {
                None => no_goal(old(self)@, final(self)@, goal_id@, refusal_of(r)),
                Some(i) => gate_step(
                    old(self)@,
                    final(self)@,
                    i,
                    decision,
                    opt_text(reason),
                    refusal_of(r),
                ),
            },
    {
        let i = match self.find(goal_id) {
            None => {
                return Err(StoreError::GoalNotFound(owned(goal_id)));
            },
            Some(i) => i,
        };
        let ghost before = self@;
        let ghost why = opt_text(reason);
        let at = now();
        let mut g = self.goals[i].duplicate();
        g.apply_gate_decision(decision, reason, at);
        self.put(i, g);
        let r: Result<(), StoreError> = Ok(());
        assert(stepped(
            before,
            self@,
            i as int,
            Ok(gate_recorded(before[i as int], decision, why, at)),
            refusal_of(r),
        ));
        assert(gate_step(before, self@, i as int, decision, why, refusal_of(r)));
        r
    }

    /// Watch or unwatch a goal; a directory given replaces the goal's.
    /// Answers the goal as it now is.
    pub fn set_watch(&mut self, goal_id: &str, project_dir: Option<String>, watching: bool) -> (r:
        Result<Goal, StoreError>)
        requires
            old(self).wf(),
        ensures
            final(self).wf(),
            match first_where(old(self)@, goal_has_id(goal_id@)) {
                None => no_goal(old(self)@, final(self)@, goal_id@, refusal_of(r)),
                Some(i) => stepped(
                    old(self)@,
                    final(self)@,
                    i,
                    Ok(watch_set(old(self)@[i], opt_text(project_dir), watching)),
                    refusal_of(r),
                ) && (r matches Ok(g) && g@ == final(self)@[i]),
            },
    {
        let i = match self.find(goal_id) {
            None => {
                return Err(StoreError::GoalNotFound(owned(goal_id)));
            },
            Some(i) => i,
        };
        let mut g = self.goals[i].duplicate();
        match project_dir {
            Some(d) => {
                g.project_dir = Some(d);
            },
            None => {},
        }
        g.watching = watching;
        let out = g.duplicate();
        self.put(i, g);
        Ok(out)
    }

    /// Set a goal's status as it is given.
    pub fn set_status(&mut self, goal_id: &str, status: GoalStatus) -> (r: Result<(), StoreError>)
        requires
            old(self).wf(),
        ensures
            final(self).wf(),
            match first_where(old(self)@, goal_has_id(goal_id@)) {
                None => no_goal(old(self)@, final(self)@, goal_id@, refusal_of(r)),
                Some(i) => stepped(
                    old(self)@,
                    final(self)@,
                    i,
                    Ok(status_set(old(self)@[i], status)),
                    refusal_of(r),
                ),
            },
    {
        let i = match self.find(goal_id) {
            None => {
                return Err(StoreError::GoalNotFound(owned(goal_id)));
            },
            Some(i) => i,
        };
        let mut g = self.goals[i].duplicate();
        g.status = status;
        self.put(i, g);
        Ok(())
    }

    /// A session ended while the goal was still running: account the turn.
    /// Answers whether anything changed.
    pub fn end_turn(&mut self, goal_id: &str) -> (r: Result<bool, StoreError>)
        requires
            old(self).wf(),
        ensures
            final(self).wf(),
            match first_where(old(self)@, goal_has_id(goal_id@)) {
                None => no_goal(old(self)@, final(self)@, goal_id@, refusal_of(r)),
                Some(i) => end_turn_step(old(self)@, final(self)@, i, refusal_of(r)) && (r matches Ok(b) && b == (old(self)@[i].status == GoalStatus::Running)),
            },
    {
        let i = match self.find(goal_id) {
            None => {
                return Err(StoreError::GoalNotFound(owned(goal_id)));
            },
            Some(i) => i,
        };
        let ghost before = self@;
        let at = now();
        let mut g = self.goals[i].duplicate();
        let changed = g.apply_end_turn(at);
        self.put(i, g);
        let r: Result<bool, StoreError> = Ok(changed);
        assert(stepped(before, self@, i as int, Ok(turn_ended(before[i as int], at)), refusal_of(r)));
        assert(end_turn_step(before, self@, i as int, refusal_of(r)));
        r
    }

    /// Remove a goal; answers it as it was.
    pub fn delete_goal(&mut self, goal_id: &str) -> (r: Result<Goal, StoreError>)
        requires
            old(self).wf(),
        ensures
            final(self).wf(),
            match first_where(old(self)@, goal_has_id(goal_id@)) {
                None => no_goal(old(self)@, final(self)@, goal_id@, refusal_of(r)),
                Some(i) => r matches Ok(g) && g@ == old(self)@[i] && final(self)@ == old(self)@.remove(
                    i,
                ),
            },
    {
        let i = match self.find(goal_id) {
            None => {
                return Err(StoreError::GoalNotFound(owned(goal_id)));
            },
            Some(i) => i,
        };
        let ghost s0 = self.goals@;
        let g = self.goals.remove(i);
        proof {
            assert(views(self.goals@) =~= views(s0).remove(i as int));
            lemma_distinct_remove(views(s0), i as int);
        }
        Ok(g)
    }

    fn pane_survives(surviving: &[u32], p: u32) -> (r: bool)
        ensures
            r == surviving@.contains(p),
    {
        let mut k: usize = 0;
        while k < surviving.len()
            invariant
                k <= surviving@.len(),
                forall|j: int| 0 <= j < k ==> surviving@[j] != p,
            decreases surviving@.len() - k,
        {
            if surviving[k] == p {
                assert(surviving@[k as int] == p);
                return true;
            }
            k = k + 1;
        }
        false
    }

    fn has_lost_pane(g: &Goal, surviving: &[u32]) -> (r: bool)
        ensures
            r == lost_pane(g@, surviving@),
    {
        if g.status != GoalStatus::Running {
            return false;
        }
        let mut j: usize = 0;
        while j < g.sessions.len()
            invariant
                j <= g.sessions@.len(),
                g@.sessions.len() == g.sessions@.len(),
                g@.status == GoalStatus::Running,
                forall|x: int| 0 <= x < j ==> !#[trigger] pane_gone(g@.sessions[x], surviving@),
            decreases g.sessions@.len() - j,
        {
            match g.sessions[j].pane {
                Some(p) => {
                    if !Self::pane_survives(surviving, p) {
                        assert(pane_gone(g@.sessions[j as int], surviving@));
                        return true;
                    }
                },
                None => {},
            }
            j = j + 1;
        }
        false
    }

    /// Account the turn of every running goal whose agent ran in one of our
    /// panes that is not among `surviving`.
    pub fn account_ended_panes(&mut self, surviving: &[u32])
        requires
            old(self).wf(),
        ensures
            final(self).wf(),
            sweep_step(old(self)@, final(self)@, surviving@),
    {
        let ghost before = self@;
        let at = now();
        let mut k: usize = 0;
        while k < self.goals.len()
            invariant
                k <= self.goals@.len(),
                self@.len() == self.goals@.len(),
                self@.len() == before.len(),
                self.wf(),
                forall|j: int| 0 <= j < k ==> self@[j] == #[trigger] swept(before, surviving@, at)[j],
                forall|j: int| k <= j < self@.len() ==> self@[j] == before[j],
            decreases self.goals@.len() - k,
        {
            if Self::has_lost_pane(&self.goals[k], surviving) {
                let mut g = self.goals[k].duplicate();
                g.apply_end_turn(at);
                self.put(k, g);
            }
            k = k + 1;
        }
        assert(self@ =~= swept(before, surviving@, at));
    }

    /// Stop watching every goal in `dir` that a session owns; goals watched
    /// by hand stay as they are.
    pub fn unwatch_auto_in(&mut self, dir: &str)
        requires
            old(self).wf(),
        ensures
            final(self).wf(),
            final(self)@ == Seq::new(
                old(self)@.len(),
                |i: int|
                    if auto_watching_in(dir@, old(self)@[i]) {
                        watch_set(old(self)@[i], None, false)
                    } else {
                        old(self)@[i]
                    },
            ),
    {
        let ghost before = self@;
        let mut k: usize = 0;
        while k < self.goals.len()
            invariant
                k <= self.goals@.len(),
                self@.len() == before.len(),
                self.goals@.len() == before.len(),
                before == old(self)@,
                self.wf(),
                forall|j: int| 0 <= j < k ==> self@[j] == (if auto_watching_in(dir@, before[j]) {
                    watch_set(before[j], None, false)
                } else {
                    before[j]
                }),
                forall|j: int| k <= j < self@.len() ==> self@[j] == before[j],
            decreases self.goals@.len() - k,
        {
            let here = match &self.goals[k].project_dir {
                Some(d) => crate::text::same(d.as_str(), dir),
                None => false,
            };
            if here && self.goals[k].watching && self.goals[k].auto_session.is_some() {
                let mut g = self.goals[k].duplicate();
                g.watching = false;
                self.put(k, g);
            }
            k = k + 1;
        }
        assert(self@ =~= Seq::new(
            before.len(),
            |i: int|
                if auto_watching_in(dir@, before[i]) {
                    watch_set(before[i], None, false)
                } else {
                    before[i]
                },
        ));
    }
}

proof fn lemma_count_in_kept<T>(s: Seq<T>, p: spec_fn(T) -> bool, q: spec_fn(T) -> bool)
    ensures
        count_where(keep(s, p), q) == count_where(s, |x: T| p(x) && q(x)),
    decreases s.len(),
{
    if s.len() > 0 {
        let d = s.drop_last();
        lemma_count_in_kept(d, p, q);
        assert(d.push(s.last()) =~= s);
        lemma_keep_push(d, p, s.last());
        if p(s.last()) {
            assert(keep(d, p).push(s.last()).drop_last() =~= keep(d, p));
        }
    }
}

proof fn lemma_count_one(s: Seq<GoalV>, dir: Seq<char>, k: int)
    requires
        ids_distinct(s),
        0 <= k < s.len(),
    ensures
        count_where(s, |x: GoalV| in_dir(dir)(x) && goal_has_id(s[k].id)(x)) == (if s[k].project_dir
            == Some(dir) {
            1nat
        } else {
            0nat
        }),
    decreases s.len(),
{
    let q = |x: GoalV| in_dir(dir)(x) && goal_has_id(s[k].id)(x);
    let d = s.drop_last();
    let n = s.len() - 1;
    if k < n {
        lemma_count_one(d, dir, k);
        assert(d[k] == s[k]);
        assert(s[n].id != s[k].id);
    } else {
        assert forall|j: int| 0 <= j < d.len() implies !q(#[trigger] d[j]) by {
            assert(d[j] == s[j]);
        }
        lemma_count_none(d, q);
    }
}

proof fn lemma_count_none(s: Seq<GoalV>, q: spec_fn(GoalV) -> bool)
    requires
        forall|j: int| 0 <= j < s.len() ==> !q(#[trigger] s[j]),
    ensures
        count_where(s, q) == 0,
    decreases s.len(),
{
    if s.len() > 0 {
        let d = s.drop_last();
        assert forall|j: int| 0 <= j < d.len() implies !q(#[trigger] d[j]) by {
            assert(d[j] == s[j]);
        }
        lemma_count_none(d, q);
        assert(!q(s[s.len() - 1]));
    }
}

proof fn lemma_kept_from(s: Seq<GoalV>, dir: Seq<char>)
    ensures
        forall|x: GoalV| #[trigger] keep(s, in_dir(dir)).contains(x) ==> s.contains(x) && x.project_dir == Some(dir),
    decreases s.len(),
{
    if s.len() > 0 {
        let d = s.drop_last();
        lemma_kept_from(d, dir);
        assert(d.push(s.last()) =~= s);
        lemma_keep_push(d, in_dir(dir), s.last());
        assert forall|x: GoalV| #[trigger] keep(s, in_dir(dir)).contains(x) implies s.contains(x)
            && x.project_dir == Some(dir) by {
            let t = keep(s, in_dir(dir));
            let j = choose|j: int| 0 <= j < t.len() && t[j] == x;
            if j < keep(d, in_dir(dir)).len() {
                assert(keep(d, in_dir(dir))[j] == x);
                assert(keep(d, in_dir(dir)).contains(x));
                let m = choose|m: int| 0 <= m < d.len() && d[m] == x;
                assert(s[m] == x);
            } else {
                assert(x == s[s.len() - 1]);
            }
        }
    }
}

/// A directory's listing holds each goal of the directory exactly once, and
/// nothing else: the goal stored at `k` is listed once when it is in `dir`
/// and never otherwise, and everything listed is a goal of the store in
/// `dir`. (The listing leaves the store as it was: `goals_for_dir` takes it
/// by shared reference.)
pub proof fn a_directory_lists_each_of_its_goals_once(s: Seq<GoalV>, dir: Seq<char>, k: int)
    requires
        ids_distinct(s),
        0 <= k < s.len(),
    ensures
        count_where(keep(s, in_dir(dir)), goal_has_id(s[k].id)) == (if s[k].project_dir == Some(dir) {
            1nat
        } else {
            0nat
        }),
        forall|x: GoalV| #[trigger] keep(s, in_dir(dir)).contains(x) ==> s.contains(x) && x.project_dir == Some(dir),
{
    lemma_count_in_kept(s, in_dir(dir), goal_has_id(s[k].id));
    lemma_count_one(s, dir, k);
    lemma_kept_from(s, dir);
}

} // verus!
