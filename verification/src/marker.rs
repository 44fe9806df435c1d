//! The armed marker: what a project directory's `.witnos/armed.json` says,
//! and how a hook invocation resolves its session against it.
//!
//! The marker is always derived whole from a directory's goals, never
//! patched, so goals sharing a directory cannot clobber each other's
//! entries. Reading and writing the file are the caller's business.

use vstd::prelude::*;

use crate::text::{lex_lt, same, text_lt};
use crate::types::{lemma_views_push, views, DuplicateView, Goal, GoalV, SessionBindingV};

verus! {

/// One goal's coordinates inside the marker. The mirrored versions let the
/// delivery channel check "contract unchanged?" with no network.
pub struct GoalRef {
    pub goal_id: String,
    pub contract_version: u64,
    pub agent_synced_version: u64,
}

pub ghost struct GoalRefV {
    pub goal_id: Seq<char>,
    pub contract_version: u64,
    pub agent_synced_version: u64,
}

impl View for GoalRef {
    type V = GoalRefV;

    open spec fn view(&self) -> GoalRefV {
        GoalRefV {
            goal_id: self.goal_id@,
            contract_version: self.contract_version,
            agent_synced_version: self.agent_synced_version,
        }
    }
}

impl DuplicateView for GoalRef {
    fn duplicate(&self) -> (r: Self) {
        GoalRef {
            goal_id: self.goal_id.clone(),
            contract_version: self.contract_version,
            agent_synced_version: self.agent_synced_version,
        }
    }
}

pub open spec fn goal_ref_of(g: GoalV) -> GoalRefV {
    GoalRefV {
        goal_id: g.id,
        contract_version: g.contract_version,
        agent_synced_version: g.agent_synced_version,
    }
}

/// A goal's coordinates.
pub fn goal_ref(goal: &Goal) -> (r: GoalRef)
    ensures
        r@ == goal_ref_of(goal@),
{
    GoalRef {
        goal_id: goal.id.clone(),
        contract_version: goal.contract_version,
        agent_synced_version: goal.agent_synced_version,
    }
}

/// The marker's current shape.
pub fn marker_version() -> (r: u32)
    ensures
        r == 2,
{
    2
}

/// What a project directory's marker says.
pub struct ArmedMarker {
    pub v: u32,
    /// Auto mode: new agent sessions get a goal from their first prompt. An
    /// auto marker with no goal still arms the stop check.
    pub auto: bool,
    /// The manually watched goal; sessions without their own entry gate
    /// against it.
    pub default_goal: Option<GoalRef>,
    /// Per-session goals, one entry per session id.
    pub sessions: Vec<(String, GoalRef)>,
}

pub ghost struct ArmedMarkerV {
    pub v: u32,
    pub auto: bool,
    pub default_goal: Option<GoalRefV>,
    pub sessions: Map<Seq<char>, GoalRefV>,
}

/// The entries of `pairs` as a map; a later entry for a key replaces an
/// earlier one.
pub open spec fn pairs_map(pairs: Seq<(Seq<char>, GoalRefV)>) -> Map<Seq<char>, GoalRefV>
    decreases pairs.len(),
{
    if pairs.len() == 0 {
        Map::empty()
    } else {
        pairs_map(pairs.drop_last()).insert(pairs.last().0, pairs.last().1)
    }
}

pub open spec fn pair_views(pairs: Seq<(String, GoalRef)>) -> Seq<(Seq<char>, GoalRefV)> {
    pairs.map_values(|p: (String, GoalRef)| (p.0@, p.1@))
}

pub open spec fn opt_ref(o: Option<GoalRef>) -> Option<GoalRefV> {
    match o {
        Some(r) => Some(r@),
        None => None,
    }
}

impl View for ArmedMarker {
    type V = ArmedMarkerV;

    open spec fn view(&self) -> ArmedMarkerV {
        ArmedMarkerV {
            v: self.v,
            auto: self.auto,
            default_goal: opt_ref(self.default_goal),
            sessions: pairs_map(pair_views(self.sessions@)),
        }
    }
}

/// What the marker says about one hook invocation's session.
pub enum Resolution<'a> {
    /// Gate, deliver and instruct against this goal.
    Entry(&'a GoalRef),
    /// Auto project, session not bound to a goal yet: the prompt hook should
    /// create one, and the stop gate must not let it through silently.
    NoGoalAuto,
    /// A manual marker that names no goal: the stop check still arms on the
    /// file's presence; delivery and instructions stay silent.
    NoGoalManual,
}

pub ghost enum ResolutionV {
    Entry(GoalRefV),
    NoGoalAuto,
    NoGoalManual,
}

impl<'a> View for Resolution<'a> {
    type V = ResolutionV;

    open spec fn view(&self) -> ResolutionV {
        match self {
            Resolution::Entry(r) => ResolutionV::Entry(r@),
            Resolution::NoGoalAuto => ResolutionV::NoGoalAuto,
            Resolution::NoGoalManual => ResolutionV::NoGoalManual,
        }
    }
}

/// The session's own entry, else the default goal, else which kind of
/// project has nothing for it.
pub open spec fn resolved(m: ArmedMarkerV, session: Option<Seq<char>>) -> ResolutionV {
    if session matches Some(sid) && m.sessions.dom().contains(sid) {
        ResolutionV::Entry(m.sessions[session->Some_0])
    } else if m.default_goal is Some {
        ResolutionV::Entry(m.default_goal->Some_0)
    } else if m.auto {
        ResolutionV::NoGoalAuto
    } else {
        ResolutionV::NoGoalManual
    }
}

/// The last entry for `sid` is the one the map keeps.
pub proof fn lemma_pairs_map_last(pairs: Seq<(Seq<char>, GoalRefV)>, sid: Seq<char>, i: int)
    requires
        0 <= i < pairs.len(),
        pairs[i].0 == sid,
        forall|j: int| i < j < pairs.len() ==> pairs[j].0 != sid,
    ensures
        pairs_map(pairs).dom().contains(sid),
        pairs_map(pairs)[sid] == pairs[i].1,
    decreases pairs.len(),
{
    if i < pairs.len() - 1 {
        lemma_pairs_map_last(pairs.drop_last(), sid, i);
    }
}

pub proof fn lemma_pairs_map_absent(pairs: Seq<(Seq<char>, GoalRefV)>, sid: Seq<char>)
    requires
        forall|j: int| 0 <= j < pairs.len() ==> pairs[j].0 != sid,
    ensures
        !pairs_map(pairs).dom().contains(sid),
    decreases pairs.len(),
{
    if pairs.len() > 0 {
        lemma_pairs_map_absent(pairs.drop_last(), sid);
    }
}

impl ArmedMarker {
    /// Resolve one session against the marker.
    pub fn resolve<'a>(&'a self, session_id: Option<&str>) -> (r: Resolution<'a>)
        ensures
            r@ == resolved(self@, match session_id {
                Some(s) => Some(s@),
                None => None,
            }),
    {
        let ghost ps = pair_views(self.sessions@);
        match session_id {
            Some(sid) => {
                let mut k: usize = self.sessions.len();
                while k > 0
                    invariant
                        k <= self.sessions@.len(),
                        ps == pair_views(self.sessions@),
                        session_id == Some(sid),
                        forall|j: int| k <= j < ps.len() ==> ps[j].0 != sid@,
                    decreases k,
                {
                    k = k - 1;
                    assert(ps[k as int] == (self.sessions@[k as int].0@, self.sessions@[k as int].1@));
                    if same(self.sessions[k].0.as_str(), sid) {
                        proof {
                            lemma_pairs_map_last(ps, sid@, k as int);
                        }
                        return Resolution::Entry(&self.sessions[k].1);
                    }
                }
                proof {
                    lemma_pairs_map_absent(ps, sid@);
                }
            },
            None => {},
        }
        match &self.default_goal {
            Some(d) => Resolution::Entry(d),
            None => if self.auto {
                Resolution::NoGoalAuto
            } else {
                Resolution::NoGoalManual
            },
        }
    }
}

// ---------- deriving a directory's marker ----------

/// Goals ordered by creation time, then id.
pub open spec fn key_lt(a: GoalV, b: GoalV) -> bool {
    a.created_at < b.created_at || (a.created_at == b.created_at && lex_lt(a.id, b.id))
}

/// `g` placed into `s` after every goal that does not come after it.
pub open spec fn insert_sorted(s: Seq<GoalV>, g: GoalV) -> Seq<GoalV>
    decreases s.len(),
{
    if s.len() > 0 && key_lt(g, s.last()) {
        insert_sorted(s.drop_last(), g).push(s.last())
    } else {
        s.push(g)
    }
}

/// The watching goals of `gs`, sorted by (created_at, id), equal keys in
/// the order given.
pub open spec fn sorted_watching(gs: Seq<GoalV>) -> Seq<GoalV>
    decreases gs.len(),
{
    if gs.len() == 0 {
        Seq::empty()
    } else if gs.last().watching {
        insert_sorted(sorted_watching(gs.drop_last()), gs.last())
    } else {
        sorted_watching(gs.drop_last())
    }
}

/// The last goal in `s` that no session owns.
pub open spec fn last_manual(s: Seq<GoalV>) -> Option<GoalRefV>
    decreases s.len(),
{
    if s.len() == 0 {
        None
    } else if s.last().auto_session is None {
        Some(goal_ref_of(s.last()))
    } else {
        last_manual(s.drop_last())
    }
}

/// The session slots filled so far, and the sessions whose own goal holds
/// their slot.
pub ghost struct Slots {
    pub map: Map<Seq<char>, GoalRefV>,
    pub owned: Set<Seq<char>>,
}

/// One binding of `g` taking its slot: the session's own goal always
/// does; another goal only while the session's own goal has not.
pub open spec fn slot_step(st: Slots, g: GoalV, sid: Seq<char>) -> Slots {
    if g.auto_session == Some(sid) {
        Slots { map: st.map.insert(sid, goal_ref_of(g)), owned: st.owned.insert(sid) }
    } else if !st.owned.contains(sid) {
        Slots { map: st.map.insert(sid, goal_ref_of(g)), ..st }
    } else {
        st
    }
}

pub open spec fn slots_of_bindings(st: Slots, g: GoalV, bs: Seq<SessionBindingV>) -> Slots
    decreases bs.len(),
{
    if bs.len() == 0 {
        st
    } else {
        slot_step(slots_of_bindings(st, g, bs.drop_last()), g, bs.last().session_id)
    }
}

/// The slots after every binding of every goal of `s`, in order.
pub open spec fn slots_of(s: Seq<GoalV>) -> Slots
    decreases s.len(),
{
    if s.len() == 0 {
        Slots { map: Map::empty(), owned: Set::empty() }
    } else {
        slots_of_bindings(slots_of(s.drop_last()), s.last(), s.last().sessions)
    }
}

/// A directory's marker, derived from all its goals: `None` means no
/// marker should exist (a manual project with nothing watching). An auto
/// project always keeps one.
pub open spec fn derived_marker(auto: bool, gs: Seq<GoalV>) -> Option<ArmedMarkerV> {
    let s = sorted_watching(gs);
    let d = last_manual(s);
    let m = slots_of(s).map;
    if !auto && d is None && m == Map::<Seq<char>, GoalRefV>::empty() {
        None
    } else {
        Some(ArmedMarkerV { v: 2, auto, default_goal: d, sessions: m })
    }
}

fn key_lt_exec(a: &Goal, b: &Goal) -> (r: bool)
    ensures
        r == key_lt(a@, b@),
{
    a.created_at < b.created_at || (a.created_at == b.created_at && text_lt(
        a.id.as_str(),
        b.id.as_str(),
    ))
}

/// Where `insert_sorted` puts `g`: after the goals it does not precede.
proof fn lemma_insert_sorted_at(s: Seq<GoalV>, g: GoalV, j: int)
    requires
        0 <= j <= s.len(),
        forall|x: int| j <= x < s.len() ==> key_lt(g, #[trigger] s[x]),
        j == 0 || !key_lt(g, s[j - 1]),
    ensures
        insert_sorted(s, g) == s.take(j).push(g) + s.skip(j),
    decreases s.len(),
{
    if j == s.len() {
        assert(s.take(j).push(g) + s.skip(j) =~= s.push(g));
    } else {
        lemma_insert_sorted_at(s.drop_last(), g, j);
        assert(s.drop_last().take(j).push(g) + s.drop_last().skip(j) + seq![s.last()] =~= s.take(
            j,
        ).push(g) + s.skip(j));
    }
}

proof fn lemma_pairs_map_push(pairs: Seq<(Seq<char>, GoalRefV)>, p: (Seq<char>, GoalRefV))
    ensures
        pairs_map(pairs.push(p)) == pairs_map(pairs).insert(p.0, p.1),
{
    assert(pairs.push(p).drop_last() =~= pairs);
}

pub open spec fn keys_distinct(pairs: Seq<(Seq<char>, GoalRefV)>) -> bool {
    forall|i: int, j: int| 0 <= i < j < pairs.len() ==> pairs[i].0 != pairs[j].0
}

proof fn lemma_pairs_map_update(pairs: Seq<(Seq<char>, GoalRefV)>, e: int, v: GoalRefV)
    requires
        0 <= e < pairs.len(),
        keys_distinct(pairs),
    ensures
        pairs_map(pairs.update(e, (pairs[e].0, v))) == pairs_map(pairs).insert(pairs[e].0, v),
    decreases pairs.len(),
{
    let k = pairs[e].0;
    let q = pairs.update(e, (k, v));
    if e == pairs.len() - 1 {
        assert(q.drop_last() =~= pairs.drop_last());
        assert(pairs_map(pairs).insert(k, v) =~= pairs_map(pairs.drop_last()).insert(k, v));
    } else {
        lemma_pairs_map_update(pairs.drop_last(), e, v);
        assert(q.drop_last() =~= pairs.drop_last().update(e, (k, v)));
        assert(pairs.last().0 != k);
        assert(pairs_map(q) =~= pairs_map(pairs).insert(k, v));
    }
}

/// The entry index for `sid`, if any.
fn find_entry(entries: &Vec<(String, GoalRef)>, sid: &str) -> (r: Option<usize>)
    ensures
        match r {
            Some(e) => e < entries@.len() && pair_views(entries@)[e as int].0 == sid@,
            None => forall|j: int| 0 <= j < entries@.len() ==> pair_views(entries@)[j].0 != sid@,
        },
{
    let mut k: usize = 0;
    while k < entries.len()
        invariant
            k <= entries@.len(),
            forall|j: int| 0 <= j < k ==> pair_views(entries@)[j].0 != sid@,
        decreases entries@.len() - k,
    {
        assert(pair_views(entries@)[k as int].0 == entries@[k as int].0@);
        if same(entries[k].0.as_str(), sid) {
            return Some(k);
        }
        k = k + 1;
    }
    None
}

/// Put `sid -> r` into the entries: replace its entry, or add one.
fn put_entry(entries: &mut Vec<(String, GoalRef)>, sid: &str, r: GoalRef)
    requires
        keys_distinct(pair_views(old(entries)@)),
    ensures
        keys_distinct(pair_views(final(entries)@)),
        pairs_map(pair_views(final(entries)@)) == pairs_map(pair_views(old(entries)@)).insert(
            sid@,
            r@,
        ),
{
    let ghost p0 = pair_views(entries@);
    let ghost rv = r@;
    match find_entry(entries, sid) {
        Some(e) => {
            entries.set(e, (sid.to_owned(), r));
            proof {
                assert(pair_views(entries@) =~= p0.update(e as int, (p0[e as int].0, rv)));
                lemma_pairs_map_update(p0, e as int, rv);
            }
        },
        None => {
            entries.push((sid.to_owned(), r));
            proof {
                assert(pair_views(entries@) =~= p0.push((sid@, rv)));
                lemma_pairs_map_push(p0, (sid@, rv));
            }
        },
    }
}

fn contains_text(v: &Vec<String>, x: &str) -> (r: bool)
    ensures
        r == views(v@).contains(x@),
{
    let mut k: usize = 0;
    while k < v.len()
        invariant
            k <= v@.len(),
            forall|j: int| 0 <= j < k ==> views(v@)[j] != x@,
        decreases v@.len() - k,
    {
        if same(v[k].as_str(), x) {
            assert(views(v@)[k as int] == x@);
            return true;
        }
        k = k + 1;
    }
    false
}

fn last_manual_exec(sorted: &Vec<&Goal>) -> (r: Option<GoalRef>)
    ensures
        opt_ref(r) == last_manual(views(sorted@)),
{
    let ghost s = views(sorted@);
    let mut k: usize = sorted.len();
    assert(s.take(k as int) =~= s);
    while k > 0
        invariant
            k <= sorted@.len(),
            s == views(sorted@),
            last_manual(s) == last_manual(s.take(k as int)),
        decreases k,
    {
        proof {
            assert(s.take(k as int).drop_last() =~= s.take(k - 1));
        }
        if sorted[k - 1].auto_session.is_none() {
            return Some(goal_ref(sorted[k - 1]));
        }
        k = k - 1;
    }
    None
}

/// Derive a project directory's marker from all of its goals; `None` means
/// no marker should exist.
pub fn compute(auto: bool, goals: &[Goal]) -> (r: Option<ArmedMarker>)
    ensures
        match derived_marker(auto, views(goals@)) {
            Some(m) => r matches Some(x) && x@ == m,
            None => r is None,
        },
{
    let ghost gs = views(goals@);
    // watching goals, stably sorted
    let mut sorted: Vec<&Goal> = Vec::new();
    let mut i: usize = 0;
    while i < goals.len()
        invariant
            i <= goals@.len(),
            gs == views(goals@),
            views(sorted@) == sorted_watching(gs.take(i as int)),
        decreases goals@.len() - i,
    {
        proof {
            assert(gs.take(i + 1).drop_last() =~= gs.take(i as int));
            assert(gs.take(i + 1).last() == goals@[i as int]@);
        }
        let g = &goals[i];
        if g.watching {
            let ghost s0 = views(sorted@);
            let mut j: usize = sorted.len();
            while j > 0 && key_lt_exec(g, sorted[j - 1])
                invariant
                    j <= sorted@.len(),
                    s0 == views(sorted@),
                    forall|x: int| j <= x < s0.len() ==> key_lt(g@, #[trigger] s0[x]),
                decreases j,
            {
                j = j - 1;
            }
            proof {
                lemma_insert_sorted_at(s0, g@, j as int);
            }
            sorted.insert(j, g);
            assert(views(sorted@) =~= s0.take(j as int).push(g@) + s0.skip(j as int));
        }
        i = i + 1;
    }
    assert(gs.take(i as int) =~= gs);
    let ghost s = views(sorted@);
    let default_goal = last_manual_exec(&sorted);
    // the session slots
    let mut entries: Vec<(String, GoalRef)> = Vec::new();
    let mut owned: Vec<String> = Vec::new();
    let mut n: usize = 0;
    assert(pairs_map(pair_views(entries@)) =~= Map::<Seq<char>, GoalRefV>::empty());
    assert(views(owned@).to_set() =~= Set::<Seq<char>>::empty());
    while n < sorted.len()
        invariant
            n <= sorted@.len(),
            s == views(sorted@),
            keys_distinct(pair_views(entries@)),
            pairs_map(pair_views(entries@)) == slots_of(s.take(n as int)).map,
            views(owned@).to_set() == slots_of(s.take(n as int)).owned,
        decreases sorted@.len() - n,
    {
        let g = sorted[n];
        let ghost before = slots_of(s.take(n as int));
        let mut b: usize = 0;
        while b < g.sessions.len()
            invariant
                b <= g.sessions@.len(),
                g@.sessions.len() == g.sessions@.len(),
                keys_distinct(pair_views(entries@)),
                pairs_map(pair_views(entries@)) == slots_of_bindings(before, g@, g@.sessions.take(b as int)).map,
                views(owned@).to_set() == slots_of_bindings(before, g@, g@.sessions.take(b as int)).owned,
            decreases g.sessions@.len() - b,
        {
            let sid = g.sessions[b].session_id.as_str();
            let ghost st = slots_of_bindings(before, g@, g@.sessions.take(b as int));
            proof {
                assert(g@.sessions.take(b + 1).drop_last() =~= g@.sessions.take(b as int));
                assert(g@.sessions.take(b + 1).last().session_id == sid@);
            }
            let own = match &g.auto_session {
                Some(a) => same(a.as_str(), sid),
                None => false,
            };
            if own {
                put_entry(&mut entries, sid, goal_ref(g));
                if !contains_text(&owned, sid) {
                    let ghost o0 = owned@;
                    let x = sid.to_owned();
                    let ghost x0 = x;
                    owned.push(x);
                    proof {
                        lemma_views_push(o0, x0);
                        views(o0).lemma_push_to_set_commute(sid@);
                    }
                } else {
                    assert(views(owned@).to_set().contains(sid@));
                    assert(views(owned@).to_set() =~= views(owned@).to_set().insert(sid@));
                }
            } else if !contains_text(&owned, sid) {
                put_entry(&mut entries, sid, goal_ref(g));
            }
            b = b + 1;
        }
        proof {
            assert(g@.sessions.take(b as int) =~= g@.sessions);
            assert(s.take(n + 1).drop_last() =~= s.take(n as int));
        }
        n = n + 1;
    }
    assert(s.take(n as int) =~= s);
    let empty = entries.len() == 0;
    proof {
        if empty {
            assert(pair_views(entries@) =~= Seq::<(Seq<char>, GoalRefV)>::empty());
        } else {
            let pv = pair_views(entries@);
            lemma_pairs_map_contains_key(pv, pv.len() - 1);
            assert(pairs_map(pv).dom().contains(pv[pv.len() - 1].0));
        }
    }
    if !auto && default_goal.is_none() && empty {
        return None;
    }
    Some(ArmedMarker { v: 2, auto, default_goal, sessions: entries })
}

proof fn lemma_pairs_map_contains_key(pairs: Seq<(Seq<char>, GoalRefV)>, i: int)
    requires
        0 <= i < pairs.len(),
    ensures
        pairs_map(pairs).dom().contains(pairs[i].0),
    decreases pairs.len(),
{
    if i < pairs.len() - 1 {
        lemma_pairs_map_contains_key(pairs.drop_last(), i);
    }
}

// ---------- what a derived marker promises ----------

/// `r` is the reference of a goal of `s` that `sid` owns.
pub open spec fn an_owner_ref(s: Seq<GoalV>, sid: Seq<char>, r: GoalRefV) -> bool {
    exists|i: int|
        0 <= i < s.len() && r == goal_ref_of(#[trigger] s[i]) && s[i].auto_session == Some(sid)
}

proof fn lemma_insert_sorted_contains(s: Seq<GoalV>, g: GoalV)
    ensures
        forall|x: GoalV| #[trigger] insert_sorted(s, g).contains(x) == (s.contains(x) || x == g),
    decreases s.len(),
{
    let t = insert_sorted(s, g);
    if s.len() > 0 && key_lt(g, s.last()) {
        lemma_insert_sorted_contains(s.drop_last(), g);
        let u = insert_sorted(s.drop_last(), g);
        assert forall|x: GoalV| #[trigger] t.contains(x) == (s.contains(x) || x == g) by {
            if t.contains(x) {
                let i = choose|i: int| 0 <= i < t.len() && t[i] == x;
                if i < u.len() {
                    assert(u[i] == x);
                    assert(u.contains(x));
                    if s.drop_last().contains(x) {
                        let j = choose|j: int| 0 <= j < s.drop_last().len() && s.drop_last()[j] == x;
                        assert(s[j] == x);
                    }
                } else {
                    assert(s[s.len() - 1] == x);
                }
            }
            if s.contains(x) {
                let j = choose|j: int| 0 <= j < s.len() && s[j] == x;
                if j < s.len() - 1 {
                    assert(s.drop_last()[j] == x);
                    assert(u.contains(x));
                    let k = choose|k: int| 0 <= k < u.len() && u[k] == x;
                    assert(t[k] == x);
                } else {
                    assert(t[t.len() - 1] == x);
                }
            }
            if x == g {
                assert(u.contains(g));
                let k = choose|k: int| 0 <= k < u.len() && u[k] == g;
                assert(t[k] == g);
            }
        }
    } else {
        assert forall|x: GoalV| #[trigger] t.contains(x) == (s.contains(x) || x == g) by {
            if t.contains(x) {
                let i = choose|i: int| 0 <= i < t.len() && t[i] == x;
                if i < s.len() {
                    assert(s[i] == x);
                }
            }
            if s.contains(x) {
                let j = choose|j: int| 0 <= j < s.len() && s[j] == x;
                assert(t[j] == x);
            }
            if x == g {
                assert(t[s.len() as int] == g);
            }
        }
    }
}

proof fn lemma_sorted_watching_contains(gs: Seq<GoalV>)
    ensures
        forall|x: GoalV| #[trigger] sorted_watching(gs).contains(x) == (gs.contains(x) && x.watching),
    decreases gs.len(),
{
    if gs.len() > 0 {
        lemma_sorted_watching_contains(gs.drop_last());
        let p = sorted_watching(gs.drop_last());
        if gs.last().watching {
            lemma_insert_sorted_contains(p, gs.last());
        }
        assert forall|x: GoalV| #[trigger] sorted_watching(gs).contains(x) == (gs.contains(x) && x.watching) by {
            if gs.contains(x) {
                let i = choose|i: int| 0 <= i < gs.len() && gs[i] == x;
                if i < gs.len() - 1 {
                    assert(gs.drop_last()[i] == x);
                }
            }
            if gs.drop_last().contains(x) {
                let i = choose|i: int| 0 <= i < gs.drop_last().len() && gs.drop_last()[i] == x;
                assert(gs[i] == x);
            }
            if x == gs.last() {
                assert(gs[gs.len() - 1] == x);
            }
        }
    }
}

proof fn lemma_bindings_keep_owners(st: Slots, g: GoalV, bs: Seq<SessionBindingV>, s: Seq<GoalV>)
    requires
        s.len() > 0,
        s.last() == g,
        forall|x: Seq<char>|
            #[trigger] st.owned.contains(x) ==> st.map.dom().contains(x) && an_owner_ref(
                s,
                x,
                st.map[x],
            ),
    ensures
        ({
            let st2 = slots_of_bindings(st, g, bs);
            &&& forall|x: Seq<char>|
                #[trigger] st2.owned.contains(x) ==> st2.map.dom().contains(x) && an_owner_ref(
                    s,
                    x,
                    st2.map[x],
                )
            &&& forall|x: Seq<char>| st.owned.contains(x) ==> #[trigger] st2.owned.contains(x)
            &&& forall|j: int|
                0 <= j < bs.len() && g.auto_session == Some(bs[j].session_id)
                    ==> st2.owned.contains(#[trigger] bs[j].session_id)
        }),
    decreases bs.len(),
{
    if bs.len() > 0 {
        lemma_bindings_keep_owners(st, g, bs.drop_last(), s);
        let st1 = slots_of_bindings(st, g, bs.drop_last());
        let sid = bs.last().session_id;
        let st2 = slots_of_bindings(st, g, bs);
        assert(st2 == slot_step(st1, g, sid));
        if g.auto_session == Some(sid) {
            assert(an_owner_ref(s, sid, goal_ref_of(g))) by {
                assert(s[s.len() - 1] == g);
            }
        }
        assert forall|x: Seq<char>|
            #[trigger] st2.owned.contains(x) implies st2.map.dom().contains(x) && an_owner_ref(
                s,
                x,
                st2.map[x],
            ) by {
            if x != sid {
                assert(st1.owned.contains(x));
            }
        }
        assert forall|j: int|
            0 <= j < bs.len() && g.auto_session == Some(bs[j].session_id) implies st2.owned.contains(
            #[trigger] bs[j].session_id,
        ) by {
            if j < bs.len() - 1 {
                assert(bs.drop_last()[j] == bs[j]);
            }
        }
    }
}

proof fn lemma_slots_keep_owners(s: Seq<GoalV>)
    ensures
        forall|x: Seq<char>|
            #[trigger] slots_of(s).owned.contains(x) ==> slots_of(s).map.dom().contains(x)
                && an_owner_ref(s, x, slots_of(s).map[x]),
        forall|i: int, j: int|
            0 <= i < s.len() && 0 <= j < s[i].sessions.len() && s[i].auto_session == Some(
                s[i].sessions[j].session_id,
            ) ==> slots_of(s).owned.contains(#[trigger] s[i].sessions[j].session_id),
    decreases s.len(),
{
    if s.len() > 0 {
        let p = s.drop_last();
        lemma_slots_keep_owners(p);
        let st = slots_of(p);
        assert forall|x: Seq<char>| #[trigger] st.owned.contains(x) implies st.map.dom().contains(x)
            && an_owner_ref(s, x, st.map[x]) by {
            let i = choose|i: int|
                0 <= i < p.len() && st.map[x] == goal_ref_of(#[trigger] p[i]) && p[i].auto_session
                    == Some(x);
            assert(s[i] == p[i]);
        }
        lemma_bindings_keep_owners(st, s.last(), s.last().sessions, s);
        let st2 = slots_of(s);
        assert forall|i: int, j: int|
            0 <= i < s.len() && 0 <= j < s[i].sessions.len() && s[i].auto_session == Some(
                s[i].sessions[j].session_id,
            ) implies st2.owned.contains(#[trigger] s[i].sessions[j].session_id) by {
            if i < s.len() - 1 {
                assert(s[i] == p[i]);
                assert(st.owned.contains(p[i].sessions[j].session_id));
            }
        }
    }
}

/// A session's own goal always holds its slot: when a watching goal of the
/// directory is owned by a session bound to it, the derived marker exists
/// and names, for that session, a watching goal of the directory that the
/// session owns — an opportunistic bind to another goal never shadows it.
pub proof fn a_session_keeps_its_own_goal(auto: bool, gs: Seq<GoalV>, i: int, j: int)
    requires
        0 <= i < gs.len(),
        gs[i].watching,
        0 <= j < gs[i].sessions.len(),
        gs[i].auto_session == Some(gs[i].sessions[j].session_id),
    ensures
        ({
            let sid = gs[i].sessions[j].session_id;
            &&& derived_marker(auto, gs) is Some
            &&& derived_marker(auto, gs)->Some_0.sessions.dom().contains(sid)
            &&& exists|k: int|
                0 <= k < gs.len() && gs[k].watching && gs[k].auto_session == Some(sid)
                    && derived_marker(auto, gs)->Some_0.sessions[sid] == goal_ref_of(#[trigger] gs[k])
        }),
{
    let sid = gs[i].sessions[j].session_id;
    let s = sorted_watching(gs);
    lemma_sorted_watching_contains(gs);
    assert(gs.contains(gs[i]));
    assert(s.contains(gs[i]));
    let n = choose|n: int| 0 <= n < s.len() && s[n] == gs[i];
    lemma_slots_keep_owners(s);
    assert(s[n].sessions[j].session_id == sid);
    assert(slots_of(s).owned.contains(sid));
    let m = slots_of(s).map;
    assert(m.dom().contains(sid));
    assert(m != Map::<Seq<char>, GoalRefV>::empty());
    let q = choose|q: int|
        0 <= q < s.len() && m[sid] == goal_ref_of(#[trigger] s[q]) && s[q].auto_session == Some(sid);
    assert(s.contains(s[q]));
    let k = choose|k: int| 0 <= k < gs.len() && gs[k] == s[q];
    assert(gs[k].watching);
}

/// An auto project's directory always carries a marker, goals or none:
/// the human opted the directory in, so its gate stays armed.
pub proof fn an_auto_project_is_always_armed(gs: Seq<GoalV>)
    ensures
        derived_marker(true, gs) is Some,
        derived_marker(true, gs)->Some_0.auto,
{
}


// ---------- the order of goals does not matter ----------

/// Goals with distinct ids.
pub open spec fn goal_ids_distinct(gs: Seq<GoalV>) -> bool {
    forall|a: int, b: int| 0 <= a < b < gs.len() ==> (#[trigger] gs[a]).id != (#[trigger] gs[b]).id
}

/// Strictly increasing by (creation time, id).
pub open spec fn keys_increasing(s: Seq<GoalV>) -> bool {
    forall|a: int, b: int| 0 <= a < b < s.len() ==> key_lt(#[trigger] s[a], #[trigger] s[b])
}

proof fn lemma_key_order(a: GoalV, b: GoalV, c: GoalV)
    ensures
        !key_lt(a, a),
        !(key_lt(a, b) && key_lt(b, a)),
        a.id != b.id ==> key_lt(a, b) || key_lt(b, a),
        key_lt(a, b) && key_lt(b, c) ==> key_lt(a, c),
{
    crate::text::lemma_lex_irreflexive(a.id);
    crate::text::lemma_lex_total(a.id, b.id);
    if key_lt(a, b) && key_lt(b, c) && a.created_at == c.created_at {
        crate::text::lemma_lex_transitive(a.id, b.id, c.id);
    }
}

proof fn lemma_insert_sorted_increasing(s: Seq<GoalV>, g: GoalV)
    requires
        keys_increasing(s),
        forall|k: int| 0 <= k < s.len() ==> (#[trigger] s[k]).id != g.id,
    ensures
        keys_increasing(insert_sorted(s, g)),
    decreases s.len(),
{
    let t = insert_sorted(s, g);
    if s.len() > 0 && key_lt(g, s.last()) {
        let d = s.drop_last();
        lemma_insert_sorted_increasing(d, g);
        lemma_insert_sorted_contains(d, g);
        let u = insert_sorted(d, g);
        assert forall|a: int, b: int| 0 <= a < b < t.len() implies key_lt(#[trigger] t[a], #[trigger] t[b]) by {
            if b < u.len() {
                assert(t[a] == u[a] && t[b] == u[b]);
            } else {
                assert(t[b] == s.last());
                assert(u.contains(u[a]));
                if u[a] != g {
                    assert(d.contains(u[a]));
                    let j = choose|j: int| 0 <= j < d.len() && d[j] == u[a];
                    assert(s[j] == u[a]);
                }
            }
        }
    } else {
        assert forall|a: int, b: int| 0 <= a < b < t.len() implies key_lt(#[trigger] t[a], #[trigger] t[b]) by {
            if b < s.len() {
                assert(t[a] == s[a] && t[b] == s[b]);
            } else {
                let n = s.len() - 1;
                lemma_key_order(s[n], g, g);
                lemma_key_order(s[a], s[n], g);
            }
        }
    }
}

proof fn lemma_sorted_watching_increasing(gs: Seq<GoalV>)
    requires
        goal_ids_distinct(gs),
    ensures
        keys_increasing(sorted_watching(gs)),
    decreases gs.len(),
{
    if gs.len() > 0 {
        let d = gs.drop_last();
        assert(goal_ids_distinct(d)) by {
            assert forall|a: int, b: int| 0 <= a < b < d.len() implies (#[trigger] d[a]).id != (#[trigger] d[b]).id by {
                assert(d[a] == gs[a] && d[b] == gs[b]);
            }
        }
        lemma_sorted_watching_increasing(d);
        if gs.last().watching {
            let p = sorted_watching(d);
            lemma_sorted_watching_contains(d);
            assert forall|k: int| 0 <= k < p.len() implies (#[trigger] p[k]).id != gs.last().id by {
                assert(p.contains(p[k]));
                let j = choose|j: int| 0 <= j < d.len() && d[j] == p[k];
                assert(gs[j] == p[k]);
            }
            lemma_insert_sorted_increasing(p, gs.last());
        }
    }
}

proof fn lemma_insert_sorted_multiset(s: Seq<GoalV>, g: GoalV)
    ensures
        insert_sorted(s, g).to_multiset() =~= s.to_multiset().insert(g),
    decreases s.len(),
{
    broadcast use vstd::seq_lib::group_to_multiset_ensures, vstd::multiset::group_multiset_axioms;

    if s.len() > 0 && key_lt(g, s.last()) {
        let d = s.drop_last();
        lemma_insert_sorted_multiset(d, g);
        assert(d.push(s.last()) =~= s);
        vstd::seq_lib::to_multiset_build(d, s.last());
        vstd::seq_lib::to_multiset_build(insert_sorted(d, g), s.last());
    } else {
        vstd::seq_lib::to_multiset_build(s, g);
    }
}

/// The sorted watching goals hold each watching goal as often as the goals do.
proof fn lemma_sorted_watching_counts(gs: Seq<GoalV>)
    ensures
        forall|x: GoalV|
            #[trigger] sorted_watching(gs).to_multiset().count(x) == if x.watching {
                gs.to_multiset().count(x)
            } else {
                0
            },
    decreases gs.len(),
{
    broadcast use vstd::seq_lib::group_to_multiset_ensures, vstd::multiset::group_multiset_axioms;

    if gs.len() == 0 {
        assert(sorted_watching(gs) =~= Seq::<GoalV>::empty());
        assert(gs =~= Seq::<GoalV>::empty());
    } else {
        let d = gs.drop_last();
        lemma_sorted_watching_counts(d);
        assert(d.push(gs.last()) =~= gs);
        vstd::seq_lib::to_multiset_build(d, gs.last());
        let p = sorted_watching(d);
        if gs.last().watching {
            lemma_insert_sorted_multiset(p, gs.last());
        }
        assert forall|x: GoalV|
            #[trigger] sorted_watching(gs).to_multiset().count(x) == if x.watching {
                gs.to_multiset().count(x)
            } else {
                0
            } by {
            assert(p.to_multiset().count(x) == if x.watching {
                d.to_multiset().count(x)
            } else {
                0
            });
        }
    }
}

/// Two strictly increasing sequences that hold the same goals are equal.
proof fn lemma_increasing_unique(a: Seq<GoalV>, b: Seq<GoalV>)
    requires
        keys_increasing(a),
        keys_increasing(b),
        a.to_multiset() == b.to_multiset(),
    ensures
        a == b,
    decreases a.len(),
{
    broadcast use vstd::seq_lib::group_to_multiset_ensures, vstd::multiset::group_multiset_axioms;

    vstd::seq_lib::to_multiset_len(a);
    vstd::seq_lib::to_multiset_len(b);
    if a.len() == 0 {
        assert(a =~= b);
    } else {
        let x = a.last();
        let y = b.last();
        vstd::seq_lib::to_multiset_contains(a, x);
        vstd::seq_lib::to_multiset_contains(b, x);
        vstd::seq_lib::to_multiset_contains(a, y);
        vstd::seq_lib::to_multiset_contains(b, y);
        assert(a.contains(x)) by {
            assert(a[a.len() - 1] == x);
        }
        assert(b.contains(y)) by {
            assert(b[b.len() - 1] == y);
        }
        if x != y {
            let i = choose|i: int| 0 <= i < b.len() && b[i] == x;
            let j = choose|j: int| 0 <= j < a.len() && a[j] == y;
            assert(i < b.len() - 1) by {
                if i == b.len() - 1 {
                }
            }
            assert(j < a.len() - 1);
            assert(key_lt(b[i], y));
            assert(key_lt(a[j], x));
            lemma_key_order(x, y, x);
            assert(false);
        }
        let da = a.drop_last();
        let db = b.drop_last();
        assert(da.push(x) =~= a);
        assert(db.push(x) =~= b);
        vstd::seq_lib::to_multiset_build(da, x);
        vstd::seq_lib::to_multiset_build(db, x);
        assert(da.to_multiset() =~= db.to_multiset()) by {
            assert(da.to_multiset() =~= a.to_multiset().remove(x));
            assert(db.to_multiset() =~= b.to_multiset().remove(x));
        }
        assert(keys_increasing(da)) by {
            assert forall|p: int, q: int| 0 <= p < q < da.len() implies key_lt(#[trigger] da[p], #[trigger] da[q]) by {
                assert(da[p] == a[p] && da[q] == a[q]);
            }
        }
        assert(keys_increasing(db)) by {
            assert forall|p: int, q: int| 0 <= p < q < db.len() implies key_lt(#[trigger] db[p], #[trigger] db[q]) by {
                assert(db[p] == b[p] && db[q] == b[q]);
            }
        }
        lemma_increasing_unique(da, db);
        assert(a =~= b);
    }
}

/// The marker depends on which goals a directory holds, not on the order
/// they are listed in.
pub proof fn the_marker_ignores_the_order_of_goals(auto: bool, gs: Seq<GoalV>, reordered: Seq<GoalV>)
    requires
        goal_ids_distinct(gs),
        goal_ids_distinct(reordered),
        reordered.to_multiset() == gs.to_multiset(),
    ensures
        derived_marker(auto, reordered) == derived_marker(auto, gs),
        sorted_watching(reordered) == sorted_watching(gs),
{
    lemma_sorted_watching_increasing(gs);
    lemma_sorted_watching_increasing(reordered);
    lemma_sorted_watching_counts(gs);
    lemma_sorted_watching_counts(reordered);
    assert(sorted_watching(reordered).to_multiset() =~= sorted_watching(gs).to_multiset());
    lemma_increasing_unique(sorted_watching(reordered), sorted_watching(gs));
}


// ---------- when a directory is armed, and with what ----------

/// Some binding of a goal of `s` names `sid`.
pub open spec fn bound_somewhere(s: Seq<GoalV>, sid: Seq<char>) -> bool {
    exists|k: int, b: int|
        0 <= k < s.len() && 0 <= b < s[k].sessions.len() && (#[trigger] s[k].sessions[b]).session_id
            == sid
}

/// Every slot is taken, and names a goal of `s`; owned slots are slots.
pub open spec fn slots_ok(st: Slots, s: Seq<GoalV>) -> bool {
    &&& forall|x: Seq<char>| #[trigger] st.owned.contains(x) ==> st.map.dom().contains(x)
    &&& forall|x: Seq<char>|
        #[trigger] st.map.dom().contains(x) ==> exists|k: int|
            0 <= k < s.len() && st.map[x] == goal_ref_of(#[trigger] s[k])
}

proof fn lemma_bindings_slots(st: Slots, g: GoalV, bs: Seq<SessionBindingV>, s: Seq<GoalV>)
    requires
        s.len() > 0,
        s.last() == g,
        slots_ok(st, s),
    ensures
        slots_ok(slots_of_bindings(st, g, bs), s),
        forall|x: Seq<char>|
            #[trigger] slots_of_bindings(st, g, bs).map.dom().contains(x) == (st.map.dom().contains(x)
                || exists|j: int| 0 <= j < bs.len() && (#[trigger] bs[j]).session_id == x),
    decreases bs.len(),
{
    if bs.len() > 0 {
        let d = bs.drop_last();
        lemma_bindings_slots(st, g, d, s);
        let st1 = slots_of_bindings(st, g, d);
        let sid = bs.last().session_id;
        let n = s.len() - 1;
        assert(s[n] == g);
        let st2 = slot_step(st1, g, sid);
        assert(slots_ok(st2, s)) by {
            assert forall|x: Seq<char>| #[trigger] st2.map.dom().contains(x) implies exists|k: int|
                0 <= k < s.len() && st2.map[x] == goal_ref_of(#[trigger] s[k]) by {
                if x == sid && st2.map != st1.map {
                    assert(st2.map[x] == goal_ref_of(s[n]));
                } else {
                    assert(st1.map.dom().contains(x));
                }
            }
        }
        assert forall|x: Seq<char>| #[trigger] st2.map.dom().contains(x) == (st.map.dom().contains(x)
            || exists|j: int| 0 <= j < bs.len() && (#[trigger] bs[j]).session_id == x) by {
            if exists|j: int| 0 <= j < bs.len() && (#[trigger] bs[j]).session_id == x {
                let j = choose|j: int| 0 <= j < bs.len() && (#[trigger] bs[j]).session_id == x;
                if j < d.len() {
                    assert(d[j] == bs[j]);
                }
            }
            if exists|j: int| 0 <= j < d.len() && (#[trigger] d[j]).session_id == x {
                let j = choose|j: int| 0 <= j < d.len() && (#[trigger] d[j]).session_id == x;
                assert(bs[j] == d[j]);
            }
            if x == sid {
                assert(bs[bs.len() - 1].session_id == x);
            }
        }
    }
}

proof fn lemma_slots_domain(s: Seq<GoalV>)
    ensures
        slots_ok(slots_of(s), s),
        forall|x: Seq<char>| #[trigger] slots_of(s).map.dom().contains(x) == bound_somewhere(s, x),
    decreases s.len(),
{
    if s.len() > 0 {
        let d = s.drop_last();
        lemma_slots_domain(d);
        let st = slots_of(d);
        assert(slots_ok(st, s)) by {
            assert forall|x: Seq<char>| #[trigger] st.map.dom().contains(x) implies exists|k: int|
                0 <= k < s.len() && st.map[x] == goal_ref_of(#[trigger] s[k]) by {
                let k = choose|k: int| 0 <= k < d.len() && st.map[x] == goal_ref_of(#[trigger] d[k]);
                assert(s[k] == d[k]);
            }
        }
        lemma_bindings_slots(st, s.last(), s.last().sessions, s);
        assert forall|x: Seq<char>| #[trigger] slots_of(s).map.dom().contains(x) == bound_somewhere(s, x) by {
            if bound_somewhere(s, x) {
                let (k, b) = choose|k: int, b: int|
                    0 <= k < s.len() && 0 <= b < s[k].sessions.len() && (#[trigger] s[k].sessions[b]).session_id == x;
                if k < d.len() {
                    assert(d[k] == s[k]);
                    assert(bound_somewhere(d, x));
                } else {
                    assert(s.last().sessions[b].session_id == x);
                }
            }
            if bound_somewhere(d, x) {
                let (k, b) = choose|k: int, b: int|
                    0 <= k < d.len() && 0 <= b < d[k].sessions.len() && (#[trigger] d[k].sessions[b]).session_id == x;
                assert(s[k] == d[k]);
                assert(s[k].sessions[b].session_id == x);
            }
            if exists|j: int| 0 <= j < s.last().sessions.len() && (#[trigger] s.last().sessions[j]).session_id == x {
                let j = choose|j: int| 0 <= j < s.last().sessions.len() && (#[trigger] s.last().sessions[j]).session_id == x;
                assert(s[s.len() - 1].sessions[j].session_id == x);
            }
        }
    } else {
        assert forall|x: Seq<char>| #[trigger] slots_of(s).map.dom().contains(x) == bound_somewhere(s, x) by {}
    }
}

proof fn lemma_last_manual(s: Seq<GoalV>)
    ensures
        match last_manual(s) {
            None => forall|k: int| 0 <= k < s.len() ==> (#[trigger] s[k]).auto_session is Some,
            Some(d) => exists|k: int|
                0 <= k < s.len() && (#[trigger] s[k]).auto_session is None && d == goal_ref_of(s[k])
                    && forall|j: int| k < j < s.len() ==> (#[trigger] s[j]).auto_session is Some,
        },
    decreases s.len(),
{
    if s.len() > 0 {
        let d = s.drop_last();
        lemma_last_manual(d);
        let n = s.len() - 1;
        if s.last().auto_session is None {
            assert(s[n].auto_session is None);
        } else {
            match last_manual(d) {
                None => {
                    assert forall|k: int| 0 <= k < s.len() implies (#[trigger] s[k]).auto_session is Some by {
                        if k < n {
                            assert(s[k] == d[k]);
                        }
                    }
                },
                Some(r) => {
                    let k = choose|k: int|
                        0 <= k < d.len() && (#[trigger] d[k]).auto_session is None && r == goal_ref_of(d[k])
                            && forall|j: int| k < j < d.len() ==> (#[trigger] d[j]).auto_session is Some;
                    assert(s[k] == d[k]);
                    assert forall|j: int| k < j < s.len() implies (#[trigger] s[j]).auto_session is Some by {
                        if j < n {
                            assert(s[j] == d[j]);
                        }
                    }
                },
            }
        }
    }
}

/// The sessions a marker lists are exactly those bound to watching goals,
/// each naming a watching goal.
pub open spec fn sessions_of_watching(m: Map<Seq<char>, GoalRefV>, gs: Seq<GoalV>) -> bool {
    &&& forall|sid: Seq<char>|
        #[trigger] m.dom().contains(sid) == (exists|i: int, b: int|
            0 <= i < gs.len() && gs[i].watching && 0 <= b < gs[i].sessions.len()
                && (#[trigger] gs[i].sessions[b]).session_id == sid)
    &&& forall|sid: Seq<char>|
        #[trigger] m.dom().contains(sid) ==> exists|i: int|
            0 <= i < gs.len() && gs[i].watching && m[sid] == goal_ref_of(#[trigger] gs[i])
}

/// The default goal is the newest watching manual goal, by creation time
/// then id; none when no watching goal is manual.
pub open spec fn newest_manual(d: Option<GoalRefV>, gs: Seq<GoalV>) -> bool {
    match d {
        None => forall|i: int|
            0 <= i < gs.len() && (#[trigger] gs[i]).watching ==> gs[i].auto_session is Some,
        Some(d) => exists|i: int|
            0 <= i < gs.len() && (#[trigger] gs[i]).watching && gs[i].auto_session is None && d
                == goal_ref_of(gs[i]) && forall|j: int|
                0 <= j < gs.len() && (#[trigger] gs[j]).watching && gs[j].auto_session is None && j != i
                    ==> key_lt(gs[j], gs[i]),
    }
}

/// No watching goal is manual or has a session bound.
pub open spec fn nothing_to_arm(gs: Seq<GoalV>) -> bool {
    forall|i: int|
        0 <= i < gs.len() && (#[trigger] gs[i]).watching ==> gs[i].auto_session is Some
            && gs[i].sessions.len() == 0
}

proof fn lemma_watching_of(gs: Seq<GoalV>)
    ensures
        forall|k: int|
            0 <= k < sorted_watching(gs).len() ==> gs.contains(#[trigger] sorted_watching(gs)[k])
                && sorted_watching(gs)[k].watching,
        forall|i: int|
            0 <= i < gs.len() && (#[trigger] gs[i]).watching ==> sorted_watching(gs).contains(gs[i]),
{
    let s = sorted_watching(gs);
    lemma_sorted_watching_contains(gs);
    assert forall|k: int| 0 <= k < s.len() implies gs.contains(#[trigger] s[k]) && s[k].watching by {
        assert(s.contains(s[k]));
    }
    assert forall|i: int| 0 <= i < gs.len() && (#[trigger] gs[i]).watching implies s.contains(gs[i]) by {
        assert(gs.contains(gs[i]));
    }
}

proof fn lemma_marker_sessions(gs: Seq<GoalV>)
    ensures
        sessions_of_watching(slots_of(sorted_watching(gs)).map, gs),
{
    let s = sorted_watching(gs);
    lemma_watching_of(gs);
    lemma_slots_domain(s);
    let m = slots_of(s).map;
    assert forall|sid: Seq<char>| #[trigger] m.dom().contains(sid) == (exists|i: int, b: int|
        0 <= i < gs.len() && gs[i].watching && 0 <= b < gs[i].sessions.len()
            && (#[trigger] gs[i].sessions[b]).session_id == sid) by {
        if m.dom().contains(sid) {
            assert(bound_somewhere(s, sid));
            let (k, b) = choose|k: int, b: int|
                0 <= k < s.len() && 0 <= b < s[k].sessions.len() && (#[trigger] s[k].sessions[b]).session_id == sid;
            assert(gs.contains(s[k]));
            let i = choose|i: int| 0 <= i < gs.len() && gs[i] == s[k];
            assert(gs[i].sessions[b].session_id == sid);
        }
        if exists|i: int, b: int|
            0 <= i < gs.len() && gs[i].watching && 0 <= b < gs[i].sessions.len()
                && (#[trigger] gs[i].sessions[b]).session_id == sid {
            let (i, b) = choose|i: int, b: int|
                0 <= i < gs.len() && gs[i].watching && 0 <= b < gs[i].sessions.len()
                    && (#[trigger] gs[i].sessions[b]).session_id == sid;
            assert(s.contains(gs[i]));
            let k = choose|k: int| 0 <= k < s.len() && s[k] == gs[i];
            assert(s[k].sessions[b].session_id == sid);
            assert(bound_somewhere(s, sid));
        }
    }
    assert forall|sid: Seq<char>| #[trigger] m.dom().contains(sid) implies exists|i: int|
        0 <= i < gs.len() && gs[i].watching && m[sid] == goal_ref_of(#[trigger] gs[i]) by {
        let k = choose|k: int| 0 <= k < s.len() && m[sid] == goal_ref_of(#[trigger] s[k]);
        assert(gs.contains(s[k]));
            let i = choose|i: int| 0 <= i < gs.len() && gs[i] == s[k];
    }
}

#[verifier::rlimit(40)]
proof fn lemma_marker_default(gs: Seq<GoalV>)
    requires
        goal_ids_distinct(gs),
    ensures
        newest_manual(last_manual(sorted_watching(gs)), gs),
{
    let s = sorted_watching(gs);
    lemma_watching_of(gs);
    lemma_sorted_watching_increasing(gs);
    lemma_last_manual(s);
    match last_manual(s) {
        None => {
            assert forall|i: int| 0 <= i < gs.len() && (#[trigger] gs[i]).watching implies gs[i].auto_session is Some by {
                assert(s.contains(gs[i]));
            let k = choose|k: int| 0 <= k < s.len() && s[k] == gs[i];
            }
        },
        Some(d) => {
            let k = choose|k: int|
                0 <= k < s.len() && (#[trigger] s[k]).auto_session is None && d == goal_ref_of(s[k])
                    && forall|j: int| k < j < s.len() ==> (#[trigger] s[j]).auto_session is Some;
            assert(gs.contains(s[k]));
            let i = choose|i: int| 0 <= i < gs.len() && gs[i] == s[k];
            assert forall|j: int|
                0 <= j < gs.len() && (#[trigger] gs[j]).watching && gs[j].auto_session is None && j != i
                    implies key_lt(gs[j], gs[i]) by {
                assert(s.contains(gs[j]));
                let q = choose|q: int| 0 <= q < s.len() && s[q] == gs[j];
                if q == k {
                    if i < j {
                        assert(gs[i].id != gs[j].id);
                    } else {
                        assert(gs[j].id != gs[i].id);
                    }
                }
                assert(q <= k);
                assert(key_lt(s[q], s[k]));
            }
        },
    }
}

proof fn lemma_marker_absent(gs: Seq<GoalV>)
    ensures
        (last_manual(sorted_watching(gs)) is None && slots_of(sorted_watching(gs)).map
            == Map::<Seq<char>, GoalRefV>::empty()) <==> nothing_to_arm(gs),
{
    let s = sorted_watching(gs);
    let m = slots_of(s).map;
    lemma_watching_of(gs);
    lemma_marker_sessions(gs);
    lemma_last_manual(s);
    if last_manual(s) is None && m == Map::<Seq<char>, GoalRefV>::empty() {
        assert forall|i: int| 0 <= i < gs.len() && (#[trigger] gs[i]).watching implies gs[i].auto_session
            is Some && gs[i].sessions.len() == 0 by {
            assert(s.contains(gs[i]));
            let k = choose|k: int| 0 <= k < s.len() && s[k] == gs[i];
            if gs[i].sessions.len() > 0 {
                assert(m.dom().contains(gs[i].sessions[0].session_id));
            }
        }
    }
    if nothing_to_arm(gs) {
        if last_manual(s) is Some {
            let k = choose|k: int|
                0 <= k < s.len() && (#[trigger] s[k]).auto_session is None && last_manual(s)->Some_0
                    == goal_ref_of(s[k]) && forall|j: int| k < j < s.len() ==> (#[trigger] s[j]).auto_session is Some;
            assert(gs.contains(s[k]));
            let i = choose|i: int| 0 <= i < gs.len() && gs[i] == s[k];
        }
        assert(m =~= Map::<Seq<char>, GoalRefV>::empty()) by {
            assert forall|x: Seq<char>| !#[trigger] m.dom().contains(x) by {
                if m.dom().contains(x) {
                    let (i, b) = choose|i: int, b: int|
                        0 <= i < gs.len() && gs[i].watching && 0 <= b < gs[i].sessions.len()
                            && (#[trigger] gs[i].sessions[b]).session_id == x;
                }
            }
        }
    }
}

/// When a directory carries a marker, and what it says. There is none
/// exactly when the directory is not auto-watched and no watching goal
/// there is manual or has a session bound. A marker is version 2 of the
/// format. Its default goal is the newest watching manual goal — greatest
/// by creation time, then id — and there is none only when no watching
/// goal is manual. Its sessions are exactly those bound to watching goals,
/// each naming a watching goal of the directory.
pub proof fn when_a_directory_is_armed(auto: bool, gs: Seq<GoalV>)
    requires
        goal_ids_distinct(gs),
    ensures
        derived_marker(auto, gs) is None <==> (!auto && nothing_to_arm(gs)),
        derived_marker(auto, gs) matches Some(m) ==> m.v == 2 && m.auto == auto && newest_manual(
            m.default_goal,
            gs,
        ) && sessions_of_watching(m.sessions, gs),
{
    lemma_marker_sessions(gs);
    lemma_marker_default(gs);
    lemma_marker_absent(gs);
}

} // verus!
