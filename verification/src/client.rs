//! The agent-facing CLI's own decisions: which goal a command acts on, how
//! its flags read, and where its requests go. Credentials stay inside the
//! CLI; prompts never touch them.

use vstd::prelude::*;
use vstd::string::*;

use crate::marker::{keys_distinct, pair_views, pairs_map, ArmedMarker, ArmedMarkerV, GoalRefV};
use crate::seqs::{first_where, lemma_first_where_found, lemma_first_where_none};
use crate::server::joined;
use crate::text::{decimal, is_ws, owned, push_decimal, same};
use crate::text_set::{strictly_sorted, TextSet};
use crate::types::{views, Origin, OriginV};

verus! {

/// Where the core listens, and the token it wants.
pub struct Endpoint {
    pub port: u16,
    pub token: String,
}

/// One command's context: the project root, the goal it acts on, and the
/// core's endpoint.
pub struct Ctx {
    pub root: String,
    pub goal_id: String,
    pub ep: Endpoint,
}

impl Ctx {
    pub fn url(&self, path: &str) -> (r: String)
        ensures
            r@ == "http://127.0.0.1:"@ + decimal(self.ep.port as nat) + path@,
    {
        let mut s = owned("http://127.0.0.1:");
        push_decimal(&mut s, self.ep.port as u64);
        s.append(path);
        s
    }

    pub fn bearer(&self) -> (r: String)
        ensures
            r@ == "Bearer "@ + self.ep.token@,
    {
        let mut s = owned("Bearer ");
        s.append(self.ep.token.as_str());
        s
    }
}

pub open spec fn is_text(t: Seq<char>) -> spec_fn(Seq<char>) -> bool {
    |a: Seq<char>| a == t
}

/// The argument after the first `flag`, if there is one.
pub open spec fn flag_arg(args: Seq<Seq<char>>, flag: Seq<char>) -> Option<Seq<char>> {
    match first_where(args, is_text(flag)) {
        Some(i) => if i + 1 < args.len() {
            Some(args[i + 1])
        } else {
            None
        },
        None => None,
    }
}

pub fn flag_value<'a>(args: &'a [String], flag: &str) -> (r: Option<&'a str>)
    ensures
        match flag_arg(views(args@), flag@) {
            Some(v) => r matches Some(x) && x@ == v,
            None => r is None,
        },
{
    let ghost a = views(args@);
    let mut k: usize = 0;
    while k < args.len()
        invariant
            k <= args@.len(),
            a == views(args@),
            forall|j: int| 0 <= j < k ==> !(#[trigger] is_text(flag@)(a[j])),
        decreases args@.len() - k,
    {
        assert(a[k as int] == args@[k as int]@);
        if same(args[k].as_str(), flag) {
            proof {
                lemma_first_where_found(a, is_text(flag@), k as int);
            }
            if k + 1 < args.len() {
                assert(a[k + 1] == args@[k + 1]@);
                return Some(args[k + 1].as_str());
            }
            return None;
        }
        k = k + 1;
    }
    proof {
        lemma_first_where_none(a, is_text(flag@));
    }
    None
}

pub open spec fn has_arg(args: Seq<Seq<char>>, flag: Seq<char>) -> bool {
    exists|i: int| 0 <= i < args.len() && args[i] == flag
}

pub fn has_flag(args: &[String], flag: &str) -> (r: bool)
    ensures
        r == has_arg(views(args@), flag@),
{
    let mut k: usize = 0;
    while k < args.len()
        invariant
            k <= args@.len(),
            forall|j: int| 0 <= j < k ==> views(args@)[j] != flag@,
        decreases args@.len() - k,
    {
        if same(args[k].as_str(), flag) {
            assert(views(args@)[k as int] == flag@);
            return true;
        }
        k = k + 1;
    }
    false
}

/// `oracle report` takes exactly one of `--passed` / `--failed`.
pub fn oracle_outcome(args: &[String]) -> (r: Result<bool, String>)
    ensures
        ({
            let p = has_arg(views(args@), "--passed"@);
            let f = has_arg(views(args@), "--failed"@);
            match r {
                Ok(passed) => p != f && passed == p,
                Err(m) => p == f && m@ == "exactly one of --passed / --failed is required"@,
            }
        }),
{
    let p = has_flag(args, "--passed");
    let f = has_flag(args, "--failed");
    if p && !f {
        Ok(true)
    } else if f && !p {
        Ok(false)
    } else {
        Err(owned("exactly one of --passed / --failed is required"))
    }
}

/// Items the agent lays are stamped here, never taken from its input: an
/// agent must not be able to write user-origin items.
pub fn lay_origin(args: &[String]) -> (r: Origin)
    ensures
        r@ == if has_arg(views(args@), "--blindspot"@) {
            OriginV::AgentBlindspot
        } else {
            OriginV::AgentInitial
        },
{
    if has_flag(args, "--blindspot") {
        Origin::AgentBlindspot
    } else {
        Origin::AgentInitial
    }
}

/// `s` without whitespace at either end.
pub open spec fn trimmed(s: Seq<char>) -> Seq<char>
    decreases s.len(),
{
    if s.len() > 0 && is_ws(s[0]) {
        trimmed(s.drop_first())
    } else if s.len() > 0 && is_ws(s.last()) {
        trimmed(s.drop_last())
    } else {
        s
    }
}

/// The pieces of `s` between commas.
pub open spec fn comma_pieces(s: Seq<char>) -> Seq<Seq<char>>
    decreases s.len(),
{
    if s.len() == 0 {
        seq![Seq::empty()]
    } else {
        let p = comma_pieces(s.drop_last());
        if s.last() == ',' {
            p.push(Seq::empty())
        } else {
            p.update(p.len() - 1, p.last().push(s.last()))
        }
    }
}

proof fn lemma_comma_pieces_nonempty(s: Seq<char>)
    ensures
        comma_pieces(s).len() > 0,
    decreases s.len(),
{
    if s.len() > 0 {
        lemma_comma_pieces_nonempty(s.drop_last());
    }
}

fn trim(s: &Vec<char>) -> (r: String)
    ensures
        r@ == trimmed(s@),
{
    let mut a: usize = 0;
    let mut b: usize = s.len();
    assert(s@.subrange(0, s@.len() as int) =~= s@);
    while a < b && crate::text::is_whitespace(s[a])
        invariant
            a <= b <= s@.len(),
            b == s@.len(),
            trimmed(s@) == trimmed(s@.subrange(a as int, b as int)),
        decreases b - a,
    {
        assert(s@.subrange(a as int, b as int).drop_first() =~= s@.subrange(a + 1, b as int));
        a = a + 1;
    }
    while a < b && crate::text::is_whitespace(s[b - 1])
        invariant
            a <= b <= s@.len(),
            a < b ==> !is_ws(s@[a as int]),
            trimmed(s@) == trimmed(s@.subrange(a as int, b as int)),
        decreases b - a,
    {
        let ghost t = s@.subrange(a as int, b as int);
        assert(t.drop_last() =~= s@.subrange(a as int, b - 1));
        assert(t[0] == s@[a as int]);
        b = b - 1;
    }
    let mut out = String::new();
    let mut k: usize = a;
    while k < b
        invariant
            a <= k <= b <= s@.len(),
            out@ == s@.subrange(a as int, k as int),
        decreases b - k,
    {
        crate::text::push_char(&mut out, s[k]);
        assert(out@ =~= s@.subrange(a as int, k + 1));
        k = k + 1;
    }
    proof {
        let t = s@.subrange(a as int, b as int);
        if t.len() > 0 {
            assert(t[0] == s@[a as int]);
            assert(t.last() == s@[b - 1]);
        }
    }
    out
}

/// `--reinterpreted a, b,c`: the ids between commas, trimmed.
pub fn split_ids(v: &str) -> (r: Vec<String>)
    ensures
        views(r@) == comma_pieces(v@).map_values(|p: Seq<char>| trimmed(p)),
{
    let cs = crate::text::chars_of(v);
    let mut out: Vec<String> = Vec::new();
    let mut piece: Vec<char> = Vec::new();
    let mut k: usize = 0;
    while k < cs.len()
        invariant
            k <= cs@.len(),
            cs@ == v@,
            comma_pieces(v@.take(k as int)).len() > 0,
            views(out@) == comma_pieces(v@.take(k as int)).drop_last().map_values(
                |p: Seq<char>| trimmed(p),
            ),
            piece@ == comma_pieces(v@.take(k as int)).last(),
        decreases cs@.len() - k,
    {
        proof {
            assert(v@.take(k + 1).drop_last() =~= v@.take(k as int));
            lemma_comma_pieces_nonempty(v@.take(k as int));
        }
        let ghost p0 = comma_pieces(v@.take(k as int));
        if cs[k] == ',' {
            let t = trim(&piece);
            let ghost o0 = out@;
            let ghost tv = t;
            out.push(t);
            proof {
                crate::types::lemma_views_push(o0, tv);
                let p1 = comma_pieces(v@.take(k + 1));
                assert(p1 == p0.push(Seq::<char>::empty()));
                assert(p1.drop_last() =~= p0);
                assert(p0 =~= p0.drop_last().push(p0.last()));
                assert(views(out@) =~= p1.drop_last().map_values(|p: Seq<char>| trimmed(p)));
            }
            piece = Vec::new();
        } else {
            piece.push(cs[k]);
            proof {
                let p1 = comma_pieces(v@.take(k + 1));
                assert(p1 == p0.update(p0.len() - 1, p0.last().push(cs@[k as int])));
                assert(p1.drop_last() =~= p0.drop_last());
            }
        }
        k = k + 1;
    }
    assert(v@.take(k as int) =~= v@);
    let t = trim(&piece);
    let ghost o0 = out@;
    let ghost tv = t;
    out.push(t);
    proof {
        crate::types::lemma_views_push(o0, tv);
        let p = comma_pieces(v@);
        lemma_comma_pieces_nonempty(v@);
        assert(p =~= p.drop_last().push(p.last()));
        assert(views(out@) =~= p.map_values(|q: Seq<char>| trimmed(q)));
    }
    out
}

// ---------- which goal a command acts on ----------

/// What was found of the armed marker walking up from the working
/// directory.
pub enum MarkerRead<'a> {
    Missing,
    Unreadable,
    Read(&'a ArmedMarker),
}

/// The goal ids a marker names: every session's, and the default one.
pub open spec fn marker_goal_ids(m: ArmedMarkerV) -> Set<Seq<char>> {
    Set::new(
        |id: Seq<char>|
            (exists|sid: Seq<char>| #[trigger] m.sessions.dom().contains(sid) && m.sessions[sid].goal_id
                == id) || (m.default_goal matches Some(d) && d.goal_id == id),
    )
}

pub open spec fn msg_not_watched() -> Seq<char> {
    "this project is not being watched by Witnos (no .witnos/armed.json found); ask the user to start watching a goal here first, or pass --goal <id>"@
}

pub open spec fn msg_unreadable(path: Seq<char>) -> Seq<char> {
    "armed marker at "@ + path + " is unreadable"@
}

pub open spec fn msg_no_goal() -> Seq<char> {
    "no goal is bound in this project yet; pass --goal <id> (it is in your [witnos] protocol message)"@
}

pub open spec fn msg_many(ids: Seq<Seq<char>>) -> Seq<char> {
    "multiple goals are active in this project ("@ + joined(ids, ", "@)
        + "); pass --goal <id> — yours is in your [witnos] protocol message"@
}

/// The ids in order.
pub open spec fn listing(ids: Set<Seq<char>>, q: Seq<Seq<char>>) -> bool {
    strictly_sorted(q) && forall|x: Seq<char>| #[trigger] q.contains(x) == ids.contains(x)
}

/// Without `--goal`, the marker must name exactly one goal: a shell call
/// carries no session, so picking among several would cross sessions.
pub open spec fn goal_choice_ok(
    goal_override: Option<Seq<char>>,
    marker: Option<Option<ArmedMarkerV>>,
    marker_path: Seq<char>,
    r: Result<Seq<char>, Seq<char>>,
) -> bool {
    match goal_override {
        Some(id) => r == Ok::<Seq<char>, Seq<char>>(id),
        None => match marker {
            None => r == Err::<Seq<char>, Seq<char>>(msg_not_watched()),
            Some(None) => r == Err::<Seq<char>, Seq<char>>(msg_unreadable(marker_path)),
            Some(Some(m)) => {
                let ids = marker_goal_ids(m);
                exists|q: Seq<Seq<char>>|
                    #[trigger] listing(ids, q) && if q.len() == 1 {
                        r == Ok::<Seq<char>, Seq<char>>(q[0])
                    } else if q.len() == 0 {
                        r == Err::<Seq<char>, Seq<char>>(msg_no_goal())
                    } else {
                        r == Err::<Seq<char>, Seq<char>>(msg_many(q))
                    }
            },
        },
    }
}

pub open spec fn marker_seen(marker: &MarkerRead) -> Option<Option<ArmedMarkerV>> {
    match marker {
        MarkerRead::Missing => None,
        MarkerRead::Unreadable => Some(None),
        MarkerRead::Read(m) => Some(Some(m@)),
    }
}

pub open spec fn texts_of(r: Result<String, String>) -> Result<Seq<char>, Seq<char>> {
    match r {
        Ok(s) => Ok(s@),
        Err(s) => Err(s@),
    }
}

proof fn lemma_pairs_map_each(pairs: Seq<(Seq<char>, GoalRefV)>, i: int)
    requires
        keys_distinct(pairs),
        0 <= i < pairs.len(),
    ensures
        pairs_map(pairs).dom().contains(pairs[i].0),
        pairs_map(pairs)[pairs[i].0] == pairs[i].1,
    decreases pairs.len(),
{
    if i < pairs.len() - 1 {
        lemma_pairs_map_each(pairs.drop_last(), i);
        assert(pairs.last().0 != pairs[i].0);
    }
}

proof fn lemma_pairs_map_from(pairs: Seq<(Seq<char>, GoalRefV)>, k: Seq<char>)
    requires
        pairs_map(pairs).dom().contains(k),
    ensures
        exists|i: int| 0 <= i < pairs.len() && pairs[i].0 == k,
    decreases pairs.len(),
{
    if pairs.len() > 0 && pairs.last().0 != k {
        lemma_pairs_map_from(pairs.drop_last(), k);
        let i = choose|i: int| 0 <= i < pairs.drop_last().len() && pairs.drop_last()[i].0 == k;
        assert(pairs[i].0 == k);
    } else if pairs.len() > 0 {
        assert(pairs[pairs.len() - 1].0 == k);
    }
}

/// The goal a command acts on: `--goal` when given, else the one goal the
/// marker names.
pub fn choose_goal(goal_override: Option<&str>, marker: MarkerRead, marker_path: &str) -> (r:
    Result<String, String>)
    requires
        marker matches MarkerRead::Read(m) ==> keys_distinct(pair_views(m.sessions@)),
    ensures
        goal_choice_ok(
            match goal_override {
                Some(s) => Some(s@),
                None => None,
            },
            marker_seen(&marker),
            marker_path@,
            texts_of(r),
        ),
{
    if let Some(id) = goal_override {
        return Ok(owned(id));
    }
    let m = match marker {
        MarkerRead::Missing => {
            return Err(
                owned(
                    "this project is not being watched by Witnos (no .witnos/armed.json found); ask the user to start watching a goal here first, or pass --goal <id>",
                ),
            );
        },
        MarkerRead::Unreadable => {
            let mut s = owned("armed marker at ");
            s.append(marker_path);
            s.append(" is unreadable");
            return Err(s);
        },
        MarkerRead::Read(m) => m,
    };
    let ghost ps = pair_views(m.sessions@);
    let ghost ids = marker_goal_ids(m@);
    let mut set = TextSet::new();
    let mut k: usize = 0;
    while k < m.sessions.len()
        invariant
            k <= m.sessions@.len(),
            ps == pair_views(m.sessions@),
            keys_distinct(ps),
            set.wf(),
            forall|x: Seq<char>|
                #[trigger] set@.contains(x) == exists|j: int| 0 <= j < k && ps[j].1.goal_id == x,
        decreases m.sessions@.len() - k,
    {
        assert(ps[k as int] == (m.sessions@[k as int].0@, m.sessions@[k as int].1@));
        set.add(m.sessions[k].1.goal_id.as_str());
        proof {
            assert forall|x: Seq<char>| #[trigger] set@.contains(x) == exists|j: int|
                0 <= j < k + 1 && ps[j].1.goal_id == x by {
                if x == ps[k as int].1.goal_id {
                    assert(ps[k as int].1.goal_id == x);
                }
            }
        }
        k = k + 1;
    }
    match &m.default_goal {
        Some(d) => {
            set.add(d.goal_id.as_str());
        },
        None => {},
    }
    let listed = set.list();
    proof {
        let q = views(listed@);
        assert forall|x: Seq<char>| #[trigger] q.contains(x) == ids.contains(x) by {
            if q.contains(x) {
                if exists|j: int| 0 <= j < ps.len() && ps[j].1.goal_id == x {
                    let j = choose|j: int| 0 <= j < ps.len() && ps[j].1.goal_id == x;
                    lemma_pairs_map_each(ps, j);
                    assert(m@.sessions.dom().contains(ps[j].0));
                }
            }
            if ids.contains(x) {
                if exists|sid: Seq<char>| #[trigger] m@.sessions.dom().contains(sid) && m@.sessions[sid].goal_id == x {
                    let sid = choose|sid: Seq<char>| #[trigger] m@.sessions.dom().contains(sid) && m@.sessions[sid].goal_id == x;
                    lemma_pairs_map_from(ps, sid);
                    let j = choose|j: int| 0 <= j < ps.len() && ps[j].0 == sid;
                    lemma_pairs_map_each(ps, j);
                    assert(ps[j].1.goal_id == x);
                }
            }
        }
        assert(listing(ids, q));
    }
    let n = listed.len();
    if n == 1 {
        let r = Ok(listed[0].clone());
        assert(listing(ids, views(listed@)));
        return r;
    }
    if n == 0 {
        return Err(
            owned(
                "no goal is bound in this project yet; pass --goal <id> (it is in your [witnos] protocol message)",
            ),
        );
    }
    let mut s = owned("multiple goals are active in this project (");
    let j = crate::server::join_texts(&listed, ", ");
    s.append(j.as_str());
    s.append("); pass --goal <id> — yours is in your [witnos] protocol message");
    Err(s)
}

} // verus!
