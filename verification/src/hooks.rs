//! The hooks' own decisions: whether a stop is let through, what the
//! session's first prompt is told, when a contract change is delivered, and
//! which turn a session end accounts. Reading stdin, files and the network
//! is the caller's business; the stop gate fails closed while armed.

use vstd::prelude::*;
use vstd::string::*;

use crate::marker::{lemma_pairs_map_absent, lemma_pairs_map_last, pair_views, pairs_map, resolved, ArmedMarker, ArmedMarkerV, GoalRef, GoalRefV, Resolution, ResolutionV};
use crate::server::GateReq;
use crate::text::{collapse_whitespace, collapse_ws, decimal, owned, push_char, push_decimal};
use crate::types::opt_text;

verus! {

// ---------- the first prompt ----------

/// The protocol's text.
pub open spec fn protocol(goal_line: Seq<char>, goal_id: Seq<char>, contract_version: u64, bin: Seq<char>) -> Seq<char> {
    "[witnos] This project is watched — "@
        + goal_line
        + ", contract v"@
        + decimal(contract_version as nat)
        + ". Your work here runs under a verification contract that the user can edit WHILE you work. Protocol (all via the `witnos` CLI in Bash; if `witnos` is not on PATH call it as \""@
        + bin
        + "\"; your goal id is "@
        + goal_id
        + " — pass `--goal "@
        + goal_id
        + "` to every command):\n1. Before implementing, lay out what you will verify: `witnos item lay --goal "@
        + goal_id
        + "` with a JSON array on stdin; each item = {\"claim\": what must hold, \"check\": how you verify it}. Items are SUBJECTIVE by default; add \"class\":{\"kind\":\"objective\",\"oracle\":{\"command\":\"…\",\"expected\":\"…\"},\"promoted_by\":\"agent\"} ONLY when a machine-runnable command truly decides it.\n2. For every subjective item, record how you read it: `witnos item interpret <item-id> <your interpretation>`.\n3. When you verify something, attach the evidence you judged by: `witnos evidence add <item-id>` with JSON on stdin {\"conclusion\":\"…\",\"basis\":\"…\",\"provenance\":[{\"kind\":\"file\",\"path\":\"…\"} or {\"kind\":\"command\",\"cmd\":\"…\"} or {\"kind\":\"url\",\"url\":\"…\"}]}. Evidence without provenance is rejected.\n4. Objective items: run the oracle, then `witnos oracle report <item-id> --passed|--failed`.\n5. After laying the initial contract, do ONE blindspot pass: `witnos item lay --goal "@
        + goal_id
        + " --blindspot` with checks the user likely didn't think to ask for.\n6. The contract is alive: when it changes you'll see a delta after a tool call — address it, then `witnos reconcile --goal "@
        + goal_id
        + " --to <version>`.\n7. Stopping is gated: you are released only when objective items passed, every subjective item carries interpretation + evidence, and you've reconciled to the latest contract version. Human rulings on subjective items happen AFTER you stop — \"awaiting rulings\" is a normal way to finish; never wait for them."@
}

/// The contract-authoring protocol, injected once per session. Every
/// command names the goal, and the CLI's absolute path `bin` stands in for
/// a `witnos` missing from PATH.
pub fn protocol_text(goal_line: &str, goal_id: &str, contract_version: u64, bin: &str) -> (r: String)
    ensures
        r@ == protocol(goal_line@, goal_id@, contract_version, bin@),
{
    let mut s = owned("[witnos] This project is watched — ");
    s.append(goal_line);
    s.append(", contract v");
    push_decimal(&mut s, contract_version);
    s.append(". Your work here runs under a verification contract that the user can edit WHILE you work. Protocol (all via the `witnos` CLI in Bash; if `witnos` is not on PATH call it as \"");
    s.append(bin);
    s.append("\"; your goal id is ");
    s.append(goal_id);
    s.append(" — pass `--goal ");
    s.append(goal_id);
    s.append("` to every command):\n1. Before implementing, lay out what you will verify: `witnos item lay --goal ");
    s.append(goal_id);
    s.append("` with a JSON array on stdin; each item = {\"claim\": what must hold, \"check\": how you verify it}. Items are SUBJECTIVE by default; add \"class\":{\"kind\":\"objective\",\"oracle\":{\"command\":\"…\",\"expected\":\"…\"},\"promoted_by\":\"agent\"} ONLY when a machine-runnable command truly decides it.\n2. For every subjective item, record how you read it: `witnos item interpret <item-id> <your interpretation>`.\n3. When you verify something, attach the evidence you judged by: `witnos evidence add <item-id>` with JSON on stdin {\"conclusion\":\"…\",\"basis\":\"…\",\"provenance\":[{\"kind\":\"file\",\"path\":\"…\"} or {\"kind\":\"command\",\"cmd\":\"…\"} or {\"kind\":\"url\",\"url\":\"…\"}]}. Evidence without provenance is rejected.\n4. Objective items: run the oracle, then `witnos oracle report <item-id> --passed|--failed`.\n5. After laying the initial contract, do ONE blindspot pass: `witnos item lay --goal ");
    s.append(goal_id);
    s.append(" --blindspot` with checks the user likely didn't think to ask for.\n6. The contract is alive: when it changes you'll see a delta after a tool call — address it, then `witnos reconcile --goal ");
    s.append(goal_id);
    s.append(" --to <version>`.\n7. Stopping is gated: you are released only when objective items passed, every subjective item carries interpretation + evidence, and you've reconciled to the latest contract version. Human rulings on subjective items happen AFTER you stop — \"awaiting rulings\" is a normal way to finish; never wait for them.");
    assert(s@ =~= protocol(goal_line@, goal_id@, contract_version, bin@));
    s
}

/// A goal title from the user's own words: the prompt with whitespace
/// collapsed, cut at 80 characters (marked with an ellipsis when cut); a
/// prompt with no words names the session instead.
pub open spec fn title_of(prompt: Option<Seq<char>>, session: Seq<char>) -> Seq<char> {
    let c = collapse_ws(match prompt {
        Some(p) => p,
        None => Seq::empty(),
    });
    if c.len() == 0 {
        "session "@ + session.take(if session.len() < 8 { session.len() as int } else { 8 })
    } else if c.len() > 80 {
        c.take(80).push('…')
    } else {
        c
    }
}

pub fn title_from_prompt(prompt: Option<&str>, session: &str) -> (r: String)
    ensures
        r@ == title_of(
            match prompt {
                Some(p) => Some(p@),
                None => None,
            },
            session@,
        ),
        r@.len() <= 81,
{
    let collapsed = match prompt {
        Some(p) => collapse_whitespace(p),
        None => collapse_whitespace(""),
    };
    proof {
        reveal_strlit("");
    }
    let cs = crate::text::chars_of(collapsed.as_str());
    if cs.len() == 0 {
        let sc = crate::text::chars_of(session);
        let mut s = owned("session ");
        let mut k: usize = 0;
        while k < sc.len() && k < 8
            invariant
                k <= sc@.len(),
                k <= 8,
                sc@ == session@,
                s@ == "session "@ + session@.take(k as int),
            decreases sc@.len() - k,
        {
            push_char(&mut s, sc[k]);
            assert(s@ =~= "session "@ + session@.take(k + 1));
            k = k + 1;
        }
        proof {
            reveal_strlit("session ");
        }
        return s;
    }
    let mut t = String::new();
    let mut k: usize = 0;
    while k < cs.len() && k < 80
        invariant
            k <= cs@.len(),
            k <= 80,
            cs@ == collapsed@,
            t@ == collapsed@.take(k as int),
        decreases cs@.len() - k,
    {
        push_char(&mut t, cs[k]);
        assert(t@ =~= collapsed@.take(k + 1));
        k = k + 1;
    }
    if cs.len() > 80 {
        push_char(&mut t, '…');
    } else {
        assert(collapsed@.take(k as int) =~= collapsed@);
    }
    t
}

/// How an existing goal is named in the protocol.
pub open spec fn existing_line(title: Option<Seq<char>>, goal_id: Seq<char>) -> Seq<char> {
    match title {
        Some(t) => "goal: \""@ + t + "\""@,
        None => "goal "@ + goal_id,
    }
}

pub fn existing_goal_line(title: Option<&str>, goal_id: &str) -> (r: String)
    ensures
        r@ == existing_line(
            match title {
                Some(t) => Some(t@),
                None => None,
            },
            goal_id@,
        ),
{
    match title {
        Some(t) => {
            let mut s = owned("goal: \"");
            s.append(t);
            s.append("\"");
            s
        },
        None => {
            let mut s = owned("goal ");
            s.append(goal_id);
            s
        },
    }
}

/// How a goal made from this prompt is named in the protocol.
pub fn auto_goal_line(title: &str) -> (r: String)
    ensures
        r@ == "goal: \""@ + title@ + "\" (auto-created from this prompt)"@,
{
    let mut s = owned("goal: \"");
    s.append(title);
    s.append("\" (auto-created from this prompt)");
    s
}

/// What the prompt hook does for a session.
pub enum PromptPlan<'a> {
    /// Nothing: already told, out of scope, or nothing resolvable.
    Silent,
    /// Bind to this goal and tell the session about it.
    Existing(&'a GoalRef),
    /// Make this session's goal from its prompt.
    Create,
}

pub ghost enum PromptPlanV {
    Silent,
    Existing(GoalRefV),
    Create,
}

impl<'a> View for PromptPlan<'a> {
    type V = PromptPlanV;

    open spec fn view(&self) -> PromptPlanV {
        match self {
            PromptPlan::Silent => PromptPlanV::Silent,
            PromptPlan::Existing(g) => PromptPlanV::Existing(g@),
            PromptPlan::Create => PromptPlanV::Create,
        }
    }
}

/// The protocol goes to a session once. A session with a goal is told
/// about it; an auto project's unbound session gets a goal only inside the
/// app's own terminal; a manual marker naming nothing says nothing.
pub open spec fn prompt_plan_of(m: ArmedMarkerV, session: Seq<char>, instructed: bool, in_terminal: bool) -> PromptPlanV {
    if instructed {
        PromptPlanV::Silent
    } else {
        match resolved(m, Some(session)) {
            ResolutionV::Entry(e) => PromptPlanV::Existing(e),
            ResolutionV::NoGoalAuto => if in_terminal {
                PromptPlanV::Create
            } else {
                PromptPlanV::Silent
            },
            ResolutionV::NoGoalManual => PromptPlanV::Silent,
        }
    }
}

pub fn prompt_plan<'a>(marker: &'a ArmedMarker, session: &str, instructed: bool, in_terminal: bool) -> (r: PromptPlan<'a>)
    ensures
        r@ == prompt_plan_of(marker@, session@, instructed, in_terminal),
{
    if instructed {
        return PromptPlan::Silent;
    }
    match marker.resolve(Some(session)) {
        Resolution::Entry(e) => PromptPlan::Existing(e),
        Resolution::NoGoalAuto => if in_terminal {
            PromptPlan::Create
        } else {
            PromptPlan::Silent
        },
        Resolution::NoGoalManual => PromptPlan::Silent,
    }
}

// ---------- delivery ----------

/// The newest version the agent has provably seen: what delivery already
/// injected, or what it declared by reconciling. `None` when that is
/// already the latest, which costs no request at all.
pub open spec fn delivery_baseline(delivered: Option<u64>, synced: u64, latest: u64) -> Option<u64> {
    let since = match delivered {
        Some(d) => if d > synced { d } else { synced },
        None => synced,
    };
    if since >= latest {
        None
    } else {
        Some(since)
    }
}

pub fn delivery_since(delivered: Option<u64>, entry: &GoalRef) -> (r: Option<u64>)
    ensures
        r == delivery_baseline(delivered, entry.agent_synced_version, entry.contract_version),
{
    let d = match delivered {
        Some(d) => d,
        None => 0,
    };
    let since = if d > entry.agent_synced_version {
        d
    } else {
        entry.agent_synced_version
    };
    if since >= entry.contract_version {
        None
    } else {
        Some(since)
    }
}

pub open spec fn delivery(version: u64, since: u64, summary: Seq<char>, goal_id: Seq<char>) -> Seq<char> {
    "[witnos] The verification contract moved to v"@ + decimal(version as nat)
        + " (you were synced to v"@ + decimal(since as nat)
        + "). The delta (items changed, and items REMOVED — stop working on those):\n"@ + summary
        + "\nAddress the delta, update interpretations/evidence through the `witnos` CLI, then run `witnos reconcile --goal "@
        + goal_id + " --to "@ + decimal(version as nat) + "`."@
}

/// What a tool call's aftermath tells the agent: always a delta, never
/// the full list.
pub fn delivery_text(version: u64, since: u64, summary: &str, goal_id: &str) -> (r: String)
    ensures
        r@ == delivery(version, since, summary@, goal_id@),
{
    let mut s = owned("[witnos] The verification contract moved to v");
    push_decimal(&mut s, version);
    s.append(" (you were synced to v");
    push_decimal(&mut s, since);
    s.append("). The delta (items changed, and items REMOVED — stop working on those):\n");
    s.append(summary);
    s.append(
        "\nAddress the delta, update interpretations/evidence through the `witnos` CLI, then run `witnos reconcile --goal ",
    );
    s.append(goal_id);
    s.append(" --to ");
    push_decimal(&mut s, version);
    s.append("`.");
    s
}

/// What delivery does with the core's reply to its request for the delta
/// since `since`: with a version and a summary, the text to inject and the
/// version to record as delivered to the session; with no usable reply,
/// nothing is injected and nothing is recorded.
pub fn delivery_step(reply: Option<(u64, &str)>, since: u64, goal_id: &str) -> (r: Option<(String, u64)>)
    ensures
        match reply {
            None => r is None,
            Some((version, summary)) => r matches Some((text, recorded)) && recorded == version
                && text@ == delivery(version, since, summary@, goal_id@),
        },
{
    match reply {
        None => None,
        Some((version, summary)) => Some((delivery_text(version, since, summary, goal_id), version)),
    }
}

/// A delivery carries the core's summary of the delta whole, and names the
/// version it brings the session to.
pub proof fn a_delivery_carries_the_whole_delta(version: u64, since: u64, summary: Seq<char>, goal_id: Seq<char>)
    ensures
        mentions(delivery(version, since, summary, goal_id), summary),
        mentions(delivery(version, since, summary, goal_id), " --to "@ + decimal(version as nat)),
{
    let m = delivery(version, since, summary, goal_id);
    let a = "[witnos] The verification contract moved to v"@ + decimal(version as nat)
        + " (you were synced to v"@ + decimal(since as nat)
        + "). The delta (items changed, and items REMOVED — stop working on those):\n"@;
    let b = "\nAddress the delta, update interpretations/evidence through the `witnos` CLI, then run `witnos reconcile --goal "@
        + goal_id + " --to "@ + decimal(version as nat) + "`."@;
    assert(m =~= a + summary + b);
    let c = a + summary + "\nAddress the delta, update interpretations/evidence through the `witnos` CLI, then run `witnos reconcile --goal "@
        + goal_id;
    let t = " --to "@ + decimal(version as nat);
    assert(m =~= c + t + "`."@);
}

// ---------- the stop gate ----------

/// The command that stops the watching: every stall names it.
pub open spec fn escape_hatch() -> Seq<char> {
    "witnos disarm"@
}

/// `t` occurs in `m`.
pub open spec fn mentions(m: Seq<char>, t: Seq<char>) -> bool {
    exists|a: Seq<char>, b: Seq<char>| m == a + t + b
}

pub open spec fn msg_marker_unreadable() -> Seq<char> {
    "Witnos is watching this project but its armed marker is unreadable. Ask the user to open the Witnos app (it rewrites the marker), or to run `"@ + escape_hatch() + "` in the project root to stop watching. This stall is fail-closed by design; do not try to work around it."@
}

pub open spec fn msg_marker_empty() -> Seq<char> {
    "Witnos is watching this project but the armed marker names no goal. Ask the user to open the Witnos app, or to run `"@ + escape_hatch() + "` in the project root to stop watching. This stall is fail-closed by design."@
}

/// What the stop hook does once it has found an armed marker.
pub enum StopPlan {
    Allow,
    Block(String),
    /// Ask the core's gate.
    Ask(GateReq),
}

/// A session with a goal is always judged by the core. Without one, only a
/// session from the app's own terminal is held: an auto project asks the
/// core, a marker that cannot be read or names nothing blocks outright.
pub fn stop_plan(
    root: &str,
    marker: Option<&ArmedMarker>,
    session_id: Option<String>,
    stop_hook_active: Option<bool>,
    in_scope: bool,
) -> (r: StopPlan)
    ensures
        match marker {
            None => if in_scope {
                r matches StopPlan::Block(m) && m@ == msg_marker_unreadable()
            } else {
                r is Allow
            },
            Some(m) => match resolved(m@, opt_text(session_id)) {
                ResolutionV::Entry(e) => r matches StopPlan::Ask(q) && opt_text(q.goal_id) == Some(
                    e.goal_id,
                ) && q.project_dir is None && opt_text(q.session_id) == opt_text(session_id)
                    && q.stop_hook_active == stop_hook_active,
                ResolutionV::NoGoalAuto => if in_scope {
                    r matches StopPlan::Ask(q) && q.goal_id is None && opt_text(q.project_dir)
                        == Some(root@) && opt_text(q.session_id) == opt_text(session_id)
                        && q.stop_hook_active == stop_hook_active
                } else {
                    r is Allow
                },
                ResolutionV::NoGoalManual => if in_scope {
                    r matches StopPlan::Block(b) && b@ == msg_marker_empty()
                } else {
                    r is Allow
                },
            },
        },
{
    let m = match marker {
        None => {
            if !in_scope {
                return StopPlan::Allow;
            }
            return StopPlan::Block(
                {
                    let mut m = owned("Witnos is watching this project but its armed marker is unreadable. Ask the user to open the Witnos app (it rewrites the marker), or to run `");
                    m.append("witnos disarm");
                    m.append("` in the project root to stop watching. This stall is fail-closed by design; do not try to work around it.");
                    m
                },
            );
        },
        Some(m) => m,
    };
    let resolution = match &session_id {
        Some(s) => m.resolve(Some(s.as_str())),
        None => m.resolve(None),
    };
    match resolution {
        Resolution::Entry(e) => StopPlan::Ask(
            GateReq {
                goal_id: Some(e.goal_id.clone()),
                project_dir: None,
                session_id,
                stop_hook_active,
            },
        ),
        Resolution::NoGoalAuto => {
            if !in_scope {
                return StopPlan::Allow;
            }
            StopPlan::Ask(
                GateReq {
                    goal_id: None,
                    project_dir: Some(owned(root)),
                    session_id,
                    stop_hook_active,
                },
            )
        },
        Resolution::NoGoalManual => {
            if !in_scope {
                return StopPlan::Allow;
            }
            StopPlan::Block(
                {
                    let mut m = owned("Witnos is watching this project but the armed marker names no goal. Ask the user to open the Witnos app, or to run `");
                    m.append("witnos disarm");
                    m.append("` in the project root to stop watching. This stall is fail-closed by design.");
                    m
                },
            )
        },
    }
}

/// The core's verdict as its response reads: `Ok(None)` to release,
/// `Ok(Some(reason))` to block, `Err` when it carries no decision.
pub fn gate_verdict(decision: Option<&str>, reason: Option<&str>) -> (r: Result<Option<String>, String>)
    ensures
        match decision {
            Some(d) => if d@ == "release"@ {
                r matches Ok(None)
            } else if d@ == "block"@ {
                r matches Ok(Some(x)) && x@ == match reason {
                    Some(t) => t@,
                    None => "blocked by witnos (no reason given)"@,
                }
            } else {
                r matches Err(e) && e@ == "core response carries no decision"@
            },
            None => r matches Err(e) && e@ == "core response carries no decision"@,
        },
{
    match decision {
        Some(d) => {
            if crate::text::same(d, "release") {
                Ok(None)
            } else if crate::text::same(d, "block") {
                Ok(
                    Some(
                        match reason {
                            Some(t) => owned(t),
                            None => owned("blocked by witnos (no reason given)"),
                        },
                    ),
                )
            } else {
                Err(owned("core response carries no decision"))
            }
        },
        None => Err(owned("core response carries no decision")),
    }
}

pub open spec fn unreachable(err: Seq<char>) -> Seq<char> {
    "Witnos is watching this project but its core is unreachable ("@ + err
        + "). Ask the user to open the Witnos app, or to run `"@ + escape_hatch()
        + "` in the project root to stop watching. This stall is fail-closed by design; do not try to work around it."@
}

/// The block reason when the core cannot be asked: it is the escape-hatch
/// documentation, read where the user is already looking.
pub fn unreachable_reason(err: &str) -> (r: String)
    ensures
        r@ == unreachable(err@),
{
    let mut s = owned("Witnos is watching this project but its core is unreachable (");
    s.append(err);
    s.append("). Ask the user to open the Witnos app, or to run `");
    s.append("witnos disarm");
    s.append(
        "` in the project root to stop watching. This stall is fail-closed by design; do not try to work around it.",
    );
    s
}

/// The stop hook's block reason, if it blocks: the core's own, or, when
/// the core could not answer, the unreachable one. It never lets a stop
/// through on an error.
pub fn stop_block(answer: Result<Option<String>, String>) -> (r: Option<String>)
    ensures
        match answer {
            Ok(None) => r is None,
            Ok(Some(x)) => r matches Some(y) && y@ == x@,
            Err(e) => r matches Some(y) && y@ == unreachable(e@),
        },
{
    match answer {
        Ok(None) => None,
        Ok(Some(x)) => Some(x),
        Err(e) => Some(unreachable_reason(e.as_str())),
    }
}

// ---------- session end ----------

/// The goal whose turn a session's end accounts: only the session's own
/// entry counts — a default goal is shared, and one session ending says
/// nothing about it.
pub fn session_end_goal<'a>(marker: &'a ArmedMarker, session: &str) -> (r: Option<&'a str>)
    ensures
        marker@.sessions.dom().contains(session@) ==> (r matches Some(g) && g@
            == marker@.sessions[session@].goal_id),
        !marker@.sessions.dom().contains(session@) ==> r is None,
{
    let ghost ps = pair_views(marker.sessions@);
    let mut k: usize = marker.sessions.len();
    while k > 0
        invariant
            k <= marker.sessions@.len(),
            ps == pair_views(marker.sessions@),
            forall|j: int| k <= j < ps.len() ==> ps[j].0 != session@,
        decreases k,
    {
        k = k - 1;
        assert(ps[k as int] == (marker.sessions@[k as int].0@, marker.sessions@[k as int].1@));
        if crate::text::same(marker.sessions[k].0.as_str(), session) {
            proof {
                lemma_pairs_map_last(ps, session@, k as int);
            }
            return Some(marker.sessions[k].1.goal_id.as_str());
        }
    }
    proof {
        lemma_pairs_map_absent(ps, session@);
    }
    None
}

/// The stop gate fails closed, and every stall says how to get out of it.
/// Whatever error stands in for the core's answer (it could not be reached,
/// answered with a failure, or answered without a decision), the stop is
/// blocked with a reason naming `witnos disarm`; so are the stalls on a
/// marker that cannot be read or that names no goal. `stop_block` turns any
/// error into `unreachable`, `gate_verdict` turns an answer without a
/// decision into an error, and `stop_plan` asks the core about a session's
/// goal whether or not the app's own terminal runs it.
pub proof fn every_stall_names_the_way_out(err: Seq<char>)
    ensures
        mentions(unreachable(err), escape_hatch()),
        mentions(msg_marker_unreadable(), escape_hatch()),
        mentions(msg_marker_empty(), escape_hatch()),
{
    let a = "Witnos is watching this project but its core is unreachable ("@ + err
        + "). Ask the user to open the Witnos app, or to run `"@;
    let b = "` in the project root to stop watching. This stall is fail-closed by design; do not try to work around it."@;
    assert(unreachable(err) == a + escape_hatch() + b);
    let c = "Witnos is watching this project but its armed marker is unreadable. Ask the user to open the Witnos app (it rewrites the marker), or to run `"@;
    let d = "` in the project root to stop watching. This stall is fail-closed by design; do not try to work around it."@;
    assert(msg_marker_unreadable() == c + escape_hatch() + d);
    let e = "Witnos is watching this project but the armed marker names no goal. Ask the user to open the Witnos app, or to run `"@;
    let f = "` in the project root to stop watching. This stall is fail-closed by design."@;
    assert(msg_marker_empty() == e + escape_hatch() + f);
}

} // verus!
