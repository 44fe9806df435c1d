//! What holds across the transitions of a goal and of the store: the
//! promises the contract makes as a whole rather than one operation at a
//! time.

use vstd::prelude::*;

use crate::contract::{
    binding_for, bound, class_of, deleted, drilled_down, edited, false_promotion, gate_recorded, interpreted,
    laid, lay_refusal, lemma_with_new_items, new_item_refusal, oracle_reported, reconciled,
    turn_ended, with_evidence, ItemEdit, NewEvidence, NewItem, Refusal,
};
use crate::gate::{item_done, releasable};
use crate::seqs::{first_where, keep, lemma_first_where_facts, lemma_first_where_found};
use crate::store::{
    auto_goal_outcome, bind_step, fresh_auto_goal, fresh_goal, goal_has_id, inserted, lost_pane, owned_by,
    stepped, swept,
};
use crate::types::{
    deleted_claims, edited_after, item_has_id, user_authored, ItemV, Actor, GateDecisionKind,
    GoalStatus, GoalV, ItemStatus, PointerV, SessionBindingV, ClassV,
};

verus! {

/// Every transition that is not an add, an edit or a delete of an item
/// leaves the contract version where it was: evidence, interpretations,
/// oracle reports, reconciling, gate answers, drill-downs, session bindings
/// and turn accounting never move the yardstick.
pub proof fn version_moves_only_with_the_yardstick(
    g: GoalV,
    item_id: Seq<char>,
    text: Seq<char>,
    new: NewEvidence,
    eid: Seq<char>,
    passed: bool,
    session: Seq<char>,
    to: u64,
    reinterpreted: Seq<Seq<char>>,
    decision: GateDecisionKind,
    reason: Option<Seq<char>>,
    pointer: PointerV,
    agent: Seq<char>,
    pane: Option<u32>,
    at: u64,
)
    ensures
        interpreted(g, item_id, text, at) matches Ok(h) ==> h.contract_version
            == g.contract_version,
        with_evidence(g, item_id, new, eid, at) matches Ok(h) ==> h.contract_version
            == g.contract_version,
        oracle_reported(g, item_id, passed) matches Ok(h) ==> h.contract_version
            == g.contract_version,
        reconciled(g, session, to, reinterpreted, at) matches Ok(h) ==> h.contract_version
            == g.contract_version,
        gate_recorded(g, decision, reason, at).contract_version == g.contract_version,
        drilled_down(g, item_id, pointer, at).contract_version == g.contract_version,
        bound(g, agent, session, pane, at).contract_version == g.contract_version,
        turn_ended(g, at).contract_version == g.contract_version,
{
}

/// Each add, edit and delete moves the contract version by exactly one per
/// item, so every delta stays addressable item by item.
pub proof fn each_yardstick_move_is_one_version(
    g: GoalV,
    items: Seq<NewItem>,
    actor: Actor,
    ids: Seq<Seq<char>>,
    item_id: Seq<char>,
    edit: ItemEdit,
    after_drill_down: bool,
    at: u64,
)
    requires
        ids.len() == items.len(),
    ensures
        laid(g, items, actor, ids, at) matches Ok(h) ==> h.contract_version == g.contract_version
            + items.len(),
        edited(g, item_id, edit, actor, after_drill_down, at) matches Ok(h) ==> h.contract_version
            == g.contract_version + 1,
        deleted(g, item_id, at) matches Ok(h) ==> h.contract_version == g.contract_version + 1,
{
    if laid(g, items, actor, ids, at) is Ok {
        lemma_with_new_items(g, items, actor, ids, at);
    }
}

/// The version at which a human last moved the yardstick moves on a human
/// add, edit or delete, to the version that move made, and on nothing else.
pub proof fn only_human_moves_mark_the_yardstick(
    g: GoalV,
    items: Seq<NewItem>,
    actor: Actor,
    ids: Seq<Seq<char>>,
    item_id: Seq<char>,
    edit: ItemEdit,
    after_drill_down: bool,
    text: Seq<char>,
    new: NewEvidence,
    eid: Seq<char>,
    passed: bool,
    session: Seq<char>,
    to: u64,
    reinterpreted: Seq<Seq<char>>,
    decision: GateDecisionKind,
    reason: Option<Seq<char>>,
    at: u64,
)
    requires
        ids.len() == items.len(),
    ensures
        laid(g, items, actor, ids, at) matches Ok(h) ==> (if actor == Actor::Human && items.len()
            > 0 {
            h.last_human_edit_version == h.contract_version
        } else {
            h.last_human_edit_version == g.last_human_edit_version
        }),
        edited(g, item_id, edit, actor, after_drill_down, at) matches Ok(h) ==> (if actor
            == Actor::Human {
            h.last_human_edit_version == h.contract_version
        } else {
            h.last_human_edit_version == g.last_human_edit_version
        }),
        deleted(g, item_id, at) matches Ok(h) ==> h.last_human_edit_version == h.contract_version,
        interpreted(g, item_id, text, at) matches Ok(h) ==> h.last_human_edit_version
            == g.last_human_edit_version,
        with_evidence(g, item_id, new, eid, at) matches Ok(h) ==> h.last_human_edit_version
            == g.last_human_edit_version,
        oracle_reported(g, item_id, passed) matches Ok(h) ==> h.last_human_edit_version
            == g.last_human_edit_version,
        reconciled(g, session, to, reinterpreted, at) matches Ok(h) ==> h.last_human_edit_version
            == g.last_human_edit_version,
        gate_recorded(g, decision, reason, at).last_human_edit_version
            == g.last_human_edit_version,
{
    if laid(g, items, actor, ids, at) is Ok {
        lemma_with_new_items(g, items, actor, ids, at);
    }
}

proof fn lemma_no_refusal_each(items: Seq<NewItem>, actor: Actor, j: int)
    requires
        lay_refusal(items, actor) is None,
        0 <= j < items.len(),
    ensures
        new_item_refusal(items[j], actor) is None,
    decreases items.len(),
{
    if j < items.len() - 1 {
        assert(items.drop_last()[j] == items[j]);
        lemma_no_refusal_each(items.drop_last(), actor, j);
    }
}

/// An agent's lay succeeds only if no item in it claims a user origin and
/// none claims a human promoted it: the core-bet instrumentation cannot be
/// forged by the agent.
pub proof fn agent_cannot_speak_for_the_human(
    g: GoalV,
    items: Seq<NewItem>,
    ids: Seq<Seq<char>>,
    item_id: Seq<char>,
    edit: ItemEdit,
    after_drill_down: bool,
    at: u64,
)
    ensures
        laid(g, items, Actor::Agent, ids, at) is Ok ==> forall|j: int|
            0 <= j < items.len() ==> !user_authored(#[trigger] items[j].origin@) && !false_promotion(
                class_of(items[j]),
                Actor::Agent,
            ),
        edited(g, item_id, edit, Actor::Agent, after_drill_down, at) is Ok ==> ({
            let k = first_where(g.items, item_has_id(item_id))->Some_0;
            &&& first_where(g.items, item_has_id(item_id)) is Some
            &&& !user_authored(g.items[k].origin)
            &&& !(edit.class matches Some(c) && false_promotion(c@, Actor::Agent))
        }),
{
    if laid(g, items, Actor::Agent, ids, at) is Ok {
        assert forall|j: int| 0 <= j < items.len() implies !user_authored(
            #[trigger] items[j].origin@,
        ) && !false_promotion(class_of(items[j]), Actor::Agent) by {
            lemma_no_refusal_each(items, Actor::Agent, j);
        }
    }
}

/// Moving the yardstick of an item reopens it, so no release follows any
/// successful edit until the item is laid or passed again.
pub proof fn an_edit_reopens_the_gate(
    g: GoalV,
    item_id: Seq<char>,
    edit: ItemEdit,
    actor: Actor,
    after_drill_down: bool,
    at: u64,
)
    ensures
        edited(g, item_id, edit, actor, after_drill_down, at) matches Ok(h) ==> !releasable(h),
{
    if edited(g, item_id, edit, actor, after_drill_down, at) is Ok {
        let h = edited(g, item_id, edit, actor, after_drill_down, at)->Ok_0;
        lemma_first_where_facts(g.items, item_has_id(item_id));
        let k = first_where(g.items, item_has_id(item_id))->Some_0;
        assert(h.items[k].status == ItemStatus::Open);
        assert(!item_done(h, h.items[k]));
    }
}

/// A new item starts open, so laying any item holds back release.
pub proof fn a_new_item_holds_the_gate(
    g: GoalV,
    items: Seq<NewItem>,
    actor: Actor,
    ids: Seq<Seq<char>>,
    at: u64,
)
    requires
        ids.len() == items.len(),
        items.len() > 0,
    ensures
        laid(g, items, actor, ids, at) matches Ok(h) ==> !releasable(h),
{
    if laid(g, items, actor, ids, at) is Ok {
        let h = laid(g, items, actor, ids, at)->Ok_0;
        let h0 = crate::contract::with_new_items(
            g,
            items.drop_last(),
            actor,
            ids.drop_last(),
            at,
        );
        lemma_with_new_items(g, items.drop_last(), actor, ids.drop_last(), at);
        let k = h0.items.len() as int;
        assert(h.items[k].status == ItemStatus::Open);
        assert(!item_done(h, h.items[k]));
    }
}

/// The agent is never synced past the latest contract: if that holds of a
/// goal, it holds after every transition.
pub proof fn synced_never_ahead_of_latest(
    g: GoalV,
    items: Seq<NewItem>,
    actor: Actor,
    ids: Seq<Seq<char>>,
    item_id: Seq<char>,
    edit: ItemEdit,
    after_drill_down: bool,
    text: Seq<char>,
    new: NewEvidence,
    eid: Seq<char>,
    passed: bool,
    session: Seq<char>,
    to: u64,
    reinterpreted: Seq<Seq<char>>,
    at: u64,
)
    requires
        g.agent_synced_version <= g.contract_version,
        ids.len() == items.len(),
    ensures
        laid(g, items, actor, ids, at) matches Ok(h) ==> h.agent_synced_version
            <= h.contract_version,
        edited(g, item_id, edit, actor, after_drill_down, at) matches Ok(h)
            ==> h.agent_synced_version <= h.contract_version,
        deleted(g, item_id, at) matches Ok(h) ==> h.agent_synced_version <= h.contract_version,
        interpreted(g, item_id, text, at) matches Ok(h) ==> h.agent_synced_version
            <= h.contract_version,
        with_evidence(g, item_id, new, eid, at) matches Ok(h) ==> h.agent_synced_version
            <= h.contract_version,
        oracle_reported(g, item_id, passed) matches Ok(h) ==> h.agent_synced_version
            <= h.contract_version,
        reconciled(g, session, to, reinterpreted, at) matches Ok(h) ==> h.agent_synced_version
            == to && to <= h.contract_version,
{
    if laid(g, items, actor, ids, at) is Ok {
        lemma_with_new_items(g, items, actor, ids, at);
    }
}

/// A deleted item's claim is in every delta asked from a version before
/// the deletion, after the removals already there.
pub proof fn a_deletion_reaches_every_later_delta(g: GoalV, item_id: Seq<char>, at: u64, since: u64)
    requires
        since < g.contract_version + 1,
    ensures
        deleted(g, item_id, at) matches Ok(h) ==> deleted_claims(h.events, since) == deleted_claims(
            g.events,
            since,
        ).push(g.items[first_where(g.items, item_has_id(item_id))->Some_0].claim),
{
    if deleted(g, item_id, at) is Ok {
        let h = deleted(g, item_id, at)->Ok_0;
        assert(h.events.drop_last() =~= g.events);
    }
}

/// A release parks the goal; a block on a goal whose turn was accounted
/// brings it back to running; any other block leaves the status alone. A
/// turn is accounted only on a running goal.
pub proof fn the_gate_parks_and_revives(g: GoalV, reason: Option<Seq<char>>, at: u64)
    ensures
        gate_recorded(g, GateDecisionKind::Release, reason, at).status
            == GoalStatus::AwaitingRulings,
        g.status == GoalStatus::TurnEndedUnmet ==> gate_recorded(
            g,
            GateDecisionKind::Block,
            reason,
            at,
        ).status == GoalStatus::Running,
        g.status != GoalStatus::TurnEndedUnmet ==> gate_recorded(
            g,
            GateDecisionKind::Block,
            reason,
            at,
        ).status == g.status,
        g.status == GoalStatus::Running ==> turn_ended(g, at).status == GoalStatus::TurnEndedUnmet,
        g.status != GoalStatus::Running ==> turn_ended(g, at) == g,
{
}

/// Accounting goals whose pane is gone happens once: a second sweep with
/// the same surviving panes changes nothing.
pub proof fn the_sweep_accounts_once(s: Seq<GoalV>, surviving: Seq<u32>, at1: u64, at2: u64)
    ensures
        swept(swept(s, surviving, at1), surviving, at2) == swept(s, surviving, at1),
{
    let s1 = swept(s, surviving, at1);
    assert forall|i: int| 0 <= i < s1.len() implies !lost_pane(#[trigger] s1[i], surviving) by {
        if lost_pane(s[i], surviving) {
            assert(s1[i].status == GoalStatus::TurnEndedUnmet);
        } else {
            assert(s1[i] == s[i]);
        }
    }
    assert(swept(s1, surviving, at2) =~= s1);
}

/// Auto mode is idempotent: asking again for the goal of the same session
/// in the same project answers the goal the first ask made or found, says
/// it was not created, and leaves the store as the first ask left it,
/// whatever ids and times the two asks drew.
pub proof fn auto_goal_is_idempotent(
    s: Seq<GoalV>,
    title: Seq<char>,
    dir: Seq<char>,
    session: Seq<char>,
    agent: Seq<char>,
    pane: Option<u32>,
    id: Seq<char>,
    at: u64,
    title2: Seq<char>,
    agent2: Seq<char>,
    pane2: Option<u32>,
    id2: Seq<char>,
    at2: u64,
)
    ensures
        ({
            let (s1, g1, _) = auto_goal_outcome(s, title, dir, session, agent, pane, id, at);
            auto_goal_outcome(s1, title2, dir, session, agent2, pane2, id2, at2) == (
                s1,
                g1,
                false,
            )
        }),
{
    lemma_first_where_facts(s, owned_by(dir, session));
    match first_where(s, owned_by(dir, session)) {
        Some(i) => {},
        None => {
            let g = fresh_auto_goal(id, title, dir, session, agent, pane, at);
            let s1 = inserted(s, g);
            lemma_first_where_facts(s, goal_has_id(g.id));
            lemma_first_where_facts(s1, owned_by(dir, session));
            match first_where(s, goal_has_id(g.id)) {
                Some(m) => {
                    assert(s1[m] == g);
                    assert(owned_by(dir, session)(s1[m]));
                    match first_where(s1, owned_by(dir, session)) {
                        Some(j) => {
                            if j != m {
                                assert(s1[j] == s[j]);
                                assert(false);
                            }
                        },
                        None => {},
                    }
                },
                None => {
                    let m = s.len() as int;
                    assert(s1[m] == g);
                    assert(owned_by(dir, session)(s1[m]));
                    match first_where(s1, owned_by(dir, session)) {
                        Some(j) => {
                            if j != m {
                                assert(s1[j] == s[j]);
                                assert(false);
                            }
                        },
                        None => {},
                    }
                },
            }
        },
    }
}


/// No subjective item is in the passed state: the agent may pass objective
/// items on their oracle, never its own subjective work.
pub open spec fn passes_only_objective(g: GoalV) -> bool {
    forall|k: int|
        0 <= k < g.items.len() && (#[trigger] g.items[k]).status == ItemStatus::Passed
            ==> g.items[k].class is Objective
}

proof fn lemma_new_items_pass_nothing(
    g: GoalV,
    items: Seq<NewItem>,
    actor: Actor,
    ids: Seq<Seq<char>>,
    at: u64,
)
    requires
        passes_only_objective(g),
    ensures
        passes_only_objective(crate::contract::with_new_items(g, items, actor, ids, at)),
    decreases items.len(),
{
    if items.len() > 0 && ids.len() == items.len() {
        lemma_new_items_pass_nothing(g, items.drop_last(), actor, ids.drop_last(), at);
        let h0 = crate::contract::with_new_items(g, items.drop_last(), actor, ids.drop_last(), at);
        let h = crate::contract::with_new_items(g, items, actor, ids, at);
        assert(h == crate::contract::with_new_item(h0, items.last(), actor, ids.last(), at));
        assert forall|k: int|
            0 <= k < h.items.len() && (#[trigger] h.items[k]).status == ItemStatus::Passed
                implies h.items[k].class is Objective by {
            if k < h0.items.len() {
                assert(h.items[k] == h0.items[k]);
            }
        }
    }
}

/// Only objective items ever pass: if no subjective item of a goal is
/// passed, none is after any transition, whoever makes it. An edit reopens
/// whatever it changes, evidence lays a subjective item at most, and an
/// oracle report is refused on a subjective item.
pub proof fn only_objective_items_pass(
    g: GoalV,
    items: Seq<NewItem>,
    actor: Actor,
    ids: Seq<Seq<char>>,
    item_id: Seq<char>,
    edit: ItemEdit,
    after_drill_down: bool,
    text: Seq<char>,
    new: NewEvidence,
    eid: Seq<char>,
    passed: bool,
    session: Seq<char>,
    to: u64,
    reinterpreted: Seq<Seq<char>>,
    decision: GateDecisionKind,
    reason: Option<Seq<char>>,
    pointer: PointerV,
    agent: Seq<char>,
    pane: Option<u32>,
    at: u64,
)
    requires
        passes_only_objective(g),
    ensures
        laid(g, items, actor, ids, at) matches Ok(h) ==> passes_only_objective(h),
        edited(g, item_id, edit, actor, after_drill_down, at) matches Ok(h)
            ==> passes_only_objective(h),
        deleted(g, item_id, at) matches Ok(h) ==> passes_only_objective(h),
        interpreted(g, item_id, text, at) matches Ok(h) ==> passes_only_objective(h),
        with_evidence(g, item_id, new, eid, at) matches Ok(h) ==> passes_only_objective(h),
        oracle_reported(g, item_id, passed) matches Ok(h) ==> passes_only_objective(h),
        reconciled(g, session, to, reinterpreted, at) matches Ok(h) ==> passes_only_objective(h),
        passes_only_objective(gate_recorded(g, decision, reason, at)),
        passes_only_objective(drilled_down(g, item_id, pointer, at)),
        passes_only_objective(bound(g, agent, session, pane, at)),
        passes_only_objective(turn_ended(g, at)),
{
    lemma_new_items_pass_nothing(g, items, actor, ids, at);
    lemma_first_where_facts(g.items, item_has_id(item_id));
    if deleted(g, item_id, at) is Ok {
        let h = deleted(g, item_id, at)->Ok_0;
        let r = first_where(g.items, item_has_id(item_id))->Some_0;
        assert forall|k: int|
            0 <= k < h.items.len() && (#[trigger] h.items[k]).status == ItemStatus::Passed
                implies h.items[k].class is Objective by {
            if k < r {
                assert(h.items[k] == g.items[k]);
            } else {
                assert(h.items[k] == g.items[k + 1]);
            }
        }
    }
    if with_evidence(g, item_id, new, eid, at) is Ok {
        let h = with_evidence(g, item_id, new, eid, at)->Ok_0;
        let r = first_where(g.items, item_has_id(item_id))->Some_0;
        assert forall|k: int|
            0 <= k < h.items.len() && (#[trigger] h.items[k]).status == ItemStatus::Passed
                implies h.items[k].class is Objective by {
            if k != r {
                assert(h.items[k] == g.items[k]);
            }
        }
    }
    if interpreted(g, item_id, text, at) is Ok {
        let h = interpreted(g, item_id, text, at)->Ok_0;
        let r = first_where(g.items, item_has_id(item_id))->Some_0;
        assert forall|k: int|
            0 <= k < h.items.len() && (#[trigger] h.items[k]).status == ItemStatus::Passed
                implies h.items[k].class is Objective by {
            if k != r {
                assert(h.items[k] == g.items[k]);
            }
        }
    }
    if edited(g, item_id, edit, actor, after_drill_down, at) is Ok {
        let h = edited(g, item_id, edit, actor, after_drill_down, at)->Ok_0;
        let r = first_where(g.items, item_has_id(item_id))->Some_0;
        assert forall|k: int|
            0 <= k < h.items.len() && (#[trigger] h.items[k]).status == ItemStatus::Passed
                implies h.items[k].class is Objective by {
            if k != r {
                assert(h.items[k] == g.items[k]);
            }
        }
    }
    if oracle_reported(g, item_id, passed) is Ok {
        let h = oracle_reported(g, item_id, passed)->Ok_0;
        let r = first_where(g.items, item_has_id(item_id))->Some_0;
        assert forall|k: int|
            0 <= k < h.items.len() && (#[trigger] h.items[k]).status == ItemStatus::Passed
                implies h.items[k].class is Objective by {
            if k != r {
                assert(h.items[k] == g.items[k]);
            }
        }
    }
}


/// Every item carries the version that last moved it, which is never 0.
pub open spec fn items_versioned(g: GoalV) -> bool {
    forall|k: int| 0 <= k < g.items.len() ==> (#[trigger] g.items[k]).last_edited_version >= 1
}

proof fn lemma_new_items_versioned(
    g: GoalV,
    items: Seq<NewItem>,
    actor: Actor,
    ids: Seq<Seq<char>>,
    at: u64,
)
    requires
        items_versioned(g),
        g.contract_version + items.len() <= u64::MAX,
    ensures
        items_versioned(crate::contract::with_new_items(g, items, actor, ids, at)),
    decreases items.len(),
{
    if items.len() > 0 && ids.len() == items.len() {
        lemma_new_items_versioned(g, items.drop_last(), actor, ids.drop_last(), at);
        lemma_with_new_items(g, items.drop_last(), actor, ids.drop_last(), at);
        let h0 = crate::contract::with_new_items(g, items.drop_last(), actor, ids.drop_last(), at);
        let h = crate::contract::with_new_items(g, items, actor, ids, at);
        assert(h == crate::contract::with_new_item(h0, items.last(), actor, ids.last(), at));
        assert forall|k: int| 0 <= k < h.items.len() implies (#[trigger] h.items[k]).last_edited_version
            >= 1 by {
            if k < h0.items.len() {
                assert(h.items[k] == h0.items[k]);
            }
        }
    }
}

proof fn lemma_keep_everything(s: Seq<ItemV>, v: u64)
    requires
        forall|k: int| 0 <= k < s.len() ==> (#[trigger] s[k]).last_edited_version > v,
    ensures
        keep(s, edited_after(v)) == s,
    decreases s.len(),
{
    if s.len() > 0 {
        lemma_keep_everything(s.drop_last(), v);
        assert(s.drop_last().push(s.last()) =~= s);
    }
}

/// A delta asked from version 0 is the whole contract: every item a goal
/// holds was laid or moved at some version from 1 on, and every transition
/// keeps it so.
pub proof fn a_delta_from_the_start_is_the_whole_contract(
    g: GoalV,
    items: Seq<NewItem>,
    actor: Actor,
    ids: Seq<Seq<char>>,
    item_id: Seq<char>,
    edit: ItemEdit,
    after_drill_down: bool,
    text: Seq<char>,
    new: NewEvidence,
    eid: Seq<char>,
    passed: bool,
    session: Seq<char>,
    to: u64,
    reinterpreted: Seq<Seq<char>>,
    decision: GateDecisionKind,
    reason: Option<Seq<char>>,
    pointer: PointerV,
    agent: Seq<char>,
    pane: Option<u32>,
    at: u64,
)
    requires
        items_versioned(g),
    ensures
        keep(g.items, edited_after(0)) == g.items,
        laid(g, items, actor, ids, at) matches Ok(h) ==> items_versioned(h),
        edited(g, item_id, edit, actor, after_drill_down, at) matches Ok(h) ==> items_versioned(h),
        deleted(g, item_id, at) matches Ok(h) ==> items_versioned(h),
        interpreted(g, item_id, text, at) matches Ok(h) ==> items_versioned(h),
        with_evidence(g, item_id, new, eid, at) matches Ok(h) ==> items_versioned(h),
        oracle_reported(g, item_id, passed) matches Ok(h) ==> items_versioned(h),
        reconciled(g, session, to, reinterpreted, at) matches Ok(h) ==> items_versioned(h),
        items_versioned(gate_recorded(g, decision, reason, at)),
        items_versioned(drilled_down(g, item_id, pointer, at)),
        items_versioned(bound(g, agent, session, pane, at)),
        items_versioned(turn_ended(g, at)),
{
    lemma_keep_everything(g.items, 0);
    if laid(g, items, actor, ids, at) is Ok {
        lemma_new_items_versioned(g, items, actor, ids, at);
    }
    lemma_first_where_facts(g.items, item_has_id(item_id));
    if deleted(g, item_id, at) is Ok {
        let h = deleted(g, item_id, at)->Ok_0;
        let r = first_where(g.items, item_has_id(item_id))->Some_0;
        assert forall|k: int| 0 <= k < h.items.len() implies (#[trigger] h.items[k]).last_edited_version
            >= 1 by {
            if k < r {
                assert(h.items[k] == g.items[k]);
            } else {
                assert(h.items[k] == g.items[k + 1]);
            }
        }
    }
    if with_evidence(g, item_id, new, eid, at) is Ok {
        let h = with_evidence(g, item_id, new, eid, at)->Ok_0;
        let r = first_where(g.items, item_has_id(item_id))->Some_0;
        assert forall|k: int| 0 <= k < h.items.len() implies (#[trigger] h.items[k]).last_edited_version
            >= 1 by {
            if k != r {
                assert(h.items[k] == g.items[k]);
            }
        }
    }
    if interpreted(g, item_id, text, at) is Ok {
        let h = interpreted(g, item_id, text, at)->Ok_0;
        let r = first_where(g.items, item_has_id(item_id))->Some_0;
        assert forall|k: int| 0 <= k < h.items.len() implies (#[trigger] h.items[k]).last_edited_version
            >= 1 by {
            if k != r {
                assert(h.items[k] == g.items[k]);
            }
        }
    }
    if edited(g, item_id, edit, actor, after_drill_down, at) is Ok {
        let h = edited(g, item_id, edit, actor, after_drill_down, at)->Ok_0;
        let r = first_where(g.items, item_has_id(item_id))->Some_0;
        assert forall|k: int| 0 <= k < h.items.len() implies (#[trigger] h.items[k]).last_edited_version
            >= 1 by {
            if k != r {
                assert(h.items[k] == g.items[k]);
            }
        }
    }
    if oracle_reported(g, item_id, passed) is Ok {
        let h = oracle_reported(g, item_id, passed)->Ok_0;
        let r = first_where(g.items, item_has_id(item_id))->Some_0;
        assert forall|k: int| 0 <= k < h.items.len() implies (#[trigger] h.items[k]).last_edited_version
            >= 1 by {
            if k != r {
                assert(h.items[k] == g.items[k]);
            }
        }
    }
}


/// No session is bound to a goal twice.
pub open spec fn sessions_unique(g: GoalV) -> bool {
    forall|a: int, b: int|
        0 <= a < b < g.sessions.len() ==> (#[trigger] g.sessions[a]).session_id
            != (#[trigger] g.sessions[b]).session_id
}

/// The binding of a session once it is bound again with `pane`: it keeps its
/// agent and time, and a pane now known replaces the old one; not knowing the
/// pane never erases it.
pub open spec fn rebound(b: SessionBindingV, pane: Option<u32>) -> SessionBindingV {
    SessionBindingV {
        pane: match pane {
            Some(p) => Some(p),
            None => b.pane,
        },
        ..b
    }
}

/// A session is bound to a goal once: binding it again keeps its binding
/// (recording a pane that is now known, erasing none), binding a new session
/// appends one binding, and afterwards exactly one binding names the
/// session. Nothing else of the goal changes. Goals start with unique
/// bindings, and every other transition leaves the bindings alone.
pub proof fn a_session_binds_once(
    g: GoalV,
    agent: Seq<char>,
    sid: Seq<char>,
    pane: Option<u32>,
    at: u64,
    id: Seq<char>,
    title: Seq<char>,
    dir: Seq<char>,
    items: Seq<NewItem>,
    actor: Actor,
    ids: Seq<Seq<char>>,
    item_id: Seq<char>,
    edit: ItemEdit,
    after_drill_down: bool,
    text: Seq<char>,
    new: NewEvidence,
    eid: Seq<char>,
    passed: bool,
    to: u64,
    reinterpreted: Seq<Seq<char>>,
    decision: GateDecisionKind,
    reason: Option<Seq<char>>,
    pointer: PointerV,
)
    requires
        sessions_unique(g),
        ids.len() == items.len(),
    ensures
        ({
            let h = bound(g, agent, sid, pane, at);
            &&& sessions_unique(h)
            &&& h == (GoalV { sessions: h.sessions, ..g })
            &&& exists|k: int| 0 <= k < h.sessions.len() && (#[trigger] h.sessions[k]).session_id == sid
            &&& match first_where(g.sessions, binding_for(sid)) {
                Some(k) => h.sessions == g.sessions.update(k, rebound(g.sessions[k], pane)),
                None => h.sessions == g.sessions.push(
                    SessionBindingV { agent, session_id: sid, bound_at: at, pane },
                ),
            }
        }),
        sessions_unique(fresh_goal(id, title, at)),
        sessions_unique(fresh_auto_goal(id, title, dir, sid, agent, pane, at)),
        laid(g, items, actor, ids, at) matches Ok(h) ==> h.sessions == g.sessions,
        edited(g, item_id, edit, actor, after_drill_down, at) matches Ok(h) ==> h.sessions
            == g.sessions,
        deleted(g, item_id, at) matches Ok(h) ==> h.sessions == g.sessions,
        interpreted(g, item_id, text, at) matches Ok(h) ==> h.sessions == g.sessions,
        with_evidence(g, item_id, new, eid, at) matches Ok(h) ==> h.sessions == g.sessions,
        oracle_reported(g, item_id, passed) matches Ok(h) ==> h.sessions == g.sessions,
        reconciled(g, sid, to, reinterpreted, at) matches Ok(h) ==> h.sessions == g.sessions,
        gate_recorded(g, decision, reason, at).sessions == g.sessions,
        drilled_down(g, item_id, pointer, at).sessions == g.sessions,
        turn_ended(g, at).sessions == g.sessions,
{
    if laid(g, items, actor, ids, at) is Ok {
        lemma_with_new_items(g, items, actor, ids, at);
    }
    lemma_bound_once(g, agent, sid, pane, at);
}

proof fn lemma_bound_once(g: GoalV, agent: Seq<char>, sid: Seq<char>, pane: Option<u32>, at: u64)
    requires
        sessions_unique(g),
    ensures
        ({
            let h = bound(g, agent, sid, pane, at);
            &&& sessions_unique(h)
            &&& h == (GoalV { sessions: h.sessions, ..g })
            &&& exists|k: int| 0 <= k < h.sessions.len() && (#[trigger] h.sessions[k]).session_id == sid
            &&& match first_where(g.sessions, binding_for(sid)) {
                Some(k) => h.sessions == g.sessions.update(k, rebound(g.sessions[k], pane)),
                None => h.sessions == g.sessions.push(
                    SessionBindingV { agent, session_id: sid, bound_at: at, pane },
                ),
            }
        }),
{
    lemma_first_where_facts(g.sessions, binding_for(sid));
    let h = bound(g, agent, sid, pane, at);
    match first_where(g.sessions, binding_for(sid)) {
        Some(k) => {
            assert(h.sessions == g.sessions.update(k, rebound(g.sessions[k], pane)));
            assert(h.sessions[k].session_id == sid);
            assert forall|a: int, b: int|
                0 <= a < b < h.sessions.len() implies (#[trigger] h.sessions[a]).session_id
                != (#[trigger] h.sessions[b]).session_id by {
                assert(g.sessions[a].session_id != g.sessions[b].session_id);
            }
        },
        None => {
            let n = g.sessions.len() as int;
            assert(h.sessions[n].session_id == sid);
            assert forall|a: int, b: int|
                0 <= a < b < h.sessions.len() implies (#[trigger] h.sessions[a]).session_id
                != (#[trigger] h.sessions[b]).session_id by {
                if b < n {
                    assert(g.sessions[a].session_id != g.sessions[b].session_id);
                } else {
                    assert(!binding_for(sid)(g.sessions[a]));
                }
            }
        },
    }
}

/// Binding through the store: when the goal's sessions were unique, the
/// bind succeeds, exactly one binding of that goal names the session
/// afterwards (kept and given a now-known pane, or newly appended), the
/// goal's sessions stay unique, nothing else of it changes, and every other
/// goal is as it was.
pub proof fn a_stored_session_binds_once(
    before: Seq<GoalV>,
    after: Seq<GoalV>,
    i: int,
    agent: Seq<char>,
    sid: Seq<char>,
    pane: Option<u32>,
    answer: Option<Refusal>,
)
    requires
        0 <= i < before.len(),
        sessions_unique(before[i]),
        bind_step(before, after, i, agent, sid, pane, answer),
    ensures
        answer is None,
        after.len() == before.len(),
        forall|j: int| 0 <= j < before.len() && j != i ==> after[j] == before[j],
        sessions_unique(after[i]),
        after[i] == (GoalV { sessions: after[i].sessions, ..before[i] }),
        exists|k: int| 0 <= k < after[i].sessions.len() && (#[trigger] after[i].sessions[k]).session_id == sid,
        match first_where(before[i].sessions, binding_for(sid)) {
            Some(k) => after[i].sessions == before[i].sessions.update(k, rebound(before[i].sessions[k], pane)),
            None => after[i].sessions == before[i].sessions.push(
                SessionBindingV { agent, session_id: sid, bound_at: after[i].sessions.last().bound_at, pane },
            ),
        },
{
    let at = choose|at: u64|
        #[trigger] stepped(before, after, i, Ok(bound(before[i], agent, sid, pane, at)), answer);
    lemma_bound_once(before[i], agent, sid, pane, at);
    assert(after[i] == bound(before[i], agent, sid, pane, at));
}

// ---------- what the item operations do ----------

/// An oracle run decides an objective item's status outright: a pass makes
/// it passed and a failure reopens it, whatever it was before. Nothing else
/// of the item or the goal moves, and a subjective item is refused.
pub proof fn an_oracle_run_sets_the_status(g: GoalV, item_id: Seq<char>, passed: bool, k: int)
    requires
        0 <= k < g.items.len(),
        g.items[k].id == item_id,
        forall|j: int| 0 <= j < k ==> (#[trigger] g.items[j]).id != item_id,
    ensures
        oracle_reported(g, item_id, passed) is Ok <==> g.items[k].class is Objective,
        oracle_reported(g, item_id, passed) matches Ok(h) ==> {
            &&& h.items.len() == g.items.len()
            &&& h.items[k].status == (if passed { ItemStatus::Passed } else { ItemStatus::Open })
            &&& !passed ==> h.items[k].status != ItemStatus::Passed
            &&& h.items[k] == (ItemV { status: h.items[k].status, ..g.items[k] })
            &&& forall|j: int| 0 <= j < g.items.len() && j != k ==> h.items[j] == g.items[j]
            &&& h == (GoalV { items: h.items, ..g })
        },
{
    lemma_first_where_found(g.items, item_has_id(item_id), k);
}

/// An edit puts in exactly what it names: a given claim, check or class
/// replaces the item's, one not given stays; the item is reopened and marked
/// edited at the new version, one past the old, and nothing else of it or of
/// the other items changes. It is refused only when the version is
/// exhausted, when the agent touches an item the human wrote, or when the
/// agent claims a human promoted the item.
pub proof fn an_edit_puts_in_what_it_names(
    g: GoalV,
    item_id: Seq<char>,
    edit: ItemEdit,
    actor: Actor,
    after_drill_down: bool,
    at: u64,
    k: int,
)
    requires
        0 <= k < g.items.len(),
        g.items[k].id == item_id,
        forall|j: int| 0 <= j < k ==> (#[trigger] g.items[j]).id != item_id,
    ensures
        edited(g, item_id, edit, actor, after_drill_down, at) is Ok <==> {
            &&& g.contract_version < u64::MAX
            &&& !(actor == Actor::Agent && (g.items[k].origin is UserPreRun
                || g.items[k].origin is UserViewingEvidence || g.items[k].origin is UserMidRun))
            &&& !(actor == Actor::Agent && (edit.class matches Some(c) && (c@ matches ClassV::Objective {
                promoted_by,
                ..
            } && promoted_by == Actor::Human)))
        },
        edited(g, item_id, edit, actor, after_drill_down, at) matches Ok(h) ==> {
            let o = g.items[k];
            let it = h.items[k];
            &&& h.items.len() == g.items.len()
            &&& (edit.claim matches Some(c) ==> it.claim == c@)
            &&& (edit.claim is None ==> it.claim == o.claim)
            &&& (edit.check matches Some(c) ==> it.check == c@)
            &&& (edit.check is None ==> it.check == o.check)
            &&& (edit.class matches Some(c) ==> it.class == c@)
            &&& (edit.class is None ==> it.class == o.class)
            &&& it.status == ItemStatus::Open
            &&& h.contract_version == g.contract_version + 1
            &&& it.last_edited_version == h.contract_version
            &&& it == (ItemV {
                claim: it.claim,
                check: it.check,
                class: it.class,
                status: it.status,
                last_edited_version: it.last_edited_version,
                ..o
            })
            &&& forall|j: int| 0 <= j < g.items.len() && j != k ==> h.items[j] == g.items[j]
        },
{
    lemma_first_where_found(g.items, item_has_id(item_id), k);
}

/// Recording an interpretation makes it the item's current reading and the
/// newest entry of its history, taken against the current version; earlier
/// entries stay, and nothing else moves. It is never refused for an item
/// that exists.
pub proof fn an_interpretation_becomes_the_current_reading(
    g: GoalV,
    item_id: Seq<char>,
    text: Seq<char>,
    at: u64,
    k: int,
)
    requires
        0 <= k < g.items.len(),
        g.items[k].id == item_id,
        forall|j: int| 0 <= j < k ==> (#[trigger] g.items[j]).id != item_id,
    ensures
        interpreted(g, item_id, text, at) is Ok,
        interpreted(g, item_id, text, at) matches Ok(h) ==> {
            let o = g.items[k];
            let it = h.items[k];
            &&& h.items.len() == g.items.len()
            &&& it.interpretation == Some(text)
            &&& it.interpretation_history.len() == o.interpretation_history.len() + 1
            &&& it.interpretation_history.last().text == text
            &&& it.interpretation_history.last().against_version == g.contract_version
            &&& it.interpretation_history.take(o.interpretation_history.len() as int)
                == o.interpretation_history
            &&& it == (ItemV {
                interpretation: it.interpretation,
                interpretation_history: it.interpretation_history,
                ..o
            })
            &&& forall|j: int| 0 <= j < g.items.len() && j != k ==> h.items[j] == g.items[j]
            &&& h == (GoalV { items: h.items, ..g })
        },
{
    lemma_first_where_found(g.items, item_has_id(item_id), k);
    if let Ok(h) = interpreted(g, item_id, text, at) {
        let o = g.items[k];
        assert(h.items[k].interpretation_history.take(o.interpretation_history.len() as int)
            =~= o.interpretation_history);
    }
}

proof fn lemma_human_lays_freely(items: Seq<NewItem>)
    ensures
        lay_refusal(items, Actor::Human) is None,
    decreases items.len(),
{
    if items.len() > 0 {
        lemma_human_lays_freely(items.drop_last());
    }
}

/// The human may lay any items, of any class and any origin, promoted by
/// anyone: a lay by the human is refused only when the version cannot move
/// that far.
pub proof fn the_human_may_lay_any_item(g: GoalV, items: Seq<NewItem>, ids: Seq<Seq<char>>, at: u64)
    ensures
        laid(g, items, Actor::Human, ids, at) is Ok <==> g.contract_version + items.len() <= u64::MAX,
{
    lemma_human_lays_freely(items);
}

proof fn lemma_agent_lay_refusal(items: Seq<NewItem>)
    ensures
        lay_refusal(items, Actor::Agent) is None <==> forall|j: int|
            0 <= j < items.len() ==> {
                &&& !((#[trigger] items[j]).class matches Some(c) && (c@ matches ClassV::Objective {
                    promoted_by,
                    ..
                } && promoted_by == Actor::Human))
                &&& !(items[j].origin@ is UserPreRun || items[j].origin@ is UserViewingEvidence
                    || items[j].origin@ is UserMidRun)
            },
    decreases items.len(),
{
    if items.len() > 0 {
        let d = items.drop_last();
        lemma_agent_lay_refusal(d);
        assert forall|j: int| 0 <= j < d.len() implies d[j] == items[j] by {}
    }
}

/// An agent's lay is refused exactly when one of its items claims a human
/// promoted it to objective, or claims the human wrote it; any other lay
/// the version has room for goes through.
pub proof fn what_an_agent_may_not_lay(g: GoalV, items: Seq<NewItem>, ids: Seq<Seq<char>>, at: u64)
    requires
        g.contract_version + items.len() <= u64::MAX,
    ensures
        laid(g, items, Actor::Agent, ids, at) is Ok <==> forall|j: int|
            0 <= j < items.len() ==> {
                &&& !((#[trigger] items[j]).class matches Some(c) && (c@ matches ClassV::Objective {
                    promoted_by,
                    ..
                } && promoted_by == Actor::Human))
                &&& !(items[j].origin@ is UserPreRun || items[j].origin@ is UserViewingEvidence
                    || items[j].origin@ is UserMidRun)
            },
{
    lemma_agent_lay_refusal(items);
}

} // verus!
