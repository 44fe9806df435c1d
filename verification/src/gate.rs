//! The central state machine's release condition.
//!
//! Gate release is not the human agreeing: the agent never waits for a human,
//! so release requires only that every subjective item is LAID
//! (interpretation + fresh evidence), every objective item is PASSED with
//! fresh evidence, and the agent has reconciled against the latest contract.

use vstd::prelude::*;
use vstd::string::*;

use crate::text::{decimal, push_decimal};
use crate::types::{views, Class, ClassV, EvidenceV, Goal, GoalV, Item, ItemStatus, ItemV};

verus! {

pub struct GateOutcome {
    pub release: bool,
    /// Always a delta: the specific unmet things, never the full list.
    pub reasons: Vec<String>,
}

/// Does `e` count for item `it` at the item's current yardstick?
pub open spec fn counts_for(e: EvidenceV, it: ItemV) -> bool {
    e.item_id == it.id && e.against_version >= it.last_edited_version
}

/// The item carries evidence stamped at or after its last edit.
pub open spec fn fresh(g: GoalV, it: ItemV) -> bool {
    exists|j: int| 0 <= j < g.evidence.len() && #[trigger] counts_for(g.evidence[j], it)
}

pub open spec fn quoted(prefix: Seq<char>, claim: Seq<char>) -> Seq<char> {
    prefix + claim + "\""@
}

pub open spec fn empty_reason() -> Seq<char> {
    "contract is empty — lay out verification items first"@
}

pub open spec fn moved_reason(synced: u64, latest: u64) -> Seq<char> {
    "contract moved: you are synced to v"@ + decimal(synced as nat) + ", latest is v"@ + decimal(
        latest as nat,
    ) + " — fetch the delta and reconcile"@
}

/// What one item contributes to a block.
pub open spec fn item_reasons(g: GoalV, it: ItemV) -> Seq<Seq<char>> {
    if it.status == ItemStatus::Waived {
        seq![]
    } else {
        match it.class {
            ClassV::Objective { .. } => if it.status != ItemStatus::Passed {
                seq![quoted("objective item not passed: \""@, it.claim)]
            } else if !fresh(g, it) {
                seq![
                    quoted(
                        "objective item passed but its evidence predates the latest edit: \""@,
                        it.claim,
                    ),
                ]
            } else {
                seq![]
            },
            ClassV::Subjective => if it.status == ItemStatus::Laid {
                (if it.interpretation is None {
                    seq![quoted("subjective item has no interpretation: \""@, it.claim)]
                } else {
                    seq![]
                }) + (if !fresh(g, it) {
                    seq![
                        quoted(
                            "subjective item's evidence predates the latest edit: \""@,
                            it.claim,
                        ),
                    ]
                } else {
                    seq![]
                })
            } else {
                seq![
                    quoted(
                        "subjective item not laid (needs interpretation + evidence): \""@,
                        it.claim,
                    ),
                ]
            },
        }
    }
}

/// The reasons of `items`, in order.
pub open spec fn items_reasons(g: GoalV, items: Seq<ItemV>) -> Seq<Seq<char>>
    decreases items.len(),
{
    if items.len() == 0 {
        seq![]
    } else {
        items_reasons(g, items.drop_last()) + item_reasons(g, items.last())
    }
}

/// Every reason a block holds against `g`, in the order they are reported.
pub open spec fn gate_reasons(g: GoalV) -> Seq<Seq<char>> {
    (if g.items.len() == 0 {
        seq![empty_reason()]
    } else {
        seq![]
    }) + items_reasons(g, g.items) + (if g.agent_synced_version != g.contract_version {
        seq![moved_reason(g.agent_synced_version, g.contract_version)]
    } else {
        seq![]
    })
}

/// An item is done, as far as release is concerned.
pub open spec fn item_done(g: GoalV, it: ItemV) -> bool {
    it.status == ItemStatus::Waived || match it.class {
        ClassV::Objective { .. } => it.status == ItemStatus::Passed && fresh(g, it),
        ClassV::Subjective => it.status == ItemStatus::Laid && it.interpretation is Some && fresh(
            g,
            it,
        ),
    }
}

/// The release condition, stated directly.
pub open spec fn releasable(g: GoalV) -> bool {
    &&& g.items.len() > 0
    &&& g.agent_synced_version == g.contract_version
    &&& forall|i: int| 0 <= i < g.items.len() ==> #[trigger] item_done(g, g.items[i])
}

proof fn lemma_items_reasons_empty(g: GoalV, items: Seq<ItemV>)
    ensures
        (items_reasons(g, items).len() == 0) == (forall|i: int|
            0 <= i < items.len() ==> #[trigger] item_done(g, items[i])),
    decreases items.len(),
{
    if items.len() > 0 {
        lemma_items_reasons_empty(g, items.drop_last());
        let it = items.last();
        assert(item_reasons(g, it).len() == 0 <==> item_done(g, it));
        if items_reasons(g, items).len() == 0 {
            assert forall|i: int| 0 <= i < items.len() implies #[trigger] item_done(
                g,
                items[i],
            ) by {
                if i < items.len() - 1 {
                    assert(items[i] == items.drop_last()[i]);
                }
            }
        }
        if forall|i: int| 0 <= i < items.len() ==> #[trigger] item_done(g, items[i]) {
            assert forall|i: int| 0 <= i < items.drop_last().len() implies #[trigger] item_done(
                g,
                items.drop_last()[i],
            ) by {
                assert(items.drop_last()[i] == items[i]);
            }
            assert(item_done(g, items[items.len() - 1]));
        }
    }
}

/// Release comes exactly when the contract is non-empty, the agent is
/// synced to the latest version, every objective item has passed with fresh
/// evidence, and every subjective item is laid with an interpretation and
/// fresh evidence (waived items aside).
pub proof fn release_condition(g: GoalV)
    ensures
        (gate_reasons(g).len() == 0) == releasable(g),
{
    lemma_items_reasons_empty(g, g.items);
}

fn is_fresh(goal: &Goal, item: &Item) -> (r: bool)
    ensures
        r == fresh(goal@, item@),
{
    let mut k: usize = 0;
    while k < goal.evidence.len()
        invariant
            k <= goal.evidence@.len(),
            goal@.evidence.len() == goal.evidence@.len(),
            forall|j: int| 0 <= j < k ==> !#[trigger] counts_for(goal@.evidence[j], item@),
        decreases goal.evidence@.len() - k,
    {
        let e = &goal.evidence[k];
        if e.against_version >= item.last_edited_version && crate::text::same(
            e.item_id.as_str(),
            item.id.as_str(),
        ) {
            assert(counts_for(goal@.evidence[k as int], item@));
            return true;
        }
        k = k + 1;
    }
    false
}

fn reason(prefix: &str, claim: &String) -> (r: String)
    ensures
        r@ == quoted(prefix@, claim@),
{
    let mut s = crate::text::owned(prefix);
    s.append(claim.as_str());
    s.append("\"");
    s
}

fn push_item_reasons(goal: &Goal, item: &Item, out: &mut Vec<String>)
    ensures
        views(final(out)@) == views(old(out)@)
            + item_reasons(goal@, item@),
{
    let ghost before = views(out@);
    if item.status == ItemStatus::Waived {
        assert(views(out@) =~= before + item_reasons(goal@, item@));
        return ;
    }
    let fresh = is_fresh(goal, item);
    match &item.class {
        Class::Objective { .. } => {
            if item.status != ItemStatus::Passed {
                out.push(reason("objective item not passed: \"", &item.claim));
            } else if !fresh {
                out.push(
                    reason(
                        "objective item passed but its evidence predates the latest edit: \"",
                        &item.claim,
                    ),
                );
            }
        },
        Class::Subjective => {
            if item.status == ItemStatus::Laid {
                if item.interpretation.is_none() {
                    out.push(reason("subjective item has no interpretation: \"", &item.claim));
                }
                if !fresh {
                    out.push(
                        reason(
                            "subjective item's evidence predates the latest edit: \"",
                            &item.claim,
                        ),
                    );
                }
            } else {
                out.push(
                    reason(
                        "subjective item not laid (needs interpretation + evidence): \"",
                        &item.claim,
                    ),
                );
            }
        },
    }
    assert(views(out@) =~= before + item_reasons(goal@, item@));
}

/// Evaluate the release condition of `goal`.
pub fn evaluate(goal: &Goal) -> (r: GateOutcome)
    ensures
        views(r.reasons@) == gate_reasons(goal@),
        r.release == (gate_reasons(goal@).len() == 0),
        r.release == releasable(goal@),
{
    let mut reasons: Vec<String> = Vec::new();
    if goal.items.len() == 0 {
        reasons.push(crate::text::owned("contract is empty — lay out verification items first"));
    }
    let ghost head = views(reasons@);
    assert(head =~= (if goal@.items.len() == 0 {
        seq![empty_reason()]
    } else {
        seq![]
    }));
    let mut k: usize = 0;
    while k < goal.items.len()
        invariant
            k <= goal.items@.len(),
            goal@.items.len() == goal.items@.len(),
            views(reasons@) == head + items_reasons(
                goal@,
                goal@.items.take(k as int),
            ),
        decreases goal.items@.len() - k,
    {
        push_item_reasons(goal, &goal.items[k], &mut reasons);
        proof {
            let t = goal@.items.take(k + 1);
            assert(t.drop_last() =~= goal@.items.take(k as int));
            assert(t.last() == goal.items@[k as int]@);
            assert(views(reasons@) =~= head + items_reasons(goal@, t));
        }
        k = k + 1;
    }
    assert(goal@.items.take(k as int) =~= goal@.items);
    if goal.agent_synced_version != goal.contract_version {
        let mut s = crate::text::owned("contract moved: you are synced to v");
        push_decimal(&mut s, goal.agent_synced_version);
        s.append(", latest is v");
        push_decimal(&mut s, goal.contract_version);
        s.append(" — fetch the delta and reconcile");
        let ghost before = views(reasons@);
        reasons.push(s);
        assert(views(reasons@) =~= before.push(
            moved_reason(goal.agent_synced_version, goal.contract_version),
        ));
    }
    assert(views(reasons@) =~= gate_reasons(goal@));
    proof {
        release_condition(goal@);
    }
    GateOutcome { release: reasons.len() == 0, reasons }
}

} // verus!
