//! The write-time rules of one goal's contract, as transitions of a goal.
//!
//! Every transition is all-or-nothing: a refused write leaves the goal exactly
//! as it was. The rules enforced here, not in the UI or in prompts:
//! - default subjective; an agent cannot claim a human promoted an item
//! - an agent cannot lay user-origin items, nor edit user-authored ones
//! - evidence must carry provenance
//! - every add, edit and delete moves the yardstick (the contract version);
//!   evidence, interpretations and oracle reports never do

use vstd::prelude::*;
use crate::types::DuplicateView;
use vstd::string::*;

use crate::seqs::{
    first_where, keep, lemma_first_where_found, lemma_first_where_none,
    lemma_keep_push,
};
use crate::text::{decimal, owned, push_decimal};
use crate::types::{
    lemma_views_push, lemma_views_update, lemma_views_empty, opt_text, user_authored, views, Actor, Class, ClassV, Event, EventKind,
    EventKindV, EventV, Evidence, EvidenceV, GateDecisionKind, Goal, GoalStatus, GoalV,
    Interpretation, InterpretationV, Item, ItemId, ItemStatus, ItemV, Origin, Pointer, PointerV,
    SessionBinding, SessionBindingV, WorkspaceFingerprint, duplicate_text, edited_after,
    item_has_id,
};

verus! {

#[derive(Debug)]
pub enum StoreError {
    GoalNotFound(String),
    ItemNotFound(String),
    Invalid(String),
}

/// A refusal as the contracts see it.
pub ghost enum Refusal {
    GoalNotFound(Seq<char>),
    ItemNotFound(Seq<char>),
    Invalid(Seq<char>),
}

impl View for StoreError {
    type V = Refusal;

    open spec fn view(&self) -> Refusal {
        match self {
            StoreError::GoalNotFound(s) => Refusal::GoalNotFound(s@),
            StoreError::ItemNotFound(s) => Refusal::ItemNotFound(s@),
            StoreError::Invalid(s) => Refusal::Invalid(s@),
        }
    }
}

pub open spec fn refusal_text(r: Refusal) -> Seq<char> {
    match r {
        Refusal::GoalNotFound(id) => "goal not found: "@ + id,
        Refusal::ItemNotFound(id) => "item not found: "@ + id,
        Refusal::Invalid(m) => "invalid operation: "@ + m,
    }
}

impl StoreError {
    /// The human-readable form of the refusal.
    pub fn message(&self) -> (r: String)
        ensures
            r@ == refusal_text(self@),
    {
        match self {
            StoreError::GoalNotFound(id) => {
                let mut s = owned("goal not found: ");
                s.append(id.as_str());
                s
            },
            StoreError::ItemNotFound(id) => {
                let mut s = owned("item not found: ");
                s.append(id.as_str());
                s
            },
            StoreError::Invalid(m) => {
                let mut s = owned("invalid operation: ");
                s.append(m.as_str());
                s
            },
        }
    }
}

/// The refusal a result carries, if any.
pub open spec fn refusal_of<T>(r: Result<T, StoreError>) -> Option<Refusal> {
    match r {
        Ok(_) => None,
        Err(e) => Some(e@),
    }
}

/// Input for laying a new contract item. `class: None` means subjective.
#[derive(Debug, Clone)]
pub struct NewItem {
    pub claim: String,
    pub check: String,
    pub class: Option<Class>,
    pub interpretation: Option<String>,
    pub origin: Origin,
}

#[derive(Debug, Clone)]
pub struct NewEvidence {
    pub conclusion: String,
    pub basis: String,
    pub provenance: Vec<Pointer>,
    pub workspace: WorkspaceFingerprint,
}

/// A change to an item's yardstick: each present field replaces the old one.
#[derive(Debug, Clone)]
pub struct ItemEdit {
    pub claim: Option<String>,
    pub check: Option<String>,
    pub class: Option<Class>,
}

// ---------- messages ----------

pub open spec fn msg_promotion() -> Seq<char> {
    "an agent cannot claim a human promoted this item to objective"@
}

pub open spec fn msg_agent_origin() -> Seq<char> {
    "an agent cannot lay items with a user origin — that would corrupt the core-bet instrumentation"@
}

pub open spec fn msg_agent_edit() -> Seq<char> {
    "agents must not edit human-authored items; update your interpretation instead"@
}

pub open spec fn msg_provenance() -> Seq<char> {
    "evidence must carry at least one provenance pointer (file/command/url)"@
}

pub open spec fn msg_not_objective() -> Seq<char> {
    "oracle results apply only to objective items; subjective items pass only on a human ruling"@
}

pub open spec fn msg_exhausted() -> Seq<char> {
    "the contract version cannot move any further"@
}

pub open spec fn msg_reconcile_ahead(to: u64, latest: u64) -> Seq<char> {
    "cannot reconcile to v"@ + decimal(to as nat) + ": latest is v"@ + decimal(latest as nat)
}

pub open spec fn msg_reconcile_back(synced: u64) -> Seq<char> {
    "cannot reconcile backwards: already synced to v"@ + decimal(synced as nat)
}

// ---------- laying items ----------

pub open spec fn class_of(n: NewItem) -> ClassV {
    match n.class {
        Some(c) => c@,
        None => ClassV::Subjective,
    }
}

/// An agent claiming a human promoted the item.
pub open spec fn false_promotion(c: ClassV, actor: Actor) -> bool {
    actor == Actor::Agent && (c matches ClassV::Objective { promoted_by, .. } && promoted_by
        == Actor::Human)
}

pub open spec fn new_item_refusal(n: NewItem, actor: Actor) -> Option<Seq<char>> {
    if false_promotion(class_of(n), actor) {
        Some(msg_promotion())
    } else if actor == Actor::Agent && user_authored(n.origin@) {
        Some(msg_agent_origin())
    } else {
        None
    }
}

/// The refusal of the first item that breaks a rule, if any.
pub open spec fn lay_refusal(items: Seq<NewItem>, actor: Actor) -> Option<Seq<char>>
    decreases items.len(),
{
    if items.len() == 0 {
        None
    } else {
        match lay_refusal(items.drop_last(), actor) {
            Some(m) => Some(m),
            None => new_item_refusal(items.last(), actor),
        }
    }
}

pub open spec fn first_history(text: Option<Seq<char>>, v: u64, at: u64) -> Seq<InterpretationV> {
    match text {
        Some(t) => seq![InterpretationV { text: t, against_version: v, at }],
        None => seq![],
    }
}

/// `g` with one more item, laid as version `contract_version + 1`.
pub open spec fn with_new_item(g: GoalV, n: NewItem, actor: Actor, id: Seq<char>, at: u64) -> GoalV {
    let v = (g.contract_version + 1) as u64;
    GoalV {
        contract_version: v,
        last_human_edit_version: if actor == Actor::Human {
            v
        } else {
            g.last_human_edit_version
        },
        items: g.items.push(
            ItemV {
                id,
                claim: n.claim@,
                check: n.check@,
                class: class_of(n),
                interpretation: opt_text(n.interpretation),
                interpretation_history: first_history(opt_text(n.interpretation), v, at),
                status: ItemStatus::Open,
                evidence_ids: seq![],
                origin: n.origin@,
                added_in_version: v,
                last_edited_version: v,
            },
        ),
        events: g.events.push(
            EventV {
                at,
                kind: EventKindV::ContractEdited {
                    item_id: id,
                    by: actor,
                    version_after: v,
                    after_drill_down: false,
                },
            },
        ),
        ..g
    }
}

/// `g` with `items` laid in order under the ids `ids`.
pub open spec fn with_new_items(
    g: GoalV,
    items: Seq<NewItem>,
    actor: Actor,
    ids: Seq<Seq<char>>,
    at: u64,
) -> GoalV
    decreases items.len(),
{
    if items.len() == 0 || ids.len() != items.len() {
        g
    } else {
        with_new_item(
            with_new_items(g, items.drop_last(), actor, ids.drop_last(), at),
            items.last(),
            actor,
            ids.last(),
            at,
        )
    }
}

/// Laying `items`: refused as a whole if any one breaks a rule.
pub open spec fn laid(g: GoalV, items: Seq<NewItem>, actor: Actor, ids: Seq<Seq<char>>, at: u64) -> Result<
    GoalV,
    Refusal,
> {
    if g.contract_version + items.len() > u64::MAX {
        Err(Refusal::Invalid(msg_exhausted()))
    } else {
        match lay_refusal(items, actor) {
            Some(m) => Err(Refusal::Invalid(m)),
            None => Ok(with_new_items(g, items, actor, ids, at)),
        }
    }
}

/// Laying items moves the version by their number and touches nothing but
/// the items, the log and the yardstick versions.
pub proof fn lemma_with_new_items(
    g: GoalV,
    items: Seq<NewItem>,
    actor: Actor,
    ids: Seq<Seq<char>>,
    at: u64,
)
    requires
        ids.len() == items.len(),
        g.contract_version + items.len() <= u64::MAX,
    ensures
        ({
            let h = with_new_items(g, items, actor, ids, at);
            &&& h.id == g.id
            &&& h.title == g.title
            &&& h.status == g.status
            &&& h.agent_synced_version == g.agent_synced_version
            &&& h.contract_version == g.contract_version + items.len()
            &&& h.sessions == g.sessions
            &&& h.evidence == g.evidence
            &&& h.project_dir == g.project_dir
            &&& h.watching == g.watching
            &&& h.auto_session == g.auto_session
            &&& h.created_at == g.created_at
            &&& h.items.len() == g.items.len() + items.len()
            &&& h.items.take(g.items.len() as int) == g.items
            &&& h.events.len() == g.events.len() + items.len()
            &&& h.events.take(g.events.len() as int) == g.events
            &&& (actor == Actor::Agent ==> h.last_human_edit_version == g.last_human_edit_version)
            &&& (actor == Actor::Human && items.len() > 0 ==> h.last_human_edit_version
                == h.contract_version)
            &&& (items.len() == 0 ==> h == g)
        }),
    decreases items.len(),
{
    if items.len() > 0 {
        let n = items.len() - 1;
        lemma_with_new_items(g, items.drop_last(), actor, ids.drop_last(), at);
        let h0 = with_new_items(g, items.drop_last(), actor, ids.drop_last(), at);
        let h = with_new_items(g, items, actor, ids, at);
        assert(h == with_new_item(h0, items.last(), actor, ids.last(), at));
        assert(h.items.take(g.items.len() as int) =~= g.items) by {
            assert(h.items == h0.items.push(h.items.last()));
            assert(h0.items.take(g.items.len() as int) =~= g.items);
        }
        assert(h.events.take(g.events.len() as int) =~= g.events) by {
            assert(h0.events.take(g.events.len() as int) =~= g.events);
        }
    }
}

// ---------- editing and deleting ----------

pub open spec fn edited_item(it: ItemV, edit: ItemEdit, v: u64) -> ItemV {
    ItemV {
        claim: match edit.claim {
            Some(c) => c@,
            None => it.claim,
        },
        check: match edit.check {
            Some(c) => c@,
            None => it.check,
        },
        class: match edit.class {
            Some(c) => c@,
            None => it.class,
        },
        status: ItemStatus::Open,
        last_edited_version: v,
        ..it
    }
}

/// Moving one item's yardstick. Any edit reopens the item: prior evidence
/// and passes were against the old yardstick.
pub open spec fn edited(
    g: GoalV,
    item_id: Seq<char>,
    edit: ItemEdit,
    actor: Actor,
    after_drill_down: bool,
    at: u64,
) -> Result<GoalV, Refusal> {
    if g.contract_version == u64::MAX {
        Err(Refusal::Invalid(msg_exhausted()))
    } else {
        match first_where(g.items, item_has_id(item_id)) {
            None => Err(Refusal::ItemNotFound(item_id)),
            Some(k) => {
                let it = g.items[k];
                if actor == Actor::Agent && user_authored(it.origin) {
                    Err(Refusal::Invalid(msg_agent_edit()))
                } else if (edit.class matches Some(c) && false_promotion(c@, actor)) {
                    Err(Refusal::Invalid(msg_promotion()))
                } else {
                    let v = (g.contract_version + 1) as u64;
                    Ok(
                        GoalV {
                            contract_version: v,
                            last_human_edit_version: if actor == Actor::Human {
                                v
                            } else {
                                g.last_human_edit_version
                            },
                            items: g.items.update(k, edited_item(it, edit, v)),
                            events: g.events.push(
                                EventV {
                                    at,
                                    kind: EventKindV::ContractEdited {
                                        item_id: it.id,
                                        by: actor,
                                        version_after: v,
                                        after_drill_down,
                                    },
                                },
                            ),
                            ..g
                        },
                    )
                }
            },
        }
    }
}

pub open spec fn evidence_not_for(id: Seq<char>) -> spec_fn(EvidenceV) -> bool {
    |e: EvidenceV| e.item_id != id
}

/// The human taking an item out of the contract, evidence and all.
pub open spec fn deleted(g: GoalV, item_id: Seq<char>, at: u64) -> Result<GoalV, Refusal> {
    if g.contract_version == u64::MAX {
        Err(Refusal::Invalid(msg_exhausted()))
    } else {
        match first_where(g.items, item_has_id(item_id)) {
            None => Err(Refusal::ItemNotFound(item_id)),
            Some(k) => {
                let it = g.items[k];
                let v = (g.contract_version + 1) as u64;
                Ok(
                    GoalV {
                        contract_version: v,
                        last_human_edit_version: v,
                        items: g.items.remove(k),
                        evidence: keep(g.evidence, evidence_not_for(item_id)),
                        events: g.events.push(
                            EventV {
                                at,
                                kind: EventKindV::ItemDeleted {
                                    item_id: it.id,
                                    claim: it.claim,
                                    version_after: v,
                                },
                            },
                        ),
                        ..g
                    },
                )
            },
        }
    }
}

// ---------- filling items in ----------

/// The agent recording how it reads an item.
pub open spec fn interpreted(g: GoalV, item_id: Seq<char>, text: Seq<char>, at: u64) -> Result<
    GoalV,
    Refusal,
> {
    match first_where(g.items, item_has_id(item_id)) {
        None => Err(Refusal::ItemNotFound(item_id)),
        Some(k) => {
            let it = g.items[k];
            Ok(
                GoalV {
                    items: g.items.update(
                        k,
                        ItemV {
                            interpretation: Some(text),
                            interpretation_history: it.interpretation_history.push(
                                InterpretationV {
                                    text,
                                    against_version: g.contract_version,
                                    at,
                                },
                            ),
                            ..it
                        },
                    ),
                    ..g
                },
            )
        },
    }
}

/// A subjective item with an interpretation becomes laid once evidence arrives.
pub open spec fn status_after_evidence(it: ItemV) -> ItemStatus {
    if it.class is Subjective && it.status == ItemStatus::Open && it.interpretation is Some {
        ItemStatus::Laid
    } else {
        it.status
    }
}

/// Attaching evidence `eid` to an item, stamped with the current version.
pub open spec fn with_evidence(
    g: GoalV,
    item_id: Seq<char>,
    new: NewEvidence,
    eid: Seq<char>,
    at: u64,
) -> Result<GoalV, Refusal> {
    if new.provenance@.len() == 0 {
        Err(Refusal::Invalid(msg_provenance()))
    } else {
        match first_where(g.items, item_has_id(item_id)) {
            None => Err(Refusal::ItemNotFound(item_id)),
            Some(k) => {
                let it = g.items[k];
                Ok(
                    GoalV {
                        items: g.items.update(
                            k,
                            ItemV {
                                evidence_ids: it.evidence_ids.push(eid),
                                status: status_after_evidence(it),
                                ..it
                            },
                        ),
                        evidence: g.evidence.push(
                            EvidenceV {
                                id: eid,
                                item_id: it.id,
                                conclusion: new.conclusion@,
                                basis: new.basis@,
                                provenance: views(new.provenance@),
                                workspace: new.workspace@,
                                against_version: g.contract_version,
                                captured_at: at,
                            },
                        ),
                        events: g.events.push(
                            EventV {
                                at,
                                kind: EventKindV::EvidenceAdded { evidence_id: eid, item_id: it.id },
                            },
                        ),
                        ..g
                    },
                )
            },
        }
    }
}

/// The agent reporting an oracle run on an objective item.
pub open spec fn oracle_reported(g: GoalV, item_id: Seq<char>, passed: bool) -> Result<
    GoalV,
    Refusal,
> {
    match first_where(g.items, item_has_id(item_id)) {
        None => Err(Refusal::ItemNotFound(item_id)),
        Some(k) => {
            let it = g.items[k];
            if !(it.class is Objective) {
                Err(Refusal::Invalid(msg_not_objective()))
            } else {
                Ok(
                    GoalV {
                        items: g.items.update(
                            k,
                            ItemV {
                                status: if passed {
                                    ItemStatus::Passed
                                } else {
                                    ItemStatus::Open
                                },
                                ..it
                            },
                        ),
                        ..g
                    },
                )
            }
        },
    }
}

pub open spec fn item_ids(items: Seq<ItemV>) -> Seq<Seq<char>> {
    items.map_values(|i: ItemV| i.id)
}

/// The agent declaring it has read and aligned to `to`.
pub open spec fn reconciled(
    g: GoalV,
    session_id: Seq<char>,
    to: u64,
    reinterpreted: Seq<Seq<char>>,
    at: u64,
) -> Result<GoalV, Refusal> {
    if to > g.contract_version {
        Err(Refusal::Invalid(msg_reconcile_ahead(to, g.contract_version)))
    } else if to < g.agent_synced_version {
        Err(Refusal::Invalid(msg_reconcile_back(g.agent_synced_version)))
    } else {
        Ok(
            GoalV {
                agent_synced_version: to,
                events: g.events.push(
                    EventV {
                        at,
                        kind: EventKindV::Reconcile {
                            session_id,
                            from_version: g.agent_synced_version,
                            to_version: to,
                            changed_items: item_ids(
                                keep(g.items, edited_after(g.agent_synced_version)),
                            ),
                            reinterpreted_items: reinterpreted,
                        },
                    },
                ),
                ..g
            },
        )
    }
}

/// Recording one gate answer. A release parks the goal; a block revives a
/// goal whose turn had been accounted as ended (the session came back).
pub open spec fn gate_recorded(
    g: GoalV,
    decision: GateDecisionKind,
    reason: Option<Seq<char>>,
    at: u64,
) -> GoalV {
    GoalV {
        status: if decision == GateDecisionKind::Release {
            GoalStatus::AwaitingRulings
        } else if g.status == GoalStatus::TurnEndedUnmet {
            GoalStatus::Running
        } else {
            g.status
        },
        events: g.events.push(
            EventV {
                at,
                kind: EventKindV::GateDecision {
                    decision,
                    reason,
                    against_version: g.contract_version,
                },
            },
        ),
        ..g
    }
}

pub open spec fn binding_for(sid: Seq<char>) -> spec_fn(SessionBindingV) -> bool {
    |b: SessionBindingV| b.session_id == sid
}

/// Binding a session to the goal. An existing binding keeps what it knew:
/// only a pane that is now known is recorded on it.
pub open spec fn bound(
    g: GoalV,
    agent: Seq<char>,
    session_id: Seq<char>,
    pane: Option<u32>,
    at: u64,
) -> GoalV {
    match first_where(g.sessions, binding_for(session_id)) {
        Some(k) => match pane {
            Some(p) => GoalV {
                sessions: g.sessions.update(k, SessionBindingV { pane: Some(p), ..g.sessions[k] }),
                ..g
            },
            None => g,
        },
        None => GoalV {
            sessions: g.sessions.push(
                SessionBindingV { agent, session_id, bound_at: at, pane },
            ),
            ..g
        },
    }
}

/// The human opening the original behind an evidence pointer: logged, nothing else.
pub open spec fn drilled_down(g: GoalV, evidence_id: Seq<char>, pointer: PointerV, at: u64) -> GoalV {
    GoalV {
        events: g.events.push(EventV { at, kind: EventKindV::DrillDown { evidence_id, pointer } }),
        ..g
    }
}

/// A session ended while the goal was still running: the turn is accounted.
pub open spec fn turn_ended(g: GoalV, at: u64) -> GoalV {
    if g.status == GoalStatus::Running {
        GoalV {
            status: GoalStatus::TurnEndedUnmet,
            events: g.events.push(EventV { at, kind: EventKindV::TurnEnded { met: false } }),
            ..g
        }
    } else {
        g
    }
}

/// The index of the first item with `id`.
fn find_item(items: &Vec<Item>, id: &str) -> (r: Option<usize>)
    ensures
        match r {
            Some(k) => k < items@.len() && first_where(views(items@), item_has_id(id@)) == Some(
                k as int,
            ),
            None => first_where(views(items@), item_has_id(id@)) is None,
        },
{
    let ghost s = views(items@);
    let mut k: usize = 0;
    while k < items.len()
        invariant
            k <= items@.len(),
            s == views(items@),
            forall|j: int| 0 <= j < k ==> !(#[trigger] item_has_id(id@)(s[j])),
        decreases items@.len() - k,
    {
        if crate::text::same(items[k].id.as_str(), id) {
            proof {
                lemma_first_where_found(s, item_has_id(id@), k as int);
            }
            return Some(k);
        }
        k = k + 1;
    }
    proof {
        lemma_first_where_none(s, item_has_id(id@));
    }
    None
}

fn new_item_check(n: &NewItem, actor: Actor) -> (r: Option<String>)
    ensures
        match new_item_refusal(*n, actor) {
            Some(m) => r matches Some(x) && x@ == m,
            None => r is None,
        },
{
    let promoted_by_human = match &n.class {
        Some(Class::Objective { promoted_by, .. }) => *promoted_by == Actor::Human,
        _ => false,
    };
    if actor == Actor::Agent && promoted_by_human {
        return Some(owned("an agent cannot claim a human promoted this item to objective"));
    }
    if actor == Actor::Agent && n.origin.is_user_authored() {
        return Some(
            owned(
                "an agent cannot lay items with a user origin — that would corrupt the core-bet instrumentation",
            ),
        );
    }
    None
}

fn first_history_exec(text: &Option<String>, v: u64, at: u64) -> (r: Vec<Interpretation>)
    ensures
        views(r@) == first_history(opt_text(*text), v, at),
{
    let mut h: Vec<Interpretation> = Vec::new();
    match text {
        Some(t) => {
            h.push(Interpretation { text: t.clone(), against_version: v, at });
            assert(views(h@) =~= first_history(opt_text(*text), v, at));
        },
        None => {
            assert(views(h@) =~= first_history(opt_text(*text), v, at));
        },
    }
    h
}

impl Goal {
    fn push_event(&mut self, kind: EventKind, at: u64)
        ensures
            final(self)@ == (GoalV {
                events: old(self)@.events.push(EventV { at, kind: kind@ }),
                ..old(self)@
            }),
    {
        self.events.push(Event { at, kind });
        assert(self@.events =~= old(self)@.events.push(EventV { at, kind: kind@ }));
    }

    /// Lay `items` under the ids `ids`, each as its own contract version.
    pub fn apply_lay(&mut self, items: &Vec<NewItem>, actor: Actor, ids: &Vec<String>, at: u64) -> (r:
        Result<(), StoreError>)
        requires
            ids@.len() == items@.len(),
        ensures
            match laid(old(self)@, items@, actor, views(ids@), at) {
                Ok(g) => r is Ok && final(self)@ == g,
                Err(e) => refusal_of(r) == Some(e) && final(self)@ == old(self)@,
            },
    {
        if self.contract_version > u64::MAX - (items.len() as u64) {
            return Err(StoreError::Invalid(owned("the contract version cannot move any further")));
        }
        let mut k: usize = 0;
        while k < items.len()
            invariant
                k <= items@.len(),
                self@ == old(self)@,
                old(self)@.contract_version + items@.len() <= u64::MAX,
                lay_refusal(items@.take(k as int), actor) is None,
            decreases items@.len() - k,
        {
            proof {
                assert(items@.take(k + 1).drop_last() =~= items@.take(k as int));
            }
            match new_item_check(&items[k], actor) {
                Some(m) => {
                    proof {
                        lemma_refusal_prefix(items@, actor, k + 1);
                        assert(lay_refusal(items@, actor) == Some(m@));
                        assert(laid(old(self)@, items@, actor, views(ids@), at) == Err::<GoalV, Refusal>(
                            Refusal::Invalid(m@),
                        ));
                    }
                    return Err(StoreError::Invalid(m));
                },
                None => {},
            }
            k = k + 1;
        }
        assert(items@.take(k as int) =~= items@);
        let ghost start = self@;
        let ghost vids = views(ids@);
        let mut k: usize = 0;
        while k < items.len()
            invariant
                k <= items@.len(),
                ids@.len() == items@.len(),
                vids == views(ids@),
                start.contract_version + items@.len() <= u64::MAX,
                self@ == with_new_items(start, items@.take(k as int), actor, vids.take(k as int), at),
                self.contract_version == start.contract_version + k,
            decreases items@.len() - k,
        {
            let n = &items[k];
            let v = self.contract_version + 1;
            let ghost before = self@;
            self.contract_version = v;
            if actor == Actor::Human {
                self.last_human_edit_version = v;
            }
            let id = ids[k].clone();
            let item = Item {
                id: id.clone(),
                claim: n.claim.clone(),
                check: n.check.clone(),
                class: match &n.class {
                    Some(c) => c.duplicate(),
                    None => Class::Subjective,
                },
                interpretation: duplicate_text(&n.interpretation),
                interpretation_history: first_history_exec(&n.interpretation, v, at),
                status: ItemStatus::Open,
                evidence_ids: Vec::new(),
                origin: n.origin.duplicate(),
                added_in_version: v,
                last_edited_version: v,
            };
            proof {
                lemma_views_empty(item.evidence_ids@);
            }
            let ghost items0 = self.items@;
            let ghost it = item;
            self.items.push(item);
            let ev = Event {
                at,
                kind: EventKind::ContractEdited {
                    item_id: id,
                    by: actor,
                    version_after: v,
                    after_drill_down: false,
                },
            };
            let ghost evs0 = self.events@;
            let ghost evg = ev;
            self.events.push(ev);
            proof {
                lemma_views_push(items0, it);
                lemma_views_push(evs0, evg);
                let tk = items@.take(k + 1);
                let ik = vids.take(k + 1);
                assert(tk.drop_last() =~= items@.take(k as int));
                assert(ik.drop_last() =~= vids.take(k as int));
                assert(tk.last() == items@[k as int]);
                assert(ik.last() == vids[k as int]);
                let want = with_new_item(before, items@[k as int], actor, vids[k as int], at);
                assert(self@.items =~= want.items);
                assert(self@.events =~= want.events);
                assert(self@.evidence =~= want.evidence);
                assert(self@ == want);
            }
            k = k + 1;
        }
        assert(items@.take(k as int) =~= items@);
        assert(vids.take(k as int) =~= vids);
        Ok(())
    }

    /// Move one item's yardstick.
    pub fn apply_edit(
        &mut self,
        item_id: &str,
        edit: ItemEdit,
        actor: Actor,
        after_drill_down: bool,
        at: u64,
    ) -> (r: Result<(), StoreError>)
        ensures
            match edited(old(self)@, item_id@, edit, actor, after_drill_down, at) {
                Ok(g) => r is Ok && final(self)@ == g,
                Err(e) => refusal_of(r) == Some(e) && final(self)@ == old(self)@,
            },
    {
        if self.contract_version == u64::MAX {
            return Err(StoreError::Invalid(owned("the contract version cannot move any further")));
        }
        let k = match find_item(&self.items, item_id) {
            None => {
                return Err(StoreError::ItemNotFound(owned(item_id)));
            },
            Some(k) => k,
        };
        assert(self@.items[k as int] == self.items@[k as int]@);
        assert(first_where(self@.items, item_has_id(item_id@)) == Some(k as int));
        if actor == Actor::Agent && self.items[k].origin.is_user_authored() {
            return Err(
                StoreError::Invalid(
                    owned(
                        "agents must not edit human-authored items; update your interpretation instead",
                    ),
                ),
            );
        }
        let promoted_by_human = match &edit.class {
            Some(Class::Objective { promoted_by, .. }) => *promoted_by == Actor::Human,
            _ => false,
        };
        if actor == Actor::Agent && promoted_by_human {
            return Err(
                StoreError::Invalid(
                    owned("an agent cannot claim a human promoted this item to objective"),
                ),
            );
        }
        let ghost before = self@;
        let v = self.contract_version + 1;
        self.contract_version = v;
        if actor == Actor::Human {
            self.last_human_edit_version = v;
        }
        let ItemEdit { claim, check, class } = edit;
        let id = self.items[k].id.clone();
        let mut item = self.items[k].duplicate();
        match claim {
            Some(c) => {
                item.claim = c;
            },
            None => {},
        }
        match check {
            Some(c) => {
                item.check = c;
            },
            None => {},
        }
        match class {
            Some(c) => {
                item.class = c;
            },
            None => {},
        }
        item.status = ItemStatus::Open;
        item.last_edited_version = v;
        assert(item@ == edited_item(before.items[k as int], edit, v));
        let ghost items0 = self.items@;
        let ghost it = item;
        self.items.set(k, item);
        proof {
            lemma_views_update(items0, k as int, it);
        }
        self.push_event(
            EventKind::ContractEdited { item_id: id, by: actor, version_after: v, after_drill_down },
            at,
        );
        proof {
            let want = edited(before, item_id@, edit, actor, after_drill_down, at);
            let v2 = (before.contract_version + 1) as u64;
            assert(v == v2);
            assert(self@.items =~= before.items.update(k as int, edited_item(before.items[k as int], edit, v)));
            assert(self@.items =~= want->Ok_0.items);
        }
        Ok(())
    }

    /// Take an item out of the contract, evidence and all.
    pub fn apply_delete(&mut self, item_id: &str, at: u64) -> (r: Result<(), StoreError>)
        ensures
            match deleted(old(self)@, item_id@, at) {
                Ok(g) => r is Ok && final(self)@ == g,
                Err(e) => refusal_of(r) == Some(e) && final(self)@ == old(self)@,
            },
    {
        if self.contract_version == u64::MAX {
            return Err(StoreError::Invalid(owned("the contract version cannot move any further")));
        }
        let k = match find_item(&self.items, item_id) {
            None => {
                return Err(StoreError::ItemNotFound(owned(item_id)));
            },
            Some(k) => k,
        };
        assert(first_where(self@.items, item_has_id(item_id@)) == Some(k as int));
        let ghost before = self@;
        let ghost old_items = self.items@;
        let v = self.contract_version + 1;
        self.contract_version = v;
        self.last_human_edit_version = v;
        let removed = self.items.remove(k);
        proof {
            old_items.remove_ensures(k as int);
            before.items.remove_ensures(k as int);
            assert(self@.items =~= before.items.remove(k as int));
        }
        let mut kept: Vec<Evidence> = Vec::new();
        let mut j: usize = 0;
        while j < self.evidence.len()
            invariant
                j <= self.evidence@.len(),
                before.evidence.len() == self.evidence@.len(),
                self@.evidence == before.evidence,
                views(kept@) == keep(
                    before.evidence.take(j as int),
                    evidence_not_for(item_id@),
                ),
            decreases self.evidence@.len() - j,
        {
            proof {
                lemma_keep_push(
                    before.evidence.take(j as int),
                    evidence_not_for(item_id@),
                    before.evidence[j as int],
                );
                assert(before.evidence.take(j as int).push(before.evidence[j as int])
                    =~= before.evidence.take(j + 1));
            }
            let ghost prev = views(kept@);
            if !crate::text::same(self.evidence[j].item_id.as_str(), item_id) {
                kept.push(self.evidence[j].duplicate());
                assert(views(kept@) =~= prev.push(before.evidence[j as int]));
            }
            j = j + 1;
        }
        assert(before.evidence.take(j as int) =~= before.evidence);
        self.evidence = kept;
        self.push_event(
            EventKind::ItemDeleted { item_id: removed.id, claim: removed.claim, version_after: v },
            at,
        );
        proof {
            let want = deleted(before, item_id@, at);
            assert(self@.items =~= want->Ok_0.items);
        }
        Ok(())
    }
}

impl Goal {
    /// Record the agent's reading of an item.
    pub fn apply_interpretation(&mut self, item_id: &str, text: &str, at: u64) -> (r: Result<
        (),
        StoreError,
    >)
        ensures
            match interpreted(old(self)@, item_id@, text@, at) {
                Ok(g) => r is Ok && final(self)@ == g,
                Err(e) => refusal_of(r) == Some(e) && final(self)@ == old(self)@,
            },
    {
        let k = match find_item(&self.items, item_id) {
            None => {
                return Err(StoreError::ItemNotFound(owned(item_id)));
            },
            Some(k) => k,
        };
        let ghost before = self@;
        let t = owned(text);
        let mut item = self.items[k].duplicate();
        item.interpretation = Some(t.clone());
        let entry = Interpretation { text: t, against_version: self.contract_version, at };
        let ghost hist = item.interpretation_history@;
        let ghost e = entry;
        item.interpretation_history.push(entry);
        proof {
            lemma_views_push(hist, e);
        }
        let ghost items0 = self.items@;
        let ghost it = item;
        self.items.set(k, item);
        proof {
            lemma_views_update(items0, k as int, it);
            let want = interpreted(before, item_id@, text@, at);
            assert(self@.items =~= want->Ok_0.items);
        }
        Ok(())
    }

    /// Attach evidence `eid` to an item, stamped against the current version.
    pub fn apply_evidence(&mut self, item_id: &str, new: NewEvidence, eid: String, at: u64) -> (r:
        Result<(), StoreError>)
        ensures
            match with_evidence(old(self)@, item_id@, new, eid@, at) {
                Ok(g) => r is Ok && final(self)@ == g,
                Err(e) => refusal_of(r) == Some(e) && final(self)@ == old(self)@,
            },
    {
        if new.provenance.len() == 0 {
            return Err(
                StoreError::Invalid(
                    owned("evidence must carry at least one provenance pointer (file/command/url)"),
                ),
            );
        }
        let k = match find_item(&self.items, item_id) {
            None => {
                return Err(StoreError::ItemNotFound(owned(item_id)));
            },
            Some(k) => k,
        };
        let ghost before = self@;
        let mut item = self.items[k].duplicate();
        let ghost ids0 = item.evidence_ids@;
        let e2 = eid.clone();
        let ghost e2v = e2;
        item.evidence_ids.push(e2);
        proof {
            lemma_views_push(ids0, e2v);
        }
        let laid_now = match &item.class {
            Class::Subjective => item.status == ItemStatus::Open && item.interpretation.is_some(),
            _ => false,
        };
        if laid_now {
            item.status = ItemStatus::Laid;
        }
        let owner = item.id.clone();
        let ghost items0 = self.items@;
        let ghost it = item;
        self.items.set(k, item);
        proof {
            lemma_views_update(items0, k as int, it);
        }
        let ghost nv = new;
        let NewEvidence { conclusion, basis, provenance, workspace } = new;
        let ev = Evidence {
            id: eid.clone(),
            item_id: owner.clone(),
            conclusion,
            basis,
            provenance,
            workspace,
            against_version: self.contract_version,
            captured_at: at,
        };
        let ghost evs0 = self.evidence@;
        let ghost evg = ev;
        self.evidence.push(ev);
        proof {
            lemma_views_push(evs0, evg);
        }
        self.push_event(EventKind::EvidenceAdded { evidence_id: eid, item_id: owner }, at);
        proof {
            let want = with_evidence(before, item_id@, nv, eid@, at);
            assert(self@.items =~= want->Ok_0.items);
            assert(self@.evidence =~= want->Ok_0.evidence);
        }
        Ok(())
    }

    /// Record an oracle run on an objective item.
    pub fn apply_oracle(&mut self, item_id: &str, passed: bool) -> (r: Result<(), StoreError>)
        ensures
            match oracle_reported(old(self)@, item_id@, passed) {
                Ok(g) => r is Ok && final(self)@ == g,
                Err(e) => refusal_of(r) == Some(e) && final(self)@ == old(self)@,
            },
    {
        let k = match find_item(&self.items, item_id) {
            None => {
                return Err(StoreError::ItemNotFound(owned(item_id)));
            },
            Some(k) => k,
        };
        assert(self@.items[k as int] == self.items@[k as int]@);
        let objective = match &self.items[k].class {
            Class::Objective { .. } => true,
            _ => false,
        };
        if !objective {
            return Err(
                StoreError::Invalid(
                    owned(
                        "oracle results apply only to objective items; subjective items pass only on a human ruling",
                    ),
                ),
            );
        }
        let ghost before = self@;
        let mut item = self.items[k].duplicate();
        item.status = if passed {
            ItemStatus::Passed
        } else {
            ItemStatus::Open
        };
        let ghost items0 = self.items@;
        let ghost it = item;
        self.items.set(k, item);
        proof {
            lemma_views_update(items0, k as int, it);
        }
        proof {
            let want = oracle_reported(before, item_id@, passed);
            assert(self@.items =~= want->Ok_0.items);
        }
        Ok(())
    }

    /// Declare alignment to version `to`.
    pub fn apply_reconcile(
        &mut self,
        session_id: &str,
        to: u64,
        reinterpreted: Vec<ItemId>,
        at: u64,
    ) -> (r: Result<(), StoreError>)
        ensures
            match reconciled(old(self)@, session_id@, to, views(reinterpreted@), at) {
                Ok(g) => r is Ok && final(self)@ == g,
                Err(e) => refusal_of(r) == Some(e) && final(self)@ == old(self)@,
            },
    {
        if to > self.contract_version {
            let mut m = owned("cannot reconcile to v");
            push_decimal(&mut m, to);
            m.append(": latest is v");
            push_decimal(&mut m, self.contract_version);
            return Err(StoreError::Invalid(m));
        }
        if to < self.agent_synced_version {
            let mut m = owned("cannot reconcile backwards: already synced to v");
            push_decimal(&mut m, self.agent_synced_version);
            return Err(StoreError::Invalid(m));
        }
        let from = self.agent_synced_version;
        let changed_refs = self.items_since(from);
        let mut changed: Vec<String> = Vec::new();
        let ghost all = views(changed_refs@);
        let mut j: usize = 0;
        while j < changed_refs.len()
            invariant
                j <= changed_refs@.len(),
                all == views(changed_refs@),
                views(changed@) == item_ids(all.take(j as int)),
            decreases changed_refs@.len() - j,
        {
            let ghost c0 = changed@;
            let id = changed_refs[j].id.clone();
            let ghost idv = id;
            changed.push(id);
            proof {
                lemma_views_push(c0, idv);
                assert(all.take(j + 1) =~= all.take(j as int).push(all[j as int]));
                assert(views(changed@) =~= item_ids(all.take(j + 1)));
            }
            j = j + 1;
        }
        assert(all.take(j as int) =~= all);
        let s = owned(session_id);
        self.agent_synced_version = to;
        self.push_event(
            EventKind::Reconcile {
                session_id: s,
                from_version: from,
                to_version: to,
                changed_items: changed,
                reinterpreted_items: reinterpreted,
            },
            at,
        );
        Ok(())
    }

    /// Record one gate answer.
    pub fn apply_gate_decision(
        &mut self,
        decision: GateDecisionKind,
        reason: Option<String>,
        at: u64,
    )
        ensures
            final(self)@ == gate_recorded(old(self)@, decision, opt_text(reason), at),
    {
        let against = self.contract_version;
        if decision == GateDecisionKind::Release {
            self.status = GoalStatus::AwaitingRulings;
        } else if self.status == GoalStatus::TurnEndedUnmet {
            self.status = GoalStatus::Running;
        }
        self.push_event(EventKind::GateDecision { decision, reason, against_version: against }, at);
    }

    /// Record the human opening the original behind an evidence pointer.
    pub fn apply_drill_down(&mut self, evidence_id: &str, pointer: Pointer, at: u64)
        ensures
            final(self)@ == drilled_down(old(self)@, evidence_id@, pointer@, at),
    {
        let e = owned(evidence_id);
        self.push_event(EventKind::DrillDown { evidence_id: e, pointer }, at);
    }

    /// Bind a session to this goal.
    pub fn apply_bind(&mut self, agent: &str, session_id: &str, pane: Option<u32>, at: u64)
        ensures
            final(self)@ == bound(
                old(self)@,
                agent@,
                session_id@,
                pane,
                at,
            ),
    {
        let ghost before = self@;
        let mut k: usize = 0;
        while k < self.sessions.len()
            invariant
                k <= self.sessions@.len(),
                self@.sessions.len() == self.sessions@.len(),
                self@ == before,
                before == old(self)@,
                forall|j: int|
                    0 <= j < k ==> !(#[trigger] binding_for(session_id@)(self@.sessions[j])),
            decreases self.sessions@.len() - k,
        {
            if crate::text::same(self.sessions[k].session_id.as_str(), session_id) {
                proof {
                    lemma_first_where_found(self@.sessions, binding_for(session_id@), k as int);
                }
                match pane {
                    Some(p) => {
                        let mut b = self.sessions[k].duplicate();
                        b.pane = Some(p);
                        let ghost s0 = self.sessions@;
                        let ghost bb = b;
                        self.sessions.set(k, b);
                        proof {
                            lemma_views_update(s0, k as int, bb);
                        }
                        assert(self@.sessions =~= bound(
                            before,
                            agent@,
                            session_id@,
                            pane,
                            at,
                        ).sessions);
                    },
                    None => {},
                }
                return ;
            }
            k = k + 1;
        }
        proof {
            lemma_first_where_none(self@.sessions, binding_for(session_id@));
        }
        let a = owned(agent);
        let s = owned(session_id);
        let b = SessionBinding { agent: a, session_id: s, bound_at: at, pane };
        let ghost s0 = self.sessions@;
        let ghost bb = b;
        self.sessions.push(b);
        proof {
            lemma_views_push(s0, bb);
        }
    }

    /// Account a turn that ended while the goal was running.
    pub fn apply_end_turn(&mut self, at: u64) -> (r: bool)
        ensures
            final(self)@ == turn_ended(old(self)@, at),
            r == (old(self)@.status == GoalStatus::Running),
    {
        if self.status == GoalStatus::Running {
            self.status = GoalStatus::TurnEndedUnmet;
            self.push_event(EventKind::TurnEnded { met: false }, at);
            true
        } else {
            false
        }
    }
}

proof fn lemma_refusal_prefix(items: Seq<NewItem>, actor: Actor, n: int)
    requires
        0 < n <= items.len(),
        lay_refusal(items.take(n - 1), actor) is None,
        new_item_refusal(items[n - 1], actor) is Some,
    ensures
        lay_refusal(items, actor) == new_item_refusal(items[n - 1], actor),
    decreases items.len(),
{
    if n == items.len() {
        assert(items.drop_last() =~= items.take(n - 1));
    } else {
        assert(items.drop_last().take(n - 1) =~= items.take(n - 1));
        assert(items.drop_last()[n - 1] == items[n - 1]);
        lemma_refusal_prefix(items.drop_last(), actor, n);
    }
}

} // verus!
