//! The domain: goals, their contract items, the evidence laid against them,
//! and the append-only event log that instruments the core bet. Each type is
//! seen by the contracts through a view in which every string is its
//! sequence of characters.

use vstd::prelude::*;

use crate::seqs::{
    count_where, first_where, keep, lemma_first_where_found, lemma_first_where_none, lemma_keep_len,
    lemma_keep_push,
};

verus! {

pub type GoalId = String;

pub type ItemId = String;

pub type EvidenceId = String;

pub type SessionId = String;

pub type Version = u64;

pub type UnixSeconds = u64;

/// The shape of a hyphenated version-4 UUID: 36 characters, lowercase hex
/// in groups of 8-4-4-4-12, the version digit 4.
pub open spec fn id_shaped(s: Seq<char>) -> bool {
    &&& s.len() == 36
    &&& forall|k: int|
        0 <= k < 36 ==> if k == 8 || k == 13 || k == 18 || k == 23 {
            s[k] == '-'
        } else {
            ('0' <= #[trigger] s[k] && s[k] <= '9') || ('a' <= s[k] && s[k] <= 'f')
        }
    &&& s[14] == '4'
}

/// A fresh random identifier: `uuid::Uuid::new_v4` in its hyphenated form,
/// 36 characters of lowercase hex in groups of 8-4-4-4-12, with the version
/// digit 4. Which identifier it is, is chance: nothing more is stated.
#[verifier::external_body]
pub fn new_id() -> (r: String)
    ensures
        id_shaped(r@),
{
    uuid::Uuid::new_v4().to_string()
}

/// Seconds since the Unix epoch, or 0 when the clock reads before it
/// (`SystemTime::now().duration_since(UNIX_EPOCH)`). Nothing is stated of its
/// value: it is the time.
#[verifier::external_body]
pub fn now() -> (r: UnixSeconds) {
    std::time::SystemTime::now().duration_since(std::time::UNIX_EPOCH).map(|d| d.as_secs()).unwrap_or(
        0,
    )
}

/// The views of the elements of `s`, in order.
pub open spec fn views<T: View>(s: Seq<T>) -> Seq<T::V> {
    s.map_values(|x: T| x@)
}

pub proof fn lemma_views_push<T: View>(s: Seq<T>, x: T)
    ensures
        views(s.push(x)) == views(s).push(x@),
{
    assert(views(s.push(x)) =~= views(s).push(x@));
}

pub proof fn lemma_views_update<T: View>(s: Seq<T>, i: int, x: T)
    requires
        0 <= i < s.len(),
    ensures
        views(s.update(i, x)) == views(s).update(i, x@),
{
    assert(views(s.update(i, x)) =~= views(s).update(i, x@));
}

pub proof fn lemma_views_empty<T: View>(s: Seq<T>)
    requires
        s.len() == 0,
    ensures
        views(s) == Seq::<T::V>::empty(),
{
    assert(views(s) =~= Seq::<T::V>::empty());
}

/// The character sequences of optional text.
pub open spec fn opt_text(o: Option<String>) -> Option<Seq<char>> {
    match o {
        Some(s) => Some(s@),
        None => None,
    }
}

/// A value whose copy agrees with it in every observable field.
pub trait DuplicateView: Sized + View {
    fn duplicate(&self) -> (r: Self)
        ensures
            r@ == self@,
    ;
}

impl DuplicateView for String {
    fn duplicate(&self) -> (r: Self) {
        self.clone()
    }
}

pub fn duplicate_text(o: &Option<String>) -> (r: Option<String>)
    ensures
        opt_text(r) == opt_text(*o),
{
    match o {
        Some(s) => Some(s.clone()),
        None => None,
    }
}

/// A copy of every element of `v`.
pub fn duplicate_all<T: DuplicateView>(v: &Vec<T>) -> (r: Vec<T>)
    ensures
        views(r@) == views(v@),
{
    let mut out: Vec<T> = Vec::new();
    for i in 0..v.len()
        invariant
            out@.len() == i,
            i <= v@.len(),
            forall|j: int| 0 <= j < i ==> out@[j]@ == v@[j]@,
    {
        out.push(v[i].duplicate());
    }
    assert(views(out@) =~= views(v@));
    out
}

#[derive(Debug, Clone, Copy, PartialEq, Eq, Structural)]
pub enum GoalStatus {
    Running,
    /// Agent released at its stop; the work is presumed correct and the human
    /// may still move the yardstick. A normal terminal state of a goal.
    AwaitingRulings,
    /// Turn ended without meeting the release condition. Re-issuing or
    /// resuming moves it back to Running.
    TurnEndedUnmet,
    /// No agent reads this anymore.
    Closed,
}

#[derive(Debug, Clone)]
pub struct SessionBinding {
    pub agent: String,
    pub session_id: SessionId,
    pub bound_at: UnixSeconds,
    /// Which terminal pane the session runs in, when Witnos spawned it.
    pub pane: Option<u32>,
}

pub ghost struct SessionBindingV {
    pub agent: Seq<char>,
    pub session_id: Seq<char>,
    pub bound_at: UnixSeconds,
    pub pane: Option<u32>,
}

impl View for SessionBinding {
    type V = SessionBindingV;

    open spec fn view(&self) -> SessionBindingV {
        SessionBindingV {
            agent: self.agent@,
            session_id: self.session_id@,
            bound_at: self.bound_at,
            pane: self.pane,
        }
    }
}

impl DuplicateView for SessionBinding {
    fn duplicate(&self) -> (r: Self) {
        SessionBinding {
            agent: self.agent.clone(),
            session_id: self.session_id.clone(),
            bound_at: self.bound_at,
            pane: self.pane,
        }
    }
}

#[derive(Debug, Clone, Copy, PartialEq, Eq, Structural)]
pub enum Actor {
    Human,
    Agent,
}

#[derive(Debug, Clone, PartialEq, Eq)]
pub struct Oracle {
    pub command: String,
    pub expected: String,
}

pub ghost struct OracleV {
    pub command: Seq<char>,
    pub expected: Seq<char>,
}

impl View for Oracle {
    type V = OracleV;

    open spec fn view(&self) -> OracleV {
        OracleV { command: self.command@, expected: self.expected@ }
    }
}

/// Default subjective; objective requires a machine-executable oracle.
#[derive(Debug, Clone, PartialEq, Eq)]
pub enum Class {
    Subjective,
    Objective { oracle: Oracle, promoted_by: Actor },
}

pub ghost enum ClassV {
    Subjective,
    Objective { oracle: OracleV, promoted_by: Actor },
}

impl View for Class {
    type V = ClassV;

    open spec fn view(&self) -> ClassV {
        match self {
            Class::Subjective => ClassV::Subjective,
            Class::Objective { oracle, promoted_by } => ClassV::Objective {
                oracle: oracle@,
                promoted_by: *promoted_by,
            },
        }
    }
}

impl DuplicateView for Class {
    fn duplicate(&self) -> (r: Self) {
        match self {
            Class::Subjective => Class::Subjective,
            Class::Objective { oracle, promoted_by } => Class::Objective {
                oracle: Oracle { command: oracle.command.clone(), expected: oracle.expected.clone() },
                promoted_by: *promoted_by,
            },
        }
    }
}

#[derive(Debug, Clone, Copy, PartialEq, Eq, Structural)]
pub enum ItemStatus {
    Open,
    /// Interpretation + evidence laid out: the terminal state of a subjective item.
    Laid,
    /// Objective only: oracle passed, agent self-passed.
    Passed,
    /// Historical only: an item its owner opted out of. Release ignores it.
    Waived,
}

/// Where a contract item came from.
#[derive(Debug, Clone, PartialEq, Eq)]
pub enum Origin {
    UserPreRun,
    UserViewingEvidence { evidence_id: EvidenceId },
    UserMidRun,
    AgentInitial,
    AgentBlindspot,
}

pub ghost enum OriginV {
    UserPreRun,
    UserViewingEvidence { evidence_id: Seq<char> },
    UserMidRun,
    AgentInitial,
    AgentBlindspot,
}

impl View for Origin {
    type V = OriginV;

    open spec fn view(&self) -> OriginV {
        match self {
            Origin::UserPreRun => OriginV::UserPreRun,
            Origin::UserViewingEvidence { evidence_id } => OriginV::UserViewingEvidence {
                evidence_id: evidence_id@,
            },
            Origin::UserMidRun => OriginV::UserMidRun,
            Origin::AgentInitial => OriginV::AgentInitial,
            Origin::AgentBlindspot => OriginV::AgentBlindspot,
        }
    }
}

pub open spec fn user_authored(o: OriginV) -> bool {
    o is UserPreRun || o is UserViewingEvidence || o is UserMidRun
}

impl Origin {
    pub fn is_user_authored(&self) -> (r: bool)
        ensures
            r == user_authored(self@),
    {
        match self {
            Origin::UserPreRun | Origin::UserViewingEvidence { .. } | Origin::UserMidRun => true,
            _ => false,
        }
    }
}

impl DuplicateView for Origin {
    fn duplicate(&self) -> (r: Self) {
        match self {
            Origin::UserPreRun => Origin::UserPreRun,
            Origin::UserViewingEvidence { evidence_id } => Origin::UserViewingEvidence {
                evidence_id: evidence_id.clone(),
            },
            Origin::UserMidRun => Origin::UserMidRun,
            Origin::AgentInitial => Origin::AgentInitial,
            Origin::AgentBlindspot => Origin::AgentBlindspot,
        }
    }
}

#[derive(Debug, Clone)]
pub struct Interpretation {
    pub text: String,
    pub against_version: Version,
    pub at: UnixSeconds,
}

pub ghost struct InterpretationV {
    pub text: Seq<char>,
    pub against_version: Version,
    pub at: UnixSeconds,
}

impl View for Interpretation {
    type V = InterpretationV;

    open spec fn view(&self) -> InterpretationV {
        InterpretationV { text: self.text@, against_version: self.against_version, at: self.at }
    }
}

impl DuplicateView for Interpretation {
    fn duplicate(&self) -> (r: Self) {
        Interpretation { text: self.text.clone(), against_version: self.against_version, at: self.at }
    }
}

#[derive(Debug, Clone)]
pub struct Item {
    pub id: ItemId,
    pub claim: String,
    pub check: String,
    pub class: Class,
    /// Current interpretation. Mandatory for a subjective item to count as laid.
    pub interpretation: Option<String>,
    /// Every entry after the first is a reinterpretation.
    pub interpretation_history: Vec<Interpretation>,
    pub status: ItemStatus,
    pub evidence_ids: Vec<EvidenceId>,
    pub origin: Origin,
    pub added_in_version: Version,
    /// Evidence with `against_version` below this is stale for this item.
    pub last_edited_version: Version,
}

/// An item as the contracts see it.
pub ghost struct ItemV {
    pub id: Seq<char>,
    pub claim: Seq<char>,
    pub check: Seq<char>,
    pub class: ClassV,
    pub interpretation: Option<Seq<char>>,
    pub interpretation_history: Seq<InterpretationV>,
    pub status: ItemStatus,
    pub evidence_ids: Seq<Seq<char>>,
    pub origin: OriginV,
    pub added_in_version: Version,
    pub last_edited_version: Version,
}

impl View for Item {
    type V = ItemV;

    open spec fn view(&self) -> ItemV {
        ItemV {
            id: self.id@,
            claim: self.claim@,
            check: self.check@,
            class: self.class@,
            interpretation: opt_text(self.interpretation),
            interpretation_history: views(self.interpretation_history@),
            status: self.status,
            evidence_ids: views(self.evidence_ids@),
            origin: self.origin@,
            added_in_version: self.added_in_version,
            last_edited_version: self.last_edited_version,
        }
    }
}

impl DuplicateView for Item {
    fn duplicate(&self) -> (r: Self) {
        Item {
            id: self.id.clone(),
            claim: self.claim.clone(),
            check: self.check.clone(),
            class: self.class.duplicate(),
            interpretation: duplicate_text(&self.interpretation),
            interpretation_history: duplicate_all(&self.interpretation_history),
            status: self.status,
            evidence_ids: duplicate_all(&self.evidence_ids),
            origin: self.origin.duplicate(),
            added_in_version: self.added_in_version,
            last_edited_version: self.last_edited_version,
        }
    }
}

#[derive(Debug, Clone, PartialEq, Eq)]
pub enum Pointer {
    File { path: String, lines: Option<String> },
    Command { cmd: String },
    Url { url: String },
}

pub ghost enum PointerV {
    File { path: Seq<char>, lines: Option<Seq<char>> },
    Command { cmd: Seq<char> },
    Url { url: Seq<char> },
}

impl View for Pointer {
    type V = PointerV;

    open spec fn view(&self) -> PointerV {
        match self {
            Pointer::File { path, lines } => PointerV::File { path: path@, lines: opt_text(*lines) },
            Pointer::Command { cmd } => PointerV::Command { cmd: cmd@ },
            Pointer::Url { url } => PointerV::Url { url: url@ },
        }
    }
}

impl DuplicateView for Pointer {
    fn duplicate(&self) -> (r: Self) {
        match self {
            Pointer::File { path, lines } => Pointer::File {
                path: path.clone(),
                lines: duplicate_text(lines),
            },
            Pointer::Command { cmd } => Pointer::Command { cmd: cmd.clone() },
            Pointer::Url { url } => Pointer::Url { url: url.clone() },
        }
    }
}

#[derive(Debug, Clone)]
pub struct WorkspaceFingerprint {
    pub commit: Option<String>,
    pub dirty_hash: Option<String>,
}

pub ghost struct WorkspaceV {
    pub commit: Option<Seq<char>>,
    pub dirty_hash: Option<Seq<char>>,
}

impl View for WorkspaceFingerprint {
    type V = WorkspaceV;

    open spec fn view(&self) -> WorkspaceV {
        WorkspaceV { commit: opt_text(self.commit), dirty_hash: opt_text(self.dirty_hash) }
    }
}

impl WorkspaceFingerprint {
    /// No commit and no dirty hash recorded.
    pub fn unknown() -> (r: Self)
        ensures
            r@.commit is None && r@.dirty_hash is None,
    {
        WorkspaceFingerprint { commit: None, dirty_hash: None }
    }
}

impl Default for WorkspaceFingerprint {
    fn default() -> (r: Self)
        ensures
            r@.commit is None && r@.dirty_hash is None,
    {
        WorkspaceFingerprint::unknown()
    }
}

impl DuplicateView for WorkspaceFingerprint {
    fn duplicate(&self) -> (r: Self) {
        WorkspaceFingerprint {
            commit: duplicate_text(&self.commit),
            dirty_hash: duplicate_text(&self.dirty_hash),
        }
    }
}

#[derive(Debug, Clone)]
pub struct Evidence {
    pub id: EvidenceId,
    pub item_id: ItemId,
    /// What the agent concluded.
    pub conclusion: String,
    /// What it judged by.
    pub basis: String,
    /// Never empty.
    pub provenance: Vec<Pointer>,
    pub workspace: WorkspaceFingerprint,
    /// The contract version the evidence was stamped against.
    pub against_version: Version,
    pub captured_at: UnixSeconds,
}

/// A piece of evidence as the contracts see it.
pub ghost struct EvidenceV {
    pub id: Seq<char>,
    pub item_id: Seq<char>,
    pub conclusion: Seq<char>,
    pub basis: Seq<char>,
    pub provenance: Seq<PointerV>,
    pub workspace: WorkspaceV,
    pub against_version: Version,
    pub captured_at: UnixSeconds,
}

impl View for Evidence {
    type V = EvidenceV;

    open spec fn view(&self) -> EvidenceV {
        EvidenceV {
            id: self.id@,
            item_id: self.item_id@,
            conclusion: self.conclusion@,
            basis: self.basis@,
            provenance: views(self.provenance@),
            workspace: self.workspace@,
            against_version: self.against_version,
            captured_at: self.captured_at,
        }
    }
}

impl DuplicateView for Evidence {
    fn duplicate(&self) -> (r: Self) {
        Evidence {
            id: self.id.clone(),
            item_id: self.item_id.clone(),
            conclusion: self.conclusion.clone(),
            basis: self.basis.clone(),
            provenance: duplicate_all(&self.provenance),
            workspace: self.workspace.duplicate(),
            against_version: self.against_version,
            captured_at: self.captured_at,
        }
    }
}

#[derive(Debug, Clone, Copy, PartialEq, Eq, Structural)]
pub enum GateDecisionKind {
    Block,
    Release,
}

#[derive(Debug, Clone, PartialEq, Eq)]
pub enum EventKind {
    ContractEdited {
        item_id: ItemId,
        by: Actor,
        version_after: Version,
        /// Did the human open an evidence original before moving this yardstick?
        after_drill_down: bool,
    },
    EvidenceAdded { evidence_id: EvidenceId, item_id: ItemId },
    Reconcile {
        session_id: SessionId,
        from_version: Version,
        to_version: Version,
        changed_items: Vec<ItemId>,
        reinterpreted_items: Vec<ItemId>,
    },
    GateDecision { decision: GateDecisionKind, reason: Option<String>, against_version: Version },
    /// Human opened the original behind an evidence pointer.
    DrillDown { evidence_id: EvidenceId, pointer: Pointer },
    /// Historical only: a human sending an item back.
    Ruling { item_id: ItemId, verdict: ItemStatus, after_drill_down: bool },
    /// The human took an item out of the contract.
    ItemDeleted { item_id: ItemId, claim: String, version_after: Version },
    /// Historical only: the human opting one item out.
    Waiver { item_id: ItemId, waived: bool },
    TurnEnded { met: bool },
}

/// An event kind as the contracts see it.
pub ghost enum EventKindV {
    ContractEdited {
        item_id: Seq<char>,
        by: Actor,
        version_after: Version,
        after_drill_down: bool,
    },
    EvidenceAdded { evidence_id: Seq<char>, item_id: Seq<char> },
    Reconcile {
        session_id: Seq<char>,
        from_version: Version,
        to_version: Version,
        changed_items: Seq<Seq<char>>,
        reinterpreted_items: Seq<Seq<char>>,
    },
    GateDecision {
        decision: GateDecisionKind,
        reason: Option<Seq<char>>,
        against_version: Version,
    },
    DrillDown { evidence_id: Seq<char>, pointer: PointerV },
    Ruling { item_id: Seq<char>, verdict: ItemStatus, after_drill_down: bool },
    ItemDeleted { item_id: Seq<char>, claim: Seq<char>, version_after: Version },
    Waiver { item_id: Seq<char>, waived: bool },
    TurnEnded { met: bool },
}

impl View for EventKind {
    type V = EventKindV;

    open spec fn view(&self) -> EventKindV {
        match self {
            EventKind::ContractEdited { item_id, by, version_after, after_drill_down } =>
                EventKindV::ContractEdited {
                item_id: item_id@,
                by: *by,
                version_after: *version_after,
                after_drill_down: *after_drill_down,
            },
            EventKind::EvidenceAdded { evidence_id, item_id } => EventKindV::EvidenceAdded {
                evidence_id: evidence_id@,
                item_id: item_id@,
            },
            EventKind::Reconcile {
                session_id,
                from_version,
                to_version,
                changed_items,
                reinterpreted_items,
            } => EventKindV::Reconcile {
                session_id: session_id@,
                from_version: *from_version,
                to_version: *to_version,
                changed_items: views(changed_items@),
                reinterpreted_items: views(reinterpreted_items@),
            },
            EventKind::GateDecision { decision, reason, against_version } =>
                EventKindV::GateDecision {
                decision: *decision,
                reason: opt_text(*reason),
                against_version: *against_version,
            },
            EventKind::DrillDown { evidence_id, pointer } => EventKindV::DrillDown {
                evidence_id: evidence_id@,
                pointer: pointer@,
            },
            EventKind::Ruling { item_id, verdict, after_drill_down } => EventKindV::Ruling {
                item_id: item_id@,
                verdict: *verdict,
                after_drill_down: *after_drill_down,
            },
            EventKind::ItemDeleted { item_id, claim, version_after } => EventKindV::ItemDeleted {
                item_id: item_id@,
                claim: claim@,
                version_after: *version_after,
            },
            EventKind::Waiver { item_id, waived } => EventKindV::Waiver {
                item_id: item_id@,
                waived: *waived,
            },
            EventKind::TurnEnded { met } => EventKindV::TurnEnded { met: *met },
        }
    }
}

impl DuplicateView for EventKind {
    fn duplicate(&self) -> (r: Self) {
        match self {
            EventKind::ContractEdited { item_id, by, version_after, after_drill_down } =>
                EventKind::ContractEdited {
                item_id: item_id.clone(),
                by: *by,
                version_after: *version_after,
                after_drill_down: *after_drill_down,
            },
            EventKind::EvidenceAdded { evidence_id, item_id } => EventKind::EvidenceAdded {
                evidence_id: evidence_id.clone(),
                item_id: item_id.clone(),
            },
            EventKind::Reconcile {
                session_id,
                from_version,
                to_version,
                changed_items,
                reinterpreted_items,
            } => EventKind::Reconcile {
                session_id: session_id.clone(),
                from_version: *from_version,
                to_version: *to_version,
                changed_items: duplicate_all(changed_items),
                reinterpreted_items: duplicate_all(reinterpreted_items),
            },
            EventKind::GateDecision { decision, reason, against_version } =>
                EventKind::GateDecision {
                decision: *decision,
                reason: duplicate_text(reason),
                against_version: *against_version,
            },
            EventKind::DrillDown { evidence_id, pointer } => EventKind::DrillDown {
                evidence_id: evidence_id.clone(),
                pointer: pointer.duplicate(),
            },
            EventKind::Ruling { item_id, verdict, after_drill_down } => EventKind::Ruling {
                item_id: item_id.clone(),
                verdict: *verdict,
                after_drill_down: *after_drill_down,
            },
            EventKind::ItemDeleted { item_id, claim, version_after } => EventKind::ItemDeleted {
                item_id: item_id.clone(),
                claim: claim.clone(),
                version_after: *version_after,
            },
            EventKind::Waiver { item_id, waived } => EventKind::Waiver {
                item_id: item_id.clone(),
                waived: *waived,
            },
            EventKind::TurnEnded { met } => EventKind::TurnEnded { met: *met },
        }
    }
}

#[derive(Debug, Clone)]
pub struct Event {
    pub at: UnixSeconds,
    pub kind: EventKind,
}

pub ghost struct EventV {
    pub at: UnixSeconds,
    pub kind: EventKindV,
}

impl View for Event {
    type V = EventV;

    open spec fn view(&self) -> EventV {
        EventV { at: self.at, kind: self.kind@ }
    }
}

impl DuplicateView for Event {
    fn duplicate(&self) -> (r: Self) {
        Event { at: self.at, kind: self.kind.duplicate() }
    }
}

#[derive(Debug, Clone)]
pub struct Goal {
    pub id: GoalId,
    pub title: String,
    pub status: GoalStatus,
    /// Monotonic. Bumps on every item add/edit/delete, never on evidence.
    pub contract_version: Version,
    /// Where the agent last reconciled to.
    pub agent_synced_version: Version,
    /// The version at which a HUMAN last moved the yardstick.
    pub last_human_edit_version: Version,
    pub sessions: Vec<SessionBinding>,
    pub items: Vec<Item>,
    pub evidence: Vec<Evidence>,
    pub events: Vec<Event>,
    pub created_at: UnixSeconds,
    /// The project directory being watched (where the armed marker lives).
    pub project_dir: Option<String>,
    /// Watching = the armed marker is maintained in `project_dir`.
    pub watching: bool,
    /// Set when this goal was auto-created for one agent session.
    pub auto_session: Option<SessionId>,
}

/// A goal as the contracts see it.
pub ghost struct GoalV {
    pub id: Seq<char>,
    pub title: Seq<char>,
    pub status: GoalStatus,
    pub contract_version: Version,
    pub agent_synced_version: Version,
    pub last_human_edit_version: Version,
    pub sessions: Seq<SessionBindingV>,
    pub items: Seq<ItemV>,
    pub evidence: Seq<EvidenceV>,
    pub events: Seq<EventV>,
    pub created_at: UnixSeconds,
    pub project_dir: Option<Seq<char>>,
    pub watching: bool,
    pub auto_session: Option<Seq<char>>,
}

impl View for Goal {
    type V = GoalV;

    open spec fn view(&self) -> GoalV {
        GoalV {
            id: self.id@,
            title: self.title@,
            status: self.status,
            contract_version: self.contract_version,
            agent_synced_version: self.agent_synced_version,
            last_human_edit_version: self.last_human_edit_version,
            sessions: views(self.sessions@),
            items: views(self.items@),
            evidence: views(self.evidence@),
            events: views(self.events@),
            created_at: self.created_at,
            project_dir: opt_text(self.project_dir),
            watching: self.watching,
            auto_session: opt_text(self.auto_session),
        }
    }
}

impl DuplicateView for Goal {
    fn duplicate(&self) -> (r: Self) {
        Goal {
            id: self.id.clone(),
            title: self.title.clone(),
            status: self.status,
            contract_version: self.contract_version,
            agent_synced_version: self.agent_synced_version,
            last_human_edit_version: self.last_human_edit_version,
            sessions: duplicate_all(&self.sessions),
            items: duplicate_all(&self.items),
            evidence: duplicate_all(&self.evidence),
            events: duplicate_all(&self.events),
            created_at: self.created_at,
            project_dir: duplicate_text(&self.project_dir),
            watching: self.watching,
            auto_session: duplicate_text(&self.auto_session),
        }
    }
}

pub open spec fn item_has_id(id: Seq<char>) -> spec_fn(ItemV) -> bool {
    |i: ItemV| i.id == id
}

pub open spec fn edited_after(v: Version) -> spec_fn(ItemV) -> bool {
    |i: ItemV| i.last_edited_version > v
}

pub open spec fn added_viewing_evidence() -> spec_fn(ItemV) -> bool {
    |i: ItemV| i.origin is UserViewingEvidence
}

/// The claims the human deleted after version `v`, in log order.
pub open spec fn deleted_claims(events: Seq<EventV>, v: Version) -> Seq<Seq<char>>
    decreases events.len(),
{
    if events.len() == 0 {
        seq![]
    } else {
        let rest = deleted_claims(events.drop_last(), v);
        match events.last().kind {
            EventKindV::ItemDeleted { claim, version_after, .. } => if version_after > v {
                rest.push(claim)
            } else {
                rest
            },
            _ => rest,
        }
    }
}

impl Goal {
    /// The first item with this id.
    pub fn item(&self, id: &str) -> (r: Option<&Item>)
        ensures
            match first_where(self@.items, item_has_id(id@)) {
                Some(i) => r matches Some(x) && x@ == self@.items[i],
                None => r is None,
            },
    {
        let mut k: usize = 0;
        while k < self.items.len()
            invariant
                k <= self@.items.len(),
                self@.items.len() == self.items@.len(),
                forall|j: int| 0 <= j < k ==> !(#[trigger] item_has_id(id@)(self@.items[j])),
            decreases self.items@.len() - k,
        {
            if crate::text::same(self.items[k].id.as_str(), id) {
                proof {
                    lemma_first_where_found(self@.items, item_has_id(id@), k as int);
                }
                return Some(&self.items[k]);
            }
            k = k + 1;
        }
        proof {
            lemma_first_where_none(self@.items, item_has_id(id@));
        }
        None
    }

    /// Delta since a version: items added or edited after it, in contract order.
    pub fn items_since(&self, version: Version) -> (r: Vec<&Item>)
        ensures
            views(r@) == keep(self@.items, edited_after(version)),
    {
        let mut out: Vec<&Item> = Vec::new();
        let mut k: usize = 0;
        while k < self.items.len()
            invariant
                k <= self@.items.len(),
                self@.items.len() == self.items@.len(),
                views(out@) == keep(self@.items.take(k as int), edited_after(version)),
            decreases self.items@.len() - k,
        {
            proof {
                lemma_keep_push(self@.items.take(k as int), edited_after(version), self@.items[k as int]);
                assert(self@.items.take(k as int).push(self@.items[k as int]) =~= self@.items.take(
                    k + 1,
                ));
            }
            let ghost before = out@;
            if self.items[k].last_edited_version > version {
                out.push(&self.items[k]);
                assert(views(out@) =~= views(before).push(
                    self@.items[k as int],
                ));
            }
            k = k + 1;
        }
        assert(self@.items.take(k as int) =~= self@.items);
        out
    }

    /// The other half of the delta: the claims of items deleted after `version`.
    pub fn deletions_since(&self, version: Version) -> (r: Vec<&str>)
        ensures
            views(r@) == deleted_claims(self@.events, version),
    {
        let mut out: Vec<&str> = Vec::new();
        let mut k: usize = 0;
        while k < self.events.len()
            invariant
                k <= self@.events.len(),
                self@.events.len() == self.events@.len(),
                views(out@) == deleted_claims(self@.events.take(k as int), version),
            decreases self.events@.len() - k,
        {
            let ghost before = out@;
            proof {
                assert(self@.events.take(k + 1).drop_last() =~= self@.events.take(k as int));
            }
            match &self.events[k].kind {
                EventKind::ItemDeleted { claim, version_after, .. } => {
                    if *version_after > version {
                        out.push(claim.as_str());
                        assert(views(out@) =~= views(before).push(
                            claim@,
                        ));
                    }
                },
                _ => {},
            }
            k = k + 1;
        }
        assert(self@.events.take(k as int) =~= self@.events);
        out
    }

    /// The strong-bet readout: items added while the user was looking at a
    /// specific piece of evidence.
    pub fn strong_bet_count(&self) -> (r: usize)
        ensures
            r == count_where(self@.items, added_viewing_evidence()),
    {
        let mut n: usize = 0;
        let mut k: usize = 0;
        while k < self.items.len()
            invariant
                k <= self@.items.len(),
                self@.items.len() == self.items@.len(),
                n == count_where(self@.items.take(k as int), added_viewing_evidence()),
            decreases self.items@.len() - k,
        {
            proof {
                lemma_keep_push(self@.items.take(k as int), added_viewing_evidence(), self@.items[k as int]);
                assert(self@.items.take(k as int).push(self@.items[k as int]) =~= self@.items.take(
                    k + 1,
                ));
                lemma_keep_len(self@.items.take(k as int), added_viewing_evidence());
            }
            match &self.items[k].origin {
                Origin::UserViewingEvidence { .. } => {
                    n = n + 1;
                },
                _ => {},
            }
            k = k + 1;
        }
        assert(self@.items.take(k as int) =~= self@.items);
        n
    }
}

} // verus!
