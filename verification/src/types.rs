//! Data model of the storage engine: log identifiers, entries,
//! membership configurations, hard state and snapshot metadata.

use vstd::prelude::*;

verus! {

/// Identifier of a node in the cluster.
pub type NodeId = u64;

/// A log position: election term and index.  Log ids are totally
/// ordered lexicographically by `(term, index)`.
#[derive(Clone, Copy, PartialEq, Eq, Structural, Debug)]
pub struct LogId {
    pub term: u64,
    pub index: u64,
}

/// `a` comes no later than `b` in the total order on log ids.
pub open spec fn log_id_le(a: LogId, b: LogId) -> bool {
    a.term < b.term || (a.term == b.term && a.index <= b.index)
}

/// The durable hard state of a node: the highest term it has seen and
/// the node it voted for in that term.
#[derive(Clone, Copy, PartialEq, Eq, Structural, Debug)]
pub struct HardState {
    pub current_term: u64,
    pub voted_for: Option<NodeId>,
}

impl Default for HardState {
    /// The hard state of a node that has never voted.
    fn default() -> (r: Self)
        ensures
            r.current_term == 0,
            r.voted_for is None,
    {
        HardState { current_term: 0, voted_for: None }
    }
}

/// Metadata of a snapshot: the last log id the snapshot covers, and an
/// identifier telling apart distinct snapshots built over the same
/// boundary.
#[derive(Clone, Copy, PartialEq, Eq, Structural, Debug)]
pub struct SnapshotMeta {
    pub last_log_id: LogId,
    pub snapshot_id: u64,
}

/// A cluster membership configuration: the voting members, and the
/// non-voting learners.
#[derive(Debug)]
pub struct Membership {
    pub members: Vec<NodeId>,
    pub learners: Vec<NodeId>,
}

/// Mathematical model of a `Membership`.
#[verifier::ext_equal]
pub struct MembershipModel {
    pub members: Seq<NodeId>,
    pub learners: Seq<NodeId>,
}

impl View for Membership {
    type V = MembershipModel;

    open spec fn view(&self) -> MembershipModel {
        MembershipModel { members: self.members@, learners: self.learners@ }
    }
}

impl Clone for Membership {
    fn clone(&self) -> (r: Self)
        ensures
            r@ == self@,
    {
        let members = self.members.clone();
        let learners = self.learners.clone();
        proof {
            assert(members@ =~= self.members@);
            assert(learners@ =~= self.learners@);
        }
        Membership { members, learners }
    }
}

impl Membership {
    /// The initial configuration of a pristine single-node cluster:
    /// this node is the only voting member and there are no learners.
    pub fn new_initial(id: NodeId) -> (r: Self)
        ensures
            r@.members == seq![id],
            r@.learners == Seq::<NodeId>::empty(),
    {
        let members = vec![id];
        let learners: Vec<NodeId> = Vec::new();
        proof {
            assert(members@ =~= seq![id]);
            assert(learners@ =~= Seq::<NodeId>::empty());
        }
        Membership { members, learners }
    }
}

/// A membership configuration annotated with the log id of the entry
/// that introduced it.
#[derive(Debug)]
pub struct EffectiveMembership {
    pub log_id: LogId,
    pub membership: Membership,
}

/// Mathematical model of an `EffectiveMembership`.
#[verifier::ext_equal]
pub struct EffectiveMembershipModel {
    pub log_id: LogId,
    pub membership: MembershipModel,
}

impl View for EffectiveMembership {
    type V = EffectiveMembershipModel;

    open spec fn view(&self) -> EffectiveMembershipModel {
        EffectiveMembershipModel { log_id: self.log_id, membership: self.membership@ }
    }
}

impl Clone for EffectiveMembership {
    fn clone(&self) -> (r: Self)
        ensures
            r@ == self@,
    {
        EffectiveMembership { log_id: self.log_id, membership: self.membership.clone() }
    }
}

/// The model of an optional effective membership.
pub open spec fn opt_membership_model(o: Option<EffectiveMembership>) -> Option<
    EffectiveMembershipModel,
> {
    match o {
        Option::Some(m) => Option::Some(m@),
        Option::None => Option::None,
    }
}

/// The payload an entry carries through the log.
#[derive(Debug)]
pub enum EntryPayload {
    /// A no-op entry, appended for instance when a leader takes office.
    Blank,
    /// An application command, modelled as a plain value.
    Normal(u64),
    /// A membership change.
    Membership(Membership),
    /// A marker left in the log where a compacted prefix used to be.
    /// It is bookkeeping only and must never reach the applier.
    SnapshotPointer(SnapshotMeta),
}

/// Mathematical model of an `EntryPayload`.
#[verifier::ext_equal]
pub enum PayloadModel {
    Blank,
    Normal(u64),
    Membership(MembershipModel),
    SnapshotPointer(SnapshotMeta),
}

impl View for EntryPayload {
    type V = PayloadModel;

    open spec fn view(&self) -> PayloadModel {
        match self {
            EntryPayload::Blank => PayloadModel::Blank,
            EntryPayload::Normal(c) => PayloadModel::Normal(*c),
            EntryPayload::Membership(m) => PayloadModel::Membership(m@),
            EntryPayload::SnapshotPointer(s) => PayloadModel::SnapshotPointer(*s),
        }
    }
}

impl Clone for EntryPayload {
    fn clone(&self) -> (r: Self)
        ensures
            r@ == self@,
    {
        match self {
            EntryPayload::Blank => EntryPayload::Blank,
            EntryPayload::Normal(c) => EntryPayload::Normal(*c),
            EntryPayload::Membership(m) => EntryPayload::Membership(m.clone()),
            EntryPayload::SnapshotPointer(s) => EntryPayload::SnapshotPointer(*s),
        }
    }
}

/// A log entry: its position and its payload.
#[derive(Debug)]
pub struct Entry {
    pub log_id: LogId,
    pub payload: EntryPayload,
}

/// Mathematical model of an `Entry`.
#[verifier::ext_equal]
pub struct EntryModel {
    pub log_id: LogId,
    pub payload: PayloadModel,
}

impl View for Entry {
    type V = EntryModel;

    open spec fn view(&self) -> EntryModel {
        EntryModel { log_id: self.log_id, payload: self.payload@ }
    }
}

impl Clone for Entry {
    fn clone(&self) -> (r: Self)
        ensures
            r@ == self@,
    {
        Entry { log_id: self.log_id, payload: self.payload.clone() }
    }
}

/// The response the applier hands back for one entry: the applied
/// command's value for a normal entry, a placeholder for the others.
#[derive(Clone, Copy, PartialEq, Eq, Structural, Debug)]
pub enum Response {
    Applied(u64),
    Placeholder,
}

/// The application state machine: the last applied log id, the last
/// membership applied at or before it, and the applied commands.
#[derive(Debug)]
pub struct StateMachine {
    pub last_applied: LogId,
    pub last_membership: Option<EffectiveMembership>,
    pub data: Vec<u64>,
}

/// Mathematical model of a `StateMachine`.
#[verifier::ext_equal]
pub struct StateMachineModel {
    pub last_applied: LogId,
    pub last_membership: Option<EffectiveMembershipModel>,
    pub data: Seq<u64>,
}

impl View for StateMachine {
    type V = StateMachineModel;

    open spec fn view(&self) -> StateMachineModel {
        StateMachineModel {
            last_applied: self.last_applied,
            last_membership: opt_membership_model(self.last_membership),
            data: self.data@,
        }
    }
}

impl Clone for StateMachine {
    fn clone(&self) -> (r: Self)
        ensures
            r@ == self@,
    {
        let last_membership = match &self.last_membership {
            Option::Some(m) => Option::Some(m.clone()),
            Option::None => Option::None,
        };
        let data = self.data.clone();
        proof {
            assert(data@ =~= self.data@);
        }
        StateMachine { last_applied: self.last_applied, last_membership, data }
    }
}

impl StateMachine {
    /// A state machine that has applied nothing.
    pub fn new() -> (r: Self)
        ensures
            r@ == (StateMachineModel {
                last_applied: LogId { term: 0, index: 0 },
                last_membership: Option::None,
                data: Seq::empty(),
            }),
    {
        let r = StateMachine {
            last_applied: LogId { term: 0, index: 0 },
            last_membership: Option::None,
            data: Vec::new(),
        };
        proof {
            assert(r@ =~= StateMachineModel {
                last_applied: LogId { term: 0, index: 0 },
                last_membership: Option::None,
                data: Seq::empty(),
            });
        }
        r
    }
}

/// The current snapshot: its metadata and the state-machine export it
/// carries.  The byte encoding used while a snapshot is streamed
/// between nodes is application-defined and out of the storage
/// contract; the engine holds the exported value itself.
#[derive(Debug)]
pub struct Snapshot {
    pub meta: SnapshotMeta,
    pub data: StateMachine,
}

/// Mathematical model of a `Snapshot`.
#[verifier::ext_equal]
pub struct SnapshotModel {
    pub meta: SnapshotMeta,
    pub data: StateMachineModel,
}

impl View for Snapshot {
    type V = SnapshotModel;

    open spec fn view(&self) -> SnapshotModel {
        SnapshotModel { meta: self.meta, data: self.data@ }
    }
}

impl Clone for Snapshot {
    fn clone(&self) -> (r: Self)
        ensures
            r@ == self@,
    {
        Snapshot { meta: self.meta, data: self.data.clone() }
    }
}

/// The model of an optional snapshot.
pub open spec fn opt_snapshot_model(o: Option<Snapshot>) -> Option<SnapshotModel> {
    match o {
        Option::Some(s) => Option::Some(s@),
        Option::None => Option::None,
    }
}

/// What a finalized snapshot installation changed, so the consensus
/// core can refresh its cached views.
#[derive(Clone, Copy, PartialEq, Eq, Structural, Debug)]
pub struct StateMachineChanges {
    pub last_applied: LogId,
    pub is_snapshot: bool,
}

/// A storage failure.  Every variant carries the operation's context.
/// All variants are fatal to the owning node: the consensus core must
/// halt rather than continue over uncertain durable state.  (Snapshot
/// building is the one retryable operation, and it does not fail in
/// this engine.)
#[derive(Clone, Copy, PartialEq, Eq, Structural, Debug)]
pub enum StorageError {
    /// A strict range read found no entry at this index.
    MissingLogEntry { index: u64 },
    /// A suffix truncation would have removed applied entries.
    AppliedRangeProtected { start: u64, last_applied: u64 },
    /// A received snapshot carries a membership newer than the log id
    /// its metadata claims to cover.
    SnapshotInconsistent { last_log_id: LogId, membership_log_id: LogId },
}

impl StorageError {
    /// Whether the owning node must halt on this error rather than
    /// retry.  Every storage failure is fatal: the one retryable
    /// operation, snapshot building, does not fail in this engine,
    /// and the previous snapshot stays authoritative through it.
    pub fn is_fatal(&self) -> (r: bool)
        ensures
            r,
    {
        true
    }
}

/// The bootstrap view of all durable state, read once at startup.
#[derive(Debug)]
pub struct InitialState {
    pub last_log_id: LogId,
    pub last_applied: LogId,
    pub hard_state: HardState,
    pub last_membership: EffectiveMembership,
}

/// Mathematical model of an `InitialState`.
#[verifier::ext_equal]
pub struct InitialStateModel {
    pub last_log_id: LogId,
    pub last_applied: LogId,
    pub hard_state: HardState,
    pub last_membership: EffectiveMembershipModel,
}

impl View for InitialState {
    type V = InitialStateModel;

    open spec fn view(&self) -> InitialStateModel {
        InitialStateModel {
            last_log_id: self.last_log_id,
            last_applied: self.last_applied,
            hard_state: self.hard_state,
            last_membership: self.last_membership@,
        }
    }
}

impl Clone for InitialState {
    fn clone(&self) -> (r: Self)
        ensures
            r@ == self@,
    {
        InitialState {
            last_log_id: self.last_log_id,
            last_applied: self.last_applied,
            hard_state: self.hard_state,
            last_membership: self.last_membership.clone(),
        }
    }
}

/// The model of the state a pristine node starts from: nothing logged,
/// nothing applied, no vote cast, and a single-node membership holding
/// only this node's id.
pub open spec fn pristine_initial_state(id: NodeId) -> InitialStateModel {
    InitialStateModel {
        last_log_id: LogId { term: 0, index: 0 },
        last_applied: LogId { term: 0, index: 0 },
        hard_state: HardState { current_term: 0, voted_for: Option::None },
        last_membership: EffectiveMembershipModel {
            log_id: LogId { term: 0, index: 0 },
            membership: MembershipModel { members: seq![id], learners: Seq::empty() },
        },
    }
}

impl InitialState {
    /// Create a new instance for a pristine Raft node with id `id`:
    /// no log, nothing applied, an empty hard state, and a membership
    /// containing only this node.
    pub fn new_initial(id: NodeId) -> (r: Self)
        ensures
            r@ == pristine_initial_state(id),
    {
        let r = InitialState {
            last_log_id: LogId { term: 0, index: 0 },
            last_applied: LogId { term: 0, index: 0 },
            hard_state: HardState { current_term: 0, voted_for: Option::None },
            last_membership: EffectiveMembership {
                log_id: LogId { term: 0, index: 0 },
                membership: Membership::new_initial(id),
            },
        };
        proof {
            assert(r@ =~= pristine_initial_state(id));
        }
        r
    }
}

} // verus!
