//! The in-memory storage engine: log store, state machine applier,
//! snapshot manager, hard-state store, and the membership resolver.

use vstd::prelude::*;

use crate::types::{
    Entry, EntryModel, EntryPayload, EffectiveMembership, EffectiveMembershipModel, HardState,
    InitialState, LogId, Membership, MembershipModel, NodeId, PayloadModel, Response,
    Snapshot, SnapshotMeta, SnapshotModel, StateMachine, StateMachineChanges, StateMachineModel,
    StorageError, opt_membership_model, opt_snapshot_model, pristine_initial_state,
};

verus! {

/// `e` carries a membership configuration.
pub open spec fn entry_is_membership(e: EntryModel) -> bool {
    match e.payload {
        PayloadModel::Membership(_) => true,
        _ => false,
    }
}

/// The membership a membership entry carries.
pub open spec fn membership_of(e: EntryModel) -> MembershipModel {
    match e.payload {
        PayloadModel::Membership(m) => m,
        _ => arbitrary(),
    }
}

/// `e` is a snapshot-pointer marker, which must never reach the applier.
pub open spec fn entry_is_snapshot_pointer(e: EntryModel) -> bool {
    match e.payload {
        PayloadModel::SnapshotPointer(_) => true,
        _ => false,
    }
}

/// A well-formed log: indices strictly increasing, terms non-decreasing.
pub open spec fn log_wf(log: Seq<EntryModel>) -> bool {
    forall|i: int, j: int|
        0 <= i < j < log.len() ==> #[trigger] log[i].log_id.index < #[trigger] log[j].log_id.index
            && log[i].log_id.term <= log[j].log_id.term
}

/// Some entry of `log` sits at index `idx`.
pub open spec fn has_index(log: Seq<EntryModel>, idx: u64) -> bool {
    exists|i: int| 0 <= i < log.len() && (#[trigger] log[i]).log_id.index == idx
}

/// In a sorted log, position `k` separates the entries with index
/// below `bound` from those at or above it.
pub open spec fn splits_at(log: Seq<EntryModel>, bound: int, k: int) -> bool {
    &&& 0 <= k <= log.len()
    &&& forall|i: int| 0 <= i < k ==> (#[trigger] log[i]).log_id.index < bound
    &&& forall|i: int| k <= i < log.len() ==> (#[trigger] log[i]).log_id.index >= bound
}

/// The split position of a sorted log at a given bound is unique.
pub proof fn lemma_splits_at_unique(log: Seq<EntryModel>, bound: int, k1: int, k2: int)
    requires
        splits_at(log, bound, k1),
        splits_at(log, bound, k2),
    ensures
        k1 == k2,
{
    if k1 < k2 {
        assert(log[k1].log_id.index >= bound);
        assert(log[k1].log_id.index < bound);
    }
    if k2 < k1 {
        assert(log[k2].log_id.index >= bound);
        assert(log[k2].log_id.index < bound);
    }
}

/// The models of a sequence of entries.
pub open spec fn models_of(s: Seq<Entry>) -> Seq<EntryModel> {
    s.map_values(|e: Entry| e@)
}

/// The membership entry with the greatest index at or above `since`,
/// annotated with its log id; `None` when the log holds no such entry.
pub open spec fn last_membership_since(log: Seq<EntryModel>, since: int) -> Option<
    EffectiveMembershipModel,
>
    decreases log.len(),
{
    if log.len() == 0 {
        Option::None
    } else {
        let last = log[log.len() - 1];
        if entry_is_membership(last) && last.log_id.index >= since {
            Option::Some(
                EffectiveMembershipModel { log_id: last.log_id, membership: membership_of(last) },
            )
        } else {
            last_membership_since(log.drop_last(), since)
        }
    }
}

/// When no entry of the log is a membership entry at or above `since`,
/// the scan comes back empty.
pub proof fn lemma_last_membership_since_none(log: Seq<EntryModel>, since: int)
    requires
        forall|i: int|
            0 <= i < log.len() ==> !(entry_is_membership(#[trigger] log[i])
                && log[i].log_id.index >= since),
    ensures
        last_membership_since(log, since) is None,
    decreases log.len(),
{
    if log.len() > 0 {
        assert(log.drop_last() =~= log.subrange(0, log.len() - 1));
        lemma_last_membership_since_none(log.drop_last(), since);
    }
}

/// When entry `i` is a membership entry at or above `since` and no
/// later entry is, the scan returns exactly entry `i`'s configuration.
pub proof fn lemma_last_membership_since_found(log: Seq<EntryModel>, since: int, i: int)
    requires
        0 <= i < log.len(),
        entry_is_membership(log[i]),
        log[i].log_id.index >= since,
        forall|j: int|
            i < j < log.len() ==> !(entry_is_membership(#[trigger] log[j])
                && log[j].log_id.index >= since),
    ensures
        last_membership_since(log, since) == Option::Some(
            EffectiveMembershipModel {
                log_id: log[i].log_id,
                membership: membership_of(log[i]),
            },
        ),
    decreases log.len(),
{
    if i == log.len() - 1 {
    } else {
        assert(log.drop_last() =~= log.subrange(0, log.len() - 1));
        lemma_last_membership_since_found(log.drop_last(), since, i);
    }
}

/// The membership the resolver must report: the most recent membership
/// entry still in the log past the state machine's own, and otherwise
/// the state machine's.
pub open spec fn resolved_membership(
    log: Seq<EntryModel>,
    sm_mem: Option<EffectiveMembershipModel>,
) -> Option<EffectiveMembershipModel> {
    let since: int = match sm_mem {
        Option::Some(m) => m.log_id.index + 1,
        Option::None => 0,
    };
    match last_membership_since(log, since) {
        Option::Some(em) => Option::Some(em),
        Option::None => sm_mem,
    }
}

/// The commands the normal entries of `s` carry, in order.
pub open spec fn commands_of(s: Seq<EntryModel>) -> Seq<u64>
    decreases s.len(),
{
    if s.len() == 0 {
        Seq::empty()
    } else {
        let rest = commands_of(s.drop_last());
        match s.last().payload {
            PayloadModel::Normal(c) => rest.push(c),
            _ => rest,
        }
    }
}

/// The response the applier owes for one entry.
pub open spec fn response_for(e: EntryModel) -> Response {
    match e.payload {
        PayloadModel::Normal(c) => Response::Applied(c),
        _ => Response::Placeholder,
    }
}

/// A batch may be appended when it is itself a well-formed log and
/// its first entry's term does not fall below the terms of the
/// entries it leaves in place.
pub open spec fn can_append(log: Seq<EntryModel>, new: Seq<EntryModel>) -> bool {
    &&& log_wf(new)
    &&& new.len() > 0 ==> forall|i: int|
        0 <= i < log.len() && (#[trigger] log[i]).log_id.index < new[0].log_id.index
            ==> log[i].log_id.term <= new[0].log_id.term
}

/// Mathematical model of the whole store.
#[verifier::ext_equal]
pub struct StoreModel {
    pub node_id: NodeId,
    pub log: Seq<EntryModel>,
    pub sm: StateMachineModel,
    pub hard_state: Option<HardState>,
    pub snapshot: Option<SnapshotModel>,
    pub snapshot_seq: u64,
}

/// A state machine is consistent when its recorded membership was
/// applied no later than its last applied entry.
pub open spec fn sm_wf(sm: StateMachineModel) -> bool {
    match sm.last_membership {
        Option::Some(m) => m.log_id.index <= sm.last_applied.index,
        Option::None => true,
    }
}

/// Well-formedness of the whole store: a sorted log, a consistent
/// state machine, and a snapshot that never runs ahead of the applied
/// state and whose export is itself consistent with its boundary.
pub open spec fn store_wf(s: StoreModel) -> bool {
    &&& log_wf(s.log)
    &&& sm_wf(s.sm)
    &&& match s.snapshot {
        Option::Some(sn) => sn.meta.last_log_id.index <= s.sm.last_applied.index && sm_wf(sn.data)
            && sn.data.last_applied == sn.meta.last_log_id,
        Option::None => true,
    }
}

/// The model of a store no operation has touched yet.
pub open spec fn pristine_store(node_id: NodeId) -> StoreModel {
    StoreModel {
        node_id,
        log: Seq::empty(),
        sm: StateMachineModel {
            last_applied: LogId { term: 0, index: 0 },
            last_membership: Option::None,
            data: Seq::empty(),
        },
        hard_state: Option::None,
        snapshot: Option::None,
        snapshot_seq: 0,
    }
}

/// `a` and `b` agree on everything but the state machine.
pub open spec fn same_but_sm(a: StoreModel, b: StoreModel) -> bool {
    &&& a.node_id == b.node_id
    &&& a.log == b.log
    &&& a.hard_state == b.hard_state
    &&& a.snapshot == b.snapshot
    &&& a.snapshot_seq == b.snapshot_seq
}

/// `a` and `b` agree on everything but the log.
pub open spec fn same_but_log(a: StoreModel, b: StoreModel) -> bool {
    &&& a.node_id == b.node_id
    &&& a.sm == b.sm
    &&& a.hard_state == b.hard_state
    &&& a.snapshot == b.snapshot
    &&& a.snapshot_seq == b.snapshot_seq
}

/// A received snapshot is consistent when the membership it carries
/// was introduced no later than the log id its metadata covers.
pub open spec fn snapshot_consistent(meta: SnapshotMeta, sm: StateMachineModel) -> bool {
    match sm.last_membership {
        Option::Some(m) => m.log_id.index <= meta.last_log_id.index,
        Option::None => true,
    }
}

/// How one compaction run relates the store before and after, and the
/// snapshot it hands back: the boundary is the applied state at the
/// start of the export, the export is that state itself, the snapshot
/// id is fresh, and the covered log prefix is discarded.
pub open spec fn compaction_post(pre: StoreModel, post: StoreModel, snap: SnapshotModel) -> bool {
    &&& snap.meta.last_log_id == pre.sm.last_applied
    &&& snap.meta.snapshot_id == pre.snapshot_seq
    &&& snap.data == pre.sm
    &&& post.sm == pre.sm
    &&& post.hard_state == pre.hard_state
    &&& post.node_id == pre.node_id
    &&& post.snapshot == Option::Some(snap)
    &&& post.snapshot_seq == pre.snapshot_seq + 1
    &&& exists|k: int|
        #[trigger] splits_at(pre.log, pre.sm.last_applied.index + 1, k) && post.log == pre.log.skip(
            k,
        )
}

/// How finalizing a received snapshot relates the store before and
/// after: the received export becomes the state machine baseline, the
/// metadata becomes the current snapshot, prior snapshot data is
/// gone, and the covered log prefix is discarded.
pub open spec fn install_post(
    pre: StoreModel,
    post: StoreModel,
    meta: SnapshotMeta,
    data: StateMachineModel,
) -> bool {
    &&& post.sm == (StateMachineModel {
        last_applied: meta.last_log_id,
        last_membership: data.last_membership,
        data: data.data,
    })
    &&& post.snapshot == Option::Some(SnapshotModel { meta, data: post.sm })
    &&& post.hard_state == pre.hard_state
    &&& post.node_id == pre.node_id
    &&& post.snapshot_seq == pre.snapshot_seq
    &&& exists|k: int|
        #[trigger] splits_at(pre.log, meta.last_log_id.index + 1, k) && post.log == pre.log.skip(k)
}

/// The in-memory storage engine of one node.
pub struct MemStore {
    pub node_id: NodeId,
    pub log: Vec<Entry>,
    pub sm: StateMachine,
    pub hard_state: Option<HardState>,
    pub snapshot: Option<Snapshot>,
    pub snapshot_seq: u64,
}

impl View for MemStore {
    type V = StoreModel;

    open spec fn view(&self) -> StoreModel {
        StoreModel {
            node_id: self.node_id,
            log: models_of(self.log@),
            sm: self.sm@,
            hard_state: self.hard_state,
            snapshot: opt_snapshot_model(self.snapshot),
            snapshot_seq: self.snapshot_seq,
        }
    }
}

impl MemStore {
    /// The store's well-formedness, established by `new` and preserved
    /// by every operation.
    pub open spec fn wf(&self) -> bool {
        store_wf(self@)
    }

    /// A pristine store for node `node_id`.
    pub fn new(node_id: NodeId) -> (s: Self)
        ensures
            s@ == pristine_store(node_id),
            s.wf(),
    {
        let s = MemStore {
            node_id,
            log: Vec::new(),
            sm: StateMachine::new(),
            hard_state: Option::None,
            snapshot: Option::None,
            snapshot_seq: 0,
        };
        proof {
            assert(models_of(s.log@) =~= Seq::<EntryModel>::empty());
            assert(s@ =~= pristine_store(node_id));
        }
        s
    }

    /// Durably record the node's term and vote.  The previous hard
    /// state, if any, is overwritten; nothing else changes.
    pub fn save_hard_state(&mut self, hs: &HardState) -> (r: Result<(), StorageError>)
        requires
            old(self).wf(),
        ensures
            r is Ok,
            final(self)@ == (StoreModel { hard_state: Option::Some(*hs), ..old(self)@ }),
            final(self).wf(),
    {
        self.hard_state = Option::Some(*hs);
        proof {
            assert(final(self)@ =~= StoreModel { hard_state: Option::Some(*hs), ..old(self)@ });
        }
        Result::Ok(())
    }

    /// The last saved hard state, or absence on a pristine node.
    pub fn read_hard_state(&self) -> (r: Result<Option<HardState>, StorageError>)
        ensures
            match r {
                Result::Ok(o) => o == self@.hard_state,
                Result::Err(_) => false,
            },
    {
        Result::Ok(self.hard_state)
    }

    /// The last applied log id together with the membership recorded
    /// at or before it.
    pub fn last_applied_state(&self) -> (r: Result<
        (LogId, Option<EffectiveMembership>),
        StorageError,
    >)
        ensures
            match r {
                Result::Ok((lid, om)) => lid == self@.sm.last_applied && opt_membership_model(om)
                    == self@.sm.last_membership,
                Result::Err(_) => false,
            },
    {
        let om = match &self.sm.last_membership {
            Option::Some(m) => Option::Some(m.clone()),
            Option::None => Option::None,
        };
        Result::Ok((self.sm.last_applied, om))
    }

    /// The id of the earliest entry physically in the log, regardless
    /// of what has been applied or compacted.
    pub fn first_id_in_log(&self) -> (r: Result<Option<LogId>, StorageError>)
        ensures
            match r {
                Result::Ok(o) => match o {
                    Option::Some(lid) => self@.log.len() > 0 && lid == self@.log[0].log_id,
                    Option::None => self@.log.len() == 0,
                },
                Result::Err(_) => false,
            },
    {
        if self.log.len() == 0 {
            Result::Ok(Option::None)
        } else {
            Result::Ok(Option::Some(self.log[0].log_id))
        }
    }

    /// The id of the last entry physically in the log, or the zero id
    /// on an empty log.
    pub fn last_id_in_log(&self) -> (r: Result<LogId, StorageError>)
        ensures
            match r {
                Result::Ok(lid) => if self@.log.len() > 0 {
                    lid == self@.log.last().log_id
                } else {
                    lid == (LogId { term: 0, index: 0 })
                },
                Result::Err(_) => false,
            },
    {
        if self.log.len() == 0 {
            Result::Ok(LogId { term: 0, index: 0 })
        } else {
            Result::Ok(self.log[self.log.len() - 1].log_id)
        }
    }

    /// The earliest log id this node still knows of: the smaller of
    /// the current snapshot's boundary and the first entry in the log.
    /// It never names an index that was compacted away without a
    /// snapshot covering it.
    pub fn first_known_log_id(&self) -> (r: Result<LogId, StorageError>)
        ensures
            match r {
                Result::Ok(lid) => lid == match (self@.snapshot, self@.log.len() > 0) {
                    (Option::Some(sn), true) => if sn.meta.last_log_id.index
                        <= self@.log[0].log_id.index {
                        sn.meta.last_log_id
                    } else {
                        self@.log[0].log_id
                    },
                    (Option::Some(sn), false) => sn.meta.last_log_id,
                    (Option::None, true) => self@.log[0].log_id,
                    (Option::None, false) => LogId { term: 0, index: 0 },
                },
                Result::Err(_) => false,
            },
    {
        match &self.snapshot {
            Option::Some(sn) => {
                if self.log.len() > 0 {
                    let first = self.log[0].log_id;
                    if sn.meta.last_log_id.index <= first.index {
                        Result::Ok(sn.meta.last_log_id)
                    } else {
                        Result::Ok(first)
                    }
                } else {
                    Result::Ok(sn.meta.last_log_id)
                }
            },
            Option::None => {
                if self.log.len() > 0 {
                    Result::Ok(self.log[0].log_id)
                } else {
                    Result::Ok(LogId { term: 0, index: 0 })
                }
            },
        }
    }

    /// The entry at index `log_index`, or absence; absence is a valid
    /// outcome, never an error.
    pub fn try_get_log_entry(&self, log_index: u64) -> (r: Result<Option<Entry>, StorageError>)
        requires
            self.wf(),
        ensures
            match r {
                Result::Ok(o) => match o {
                    Option::Some(e) => e@.log_id.index == log_index && exists|i: int|
                        0 <= i < self@.log.len() && #[trigger] self@.log[i] == e@,
                    Option::None => !has_index(self@.log, log_index),
                },
                Result::Err(_) => false,
            },
    {
        let mut i: usize = 0;
        while i < self.log.len()
            invariant
                i <= self.log.len(),
                forall|j: int|
                    0 <= j < i ==> (#[trigger] models_of(self.log@)[j]).log_id.index != log_index,
            decreases self.log.len() - i,
        {
            if self.log[i].log_id.index == log_index {
                let e = self.log[i].clone();
                proof {
                    assert(self@.log[i as int] == e@);
                    assert(exists|j: int| 0 <= j < self@.log.len() && #[trigger] self@.log[j] == e@);
                }
                return Result::Ok(Option::Some(e));
            }
            i = i + 1;
        }
        Result::Ok(Option::None)
    }

    /// All the entries that exist with index in `[start, stop)`, in
    /// index order; missing indices are tolerated and simply absent
    /// from the result.
    pub fn try_get_log_entries(&self, start: u64, stop: u64) -> (r: Result<
        Vec<Entry>,
        StorageError,
    >)
        requires
            self.wf(),
        ensures
            match r {
                Result::Ok(v) => {
                    &&& start >= stop ==> v@.len() == 0
                    &&& start < stop ==> exists|lo: int, hi: int|
                        #![all_triggers]
                        splits_at(self@.log, start as int, lo) && splits_at(
                            self@.log,
                            stop as int,
                            hi,
                        ) && lo <= hi && models_of(v@) == self@.log.subrange(lo, hi)
                },
                Result::Err(_) => false,
            },
    {
        if start >= stop {
            let v: Vec<Entry> = Vec::new();
            return Result::Ok(v);
        }
        let ghost logm = self@.log;
        let mut lo: usize = 0;
        while lo < self.log.len() && self.log[lo].log_id.index < start
            invariant
                lo <= self.log.len(),
                logm == self@.log,
                forall|j: int| 0 <= j < lo ==> (#[trigger] logm[j]).log_id.index < start,
            decreases self.log.len() - lo,
        {
            lo = lo + 1;
        }
        proof {
            assert forall|i: int| lo <= i < logm.len() implies (#[trigger] logm[i]).log_id.index
                >= start by {
                if i > lo {
                    assert(logm[lo as int].log_id.index < logm[i].log_id.index);
                }
            }
            assert(splits_at(logm, start as int, lo as int));
        }
        let mut hi: usize = lo;
        while hi < self.log.len() && self.log[hi].log_id.index < stop
            invariant
                lo <= hi <= self.log.len(),
                logm == self@.log,
                forall|j: int| 0 <= j < lo ==> (#[trigger] logm[j]).log_id.index < start,
                forall|j: int| lo <= j < hi ==> (#[trigger] logm[j]).log_id.index < stop,
            decreases self.log.len() - hi,
        {
            hi = hi + 1;
        }
        proof {
            assert forall|i: int| hi <= i < logm.len() implies (#[trigger] logm[i]).log_id.index
                >= stop by {
                if i > hi {
                    assert(logm[hi as int].log_id.index < logm[i].log_id.index);
                }
            }
            assert forall|j: int| 0 <= j < hi implies (#[trigger] logm[j]).log_id.index < stop by {}
            assert(splits_at(logm, stop as int, hi as int));
        }
        let mut v: Vec<Entry> = Vec::new();
        proof {
            assert(models_of(v@) =~= logm.subrange(lo as int, lo as int));
        }
        let mut i: usize = lo;
        while i < hi
            invariant
                lo <= i <= hi <= self.log.len(),
                logm == self@.log,
                models_of(v@) == logm.subrange(lo as int, i as int),
            decreases hi - i,
        {
            let e = self.log[i].clone();
            v.push(e);
            proof {
                assert(models_of(v@) =~= logm.subrange(lo as int, i as int).push(
                    logm[i as int],
                ));
                assert(models_of(v@) =~= logm.subrange(lo as int, i + 1));
            }
            i = i + 1;
        }
        proof {
            assert(splits_at(self@.log, start as int, lo as int) && splits_at(
                self@.log,
                stop as int,
                hi as int,
            ) && lo as int <= hi as int && models_of(v@) == self@.log.subrange(
                lo as int,
                hi as int,
            ));
        }
        Result::Ok(v)
    }

    /// The entries with index in `[start, stop)`, all of which must be
    /// present: a gap is an error naming the first missing index.
    pub fn get_log_entries(&self, start: u64, stop: u64) -> (r: Result<Vec<Entry>, StorageError>)
        requires
            self.wf(),
        ensures
            match r {
                Result::Ok(v) => {
                    &&& forall|idx: u64|
                        start <= idx < stop ==> #[trigger] has_index(self@.log, idx)
                    &&& start >= stop ==> v@.len() == 0
                    &&& start < stop ==> v@.len() == stop - start
                    &&& forall|k: int|
                        0 <= k < v@.len() ==> (#[trigger] models_of(v@)[k]).log_id.index == start
                            + k && exists|i: int|
                            0 <= i < self@.log.len() && #[trigger] self@.log[i] == models_of(v@)[k]
                },
                Result::Err(e) => match e {
                    StorageError::MissingLogEntry { index } => start <= index < stop
                        && !has_index(self@.log, index) && forall|idx: u64|
                        start <= idx < index ==> #[trigger] has_index(self@.log, idx),
                    _ => false,
                },
            },
    {
        let mut v: Vec<Entry> = Vec::new();
        let mut idx: u64 = start;
        while idx < stop
            invariant
                self.wf(),
                start <= idx,
                start < stop ==> idx <= stop,
                start >= stop ==> idx == start,
                v@.len() == idx - start,
                forall|q: u64| start <= q < idx ==> #[trigger] has_index(self@.log, q),
                forall|k: int|
                    0 <= k < v@.len() ==> (#[trigger] models_of(v@)[k]).log_id.index == start + k
                        && exists|i: int|
                        0 <= i < self@.log.len() && #[trigger] self@.log[i] == models_of(v@)[k],
            decreases stop - idx,
        {
            match self.try_get_log_entry(idx)? {
                Option::Some(e) => {
                    let ghost prev = models_of(v@);
                    v.push(e);
                    proof {
                        assert(models_of(v@) =~= prev.push(e@));
                    }
                },
                Option::None => {
                    return Result::Err(StorageError::MissingLogEntry { index: idx });
                },
            }
            idx = idx + 1;
        }
        Result::Ok(v)
    }

    /// Remove the suffix of the log whose indices are at or above
    /// `bound`, leaving everything else untouched.
    fn truncate_from(&mut self, bound: u64)
        requires
            old(self).wf(),
        ensures
            same_but_log(final(self)@, old(self)@),
            exists|k: int|
                #[trigger] splits_at(old(self)@.log, bound as int, k) && final(self)@.log == old(
                    self,
                )@.log.take(k),
            final(self).wf(),
    {
        let ghost oldlog = old(self)@.log;
        proof {
            assert(self@.log =~= oldlog.take(self@.log.len() as int));
        }
        while self.log.len() > 0 && self.log[self.log.len() - 1].log_id.index >= bound
            invariant
                same_but_log(self@, old(self)@),
                log_wf(oldlog),
                oldlog == old(self)@.log,
                self@.log.len() <= oldlog.len(),
                self@.log == oldlog.take(self@.log.len() as int),
                forall|i: int|
                    self@.log.len() <= i < oldlog.len() ==> (#[trigger] oldlog[i]).log_id.index
                        >= bound,
            decreases self.log.len(),
        {
            let ghost n = self@.log.len() as int;
            proof {
                assert(self@.log[n - 1] == oldlog.take(n)[n - 1]);
                assert(self@.log[n - 1] == oldlog[n - 1]);
            }
            self.log.pop();
            proof {
                assert(models_of(self.log@) =~= oldlog.take(self.log@.len() as int));
            }
        }
        proof {
            let k = self@.log.len() as int;
            if k > 0 {
                assert(self@.log[k - 1].log_id.index < bound);
                assert(self@.log[k - 1] == oldlog.take(k)[k - 1]);
                assert(self@.log[k - 1] == oldlog[k - 1]);
            }
            assert forall|i: int| 0 <= i < k implies (#[trigger] oldlog[i]).log_id.index
                < bound by {
                if i < k - 1 {
                    assert(oldlog[i].log_id.index < oldlog[k - 1].log_id.index);
                }
            }
            assert(splits_at(oldlog, bound as int, k));
            assert(log_wf(self@.log));
        }
    }

    /// Append a batch of entries.  Each entry's own index determines
    /// its slot: whatever the log held from the first new index onward
    /// is overwritten, so a caller may re-append an overlapping range
    /// to repair a conflicting suffix.
    pub fn append_to_log(&mut self, entries: &Vec<Entry>) -> (r: Result<(), StorageError>)
        requires
            old(self).wf(),
            can_append(old(self)@.log, models_of(entries@)),
        ensures
            r is Ok,
            entries@.len() == 0 ==> final(self)@ == old(self)@,
            entries@.len() > 0 ==> exists|k: int|
                #[trigger] splits_at(
                    old(self)@.log,
                    models_of(entries@)[0].log_id.index as int,
                    k,
                ) && final(self)@ == (StoreModel {
                    log: old(self)@.log.take(k) + models_of(entries@),
                    ..old(self)@
                }),
            final(self).wf(),
    {
        if entries.len() == 0 {
            return Result::Ok(());
        }
        let ghost n = models_of(entries@);
        let bound = entries[0].log_id.index;
        self.truncate_from(bound);
        let ghost mid = self@;
        let ghost k = choose|k: int|
            #[trigger] splits_at(old(self)@.log, bound as int, k) && mid.log == old(
                self,
            )@.log.take(k);
        let mut i: usize = 0;
        proof {
            assert(self@.log =~= mid.log + n.take(0));
        }
        while i < entries.len()
            invariant
                i <= entries.len(),
                n == models_of(entries@),
                same_but_log(self@, mid),
                self@.log == mid.log + n.take(i as int),
            decreases entries.len() - i,
        {
            let e = entries[i].clone();
            let ghost prevm = models_of(self.log@);
            let ghost em = e@;
            self.log.push(e);
            proof {
                assert(em == n[i as int]);
                assert(models_of(self.log@) =~= prevm.push(em));
                assert(models_of(self.log@) =~= mid.log + n.take(i + 1));
            }
            i = i + 1;
        }
        proof {
            assert(n.take(entries@.len() as int) =~= n);
            assert(final(self)@ =~= (StoreModel {
                log: old(self)@.log.take(k) + n,
                ..old(self)@
            }));
            assert(n[0].log_id.index == bound);
            assert(splits_at(old(self)@.log, n[0].log_id.index as int, k));
            assert(exists|k2: int|
                #[trigger] splits_at(old(self)@.log, n[0].log_id.index as int, k2) && final(self)@
                    == (StoreModel { log: old(self)@.log.take(k2) + n, ..old(self)@ }));
            let fl = final(self)@.log;
            assert forall|a: int, b: int| 0 <= a < b < fl.len() implies (#[trigger] fl[a]).log_id.index
                < (#[trigger] fl[b]).log_id.index && fl[a].log_id.term <= fl[b].log_id.term by {
                if b < k {
                } else if a < k {
                    assert(fl[a] == old(self)@.log[a]);
                    assert(fl[b] == n[b - k]);
                    assert(old(self)@.log[a].log_id.index < bound);
                    if b - k > 0 {
                        assert(n[0].log_id.index < n[b - k].log_id.index && n[0].log_id.term <= n[
                            b - k
                        ].log_id.term);
                    }
                    assert(old(self)@.log[a].log_id.term <= n[0].log_id.term);
                } else {
                    assert(fl[a] == n[a - k] && fl[b] == n[b - k]);
                }
            }
        }
        Result::Ok(())
    }

    /// Delete the entries with index in `[start, stop)`, or the whole
    /// suffix from `start` when `stop` is absent.  A suffix truncation
    /// that would reach entries at or below the applied index is
    /// rejected; a bounded deletion (used to discard a compacted
    /// prefix) is always carried out.
    pub fn delete_logs_from(&mut self, start: u64, stop: Option<u64>) -> (r: Result<
        (),
        StorageError,
    >)
        requires
            old(self).wf(),
        ensures
            final(self).wf(),
            match stop {
                Option::Some(s) => {
                    &&& r is Ok
                    &&& start >= s ==> final(self)@ == old(self)@
                    &&& start < s ==> exists|k1: int, k2: int|
                        #![all_triggers]
                        splits_at(old(self)@.log, start as int, k1) && splits_at(
                            old(self)@.log,
                            s as int,
                            k2,
                        ) && k1 <= k2 && final(self)@ == (StoreModel {
                            log: old(self)@.log.take(k1) + old(self)@.log.skip(k2),
                            ..old(self)@
                        })
                },
                Option::None => {
                    &&& start <= old(self)@.sm.last_applied.index ==> r == Result::<
                        (),
                        StorageError,
                    >::Err(
                        StorageError::AppliedRangeProtected {
                            start,
                            last_applied: old(self)@.sm.last_applied.index,
                        },
                    ) && final(self)@ == old(self)@
                    &&& start > old(self)@.sm.last_applied.index ==> r is Ok && exists|k: int|
                        #[trigger] splits_at(old(self)@.log, start as int, k) && final(self)@
                            == (StoreModel { log: old(self)@.log.take(k), ..old(self)@ })
                },
            },
    {
        match stop {
            Option::None => {
                if start <= self.sm.last_applied.index {
                    return Result::Err(
                        StorageError::AppliedRangeProtected {
                            start,
                            last_applied: self.sm.last_applied.index,
                        },
                    );
                }
                self.truncate_from(start);
                proof {
                    let k = choose|k: int|
                        #[trigger] splits_at(old(self)@.log, start as int, k) && final(self)@.log
                            == old(self)@.log.take(k);
                    assert(final(self)@ =~= (StoreModel {
                        log: old(self)@.log.take(k),
                        ..old(self)@
                    }));
                }
                Result::Ok(())
            },
            Option::Some(s) => {
                if start >= s {
                    return Result::Ok(());
                }
                let ghost logm = self@.log;
                let mut k1: usize = 0;
                while k1 < self.log.len() && self.log[k1].log_id.index < start
                    invariant
                        k1 <= self.log.len(),
                        logm == self@.log,
                        forall|j: int| 0 <= j < k1 ==> (#[trigger] logm[j]).log_id.index < start,
                    decreases self.log.len() - k1,
                {
                    k1 = k1 + 1;
                }
                proof {
                    assert forall|i: int| k1 <= i < logm.len() implies (#[trigger] logm[i]).log_id.index
                        >= start by {
                        if i > k1 {
                            assert(logm[k1 as int].log_id.index < logm[i].log_id.index);
                        }
                    }
                    assert(splits_at(logm, start as int, k1 as int));
                }
                let mut k2: usize = k1;
                while k2 < self.log.len() && self.log[k2].log_id.index < s
                    invariant
                        k1 <= k2 <= self.log.len(),
                        logm == self@.log,
                        forall|j: int| 0 <= j < k1 ==> (#[trigger] logm[j]).log_id.index < start,
                        forall|j: int| k1 <= j < k2 ==> (#[trigger] logm[j]).log_id.index < s,
                    decreases self.log.len() - k2,
                {
                    k2 = k2 + 1;
                }
                proof {
                    assert forall|i: int| k2 <= i < logm.len() implies (#[trigger] logm[i]).log_id.index
                        >= s by {
                        if i > k2 {
                            assert(logm[k2 as int].log_id.index < logm[i].log_id.index);
                        }
                    }
                    assert forall|j: int| 0 <= j < k2 implies (#[trigger] logm[j]).log_id.index
                        < s by {}
                    assert(splits_at(logm, s as int, k2 as int));
                }
                let mut v: Vec<Entry> = Vec::new();
                proof {
                    assert(models_of(v@) =~= logm.take(0));
                }
                let mut i: usize = 0;
                while i < k1
                    invariant
                        i <= k1 <= self.log.len(),
                        logm == self@.log,
                        models_of(v@) == logm.take(i as int),
                    decreases k1 - i,
                {
                    let e = self.log[i].clone();
                    let ghost prevm = models_of(v@);
                    let ghost em = e@;
                    v.push(e);
                    proof {
                        assert(em == logm[i as int]);
                        assert(models_of(v@) =~= prevm.push(em));
                        assert(models_of(v@) =~= logm.take(i + 1));
                    }
                    i = i + 1;
                }
                let mut j: usize = k2;
                proof {
                    assert(models_of(v@) =~= logm.take(k1 as int) + logm.subrange(
                        k2 as int,
                        k2 as int,
                    ));
                }
                while j < self.log.len()
                    invariant
                        k1 <= k2 <= j <= self.log.len(),
                        logm == self@.log,
                        models_of(v@) == logm.take(k1 as int) + logm.subrange(k2 as int, j as int),
                    decreases self.log.len() - j,
                {
                    let e = self.log[j].clone();
                    let ghost prevm = models_of(v@);
                    let ghost em = e@;
                    v.push(e);
                    proof {
                        assert(em == logm[j as int]);
                        assert(models_of(v@) =~= prevm.push(em));
                        assert(models_of(v@) =~= logm.take(k1 as int) + logm.subrange(
                            k2 as int,
                            j + 1,
                        ));
                    }
                    j = j + 1;
                }
                self.log = v;
                proof {
                    assert(logm.subrange(k2 as int, logm.len() as int) =~= logm.skip(k2 as int));
                    assert(final(self)@ =~= (StoreModel {
                        log: old(self)@.log.take(k1 as int) + old(self)@.log.skip(k2 as int),
                        ..old(self)@
                    }));
                    let fl = final(self)@.log;
                    assert forall|a: int, b: int|
                        0 <= a < b < fl.len() implies (#[trigger] fl[a]).log_id.index < (
                    #[trigger] fl[b]).log_id.index && fl[a].log_id.term <= fl[b].log_id.term by {
                        let oa = if a < k1 {
                            a
                        } else {
                            a - k1 + k2
                        };
                        let ob = if b < k1 {
                            b
                        } else {
                            b - k1 + k2
                        };
                        assert(fl[a] == old(self)@.log[oa]);
                        assert(fl[b] == old(self)@.log[ob]);
                        assert(oa < ob);
                    }
                }
                Result::Ok(())
            },
        }
    }

    /// Apply a committed batch to the state machine, strictly in
    /// order and gap-free after the previously applied index.  One
    /// response per entry comes back in the same order: the command's
    /// value for a normal entry, a placeholder for the rest.  The
    /// applied index advances by exactly the batch's length, and a
    /// membership entry in the batch becomes the tracked membership.
    /// Snapshot-pointer markers must never be handed to the applier.
    pub fn apply_to_state_machine(&mut self, entries: &Vec<Entry>) -> (r: Result<
        Vec<Response>,
        StorageError,
    >)
        requires
            old(self).wf(),
            forall|i: int|
                0 <= i < entries@.len() ==> (#[trigger] models_of(entries@)[i]).log_id.index
                    == old(self)@.sm.last_applied.index + 1 + i,
            log_wf(models_of(entries@)),
            forall|i: int|
                0 <= i < entries@.len() ==> !entry_is_snapshot_pointer(
                    #[trigger] models_of(entries@)[i],
                ),
        ensures
            final(self).wf(),
            same_but_sm(final(self)@, old(self)@),
            final(self)@.sm.last_applied.index == old(self)@.sm.last_applied.index
                + entries@.len(),
            match r {
                Result::Ok(resp) => {
                    &&& resp@.len() == entries@.len()
                    &&& forall|i: int|
                        0 <= i < resp@.len() ==> resp@[i] == response_for(
                            #[trigger] models_of(entries@)[i],
                        )
                    &&& final(self)@.sm.last_applied == if entries@.len() == 0 {
                        old(self)@.sm.last_applied
                    } else {
                        models_of(entries@).last().log_id
                    }
                    &&& final(self)@.sm.last_membership == match last_membership_since(
                        models_of(entries@),
                        0,
                    ) {
                        Option::Some(em) => Option::Some(em),
                        Option::None => old(self)@.sm.last_membership,
                    }
                    &&& final(self)@.sm.data == old(self)@.sm.data + commands_of(
                        models_of(entries@),
                    )
                },
                Result::Err(_) => false,
            },
    {
        let ghost n = models_of(entries@);
        let mut responses: Vec<Response> = Vec::new();
        let mut i: usize = 0;
        proof {
            assert(n.take(0) =~= Seq::<EntryModel>::empty());
            assert(self@.sm.data =~= old(self)@.sm.data + commands_of(n.take(0)));
        }
        while i < entries.len()
            invariant
                i <= entries.len(),
                n == models_of(entries@),
                forall|j: int|
                    0 <= j < n.len() ==> (#[trigger] n[j]).log_id.index == old(
                        self,
                    )@.sm.last_applied.index + 1 + j,
                forall|j: int| 0 <= j < n.len() ==> !entry_is_snapshot_pointer(#[trigger] n[j]),
                store_wf(old(self)@),
                same_but_sm(self@, old(self)@),
                responses@.len() == i,
                forall|j: int| 0 <= j < i ==> responses@[j] == response_for(#[trigger] n[j]),
                self@.sm.last_applied == if i == 0 {
                    old(self)@.sm.last_applied
                } else {
                    n[i - 1].log_id
                },
                self@.sm.last_membership == match last_membership_since(n.take(i as int), 0) {
                    Option::Some(em) => Option::Some(em),
                    Option::None => old(self)@.sm.last_membership,
                },
                self@.sm.data == old(self)@.sm.data + commands_of(n.take(i as int)),
                sm_wf(self@.sm),
                self@.sm.last_applied.index == old(self)@.sm.last_applied.index + i,
            decreases entries.len() - i,
        {
            match &entries[i].payload {
                EntryPayload::Blank => {
                    responses.push(Response::Placeholder);
                },
                EntryPayload::Normal(c) => {
                    self.sm.data.push(*c);
                    responses.push(Response::Applied(*c));
                },
                EntryPayload::Membership(m) => {
                    self.sm.last_membership = Option::Some(
                        EffectiveMembership { log_id: entries[i].log_id, membership: m.clone() },
                    );
                    responses.push(Response::Placeholder);
                },
                EntryPayload::SnapshotPointer(_) => {
                    proof {
                        assert(entry_is_snapshot_pointer(n[i as int]));
                        assert(false);
                    }
                    responses.push(Response::Placeholder);
                },
            }
            self.sm.last_applied = entries[i].log_id;
            proof {
                assert(n.take(i + 1).drop_last() =~= n.take(i as int));
                assert(n.take(i + 1).last() == n[i as int]);
            }
            i = i + 1;
        }
        proof {
            assert(n.take(entries@.len() as int) =~= n);
            if entries@.len() > 0 {
                assert(n.last() == n[n.len() - 1]);
            }
        }
        Result::Ok(responses)
    }

    /// The most recent membership entry still in the log whose index
    /// is at or above `since_index`, found by scanning the log
    /// backward from its tail in windows of 64 entries: membership
    /// changes are rare, and the newest one is the one that matters,
    /// so the scan's work is proportional to the distance from the
    /// tail, not to the length of the log.
    pub fn last_membership_in_log(&self, since_index: u64) -> (r: Result<
        Option<EffectiveMembership>,
        StorageError,
    >)
        requires
            self.wf(),
            self@.log.len() > 0 ==> self@.log.last().log_id.index < u64::MAX,
        ensures
            match r {
                Result::Ok(o) => opt_membership_model(o) == last_membership_since(
                    self@.log,
                    since_index as int,
                ),
                Result::Err(_) => false,
            },
    {
        let ghost logm = self@.log;
        let ghost since = since_index as int;
        let first = match self.first_id_in_log()? {
            Option::None => {
                proof {
                    lemma_last_membership_since_none(logm, since);
                }
                return Result::Ok(Option::None);
            },
            Option::Some(f) => f,
        };
        let last = self.last_id_in_log()?;
        let mut end: u64 = last.index + 1;
        let floor: u64 = if first.index > since_index {
            first.index
        } else {
            since_index
        };
        proof {
            assert forall|i: int| 0 <= i < logm.len() implies (#[trigger] logm[i]).log_id.index
                < end by {
                if i < logm.len() - 1 {
                    assert(logm[i].log_id.index < logm[logm.len() - 1].log_id.index);
                }
            }
        }
        while floor < end
            invariant
                self.wf(),
                logm == self@.log,
                logm.len() > 0,
                first == logm[0].log_id,
                since == since_index as int,
                floor == if first.index > since_index {
                    first.index
                } else {
                    since_index
                },
                forall|i: int|
                    0 <= i < logm.len() ==> !(entry_is_membership(#[trigger] logm[i])
                        && logm[i].log_id.index >= since && logm[i].log_id.index >= end),
            decreases end,
        {
            let ws: u64 = if end - floor > 64 {
                end - 64
            } else {
                floor
            };
            let entries = self.try_get_log_entries(ws, end)?;
            let ghost ems = models_of(entries@);
            let ghost (lo, hi) = choose|lo: int, hi: int|
                #![all_triggers]
                splits_at(logm, ws as int, lo) && splits_at(logm, end as int, hi) && lo <= hi
                    && ems == logm.subrange(lo, hi);
            let mut p: usize = entries.len();
            while p > 0
                invariant
                    p <= entries.len(),
                    self.wf(),
                    logm == self@.log,
                    since == since_index as int,
                    splits_at(logm, ws as int, lo),
                    splits_at(logm, end as int, hi),
                    0 <= lo <= hi <= logm.len(),
                    ems == models_of(entries@),
                    ems == logm.subrange(lo, hi),
                    forall|i: int|
                        0 <= i < logm.len() ==> !(entry_is_membership(#[trigger] logm[i])
                            && logm[i].log_id.index >= since && logm[i].log_id.index >= end),
                    forall|q: int|
                        p <= q < ems.len() ==> !(entry_is_membership(#[trigger] ems[q])
                            && ems[q].log_id.index >= since),
                decreases p,
            {
                p = p - 1;
                match &entries[p].payload {
                    EntryPayload::Membership(m) => {
                        if entries[p].log_id.index >= since_index {
                            let em = EffectiveMembership {
                                log_id: entries[p].log_id,
                                membership: m.clone(),
                            };
                            proof {
                                let i0: int = lo + (p as int);
                                assert(0 <= p < ems.len());
                                assert(ems.len() == hi - lo);
                                assert(ems[p as int] == logm.subrange(lo, hi)[p as int]);
                                assert(logm[i0] == ems[p as int]);
                                assert(entry_is_membership(logm[i0]));
                                assert forall|j: int| i0 < j < logm.len() implies !(
                                entry_is_membership(#[trigger] logm[j]) && logm[j].log_id.index
                                    >= since) by {
                                    if j < hi {
                                        assert(logm[j] == ems[j - lo]);
                                    } else {
                                        assert(logm[j].log_id.index >= end);
                                    }
                                }
                                lemma_last_membership_since_found(logm, since, i0);
                                assert(em@ == EffectiveMembershipModel {
                                    log_id: logm[i0].log_id,
                                    membership: membership_of(logm[i0]),
                                });
                            }
                            return Result::Ok(Option::Some(em));
                        }
                    },
                    _ => {},
                }
            }
            proof {
                assert forall|i: int| 0 <= i < logm.len() implies !(entry_is_membership(
                    #[trigger] logm[i],
                ) && logm[i].log_id.index >= since && logm[i].log_id.index >= ws) by {
                    if logm[i].log_id.index < end {
                        if logm[i].log_id.index >= ws {
                            assert(lo <= i < hi);
                            assert(ems[i - lo] == logm[i]);
                        }
                    }
                }
            }
            end = ws;
        }
        proof {
            assert forall|i: int| 0 <= i < logm.len() implies !(entry_is_membership(
                #[trigger] logm[i],
            ) && logm[i].log_id.index >= since) by {
                if logm[i].log_id.index < end {
                    if i > 0 {
                        assert(logm[0].log_id.index < logm[i].log_id.index);
                    }
                }
            }
            lemma_last_membership_since_none(logm, since);
        }
        Result::Ok(Option::None)
    }

    /// The membership the consensus core must act on: the most recent
    /// membership entry still in the log past the one the state
    /// machine has applied, and otherwise the state machine's own.
    pub fn get_membership(&self) -> (r: Result<Option<EffectiveMembership>, StorageError>)
        requires
            self.wf(),
            self@.log.len() > 0 ==> self@.log.last().log_id.index < u64::MAX,
            match self@.sm.last_membership {
                Option::Some(m) => m.log_id.index < u64::MAX,
                Option::None => true,
            },
        ensures
            match r {
                Result::Ok(o) => opt_membership_model(o) == resolved_membership(
                    self@.log,
                    self@.sm.last_membership,
                ),
                Result::Err(_) => false,
            },
    {
        let (_, sm_mem) = self.last_applied_state()?;
        let since_index: u64 = match &sm_mem {
            Option::None => 0,
            Option::Some(m) => m.log_id.index + 1,
        };
        let log_mem = self.last_membership_in_log(since_index)?;
        match log_mem {
            Option::Some(em) => Result::Ok(Option::Some(em)),
            Option::None => Result::Ok(sm_mem),
        }
    }

    /// Drop every log entry whose index is at or below `through`,
    /// keeping the rest.
    fn discard_prefix_through(&mut self, through: u64)
        requires
            old(self).wf(),
        ensures
            same_but_log(final(self)@, old(self)@),
            exists|k: int|
                #[trigger] splits_at(old(self)@.log, through as int + 1, k) && final(self)@.log
                    == old(self)@.log.skip(k),
            final(self).wf(),
    {
        let ghost logm = self@.log;
        let mut k: usize = 0;
        while k < self.log.len() && self.log[k].log_id.index <= through
            invariant
                k <= self.log.len(),
                logm == self@.log,
                forall|j: int| 0 <= j < k ==> (#[trigger] logm[j]).log_id.index <= through,
            decreases self.log.len() - k,
        {
            k = k + 1;
        }
        proof {
            assert forall|i: int| k <= i < logm.len() implies (#[trigger] logm[i]).log_id.index
                > through by {
                if i > k {
                    assert(logm[k as int].log_id.index < logm[i].log_id.index);
                }
            }
            assert(splits_at(logm, through as int + 1, k as int));
        }
        let mut v: Vec<Entry> = Vec::new();
        proof {
            assert(models_of(v@) =~= logm.subrange(k as int, k as int));
        }
        let mut j: usize = k;
        while j < self.log.len()
            invariant
                k <= j <= self.log.len(),
                logm == self@.log,
                models_of(v@) == logm.subrange(k as int, j as int),
            decreases self.log.len() - j,
        {
            let e = self.log[j].clone();
            let ghost prevm = models_of(v@);
            let ghost em = e@;
            v.push(e);
            proof {
                assert(em == logm[j as int]);
                assert(models_of(v@) =~= prevm.push(em));
                assert(models_of(v@) =~= logm.subrange(k as int, j + 1));
            }
            j = j + 1;
        }
        self.log = v;
        proof {
            assert(final(self)@.log =~= logm.skip(k as int));
            let fl = final(self)@.log;
            assert forall|a: int, b: int|
                0 <= a < b < fl.len() implies (#[trigger] fl[a]).log_id.index < (
            #[trigger] fl[b]).log_id.index && fl[a].log_id.term <= fl[b].log_id.term by {
                assert(fl[a] == logm[k + a]);
                assert(fl[b] == logm[k + b]);
            }
        }
    }

    /// Build a compacting snapshot of the state machine as of its
    /// last applied log id, make it the current snapshot, and discard
    /// the log prefix it covers.  The boundary is fixed at the
    /// export's own last-applied value; the snapshot id is fresh, so
    /// that two snapshots over the same boundary can be told apart
    /// during transfer.
    pub fn do_log_compaction(&mut self) -> (r: Result<Snapshot, StorageError>)
        requires
            old(self).wf(),
            old(self)@.snapshot_seq < u64::MAX,
        ensures
            final(self).wf(),
            match r {
                Result::Ok(snap) => compaction_post(old(self)@, final(self)@, snap@),
                Result::Err(_) => false,
            },
    {
        let boundary = self.sm.last_applied;
        let meta = SnapshotMeta { last_log_id: boundary, snapshot_id: self.snapshot_seq };
        self.snapshot_seq = self.snapshot_seq + 1;
        let data = self.sm.clone();
        let snap = Snapshot { meta, data };
        let kept = snap.clone();
        self.snapshot = Option::Some(kept);
        proof {
            assert(self.wf());
        }
        self.discard_prefix_through(boundary.index);
        proof {
            assert(compaction_post(old(self)@, final(self)@, snap@));
        }
        Result::Ok(snap)
    }

    /// A fresh, empty destination for an inbound snapshot transfer.
    /// Streaming bytes into it and decoding them is the transport's
    /// business; the storage engine receives the decoded export.  The
    /// current snapshot is unaffected until installation is finalized.
    pub fn begin_receiving_snapshot(&self) -> (r: Result<StateMachine, StorageError>)
        ensures
            match r {
                Result::Ok(sm) => sm@ == (StateMachineModel {
                    last_applied: LogId { term: 0, index: 0 },
                    last_membership: Option::None,
                    data: Seq::empty(),
                }),
                Result::Err(_) => false,
            },
    {
        Result::Ok(StateMachine::new())
    }

    /// Atomically adopt a received snapshot as the new state-machine
    /// baseline: the export becomes the applied state, `meta` becomes
    /// the current snapshot's metadata, all prior snapshot data is
    /// discarded, and the covered log prefix is dropped.  A snapshot
    /// whose membership is newer than its own boundary is rejected
    /// and nothing changes.  The consensus core installs only
    /// snapshots that do not lag the applied state.
    pub fn finalize_snapshot_installation(
        &mut self,
        meta: &SnapshotMeta,
        snapshot: StateMachine,
    ) -> (r: Result<StateMachineChanges, StorageError>)
        requires
            old(self).wf(),
            meta.last_log_id.index >= old(self)@.sm.last_applied.index,
        ensures
            final(self).wf(),
            match r {
                Result::Ok(ch) => {
                    &&& snapshot_consistent(*meta, snapshot@)
                    &&& install_post(old(self)@, final(self)@, *meta, snapshot@)
                    &&& ch == (StateMachineChanges {
                        last_applied: meta.last_log_id,
                        is_snapshot: true,
                    })
                },
                Result::Err(e) => {
                    &&& !snapshot_consistent(*meta, snapshot@)
                    &&& final(self)@ == old(self)@
                    &&& match snapshot@.last_membership {
                        Option::Some(m) => e == (StorageError::SnapshotInconsistent {
                            last_log_id: meta.last_log_id,
                            membership_log_id: m.log_id,
                        }),
                        Option::None => false,
                    }
                },
            },
    {
        match &snapshot.last_membership {
            Option::Some(m) => {
                if m.log_id.index > meta.last_log_id.index {
                    return Result::Err(
                        StorageError::SnapshotInconsistent {
                            last_log_id: meta.last_log_id,
                            membership_log_id: m.log_id,
                        },
                    );
                }
            },
            Option::None => {},
        }
        let mut sm = snapshot;
        sm.last_applied = meta.last_log_id;
        self.sm = sm;
        let kept = self.sm.clone();
        self.snapshot = Option::Some(Snapshot { meta: *meta, data: kept });
        proof {
            assert(self.wf());
        }
        self.discard_prefix_through(meta.last_log_id.index);
        proof {
            assert(install_post(old(self)@, final(self)@, *meta, snapshot@));
        }
        Result::Ok(StateMachineChanges { last_applied: meta.last_log_id, is_snapshot: true })
    }

    /// The current snapshot and its metadata; absent only on a node
    /// that has never compacted nor installed one.
    pub fn get_current_snapshot(&self) -> (r: Result<Option<Snapshot>, StorageError>)
        ensures
            match r {
                Result::Ok(o) => opt_snapshot_model(o) == self@.snapshot,
                Result::Err(_) => false,
            },
    {
        match &self.snapshot {
            Option::Some(s) => Result::Ok(Option::Some(s.clone())),
            Option::None => Result::Ok(Option::None),
        }
    }

    /// The bootstrap view of all durable state, read once at startup.
    /// A pristine node (no hard state ever saved) gets the initial
    /// state for its own id, and its empty hard state is persisted;
    /// otherwise the saved state is reported: the last log id from
    /// the log (falling back to the applied id when the log is fully
    /// compacted), the applied state, and the resolved membership,
    /// with a single-node configuration when nothing was ever found.
    pub fn get_initial_state(&mut self) -> (r: Result<InitialState, StorageError>)
        requires
            old(self).wf(),
            old(self)@.log.len() > 0 ==> old(self)@.log.last().log_id.index < u64::MAX,
            match old(self)@.sm.last_membership {
                Option::Some(m) => m.log_id.index < u64::MAX,
                Option::None => true,
            },
        ensures
            final(self).wf(),
            match r {
                Result::Ok(ist) => match old(self)@.hard_state {
                    Option::None => {
                        &&& ist@ == pristine_initial_state(old(self)@.node_id)
                        &&& final(self)@ == (StoreModel {
                            hard_state: Option::Some(
                                HardState { current_term: 0, voted_for: Option::None },
                            ),
                            ..old(self)@
                        })
                    },
                    Option::Some(hs) => {
                        &&& final(self)@ == old(self)@
                        &&& ist@.hard_state == hs
                        &&& ist@.last_applied == old(self)@.sm.last_applied
                        &&& ist@.last_log_id == if old(self)@.log.len() > 0 {
                            old(self)@.log.last().log_id
                        } else {
                            old(self)@.sm.last_applied
                        }
                        &&& ist@.last_membership == match resolved_membership(
                            old(self)@.log,
                            old(self)@.sm.last_membership,
                        ) {
                            Option::Some(em) => em,
                            Option::None => EffectiveMembershipModel {
                                log_id: LogId { term: 0, index: 0 },
                                membership: MembershipModel {
                                    members: seq![old(self)@.node_id],
                                    learners: Seq::empty(),
                                },
                            },
                        }
                    },
                },
                Result::Err(_) => false,
            },
    {
        match self.read_hard_state()? {
            Option::None => {
                let ist = InitialState::new_initial(self.node_id);
                let hs = HardState { current_term: 0, voted_for: Option::None };
                self.save_hard_state(&hs)?;
                Result::Ok(ist)
            },
            Option::Some(hs) => {
                let last_membership = match self.get_membership()? {
                    Option::Some(em) => em,
                    Option::None => EffectiveMembership {
                        log_id: LogId { term: 0, index: 0 },
                        membership: Membership::new_initial(self.node_id),
                    },
                };
                let last_applied = self.sm.last_applied;
                let last_log_id = if self.log.len() > 0 {
                    self.log[self.log.len() - 1].log_id
                } else {
                    last_applied
                };
                Result::Ok(
                    InitialState { last_log_id, last_applied, hard_state: hs, last_membership },
                )
            },
        }
    }

    /// A handle to the state machine, for verification tooling.
    pub fn get_state_machine(&self) -> (r: StateMachine)
        ensures
            r@ == self@.sm,
    {
        self.sm.clone()
    }
}

/// Debug access to a store's state machine representation, for
/// verification tooling only — not part of the consensus path.
pub trait RaftStorageDebug<SM> {
    /// A handle to the state machine.
    fn get_state_machine(&self) -> SM;
}

impl RaftStorageDebug<StateMachine> for MemStore {
    fn get_state_machine(&self) -> StateMachine {
        MemStore::get_state_machine(self)
    }
}

} // verus!
