//! Laws that relate several storage operations, stated and proved
//! once over the operations' contracts.

use vstd::prelude::*;

use crate::store::{compaction_post, install_post, StoreModel};
use crate::types::{SnapshotMeta, SnapshotModel, StateMachineModel};

verus! {

/// The applied index after a run of apply calls that started at
/// `start` and applied batches of the given sizes, each call
/// advancing the index by exactly its batch's length, as the
/// applier's contract ensures.
pub open spec fn applied_index_after(start: int, batch_sizes: Seq<int>) -> int
    decreases batch_sizes.len(),
{
    if batch_sizes.len() == 0 {
        start
    } else {
        applied_index_after(start, batch_sizes.drop_last()) + batch_sizes.last()
    }
}

/// Monotonic apply: over any sequence of apply calls, the applied
/// index observed after `k2` calls never falls below the index
/// observed after `k1 <= k2` of them — batches only ever advance it.
pub proof fn lemma_monotonic_apply(start: int, batch_sizes: Seq<int>, k1: int, k2: int)
    requires
        forall|i: int| 0 <= i < batch_sizes.len() ==> batch_sizes[i] >= 0,
        0 <= k1 <= k2 <= batch_sizes.len(),
    ensures
        applied_index_after(start, batch_sizes.take(k1)) <= applied_index_after(
            start,
            batch_sizes.take(k2),
        ),
    decreases k2,
{
    if k1 < k2 {
        lemma_monotonic_apply(start, batch_sizes, k1, k2 - 1);
        assert(batch_sizes.take(k2).drop_last() =~= batch_sizes.take(k2 - 1));
        assert(batch_sizes.take(k2).last() == batch_sizes[k2 - 1]);
    }
}

/// Snapshot boundary idempotence, building half: two compaction runs
/// with no applies between them export the same state over the same
/// boundary, and only their snapshot ids differ — each run's id is
/// fresh.
pub proof fn lemma_compaction_boundary_idempotent(
    s0: StoreModel,
    s1: StoreModel,
    snap1: SnapshotModel,
    s2: StoreModel,
    snap2: SnapshotModel,
)
    requires
        compaction_post(s0, s1, snap1),
        compaction_post(s1, s2, snap2),
    ensures
        snap1.meta.last_log_id == snap2.meta.last_log_id,
        snap1.data == snap2.data,
        snap1.meta.snapshot_id != snap2.meta.snapshot_id,
{
}

/// Snapshot boundary idempotence, installing half: finalizing either
/// of two snapshots that share a boundary and an export leaves the
/// same applied state behind, whatever their snapshot ids were.
pub proof fn lemma_install_either_same_state(
    pre1: StoreModel,
    post1: StoreModel,
    meta1: SnapshotMeta,
    data1: StateMachineModel,
    pre2: StoreModel,
    post2: StoreModel,
    meta2: SnapshotMeta,
    data2: StateMachineModel,
)
    requires
        install_post(pre1, post1, meta1, data1),
        install_post(pre2, post2, meta2, data2),
        meta1.last_log_id == meta2.last_log_id,
        data1 == data2,
    ensures
        post1.sm == post2.sm,
{
}

} // verus!

