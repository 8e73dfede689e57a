use raft_storage::store::MemStore;
use raft_storage::store::RaftStorageDebug;
use raft_storage::types::{
    Entry, EntryPayload, HardState, LogId, Membership, Response, SnapshotMeta, StorageError,
};

fn normal(term: u64, index: u64, cmd: u64) -> Entry {
    Entry { log_id: LogId { term, index }, payload: EntryPayload::Normal(cmd) }
}

fn blank(term: u64, index: u64) -> Entry {
    Entry { log_id: LogId { term, index }, payload: EntryPayload::Blank }
}

fn membership(term: u64, index: u64, members: Vec<u64>) -> Entry {
    Entry {
        log_id: LogId { term, index },
        payload: EntryPayload::Membership(Membership { members, learners: Vec::new() }),
    }
}

fn indices(entries: &[Entry]) -> Vec<u64> {
    entries.iter().map(|e| e.log_id.index).collect()
}

#[test]
fn total_order_apply() {
    let mut st = MemStore::new(0);
    let all: Vec<Entry> = (1..=10000u64).map(|i| normal(1, i, i)).collect();
    st.append_to_log(&all).unwrap();
    assert_eq!(st.last_id_in_log().unwrap(), LogId { term: 1, index: 10000 });

    let mut last_seen = 0u64;
    for batch_start in (1..=10000u64).step_by(100) {
        let batch: Vec<Entry> = (batch_start..batch_start + 100).map(|i| normal(1, i, i)).collect();
        let responses = st.apply_to_state_machine(&batch).unwrap();
        assert_eq!(responses.len(), 100);
        let (applied, _) = st.last_applied_state().unwrap();
        assert!(applied.index >= last_seen, "out of order apply");
        assert_eq!(applied.index, batch_start + 99);
        last_seen = applied.index;
    }
    let (applied, _) = st.last_applied_state().unwrap();
    assert_eq!(applied.index, 10000);
}

#[test]
fn pristine_bootstrap() {
    let mut st = MemStore::new(7);
    let ist = st.get_initial_state().unwrap();
    assert_eq!(ist.last_log_id, LogId { term: 0, index: 0 });
    assert_eq!(ist.last_applied, LogId { term: 0, index: 0 });
    assert_eq!(ist.hard_state, HardState { current_term: 0, voted_for: None });
    assert_eq!(ist.last_membership.log_id, LogId { term: 0, index: 0 });
    assert_eq!(ist.last_membership.membership.members, vec![7]);
    assert!(ist.last_membership.membership.learners.is_empty());
    // The empty hard state is persisted on first startup.
    assert_eq!(
        st.read_hard_state().unwrap(),
        Some(HardState { current_term: 0, voted_for: None })
    );
}

#[test]
fn membership_dominance() {
    let mut st = MemStore::new(1);
    let mut first: Vec<Entry> = (1..=4u64).map(|i| normal(1, i, i)).collect();
    first.push(membership(1, 5, vec![1, 2, 3]));
    st.append_to_log(&first).unwrap();
    st.apply_to_state_machine(&first).unwrap();
    let (_, sm_mem) = st.last_applied_state().unwrap();
    assert_eq!(sm_mem.as_ref().unwrap().log_id.index, 5);

    let mut more: Vec<Entry> = (6..=8u64).map(|i| normal(1, i, i)).collect();
    more.push(membership(1, 9, vec![1, 2, 3, 4]));
    st.append_to_log(&more).unwrap();

    // The log's entry at index 9 dominates the applied one at index 5.
    let got = st.get_membership().unwrap().unwrap();
    assert_eq!(got.log_id.index, 9);
    assert_eq!(got.membership.members, vec![1, 2, 3, 4]);

    // Once the log past the applied membership is gone, the resolver
    // falls back to the state machine's own.
    st.delete_logs_from(6, Some(10)).unwrap();
    let got = st.get_membership().unwrap().unwrap();
    assert_eq!(got.log_id.index, 5);
    assert_eq!(got.membership.members, vec![1, 2, 3]);
}

#[test]
fn range_semantics() {
    let mut st = MemStore::new(1);
    let all: Vec<Entry> = (1..=10u64).map(|i| normal(1, i, i * 10)).collect();
    st.append_to_log(&all).unwrap();

    let got = st.get_log_entries(3, 7).unwrap();
    assert_eq!(indices(&got), vec![3, 4, 5, 6]);

    // Punch a hole at index 5: the strict read names the gap, the
    // tolerant read returns what exists.
    st.delete_logs_from(5, Some(6)).unwrap();
    assert_eq!(
        st.get_log_entries(3, 7).map(|v| indices(&v)),
        Err(StorageError::MissingLogEntry { index: 5 })
    );
    let got = st.try_get_log_entries(3, 7).unwrap();
    assert_eq!(indices(&got), vec![3, 4, 6]);

    assert!(st.try_get_log_entry(5).unwrap().is_none());
    assert_eq!(st.try_get_log_entry(6).unwrap().unwrap().log_id.index, 6);

    // An empty range is empty, not an error.
    assert!(st.get_log_entries(7, 7).unwrap().is_empty());
    assert!(st.try_get_log_entries(9, 3).unwrap().is_empty());
}

#[test]
fn snapshot_boundary_idempotence() {
    let mut st = MemStore::new(1);
    let all: Vec<Entry> = (1..=6u64).map(|i| normal(2, i, i + 100)).collect();
    st.append_to_log(&all).unwrap();
    st.apply_to_state_machine(&all).unwrap();

    let s1 = st.do_log_compaction().unwrap();
    let s2 = st.do_log_compaction().unwrap();
    assert_eq!(s1.meta.last_log_id, LogId { term: 2, index: 6 });
    assert_eq!(s1.meta.last_log_id, s2.meta.last_log_id);
    assert_ne!(s1.meta.snapshot_id, s2.meta.snapshot_id);

    // Installing either snapshot yields the same applied state.
    let mut a = MemStore::new(8);
    let mut b = MemStore::new(9);
    a.finalize_snapshot_installation(&s1.meta, s1.data).unwrap();
    b.finalize_snapshot_installation(&s2.meta, s2.data).unwrap();
    let sma = a.get_state_machine();
    let smb = b.get_state_machine();
    assert_eq!(sma.last_applied, smb.last_applied);
    assert_eq!(sma.data, smb.data);
    assert_eq!(sma.data, (101..=106u64).collect::<Vec<u64>>());
}

#[test]
fn truncation_safety() {
    let mut st = MemStore::new(1);
    let all: Vec<Entry> = (1..=10u64).map(|i| normal(1, i, i)).collect();
    st.append_to_log(&all).unwrap();
    let four: Vec<Entry> = (1..=4u64).map(|i| normal(1, i, i)).collect();
    st.apply_to_state_machine(&four).unwrap();

    // Truncating strictly above the applied index succeeds and the
    // entries below the cut are untouched.
    st.delete_logs_from(5, None).unwrap();
    assert_eq!(st.first_id_in_log().unwrap(), Some(LogId { term: 1, index: 1 }));
    assert_eq!(st.last_id_in_log().unwrap(), LogId { term: 1, index: 4 });

    // Truncating at or below the applied index is rejected.
    assert_eq!(
        st.delete_logs_from(3, None),
        Err(StorageError::AppliedRangeProtected { start: 3, last_applied: 4 })
    );
    assert_eq!(st.last_id_in_log().unwrap(), LogId { term: 1, index: 4 });
}

#[test]
fn backward_windowed_scan_crosses_windows() {
    let mut st = MemStore::new(1);
    let mut all: Vec<Entry> = vec![blank(1, 1)];
    all.push(membership(1, 2, vec![1, 2]));
    for i in 3..=202u64 {
        all.push(normal(1, i, i));
    }
    st.append_to_log(&all).unwrap();

    // The membership entry sits several 64-entry windows away from
    // the tail and is still found.
    let found = st.last_membership_in_log(0).unwrap().unwrap();
    assert_eq!(found.log_id.index, 2);
    assert_eq!(found.membership.members, vec![1, 2]);

    // Restricting the scan past it finds nothing.
    assert!(st.last_membership_in_log(3).unwrap().is_none());
}

#[test]
fn append_overwrites_conflicting_suffix() {
    let mut st = MemStore::new(1);
    let all: Vec<Entry> = (1..=5u64).map(|i| normal(1, i, i)).collect();
    st.append_to_log(&all).unwrap();

    let repair: Vec<Entry> = vec![normal(2, 3, 33), normal(2, 4, 44)];
    st.append_to_log(&repair).unwrap();

    assert_eq!(st.last_id_in_log().unwrap(), LogId { term: 2, index: 4 });
    let e3 = st.try_get_log_entry(3).unwrap().unwrap();
    assert_eq!(e3.log_id.term, 2);
    assert!(st.try_get_log_entry(5).unwrap().is_none());
    let got = st.try_get_log_entries(1, 10).unwrap();
    assert_eq!(indices(&got), vec![1, 2, 3, 4]);
}

#[test]
fn first_known_log_id_accounts_for_compaction() {
    let mut st = MemStore::new(1);
    assert_eq!(st.first_known_log_id().unwrap(), LogId { term: 0, index: 0 });

    let all: Vec<Entry> = (1..=5u64).map(|i| normal(1, i, i)).collect();
    st.append_to_log(&all).unwrap();
    assert_eq!(st.first_known_log_id().unwrap(), LogId { term: 1, index: 1 });

    st.apply_to_state_machine(&all).unwrap();
    st.do_log_compaction().unwrap();
    // The covered prefix is gone; the earliest known id is the
    // snapshot's boundary.
    assert_eq!(st.first_id_in_log().unwrap(), None);
    assert_eq!(st.first_known_log_id().unwrap(), LogId { term: 1, index: 5 });

    let more: Vec<Entry> = (6..=7u64).map(|i| normal(1, i, i)).collect();
    st.append_to_log(&more).unwrap();
    assert_eq!(st.first_known_log_id().unwrap(), LogId { term: 1, index: 5 });
}

#[test]
fn apply_responses_and_membership_side_effect() {
    let mut st = MemStore::new(1);
    let batch = vec![blank(1, 1), normal(1, 2, 42), membership(1, 3, vec![1, 2])];
    st.append_to_log(&batch).unwrap();
    let responses = st.apply_to_state_machine(&batch).unwrap();
    assert_eq!(
        responses,
        vec![Response::Placeholder, Response::Applied(42), Response::Placeholder]
    );
    let sm = st.get_state_machine();
    assert_eq!(sm.last_applied, LogId { term: 1, index: 3 });
    assert_eq!(sm.data, vec![42]);
    assert_eq!(sm.last_membership.unwrap().log_id.index, 3);
}

#[test]
fn debug_state_machine_handle() {
    let mut st = MemStore::new(1);
    let batch = vec![normal(1, 1, 5)];
    st.append_to_log(&batch).unwrap();
    st.apply_to_state_machine(&batch).unwrap();
    let sm: raft_storage::types::StateMachine = RaftStorageDebug::get_state_machine(&st);
    assert_eq!(sm.data, vec![5]);
    assert_eq!(sm.last_applied, LogId { term: 1, index: 1 });
}

#[test]
fn errors_are_fatal() {
    let mut st = MemStore::new(1);
    let batch = vec![normal(1, 1, 5)];
    st.append_to_log(&batch).unwrap();
    st.apply_to_state_machine(&batch).unwrap();
    let err = st.delete_logs_from(1, None).unwrap_err();
    assert!(err.is_fatal());
    let err = st.get_log_entries(1, 3).unwrap_err();
    assert_eq!(err, StorageError::MissingLogEntry { index: 2 });
    assert!(err.is_fatal());
}

#[test]
fn hard_state_round_trip() {
    let mut st = MemStore::new(1);
    assert_eq!(st.read_hard_state().unwrap(), None);
    let hs = HardState { current_term: 4, voted_for: Some(2) };
    st.save_hard_state(&hs).unwrap();
    assert_eq!(st.read_hard_state().unwrap(), Some(hs));
    let hs2 = HardState { current_term: 5, voted_for: None };
    st.save_hard_state(&hs2).unwrap();
    assert_eq!(st.read_hard_state().unwrap(), Some(hs2));
}

#[test]
fn snapshot_lifecycle() {
    let mut st = MemStore::new(1);
    assert!(st.get_current_snapshot().unwrap().is_none());

    let all: Vec<Entry> = (1..=3u64).map(|i| normal(1, i, i)).collect();
    st.append_to_log(&all).unwrap();
    st.apply_to_state_machine(&all).unwrap();
    st.do_log_compaction().unwrap();

    let cur = st.get_current_snapshot().unwrap().unwrap();
    assert_eq!(cur.meta.last_log_id, LogId { term: 1, index: 3 });
    assert_eq!(cur.data.data, vec![1, 2, 3]);

    // A receive buffer is fresh and empty and leaves the current
    // snapshot alone.
    let buf = st.begin_receiving_snapshot().unwrap();
    assert_eq!(buf.last_applied, LogId { term: 0, index: 0 });
    assert!(buf.data.is_empty());
    assert!(st.get_current_snapshot().unwrap().is_some());
}

#[test]
fn inconsistent_snapshot_rejected() {
    let mut st = MemStore::new(1);
    let mut export = st.begin_receiving_snapshot().unwrap();
    export.last_membership = Some(raft_storage::types::EffectiveMembership {
        log_id: LogId { term: 1, index: 99 },
        membership: Membership { members: vec![1], learners: Vec::new() },
    });
    let meta = SnapshotMeta { last_log_id: LogId { term: 1, index: 5 }, snapshot_id: 77 };
    assert_eq!(
        st.finalize_snapshot_installation(&meta, export),
        Err(StorageError::SnapshotInconsistent {
            last_log_id: LogId { term: 1, index: 5 },
            membership_log_id: LogId { term: 1, index: 99 },
        })
    );
    assert!(st.get_current_snapshot().unwrap().is_none());
}

#[test]
fn finalize_installs_received_snapshot() {
    let mut leader = MemStore::new(1);
    let mut batch: Vec<Entry> = (1..=4u64).map(|i| normal(3, i, i * 2)).collect();
    batch.push(membership(3, 5, vec![1, 2, 3]));
    leader.append_to_log(&batch).unwrap();
    leader.apply_to_state_machine(&batch).unwrap();
    let snap = leader.do_log_compaction().unwrap();

    let mut follower = MemStore::new(2);
    let stale: Vec<Entry> = (1..=2u64).map(|i| normal(1, i, i)).collect();
    follower.append_to_log(&stale).unwrap();

    let changes = follower.finalize_snapshot_installation(&snap.meta, snap.data).unwrap();
    assert_eq!(changes.last_applied, LogId { term: 3, index: 5 });
    assert!(changes.is_snapshot);

    let sm = follower.get_state_machine();
    assert_eq!(sm.last_applied, LogId { term: 3, index: 5 });
    assert_eq!(sm.data, vec![2, 4, 6, 8]);
    assert_eq!(sm.last_membership.unwrap().membership.members, vec![1, 2, 3]);
    // The stale covered prefix is gone.
    assert_eq!(follower.first_id_in_log().unwrap(), None);
    let (applied, mem) = follower.last_applied_state().unwrap();
    assert_eq!(applied.index, 5);
    assert_eq!(mem.unwrap().log_id.index, 5);
}

#[test]
fn bootstrap_after_state() {
    let mut st = MemStore::new(4);
    st.save_hard_state(&HardState { current_term: 2, voted_for: Some(4) }).unwrap();
    let mut batch: Vec<Entry> = vec![membership(1, 1, vec![4, 5])];
    batch.push(normal(1, 2, 9));
    st.append_to_log(&batch).unwrap();
    st.apply_to_state_machine(&batch).unwrap();
    let more: Vec<Entry> = (3..=4u64).map(|i| normal(2, i, i)).collect();
    st.append_to_log(&more).unwrap();

    let ist = st.get_initial_state().unwrap();
    assert_eq!(ist.hard_state, HardState { current_term: 2, voted_for: Some(4) });
    assert_eq!(ist.last_applied, LogId { term: 1, index: 2 });
    assert_eq!(ist.last_log_id, LogId { term: 2, index: 4 });
    assert_eq!(ist.last_membership.log_id.index, 1);
    assert_eq!(ist.last_membership.membership.members, vec![4, 5]);
}
