use raft_storage::errors::StorageError;
use raft_storage::mem_store::MemStore;
use raft_storage::mem_store::StateMachineContent;
use raft_storage::storage::RaftStorage;
use raft_storage::storage::RaftStorageDebug;
use raft_storage::types::EffectiveMembership;
use raft_storage::types::Entry;
use raft_storage::types::EntryPayload;
use raft_storage::types::HardState;
use raft_storage::types::LogId;
use raft_storage::types::MembershipConfig;
use raft_storage::types::SnapshotMeta;

fn blank(term: u64, index: u64) -> Entry<u64> {
    Entry { log_id: LogId { term, index }, payload: EntryPayload::Blank }
}

fn normal(term: u64, index: u64, d: u64) -> Entry<u64> {
    Entry { log_id: LogId { term, index }, payload: EntryPayload::Normal(d) }
}

fn membership(term: u64, index: u64, members: Vec<u64>) -> Entry<u64> {
    Entry {
        log_id: LogId { term, index },
        payload: EntryPayload::Membership(MembershipConfig { members }),
    }
}

fn indexes(entries: &[Entry<u64>]) -> Vec<u64> {
    entries.iter().map(|e| e.log_id.index).collect()
}

#[test]
fn hard_state_round_trip() {
    let mut sto = MemStore::new();
    assert_eq!(sto.read_hard_state().unwrap(), None);

    let hs = HardState { current_term: 3, voted_for: Some(7) };
    sto.save_hard_state(&hs).unwrap();
    assert_eq!(sto.read_hard_state().unwrap(), Some(hs));
}

#[test]
fn log_state_of_empty_and_filled_log() {
    let mut sto = MemStore::new();
    assert_eq!(sto.get_log_state().unwrap(), (None, None));
    assert_eq!(sto.first_id_in_log().unwrap(), None);
    assert_eq!(sto.last_id_in_log().unwrap(), None);

    sto.append_to_log(&vec![blank(1, 1), normal(1, 2, 9), normal(1, 3, 8)]).unwrap();
    assert_eq!(
        sto.get_log_state().unwrap(),
        (Some(LogId { term: 1, index: 1 }), Some(LogId { term: 1, index: 3 }))
    );
}

#[test]
fn append_overwrites_at_same_index() {
    let mut sto = MemStore::new();
    sto.append_to_log(&vec![normal(1, 1, 10), normal(1, 2, 20)]).unwrap();
    // A retried delivery presents index 2 again, under a newer term.
    sto.append_to_log(&vec![normal(2, 2, 21), normal(2, 3, 30)]).unwrap();

    let got = sto.try_get_log_entries(1, 10).unwrap();
    assert_eq!(indexes(&got), vec![1, 2, 3]);
    assert_eq!(got[1], normal(2, 2, 21));
}

#[test]
fn try_get_log_entry_present_and_absent() {
    let mut sto = MemStore::new();
    sto.append_to_log(&vec![normal(1, 4, 44)]).unwrap();
    assert_eq!(sto.try_get_log_entry(4).unwrap(), Some(normal(1, 4, 44)));
    assert_eq!(sto.try_get_log_entry(5).unwrap(), None);
}

// Lenient vs strict query: entries at {1,2,5,6} with 3,4 gone.
#[test]
fn lenient_query_omits_gaps_silently() {
    let mut sto = MemStore::new();
    sto.append_to_log(&vec![blank(1, 1), blank(1, 2), blank(1, 5), blank(1, 6)]).unwrap();

    let got = sto.try_get_log_entries(1, 7).unwrap();
    assert_eq!(indexes(&got), vec![1, 2, 5, 6]);
}

#[test]
fn strict_query_reports_gap_inside_bounds() {
    let mut sto = MemStore::new();
    sto.append_to_log(&vec![blank(1, 1), blank(1, 2), blank(1, 5), blank(1, 6)]).unwrap();

    let err = sto.get_log_entries(1, 7).unwrap_err();
    assert_eq!(err, StorageError::RangeMismatch { start: 1, end: 7, missing_index: 3 });
    assert!(!err.requires_shutdown());
}

#[test]
fn strict_query_succeeds_when_bounds_exclude_the_gap() {
    let mut sto = MemStore::new();
    // The compacted prefix is really gone: bounds are 5..=6.
    sto.append_to_log(&vec![blank(1, 5), blank(1, 6)]).unwrap();

    let got = sto.get_log_entries(1, 7).unwrap();
    assert_eq!(indexes(&got), vec![5, 6]);

    let mut gapped = MemStore::new();
    gapped.append_to_log(&vec![blank(1, 1), blank(1, 2), blank(1, 5), blank(1, 6)]).unwrap();
    let got = gapped.get_log_entries(5, 7).unwrap();
    assert_eq!(indexes(&got), vec![5, 6]);
}

#[test]
fn queries_on_an_empty_log_and_empty_range() {
    let mut sto = MemStore::new();
    assert_eq!(sto.try_get_log_entries(0, 100).unwrap(), Vec::new());
    // Nothing is owed on an empty log, so the strict query succeeds too.
    assert_eq!(sto.get_log_entries(0, 100).unwrap(), Vec::new());

    sto.append_to_log(&vec![blank(1, 1), blank(1, 2)]).unwrap();
    assert_eq!(sto.try_get_log_entries(2, 2).unwrap(), Vec::new());
    assert_eq!(sto.get_log_entries(2, 2).unwrap(), Vec::new());
}

#[test]
fn delete_log_removes_a_range() {
    let mut sto = MemStore::new();
    sto.append_to_log(&vec![blank(1, 1), blank(1, 2), blank(1, 3), blank(1, 4)]).unwrap();
    sto.delete_log(2, 4).unwrap();
    let got = sto.try_get_log_entries(0, 10).unwrap();
    assert_eq!(indexes(&got), vec![1, 4]);
}

// Fatal deletion: a failing delete_log demands shutdown, not retry.
#[test]
fn failing_delete_log_demands_shutdown() {
    let mut sto = MemStore::new();
    sto.append_to_log(&vec![blank(1, 1)]).unwrap();
    sto.set_delete_failure(true);

    let err = sto.delete_log(0, 2).unwrap_err();
    assert!(err.requires_shutdown());

    // The log is untouched; after the medium recovers, deletion works.
    sto.set_delete_failure(false);
    assert_eq!(indexes(&sto.try_get_log_entries(0, 10).unwrap()), vec![1]);
    sto.delete_log(0, 2).unwrap();
    assert_eq!(sto.get_log_state().unwrap(), (None, None));
}

#[test]
fn apply_records_applied_data_and_membership() {
    let mut sto = MemStore::new();
    let batch = vec![
        normal(1, 1, 10),
        membership(1, 2, vec![1, 2, 3]),
        normal(1, 3, 30),
    ];
    let responses = sto.apply_to_state_machine(&batch).unwrap();
    assert_eq!(responses, vec![10, 0, 30]);

    let (applied, mem) = sto.last_applied_state().unwrap();
    assert_eq!(applied, Some(LogId { term: 1, index: 3 }));
    let mem = mem.unwrap();
    assert_eq!(mem.log_id, LogId { term: 1, index: 2 });
    assert_eq!(mem.membership.members, vec![1, 2, 3]);

    let sm: StateMachineContent = sto.get_state_machine();
    assert_eq!(sm.data, vec![10, 30]);
}

// Membership monotonicity: the latest membership entry in the log wins, and
// the log is preferred over the state machine whenever it still holds one.
#[test]
fn membership_prefers_latest_log_entry() {
    let mut sto = MemStore::new();
    let batch = vec![membership(1, 1, vec![1]), blank(1, 2)];
    sto.append_to_log(&batch).unwrap();
    sto.apply_to_state_machine(&batch).unwrap();
    sto.append_to_log(&vec![membership(1, 3, vec![1, 2]), membership(2, 5, vec![1, 2, 3])]).unwrap();

    let got = sto.get_membership().unwrap().unwrap();
    assert_eq!(got.log_id, LogId { term: 2, index: 5 });
    assert_eq!(got.membership.members, vec![1, 2, 3]);
}

#[test]
fn membership_falls_back_to_state_machine() {
    let mut sto = MemStore::new();
    let batch = vec![membership(1, 1, vec![4, 5]), blank(1, 2)];
    sto.append_to_log(&batch).unwrap();
    sto.apply_to_state_machine(&batch).unwrap();
    // Compaction removed everything the state machine already absorbed.
    sto.delete_log(0, 3).unwrap();

    let got = sto.get_membership().unwrap().unwrap();
    assert_eq!(got.log_id, LogId { term: 1, index: 1 });
    assert_eq!(got.membership.members, vec![4, 5]);

    let empty = MemStore::new();
    assert_eq!(empty.get_membership().unwrap(), None);
}

// Backward scan correctness: chunk sizes 1, 3 and 64 agree on the same log.
#[test]
fn backward_scan_agrees_for_every_chunk_size() {
    let mut sto = MemStore::new();
    let mut batch = Vec::new();
    for i in 1..=200u64 {
        if i == 7 || i == 130 {
            batch.push(membership(1, i, vec![i]));
        } else {
            batch.push(blank(1, i));
        }
    }
    sto.append_to_log(&batch).unwrap();

    for since in [0u64, 7, 8, 130, 131, 500] {
        let with_1 = sto.last_membership_in_log_chunked(since, 1).unwrap();
        let with_3 = sto.last_membership_in_log_chunked(since, 3).unwrap();
        let with_64 = sto.last_membership_in_log_chunked(since, 64).unwrap();
        let default = sto.last_membership_in_log(since).unwrap();
        assert_eq!(with_1, with_3);
        assert_eq!(with_3, with_64);
        assert_eq!(with_64, default);
    }
    assert_eq!(
        sto.last_membership_in_log(8).unwrap().map(|m| m.log_id),
        Some(LogId { term: 1, index: 130 })
    );
    assert_eq!(sto.last_membership_in_log(131).unwrap(), None);
}

// Initial state idempotence: two recoveries with no mutation in between.
#[test]
fn initial_state_is_idempotent() {
    let mut sto = MemStore::new();
    sto.save_hard_state(&HardState { current_term: 2, voted_for: Some(1) }).unwrap();
    let batch = vec![normal(1, 1, 5), membership(1, 2, vec![1, 2])];
    sto.append_to_log(&batch).unwrap();
    sto.apply_to_state_machine(&batch).unwrap();

    let first = sto.get_initial_state().unwrap();
    let second = sto.get_initial_state().unwrap();
    assert_eq!(first, second);
}

#[test]
fn initial_state_of_blank_node_is_zeroed() {
    let sto = MemStore::new();
    let ist = sto.get_initial_state().unwrap();
    assert_eq!(ist.last_log_id, None);
    assert_eq!(ist.last_applied, None);
    assert_eq!(ist.hard_state, HardState { current_term: 0, voted_for: None });
    assert_eq!(ist.last_membership, None);
}

#[test]
fn initial_state_takes_max_of_log_and_state_machine() {
    // The state machine is ahead of the local log tail, as after a snapshot
    // install whose logs were never replicated here.
    let mut sto = MemStore::new();
    sto.append_to_log(&vec![blank(1, 3)]).unwrap();
    let meta = SnapshotMeta {
        last_log_id: LogId { term: 2, index: 9 },
        snapshot_id: "received".to_string(),
    };
    let data = Box::new(StateMachineContent {
        last_applied: Some(LogId { term: 2, index: 9 }),
        last_membership: None,
        data: vec![1],
    });
    sto.finalize_snapshot_installation(&meta, data).unwrap();

    let ist = sto.get_initial_state().unwrap();
    assert_eq!(ist.last_applied, Some(LogId { term: 2, index: 9 }));
    assert_eq!(ist.last_log_id, Some(LogId { term: 2, index: 9 }));

    // And the other way round: the log is ahead of the state machine.
    let mut sto = MemStore::new();
    let batch = vec![normal(1, 1, 2)];
    sto.append_to_log(&batch).unwrap();
    sto.apply_to_state_machine(&batch).unwrap();
    sto.append_to_log(&vec![normal(1, 2, 3)]).unwrap();
    let ist = sto.get_initial_state().unwrap();
    assert_eq!(ist.last_applied, Some(LogId { term: 1, index: 1 }));
    assert_eq!(ist.last_log_id, Some(LogId { term: 1, index: 2 }));
}

// Gap reconciliation: last_applied = (2,100), first log id = (2,105).
#[test]
fn first_known_log_id_bridges_compaction_gap() {
    let mut sto = MemStore::new();
    let meta = SnapshotMeta {
        last_log_id: LogId { term: 2, index: 100 },
        snapshot_id: "gap".to_string(),
    };
    let data = Box::new(StateMachineContent {
        last_applied: Some(LogId { term: 2, index: 100 }),
        last_membership: None,
        data: Vec::new(),
    });
    sto.finalize_snapshot_installation(&meta, data).unwrap();
    sto.append_to_log(&vec![blank(2, 105), blank(2, 106)]).unwrap();

    assert_eq!(sto.first_known_log_id().unwrap(), Some(LogId { term: 2, index: 100 }));
}

#[test]
fn first_known_log_id_with_one_source_empty() {
    let empty = MemStore::new();
    assert_eq!(empty.first_known_log_id().unwrap(), None);

    let mut log_only = MemStore::new();
    log_only.append_to_log(&vec![blank(1, 4)]).unwrap();
    assert_eq!(log_only.first_known_log_id().unwrap(), Some(LogId { term: 1, index: 4 }));

    let mut sm_only = MemStore::new();
    let batch = vec![blank(1, 1)];
    sm_only.append_to_log(&batch).unwrap();
    sm_only.apply_to_state_machine(&batch).unwrap();
    sm_only.delete_log(0, 2).unwrap();
    assert_eq!(sm_only.first_known_log_id().unwrap(), Some(LogId { term: 1, index: 1 }));
}

#[test]
fn build_snapshot_reflects_applied_state() {
    let mut sto = MemStore::new();
    let batch = vec![normal(1, 1, 11), membership(1, 2, vec![1, 2])];
    sto.apply_to_state_machine(&batch).unwrap();

    let snap = sto.build_snapshot().unwrap();
    assert_eq!(snap.meta.last_log_id, LogId { term: 1, index: 2 });
    assert_eq!(snap.snapshot.data, vec![11]);

    let current = sto.get_current_snapshot().unwrap().unwrap();
    assert_eq!(current.meta, snap.meta);
    assert_eq!(current.snapshot.data, vec![11]);
}

// Snapshot exclusivity: the second installation fully supersedes the first.
#[test]
fn second_snapshot_installation_supersedes_the_first() {
    let mut sto = MemStore::new();

    let meta_a = SnapshotMeta {
        last_log_id: LogId { term: 1, index: 5 },
        snapshot_id: "a".to_string(),
    };
    let data_a = Box::new(StateMachineContent {
        last_applied: Some(LogId { term: 1, index: 5 }),
        last_membership: Some(EffectiveMembership {
            log_id: LogId { term: 1, index: 2 },
            membership: MembershipConfig { members: vec![1] },
        }),
        data: vec![1, 2],
    });
    let changes_a = sto.finalize_snapshot_installation(&meta_a, data_a).unwrap();
    assert!(changes_a.is_snapshot);
    assert_eq!(changes_a.last_applied, Some(LogId { term: 1, index: 5 }));

    let meta_b = SnapshotMeta {
        last_log_id: LogId { term: 2, index: 8 },
        snapshot_id: "b".to_string(),
    };
    let data_b = Box::new(StateMachineContent {
        last_applied: Some(LogId { term: 2, index: 8 }),
        last_membership: Some(EffectiveMembership {
            log_id: LogId { term: 2, index: 7 },
            membership: MembershipConfig { members: vec![1, 2, 3] },
        }),
        data: vec![9],
    });
    sto.finalize_snapshot_installation(&meta_b, data_b).unwrap();

    let current = sto.get_current_snapshot().unwrap().unwrap();
    assert_eq!(current.meta, meta_b);
    assert_eq!(current.snapshot.data, vec![9]);

    // The state machine reflects the installed content too.
    let (applied, mem) = sto.last_applied_state().unwrap();
    assert_eq!(applied, Some(LogId { term: 2, index: 8 }));
    assert_eq!(mem.unwrap().membership.members, vec![1, 2, 3]);
}

#[test]
fn begin_receiving_snapshot_changes_nothing() {
    let mut sto = MemStore::new();
    sto.append_to_log(&vec![blank(1, 1)]).unwrap();
    let handle = sto.begin_receiving_snapshot().unwrap();
    assert_eq!(handle.data, Vec::<u64>::new());
    assert_eq!(sto.get_log_state().unwrap().1, Some(LogId { term: 1, index: 1 }));
    assert!(sto.get_current_snapshot().unwrap().is_none());
}
