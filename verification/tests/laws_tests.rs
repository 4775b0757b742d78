use raft_storage::laws::initial_state_idempotent;
use raft_storage::laws::last_membership_chunk_independent;
use raft_storage::laws::snapshot_installation_supersedes;
use raft_storage::mem_store::MemStore;
use raft_storage::mem_store::StateMachineContent;
use raft_storage::storage::RaftStorage;
use raft_storage::types::Entry;
use raft_storage::types::EntryPayload;
use raft_storage::types::LogId;
use raft_storage::types::MembershipConfig;
use raft_storage::types::SnapshotMeta;

fn membership(term: u64, index: u64, members: Vec<u64>) -> Entry<u64> {
    Entry {
        log_id: LogId { term, index },
        payload: EntryPayload::Membership(MembershipConfig { members }),
    }
}

#[test]
fn chunk_independence_on_a_populated_store() {
    let mut sto = MemStore::new();
    let mut batch = Vec::new();
    for i in 1..=80u64 {
        if i % 11 == 0 {
            batch.push(membership(1, i, vec![i]));
        } else {
            batch.push(Entry { log_id: LogId { term: 1, index: i }, payload: EntryPayload::Blank });
        }
    }
    sto.append_to_log(&batch).unwrap();

    let (a, b) = last_membership_chunk_independent(&sto, 3, 2, 64);
    assert_eq!(a.unwrap(), b.unwrap());
}

#[test]
fn idempotence_on_a_populated_store() {
    let mut sto = MemStore::new();
    let batch = vec![
        Entry { log_id: LogId { term: 1, index: 1 }, payload: EntryPayload::Normal(4) },
        membership(1, 2, vec![1, 2]),
    ];
    sto.append_to_log(&batch).unwrap();
    sto.apply_to_state_machine(&batch).unwrap();

    let (a, b) = initial_state_idempotent(&sto);
    assert_eq!(a.unwrap(), b.unwrap());
}

#[test]
fn supersession_through_the_law_function() {
    let mut sto = MemStore::new();
    let meta_a = SnapshotMeta {
        last_log_id: LogId { term: 1, index: 3 },
        snapshot_id: "first".to_string(),
    };
    let meta_b = SnapshotMeta {
        last_log_id: LogId { term: 1, index: 6 },
        snapshot_id: "second".to_string(),
    };
    let data_a = Box::new(StateMachineContent {
        last_applied: Some(LogId { term: 1, index: 3 }),
        last_membership: None,
        data: vec![3],
    });
    let data_b = Box::new(StateMachineContent {
        last_applied: Some(LogId { term: 1, index: 6 }),
        last_membership: None,
        data: vec![6],
    });

    let (ra, rb) = snapshot_installation_supersedes(&mut sto, &meta_a, data_a, &meta_b, data_b);
    ra.unwrap();
    rb.unwrap();

    let current = sto.get_current_snapshot().unwrap().unwrap();
    assert_eq!(current.meta, meta_b);
    assert_eq!(current.snapshot.data, vec![6]);
}
