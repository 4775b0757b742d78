//! The laws the storage contract guarantees, stated on their own: uniqueness
//! of the reconciliation results, exactness of membership resolution, and the
//! call-sequence guarantees that follow from them.

use vstd::prelude::*;

use crate::errors::StorageError;
use crate::storage::has_membership_since;
use crate::storage::last_membership_matches;
use crate::storage::membership_resolution_matches;
use crate::storage::opt_is_last;
use crate::storage::sm_since;
use crate::storage::RaftStorage;
use crate::types::entry_membership;
use crate::types::is_membership_entry;
use crate::types::opt_membership_view;
use crate::types::EffectiveMembership;
use crate::types::EffectiveMembershipModel;
use crate::types::EntryModel;
use crate::types::InitialState;
use crate::types::LogId;
use crate::types::SnapshotMeta;
use crate::types::StateMachineChanges;

verus! {

/// At most one value satisfies the backward-scan contract for a given log and
/// starting index: the scan's result is a function of the log content alone,
/// whatever chunk size walked it.
pub proof fn lemma_last_membership_unique<D>(
    log: Map<u64, EntryModel<D>>,
    since: int,
    o1: Option<EffectiveMembershipModel>,
    o2: Option<EffectiveMembershipModel>,
)
    requires
        last_membership_matches(log, since, o1),
        last_membership_matches(log, since, o2),
    ensures
        o1 == o2,
{
    match (o1, o2) {
        (None, None) => {},
        (None, Some(m)) => {
            assert(is_membership_entry(log[m.log_id.index]));
            assert(has_membership_since(log, since));
        },
        (Some(m), None) => {
            assert(is_membership_entry(log[m.log_id.index]));
            assert(has_membership_since(log, since));
        },
        (Some(m1), Some(m2)) => {
            assert(is_membership_entry(log[m1.log_id.index]));
            assert(is_membership_entry(log[m2.log_id.index]));
            assert(m1.log_id.index <= m2.log_id.index);
            assert(m2.log_id.index <= m1.log_id.index);
            assert(entry_membership(log[m1.log_id.index]) == Some(m1));
            assert(entry_membership(log[m2.log_id.index]) == Some(m2));
        },
    }
}

/// At most one value satisfies the membership-resolution contract for a given
/// log and state machine.
pub proof fn lemma_membership_resolution_unique<D>(
    log: Map<u64, EntryModel<D>>,
    sm: Option<EffectiveMembershipModel>,
    o1: Option<EffectiveMembershipModel>,
    o2: Option<EffectiveMembershipModel>,
)
    requires
        membership_resolution_matches(log, sm, o1),
        membership_resolution_matches(log, sm, o2),
    ensures
        o1 == o2,
{
    if has_membership_since(log, sm_since(sm)) {
        lemma_last_membership_unique(log, sm_since(sm), o1, o2);
    }
}

/// Membership monotonicity: when the log still holds membership-change
/// entries past the state machine's record, resolution returns exactly the
/// one at the greatest such index `i` — never one from a smaller index and
/// never the state machine's record.
pub proof fn lemma_membership_resolution_exact<D>(
    log: Map<u64, EntryModel<D>>,
    sm: Option<EffectiveMembershipModel>,
    o: Option<EffectiveMembershipModel>,
    i: u64,
)
    requires
        membership_resolution_matches(log, sm, o),
        log.dom().contains(i),
        i >= sm_since(sm),
        is_membership_entry(log[i]),
        log[i].log_id.index == i,
        forall|j: u64| log.dom().contains(j) && is_membership_entry(#[trigger] log[j]) ==> j <= i,
    ensures
        o == entry_membership(log[i]),
{
    assert(has_membership_since(log, sm_since(sm)));
    match o {
        None => {
            assert(false);
        },
        Some(m) => {
            assert(is_membership_entry(log[m.log_id.index]));
            assert(m.log_id.index <= i);
            assert(i <= m.log_id.index);
            assert(entry_membership(log[i]) == Some(m));
        },
    }
}

/// At most one value is the log's last id.
pub proof fn lemma_opt_is_last_unique<D>(
    log: Map<u64, EntryModel<D>>,
    l1: Option<LogId>,
    l2: Option<LogId>,
)
    requires
        opt_is_last(log, l1),
        opt_is_last(log, l2),
    ensures
        l1 == l2,
{
    match (l1, l2) {
        (None, None) => {},
        (None, Some(x)) => {
            assert(log.dom().contains(x.index));
        },
        (Some(x), None) => {
            assert(log.dom().contains(x.index));
        },
        (Some(x), Some(y)) => {
            assert(x.index <= y.index);
            assert(y.index <= x.index);
            assert(log[x.index].log_id == x);
            assert(log[y.index].log_id == y);
        },
    }
}

/// Backward-scan chunk independence: two scans of the same unchanged store,
/// with any two window sizes, return the same membership whenever both
/// succeed.
pub fn last_membership_chunk_independent<D, R, S: RaftStorage<D, R>>(
    sto: &S,
    since_index: u64,
    chunk_a: u64,
    chunk_b: u64,
) -> (r: (
    Result<Option<EffectiveMembership>, StorageError>,
    Result<Option<EffectiveMembership>, StorageError>,
))
    requires
        sto.inv(),
        chunk_a >= 1,
        chunk_b >= 1,
    ensures
        r.0 matches Ok(a) ==> r.1 matches Ok(b) ==> opt_membership_view(a)
            == opt_membership_view(b),
{
    let a = sto.last_membership_in_log_chunked(since_index, chunk_a);
    let b = sto.last_membership_in_log_chunked(since_index, chunk_b);
    proof {
        match (&a, &b) {
            (Ok(x), Ok(y)) => {
                lemma_last_membership_unique(
                    sto.log(),
                    since_index as int,
                    opt_membership_view(*x),
                    opt_membership_view(*y),
                );
            },
            _ => {},
        }
    }
    (a, b)
}

/// Initial-state idempotence: recovering the initial state twice with no
/// intervening mutation yields identical results whenever both reads succeed.
pub fn initial_state_idempotent<D, R, S: RaftStorage<D, R>>(sto: &S) -> (r: (
    Result<InitialState, StorageError>,
    Result<InitialState, StorageError>,
))
    requires
        sto.inv(),
    ensures
        r.0 matches Ok(a) ==> r.1 matches Ok(b) ==> a@ == b@,
{
    let a = sto.get_initial_state();
    let b = sto.get_initial_state();
    proof {
        match (&a, &b) {
            (Ok(x), Ok(y)) => {
                let lx = choose|lst: Option<LogId>|
                    #[trigger] opt_is_last(sto.log(), lst) && x.last_log_id
                        == crate::types::opt_log_id_max(sto.applied(), lst);
                let ly = choose|lst: Option<LogId>|
                    #[trigger] opt_is_last(sto.log(), lst) && y.last_log_id
                        == crate::types::opt_log_id_max(sto.applied(), lst);
                lemma_opt_is_last_unique(sto.log(), lx, ly);
                lemma_membership_resolution_unique(
                    sto.log(),
                    sto.sm_membership(),
                    opt_membership_view(x.last_membership),
                    opt_membership_view(y.last_membership),
                );
                assert(x@ == y@);
            },
            _ => {},
        }
    }
    (a, b)
}

/// Snapshot exclusivity: installing snapshot `b` right after snapshot `a`
/// leaves exactly `b` installed — metadata and content — and the earlier one
/// reclaimed, whenever the second installation succeeds.
pub fn snapshot_installation_supersedes<D, R, S: RaftStorage<D, R>>(
    sto: &mut S,
    meta_a: &SnapshotMeta,
    data_a: Box<S::SnapshotData>,
    meta_b: &SnapshotMeta,
    data_b: Box<S::SnapshotData>,
) -> (r: (Result<StateMachineChanges, StorageError>, Result<StateMachineChanges, StorageError>))
    requires
        old(sto).inv(),
    ensures
        final(sto).inv(),
        r.1 matches Ok(c) ==> {
            &&& final(sto).snapshot() == Some((*meta_b, *data_b))
            &&& final(sto).applied() == Some(meta_b.last_log_id)
            &&& c == (StateMachineChanges {
                last_applied: Some(meta_b.last_log_id),
                is_snapshot: true,
            })
        },
{
    let ra = sto.finalize_snapshot_installation(meta_a, data_a);
    let rb = sto.finalize_snapshot_installation(meta_b, data_b);
    (ra, rb)
}

} // verus!
