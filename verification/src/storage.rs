//! The capability set a concrete Raft store must implement, and the
//! reconciliation algorithms written once on top of it: membership resolution
//! across log and state machine, initial-state recovery, and strict log-range
//! queries.

use vstd::prelude::*;

use crate::errors::StorageError;
use crate::types::entry_membership;
use crate::types::is_membership_entry;
use crate::types::opt_log_id_max;
use crate::types::opt_log_id_max_exec;
use crate::types::opt_log_id_min;
use crate::types::opt_log_id_min_exec;
use crate::types::opt_membership_view;
use crate::types::EffectiveMembership;
use crate::types::EffectiveMembershipModel;
use crate::types::Entry;
use crate::types::EntryModel;
use crate::types::EntryPayload;
use crate::types::HardState;
use crate::types::InitialState;
use crate::types::LogId;
use crate::types::Snapshot;
use crate::types::SnapshotMeta;
use crate::types::StateMachineChanges;

verus! {

/// `f` is the id of the entry at the least index of `log`, or absent when the
/// log is empty.
pub open spec fn opt_is_first<D>(log: Map<u64, EntryModel<D>>, f: Option<LogId>) -> bool {
    match f {
        None => forall|i: u64| !log.dom().contains(i),
        Some(f) => log.dom().contains(f.index) && log[f.index].log_id == f && forall|j: u64|
            log.dom().contains(j) ==> f.index <= j,
    }
}

/// `l` is the id of the entry at the greatest index of `log`, or absent when
/// the log is empty.
pub open spec fn opt_is_last<D>(log: Map<u64, EntryModel<D>>, l: Option<LogId>) -> bool {
    match l {
        None => forall|i: u64| !log.dom().contains(i),
        Some(l) => log.dom().contains(l.index) && log[l.index].log_id == l && forall|j: u64|
            log.dom().contains(j) ==> j <= l.index,
    }
}

/// `es` holds exactly the entries of `log` whose index falls in
/// `[start, end)`, ordered by index.
pub open spec fn entries_match_range<D>(
    log: Map<u64, EntryModel<D>>,
    start: u64,
    end: u64,
    es: Seq<Entry<D>>,
) -> bool {
    &&& forall|k: int|
        0 <= k < es.len() ==> {
            let i = (#[trigger] es[k])@.log_id.index;
            &&& start <= i < end
            &&& log.dom().contains(i)
            &&& es[k]@ == log[i]
        }
    &&& forall|k1: int, k2: int|
        0 <= k1 < k2 < es.len() ==> (#[trigger] es[k1])@.log_id.index < (
        #[trigger] es[k2])@.log_id.index
    &&& forall|i: u64|
        start <= i < end && log.dom().contains(i) ==> exists|k: int|
            0 <= k < es.len() && (#[trigger] es[k])@.log_id.index == i
}

/// There is a membership-change entry in `log` at an index at or after
/// `since`.
pub open spec fn has_membership_since<D>(log: Map<u64, EntryModel<D>>, since: int) -> bool {
    exists|i: u64| log.dom().contains(i) && i >= since && is_membership_entry(#[trigger] log[i])
}

/// `o` is the membership carried by the membership-change entry of `log` with
/// the greatest index at or after `since`, or absent when there is none.
pub open spec fn last_membership_matches<D>(
    log: Map<u64, EntryModel<D>>,
    since: int,
    o: Option<EffectiveMembershipModel>,
) -> bool {
    match o {
        None => !has_membership_since(log, since),
        Some(m) => {
            &&& log.dom().contains(m.log_id.index)
            &&& m.log_id.index >= since
            &&& entry_membership(log[m.log_id.index]) == Some(m)
            &&& forall|j: u64|
                log.dom().contains(j) && j >= since && is_membership_entry(#[trigger] log[j])
                    ==> j <= m.log_id.index
        },
    }
}

/// The log index after the state machine's membership record: the log is
/// scanned for membership changes only past this point.
pub open spec fn sm_since(sm: Option<EffectiveMembershipModel>) -> int {
    (match sm {
        None => 0,
        Some(m) => m.log_id.index,
    }) + 1
}

/// `o` is the cluster's current membership: the latest membership-change
/// entry still in the log past the state machine's record when one exists,
/// else the state machine's record itself.
pub open spec fn membership_resolution_matches<D>(
    log: Map<u64, EntryModel<D>>,
    sm: Option<EffectiveMembershipModel>,
    o: Option<EffectiveMembershipModel>,
) -> bool {
    if has_membership_since(log, sm_since(sm)) {
        last_membership_matches(log, sm_since(sm), o)
    } else {
        o == sm
    }
}

/// The earliest log id known from either source: the log's first entry when
/// the state machine is empty, the applied id when the log is empty, and the
/// lesser of the two when both exist.
pub open spec fn first_known_combine(first: Option<LogId>, applied: Option<LogId>) -> Option<
    LogId,
> {
    if applied is None {
        first
    } else if first is None {
        applied
    } else {
        opt_log_id_min(first, applied)
    }
}

/// The hard state a node recovers: the stored record, or the zeroed record if
/// none was ever written.
pub open spec fn hard_state_or_default(o: Option<HardState>) -> HardState {
    match o {
        Some(h) => h,
        None => HardState { current_term: 0, voted_for: None },
    }
}

/// The state machine's membership record after applying `es` on top of
/// `prior`: the membership carried by the last membership-change entry of the
/// batch, or `prior` when the batch carries none.
pub open spec fn sm_membership_after<D>(
    es: Seq<Entry<D>>,
    prior: Option<EffectiveMembershipModel>,
) -> Option<EffectiveMembershipModel>
    decreases es.len(),
{
    if es.len() == 0 {
        prior
    } else {
        match entry_membership(es.last()@) {
            Some(m) => Some(m),
            None => sm_membership_after(es.drop_last(), prior),
        }
    }
}

/// The capability set of a durable Raft store. A concrete medium implements
/// the primitive operations; the reconciliation algorithms are the provided
/// methods, written once against the primitives' contracts.
///
/// `D` is the application's log payload, `R` the per-entry application
/// response; both are opaque to this layer.
pub trait RaftStorage<D, R>: Sized {
    /// The type exposing a snapshot's content for reading and writing.
    type SnapshotData;

    /// The entries currently in the log store, keyed by index, independent of
    /// what the state machine has applied.
    spec fn log(&self) -> Map<u64, EntryModel<D>>;

    /// The durable vote/term record, absent before the first write.
    spec fn stored_hard_state(&self) -> Option<HardState>;

    /// The last log id the state machine has consumed.
    spec fn applied(&self) -> Option<LogId>;

    /// The membership record held by the state machine.
    spec fn sm_membership(&self) -> Option<EffectiveMembershipModel>;

    /// The installed snapshot, if any: its metadata and its content.
    spec fn snapshot(&self) -> Option<(SnapshotMeta, Self::SnapshotData)>;

    /// The membership a snapshot's content carries, as this store encodes it.
    spec fn data_membership(&self, data: Self::SnapshotData) -> Option<EffectiveMembershipModel>;

    /// The store's internal well-formedness.
    spec fn inv(&self) -> bool;

    /// A well-formed store's log is finite, keyed by each entry's own index,
    /// and its indices leave room for a successor.
    proof fn lemma_inv(&self)
        requires
            self.inv(),
        ensures
            self.log().dom().finite(),
            forall|i: u64|
                self.log().dom().contains(i) ==> (#[trigger] self.log()[i]).log_id.index == i,
            forall|i: u64| self.log().dom().contains(i) ==> i < u64::MAX,
    ;

    /// Durably writes the vote/term record.
    fn save_hard_state(&mut self, hs: &HardState) -> (r: Result<(), StorageError>)
        requires
            old(self).inv(),
        ensures
            final(self).inv(),
            r is Ok ==> {
                &&& final(self).stored_hard_state() == Some(*hs)
                &&& final(self).log() == old(self).log()
                &&& final(self).applied() == old(self).applied()
                &&& final(self).sm_membership() == old(self).sm_membership()
                &&& final(self).snapshot() == old(self).snapshot()
            },
    ;

    /// Reads the vote/term record back.
    fn read_hard_state(&self) -> (r: Result<Option<HardState>, StorageError>)
        requires
            self.inv(),
        ensures
            r matches Ok(h) ==> h == self.stored_hard_state(),
            r matches Err(e) ==> e is IO,
    ;

    /// Returns the boundary of what currently exists in the log store: the
    /// first and the last log id, each absent when the log is empty. Must not
    /// consult the state machine.
    fn get_log_state(&self) -> (r: Result<(Option<LogId>, Option<LogId>), StorageError>)
        requires
            self.inv(),
        ensures
            r matches Ok(p) ==> opt_is_first(self.log(), p.0) && opt_is_last(self.log(), p.1),
            r matches Err(e) ==> e is IO,
    ;

    /// Returns the log entries whose index falls within `[start, end)`, in
    /// index order. Entries absent from storage (already compacted) are
    /// silently omitted, not an error.
    fn try_get_log_entries(&self, start: u64, end: u64) -> (r: Result<Vec<Entry<D>>, StorageError>)
        requires
            self.inv(),
        ensures
            r matches Ok(es) ==> entries_match_range(self.log(), start, end, es@),
            r matches Err(e) ==> e is IO,
    ;

    /// Persists each entry at the location its own index dictates: retried or
    /// out-of-order delivery can present entries that are not contiguous with
    /// prior calls, so an existing entry at the same index is overwritten.
    /// Entries are presented in ascending index order.
    fn append_to_log(&mut self, entries: &Vec<Entry<D>>) -> (r: Result<(), StorageError>)
        requires
            old(self).inv(),
            forall|k1: int, k2: int|
                0 <= k1 < k2 < entries@.len() ==> (#[trigger] entries@[k1])@.log_id.index < (
                #[trigger] entries@[k2])@.log_id.index,
            forall|k: int|
                0 <= k < entries@.len() ==> (#[trigger] entries@[k])@.log_id.index < u64::MAX,
        ensures
            final(self).inv(),
            r is Ok ==> {
                &&& forall|k: int|
                    0 <= k < entries@.len() ==> {
                        let i = (#[trigger] entries@[k])@.log_id.index;
                        &&& final(self).log().dom().contains(i)
                        &&& final(self).log()[i] == entries@[k]@
                    }
                &&& forall|i: u64|
                    !seq_has_index(entries@, i) ==> {
                        &&& final(self).log().dom().contains(i) == old(self).log().dom().contains(
                            i,
                        )
                        &&& old(self).log().dom().contains(i) ==> (#[trigger] final(self).log()[i])
                            == old(self).log()[i]
                    }
                &&& final(self).stored_hard_state() == old(self).stored_hard_state()
                &&& final(self).applied() == old(self).applied()
                &&& final(self).sm_membership() == old(self).sm_membership()
                &&& final(self).snapshot() == old(self).snapshot()
            },
    ;

    /// Deletes the log entries whose index falls within `[start, end)`. A
    /// failure here is fatal: the node cannot safely continue with a log it
    /// can neither trust nor fix, so the error demands shutdown, not retry.
    fn delete_log(&mut self, start: u64, end: u64) -> (r: Result<(), StorageError>)
        requires
            old(self).inv(),
        ensures
            final(self).inv(),
            r is Ok ==> {
                &&& forall|i: u64|
                    #[trigger] final(self).log().dom().contains(i) <==> (old(
                        self,
                    ).log().dom().contains(i) && !(start <= i < end))
                &&& forall|i: u64|
                    final(self).log().dom().contains(i) ==> (#[trigger] final(self).log()[i])
                        == old(self).log()[i]
                &&& final(self).stored_hard_state() == old(self).stored_hard_state()
                &&& final(self).applied() == old(self).applied()
                &&& final(self).sm_membership() == old(self).sm_membership()
                &&& final(self).snapshot() == old(self).snapshot()
            },
            r matches Err(e) ==> e.spec_requires_shutdown(),
    ;

    /// Returns the durable record of what the state machine has consumed: the
    /// last applied log id and the membership record it holds.
    fn last_applied_state(&self) -> (r: Result<
        (Option<LogId>, Option<EffectiveMembership>),
        StorageError,
    >)
        requires
            self.inv(),
        ensures
            r matches Ok(p) ==> p.0 == self.applied() && opt_membership_view(p.1)
                == self.sm_membership(),
            r matches Err(e) ==> e is IO,
    ;

    /// Applies a contiguous, already-committed batch to the state machine,
    /// returning one application response per entry, in order. Records the
    /// last applied log id, and the membership config of any membership-change
    /// entry in the batch.
    fn apply_to_state_machine(&mut self, entries: &Vec<Entry<D>>) -> (r: Result<
        Vec<R>,
        StorageError,
    >)
        requires
            old(self).inv(),
            forall|k: int|
                0 < k < entries@.len() ==> (#[trigger] entries@[k])@.log_id.index == entries@[k
                    - 1]@.log_id.index + 1,
        ensures
            final(self).inv(),
            r matches Ok(resp) ==> {
                &&& resp@.len() == entries@.len()
                &&& entries@.len() > 0 ==> final(self).applied() == Some(
                    entries@.last()@.log_id,
                )
                &&& entries@.len() == 0 ==> final(self).applied() == old(self).applied()
                &&& final(self).sm_membership() == sm_membership_after(
                    entries@,
                    old(self).sm_membership(),
                )
                &&& final(self).log() == old(self).log()
                &&& final(self).stored_hard_state() == old(self).stored_hard_state()
                &&& final(self).snapshot() == old(self).snapshot()
            },
    ;

    /// Builds a snapshot of everything applied so far, installs it as the
    /// current one, and returns a readable handle to it. The metadata's
    /// `last_log_id` is the applied position the content reflects.
    fn build_snapshot(&mut self) -> (r: Result<Snapshot<Self::SnapshotData>, StorageError>)
        requires
            old(self).inv(),
        ensures
            final(self).inv(),
            r matches Ok(snap) ==> {
                &&& snap.meta.last_log_id == (match old(self).applied() {
                    Some(l) => l,
                    None => LogId { term: 0, index: 0 },
                })
                &&& final(self).snapshot() matches Some(p) && p.0 == snap.meta
                    && final(self).data_membership(p.1) == old(self).sm_membership()
                &&& final(self).log() == old(self).log()
                &&& final(self).stored_hard_state() == old(self).stored_hard_state()
                &&& final(self).applied() == old(self).applied()
                &&& final(self).sm_membership() == old(self).sm_membership()
            },
    ;

    /// Creates a blank snapshot and returns a writable handle the engine
    /// streams installation data into. Nothing durable changes yet.
    fn begin_receiving_snapshot(&mut self) -> (r: Result<Box<Self::SnapshotData>, StorageError>)
        requires
            old(self).inv(),
        ensures
            final(self).inv(),
            final(self).log() == old(self).log(),
            final(self).stored_hard_state() == old(self).stored_hard_state(),
            final(self).applied() == old(self).applied(),
            final(self).sm_membership() == old(self).sm_membership(),
            final(self).snapshot() == old(self).snapshot(),
    ;

    /// Atomically replaces any previously installed snapshot with the
    /// streamed one and advances the state machine's applied position and
    /// membership record to what the snapshot's content reflects. Reports
    /// what changed so the caller can react.
    fn finalize_snapshot_installation(
        &mut self,
        meta: &SnapshotMeta,
        snapshot: Box<Self::SnapshotData>,
    ) -> (r: Result<StateMachineChanges, StorageError>)
        requires
            old(self).inv(),
        ensures
            final(self).inv(),
            r matches Ok(changes) ==> {
                &&& final(self).snapshot() == Some((*meta, *snapshot))
                &&& final(self).applied() == Some(meta.last_log_id)
                &&& final(self).sm_membership() == final(self).data_membership(*snapshot)
                &&& final(self).log() == old(self).log()
                &&& final(self).stored_hard_state() == old(self).stored_hard_state()
                &&& changes == (StateMachineChanges {
                    last_applied: Some(meta.last_log_id),
                    is_snapshot: true,
                })
            },
    ;

    /// Returns a readable handle to the installed snapshot and its metadata,
    /// or nothing when none has ever been installed.
    fn get_current_snapshot(&self) -> (r: Result<
        Option<Snapshot<Self::SnapshotData>>,
        StorageError,
    >)
        requires
            self.inv(),
        ensures
            r matches Ok(o) ==> {
                &&& o is Some <==> self.snapshot() is Some
                &&& o matches Some(snap) ==> self.snapshot() matches Some(p) && p.0 == snap.meta
            },
    ;

    /// Projection of `get_log_state` onto the first log id. Does not consider
    /// the state machine.
    fn first_id_in_log(&self) -> (r: Result<Option<LogId>, StorageError>)
        requires
            self.inv(),
        ensures
            r matches Ok(f) ==> opt_is_first(self.log(), f),
    {
        let (first_log_id, _) = self.get_log_state()?;
        Ok(first_log_id)
    }

    /// Projection of `get_log_state` onto the last log id. Does not consider
    /// the state machine.
    fn last_id_in_log(&self) -> (r: Result<Option<LogId>, StorageError>)
        requires
            self.inv(),
        ensures
            r matches Ok(l) ==> opt_is_last(self.log(), l),
    {
        let (_, last_log_id) = self.get_log_state()?;
        Ok(last_log_id)
    }

    /// The earliest log id known to the node from either the log or the state
    /// machine; absent only when neither has ever recorded anything. After
    /// compaction the log's first entry may be later than what the state
    /// machine absorbed, or earlier during a lagging install: the true lower
    /// bound is the lesser of the two.
    fn first_known_log_id(&self) -> (r: Result<Option<LogId>, StorageError>)
        requires
            self.inv(),
        ensures
            r matches Ok(f) ==> exists|fst: Option<LogId>|
                #[trigger] opt_is_first(self.log(), fst) && f == first_known_combine(
                    fst,
                    self.applied(),
                ),
    {
        let (last_applied, _) = self.last_applied_state()?;
        let (first, _) = self.get_log_state()?;

        if last_applied.is_none() {
            return Ok(first);
        }
        if first.is_none() {
            return Ok(last_applied);
        }

        Ok(opt_log_id_min_exec(first, last_applied))
    }

    /// Like `try_get_log_entries`, but additionally verifies that every index
    /// in the requested range that should exist per the known log bounds is
    /// present in the result; a gap there is a storage integrity violation,
    /// reported as a range-mismatch error.
    fn get_log_entries(&self, start: u64, end: u64) -> (r: Result<Vec<Entry<D>>, StorageError>)
        requires
            self.inv(),
        ensures
            r matches Ok(es) ==> {
                &&& entries_match_range(self.log(), start, end, es@)
                &&& forall|i: u64|
                    start <= i < end && log_spans(self.log(), i) ==> self.log().dom().contains(i)
            },
            r matches Err(e) ==> e matches StorageError::RangeMismatch {
                start: s,
                end: en,
                missing_index: m,
            } ==> {
                &&& s == start
                &&& en == end
                &&& start <= m < end
                &&& log_spans(self.log(), m)
                &&& !self.log().dom().contains(m)
            },
    {
        let res = self.try_get_log_entries(start, end)?;
        let (first, last) = self.get_log_state()?;

        match check_range_matches_entries(start, end, first, last, &res) {
            Ok(()) => {
                proof {
                    assert forall|i: u64|
                        start <= i < end && log_spans(self.log(), i) implies self.log(
                    ).dom().contains(i) by {
                        assert(range_expects(start, end, first, last, i));
                        let k = choose|k: int|
                            0 <= k < res@.len() && (#[trigger] res@[k])@.log_id.index == i;
                        assert(self.log().dom().contains(res@[k]@.log_id.index));
                    }
                }
                Ok(res)
            },
            Err(e) => {
                proof {
                    let m = e->RangeMismatch_missing_index;
                    assert(log_spans(self.log(), m)) by {
                        let f = first->0;
                        let l = last->0;
                        assert(self.log().dom().contains(f.index) && f.index <= m);
                        assert(self.log().dom().contains(l.index) && l.index >= m);
                    }
                    if self.log().dom().contains(m) {
                        assert(seq_has_index(res@, m));
                    }
                }
                Err(e)
            },
        }
    }

    /// The latest membership config found in the log at an index at or after
    /// `since_index`, scanned backward in windows of `chunk_size` entries so
    /// that a typically-recent membership entry is found without loading the
    /// whole log; absent when no such entry remains, e.g. when logs are
    /// cleaned after being applied.
    #[verifier::loop_isolation(false)]
    fn last_membership_in_log_chunked(&self, since_index: u64, chunk_size: u64) -> (r: Result<
        Option<EffectiveMembership>,
        StorageError,
    >)
        requires
            self.inv(),
            chunk_size >= 1,
        ensures
            r matches Ok(o) ==> last_membership_matches(
                self.log(),
                since_index as int,
                opt_membership_view(o),
            ),
    {
        proof {
            self.lemma_inv();
        }
        let (first_log_id, last_log_id) = self.get_log_state()?;

        let first_log_id = match first_log_id {
            None => {
                return Ok(None);
            },
            Some(x) => x,
        };
        let last_log_id = match last_log_id {
            None => {
                assert(false);
                return Ok(None);
            },
            Some(x) => x,
        };

        let mut end: u64 = last_log_id.index.saturating_add(1);
        let start: u64 = if first_log_id.index > since_index {
            first_log_id.index
        } else {
            since_index
        };

        while start < end
            invariant
                self.inv(),
                chunk_size >= 1,
                opt_is_first(self.log(), Some(first_log_id)),
                start == if first_log_id.index > since_index {
                    first_log_id.index
                } else {
                    since_index
                },
                forall|i: u64|
                    self.log().dom().contains(i) && i >= since_index && is_membership_entry(
                        #[trigger] self.log()[i],
                    ) ==> i < end,
                forall|i: u64|
                    self.log().dom().contains(i) ==> (#[trigger] self.log()[i]).log_id.index == i,
            decreases end,
        {
            let entries = self.try_get_log_entries(start, end)?;

            let mut k = entries.len();
            while k > 0
                invariant
                    k <= entries@.len(),
                    entries_match_range(self.log(), start, end, entries@),
                    forall|m: int|
                        k <= m < entries@.len() ==> !is_membership_entry((#[trigger] entries@[m])@),
                decreases k,
            {
                k = k - 1;
                match &entries[k].payload {
                    EntryPayload::Membership(mem) => {
                        let found = EffectiveMembership {
                            log_id: entries[k].log_id,
                            membership: mem.clone(),
                        };
                        proof {
                            let fi = entries@[k as int]@.log_id.index;
                            assert(self.log().dom().contains(fi) && entries@[k as int]@
                                == self.log()[fi]);
                            assert(found@.log_id.index == fi);
                            assert(entry_membership(self.log()[fi]) == Some(found@));
                            assert forall|j: u64|
                                self.log().dom().contains(j) && j >= since_index
                                    && is_membership_entry(#[trigger] self.log()[j]) implies j
                                <= found@.log_id.index by {
                                assert(j >= first_log_id.index);
                                assert(j < end);
                                let kj = choose|kj: int|
                                    0 <= kj < entries@.len() && (#[trigger] entries@[kj])@
                                        .log_id.index == j;
                                assert(entries@[kj]@ == self.log()[j]);
                                if kj > k {
                                    assert(!is_membership_entry(entries@[kj]@));
                                }
                            }
                        }
                        return Ok(Some(found));
                    },
                    _ => {},
                }
            }

            proof {
                assert forall|i: u64|
                    self.log().dom().contains(i) && i >= since_index && is_membership_entry(
                        #[trigger] self.log()[i],
                    ) implies false by {
                    assert(i >= first_log_id.index);
                    assert(i >= start && i < end);
                    let ki = choose|ki: int|
                        0 <= ki < entries@.len() && (#[trigger] entries@[ki])@.log_id.index == i;
                    assert(entries@[ki]@ == self.log()[i]);
                    assert(!is_membership_entry(entries@[ki]@));
                }
            }
            end = end.saturating_sub(chunk_size);
        }

        Ok(None)
    }

    /// The latest membership config found in the log at an index at or after
    /// `since_index`, scanned backward in the default window of 64 entries.
    fn last_membership_in_log(&self, since_index: u64) -> (r: Result<
        Option<EffectiveMembership>,
        StorageError,
    >)
        requires
            self.inv(),
        ensures
            r matches Ok(o) ==> last_membership_matches(
                self.log(),
                since_index as int,
                opt_membership_view(o),
            ),
    {
        self.last_membership_in_log_chunked(since_index, 64)
    }

    /// The cluster's current membership config, preferring the log over the
    /// state machine when both have information, because the log is always at
    /// least as fresh.
    fn get_membership(&self) -> (r: Result<Option<EffectiveMembership>, StorageError>)
        requires
            self.inv(),
        ensures
            r matches Ok(o) ==> membership_resolution_matches(
                self.log(),
                self.sm_membership(),
                opt_membership_view(o),
            ),
    {
        proof {
            self.lemma_inv();
        }
        let (_, sm_mem) = self.last_applied_state()?;

        let sm_mem_index = match &sm_mem {
            None => 0,
            Some(mem) => mem.log_id.index,
        };

        let log_mem = self.last_membership_in_log(sm_mem_index.saturating_add(1))?;

        proof {
            let since_exec = sm_mem_index.saturating_add(1) as int;
            let since = sm_since(self.sm_membership());
            assert forall|i: u64| self.log().dom().contains(i) implies (i >= since_exec <==> i
                >= since) by {
                assert(i < u64::MAX);
            }
            assert(has_membership_since(self.log(), since_exec) == has_membership_since(
                self.log(),
                since,
            )) by {
                if has_membership_since(self.log(), since_exec) {
                    let i = choose|i: u64|
                        self.log().dom().contains(i) && i >= since_exec && is_membership_entry(
                            #[trigger] self.log()[i],
                        );
                    assert(self.log().dom().contains(i) && i >= since && is_membership_entry(
                        self.log()[i],
                    ));
                }
                if has_membership_since(self.log(), since) {
                    let i = choose|i: u64|
                        self.log().dom().contains(i) && i >= since && is_membership_entry(
                            #[trigger] self.log()[i],
                        );
                    assert(self.log().dom().contains(i) && i >= since_exec && is_membership_entry(
                        self.log()[i],
                    ));
                }
            }
        }

        if log_mem.is_some() {
            proof {
                let m = opt_membership_view(log_mem)->0;
                assert(has_membership_since(self.log(), sm_since(self.sm_membership()))) by {
                    assert(self.log().dom().contains(m.log_id.index) && is_membership_entry(
                        self.log()[m.log_id.index],
                    ));
                }
            }
            return Ok(log_mem);
        }

        Ok(sm_mem)
    }

    /// The last known durable state a node reconstructs once at startup: the
    /// hard state (zeroed if never written), the applied position, the log
    /// tail reconciled as `max(last_applied, last id in log)` — a snapshot
    /// install can leave the state machine ahead of the local log — and the
    /// resolved membership.
    fn get_initial_state(&self) -> (r: Result<InitialState, StorageError>)
        requires
            self.inv(),
        ensures
            r matches Ok(ist) ==> {
                &&& ist.last_applied == self.applied()
                &&& ist.hard_state == hard_state_or_default(self.stored_hard_state())
                &&& exists|lst: Option<LogId>|
                    #[trigger] opt_is_last(self.log(), lst) && ist.last_log_id == opt_log_id_max(
                        self.applied(),
                        lst,
                    )
                &&& membership_resolution_matches(
                    self.log(),
                    self.sm_membership(),
                    opt_membership_view(ist.last_membership),
                )
            },
    {
        let hs = self.read_hard_state()?;

        let (last_applied, _) = self.last_applied_state()?;
        let last_id_in_log = self.last_id_in_log()?;
        let last_log_id = opt_log_id_max_exec(last_applied, last_id_in_log);

        let membership = self.get_membership()?;

        let hard_state = match hs {
            Some(h) => h,
            None => HardState { current_term: 0, voted_for: None },
        };

        Ok(
            InitialState {
                last_log_id,
                last_applied,
                hard_state,
                last_membership: membership,
            },
        )
    }

    /// A single-entry lookup; absence is an empty result, not an error.
    fn try_get_log_entry(&self, log_index: u64) -> (r: Result<Option<Entry<D>>, StorageError>)
        requires
            self.inv(),
        ensures
            r matches Ok(o) ==> {
                &&& o is Some <==> self.log().dom().contains(log_index)
                &&& o matches Some(e) ==> e@ == self.log()[log_index]
            },
    {
        proof {
            self.lemma_inv();
        }
        let mut res = self.try_get_log_entries(log_index, log_index.saturating_add(1))?;
        Ok(res.pop())
    }
}

/// Whether some entry of `es` sits at index `i`.
pub open spec fn seq_has_index<D>(es: Seq<Entry<D>>, i: u64) -> bool {
    exists|k: int| 0 <= k < es.len() && (#[trigger] es[k])@.log_id.index == i
}

/// An entry at index `i` should exist: `i` lies in the requested range and
/// within the known log bounds.
pub open spec fn range_expects(
    start: u64,
    end: u64,
    first: Option<LogId>,
    last: Option<LogId>,
    i: u64,
) -> bool {
    &&& start <= i < end
    &&& first matches Some(f) && f.index <= i
    &&& last matches Some(l) && i <= l.index
}

/// Index `i` lies within the span of `log`: some entry sits at or before it
/// and some entry at or after it.
pub open spec fn log_spans<D>(log: Map<u64, EntryModel<D>>, i: u64) -> bool {
    &&& exists|a: u64| #[trigger] log.dom().contains(a) && a <= i
    &&& exists|b: u64| #[trigger] log.dom().contains(b) && b >= i
}

/// The defensive check behind strict range reads: every index of `[start,
/// end)` that the log bounds `first..=last` say should exist must be present
/// in `entries`; the first missing one is reported as a range mismatch.
#[verifier::loop_isolation(false)]
pub fn check_range_matches_entries<D>(
    start: u64,
    end: u64,
    first: Option<LogId>,
    last: Option<LogId>,
    entries: &Vec<Entry<D>>,
) -> (r: Result<(), StorageError>)
    requires
        forall|k1: int, k2: int|
            0 <= k1 < k2 < entries@.len() ==> (#[trigger] entries@[k1])@.log_id.index < (
            #[trigger] entries@[k2])@.log_id.index,
    ensures
        r is Ok <==> forall|i: u64|
            range_expects(start, end, first, last, i) ==> seq_has_index(entries@, i),
        r matches Err(e) ==> e matches StorageError::RangeMismatch {
            start: s,
            end: en,
            missing_index: m,
        } && s == start && en == end && range_expects(start, end, first, last, m)
            && !seq_has_index(entries@, m),
{
    let (f, l) = match (first, last) {
        (Some(f), Some(l)) => (f, l),
        _ => {
            return Ok(());
        },
    };

    let lo: u64 = if start > f.index {
        start
    } else {
        f.index
    };
    let hi: u64 = {
        let lp1 = l.index.saturating_add(1);
        if end < lp1 {
            end
        } else {
            lp1
        }
    };
    proof {
        assert forall|i: u64| range_expects(start, end, first, last, i) implies lo <= i < hi by {}
        assert forall|i: u64| lo <= i < hi implies range_expects(start, end, first, last, i) by {}
    }

    let mut j: usize = 0;
    while j < entries.len() && entries[j].log_id.index < lo
        invariant
            j <= entries@.len(),
            forall|m: int| 0 <= m < j ==> (#[trigger] entries@[m])@.log_id.index < lo,
        decreases entries@.len() - j,
    {
        j += 1;
    }

    let ghost j0 = j as int;
    let mut i: u64 = lo;
    while i < hi
        invariant
            lo <= i,
            j0 <= j <= entries@.len(),
            j - j0 == i - lo,
            forall|m: int| j0 <= m < j ==> (#[trigger] entries@[m])@.log_id.index == lo + (m - j0),
        decreases hi - i,
    {
        if j >= entries.len() || entries[j].log_id.index != i {
            proof {
                assert forall|m: int| 0 <= m < entries@.len() implies (#[trigger] entries@[m])@
                    .log_id.index != i by {
                    if m < j0 {
                    } else if m < j {
                    } else if m == j {
                        if j > j0 {
                            assert(entries@[j - 1]@.log_id.index == i - 1);
                        }
                    } else {
                        if (j as int) < entries@.len() {
                            if j > j0 {
                                assert(entries@[j - 1]@.log_id.index == i - 1);
                                assert(entries@[j as int]@.log_id.index > i - 1);
                            }
                            assert(entries@[m]@.log_id.index > entries@[j as int]@.log_id.index);
                        }
                    }
                }
                assert(range_expects(start, end, first, last, i));
                assert(!seq_has_index(entries@, i));
            }
            return Err(StorageError::RangeMismatch { start, end, missing_index: i });
        }
        j += 1;
        i += 1;
    }

    proof {
        assert forall|i2: u64|
            range_expects(start, end, first, last, i2) implies seq_has_index(entries@, i2) by {
            let m = j0 + (i2 - lo);
            assert(entries@[m]@.log_id.index == i2);
        }
    }
    Ok(())
}

/// The narrow, test-only introspection capability: a direct handle to the
/// underlying state machine representation, bypassing the normal apply path.
/// Not used in production control flow.
pub trait RaftStorageDebug<SM> {
    /// Whether `sm` faithfully reproduces the store's current state machine.
    spec fn is_state_machine(&self, sm: &SM) -> bool;

    /// Returns a handle to the state machine, for testing purposes.
    fn get_state_machine(&self) -> (sm: SM)
        ensures
            self.is_state_machine(&sm),
    ;
}

} // verus!
