//! An in-memory store satisfying the [`RaftStorage`] contract, used by tests
//! and as the reference implementation of the capability set.

use vstd::pervasive::VecAdditionalExecFns;
use vstd::prelude::*;

use crate::errors::ErrorSubject;
use crate::errors::ErrorVerb;
use crate::errors::StorageError;
use crate::storage::seq_has_index;
use crate::storage::sm_membership_after;
use crate::storage::RaftStorage;
use crate::storage::RaftStorageDebug;
use crate::types::entry_membership;
use crate::types::EffectiveMembership;
use crate::types::EffectiveMembershipModel;
use crate::types::Entry;
use crate::types::EntryModel;
use crate::types::EntryPayload;
use crate::types::HardState;
use crate::types::LogId;
use crate::types::Snapshot;
use crate::types::SnapshotMeta;
use crate::types::StateMachineChanges;
use crate::types::opt_membership_view;

verus! {

/// The entries of `s` are in strictly ascending index order.
pub open spec fn log_sorted(s: Seq<Entry<u64>>) -> bool {
    forall|k1: int, k2: int|
        0 <= k1 < k2 < s.len() ==> (#[trigger] s[k1]).log_id.index < (#[trigger] s[k2]).log_id.index
}

/// Every index of `s` leaves room for a successor.
pub open spec fn log_bounded(s: Seq<Entry<u64>>) -> bool {
    forall|k: int| 0 <= k < s.len() ==> (#[trigger] s[k]).log_id.index < u64::MAX
}

/// Whether one of the first `n` entries of `es` sits at index `i`.
pub open spec fn has_index_below(es: Seq<Entry<u64>>, n: int, i: u64) -> bool {
    exists|m: int| 0 <= m < n && m < es.len() && (#[trigger] es[m])@.log_id.index == i
}

/// The position of the entry of `s` at index `i`, unique when `s` is sorted.
pub open spec fn log_pos(s: Seq<Entry<u64>>, i: u64) -> int {
    choose|k: int| 0 <= k < s.len() && (#[trigger] s[k])@.log_id.index == i
}

/// The entries of `s` as a map keyed by each entry's own index.
pub open spec fn log_map(s: Seq<Entry<u64>>) -> Map<u64, EntryModel<u64>> {
    Map::new(|i: u64| seq_has_index(s, i), |i: u64| s[log_pos(s, i)]@)
}

/// In a sorted log, the entry at position `k` is what the map holds at its
/// index.
pub proof fn lemma_log_map_position(s: Seq<Entry<u64>>, k: int)
    requires
        log_sorted(s),
        0 <= k < s.len(),
    ensures
        log_map(s).dom().contains(s[k].log_id.index),
        log_map(s)[s[k].log_id.index] == s[k]@,
{
    let i = s[k].log_id.index;
    assert(s[k]@.log_id.index == i);
    assert(seq_has_index(s, i));
    let k2 = log_pos(s, i);
    if k2 < k {
        assert(s[k2].log_id.index < s[k].log_id.index);
    } else if k2 > k {
        assert(s[k].log_id.index < s[k2].log_id.index);
    }
}

/// A sorted log's map has a finite domain.
pub proof fn lemma_log_map_finite(s: Seq<Entry<u64>>)
    ensures
        log_map(s).dom().finite(),
{
    broadcast use vstd::seq_lib::seq_to_set_is_finite;
    broadcast use vstd::set_lib::lemma_set_subset_finite;

    let idxs = s.map_values(|e: Entry<u64>| e.log_id.index);
    assert(idxs.to_set().finite());
    assert forall|i: u64| log_map(s).dom().contains(i) implies idxs.to_set().contains(i) by {
        let k = choose|k: int| 0 <= k < s.len() && (#[trigger] s[k])@.log_id.index == i;
        assert(idxs[k] == i);
    }
    assert(log_map(s).dom().subset_of(idxs.to_set()));
}

/// Overwriting the entry at position `pos` with one carrying the same index
/// updates the log map at that index alone.
pub proof fn lemma_log_map_update(s0: Seq<Entry<u64>>, pos: int, e: Entry<u64>)
    requires
        log_sorted(s0),
        0 <= pos < s0.len(),
        s0[pos].log_id.index == e.log_id.index,
    ensures
        log_sorted(s0.update(pos, e)),
        log_map(s0.update(pos, e)) == log_map(s0).insert(e.log_id.index, e@),
{
    let s2 = s0.update(pos, e);
    assert forall|k1: int, k2: int| 0 <= k1 < k2 < s2.len() implies (
    #[trigger] s2[k1]).log_id.index < (#[trigger] s2[k2]).log_id.index by {
        assert(s0[k1].log_id.index < s0[k2].log_id.index);
    }
    let m2 = log_map(s2);
    let m1 = log_map(s0).insert(e.log_id.index, e@);
    assert forall|i: u64| #[trigger] m2.dom().contains(i) implies m1.dom().contains(i) && m2[i]
        == m1[i] by {
        let k = choose|k: int| 0 <= k < s2.len() && (#[trigger] s2[k])@.log_id.index == i;
        lemma_log_map_position(s2, k);
        if i == e.log_id.index {
            if k != pos {
                assert(s2[pos].log_id.index == i);
            }
            assert(m2[i] == e@);
        } else {
            assert(k != pos);
            assert(s2[k] == s0[k]);
            lemma_log_map_position(s0, k);
        }
    }
    assert forall|i: u64| #[trigger] m1.dom().contains(i) implies m2.dom().contains(i) by {
        if i == e.log_id.index {
            lemma_log_map_position(s2, pos);
        } else {
            let k = choose|k: int| 0 <= k < s0.len() && (#[trigger] s0[k])@.log_id.index == i;
            assert(k != pos);
            assert(s2[k] == s0[k]);
            lemma_log_map_position(s2, k);
        }
    }
    assert(m2 =~= m1);
}

/// Inserting an entry between its sorted neighbours adds exactly its index to
/// the log map.
pub proof fn lemma_log_map_seq_insert(s0: Seq<Entry<u64>>, pos: int, e: Entry<u64>)
    requires
        log_sorted(s0),
        0 <= pos <= s0.len(),
        forall|m: int| 0 <= m < pos ==> (#[trigger] s0[m]).log_id.index < e.log_id.index,
        forall|m: int| pos <= m < s0.len() ==> (#[trigger] s0[m]).log_id.index > e.log_id.index,
    ensures
        log_sorted(s0.insert(pos, e)),
        log_map(s0.insert(pos, e)) == log_map(s0).insert(e.log_id.index, e@),
{
    let s2 = s0.insert(pos, e);
    s0.insert_ensures(pos, e);
    assert forall|k1: int, k2: int| 0 <= k1 < k2 < s2.len() implies (
    #[trigger] s2[k1]).log_id.index < (#[trigger] s2[k2]).log_id.index by {
        if k1 < pos {
            assert(s2[k1] == s0[k1]);
        } else if k1 > pos {
            assert(s2[k1] == s0[k1 - 1]);
        }
        if k2 < pos {
            assert(s2[k2] == s0[k2]);
        } else if k2 > pos {
            assert(s2[k2] == s0[k2 - 1]);
        }
    }
    let m2 = log_map(s2);
    let m1 = log_map(s0).insert(e.log_id.index, e@);
    assert forall|i: u64| #[trigger] m2.dom().contains(i) implies m1.dom().contains(i) && m2[i]
        == m1[i] by {
        let k = choose|k: int| 0 <= k < s2.len() && (#[trigger] s2[k])@.log_id.index == i;
        lemma_log_map_position(s2, k);
        if k == pos {
            assert(m2[i] == e@);
        } else if k < pos {
            assert(s2[k] == s0[k]);
            lemma_log_map_position(s0, k);
        } else {
            assert(s2[k] == s0[k - 1]);
            lemma_log_map_position(s0, k - 1);
        }
    }
    assert forall|i: u64| #[trigger] m1.dom().contains(i) implies m2.dom().contains(i) by {
        if i == e.log_id.index {
            lemma_log_map_position(s2, pos);
        } else {
            let k = choose|k: int| 0 <= k < s0.len() && (#[trigger] s0[k])@.log_id.index == i;
            if k < pos {
                assert(s2[k] == s0[k]);
                lemma_log_map_position(s2, k);
            } else {
                assert(s2[k + 1] == s0[k]);
                lemma_log_map_position(s2, k + 1);
            }
        }
    }
    assert(m2 =~= m1);
}

/// Copies an entry, preserving its model.
fn dup_entry(e: &Entry<u64>) -> (r: Entry<u64>)
    ensures
        r@ == e@,
        r.log_id == e.log_id,
{
    Entry {
        log_id: e.log_id,
        payload: match &e.payload {
            EntryPayload::Blank => EntryPayload::Blank,
            EntryPayload::Normal(d) => EntryPayload::Normal(*d),
            EntryPayload::Membership(m) => EntryPayload::Membership(m.clone()),
        },
    }
}

/// Mathematical model of a [`StateMachineContent`].
pub ghost struct StateMachineModel {
    pub last_applied: Option<LogId>,
    pub last_membership: Option<EffectiveMembershipModel>,
    pub data: Seq<u64>,
}

/// The in-memory state machine representation: what the store has applied so
/// far. Also serves as the snapshot content type, since a snapshot is a
/// point-in-time copy of exactly this.
#[derive(Debug)]
pub struct StateMachineContent {
    /// The last log id applied.
    pub last_applied: Option<LogId>,
    /// The membership record applied last.
    pub last_membership: Option<EffectiveMembership>,
    /// The application payloads applied, in order.
    pub data: Vec<u64>,
}

impl View for StateMachineContent {
    type V = StateMachineModel;

    open spec fn view(&self) -> StateMachineModel {
        StateMachineModel {
            last_applied: self.last_applied,
            last_membership: opt_membership_view(self.last_membership),
            data: self.data@,
        }
    }
}

impl StateMachineContent {
    /// An empty state machine: nothing applied yet.
    pub fn new() -> (r: Self)
        ensures
            r@ == (StateMachineModel {
                last_applied: None,
                last_membership: None,
                data: Seq::<u64>::empty(),
            }),
    {
        StateMachineContent { last_applied: None, last_membership: None, data: Vec::new() }
    }
}

impl Clone for StateMachineContent {
    fn clone(&self) -> (r: Self)
        ensures
            r@ == self@,
    {
        let last_membership = match &self.last_membership {
            None => None,
            Some(m) => Some(m.clone()),
        };
        let data = self.data.clone();
        proof {
            assert(data@ =~= self.data@);
        }
        StateMachineContent { last_applied: self.last_applied, last_membership, data }
    }
}

/// A volatile store: a sorted log, the vote/term record, the state machine
/// and at most one installed snapshot.
pub struct MemStore {
    entries: Vec<Entry<u64>>,
    hard_state: Option<HardState>,
    sm: StateMachineContent,
    current_snapshot: Option<(SnapshotMeta, StateMachineContent)>,
    snapshot_seq: u64,
    fail_delete: bool,
}

impl MemStore {
    /// An empty store, as on a node's first boot.
    pub fn new() -> (r: Self)
        ensures
            r.inv(),
            r.log() =~= Map::<u64, EntryModel<u64>>::empty(),
            r.stored_hard_state() == None::<HardState>,
            r.applied() == None::<LogId>,
            r.sm_membership() == None::<EffectiveMembershipModel>,
            r.snapshot() == None::<(SnapshotMeta, StateMachineContent)>,
    {
        MemStore {
            entries: Vec::new(),
            hard_state: None,
            sm: StateMachineContent::new(),
            current_snapshot: None,
            snapshot_seq: 0,
            fail_delete: false,
        }
    }

    /// Makes every later `delete_log` call fail as a broken medium would, or
    /// restores normal behaviour: a test hook for the fatal-deletion path.
    pub fn set_delete_failure(&mut self, fail: bool)
        requires
            old(self).inv(),
        ensures
            final(self).inv(),
            final(self).log() == old(self).log(),
            final(self).stored_hard_state() == old(self).stored_hard_state(),
            final(self).applied() == old(self).applied(),
            final(self).sm_membership() == old(self).sm_membership(),
            final(self).snapshot() == old(self).snapshot(),
            final(self).delete_fails() == fail,
    {
        self.fail_delete = fail;
    }

    /// Whether the store is rigged to fail log deletions.
    pub closed spec fn delete_fails(&self) -> bool {
        self.fail_delete
    }

    /// Writes one entry at the location its index dictates: overwrites an
    /// existing entry at the same index, else inserts between its neighbours.
    #[verifier::loop_isolation(false)]
    fn insert_entry(&mut self, e: &Entry<u64>)
        requires
            old(self).inv(),
            e.log_id.index < u64::MAX,
        ensures
            final(self).inv(),
            final(self).log() == old(self).log().insert(e.log_id.index, e@),
            final(self).stored_hard_state() == old(self).stored_hard_state(),
            final(self).applied() == old(self).applied(),
            final(self).sm_membership() == old(self).sm_membership(),
            final(self).snapshot() == old(self).snapshot(),
            final(self).delete_fails() == old(self).delete_fails(),
    {
        let idx = e.log_id.index;
        let mut pos: usize = 0;
        while pos < self.entries.len() && self.entries[pos].log_id.index < idx
            invariant
                pos <= self.entries@.len(),
                forall|m: int| 0 <= m < pos ==> (#[trigger] self.entries@[m]).log_id.index < idx,
            decreases self.entries@.len() - pos,
        {
            pos += 1;
        }
        let ghost s0 = self.entries@;
        let copied = dup_entry(e);
        if pos < self.entries.len() && self.entries[pos].log_id.index == idx {
            self.entries.set(pos, copied);
            proof {
                lemma_log_map_update(s0, pos as int, copied);
                assert(copied@ == e@);
            }
        } else {
            proof {
                assert forall|m: int|
                    pos <= m < s0.len() implies (#[trigger] s0[m]).log_id.index
                    > e.log_id.index by {
                    if m > pos {
                        assert(s0[pos as int].log_id.index < s0[m].log_id.index);
                    }
                }
            }
            self.entries.insert(pos, copied);
            proof {
                lemma_log_map_seq_insert(s0, pos as int, copied);
            }
        }
    }
}

impl RaftStorage<u64, u64> for MemStore {
    type SnapshotData = StateMachineContent;

    closed spec fn log(&self) -> Map<u64, EntryModel<u64>> {
        log_map(self.entries@)
    }

    closed spec fn stored_hard_state(&self) -> Option<HardState> {
        self.hard_state
    }

    closed spec fn applied(&self) -> Option<LogId> {
        self.sm.last_applied
    }

    closed spec fn sm_membership(&self) -> Option<EffectiveMembershipModel> {
        opt_membership_view(self.sm.last_membership)
    }

    closed spec fn snapshot(&self) -> Option<(SnapshotMeta, StateMachineContent)> {
        self.current_snapshot
    }

    closed spec fn data_membership(&self, data: StateMachineContent) -> Option<
        EffectiveMembershipModel,
    > {
        opt_membership_view(data.last_membership)
    }

    closed spec fn inv(&self) -> bool {
        log_sorted(self.entries@) && log_bounded(self.entries@)
    }

    proof fn lemma_inv(&self) {
        lemma_log_map_finite(self.entries@);
        assert forall|i: u64| self.log().dom().contains(i) implies (
        #[trigger] self.log()[i]).log_id.index == i && i < u64::MAX by {
            let k = log_pos(self.entries@, i);
            assert(0 <= k < self.entries@.len() && self.entries@[k]@.log_id.index == i);
        }
    }

    fn save_hard_state(&mut self, hs: &HardState) -> (r: Result<(), StorageError>)
        ensures
            r is Ok,
    {
        self.hard_state = Some(*hs);
        Ok(())
    }

    fn read_hard_state(&self) -> (r: Result<Option<HardState>, StorageError>)
        ensures
            r is Ok,
    {
        Ok(self.hard_state)
    }

    fn get_log_state(&self) -> (r: Result<(Option<LogId>, Option<LogId>), StorageError>)
        ensures
            r is Ok,
    {
        if self.entries.len() == 0 {
            proof {
                assert forall|i: u64| !self.log().dom().contains(i) by {}
            }
            return Ok((None, None));
        }
        let first = self.entries[0].log_id;
        let last = self.entries[self.entries.len() - 1].log_id;
        proof {
            lemma_log_map_position(self.entries@, 0);
            lemma_log_map_position(self.entries@, self.entries@.len() - 1);
            assert forall|j: u64| self.log().dom().contains(j) implies first.index <= j && j
                <= last.index by {
                let k = log_pos(self.entries@, j);
                assert(0 <= k < self.entries@.len() && self.entries@[k]@.log_id.index == j);
                if k > 0 {
                    assert(self.entries@[0].log_id.index < self.entries@[k].log_id.index);
                }
                if k < self.entries@.len() - 1 {
                    assert(self.entries@[k].log_id.index < self.entries@[self.entries@.len()
                        - 1].log_id.index);
                }
            }
        }
        Ok((Some(first), Some(last)))
    }

    #[verifier::loop_isolation(false)]
    fn try_get_log_entries(&self, start: u64, end: u64) -> (r: Result<Vec<Entry<u64>>, StorageError>)
        ensures
            r is Ok,
    {
        let mut out: Vec<Entry<u64>> = Vec::new();
        let mut k: usize = 0;
        while k < self.entries.len()
            invariant
                k <= self.entries@.len(),
                forall|m: int|
                    0 <= m < out@.len() ==> {
                        let i = (#[trigger] out@[m])@.log_id.index;
                        &&& start <= i < end
                        &&& self.log().dom().contains(i)
                        &&& out@[m]@ == self.log()[i]
                    },
                forall|m: int|
                    0 <= m < out@.len() ==> exists|j: int|
                        0 <= j < k && (#[trigger] out@[m])@.log_id.index == self.entries@[
                        j].log_id.index,
                forall|m1: int, m2: int|
                    0 <= m1 < m2 < out@.len() ==> (#[trigger] out@[m1])@.log_id.index < (
                    #[trigger] out@[m2])@.log_id.index,
                forall|j: int|
                    0 <= j < k && start <= (#[trigger] self.entries@[j]).log_id.index < end
                        ==> seq_has_index(out@, self.entries@[j].log_id.index),
            decreases self.entries@.len() - k,
        {
            let e = &self.entries[k];
            if start <= e.log_id.index && e.log_id.index < end {
                proof {
                    lemma_log_map_position(self.entries@, k as int);
                    assert forall|m: int| 0 <= m < out@.len() implies (#[trigger] out@[m])@
                        .log_id.index < self.entries@[k as int].log_id.index by {
                        let j = choose|j: int|
                            0 <= j < k && (#[trigger] out@[m])@.log_id.index == self.entries@[
                            j].log_id.index;
                        assert(self.entries@[j].log_id.index < self.entries@[
                        k as int].log_id.index);
                    }
                }
                let ghost out0 = out@;
                let copied = dup_entry(e);
                out.push(copied);
                proof {
                    assert(out@[out@.len() - 1]@.log_id.index == self.entries@[
                    k as int].log_id.index);
                    assert forall|j: int|
                        0 <= j < k + 1 && start <= (#[trigger] self.entries@[j]).log_id.index
                            < end implies seq_has_index(out@, self.entries@[j].log_id.index) by {
                        if j < k {
                            let m = choose|m: int|
                                0 <= m < out0.len() && (#[trigger] out0[m])@.log_id.index
                                    == self.entries@[j].log_id.index;
                            assert(out@[m]@.log_id.index == self.entries@[j].log_id.index);
                        } else {
                            assert(out@[out@.len() - 1]@.log_id.index == self.entries@[
                            j].log_id.index);
                        }
                    }
                }
            }
            k += 1;
        }
        proof {
            assert forall|i: u64|
                start <= i < end && self.log().dom().contains(i) implies exists|m: int|
                0 <= m < out@.len() && (#[trigger] out@[m])@.log_id.index == i by {
                let j = log_pos(self.entries@, i);
                assert(0 <= j < self.entries@.len() && self.entries@[j]@.log_id.index == i);
                assert(seq_has_index(out@, self.entries@[j].log_id.index));
            }
        }
        Ok(out)
    }

    fn last_applied_state(&self) -> (r: Result<
        (Option<LogId>, Option<EffectiveMembership>),
        StorageError,
    >)
        ensures
            r is Ok,
    {
        let mem = match &self.sm.last_membership {
            None => None,
            Some(m) => {
                let c = m.clone();
                proof {
                    assert(c@ == m@);
                    assert(opt_membership_view(Some(c)) == opt_membership_view(
                        self.sm.last_membership,
                    ));
                }
                Some(c)
            },
        };
        proof {
            assert(opt_membership_view(mem) == self.sm_membership());
            assert(self.sm.last_applied == self.applied());
        }
        Ok((self.sm.last_applied, mem))
    }

    #[verifier::loop_isolation(false)]
    fn append_to_log(&mut self, entries: &Vec<Entry<u64>>) -> (r: Result<(), StorageError>)
        ensures
            r is Ok,
    {
        let mut k: usize = 0;
        while k < entries.len()
            invariant
                k <= entries@.len(),
                self.inv(),
                forall|m: int|
                    0 <= m < k ==> {
                        let i = (#[trigger] entries@[m])@.log_id.index;
                        &&& self.log().dom().contains(i)
                        &&& self.log()[i] == entries@[m]@
                    },
                forall|i: u64|
                    !(#[trigger] has_index_below(entries@, k as int, i)) ==> {
                        &&& self.log().dom().contains(i) == old(self).log().dom().contains(i)
                        &&& old(self).log().dom().contains(i) ==> self.log()[i] == old(
                            self,
                        ).log()[i]
                    },
                self.stored_hard_state() == old(self).stored_hard_state(),
                self.applied() == old(self).applied(),
                self.sm_membership() == old(self).sm_membership(),
                self.snapshot() == old(self).snapshot(),
            decreases entries@.len() - k,
        {
            let e = &entries[k];
            let ghost log_before = self.log();
            self.insert_entry(e);
            proof {
                assert(self.log() == log_before.insert(entries@[k as int]@.log_id.index, entries@[
                k as int]@));
                assert forall|m: int| 0 <= m < k + 1 implies {
                    let i = (#[trigger] entries@[m])@.log_id.index;
                    &&& self.log().dom().contains(i)
                    &&& self.log()[i] == entries@[m]@
                } by {
                    if m < k {
                        assert(entries@[m]@.log_id.index < entries@[k as int]@.log_id.index);
                    }
                }
                assert forall|i: u64| !(#[trigger] has_index_below(entries@, k + 1, i)) implies {
                    &&& self.log().dom().contains(i) == old(self).log().dom().contains(i)
                    &&& old(self).log().dom().contains(i) ==> self.log()[i] == old(
                        self,
                    ).log()[i]
                } by {
                    if entries@[k as int]@.log_id.index == i {
                        assert(has_index_below(entries@, k + 1, i));
                    }
                    assert(!has_index_below(entries@, k as int, i)) by {
                        if has_index_below(entries@, k as int, i) {
                            let m = choose|m: int|
                                0 <= m < k && m < entries@.len() && (#[trigger] entries@[m])@
                                    .log_id.index == i;
                            assert(has_index_below(entries@, k + 1, i));
                        }
                    }
                    assert(log_before.dom().contains(i) == old(self).log().dom().contains(i));
                    assert(self.log().dom().contains(i) == log_before.dom().contains(i));
                }
            }
            k += 1;
        }
        proof {
            assert forall|i: u64| !seq_has_index(entries@, i) implies !has_index_below(
                entries@,
                entries@.len() as int,
                i,
            ) by {
                if has_index_below(entries@, entries@.len() as int, i) {
                    let m = choose|m: int|
                        0 <= m < entries@.len() && m < entries@.len() && (#[trigger] entries@[m])@
                            .log_id.index == i;
                    assert(seq_has_index(entries@, i));
                }
            }
        }
        Ok(())
    }

    #[verifier::loop_isolation(false)]
    fn delete_log(&mut self, start: u64, end: u64) -> (r: Result<(), StorageError>)
        ensures
            r is Ok <==> !old(self).delete_fails(),
            final(self).delete_fails() == old(self).delete_fails(),
            r is Err ==> *final(self) == *old(self),
    {
        if self.fail_delete {
            return Err(StorageError::IO { subject: ErrorSubject::Logs, verb: ErrorVerb::Delete });
        }
        let mut out: Vec<Entry<u64>> = Vec::new();
        let mut k: usize = 0;
        while k < self.entries.len()
            invariant
                k <= self.entries@.len(),
                log_sorted(out@),
                log_bounded(out@),
                forall|m: int|
                    0 <= m < out@.len() ==> exists|j: int|
                        0 <= j < k && (#[trigger] out@[m])@ == self.entries@[j]@ && !(start
                            <= self.entries@[j].log_id.index < end),
                forall|j: int|
                    0 <= j < k && !(start <= (#[trigger] self.entries@[j]).log_id.index < end)
                        ==> seq_has_index(out@, self.entries@[j].log_id.index),
            decreases self.entries@.len() - k,
        {
            let e = &self.entries[k];
            if e.log_id.index < start || e.log_id.index >= end {
                let ghost out0 = out@;
                let copied = dup_entry(e);
                out.push(copied);
                proof {
                    assert(out@[out@.len() - 1]@ == self.entries@[k as int]@);
                    assert forall|m1: int, m2: int| 0 <= m1 < m2 < out@.len() implies (
                    #[trigger] out@[m1])@.log_id.index < (#[trigger] out@[m2])@.log_id.index by {
                        if m2 == out@.len() - 1 {
                            let j = choose|j: int|
                                0 <= j < k && (#[trigger] out0[m1])@ == self.entries@[j]@ && !(
                                start <= self.entries@[j].log_id.index < end);
                            assert(self.entries@[j].log_id.index < self.entries@[
                            k as int].log_id.index);
                        }
                    }
                    assert forall|j: int|
                        0 <= j < k + 1 && !(start <= (#[trigger] self.entries@[j]).log_id.index
                            < end) implies seq_has_index(out@, self.entries@[j].log_id.index) by {
                        if j < k {
                            let m = choose|m: int|
                                0 <= m < out0.len() && (#[trigger] out0[m])@.log_id.index
                                    == self.entries@[j].log_id.index;
                            assert(out@[m]@.log_id.index == self.entries@[j].log_id.index);
                        } else {
                            assert(out@[out@.len() - 1]@.log_id.index == self.entries@[
                            j].log_id.index);
                        }
                    }
                }
            }
            k += 1;
        }
        let ghost s0 = self.entries@;
        self.entries = out;
        proof {
            assert forall|i: u64|
                #[trigger] self.log().dom().contains(i) implies old(self).log().dom().contains(i)
                && !(start <= i < end) && self.log()[i] == old(self).log()[i] by {
                let m = choose|m: int|
                    0 <= m < self.entries@.len() && (#[trigger] self.entries@[m])@.log_id.index
                        == i;
                lemma_log_map_position(self.entries@, m);
                let j = choose|j: int|
                    0 <= j < s0.len() && (#[trigger] self.entries@[m])@ == s0[j]@ && !(start <= s0[
                    j].log_id.index < end);
                lemma_log_map_position(s0, j);
            }
            assert forall|i: u64|
                old(self).log().dom().contains(i) && !(start <= i < end) implies (
            #[trigger] self.log().dom().contains(i)) by {
                let j = choose|j: int| 0 <= j < s0.len() && (#[trigger] s0[j])@.log_id.index == i;
                assert(seq_has_index(self.entries@, s0[j].log_id.index));
            }
        }
        Ok(())
    }

    #[verifier::loop_isolation(false)]
    #[verifier::rlimit(50)]
    fn apply_to_state_machine(&mut self, entries: &Vec<Entry<u64>>) -> (r: Result<
        Vec<u64>,
        StorageError,
    >)
        ensures
            r is Ok,
    {
        let mut responses: Vec<u64> = Vec::new();
        let mut k: usize = 0;
        while k < entries.len()
            invariant
                k <= entries@.len(),
                responses@.len() == k,
                self.sm.last_applied == if k == 0 {
                    old(self).applied()
                } else {
                    Some(entries@[k - 1].log_id)
                },
                opt_membership_view(self.sm.last_membership) == sm_membership_after(
                    entries@.take(k as int),
                    old(self).sm_membership(),
                ),
                self.entries@ == old(self).entries@,
                self.hard_state == old(self).hard_state,
                self.current_snapshot == old(self).current_snapshot,
                self.fail_delete == old(self).fail_delete,
            decreases entries@.len() - k,
        {
            let e = &entries[k];
            let ghost prefix = entries@.take(k as int);
            match &e.payload {
                EntryPayload::Blank => {
                    responses.push(0);
                },
                EntryPayload::Normal(d) => {
                    self.sm.data.push(*d);
                    responses.push(*d);
                },
                EntryPayload::Membership(m) => {
                    let c = m.clone();
                    self.sm.last_membership = Some(
                        EffectiveMembership { log_id: e.log_id, membership: c },
                    );
                    responses.push(0);
                    proof {
                        assert(opt_membership_view(self.sm.last_membership) == entry_membership(
                            entries@[k as int]@,
                        ));
                    }
                },
            }
            self.sm.last_applied = Some(e.log_id);
            proof {
                let t = entries@.take(k as int + 1);
                assert(t.drop_last() =~= prefix);
                assert(t.last() == entries@[k as int]);
                assert(opt_membership_view(self.sm.last_membership) == sm_membership_after(
                    t,
                    old(self).sm_membership(),
                ));
            }
            k += 1;
        }
        proof {
            assert(entries@.take(entries@.len() as int) =~= entries@);
            if entries@.len() > 0 {
                assert(entries@[entries@.len() - 1] == entries@.last());
            }
        }
        Ok(responses)
    }

    fn build_snapshot(&mut self) -> (r: Result<Snapshot<StateMachineContent>, StorageError>)
        ensures
            r is Ok,
    {
        let last_log_id = match self.sm.last_applied {
            Some(l) => l,
            None => LogId { term: 0, index: 0 },
        };
        let snapshot_id = self.snapshot_seq.to_string();
        self.snapshot_seq = self.snapshot_seq.wrapping_add(1);
        let meta = SnapshotMeta { last_log_id, snapshot_id };
        let content = self.sm.clone();
        let handle = Box::new(self.sm.clone());
        proof {
            assert(opt_membership_view(content.last_membership) == opt_membership_view(
                self.sm.last_membership,
            ));
        }
        self.current_snapshot = Some((meta.clone(), content));
        Ok(Snapshot { meta, snapshot: handle })
    }

    fn begin_receiving_snapshot(&mut self) -> (r: Result<Box<StateMachineContent>, StorageError>)
        ensures
            r is Ok,
    {
        Ok(Box::new(StateMachineContent::new()))
    }

    fn finalize_snapshot_installation(
        &mut self,
        meta: &SnapshotMeta,
        snapshot: Box<StateMachineContent>,
    ) -> (r: Result<StateMachineChanges, StorageError>)
        ensures
            r is Ok,
    {
        let content = *snapshot;
        self.sm.last_applied = Some(meta.last_log_id);
        self.sm.last_membership = match &content.last_membership {
            None => None,
            Some(m) => {
                let c = m.clone();
                proof {
                    assert(opt_membership_view(Some(c)) == opt_membership_view(
                        content.last_membership,
                    ));
                }
                Some(c)
            },
        };
        let data = content.data.clone();
        proof {
            assert(data@ =~= content.data@);
        }
        self.sm.data = data;
        self.current_snapshot = Some((meta.clone(), content));
        Ok(StateMachineChanges { last_applied: Some(meta.last_log_id), is_snapshot: true })
    }

    fn get_current_snapshot(&self) -> (r: Result<
        Option<Snapshot<StateMachineContent>>,
        StorageError,
    >)
        ensures
            r is Ok,
    {
        match &self.current_snapshot {
            None => Ok(None),
            Some(pair) => Ok(
                Some(Snapshot { meta: pair.0.clone(), snapshot: Box::new(pair.1.clone()) }),
            ),
        }
    }
}

impl RaftStorageDebug<StateMachineContent> for MemStore {
    closed spec fn is_state_machine(&self, sm: &StateMachineContent) -> bool {
        sm@ == self.sm@
    }

    fn get_state_machine(&self) -> (sm: StateMachineContent) {
        self.sm.clone()
    }
}

} // verus!
