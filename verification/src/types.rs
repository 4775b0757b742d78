//! The durable records of a Raft store and their mathematical models.

use vstd::prelude::*;

verus! {

/// Identifier of a node in the cluster.
pub type NodeId = u64;

/// Identifies a log entry: the leadership term under which it was written and
/// its position in the log. Ordering is lexicographic by `(term, index)`.
#[derive(Clone, Copy, Debug, PartialEq, Eq, Structural, Hash)]
pub struct LogId {
    pub term: u64,
    pub index: u64,
}

/// `a` precedes or equals `b` in the lexicographic order on `(term, index)`.
pub open spec fn log_id_le(a: LogId, b: LogId) -> bool {
    a.term < b.term || (a.term == b.term && a.index <= b.index)
}

/// Ordering on optional log ids: absence is the minimum element.
pub open spec fn opt_log_id_le(a: Option<LogId>, b: Option<LogId>) -> bool {
    match (a, b) {
        (None, _) => true,
        (Some(_), None) => false,
        (Some(x), Some(y)) => log_id_le(x, y),
    }
}

/// The greater of two optional log ids, absence being the minimum.
pub open spec fn opt_log_id_max(a: Option<LogId>, b: Option<LogId>) -> Option<LogId> {
    if opt_log_id_le(a, b) {
        b
    } else {
        a
    }
}

/// The lesser of two optional log ids, absence being the minimum.
pub open spec fn opt_log_id_min(a: Option<LogId>, b: Option<LogId>) -> Option<LogId> {
    if opt_log_id_le(a, b) {
        a
    } else {
        b
    }
}

/// Compares two log ids lexicographically by `(term, index)`.
pub fn log_id_le_exec(a: &LogId, b: &LogId) -> (r: bool)
    ensures
        r == log_id_le(*a, *b),
{
    a.term < b.term || (a.term == b.term && a.index <= b.index)
}

/// The greater of two optional log ids, absence being the minimum.
pub fn opt_log_id_max_exec(a: Option<LogId>, b: Option<LogId>) -> (r: Option<LogId>)
    ensures
        r == opt_log_id_max(a, b),
{
    match (a, b) {
        (None, y) => y,
        (Some(x), None) => Some(x),
        (Some(x), Some(y)) => {
            if log_id_le_exec(&x, &y) {
                Some(y)
            } else {
                Some(x)
            }
        },
    }
}

/// The lesser of two optional log ids, absence being the minimum.
pub fn opt_log_id_min_exec(a: Option<LogId>, b: Option<LogId>) -> (r: Option<LogId>)
    ensures
        r == opt_log_id_min(a, b),
{
    match (a, b) {
        (None, _) => None,
        (Some(x), None) => None,
        (Some(x), Some(y)) => {
            if log_id_le_exec(&x, &y) {
                Some(x)
            } else {
                Some(y)
            }
        },
    }
}

/// The durable vote/term record required for election safety across restarts.
#[derive(Clone, Copy, Debug, PartialEq, Eq, Structural)]
pub struct HardState {
    /// The last term observed by this node.
    pub current_term: u64,
    /// The node voted for in `current_term`, if any.
    pub voted_for: Option<NodeId>,
}

impl Default for HardState {
    /// The zeroed record a node starts from before any vote was ever cast.
    fn default() -> (r: Self)
        ensures
            r == (HardState { current_term: 0, voted_for: None }),
    {
        HardState { current_term: 0, voted_for: None }
    }
}

/// The set of nodes considered part of the cluster at some log position.
/// Owned by the cluster-membership subsystem; this layer only carries it.
#[derive(Debug, PartialEq, Eq)]
pub struct MembershipConfig {
    pub members: Vec<NodeId>,
}

impl View for MembershipConfig {
    type V = Seq<NodeId>;

    open spec fn view(&self) -> Seq<NodeId> {
        self.members@
    }
}

impl Clone for MembershipConfig {
    fn clone(&self) -> (r: Self)
        ensures
            r@ == self@,
    {
        let members = self.members.clone();
        proof {
            assert(members@ =~= self.members@);
        }
        MembershipConfig { members }
    }
}

/// Mathematical model of an [`EffectiveMembership`].
pub ghost struct EffectiveMembershipModel {
    pub log_id: LogId,
    pub membership: Seq<NodeId>,
}

/// A membership configuration paired with the log position at which it took
/// effect. Only one is current per node at any instant.
#[derive(Debug, PartialEq, Eq)]
pub struct EffectiveMembership {
    /// The log id of the entry that carried this configuration.
    pub log_id: LogId,
    /// The configuration itself.
    pub membership: MembershipConfig,
}

impl View for EffectiveMembership {
    type V = EffectiveMembershipModel;

    open spec fn view(&self) -> EffectiveMembershipModel {
        EffectiveMembershipModel { log_id: self.log_id, membership: self.membership@ }
    }
}

impl Clone for EffectiveMembership {
    fn clone(&self) -> (r: Self)
        ensures
            r@ == self@,
    {
        EffectiveMembership { log_id: self.log_id, membership: self.membership.clone() }
    }
}

/// The model of an optional effective membership, for stating contracts.
pub open spec fn opt_membership_view(o: Option<EffectiveMembership>) -> Option<
    EffectiveMembershipModel,
> {
    match o {
        None => None,
        Some(m) => Some(m@),
    }
}

/// Disambiguates snapshots that carry the same `last_log_id` but different
/// bytes, e.g. one rebuilt after a failed transfer.
pub type SnapshotId = String;

/// Metadata of a snapshot: the last log entry reflected in its content
/// (inclusive) and an identifier for transfers.
#[derive(Debug, PartialEq, Eq)]
pub struct SnapshotMeta {
    pub last_log_id: LogId,
    pub snapshot_id: SnapshotId,
}

impl Clone for SnapshotMeta {
    fn clone(&self) -> (r: Self)
        ensures
            r == *self,
    {
        SnapshotMeta { last_log_id: self.last_log_id, snapshot_id: self.snapshot_id.clone() }
    }
}

/// A snapshot's metadata paired with a handle over its content. The handle is
/// exclusively owned by the caller once returned; the store must not reuse it.
#[derive(Debug)]
pub struct Snapshot<S> {
    pub meta: SnapshotMeta,
    pub snapshot: Box<S>,
}

/// What a node needs to know when first starting: derived at startup from the
/// log, the state machine and the hard state; never itself persisted.
#[derive(Debug, PartialEq, Eq)]
pub struct InitialState {
    /// `max(last_applied, last id in log)`: a snapshot install can leave the
    /// state machine ahead of the local log tail.
    pub last_log_id: Option<LogId>,
    /// The last log applied to the state machine.
    pub last_applied: Option<LogId>,
    /// The saved hard state, zeroed if never written.
    pub hard_state: HardState,
    /// The latest membership found in log or state machine.
    pub last_membership: Option<EffectiveMembership>,
}

/// Mathematical model of an [`InitialState`].
pub ghost struct InitialStateModel {
    pub last_log_id: Option<LogId>,
    pub last_applied: Option<LogId>,
    pub hard_state: HardState,
    pub last_membership: Option<EffectiveMembershipModel>,
}

impl View for InitialState {
    type V = InitialStateModel;

    open spec fn view(&self) -> InitialStateModel {
        InitialStateModel {
            last_log_id: self.last_log_id,
            last_applied: self.last_applied,
            hard_state: self.hard_state,
            last_membership: opt_membership_view(self.last_membership),
        }
    }
}

/// What `finalize_snapshot_installation` changed in the state machine, so the
/// caller can react (for example, update cluster routing).
#[derive(Clone, Copy, Debug, PartialEq, Eq, Structural)]
pub struct StateMachineChanges {
    /// The applied position the state machine was advanced to.
    pub last_applied: Option<LogId>,
    /// Whether the change came from installing a snapshot.
    pub is_snapshot: bool,
}

/// The payload of a log entry.
#[derive(Debug, PartialEq, Eq)]
pub enum EntryPayload<D> {
    /// An empty entry, written when a leader takes office.
    Blank,
    /// Application data, opaque to this layer.
    Normal(D),
    /// A membership change.
    Membership(MembershipConfig),
}

/// A log entry: its position and its payload.
#[derive(Debug, PartialEq, Eq)]
pub struct Entry<D> {
    pub log_id: LogId,
    pub payload: EntryPayload<D>,
}

/// Mathematical model of an entry's payload.
pub ghost enum PayloadModel<D> {
    Blank,
    Normal(D),
    Membership(Seq<NodeId>),
}

/// Mathematical model of a log entry.
pub ghost struct EntryModel<D> {
    pub log_id: LogId,
    pub payload: PayloadModel<D>,
}

impl<D> View for Entry<D> {
    type V = EntryModel<D>;

    open spec fn view(&self) -> EntryModel<D> {
        EntryModel {
            log_id: self.log_id,
            payload: match self.payload {
                EntryPayload::Blank => PayloadModel::Blank,
                EntryPayload::Normal(d) => PayloadModel::Normal(d),
                EntryPayload::Membership(m) => PayloadModel::Membership(m@),
            },
        }
    }
}

/// Whether an entry model carries a membership change.
pub open spec fn is_membership_entry<D>(e: EntryModel<D>) -> bool {
    e.payload is Membership
}

/// The effective membership an entry model carries, if any.
pub open spec fn entry_membership<D>(e: EntryModel<D>) -> Option<EffectiveMembershipModel> {
    match e.payload {
        PayloadModel::Membership(m) => Some(
            EffectiveMembershipModel { log_id: e.log_id, membership: m },
        ),
        _ => None,
    }
}

} // verus!
