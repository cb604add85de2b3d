//! The state machine side of the Raft storage: applying committed entries,
//! and building and installing snapshots.
use vstd::prelude::*;
use vstd::string::*;

use crate::duplicate::Duplicate;
#[allow(unused_imports)]
use crate::meta::clock::HeartbeatInstant;
use crate::meta::log_store::{EntryPayload, LogId, Membership, MetaEntry, MetaLogStore};
#[allow(unused_imports)]
use crate::meta::log_store::{no_members, EntryModel, LogModel, MembershipModel, PayloadModel};
#[allow(unused_imports)]
use crate::meta::model::{empty_cluster, heartbeats_after, step, MetaModel};
use crate::meta::state_machine::{MetaSnapshot, MetaStateMachine};
#[allow(unused_imports)]
use crate::meta::state_machine::{restored, snapshot_of};
use crate::meta::types::MetaResponse;
#[allow(unused_imports)]
use crate::meta::types::{CommandModel, NodeId, Reply};
#[allow(unused_imports)]
use crate::text::decimal;
use crate::text::push_decimal;

verus! {

broadcast use vstd::string::group_string_axioms;

/// A membership with the entry that set it.
#[derive(Debug)]
pub struct StoredMembership {
    /// Entry that set the membership.
    pub log_id: Option<LogId>,
    /// The members.
    pub membership: Membership,
}

impl StoredMembership {
    /// The members and the entry that set them.
    pub open spec fn model(&self) -> (Option<LogId>, MembershipModel) {
        (self.log_id, self.membership.deep_view())
    }

    fn copy_of(&self) -> (r: StoredMembership)
        ensures
            r.model() == self.model(),
    {
        StoredMembership { log_id: self.log_id, membership: self.membership.duplicate() }
    }
}

/// What a snapshot is a snapshot of.
#[derive(Debug)]
pub struct SnapshotMeta {
    /// Last entry that the snapshot covers.
    pub last_log_id: Option<LogId>,
    /// Membership at that entry.
    pub last_membership: StoredMembership,
    /// Name of the snapshot.
    pub snapshot_id: String,
}

impl SnapshotMeta {
    fn copy_of(&self) -> (r: SnapshotMeta)
        ensures
            r.last_log_id == self.last_log_id,
            r.last_membership.model() == self.last_membership.model(),
            r.snapshot_id@ == self.snapshot_id@,
    {
        SnapshotMeta {
            last_log_id: self.last_log_id,
            last_membership: self.last_membership.copy_of(),
            snapshot_id: self.snapshot_id.clone(),
        }
    }
}

/// A snapshot as it is kept: encoded.
#[derive(Debug)]
pub struct StoredSnapshot {
    /// What it is a snapshot of.
    pub meta: SnapshotMeta,
    /// Encoded state.
    pub data: Vec<u8>,
}

/// The name of the `count`-th snapshot, taken behind the given entry.
pub open spec fn snapshot_name(last: Option<LogId>, count: u64) -> Seq<char> {
    match last {
        Some(id) => "T"@ + decimal(id.term as nat) + "-N"@ + decimal(id.node_id as nat) + "-"@
            + decimal(id.index as nat) + "-"@ + decimal(count as nat),
        None => "--"@ + decimal(count as nat),
    }
}

/// Write the name of a snapshot.
pub fn snapshot_name_text(last: Option<LogId>, count: u64) -> (r: String)
    ensures
        r@ == snapshot_name(last, count),
{
    match last {
        Some(id) => {
            let mut out = "T".to_owned();
            push_decimal(&mut out, id.term as u128);
            out.append("-N");
            push_decimal(&mut out, id.node_id as u128);
            out.append("-");
            push_decimal(&mut out, id.index as u128);
            out.append("-");
            push_decimal(&mut out, count as u128);
            out
        },
        None => {
            let mut out = "--".to_owned();
            push_decimal(&mut out, count as u128);
            out
        },
    }
}

/// The replicated part of a state machine, and how far it has come.
#[verifier::ext_equal]
pub struct Replica {
    pub state: MetaModel,
    pub applied: u64,
    pub heartbeats: Map<NodeId, (u64, u64)>,
    pub last_applied_log: Option<LogId>,
    pub last_membership: (Option<LogId>, MembershipModel),
}

/// A replica to which nothing was applied yet.
pub open spec fn new_replica() -> Replica {
    Replica {
        state: empty_cluster(),
        applied: 0,
        heartbeats: Map::<NodeId, (u64, u64)>::empty(),
        last_applied_log: None,
        last_membership: (None, no_members()),
    }
}

/// A replica after a command at the given index. One that was applied already
/// is skipped.
pub open spec fn after_command(r: Replica, index: u64, command: CommandModel) -> (Replica, Reply) {
    if index <= r.applied {
        (r, Reply::Done)
    } else {
        let (state, reply) = step(r.state, command);
        (
            Replica {
                state,
                applied: index,
                heartbeats: heartbeats_after(r.heartbeats, command),
                ..r
            },
            reply,
        )
    }
}

/// A replica after a log entry, and the reply to it.
pub open spec fn after_entry(r: Replica, entry: EntryModel) -> (Replica, Reply) {
    let (changed, reply) = match entry.payload {
        PayloadModel::Blank => (r, Reply::Done),
        PayloadModel::Normal(command) => after_command(r, entry.log_id.index, command),
        PayloadModel::Membership(members) => (
            Replica { last_membership: (Some(entry.log_id), members), ..r },
            Reply::Done,
        ),
    };
    (Replica { last_applied_log: Some(entry.log_id), ..changed }, reply)
}

/// A replica after log entries.
pub open spec fn after_entries(r: Replica, entries: Seq<EntryModel>) -> Replica
    decreases entries.len(),
{
    if entries.len() == 0 {
        r
    } else {
        after_entry(after_entries(r, entries.drop_last()), entries.last()).0
    }
}

/// Raft state machine store.
#[derive(Debug)]
pub struct MetaSmStore {
    sm: MetaStateMachine,
    last_applied_log: Option<LogId>,
    last_membership: StoredMembership,
    snapshot_idx: u64,
    current_snapshot: Option<StoredSnapshot>,
}

impl View for MetaSmStore {
    type V = Replica;

    closed spec fn view(&self) -> Replica {
        Replica {
            state: self.sm@,
            applied: self.sm.applied(),
            heartbeats: self.sm.heartbeats(),
            last_applied_log: self.last_applied_log,
            last_membership: self.last_membership.model(),
        }
    }
}

impl MetaSmStore {
    /// The state machine.
    pub closed spec fn machine(&self) -> MetaStateMachine {
        self.sm
    }

    /// Number of snapshots named so far.
    pub closed spec fn snapshot_count(&self) -> u64 {
        self.snapshot_idx
    }

    /// The snapshot that is kept.
    pub closed spec fn kept(&self) -> Option<StoredSnapshot> {
        self.current_snapshot
    }

    /// Create a new state machine store.
    pub fn new() -> (r: Self)
        ensures
            r@ == new_replica(),
            r.snapshot_count() == 0,
            r.kept() is None,
            r.machine().instants() == Map::<NodeId, HeartbeatInstant>::empty(),
            r.machine().routes().version_number() == 0,
            r.machine().routes_are_current(),
    {
        MetaSmStore {
            sm: MetaStateMachine::new(),
            last_applied_log: None,
            last_membership: StoredMembership { log_id: None, membership: Membership::none() },
            snapshot_idx: 0,
            current_snapshot: None,
        }
    }

    /// Access the state machine.
    pub fn state_machine(&self) -> (r: &MetaStateMachine)
        ensures
            *r == self.machine(),
            r@ == self@.state,
            r.applied() == self@.applied,
            r.heartbeats() == self@.heartbeats,
    {
        &self.sm
    }

    /// The last applied entry and the membership.
    pub fn applied_state(&self) -> (r: (Option<LogId>, StoredMembership))
        ensures
            r.0 == self@.last_applied_log,
            r.1.model() == self@.last_membership,
    {
        (self.last_applied_log, self.last_membership.copy_of())
    }

    /// Apply committed entries in order, with one reply to each.
    pub fn apply(&mut self, entries: &Vec<MetaEntry>) -> (r: Vec<MetaResponse>)
        ensures
            final(self)@ == after_entries(old(self)@, entries.deep_view()),
            r@.len() == entries@.len(),
            forall|i: int|
                0 <= i < entries@.len() ==> (#[trigger] r@[i])@ == after_entry(
                    after_entries(old(self)@, entries.deep_view().take(i)),
                    entries.deep_view()[i],
                ).1,
            final(self).snapshot_count() == old(self).snapshot_count(),
            final(self).kept() == old(self).kept(),
            old(self).machine().routes_are_current()
                ==> final(self).machine().routes_are_current(),
    {
        let ghost model = entries.deep_view();
        let mut replies: Vec<MetaResponse> = Vec::new();
        let mut i: usize = 0;
        assert(model.take(0) =~= Seq::empty());
        while i < entries.len()
            invariant
                i <= entries.len(),
                model == entries.deep_view(),
                self@ == after_entries(old(self)@, model.take(i as int)),
                replies.len() == i,
                forall|j: int|
                    0 <= j < i ==> (#[trigger] replies@[j])@ == after_entry(
                        after_entries(old(self)@, model.take(j)),
                        model[j],
                    ).1,
                self.snapshot_count() == old(self).snapshot_count(),
                self.kept() == old(self).kept(),
                old(self).machine().routes_are_current() ==> self.machine().routes_are_current(),
            decreases entries.len() - i,
        {
            let entry = &entries[i];
            assert(model.take(i + 1).drop_last() =~= model.take(i as int));
            assert(model[i as int] == entry.deep_view());
            let log_id: LogId = entry.log_id;
            let reply = match &entry.payload {
                EntryPayload::Blank => MetaResponse::Done,
                EntryPayload::Normal(command) => self.sm.apply(log_id.index, command),
                EntryPayload::Membership(members) => {
                    self.last_membership = StoredMembership {
                        log_id: Some(log_id),
                        membership: members.duplicate(),
                    };
                    MetaResponse::Done
                },
            };
            replies.push(reply);
            self.last_applied_log = Some(log_id);
            i = i + 1;
        }
        assert(model.take(model.len() as int) =~= model);
        replies
    }

    /// Start a snapshot: what it holds, and what it is a snapshot of. The
    /// caller encodes it and hands the encoding to
    /// [`keep_snapshot`](Self::keep_snapshot).
    pub fn build_snapshot(&mut self) -> (r: (MetaSnapshot, SnapshotMeta))
        requires
            old(self).snapshot_count() < u64::MAX,
        ensures
            snapshot_of(old(self).machine(), r.0),
            r.1.last_log_id == old(self)@.last_applied_log,
            r.1.last_membership.model() == old(self)@.last_membership,
            r.1.snapshot_id@ == snapshot_name(
                old(self)@.last_applied_log,
                (old(self).snapshot_count() + 1) as u64,
            ),
            final(self)@ == old(self)@,
            final(self).machine() == old(self).machine(),
            final(self).snapshot_count() == old(self).snapshot_count() + 1,
            final(self).kept() == old(self).kept(),
    {
        let snapshot = self.sm.snapshot();
        self.snapshot_idx = self.snapshot_idx + 1;
        let meta = SnapshotMeta {
            last_log_id: self.last_applied_log,
            last_membership: self.last_membership.copy_of(),
            snapshot_id: snapshot_name_text(self.last_applied_log, self.snapshot_idx),
        };
        (snapshot, meta)
    }

    /// Keep an encoded snapshot as the current one.
    pub fn keep_snapshot(&mut self, meta: SnapshotMeta, data: Vec<u8>)
        ensures
            final(self)@ == old(self)@,
            final(self).machine() == old(self).machine(),
            final(self).snapshot_count() == old(self).snapshot_count(),
            final(self).kept() == Some(StoredSnapshot { meta, data }),
    {
        self.current_snapshot = Some(StoredSnapshot { meta, data });
    }

    /// Install a snapshot that was received: `snapshot` is what `data`
    /// encodes.
    pub fn install_snapshot(&mut self, meta: &SnapshotMeta, data: Vec<u8>, snapshot: MetaSnapshot)
        ensures
            exists|now_secs: u64| #[trigger]
                restored(old(self).machine(), snapshot, now_secs, final(self).machine()),
            final(self)@.state == snapshot.model(),
            final(self)@.applied == snapshot.last_applied_log,
            final(self)@.last_applied_log == meta.last_log_id,
            final(self)@.last_membership == meta.last_membership.model(),
            final(self).snapshot_count() == old(self).snapshot_count(),
            final(self).kept() matches Some(stored) && {
                &&& stored.data == data
                &&& stored.meta.last_log_id == meta.last_log_id
                &&& stored.meta.last_membership.model() == meta.last_membership.model()
                &&& stored.meta.snapshot_id@ == meta.snapshot_id@
            },
    {
        self.sm.restore(snapshot);
        let ghost now_secs = choose|now_secs: u64| #[trigger]
            restored(old(self).sm, snapshot, now_secs, self.sm);
        assert(restored(old(self).machine(), snapshot, now_secs, self.machine()));
        self.last_applied_log = meta.last_log_id;
        self.last_membership = meta.last_membership.copy_of();
        self.current_snapshot = Some(StoredSnapshot { meta: meta.copy_of(), data });
        assert(restored(old(self).machine(), snapshot, now_secs, self.machine()));
    }

    /// The snapshot that is kept, if there is one.
    pub fn get_current_snapshot(&self) -> (r: Option<&StoredSnapshot>)
        ensures
            r is Some <==> self.kept() is Some,
            r matches Some(stored) ==> *stored == self.kept()->0,
    {
        self.current_snapshot.as_ref()
    }

    /// Record a heartbeat outside Raft consensus. Returns whether the node is
    /// registered.
    pub fn record_heartbeat(&mut self, node_id: NodeId, generation: u64) -> (r: bool)
        ensures
            r == old(self)@.state.nodes.contains_key(node_id),
            final(self)@.heartbeats.contains_key(node_id),
            final(self)@.heartbeats[node_id].0 == generation,
            final(self)@ == (Replica {
                heartbeats: old(self)@.heartbeats.insert(
                    node_id,
                    (generation, final(self)@.heartbeats[node_id].1),
                ),
                ..old(self)@
            }),
            final(self).snapshot_count() == old(self).snapshot_count(),
            final(self).kept() == old(self).kept(),
    {
        self.sm.record_heartbeat(node_id, generation)
    }
}

impl Default for MetaSmStore {
    fn default() -> (r: Self)
        ensures
            r@ == new_replica(),
            r.snapshot_count() == 0,
            r.kept() is None,
            r.machine().instants() == Map::<NodeId, HeartbeatInstant>::empty(),
            r.machine().routes().version_number() == 0,
            r.machine().routes_are_current(),
    {
        MetaSmStore::new()
    }
}

/// The metadata store: log store and state machine store.
#[derive(Debug)]
pub struct MetaStore {
    log_store: MetaLogStore,
    sm_store: MetaSmStore,
}

impl MetaStore {
    /// The log.
    pub closed spec fn log(&self) -> LogModel {
        self.log_store@
    }

    /// The replica.
    pub closed spec fn replica(&self) -> Replica {
        self.sm_store@
    }

    /// Create a store that lives in memory.
    pub fn new_in_memory() -> (r: Self)
        ensures
            r.replica() == new_replica(),
            r.log() == (LogModel {
                last_purged: None,
                log: Map::<u64, EntryModel>::empty(),
                committed: None,
                vote: None,
            }),
    {
        MetaStore { log_store: MetaLogStore::new(), sm_store: MetaSmStore::new() }
    }

    /// Access the state machine.
    pub fn state_machine(&self) -> (r: &MetaStateMachine)
        ensures
            r@ == self.replica().state,
            r.applied() == self.replica().applied,
            r.heartbeats() == self.replica().heartbeats,
    {
        self.sm_store.state_machine()
    }

    /// Access the log store.
    pub fn log_store(&self) -> (r: &MetaLogStore)
        ensures
            r@ == self.log(),
    {
        &self.log_store
    }

    /// Access the state machine store.
    pub fn sm_store(&self) -> (r: &MetaSmStore)
        ensures
            r@ == self.replica(),
    {
        &self.sm_store
    }
}

impl Default for MetaStore {
    fn default() -> (r: Self)
        ensures
            r.replica() == new_replica(),
            r.log() == (LogModel {
                last_purged: None,
                log: Map::<u64, EntryModel>::empty(),
                committed: None,
                vote: None,
            }),
    {
        MetaStore::new_in_memory()
    }
}

// ---------------------------------------------------------------------------
// Convergence
// ---------------------------------------------------------------------------

/// Applying a log in two parts is applying it whole: it does not matter where
/// a batch ends.
pub proof fn batches_do_not_matter(r: Replica, a: Seq<EntryModel>, b: Seq<EntryModel>)
    ensures
        after_entries(after_entries(r, a), b) == after_entries(r, a + b),
    decreases b.len(),
{
    if b.len() == 0 {
        assert(a + b =~= a);
    } else {
        batches_do_not_matter(r, a, b.drop_last());
        assert((a + b).drop_last() =~= a + b.drop_last());
        assert((a + b).last() == b.last());
    }
}

/// The commands among the entries are at or below `index`.
pub open spec fn commands_up_to(entries: Seq<EntryModel>, index: u64) -> bool {
    forall|i: int|
        0 <= i < entries.len() && (#[trigger] entries[i]).payload is Normal
            ==> entries[i].log_id.index <= index
}

/// Delivering entries again that were applied already changes neither the
/// metadata nor the heartbeats.
pub proof fn redelivery_changes_nothing(r: Replica, entries: Seq<EntryModel>)
    requires
        commands_up_to(entries, r.applied),
    ensures
        after_entries(r, entries).state == r.state,
        after_entries(r, entries).heartbeats == r.heartbeats,
        after_entries(r, entries).applied == r.applied,
    decreases entries.len(),
{
    if entries.len() > 0 {
        let init = entries.drop_last();
        assert(commands_up_to(init, r.applied)) by {
            assert forall|i: int| 0 <= i < init.len() && (#[trigger] init[i]).payload is Normal implies
                init[i].log_id.index <= r.applied by {
                assert(init[i] == entries[i]);
            }
        }
        redelivery_changes_nothing(r, init);
        assert(entries[entries.len() - 1] == entries.last());
    }
}

/// The index of the last applied command never goes back.
pub proof fn the_applied_index_never_goes_back(r: Replica, entries: Seq<EntryModel>)
    ensures
        r.applied <= after_entries(r, entries).applied,
        commands_up_to(entries, after_entries(r, entries).applied),
    decreases entries.len(),
{
    if entries.len() > 0 {
        let init = entries.drop_last();
        the_applied_index_never_goes_back(r, init);
        let applied = after_entries(r, entries).applied;
        assert forall|i: int| 0 <= i < entries.len() && (#[trigger] entries[i]).payload is Normal implies
            entries[i].log_id.index <= applied by {
            if i < init.len() {
                assert(init[i] == entries[i]);
            }
        }
    }
}

/// Replicas that start alike and see the same log, one of them twice, agree.
pub proof fn replicas_converge(r: Replica, log: Seq<EntryModel>)
    ensures
        after_entries(after_entries(r, log), log).state == after_entries(r, log).state,
        after_entries(after_entries(r, log), log).heartbeats == after_entries(r, log).heartbeats,
{
    the_applied_index_never_goes_back(r, log);
    redelivery_changes_nothing(after_entries(r, log), log);
}

} // verus!
