//! The Raft log of the metadata group: what an in-memory store holds, and the
//! rules that any store of it keeps.
use vstd::prelude::*;
use vstd::string::*;

use crate::duplicate::Duplicate;
use crate::meta::types::{MetaCommand, NodeId};
#[allow(unused_imports)]
use crate::meta::types::CommandModel;
use crate::sorted_map::SortedMap;
#[allow(unused_imports)]
use crate::sorted_map::{
    ascending, enumeration, lemma_map_of_ascending, lemma_map_of_step, map_of,
};
#[allow(unused_imports)]
use crate::text::decimal;
use crate::text::push_decimal;

verus! {

broadcast use vstd::string::group_string_axioms;

/// The identity of a log entry: the leader that proposed it, by term and node,
/// and its index.
#[derive(Debug, Clone, Copy, PartialEq, Eq, Structural)]
pub struct LogId {
    /// Term of the leader.
    pub term: u64,
    /// Node id of the leader.
    pub node_id: NodeId,
    /// Position in the log.
    pub index: u64,
}

impl LogId {
    /// This entry comes before `other`: by term, then by node, then by index.
    pub open spec fn precedes(self, other: LogId) -> bool {
        ||| self.term < other.term
        ||| self.term == other.term && self.node_id < other.node_id
        ||| self.term == other.term && self.node_id == other.node_id && self.index < other.index
    }

    /// Whether this entry comes before `other`.
    pub fn is_before(&self, other: &LogId) -> (r: bool)
        ensures
            r == self.precedes(*other),
    {
        if self.term != other.term {
            self.term < other.term
        } else if self.node_id != other.node_id {
            self.node_id < other.node_id
        } else {
            self.index < other.index
        }
    }

    /// The full form that error messages show.
    pub open spec fn full_name(self) -> Seq<char> {
        "LogId { leader_id: LeaderId { term: "@ + decimal(self.term as nat) + ", node_id: "@
            + decimal(self.node_id as nat) + " }, index: "@ + decimal(self.index as nat) + " }"@
    }

    fn push_full_name(&self, out: &mut String)
        ensures
            final(out)@ == old(out)@ + self.full_name(),
    {
        out.append("LogId { leader_id: LeaderId { term: ");
        push_decimal(out, self.term as u128);
        out.append(", node_id: ");
        push_decimal(out, self.node_id as u128);
        out.append(" }, index: ");
        push_decimal(out, self.index as u128);
        out.append(" }");
        assert(out@ =~= old(out)@ + self.full_name());
    }
}

/// A vote for a leader.
#[derive(Debug, Clone, Copy, PartialEq, Eq, Structural)]
pub struct Vote {
    /// Term that is voted for.
    pub term: u64,
    /// Node that is voted for.
    pub node_id: NodeId,
    /// Whether a quorum has granted it.
    pub committed: bool,
}

/// The voters of the group, as one or more configurations, and the addresses
/// of all its members.
#[derive(Debug)]
pub struct Membership {
    /// Voter sets; more than one while the group changes.
    pub configs: Vec<Vec<NodeId>>,
    /// Address by node.
    pub nodes: SortedMap<NodeId, String>,
}

/// What a [`Membership`] says, in mathematical terms.
#[verifier::ext_equal]
pub struct MembershipModel {
    pub configs: Seq<Seq<NodeId>>,
    pub nodes: Map<NodeId, Seq<char>>,
}

impl DeepView for Membership {
    type V = MembershipModel;

    open spec fn deep_view(&self) -> MembershipModel {
        MembershipModel { configs: self.configs.deep_view(), nodes: self.nodes@ }
    }
}

impl Duplicate for Membership {
    fn duplicate(&self) -> (r: Self) {
        Membership { configs: self.configs.duplicate(), nodes: self.nodes.duplicate() }
    }
}

/// The members of a group that has none yet.
pub open spec fn no_members() -> MembershipModel {
    MembershipModel {
        configs: Seq::<Seq<NodeId>>::empty(),
        nodes: Map::<NodeId, Seq<char>>::empty(),
    }
}

impl Membership {
    /// A membership without members.
    pub fn none() -> (r: Self)
        ensures
            r.deep_view() == no_members(),
    {
        let r = Membership { configs: Vec::new(), nodes: SortedMap::new() };
        assert(r.configs.deep_view() =~= Seq::<Seq<NodeId>>::empty());
        r
    }
}

/// What a log entry carries.
#[derive(Debug)]
pub enum EntryPayload {
    /// Nothing; a new leader starts with such an entry.
    Blank,
    /// A command for the state machine.
    Normal(MetaCommand),
    /// A change of the group's members.
    Membership(Membership),
}

/// A log entry.
#[derive(Debug)]
pub struct MetaEntry {
    /// Identity of the entry.
    pub log_id: LogId,
    /// What it carries.
    pub payload: EntryPayload,
}

/// What an [`EntryPayload`] says, in mathematical terms.
#[verifier::ext_equal]
pub enum PayloadModel {
    Blank,
    Normal(CommandModel),
    Membership(MembershipModel),
}

/// What a [`MetaEntry`] says, in mathematical terms.
#[verifier::ext_equal]
pub struct EntryModel {
    pub log_id: LogId,
    pub payload: PayloadModel,
}

impl DeepView for MetaEntry {
    type V = EntryModel;

    open spec fn deep_view(&self) -> EntryModel {
        EntryModel {
            log_id: self.log_id,
            payload: match self.payload {
                EntryPayload::Blank => PayloadModel::Blank,
                EntryPayload::Normal(command) => PayloadModel::Normal(command@),
                EntryPayload::Membership(members) => PayloadModel::Membership(members.deep_view()),
            },
        }
    }
}

impl Duplicate for MetaEntry {
    fn duplicate(&self) -> (r: Self) {
        MetaEntry {
            log_id: self.log_id,
            payload: match &self.payload {
                EntryPayload::Blank => EntryPayload::Blank,
                EntryPayload::Normal(command) => EntryPayload::Normal(command.clone()),
                EntryPayload::Membership(members) => EntryPayload::Membership(members.duplicate()),
            },
        }
    }
}

/// The ends of a log.
#[derive(Debug, Clone, Copy, PartialEq, Eq, Structural)]
pub struct LogState {
    /// Last entry that was purged.
    pub last_purged_log_id: Option<LogId>,
    /// Last entry of the log.
    pub last_log_id: Option<LogId>,
}

/// What a log store holds, in mathematical terms.
#[verifier::ext_equal]
pub struct LogModel {
    pub last_purged: Option<LogId>,
    pub log: Map<u64, EntryModel>,
    pub committed: Option<LogId>,
    pub vote: Option<Vote>,
}

/// The entries from index `from` up to, but not including, `to`; without a
/// `to` up to the end.
pub open spec fn entries_between(
    entries: Seq<(u64, EntryModel)>,
    from: u64,
    to: Option<u64>,
) -> Seq<EntryModel>
    decreases entries.len(),
{
    if entries.len() == 0 {
        Seq::<EntryModel>::empty()
    } else {
        let rest = entries_between(entries.drop_last(), from, to);
        if index_between(entries.last().0, from, to) {
            rest.push(entries.last().1)
        } else {
            rest
        }
    }
}

/// An entry whose index lies in the range is among the entries of the range.
proof fn lemma_is_between(
    entries: Seq<(u64, EntryModel)>,
    from: u64,
    to: Option<u64>,
    k: int,
)
    requires
        0 <= k < entries.len(),
        index_between(entries[k].0, from, to),
    ensures
        entries_between(entries, from, to).contains(entries[k].1),
    decreases entries.len(),
{
    let rest = entries_between(entries.drop_last(), from, to);
    let all = entries_between(entries, from, to);
    if k == entries.len() - 1 {
        assert(all[all.len() - 1] == entries[k].1);
    } else {
        lemma_is_between(entries.drop_last(), from, to, k);
        let i = choose|i: int| 0 <= i < rest.len() && rest[i] == entries[k].1;
        assert(all[i] == entries[k].1);
    }
}

/// The index lies in the range.
pub open spec fn index_between(index: u64, from: u64, to: Option<u64>) -> bool {
    from <= index && (to matches Some(end) ==> index < end)
}

/// The log after writing the entries one by one, each at its own index.
pub open spec fn log_with(log: Map<u64, EntryModel>, entries: Seq<EntryModel>) -> Map<
    u64,
    EntryModel,
>
    decreases entries.len(),
{
    if entries.len() == 0 {
        log
    } else {
        log_with(log, entries.drop_last()).insert(entries.last().log_id.index, entries.last())
    }
}

/// The part of the log before `index`.
pub open spec fn log_before(log: Map<u64, EntryModel>, index: u64) -> Map<u64, EntryModel> {
    log.restrict(Set::new(|k: u64| k < index))
}

/// The part of the log behind `index`.
pub open spec fn log_behind(log: Map<u64, EntryModel>, index: u64) -> Map<u64, EntryModel> {
    log.restrict(Set::new(|k: u64| k > index))
}

/// A purge up to `log_id` would go back behind one that has happened.
pub open spec fn purges_backward(last_purged: Option<LogId>, log_id: LogId) -> bool {
    last_purged matches Some(last) && log_id.precedes(last)
}

/// Whether a purge up to `log_id` would go back behind one that has happened.
pub fn is_backward_purge(last_purged: Option<LogId>, log_id: LogId) -> (r: bool)
    ensures
        r == purges_backward(last_purged, log_id),
{
    match last_purged {
        Some(last) => log_id.is_before(&last),
        None => false,
    }
}

/// The message with which a backward purge is refused.
pub open spec fn backward_purge_message(last_purged: LogId, log_id: LogId) -> Seq<char> {
    "purge log_id "@ + log_id.full_name() + " is older than last_purged Some("@
        + last_purged.full_name() + ")"@
}

/// The refusal of a purge.
#[derive(Debug)]
pub struct PurgeError {
    /// Why it was refused.
    pub message: String,
}

/// In-memory Raft log store.
#[derive(Debug)]
pub struct MetaLogStore {
    last_purged_log_id: Option<LogId>,
    log: SortedMap<u64, MetaEntry>,
    committed: Option<LogId>,
    vote: Option<Vote>,
}

impl View for MetaLogStore {
    type V = LogModel;

    closed spec fn view(&self) -> LogModel {
        LogModel {
            last_purged: self.last_purged_log_id,
            log: self.log@,
            committed: self.committed,
            vote: self.vote,
        }
    }
}

impl MetaLogStore {
    /// An empty store.
    pub fn new() -> (r: Self)
        ensures
            r@ == (LogModel {
                last_purged: None,
                log: Map::<u64, EntryModel>::empty(),
                committed: None,
                vote: None,
            }),
    {
        MetaLogStore {
            last_purged_log_id: None,
            log: SortedMap::new(),
            committed: None,
            vote: None,
        }
    }

    /// Read the entries from index `from` up to, but not including, `to`, in
    /// the order of their indices.
    pub fn try_get_log_entries(&self, from: u64, to: Option<u64>) -> (r: Vec<MetaEntry>)
        ensures
            r.deep_view() == entries_between(
                enumeration::<u64, EntryModel>(self@.log),
                from,
                to,
            ),
            ascending::<u64, EntryModel>(enumeration::<u64, EntryModel>(self@.log)),
            map_of(enumeration::<u64, EntryModel>(self@.log)) == self@.log,
            forall|index: u64| #[trigger]
                self@.log.contains_key(index) && index_between(index, from, to)
                    ==> r.deep_view().contains(self@.log[index]),
    {
        let count: usize = self.log.len();
        let ghost pairs = self.log.pairs();
        let mut out: Vec<MetaEntry> = Vec::new();
        let mut i: usize = 0;
        assert(out.deep_view() =~= entries_between(pairs.take(0), from, to));
        while i < count
            invariant
                i <= count,
                count == pairs.len(),
                pairs == self.log.pairs(),
                out.deep_view() == entries_between(pairs.take(i as int), from, to),
            decreases count - i,
        {
            let index: u64 = *self.log.key_at(i);
            let inside: bool = from <= index && match to {
                Some(end) => index < end,
                None => true,
            };
            let ghost before = out.deep_view();
            assert(pairs.take(i + 1).drop_last() =~= pairs.take(i as int));
            if inside {
                out.push(self.log.value_at(i).duplicate());
                assert(out.deep_view() =~= before.push(pairs[i as int].1));
            }
            i = i + 1;
        }
        assert(pairs.take(count as int) =~= pairs);
        proof {
            lemma_map_of_ascending::<u64, EntryModel>(pairs);
            assert forall|index: u64| #[trigger]
                self@.log.contains_key(index) && index_between(index, from, to)
                implies out.deep_view().contains(self@.log[index]) by {
                let k = choose|k: int| 0 <= k < pairs.len() && (#[trigger] pairs[k]).0 == index;
                lemma_is_between(pairs, from, to, k);
            }
        }
        out
    }

    /// The ends of the log. An empty log ends where it was purged.
    pub fn get_log_state(&self) -> (r: LogState)
        ensures
            r.last_purged_log_id == self@.last_purged,
            ({
                let pairs = enumeration::<u64, EntryModel>(self@.log);
                r.last_log_id == if pairs.len() > 0 {
                    Some(pairs.last().1.log_id)
                } else {
                    self@.last_purged
                }
            }),
            ascending::<u64, EntryModel>(enumeration::<u64, EntryModel>(self@.log)),
            map_of(enumeration::<u64, EntryModel>(self@.log)) == self@.log,
    {
        let count: usize = self.log.len();
        let last_log_id: Option<LogId> = if count > 0 {
            Some(self.log.value_at(count - 1).log_id)
        } else {
            self.last_purged_log_id
        };
        LogState { last_purged_log_id: self.last_purged_log_id, last_log_id }
    }

    /// Save a vote.
    pub fn save_vote(&mut self, vote: &Vote)
        ensures
            final(self)@ == (LogModel { vote: Some(*vote), ..old(self)@ }),
    {
        self.vote = Some(*vote);
    }

    /// The saved vote.
    pub fn read_vote(&self) -> (r: Option<Vote>)
        ensures
            r == self@.vote,
    {
        self.vote
    }

    /// Write entries to the log, each at its own index.
    pub fn append(&mut self, entries: &Vec<MetaEntry>)
        ensures
            final(self)@ == (LogModel {
                log: log_with(old(self)@.log, entries.deep_view()),
                ..old(self)@
            }),
    {
        let ghost model = entries.deep_view();
        let mut i: usize = 0;
        assert(model.take(0) =~= Seq::empty());
        while i < entries.len()
            invariant
                i <= entries.len(),
                model == entries.deep_view(),
                self@ == (LogModel {
                    log: log_with(old(self)@.log, model.take(i as int)),
                    ..old(self)@
                }),
            decreases entries.len() - i,
        {
            assert(model.take(i + 1).drop_last() =~= model.take(i as int));
            assert(model[i as int] == entries@[i as int].deep_view());
            self.log.insert(entries[i].log_id.index, entries[i].duplicate());
            i = i + 1;
        }
        assert(model.take(model.len() as int) =~= model);
    }

    /// Remove the entries at and behind the given one.
    pub fn truncate(&mut self, log_id: LogId)
        ensures
            final(self)@ == (LogModel {
                log: log_before(old(self)@.log, log_id.index),
                ..old(self)@
            }),
    {
        let count: usize = self.log.len();
        let ghost pairs = self.log.pairs();
        let mut kept: SortedMap<u64, MetaEntry> = SortedMap::new();
        let mut i: usize = 0;
        proof {
            assert(map_of(pairs.take(0)) =~= Map::<u64, EntryModel>::empty());
            assert(kept@ =~= log_before(map_of(pairs.take(0)), log_id.index));
        }
        while i < count
            invariant
                i <= count,
                count == pairs.len(),
                pairs == self.log.pairs(),
                ascending::<u64, EntryModel>(pairs),
                kept@ == log_before(map_of(pairs.take(i as int)), log_id.index),
            decreases count - i,
        {
            let index: u64 = *self.log.key_at(i);
            proof {
                lemma_map_of_step::<u64, EntryModel>(pairs, i as int);
            }
            if index < log_id.index {
                kept.insert(index, self.log.value_at(i).duplicate());
            }
            assert(kept@ =~= log_before(map_of(pairs.take(i + 1)), log_id.index));
            i = i + 1;
        }
        assert(pairs.take(count as int) =~= pairs);
        self.log = kept;
    }

    /// Remove the entries up to and including the given one. A purge that
    /// goes back behind an earlier one is refused.
    pub fn purge(&mut self, log_id: LogId) -> (r: Result<(), PurgeError>)
        ensures
            purges_backward(old(self)@.last_purged, log_id) ==> {
                &&& r matches Err(error)
                &&& error.message@ == backward_purge_message(
                    old(self)@.last_purged->0,
                    log_id,
                )
                &&& final(self)@ == old(self)@
            },
            !purges_backward(old(self)@.last_purged, log_id) ==> {
                &&& r is Ok
                &&& final(self)@ == (LogModel {
                    last_purged: Some(log_id),
                    log: log_behind(old(self)@.log, log_id.index),
                    ..old(self)@
                })
            },
    {
        if let Some(last) = self.last_purged_log_id {
            if log_id.is_before(&last) {
                let mut message = "purge log_id ".to_owned();
                log_id.push_full_name(&mut message);
                message.append(" is older than last_purged Some(");
                last.push_full_name(&mut message);
                message.append(")");
                return Err(PurgeError { message });
            }
        }
        let count: usize = self.log.len();
        let ghost pairs = self.log.pairs();
        let mut kept: SortedMap<u64, MetaEntry> = SortedMap::new();
        let mut i: usize = 0;
        proof {
            assert(map_of(pairs.take(0)) =~= Map::<u64, EntryModel>::empty());
            assert(kept@ =~= log_behind(map_of(pairs.take(0)), log_id.index));
        }
        while i < count
            invariant
                i <= count,
                count == pairs.len(),
                pairs == self.log.pairs(),
                ascending::<u64, EntryModel>(pairs),
                kept@ == log_behind(map_of(pairs.take(i as int)), log_id.index),
            decreases count - i,
        {
            let index: u64 = *self.log.key_at(i);
            proof {
                lemma_map_of_step::<u64, EntryModel>(pairs, i as int);
            }
            if index > log_id.index {
                kept.insert(index, self.log.value_at(i).duplicate());
            }
            assert(kept@ =~= log_behind(map_of(pairs.take(i + 1)), log_id.index));
            i = i + 1;
        }
        assert(pairs.take(count as int) =~= pairs);
        self.last_purged_log_id = Some(log_id);
        self.log = kept;
        Ok(())
    }

    /// Save how far the log is committed.
    pub fn save_committed(&mut self, committed: Option<LogId>)
        ensures
            final(self)@ == (LogModel { committed, ..old(self)@ }),
    {
        self.committed = committed;
    }

    /// How far the log is committed.
    pub fn read_committed(&self) -> (r: Option<LogId>)
        ensures
            r == self@.committed,
    {
        self.committed
    }
}

/// An appended entry is read back at its index, and a later entry at the same
/// index replaces it.
pub proof fn an_appended_entry_is_read_back(
    log: Map<u64, EntryModel>,
    entries: Seq<EntryModel>,
    last: EntryModel,
)
    ensures
        log_with(log, entries.push(last)).contains_key(last.log_id.index),
        log_with(log, entries.push(last))[last.log_id.index] == last,
{
    assert(entries.push(last).drop_last() =~= entries);
}

/// Truncating and then purging leave nothing outside the open range between
/// the two, and everything inside it untouched.
pub proof fn truncate_and_purge_bound_the_log(
    log: Map<u64, EntryModel>,
    upper: u64,
    lower: u64,
    index: u64,
)
    ensures
        ({
            let rest = log_behind(log_before(log, upper), lower);
            &&& rest.contains_key(index) <==> log.contains_key(index) && lower < index < upper
            &&& rest.contains_key(index) ==> rest[index] == log[index]
        }),
{
}

} // verus!
