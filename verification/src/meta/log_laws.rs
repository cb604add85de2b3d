//! What the log holds after it was written, cut and read.
use vstd::prelude::*;

#[allow(unused_imports)]
use crate::meta::log_store::{
    backward_purge_message, entries_between, log_before, log_behind, log_with, purges_backward,
    EntryModel, LogId,
};
#[allow(unused_imports)]
use crate::sorted_map::{ascending, lemma_map_of_ascending, map_of};
#[allow(unused_imports)]
use crate::text::decimal;

verus! {

/// Appending writes each entry at its own index, a later one over an earlier,
/// and leaves what is at other indices.
pub proof fn appending_writes_entries_at_their_indices(
    log: Map<u64, EntryModel>,
    entries: Seq<EntryModel>,
    index: u64,
)
    ensures
        ({
            let after = log_with(log, entries);
            let written = entries.filter(|e: EntryModel| e.log_id.index == index);
            &&& written.len() > 0 ==> after.contains_key(index) && after[index] == written.last()
            &&& written.len() == 0 ==> (after.contains_key(index) <==> log.contains_key(index))
            &&& written.len() == 0 && log.contains_key(index) ==> after[index] == log[index]
        }),
    decreases entries.len(),
{
    reveal(Seq::filter);
    if entries.len() > 0 {
        appending_writes_entries_at_their_indices(log, entries.drop_last(), index);
    }
}

/// Truncating removes the entries at the given index and behind it, and no
/// others.
pub proof fn truncating_removes_from_the_index_on(
    log: Map<u64, EntryModel>,
    cut: u64,
    index: u64,
)
    ensures
        log_before(log, cut).contains_key(index) <==> log.contains_key(index) && index < cut,
        log.contains_key(index) && index < cut ==> log_before(log, cut)[index] == log[index],
{
}

/// Purging removes the entries up to the given index, that one among them, and
/// no others.
pub proof fn purging_removes_up_to_the_index(log: Map<u64, EntryModel>, cut: u64, index: u64)
    ensures
        log_behind(log, cut).contains_key(index) <==> log.contains_key(index) && index > cut,
        log.contains_key(index) && index > cut ==> log_behind(log, cut)[index] == log[index],
{
}

/// Reading gives the entries from the first index on and before the second, in
/// the order of their indices.
pub proof fn reading_gives_the_entries_between(
    pairs: Seq<(u64, EntryModel)>,
    from: u64,
    to: Option<u64>,
)
    ensures
        entries_between(pairs, from, to) == pairs.filter(
            |p: (u64, EntryModel)| p.0 >= from && (to is None || p.0 < to.unwrap()),
        ).map_values(|p: (u64, EntryModel)| p.1),
    decreases pairs.len(),
{
    reveal(Seq::filter);
    let asked = |p: (u64, EntryModel)| p.0 >= from && (to is None || p.0 < to.unwrap());
    let entry = |p: (u64, EntryModel)| p.1;
    if pairs.len() > 0 {
        let rest = pairs.drop_last();
        reading_gives_the_entries_between(rest, from, to);
        if asked(pairs.last()) {
            assert(rest.filter(asked).push(pairs.last()).map_values(entry) =~= rest.filter(
                asked,
            ).map_values(entry).push(entry(pairs.last())));
        }
    } else {
        assert(entries_between(pairs, from, to) =~= pairs.filter(asked).map_values(entry));
    }
}

/// The last of the entries in order is the one with the greatest index.
pub proof fn the_last_entry_has_the_greatest_index(
    log: Map<u64, EntryModel>,
    pairs: Seq<(u64, EntryModel)>,
    index: u64,
)
    requires
        ascending::<u64, EntryModel>(pairs),
        map_of(pairs) == log,
        log.contains_key(index),
    ensures
        pairs.len() > 0,
        log.contains_key(pairs.last().0),
        log[pairs.last().0] == pairs.last().1,
        index <= pairs.last().0,
{
    lemma_map_of_ascending::<u64, EntryModel>(pairs);
    let i = choose|i: int| 0 <= i < pairs.len() && (#[trigger] pairs[i]).0 == index;
    assert(pairs[i].0 == index);
    let n = pairs.len() - 1;
    assert(map_of(pairs).contains_key(pairs[n].0));
    assert(i < n ==> pairs[i].0 < pairs[n].0);
}

/// Log entries are ordered by the term, then by the leader, then by the index.
pub proof fn entries_are_ordered_by_term_leader_and_index(a: LogId, b: LogId)
    ensures
        a.precedes(b) || b.precedes(a) || (a.term == b.term && a.node_id == b.node_id && a.index
            == b.index),
        !(a.precedes(b) && b.precedes(a)),
        a.term < b.term ==> a.precedes(b),
        a.term == b.term && a.node_id < b.node_id ==> a.precedes(b),
        a.term == b.term && a.node_id == b.node_id && a.index < b.index ==> a.precedes(b),
{
}

/// A purge is refused just if a later one has happened; one that is repeated, or
/// the first, is not.
pub proof fn just_backward_purges_are_refused(last: LogId, log_id: LogId)
    ensures
        purges_backward(Some(last), log_id) <==> log_id.precedes(last),
        !purges_backward(Some(last), last),
        !purges_backward(None, log_id),
{
}

/// A backward purge is refused with the entry that was to be purged up to, and
/// then the one that was purged up to before.
pub proof fn a_backward_purge_names_both_entries(last: LogId, log_id: LogId)
    ensures
        backward_purge_message(last, log_id) == "purge log_id "@ + log_id.full_name()
            + " is older than last_purged Some("@ + last.full_name() + ")"@,
        log_id.full_name() == "LogId { leader_id: LeaderId { term: "@ + decimal(log_id.term as nat)
            + ", node_id: "@ + decimal(log_id.node_id as nat) + " }, index: "@ + decimal(
            log_id.index as nat,
        ) + " }"@,
{
}

} // verus!
