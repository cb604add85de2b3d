//! What pruning keeps and what it may drop.
use vstd::prelude::*;

#[allow(unused_imports)]
use crate::query::encoded_pushdown::{group_verdict, ZoneMapResult};
#[allow(unused_imports)]
use crate::query::pruning::{
    bloom_drops, column_record, every_segment_is_accounted_for, is_all_null, is_answer, is_pruned,
    stats_exclude, survivors, CatalogColumnStats, PruningResult, SegmentCatalogEntry,
};
#[allow(unused_imports)]
use crate::query::series::SeriesKey;

verus! {

/// The `c`-th record is the first under this name.
pub open spec fn is_first_record(
    columns: Seq<CatalogColumnStats>,
    name: Seq<char>,
    c: int,
) -> bool {
    &&& 0 <= c < columns.len()
    &&& columns[c].name@ == name
    &&& forall|d: int| 0 <= d < c ==> (#[trigger] columns[d]).name@ != name
}

/// The segment's record of the column says that the column holds no value.
pub open spec fn holds_no_value(entry: &SegmentCatalogEntry, name: Seq<char>) -> bool {
    exists|c: int|
        {
            &&& #[trigger] is_first_record(entry.column_stats@, name, c)
            &&& entry.column_stats@[c].stats.value_count == 0
            &&& entry.column_stats@[c].stats.distinct_count == 0
        }
}

proof fn lemma_first_record(columns: Seq<CatalogColumnStats>, name: Seq<char>, from: int)
    requires
        0 <= from <= columns.len(),
        forall|d: int| 0 <= d < from ==> (#[trigger] columns[d]).name@ != name,
    ensures
        match column_record(columns, name, from) {
            Some(stats) => exists|c: int| #[trigger]
                is_first_record(columns, name, c) && columns[c].stats == stats,
            None => forall|c: int| !is_first_record(columns, name, c),
        },
    decreases columns.len() - from,
{
    if from < columns.len() {
        if columns[from].name@ == name {
            assert(is_first_record(columns, name, from) && columns[from].stats
                == columns[from].stats);
        } else {
            lemma_first_record(columns, name, from + 1);
        }
    }
}

proof fn lemma_one_first_record(columns: Seq<CatalogColumnStats>, name: Seq<char>, a: int, b: int)
    requires
        is_first_record(columns, name, a),
        is_first_record(columns, name, b),
    ensures
        a == b,
{
}

proof fn lemma_holds_no_value(entry: &SegmentCatalogEntry, name: Seq<char>)
    ensures
        holds_no_value(entry, name) == is_all_null(entry, name),
{
    let columns = entry.column_stats@;
    lemma_first_record(columns, name, 0);
    if let Some(stats) = column_record(columns, name, 0) {
        let c = choose|c: int| #[trigger]
            is_first_record(columns, name, c) && columns[c].stats == stats;
        if holds_no_value(entry, name) {
            let d = choose|d: int|
                {
                    &&& #[trigger] is_first_record(columns, name, d)
                    &&& columns[d].stats.value_count == 0
                    &&& columns[d].stats.distinct_count == 0
                };
            lemma_one_first_record(columns, name, c, d);
        }
    }
}

/// The segment may match the query: its bloom does not deny the series, and no
/// filtered tag is recorded as holding no value.
pub open spec fn may_match(
    entry: &SegmentCatalogEntry,
    answer: Option<bool>,
    tags: Seq<Seq<char>>,
) -> bool {
    &&& answer != Some(false)
    &&& forall|t: int| 0 <= t < tags.len() ==> !holds_no_value(entry, #[trigger] tags[t])
}

/// The numbers of the segments that may match, in order.
pub open spec fn matching(
    entries: Seq<&SegmentCatalogEntry>,
    answers: Seq<Option<bool>>,
    tags: Seq<Seq<char>>,
    picks: Seq<int>,
) -> bool {
    &&& forall|i: int, j: int| 0 <= i < j < picks.len() ==> picks[i] < picks[j]
    &&& forall|i: int|
        0 <= i < picks.len() ==> 0 <= #[trigger] picks[i] < entries.len() && may_match(
            entries[picks[i]],
            answers[picks[i]],
            tags,
        )
    &&& forall|k: int|
        0 <= k < entries.len() && #[trigger] may_match(entries[k], answers[k], tags)
            ==> picks.contains(k)
}

proof fn lemma_survivors(
    entries: Seq<&SegmentCatalogEntry>,
    answers: Seq<Option<bool>>,
    tags: Seq<Seq<char>>,
) -> (picks: Seq<int>)
    ensures
        matching(entries, answers, tags, picks),
        survivors(entries, answers, tags).len() == picks.len(),
        forall|i: int|
            0 <= i < picks.len() ==> survivors(entries, answers, tags)[i]
                == entries[#[trigger] picks[i]],
    decreases entries.len(),
{
    if entries.len() == 0 {
        Seq::empty()
    } else {
        let rest = entries.drop_last();
        let n = entries.len() - 1;
        let before = lemma_survivors(rest, answers, tags);
        assert forall|t: int| 0 <= t < tags.len() implies holds_no_value(
            entries[n],
            #[trigger] tags[t],
        ) == is_all_null(entries[n], tags[t]) by {
            lemma_holds_no_value(entries[n], tags[t]);
        }
        assert(may_match(entries[n], answers[n], tags) == !(answers[n] == Some(false)
            || stats_exclude(entries[n], tags)));
        let picks = if may_match(entries[n], answers[n], tags) {
            before.push(n)
        } else {
            before
        };
        assert forall|i: int| 0 <= i < picks.len() implies 0 <= #[trigger] picks[i]
            < entries.len() && may_match(entries[picks[i]], answers[picks[i]], tags) by {
            if i < before.len() {
                assert(picks[i] == before[i]);
                assert(rest[before[i]] == entries[before[i]]);
            }
        }
        assert forall|k: int|
            0 <= k < entries.len() && #[trigger] may_match(entries[k], answers[k], tags) implies
            picks.contains(k) by {
            if k < n {
                assert(rest[k] == entries[k]);
                assert(may_match(rest[k], answers[k], tags));
                let i = choose|i: int| 0 <= i < before.len() && before[i] == k;
                assert(picks[i] == k);
            } else {
                assert(picks[picks.len() - 1] == k);
            }
        }
        assert forall|i: int| 0 <= i < picks.len() implies survivors(entries, answers, tags)[i]
            == entries[#[trigger] picks[i]] by {
            if i < before.len() {
                assert(picks[i] == before[i]);
                assert(rest[before[i]] == entries[before[i]]);
            }
        }
        picks
    }
}

/// Pruning loses no row and keeps no segment for nothing: what is left are just
/// the segments that may match, in their order. Only a bloom that denies the
/// series, or a record that says that a filtered tag holds no value at all,
/// drops one.
pub proof fn just_the_segments_that_may_match_stay(
    result: &PruningResult,
    entries: Seq<&SegmentCatalogEntry>,
    answers: Seq<Option<bool>>,
    tags: Seq<Seq<char>>,
)
    requires
        is_pruned(result, entries, answers, tags),
        answers.len() == entries.len(),
    ensures
        exists|picks: Seq<int>|
            {
                &&& #[trigger] matching(entries, answers, tags, picks)
                &&& result.segments@.len() == picks.len()
                &&& forall|i: int|
                    0 <= i < picks.len() ==> (#[trigger] result.segments@[i]).entry
                        == entries[picks[i]] && result.segments@[i].path == entries[picks[i]].path
            },
{
    let picks = lemma_survivors(entries, answers, tags);
    assert(matching(entries, answers, tags, picks));
    assert forall|i: int| 0 <= i < picks.len() implies (#[trigger] result.segments@[i]).entry
        == entries[picks[i]] && result.segments@[i].path == entries[picks[i]].path by {
        assert(survivors(entries, answers, tags)[i] == entries[picks[i]]);
    }
}

/// A segment with a value in the first record of each filtered tag, or without
/// such a record, is kept unless its bloom denies the series.
pub proof fn a_segment_with_values_is_kept(
    result: &PruningResult,
    entries: Seq<&SegmentCatalogEntry>,
    answers: Seq<Option<bool>>,
    tags: Seq<Seq<char>>,
    k: int,
)
    requires
        is_pruned(result, entries, answers, tags),
        answers.len() == entries.len(),
        0 <= k < entries.len(),
        answers[k] != Some(false),
        forall|t: int, c: int|
            0 <= t < tags.len() && #[trigger] is_first_record(
                entries[k].column_stats@,
                tags[t],
                c,
            ) ==> entries[k].column_stats@[c].stats.value_count > 0,
    ensures
        exists|i: int|
            0 <= i < result.segments@.len() && (#[trigger] result.segments@[i]).entry == entries[k],
{
    just_the_segments_that_may_match_stay(result, entries, answers, tags);
    let picks = choose|picks: Seq<int>|
        {
            &&& #[trigger] matching(entries, answers, tags, picks)
            &&& result.segments@.len() == picks.len()
            &&& forall|i: int|
                0 <= i < picks.len() ==> (#[trigger] result.segments@[i]).entry
                    == entries[picks[i]] && result.segments@[i].path == entries[picks[i]].path
        };
    assert forall|t: int| 0 <= t < tags.len() implies !holds_no_value(
        entries[k],
        #[trigger] tags[t],
    ) by {
        if holds_no_value(entries[k], tags[t]) {
            let c = choose|c: int|
                {
                    &&& #[trigger] is_first_record(entries[k].column_stats@, tags[t], c)
                    &&& entries[k].column_stats@[c].stats.value_count == 0
                    &&& entries[k].column_stats@[c].stats.distinct_count == 0
                };
            assert(is_first_record(entries[k].column_stats@, tags[t], c));
        }
    }
    assert(may_match(entries[k], answers[k], tags));
    let i = choose|i: int| 0 <= i < picks.len() && picks[i] == k;
    assert(result.segments@[i].entry == entries[picks[i]]);
}

proof fn lemma_bloom_drops(answers: Seq<Option<bool>>, n: int)
    requires
        0 <= n <= answers.len(),
    ensures
        bloom_drops(answers, n) == answers.take(n).filter(
            |a: Option<bool>| a == Some(false),
        ).len(),
    decreases n,
{
    reveal(Seq::filter);
    if n > 0 {
        lemma_bloom_drops(answers, n - 1);
        assert(answers.take(n).drop_last() =~= answers.take(n - 1));
    }
}

/// The counts tell what happened: as many segments were pruned by blooms as
/// blooms denied the series, the rest that is not left was pruned by statistics,
/// and together they are all segments.
pub proof fn the_counts_tell_what_was_pruned(
    result: &PruningResult,
    entries: Seq<&SegmentCatalogEntry>,
    answers: Seq<Option<bool>>,
    tags: Seq<Seq<char>>,
)
    requires
        is_pruned(result, entries, answers, tags),
        answers.len() == entries.len(),
    ensures
        result.stats.segments_total == entries.len(),
        result.stats.pruned_by_time == 0,
        result.stats.segments_remaining == result.segments@.len(),
        result.stats.pruned_by_bloom == answers.filter(
            |a: Option<bool>| a == Some(false),
        ).len(),
        result.stats.pruned_by_bloom + result.stats.pruned_by_stats
            + result.stats.segments_remaining == result.stats.segments_total,
{
    every_segment_is_accounted_for(entries, answers, tags);
    lemma_bloom_drops(answers, answers.len() as int);
    assert(answers.take(answers.len() as int) =~= answers);
}

// ---------------------------------------------------------------------------
// Row groups
// ---------------------------------------------------------------------------

/// A row group is skipped just if some predicate excludes it, it is taken whole
/// just if there are predicates and all rows meet each of them, and it is decoded
/// otherwise. A column without statistics settles nothing.
pub proof fn row_groups_are_decoded_unless_settled(results: Seq<Option<ZoneMapResult>>)
    ensures
        group_verdict(results) is Skip <==> results.contains(Some(ZoneMapResult::NoneMatch)),
        group_verdict(results) is AllMatch <==> results.len() > 0 && forall|i: int|
            0 <= i < results.len() ==> #[trigger] results[i] == Some(ZoneMapResult::AllMatch),
        !results.contains(Some(ZoneMapResult::NoneMatch)) && (results.len() == 0
            || results.contains(None) || results.contains(Some(ZoneMapResult::MaybeMatch)))
            ==> group_verdict(results) is Decode,
{
    if results.len() > 0 {
        assert(results[0] == results[0]);
    }
}

/// More predicates never make a row group that was skipped one to be read, and
/// one that all rows meet changes nothing.
pub proof fn another_predicate_only_narrows(
    results: Seq<Option<ZoneMapResult>>,
    another: Option<ZoneMapResult>,
)
    ensures
        group_verdict(results) is Skip ==> group_verdict(results.push(another)) is Skip,
        another == Some(ZoneMapResult::NoneMatch) ==> group_verdict(results.push(another)) is Skip,
        another == Some(ZoneMapResult::AllMatch) && results.len() > 0 ==> group_verdict(
            results.push(another),
        ) == group_verdict(results),
        group_verdict(results.push(another)) is AllMatch ==> another == Some(
            ZoneMapResult::AllMatch,
        ),
{
    let all = results.push(another);
    assert(all[results.len() as int] == another);
    assert forall|i: int| 0 <= i < results.len() implies all[i] == results[i] by {}
    row_groups_are_decoded_unless_settled(results);
    row_groups_are_decoded_unless_settled(all);
    if group_verdict(results) is Skip {
        let i = choose|i: int|
            0 <= i < results.len() && results[i] == Some(ZoneMapResult::NoneMatch);
        assert(all[i] == Some(ZoneMapResult::NoneMatch));
    }
    if another == Some(ZoneMapResult::AllMatch) && results.len() > 0 {
        if all.contains(Some(ZoneMapResult::NoneMatch)) {
            let i = choose|i: int| 0 <= i < all.len() && all[i] == Some(ZoneMapResult::NoneMatch);
            assert(results[i] == Some(ZoneMapResult::NoneMatch));
        }
        if group_verdict(all) is AllMatch {
            assert forall|i: int| 0 <= i < results.len() implies #[trigger] results[i] == Some(
                ZoneMapResult::AllMatch,
            ) by {
                assert(all[i] == Some(ZoneMapResult::AllMatch));
            }
        }
    }
}

/// Without a series key to look for, no segment is dropped for its bloom.
pub proof fn without_a_key_no_bloom_is_asked<F: Fn(u64, &SeriesKey) -> Option<bool>>(
    bloom_lookup: F,
    result: &PruningResult,
    entries: Seq<&SegmentCatalogEntry>,
    answers: Seq<Option<bool>>,
    tags: Seq<Seq<char>>,
)
    requires
        answers.len() == entries.len(),
        forall|i: int|
            0 <= i < answers.len() ==> is_answer(
                bloom_lookup,
                None,
                entries[i].segment_id,
                #[trigger] answers[i],
            ),
        is_pruned(result, entries, answers, tags),
    ensures
        result.stats.pruned_by_bloom == 0,
{
    lemma_no_drops(bloom_lookup, entries, answers, entries.len() as int);
}

proof fn lemma_no_drops<F: Fn(u64, &SeriesKey) -> Option<bool>>(
    bloom_lookup: F,
    entries: Seq<&SegmentCatalogEntry>,
    answers: Seq<Option<bool>>,
    n: int,
)
    requires
        0 <= n <= answers.len(),
        forall|i: int|
            0 <= i < answers.len() ==> is_answer(
                bloom_lookup,
                None,
                entries[i].segment_id,
                #[trigger] answers[i],
            ),
    ensures
        bloom_drops(answers, n) == 0,
    decreases n,
{
    if n > 0 {
        lemma_no_drops(bloom_lookup, entries, answers, n - 1);
        assert(is_answer(bloom_lookup, None, entries[n - 1].segment_id, answers[n - 1]));
    }
}

/// With a series key, a segment is dropped for its bloom only on what the lookup
/// says of that key in that segment.
pub proof fn the_bloom_is_asked_for_the_key<F: Fn(u64, &SeriesKey) -> Option<bool>>(
    bloom_lookup: F,
    key: &SeriesKey,
    segment_id: u64,
    answer: Option<bool>,
)
    requires
        is_answer(bloom_lookup, Some(key), segment_id, answer),
    ensures
        call_ensures(bloom_lookup, (segment_id, key), answer),
{
}

} // verus!
