//! Multi-level segment pruning.
//!
//! Eliminates segments from query processing before any data is decoded:
//! 1. **Bloom pruning** excludes segments that cannot contain the series key.
//! 2. **Stats pruning** excludes segments whose column statistics exclude the
//!    predicate.
//!
//! **Every level here may only ever fail towards more work.** A segment with
//! no bloom, or with no statistics for the filtered tag, is kept: both
//! structures can lag the catalog, and pruning what has not been seen loses
//! rows with no error anywhere.
use vstd::prelude::*;
use vstd::string::*;

use crate::query::series::SeriesKey;
use crate::text::same_text;
#[allow(unused_imports)]
use crate::text::texts;

verus! {

broadcast use vstd::string::group_string_axioms;

/// Statistics of one column of a segment.
#[derive(Debug, Clone, Copy, PartialEq, Eq, Structural)]
pub struct ColumnStats {
    /// Number of null cells.
    pub null_count: u64,
    /// Number of non-null cells.
    pub value_count: u64,
    /// Estimated number of distinct values.
    pub distinct_count: u32,
}

/// The catalog's record of one column of a segment.
#[derive(Debug, Clone)]
pub struct CatalogColumnStats {
    /// Column name.
    pub name: String,
    /// Statistics of the column.
    pub stats: ColumnStats,
}

/// The catalog's record of one segment.
#[derive(Debug, Clone)]
pub struct SegmentCatalogEntry {
    /// Segment identifier.
    pub segment_id: u64,
    /// Shard that the segment belongs to.
    pub shard_id: i64,
    /// Measurement that the segment holds.
    pub measurement: String,
    /// Path of the segment file.
    pub path: String,
    /// Smallest timestamp in the segment.
    pub min_timestamp: i64,
    /// Largest timestamp in the segment.
    pub max_timestamp: i64,
    /// Number of rows.
    pub row_count: u64,
    /// Statistics of the segment's columns.
    pub column_stats: Vec<CatalogColumnStats>,
}

/// Statistics about segment pruning during query execution.
#[derive(Debug, Clone)]
pub struct PruningStats {
    /// Total segments considered.
    pub segments_total: usize,
    /// Segments pruned by time range.
    pub pruned_by_time: usize,
    /// Segments pruned by bloom filter.
    pub pruned_by_bloom: usize,
    /// Segments pruned by column statistics.
    pub pruned_by_stats: usize,
    /// Segments that passed all pruning levels.
    pub segments_remaining: usize,
}

impl PruningStats {
    /// Total segments pruned across all levels.
    pub fn total_pruned(&self) -> (r: usize)
        requires
            self.pruned_by_time + self.pruned_by_bloom + self.pruned_by_stats <= usize::MAX,
        ensures
            r == self.pruned_by_time + self.pruned_by_bloom + self.pruned_by_stats,
    {
        self.pruned_by_time + self.pruned_by_bloom + self.pruned_by_stats
    }
}

/// A segment that survived pruning, with its catalog entry and file path.
#[derive(Debug, Clone)]
pub struct PrunedSegment<'a> {
    /// Catalog entry for this segment.
    pub entry: &'a SegmentCatalogEntry,
    /// Path of the segment file.
    pub path: &'a String,
}

/// Result of the pruning pipeline: surviving segment entries and statistics.
#[derive(Debug)]
pub struct PruningResult<'a> {
    /// Segments that passed all pruning levels.
    pub segments: Vec<PrunedSegment<'a>>,
    /// Pruning statistics for metrics.
    pub stats: PruningStats,
}

/// The first record of the column with this name, counted from `from`.
pub open spec fn column_record(
    columns: Seq<CatalogColumnStats>,
    name: Seq<char>,
    from: int,
) -> Option<ColumnStats>
    decreases columns.len() - from,
{
    if from < 0 || from >= columns.len() {
        None
    } else if columns[from].name@ == name {
        Some(columns[from].stats)
    } else {
        column_record(columns, name, from + 1)
    }
}

/// The statistics say that the column with this name is there and holds no
/// value at all.
pub open spec fn is_all_null(entry: &SegmentCatalogEntry, name: Seq<char>) -> bool {
    column_record(entry.column_stats@, name, 0) matches Some(stats) && stats.distinct_count == 0
        && stats.value_count == 0
}

/// The statistics exclude the segment: one of the filtered tags has no value
/// in it.
pub open spec fn stats_exclude(entry: &SegmentCatalogEntry, tags: Seq<Seq<char>>) -> bool {
    exists|t: int| 0 <= t < tags.len() && is_all_null(entry, #[trigger] tags[t])
}

/// The bloom excludes the segment: there is one, and it answers that the key
/// is not there.
pub open spec fn bloom_excludes(answer: Option<bool>) -> bool {
    answer == Some(false)
}

/// The segments that survive both levels, in their order.
pub open spec fn survivors<'a>(
    entries: Seq<&'a SegmentCatalogEntry>,
    answers: Seq<Option<bool>>,
    tags: Seq<Seq<char>>,
) -> Seq<&'a SegmentCatalogEntry>
    decreases entries.len(),
{
    if entries.len() == 0 {
        Seq::empty()
    } else {
        let before = survivors(entries.drop_last(), answers, tags);
        let n = entries.len() - 1;
        if bloom_excludes(answers[n]) || stats_exclude(entries[n], tags) {
            before
        } else {
            before.push(entries[n])
        }
    }
}

/// How many segments the blooms exclude.
pub open spec fn bloom_drops(answers: Seq<Option<bool>>, n: int) -> int
    decreases n,
{
    if n <= 0 {
        0
    } else {
        bloom_drops(answers, n - 1) + if bloom_excludes(answers[n - 1]) {
            1int
        } else {
            0int
        }
    }
}

/// How many segments that passed the blooms the statistics exclude.
pub open spec fn stats_drops(
    entries: Seq<&SegmentCatalogEntry>,
    answers: Seq<Option<bool>>,
    tags: Seq<Seq<char>>,
    n: int,
) -> int
    decreases n,
{
    if n <= 0 {
        0
    } else {
        stats_drops(entries, answers, tags, n - 1) + if !bloom_excludes(answers[n - 1])
            && stats_exclude(entries[n - 1], tags) {
            1int
        } else {
            0int
        }
    }
}

/// The pruning result is what the blooms' answers and the statistics make of
/// the entries.
pub open spec fn is_pruned(
    result: &PruningResult,
    entries: Seq<&SegmentCatalogEntry>,
    answers: Seq<Option<bool>>,
    tags: Seq<Seq<char>>,
) -> bool {
    let kept = survivors(entries, answers, tags);
    let n = entries.len() as int;
    &&& result.segments@.len() == kept.len()
    &&& forall|i: int|
        0 <= i < kept.len() ==> (#[trigger] result.segments@[i]).entry == kept[i]
            && result.segments@[i].path == kept[i].path
    &&& result.stats.segments_total == n
    &&& result.stats.pruned_by_time == 0
    &&& result.stats.pruned_by_bloom == bloom_drops(answers, n)
    &&& result.stats.pruned_by_stats == stats_drops(entries, answers, tags, n)
    &&& result.stats.segments_remaining == kept.len()
}

/// Whether the statistics exclude a segment.
fn excluded_by_stats(entry: &SegmentCatalogEntry, tags: &[&str]) -> (r: bool)
    ensures
        r == stats_exclude(entry, texts(tags@)),
{
    let ghost names = texts(tags@);
    let mut t: usize = 0;
    while t < tags.len()
        invariant
            t <= tags.len(),
            names == texts(tags@),
            forall|u: int| 0 <= u < t ==> !is_all_null(entry, #[trigger] names[u]),
        decreases tags.len() - t,
    {
        let mut c: usize = 0;
        let mut all_null: bool = false;
        let mut searching: bool = true;
        while c < entry.column_stats.len() && searching
            invariant
                c <= entry.column_stats.len(),
                t < tags.len(),
                names == texts(tags@),
                searching ==> !all_null && column_record(
                    entry.column_stats@,
                    names[t as int],
                    0,
                ) == column_record(entry.column_stats@, names[t as int], c as int),
                !searching ==> all_null == is_all_null(entry, names[t as int]),
            decreases entry.column_stats.len() - c + if searching { 1int } else { 0int },
        {
            if same_text(entry.column_stats[c].name.as_str(), tags[t]) {
                let stats = entry.column_stats[c].stats;
                all_null = stats.distinct_count == 0 && stats.value_count == 0;
                searching = false;
            } else {
                c = c + 1;
            }
        }
        assert(all_null == is_all_null(entry, names[t as int]));
        if all_null {
            return true;
        }
        t = t + 1;
    }
    false
}

proof fn lemma_drops_fit(
    entries: Seq<&SegmentCatalogEntry>,
    answers: Seq<Option<bool>>,
    tags: Seq<Seq<char>>,
    n: int,
)
    requires
        0 <= n <= entries.len(),
    ensures
        0 <= bloom_drops(answers, n),
        0 <= stats_drops(entries, answers, tags, n),
        bloom_drops(answers, n) + stats_drops(entries, answers, tags, n) + survivors(
            entries.take(n),
            answers,
            tags,
        ).len() == n,
    decreases n,
{
    if n > 0 {
        lemma_drops_fit(entries, answers, tags, n - 1);
        assert(entries.take(n).drop_last() =~= entries.take(n - 1));
    }
}

/// Prune segments by the answers of their blooms and by their statistics.
///
/// `answers[i]` is what the bloom of the `i`-th segment says about the series
/// key: `None` where there is no bloom, or no key to look for.
pub fn prune_answered<'a>(
    entries: &Vec<&'a SegmentCatalogEntry>,
    answers: &Vec<Option<bool>>,
    tag_filter_keys: &[&str],
) -> (r: PruningResult<'a>)
    requires
        answers@.len() == entries@.len(),
    ensures
        is_pruned(&r, entries@, answers@, texts(tag_filter_keys@)),
{
    let ghost tags = texts(tag_filter_keys@);
    let mut stats = PruningStats {
        segments_total: entries.len(),
        pruned_by_time: 0,
        pruned_by_bloom: 0,
        pruned_by_stats: 0,
        segments_remaining: 0,
    };
    let mut segments: Vec<PrunedSegment<'a>> = Vec::new();
    let mut i: usize = 0;
    while i < entries.len()
        invariant
            i <= entries.len(),
            answers@.len() == entries@.len(),
            tags == texts(tag_filter_keys@),
            stats.segments_total == entries@.len(),
            stats.pruned_by_time == 0,
            stats.pruned_by_bloom == bloom_drops(answers@, i as int),
            stats.pruned_by_stats == stats_drops(entries@, answers@, tags, i as int),
            segments@.len() == survivors(entries@.take(i as int), answers@, tags).len(),
            forall|k: int|
                0 <= k < segments@.len() ==> {
                    let kept = survivors(entries@.take(i as int), answers@, tags);
                    (#[trigger] segments@[k]).entry == kept[k] && segments@[k].path == kept[k].path
                },
        decreases entries.len() - i,
    {
        let entry = entries[i];
        proof {
            lemma_drops_fit(entries@, answers@, tags, i as int);
            assert(entries@.take(i + 1).drop_last() =~= entries@.take(i as int));
        }
        let excluded = match answers[i] {
            Some(answer) => !answer,
            None => false,
        };
        if excluded {
            stats.pruned_by_bloom = stats.pruned_by_bloom + 1;
        } else if excluded_by_stats(entry, tag_filter_keys) {
            stats.pruned_by_stats = stats.pruned_by_stats + 1;
        } else {
            segments.push(PrunedSegment { entry, path: &entry.path });
        }
        i = i + 1;
    }
    proof {
        assert(entries@.take(entries@.len() as int) =~= entries@);
    }
    stats.segments_remaining = segments.len();
    PruningResult { segments, stats }
}

/// `answer` is what the lookup says of a segment: nothing where there is no
/// series key to look for.
pub open spec fn is_answer<F: Fn(u64, &SeriesKey) -> Option<bool>>(
    bloom_lookup: F,
    series_key: Option<&SeriesKey>,
    segment_id: u64,
    answer: Option<bool>,
) -> bool {
    match series_key {
        None => answer is None,
        Some(key) => call_ensures(bloom_lookup, (segment_id, key), answer),
    }
}

/// Prune a pre-filtered set of segment entries through bloom and stats levels.
///
/// - `entries`: segment entries that already passed time and measurement
///   filtering
/// - `bloom_lookup`: whether the bloom of a segment may contain a series key,
///   or `None` if the segment has no bloom
/// - `series_key`: canonical series key, or `None` if there are no tag filters
/// - `tag_filter_keys`: tag columns used in equality filters
pub fn prune_entries<'a, F: Fn(u64, &SeriesKey) -> Option<bool>>(
    entries: Vec<&'a SegmentCatalogEntry>,
    bloom_lookup: F,
    series_key: Option<&SeriesKey>,
    tag_filter_keys: &[&str],
) -> (r: PruningResult<'a>)
    requires
        forall|id: u64, key: &SeriesKey| call_requires(bloom_lookup, (id, key)),
    ensures
        exists|answers: Seq<Option<bool>>|
            {
                &&& answers.len() == entries@.len()
                &&& forall|i: int|
                    0 <= i < answers.len() ==> is_answer(
                        bloom_lookup,
                        series_key,
                        entries@[i].segment_id,
                        #[trigger] answers[i],
                    )
                &&& #[trigger] is_pruned(
                    &r,
                    entries@,
                    answers,
                    texts(tag_filter_keys@),
                )
            },
{
    let mut answers: Vec<Option<bool>> = Vec::new();
    let mut i: usize = 0;
    while i < entries.len()
        invariant
            i <= entries.len(),
            answers@.len() == i,
            forall|id: u64, key: &SeriesKey| call_requires(bloom_lookup, (id, key)),
            forall|j: int|
                0 <= j < i ==> is_answer(
                    bloom_lookup,
                    series_key,
                    entries@[j].segment_id,
                    #[trigger] answers@[j],
                ),
        decreases entries.len() - i,
    {
        let answer = match series_key {
            None => None,
            Some(key) => bloom_lookup(entries[i].segment_id, key),
        };
        answers.push(answer);
        i = i + 1;
    }
    let r = prune_answered(&entries, &answers, tag_filter_keys);
    assert(is_pruned(&r, entries@, answers@, texts(tag_filter_keys@)));
    r
}

/// Pruning only drops what cannot match: a segment whose bloom does not deny
/// the key, and of whose filtered tags none is known to be all null, is kept.
/// In particular a segment without a bloom and without statistics is kept.
pub proof fn pruning_keeps_what_may_match(
    entries: Seq<&SegmentCatalogEntry>,
    answers: Seq<Option<bool>>,
    tags: Seq<Seq<char>>,
    i: int,
)
    requires
        0 <= i < entries.len(),
        !bloom_excludes(answers[i]),
        !stats_exclude(entries[i], tags),
    ensures
        survivors(entries, answers, tags).contains(entries[i]),
    decreases entries.len(),
{
    let n = entries.len() - 1;
    let before = survivors(entries.drop_last(), answers, tags);
    let all = survivors(entries, answers, tags);
    if i < n {
        pruning_keeps_what_may_match(entries.drop_last(), answers, tags, i);
        assert(before.contains(entries[i]));
        let k = choose|k: int| 0 <= k < before.len() && before[k] == entries[i];
        assert(all[k] == entries[i]);
    } else {
        assert(all.last() == entries[i]);
        assert(all[all.len() - 1] == entries[i]);
    }
}

/// Every segment considered is either kept or counted as pruned, once.
pub proof fn every_segment_is_accounted_for(
    entries: Seq<&SegmentCatalogEntry>,
    answers: Seq<Option<bool>>,
    tags: Seq<Seq<char>>,
)
    ensures
        bloom_drops(answers, entries.len() as int) + stats_drops(
            entries,
            answers,
            tags,
            entries.len() as int,
        ) + survivors(entries, answers, tags).len() == entries.len(),
{
    lemma_drops_fit(entries, answers, tags, entries.len() as int);
    assert(entries.take(entries.len() as int) =~= entries);
}

} // verus!
