//! Pruning of segments.
use chronix::query::pruning::{
    prune_entries, CatalogColumnStats, ColumnStats, SegmentCatalogEntry,
};
use chronix::query::series::SeriesKey;
use chronix::sorted_map::SortedMap;

fn make_entry(id: u64, shard: i64, min_ts: i64, max_ts: i64) -> SegmentCatalogEntry {
    SegmentCatalogEntry {
        segment_id: id,
        shard_id: shard,
        measurement: "cpu".to_string(),
        path: format!("shard_{shard}/seg_{id}.csx"),
        min_timestamp: min_ts,
        max_timestamp: max_ts,
        row_count: 1000,
        column_stats: Vec::new(),
    }
}

fn tag_stats(name: &str, distinct: u32, values: u64) -> CatalogColumnStats {
    CatalogColumnStats {
        name: name.to_string(),
        stats: ColumnStats { null_count: 0, value_count: values, distinct_count: distinct },
    }
}

fn host(value: &str) -> SeriesKey {
    let mut tags = SortedMap::new();
    tags.insert("host".to_string(), value.to_string());
    SeriesKey::new("cpu", tags)
}

#[test]
fn nothing_is_pruned_without_a_series_key_or_a_tag_filter() {
    let entries = [make_entry(1, 0, 100, 200), make_entry(2, 0, 300, 400)];
    let refs: Vec<&SegmentCatalogEntry> = entries.iter().collect();
    let result = prune_entries(refs, |_: u64, _: &SeriesKey| None, None, &[]);
    assert_eq!(result.segments.len(), 2);
    assert_eq!(result.stats.total_pruned(), 0);
}

/// A missing bloom keeps its segment.
#[test]
fn a_segment_without_a_bloom_is_kept() {
    let entries = [make_entry(1, 0, 100, 200), make_entry(2, 0, 300, 400)];
    let refs: Vec<&SegmentCatalogEntry> = entries.iter().collect();

    let key = host("a");
    // Segment 1 has a bloom that does not hold the key; segment 2 has none.
    let held = host("z").canonical_form();
    let result = prune_entries(
        refs,
        |id: u64, key: &SeriesKey| {
            if id == 1 {
                Some(key.canonical_form() == held)
            } else {
                None
            }
        },
        Some(&key),
        &[],
    );
    assert_eq!(result.stats.pruned_by_bloom, 1);
    assert_eq!(result.segments.len(), 1);
    assert_eq!(result.segments[0].entry.segment_id, 2);
}

/// A tag column that exists and is entirely null cannot match an equality
/// filter on it.
#[test]
fn an_all_null_tag_column_is_pruned_by_its_statistics() {
    let mut with_values = make_entry(1, 0, 100, 200);
    with_values.column_stats = vec![tag_stats("host", 2, 10)];
    let mut all_null = make_entry(2, 0, 300, 400);
    all_null.column_stats = vec![tag_stats("host", 0, 0)];

    let entries = [with_values, all_null];
    let refs: Vec<&SegmentCatalogEntry> = entries.iter().collect();
    let result = prune_entries(refs, |_: u64, _: &SeriesKey| None, None, &["host"]);

    assert_eq!(result.stats.pruned_by_stats, 1);
    assert_eq!(result.segments.len(), 1);
    assert_eq!(result.segments[0].entry.segment_id, 1);
}

/// A segment carrying no statistics for the filtered tag is kept.
#[test]
fn a_segment_with_no_statistics_for_the_tag_is_kept() {
    let entries = [make_entry(1, 0, 100, 200)];
    let refs: Vec<&SegmentCatalogEntry> = entries.iter().collect();
    let result = prune_entries(refs, |_: u64, _: &SeriesKey| None, None, &["host"]);
    assert_eq!(result.segments.len(), 1);
    assert_eq!(result.stats.pruned_by_stats, 0);
    assert_eq!(result.stats.segments_total, 1);
    assert_eq!(result.stats.segments_remaining, 1);
    assert_eq!(result.segments[0].path, "shard_0/seg_1.csx");
}

#[test]
fn the_canonical_form_lists_tags_by_name() {
    let mut tags = SortedMap::new();
    tags.insert("host".to_string(), "a".to_string());
    tags.insert("dc".to_string(), "eu".to_string());
    assert_eq!(SeriesKey::new("cpu", tags).canonical_form(), "cpu\0dc=eu\0host=a");
}
