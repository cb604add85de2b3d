//! Constant-memory aggregation: batches are pushed in and dropped.
use vstd::prelude::*;
use vstd::string::*;

use crate::query::accumulator::IncrementalAccumulator;
#[allow(unused_imports)]
use crate::query::accumulator::{aggregate_of, decimals, numbers, Moment, Reading};
use crate::query::agg_fn::{result_column_name, AggFn};
#[allow(unused_imports)]
use crate::query::agg_fn::result_name;
use crate::query::aggregate::{
    check_columns, check_texts, find_columns, find_texts, group_bytes, scan_column,
};
#[allow(unused_imports)]
use crate::query::aggregate::{
    column_readings, first_missing, first_untexted, kernel_max, kernel_min, named_columns,
    named_texts, ACCUMULATOR_BYTES,
};
use crate::query::error::{invalid, QueryError};
use crate::query::float::{is_less, INFINITY, NEG_INFINITY};
#[allow(unused_imports)]
use crate::query::float::less;
use crate::query::frame::Frame;
#[allow(unused_imports)]
use crate::query::frame::{optional_texts, FrameModel};
use crate::query::grouped::group_table;
#[allow(unused_imports)]
use crate::query::grouped::{are_row_groups, frame_keys, shows_groups};
#[allow(unused_imports)]
use crate::query::grouping::{account, charged, groups_after, GroupKey};
use crate::query::groups::Groups;
#[allow(unused_imports)]
use crate::query::groups::{
    account_at, columns_of, failure_at, lemma_with_rows, no_groups, row_key, row_keys, stops_at,
    text_columns_of, GroupsModel,
};
#[allow(unused_imports)]
use crate::query::memory::countable;
use crate::query::memory::MemoryTracker;
use crate::query::output::charge_table;
#[allow(unused_imports)]
use crate::query::output::{at_least, settles, table_least};
use crate::query::result::{agg_result_column, ResultColumn, ResultTable};
#[allow(unused_imports)]
use crate::query::result::{lemma_possible_scale, lemma_result_pairs, result_pairs};
use crate::query::track::AggResult;
#[allow(unused_imports)]
use crate::query::track::decimal_avg;
#[allow(unused_imports)]
use crate::text::texts;

verus! {

broadcast use vstd::string::group_string_axioms;

/// Bytes that a group is taken to need.
pub open spec fn streamed_group_bytes(keys: nat, fields: nat) -> int {
    countable(48 + keys * 48 + fields * ACCUMULATOR_BYTES)
}

/// The groups of some frames, taken one after the other. A frame that lacks a
/// field contributes nothing for it; one that lacks a group-by column reads as
/// null there.
pub open spec fn stream_groups(
    frames: Seq<FrameModel>,
    fields: Seq<Seq<char>>,
    by: Seq<Seq<char>>,
) -> GroupsModel
    decreases frames.len(),
{
    if frames.len() == 0 {
        no_groups()
    } else {
        let frame = frames.last();
        stream_groups(frames.drop_last(), fields, by).with_rows(
            frame,
            named_columns(frame, fields),
            named_texts(frame, by),
            frame.rows as int,
        )
    }
}

/// The readings of a field in some frames.
pub open spec fn stream_readings(
    frames: Seq<FrameModel>,
    field: Seq<char>,
) -> Seq<(Reading, Moment)>
    decreases frames.len(),
{
    if frames.len() == 0 {
        Seq::empty()
    } else {
        let before = stream_readings(frames.drop_last(), field);
        match frames.last().column(field) {
            Some(data) => before + column_readings(frames.last(), data),
            None => before,
        }
    }
}

/// The least of the least floats of each frame.
pub open spec fn stream_min(frames: Seq<FrameModel>, field: Seq<char>) -> u64
    decreases frames.len(),
{
    if frames.len() == 0 {
        INFINITY
    } else {
        let before = stream_min(frames.drop_last(), field);
        match frames.last().column(field) {
            Some(data) => match kernel_min(numbers(column_readings(frames.last(), data))) {
                Some(m) if less(m, before) => m,
                _ => before,
            },
            None => before,
        }
    }
}

/// The greatest of the greatest floats of each frame.
pub open spec fn stream_max(frames: Seq<FrameModel>, field: Seq<char>) -> u64
    decreases frames.len(),
{
    if frames.len() == 0 {
        NEG_INFINITY
    } else {
        let before = stream_max(frames.drop_last(), field);
        match frames.last().column(field) {
            Some(data) => match kernel_max(numbers(column_readings(frames.last(), data))) {
                Some(m) if less(before, m) => m,
                _ => before,
            },
            None => before,
        }
    }
}

/// The aggregate of a field over some frames, with all rows in one group.
pub open spec fn stream_aggregate(
    frames: Seq<FrameModel>,
    field: Seq<char>,
    func: AggFn,
) -> AggResult {
    let rs = stream_readings(frames, field);
    let ds = decimals(numbers(rs));
    match func {
        AggFn::Count => AggResult::Count(rs.len() as u64),
        _ if rs.len() == 0 => AggResult::Null,
        AggFn::Avg => if ds.len() > 0 {
            decimal_avg(ds[0].1, ds, rs.len() as u64)
        } else {
            AggResult::FloatMean { count: rs.len() as u64 }
        },
        AggFn::Sum if ds.len() == 0 => AggResult::FloatSum,
        AggFn::Min if ds.len() == 0 => AggResult::F64(stream_min(frames, field)),
        AggFn::Max if ds.len() == 0 => AggResult::F64(stream_max(frames, field)),
        _ => aggregate_of(rs, func),
    }
}

/// Per-field partial state for the ungrouped fold.
#[derive(Debug)]
pub struct UngroupedField {
    accumulator: IncrementalAccumulator,
    min: u64,
    max: u64,
}

impl UngroupedField {
    /// The state is that of a field over some frames.
    pub closed spec fn saw(&self, frames: Seq<FrameModel>, field: Seq<char>) -> bool {
        &&& self.accumulator.summarizes(stream_readings(frames, field))
        &&& self.min == stream_min(frames, field)
        &&& self.max == stream_max(frames, field)
    }

    /// How many readings have been taken.
    pub closed spec fn taken(&self) -> u64 {
        self.accumulator.taken()
    }

    /// The scale of what was taken is one that a column can have.
    pub closed spec fn fits_a_column(&self) -> bool {
        self.accumulator.fits_a_column()
    }

    /// Nothing has been seen.
    pub fn new() -> (r: Self)
        ensures
            forall|field: Seq<char>| #[trigger] r.saw(Seq::empty(), field),
            r.taken() == 0,
            r.fits_a_column(),
    {
        UngroupedField {
            accumulator: IncrementalAccumulator::new(),
            min: INFINITY,
            max: NEG_INFINITY,
        }
    }

    /// Fold one frame.
    pub fn push(&mut self, frame: &Frame, field: &str)
        requires
            old(self).taken() + frame@.rows <= u64::MAX,
        ensures
            forall|frames: Seq<FrameModel>| #[trigger]
                old(self).saw(frames, field@) ==> final(self).saw(frames.push(frame@), field@),
            final(self).taken() <= old(self).taken() + frame@.rows,
            old(self).fits_a_column() ==> final(self).fits_a_column(),
    {
        let ghost before = *self;
        if let Some(data) = frame.column(field) {
            let (accumulator, low, high) = scan_column(frame, data, self.accumulator);
            self.accumulator = accumulator;
            if let Some(m) = low {
                if is_less(m, self.min) {
                    self.min = m;
                }
            }
            if let Some(m) = high {
                if is_less(self.max, m) {
                    self.max = m;
                }
            }
        }
        proof {
            assert forall|frames: Seq<FrameModel>| #[trigger]
                before.saw(frames, field@) implies self.saw(frames.push(frame@), field@) by {
                assert(frames.push(frame@).drop_last() =~= frames);
            }
        }
    }

    /// The field's result for one function, exact where the column is.
    pub fn finalize(&self, func: AggFn) -> (r: AggResult)
        ensures
            forall|frames: Seq<FrameModel>, field: Seq<char>| #[trigger]
                self.saw(frames, field) ==> r == stream_aggregate(frames, field, func),
            self.fits_a_column() ==> (r matches AggResult::Decimal { scale, .. } ==> scale
                <= crate::query::accumulator::MAX_COLUMN_SCALE),
    {
        let count: u64 = self.accumulator.count();
        if count == 0 {
            proof {
                assert forall|frames: Seq<FrameModel>, field: Seq<char>| #[trigger]
                    self.saw(frames, field) implies numbers(stream_readings(frames, field)).len()
                    == 0 by {
                    assert(stream_readings(frames, field).len() == 0);
                }
            }
            return self.accumulator.finalize(func);
        }
        match self.accumulator.track() {
            Some(track) => match func {
                AggFn::Avg => track.avg_result(count),
                _ => self.accumulator.finalize(func),
            },
            None => match func {
                AggFn::Sum => AggResult::FloatSum,
                AggFn::Avg => AggResult::FloatMean { count },
                AggFn::Min => AggResult::F64(self.min),
                AggFn::Max => AggResult::F64(self.max),
                _ => self.accumulator.finalize(func),
            },
        }
    }
}

/// The table of the aggregates of whole frames.
pub open spec fn shows_stream(
    table: &ResultTable,
    frames: Seq<FrameModel>,
    fields: Seq<Seq<char>>,
    functions: Seq<AggFn>,
) -> bool {
    let pairs = result_pairs(fields, functions);
    &&& table.keys@.len() == 0
    &&& table.results@.len() == pairs.len()
    &&& forall|p: int|
        0 <= p < pairs.len() ==> (#[trigger] table.results@[p]).shows(
            result_name(fields[pairs[p].0], pairs[p].1),
            seq![stream_aggregate(frames, fields[pairs[p].0], pairs[p].1)],
        )
}

/// What a streaming aggregator holds.
#[derive(Debug)]
enum AggState {
    /// One accumulator set per distinct group key.
    Grouped(Groups),
    /// The whole dataset is one group.
    Ungrouped(Vec<UngroupedField>),
}

/// Constant-memory aggregation state that batches are pushed into.
///
/// The state is one accumulator per group and field, so each batch can be
/// dropped as soon as it has been folded in.
///
/// Rows carry the group-by and field columns by name; a batch missing a column
/// simply contributes nothing for it, which is how schema evolution across
/// segments is tolerated.
#[derive(Debug)]
pub struct StreamingAggregator {
    functions: Vec<AggFn>,
    field_columns: Vec<String>,
    group_by: Vec<String>,
    state: AggState,
    rows: u64,
}

/// The texts of a list, as references.
fn references(list: &Vec<String>) -> (r: Vec<&str>)
    ensures
        texts(r@) == list.deep_view(),
        r@.len() == list@.len(),
{
    let mut out: Vec<&str> = Vec::new();
    let mut i: usize = 0;
    while i < list.len()
        invariant
            i <= list.len(),
            out@.len() == i,
            forall|j: int| 0 <= j < i ==> (#[trigger] out@[j])@ == list@[j]@,
        decreases list.len() - i,
    {
        out.push(list[i].as_str());
        i = i + 1;
    }
    assert(texts(out@) =~= list.deep_view());
    out
}

impl StreamingAggregator {
    /// Functions to compute.
    pub closed spec fn functions(&self) -> Seq<AggFn> {
        self.functions@
    }

    /// Fields to aggregate.
    pub closed spec fn fields(&self) -> Seq<Seq<char>> {
        self.field_columns.deep_view()
    }

    /// Columns to group by.
    pub closed spec fn by(&self) -> Seq<Seq<char>> {
        self.group_by.deep_view()
    }

    /// Number of rows pushed.
    pub closed spec fn row_count(&self) -> u64 {
        self.rows
    }

    /// The groups known so far.
    pub closed spec fn group_keys(&self) -> Seq<GroupKey> {
        match self.state {
            AggState::Grouped(groups) => groups.keys(),
            AggState::Ungrouped(_) => Seq::empty(),
        }
    }

    #[verifier::type_invariant]
    spec fn is_consistent(&self) -> bool {
        match self.state {
            AggState::Grouped(groups) => {
                &&& self.by().len() > 0
                &&& groups.is_complete()
                &&& groups.field_count() == self.fields().len()
                &&& groups.rows_taken() <= self.rows
                &&& forall|g: int|
                    0 <= g < groups.keys().len() ==> (#[trigger] groups.keys()[g]).len()
                        == self.by().len()
            },
            AggState::Ungrouped(fields) => {
                &&& self.by().len() == 0
                &&& fields@.len() == self.fields().len()
                &&& forall|f: int|
                    0 <= f < fields@.len() ==> (#[trigger] fields@[f]).taken() <= self.rows
                        && fields@[f].fits_a_column()
            },
        }
    }

    /// These frames have been folded in, in this order.
    pub closed spec fn saw(&self, frames: Seq<FrameModel>) -> bool {
        match self.state {
            AggState::Grouped(groups) => groups.summarizes(
                stream_groups(frames, self.fields(), self.by()),
            ),
            AggState::Ungrouped(fields) => forall|f: int|
                0 <= f < fields@.len() ==> (#[trigger] fields@[f]).saw(frames, self.fields()[f]),
        }
    }

    /// These frames, and the first `n` rows of one more, have been folded in.
    pub closed spec fn saw_rows(
        &self,
        frames: Seq<FrameModel>,
        frame: FrameModel,
        n: int,
    ) -> bool {
        match self.state {
            AggState::Grouped(groups) => groups.summarizes(
                stream_groups(frames, self.fields(), self.by()).with_rows(
                    frame,
                    named_columns(frame, self.fields()),
                    named_texts(frame, self.by()),
                    n,
                ),
            ),
            AggState::Ungrouped(_) => false,
        }
    }

    /// Create an aggregator for `functions` over `field_columns`, grouped by
    /// `group_by` (empty for a whole-dataset aggregate).
    pub fn new(functions: &[AggFn], field_columns: &[&str], group_by: &[&str]) -> (r: Self)
        ensures
            r.functions() == functions@,
            r.fields() == texts(field_columns@),
            r.by() == texts(group_by@),
            r.row_count() == 0,
            r.group_keys() == Seq::<GroupKey>::empty(),
            r.saw(Seq::empty()),
    {
        let mut fs: Vec<AggFn> = Vec::new();
        let mut i: usize = 0;
        while i < functions.len()
            invariant
                i <= functions.len(),
                fs@ == functions@.take(i as int),
            decreases functions.len() - i,
        {
            fs.push(functions[i]);
            assert(functions@.take(i + 1) =~= functions@.take(i as int).push(functions@[i as int]));
            i = i + 1;
        }
        assert(fs@ =~= functions@);
        let fields = crate::query::plan::owned_texts(field_columns);
        let by = crate::query::plan::owned_texts(group_by);
        let state = if group_by.len() == 0 {
            let mut list: Vec<UngroupedField> = Vec::new();
            let mut f: usize = 0;
            while f < field_columns.len()
                invariant
                    f <= field_columns.len(),
                    list@.len() == f,
                    forall|j: int|
                        0 <= j < f ==> (#[trigger] list@[j]).taken() == 0 && list@[j].fits_a_column()
                            && forall|field: Seq<char>| #[trigger]
                            list@[j].saw(Seq::empty(), field),
                decreases field_columns.len() - f,
            {
                list.push(UngroupedField::new());
                f = f + 1;
            }
            AggState::Ungrouped(list)
        } else {
            AggState::Grouped(Groups::new(field_columns.len()))
        };
        StreamingAggregator { functions: fs, field_columns: fields, group_by: by, state, rows: 0 }
    }

    /// Fold one batch into the running state. The batch may be dropped after.
    ///
    /// Returns the number of each row's group (nothing if there is no
    /// group-by). Fails at the first row whose new group exceeds the memory
    /// budget.
    pub fn push(&mut self, frame: &Frame, tracker: &mut Option<MemoryTracker>) -> (r: Result<
        Vec<usize>,
        QueryError,
    >)
        requires
            old(self).row_count() + frame@.rows <= u64::MAX,
        ensures
            final(self).functions() == old(self).functions(),
            final(self).fields() == old(self).fields(),
            final(self).by() == old(self).by(),
            final(self).row_count() == old(self).row_count() + frame@.rows,
            r is Ok ==> forall|frames: Seq<FrameModel>| #[trigger]
                old(self).saw(frames) ==> final(self).saw(frames.push(frame@)),
            ({
                let by = old(self).by();
                let ks = frame_keys(frame@, by);
                let gs = old(self).group_keys();
                let start = account(*old(tracker));
                let end = account(*final(tracker));
                let bytes = streamed_group_bytes(by.len(), old(self).fields().len()) as usize;
                if by.len() == 0 {
                    r matches Ok(rows) && rows@.len() == 0 && end == start
                } else {
                    match r {
                        Ok(rows) => {
                            &&& forall|row: int|
                                0 <= row < ks.len() ==> #[trigger] failure_at(
                                    gs,
                                    ks,
                                    row,
                                    false,
                                    start,
                                    bytes,
                                ) is None
                            &&& final(self).group_keys() == groups_after(gs, ks)
                            &&& end == charged(
                                start,
                                bytes * (groups_after(gs, ks).len() - gs.len()),
                            )
                            &&& are_row_groups(rows@, groups_after(gs, ks), ks)
                        },
                        Err(e) => exists|row: int|
                            {
                                &&& #[trigger] stops_at(gs, ks, row, false, start, bytes)
                                &&& failure_at(
                                    gs,
                                    ks,
                                    row,
                                    false,
                                    start,
                                    bytes,
                                ).unwrap().reported_as(
                                    e,
                                    account_at(gs, ks, row, start, bytes),
                                    bytes,
                                )
                                &&& end == account_at(gs, ks, row, start, bytes)
                                &&& final(self).group_keys() == groups_after(gs, ks.take(row))
                                &&& forall|frames: Seq<FrameModel>| #[trigger]
                                    old(self).saw(frames) ==> final(self).saw_rows(
                                        frames,
                                        frame@,
                                        row,
                                    )
                            },
                    }
                }
            }),
    {
        proof {
            use_type_invariant(&*self);
        }
        let n: usize = frame.rows();
        let ghost before = *self;
        let ghost fields = self.fields();
        let ghost by = self.by();
        let mut taken = StreamingAggregator::new(&[], &[], &[]);
        std::mem::swap(self, &mut taken);
        let StreamingAggregator { functions, field_columns, group_by, state, rows } = taken;
        match state {
            AggState::Ungrouped(list) => {
                let mut list = list;
                let ghost old_list = list@;
                let mut f: usize = 0;
                while f < list.len()
                    invariant
                        f <= list.len(),
                        list@.len() == old_list.len(),
                        fields == field_columns.deep_view(),
                        old_list.len() == fields.len(),
                        rows + frame@.rows <= u64::MAX,
                        forall|j: int|
                            0 <= j < old_list.len() ==> (#[trigger] old_list[j]).taken() <= rows
                                && old_list[j].fits_a_column(),
                        forall|j: int| f <= j < list@.len() ==> #[trigger] list@[j] == old_list[j],
                        forall|j: int|
                            0 <= j < f ==> (#[trigger] list@[j]).taken() <= rows + frame@.rows
                                && list@[j].fits_a_column(),
                        forall|j: int, frames: Seq<FrameModel>|
                            #![trigger old_list[j].saw(frames, fields[j])]
                            0 <= j < f && old_list[j].saw(frames, fields[j]) ==> list@[j].saw(
                                frames.push(frame@),
                                fields[j],
                            ),
                    decreases list.len() - f,
                {
                    let ghost here = list@;
                    assert(field_columns@[f as int]@ == fields[f as int]);
                    assert(old_list[f as int].taken() <= rows);
                    let mut one = UngroupedField::new();
                    std::mem::swap(&mut one, &mut list[f]);
                    one.push(frame, field_columns[f].as_str());
                    std::mem::swap(&mut one, &mut list[f]);
                    assert(forall|j: int| 0 <= j < f ==> list@[j] == here[j]);
                    f = f + 1;
                }
                let done = StreamingAggregator {
                    functions,
                    field_columns,
                    group_by,
                    state: AggState::Ungrouped(list),
                    rows: rows + n as u64,
                };
                proof {
                    assert forall|frames: Seq<FrameModel>| #[trigger]
                        before.saw(frames) implies done.saw(frames.push(frame@)) by {
                        assert forall|j: int| 0 <= j < list@.len() implies (
                        #[trigger] list@[j]).saw(frames.push(frame@), fields[j]) by {
                            assert(old_list[j].saw(frames, fields[j]));
                        }
                    }
                }
                *self = done;
                Ok(Vec::new())
            },
            AggState::Grouped(groups) => {
                let mut groups = groups;
                let ghost old_groups = groups;
                let field_names = references(&field_columns);
                let key_names = references(&group_by);
                let columns = find_columns(frame, field_names.as_slice());
                let key_texts = find_texts(frame, key_names.as_slice());
                let bytes: usize = group_bytes(48, 48, group_by.len(), field_columns.len());
                let r = groups.take_frame(frame, &columns, &key_texts, false, tracker, bytes);
                let ghost mut stop: int = 0;
                proof {
                    let ks = frame_keys(frame@, by);
                    lemma_parts(old_groups.keys(), named_texts(frame@, by), frame@.rows as int);
                    if r is Err {
                        let row = choose|row: int|
                            {
                                &&& #[trigger] stops_at(
                                    old_groups.keys(),
                                    ks,
                                    row,
                                    false,
                                    account(*old(tracker)),
                                    bytes,
                                )
                                &&& groups.rows_taken() == old_groups.rows_taken() + row
                                &&& groups.keys() == groups_after(old_groups.keys(), ks.take(row))
                                &&& failure_at(
                                    old_groups.keys(),
                                    ks,
                                    row,
                                    false,
                                    account(*old(tracker)),
                                    bytes,
                                ).unwrap().reported_as(
                                    r->Err_0,
                                    account_at(
                                        old_groups.keys(),
                                        ks,
                                        row,
                                        account(*old(tracker)),
                                        bytes,
                                    ),
                                    bytes,
                                )
                                &&& account(*tracker) == account_at(
                                    old_groups.keys(),
                                    ks,
                                    row,
                                    account(*old(tracker)),
                                    bytes,
                                )
                                &&& forall|m: GroupsModel| #[trigger]
                                    old_groups.summarizes(m) ==> groups.summarizes(
                                        m.with_rows(
                                            frame@,
                                            columns_of(columns@),
                                            text_columns_of(key_texts@),
                                            row,
                                        ),
                                    )
                            };
                        stop = row;
                        assert(ks.take(row) =~= row_keys(named_texts(frame@, by), row));
                        lemma_parts(old_groups.keys(), named_texts(frame@, by), row);
                    }
                }
                let done = StreamingAggregator {
                    functions,
                    field_columns,
                    group_by,
                    state: AggState::Grouped(groups),
                    rows: rows + n as u64,
                };
                proof {
                    if r is Ok {
                        assert forall|frames: Seq<FrameModel>| #[trigger]
                            before.saw(frames) implies done.saw(frames.push(frame@)) by {
                            assert(frames.push(frame@).drop_last() =~= frames);
                        }
                    } else {
                        assert forall|frames: Seq<FrameModel>| #[trigger]
                            before.saw(frames) implies done.saw_rows(frames, frame@, stop) by {}
                    }
                }
                *self = done;
                r
            },
        }
    }

    /// Finalise the accumulated state into a result table, and charge the
    /// memory that it takes.
    pub fn finish(self, tracker: &mut Option<MemoryTracker>) -> (r: Result<
        ResultTable,
        QueryError,
    >)
        ensures
            exists|table: ResultTable, size: usize|
                self.is_shown_by(&table) && at_least(size, table_least(&table))
                    && #[trigger] settles(
                    Ok(table),
                    account(*old(tracker)),
                    r,
                    account(*final(tracker)),
                    size,
                ),
    {
        let ghost start = account(*tracker);
        let ghost this = self;
        match self.table() {
            Ok(table) => {
                let r = charge_table(table, tracker);
                proof {
                    let size = choose|size: usize|
                        at_least(size, table_least(&table)) && #[trigger] settles(
                            Ok(table),
                            start,
                            r,
                            account(*tracker),
                            size,
                        );
                    assert(this.is_shown_by(&table));
                    assert(settles(Ok(table), start, r, account(*tracker), size));
                }
                r
            },
            Err(e) => Err(e),
        }
    }

    /// The table shows the aggregates of the frames that were folded in.
    pub open spec fn is_shown_by(&self, table: &ResultTable) -> bool {
        forall|frames: Seq<FrameModel>| #[trigger]
            self.saw(frames) ==> if self.by().len() == 0 {
                shows_stream(table, frames, self.fields(), self.functions())
            } else {
                shows_groups(
                    table,
                    stream_groups(frames, self.fields(), self.by()),
                    self.by(),
                    self.fields(),
                    self.functions(),
                )
            }
    }

    /// The table of results.
    fn table(self) -> (r: Result<ResultTable, QueryError>)
        ensures
            r matches Ok(table) && self.is_shown_by(&table),
    {
        proof {
            use_type_invariant(&self);
        }
        match &self.state {
            AggState::Ungrouped(list) => ungrouped_table(
                list,
                self.functions.as_slice(),
                &self.field_columns,
            ),
            AggState::Grouped(groups) => {
                let field_names = references(&self.field_columns);
                let key_names = references(&self.group_by);
                let (keys, accumulators) = groups.lists();
                proof {
                    assert forall|g: int| 0 <= g < keys@.len() implies (#[trigger] keys@[g])@.len()
                        == key_names@.len() by {
                        assert(groups.keys()[g] == optional_texts(keys@[g]@));
                        assert(groups.keys()[g].len() == self.by().len());
                    }
                }
                group_table(
                    keys,
                    accumulators,
                    self.functions.as_slice(),
                    field_names.as_slice(),
                    key_names.as_slice(),
                )
            },
        }
    }
}

/// Keys that are added have one part per column.
proof fn lemma_parts(
    gs: Seq<GroupKey>,
    by: Seq<Option<Seq<Option<Seq<char>>>>>,
    n: int,
)
    requires
        0 <= n,
        forall|g: int| 0 <= g < gs.len() ==> (#[trigger] gs[g]).len() == by.len(),
    ensures
        forall|g: int|
            0 <= g < groups_after(gs, row_keys(by, n)).len() ==> (#[trigger] groups_after(
                gs,
                row_keys(by, n),
            )[g]).len() == by.len(),
    decreases n,
{
    if n > 0 {
        lemma_parts(gs, by, n - 1);
        assert(row_keys(by, n).drop_last() =~= row_keys(by, n - 1));
        assert(row_keys(by, n).last() == row_key(by, n - 1));
        let before = groups_after(gs, row_keys(by, n - 1));
        let all = groups_after(gs, row_keys(by, n));
        assert forall|g: int| 0 <= g < all.len() implies (#[trigger] all[g]).len() == by.len() by {
            if g < before.len() {
                assert(all[g] == before[g]);
            }
        }
    } else {
        assert(row_keys(by, n) =~= Seq::empty());
    }
}

/// The result table of an ungrouped fold.
fn ungrouped_table(list: &Vec<UngroupedField>, functions: &[AggFn], names: &Vec<String>) -> (r: Result<
    ResultTable,
    QueryError,
>)
    requires
        list@.len() == names@.len(),
        forall|f: int| 0 <= f < list@.len() ==> (#[trigger] list@[f]).fits_a_column(),
    ensures
        r is Ok,
        forall|frames: Seq<FrameModel>|
            (forall|f: int|
                0 <= f < list@.len() ==> (#[trigger] list@[f]).saw(frames, names.deep_view()[f]))
                ==> #[trigger] shows_stream(&r.unwrap(), frames, names.deep_view(), functions@),
{
    let ghost fields = names.deep_view();
    let mut results: Vec<ResultColumn> = Vec::new();
    let mut i: usize = 0;
    assert(fields.take(0) =~= Seq::empty());
    while i < list.len()
        invariant
            i <= list.len(),
            fields == names.deep_view(),
            list@.len() == names@.len(),
            forall|f: int| 0 <= f < list@.len() ==> (#[trigger] list@[f]).fits_a_column(),
            results@.len() == result_pairs(fields.take(i as int), functions@).len(),
            forall|frames: Seq<FrameModel>, p: int|
                #![trigger all_saw(list@, frames, fields), results@[p]]
                all_saw(list@, frames, fields) && 0 <= p < results@.len() ==> {
                    let pair = result_pairs(fields.take(i as int), functions@)[p];
                    results@[p].shows(
                        result_name(fields[pair.0], pair.1),
                        seq![stream_aggregate(frames, fields[pair.0], pair.1)],
                    )
                },
        decreases list.len() - i,
    {
        let ghost done = result_pairs(fields.take(i as int), functions@);
        let ghost next = done + functions@.map_values(|f: AggFn| (i as int, f));
        proof {
            lemma_result_pairs(fields.take(i as int), functions@);
            assert(fields.take(i + 1).drop_last() =~= fields.take(i as int));
        }
        let mut k: usize = 0;
        while k < functions.len()
            invariant
                k <= functions.len(),
                i < list.len(),
                fields == names.deep_view(),
                list@.len() == names@.len(),
                forall|f: int| 0 <= f < list@.len() ==> (#[trigger] list@[f]).fits_a_column(),
                next == done + functions@.map_values(|f: AggFn| (i as int, f)),
                results@.len() == done.len() + k,
                forall|frames: Seq<FrameModel>, p: int|
                    #![trigger all_saw(list@, frames, fields), results@[p]]
                    all_saw(list@, frames, fields) && 0 <= p < results@.len() ==> {
                        results@[p].shows(
                            result_name(fields[next[p].0], next[p].1),
                            seq![stream_aggregate(frames, fields[next[p].0], next[p].1)],
                        )
                    },
            decreases functions.len() - k,
        {
            let func = functions[k];
            assert(list@[i as int].fits_a_column());
            let value = list[i].finalize(func);
            let mut values: Vec<AggResult> = Vec::new();
            values.push(value);
            let name = result_column_name(names[i].as_str(), func);
            proof {
                lemma_possible_scale(values@);
                assert(next[done.len() + k] == (i as int, func));
                assert(names@[i as int]@ == fields[i as int]);
            }
            match agg_result_column(name.as_str(), values.as_slice()) {
                Ok(column) => {
                    let ghost before = results@;
                    results.push(column);
                    proof {
                        assert forall|frames: Seq<FrameModel>, p: int|
                            #![trigger all_saw(list@, frames, fields), results@[p]]
                            all_saw(list@, frames, fields) && 0 <= p
                                < results@.len() implies results@[p].shows(
                            result_name(fields[next[p].0], next[p].1),
                            seq![stream_aggregate(frames, fields[next[p].0], next[p].1)],
                        ) by {
                            if p < before.len() {
                                assert(results@[p] == before[p]);
                            } else {
                                assert(list@[i as int].saw(frames, fields[i as int]));
                                assert(values@ =~= seq![
                                    stream_aggregate(frames, fields[i as int], func),
                                ]);
                            }
                        }
                    }
                },
                Err(e) => {
                    return Err(e);
                },
            }
            k = k + 1;
        }
        assert(next == result_pairs(fields.take(i + 1), functions@));
        i = i + 1;
    }
    assert(fields.take(i as int) =~= fields);
    let table = ResultTable { keys: Vec::new(), results };
    proof {
        assert forall|frames: Seq<FrameModel>|
            (forall|f: int|
                0 <= f < list@.len() ==> (#[trigger] list@[f]).saw(
                    frames,
                    names.deep_view()[f],
                )) implies #[trigger] shows_stream(&table, frames, fields, functions@) by {
            assert(all_saw(list@, frames, fields));
        }
    }
    Ok(table)
}

spec fn all_saw(
    list: Seq<UngroupedField>,
    frames: Seq<FrameModel>,
    fields: Seq<Seq<char>>,
) -> bool {
    forall|f: int| 0 <= f < list.len() ==> (#[trigger] list[f]).saw(frames, fields[f])
}

/// The rows of some frames together.
pub open spec fn total_rows(frames: Seq<FrameModel>) -> nat
    decreases frames.len(),
{
    if frames.len() == 0 {
        0
    } else {
        total_rows(frames.drop_last()) + frames.last().rows
    }
}

/// The row of a frame at which a streamed aggregation stops for want of
/// memory, and the error that it stops with.
pub open spec fn stream_stops_at(
    frames: Seq<FrameModel>,
    fields: Seq<Seq<char>>,
    by: Seq<Seq<char>>,
    start: Option<(int, int)>,
    end: Option<(int, int)>,
    e: QueryError,
    i: int,
    row: int,
) -> bool {
    let gs = stream_groups(frames.take(i), fields, by).keys;
    let ks = frame_keys(frames[i], by);
    let bytes = streamed_group_bytes(by.len(), fields.len()) as usize;
    let here = charged(start, bytes * gs.len());
    &&& 0 <= i < frames.len()
    &&& stops_at(gs, ks, row, false, here, bytes)
    &&& failure_at(gs, ks, row, false, here, bytes).unwrap().reported_as(
        e,
        account_at(gs, ks, row, here, bytes),
        bytes,
    )
    &&& end == account_at(gs, ks, row, here, bytes)
}

/// What some frames stand for.
pub open spec fn frames_of(frames: Seq<Frame>) -> Seq<FrameModel> {
    frames.map_values(|frame: Frame| frame@)
}

/// The groups of some frames fit into the account.
pub open spec fn stream_fits(
    frames: Seq<FrameModel>,
    fields: Seq<Seq<char>>,
    by: Seq<Seq<char>>,
    start: Option<(int, int)>,
) -> bool {
    let groups = stream_groups(frames, fields, by).keys.len();
    let bytes = streamed_group_bytes(by.len(), fields.len());
    groups > 0 ==> (start matches Some((used, limit)) ==> used + bytes * groups <= limit)
}

/// The outcome of streaming some frames, of which none lacks a column, into an
/// aggregation: its table, or the row at which it stops for want of memory.
pub open spec fn stream_outcome(
    r: Result<ResultTable, QueryError>,
    frames: Seq<FrameModel>,
    functions: Seq<AggFn>,
    fields: Seq<Seq<char>>,
    by: Seq<Seq<char>>,
    start: Option<(int, int)>,
    end: Option<(int, int)>,
) -> bool {
    let bytes = streamed_group_bytes(by.len(), fields.len());
    if by.len() == 0 {
        r matches Ok(table) && shows_stream(&table, frames, fields, functions) && end == start
    } else {
        match r {
            Ok(table) => {
                let model = stream_groups(frames, fields, by);
                &&& shows_groups(&table, model, by, fields, functions)
                &&& stream_fits(frames, fields, by, start)
                &&& end == charged(start, bytes * model.keys.len())
            },
            Err(e) => exists|i: int, row: int| #[trigger]
                stream_stops_at(frames, fields, by, start, end, e, i, row),
        }
    }
}

/// The frame has all the columns that an aggregation reads, the group-by
/// columns as texts.
pub open spec fn is_complete_frame(
    frame: FrameModel,
    fields: Seq<Seq<char>>,
    by: Seq<Seq<char>>,
) -> bool {
    first_untexted(frame, by, 0) is None && first_missing(frame, fields, 0) is None
}

/// The error for a frame that lacks a column.
pub open spec fn is_incomplete_as(
    frame: FrameModel,
    fields: Seq<Seq<char>>,
    by: Seq<Seq<char>>,
    e: QueryError,
) -> bool {
    if let Some(i) = first_untexted(frame, by, 0) {
        e.is_validation("group-by column '"@ + by[i] + "' not found or not string"@)
    } else if let Some(i) = first_missing(frame, fields, 0) {
        e.is_validation("column '"@ + fields[i] + "' not found"@)
    } else {
        false
    }
}

/// The first frame that lacks a column, from the `from`-th on.
pub open spec fn first_incomplete(
    frames: Seq<FrameModel>,
    fields: Seq<Seq<char>>,
    by: Seq<Seq<char>>,
    from: int,
) -> Option<int>
    decreases frames.len() - from,
{
    if from < 0 || from >= frames.len() {
        None
    } else if !is_complete_frame(frames[from], fields, by) {
        Some(from)
    } else {
        first_incomplete(frames, fields, by, from + 1)
    }
}

/// Check that every frame has the columns that an aggregation reads.
fn check_frames(frames: &Vec<Frame>, field_columns: &[&str], group_by: &[&str]) -> (r: Result<
    (),
    QueryError,
>)
    ensures
        ({
            let all = frames_of(frames@);
            let fields = texts(field_columns@);
            let by = texts(group_by@);
            match first_incomplete(all, fields, by, 0) {
                None => r is Ok,
                Some(i) => r matches Err(e) && is_incomplete_as(all[i], fields, by, e),
            }
        }),
{
    let ghost all = frames_of(frames@);
    let ghost fields = texts(field_columns@);
    let ghost by = texts(group_by@);
    let mut i: usize = 0;
    while i < frames.len()
        invariant
            i <= frames.len(),
            all == frames_of(frames@),
            fields == texts(field_columns@),
            by == texts(group_by@),
            first_incomplete(all, fields, by, 0) == first_incomplete(all, fields, by, i as int),
        decreases frames.len() - i,
    {
        let frame = &frames[i];
        assert(all[i as int] == frame@);
        let key_texts = find_texts(frame, group_by);
        match check_texts(frame, group_by, &key_texts) {
            Ok(_) => {},
            Err(e) => {
                return Err(e);
            },
        }
        let columns = find_columns(frame, field_columns);
        match check_columns(frame, field_columns, &columns) {
            Ok(_) => {},
            Err(e) => {
                return Err(e);
            },
        }
        i = i + 1;
    }
    Ok(())
}

/// What aggregating several batches comes to.
pub open spec fn streamed_as(
    r: Result<ResultTable, QueryError>,
    all: Seq<FrameModel>,
    functions: Seq<AggFn>,
    fields: Seq<Seq<char>>,
    by: Seq<Seq<char>>,
    start: Option<(int, int)>,
    end: Option<(int, int)>,
) -> bool {
    if all.len() == 0 {
        r matches Err(e) && e.is_validation("no batches to aggregate"@) && end == start
    } else if let Some(i) = first_incomplete(all, fields, by, 0) {
        r matches Err(e) && is_incomplete_as(all[i], fields, by, e) && end == start
    } else {
        exists|made: Result<ResultTable, QueryError>, held: Option<(int, int)>, size: usize|
            stream_outcome(made, all, functions, fields, by, start, held) && (
            made matches Ok(table) ==> at_least(size, table_least(&table)))
                && #[trigger] settles(made, held, r, end, size)
    }
}

/// Streaming group-by aggregation over multiple batches, for callers that
/// already hold them. Every batch has the columns that are read.
pub fn aggregate_grouped_streaming(
    frames: &Vec<Frame>,
    functions: &[AggFn],
    field_columns: &[&str],
    group_by: &[&str],
    tracker: &mut Option<MemoryTracker>,
) -> (r: Result<ResultTable, QueryError>)
    requires
        total_rows(frames_of(frames@)) <= u64::MAX,
    ensures
        streamed_as(
            r,
            frames_of(frames@),
            functions@,
            texts(field_columns@),
            texts(group_by@),
            account(*old(tracker)),
            account(*final(tracker)),
        ),
{
    let ghost all = frames_of(frames@);
    let ghost fields = texts(field_columns@);
    let ghost by = texts(group_by@);
    let ghost start = account(*tracker);
    let ghost bytes = streamed_group_bytes(by.len(), fields.len());
    if frames.len() == 0 {
        return Err(invalid("no batches to aggregate"));
    }
    match check_frames(frames, field_columns, group_by) {
        Ok(_) => {},
        Err(e) => {
            return Err(e);
        },
    }
    let mut agg = StreamingAggregator::new(functions, field_columns, group_by);
    let mut i: usize = 0;
    proof {
        assert(all.take(0) =~= Seq::empty());
        assert(bytes * 0 == 0);
    }
    while i < frames.len()
        invariant
            i <= frames.len(),
            all == frames_of(frames@),
            all.len() > 0,
            first_incomplete(all, fields, by, 0) is None,
            total_rows(all) <= u64::MAX,
            by == texts(group_by@),
            fields == texts(field_columns@),
            bytes == streamed_group_bytes(by.len(), fields.len()),
            bytes <= usize::MAX,
            agg.functions() == functions@,
            agg.fields() == fields,
            agg.by() == by,
            agg.row_count() == total_rows(all.take(i as int)),
            agg.saw(all.take(i as int)),
            by.len() > 0 ==> agg.group_keys() == stream_groups(
                all.take(i as int),
                fields,
                by,
            ).keys && stream_fits(all.take(i as int), fields, by, start) && account(*tracker)
                == charged(start, bytes * agg.group_keys().len()),
            by.len() == 0 ==> account(*tracker) == start,
            start == account(*old(tracker)),
        decreases frames.len() - i,
    {
        let ghost was = agg.group_keys();
        let ghost here = account(*tracker);
        proof {
            assert(all.take(i + 1).drop_last() =~= all.take(i as int));
            assert(all.take(i + 1).last() == all[i as int]);
            lemma_total_rows(all, i + 1);
            lemma_stream_groups(all.take(i as int), fields, by);
        }
        match agg.push(&frames[i], tracker) {
            Ok(_) => {
                proof {
                    let frame = all[i as int];
                    let ks = frame_keys(frame, by);
                    assert(all.take(i as int).push(frame) =~= all.take(i + 1));
                    if by.len() > 0 {
                        let model = stream_groups(all.take(i as int), fields, by);
                        lemma_with_rows(
                            model,
                            frame,
                            named_columns(frame, fields),
                            named_texts(frame, by),
                            frame.rows as int,
                        );
                        let now = agg.group_keys();
                        let new = now.len() - was.len();
                        assert(bytes * was.len() + bytes * new == bytes * now.len())
                            by (nonlinear_arith)
                            requires
                                new == now.len() - was.len(),
                        ;
                        lemma_fits(was, ks, ks.len() as int, here, bytes as usize);
                    }
                }
            },
            Err(e) => {
                proof {
                    let frame = all[i as int];
                    let ks = frame_keys(frame, by);
                    let row = choose|row: int|
                        {
                            &&& #[trigger] stops_at(was, ks, row, false, here, bytes as usize)
                            &&& failure_at(
                                was,
                                ks,
                                row,
                                false,
                                here,
                                bytes as usize,
                            ).unwrap().reported_as(
                                e,
                                account_at(was, ks, row, here, bytes as usize),
                                bytes as usize,
                            )
                            &&& account(*tracker) == account_at(was, ks, row, here, bytes as usize)
                        };
                    assert(stream_stops_at(
                        all,
                        fields,
                        by,
                        start,
                        account(*tracker),
                        e,
                        i as int,
                        row,
                    ));
                    let made: Result<ResultTable, QueryError> = Err(e);
                    let held = account(*tracker);
                    assert(stream_outcome(made, all, functions@, fields, by, start, held));
                    assert(settles(made, held, made, held, 0));
                }
                return Err(e);
            },
        }
        i = i + 1;
    }
    assert(all.take(i as int) =~= all);
    let ghost held = account(*tracker);
    let ghost done = agg;
    let r = agg.finish(tracker);
    proof {
        let (table, size) = choose|table: ResultTable, size: usize|
            done.is_shown_by(&table) && at_least(size, table_least(&table))
                && #[trigger] settles(
                Ok(table),
                held,
                r,
                account(*tracker),
                size,
            );
        let made: Result<ResultTable, QueryError> = Ok(table);
        assert(done.saw(all));
        assert(stream_outcome(made, all, functions@, fields, by, start, held));
        assert(settles(made, held, r, account(*tracker), size));
    }
    r
}

proof fn lemma_total_rows(frames: Seq<FrameModel>, n: int)
    requires
        0 <= n <= frames.len(),
    ensures
        total_rows(frames.take(n)) <= total_rows(frames),
    decreases frames.len() - n,
{
    if n < frames.len() {
        lemma_total_rows(frames, n + 1);
        assert(frames.take(n + 1).drop_last() =~= frames.take(n));
    } else {
        assert(frames.take(n) =~= frames);
    }
}

/// The groups of some frames have readings for every field.
pub proof fn lemma_stream_groups(
    frames: Seq<FrameModel>,
    fields: Seq<Seq<char>>,
    by: Seq<Seq<char>>,
)
    ensures
        stream_groups(frames, fields, by).is_groups(fields.len()),
    decreases frames.len(),
{
    if frames.len() > 0 {
        lemma_stream_groups(frames.drop_last(), fields, by);
        let frame = frames.last();
        lemma_with_rows(
            stream_groups(frames.drop_last(), fields, by),
            frame,
            named_columns(frame, fields),
            named_texts(frame, by),
            frame.rows as int,
        );
    }
}

/// Where no row fails, the new groups fit into the account.
proof fn lemma_fits(
    gs: Seq<GroupKey>,
    ks: Seq<GroupKey>,
    n: int,
    start: Option<(int, int)>,
    bytes: usize,
)
    requires
        0 <= n <= ks.len(),
        forall|row: int|
            0 <= row < ks.len() ==> #[trigger] failure_at(
                gs,
                ks,
                row,
                false,
                start,
                bytes,
            ) is None,
    ensures
        groups_after(gs, ks.take(n)).len() >= gs.len(),
        groups_after(gs, ks.take(n)).len() > gs.len() ==> (start matches Some((used, limit)) ==> used
            + bytes * (groups_after(gs, ks.take(n)).len() - gs.len()) <= limit),
        n == ks.len() ==> ks.take(n) == ks,
    decreases n,
{
    if n == ks.len() {
        assert(ks.take(n) =~= ks);
    }
    if n > 0 {
        lemma_fits(gs, ks, n - 1, start, bytes);
        assert(ks.take(n).drop_last() =~= ks.take(n - 1));
        assert(ks.take(n).last() == ks[n - 1]);
        assert(failure_at(gs, ks, n - 1, false, start, bytes) is None);
        let before = groups_after(gs, ks.take(n - 1));
        let extra = before.len() - gs.len();
        assert(bytes * (extra + 1) == bytes * extra + bytes) by (nonlinear_arith);
    } else {
        assert(ks.take(0) =~= Seq::empty());
    }
}

} // verus!
