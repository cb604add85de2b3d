//! The accumulators of all groups.
use vstd::prelude::*;

use crate::query::accumulator::{IncrementalAccumulator, Moment, Reading};
use crate::query::error::QueryError;
use crate::query::frame::{ColumnData, Frame};
#[allow(unused_imports)]
use crate::query::frame::{optional_texts, DataModel, FrameModel};
use crate::query::grouping::GroupIndex;
#[allow(unused_imports)]
use crate::query::grouping::{
    account, charged, distinct, group_failure, groups_after, groups_are_distinct, GroupKey,
};
use crate::query::memory::MemoryTracker;

verus! {

/// The groups, and the readings of each field in each group.
#[verifier::ext_equal]
pub struct GroupsModel {
    /// Keys of the groups.
    pub keys: Seq<GroupKey>,
    /// Readings by group and field.
    pub readings: Seq<Seq<Seq<(Reading, Moment)>>>,
}

/// No groups.
pub open spec fn no_groups() -> GroupsModel {
    GroupsModel { keys: Seq::empty(), readings: Seq::empty() }
}

/// The readings of a field after a row was taken. A frame that lacks the field
/// contributes nothing.
pub open spec fn with_reading(
    readings: Seq<(Reading, Moment)>,
    frame: FrameModel,
    column: Option<DataModel>,
    row: int,
) -> Seq<(Reading, Moment)> {
    match column {
        None => readings,
        Some(data) => match data.reading(row) {
            None => readings,
            Some(reading) => readings.push((reading, frame.moment(row))),
        },
    }
}

/// The key of a row. A column that a frame lacks reads as null.
pub open spec fn row_key(columns: Seq<Option<Seq<Option<Seq<char>>>>>, row: int) -> GroupKey {
    Seq::new(
        columns.len(),
        |c: int|
            match columns[c] {
                Some(cells) => cells[row],
                None => None,
            },
    )
}

/// The keys of the first `n` rows.
pub open spec fn row_keys(
    columns: Seq<Option<Seq<Option<Seq<char>>>>>,
    n: int,
) -> Seq<GroupKey> {
    Seq::new(n as nat, |row: int| row_key(columns, row))
}

impl GroupsModel {
    /// Every group has readings for each of `fields` fields.
    pub open spec fn is_groups(self, fields: nat) -> bool {
        &&& distinct(self.keys)
        &&& self.readings.len() == self.keys.len()
        &&& forall|g: int|
            0 <= g < self.readings.len() ==> (#[trigger] self.readings[g]).len() == fields
    }

    /// The groups with one for this key, which starts empty if it is new.
    pub open spec fn with_key(self, key: GroupKey, fields: nat) -> GroupsModel {
        if self.keys.contains(key) {
            self
        } else {
            GroupsModel {
                keys: self.keys.push(key),
                readings: self.readings.push(Seq::new(fields, |f: int| Seq::empty())),
            }
        }
    }

    /// The groups after a row with this key was taken.
    pub open spec fn with_row(
        self,
        frame: FrameModel,
        columns: Seq<Option<DataModel>>,
        key: GroupKey,
        row: int,
    ) -> GroupsModel {
        let known = self.with_key(key, columns.len());
        let g = known.keys.index_of(key);
        GroupsModel {
            keys: known.keys,
            readings: known.readings.update(
                g,
                Seq::new(
                    columns.len(),
                    |f: int| with_reading(known.readings[g][f], frame, columns[f], row),
                ),
            ),
        }
    }

    /// The groups after the first `n` rows of a frame were taken.
    pub open spec fn with_rows(
        self,
        frame: FrameModel,
        columns: Seq<Option<DataModel>>,
        by: Seq<Option<Seq<Option<Seq<char>>>>>,
        n: int,
    ) -> GroupsModel
        decreases n,
    {
        if n <= 0 {
            self
        } else {
            self.with_rows(frame, columns, by, n - 1).with_row(
                frame,
                columns,
                row_key(by, n - 1),
                n - 1,
            )
        }
    }
}

/// The number of a key is where it stands.
pub proof fn lemma_index_of(keys: Seq<GroupKey>, g: int)
    requires
        distinct(keys),
        0 <= g < keys.len(),
    ensures
        keys.index_of(keys[g]) == g,
{
    let i = keys.index_of(keys[g]);
    assert(keys.contains(keys[g]));
    if i < g {
        assert(keys[i] != keys[g]);
    } else if g < i {
        assert(keys[g] != keys[i]);
    }
}

/// Taking rows keeps the shape of the groups, and adds the groups of new keys.
pub proof fn lemma_with_rows(
    m: GroupsModel,
    frame: FrameModel,
    columns: Seq<Option<DataModel>>,
    by: Seq<Option<Seq<Option<Seq<char>>>>>,
    n: int,
)
    requires
        m.is_groups(columns.len()),
        0 <= n,
    ensures
        m.with_rows(frame, columns, by, n).is_groups(columns.len()),
        m.with_rows(frame, columns, by, n).keys == groups_after(m.keys, row_keys(by, n)),
    decreases n,
{
    if n > 0 {
        lemma_with_rows(m, frame, columns, by, n - 1);
        assert(row_keys(by, n).drop_last() =~= row_keys(by, n - 1));
        assert(row_keys(by, n).last() == row_key(by, n - 1));
        let before = m.with_rows(frame, columns, by, n - 1);
        groups_are_distinct(m.keys, row_keys(by, n));
    } else {
        assert(row_keys(by, n) =~= Seq::empty());
    }
}

/// The rows below `n` whose key is `key`, in order.
pub open spec fn rows_with_key(
    by: Seq<Option<Seq<Option<Seq<char>>>>>,
    key: GroupKey,
    n: int,
) -> Seq<int>
    decreases n,
{
    if n <= 0 {
        Seq::empty()
    } else if row_key(by, n - 1) == key {
        rows_with_key(by, key, n - 1).push(n - 1)
    } else {
        rows_with_key(by, key, n - 1)
    }
}

/// A group is made of the rows with its key, in their order, and of no others:
/// its readings of a field are those of the column in these rows.
pub proof fn a_group_is_the_rows_with_its_key(
    frame: FrameModel,
    columns: Seq<Option<DataModel>>,
    by: Seq<Option<Seq<Option<Seq<char>>>>>,
    n: int,
    g: int,
    f: int,
)
    requires
        0 <= n,
        0 <= g < no_groups().with_rows(frame, columns, by, n).keys.len(),
        0 <= f < columns.len(),
        columns[f] is Some,
    ensures
        ({
            let groups = no_groups().with_rows(frame, columns, by, n);
            groups.readings[g][f] == frame.readings(
                columns[f].unwrap(),
                rows_with_key(by, groups.keys[g], n),
            )
        }),
    decreases n,
{
    if n > 0 {
        let data = columns[f].unwrap();
        let before = no_groups().with_rows(frame, columns, by, n - 1);
        let after = no_groups().with_rows(frame, columns, by, n);
        let key = row_key(by, n - 1);
        lemma_with_rows(no_groups(), frame, columns, by, n - 1);
        lemma_with_rows(no_groups(), frame, columns, by, n);
        let known = before.with_key(key, columns.len());
        let at = known.keys.index_of(key);
        assert(known.keys.contains(key)) by {
            if !before.keys.contains(key) {
                assert(known.keys[before.keys.len() as int] == key);
            }
        }
        let rows = rows_with_key(by, after.keys[g], n - 1);
        if g < before.keys.len() {
            a_group_is_the_rows_with_its_key(frame, columns, by, n - 1, g, f);
            assert(known.readings[g][f] == frame.readings(data, rows));
        } else {
            assert(after.keys[g] == key);
            lemma_no_rows(before.keys, by, key, n - 1);
            assert(rows =~= Seq::empty());
            assert(known.readings[g][f] =~= Seq::empty());
            assert(known.readings[g][f] == frame.readings(data, rows));
        }
        lemma_index_of(known.keys, g);
        if after.keys[g] == key {
            assert(at == g);
            assert(after.readings[g][f] == with_reading(
                known.readings[g][f],
                frame,
                columns[f],
                n - 1,
            ));
            assert(rows.push(n - 1).drop_last() =~= rows);
            assert(rows.push(n - 1).last() == n - 1);
            assert(rows_with_key(by, after.keys[g], n) == rows.push(n - 1));
            assert(frame.readings(data, rows.push(n - 1)) == with_reading(
                frame.readings(data, rows),
                frame,
                columns[f],
                n - 1,
            ));
        } else {
            assert(at != g);
            assert(after.readings[g] == known.readings[g]);
            assert(rows_with_key(by, after.keys[g], n) == rows);
        }
    }
}

proof fn lemma_no_rows(
    keys: Seq<GroupKey>,
    by: Seq<Option<Seq<Option<Seq<char>>>>>,
    key: GroupKey,
    n: int,
)
    requires
        0 <= n,
        keys == groups_after(Seq::empty(), row_keys(by, n)),
        !keys.contains(key),
    ensures
        rows_with_key(by, key, n).len() == 0,
{
    groups_are_distinct(Seq::empty(), row_keys(by, n));
    assert forall|row: int| 0 <= row < n implies row_key(by, row) != key by {
        assert(row_keys(by, n)[row] == row_key(by, row));
    }
    lemma_none(by, key, n);
}

pub proof fn lemma_none(by: Seq<Option<Seq<Option<Seq<char>>>>>, key: GroupKey, n: int)
    requires
        0 <= n,
        forall|row: int| 0 <= row < n ==> #[trigger] row_key(by, row) != key,
    ensures
        rows_with_key(by, key, n).len() == 0,
    decreases n,
{
    if n > 0 {
        assert(row_key(by, n - 1) != key);
        lemma_none(by, key, n - 1);
    }
}

/// What some optional columns stand for.
pub open spec fn columns_of(columns: Seq<Option<&ColumnData>>) -> Seq<Option<DataModel>> {
    columns.map_values(
        |c: Option<&ColumnData>|
            match c {
                Some(data) => Some(data@),
                None => None::<DataModel>,
            },
    )
}

/// What some optional text columns stand for.
pub open spec fn text_columns_of(
    columns: Seq<Option<&Vec<Option<String>>>>,
) -> Seq<Option<Seq<Option<Seq<char>>>>> {
    columns.map_values(
        |c: Option<&Vec<Option<String>>>|
            match c {
                Some(cells) => Some(optional_texts(cells@)),
                None => None::<Seq<Option<Seq<char>>>>,
            },
    )
}

/// All columns have `rows` cells.
pub open spec fn are_columns(columns: Seq<Option<DataModel>>, rows: nat) -> bool {
    forall|c: int|
        0 <= c < columns.len() && columns[c] is Some ==> (#[trigger] columns[c]).unwrap().is_column(
            rows,
        )
}

/// All text columns have `rows` cells.
pub open spec fn are_text_columns(
    columns: Seq<Option<Seq<Option<Seq<char>>>>>,
    rows: nat,
) -> bool {
    forall|c: int|
        0 <= c < columns.len() && columns[c] is Some ==> (#[trigger] columns[c]).unwrap().len()
            == rows
}

/// The row at which a frame stops being taken, and why: nothing fails in the
/// rows before it.
pub open spec fn stops_at(
    gs: Seq<GroupKey>,
    ks: Seq<GroupKey>,
    row: int,
    limited: bool,
    start: Option<(int, int)>,
    bytes: usize,
) -> bool {
    &&& 0 <= row < ks.len()
    &&& failure_at(gs, ks, row, limited, start, bytes) is Some
    &&& forall|r: int| 0 <= r < row ==> #[trigger] failure_at(gs, ks, r, limited, start, bytes) is None
}

/// The account when a row is reached.
pub open spec fn account_at(
    gs: Seq<GroupKey>,
    ks: Seq<GroupKey>,
    row: int,
    start: Option<(int, int)>,
    bytes: usize,
) -> Option<(int, int)> {
    charged(start, bytes * (groups_after(gs, ks.take(row)).len() - gs.len()))
}

/// What goes wrong with a row, if anything does.
pub open spec fn failure_at(
    gs: Seq<GroupKey>,
    ks: Seq<GroupKey>,
    row: int,
    limited: bool,
    start: Option<(int, int)>,
    bytes: usize,
) -> Option<crate::query::grouping::GroupFailure> {
    group_failure(
        groups_after(gs, ks.take(row)),
        ks[row],
        limited,
        account_at(gs, ks, row, start, bytes),
        bytes,
    )
}

/// Lists of keys and of accumulators summarize these groups.
pub open spec fn lists_summarize(
    keys: Seq<Vec<Option<String>>>,
    accumulators: Seq<Vec<IncrementalAccumulator>>,
    fields: nat,
    m: GroupsModel,
) -> bool {
    &&& m.is_groups(fields)
    &&& keys.len() == m.keys.len()
    &&& accumulators.len() == m.keys.len()
    &&& forall|g: int| 0 <= g < keys.len() ==> optional_texts((#[trigger] keys[g])@) == m.keys[g]
    &&& forall|g: int|
        0 <= g < accumulators.len() ==> (#[trigger] accumulators[g])@.len() == fields
    &&& forall|g: int, f: int|
        0 <= g < accumulators.len() && 0 <= f < fields ==> (
        #[trigger] accumulators[g]@[f]).summarizes(m.readings[g][f])
}

/// The scales of what was taken are ones that a column can have.
pub open spec fn lists_fit_columns(accumulators: Seq<Vec<IncrementalAccumulator>>) -> bool {
    forall|g: int, f: int|
        0 <= g < accumulators.len() && 0 <= f < accumulators[g]@.len() ==> (
        #[trigger] accumulators[g]@[f]).fits_a_column()
}

/// Accumulators that have taken nothing.
pub(crate) fn fresh_accumulators(fields: usize) -> (r: Vec<IncrementalAccumulator>)
    ensures
        r@.len() == fields,
        forall|j: int|
            0 <= j < fields ==> (#[trigger] r@[j]).summarizes(Seq::empty()) && r@[j].taken() == 0
                && r@[j].fits_a_column(),
{
    let mut fresh: Vec<IncrementalAccumulator> = Vec::new();
    let mut f: usize = 0;
    while f < fields
        invariant
            f <= fields,
            fresh@.len() == f,
            forall|j: int|
                0 <= j < f ==> (#[trigger] fresh@[j]).summarizes(Seq::empty()) && fresh@[j].taken()
                    == 0 && fresh@[j].fits_a_column(),
        decreases fields - f,
    {
        fresh.push(IncrementalAccumulator::new());
        f = f + 1;
    }
    fresh
}

/// Take the readings of a row into the accumulators of its group.
pub(crate) fn take_readings(
    accs: &mut Vec<IncrementalAccumulator>,
    frame: &Frame,
    row: usize,
    columns: &Vec<Option<&ColumnData>>,
)
    requires
        row < frame@.rows,
        are_columns(columns_of(columns@), frame@.rows),
        old(accs)@.len() == columns@.len(),
        forall|j: int| 0 <= j < old(accs)@.len() ==> (#[trigger] old(accs)@[j]).taken() < u64::MAX,
    ensures
        final(accs)@.len() == old(accs)@.len(),
        forall|j: int|
            0 <= j < final(accs)@.len() ==> (#[trigger] final(accs)@[j]).taken() <= old(
                accs,
            )@[j].taken() + 1 && (old(accs)@[j].fits_a_column()
                ==> final(accs)@[j].fits_a_column()),
        forall|j: int, rs: Seq<(Reading, Moment)>|
            0 <= j < final(accs)@.len() && old(accs)@[j].summarizes(rs) ==> (
            #[trigger] final(accs)@[j]).summarizes(
                #[trigger] with_reading(rs, frame@, columns_of(columns@)[j], row as int),
            ),
{
    let ghost before = accs@;
    let ghost cols = columns_of(columns@);
    let moment = frame.moment(row);
    let mut f: usize = 0;
    while f < columns.len()
        invariant
            f <= columns.len(),
            row < frame@.rows,
            cols == columns_of(columns@),
            are_columns(cols, frame@.rows),
            moment == frame@.moment(row as int),
            accs@.len() == columns@.len(),
            before.len() == columns@.len(),
            forall|j: int| 0 <= j < before.len() ==> (#[trigger] before[j]).taken() < u64::MAX,
            forall|j: int| f <= j < accs@.len() ==> #[trigger] accs@[j] == before[j],
            forall|j: int|
                0 <= j < f ==> (#[trigger] accs@[j]).taken() <= before[j].taken() + 1 && (
                before[j].fits_a_column() ==> accs@[j].fits_a_column()),
            forall|j: int, rs: Seq<(Reading, Moment)>|
                0 <= j < f && before[j].summarizes(rs) ==> (#[trigger] accs@[j]).summarizes(
                    #[trigger] with_reading(rs, frame@, cols[j], row as int),
                ),
        decreases columns.len() - f,
    {
        let ghost here = accs@;
        let ghost column = cols[f as int];
        if let Some(data) = columns[f] {
            assert(column == Some(data@));
            assert(cols[f as int].unwrap().is_column(frame@.rows));
            if let Some(reading) = data.reading(row) {
                let mut acc = accs[f];
                acc.update(reading, moment);
                accs.set(f, acc);
            }
        }
        proof {
            assert forall|j: int, rs: Seq<(Reading, Moment)>|
                0 <= j < f + 1 && before[j].summarizes(rs) implies (#[trigger] accs@[j]).summarizes(
                #[trigger] with_reading(rs, frame@, cols[j], row as int),
            ) by {
                if j < f {
                    assert(accs@[j] == here[j]);
                }
            }
        }
        f = f + 1;
    }
}

/// The key of a row.
pub(crate) fn key_of_row(
    by: &Vec<Option<&Vec<Option<String>>>>,
    row: usize,
    Ghost(rows): Ghost<nat>,
) -> (r: Vec<Option<String>>)
    requires
        row < rows,
        are_text_columns(text_columns_of(by@), rows),
    ensures
        optional_texts(r@) == row_key(text_columns_of(by@), row as int),
{
    let ghost texts = text_columns_of(by@);
    let mut key: Vec<Option<String>> = Vec::new();
    let mut c: usize = 0;
    while c < by.len()
        invariant
            c <= by.len(),
            row < rows,
            texts == text_columns_of(by@),
            are_text_columns(texts, rows),
            key@.len() == c,
            forall|d: int|
                0 <= d < c ==> #[trigger] optional_texts(key@)[d] == row_key(texts, row as int)[d],
        decreases by.len() - c,
    {
        let ghost before = key@;
        let part: Option<String> = match by[c] {
            Some(cells) => {
                assert(texts[c as int] == Some(optional_texts(cells@)));
                assert(texts[c as int].unwrap().len() == rows);
                match &cells[row] {
                    Some(text) => Some(text.clone()),
                    None => None,
                }
            },
            None => None,
        };
        key.push(part);
        proof {
            assert forall|d: int| 0 <= d < c + 1 implies #[trigger] optional_texts(key@)[d]
                == row_key(texts, row as int)[d] by {
                if d < c {
                    assert(key@[d] == before[d]);
                    assert(optional_texts(before)[d] == row_key(texts, row as int)[d]);
                }
            }
        }
        c = c + 1;
    }
    assert(optional_texts(key@) =~= row_key(texts, row as int));
    key
}

/// The accumulators of all groups.
#[derive(Debug)]
pub struct Groups {
    index: GroupIndex,
    accumulators: Vec<Vec<IncrementalAccumulator>>,
    fields: usize,
    taken: u64,
}

impl Groups {
    /// The accumulators summarize these groups.
    pub closed spec fn summarizes(&self, m: GroupsModel) -> bool {
        &&& m.is_groups(self.fields as nat)
        &&& self.index@ == m.keys
        &&& forall|g: int, f: int|
            0 <= g < m.keys.len() && 0 <= f < self.fields ==> (
            #[trigger] self.accumulators@[g]@[f]).summarizes(m.readings[g][f])
    }

    /// Keys of the groups.
    pub closed spec fn keys(&self) -> Seq<GroupKey> {
        self.index@
    }

    /// Number of fields per group.
    pub closed spec fn field_count(&self) -> nat {
        self.fields as nat
    }

    /// How many rows have been taken.
    pub closed spec fn rows_taken(&self) -> u64 {
        self.taken
    }

    /// There is an accumulator per group and field, and none has taken more
    /// readings than there were rows.
    pub closed spec fn is_complete(&self) -> bool {
        &&& self.accumulators@.len() == self.index@.len()
        &&& forall|g: int|
            0 <= g < self.accumulators@.len() ==> (#[trigger] self.accumulators@[g])@.len()
                == self.fields
        &&& forall|g: int, f: int|
            0 <= g < self.accumulators@.len() && 0 <= f < self.fields ==> (
            #[trigger] self.accumulators@[g]@[f]).taken() <= self.taken
                && self.accumulators@[g]@[f].fits_a_column()
    }

    /// No groups, of `fields` fields each.
    pub fn new(fields: usize) -> (r: Self)
        ensures
            r.summarizes(no_groups()),
            r.keys() == Seq::<GroupKey>::empty(),
            r.field_count() == fields,
            r.rows_taken() == 0,
            r.is_complete(),
    {
        Groups { index: GroupIndex::new(), accumulators: Vec::new(), fields, taken: 0 }
    }

    /// The keys and the accumulators of the groups.
    pub fn lists(&self) -> (r: (&Vec<Vec<Option<String>>>, &Vec<Vec<IncrementalAccumulator>>))
        requires
            self.is_complete(),
        ensures
            forall|m: GroupsModel| #[trigger]
                self.summarizes(m) ==> lists_summarize(r.0@, r.1@, self.field_count(), m),
            lists_fit_columns(r.1@),
            r.0@.map_values(|key: Vec<Option<String>>| optional_texts(key@)) == self.keys(),
            r.1@.len() == r.0@.len(),
            forall|g: int| 0 <= g < r.1@.len() ==> (#[trigger] r.1@[g])@.len() == self.field_count(),
    {
        let keys = self.index.keys();
        proof {
            assert forall|m: GroupsModel| #[trigger] self.summarizes(m) implies lists_summarize(
                keys@,
                self.accumulators@,
                self.field_count(),
                m,
            ) by {
                assert forall|g: int| 0 <= g < keys@.len() implies optional_texts(
                    (#[trigger] keys@[g])@,
                ) == m.keys[g] by {
                    assert(self.index@[g] == optional_texts(keys@[g]@));
                }
            }
        }
        (keys, &self.accumulators)
    }

    /// Take a row. Returns the number of its group.
    fn take_row(
        &mut self,
        frame: &Frame,
        row: usize,
        key: Vec<Option<String>>,
        columns: &Vec<Option<&ColumnData>>,
        limited: bool,
        tracker: &mut Option<MemoryTracker>,
        bytes: usize,
    ) -> (r: Result<usize, QueryError>)
        requires
            row < frame@.rows,
            are_columns(columns_of(columns@), frame@.rows),
            columns@.len() == old(self).field_count(),
            old(self).is_complete(),
            old(self).rows_taken() < u64::MAX,
        ensures
            final(self).is_complete(),
            final(self).field_count() == old(self).field_count(),
            ({
                let k = optional_texts(key@);
                match group_failure(old(self).keys(), k, limited, account(*old(tracker)), bytes) {
                    Some(failure) => {
                        &&& r matches Err(e)
                        &&& failure.reported_as(e, account(*old(tracker)), bytes)
                        &&& final(self).rows_taken() == old(self).rows_taken()
                        &&& final(self).keys() == old(self).keys()
                        &&& account(*final(tracker)) == account(*old(tracker))
                        &&& forall|m: GroupsModel| #[trigger]
                            old(self).summarizes(m) ==> final(self).summarizes(m)
                    },
                    None => {
                        &&& r matches Ok(g)
                        &&& g < final(self).keys().len()
                        &&& final(self).keys()[g as int] == k
                        &&& final(self).rows_taken() == old(self).rows_taken() + 1
                        &&& final(self).keys() == groups_after(old(self).keys(), seq![k])
                        &&& account(*final(tracker)) == charged(
                            account(*old(tracker)),
                            if old(self).keys().contains(k) {
                                0
                            } else {
                                bytes as int
                            },
                        )
                        &&& forall|m: GroupsModel| #[trigger]
                            old(self).summarizes(m) ==> final(self).summarizes(
                                m.with_row(frame@, columns_of(columns@), k, row as int),
                            )
                    },
                }
            }),
    {
        let ghost before = *self;
        let ghost k = optional_texts(key@);
        let ghost cols = columns_of(columns@);
        let known: usize = self.index.len();
        let g: usize = match self.index.place(key, limited, tracker, bytes) {
            Ok(g) => g,
            Err(e) => {
                return Err(e);
            },
        };
        proof {
            assert(seq![k].drop_last() =~= Seq::<GroupKey>::empty());
            assert(groups_after(before.index@, Seq::<GroupKey>::empty()) == before.index@);
            assert(groups_after(before.index@, seq![k]) == if before.index@.contains(k) {
                before.index@
            } else {
                before.index@.push(k)
            });
        }
        if self.index.len() > known {
            let fresh = fresh_accumulators(self.fields);
            self.accumulators.push(fresh);
        }
        let ghost middle = *self;
        proof {
            assert forall|h: int, j: int|
                0 <= h < middle.accumulators@.len() && 0 <= j < middle.fields implies (
            #[trigger] middle.accumulators@[h]@[j]).taken() <= middle.taken
                && middle.accumulators@[h]@[j].fits_a_column() by {
                if h < before.accumulators@.len() {
                    assert(middle.accumulators@[h] == before.accumulators@[h]);
                    assert(before.accumulators@[h]@[j].taken() <= before.taken);
                }
            }
        }
        let mut accs: Vec<IncrementalAccumulator> = Vec::new();
        std::mem::swap(&mut accs, &mut self.accumulators[g]);
        let ghost old_accs = accs@;
        assert(old_accs == middle.accumulators@[g as int]@);
        proof {
            assert forall|j: int| 0 <= j < accs@.len() implies (#[trigger] accs@[j]).taken()
                < u64::MAX by {
                assert(middle.accumulators@[g as int]@[j].taken() <= middle.taken);
            }
        }
        take_readings(&mut accs, frame, row, columns);
        proof {
            assert forall|j: int| 0 <= j < accs@.len() implies (#[trigger] accs@[j]).taken()
                <= middle.taken + 1 && accs@[j].fits_a_column() by {
                assert(middle.accumulators@[g as int]@[j].taken() <= middle.taken);
            }
        }
        std::mem::swap(&mut accs, &mut self.accumulators[g]);
        self.taken = self.taken + 1;
        proof {
            assert(self.accumulators@[g as int]@.len() == self.fields);
            assert forall|h: int, j: int|
                0 <= h < self.accumulators@.len() && 0 <= j < self.fields implies (
            #[trigger] self.accumulators@[h]@[j]).taken() <= self.taken
                && self.accumulators@[h]@[j].fits_a_column() by {
                if h != g {
                    assert(self.accumulators@[h] == middle.accumulators@[h]);
                    assert(middle.accumulators@[h]@[j].taken() <= middle.taken);
                }
            }
            assert forall|m: GroupsModel| #[trigger] before.summarizes(m) implies self.summarizes(
                m.with_row(frame@, cols, k, row as int),
            ) by {
                let known_m = m.with_key(k, cols.len());
                assert(known_m.keys == self.index@);
                groups_are_distinct(m.keys, seq![k]);
                lemma_index_of(known_m.keys, g as int);
                assert(known_m.is_groups(cols.len()));
                let next = m.with_row(frame@, cols, k, row as int);
                assert(next.is_groups(cols.len()));
                assert forall|h: int, j: int|
                    0 <= h < next.keys.len() && 0 <= j < self.fields implies (
                #[trigger] self.accumulators@[h]@[j]).summarizes(next.readings[h][j]) by {
                    assert(middle.accumulators@[h]@[j].summarizes(known_m.readings[h][j])) by {
                        if h < before.accumulators@.len() {
                            assert(middle.accumulators@[h] == before.accumulators@[h]);
                            assert(before.accumulators@[h]@[j].summarizes(m.readings[h][j]));
                            assert(known_m.readings[h] == m.readings[h]);
                        } else {
                            assert(known_m.readings[h][j] =~= Seq::empty());
                        }
                    }
                    if h == g {
                        assert(old_accs[j].summarizes(known_m.readings[h][j]));
                        assert(next.readings[h][j] == with_reading(
                            known_m.readings[h][j],
                            frame@,
                            cols[j],
                            row as int,
                        ));
                    } else {
                        assert(self.accumulators@[h] == middle.accumulators@[h]);
                    }
                }
            }
        }
        Ok(g)
    }

    /// Take the rows of a frame. Returns the number of each row's group.
    ///
    /// If a row cannot be taken, the rows before it have been.
    pub fn take_frame(
        &mut self,
        frame: &Frame,
        columns: &Vec<Option<&ColumnData>>,
        by: &Vec<Option<&Vec<Option<String>>>>,
        limited: bool,
        tracker: &mut Option<MemoryTracker>,
        bytes: usize,
    ) -> (r: Result<Vec<usize>, QueryError>)
        requires
            are_columns(columns_of(columns@), frame@.rows),
            are_text_columns(text_columns_of(by@), frame@.rows),
            columns@.len() == old(self).field_count(),
            old(self).is_complete(),
            old(self).rows_taken() + frame@.rows <= u64::MAX,
        ensures
            final(self).is_complete(),
            final(self).field_count() == old(self).field_count(),
            ({
                let texts = text_columns_of(by@);
                let n = frame@.rows as int;
                let ks = row_keys(texts, n);
                let gs = old(self).keys();
                let start = account(*old(tracker));
                match r {
                    Ok(rows) => {
                        &&& forall|row: int|
                            0 <= row < n ==> #[trigger] failure_at(
                                gs,
                                ks,
                                row,
                                limited,
                                start,
                                bytes,
                            ) is None
                        &&& final(self).keys() == groups_after(gs, ks)
                        &&& final(self).rows_taken() == old(self).rows_taken() + n
                        &&& account(*final(tracker)) == charged(
                            start,
                            bytes * (groups_after(gs, ks).len() - gs.len()),
                        )
                        &&& rows@.len() == n
                        &&& forall|row: int|
                            0 <= row < n ==> (#[trigger] rows@[row]) < final(self).keys().len()
                                && final(self).keys()[rows@[row] as int] == ks[row]
                        &&& forall|m: GroupsModel| #[trigger]
                            old(self).summarizes(m) ==> final(self).summarizes(
                                m.with_rows(frame@, columns_of(columns@), texts, n),
                            )
                    },
                    Err(e) => exists|row: int|
                        {
                            &&& #[trigger] stops_at(gs, ks, row, limited, start, bytes)
                            &&& failure_at(
                                gs,
                                ks,
                                row,
                                limited,
                                start,
                                bytes,
                            ).unwrap().reported_as(e, account_at(gs, ks, row, start, bytes), bytes)
                            &&& account(*final(tracker)) == account_at(gs, ks, row, start, bytes)
                            &&& final(self).rows_taken() == old(self).rows_taken() + row
                            &&& final(self).keys() == groups_after(gs, ks.take(row))
                            &&& forall|m: GroupsModel| #[trigger]
                                old(self).summarizes(m) ==> final(self).summarizes(
                                    m.with_rows(frame@, columns_of(columns@), texts, row),
                                )
                        },
                }
            }),
    {
        let ghost texts = text_columns_of(by@);
        let ghost cols = columns_of(columns@);
        let ghost gs = self.keys();
        let ghost start = account(*tracker);
        let ghost before = *self;
        let n: usize = frame.rows();
        let ghost ks = row_keys(texts, n as int);
        let mut rows: Vec<usize> = Vec::new();
        let mut row: usize = 0;
        proof {
            assert(ks.take(0) =~= Seq::empty());
            assert(bytes * 0 == 0);
            assert(groups_after(gs, Seq::<GroupKey>::empty()) == gs);
        }
        while row < n
            invariant
                row <= n,
                n == frame@.rows,
                texts == text_columns_of(by@),
                cols == columns_of(columns@),
                are_columns(cols, frame@.rows),
                are_text_columns(texts, frame@.rows),
                ks == row_keys(texts, n as int),
                columns@.len() == self.field_count(),
                self.field_count() == before.field_count(),
                self.is_complete(),
                gs == before.keys(),
                before.rows_taken() + n <= u64::MAX,
                self.rows_taken() == before.rows_taken() + row,
                self.keys() == groups_after(gs, ks.take(row as int)),
                account(*tracker) == account_at(gs, ks, row as int, start, bytes),
                forall|q: int|
                    0 <= q < row ==> #[trigger] failure_at(gs, ks, q, limited, start, bytes) is None,
                rows@.len() == row,
                forall|q: int|
                    0 <= q < row ==> (#[trigger] rows@[q]) < self.keys().len()
                        && self.keys()[rows@[q] as int] == ks[q],
                forall|m: GroupsModel| #[trigger]
                    before.summarizes(m) ==> self.summarizes(
                        m.with_rows(frame@, cols, texts, row as int),
                    ),
                start == account(*old(tracker)),
                before == *old(self),
            decreases n - row,
        {
            let ghost here = *self;
            let key = key_of_row(by, row, Ghost(frame@.rows));
            let ghost k = optional_texts(key@);
            proof {
                assert(ks[row as int] == k);
                assert(ks.take(row + 1).drop_last() =~= ks.take(row as int));
                assert(ks.take(row + 1).last() == k);
            }
            match self.take_row(frame, row, key, columns, limited, tracker, bytes) {
                Ok(g) => {
                    proof {
                        let was = here.keys();
                        let now = self.keys();
                        assert(seq![k].drop_last() =~= Seq::<GroupKey>::empty());
                        assert(groups_after(was, Seq::<GroupKey>::empty()) == was);
                        assert(now == groups_after(gs, ks.take(row + 1)));
                        assert forall|q: int| 0 <= q < row implies (#[trigger] rows@[q])
                            < now.len() && now[rows@[q] as int] == ks[q] by {
                            assert(was[rows@[q] as int] == ks[q]);
                        }
                        let extra = was.len() - gs.len();
                        assert(bytes * (extra + 1) == bytes * extra + bytes) by (nonlinear_arith);
                        assert forall|m: GroupsModel| #[trigger]
                            before.summarizes(m) implies self.summarizes(
                            m.with_rows(frame@, cols, texts, row + 1),
                        ) by {
                            assert(here.summarizes(m.with_rows(frame@, cols, texts, row as int)));
                        }
                        assert(failure_at(gs, ks, row as int, limited, start, bytes) is None);
                    }
                    rows.push(g);
                },
                Err(e) => {
                    proof {
                        assert(stops_at(gs, ks, row as int, limited, start, bytes));
                        assert forall|m: GroupsModel| #[trigger]
                            before.summarizes(m) implies self.summarizes(
                            m.with_rows(frame@, cols, texts, row as int),
                        ) by {
                            assert(here.summarizes(m.with_rows(frame@, cols, texts, row as int)));
                        }
                    }
                    return Err(e);
                },
            }
            row = row + 1;
        }
        proof {
            assert(ks.take(n as int) =~= ks);
        }
        Ok(rows)
    }
}

} // verus!
