//! Encoded-domain predicate pushdown: evaluates predicates against column
//! statistics without decoding the actual data.
//!
//! A segment's zone maps hold the `min`/`max` statistics of each column in each
//! row group. [`EncodedDomainEvaluator`] uses what they say about each
//! predicate to determine whether all predicates are satisfied, or one is
//! excluded, without reading and decoding the column bytes.
use vstd::prelude::*;

#[allow(unused_imports)]
use crate::query::float::{less, same_number};

verus! {

/// A comparison of a column with a value.
#[derive(Debug, Clone, Copy, PartialEq, Eq, Structural)]
pub enum ZoneMapOp {
    /// Equal to the value.
    Eq,
    /// Less than the value.
    Lt,
    /// Less than or equal to the value.
    Le,
    /// Greater than the value.
    Gt,
    /// Greater than or equal to the value.
    Ge,
}

/// A comparison operator and the bits of the value to compare with.
#[derive(Debug, Clone, Copy, PartialEq, Eq, Structural)]
pub struct ZoneMapPredicate {
    /// Comparison operator.
    pub op: ZoneMapOp,
    /// Bits of the value to compare with.
    pub value: u64,
}

/// What the bounds of a column say about a predicate.
#[derive(Debug, Clone, Copy, PartialEq, Eq, Structural)]
pub enum ZoneMapResult {
    /// No value within the bounds meets the predicate.
    NoneMatch,
    /// Every value within the bounds meets the predicate.
    AllMatch,
    /// Some values within the bounds may meet it and others not.
    MaybeMatch,
}

impl ZoneMapPredicate {
    /// A value meets the predicate.
    pub open spec fn holds(self, x: u64) -> bool {
        match self.op {
            ZoneMapOp::Eq => same_number(x, self.value),
            ZoneMapOp::Lt => less(x, self.value),
            ZoneMapOp::Le => less(x, self.value) || same_number(x, self.value),
            ZoneMapOp::Gt => less(self.value, x),
            ZoneMapOp::Ge => less(self.value, x) || same_number(x, self.value),
        }
    }
}

/// A predicate on a specific named column.
#[derive(Debug, Clone)]
pub struct ColumnPredicate {
    /// Column name this predicate applies to.
    pub column: String,
    /// The comparison operator and value.
    pub predicate: ZoneMapPredicate,
}

/// Result of evaluating a row group's statistics against all predicates.
#[derive(Debug, Clone, Copy, PartialEq, Eq, Structural)]
pub enum RowGroupVerdict {
    /// All predicates are satisfied by the statistics: every row satisfies
    /// the filter, so filter evaluation can be skipped.
    AllMatch,
    /// At least one predicate definitely excludes this row group: skip it
    /// entirely.
    Skip,
    /// Statistics are inconclusive: the row group must be decoded and
    /// filtered row by row.
    Decode,
}

/// What the zone maps of a row group say about all predicates; `results[i]` is
/// what that of the `i`-th predicate's column says, where there is one. Without
/// predicates nothing is concluded.
pub open spec fn group_verdict(results: Seq<Option<ZoneMapResult>>) -> RowGroupVerdict {
    if results.len() == 0 {
        RowGroupVerdict::Decode
    } else if exists|i: int|
        0 <= i < results.len() && #[trigger] results[i] == Some(ZoneMapResult::NoneMatch) {
        RowGroupVerdict::Skip
    } else if forall|i: int|
        0 <= i < results.len() ==> #[trigger] results[i] == Some(ZoneMapResult::AllMatch) {
        RowGroupVerdict::AllMatch
    } else {
        RowGroupVerdict::Decode
    }
}

/// The results cover all predicates, or end with the first that excludes the
/// row group.
pub open spec fn are_conclusive(results: Seq<Option<ZoneMapResult>>, predicates: nat) -> bool {
    &&& results.len() <= predicates
    &&& forall|i: int|
        0 <= i < results.len() - 1 ==> #[trigger] results[i] != Some(ZoneMapResult::NoneMatch)
    &&& results.len() < predicates ==> results.len() > 0 && results.last() == Some(
        ZoneMapResult::NoneMatch,
    )
}

/// Evaluates column predicates against row-group statistics to avoid
/// unnecessary decoding.
#[derive(Debug, Clone)]
pub struct EncodedDomainEvaluator {
    predicates: Vec<ColumnPredicate>,
}

impl View for EncodedDomainEvaluator {
    type V = Seq<ColumnPredicate>;

    closed spec fn view(&self) -> Seq<ColumnPredicate> {
        self.predicates@
    }
}

impl EncodedDomainEvaluator {
    /// Create a new evaluator with the given set of column predicates.
    pub fn new(predicates: Vec<ColumnPredicate>) -> (r: Self)
        ensures
            r@ == predicates@,
    {
        EncodedDomainEvaluator { predicates }
    }

    /// Evaluate a single row group's column statistics.
    ///
    /// `zone_map` is called with each predicate, up to the first that excludes
    /// the row group. It returns what the zone map of the predicate's column in
    /// this row group says about the predicate, or `None` if no statistics are
    /// available for the column.
    pub fn evaluate<F: Fn(&ColumnPredicate) -> Option<ZoneMapResult>>(&self, zone_map: F) -> (r:
        RowGroupVerdict)
        requires
            forall|p: &ColumnPredicate| call_requires(zone_map, (p,)),
        ensures
            exists|results: Seq<Option<ZoneMapResult>>|
                {
                    &&& are_conclusive(results, self@.len())
                    &&& forall|i: int|
                        0 <= i < results.len() ==> call_ensures(
                            zone_map,
                            (&self@[i],),
                            #[trigger] results[i],
                        )
                    &&& r == #[trigger] group_verdict(results)
                },
    {
        let mut results: Vec<Option<ZoneMapResult>> = Vec::new();
        let mut i: usize = 0;
        while i < self.predicates.len()
            invariant
                i <= self.predicates.len(),
                self@ == self.predicates@,
                results.len() == i,
                forall|p: &ColumnPredicate| call_requires(zone_map, (p,)),
                forall|j: int|
                    0 <= j < i ==> call_ensures(zone_map, (&self@[j],), #[trigger] results@[j]),
                forall|j: int|
                    0 <= j < i ==> #[trigger] results@[j] != Some(ZoneMapResult::NoneMatch),
            decreases self.predicates.len() - i,
        {
            let ghost before = results@;
            let result = zone_map(&self.predicates[i]);
            results.push(result);
            assert(forall|j: int| 0 <= j < i ==> results@[j] == before[j]);
            if result == Some(ZoneMapResult::NoneMatch) {
                assert(results@[i as int] == Some(ZoneMapResult::NoneMatch));
                assert(group_verdict(results@) is Skip);
                return RowGroupVerdict::Skip;
            }
            i = i + 1;
        }
        let r: RowGroupVerdict = conclude(&results);
        assert(r == group_verdict(results@));
        r
    }

    /// Evaluate `num_row_groups` row groups.
    ///
    /// `zone_map` is called with a row group's index and a predicate, and
    /// returns what is known of that predicate in that row group.
    pub fn evaluate_batch<F: Fn(usize, &ColumnPredicate) -> Option<ZoneMapResult>>(
        &self,
        num_row_groups: usize,
        zone_map: F,
    ) -> (r: Vec<RowGroupVerdict>)
        requires
            forall|group: usize, p: &ColumnPredicate| call_requires(zone_map, (group, p)),
        ensures
            r@.len() == num_row_groups,
            forall|g: int|
                0 <= g < num_row_groups ==> judged_by(self@, zone_map, g as usize, #[trigger] r@[g]),
    {
        let mut out: Vec<RowGroupVerdict> = Vec::new();
        let mut g: usize = 0;
        while g < num_row_groups
            invariant
                g <= num_row_groups,
                out.len() == g,
                forall|group: usize, p: &ColumnPredicate| call_requires(zone_map, (group, p)),
                forall|h: int|
                    0 <= h < g ==> judged_by(self@, zone_map, h as usize, #[trigger] out@[h]),
            decreases num_row_groups - g,
        {
            let mut results: Vec<Option<ZoneMapResult>> = Vec::new();
            let mut excluded: bool = false;
            while !excluded && results.len() < self.predicates.len()
                invariant
                    results.len() <= self.predicates.len(),
                    self@ == self.predicates@,
                    forall|group: usize, p: &ColumnPredicate| call_requires(zone_map, (group, p)),
                    forall|j: int|
                        0 <= j < results@.len() ==> call_ensures(
                            zone_map,
                            (g, &self@[j]),
                            #[trigger] results@[j],
                        ),
                    forall|j: int|
                        0 <= j < results@.len() - 1 ==> #[trigger] results@[j] != Some(
                            ZoneMapResult::NoneMatch,
                        ),
                    excluded == (results@.len() > 0 && results@.last() == Some(
                        ZoneMapResult::NoneMatch,
                    )),
                decreases self.predicates.len() - results.len(),
            {
                let ghost before = results@;
                let result = zone_map(g, &self.predicates[results.len()]);
                results.push(result);
                assert(forall|j: int| 0 <= j < before.len() ==> results@[j] == before[j]);
                assert(before.len() > 0 ==> before.last() == before[before.len() - 1]);
                excluded = result == Some(ZoneMapResult::NoneMatch);
            }
            let verdict: RowGroupVerdict = conclude(&results);
            assert(verdict == group_verdict(results@));
            assert(judged_by(self@, zone_map, g, verdict));
            out.push(verdict);
            g = g + 1;
        }
        out
    }
}

/// Draw the conclusion from what the zone maps say about each predicate.
pub fn conclude(results: &Vec<Option<ZoneMapResult>>) -> (r: RowGroupVerdict)
    ensures
        r == group_verdict(results@),
{
    let mut all_match: bool = true;
    let mut i: usize = 0;
    while i < results.len()
        invariant
            i <= results.len(),
            forall|j: int|
                0 <= j < i ==> #[trigger] results@[j] != Some(ZoneMapResult::NoneMatch),
            all_match == forall|j: int|
                0 <= j < i ==> #[trigger] results@[j] == Some(ZoneMapResult::AllMatch),
        decreases results.len() - i,
    {
        let ghost said = results@[i as int];
        match results[i] {
            Some(ZoneMapResult::NoneMatch) => {
                assert(said == Some(ZoneMapResult::NoneMatch));
                return RowGroupVerdict::Skip;
            },
            Some(ZoneMapResult::AllMatch) => {},
            _ => {
                assert(said != Some(ZoneMapResult::AllMatch));
                all_match = false;
            },
        }
        i = i + 1;
    }
    if all_match && results.len() > 0 {
        RowGroupVerdict::AllMatch
    } else {
        RowGroupVerdict::Decode
    }
}

/// `verdict` is what the results that the lookup gives for a row group say
/// about the predicates.
pub open spec fn judged_by<F: Fn(usize, &ColumnPredicate) -> Option<ZoneMapResult>>(
    predicates: Seq<ColumnPredicate>,
    zone_map: F,
    group: usize,
    verdict: RowGroupVerdict,
) -> bool {
    exists|results: Seq<Option<ZoneMapResult>>|
        {
            &&& are_conclusive(results, predicates.len())
            &&& forall|i: int|
                0 <= i < results.len() ==> call_ensures(
                    zone_map,
                    (group, &predicates[i]),
                    #[trigger] results[i],
                )
            &&& verdict == #[trigger] group_verdict(results)
        }
}

/// What a zone map says about a predicate is right for a value of its column.
pub open spec fn is_right(result: Option<ZoneMapResult>, p: ZoneMapPredicate, x: u64) -> bool {
    &&& result == Some(ZoneMapResult::NoneMatch) ==> !p.holds(x)
    &&& result == Some(ZoneMapResult::AllMatch) ==> p.holds(x)
}

/// Where the zone maps are right, a row group is skipped only if none of its
/// rows passes the filter, and it is taken whole only if all of them do.
/// `row[i]` is a row's value in the `i`-th predicate's column.
pub proof fn group_verdicts_are_right(
    predicates: Seq<ColumnPredicate>,
    results: Seq<Option<ZoneMapResult>>,
    row: Seq<u64>,
)
    requires
        are_conclusive(results, predicates.len()),
        row.len() == predicates.len(),
        forall|i: int|
            0 <= i < results.len() ==> is_right(
                #[trigger] results[i],
                predicates[i].predicate,
                row[i],
            ),
    ensures
        group_verdict(results) is Skip ==> exists|i: int|
            0 <= i < row.len() && !predicates[i].predicate.holds(#[trigger] row[i]),
        group_verdict(results) is AllMatch ==> forall|i: int|
            0 <= i < row.len() ==> predicates[i].predicate.holds(#[trigger] row[i]),
{
    if group_verdict(results) is Skip {
        let i = choose|i: int|
            0 <= i < results.len() && #[trigger] results[i] == Some(ZoneMapResult::NoneMatch);
        assert(!predicates[i].predicate.holds(row[i]));
    }
    if group_verdict(results) is AllMatch {
        assert forall|i: int| 0 <= i < row.len() implies predicates[i].predicate.holds(
            #[trigger] row[i],
        ) by {
            if results.len() < predicates.len() {
                assert(results[results.len() - 1] == Some(ZoneMapResult::NoneMatch));
            }
            assert(results[i] == Some(ZoneMapResult::AllMatch));
        }
    }
}

/// To stop at the first exclusion changes nothing: what the results up to
/// there say is what all of them say.
pub proof fn the_first_exclusion_decides(
    asked: Seq<Option<ZoneMapResult>>,
    all: Seq<Option<ZoneMapResult>>,
)
    requires
        are_conclusive(asked, all.len()),
        asked.is_prefix_of(all),
    ensures
        group_verdict(asked) == group_verdict(all),
{
    if asked.len() < all.len() {
        let last = asked.len() - 1;
        assert(asked[last] == Some(ZoneMapResult::NoneMatch));
        assert(all[last] == asked[last]);
    } else {
        assert(asked =~= all);
    }
}

} // verus!
