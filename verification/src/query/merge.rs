//! The k-way merge: sorted runs of keys are merged, and of equal keys only the
//! newest is kept.
use vstd::prelude::*;

verus! {

/// What rows are merged by. Two rows are duplicates of each other just if their
/// keys are equal.
#[derive(Debug, Clone, Copy, PartialEq, Eq, Structural)]
pub struct MergeKey {
    /// Timestamp; a missing one comes after all others.
    pub time: Option<i64>,
    /// Hash of the series.
    pub hash: u64,
    /// Number of the series, in the order in which series are first seen.
    pub series: u64,
}

/// A timestamp comes before another; a missing one after all others.
pub open spec fn time_before(a: Option<i64>, b: Option<i64>) -> bool {
    match (a, b) {
        (Some(x), Some(y)) => x < y,
        (Some(_), None) => true,
        (None, _) => false,
    }
}

/// `a` comes before `b`: by timestamp, then by the hash of the series, then by
/// its number.
pub open spec fn key_before(a: MergeKey, b: MergeKey) -> bool {
    time_before(a.time, b.time) || (a.time == b.time && (a.hash < b.hash || (a.hash == b.hash
        && a.series < b.series)))
}

/// Whether `a` comes before `b`.
fn is_key_before(a: MergeKey, b: MergeKey) -> (r: bool)
    ensures
        r == key_before(a, b),
{
    let (earlier, same): (bool, bool) = match (a.time, b.time) {
        (Some(x), Some(y)) => (x < y, x == y),
        (Some(_), None) => (true, false),
        (None, Some(_)) => (false, false),
        (None, None) => (false, true),
    };
    earlier || (same && (a.hash < b.hash || (a.hash == b.hash && a.series < b.series)))
}

/// Whether two keys are the same.
fn is_same_key(a: MergeKey, b: MergeKey) -> (r: bool)
    ensures
        r == (a == b),
{
    let same = match (a.time, b.time) {
        (Some(x), Some(y)) => x == y,
        (None, None) => true,
        _ => false,
    };
    same && a.hash == b.hash && a.series == b.series
}

/// Runs of keys, by their contents.
pub open spec fn runs_of(runs: Seq<Vec<MergeKey>>) -> Seq<Seq<MergeKey>> {
    runs.map_values(|run: Vec<MergeKey>| run@)
}

/// The place `(run, position)` is within the runs.
pub open spec fn is_place(runs: Seq<Seq<MergeKey>>, at: (int, int)) -> bool {
    0 <= at.0 < runs.len() && 0 <= at.1 < runs[at.0].len()
}

/// The key at a place.
pub open spec fn key_at(runs: Seq<Seq<MergeKey>>, at: (int, int)) -> MergeKey {
    runs[at.0][at.1]
}

/// `a` was written after `b`: in a later run, or later in the same run.
pub open spec fn is_newer(a: (int, int), b: (int, int)) -> bool {
    a.0 > b.0 || (a.0 == b.0 && a.1 > b.1)
}

/// One of the places holds this key.
pub open spec fn has_key(
    runs: Seq<Seq<MergeKey>>,
    places: Seq<(int, int)>,
    key: MergeKey,
) -> bool {
    exists|k: int| 0 <= k < places.len() && key_at(runs, #[trigger] places[k]) == key
}

/// Nothing with the same key was written after what is at this place.
pub open spec fn is_newest(runs: Seq<Seq<MergeKey>>, at: (int, int)) -> bool {
    forall|other: (int, int)| #[trigger]
        is_place(runs, other) && key_at(runs, other) == key_at(runs, at) ==> !is_newer(other, at)
}

/// The places are what a merge keeps: one for every key that occurs, the
/// newest, in ascending order of the keys.
pub open spec fn is_merge(runs: Seq<Seq<MergeKey>>, places: Seq<(int, int)>) -> bool {
    &&& forall|k: int| 0 <= k < places.len() ==> is_place(runs, #[trigger] places[k])
    &&& forall|k: int| 0 <= k < places.len() ==> is_newest(runs, #[trigger] places[k])
    &&& forall|i: int, j: int|
        0 <= i < j < places.len() ==> key_before(
            key_at(runs, #[trigger] places[i]),
            key_at(runs, #[trigger] places[j]),
        )
    &&& forall|at: (int, int)| #[trigger]
        is_place(runs, at) ==> has_key(runs, places, key_at(runs, at))
}

/// The keys of a run are in ascending order.
pub open spec fn is_run(run: Seq<MergeKey>) -> bool {
    forall|p: int, q: int|
        0 <= p < q < run.len() ==> !key_before(#[trigger] run[q], #[trigger] run[p])
}

/// Lists with the same elements that ascend in one order are equal.
pub proof fn one_ascending_list<A>(before: spec_fn(A, A) -> bool, a: Seq<A>, b: Seq<A>)
    requires
        forall|x: A, y: A| #[trigger] before(x, y) ==> !before(y, x),
        forall|i: int, j: int| 0 <= i < j < a.len() ==> before(#[trigger] a[i], #[trigger] a[j]),
        forall|i: int, j: int| 0 <= i < j < b.len() ==> before(#[trigger] b[i], #[trigger] b[j]),
        forall|i: int| 0 <= i < a.len() ==> b.contains(#[trigger] a[i]),
        forall|i: int| 0 <= i < b.len() ==> a.contains(#[trigger] b[i]),
    ensures
        a == b,
{
    assert forall|p: int| 0 <= p < a.len() && p < b.len() implies a[p] == b[p] by {
        lemma_ascending_at(before, a, b, p);
    }
    if a.len() < b.len() {
        let p = a.len() as int;
        let j = choose|j: int| 0 <= j < a.len() && a[j] == b[p];
        assert(b[j] == a[j]);
        assert(before(b[j], b[p]));
    }
    if b.len() < a.len() {
        let p = b.len() as int;
        let j = choose|j: int| 0 <= j < b.len() && b[j] == a[p];
        assert(b[j] == a[j]);
        assert(before(a[j], a[p]));
    }
    assert(a =~= b);
}

proof fn lemma_ascending_at<A>(before: spec_fn(A, A) -> bool, a: Seq<A>, b: Seq<A>, p: int)
    requires
        forall|x: A, y: A| #[trigger] before(x, y) ==> !before(y, x),
        forall|i: int, j: int| 0 <= i < j < a.len() ==> before(#[trigger] a[i], #[trigger] a[j]),
        forall|i: int, j: int| 0 <= i < j < b.len() ==> before(#[trigger] b[i], #[trigger] b[j]),
        forall|i: int| 0 <= i < a.len() ==> b.contains(#[trigger] a[i]),
        forall|i: int| 0 <= i < b.len() ==> a.contains(#[trigger] b[i]),
        0 <= p < a.len(),
        p < b.len(),
    ensures
        a[p] == b[p],
    decreases p,
{
    assert forall|q: int| 0 <= q < p implies a[q] == b[q] by {
        lemma_ascending_at(before, a, b, q);
    }
    if a[p] != b[p] {
        let i = choose|i: int| 0 <= i < b.len() && b[i] == a[p];
        let j = choose|j: int| 0 <= j < a.len() && a[j] == b[p];
        if i < p {
            assert(a[i] == b[i]);
            assert(before(a[i], a[p]));
        }
        if j < p {
            assert(a[j] == b[j]);
            assert(before(b[j], b[p]));
        }
        assert(before(b[p], b[i]));
        assert(before(a[p], a[j]));
    }
}

/// There is one outcome of a merge.
pub proof fn merging_is_unique(
    runs: Seq<Seq<MergeKey>>,
    a: Seq<(int, int)>,
    b: Seq<(int, int)>,
)
    requires
        is_merge(runs, a),
        is_merge(runs, b),
    ensures
        a == b,
{
    let before = |x: (int, int), y: (int, int)| key_before(key_at(runs, x), key_at(runs, y));
    lemma_same_elements(runs, a, b);
    lemma_same_elements(runs, b, a);
    assert forall|i: int, j: int| 0 <= i < j < a.len() implies before(
        #[trigger] a[i],
        #[trigger] a[j],
    ) by {}
    assert forall|i: int, j: int| 0 <= i < j < b.len() implies before(
        #[trigger] b[i],
        #[trigger] b[j],
    ) by {}
    one_ascending_list(before, a, b);
}

proof fn lemma_same_elements(
    runs: Seq<Seq<MergeKey>>,
    a: Seq<(int, int)>,
    b: Seq<(int, int)>,
)
    requires
        is_merge(runs, a),
        is_merge(runs, b),
    ensures
        forall|i: int| 0 <= i < a.len() ==> b.contains(#[trigger] a[i]),
{
    assert forall|i: int| 0 <= i < a.len() implies b.contains(#[trigger] a[i]) by {
        assert(is_place(runs, a[i]));
        assert(has_key(runs, b, key_at(runs, a[i])));
        let k = choose|k: int|
            0 <= k < b.len() && key_at(runs, #[trigger] b[k]) == key_at(runs, a[i]);
        assert(is_place(runs, b[k]));
        assert(is_newest(runs, a[i]));
        assert(is_newest(runs, b[k]));
        assert(!is_newer(b[k], a[i]));
        assert(!is_newer(a[i], b[k]));
        assert(b[k] == a[i]);
    }
}

/// Every position is within its run, or just behind it.
spec fn are_positions(runs: Seq<Seq<MergeKey>>, positions: Seq<usize>) -> bool {
    &&& positions.len() == runs.len()
    &&& forall|c: int|
        0 <= c < runs.len() ==> (#[trigger] positions[c]) <= runs[c].len()
}

/// The place has been passed.
spec fn is_passed(runs: Seq<Seq<MergeKey>>, positions: Seq<usize>, at: (int, int)) -> bool {
    is_place(runs, at) && at.1 < positions[at.0]
}

/// The place is still ahead.
spec fn is_ahead(runs: Seq<Seq<MergeKey>>, positions: Seq<usize>, at: (int, int)) -> bool {
    is_place(runs, at) && at.1 >= positions[at.0]
}

/// All runs are in order.
pub open spec fn are_runs(runs: Seq<Seq<MergeKey>>) -> bool {
    forall|c: int| 0 <= c < runs.len() ==> is_run(#[trigger] runs[c])
}

/// The run whose next key is the least, if any run has a next key.
fn least_run(runs: &Vec<Vec<MergeKey>>, positions: &Vec<usize>) -> (r: Option<usize>)
    requires
        are_runs(runs_of(runs@)),
        are_positions(runs_of(runs@), positions@),
    ensures
        match r {
            None => forall|at: (int, int)| !#[trigger] is_ahead(runs_of(runs@), positions@, at),
            Some(m) => {
                let model = runs_of(runs@);
                &&& m < runs@.len()
                &&& is_ahead(model, positions@, (m as int, positions@[m as int] as int))
                &&& forall|at: (int, int)| #[trigger]
                    is_ahead(model, positions@, at) ==> !key_before(
                        key_at(model, at),
                        model[m as int][positions@[m as int] as int],
                    )
            },
        },
{
    let ghost model = runs_of(runs@);
    let mut best: Option<usize> = None;
    let mut c: usize = 0;
    while c < runs.len()
        invariant
            c <= runs.len(),
            model == runs_of(runs@),
            are_positions(model, positions@),
            match best {
                None => forall|d: int|
                    0 <= d < c ==> (#[trigger] positions@[d]) == model[d].len(),
                Some(m) => {
                    &&& m < c
                    &&& positions@[m as int] < model[m as int].len()
                    &&& forall|d: int|
                        0 <= d < c && (#[trigger] positions@[d]) < model[d].len() ==> !key_before(
                            model[d][positions@[d] as int],
                            model[m as int][positions@[m as int] as int],
                        )
                },
            },
        decreases runs.len() - c,
    {
        assert(model[c as int] == runs@[c as int]@);
        assert(positions@[c as int] <= model[c as int].len());
        if positions[c] < runs[c].len() {
            match best {
                None => {
                    best = Some(c);
                },
                Some(m) => {
                    assert(model[m as int] == runs@[m as int]@);
                    if is_key_before(runs[c][positions[c]], runs[m][positions[m]]) {
                        best = Some(c);
                    }
                },
            }
        }
        c = c + 1;
    }
    proof {
        match best {
            None => {
                assert forall|at: (int, int)| !#[trigger] is_ahead(model, positions@, at) by {
                    if is_ahead(model, positions@, at) {
                        assert(positions@[at.0] == model[at.0].len());
                    }
                }
            },
            Some(m) => {
                let least = model[m as int][positions@[m as int] as int];
                assert forall|at: (int, int)| #[trigger]
                    is_ahead(model, positions@, at) implies !key_before(
                    key_at(model, at),
                    least,
                ) by {
                    let head = model[at.0][positions@[at.0] as int];
                    assert(!key_before(head, least));
                    assert(is_run(model[at.0]));
                    if at.1 > positions@[at.0] {
                        assert(!key_before(model[at.0][at.1], head));
                    }
                }
            },
        }
    }
    best
}

/// Pass every key that equals `key`, which none ahead comes before, and tell
/// the newest of them.
fn pass_equal(runs: &Vec<Vec<MergeKey>>, positions: &mut Vec<usize>, key: MergeKey) -> (r: (
    usize,
    usize,
))
    requires
        are_runs(runs_of(runs@)),
        are_positions(runs_of(runs@), old(positions)@),
        exists|at: (int, int)| #[trigger]
            is_ahead(runs_of(runs@), old(positions)@, at) && key_at(runs_of(runs@), at) == key,
        forall|at: (int, int)| #[trigger]
            is_ahead(runs_of(runs@), old(positions)@, at) ==> !key_before(
                key_at(runs_of(runs@), at),
                key,
            ),
    ensures
        ({
            let model = runs_of(runs@);
            let at = (r.0 as int, r.1 as int);
            &&& are_positions(model, final(positions)@)
            &&& forall|c: int|
                0 <= c < model.len() ==> old(positions)@[c] <= #[trigger] final(positions)@[c]
            &&& is_ahead(model, old(positions)@, at)
            &&& is_passed(model, final(positions)@, at)
            &&& key_at(model, at) == key
            &&& forall|other: (int, int)| #[trigger]
                is_ahead(model, old(positions)@, other) && is_passed(
                    model,
                    final(positions)@,
                    other,
                ) ==> key_at(model, other) == key && !is_newer(other, at)
            &&& forall|other: (int, int)| #[trigger]
                is_ahead(model, final(positions)@, other) ==> key_before(
                    key,
                    key_at(model, other),
                )
        }),
{
    let ghost model = runs_of(runs@);
    let ghost start = positions@;
    let mut best: Option<(usize, usize)> = None;
    let mut c: usize = 0;
    while c < runs.len()
        invariant
            c <= runs.len(),
            model == runs_of(runs@),
            are_runs(model),
            are_positions(model, start),
            are_positions(model, positions@),
            forall|d: int| 0 <= d < model.len() ==> start[d] <= #[trigger] positions@[d],
            forall|d: int| c <= d < model.len() ==> start[d] == #[trigger] positions@[d],
            forall|at: (int, int)| #[trigger]
                is_ahead(model, start, at) ==> !key_before(key_at(model, at), key),
            forall|other: (int, int)| #[trigger]
                is_ahead(model, start, other) && is_passed(model, positions@, other) ==> key_at(
                    model,
                    other,
                ) == key && best is Some && !is_newer(
                    other,
                    (best.unwrap().0 as int, best.unwrap().1 as int),
                ),
            best matches Some(at) ==> {
                let place = (at.0 as int, at.1 as int);
                &&& is_ahead(model, start, place)
                &&& is_passed(model, positions@, place)
                &&& key_at(model, place) == key
                &&& at.0 < c
            },
            forall|other: (int, int)| #[trigger]
                is_ahead(model, positions@, other) && other.0 < c ==> key_before(
                    key,
                    key_at(model, other),
                ),
        decreases runs.len() - c,
    {
        assert(model[c as int] == runs@[c as int]@);
        let from: usize = positions[c];
        let mut p: usize = from;
        while p < runs[c].len() && is_same_key(runs[c][p], key)
            invariant
                c < runs.len(),
                model == runs_of(runs@),
                model[c as int] == runs@[c as int]@,
                from <= p <= runs@[c as int]@.len(),
                forall|q: int| from <= q < p ==> (#[trigger] model[c as int][q]) == key,
            ensures
                p == model[c as int].len() || model[c as int][p as int] != key,
            decreases runs@[c as int]@.len() - p,
        {
            p = p + 1;
        }
        let ghost before = positions@;
        let ghost old_best = best;
        positions.set(c, p);
        if p > from {
            best = Some((c, p - 1));
        }
        proof {
            assert forall|d: int| 0 <= d < model.len() implies (#[trigger] positions@[d])
                <= model[d].len() by {
                assert(before[d] <= model[d].len());
            }
            assert forall|d: int| 0 <= d < model.len() implies start[d]
                <= #[trigger] positions@[d] by {
                assert(start[d] <= before[d]);
            }
            assert forall|d: int| c + 1 <= d < model.len() implies start[d]
                == #[trigger] positions@[d] by {
                assert(start[d] == before[d]);
            }
            assert forall|other: (int, int)| #[trigger]
                is_ahead(model, start, other) && is_passed(model, positions@, other) implies key_at(
                model,
                other,
            ) == key && best is Some && !is_newer(
                other,
                (best.unwrap().0 as int, best.unwrap().1 as int),
            ) by {
                if other.0 == c {
                    assert(start[c as int] == before[c as int]);
                    assert(model[c as int][other.1] == key);
                } else {
                    assert(is_passed(model, before, other));
                    assert(other.0 < c) by {
                        if other.0 > c {
                            assert(start[other.0] == before[other.0]);
                        }
                    }
                }
            }
            if p > from {
                let place = (c as int, p - 1);
                assert(start[c as int] == before[c as int]);
                assert(is_ahead(model, start, place));
                assert(is_passed(model, positions@, place));
            } else if old_best is Some {
                let place = (old_best.unwrap().0 as int, old_best.unwrap().1 as int);
                assert(is_passed(model, before, place));
                assert(is_passed(model, positions@, place));
            }
            assert forall|other: (int, int)| #[trigger]
                is_ahead(model, positions@, other) && other.0 < c + 1 implies key_before(
                key,
                key_at(model, other),
            ) by {
                if other.0 == c {
                    assert(start[c as int] == before[c as int]);
                    assert(is_run(model[c as int]));
                    let head = model[c as int][p as int];
                    assert(is_ahead(model, start, (c as int, p as int)));
                    assert(!key_before(key_at(model, (c as int, p as int)), key));
                    assert(key_before(key, head));
                    if other.1 > p {
                        assert(!key_before(model[c as int][other.1], head));
                    }
                } else {
                    assert(is_ahead(model, before, other));
                }
            }
        }
        c = c + 1;
    }
    proof {
        let at = choose|at: (int, int)| #[trigger]
            is_ahead(model, start, at) && key_at(model, at) == key;
        if best is None {
            if is_passed(model, positions@, at) {
            } else {
                assert(is_ahead(model, positions@, at));
            }
        }
    }
    best.unwrap()
}

/// Places, as integers.
pub open spec fn places_of(places: Seq<(usize, usize)>) -> Seq<(int, int)> {
    places.map_values(|at: (usize, usize)| (at.0 as int, at.1 as int))
}

/// What has been kept so far is the merge of what has been passed.
spec fn is_part_merge(
    runs: Seq<Seq<MergeKey>>,
    positions: Seq<usize>,
    places: Seq<(int, int)>,
) -> bool {
    &&& are_positions(runs, positions)
    &&& forall|k: int| 0 <= k < places.len() ==> is_passed(runs, positions, #[trigger] places[k])
    &&& forall|k: int| 0 <= k < places.len() ==> is_newest(runs, #[trigger] places[k])
    &&& forall|i: int, j: int|
        0 <= i < j < places.len() ==> key_before(
            key_at(runs, #[trigger] places[i]),
            key_at(runs, #[trigger] places[j]),
        )
    &&& forall|at: (int, int)| #[trigger]
        is_passed(runs, positions, at) ==> has_key(runs, places, key_at(runs, at))
    &&& forall|k: int, at: (int, int)|
        0 <= k < places.len() && #[trigger] is_ahead(runs, positions, at) ==> key_before(
            key_at(runs, #[trigger] places[k]),
            key_at(runs, at),
        )
}

proof fn lemma_merge_step(
    runs: Seq<Seq<MergeKey>>,
    before: Seq<usize>,
    after: Seq<usize>,
    places: Seq<(int, int)>,
    at: (int, int),
)
    requires
        is_part_merge(runs, before, places),
        are_positions(runs, after),
        forall|c: int| 0 <= c < runs.len() ==> before[c] <= #[trigger] after[c],
        is_ahead(runs, before, at),
        is_passed(runs, after, at),
        forall|other: (int, int)| #[trigger]
            is_ahead(runs, before, other) && is_passed(runs, after, other) ==> key_at(runs, other)
                == key_at(runs, at) && !is_newer(other, at),
        forall|other: (int, int)| #[trigger]
            is_ahead(runs, after, other) ==> key_before(key_at(runs, at), key_at(runs, other)),
    ensures
        is_part_merge(runs, after, places.push(at)),
{
    let all = places.push(at);
    let n = places.len() as int;
    assert forall|k: int| 0 <= k < all.len() implies is_passed(runs, after, #[trigger] all[k]) by {
        if k < n {
            assert(is_passed(runs, before, places[k]));
            assert(before[places[k].0] <= after[places[k].0]);
        }
    }
    assert forall|k: int| 0 <= k < all.len() implies is_newest(runs, #[trigger] all[k]) by {
        if k < n {
            assert(is_newest(runs, places[k]));
        } else {
            assert forall|other: (int, int)| #[trigger]
                is_place(runs, other) && key_at(runs, other) == key_at(runs, at) implies !is_newer(
                other,
                at,
            ) by {
                if is_passed(runs, before, other) {
                    assert(has_key(runs, places, key_at(runs, other)));
                    let m = choose|m: int|
                        0 <= m < places.len() && key_at(runs, #[trigger] places[m]) == key_at(
                            runs,
                            other,
                        );
                    assert(key_before(key_at(runs, places[m]), key_at(runs, at)));
                } else {
                    assert(is_ahead(runs, before, other));
                    if !is_passed(runs, after, other) {
                        assert(is_ahead(runs, after, other));
                    }
                }
            }
        }
    }
    assert forall|i: int, j: int| 0 <= i < j < all.len() implies key_before(
        key_at(runs, #[trigger] all[i]),
        key_at(runs, #[trigger] all[j]),
    ) by {
        if j == n {
            assert(key_before(key_at(runs, places[i]), key_at(runs, at)));
        } else {
            assert(key_before(key_at(runs, places[i]), key_at(runs, places[j])));
        }
    }
    assert forall|other: (int, int)| #[trigger] is_passed(runs, after, other) implies has_key(
        runs,
        all,
        key_at(runs, other),
    ) by {
        if is_passed(runs, before, other) {
            assert(has_key(runs, places, key_at(runs, other)));
            let m = choose|m: int|
                0 <= m < places.len() && key_at(runs, #[trigger] places[m]) == key_at(runs, other);
            assert(all[m] == places[m]);
        } else {
            assert(is_ahead(runs, before, other));
            assert(all[n] == at);
        }
    }
    assert forall|k: int, other: (int, int)|
        0 <= k < all.len() && #[trigger] is_ahead(runs, after, other) implies key_before(
        key_at(runs, #[trigger] all[k]),
        key_at(runs, other),
    ) by {
        if k < n {
            assert(is_ahead(runs, before, other)) by {
                assert(before[other.0] <= after[other.0]);
            }
            assert(key_before(key_at(runs, places[k]), key_at(runs, other)));
        }
    }
}

/// The number of keys that are still ahead, from the `c`-th run on.
spec fn ahead_from(runs: Seq<Seq<MergeKey>>, positions: Seq<usize>, c: int) -> int
    decreases runs.len() - c,
{
    if c < 0 || c >= runs.len() {
        0
    } else {
        runs[c].len() - positions[c] + ahead_from(runs, positions, c + 1)
    }
}

proof fn lemma_fewer_ahead(
    runs: Seq<Seq<MergeKey>>,
    before: Seq<usize>,
    after: Seq<usize>,
    c: int,
    passed: int,
)
    requires
        are_positions(runs, before),
        are_positions(runs, after),
        forall|d: int| 0 <= d < runs.len() ==> before[d] <= #[trigger] after[d],
        0 <= c <= runs.len(),
        c <= passed < runs.len() ==> before[passed] < after[passed],
        0 <= passed < runs.len(),
    ensures
        0 <= ahead_from(runs, after, c) <= ahead_from(runs, before, c),
        c <= passed ==> ahead_from(runs, after, c) < ahead_from(runs, before, c),
    decreases runs.len() - c,
{
    if c < runs.len() {
        assert(before[c] <= after[c]);
        assert(after[c] <= runs[c].len());
        lemma_fewer_ahead(runs, before, after, c + 1, passed);
    }
}

/// Merge sorted runs. Of equal keys only the newest is kept: that of the latest
/// run, and within a run the last.
pub fn merge_runs(runs: &Vec<Vec<MergeKey>>) -> (r: Vec<(usize, usize)>)
    requires
        are_runs(runs_of(runs@)),
    ensures
        is_merge(runs_of(runs@), places_of(r@)),
{
    let ghost model = runs_of(runs@);
    let mut positions: Vec<usize> = Vec::new();
    let mut c: usize = 0;
    while c < runs.len()
        invariant
            c <= runs.len(),
            positions@.len() == c,
            forall|d: int| 0 <= d < c ==> (#[trigger] positions@[d]) == 0,
        decreases runs.len() - c,
    {
        positions.push(0);
        c = c + 1;
    }
    let mut places: Vec<(usize, usize)> = Vec::new();
    assert(places_of(places@) =~= Seq::empty());
    proof {
        lemma_ahead_is_not_negative(model, positions@, 0);
    }
    loop
        invariant
            model == runs_of(runs@),
            are_runs(model),
            is_part_merge(model, positions@, places_of(places@)),
            ahead_from(model, positions@, 0) >= 0,
        ensures
            forall|at: (int, int)| !#[trigger] is_ahead(model, positions@, at),
        decreases ahead_from(model, positions@, 0),
    {
        let m: usize = match least_run(runs, &positions) {
            None => {
                break;
            },
            Some(m) => m,
        };
        assert(model[m as int] == runs@[m as int]@);
        let key = runs[m][positions[m]];
        let ghost before = positions@;
        proof {
            let head = (m as int, before[m as int] as int);
            assert(is_ahead(model, before, head) && key_at(model, head) == key);
        }
        let at = pass_equal(runs, &mut positions, key);
        proof {
            let place = (at.0 as int, at.1 as int);
            lemma_merge_step(model, before, positions@, places_of(places@), place);
            lemma_fewer_ahead(model, before, positions@, 0, place.0);
            assert(places_of(places@.push(at)) =~= places_of(places@).push(place));
        }
        places.push(at);
    }
    proof {
        let out = places_of(places@);
        assert forall|at: (int, int)| #[trigger] is_place(model, at) implies has_key(
            model,
            out,
            key_at(model, at),
        ) by {
            assert(!is_ahead(model, positions@, at));
            assert(is_passed(model, positions@, at));
        }
        assert forall|k: int| 0 <= k < out.len() implies is_place(model, #[trigger] out[k]) by {
            assert(is_passed(model, positions@, out[k]));
        }
    }
    places
}

proof fn lemma_ahead_is_not_negative(runs: Seq<Seq<MergeKey>>, positions: Seq<usize>, c: int)
    requires
        are_positions(runs, positions),
        0 <= c <= runs.len(),
    ensures
        ahead_from(runs, positions, c) >= 0,
    decreases runs.len() - c,
{
    if c < runs.len() {
        assert(positions[c] <= runs[c].len());
        lemma_ahead_is_not_negative(runs, positions, c + 1);
    }
}

} // verus!
