//! A map whose entries lie in ascending key order.
//!
//! Keys are integers or texts. Entries can be read by their position, so that a
//! loop over a map can say how far it has come.
//!
//! The map is modelled by a mathematical [`Map`] from key models to value
//! models; the ascending enumeration of its entries is part of the model too,
//! because the order in which the entries are walked decides results.
use vstd::prelude::*;

use crate::duplicate::Duplicate;
use crate::text::is_text_before;
#[allow(unused_imports)]
use crate::text::{
    lemma_text_before_irreflexive, lemma_text_before_total, lemma_text_before_transitive,
};

verus! {

/// A key with a strict total order on its model.
pub trait Key: Duplicate {
    /// `a` comes before `b`.
    spec fn precedes(a: <Self as DeepView>::V, b: <Self as DeepView>::V) -> bool;

    /// The order is irreflexive and total.
    proof fn lemma_strict_total(a: <Self as DeepView>::V, b: <Self as DeepView>::V)
        ensures
            !Self::precedes(a, a),
            a == b || Self::precedes(a, b) || Self::precedes(b, a),
    ;

    /// The order is transitive.
    proof fn lemma_transitive(
        a: <Self as DeepView>::V,
        b: <Self as DeepView>::V,
        c: <Self as DeepView>::V,
    )
        requires
            Self::precedes(a, b),
            Self::precedes(b, c),
        ensures
            Self::precedes(a, c),
    ;

    /// Whether this key comes before `other`.
    fn is_before(&self, other: &Self) -> (r: bool)
        ensures
            r == Self::precedes(self.deep_view(), other.deep_view()),
    ;
}

impl Key for u64 {
    open spec fn precedes(a: u64, b: u64) -> bool {
        a < b
    }

    proof fn lemma_strict_total(a: u64, b: u64) {
    }

    proof fn lemma_transitive(a: u64, b: u64, c: u64) {
    }

    fn is_before(&self, other: &Self) -> (r: bool) {
        *self < *other
    }
}

impl Key for String {
    open spec fn precedes(a: Seq<char>, b: Seq<char>) -> bool {
        crate::text::text_before(a, b)
    }

    proof fn lemma_strict_total(a: Seq<char>, b: Seq<char>) {
        lemma_text_before_irreflexive(a);
        lemma_text_before_total(a, b);
    }

    proof fn lemma_transitive(a: Seq<char>, b: Seq<char>, c: Seq<char>) {
        lemma_text_before_transitive(a, b, c);
    }

    fn is_before(&self, other: &Self) -> (r: bool) {
        is_text_before(self.as_str(), other.as_str())
    }
}

/// The map that a sequence of key-value pairs describes.
pub open spec fn map_of<A, B>(pairs: Seq<(A, B)>) -> Map<A, B> {
    Map::new(
        |k: A| exists|i: int| 0 <= i < pairs.len() && (#[trigger] pairs[i]).0 == k,
        |k: A| pairs[choose|i: int| 0 <= i < pairs.len() && (#[trigger] pairs[i]).0 == k].1,
    )
}

/// The pairs lie in strictly ascending key order.
pub open spec fn ascending<K: Key, B>(pairs: Seq<(<K as DeepView>::V, B)>) -> bool {
    forall|i: int, j: int|
        0 <= i < j < pairs.len() ==> K::precedes((#[trigger] pairs[i]).0, (#[trigger] pairs[j]).0)
}

/// In an ascending sequence a key occurs once, so each pair is what the map
/// holds for its key.
pub proof fn lemma_map_of_ascending<K: Key, B>(pairs: Seq<(<K as DeepView>::V, B)>)
    requires
        ascending::<K, B>(pairs),
    ensures
        forall|i: int|
            0 <= i < pairs.len() ==> map_of(pairs).contains_key((#[trigger] pairs[i]).0)
                && map_of(pairs)[pairs[i].0] == pairs[i].1,
{
    assert forall|i: int| 0 <= i < pairs.len() implies map_of(pairs).contains_key(
        (#[trigger] pairs[i]).0,
    ) && map_of(pairs)[pairs[i].0] == pairs[i].1 by {
        let k = pairs[i].0;
        let c = choose|c: int| 0 <= c < pairs.len() && (#[trigger] pairs[c]).0 == k;
        assert(pairs[c].0 == k);
        K::lemma_strict_total(k, k);
        assert(c == i);
    }
}

/// Two ascending sequences that describe the same map are the same: a map has
/// one ascending enumeration.
pub proof fn lemma_ascending_unique<K: Key, B>(
    p: Seq<(<K as DeepView>::V, B)>,
    q: Seq<(<K as DeepView>::V, B)>,
)
    requires
        ascending::<K, B>(p),
        ascending::<K, B>(q),
        map_of(p) == map_of(q),
    ensures
        p == q,
    decreases p.len(),
{
    lemma_map_of_ascending::<K, B>(p);
    lemma_map_of_ascending::<K, B>(q);
    if p.len() == 0 {
        if q.len() > 0 {
            assert(map_of(q).contains_key(q[0].0));
            assert(map_of(p).contains_key(q[0].0));
        }
        assert(p =~= q);
    } else {
        assert(map_of(q).contains_key(p[0].0));
        assert(q.len() > 0);
        let pl = p.last();
        let ql = q.last();
        // Both last keys are the greatest key of the map.
        assert(map_of(p).contains_key(ql.0));
        assert(map_of(q).contains_key(pl.0));
        let i = choose|i: int| 0 <= i < p.len() && (#[trigger] p[i]).0 == ql.0;
        let j = choose|j: int| 0 <= j < q.len() && (#[trigger] q[j]).0 == pl.0;
        if pl.0 != ql.0 {
            assert(i < p.len() - 1);
            assert(K::precedes(p[i].0, p[p.len() - 1].0));
            assert(j < q.len() - 1);
            assert(K::precedes(q[j].0, q[q.len() - 1].0));
            K::lemma_transitive(ql.0, pl.0, ql.0);
            K::lemma_strict_total(ql.0, ql.0);
        }
        assert(pl.0 == ql.0);
        assert(pl.1 == ql.1) by {
            assert(p[p.len() - 1] == pl);
            assert(q[q.len() - 1] == ql);
        }
        let p1 = p.drop_last();
        let q1 = q.drop_last();
        assert(ascending::<K, B>(p1));
        assert(ascending::<K, B>(q1));
        lemma_map_of_ascending::<K, B>(p1);
        lemma_map_of_ascending::<K, B>(q1);
        assert forall|k: <K as DeepView>::V| map_of(p1).contains_key(k) <==> map_of(
            q1,
        ).contains_key(k) by {
            if map_of(p1).contains_key(k) {
                let a = choose|a: int| 0 <= a < p1.len() && (#[trigger] p1[a]).0 == k;
                assert(p[a].0 == k);
                assert(K::precedes(p[a].0, p[p.len() - 1].0));
                K::lemma_strict_total(k, k);
                assert(map_of(q).contains_key(k));
                let b = choose|b: int| 0 <= b < q.len() && (#[trigger] q[b]).0 == k;
                assert(b < q.len() - 1);
                assert(q1[b].0 == k);
            }
            if map_of(q1).contains_key(k) {
                let a = choose|a: int| 0 <= a < q1.len() && (#[trigger] q1[a]).0 == k;
                assert(q[a].0 == k);
                assert(K::precedes(q[a].0, q[q.len() - 1].0));
                K::lemma_strict_total(k, k);
                assert(map_of(p).contains_key(k));
                let b = choose|b: int| 0 <= b < p.len() && (#[trigger] p[b]).0 == k;
                assert(b < p.len() - 1);
                assert(p1[b].0 == k);
            }
        }
        assert forall|k: <K as DeepView>::V| #[trigger] map_of(p1).contains_key(k) implies map_of(
            p1,
        )[k] == map_of(q1)[k] by {
            let a = choose|a: int| 0 <= a < p1.len() && (#[trigger] p1[a]).0 == k;
            assert(p[a].0 == k);
            assert(map_of(q1).contains_key(k));
            let b = choose|b: int| 0 <= b < q1.len() && (#[trigger] q1[b]).0 == k;
            assert(q[b].0 == k);
        }
        assert(map_of(p1) =~= map_of(q1));
        lemma_ascending_unique::<K, B>(p1, q1);
        assert(p =~= p1.push(pl));
        assert(q =~= q1.push(ql));
    }
}

/// The ascending enumeration of a map.
pub open spec fn enumeration<K: Key, B>(m: Map<<K as DeepView>::V, B>) -> Seq<
    (<K as DeepView>::V, B),
> {
    choose|pairs: Seq<(<K as DeepView>::V, B)>| ascending::<K, B>(pairs) && map_of(pairs) == m
}

/// An ascending sequence is the enumeration of the map that it describes.
pub proof fn lemma_enumeration<K: Key, B>(pairs: Seq<(<K as DeepView>::V, B)>)
    requires
        ascending::<K, B>(pairs),
    ensures
        enumeration::<K, B>(map_of(pairs)) == pairs,
{
    let chosen = enumeration::<K, B>(map_of(pairs));
    assert(ascending::<K, B>(pairs) && map_of(pairs) == map_of(pairs));
    lemma_ascending_unique::<K, B>(chosen, pairs);
}

/// Two enumerations with the same keys, the second of which has `f` applied to
/// each value, describe a map and that map with `f` applied.
pub proof fn lemma_map_of_values<K: Key, B>(
    p: Seq<(<K as DeepView>::V, B)>,
    q: Seq<(<K as DeepView>::V, B)>,
    f: spec_fn(B) -> B,
)
    requires
        ascending::<K, B>(p),
        p.len() == q.len(),
        forall|i: int|
            0 <= i < p.len() ==> (#[trigger] q[i]).0 == p[i].0 && q[i].1 == f(p[i].1),
    ensures
        map_of(q) == map_of(p).map_values(f),
{
    assert(ascending::<K, B>(q)) by {
        assert forall|i: int, j: int| 0 <= i < j < q.len() implies K::precedes(
            (#[trigger] q[i]).0,
            (#[trigger] q[j]).0,
        ) by {
            assert(K::precedes(p[i].0, p[j].0));
        }
    }
    lemma_map_of_ascending::<K, B>(p);
    lemma_map_of_ascending::<K, B>(q);
    let want = map_of(p).map_values(f);
    assert forall|k: <K as DeepView>::V| map_of(q).contains_key(k) <==> want.contains_key(k) by {
        if map_of(q).contains_key(k) {
            let i = choose|i: int| 0 <= i < q.len() && (#[trigger] q[i]).0 == k;
            assert(p[i].0 == k);
        }
        if want.contains_key(k) {
            let i = choose|i: int| 0 <= i < p.len() && (#[trigger] p[i]).0 == k;
            assert(q[i].0 == k);
        }
    }
    assert forall|k: <K as DeepView>::V| #[trigger] want.contains_key(k) implies map_of(q)[k]
        == want[k] by {
        let i = choose|i: int| 0 <= i < p.len() && (#[trigger] p[i]).0 == k;
        assert(q[i].0 == k);
    }
    assert(map_of(q) =~= want);
}

/// Each pair of an ascending enumeration adds its key and value to the map
/// that the pairs before it describe.
pub proof fn lemma_map_of_step<K: Key, B>(pairs: Seq<(<K as DeepView>::V, B)>, n: int)
    requires
        ascending::<K, B>(pairs),
        0 <= n < pairs.len(),
    ensures
        map_of(pairs.take(n + 1)) == map_of(pairs.take(n)).insert(pairs[n].0, pairs[n].1),
        !map_of(pairs.take(n)).contains_key(pairs[n].0),
{
    let p = pairs.take(n);
    let q = pairs.take(n + 1);
    assert(ascending::<K, B>(p));
    assert(ascending::<K, B>(q));
    lemma_map_of_ascending::<K, B>(p);
    lemma_map_of_ascending::<K, B>(q);
    let k0 = pairs[n].0;
    K::lemma_strict_total(k0, k0);
    if map_of(p).contains_key(k0) {
        let i = choose|i: int| 0 <= i < p.len() && (#[trigger] p[i]).0 == k0;
        assert(K::precedes(pairs[i].0, pairs[n].0));
    }
    let want = map_of(p).insert(k0, pairs[n].1);
    assert forall|k: <K as DeepView>::V| map_of(q).contains_key(k) <==> want.contains_key(k) by {
        if map_of(q).contains_key(k) {
            let i = choose|i: int| 0 <= i < q.len() && (#[trigger] q[i]).0 == k;
            if i < n {
                assert(p[i].0 == k);
            }
        }
        if want.contains_key(k) {
            if k == k0 {
                assert(q[n].0 == k);
            } else {
                let i = choose|i: int| 0 <= i < p.len() && (#[trigger] p[i]).0 == k;
                assert(q[i].0 == k);
            }
        }
    }
    assert forall|k: <K as DeepView>::V| #[trigger] want.contains_key(k) implies map_of(q)[k]
        == want[k] by {
        if k == k0 {
            assert(q[n].0 == k);
        } else {
            let i = choose|i: int| 0 <= i < p.len() && (#[trigger] p[i]).0 == k;
            assert(q[i] == p[i]);
        }
    }
    assert(map_of(q) =~= want);
}

/// A map from `K` to `V` that is walked in ascending key order.
#[derive(Debug, PartialEq, Eq)]
pub struct SortedMap<K: Key, V: Duplicate> {
    entries: Vec<(K, V)>,
}

impl<K: Key, V: Duplicate> DeepView for SortedMap<K, V> {
    type V = Map<<K as DeepView>::V, <V as DeepView>::V>;

    open spec fn deep_view(&self) -> Map<<K as DeepView>::V, <V as DeepView>::V> {
        map_of(self.pairs())
    }
}

impl<K: Key, V: Duplicate> View for SortedMap<K, V> {
    type V = Map<<K as DeepView>::V, <V as DeepView>::V>;

    open spec fn view(&self) -> Map<<K as DeepView>::V, <V as DeepView>::V> {
        map_of(self.pairs())
    }
}

impl<K: Key, V: Duplicate> SortedMap<K, V> {
    /// The entries in ascending key order.
    pub closed spec fn pairs(&self) -> Seq<(<K as DeepView>::V, <V as DeepView>::V)> {
        self.entries.deep_view()
    }

    #[verifier::type_invariant]
    spec fn in_order(&self) -> bool {
        ascending::<K, <V as DeepView>::V>(self.entries.deep_view())
    }

    /// An empty map.
    pub fn new() -> (r: Self)
        ensures
            r@ == Map::<<K as DeepView>::V, <V as DeepView>::V>::empty(),
            r.pairs().len() == 0,
    {
        let r = SortedMap { entries: Vec::new() };
        assert(r@ =~= Map::<<K as DeepView>::V, <V as DeepView>::V>::empty());
        r
    }

    /// Number of entries. The enumeration is ascending.
    pub fn len(&self) -> (n: usize)
        ensures
            n == self.pairs().len(),
            ascending::<K, <V as DeepView>::V>(self.pairs()),
            self.pairs() == enumeration::<K, <V as DeepView>::V>(self@),
    {
        proof {
            use_type_invariant(self);
            lemma_enumeration::<K, <V as DeepView>::V>(self.pairs());
        }
        self.entries.len()
    }

    /// Whether the map holds nothing.
    pub fn is_empty(&self) -> (r: bool)
        ensures
            r == (self.pairs().len() == 0),
            r == (self@ == Map::<<K as DeepView>::V, <V as DeepView>::V>::empty()),
    {
        proof {
            if self.pairs().len() == 0 {
                assert(self@ =~= Map::<<K as DeepView>::V, <V as DeepView>::V>::empty());
            } else {
                assert(self.pairs()[0].0 == self.pairs()[0].0);
                assert(self@.contains_key(self.pairs()[0].0));
            }
        }
        self.entries.len() == 0
    }

    /// The `i`-th key.
    pub fn key_at(&self, i: usize) -> (r: &K)
        requires
            i < self.pairs().len(),
        ensures
            r.deep_view() == self.pairs()[i as int].0,
    {
        &self.entries[i].0
    }

    /// The value of the `i`-th entry.
    pub fn value_at(&self, i: usize) -> (r: &V)
        requires
            i < self.pairs().len(),
        ensures
            r.deep_view() == self.pairs()[i as int].1,
    {
        &self.entries[i].1
    }

    /// The number of keys before `key`, and whether the next entry has `key`.
    fn position(&self, key: &K) -> (r: (usize, bool))
        ensures
            r.0 <= self.pairs().len(),
            forall|i: int|
                0 <= i < r.0 ==> K::precedes((#[trigger] self.pairs()[i]).0, key.deep_view()),
            r.1 ==> r.0 < self.pairs().len() && self.pairs()[r.0 as int].0 == key.deep_view(),
            !r.1 ==> forall|i: int|
                r.0 <= i < self.pairs().len() ==> K::precedes(
                    key.deep_view(),
                    (#[trigger] self.pairs()[i]).0,
                ),
            r.1 ==> forall|i: int|
                r.0 < i < self.pairs().len() ==> K::precedes(
                    key.deep_view(),
                    (#[trigger] self.pairs()[i]).0,
                ),
    {
        proof {
            use_type_invariant(self);
        }
        let mut lo: usize = 0;
        let mut hi: usize = self.entries.len();
        while lo < hi
            invariant
                lo <= hi <= self.pairs().len(),
                self.pairs().len() == self.entries.len(),
                ascending::<K, <V as DeepView>::V>(self.pairs()),
                forall|i: int|
                    0 <= i < lo ==> K::precedes((#[trigger] self.pairs()[i]).0, key.deep_view()),
                forall|i: int|
                    hi <= i < self.pairs().len() ==> !K::precedes(
                        (#[trigger] self.pairs()[i]).0,
                        key.deep_view(),
                    ),
            decreases hi - lo,
        {
            let mid: usize = lo + (hi - lo) / 2;
            let before: bool = self.entries[mid].0.is_before(key);
            assert(self.pairs()[mid as int].0 == self.entries@[mid as int].0.deep_view());
            if before {
                proof {
                    assert forall|i: int| 0 <= i <= mid implies K::precedes(
                        (#[trigger] self.pairs()[i]).0,
                        key.deep_view(),
                    ) by {
                        if i < mid {
                            K::lemma_transitive(
                                self.pairs()[i].0,
                                self.pairs()[mid as int].0,
                                key.deep_view(),
                            );
                        }
                    }
                }
                lo = mid + 1;
            } else {
                proof {
                    assert forall|i: int| mid <= i < self.pairs().len() implies !K::precedes(
                        (#[trigger] self.pairs()[i]).0,
                        key.deep_view(),
                    ) by {
                        if i > mid && K::precedes(self.pairs()[i].0, key.deep_view()) {
                            K::lemma_transitive(
                                self.pairs()[mid as int].0,
                                self.pairs()[i].0,
                                key.deep_view(),
                            );
                        }
                    }
                }
                hi = mid;
            }
        }
        let found: bool = lo < self.entries.len() && !key.is_before(&self.entries[lo].0);
        proof {
            let k = key.deep_view();
            if lo < self.entries.len() {
                let e = self.pairs()[lo as int].0;
                assert(e == self.entries@[lo as int].0.deep_view());
                K::lemma_strict_total(e, k);
            }
            assert forall|i: int|
                lo <= i < self.pairs().len() && (i > lo || !found) implies K::precedes(
                k,
                (#[trigger] self.pairs()[i]).0,
            ) by {
                if i > lo {
                    let e = self.pairs()[lo as int].0;
                    assert(K::precedes(e, self.pairs()[i].0));
                    if e != k {
                        K::lemma_transitive(k, e, self.pairs()[i].0);
                    }
                }
            }
        }
        (lo, found)
    }

    /// The value stored under `key`, if there is one.
    pub fn get(&self, key: &K) -> (r: Option<&V>)
        ensures
            r is Some <==> self@.contains_key(key.deep_view()),
            r matches Some(v) ==> v.deep_view() == self@[key.deep_view()],
    {
        let (at, found) = self.position(key);
        proof {
            use_type_invariant(self);
            lemma_map_of_ascending::<K, <V as DeepView>::V>(self.pairs());
            self.lemma_absent(key.deep_view(), at as int, found);
        }
        if found {
            Some(&self.entries[at].1)
        } else {
            None
        }
    }

    /// Where every earlier key precedes `k` and every later one follows it,
    /// the map holds `k` exactly when `found` says so.
    proof fn lemma_absent(&self, k: <K as DeepView>::V, at: int, found: bool)
        requires
            0 <= at <= self.pairs().len(),
            forall|i: int| 0 <= i < at ==> K::precedes((#[trigger] self.pairs()[i]).0, k),
            found ==> at < self.pairs().len() && self.pairs()[at].0 == k,
            !found ==> forall|i: int|
                at <= i < self.pairs().len() ==> K::precedes(k, (#[trigger] self.pairs()[i]).0),
        ensures
            self@.contains_key(k) == found,
    {
        K::lemma_strict_total(k, k);
        if self@.contains_key(k) && !found {
            let i = choose|i: int| 0 <= i < self.pairs().len() && (#[trigger] self.pairs()[i]).0 == k;
            assert(self.pairs()[i].0 == k);
        }
    }

    /// Whether the map holds `key`.
    pub fn contains_key(&self, key: &K) -> (r: bool)
        ensures
            r == self@.contains_key(key.deep_view()),
    {
        self.get(key).is_some()
    }

    /// Store `value` under `key`, replacing what was there.
    pub fn insert(&mut self, key: K, value: V)
        ensures
            final(self)@ == old(self)@.insert(key.deep_view(), value.deep_view()),
    {
        let (at, found) = self.position(&key);
        let ghost before = self.pairs();
        let ghost k = key.deep_view();
        let ghost v = value.deep_view();
        proof {
            use_type_invariant(&*self);
            lemma_map_of_ascending::<K, <V as DeepView>::V>(before);
            K::lemma_strict_total(k, k);
        }
        let mut entries: Vec<(K, V)> = Vec::new();
        std::mem::swap(&mut entries, &mut self.entries);
        assert(entries.deep_view() =~= before);
        if found {
            entries.set(at, (key, value));
            assert(entries.deep_view() =~= before.update(at as int, (k, v)));
        } else {
            entries.insert(at, (key, value));
            assert(entries.deep_view() =~= before.insert(at as int, (k, v)));
        }
        let ghost after = entries.deep_view();
        proof {
            assert forall|i: int, j: int| 0 <= i < j < after.len() implies K::precedes(
                (#[trigger] after[i]).0,
                (#[trigger] after[j]).0,
            ) by {
                if !found {
                    let i0 = if i < at { i } else { i - 1 };
                    let j0 = if j < at { j } else { j - 1 };
                    if i != at {
                        assert(after[i] == before[i0]);
                    }
                    if j != at {
                        assert(after[j] == before[j0]);
                    }
                } else {
                    assert(after[i].0 == before[i].0);
                    assert(after[j].0 == before[j].0);
                }
            }
            lemma_map_of_ascending::<K, <V as DeepView>::V>(after);
            let want = map_of(before).insert(k, v);
            assert forall|x: <K as DeepView>::V| map_of(after).contains_key(x)
                <==> want.contains_key(x) by {
                if map_of(after).contains_key(x) {
                    let i = choose|i: int| 0 <= i < after.len() && (#[trigger] after[i]).0 == x;
                    if i != at {
                        let i0 = if found || i < at { i } else { i - 1 };
                        assert(before[i0].0 == x);
                    }
                }
                if want.contains_key(x) {
                    if x == k {
                        assert(after[at as int].0 == k);
                    } else {
                        let i = choose|i: int|
                            0 <= i < before.len() && (#[trigger] before[i]).0 == x;
                        let i1 = if found || i < at { i } else { i + 1 };
                        assert(after[i1].0 == x);
                    }
                }
            }
            assert forall|x: <K as DeepView>::V| #[trigger] want.contains_key(x) implies map_of(
                after,
            )[x] == want[x] by {
                if x == k {
                    assert(after[at as int] == (k, v));
                } else {
                    let i = choose|i: int| 0 <= i < before.len() && (#[trigger] before[i]).0 == x;
                    let i1 = if found || i < at { i } else { i + 1 };
                    assert(after[i1] == before[i]);
                }
            }
            assert(map_of(after) =~= want);
        }
        self.entries = entries;
    }

    /// Take out what is stored under `key`.
    pub fn remove(&mut self, key: &K) -> (r: Option<V>)
        ensures
            final(self)@ == old(self)@.remove(key.deep_view()),
            r is Some <==> old(self)@.contains_key(key.deep_view()),
            r matches Some(v) ==> v.deep_view() == old(self)@[key.deep_view()],
    {
        let (at, found) = self.position(key);
        let ghost before = self.pairs();
        let ghost k = key.deep_view();
        proof {
            use_type_invariant(&*self);
            lemma_map_of_ascending::<K, <V as DeepView>::V>(before);
            self.lemma_absent(k, at as int, found);
            K::lemma_strict_total(k, k);
        }
        if !found {
            assert(map_of(before) =~= map_of(before).remove(k));
            return None;
        }
        let mut entries: Vec<(K, V)> = Vec::new();
        std::mem::swap(&mut entries, &mut self.entries);
        assert(entries.deep_view() =~= before);
        let (_, value) = entries.remove(at);
        let ghost after = entries.deep_view();
        proof {
            assert(after =~= before.remove(at as int));
            assert forall|i: int, j: int| 0 <= i < j < after.len() implies K::precedes(
                (#[trigger] after[i]).0,
                (#[trigger] after[j]).0,
            ) by {
                let i0 = if i < at { i } else { i + 1 };
                let j0 = if j < at { j } else { j + 1 };
                assert(after[i] == before[i0]);
                assert(after[j] == before[j0]);
            }
            lemma_map_of_ascending::<K, <V as DeepView>::V>(after);
            let want = map_of(before).remove(k);
            assert forall|x: <K as DeepView>::V| map_of(after).contains_key(x)
                <==> want.contains_key(x) by {
                if map_of(after).contains_key(x) {
                    let i = choose|i: int| 0 <= i < after.len() && (#[trigger] after[i]).0 == x;
                    let i0 = if i < at { i } else { i + 1 };
                    assert(before[i0].0 == x);
                    if x == k {
                        assert(K::precedes(before[i0].0, k) || K::precedes(k, before[i0].0));
                    }
                }
                if want.contains_key(x) {
                    let i = choose|i: int| 0 <= i < before.len() && (#[trigger] before[i]).0 == x;
                    let i1 = if i < at { i } else { i - 1 };
                    assert(after[i1].0 == x);
                }
            }
            assert forall|x: <K as DeepView>::V| #[trigger] want.contains_key(x) implies map_of(
                after,
            )[x] == want[x] by {
                let i = choose|i: int| 0 <= i < before.len() && (#[trigger] before[i]).0 == x;
                let i1 = if i < at { i } else { i - 1 };
                assert(after[i1] == before[i]);
            }
            assert(map_of(after) =~= want);
        }
        self.entries = entries;
        Some(value)
    }

    /// Replace the value of the `i`-th entry, keeping its key.
    pub fn set_value_at(&mut self, i: usize, value: V)
        requires
            i < old(self).pairs().len(),
        ensures
            final(self).pairs() == old(self).pairs().update(
                i as int,
                (old(self).pairs()[i as int].0, value.deep_view()),
            ),
    {
        let ghost before = self.pairs();
        proof {
            use_type_invariant(&*self);
        }
        let mut entries: Vec<(K, V)> = Vec::new();
        std::mem::swap(&mut entries, &mut self.entries);
        assert(entries.deep_view() =~= before);
        let (key, _) = entries.remove(i);
        let ghost k = key.deep_view();
        assert(k == before[i as int].0);
        entries.insert(i, (key, value));
        assert(entries.deep_view() =~= before.update(i as int, (k, value.deep_view())));
        proof {
            let after = entries.deep_view();
            assert forall|a: int, b: int| 0 <= a < b < after.len() implies K::precedes(
                (#[trigger] after[a]).0,
                (#[trigger] after[b]).0,
            ) by {
                assert(after[a].0 == before[a].0);
                assert(after[b].0 == before[b].0);
            }
        }
        self.entries = entries;
    }
}

impl<K: Key, V: Duplicate> Duplicate for SortedMap<K, V> {
    fn duplicate(&self) -> (r: Self)
        ensures
            r.pairs() == self.pairs(),
    {
        proof {
            use_type_invariant(self);
        }
        let entries = self.entries.duplicate();
        SortedMap { entries }
    }
}

} // verus!
