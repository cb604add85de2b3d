//! Finding the group of a row by its key.
//!
//! The hash of a key is only a bucket selector: the full key is compared, so a
//! collision cannot merge two groups.
use vstd::prelude::*;
use vstd::string::*;

use std::collections::HashMap;

use crate::hash::fnv_hash;
#[allow(unused_imports)]
use crate::hash::fnv1a;
use crate::query::error::{invalid, QueryError};
#[allow(unused_imports)]
use crate::query::frame::optional_texts;
use crate::query::memory::MemoryTracker;
use crate::text::same_text;

verus! {

broadcast use {vstd::string::group_string_axioms, vstd::std_specs::hash::group_hash_axioms};

/// The most groups that may share a hash where the chain length is limited.
pub const MAX_CHAIN: usize = 1024;

/// The key of a group: one text, or null, per group-by column.
pub type GroupKey = Seq<Option<Seq<char>>>;

/// The bytes that one part of a key adds to its hash.
pub open spec fn part_bytes(part: Option<Seq<char>>) -> Seq<u8> {
    match part {
        None => seq![0u8],
        Some(text) => seq![1u8] + vstd::utf8::encode_utf8(text) + seq![0xffu8],
    }
}

/// The bytes that are hashed for a key.
pub open spec fn key_bytes(key: GroupKey) -> Seq<u8>
    decreases key.len(),
{
    if key.len() == 0 {
        Seq::empty()
    } else {
        key_bytes(key.drop_last()) + part_bytes(key.last())
    }
}

/// The hash of a key.
pub open spec fn key_hash(key: GroupKey) -> u64 {
    fnv1a(key_bytes(key))
}

/// The groups known after `ks`, starting from the groups `gs`: a new key is
/// added where it is first seen.
pub open spec fn groups_after(gs: Seq<GroupKey>, ks: Seq<GroupKey>) -> Seq<GroupKey>
    decreases ks.len(),
{
    if ks.len() == 0 {
        gs
    } else {
        let before = groups_after(gs, ks.drop_last());
        if before.contains(ks.last()) {
            before
        } else {
            before.push(ks.last())
        }
    }
}

/// The groups with this hash, by their numbers.
pub open spec fn chain_of(gs: Seq<GroupKey>, hash: u64) -> Seq<int>
    decreases gs.len(),
{
    if gs.len() == 0 {
        Seq::empty()
    } else {
        let before = chain_of(gs.drop_last(), hash);
        if key_hash(gs.last()) == hash {
            before.push(gs.len() - 1)
        } else {
            before
        }
    }
}

/// As many groups as are allowed share the key's hash already.
pub open spec fn is_crowded(gs: Seq<GroupKey>, key: GroupKey) -> bool {
    chain_of(gs, key_hash(key)).len() >= MAX_CHAIN
}

/// No key occurs twice.
pub open spec fn distinct(gs: Seq<GroupKey>) -> bool {
    forall|i: int, j: int| 0 <= i < j < gs.len() ==> #[trigger] gs[i] != #[trigger] gs[j]
}

/// Groups that start distinct stay distinct, keep their numbers, and come to
/// hold every key.
pub proof fn groups_are_distinct(gs: Seq<GroupKey>, ks: Seq<GroupKey>)
    requires
        distinct(gs),
    ensures
        distinct(groups_after(gs, ks)),
        gs.len() <= groups_after(gs, ks).len(),
        groups_after(gs, ks).take(gs.len() as int) == gs,
        forall|i: int|
            0 <= i < ks.len() ==> groups_after(gs, ks).contains(#[trigger] ks[i]),
    decreases ks.len(),
{
    if ks.len() > 0 {
        let rest = ks.drop_last();
        groups_are_distinct(gs, rest);
        let before = groups_after(gs, rest);
        let all = groups_after(gs, ks);
        assert forall|i: int| 0 <= i < ks.len() implies all.contains(#[trigger] ks[i]) by {
            if i < ks.len() - 1 {
                assert(rest[i] == ks[i]);
                let k = choose|k: int| 0 <= k < before.len() && before[k] == ks[i];
                assert(all[k] == ks[i]);
            } else if !before.contains(ks.last()) {
                assert(all[all.len() - 1] == ks.last());
            }
        }
        assert(all.take(gs.len() as int) =~= gs) by {
            assert(forall|i: int|
                0 <= i < gs.len() ==> #[trigger] before.take(gs.len() as int)[i] == gs[i]);
            assert forall|i: int| 0 <= i < gs.len() implies all.take(gs.len() as int)[i] == gs[i] by {
                assert(before.take(gs.len() as int)[i] == gs[i]);
                assert(before[i] == gs[i]);
            }
        }
    } else {
        assert(gs.take(gs.len() as int) =~= gs);
    }
}

/// A group that was not there at the start is where its key was first seen:
/// it comes from one of the keys.
pub proof fn new_groups_come_from_keys(gs: Seq<GroupKey>, ks: Seq<GroupKey>, g: int)
    requires
        gs.len() <= g < groups_after(gs, ks).len(),
    ensures
        ks.contains(groups_after(gs, ks)[g]),
    decreases ks.len(),
{
    if ks.len() > 0 {
        let before = groups_after(gs, ks.drop_last());
        if g < before.len() {
            new_groups_come_from_keys(gs, ks.drop_last(), g);
            let k = choose|k: int|
                0 <= k < ks.drop_last().len() && ks.drop_last()[k] == before[g];
            assert(ks[k] == before[g]);
        } else {
            assert(ks[ks.len() - 1] == ks.last());
        }
    }
}

proof fn lemma_chain(gs: Seq<GroupKey>, hash: u64)
    ensures
        chain_of(gs, hash).len() <= gs.len(),
        forall|c: int|
            0 <= c < chain_of(gs, hash).len() ==> 0 <= #[trigger] chain_of(gs, hash)[c] < gs.len()
                && key_hash(gs[chain_of(gs, hash)[c]]) == hash,
        forall|i: int|
            0 <= i < gs.len() && key_hash(#[trigger] gs[i]) == hash ==> chain_of(gs, hash).contains(
                i,
            ),
    decreases gs.len(),
{
    if gs.len() > 0 {
        let rest = gs.drop_last();
        let n = gs.len() - 1;
        lemma_chain(rest, hash);
        let before = chain_of(rest, hash);
        let all = chain_of(gs, hash);
        assert forall|c: int| 0 <= c < all.len() implies 0 <= #[trigger] all[c] < gs.len()
            && key_hash(gs[all[c]]) == hash by {
            if c < before.len() {
                assert(before[c] == all[c]);
                assert(rest[before[c]] == gs[before[c]]);
            }
        }
        assert forall|i: int| 0 <= i < gs.len() && key_hash(#[trigger] gs[i]) == hash implies all
            .contains(i) by {
            if i < n {
                assert(rest[i] == gs[i]);
                assert(before.contains(i));
                let c = choose|c: int| 0 <= c < before.len() && before[c] == i;
                assert(all[c] == i);
            } else {
                assert(all[all.len() - 1] == i);
            }
        }
    }
}

/// Whether two keys are the same.
fn same_key(a: &Vec<Option<String>>, b: &Vec<Option<String>>) -> (r: bool)
    ensures
        r == (optional_texts(a@) == optional_texts(b@)),
{
    let ghost left = optional_texts(a@);
    let ghost right = optional_texts(b@);
    if a.len() != b.len() {
        assert(left.len() != right.len());
        return false;
    }
    let mut i: usize = 0;
    while i < a.len()
        invariant
            i <= a.len() == b.len(),
            left == optional_texts(a@),
            right == optional_texts(b@),
            forall|j: int| 0 <= j < i ==> #[trigger] left[j] == right[j],
        decreases a.len() - i,
    {
        let same = match (&a[i], &b[i]) {
            (None, None) => true,
            (Some(x), Some(y)) => same_text(x.as_str(), y.as_str()),
            _ => false,
        };
        assert(same == (left[i as int] == right[i as int]));
        if !same {
            return false;
        }
        i = i + 1;
    }
    assert(left =~= right);
    true
}

/// The hash of a key.
fn hash_key(key: &Vec<Option<String>>) -> (r: u64)
    ensures
        r == key_hash(optional_texts(key@)),
{
    let ghost model = optional_texts(key@);
    let mut bytes: Vec<u8> = Vec::new();
    let mut i: usize = 0;
    while i < key.len()
        invariant
            i <= key.len(),
            model == optional_texts(key@),
            bytes@ == key_bytes(model.take(i as int)),
        decreases key.len() - i,
    {
        let ghost before = bytes@;
        match &key[i] {
            None => {
                bytes.push(0);
            },
            Some(text) => {
                bytes.push(1);
                let encoded = text.as_str().as_bytes();
                let mut b: usize = 0;
                while b < encoded.len()
                    invariant
                        b <= encoded.len(),
                        bytes@ == before + seq![1u8] + encoded@.take(b as int),
                    decreases encoded.len() - b,
                {
                    bytes.push(encoded[b]);
                    assert(encoded@.take(b + 1) =~= encoded@.take(b as int).push(
                        encoded@[b as int],
                    ));
                    b = b + 1;
                }
                assert(encoded@.take(b as int) =~= encoded@);
                bytes.push(0xff);
            },
        }
        proof {
            assert(bytes@ =~= before + part_bytes(model[i as int]));
            assert(model.take(i + 1).drop_last() =~= model.take(i as int));
            assert(model.take(i + 1).last() == model[i as int]);
        }
        i = i + 1;
    }
    assert(model.take(key.len() as int) =~= model);
    fnv_hash(bytes.as_slice())
}

/// The groups seen so far, and an index of them by hash.
#[derive(Debug)]
pub struct GroupIndex {
    keys: Vec<Vec<Option<String>>>,
    chains: HashMap<u64, Vec<usize>>,
}

impl View for GroupIndex {
    type V = Seq<GroupKey>;

    closed spec fn view(&self) -> Seq<GroupKey> {
        self.keys@.map_values(|key: Vec<Option<String>>| optional_texts(key@))
    }
}

/// What can go wrong when a row is assigned to its group.
pub enum GroupFailure {
    /// Too many groups share the key's hash.
    Crowded,
    /// The memory budget does not allow for another group.
    OverBudget,
}

/// What a memory tracker has in use, and its limit.
pub open spec fn account(tracker: Option<MemoryTracker>) -> Option<(int, int)> {
    match tracker {
        None => None,
        Some(t) => Some((t.used() as int, t.limit() as int)),
    }
}

/// An account after `bytes` more were allocated.
pub open spec fn charged(account: Option<(int, int)>, bytes: int) -> Option<(int, int)> {
    match account {
        None => None,
        Some((used, limit)) => Some((used + bytes, limit)),
    }
}

/// Why the row with this key cannot be assigned to a group, if it cannot.
/// `bytes` is what a new group takes.
pub open spec fn group_failure(
    gs: Seq<GroupKey>,
    key: GroupKey,
    limited: bool,
    account: Option<(int, int)>,
    bytes: usize,
) -> Option<GroupFailure> {
    if limited && is_crowded(gs, key) {
        Some(GroupFailure::Crowded)
    } else if !gs.contains(key) && (account matches Some((used, limit)) && used + bytes > limit) {
        Some(GroupFailure::OverBudget)
    } else {
        None
    }
}

impl GroupFailure {
    /// The error under which the failure is reported.
    pub open spec fn reported_as(
        self,
        e: QueryError,
        account: Option<(int, int)>,
        bytes: usize,
    ) -> bool {
        match self {
            GroupFailure::Crowded => e.is_validation(
                "group-by hash chain length exceeded limit (possible collision attack)"@,
            ),
            GroupFailure::OverBudget => {
                &&& e matches QueryError::QueryMemoryExceeded { requested, allocated, budget }
                &&& requested == bytes
                &&& Some((allocated as int, budget as int)) == account
            },
        }
    }
}

impl GroupIndex {
    spec fn chain(&self, hash: u64) -> Seq<int> {
        if self.chains@.contains_key(hash) {
            self.chains@[hash]@.map_values(|i: usize| i as int)
        } else {
            Seq::empty()
        }
    }

    #[verifier::type_invariant]
    spec fn is_indexed(&self) -> bool {
        &&& distinct(self@)
        &&& forall|hash: u64| #[trigger] self.chain(hash) == chain_of(self@, hash)
    }

    /// No groups.
    pub fn new() -> (r: Self)
        ensures
            r@ == Seq::<GroupKey>::empty(),
    {
        let keys: Vec<Vec<Option<String>>> = Vec::new();
        let r = GroupIndex { keys, chains: HashMap::new() };
        assert(r@ =~= Seq::<GroupKey>::empty());
        r
    }

    /// Number of groups.
    pub fn len(&self) -> (r: usize)
        ensures
            r == self@.len(),
            distinct(self@),
    {
        proof {
            use_type_invariant(self);
        }
        self.keys.len()
    }

    /// The keys of the groups.
    pub fn keys(&self) -> (r: &Vec<Vec<Option<String>>>)
        ensures
            r@.map_values(|key: Vec<Option<String>>| optional_texts(key@)) == self@,
            distinct(self@),
    {
        proof {
            use_type_invariant(self);
        }
        &self.keys
    }

    /// Find the group of a row, or add it.
    pub fn place(
        &mut self,
        key: Vec<Option<String>>,
        limited: bool,
        tracker: &mut Option<MemoryTracker>,
        bytes: usize,
    ) -> (r: Result<usize, QueryError>)
        ensures
            ({
                let k = optional_texts(key@);
                match group_failure(old(self)@, k, limited, account(*old(tracker)), bytes) {
                    Some(failure) => {
                        &&& r matches Err(e)
                        &&& failure.reported_as(e, account(*old(tracker)), bytes)
                        &&& final(self)@ == old(self)@
                        &&& account(*final(tracker)) == account(*old(tracker))
                    },
                    None => {
                        &&& r matches Ok(g)
                        &&& g < final(self)@.len()
                        &&& final(self)@[g as int] == k
                        &&& final(self)@ == groups_after(old(self)@, seq![k])
                        &&& account(*final(tracker)) == charged(
                            account(*old(tracker)),
                            if old(self)@.contains(k) {
                                0
                            } else {
                                bytes as int
                            },
                        )
                    },
                }
            }),
    {
        let ghost k = optional_texts(key@);
        let ghost gs = self@;
        let hash: u64 = hash_key(&key);
        proof {
            use_type_invariant(&*self);
            lemma_chain(gs, hash);
            assert(self.chain(hash) == chain_of(gs, hash));
            assert(seq![k].drop_last() =~= Seq::<GroupKey>::empty());
            assert(groups_after(gs, Seq::<GroupKey>::empty()) == gs);
            assert(groups_after(gs, seq![k]) == if gs.contains(k) {
                gs
            } else {
                gs.push(k)
            });
        }
        let mut found: Option<usize> = None;
        if let Some(chain) = self.chains.get(&hash) {
            assert(self.chain(hash).len() == chain@.len());
            if limited && chain.len() >= MAX_CHAIN {
                return Err(
                    invalid(
                        "group-by hash chain length exceeded limit (possible collision attack)",
                    ),
                );
            }
            let mut c: usize = 0;
            while c < chain.len() && found.is_none()
                invariant
                    c <= chain.len(),
                    gs == self@,
                    k == optional_texts(key@),
                    forall|d: int|
                        0 <= d < chain@.len() ==> (#[trigger] chain@[d]) as int == chain_of(
                            gs,
                            hash,
                        )[d],
                    chain@.len() == chain_of(gs, hash).len(),
                    forall|d: int|
                        0 <= d < chain_of(gs, hash).len() ==> 0 <= #[trigger] chain_of(gs, hash)[d]
                            < gs.len(),
                    found is None ==> forall|d: int|
                        0 <= d < c ==> gs[#[trigger] chain_of(gs, hash)[d]] != k,
                    found matches Some(g) ==> g < gs.len() && gs[g as int] == k,
                decreases chain.len() - c + if found is None { 1int } else { 0int },
            {
                let g: usize = chain[c];
                assert(g as int == chain_of(gs, hash)[c as int]);
                assert(gs[g as int] == optional_texts(self.keys@[g as int]@));
                if same_key(&self.keys[g], &key) {
                    found = Some(g);
                } else {
                    c = c + 1;
                }
            }
        } else {
            assert(self.chain(hash) =~= Seq::<int>::empty());
        }
        proof {
            if found is None {
                assert forall|i: int| 0 <= i < gs.len() implies gs[i] != k by {
                    if gs[i] == k {
                        assert(key_hash(gs[i]) == hash);
                        assert(chain_of(gs, hash).contains(i));
                    }
                }
                assert(!gs.contains(k));
            }
        }
        if let Some(g) = found {
            assert(gs[g as int] == k);
            assert(gs.contains(k));
            return Ok(g);
        }
        match tracker {
            Some(t) => {
                match t.try_allocate(bytes) {
                    Ok(_) => {},
                    Err(e) => {
                        return Err(e);
                    },
                }
            },
            None => {},
        }
        let g: usize = self.keys.len();
        let mut keys: Vec<Vec<Option<String>>> = Vec::new();
        let mut chains: HashMap<u64, Vec<usize>> = HashMap::new();
        let ghost old_keys = self.keys@;
        let ghost old_chains = self.chains@;
        let ghost before = *self;
        assert(before.is_indexed());
        self.swap_out(&mut keys, &mut chains);
        let mut chain: Vec<usize> = match chains.remove(&hash) {
            Some(chain) => chain,
            None => Vec::new(),
        };
        chain.push(g);
        let ghost new_chain = chain@;
        chains.insert(hash, chain);
        keys.push(key);
        let ghost all = keys@.map_values(|key: Vec<Option<String>>| optional_texts(key@));
        proof {
            assert(all =~= gs.push(k));
            assert(all.drop_last() =~= gs);
            assert forall|h: u64| #[trigger] chain_of(all, h) == if h == hash {
                chain_of(gs, h).push(g as int)
            } else {
                chain_of(gs, h)
            } by {}
            assert forall|h: u64|
                #![trigger chain_of(all, h)]
                (if chains@.contains_key(h) {
                    chains@[h]@.map_values(|i: usize| i as int)
                } else {
                    Seq::<int>::empty()
                }) =~= chain_of(all, h) by {
                assert(before.chain(h) == chain_of(gs, h));
            }
            assert forall|i: int, j: int| 0 <= i < j < all.len() implies #[trigger] all[i]
                != #[trigger] all[j] by {
                if j == gs.len() {
                    assert(all[i] == gs[i]);
                } else {
                    assert(gs[i] != gs[j]);
                }
            }
        }
        let done = GroupIndex { keys, chains };
        *self = done;
        Ok(g)
    }

    fn swap_out(&mut self, keys: &mut Vec<Vec<Option<String>>>, chains: &mut HashMap<u64, Vec<usize>>)
        requires
            old(keys)@.len() == 0,
            old(chains)@ == Map::<u64, Vec<usize>>::empty(),
        ensures
            final(keys)@ == old(self).keys@,
            final(chains)@ == old(self).chains@,
    {
        let mut empty = GroupIndex::new();
        std::mem::swap(self, &mut empty);
        *keys = empty.keys;
        *chains = empty.chains;
    }
}

} // verus!
