//! Series identity: the canonical form of a measurement and its tags.
use vstd::prelude::*;
use vstd::string::*;

#[allow(unused_imports)]
use crate::hash::fnv1a;
use crate::hash::fnv_hash;
use crate::sorted_map::SortedMap;

verus! {

broadcast use vstd::string::group_string_axioms;

/// The time column of every measurement.
pub open spec fn time_column() -> Seq<char> {
    "timestamp"@
}

/// The name of the time column.
pub fn time_column_name() -> (r: &'static str)
    ensures
        r@ == time_column(),
{
    "timestamp"
}

/// The tag that scopes a series to a namespace.
pub open spec fn namespace_tag() -> Seq<char> {
    "__namespace__"@
}

/// The canonical form of a series: `measurement\0tag1=v1\0tag2=v2`, with the
/// tags in the order given.
pub open spec fn canonical(measurement: Seq<char>, tags: Seq<(Seq<char>, Seq<char>)>) -> Seq<char>
    decreases tags.len(),
{
    if tags.len() == 0 {
        measurement
    } else {
        canonical(measurement, tags.drop_last()) + "\0"@ + tags.last().0 + "="@ + tags.last().1
    }
}

/// Append one tag to a canonical form.
pub fn push_tag(out: &mut String, name: &str, value: &str)
    ensures
        final(out)@ == old(out)@ + "\0"@ + name@ + "="@ + value@,
{
    out.append("\0");
    out.append(name);
    out.append("=");
    out.append(value);
}

/// The FNV-1a hash of a canonical form.
pub open spec fn series_hash(form: Seq<char>) -> u64 {
    fnv1a(vstd::utf8::encode_utf8(form))
}

/// Hash a canonical form.
pub fn hash_canonical(form: &str) -> (r: u64)
    ensures
        r == series_hash(form@),
{
    fnv_hash(form.as_bytes())
}

/// A measurement and the tags that tell one of its series from the others.
#[derive(Debug)]
pub struct SeriesKey {
    measurement: String,
    tags: SortedMap<String, String>,
}

/// What a series key stands for.
#[verifier::ext_equal]
pub struct SeriesKeyModel {
    /// Measurement name.
    pub measurement: Seq<char>,
    /// Tag names and values, in ascending order of the names.
    pub tags: Seq<(Seq<char>, Seq<char>)>,
}

impl View for SeriesKey {
    type V = SeriesKeyModel;

    closed spec fn view(&self) -> SeriesKeyModel {
        SeriesKeyModel { measurement: self.measurement@, tags: self.tags.pairs() }
    }
}

impl SeriesKeyModel {
    /// The value of a tag.
    pub open spec fn tag(self, name: Seq<char>) -> Option<Seq<char>> {
        if exists|i: int| 0 <= i < self.tags.len() && (#[trigger] self.tags[i]).0 == name {
            Some(
                self.tags[choose|i: int|
                    0 <= i < self.tags.len() && (#[trigger] self.tags[i]).0 == name].1,
            )
        } else {
            None
        }
    }
}

impl SeriesKey {
    /// The series of `measurement` with these tags.
    pub fn new(measurement: &str, tags: SortedMap<String, String>) -> (r: Self)
        ensures
            r@.measurement == measurement@,
            r@.tags == tags.pairs(),
    {
        SeriesKey { measurement: measurement.to_owned(), tags }
    }

    /// Measurement name.
    pub fn measurement(&self) -> (r: &str)
        ensures
            r@ == self@.measurement,
    {
        self.measurement.as_str()
    }

    /// Number of tags.
    pub fn tag_count(&self) -> (r: usize)
        ensures
            r == self@.tags.len(),
    {
        self.tags.len()
    }

    /// The name of the `i`-th tag, in ascending order.
    pub fn tag_name(&self, i: usize) -> (r: &String)
        requires
            i < self@.tags.len(),
        ensures
            r@ == self@.tags[i as int].0,
    {
        self.tags.key_at(i)
    }

    /// The value of a tag.
    pub fn tag(&self, name: &String) -> (r: Option<&String>)
        ensures
            match r {
                Some(value) => self@.tag(name@) == Some(value@),
                None => self@.tag(name@) is None,
            },
    {
        self.tags.get(name)
    }

    /// The canonical form of the series.
    pub fn canonical_form(&self) -> (r: String)
        ensures
            r@ == canonical(self@.measurement, self@.tags),
    {
        let mut out = self.measurement.clone();
        let mut i: usize = 0;
        let n: usize = self.tags.len();
        let ghost tags = self@.tags;
        while i < n
            invariant
                i <= n,
                tags == self@.tags,
                n == tags.len(),
                out@ == canonical(self@.measurement, tags.take(i as int)),
            decreases n - i,
        {
            push_tag(&mut out, self.tags.key_at(i).as_str(), self.tags.value_at(i).as_str());
            proof {
                assert(tags.take(i + 1).drop_last() =~= tags.take(i as int));
                assert(tags.take(i + 1).last() == tags[i as int]);
            }
            i = i + 1;
        }
        proof {
            assert(tags.take(n as int) =~= tags);
        }
        out
    }
}

} // verus!
