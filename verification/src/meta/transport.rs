//! What the Raft transport decides: how a snapshot is cut into chunks, and
//! where a node is to be found.
use vstd::prelude::*;

use crate::meta::types::NodeId;
use crate::sorted_map::SortedMap;
#[allow(unused_imports)]
use crate::meta::model::lookup;
use crate::text::numbered_text;
#[allow(unused_imports)]
use crate::text::numbered;

verus! {

/// Default snapshot chunk size: 4 MiB.
///
/// Large snapshots that approach the transport's message limit risk exhausting
/// memory on both sender and receiver. The helpers below split snapshot data
/// into fixed-size chunks for safer transfer.
pub const SNAPSHOT_CHUNK_SIZE: usize = 4194304;

/// `data` cut into pieces of `size` bytes; the last one may be shorter. There
/// is always a last one, also where there is no data.
pub open spec fn chunks_of(data: Seq<u8>, size: nat) -> Seq<Seq<u8>>
    decreases data.len(),
{
    if size == 0 || data.len() <= size {
        seq![data]
    } else {
        seq![data.take(size as int)] + chunks_of(data.skip(size as int), size)
    }
}

/// The chunks one behind the other.
pub open spec fn concatenation(chunks: Seq<Seq<u8>>) -> Seq<u8>
    decreases chunks.len(),
{
    if chunks.len() == 0 {
        Seq::<u8>::empty()
    } else {
        concatenation(chunks.drop_last()) + chunks.last()
    }
}

/// The chunk size that is used: at least one byte.
pub open spec fn effective_size(chunk_size: usize) -> nat {
    if chunk_size == 0 {
        1
    } else {
        chunk_size as nat
    }
}

/// The bytes of `data` from `from` up to, but not including, `to`.
fn piece(data: &[u8], from: usize, to: usize) -> (r: Vec<u8>)
    requires
        from <= to <= data.len(),
    ensures
        r@ == data@.subrange(from as int, to as int),
{
    let mut out: Vec<u8> = Vec::new();
    let mut i: usize = from;
    while i < to
        invariant
            from <= i <= to <= data.len(),
            out@ == data@.subrange(from as int, i as int),
        decreases to - i,
    {
        out.push(data[i]);
        assert(data@.subrange(from as int, i + 1) =~= data@.subrange(from as int, i as int).push(
            data@[i as int],
        ));
        i = i + 1;
    }
    out
}

/// Split snapshot data into fixed-size chunks for transfer.
///
/// Each chunk is at most `chunk_size` bytes. The last chunk may be smaller.
/// An empty input produces a single empty chunk to preserve round-trip
/// semantics with [`assemble_snapshot_chunks`].
pub fn chunk_snapshot(data: &[u8], chunk_size: usize) -> (r: Vec<Vec<u8>>)
    ensures
        r.deep_view() == chunks_of(data@, effective_size(chunk_size)),
{
    let size: usize = if chunk_size == 0 {
        1
    } else {
        chunk_size
    };
    let mut chunks: Vec<Vec<u8>> = Vec::new();
    let ghost all = chunks_of(data@, size as nat);
    let mut at: usize = 0;
    assert(data@.skip(0) =~= data@);
    assert(chunks.deep_view() + chunks_of(data@.skip(0), size as nat) =~= all);
    while data.len() - at > size
        invariant
            at <= data.len(),
            size > 0,
            chunks.deep_view() + chunks_of(data@.skip(at as int), size as nat) == all,
        decreases data.len() - at,
    {
        let chunk = piece(data, at, at + size);
        let ghost rest = data@.skip(at as int);
        let ghost before = chunks.deep_view();
        proof {
            assert(chunk.deep_view() =~= rest.take(size as int));
            assert(rest.skip(size as int) =~= data@.skip(at + size));
        }
        chunks.push(chunk);
        proof {
            assert(chunks.deep_view() =~= before.push(rest.take(size as int)));
            assert(chunks.deep_view() + chunks_of(data@.skip(at + size), size as nat) =~= before
                + (seq![rest.take(size as int)] + chunks_of(
                rest.skip(size as int),
                size as nat,
            )));
        }
        at = at + size;
    }
    let chunk = piece(data, at, data.len());
    let ghost before = chunks.deep_view();
    let ghost rest = data@.skip(at as int);
    assert(chunk.deep_view() =~= rest);
    chunks.push(chunk);
    assert(chunks.deep_view() =~= before + seq![rest]);
    chunks
}

/// Reassemble chunks produced by [`chunk_snapshot`] into the original
/// snapshot data: all chunks in order, one behind the other.
pub fn assemble_snapshot_chunks(chunks: &[Vec<u8>]) -> (r: Vec<u8>)
    ensures
        r@ == concatenation(chunks@.map_values(|c: Vec<u8>| c@)),
{
    let ghost model = chunks@.map_values(|c: Vec<u8>| c@);
    let mut out: Vec<u8> = Vec::new();
    let mut i: usize = 0;
    assert(model.take(0) =~= Seq::empty());
    while i < chunks.len()
        invariant
            i <= chunks.len(),
            model == chunks@.map_values(|c: Vec<u8>| c@),
            out@ == concatenation(model.take(i as int)),
        decreases chunks.len() - i,
    {
        assert(model.take(i + 1).drop_last() =~= model.take(i as int));
        out.extend_from_slice(chunks[i].as_slice());
        assert(out@ =~= concatenation(model.take(i as int)) + model[i as int]);
        i = i + 1;
    }
    assert(model.take(model.len() as int) =~= model);
    out
}

proof fn lemma_concatenation_front(first: Seq<u8>, rest: Seq<Seq<u8>>)
    ensures
        concatenation(seq![first] + rest) == first + concatenation(rest),
    decreases rest.len(),
{
    let all = seq![first] + rest;
    if rest.len() == 0 {
        reveal_with_fuel(concatenation, 2);
        assert(all.last() == first);
        assert(concatenation(all) =~= first + concatenation(rest));
    } else {
        lemma_concatenation_front(first, rest.drop_last());
        assert(all.drop_last() =~= seq![first] + rest.drop_last());
        assert(all.last() == rest.last());
        assert(concatenation(all) =~= first + concatenation(rest));
    }
}

/// Chunks put together again are the data that was cut, whatever the size.
pub proof fn chunks_reassemble(data: Seq<u8>, size: nat)
    ensures
        concatenation(chunks_of(data, size)) == data,
    decreases data.len(),
{
    if size == 0 || data.len() <= size {
        let one = seq![data];
        reveal_with_fuel(concatenation, 2);
        assert(concatenation(one) =~= data);
    } else {
        chunks_reassemble(data.skip(size as int), size);
        lemma_concatenation_front(data.take(size as int), chunks_of(data.skip(size as int), size));
        assert(data.take(size as int) + data.skip(size as int) =~= data);
    }
}

/// No chunk is longer than the size, and only the last one is shorter.
pub proof fn chunks_have_the_size(data: Seq<u8>, size: nat, i: int)
    requires
        size > 0,
        0 <= i < chunks_of(data, size).len(),
    ensures
        chunks_of(data, size)[i].len() <= size,
        i < chunks_of(data, size).len() - 1 ==> chunks_of(data, size)[i].len() == size,
        data.len() > 0 ==> chunks_of(data, size)[i].len() > 0,
    decreases data.len(),
{
    if data.len() > size && i > 0 {
        chunks_have_the_size(data.skip(size as int), size, i - 1);
    }
}

/// Maps node IDs to gRPC endpoint addresses.
#[derive(Debug)]
pub struct NodeAddressMap {
    map: SortedMap<NodeId, String>,
}

impl View for NodeAddressMap {
    type V = Map<NodeId, Seq<char>>;

    closed spec fn view(&self) -> Map<NodeId, Seq<char>> {
        self.map@
    }
}

impl NodeAddressMap {
    /// Create a new, empty address map.
    pub fn new() -> (r: Self)
        ensures
            r@ == Map::<NodeId, Seq<char>>::empty(),
    {
        NodeAddressMap { map: SortedMap::new() }
    }

    /// Register an endpoint address for a node.
    pub fn insert(&mut self, node_id: NodeId, addr: &str)
        ensures
            final(self)@ == old(self)@.insert(node_id, addr@),
    {
        self.map.insert(node_id, addr.to_owned());
    }

    /// Remove a node's address.
    pub fn remove(&mut self, node_id: NodeId)
        ensures
            final(self)@ == old(self)@.remove(node_id),
    {
        let _ = self.map.remove(&node_id);
    }

    /// Look up a node's endpoint address.
    pub fn get(&self, node_id: NodeId) -> (r: Option<String>)
        ensures
            r.deep_view() == lookup(self@, node_id),
    {
        match self.map.get(&node_id) {
            Some(addr) => Some(addr.clone()),
            None => None,
        }
    }

    /// Look up the address of a peer that is to be called, or say why it
    /// cannot be called.
    pub fn require(&self, node_id: NodeId) -> (r: Result<String, String>)
        ensures
            self@.contains_key(node_id) ==> (r matches Ok(addr) && addr@ == self@[node_id]),
            !self@.contains_key(node_id) ==> (r matches Err(reason) && reason@ == numbered(
                "no address for node ",
                node_id,
                "",
            )),
    {
        match self.map.get(&node_id) {
            Some(addr) => Ok(addr.clone()),
            None => Err(numbered_text("no address for node ", node_id, "")),
        }
    }

    /// Number of registered addresses.
    pub fn len(&self) -> (r: usize)
        ensures
            r == crate::sorted_map::enumeration::<NodeId, Seq<char>>(self@).len(),
            crate::sorted_map::map_of(
                crate::sorted_map::enumeration::<NodeId, Seq<char>>(self@),
            ) == self@,
            crate::sorted_map::ascending::<NodeId, Seq<char>>(
                crate::sorted_map::enumeration::<NodeId, Seq<char>>(self@),
            ),
    {
        self.map.len()
    }

    /// Whether the map is empty.
    pub fn is_empty(&self) -> (r: bool)
        ensures
            r == (self@ == Map::<NodeId, Seq<char>>::empty()),
    {
        self.map.is_empty()
    }
}

impl Default for NodeAddressMap {
    fn default() -> (r: Self)
        ensures
            r@ == Map::<NodeId, Seq<char>>::empty(),
    {
        NodeAddressMap::new()
    }
}

} // verus!
