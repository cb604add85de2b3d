//! The FNV-1a hash.
use vstd::prelude::*;

use std::hash::Hasher;

verus! {

/// The 64-bit FNV-1a hash of `bytes`: starting from the offset basis, each
/// byte is exclusive-ored in and the result multiplied by the FNV prime,
/// modulo two to the sixty-fourth.
pub open spec fn fnv1a(bytes: Seq<u8>) -> u64
    decreases bytes.len(),
{
    if bytes.len() == 0 {
        0xcbf2_9ce4_8422_2325
    } else {
        (((fnv1a(bytes.drop_last()) ^ (bytes.last() as u64)) * 0x100_0000_01b3)
            % 0x1_0000_0000_0000_0000) as u64
    }
}

/// Hash `bytes` with a fresh `fnv::FnvHasher`: its `write` of the whole
/// sequence, then `finish`. The contract says that this is FNV-1a.
#[verifier::external_body]
pub(crate) fn fnv_hash(bytes: &[u8]) -> (r: u64)
    ensures
        r == fnv1a(bytes@),
{
    let mut hasher = fnv::FnvHasher::default();
    hasher.write(bytes);
    hasher.finish()
}

} // verus!
