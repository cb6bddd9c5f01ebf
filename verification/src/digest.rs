//! Content digests.

use crate::bytes::{law_le_bytes_of_value, le_value, lemma_byte_ranges, read_le};
use vstd::prelude::*;

verus! {

/// The BLAKE3 digest of a byte string.
pub uninterp spec fn blake3_digest(input: Seq<u8>) -> Seq<u8>;

/// `blake3::hash`: the 32-byte digest, which depends on the bytes alone. Hashing a byte string piece by
/// piece with `blake3::Hasher` gives the same.
#[verifier::external_body]
pub(crate) fn digest(input: &[u8]) -> (digest: [u8; 32])
    ensures
        digest@ == blake3_digest(input@),
{
    *blake3::hash(input).as_bytes()
}

/// The number that the first sixteen bytes of the digest stand for.
pub open spec fn digest_key(input: Seq<u8>) -> u128 {
    le_value(blake3_digest(input).take(16)) as u128
}

pub(crate) fn key_of(input: &[u8]) -> (key: u128)
    ensures
        key == digest_key(input@),
{
    let whole = digest(input);
    let mut prefix: Vec<u8> = Vec::with_capacity(16);
    for index in 0..16usize
        invariant
            prefix@ == whole@.take(index as int),
            whole@.len() == 32,
    {
        prefix.push(whole[index]);
        assert(prefix@ =~= whole@.take(index + 1));
    }
    proof {
        law_le_bytes_of_value(prefix@);
        lemma_byte_ranges();
    }
    read_le(prefix.as_slice())
}

} // verus!
