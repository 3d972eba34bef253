//! The ledger's standard hash function, reached through the consensus
//! library. Its output is named, never restated: contracts speak of
//! `sha256_of` and the logic around it is proved for every value of it.

use vstd::prelude::*;

verus! {

/// The digest that the ledger's standard single-round hash assigns to a
/// byte string. A function of the bytes alone.
pub uninterp spec fn sha256_of(data: Seq<u8>) -> Seq<u8>;

/// Relies on `bitcoin::hashes::sha256::Hash::hash`: the SHA-256 digest of
/// the input bytes alone, always 32 bytes long.
#[verifier::external_body]
pub(crate) fn sha256(data: &Vec<u8>) -> (r: Vec<u8>)
    ensures
        r@ == sha256_of(data@),
        r@.len() == 32,
{
    let h = <bitcoin::hashes::sha256::Hash as bitcoin::hashes::Hash>::hash(data.as_slice());
    let arr: [u8; 32] = <bitcoin::hashes::sha256::Hash as bitcoin::hashes::Hash>::into_inner(h);
    arr.to_vec()
}

} // verus!
