//! The digest that tells messages apart.

use vstd::prelude::*;

verus! {

/// The SHA3-256 digest of `data`.
pub uninterp spec fn sha3_256(data: Seq<u8>) -> Seq<u8>;

/// Calls `sha3::Sha3_256::digest`, the one-shot form of the hasher of the
/// `sha3` crate, and copies the output into a vector. The digest is taken to
/// be a function of the bytes hashed; nothing else is claimed of it.
#[verifier::external_body]
pub(crate) fn sha3_256_digest(data: &Vec<u8>) -> (r: Vec<u8>)
    ensures
        r@ == sha3_256(data@),
{
    <sha3::Sha3_256 as sha3::Digest>::digest(data.as_slice()).to_vec()
}

} // verus!
