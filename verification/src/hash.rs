//! SHA-256, as the save format's integrity primitive.

use sha2::Digest;
use vstd::prelude::*;

verus! {

/// The SHA-256 digest of a byte sequence. The algorithm itself is not
/// restated here; the digest is a pure function of the input bytes, and
/// `sha256` below computes it.
pub uninterp spec fn sha256_of(s: Seq<u8>) -> Seq<u8>;

/// Relies on sha2::Sha256::digest: computes the SHA-256 digest of the
/// input, a pure function of the input bytes, always 32 bytes long.
#[verifier::external_body]
pub fn sha256(data: &Vec<u8>) -> (r: Vec<u8>)
    ensures
        r@ == sha256_of(data@),
        r@.len() == 32,
{
    let d = sha2::Sha256::digest(data.as_slice());
    d.to_vec()
}

} // verus!
