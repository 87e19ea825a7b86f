//! Hash functions over byte strings.

use sha2::Digest;
use vstd::prelude::*;

use crate::bytes::{array32, lemma_array32};

verus! {

/// A function from byte strings to 32-byte digests.
pub trait Hasher {
    /// The digest of `data`.
    spec fn digest(data: Seq<u8>) -> [u8; 32];

    /// Computes the digest of `data`.
    fn hash(data: &[u8]) -> (r: [u8; 32])
        ensures
            r == Self::digest(data@),
    ;
}

/// The SHA-256 digest of `data`.
pub uninterp spec fn sha256_digest(data: Seq<u8>) -> Seq<u8>;

/// Calls `sha2::Sha256::digest`. The contract says that the result is a function of the
/// bytes hashed and of nothing else; what that function is stays unsaid.
#[verifier::external_body]
fn sha256(data: &[u8]) -> (r: [u8; 32])
    ensures
        r@ == sha256_digest(data@),
{
    sha2::Sha256::digest(data).into()
}

/// SHA-256.
pub struct Sha256;

impl Hasher for Sha256 {
    open spec fn digest(data: Seq<u8>) -> [u8; 32] {
        array32(sha256_digest(data))
    }

    fn hash(data: &[u8]) -> (r: [u8; 32]) {
        let r = sha256(data);
        proof {
            lemma_array32(r);
        }
        r
    }
}

} // verus!
