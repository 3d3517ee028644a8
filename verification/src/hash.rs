//! The 160-bit content digest.

use sha1::Digest;
use vstd::prelude::*;

verus! {

/// Length in bytes of a digest.
pub const DIGEST_LEN: usize = 20;

/// The SHA-1 digest of a byte sequence. The algorithm is not spelled out
/// here: the value is whatever `sha1::Sha1` computes for these bytes.
pub uninterp spec fn sha1_digest(input: Seq<u8>) -> Seq<u8>;

/// Calls `sha1::Sha1::digest` (the one-shot form of `Digest`).
///
/// Not proved: that the bytes returned are the SHA-1 digest of `input`,
/// and that there are twenty of them (the output size of `Sha1Core` is
/// `U20`).
#[verifier::external_body]
fn sha1_of(input: &[u8]) -> (out: Vec<u8>)
    ensures
        out@ == sha1_digest(input@),
        out@.len() == 20,
{
    sha1::Sha1::digest(input).to_vec()
}

/// Digest of `input`: always twenty bytes, a function of the bytes alone.
pub fn compute_sha1_hash(input: Vec<u8>) -> (out: Vec<u8>)
    ensures
        out@ == sha1_digest(input@),
        out@.len() == DIGEST_LEN,
{
    sha1_of(input.as_slice())
}

} // verus!
