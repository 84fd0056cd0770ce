//! Content fingerprints: SHA-256 over the whole content, or, in quick mode,
//! over a bounded leading chunk only.
//!
//! Two contents with equal bytes always get equal fingerprints.  A quick
//! fingerprint of two different contents may also collide (equal leading
//! chunks); the planner re-checks such collisions with full digests.

use vstd::prelude::*;
use vstd::slice::slice_subrange;

verus! {

/// Size in bytes of the leading chunk hashed by a quick fingerprint.
pub const QUICK_CHUNK: usize = 65536;

/// The SHA-256 digest of a byte sequence.
pub uninterp spec fn sha256_of(data: Seq<u8>) -> Seq<u8>;

/// Relies on crypto's `Sha256` through `Digest::input` and `Digest::result`:
/// the digest is 32 bytes (256 bits) and a function of the input bytes alone.
#[verifier::external_body]
fn sha256(data: &[u8]) -> (r: Vec<u8>)
    ensures
        r@ == sha256_of(data@),
        r@.len() == 32,
{
    let mut h = crypto::sha2::Sha256::new();
    crypto::digest::Digest::input(&mut h, data);
    let mut out = vec![0u8; 32];
    crypto::digest::Digest::result(&mut h, &mut out);
    out
}

/// The leading chunk of `c` that a quick fingerprint hashes.
pub open spec fn quick_prefix(c: Seq<u8>) -> Seq<u8> {
    if c.len() <= QUICK_CHUNK {
        c
    } else {
        c.subrange(0, QUICK_CHUNK as int)
    }
}

/// The fingerprint of a content under the chosen fidelity: the digest of the
/// whole content, or of its leading chunk only when `fast_hash` is set.
pub open spec fn fingerprint_of(c: Seq<u8>, fast_hash: bool) -> Seq<u8> {
    if fast_hash {
        sha256_of(quick_prefix(c))
    } else {
        sha256_of(c)
    }
}

/// Computes a content fingerprint.
pub fn hash_file(content: &Vec<u8>, fast_hash: bool) -> (r: Vec<u8>)
    ensures
        r@ == fingerprint_of(content@, fast_hash),
        r@.len() == 32,
{
    if fast_hash && content.len() > QUICK_CHUNK {
        let pre = slice_subrange(content.as_slice(), 0, QUICK_CHUNK);
        sha256(pre)
    } else {
        sha256(content.as_slice())
    }
}

/// Compares two byte vectors for equality, byte for byte.
pub fn bytes_eq(a: &Vec<u8>, b: &Vec<u8>) -> (r: bool)
    ensures
        r == (a@ == b@),
{
    if a.len() != b.len() {
        return false;
    }
    let mut i: usize = 0;
    while i < a.len()
        invariant
            i <= a@.len(),
            a@.len() == b@.len(),
            forall|j: int| 0 <= j < i ==> a@[j] == b@[j],
        decreases a@.len() - i,
    {
        if a[i] != b[i] {
            return false;
        }
        i = i + 1;
    }
    proof { assert(a@ =~= b@); }
    true
}

} // verus!
