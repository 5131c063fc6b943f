//! A SHA-256 implementation of the hashing capability.
//!
//! The digest computation itself is an external collaborator: its result is
//! given a name, `sha256_of`, and everything the tree proves about trees
//! built over this hasher is relative to that name.

use vstd::prelude::*;
use crate::hashing::{Hashable, Hasher};

verus! {

/// The SHA-256 digest (32 bytes) of a byte sequence: a function of the input
/// bytes alone, named here and computed only by the external implementation
/// relied on below.
pub uninterp spec fn sha256_of(input: Seq<u8>) -> Seq<u8>;

/// Relies on ring::digest::digest with the SHA-256 algorithm: a 32-byte
/// digest that depends on the input bytes alone.
#[verifier::external_body]
fn sha256_digest(input: &[u8]) -> (r: [u8; 32])
    ensures
        r@ == sha256_of(input@),
{
    let digest = ring::digest::digest(&ring::digest::SHA256, input);
    let mut out = [0u8; 32];
    out.copy_from_slice(digest.as_ref());
    out
}

/// A SHA-256 hash value: 32 bytes, copied freely, equal exactly when the
/// bytes are equal.
#[derive(Debug, Clone, Copy, PartialEq, Eq)]
pub struct Sha256Digest {
    raw: [u8; 32],
}

impl Hashable for Sha256Digest {
    closed spec fn bytes(&self) -> Seq<u8> {
        self.raw@
    }

    fn as_bytes(&self) -> (r: &[u8]) {
        self.raw.as_slice()
    }
}

impl crate::hashing::Hash for Sha256Digest {
    fn eq_hash(&self, other: &Self) -> (r: bool) {
        let mut k: usize = 0;
        while k < 32
            invariant
                k <= 32,
                forall|j: int| 0 <= j < k ==> self.raw@[j] == other.raw@[j],
            decreases 32 - k,
        {
            if self.raw[k] != other.raw[k] {
                return false;
            }
            k += 1;
        }
        proof {
            assert(self.raw@ =~= other.raw@);
        }
        true
    }

    proof fn lemma_bytes_injective(&self, other: &Self) {
        if self.bytes() == other.bytes() {
            assert(self.raw =~= other.raw);
        }
    }
}

/// An incremental SHA-256 digest: `update` buffers the ingested bytes and
/// `finish` hashes them all at once.
pub struct Sha256Context {
    buf: Vec<u8>,
}

impl Hasher<Sha256Digest> for Sha256Context {
    closed spec fn ingested(&self) -> Seq<u8> {
        self.buf@
    }

    open spec fn hash_bytes_of(input: Seq<u8>) -> Seq<u8> {
        sha256_of(input)
    }

    fn new() -> (r: Self) {
        Sha256Context { buf: Vec::new() }
    }

    fn update(&mut self, data: &[u8]) {
        let mut k: usize = 0;
        while k < data.len()
            invariant
                k <= data@.len(),
                self.buf@ == old(self).buf@ + data@.subrange(0, k as int),
            decreases data@.len() - k,
        {
            self.buf.push(data[k]);
            proof {
                assert(self.buf@ =~= old(self).buf@ + data@.subrange(0, k as int + 1));
            }
            k += 1;
        }
        proof {
            assert(data@.subrange(0, data@.len() as int) =~= data@);
        }
    }

    fn finish(self) -> (r: Sha256Digest) {
        Sha256Digest { raw: sha256_digest(self.buf.as_slice()) }
    }
}

} // verus!
