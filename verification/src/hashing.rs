//! The hashing capability that the tree is built over.
//!
//! The tree never looks inside a hash value: all it needs is that a hash
//! value exposes its bytes, that two hash values with equal bytes are equal,
//! and that a hasher turns the byte sequence it has ingested into the bytes
//! of a hash value in a way that depends on those bytes alone. The three
//! traits here state exactly that, and nothing more.

use vstd::prelude::*;
use vstd::string::StringSliceAdditionalSpecFns;

verus! {

/// Anything with a byte representation that can be hashed.
pub trait Hashable {
    /// The byte representation, as the specification sees it.
    spec fn bytes(&self) -> Seq<u8>;

    /// The byte representation, as the hasher ingests it.
    fn as_bytes(&self) -> (r: &[u8])
        ensures
            r@ == self.bytes(),
    ;
}

/// An opaque, fixed-size, byte-backed, cheaply copyable hash value.
pub trait Hash: Sized + Copy + Hashable {
    /// Byte-level equality of two hash values.
    fn eq_hash(&self, other: &Self) -> (r: bool)
        ensures
            r == (self.bytes() == other.bytes()),
    ;

    /// Two hash values are equal iff their underlying bytes are equal; one
    /// direction is immediate, this is the other.
    proof fn lemma_bytes_injective(&self, other: &Self)
        ensures
            self.bytes() == other.bytes() ==> *self == *other,
    ;
}

/// An incremental digest over arbitrary bytes: `new`, then any number of
/// `update`s, then one consuming `finish`.
pub trait Hasher<H: Hash>: Sized {
    /// The bytes ingested so far, in order.
    spec fn ingested(&self) -> Seq<u8>;

    /// The bytes of the hash value that finishing a digest over `input`
    /// produces. A function of `input` alone: this is what makes two trees
    /// built with the same hasher from the same blocks agree.
    spec fn hash_bytes_of(input: Seq<u8>) -> Seq<u8>;

    fn new() -> (r: Self)
        ensures
            r.ingested() == Seq::<u8>::empty(),
    ;

    fn update(&mut self, data: &[u8])
        ensures
            final(self).ingested() == old(self).ingested() + data@,
    ;

    fn finish(self) -> (r: H)
        ensures
            r.bytes() == Self::hash_bytes_of(self.ingested()),
    ;
}

impl Hashable for &str {
    open spec fn bytes(&self) -> Seq<u8> {
        self.spec_bytes()
    }

    fn as_bytes(&self) -> (r: &[u8]) {
        str::as_bytes(self)
    }
}

impl Hashable for String {
    open spec fn bytes(&self) -> Seq<u8> {
        vstd::utf8::encode_utf8(self@)
    }

    fn as_bytes(&self) -> (r: &[u8]) {
        str::as_bytes(self.as_str())
    }
}

impl<'x> Hashable for &'x [u8] {
    open spec fn bytes(&self) -> Seq<u8> {
        self@
    }

    fn as_bytes(&self) -> (r: &[u8]) {
        *self
    }
}

impl Hashable for Vec<u8> {
    open spec fn bytes(&self) -> Seq<u8> {
        self@
    }

    fn as_bytes(&self) -> (r: &[u8]) {
        self.as_slice()
    }
}

} // verus!
