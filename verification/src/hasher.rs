//! The hashing capability the tree and the witness verifier are generic over:
//! a stateful absorber that finalizes into a 32-byte digest, with Keccak-256
//! and SHA-256 instantiations backed by outside crates.

use vstd::prelude::*;

verus! {

/// Names the Keccak-256 digest that `tiny_keccak`'s `Hasher::finalize`
/// computes for a byte string: it depends on the absorbed bytes alone.
pub uninterp spec fn keccak256_of(input: Seq<u8>) -> Seq<u8>;

/// Names the SHA-256 digest that `sha2`'s `Digest::finalize` computes for a
/// byte string: it depends on the absorbed bytes alone.
pub uninterp spec fn sha256_of(input: Seq<u8>) -> Seq<u8>;

/// A hasher: absorbs bytes in any number of steps and finalizes into a
/// 32-byte digest of everything absorbed. The digest function a hasher family
/// assigns to byte strings is fixed by the implementing type, so a tree
/// commits to one digest function through its type parameter.
pub trait Hashor: Sized {
    /// The bytes absorbed so far.
    spec fn absorbed(self) -> Seq<u8>;

    /// The digest this hasher family assigns to a byte string.
    spec fn digest(input: Seq<u8>) -> Seq<u8>;

    /// A fresh hasher with nothing absorbed yet.
    fn fresh() -> (h: Self)
        ensures
            h.absorbed() == Seq::<u8>::empty(),
    ;

    /// Absorb additional input. Can be called multiple times.
    fn update_hashor(&mut self, input: &[u8])
        ensures
            final(self).absorbed() == old(self).absorbed() + input@,
    ;

    /// Write the digest of everything absorbed into `out`.
    fn finalize_hashor_into(self, out: &mut crate::Hash)
        ensures
            final(out)@ == Self::digest(self.absorbed()),
    ;
}

#[verifier::external_type_specification]
#[verifier::external_body]
pub struct ExKeccak(tiny_keccak::Keccak);

/// Keccak-256, backed by the `tiny_keccak` crate.
///
/// `bytes` mirrors, byte for byte, what `inner` has absorbed: both start
/// empty and every absorb step extends both by the same input.
pub struct KeccakHasher {
    inner: tiny_keccak::Keccak,
    bytes: Vec<u8>,
}

impl KeccakHasher {
    /// Relies on `tiny_keccak::Keccak::v256`: a fresh Keccak-256 state with
    /// nothing absorbed.
    #[verifier::external_body]
    fn new_keccak256() -> (h: Self)
        ensures
            h.bytes@ == Seq::<u8>::empty(),
    {
        KeccakHasher { inner: tiny_keccak::Keccak::v256(), bytes: Vec::new() }
    }

    /// Relies on `tiny_keccak::Hasher::update`: absorbs `input` after
    /// everything absorbed before.
    #[verifier::external_body]
    fn absorb(&mut self, input: &[u8])
        ensures
            final(self).bytes@ == old(self).bytes@ + input@,
    {
        tiny_keccak::Hasher::update(&mut self.inner, input);
        self.bytes.extend_from_slice(input);
    }

    /// Relies on `tiny_keccak::Hasher::finalize`: writes the Keccak-256
    /// digest of all absorbed bytes (mirrored in `self.bytes`); the 256-bit
    /// variant fills the 32-byte buffer exactly.
    #[verifier::external_body]
    fn digest_into(self, out: &mut crate::Hash)
        ensures
            final(out)@ == keccak256_of(self.bytes@),
    {
        tiny_keccak::Hasher::finalize(self.inner, out);
    }
}

impl Hashor for KeccakHasher {
    closed spec fn absorbed(self) -> Seq<u8> {
        self.bytes@
    }

    open spec fn digest(input: Seq<u8>) -> Seq<u8> {
        keccak256_of(input)
    }

    fn fresh() -> (h: Self) {
        Self::new_keccak256()
    }

    fn update_hashor(&mut self, input: &[u8]) {
        self.absorb(input);
    }

    fn finalize_hashor_into(self, out: &mut crate::Hash) {
        self.digest_into(out);
    }
}

#[verifier::external_type_specification]
#[verifier::external_body]
pub struct ExSha256(sha2::Sha256);

/// SHA-256, backed by the `sha2` crate.
///
/// `bytes` mirrors, byte for byte, what `inner` has absorbed: both start
/// empty and every absorb step extends both by the same input.
pub struct Sha256Hasher {
    inner: sha2::Sha256,
    bytes: Vec<u8>,
}

impl Sha256Hasher {
    /// Relies on `sha2::Digest::new`: a fresh SHA-256 state with nothing
    /// absorbed.
    #[verifier::external_body]
    fn new_sha256() -> (h: Self)
        ensures
            h.bytes@ == Seq::<u8>::empty(),
    {
        Sha256Hasher { inner: <sha2::Sha256 as sha2::Digest>::new(), bytes: Vec::new() }
    }

    /// Relies on `sha2::Digest::update`: absorbs `input` after everything
    /// absorbed before.
    #[verifier::external_body]
    fn absorb(&mut self, input: &[u8])
        ensures
            final(self).bytes@ == old(self).bytes@ + input@,
    {
        <sha2::Sha256 as sha2::Digest>::update(&mut self.inner, input);
        self.bytes.extend_from_slice(input);
    }

    /// Relies on `sha2::Digest::finalize`: returns the SHA-256 digest of all
    /// absorbed bytes (mirrored in `self.bytes`), 32 bytes, copied out here.
    #[verifier::external_body]
    fn digest_into(self, out: &mut crate::Hash)
        ensures
            final(out)@ == sha256_of(self.bytes@),
    {
        let d = <sha2::Sha256 as sha2::Digest>::finalize(self.inner);
        out.copy_from_slice(d.as_slice());
    }
}

impl Hashor for Sha256Hasher {
    closed spec fn absorbed(self) -> Seq<u8> {
        self.bytes@
    }

    open spec fn digest(input: Seq<u8>) -> Seq<u8> {
        sha256_of(input)
    }

    fn fresh() -> (h: Self) {
        Self::new_sha256()
    }

    fn update_hashor(&mut self, input: &[u8]) {
        self.absorb(input);
    }

    fn finalize_hashor_into(self, out: &mut crate::Hash) {
        self.digest_into(out);
    }
}

} // verus!
