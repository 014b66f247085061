//! The Hemera hash, used for change identities, derived keys, manifests and
//! checksums: one-shot over a byte string, or streamed in pieces.
use vstd::prelude::*;

verus! {

/// The 32-byte Hemera (Poseidon2 over Goldilocks) digest of `input`.
pub uninterp spec fn hemera_digest(input: Seq<u8>) -> Seq<u8>;

/// Calls `cyber_hemera::hash`. Trusted to return the digest that `hemera_digest`
/// names for exactly these input bytes; nothing else is claimed about its value.
#[verifier::external_body]
pub(crate) fn hemera_hash(input: &[u8]) -> (out: [u8; 32])
    ensures
        out@ == hemera_digest(input@),
{
    *cyber_hemera::hash(input).as_bytes()
}

/// A streaming Hemera hasher in plain hash mode.
#[verifier::external_type_specification]
#[verifier::external_body]
pub struct ExHasher(cyber_hemera::Hasher);

/// A streaming Hemera hasher with the bytes it has absorbed so far. The
/// hasher itself keeps only a fixed-size sponge state; the absorbed bytes are
/// ghost, set only by the three methods below, which are the only ones that
/// touch the hasher.
pub struct StreamHasher {
    inner: cyber_hemera::Hasher,
    absorbed: Ghost<Seq<u8>>,
}

impl StreamHasher {
    /// The bytes absorbed so far, in order.
    pub closed spec fn absorbed(&self) -> Seq<u8> {
        self.absorbed@
    }

    /// Calls `cyber_hemera::Hasher::new`: a hasher in plain hash mode that has
    /// absorbed nothing.
    #[verifier::external_body]
    pub(crate) fn new() -> (h: Self)
        ensures
            h.absorbed() == Seq::<u8>::empty(),
    {
        StreamHasher { inner: cyber_hemera::Hasher::new(), absorbed: Ghost(Seq::empty()) }
    }

    /// Calls `cyber_hemera::Hasher::update`, which buffers its input into fixed
    /// blocks whatever the pieces; the ghost record grows by `data`. The
    /// hasher's running byte count is a `u64`, which bounds the total input.
    #[verifier::external_body]
    pub(crate) fn update(&mut self, data: &[u8])
        requires
            old(self).absorbed().len() + data@.len() <= u64::MAX,
        ensures
            final(self).absorbed() == old(self).absorbed() + data@,
    {
        self.inner.update(data);
    }

    /// Calls `cyber_hemera::Hasher::finalize`: the digest of everything
    /// absorbed, the same as `cyber_hemera::hash` of those bytes at once.
    #[verifier::external_body]
    pub(crate) fn finalize(&self) -> (out: [u8; 32])
        ensures
            out@ == hemera_digest(self.absorbed()),
    {
        *self.inner.finalize().as_bytes()
    }
}

} // verus!
