//! Canonical content hashing.
//!
//! The digest itself comes from the `sha2` crate; this module tracks, in
//! ghost state, exactly which bytes have been fed to it, and exposes a
//! hasher whose result is pinned to the canonical (carriage-return-free)
//! form of everything it has seen.

use vstd::prelude::*;

use crate::canon::{lemma_strip_cr_concat, strip_cr, strip_cr_spec};
use crate::hex::{hex_of, to_hex};
use sha2::Digest;

verus! {

#[verifier::external_type_specification]
#[verifier::external_body]
pub struct ExSha256(sha2::Sha256);

/// The bytes a `sha2::Sha256` hasher has absorbed so far.
pub uninterp spec fn sha_fed(h: sha2::Sha256) -> Seq<u8>;

/// The SHA-256 digest of a byte sequence, a function of the bytes alone.
pub uninterp spec fn sha256_of(data: Seq<u8>) -> Seq<u8>;

/// Relies on `sha2::Sha256::new` (the `Digest` trait): a fresh hasher has
/// absorbed no bytes.
#[verifier::external_body]
fn sha_new() -> (h: sha2::Sha256)
    ensures
        sha_fed(h) == Seq::<u8>::empty(),
{
    sha2::Sha256::new()
}

/// Relies on `sha2::Sha256::update` (the `Digest` trait): absorbing more
/// bytes appends them to the stream being digested.
#[verifier::external_body]
fn sha_update(h: &mut sha2::Sha256, data: &[u8])
    ensures
        sha_fed(*final(h)) == sha_fed(*old(h)) + data@,
{
    h.update(data);
}

/// Relies on `sha2::Sha256::finalize` (the `Digest` trait): the digest is a
/// function of the absorbed bytes alone, and is 32 bytes long.
#[verifier::external_body]
fn sha_finalize(h: sha2::Sha256) -> (r: Vec<u8>)
    ensures
        r@ == sha256_of(sha_fed(h)),
        r@.len() == 32,
{
    h.finalize().to_vec()
}

/// The canonical content hash: lowercase hex of the SHA-256 digest of the
/// content with every carriage-return byte removed.
pub open spec fn canon_hash_spec(content: Seq<u8>) -> Seq<u8> {
    hex_of(sha256_of(strip_cr_spec(content)))
}

/// Streaming canonical hasher.
///
/// Content may be fed in chunks of any size; each chunk is stripped of
/// carriage returns independently, which yields the same digest as stripping
/// the whole stream at once, because the stripped byte is a single byte.
pub struct CanonHasher {
    inner: sha2::Sha256,
    raw: Ghost<Seq<u8>>,
}

impl CanonHasher {
    /// All bytes fed so far, before canonicalization.
    pub closed spec fn bytes_fed(self) -> Seq<u8> {
        self.raw@
    }

    /// The digest state holds exactly the canonical form of the bytes fed.
    pub closed spec fn wf(self) -> bool {
        sha_fed(self.inner) == strip_cr_spec(self.raw@)
    }

    pub fn new() -> (h: Self)
        ensures
            h.wf(),
            h.bytes_fed() == Seq::<u8>::empty(),
    {
        let h = CanonHasher { inner: sha_new(), raw: Ghost(Seq::empty()) };
        proof {
            reveal_with_fuel(Seq::<_>::filter, 1);
        }
        h
    }

    pub fn update(&mut self, chunk: &[u8])
        requires
            old(self).wf(),
        ensures
            final(self).wf(),
            final(self).bytes_fed() == old(self).bytes_fed() + chunk@,
    {
        let stripped = strip_cr(chunk);
        sha_update(&mut self.inner, stripped.as_slice());
        proof {
            lemma_strip_cr_concat(self.raw@, chunk@);
            self.raw@ = self.raw@ + chunk@;
        }
    }

    /// The canonical hash of everything fed, as lowercase hex.
    pub fn finish(self) -> (r: Vec<u8>)
        requires
            self.wf(),
        ensures
            r@ == canon_hash_spec(self.bytes_fed()),
            r@.len() == 64,
    {
        let digest = sha_finalize(self.inner);
        to_hex(digest.as_slice())
    }
}

/// The canonical hash of a complete in-memory content, as lowercase hex.
pub fn canon_hash_of(content: &[u8]) -> (r: Vec<u8>)
    ensures
        r@ == canon_hash_spec(content@),
        r@.len() == 64,
{
    let mut h = CanonHasher::new();
    h.update(content);
    proof {
        assert(h.bytes_fed() == Seq::<u8>::empty() + content@);
        assert(Seq::<u8>::empty() + content@ == content@);
    }
    h.finish()
}

} // verus!
