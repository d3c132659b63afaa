//! Content digests.
//!
//! A `ContentHasher` streams the bytes of one file, chunk by chunk,
//! in whatever granularity the caller's I/O layer delivers them, into
//! an incremental SHA-256 accumulator, and finalizes to the digest of
//! the complete byte stream. Memory stays bounded by the chunk size;
//! the digest depends only on the concatenated content, never on the
//! chunk boundaries.

use vstd::prelude::*;

verus! {

#[verifier::external_type_specification]
#[verifier::external_body]
pub struct ExSha256(sha2::Sha256);

/// What a SHA-256 accumulator holds: the bytes fed so far, in order.
pub uninterp spec fn sha_bytes(h: sha2::Sha256) -> Seq<u8>;

/// The SHA-256 digest of a byte sequence, as an opaque function of the
/// bytes alone.
pub uninterp spec fn sha256_of(data: Seq<u8>) -> Seq<u8>;

/// Relies on sha2::Sha256::default through the digest crate's
/// Digest::new: a fresh accumulator that has seen no bytes.
#[verifier::external_body]
fn sha_new() -> (r: sha2::Sha256)
    ensures
        sha_bytes(r) == Seq::<u8>::empty(),
{
    <sha2::Sha256 as sha2::Digest>::new()
}

/// Relies on Digest::update: it appends the chunk to the accumulated
/// byte stream, in bounded memory.
#[verifier::external_body]
fn sha_update(h: &mut sha2::Sha256, chunk: &[u8])
    ensures
        sha_bytes(*final(h)) == sha_bytes(*old(h)) + chunk@,
{
    sha2::Digest::update(h, chunk);
}

/// Relies on Digest::finalize: the digest is a pure function of the
/// accumulated bytes and is 32 bytes long.
#[verifier::external_body]
fn sha_finalize(h: &sha2::Sha256) -> (r: Vec<u8>)
    ensures
        r@ == sha256_of(sha_bytes(*h)),
        r@.len() == 32,
{
    <sha2::Sha256 as sha2::Digest>::finalize(h.clone()).to_vec()
}

/// Streams one file's bytes and produces their SHA-256 digest.
pub struct ContentHasher {
    inner: sha2::Sha256,
}

impl ContentHasher {
    /// The bytes fed so far, in order.
    pub closed spec fn bytes(self) -> Seq<u8> {
        sha_bytes(self.inner)
    }

    /// A fresh hasher that has seen no bytes.
    pub fn new() -> (r: ContentHasher)
        ensures
            r.bytes() == Seq::<u8>::empty(),
    {
        ContentHasher { inner: sha_new() }
    }

    /// Feeds one chunk of the stream; chunks concatenate in call order.
    pub fn update(&mut self, chunk: &[u8])
        ensures
            final(self).bytes() == old(self).bytes() + chunk@,
    {
        sha_update(&mut self.inner, chunk);
    }

    /// The digest of everything fed so far.
    pub fn finalize(&self) -> (r: Vec<u8>)
        ensures
            r@ == sha256_of(self.bytes()),
            r@.len() == 32,
    {
        sha_finalize(&self.inner)
    }
}

/// Law: the digest depends only on the concatenated content of the
/// stream, not on how the stream was chunked — two hashers that
/// accumulated the same bytes finalize to the same digest.
pub proof fn lemma_digest_chunk_insensitive(h1: ContentHasher, h2: ContentHasher)
    requires
        h1.bytes() == h2.bytes(),
    ensures
        sha256_of(h1.bytes()) == sha256_of(h2.bytes()),
{
}

} // verus!
