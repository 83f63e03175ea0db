//! Content digests. A file's bytes are streamed through an MD5 accumulator;
//! the resulting 16-byte value serves as the content fingerprint that keys the
//! duplicate groups.

use vstd::prelude::*;

use crypto::digest::Digest;
use crypto::md5::Md5;

verus! {

/// Declares crypto::md5::Md5, the MD5 accumulator, so that it can stand in a
/// field; its value is opaque here.
#[verifier::external_type_specification]
#[verifier::external_body]
pub struct ExMd5(Md5);

/// The MD5 digest of a byte sequence: a pure function of the bytes alone.
pub uninterp spec fn md5_of(bytes: Seq<u8>) -> Seq<u8>;

/// A running content digest. `fed()` is the sequence of bytes absorbed so far;
/// `finish` returns the digest of exactly those bytes.
pub struct ContentHasher {
    inner: Md5,
    fed: Ghost<Seq<u8>>,
}

impl ContentHasher {
    /// The bytes absorbed so far.
    pub closed spec fn fed(&self) -> Seq<u8> {
        self.fed@
    }

    /// Relies on crypto::md5::Md5::new: a fresh digest state that has absorbed
    /// no input.
    #[verifier::external_body]
    pub fn new() -> (r: Self)
        ensures
            r.fed() == Seq::<u8>::empty(),
    {
        ContentHasher { inner: Md5::new(), fed: Ghost(Seq::empty()) }
    }

    /// Relies on crypto::digest::Digest::input for Md5: absorbs the chunk after
    /// everything fed before. The bound keeps the accumulator's internal byte
    /// counter, a 64-bit integer, from overflowing.
    #[verifier::external_body]
    pub fn update(&mut self, chunk: &[u8])
        requires
            old(self).fed().len() + chunk@.len() <= u64::MAX,
        ensures
            final(self).fed() == old(self).fed() + chunk@,
    {
        self.inner.input(chunk);
    }

    /// Relies on crypto::digest::Digest::result for Md5: writes the 16-byte
    /// MD5 digest of all absorbed input, a deterministic function of those
    /// bytes alone.
    #[verifier::external_body]
    pub fn finish(self) -> (r: Vec<u8>)
        ensures
            r@ == md5_of(self.fed()),
            r@.len() == 16,
    {
        let mut inner = self.inner;
        let mut out = [0u8; 16];
        inner.result(&mut out);
        out.to_vec()
    }
}

/// Digest of a byte string held in memory all at once.
pub fn digest_of_bytes(content: &[u8]) -> (r: Vec<u8>)
    ensures
        r@ == md5_of(content@),
        r@.len() == 16,
{
    let mut h = ContentHasher::new();
    let n: usize = content.len();
    assert(n <= usize::MAX <= u64::MAX);
    h.update(content);
    h.finish()
}

} // verus!
