//! A reader that hashes what passes through it.

use vstd::prelude::*;
use crate::stream::ByteStream;

verus! {

/// `Hasher` of blake3: an incremental hasher, of which only what was fed to
/// it is spoken of.
#[verifier::external_type_specification]
#[verifier::external_body]
pub struct ExHasher(blake3::Hasher);

/// All the bytes that were fed to the hasher, in their order.
pub uninterp spec fn hasher_input(hasher: blake3::Hasher) -> Seq<u8>;

/// The BLAKE3 digest of `data`: 32 bytes.
pub uninterp spec fn blake3_digest(data: Seq<u8>) -> Seq<u8>;

/// Calls `Hasher::new` of blake3: a hasher that was fed nothing.
#[verifier::external_body]
fn hasher_new() -> (hasher: blake3::Hasher)
    ensures
        hasher_input(hasher) == Seq::<u8>::empty(),
{
    blake3::Hasher::new()
}

/// Calls `Hasher::update` of blake3: `data` is fed to the hasher, behind what
/// was fed before.
#[verifier::external_body]
fn hasher_update(hasher: &mut blake3::Hasher, data: &[u8])
    ensures
        hasher_input(*final(hasher)) == hasher_input(*old(hasher)) + data@,
{
    hasher.update(data);
}

/// Calls `Hasher::finalize` of blake3: the digest of all that was fed, with
/// the hasher left as it is.
#[verifier::external_body]
fn hasher_finalize(hasher: &blake3::Hasher) -> (hash: crate::header::Hash)
    ensures
        hash@ == blake3_digest(hasher_input(*hasher)),
{
    *hasher.finalize().as_bytes()
}

/// The BLAKE3 digest of `data`.
pub fn hash_bytes(data: &[u8]) -> (hash: crate::header::Hash)
    ensures
        hash@ == blake3_digest(data@),
{
    let mut hasher = hasher_new();
    hasher_update(&mut hasher, data);
    assert(Seq::<u8>::empty() + data@ =~= data@);
    hasher_finalize(&hasher)
}

/// A byte stream that is read through a BLAKE3 hasher: what is read comes
/// out unchanged, and is hashed on its way.
pub struct HashingReader {
    inner: ByteStream,
    hasher: blake3::Hasher,
}

impl HashingReader {
    /// The stream underneath.
    pub closed spec fn inner(&self) -> ByteStream {
        self.inner
    }

    /// All that was read through the reader.
    pub closed spec fn hashed(&self) -> Seq<u8> {
        hasher_input(self.hasher)
    }

    /// A reader over `inner` that has hashed nothing yet.
    pub fn new(inner: ByteStream) -> (reader: Self)
        ensures
            reader.inner() == inner,
            reader.hashed() == Seq::<u8>::empty(),
    {
        HashingReader { inner, hasher: hasher_new() }
    }

    /// The digest of all that was read so far. The reader can be read on.
    pub fn finalize(&self) -> (hash: crate::header::Hash)
        ensures
            hash@ == blake3_digest(self.hashed()),
    {
        hasher_finalize(&self.hasher)
    }

    /// Reads up to `max` bytes, fewer only at the end, and hashes them.
    pub fn read(&mut self, max: usize) -> (chunk: Vec<u8>)
        requires
            old(self).inner().wf(),
        ensures
            final(self).inner().wf(),
            final(self).inner()@ == old(self).inner()@,
            chunk@.len() == if max <= old(self).inner().remaining().len() {
                max as int
            } else {
                old(self).inner().remaining().len() as int
            },
            chunk@ == old(self).inner().remaining().take(chunk@.len() as int),
            final(self).inner().position() == old(self).inner().position() + chunk@.len(),
            final(self).inner().remaining() == old(self).inner().remaining().skip(
                chunk@.len() as int,
            ),
            final(self).hashed() == old(self).hashed() + chunk@,
    {
        let chunk = self.inner.read(max);
        hasher_update(&mut self.hasher, chunk.as_slice());
        chunk
    }

    /// The number of bytes that are left to read.
    pub fn remaining_len(&self) -> (len: usize)
        requires
            self.inner().wf(),
        ensures
            len == self.inner().remaining().len(),
    {
        self.inner.len() - self.inner.stream_position() as usize
    }
}

} // verus!
