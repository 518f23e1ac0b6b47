//! The stream cipher adapter: an encrypting writer and a decrypting, seekable
//! reader over a byte stream, both keyed by absolute offset.

use vstd::prelude::*;
use base64::prelude::BASE64_STANDARD;
use base64::Engine;
use chacha20::cipher::{KeyIvInit, StreamCipher, StreamCipherSeek};
use crate::bytes::to_array;
use chacha20::XChaCha20;
use crate::error::Error;
use crate::stream::{count_after, overwrite, seek_target, ByteStream, SeekFrom};

verus! {

/// A 256-bit cipher key.
pub type Key = [u8; 32];

/// A 192-bit nonce, fresh for every container.
pub type IV = [u8; 24];

/// The number of keystream bytes that one key and nonce yield: a 32-bit block
/// counter, whose last value is never reached, over blocks of 64 bytes.
pub const KEYSTREAM_LEN: u64 = 0x3f_ffff_ffc0;

/// The byte at `offset` of the XChaCha20 keystream for `key` and `iv`.
pub uninterp spec fn xchacha20_keystream(key: Seq<u8>, iv: Seq<u8>, offset: int) -> u8;

/// `data` XORed with the keystream from `offset` on.
pub open spec fn apply_keystream(key: Seq<u8>, iv: Seq<u8>, offset: int, data: Seq<u8>) -> Seq<u8> {
    Seq::new(data.len(), |i: int| data[i] ^ xchacha20_keystream(key, iv, offset + i))
}

/// Applying the keystream twice at one offset gives the data back: what was
/// encrypted decrypts to itself.
pub proof fn lemma_decrypt_encrypt(key: Seq<u8>, iv: Seq<u8>, offset: int, data: Seq<u8>)
    ensures
        apply_keystream(key, iv, offset, apply_keystream(key, iv, offset, data)) == data,
{
    let twice = apply_keystream(key, iv, offset, apply_keystream(key, iv, offset, data));
    assert forall|i: int| 0 <= i < data.len() implies twice[i] == data[i] by {
        let d = data[i];
        let k = xchacha20_keystream(key, iv, offset + i);
        assert((d ^ k) ^ k == d) by (bit_vector);
    }
    assert(twice =~= data);
}

/// Every byte depends on its own offset alone: applying the keystream to a
/// slice, at the slice's offset, gives the slice of the whole.
pub proof fn lemma_apply_keystream_slice(
    key: Seq<u8>,
    iv: Seq<u8>,
    offset: int,
    data: Seq<u8>,
    from: int,
    to: int,
)
    requires
        0 <= from <= to <= data.len(),
    ensures
        apply_keystream(key, iv, offset + from, data.subrange(from, to)) == apply_keystream(
            key,
            iv,
            offset,
            data,
        ).subrange(from, to),
{
    assert(apply_keystream(key, iv, offset + from, data.subrange(from, to)) =~= apply_keystream(
        key,
        iv,
        offset,
        data,
    ).subrange(from, to));
}

/// Seeking the decrypter to `from` and reading up to `to` gives that slice of
/// the full plaintext: decrypting the slice of the ciphertext at its own
/// offset recovers the slice of what was encrypted.
pub proof fn lemma_random_access(
    key: Seq<u8>,
    iv: Seq<u8>,
    plaintext: Seq<u8>,
    from: int,
    to: int,
)
    requires
        0 <= from <= to <= plaintext.len(),
    ensures
        apply_keystream(
            key,
            iv,
            from,
            apply_keystream(key, iv, 0, plaintext).subrange(from, to),
        ) == plaintext.subrange(from, to),
{
    lemma_apply_keystream_slice(key, iv, 0, plaintext, from, to);
    lemma_decrypt_encrypt(key, iv, from, plaintext.subrange(from, to));
}

/// Calls `XChaCha20::new`, `try_seek` and `try_apply_keystream` of chacha20:
/// the result is `data` XORed byte by byte with the keystream of `key` and
/// `iv` from `offset` on. The call succeeds wherever the data ends within the
/// keystream.
#[verifier::external_body]
fn xchacha20_apply(key: &Key, iv: &IV, offset: u64, data: &[u8]) -> (out: Option<Vec<u8>>)
    ensures
        offset + data@.len() <= KEYSTREAM_LEN ==> out is Some,
        out matches Some(bytes) ==> bytes@.len() == data@.len() && forall|i: int|
            0 <= i < data@.len() ==> bytes@[i] == data@[i] ^ xchacha20_keystream(
                key@,
                iv@,
                offset + i,
            ),
{
    let mut cipher = XChaCha20::new(key.into(), iv.into());
    cipher.try_seek(offset).ok()?;
    let mut out = data.to_vec();
    cipher.try_apply_keystream(&mut out).ok()?;
    Some(out)
}

/// Calls `getrandom::fill` on a buffer of `N` bytes. Nothing is known of the
/// bytes that come back.
#[verifier::external_body]
fn fill_random<const N: usize>() -> (bytes: Option<[u8; N]>) {
    let mut bytes = [0u8; N];
    getrandom::fill(&mut bytes).ok()?;
    Some(bytes)
}

/// The bytes that `text` stands for in standard base64, if it stands for
/// any.
pub uninterp spec fn base64_decoded(text: Seq<char>) -> Option<Seq<u8>>;

/// The standard base64 text of `bytes`, padded.
pub uninterp spec fn base64_encoded(bytes: Seq<u8>) -> Seq<char>;

/// Calls `Engine::decode` of base64 on the standard engine: the bytes that
/// `text` stands for, or nothing where it is no base64.
#[verifier::external_body]
fn base64_decode(text: &str) -> (bytes: Option<Vec<u8>>)
    ensures
        match bytes {
            Some(bytes) => base64_decoded(text@) == Some(bytes@),
            None => base64_decoded(text@) is None,
        },
{
    BASE64_STANDARD.decode(text).ok()
}

/// Calls `Engine::encode` of base64 on the standard engine: the text of
/// `bytes`, which decodes to them again.
#[verifier::external_body]
fn base64_encode(bytes: &[u8]) -> (text: String)
    ensures
        text@ == base64_encoded(bytes@),
        base64_decoded(text@) == Some(bytes@),
{
    BASE64_STANDARD.encode(bytes)
}

/// The key that `text` stands for in standard base64. A text that is no
/// base64, or stands for more or fewer than 32 bytes, is rejected.
pub fn parse_key(text: &str) -> (result: Result<Key, Error>)
    ensures
        match result {
            Ok(key) => base64_decoded(text@) == Some(key@),
            Err(e) => {
                &&& e == Error::InvalidKey
                &&& base64_decoded(text@) matches Some(bytes) ==> bytes.len() != 32
            },
        },
{
    match base64_decode(text) {
        Some(bytes) => {
            if bytes.len() != 32 {
                return Err(Error::InvalidKey);
            }
            Ok(to_array::<32>(bytes.as_slice()))
        },
        None => Err(Error::InvalidKey),
    }
}

/// The standard base64 text of `key`, from which `parse_key` gives the key
/// back.
pub fn encode_key(key: &Key) -> (text: String)
    ensures
        text@ == base64_encoded(key@),
        base64_decoded(text@) == Some(key@),
{
    base64_encode(key.as_slice())
}

/// A fresh random key.
pub fn generate_key() -> (result: Result<Key, Error>)
    ensures
        result matches Err(e) ==> e == Error::RandomUnavailable,
{
    match fill_random::<32>() {
        Some(key) => Ok(key),
        None => Err(Error::RandomUnavailable),
    }
}

/// A fresh random nonce.
pub fn generate_iv() -> (result: Result<IV, Error>)
    ensures
        result matches Err(e) ==> e == Error::RandomUnavailable,
{
    match fill_random::<24>() {
        Some(iv) => Ok(iv),
        None => Err(Error::RandomUnavailable),
    }
}

/// `data` XORed with the keystream from `offset` on, or an error where it
/// reaches past the keystream's end.
pub fn crypt(key: &Key, iv: &IV, offset: u64, data: &[u8]) -> (result: Result<Vec<u8>, Error>)
    ensures
        match result {
            Ok(bytes) => bytes@ == apply_keystream(key@, iv@, offset as int, data@),
            Err(e) => e == Error::KeystreamExhausted && offset + data@.len() > KEYSTREAM_LEN,
        },
{
    match xchacha20_apply(key, iv, offset, data) {
        Some(bytes) => {
            assert(bytes@ =~= apply_keystream(key@, iv@, offset as int, data@));
            Ok(bytes)
        },
        None => Err(Error::KeystreamExhausted),
    }
}

/// The position that a seek aims at in the stream `inner` underneath an
/// adapter that was made at `start`: a seek from the start counts from
/// there, any other as the stream counts.
pub open spec fn seek_aim(start: nat, inner: ByteStream, seek_from: SeekFrom) -> int {
    match seek_from {
        SeekFrom::Start(p) => start + p,
        _ => seek_target(inner@.len() as int, inner.position() as int, seek_from),
    }
}

/// Moves `inner` to the position that `seek_from` aims at, or to `start`
/// where that lies before it, and gives the position counted from `start`.
/// A seek outside the stream fails and moves nothing.
fn seek_from_start(inner: &mut ByteStream, start: u64, seek_from: SeekFrom) -> (result: Result<
    u64,
    Error,
>)
    requires
        old(inner).wf(),
        start <= old(inner).position(),
    ensures
        final(inner).wf(),
        final(inner)@ == old(inner)@,
        final(inner).bytes_read() == old(inner).bytes_read(),
        start <= final(inner).position(),
        match result {
            Ok(pos) => {
                &&& 0 <= seek_aim(start as nat, *old(inner), seek_from) <= old(inner)@.len()
                &&& pos == if seek_aim(start as nat, *old(inner), seek_from) < start {
                    0
                } else {
                    seek_aim(start as nat, *old(inner), seek_from) - start
                }
                &&& final(inner).position() == start + pos
            },
            Err(e) => {
                &&& e == Error::InvalidSeek
                &&& !(0 <= seek_aim(start as nat, *old(inner), seek_from) <= old(inner)@.len())
                &&& final(inner).position() == old(inner).position()
            },
        },
{
    let mut new_pos = match seek_from {
        SeekFrom::Start(pos) => {
            if pos > u64::MAX - start {
                return Err(Error::InvalidSeek);
            }
            match inner.seek(SeekFrom::Start(start + pos)) {
                Ok(new_pos) => new_pos,
                Err(e) => {
                    return Err(e);
                },
            }
        },
        seek_from => match inner.seek(seek_from) {
            Ok(new_pos) => new_pos,
            Err(e) => {
                return Err(e);
            },
        },
    };
    if new_pos < start {
        match inner.seek(SeekFrom::Start(start)) {
            Ok(clamped) => {
                new_pos = clamped;
            },
            Err(_) => vstd::pervasive::unreached(),
        }
    }
    Ok(new_pos - start)
}

/// A writer that encrypts what is written to a byte stream. Positions count
/// from where the stream stood when the writer was made.
pub struct EncryptWriter {
    inner: ByteStream,
    inner_start_pos: u64,
    key: Key,
    iv: IV,
}

impl EncryptWriter {
    /// The stream underneath, with the ciphertext in it.
    pub closed spec fn inner(&self) -> ByteStream {
        self.inner
    }

    /// Where the stream underneath stood when the writer was made.
    pub closed spec fn start(&self) -> nat {
        self.inner_start_pos as nat
    }

    pub closed spec fn key(&self) -> Seq<u8> {
        self.key@
    }

    pub closed spec fn iv(&self) -> Seq<u8> {
        self.iv@
    }

    pub open spec fn wf(&self) -> bool {
        &&& self.inner().wf()
        &&& self.start() <= self.inner().position()
    }

    /// The number of bytes between the start and the position.
    pub open spec fn position(&self) -> nat {
        (self.inner().position() - self.start()) as nat
    }

    /// What the stream holds from the start on, decrypted.
    pub open spec fn plaintext(&self) -> Seq<u8> {
        apply_keystream(self.key(), self.iv(), 0, self.inner()@.skip(self.start() as int))
    }

    /// What the stream holds before the start, which the writer never touches.
    pub open spec fn preamble(&self) -> Seq<u8> {
        self.inner()@.take(self.start() as int)
    }

    /// A writer over `inner`, whose keystream starts at the stream's position.
    pub fn new(inner: ByteStream, key: Key, iv: IV) -> (writer: Self)
        requires
            inner.wf(),
        ensures
            writer.wf(),
            writer.inner() == inner,
            writer.start() == inner.position(),
            writer.position() == 0,
            writer.key() == key@,
            writer.iv() == iv@,
    {
        let inner_start_pos = inner.stream_position();
        EncryptWriter { inner, inner_start_pos, key, iv }
    }

    /// Encrypts `buf` at the position and writes it there; always the whole of
    /// it. Fails, writing nothing, where `buf` reaches past the keystream.
    pub fn write(&mut self, buf: &[u8]) -> (result: Result<usize, Error>)
        requires
            old(self).wf(),
            old(self).inner().position() + buf@.len() <= usize::MAX,
        ensures
            final(self).wf(),
            final(self).start() == old(self).start(),
            final(self).key() == old(self).key(),
            final(self).iv() == old(self).iv(),
            final(self).preamble() == old(self).preamble(),
            match result {
                Ok(n) => {
                    &&& n == buf@.len()
                    &&& old(self).position() + buf@.len() <= KEYSTREAM_LEN
                    &&& final(self).position() == old(self).position() + buf@.len()
                    &&& final(self).plaintext() == overwrite(
                        old(self).plaintext(),
                        old(self).position() as int,
                        buf@,
                    )
                },
                Err(e) => {
                    &&& e == Error::KeystreamExhausted
                    &&& old(self).position() + buf@.len() > KEYSTREAM_LEN
                    &&& final(self).inner() == old(self).inner()
                },
            },
    {
        let offset = self.inner.stream_position() - self.inner_start_pos;
        if buf.len() as u64 > KEYSTREAM_LEN || offset > KEYSTREAM_LEN - buf.len() as u64 {
            return Err(Error::KeystreamExhausted);
        }
        match crypt(&self.key, &self.iv, offset, buf) {
            Ok(out_buf) => {
                self.inner.write_all(out_buf.as_slice());
                proof {
                    let start = self.start() as int;
                    let before = old(self).inner()@;
                    let after = self.inner()@;
                    let pos = old(self).position() as int;
                    assert(after == overwrite(before, start + pos, out_buf@));
                    assert(self.preamble() =~= old(self).preamble());
                    assert(self.plaintext() =~= overwrite(old(self).plaintext(), pos, buf@)) by {
                        let want = overwrite(old(self).plaintext(), pos, buf@);
                        let got = self.plaintext();
                        assert(got.len() == want.len());
                        assert forall|i: int| 0 <= i < got.len() implies got[i] == want[i] by {
                            if pos <= i < pos + buf@.len() {
                                let d = buf@[i - pos];
                                let k = xchacha20_keystream(self.key(), self.iv(), i);
                                assert(after[start + i] == out_buf@[i - pos]);
                                assert((d ^ k) ^ k == d) by (bit_vector);
                            } else {
                                assert(after[start + i] == before[start + i]);
                            }
                        }
                    }
                }
                Ok(buf.len())
            },
            Err(e) => Err(e),
        }
    }

    /// The position that a seek aims at in the stream underneath.
    pub open spec fn seek_aim(&self, seek_from: SeekFrom) -> int {
        seek_aim(self.start(), self.inner(), seek_from)
    }

    /// Moves to the position that `seek_from` aims at and brings the
    /// keystream in line with it, so that what is written next is encrypted
    /// for its place. A seek from the start counts from where the writer was
    /// made; one that would end before that place ends at it. A seek outside
    /// the stream fails and moves nothing.
    pub fn seek(&mut self, seek_from: SeekFrom) -> (result: Result<u64, Error>)
        requires
            old(self).wf(),
        ensures
            final(self).wf(),
            final(self).inner()@ == old(self).inner()@,
            final(self).start() == old(self).start(),
            final(self).key() == old(self).key(),
            final(self).iv() == old(self).iv(),
            match result {
                Ok(pos) => {
                    &&& 0 <= old(self).seek_aim(seek_from) <= old(self).inner()@.len()
                    &&& pos == if old(self).seek_aim(seek_from) < old(self).start() {
                        0
                    } else {
                        old(self).seek_aim(seek_from) - old(self).start()
                    }
                    &&& final(self).position() == pos
                },
                Err(e) => {
                    &&& e == Error::InvalidSeek
                    &&& !(0 <= old(self).seek_aim(seek_from) <= old(self).inner()@.len())
                    &&& final(self).position() == old(self).position()
                },
            },
    {
        seek_from_start(&mut self.inner, self.inner_start_pos, seek_from)
    }

    /// The position, counted from the start.
    pub fn stream_position(&self) -> (pos: u64)
        requires
            self.wf(),
        ensures
            pos == self.position(),
    {
        self.inner.stream_position() - self.inner_start_pos
    }

    /// Gives up the writer for the stream underneath.
    pub fn into_inner(self) -> (inner: ByteStream)
        ensures
            inner == self.inner(),
    {
        self.inner
    }
}

/// A reader that decrypts what it reads from a byte stream, and can seek.
/// Positions count from where the stream stood when the reader was made.
pub struct DecryptReader {
    inner: ByteStream,
    inner_start_pos: u64,
    key: Key,
    iv: IV,
}

impl DecryptReader {
    /// The stream underneath, with the ciphertext in it.
    pub closed spec fn inner(&self) -> ByteStream {
        self.inner
    }

    /// Where the stream underneath stood when the reader was made.
    pub closed spec fn start(&self) -> nat {
        self.inner_start_pos as nat
    }

    pub closed spec fn key(&self) -> Seq<u8> {
        self.key@
    }

    pub closed spec fn iv(&self) -> Seq<u8> {
        self.iv@
    }

    pub open spec fn wf(&self) -> bool {
        &&& self.inner().wf()
        &&& self.start() <= self.inner().position()
        &&& self.inner()@.len() - self.start() <= KEYSTREAM_LEN
    }

    /// The number of bytes between the start and the position.
    pub open spec fn position(&self) -> nat {
        (self.inner().position() - self.start()) as nat
    }

    /// What the stream holds from the start on, decrypted.
    pub open spec fn plaintext(&self) -> Seq<u8> {
        apply_keystream(self.key(), self.iv(), 0, self.inner()@.skip(self.start() as int))
    }

    /// The plaintext from the position to the end.
    pub open spec fn remaining(&self) -> Seq<u8> {
        self.plaintext().skip(self.position() as int)
    }

    /// The number of bytes that were read from the stream underneath.
    pub open spec fn bytes_read(&self) -> nat {
        self.inner().bytes_read()
    }

    /// `self` is `other` but for the position.
    pub open spec fn same_stream(&self, other: &Self) -> bool {
        &&& self.inner()@ == other.inner()@
        &&& self.start() == other.start()
        &&& self.key() == other.key()
        &&& self.iv() == other.iv()
    }

    /// A reader over `inner`, whose keystream starts at the stream's position.
    /// Fails where more bytes follow than the keystream covers.
    pub fn new(inner: ByteStream, key: Key, iv: IV) -> (result: Result<Self, Error>)
        requires
            inner.wf(),
        ensures
            match result {
                Ok(reader) => {
                    &&& reader.wf()
                    &&& reader.inner() == inner
                    &&& reader.start() == inner.position()
                    &&& reader.position() == 0
                    &&& reader.key() == key@
                    &&& reader.iv() == iv@
                },
                Err(e) => e == Error::KeystreamExhausted && inner.remaining().len()
                    > KEYSTREAM_LEN,
            },
    {
        let inner_start_pos = inner.stream_position();
        if inner.len() as u64 - inner_start_pos > KEYSTREAM_LEN {
            return Err(Error::KeystreamExhausted);
        }
        Ok(DecryptReader { inner, inner_start_pos, key, iv })
    }

    /// Reads up to `max` bytes of plaintext and moves past them; fewer only
    /// at the end.
    pub fn read(&mut self, max: usize) -> (chunk: Vec<u8>)
        requires
            old(self).wf(),
        ensures
            final(self).wf(),
            final(self).same_stream(old(self)),
            chunk@.len() == if max <= old(self).remaining().len() {
                max as int
            } else {
                old(self).remaining().len() as int
            },
            chunk@ == old(self).remaining().take(chunk@.len() as int),
            final(self).position() == old(self).position() + chunk@.len(),
            final(self).remaining() == old(self).remaining().skip(chunk@.len() as int),
            final(self).bytes_read() == count_after(old(self).bytes_read(), chunk@.len()),
    {
        let offset = self.inner.stream_position() - self.inner_start_pos;
        let buf = self.inner.read(max);
        match crypt(&self.key, &self.iv, offset, buf.as_slice()) {
            Ok(chunk) => {
                assert(chunk@ =~= old(self).remaining().take(chunk@.len() as int));
                assert(self.remaining() =~= old(self).remaining().skip(chunk@.len() as int));
                chunk
            },
            Err(_) => vstd::pervasive::unreached(),
        }
    }

    /// Reads exactly `len` bytes of plaintext, or fails and stays in place
    /// where fewer are left.
    pub fn read_exact(&mut self, len: usize) -> (result: Result<Vec<u8>, Error>)
        requires
            old(self).wf(),
        ensures
            final(self).wf(),
            final(self).same_stream(old(self)),
            match result {
                Ok(bytes) => {
                    &&& len <= old(self).remaining().len()
                    &&& bytes@ == old(self).remaining().take(len as int)
                    &&& final(self).position() == old(self).position() + len
                    &&& final(self).remaining() == old(self).remaining().skip(len as int)
                    &&& final(self).bytes_read() == count_after(old(self).bytes_read(), len as nat)
                },
                Err(e) => {
                    &&& len > old(self).remaining().len()
                    &&& e == Error::UnexpectedEof
                    &&& final(self).position() == old(self).position()
                    &&& final(self).bytes_read() == old(self).bytes_read()
                },
            },
    {
        if len as u64 > self.inner.len() as u64 - self.inner.stream_position() {
            return Err(Error::UnexpectedEof);
        }
        Ok(self.read(len))
    }

    /// The position that a seek aims at in the stream underneath.
    pub open spec fn seek_aim(&self, seek_from: SeekFrom) -> int {
        seek_aim(self.start(), self.inner(), seek_from)
    }

    /// Moves to the position that `seek_from` aims at and brings the
    /// keystream in line with it. A seek from the start counts from where the
    /// reader was made; one that would end before that place ends at it. A
    /// seek outside the stream fails and moves nothing.
    pub fn seek(&mut self, seek_from: SeekFrom) -> (result: Result<u64, Error>)
        requires
            old(self).wf(),
        ensures
            final(self).wf(),
            final(self).same_stream(old(self)),
            final(self).bytes_read() == old(self).bytes_read(),
            match result {
                Ok(pos) => {
                    &&& 0 <= old(self).seek_aim(seek_from) <= old(self).inner()@.len()
                    &&& pos == if old(self).seek_aim(seek_from) < old(self).start() {
                        0
                    } else {
                        old(self).seek_aim(seek_from) - old(self).start()
                    }
                    &&& final(self).position() == pos
                },
                Err(e) => {
                    &&& e == Error::InvalidSeek
                    &&& !(0 <= old(self).seek_aim(seek_from) <= old(self).inner()@.len())
                    &&& final(self).position() == old(self).position()
                },
            },
    {
        seek_from_start(&mut self.inner, self.inner_start_pos, seek_from)
    }

    /// The position, counted from the start.
    pub fn stream_position(&self) -> (pos: u64)
        requires
            self.wf(),
        ensures
            pos == self.position(),
    {
        self.inner.stream_position() - self.inner_start_pos
    }

    /// The number of bytes that were read from the stream underneath.
    pub fn get_bytes_read(&self) -> (count: u64)
        ensures
            count == self.bytes_read(),
    {
        self.inner.get_bytes_read()
    }

    /// Gives up the reader for the stream underneath.
    pub fn into_inner(self) -> (inner: ByteStream)
        ensures
            inner == self.inner(),
    {
        self.inner
    }
}

} // verus!
