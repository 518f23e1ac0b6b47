//! An in-memory byte stream that can be read, written and repositioned.

use vstd::prelude::*;
use vstd::slice::slice_to_vec;
use crate::error::Error;

verus! {

/// Where a seek aims: from the start, from the end, or from the current
/// position of a stream.
#[derive(Clone, Copy, Debug, PartialEq, Eq)]
pub enum SeekFrom {
    Start(u64),
    End(i64),
    Current(i64),
}

/// The position that a seek on a stream of `len` bytes standing at `pos`
/// aims at, before any range check.
pub open spec fn seek_target(len: int, pos: int, seek_from: SeekFrom) -> int {
    match seek_from {
        SeekFrom::Start(p) => p as int,
        SeekFrom::End(d) => len + d,
        SeekFrom::Current(d) => pos + d,
    }
}

/// `data` with `buf` written over it from `pos` on, growing where `buf`
/// reaches past the end.
pub open spec fn overwrite(data: Seq<u8>, pos: int, buf: Seq<u8>) -> Seq<u8>
    recommends
        0 <= pos <= data.len(),
{
    if pos + buf.len() <= data.len() {
        data.subrange(0, pos) + buf + data.subrange(pos + buf.len(), data.len() as int)
    } else {
        data.subrange(0, pos) + buf
    }
}

/// The count of bytes read after `len` more were read: it stops at the
/// largest number that it can hold.
pub open spec fn count_after(count: nat, len: nat) -> nat {
    if count + len > u64::MAX {
        u64::MAX as nat
    } else {
        count + len
    }
}

/// A growable sequence of bytes with a position, at or before its end, that
/// counts the bytes read from it.
#[derive(Debug)]
pub struct ByteStream {
    data: Vec<u8>,
    pos: usize,
    reads: u64,
}

impl View for ByteStream {
    type V = Seq<u8>;

    /// All bytes of the stream, whatever the position.
    closed spec fn view(&self) -> Seq<u8> {
        self.data@
    }
}

impl ByteStream {
    /// The number of bytes before the position.
    pub closed spec fn position(&self) -> nat {
        self.pos as nat
    }

    /// The number of bytes that were read from the stream so far.
    pub closed spec fn bytes_read(&self) -> nat {
        self.reads as nat
    }

    /// The position lies within the stream or at its end.
    pub open spec fn wf(&self) -> bool {
        self.position() <= self@.len() <= usize::MAX
    }

    /// The bytes from the position to the end.
    pub open spec fn remaining(&self) -> Seq<u8> {
        self@.skip(self.position() as int)
    }

    /// A stream over `data`, positioned at its first byte.
    pub fn new(data: Vec<u8>) -> (stream: Self)
        ensures
            stream.wf(),
            stream@ == data@,
            stream.position() == 0,
            stream.bytes_read() == 0,
    {
        assert(data@.len() == data.len());
        ByteStream { data, pos: 0, reads: 0 }
    }

    /// Gives up the stream for its bytes.
    pub fn into_inner(self) -> (data: Vec<u8>)
        ensures
            data@ == self@,
    {
        self.data
    }

    /// The number of bytes in the stream.
    pub fn len(&self) -> (len: usize)
        ensures
            len == self@.len(),
    {
        self.data.len()
    }

    /// The current position.
    pub fn stream_position(&self) -> (pos: u64)
        ensures
            pos == self.position(),
    {
        self.pos as u64
    }

    /// The number of bytes that were read from the stream so far.
    pub fn get_bytes_read(&self) -> (count: u64)
        ensures
            count == self.bytes_read(),
    {
        self.reads
    }

    /// Reads up to `max` bytes and moves past them; fewer only at the end.
    pub fn read(&mut self, max: usize) -> (chunk: Vec<u8>)
        requires
            old(self).wf(),
        ensures
            final(self).wf(),
            final(self)@ == old(self)@,
            chunk@.len() == if max <= old(self).remaining().len() {
                max as int
            } else {
                old(self).remaining().len() as int
            },
            chunk@ == old(self).remaining().take(chunk@.len() as int),
            final(self).position() == old(self).position() + chunk@.len(),
            final(self).remaining() == old(self).remaining().skip(chunk@.len() as int),
            final(self).bytes_read() == count_after(old(self).bytes_read(), chunk@.len()),
    {
        let rest = self.data.len() - self.pos;
        let n = if max <= rest { max } else { rest };
        let chunk = slice_to_vec(&self.data.as_slice()[self.pos..self.pos + n]);
        self.pos = self.pos + n;
        self.reads = if n as u64 > u64::MAX - self.reads {
            u64::MAX
        } else {
            self.reads + n as u64
        };
        assert(chunk@ =~= old(self).remaining().take(n as int));
        assert(self.remaining() =~= old(self).remaining().skip(n as int));
        chunk
    }

    /// Reads exactly `len` bytes, or fails and stays in place where fewer
    /// are left.
    pub fn read_exact(&mut self, len: usize) -> (result: Result<Vec<u8>, Error>)
        requires
            old(self).wf(),
        ensures
            final(self).wf(),
            final(self)@ == old(self)@,
            match result {
                Ok(bytes) => {
                    &&& len <= old(self).remaining().len()
                    &&& bytes@ == old(self).remaining().take(len as int)
                    &&& final(self).position() == old(self).position() + len
                    &&& final(self).remaining() == old(self).remaining().skip(len as int)
                    &&& final(self).bytes_read() == count_after(old(self).bytes_read(), len as nat)
                },
                Err(e) => {
                    &&& len > old(self).remaining().len()
                    &&& e == Error::UnexpectedEof
                    &&& final(self).position() == old(self).position()
                    &&& final(self).bytes_read() == old(self).bytes_read()
                },
            },
    {
        if len > self.data.len() - self.pos {
            return Err(Error::UnexpectedEof);
        }
        Ok(self.read(len))
    }

    /// Writes `buf` at the position, over what is there and past the end,
    /// and moves past it.
    pub fn write_all(&mut self, buf: &[u8])
        requires
            old(self).wf(),
            old(self).position() + buf@.len() <= usize::MAX,
        ensures
            final(self).wf(),
            final(self)@ == overwrite(old(self)@, old(self).position() as int, buf@),
            final(self).position() == old(self).position() + buf@.len(),
            final(self).bytes_read() == old(self).bytes_read(),
    {
        let n = buf.len();
        if self.pos == self.data.len() {
            self.data.extend_from_slice(buf);
            self.pos = self.pos + n;
            assert(self.data@ =~= overwrite(old(self)@, old(self).position() as int, buf@));
            return ;
        }
        let mut i: usize = 0;
        while i < n
            invariant
                0 <= i <= n,
                n == buf@.len(),
                self.pos == old(self).pos,
                self.reads == old(self).reads,
                self.pos + n <= usize::MAX,
                self.pos <= old(self).data@.len(),
                self.data@.len() == if self.pos + i <= old(self).data@.len() {
                    old(self).data@.len()
                } else {
                    (self.pos + i) as nat
                },
                forall|k: int| 0 <= k < self.pos ==> self.data@[k] == old(self).data@[k],
                forall|k: int| self.pos <= k < self.pos + i ==> self.data@[k] == buf@[k - self.pos],
                forall|k: int|
                    self.pos + i <= k < old(self).data@.len() ==> self.data@[k] == old(
                        self,
                    ).data@[k],
            decreases n - i,
        {
            if self.pos + i < self.data.len() {
                self.data[self.pos + i] = buf[i];
            } else {
                self.data.push(buf[i]);
            }
            i = i + 1;
        }
        self.pos = self.pos + n;
        assert(self.data@ =~= overwrite(old(self)@, old(self).position() as int, buf@));
    }

    /// Moves to the position that `seek_from` aims at, or fails and stays
    /// in place where that lies outside the stream.
    pub fn seek(&mut self, seek_from: SeekFrom) -> (result: Result<u64, Error>)
        requires
            old(self).wf(),
        ensures
            final(self).wf(),
            final(self)@ == old(self)@,
            final(self).bytes_read() == old(self).bytes_read(),
            match result {
                Ok(pos) => {
                    &&& pos == seek_target(
                        old(self)@.len() as int,
                        old(self).position() as int,
                        seek_from,
                    )
                    &&& final(self).position() == pos
                },
                Err(e) => {
                    &&& e == Error::InvalidSeek
                    &&& final(self).position() == old(self).position()
                    &&& !(0 <= seek_target(
                        old(self)@.len() as int,
                        old(self).position() as int,
                        seek_from,
                    ) <= old(self)@.len())
                },
            },
    {
        let len = self.data.len() as i128;
        let target: i128 = match seek_from {
            SeekFrom::Start(p) => p as i128,
            SeekFrom::End(d) => len + d as i128,
            SeekFrom::Current(d) => self.pos as i128 + d as i128,
        };
        if target < 0 || target > len {
            return Err(Error::InvalidSeek);
        }
        self.pos = target as usize;
        Ok(target as u64)
    }
}

/// Writing two pieces one behind the other is writing them as one.
pub proof fn lemma_overwrite_twice(data: Seq<u8>, pos: int, first: Seq<u8>, second: Seq<u8>)
    requires
        0 <= pos <= data.len(),
    ensures
        overwrite(overwrite(data, pos, first), pos + first.len(), second) == overwrite(
            data,
            pos,
            first + second,
        ),
        overwrite(data, pos, first).len() >= pos + first.len(),
{
    assert(overwrite(overwrite(data, pos, first), pos + first.len(), second) =~= overwrite(
        data,
        pos,
        first + second,
    ));
}

} // verus!
