//! A growable byte buffer with a position, read and written sequentially and
//! repositioned at will: the sink of an encode and the source of a decode.

use crate::error::AssetError;
use vstd::prelude::*;

verus! {

/// The mathematical state of a cursor: the bytes it holds and the position of
/// the next read or write. The position may lie beyond the last byte.
pub struct Stream {
    pub bytes: Seq<u8>,
    pub pos: nat,
}

/// `bytes` after `data` has been written at `pos`: bytes under the written
/// span are replaced, a gap between the old end and `pos` is filled with
/// zeros, and the buffer grows as far as the span reaches.
#[verifier::opaque]
pub open spec fn overwrite(bytes: Seq<u8>, pos: nat, data: Seq<u8>) -> Seq<u8> {
    Seq::new(
        if bytes.len() >= pos + data.len() {
            bytes.len()
        } else {
            pos + data.len()
        },
        |i: int|
            if pos <= i < pos + data.len() {
                data[i - pos]
            } else if i < bytes.len() {
                bytes[i]
            } else {
                0u8
            },
    )
}

impl Stream {
    /// The number of bytes between the position and the end.
    pub open spec fn available(self) -> nat {
        if self.pos <= self.bytes.len() {
            (self.bytes.len() - self.pos) as nat
        } else {
            0
        }
    }

    /// The next `n` bytes, meaningful where `n <= self.available()`.
    pub open spec fn peek(self, n: nat) -> Seq<u8> {
        if n == 0 {
            Seq::empty()
        } else {
            self.bytes.subrange(self.pos as int, (self.pos + n) as int)
        }
    }

    /// The same bytes with the position moved forward by `n`.
    pub open spec fn skip(self, n: nat) -> Stream {
        Stream { bytes: self.bytes, pos: self.pos + n }
    }

    /// The same bytes with the position set to `pos`.
    pub open spec fn seek(self, pos: nat) -> Stream {
        Stream { bytes: self.bytes, pos }
    }

    /// The state after `data` has been written at the position.
    pub open spec fn write(self, data: Seq<u8>) -> Stream {
        Stream { bytes: overwrite(self.bytes, self.pos, data), pos: self.pos + data.len() }
    }
}

/// Two writes in a row are one write of the concatenation.
pub proof fn lemma_write_write(s: Stream, a: Seq<u8>, b: Seq<u8>)
    ensures
        s.write(a).write(b) == s.write(a + b),
{
    reveal(overwrite);
    assert(s.write(a).write(b).bytes =~= s.write(a + b).bytes);
}

/// Going back into a span that was just written, replacing part of it and
/// returning to its end is the same as having written the replaced span at once.
pub proof fn lemma_patch(s: Stream, a: Seq<u8>, at: nat, patch: Seq<u8>)
    requires
        at + patch.len() <= a.len(),
    ensures
        s.write(a).seek(s.pos + at).write(patch).seek(s.pos + a.len()) == s.write(
            overwrite(a, at, patch),
        ),
{
    reveal(overwrite);
    let left = s.write(a).seek(s.pos + at).write(patch).seek(s.pos + a.len());
    let right = s.write(overwrite(a, at, patch));
    assert(left.bytes =~= right.bytes);
}

/// An in-memory byte buffer with a read and write position.
pub struct ByteCursor {
    data: Vec<u8>,
    pos: usize,
}

impl View for ByteCursor {
    type V = Stream;

    closed spec fn view(&self) -> Stream {
        Stream { bytes: self.data@, pos: self.pos as nat }
    }
}

impl ByteCursor {
    /// A cursor over `data`, positioned at its first byte.
    pub fn new(data: Vec<u8>) -> (cursor: ByteCursor)
        ensures
            cursor@ == (Stream { bytes: data@, pos: 0 }),
    {
        ByteCursor { data, pos: 0 }
    }

    /// The position of the next read or write.
    pub fn position(&self) -> (pos: usize)
        ensures
            pos == self@.pos,
    {
        self.pos
    }

    /// Moves to `pos`, counted from the first byte. Any position is accepted:
    /// beyond the end a read fails and a write fills the gap with zeros.
    pub fn set_position(&mut self, pos: usize)
        ensures
            final(self)@ == old(self)@.seek(pos as nat),
    {
        self.pos = pos;
    }

    /// The bytes held.
    pub fn get_ref(&self) -> (data: &Vec<u8>)
        ensures
            data@ == self@.bytes,
    {
        &self.data
    }

    /// Gives up the cursor for the bytes it holds.
    pub fn into_inner(self) -> (data: Vec<u8>)
        ensures
            data@ == self@.bytes,
    {
        self.data
    }

    /// Reads exactly `n` bytes and moves past them. Where fewer than `n` bytes
    /// are left, nothing is read and the cursor stays as it was.
    pub fn read_exact(&mut self, n: usize) -> (r: Result<Vec<u8>, AssetError>)
        ensures
            match r {
                Ok(bytes) => {
                    &&& n <= old(self)@.available()
                    &&& bytes@ == old(self)@.peek(n as nat)
                    &&& final(self)@ == old(self)@.skip(n as nat)
                },
                Err(e) => {
                    &&& n > old(self)@.available()
                    &&& e == AssetError::Truncated
                    &&& final(self)@ == old(self)@
                },
            },
    {
        let len = self.data.len();
        if n == 0 {
            return Ok(Vec::new());
        }
        if self.pos > len || n > len - self.pos {
            return Err(AssetError::Truncated);
        }
        let start = self.pos;
        let mut bytes: Vec<u8> = Vec::new();
        let mut i: usize = 0;
        while i < n
            invariant
                i <= n,
                start + n <= len,
                len == self.data@.len(),
                self.pos == start,
                self.data@ == old(self).data@,
                bytes@ == self.data@.subrange(start as int, start + i),
            decreases n - i,
        {
            bytes.push(self.data[start + i]);
            i += 1;
            assert(bytes@ =~= self.data@.subrange(start as int, start + i));
        }
        self.pos = start + n;
        Ok(bytes)
    }

    /// Writes all of `data` at the position and moves past it, growing the
    /// buffer where the written span reaches beyond its end.
    pub fn write_all(&mut self, data: &[u8])
        ensures
            final(self)@ == old(self)@.write(data@),
    {
        let start = self.pos;
        while self.data.len() < start
            invariant
                self.pos == start,
                old(self).data@.len() <= self.data@.len(),
                self.data@.len() <= start || self.data@ == old(self).data@,
                forall|j: int| 0 <= j < old(self).data@.len() ==> self.data@[j] == old(self).data@[j],
                forall|j: int| old(self).data@.len() <= j < self.data@.len() ==> self.data@[j] == 0u8,
            decreases start - self.data.len(),
        {
            self.data.push(0);
        }
        let ghost padded = self.data@;
        let mut i: usize = 0;
        while i < data.len()
            invariant
                i <= data@.len(),
                self.pos == start + i,
                start <= padded.len(),
                self.data@.len() == if padded.len() >= start + i {
                    padded.len() as int
                } else {
                    start + i
                },
                forall|j: int|
                    0 <= j < self.data@.len() ==> self.data@[j] == if start <= j < start + i {
                        data@[j - start]
                    } else {
                        padded[j]
                    },
            decreases data@.len() - i,
        {
            if self.pos < self.data.len() {
                self.data.set(self.pos, data[i]);
            } else {
                self.data.push(data[i]);
            }
            let len = self.data.len();
            assert(self.pos < len);
            self.pos += 1;
            i += 1;
        }
        assert(self.data@ =~= overwrite(old(self).data@, start as nat, data@)) by {
            reveal(overwrite);
        }
    }
}

} // verus!
