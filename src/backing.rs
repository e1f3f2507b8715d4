//! The random-access byte stream that holds a container.
use vstd::prelude::*;
use crate::error::{Error, IoErrorKind, Result};

verus! {

/// `data` with `buf` laid over it from `pos` on; the stream grows with zeros where needed.
pub open spec fn overwrite(data: Seq<u8>, pos: int, buf: Seq<u8>) -> Seq<u8> {
    let n = if data.len() >= pos + buf.len() { data.len() as int } else { pos + buf.len() };
    Seq::new(
        n as nat,
        |i: int|
            if pos <= i < pos + buf.len() {
                buf[i - pos]
            } else if i < data.len() {
                data[i]
            } else {
                0u8
            },
    )
}

/// The bytes that a read of at most `n` bytes at `pos` obtains.
pub open spec fn available(data: Seq<u8>, pos: int, n: int) -> Seq<u8> {
    if pos >= data.len() {
        Seq::empty()
    } else if pos + n >= data.len() {
        data.subrange(pos, data.len() as int)
    } else {
        data.subrange(pos, pos + n)
    }
}

/// An in-memory byte stream with a cursor, which grows on writes past its end.
#[derive(Debug)]
pub struct MemoryBacking {
    data: Vec<u8>,
    pos: u64,
}

impl MemoryBacking {
    pub closed spec fn bytes(&self) -> Seq<u8> {
        self.data@
    }

    pub closed spec fn position(&self) -> u64 {
        self.pos
    }

    pub fn new(data: Vec<u8>) -> (r: MemoryBacking)
        ensures
            r.bytes() == data@,
            r.position() == 0,
    {
        MemoryBacking { data, pos: 0 }
    }

    pub fn into_inner(self) -> (r: Vec<u8>)
        ensures
            r@ == self.bytes(),
    {
        self.data
    }

    pub fn get_ref(&self) -> (r: &Vec<u8>)
        ensures
            r@ == self.bytes(),
    {
        &self.data
    }

    pub fn len(&self) -> (r: usize)
        ensures
            r == self.bytes().len(),
    {
        self.data.len()
    }

    pub fn stream_position(&self) -> (r: u64)
        ensures
            r == self.position(),
    {
        self.pos
    }

    /// Moves the cursor; any position is allowed, also one past the end.
    pub fn seek_to(&mut self, pos: u64)
        ensures
            final(self).bytes() == old(self).bytes(),
            final(self).position() == pos,
    {
        self.pos = pos;
    }

    pub fn flush(&mut self)
        ensures
            *final(self) == *old(self),
    {
    }

    /// Reads at most `n` bytes at the cursor and moves the cursor past them.
    pub fn read_bytes(&mut self, n: usize) -> (r: Vec<u8>)
        ensures
            r@ == available(old(self).bytes(), old(self).position() as int, n as int),
            final(self).bytes() == old(self).bytes(),
            final(self).position() == old(self).position() + r@.len(),
    {
        let len = self.data.len();
        let mut out: Vec<u8> = Vec::new();
        if self.pos >= len as u64 {
            return out;
        }
        let start = self.pos as usize;
        let stop: usize = if n >= len - start { len } else { start + n };
        let mut i: usize = start;
        while i < stop
            invariant
                start <= i <= stop <= len,
                len == self.data@.len(),
                self.data@ == old(self).bytes(),
                self.pos == old(self).position(),
                start == self.pos,
                out@ == self.data@.subrange(start as int, i as int),
            decreases stop - i,
        {
            out.push(self.data[i]);
            i = i + 1;
            assert(out@ =~= self.data@.subrange(start as int, i as int));
        }
        assert(out@ =~= available(old(self).bytes(), old(self).position() as int, n as int));
        self.pos = stop as u64;
        out
    }

    /// Reads exactly `n` bytes at the cursor; fails when fewer are there.
    pub fn read_exact(&mut self, n: usize) -> (r: Result<Vec<u8>>)
        ensures
            final(self).bytes() == old(self).bytes(),
            old(self).position() + n <= old(self).bytes().len() ==> (r matches Ok(v) && v@
                == old(self).bytes().subrange(
                old(self).position() as int,
                old(self).position() + n,
            ) && final(self).position() == old(self).position() + n),
            old(self).position() + n > old(self).bytes().len() ==> r == Err::<Vec<u8>, Error>(
                Error::Decode,
            ),
    {
        if self.pos > self.data.len() as u64 || n > self.data.len() - self.pos as usize {
            return Err(Error::Decode);
        }
        let v = self.read_bytes(n);
        Ok(v)
    }

    /// Writes all of `buf` at the cursor and moves the cursor past it.
    pub fn write_bytes(&mut self, buf: &[u8]) -> (r: Result<()>)
        ensures
            old(self).position() + buf@.len() <= usize::MAX ==> r is Ok && final(self).bytes()
                == overwrite(old(self).bytes(), old(self).position() as int, buf@)
                && final(self).position() == old(self).position() + buf@.len(),
            old(self).position() + buf@.len() > usize::MAX ==> r == Err::<(), Error>(
                Error::Io(IoErrorKind::OutOfSpace),
            ) && *final(self) == *old(self),
    {
        if self.pos > usize::MAX as u64 || buf.len() > usize::MAX - self.pos as usize {
            return Err(Error::Io(IoErrorKind::OutOfSpace));
        }
        let pos = self.pos as usize;
        let ghost old_data = self.data@;
        while self.data.len() < pos
            invariant
                self.data@.len() <= pos || self.data@.len() == old_data.len(),
                self.data@.len() >= old_data.len(),
                forall|j: int|
                    0 <= j < self.data@.len() ==> #[trigger] self.data@[j] == if j
                        < old_data.len() {
                        old_data[j]
                    } else {
                        0u8
                    },
            decreases pos - self.data@.len(),
        {
            self.data.push(0u8);
        }
        let mut i: usize = 0;
        while i < buf.len()
            invariant
                pos + buf@.len() <= usize::MAX,
                i <= buf@.len(),
                self.data@.len() == if old_data.len() >= pos + i {
                    old_data.len() as int
                } else {
                    pos + i
                },
                forall|j: int|
                    0 <= j < self.data@.len() ==> #[trigger] self.data@[j] == if pos <= j < pos
                        + i {
                        buf@[j - pos]
                    } else if j < old_data.len() {
                        old_data[j]
                    } else {
                        0u8
                    },
            decreases buf@.len() - i,
        {
            if pos + i < self.data.len() {
                self.data.set(pos + i, buf[i]);
            } else {
                self.data.push(buf[i]);
            }
            i = i + 1;
        }
        assert(self.data@ =~= overwrite(old_data, pos as int, buf@));
        self.pos = (pos + buf.len()) as u64;
        Ok(())
    }
}

} // verus!
