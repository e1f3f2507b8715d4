//! A window onto a span of a backing stream.
use vstd::prelude::*;
use crate::backing::{available, overwrite, MemoryBacking};
use crate::error::{Error, IoErrorKind, Result};
use crate::fragment::{compute_seek_target, seek_target, SeekFrom};

verus! {

/// The target of `pos` within a span of `max_len` bytes with cursor `cursor`: a start offset
/// as given, otherwise in signed 64-bit arithmetic (`None` where that overflows).
pub open spec fn section_target(pos: SeekFrom, cursor: int, max_len: int) -> Option<int> {
    match pos {
        SeekFrom::Start(o) => Some(o as int),
        _ => seek_target(pos, cursor, max_len),
    }
}

/// A span of `max_len` bytes from `base_offset` on, with a cursor that never leaves it.
#[derive(Debug, Clone, Copy, PartialEq, Eq, Structural)]
pub struct BoundedSection {
    pub base_offset: u64,
    pub max_len: u64,
    pub cursor: u64,
}

impl BoundedSection {
    pub open spec fn wf(&self) -> bool {
        self.base_offset + self.max_len <= u64::MAX
    }

    /// Opens the span and moves the stream's cursor to its start.
    pub fn new(inner: &mut MemoryBacking, base_offset: u64, max_len: u64) -> (r: Result<BoundedSection>)
        ensures
            base_offset + max_len <= u64::MAX ==> r == Ok::<BoundedSection, Error>(
                BoundedSection { base_offset, max_len, cursor: 0 },
            ) && final(inner).position() == base_offset,
            base_offset + max_len > u64::MAX ==> r == Err::<BoundedSection, Error>(
                Error::Io(IoErrorKind::OutOfSpace),
            ),
            final(inner).bytes() == old(inner).bytes(),
    {
        if base_offset > u64::MAX - max_len {
            return Err(Error::Io(IoErrorKind::OutOfSpace));
        }
        inner.seek_to(base_offset);
        Ok(BoundedSection { base_offset, max_len, cursor: 0 })
    }

    /// `len`, cut down to what is left of the span.
    pub fn clamp_len(&self, len: usize) -> (r: usize)
        ensures
            r == self.clamp_len_spec(len),
    {
        let remaining = if self.cursor >= self.max_len {
            0
        } else {
            self.max_len - self.cursor
        };
        if len as u64 <= remaining {
            len
        } else {
            remaining as usize
        }
    }

    /// Reads at most `n` bytes at the stream's cursor, never past the span.
    pub fn read(&mut self, inner: &mut MemoryBacking, n: usize) -> (r: Vec<u8>)
        requires
            old(self).cursor <= old(self).max_len,
        ensures
            r@ == available(old(inner).bytes(), old(inner).position() as int, old(self).clamp_len_spec(n)),
            final(inner).bytes() == old(inner).bytes(),
            final(self).cursor == old(self).cursor + r@.len(),
            final(self).cursor <= final(self).max_len,
            final(self).max_len == old(self).max_len,
            final(self).base_offset == old(self).base_offset,
    {
        let len = self.clamp_len(n);
        let data = inner.read_bytes(len);
        self.cursor = self.cursor + data.len() as u64;
        data
    }

    pub open spec fn clamp_len_spec(&self, len: usize) -> int {
        if self.cursor >= self.max_len {
            0
        } else if len <= self.max_len - self.cursor {
            len as int
        } else {
            self.max_len - self.cursor
        }
    }

    /// Writes as much of `buf` at the stream's cursor as the span leaves room for.
    pub fn write(&mut self, inner: &mut MemoryBacking, buf: &[u8]) -> (r: Result<usize>)
        requires
            old(self).cursor <= old(self).max_len,
        ensures
            ({
                let k = old(self).clamp_len_spec(buf@.len() as usize);
                if old(inner).position() + k <= usize::MAX {
                    &&& r == Ok::<usize, Error>(k as usize)
                    &&& final(inner).bytes() == overwrite(old(inner).bytes(), old(inner).position() as int, buf@.subrange(0, k))
                    &&& final(self).cursor == old(self).cursor + k
                } else {
                    r == Err::<usize, Error>(Error::Io(IoErrorKind::OutOfSpace))
                }
            }),
            final(self).cursor <= final(self).max_len,
            final(self).max_len == old(self).max_len,
            final(self).base_offset == old(self).base_offset,
    {
        let len = self.clamp_len(buf.len());
        let part = &buf[0..len];
        inner.write_bytes(part)?;
        self.cursor = self.cursor + len as u64;
        Ok(len)
    }

    /// Flushes the stream.
    pub fn flush(&mut self, inner: &mut MemoryBacking)
        ensures
            *final(inner) == *old(inner),
    {
        inner.flush();
    }

    /// Moves the cursor within the span, and the stream's cursor with it.
    pub fn seek(&mut self, inner: &mut MemoryBacking, pos: SeekFrom) -> (r: Result<u64>)
        requires
            old(self).wf(),
        ensures
            final(inner).bytes() == old(inner).bytes(),
            match section_target(pos, old(self).cursor as int, old(self).max_len as int) {
                Some(t) if 0 <= t <= old(self).max_len => r == Ok::<u64, Error>(t as u64)
                    && *final(self) == (BoundedSection { cursor: t as u64, ..*old(self) })
                    && final(inner).position() == old(self).base_offset + t,
                _ => r == Err::<u64, Error>(Error::Io(IoErrorKind::InvalidInput)) && *final(self)
                    == *old(self),
            },
    {
        if let SeekFrom::Start(n) = pos {
            if n > self.max_len {
                return Err(Error::Io(IoErrorKind::InvalidInput));
            }
            inner.seek_to(self.base_offset + n);
            self.cursor = n;
            return Ok(n);
        }
        match compute_seek_target(pos, self.cursor, self.max_len) {
            Some(t) => {
                if t < 0 || t as u64 > self.max_len {
                    return Err(Error::Io(IoErrorKind::InvalidInput));
                }
                let c = t as u64;
                inner.seek_to(self.base_offset + c);
                self.cursor = c;
                Ok(c)
            },
            None => Err(Error::Io(IoErrorKind::InvalidInput)),
        }
    }
}

} // verus!
