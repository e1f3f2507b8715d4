//! The fragment payload record: an 84-byte header, then the payload bytes.
use vstd::prelude::*;
use crate::backing::{overwrite, MemoryBacking};
use crate::codec::{get_u64, le8, le8_value, put_u64};
use crate::error::{Error, FragmentError, IoErrorKind, Result};
use crate::FragmentID;

verus! {

/// Bytes of a payload record's header.
pub const RECORD_HEADER_SIZE: u64 = 84;

/// Milliseconds since the Unix epoch.
pub type UnixTimeMs = u64;

/// The magic word of a payload record: "FRAG".
pub open spec fn record_magic() -> Seq<u8> {
    seq![0x46u8, 0x52u8, 0x41u8, 0x47u8]
}

/// One version of a fragment's payload, with its identity and metadata.
#[derive(Debug, Clone, PartialEq, Eq)]
pub struct Fragment {
    pub id: FragmentID,
    /// Digest of the payload; 32 bytes, not checked.
    pub hash: Vec<u8>,
    pub timestamp: UnixTimeMs,
    pub sequence: u64,
    pub data: Vec<u8>,
}

/// The record of a payload: magic, id, sequence, hash, timestamp, capacity and length, eight
/// reserved zero bytes, then the payload, whose capacity is its length.
pub open spec fn record_bytes(id: u64, sequence: u64, hash: Seq<u8>, timestamp: u64, data: Seq<u8>) -> Seq<u8> {
    record_magic() + le8(id) + le8(sequence) + hash + le8(timestamp) + le8(data.len() as u64) + le8(
        data.len() as u64,
    ) + Seq::new(8, |i: int| 0u8) + data
}

/// What decoding the record at `pos` in `b` gives: id, sequence, hash, timestamp, payload.
pub open spec fn record_from(b: Seq<u8>, pos: int) -> Result<(u64, u64, Seq<u8>, u64, Seq<u8>)> {
    if pos + 84 > b.len() {
        Err(Error::Decode)
    } else if b.subrange(pos, pos + 4) != record_magic() {
        Err(Error::Fragment(FragmentError::InvalidMagic))
    } else {
        let cap = le8_value(b.subrange(pos + 60, pos + 68));
        let len = le8_value(b.subrange(pos + 68, pos + 76));
        if len > cap {
            Err(Error::Fragment(FragmentError::LengthExceedsCapacity))
        } else if pos + 84 + cap > b.len() {
            Err(Error::Decode)
        } else {
            Ok(
                (
                    le8_value(b.subrange(pos + 4, pos + 12)),
                    le8_value(b.subrange(pos + 12, pos + 20)),
                    b.subrange(pos + 20, pos + 52),
                    le8_value(b.subrange(pos + 52, pos + 60)),
                    b.subrange(pos + 84, pos + 84 + len),
                ),
            )
        }
    }
}

impl crate::table::Storage for Fragment {
    fn read(source: &mut MemoryBacking) -> Result<Fragment> {
        Fragment::read(source)
    }

    fn write(&mut self, source: &mut MemoryBacking) -> Result<()> {
        Fragment::write(self, source)
    }
}

impl crate::table::KnownSize for Fragment {
    open spec fn spec_size() -> nat {
        84
    }

    fn size() -> (r: u64) {
        RECORD_HEADER_SIZE
    }
}

impl Fragment {
    /// Hands the fragment back: the payload's digest is carried, not checked.
    pub fn validate_hash(self) -> (r: Result<Fragment>)
        ensures
            r == Ok::<Fragment, Error>(self),
    {
        Ok(self)
    }

    /// The digest recorded for a payload: all zeros, as no algorithm is fixed.
    pub fn compute_hash(&self) -> (r: Vec<u8>)
        ensures
            r@ == Seq::new(32, |i: int| 0u8),
    {
        let mut h: Vec<u8> = Vec::new();
        let mut i: usize = 0;
        while i < 32
            invariant
                i <= 32,
                h@ == Seq::new(i as nat, |k: int| 0u8),
            decreases 32 - i,
        {
            h.push(0u8);
            i = i + 1;
            assert(h@ =~= Seq::new(i as nat, |k: int| 0u8));
        }
        h
    }

    /// Reads the record at the stream's cursor.
    pub fn read(source: &mut MemoryBacking) -> (r: Result<Fragment>)
        ensures
            final(source).bytes() == old(source).bytes(),
            match record_from(old(source).bytes(), old(source).position() as int) {
                Ok(v) => r matches Ok(f) && f.id == v.0 && f.sequence == v.1 && f.hash@ == v.2
                    && f.timestamp == v.3 && f.data@ == v.4,
                Err(e) => r == Err::<Fragment, Error>(e),
            },
    {
        let ghost b = source.bytes();
        let ghost pos = source.position() as int;
        let head = source.read_exact(84)?;
        proof {
            assert(head@.subrange(0, 4) =~= b.subrange(pos, pos + 4));
            assert(head@.subrange(4, 12) =~= b.subrange(pos + 4, pos + 12));
            assert(head@.subrange(12, 20) =~= b.subrange(pos + 12, pos + 20));
            assert(head@.subrange(52, 60) =~= b.subrange(pos + 52, pos + 60));
            assert(head@.subrange(60, 68) =~= b.subrange(pos + 60, pos + 68));
            assert(head@.subrange(68, 76) =~= b.subrange(pos + 68, pos + 76));
        }
        if !(head[0] == 0x46u8 && head[1] == 0x52u8 && head[2] == 0x41u8 && head[3] == 0x47u8) {
            assert(b.subrange(pos, pos + 4) != record_magic()) by {
                if b.subrange(pos, pos + 4) == record_magic() {
                    assert(head@.subrange(0, 4)[0] == head@[0]);
                    assert(head@.subrange(0, 4)[1] == head@[1]);
                    assert(head@.subrange(0, 4)[2] == head@[2]);
                    assert(head@.subrange(0, 4)[3] == head@[3]);
                }
            }
            return Err(Error::Fragment(FragmentError::InvalidMagic));
        }
        assert(head@.subrange(0, 4) =~= record_magic());
        let cap = get_u64(head.as_slice(), 60);
        let len = get_u64(head.as_slice(), 68);
        if len > cap {
            return Err(Error::Fragment(FragmentError::LengthExceedsCapacity));
        }
        let _total = source.len();
        if cap > usize::MAX as u64 {
            return Err(Error::Decode);
        }
        let body = source.read_exact(cap as usize)?;
        let data = crate::fragment::prefix(body.as_slice(), len as usize);
        let hash = crate::fragment::prefix(&head.as_slice()[20..52], 32);
        proof {
            assert(data@ =~= b.subrange(pos + 84, pos + 84 + len));
            assert(hash@ =~= b.subrange(pos + 20, pos + 52));
        }
        let f = Fragment {
            id: get_u64(head.as_slice(), 4),
            sequence: get_u64(head.as_slice(), 12),
            hash,
            timestamp: get_u64(head.as_slice(), 52),
            data,
        };
        f.validate_hash()
    }

    /// Moves the fragment to its next sequence number and writes its record at the stream's
    /// cursor, with a freshly computed digest. Fails where the sequence is already `u64::MAX`.
    pub fn write(&mut self, source: &mut MemoryBacking) -> (r: Result<()>)
        ensures
            old(self).sequence == u64::MAX ==> r == Err::<(), Error>(Error::Io(IoErrorKind::OutOfSpace))
                && *final(self) == *old(self),
            old(self).sequence < u64::MAX ==> final(self).sequence == old(self).sequence + 1
                && final(self).id == old(self).id && final(self).data == old(self).data
                && final(self).timestamp == old(self).timestamp && final(self).hash@ == Seq::new(
                32,
                |i: int| 0u8,
            ) && ({
                let rec = record_bytes(
                    old(self).id,
                    (old(self).sequence + 1) as u64,
                    Seq::new(32, |i: int| 0u8),
                    old(self).timestamp,
                    old(self).data@,
                );
                if old(source).position() + rec.len() <= usize::MAX {
                    r is Ok && final(source).bytes() == overwrite(
                        old(source).bytes(),
                        old(source).position() as int,
                        rec,
                    )
                } else {
                    r == Err::<(), Error>(Error::Io(IoErrorKind::OutOfSpace))
                }
            }),
    {
        if self.sequence == u64::MAX {
            return Err(Error::Io(IoErrorKind::OutOfSpace));
        }
        self.sequence = self.sequence + 1;
        self.hash = self.compute_hash();
        let mut buf: Vec<u8> = Vec::new();
        buf.push(0x46u8);
        buf.push(0x52u8);
        buf.push(0x41u8);
        buf.push(0x47u8);
        put_u64(&mut buf, self.id);
        put_u64(&mut buf, self.sequence);
        let mut i: usize = 0;
        let ghost head = buf@;
        while i < 32
            invariant
                i <= 32,
                self.hash@ == Seq::new(32, |k: int| 0u8),
                buf@ == head + self.hash@.subrange(0, i as int),
            decreases 32 - i,
        {
            buf.push(self.hash[i]);
            i = i + 1;
            assert(buf@ =~= head + self.hash@.subrange(0, i as int));
        }
        assert(self.hash@.subrange(0, 32) =~= self.hash@);
        put_u64(&mut buf, self.timestamp);
        put_u64(&mut buf, self.data.len() as u64);
        put_u64(&mut buf, self.data.len() as u64);
        let ghost before_pad = buf@;
        let mut z: usize = 0;
        while z < 8
            invariant
                z <= 8,
                buf@ == before_pad + Seq::new(z as nat, |k: int| 0u8),
            decreases 8 - z,
        {
            buf.push(0u8);
            z = z + 1;
            assert(buf@ =~= before_pad + Seq::new(z as nat, |k: int| 0u8));
        }
        let mut j: usize = 0;
        let ghost mid = buf@;
        while j < self.data.len()
            invariant
                j <= self.data@.len(),
                buf@ == mid + self.data@.subrange(0, j as int),
            decreases self.data@.len() - j,
        {
            buf.push(self.data[j]);
            j = j + 1;
            assert(buf@ =~= mid + self.data@.subrange(0, j as int));
        }
        proof {
            assert(self.data@.subrange(0, j as int) =~= self.data@);
            assert(buf@ =~= record_bytes(self.id, self.sequence, self.hash@, self.timestamp, self.data@));
        }
        source.write_bytes(buf.as_slice())
    }
}

} // verus!
