//! The records of the container: header, fragment descriptor and table chunk.
use vstd::prelude::*;
use crate::codec::{get_u32, get_u64, le4, le4_value, le8, le8_value, put_u32, put_u64};
use crate::codec::{lemma_le4_round_trip, lemma_le8_round_trip};
use crate::backing::MemoryBacking;
use crate::error::{Error, FragmentError, Result};
use crate::{FragmentID, Pointer};

verus! {

/// Bytes of the container header on disk.
pub const HEADER_SIZE: u64 = 24;

/// Bytes of one descriptor on disk.
pub const DESCRIPTOR_SIZE: u64 = 32;

/// Bytes of a table chunk's own fields, before its descriptors.
pub const PART_HEADER_SIZE: u64 = 24;

/// A record that is read from, and written to, a backing stream at its cursor.
pub trait Storage: Sized {
    fn read(source: &mut MemoryBacking) -> Result<Self>;

    fn write(&mut self, source: &mut MemoryBacking) -> Result<()>;
}

/// A record whose fixed part has a known number of bytes on disk.
pub trait KnownSize {
    spec fn spec_size() -> nat;

    fn size() -> (r: u64)
        ensures
            r == Self::spec_size(),
    ;
}

impl KnownSize for FragmentDescriptor {
    open spec fn spec_size() -> nat {
        32
    }

    fn size() -> (r: u64) {
        DESCRIPTOR_SIZE
    }
}

impl KnownSize for Header {
    open spec fn spec_size() -> nat {
        24
    }

    fn size() -> (r: u64) {
        HEADER_SIZE
    }
}

impl KnownSize for FragmentTablePart {
    open spec fn spec_size() -> nat {
        24
    }

    fn size() -> (r: u64) {
        PART_HEADER_SIZE
    }
}

/// The magic word at offset 0 of a container: "RWFS".
pub open spec fn store_magic() -> Seq<u8> {
    seq![0x52u8, 0x57u8, 0x46u8, 0x53u8]
}

/// One version of one fragment: where its extent lies.
#[derive(Debug, Clone, Copy, PartialEq, Eq, Structural)]
pub struct FragmentDescriptor {
    pub id: FragmentID,
    pub sequence: u64,
    pub offset: Pointer,
    pub length: u64,
}

pub open spec fn descriptor_bytes(d: FragmentDescriptor) -> Seq<u8> {
    le8(d.id) + le8(d.sequence) + le8(d.offset) + le8(d.length)
}

/// The descriptor whose encoding starts at `at` in `b`.
pub open spec fn descriptor_at(b: Seq<u8>, at: int) -> FragmentDescriptor {
    FragmentDescriptor {
        id: le8_value(b.subrange(at, at + 8)),
        sequence: le8_value(b.subrange(at + 8, at + 16)),
        offset: le8_value(b.subrange(at + 16, at + 24)),
        length: le8_value(b.subrange(at + 24, at + 32)),
    }
}

pub proof fn lemma_descriptor_round_trip(d: FragmentDescriptor)
    ensures
        descriptor_bytes(d).len() == 32,
        descriptor_at(descriptor_bytes(d), 0) == d,
{
    let b = descriptor_bytes(d);
    lemma_le8_round_trip(d.id);
    lemma_le8_round_trip(d.sequence);
    lemma_le8_round_trip(d.offset);
    lemma_le8_round_trip(d.length);
    assert(b.subrange(0, 8) =~= le8(d.id));
    assert(b.subrange(8, 16) =~= le8(d.sequence));
    assert(b.subrange(16, 24) =~= le8(d.offset));
    assert(b.subrange(24, 32) =~= le8(d.length));
}

impl FragmentDescriptor {
    /// Appends the 32-byte encoding of this descriptor.
    pub fn encode_into(&self, buf: &mut Vec<u8>)
        ensures
            final(buf)@ == old(buf)@ + descriptor_bytes(*self),
    {
        put_u64(buf, self.id);
        put_u64(buf, self.sequence);
        put_u64(buf, self.offset);
        put_u64(buf, self.length);
        assert(buf@ =~= old(buf)@ + descriptor_bytes(*self));
    }

    /// Reads the descriptor encoded at `b[at..at + 32]`.
    pub fn decode(b: &[u8], at: usize) -> (r: FragmentDescriptor)
        requires
            at + 32 <= b@.len(),
        ensures
            r == descriptor_at(b@, at as int),
    {
        let n = b.len();
        assert(at + 32 <= n);
        FragmentDescriptor {
            id: get_u64(b, at),
            sequence: get_u64(b, at + 8),
            offset: get_u64(b, at + 16),
            length: get_u64(b, at + 24),
        }
    }
}

/// The fixed fields at the start of a container.
#[derive(Debug, Clone, Copy, PartialEq, Eq, Structural)]
pub struct Header {
    pub version: u32,
    pub root_fragment: FragmentID,
    pub fragment_table_offset: Pointer,
}

pub open spec fn header_bytes(h: Header) -> Seq<u8> {
    store_magic() + le4(h.version) + le8(h.root_fragment) + le8(h.fragment_table_offset)
}

/// What decoding the first bytes of `b` as a header gives.
pub open spec fn header_from(b: Seq<u8>) -> Result<Header> {
    if b.len() < 24 {
        Err(Error::Decode)
    } else if b.subrange(0, 4) != store_magic() {
        Err(Error::Fragment(FragmentError::InvalidMagic))
    } else {
        Ok(
            Header {
                version: le4_value(b.subrange(4, 8)),
                root_fragment: le8_value(b.subrange(8, 16)),
                fragment_table_offset: le8_value(b.subrange(16, 24)),
            },
        )
    }
}

pub proof fn lemma_header_round_trip(h: Header)
    ensures
        header_bytes(h).len() == 24,
        header_from(header_bytes(h)) == Ok::<Header, Error>(h),
{
    let b = header_bytes(h);
    lemma_le4_round_trip(h.version);
    lemma_le8_round_trip(h.root_fragment);
    lemma_le8_round_trip(h.fragment_table_offset);
    assert(b.subrange(0, 4) =~= store_magic());
    assert(b.subrange(4, 8) =~= le4(h.version));
    assert(b.subrange(8, 16) =~= le8(h.root_fragment));
    assert(b.subrange(16, 24) =~= le8(h.fragment_table_offset));
}

impl Header {
    pub fn encode(&self) -> (r: Vec<u8>)
        ensures
            r@ == header_bytes(*self),
    {
        let mut buf: Vec<u8> = Vec::new();
        buf.push(0x52u8);
        buf.push(0x57u8);
        buf.push(0x46u8);
        buf.push(0x53u8);
        put_u32(&mut buf, self.version);
        put_u64(&mut buf, self.root_fragment);
        put_u64(&mut buf, self.fragment_table_offset);
        assert(buf@ =~= header_bytes(*self));
        buf
    }

    pub fn decode(b: &[u8]) -> (r: Result<Header>)
        ensures
            r == header_from(b@),
    {
        if b.len() < 24 {
            return Err(Error::Decode);
        }
        let magic_ok = b[0] == 0x52u8 && b[1] == 0x57u8 && b[2] == 0x46u8 && b[3] == 0x53u8;
        if !magic_ok {
            assert(b@.subrange(0, 4) != store_magic()) by {
                if b@.subrange(0, 4) == store_magic() {
                    assert(b@.subrange(0, 4)[0] == b@[0]);
                    assert(b@.subrange(0, 4)[1] == b@[1]);
                    assert(b@.subrange(0, 4)[2] == b@[2]);
                    assert(b@.subrange(0, 4)[3] == b@[3]);
                }
            }
            return Err(Error::Fragment(FragmentError::InvalidMagic));
        }
        assert(b@.subrange(0, 4) =~= store_magic());
        Ok(
            Header {
                version: get_u32(b, 4),
                root_fragment: get_u64(b, 8),
                fragment_table_offset: get_u64(b, 16),
            },
        )
    }
}

/// One chunk of the fragment table, held in memory.
///
/// `offset` is where the chunk lives in the backing stream; it is not part of the chunk's
/// encoding, which is its continuation, capacity and length followed by its descriptors.
#[derive(Debug)]
pub struct FragmentTablePart {
    pub offset: Pointer,
    pub continuation: Pointer,
    pub capacity: u64,
    pub fragments: Vec<FragmentDescriptor>,
}

/// The encodings of `s`, one after another.
pub open spec fn descriptors_bytes(s: Seq<FragmentDescriptor>) -> Seq<u8>
    decreases s.len(),
{
    if s.len() == 0 {
        Seq::empty()
    } else {
        descriptors_bytes(s.drop_last()) + descriptor_bytes(s.last())
    }
}

pub open spec fn part_bytes(continuation: u64, capacity: u64, s: Seq<FragmentDescriptor>) -> Seq<
    u8,
> {
    le8(continuation) + le8(capacity) + le8(s.len() as u64) + descriptors_bytes(s)
}

impl FragmentTablePart {
    pub open spec fn wf(&self) -> bool {
        &&& self.fragments@.len() <= self.capacity
        &&& PART_HEADER_SIZE + DESCRIPTOR_SIZE * self.capacity <= u64::MAX
    }

    /// Bytes that the chunk's extent must hold.
    pub open spec fn extent_size(&self) -> int {
        PART_HEADER_SIZE + DESCRIPTOR_SIZE * self.capacity
    }

    pub fn len(&self) -> (r: usize)
        ensures
            r == self.fragments@.len(),
    {
        self.fragments.len()
    }

    pub fn cap(&self) -> (r: u64)
        ensures
            r == self.capacity,
    {
        self.capacity
    }

    /// The chunk's encoding: its three fields, then every descriptor.
    pub fn encode(&self) -> (r: Vec<u8>)
        ensures
            r@ == part_bytes(self.continuation, self.capacity, self.fragments@),
    {
        let mut buf: Vec<u8> = Vec::new();
        put_u64(&mut buf, self.continuation);
        put_u64(&mut buf, self.capacity);
        put_u64(&mut buf, self.fragments.len() as u64);
        let ghost head = buf@;
        let mut i: usize = 0;
        while i < self.fragments.len()
            invariant
                i <= self.fragments@.len(),
                buf@ == head + descriptors_bytes(self.fragments@.subrange(0, i as int)),
            decreases self.fragments@.len() - i,
        {
            self.fragments[i].encode_into(&mut buf);
            i = i + 1;
            assert(self.fragments@.subrange(0, i as int).drop_last() =~= self.fragments@.subrange(
                0,
                i - 1,
            ));
            assert(buf@ =~= head + descriptors_bytes(self.fragments@.subrange(0, i as int)));
        }
        assert(self.fragments@.subrange(0, i as int) =~= self.fragments@);
        buf
    }
}

} // verus!
