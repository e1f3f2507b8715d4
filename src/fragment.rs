//! Handles over single fragments: read-only, fixed-extent and growable.
use vstd::prelude::*;
use crate::backing::{available, overwrite, MemoryBacking};
use crate::error::{Error, IoErrorKind, Result};
use crate::index::{admits, aligned, growth_margin, allocation, allocation_fails, extent_admitted, round_up, round_up_to_page, FreeExtent};
use crate::persist::image_of;
use crate::table::FragmentDescriptor;
use crate::store::RWFragmentStore;
use crate::{FragmentID, Pointer, PAGE_SIZE};

verus! {

/// Whether a new fragment has a known size.
#[derive(Debug, Clone, Copy, PartialEq, Eq, Structural)]
pub enum SizeHint {
    Sized(u64),
    Growable,
}

/// How `new_fragment` places a fragment, and under which id.
#[derive(Debug, Clone, Copy, PartialEq, Eq, Structural)]
pub struct AllocOptions {
    pub size_hint: SizeHint,
    pub fragment: Option<FragmentID>,
}

impl AllocOptions {
    /// Growable, with a freshly minted id.
    pub fn new() -> (r: AllocOptions)
        ensures
            r == (AllocOptions { size_hint: SizeHint::Growable, fragment: None }),
    {
        AllocOptions { size_hint: SizeHint::Growable, fragment: None }
    }

    pub fn size_hint(self, size: u64) -> (r: AllocOptions)
        ensures
            r == (AllocOptions { size_hint: SizeHint::Sized(size), ..self }),
    {
        AllocOptions { size_hint: SizeHint::Sized(size), ..self }
    }

    pub fn growable(self) -> (r: AllocOptions)
        ensures
            r == (AllocOptions { size_hint: SizeHint::Growable, ..self }),
    {
        AllocOptions { size_hint: SizeHint::Growable, ..self }
    }

    pub fn fragment(self, fragment: FragmentID) -> (r: AllocOptions)
        ensures
            r == (AllocOptions { fragment: Some(fragment), ..self }),
    {
        AllocOptions { fragment: Some(fragment), ..self }
    }
}

impl Default for AllocOptions {
    fn default() -> (r: AllocOptions)
        ensures
            r == (AllocOptions { size_hint: SizeHint::Growable, fragment: None }),
    {
        AllocOptions::new()
    }
}

/// A fixed extent of the backing stream and a cursor within it.
#[derive(Debug, Clone, Copy, PartialEq, Eq, Structural)]
pub struct SizedFragment {
    pub cursor: u64,
    pub ptr: Pointer,
    pub size: u64,
    pub max_size: Option<u64>,
}

impl SizedFragment {
    /// Moves the cursor to the target of `pos`, which must lie between 0 and the bound.
    pub fn seek(&mut self, pos: SeekFrom) -> (r: Result<u64>)
        requires
            old(self).wf(),
        ensures
            match seek_target(pos, old(self).cursor as int, old(self).bound() as int) {
                Some(t) if 0 <= t <= old(self).bound() => r == Ok::<u64, Error>(t as u64)
                    && *final(self) == (SizedFragment { cursor: t as u64, ..*old(self) }),
                _ => r == Err::<u64, Error>(Error::Io(IoErrorKind::InvalidInput)) && *final(self)
                    == *old(self),
            },
            final(self).wf(),
    {
        let bound = match self.max_size {
            Some(m) => m,
            None => self.size,
        };
        match compute_seek_target(pos, self.cursor, bound) {
            Some(t) => {
                if t < 0 || t as u64 > bound {
                    Err(Error::Io(IoErrorKind::InvalidInput))
                } else {
                    self.cursor = t as u64;
                    Ok(t as u64)
                }
            },
            None => Err(Error::Io(IoErrorKind::InvalidInput)),
        }
    }

    /// Reads at most `n` bytes at the cursor, never past the bound. The backing stream's own
    /// cursor is restored.
    pub fn read_from(&mut self, backing: &mut MemoryBacking, n: usize) -> (r: Vec<u8>)
        requires
            old(self).wf(),
        ensures
            r@ == available(
                old(backing).bytes(),
                old(self).ptr + old(self).cursor,
                if n <= old(self).bound() - old(self).cursor {
                    n as int
                } else {
                    old(self).bound() - old(self).cursor
                },
            ),
            final(backing).bytes() == old(backing).bytes(),
            final(backing).position() == old(backing).position(),
            *final(self) == (SizedFragment { cursor: (old(self).cursor + r@.len()) as u64, ..*old(self) }),
            final(self).wf(),
    {
        let room = match self.max_size {
            Some(m) => m,
            None => self.size,
        } - self.cursor;
        let k: usize = if n as u64 <= room {
            n
        } else {
            room as usize
        };
        let start = backing.stream_position();
        backing.seek_to(self.ptr + self.cursor);
        let data = backing.read_bytes(k);
        backing.seek_to(start);
        self.cursor = self.cursor + data.len() as u64;
        data
    }

    /// Writes as much of `buf` at the cursor as the bound leaves room for; returns how much.
    /// The backing stream's own cursor is restored.
    pub fn write_into(&mut self, backing: &mut MemoryBacking, buf: &[u8]) -> (r: Result<usize>)
        requires
            old(self).wf(),
        ensures
            final(self).wf(),
            ({
                let room = old(self).bound() - old(self).cursor;
                let k = if buf@.len() <= room {
                    buf@.len() as int
                } else {
                    room as int
                };
                let at = old(self).ptr + old(self).cursor;
                if at + k <= usize::MAX {
                    &&& r == Ok::<usize, Error>(k as usize)
                    &&& final(backing).bytes() == overwrite(old(backing).bytes(), at, buf@.subrange(0, k))
                    &&& final(backing).position() == old(backing).position()
                    &&& *final(self) == (SizedFragment { cursor: (old(self).cursor + k) as u64, ..*old(self) })
                } else {
                    &&& r == Err::<usize, Error>(Error::Io(IoErrorKind::OutOfSpace))
                    &&& final(backing).bytes() == old(backing).bytes()
                    &&& final(backing).position() == old(backing).position()
                    &&& *final(self) == *old(self)
                }
            }),
    {
        let room = match self.max_size {
            Some(m) => m,
            None => self.size,
        } - self.cursor;
        let k: usize = if buf.len() as u64 <= room {
            buf.len()
        } else {
            room as usize
        };
        let data = prefix(buf, k);
        let start = backing.stream_position();
        backing.seek_to(self.ptr + self.cursor);
        let w = backing.write_bytes(data.as_slice());
        backing.seek_to(start);
        match w {
            Ok(()) => {
                self.cursor = self.cursor + k as u64;
                Ok(k)
            },
            Err(e) => Err(e),
        }
    }

    /// How far the cursor may go.
    pub open spec fn bound(&self) -> u64 {
        match self.max_size {
            Some(m) => m,
            None => self.size,
        }
    }

    pub open spec fn wf(&self) -> bool {
        &&& self.cursor <= self.bound()
        &&& self.ptr + self.bound() <= u64::MAX
    }
}

/// Where a growable fragment's bytes are: still in memory, or streamed to an extent that
/// starts at a pointer and has a running length.
#[derive(Debug)]
pub enum InlineBuffer {
    Buffered(MemoryBacking),
    WriteThrough(Pointer, u64),
}

#[derive(Debug)]
pub struct DynamicFragment {
    pub buffer_threshold: u64,
    pub buffer: InlineBuffer,
}

#[derive(Debug)]
pub enum FragmentType {
    ReadOnly(SizedFragment),
    Sized(SizedFragment),
    Dynamic(DynamicFragment),
}

/// An open fragment: its mode, its id, and the sequence number that closing it records.
#[derive(Debug)]
pub struct FragmentHandle {
    pub fragment_type: FragmentType,
    pub id: FragmentID,
    pub sequence: u64,
}


impl FragmentHandle {
    pub open spec fn wf(&self) -> bool {
        match self.fragment_type {
            FragmentType::ReadOnly(f) => f.wf(),
            FragmentType::Sized(f) => f.wf(),
            FragmentType::Dynamic(d) => true,
        }
    }
}


/// Where a seek goes: from the start, from the end, or from the cursor.
#[derive(Debug, Clone, Copy, PartialEq, Eq, Structural)]
pub enum SeekFrom {
    Start(u64),
    End(i64),
    Current(i64),
}

/// The target of `pos` from `cursor` in a span that ends at `end`, in signed 64-bit
/// arithmetic; `None` where that arithmetic overflows.
pub open spec fn seek_target(pos: SeekFrom, cursor: int, end: int) -> Option<int> {
    match pos {
        SeekFrom::Start(o) => if o <= i64::MAX {
            Some(o as int)
        } else {
            None
        },
        SeekFrom::End(o) => if end > i64::MAX || end + o < i64::MIN || end + o > i64::MAX {
            None
        } else {
            Some(end + o)
        },
        SeekFrom::Current(o) => if cursor > i64::MAX || cursor + o < i64::MIN || cursor + o
            > i64::MAX {
            None
        } else {
            Some(cursor + o)
        },
    }
}

pub fn compute_seek_target(pos: SeekFrom, cursor: u64, end: u64) -> (r: Option<i64>)
    ensures
        r matches Some(t) ==> seek_target(pos, cursor as int, end as int) == Some(t as int),
        r is None ==> seek_target(pos, cursor as int, end as int) is None,
{
    match pos {
        SeekFrom::Start(o) => if o <= i64::MAX as u64 {
            Some(o as i64)
        } else {
            None
        },
        SeekFrom::End(o) => {
            if end > i64::MAX as u64 {
                return None;
            }
            let t = end as i128 + o as i128;
            if t < i64::MIN as i128 || t > i64::MAX as i128 {
                None
            } else {
                Some(t as i64)
            }
        },
        SeekFrom::Current(o) => {
            if cursor > i64::MAX as u64 {
                return None;
            }
            let t = cursor as i128 + o as i128;
            if t < i64::MIN as i128 || t > i64::MAX as i128 {
                None
            } else {
                Some(t as i64)
            }
        },
    }
}

/// The first `n` bytes of `buf`.
pub(crate) fn prefix(buf: &[u8], n: usize) -> (r: Vec<u8>)
    requires
        n <= buf@.len(),
    ensures
        r@ == buf@.subrange(0, n as int),
{
    let mut out: Vec<u8> = Vec::new();
    let mut i: usize = 0;
    while i < n
        invariant
            i <= n <= buf@.len(),
            out@ == buf@.subrange(0, i as int),
        decreases n - i,
    {
        out.push(buf[i]);
        i = i + 1;
        assert(out@ =~= buf@.subrange(0, i as int));
    }
    out
}

impl FragmentHandle {
    /// Bytes held: the extent's length, what is buffered, or what was streamed.
    pub fn size(&self) -> (r: u64)
        ensures
            match self.fragment_type {
                FragmentType::ReadOnly(f) => r == f.size,
                FragmentType::Sized(f) => r == f.size,
                FragmentType::Dynamic(d) => match d.buffer {
                    InlineBuffer::Buffered(b) => r == b.bytes().len(),
                    InlineBuffer::WriteThrough(_, len) => r == len,
                },
            },
    {
        match &self.fragment_type {
            FragmentType::ReadOnly(f) => f.size,
            FragmentType::Sized(f) => f.size,
            FragmentType::Dynamic(d) => match &d.buffer {
                InlineBuffer::Buffered(b) => b.len() as u64,
                InlineBuffer::WriteThrough(_, len) => *len,
            },
        }
    }

    /// The cursor's place within the fragment.
    pub fn stream_position(&self) -> (r: u64)
        ensures
            match self.fragment_type {
                FragmentType::ReadOnly(f) => r == f.cursor,
                FragmentType::Sized(f) => r == f.cursor,
                FragmentType::Dynamic(d) => match d.buffer {
                    InlineBuffer::Buffered(b) => r == b.position(),
                    InlineBuffer::WriteThrough(_, len) => r == len,
                },
            },
    {
        match &self.fragment_type {
            FragmentType::ReadOnly(f) => f.cursor,
            FragmentType::Sized(f) => f.cursor,
            FragmentType::Dynamic(d) => match &d.buffer {
                InlineBuffer::Buffered(b) => b.stream_position(),
                InlineBuffer::WriteThrough(_, len) => *len,
            },
        }
    }

    /// Moves the cursor. A fixed extent accepts targets from 0 to its bound, the cap where
    /// there is one and else its length; a buffer accepts any target from 0 on; a streamed
    /// fragment only its own end. Every other target fails with `InvalidInput`. The backing
    /// stream is not touched.
    pub fn seek(&mut self, pos: SeekFrom) -> (r: Result<u64>)
        requires
            old(self).wf(),
        ensures
            final(self).wf(),
            final(self).id == old(self).id,
            final(self).sequence == old(self).sequence,
            match old(self).fragment_type {
                FragmentType::ReadOnly(f) => match seek_target(pos, f.cursor as int, f.bound() as int) {
                    Some(t) if 0 <= t <= f.bound() => r == Ok::<u64, Error>(t as u64)
                        && final(self).fragment_type == FragmentType::ReadOnly(SizedFragment { cursor: t as u64, ..f }),
                    _ => r == Err::<u64, Error>(Error::Io(IoErrorKind::InvalidInput))
                        && final(self).fragment_type == old(self).fragment_type,
                },
                FragmentType::Sized(f) => match seek_target(pos, f.cursor as int, f.bound() as int) {
                    Some(t) if 0 <= t <= f.bound() => r == Ok::<u64, Error>(t as u64)
                        && final(self).fragment_type == FragmentType::Sized(SizedFragment { cursor: t as u64, ..f }),
                    _ => r == Err::<u64, Error>(Error::Io(IoErrorKind::InvalidInput))
                        && final(self).fragment_type == old(self).fragment_type,
                },
                FragmentType::Dynamic(d) => match d.buffer {
                    InlineBuffer::Buffered(b) => match seek_target(pos, b.position() as int, b.bytes().len() as int) {
                        Some(t) if 0 <= t => r == Ok::<u64, Error>(t as u64)
                            && (final(self).fragment_type matches FragmentType::Dynamic(d2)
                            && d2.buffer_threshold == d.buffer_threshold
                            && (d2.buffer matches InlineBuffer::Buffered(b2)
                            && b2.bytes() == b.bytes() && b2.position() == t)),
                        _ => r == Err::<u64, Error>(Error::Io(IoErrorKind::InvalidInput))
                            && final(self).fragment_type == old(self).fragment_type,
                    },
                    InlineBuffer::WriteThrough(_, len) => final(self).fragment_type == old(self).fragment_type
                        && if seek_target(pos, len as int, len as int) == Some(len as int) {
                        r == Ok::<u64, Error>(len)
                    } else {
                        r == Err::<u64, Error>(Error::Io(IoErrorKind::InvalidInput))
                    },
                },
            },
    {
        match &mut self.fragment_type {
            FragmentType::ReadOnly(f) => f.seek(pos),
            FragmentType::Sized(f) => f.seek(pos),
            FragmentType::Dynamic(d) => match &mut d.buffer {
                InlineBuffer::Buffered(b) => {
                    let len = b.len() as u64;
                    match compute_seek_target(pos, b.stream_position(), len) {
                        Some(t) => {
                            if t < 0 {
                                Err(Error::Io(IoErrorKind::InvalidInput))
                            } else {
                                b.seek_to(t as u64);
                                Ok(t as u64)
                            }
                        },
                        None => Err(Error::Io(IoErrorKind::InvalidInput)),
                    }
                },
                InlineBuffer::WriteThrough(_, len) => {
                    let at = *len;
                    match compute_seek_target(pos, at, at) {
                        Some(t) => {
                            if t >= 0 && t as u64 == at {
                                Ok(at)
                            } else {
                                Err(Error::Io(IoErrorKind::InvalidInput))
                            }
                        },
                        None => Err(Error::Io(IoErrorKind::InvalidInput)),
                    }
                },
            },
        }
    }
}


/// What a read-only handle over `f` asks of the allocator when it is first written.
pub open spec fn cow_request(f: SizedFragment) -> u64 {
    if f.size == 0 {
        1
    } else {
        f.size
    }
}

pub open spec fn at_most(c: int, m: int) -> int {
    if c <= m {
        c
    } else {
        m
    }
}

/// A write of `buf` through a growable handle `d` over store `s0`, leaving `h1` and `s1`; `ok`
/// tells whether it succeeded. Past the threshold the buffered bytes and then `buf` go to the
/// end watermark and the handle streams from there; below it `buf` lands in the buffer.
pub open spec fn dynamic_write_effect(
    d: DynamicFragment,
    s0: RWFragmentStore,
    buf: Seq<u8>,
    ok: bool,
    h1: FragmentHandle,
    s1: RWFragmentStore,
) -> bool {
    match d.buffer {
        InlineBuffer::Buffered(b) => if b.bytes().len() + buf.len() > d.buffer_threshold {
            let p = s0.header.end;
            let stop = p + b.bytes().len() + buf.len();
            &&& ok <==> (stop <= u64::MAX - PAGE_SIZE && stop <= usize::MAX)
            &&& ok ==> (h1.fragment_type matches FragmentType::Dynamic(d2)
                && d2.buffer_threshold == d.buffer_threshold
                && d2.buffer == InlineBuffer::WriteThrough(p, (b.bytes().len() + buf.len()) as u64)
                && s1.backing.bytes() == overwrite(
                    overwrite(s0.backing.bytes(), p as int, b.bytes()),
                    p + b.bytes().len(),
                    buf,
                ) && s1.header.end == round_up(stop)
                && extent_admitted(s1.header, p, round_up((b.bytes().len() + buf.len()) as int) as u64))
        } else {
            &&& ok <==> b.position() + buf.len() <= usize::MAX
            &&& ok ==> (s1 == s0 && (h1.fragment_type matches FragmentType::Dynamic(d2)
                && d2.buffer_threshold == d.buffer_threshold
                && (d2.buffer matches InlineBuffer::Buffered(b2)
                && b2.bytes() == overwrite(b.bytes(), b.position() as int, buf)
                && b2.position() == b.position() + buf.len())))
        },
        InlineBuffer::WriteThrough(p, n) => {
            let stop = p + n + buf.len();
            &&& ok <==> (stop <= u64::MAX - PAGE_SIZE && stop <= usize::MAX)
            &&& ok ==> (h1.fragment_type matches FragmentType::Dynamic(d2)
                && d2.buffer_threshold == d.buffer_threshold
                && d2.buffer == InlineBuffer::WriteThrough(p, (n + buf.len()) as u64)
                && s1.backing.bytes() == overwrite(s0.backing.bytes(), p + n, buf)
                && s1.header.end >= round_up(stop))
            &&& ok && n > 0 && extent_admitted(s0.header, p, round_up(n as int) as u64) && s0.header.end
                == round_up(p + n) ==> extent_admitted(s1.header, p, round_up(n + buf.len()) as u64)
                && s1.header.end == round_up(stop)
        },
    }
}

/// A first write of `buf` through a read-only handle over `f` (fragment `id`) on store `s0`,
/// which took `n` bytes and left `h1` and `s1`: a fresh extent from the allocator, at least as
/// long as the old one and apart from every descriptor, got a copy of the old extent's bytes;
/// the cursor kept its place; `buf` landed there as far as the extent reaches; the handle is
/// now fixed, with the next sequence of `id`.
pub open spec fn readonly_write_effect(
    f: SizedFragment,
    id: FragmentID,
    s0: RWFragmentStore,
    buf: Seq<u8>,
    n: int,
    h1: FragmentHandle,
    s1: RWFragmentStore,
) -> bool {
    let t = s0.header.table();
    h1.fragment_type matches FragmentType::Sized(g) && {
        let c = at_most(f.cursor as int, g.size as int);
        let k = at_most(buf.len() as int, g.size - c);
        &&& allocation(s0.header, cow_request(f), Ok((g.ptr, g.size)), s1.header.free_space@, s1.header.end)
        &&& g.size >= f.size
        &&& g.max_size == Some(g.size)
        &&& g.cursor == c + k
        &&& n == k
        &&& extent_admitted(s1.header, g.ptr, g.size)
        &&& forall|i: int| 0 <= i < t.len() ==> #[trigger] t[i].offset + t[i].length <= g.ptr
            || g.ptr + g.size <= t[i].offset
        &&& s1.backing.bytes() == overwrite(
            overwrite(s0.backing.bytes(), g.ptr as int, available(s0.backing.bytes(), f.ptr as int, f.size as int)),
            g.ptr + c,
            buf.subrange(0, k),
        )
        &&& s1.backing.position() == s0.backing.position()
        &&& h1.sequence > 0
        &&& crate::store::is_max_sequence(t, id, (h1.sequence - 1) as u64)
    }
}

/// Copy-on-write of a read-only handle over `f` (fragment `id`) on store `s0`, leaving `h1` and
/// `s1`: a fresh extent from the allocator, at least as long as the old one and apart from
/// every descriptor, holds a copy of the old extent's bytes; the cursor keeps its place; the
/// handle is now fixed, with the next sequence of `id`.
pub open spec fn cow_effect(f: SizedFragment, id: FragmentID, s0: RWFragmentStore, h1: FragmentHandle, s1: RWFragmentStore) -> bool {
    let t = s0.header.table();
    h1.fragment_type matches FragmentType::Sized(g) && {
        &&& allocation(s0.header, cow_request(f), Ok((g.ptr, g.size)), s1.header.free_space@, s1.header.end)
        &&& g.size >= f.size
        &&& g.max_size == Some(g.size)
        &&& g.cursor == at_most(f.cursor as int, g.size as int)
        &&& extent_admitted(s1.header, g.ptr, g.size)
        &&& forall|i: int| 0 <= i < t.len() ==> #[trigger] t[i].offset + t[i].length <= g.ptr
            || g.ptr + g.size <= t[i].offset
        &&& s1.backing.bytes() == overwrite(
            s0.backing.bytes(),
            g.ptr as int,
            available(s0.backing.bytes(), f.ptr as int, f.size as int),
        )
        &&& s1.backing.position() == s0.backing.position()
        &&& h1.sequence > 0
        &&& crate::store::is_max_sequence(t, id, (h1.sequence - 1) as u64)
        &&& s1.header.fragment_table_parts@ == s0.header.fragment_table_parts@
    }
}

/// A first write through a read-only handle over `f` (fragment `id`) on `s0` is owed success:
/// a next sequence exists, the allocator can grant the copy's extent, and memory addresses it.
pub open spec fn readonly_write_possible(f: SizedFragment, id: FragmentID, s0: RWFragmentStore) -> bool {
    &&& !crate::store::is_max_sequence(s0.header.table(), id, u64::MAX)
    &&& !allocation_fails(s0.header, cow_request(f))
    &&& s0.header.end + f.size + 0x1000 <= usize::MAX
}

/// What a buffered handle of `len` bytes asks of the allocator on closing: its length, and at
/// least one byte so that it gets a page.
pub open spec fn closing_request(len: nat) -> u64 {
    if len == 0 {
        1
    } else {
        len as u64
    }
}

/// Writes `data` then `incoming` at the end watermark of `store` and moves the watermark past
/// them; returns where they start.
#[verifier::rlimit(60)]
fn promote(store: &mut RWFragmentStore, data: &Vec<u8>, incoming: &[u8]) -> (r: Result<Pointer>)
    requires
        old(store).wf(),
    ensures
        final(store).wf(),
        final(store).header.fragment_table_parts@ == old(store).header.fragment_table_parts@,
        final(store).header.free_space@ == old(store).header.free_space@,
        r matches Ok(p) ==> p == old(store).header.end && final(store).backing.bytes() == overwrite(
            overwrite(old(store).backing.bytes(), p as int, data@),
            p + data@.len(),
            incoming@,
        ) && final(store).header.end == round_up(p + data@.len() + incoming@.len()),
        r is Err ==> r == Err::<Pointer, Error>(Error::Io(IoErrorKind::OutOfSpace)),
        r is Ok <==> ({
            let stop = old(store).header.end + data@.len() + incoming@.len();
            stop <= u64::MAX - PAGE_SIZE && stop <= usize::MAX
        }),
        data@.len() + incoming@.len() > 0 ==> (r matches Ok(p) ==> extent_admitted(
            final(store).header,
            p,
            round_up((data@.len() + incoming@.len()) as int) as u64,
        )),
{
    let ptr = store.header.end;
    if ptr > u64::MAX - PAGE_SIZE || data.len() as u64 > u64::MAX - PAGE_SIZE - ptr || incoming.len() as u64 > u64::MAX
        - PAGE_SIZE - ptr - data.len() as u64 {
        return Err(Error::Io(IoErrorKind::OutOfSpace));
    }
    let stop = ptr + data.len() as u64 + incoming.len() as u64;
    store.backing.seek_to(ptr);
    store.backing.write_bytes(data.as_slice())?;
    store.backing.write_bytes(incoming)?;
    let e = match round_up_to_page(stop) {
        Some(e) => e,
        None => {
            return Err(Error::Io(IoErrorKind::OutOfSpace));
        },
    };
    let ghost before = store.header;
    store.header.raise_end(e);
    proof {
        let n = (data@.len() + incoming@.len()) as int;
        if n > 0 {
            assert(ptr + round_up(n) == round_up(ptr + n));
            crate::index::lemma_admitted_past_end(before, store.header, ptr, round_up(n) as u64);
        }
    }
    Ok(ptr)
}

/// Appends `incoming` to a streamed extent that starts at `ptr` and holds `len` bytes, and
/// keeps the end watermark past it; returns the new length.
#[verifier::rlimit(60)]
fn stream(store: &mut RWFragmentStore, ptr: Pointer, len: u64, incoming: &[u8]) -> (r: Result<u64>)
    requires
        old(store).wf(),
    ensures
        final(store).wf(),
        final(store).header.fragment_table_parts@ == old(store).header.fragment_table_parts@,
        final(store).header.free_space@ == old(store).header.free_space@,
        r matches Ok(n) ==> n == len + incoming@.len() && final(store).backing.bytes() == overwrite(
            old(store).backing.bytes(),
            ptr + len,
            incoming@,
        ) && final(store).header.end >= round_up(ptr + n),
        r is Err ==> r == Err::<u64, Error>(Error::Io(IoErrorKind::OutOfSpace)),
        r is Ok <==> ({
            let stop = ptr + len + incoming@.len();
            stop <= u64::MAX - PAGE_SIZE && stop <= usize::MAX
        }),
        len > 0 && extent_admitted(old(store).header, ptr, round_up(len as int) as u64)
            && old(store).header.end == round_up(ptr + len) ==> (r matches Ok(n) ==> extent_admitted(
            final(store).header,
            ptr,
            round_up(n as int) as u64,
        ) && final(store).header.end == round_up(ptr + n)),
{
    if ptr > u64::MAX - PAGE_SIZE || len > u64::MAX - PAGE_SIZE - ptr || incoming.len() as u64 > u64::MAX - PAGE_SIZE - ptr - len {
        return Err(Error::Io(IoErrorKind::OutOfSpace));
    }
    let n = len + incoming.len() as u64;
    store.backing.seek_to(ptr + len);
    store.backing.write_bytes(incoming)?;
    let e = match round_up_to_page(ptr + n) {
        Some(e) => e,
        None => {
            return Err(Error::Io(IoErrorKind::OutOfSpace));
        },
    };
    let ghost before = store.header;
    store.header.raise_end(e);
    proof {
        if len > 0 && extent_admitted(before, ptr, round_up(len as int) as u64) && before.end == round_up(ptr + len) {
            assert(crate::index::extent_ok(FragmentDescriptor { id: 0, sequence: 0, offset: ptr, length: round_up(len as int) as u64 }));
            assert(aligned(ptr as int));
            assert(ptr + round_up(len as int) == round_up(ptr + len));
            assert(ptr + round_up(n as int) == round_up(ptr + n));
            crate::index::lemma_admitted_extend(before, store.header, ptr, round_up(len as int) as u64, round_up(n as int) as u64);
        }
    }
    Ok(n)
}

impl FragmentHandle {
    /// Reads at most `n` bytes at the cursor. A fixed extent never reads past its bound, and
    /// restores the backing stream's cursor. A streamed fragment cannot be read.
    pub fn read(&mut self, store: &mut RWFragmentStore, n: usize) -> (r: Result<Vec<u8>>)
        requires
            old(self).wf(),
        ensures
            final(self).wf(),
            final(self).id == old(self).id,
            final(self).sequence == old(self).sequence,
            final(store).header == old(store).header,
            final(store).backing.bytes() == old(store).backing.bytes(),
            final(store).backing.position() == old(store).backing.position(),
            match old(self).fragment_type {
                FragmentType::ReadOnly(f) => r matches Ok(v) && v@ == available(
                    old(store).backing.bytes(),
                    f.ptr + f.cursor,
                    if n <= f.bound() - f.cursor { n as int } else { f.bound() - f.cursor },
                ) && final(self).fragment_type == FragmentType::ReadOnly(
                    SizedFragment { cursor: (f.cursor + v@.len()) as u64, ..f },
                ),
                FragmentType::Sized(f) => r matches Ok(v) && v@ == available(
                    old(store).backing.bytes(),
                    f.ptr + f.cursor,
                    if n <= f.bound() - f.cursor { n as int } else { f.bound() - f.cursor },
                ) && final(self).fragment_type == FragmentType::Sized(
                    SizedFragment { cursor: (f.cursor + v@.len()) as u64, ..f },
                ),
                FragmentType::Dynamic(d) => match d.buffer {
                    InlineBuffer::Buffered(b) => r matches Ok(v) && v@ == available(
                        b.bytes(),
                        b.position() as int,
                        n as int,
                    ) && (final(self).fragment_type matches FragmentType::Dynamic(d2)
                        && d2.buffer_threshold == d.buffer_threshold
                        && (d2.buffer matches InlineBuffer::Buffered(b2) && b2.bytes() == b.bytes()
                        && b2.position() == b.position() + v@.len())),
                    InlineBuffer::WriteThrough(..) => r == Err::<Vec<u8>, Error>(
                        Error::Io(IoErrorKind::Unsupported),
                    ) && final(self).fragment_type == old(self).fragment_type,
                },
            },
    {
        match &mut self.fragment_type {
            FragmentType::ReadOnly(f) => Ok(f.read_from(&mut store.backing, n)),
            FragmentType::Sized(f) => Ok(f.read_from(&mut store.backing, n)),
            FragmentType::Dynamic(d) => match &mut d.buffer {
                InlineBuffer::Buffered(b) => Ok(b.read_bytes(n)),
                InlineBuffer::WriteThrough(..) => Err(Error::Io(IoErrorKind::Unsupported)),
            },
        }
    }

    /// Reads everything from the cursor to the bound of a fixed extent, or to the end of a
    /// buffer.
    pub fn read_to_end(&mut self, store: &mut RWFragmentStore) -> (r: Result<Vec<u8>>)
        requires
            old(self).wf(),
        ensures
            final(self).wf(),
            final(store).header == old(store).header,
            final(store).backing.bytes() == old(store).backing.bytes(),
            final(store).backing.position() == old(store).backing.position(),
            match old(self).fragment_type {
                FragmentType::ReadOnly(f) => f.bound() - f.cursor <= usize::MAX ==> (r matches Ok(v)
                    && v@ == available(old(store).backing.bytes(), f.ptr + f.cursor, f.bound() - f.cursor)),
                FragmentType::Sized(f) => f.bound() - f.cursor <= usize::MAX ==> (r matches Ok(v)
                    && v@ == available(old(store).backing.bytes(), f.ptr + f.cursor, f.bound() - f.cursor)),
                FragmentType::Dynamic(d) => match d.buffer {
                    InlineBuffer::Buffered(b) => r matches Ok(v) && v@ == available(
                        b.bytes(),
                        b.position() as int,
                        b.bytes().len() as int,
                    ),
                    InlineBuffer::WriteThrough(..) => r == Err::<Vec<u8>, Error>(
                        Error::Io(IoErrorKind::Unsupported),
                    ),
                },
            },
    {
        let n: usize = match &self.fragment_type {
            FragmentType::ReadOnly(f) | FragmentType::Sized(f) => {
                let room = match f.max_size {
                    Some(m) => m,
                    None => f.size,
                } - f.cursor;
                if room > usize::MAX as u64 {
                    return Err(Error::Io(IoErrorKind::OutOfSpace));
                }
                room as usize
            },
            FragmentType::Dynamic(d) => match &d.buffer {
                InlineBuffer::Buffered(b) => b.len(),
                InlineBuffer::WriteThrough(..) => 0,
            },
        };
        self.read(store, n)
    }

    /// Turns a read-only handle into a fixed one over a fresh extent that holds a copy of the
    /// old extent's bytes, recorded on close as the next version of the fragment.
    #[verifier::rlimit(60)]
    fn copy_on_write(&mut self, store: &mut RWFragmentStore, f: SizedFragment) -> (r: Result<()>)
        requires
            old(store).wf(),
            old(self).fragment_type == FragmentType::ReadOnly(f),
            f.wf(),
        ensures
            final(store).wf(),
            final(store).header.table() == old(store).header.table(),
            final(self).id == old(self).id,
            final(store).header.fragment_table_parts@ == old(store).header.fragment_table_parts@,
            r is Ok ==> final(self).wf() && final(self).id == old(self).id && cow_effect(
                f,
                old(self).id,
                *old(store),
                *final(self),
                *final(store),
            ),
            r is Err ==> final(self).fragment_type == old(self).fragment_type
                && final(self).sequence == old(self).sequence,
            readonly_write_possible(f, old(self).id, *old(store)) ==> r is Ok,
    {
        let (_, sequence) = match store.next_frag_and_seq(Some(self.id)) {
            Some(v) => v,
            None => {
                return Err(Error::Io(IoErrorKind::OutOfSpace));
            },
        };
        if f.size > usize::MAX as u64 {
            return Err(Error::Io(IoErrorKind::OutOfSpace));
        }
        let request = if f.size == 0 {
            1
        } else {
            f.size
        };
        let ghost s0 = *old(store);
        let (ptr, granted) = store.header.allocate_fragment(request)?;
        assert(allocation(s0.header, cow_request(f), Ok((ptr, granted)), store.header.free_space@, store.header.end));
        let start = store.backing.stream_position();
        store.backing.seek_to(f.ptr);
        let old_bytes = store.backing.read_bytes(f.size as usize);
        store.backing.seek_to(ptr);
        let w = store.backing.write_bytes(old_bytes.as_slice());
        store.backing.seek_to(start);
        w?;
        let cursor = if f.cursor <= granted {
            f.cursor
        } else {
            granted
        };
        self.fragment_type = FragmentType::Sized(
            SizedFragment { cursor, ptr, size: granted, max_size: Some(granted) },
        );
        self.sequence = sequence;
        Ok(())
    }

    /// Writes `buf` at the cursor; returns how many bytes were taken. A fixed extent takes what
    /// fits before its bound. A read-only handle first moves its bytes to a fresh extent. A
    /// buffer takes everything, and once it would pass its threshold moves to the end watermark
    /// of the store and streams there from then on.
    #[verifier::rlimit(60)]
    pub fn write(&mut self, store: &mut RWFragmentStore, buf: &[u8]) -> (r: Result<usize>)
        requires
            old(self).wf(),
            old(store).wf(),
        ensures
            final(self).wf(),
            final(store).wf(),
            final(store).header.table() == old(store).header.table(),
            final(self).id == old(self).id,
            r matches Ok(n) ==> n <= buf@.len(),
            old(self).fragment_type matches FragmentType::ReadOnly(f) ==> (r matches Ok(n) ==> readonly_write_effect(
                f,
                old(self).id,
                *old(store),
                buf@,
                n as int,
                *final(self),
                *final(store),
            )) && (readonly_write_possible(f, old(self).id, *old(store)) ==> r is Ok),
            old(self).fragment_type matches FragmentType::Sized(f) ==> final(self).sequence == old(self).sequence && ({
                let room = f.bound() - f.cursor;
                let k = if buf@.len() <= room { buf@.len() as int } else { room as int };
                let at = f.ptr + f.cursor;
                if at + k <= usize::MAX {
                    &&& r == Ok::<usize, Error>(k as usize)
                    &&& final(store).backing.bytes() == overwrite(old(store).backing.bytes(), at, buf@.subrange(0, k))
                    &&& final(store).backing.position() == old(store).backing.position()
                    &&& final(self).fragment_type == FragmentType::Sized(SizedFragment { cursor: (f.cursor + k) as u64, ..f })
                } else {
                    r == Err::<usize, Error>(Error::Io(IoErrorKind::OutOfSpace))
                }
            }) && final(store).header == old(store).header,
            old(self).fragment_type matches FragmentType::Dynamic(d) ==> final(self).sequence == old(self).sequence && (
                r is Ok ==> r == Ok::<usize, Error>(buf@.len() as usize)),
            old(self).fragment_type matches FragmentType::Dynamic(d) ==> dynamic_write_effect(
                d,
                *old(store),
                buf@,
                r is Ok,
                *final(self),
                *final(store),
            ),
    {
        match &self.fragment_type {
            FragmentType::ReadOnly(f) => {
                let f = *f;
                self.copy_on_write(store, f)?;
            },
            _ => {},
        }
        match &mut self.fragment_type {
            FragmentType::ReadOnly(_) => Err(Error::Io(IoErrorKind::Unsupported)),
            FragmentType::Sized(f) => f.write_into(&mut store.backing, buf),
            FragmentType::Dynamic(d) => {
                let threshold = d.buffer_threshold;
                match &mut d.buffer {
                    InlineBuffer::Buffered(b) => {
                        let held = b.len() as u64;
                        if buf.len() as u64 > threshold || held > threshold - buf.len() as u64 {
                            let data = b.get_ref().clone();
                            let ptr = promote(store, &data, buf)?;
                            d.buffer = InlineBuffer::WriteThrough(ptr, held + buf.len() as u64);
                            Ok(buf.len())
                        } else {
                            b.write_bytes(buf)?;
                            Ok(buf.len())
                        }
                    },
                    InlineBuffer::WriteThrough(ptr, len) => {
                        let n = stream(store, *ptr, *len, buf)?;
                        *len = n;
                        Ok(buf.len())
                    },
                }
            },
        }
    }

    /// Writes all of `buf`, or fails with `WriteZero` where the fragment cannot take all of it.
    #[verifier::rlimit(60)]
    pub fn write_all(&mut self, store: &mut RWFragmentStore, buf: &[u8]) -> (r: Result<()>)
        requires
            old(self).wf(),
            old(store).wf(),
        ensures
            final(self).wf(),
            final(store).wf(),
            final(store).header.table() == old(store).header.table(),
            final(self).id == old(self).id,
            old(self).fragment_type matches FragmentType::Sized(f) ==> ({
                let at = f.ptr + f.cursor;
                if buf@.len() <= f.bound() - f.cursor && at + buf@.len() <= usize::MAX {
                    &&& r is Ok
                    &&& final(store).backing.bytes() == overwrite(old(store).backing.bytes(), at, buf@)
                    &&& final(self).fragment_type == FragmentType::Sized(SizedFragment { cursor: (f.cursor + buf@.len()) as u64, ..f })
                } else {
                    r is Err
                }
            }) && final(store).header == old(store).header,
            old(self).fragment_type matches FragmentType::Dynamic(d) ==> dynamic_write_effect(
                d,
                *old(store),
                buf@,
                r is Ok,
                *final(self),
                *final(store),
            ),
            old(self).fragment_type matches FragmentType::ReadOnly(f) ==> (r is Ok ==> readonly_write_effect(
                f,
                old(self).id,
                *old(store),
                buf@,
                buf@.len() as int,
                *final(self),
                *final(store),
            )) && (readonly_write_possible(f, old(self).id, *old(store)) && f.cursor <= f.size
                && buf@.len() <= f.size - f.cursor ==> r is Ok),
    {
        let n = self.write(store, buf)?;
        if n < buf.len() {
            return Err(Error::Io(IoErrorKind::WriteZero));
        }
        assert(buf@.subrange(0, buf@.len() as int) =~= buf@);
        Ok(())
    }

    /// Flushes the backing stream.
    pub fn flush(&mut self, store: &mut RWFragmentStore) -> (r: Result<()>)
        ensures
            r is Ok,
            final(store).backing.bytes() == old(store).backing.bytes(),
            final(store).header == old(store).header,
    {
        store.backing.flush();
        Ok(())
    }
}


impl FragmentHandle {
    /// The descriptor that closing a fixed or streamed handle records.
    pub open spec fn closing_descriptor(&self) -> Option<FragmentDescriptor> {
        match self.fragment_type {
            FragmentType::Sized(f) => Some(
                FragmentDescriptor { id: self.id, sequence: self.sequence, offset: f.ptr, length: f.size },
            ),
            FragmentType::Dynamic(d) => match d.buffer {
                InlineBuffer::WriteThrough(p, n) => if round_up(n as int) <= u64::MAX {
                    Some(
                        FragmentDescriptor {
                            id: self.id,
                            sequence: self.sequence,
                            offset: p,
                            length: round_up(n as int) as u64,
                        },
                    )
                } else {
                    None
                },
                InlineBuffer::Buffered(_) => None,
            },
            FragmentType::ReadOnly(_) => None,
        }
    }

    /// Records `d` in the table and writes the index back.
    fn record(store: &mut RWFragmentStore, d: FragmentDescriptor) -> (r: Result<()>)
        requires
            old(store).wf(),
        ensures
            final(store).wf(),
            r is Ok ==> final(store).header.table() == old(store).header.table().push(d)
                && final(store).backing.bytes() == image_of(old(store).backing.bytes(), final(store).header),
            !admits(old(store).header, d) ==> r == Err::<(), Error>(
                Error::Fragment(crate::error::FragmentError::InvalidFragmentTable),
            ),
            admits(old(store).header, d) && old(store).header.table().len() <= 0x80_0000_0000_0000
                && old(store).header.end + growth_margin(old(store).header.table().len() as int) <= usize::MAX ==> r is Ok,
            r is Err ==> (r == Err::<(), Error>(Error::Fragment(crate::error::FragmentError::InvalidFragmentTable))
                || r == Err::<(), Error>(Error::Fragment(crate::error::FragmentError::FailedToCreateNewFragmentTablePart)))
                && final(store).header.table() == old(store).header.table()
                || r == Err::<(), Error>(Error::Io(IoErrorKind::OutOfSpace))
                && final(store).header.table() == old(store).header.table().push(d),
    {
        store.header.push_fragment_descriptor(d)?;
        proof {
            if store.header.end <= usize::MAX {
                crate::laws::lemma_wf_addressable(store.header);
            }
        }
        store.header.write(&mut store.backing)
    }

    /// Closes the handle. A read-only one records nothing. A fixed one records its extent; a
    /// streamed one its extent rounded up to whole pages; a buffered one first takes an extent
    /// from the allocator and writes its bytes there. The table is then written back.
    #[verifier::rlimit(60)]
    pub fn done(self, store: &mut RWFragmentStore) -> (r: Result<()>)
        requires
            self.wf(),
            old(store).wf(),
        ensures
            final(store).wf(),
            self.fragment_type is ReadOnly ==> r is Ok && *final(store) == *old(store),
            self.closing_descriptor() matches Some(d) ==> {
                &&& r is Ok ==> final(store).header.table() == old(store).header.table().push(d)
                    && final(store).backing.bytes() == image_of(old(store).backing.bytes(), final(store).header)
                &&& !admits(old(store).header, d) ==> r == Err::<(), Error>(
                    Error::Fragment(crate::error::FragmentError::InvalidFragmentTable),
                )
                &&& admits(old(store).header, d) && old(store).header.table().len() <= 0x80_0000_0000_0000
                    && old(store).header.end + growth_margin(old(store).header.table().len() as int) <= usize::MAX ==> r is Ok
                &&& extent_admitted(old(store).header, d.offset, d.length) && old(store).header.table().len()
                    <= 0x80_0000_0000_0000 && old(store).header.end + growth_margin(old(store).header.table().len() as int) <= usize::MAX ==> r is Ok
                &&& r is Err ==> final(store).header.table() == old(store).header.table() || (r == Err::<(), Error>(
                    Error::Io(IoErrorKind::OutOfSpace),
                ) && final(store).header.table() == old(store).header.table().push(d))
            },
            self.fragment_type matches FragmentType::Dynamic(dy) ==> (dy.buffer matches InlineBuffer::WriteThrough(_, n)
                ==> (round_up(n as int) > u64::MAX ==> r == Err::<(), Error>(Error::Io(IoErrorKind::OutOfSpace)))),
            self.fragment_type matches FragmentType::Dynamic(dy) ==> (dy.buffer matches InlineBuffer::Buffered(b) ==> ({
                let len = b.bytes().len();
                let req = closing_request(len);
                let t = old(store).header.table();
                &&& r is Ok ==> exists|p: u64, g: u64, fr: Seq<FreeExtent>, e: u64|
                    #[trigger] allocation(old(store).header, req, Ok((p, g)), fr, e)
                    && final(store).header.table() == t.push(
                        FragmentDescriptor { id: self.id, sequence: self.sequence, offset: p, length: g },
                    )
                    && final(store).backing.bytes() == image_of(
                        overwrite(old(store).backing.bytes(), p as int, b.bytes()),
                        final(store).header,
                    )
                    && final(store).backing.bytes().len() >= p + len
                    && final(store).backing.bytes().subrange(p as int, p + len) == b.bytes()
                &&& (!allocation_fails(old(store).header, req) && t.len() <= 0x80_0000_0000_0000 && old(store).header.end + req
                    + 0x1000 + growth_margin(t.len() as int) <= usize::MAX) ==> r is Ok
            })),
    {
        let id = self.id;
        let sequence = self.sequence;
        match self.fragment_type {
            FragmentType::ReadOnly(_) => Ok(()),
            FragmentType::Sized(f) => {
                store.backing.flush();
                let d = FragmentDescriptor { id, sequence, offset: f.ptr, length: f.size };
                proof {
                    if extent_admitted(store.header, f.ptr, f.size) {
                        crate::index::lemma_extent_admitted(store.header, d);
                    }
                }
                Self::record(store, d)
            },
            FragmentType::Dynamic(d) => match d.buffer {
                InlineBuffer::WriteThrough(ptr, n) => {
                    let length = match round_up_to_page(n) {
                        Some(l) => l,
                        None => {
                            return Err(Error::Io(IoErrorKind::OutOfSpace));
                        },
                    };
                    let d = FragmentDescriptor { id, sequence, offset: ptr, length };
                    proof {
                        if extent_admitted(store.header, ptr, length) {
                            crate::index::lemma_extent_admitted(store.header, d);
                        }
                    }
                    Self::record(store, d)
                },
                InlineBuffer::Buffered(b) => {
                    let bytes = b.into_inner();
                    let request = if bytes.len() == 0 {
                        1
                    } else {
                        bytes.len() as u64
                    };
                    let ghost before = *old(store);
                    assert(closing_request(b.bytes().len()) == request);
                    let (ptr, size) = store.header.allocate_fragment(request)?;
                    let ghost t0 = store.header.table();
                    let ghost d = FragmentDescriptor { id, sequence, offset: ptr, length: size };
                    let ghost fr = store.header.free_space@;
                    let ghost e = store.header.end;
                    proof {
                        assert(allocation(before.header, request, Ok((ptr, size)), fr, e));
                        crate::index::lemma_extent_admitted(store.header, d);
                        assert(e <= before.header.end + request + 0x1000);
                    }
                    store.backing.seek_to(ptr);
                    store.backing.write_bytes(bytes.as_slice())?;
                    let ghost written = store.backing.bytes();
                    let r = Self::record(store, FragmentDescriptor { id, sequence, offset: ptr, length: size });
                    proof {
                        if r is Ok {
                            assert(allocation(before.header, request, Ok((ptr, size)), fr, e));
                            let i = t0.len() as int;
                            assert(store.header.table()[i] == d);
                            crate::laws::lemma_image_keeps_extent(written, store.header, i);
                            assert(store.backing.bytes().subrange(ptr as int, ptr + bytes@.len()) =~= bytes@);
                        }
                    }
                    r
                },
            },
        }
    }
}

} // verus!
