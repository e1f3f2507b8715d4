//! The store: a backing stream together with the index of the container it holds.
use vstd::prelude::*;
use crate::backing::{overwrite, MemoryBacking};
use crate::error::{Error, FragmentError, IoErrorKind, Result};
use crate::fragment::{AllocOptions, DynamicFragment, FragmentHandle, FragmentType, InlineBuffer, SizeHint, SizedFragment};
use crate::index::{round_up, RWFragmentStoreIndex};
use crate::persist::{image_of, index_from};
use crate::table::{header_bytes, part_bytes, FragmentDescriptor, FragmentTablePart, Header, DESCRIPTOR_SIZE, PART_HEADER_SIZE};
use crate::{FragmentID, PAGE_SIZE};

verus! {

/// Slots of the chunk that a blank container starts with: as many as fit in one page.
pub const BLANK_PART_CAPACITY: u64 = (PAGE_SIZE - PART_HEADER_SIZE) / DESCRIPTOR_SIZE;

/// The descriptor that a blank container holds: id 0, reserving the first data page.
pub open spec fn synthetic_descriptor() -> FragmentDescriptor {
    FragmentDescriptor { id: 0, sequence: 0, offset: (2 * PAGE_SIZE) as u64, length: PAGE_SIZE }
}

/// The bytes of a blank container written over `b`: the header at offset 0, then at the second
/// page a chunk of `BLANK_PART_CAPACITY` slots holding the synthetic descriptor.
pub open spec fn blank_image(b: Seq<u8>) -> Seq<u8> {
    overwrite(
        overwrite(
            b,
            0,
            header_bytes(Header { version: 0, root_fragment: 0, fragment_table_offset: PAGE_SIZE }),
        ),
        PAGE_SIZE as int,
        part_bytes(0, BLANK_PART_CAPACITY, seq![synthetic_descriptor()]),
    )
}

/// The id that a new fragment gets when none is asked for: one past the largest id of `t`, or
/// 1 in an empty table.
pub open spec fn is_next_id(t: Seq<FragmentDescriptor>, r: FragmentID) -> bool {
    if t.len() == 0 {
        r == 1
    } else {
        &&& exists|i: int| 0 <= i < t.len() && #[trigger] t[i].id + 1 == r
        &&& forall|i: int| 0 <= i < t.len() ==> #[trigger] t[i].id < r
    }
}

/// Some id of `t` is `u64::MAX`, so no id lies past them all.
pub open spec fn ids_exhausted(t: Seq<FragmentDescriptor>) -> bool {
    exists|i: int| 0 <= i < t.len() && #[trigger] t[i].id == u64::MAX
}

/// `m` is the largest sequence number recorded for `id` in `t`, or 0 where there is none.
pub open spec fn is_max_sequence(t: Seq<FragmentDescriptor>, id: FragmentID, m: u64) -> bool {
    &&& forall|i: int| 0 <= i < t.len() && #[trigger] t[i].id == id ==> t[i].sequence <= m
    &&& (m == 0 || exists|i: int| 0 <= i < t.len() && #[trigger] t[i].id == id && t[i].sequence == m)
}

/// `t[i]` is the latest version of `id`: the first of its descriptors with the largest sequence.
pub open spec fn is_latest(t: Seq<FragmentDescriptor>, id: FragmentID, i: int) -> bool {
    &&& 0 <= i < t.len()
    &&& t[i].id == id
    &&& forall|k: int| 0 <= k < t.len() && #[trigger] t[k].id == id ==> t[k].sequence <= t[i].sequence
    &&& forall|k: int| 0 <= k < i && #[trigger] t[k].id == id ==> t[k].sequence < t[i].sequence
}

pub open spec fn has_id(t: Seq<FragmentDescriptor>, id: FragmentID) -> bool {
    exists|i: int| 0 <= i < t.len() && #[trigger] t[i].id == id
}

/// A container held by a backing stream, with the index read from it.
#[derive(Debug)]
pub struct RWFragmentStore {
    pub backing: MemoryBacking,
    pub header: RWFragmentStoreIndex,
}

impl RWFragmentStore {
    pub open spec fn wf(&self) -> bool {
        self.header.wf()
    }

    /// Opens the container that `backing` holds.
    pub fn new(backing: MemoryBacking) -> (r: Result<RWFragmentStore>)
        ensures
            match r {
                Ok(s) => index_from(backing.bytes(), Ok(s.header)) && s.backing.bytes()
                    == backing.bytes() && s.wf(),
                Err(e) => index_from(backing.bytes(), Err(e)),
            },
    {
        let mut backing = backing;
        match RWFragmentStoreIndex::read(&mut backing) {
            Ok(header) => Ok(RWFragmentStore { backing, header }),
            Err(e) => Err(e),
        }
    }

    /// Writes a brand-new container over `backing`: a header whose table starts at the second
    /// page, and one chunk there holding a descriptor that reserves the third page.
    pub fn blank(backing: MemoryBacking) -> (r: Result<RWFragmentStore>)
        ensures
            r matches Ok(s) && {
                &&& s.wf()
                &&& s.header.version == 0
                &&& s.header.root_fragment == 0
                &&& s.header.fragment_table_offset == PAGE_SIZE
                &&& s.header.table() == seq![synthetic_descriptor()]
                &&& s.header.free_space@.len() == 0
                &&& s.header.end == 3 * PAGE_SIZE
                &&& s.header.fragment_table_parts@.len() == 1
                &&& s.header.fragment_table_parts@[0].offset == PAGE_SIZE
                &&& s.header.fragment_table_parts@[0].continuation == 0
                &&& s.header.fragment_table_parts@[0].capacity == BLANK_PART_CAPACITY
                &&& s.backing.bytes() == image_of(backing.bytes(), s.header)
                &&& s.backing.bytes() == blank_image(backing.bytes())
                &&& s.backing.position() == 0
            },
    {
        let mut fragments: Vec<FragmentDescriptor> = Vec::new();
        fragments.push(FragmentDescriptor { id: 0, sequence: 0, offset: 2 * PAGE_SIZE, length: PAGE_SIZE });
        let part = FragmentTablePart {
            offset: PAGE_SIZE,
            continuation: 0,
            capacity: BLANK_PART_CAPACITY,
            fragments,
        };
        let mut parts: Vec<FragmentTablePart> = Vec::new();
        parts.push(part);
        let header = RWFragmentStoreIndex {
            version: 0,
            root_fragment: 0,
            fragment_table_offset: PAGE_SIZE,
            fragment_table_parts: parts,
            free_space: Vec::new(),
            end: 3 * PAGE_SIZE,
        };
        proof {
            reveal_with_fuel(crate::index::table_of, 2);
            reveal_with_fuel(crate::table::descriptors_bytes, 2);
            assert(header.fragment_table_parts@.drop_last() =~= Seq::<FragmentTablePart>::empty());
            assert(header.table() =~= seq![synthetic_descriptor()]);
            assert(part.fragments@.drop_last() =~= Seq::<FragmentDescriptor>::empty());
            assert(crate::table::part_bytes(0, BLANK_PART_CAPACITY, part.fragments@).len() == 24 + 32);
        }
        let mut store = RWFragmentStore { backing, header };
        proof {
            reveal_with_fuel(crate::persist::parts_over, 2);
            assert(store.header.fragment_table_parts@.drop_last() =~= Seq::<FragmentTablePart>::empty());
            assert(part.fragments@ =~= seq![synthetic_descriptor()]);
        }
        match store.save() {
            Ok(()) => Ok(store),
            Err(e) => Err(e),
        }
    }

    /// Writes the index back to the backing stream.
    fn save(&mut self) -> (r: Result<()>)
        ensures
            final(self).header == old(self).header,
            crate::persist::parts_addressable(old(self).header.fragment_table_parts@) ==> r is Ok
                && final(self).backing.bytes() == image_of(old(self).backing.bytes(), old(self).header)
                && final(self).backing.position() == 0,
            r is Err ==> r == Err::<(), Error>(Error::Io(IoErrorKind::OutOfSpace)),
    {
        self.header.write(&mut self.backing)
    }

    /// The id a new fragment gets when none is asked for; `None` where some id is `u64::MAX`.
    pub(crate) fn next_fragment_id(&self) -> (r: Option<FragmentID>)
        ensures
            r matches Some(id) ==> is_next_id(self.header.table(), id),
            r is None <==> ids_exhausted(self.header.table()),
    {
        let t = self.header.fragment_table();
        if t.len() == 0 {
            return Some(1);
        }
        let mut best = t[0].id;
        let mut i: usize = 1;
        while i < t.len()
            invariant
                1 <= i <= t@.len(),
                exists|k: int| 0 <= k < i && #[trigger] t@[k].id == best,
                forall|k: int| 0 <= k < i ==> #[trigger] t@[k].id <= best,
            decreases t@.len() - i,
        {
            if t[i].id > best {
                best = t[i].id;
            }
            i = i + 1;
        }
        if best == u64::MAX {
            None
        } else {
            Some(best + 1)
        }
    }

    /// The id a new fragment is recorded under and its sequence number: one past the largest
    /// sequence recorded for that id. `None` where that largest sequence is `u64::MAX`.
    pub(crate) fn next_frag_and_seq(&self, frag: Option<FragmentID>) -> (r: Option<(FragmentID, u64)>)
        ensures
            ({
                let t = self.header.table();
                let picked = |id: FragmentID|
                    (frag matches Some(f) ==> id == f) && (frag is None ==> is_next_id(t, id));
                match r {
                    Some((id, s)) => picked(id) && s > 0 && is_max_sequence(t, id, (s - 1) as u64),
                    None => (frag is None && ids_exhausted(t)) || exists|id: FragmentID|
                        picked(id) && #[trigger] is_max_sequence(t, id, u64::MAX),
                }
            }),
    {
        let id = match frag {
            Some(f) => f,
            None => match self.next_fragment_id() {
                Some(n) => n,
                None => {
                    return None;
                },
            },
        };
        let t = self.header.fragment_table();
        let mut m: u64 = 0;
        let mut i: usize = 0;
        while i < t.len()
            invariant
                i <= t@.len(),
                forall|k: int| 0 <= k < i && #[trigger] t@[k].id == id ==> t@[k].sequence <= m,
                m == 0 || exists|k: int| 0 <= k < i && #[trigger] t@[k].id == id && t@[k].sequence == m,
            decreases t@.len() - i,
        {
            if t[i].id == id && t[i].sequence > m {
                m = t[i].sequence;
            }
            i = i + 1;
        }
        assert(is_max_sequence(t@, id, m));
        if m == u64::MAX {
            None
        } else {
            Some((id, m + 1))
        }
    }
}


impl RWFragmentStore {
    /// Starts a new fragment. A sized one gets its extent from the allocator now, at least one
    /// page; a growable one starts buffering in memory and leaves the store as it was. Its id is
    /// the one asked for, else one past the largest id of the table; its sequence is one past the
    /// largest recorded for that id.
    pub fn new_fragment(&mut self, options: AllocOptions) -> (r: Result<FragmentHandle>)
        requires
            old(self).wf(),
        ensures
            final(self).wf(),
            final(self).header.table() == old(self).header.table(),
            final(self).backing == old(self).backing,
            r matches Ok(h) ==> h.wf() && h.sequence > 0 && is_max_sequence(
                old(self).header.table(),
                h.id,
                (h.sequence - 1) as u64,
            ) && (options.fragment matches Some(f) ==> h.id == f) && (options.fragment is None
                ==> is_next_id(old(self).header.table(), h.id)),
            options.size_hint is Growable ==> *final(self) == *old(self),
            final(self).header.fragment_table_parts@ == old(self).header.fragment_table_parts@,
            r matches Ok(h) ==> (options.size_hint matches SizeHint::Sized(size) ==> (h.fragment_type matches FragmentType::Sized(f)
                && crate::index::extent_admitted(final(self).header, f.ptr, f.size)
                && crate::index::allocation(
                old(self).header,
                if size == 0 { 1 } else { size },
                Ok((f.ptr, f.size)),
                final(self).header.free_space@,
                final(self).header.end,
            ))),
            r matches Ok(h) ==> match options.size_hint {
                SizeHint::Sized(size) => h.fragment_type matches FragmentType::Sized(f) && f.cursor
                    == 0 && f.max_size == Some(f.size) && crate::index::aligned(f.ptr as int)
                    && crate::index::aligned(f.size as int) && f.size >= round_up(size as int)
                    && f.size >= PAGE_SIZE && f.ptr + f.size <= final(self).header.end,
                SizeHint::Growable => h.fragment_type matches FragmentType::Dynamic(d)
                    && d.buffer_threshold == PAGE_SIZE && (d.buffer matches InlineBuffer::Buffered(b)
                    && b.bytes().len() == 0 && b.position() == 0),
            },
            r is Err ==> r == Err::<FragmentHandle, Error>(Error::Io(IoErrorKind::OutOfSpace)),
            ({
                let t = old(self).header.table();
                let exhausted = (options.fragment is None && ids_exhausted(t)) || exists|id: FragmentID|
                    (options.fragment matches Some(f) ==> id == f) && (options.fragment is None
                    ==> is_next_id(t, id)) && #[trigger] is_max_sequence(t, id, u64::MAX);
                match options.size_hint {
                    SizeHint::Growable => r is Err <==> exhausted,
                    SizeHint::Sized(size) => r is Err <==> (exhausted || crate::index::allocation_fails(
                        old(self).header,
                        if size == 0 { 1 } else { size },
                    )),
                }
            }),
    {
        let (id, sequence) = match self.next_frag_and_seq(options.fragment) {
            Some(v) => v,
            None => {
                return Err(Error::Io(IoErrorKind::OutOfSpace));
            },
        };
        match options.size_hint {
            SizeHint::Sized(size) => {
                let request = if size == 0 {
                    1
                } else {
                    size
                };
                let (ptr, granted) = self.header.allocate_fragment(request)?;
                Ok(
                    FragmentHandle {
                        fragment_type: FragmentType::Sized(
                            SizedFragment { cursor: 0, ptr, size: granted, max_size: Some(granted) },
                        ),
                        id,
                        sequence,
                    },
                )
            },
            SizeHint::Growable => Ok(
                FragmentHandle {
                    fragment_type: FragmentType::Dynamic(
                        DynamicFragment {
                            buffer_threshold: PAGE_SIZE,
                            buffer: InlineBuffer::Buffered(MemoryBacking::new(Vec::new())),
                        },
                    ),
                    id,
                    sequence,
                },
            ),
        }
    }

    /// Opens the latest version of fragment `id` for reading.
    pub fn open_fragment(&self, id: FragmentID) -> (r: Result<FragmentHandle>)
        requires
            self.wf(),
        ensures
            r matches Ok(h) ==> h.wf(),
            !has_id(self.header.table(), id) ==> r == Err::<FragmentHandle, Error>(
                Error::Fragment(FragmentError::NoFound(id)),
            ),
            has_id(self.header.table(), id) ==> exists|i: int|
                #[trigger] is_latest(self.header.table(), id, i) && (r matches Ok(h) && h.id == id
                    && h.sequence == self.header.table()[i].sequence
                    && (h.fragment_type matches FragmentType::ReadOnly(f) && f == (SizedFragment {
                    cursor: 0,
                    ptr: self.header.table()[i].offset,
                    size: self.header.table()[i].length,
                    max_size: None,
                }))),
    {
        let t = self.header.fragment_table();
        let mut best: Option<usize> = None;
        let mut i: usize = 0;
        while i < t.len()
            invariant
                i <= t@.len(),
                best matches Some(b) ==> b < i && t@[b as int].id == id && (forall|k: int|
                    0 <= k < i && #[trigger] t@[k].id == id ==> t@[k].sequence <= t@[b as int].sequence)
                    && (forall|k: int| 0 <= k < b && #[trigger] t@[k].id == id ==> t@[k].sequence < t@[b as int].sequence),
                best is None ==> forall|k: int| 0 <= k < i ==> #[trigger] t@[k].id != id,
            decreases t@.len() - i,
        {
            if t[i].id == id {
                match best {
                    Some(b) => {
                        if t[i].sequence > t[b].sequence {
                            best = Some(i);
                        }
                    },
                    None => {
                        best = Some(i);
                    },
                }
            }
            i = i + 1;
        }
        match best {
            Some(b) => {
                let d = t[b];
                assert(is_latest(t@, id, b as int));
                assert(crate::index::extent_ok(t@[b as int]));
                Ok(
                    FragmentHandle {
                        fragment_type: FragmentType::ReadOnly(
                            SizedFragment { cursor: 0, ptr: d.offset, size: d.length, max_size: None },
                        ),
                        id,
                        sequence: d.sequence,
                    },
                )
            },
            None => Err(Error::Fragment(FragmentError::NoFound(id))),
        }
    }
}


/// A source of fragment handles.
pub trait FragmentStore {
    spec fn ready(&self) -> bool;

    fn open_fragment(&self, fragment: FragmentID) -> (r: Result<FragmentHandle>)
        requires
            self.ready(),
        ensures
            r matches Ok(h) ==> h.wf() && h.id == fragment && h.fragment_type is ReadOnly,
    ;
}

impl FragmentStore for RWFragmentStore {
    open spec fn ready(&self) -> bool {
        self.wf()
    }

    fn open_fragment(&self, fragment: FragmentID) -> (r: Result<FragmentHandle>) {
        RWFragmentStore::open_fragment(self, fragment)
    }
}

} // verus!
