//! Reading a container's index from its backing stream, and writing it back.
use vstd::prelude::*;
use crate::backing::{overwrite, MemoryBacking};
use crate::codec::{get_u64, le8_value};
use crate::error::{Error, FragmentError, Result};
use crate::table::{
    descriptor_at, header_bytes, header_from, part_bytes, FragmentDescriptor, FragmentTablePart,
    Header, DESCRIPTOR_SIZE, PART_HEADER_SIZE,
};
use crate::free_space::{gaps_of, is_offset_order, lemma_gaps_apart, lemma_gaps_sound, reconstruct_free_space};
use crate::index::{disjoint, extent_ok, round_up_to_page, table_of, table_ok, RWFragmentStoreIndex};
use vstd::seq_lib::to_multiset_contains;
use crate::{Pointer, PAGE_SIZE};
use crate::table::HEADER_SIZE;

verus! {

/// What a chunk decodes to: continuation, capacity and descriptors.
pub type PartImage = (u64, u64, Seq<FragmentDescriptor>);

/// Decoding the chunk that starts at `off` in `b`.
pub open spec fn part_from(b: Seq<u8>, off: int) -> Result<PartImage> {
    if off + 24 > b.len() {
        Err(Error::Decode)
    } else {
        let cont = le8_value(b.subrange(off, off + 8));
        let cap = le8_value(b.subrange(off + 8, off + 16));
        let len = le8_value(b.subrange(off + 16, off + 24));
        if len > cap {
            Err(Error::Fragment(FragmentError::LengthExceedsCapacity))
        } else if PART_HEADER_SIZE + DESCRIPTOR_SIZE * cap > u64::MAX {
            Err(Error::Fragment(FragmentError::InvalidTable))
        } else if off + 24 + 32 * len > b.len() {
            Err(Error::Decode)
        } else {
            Ok((cont, cap, Seq::new(len as nat, |i: int| descriptor_at(b, off + 24 + 32 * i))))
        }
    }
}

/// A chunk as placed: its offset, then what it decodes to.
pub type PlacedPart = (u64, u64, u64, Seq<FragmentDescriptor>);

pub open spec fn prepend(p: PlacedPart, r: Result<Seq<PlacedPart>>) -> Result<Seq<PlacedPart>> {
    match r {
        Ok(rest) => Ok(seq![p] + rest),
        Err(e) => Err(e),
    }
}

/// Following continuation pointers from `off`, at most `fuel` times after the first chunk.
pub open spec fn chain_from(b: Seq<u8>, off: u64, fuel: nat) -> Result<Seq<PlacedPart>>
    decreases fuel,
{
    match part_from(b, off as int) {
        Err(e) => Err(e),
        Ok(img) => {
            let placed = (off, img.0, img.1, img.2);
            if img.0 == 0 {
                Ok(seq![placed])
            } else if fuel == 0 {
                Err(Error::Fragment(FragmentError::InvalidFragmentTable))
            } else {
                prepend(placed, chain_from(b, img.0, (fuel - 1) as nat))
            }
        }
    }
}

/// A chain read from `off` starts there, links each chunk to the next, and ends in a zero
/// continuation.
pub proof fn lemma_chain_links(b: Seq<u8>, off: u64, fuel: nat, ps: Seq<PlacedPart>)
    requires
        chain_from(b, off, fuel) == Ok::<Seq<PlacedPart>, Error>(ps),
    ensures
        ps.len() >= 1,
        ps[0].0 == off,
        forall|j: int| 0 <= j < ps.len() - 1 ==> (#[trigger] ps[j]).1 == ps[j + 1].0 && ps[j].1 != 0,
        ps[ps.len() - 1].1 == 0,
    decreases fuel,
{
    let img = part_from(b, off as int)->Ok_0;
    if img.0 != 0 {
        let rest = chain_from(b, img.0, (fuel - 1) as nat)->Ok_0;
        lemma_chain_links(b, img.0, (fuel - 1) as nat, rest);
        let head = (off, img.0, img.1, img.2);
        assert(ps == seq![head] + rest);
        assert forall|j: int| 0 <= j < ps.len() - 1 implies (#[trigger] ps[j]).1 == ps[j + 1].0 && ps[j].1 != 0 by {
            if j > 0 {
                assert(ps[j] == rest[j - 1] && ps[j + 1] == rest[j]);
            } else {
                assert(ps[1] == rest[0]);
            }
        }
        assert(ps[ps.len() - 1] == rest[rest.len() - 1]);
    }
}

pub open spec fn placed(p: FragmentTablePart) -> PlacedPart {
    (p.offset, p.continuation, p.capacity, p.fragments@)
}

pub open spec fn placed_all(ps: Seq<FragmentTablePart>) -> Seq<PlacedPart> {
    ps.map_values(|p: FragmentTablePart| placed(p))
}

/// Reads the chunk at `offset`.
pub fn read_part(backing: &mut MemoryBacking, offset: Pointer) -> (r: Result<FragmentTablePart>)
    ensures
        final(backing).bytes() == old(backing).bytes(),
        match part_from(old(backing).bytes(), offset as int) {
            Ok(img) => r matches Ok(p) && p.offset == offset && p.continuation == img.0
                && p.capacity == img.1 && p.fragments@ == img.2 && p.wf()
                && final(backing).position() == offset + 24 + 32 * img.2.len(),
            Err(e) => r == Err::<FragmentTablePart, Error>(e),
        },
{
    let ghost b = backing.bytes();
    let _total = backing.len();
    backing.seek_to(offset);
    let head = backing.read_exact(24)?;
    proof {
        assert(head@.subrange(0, 8) =~= b.subrange(offset as int, offset + 8));
        assert(head@.subrange(8, 16) =~= b.subrange(offset + 8, offset + 16));
        assert(head@.subrange(16, 24) =~= b.subrange(offset + 16, offset + 24));
    }
    let cont = get_u64(head.as_slice(), 0);
    let cap = get_u64(head.as_slice(), 8);
    let len = get_u64(head.as_slice(), 16);
    if len > cap {
        return Err(Error::Fragment(FragmentError::LengthExceedsCapacity));
    }
    if cap > (u64::MAX - PART_HEADER_SIZE) / DESCRIPTOR_SIZE {
        return Err(Error::Fragment(FragmentError::InvalidTable));
    }
    let size = len * DESCRIPTOR_SIZE;
    if size > usize::MAX as u64 {
        return Err(Error::Decode);
    }
    let body = backing.read_exact(size as usize)?;
    let body_len = body.len();
    let mut fragments: Vec<FragmentDescriptor> = Vec::new();
    let mut i: u64 = 0;
    while i < len
        invariant
            i <= len,
            len * 32 == body@.len(),
            body_len == body@.len(),
            offset + 24 + body@.len() <= b.len(),
            body@ == b.subrange(offset + 24, offset + 24 + body@.len()),
            fragments@.len() == i,
            forall|k: int| 0 <= k < i ==> #[trigger] fragments@[k] == descriptor_at(b, offset + 24 + 32 * k),
        decreases len - i,
    {
        let at = (i * DESCRIPTOR_SIZE) as usize;
        let d = FragmentDescriptor::decode(body.as_slice(), at);
        proof {
            let s = offset + 24 + 32 * i;
            assert(body@.subrange(at as int, at + 8) =~= b.subrange(s, s + 8));
            assert(body@.subrange(at + 8, at + 16) =~= b.subrange(s + 8, s + 16));
            assert(body@.subrange(at + 16, at + 24) =~= b.subrange(s + 16, s + 24));
            assert(body@.subrange(at + 24, at + 32) =~= b.subrange(s + 24, s + 32));
        }
        fragments.push(d);
        i = i + 1;
    }
    let part = FragmentTablePart { offset, continuation: cont, capacity: cap, fragments };
    assert(part.fragments@ =~= Seq::new(len as nat, |k: int| descriptor_at(b, offset + 24 + 32 * k)));
    Ok(part)
}

/// Reads the chain of chunks that starts at `first`, following each continuation pointer
/// until one is zero. A chain longer than the stream has bytes is refused.
pub fn read_chain(backing: &mut MemoryBacking, first: Pointer) -> (r: Result<Vec<FragmentTablePart>>)
    ensures
        final(backing).bytes() == old(backing).bytes(),
        match chain_from(old(backing).bytes(), first, old(backing).bytes().len()) {
            Ok(ps) => r matches Ok(v) && placed_all(v@) == ps && v@.len() >= 1 && (forall|i: int|
                0 <= i < v@.len() ==> (#[trigger] v@[i]).wf()),
            Err(e) => r == Err::<Vec<FragmentTablePart>, Error>(e),
        },
{
    let ghost b = backing.bytes();
    let ghost total = b.len();
    let mut parts: Vec<FragmentTablePart> = Vec::new();
    let mut cur = first;
    let mut fuel: u64 = backing.len() as u64;
    loop
        invariant
            backing.bytes() == b,
            b == old(backing).bytes(),
            total == b.len(),
            fuel <= total,
            forall|i: int| 0 <= i < parts@.len() ==> (#[trigger] parts@[i]).wf(),
            chain_from(b, first, total) == {
                let rest = chain_from(b, cur, fuel as nat);
                match rest {
                    Ok(s) => Ok(placed_all(parts@) + s),
                    Err(e) => Err(e),
                }
            },
        decreases fuel,
    {
        let ghost before = parts@;
        let p = read_part(backing, cur)?;
        let c = p.continuation;
        parts.push(p);
        proof {
            assert(placed_all(parts@) =~= placed_all(before) + seq![placed(p)]);
        }
        if c == 0 {
            assert(placed_all(parts@) + Seq::<PlacedPart>::empty() =~= placed_all(parts@));
            assert(placed_all(before) + seq![placed(p)] =~= placed_all(parts@));
            return Ok(parts);
        }
        if fuel == 0 {
            return Err(Error::Fragment(FragmentError::InvalidFragmentTable));
        }
        proof {
            match chain_from(b, c, (fuel - 1) as nat) {
                Ok(s) => {
                    assert(placed_all(before) + (seq![placed(p)] + s) =~= placed_all(parts@) + s);
                },
                Err(_) => {},
            }
        }
        cur = c;
        fuel = fuel - 1;
    }
}


/// The descriptors of a chain of chunks, chunk by chunk.
pub open spec fn table_of_placed(ps: Seq<PlacedPart>) -> Seq<FragmentDescriptor>
    decreases ps.len(),
{
    if ps.len() == 0 {
        Seq::empty()
    } else {
        table_of_placed(ps.drop_last()) + ps.last().3
    }
}

pub proof fn lemma_table_of_placed(parts: Seq<FragmentTablePart>)
    ensures
        table_of(parts) == table_of_placed(placed_all(parts)),
    decreases parts.len(),
{
    if parts.len() > 0 {
        lemma_table_of_placed(parts.drop_last());
        assert(placed_all(parts).drop_last() =~= placed_all(parts.drop_last()));
    }
}

/// The byte just past a placed chunk's reserved slots.
pub open spec fn part_end(p: PlacedPart) -> int {
    p.0 + PART_HEADER_SIZE + DESCRIPTOR_SIZE * p.2
}

/// Every occupied byte lies a page or more below `u64::MAX`.
pub open spec fn occupants_bounded(ps: Seq<PlacedPart>, t: Seq<FragmentDescriptor>) -> bool {
    &&& forall|k: int| 0 <= k < ps.len() ==> part_end(#[trigger] ps[k]) <= u64::MAX - PAGE_SIZE
    &&& forall|i: int| 0 <= i < t.len() ==> #[trigger] t[i].offset + t[i].length <= u64::MAX - PAGE_SIZE
}

/// Every chunk and every descriptor lies past the header; chunks reserve slots that share no
/// byte with each other nor with any descriptor.
pub open spec fn layout_clear(ps: Seq<PlacedPart>, t: Seq<FragmentDescriptor>) -> bool {
    &&& forall|j: int| 0 <= j < ps.len() ==> HEADER_SIZE <= (#[trigger] ps[j]).0
    &&& forall|j1: int, j2: int|
        0 <= j1 < ps.len() && 0 <= j2 < ps.len() && j1 != j2 ==> part_end(#[trigger] ps[j1]) <= (
        #[trigger] ps[j2]).0 || part_end(ps[j2]) <= ps[j1].0
    &&& forall|i: int| 0 <= i < t.len() ==> HEADER_SIZE <= #[trigger] t[i].offset
    &&& forall|j: int, i: int|
        0 <= j < ps.len() && 0 <= i < t.len() ==> part_end(#[trigger] ps[j]) <= #[trigger] t[i].offset
            || t[i].offset + t[i].length <= ps[j].0
}

/// Whether every descriptor of `t` lies past the header and clear of every chunk of `parts`.
pub fn check_layout(parts: &Vec<FragmentTablePart>, t: &Vec<FragmentDescriptor>) -> (r: bool)
    requires
        forall|q: int| 0 <= q < parts@.len() ==> (#[trigger] parts@[q]).wf(),
        forall|i: int| 0 <= i < t@.len() ==> extent_ok(#[trigger] t@[i]),
    ensures
        r == layout_clear(placed_all(parts@), t@),
{
    let ghost ps = placed_all(parts@);
    let mut c: usize = 0;
    while c < parts.len()
        invariant
            c <= parts@.len(),
            ps == placed_all(parts@),
            forall|q: int| 0 <= q < parts@.len() ==> (#[trigger] parts@[q]).wf(),
            forall|q: int| 0 <= q < c ==> HEADER_SIZE <= (#[trigger] ps[q]).0,
            forall|j1: int, j2: int|
                0 <= j1 < c && 0 <= j2 < parts@.len() && j1 != j2 ==> part_end(#[trigger] ps[j1]) <= (
                #[trigger] ps[j2]).0 || part_end(ps[j2]) <= ps[j1].0,
        decreases parts@.len() - c,
    {
        let a = &parts[c];
        assert(ps[c as int] == placed(*a));
        if a.offset < HEADER_SIZE {
            return false;
        }
        let ra = PART_HEADER_SIZE + DESCRIPTOR_SIZE * a.capacity;
        let mut e: usize = 0;
        while e < parts.len()
            invariant
                e <= parts@.len(),
                c < parts@.len(),
                ps == placed_all(parts@),
                *a == parts@[c as int],
                ps[c as int] == placed(*a),
                a.wf(),
                ra == PART_HEADER_SIZE + DESCRIPTOR_SIZE * a.capacity,
                forall|q: int| 0 <= q < parts@.len() ==> (#[trigger] parts@[q]).wf(),
                forall|q: int| 0 <= q < e && q != c ==> part_end(ps[c as int]) <= (#[trigger] ps[q]).0
                    || part_end(ps[q]) <= ps[c as int].0,
            decreases parts@.len() - e,
        {
            if e != c {
                let o = &parts[e];
                assert(ps[e as int] == placed(*o));
                let ro = PART_HEADER_SIZE + DESCRIPTOR_SIZE * o.capacity;
                let clear = (a.offset <= o.offset && ra <= o.offset - a.offset) || (o.offset <= a.offset
                    && ro <= a.offset - o.offset);
                if !clear {
                    assert(!(part_end(ps[c as int]) <= ps[e as int].0 || part_end(ps[e as int]) <= ps[c as int].0));
                    return false;
                }
            }
            e = e + 1;
        }
        c = c + 1;
    }
    let mut i: usize = 0;
    while i < t.len()
        invariant
            i <= t@.len(),
            ps == placed_all(parts@),
            forall|q: int| 0 <= q < parts@.len() ==> HEADER_SIZE <= (#[trigger] ps[q]).0,
            forall|j1: int, j2: int|
                0 <= j1 < parts@.len() && 0 <= j2 < parts@.len() && j1 != j2 ==> part_end(#[trigger] ps[j1]) <= (
                #[trigger] ps[j2]).0 || part_end(ps[j2]) <= ps[j1].0,
            forall|q: int| 0 <= q < i ==> HEADER_SIZE <= #[trigger] t@[q].offset,
        decreases t@.len() - i,
    {
        if t[i].offset < HEADER_SIZE {
            return false;
        }
        i = i + 1;
    }
    let mut k: usize = 0;
    while k < parts.len()
        invariant
            k <= parts@.len(),
            ps == placed_all(parts@),
            forall|q: int| 0 <= q < parts@.len() ==> (#[trigger] parts@[q]).wf(),
            forall|i: int| 0 <= i < t@.len() ==> extent_ok(#[trigger] t@[i]),
            forall|q: int| 0 <= q < t@.len() ==> HEADER_SIZE <= #[trigger] t@[q].offset,
            forall|q: int| 0 <= q < parts@.len() ==> HEADER_SIZE <= (#[trigger] ps[q]).0,
            forall|j1: int, j2: int|
                0 <= j1 < parts@.len() && 0 <= j2 < parts@.len() && j1 != j2 ==> part_end(#[trigger] ps[j1]) <= (
                #[trigger] ps[j2]).0 || part_end(ps[j2]) <= ps[j1].0,
            forall|j: int, q: int|
                0 <= j < k && 0 <= q < t@.len() ==> part_end(#[trigger] ps[j]) <= #[trigger] t@[q].offset
                    || t@[q].offset + t@[q].length <= ps[j].0,
        decreases parts@.len() - k,
    {
        let p = &parts[k];
        assert(ps[k as int] == placed(*p));
        let reserved = PART_HEADER_SIZE + DESCRIPTOR_SIZE * p.capacity;
        let mut i: usize = 0;
        while i < t.len()
            invariant
                i <= t@.len(),
                k < parts@.len(),
                ps == placed_all(parts@),
                *p == parts@[k as int],
                ps[k as int] == placed(*p),
                p.wf(),
                reserved == PART_HEADER_SIZE + DESCRIPTOR_SIZE * p.capacity,
                forall|q: int| 0 <= q < t@.len() ==> extent_ok(#[trigger] t@[q]),
                forall|q: int| 0 <= q < i ==> part_end(ps[k as int]) <= #[trigger] t@[q].offset
                    || t@[q].offset + t@[q].length <= ps[k as int].0,
            decreases t@.len() - i,
        {
            let d = t[i];
            assert(extent_ok(t@[i as int]));
            let clear = (p.offset <= d.offset && reserved <= d.offset - p.offset) || d.offset
                + d.length <= p.offset;
            if !clear {
                assert(!(part_end(ps[k as int]) <= t@[i as int].offset || t@[i as int].offset
                    + t@[i as int].length <= ps[k as int].0));
                return false;
            }
            i = i + 1;
        }
        k = k + 1;
    }
    true
}

/// What opening a container whose header is `h` and whose chunks are `ps` gives.
pub open spec fn opened(h: Header, ps: Seq<PlacedPart>, r: Result<RWFragmentStoreIndex>) -> bool {
    let t = table_of_placed(ps);
    if !table_ok(t) || !occupants_bounded(ps, t) || !layout_clear(ps, t) {
        r == Err::<RWFragmentStoreIndex, Error>(Error::Fragment(FragmentError::InvalidFragmentTable))
    } else if !(exists|i: int| 0 <= i < t.len() && #[trigger] t[i].id == h.root_fragment) {
        r == Err::<RWFragmentStoreIndex, Error>(Error::Fragment(FragmentError::MissingRootFragment))
    } else {
        r matches Ok(idx) && {
            &&& idx.wf()
            &&& idx.version == h.version
            &&& idx.root_fragment == h.root_fragment
            &&& idx.fragment_table_offset == h.fragment_table_offset
            &&& placed_all(idx.fragment_table_parts@) == ps
            &&& idx.table() == t
            &&& forall|k: int| 0 <= k < ps.len() ==> part_end(#[trigger] ps[k]) <= idx.end
            &&& ((exists|i: int| 0 <= i < t.len() && idx.end < #[trigger] t[i].offset + t[i].length + PAGE_SIZE)
                || (exists|k: int| 0 <= k < ps.len() && idx.end < part_end(#[trigger] ps[k]) + PAGE_SIZE))
            &&& exists|s: Seq<FragmentDescriptor>| is_offset_order(s, t) && idx.free_space@ == gaps_of(s)
        }
    }
}

/// What opening the container held by `b` gives.
pub open spec fn index_from(b: Seq<u8>, r: Result<RWFragmentStoreIndex>) -> bool {
    match header_from(b) {
        Err(e) => r == Err::<RWFragmentStoreIndex, Error>(e),
        Ok(h) => match chain_from(b, h.fragment_table_offset, b.len()) {
            Err(e) => r == Err::<RWFragmentStoreIndex, Error>(e),
            Ok(ps) => opened(h, ps, r),
        },
    }
}

/// Whether the descriptors of `t` are sound extents that share no byte.
pub fn check_table(t: &Vec<FragmentDescriptor>) -> (r: bool)
    ensures
        r == table_ok(t@),
{
    let mut i: usize = 0;
    while i < t.len()
        invariant
            i <= t@.len(),
            forall|k: int| 0 <= k < i ==> extent_ok(#[trigger] t@[k]),
            forall|a: int, b: int| 0 <= a < i && 0 <= b < i && a != b ==> disjoint(#[trigger] t@[a], #[trigger] t@[b]),
        decreases t@.len() - i,
    {
        let d = t[i];
        if d.offset % PAGE_SIZE != 0 || d.length % PAGE_SIZE != 0 || d.length < PAGE_SIZE
            || d.offset > u64::MAX - d.length {
            assert(!extent_ok(t@[i as int]));
            return false;
        }
        let mut j: usize = 0;
        while j < i
            invariant
                j <= i < t@.len(),
                d == t@[i as int],
                extent_ok(d),
                forall|k: int| 0 <= k < i ==> extent_ok(#[trigger] t@[k]),
                forall|k: int| 0 <= k < j ==> disjoint(#[trigger] t@[k], d),
            decreases i - j,
        {
            let e = t[j];
            if !(e.offset + e.length <= d.offset || d.offset + d.length <= e.offset) {
                assert(!disjoint(t@[j as int], t@[i as int]));
                return false;
            }
            j = j + 1;
        }
        i = i + 1;
    }
    true
}

impl RWFragmentStoreIndex {
    /// Opens the container held by `backing`: decodes its header, follows its chain of table
    /// chunks, checks the descriptors, rebuilds the free space and sets the end watermark.
    /// A table whose extents are unaligned, shorter than a page, not a whole number of pages,
    /// overlapping, reaching into the header or into a chunk's slots is refused with
    /// `InvalidFragmentTable`, as is a chunk that reaches into the header or another chunk:
    /// the allocator relies on each of these.
    #[verifier::rlimit(60)]
    pub fn read(backing: &mut MemoryBacking) -> (r: Result<RWFragmentStoreIndex>)
        ensures
            final(backing).bytes() == old(backing).bytes(),
            index_from(old(backing).bytes(), r),
    {
        let ghost b = backing.bytes();
        backing.seek_to(0);
        let head = match backing.read_exact(24) {
            Ok(v) => v,
            Err(e) => {
                return Err(e);
            },
        };
        proof {
            assert(head@.subrange(0, 4) =~= b.subrange(0, 4));
            assert(head@.subrange(4, 8) =~= b.subrange(4, 8));
            assert(head@.subrange(8, 16) =~= b.subrange(8, 16));
            assert(head@.subrange(16, 24) =~= b.subrange(16, 24));
        }
        let h = Header::decode(head.as_slice())?;
        let parts = read_chain(backing, h.fragment_table_offset)?;
        let ghost ps = placed_all(parts@);
        let mut idx = RWFragmentStoreIndex {
            version: h.version,
            root_fragment: h.root_fragment,
            fragment_table_offset: h.fragment_table_offset,
            fragment_table_parts: parts,
            free_space: Vec::new(),
            end: 0,
        };
        let t = idx.fragment_table();
        proof {
            lemma_table_of_placed(idx.fragment_table_parts@);
        }
        if !check_table(&t) {
            return Err(Error::Fragment(FragmentError::InvalidFragmentTable));
        }
        if !check_layout(&idx.fragment_table_parts, &t) {
            return Err(Error::Fragment(FragmentError::InvalidFragmentTable));
        }
        let mut high: u64 = 0;
        let mut k: usize = 0;
        while k < idx.fragment_table_parts.len()
            invariant
                backing.bytes() == b,
                b == old(backing).bytes(),
                header_from(b) == Ok::<Header, Error>(h),
                chain_from(b, h.fragment_table_offset, b.len()) == Ok::<Seq<PlacedPart>, Error>(ps),
                t@ == table_of_placed(ps),
                table_ok(t@),
                layout_clear(ps, t@),
                k <= idx.fragment_table_parts@.len(),
                ps == placed_all(idx.fragment_table_parts@),
                forall|q: int| 0 <= q < idx.fragment_table_parts@.len() ==> (#[trigger] idx.fragment_table_parts@[q]).wf(),
                forall|q: int| 0 <= q < k ==> part_end(#[trigger] ps[q]) <= u64::MAX - PAGE_SIZE,
                forall|q: int| 0 <= q < k ==> part_end(#[trigger] ps[q]) <= high,
                high == 0 || exists|q: int| 0 <= q < k && high == part_end(#[trigger] ps[q]),
            decreases idx.fragment_table_parts@.len() - k,
        {
            let p = &idx.fragment_table_parts[k];
            assert(ps[k as int] == placed(*p));
            let reserved = PART_HEADER_SIZE + DESCRIPTOR_SIZE * p.capacity;
            if reserved > u64::MAX - PAGE_SIZE || p.offset > u64::MAX - PAGE_SIZE - reserved {
                return Err(Error::Fragment(FragmentError::InvalidFragmentTable));
            }
            let stop = p.offset + reserved;
            if stop > high {
                high = stop;
            }
            k = k + 1;
        }
        let mut i: usize = 0;
        while i < t.len()
            invariant
                backing.bytes() == b,
                b == old(backing).bytes(),
                header_from(b) == Ok::<Header, Error>(h),
                chain_from(b, h.fragment_table_offset, b.len()) == Ok::<Seq<PlacedPart>, Error>(ps),
                t@ == table_of_placed(ps),
                table_ok(t@),
                layout_clear(ps, t@),
                forall|q: int| 0 <= q < ps.len() ==> part_end(#[trigger] ps[q]) <= u64::MAX - PAGE_SIZE,
                i <= t@.len(),
                forall|q: int| 0 <= q < ps.len() ==> part_end(#[trigger] ps[q]) <= high,
                forall|q: int| 0 <= q < i ==> #[trigger] t@[q].offset + t@[q].length <= u64::MAX - PAGE_SIZE,
                forall|q: int| 0 <= q < i ==> #[trigger] t@[q].offset + t@[q].length <= high,
                high == 0 || (exists|q: int| 0 <= q < ps.len() && high == part_end(#[trigger] ps[q]))
                    || (exists|q: int| 0 <= q < i && high == #[trigger] t@[q].offset + t@[q].length),
            decreases t@.len() - i,
        {
            let d = t[i];
            assert(extent_ok(t@[i as int]));
            if d.offset + d.length > u64::MAX - PAGE_SIZE {
                return Err(Error::Fragment(FragmentError::InvalidFragmentTable));
            }
            if d.offset + d.length > high {
                high = d.offset + d.length;
            }
            i = i + 1;
        }
        let mut found = false;
        let mut j: usize = 0;
        while j < t.len()
            invariant
                backing.bytes() == b,
                b == old(backing).bytes(),
                header_from(b) == Ok::<Header, Error>(h),
                chain_from(b, h.fragment_table_offset, b.len()) == Ok::<Seq<PlacedPart>, Error>(ps),
                t@ == table_of_placed(ps),
                table_ok(t@),
                layout_clear(ps, t@),
                j <= t@.len(),
                found ==> exists|q: int| 0 <= q < t@.len() && #[trigger] t@[q].id == h.root_fragment,
                !found ==> forall|q: int| 0 <= q < j ==> #[trigger] t@[q].id != h.root_fragment,
            decreases t@.len() - j,
        {
            if t[j].id == h.root_fragment {
                found = true;
            }
            j = j + 1;
        }
        if !found {
            return Err(Error::Fragment(FragmentError::MissingRootFragment));
        }
        let end = match round_up_to_page(high) {
            Some(e) => e,
            None => {
                return Err(Error::Fragment(FragmentError::InvalidFragmentTable));
            },
        };
        let (free, sorted) = reconstruct_free_space(&t);
        idx.free_space = free;
        idx.end = end;
        proof {
            assert forall|q: int| 0 <= q < sorted@.len() implies extent_ok(#[trigger] sorted@[q])
                && sorted@[q].offset + sorted@[q].length <= end by {
                to_multiset_contains(sorted@, sorted@[q]);
                to_multiset_contains(t@, sorted@[q]);
                assert(sorted@.contains(sorted@[q]));
            }
            lemma_gaps_sound(sorted@, end as int);
            assert forall|q: int| 0 <= q < t@.len() implies sorted@.contains(#[trigger] t@[q]) by {
                to_multiset_contains(sorted@, t@[q]);
                to_multiset_contains(t@, t@[q]);
                assert(t@.contains(t@[q]));
            }
            assert forall|q: int| 0 <= q < sorted@.len() implies t@.contains(#[trigger] sorted@[q]) by {
                to_multiset_contains(sorted@, sorted@[q]);
                to_multiset_contains(t@, sorted@[q]);
                assert(sorted@.contains(sorted@[q]));
            }
            lemma_gaps_apart(sorted@, t@);
            crate::free_space::lemma_gaps_ordered(sorted@);
            lemma_chain_links(b, h.fragment_table_offset, b.len(), ps);
            let parts0 = idx.fragment_table_parts@;
            assert(ps[0] == placed(parts0[0]));
            assert(ps[ps.len() - 1] == placed(parts0[parts0.len() - 1]));
            assert forall|j: int| 0 <= j < parts0.len() - 1 implies (#[trigger] parts0[j]).continuation
                == parts0[j + 1].offset && parts0[j].continuation != 0 by {
                assert(ps[j] == placed(parts0[j]) && ps[j + 1] == placed(parts0[j + 1]));
            }
            let gs = gaps_of(sorted@);
            assert forall|k1: int, k2: int| 0 <= k1 < gs.len() && 0 <= k2 < gs.len() && k1 != k2 implies crate::index::gaps_apart(
                #[trigger] gs[k1],
                #[trigger] gs[k2],
            ) by {
                if k1 < k2 {
                    assert(gs[k1].ptr + gs[k1].size <= gs[k2].ptr);
                } else {
                    assert(gs[k2].ptr + gs[k2].size <= gs[k1].ptr);
                }
            }
            let parts = idx.fragment_table_parts@;
            assert forall|j: int| 0 <= j < parts.len() implies #[trigger] parts[j].offset
                + parts[j].extent_size() <= end by {
                assert(ps[j] == placed(parts[j]));
            }
            assert forall|j: int| 0 <= j < parts.len() implies HEADER_SIZE <= #[trigger] parts[j].offset by {
                assert(ps[j] == placed(parts[j]));
            }
            assert forall|j1: int, j2: int| 0 <= j1 < parts.len() && 0 <= j2 < parts.len() && j1 != j2 implies crate::index::chunks_apart(
                #[trigger] parts[j1],
                #[trigger] parts[j2],
            ) by {
                assert(ps[j1] == placed(parts[j1]));
                assert(ps[j2] == placed(parts[j2]));
            }
            assert forall|j: int, i: int| 0 <= j < parts.len() && 0 <= i < t@.len() implies crate::index::chunk_apart(
                #[trigger] parts[j],
                #[trigger] t@[i],
            ) by {
                assert(ps[j] == placed(parts[j]));
            }
            assert(t@.len() > 0);
            if high > 0 {
                if exists|q: int| 0 <= q < ps.len() && high == part_end(#[trigger] ps[q]) {
                    let q = choose|q: int| 0 <= q < ps.len() && high == part_end(#[trigger] ps[q]);
                    assert(end < part_end(ps[q]) + PAGE_SIZE);
                } else {
                    let q = choose|q: int| 0 <= q < t@.len() && high == #[trigger] t@[q].offset + t@[q].length;
                    assert(end < t@[q].offset + t@[q].length + PAGE_SIZE);
                }
            } else {
                assert(end == 0);
                assert(end < t@[0].offset + t@[0].length + PAGE_SIZE);
            }
        }
        Ok(idx)
    }
}


pub open spec fn part_image(p: FragmentTablePart) -> Seq<u8> {
    part_bytes(p.continuation, p.capacity, p.fragments@)
}

/// `b` with each chunk of `ps` written at its offset, in order.
pub open spec fn parts_over(b: Seq<u8>, ps: Seq<FragmentTablePart>) -> Seq<u8>
    decreases ps.len(),
{
    if ps.len() == 0 {
        b
    } else {
        overwrite(parts_over(b, ps.drop_last()), ps.last().offset as int, part_image(ps.last()))
    }
}

pub open spec fn header_of(idx: RWFragmentStoreIndex) -> Header {
    Header {
        version: idx.version,
        root_fragment: idx.root_fragment,
        fragment_table_offset: idx.fragment_table_offset,
    }
}

/// `b` once the header of `idx` and then each of its chunks are written over it.
pub open spec fn image_of(b: Seq<u8>, idx: RWFragmentStoreIndex) -> Seq<u8> {
    parts_over(overwrite(b, 0, header_bytes(header_of(idx))), idx.fragment_table_parts@)
}

/// Every chunk's encoding ends at an offset that memory can address.
pub open spec fn parts_addressable(ps: Seq<FragmentTablePart>) -> bool {
    forall|k: int| 0 <= k < ps.len() ==> #[trigger] ps[k].offset + part_image(ps[k]).len() <= usize::MAX
}

impl RWFragmentStoreIndex {
    pub fn header(&self) -> (r: Header)
        ensures
            r == header_of(*self),
    {
        Header {
            version: self.version,
            root_fragment: self.root_fragment,
            fragment_table_offset: self.fragment_table_offset,
        }
    }

    /// Writes the header at offset 0, then every chunk at its own offset.
    pub fn write(&self, backing: &mut MemoryBacking) -> (r: Result<()>)
        ensures
            parts_addressable(self.fragment_table_parts@) ==> r is Ok && final(backing).bytes()
                == image_of(old(backing).bytes(), *self) && final(backing).position() == 0,
            !parts_addressable(self.fragment_table_parts@) ==> r == Err::<(), Error>(
                Error::Io(crate::error::IoErrorKind::OutOfSpace),
            ),
    {
        let head = self.header().encode();
        backing.seek_to(0);
        backing.write_bytes(head.as_slice())?;
        let ghost base = backing.bytes();
        let mut k: usize = 0;
        while k < self.fragment_table_parts.len()
            invariant
                k <= self.fragment_table_parts@.len(),
                base == overwrite(old(backing).bytes(), 0, header_bytes(header_of(*self))),
                backing.bytes() == parts_over(base, self.fragment_table_parts@.subrange(0, k as int)),
                forall|q: int| 0 <= q < k ==> #[trigger] self.fragment_table_parts@[q].offset
                    + part_image(self.fragment_table_parts@[q]).len() <= usize::MAX,
            decreases self.fragment_table_parts@.len() - k,
        {
            let part = &self.fragment_table_parts[k];
            let enc = part.encode();
            backing.seek_to(part.offset);
            let ghost before = backing.bytes();
            let w = backing.write_bytes(enc.as_slice());
            if w.is_err() {
                return w;
            }
            proof {
                let ps = self.fragment_table_parts@.subrange(0, k + 1);
                assert(ps.drop_last() =~= self.fragment_table_parts@.subrange(0, k as int));
            }
            k = k + 1;
        }
        assert(self.fragment_table_parts@.subrange(0, k as int) =~= self.fragment_table_parts@);
        backing.seek_to(0);
        Ok(())
    }
}


impl crate::table::Storage for RWFragmentStoreIndex {
    fn read(source: &mut MemoryBacking) -> Result<RWFragmentStoreIndex> {
        RWFragmentStoreIndex::read(source)
    }

    fn write(&mut self, source: &mut MemoryBacking) -> Result<()> {
        RWFragmentStoreIndex::write(self, source)
    }
}

} // verus!
