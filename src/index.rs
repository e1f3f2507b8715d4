//! The in-memory image of a container: table chunks, free space and the end watermark.
use vstd::prelude::*;
use crate::error::{Error, FragmentError, IoErrorKind, Result};
use crate::table::{FragmentDescriptor, FragmentTablePart, DESCRIPTOR_SIZE, HEADER_SIZE, PART_HEADER_SIZE};
use crate::{FragmentID, Pointer, PAGE_SIZE};

verus! {

pub open spec fn aligned(x: int) -> bool {
    x % PAGE_SIZE as int == 0
}

/// The smallest multiple of the page size that is at least `x`.
pub open spec fn round_up(x: int) -> int {
    if x % PAGE_SIZE as int == 0 {
        x
    } else {
        x - x % PAGE_SIZE as int + PAGE_SIZE
    }
}

/// The largest multiple of the page size that is at most `x`.
pub open spec fn round_down(x: int) -> int {
    x - x % PAGE_SIZE as int
}

/// Rounds `x` up to a page boundary; `None` where that passes `u64::MAX`.
pub fn round_up_to_page(x: u64) -> (r: Option<u64>)
    ensures
        round_up(x as int) <= u64::MAX ==> r == Some(round_up(x as int) as u64),
        round_up(x as int) > u64::MAX ==> r is None,
        aligned(round_up(x as int)),
        round_up(x as int) >= x,
        round_up(x as int) < x + PAGE_SIZE,
{
    let rem = x % PAGE_SIZE;
    if rem == 0 {
        Some(x)
    } else if x - rem > u64::MAX - PAGE_SIZE {
        None
    } else {
        Some(x - rem + PAGE_SIZE)
    }
}

/// A reclaimed gap between extents: `size` bytes free from `ptr` on.
#[derive(Debug, Clone, Copy, PartialEq, Eq, Structural)]
pub struct FreeExtent {
    pub size: u64,
    pub ptr: Pointer,
}

/// Every descriptor of the chunks, chunk by chunk, in order.
pub open spec fn table_of(parts: Seq<FragmentTablePart>) -> Seq<FragmentDescriptor>
    decreases parts.len(),
{
    if parts.len() == 0 {
        Seq::empty()
    } else {
        table_of(parts.drop_last()) + parts.last().fragments@
    }
}

/// The extent of `d` is page-aligned, at least a page long, and addressable.
pub open spec fn extent_ok(d: FragmentDescriptor) -> bool {
    &&& aligned(d.offset as int)
    &&& aligned(d.length as int)
    &&& d.length >= PAGE_SIZE
    &&& d.offset + d.length <= u64::MAX
}

pub open spec fn disjoint(a: FragmentDescriptor, b: FragmentDescriptor) -> bool {
    a.offset + a.length <= b.offset || b.offset + b.length <= a.offset
}

/// `d` may join table `t`: its extent is sound and shares no byte with any other.
pub open spec fn fits(t: Seq<FragmentDescriptor>, d: FragmentDescriptor) -> bool {
    &&& extent_ok(d)
    &&& forall|i: int| 0 <= i < t.len() ==> disjoint(#[trigger] t[i], d)
}

pub open spec fn table_ok(t: Seq<FragmentDescriptor>) -> bool {
    &&& forall|i: int| 0 <= i < t.len() ==> extent_ok(#[trigger] t[i])
    &&& forall|i: int, j: int|
        0 <= i < t.len() && 0 <= j < t.len() && i != j ==> disjoint(#[trigger] t[i], #[trigger] t[j])
}

/// Gap `f` and the extent of `d` share no byte.
pub open spec fn apart(f: FreeExtent, d: FragmentDescriptor) -> bool {
    f.ptr + f.size <= d.offset || d.offset + d.length <= f.ptr
}

/// `d`'s extent shares no byte with the slots that chunk `p` reserves.
pub open spec fn chunk_apart(p: FragmentTablePart, d: FragmentDescriptor) -> bool {
    p.offset + p.extent_size() <= d.offset || d.offset + d.length <= p.offset
}

/// `d` may join table `t`, held in chunks `parts`, with free gaps `free` below watermark `end`:
/// its extent is sound, lies past the header and below the watermark, and meets no other
/// descriptor, no chunk and no free gap.
pub open spec fn admits_in(
    t: Seq<FragmentDescriptor>,
    parts: Seq<FragmentTablePart>,
    free: Seq<FreeExtent>,
    end: u64,
    d: FragmentDescriptor,
) -> bool {
    &&& fits(t, d)
    &&& HEADER_SIZE <= d.offset
    &&& d.offset + d.length <= end
    &&& forall|j: int| 0 <= j < parts.len() ==> chunk_apart(#[trigger] parts[j], d)
    &&& forall|k: int| 0 <= k < free.len() ==> apart(#[trigger] free[k], d)
}

/// `d` may join the table of `idx`.
pub open spec fn admits(idx: RWFragmentStoreIndex, d: FragmentDescriptor) -> bool {
    admits_in(idx.table(), idx.fragment_table_parts@, idx.free_space@, idx.end, d)
}

pub open spec fn free_ok(f: FreeExtent, end: int) -> bool {
    &&& aligned(f.ptr as int)
    &&& aligned(f.size as int)
    &&& f.size > 0
    &&& f.ptr + f.size <= end
}

/// Two gaps share no byte.
pub open spec fn gaps_apart(f: FreeExtent, g: FreeExtent) -> bool {
    f.ptr + f.size <= g.ptr || g.ptr + g.size <= f.ptr
}

/// The slots that two chunks reserve share no byte.
pub open spec fn chunks_apart(a: FragmentTablePart, b: FragmentTablePart) -> bool {
    a.offset + a.extent_size() <= b.offset || b.offset + b.extent_size() <= a.offset
}

/// Gap `f` shares no byte with the slots that any chunk of `parts` reserves.
pub open spec fn gap_clear(parts: Seq<FragmentTablePart>, f: FreeExtent) -> bool {
    forall|j: int|
        0 <= j < parts.len() ==> #[trigger] parts[j].offset + parts[j].extent_size() <= f.ptr
            || f.ptr + f.size <= parts[j].offset
}

/// Gap `f` can serve a request of `need` bytes: it is large enough and clear of every chunk.
pub open spec fn candidate(parts: Seq<FragmentTablePart>, f: FreeExtent, need: int) -> bool {
    f.size >= need && gap_clear(parts, f)
}

/// `free[b]` is the smallest gap that can serve `need` bytes, the first such one where several
/// tie.
pub open spec fn is_best_fit(free: Seq<FreeExtent>, parts: Seq<FragmentTablePart>, need: int, b: int) -> bool {
    &&& 0 <= b < free.len()
    &&& candidate(parts, free[b], need)
    &&& forall|k: int| 0 <= k < free.len() && candidate(parts, #[trigger] free[k], need) ==> free[k].size >= free[b].size
    &&& forall|k: int| 0 <= k < b && candidate(parts, #[trigger] free[k], need) ==> free[k].size > free[b].size
}

/// What `allocate_fragment(min_size)` does on `idx`: `r` is its result, `free` and `end` the
/// free space and watermark it leaves. The best-fitting gap clear of every chunk is taken
/// whole; without one, the rounded size is taken from the watermark on.
pub open spec fn allocation(
    idx: RWFragmentStoreIndex,
    min_size: u64,
    r: Result<(Pointer, u64)>,
    free: Seq<FreeExtent>,
    end: u64,
) -> bool {
    let need = round_up(min_size as int);
    let old_free = idx.free_space@;
    let parts = idx.fragment_table_parts@;
    if exists|k: int| 0 <= k < old_free.len() && candidate(parts, #[trigger] old_free[k], need) {
        exists|b: int|
            is_best_fit(old_free, parts, need, b) && r == Ok::<(Pointer, u64), Error>(
                (old_free[b].ptr, old_free[b].size),
            ) && free == old_free.remove(b) && end == idx.end
    } else if idx.end + need <= u64::MAX {
        &&& r == Ok::<(Pointer, u64), Error>((idx.end, need as u64))
        &&& end == idx.end + need
        &&& free == old_free
    } else {
        &&& r == Err::<(Pointer, u64), Error>(Error::Io(IoErrorKind::OutOfSpace))
        &&& end == idx.end
        &&& free == old_free
    }
}

/// At most one gap is the best fit, so `allocation` leaves one outcome.
pub proof fn lemma_best_fit_unique(free: Seq<FreeExtent>, parts: Seq<FragmentTablePart>, need: int, a: int, b: int)
    requires
        is_best_fit(free, parts, need, a),
        is_best_fit(free, parts, need, b),
    ensures
        a == b,
{
    if a < b {
        assert(free[a].size > free[b].size);
    } else if b < a {
        assert(free[b].size > free[a].size);
    }
}

/// `allocate_fragment(min_size)` fails on `idx`: no gap can serve it, and fresh pages at the
/// end watermark would pass `u64::MAX`.
pub open spec fn allocation_fails(idx: RWFragmentStoreIndex, min_size: u64) -> bool {
    let need = round_up(min_size as int);
    &&& forall|k: int| 0 <= k < idx.free_space@.len() ==> !candidate(idx.fragment_table_parts@, #[trigger] idx.free_space@[k], need)
    &&& idx.end + need > u64::MAX
}

/// An extent from `offset`, `length` bytes long, may be recorded in `idx` under any id.
pub open spec fn extent_admitted(idx: RWFragmentStoreIndex, offset: u64, length: u64) -> bool {
    admits(idx, FragmentDescriptor { id: 0, sequence: 0, offset, length })
}

/// Whether an extent may be recorded does not depend on the id or sequence it is recorded under.
pub proof fn lemma_extent_admitted(idx: RWFragmentStoreIndex, d: FragmentDescriptor)
    requires
        extent_admitted(idx, d.offset, d.length),
    ensures
        admits(idx, d),
{
    let z = FragmentDescriptor { id: 0, sequence: 0, offset: d.offset, length: d.length };
    let t = idx.table();
    assert forall|i: int| 0 <= i < t.len() implies disjoint(#[trigger] t[i], d) by {
        assert(disjoint(t[i], z));
    }
    assert forall|j: int| 0 <= j < idx.fragment_table_parts@.len() implies chunk_apart(#[trigger] idx.fragment_table_parts@[j], d) by {
        assert(chunk_apart(idx.fragment_table_parts@[j], z));
    }
    assert forall|k: int| 0 <= k < idx.free_space@.len() implies apart(#[trigger] idx.free_space@[k], d) by {
        assert(apart(idx.free_space@[k], z));
    }
}

/// How far one new table chunk can move the end watermark once `n` descriptors exist: at most
/// three times the page-rounded space they take, and a few pages more.
pub open spec fn growth_margin(n: int) -> int {
    96 * n + 0x5000
}

/// Bytes a new table chunk asks of the allocator, given the ceiling of the square root of the
/// page-rounded space the descriptors take: that root squared, and no less than a page.
pub open spec fn chunk_request(root: int) -> u64 {
    (if root * root >= PAGE_SIZE {
        root * root
    } else {
        PAGE_SIZE as int
    }) as u64
}

pub open spec fn is_ceil_sqrt(x: int, r: int) -> bool {
    &&& r >= 0
    &&& r * r >= x
    &&& (r == 0 || (r - 1) * (r - 1) < x)
}

/// The smallest `r` whose square is at least `x`.
pub fn ceil_sqrt(x: u64) -> (r: u64)
    requires
        x <= 0x1000_0000_0000_0000,
    ensures
        is_ceil_sqrt(x as int, r as int),
        r <= 0x8000_0000,
{
    let mut r: u64 = 0;
    loop
        invariant
            r <= 0x8000_0000,
            r == 0 || (r - 1) * (r - 1) < x,
            x <= 0x1000_0000_0000_0000,
        ensures
            r <= 0x8000_0000,
            r * r >= x,
            r == 0 || (r - 1) * (r - 1) < x,
        decreases 0x8000_0000 - r,
    {
        assert(r * r <= 0x4000_0000_0000_0000) by (nonlinear_arith)
            requires
                r <= 0x8000_0000,
        ;
        if r * r >= x {
            break;
        }
        assert(r < 0x4000_0000) by (nonlinear_arith)
            requires
                r * r < x,
                x <= 0x1000_0000_0000_0000,
        ;
        r = r + 1;
    }
    r
}

/// The in-memory image of a container.
#[derive(Debug)]
pub struct RWFragmentStoreIndex {
    pub version: u32,
    pub root_fragment: FragmentID,
    pub fragment_table_offset: Pointer,
    pub fragment_table_parts: Vec<FragmentTablePart>,
    /// Reclaimed gaps, each a size and a pointer.
    pub free_space: Vec<FreeExtent>,
    /// Page-aligned watermark past every occupied byte.
    pub end: Pointer,
}

impl RWFragmentStoreIndex {
    pub open spec fn table(&self) -> Seq<FragmentDescriptor> {
        table_of(self.fragment_table_parts@)
    }

    /// The chunks form the chain the header starts: the first sits at the table offset, each
    /// continuation names the next chunk, and only the last continuation is zero.
    pub open spec fn chained(&self) -> bool {
        let ps = self.fragment_table_parts@;
        &&& ps.len() >= 1
        &&& ps[0].offset == self.fragment_table_offset
        &&& forall|j: int| 0 <= j < ps.len() - 1 ==> (#[trigger] ps[j]).continuation == ps[j + 1].offset
            && ps[j].continuation != 0
        &&& ps[ps.len() - 1].continuation == 0
    }

    pub open spec fn wf(&self) -> bool {
        &&& self.fragment_table_parts@.len() >= 1
        &&& forall|i: int|
            0 <= i < self.fragment_table_parts@.len() ==> (#[trigger] self.fragment_table_parts@[i]).wf()
        &&& table_ok(self.table())
        &&& aligned(self.end as int)
        &&& forall|i: int|
            0 <= i < self.table().len() ==> #[trigger] self.table()[i].offset
                + self.table()[i].length <= self.end
        &&& forall|i: int|
            0 <= i < self.free_space@.len() ==> free_ok(#[trigger] self.free_space@[i], self.end as int)
        &&& forall|k: int, i: int|
            0 <= k < self.free_space@.len() && 0 <= i < self.table().len() ==> apart(
                #[trigger] self.free_space@[k],
                #[trigger] self.table()[i],
            )
        &&& forall|j: int|
            0 <= j < self.fragment_table_parts@.len() ==> #[trigger] self.fragment_table_parts@[j].offset
                + self.fragment_table_parts@[j].extent_size() <= self.end
        &&& forall|i: int| 0 <= i < self.table().len() ==> HEADER_SIZE <= #[trigger] self.table()[i].offset
        &&& forall|k: int| 0 <= k < self.free_space@.len() ==> HEADER_SIZE <= #[trigger] self.free_space@[k].ptr
        &&& self.chained()
        &&& forall|j: int| 0 <= j < self.fragment_table_parts@.len() ==> HEADER_SIZE <= #[trigger] self.fragment_table_parts@[j].offset
        &&& forall|j1: int, j2: int|
            0 <= j1 < self.fragment_table_parts@.len() && 0 <= j2 < self.fragment_table_parts@.len() && j1 != j2
                ==> chunks_apart(#[trigger] self.fragment_table_parts@[j1], #[trigger] self.fragment_table_parts@[j2])
        &&& forall|k1: int, k2: int|
            0 <= k1 < self.free_space@.len() && 0 <= k2 < self.free_space@.len() && k1 != k2 ==> gaps_apart(
                #[trigger] self.free_space@[k1],
                #[trigger] self.free_space@[k2],
            )
        &&& forall|j: int, i: int|
            0 <= j < self.fragment_table_parts@.len() && 0 <= i < self.table().len() ==> chunk_apart(
                #[trigger] self.fragment_table_parts@[j],
                #[trigger] self.table()[i],
            )
    }

    /// Whether gap `f` shares no byte with the slots any chunk reserves.
    pub fn gap_is_clear(&self, f: FreeExtent) -> (r: bool)
        requires
            forall|q: int| 0 <= q < self.fragment_table_parts@.len() ==> (#[trigger] self.fragment_table_parts@[q]).wf(),
        ensures
            r == gap_clear(self.fragment_table_parts@, f),
    {
        let mut j: usize = 0;
        while j < self.fragment_table_parts.len()
            invariant
                j <= self.fragment_table_parts@.len(),
                forall|q: int| 0 <= q < self.fragment_table_parts@.len() ==> (#[trigger] self.fragment_table_parts@[q]).wf(),
                forall|q: int|
                    0 <= q < j ==> #[trigger] self.fragment_table_parts@[q].offset
                        + self.fragment_table_parts@[q].extent_size() <= f.ptr || f.ptr + f.size
                        <= self.fragment_table_parts@[q].offset,
            decreases self.fragment_table_parts@.len() - j,
        {
            let p = &self.fragment_table_parts[j];
            let reserved = PART_HEADER_SIZE + DESCRIPTOR_SIZE * p.capacity;
            let clear = (p.offset <= f.ptr && reserved <= f.ptr - p.offset) || (f.size <= p.offset
                && f.ptr <= p.offset - f.size);
            if !clear {
                return false;
            }
            j = j + 1;
        }
        true
    }

    /// Reserves an extent of at least `min_size` bytes: the best-fitting reclaimed gap that is
    /// clear of every table chunk, taken whole, else fresh pages at the end watermark. What it
    /// grants for a nonzero request may be recorded in the index it leaves.
    #[verifier::rlimit(100)]
    pub fn allocate_fragment(&mut self, min_size: u64) -> (r: Result<(Pointer, u64)>)
        requires
            old(self).wf(),
        ensures
            final(self).wf(),
            final(self).fragment_table_parts@ == old(self).fragment_table_parts@,
            final(self).version == old(self).version,
            final(self).root_fragment == old(self).root_fragment,
            final(self).fragment_table_offset == old(self).fragment_table_offset,
            final(self).end >= old(self).end,
            allocation(*old(self), min_size, r, final(self).free_space@, final(self).end),
            r matches Ok((p, s)) ==> aligned(p as int) && aligned(s as int) && s >= round_up(
                min_size as int,
            ) && p + s <= final(self).end,
            r matches Ok((p, s)) ==> forall|i: int|
                0 <= i < old(self).table().len() ==> #[trigger] old(self).table()[i].offset
                    + old(self).table()[i].length <= p || p + s <= old(self).table()[i].offset,
            forall|k: int|
                0 <= k < final(self).free_space@.len() ==> old(self).free_space@.contains(
                    #[trigger] final(self).free_space@[k],
                ),
            min_size > 0 ==> (r matches Ok((p, s)) ==> extent_admitted(*final(self), p, s)),
    {
        let ghost need_i = round_up(min_size as int);
        let ghost free = self.free_space@;
        let ghost parts = self.fragment_table_parts@;
        let need_opt = round_up_to_page(min_size);
        let mut best: Option<usize> = None;
        let mut i: usize = 0;
        while i < self.free_space.len()
            invariant
                i <= self.free_space@.len(),
                self.free_space@ == free,
                need_opt is Some ==> need_i == need_opt->Some_0,
                need_opt is None ==> need_i > u64::MAX,
                self.fragment_table_parts@ == parts,
                forall|q: int| 0 <= q < parts.len() ==> (#[trigger] parts[q]).wf(),
                best matches Some(b) ==> b < i && candidate(parts, free[b as int], need_i) && (forall|k: int|
                    0 <= k < i && candidate(parts, #[trigger] free[k], need_i) ==> free[k].size >= free[b as int].size)
                    && (forall|k: int| 0 <= k < b && candidate(parts, #[trigger] free[k], need_i) ==> free[k].size > free[b as int].size),
                best is None ==> forall|k: int| 0 <= k < i ==> !candidate(parts, #[trigger] free[k], need_i),
            decreases self.free_space@.len() - i,
        {
            let size = self.free_space[i].size;
            let fits_here = match need_opt {
                Some(need) => size >= need && self.gap_is_clear(self.free_space[i]),
                None => false,
            };
            if fits_here {
                match best {
                    Some(b) => {
                        if size < self.free_space[b].size {
                            best = Some(i);
                        }
                    },
                    None => {
                        best = Some(i);
                    },
                }
            }
            i = i + 1;
        }
        match best {
            Some(b) => {
                let ghost pre = *old(self);
                let f = self.free_space.remove(b);
                assert(is_best_fit(free, parts, need_i, b as int));
                proof {
                    lemma_take_gap(pre, *self, b as int, need_i);
                }
                Ok((f.ptr, f.size))
            },
            None => {
                match need_opt {
                    Some(need) => {
                        if self.end > u64::MAX - need {
                            Err(Error::Io(IoErrorKind::OutOfSpace))
                        } else {
                            let ghost pre = *old(self);
                            let ptr = self.end;
                            self.end = self.end + need;
                            proof {
                                lemma_take_end(pre, *self, need);
                            }
                            Ok((ptr, need))
                        }
                    },
                    None => Err(Error::Io(IoErrorKind::OutOfSpace)),
                }
            },
        }
    }
}


pub proof fn lemma_table_of_push(parts: Seq<FragmentTablePart>, p: FragmentTablePart)
    ensures
        table_of(parts.push(p)) == table_of(parts) + p.fragments@,
{
    assert(parts.push(p).drop_last() =~= parts);
}

pub proof fn lemma_table_of_prefix(parts: Seq<FragmentTablePart>, i: int)
    requires
        0 <= i < parts.len(),
    ensures
        table_of(parts.subrange(0, i + 1)) == table_of(parts.subrange(0, i)) + parts[i].fragments@,
{
    assert(parts.subrange(0, i + 1).drop_last() =~= parts.subrange(0, i));
}

pub proof fn lemma_table_ok_push(t: Seq<FragmentDescriptor>, d: FragmentDescriptor)
    requires
        table_ok(t),
        fits(t, d),
    ensures
        table_ok(t.push(d)),
{
    let u = t.push(d);
    assert forall|i: int| 0 <= i < u.len() implies extent_ok(#[trigger] u[i]) by {
        if i < t.len() {
            assert(u[i] == t[i]);
        }
    }
    assert forall|i: int, j: int|
        0 <= i < u.len() && 0 <= j < u.len() && i != j implies disjoint(
        #[trigger] u[i],
        #[trigger] u[j],
    ) by {
        if i < t.len() && j < t.len() {
            assert(u[i] == t[i] && u[j] == t[j]);
        } else if i < t.len() {
            assert(u[i] == t[i] && u[j] == d);
            assert(disjoint(t[i], d));
        } else {
            assert(u[j] == t[j] && u[i] == d);
            assert(disjoint(t[j], d));
        }
    }
}

impl RWFragmentStoreIndex {
    /// Every descriptor of the table, chunk by chunk.
    pub fn fragment_table(&self) -> (r: Vec<FragmentDescriptor>)
        ensures
            r@ == self.table(),
    {
        let mut out: Vec<FragmentDescriptor> = Vec::new();
        let mut i: usize = 0;
        while i < self.fragment_table_parts.len()
            invariant
                i <= self.fragment_table_parts@.len(),
                out@ == table_of(self.fragment_table_parts@.subrange(0, i as int)),
            decreases self.fragment_table_parts@.len() - i,
        {
            let part = &self.fragment_table_parts[i];
            let ghost head = out@;
            let mut j: usize = 0;
            while j < part.fragments.len()
                invariant
                    j <= part.fragments@.len(),
                    out@ == head + part.fragments@.subrange(0, j as int),
                decreases part.fragments@.len() - j,
            {
                out.push(part.fragments[j]);
                j = j + 1;
                assert(out@ =~= head + part.fragments@.subrange(0, j as int));
            }
            assert(part.fragments@.subrange(0, j as int) =~= part.fragments@);
            proof {
                lemma_table_of_prefix(self.fragment_table_parts@, i as int);
            }
            i = i + 1;
        }
        assert(self.fragment_table_parts@.subrange(0, i as int) =~= self.fragment_table_parts@);
        out
    }

    /// Same as `fragment_table`, by mutable access.
    pub fn fragment_table_mut(&mut self) -> (r: Vec<FragmentDescriptor>)
        ensures
            r@ == old(self).table(),
            *final(self) == *old(self),
    {
        self.fragment_table()
    }

    /// Whether `d` may join the table.
    pub fn fits_descriptor(&self, d: &FragmentDescriptor) -> (r: bool)
        requires
            self.wf(),
        ensures
            r == admits(*self, *d),
    {
        if d.offset % PAGE_SIZE != 0 || d.length % PAGE_SIZE != 0 || d.length < PAGE_SIZE
            || d.offset > u64::MAX - d.length {
            return false;
        }
        let t = self.fragment_table();
        let mut i: usize = 0;
        while i < t.len()
            invariant
                i <= t@.len(),
                t@ == self.table(),
                extent_ok(*d),
                forall|k: int| 0 <= k < i ==> disjoint(#[trigger] t@[k], *d),
            decreases t@.len() - i,
        {
            let e = t[i];
            let apart = (e.offset <= d.offset && e.length <= d.offset - e.offset) || d.offset
                + d.length <= e.offset;
            if !apart {
                return false;
            }
            i = i + 1;
        }
        if d.offset < HEADER_SIZE || d.offset + d.length > self.end {
            return false;
        }
        let mut j: usize = 0;
        while j < self.fragment_table_parts.len()
            invariant
                j <= self.fragment_table_parts@.len(),
                fits(self.table(), *d),
                forall|q: int| 0 <= q < self.fragment_table_parts@.len() ==> (#[trigger] self.fragment_table_parts@[q]).wf(),
                forall|q: int| 0 <= q < j ==> chunk_apart(#[trigger] self.fragment_table_parts@[q], *d),
            decreases self.fragment_table_parts@.len() - j,
        {
            let p = &self.fragment_table_parts[j];
            let reserved = PART_HEADER_SIZE + DESCRIPTOR_SIZE * p.capacity;
            let clear = (p.offset <= d.offset && reserved <= d.offset - p.offset) || d.offset
                + d.length <= p.offset;
            if !clear {
                return false;
            }
            j = j + 1;
        }
        let mut k: usize = 0;
        while k < self.free_space.len()
            invariant
                k <= self.free_space@.len(),
                fits(self.table(), *d),
                HEADER_SIZE <= d.offset,
                d.offset + d.length <= self.end,
                forall|q: int| 0 <= q < self.fragment_table_parts@.len() ==> chunk_apart(#[trigger] self.fragment_table_parts@[q], *d),
                forall|q: int| 0 <= q < k ==> apart(#[trigger] self.free_space@[q], *d),
            decreases self.free_space@.len() - k,
        {
            let f = self.free_space[k];
            let clear = (f.ptr <= d.offset && f.size <= d.offset - f.ptr) || d.offset + d.length
                <= f.ptr;
            if !clear {
                return false;
            }
            k = k + 1;
        }
        true
    }
}


impl RWFragmentStoreIndex {
    /// Replaces the continuation pointer of the last chunk.
    fn set_last_continuation(&mut self, ptr: Pointer)
        requires
            old(self).fragment_table_parts@.len() >= 1,
        ensures
            final(self).table() == old(self).table(),
            final(self).fragment_table_parts@.len() == old(self).fragment_table_parts@.len(),
            forall|i: int|
                0 <= i < old(self).fragment_table_parts@.len() ==> (#[trigger] final(self).fragment_table_parts@[i]).wf()
                    == old(self).fragment_table_parts@[i].wf(),
            final(self).fragment_table_parts@.last().continuation == ptr,
            final(self).fragment_table_parts@.last().offset == old(self).fragment_table_parts@.last().offset,
            final(self).fragment_table_parts@.last().capacity == old(self).fragment_table_parts@.last().capacity,
            final(self).fragment_table_parts@.last().fragments@ == old(self).fragment_table_parts@.last().fragments@,
            forall|i: int|
                0 <= i < old(self).fragment_table_parts@.len() - 1 ==> #[trigger] final(self).fragment_table_parts@[i]
                    == old(self).fragment_table_parts@[i],
            final(self).version == old(self).version,
            final(self).root_fragment == old(self).root_fragment,
            final(self).fragment_table_offset == old(self).fragment_table_offset,
            final(self).free_space@ == old(self).free_space@,
            final(self).end == old(self).end,
    {
        let ghost parts = self.fragment_table_parts@;
        let mut last = self.fragment_table_parts.pop().unwrap();
        last.continuation = ptr;
        self.fragment_table_parts.push(last);
        proof {
            assert(parts =~= parts.drop_last().push(parts.last()));
            lemma_table_of_push(parts.drop_last(), parts.last());
            lemma_table_of_push(parts.drop_last(), last);
            assert forall|i: int| 0 <= i < parts.len() - 1 implies #[trigger] self.fragment_table_parts@[i] == parts[i] by {}
            assert forall|i: int| 0 <= i < parts.len() implies (
            #[trigger] self.fragment_table_parts@[i]).wf() == parts[i].wf() by {
                if i < parts.len() - 1 {
                    assert(self.fragment_table_parts@[i] == parts[i]);
                }
            }
        }
    }

    /// Appends `d` to the last chunk, which has room for it.
    fn push_into_last(&mut self, d: FragmentDescriptor)
        requires
            old(self).fragment_table_parts@.len() >= 1,
            old(self).fragment_table_parts@.last().fragments@.len()
                < old(self).fragment_table_parts@.last().capacity,
            forall|i: int|
                0 <= i < old(self).fragment_table_parts@.len() ==> (#[trigger] old(self).fragment_table_parts@[i]).wf(),
        ensures
            final(self).table() == old(self).table().push(d),
            final(self).fragment_table_parts@.len() == old(self).fragment_table_parts@.len(),
            final(self).fragment_table_parts@.last().continuation == old(self).fragment_table_parts@.last().continuation,
            final(self).fragment_table_parts@.last().fragments@ == old(self).fragment_table_parts@.last().fragments@.push(d),
            final(self).fragment_table_parts@.last().offset == old(self).fragment_table_parts@.last().offset,
            final(self).fragment_table_parts@.last().capacity == old(self).fragment_table_parts@.last().capacity,
            forall|i: int|
                0 <= i < old(self).fragment_table_parts@.len() - 1 ==> #[trigger] final(self).fragment_table_parts@[i]
                    == old(self).fragment_table_parts@[i],
            forall|i: int|
                0 <= i < final(self).fragment_table_parts@.len() ==> (#[trigger] final(self).fragment_table_parts@[i]).wf(),
            final(self).version == old(self).version,
            final(self).root_fragment == old(self).root_fragment,
            final(self).fragment_table_offset == old(self).fragment_table_offset,
            final(self).free_space@ == old(self).free_space@,
            final(self).end == old(self).end,
    {
        let ghost parts = self.fragment_table_parts@;
        let mut last = self.fragment_table_parts.pop().unwrap();
        last.fragments.push(d);
        self.fragment_table_parts.push(last);
        proof {
            assert(parts =~= parts.drop_last().push(parts.last()));
            lemma_table_of_push(parts.drop_last(), parts.last());
            lemma_table_of_push(parts.drop_last(), last);
            assert(table_of(self.fragment_table_parts@) =~= table_of(parts).push(d));
            assert(parts.last().wf());
            assert forall|i: int| 0 <= i < parts.len() - 1 implies #[trigger] self.fragment_table_parts@[i] == parts[i] by {}
            assert forall|i: int| 0 <= i < self.fragment_table_parts@.len() implies (
            #[trigger] self.fragment_table_parts@[i]).wf() by {
                if i < parts.len() - 1 {
                    assert(self.fragment_table_parts@[i] == parts[i]);
                }
            }
        }
    }

    /// Opens a new, empty chunk at the end of the table, its extent taken from the allocator
    /// and linked from the chunk before it.
    #[verifier::rlimit(100)]
    fn mk_fragment_table_part(&mut self) -> (r: Result<()>)
        requires
            old(self).wf(),
        ensures
            final(self).wf(),
            final(self).table() == old(self).table(),
            final(self).version == old(self).version,
            final(self).root_fragment == old(self).root_fragment,
            final(self).fragment_table_offset == old(self).fragment_table_offset,
            r is Ok ==> final(self).fragment_table_parts@.len() == old(
                self,
            ).fragment_table_parts@.len() + 1 && final(self).fragment_table_parts@.last().fragments@.len()
                == 0 && final(self).fragment_table_parts@.last().capacity >= 1
                && final(self).fragment_table_parts@.last().continuation == 0,
            r is Ok ==> ({
                let n = old(self).fragment_table_parts@.len() as int;
                let ps = final(self).fragment_table_parts@;
                &&& ps[n - 1].continuation == ps[n].offset
                &&& ps[n - 1].offset == old(self).fragment_table_parts@[n - 1].offset
                &&& ps[n - 1].capacity == old(self).fragment_table_parts@[n - 1].capacity
                &&& ps[n - 1].fragments@ == old(self).fragment_table_parts@[n - 1].fragments@
                &&& forall|i: int| 0 <= i < n - 1 ==> #[trigger] ps[i] == old(self).fragment_table_parts@[i]
            }),
            r is Ok ==> exists|root: int, g: u64|
                is_ceil_sqrt(round_up(32 * (old(self).table().len() as int)), root) && #[trigger] allocation(
                    *old(self),
                    chunk_request(root),
                    Ok((final(self).fragment_table_parts@.last().offset, g)),
                    final(self).free_space@,
                    final(self).end,
                ) && final(self).fragment_table_parts@.last().capacity == (g - PART_HEADER_SIZE) as u64 / DESCRIPTOR_SIZE,
            r is Ok ==> (final(self).fragment_table_parts@.last().offset >= old(self).end || exists|k: int|
                0 <= k < old(self).free_space@.len() && #[trigger] old(self).free_space@[k].ptr
                    == final(self).fragment_table_parts@.last().offset
                    && final(self).fragment_table_parts@.last().extent_size() <= old(self).free_space@[k].size),
            r is Err ==> final(self).fragment_table_parts@ == old(self).fragment_table_parts@
                && final(self).free_space@ == old(self).free_space@ && final(self).end == old(self).end,
            final(self).end <= old(self).end + growth_margin(old(self).table().len() as int),
            r is Err ==> r == Err::<(), Error>(
                Error::Fragment(FragmentError::FailedToCreateNewFragmentTablePart),
            ),
            old(self).table().len() <= 0x80_0000_0000_0000 && old(self).end + growth_margin(
                old(self).table().len() as int,
            ) <= u64::MAX ==> r is Ok,
            forall|k: int|
                0 <= k < final(self).free_space@.len() ==> old(self).free_space@.contains(
                    #[trigger] final(self).free_space@[k],
                ),
    {
        let n = self.fragment_table().len();
        if n as u64 > 0x80_0000_0000_0000u64 {
            return Err(Error::Fragment(FragmentError::FailedToCreateNewFragmentTablePart));
        }
        let consumed = (n as u64) * DESCRIPTOR_SIZE;
        let rounded = match round_up_to_page(consumed) {
            Some(v) => v,
            None => {
                return Err(Error::Fragment(FragmentError::FailedToCreateNewFragmentTablePart));
            },
        };
        let root = ceil_sqrt(rounded);
        assert(root <= 0x4000_0000) by (nonlinear_arith)
            requires
                root == 0 || (root - 1) * (root - 1) < rounded,
                rounded <= 0x1000_0000_0000_0000,
        ;
        assert(root * root <= 0x1000_0000_0000_0000) by (nonlinear_arith)
            requires
                root <= 0x4000_0000,
        ;
        assert(root * root <= 3 * rounded) by (nonlinear_arith)
            requires
                root == 0 || (root - 1) * (root - 1) < rounded,
                root >= 0,
        {
            if root > 0 {
                assert((root - 1) <= (root - 1) * (root - 1));
            }
        }
        let square = root * root;
        let request = if square >= PAGE_SIZE {
            square
        } else {
            PAGE_SIZE
        };
        let (ptr, size) = match self.allocate_fragment(request) {
            Ok(v) => v,
            Err(_) => {
                return Err(Error::Fragment(FragmentError::FailedToCreateNewFragmentTablePart));
            },
        };
        assert(size >= PAGE_SIZE);
        let capacity = (size - PART_HEADER_SIZE) / DESCRIPTOR_SIZE;
        assert(capacity >= 1);
        let ghost mid_end = self.end;
        let ghost pre = self.fragment_table_parts@;
        self.set_last_continuation(ptr);
        let ghost parts = self.fragment_table_parts@;
        let part = FragmentTablePart {
            offset: ptr,
            continuation: 0,
            capacity,
            fragments: Vec::new(),
        };
        self.fragment_table_parts.push(part);
        proof {
            lemma_table_of_push(parts, part);
            assert(self.table() =~= old(self).table());
            assert(self.fragment_table_parts@.last() == part);
            assert(part.fragments@.len() == 0);
            assert forall|i: int| 0 <= i < self.fragment_table_parts@.len() implies (
            #[trigger] self.fragment_table_parts@[i]).wf() by {
                if i < parts.len() {
                    assert(self.fragment_table_parts@[i] == parts[i]);
                }
            }
            let ps = self.fragment_table_parts@;
            let t = self.table();
            assert(part.extent_size() <= size);
            assert forall|j: int| 0 <= j < ps.len() implies #[trigger] ps[j].offset + ps[j].extent_size() <= self.end by {
                if j < pre.len() - 1 {
                    assert(ps[j] == pre[j]);
                } else if j == pre.len() - 1 {
                    assert(ps[j] == parts[j]);
                }
            }
            assert forall|j: int, i: int| 0 <= j < ps.len() && 0 <= i < t.len() implies chunk_apart(
                #[trigger] ps[j],
                #[trigger] t[i],
            ) by {
                if j < pre.len() - 1 {
                    assert(ps[j] == pre[j]);
                } else if j == pre.len() - 1 {
                    assert(ps[j] == parts[j]);
                } else {
                    assert(ps[j] == part);
                    assert(old(self).table()[i] == t[i]);
                }
            }
            assert(forall|i: int| 0 <= i < pre.len() - 1 ==> #[trigger] ps[i] == old(self).fragment_table_parts@[i]);
            assert(ps[pre.len() - 1] == parts[pre.len() - 1]);
            let need = round_up(request as int);
            if exists|k: int| 0 <= k < old(self).free_space@.len() && candidate(old(self).fragment_table_parts@, #[trigger] old(self).free_space@[k], need) {
                let b = choose|b: int|
                    is_best_fit(old(self).free_space@, old(self).fragment_table_parts@, need, b) && Ok::<(Pointer, u64), Error>((ptr, size)) == Ok::<(Pointer, u64), Error>(
                        (old(self).free_space@[b].ptr, old(self).free_space@[b].size),
                    );
                assert(old(self).free_space@[b].ptr == ptr);
            }
            assert(is_ceil_sqrt(round_up(32 * (old(self).table().len() as int)), root as int));
            assert(chunk_request(root as int) == request);
            assert(allocation(*old(self), chunk_request(root as int), Ok((ptr, size)), self.free_space@, self.end));
            assert(ps.last().offset == ptr && ps.last().capacity == (size - PART_HEADER_SIZE) as u64 / DESCRIPTOR_SIZE);
            assert(is_ceil_sqrt(round_up(32 * (old(self).table().len() as int)), root as int) && allocation(
                *old(self),
                chunk_request(root as int),
                Ok((ps.last().offset, size)),
                self.free_space@,
                self.end,
            ) && ps.last().capacity == (size - PART_HEADER_SIZE) as u64 / DESCRIPTOR_SIZE);
        }
        Ok(())
    }

    /// Records `d` at the end of the table, opening a new chunk when the last one is full.
    /// A descriptor whose extent is unaligned, shorter than a page, reaches into the header or
    /// past the end watermark, or shares a byte with another descriptor, a table chunk or a free
    /// gap is refused.
    #[verifier::rlimit(100)]
    pub fn push_fragment_descriptor(&mut self, d: FragmentDescriptor) -> (r: Result<()>)
        requires
            old(self).wf(),
        ensures
            final(self).wf(),
            final(self).version == old(self).version,
            final(self).root_fragment == old(self).root_fragment,
            final(self).fragment_table_offset == old(self).fragment_table_offset,
            !admits(*old(self), d) ==> r == Err::<(), Error>(
                Error::Fragment(FragmentError::InvalidFragmentTable),
            ) && final(self).table() == old(self).table(),
            admits(*old(self), d) ==> (r is Ok && final(self).table() == old(self).table().push(d))
                || (r == Err::<(), Error>(
                Error::Fragment(FragmentError::FailedToCreateNewFragmentTablePart),
            ) && final(self).table() == old(self).table()),
            admits(*old(self), d) && old(self).table().len() <= 0x80_0000_0000_0000
                && old(self).end + growth_margin(old(self).table().len() as int) <= u64::MAX ==> r is Ok,
            r is Ok ==> ({
                let n = old(self).fragment_table_parts@.len() as int;
                let ps = final(self).fragment_table_parts@;
                if old(self).fragment_table_parts@[n - 1].fragments@.len() < old(
                    self,
                ).fragment_table_parts@[n - 1].capacity {
                    ps.len() == n && final(self).end == old(self).end
                        && final(self).free_space@ == old(self).free_space@
                } else {
                    &&& ps.len() == n + 1
                    &&& ps[n - 1].continuation == ps[n].offset
                    &&& ps[n].continuation == 0
                    &&& ps[n].fragments@ == seq![d]
                }
            }),
            final(self).end <= old(self).end + growth_margin(old(self).table().len() as int),
    {
        if !self.fits_descriptor(&d) {
            return Err(Error::Fragment(FragmentError::InvalidFragmentTable));
        }
        let last = self.fragment_table_parts.len() - 1;
        if self.fragment_table_parts[last].len() as u64 >= self.fragment_table_parts[last].cap() {
            let made = self.mk_fragment_table_part();
            if made.is_err() {
                return made;
            }
        }
        assert(self.wf());
        let ghost before = self.table();
        let ghost mid_end = self.end;
        let ghost mid_free = self.free_space@;
        assert forall|k: int| 0 <= k < mid_free.len() implies apart(#[trigger] mid_free[k], d) by {
            assert(old(self).free_space@.contains(mid_free[k]));
            let j = choose|j: int| 0 <= j < old(self).free_space@.len() && old(self).free_space@[j] == mid_free[k];
            assert(apart(old(self).free_space@[j], d));
        }
        let ghost mid_parts = self.fragment_table_parts@;
        self.push_into_last(d);
        proof {
            if mid_parts.len() > old(self).fragment_table_parts@.len() {
                assert(self.fragment_table_parts@.last().fragments@ =~= seq![d]);
            }
            lemma_table_ok_push(before, d);
            let t = self.table();
            assert forall|i: int| 0 <= i < t.len() implies #[trigger] t[i].offset + t[i].length
                <= self.end by {
                if i < before.len() {
                    assert(t[i] == before[i]);
                }
            }
            assert(aligned((d.offset + d.length) as int)) by {
                assert(aligned(d.offset as int) && aligned(d.length as int));
            }
            assert forall|i: int| 0 <= i < self.free_space@.len() implies free_ok(
                #[trigger] self.free_space@[i],
                self.end as int,
            ) by {
                assert(free_ok(self.free_space@[i], mid_end as int));
            }
            assert forall|k: int, i: int|
                0 <= k < self.free_space@.len() && 0 <= i < t.len() implies apart(
                #[trigger] self.free_space@[k],
                #[trigger] t[i],
            ) by {
                if i < before.len() {
                    assert(t[i] == before[i]);
                } else {
                    assert(t[i] == d);
                    assert(apart(mid_free[k], d));
                }
            }
        }
        Ok(())
    }
}


impl RWFragmentStoreIndex {
    /// Moves the end watermark up to `e`, where it is below.
    pub fn raise_end(&mut self, e: u64)
        requires
            old(self).wf(),
            aligned(e as int),
        ensures
            final(self).wf(),
            final(self).end == if e > old(self).end {
                e
            } else {
                old(self).end
            },
            final(self).fragment_table_parts@ == old(self).fragment_table_parts@,
            final(self).free_space@ == old(self).free_space@,
            final(self).version == old(self).version,
            final(self).root_fragment == old(self).root_fragment,
            final(self).fragment_table_offset == old(self).fragment_table_offset,
    {
        if e > self.end {
            self.end = e;
        }
        proof {
            assert forall|i: int| 0 <= i < self.free_space@.len() implies free_ok(
                #[trigger] self.free_space@[i],
                self.end as int,
            ) by {
                assert(free_ok(old(self).free_space@[i], old(self).end as int));
            }
            assert forall|i: int| 0 <= i < self.table().len() implies #[trigger] self.table()[i].offset
                + self.table()[i].length <= self.end by {
                assert(old(self).table()[i].offset + old(self).table()[i].length <= old(self).end);
            }
        }
    }
}

/// Pages from `p` on, at or past the watermark of a well-formed index, may be recorded once
/// the watermark covers them.
pub proof fn lemma_admitted_past_end(old: RWFragmentStoreIndex, new: RWFragmentStoreIndex, p: u64, len: u64)
    requires
        old.wf(),
        new.fragment_table_parts@ == old.fragment_table_parts@,
        new.free_space@ == old.free_space@,
        old.end <= p,
        p + len <= new.end,
        aligned(p as int),
        aligned(len as int),
        len >= PAGE_SIZE,
    ensures
        extent_admitted(new, p, len),
{
    let z = FragmentDescriptor { id: 0, sequence: 0, offset: p, length: len };
    let parts = old.fragment_table_parts@;
    let t = new.table();
    assert(parts[0].offset + parts[0].extent_size() <= old.end);
    assert forall|q: int| 0 <= q < t.len() implies disjoint(#[trigger] t[q], z) by {
        assert(old.table()[q].offset + old.table()[q].length <= old.end);
    }
    assert forall|q: int| 0 <= q < new.free_space@.len() implies apart(#[trigger] new.free_space@[q], z) by {
        assert(free_ok(old.free_space@[q], old.end as int));
    }
    assert forall|q: int| 0 <= q < parts.len() implies chunk_apart(#[trigger] parts[q], z) by {
        assert(parts[q].offset + parts[q].extent_size() <= old.end);
    }
}

/// An admitted extent that ends at the watermark stays admitted when it grows into pages past
/// the watermark, once the watermark covers them.
pub proof fn lemma_admitted_extend(old: RWFragmentStoreIndex, new: RWFragmentStoreIndex, p: u64, l1: u64, l2: u64)
    requires
        old.wf(),
        new.fragment_table_parts@ == old.fragment_table_parts@,
        new.free_space@ == old.free_space@,
        extent_admitted(old, p, l1),
        old.end == p + l1,
        l1 <= l2,
        aligned(l2 as int),
        p + l2 <= new.end,
    ensures
        extent_admitted(new, p, l2),
{
    let z1 = FragmentDescriptor { id: 0, sequence: 0, offset: p, length: l1 };
    let z = FragmentDescriptor { id: 0, sequence: 0, offset: p, length: l2 };
    let parts = old.fragment_table_parts@;
    let t = new.table();
    assert forall|q: int| 0 <= q < t.len() implies disjoint(#[trigger] t[q], z) by {
        assert(disjoint(old.table()[q], z1));
        assert(extent_ok(old.table()[q]));
        assert(old.table()[q].offset + old.table()[q].length <= old.end);
    }
    assert forall|q: int| 0 <= q < new.free_space@.len() implies apart(#[trigger] new.free_space@[q], z) by {
        assert(apart(old.free_space@[q], z1));
        assert(free_ok(old.free_space@[q], old.end as int));
    }
    assert forall|q: int| 0 <= q < parts.len() implies chunk_apart(#[trigger] parts[q], z) by {
        assert(chunk_apart(parts[q], z1));
        assert(parts[q].offset + parts[q].extent_size() <= old.end);
    }
}

/// Taking gap `b`, which can serve `need` bytes, out of a well-formed index keeps it
/// well-formed, and what the gap held may then be recorded when it is at least a page.
pub proof fn lemma_take_gap(old: RWFragmentStoreIndex, new: RWFragmentStoreIndex, b: int, need: int)
    requires
        old.wf(),
        0 <= b < old.free_space@.len(),
        candidate(old.fragment_table_parts@, old.free_space@[b], need),
        new.fragment_table_parts@ == old.fragment_table_parts@,
        new.free_space@ == old.free_space@.remove(b),
        new.end == old.end,
        new.fragment_table_offset == old.fragment_table_offset,
    ensures
        new.wf(),
        forall|k: int| 0 <= k < new.free_space@.len() ==> old.free_space@.contains(#[trigger] new.free_space@[k]),
        forall|i: int|
            0 <= i < old.table().len() ==> #[trigger] old.table()[i].offset + old.table()[i].length
                <= old.free_space@[b].ptr || old.free_space@[b].ptr + old.free_space@[b].size <= old.table()[i].offset,
        need >= PAGE_SIZE ==> extent_admitted(new, old.free_space@[b].ptr, old.free_space@[b].size),
{
    let free = old.free_space@;
    let parts = old.fragment_table_parts@;
    let nf = new.free_space@;
    let f = free[b];
    assert forall|k: int| 0 <= k < nf.len() implies #[trigger] nf[k] == free[if k < b { k } else { k + 1 }] by {}
    assert forall|k: int| 0 <= k < nf.len() implies free_ok(#[trigger] nf[k], new.end as int) && free.contains(nf[k])
        && HEADER_SIZE <= nf[k].ptr by {
        assert(nf[k] == free[if k < b { k } else { k + 1 }]);
    }
    assert forall|k: int, i: int| 0 <= k < nf.len() && 0 <= i < new.table().len() implies apart(
        #[trigger] nf[k],
        #[trigger] new.table()[i],
    ) by {
        assert(nf[k] == free[if k < b { k } else { k + 1 }]);
    }
    assert forall|k1: int, k2: int| 0 <= k1 < nf.len() && 0 <= k2 < nf.len() && k1 != k2 implies gaps_apart(
        #[trigger] nf[k1],
        #[trigger] nf[k2],
    ) by {
        assert(nf[k1] == free[if k1 < b { k1 } else { k1 + 1 }]);
        assert(nf[k2] == free[if k2 < b { k2 } else { k2 + 1 }]);
    }
    assert forall|i: int| 0 <= i < old.table().len() implies #[trigger] old.table()[i].offset + old.table()[i].length
        <= f.ptr || f.ptr + f.size <= old.table()[i].offset by {
        assert(apart(f, old.table()[i]));
    }
    if need >= PAGE_SIZE {
        let z = FragmentDescriptor { id: 0, sequence: 0, offset: f.ptr, length: f.size };
        let t = new.table();
        assert(free_ok(f, old.end as int));
        assert forall|q: int| 0 <= q < t.len() implies disjoint(#[trigger] t[q], z) by {
            assert(apart(f, t[q]));
        }
        assert forall|q: int| 0 <= q < nf.len() implies apart(#[trigger] nf[q], z) by {
            let j = if q < b { q } else { q + 1 };
            assert(nf[q] == free[j]);
            assert(gaps_apart(free[j], f));
        }
        assert forall|q: int| 0 <= q < parts.len() implies chunk_apart(#[trigger] parts[q], z) by {
            assert(gap_clear(parts, f));
        }
    }
}

/// Moving the watermark of a well-formed index up by `need` aligned bytes keeps it well-formed,
/// and those bytes may then be recorded when they make at least a page.
pub proof fn lemma_take_end(old: RWFragmentStoreIndex, new: RWFragmentStoreIndex, need: u64)
    requires
        old.wf(),
        aligned(need as int),
        new.fragment_table_parts@ == old.fragment_table_parts@,
        new.free_space@ == old.free_space@,
        new.end == old.end + need,
        new.fragment_table_offset == old.fragment_table_offset,
    ensures
        new.wf(),
        need >= PAGE_SIZE ==> extent_admitted(new, old.end, need),
{
    let free = old.free_space@;
    assert forall|k: int| 0 <= k < free.len() implies free_ok(#[trigger] free[k], new.end as int) by {
        assert(free_ok(free[k], old.end as int));
    }
    assert forall|k: int| 0 <= k < new.table().len() implies #[trigger] new.table()[k].offset
        + new.table()[k].length <= new.end by {
        assert(old.table()[k].offset + old.table()[k].length <= old.end);
    }
    assert forall|j: int| 0 <= j < old.fragment_table_parts@.len() implies #[trigger] old.fragment_table_parts@[j].offset
        + old.fragment_table_parts@[j].extent_size() <= new.end by {
        assert(old.fragment_table_parts@[j].offset + old.fragment_table_parts@[j].extent_size() <= old.end);
    }
    if need >= PAGE_SIZE {
        lemma_admitted_past_end(old, new, old.end, need);
    }
}

} // verus!
