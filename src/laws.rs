//! Properties that hold across the operations of the store.
use vstd::prelude::*;
use crate::backing::{available, overwrite};
use crate::codec::{le4, le8, lemma_le4_round_trip, lemma_le8_round_trip};
use crate::error::{Error, Result};
use crate::index::{aligned, extent_ok, free_ok, table_ok, RWFragmentStoreIndex};
use crate::free_space::{gaps_of, is_offset_order, sorted_by_offset};
use crate::persist::{
    chain_from, header_of, image_of, index_from, lemma_table_of_placed, occupants_bounded, part_from,
    part_image, parts_over, placed, placed_all, table_of_placed, PlacedPart,
};
use crate::table::FragmentTablePart;
use crate::store::{blank_image, is_latest, is_max_sequence, synthetic_descriptor, BLANK_PART_CAPACITY};
use crate::table::{
    descriptor_at, descriptor_bytes, descriptors_bytes, header_bytes, header_from, part_bytes,
    store_magic, FragmentDescriptor, Header,
};
use crate::{FragmentID, PAGE_SIZE};

verus! {

/// In a well-formed index, of two descriptors the one at the lower offset ends at or before
/// the other begins.
pub proof fn lemma_no_overlap(idx: RWFragmentStoreIndex, i: int, j: int)
    requires
        idx.wf(),
        0 <= i < idx.table().len(),
        0 <= j < idx.table().len(),
        idx.table()[i].offset < idx.table()[j].offset,
    ensures
        idx.table()[i].offset + idx.table()[i].length <= idx.table()[j].offset,
{
    let t = idx.table();
    assert(extent_ok(t[i]) && extent_ok(t[j]));
    assert(crate::index::disjoint(t[i], t[j]));
}

/// In a well-formed index every descriptor's extent, and every free gap, starts and ends on a
/// page boundary.
pub proof fn lemma_alignment(idx: RWFragmentStoreIndex)
    requires
        idx.wf(),
    ensures
        forall|i: int|
            0 <= i < idx.table().len() ==> aligned(#[trigger] idx.table()[i].offset as int)
                && aligned(idx.table()[i].length as int),
        forall|i: int|
            0 <= i < idx.free_space@.len() ==> aligned(#[trigger] idx.free_space@[i].ptr as int)
                && aligned(idx.free_space@[i].size as int),
        aligned(idx.end as int),
{
    assert forall|i: int| 0 <= i < idx.table().len() implies aligned(
        #[trigger] idx.table()[i].offset as int,
    ) && aligned(idx.table()[i].length as int) by {
        assert(extent_ok(idx.table()[i]));
    }
    assert forall|i: int| 0 <= i < idx.free_space@.len() implies aligned(
        #[trigger] idx.free_space@[i].ptr as int,
    ) && aligned(idx.free_space@[i].size as int) by {
        assert(free_ok(idx.free_space@[i], idx.end as int));
    }
}

/// For every id, the sequence numbers of its descriptors rise along the table.
pub open spec fn sequences_increasing(t: Seq<FragmentDescriptor>) -> bool {
    forall|i: int, j: int|
        0 <= i < j < t.len() && #[trigger] t[i].id == #[trigger] t[j].id ==> t[i].sequence
            < t[j].sequence
}

/// Recording a descriptor whose sequence is one past the largest recorded for its id keeps the
/// sequences of every id rising.
pub proof fn lemma_next_sequence_keeps_order(t: Seq<FragmentDescriptor>, d: FragmentDescriptor)
    requires
        sequences_increasing(t),
        d.sequence > 0,
        is_max_sequence(t, d.id, (d.sequence - 1) as u64),
    ensures
        sequences_increasing(t.push(d)),
{
    let u = t.push(d);
    assert forall|i: int, j: int|
        0 <= i < j < u.len() && #[trigger] u[i].id == #[trigger] u[j].id implies u[i].sequence
        < u[j].sequence by {
        if j < t.len() {
            assert(u[i] == t[i] && u[j] == t[j]);
        } else {
            assert(u[i] == t[i] && u[j] == d);
        }
    }
}

/// Where sequences rise, the latest version of an id is its last descriptor in the table.
pub proof fn lemma_latest_is_last(t: Seq<FragmentDescriptor>, id: FragmentID, i: int)
    requires
        sequences_increasing(t),
        0 <= i < t.len(),
        t[i].id == id,
        forall|k: int| i < k < t.len() ==> #[trigger] t[k].id != id,
    ensures
        is_latest(t, id, i),
{
    assert forall|k: int| 0 <= k < t.len() && #[trigger] t[k].id == id implies t[k].sequence
        <= t[i].sequence by {
        if k < i {
            assert(t[k].id == t[i].id);
        }
    }
    assert forall|k: int| 0 <= k < i && #[trigger] t[k].id == id implies t[k].sequence
        < t[i].sequence by {
        assert(t[k].id == t[i].id);
    }
}

/// A descriptor recorded with a sequence past every other of its id is the latest version of
/// that id, which `open_fragment` then resolves.
pub proof fn lemma_recorded_is_latest(t: Seq<FragmentDescriptor>, d: FragmentDescriptor)
    requires
        d.sequence > 0,
        is_max_sequence(t, d.id, (d.sequence - 1) as u64),
    ensures
        is_latest(t.push(d), d.id, t.len() as int),
{
    let u = t.push(d);
    assert forall|k: int| 0 <= k < u.len() && #[trigger] u[k].id == d.id implies u[k].sequence
        <= u[t.len() as int].sequence by {
        if k < t.len() {
            assert(u[k] == t[k]);
        }
    }
    assert forall|k: int| 0 <= k < t.len() && #[trigger] u[k].id == d.id implies u[k].sequence
        < u[t.len() as int].sequence by {
        assert(u[k] == t[k]);
    }
}

/// A blank container opens at once, to an index that holds just the synthetic descriptor.
pub proof fn lemma_blank_opens(b: Seq<u8>, r: Result<RWFragmentStoreIndex>)
    requires
        index_from(blank_image(b), r),
    ensures
        r matches Ok(idx) && idx.wf() && idx.table() == seq![synthetic_descriptor()]
            && idx.fragment_table_offset == PAGE_SIZE && idx.root_fragment == 0,
{
    let h = Header { version: 0, root_fragment: 0, fragment_table_offset: PAGE_SIZE };
    let syn = synthetic_descriptor();
    let hb = header_bytes(h);
    let pb = part_bytes(0, BLANK_PART_CAPACITY, seq![syn]);
    let b1 = overwrite(b, 0, hb);
    let img = blank_image(b);
    lemma_le4_round_trip(0);
    lemma_le8_round_trip(0);
    lemma_le8_round_trip(PAGE_SIZE);
    lemma_le8_round_trip(BLANK_PART_CAPACITY);
    lemma_le8_round_trip(1);
    lemma_le8_round_trip(8192);
    reveal_with_fuel(descriptors_bytes, 2);
    assert(seq![syn].drop_last() =~= Seq::<FragmentDescriptor>::empty());
    assert(descriptors_bytes(seq![syn]) =~= descriptor_bytes(syn));
    assert(pb.len() == 56);
    assert(hb.len() == 24);
    assert(img.len() >= PAGE_SIZE + 56);
    assert(img.subrange(0, 4) =~= store_magic());
    assert(img.subrange(4, 8) =~= le4(0));
    assert(img.subrange(8, 16) =~= le8(0));
    assert(img.subrange(16, 24) =~= le8(PAGE_SIZE));
    assert(header_from(img) == Ok::<Header, Error>(h));
    let p = 4096int;
    assert(img.subrange(p, p + 8) =~= le8(0));
    assert(img.subrange(p + 8, p + 16) =~= le8(BLANK_PART_CAPACITY));
    assert(img.subrange(p + 16, p + 24) =~= le8(1));
    assert(img.subrange(p + 24, p + 32) =~= le8(0));
    assert(img.subrange(p + 32, p + 40) =~= le8(0));
    assert(img.subrange(p + 40, p + 48) =~= le8(8192));
    assert(img.subrange(p + 48, p + 56) =~= le8(PAGE_SIZE));
    assert(descriptor_at(img, p + 24) == syn);
    let ds = Seq::new(1, |i: int| descriptor_at(img, p + 24 + 32 * i));
    assert(ds =~= seq![syn]);
    assert(part_from(img, p) == Ok::<crate::persist::PartImage, Error>((0u64, BLANK_PART_CAPACITY, seq![syn])));
    let placed: PlacedPart = (PAGE_SIZE, 0u64, BLANK_PART_CAPACITY, seq![syn]);
    assert(chain_from(img, PAGE_SIZE, img.len()) == Ok::<Seq<PlacedPart>, Error>(seq![placed]));
    reveal_with_fuel(table_of_placed, 2);
    assert(seq![placed].drop_last() =~= Seq::<PlacedPart>::empty());
    assert(table_of_placed(seq![placed]) =~= seq![syn]);
    assert(extent_ok(seq![syn][0]));
    assert(table_ok(seq![syn]));
    assert(seq![syn][0].id == h.root_fragment);
}

/// Bytes written into an extent are what a read of that extent from its start returns first:
/// a payload laid over the stream at `ptr` is the prefix of the `size` bytes read back there.
pub proof fn lemma_written_bytes_read_back(b: Seq<u8>, ptr: int, size: int, payload: Seq<u8>)
    requires
        0 <= ptr,
        payload.len() <= size,
    ensures
        available(overwrite(b, ptr, payload), ptr, size).len() >= payload.len(),
        available(overwrite(b, ptr, payload), ptr, size).subrange(0, payload.len() as int) == payload,
{
    let w = overwrite(b, ptr, payload);
    let r = available(w, ptr, size);
    if payload.len() > 0 {
        assert(r.subrange(0, payload.len() as int) =~= payload);
    } else {
        assert(r.subrange(0, 0) =~= payload);
    }
}

/// Where a stream holds `w` from `o` on, its bytes from `o + a` are those of `w` from `a`.
pub proof fn lemma_subrange_shift(img: Seq<u8>, o: int, w: Seq<u8>, a: int, n: int)
    requires
        0 <= o,
        o + w.len() <= img.len(),
        img.subrange(o, o + w.len()) == w,
        0 <= a,
        0 <= n,
        a + n <= w.len(),
    ensures
        img.subrange(o + a, o + a + n) == w.subrange(a, a + n),
{
    assert forall|k: int| 0 <= k < w.len() implies img[o + k] == #[trigger] w[k] by {
        assert(img.subrange(o, o + w.len())[k] == img[o + k]);
    }
    assert(img.subrange(o + a, o + a + n) =~= w.subrange(a, a + n));
}

/// A descriptor read at `o + a` of a stream that holds `w` from `o` on is the one read at `a`
/// of `w`.
pub proof fn lemma_descriptor_at_shift(img: Seq<u8>, o: int, w: Seq<u8>, a: int)
    requires
        0 <= o,
        o + w.len() <= img.len(),
        img.subrange(o, o + w.len()) == w,
        0 <= a,
        a + 32 <= w.len(),
    ensures
        descriptor_at(img, o + a) == descriptor_at(w, a),
{
    lemma_subrange_shift(img, o, w, a, 8);
    lemma_subrange_shift(img, o, w, a + 8, 8);
    lemma_subrange_shift(img, o, w, a + 16, 8);
    lemma_subrange_shift(img, o, w, a + 24, 8);
}

/// The encodings of a run of descriptors decode back to it, each 32 bytes on.
#[verifier::rlimit(40)]
pub proof fn lemma_descriptors_decode(s: Seq<FragmentDescriptor>, i: int)
    requires
        0 <= i < s.len(),
    ensures
        descriptors_bytes(s).len() == 32 * s.len(),
        descriptor_at(descriptors_bytes(s), 32 * i) == s[i],
    decreases s.len(),
{
    let p = s.drop_last();
    let x = descriptors_bytes(p);
    let y = descriptor_bytes(s.last());
    crate::table::lemma_descriptor_round_trip(s.last());
    lemma_descriptors_len(p);
    let whole = x + y;
    if i < s.len() - 1 {
        lemma_descriptors_decode(p, i);
        assert(whole.subrange(0, x.len() as int) =~= x);
        lemma_descriptor_at_shift(whole, 0, x, 32 * i);
        assert(p[i] == s[i]);
    } else {
        assert(whole.subrange(x.len() as int, x.len() + 32int) =~= y);
        lemma_descriptor_at_shift(whole, x.len() as int, y, 0);
    }
}

pub proof fn lemma_descriptors_len(s: Seq<FragmentDescriptor>)
    ensures
        descriptors_bytes(s).len() == 32 * s.len(),
    decreases s.len(),
{
    if s.len() > 0 {
        lemma_descriptors_len(s.drop_last());
        crate::table::lemma_descriptor_round_trip(s.last());
    }
}

/// Where a stream holds a chunk's encoding at the chunk's offset, the chunk decodes from there.
pub proof fn lemma_part_decodes(img: Seq<u8>, p: FragmentTablePart)
    requires
        p.wf(),
        p.offset + part_image(p).len() <= img.len(),
        img.subrange(p.offset as int, p.offset + part_image(p).len()) == part_image(p),
    ensures
        part_from(img, p.offset as int) == Ok::<crate::persist::PartImage, Error>(
            (p.continuation, p.capacity, p.fragments@),
        ),
{
    let w = part_image(p);
    let o = p.offset as int;
    let n = p.fragments@.len();
    lemma_descriptors_len(p.fragments@);
    lemma_le8_round_trip(p.continuation);
    lemma_le8_round_trip(p.capacity);
    lemma_le8_round_trip(n as u64);
    assert(w.len() == 24 + 32 * n);
    let x = le8(p.continuation) + le8(p.capacity) + le8(n as u64);
    let y = descriptors_bytes(p.fragments@);
    assert(w == x + y);
    assert(w.subrange(0, 8) =~= le8(p.continuation));
    assert(w.subrange(8, 16) =~= le8(p.capacity));
    assert(w.subrange(16, 24) =~= le8(n as u64));
    lemma_subrange_shift(img, o, w, 0, 8);
    lemma_subrange_shift(img, o, w, 8, 8);
    lemma_subrange_shift(img, o, w, 16, 8);
    let ds = Seq::new(n as nat, |i: int| descriptor_at(img, o + 24 + 32 * i));
    assert forall|i: int| 0 <= i < n implies ds[i] == p.fragments@[i] by {
        lemma_descriptor_at_shift(img, o, w, 24 + 32 * i);
        assert(w.subrange(24, w.len() as int) =~= y);
        lemma_descriptor_at_shift(w, 24, y, 32 * i);
        lemma_descriptors_decode(p.fragments@, i);
    }
    assert(ds =~= p.fragments@);
}

/// The byte range that chunk `p`'s encoding takes.
pub open spec fn part_region_end(p: FragmentTablePart) -> int {
    p.offset + part_image(p).len()
}

pub open spec fn regions_apart(a: FragmentTablePart, b: FragmentTablePart) -> bool {
    part_region_end(a) <= b.offset || part_region_end(b) <= a.offset
}

/// Writing chunks leaves alone every byte outside their encodings.
pub proof fn lemma_parts_over_outside(b: Seq<u8>, ps: Seq<FragmentTablePart>, k: int)
    requires
        0 <= k < b.len(),
        forall|j: int| 0 <= j < ps.len() ==> part_region_end(#[trigger] ps[j]) <= k || k < ps[j].offset,
    ensures
        parts_over(b, ps).len() >= b.len(),
        parts_over(b, ps)[k] == b[k],
    decreases ps.len(),
{
    if ps.len() > 0 {
        let p = ps.drop_last();
        assert forall|j: int| 0 <= j < p.len() implies part_region_end(#[trigger] p[j]) <= k || k < p[j].offset by {
            assert(p[j] == ps[j]);
        }
        lemma_parts_over_outside(b, p, k);
        assert(part_region_end(ps[ps.len() - 1]) <= k || k < ps[ps.len() - 1].offset);
    }
}

/// Writing chunks whose encodings do not overlap leaves each one's encoding in place.
pub proof fn lemma_parts_over_keeps(b: Seq<u8>, ps: Seq<FragmentTablePart>, k: int)
    requires
        0 <= k < ps.len(),
        forall|j: int| k < j < ps.len() ==> regions_apart(ps[k], #[trigger] ps[j]),
    ensures
        parts_over(b, ps).len() >= part_region_end(ps[k]),
        parts_over(b, ps).subrange(ps[k].offset as int, part_region_end(ps[k])) == part_image(ps[k]),
    decreases ps.len(),
{
    let p = ps.drop_last();
    let last = ps[ps.len() - 1];
    let prev = parts_over(b, p);
    let now = parts_over(b, ps);
    assert(now == overwrite(prev, last.offset as int, part_image(last)));
    if k == ps.len() - 1 {
        assert(now.subrange(last.offset as int, part_region_end(last)) =~= part_image(last));
    } else {
        assert forall|j: int| k < j < p.len() implies regions_apart(p[k], #[trigger] p[j]) by {
            assert(p[j] == ps[j]);
        }
        assert(p[k] == ps[k]);
        lemma_parts_over_keeps(b, p, k);
        assert(regions_apart(ps[k], last));
        assert(now.subrange(ps[k].offset as int, part_region_end(ps[k])) =~= prev.subrange(
            ps[k].offset as int,
            part_region_end(ps[k]),
        ));
    }
}

/// The chunks of `idx` sit where its header and their continuations say, each encoding clear
/// of the header and of every other.
pub open spec fn layout_ok(idx: RWFragmentStoreIndex) -> bool {
    let ps = idx.fragment_table_parts@;
    &&& ps.len() >= 1
    &&& ps[0].offset == idx.fragment_table_offset
    &&& forall|j: int| 0 <= j < ps.len() - 1 ==> (#[trigger] ps[j]).continuation == ps[j + 1].offset
        && ps[j].continuation != 0
    &&& ps[ps.len() - 1].continuation == 0
    &&& forall|j: int| 0 <= j < ps.len() ==> 24 <= (#[trigger] ps[j]).offset
    &&& forall|i: int, j: int| 0 <= i < ps.len() && 0 <= j < ps.len() && i != j ==> regions_apart(#[trigger] ps[i], #[trigger] ps[j])
}

/// Following continuations through correctly placed chunks reads them back in order.
pub proof fn lemma_chain_reads(img: Seq<u8>, ps: Seq<FragmentTablePart>, k: int, fuel: nat)
    requires
        0 <= k < ps.len(),
        fuel >= ps.len() - 1 - k,
        forall|j: int| 0 <= j < ps.len() ==> part_from(img, (#[trigger] ps[j]).offset as int) == Ok::<crate::persist::PartImage, Error>(
            (ps[j].continuation, ps[j].capacity, ps[j].fragments@),
        ),
        forall|j: int| 0 <= j < ps.len() - 1 ==> (#[trigger] ps[j]).continuation == ps[j + 1].offset
            && ps[j].continuation != 0,
        ps[ps.len() - 1].continuation == 0,
    ensures
        chain_from(img, ps[k].offset, fuel) == Ok::<Seq<PlacedPart>, Error>(placed_all(ps).subrange(k, ps.len() as int)),
    decreases ps.len() - k,
{
    let here = ps[k];
    assert(part_from(img, here.offset as int) == Ok::<crate::persist::PartImage, Error>(
        (here.continuation, here.capacity, here.fragments@),
    ));
    if k == ps.len() - 1 {
        assert(placed_all(ps).subrange(k, ps.len() as int) =~= seq![placed(here)]);
    } else {
        lemma_chain_reads(img, ps, k + 1, (fuel - 1) as nat);
        assert(ps[k + 1].offset == here.continuation);
        assert(placed_all(ps).subrange(k, ps.len() as int) =~= seq![placed(here)] + placed_all(ps).subrange(
            k + 1,
            ps.len() as int,
        ));
    }
}

/// Writing an index leaves its header readable at offset 0 when no chunk reaches below 24.
pub proof fn lemma_header_survives(b: Seq<u8>, idx: RWFragmentStoreIndex)
    requires
        b.len() >= 24,
        forall|j: int| 0 <= j < idx.fragment_table_parts@.len() ==> 24 <= (#[trigger] idx.fragment_table_parts@[j]).offset,
    ensures
        header_from(image_of(b, idx)) == Ok::<Header, Error>(header_of(idx)),
{
    let ps = idx.fragment_table_parts@;
    let h = header_of(idx);
    let hb = header_bytes(h);
    let b1 = overwrite(b, 0, hb);
    let img = image_of(b, idx);
    crate::table::lemma_header_round_trip(h);
    assert(b1.len() == b.len());
    assert forall|k: int| 0 <= k < 24 implies #[trigger] img[k] == hb[k] by {
        assert forall|j: int| 0 <= j < ps.len() implies part_region_end(#[trigger] ps[j]) <= k || k < ps[j].offset by {}
        lemma_parts_over_outside(b1, ps, k);
    }
    assert(img.subrange(0, 4) =~= hb.subrange(0, 4));
    assert(img.subrange(4, 8) =~= hb.subrange(4, 8));
    assert(img.subrange(8, 16) =~= hb.subrange(8, 16));
    assert(img.subrange(16, 24) =~= hb.subrange(16, 24));
}

/// Writing an index whose chunk encodings lie apart leaves every chunk decodable in place.
pub proof fn lemma_parts_survive(b: Seq<u8>, idx: RWFragmentStoreIndex)
    requires
        idx.wf(),
        layout_ok(idx),
    ensures
        forall|j: int| 0 <= j < idx.fragment_table_parts@.len() ==> part_from(
            image_of(b, idx),
            (#[trigger] idx.fragment_table_parts@[j]).offset as int,
        ) == Ok::<crate::persist::PartImage, Error>(
            (
                idx.fragment_table_parts@[j].continuation,
                idx.fragment_table_parts@[j].capacity,
                idx.fragment_table_parts@[j].fragments@,
            ),
        ),
{
    let ps = idx.fragment_table_parts@;
    let b1 = overwrite(b, 0, header_bytes(header_of(idx)));
    let img = image_of(b, idx);
    assert forall|j: int| 0 <= j < ps.len() implies part_from(img, (#[trigger] ps[j]).offset as int)
        == Ok::<crate::persist::PartImage, Error>((ps[j].continuation, ps[j].capacity, ps[j].fragments@)) by {
        assert forall|q: int| j < q < ps.len() implies regions_apart(ps[j], #[trigger] ps[q]) by {}
        lemma_parts_over_keeps(b1, ps, j);
        assert(ps[j].wf());
        lemma_part_decodes(img, ps[j]);
    }
}

/// In a well-formed index every descriptor lies past the header and clear of every chunk.
pub proof fn lemma_wf_layout_clear(idx: RWFragmentStoreIndex)
    requires
        idx.wf(),
    ensures
        crate::persist::layout_clear(placed_all(idx.fragment_table_parts@), idx.table()),
{
    let parts = idx.fragment_table_parts@;
    let ps = placed_all(parts);
    let t = idx.table();
    assert forall|j: int, i: int| 0 <= j < ps.len() && 0 <= i < t.len() implies crate::persist::part_end(
        #[trigger] ps[j],
    ) <= #[trigger] t[i].offset || t[i].offset + t[i].length <= ps[j].0 by {
        assert(ps[j] == placed(parts[j]));
        assert(crate::index::chunk_apart(parts[j], t[i]));
    }
}

/// An index written over a stream reads back to the same table, provided its chunks are laid
/// out apart from the header and from each other, the chain is no longer than the stream, and
/// the index passes the checks of opening (its root has a descriptor, its extents end a page
/// short of `u64::MAX`).
#[verifier::rlimit(80)]
pub proof fn lemma_saved_index_reopens(b: Seq<u8>, idx: RWFragmentStoreIndex, r: Result<RWFragmentStoreIndex>)
    requires
        idx.wf(),
        layout_ok(idx),
        b.len() >= 24,
        idx.fragment_table_parts@.len() <= image_of(b, idx).len() + 1,
        occupants_bounded(placed_all(idx.fragment_table_parts@), idx.table()),
        exists|i: int| 0 <= i < idx.table().len() && #[trigger] idx.table()[i].id == idx.root_fragment,
        index_from(image_of(b, idx), r),
    ensures
        r matches Ok(back) && back.table() == idx.table() && back.version == idx.version
            && back.root_fragment == idx.root_fragment
            && back.fragment_table_offset == idx.fragment_table_offset,
{
    let ps = idx.fragment_table_parts@;
    let img = image_of(b, idx);
    let h = header_of(idx);
    lemma_wf_layout_clear(idx);
    lemma_header_survives(b, idx);
    lemma_parts_survive(b, idx);
    lemma_chain_reads(img, ps, 0, img.len());
    assert(placed_all(ps).subrange(0, ps.len() as int) =~= placed_all(ps));
    lemma_table_of_placed(ps);
    assert(chain_from(img, h.fragment_table_offset, img.len()) == Ok::<Seq<PlacedPart>, Error>(placed_all(ps)));
    lemma_opened_ok(h, placed_all(ps), r);
}

/// Opening succeeds on chunks whose table passes every check, and gives back that table.
pub proof fn lemma_opened_ok(h: Header, ps: Seq<PlacedPart>, r: Result<RWFragmentStoreIndex>)
    requires
        table_ok(table_of_placed(ps)),
        occupants_bounded(ps, table_of_placed(ps)),
        crate::persist::layout_clear(ps, table_of_placed(ps)),
        exists|i: int| 0 <= i < table_of_placed(ps).len() && #[trigger] table_of_placed(ps)[i].id == h.root_fragment,
        crate::persist::opened(h, ps, r),
    ensures
        r matches Ok(back) && back.table() == table_of_placed(ps) && back.version == h.version
            && back.root_fragment == h.root_fragment
            && back.fragment_table_offset == h.fragment_table_offset,
{
}

/// Writing chunks never shortens a stream.
pub proof fn lemma_parts_over_len(b: Seq<u8>, ps: Seq<FragmentTablePart>)
    ensures
        parts_over(b, ps).len() >= b.len(),
    decreases ps.len(),
{
    if ps.len() > 0 {
        lemma_parts_over_len(b, ps.drop_last());
    }
}

/// A chunk's encoding never runs past the slots it reserves.
pub proof fn lemma_part_image_within(p: FragmentTablePart)
    requires
        p.wf(),
    ensures
        part_image(p).len() <= p.extent_size(),
{
    lemma_descriptors_len(p.fragments@);
}

/// A well-formed index whose watermark memory can address can be written out.
pub proof fn lemma_wf_addressable(idx: RWFragmentStoreIndex)
    requires
        idx.wf(),
        idx.end <= usize::MAX,
    ensures
        crate::persist::parts_addressable(idx.fragment_table_parts@),
{
    let ps = idx.fragment_table_parts@;
    assert forall|k: int| 0 <= k < ps.len() implies #[trigger] ps[k].offset + part_image(ps[k]).len() <= usize::MAX by {
        lemma_part_image_within(ps[k]);
    }
}

/// Writing a well-formed index leaves the bytes of every descriptor's extent as they were.
pub proof fn lemma_image_keeps_extent(b: Seq<u8>, idx: RWFragmentStoreIndex, i: int)
    requires
        idx.wf(),
        0 <= i < idx.table().len(),
    ensures
        image_of(b, idx).len() >= b.len(),
        forall|k: int|
            idx.table()[i].offset <= k < idx.table()[i].offset + idx.table()[i].length && k < b.len()
                ==> #[trigger] image_of(b, idx)[k] == b[k],
{
    let d = idx.table()[i];
    let ps = idx.fragment_table_parts@;
    let b1 = overwrite(b, 0, header_bytes(header_of(idx)));
    crate::table::lemma_header_round_trip(header_of(idx));
    lemma_parts_over_len(b1, ps);
    assert forall|k: int| d.offset <= k < d.offset + d.length && k < b.len() implies #[trigger] image_of(b, idx)[k] == b[k] by {
        assert forall|j: int| 0 <= j < ps.len() implies part_region_end(#[trigger] ps[j]) <= k || k < ps[j].offset by {
            lemma_part_image_within(ps[j]);
            assert(crate::index::chunk_apart(ps[j], d));
        }
        assert(crate::table::HEADER_SIZE <= d.offset);
        lemma_parts_over_outside(b1, ps, k);
    }
}

/// A payload written at the start of an extent that the table records survives writing the
/// index back, and is what a read of that extent returns first: closing a handle whose bytes
/// were `overwrite(b, p, payload)` leaves `image_of(.., idx)`, and a read-only handle over the
/// recorded descriptor reads `available(.., p, length)`.
pub proof fn lemma_payload_survives_close(b: Seq<u8>, idx: RWFragmentStoreIndex, i: int, payload: Seq<u8>)
    requires
        idx.wf(),
        0 <= i < idx.table().len(),
        payload.len() <= idx.table()[i].length,
    ensures
        ({
            let d = idx.table()[i];
            let img = image_of(overwrite(b, d.offset as int, payload), idx);
            &&& available(img, d.offset as int, d.length as int).len() >= payload.len()
            &&& available(img, d.offset as int, d.length as int).subrange(0, payload.len() as int) == payload
        }),
{
    let d = idx.table()[i];
    let w = overwrite(b, d.offset as int, payload);
    lemma_image_keeps_extent(w, idx, i);
    let img = image_of(w, idx);
    let r = available(img, d.offset as int, d.length as int);
    assert forall|k: int| 0 <= k < payload.len() implies img[d.offset + k] == payload[k] by {
        assert(w[d.offset + k] == payload[k]);
    }
    if payload.len() > 0 {
        assert(r.subrange(0, payload.len() as int) =~= payload);
    } else {
        assert(r.subrange(0, 0) =~= payload);
    }
}

/// Two orderings by offset of the same descriptors, whose distinct members have distinct
/// offsets, are the same sequence.
pub proof fn lemma_offset_order_unique(s1: Seq<FragmentDescriptor>, s2: Seq<FragmentDescriptor>)
    requires
        sorted_by_offset(s1),
        sorted_by_offset(s2),
        s1.to_multiset() == s2.to_multiset(),
        forall|x: FragmentDescriptor, y: FragmentDescriptor|
            s1.contains(x) && s1.contains(y) && x != y ==> x.offset != y.offset,
    ensures
        s1 == s2,
    decreases s1.len(),
{
    broadcast use vstd::seq_lib::group_to_multiset_ensures;
    if s1.len() == 0 {
        assert(s2.to_multiset().len() == 0);
        assert(s2.len() == 0);
        assert(s1 =~= s2);
    } else {
        assert(s2.len() == s1.len()) by {
            assert(s1.to_multiset().len() == s1.len());
            assert(s2.to_multiset().len() == s2.len());
        }
        let n = s1.len() as int;
        let a = s1[n - 1];
        let b = s2[n - 1];
        assert(s1.contains(a));
        assert(s2.to_multiset().count(a) > 0);
        assert(s2.contains(a));
        assert(s1.to_multiset().count(b) > 0) by {
            assert(s2.contains(b));
        }
        assert(s1.contains(b));
        let ia = choose|k: int| 0 <= k < s2.len() && s2[k] == a;
        let ib = choose|k: int| 0 <= k < s1.len() && s1[k] == b;
        if ia < n - 1 {
            assert(s2[ia].offset <= s2[n - 1].offset);
        }
        if ib < n - 1 {
            assert(s1[ib].offset <= s1[n - 1].offset);
        }
        assert(a == b);
        let p1 = s1.drop_last();
        let p2 = s2.drop_last();
        assert(s1 =~= p1.push(a));
        assert(s2 =~= p2.push(a));
        vstd::seq_lib::to_multiset_build(p1, a);
        vstd::seq_lib::to_multiset_build(p2, a);
        assert(p1.to_multiset() =~= p2.to_multiset()) by {
            assert forall|x: FragmentDescriptor| p1.to_multiset().count(x) == p2.to_multiset().count(x) by {
                assert(p1.to_multiset().insert(a).count(x) == p2.to_multiset().insert(a).count(x));
            }
        }
        assert forall|x: FragmentDescriptor, y: FragmentDescriptor|
            p1.contains(x) && p1.contains(y) && x != y implies x.offset != y.offset by {
            let kx = choose|k: int| 0 <= k < p1.len() && p1[k] == x;
            let ky = choose|k: int| 0 <= k < p1.len() && p1[k] == y;
            assert(s1[kx] == x && s1[ky] == y);
            assert(s1.contains(x) && s1.contains(y));
        }
        lemma_offset_order_unique(p1, p2);
    }
}

/// Opening the same bytes twice gives the same outcome: the same error, or indexes with the
/// same header fields, chunks, descriptors, free space and watermark.
pub proof fn lemma_reopen_deterministic(b: Seq<u8>, r1: Result<RWFragmentStoreIndex>, r2: Result<RWFragmentStoreIndex>)
    requires
        index_from(b, r1),
        index_from(b, r2),
    ensures
        r1 is Err ==> r1 == r2,
        r1 matches Ok(i1) ==> (r2 matches Ok(i2) && i1.table() == i2.table()
            && placed_all(i1.fragment_table_parts@) == placed_all(i2.fragment_table_parts@)
            && i1.free_space@ == i2.free_space@ && i1.end == i2.end && i1.version == i2.version
            && i1.root_fragment == i2.root_fragment
            && i1.fragment_table_offset == i2.fragment_table_offset),
{
    if let (Ok(i1), Ok(i2)) = (r1, r2) {
        let t = i1.table();
        assert(t == i2.table());
        let s1 = choose|s: Seq<FragmentDescriptor>| is_offset_order(s, t) && i1.free_space@ == gaps_of(s);
        let s2 = choose|s: Seq<FragmentDescriptor>| is_offset_order(s, t) && i2.free_space@ == gaps_of(s);
        assert forall|x: FragmentDescriptor, y: FragmentDescriptor|
            s1.contains(x) && s1.contains(y) && x != y implies x.offset != y.offset by {
            vstd::seq_lib::to_multiset_contains(s1, x);
            vstd::seq_lib::to_multiset_contains(s1, y);
            vstd::seq_lib::to_multiset_contains(t, x);
            vstd::seq_lib::to_multiset_contains(t, y);
            let kx = choose|k: int| 0 <= k < t.len() && t[k] == x;
            let ky = choose|k: int| 0 <= k < t.len() && t[k] == y;
            assert(extent_ok(t[kx]) && extent_ok(t[ky]));
            assert(crate::index::disjoint(t[kx], t[ky]));
        }
        lemma_offset_order_unique(s1, s2);
        assert(aligned(i1.end as int) && aligned(i2.end as int));
        assert(i1.end < i2.end + PAGE_SIZE && i2.end < i1.end + PAGE_SIZE);
    }
}

/// The largest sequence recorded for an id is unique.
pub proof fn lemma_max_sequence_unique(t: Seq<FragmentDescriptor>, id: FragmentID, a: u64, b: u64)
    requires
        is_max_sequence(t, id, a),
        is_max_sequence(t, id, b),
    ensures
        a == b,
{
    if a != 0 {
        let k = choose|k: int| 0 <= k < t.len() && #[trigger] t[k].id == id && t[k].sequence == a;
        assert(t[k].sequence <= b);
    }
    if b != 0 {
        let k = choose|k: int| 0 <= k < t.len() && #[trigger] t[k].id == id && t[k].sequence == b;
        assert(t[k].sequence <= a);
    }
}

/// Two write-and-close cycles on one id: the first records sequence `m + 1` past the largest
/// `m` recorded before, the second, minted on the table the first left, records `m + 2`, and
/// that second version is the latest of the id.
pub proof fn lemma_two_versions(
    t: Seq<FragmentDescriptor>,
    id: FragmentID,
    m: u64,
    d1: FragmentDescriptor,
    d2: FragmentDescriptor,
)
    requires
        is_max_sequence(t, id, m),
        m + 2 <= u64::MAX,
        d1.id == id,
        d1.sequence == m + 1,
        d2.id == id,
        d2.sequence > 0,
        is_max_sequence(t.push(d1), id, (d2.sequence - 1) as u64),
    ensures
        d2.sequence == m + 2,
        is_latest(t.push(d1).push(d2), id, t.len() + 1int),
{
    let u = t.push(d1);
    assert forall|k: int| 0 <= k < u.len() && #[trigger] u[k].id == id implies u[k].sequence <= m + 1 by {
        if k < t.len() {
            assert(u[k] == t[k]);
        }
    }
    assert(u[t.len() as int] == d1);
    assert(is_max_sequence(u, id, (m + 1) as u64));
    lemma_max_sequence_unique(u, id, (m + 1) as u64, (d2.sequence - 1) as u64);
    lemma_recorded_is_latest(u, d2);
}

/// A write that moves a buffered handle past its threshold leaves a streamed handle whose close
/// records the pages from the old end watermark, as many as the bytes written so far need, and
/// those pages may be recorded in the store the write left.
pub proof fn lemma_promoted_close_admitted(
    d: crate::fragment::DynamicFragment,
    s0: crate::store::RWFragmentStore,
    buf: Seq<u8>,
    h1: crate::fragment::FragmentHandle,
    s1: crate::store::RWFragmentStore,
)
    requires
        d.buffer matches crate::fragment::InlineBuffer::Buffered(b) && b.bytes().len() + buf.len() > d.buffer_threshold,
        crate::fragment::dynamic_write_effect(d, s0, buf, true, h1, s1),
    ensures
        h1.closing_descriptor() matches Some(c) && ({
            let n = match d.buffer {
                crate::fragment::InlineBuffer::Buffered(b) => b.bytes().len() + buf.len(),
                _ => 0,
            };
            &&& c.offset == s0.header.end
            &&& c.length == crate::index::round_up(n as int)
            &&& crate::index::extent_admitted(s1.header, c.offset, c.length)
        }),
{
}

/// A well-formed index written over a stream reads back to the same table, header fields and
/// chunk chain, provided a page past its watermark is addressable, its root has a descriptor,
/// and the chain is no longer than the stream.
pub proof fn lemma_saved_store_reopens(b: Seq<u8>, idx: RWFragmentStoreIndex, r: Result<RWFragmentStoreIndex>)
    requires
        idx.wf(),
        idx.end + PAGE_SIZE <= u64::MAX,
        b.len() >= 24,
        idx.fragment_table_parts@.len() <= image_of(b, idx).len() + 1,
        exists|i: int| 0 <= i < idx.table().len() && #[trigger] idx.table()[i].id == idx.root_fragment,
        index_from(image_of(b, idx), r),
    ensures
        r matches Ok(back) && back.table() == idx.table() && back.version == idx.version
            && back.root_fragment == idx.root_fragment
            && back.fragment_table_offset == idx.fragment_table_offset,
{
    let ps = idx.fragment_table_parts@;
    assert forall|i: int, j: int| 0 <= i < ps.len() && 0 <= j < ps.len() && i != j implies regions_apart(
        #[trigger] ps[i],
        #[trigger] ps[j],
    ) by {
        lemma_part_image_within(ps[i]);
        lemma_part_image_within(ps[j]);
        assert(crate::index::chunks_apart(ps[i], ps[j]));
    }
    assert(layout_ok(idx));
    let pps = placed_all(ps);
    let t = idx.table();
    assert forall|k: int| 0 <= k < pps.len() implies crate::persist::part_end(#[trigger] pps[k]) <= u64::MAX - PAGE_SIZE by {
        assert(pps[k] == placed(ps[k]));
        assert(ps[k].offset + ps[k].extent_size() <= idx.end);
    }
    assert forall|i: int| 0 <= i < t.len() implies #[trigger] t[i].offset + t[i].length <= u64::MAX - PAGE_SIZE by {
        assert(t[i].offset + t[i].length <= idx.end);
    }
    assert(occupants_bounded(pps, t));
    lemma_saved_index_reopens(b, idx, r);
}

/// Between two sound extents with room between them, the gap found is exactly that room: it
/// starts where the first ends and reaches to where the second starts.
pub proof fn lemma_gap_between_pages(a: FragmentDescriptor, b: FragmentDescriptor)
    requires
        extent_ok(a),
        extent_ok(b),
        a.offset + a.length < b.offset,
    ensures
        crate::free_space::gap_after(a, b) == seq![
            crate::index::FreeExtent { size: (b.offset - (a.offset + a.length)) as u64, ptr: (a.offset + a.length) as u64 },
        ],
{
    assert(aligned(a.offset + a.length)) by {
        assert(aligned(a.offset as int) && aligned(a.length as int));
    }
    assert(aligned(b.offset - (a.offset + a.length))) by {
        assert(aligned(b.offset as int));
    }
}

} // verus!
