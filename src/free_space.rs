//! Rebuilding the free-space list from the descriptors of a table.
use vstd::prelude::*;
use vstd::seq_lib::{to_multiset_build, to_multiset_contains, to_multiset_insert};
use crate::index::{aligned, apart, disjoint, extent_ok, free_ok, round_down, round_up, table_ok, FreeExtent};
use crate::table::HEADER_SIZE;
use crate::table::FragmentDescriptor;
use crate::PAGE_SIZE;

verus! {

pub open spec fn sorted_by_offset(s: Seq<FragmentDescriptor>) -> bool {
    forall|a: int, b: int| 0 <= a < b < s.len() ==> #[trigger] s[a].offset <= #[trigger] s[b].offset
}

/// `s` holds the descriptors of `t`, each as often, in ascending order of offset.
pub open spec fn is_offset_order(s: Seq<FragmentDescriptor>, t: Seq<FragmentDescriptor>) -> bool {
    &&& sorted_by_offset(s)
    &&& s.to_multiset() == t.to_multiset()
}

/// The gap between two neighbouring extents, if at least a whole page lies between them.
pub open spec fn gap_after(a: FragmentDescriptor, b: FragmentDescriptor) -> Seq<FreeExtent> {
    let start = round_up(a.offset + a.length);
    if b.offset > start && round_down(b.offset - start) > 0 {
        seq![FreeExtent { size: round_down(b.offset - start) as u64, ptr: start as u64 }]
    } else {
        Seq::empty()
    }
}

/// The gaps between each pair of neighbours of `s`, walked from the front.
pub open spec fn gaps_of(s: Seq<FragmentDescriptor>) -> Seq<FreeExtent>
    decreases s.len(),
{
    if s.len() < 2 {
        Seq::empty()
    } else {
        gaps_of(s.drop_last()) + gap_after(s[s.len() - 2], s[s.len() - 1])
    }
}

/// Every gap found in a table whose extents end at or before `end` is sound below `end`.
pub proof fn lemma_gaps_sound(s: Seq<FragmentDescriptor>, end: int)
    requires
        forall|i: int| 0 <= i < s.len() ==> extent_ok(#[trigger] s[i]),
        forall|i: int| 0 <= i < s.len() ==> #[trigger] s[i].offset + s[i].length <= end,
    ensures
        forall|i: int| 0 <= i < gaps_of(s).len() ==> free_ok(#[trigger] gaps_of(s)[i], end),
    decreases s.len(),
{
    if s.len() >= 2 {
        let p = s.drop_last();
        assert forall|i: int| 0 <= i < p.len() implies extent_ok(#[trigger] p[i]) by {
            assert(p[i] == s[i]);
        }
        assert forall|i: int| 0 <= i < p.len() implies #[trigger] p[i].offset + p[i].length <= end by {
            assert(p[i] == s[i]);
        }
        lemma_gaps_sound(p, end);
        let a = s[s.len() - 2];
        let b = s[s.len() - 1];
        assert(extent_ok(a) && extent_ok(b));
        assert(aligned(a.offset + a.length)) by {
            assert(aligned(a.offset as int) && aligned(a.length as int));
        }
        let g = gap_after(a, b);
        assert forall|i: int| 0 <= i < gaps_of(s).len() implies free_ok(#[trigger] gaps_of(s)[i], end) by {
            if i >= gaps_of(p).len() {
                assert(gaps_of(s)[i] == g[i - gaps_of(p).len()]);
            } else {
                assert(gaps_of(s)[i] == gaps_of(p)[i]);
            }
        }
    }
}

/// The gaps of an ordering by offset come in ascending order, each ending at or before the
/// last descriptor's offset and starting past the header.
pub proof fn lemma_gaps_ordered(s: Seq<FragmentDescriptor>)
    requires
        sorted_by_offset(s),
        forall|i: int| 0 <= i < s.len() ==> extent_ok(#[trigger] s[i]),
    ensures
        forall|k: int| 0 <= k < gaps_of(s).len() ==> HEADER_SIZE <= #[trigger] gaps_of(s)[k].ptr,
        s.len() >= 1 ==> forall|k: int| 0 <= k < gaps_of(s).len() ==> #[trigger] gaps_of(s)[k].ptr
            + gaps_of(s)[k].size <= s[s.len() - 1].offset,
        forall|k1: int, k2: int|
            0 <= k1 < k2 < gaps_of(s).len() ==> #[trigger] gaps_of(s)[k1].ptr + gaps_of(s)[k1].size
                <= #[trigger] gaps_of(s)[k2].ptr,
    decreases s.len(),
{
    if s.len() >= 2 {
        let p = s.drop_last();
        assert forall|i: int| 0 <= i < p.len() implies extent_ok(#[trigger] p[i]) by {
            assert(p[i] == s[i]);
        }
        lemma_gaps_ordered(p);
        let a = s[s.len() - 2];
        let b = s[s.len() - 1];
        assert(extent_ok(a) && extent_ok(b));
        assert(a.offset <= b.offset);
        let g = gap_after(a, b);
        let gp = gaps_of(p);
        let gs = gaps_of(s);
        assert(gs == gp + g);
        assert(p[p.len() - 1] == a);
        assert forall|k: int| 0 <= k < gs.len() implies HEADER_SIZE <= #[trigger] gs[k].ptr
            && gs[k].ptr + gs[k].size <= s[s.len() - 1].offset by {
            if k < gp.len() {
                assert(gs[k] == gp[k]);
            } else {
                assert(gs[k] == g[k - gp.len()]);
            }
        }
        assert forall|k1: int, k2: int| 0 <= k1 < k2 < gs.len() implies #[trigger] gs[k1].ptr + gs[k1].size
            <= #[trigger] gs[k2].ptr by {
            if k2 < gp.len() {
                assert(gs[k1] == gp[k1] && gs[k2] == gp[k2]);
            } else {
                assert(gs[k1] == gp[k1]);
                assert(gs[k2] == g[k2 - gp.len()]);
            }
        }
    }
}

/// Each gap of `s` lies between some neighbours `s[m]` and `s[m + 1]`.
pub proof fn lemma_gap_origin(s: Seq<FragmentDescriptor>, k: int)
    requires
        0 <= k < gaps_of(s).len(),
    ensures
        exists|m: int|
            0 <= m && m + 1 < s.len() && gap_after(#[trigger] s[m], s[m + 1]).len() == 1
                && gaps_of(s)[k] == gap_after(s[m], s[m + 1])[0],
    decreases s.len(),
{
    let p = s.drop_last();
    let g = gap_after(s[s.len() - 2], s[s.len() - 1]);
    if k < gaps_of(p).len() {
        lemma_gap_origin(p, k);
        let m = choose|m: int|
            0 <= m && m + 1 < p.len() && gap_after(#[trigger] p[m], p[m + 1]).len() == 1
                && gaps_of(p)[k] == gap_after(p[m], p[m + 1])[0];
        assert(p[m] == s[m] && p[m + 1] == s[m + 1]);
    } else {
        let m = s.len() - 2;
        assert(gaps_of(s)[k] == g[k - gaps_of(p).len()]);
        assert(gap_after(s[m], s[m + 1]).len() == 1);
    }
}

/// The gaps between neighbours of an ordering of a sound table share no byte with any of its
/// extents.
pub proof fn lemma_gaps_apart(s: Seq<FragmentDescriptor>, t: Seq<FragmentDescriptor>)
    requires
        sorted_by_offset(s),
        table_ok(t),
        forall|m: int| 0 <= m < s.len() ==> t.contains(#[trigger] s[m]),
        forall|i: int| 0 <= i < t.len() ==> s.contains(#[trigger] t[i]),
    ensures
        forall|k: int, i: int|
            0 <= k < gaps_of(s).len() && 0 <= i < t.len() ==> apart(#[trigger] gaps_of(s)[k], #[trigger] t[i]),
{
    assert forall|k: int, i: int| 0 <= k < gaps_of(s).len() && 0 <= i < t.len() implies apart(
        #[trigger] gaps_of(s)[k],
        #[trigger] t[i],
    ) by {
        lemma_gap_origin(s, k);
        let m = choose|m: int|
            0 <= m && m + 1 < s.len() && gap_after(#[trigger] s[m], s[m + 1]).len() == 1
                && gaps_of(s)[k] == gap_after(s[m], s[m + 1])[0];
        let a = s[m];
        let b = s[m + 1];
        let x = t[i];
        assert(s.contains(x));
        let q = choose|q: int| 0 <= q < s.len() && s[q] == x;
        assert(t.contains(a));
        let ia = choose|ia: int| 0 <= ia < t.len() && t[ia] == a;
        assert(extent_ok(a) && extent_ok(x));
        if q <= m {
            if q < m {
                assert(s[q].offset <= s[m].offset);
            }
            if ia != i {
                assert(disjoint(t[ia], t[i]));
            }
        } else {
            if q > m + 1 {
                assert(s[m + 1].offset <= s[q].offset);
            }
        }
    }
}

/// The descriptors of `t` in ascending order of offset.
pub fn sort_by_offset(t: &Vec<FragmentDescriptor>) -> (r: Vec<FragmentDescriptor>)
    ensures
        is_offset_order(r@, t@),
{
    let mut out: Vec<FragmentDescriptor> = Vec::new();
    let mut i: usize = 0;
    assert(out@ =~= t@.subrange(0, 0));
    while i < t.len()
        invariant
            i <= t@.len(),
            sorted_by_offset(out@),
            out@.to_multiset() == t@.subrange(0, i as int).to_multiset(),
        decreases t@.len() - i,
    {
        let x = t[i];
        let mut p: usize = 0;
        while p < out.len() && out[p].offset <= x.offset
            invariant
                p <= out@.len(),
                forall|k: int| 0 <= k < p ==> #[trigger] out@[k].offset <= x.offset,
            decreases out@.len() - p,
        {
            p = p + 1;
        }
        let ghost prev = out@;
        out.insert(p, x);
        proof {
            prev.insert_ensures(p as int, x);
            to_multiset_insert(prev, p as int, x);
            assert(t@.subrange(0, i + 1) =~= t@.subrange(0, i as int).push(x));
            to_multiset_build(t@.subrange(0, i as int), x);
            assert forall|a: int, b: int| 0 <= a < b < out@.len() implies #[trigger] out@[a].offset
                <= #[trigger] out@[b].offset by {
                if b < p {
                } else if b == p {
                } else if a < p {
                    assert(out@[b] == prev[b - 1]);
                    if p < prev.len() {
                        assert(prev[p as int].offset > x.offset);
                        assert(prev[p as int].offset <= prev[b - 1].offset);
                    }
                } else if a == p {
                    assert(prev[p as int].offset > x.offset);
                    if b - 1 > p {
                        assert(prev[p as int].offset <= prev[b - 1].offset);
                    }
                } else {
                    assert(out@[a] == prev[a - 1] && out@[b] == prev[b - 1]);
                }
            }
        }
        i = i + 1;
    }
    assert(t@.subrange(0, i as int) =~= t@);
    out
}

/// The gaps between neighbours of `s`, which is in ascending order of offset.
pub fn collect_gaps(s: &Vec<FragmentDescriptor>) -> (r: Vec<FreeExtent>)
    requires
        forall|i: int| 0 <= i < s@.len() ==> extent_ok(#[trigger] s@[i]),
    ensures
        r@ == gaps_of(s@),
{
    let mut out: Vec<FreeExtent> = Vec::new();
    if s.len() < 2 {
        return out;
    }
    let mut i: usize = 1;
    assert(s@.subrange(0, 1).len() < 2);
    while i < s.len()
        invariant
            1 <= i <= s@.len(),
            forall|k: int| 0 <= k < s@.len() ==> extent_ok(#[trigger] s@[k]),
            out@ == gaps_of(s@.subrange(0, i as int)),
        decreases s@.len() - i,
    {
        let a = s[i - 1];
        let b = s[i];
        assert(extent_ok(a));
        assert(aligned(a.offset + a.length)) by {
            assert(aligned(a.offset as int) && aligned(a.length as int));
        }
        let start = a.offset + a.length;
        let ghost head = out@;
        if b.offset > start {
            let size = (b.offset - start) - (b.offset - start) % PAGE_SIZE;
            if size > 0 {
                out.push(FreeExtent { size, ptr: start });
            }
        }
        proof {
            let u = s@.subrange(0, i + 1);
            assert(u.drop_last() =~= s@.subrange(0, i as int));
            assert(u[u.len() - 2] == a && u[u.len() - 1] == b);
            assert(out@ =~= head + gap_after(a, b));
        }
        i = i + 1;
    }
    assert(s@.subrange(0, i as int) =~= s@);
    out
}

/// The free-space list that a table's descriptors imply: the gaps between neighbours once
/// the descriptors are ordered by offset.
pub fn reconstruct_free_space(t: &Vec<FragmentDescriptor>) -> (r: (Vec<FreeExtent>, Ghost<Seq<FragmentDescriptor>>))
    requires
        forall|i: int| 0 <= i < t@.len() ==> extent_ok(#[trigger] t@[i]),
    ensures
        is_offset_order(r.1@, t@),
        r.0@ == gaps_of(r.1@),
{
    let sorted = sort_by_offset(t);
    proof {
        assert forall|i: int| 0 <= i < sorted@.len() implies extent_ok(#[trigger] sorted@[i]) by {
            to_multiset_contains(sorted@, sorted@[i]);
            to_multiset_contains(t@, sorted@[i]);
            assert(sorted@.contains(sorted@[i]));
        }
    }
    let gaps = collect_gaps(&sorted);
    (gaps, Ghost(sorted@))
}

} // verus!
