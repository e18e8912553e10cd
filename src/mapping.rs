//! The mmap / munmap engine: validate the request, check every page of the
//! span without touching anything, then apply the change page by page.
use vstd::prelude::*;
use crate::address::{idx0, leaf_prefix, vpn_in_range, VirtPageNum, PAGE_SIZE, VA_LIMIT, VPN_LIMIT};
use crate::frame::PhysMemory;
use crate::page_table::{has_leaf_table, has_middle_table, path_cost, PageTable};
use crate::pte::{lemma_pack, pack, PTEFlags, PageTableEntry, FLAG_U, FLAG_V};

verus! {

/// First page of a span that starts at `start`.
pub open spec fn page_lo(start: usize) -> int {
    start as int / 4096
}

/// One past the last page of the span `start .. start + len` (the end rounded up).
pub open spec fn page_hi(start: usize, len: usize) -> int {
    (start + len + 4095) as int / 4096
}

/// The span lies inside the 39-bit address space.
pub open spec fn span_in_space(start: usize, len: usize) -> bool {
    start + len <= VA_LIMIT
}

/// The permission field names at least one of Read, Write, Execute and nothing else.
pub open spec fn port_ok(port: usize) -> bool {
    1 <= port <= 7
}

/// Entry flags that mmap gives a page: User plus the requested permissions
/// (port bit 0 is Read, bit 1 Write, bit 2 Execute).
pub open spec fn mmap_flags(port: usize) -> u8 {
    ((port as u8) << 1u8) | FLAG_U
}

/// Frames that mmap takes for page `w` of a span whose first page is `first`:
/// its data frame, its leaf table when `w` starts the span or a leaf block and
/// the block has none, and its middle table likewise.
pub open spec fn page_cost(pt: PageTable, mem: PhysMemory, first: int, w: int) -> int {
    1 + (if (w == first || w % 512 == 0) && !has_leaf_table(mem, pt.root(), w as usize) {
        1int
    } else {
        0int
    }) + (if (w == first || w % 262144 == 0) && !has_middle_table(mem, pt.root(), w as usize) {
        1int
    } else {
        0int
    })
}

/// Frames that mmap takes for the pages `a .. b` of a span that starts at `first`.
pub open spec fn span_cost(pt: PageTable, mem: PhysMemory, first: int, a: int, b: int) -> int
    decreases b - a,
{
    if a >= b {
        0
    } else {
        page_cost(pt, mem, first, a) + span_cost(pt, mem, first, a + 1, b)
    }
}

/// Some page of `lo .. hi` has a valid translation.
pub open spec fn any_mapped(pt: PageTable, mem: PhysMemory, lo: int, hi: int) -> bool {
    exists|w: usize| lo <= w < hi && (#[trigger] pt.translation(mem, w)).is_some()
}

/// Some page of `lo .. hi` has no valid translation.
pub open spec fn any_unmapped(pt: PageTable, mem: PhysMemory, lo: int, hi: int) -> bool {
    exists|w: usize| lo <= w < hi && (#[trigger] pt.translation(mem, w)).is_none()
}

/// Exactly when mmap refuses a request.
pub open spec fn mmap_refused(pt: PageTable, mem: PhysMemory, start: usize, len: usize, port: usize) -> bool {
    ||| !port_ok(port)
    ||| start % 4096 != 0
    ||| (len > 0 && (!span_in_space(start, len) || any_mapped(pt, mem, page_lo(start), page_hi(start, len))
        || mem.free_count() < span_cost(pt, mem, page_lo(start), page_lo(start), page_hi(start, len))))
}

/// Exactly when munmap refuses a request.
pub open spec fn munmap_refused(pt: PageTable, mem: PhysMemory, start: usize, len: usize) -> bool {
    ||| start % 4096 != 0
    ||| (len > 0 && (!span_in_space(start, len) || any_unmapped(pt, mem, page_lo(start), page_hi(start, len))))
}

/// First page and one past the last page of an in-space span.
fn span_pages(start: usize, len: usize) -> (r: (usize, usize))
    requires
        span_in_space(start, len),
    ensures
        r.0 == page_lo(start),
        r.1 == page_hi(start, len),
        r.0 <= r.1 <= VPN_LIMIT,
        len > 0 ==> r.0 < r.1,
{
    let end = start as u64 + len as u64;
    let hi = (end + 4095) / 4096;
    (start / PAGE_SIZE, hi as usize)
}

/// Frames that mmap takes for page `w` of a span that starts at `first`.
fn page_frames(pt: &PageTable, mem: &PhysMemory, first: usize, w: usize) -> (r: usize)
    requires
        mem.wf(),
    ensures
        r == page_cost(*pt, *mem, first as int, w as int),
        r <= 3,
{
    let mut r: usize = 1;
    if (w == first || w % 512 == 0) && !pt.leaf_table_present(mem, VirtPageNum(w)) {
        r = r + 1;
    }
    if (w == first || w % 262144 == 0) && !pt.middle_table_present(mem, VirtPageNum(w)) {
        r = r + 1;
    }
    r
}

/// A span costs at least nothing.
proof fn lemma_span_cost_nonneg(pt: PageTable, mem: PhysMemory, first: int, a: int, b: int)
    ensures
        span_cost(pt, mem, first, a, b) >= 0,
    decreases b - a,
{
    if a < b {
        lemma_span_cost_nonneg(pt, mem, first, a + 1, b);
    }
}

/// Once page `v` of a span has been mapped, the rest of the span, seen as a
/// span of its own from `v + 1`, costs what it cost as part of the span from `v`.
proof fn lemma_cost_shift(p: PageTable, m: PhysMemory, p2: PageTable, m2: PhysMemory, v: int, a: int, hi: int)
    requires
        0 <= v < a <= hi <= VPN_LIMIT,
        forall|w: usize|
            #[trigger] has_leaf_table(m2, p2.root(), w) == (has_leaf_table(m, p.root(), w)
                || leaf_prefix(w) == leaf_prefix(v as usize)),
        forall|w: usize|
            #[trigger] has_middle_table(m2, p2.root(), w) == (has_middle_table(m, p.root(), w)
                || idx0(w) == idx0(v as usize)),
    ensures
        span_cost(p2, m2, v + 1, a, hi) == span_cost(p, m, v, a, hi),
    decreases hi - a,
{
    if a < hi {
        lemma_cost_shift(p, m, p2, m2, v, a + 1, hi);
        let w = a as usize;
        let u = v as usize;
        assert(leaf_prefix(w) == a / 512 && leaf_prefix(u) == v / 512) by {
            lemma_prefix_of(w);
            lemma_prefix_of(u);
        }
        assert(idx0(w) == a / 262144 && idx0(u) == v / 262144);
        if a % 512 == 0 {
            assert(a / 512 != v / 512);
        } else if a == v + 1 {
            assert(a / 512 == v / 512);
        }
        if a % 262144 == 0 {
            assert(a / 262144 != v / 262144);
        } else if a == v + 1 {
            assert(a / 262144 == v / 262144);
        }
        assert(page_cost(p2, m2, v + 1, a) == page_cost(p, m, v, a));
    }
}

/// Below the address-space limit the leaf prefix is the page number without its
/// leaf index.
proof fn lemma_prefix_of(w: usize)
    requires
        w < VPN_LIMIT,
    ensures
        leaf_prefix(w) == w / 512,
        idx0(w) == w / 262144,
{
    let x = w as int;
    assert(((x / 262144) % 512) * 512 + (x / 512) % 512 == x / 512 && (x / 262144) % 512 == x / 262144)
        by (nonlinear_arith)
        requires 0 <= x < 134217728;
}

/// Where every page of the span already has its tables, the span costs one
/// frame per page.
pub proof fn lemma_cost_with_tables(pt: PageTable, mem: PhysMemory, first: int, a: int, b: int)
    requires
        0 <= first,
        first <= a,
        b <= VPN_LIMIT,
        forall|w: usize| a <= w < b ==> #[trigger] has_leaf_table(mem, pt.root(), w),
        forall|w: usize| a <= w < b ==> #[trigger] has_middle_table(mem, pt.root(), w),
    ensures
        span_cost(pt, mem, first, a, b) == if a < b { b - a } else { 0 },
    decreases b - a,
{
    if a < b {
        lemma_cost_with_tables(pt, mem, first, a + 1, b);
        assert(has_middle_table(mem, pt.root(), a as usize));
        assert(has_leaf_table(mem, pt.root(), a as usize));
    }
}

/// Checks that the span fits the address space without overflowing.
fn fits_space(start: usize, len: usize) -> (r: bool)
    ensures
        r == span_in_space(start, len),
{
    start as u64 <= VA_LIMIT && len as u64 <= VA_LIMIT - start as u64
}

/// Maps every page of `start .. start + len` to a fresh frame with User and the
/// permissions in `port`. Returns -1, changing nothing, when `start` is not
/// page aligned, `port` is not a non-empty subset of Read/Write/Execute, the
/// span leaves the address space, a page of it is already mapped, or the
/// allocator cannot supply what the span needs: a data frame per page and
/// each middle or leaf table that is missing along it (`span_cost`). Otherwise
/// 0, having taken exactly those frames. A zero length is a successful no-op.
#[verifier::rlimit(60)]
pub fn sys_mmap(pt: &mut PageTable, mem: &mut PhysMemory, start: usize, len: usize, port: usize) -> (r: isize)
    requires
        old(pt).wf(*old(mem)),
    ensures
        final(pt).wf(*final(mem)),
        r == 0 || r == -1,
        (r == -1) == mmap_refused(*old(pt), *old(mem), start, len, port),
        r == -1 ==> *final(pt) == *old(pt) && *final(mem) == *old(mem),
        final(mem).frame_count() == old(mem).frame_count(),
        old(mem).next_free() <= final(mem).next_free(),
        r == 0 ==> final(mem).next_free() == old(mem).next_free() + span_cost(
            *old(pt),
            *old(mem),
            page_lo(start),
            page_lo(start),
            page_hi(start, len),
        ),
        r == 0 ==> forall|w: usize|
            page_lo(start) <= w < page_hi(start, len) ==> {
                &&& (#[trigger] final(pt).translation(*final(mem), w)).is_some()
                &&& final(pt).translation(*final(mem), w).unwrap().spec_flags() == mmap_flags(port) | FLAG_V
                &&& old(mem).next_free() <= final(pt).translation(*final(mem), w).unwrap().spec_ppn()
                &&& final(pt).translation(*final(mem), w).unwrap().spec_ppn() < final(mem).next_free()
            },
        r == 0 ==> forall|a: usize, b: usize|
            page_lo(start) <= a < b < page_hi(start, len) ==> (#[trigger] final(pt).translation(*final(mem), a)).unwrap().spec_ppn()
                < (#[trigger] final(pt).translation(*final(mem), b)).unwrap().spec_ppn(),
        forall|w: usize|
            vpn_in_range(w) && !(page_lo(start) <= w < page_hi(start, len)) ==> #[trigger] final(pt).translation(*final(mem), w)
                == old(pt).translation(*old(mem), w),
{
    proof {
        pt.lemma_mem_wf(*mem);
    }
    if port == 0 || port > 7 || start % PAGE_SIZE != 0 {
        return -1;
    }
    if len == 0 {
        return 0;
    }
    if !fits_space(start, len) {
        return -1;
    }
    let (lo, hi) = span_pages(start, len);
    let mut need: usize = 0;
    let mut v = hi;
    while v > lo
        invariant
            lo <= v <= hi <= VPN_LIMIT,
            lo == page_lo(start),
            hi == page_hi(start, len),
            pt.wf(*mem),
            mem.wf(),
            forall|w: usize| v <= w < hi ==> (#[trigger] pt.translation(*mem, w)).is_none(),
            need == span_cost(*pt, *mem, lo as int, v as int, hi as int),
            need <= 3 * (hi - v),
        decreases v - lo,
    {
        v = v - 1;
        if pt.translate(mem, VirtPageNum(v)).is_some() {
            assert(pt.translation(*mem, v as usize).is_some());
            return -1;
        }
        need = need + page_frames(pt, mem, lo, v);
    }
    if mem.free_frames() < need {
        return -1;
    }
    let flags = PTEFlags { bits: ((port as u8) << 1u8) | FLAG_U };
    let ghost m0 = *mem;
    let ghost p0 = *pt;
    let mut v = lo;
    while v < hi
        invariant
            lo <= v <= hi <= VPN_LIMIT,
            lo == page_lo(start),
            hi == page_hi(start, len),
            flags.bits == mmap_flags(port),
            pt.wf(*mem),
            mem.free_count() >= span_cost(*pt, *mem, v as int, v as int, hi as int),
            mem.next_free() + span_cost(*pt, *mem, v as int, v as int, hi as int)
                == m0.next_free() + span_cost(p0, m0, lo as int, lo as int, hi as int),
            mem.frame_count() == m0.frame_count(),
            m0.next_free() <= mem.next_free(),
            forall|w: usize| v <= w < hi ==> (#[trigger] pt.translation(*mem, w)).is_none(),
            forall|w: usize|
                lo <= w < v ==> {
                    &&& (#[trigger] pt.translation(*mem, w)).is_some()
                    &&& pt.translation(*mem, w).unwrap().spec_flags() == mmap_flags(port) | FLAG_V
                    &&& m0.next_free() <= pt.translation(*mem, w).unwrap().spec_ppn()
                    &&& pt.translation(*mem, w).unwrap().spec_ppn() < mem.next_free()
                },
            forall|a: usize, b: usize|
                lo <= a < b < v ==> (#[trigger] pt.translation(*mem, a)).unwrap().spec_ppn()
                    < (#[trigger] pt.translation(*mem, b)).unwrap().spec_ppn(),
            forall|w: usize|
                vpn_in_range(w) && !(lo <= w < hi) ==> #[trigger] pt.translation(*mem, w)
                    == p0.translation(m0, w),
        decreases hi - v,
    {
        let ghost ma = *mem;
        let ghost pa = *pt;
        proof {
            assert(span_cost(pa, ma, v as int, v as int, hi as int) == page_cost(pa, ma, v as int, v as int)
                + span_cost(pa, ma, v as int, v as int + 1, hi as int));
            assert(page_cost(pa, ma, v as int, v as int) == 1 + path_cost(ma, pa.root(), v));
            lemma_span_cost_nonneg(pa, ma, v as int, v as int + 1, hi as int);
        }
        let res = pt.mmap(mem, VirtPageNum(v), flags);
        proof {
            let nf = ma.next_free();
            pt.lemma_mem_wf(*mem);
            pa.lemma_mem_wf(ma);
            assert(res.is_some());
            lemma_pack(nf as u64, flags.bits | FLAG_V);
            lemma_cost_shift(pa, ma, *pt, *mem, v as int, v as int + 1, hi as int);
            assert forall|w: usize| lo <= w < v + 1 implies {
                &&& (#[trigger] pt.translation(*mem, w)).is_some()
                &&& pt.translation(*mem, w).unwrap().spec_flags() == mmap_flags(port) | FLAG_V
                &&& m0.next_free() <= pt.translation(*mem, w).unwrap().spec_ppn()
                &&& pt.translation(*mem, w).unwrap().spec_ppn() < mem.next_free()
            } by {
                if w < v {
                    assert(pt.translation(*mem, w) == pa.translation(ma, w));
                }
            }
            assert forall|a: usize, b: usize|
                lo <= a < b < v + 1 implies (#[trigger] pt.translation(*mem, a)).unwrap().spec_ppn()
                    < (#[trigger] pt.translation(*mem, b)).unwrap().spec_ppn() by {
                assert(pt.translation(*mem, a) == pa.translation(ma, a));
                if b < v {
                    assert(pt.translation(*mem, b) == pa.translation(ma, b));
                }
            }
            assert forall|w: usize| v + 1 <= w < hi implies (#[trigger] pt.translation(*mem, w)).is_none() by {
                assert(pt.translation(*mem, w) == pa.translation(ma, w));
            }
            assert forall|w: usize|
                vpn_in_range(w) && !(lo <= w < hi) implies #[trigger] pt.translation(*mem, w)
                    == p0.translation(m0, w) by {
                assert(pt.translation(*mem, w) == pa.translation(ma, w));
            }
        }
        v = v + 1;
    }
    0
}

/// Clears the translation of every page of `start .. start + len`. Returns -1,
/// changing nothing, when `start` is not page aligned, the span leaves the
/// address space, or a page of it is not mapped; otherwise 0. A zero length is
/// a successful no-op. The data frames stay allocated.
pub fn sys_munmap(pt: &mut PageTable, mem: &mut PhysMemory, start: usize, len: usize) -> (r: isize)
    requires
        old(pt).wf(*old(mem)),
    ensures
        final(pt).wf(*final(mem)),
        r == 0 || r == -1,
        (r == -1) == munmap_refused(*old(pt), *old(mem), start, len),
        r == -1 ==> *final(pt) == *old(pt) && *final(mem) == *old(mem),
        final(mem).frame_count() == old(mem).frame_count(),
        final(mem).next_free() == old(mem).next_free(),
        forall|w: usize|
            #[trigger] has_leaf_table(*final(mem), final(pt).root(), w) == has_leaf_table(*old(mem), old(pt).root(), w),
        forall|w: usize|
            #[trigger] has_middle_table(*final(mem), final(pt).root(), w) == has_middle_table(*old(mem), old(pt).root(), w),
        r == 0 ==> forall|w: usize|
            page_lo(start) <= w < page_hi(start, len) ==> (#[trigger] final(pt).translation(*final(mem), w)).is_none(),
        forall|w: usize|
            vpn_in_range(w) && !(page_lo(start) <= w < page_hi(start, len)) ==> #[trigger] final(pt).translation(*final(mem), w)
                == old(pt).translation(*old(mem), w),
{
    proof {
        pt.lemma_mem_wf(*mem);
    }
    if start % PAGE_SIZE != 0 {
        return -1;
    }
    if len == 0 {
        return 0;
    }
    if !fits_space(start, len) {
        return -1;
    }
    let (lo, hi) = span_pages(start, len);
    let mut v = lo;
    while v < hi
        invariant
            lo <= v <= hi,
            lo == page_lo(start),
            hi == page_hi(start, len),
            pt.wf(*mem),
            mem.wf(),
            forall|w: usize| lo <= w < v ==> (#[trigger] pt.translation(*mem, w)).is_some(),
        decreases hi - v,
    {
        if pt.translate(mem, VirtPageNum(v)).is_none() {
            assert(pt.translation(*mem, v as usize).is_none());
            return -1;
        }
        v = v + 1;
    }
    let ghost m0 = *mem;
    let ghost p0 = *pt;
    let mut v = lo;
    while v < hi
        invariant
            lo <= v <= hi <= VPN_LIMIT,
            lo == page_lo(start),
            hi == page_hi(start, len),
            pt.wf(*mem),
            mem.frame_count() == m0.frame_count(),
            mem.next_free() == m0.next_free(),
            forall|w: usize| #[trigger] has_leaf_table(*mem, pt.root(), w) == has_leaf_table(m0, p0.root(), w),
            forall|w: usize| #[trigger] has_middle_table(*mem, pt.root(), w) == has_middle_table(m0, p0.root(), w),
            forall|w: usize| v <= w < hi ==> (#[trigger] pt.translation(*mem, w)).is_some(),
            forall|w: usize| lo <= w < v ==> (#[trigger] pt.translation(*mem, w)).is_none(),
            forall|w: usize|
                vpn_in_range(w) && !(lo <= w < hi) ==> #[trigger] pt.translation(*mem, w)
                    == p0.translation(m0, w),
        decreases hi - v,
    {
        let ghost ma = *mem;
        let ghost pa = *pt;
        pt.unmap(mem, VirtPageNum(v));
        proof {
            assert forall|w: usize| lo <= w < v + 1 implies (#[trigger] pt.translation(*mem, w)).is_none() by {
                if w < v {
                    assert(pt.translation(*mem, w) == pa.translation(ma, w));
                }
            }
            assert forall|w: usize| v + 1 <= w < hi implies (#[trigger] pt.translation(*mem, w)).is_some() by {
                assert(pt.translation(*mem, w) == pa.translation(ma, w));
            }
            assert forall|w: usize|
                vpn_in_range(w) && !(lo <= w < hi) implies #[trigger] pt.translation(*mem, w)
                    == p0.translation(m0, w) by {
                assert(pt.translation(*mem, w) == pa.translation(ma, w));
            }
        }
        v = v + 1;
    }
    0
}

/// Overlap is refused as a whole: when the page after `a` is mapped (as it is
/// once `a .. a + 2 * PAGE_SIZE` has been mmapped), an mmap of
/// `a + PAGE_SIZE .. a + 3 * PAGE_SIZE` is refused, and a refused mmap changes
/// nothing, so that page keeps its mapping.
pub proof fn lemma_overlap_refused(pt: PageTable, mem: PhysMemory, a: usize, port: usize)
    requires
        a % 4096 == 0,
        a + 3 * 4096 <= usize::MAX,
        pt.translation(mem, (a / 4096 + 1) as usize).is_some(),
    ensures
        mmap_refused(pt, mem, (a + 4096) as usize, 8192, port),
{
    let s = (a + 4096) as usize;
    assert(page_lo(s) == a / 4096 + 1);
    assert(page_hi(s, 8192) == a / 4096 + 3);
    assert(pt.translation(mem, (a / 4096 + 1) as usize).is_some());
}

/// Unmapping leaves no stale overlap. Take a span that mmap has mapped (every
/// page translates) and that munmap has then cleared (no page translates, and
/// every table munmap found is still there): mmap of the same span is accepted
/// again as soon as the allocator has one frame per page.
pub proof fn lemma_mmap_after_munmap(
    pt1: PageTable,
    mem1: PhysMemory,
    pt2: PageTable,
    mem2: PhysMemory,
    start: usize,
    len: usize,
    port: usize,
)
    requires
        port_ok(port),
        start % 4096 == 0,
        span_in_space(start, len),
        forall|w: usize| page_lo(start) <= w < page_hi(start, len) ==> (#[trigger] pt1.translation(mem1, w)).is_some(),
        forall|w: usize| page_lo(start) <= w < page_hi(start, len) ==> (#[trigger] pt2.translation(mem2, w)).is_none(),
        forall|w: usize| #[trigger] has_leaf_table(mem2, pt2.root(), w) == has_leaf_table(mem1, pt1.root(), w),
        forall|w: usize| #[trigger] has_middle_table(mem2, pt2.root(), w) == has_middle_table(mem1, pt1.root(), w),
        mem2.free_count() >= page_hi(start, len) - page_lo(start),
    ensures
        !mmap_refused(pt2, mem2, start, len, port),
{
    let lo = page_lo(start);
    let hi = page_hi(start, len);
    assert forall|w: usize| lo <= w < hi implies #[trigger] has_leaf_table(mem2, pt2.root(), w) by {
        assert(pt1.translation(mem1, w).is_some());
    }
    assert forall|w: usize| lo <= w < hi implies #[trigger] has_middle_table(mem2, pt2.root(), w) by {
        assert(pt1.translation(mem1, w).is_some());
    }
    lemma_cost_with_tables(pt2, mem2, lo, lo, hi);
}

/// A start address that is not page aligned is refused by both mmap and munmap.
pub proof fn lemma_misaligned_refused(pt: PageTable, mem: PhysMemory, start: usize, len: usize, port: usize)
    requires
        start % 4096 != 0,
    ensures
        mmap_refused(pt, mem, start, len, port),
        munmap_refused(pt, mem, start, len),
{
}

} // verus!
