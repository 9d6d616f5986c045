//! What frames and heap promise, said of addresses and bytes.
use vstd::prelude::*;
use crate::mm::frames::Frames;
use crate::mm::heap::Block;

verus! {

// ---- frames ---------------------------------------------------------------------------------

proof fn lemma_blocking(reserved: Seq<(u64, u64)>, p: int, i: int)
    requires
        0 <= i <= reserved.len(),
    ensures
        crate::mm::frames::blocking(reserved, p, i) is Some <==> exists|k: int|
            i <= k < reserved.len() && p < (#[trigger] reserved[k]).1 && reserved[k].0 < p + 4096,
        crate::mm::frames::blocking(reserved, p, i) matches Some(e) ==> exists|k: int|
            i <= k < reserved.len() && (#[trigger] reserved[k]).1 == e && p < e && reserved[k].0
                < p + 4096,
    decreases reserved.len() - i,
{
    if i < reserved.len() {
        lemma_blocking(reserved, p, i + 1);
        if p < reserved[i].1 && reserved[i].0 < p + 4096 {
            assert(i <= i < reserved.len() && reserved[i].1 == reserved[i].1);
        }
    }
}

/// Whether a byte is in a range.
pub open spec fn in_range(r: (u64, u64), b: int) -> bool {
    r.0 <= b < r.1
}

/// A frame can be used exactly when none of its bytes is reserved.
pub proof fn a_frame_is_usable_when_no_byte_of_it_is_reserved(
    reserved: Seq<(u64, u64)>,
    p: int,
)
    requires
        crate::mm::frames::ranges_ok(reserved),
    ensures
        crate::mm::frames::clear_of(reserved, p) <==> forall|k: int, b: int|
            0 <= k < reserved.len() && p <= b < p + 4096 ==> !#[trigger] in_range(reserved[k], b),
{
    lemma_blocking(reserved, p, 0);
    if !crate::mm::frames::clear_of(reserved, p) {
        let k = choose|k: int|
            0 <= k < reserved.len() && p < (#[trigger] reserved[k]).1 && reserved[k].0 < p + 4096;
        let b: int = if reserved[k].0 > p {
            reserved[k].0 as int
        } else {
            p
        };
        assert(in_range(reserved[k], b));
    }
}

/// What is usable is counted frame by frame: one for each that is clear.
pub proof fn usable_frames_are_counted_one_by_one(reserved: Seq<(u64, u64)>, p: int, end: int)
    ensures
        p + 4096 > end ==> crate::mm::frames::usable_from(reserved, p, end) == 0,
        p + 4096 <= end ==> crate::mm::frames::usable_from(reserved, p, end)
            - crate::mm::frames::usable_from(reserved, p + 4096, end)
            == if crate::mm::frames::clear_of(reserved, p) {
            1int
        } else {
            0
        },
{
}

/// A reserved range is kept as whole pages: all of its bytes, and less than a page more on
/// either side; empty ones are not kept.
pub proof fn reserved_ranges_are_kept_as_pages(ranges: Seq<(u64, u64)>, n: int)
    requires
        0 <= n < ranges.len(),
        ranges[n].1 + 8192 <= u64::MAX,
    ensures
        ({
            let before = crate::mm::frames::rounded(ranges, n);
            let after = crate::mm::frames::rounded(ranges, n + 1);
            let (s, e) = ranges[n];
            if s >= e {
                after == before
            } else {
                let (ps, pe) = after.last();
                &&& after.len() == before.len() + 1
                &&& after.drop_last() == before
                &&& ps % 4096 == 0 && ps <= s < ps + 4096
                &&& pe % 4096 == 0 && e <= pe < e + 4096
            }
        }),
{
    let before = crate::mm::frames::rounded(ranges, n);
    let after = crate::mm::frames::rounded(ranges, n + 1);
    if ranges[n].0 < ranges[n].1 {
        assert(after.drop_last() =~= before);
    }
}

/// The region that is claimed is one of those reported, and none is larger; of equals it is the
/// first.
pub proof fn the_largest_region_is_claimed(regions: Seq<(u64, u64)>, n: int, k: int)
    requires
        0 <= k < n <= regions.len(),
    ensures
        crate::mm::frames::largest(regions, n) is Some,
        ({
            let b = crate::mm::frames::largest(regions, n)->0;
            &&& regions[k].1 <= b.1
            &&& exists|j: int|
                0 <= j < n && b == #[trigger] regions[j] && (k < j ==> regions[k].1 < b.1)
        }),
    decreases n,
{
    if n > 1 {
        the_largest_region_is_claimed(
            regions,
            n - 1,
            if k < n - 1 {
                k
            } else {
                0
            },
        );
        let a = crate::mm::frames::largest(regions, n - 1)->0;
        let j = choose|j: int|
            0 <= j < n - 1 && a == #[trigger] regions[j] && ((if k < n - 1 {
                k
            } else {
                0
            }) < j ==> regions[if k < n - 1 {
                k
            } else {
                0
            }].1 < a.1);
        if regions[n - 1].1 > a.1 {
            assert(crate::mm::frames::largest(regions, n)->0 == regions[n - 1]);
        } else {
            assert(crate::mm::frames::largest(regions, n)->0 == regions[j]);
        }
    } else {
        assert(crate::mm::frames::largest(regions, 0) is None);
        assert(crate::mm::frames::largest(regions, 1)->0 == regions[0]);
    }
}

/// Frames that were given back are handed out first, the last one given back before the others;
/// a fresh one is taken only when there is none, and is the first usable one not handed out yet.
pub proof fn frames_given_back_go_first(f: Frames)
    requires
        f.sound(),
    ensures
        ({
            let (r, bump) = crate::mm::frames::alloc_outcome(f);
            &&& f.free@.len() > 0 ==> r == Some(f.free@[f.free@.len() - 1]) && bump == f.bump
            &&& f.free@.len() == 0 ==> {
                &&& r matches Some(q) ==> f.bump <= q && bump == q + 4096 && q + 4096 <= f.end
                    && crate::mm::frames::clear_of(f.reserved@, q as int) && forall|x: int|
                    f.bump <= x < q && x % 4096 == 0 ==> !#[trigger] crate::mm::frames::clear_of(
                        f.reserved@,
                        x,
                    )
                &&& r is None && f.bump != 0 ==> forall|x: int|
                    f.bump <= x && x % 4096 == 0 && x + 4096 <= f.end
                        ==> !#[trigger] crate::mm::frames::clear_of(f.reserved@, x)
            }
        }),
{
    if f.bump != 0 {
        crate::mm::frames::nothing_usable_is_stepped_over(
            f.reserved@,
            f.bump as int,
            f.end as int,
        );
    }
}

// ---- the heap -------------------------------------------------------------------------------

/// Rounding up gives the first multiple from there on.
pub proof fn rounding_up_gives_the_next_multiple(v: int, align: int)
    requires
        0 <= v,
        0 < align,
    ensures
        crate::mm::heap::aligned_up(v, align) % align == 0,
        v <= crate::mm::heap::aligned_up(v, align) < v + align,
{
    if v % align != 0 {
        let r = crate::mm::heap::aligned_up(v, align);
        assert(r % align == 0 && 0 < v % align < align) by (nonlinear_arith)
            requires
                r == v + (align - v % align),
                v % align != 0,
                0 < align,
                0 <= v,
        ;
    }
}

/// An allocation takes what was asked for, at least sixteen bytes, and less than eight more.
pub proof fn an_allocation_takes_what_was_asked_for(size: u64)
    ensures
        ({
            let n = crate::mm::heap::rounded_size(size);
            let want: int = if size < 16 {
                16
            } else {
                size as int
            };
            n % 8 == 0 && want <= n < want + 8
        }),
{
}

proof fn lemma_first_fit(list: Seq<Block>, size: int, align: int, i: int, k: int)
    requires
        0 <= i <= list.len(),
    ensures
        match crate::mm::heap::first_fit(list, size, align, i) {
            Some(f) => i <= f < list.len() && crate::mm::heap::fits(list[f], size, align) && (i <= k
                < f ==> !crate::mm::heap::fits(list[k], size, align)),
            None => i <= k < list.len() ==> !crate::mm::heap::fits(list[k], size, align),
        },
    decreases list.len() - i,
{
    if i < list.len() && !crate::mm::heap::fits(list[i], size, align) {
        lemma_first_fit(list, size, align, i + 1, k);
    }
}

/// Whether an allocation of `need` bytes can stand at `start` in a free block: aligned, inside,
/// and with nothing before it or enough to be a block.
pub open spec fn stands_in(b: Block, start: int, need: int, align: int) -> bool {
    &&& start % align == 0
    &&& b.addr <= start < b.addr + align
    &&& start + need <= b.addr + b.size
    &&& start == b.addr || start >= b.addr + 16
}

/// An allocation stands in the first free block that it can stand in, as low as it can, at a
/// multiple of what was asked for and of eight; it fails only if it can stand in none.
pub proof fn an_allocation_stands_in_the_first_block_it_can(
    list: Seq<Block>,
    size: u64,
    align: u64,
    k: int,
    at: int,
)
    requires
        crate::mm::heap::tidy(list),
        0 <= k < list.len(),
    ensures
        ({
            let need = crate::mm::heap::rounded_size(size);
            let al: int = if align < 8 {
                8
            } else {
                align as int
            };
            match crate::mm::heap::allotted(list, size, align) {
                Some((start, _)) => exists|i: int|
                    0 <= i < list.len() && stands_in(#[trigger] list[i], start, need, al) && (k < i
                        ==> !stands_in(list[k], at, need, al)),
                None => !stands_in(list[k], at, need, al),
            }
        }),
{
    let need = crate::mm::heap::rounded_size(size);
    let al = crate::mm::heap::raised_align(align) as int;
    lemma_first_fit(list, need, al, 0, k);
    rounding_up_gives_the_next_multiple(list[k].addr as int, al);
    if stands_in(list[k], at, need, al) {
        let up = crate::mm::heap::aligned_up(list[k].addr as int, al);
        lemma_same_multiple(list[k].addr as int, up, at, al);
        assert(crate::mm::heap::fits(list[k], need, al));
    }
    match crate::mm::heap::first_fit(list, need, al, 0) {
        Some(i) => {
            rounding_up_gives_the_next_multiple(list[i].addr as int, al);
            let start = crate::mm::heap::aligned_up(list[i].addr as int, al);
            assert(stands_in(list[i], start, need, al));
        },
        None => {},
    }
}

proof fn lemma_same_multiple(v: int, a: int, b: int, align: int)
    requires
        align > 0,
        a % align == 0,
        b % align == 0,
        v <= a < v + align,
        v <= b < v + align,
    ensures
        a == b,
{
    assert(a == a / align * align && b == b / align * align) by (nonlinear_arith)
        requires
            align > 0,
            a % align == 0,
            b % align == 0,
    ;
    let m = a / align;
    let n = b / align;
    assert(m == n) by (nonlinear_arith)
        requires
            a == m * align,
            b == n * align,
            align > 0,
            -align < a - b < align,
    ;
}

/// What is free is the sum of the blocks.
pub proof fn free_bytes_are_added_up(list: Seq<Block>, n: int)
    requires
        0 <= n < list.len(),
    ensures
        crate::mm::heap::bytes_in(list, 0) == 0,
        crate::mm::heap::bytes_in(list, n + 1) == crate::mm::heap::bytes_in(list, n)
            + list[n].size,
{
}

/// What an allocator claims: whole pages inside the largest region, nothing of it handed out
/// yet; without such a region it claims nothing.
pub proof fn whole_pages_of_the_largest_region_are_claimed(
    f0: Frames,
    f1: Frames,
    regions: Seq<(u64, u64)>,
    ranges: Seq<(u64, u64)>,
)
    requires
        crate::mm::frames::claimed(f0, f1, regions, ranges),
    ensures
        f1.free@ == f0.free@,
        f1.reserved@ == crate::mm::frames::rounded(ranges, ranges.len() as int),
        f1.bump == f1.start,
        regions.len() == 0 ==> f1.end == 0,
        f1.end != 0 ==> {
            let b = crate::mm::frames::largest(regions, regions.len() as int)->0;
            &&& f1.start % 4096 == 0 && b.0 <= f1.start < b.0 + 4096
            &&& f1.end % 4096 == 0 && f1.end <= b.0 + b.1 < f1.end + 4096
            &&& f1.start < f1.end
            &&& f1.total == crate::mm::frames::usable_from(
                f1.reserved@,
                f1.start as int,
                f1.end as int,
            )
        },
        f1.end == 0 ==> f1.start == 0 && f1.total == f0.total,
{
}

} // verus!
