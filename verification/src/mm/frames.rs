//! Physical frame allocator.
//!
//! Bump-allocate upward through the largest usable RAM region, stepping over
//! reserved ranges (the kernel image, the device tree blob), with freed frames
//! kept on a free list and handed out again first.
use vstd::prelude::*;
use crate::mm::{page_align_down, page_align_up, PAGE_SIZE};

verus! {

pub struct Frames {
    /// The first frame there is.
    pub start: u64,
    /// The next frame never handed out; 0 before there is any memory.
    pub bump: u64,
    pub end: u64,
    pub total: u64,
    /// Frames given back, the most recent last.
    pub free: Vec<u64>,
    /// Page-aligned ranges never handed out: `[start, end)`.
    pub reserved: Vec<(u64, u64)>,
}

/// The end of the first reserved range at or after the `i`th that the frame at
/// `p` overlaps.
pub open spec fn blocking(reserved: Seq<(u64, u64)>, p: int, i: int) -> Option<u64>
    decreases reserved.len() - i,
{
    if i >= reserved.len() {
        None
    } else if p < reserved[i].1 && reserved[i].0 < p + 4096 {
        Some(reserved[i].1)
    } else {
        blocking(reserved, p, i + 1)
    }
}

/// Whether the frame at `p` overlaps no reserved range.
pub open spec fn clear_of(reserved: Seq<(u64, u64)>, p: int) -> bool {
    blocking(reserved, p, 0) is None
}

/// Frames from `p` up to `end` that overlap no reserved range.
pub open spec fn usable_from(reserved: Seq<(u64, u64)>, p: int, end: int) -> int
    decreases end - p,
{
    if p + 4096 > end {
        0
    } else {
        usable_from(reserved, p + 4096, end) + if clear_of(reserved, p) {
            1int
        } else {
            0
        }
    }
}

/// How far `end` is past `p`, counting `p` itself.
pub open spec fn distance_to(p: int, end: int) -> int {
    if p <= end {
        end - p + 1
    } else {
        0
    }
}

/// The first frame from `p` up to `end` that overlaps no reserved range; a place
/// past the last frame where there is none.
pub open spec fn next_clear(reserved: Seq<(u64, u64)>, p: int, end: int) -> int
    decreases distance_to(p, end),
{
    if p + 4096 > end {
        p
    } else {
        match blocking(reserved, p, 0) {
            Some(e) => if e > p {
                next_clear(reserved, crate::mm::page_up(e as int), end)
            } else {
                p
            },
            None => p,
        }
    }
}

proof fn lemma_blocking(reserved: Seq<(u64, u64)>, p: int, i: int)
    requires
        0 <= i <= reserved.len(),
    ensures
        match blocking(reserved, p, i) {
            Some(e) => exists|k: int|
                i <= k < reserved.len() && e == (#[trigger] reserved[k]).1 && p < e
                    && reserved[k].0 < p + 4096,
            None => forall|k: int|
                i <= k < reserved.len() ==> !(p < (#[trigger] reserved[k]).1 && reserved[k].0 < p
                    + 4096),
        },
    decreases reserved.len() - i,
{
    if i < reserved.len() {
        if p < reserved[i].1 && reserved[i].0 < p + 4096 {
            assert(blocking(reserved, p, i) == Some(reserved[i].1));
        } else {
            lemma_blocking(reserved, p, i + 1);
        }
    }
}

/// Ranges are whole pages, and far enough below the top of the address space
/// that a frame after them has an address.
pub open spec fn ranges_ok(reserved: Seq<(u64, u64)>) -> bool {
    forall|i: int|
        0 <= i < reserved.len() ==> (#[trigger] reserved[i]).0 % 4096 == 0 && reserved[i].1 % 4096
            == 0 && reserved[i].0 < reserved[i].1 && reserved[i].1 + 4096 <= u64::MAX
}

proof fn lemma_range_blocks_all(reserved: Seq<(u64, u64)>, p: int, q: int)
    requires
        ranges_ok(reserved),
        p % 4096 == 0,
        q % 4096 == 0,
        p <= q,
        blocking(reserved, p, 0) matches Some(e) && q < e,
    ensures
        !clear_of(reserved, q),
{
    lemma_blocking(reserved, p, 0);
    let e = blocking(reserved, p, 0)->0;
    let k = choose|k: int|
        0 <= k < reserved.len() && e == (#[trigger] reserved[k]).1 && p < e && reserved[k].0 < p
            + 4096;
    lemma_blocking(reserved, q, 0);
    assert(q < reserved[k].1 && reserved[k].0 < q + 4096);
}

proof fn lemma_skip_counts_nothing(reserved: Seq<(u64, u64)>, p: int, q: int, e: u64, end: int)
    requires
        ranges_ok(reserved),
        p % 4096 == 0,
        q % 4096 == 0,
        e % 4096 == 0,
        blocking(reserved, p, 0) == Some(e),
        p <= q <= e,
    ensures
        usable_from(reserved, q, end) == usable_from(reserved, e as int, end),
    decreases e - q,
{
    if q < e {
        lemma_range_blocks_all(reserved, p, q);
        lemma_skip_counts_nothing(reserved, p, q + 4096, e, end);
        if q + 4096 > end {
            assert(usable_from(reserved, e as int, end) == 0);
        }
    }
}

proof fn lemma_block_end(reserved: Seq<(u64, u64)>, p: int)
    requires
        ranges_ok(reserved),
    ensures
        blocking(reserved, p, 0) matches Some(e) ==> e % 4096 == 0 && e > p && e + 4096 <= u64::MAX
            && crate::mm::page_up(e as int) == e,
{
    lemma_blocking(reserved, p, 0);
}

/// Where the bump pointer comes to rest is the first frame that can be handed
/// out: everything stepped over was reserved.
pub proof fn nothing_usable_is_stepped_over(reserved: Seq<(u64, u64)>, p: int, end: int)
    requires
        ranges_ok(reserved),
        p % 4096 == 0,
    ensures
        ({
            let q = next_clear(reserved, p, end);
            &&& p <= q
            &&& q % 4096 == 0
            &&& q + 4096 <= end ==> clear_of(reserved, q)
            &&& usable_from(reserved, q, end) == usable_from(reserved, p, end)
            &&& forall|r: int|
                p <= r < q && r % 4096 == 0 && r + 4096 <= end ==> !#[trigger] clear_of(reserved, r)
            &&& p + 4096 <= u64::MAX ==> q + 4096 <= u64::MAX
        }),
    decreases distance_to(p, end),
{
    if p + 4096 <= end {
        lemma_block_end(reserved, p);
        match blocking(reserved, p, 0) {
            Some(e) => {
                lemma_skip_counts_nothing(reserved, p, p, e, end);
                nothing_usable_is_stepped_over(reserved, e as int, end);
                assert forall|r: int|
                    p <= r < next_clear(reserved, p, end) && r % 4096 == 0 && r + 4096
                        <= end implies !#[trigger] clear_of(reserved, r) by {
                    if r < e {
                        lemma_range_blocks_all(reserved, p, r);
                    }
                }
            },
            None => {},
        }
    }
}

/// The reserved ranges that the first `n` of `ranges` make: empty ones dropped,
/// the rest rounded outward to whole pages.
pub open spec fn rounded(ranges: Seq<(u64, u64)>, n: int) -> Seq<(u64, u64)>
    decreases n,
{
    if n <= 0 {
        Seq::empty()
    } else {
        let (s, e) = ranges[n - 1];
        let head = rounded(ranges, n - 1);
        if e <= s {
            head
        } else {
            head.push(
                (crate::mm::page_down(s as int) as u64, crate::mm::page_up(e as int) as u64),
            )
        }
    }
}

/// The largest of the first `n` memory regions, the earliest of equals.
pub open spec fn largest(regions: Seq<(u64, u64)>, n: int) -> Option<(u64, u64)>
    decreases n,
{
    if n <= 0 {
        None
    } else {
        match largest(regions, n - 1) {
            None => Some(regions[n - 1]),
            Some(b) => if regions[n - 1].1 > b.1 {
                Some(regions[n - 1])
            } else {
                Some(b)
            },
        }
    }
}

impl Frames {
    pub open spec fn wf(&self) -> bool {
        &&& ranges_ok(self.reserved@)
        &&& self.start <= self.bump
        &&& self.bump % 4096 == 0
        &&& self.end % 4096 == 0
        &&& self.bump + 4096 <= u64::MAX
        &&& self.end + 4096 <= u64::MAX
    }

    /// Every free frame was once handed out, is usable, and is listed once.
    pub open spec fn sound(&self) -> bool {
        &&& self.wf()
        &&& forall|i: int|
            0 <= i < self.free@.len() ==> {
                &&& self.start <= (#[trigger] self.free@[i]) < self.bump
                &&& self.free@[i] % 4096 == 0
                &&& self.free@[i] != 0
                &&& self.free@[i] + 4096 <= self.end
                &&& clear_of(self.reserved@, self.free@[i] as int)
            }
        &&& self.free@.no_duplicates()
    }

    /// Whether the frame at `f` is in use: handed out and not given back.
    pub open spec fn in_use(&self, f: u64) -> bool {
        &&& f != 0
        &&& f % 4096 == 0
        &&& self.start <= f < self.bump
        &&& f + 4096 <= self.end
        &&& clear_of(self.reserved@, f as int)
        &&& !self.free@.contains(f)
    }

    /// Frames available right now.
    pub open spec fn available(&self) -> int {
        self.free@.len() + if self.bump == 0 {
            0
        } else {
            usable_from(self.reserved@, self.bump as int, self.end as int)
        }
    }

    /// An allocator with no memory.
    pub fn new() -> (f: Frames)
        ensures
            f.sound(),
            f.start == 0,
            f.bump == 0,
            f.end == 0,
            f.total == 0,
            f.free@ == Seq::<u64>::empty(),
            f.reserved@ == Seq::<(u64, u64)>::empty(),
    {
        Frames { start: 0, bump: 0, end: 0, total: 0, free: Vec::new(), reserved: Vec::new() }
    }

    /// If `frame` overlaps a reserved range, the end of that range.
    pub fn blocked_until(&self, frame: u64) -> (r: Option<u64>)
        requires
            frame + 4096 <= u64::MAX,
        ensures
            r == blocking(self.reserved@, frame as int, 0),
    {
        let end: u64 = frame + PAGE_SIZE;
        let mut i: usize = 0;
        while i < self.reserved.len()
            invariant
                i <= self.reserved@.len(),
                end == frame + 4096,
                blocking(self.reserved@, frame as int, 0) == blocking(
                    self.reserved@,
                    frame as int,
                    i as int,
                ),
            decreases self.reserved@.len() - i,
        {
            let (s, e) = self.reserved[i];
            if frame < e && s < end {
                return Some(e);
            }
            i = i + 1;
        }
        None
    }
}

proof fn lemma_rounded(ranges: Seq<(u64, u64)>, n: int)
    requires
        0 <= n <= ranges.len(),
        forall|i: int| 0 <= i < n ==> (#[trigger] ranges[i]).1 + 8192 <= u64::MAX,
    ensures
        ranges_ok(rounded(ranges, n)),
        rounded(ranges, n).len() <= n,
    decreases n,
{
    if n > 0 {
        lemma_rounded(ranges, n - 1);
        crate::mm::rounding_encloses(ranges[n - 1].0 as int);
        crate::mm::rounding_encloses(ranges[n - 1].1 as int);
    }
}

proof fn lemma_rounded_covers(ranges: Seq<(u64, u64)>, n: int, k: int) -> (i: int)
    requires
        0 <= k < n <= ranges.len(),
        ranges[k].0 < ranges[k].1,
        ranges[k].1 + 8192 <= u64::MAX,
    ensures
        0 <= i < rounded(ranges, n).len(),
        rounded(ranges, n)[i].0 <= ranges[k].0,
        ranges[k].1 <= rounded(ranges, n)[i].1,
    decreases n,
{
    if k == n - 1 {
        crate::mm::rounding_encloses(ranges[k].0 as int);
        crate::mm::rounding_encloses(ranges[k].1 as int);
        rounded(ranges, n).len() - 1
    } else {
        lemma_rounded_covers(ranges, n - 1, k)
    }
}

/// No frame with a reserved byte in it is usable, however many ranges are reserved.
pub proof fn a_frame_with_a_reserved_byte_is_not_usable(
    ranges: Seq<(u64, u64)>,
    k: int,
    b: int,
    p: int,
)
    requires
        0 <= k < ranges.len(),
        ranges[k].0 <= b < ranges[k].1,
        ranges[k].1 + 8192 <= u64::MAX,
        p <= b < p + 4096,
    ensures
        !clear_of(rounded(ranges, ranges.len() as int), p),
{
    let r = rounded(ranges, ranges.len() as int);
    let i = lemma_rounded_covers(ranges, ranges.len() as int, k);
    lemma_blocking(r, p, 0);
    assert(p < r[i].1 && r[i].0 < p + 4096);
}

proof fn lemma_usable_nonneg(reserved: Seq<(u64, u64)>, p: int, end: int)
    ensures
        0 <= usable_from(reserved, p, end),
        end >= p ==> usable_from(reserved, p, end) * 4096 <= end - p,
    decreases end - p,
{
    if p + 4096 <= end {
        lemma_usable_nonneg(reserved, p + 4096, end);
    }
}

fn count_usable(f: &Frames, from: u64) -> (n: u64)
    requires
        f.wf(),
        from % 4096 == 0,
        from + 4096 <= u64::MAX,
    ensures
        n == usable_from(f.reserved@, from as int, f.end as int),
{
    let mut n: u64 = 0;
    let mut p: u64 = from;
    let ghost all = usable_from(f.reserved@, from as int, f.end as int);
    proof {
        lemma_usable_nonneg(f.reserved@, from as int, f.end as int);
    }
    while p + PAGE_SIZE <= f.end
        invariant
            f.wf(),
            p % 4096 == 0,
            from <= p,
            p + 4096 <= u64::MAX,
            all == usable_from(f.reserved@, from as int, f.end as int),
            n + usable_from(f.reserved@, p as int, f.end as int) == all,
            n <= p - from,
        decreases distance_to(p as int, f.end as int),
    {
        proof {
            lemma_block_end(f.reserved@, p as int);
        }
        match f.blocked_until(p) {
            Some(skip_to) => {
                proof {
                    lemma_skip_counts_nothing(
                        f.reserved@,
                        p as int,
                        p as int,
                        skip_to,
                        f.end as int,
                    );
                }
                p = page_align_up(skip_to);
            },
            None => {
                n = n + 1;
                p = p + PAGE_SIZE;
            },
        }
    }
    n
}

/// What an allocator claims of the memory there is.
pub open spec fn claimed(
    f0: Frames,
    f1: Frames,
    regions: Seq<(u64, u64)>,
    ranges: Seq<(u64, u64)>,
) -> bool {
    &&& f1.free@ == f0.free@
    &&& f1.reserved@ == rounded(ranges, ranges.len() as int)
    &&& ({
        let best = largest(regions, regions.len() as int);
        let start = crate::mm::page_up((best->0).0 as int);
        let end = crate::mm::page_down((best->0).0 + (best->0).1);
        if best is Some && start < end {
            &&& f1.start == start
            &&& f1.bump == start
            &&& f1.end == end
            &&& f1.total == usable_from(f1.reserved@, start, end)
        } else {
            &&& f1.start == 0
            &&& f1.bump == 0
            &&& f1.end == 0
            &&& f1.total == f0.total
        }
    })
}

/// Claim the biggest of the DRAM regions the device tree reports, minus the
/// reserved ranges. Each reserved range is a half-open `[start, end)` byte
/// interval; it is rounded outward to whole pages before being applied.
pub fn init(f: &mut Frames, regions: &[(u64, u64)], reserved_ranges: &[(u64, u64)])
    requires
        old(f).start == 0,
        old(f).bump == 0,
        old(f).end == 0,
        forall|i: int| 0 <= i < reserved_ranges@.len() ==> (#[trigger] reserved_ranges@[i]).1 + 8192
            <= u64::MAX,
        forall|i: int|
            0 <= i < regions@.len() ==> (#[trigger] regions@[i]).0 + regions@[i].1 + 8192
                <= u64::MAX,
    ensures
        final(f).wf(),
        claimed(*old(f), *final(f), regions@, reserved_ranges@),
{
    let mut kept_ranges: Vec<(u64, u64)> = Vec::new();
    let mut i: usize = 0;
    while i < reserved_ranges.len()
        invariant
            i <= reserved_ranges@.len(),
            kept_ranges@ == rounded(reserved_ranges@, i as int),
            forall|k: int|
                0 <= k < reserved_ranges@.len() ==> (#[trigger] reserved_ranges@[k]).1 + 8192
                    <= u64::MAX,
        decreases reserved_ranges@.len() - i,
    {
        let (s, e) = reserved_ranges[i];
        assert(reserved_ranges@[i as int].1 + 8192 <= u64::MAX);
        if e > s {
            kept_ranges.push((page_align_down(s), page_align_up(e)));
        }
        i = i + 1;
    }
    proof {
        lemma_rounded(reserved_ranges@, reserved_ranges@.len() as int);
    }
    f.reserved = kept_ranges;
    let mut best: Option<(u64, u64)> = None;
    let mut j: usize = 0;
    while j < regions.len()
        invariant
            j <= regions@.len(),
            best == largest(regions@, j as int),
            best matches Some(b) ==> b.0 + b.1 + 8192 <= u64::MAX,
            forall|k: int|
                0 <= k < regions@.len() ==> (#[trigger] regions@[k]).0 + regions@[k].1 + 8192
                    <= u64::MAX,
        decreases regions@.len() - j,
    {
        let r = regions[j];
        assert(regions@[j as int].0 + regions@[j as int].1 + 8192 <= u64::MAX);
        best =
        match best {
            None => Some(r),
            Some(b) => if r.1 > b.1 {
                Some(r)
            } else {
                Some(b)
            },
        };
        j = j + 1;
    }
    let (base, size) = match best {
        None => {
            return ;
        },
        Some(b) => b,
    };
    let start = page_align_up(base);
    let end = page_align_down(base + size);
    proof {
        crate::mm::rounding_encloses(base as int);
        crate::mm::rounding_encloses(base + size);
    }
    if start >= end {
        return ;
    }
    f.start = start;
    f.bump = start;
    f.end = end;
    f.total = count_usable(f, start);
}

/// What allocating one frame gives, and where the bump pointer rests afterwards.
pub open spec fn alloc_outcome(f: Frames) -> (Option<u64>, u64) {
    if f.free@.len() > 0 {
        (Some(f.free@.last()), f.bump)
    } else {
        let q = if f.bump == 0 {
            0
        } else {
            next_clear(f.reserved@, f.bump as int, f.end as int)
        };
        if q == 0 || q + 4096 > f.end {
            (None, q as u64)
        } else {
            (Some(q as u64), (q + 4096) as u64)
        }
    }
}

/// Hand out one 4 KiB frame: its physical address. Recycled frames go first —
/// they are already warm in cache.
pub fn alloc_frame(f: &mut Frames) -> (r: Option<u64>)
    requires
        old(f).wf(),
    ensures
        final(f).wf(),
        (r, final(f).bump) == alloc_outcome(*old(f)),
        final(f).free@ == (if old(f).free@.len() > 0 {
            old(f).free@.drop_last()
        } else {
            old(f).free@
        }),
        final(f).start == old(f).start,
        final(f).end == old(f).end,
        final(f).total == old(f).total,
        final(f).reserved@ == old(f).reserved@,
{
    if f.free.len() > 0 {
        return f.free.pop();
    }
    let ghost b = f.bump as int;
    proof {
        if f.bump != 0 {
            nothing_usable_is_stepped_over(f.reserved@, b, f.end as int);
        }
    }
    loop
        invariant
            f.wf(),
            f.free@.len() == 0,
            f.free@ == old(f).free@,
            f.start == old(f).start,
            f.end == old(f).end,
            f.total == old(f).total,
            f.reserved@ == old(f).reserved@,
            old(f).bump == b,
            b == 0 ==> f.bump == 0,
            b != 0 ==> f.bump != 0,
            b != 0 ==> next_clear(f.reserved@, b, f.end as int) == next_clear(
                f.reserved@,
                f.bump as int,
                f.end as int,
            ),
        decreases distance_to(f.bump as int, f.end as int),
    {
        let cur = f.bump;
        if cur == 0 || cur + PAGE_SIZE > f.end {
            return None;
        }
        proof {
            lemma_block_end(f.reserved@, cur as int);
        }
        match f.blocked_until(cur) {
            Some(skip_to) => {
                f.bump = page_align_up(skip_to);
            },
            None => {
                f.bump = cur + PAGE_SIZE;
                return Some(cur);
            },
        }
    }
}

/// Return a frame to the allocator.
pub fn free(f: &mut Frames, frame: u64)
    requires
        frame % 4096 == 0,
        clear_of(old(f).reserved@, frame as int),
    ensures
        final(f).free@ == old(f).free@.push(frame),
        final(f).bump == old(f).bump,
        final(f).start == old(f).start,
        final(f).end == old(f).end,
        final(f).total == old(f).total,
        final(f).reserved@ == old(f).reserved@,
{
    f.free.push(frame);
}

/// Frames this allocator started with.
pub fn total_count(f: &Frames) -> (n: u64)
    ensures
        n == f.total,
{
    f.total
}

/// Frames available right now.
pub fn free_count(f: &Frames) -> (n: u64)
    requires
        f.wf(),
        f.available() <= u64::MAX,
    ensures
        n == f.available(),
{
    proof {
        lemma_usable_nonneg(f.reserved@, f.bump as int, f.end as int);
    }
    let unbumped: u64 = if f.bump == 0 {
        0
    } else {
        count_usable(f, f.bump)
    };
    unbumped + f.free.len() as u64
}

// ---- runs of frames --------------------------------------------------------

/// Whether the `n` frames from `p` on overlap no reserved range.
pub open spec fn run_is_clear(reserved: Seq<(u64, u64)>, p: int, n: int) -> bool {
    forall|k: int| 0 <= k < n ==> #[trigger] clear_of(reserved, p + k * 4096)
}

/// Whether the frame at `x` is one of the `n` from `p` on.
pub open spec fn in_run(p: int, n: int, x: u64) -> bool {
    p <= x < p + n * 4096 && x % 4096 == 0
}

/// Nothing but what is free and where the bump pointer is differs.
pub open spec fn same_memory(f: Frames, g: Frames) -> bool {
    &&& g.start == f.start
    &&& g.end == f.end
    &&& g.total == f.total
    &&& g.reserved@ == f.reserved@
}

/// Move the bump pointer past one frame that is not wanted, and keep the frame for
/// later if it is usable.
fn step_over(f: &mut Frames)
    requires
        old(f).sound(),
        old(f).bump != 0,
        old(f).bump + 4096 <= old(f).end,
    ensures
        final(f).sound(),
        same_memory(*old(f), *final(f)),
        final(f).bump == old(f).bump + 4096,
        forall|x: u64| #[trigger] final(f).in_use(x) == old(f).in_use(x),
        final(f).available() == old(f).available(),
{
    let ghost f0 = *f;
    let p: u64 = f.bump;
    let usable = f.blocked_until(p).is_none();
    f.bump = p + PAGE_SIZE;
    if usable {
        f.free.push(p);
        proof {
            assert(f.free@[f0.free@.len() as int] == p);
            assert forall|i: int, j: int| 0 <= i < j < f.free@.len() implies f.free@[i]
                != f.free@[j] by {
                if j == f0.free@.len() {
                    assert(f0.free@[i] < f0.bump);
                }
            }
            assert forall|x: u64| #[trigger] f.in_use(x) == f0.in_use(x) by {
                if f0.free@.contains(x) {
                    let k = choose|k: int| 0 <= k < f0.free@.len() && f0.free@[k] == x;
                    assert(f.free@[k] == x);
                }
                if f.free@.contains(x) && x != p {
                    let k = choose|k: int| 0 <= k < f.free@.len() && f.free@[k] == x;
                    assert(f0.free@[k] == x);
                }
                if f0.bump <= x < f.bump && x % 4096 == 0 {
                    assert(x == p);
                }
            }
        }
    } else {
        assert forall|x: u64| #[trigger] f.in_use(x) == f0.in_use(x) by {
            if f0.bump <= x < f.bump && x % 4096 == 0 {
                assert(x == p);
            }
        }
    }
}

/// Hand out the frame at the bump pointer.
fn take_next(f: &mut Frames)
    requires
        old(f).sound(),
        old(f).bump != 0,
        old(f).bump + 4096 <= old(f).end,
        clear_of(old(f).reserved@, old(f).bump as int),
    ensures
        final(f).sound(),
        same_memory(*old(f), *final(f)),
        final(f).bump == old(f).bump + 4096,
        final(f).free@ == old(f).free@,
        !old(f).in_use(old(f).bump),
        forall|x: u64| #[trigger]
            final(f).in_use(x) == (old(f).in_use(x) || x == old(f).bump),
        final(f).available() == old(f).available() - 1,
{
    let ghost f0 = *f;
    f.bump = f.bump + PAGE_SIZE;
    assert forall|x: u64| #[trigger] f.in_use(x) == (f0.in_use(x) || x == f0.bump) by {
        if f0.bump <= x < f.bump && x % 4096 == 0 {
            assert(x == f0.bump);
        }
        if f0.free@.contains(f0.bump) {
            let k = choose|k: int| 0 <= k < f0.free@.len() && f0.free@[k] == f0.bump;
            assert(f0.free@[k] < f0.bump);
        }
    }
}

/// How many frames from the bump pointer on, up to `pages`, are usable.
fn clear_run(f: &Frames, pages: u64) -> (n: u64)
    requires
        f.wf(),
    ensures
        n <= pages,
        f.bump + n * 4096 <= f.end || n == 0,
        run_is_clear(f.reserved@, f.bump as int, n as int),
        n < pages ==> f.bump + (n + 1) * 4096 > f.end || !clear_of(
            f.reserved@,
            f.bump + n * 4096,
        ),
{
    let mut n: u64 = 0;
    let mut at: u64 = f.bump;
    while n < pages && at + PAGE_SIZE <= f.end && f.blocked_until(at).is_none()
        invariant
            f.wf(),
            n <= pages,
            at == f.bump + n * 4096,
            at <= f.end || n == 0,
            run_is_clear(f.reserved@, f.bump as int, n as int),
        decreases pages - n,
    {
        assert(clear_of(f.reserved@, f.bump + n * 4096));
        n = n + 1;
        at = at + PAGE_SIZE;
    }
    n
}

/// A run that begins before an unusable frame and would reach past it is not clear.
proof fn lemma_run_is_cut(reserved: Seq<(u64, u64)>, at: int, n: int, pages: int, p: int)
    requires
        at % 4096 == 0,
        p % 4096 == 0,
        0 <= n < pages,
        at <= p < at + (n + 1) * 4096,
        !clear_of(reserved, at + n * 4096),
    ensures
        !run_is_clear(reserved, p, pages),
{
    let k = (at + n * 4096 - p) / 4096;
    assert(p + k * 4096 == at + n * 4096);
    assert(0 <= k < pages);
    assert(!clear_of(reserved, p + k * 4096));
}

/// Hand out `pages` frames that follow one another, the first such run past everything
/// handed out so far: the address of its first frame. Usable frames stepped over on the
/// way are kept for later. It fails only where there is no such run.
#[verifier::rlimit(30)]
pub fn alloc_contiguous(f: &mut Frames, pages: u64) -> (r: Option<u64>)
    requires
        old(f).sound(),
        0 < pages <= 0xF_FFFF_FFFF_FFFF,
    ensures
        final(f).sound(),
        same_memory(*old(f), *final(f)),
        match r {
            Some(p) => {
                &&& p % 4096 == 0
                &&& p != 0
                &&& old(f).bump <= p
                &&& p + pages * 4096 <= old(f).end
                &&& run_is_clear(old(f).reserved@, p as int, pages as int)
                &&& forall|q: int|
                    old(f).bump <= q < p && q % 4096 == 0 ==> !#[trigger] run_is_clear(
                        old(f).reserved@,
                        q,
                        pages as int,
                    )
                &&& forall|x: u64| #[trigger]
                    final(f).in_use(x) == (old(f).in_use(x) || in_run(p as int, pages as int, x))
                &&& final(f).available() == old(f).available() - pages
            },
            None => {
                &&& forall|x: u64| #[trigger] final(f).in_use(x) == old(f).in_use(x)
                &&& final(f).available() == old(f).available()
                &&& forall|p: int|
                    old(f).bump != 0 && old(f).bump <= p && p % 4096 == 0 && p + pages * 4096
                        <= old(f).end ==> !#[trigger] run_is_clear(
                        old(f).reserved@,
                        p,
                        pages as int,
                    )
            },
        },
{
    let ghost f0 = *f;
    if f.bump == 0 {
        return None;
    }
    loop
        invariant
            f0 == *old(f),
            f0.bump != 0,
            0 < pages <= 0xF_FFFF_FFFF_FFFF,
            f.sound(),
            f.bump >= f0.bump,
            same_memory(f0, *f),
            forall|x: u64| #[trigger] f.in_use(x) == f0.in_use(x),
            f.available() == f0.available(),
            forall|p: int|
                f0.bump <= p < f.bump && p % 4096 == 0 && p + pages * 4096 <= f0.end
                    ==> !#[trigger] run_is_clear(f0.reserved@, p, pages as int),
        decreases distance_to(f.bump as int, f.end as int),
    {
        let at: u64 = f.bump;
        let n = clear_run(f, pages);
        if n == pages {
            take_run(f, pages);
            return Some(at);
        }
        if f.end < PAGE_SIZE || at > f.end - PAGE_SIZE || (f.end - at) / PAGE_SIZE <= n {
            assert(at + (n + 1) * 4096 > f.end);
            assert(at + pages * 4096 > f.end);
            return None;
        }
        // The frame after the run is reserved: no run can begin before it.
        proof {
            assert forall|p: int|
                f0.bump <= p < at + (n + 1) * 4096 && p % 4096 == 0 && p + pages * 4096
                    <= f0.end implies !#[trigger] run_is_clear(f0.reserved@, p, pages as int) by {
                if p >= at {
                    lemma_run_is_cut(f0.reserved@, at as int, n as int, pages as int, p);
                }
            }
        }
        step_past(f, n + 1);
    }
}

/// Move the bump pointer past `n` frames that are not wanted.
fn step_past(f: &mut Frames, n: u64)
    requires
        old(f).sound(),
        old(f).bump != 0,
        old(f).bump + n * 4096 <= old(f).end,
    ensures
        final(f).sound(),
        same_memory(*old(f), *final(f)),
        final(f).bump == old(f).bump + n * 4096,
        forall|x: u64| #[trigger] final(f).in_use(x) == old(f).in_use(x),
        final(f).available() == old(f).available(),
{
    let ghost f0 = *f;
    let mut i: u64 = 0;
    while i < n
        invariant
            f0 == *old(f),
            i <= n,
            f0.bump != 0,
            f0.bump + n * 4096 <= f0.end,
            f.sound(),
            same_memory(f0, *f),
            f.bump == f0.bump + i * 4096,
            forall|x: u64| #[trigger] f.in_use(x) == f0.in_use(x),
            f.available() == f0.available(),
        decreases n - i,
    {
        step_over(f);
        i = i + 1;
    }
}

/// Hand out the `n` frames at the bump pointer.
fn take_run(f: &mut Frames, n: u64)
    requires
        old(f).sound(),
        old(f).bump != 0,
        old(f).bump + n * 4096 <= old(f).end,
        run_is_clear(old(f).reserved@, old(f).bump as int, n as int),
    ensures
        final(f).sound(),
        same_memory(*old(f), *final(f)),
        forall|x: u64| #[trigger]
            final(f).in_use(x) == (old(f).in_use(x) || in_run(old(f).bump as int, n as int, x)),
        final(f).available() == old(f).available() - n,
{
    let ghost f0 = *f;
    let mut i: u64 = 0;
    while i < n
        invariant
            f0 == *old(f),
            i <= n,
            f0.bump != 0,
            f0.bump % 4096 == 0,
            f0.bump + n * 4096 <= f0.end,
            run_is_clear(f0.reserved@, f0.bump as int, n as int),
            f.sound(),
            same_memory(f0, *f),
            f.bump == f0.bump + i * 4096,
            forall|x: u64| #[trigger]
                f.in_use(x) == (f0.in_use(x) || in_run(f0.bump as int, i as int, x)),
            f.available() == f0.available() - i,
        decreases n - i,
    {
        let ghost f1 = *f;
        assert(clear_of(f0.reserved@, f0.bump + i * 4096));
        take_next(f);
        proof {
            assert forall|x: u64| #[trigger] f.in_use(x) == (f0.in_use(x) || in_run(
                f0.bump as int,
                i + 1,
                x,
            )) by {
                assert(f.in_use(x) == (f1.in_use(x) || x == f1.bump));
            }
        }
        i = i + 1;
    }
}

// ---- what the allocator promises ---------------------------------------------

/// What is available is a number of frames.
pub proof fn availability_is_a_count(f: Frames)
    ensures
        f.available() >= 0,
{
    lemma_usable_nonneg(f.reserved@, f.bump as int, f.end as int);
}

/// The state of an allocator after allocating from `f`.
pub open spec fn allocated_from(f: Frames, g: Frames) -> bool {
    &&& g.bump == alloc_outcome(f).1
    &&& g.free@ == (if f.free@.len() > 0 {
        f.free@.drop_last()
    } else {
        f.free@
    })
    &&& g.start == f.start
    &&& g.end == f.end
    &&& g.reserved@ == f.reserved@
}

/// A frame handed out is never reserved, never already in use, and from then on
/// in use; every other frame stays as it was. One frame fewer is available, and
/// allocation fails only when none is.
pub proof fn a_frame_is_handed_out_once(f: Frames, g: Frames)
    requires
        f.sound(),
        g.wf(),
        allocated_from(f, g),
    ensures
        g.sound(),
        match alloc_outcome(f).0 {
            Some(r) => {
                &&& !f.in_use(r)
                &&& g.in_use(r)
                &&& clear_of(f.reserved@, r as int)
                &&& forall|x: u64| x != r ==> #[trigger] g.in_use(x) == f.in_use(x)
                &&& g.available() == f.available() - 1
            },
            None => {
                &&& forall|x: u64| #[trigger] g.in_use(x) == f.in_use(x)
                &&& f.available() == 0
                &&& g.available() == 0
            },
        },
{
    if f.bump != 0 {
        nothing_usable_is_stepped_over(f.reserved@, f.bump as int, f.end as int);
    }
    if f.free@.len() > 0 {
        let r = f.free@.last();
        assert(f.free@[f.free@.len() - 1] == r);
        assert(f.free@.contains(r));
        assert(!g.free@.contains(r)) by {
            if g.free@.contains(r) {
                let k = choose|k: int| 0 <= k < g.free@.len() && g.free@[k] == r;
                assert(f.free@[k] == r);
            }
        }
        assert forall|x: u64| x != r implies #[trigger] g.in_use(x) == f.in_use(x) by {
            if f.free@.contains(x) {
                let k = choose|k: int| 0 <= k < f.free@.len() && f.free@[k] == x;
                assert(g.free@[k] == x);
            }
            if g.free@.contains(x) {
                let k = choose|k: int| 0 <= k < g.free@.len() && g.free@[k] == x;
                assert(f.free@[k] == x);
            }
        }
    } else {
        let q = g.bump as int;
        if alloc_outcome(f).0 is Some {
            let r = alloc_outcome(f).0->0;
            assert forall|x: u64| x != r implies #[trigger] g.in_use(x) == f.in_use(x) by {
                if f.bump <= x < r {
                    assert(!clear_of(f.reserved@, x as int) || x + 4096 > f.end || x % 4096 != 0);
                }
            }
        } else {
            assert forall|x: u64| #[trigger] g.in_use(x) == f.in_use(x) by {
                if f.bump <= x < g.bump {
                    assert(!clear_of(f.reserved@, x as int) || x + 4096 > f.end || x % 4096 != 0);
                }
            }
        }
    }
}

/// Giving back a frame in use makes it available again and touches no other.
pub proof fn a_freed_frame_is_available_again(f: Frames, g: Frames, r: u64)
    requires
        f.sound(),
        f.in_use(r),
        g.free@ == f.free@.push(r),
        g.bump == f.bump,
        g.start == f.start,
        g.end == f.end,
        g.reserved@ == f.reserved@,
    ensures
        g.sound(),
        !g.in_use(r),
        forall|x: u64| x != r ==> #[trigger] g.in_use(x) == f.in_use(x),
        g.available() == f.available() + 1,
        alloc_outcome(g).0 == Some(r),
{
    assert(g.free@[f.free@.len() as int] == r);
    assert forall|x: u64| x != r implies #[trigger] g.in_use(x) == f.in_use(x) by {
        if f.free@.contains(x) {
            let k = choose|k: int| 0 <= k < f.free@.len() && f.free@[k] == x;
            assert(g.free@[k] == x);
        }
        if g.free@.contains(x) {
            let k = choose|k: int| 0 <= k < g.free@.len() && g.free@[k] == x;
            assert(f.free@[k] == x);
        }
    }
    assert forall|i: int, j: int| 0 <= i < j < g.free@.len() implies g.free@[i] != g.free@[j] by {
        if j == f.free@.len() {
            if g.free@[i] == r {
                assert(f.free@[i] == r);
            }
        }
    }
}

} // verus!
