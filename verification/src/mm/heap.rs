//! Kernel heap — a first-fit free-list allocator with coalescing.
//!
//! Kernel allocation here is low-rate and long-lived, so an address-sorted free
//! list is enough. Regions are added one at a time, so the heap does not have to
//! be contiguous.
use vstd::prelude::*;
use crate::mm::PAGE_SIZE;

verus! {

/// The smallest free block: what its own bookkeeping would take.
pub const BLOCK_SIZE: u64 = 16;

pub const MIN_ALIGN: u64 = 8;

/// A run of free bytes.
#[derive(Clone, Copy, Debug, PartialEq, Eq, Structural)]
pub struct Block {
    pub addr: u64,
    pub size: u64,
}

pub struct Heap {
    /// Address-sorted free blocks.
    pub free: Vec<Block>,
    pub total: u64,
    pub allocated: u64,
}

/// The end of a block.
pub open spec fn end_of(b: Block) -> int {
    b.addr + b.size
}

/// Free blocks are sorted, no two touch, and each has an end.
pub open spec fn tidy(list: Seq<Block>) -> bool {
    &&& forall|i: int|
        0 <= i < list.len() ==> (#[trigger] list[i]).size > 0 && end_of(list[i]) <= u64::MAX
    &&& forall|i: int, j: int|
        0 <= i < j < list.len() ==> end_of(#[trigger] list[i]) < (#[trigger] list[j]).addr
}

/// Whether the byte at `x` is free.
pub open spec fn covers(list: Seq<Block>, x: int) -> bool {
    exists|i: int| 0 <= i < list.len() && (#[trigger] list[i]).addr <= x < end_of(list[i])
}

/// Whether none of the `size` bytes at `addr` is free.
pub open spec fn outside(list: Seq<Block>, addr: int, size: int) -> bool {
    forall|i: int|
        0 <= i < list.len() ==> end_of(#[trigger] list[i]) <= addr || addr + size <= list[i].addr
}

/// The first block at or after the `i`th that does not start below `addr`.
pub open spec fn place_for(list: Seq<Block>, addr: u64, i: int) -> int
    decreases list.len() - i,
{
    if i >= list.len() || list[i].addr >= addr {
        i
    } else {
        place_for(list, addr, i + 1)
    }
}

/// The list with the `size` bytes at `addr` freed: in their place, and merged
/// with a neighbour on either side that they touch.
pub open spec fn inserted(list: Seq<Block>, addr: u64, size: u64) -> Seq<Block> {
    let k = place_for(list, addr, 0);
    let touches_next = k < list.len() && addr + size == list[k].addr;
    let touches_prev = k > 0 && end_of(list[k - 1]) == addr;
    let grown: u64 = if touches_next {
        (size + list[k].size) as u64
    } else {
        size
    };
    let rest = if touches_next {
        list.skip(k + 1)
    } else {
        list.skip(k)
    };
    if touches_prev {
        list.take(k - 1).push(
            Block { addr: list[k - 1].addr, size: (list[k - 1].size + grown) as u64 },
        ) + rest
    } else {
        list.take(k).push(Block { addr, size: grown }) + rest
    }
}

proof fn lemma_place(list: Seq<Block>, addr: u64, i: int)
    requires
        0 <= i <= list.len(),
    ensures
        i <= place_for(list, addr, i) <= list.len(),
        forall|k: int| i <= k < place_for(list, addr, i) ==> (#[trigger] list[k]).addr < addr,
        place_for(list, addr, i) < list.len() ==> list[place_for(list, addr, i)].addr >= addr,
    decreases list.len() - i,
{
    if i < list.len() && list[i].addr < addr {
        lemma_place(list, addr, i + 1);
    }
}

/// Where an insertion cuts the list: blocks below `cut` and from `skip` on stay,
/// and one block takes the place of those between.
spec fn cut_of(list: Seq<Block>, addr: u64) -> int {
    let k = place_for(list, addr, 0);
    if k > 0 && end_of(list[k - 1]) == addr {
        k - 1
    } else {
        k
    }
}

spec fn skip_of(list: Seq<Block>, addr: u64, size: u64) -> int {
    let k = place_for(list, addr, 0);
    if k < list.len() && addr + size == list[k].addr {
        k + 1
    } else {
        k
    }
}

proof fn lemma_inserted_shape(list: Seq<Block>, addr: u64, size: u64)
    requires
        tidy(list),
        size > 0,
        addr + size <= u64::MAX,
        outside(list, addr as int, size as int),
    ensures
        ({
            let new = inserted(list, addr, size);
            let cut = cut_of(list, addr);
            let skip = skip_of(list, addr, size);
            let m = new[cut];
            &&& 0 <= cut <= skip <= list.len()
            &&& new.len() == cut + 1 + (list.len() - skip)
            &&& forall|i: int| 0 <= i < cut ==> #[trigger] new[i] == list[i]
            &&& forall|i: int| cut < i < new.len() ==> #[trigger] new[i] == list[i - cut - 1 + skip]
            &&& m.addr <= addr
            &&& addr + size <= end_of(m) <= u64::MAX
            &&& forall|i: int| 0 <= i < cut ==> end_of(#[trigger] list[i]) < m.addr
            &&& forall|i: int| skip <= i < list.len() ==> end_of(m) < (#[trigger] list[i]).addr
            &&& forall|i: int|
                cut <= i < skip ==> m.addr <= (#[trigger] list[i]).addr && end_of(list[i])
                    <= end_of(m)
            &&& m.addr == addr || (cut < list.len() && m.addr == list[cut].addr && end_of(list[cut])
                == addr)
            &&& end_of(m) == addr + size || (skip > 0 && end_of(m) == end_of(list[skip - 1])
                && list[skip - 1].addr == addr + size)
        }),
{
    lemma_place(list, addr, 0);
    let k = place_for(list, addr, 0);
    let new = inserted(list, addr, size);
    let cut = cut_of(list, addr);
    let skip = skip_of(list, addr, size);
    if k > 0 {
        assert(list[k - 1].addr < addr);
        assert(end_of(list[k - 1]) <= addr);
    }
    if k < list.len() {
        assert(addr + size <= list[k].addr);
    }
    assert forall|i: int| 0 <= i < cut implies end_of(#[trigger] list[i]) < new[cut].addr by {
        if cut < k {
            assert(end_of(list[i]) < list[k - 1].addr);
        } else if i < k - 1 {
            assert(end_of(list[i]) < list[k - 1].addr);
        }
    }
    assert forall|i: int| skip <= i < list.len() implies end_of(new[cut]) < (
    #[trigger] list[i]).addr by {
        if skip > k {
            assert(end_of(list[k]) < list[i].addr);
        } else if i > k {
            assert(end_of(list[k]) < list[i].addr);
        }
    }
}

proof fn lemma_inserted_is_tidy(list: Seq<Block>, addr: u64, size: u64)
    requires
        tidy(list),
        size > 0,
        addr + size <= u64::MAX,
        outside(list, addr as int, size as int),
    ensures
        tidy(inserted(list, addr, size)),
{
    lemma_inserted_shape(list, addr, size);
    let new = inserted(list, addr, size);
    let cut = cut_of(list, addr);
    let skip = skip_of(list, addr, size);
    assert forall|i: int| 0 <= i < new.len() implies (#[trigger] new[i]).size > 0 && end_of(new[i])
        <= u64::MAX by {
        if i < cut {
            assert(new[i] == list[i]);
        } else if i > cut {
            assert(new[i] == list[i - cut - 1 + skip]);
        }
    }
    assert forall|i: int, j: int| 0 <= i < j < new.len() implies end_of(#[trigger] new[i]) < (
    #[trigger] new[j]).addr by {
        let ii = i - cut - 1 + skip;
        let jj = j - cut - 1 + skip;
        if j < cut {
            assert(new[i] == list[i] && new[j] == list[j]);
        } else if i > cut {
            assert(new[i] == list[ii] && new[j] == list[jj]);
        } else if j == cut {
            assert(new[i] == list[i]);
        } else if i == cut {
            assert(new[j] == list[jj]);
        } else {
            assert(new[i] == list[i] && new[j] == list[jj]);
            assert(end_of(list[i]) < list[jj].addr);
        }
    }
}

/// Freeing bytes that were not free makes exactly those bytes free, and leaves
/// the list sorted with no two blocks touching.
pub proof fn freeing_adds_exactly_those_bytes(list: Seq<Block>, addr: u64, size: u64)
    requires
        tidy(list),
        size > 0,
        addr + size <= u64::MAX,
        outside(list, addr as int, size as int),
    ensures
        tidy(inserted(list, addr, size)),
        forall|x: int| #[trigger]
            covers(inserted(list, addr, size), x) == (covers(list, x) || addr <= x < addr + size),
{
    lemma_inserted_is_tidy(list, addr, size);
    assert forall|x: int| #[trigger]
        covers(inserted(list, addr, size), x) == (covers(list, x) || addr <= x < addr + size) by {
        lemma_inserted_covers(list, addr, size, x);
    }
}

#[verifier::rlimit(30)]
proof fn lemma_inserted_covers(list: Seq<Block>, addr: u64, size: u64, x: int)
    requires
        tidy(list),
        size > 0,
        addr + size <= u64::MAX,
        outside(list, addr as int, size as int),
    ensures
        covers(inserted(list, addr, size), x) == (covers(list, x) || addr <= x < addr + size),
{
    lemma_inserted_shape(list, addr, size);
    let new = inserted(list, addr, size);
    let cut = cut_of(list, addr);
    let skip = skip_of(list, addr, size);
    if covers(new, x) {
        let i = choose|i: int| 0 <= i < new.len() && (#[trigger] new[i]).addr <= x < end_of(new[i]);
        if i < cut {
            assert(list[i].addr <= x < end_of(list[i]));
        } else if i > cut {
            let ii = i - cut - 1 + skip;
            assert(list[ii].addr <= x < end_of(list[ii]));
        } else if x < addr {
            assert(list[cut].addr <= x < end_of(list[cut]));
        } else if x >= addr + size {
            assert(list[skip - 1].addr <= x < end_of(list[skip - 1]));
        }
    }
    if covers(list, x) {
        let i = choose|i: int| 0 <= i < list.len() && (#[trigger] list[i]).addr <= x < end_of(list[i]);
        if i < cut {
            assert(new[i].addr <= x < end_of(new[i]));
        } else if i >= skip {
            let ii = i - skip + cut + 1;
            assert(new[ii] == list[i]);
            assert(new[ii].addr <= x < end_of(new[ii]));
        } else {
            assert(new[cut].addr <= x < end_of(new[cut]));
        }
    }
    if addr <= x < addr + size {
        assert(new[cut].addr <= x < end_of(new[cut]));
    }
}

/// The smallest multiple of `align` at or above `v`.
pub open spec fn aligned_up(v: int, align: int) -> int {
    if v % align == 0 {
        v
    } else {
        v + (align - v % align)
    }
}

/// Round `v` up to a multiple of `align`.
pub fn align_up(v: u64, align: u64) -> (r: u64)
    requires
        align > 0,
        v + align <= u64::MAX,
    ensures
        r == aligned_up(v as int, align as int),
        v <= r < v + align,
        r % align == 0,
{
    let rem: u64 = v % align;
    if rem == 0 {
        v
    } else {
        proof {
            lemma_aligned_up(v as int, align as int);
        }
        v + (align - rem)
    }
}

/// The bytes an allocation of `size` really takes.
pub open spec fn rounded_size(size: u64) -> int {
    aligned_up(
        if size < 16 {
            16
        } else {
            size as int
        },
        8,
    )
}

/// The alignment an allocation really gets.
pub open spec fn raised_align(align: u64) -> u64 {
    if align < 8 {
        8
    } else {
        align
    }
}

/// Whether an allocation fits block `b`: the aligned bytes have to fit, and any
/// gap left in front has to be big enough to survive as a block of its own.
pub open spec fn fits(b: Block, size: int, align: int) -> bool {
    let pad = aligned_up(b.addr as int, align) - b.addr;
    (pad == 0 || pad >= 16) && pad + size <= b.size
}

/// The first block at or after the `i`th that an allocation fits.
pub open spec fn first_fit(list: Seq<Block>, size: int, align: int, i: int) -> Option<int>
    decreases list.len() - i,
{
    if i >= list.len() {
        None
    } else if fits(list[i], size, align) {
        Some(i)
    } else {
        first_fit(list, size, align, i + 1)
    }
}

/// The list after taking `size` bytes at `start` out of block `i`: what is left
/// on either side goes back, unless it is too small to keep.
pub open spec fn carved(list: Seq<Block>, i: int, start: int, size: int) -> Seq<Block> {
    let b = list[i];
    let pad = start - b.addr;
    let tail = end_of(b) - (start + size);
    let l0 = list.remove(i);
    let l1 = if pad >= 16 {
        inserted(l0, b.addr, pad as u64)
    } else {
        l0
    };
    if tail >= 16 {
        inserted(l1, (start + size) as u64, tail as u64)
    } else {
        l1
    }
}

/// Taking bytes out of a free block takes exactly those bytes, and any sliver
/// behind them that is too small to keep; nothing else stops being free.
pub proof fn carving_takes_exactly_those_bytes(list: Seq<Block>, i: int, start: int, size: int)
    requires
        tidy(list),
        0 <= i < list.len(),
        size > 0,
        list[i].addr <= start,
        start + size <= end_of(list[i]),
        start == list[i].addr || start - list[i].addr >= 16,
    ensures
        tidy(carved(list, i, start, size)),
        ({
            let b = list[i];
            let tail = end_of(b) - (start + size);
            let gone = if tail >= 16 {
                start + size
            } else {
                end_of(b)
            };
            &&& forall|x: int| #[trigger]
                covers(carved(list, i, start, size), x) == (covers(list, x) && !(start <= x < gone))
            &&& outside(carved(list, i, start, size), start, size)
        }),
{
    let b = list[i];
    let pad = start - b.addr;
    let tail = end_of(b) - (start + size);
    let l0 = list.remove(i);
    assert(forall|k: int| 0 <= k < i ==> #[trigger] l0[k] == list[k]);
    assert(forall|k: int| i <= k < l0.len() ==> #[trigger] l0[k] == list[k + 1]);
    assert(tidy(l0)) by {
        assert forall|p: int, q: int| 0 <= p < q < l0.len() implies end_of(#[trigger] l0[p]) < (
        #[trigger] l0[q]).addr by {
            let pp = if p < i {
                p
            } else {
                p + 1
            };
            let qq = if q < i {
                q
            } else {
                q + 1
            };
            assert(end_of(list[pp]) < list[qq].addr);
        }
    }
    assert forall|k: int| 0 <= k < l0.len() implies end_of(#[trigger] l0[k]) < b.addr || end_of(b)
        < l0[k].addr by {
        if k < i {
            assert(end_of(list[k]) < list[i].addr);
        } else {
            assert(end_of(list[i]) < list[k + 1].addr);
        }
    }
    assert forall|x: int| #[trigger] covers(l0, x) == (covers(list, x) && !(b.addr <= x < end_of(
        b,
    ))) by {
        if covers(l0, x) {
            let k = choose|k: int| 0 <= k < l0.len() && (#[trigger] l0[k]).addr <= x < end_of(l0[k]);
            let kk = if k < i {
                k
            } else {
                k + 1
            };
            assert(list[kk].addr <= x < end_of(list[kk]));
        }
        if covers(list, x) && !(b.addr <= x < end_of(b)) {
            let k = choose|k: int|
                0 <= k < list.len() && (#[trigger] list[k]).addr <= x < end_of(list[k]);
            let kk = if k < i {
                k
            } else {
                k - 1
            };
            assert(l0[kk].addr <= x < end_of(l0[kk]));
        }
    }
    assert forall|x: int| b.addr <= x < end_of(b) implies #[trigger] covers(list, x) by {
        assert(list[i].addr <= x < end_of(list[i]));
    }
    let l1 = if pad >= 16 {
        inserted(l0, b.addr, pad as u64)
    } else {
        l0
    };
    if pad >= 16 {
        freeing_adds_exactly_those_bytes(l0, b.addr, pad as u64);
    }
    assert(outside(l1, start, end_of(b) - start)) by {
        assert forall|k: int| 0 <= k < l1.len() implies end_of(#[trigger] l1[k]) <= start || start + (
        end_of(b) - start) <= l1[k].addr by {
            if !(end_of(l1[k]) <= start || end_of(b) <= l1[k].addr) {
                let x = if l1[k].addr >= start {
                    l1[k].addr as int
                } else {
                    start
                };
                assert(l1[k].addr <= x < end_of(l1[k]));
                assert(covers(l1, x));
            }
        }
    }
    let new = carved(list, i, start, size);
    if tail >= 16 {
        freeing_adds_exactly_those_bytes(l1, (start + size) as u64, tail as u64);
    }
    assert(outside(new, start, size)) by {
        assert forall|k: int| 0 <= k < new.len() implies end_of(#[trigger] new[k]) <= start || start
            + size <= new[k].addr by {
            if !(end_of(new[k]) <= start || start + size <= new[k].addr) {
                let x = if new[k].addr >= start {
                    new[k].addr as int
                } else {
                    start
                };
                assert(new[k].addr <= x < end_of(new[k]));
                assert(covers(new, x));
                assert(covers(l1, x));
                let m = choose|m: int|
                    0 <= m < l1.len() && (#[trigger] l1[m]).addr <= x < end_of(l1[m]);
                assert(end_of(l1[m]) <= start || end_of(b) <= l1[m].addr);
            }
        }
    }
}

/// Where an allocation comes to stand, and the list after it, if it fits anywhere.
pub open spec fn allotted(list: Seq<Block>, size: u64, align: u64) -> Option<(int, Seq<Block>)> {
    let need = rounded_size(size);
    let al = raised_align(align) as int;
    match first_fit(list, need, al, 0) {
        None => None,
        Some(i) => {
            let start = aligned_up(list[i].addr as int, al);
            Some((start, carved(list, i, start, need)))
        },
    }
}

impl Heap {
    pub open spec fn wf(&self) -> bool {
        tidy(self.free@)
    }

    pub fn new() -> (h: Heap)
        ensures
            h.wf(),
            h.free@ == Seq::<Block>::empty(),
            h.total == 0,
            h.allocated == 0,
    {
        Heap { free: Vec::new(), total: 0, allocated: 0 }
    }

    /// Insert a block, keeping the list address-sorted and merging neighbours.
    fn insert(&mut self, addr: u64, size: u64)
        requires
            old(self).wf(),
            size > 0,
            addr + size <= u64::MAX,
            outside(old(self).free@, addr as int, size as int),
        ensures
            final(self).wf(),
            final(self).free@ == inserted(old(self).free@, addr, size),
            final(self).total == old(self).total,
            final(self).allocated == old(self).allocated,
    {
        let ghost list = self.free@;
        proof {
            freeing_adds_exactly_those_bytes(list, addr, size);
            lemma_place(list, addr, 0);
        }
        let mut k: usize = 0;
        while k < self.free.len() && self.free[k].addr < addr
            invariant
                self.free@ == list,
                k <= list.len(),
                place_for(list, addr, 0) == place_for(list, addr, k as int),
            decreases list.len() - k,
        {
            k = k + 1;
        }
        let mut grown: u64 = size;
        // Merge forward, then backward.
        if k < self.free.len() && addr + size == self.free[k].addr {
            assert(end_of(list[k as int]) <= u64::MAX);
            grown = size + self.free[k].size;
            self.free.remove(k);
        }
        let ghost mid = self.free@;
        if k > 0 && self.free[k - 1].addr + self.free[k - 1].size == addr {
            let p = self.free[k - 1];
            self.free[k - 1] = Block { addr: p.addr, size: p.size + grown };
        } else {
            self.free.insert(k, Block { addr, size: grown });
        }
        assert(self.free@ =~= inserted(list, addr, size));
    }

    /// Donate `[start, start + size)` of kernel-virtual memory to the heap.
    pub fn add_region(&mut self, start: u64, size: u64)
        requires
            old(self).wf(),
            start + 8 + size <= u64::MAX,
            old(self).total + size <= u64::MAX,
            outside(old(self).free@, aligned_up(start as int, 8), size as int),
        ensures
            final(self).wf(),
            final(self).allocated == old(self).allocated,
            if size < BLOCK_SIZE {
                final(self).free@ == old(self).free@ && final(self).total == old(self).total
            } else {
                &&& final(self).free@ == inserted(
                    old(self).free@,
                    aligned_up(start as int, 8) as u64,
                    size,
                )
                &&& final(self).total == old(self).total + size
            },
    {
        let at = align_up(start, MIN_ALIGN);
        if size < BLOCK_SIZE {
            return ;
        }
        self.total = self.total + size;
        self.insert(at, size);
    }

    /// Take `size` bytes at a multiple of `align`, from the first free block they
    /// fit: their address.
    pub fn allocate(&mut self, size: u64, align: u64) -> (r: Option<u64>)
        requires
            old(self).wf(),
            size + 24 + align <= u64::MAX,
            old(self).allocated + rounded_size(size) <= u64::MAX,
            forall|i: int|
                0 <= i < old(self).free@.len() ==> (#[trigger] old(self).free@[i]).addr
                    + raised_align(align) <= u64::MAX,
        ensures
            final(self).wf(),
            final(self).total == old(self).total,
            match r {
                None => {
                    &&& allotted(old(self).free@, size, align) is None
                    &&& final(self).free@ == old(self).free@
                    &&& final(self).allocated == old(self).allocated
                },
                Some(start) => {
                    &&& allotted(old(self).free@, size, align) == Some(
                        (start as int, final(self).free@),
                    )
                    &&& final(self).allocated == old(self).allocated + rounded_size(size)
                },
            },
    {
        let al: u64 = if align < MIN_ALIGN {
            MIN_ALIGN
        } else {
            align
        };
        let need: u64 = align_up(
            if size < BLOCK_SIZE {
                BLOCK_SIZE
            } else {
                size
            },
            MIN_ALIGN,
        );
        let ghost list = self.free@;
        let mut i: usize = 0;
        while i < self.free.len()
            invariant
                *self == *old(self),
                self.free@ == list,
                tidy(list),
                i <= list.len(),
                al == raised_align(align),
                need == rounded_size(size),
                need + al <= u64::MAX,
                self.allocated + need <= u64::MAX,
                forall|k: int|
                    0 <= k < list.len() ==> (#[trigger] list[k]).addr + al <= u64::MAX,
                first_fit(list, need as int, al as int, 0) == first_fit(
                    list,
                    need as int,
                    al as int,
                    i as int,
                ),
            decreases list.len() - i,
        {
            let cur = self.free[i];
            assert(list[i as int] == cur);
            let start = align_up(cur.addr, al);
            let front_pad: u64 = start - cur.addr;
            if (front_pad == 0 || front_pad >= BLOCK_SIZE) && front_pad + need <= cur.size {
                assert(end_of(list[i as int]) <= u64::MAX);
                let block_end: u64 = cur.addr + cur.size;
                let tail: u64 = block_end - (start + need);
                proof {
                    carving_takes_exactly_those_bytes(list, i as int, start as int, need as int);
                    lemma_gap(list, i as int);
                }
                // Unlink, then put back whatever is left on either side.
                self.free.remove(i);
                let ghost l0 = self.free@;
                if front_pad >= BLOCK_SIZE {
                    self.insert(cur.addr, front_pad);
                }
                let ghost l1 = self.free@;
                if tail >= BLOCK_SIZE {
                    proof {
                        if front_pad >= 16 {
                            freeing_adds_exactly_those_bytes(l0, cur.addr, front_pad);
                        }
                        lemma_outside_from_covers(l1, (start + need) as int, tail as int);
                    }
                    self.insert(start + need, tail);
                }
                self.allocated = self.allocated + need;
                return Some(start);
            }
            i = i + 1;
        }
        None
    }

    /// Give an allocation back.
    pub fn dealloc(&mut self, addr: u64, size: u64)
        requires
            old(self).wf(),
            size + 24 <= u64::MAX,
            addr + rounded_size(size) <= u64::MAX,
            rounded_size(size) <= old(self).allocated,
            outside(old(self).free@, addr as int, rounded_size(size)),
        ensures
            final(self).wf(),
            final(self).free@ == inserted(old(self).free@, addr, rounded_size(size) as u64),
            final(self).allocated == old(self).allocated - rounded_size(size),
            final(self).total == old(self).total,
    {
        let need: u64 = align_up(
            if size < BLOCK_SIZE {
                BLOCK_SIZE
            } else {
                size
            },
            MIN_ALIGN,
        );
        self.allocated = self.allocated - need;
        self.insert(addr, need);
    }
}

proof fn lemma_gap(list: Seq<Block>, i: int)
    requires
        tidy(list),
        0 <= i < list.len(),
    ensures
        tidy(list.remove(i)),
        outside(list.remove(i), list[i].addr as int, list[i].size as int),
        forall|x: int|
            list[i].addr <= x < end_of(list[i]) ==> !#[trigger] covers(list.remove(i), x),
{
    let l0 = list.remove(i);
    assert(forall|k: int| 0 <= k < i ==> #[trigger] l0[k] == list[k]);
    assert(forall|k: int| i <= k < l0.len() ==> #[trigger] l0[k] == list[k + 1]);
    assert forall|p: int, q: int| 0 <= p < q < l0.len() implies end_of(#[trigger] l0[p]) < (
    #[trigger] l0[q]).addr by {
        let pp = if p < i {
            p
        } else {
            p + 1
        };
        let qq = if q < i {
            q
        } else {
            q + 1
        };
        assert(end_of(list[pp]) < list[qq].addr);
    }
    assert forall|k: int| 0 <= k < l0.len() implies end_of(#[trigger] l0[k]) <= list[i].addr
        || list[i].addr + list[i].size <= l0[k].addr by {
        if k < i {
            assert(end_of(list[k]) < list[i].addr);
        } else {
            assert(end_of(list[i]) < list[k + 1].addr);
        }
    }
}

proof fn lemma_outside_from_covers(list: Seq<Block>, addr: int, size: int)
    requires
        tidy(list),
        size > 0,
        forall|x: int| addr <= x < addr + size ==> !#[trigger] covers(list, x),
    ensures
        outside(list, addr, size),
{
    assert forall|k: int| 0 <= k < list.len() implies end_of(#[trigger] list[k]) <= addr || addr
        + size <= list[k].addr by {
        if !(end_of(list[k]) <= addr || addr + size <= list[k].addr) {
            let x = if list[k].addr >= addr {
                list[k].addr as int
            } else {
                addr
            };
            assert(list[k].addr <= x < end_of(list[k]));
            assert(covers(list, x));
        }
    }
}

/// Hand the frame run at kernel-virtual address `va` to the heap, if there is
/// one.
pub fn init(h: &mut Heap, run: Option<u64>, pages: u64) -> (r: Result<(), &'static str>)
    requires
        old(h).wf(),
        pages * 4096 <= u64::MAX,
        run matches Some(va) ==> va + 8 + pages * 4096 <= u64::MAX && old(h).total + pages * 4096
            <= u64::MAX && outside(old(h).free@, aligned_up(va as int, 8), pages * 4096),
    ensures
        final(h).wf(),
        final(h).allocated == old(h).allocated,
        match run {
            None => r == Err::<(), &'static str>("no contiguous frames for heap")
                && final(h).free@ == old(h).free@ && final(h).total == old(h).total,
            Some(va) => {
                &&& r is Ok
                &&& if pages == 0 {
                    final(h).free@ == old(h).free@ && final(h).total == old(h).total
                } else {
                    &&& final(h).free@ == inserted(
                        old(h).free@,
                        aligned_up(va as int, 8) as u64,
                        (pages * 4096) as u64,
                    )
                    &&& final(h).total == old(h).total + pages * 4096
                }
            },
        },
{
    match run {
        None => Err("no contiguous frames for heap"),
        Some(va) => {
            h.add_region(va, pages * PAGE_SIZE);
            Ok(())
        },
    }
}

/// (bytes given to the heap, bytes currently handed out)
pub fn stats(h: &Heap) -> (r: (u64, u64))
    ensures
        r == (h.total, h.allocated),
{
    (h.total, h.allocated)
}

/// What a walk of the free list found.
#[derive(Clone, Copy, Debug, PartialEq, Eq)]
pub struct Check {
    /// Sound blocks, up to the first that is not.
    pub blocks: usize,
    /// Bytes in them.
    pub free_bytes: u64,
    pub error: Option<&'static str>,
    /// The address of the block that is not sound, or 0.
    pub at: u64,
}

/// The bytes in the first `n` blocks.
pub open spec fn bytes_in(list: Seq<Block>, n: int) -> int
    decreases n,
{
    if n <= 0 {
        0
    } else {
        bytes_in(list, n - 1) + list[n - 1].size
    }
}

/// Why block `i` cannot stand where it does, if it cannot.
pub open spec fn block_error(list: Seq<Block>, i: int) -> Option<&'static str> {
    if list[i].size == 0 {
        Some("empty block")
    } else if end_of(list[i]) > u64::MAX {
        Some("block has no end")
    } else if i > 0 && end_of(list[i - 1]) >= list[i].addr {
        Some("block does not follow the one before")
    } else {
        None
    }
}

/// Walk the free list and check every block, because corruption surfaces as a fault
/// somewhere else entirely.
pub fn check(h: &Heap) -> (c: Check)
    ensures
        c.error is None <==> tidy(h.free@),
        c.blocks <= h.free@.len(),
        tidy(h.free@.take(c.blocks as int)),
        c.free_bytes == bytes_in(h.free@, c.blocks as int),
        if c.error is None {
            c.blocks == h.free@.len() && c.at == 0
        } else {
            &&& c.blocks < h.free@.len()
            &&& c.error == block_error(h.free@, c.blocks as int)
            &&& c.at == h.free@[c.blocks as int].addr
        },
{
    let mut i: usize = 0;
    let mut sum: u64 = 0;
    let mut end: u64 = 0;
    while i < h.free.len()
        invariant
            i <= h.free@.len(),
            tidy(h.free@.take(i as int)),
            sum == bytes_in(h.free@, i as int),
            sum <= end,
            i > 0 ==> end == end_of(h.free@[i - 1]),
            i == 0 ==> end == 0,
        decreases h.free@.len() - i,
    {
        let b = h.free[i];
        let ghost list = h.free@;
        let error = if b.size == 0 {
            Some("empty block")
        } else if b.size > u64::MAX - b.addr {
            Some("block has no end")
        } else if i > 0 && end >= b.addr {
            Some("block does not follow the one before")
        } else {
            None
        };
        assert(error == block_error(list, i as int));
        if error.is_some() {
            assert(!tidy(list)) by {
                if tidy(list) {
                    assert(list[i as int].size > 0);
                    if i > 0 {
                        assert(end_of(list[i - 1]) < list[i as int].addr);
                    }
                }
            }
            return Check { blocks: i, free_bytes: sum, error, at: b.addr };
        }
        proof {
            let more = list.take(i + 1);
            assert forall|x: int, y: int| 0 <= x < y < more.len() implies end_of(
                #[trigger] more[x],
            ) < (#[trigger] more[y]).addr by {
                assert(more[x] == list.take(i as int)[x]);
                if y < i {
                    assert(more[y] == list.take(i as int)[y]);
                } else if x < i - 1 {
                    assert(end_of(list.take(i as int)[x]) < list.take(i as int)[i - 1].addr);
                }
            }
            assert forall|x: int| 0 <= x < more.len() implies (#[trigger] more[x]).size > 0
                && end_of(more[x]) <= u64::MAX by {
                if x < i {
                    assert(more[x] == list.take(i as int)[x]);
                }
            }
        }
        sum = sum + b.size;
        end = b.addr + b.size;
        i = i + 1;
    }
    assert(h.free@.take(i as int) =~= h.free@);
    Check { blocks: i, free_bytes: sum, error: None, at: 0 }
}

// ---- what the heap promises ---------------------------------------------------

/// What was allocated was free, is aligned, and is free no longer; so two
/// allocations that are both live never overlap.
pub proof fn an_allocation_is_exclusive(list: Seq<Block>, size: u64, align: u64)
    requires
        tidy(list),
        size + 24 <= u64::MAX,
        first_fit(list, rounded_size(size), raised_align(align) as int, 0) is Some,
    ensures
        ({
            let need = rounded_size(size);
            let al = raised_align(align) as int;
            let i = first_fit(list, need, al, 0)->0;
            let start = aligned_up(list[i].addr as int, al);
            let after = carved(list, i, start, need);
            &&& need >= size
            &&& start % al == 0
            &&& tidy(after)
            &&& forall|x: int| start <= x < start + need ==> #[trigger] covers(list, x)
            &&& forall|x: int| start <= x < start + need ==> !#[trigger] covers(after, x)
            &&& forall|x: int| #[trigger] covers(after, x) ==> covers(list, x)
        }),
{
    let need = rounded_size(size);
    let al = raised_align(align) as int;
    lemma_first_fit(list, need, al, 0);
    let i = first_fit(list, need, al, 0)->0;
    let b = list[i];
    lemma_aligned_up(b.addr as int, al);
    let start = aligned_up(b.addr as int, al);
    carving_takes_exactly_those_bytes(list, i, start, need);
    assert forall|x: int| start <= x < start + need implies #[trigger] covers(list, x) by {
        assert(list[i].addr <= x < end_of(list[i]));
    }
}

proof fn lemma_aligned_up(v: int, align: int)
    requires
        align > 0,
        v >= 0,
    ensures
        v <= aligned_up(v, align) < v + align,
        aligned_up(v, align) % align == 0,
{
    if v % align != 0 {
        vstd::arithmetic::div_mod::lemma_fundamental_div_mod(v, align);
        vstd::arithmetic::mul::lemma_mul_is_distributive_add(align, v / align, 1);
        vstd::arithmetic::mul::lemma_mul_is_commutative(align, v / align + 1);
        vstd::arithmetic::div_mod::lemma_mod_multiples_basic(v / align + 1, align);
        vstd::arithmetic::div_mod::lemma_mod_bound(v, align);
    }
}

proof fn lemma_first_fit(list: Seq<Block>, size: int, align: int, i: int)
    requires
        0 <= i <= list.len(),
    ensures
        first_fit(list, size, align, i) matches Some(k) ==> i <= k < list.len() && fits(
            list[k],
            size,
            align,
        ) && forall|j: int| i <= j < k ==> !fits(#[trigger] list[j], size, align),
        first_fit(list, size, align, i) is None ==> forall|j: int|
            i <= j < list.len() ==> !fits(#[trigger] list[j], size, align),
    decreases list.len() - i,
{
    if i < list.len() && !fits(list[i], size, align) {
        lemma_first_fit(list, size, align, i + 1);
    }
}

/// Allocation fails only when no free block fits.
pub proof fn allocation_fails_only_without_room(list: Seq<Block>, size: u64, align: u64, i: int)
    requires
        0 <= i < list.len(),
        fits(list[i], rounded_size(size), raised_align(align) as int),
    ensures
        first_fit(list, rounded_size(size), raised_align(align) as int, 0) is Some,
{
    lemma_first_fit(list, rounded_size(size), raised_align(align) as int, 0);
}

/// Giving an allocation back makes free again exactly what was free before —
/// but for a sliver too small to have been kept.
pub proof fn giving_back_restores_what_was_free(list: Seq<Block>, i: int, start: u64, size: u64)
    requires
        tidy(list),
        0 <= i < list.len(),
        size > 0,
        list[i].addr <= start,
        start + size <= end_of(list[i]),
        start == list[i].addr || start - list[i].addr >= 16,
        start + size == end_of(list[i]) || start + size + 16 <= end_of(list[i]),
    ensures
        ({
            let taken = carved(list, i, start as int, size as int);
            let back = inserted(taken, start, size);
            &&& tidy(back)
            &&& forall|x: int| #[trigger] covers(back, x) == covers(list, x)
        }),
{
    carving_takes_exactly_those_bytes(list, i, start as int, size as int);
    let taken = carved(list, i, start as int, size as int);
    freeing_adds_exactly_those_bytes(taken, start, size);
    assert forall|x: int| start <= x < start + size implies #[trigger] covers(list, x) by {
        assert(list[i].addr <= x < end_of(list[i]));
    }
}

} // verus!
