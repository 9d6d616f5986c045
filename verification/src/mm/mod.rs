//! Memory management: page arithmetic and the linear map.
use vstd::prelude::*;

pub mod frames;
pub mod ram;
pub mod heap;
pub mod paging;
pub mod paging_laws;
pub mod memory_laws;
pub mod uaccess;

verus! {

pub const PAGE_SIZE: u64 = 4096;

pub const PAGE_SHIFT: u64 = 12;

/// Base of the higher-half linear map: every byte of physical RAM is reachable
/// at `pa + PHYS_OFFSET`.
pub const PHYS_OFFSET: u64 = 0xFFFF_0000_0000_0000;

/// Physical addresses the linear map covers.
pub const PHYS_LIMIT: u64 = 0x0001_0000_0000_0000;

/// The largest page boundary at or below `addr`.
pub open spec fn page_down(addr: int) -> int {
    addr - addr % 4096
}

/// The smallest page boundary at or above `addr`.
pub open spec fn page_up(addr: int) -> int {
    page_down(addr + 4095)
}

proof fn lemma_mask_is_page_down(x: u64)
    by (bit_vector)
    ensures
        x & !4095u64 == x - x % 4096,
{
}

/// Physical address -> kernel virtual address in the linear map.
pub fn phys_to_virt(pa: u64) -> (va: u64)
    requires
        pa < PHYS_LIMIT,
    ensures
        va == pa + PHYS_OFFSET,
{
    pa + PHYS_OFFSET
}

/// Kernel virtual address in the linear map -> physical address.
pub fn virt_to_phys(va: u64) -> (pa: u64)
    requires
        va >= PHYS_OFFSET,
    ensures
        pa == va - PHYS_OFFSET,
{
    va - PHYS_OFFSET
}

/// Round up to a whole page.
pub fn page_align_up(addr: u64) -> (r: u64)
    requires
        addr + 4095 <= u64::MAX,
    ensures
        r == page_up(addr as int),
{
    proof {
        lemma_mask_is_page_down((addr + 4095) as u64);
    }
    (addr + (PAGE_SIZE - 1)) & !4095u64
}

/// Round down to a whole page.
pub fn page_align_down(addr: u64) -> (r: u64)
    ensures
        r == page_down(addr as int),
{
    proof {
        lemma_mask_is_page_down(addr);
    }
    addr & !4095u64
}

/// The linear map is the same map read both ways.
pub proof fn linear_map_is_invertible(pa: u64)
    requires
        pa < PHYS_LIMIT,
    ensures
        PHYS_OFFSET <= pa + PHYS_OFFSET <= u64::MAX,
        (pa + PHYS_OFFSET) - PHYS_OFFSET == pa,
        ((pa + PHYS_OFFSET) % 4096 == 0) == (pa % 4096 == 0),
{
}

/// Rounding gives page boundaries that enclose the address, at most a page away,
/// and leaves a boundary where it is.
pub proof fn rounding_encloses(addr: int)
    requires
        addr >= 0,
    ensures
        page_down(addr) % 4096 == 0,
        page_up(addr) % 4096 == 0,
        page_down(addr) <= addr <= page_up(addr),
        addr - page_down(addr) < 4096,
        page_up(addr) - addr < 4096,
        addr % 4096 == 0 ==> page_down(addr) == addr && page_up(addr) == addr,
{
}

} // verus!
