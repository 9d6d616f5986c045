//! A block driver over virtio-mmio.
//!
//! Its queue model — descriptor chains, an available ring the driver writes, a used
//! ring the device writes — is in [`crate::virtq`]; what is here is the driver's
//! own: when it attaches, and how one request is begun, waited for and finished.
//! `mem` is two pages that the device also reaches: the queue's, then the buffer's.
use vstd::prelude::*;
use crate::bytes::set_u16;
use crate::devices::{Slot, MAGIC_VALUE, VIRTIO_BLOCK};
use crate::virtq::{
    blk_finish, blk_prepare, place, publish, used_idx, Attach, BLK_DEPTH, BLK_T_IN, BLK_T_OUT, PAGE,
};

verus! {

/// The transport version this driver is for; the legacy one takes a different
/// driver entirely.
pub const MODERN: u32 = 2;

/// Ticks a request is given: two seconds.
pub const REQUEST_TICKS: u64 = 200;

/// The wake token of threads waiting for completion.
pub const BLK_TOKEN: u64 = 0xB10C_0000;

/// Interrupts below this one belong to a core, not to a device.
pub const FIRST_SHARED_IRQ: u32 = 32;

pub struct VirtioBlk {
    pub queue_phys: u64,
    pub buf_phys: u64,
    pub last_used: u16,
    pub avail_idx: u16,
    pub capacity_sectors: u64,
    pub irq: u32,
}

/// Whether a transport holds a device for this driver.
pub open spec fn is_block_device(s: Slot) -> bool {
    s.magic == MAGIC_VALUE && s.device_id == VIRTIO_BLOCK && s.version == MODERN
}

/// The first transport at or after the `i`th that holds a device for this driver.
pub open spec fn first_block(slots: Seq<Slot>, i: int) -> Option<int>
    decreases slots.len() - i,
{
    if i >= slots.len() {
        None
    } else if is_block_device(slots[i]) {
        Some(i)
    } else {
        first_block(slots, i + 1)
    }
}

/// The available ring's place in a block queue.
pub const AVAIL_OFF: usize = 128;

/// A request laid out and offered: buffers, descriptors, ring and index.
pub open spec fn requested(
    mem: Seq<u8>,
    buf: u64,
    idx: u16,
    kind: u32,
    sector: u64,
    data: Seq<u8>,
) -> Seq<u8> {
    let laid = crate::virtq::blk_chain(
        crate::virtq::blk_buffers(mem, kind, sector, data),
        buf,
        kind,
    );
    let flagged = crate::bytes::splice(laid, AVAIL_OFF as int, crate::bytes::le16_bytes(0));
    crate::virtq::offered(flagged, 8, idx, 0)
}

/// How a wait for completion stands.
#[derive(Clone, Copy, Debug, PartialEq, Eq, Structural)]
pub enum Waiting {
    /// The device has finished a request.
    Done,
    /// Not yet: give up the CPU and look again.
    NotYet,
    TimedOut,
}

impl VirtioBlk {
    /// Whether a transport is worth attaching to: anything else is an empty slot,
    /// some other device, or a legacy transport.
    pub fn probe(s: &Slot) -> (r: bool)
        ensures
            r == is_block_device(*s),
    {
        s.magic == MAGIC_VALUE && s.device_id == VIRTIO_BLOCK && s.version == MODERN
    }

    /// The conversation that brings the device up, with its queue at `queue_phys`.
    pub fn bring_up(queue_phys: u64) -> (a: Attach)
        ensures
            a == (Attach {
                stage: crate::virtq::Stage::Identify,
                kind: VIRTIO_BLOCK,
                depth: 8,
                dma: queue_phys,
                start: true,
            }),
    {
        Attach::new(VIRTIO_BLOCK, 8, queue_phys, true)
    }

    /// A driver for a device that is up.
    pub fn attached(queue_phys: u64, buf_phys: u64, capacity_sectors: u64, irq: u32) -> (d: VirtioBlk)
        ensures
            d == (VirtioBlk {
                queue_phys,
                buf_phys,
                last_used: 0,
                avail_idx: 0,
                capacity_sectors,
                irq,
            }),
    {
        VirtioBlk { queue_phys, buf_phys, last_used: 0, avail_idx: 0, capacity_sectors, irq }
    }

    /// Lay one request out and offer it. The caller notifies the device, waits, and
    /// looks at what came of it with [`VirtioBlk::finish`].
    fn request(&mut self, mem: &mut [u8], kind: u32, sector: u64, data: &[u8; 512])
        requires
            old(mem)@.len() >= 2 * PAGE,
            old(self).buf_phys + PAGE <= u64::MAX,
        ensures
            final(mem)@ == requested(
                old(mem)@,
                old(self).buf_phys,
                old(self).avail_idx,
                kind,
                sector,
                data@,
            ),
            *final(self) == (VirtioBlk {
                avail_idx: old(self).avail_idx.wrapping_add(1),
                ..*old(self)
            }),
    {
        blk_prepare(mem, self.buf_phys, kind, sector, data);
        set_u16(mem, AVAIL_OFF, 0);
        place(mem, BLK_DEPTH, self.avail_idx, 0);
        // The device must see the descriptors before the index that publishes them.
        self.avail_idx = publish(mem, BLK_DEPTH, self.avail_idx);
    }

    /// Begin reading one sector into a buffer of `room` bytes.
    pub fn read_sector(&mut self, mem: &mut [u8], sector: u64, room: usize) -> (r: Result<
        (),
        &'static str,
    >)
        requires
            old(mem)@.len() >= 2 * PAGE,
            old(self).buf_phys + PAGE <= u64::MAX,
        ensures
            if room != 512 {
                &&& r == Err::<(), &'static str>("request must be exactly one sector")
                &&& final(mem)@ == old(mem)@
                &&& *final(self) == *old(self)
            } else {
                &&& r is Ok
                &&& final(mem)@ == requested(
                    old(mem)@,
                    old(self).buf_phys,
                    old(self).avail_idx,
                    BLK_T_IN,
                    sector,
                    Seq::new(512, |i: int| 0u8),
                )
                &&& *final(self) == (VirtioBlk {
                    avail_idx: old(self).avail_idx.wrapping_add(1),
                    ..*old(self)
                })
            },
    {
        if room != 512 {
            return Err("request must be exactly one sector");
        }
        let none: [u8; 512] = [0;512];
        assert(none@ =~= Seq::new(512, |i: int| 0u8));
        self.request(mem, BLK_T_IN, sector, &none);
        Ok(())
    }

    /// Begin writing one sector.
    pub fn write_sector(&mut self, mem: &mut [u8], sector: u64, data: &[u8; 512])
        requires
            old(mem)@.len() >= 2 * PAGE,
            old(self).buf_phys + PAGE <= u64::MAX,
        ensures
            final(mem)@ == requested(
                old(mem)@,
                old(self).buf_phys,
                old(self).avail_idx,
                BLK_T_OUT,
                sector,
                data@,
            ),
            *final(self) == (VirtioBlk {
                avail_idx: old(self).avail_idx.wrapping_add(1),
                ..*old(self)
            }),
    {
        self.request(mem, BLK_T_OUT, sector, data);
    }

    /// Look whether the used ring has advanced. The completion interrupt fires and
    /// is counted, but the wait does not depend on it: a driver that can only be
    /// woken by an interrupt hangs the machine when the interrupt does not arrive.
    pub fn wait_for_completion(&mut self, mem: &[u8], now: u64, deadline: u64) -> (r: Waiting)
        requires
            mem@.len() >= PAGE,
        ensures
            ({
                let used = crate::virtq::used_of(mem@);
                &&& r == (if used != old(self).last_used {
                    Waiting::Done
                } else if now > deadline {
                    Waiting::TimedOut
                } else {
                    Waiting::NotYet
                })
                &&& *final(self) == (VirtioBlk { last_used: used, ..*old(self) })
            }),
    {
        let used = used_idx(mem);
        if used != self.last_used {
            self.last_used = used;
            return Waiting::Done;
        }
        if now > deadline {
            return Waiting::TimedOut;
        }
        Waiting::NotYet
    }

    /// What a finished request came to. For a read, the sector is in `out`.
    pub fn finish(mem: &[u8], kind: u32, out: &mut [u8; 512]) -> (r: Result<(), &'static str>)
        requires
            mem@.len() >= 2 * PAGE,
        ensures
            match crate::virtq::blk_result(mem@) {
                None => r == Err::<(), &'static str>("device reported an error") && *final(out)
                    == *old(out),
                Some(d) => r is Ok && final(out)@ == (if kind == BLK_T_IN {
                    d
                } else {
                    old(out)@
                }),
            },
    {
        let mut got: [u8; 512] = [0;512];
        if !blk_finish(mem, &mut got) {
            return Err("device reported an error");
        }
        if kind == BLK_T_IN {
            *out = got;
        }
        Ok(())
    }

    /// Physical address of the queue, for reporting.
    pub fn queue_phys(&self) -> (r: u64)
        ensures
            r == self.queue_phys,
    {
        self.queue_phys
    }
}

/// The first transport to attach to. Every slot is looked at: they are filled from
/// the last one downwards.
pub fn init(slots: &[Slot]) -> (r: Option<usize>)
    ensures
        match r {
            Some(i) => first_block(slots@, 0) == Some(i as int) && i < slots@.len()
                && is_block_device(slots@[i as int]),
            None => first_block(slots@, 0) is None,
        },
{
    next_block(slots, 0)
}

/// The first transport to attach to from the `from`th on: where the device in one is
/// refused while it is being brought up, the walk goes on behind it.
pub fn next_block(slots: &[Slot], from: usize) -> (r: Option<usize>)
    ensures
        match r {
            Some(i) => first_block(slots@, from as int) == Some(i as int) && from <= i
                < slots@.len() && is_block_device(slots@[i as int]),
            None => first_block(slots@, from as int) is None,
        },
{
    let mut i: usize = from;
    while i < slots.len()
        invariant
            from <= i,
            first_block(slots@, from as int) == first_block(slots@, i as int),
        decreases slots@.len() - i,
    {
        if VirtioBlk::probe(&slots[i]) {
            return Some(i);
        }
        i = i + 1;
    }
    None
}

/// A walk that goes on behind each device that was refused misses none: what is found next
/// is never past a device that is there.
pub proof fn the_walk_misses_no_device(slots: Seq<Slot>, from: int, k: int)
    requires
        0 <= from <= k < slots.len(),
        is_block_device(slots[k]),
    ensures
        first_block(slots, from) matches Some(i) && from <= i <= k && is_block_device(slots[i]),
    decreases k - from,
{
    if !is_block_device(slots[from]) {
        the_walk_misses_no_device(slots, from + 1, k);
    }
}

/// Whether a device's interrupt is one to claim.
pub fn claims_interrupt(irq: u32) -> (r: bool)
    ensures
        r == (irq >= FIRST_SHARED_IRQ),
{
    irq >= FIRST_SHARED_IRQ
}

/// The attached disk, if there is one, and how many completion interrupts it has
/// raised.
pub struct Host {
    pub disk: Option<VirtioBlk>,
    pub irqs: u64,
}

impl Host {
    pub fn new() -> (h: Host)
        ensures
            h.disk is None,
            h.irqs == 0,
    {
        Host { disk: None, irqs: 0 }
    }

    /// A completion interrupt was taken.
    pub fn interrupted(&mut self)
        ensures
            final(self).irqs == old(self).irqs.wrapping_add(1),
            final(self).disk == old(self).disk,
    {
        self.irqs = self.irqs.wrapping_add(1);
    }
}

/// Is a block device attached?
pub fn have_disk(h: &Host) -> (r: bool)
    ensures
        r == (h.disk is Some),
{
    h.disk.is_some()
}

/// Size of the attached disk, in sectors.
pub fn capacity_sectors(h: &Host) -> (n: u64)
    ensures
        n == (match h.disk {
            Some(d) => d.capacity_sectors,
            None => 0,
        }),
{
    match &h.disk {
        Some(d) => d.capacity_sectors,
        None => 0,
    }
}

/// Completion interrupts taken since boot.
pub fn irq_count(h: &Host) -> (n: u64)
    ensures
        n == h.irqs,
{
    h.irqs
}

/// Begin reading a sector of the attached disk.
pub fn read_sector(h: &mut Host, mem: &mut [u8], sector: u64, room: usize) -> (r: Result<
    (),
    &'static str,
>)
    requires
        old(mem)@.len() >= 2 * PAGE,
        old(h).disk matches Some(d) ==> d.buf_phys + PAGE <= u64::MAX,
    ensures
        final(h).irqs == old(h).irqs,
        match old(h).disk {
            None => {
                &&& r == Err::<(), &'static str>("no disk")
                &&& final(mem)@ == old(mem)@
                &&& final(h).disk is None
            },
            Some(d) => if room != 512 {
                &&& r == Err::<(), &'static str>("request must be exactly one sector")
                &&& final(mem)@ == old(mem)@
                &&& final(h).disk == Some(d)
            } else {
                &&& r is Ok
                &&& final(mem)@ == requested(
                    old(mem)@,
                    d.buf_phys,
                    d.avail_idx,
                    BLK_T_IN,
                    sector,
                    Seq::new(512, |i: int| 0u8),
                )
                &&& final(h).disk == Some(
                    VirtioBlk { avail_idx: d.avail_idx.wrapping_add(1), ..d },
                )
            },
        },
{
    match &mut h.disk {
        None => Err("no disk"),
        Some(d) => d.read_sector(mem, sector, room),
    }
}

/// Begin writing a sector of the attached disk.
pub fn write_sector(h: &mut Host, mem: &mut [u8], sector: u64, data: &[u8; 512]) -> (r: Result<
    (),
    &'static str,
>)
    requires
        old(mem)@.len() >= 2 * PAGE,
        old(h).disk matches Some(d) ==> d.buf_phys + PAGE <= u64::MAX,
    ensures
        final(h).irqs == old(h).irqs,
        match old(h).disk {
            None => {
                &&& r == Err::<(), &'static str>("no disk")
                &&& final(mem)@ == old(mem)@
                &&& final(h).disk is None
            },
            Some(d) => {
                &&& r is Ok
                &&& final(mem)@ == requested(
                    old(mem)@,
                    d.buf_phys,
                    d.avail_idx,
                    BLK_T_OUT,
                    sector,
                    data@,
                )
                &&& final(h).disk == Some(
                    VirtioBlk { avail_idx: d.avail_idx.wrapping_add(1), ..d },
                )
            },
        },
{
    match &mut h.disk {
        None => Err("no disk"),
        Some(d) => {
            d.write_sector(mem, sector, data);
            Ok(())
        },
    }
}

} // verus!
