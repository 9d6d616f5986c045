//! What every virtio-mmio driver shares: bringing a device up, and the split
//! virtqueue in the memory that driver and device both reach.
//!
//! A device is brought up by a conversation: read a register, decide, write some,
//! read the next. [`Attach`] is the driver's half of it. Queue memory is a byte
//! buffer laid out as the device expects it; what a driver puts there, and where,
//! is stated byte for byte.
use vstd::prelude::*;
use crate::bytes::{get_u16, set_bytes, set_u16, set_u32, set_u64, set_u8};

verus! {

// MMIO register offsets.
pub const MAGIC: u32 = 0x000;

pub const VERSION: u32 = 0x004;

pub const DEVICE_ID: u32 = 0x008;

pub const DEVICE_FEATURES: u32 = 0x010;

pub const DEVICE_FEATURES_SEL: u32 = 0x014;

pub const DRIVER_FEATURES: u32 = 0x020;

pub const DRIVER_FEATURES_SEL: u32 = 0x024;

pub const QUEUE_SEL: u32 = 0x030;

pub const QUEUE_NUM_MAX: u32 = 0x034;

pub const QUEUE_NUM: u32 = 0x038;

pub const QUEUE_READY: u32 = 0x044;

pub const QUEUE_NOTIFY: u32 = 0x050;

pub const INTERRUPT_STATUS: u32 = 0x060;

pub const INTERRUPT_ACK: u32 = 0x064;

pub const STATUS: u32 = 0x070;

pub const QUEUE_DESC_LOW: u32 = 0x080;

pub const QUEUE_DESC_HIGH: u32 = 0x084;

pub const QUEUE_DRIVER_LOW: u32 = 0x090;

pub const QUEUE_DRIVER_HIGH: u32 = 0x094;

pub const QUEUE_DEVICE_LOW: u32 = 0x0a0;

pub const QUEUE_DEVICE_HIGH: u32 = 0x0a4;

pub const CONFIG: u32 = 0x100;

// Device status, as it is built up: acknowledged, driver found, features agreed,
// driver ready.
pub const STATUS_RESET: u32 = 0;

pub const STATUS_ACKNOWLEDGE: u32 = 1;

pub const STATUS_WITH_DRIVER: u32 = 3;

pub const STATUS_WITH_FEATURES: u32 = 11;

pub const STATUS_RUNNING: u32 = 15;

pub const STATUS_FAILED: u32 = 128;

/// The bit a device keeps set if it agrees to the features.
pub const STATUS_FEATURES_OK: u32 = 8;

/// Bytes from the start of the queue memory to the used ring.
pub const USED_OFF: usize = 2048;

pub const PAGE: usize = 4096;

// ---- bringing a device up -----------------------------------------------------------

/// Where the conversation is: which register is to be read next.
#[derive(Clone, Copy, Debug, PartialEq, Eq, Structural)]
pub enum Stage {
    /// What kind of device is it?
    Identify,
    /// Does it speak the modern interface?
    Features,
    /// Does it agree to that and nothing else?
    Agreed,
    /// Is its queue deep enough?
    Depth,
    /// It is up.
    Ready,
    /// It was refused.
    Refused,
}

/// A driver bringing a device up.
#[derive(Clone, Copy, Debug, PartialEq, Eq, Structural)]
pub struct Attach {
    pub stage: Stage,
    /// The kind of device the driver is for.
    pub kind: u32,
    /// Descriptors in the queue.
    pub depth: u32,
    /// Physical address of the queue memory.
    pub dma: u64,
    /// Whether the device is to start at once, or once it has been given buffers.
    pub start: bool,
}

/// Bytes of the descriptor table, which is where the available ring begins.
pub open spec fn avail_off(depth: u32) -> int {
    16 * depth as int
}

/// The low half of an address.
pub open spec fn low_half(a: int) -> u32 {
    (a % 0x1_0000_0000) as u32
}

/// The high half of an address.
pub open spec fn high_half(a: int) -> u32 {
    (a / 0x1_0000_0000) as u32
}

/// Telling the device where its queue is.
pub open spec fn queue_setup(a: Attach) -> Seq<(u32, u32)> {
    let dma = a.dma as int;
    let avail = dma + avail_off(a.depth);
    let used = dma + USED_OFF;
    seq![
        (QUEUE_NUM, a.depth),
        (QUEUE_DESC_LOW, low_half(dma)),
        (QUEUE_DESC_HIGH, high_half(dma)),
        (QUEUE_DRIVER_LOW, low_half(avail)),
        (QUEUE_DRIVER_HIGH, high_half(avail)),
        (QUEUE_DEVICE_LOW, low_half(used)),
        (QUEUE_DEVICE_HIGH, high_half(used)),
        (QUEUE_READY, 1u32),
    ]
}

/// What the driver writes when a register read `value`, and where the conversation
/// goes.
pub open spec fn reply(a: Attach, value: u32) -> (Seq<(u32, u32)>, Stage) {
    match a.stage {
        Stage::Identify => if value == a.kind {
            (
                seq![
                    (STATUS, STATUS_RESET),
                    (STATUS, STATUS_ACKNOWLEDGE),
                    (STATUS, STATUS_WITH_DRIVER),
                    (DEVICE_FEATURES_SEL, 1u32),
                ],
                Stage::Features,
            )
        } else {
            (Seq::empty(), Stage::Refused)
        },
        Stage::Features => if value % 2 == 1 {
            (
                seq![
                    (DRIVER_FEATURES_SEL, 1u32),
                    (DRIVER_FEATURES, 1u32),
                    (DRIVER_FEATURES_SEL, 0u32),
                    (DRIVER_FEATURES, 0u32),
                    (STATUS, STATUS_WITH_FEATURES),
                ],
                Stage::Agreed,
            )
        } else {
            (seq![(STATUS, STATUS_FAILED)], Stage::Refused)
        },
        Stage::Agreed => if value & STATUS_FEATURES_OK != 0 {
            (seq![(QUEUE_SEL, 0u32)], Stage::Depth)
        } else {
            (seq![(STATUS, STATUS_FAILED)], Stage::Refused)
        },
        Stage::Depth => if value >= a.depth {
            (
                if a.start {
                    queue_setup(a).push((STATUS, STATUS_RUNNING))
                } else {
                    queue_setup(a)
                },
                Stage::Ready,
            )
        } else {
            (seq![(STATUS, STATUS_FAILED)], Stage::Refused)
        },
        Stage::Ready => (Seq::empty(), Stage::Ready),
        Stage::Refused => (Seq::empty(), Stage::Refused),
    }
}

/// The queue memory once a register read `value`: it is cleared when the features have
/// been agreed on, and not before.
pub open spec fn memory_after(a: Attach, value: u32, mem: Seq<u8>) -> Seq<u8> {
    if a.stage == Stage::Agreed && reply(a, value).1 == Stage::Depth {
        cleared(mem)
    } else {
        mem
    }
}

impl Attach {
    /// The queue memory has physical addresses.
    pub open spec fn wf(self) -> bool {
        self.depth <= 64 && self.dma + 2 * PAGE <= u64::MAX
    }

    pub fn new(kind: u32, depth: u32, dma: u64, start: bool) -> (a: Attach)
        ensures
            a == (Attach { stage: Stage::Identify, kind, depth, dma, start }),
    {
        Attach { stage: Stage::Identify, kind, depth, dma, start }
    }

    /// The register to read next, if the conversation is not over.
    pub fn wants(&self) -> (r: Option<u32>)
        ensures
            r == (match self.stage {
                Stage::Identify => Some(DEVICE_ID),
                Stage::Features => Some(DEVICE_FEATURES),
                Stage::Agreed => Some(STATUS),
                Stage::Depth => Some(QUEUE_NUM_MAX),
                _ => None,
            }),
    {
        match self.stage {
            Stage::Identify => Some(DEVICE_ID),
            Stage::Features => Some(DEVICE_FEATURES),
            Stage::Agreed => Some(STATUS),
            Stage::Depth => Some(QUEUE_NUM_MAX),
            _ => None,
        }
    }

    /// The register that was asked for reads `value`: the writes to make, in order. `mem`
    /// is the queue memory, which is cleared before the device is told of it.
    pub fn step(&mut self, mem: &mut [u8], value: u32) -> (writes: Vec<(u32, u32)>)
        requires
            old(self).wf(),
            old(mem)@.len() >= 2 * PAGE,
        ensures
            (writes@, final(self).stage) == reply(*old(self), value),
            final(mem)@ == memory_after(*old(self), value, old(mem)@),
            *final(self) == (Attach { stage: final(self).stage, ..*old(self) }),
    {
        let ghost a = *self;
        let mut out: Vec<(u32, u32)> = Vec::new();
        match self.stage {
            Stage::Identify => {
                if value == self.kind {
                    out.push((STATUS, STATUS_RESET));
                    out.push((STATUS, STATUS_ACKNOWLEDGE));
                    out.push((STATUS, STATUS_WITH_DRIVER));
                    out.push((DEVICE_FEATURES_SEL, 1));
                    self.stage = Stage::Features;
                } else {
                    self.stage = Stage::Refused;
                }
            },
            Stage::Features => {
                if value % 2 == 1 {
                    // Accept exactly one feature. Anything else the device offers is
                    // declined, which is always allowed.
                    out.push((DRIVER_FEATURES_SEL, 1));
                    out.push((DRIVER_FEATURES, 1));
                    out.push((DRIVER_FEATURES_SEL, 0));
                    out.push((DRIVER_FEATURES, 0));
                    out.push((STATUS, STATUS_WITH_FEATURES));
                    self.stage = Stage::Agreed;
                } else {
                    out.push((STATUS, STATUS_FAILED));
                    self.stage = Stage::Refused;
                }
            },
            Stage::Agreed => {
                if value & STATUS_FEATURES_OK != 0 {
                    clear(mem);
                    out.push((QUEUE_SEL, 0));
                    self.stage = Stage::Depth;
                } else {
                    out.push((STATUS, STATUS_FAILED));
                    self.stage = Stage::Refused;
                }
            },
            Stage::Depth => {
                if value >= self.depth {
                    let avail: u64 = self.dma + 16 * self.depth as u64;
                    let used: u64 = self.dma + USED_OFF as u64;
                    out.push((QUEUE_NUM, self.depth));
                    out.push((QUEUE_DESC_LOW, low(self.dma)));
                    out.push((QUEUE_DESC_HIGH, high(self.dma)));
                    out.push((QUEUE_DRIVER_LOW, low(avail)));
                    out.push((QUEUE_DRIVER_HIGH, high(avail)));
                    out.push((QUEUE_DEVICE_LOW, low(used)));
                    out.push((QUEUE_DEVICE_HIGH, high(used)));
                    out.push((QUEUE_READY, 1));
                    assert(out@ =~= queue_setup(a));
                    if self.start {
                        out.push((STATUS, STATUS_RUNNING));
                    }
                    self.stage = Stage::Ready;
                } else {
                    out.push((STATUS, STATUS_FAILED));
                    self.stage = Stage::Refused;
                }
            },
            _ => {},
        }
        assert(out@ =~= reply(a, value).0);
        out
    }
}

fn low(a: u64) -> (r: u32)
    ensures
        r == low_half(a as int),
{
    (a % 0x1_0000_0000) as u32
}

fn high(a: u64) -> (r: u32)
    ensures
        r == high_half(a as int),
{
    (a / 0x1_0000_0000) as u32
}

/// A device is told to run only at the end of a conversation that went well: it is
/// of the right kind, offered and kept the one feature, and its queue is deep
/// enough.
pub proof fn a_device_runs_only_after_every_check(a: Attach, value: u32)
    requires
        reply(a, value).0.contains((STATUS, STATUS_RUNNING)),
    ensures
        a.stage == Stage::Depth,
        value >= a.depth,
        reply(a, value).1 == Stage::Ready,
        reply(a, value).0.last() == (STATUS, STATUS_RUNNING),
{
    let ws = reply(a, value).0;
    let k = choose|k: int| 0 <= k < ws.len() && ws[k] == (STATUS, STATUS_RUNNING);
    assert(ws[k] == (STATUS, STATUS_RUNNING));
}

/// The conversation, and the queue memory, after the first `n` of the values that the
/// registers read.
pub open spec fn talked(a: Attach, mem: Seq<u8>, values: Seq<u32>, n: int) -> (Attach, Seq<u8>)
    decreases n,
{
    if n <= 0 {
        (a, mem)
    } else {
        let (b, m) = talked(a, mem, values, n - 1);
        (Attach { stage: reply(b, values[n - 1]).1, ..b }, memory_after(b, values[n - 1], m))
    }
}

/// A conversation from the beginning goes through its stages in order, and where it is
/// says what has become of the queue memory: before the features are agreed on it is as
/// it was, and once they are it is cleared.
pub proof fn memory_is_cleared_once_features_are_agreed(
    a: Attach,
    mem: Seq<u8>,
    values: Seq<u32>,
    n: int,
)
    requires
        a.stage == Stage::Identify,
        mem.len() >= 2 * PAGE,
    ensures
        ({
            let (b, m) = talked(a, mem, values, n);
            &&& b == (Attach { stage: b.stage, ..a })
            &&& match b.stage {
                Stage::Identify | Stage::Features | Stage::Agreed => m == mem,
                Stage::Depth | Stage::Ready => m == cleared(mem) && used_of(m) == 0,
                Stage::Refused => m == mem || m == cleared(mem),
            }
        }),
    decreases n,
{
    a_cleared_queue_is_quiet(mem);
    if n > 0 {
        memory_is_cleared_once_features_are_agreed(a, mem, values, n - 1);
    }
}

/// A device that is refused before it has agreed to the features leaves the queue memory
/// as it was.
pub proof fn a_refused_device_leaves_memory_alone(a: Attach, mem: Seq<u8>, value: u32)
    requires
        reply(a, value).1 == Stage::Refused,
    ensures
        memory_after(a, value, mem) == mem,
{
}

/// A device that is refused once its driver has been announced is told so, and
/// nothing more is written to it.
pub proof fn a_refused_device_is_told(a: Attach, value: u32, more: u32)
    requires
        reply(a, value).1 == Stage::Refused,
        a.stage != Stage::Refused,
        a.stage != Stage::Identify,
    ensures
        reply(a, value).0 == seq![(STATUS, STATUS_FAILED)],
        reply(Attach { stage: Stage::Refused, ..a }, more) == (
            Seq::<(u32, u32)>::empty(),
            Stage::Refused,
        ),
{
}

// ---- the queue ---------------------------------------------------------------------------

/// The descriptor goes on with the next one.
pub const DESC_F_NEXT: u16 = 1;

/// The device writes; the driver reads.
pub const DESC_F_WRITE: u16 = 2;

/// A descriptor's sixteen bytes.
pub open spec fn desc_bytes(addr: u64, len: u32, flags: u16, next: u16) -> Seq<u8> {
    crate::bytes::le64_bytes(addr) + crate::bytes::le32_bytes(len) + crate::bytes::le16_bytes(flags)
        + crate::bytes::le16_bytes(next)
}

/// Write descriptor `i`.
#[verifier::rlimit(30)]
pub fn write_desc(mem: &mut [u8], i: usize, addr: u64, len: u32, flags: u16, next: u16)
    requires
        i < 64,
        old(mem)@.len() >= 16 * 64,
    ensures
        final(mem)@ == crate::bytes::splice(
            old(mem)@,
            16 * i as int,
            desc_bytes(addr, len, flags, next),
        ),
{
    let ghost m0 = mem@;
    set_u64(mem, 16 * i, addr);
    set_u32(mem, 16 * i + 8, len);
    set_u16(mem, 16 * i + 12, flags);
    set_u16(mem, 16 * i + 14, next);
    assert(mem@ =~= crate::bytes::splice(m0, 16 * i as int, desc_bytes(addr, len, flags, next)));
}

/// How far the device has got.
pub open spec fn used_of(mem: Seq<u8>) -> u16 {
    crate::bytes::le16(mem, USED_OFF + 2)
}

/// Memory with the two pages that a queue and its buffers take cleared.
pub open spec fn cleared(mem: Seq<u8>) -> Seq<u8> {
    Seq::new(
        mem.len(),
        |i: int|
            if i < 2 * PAGE {
                0u8
            } else {
                mem[i]
            },
    )
}

/// Clear the two pages that a queue and its buffers take, so that nothing left in them is
/// mistaken for something the device has done.
pub fn clear(mem: &mut [u8])
    requires
        old(mem)@.len() >= 2 * PAGE,
    ensures
        final(mem)@ == cleared(old(mem)@),
        used_of(final(mem)@) == 0,
{
    let ghost before = mem@;
    let mut i: usize = 0;
    while i < 2 * PAGE
        invariant
            i <= 2 * PAGE,
            mem@.len() == before.len(),
            before.len() >= 2 * PAGE,
            forall|k: int|
                0 <= k < mem@.len() ==> #[trigger] mem@[k] == if k < i {
                    0u8
                } else {
                    before[k]
                },
        decreases 2 * PAGE - i,
    {
        mem[i] = 0;
        i = i + 1;
    }
    assert(mem@ =~= cleared(before));
    proof {
        a_cleared_queue_is_quiet(before);
    }
}

/// A queue in cleared memory shows nothing done.
pub proof fn a_cleared_queue_is_quiet(mem: Seq<u8>)
    requires
        mem.len() >= 2 * PAGE,
    ensures
        used_of(cleared(mem)) == 0,
{
    let c = cleared(mem);
    assert(c[USED_OFF + 2] == 0 && c[USED_OFF + 3] == 0);
    assert(0u16 | (0u16 << 8) == 0) by (bit_vector);
}

/// Read how far the device has got.
pub fn used_idx(mem: &[u8]) -> (r: u16)
    requires
        mem@.len() >= PAGE,
    ensures
        r == used_of(mem@),
{
    get_u16(mem, USED_OFF + 2)
}

/// A descriptor chain offered: its head in the ring, and the index one further.
pub open spec fn offered(mem: Seq<u8>, depth: int, idx: u16, head: u16) -> Seq<u8> {
    let ring = crate::bytes::splice(
        mem,
        16 * depth + 4 + 2 * (idx as int % depth),
        crate::bytes::le16_bytes(head),
    );
    crate::bytes::splice(
        ring,
        16 * depth + 2,
        crate::bytes::le16_bytes(idx.wrapping_add(1)),
    )
}

/// Put the head of a chain in the ring. The index that publishes it comes after: a
/// barrier belongs between the two.
pub fn place(mem: &mut [u8], depth: usize, idx: u16, head: u16)
    requires
        0 < depth <= 64,
        old(mem)@.len() >= PAGE,
    ensures
        final(mem)@ == crate::bytes::splice(
            old(mem)@,
            16 * depth + 4 + 2 * (idx as int % depth as int),
            crate::bytes::le16_bytes(head),
        ),
{
    let slot: usize = idx as usize % depth;
    set_u16(mem, 16 * depth + 4 + 2 * slot, head);
}

/// Publish what is in the ring: give the index one further.
pub fn publish(mem: &mut [u8], depth: usize, idx: u16) -> (next: u16)
    requires
        0 < depth <= 64,
        old(mem)@.len() >= PAGE,
    ensures
        next == idx.wrapping_add(1),
        final(mem)@ == crate::bytes::splice(
            old(mem)@,
            16 * depth + 2,
            crate::bytes::le16_bytes(next),
        ),
{
    let next = idx.wrapping_add(1);
    set_u16(mem, 16 * depth + 2, next);
    next
}

// ---- block requests ------------------------------------------------------------------------

/// Read from the device.
pub const BLK_T_IN: u32 = 0;

/// Write to the device.
pub const BLK_T_OUT: u32 = 1;

/// Descriptors in a block queue. Small: one request at a time is issued, and a deep
/// queue would only hide that.
pub const BLK_DEPTH: usize = 8;

/// Header, data and status inside the buffer page, which follows the queue's.
pub const HDR_OFF: usize = 4096;

pub const DATA_OFF: usize = 4160;

pub const STATUS_OFF: usize = 4672;

/// A block request's header.
pub open spec fn blk_header(kind: u32, sector: u64) -> Seq<u8> {
    crate::bytes::le32_bytes(kind) + crate::bytes::le32_bytes(0) + crate::bytes::le64_bytes(sector)
}

/// The buffer page of a request: its header, a status that no device writes, and
/// the data if there is any to write.
pub open spec fn blk_buffers(mem: Seq<u8>, kind: u32, sector: u64, data: Seq<u8>) -> Seq<u8> {
    let a = crate::bytes::splice(mem, HDR_OFF as int, blk_header(kind, sector));
    let b = crate::bytes::splice(a, STATUS_OFF as int, seq![0xffu8]);
    if kind == BLK_T_OUT {
        crate::bytes::splice(b, DATA_OFF as int, data)
    } else {
        b
    }
}

/// The three descriptors of a request: a header the device reads, the data, which
/// it reads for a write and writes for a read, and a status byte it writes. `buf`
/// is the physical address of the buffer page.
pub open spec fn blk_chain(mem: Seq<u8>, buf: u64, kind: u32) -> Seq<u8> {
    let a = crate::bytes::splice(mem, 0, desc_bytes(buf, 16, DESC_F_NEXT, 1));
    let b = crate::bytes::splice(
        a,
        16,
        desc_bytes(
            (buf + 64) as u64,
            512,
            if kind == BLK_T_IN {
                3
            } else {
                DESC_F_NEXT
            },
            2,
        ),
    );
    crate::bytes::splice(b, 32, desc_bytes((buf + 576) as u64, 1, DESC_F_WRITE, 0))
}

/// Lay a request out in memory, ready to be offered.
pub fn blk_prepare(mem: &mut [u8], buf: u64, kind: u32, sector: u64, data: &[u8; 512])
    requires
        old(mem)@.len() >= 2 * PAGE,
        buf + PAGE <= u64::MAX,
    ensures
        final(mem)@ == blk_chain(blk_buffers(old(mem)@, kind, sector, data@), buf, kind),
        final(mem)@.len() == old(mem)@.len(),
{
    let ghost m0 = mem@;
    set_u32(mem, HDR_OFF, kind);
    set_u32(mem, HDR_OFF + 4, 0);
    set_u64(mem, HDR_OFF + 8, sector);
    assert(mem@ =~= crate::bytes::splice(m0, HDR_OFF as int, blk_header(kind, sector)));
    set_u8(mem, STATUS_OFF, 0xff);
    if kind == BLK_T_OUT {
        set_bytes(mem, DATA_OFF, data);
    }
    assert(mem@ == blk_buffers(m0, kind, sector, data@));
    write_desc(mem, 0, buf, 16, DESC_F_NEXT, 1);
    let flags: u16 = if kind == BLK_T_IN {
        3
    } else {
        DESC_F_NEXT
    };
    write_desc(mem, 1, buf + 64, 512, flags, 2);
    write_desc(mem, 2, buf + 576, 1, DESC_F_WRITE, 0);
}

/// What a finished request came to: the data, if the device reported success.
pub open spec fn blk_result(mem: Seq<u8>) -> Option<Seq<u8>> {
    if mem[STATUS_OFF as int] == 0 {
        Some(mem.subrange(DATA_OFF as int, DATA_OFF + 512))
    } else {
        None
    }
}

/// Look at a finished request.
pub fn blk_finish(mem: &[u8], out: &mut [u8; 512]) -> (ok: bool)
    requires
        mem@.len() >= 2 * PAGE,
    ensures
        ok == (blk_result(mem@) is Some),
        match blk_result(mem@) {
            Some(d) => final(out)@ == d,
            None => *final(out) == *old(out),
        },
{
    if mem[STATUS_OFF] != 0 {
        return false;
    }
    let mut i: usize = 0;
    while i < 512
        invariant
            i <= 512,
            mem@.len() >= 2 * PAGE,
            forall|k: int| 0 <= k < i ==> out@[k] == mem@[DATA_OFF + k],
        decreases 512 - i,
    {
        out[i] = mem[DATA_OFF + i];
        i = i + 1;
    }
    assert(out@ =~= mem@.subrange(DATA_OFF as int, DATA_OFF + 512));
    true
}

/// A request whose buffers the device has not touched is not taken for a success.
pub proof fn an_unanswered_request_is_no_success(
    mem: Seq<u8>,
    buf: u64,
    kind: u32,
    sector: u64,
    data: Seq<u8>,
)
    requires
        mem.len() >= 2 * PAGE,
        data.len() == 512,
    ensures
        blk_result(blk_chain(blk_buffers(mem, kind, sector, data), buf, kind)) is None,
{
    let m = blk_buffers(mem, kind, sector, data);
    assert(m[STATUS_OFF as int] == 0xff);
    assert(m.len() == mem.len());
}

} // verus!
