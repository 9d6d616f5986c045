//! GICv3 interrupt controller: which registers are written, and with what.
//!
//! Addresses come from the device tree, never from a constant. The functions here
//! give the accesses to make, as offsets and values, in order.
use vstd::prelude::*;

verus! {

// Distributor.
pub const GICD_CTLR: u64 = 0x0000;

pub const GICD_TYPER: u64 = 0x0004;

pub const GICD_IGROUPR: u64 = 0x0080;

pub const GICD_ISENABLER: u64 = 0x0100;

pub const GICD_ICENABLER: u64 = 0x0180;

pub const GICD_IPRIORITYR: u64 = 0x0400;

pub const GICD_IROUTER: u64 = 0x6000;

pub const GICD_CTLR_ARE_NS: u32 = 0x10;

pub const GICD_CTLR_EN_GRP1NS: u32 = 0x2;

pub const GICD_CTLR_RWP: u32 = 0x8000_0000;

// Redistributor: an RD frame followed by an SGI frame.
pub const GICR_CTLR: u64 = 0x0000;

pub const GICR_TYPER: u64 = 0x0008;

pub const GICR_WAKER: u64 = 0x0014;

pub const GICR_IGROUPR0: u64 = 0x1_0080;

pub const GICR_ISENABLER0: u64 = 0x1_0100;

pub const GICR_ICENABLER0: u64 = 0x1_0180;

pub const GICR_IPRIORITYR: u64 = 0x1_0400;

pub const GICR_WAKER_PROCESSOR_SLEEP: u32 = 0x2;

pub const GICR_WAKER_CHILDREN_ASLEEP: u32 = 0x4;

pub const GICR_CTLR_RWP: u32 = 0x8;

pub const GICR_TYPER_LAST: u64 = 0x10;

/// Redistributor frame stride: an RD frame plus an SGI frame, 64 KiB each.
pub const GICR_STRIDE: u64 = 0x2_0000;

/// Interrupt priority given to everything. Numerically lower is more urgent; the
/// priority mask is set above this so all of it gets through.
pub const DEFAULT_PRIORITY: u8 = 0xA0;

/// What an acknowledge gives when there was nothing to take.
pub const SPURIOUS: u32 = 1023;

/// One access to a controller's registers.
#[derive(Clone, Copy, Debug, PartialEq, Eq, Structural)]
pub enum Access {
    Write8(u64, u8),
    Write32(u64, u32),
    Write64(u64, u64),
    /// Wait until the last write has taken effect.
    Settle,
}

// ---- finding a core's redistributor ----------------------------------------------------

/// The affinity that a redistributor reports for a core.
pub open spec fn affinity_of(mpidr: u64) -> u64 {
    (((mpidr >> 32) & 0xff) << 24) | (mpidr & 0xff_ffff)
}

/// The first frame at or after the `i`th that belongs to a core, where frames are
/// looked at up to the one that says it is the last.
pub open spec fn frame_for(typers: Seq<u64>, want: u64, i: int) -> Option<int>
    decreases typers.len() - i,
{
    if i >= typers.len() {
        None
    } else if typers[i] >> 32 == want {
        Some(i)
    } else if typers[i] & GICR_TYPER_LAST != 0 {
        None
    } else {
        frame_for(typers, want, i + 1)
    }
}

/// Where the redistributor of a core is.
pub open spec fn redistributor_of(base: u64, typers: Seq<u64>, mpidr: u64) -> Option<int> {
    match frame_for(typers, affinity_of(mpidr), 0) {
        Some(i) => Some(base + i * GICR_STRIDE),
        None => None,
    }
}

/// Find the redistributor frame belonging to `mpidr`, from what the type registers
/// of the frames from `base` on read.
///
/// Frames are laid out consecutively but not necessarily in MPIDR order, and on a
/// big.LITTLE part the affinities are not dense — so this matches on the affinity
/// a frame reports rather than indexing by CPU number.
pub fn find_redistributor(base: u64, typers: &[u64], mpidr: u64) -> (r: Option<u64>)
    requires
        base + typers@.len() * GICR_STRIDE <= u64::MAX,
    ensures
        match r {
            Some(at) => redistributor_of(base, typers@, mpidr) == Some(at as int),
            None => redistributor_of(base, typers@, mpidr) is None,
        },
{
    let want = (((mpidr >> 32) & 0xff) << 24) | (mpidr & 0xff_ffff);
    let mut i: usize = 0;
    let mut frame = base;
    while i < typers.len()
        invariant
            i <= typers@.len(),
            want == affinity_of(mpidr),
            base + typers@.len() * GICR_STRIDE <= u64::MAX,
            frame == base + i * GICR_STRIDE,
            frame_for(typers@, want, 0) == frame_for(typers@, want, i as int),
        decreases typers@.len() - i,
    {
        let typer = typers[i];
        if typer >> 32 == want {
            return Some(frame);
        }
        if typer & GICR_TYPER_LAST != 0 {
            return None;
        }
        frame = frame + GICR_STRIDE;
        i = i + 1;
    }
    None
}

// ---- bringing the controller up ----------------------------------------------------------

/// How many interrupt lines a distributor with this type register has.
pub open spec fn lines_of(typer: u32) -> int {
    ((typer & 0x1f) + 1) * 32
}

proof fn lemma_lines(typer: u32)
    by (bit_vector)
    ensures
        typer & 0x1f <= 31,
{
}

/// How many interrupt lines there are.
pub fn lines(typer: u32) -> (n: u32)
    ensures
        n == lines_of(typer),
        32 <= n <= 1024,
{
    proof {
        lemma_lines(typer);
    }
    ((typer & 0x1f) + 1) * 32
}

/// Disabling and grouping the shared lines of the first `n` banks.
pub open spec fn bank_accesses(n: int) -> Seq<Access>
    decreases n,
{
    if n <= 1 {
        Seq::empty()
    } else {
        bank_accesses(n - 1).push(
            Access::Write32((GICD_ICENABLER + (n - 1) * 4) as u64, 0xFFFF_FFFF),
        ).push(Access::Write32((GICD_IGROUPR + (n - 1) * 4) as u64, 0xFFFF_FFFF))
    }
}

/// Priority and routing of the shared lines below `n`.
pub open spec fn line_accesses(n: int) -> Seq<Access>
    decreases n,
{
    if n <= 32 {
        Seq::empty()
    } else {
        line_accesses(n - 1).push(
            Access::Write8((GICD_IPRIORITYR + (n - 1)) as u64, DEFAULT_PRIORITY),
        ).push(Access::Write64((GICD_IROUTER + (n - 1) * 8) as u64, 0))
    }
}

/// Everything that brings up a distributor with `lines` lines.
pub open spec fn distributor_setup(lines: int) -> Seq<Access> {
    seq![Access::Write32(GICD_CTLR, GICD_CTLR_ARE_NS), Access::Settle] + bank_accesses(lines / 32)
        + line_accesses(lines) + seq![
        Access::Settle,
        Access::Write32(GICD_CTLR, GICD_CTLR_ARE_NS | GICD_CTLR_EN_GRP1NS),
        Access::Settle,
    ]
}

/// Bring up the distributor: affinity routing first, then every shared line in
/// group 1, at default priority, disabled and routed to core 0; delivery last.
pub fn init(typer: u32) -> (r: Vec<Access>)
    ensures
        r@ == distributor_setup(lines_of(typer)),
{
    let n: u64 = lines(typer) as u64;
    let mut out: Vec<Access> = Vec::new();
    // Affinity routing must be on before a route means anything.
    out.push(Access::Write32(GICD_CTLR, GICD_CTLR_ARE_NS));
    out.push(Access::Settle);
    let ghost head = out@;
    assert(head =~= seq![Access::Write32(GICD_CTLR, GICD_CTLR_ARE_NS), Access::Settle]);
    let mut bank: u64 = 1;
    assert(head + bank_accesses(1) =~= head);
    while bank < n / 32
        invariant
            1 <= bank <= n / 32,
            n <= 1024,
            out@ == head + bank_accesses(bank as int),
        decreases n / 32 - bank,
    {
        out.push(Access::Write32(GICD_ICENABLER + bank * 4, 0xFFFF_FFFF));
        out.push(Access::Write32(GICD_IGROUPR + bank * 4, 0xFFFF_FFFF));
        assert(out@ =~= head + bank_accesses(bank + 1));
        bank = bank + 1;
    }
    let ghost banks = out@;
    let mut i: u64 = 32;
    assert(banks + line_accesses(32) =~= banks);
    while i < n
        invariant
            32 <= i <= n,
            n <= 1024,
            out@ == banks + line_accesses(i as int),
        decreases n - i,
    {
        out.push(Access::Write8(GICD_IPRIORITYR + i, DEFAULT_PRIORITY));
        out.push(Access::Write64(GICD_IROUTER + i * 8, 0));
        assert(out@ =~= banks + line_accesses(i + 1));
        i = i + 1;
    }
    out.push(Access::Settle);
    out.push(Access::Write32(GICD_CTLR, GICD_CTLR_ARE_NS | GICD_CTLR_EN_GRP1NS));
    out.push(Access::Settle);
    assert(out@ =~= distributor_setup(lines_of(typer)));
    out
}

/// The wake register of a redistributor that is to wake.
pub open spec fn woken_by(waker: u32) -> u32 {
    waker & !GICR_WAKER_PROCESSOR_SLEEP
}

/// Whether a wake register says that the redistributor is awake.
pub open spec fn is_awake(waker: u32) -> bool {
    waker & GICR_WAKER_CHILDREN_ASLEEP == 0
}

/// What to write to a redistributor's wake register, when it reads `waker`.
pub fn waking(waker: u32) -> (r: u32)
    ensures
        r == woken_by(waker),
{
    waker & !GICR_WAKER_PROCESSOR_SLEEP
}

/// Whether a redistributor whose wake register reads `waker` is awake.
pub fn awake(waker: u32) -> (r: bool)
    ensures
        r == is_awake(waker),
{
    waker & GICR_WAKER_CHILDREN_ASLEEP == 0
}

/// The private lines of a core: disabled, group 1, default priority.
pub open spec fn redistributor_setup() -> Seq<Access> {
    seq![
        Access::Write32(GICR_ICENABLER0, 0xFFFF_FFFF),
        Access::Write32(GICR_IGROUPR0, 0xFFFF_FFFF),
    ] + Seq::new(32, |i: int| Access::Write8((GICR_IPRIORITYR + i) as u64, DEFAULT_PRIORITY))
        + seq![Access::Settle]
}

/// Set up a core's private lines. They live in the redistributor, not the
/// distributor, and each core has its own copy of them.
pub fn init_this_cpu() -> (r: Vec<Access>)
    ensures
        r@ == redistributor_setup(),
{
    let mut out: Vec<Access> = Vec::new();
    out.push(Access::Write32(GICR_ICENABLER0, 0xFFFF_FFFF));
    out.push(Access::Write32(GICR_IGROUPR0, 0xFFFF_FFFF));
    let ghost head = out@;
    let mut i: u64 = 0;
    while i < 32
        invariant
            i <= 32,
            head.len() == 2,
            out@ == head + Seq::new(
                i as nat,
                |k: int| Access::Write8((GICR_IPRIORITYR + k) as u64, DEFAULT_PRIORITY),
            ),
        decreases 32 - i,
    {
        out.push(Access::Write8(GICR_IPRIORITYR + i, DEFAULT_PRIORITY));
        assert(out@ =~= head + Seq::new(
            (i + 1) as nat,
            |k: int| Access::Write8((GICR_IPRIORITYR + k) as u64, DEFAULT_PRIORITY),
        ));
        i = i + 1;
    }
    out.push(Access::Settle);
    assert(out@ =~= redistributor_setup());
    out
}

// ---- individual lines ------------------------------------------------------------------

proof fn lemma_bit(intid: u32)
    by (bit_vector)
    ensures
        intid & 31 < 32,
{
}

/// The access that enables a core's own line.
pub open spec fn private_line(intid: u32) -> Access {
    Access::Write32(GICR_ISENABLER0, 1u32 << (intid & 31))
}

/// The access that sets the bit of one line in a bank of registers.
pub open spec fn one_line(bank: u64, intid: u32) -> Access {
    Access::Write32((bank + (intid / 32) * 4) as u64, 1u32 << (intid & 31))
}

/// Enable a per-core interrupt (SGI 0-15, PPI 16-31): the redistributor access.
pub fn enable_ppi(intid: u32) -> (r: Access)
    ensures
        r == private_line(intid),
{
    proof {
        lemma_bit(intid);
    }
    Access::Write32(GICR_ISENABLER0, 1u32 << (intid & 31))
}

/// Enable a shared peripheral interrupt (SPI, 32 and up): the distributor access.
pub fn enable_spi(intid: u32) -> (r: Access)
    ensures
        r == one_line(GICD_ISENABLER, intid),
{
    proof {
        lemma_bit(intid);
    }
    Access::Write32(GICD_ISENABLER + (intid as u64 / 32) * 4, 1u32 << (intid & 31))
}

/// Stop delivering a shared peripheral interrupt: the distributor access.
///
/// Used when an interrupt belongs to a userspace driver: the line is masked on
/// arrival and unmasked when the driver comes back for the next one. Without that,
/// a level-triggered line would re-assert immediately.
pub fn disable_spi(intid: u32) -> (r: Access)
    ensures
        r == one_line(GICD_ICENABLER, intid),
{
    proof {
        lemma_bit(intid);
    }
    Access::Write32(GICD_ICENABLER + (intid as u64 / 32) * 4, 1u32 << (intid & 31))
}

/// The interrupt that an acknowledge register names.
pub fn acknowledge(iar: u64) -> (intid: u32)
    ensures
        intid == iar % 0x100_0000,
{
    (iar % 0x100_0000) as u32
}

/// Masking and unmasking name the same line, and different lines have different
/// places: a line is told apart from every other by register and bit.
pub proof fn a_line_has_a_place_of_its_own(a: u32, b: u32)
    ensures
        a / 32 == b / 32 && 1u32 << (a & 31) == 1u32 << (b & 31) ==> a == b,
{
    lemma_places(a, b);
}

proof fn lemma_places(a: u32, b: u32)
    by (bit_vector)
    ensures
        a / 32 == b / 32 && 1u32 << (a & 31) == 1u32 << (b & 31) ==> a == b,
{
}

} // verus!
