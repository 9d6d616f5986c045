//! Multiprocessor bring-up and per-CPU state.
//!
//! Secondary cores are started through PSCI, the firmware interface every
//! AArch64 platform implements. The kernel never pokes a vendor-specific power
//! controller; it decides, and the machine layer makes the call.
use vstd::prelude::*;
use crate::bytes::same_bytes;
use crate::mm::{phys_to_virt, virt_to_phys};

verus! {

pub const MAX_CPUS: usize = 8;

/// Bytes of kernel stack a secondary boots on.
pub const BOOT_STACK_BYTES: u64 = 16384;

/// PSCI 0.2 function ids, SMC64 calling convention.
pub const PSCI_CPU_ON: u64 = 0xC400_0003;

pub const PSCI_SYSTEM_OFF: u64 = 0x8400_0008;

pub const PSCI_SUCCESS: i64 = 0;

pub const PSCI_ALREADY_ON: i64 = -4;

/// How long to wait for a core to announce itself.
pub const ONLINE_SPINS: u32 = 10_000_000;

#[derive(Clone, Copy, Debug, PartialEq, Eq, Structural)]
pub enum PsciMethod {
    Hvc,
    Smc,
    /// No firmware interface: every call is refused.
    Absent,
}

/// One core's state.
#[derive(Clone, Copy)]
pub struct Cpu {
    pub id: usize,
    pub mpidr: u64,
    /// Index into the scheduler's thread table of what this core is running.
    pub current: usize,
    /// This core's idle thread.
    pub idle: usize,
    /// Where this core resumes its round-robin scan.
    pub cursor: usize,
    pub switches: u64,
    pub ticks: u64,
    pub online: bool,
    /// The thread this core switched away from but has not released yet.
    ///
    /// A thread must stay claimed until its context has actually been saved.
    /// The core that switched away hands the thread to whoever it switched
    /// *to*, which releases it once the save is complete.
    pub release_prev: Option<usize>,
}

/// A core that nothing is known about yet.
pub open spec fn unknown_cpu() -> Cpu {
    Cpu {
        id: 0,
        mpidr: 0,
        current: 0,
        idle: 0,
        cursor: 0,
        switches: 0,
        ticks: 0,
        online: false,
        release_prev: None,
    }
}

impl Cpu {
    pub fn new() -> (c: Cpu)
        ensures
            c == unknown_cpu(),
    {
        Cpu {
            id: 0,
            mpidr: 0,
            current: 0,
            idle: 0,
            cursor: 0,
            switches: 0,
            ticks: 0,
            online: false,
            release_prev: None,
        }
    }
}

/// The machine: its firmware interface and its cores.
pub struct Machine {
    pub method: PsciMethod,
    pub cpus: Vec<Cpu>,
    pub online: usize,
    pub discovered: usize,
}

impl Machine {
    pub open spec fn wf(&self) -> bool {
        self.cpus@.len() == 8 && self.discovered <= 8 && self.online <= 8
    }

    /// A machine nothing is known about yet.
    pub fn new() -> (m: Machine)
        ensures
            m.wf(),
            m.method == PsciMethod::Absent,
            m.online == 0,
            m.discovered == 0,
            m.cpus@ == Seq::new(8, |i: int| unknown_cpu()),
    {
        let mut cpus: Vec<Cpu> = Vec::new();
        while cpus.len() < 8
            invariant
                cpus@.len() <= 8,
                forall|i: int| 0 <= i < cpus@.len() ==> (#[trigger] cpus@[i]) == unknown_cpu(),
            decreases 8 - cpus@.len(),
        {
            cpus.push(Cpu::new());
        }
        assert(cpus@ =~= Seq::new(8, |i: int| unknown_cpu()));
        Machine { method: PsciMethod::Absent, cpus, online: 0, discovered: 0 }
    }
}

/// The affinity fields of an MPIDR.
pub open spec fn affinity_fields(raw: u64) -> u64 {
    raw & 0xff_00ff_ffff
}

/// The affinity fields of an MPIDR, dropping the flags in between.
pub fn mpidr(raw: u64) -> (r: u64)
    ensures
        r == affinity_fields(raw),
{
    raw & 0xff_00ff_ffff
}

/// Cores that have come up.
pub fn online_count(m: &Machine) -> (n: usize)
    ensures
        n == m.online,
{
    m.online
}

/// Cores the device tree lists, up to the limit.
pub fn discovered_count(m: &Machine) -> (n: usize)
    ensures
        n == m.discovered,
{
    m.discovered
}

/// The method a device tree `method` property names.
pub open spec fn method_named(b: Seq<u8>) -> PsciMethod {
    if b == seq![104u8, 118, 99] || b == seq![104u8, 118, 99, 0] {
        PsciMethod::Hvc
    } else if b == seq![115u8, 109, 99] || b == seq![115u8, 109, 99, 0] {
        PsciMethod::Smc
    } else {
        PsciMethod::Absent
    }
}

/// Read a device tree `method` property, with or without its NUL.
pub fn psci_method(method: &[u8]) -> (r: PsciMethod)
    ensures
        r == method_named(method@),
{
    let hvc: [u8; 4] = [104, 118, 99, 0];  // "hvc"
    let smc: [u8; 4] = [115, 109, 99, 0];  // "smc"
    let hvc3: [u8; 3] = [104, 118, 99];
    let smc3: [u8; 3] = [115, 109, 99];
    assert(hvc@ =~= seq![104u8, 118, 99, 0]);
    assert(smc@ =~= seq![115u8, 109, 99, 0]);
    assert(hvc3@ =~= seq![104u8, 118, 99]);
    assert(smc3@ =~= seq![115u8, 109, 99]);
    if same_bytes(method, &hvc) || same_bytes(method, &hvc3) {
        PsciMethod::Hvc
    } else if same_bytes(method, &smc) || same_bytes(method, &smc3) {
        PsciMethod::Smc
    } else {
        PsciMethod::Absent
    }
}

/// A core's block with its identity filled in.
pub open spec fn installed(c: Cpu, id: usize, mpidr: u64) -> Cpu {
    Cpu { id, mpidr, ..c }
}

/// Adopt the boot core as CPU 0, before any secondary exists.
pub fn init_boot_cpu(m: &mut Machine, method: &[u8], cpu_count: usize, mpidr: u64)
    requires
        old(m).wf(),
    ensures
        final(m).wf(),
        final(m).method == method_named(method@),
        final(m).discovered == if cpu_count < 8 {
            cpu_count
        } else {
            8
        },
        final(m).online == 1,
        final(m).cpus@ == old(m).cpus@.update(
            0,
            Cpu { online: true, ..installed(old(m).cpus@[0], 0, mpidr) },
        ),
{
    m.method = psci_method(method);
    m.discovered =
    if cpu_count < MAX_CPUS {
        cpu_count
    } else {
        MAX_CPUS
    };
    let c = m.cpus[0];
    m.cpus[0] = Cpu { id: 0, mpidr, online: true, ..c };
    m.online = 1;
}

pub fn psci_method_name(m: &Machine) -> (r: &'static str)
    ensures
        r == (match m.method {
            PsciMethod::Hvc => "hvc",
            PsciMethod::Smc => "smc",
            PsciMethod::Absent => "none",
        }),
{
    match m.method {
        PsciMethod::Hvc => "hvc",
        PsciMethod::Smc => "smc",
        PsciMethod::Absent => "none",
    }
}

/// What PSCI hands a secondary in x0. Read physically, before the MMU is on.
#[derive(Clone, Copy, Debug, PartialEq, Eq, Structural)]
pub struct BootDescriptor {
    pub stack_top_phys: u64,
    pub cpu_id: u64,
}

/// What a core is started with, or why it is not.
pub open spec fn boot_of(id: usize, stack: Option<u64>) -> Result<BootDescriptor, &'static str> {
    if id == 0 || id >= MAX_CPUS {
        Err("cpu id out of range")
    } else {
        match stack {
            None => Err("no frames for a boot stack"),
            Some(s) => Ok(
                BootDescriptor {
                    stack_top_phys: (s + BOOT_STACK_BYTES) as u64,
                    cpu_id: id as u64,
                },
            ),
        }
    }
}

/// Prepare to start core `id`: check the id, and describe the stack it will
/// boot on. `stack` is the frame run allocated for it, if there was one.
pub fn start_cpu(id: usize, stack: Option<u64>) -> (r: Result<BootDescriptor, &'static str>)
    requires
        stack matches Some(s) ==> s + BOOT_STACK_BYTES <= u64::MAX,
    ensures
        r == boot_of(id, stack),
{
    if id == 0 || id >= MAX_CPUS {
        return Err("cpu id out of range");
    }
    match stack {
        None => Err("no frames for a boot stack"),
        Some(s) => Ok(
            BootDescriptor { stack_top_phys: s + BOOT_STACK_BYTES, cpu_id: id as u64 },
        ),
    }
}

/// What the firmware's answer to `CPU_ON` means.
pub fn cpu_on_accepted(answer: i64) -> (r: Result<(), &'static str>)
    ensures
        r == (if answer == PSCI_SUCCESS || answer == PSCI_ALREADY_ON {
            Ok(())
        } else {
            Err("PSCI CPU_ON refused")
        }),
{
    if answer != PSCI_SUCCESS && answer != PSCI_ALREADY_ON {
        return Err("PSCI CPU_ON refused");
    }
    Ok(())
}

/// One look at the online count while waiting for a core: `None` to look again.
/// Bounded, so a core that never arrives costs a message rather than a hang.
pub fn online_wait(before: usize, online: usize, spins: u32) -> (r: Option<
    Result<(), &'static str>,
>)
    ensures
        r == (if spins >= ONLINE_SPINS {
            Some(Err("core did not come online"))
        } else if online > before {
            Some(Ok(()))
        } else {
            None
        }),
{
    if spins >= ONLINE_SPINS {
        Some(Err("core did not come online"))
    } else if online > before {
        Some(Ok(()))
    } else {
        None
    }
}

/// A secondary core has arrived: install its block and count it.
pub fn secondary_online(m: &mut Machine, id: usize, mpidr: u64)
    requires
        old(m).wf(),
        id < 8,
        old(m).online < 8,
    ensures
        final(m).wf(),
        final(m).online == old(m).online + 1,
        final(m).method == old(m).method,
        final(m).discovered == old(m).discovered,
        final(m).cpus@ == old(m).cpus@.update(
            id as int,
            Cpu { online: true, ..installed(old(m).cpus@[id as int], id, mpidr) },
        ),
{
    let c = m.cpus[id];
    m.cpus[id] = Cpu { id, mpidr, online: true, ..c };
    m.online = m.online + 1;
}

/// Whether core `i` was found and has come up.
pub open spec fn is_up(m: Machine, i: int) -> bool {
    0 <= i < m.discovered && m.cpus@[i].online
}

/// Hand every core that is up to `f`, in order.
pub fn for_each<F: Fn(&Cpu)>(m: &Machine, f: F)
    requires
        m.wf(),
        forall|i: int| is_up(*m, i) ==> call_requires(f, (&#[trigger] m.cpus@[i],)),
    ensures
        forall|i: int| is_up(*m, i) ==> call_ensures(f, (&#[trigger] m.cpus@[i],), ()),
{
    let mut i: usize = 0;
    while i < m.discovered
        invariant
            i <= m.discovered,
            m.wf(),
            forall|k: int| is_up(*m, k) ==> call_requires(f, (&#[trigger] m.cpus@[k],)),
            forall|k: int|
                is_up(*m, k) && k < i ==> call_ensures(f, (&#[trigger] m.cpus@[k],), ()),
        decreases m.discovered - i,
    {
        if m.cpus[i].online {
            assert(is_up(*m, i as int));
            f(&m.cpus[i]);
        }
        i = i + 1;
    }
}

/// Physical address of a kernel-virtual one.
pub fn phys_of(va: u64) -> (pa: u64)
    requires
        va >= crate::mm::PHYS_OFFSET,
    ensures
        pa == va - crate::mm::PHYS_OFFSET,
{
    virt_to_phys(va)
}

/// Kernel-virtual address of a physical one.
pub fn virt_of(pa: u64) -> (va: u64)
    requires
        pa < crate::mm::PHYS_LIMIT,
    ensures
        va == pa + crate::mm::PHYS_OFFSET,
{
    phys_to_virt(pa)
}

} // verus!
