//! Exception handling for EL1: what an exception is, and what is to be done.
use vstd::prelude::*;

verus! {

/// Everything the vector entry pushed. The scheduler can switch threads on top of
/// one of these, so it holds ELR and SPSR too, not just the general-purpose
/// registers.
pub struct TrapFrame {
    pub x: [u64; 31],
    pub elr: u64,
    pub spsr: u64,
    pub sp_el0: u64,
}

/// The vector entry for a synchronous exception from EL0.
pub const EL0_SYNC: u64 = 8;

/// Exception class of an SVC executed in AArch64 state.
pub const EC_SVC64: u64 = 0x15;

/// Exception class of an instruction abort from EL0.
pub const EC_INSTRUCTION_ABORT: u64 = 0x20;

/// Exception class of a data abort from EL0.
pub const EC_DATA_ABORT: u64 = 0x24;

/// The exception class field of a syndrome.
pub open spec fn class_of(esr: u64) -> u64 {
    esr >> 26
}

/// What an exception class means.
pub open spec fn class_name(ec: u64) -> &'static str {
    match ec {
        0x00 => "unknown reason",
        0x01 => "trapped WFI/WFE",
        0x07 => "SIMD/FP access trapped",
        0x0e => "illegal execution state",
        0x15 => "SVC (syscall) from AArch64",
        0x18 => "trapped MSR/MRS",
        0x20 => "instruction abort, lower EL",
        0x21 => "instruction abort, same EL",
        0x22 => "PC alignment fault",
        0x24 => "data abort, lower EL",
        0x25 => "data abort, same EL",
        0x26 => "SP alignment fault",
        0x2c => "floating-point exception",
        0x3c => "BRK instruction",
        _ => "unclassified",
    }
}

/// What a fault status code means.
pub open spec fn status_name(code: u64) -> &'static str {
    if 0x04 <= code <= 0x07 {
        "translation fault — nothing mapped there"
    } else if 0x09 <= code <= 0x0b {
        "access flag fault"
    } else if 0x0d <= code <= 0x0f {
        "permission fault"
    } else if code == 0x10 {
        "synchronous external abort"
    } else if code == 0x21 {
        "alignment fault"
    } else {
        "see ARM ARM D17.2.37"
    }
}

/// The name of a vector entry: where the exception came from, and its kind.
pub open spec fn entry_name(entry: u64) -> &'static str {
    match entry {
        0 => "EL1t sync",
        1 => "EL1t irq",
        2 => "EL1t fiq",
        3 => "EL1t serror",
        4 => "EL1h sync",
        5 => "EL1h irq",
        6 => "EL1h fiq",
        7 => "EL1h serror",
        8 => "EL0-64 sync",
        9 => "EL0-64 irq",
        10 => "EL0-64 fiq",
        11 => "EL0-64 serror",
        12 => "EL0-32 sync",
        13 => "EL0-32 irq",
        14 => "EL0-32 fiq",
        _ => "EL0-32 serror",
    }
}

/// Decode the exception class of a syndrome into something readable.
pub fn describe(esr: u64) -> (r: &'static str)
    ensures
        r == class_name(class_of(esr)),
{
    match esr >> 26 {
        0x00 => "unknown reason",
        0x01 => "trapped WFI/WFE",
        0x07 => "SIMD/FP access trapped",
        0x0e => "illegal execution state",
        0x15 => "SVC (syscall) from AArch64",
        0x18 => "trapped MSR/MRS",
        0x20 => "instruction abort, lower EL",
        0x21 => "instruction abort, same EL",
        0x22 => "PC alignment fault",
        0x24 => "data abort, lower EL",
        0x25 => "data abort, same EL",
        0x26 => "SP alignment fault",
        0x2c => "floating-point exception",
        0x3c => "BRK instruction",
        _ => "unclassified",
    }
}

/// Decode a data or instruction fault status code.
pub fn fault_status(iss: u64) -> (r: &'static str)
    ensures
        r == status_name(iss),
{
    if 0x04 <= iss && iss <= 0x07 {
        "translation fault — nothing mapped there"
    } else if 0x09 <= iss && iss <= 0x0b {
        "access flag fault"
    } else if 0x0d <= iss && iss <= 0x0f {
        "permission fault"
    } else if iss == 0x10 {
        "synchronous external abort"
    } else if iss == 0x21 {
        "alignment fault"
    } else {
        "see ARM ARM D17.2.37"
    }
}

/// The name of a vector entry.
pub fn vector_name(idx: u64) -> (r: &'static str)
    ensures
        r == entry_name(idx % 16),
{
    match idx % 16 {
        0 => "EL1t sync",
        1 => "EL1t irq",
        2 => "EL1t fiq",
        3 => "EL1t serror",
        4 => "EL1h sync",
        5 => "EL1h irq",
        6 => "EL1h fiq",
        7 => "EL1h serror",
        8 => "EL0-64 sync",
        9 => "EL0-64 irq",
        10 => "EL0-64 fiq",
        11 => "EL0-64 serror",
        12 => "EL0-32 sync",
        13 => "EL0-32 irq",
        14 => "EL0-32 fiq",
        _ => "EL0-32 serror",
    }
}

/// Whether a vector entry is one of the four IRQ entries.
pub fn is_irq(idx: u64) -> (r: bool)
    ensures
        r == (idx % 4 == 1),
{
    idx % 4 == 1
}

/// What is to be done about an exception.
#[derive(Clone, Copy, Debug, PartialEq, Eq, Structural)]
pub enum Route {
    /// Hand it to interrupt dispatch.
    Interrupt,
    /// A system call: dispatch it with interrupts enabled, and mask them again
    /// before returning.
    SystemCall,
    /// EL0 touched a page that is not mapped: it may be a demand-paged region
    /// asking for one. Where it was not, terminate the process.
    DemandPage,
    /// EL0 misbehaved: terminate the process rather than the kernel.
    Terminate,
    /// The kernel itself faulted: report and stop.
    Panic,
}

/// Whether a syndrome reports that nothing is mapped at the address.
pub open spec fn is_translation_fault(esr: u64) -> bool {
    0x04 <= esr & 0x3f <= 0x07
}

/// Which exceptions go where.
pub open spec fn route_of(idx: u64, esr: u64) -> Route {
    if idx % 4 == 1 {
        Route::Interrupt
    } else if idx != EL0_SYNC {
        Route::Panic
    } else if class_of(esr) == EC_SVC64 {
        Route::SystemCall
    } else if (class_of(esr) == EC_INSTRUCTION_ABORT || class_of(esr) == EC_DATA_ABORT)
        && is_translation_fault(esr) {
        Route::DemandPage
    } else {
        Route::Terminate
    }
}

/// Decide what an exception taken through vector entry `idx` with syndrome `esr`
/// calls for.
pub fn rust_exception(idx: u64, esr: u64) -> (r: Route)
    ensures
        r == route_of(idx, esr),
{
    if is_irq(idx) {
        return Route::Interrupt;
    }
    // A system call: synchronous, from a lower exception level.
    if idx == EL0_SYNC && esr >> 26 == EC_SVC64 {
        return Route::SystemCall;
    }
    if idx == EL0_SYNC {
        let ec = esr >> 26;
        let code = esr & 0x3f;
        let translation = 0x04 <= code && code <= 0x07;
        if (ec == EC_INSTRUCTION_ABORT || ec == EC_DATA_ABORT) && translation {
            return Route::DemandPage;
        }
        // Anything else from EL0 kills the process rather than the kernel.
        return Route::Terminate;
    }
    Route::Panic
}

/// Nothing that EL0 does stops the kernel: an exception from EL0 is never a panic.
pub proof fn user_code_cannot_stop_the_kernel(esr: u64)
    ensures
        route_of(EL0_SYNC, esr) != Route::Panic,
        route_of(EL0_SYNC, esr) != Route::Interrupt,
{
}

/// Whether a syndrome names an address that faulted: a data or instruction abort.
pub fn names_an_address(esr: u64) -> (r: bool)
    ensures
        r == (class_of(esr) == 0x20 || class_of(esr) == 0x21 || class_of(esr) == 0x24 || class_of(
            esr,
        ) == 0x25),
{
    let ec = esr >> 26;
    ec == 0x20 || ec == 0x21 || ec == 0x24 || ec == 0x25
}

} // verus!
