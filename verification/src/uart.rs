//! PL011 UART — the kernel's console before anything else exists: what goes down
//! the wire, and what its flag register means.
use vstd::prelude::*;
use crate::mm::phys_to_virt;

verus! {

/// Data register.
pub const DR: u64 = 0x00;

/// Flag register.
pub const FR: u64 = 0x18;

/// Transmit FIFO full.
pub const FR_TXFF: u32 = 0x20;

/// Receive FIFO empty.
pub const FR_RXFE: u32 = 0x10;

/// Physical base of the PL011, until the device tree says otherwise.
pub const UART0_PHYS_DEFAULT: u64 = 0x0900_0000;

#[derive(Clone, Copy)]
pub struct Uart {
    pub base: u64,
}

/// Whether the flag register says that a byte can be sent.
pub open spec fn has_room(flags: u32) -> bool {
    flags & FR_TXFF == 0
}

/// The byte that the two registers say was received.
pub open spec fn received(flags: u32, data: u32) -> Option<u8> {
    if flags & FR_RXFE != 0 {
        None
    } else {
        Some((data % 256) as u8)
    }
}

impl Uart {
    pub fn new(base: u64) -> (u: Uart)
        ensures
            u.base == base,
    {
        Uart { base }
    }

    /// Whether a byte can be written, when the flag register reads `flags`.
    pub fn can_put(flags: u32) -> (r: bool)
        ensures
            r == has_room(flags),
    {
        flags & FR_TXFF == 0
    }

    /// The byte that was received, if there is one, when the two registers read
    /// `flags` and `data`.
    pub fn get(flags: u32, data: u32) -> (r: Option<u8>)
        ensures
            r == received(flags, data),
    {
        if flags & FR_RXFE != 0 {
            None
        } else {
            Some((data % 256) as u8)
        }
    }
}

/// Re-point the console at a PL011 discovered in the device tree.
pub fn set_base(u: &mut Uart, phys: u64)
    requires
        phys < crate::mm::PHYS_LIMIT,
    ensures
        final(u).base == phys + crate::mm::PHYS_OFFSET,
{
    u.base = phys_to_virt(phys);
}

/// Text as it goes down the wire: a carriage return before every newline.
pub open spec fn on_the_wire(b: Seq<u8>) -> Seq<u8>
    decreases b.len(),
{
    if b.len() == 0 {
        Seq::empty()
    } else if b.last() == 0x0a {
        on_the_wire(b.drop_last()).push(0x0d).push(0x0a)
    } else {
        on_the_wire(b.drop_last()).push(b.last())
    }
}

/// The bytes that printing `s` sends.
pub fn write_str(s: &str) -> (r: Vec<u8>)
    ensures
        r@ == on_the_wire(vstd::utf8::encode_utf8(s@)),
{
    let b = s.as_bytes();
    let mut out: Vec<u8> = Vec::new();
    let mut i: usize = 0;
    assert(b@.take(0) =~= Seq::empty());
    while i < b.len()
        invariant
            i <= b@.len(),
            out@ == on_the_wire(b@.take(i as int)),
        decreases b@.len() - i,
    {
        assert(b@.take(i + 1).drop_last() =~= b@.take(i as int));
        if b[i] == 0x0a {
            out.push(0x0d);
        }
        out.push(b[i]);
        i = i + 1;
    }
    assert(b@.take(i as int) =~= b@);
    out
}

} // verus!
