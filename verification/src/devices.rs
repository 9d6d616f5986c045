//! Bus enumeration.
//!
//! The kernel's entire remaining involvement with hardware it does not itself
//! drive: walk the transports the device tree describes, look at the identity
//! registers that say what is plugged into each, and hand the matching one to a
//! driver as a capability. It knows a device's *kind*, never its protocol.
use vstd::prelude::*;

verus! {

/// What the magic register of a virtio-mmio transport reads: "virt".
pub const MAGIC_VALUE: u32 = 0x7472_6976;

pub const VIRTIO_BLOCK: u32 = 2;

pub const VIRTIO_GPU: u32 = 16;

pub const VIRTIO_INPUT: u32 = 18;

/// How many transports are looked at.
pub const MAX_SLOTS: usize = 32;

/// A device the tree describes: where its registers are, and its interrupt.
#[derive(Clone, Copy, Debug, PartialEq, Eq, Structural)]
pub struct DeviceNode {
    pub base: u64,
    pub irq: u32,
}

/// A transport, and what its identity registers read.
#[derive(Clone, Copy, Debug, PartialEq, Eq, Structural)]
pub struct Slot {
    pub node: DeviceNode,
    pub magic: u32,
    pub device_id: u32,
    pub version: u32,
}

/// A transport with the device that was looked for.
#[derive(Clone, Copy, Debug, PartialEq, Eq, Structural)]
pub struct Found {
    pub node: DeviceNode,
    pub device_id: u32,
    pub version: u32,
}

/// How many of the transports described are looked at.
pub open spec fn looked_at(n: nat) -> int {
    if n < 32 {
        n as int
    } else {
        32
    }
}

/// The first transport at or after the `i`th, of those looked at, that holds a
/// device of this kind.
pub open spec fn first_of(slots: Seq<Slot>, device_id: u32, i: int) -> Option<Found>
    decreases looked_at(slots.len()) - i,
{
    if i >= looked_at(slots.len()) {
        None
    } else if slots[i].magic == MAGIC_VALUE && slots[i].device_id == device_id {
        Some(Found { node: slots[i].node, device_id, version: slots[i].version })
    } else {
        first_of(slots, device_id, i + 1)
    }
}

/// Find the first virtio-mmio transport holding a device of kind `device_id`.
///
/// Transports are filled from the last one downwards and the rest report id 0, so
/// every one is looked at.
pub fn find_virtio(slots: &[Slot], device_id: u32) -> (r: Option<Found>)
    ensures
        r == first_of(slots@, device_id, 0),
{
    let mut i: usize = 0;
    while i < slots.len() && i < MAX_SLOTS
        invariant
            i <= looked_at(slots@.len()),
            first_of(slots@, device_id, 0) == first_of(slots@, device_id, i as int),
        decreases looked_at(slots@.len()) - i,
    {
        let s = slots[i];
        if s.magic == MAGIC_VALUE && s.device_id == device_id {
            return Some(Found { node: s.node, device_id: s.device_id, version: s.version });
        }
        i = i + 1;
    }
    None
}

/// How many transports the device tree describes, for reporting.
pub fn virtio_slots(slots: &[Slot]) -> (n: usize)
    ensures
        n == looked_at(slots@.len()),
{
    if slots.len() < MAX_SLOTS {
        slots.len()
    } else {
        MAX_SLOTS
    }
}

} // verus!
