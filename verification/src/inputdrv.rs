//! The input driver in userspace — the first one that talks *to* the system rather
//! than being talked to.
//!
//! The device is a tablet: an absolute pointer, which is what a touchscreen looks
//! like to software. `mem` is the driver's DMA region: the queue's page, then the
//! event buffers.
use vstd::prelude::*;
use crate::bytes::{get_u16, get_u32};
use crate::virtq::{place, publish, used_idx, write_desc, Attach, DESC_F_WRITE, PAGE, USED_OFF};

verus! {

/// One event is eight bytes, so a queue of this depth is half a kilobyte and holds
/// a burst of movement without dropping any.
pub const DEPTH: usize = 64;

/// The event buffers, one per descriptor, in the page after the rings.
pub const BUF_OFF: usize = 4096;

pub const EVENT_SIZE: usize = 8;

pub const EV_SYN: u16 = 0x00;

pub const EV_KEY: u16 = 0x01;

pub const EV_ABS: u16 = 0x03;

pub const ABS_X: u16 = 0x00;

pub const ABS_Y: u16 = 0x01;

pub const BTN_LEFT: u16 = 0x110;

pub const BTN_TOUCH: u16 = 0x14a;

/// The message this driver emits: one byte of opcode, then where and whether the
/// finger is down.
pub const OP_INPUT: u8 = 0x10;

/// A number in two's complement.
pub open spec fn signed(v: u32) -> int {
    if v < 0x8000_0000 {
        v as int
    } else {
        v - 0x1_0000_0000
    }
}

fn to_signed(v: u32) -> (r: i32)
    ensures
        r == signed(v),
{
    if v < 0x8000_0000 {
        v as i32
    } else {
        -((u32::MAX - v) as i32) - 1
    }
}

/// The range the device reports for one axis. A tablet is free to use any range it
/// likes, so the driver asks rather than assuming.
#[derive(Clone, Copy, Debug, PartialEq, Eq, Structural)]
pub struct Axis {
    pub min: i32,
    pub max: i32,
}

/// How far an axis goes; at least one step.
pub open spec fn span(a: Axis) -> int {
    if a.max - a.min < 1 {
        1
    } else {
        a.max - a.min
    }
}

/// How far along its axis a value is.
pub open spec fn along(a: Axis, v: i32) -> int {
    if v < a.min {
        0
    } else if v - a.min > span(a) {
        span(a)
    } else {
        v - a.min
    }
}

/// A value in screen coordinates, on a screen `extent` pixels long.
pub open spec fn on_screen(a: Axis, v: i32, extent: int) -> int {
    along(a, v) * (extent - 1) / span(a)
}

/// The axis that a configuration field of `size` bytes describes.
pub open spec fn axis_in(field: Seq<u8>, size: int) -> Axis {
    let min = signed(crate::bytes::le32(field, 0));
    let max = signed(crate::bytes::le32(field, 4));
    if size >= 8 && max > min {
        Axis { min: min as i32, max: max as i32 }
    } else {
        Axis { min: 0, max: 0 }
    }
}

impl Axis {
    /// A value in screen coordinates.
    pub fn to_screen(&self, v: i32, extent: usize) -> (r: usize)
        requires
            1 <= extent <= 0x7fff_ffff,
        ensures
            r == on_screen(*self, v, extent as int),
            r < extent,
    {
        let d: i64 = self.max as i64 - self.min as i64;
        let span_: i64 = if d < 1 {
            1
        } else {
            d
        };
        let off: i64 = v as i64 - self.min as i64;
        let pos: i64 = if off < 0 {
            0
        } else if off > span_ {
            span_
        } else {
            off
        };
        let top: i64 = extent as i64 - 1;
        proof {
            lemma_scaled(pos as int, top as int, span_ as int);
        }
        ((pos * top) / span_) as usize
    }

    /// The axis that a configuration field describes, when the device says the
    /// field holds `size` bytes. A device without an absolute axis has none to
    /// speak of.
    pub fn axis(field: &[u8; 20], size: usize) -> (a: Axis)
        ensures
            a == axis_in(field@, size as int),
    {
        if size >= 8 {
            let min = to_signed(get_u32(field, 0));
            let max = to_signed(get_u32(field, 4));
            if max > min {
                return Axis { min, max };
            }
        }
        Axis { min: 0, max: 0 }
    }
}

proof fn lemma_scaled(pos: int, top: int, span_: int)
    requires
        0 <= pos <= span_,
        1 <= span_ <= 0xFFFF_FFFF,
        0 <= top <= 0x7fff_fffe,
    ensures
        0 <= pos * top <= 0x7fff_ffff_ffff_ffff,
        0 <= (pos * top) / span_ <= top,
{
    assert(0 <= pos * top <= 0x7fff_ffff_ffff_ffff) by (nonlinear_arith)
        requires
            0 <= pos <= span_,
            1 <= span_ <= 0xFFFF_FFFF,
            0 <= top <= 0x7fff_fffe,
    ;
    assert(0 <= (pos * top) / span_ <= top) by (nonlinear_arith)
        requires
            0 <= pos <= span_,
            1 <= span_,
            0 <= top,
            0 <= pos * top,
    ;
}

pub struct Input {
    pub dma_phys: u64,
    pub last_used: u16,
    pub avail_idx: u16,
    pub x_axis: Axis,
    pub y_axis: Axis,
    pub events: u64,
}

/// Memory with the first `n` buffers described and offered.
pub open spec fn stocked(mem: Seq<u8>, dma: u64, n: int) -> Seq<u8>
    decreases n,
{
    if n <= 0 {
        mem
    } else {
        let i = n - 1;
        crate::virtq::offered(
            crate::bytes::splice(
                stocked(mem, dma, i),
                16 * i,
                crate::virtq::desc_bytes((dma + BUF_OFF + i * 8) as u64, 8, DESC_F_WRITE, 0),
            ),
            64,
            i as u16,
            i as u16,
        )
    }
}

/// The event that a buffer holds: its kind, its code and its value.
pub open spec fn event_at(mem: Seq<u8>, id: int) -> (u16, u16, u32) {
    let at = BUF_OFF + id * 8;
    (
        crate::bytes::le16(mem, at),
        crate::bytes::le16(mem, at + 2),
        crate::bytes::le32(mem, at + 4),
    )
}

/// The buffer that the used ring names at a place.
pub open spec fn used_id(mem: Seq<u8>, idx: u16) -> int {
    crate::bytes::le32(mem, USED_OFF + 4 + (idx as int % 64) * 8) as int % 64
}

/// The event that is taken, if there is one, the memory and the driver afterwards.
pub open spec fn event_taken(d: Input, mem: Seq<u8>) -> (
    Option<(u16, u16, u32)>,
    Seq<u8>,
    Input,
) {
    if crate::virtq::used_of(mem) == d.last_used {
        (None, mem, d)
    } else {
        let id = used_id(mem, d.last_used);
        (
            Some(event_at(mem, id)),
            crate::virtq::offered(mem, 64, d.avail_idx, id as u16),
            Input {
                last_used: d.last_used.wrapping_add(1),
                avail_idx: d.avail_idx.wrapping_add(1),
                events: d.events.wrapping_add(1),
                ..d
            },
        )
    }
}

impl Input {
    /// The conversation that brings the device up. It is not told to run yet: every
    /// buffer is offered first, so no event can arrive with nowhere to go.
    pub fn attach(dma_phys: u64) -> (a: Attach)
        ensures
            a == (Attach {
                stage: crate::virtq::Stage::Identify,
                kind: 18,
                depth: 64,
                dma: dma_phys,
                start: false,
            }),
    {
        Attach::new(18, 64, dma_phys, false)
    }

    pub fn new(dma_phys: u64, x_axis: Axis, y_axis: Axis) -> (d: Input)
        ensures
            d == (Input { dma_phys, last_used: 0, avail_idx: 0, x_axis, y_axis, events: 0 }),
    {
        Input { dma_phys, last_used: 0, avail_idx: 0, x_axis, y_axis, events: 0 }
    }

    /// Offer buffer `i` back to the device.
    fn offer(&mut self, mem: &mut [u8], i: u16)
        requires
            old(mem)@.len() >= 2 * PAGE,
        ensures
            final(mem)@ == crate::virtq::offered(old(mem)@, 64, old(self).avail_idx, i),
            final(mem)@.len() == old(mem)@.len(),
            *final(self) == (Input {
                avail_idx: old(self).avail_idx.wrapping_add(1),
                ..*old(self)
            }),
    {
        place(mem, DEPTH, self.avail_idx, i);
        self.avail_idx = publish(mem, DEPTH, self.avail_idx);
    }

    /// Describe and offer every buffer.
    pub fn stock(&mut self, mem: &mut [u8])
        requires
            old(mem)@.len() >= 2 * PAGE,
            old(self).dma_phys + 2 * PAGE <= u64::MAX,
            old(self).avail_idx == 0,
        ensures
            final(mem)@ == stocked(old(mem)@, old(self).dma_phys, 64),
            *final(self) == (Input { avail_idx: 64, ..*old(self) }),
    {
        let ghost m0 = mem@;
        let dma = self.dma_phys;
        let mut i: usize = 0;
        while i < DEPTH
            invariant
                i <= 64,
                mem@.len() >= 2 * PAGE,
                dma + 2 * PAGE <= u64::MAX,
                dma == old(self).dma_phys,
                m0 == old(mem)@,
                mem@ == stocked(m0, dma, i as int),
                *self == (Input { avail_idx: i as u16, ..*old(self) }),
            decreases 64 - i,
        {
            write_desc(
                mem,
                i,
                dma + BUF_OFF as u64 + i as u64 * 8,
                EVENT_SIZE as u32,
                DESC_F_WRITE,
                0,
            );
            self.offer(mem, i as u16);
            i = i + 1;
        }
    }

    /// Take one completed event, or `None` if the device has produced nothing. Its
    /// buffer goes back to the device, which is to be notified.
    pub fn next_event(&mut self, mem: &mut [u8]) -> (r: Option<(u16, u16, u32)>)
        requires
            old(mem)@.len() >= 2 * PAGE,
        ensures
            (r, final(mem)@, *final(self)) == event_taken(*old(self), old(mem)@),
    {
        if used_idx(mem) == self.last_used {
            return None;
        }
        let slot: usize = self.last_used as usize % DEPTH;
        let id: usize = (get_u32(mem, USED_OFF + 4 + slot * 8) % 64) as usize;
        let at: usize = BUF_OFF + id * EVENT_SIZE;
        let ev = (get_u16(mem, at), get_u16(mem, at + 2), get_u32(mem, at + 4));
        self.last_used = self.last_used.wrapping_add(1);
        self.offer(mem, id as u16);
        self.events = self.events.wrapping_add(1);
        Some(ev)
    }
}

// ---- gestures ------------------------------------------------------------------------------

/// Where the finger is, as far as the device has said.
#[derive(Clone, Copy, Debug, PartialEq, Eq, Structural)]
pub struct Pointer {
    pub x: usize,
    pub y: usize,
    pub down: bool,
    /// Whether there is something to forward.
    pub dirty: bool,
    /// Gestures forwarded.
    pub sent: u64,
}

/// The pointer after an event.
pub open spec fn moved(p: Pointer, d: Input, kind: u16, code: u16, value: u32) -> Pointer {
    let v = signed(value) as i32;
    if kind == EV_ABS && code == ABS_X {
        Pointer {
            x: on_screen(d.x_axis, v, 480) as usize,
            dirty: true,
            ..p
        }
    } else if kind == EV_ABS && code == ABS_Y {
        Pointer {
            y: on_screen(d.y_axis, v, 960) as usize,
            dirty: true,
            ..p
        }
    } else if kind == EV_KEY && (code == BTN_LEFT || code == BTN_TOUCH) {
        Pointer { down: value != 0, dirty: true, ..p }
    } else {
        p
    }
}

/// What is forwarded about a pointer.
pub open spec fn gesture(p: Pointer) -> Seq<u8> {
    seq![
        OP_INPUT,
        (p.x as int / 256 % 256) as u8,
        (p.x as int % 256) as u8,
        (p.y as int / 256 % 256) as u8,
        (p.y as int % 256) as u8,
        if p.down {
            1u8
        } else {
            0u8
        },
    ]
}

impl Pointer {
    pub fn new() -> (p: Pointer)
        ensures
            p == (Pointer { x: 0, y: 0, down: false, dirty: false, sent: 0 }),
    {
        Pointer { x: 0, y: 0, down: false, dirty: false, sent: 0 }
    }

    /// Take in one event. Gives the message to forward when a group of events ends
    /// and something has changed.
    ///
    /// The device reports one field per event and ends a group with `EV_SYN`.
    /// Forwarding on that means the compositor only ever sees complete, consistent
    /// positions.
    pub fn feed(&mut self, d: &Input, kind: u16, code: u16, value: u32) -> (r: Option<[u8; 6]>)
        ensures
            *final(self) == moved(*old(self), *d, kind, code, value),
            match r {
                Some(m) => kind == EV_SYN && old(self).dirty && m@ == gesture(*old(self)),
                None => !(kind == EV_SYN && old(self).dirty),
            },
    {
        if kind == EV_ABS && code == ABS_X {
            self.x = d.x_axis.to_screen(to_signed(value), 480);
            self.dirty = true;
            return None;
        }
        if kind == EV_ABS && code == ABS_Y {
            self.y = d.y_axis.to_screen(to_signed(value), 960);
            self.dirty = true;
            return None;
        }
        if kind == EV_KEY && (code == BTN_LEFT || code == BTN_TOUCH) {
            self.down = value != 0;
            self.dirty = true;
            return None;
        }
        if kind == EV_SYN && self.dirty {
            let pressed: u8 = if self.down {
                1
            } else {
                0
            };
            let m: [u8; 6] = [
                OP_INPUT,
                (self.x / 256 % 256) as u8,
                (self.x % 256) as u8,
                (self.y / 256 % 256) as u8,
                (self.y % 256) as u8,
                pressed,
            ];
            assert(m@ =~= gesture(*self));
            return Some(m);
        }
        None
    }

    /// The message was forwarded.
    pub fn forwarded(&mut self)
        ensures
            *final(self) == (Pointer {
                dirty: false,
                sent: old(self).sent.wrapping_add(1),
                ..*old(self)
            }),
    {
        self.dirty = false;
        self.sent = self.sent.wrapping_add(1);
    }
}

// ---- the driver's loop ---------------------------------------------------------------------

/// What has just happened to the driver.
#[derive(Clone, Copy, Debug, PartialEq, Eq)]
pub enum DriverEvent {
    /// The device is running.
    Started,
    /// Draining came to the end of a group, and this is to be forwarded.
    Gesture([u8; 6]),
    /// The device has nothing more to say.
    Drained,
    /// The device interrupted.
    Interrupt,
    /// No interrupt came in time.
    TimedOut,
    /// A message was taken.
    Sent,
    /// A message was refused: the capability was revoked.
    SendFailed,
}

/// What the driver does next.
#[derive(Clone, Copy, Debug, PartialEq, Eq)]
pub enum DriverAction {
    /// Take events until one of them ends a gesture or there are none.
    Drain,
    /// Forward a gesture.
    Send([u8; 6]),
    /// Send a message with nothing in it.
    SendEmpty,
    /// Wait for an interrupt, for at most `IDLE_TICKS`.
    Wait,
    /// Leave: the session is over.
    Stop,
}

/// How long the driver waits for the device before it looks whether anybody is still
/// listening.
pub const IDLE_TICKS: u64 = 20;

/// What the driver does after `event`.
///
/// It blocks on the interrupt rather than spinning. The timeout is what makes
/// revocation noticeable: with no events at all the driver wakes, sends an empty
/// message and goes back to waiting. A send that fails is how it is told that the
/// session is over. There is no shutdown message, because it cannot receive one.
pub fn step(event: DriverEvent) -> (a: DriverAction)
    ensures
        a == (match event {
            DriverEvent::Started => DriverAction::Drain,
            DriverEvent::Gesture(m) => DriverAction::Send(m),
            DriverEvent::Drained => DriverAction::Wait,
            DriverEvent::Interrupt => DriverAction::Drain,
            DriverEvent::TimedOut => DriverAction::SendEmpty,
            DriverEvent::Sent => DriverAction::Drain,
            DriverEvent::SendFailed => DriverAction::Stop,
        }),
{
    match event {
        DriverEvent::Started | DriverEvent::Interrupt | DriverEvent::Sent => DriverAction::Drain,
        DriverEvent::Gesture(m) => DriverAction::Send(m),
        DriverEvent::Drained => DriverAction::Wait,
        DriverEvent::TimedOut => DriverAction::SendEmpty,
        DriverEvent::SendFailed => DriverAction::Stop,
    }
}

proof fn lemma_stocking_reports_nothing(mem: Seq<u8>, dma: u64, n: int)
    requires
        mem.len() >= 2 * PAGE,
        0 <= n <= 64,
    ensures
        stocked(mem, dma, n).len() == mem.len(),
        crate::virtq::used_of(stocked(mem, dma, n)) == crate::virtq::used_of(mem),
    decreases n,
{
    if n > 0 {
        lemma_stocking_reports_nothing(mem, dma, n - 1);
    }
}

/// A driver that has just been attached and has offered its buffers takes nothing for an
/// event, whatever was in its memory before: there is none until the device reports one.
pub proof fn a_fresh_driver_has_no_events(mem: Seq<u8>, dma: u64)
    requires
        mem.len() >= 2 * PAGE,
    ensures
        crate::virtq::used_of(stocked(crate::virtq::cleared(mem), dma, 64)) == 0,
{
    crate::virtq::a_cleared_queue_is_quiet(mem);
    lemma_stocking_reports_nothing(crate::virtq::cleared(mem), dma, 64);
}

/// A position never leaves the screen, whatever the device reports.
pub proof fn a_finger_is_on_the_screen(p: Pointer, d: Input, kind: u16, code: u16, value: u32)
    requires
        p.x < 480,
        p.y < 960,
    ensures
        moved(p, d, kind, code, value).x < 480,
        moved(p, d, kind, code, value).y < 960,
{
    let v = signed(value) as i32;
    lemma_scaled(along(d.x_axis, v), 479, span(d.x_axis));
    lemma_scaled(along(d.y_axis, v), 959, span(d.y_axis));
}

/// The position and the press can be read back from what is forwarded.
pub proof fn a_gesture_says_where_the_finger_is(p: Pointer)
    requires
        p.x < 480,
        p.y < 960,
    ensures
        gesture(p)[1] * 256 + gesture(p)[2] == p.x,
        gesture(p)[3] * 256 + gesture(p)[4] == p.y,
        (gesture(p)[5] == 1) == p.down,
{
}

} // verus!
