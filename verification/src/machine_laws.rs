//! What the parts closest to the hardware promise: clock, interrupts, exceptions, console.
use vstd::prelude::*;
use crate::exceptions::Route;
use crate::gic::Access;
use crate::irq::{Action, Irqs};
use crate::sched::{State, Thread};
use crate::time::Clock;

verus! {

proof fn lemma_bits(a: u64, h: u64, l: u64)
    by (bit_vector)
    ensures
        a >> 32 == a / 0x1_0000_0000,
        (a & 0x10 == 0) == (a / 16 % 2 == 0),
        (a >> 32) & 0xff == a / 0x1_0000_0000 % 256,
        a & 0xff_ffff == a % 0x100_0000,
        a & 0xff_00ff_ffff == (((a >> 32) & 0xff) << 32) | (a & 0xff_ffff),
        h < 0x100 && l < 0x100_0000 ==> (h << 24) | l == h * 0x100_0000 + l,
        h < 0x100 && l < 0x100_0000 ==> (h << 32) | l == h * 0x1_0000_0000 + l,
        a >> 26 == a / 0x400_0000,
        a & 0x3f == a % 64,
{
}

proof fn lemma_flags(b: u32)
    by (bit_vector)
    ensures
        b & 0x1f == b % 32,
        b / 2 % 2 == 0 ==> (b & !2u32) == b,
        b / 2 % 2 == 1 ==> (b & !2u32) + 2 == b,
        (b & 4 == 0) == (b / 4 % 2 == 0),
        (b & 0x20 == 0) == (b / 32 % 2 == 0),
        (b & 0x10 == 0) == (b / 16 % 2 == 0),
        0x10u32 | 0x2u32 == 0x12u32,
{
}

proof fn lemma_fields(a: u64, b: u32)
    ensures
        a >> 32 == a / 0x1_0000_0000,
        (a & 0x10 == 0) == (a / 16 % 2 == 0),
        (((a >> 32) & 0xff) << 24) | (a & 0xff_ffff) == a / 0x1_0000_0000 % 256 * 0x100_0000 + a
            % 0x100_0000,
        a & 0xff_00ff_ffff == a / 0x1_0000_0000 % 256 * 0x1_0000_0000 + a % 0x100_0000,
        a >> 26 == a / 0x400_0000,
        a & 0x3f == a % 64,
        b & 0x1f == b % 32,
        (b & !2u32) == b - b / 2 % 2 * 2,
        (b & 4 == 0) == (b / 4 % 2 == 0),
        (b & 0x20 == 0) == (b / 32 % 2 == 0),
        (b & 0x10 == 0) == (b / 16 % 2 == 0),
        0x10u32 | 0x2u32 == 0x12u32,
{
    lemma_bits(a, (a >> 32) & 0xff, a & 0xff_ffff);
    lemma_flags(b);
}

// ---- the clock ------------------------------------------------------------------------------

/// It is tick `t` from where tick `t` begins up to where the next one begins.
pub proof fn a_tick_lasts_its_interval(c: Clock, now: u64)
    requires
        c.interval > 0,
        now >= c.boot_cycles,
    ensures
        c.boot_cycles + crate::time::tick_at(c, now) * c.interval <= now,
        now < c.boot_cycles + (crate::time::tick_at(c, now) + 1) * c.interval,
{
    let x = now - c.boot_cycles;
    let d = c.interval as int;
    assert(x / d * d <= x < (x / d + 1) * d) by (nonlinear_arith)
        requires
            d > 0,
            x >= 0,
    ;
}

/// Microseconds are whole ones that have gone by: a million of them to as many cycles as the
/// frequency says.
pub proof fn microseconds_have_gone_by(frequency: u64, now: u64)
    requires
        frequency > 0,
    ensures
        ({
            let us = crate::time::micros(frequency, now);
            &&& 0 <= us <= u64::MAX
            &&& us * frequency <= now * 1_000_000
            &&& us < u64::MAX ==> now * 1_000_000 < (us + 1) * frequency
        }),
{
    let x = now * 1_000_000;
    let f = frequency as int;
    assert(0 <= x / f && x / f * f <= x < (x / f + 1) * f) by (nonlinear_arith)
        requires
            f > 0,
            x >= 0,
    ;
    let us = crate::time::micros(frequency, now);
    assert(us <= x / f);
    assert(us * f <= x / f * f) by (nonlinear_arith)
        requires
            us <= x / f,
            f > 0,
    ;
}

/// A hundred ticks are a second, on every clock.
pub proof fn a_hundred_ticks_are_a_second(c: Clock, frequency: u64, now: u64)
    ensures
        crate::time::uptime(c, now) == crate::time::tick_at(c, now) * 10,
        ({
            let s = crate::time::started(c, frequency, now);
            &&& 100 * s.interval <= frequency < 100 * (s.interval + 1)
            &&& s.timer_irqs == c.timer_irqs && s.tickless == c.tickless
        }),
{
}

/// Whichever core starts its timer first sets the origin of time; those that come later find it
/// set and leave it.
pub proof fn cores_agree_on_the_origin(c: Clock, frequency: u64, first: u64, later: u64)
    requires
        first > 0,
    ensures
        ({
            let a = crate::time::started(c, frequency, first);
            let b = crate::time::started(a, frequency, later);
            &&& c.boot_cycles == 0 ==> a.boot_cycles == first
            &&& c.boot_cycles != 0 ==> a.boot_cycles == c.boot_cycles
            &&& b.boot_cycles == a.boot_cycles
            &&& forall|now: u64| crate::time::tick_at(b, now) == #[trigger] crate::time::tick_at(
                a,
                now,
            )
        }),
{
}

/// When the next interrupt comes: one quantum from now while there is work, or while idle cores
/// tick; otherwise when the earliest sleeper is due, or after a second if nobody sleeps — but
/// never sooner than a quarter of a tick from now, and, beyond that, not later.
pub proof fn an_interrupt_comes_when_it_is_needed(
    c: Clock,
    now: u64,
    have_work: bool,
    sleeper: Option<u64>,
)
    ensures
        ({
            let at = crate::time::next_interrupt(c, now, have_work, sleeper);
            let wanted = match sleeper {
                Some(t) => t as int,
                None => crate::time::tick_at(c, now) + 100,
            };
            let due = c.boot_cycles + wanted * c.interval;
            &&& at is None <==> c.interval == 0
            &&& c.interval > 0 && (have_work || !c.tickless) ==> at->0 - now == c.interval
            &&& c.interval > 0 && !have_work && c.tickless ==> {
                &&& at->0 >= due
                &&& 4 * (at->0 - now) + 4 > c.interval
                &&& at->0 == due || 4 * (at->0 - now) <= c.interval
            }
        }),
{
}

// ---- interrupts -----------------------------------------------------------------------------

/// A userspace interrupt is found by its number: the first entry that has it, or none if none
/// has.
pub proof fn an_interrupt_is_found_by_its_number(
    list: Seq<(u32, u64)>,
    intid: u32,
    i: int,
    k: int,
)
    requires
        0 <= i <= k < list.len(),
    ensures
        match crate::irq::user_entry(list, intid, i) {
            Some(f) => i <= f < list.len() && list[f].0 == intid && (k < f ==> list[k].0 != intid),
            None => list[k].0 != intid,
        },
    decreases list.len() - i,
{
    if list[i].0 != intid {
        if k > i {
            an_interrupt_is_found_by_its_number(list, intid, i + 1, k);
        } else if i + 1 < list.len() {
            an_interrupt_is_found_by_its_number(list, intid, i + 1, i + 1);
        } else {
            assert(crate::irq::user_entry(list, intid, i + 1) is None);
        }
    }
}

/// The first claim of an interrupt stands, and a claim is of one interrupt.
pub proof fn the_first_claim_stands(
    list: Seq<(u32, usize)>,
    intid: u32,
    other: u32,
    handler: usize,
    i: int,
)
    requires
        0 <= i <= list.len(),
    ensures
        crate::irq::handler_of(list.push((intid, handler)), intid, i) == (
        match crate::irq::handler_of(list, intid, i) {
            Some(h) => Some(h),
            None => Some(handler),
        }),
        other != intid ==> crate::irq::handler_of(list.push((intid, handler)), other, i)
            == crate::irq::handler_of(list, other, i),
        i < list.len() && list[i].0 == intid ==> crate::irq::handler_of(list, intid, i) == Some(
            list[i].1,
        ),
    decreases list.len() - i,
{
    let more = list.push((intid, handler));
    if i < list.len() {
        the_first_claim_stands(list, intid, other, handler, i + 1);
        assert(more[i] == list[i]);
    } else {
        assert(more[i] == (intid, handler));
        assert(crate::irq::handler_of(more, other, i + 1) is None);
    }
}

/// Who gets an interrupt: nobody, if its number is one of those that name none; the userspace
/// driver it was handed to; the scheduler, if it is the timer's; the kernel handler that claimed
/// it — in that order.
pub proof fn an_interrupt_goes_to_who_owns_it(q: Irqs, intid: u32)
    ensures
        crate::irq::action_for(q, intid) == (if intid >= 1020 {
            Action::Done
        } else if crate::irq::times_fired(q.user@, intid) is Some {
            Action::Mask
        } else if intid == 27 {
            Action::Tick
        } else if crate::irq::handler_of(q.handlers@, intid, 0) is Some {
            Action::Run(crate::irq::handler_of(q.handlers@, intid, 0)->0)
        } else {
            Action::Ignore
        }),
{
}

proof fn lemma_user_entry(list: Seq<(u32, u64)>, intid: u32, i: int)
    requires
        0 <= i <= list.len(),
    ensures
        match crate::irq::user_entry(list, intid, i) {
            Some(f) => i <= f < list.len() && list[f].0 == intid,
            None => true,
        },
    decreases list.len() - i,
{
    if i < list.len() && list[i].0 != intid {
        lemma_user_entry(list, intid, i + 1);
    }
}

proof fn lemma_counted(list: Seq<(u32, u64)>, f: int, n: u64, other: u32, i: int)
    requires
        0 <= f < list.len(),
        0 <= i <= list.len(),
    ensures
        crate::irq::user_entry(list.update(f, (list[f].0, n)), other, i) == crate::irq::user_entry(
            list,
            other,
            i,
        ),
    decreases list.len() - i,
{
    if i < list.len() {
        lemma_counted(list, f, n, other, i + 1);
    }
}

/// What taking an interrupt counts: one more of it for its driver and for no other; one more
/// unclaimed if nobody owns it; one more spurious if there was nothing and nothing was handled
/// before. Exactly those threads are woken that wait for it.
pub proof fn an_interrupt_is_counted_once(
    q0: Irqs,
    q1: Irqs,
    t0: Seq<Thread>,
    t1: Seq<Thread>,
    intid: u32,
    handled: u32,
    other: u32,
    k: int,
)
    requires
        crate::irq::dispatched(q0, q1, t0, t1, intid, handled),
        0 <= k < t0.len(),
        q0.spurious < u64::MAX,
        q0.unclaimed < u64::MAX,
        crate::irq::times_fired(q0.user@, intid) matches Some(n) ==> n < u64::MAX,
    ensures
        ({
            let a = crate::irq::action_for(q0, intid);
            &&& q1.handlers == q0.handlers
            &&& q1.spurious - q0.spurious == if a is Done && handled == 0 {
                1int
            } else {
                0
            }
            &&& q1.unclaimed - q0.unclaimed == if a is Ignore {
                1int
            } else {
                0
            }
            &&& other != intid ==> crate::irq::times_fired(q1.user@, other)
                == crate::irq::times_fired(q0.user@, other)
            &&& a is Mask ==> crate::irq::times_fired(q1.user@, intid)->0
                == crate::irq::times_fired(q0.user@, intid)->0 + 1
            &&& !(a is Mask) ==> crate::irq::times_fired(q1.user@, intid)
                == crate::irq::times_fired(q0.user@, intid)
            &&& t1.len() == t0.len()
            &&& t1[k].state == if a is Mask && t0[k].state == State::Blocked(
                crate::irq::token_of(intid),
            ) {
                State::Runnable
            } else {
                t0[k].state
            }
        }),
{
    if crate::irq::action_for(q0, intid) is Mask {
        lemma_user_entry(q0.user@, intid, 0);
        let f = crate::irq::user_entry(q0.user@, intid, 0)->0;
        let n = q0.user@[f].1.wrapping_add(1);
        lemma_counted(q0.user@, f, n, intid, 0);
        lemma_counted(q0.user@, f, n, other, 0);
        lemma_user_entry(q0.user@, other, 0);
    }
}

/// An interrupt that is handed to userspace is its from then on, counted from nothing; one that
/// it has already keeps its count, and no other changes.
pub proof fn an_interrupt_is_handed_over_once(list: Seq<(u32, u64)>, intid: u32, other: u32)
    ensures
        ({
            let after = crate::irq::handed_over(list, intid);
            &&& crate::irq::times_fired(after, intid) == (
            match crate::irq::times_fired(list, intid) {
                Some(n) => Some(n),
                None => Some(0u64),
            })
            &&& other != intid ==> crate::irq::times_fired(after, other)
                == crate::irq::times_fired(list, other)
        }),
{
    lemma_appended(list, intid, intid, 0);
    lemma_appended(list, intid, other, 0);
    lemma_user_entry(list, other, 0);
}

proof fn lemma_appended(list: Seq<(u32, u64)>, intid: u32, other: u32, i: int)
    requires
        0 <= i <= list.len(),
    ensures
        crate::irq::user_entry(list.push((intid, 0u64)), other, i) == (
        match crate::irq::user_entry(list, other, i) {
            Some(f) => Some(f),
            None => if other == intid {
                Some(list.len() as int)
            } else {
                None
            },
        }),
    decreases list.len() - i,
{
    let more = list.push((intid, 0u64));
    if i < list.len() {
        lemma_appended(list, intid, other, i + 1);
        assert(more[i] == list[i]);
    } else {
        assert(more[i] == (intid, 0u64));
        assert(crate::irq::user_entry(more, other, i + 1) is None);
    }
}

// ---- the interrupt controller ---------------------------------------------------------------

/// Each line has one bit, line `n` the bit `n % 32` of word `n / 32`; enabling a line and
/// disabling it go to the same bit, 0x80 bytes apart.
pub proof fn a_line_has_one_bit(intid: u32)
    ensures
        crate::gic::one_line(0x100, intid) == Access::Write32(
            (0x100 + intid / 32 * 4) as u64,
            1u32 << (intid % 32),
        ),
        crate::gic::one_line(0x180, intid) == Access::Write32(
            (0x180 + intid / 32 * 4) as u64,
            1u32 << (intid % 32),
        ),
        crate::gic::private_line(intid) == Access::Write32(0x1_0100, 1u32 << (intid % 32)),
        crate::gic::GICD_ISENABLER == 0x100 && crate::gic::GICD_ICENABLER == 0x180,
{
    lemma_fields(0, intid);
}

/// How many lines there are: thirty-two, and thirty-two for each that the register counts.
pub proof fn lines_are_counted_by_the_bank(typer: u32)
    ensures
        crate::gic::lines_of(typer) == 32 + 32 * (typer % 32),
{
    lemma_fields(0, typer);
}

/// A core's redistributor is the first frame that reports the core's affinity, of those up to
/// the one that says it is the last.
pub proof fn a_frame_is_found_by_its_affinity(
    base: u64,
    typers: Seq<u64>,
    mpidr: u64,
    i: int,
    k: int,
)
    requires
        0 <= i <= k < typers.len(),
    ensures
        crate::gic::affinity_of(mpidr) == mpidr / 0x1_0000_0000 % 256 * 0x100_0000 + mpidr
            % 0x100_0000,
        crate::gic::redistributor_of(base, typers, mpidr) == (match crate::gic::frame_for(
            typers,
            crate::gic::affinity_of(mpidr),
            0,
        ) {
            Some(f) => Some(base + f * 0x2_0000),
            None => None,
        }),
        ({
            let want = crate::gic::affinity_of(mpidr);
            match crate::gic::frame_for(typers, want, i) {
                Some(f) => {
                    &&& i <= f < typers.len()
                    &&& typers[f] / 0x1_0000_0000 == want
                    &&& k < f ==> typers[k] / 0x1_0000_0000 != want && typers[k] / 16 % 2 == 0
                },
                None => typers[k] / 0x1_0000_0000 != want || exists|l: int|
                    i <= l < k && (#[trigger] typers[l]) / 16 % 2 == 1,
            }
        }),
    decreases typers.len() - i,
{
    let want = crate::gic::affinity_of(mpidr);
    lemma_fields(mpidr, 0);
    lemma_fields(typers[i], 0);
    lemma_fields(typers[k], 0);
    if typers[i] >> 32 != want && typers[i] & 0x10 == 0 {
        if k > i {
            a_frame_is_found_by_its_affinity(base, typers, mpidr, i + 1, k);
        } else if i + 1 < typers.len() {
            a_frame_is_found_by_its_affinity(base, typers, mpidr, i + 1, i + 1);
        } else {
            assert(crate::gic::frame_for(typers, want, i + 1) is None);
        }
    } else if typers[i] >> 32 != want && k > i {
        assert(typers[i] / 16 % 2 == 1);
    }
}

/// Waking a redistributor clears one bit of its register, and another says when it is awake.
pub proof fn waking_clears_one_bit(waker: u32)
    ensures
        crate::gic::woken_by(waker) == waker - waker / 2 % 2 * 2,
        crate::gic::is_awake(waker) <==> waker / 4 % 2 == 0,
{
    lemma_fields(0, waker);
}

proof fn lemma_banks(n: int, b: int)
    requires
        1 <= n,
        1 <= b < n,
    ensures
        crate::gic::bank_accesses(n).len() == 2 * (n - 1),
        crate::gic::bank_accesses(n)[2 * (b - 1)] == Access::Write32(
            (0x180 + 4 * b) as u64,
            0xFFFF_FFFF,
        ),
        crate::gic::bank_accesses(n)[2 * (b - 1) + 1] == Access::Write32(
            (0x80 + 4 * b) as u64,
            0xFFFF_FFFF,
        ),
    decreases n,
{
    if n > 2 {
        lemma_banks(n - 1, if b < n - 1 {
            b
        } else {
            1
        });
    } else {
        assert(crate::gic::bank_accesses(1).len() == 0);
    }
}

proof fn lemma_lines(n: int, i: int)
    requires
        32 <= i < n,
    ensures
        crate::gic::line_accesses(n).len() == 2 * (n - 32),
        crate::gic::line_accesses(n)[2 * (i - 32)] == Access::Write8((0x400 + i) as u64, 0xA0),
        crate::gic::line_accesses(n)[2 * (i - 32) + 1] == Access::Write64(
            (0x6000 + 8 * i) as u64,
            0,
        ),
    decreases n,
{
    if n > 33 {
        lemma_lines(n - 1, if i < n - 1 {
            i
        } else {
            32
        });
    } else {
        assert(crate::gic::line_accesses(32).len() == 0);
    }
}

/// Bringing the controller up goes in this order: affinity routing alone, every shared bank off
/// and in the one group, every shared line at the default priority and routed to the first
/// core, and only when all of that has settled is delivery turned on. No shared line is missed,
/// and no private one is touched.
pub proof fn delivery_is_turned_on_last(lines: int, b: int, i: int)
    requires
        64 <= lines,
        lines % 32 == 0,
        1 <= b < lines / 32,
        32 <= i < lines,
    ensures
        ({
            let s = crate::gic::distributor_setup(lines);
            let banks = 2 * (lines / 32 - 1);
            &&& s.len() == 2 + banks + 2 * (lines - 32) + 3
            &&& s[0] == Access::Write32(0, 0x10) && s[1] == Access::Settle
            &&& s[2 + 2 * (b - 1)] == Access::Write32((0x180 + 4 * b) as u64, 0xFFFF_FFFF)
            &&& s[2 + 2 * (b - 1) + 1] == Access::Write32((0x80 + 4 * b) as u64, 0xFFFF_FFFF)
            &&& s[2 + banks + 2 * (i - 32)] == Access::Write8((0x400 + i) as u64, 0xA0)
            &&& s[2 + banks + 2 * (i - 32) + 1] == Access::Write64((0x6000 + 8 * i) as u64, 0)
            &&& s[s.len() - 3] == Access::Settle
            &&& s[s.len() - 2] == Access::Write32(0, 0x12)
            &&& s[s.len() - 1] == Access::Settle
        }),
{
    lemma_banks(lines / 32, b);
    lemma_lines(lines, i);
    lemma_fields(0, 0);
}

/// A core's own lines are all off, in the one group and at the default priority when it comes
/// up.
pub proof fn private_lines_start_off(i: int)
    requires
        0 <= i < 32,
    ensures
        ({
            let s = crate::gic::redistributor_setup();
            &&& s.len() == 35
            &&& s[0] == Access::Write32(0x1_0180, 0xFFFF_FFFF)
            &&& s[1] == Access::Write32(0x1_0080, 0xFFFF_FFFF)
            &&& s[2 + i] == Access::Write8((0x1_0400 + i) as u64, 0xA0)
            &&& s[34] == Access::Settle
        }),
{
}

// ---- cores ----------------------------------------------------------------------------------

/// What is kept of a core's identity: its four affinity fields, each where it was.
pub proof fn a_core_keeps_its_affinity(raw: u64)
    ensures
        crate::smp::affinity_fields(raw) == raw / 0x1_0000_0000 % 256 * 0x1_0000_0000 + raw
            % 0x100_0000,
{
    lemma_fields(raw, 0);
}

/// A core is started on a stack of its own, from the top down, under its own number; the boot
/// core is not started again, and there are no more than eight.
pub proof fn a_core_starts_on_its_own_stack(id: usize, stack: Option<u64>)
    requires
        stack matches Some(s) ==> s + 16384 <= u64::MAX,
    ensures
        ({
            let r = crate::smp::boot_of(id, stack);
            &&& r is Ok <==> 1 <= id < 8 && stack is Some
            &&& r matches Ok(d) ==> d.cpu_id == id && d.stack_top_phys - stack->0 == 16384
        }),
{
}

// ---- exceptions -----------------------------------------------------------------------------

/// Where an exception goes, by its vector and the fields of its syndrome: the second of every
/// four vectors is an interrupt; of the rest only what a process does is survived. A process may
/// ask for something, or touch what is not there yet; anything else ends it.
pub proof fn an_exception_goes_where_its_syndrome_says(idx: u64, esr: u64)
    ensures
        ({
            let class = esr as int / 0x400_0000;
            let status = esr as int % 64;
            crate::exceptions::route_of(idx, esr) == (if idx % 4 == 1 {
                Route::Interrupt
            } else if idx != 8 {
                Route::Panic
            } else if class == 0x15 {
                Route::SystemCall
            } else if (class == 0x20 || class == 0x24) && 4 <= status <= 7 {
                Route::DemandPage
            } else {
                Route::Terminate
            })
        }),
{
    lemma_fields(esr, 0);
}

// ---- the console ----------------------------------------------------------------------------

/// Text goes down the wire byte by byte, in order; only a newline gets a carriage return before
/// it.
pub proof fn every_newline_gets_a_carriage_return(b: Seq<u8>, c: u8)
    ensures
        crate::uart::on_the_wire(Seq::empty()).len() == 0,
        crate::uart::on_the_wire(b.push(c)) == crate::uart::on_the_wire(b) + (if c == 10 {
            seq![13u8, 10u8]
        } else {
            seq![c]
        }),
{
    let so_far = crate::uart::on_the_wire(b);
    assert(b.push(c).drop_last() =~= b);
    if c == 10 {
        assert(so_far.push(13).push(10) =~= so_far + seq![13u8, 10u8]);
    } else {
        assert(so_far.push(c) =~= so_far + seq![c]);
    }
}

/// The flag register says by one bit that no byte can be sent, and by another that none has
/// come; a byte that came is the low byte of the data register.
pub proof fn the_console_goes_by_its_flags(flags: u32, data: u32)
    ensures
        crate::uart::has_room(flags) <==> flags / 32 % 2 == 0,
        crate::uart::received(flags, data) is None <==> flags / 16 % 2 == 1,
        crate::uart::received(flags, data) matches Some(b) ==> b == data % 256,
{
    lemma_fields(0, flags);
}

} // verus!
