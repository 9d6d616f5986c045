//! The generic timer — the scheduler's heartbeat.
//!
//! The clock is the counter, not the number of interrupts taken: every function
//! here takes what the counter reads. That is what makes tickless idle possible.
//! If the clock were the number of times a core was interrupted, a core that
//! stops being interrupted would stop time.
use vstd::prelude::*;
use crate::smp::Cpu;

verus! {

/// INTID of the EL1 virtual timer: PPI 11, and PPIs start at 16.
pub const TIMER_INTID: u32 = 27;

/// Scheduler tick rate.
pub const HZ: u64 = 100;

/// The longest an idle core will sleep with nothing at all to wake for: one
/// second. Not a correctness bound but a backstop, so a bug that loses a wakeup
/// shows up as a stutter rather than a hang.
pub const MAX_IDLE_TICKS: u64 = 100;

pub struct Clock {
    /// Counter cycles in a tick; 0 before the timer has been started.
    pub interval: u64,
    /// The counter value the first core saw.
    pub boot_cycles: u64,
    /// Timer interrupts actually taken, across all cores.
    pub timer_irqs: u64,
    /// Whether an idle core may sleep past its next scheduling tick.
    pub tickless: bool,
}

impl Clock {
    pub fn new() -> (c: Clock)
        ensures
            c.interval == 0,
            c.boot_cycles == 0,
            c.timer_irqs == 0,
            !c.tickless,
    {
        Clock { interval: 0, boot_cycles: 0, timer_irqs: 0, tickless: false }
    }
}

pub fn set_tickless(c: &mut Clock, on: bool)
    ensures
        *final(c) == (Clock { tickless: on, ..*old(c) }),
{
    c.tickless = on;
}

pub fn tickless(c: &Clock) -> (r: bool)
    ensures
        r == c.tickless,
{
    c.tickless
}

pub fn timer_irqs(c: &Clock) -> (n: u64)
    ensures
        n == c.timer_irqs,
{
    c.timer_irqs
}

/// The tick it is when the counter reads `now`.
pub open spec fn tick_at(c: Clock, now: u64) -> int {
    if c.interval == 0 || now < c.boot_cycles {
        0
    } else {
        (now - c.boot_cycles) / (c.interval as int)
    }
}

/// Scheduler ticks since boot, when the counter reads `now`.
pub fn ticks(c: &Clock, now: u64) -> (r: u64)
    ensures
        r == tick_at(*c, now),
{
    if c.interval == 0 || now < c.boot_cycles {
        return 0;
    }
    let since: u64 = now - c.boot_cycles;
    let r = since / c.interval;
    proof {
        assert(since as int / c.interval as int == r);
    }
    r
}

/// The microseconds that `now` cycles take at `frequency`, as far as a counter of
/// microseconds goes; none where the frequency is unknown.
pub open spec fn micros(frequency: u64, now: u64) -> int {
    if frequency == 0 {
        0
    } else if now * 1_000_000 / (frequency as int) <= u64::MAX {
        now * 1_000_000 / (frequency as int)
    } else {
        u64::MAX as int
    }
}

/// Microseconds since boot, from the cycle counter rather than the tick: the tick is
/// too coarse to say whether a job met its deadline.
pub fn now_us(frequency: u64, now: u64) -> (r: u64)
    ensures
        r == micros(frequency, now),
{
    if frequency == 0 {
        return 0;
    }
    let us: u128 = now as u128 * 1_000_000 / frequency as u128;
    if us <= u64::MAX as u128 {
        us as u64
    } else {
        u64::MAX
    }
}

/// Milliseconds since the timer was started.
pub open spec fn uptime(c: Clock, now: u64) -> int {
    tick_at(c, now) * 1000 / 100
}

/// Milliseconds since the timer was started.
pub fn uptime_ms(c: &Clock, now: u64) -> (r: u64)
    requires
        tick_at(*c, now) * 1000 <= u64::MAX,
    ensures
        r == uptime(*c, now),
{
    ticks(c, now) * 1000 / HZ
}

/// A clock that counts at `frequency` and was started when the counter read `now`.
pub open spec fn started(c: Clock, frequency: u64, now: u64) -> Clock {
    Clock {
        interval: frequency / 100,
        boot_cycles: if c.boot_cycles == 0 {
            now
        } else {
            c.boot_cycles
        },
        ..c
    }
}

/// Start the timer on a core: gives the cycles until its first interrupt.
///
/// Whichever core gets here first sets the origin; the others adopt it, so all of
/// them agree on what tick it is.
pub fn start(c: &mut Clock, frequency: u64, now: u64) -> (first: u64)
    ensures
        *final(c) == started(*old(c), frequency, now),
        first == final(c).interval,
{
    let interval: u64 = frequency / HZ;
    c.interval = interval;
    if c.boot_cycles == 0 {
        c.boot_cycles = now;
    }
    interval
}

/// The tick an idle core next has to be awake for.
pub open spec fn idle_until(c: Clock, now: u64, earliest_sleeper: Option<u64>) -> int {
    match earliest_sleeper {
        Some(t) => t as int,
        None => tick_at(c, now) + MAX_IDLE_TICKS,
    }
}

/// The counter value at which tick `t` begins.
pub open spec fn start_of_tick(c: Clock, t: int) -> int {
    c.boot_cycles + t * c.interval
}

/// When a core is next interrupted.
pub open spec fn next_interrupt(
    c: Clock,
    now: u64,
    have_work: bool,
    earliest_sleeper: Option<u64>,
) -> Option<int> {
    let due = start_of_tick(c, idle_until(c, now, earliest_sleeper));
    if c.interval == 0 {
        None
    } else if have_work || !c.tickless {
        Some(now + c.interval)
    } else if due < now + c.interval / 4 {
        Some(now + c.interval / 4)
    } else {
        Some(due)
    }
}

/// Decide when this core next needs to be interrupted, as an absolute counter
/// value; `None` before the timer has been started.
///
/// With work to run, that is one scheduling quantum: preemption is the whole
/// reason for a periodic tick. With nothing to run, it is whenever the earliest
/// sleeper is due — never in the past, and never so close that the interrupt
/// lands before the core has got to its wait.
pub fn arm_next(c: &Clock, now: u64, have_work: bool, earliest_sleeper: Option<u64>) -> (r: Option<
    u64,
>)
    requires
        now + c.interval <= u64::MAX,
        start_of_tick(*c, idle_until(*c, now, earliest_sleeper)) <= u64::MAX,
    ensures
        match r {
            None => next_interrupt(*c, now, have_work, earliest_sleeper) is None,
            Some(at) => next_interrupt(*c, now, have_work, earliest_sleeper) == Some(at as int),
        },
{
    if c.interval == 0 {
        return None;
    }
    if have_work || !c.tickless {
        return Some(now + c.interval);
    }
    let interval = c.interval;
    let ghost t = idle_until(*c, now, earliest_sleeper);
    assert(0 <= t <= t * interval && t * interval <= u64::MAX) by (nonlinear_arith)
        requires
            0 <= t,
            interval >= 1,
            c.boot_cycles + t * interval <= u64::MAX,
            c.boot_cycles >= 0,
    ;
    let target: u64 = match earliest_sleeper {
        Some(t) => t,
        None => ticks(c, now) + MAX_IDLE_TICKS,
    };
    let due: u64 = c.boot_cycles + target * interval;
    let soon: u64 = now + interval / 4;
    if due < soon {
        Some(soon)
    } else {
        Some(due)
    }
}

/// Account for a timer interrupt on this core. It advances no clock: all this does
/// is count.
pub fn took_interrupt(c: &mut Clock, cpu: &mut Cpu)
    ensures
        *final(c) == (Clock { timer_irqs: old(c).timer_irqs.wrapping_add(1), ..*old(c) }),
        *final(cpu) == (Cpu { ticks: old(cpu).ticks.wrapping_add(1), ..*old(cpu) }),
{
    cpu.ticks = cpu.ticks.wrapping_add(1);
    c.timer_irqs = c.timer_irqs.wrapping_add(1);
}

// ---- what the clock promises ----------------------------------------------------

/// Time goes forward, whether or not anything is interrupted: a later reading of
/// the counter is never an earlier tick.
pub proof fn time_goes_forward(c: Clock, a: u64, b: u64)
    requires
        a <= b,
    ensures
        tick_at(c, a) <= tick_at(c, b),
        0 <= tick_at(c, a),
{
    if c.interval != 0 && a >= c.boot_cycles {
        let x = a - c.boot_cycles;
        let y = b - c.boot_cycles;
        let d = c.interval as int;
        assert(x / d <= y / d && 0 <= x / d) by (nonlinear_arith)
            requires
                0 <= x <= y,
                d > 0,
        ;
    } else if c.interval != 0 && b >= c.boot_cycles {
        let y = b - c.boot_cycles;
        let d = c.interval as int;
        assert(0 <= y / d) by (nonlinear_arith)
            requires
                0 <= y,
                d > 0,
        ;
    }
}

/// A second is a million microseconds, whatever the frequency.
pub proof fn a_second_is_a_million_microseconds(frequency: u64)
    requires
        frequency > 0,
    ensures
        micros(frequency, frequency) == 1_000_000,
{
    let f = frequency as int;
    assert(f * 1_000_000 / f == 1_000_000) by (nonlinear_arith)
        requires
            f > 0,
    ;
}

/// The counter value at which a tick begins is in that tick.
pub proof fn a_tick_begins_where_it_should(c: Clock, t: int, now: u64)
    requires
        c.interval > 0,
        0 <= t,
        now == start_of_tick(c, t),
    ensures
        tick_at(c, now) == t,
{
    let d = c.interval as int;
    assert(t * d >= 0 && (t * d) / d == t) by (nonlinear_arith)
        requires
            0 <= t,
            d > 0,
    ;
}

/// An idle core sleeps until the earliest sleeper is due and no longer, but for
/// the quarter tick it is always given: when the interrupt comes the sleeper is
/// due, and it does not come before.
pub proof fn a_sleeper_is_woken_when_it_is_due(c: Clock, now: u64, t: u64, at: u64)
    requires
        c.interval > 0,
        start_of_tick(c, t as int) <= u64::MAX,
        at == if start_of_tick(c, t as int) < now + c.interval / 4 {
            now + c.interval / 4
        } else {
            start_of_tick(c, t as int)
        },
    ensures
        tick_at(c, at) >= t,
        at >= now + c.interval / 4,
        at > now + c.interval / 4 ==> tick_at(c, at) == t,
{
    let due = start_of_tick(c, t as int) as u64;
    assert(start_of_tick(c, t as int) >= 0) by (nonlinear_arith)
        requires
            start_of_tick(c, t as int) == c.boot_cycles + t * c.interval,
    ;
    a_tick_begins_where_it_should(c, t as int, due);
    time_goes_forward(c, due, at);
}

} // verus!
