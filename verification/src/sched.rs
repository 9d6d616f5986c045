//! Round-robin scheduler across all online cores.
//!
//! One global thread table, and a per-CPU `current`. Threads are not pinned:
//! whichever core reaches the scheduler first takes the next runnable thread, so
//! work spreads without a balancer. A thread already running elsewhere is
//! skipped — `on_cpu` is what keeps two cores from picking the same one.
//!
//! The scheduler decides; the machine layer saves and restores registers. A
//! [`Switch`] is the decision handed over.
use vstd::prelude::*;
use crate::mm::phys_to_virt;
use crate::smp::Cpu;

verus! {

/// Kernel stack per thread, in bytes.
pub const STACK_BYTES: u64 = 16384;

/// Callee-saved state.
#[derive(Clone, Copy)]
pub struct Context {
    /// x19..x28
    pub regs: [u64; 10],
    pub x29: u64,
    pub x30: u64,
    pub sp: u64,
}

impl Context {
    pub fn empty() -> (c: Context)
        ensures
            c.regs@ == Seq::new(10, |i: int| 0u64),
            c.x29 == 0,
            c.x30 == 0,
            c.sp == 0,
    {
        let c = Context { regs: [0u64; 10], x29: 0, x30: 0, sp: 0 };
        assert(c.regs@ =~= Seq::new(10, |i: int| 0u64));
        c
    }

    /// A context that, when switched to, enters `trampoline` and from there
    /// calls `entry(arg)` on a stack topped at `stack_top`.
    pub fn new(trampoline: u64, entry: u64, arg: u64, stack_top: u64) -> (c: Context)
        ensures
            c.regs@ == Seq::new(10, |i: int| 0u64).update(0, entry).update(1, arg),
            c.x29 == 0,
            c.x30 == trampoline,
            c.sp == stack_top,
    {
        let mut c = Context::empty();
        c.regs[0] = entry;  // x19
        c.regs[1] = arg;  // x20
        c.x30 = trampoline;
        c.sp = stack_top;
        c
    }
}

#[derive(Clone, Copy, PartialEq, Eq, Debug, Structural)]
pub enum State {
    /// Created but not yet released to the run queue, because on a multicore
    /// machine another core will happily run a thread the instant it is
    /// visible — before it has been told which process it belongs to.
    New,
    Runnable,
    /// Off the run queue until the tick counter reaches this value.
    Sleeping(u64),
    /// Off the run queue until someone wakes this token.
    Blocked(u64),
    Finished,
}

impl State {
    pub fn label(&self) -> (r: &'static str)
        ensures
            r == (match *self {
                State::New => "new",
                State::Runnable => "runnable",
                State::Sleeping(_) => "sleeping",
                State::Blocked(_) => "blocked",
                State::Finished => "finished",
            }),
    {
        match self {
            State::New => "new",
            State::Runnable => "runnable",
            State::Sleeping(_) => "sleeping",
            State::Blocked(_) => "blocked",
            State::Finished => "finished",
        }
    }
}

#[derive(Clone, Copy)]
pub struct Thread {
    pub id: usize,
    pub name: &'static str,
    pub ctx: Context,
    pub state: State,
    /// Times this thread has been switched to — the round-robin fairness metric.
    pub slices: u64,
    /// The core running it right now, so no two cores pick the same thread.
    pub on_cpu: Option<usize>,
    /// Pinned to one core. Only idle threads use this.
    pub affinity: Option<usize>,
    /// Bitmask of cores this thread has ever run on.
    pub cpus_seen: u64,
    /// The process this thread runs for, if it is a user thread.
    pub pid: Option<usize>,
    /// TTBR0 to install when this thread runs.
    pub ttbr0: u64,
    pub stack_phys: u64,
}

pub struct Scheduler {
    pub threads: Vec<Thread>,
    pub started: bool,
    /// Where a fresh context starts executing.
    pub trampoline: u64,
    /// The TTBR0 of an empty user space, which kernel threads run with.
    pub empty_ttbr0: u64,
    /// Times an idle thread woke. Non-zero proves cores actually stop.
    pub idle_wakeups: u64,
}

/// A context switch that has been decided.
#[derive(Clone, Copy, Debug, PartialEq, Eq, Structural)]
pub struct Switch {
    pub prev: usize,
    pub next: usize,
    /// The user space to install first, where it differs.
    pub activate: Option<u64>,
}

/// Is `t` a candidate for core `cpu_id` right now?
pub open spec fn is_eligible(t: Thread, cpu_id: usize) -> bool {
    &&& t.state == State::Runnable
    &&& t.on_cpu is None
    &&& match t.affinity {
        Some(a) => a == cpu_id,
        None => true,
    }
}

/// Whether a core's scan may settle on thread `i`.
pub open spec fn candidate(ts: Seq<Thread>, cpu: Cpu, i: int) -> bool {
    i != cpu.idle && i != cpu.current && is_eligible(ts[i], cpu.id)
}

/// The first candidate `step` or more places after the core's cursor, going
/// round once.
pub open spec fn scan_from(ts: Seq<Thread>, cpu: Cpu, step: int) -> Option<int>
    decreases ts.len() + 1 - step,
{
    if step > ts.len() {
        None
    } else {
        let i = (cpu.cursor + step) % ts.len() as int;
        if candidate(ts, cpu, i) {
            Some(i)
        } else {
            scan_from(ts, cpu, step + 1)
        }
    }
}

/// The thread a core should run: the first candidate after its cursor, else the
/// one it is running if that can go on, else its idle thread.
pub open spec fn picked(ts: Seq<Thread>, cpu: Cpu) -> int {
    match scan_from(ts, cpu, 1) {
        Some(i) => i,
        None => if ts[cpu.current as int].state == State::Runnable && cpu.current != cpu.idle {
            cpu.current as int
        } else {
            cpu.idle as int
        },
    }
}

/// A core's indices point into the thread table.
pub open spec fn cpu_fits(cpu: Cpu, n: nat) -> bool {
    cpu.id < 8 && cpu.current < n && cpu.idle < n && cpu.cursor < n && match cpu.release_prev {
        Some(p) => p < n,
        None => true,
    }
}

/// `t` as claimed by core `cpu_id`.
pub open spec fn claimed(t: Thread, cpu_id: usize) -> Thread {
    Thread {
        on_cpu: Some(cpu_id),
        slices: t.slices.wrapping_add(1),
        cpus_seen: t.cpus_seen | (1u64 << (cpu_id as u64)),
        ..t
    }
}

/// The threads and the core after a scheduling decision, and the switch to make.
pub open spec fn schedule_outcome(started: bool, ts: Seq<Thread>, cpu: Cpu) -> (
    Seq<Thread>,
    Cpu,
    Option<Switch>,
) {
    let next = picked(ts, cpu);
    if !started || next == cpu.current {
        (ts, cpu, None)
    } else {
        (
            ts.update(next, claimed(ts[next], cpu.id)),
            Cpu {
                release_prev: Some(cpu.current),
                cursor: next as usize,
                current: next as usize,
                switches: cpu.switches.wrapping_add(1),
                ..cpu
            },
            Some(
                Switch {
                    prev: cpu.current,
                    next: next as usize,
                    activate: if ts[next].ttbr0 != ts[cpu.current as int].ttbr0 {
                        Some(ts[next].ttbr0)
                    } else {
                        None
                    },
                },
            ),
        )
    }
}

/// Every sleeper that is due by `now`, made runnable.
pub open spec fn woken_by_time(ts: Seq<Thread>, now: u64) -> Seq<Thread> {
    ts.map_values(
        |t: Thread|
            match t.state {
                State::Sleeping(until) if now >= until => Thread { state: State::Runnable, ..t },
                _ => t,
            },
    )
}

/// Every thread blocked on `token`, made runnable.
pub open spec fn woken_on(ts: Seq<Thread>, token: u64) -> Seq<Thread> {
    ts.map_values(
        |t: Thread|
            if t.state == State::Blocked(token) {
                Thread { state: State::Runnable, ..t }
            } else {
                t
            },
    )
}

/// Thread `i` with its state replaced.
pub open spec fn with_state(ts: Seq<Thread>, i: int, state: State) -> Seq<Thread> {
    ts.update(i, Thread { state, ..ts[i] })
}

/// Whether `t` counts as work: neither finished nor an idle thread.
pub open spec fn is_live(t: Thread) -> bool {
    t.affinity is None && t.state != State::Finished
}

impl Scheduler {
    /// The table is small enough that a cursor and a step can be added.
    pub open spec fn wf(&self) -> bool {
        2 * self.threads@.len() <= usize::MAX
    }

    /// Nothing but the threads differs.
    pub open spec fn same_but_threads(self, t: Scheduler) -> bool {
        &&& t.started == self.started
        &&& t.trampoline == self.trampoline
        &&& t.empty_ttbr0 == self.empty_ttbr0
        &&& t.idle_wakeups == self.idle_wakeups
    }

    pub fn new(trampoline: u64, empty_ttbr0: u64) -> (s: Scheduler)
        ensures
            s.wf(),
            s.threads@ == Seq::<Thread>::empty(),
            !s.started,
            s.trampoline == trampoline,
            s.empty_ttbr0 == empty_ttbr0,
            s.idle_wakeups == 0,
    {
        Scheduler {
            threads: Vec::new(),
            started: false,
            trampoline,
            empty_ttbr0,
            idle_wakeups: 0,
        }
    }
}

/// What a thread looks like when it is adopted where it already runs.
pub open spec fn adopted(
    t: Thread,
    s: Scheduler,
    id: usize,
    name: &'static str,
    cpu_id: usize,
    affinity: Option<usize>,
) -> bool {
    &&& t.id == id
    &&& t.name == name
    &&& t.ctx.regs@ == Seq::new(10, |i: int| 0u64)
    &&& t.ctx.x29 == 0
    &&& t.ctx.x30 == 0
    &&& t.ctx.sp == 0
    &&& t.state == State::Runnable
    &&& t.slices == 1
    &&& t.on_cpu == Some(cpu_id)
    &&& t.affinity == affinity
    &&& t.cpus_seen == 1u64 << (cpu_id as u64)
    &&& t.pid is None
    &&& t.ttbr0 == s.empty_ttbr0
    &&& t.stack_phys == 0
}

/// What a freshly created thread looks like.
pub open spec fn created(
    t: Thread,
    s: Scheduler,
    id: usize,
    name: &'static str,
    entry: u64,
    arg: u64,
    affinity: Option<usize>,
    stack: u64,
    state: State,
) -> bool {
    &&& t.id == id
    &&& t.name == name
    &&& t.ctx.regs@ == Seq::new(10, |i: int| 0u64).update(0, entry).update(1, arg)
    &&& t.ctx.x29 == 0
    &&& t.ctx.x30 == s.trampoline
    &&& t.ctx.sp == stack + STACK_BYTES + crate::mm::PHYS_OFFSET
    &&& t.state == state
    &&& t.slices == 0
    &&& t.on_cpu is None
    &&& t.affinity == affinity
    &&& t.cpus_seen == 0
    &&& t.pid is None
    &&& t.ttbr0 == s.empty_ttbr0
    &&& t.stack_phys == stack
}

fn adopt(s: &mut Scheduler, name: &'static str, cpu_id: usize, affinity: Option<usize>) -> (id:
    usize)
    requires
        cpu_id < 8,
    ensures
        id == old(s).threads@.len(),
        final(s).threads@.len() == id + 1,
        final(s).threads@.drop_last() == old(s).threads@,
        adopted(final(s).threads@[id as int], *old(s), id, name, cpu_id, affinity),
        old(s).same_but_threads(*final(s)),
{
    let id: usize = s.threads.len();
    let ttbr0 = s.empty_ttbr0;
    s.threads.push(
        Thread {
            id,
            name,
            ctx: Context::empty(),
            state: State::Runnable,
            slices: 1,
            on_cpu: Some(cpu_id),
            affinity,
            cpus_seen: 1u64 << (cpu_id as u64),
            pid: None,
            ttbr0,
            stack_phys: 0,
        },
    );
    assert(s.threads@.drop_last() =~= old(s).threads@);
    id
}

/// Adopt the context the kernel booted on as thread 0, then create an idle
/// thread for the boot core on the stack given. Called once, before `spawn`.
pub fn init(s: &mut Scheduler, cpu: &mut Cpu, idle_entry: u64, idle_stack: u64)
    requires
        old(s).threads@.len() == 0,
        idle_stack + STACK_BYTES < crate::mm::PHYS_LIMIT,
    ensures
        final(s).threads@.len() == 2,
        adopted(final(s).threads@[0], *old(s), 0, "boot", 0, None),
        created(
            final(s).threads@[1],
            *old(s),
            1,
            "idle0",
            idle_entry,
            0,
            Some(0),
            idle_stack,
            State::Runnable,
        ),
        final(s).started,
        final(s).trampoline == old(s).trampoline,
        final(s).empty_ttbr0 == old(s).empty_ttbr0,
        final(s).idle_wakeups == old(s).idle_wakeups,
        *final(cpu) == (Cpu { current: 0, idle: 1, ..*old(cpu) }),
{
    assert(1u64 << 0u64 == 1u64) by (bit_vector);
    let boot = adopt(s, "boot", 0, None);
    let ghost boot_thread = s.threads@[0];
    cpu.current = 0;
    let idle = spawn_pinned(s, "idle0", idle_entry, 0, Some(0), Some(idle_stack));
    match idle {
        Some(id) => {
            assert(s.threads@.drop_last()[0] == boot_thread);
            start(s, id);
            cpu.idle = id;
        },
        None => {},
    }
    s.started = true;
}

/// The name of core `cpu_id`'s idle thread.
pub open spec fn idle_name(cpu_id: usize) -> &'static str {
    match cpu_id {
        1 => "idle1",
        2 => "idle2",
        3 => "idle3",
        4 => "idle4",
        5 => "idle5",
        6 => "idle6",
        7 => "idle7",
        _ => "idle",
    }
}

/// Turn the context a secondary core booted on into that core's idle thread.
pub fn adopt_as_idle(s: &mut Scheduler, cpu: &mut Cpu, cpu_id: usize)
    requires
        cpu_id < 8,
    ensures
        ({
            let id = old(s).threads@.len() as usize;
            &&& final(s).threads@.len() == old(s).threads@.len() + 1
            &&& final(s).threads@.drop_last() == old(s).threads@
            &&& adopted(
                final(s).threads@.last(),
                *old(s),
                id,
                idle_name(cpu_id),
                cpu_id,
                Some(cpu_id),
            )
            &&& old(s).same_but_threads(*final(s))
            &&& *final(cpu) == (Cpu { current: id, idle: id, cursor: id, ..*old(cpu) })
        }),
{
    let name: &'static str = match cpu_id {
        1 => "idle1",
        2 => "idle2",
        3 => "idle3",
        4 => "idle4",
        5 => "idle5",
        6 => "idle6",
        7 => "idle7",
        _ => "idle",
    };
    let id = adopt(s, name, cpu_id, Some(cpu_id));
    cpu.current = id;
    cpu.idle = id;
    cpu.cursor = id;
}

/// Create a thread that will not run until it is started; `None` where no stack
/// could be had.
pub fn spawn_pinned(
    s: &mut Scheduler,
    name: &'static str,
    entry: u64,
    arg: u64,
    affinity: Option<usize>,
    stack: Option<u64>,
) -> (r: Option<usize>)
    requires
        stack matches Some(p) ==> p + STACK_BYTES < crate::mm::PHYS_LIMIT,
    ensures
        match stack {
            None => r is None && *final(s) == *old(s),
            Some(p) => {
                &&& r is Some && r->0 == old(s).threads@.len()
                &&& final(s).threads@.len() == old(s).threads@.len() + 1
                &&& final(s).threads@.drop_last() == old(s).threads@
                &&& created(
                    final(s).threads@.last(),
                    *old(s),
                    old(s).threads@.len() as usize,
                    name,
                    entry,
                    arg,
                    affinity,
                    p,
                    State::New,
                )
                &&& old(s).same_but_threads(*final(s))
            },
        },
{
    match stack {
        None => None,
        Some(stack_phys) => {
            let stack_top = phys_to_virt(stack_phys + STACK_BYTES);
            let id: usize = s.threads.len();
            let ctx = Context::new(s.trampoline, entry, arg, stack_top);
            let ttbr0 = s.empty_ttbr0;
            s.threads.push(
                Thread {
                    id,
                    name,
                    ctx,
                    state: State::New,
                    slices: 0,
                    on_cpu: None,
                    affinity,
                    cpus_seen: 0,
                    pid: None,
                    ttbr0,
                    stack_phys,
                },
            );
            assert(s.threads@.drop_last() =~= old(s).threads@);
            Some(id)
        },
    }
}

/// Create a runnable kernel thread. Gives its index in the thread table.
pub fn spawn(s: &mut Scheduler, name: &'static str, entry: u64, arg: u64, stack: Option<u64>) -> (r:
    Option<usize>)
    requires
        stack matches Some(p) ==> p + STACK_BYTES < crate::mm::PHYS_LIMIT,
    ensures
        match stack {
            None => r is None && *final(s) == *old(s),
            Some(p) => {
                &&& r is Some && r->0 == old(s).threads@.len()
                &&& final(s).threads@.len() == old(s).threads@.len() + 1
                &&& final(s).threads@.drop_last() == old(s).threads@
                &&& created(
                    final(s).threads@.last(),
                    *old(s),
                    old(s).threads@.len() as usize,
                    name,
                    entry,
                    arg,
                    None,
                    p,
                    State::Runnable,
                )
                &&& old(s).same_but_threads(*final(s))
            },
        },
{
    match spawn_pinned(s, name, entry, arg, None, stack) {
        None => None,
        Some(id) => {
            let ghost before = s.threads@;
            start(s, id);
            assert(s.threads@.drop_last() =~= before.drop_last());
            Some(id)
        },
    }
}

/// Create a thread that will not run until `start` is called.
pub fn spawn_stopped(
    s: &mut Scheduler,
    name: &'static str,
    entry: u64,
    arg: u64,
    stack: Option<u64>,
) -> (r: Option<usize>)
    requires
        stack matches Some(p) ==> p + STACK_BYTES < crate::mm::PHYS_LIMIT,
    ensures
        match stack {
            None => r is None && *final(s) == *old(s),
            Some(p) => {
                &&& r is Some && r->0 == old(s).threads@.len()
                &&& final(s).threads@.len() == old(s).threads@.len() + 1
                &&& final(s).threads@.drop_last() == old(s).threads@
                &&& created(
                    final(s).threads@.last(),
                    *old(s),
                    old(s).threads@.len() as usize,
                    name,
                    entry,
                    arg,
                    None,
                    p,
                    State::New,
                )
                &&& old(s).same_but_threads(*final(s))
            },
        },
{
    spawn_pinned(s, name, entry, arg, None, stack)
}

/// Release a thread created stopped into the run queue. Any other thread, and
/// any index past the table, is left alone.
pub fn start(s: &mut Scheduler, tid: usize)
    ensures
        final(s).threads@ == (if tid < old(s).threads@.len() && old(s).threads@[tid as int].state
            == State::New {
            with_state(old(s).threads@, tid as int, State::Runnable)
        } else {
            old(s).threads@
        }),
        old(s).same_but_threads(*final(s)),
{
    if tid < s.threads.len() {
        let t = s.threads[tid];
        if t.state == State::New {
            s.threads[tid] = Thread { state: State::Runnable, ..t };
        }
    }
}

/// Is `t` a candidate for core `cpu_id` right now?
pub fn eligible(t: &Thread, cpu_id: usize) -> (r: bool)
    ensures
        r == is_eligible(*t, cpu_id),
{
    t.state == State::Runnable && t.on_cpu.is_none() && match t.affinity {
        Some(a) => a == cpu_id,
        None => true,
    }
}

/// Next thread for this core: the first eligible one after its cursor, falling
/// back to the one it is running and then to its own idle thread.
pub fn pick_next(s: &Scheduler, cpu: &Cpu) -> (r: usize)
    requires
        s.wf(),
        cpu_fits(*cpu, s.threads@.len()),
    ensures
        r == picked(s.threads@, *cpu),
        r < s.threads@.len(),
{
    let n: usize = s.threads.len();
    let mut step: usize = 1;
    while step <= n
        invariant
            s.wf(),
            cpu_fits(*cpu, s.threads@.len()),
            n == s.threads@.len(),
            1 <= step <= n + 1,
            scan_from(s.threads@, *cpu, 1) == scan_from(s.threads@, *cpu, step as int),
        decreases n + 1 - step,
    {
        let i: usize = (cpu.cursor + step) % n;
        if i != cpu.idle && i != cpu.current && eligible(&s.threads[i], cpu.id) {
            return i;
        }
        step = step + 1;
    }
    // Nothing else to run: keep going if we still can, otherwise idle.
    if s.threads[cpu.current].state == State::Runnable && cpu.current != cpu.idle {
        cpu.current
    } else {
        cpu.idle
    }
}

/// Give up the CPU: decide what this core runs next, and claim it.
///
/// The thread switched away from stays claimed across the switch. It is released
/// by `finish_switch`, once its context has actually been saved.
pub fn schedule(s: &mut Scheduler, cpu: &mut Cpu) -> (r: Option<Switch>)
    requires
        old(s).wf(),
        cpu_fits(*old(cpu), old(s).threads@.len()),
    ensures
        final(s).wf(),
        cpu_fits(*final(cpu), final(s).threads@.len()),
        (final(s).threads@, *final(cpu), r) == schedule_outcome(
            old(s).started,
            old(s).threads@,
            *old(cpu),
        ),
        old(s).same_but_threads(*final(s)),
{
    if !s.started {
        return None;
    }
    let next = pick_next(s, cpu);
    if next == cpu.current {
        return None;
    }
    let prev = cpu.current;
    let t = s.threads[next];
    let bit: u64 = 1u64 << (cpu.id as u64);
    s.threads[next] =
    Thread {
        on_cpu: Some(cpu.id),
        slices: t.slices.wrapping_add(1),
        cpus_seen: t.cpus_seen | bit,
        ..t
    };
    cpu.release_prev = Some(prev);
    cpu.cursor = next;
    cpu.current = next;
    cpu.switches = cpu.switches.wrapping_add(1);
    // Address space first: the new thread must not run a single instruction
    // against the old one's user mappings.
    let activate: Option<u64> = if t.ttbr0 != s.threads[prev].ttbr0 {
        Some(t.ttbr0)
    } else {
        None
    };
    Some(Switch { prev, next, activate })
}

/// The threads once a core has let go of the one it switched away from.
pub open spec fn let_go(ts: Seq<Thread>, prev: Option<usize>) -> Seq<Thread> {
    match prev {
        Some(p) => ts.update(p as int, Thread { on_cpu: None, ..ts[p as int] }),
        None => ts,
    }
}

/// Release the thread this core switched away from. Runs in the context of the
/// thread that was switched *to*, which is the first moment the previous
/// thread's saved context is complete.
pub fn finish_switch(s: &mut Scheduler, cpu: &mut Cpu)
    requires
        cpu_fits(*old(cpu), old(s).threads@.len()),
    ensures
        *final(cpu) == (Cpu { release_prev: None, ..*old(cpu) }),
        final(s).threads@ == let_go(old(s).threads@, old(cpu).release_prev),
        old(s).same_but_threads(*final(s)),
{
    match cpu.release_prev {
        None => {},
        Some(p) => {
            cpu.release_prev = None;
            let t = s.threads[p];
            s.threads[p] = Thread { on_cpu: None, ..t };
        },
    }
}

/// Make every sleeper that is due runnable.
fn wake_sleepers(s: &mut Scheduler, now: u64)
    ensures
        final(s).threads@ == woken_by_time(old(s).threads@, now),
        old(s).same_but_threads(*final(s)),
{
    let ghost ts = s.threads@;
    let mut i: usize = 0;
    while i < s.threads.len()
        invariant
            i <= s.threads@.len() == ts.len(),
            forall|k: int| 0 <= k < i ==> #[trigger] s.threads@[k] == woken_by_time(ts, now)[k],
            forall|k: int| i <= k < ts.len() ==> #[trigger] s.threads@[k] == ts[k],
            old(s).same_but_threads(*s),
        decreases ts.len() - i,
    {
        let t = s.threads[i];
        match t.state {
            State::Sleeping(until) => {
                if now >= until {
                    s.threads[i] = Thread { state: State::Runnable, ..t };
                }
            },
            _ => {},
        }
        i = i + 1;
    }
    assert(s.threads@ =~= woken_by_time(ts, now));
}

/// Called from each core's timer interrupt. Every tick is a preemption point.
pub fn tick(s: &mut Scheduler, cpu: &mut Cpu, now: u64) -> (r: Option<Switch>)
    requires
        old(s).wf(),
        cpu_fits(*old(cpu), old(s).threads@.len()),
    ensures
        final(s).wf(),
        cpu_fits(*final(cpu), final(s).threads@.len()),
        (final(s).threads@, *final(cpu), r) == schedule_outcome(
            old(s).started,
            woken_by_time(old(s).threads@, now),
            *old(cpu),
        ),
        old(s).same_but_threads(*final(s)),
{
    wake_sleepers(s, now);
    schedule(s, cpu)
}

/// Yield without waiting for the tick.
pub fn yield_now(s: &mut Scheduler, cpu: &mut Cpu) -> (r: Option<Switch>)
    requires
        old(s).wf(),
        cpu_fits(*old(cpu), old(s).threads@.len()),
    ensures
        final(s).wf(),
        cpu_fits(*final(cpu), final(s).threads@.len()),
        (final(s).threads@, *final(cpu), r) == schedule_outcome(
            old(s).started,
            old(s).threads@,
            *old(cpu),
        ),
        old(s).same_but_threads(*final(s)),
{
    schedule(s, cpu)
}

fn set_current_state(s: &mut Scheduler, cpu: &Cpu, state: State)
    requires
        cpu.current < old(s).threads@.len(),
    ensures
        final(s).threads@ == with_state(old(s).threads@, cpu.current as int, state),
        old(s).same_but_threads(*final(s)),
{
    let t = s.threads[cpu.current];
    s.threads[cpu.current] = Thread { state, ..t };
}

/// Take the running thread off the run queue for `ticks` scheduler ticks: the
/// tick at which it is due. The caller schedules until then.
pub fn sleep_ticks(s: &mut Scheduler, cpu: &Cpu, now: u64, ticks: u64) -> (until: u64)
    requires
        cpu.current < old(s).threads@.len(),
    ensures
        until == now.wrapping_add(ticks),
        final(s).threads@ == with_state(
            old(s).threads@,
            cpu.current as int,
            State::Sleeping(until),
        ),
        old(s).same_but_threads(*final(s)),
{
    let until: u64 = now.wrapping_add(ticks);
    set_current_state(s, cpu, State::Sleeping(until));
    until
}

/// Announce the intention to block, without giving up the CPU yet.
///
/// Blocking has to be done in two steps or wakeups get lost. The discipline is:
/// `prepare_block`, then re-check the condition, then either `cancel_block` or
/// give up the CPU. A wake arriving anywhere in that window makes the thread
/// runnable.
pub fn prepare_block(s: &mut Scheduler, cpu: &Cpu, token: u64)
    requires
        cpu.current < old(s).threads@.len(),
    ensures
        final(s).threads@ == with_state(
            old(s).threads@,
            cpu.current as int,
            State::Blocked(token),
        ),
        old(s).same_but_threads(*final(s)),
{
    set_current_state(s, cpu, State::Blocked(token));
}

/// Abandon a prepared block: the condition was satisfied after all.
pub fn cancel_block(s: &mut Scheduler, cpu: &Cpu)
    requires
        cpu.current < old(s).threads@.len(),
    ensures
        final(s).threads@ == (if old(s).threads@[cpu.current as int].state is Blocked {
            with_state(old(s).threads@, cpu.current as int, State::Runnable)
        } else {
            old(s).threads@
        }),
        old(s).same_but_threads(*final(s)),
{
    match s.threads[cpu.current].state {
        State::Blocked(_) => {
            set_current_state(s, cpu, State::Runnable);
        },
        _ => {},
    }
}

/// One turn of waiting for a prepared block: is the running thread still
/// blocked on `token`, so that the core must schedule again?
pub fn block(s: &Scheduler, cpu: &Cpu, token: u64) -> (still_blocked: bool)
    requires
        cpu.current < s.threads@.len(),
    ensures
        still_blocked == (s.threads@[cpu.current as int].state == State::Blocked(token)),
{
    s.threads[cpu.current].state == State::Blocked(token)
}

/// Prepare to block and take the first scheduling decision in one step. Only
/// safe where the condition cannot become true between the two.
pub fn block_on(s: &mut Scheduler, cpu: &mut Cpu, token: u64) -> (r: Option<Switch>)
    requires
        old(s).wf(),
        cpu_fits(*old(cpu), old(s).threads@.len()),
    ensures
        final(s).wf(),
        cpu_fits(*final(cpu), final(s).threads@.len()),
        (final(s).threads@, *final(cpu), r) == schedule_outcome(
            old(s).started,
            with_state(old(s).threads@, old(cpu).current as int, State::Blocked(token)),
            *old(cpu),
        ),
        old(s).same_but_threads(*final(s)),
{
    prepare_block(s, cpu, token);
    schedule(s, cpu)
}

/// Make every thread blocked on `token` runnable again.
pub fn wake_all_on(s: &mut Scheduler, token: u64)
    ensures
        final(s).threads@ == woken_on(old(s).threads@, token),
        old(s).same_but_threads(*final(s)),
{
    let ghost ts = s.threads@;
    let mut i: usize = 0;
    while i < s.threads.len()
        invariant
            i <= s.threads@.len() == ts.len(),
            forall|k: int| 0 <= k < i ==> #[trigger] s.threads@[k] == woken_on(ts, token)[k],
            forall|k: int| i <= k < ts.len() ==> #[trigger] s.threads@[k] == ts[k],
            old(s).same_but_threads(*s),
        decreases ts.len() - i,
    {
        let t = s.threads[i];
        if t.state == State::Blocked(token) {
            s.threads[i] = Thread { state: State::Runnable, ..t };
        }
        i = i + 1;
    }
    assert(s.threads@ =~= woken_on(ts, token));
}

/// Bind a thread to a process, so its syscalls resolve against that process's
/// capability table and its user mappings are installed when it is scheduled.
pub fn attach_process(s: &mut Scheduler, tid: usize, pid: usize, ttbr0: u64)
    ensures
        final(s).threads@ == (if tid < old(s).threads@.len() {
            old(s).threads@.update(
                tid as int,
                Thread { pid: Some(pid), ttbr0, ..old(s).threads@[tid as int] },
            )
        } else {
            old(s).threads@
        }),
        old(s).same_but_threads(*final(s)),
{
    if tid < s.threads.len() {
        let t = s.threads[tid];
        s.threads[tid] = Thread { pid: Some(pid), ttbr0, ..t };
    }
}

/// Process the running thread belongs to.
pub fn current_pid(s: &Scheduler, cpu: &Cpu) -> (r: Option<usize>)
    requires
        cpu.current < s.threads@.len(),
    ensures
        r == s.threads@[cpu.current as int].pid,
{
    s.threads[cpu.current].pid
}

/// Name of the running thread.
pub fn current_name(s: &Scheduler, cpu: &Cpu) -> (r: &'static str)
    requires
        cpu.current < s.threads@.len(),
    ensures
        r == s.threads@[cpu.current as int].name,
{
    s.threads[cpu.current].name
}

/// Mark the running thread finished. The core schedules and never comes back.
pub fn thread_exit(s: &mut Scheduler, cpu: &Cpu)
    requires
        cpu.current < old(s).threads@.len(),
    ensures
        final(s).threads@ == with_state(old(s).threads@, cpu.current as int, State::Finished),
        old(s).same_but_threads(*final(s)),
{
    set_current_state(s, cpu, State::Finished);
}

/// Hand every thread to `f`, in the order of the table.
pub fn for_each<F: Fn(&Thread)>(s: &Scheduler, f: F)
    requires
        forall|i: int|
            0 <= i < s.threads@.len() ==> call_requires(f, (&#[trigger] s.threads@[i],)),
    ensures
        forall|i: int|
            0 <= i < s.threads@.len() ==> call_ensures(f, (&#[trigger] s.threads@[i],), ()),
{
    let mut i: usize = 0;
    while i < s.threads.len()
        invariant
            i <= s.threads@.len(),
            forall|k: int|
                0 <= k < s.threads@.len() ==> call_requires(f, (&#[trigger] s.threads@[k],)),
            forall|k: int| 0 <= k < i ==> call_ensures(f, (&#[trigger] s.threads@[k],), ()),
        decreases s.threads@.len() - i,
    {
        f(&s.threads[i]);
        i = i + 1;
    }
}

/// An idle core woke: count it.
pub fn idle_woke(s: &mut Scheduler)
    ensures
        final(s).idle_wakeups == old(s).idle_wakeups.wrapping_add(1),
        final(s).threads == old(s).threads,
        final(s).started == old(s).started,
        final(s).trampoline == old(s).trampoline,
        final(s).empty_ttbr0 == old(s).empty_ttbr0,
{
    s.idle_wakeups = s.idle_wakeups.wrapping_add(1);
}

/// How many times an idle thread has woken, across all cores.
pub fn idle_wakeups(s: &Scheduler) -> (n: u64)
    ensures
        n == s.idle_wakeups,
{
    s.idle_wakeups
}

/// Whether any core could run something, and when the earliest sleeper is due.
pub open spec fn forecast(
    ts: Seq<Thread>,
    work: bool,
    due: Option<u64>,
) -> bool {
    &&& work == exists|i: int|
        0 <= i < ts.len() && (#[trigger] ts[i]).affinity is None
            && ts[i].state == State::Runnable
    &&& match due {
        Some(at) => {
            &&& exists|i: int|
                0 <= i < ts.len() && (#[trigger] ts[i]).state
                    == State::Sleeping(at)
            &&& forall|i: int|
                0 <= i < ts.len() ==> ((#[trigger] ts[i]).state matches State::Sleeping(
                t,
            ) ==> at <= t)
        },
        None => forall|i: int|
            0 <= i < ts.len() ==> !((#[trigger] ts[i]).state is Sleeping),
    }
}

/// What a core that has nothing to run has to expect: whether a thread that any core may
/// take is waiting for one, and when the earliest sleeper is due.
pub fn outlook(s: &Scheduler) -> (r: (bool, Option<u64>))
    ensures
        forecast(s.threads@, r.0, r.1),
{
    let mut waiting = false;
    let mut due: Option<u64> = None;
    let mut i: usize = 0;
    while i < s.threads.len()
        invariant
            i <= s.threads@.len(),
            waiting == exists|k: int|
                0 <= k < i && (#[trigger] s.threads@[k]).affinity is None && s.threads@[k].state
                    == State::Runnable,
            match due {
                Some(d) => {
                    &&& exists|k: int|
                        0 <= k < i && (#[trigger] s.threads@[k]).state == State::Sleeping(d)
                    &&& forall|k: int|
                        0 <= k < i ==> ((#[trigger] s.threads@[k]).state matches State::Sleeping(
                        t,
                    ) ==> d <= t)
                },
                None => forall|k: int|
                    0 <= k < i ==> !((#[trigger] s.threads@[k]).state is Sleeping),
            },
        decreases s.threads@.len() - i,
    {
        match s.threads[i].state {
            State::Runnable => {
                if s.threads[i].affinity.is_none() {
                    assert(s.threads@[i as int].affinity is None);
                    waiting = true;
                }
            },
            State::Sleeping(t) => {
                assert(s.threads@[i as int].state == State::Sleeping(t));
                due =
                match due {
                    Some(d) => if d <= t {
                        Some(d)
                    } else {
                        Some(t)
                    },
                    None => Some(t),
                };
            },
            _ => {},
        }
        i = i + 1;
    }
    (waiting, due)
}

/// Threads that have not finished, excluding idle threads.
pub fn live_count(s: &Scheduler) -> (n: usize)
    ensures
        n == s.threads@.filter(|t: Thread| is_live(t)).len(),
{
    let ghost live = |t: Thread| is_live(t);
    let mut n: usize = 0;
    let mut i: usize = 0;
    assert(s.threads@.take(0) =~= Seq::empty());
    proof {
        reveal(Seq::filter);
    }
    while i < s.threads.len()
        invariant
            i <= s.threads@.len(),
            n <= i,
            live == (|t: Thread| is_live(t)),
            n == s.threads@.take(i as int).filter(live).len(),
        decreases s.threads@.len() - i,
    {
        proof {
            reveal(Seq::filter);
            assert(s.threads@.take(i + 1).drop_last() =~= s.threads@.take(i as int));
        }
        let t = s.threads[i];
        if t.affinity.is_none() && t.state != State::Finished {
            n = n + 1;
        }
        i = i + 1;
    }
    assert(s.threads@.take(i as int) =~= s.threads@);
    n
}

} // verus!
