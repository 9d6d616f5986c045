//! What the scheduler promises as a whole.
use vstd::prelude::*;
use crate::sched::{State, Thread};
use crate::smp::Cpu;

verus! {

/// How many places after the core's cursor thread `i` comes: 0 for the next one.
pub open spec fn distance(cursor: int, i: int, n: int) -> int {
    if i > cursor {
        i - cursor - 1
    } else {
        i + n - cursor - 1
    }
}

proof fn lemma_step_reaches(cursor: int, i: int, n: int)
    requires
        0 <= cursor < n,
        0 <= i < n,
    ensures
        0 <= distance(cursor, i, n) < n,
        (cursor + distance(cursor, i, n) + 1) % n == i,
{
    if i > cursor {
        assert((cursor + distance(cursor, i, n) + 1) == i);
        vstd::arithmetic::div_mod::lemma_small_mod(i as nat, n as nat);
    } else {
        assert((cursor + distance(cursor, i, n) + 1) == i + n);
        vstd::arithmetic::div_mod::lemma_mod_add_multiples_vanish(i, n);
        vstd::arithmetic::div_mod::lemma_small_mod(i as nat, n as nat);
    }
}

proof fn lemma_step_is(cursor: int, step: int, n: int)
    requires
        0 <= cursor < n,
        1 <= step <= n,
    ensures
        0 <= (cursor + step) % n < n,
        distance(cursor, (cursor + step) % n, n) == step - 1,
{
    if cursor + step < n {
        vstd::arithmetic::div_mod::lemma_small_mod((cursor + step) as nat, n as nat);
    } else {
        let i = cursor + step - n;
        vstd::arithmetic::div_mod::lemma_mod_add_multiples_vanish(i, n);
        vstd::arithmetic::div_mod::lemma_small_mod(i as nat, n as nat);
    }
}

proof fn lemma_scan(ts: Seq<Thread>, cpu: Cpu, step: int)
    requires
        ts.len() > 0,
        cpu.cursor < ts.len(),
        1 <= step <= ts.len() + 1,
    ensures
        match crate::sched::scan_from(ts, cpu, step) {
            Some(i) => {
                &&& 0 <= i < ts.len()
                &&& crate::sched::candidate(ts, cpu, i)
                &&& distance(cpu.cursor as int, i, ts.len() as int) >= step - 1
                &&& forall|t: int|
                    0 <= t < ts.len() && #[trigger] crate::sched::candidate(ts, cpu, t)
                        && distance(cpu.cursor as int, t, ts.len() as int) >= step - 1
                        ==> distance(cpu.cursor as int, i, ts.len() as int) <= distance(
                        cpu.cursor as int,
                        t,
                        ts.len() as int,
                    )
            },
            None => forall|t: int|
                0 <= t < ts.len() && distance(cpu.cursor as int, t, ts.len() as int) >= step - 1
                    ==> !#[trigger] crate::sched::candidate(ts, cpu, t),
        },
    decreases ts.len() + 1 - step,
{
    let n = ts.len() as int;
    let c = cpu.cursor as int;
    if step <= n {
        let i = (c + step) % n;
        lemma_step_is(c, step, n);
        if !crate::sched::candidate(ts, cpu, i) {
            lemma_scan(ts, cpu, step + 1);
            assert forall|t: int|
                0 <= t < n && #[trigger] crate::sched::candidate(ts, cpu, t) && distance(c, t, n)
                    >= step - 1 implies distance(c, t, n) >= step by {
                lemma_step_reaches(c, t, n);
                if distance(c, t, n) == step - 1 {
                    assert(t == i);
                }
            }
        }
    } else {
        assert forall|t: int| 0 <= t < n implies distance(c, t, n) < step - 1 by {
            lemma_step_reaches(c, t, n);
        }
    }
}

/// A core only ever takes up a thread that is runnable, running nowhere else,
/// and not pinned to another core — or, failing that, its own idle thread.
pub proof fn only_free_runnable_threads_are_picked(ts: Seq<Thread>, cpu: Cpu)
    requires
        crate::sched::cpu_fits(cpu, ts.len()),
    ensures
        ({
            let next = crate::sched::picked(ts, cpu);
            &&& 0 <= next < ts.len()
            &&& next == cpu.current || next == cpu.idle || crate::sched::is_eligible(
                ts[next],
                cpu.id,
            )
            &&& next == cpu.current && next != cpu.idle ==> ts[next].state == State::Runnable
        }),
{
    lemma_scan(ts, cpu, 1);
}

/// No waiting thread is passed over: of all the threads a core could take up, it
/// takes the one that comes soonest after its cursor.
pub proof fn the_nearest_candidate_is_picked(ts: Seq<Thread>, cpu: Cpu, t: int)
    requires
        crate::sched::cpu_fits(cpu, ts.len()),
        0 <= t < ts.len(),
        crate::sched::candidate(ts, cpu, t),
    ensures
        ({
            let next = crate::sched::picked(ts, cpu);
            &&& crate::sched::candidate(ts, cpu, next)
            &&& distance(cpu.cursor as int, next, ts.len() as int) <= distance(
                cpu.cursor as int,
                t,
                ts.len() as int,
            )
        }),
{
    lemma_scan(ts, cpu, 1);
    lemma_step_reaches(cpu.cursor as int, t, ts.len() as int);
}

/// Round-robin is fair: each time a core takes up another thread while `t` is a
/// candidate, `t` comes strictly closer to being next. So `t` waits for fewer
/// switches than there are threads.
pub proof fn a_waiting_thread_comes_closer(started: bool, ts: Seq<Thread>, cpu: Cpu, t: int)
    requires
        started,
        ts.len() <= usize::MAX,
        crate::sched::cpu_fits(cpu, ts.len()),
        0 <= t < ts.len(),
        crate::sched::candidate(ts, cpu, t),
    ensures
        ({
            let (ts2, cpu2, r) = crate::sched::schedule_outcome(started, ts, cpu);
            &&& r is Some
            &&& cpu2.current == t || distance(cpu2.cursor as int, t, ts.len() as int) < distance(
                cpu.cursor as int,
                t,
                ts.len() as int,
            )
        }),
{
    the_nearest_candidate_is_picked(ts, cpu, t);
    only_free_runnable_threads_are_picked(ts, cpu);
}

/// A core runs the thread it claims to, and its idle thread is its alone.
pub open spec fn runs(ts: Seq<Thread>, cpu: Cpu) -> bool {
    &&& ts.len() <= usize::MAX
    &&& crate::sched::cpu_fits(cpu, ts.len())
    &&& ts[cpu.current as int].on_cpu == Some(cpu.id)
    &&& ts[cpu.idle as int].affinity == Some(cpu.id)
    &&& ts[cpu.idle as int].on_cpu is None || ts[cpu.idle as int].on_cpu == Some(cpu.id)
    &&& match cpu.release_prev {
        Some(p) => p != cpu.current && ts[p as int].on_cpu == Some(cpu.id),
        None => true,
    }
}

/// No two cores ever run the same thread: a scheduling decision on one core
/// leaves every other core running what it ran, and never takes that thread up.
pub proof fn two_cores_never_run_one_thread(started: bool, ts: Seq<Thread>, cpu: Cpu, other: Cpu)
    requires
        runs(ts, cpu),
        runs(ts, other),
        cpu.id != other.id,
        cpu.release_prev is None,
    ensures
        ({
            let (ts2, cpu2, r) = crate::sched::schedule_outcome(started, ts, cpu);
            &&& runs(ts2, cpu2)
            &&& runs(ts2, other)
            &&& cpu2.current != other.current
            &&& other.release_prev matches Some(p) ==> cpu2.current != p
        }),
{
    only_free_runnable_threads_are_picked(ts, cpu);
}

/// Releasing the thread a core switched away from leaves every core running what
/// it ran, and makes that thread free for any core to take up.
pub proof fn releasing_keeps_every_core_running(ts: Seq<Thread>, cpu: Cpu, other: Cpu)
    requires
        runs(ts, cpu),
        runs(ts, other),
        cpu.id != other.id,
        cpu.release_prev is Some,
    ensures
        ({
            let p = cpu.release_prev->0;
            let ts2 = ts.update(p as int, Thread { on_cpu: None, ..ts[p as int] });
            &&& runs(ts2, Cpu { release_prev: None, ..cpu })
            &&& runs(ts2, other)
            &&& ts2[p as int].on_cpu is None
        }),
{
}

/// A wake that lands between preparing to block and giving up the CPU is not
/// lost: the thread is runnable again and will not wait for a second one.
pub proof fn a_wake_after_preparing_is_not_lost(ts: Seq<Thread>, i: int, token: u64)
    requires
        0 <= i < ts.len(),
    ensures
        crate::sched::woken_on(
            crate::sched::with_state(ts, i, State::Blocked(token)),
            token,
        )[i].state == State::Runnable,
{
}

/// A thread that is stopped, asleep, blocked or finished is never a candidate.
pub proof fn only_runnable_threads_are_candidates(ts: Seq<Thread>, cpu: Cpu, i: int)
    requires
        0 <= i < ts.len(),
        ts[i].state != State::Runnable,
    ensures
        !crate::sched::candidate(ts, cpu, i),
{
}

// ---- a decision, in terms of the threads themselves -----------------------------------------

/// Thread `i` is there for core `cpu` to take up: it can run, it runs nowhere, it is not
/// pinned to another core, and it is neither what the core runs nor what it idles with.
pub open spec fn free_for(ts: Seq<Thread>, cpu: Cpu, i: int) -> bool {
    &&& 0 <= i < ts.len()
    &&& i != cpu.idle && i != cpu.current
    &&& ts[i].state == State::Runnable
    &&& ts[i].on_cpu == None::<usize>
    &&& ts[i].affinity == None::<usize> || ts[i].affinity == Some(cpu.id)
}

/// The user space that is installed on a core once a switch has been made.
pub open spec fn installed_after(installed: u64, r: Option<crate::sched::Switch>) -> u64 {
    match r {
        Some(sw) => match sw.activate {
            Some(space) => space,
            None => installed,
        },
        None => installed,
    }
}

/// What a core runs after a decision. A thread that is free for it is taken up, the one
/// that comes soonest after its cursor; with none, what it runs goes on if it can, and the
/// core idles if not. Before the scheduler has started nothing happens.
pub proof fn what_a_core_runs_next(started: bool, ts: Seq<Thread>, cpu: Cpu)
    requires
        ts.len() <= usize::MAX,
        crate::sched::cpu_fits(cpu, ts.len()),
    ensures
        ({
            let (ts2, cpu2, r) = crate::sched::schedule_outcome(started, ts, cpu);
            let n = ts.len() as int;
            let next = cpu2.current as int;
            let work = exists|i: int| free_for(ts, cpu, i);
            &&& !started ==> ts2 == ts && cpu2 == cpu && r is None
            &&& started && work ==> {
                &&& r is Some
                &&& free_for(ts, cpu, next)
                &&& forall|i: int| #[trigger]
                    free_for(ts, cpu, i) ==> distance(cpu.cursor as int, next, n) <= distance(
                        cpu.cursor as int,
                        i,
                        n,
                    )
            }
            &&& started && !work ==> next == if ts[cpu.current as int].state == State::Runnable {
                cpu.current as int
            } else {
                cpu.idle as int
            } || (cpu.current == cpu.idle && next == cpu.idle)
            &&& r is None <==> next == cpu.current
            &&& r is None ==> ts2 == ts && cpu2 == cpu
        }),
{
    let (ts2, cpu2, r) = crate::sched::schedule_outcome(started, ts, cpu);
    lemma_scan(ts, cpu, 1);
    assert forall|i: int| #[trigger] free_for(ts, cpu, i) implies crate::sched::candidate(
        ts,
        cpu,
        i,
    ) by {}
    assert forall|i: int|
        0 <= i < ts.len() && #[trigger] crate::sched::candidate(ts, cpu, i) implies free_for(
        ts,
        cpu,
        i,
    ) by {}
    assert forall|i: int| 0 <= i < ts.len() implies distance(
        cpu.cursor as int,
        i,
        ts.len() as int,
    ) >= 0 by {
        lemma_step_reaches(cpu.cursor as int, i, ts.len() as int);
    }
    if started {
        match crate::sched::scan_from(ts, cpu, 1) {
            Some(k) => {
                assert(free_for(ts, cpu, k));
            },
            None => {},
        }
    }
}

/// What a switch leaves: the core has taken up the next thread and remembers the one it
/// left, which stays claimed. Nothing but the thread taken up has changed, and of that only
/// who runs it, how often it has run and where.
pub proof fn what_a_switch_leaves(started: bool, ts: Seq<Thread>, cpu: Cpu)
    requires
        ts.len() <= usize::MAX,
        crate::sched::cpu_fits(cpu, ts.len()),
        crate::sched::schedule_outcome(started, ts, cpu).2 is Some,
    ensures
        ({
            let (ts2, cpu2, r) = crate::sched::schedule_outcome(started, ts, cpu);
            let sw = r->0;
            let old_thread = ts[sw.next as int];
            let new_thread = ts2[sw.next as int];
            &&& sw.prev == cpu.current
            &&& sw.next != sw.prev
            &&& sw.next < ts.len()
            &&& cpu2.current == sw.next
            &&& cpu2.cursor == sw.next
            &&& cpu2.release_prev == Some(sw.prev)
            &&& cpu2.id == cpu.id
            &&& cpu2.idle == cpu.idle
            &&& cpu2.switches == cpu.switches.wrapping_add(1)
            &&& cpu2.ticks == cpu.ticks
            &&& ts2.len() == ts.len()
            &&& forall|i: int| 0 <= i < ts.len() && i != sw.next ==> #[trigger] ts2[i] == ts[i]
            &&& new_thread.on_cpu == Some(cpu.id)
            &&& new_thread.slices == old_thread.slices.wrapping_add(1)
            &&& new_thread == (Thread {
                on_cpu: new_thread.on_cpu,
                slices: new_thread.slices,
                cpus_seen: new_thread.cpus_seen,
                ..old_thread
            })
            // It has been seen on this core, and on those it was seen on before.
            &&& forall|core: u64|
                core < 64 ==> (#[trigger] (new_thread.cpus_seen >> core) & 1 == 1) == (core
                    == cpu.id || (old_thread.cpus_seen >> core) & 1 == 1)
        }),
{
    let sw = crate::sched::schedule_outcome(started, ts, cpu).2->0;
    what_a_core_runs_next(started, ts, cpu);
    only_free_runnable_threads_are_picked(ts, cpu);
    let seen = ts[sw.next as int].cpus_seen;
    assert forall|core: u64| core < 64 implies (#[trigger] ((seen | (1u64 << (cpu.id as u64)))
        >> core) & 1 == 1) == (core == cpu.id || (seen >> core) & 1 == 1) by {
        lemma_bit_set(seen, cpu.id as u64, core);
    }
}

proof fn lemma_bit_set(seen: u64, id: u64, core: u64)
    by (bit_vector)
    requires
        id < 64,
        core < 64,
    ensures
        (((seen | (1u64 << id)) >> core) & 1 == 1) == (core == id || (seen >> core) & 1 == 1),
{
}

/// A thread never runs in another's address space: if the user space installed on a core is
/// that of the thread it runs, it is so again after any decision — a yield or a plain
/// decision, a tick, a thread that blocks, goes to sleep or is finished.
pub proof fn a_thread_runs_in_its_own_address_space(
    started: bool,
    ts: Seq<Thread>,
    cpu: Cpu,
    installed: u64,
    now: u64,
    state: State,
)
    requires
        ts.len() <= usize::MAX,
        crate::sched::cpu_fits(cpu, ts.len()),
        installed == ts[cpu.current as int].ttbr0,
    ensures
        ({
            let (ts2, cpu2, r) = crate::sched::schedule_outcome(started, ts, cpu);
            installed_after(installed, r) == ts2[cpu2.current as int].ttbr0
        }),
        ({
            let (ts2, cpu2, r) = crate::sched::schedule_outcome(
                started,
                crate::sched::woken_by_time(ts, now),
                cpu,
            );
            installed_after(installed, r) == ts2[cpu2.current as int].ttbr0
        }),
        ({
            let (ts2, cpu2, r) = crate::sched::schedule_outcome(
                started,
                crate::sched::with_state(ts, cpu.current as int, state),
                cpu,
            );
            installed_after(installed, r) == ts2[cpu2.current as int].ttbr0
        }),
{
    lemma_installed(started, ts, cpu, installed);
    lemma_installed(started, crate::sched::woken_by_time(ts, now), cpu, installed);
    lemma_installed(
        started,
        crate::sched::with_state(ts, cpu.current as int, state),
        cpu,
        installed,
    );
}

proof fn lemma_installed(started: bool, ts: Seq<Thread>, cpu: Cpu, installed: u64)
    requires
        ts.len() <= usize::MAX,
        crate::sched::cpu_fits(cpu, ts.len()),
        installed == ts[cpu.current as int].ttbr0,
    ensures
        ({
            let (ts2, cpu2, r) = crate::sched::schedule_outcome(started, ts, cpu);
            installed_after(installed, r) == ts2[cpu2.current as int].ttbr0
        }),
{
    only_free_runnable_threads_are_picked(ts, cpu);
}

/// A switch from one process to another always installs something, and what it installs is
/// never the space that was left.
pub proof fn a_change_of_process_changes_the_address_space(
    started: bool,
    ts: Seq<Thread>,
    cpu: Cpu,
)
    requires
        ts.len() <= usize::MAX,
        crate::sched::cpu_fits(cpu, ts.len()),
        crate::sched::schedule_outcome(started, ts, cpu).2 is Some,
        ({
            let sw = crate::sched::schedule_outcome(started, ts, cpu).2->0;
            ts[sw.prev as int].ttbr0 != ts[sw.next as int].ttbr0
        }),
    ensures
        ({
            let sw = crate::sched::schedule_outcome(started, ts, cpu).2->0;
            sw.activate == Some(ts[sw.next as int].ttbr0)
        }),
{
    only_free_runnable_threads_are_picked(ts, cpu);
}

/// A tick wakes exactly the sleepers whose time has come; a wake on a token exactly those
/// blocked on it. Neither touches anything else of any thread.
pub proof fn a_wake_reaches_exactly_who_waits(ts: Seq<Thread>, now: u64, token: u64, i: int)
    requires
        0 <= i < ts.len(),
    ensures
        ({
            let a = crate::sched::woken_by_time(ts, now);
            let b = crate::sched::woken_on(ts, token);
            &&& a.len() == ts.len() && b.len() == ts.len()
            &&& a[i] == (Thread { state: a[i].state, ..ts[i] })
            &&& b[i] == (Thread { state: b[i].state, ..ts[i] })
            &&& forall|until: u64|
                ts[i].state == State::Sleeping(until) ==> (if until <= now {
                    a[i].state == State::Runnable
                } else {
                    a[i].state == State::Sleeping(until)
                })
            &&& !(ts[i].state is Sleeping) ==> a[i].state == ts[i].state
            &&& ts[i].state == State::Blocked(token) ==> b[i].state == State::Runnable
            &&& ts[i].state != State::Blocked(token) ==> b[i].state == ts[i].state
        }),
{
}

/// A thread that goes to sleep for some ticks is not run before they have passed, and can
/// be run from the first tick after on; meanwhile no wake on a token rouses it.
pub proof fn a_sleeper_sleeps_its_time(
    ts: Seq<Thread>,
    i: int,
    now: u64,
    ticks: u64,
    later: u64,
    token: u64,
)
    requires
        0 <= i < ts.len(),
        now + ticks <= u64::MAX,
    ensures
        ({
            let asleep = crate::sched::with_state(
                ts,
                i,
                State::Sleeping(now.wrapping_add(ticks)),
            );
            &&& crate::sched::woken_by_time(asleep, later)[i].state == State::Runnable <==> later
                >= now + ticks
            &&& crate::sched::woken_on(asleep, token)[i].state != State::Runnable
        }),
{
}

/// Letting go of a thread after a switch releases that thread and no other, and changes nothing
/// else of it: from then on another core may take it.
pub proof fn letting_go_releases_one_thread(ts: Seq<Thread>, prev: Option<usize>, k: int)
    requires
        prev matches Some(p) ==> p < ts.len(),
        0 <= k < ts.len(),
    ensures
        ({
            let after = crate::sched::let_go(ts, prev);
            &&& after.len() == ts.len()
            &&& prev is Some && prev->0 == k ==> after[k].on_cpu is None
            &&& !(prev is Some && prev->0 == k) ==> after[k] == ts[k]
            &&& after[k].state == ts[k].state && after[k].pid == ts[k].pid && after[k].ttbr0
                == ts[k].ttbr0 && after[k].ctx == ts[k].ctx && after[k].affinity
                == ts[k].affinity && after[k].slices == ts[k].slices && after[k].cpus_seen
                == ts[k].cpus_seen
        }),
{
}

/// A new thread starts where it was told to, with its argument, on the top of its own stack, in
/// the empty address space and on no core.
pub proof fn a_thread_starts_where_it_was_told_to(
    t: Thread,
    s: crate::sched::Scheduler,
    id: usize,
    name: &'static str,
    entry: u64,
    arg: u64,
    affinity: Option<usize>,
    stack: u64,
    state: State,
    i: int,
)
    requires
        crate::sched::created(t, s, id, name, entry, arg, affinity, stack, state),
        2 <= i < 10,
    ensures
        t.ctx.regs@[0] == entry,
        t.ctx.regs@[1] == arg,
        t.ctx.regs@[i] == 0,
        t.ctx.x30 == s.trampoline,
        t.ctx.sp - stack - crate::mm::PHYS_OFFSET == crate::sched::STACK_BYTES,
        t.stack_phys == stack,
        t.on_cpu is None && t.pid is None && t.ttbr0 == s.empty_ttbr0,
        t.affinity == affinity && t.state == state && t.id == id && t.name == name,
        t.slices == 0 && t.cpus_seen == 0,
{
}

} // verus!
