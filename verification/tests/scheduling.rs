//! Threads, cores, interrupts, the clock and the accelerator's queue.
use jungey::devices::{find_virtio, virtio_slots, DeviceNode, Slot, MAGIC_VALUE, VIRTIO_BLOCK, VIRTIO_INPUT};
use jungey::exceptions::{
    describe, fault_status, is_irq, names_an_address, rust_exception, vector_name, Route,
};
use jungey::gic::{
    acknowledge, awake, disable_spi, enable_ppi, enable_spi, find_redistributor, init_this_cpu,
    lines, waking, Access, GICD_CTLR, GICD_ICENABLER, GICD_ISENABLER, GICR_ISENABLER0,
};
use jungey::irq::{register, register_user, sequence, Action, Irqs};
use jungey::sched::{
    adopt_as_idle, attach_process, block, block_on, cancel_block, eligible, finish_switch,
    idle_wakeups, idle_woke, live_count, pick_next, prepare_block, schedule, sleep_ticks, spawn,
    spawn_pinned, spawn_stopped, thread_exit, tick, wake_all_on, yield_now, Context, Scheduler,
    State, Switch,
};
use jungey::smp::{
    cpu_on_accepted, discovered_count, init_boot_cpu, mpidr, online_count, online_wait, phys_of,
    psci_method, psci_method_name, secondary_online, start_cpu, virt_of, BootDescriptor, Cpu,
    Machine, PsciMethod,
};
use jungey::tensor::{
    finished_or_prepare, pick, run_segment, segment_cost_us, segment_done, submit, totals, worker,
    Device, JobState, Qos, Reject,
};
use jungey::time::{
    arm_next, now_us, set_tickless, tickless, ticks, timer_irqs, took_interrupt, uptime_ms, Clock,
};

fn machine() -> (Scheduler, Cpu) {
    let mut s = Scheduler::new(0x9000, 0x4000);
    let mut cpu = Cpu::new();
    jungey::sched::init(&mut s, &mut cpu, 0x8000, 0x1_0000);
    (s, cpu)
}

#[test]
fn the_boot_context_becomes_the_first_thread() {
    let (s, cpu) = machine();
    assert_eq!(s.threads.len(), 2);
    assert_eq!((s.threads[0].name, s.threads[1].name), ("boot", "idle0"));
    assert_eq!((cpu.current, cpu.idle), (0, 1));
    assert_eq!(s.threads[0].on_cpu, Some(0));
    assert_eq!(s.threads[1].affinity, Some(0));
    assert_eq!(s.threads[1].ctx.x30, 0x9000);
    assert_eq!(s.threads[1].ctx.sp, 0xFFFF_0000_0000_0000 + 0x1_0000 + 16384);
    assert_eq!(live_count(&s), 1);
}

#[test]
fn a_context_starts_at_the_trampoline() {
    let c = Context::new(1, 2, 3, 4);
    assert_eq!((c.x30, c.regs[0], c.regs[1], c.sp), (1, 2, 3, 4));
    let e = Context::empty();
    assert_eq!((e.x29, e.x30, e.sp, e.regs), (0, 0, 0, [0; 10]));
}

#[test]
fn states_have_labels() {
    assert_eq!(State::New.label(), "new");
    assert_eq!(State::Runnable.label(), "runnable");
    assert_eq!(State::Sleeping(3).label(), "sleeping");
    assert_eq!(State::Blocked(3).label(), "blocked");
    assert_eq!(State::Finished.label(), "finished");
}

#[test]
fn threads_take_turns() {
    let (mut s, mut cpu) = machine();
    let a = spawn(&mut s, "a", 0, 0, Some(0x2_0000)).unwrap();
    let b = spawn(&mut s, "b", 0, 0, Some(0x3_0000)).unwrap();
    assert_eq!((a, b), (2, 3));
    let mut order = Vec::new();
    for _ in 0..6 {
        assert!(yield_now(&mut s, &mut cpu).is_some());
        finish_switch(&mut s, &mut cpu);
        order.push(cpu.current);
    }
    assert_eq!(order, [2, 3, 0, 2, 3, 0]);
    assert_eq!(s.threads[a].slices, 2);
    assert_eq!(cpu.switches, 6);
}

#[test]
fn a_thread_is_claimed_until_the_switch_is_over() {
    let (mut s, mut cpu) = machine();
    let a = spawn(&mut s, "a", 0, 0, Some(0x2_0000)).unwrap();
    attach_process(&mut s, a, 4, 0x7000);
    let sw = schedule(&mut s, &mut cpu);
    assert_eq!(sw, Some(Switch { prev: 0, next: a, activate: Some(0x7000) }));
    // The boot thread is still claimed: a second core may not pick it up.
    let mut other = Cpu::new();
    other.id = 1;
    adopt_as_idle(&mut s, &mut other, 1);
    assert!(!eligible(&s.threads[0], 1));
    assert_eq!(pick_next(&s, &other), other.idle);
    finish_switch(&mut s, &mut cpu);
    assert_eq!(cpu.release_prev, None);
    assert!(eligible(&s.threads[0], 1));
    assert_eq!(pick_next(&s, &other), 0);
}

#[test]
fn two_cores_run_two_threads() {
    let (mut s, mut zero) = machine();
    let a = spawn(&mut s, "a", 0, 0, Some(0x2_0000)).unwrap();
    let mut one = Cpu::new();
    one.id = 1;
    adopt_as_idle(&mut s, &mut one, 1);
    assert_eq!(s.threads[one.idle].name, "idle1");
    schedule(&mut s, &mut zero);
    finish_switch(&mut s, &mut zero);
    schedule(&mut s, &mut one);
    finish_switch(&mut s, &mut one);
    assert_eq!((zero.current, one.current), (a, 0));
    assert_eq!(s.threads[0].cpus_seen, 0b11);
}

#[test]
fn a_stopped_thread_does_not_run() {
    let (mut s, cpu) = machine();
    let a = spawn_stopped(&mut s, "a", 5, 6, Some(0x2_0000)).unwrap();
    assert_eq!(s.threads[a].state, State::New);
    assert_eq!(pick_next(&s, &cpu), 0);
    jungey::sched::start(&mut s, a);
    assert_eq!(pick_next(&s, &cpu), a);
    jungey::sched::start(&mut s, 99);
    assert_eq!(spawn_stopped(&mut s, "b", 0, 0, None), None);
}

#[test]
fn a_pinned_thread_stays_on_its_core() {
    let (mut s, cpu) = machine();
    let a = spawn_pinned(&mut s, "a", 0, 0, Some(3), Some(0x2_0000)).unwrap();
    jungey::sched::start(&mut s, a);
    assert!(eligible(&s.threads[a], 3));
    assert!(!eligible(&s.threads[a], 0));
    assert_eq!(pick_next(&s, &cpu), 0);
}

#[test]
fn a_sleeper_wakes_when_it_is_due() {
    let (mut s, mut cpu) = machine();
    assert_eq!(sleep_ticks(&mut s, &cpu, 100, 5), 105);
    assert_eq!(tick(&mut s, &mut cpu, 104).map(|w| w.next), Some(1));
    finish_switch(&mut s, &mut cpu);
    assert_eq!(s.threads[0].state, State::Sleeping(105));
    assert_eq!(tick(&mut s, &mut cpu, 105).map(|w| w.next), Some(0));
    assert_eq!(s.threads[0].state, State::Runnable);
}

#[test]
fn a_wake_after_preparing_is_not_lost() {
    let (mut s, mut cpu) = machine();
    prepare_block(&mut s, &cpu, 42);
    assert_eq!(s.threads[0].state, State::Blocked(42));
    wake_all_on(&mut s, 41);
    assert!(block(&s, &cpu, 42));
    wake_all_on(&mut s, 42);
    assert!(!block(&s, &cpu, 42));
    prepare_block(&mut s, &cpu, 42);
    cancel_block(&mut s, &cpu);
    assert_eq!(s.threads[0].state, State::Runnable);
    assert_eq!(block_on(&mut s, &mut cpu, 7).map(|w| w.next), Some(1));
    assert_eq!(s.threads[0].state, State::Blocked(7));
}

#[test]
fn a_finished_thread_is_no_work() {
    let (mut s, mut cpu) = machine();
    spawn(&mut s, "a", 0, 0, Some(0x2_0000));
    assert_eq!(live_count(&s), 2);
    thread_exit(&mut s, &cpu);
    assert_eq!(s.threads[0].state, State::Finished);
    assert_eq!(live_count(&s), 1);
    assert_eq!(schedule(&mut s, &mut cpu).map(|w| w.next), Some(2));
    idle_woke(&mut s);
    assert_eq!(idle_wakeups(&s), 1);
    jungey::sched::for_each(&s, |t| assert!(t.id < 3));
}

#[test]
fn cores_come_up_one_by_one() {
    let mut m = Machine::new();
    assert_eq!(psci_method_name(&m), "none");
    init_boot_cpu(&mut m, b"hvc\0", 4, 0);
    assert_eq!((online_count(&m), discovered_count(&m)), (1, 4));
    assert_eq!(psci_method_name(&m), "hvc");
    assert_eq!(
        start_cpu(1, Some(0x10_0000)),
        Ok(BootDescriptor { stack_top_phys: 0x10_4000, cpu_id: 1 })
    );
    assert_eq!(start_cpu(0, Some(0)), Err("cpu id out of range"));
    assert_eq!(start_cpu(8, Some(0)), Err("cpu id out of range"));
    assert_eq!(start_cpu(2, None), Err("no frames for a boot stack"));
    assert_eq!(cpu_on_accepted(0), Ok(()));
    assert_eq!(cpu_on_accepted(-4), Ok(()));
    assert_eq!(cpu_on_accepted(-1), Err("PSCI CPU_ON refused"));
    assert_eq!(online_wait(1, 1, 0), None);
    assert_eq!(online_wait(1, 2, 0), Some(Ok(())));
    assert_eq!(online_wait(1, 1, 10_000_000), Some(Err("core did not come online")));
    secondary_online(&mut m, 1, 1);
    assert_eq!(online_count(&m), 2);
    assert!(m.cpus[1].online && !m.cpus[2].online);
    jungey::smp::for_each(&m, |c| assert!(c.online && c.id < 2));
}

#[test]
fn the_firmware_interface_is_read_from_the_tree() {
    assert_eq!(psci_method(b"hvc"), PsciMethod::Hvc);
    assert_eq!(psci_method(b"smc\0"), PsciMethod::Smc);
    assert_eq!(psci_method(b"hvcx"), PsciMethod::Absent);
    assert_eq!(mpidr(0x12_8000_0003), 0x12_0000_0003);
    assert_eq!(phys_of(0xFFFF_0000_4000_0000), 0x4000_0000);
    assert_eq!(virt_of(0x4000_0000), 0xFFFF_0000_4000_0000);
    let mut many = Machine::new();
    init_boot_cpu(&mut many, b"smc", 64, 0);
    assert_eq!(discovered_count(&many), 8);
    assert_eq!(psci_method_name(&many), "smc");
}

#[test]
fn the_clock_counts_ticks() {
    let mut c = Clock::new();
    assert_eq!(ticks(&c, 12345), 0);
    assert_eq!(arm_next(&c, 5, true, None), None);
    assert_eq!(jungey::time::start(&mut c, 62_500_000, 1000), 625_000);
    assert_eq!(ticks(&c, 1000), 0);
    assert_eq!(ticks(&c, 1000 + 624_999), 0);
    assert_eq!(ticks(&c, 1000 + 625_000), 1);
    assert_eq!(uptime_ms(&c, 1000 + 625_000 * 7), 70);
    // A second core adopts the origin.
    jungey::time::start(&mut c, 62_500_000, 9000);
    assert_eq!(c.boot_cycles, 1000);
    assert_eq!(now_us(62_500_000, 620), 9);
    assert_eq!(now_us(62_500_000, 62_500_000), 1_000_000);
    assert_eq!(now_us(32_768, 32_768 * 3), 3_000_000);
    assert_eq!(now_us(1, u64::MAX), u64::MAX);
    assert_eq!(now_us(0, 620), 0);
    let mut cpu = Cpu::new();
    took_interrupt(&mut c, &mut cpu);
    assert_eq!((timer_irqs(&c), cpu.ticks), (1, 1));
}

#[test]
fn an_idle_core_sleeps_until_it_is_needed() {
    let mut c = Clock::new();
    jungey::time::start(&mut c, 100_000, 500);
    assert_eq!(c.interval, 1000);
    set_tickless(&mut c, true);
    assert!(tickless(&c));
    assert_eq!(arm_next(&c, 2600, true, Some(90)), Some(3600));
    assert_eq!(arm_next(&c, 2600, false, Some(90)), Some(90_500));
    // Never in the past, and never too soon.
    assert_eq!(arm_next(&c, 2600, false, Some(1)), Some(2850));
    assert_eq!(arm_next(&c, 2600, false, None), Some(500 + 102 * 1000));
    set_tickless(&mut c, false);
    assert_eq!(arm_next(&c, 2600, false, Some(90)), Some(3600));
}

#[test]
fn interrupts_go_where_they_are_registered() {
    let (mut s, _) = machine();
    let mut q = Irqs::new();
    register(&mut q, 33, 7);
    register_user(&mut q, 79);
    register_user(&mut q, 79);
    assert_eq!(sequence(&q, 79), Some(0));
    assert_eq!(sequence(&q, 33), None);
    assert_eq!(jungey::irq::dispatch(&mut q, &mut s, 27, 0), Action::Tick);
    assert_eq!(jungey::irq::dispatch(&mut q, &mut s, 33, 0), Action::Run(7));
    s.threads[0].state = State::Blocked(jungey::irq::token(79));
    assert_eq!(jungey::irq::dispatch(&mut q, &mut s, 79, 0), Action::Mask);
    assert_eq!(sequence(&q, 79), Some(1));
    assert_eq!(s.threads[0].state, State::Runnable);
    assert_eq!(jungey::irq::dispatch(&mut q, &mut s, 80, 0), Action::Ignore);
    assert_eq!(jungey::irq::dispatch(&mut q, &mut s, 1023, 0), Action::Done);
    assert_eq!(jungey::irq::dispatch(&mut q, &mut s, 1023, 2), Action::Done);
    assert_eq!(jungey::irq::stats(&q), (1, 1));
    assert_ne!(jungey::irq::token(79), jungey::irq::token(80));
    assert_eq!(jungey::irq::token(79), 0x1249_0000_004f);
}

#[test]
fn a_core_with_nothing_to_run_knows_what_to_expect() {
    let (mut s, _) = machine();
    for t in s.threads.iter_mut() {
        t.state = State::Finished;
    }
    assert_eq!(jungey::sched::outlook(&s), (false, None));
    s.threads[0].state = State::Sleeping(70);
    s.threads[1].state = State::Sleeping(30);
    assert_eq!(jungey::sched::outlook(&s), (false, Some(30)));
    s.threads[0].state = State::Runnable;
    s.threads[0].affinity = None;
    assert_eq!(jungey::sched::outlook(&s), (true, Some(30)));
    // A pinned thread is no work for another core.
    s.threads[0].affinity = Some(0);
    assert_eq!(jungey::sched::outlook(&s), (false, Some(30)));
}

#[test]
fn a_line_handed_to_userspace_is_the_kernels_no_more() {
    let (mut s, _) = machine();
    let mut q = Irqs::new();
    register(&mut q, 79, 7);
    register_user(&mut q, 79);
    assert_eq!(jungey::irq::dispatch(&mut q, &mut s, 79, 0), Action::Mask);
    assert_eq!(jungey::irq::dispatch(&mut q, &mut s, 1023, 1), Action::Done);
    assert_eq!(sequence(&q, 79), Some(1));
    assert_eq!(jungey::irq::stats(&q), (0, 0));
}

#[test]
fn exceptions_are_named_and_routed() {
    assert_eq!(describe(0x9600_0004), "data abort, same EL");
    assert_eq!(describe(0x9200_000d), "data abort, lower EL");
    assert_eq!(describe(0x5600_0000), "SVC (syscall) from AArch64");
    assert_eq!(describe(0xffff_ffff), "unclassified");
    assert_eq!(fault_status(4), "translation fault — nothing mapped there");
    assert_eq!(fault_status(0xd), "permission fault");
    assert_eq!(fault_status(9), "access flag fault");
    assert_eq!(fault_status(0x10), "synchronous external abort");
    assert_eq!(fault_status(0x21), "alignment fault");
    assert_eq!(fault_status(0), "see ARM ARM D17.2.37");
    assert_eq!(vector_name(4), "EL1h sync");
    assert_eq!(vector_name(31), "EL0-32 serror");
    assert!(is_irq(5) && is_irq(9) && !is_irq(8));
    assert_eq!(rust_exception(9, 0), Route::Interrupt);
    assert_eq!(rust_exception(8, 0x5600_0000), Route::SystemCall);
    assert_eq!(rust_exception(8, 0x9200_0007), Route::DemandPage);
    // The trespasser: a permission fault on a kernel address.
    assert_eq!(rust_exception(8, 0x9200_000d), Route::Terminate);
    // A null dereference in the kernel.
    assert_eq!(rust_exception(4, 0x9600_0004), Route::Panic);
    assert!(names_an_address(0x9600_0004));
    assert!(!names_an_address(0x5600_0000));
}

#[test]
fn the_interrupt_controller_is_programmed() {
    assert_eq!(lines(8), 288);
    let up = jungey::gic::init(1);
    assert_eq!(up[0], Access::Write32(GICD_CTLR, 0x10));
    assert_eq!(up[1], Access::Settle);
    assert_eq!(up[2], Access::Write32(GICD_ICENABLER + 4, 0xFFFF_FFFF));
    assert_eq!(up[4], Access::Write8(0x420, 0xA0));
    assert_eq!(up[5], Access::Write64(0x6100, 0));
    assert_eq!(up.len(), 2 + 2 + 64 + 3);
    assert_eq!(up[up.len() - 2], Access::Write32(GICD_CTLR, 0x12));
    let mine = init_this_cpu();
    assert_eq!(mine.len(), 35);
    assert_eq!(enable_ppi(27), Access::Write32(GICR_ISENABLER0, 1 << 27));
    assert_eq!(enable_spi(79), Access::Write32(GICD_ISENABLER + 8, 1 << 15));
    assert_eq!(disable_spi(79), Access::Write32(GICD_ICENABLER + 8, 1 << 15));
    assert_eq!(waking(0b110), 0b100);
    assert!(!awake(0b100) && awake(0));
    assert_eq!(acknowledge(0xFF00_004f), 79);
}

#[test]
fn a_redistributor_is_found_by_affinity() {
    let typers = [1u64 << 32, 0, 2u64 << 32 | 0x10, 3u64 << 32];
    assert_eq!(find_redistributor(0x80a_0000, &typers, 0), Some(0x80c_0000));
    assert_eq!(find_redistributor(0x80a_0000, &typers, 1), Some(0x80a_0000));
    assert_eq!(find_redistributor(0x80a_0000, &typers, 2), Some(0x80e_0000));
    // The third frame says that it is the last.
    assert_eq!(find_redistributor(0x80a_0000, &typers, 3), None);
}

#[test]
fn every_transport_is_looked_at() {
    let empty = Slot {
        node: DeviceNode { base: 0xa00_0000, irq: 48 },
        magic: MAGIC_VALUE,
        device_id: 0,
        version: 2,
    };
    let mut slots = [empty; 32];
    slots[31].device_id = VIRTIO_BLOCK;
    slots[31].node = DeviceNode { base: 0xa00_3e00, irq: 79 };
    let found = find_virtio(&slots, VIRTIO_BLOCK).unwrap();
    assert_eq!((found.node.base, found.node.irq, found.version), (0xa00_3e00, 79, 2));
    assert_eq!(find_virtio(&slots, VIRTIO_INPUT), None);
    slots[31].magic = 0;
    assert_eq!(find_virtio(&slots, VIRTIO_BLOCK), None);
    assert_eq!(virtio_slots(&slots), 32);
    assert_eq!(virtio_slots(&slots[..3]), 3);
}

#[test]
fn classes_of_service() {
    assert_eq!(Qos::from_u64(0), Qos::Interactive);
    assert_eq!(Qos::from_u64(1), Qos::Foreground);
    assert_eq!(Qos::from_u64(2), Qos::Background);
    assert_eq!(Qos::from_u64(9), Qos::Opportunistic);
    assert_eq!(Qos::Background.rank(), 2);
    assert_eq!(Qos::Opportunistic.label(), "opportunistic");
}

/// An interactive job arriving while background work runs waits for one segment.
#[test]
fn an_interactive_job_preempts_a_background_one() {
    let (mut s, _) = machine();
    let mut dev = Device::new();
    assert_eq!(segment_cost_us(&dev), 1000);
    let long = submit(&mut dev, 0, 1, Qos::Background, 150, None).unwrap();
    let idle = submit(&mut dev, 0, 1, Qos::Opportunistic, 20, None).unwrap();
    assert_eq!(worker(&mut dev), Some(long));
    assert_eq!(segment_done(&mut dev, &mut s, long, 1000, 1000), None);
    let quick = submit(&mut dev, 1000, 2, Qos::Interactive, 2, Some(50_000)).unwrap();
    assert_eq!(worker(&mut dev), Some(quick));
    segment_done(&mut dev, &mut s, quick, 1000, 2000);
    assert_eq!(worker(&mut dev), Some(quick));
    assert_eq!(segment_done(&mut dev, &mut s, quick, 1000, 3000), Some(quick));
    let j = dev.jobs[2];
    assert_eq!(j.state, JobState::Done);
    assert_eq!((j.latency_us(9999), j.met_deadline()), (2000, Some(true)));
    assert_eq!((j.energy_uj, j.device_us), (5000, 2000));
    assert_eq!(j.state_label(), "done");
    // The background job gave way once, and goes on.
    assert_eq!(dev.jobs[0].preemptions, 1);
    assert_eq!(dev.jobs[2].preemptions, 0);
    assert_eq!(worker(&mut dev), Some(long));
    assert_eq!(totals(&dev), (3, 0, 1));
    assert_eq!(dev.jobs[1].id, idle);
    assert_eq!(dev.jobs[1].done_segments, 0);
    jungey::tensor::for_each(&dev, |j| assert!(j.id <= 3));
}

#[test]
fn a_deadline_that_cannot_be_met_is_refused() {
    let mut dev = Device::new();
    submit(&mut dev, 0, 1, Qos::Interactive, 10, None).unwrap();
    // Work of a lower class is no obstacle.
    submit(&mut dev, 0, 1, Qos::Background, 500, None).unwrap();
    let r = submit(&mut dev, 0, 1, Qos::Interactive, 400, Some(20_000));
    assert_eq!(r, Err(Reject::Undeliverable { needed_us: 410_000, available_us: 20_000 }));
    assert_eq!(dev.jobs[2].state, JobState::Refused);
    assert_eq!(dev.jobs[2].met_deadline(), None);
    assert_eq!(totals(&dev).1, 1);
    assert!(submit(&mut dev, 0, 1, Qos::Interactive, 10, Some(20_000)).is_ok());
    assert!(submit(&mut dev, 0, 1, Qos::Interactive, 1, Some(20_999)).is_err());
    assert!(submit(&mut dev, 0, 1, Qos::Interactive, 1, Some(21_000)).is_ok());
}

#[test]
fn the_nearest_deadline_goes_first() {
    let mut dev = Device::new();
    submit(&mut dev, 0, 1, Qos::Foreground, 1, None).unwrap();
    submit(&mut dev, 0, 1, Qos::Foreground, 1, Some(90_000)).unwrap();
    submit(&mut dev, 0, 1, Qos::Foreground, 1, Some(80_000)).unwrap();
    assert_eq!(pick(&dev), Some(2));
    assert_eq!(worker(&mut dev), Some(3));
    assert_eq!(pick(&Device::new()), None);
}

#[test]
fn whoever_waits_for_a_job_is_woken() {
    let (mut s, cpu) = machine();
    let mut dev = Device::new();
    let id = submit(&mut dev, 0, 1, Qos::Foreground, 1, None).unwrap();
    let token = jungey::tensor::token(id);
    assert_eq!(finished_or_prepare(&dev, &mut s, &cpu, id, token), None);
    assert_eq!(s.threads[0].state, State::Blocked(token));
    worker(&mut dev);
    assert_eq!(segment_done(&mut dev, &mut s, id, 5000, 5000), Some(id));
    assert_eq!(s.threads[0].state, State::Runnable);
    assert_eq!(finished_or_prepare(&dev, &mut s, &cpu, id, token), Some(true));
    // A quarter of what it cost goes into the average.
    assert_eq!(segment_cost_us(&dev), 2000);
    let st = jungey::tensor::stat(&dev, id, 9000).unwrap();
    assert_eq!((st.0, st.1, st.2, st.3, st.4, st.5, st.6), (1, 1, 1, 1, 5000, 0, 2));
    assert_eq!((st.7, st.8, st.9, st.10), (0, 12_500, 5000, 2));
    assert!(jungey::tensor::stat(&dev, 77, 0).is_none());
    assert!(submit(&mut dev, 0, 1, Qos::Foreground, 9, Some(1)).is_err());
    assert_eq!(finished_or_prepare(&dev, &mut s, &cpu, 2, 0), Some(false));
}

#[test]
fn a_segment_is_a_fixed_computation() {
    assert_eq!(run_segment(0), 0x9E37_79B9_7F4A_7C15);
    let a = 0x9E37_79B9_7F4A_7C15u64.wrapping_mul(6364136223846793005);
    assert_eq!(run_segment(1), a ^ (a >> 29));
}
