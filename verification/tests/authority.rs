//! Processes, the capabilities they hold, and the system calls they make.
use jungey::cap::{
    chain, is_descendant, minted, rights_name, Cap, Ledger, Obj, Provenance, RIGHTS_ALL,
    RIGHT_GRANT, RIGHT_IRQ, RIGHT_MAP, RIGHT_RECV, RIGHT_SEND,
};
use jungey::elf::{check_header, is_addressable, segment_perm};
use jungey::exceptions::TrapFrame;
use jungey::ipc::{recv_or_prepare, send, stats, try_recv, Channels};
use jungey::mm::frames::{free_count, Frames};
use jungey::mm::paging::{AddressSpace, Perm};
use jungey::mm::ram::Ram;
use jungey::mm::uaccess::{copy_from_user, copy_to_user};
use jungey::proc::{count, for_each, get, install_cap, lookup_cap, revoke, Table};
use jungey::sched::{current_name, current_pid, Scheduler, State};
use jungey::selftest::start_process;
use jungey::smp::Cpu;
use jungey::syscall::{
    from_register, is_reachable, sys_recv, sys_send, sys_write, to_register, Next, Received, EBADCAP, EFAULT,
    EINVAL, EPERM, EREVOKED, SYS_EXIT, SYS_GETPID, SYS_RECV, SYS_SEND, SYS_SLEEP, SYS_TICKS,
    SYS_WRITE, SYS_YIELD,
};

const RAM_BASE: u64 = 0x4000_0000;
const RAM_BYTES: usize = 0x40_0000;
const DATA: u64 = 0x40_2000;

fn put(image: &mut [u8], at: usize, bytes: &[u8]) {
    image[at..at + bytes.len()].copy_from_slice(bytes);
}

/// A text segment of three bytes, and a data segment of four bytes and a page of
/// zeros.
fn program() -> Vec<u8> {
    let mut image = vec![0u8; 256];
    put(&mut image, 0, &[0x7f, b'E', b'L', b'F', 2, 1]);
    put(&mut image, 16, &2u16.to_le_bytes());
    put(&mut image, 18, &183u16.to_le_bytes());
    put(&mut image, 24, &0x40_0000u64.to_le_bytes());
    put(&mut image, 32, &64u64.to_le_bytes());
    put(&mut image, 54, &56u16.to_le_bytes());
    put(&mut image, 56, &2u16.to_le_bytes());
    header(&mut image, 64, 5, 200, 0x40_0000, 3, 3);
    header(&mut image, 120, 6, 208, DATA, 4, 4096);
    put(&mut image, 200, &[1, 2, 3]);
    put(&mut image, 208, &[9, 8, 7, 6]);
    image
}

fn header(image: &mut [u8], at: usize, flags: u32, offset: u64, vaddr: u64, filesz: u64, memsz: u64) {
    put(image, at, &1u32.to_le_bytes());
    put(image, at + 4, &flags.to_le_bytes());
    put(image, at + 8, &offset.to_le_bytes());
    put(image, at + 16, &vaddr.to_le_bytes());
    put(image, at + 32, &filesz.to_le_bytes());
    put(image, at + 40, &memsz.to_le_bytes());
}

struct World {
    frames: Frames,
    ram: Ram,
    asid: u64,
    table: Table,
    sched: Scheduler,
    cpu: Cpu,
    channels: Channels,
    ledger: Ledger,
    console: Vec<u8>,
}

fn world() -> World {
    let mut w = World {
        frames: Frames::new(),
        ram: Ram::new(RAM_BASE, RAM_BYTES),
        asid: 1,
        table: Table::new(),
        sched: Scheduler::new(0x1000, 0x2000),
        cpu: Cpu::new(),
        channels: Channels::new(),
        ledger: Ledger::new(),
        console: Vec::new(),
    };
    jungey::mm::frames::init(&mut w.frames, &[(RAM_BASE, RAM_BYTES as u64)], &[]);
    jungey::sched::init(&mut w.sched, &mut w.cpu, 0x3000, 0x1_0000);
    w
}

impl World {
    fn spawn(&mut self, name: &'static str, role: u64, cap: Option<Cap>) -> usize {
        start_process(
            &mut self.table,
            &mut self.frames,
            &mut self.ram,
            &mut self.asid,
            &mut self.sched,
            name,
            &program(),
            role,
            cap,
            0x5000,
            0x2_0000,
        )
        .unwrap()
    }

    /// Make the call as the thread of process `pid`.
    fn call(&mut self, pid: usize, n: u64, args: [u64; 3], now: u64) -> (Next, u64) {
        let tid = self.sched.threads.iter().position(|t| t.pid == Some(pid)).unwrap();
        self.cpu.current = tid;
        let mut frame = TrapFrame { x: [0; 31], elr: 0, spsr: 0, sp_el0: 0 };
        frame.x[8] = n;
        frame.x[0] = args[0];
        frame.x[1] = args[1];
        frame.x[2] = args[2];
        let next = jungey::syscall::dispatch(
            &mut frame,
            &mut self.table,
            &mut self.ram,
            &mut self.channels,
            &mut self.sched,
            &mut self.cpu,
            &mut self.console,
            now,
        );
        (next, frame.x[0])
    }

    fn poke(&mut self, pid: usize, va: u64, bytes: &[u8]) {
        assert_eq!(copy_to_user(&self.table.procs[pid].space, &mut self.ram, va, bytes), Ok(()));
    }

    fn peek(&self, pid: usize, va: u64, n: usize) -> Vec<u8> {
        copy_from_user(&self.table.procs[pid].space, &self.ram, va, n).unwrap()
    }
}

#[test]
fn rights_only_narrow() {
    let mut l = Ledger::new();
    let root = Cap::root(&mut l, Obj::Channel(4), RIGHT_SEND | RIGHT_RECV);
    assert_eq!((root.id, root.rights, root.revoked), (1, 3, false));
    let narrow = root.derive(&mut l, RIGHT_SEND | RIGHT_GRANT);
    assert_eq!((narrow.id, narrow.rights), (2, RIGHT_SEND));
    let wide = narrow.derive(&mut l, RIGHTS_ALL);
    assert_eq!(wide.rights, RIGHT_SEND);
    assert!(wide.allows(RIGHT_SEND));
    assert!(!wide.allows(RIGHT_RECV));
    assert_eq!(wide.channel(), Some(4));
    assert_eq!(minted(&l), 3);
}

#[test]
fn capabilities_say_what_they_are() {
    let mut l = Ledger::new();
    let mmio = Cap::root(&mut l, Obj::Mmio { base: 0xa00_3e00, size: 512 }, RIGHT_MAP);
    assert_eq!(mmio.channel(), None);
    assert_eq!(mmio.obj_str(), "mmio");
    assert_eq!(mmio.rights_str(), "map");
    let irq = Cap::root(&mut l, Obj::Irq(79), RIGHT_IRQ);
    assert_eq!((irq.obj_str(), irq.rights_str()), ("irq", "irq"));
    assert_eq!(rights_name(RIGHT_SEND | RIGHT_RECV), "send+recv");
    assert_eq!(rights_name(RIGHT_SEND), "send");
    assert_eq!(rights_name(RIGHT_RECV), "recv");
}

#[test]
fn a_delegation_chain_reads_back_to_its_root() {
    let mut l = Ledger::new();
    let you = Cap::root_for(&mut l, Obj::Channel(0), RIGHTS_ALL, "you", "these are your notes");
    let assistant = you.derive_for(&mut l, RIGHT_SEND | RIGHT_RECV, "assistant", "summarise");
    let writer = assistant.derive_for(&mut l, RIGHT_SEND, "journal-writer", "append");
    let blank = Provenance { parent: 0, holder: "", purpose: "", rights: 0 };
    let mut out = [(0u64, blank); 4];
    assert_eq!(chain(&l, writer.id, &mut out), 3);
    assert_eq!((out[0].0, out[0].1.holder, out[0].1.rights), (3, "journal-writer", RIGHT_SEND));
    assert_eq!((out[1].0, out[1].1.holder), (2, "assistant"));
    assert_eq!((out[2].0, out[2].1.holder, out[2].1.parent), (1, "you", 0));
    let mut short = [(0u64, blank); 2];
    assert_eq!(chain(&l, writer.id, &mut short), 2);
    assert!(is_descendant(&l, writer.id, you.id));
    assert!(is_descendant(&l, you.id, you.id));
    assert!(!is_descendant(&l, you.id, writer.id));
}

#[test]
fn an_image_is_refused_for_each_reason() {
    let good = program();
    assert_eq!(check_header(&good), Ok(()));
    assert_eq!(check_header(&good[..63]), Err("ELF truncated"));
    let with = |at: usize, v: u8| {
        let mut image = good.clone();
        image[at] = v;
        check_header(&image)
    };
    assert_eq!(with(0, 0), Err("not an ELF"));
    assert_eq!(with(4, 1), Err("not 64-bit little-endian"));
    assert_eq!(with(16, 3), Err("not a static executable"));
    assert_eq!(with(18, 62), Err("wrong architecture"));
    assert!(is_addressable(&good));
    let mut high = good.clone();
    header(&mut high, 120, 6, 208, 0xFFFF_0000_0000_0000, 4, 4);
    assert!(!is_addressable(&high));
    header(&mut high, 120, 6, u64::MAX, DATA, 4, 4);
    assert!(!is_addressable(&high));
    put(&mut high, 32, &u64::MAX.to_le_bytes());
    assert!(!is_addressable(&high));
    assert_eq!(segment_perm(5), Perm::UserText);
    assert_eq!(segment_perm(7), Perm::UserText);
    assert_eq!(segment_perm(6), Perm::UserData);
    assert_eq!(segment_perm(4), Perm::UserReadOnly);
}

#[test]
fn a_segment_is_refused_for_each_reason() {
    let mut w = world();
    let before = free_count(&w.frames);
    let mut attempt = |image: &[u8]| {
        let r = jungey::proc::create(
            &mut w.table,
            &mut w.frames,
            &mut w.ram,
            &mut w.asid,
            "p",
            image,
            0,
        );
        // Every frame taken on the way was given back.
        assert_eq!(free_count(&w.frames), before);
        r
    };
    let mut image = program();
    header(&mut image, 120, 6, 208, DATA, 5, 4);
    assert_eq!(attempt(&image), Err("segment filesz exceeds memsz"));
    let mut image = program();
    header(&mut image, 120, 6, 250, DATA, 8, 8);
    assert_eq!(attempt(&image), Err("segment past end of image"));
    let mut image = program();
    put(&mut image, 56, &4u16.to_le_bytes());
    assert_eq!(attempt(&image), Err("ELF truncated"));
    assert_eq!(attempt(&[0u8; 80]), Err("not an ELF"));
    assert_eq!(count(&w.table), 0);
}

#[test]
fn creating_a_process_runs_out_of_frames() {
    let mut w = world();
    let image = program();
    let mut room = |pages: u64| {
        let mut frames = Frames::new();
        jungey::mm::frames::init(&mut frames, &[(RAM_BASE, pages * 4096)], &[]);
        jungey::proc::create(&mut w.table, &mut frames, &mut w.ram, &mut w.asid, "p", &image, 0)
    };
    assert_eq!(room(0), Err("no memory for an address space"));
    assert_eq!(room(1), Err("out of frames"));
    assert_eq!(room(2), Err("out of frames for page tables"));
    assert_eq!(room(5), Err("out of frames"));
    assert_eq!(room(64), Ok(0));
}

#[test]
fn a_process_finds_its_image_and_its_stack() {
    let mut w = world();
    let pid = w.spawn("p", 7, None);
    let p = get(&w.table, pid).unwrap();
    assert_eq!((p.pid, p.name, p.entry, p.arg), (0, "p", 0x40_0000, 7));
    assert_eq!((p.stack_top, p.exit_code), (0x7000_0000, None));
    assert_eq!(w.peek(pid, 0x40_0000, 4), [1, 2, 3, 0]);
    assert_eq!(w.peek(pid, DATA, 6), [9, 8, 7, 6, 0, 0]);
    assert_eq!(w.peek(pid, 0x6FFF_C000, 8), [0; 8]);
    let space = &w.table.procs[pid].space;
    assert_eq!(copy_from_user(space, &w.ram, 0x40_1000, 1), Err("unmapped user address"));
    // A kernel address is no user address.
    assert_eq!(
        copy_from_user(space, &w.ram, 0xFFFF_0000_4008_0000, 1),
        Err("unmapped user address")
    );
    let t = w.sched.threads.last().unwrap();
    assert_eq!((t.name, t.state, t.pid), ("p", State::Runnable, Some(0)));
    assert_eq!(t.ttbr0, (space.asid() << 48) | space.root());
    assert!(get(&w.table, 1).is_none());
}

#[test]
fn processes_do_not_see_each_other() {
    let mut w = world();
    let a = w.spawn("a", 0, None);
    let b = w.spawn("b", 1, None);
    w.poke(a, DATA, &[0xaa; 4]);
    w.poke(b, DATA, &[0xbb; 4]);
    assert_eq!(w.peek(a, DATA, 4), [0xaa; 4]);
    assert_eq!(w.peek(b, DATA, 4), [0xbb; 4]);
    assert_eq!(count(&w.table), 2);
    for_each(&w.table, |p| assert!(p.name == "a" || p.name == "b"));
}

#[test]
fn a_capability_goes_in_a_slot_of_a_process() {
    let mut w = world();
    let pid = w.spawn("p", 0, None);
    let c = Cap::root(&mut w.ledger, Obj::Channel(0), RIGHTS_ALL);
    assert_eq!(install_cap(&mut w.table, pid, 8, c), Err("capability slot out of range"));
    assert_eq!(install_cap(&mut w.table, 5, 0, c), Err("no such process"));
    assert_eq!(install_cap(&mut w.table, pid, 3, c), Ok(()));
    assert_eq!(lookup_cap(&w.table, pid, 3).map(|c| c.id), Some(1));
    assert!(lookup_cap(&w.table, pid, 2).is_none());
    assert!(lookup_cap(&w.table, pid, 8).is_none());
    assert!(lookup_cap(&w.table, 5, 3).is_none());
}

/// The second stage of bring-up: two processes exchange a message that they could not
/// exchange without a capability, and revoking the root kills the channel for both.
#[test]
fn a_message_crosses_and_revocation_cuts_it_off() {
    let mut w = world();
    let channel = jungey::ipc::create(&mut w.channels);
    let root = Cap::root(&mut w.ledger, Obj::Channel(channel), RIGHTS_ALL);
    let send_cap = root.derive(&mut w.ledger, RIGHT_SEND);
    let recv_cap = root.derive(&mut w.ledger, RIGHT_RECV);
    assert_eq!((root.id, send_cap.id, recv_cap.id), (1, 2, 3));
    let receiver = w.spawn("receiver", 1, Some(recv_cap));
    let sender = w.spawn("sender", 0, Some(send_cap));
    let intruder = w.spawn("intruder", 2, None);

    // Nothing there yet: the receiver blocks.
    let (next, _) = w.call(receiver, SYS_RECV, [0, DATA, 64], 0);
    assert!(matches!(next, Next::Retry(0, _)));
    let thread = w.sched.threads.iter().position(|t| t.pid == Some(receiver)).unwrap();
    assert_eq!(w.sched.threads[thread].state, State::Blocked(0));

    let text = b"hello from the sender";
    w.poke(sender, DATA, text);
    let (next, x0) = w.call(sender, SYS_SEND, [0, DATA, 21], 0);
    assert_eq!((next, x0), (Next::Resume, 21));
    assert_eq!(w.sched.threads[thread].state, State::Runnable);
    assert_eq!(stats(&w.channels, channel), (1, 0, 1));

    // It holds SEND and is refused RECV; a guessed slot is no capability.
    assert_eq!(from_register(w.call(sender, SYS_RECV, [0, DATA, 64], 0).1), EPERM);
    assert_eq!(from_register(w.call(intruder, SYS_SEND, [0, DATA, 1], 0).1), EBADCAP);
    assert_eq!(from_register(w.call(intruder, SYS_RECV, [9, DATA, 1], 0).1), EBADCAP);

    let (next, x0) = w.call(receiver, SYS_RECV, [0, DATA, 64], 0);
    assert_eq!((next, x0), (Next::Resume, 21));
    assert_eq!(w.peek(receiver, DATA, 21), text);
    // Nobody else noticed.
    assert_eq!(w.peek(intruder, DATA, 6), [9, 8, 7, 6, 0, 0]);
    assert_eq!(stats(&w.channels, channel), (1, 1, 0));

    assert_eq!(revoke(&mut w.table, &w.ledger, &mut w.sched, root.id), 2);
    assert_eq!(from_register(w.call(sender, SYS_SEND, [0, DATA, 1], 0).1), EREVOKED);
    assert_eq!(from_register(w.call(receiver, SYS_RECV, [0, DATA, 1], 0).1), EREVOKED);
    // A second cut finds nothing left to kill.
    assert_eq!(revoke(&mut w.table, &w.ledger, &mut w.sched, root.id), 0);
}

#[test]
fn revoking_one_branch_leaves_the_other() {
    let mut w = world();
    let root = Cap::root(&mut w.ledger, Obj::Channel(0), RIGHTS_ALL);
    let left = root.derive(&mut w.ledger, RIGHT_SEND);
    let right = root.derive(&mut w.ledger, RIGHT_SEND);
    let under = left.derive(&mut w.ledger, RIGHT_SEND);
    let pid = w.spawn("p", 0, Some(left));
    install_cap(&mut w.table, pid, 1, right).unwrap();
    install_cap(&mut w.table, pid, 2, under).unwrap();
    assert_eq!(revoke(&mut w.table, &w.ledger, &mut w.sched, left.id), 2);
    assert!(lookup_cap(&w.table, pid, 0).unwrap().revoked);
    assert!(!lookup_cap(&w.table, pid, 1).unwrap().revoked);
    assert!(lookup_cap(&w.table, pid, 2).unwrap().revoked);
}

#[test]
fn a_blocked_receiver_learns_of_the_revocation() {
    let mut w = world();
    let channel = jungey::ipc::create(&mut w.channels);
    let cap = Cap::root(&mut w.ledger, Obj::Channel(channel), RIGHT_RECV);
    let pid = w.spawn("p", 0, Some(cap));
    w.call(pid, SYS_RECV, [0, DATA, 8], 0);
    let thread = w.sched.threads.len() - 1;
    assert_eq!(w.sched.threads[thread].state, State::Blocked(channel as u64));
    assert_eq!(revoke(&mut w.table, &w.ledger, &mut w.sched, cap.id), 1);
    assert_eq!(w.sched.threads[thread].state, State::Runnable);
    assert_eq!(from_register(w.call(pid, SYS_RECV, [0, DATA, 8], 0).1), EREVOKED);
}

#[test]
fn writing_to_the_console() {
    let mut w = world();
    let pid = w.spawn("p", 0, None);
    w.poke(pid, DATA, b"hello\n\xff");
    assert_eq!(w.call(pid, SYS_WRITE, [DATA, 6, 0], 0), (Next::Resume, 6));
    assert_eq!(w.console, b"hello\n");
    // Not text, not mapped, too long.
    assert_eq!(from_register(w.call(pid, SYS_WRITE, [DATA, 7, 0], 0).1), EINVAL);
    assert_eq!(from_register(w.call(pid, SYS_WRITE, [0x1000, 1, 0], 0).1), EFAULT);
    assert_eq!(from_register(w.call(pid, SYS_WRITE, [DATA, 4097, 0], 0).1), EINVAL);
    assert_eq!(w.console, b"hello\n");
    let mut console = Vec::new();
    assert_eq!(sys_write(&w.table, &w.ram, &mut console, 9, DATA, 1), EFAULT);
}

#[test]
fn the_small_calls() {
    let mut w = world();
    let a = w.spawn("a", 0, None);
    let b = w.spawn("b", 0, None);
    assert_eq!(w.call(b, SYS_GETPID, [0; 3], 0).1, b as u64);
    assert_eq!(w.call(b, SYS_TICKS, [0; 3], 41).1, 41);
    assert_eq!(from_register(w.call(b, 99, [0; 3], 0).1), EINVAL);
    let (next, x0) = w.call(b, SYS_YIELD, [0; 3], 0);
    assert!(matches!(next, Next::Yield(_)));
    assert_eq!(x0, 0);
    let (next, _) = w.call(b, SYS_SLEEP, [5, 0, 0], 100);
    assert!(matches!(next, Next::Sleep(105, _)));
    let (next, _) = w.call(a, SYS_EXIT, [to_register(-3), 0, 0], 0);
    assert!(matches!(next, Next::Gone(_)));
    assert_eq!(w.table.procs[a].exit_code, Some(-3));
    let thread = w.sched.threads.iter().position(|t| t.pid == Some(a)).unwrap();
    assert_eq!(w.sched.threads[thread].state, State::Finished);
    assert_eq!(w.table.procs[b].exit_code, None);
}

#[test]
fn a_thread_without_a_process_has_no_calls() {
    let mut w = world();
    let mut frame = TrapFrame { x: [0; 31], elr: 0, spsr: 0, sp_el0: 0 };
    frame.x[8] = SYS_GETPID;
    assert_eq!(current_pid(&w.sched, &w.cpu), None);
    assert_eq!(current_name(&w.sched, &w.cpu), "boot");
    let next = jungey::syscall::dispatch(
        &mut frame,
        &mut w.table,
        &mut w.ram,
        &mut w.channels,
        &mut w.sched,
        &mut w.cpu,
        &mut w.console,
        0,
    );
    assert_eq!(next, Next::Resume);
    assert_eq!(from_register(frame.x[0]), EINVAL);
}

#[test]
fn a_driver_with_registers_mapped_can_send_and_receive() {
    let mut w = world();
    let channel = jungey::ipc::create(&mut w.channels);
    let cap = Cap::root(&mut w.ledger, Obj::Channel(channel), RIGHTS_ALL);
    let pid = w.spawn("driver", 0, Some(cap));
    let registers = 0x3000_0000;
    let space = &mut w.table.procs[pid].space;
    assert_eq!(
        space.map(&mut w.frames, &mut w.ram, registers, 0x900_0000, 1, Perm::UserDevice),
        Ok(())
    );
    assert_eq!(w.call(pid, SYS_SEND, [0, DATA, 4], 0), (Next::Resume, 4));
    assert_eq!(w.call(pid, SYS_RECV, [0, DATA + 8, 4], 0), (Next::Resume, 4));
    assert_eq!(w.peek(pid, DATA + 8, 4), [9, 8, 7, 6]);
    // The registers themselves are no buffer, and an unmapped one is refused elsewhere.
    let asks = |n: u64, args: [u64; 3]| {
        let mut frame = TrapFrame { x: [0; 31], elr: 0, spsr: 0, sp_el0: 0 };
        frame.x[8] = n;
        frame.x[..3].copy_from_slice(&args);
        is_reachable(&frame, &w.table, &w.ram, pid)
    };
    assert!(asks(SYS_SEND, [0, DATA, 4]) && asks(SYS_SEND, [0, 0x1000, 4]));
    // One that is too long is refused unseen.
    assert!(asks(SYS_SEND, [0, registers, 4097]));
    assert!(!asks(SYS_SEND, [0, registers, 4]) && !asks(SYS_RECV, [0, registers, 4]));
    assert!(!asks(SYS_WRITE, [registers + 8, 4, 0]));
    assert!(asks(SYS_GETPID, [registers, registers, registers]));
}

#[test]
fn a_header_that_is_not_loaded_may_say_anything() {
    let mut image = program();
    put(&mut image, 56, &3u16.to_le_bytes());
    put(&mut image, 176, &[0xff; 56]);
    image.resize(512, 0);
    put(&mut image, 264, &[1, 2, 3]);
    put(&mut image, 272, &[9, 8, 7, 6]);
    header(&mut image, 64, 5, 264, 0x40_0000, 3, 3);
    header(&mut image, 120, 6, 272, DATA, 4, 4096);
    assert!(is_addressable(&image));
    put(&mut image, 176, &1u32.to_le_bytes());
    assert!(!is_addressable(&image));
    put(&mut image, 176 + 40, &[0; 8]);
    assert!(is_addressable(&image));
}

#[test]
fn sending_and_receiving_report_bad_memory() {
    let mut w = world();
    let channel = jungey::ipc::create(&mut w.channels);
    let cap = Cap::root(&mut w.ledger, Obj::Channel(channel), RIGHTS_ALL);
    let lost = Cap::root(&mut w.ledger, Obj::Channel(77), RIGHTS_ALL);
    let irq = Cap::root(&mut w.ledger, Obj::Irq(3), RIGHTS_ALL);
    let pid = w.spawn("p", 0, Some(cap));
    install_cap(&mut w.table, pid, 1, lost).unwrap();
    install_cap(&mut w.table, pid, 2, irq).unwrap();
    let send_on = |w: &mut World, slot: u64, ptr: u64| {
        sys_send(&w.table, &w.ram, &mut w.channels, &mut w.sched, pid, slot, ptr, 4)
    };
    assert_eq!(send_on(&mut w, 0, 0x1000), EFAULT);
    assert_eq!(send_on(&mut w, 1, DATA), EINVAL);
    assert_eq!(send_on(&mut w, 2, DATA), EBADCAP);
    assert_eq!(send_on(&mut w, 0, DATA), 4);
    let recv_at = |w: &mut World, ptr: u64, len: u64| {
        sys_recv(
            &w.table,
            &mut w.ram,
            &mut w.channels,
            &mut w.sched,
            &mut w.cpu,
            pid,
            0,
            ptr,
            len,
        )
    };
    assert_eq!(recv_at(&mut w, 0x1000, 4), Received::Return(EFAULT));
    // The message is gone with it.
    assert_eq!(stats(&w.channels, channel), (1, 1, 0));
    assert_eq!(send_on(&mut w, 0, DATA), 4);
    // A short buffer takes what fits.
    assert_eq!(recv_at(&mut w, DATA + 8, 2), Received::Return(2));
    assert_eq!(w.peek(pid, DATA + 8, 3), [9, 8, 0]);
}

#[test]
fn messages_come_out_in_order() {
    let mut c = Channels::new();
    let mut s = Scheduler::new(0, 0);
    let mut cpu = Cpu::new();
    jungey::sched::init(&mut s, &mut cpu, 0, 0);
    let ch = jungey::ipc::create(&mut c);
    assert_eq!(jungey::ipc::create(&mut c), 1);
    assert_eq!(send(&mut c, &mut s, ch, 5, vec![1]), Ok(1));
    assert_eq!(send(&mut c, &mut s, ch, 6, vec![2, 2]), Ok(2));
    assert!(send(&mut c, &mut s, 9, 0, vec![]).is_err());
    let m = try_recv(&mut c, ch).unwrap();
    assert_eq!((m.from, m.bytes), (5, vec![1]));
    let m = recv_or_prepare(&mut c, &mut s, &cpu, ch, 4).unwrap();
    assert_eq!((m.from, m.bytes), (6, vec![2, 2]));
    assert!(try_recv(&mut c, ch).is_none());
    assert!(recv_or_prepare(&mut c, &mut s, &cpu, ch, 4).is_none());
    assert_eq!(s.threads[0].state, State::Blocked(4));
    assert_eq!(stats(&c, ch), (2, 2, 0));
    assert_eq!(stats(&c, 9), (0, 0, 0));
}

#[test]
fn copying_stops_at_the_first_unmapped_byte() {
    let mut w = world();
    let pid = w.spawn("p", 0, None);
    let space: &AddressSpace = &w.table.procs[pid].space;
    // The data segment ends with its page.
    assert_eq!(
        copy_to_user(space, &mut w.ram, DATA + 4094, &[5, 5, 5]),
        Err("unmapped user address")
    );
    assert_eq!(copy_from_user(space, &w.ram, DATA + 4094, 2), Ok(vec![5, 5]));
    // A buffer may cross pages.
    assert_eq!(copy_to_user(space, &mut w.ram, 0x6FFF_CFFE, &[1, 2, 3, 4]), Ok(()));
    assert_eq!(copy_from_user(space, &w.ram, 0x6FFF_CFFE, 4), Ok(vec![1, 2, 3, 4]));
}
