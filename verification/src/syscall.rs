//! The system call interface.
//!
//! Eight calls. Everything a process can do goes through here, and every one that
//! touches an object resolves a capability first — there is no call that takes a
//! global name.
use vstd::prelude::*;
use vstd::slice::slice_subrange;
use crate::bytes::{from_utf8, push_bytes};
use crate::cap::{Cap, Obj, RIGHT_RECV, RIGHT_SEND};
use crate::exceptions::TrapFrame;
use crate::ipc::{send, try_recv, ChannelView, Channels, MessageView};
use crate::mm::frames::Frames;
use crate::mm::ram::Ram;
use crate::mm::uaccess::{copy_from_user, copy_to_user, is_in_memory};
use crate::proc::{lookup_cap, Process, Table};
use crate::sched::{
    block_on, current_pid, schedule, sleep_ticks, thread_exit, yield_now, Scheduler, State, Switch,
    Thread,
};
use crate::smp::Cpu;

verus! {

pub const SYS_EXIT: u64 = 0;

pub const SYS_WRITE: u64 = 1;

pub const SYS_YIELD: u64 = 2;

pub const SYS_SEND: u64 = 3;

pub const SYS_RECV: u64 = 4;

pub const SYS_GETPID: u64 = 5;

pub const SYS_TICKS: u64 = 6;

pub const SYS_SLEEP: u64 = 7;

/// No such capability.
pub const EBADCAP: i64 = -1;

/// The capability lacks the right.
pub const EPERM: i64 = -2;

/// The capability was revoked.
pub const EREVOKED: i64 = -3;

/// Bad user pointer.
pub const EFAULT: i64 = -4;

pub const EINVAL: i64 = -5;

/// A result as a register holds it: negative numbers in two's complement.
pub open spec fn in_register(r: i64) -> int {
    if r >= 0 {
        r as int
    } else {
        r + 0x1_0000_0000_0000_0000
    }
}

/// Put a result in a register.
pub fn to_register(r: i64) -> (x: u64)
    ensures
        x == in_register(r),
{
    if r >= 0 {
        r as u64
    } else {
        u64::MAX - (-(r + 1)) as u64
    }
}

/// A result out of a register.
pub fn from_register(x: u64) -> (r: i64)
    ensures
        in_register(r) == x,
{
    if x <= 0x7FFF_FFFF_FFFF_FFFF {
        x as i64
    } else {
        -((u64::MAX - x) as i64) - 1
    }
}

/// A process's memory can be read and written on its behalf: its tables are sound, and
/// none of them is in its own reach.
pub open spec fn walkable(p: Process, ram: Ram) -> bool {
    &&& ram.wf()
    &&& crate::mm::paging::tree(ram, p.space.root as int, p.space.tables@)
    &&& p.space.apart(ram)
}

/// A buffer of a process can be read and written on its behalf: what is mapped of it is
/// memory. Whatever else the process has mapped, device registers among it, does not
/// matter.
pub open spec fn reachable(p: Process, ram: Ram, ptr: u64, len: u64) -> bool {
    &&& walkable(p, ram)
    &&& crate::mm::uaccess::in_memory(ram, p.space.root as int, ptr, len as int)
}

/// The bytes a process has at `uva`, if all `len` of them are mapped and no more
/// than a transfer may hold.
pub open spec fn user_bytes(p: Process, ram: Ram, uva: u64, len: int) -> Option<Seq<u8>> {
    let root = p.space.root as int;
    if len > crate::mm::uaccess::MAX_TRANSFER || crate::mm::uaccess::mapped_prefix(
        ram,
        root,
        uva,
        len,
        0,
    ) < len {
        None
    } else {
        Some(
            Seq::new(
                len as nat,
                |i: int| ram.byte(crate::mm::uaccess::user_byte_at(ram, root, uva, i)->0 as int),
            ),
        )
    }
}

fn fetch(table: &Table, ram: &Ram, pid: usize, ptr: u64, len: u64) -> (r: Option<Vec<u8>>)
    requires
        pid < table.procs@.len() && len <= crate::mm::uaccess::MAX_TRANSFER ==> reachable(
            table.procs@[pid as int],
            *ram,
            ptr,
            len,
        ),
    ensures
        match r {
            Some(b) => pid < table.procs@.len() && user_bytes(
                table.procs@[pid as int],
                *ram,
                ptr,
                len as int,
            ) == Some(b@),
            None => pid < table.procs@.len() ==> user_bytes(
                table.procs@[pid as int],
                *ram,
                ptr,
                len as int,
            ) is None,
        },
{
    if pid >= table.procs.len() || len > crate::mm::uaccess::MAX_TRANSFER as u64 {
        return None;
    }
    match copy_from_user(&table.procs[pid].space, ram, ptr, len as usize) {
        Ok(b) => {
            proof {
                assert(b@ =~= user_bytes(table.procs@[pid as int], *ram, ptr, len as int)->0);
            }
            Some(b)
        },
        Err(_) => None,
    }
}

/// What a write returns, and what it puts on the console.
pub open spec fn write_outcome(
    procs: Seq<Process>,
    ram: Ram,
    pid: usize,
    ptr: u64,
    len: u64,
) -> (int, Seq<u8>) {
    if len > crate::mm::uaccess::MAX_TRANSFER {
        (EINVAL as int, Seq::empty())
    } else if pid >= procs.len() {
        (EFAULT as int, Seq::empty())
    } else {
        match user_bytes(procs[pid as int], ram, ptr, len as int) {
            None => (EFAULT as int, Seq::empty()),
            Some(b) => if crate::bytes::text_of(b) is Some {
                (len as int, b)
            } else {
                (EINVAL as int, Seq::empty())
            },
        }
    }
}

/// Write text to the console.
pub fn sys_write(
    table: &Table,
    ram: &Ram,
    console: &mut Vec<u8>,
    pid: usize,
    ptr: u64,
    len: u64,
) -> (r: i64)
    requires
        pid < table.procs@.len() && len <= crate::mm::uaccess::MAX_TRANSFER ==> reachable(
            table.procs@[pid as int],
            *ram,
            ptr,
            len,
        ),
    ensures
        r == write_outcome(table.procs@, *ram, pid, ptr, len).0,
        final(console)@ == old(console)@ + write_outcome(table.procs@, *ram, pid, ptr, len).1,
{
    assert(console@ + Seq::<u8>::empty() =~= console@);
    if len > crate::mm::uaccess::MAX_TRANSFER as u64 {
        return EINVAL;
    }
    match fetch(table, ram, pid, ptr, len) {
        None => EFAULT,
        Some(bytes) => {
            if from_utf8(bytes.as_slice()).is_some() {
                push_bytes(console, bytes.as_slice());
                len as i64
            } else {
                EINVAL
            }
        },
    }
}

/// Why a capability does not reach a channel for a right, if it does not.
pub open spec fn cap_error(c: Option<Cap>, right: u32) -> Option<i64> {
    match c {
        None => Some(EBADCAP),
        Some(c) => if c.revoked {
            Some(EREVOKED)
        } else if c.rights & right == 0 {
            Some(EPERM)
        } else if !(c.obj is Channel) {
            Some(EBADCAP)
        } else {
            None
        },
    }
}

/// The capability a process has in a slot.
pub open spec fn held(procs: Seq<Process>, pid: usize, slot: u64) -> Option<Cap> {
    crate::proc::cap_in(procs, pid as int, slot as int)
}

/// The channel a capability in a slot reaches, if it has the right.
fn resolve(table: &Table, pid: usize, slot: u64, right: u32) -> (r: Result<usize, i64>)
    ensures
        match cap_error(held(table.procs@, pid, slot), right) {
            Some(e) => r == Err::<usize, i64>(e),
            None => r is Ok && (held(table.procs@, pid, slot)->0).obj == Obj::Channel(r->Ok_0),
        },
{
    if slot >= 8 {
        return Err(EBADCAP);
    }
    match lookup_cap(table, pid, slot as usize) {
        None => Err(EBADCAP),
        Some(c) => {
            if c.revoked {
                return Err(EREVOKED);
            }
            if !c.allows(right) {
                return Err(EPERM);
            }
            match c.channel() {
                Some(ch) => Ok(ch),
                None => Err(EBADCAP),
            }
        },
    }
}

/// Everything a send does: what it returns, the channels and the threads.
pub open spec fn send_outcome(
    procs: Seq<Process>,
    ram: Ram,
    cs: Seq<ChannelView>,
    ts: Seq<Thread>,
    pid: usize,
    slot: u64,
    ptr: u64,
    len: u64,
) -> (int, Seq<ChannelView>, Seq<Thread>) {
    let c = held(procs, pid, slot);
    match cap_error(c, RIGHT_SEND) {
        Some(e) => (e as int, cs, ts),
        None => {
            let ch = (c->0).obj->Channel_0;
            match user_bytes(procs[pid as int], ram, ptr, len as int) {
                None => (EFAULT as int, cs, ts),
                Some(b) => if ch >= cs.len() {
                    (EINVAL as int, cs, ts)
                } else {
                    (
                        len as int,
                        cs.update(
                            ch as int,
                            cs[ch as int].with_message(MessageView { from: pid, bytes: b }),
                        ),
                        crate::sched::woken_on(ts, ch as u64),
                    )
                },
            }
        },
    }
}

/// Send a message on the channel that a capability names.
pub fn sys_send(
    table: &Table,
    ram: &Ram,
    channels: &mut Channels,
    s: &mut Scheduler,
    pid: usize,
    slot: u64,
    ptr: u64,
    len: u64,
) -> (r: i64)
    requires
        pid < table.procs@.len() && len <= crate::mm::uaccess::MAX_TRANSFER ==> reachable(
            table.procs@[pid as int],
            *ram,
            ptr,
            len,
        ),
    ensures
        old(s).same_but_threads(*final(s)),
        (r as int, final(channels)@, final(s).threads@) == send_outcome(
            table.procs@,
            *ram,
            old(channels)@,
            old(s).threads@,
            pid,
            slot,
            ptr,
            len,
        ),
{
    let ch: usize = match resolve(table, pid, slot, RIGHT_SEND) {
        Err(e) => {
            return e;
        },
        Ok(ch) => ch,
    };
    let bytes = match fetch(table, ram, pid, ptr, len) {
        None => {
            return EFAULT;
        },
        Some(b) => b,
    };
    match send(channels, s, ch, pid, bytes) {
        Ok(n) => n as i64,
        Err(_) => EINVAL,
    }
}

/// A process whose walks all end where they did can still be served.
proof fn lemma_still_reachable(p: Process, r0: Ram, r1: Ram, ptr: u64, len: u64)
    requires
        reachable(p, r0, ptr, len),
        r1.wf(),
        r1.base == r0.base,
        r1.bytes@.len() == r0.bytes@.len(),
        crate::mm::paging::tree(r1, p.space.root as int, p.space.tables@),
        forall|q: crate::mm::paging::Path|
            crate::mm::paging::path_ok(q) ==> #[trigger] p.space.leaf(r1, q) == p.space.leaf(r0, q),
    ensures
        reachable(p, r1, ptr, len),
{
    let root = p.space.root as int;
    assert forall|i: int| #[trigger] crate::mm::uaccess::user_byte_at(r1, root, ptr, i)
        == crate::mm::uaccess::user_byte_at(r0, root, ptr, i) by {
        let va = (ptr + i) as u64;
        if va < crate::mm::paging::USER_LIMIT {
            crate::mm::paging::paths_are_in_range(va);
            assert(p.space.leaf(r1, crate::mm::paging::path_of(va)) == p.space.leaf(
                r0,
                crate::mm::paging::path_of(va),
            ));
        }
    }
    lemma_same_prefix(r0, r1, root, ptr, len as int, 0);
    assert forall|i: int|
        0 <= i < crate::mm::uaccess::mapped_prefix(r1, root, ptr, len as int, 0) implies r1.holds(
        (#[trigger] crate::mm::uaccess::user_byte_at(r1, root, ptr, i))->0 as int,
        1,
    ) by {
        assert(r0.holds(crate::mm::uaccess::user_byte_at(r0, root, ptr, i)->0 as int, 1));
    }
    assert forall|q: crate::mm::paging::Path|
        crate::mm::paging::path_ok(q) implies ((#[trigger] p.space.leaf(r1, q)) matches Some(e)
        ==> !p.space.tables@.contains(e & crate::mm::paging::ADDR_MASK)) by {
        assert(p.space.leaf(r0, q) == p.space.leaf(r1, q));
    }
}

proof fn lemma_same_prefix(r0: Ram, r1: Ram, root: int, ptr: u64, len: int, i: int)
    requires
        forall|k: int| #[trigger]
            crate::mm::uaccess::user_byte_at(r1, root, ptr, k) == crate::mm::uaccess::user_byte_at(
                r0,
                root,
                ptr,
                k,
            ),
    ensures
        crate::mm::uaccess::mapped_prefix(r1, root, ptr, len, i)
            == crate::mm::uaccess::mapped_prefix(r0, root, ptr, len, i),
    decreases len - i,
{
    if i < len {
        assert(crate::mm::uaccess::user_byte_at(r1, root, ptr, i)
            == crate::mm::uaccess::user_byte_at(r0, root, ptr, i));
        lemma_same_prefix(r0, r1, root, ptr, len, i + 1);
    }
}

/// How a receive goes on.
#[derive(Clone, Copy, Debug, PartialEq, Eq, Structural)]
pub enum Received {
    Return(i64),
    /// Nothing there: the thread is blocked on this token. When it runs again,
    /// receive again.
    Blocked(u64, Option<Switch>),
}

/// How many bytes of a message fit in a buffer.
pub open spec fn fitting(m: MessageView, len: u64) -> int {
    if m.bytes.len() < len {
        m.bytes.len() as int
    } else {
        len as int
    }
}

/// Everything a receive does but to memory: how it goes on, the channels, the
/// threads, and the core.
pub open spec fn recv_outcome(
    procs: Seq<Process>,
    ram: Ram,
    cs: Seq<ChannelView>,
    started: bool,
    ts: Seq<Thread>,
    cpu: Cpu,
    pid: usize,
    slot: u64,
    ptr: u64,
    len: u64,
) -> (Received, Seq<ChannelView>, Seq<Thread>, Cpu) {
    let c = held(procs, pid, slot);
    match cap_error(c, RIGHT_RECV) {
        Some(e) => (Received::Return(e), cs, ts, cpu),
        None => {
            let ch = (c->0).obj->Channel_0;
            match crate::ipc::next_message(cs, ch) {
                Some(m) => {
                    let n = fitting(m, len);
                    let there = crate::mm::uaccess::mapped_prefix(
                        ram,
                        procs[pid as int].space.root as int,
                        ptr,
                        n,
                        0,
                    );
                    (
                        Received::Return(
                            if there < n {
                                EFAULT
                            } else {
                                n as i64
                            },
                        ),
                        crate::ipc::after_receive(cs, ch),
                        ts,
                        cpu,
                    )
                },
                None => {
                    let (ts2, core, sw) = crate::sched::schedule_outcome(
                        started,
                        crate::sched::with_state(
                            ts,
                            cpu.current as int,
                            crate::sched::State::Blocked(ch as u64),
                        ),
                        cpu,
                    );
                    (Received::Blocked(ch as u64, sw), cs, ts2, core)
                },
            }
        },
    }
}

/// What a receive does to memory: the bytes that fit are in the buffer, up to the
/// first that is not mapped, and nothing else is touched.
pub open spec fn recv_memory(
    procs: Seq<Process>,
    r0: Ram,
    r1: Ram,
    cs: Seq<ChannelView>,
    pid: usize,
    slot: u64,
    ptr: u64,
    len: u64,
) -> bool {
    let c = held(procs, pid, slot);
    let ch = (c->0).obj->Channel_0;
    match (cap_error(c, RIGHT_RECV), crate::ipc::next_message(cs, ch)) {
        (None, Some(m)) => {
            let root = procs[pid as int].space.root as int;
            let there = crate::mm::uaccess::mapped_prefix(r0, root, ptr, fitting(m, len), 0);
            &&& r1.base == r0.base
            &&& r1.bytes@.len() == r0.bytes@.len()
            &&& forall|q: int|
                r0.holds(q, 1) ==> #[trigger] r1.byte(q) == (
                match crate::mm::uaccess::last_writer(r0, root, ptr, there, q) {
                    Some(i) => m.bytes[i],
                    None => r0.byte(q),
                })
        },
        _ => r1 == r0,
    }
}

/// Receive a message on the channel that a capability names, or block.
///
/// The capability is resolved every time round: it may have been revoked while
/// this thread was blocked, and a blocked receiver must find out.
pub fn sys_recv(
    table: &Table,
    ram: &mut Ram,
    channels: &mut Channels,
    s: &mut Scheduler,
    cpu: &mut Cpu,
    pid: usize,
    slot: u64,
    ptr: u64,
    len: u64,
) -> (r: Received)
    requires
        old(s).wf(),
        crate::sched::cpu_fits(*old(cpu), old(s).threads@.len()),
        pid < table.procs@.len() ==> reachable(table.procs@[pid as int], *old(ram), ptr, len),
        forall|c: usize|
            (#[trigger] crate::ipc::next_message(old(channels)@, c)) matches Some(m)
                ==> m.bytes.len() < crate::mm::paging::USER_LIMIT,
    ensures
        final(s).wf(),
        crate::sched::cpu_fits(*final(cpu), final(s).threads@.len()),
        old(s).same_but_threads(*final(s)),
        (r, final(channels)@, final(s).threads@, *final(cpu)) == recv_outcome(
            table.procs@,
            *old(ram),
            old(channels)@,
            old(s).started,
            old(s).threads@,
            *old(cpu),
            pid,
            slot,
            ptr,
            len,
        ),
        recv_memory(
            table.procs@,
            *old(ram),
            *final(ram),
            old(channels)@,
            pid,
            slot,
            ptr,
            len,
        ),
        pid < table.procs@.len() ==> reachable(table.procs@[pid as int], *final(ram), ptr, len),
{
    let ch: usize = match resolve(table, pid, slot, RIGHT_RECV) {
        Err(e) => {
            return Received::Return(e);
        },
        Ok(ch) => ch,
    };
    let ghost cs = channels@;
    match try_recv(channels, ch) {
        Some(msg) => {
            let mlen: usize = msg.bytes.len();
            assert(crate::ipc::next_message(cs, ch) == Some(msg@));
            let n: usize = if (mlen as u64) < len {
                mlen
            } else {
                len as usize
            };
            let data = slice_subrange(msg.bytes.as_slice(), 0, n);
            assert(pid < table.procs@.len());
            proof {
                crate::mm::uaccess::part_of_a_buffer_in_memory(
                    *ram,
                    table.procs@[pid as int].space.root as int,
                    ptr,
                    len as int,
                    n as int,
                );
            }
            let ghost r0 = *ram;
            let ghost root = table.procs@[pid as int].space.root as int;
            let copied = copy_to_user(&table.procs[pid].space, ram, ptr, data);
            proof {
                let there = crate::mm::uaccess::mapped_prefix(r0, root, ptr, n as int, 0);
                lemma_prefix_bound(r0, root, ptr, n as int, 0);
                assert forall|q: int| r0.holds(q, 1) implies #[trigger] ram.byte(q) == (
                match crate::mm::uaccess::last_writer(r0, root, ptr, there, q) {
                    Some(i) => msg.bytes@[i],
                    None => r0.byte(q),
                }) by {
                    lemma_writer_in_range(r0, root, ptr, there, q);
                }
                lemma_still_reachable(table.procs@[pid as int], r0, *ram, ptr, len);
            }
            match copied {
                Ok(_) => Received::Return(n as i64),
                Err(_) => Received::Return(EFAULT),
            }
        },
        None => {
            proof {
                lemma_nothing_taken(cs, ch);
            }
            let sw = block_on(s, cpu, ch as u64);
            Received::Blocked(ch as u64, sw)
        },
    }
}

proof fn lemma_prefix_bound(ram: Ram, root: int, uva: u64, len: int, i: int)
    requires
        i <= len,
    ensures
        crate::mm::uaccess::mapped_prefix(ram, root, uva, len, i) <= len,
    decreases len - i,
{
    if i < len {
        lemma_prefix_bound(ram, root, uva, len, i + 1);
    }
}

proof fn lemma_writer_in_range(ram: Ram, root: int, uva: u64, n: int, q: int)
    ensures
        crate::mm::uaccess::last_writer(ram, root, uva, n, q) matches Some(i) ==> 0 <= i < n,
    decreases n,
{
    if n > 0 {
        lemma_writer_in_range(ram, root, uva, n - 1, q);
    }
}

proof fn lemma_nothing_taken(cs: Seq<crate::ipc::ChannelView>, ch: usize)
    requires
        crate::ipc::next_message(cs, ch) is None,
    ensures
        crate::ipc::after_receive(cs, ch) == cs,
{
    if ch < cs.len() {
        assert(crate::ipc::after_receive(cs, ch) =~= cs);
    }
}

/// What happens when a system call returns control.
#[derive(Clone, Copy, Debug, PartialEq, Eq, Structural)]
pub enum Next {
    /// The call is over: back to the process.
    Resume,
    /// The call is over; another thread may run first.
    Yield(Option<Switch>),
    /// The thread is off the run queue until this tick.
    Sleep(u64, Option<Switch>),
    /// Nothing to receive: when the thread runs again, make the call again.
    Retry(u64, Option<Switch>),
    /// The thread is finished.
    Gone(Option<Switch>),
}

/// The process the core is running for.
pub open spec fn caller(ts: Seq<Thread>, cpu: Cpu) -> Option<usize> {
    ts[cpu.current as int].pid
}

/// The processes after the calling one has exited.
pub open spec fn exited(procs: Seq<Process>, pid: usize, code: i64) -> Seq<Process> {
    if pid < procs.len() {
        procs.update(pid as int, Process { exit_code: Some(code), ..procs[pid as int] })
    } else {
        procs
    }
}

/// Nothing but the result register differs.
pub open spec fn returned(f0: TrapFrame, f1: TrapFrame, x0: int) -> bool {
    &&& f1.x@ == f0.x@.update(0, x0 as u64)
    &&& f1.elr == f0.elr
    &&& f1.spsr == f0.spsr
    &&& f1.sp_el0 == f0.sp_el0
}

/// The buffer that a system call uses: where it is and how long. Most use none.
pub open spec fn buffer_of(f: TrapFrame) -> (u64, u64) {
    let n = f.x@[8];
    if n == SYS_WRITE {
        (f.x@[0], looked_at(f.x@[1]))
    } else if n == SYS_SEND {
        (f.x@[1], looked_at(f.x@[2]))
    } else if n == SYS_RECV {
        (f.x@[1], f.x@[2])
    } else {
        (0, 0)
    }
}

/// How much of a buffer to be read is looked at: one that is too long is refused unseen.
pub open spec fn looked_at(len: u64) -> u64 {
    if len > crate::mm::uaccess::MAX_TRANSFER {
        0
    } else {
        len
    }
}

/// Whether the buffer that a system call names can be read and written. Ask this before
/// carrying the call out.
pub fn is_reachable(frame: &TrapFrame, table: &Table, ram: &Ram, pid: usize) -> (r: bool)
    requires
        pid < table.procs@.len() ==> walkable(table.procs@[pid as int], *ram),
    ensures
        r == (pid < table.procs@.len() ==> reachable(
            table.procs@[pid as int],
            *ram,
            buffer_of(*frame).0,
            buffer_of(*frame).1,
        )),
{
    if pid >= table.procs.len() {
        return true;
    }
    let n = frame.x[8];
    let (ptr, len): (u64, u64) = if n == SYS_WRITE {
        (frame.x[0], frame.x[1])
    } else if n == SYS_SEND || n == SYS_RECV {
        (frame.x[1], frame.x[2])
    } else {
        (0, 0)
    };
    let seen: u64 = if n != SYS_RECV && len > crate::mm::uaccess::MAX_TRANSFER as u64 {
        0
    } else {
        len
    };
    is_in_memory(&table.procs[pid].space, ram, ptr, seen)
}

/// What a system call does: to the registers, the processes, memory, the channels, the
/// threads, the core and the console, and how the core goes on.
pub open spec fn handled(
    f0: TrapFrame,
    f1: TrapFrame,
    procs: Seq<Process>,
    procs1: Seq<Process>,
    ram: Ram,
    ram1: Ram,
    cs: Seq<ChannelView>,
    cs1: Seq<ChannelView>,
    started: bool,
    ts: Seq<Thread>,
    ts1: Seq<Thread>,
    core: Cpu,
    core1: Cpu,
    said: Seq<u8>,
    said1: Seq<u8>,
    now: u64,
    next: Next,
) -> bool {
    let (a, b, c) = (f0.x@[0], f0.x@[1], f0.x@[2]);
    let n = f0.x@[8];
    match caller(ts, core) {
        None => {
            &&& next == Next::Resume
            &&& returned(f0, f1, in_register(EINVAL))
            &&& procs1 == procs
            &&& ram1 == ram
            &&& cs1 == cs
            &&& ts1 == ts
            &&& core1 == core
            &&& said1 == said
        },
        Some(pid) => if n == SYS_EXIT {
            let gone = crate::sched::with_state(ts, core.current as int, State::Finished);
            let (ts2, core2, sw) = crate::sched::schedule_outcome(started, gone, core);
            &&& next == Next::Gone(sw)
            &&& f1 == f0
            &&& exists|code: i64|
                in_register(code) == a && procs1 == #[trigger] exited(
                    procs,
                    pid,
                    code,
                )
            &&& ram1 == ram
            &&& cs1 == cs
            &&& ts1 == ts2
            &&& core1 == core2
            &&& said1 == said
        } else if n == SYS_WRITE {
            let (r, text) = write_outcome(procs, ram, pid, a, b);
            &&& next == Next::Resume
            &&& returned(f0, f1, in_register(r as i64))
            &&& said1 == said + text
            &&& procs1 == procs
            &&& ram1 == ram
            &&& cs1 == cs
            &&& ts1 == ts
            &&& core1 == core
        } else if n == SYS_YIELD {
            let (ts2, core2, sw) = crate::sched::schedule_outcome(started, ts, core);
            &&& next == Next::Yield(sw)
            &&& returned(f0, f1, 0)
            &&& ts1 == ts2
            &&& core1 == core2
            &&& procs1 == procs
            &&& ram1 == ram
            &&& cs1 == cs
            &&& said1 == said
        } else if n == SYS_SEND {
            let (r, cs2, ts2) = send_outcome(procs, ram, cs, ts, pid, a, b, c);
            &&& next == Next::Resume
            &&& returned(f0, f1, in_register(r as i64))
            &&& cs1 == cs2
            &&& ts1 == ts2
            &&& core1 == core
            &&& procs1 == procs
            &&& ram1 == ram
            &&& said1 == said
        } else if n == SYS_RECV {
            let (r, cs2, ts2, core2) = recv_outcome(
                procs,
                ram,
                cs,
                started,
                ts,
                core,
                pid,
                a,
                b,
                c,
            );
            &&& match r {
                Received::Return(v) => next == Next::Resume && returned(
                    f0,
                    f1,
                    in_register(v),
                ),
                Received::Blocked(t, sw) => next == Next::Retry(t, sw) && f1
                    == f0,
            }
            &&& cs1 == cs2
            &&& ts1 == ts2
            &&& core1 == core2
            &&& recv_memory(procs, ram, ram1, cs, pid, a, b, c)
            &&& procs1 == procs
            &&& said1 == said
        } else if n == SYS_SLEEP {
            let until = now.wrapping_add(a);
            let asleep = crate::sched::with_state(
                ts,
                core.current as int,
                State::Sleeping(until),
            );
            let (ts2, core2, sw) = crate::sched::schedule_outcome(started, asleep, core);
            &&& returned(f0, f1, 0)
            &&& if now < until {
                &&& next == Next::Sleep(until, sw)
                &&& ts1 == ts2
                &&& core1 == core2
            } else {
                &&& next == Next::Resume
                &&& ts1 == asleep
                &&& core1 == core
            }
            &&& procs1 == procs
            &&& ram1 == ram
            &&& cs1 == cs
            &&& said1 == said
        } else {
            &&& next == Next::Resume
            &&& returned(
                f0,
                f1,
                if n == SYS_GETPID {
                    pid as int
                } else if n == SYS_TICKS {
                    now as int
                } else {
                    in_register(EINVAL)
                },
            )
            &&& procs1 == procs
            &&& ram1 == ram
            &&& cs1 == cs
            &&& ts1 == ts
            &&& core1 == core
            &&& said1 == said
        },
    }
}

/// Carry out the system call that a process made: x8 says which, x0 to x2 are its
/// arguments, and x0 takes the result. `now` is the tick it is.
pub fn dispatch(
    frame: &mut TrapFrame,
    table: &mut Table,
    ram: &mut Ram,
    channels: &mut Channels,
    s: &mut Scheduler,
    cpu: &mut Cpu,
    console: &mut Vec<u8>,
    now: u64,
) -> (next: Next)
    requires
        old(s).wf(),
        crate::sched::cpu_fits(*old(cpu), old(s).threads@.len()),
        caller(old(s).threads@, *old(cpu)) matches Some(pid) ==> {
            &&& pid <= i64::MAX
            &&& pid < old(table).procs@.len() ==> reachable(
                old(table).procs@[pid as int],
                *old(ram),
                buffer_of(*old(frame)).0,
                buffer_of(*old(frame)).1,
            )
        },
        forall|c: usize|
            (#[trigger] crate::ipc::next_message(old(channels)@, c)) matches Some(m)
                ==> m.bytes.len() < crate::mm::paging::USER_LIMIT,
    ensures
        final(s).wf(),
        crate::sched::cpu_fits(*final(cpu), final(s).threads@.len()),
        old(s).same_but_threads(*final(s)),
        caller(old(s).threads@, *old(cpu)) matches Some(pid) ==> pid < old(table).procs@.len()
            ==> reachable(
            final(table).procs@[pid as int],
            *final(ram),
            buffer_of(*old(frame)).0,
            buffer_of(*old(frame)).1,
        ),
        handled(
            *old(frame),
            *final(frame),
            old(table).procs@,
            final(table).procs@,
            *old(ram),
            *final(ram),
            old(channels)@,
            final(channels)@,
            old(s).started,
            old(s).threads@,
            final(s).threads@,
            *old(cpu),
            *final(cpu),
            old(console)@,
            final(console)@,
            now,
            next,
        ),
{
    let n = frame.x[8];
    let a = frame.x[0];
    let b = frame.x[1];
    let c = frame.x[2];
    let ghost ts = s.threads@;
    let pid: usize = match current_pid(s, cpu) {
        None => {
            frame.x[0] = to_register(EINVAL);
            return Next::Resume;
        },
        Some(pid) => pid,
    };
    if n == SYS_EXIT {
        let code = from_register(a);
        let ghost procs = table.procs@;
        if pid < table.procs.len() {
            table.procs[pid].exit_code = Some(code);
        }
        proof {
            assert(table.procs@ =~= exited(procs, pid, code));
        }
        thread_exit(s, cpu);
        let sw = schedule(s, cpu);
        return Next::Gone(sw);
    }
    if n == SYS_WRITE {
        let r = sys_write(table, ram, console, pid, a, b);
        frame.x[0] = to_register(r);
        return Next::Resume;
    }
    if n == SYS_YIELD {
        let sw = yield_now(s, cpu);
        frame.x[0] = 0;
        return Next::Yield(sw);
    }
    if n == SYS_SEND {
        let r = sys_send(table, ram, channels, s, pid, a, b, c);
        frame.x[0] = to_register(r);
        return Next::Resume;
    }
    if n == SYS_RECV {
        return match sys_recv(table, ram, channels, s, cpu, pid, a, b, c) {
            Received::Return(v) => {
                frame.x[0] = to_register(v);
                Next::Resume
            },
            Received::Blocked(t, sw) => Next::Retry(t, sw),
        };
    }
    if n == SYS_SLEEP {
        let until = sleep_ticks(s, cpu, now, a);
        frame.x[0] = 0;
        if now < until {
            let sw = schedule(s, cpu);
            return Next::Sleep(until, sw);
        }
        return Next::Resume;
    }
    frame.x[0] =
    if n == SYS_GETPID {
        pid as u64
    } else if n == SYS_TICKS {
        now
    } else {
        to_register(EINVAL)
    };
    Next::Resume
}

// ---- what the interface promises ------------------------------------------------------

/// A fresh process can be served, whatever buffer it names: every address that it has
/// mapped is memory, and none of it is one of its own tables.
pub proof fn a_fresh_process_can_be_served(
    image: Seq<u8>,
    p: Process,
    ram: Ram,
    frames: Frames,
    ptr: u64,
    len: u64,
)
    requires
        p.space.wf(ram, frames),
        crate::elf::anchored(p.space, ram, frames),
        crate::proc::fresh_memory(image, p.space, ram, frames),
    ensures
        reachable(p, ram, ptr, len),
{
    let root = p.space.root as int;
    crate::mm::uaccess::a_prefix_is_mapped(ram, root, ptr, len as int);
    assert forall|i: int|
        0 <= i < crate::mm::uaccess::mapped_prefix(ram, root, ptr, len as int, 0) implies ram.holds(
        (#[trigger] crate::mm::uaccess::user_byte_at(ram, root, ptr, i))->0 as int,
        1,
    ) by {
        assert(crate::mm::uaccess::user_byte_at(ram, root, ptr, i) is Some);
        crate::proc::a_fresh_process_has_its_own_memory(
            image,
            p.space,
            ram,
            frames,
            (ptr + i) as u64,
        );
    }
}

/// A message that one process receives disturbs no other: where the receiver has mapped
/// only frames of its own, every byte of every frame of another process stays as it was,
/// its page tables among them.
pub proof fn receiving_disturbs_no_other_process(
    procs: Seq<Process>,
    r0: Ram,
    r1: Ram,
    frames: Frames,
    cs: Seq<ChannelView>,
    pid: usize,
    slot: u64,
    ptr: u64,
    len: u64,
    other: int,
    x: u64,
    q: int,
)
    requires
        crate::proc::spaces_ok(procs, r0, frames),
        pid < procs.len(),
        0 <= other < procs.len(),
        other != pid,
        forall|va: u64|
            (#[trigger] crate::mm::paging::translation(
                r0,
                procs[pid as int].space.root as int,
                va,
            )) matches Some(pa) ==> procs[pid as int].space.owned@.contains(
                (pa - pa % 4096) as u64,
            ),
        recv_memory(procs, r0, r1, cs, pid, slot, ptr, len),
        procs[other].space.owned@.contains(x),
        x <= q < x + 4096,
    ensures
        r1.byte(q) == r0.byte(q),
{
    let mine = procs[pid as int].space;
    let theirs = procs[other].space;
    let root = mine.root as int;
    let k = choose|k: int| 0 <= k < theirs.owned@.len() && theirs.owned@[k] == x;
    assert(procs[other].space.wf(r0, frames));
    assert(frames.in_use(theirs.owned@[k]));
    assert(crate::proc::disjoint(procs[pid as int].space, procs[other].space));
    assert(!mine.owned@.contains(theirs.owned@[k]));
    let c = held(procs, pid, slot);
    let ch = (c->0).obj->Channel_0;
    match (cap_error(c, RIGHT_RECV), crate::ipc::next_message(cs, ch)) {
        (None, Some(m)) => {
            let there = crate::mm::uaccess::mapped_prefix(r0, root, ptr, fitting(m, len), 0);
            assert forall|i: int| 0 <= i < there implies
                #[trigger] crate::mm::uaccess::user_byte_at(r0, root, ptr, i) != Some(q as u64) by {
                if crate::mm::uaccess::user_byte_at(r0, root, ptr, i) == Some(q as u64) {
                    assert(crate::mm::paging::translation(r0, root, (ptr + i) as u64) == Some(
                        q as u64,
                    ));
                    assert(q - q % 4096 == x);
                }
            }
            crate::mm::uaccess::other_bytes_are_not_written(r0, root, ptr, there, q);
            assert(r0.holds(q, 1));
        },
        _ => {},
    }
}

/// A process without a live capability that has the right gets nothing done: its
/// call changes no channel and wakes no one, and it learns which of the three was
/// missing.
pub proof fn no_authority_no_effect(
    procs: Seq<Process>,
    ram: Ram,
    cs: Seq<ChannelView>,
    ts: Seq<Thread>,
    pid: usize,
    slot: u64,
    ptr: u64,
    len: u64,
)
    requires
        match held(procs, pid, slot) {
            None => true,
            Some(c) => c.revoked || c.rights & RIGHT_SEND == 0,
        },
    ensures
        send_outcome(procs, ram, cs, ts, pid, slot, ptr, len) == (
            match held(procs, pid, slot) {
                None => EBADCAP as int,
                Some(c) => if c.revoked {
                    EREVOKED as int
                } else {
                    EPERM as int
                },
            },
            cs,
            ts,
        ),
{
}

/// The same of receiving.
pub proof fn no_authority_no_message(
    procs: Seq<Process>,
    ram: Ram,
    cs: Seq<ChannelView>,
    started: bool,
    ts: Seq<Thread>,
    cpu: Cpu,
    pid: usize,
    slot: u64,
    ptr: u64,
    len: u64,
)
    requires
        match held(procs, pid, slot) {
            None => true,
            Some(c) => c.revoked || c.rights & RIGHT_RECV == 0,
        },
    ensures
        recv_outcome(procs, ram, cs, started, ts, cpu, pid, slot, ptr, len) == (
            Received::Return(
                match held(procs, pid, slot) {
                    None => EBADCAP,
                    Some(c) => if c.revoked {
                        EREVOKED
                    } else {
                        EPERM
                    },
                },
            ),
            cs,
            ts,
            cpu,
        ),
{
}

/// A message arrives as it was sent: once a process with the right to send has sent
/// what is in its buffer on an empty channel, a process with the right to receive on
/// that channel finds exactly those bytes in its own. `rs` is memory when the message
/// is sent, `r0` and `r1` memory before and after it is received.
pub proof fn a_message_arrives_as_it_was_sent(
    procs: Seq<Process>,
    rs: Ram,
    r0: Ram,
    r1: Ram,
    cs: Seq<ChannelView>,
    ts: Seq<Thread>,
    sender: usize,
    sslot: u64,
    sptr: u64,
    len: u64,
    receiver: usize,
    rslot: u64,
    rptr: u64,
    room: u64,
    ch: usize,
)
    requires
        cap_error(held(procs, sender, sslot), RIGHT_SEND) is None,
        (held(procs, sender, sslot)->0).obj == Obj::Channel(ch),
        cap_error(held(procs, receiver, rslot), RIGHT_RECV) is None,
        (held(procs, receiver, rslot)->0).obj == Obj::Channel(ch),
        ch < cs.len(),
        cs[ch as int].queue.len() == 0,
        user_bytes(procs[sender as int], rs, sptr, len as int) is Some,
        len <= room,
        ({
            let root = procs[receiver as int].space.root as int;
            &&& crate::mm::uaccess::mapped_prefix(r0, root, rptr, len as int, 0) == len
            &&& forall|i: int|
                0 <= i < len ==> r0.holds(
                    (#[trigger] crate::mm::uaccess::user_byte_at(r0, root, rptr, i))->0 as int,
                    1,
                )
            &&& forall|i: int, j: int|
                0 <= i < j < len ==> #[trigger] crate::mm::uaccess::user_byte_at(r0, root, rptr, i)
                    != #[trigger] crate::mm::uaccess::user_byte_at(r0, root, rptr, j)
        }),
        recv_memory(
            procs,
            r0,
            r1,
            send_outcome(procs, rs, cs, ts, sender, sslot, sptr, len).1,
            receiver,
            rslot,
            rptr,
            room,
        ),
    ensures
        ({
            let root = procs[receiver as int].space.root as int;
            let b = user_bytes(procs[sender as int], rs, sptr, len as int)->0;
            &&& send_outcome(procs, rs, cs, ts, sender, sslot, sptr, len).0 == len
            &&& crate::ipc::next_message(
                send_outcome(procs, rs, cs, ts, sender, sslot, sptr, len).1,
                ch,
            ) == Some(MessageView { from: sender, bytes: b })
            &&& forall|i: int|
                0 <= i < len ==> r1.byte(
                    (#[trigger] crate::mm::uaccess::user_byte_at(r0, root, rptr, i))->0 as int,
                ) == b[i]
        }),
{
    let root = procs[receiver as int].space.root as int;
    let b = user_bytes(procs[sender as int], rs, sptr, len as int)->0;
    let cs2 = send_outcome(procs, rs, cs, ts, sender, sslot, sptr, len).1;
    let m = MessageView { from: sender, bytes: b };
    assert(cs2[ch as int].queue[0] == m);
    assert(crate::ipc::next_message(cs2, ch) == Some(m));
    crate::mm::uaccess::a_prefix_is_mapped(r0, root, rptr, len as int);
    assert forall|i: int| 0 <= i < len implies r1.byte(
        (#[trigger] crate::mm::uaccess::user_byte_at(r0, root, rptr, i))->0 as int,
    ) == b[i] by {
        crate::mm::uaccess::copied_bytes_are_there(r0, root, rptr, len as int, i);
        let q = crate::mm::uaccess::user_byte_at(r0, root, rptr, i)->0 as int;
        assert(r0.holds(q, 1));
    }
}

/// A blocked receiver finds out that its capability was revoked: it is woken, and
/// the receive it makes again is refused.
pub proof fn a_blocked_receiver_learns_of_revocation(
    l: Seq<crate::cap::Provenance>,
    cap_id: u64,
    before: Seq<Process>,
    after: Seq<Process>,
    t: Thread,
    pid: usize,
    slot: u64,
    ram: Ram,
    cs: Seq<ChannelView>,
    started: bool,
    ts: Seq<Thread>,
    cpu: Cpu,
    ptr: u64,
    len: u64,
)
    requires
        held(before, pid, slot) matches Some(c) && !c.revoked && crate::cap::descends(
            l,
            c.id,
            cap_id,
        ) && c.obj is Channel && t.state == State::Blocked(c.obj->Channel_0 as u64),
        after.len() == before.len(),
        forall|i: int, j: int|
            0 <= i < before.len() && 0 <= j < 8 ==> #[trigger] after[i].caps@[j]
                == crate::proc::after_revoking(l, cap_id, before[i].caps@[j]),
    ensures
        crate::proc::must_notice(l, cap_id, before, t),
        recv_outcome(after, ram, cs, started, ts, cpu, pid, slot, ptr, len).0
            == Received::Return(EREVOKED),
{
    let c = held(before, pid, slot)->0;
    let ch = c.obj->Channel_0;
    assert(before[pid as int].caps@[slot as int] == Some(c));
    assert(crate::proc::dies(l, cap_id, before[pid as int].caps@[slot as int]));
    assert(crate::proc::cuts_channel(l, cap_id, before, before.len() as int, 0, ch));
    assert(after[pid as int].caps@[slot as int] == crate::proc::after_revoking(
        l,
        cap_id,
        Some(c),
    ));
}

} // verus!
