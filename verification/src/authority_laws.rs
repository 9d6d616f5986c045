//! What capabilities, channels and system calls promise a process, said of slots, rights,
//! queues and bytes.
use vstd::prelude::*;
use crate::cap::{Cap, Obj, Provenance};
use crate::exceptions::TrapFrame;
use crate::ipc::{ChannelView, MessageView};
use crate::mm::ram::Ram;
use crate::proc::Process;
use crate::sched::{State, Thread};
use crate::smp::Cpu;
use crate::syscall::{Next, Received};

verus! {

// ---- delegation -----------------------------------------------------------------------------

/// A delegation chain goes from each capability to the one it was derived from, and says of
/// each what the ledger says; it ends only where it has to — at a root, at the ledger's end,
/// or for want of room.
pub proof fn a_chain_goes_from_child_to_parent(l: Seq<Provenance>, id: u64, room: nat, k: int)
    requires
        0 <= k < crate::cap::chain_of(l, id, room).len(),
    ensures
        ({
            let c = crate::cap::chain_of(l, id, room);
            &&& c.len() <= room
            &&& c[0].0 == id
            &&& 1 <= c[k].0 <= l.len()
            &&& c[k].1 == l[c[k].0 - 1]
            &&& k + 1 < c.len() ==> c[k + 1].0 == c[k].1.parent
            &&& k + 1 == c.len() && k + 1 < room ==> c[k].1.parent == 0 || c[k].1.parent > l.len()
        }),
    decreases room,
{
    let p = l[id - 1].parent;
    let rest = crate::cap::chain_of(l, p, (room - 1) as nat);
    let c = crate::cap::chain_of(l, id, room);
    assert(c == seq![(id, l[id - 1])] + rest);
    if rest.len() > 0 {
        a_chain_goes_from_child_to_parent(l, p, (room - 1) as nat, 0);
        if k > 0 {
            a_chain_goes_from_child_to_parent(l, p, (room - 1) as nat, k - 1);
            assert(c[k] == rest[k - 1]);
            if k + 1 < c.len() {
                assert(c[k + 1] == rest[k]);
            }
        } else {
            assert(c[1] == rest[0]);
        }
    }
}

/// Descent is step by step: a capability descends from itself, from what it was derived from,
/// and from what that descends from, and from nothing else.
pub proof fn descent_is_step_by_step(l: Seq<Provenance>, id: u64, ancestor: u64)
    requires
        crate::cap::rooted(l),
        1 <= id <= l.len(),
        ancestor >= 1,
    ensures
        crate::cap::descends(l, id, ancestor) == (id == ancestor || (l[id - 1].parent != 0
            && crate::cap::descends(l, l[id - 1].parent, ancestor))),
        !crate::cap::descends(l, id, 0),
    decreases id,
{
    assert(l[id - 1].parent <= id - 1);
    assert(!crate::cap::descends(l, 0, ancestor) && !crate::cap::descends(l, 0, 0));
    if l[id - 1].parent != 0 {
        descent_is_step_by_step(l, l[id - 1].parent, ancestor);
    }
}

/// What the ledger keeps of a minting is what was minted: from which capability, for whom,
/// why, and with which rights.
pub proof fn a_minting_is_recorded(
    parent: u64,
    holder: &'static str,
    purpose: &'static str,
    rights: u32,
)
    ensures
        ({
            let e = crate::cap::entry_for(parent, holder, purpose, rights);
            e.parent == parent && e.holder == holder && e.purpose == purpose && e.rights == rights
        }),
{
}

// ---- revocation -----------------------------------------------------------------------------

/// Whether a slot holds a live capability that descends from `id`.
pub open spec fn is_cut(l: Seq<Provenance>, id: u64, slot: Option<Cap>) -> bool {
    slot is Some && !(slot->0).revoked && crate::cap::descends(l, (slot->0).id, id)
}

/// A revocation marks exactly the live descendants, changes nothing else of any slot, and
/// counts each it marks once.
pub proof fn a_revocation_marks_and_counts(
    l: Seq<Provenance>,
    id: u64,
    slots: Seq<Option<Cap>>,
    n: int,
)
    requires
        0 <= n < slots.len(),
    ensures
        ({
            let after = crate::proc::after_revoking(l, id, slots[n]);
            &&& (after is Some) == (slots[n] is Some)
            &&& is_cut(l, id, slots[n]) ==> (after->0).revoked
            &&& !is_cut(l, id, slots[n]) ==> after == slots[n]
            &&& slots[n] is Some ==> (after->0).id == (slots[n]->0).id && (after->0).obj == (
            slots[n]->0).obj && (after->0).rights == (slots[n]->0).rights
            &&& crate::proc::deaths_in(l, id, slots, 0) == 0
            &&& crate::proc::deaths_in(l, id, slots, n + 1) - crate::proc::deaths_in(
                l,
                id,
                slots,
                n,
            ) == if is_cut(l, id, slots[n]) {
                1int
            } else {
                0
            }
        }),
{
}

/// The count goes over every slot of every process.
pub proof fn every_process_is_counted(l: Seq<Provenance>, id: u64, procs: Seq<Process>, n: int)
    requires
        0 <= n < procs.len(),
    ensures
        crate::proc::deaths(l, id, procs, 0) == 0,
        crate::proc::deaths(l, id, procs, n + 1) == crate::proc::deaths(l, id, procs, n)
            + crate::proc::deaths_in(l, id, procs[n].caps@, 8),
{
}

/// Who is woken by a revocation: a thread that waits for a channel if and only if some process
/// somewhere loses a live capability to that channel by it.
pub proof fn a_revocation_wakes_who_waits_on_what_it_cuts(
    l: Seq<Provenance>,
    id: u64,
    procs: Seq<Process>,
    t: Thread,
)
    ensures
        crate::proc::must_notice(l, id, procs, t) <==> exists|i: int, j: int|
            #![trigger procs[i].caps@[j]]
            0 <= i < procs.len() && 0 <= j < 8 && is_cut(l, id, procs[i].caps@[j]) && (
            procs[i].caps@[j]->0).obj is Channel && t.state == State::Blocked(
                (procs[i].caps@[j]->0).obj->Channel_0 as u64,
            ),
{
    let n = procs.len() as int;
    if crate::proc::must_notice(l, id, procs, t) {
        let ch = choose|ch: usize| #[trigger]
            crate::proc::cuts_channel(l, id, procs, n, 0, ch) && t.state == State::Blocked(
                ch as u64,
            );
        let (i, j) = choose|i: int, j: int|
            #![trigger procs[i].caps@[j]]
            0 <= i < procs.len() && 0 <= j < 8 && (i < n || (i == n && j < 0))
                && crate::proc::dies(l, id, procs[i].caps@[j]) && (procs[i].caps@[j]->0).obj
                == Obj::Channel(ch);
        assert(is_cut(l, id, procs[i].caps@[j]));
    }
    if exists|i: int, j: int|
        #![trigger procs[i].caps@[j]]
        0 <= i < procs.len() && 0 <= j < 8 && is_cut(l, id, procs[i].caps@[j]) && (
        procs[i].caps@[j]->0).obj is Channel && t.state == State::Blocked(
            (procs[i].caps@[j]->0).obj->Channel_0 as u64,
        ) {
        let (i, j) = choose|i: int, j: int|
            #![trigger procs[i].caps@[j]]
            0 <= i < procs.len() && 0 <= j < 8 && is_cut(l, id, procs[i].caps@[j]) && (
            procs[i].caps@[j]->0).obj is Channel && t.state == State::Blocked(
                (procs[i].caps@[j]->0).obj->Channel_0 as u64,
            );
        let ch = (procs[i].caps@[j]->0).obj->Channel_0;
        assert(crate::proc::dies(l, id, procs[i].caps@[j]));
        assert(crate::proc::cuts_channel(l, id, procs, n, 0, ch));
    }
}

// ---- channels -------------------------------------------------------------------------------

/// A send puts one message behind the others and counts it; it takes none away.
pub proof fn a_send_adds_behind_the_others(c: ChannelView, m: MessageView)
    ensures
        c.with_message(m).queue == c.queue + seq![m],
        c.with_message(m).sent == c.sent.wrapping_add(1),
        c.with_message(m).received == c.received,
{
    assert(c.with_message(m).queue =~= c.queue + seq![m]);
}

/// A receive takes the message that has waited longest, takes it once, and leaves the others
/// in their order; no other channel is touched. From a channel that is empty, or not there, it
/// takes nothing.
pub proof fn a_receive_takes_the_oldest(cs: Seq<ChannelView>, channel: usize)
    ensures
        ({
            let after = crate::ipc::after_receive(cs, channel);
            let got = crate::ipc::next_message(cs, channel);
            &&& after.len() == cs.len()
            &&& forall|i: int| 0 <= i < cs.len() && i != channel ==> #[trigger] after[i] == cs[i]
            &&& if channel < cs.len() && cs[channel as int].queue.len() > 0 {
                &&& got is Some
                &&& cs[channel as int].queue == seq![got->0] + after[channel as int].queue
                &&& after[channel as int].received == cs[channel as int].received.wrapping_add(1)
                &&& after[channel as int].sent == cs[channel as int].sent
            } else {
                got is None && after == cs
            }
        }),
{
    let after = crate::ipc::after_receive(cs, channel);
    if channel < cs.len() {
        let q = cs[channel as int].queue;
        if q.len() > 0 {
            assert(q =~= seq![q[0]] + q.drop_first());
        } else {
            assert(after =~= cs);
        }
    }
}

/// What comes out of a channel is what went in, in that order: after sending any messages on
/// it, as many receives give them back one by one, once those that were there before are gone.
pub proof fn messages_come_out_as_they_went_in(
    cs: Seq<ChannelView>,
    channel: usize,
    m: MessageView,
    k: int,
)
    requires
        channel < cs.len(),
        0 <= k < cs[channel as int].queue.len(),
    ensures
        ({
            let sent = cs.update(channel as int, cs[channel as int].with_message(m));
            let q = cs[channel as int].queue;
            &&& sent[channel as int].queue[k] == q[k]
            &&& sent[channel as int].queue[q.len() as int] == m
            &&& crate::ipc::next_message(sent, channel) == Some(q[0])
        }),
{
}

// ---- system calls ---------------------------------------------------------------------------

/// A result reads back from the register it was put in: what is not negative as it is, what is
/// negative as so far below the size of the register.
pub proof fn a_result_keeps_its_sign(r: i64, q: i64)
    ensures
        0 <= crate::syscall::in_register(r) <= u64::MAX,
        (crate::syscall::in_register(r) - r) % 0x1_0000_0000_0000_0000 == 0,
        crate::syscall::in_register(r) == crate::syscall::in_register(q) ==> r == q,
        r < 0 <==> crate::syscall::in_register(r) > i64::MAX,
{
}

/// What is in a slot of a process's table; nothing where there is no such process or slot.
pub open spec fn in_slot(procs: Seq<Process>, pid: usize, slot: u64) -> Option<Cap> {
    if pid < procs.len() && slot < 8 {
        procs[pid as int].caps@[slot as int]
    } else {
        None
    }
}

/// What a process has to hold to use a channel, and what it is told if it does not: that there
/// is no capability, that it was revoked, that it lacks the right, or that it is to something
/// else — in that order.
pub proof fn a_capability_is_checked_in_order(
    procs: Seq<Process>,
    pid: usize,
    slot: u64,
    right: u32,
)
    ensures
        ({
            let c = in_slot(procs, pid, slot);
            crate::syscall::cap_error(crate::syscall::held(procs, pid, slot), right) == (
            if c is None {
                Some(-1i64)
            } else if (c->0).revoked {
                Some(-3i64)
            } else if (c->0).rights & right == 0 {
                Some(-2i64)
            } else if !((c->0).obj is Channel) {
                Some(-1i64)
            } else {
                None
            })
        }),
{
}

/// The bytes that are taken from a process are those at the addresses it named, each found by
/// its own page tables; if any of them is not mapped, or there are too many, none is taken.
pub proof fn bytes_are_taken_from_where_the_process_says(
    p: Process,
    ram: Ram,
    uva: u64,
    len: int,
)
    requires
        0 <= len,
    ensures
        match crate::syscall::user_bytes(p, ram, uva, len) {
            Some(b) => {
                &&& len <= 4096
                &&& b.len() == len
                &&& forall|i: int|
                    0 <= i < len ==> (#[trigger] crate::mm::uaccess::user_byte_at(
                        ram,
                        p.space.root as int,
                        uva,
                        i,
                    )) is Some
                &&& forall|i: int|
                    0 <= i < len ==> #[trigger] b[i] == ram.byte(
                        crate::mm::paging::translation(
                            ram,
                            p.space.root as int,
                            (uva + i) as u64,
                        )->0 as int,
                    )
            },
            None => len > 4096 || exists|i: int|
                0 <= i < len && (#[trigger] crate::mm::uaccess::user_byte_at(
                    ram,
                    p.space.root as int,
                    uva,
                    i,
                )) is None,
        },
        forall|i: int| #[trigger]
            crate::mm::uaccess::user_byte_at(ram, p.space.root as int, uva, i)
                == crate::mm::paging::translation(ram, p.space.root as int, (uva + i) as u64),
{
    let root = p.space.root as int;
    crate::mm::uaccess::a_prefix_is_mapped(ram, root, uva, len);
    if crate::syscall::user_bytes(p, ram, uva, len) is None && len <= 4096 {
        if forall|i: int|
            0 <= i < len ==> (#[trigger] crate::mm::uaccess::user_byte_at(ram, root, uva, i))
                is Some {
            crate::mm::uaccess::a_mapped_buffer_is_mapped_to_its_end(ram, root, uva, len);
        }
    }
}

/// A send that is allowed puts exactly the caller's bytes on the channel its capability names,
/// under the caller's own number, returns how many there were, and wakes who waits there. If
/// the bytes cannot be had it says so, and nothing changes.
pub proof fn a_send_says_who_and_what(
    procs: Seq<Process>,
    ram: Ram,
    cs: Seq<ChannelView>,
    ts: Seq<Thread>,
    pid: usize,
    slot: u64,
    ptr: u64,
    len: u64,
)
    requires
        in_slot(procs, pid, slot) matches Some(c) && !c.revoked && c.rights & 1 != 0
            && c.obj is Channel && c.obj->Channel_0 < cs.len(),
    ensures
        ({
            let ch = (in_slot(procs, pid, slot)->0).obj->Channel_0 as int;
            let bytes = crate::syscall::user_bytes(procs[pid as int], ram, ptr, len as int);
            let (r, cs2, ts2) = crate::syscall::send_outcome(
                procs,
                ram,
                cs,
                ts,
                pid,
                slot,
                ptr,
                len,
            );
            if bytes is None {
                r == -4 && cs2 == cs && ts2 == ts
            } else {
                &&& r == len
                &&& cs2.len() == cs.len()
                &&& forall|i: int| 0 <= i < cs.len() && i != ch ==> #[trigger] cs2[i] == cs[i]
                &&& cs2[ch].queue == cs[ch].queue.push(
                    MessageView { from: pid, bytes: bytes->0 },
                )
                &&& forall|t: int|
                    0 <= t < ts.len() ==> (#[trigger] ts2[t]).state == if ts[t].state
                        == State::Blocked(ch as u64) {
                        State::Runnable
                    } else {
                        ts[t].state
                    }
            }
        }),
{
}

/// A receive that is allowed takes the oldest message and says how much of it fitted; if the
/// buffer is not there the message is gone with it. With nothing to take, the caller is blocked
/// on that very channel in the same step, so that no send can be missed.
pub proof fn a_receive_takes_or_blocks(
    procs: Seq<Process>,
    ram: Ram,
    cs: Seq<ChannelView>,
    started: bool,
    ts: Seq<Thread>,
    cpu: Cpu,
    pid: usize,
    slot: u64,
    ptr: u64,
    len: u64,
)
    requires
        in_slot(procs, pid, slot) matches Some(c) && !c.revoked && c.rights & 2 != 0
            && c.obj is Channel && c.obj->Channel_0 < cs.len(),
        ts.len() <= usize::MAX,
        crate::sched::cpu_fits(cpu, ts.len()),
        cs[(in_slot(procs, pid, slot)->0).obj->Channel_0 as int].queue.len() > 0 ==> cs[(in_slot(
            procs,
            pid,
            slot,
        )->0).obj->Channel_0 as int].queue[0].bytes.len() <= i64::MAX,
    ensures
        ({
            let ch = (in_slot(procs, pid, slot)->0).obj->Channel_0;
            let q = cs[ch as int].queue;
            let (r, cs2, ts2, cpu2) = crate::syscall::recv_outcome(
                procs,
                ram,
                cs,
                started,
                ts,
                cpu,
                pid,
                slot,
                ptr,
                len,
            );
            if q.len() > 0 {
                let fits = if q[0].bytes.len() <= len {
                    q[0].bytes.len() as int
                } else {
                    len as int
                };
                let there = forall|i: int|
                    0 <= i < fits ==> (#[trigger] crate::mm::uaccess::user_byte_at(
                        ram,
                        procs[pid as int].space.root as int,
                        ptr,
                        i,
                    )) is Some;
                &&& r == Received::Return(
                    if there {
                        fits as i64
                    } else {
                        -4i64
                    },
                )
                &&& cs2[ch as int].queue == q.drop_first()
                &&& forall|i: int| 0 <= i < cs.len() && i != ch ==> #[trigger] cs2[i] == cs[i]
                &&& ts2 == ts && cpu2 == cpu
            } else {
                &&& r is Blocked && r->Blocked_0 == ch
                &&& cs2 == cs
                &&& ts2[cpu.current as int].state == State::Blocked(ch as u64)
            }
        }),
{
    let ch = (in_slot(procs, pid, slot)->0).obj->Channel_0;
    let root = procs[pid as int].space.root as int;
    let q = cs[ch as int].queue;
    if q.len() > 0 {
        let fits = crate::syscall::fitting(q[0], len);
        crate::mm::uaccess::a_prefix_is_mapped(ram, root, ptr, fits);
        if forall|i: int|
            0 <= i < fits ==> (#[trigger] crate::mm::uaccess::user_byte_at(ram, root, ptr, i))
                is Some {
            crate::mm::uaccess::a_mapped_buffer_is_mapped_to_its_end(ram, root, ptr, fits);
        }
    } else {
        let blocked = crate::sched::with_state(
            ts,
            cpu.current as int,
            State::Blocked(ch as u64),
        );
        crate::sched_laws::what_a_core_runs_next(started, blocked, cpu);
        if crate::sched::schedule_outcome(started, blocked, cpu).2 is Some {
            crate::sched_laws::what_a_switch_leaves(started, blocked, cpu);
        }
        assert(crate::ipc::next_message(cs, ch) is None);
    }
}

/// A console write says exactly the caller's bytes if they are text, and nothing if they are
/// not; it is refused, with nothing said, for a buffer that is too long, that is not there, or
/// that holds no text.
pub proof fn a_write_says_the_callers_text(
    procs: Seq<Process>,
    ram: Ram,
    pid: usize,
    ptr: u64,
    len: u64,
)
    requires
        pid < procs.len(),
    ensures
        ({
            let (r, said) = crate::syscall::write_outcome(procs, ram, pid, ptr, len);
            let bytes = crate::syscall::user_bytes(procs[pid as int], ram, ptr, len as int);
            &&& r == len <==> len <= 4096 && bytes is Some && vstd::utf8::valid_utf8(bytes->0)
            &&& r == len ==> said == bytes->0
            &&& r != len ==> said.len() == 0 && (r == -5 || r == -4)
            &&& len > 4096 ==> r == -5
            &&& len <= 4096 && bytes is None ==> r == -4
        }),
{
}

/// Leaving says so of the caller alone: its exit code is kept, and nothing else changes.
pub proof fn an_exit_is_the_callers_own(procs: Seq<Process>, pid: usize, code: i64, i: int)
    requires
        0 <= i < procs.len(),
    ensures
        ({
            let after = crate::syscall::exited(procs, pid, code);
            &&& after.len() == procs.len()
            &&& after[i].exit_code == if i == pid {
                Some(code)
            } else {
                procs[i].exit_code
            }
            &&& after[i] == (Process { exit_code: after[i].exit_code, ..procs[i] })
        }),
{
}

/// What a system call leaves alone. No call changes a register but the first, where its result
/// goes. Only leaving changes a process, and only the caller; only receiving changes memory;
/// only sending and receiving change channels; only writing is heard on the console, behind what
/// was said before.
pub proof fn a_system_call_changes_only_what_it_is_for(
    f0: TrapFrame,
    f1: TrapFrame,
    procs: Seq<Process>,
    procs1: Seq<Process>,
    ram: Ram,
    ram1: Ram,
    cs: Seq<ChannelView>,
    cs1: Seq<ChannelView>,
    started: bool,
    ts: Seq<Thread>,
    ts1: Seq<Thread>,
    core: Cpu,
    core1: Cpu,
    said: Seq<u8>,
    said1: Seq<u8>,
    now: u64,
    next: Next,
    i: int,
)
    requires
        crate::syscall::handled(
            f0,
            f1,
            procs,
            procs1,
            ram,
            ram1,
            cs,
            cs1,
            started,
            ts,
            ts1,
            core,
            core1,
            said,
            said1,
            now,
            next,
        ),
        0 <= i,
    ensures
        ({
            let n = f0.x@[8];
            let own = ts[core.current as int].pid is Some;
            &&& f1.elr == f0.elr && f1.spsr == f0.spsr && f1.sp_el0 == f0.sp_el0
            &&& 1 <= i < 31 ==> f1.x@[i] == f0.x@[i]
            &&& !(own && n == 0) ==> procs1 == procs
            &&& own && n == 0 ==> procs1.len() == procs.len() && (i < procs.len() && i
                != ts[core.current as int].pid->0 ==> procs1[i] == procs[i])
            &&& !(own && n == 4) ==> ram1 == ram
            &&& !(own && (n == 3 || n == 4)) ==> cs1 == cs
            &&& !(own && n == 1) ==> said1 == said
            &&& said.is_prefix_of(said1)
        }),
{
}

/// What a system call says: who is asking, for number 5; the time, for number 6; and that there
/// is no such call, for a number that is none or a caller that is no process.
pub proof fn a_question_is_answered(
    f0: TrapFrame,
    f1: TrapFrame,
    procs: Seq<Process>,
    procs1: Seq<Process>,
    ram: Ram,
    ram1: Ram,
    cs: Seq<ChannelView>,
    cs1: Seq<ChannelView>,
    started: bool,
    ts: Seq<Thread>,
    ts1: Seq<Thread>,
    core: Cpu,
    core1: Cpu,
    said: Seq<u8>,
    said1: Seq<u8>,
    now: u64,
    next: Next,
)
    requires
        crate::syscall::handled(
            f0,
            f1,
            procs,
            procs1,
            ram,
            ram1,
            cs,
            cs1,
            started,
            ts,
            ts1,
            core,
            core1,
            said,
            said1,
            now,
            next,
        ),
    ensures
        ({
            let n = f0.x@[8];
            let who = ts[core.current as int].pid;
            &&& who is Some && n == 5 ==> f1.x@[0] == who->0
            &&& who is Some && n == 6 ==> f1.x@[0] == now
            &&& who is None || n > 7 ==> f1.x@[0] == u64::MAX - 4
            &&& who is None || n > 4 && n != 7 ==> ts1 == ts && core1 == core && next
                == Next::Resume && procs1 == procs && ram1 == ram && cs1 == cs && said1 == said
        }),
{
}

/// Sleeping puts the caller to sleep until so many ticks from now and says 0; a time that is not
/// ahead is not waited for. Leaving ends the caller's thread and keeps what it said.
pub proof fn sleeping_and_leaving_are_the_callers(
    f0: TrapFrame,
    f1: TrapFrame,
    procs: Seq<Process>,
    procs1: Seq<Process>,
    ram: Ram,
    ram1: Ram,
    cs: Seq<ChannelView>,
    cs1: Seq<ChannelView>,
    started: bool,
    ts: Seq<Thread>,
    ts1: Seq<Thread>,
    core: Cpu,
    core1: Cpu,
    said: Seq<u8>,
    said1: Seq<u8>,
    now: u64,
    next: Next,
)
    requires
        crate::syscall::handled(
            f0,
            f1,
            procs,
            procs1,
            ram,
            ram1,
            cs,
            cs1,
            started,
            ts,
            ts1,
            core,
            core1,
            said,
            said1,
            now,
            next,
        ),
        ts[core.current as int].pid is Some,
        ts.len() <= usize::MAX,
        crate::sched::cpu_fits(core, ts.len()),
        now + f0.x@[0] <= u64::MAX,
    ensures
        ({
            let who = ts[core.current as int].pid->0;
            &&& f0.x@[8] == 7 ==> f1.x@[0] == 0 && ts1[core.current as int].state
                == State::Sleeping((now + f0.x@[0]) as u64)
            &&& f0.x@[8] == 7 ==> (next is Sleep <==> f0.x@[0] > 0)
            &&& f0.x@[8] == 7 && f0.x@[0] == 0 ==> next == Next::Resume && core1 == core
            &&& f0.x@[8] == 0 ==> next is Gone && ts1[core.current as int].state
                == State::Finished
            &&& f0.x@[8] == 0 && who < procs.len() ==> procs1[who as int].exit_code is Some
                && crate::syscall::in_register(procs1[who as int].exit_code->0) == f0.x@[0]
        }),
{
    let asleep = crate::sched::with_state(
        ts,
        core.current as int,
        State::Sleeping((now + f0.x@[0]) as u64),
    );
    let gone = crate::sched::with_state(ts, core.current as int, State::Finished);
    if f0.x@[8] == 7 {
        crate::sched_laws::what_a_core_runs_next(started, asleep, core);
        if crate::sched::schedule_outcome(started, asleep, core).2 is Some {
            crate::sched_laws::what_a_switch_leaves(started, asleep, core);
        }
    }
    if f0.x@[8] == 0 {
        crate::sched_laws::what_a_core_runs_next(started, gone, core);
        if crate::sched::schedule_outcome(started, gone, core).2 is Some {
            crate::sched_laws::what_a_switch_leaves(started, gone, core);
        }
    }
}

/// A send is one message on its own channel, with the bytes and the sender it was given, and
/// wakes exactly those that wait there. There is no sending to a channel that is not there.
pub proof fn a_send_is_one_message_on_its_channel(
    cs: Seq<ChannelView>,
    cs1: Seq<ChannelView>,
    ts: Seq<Thread>,
    ts1: Seq<Thread>,
    channel: usize,
    from: usize,
    bytes: Seq<u8>,
    r: Result<usize, &'static str>,
    i: int,
    k: int,
)
    requires
        crate::ipc::delivered(cs, cs1, ts, ts1, channel, from, bytes, r),
        0 <= i < cs.len(),
        0 <= k < ts.len(),
    ensures
        r is Ok <==> channel < cs.len(),
        r matches Ok(n) ==> n == bytes.len(),
        cs1.len() == cs.len() && ts1.len() == ts.len(),
        i != channel ==> cs1[i] == cs[i],
        i == channel ==> cs1[i].queue == cs[i].queue + seq![MessageView { from, bytes }],
        ts1[k].state == if r is Ok && ts[k].state == State::Blocked(channel as u64) {
            State::Runnable
        } else {
            ts[k].state
        },
{
    let m = MessageView { from, bytes };
    assert(cs[i].queue.push(m) =~= cs[i].queue + seq![m]);
}

/// Bytes are taken from a process if there are not too many and every one of them is mapped;
/// each is the byte at its own address.
pub proof fn bytes_are_taken_whole_or_not_at_all(
    ram: Ram,
    root: int,
    uva: u64,
    len: usize,
    r: Result<Vec<u8>, &'static str>,
    i: int,
)
    requires
        crate::mm::uaccess::fetched(ram, root, uva, len, r),
        0 <= i < len,
    ensures
        r is Ok <==> len <= 4096 && forall|k: int|
            0 <= k < len ==> (#[trigger] crate::mm::uaccess::user_byte_at(ram, root, uva, k))
                is Some,
        r matches Ok(v) ==> v@.len() == len && v@[i] == ram.byte(
            crate::mm::paging::translation(ram, root, (uva + i) as u64)->0 as int,
        ),
{
    crate::mm::uaccess::a_prefix_is_mapped(ram, root, uva, len as int);
    if forall|k: int|
        0 <= k < len ==> (#[trigger] crate::mm::uaccess::user_byte_at(ram, root, uva, k)) is Some {
        crate::mm::uaccess::a_mapped_buffer_is_mapped_to_its_end(ram, root, uva, len as int);
    }
}

proof fn lemma_last_writer(ram: Ram, root: int, uva: u64, n: int, q: int, i: int)
    requires
        0 <= i < n,
        crate::mm::uaccess::user_byte_at(ram, root, uva, i) == Some(q as u64),
        forall|k: int|
            i < k < n ==> #[trigger] crate::mm::uaccess::user_byte_at(ram, root, uva, k) != Some(
                q as u64,
            ),
    ensures
        crate::mm::uaccess::last_writer(ram, root, uva, n, q) == Some(i),
    decreases n,
{
    if i < n - 1 {
        assert(crate::mm::uaccess::user_byte_at(ram, root, uva, n - 1) != Some(q as u64));
        lemma_last_writer(ram, root, uva, n - 1, q, i);
    }
}

/// Bytes that are put into a process's memory land where its page tables say: where two of them
/// share a place the later one stays, and no other byte of memory changes. It is said whether
/// all of them could be put there.
pub proof fn bytes_land_where_the_process_says(
    ram: Ram,
    ram1: Ram,
    root: int,
    uva: u64,
    data: Seq<u8>,
    r: Result<(), &'static str>,
    q: int,
    i: int,
)
    requires
        crate::mm::uaccess::stored(ram, ram1, root, uva, data, r),
        ram.holds(q, 1),
        0 <= q <= u64::MAX,
        0 <= i < data.len(),
    ensures
        r is Ok <==> forall|k: int|
            0 <= k < data.len() ==> (#[trigger] crate::mm::uaccess::user_byte_at(
                ram,
                root,
                uva,
                k,
            )) is Some,
        r is Ok && crate::mm::uaccess::user_byte_at(ram, root, uva, i) == Some(q as u64) && (forall|
            k: int,
        |
            i < k < data.len() ==> #[trigger] crate::mm::uaccess::user_byte_at(ram, root, uva, k)
                != Some(q as u64)) ==> ram1.byte(q) == data[i],
        (forall|k: int|
            0 <= k < data.len() ==> #[trigger] crate::mm::uaccess::user_byte_at(ram, root, uva, k)
                != Some(q as u64)) ==> ram1.byte(q) == ram.byte(q),
{
    let n = crate::mm::uaccess::mapped_prefix(ram, root, uva, data.len() as int, 0);
    crate::mm::uaccess::a_prefix_is_mapped(ram, root, uva, data.len() as int);
    if forall|k: int|
        0 <= k < data.len() ==> (#[trigger] crate::mm::uaccess::user_byte_at(ram, root, uva, k))
            is Some {
        crate::mm::uaccess::a_mapped_buffer_is_mapped_to_its_end(
            ram,
            root,
            uva,
            data.len() as int,
        );
    }
    if r is Ok && crate::mm::uaccess::user_byte_at(ram, root, uva, i) == Some(q as u64) && (forall|
        k: int,
    |
        i < k < data.len() ==> #[trigger] crate::mm::uaccess::user_byte_at(ram, root, uva, k)
            != Some(q as u64)) {
        lemma_last_writer(ram, root, uva, data.len() as int, q, i);
    }
    if forall|k: int|
        0 <= k < data.len() ==> #[trigger] crate::mm::uaccess::user_byte_at(ram, root, uva, k)
            != Some(q as u64) {
        crate::mm::uaccess::other_bytes_are_not_written(ram, root, uva, n, q);
    }
}

/// A batch goes to the display server if there is anything in it and anywhere to send it: one
/// message, from the kernel, with an answer expected in its whole time.
pub proof fn a_batch_is_one_message(
    c: crate::display::Client,
    cs: Seq<ChannelView>,
    cs1: Seq<ChannelView>,
    ts: Seq<Thread>,
    ts1: Seq<Thread>,
    ops: Seq<u8>,
    now: u64,
    r: Option<u64>,
    i: int,
)
    requires
        crate::display::sent_off(c, cs, cs1, ts, ts1, ops, now, r),
        now + 600 <= u64::MAX,
        0 <= i < cs.len(),
    ensures
        r is Some <==> ops.len() > 0 && c.request < cs.len() && c.request != usize::MAX,
        r matches Some(t) ==> t - now == 600,
        r is None ==> cs1 == cs && ts1 == ts,
        r is Some && i != c.request ==> cs1[i] == cs[i],
        r is Some && i == c.request ==> cs1[i].queue == cs[i].queue + seq![
            MessageView { from: usize::MAX, bytes: ops },
        ],
{
    let m = MessageView { from: usize::MAX, bytes: ops };
    assert(cs[i].queue.push(m) =~= cs[i].queue + seq![m]);
}

/// What an idle core is told to expect is true of every thread: there is work exactly if some
/// thread that any core may run is ready, and nobody sleeps past the time it is given.
pub proof fn an_idle_core_misses_nobody(ts: Seq<Thread>, work: bool, due: Option<u64>, k: int)
    requires
        crate::sched::forecast(ts, work, due),
        0 <= k < ts.len(),
    ensures
        ts[k].state == State::Runnable && ts[k].affinity is None ==> work,
        work ==> exists|i: int|
            0 <= i < ts.len() && (#[trigger] ts[i]).state == State::Runnable && ts[i].affinity
                is None,
        ts[k].state matches State::Sleeping(t) ==> due is Some && due->0 <= t,
        due matches Some(t) ==> exists|i: int|
            0 <= i < ts.len() && (#[trigger] ts[i]).state == State::Sleeping(t),
{
}

/// Giving a capability fills one slot of one process and touches nothing else.
pub proof fn a_gift_fills_one_slot(
    procs: Seq<Process>,
    procs1: Seq<Process>,
    pid: usize,
    slot: usize,
    cap: Cap,
    r: Result<(), &'static str>,
    i: int,
    j: int,
)
    requires
        crate::proc::given(procs, procs1, pid, slot, cap, r),
        0 <= i < procs.len(),
        0 <= j < 8,
    ensures
        r is Ok <==> slot < 8 && pid < procs.len(),
        procs1.len() == procs.len(),
        i != pid ==> procs1[i] == procs[i],
        procs1[i].caps@[j] == if r is Ok && i == pid && j == slot {
            Some(cap)
        } else {
            procs[i].caps@[j]
        },
        procs1[i].pid == procs[i].pid && procs1[i].space == procs[i].space && procs1[i].entry
            == procs[i].entry && procs1[i].arg == procs[i].arg && procs1[i].exit_code
            == procs[i].exit_code && procs1[i].irq_seen == procs[i].irq_seen,
{
    if r is Ok && i != pid {
        assert(procs1[i] == procs[i]);
    }
}

/// A revocation reaches every slot of every process and no more than it should: what descends
/// from the capability is dead afterwards, wherever it is held; everything else is as it was.
/// It says how many it killed, and wakes exactly those that wait on what it cut.
pub proof fn a_revocation_reaches_everywhere(
    l: Seq<Provenance>,
    id: u64,
    procs: Seq<Process>,
    procs1: Seq<Process>,
    ts: Seq<Thread>,
    ts1: Seq<Thread>,
    killed: usize,
    i: int,
    j: int,
    k: int,
)
    requires
        crate::proc::struck(l, id, procs, procs1, ts, ts1, killed),
        0 <= i < procs.len(),
        0 <= j < 8,
        0 <= k < ts.len(),
    ensures
        procs1.len() == procs.len() && ts1.len() == ts.len(),
        is_cut(l, id, procs[i].caps@[j]) ==> procs1[i].caps@[j] is Some && (
        procs1[i].caps@[j]->0).revoked,
        !is_cut(l, id, procs[i].caps@[j]) ==> procs1[i].caps@[j] == procs[i].caps@[j],
        !is_cut(l, id, procs1[i].caps@[j]),
        killed == crate::proc::deaths(l, id, procs, procs.len() as int),
        ts1[k].state == if crate::proc::must_notice(l, id, procs, ts[k]) {
            State::Runnable
        } else {
            ts[k].state
        },
        ts1[k].pid == ts[k].pid && ts1[k].ttbr0 == ts[k].ttbr0 && ts1[k].on_cpu == ts[k].on_cpu,
{
    assert(procs1[i].caps@[j] == crate::proc::after_revoking(l, id, procs[i].caps@[j]));
    assert(ts1[k] == ts1[k]);
}

/// What a fresh process finds: four zeroed pages of stack below the top, which it may write and
/// not execute; elsewhere the byte that its image has there, under the permissions that the
/// image asks for; and nothing at any other address.
pub proof fn a_fresh_process_finds_its_stack_and_its_image(
    image: Seq<u8>,
    p: crate::mm::paging::AddressSpace,
    ram: Ram,
    frames: crate::mm::frames::Frames,
    w: u64,
)
    requires
        crate::proc::fresh_memory(image, p, ram, frames),
        w < 0x1_0000_0000_0000,
    ensures
        ({
            let pa = crate::mm::paging::translation(ram, p.root as int, w);
            let e = p.leaf(ram, crate::mm::paging::path_of(w))->0;
            let frame = e & crate::mm::paging::ADDR_MASK;
            let seg = crate::elf::covering(image, crate::elf::header_count(image), w as int);
            if 0x7000_0000 - 4 * 4096 <= w < 0x7000_0000 {
                &&& pa is Some && ram.byte(pa->0 as int) == 0
                &&& e == crate::mm::paging::page_descriptor(
                    frame,
                    crate::mm::paging::Perm::UserData,
                )
            } else if seg is Some {
                &&& pa is Some && ram.byte(pa->0 as int) == crate::elf::content(
                    image,
                    seg->0,
                    w as int,
                )
                &&& e == crate::mm::paging::page_descriptor(
                    frame,
                    crate::elf::perm_of(crate::elf::phdr(image, seg->0).flags),
                )
            } else {
                pa is None
            }
        }),
{
    assert(crate::proc::fresh_at(image, p, ram, frames, w));
    crate::mm::paging_laws::a_page_is_contiguous(ram, p.root as int, w, 0);
}

} // verus!
