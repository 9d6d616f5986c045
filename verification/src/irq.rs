//! Interrupt dispatch.
//!
//! An interrupt owned by a userspace driver is counted, masked, and its driver
//! woken; the kernel handles the scheduler tick and the interrupts it registered a
//! handler for, as long as userspace does not own them; everything else is counted. Acknowledging an interrupt,
//! masking a line and signalling the end of an interrupt are the controller's
//! business: [`dispatch`] decides, for each interrupt taken, which of them happen.
use vstd::prelude::*;
use crate::sched::{wake_all_on, Scheduler, Thread};
use crate::time::TIMER_INTID;

verus! {

/// The first number that names no interrupt: acknowledging gives such a number
/// when there is nothing to take.
pub const SPECIAL_INTID: u32 = 1020;

pub struct Irqs {
    /// Kernel handlers, by INTID.
    pub handlers: Vec<(u32, usize)>,
    /// Interrupts owned by a userspace driver, with a count of how many have
    /// arrived. The count is the message: a driver asks "has it fired since I last
    /// looked", which is the only question a level-triggered line can answer after
    /// the fact.
    pub user: Vec<(u32, u64)>,
    pub spurious: u64,
    pub unclaimed: u64,
}

impl Irqs {
    pub fn new() -> (q: Irqs)
        ensures
            q.handlers@ == Seq::<(u32, usize)>::empty(),
            q.user@ == Seq::<(u32, u64)>::empty(),
            q.spurious == 0,
            q.unclaimed == 0,
    {
        Irqs { handlers: Vec::new(), user: Vec::new(), spurious: 0, unclaimed: 0 }
    }
}

/// The first handler at or after the `i`th for an interrupt.
pub open spec fn handler_of(list: Seq<(u32, usize)>, intid: u32, i: int) -> Option<usize>
    decreases list.len() - i,
{
    if i >= list.len() {
        None
    } else if list[i].0 == intid {
        Some(list[i].1)
    } else {
        handler_of(list, intid, i + 1)
    }
}

/// The first entry at or after the `i`th for a userspace interrupt.
pub open spec fn user_entry(list: Seq<(u32, u64)>, intid: u32, i: int) -> Option<int>
    decreases list.len() - i,
{
    if i >= list.len() {
        None
    } else if list[i].0 == intid {
        Some(i)
    } else {
        user_entry(list, intid, i + 1)
    }
}

/// The wake token of a userspace interrupt.
pub open spec fn token_of(intid: u32) -> u64 {
    0x1249_0000_0000 | intid as u64
}

/// Claim an interrupt for the kernel: `handler` names what runs, with interrupts
/// masked. The first claim stands.
pub fn register(q: &mut Irqs, intid: u32, handler: usize)
    ensures
        final(q).handlers@ == old(q).handlers@.push((intid, handler)),
        final(q).user == old(q).user,
        final(q).spurious == old(q).spurious,
        final(q).unclaimed == old(q).unclaimed,
{
    q.handlers.push((intid, handler));
}

/// Wake token for a userspace interrupt.
pub fn token(intid: u32) -> (r: u64)
    ensures
        r == token_of(intid),
{
    0x1249_0000_0000 | intid as u64
}

fn find_user(q: &Irqs, intid: u32) -> (r: Option<usize>)
    ensures
        match r {
            Some(i) => i < q.user@.len() && user_entry(q.user@, intid, 0) == Some(i as int)
                && q.user@[i as int].0 == intid,
            None => user_entry(q.user@, intid, 0) is None,
        },
{
    let mut i: usize = 0;
    while i < q.user.len()
        invariant
            i <= q.user@.len(),
            user_entry(q.user@, intid, 0) == user_entry(q.user@, intid, i as int),
        decreases q.user@.len() - i,
    {
        if q.user[i].0 == intid {
            return Some(i);
        }
        i = i + 1;
    }
    None
}

/// The interrupts of userspace with one more, unless it has it already.
pub open spec fn handed_over(user: Seq<(u32, u64)>, intid: u32) -> Seq<(u32, u64)> {
    if user_entry(user, intid, 0) is Some {
        user
    } else {
        user.push((intid, 0u64))
    }
}

/// Hand an interrupt to userspace. The kernel will never handle it again.
pub fn register_user(q: &mut Irqs, intid: u32)
    ensures
        final(q).user@ == handed_over(old(q).user@, intid),
        final(q).handlers == old(q).handlers,
        final(q).spurious == old(q).spurious,
        final(q).unclaimed == old(q).unclaimed,
{
    if find_user(q, intid).is_none() {
        q.user.push((intid, 0));
    }
}

/// How many times an interrupt of userspace has fired.
pub open spec fn times_fired(user: Seq<(u32, u64)>, intid: u32) -> Option<u64> {
    match user_entry(user, intid, 0) {
        Some(i) => Some(user[i].1),
        None => None,
    }
}

/// How many times `intid` has fired; `None` where userspace does not own it.
pub fn sequence(q: &Irqs, intid: u32) -> (r: Option<u64>)
    ensures
        r == times_fired(q.user@, intid),
{
    match find_user(q, intid) {
        Some(i) => Some(q.user[i].1),
        None => None,
    }
}

fn handler_for(q: &Irqs, intid: u32) -> (r: Option<usize>)
    ensures
        r == handler_of(q.handlers@, intid, 0),
{
    let mut i: usize = 0;
    while i < q.handlers.len()
        invariant
            i <= q.handlers@.len(),
            handler_of(q.handlers@, intid, 0) == handler_of(q.handlers@, intid, i as int),
        decreases q.handlers@.len() - i,
    {
        if q.handlers[i].0 == intid {
            return Some(q.handlers[i].1);
        }
        i = i + 1;
    }
    None
}

/// Record an interrupt destined for userspace and wake its driver. The line is to
/// be masked until the driver comes back for the next one: the kernel cannot
/// quiet the device, only its driver can.
fn user_irq_fired(q: &mut Irqs, s: &mut Scheduler, intid: u32) -> (r: bool)
    ensures
        old(s).same_but_threads(*final(s)),
        final(q).handlers == old(q).handlers,
        final(q).spurious == old(q).spurious,
        final(q).unclaimed == old(q).unclaimed,
        match user_entry(old(q).user@, intid, 0) {
            Some(i) => {
                &&& r
                &&& final(q).user@ == old(q).user@.update(
                    i,
                    (intid, old(q).user@[i].1.wrapping_add(1)),
                )
                &&& final(s).threads@ == crate::sched::woken_on(
                    old(s).threads@,
                    token_of(intid),
                )
            },
            None => {
                &&& !r
                &&& final(q).user@ == old(q).user@
                &&& final(s).threads@ == old(s).threads@
            },
        },
{
    match find_user(q, intid) {
        None => false,
        Some(i) => {
            let n = q.user[i].1;
            q.user[i] = (intid, n.wrapping_add(1));
            wake_all_on(s, token(intid));
            true
        },
    }
}

/// What is to be done about an interrupt that was taken.
#[derive(Clone, Copy, Debug, PartialEq, Eq, Structural)]
pub enum Action {
    /// Nothing was pending: return from the interrupt.
    Done,
    /// The scheduler tick: rearm, end the interrupt, then preempt.
    Tick,
    /// Run this handler, then end the interrupt.
    Run(usize),
    /// Mask the line, then end the interrupt.
    Mask,
    /// Nobody claimed it: end the interrupt.
    Ignore,
}

/// Which action an interrupt calls for.
pub open spec fn action_for(q: Irqs, intid: u32) -> Action {
    if intid >= SPECIAL_INTID {
        Action::Done
    } else if user_entry(q.user@, intid, 0) is Some {
        Action::Mask
    } else if intid == TIMER_INTID {
        Action::Tick
    } else {
        match handler_of(q.handlers@, intid, 0) {
            Some(h) => Action::Run(h),
            None => Action::Ignore,
        }
    }
}

/// What deciding about an interrupt does to the counts and to the threads.
pub open spec fn dispatched(
    q0: Irqs,
    q1: Irqs,
    t0: Seq<Thread>,
    t1: Seq<Thread>,
    intid: u32,
    handled: u32,
) -> bool {
    let r = action_for(q0, intid);
    &&& q1.handlers == q0.handlers
    &&& q1.spurious == (if r is Done && handled == 0 {
        q0.spurious.wrapping_add(1)
    } else {
        q0.spurious
    })
    &&& q1.unclaimed == (if r is Ignore {
        q0.unclaimed.wrapping_add(1)
    } else {
        q0.unclaimed
    })
    &&& match r {
        Action::Mask => {
            let i = user_entry(q0.user@, intid, 0)->0;
            &&& q1.user@ == q0.user@.update(i, (intid, q0.user@[i].1.wrapping_add(1)))
            &&& t1 == crate::sched::woken_on(t0, token_of(intid))
        },
        _ => q1.user@ == q0.user@ && t1 == t0,
    }
}

/// Decide about one acknowledged interrupt. `handled` is how many this entry has
/// handled so far: only an immediate "nothing pending" means the core was woken
/// for nothing.
pub fn dispatch(q: &mut Irqs, s: &mut Scheduler, intid: u32, handled: u32) -> (r: Action)
    ensures
        r == action_for(*old(q), intid),
        old(s).same_but_threads(*final(s)),
        dispatched(*old(q), *final(q), old(s).threads@, final(s).threads@, intid, handled),
{
    if intid >= SPECIAL_INTID {
        if handled == 0 {
            q.spurious = q.spurious.wrapping_add(1);
        }
        return Action::Done;
    }
    if user_irq_fired(q, s, intid) {
        return Action::Mask;
    }
    if intid == TIMER_INTID {
        return Action::Tick;
    }
    match handler_for(q, intid) {
        Some(h) => Action::Run(h),
        None => {
            q.unclaimed = q.unclaimed.wrapping_add(1);
            Action::Ignore
        },
    }
}

/// (spurious acknowledgements, interrupts with no handler)
pub fn stats(q: &Irqs) -> (r: (u64, u64))
    ensures
        r == (q.spurious, q.unclaimed),
{
    (q.spurious, q.unclaimed)
}

/// Once an interrupt has been handed to userspace the kernel never handles it again,
/// whatever handlers were registered for it before or are registered later: it is
/// masked every time it is taken, and the count that its driver reads goes up by one.
pub proof fn the_kernel_never_handles_it_again(
    q: Irqs,
    handed: Irqs,
    later: Irqs,
    intid: u32,
)
    requires
        intid < SPECIAL_INTID,
        handed.user@ == (if user_entry(q.user@, intid, 0) is Some {
            q.user@
        } else {
            q.user@.push((intid, 0u64))
        }),
        later.user@.len() >= handed.user@.len(),
        forall|i: int| 0 <= i < handed.user@.len() ==> (#[trigger] later.user@[i]).0
            == handed.user@[i].0,
    ensures
        user_entry(handed.user@, intid, 0) is Some,
        action_for(handed, intid) == Action::Mask,
        action_for(later, intid) == Action::Mask,
{
    lemma_owned(q.user@, intid, 0);
    if user_entry(q.user@, intid, 0) is None {
        assert(handed.user@[q.user@.len() as int].0 == intid);
    }
    lemma_owned(handed.user@, intid, 0);
    lemma_owned(later.user@, intid, 0);
    if user_entry(q.user@, intid, 0) is Some {
        let i = user_entry(q.user@, intid, 0)->0;
        assert(later.user@[i].0 == intid);
    } else {
        assert(later.user@[q.user@.len() as int].0 == intid);
    }
}

/// An interrupt is owned exactly when the list names it.
proof fn lemma_owned(list: Seq<(u32, u64)>, intid: u32, i: int)
    requires
        0 <= i <= list.len(),
    ensures
        match user_entry(list, intid, i) {
            Some(k) => i <= k < list.len() && list[k].0 == intid,
            None => forall|k: int| i <= k < list.len() ==> (#[trigger] list[k]).0 != intid,
        },
    decreases list.len() - i,
{
    if i < list.len() && list[i].0 != intid {
        lemma_owned(list, intid, i + 1);
    }
}

/// Different interrupts have different tokens, and no token of an interrupt is
/// the token of a channel with a number below it.
pub proof fn tokens_are_distinct(a: u32, b: u32)
    ensures
        token_of(a) == token_of(b) ==> a == b,
        token_of(a) >= 0x1249_0000_0000,
{
    lemma_tokens(a, b);
}

proof fn lemma_tokens(a: u32, b: u32)
    by (bit_vector)
    ensures
        (0x1249_0000_0000u64 | a as u64) == (0x1249_0000_0000u64 | b as u64) ==> a == b,
        (0x1249_0000_0000u64 | a as u64) >= 0x1249_0000_0000,
{
}

/// A driver that waits for its interrupt is woken by it, and finds the count one
/// higher than before.
pub proof fn a_waiting_driver_is_woken(
    user: Seq<(u32, u64)>,
    ts: Seq<crate::sched::Thread>,
    intid: u32,
    k: int,
)
    requires
        user_entry(user, intid, 0) is Some,
        0 <= k < ts.len(),
        ts[k].state == crate::sched::State::Blocked(token_of(intid)),
    ensures
        crate::sched::woken_on(ts, token_of(intid))[k].state == crate::sched::State::Runnable,
        ({
            let i = user_entry(user, intid, 0)->0;
            let after = user.update(i, (intid, user[i].1.wrapping_add(1)));
            user_entry(after, intid, 0) == Some(i) && after[i].1 == user[i].1.wrapping_add(1)
        }),
{
    lemma_entry(user, intid, 0);
    let i = user_entry(user, intid, 0)->0;
    let after = user.update(i, (intid, user[i].1.wrapping_add(1)));
    lemma_entry_same(user, after, intid, 0);
}

proof fn lemma_entry(list: Seq<(u32, u64)>, intid: u32, i: int)
    requires
        0 <= i,
    ensures
        user_entry(list, intid, i) matches Some(k) ==> i <= k < list.len() && list[k].0 == intid,
    decreases list.len() - i,
{
    if i < list.len() && list[i].0 != intid {
        lemma_entry(list, intid, i + 1);
    }
}

proof fn lemma_entry_same(a: Seq<(u32, u64)>, b: Seq<(u32, u64)>, intid: u32, i: int)
    requires
        a.len() == b.len(),
        0 <= i,
        forall|k: int| 0 <= k < a.len() ==> (#[trigger] a[k]).0 == b[k].0,
    ensures
        user_entry(a, intid, i) == user_entry(b, intid, i),
    decreases a.len() - i,
{
    if i < a.len() {
        assert(a[i].0 == b[i].0);
        lemma_entry_same(a, b, intid, i + 1);
    }
}

} // verus!
