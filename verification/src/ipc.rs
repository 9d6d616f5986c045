//! Channels: asynchronous, queued message passing between processes.
//!
//! A channel has no name a process can look up. The only way to reach one is to
//! hold a capability to it, which is why `send` and `recv_or_prepare` take a
//! channel index the *kernel* extracted from a capability, never one a process
//! supplied.
use std::collections::VecDeque;
use vstd::prelude::*;
use crate::sched::{prepare_block, wake_all_on, Scheduler};
use crate::smp::Cpu;

verus! {

/// A message as a mathematical value.
#[verifier::ext_equal]
pub struct MessageView {
    pub from: usize,
    pub bytes: Seq<u8>,
}

pub struct Message {
    pub from: usize,
    pub bytes: Vec<u8>,
}

impl View for Message {
    type V = MessageView;

    open spec fn view(&self) -> MessageView {
        MessageView { from: self.from, bytes: self.bytes@ }
    }
}

/// A channel as a mathematical value: what is queued, oldest first, and how many
/// messages have ever gone in and come out.
#[verifier::ext_equal]
pub struct ChannelView {
    pub queue: Seq<MessageView>,
    pub sent: u64,
    pub received: u64,
}

pub struct Channel {
    pub queue: VecDeque<Message>,
    pub sent: u64,
    pub received: u64,
}

impl View for Channel {
    type V = ChannelView;

    open spec fn view(&self) -> ChannelView {
        ChannelView {
            queue: self.queue@.map_values(|m: Message| m@),
            sent: self.sent,
            received: self.received,
        }
    }
}

/// Every channel.
pub struct Channels {
    pub list: Vec<Channel>,
}

impl View for Channels {
    type V = Seq<ChannelView>;

    open spec fn view(&self) -> Seq<ChannelView> {
        self.list@.map_values(|c: Channel| c@)
    }
}

impl ChannelView {
    /// The channel with one more message queued.
    pub open spec fn with_message(self, m: MessageView) -> ChannelView {
        ChannelView { queue: self.queue.push(m), sent: self.sent.wrapping_add(1), ..self }
    }

    /// The channel with its oldest message taken.
    pub open spec fn without_first(self) -> ChannelView {
        if self.queue.len() == 0 {
            self
        } else {
            ChannelView {
                queue: self.queue.drop_first(),
                received: self.received.wrapping_add(1),
                ..self
            }
        }
    }
}

/// The message a receive would take from channel `channel`.
pub open spec fn next_message(cs: Seq<ChannelView>, channel: usize) -> Option<MessageView> {
    if channel < cs.len() && cs[channel as int].queue.len() > 0 {
        Some(cs[channel as int].queue[0])
    } else {
        None
    }
}

/// The channels after a receive.
pub open spec fn after_receive(cs: Seq<ChannelView>, channel: usize) -> Seq<ChannelView> {
    if channel < cs.len() {
        cs.update(channel as int, cs[channel as int].without_first())
    } else {
        cs
    }
}

impl Channels {
    pub fn new() -> (c: Channels)
        ensures
            c@ == Seq::<ChannelView>::empty(),
    {
        let c = Channels { list: Vec::new() };
        assert(c@ =~= Seq::<ChannelView>::empty());
        c
    }

    /// Take the oldest message of a channel.
    fn take(&mut self, channel: usize) -> (r: Option<Message>)
        ensures
            match r {
                Some(m) => next_message(old(self)@, channel) == Some(m@),
                None => next_message(old(self)@, channel) is None,
            },
            final(self)@ == after_receive(old(self)@, channel),
    {
        let ghost before = self@;
        if channel >= self.list.len() {
            return None;
        }
        let ghost q = self.list@[channel as int].queue@;
        let m = self.list[channel].queue.pop_front();
        if m.is_some() {
            let received = self.list[channel].received;
            self.list[channel].received = received.wrapping_add(1);
        }
        proof {
            let now = self.list@[channel as int];
            if q.len() > 0 {
                assert(now@.queue =~= before[channel as int].queue.drop_first());
            } else {
                assert(now@.queue =~= before[channel as int].queue);
            }
            assert(self@ =~= after_receive(before, channel));
        }
        m
    }
}

/// Create a channel and give its index.
pub fn create(c: &mut Channels) -> (id: usize)
    ensures
        id == old(c)@.len(),
        final(c)@ == old(c)@.push(ChannelView { queue: Seq::empty(), sent: 0, received: 0 }),
{
    let ghost before = c@;
    let id: usize = c.list.len();
    c.list.push(Channel { queue: VecDeque::new(), sent: 0, received: 0 });
    proof {
        assert(c.list@[id as int]@.queue =~= Seq::<MessageView>::empty());
        assert(c@ =~= before.push(ChannelView { queue: Seq::empty(), sent: 0, received: 0 }));
    }
    id
}

/// What sending does to the channels and to the threads, and what it says.
pub open spec fn delivered(
    cs: Seq<ChannelView>,
    cs1: Seq<ChannelView>,
    ts: Seq<crate::sched::Thread>,
    ts1: Seq<crate::sched::Thread>,
    channel: usize,
    from: usize,
    bytes: Seq<u8>,
    r: Result<usize, &'static str>,
) -> bool {
    if channel < cs.len() {
        &&& r is Ok && r->Ok_0 == bytes.len()
        &&& cs1 == cs.update(
            channel as int,
            cs[channel as int].with_message(MessageView { from, bytes }),
        )
        &&& ts1 == crate::sched::woken_on(ts, channel as u64)
    } else {
        &&& r == Err::<usize, &'static str>("no such channel")
        &&& cs1 == cs
        &&& ts1 == ts
    }
}

/// Queue a message, and wake whoever waits for the channel.
pub fn send(
    c: &mut Channels,
    s: &mut Scheduler,
    channel: usize,
    from: usize,
    bytes: Vec<u8>,
) -> (r: Result<usize, &'static str>)
    ensures
        old(s).same_but_threads(*final(s)),
        delivered(old(c)@, final(c)@, old(s).threads@, final(s).threads@, channel, from, bytes@, r),
{
    let ghost before = c@;
    let ghost m = MessageView { from, bytes: bytes@ };
    let len: usize = bytes.len();
    if channel >= c.list.len() {
        return Err("no such channel");
    }
    c.list[channel].queue.push_back(Message { from, bytes });
    let sent = c.list[channel].sent;
    c.list[channel].sent = sent.wrapping_add(1);
    proof {
        assert(c.list@[channel as int]@.queue =~= before[channel as int].queue.push(m));
        assert(c@ =~= before.update(channel as int, before[channel as int].with_message(m)));
    }
    // Anyone waiting on this channel can make progress now.
    wake_all_on(s, channel as u64);
    Ok(len)
}

/// Take a message, or mark the caller blocked — atomically, with respect to any
/// sender.
///
/// Marking blocked in the same step as finding nothing closes the window in
/// which a wake could be lost: a sender either queues first, and the message is
/// seen, or it finds the receiver already blocked and wakes it.
pub fn recv_or_prepare(
    c: &mut Channels,
    s: &mut Scheduler,
    cpu: &Cpu,
    channel: usize,
    token: u64,
) -> (r: Option<Message>)
    requires
        cpu.current < old(s).threads@.len(),
    ensures
        old(s).same_but_threads(*final(s)),
        match r {
            Some(m) => next_message(old(c)@, channel) == Some(m@),
            None => next_message(old(c)@, channel) is None,
        },
        final(c)@ == after_receive(old(c)@, channel),
        final(s).threads@ == (if channel < old(c)@.len() && r is None {
            crate::sched::with_state(
                old(s).threads@,
                cpu.current as int,
                crate::sched::State::Blocked(token),
            )
        } else {
            old(s).threads@
        }),
{
    if channel >= c.list.len() {
        return None;
    }
    let m = c.take(channel);
    if m.is_none() {
        prepare_block(s, cpu, token);
    }
    m
}

/// Take a message if there is one.
pub fn try_recv(c: &mut Channels, channel: usize) -> (r: Option<Message>)
    ensures
        match r {
            Some(m) => next_message(old(c)@, channel) == Some(m@),
            None => next_message(old(c)@, channel) is None,
        },
        final(c)@ == after_receive(old(c)@, channel),
{
    c.take(channel)
}

/// (messages sent, messages received, still queued)
pub fn stats(c: &Channels, channel: usize) -> (r: (u64, u64, usize))
    ensures
        if channel < c@.len() {
            &&& r.0 == c@[channel as int].sent
            &&& r.1 == c@[channel as int].received
            &&& r.2 == c@[channel as int].queue.len()
        } else {
            r == (0u64, 0u64, 0usize)
        },
{
    if channel < c.list.len() {
        let ch = &c.list[channel];
        (ch.sent, ch.received, ch.queue.len())
    } else {
        (0, 0, 0)
    }
}

// ---- what channels promise --------------------------------------------------

/// The counters account for the queue: what went in and has not come out.
pub open spec fn balanced(c: ChannelView) -> bool {
    c.sent.wrapping_sub(c.received) == c.queue.len()
}

/// Sending and receiving keep the counters in step with the queue.
pub proof fn counters_account_for_the_queue(c: ChannelView, m: MessageView)
    requires
        balanced(c),
        c.queue.len() < u64::MAX,
    ensures
        balanced(c.with_message(m)),
        balanced(c.without_first()),
{
}

/// The channel after `n` receives.
pub open spec fn after_receives(c: ChannelView, n: nat) -> ChannelView
    decreases n,
{
    if n == 0 {
        c
    } else {
        after_receives(c, (n - 1) as nat).without_first()
    }
}

proof fn lemma_receives_drop(c: ChannelView, n: nat)
    requires
        n <= c.queue.len(),
    ensures
        after_receives(c, n).queue == c.queue.skip(n as int),
    decreases n,
{
    if n > 0 {
        lemma_receives_drop(c, (n - 1) as nat);
        assert(c.queue.skip((n - 1) as int).drop_first() =~= c.queue.skip(n as int));
    } else {
        assert(c.queue.skip(0) =~= c.queue);
    }
}

/// Messages come out in the order they went in: a message sent behind `n` others
/// is received after exactly those `n`.
pub proof fn messages_come_out_in_order(c: ChannelView, m: MessageView)
    ensures
        ({
            let n = c.queue.len();
            let waiting = after_receives(c.with_message(m), n);
            waiting.queue == seq![m]
        }),
{
    let n = c.queue.len();
    let sent = c.with_message(m);
    lemma_receives_drop(sent, n);
    assert(sent.queue.skip(n as int) =~= seq![m]);
}

/// A receiver that found nothing is woken by the next send to its channel,
/// whenever that comes: the message is queued and the receiver is runnable.
pub proof fn a_blocked_receiver_is_woken(
    cs: Seq<ChannelView>,
    ts: Seq<crate::sched::Thread>,
    i: int,
    channel: usize,
    m: MessageView,
)
    requires
        0 <= i < ts.len(),
        channel < cs.len(),
        next_message(cs, channel) is None,
    ensures
        ({
            let blocked = crate::sched::with_state(
                ts,
                i,
                crate::sched::State::Blocked(channel as u64),
            );
            let sent = cs.update(channel as int, cs[channel as int].with_message(m));
            &&& crate::sched::woken_on(blocked, channel as u64)[i].state
                == crate::sched::State::Runnable
            &&& next_message(sent, channel) == Some(m)
        }),
{
}

} // verus!
