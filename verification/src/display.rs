//! Display client: builds frames and sends them to the display server.
//!
//! There is no rendering here. A frame is a short list of drawing commands — clear,
//! rect, text, present — sent down a channel to a process that owns the hardware.
//! The kernel decides *what* the screen says; it has no idea *how* a pixel gets
//! written.
use vstd::prelude::*;
use vstd::slice::slice_subrange;
use crate::bytes::{push_bytes, push_u32};
use crate::ipc::{send, try_recv, ChannelView, Channels, MessageView};
use crate::sched::Scheduler;

verus! {

pub const OP_CLEAR: u8 = 0x01;

pub const OP_RECT: u8 = 0x02;

pub const OP_TEXT: u8 = 0x03;

pub const OP_PRESENT: u8 = 0x04;

/// Introduce a client: the server can only deliver taps to a process the kernel has
/// vouched for, because only the kernel knows which of its capability slots reaches
/// which pid.
pub const OP_CLIENT: u8 = 0x30;

pub const OP_COMPOSE: u8 = 0x31;

pub const OP_STATS: u8 = 0x32;

pub const OP_SHUTDOWN: u8 = 0xff;

/// Telling an application to open its window.
pub const EV_START: u8 = 0x41;

/// The server's receive buffer is one page; batches are flushed before they reach
/// it.
pub const BATCH_LIMIT: usize = 3600;

pub const REPLY_TIMEOUT_TICKS: u64 = 600;

/// The longest text one command carries, in bytes.
pub const MAX_TEXT: usize = 200;

/// The channel number that stands for none, and the sender that is the kernel: no
/// process can claim it, which is what lets the server tell a background command
/// from an application's window operation without trusting anything in the message.
pub const KERNEL: usize = usize::MAX;

pub struct Client {
    pub request: usize,
    pub reply: usize,
    /// Frames shown.
    pub frames: u64,
}

impl Client {
    pub fn new() -> (c: Client)
        ensures
            c == (Client { request: KERNEL, reply: KERNEL, frames: 0 }),
    {
        Client { request: KERNEL, reply: KERNEL, frames: 0 }
    }
}

pub fn attach(c: &mut Client, request: usize, reply: usize)
    ensures
        *final(c) == (Client { request, reply, ..*old(c) }),
{
    c.request = request;
    c.reply = reply;
}

pub fn attached(c: &Client) -> (r: bool)
    ensures
        r == (c.request != KERNEL),
{
    c.request != KERNEL
}

pub fn frames(c: &Client) -> (n: u64)
    ensures
        n == c.frames,
{
    c.frames
}

// ---- one exchange with the server --------------------------------------------------------

/// What sending a batch does to the channels and to the threads, and what it says.
pub open spec fn sent_off(
    c: Client,
    cs: Seq<ChannelView>,
    cs1: Seq<ChannelView>,
    ts: Seq<crate::sched::Thread>,
    ts1: Seq<crate::sched::Thread>,
    ops: Seq<u8>,
    now: u64,
    r: Option<u64>,
) -> bool {
    if c.request == KERNEL || ops.len() == 0 || c.request >= cs.len() {
        &&& r is None
        &&& cs1 == cs
        &&& ts1 == ts
    } else {
        &&& r == Some((now + REPLY_TIMEOUT_TICKS) as u64)
        &&& cs1 == cs.update(
            c.request as int,
            cs[c.request as int].with_message(
                MessageView { from: KERNEL, bytes: ops },
            ),
        )
        &&& ts1 == crate::sched::woken_on(
            ts,
            c.request as u64,
        )
    }
}

/// Send a batch. Gives the tick until which an answer is waited for, or `None`
/// where there is nothing to send, or nowhere to send it.
pub fn begin(c: &Client, channels: &mut Channels, s: &mut Scheduler, ops: Vec<u8>, now: u64) -> (r:
    Option<u64>)
    requires
        now + REPLY_TIMEOUT_TICKS <= u64::MAX,
    ensures
        old(s).same_but_threads(*final(s)),
        sent_off(
            *c,
            old(channels)@,
            final(channels)@,
            old(s).threads@,
            final(s).threads@,
            ops@,
            now,
            r,
        ),
{
    if c.request == KERNEL || ops.len() == 0 {
        return None;
    }
    if send(channels, s, c.request, KERNEL, ops).is_err() {
        return None;
    }
    Some(now + REPLY_TIMEOUT_TICKS)
}

/// One look at the reply channel.
pub enum Poll {
    Reply(Vec<u8>),
    /// Nothing yet: give up the CPU and look again.
    Wait,
    TimedOut,
}

/// Look for the server's answer.
pub fn poll(c: &Client, channels: &mut Channels, deadline: u64, now: u64) -> (r: Poll)
    ensures
        final(channels)@ == crate::ipc::after_receive(old(channels)@, c.reply),
        match crate::ipc::next_message(old(channels)@, c.reply) {
            Some(m) => r matches Poll::Reply(b) && b@ == m.bytes,
            None => if now > deadline {
                r is TimedOut
            } else {
                r is Wait
            },
        },
{
    match try_recv(channels, c.reply) {
        Some(m) => Poll::Reply(m.bytes),
        None => if now > deadline {
            Poll::TimedOut
        } else {
            Poll::Wait
        },
    }
}

/// Tell the server that `pid` is the client behind its next spare capability slot.
/// Order matters: the server pairs them up in the order it is told.
pub fn introduce(pid: usize) -> (ops: Vec<u8>)
    ensures
        ops@ == seq![OP_CLIENT] + crate::bytes::le32_bytes((pid as u64 % 0x1_0000_0000) as u32),
{
    let mut ops: Vec<u8> = Vec::new();
    ops.push(OP_CLIENT);
    let low: u32 = (pid as u64 % 0x1_0000_0000) as u32;
    push_u32(&mut ops, low);
    assert(ops@ =~= seq![OP_CLIENT] + crate::bytes::le32_bytes(low));
    ops
}

fn only(op: u8) -> (ops: Vec<u8>)
    ensures
        ops@ == seq![op],
{
    let mut ops: Vec<u8> = Vec::new();
    ops.push(op);
    assert(ops@ =~= seq![op]);
    ops
}

/// Composite and show without redrawing the background.
pub fn compose() -> (ops: Vec<u8>)
    ensures
        ops@ == seq![OP_COMPOSE],
{
    only(OP_COMPOSE)
}

/// Make the server print what it has seen, on the console.
pub fn request_stats() -> (ops: Vec<u8>)
    ensures
        ops@ == seq![OP_STATS],
{
    only(OP_STATS)
}

/// Ask the display server to exit.
pub fn shutdown() -> (ops: Vec<u8>)
    ensures
        ops@ == seq![OP_SHUTDOWN],
{
    only(OP_SHUTDOWN)
}

/// What the display server reports back on every answer it gives the kernel.
#[derive(Clone, Copy, Debug, PartialEq, Eq, Structural)]
pub struct ServerStats {
    pub frames: usize,
    pub taps_routed: usize,
    pub taps_on_nothing: usize,
    pub rejected: usize,
    pub windows: usize,
}

/// What an answer reports, if it is long enough to.
pub open spec fn stats_in(r: Seq<u8>) -> Option<ServerStats> {
    if r.len() < 7 {
        None
    } else {
        Some(
            ServerStats {
                frames: r[1] as usize,
                taps_routed: r[2] as usize,
                taps_on_nothing: r[3] as usize,
                rejected: r[4] as usize,
                windows: r[6] as usize,
            },
        )
    }
}

/// Read what the server has seen out of its answer: transfers, taps routed, taps
/// that landed on nothing, operations that named a window the sender did not own,
/// and windows open.
pub fn server_stats(reply: &[u8]) -> (r: Option<ServerStats>)
    ensures
        r == stats_in(reply@),
{
    if reply.len() < 7 {
        return None;
    }
    Some(
        ServerStats {
            frames: reply[1] as usize,
            taps_routed: reply[2] as usize,
            taps_on_nothing: reply[3] as usize,
            rejected: reply[4] as usize,
            windows: reply[6] as usize,
        },
    )
}

/// Tell an application to open its window. The kernel owns the channel, so it can
/// decide who opens first — and therefore who starts on top.
pub fn start_app_window(channels: &mut Channels, s: &mut Scheduler, channel: usize) -> (sent: bool)
    ensures
        old(s).same_but_threads(*final(s)),
        sent == (channel < old(channels)@.len()),
        if sent {
            &&& final(channels)@ == old(channels)@.update(
                channel as int,
                old(channels)@[channel as int].with_message(
                    MessageView { from: KERNEL, bytes: seq![EV_START] },
                ),
            )
            &&& final(s).threads@ == crate::sched::woken_on(old(s).threads@, channel as u64)
        } else {
            &&& final(channels)@ == old(channels)@
            &&& final(s).threads@ == old(s).threads@
        },
{
    send(channels, s, channel, KERNEL, only(EV_START)).is_ok()
}

/// How a wait for windows goes on after one answer of the server, or none.
#[derive(Clone, Copy, Debug, PartialEq, Eq, Structural)]
pub enum Opening {
    Open,
    GaveUp,
    /// Sleep two ticks and ask again.
    AskAgain,
}

/// Decide whether `n` windows are open, when waiting until `deadline`. `now` is the tick
/// at which the server was asked, and `stats` what it answered: the deadline is looked at
/// before asking, and an answer to a question asked in time counts however late it is.
pub fn wait_for_windows(stats: Option<ServerStats>, n: usize, now: u64, deadline: u64) -> (r: Opening)
    ensures
        r == (if now >= deadline {
            Opening::GaveUp
        } else if stats is Some && (stats->0).windows >= n {
            Opening::Open
        } else {
            Opening::AskAgain
        }),
{
    if now >= deadline {
        return Opening::GaveUp;
    }
    match stats {
        Some(st) => {
            if st.windows >= n {
                Opening::Open
            } else {
                Opening::AskAgain
            }
        },
        None => Opening::AskAgain,
    }
}

// ---- frames ----------------------------------------------------------------------------------

/// A command's bytes.
pub open spec fn clear_bytes(color: u32) -> Seq<u8> {
    seq![OP_CLEAR] + crate::bytes::le32_bytes(color)
}

pub open spec fn rect_bytes(x: u16, y: u16, w: u16, h: u16, color: u32) -> Seq<u8> {
    seq![OP_RECT] + crate::bytes::be16_bytes(x) + crate::bytes::be16_bytes(y)
        + crate::bytes::be16_bytes(w) + crate::bytes::be16_bytes(h) + crate::bytes::le32_bytes(color)
}

/// As much of a text as one command carries.
pub open spec fn cut(s: Seq<u8>) -> Seq<u8> {
    if s.len() <= MAX_TEXT {
        s
    } else {
        s.take(MAX_TEXT as int)
    }
}

pub open spec fn text_bytes(x: u16, y: u16, scale: u8, color: u32, s: Seq<u8>) -> Seq<u8> {
    seq![OP_TEXT] + crate::bytes::be16_bytes(x) + crate::bytes::be16_bytes(y)
        + crate::bytes::le32_bytes(color) + seq![scale, cut(s).len() as u8] + cut(s)
}

/// A frame under construction. Commands accumulate and are flushed in batches, so a
/// screen with more text on it than fits in one message still works: where a
/// command does not fit any more, adding it gives the batch to send first.
pub struct Frame {
    pub ops: Vec<u8>,
}

/// A command added: the batch to send first, if there is one, and what is kept.
pub open spec fn added(ops: Seq<u8>, cmd: Seq<u8>) -> (Option<Seq<u8>>, Seq<u8>) {
    if ops.len() + cmd.len() > BATCH_LIMIT {
        (Some(ops), cmd)
    } else {
        (None, ops + cmd)
    }
}

/// A batch as a mathematical value.
pub open spec fn batch_view(b: Option<Vec<u8>>) -> Option<Seq<u8>> {
    match b {
        Some(v) => Some(v@),
        None => None,
    }
}

fn push_be16(out: &mut Vec<u8>, v: u16)
    ensures
        final(out)@ == old(out)@ + crate::bytes::be16_bytes(v),
{
    out.push((v >> 8) as u8);
    out.push(v as u8);
    assert(out@ =~= old(out)@ + crate::bytes::be16_bytes(v));
}

impl Frame {
    /// What is kept fits in a batch.
    pub open spec fn wf(&self) -> bool {
        self.ops@.len() <= BATCH_LIMIT
    }

    pub fn new() -> (f: Frame)
        ensures
            f.wf(),
            f.ops@ == Seq::<u8>::empty(),
    {
        Frame { ops: Vec::new() }
    }

    /// Make room for a command of `n` bytes.
    fn room_for(&mut self, n: usize) -> (r: Option<Vec<u8>>)
        requires
            old(self).wf(),
            n <= BATCH_LIMIT,
        ensures
            if old(self).ops@.len() + n > BATCH_LIMIT {
                &&& batch_view(r) == Some(old(self).ops@)
                &&& final(self).ops@ == Seq::<u8>::empty()
            } else {
                &&& r is None
                &&& final(self).ops@ == old(self).ops@
            },
    {
        if self.ops.len() + n > BATCH_LIMIT {
            let mut batch: Vec<u8> = Vec::new();
            push_bytes(&mut batch, self.ops.as_slice());
            assert(batch@ =~= self.ops@);
            self.ops = Vec::new();
            return Some(batch);
        }
        None
    }

    pub fn clear(&mut self, color: u32) -> (r: Option<Vec<u8>>)
        requires
            old(self).wf(),
        ensures
            final(self).wf(),
            (batch_view(r), final(self).ops@) == added(old(self).ops@, clear_bytes(color)),
    {
        let r = self.room_for(5);
        let ghost kept = self.ops@;
        self.ops.push(OP_CLEAR);
        push_u32(&mut self.ops, color);
        assert(self.ops@ =~= kept + clear_bytes(color));
        assert(Seq::<u8>::empty() + clear_bytes(color) =~= clear_bytes(color));
        r
    }

    pub fn rect(&mut self, x: u16, y: u16, w: u16, h: u16, color: u32) -> (r: Option<Vec<u8>>)
        requires
            old(self).wf(),
        ensures
            final(self).wf(),
            (batch_view(r), final(self).ops@) == added(
                old(self).ops@,
                rect_bytes(x, y, w, h, color),
            ),
    {
        let r = self.room_for(13);
        let ghost kept = self.ops@;
        self.ops.push(OP_RECT);
        push_be16(&mut self.ops, x);
        push_be16(&mut self.ops, y);
        push_be16(&mut self.ops, w);
        push_be16(&mut self.ops, h);
        push_u32(&mut self.ops, color);
        assert(self.ops@ =~= kept + rect_bytes(x, y, w, h, color));
        assert(Seq::<u8>::empty() + rect_bytes(x, y, w, h, color) =~= rect_bytes(x, y, w, h, color));
        r
    }

    pub fn text(&mut self, x: u16, y: u16, scale: u8, color: u32, s: &str) -> (r: Option<Vec<u8>>)
        requires
            old(self).wf(),
        ensures
            final(self).wf(),
            (batch_view(r), final(self).ops@) == added(
                old(self).ops@,
                text_bytes(x, y, scale, color, vstd::utf8::encode_utf8(s@)),
            ),
    {
        let bytes = s.as_bytes();
        let len: usize = if bytes.len() < MAX_TEXT {
            bytes.len()
        } else {
            MAX_TEXT
        };
        let shown = slice_subrange(bytes, 0, len);
        assert(shown@ =~= cut(bytes@));
        let r = self.room_for(11 + len);
        let ghost kept = self.ops@;
        let ghost cmd = text_bytes(x, y, scale, color, bytes@);
        self.ops.push(OP_TEXT);
        push_be16(&mut self.ops, x);
        push_be16(&mut self.ops, y);
        push_u32(&mut self.ops, color);
        self.ops.push(scale);
        self.ops.push(len as u8);
        push_bytes(&mut self.ops, shown);
        assert(self.ops@ =~= kept + cmd);
        assert(Seq::<u8>::empty() + cmd =~= cmd);
        assert(cmd.len() == 11 + len);
        r
    }

    /// Ask for the result to be shown. Gives the batch to send first, if there is
    /// one, and the last batch.
    pub fn present(&mut self) -> (r: (Option<Vec<u8>>, Vec<u8>))
        requires
            old(self).wf(),
        ensures
            final(self).ops@ == Seq::<u8>::empty(),
            (batch_view(r.0), r.1@) == added(old(self).ops@, seq![OP_PRESENT]),
    {
        let first = self.room_for(1);
        let ghost kept = self.ops@;
        let mut last: Vec<u8> = Vec::new();
        push_bytes(&mut last, self.ops.as_slice());
        last.push(OP_PRESENT);
        assert(last@ =~= kept + seq![OP_PRESENT]);
        assert(Seq::<u8>::empty() + seq![OP_PRESENT] =~= seq![OP_PRESENT]);
        self.ops = Vec::new();
        (first, last)
    }
}

/// A frame was answered: it counts if it was.
pub fn presented(c: &mut Client, ok: bool)
    ensures
        *final(c) == (Client {
            frames: if ok {
                old(c).frames.wrapping_add(1)
            } else {
                old(c).frames
            },
            ..*old(c)
        }),
{
    if ok {
        c.frames = c.frames.wrapping_add(1);
    }
}

// ---- what client and server promise each other -------------------------------------------------

/// Batching loses nothing and reorders nothing: what is to be sent first, followed
/// by what is kept, is what was there followed by the command.
pub proof fn batching_loses_nothing(ops: Seq<u8>, cmd: Seq<u8>)
    ensures
        ({
            let (first, kept) = added(ops, cmd);
            match first {
                Some(b) => b + kept == ops + cmd,
                None => kept == ops + cmd,
            }
        }),
        ops.len() <= BATCH_LIMIT && cmd.len() <= BATCH_LIMIT ==> added(ops, cmd).1.len()
            <= BATCH_LIMIT,
{
}

/// A command's bytes, wherever in a message they are.
proof fn lemma_at(msg: Seq<u8>, i: int, cmd: Seq<u8>)
    requires
        0 <= i,
        i + cmd.len() <= msg.len(),
        msg.subrange(i, i + cmd.len()) == cmd,
    ensures
        forall|k: int| 0 <= k < cmd.len() ==> #[trigger] cmd[k] == msg[i + k],
{
    assert forall|k: int| 0 <= k < cmd.len() implies #[trigger] cmd[k] == msg[i + k] by {
        assert(msg.subrange(i, i + cmd.len())[k] == msg[i + k]);
    }
}

/// The server understands what the client meant: a clear is taken for that clear,
/// wherever in a message it stands.
pub proof fn a_clear_is_understood(msg: Seq<u8>, n: int, i: int, color: u32)
    requires
        0 <= i < n,
        i + 5 <= msg.len(),
        msg.subrange(i, i + 5) == clear_bytes(color),
    ensures
        crate::gpudrv::said(msg, n, i).0 == seq![crate::gpudrv::OpView::Clear { color }]
            + crate::gpudrv::said(msg, n, i + 5).0,
        crate::gpudrv::said(msg, n, i).1 == crate::gpudrv::said(msg, n, i + 5).1,
{
    let cmd = clear_bytes(color);
    lemma_at(msg, i, cmd);
    assert(cmd[0] == msg[i]);
    assert(msg.subrange(i + 1, i + 5) =~= cmd.subrange(1, 5));
    assert(cmd.subrange(1, 5) =~= crate::bytes::le32_bytes(color));
    crate::bytes::le32_reads_back(msg, i + 1, color);
}

/// The same of a rectangle.
pub proof fn a_rect_is_understood(
    msg: Seq<u8>,
    n: int,
    i: int,
    x: u16,
    y: u16,
    w: u16,
    h: u16,
    color: u32,
)
    requires
        0 <= i < n,
        i + 13 <= msg.len(),
        msg.subrange(i, i + 13) == rect_bytes(x, y, w, h, color),
    ensures
        crate::gpudrv::said(msg, n, i).0 == seq![
            crate::gpudrv::OpView::Rect { x, y, w, h, color },
        ] + crate::gpudrv::said(msg, n, i + 13).0,
        crate::gpudrv::said(msg, n, i).1 == crate::gpudrv::said(msg, n, i + 13).1,
{
    let cmd = rect_bytes(x, y, w, h, color);
    lemma_at(msg, i, cmd);
    assert(cmd[0] == msg[i]);
    assert(msg.subrange(i + 1, i + 3) =~= cmd.subrange(1, 3));
    assert(cmd.subrange(1, 3) =~= crate::bytes::be16_bytes(x));
    crate::bytes::be16_reads_back(msg, i + 1, x);
    assert(msg.subrange(i + 3, i + 5) =~= cmd.subrange(3, 5));
    assert(cmd.subrange(3, 5) =~= crate::bytes::be16_bytes(y));
    crate::bytes::be16_reads_back(msg, i + 3, y);
    assert(msg.subrange(i + 5, i + 7) =~= cmd.subrange(5, 7));
    assert(cmd.subrange(5, 7) =~= crate::bytes::be16_bytes(w));
    crate::bytes::be16_reads_back(msg, i + 5, w);
    assert(msg.subrange(i + 7, i + 9) =~= cmd.subrange(7, 9));
    assert(cmd.subrange(7, 9) =~= crate::bytes::be16_bytes(h));
    crate::bytes::be16_reads_back(msg, i + 7, h);
    assert(msg.subrange(i + 9, i + 13) =~= cmd.subrange(9, 13));
    assert(cmd.subrange(9, 13) =~= crate::bytes::le32_bytes(color));
    crate::bytes::le32_reads_back(msg, i + 9, color);
}

/// The same of a text, as far as it was sent.
pub proof fn a_text_is_understood(
    msg: Seq<u8>,
    n: int,
    i: int,
    x: u16,
    y: u16,
    scale: u8,
    color: u32,
    s: Seq<u8>,
)
    requires
        0 <= i < n,
        i + 11 + cut(s).len() <= msg.len(),
        msg.subrange(i, i + 11 + cut(s).len()) == text_bytes(x, y, scale, color, s),
    ensures
        crate::gpudrv::said(msg, n, i).0 == seq![
            crate::gpudrv::OpView::Text { x, y, scale, color, bytes: cut(s) },
        ] + crate::gpudrv::said(msg, n, i + 11 + cut(s).len()).0,
        crate::gpudrv::said(msg, n, i).1 == crate::gpudrv::said(msg, n, i + 11 + cut(s).len()).1,
{
    let cmd = text_bytes(x, y, scale, color, s);
    let len = cut(s).len();
    assert(cmd.len() == 11 + len);
    lemma_at(msg, i, cmd);
    assert(cmd[0] == msg[i]);
    assert(cmd[9] == scale && cmd[10] == len as u8);
    assert(cmd[9] == msg[i + 9] && cmd[10] == msg[i + 10]);
    assert(msg.subrange(i + 1, i + 3) =~= cmd.subrange(1, 3));
    assert(cmd.subrange(1, 3) =~= crate::bytes::be16_bytes(x));
    crate::bytes::be16_reads_back(msg, i + 1, x);
    assert(msg.subrange(i + 3, i + 5) =~= cmd.subrange(3, 5));
    assert(cmd.subrange(3, 5) =~= crate::bytes::be16_bytes(y));
    crate::bytes::be16_reads_back(msg, i + 3, y);
    assert(msg.subrange(i + 5, i + 9) =~= cmd.subrange(5, 9));
    assert(cmd.subrange(5, 9) =~= crate::bytes::le32_bytes(color));
    crate::bytes::le32_reads_back(msg, i + 5, color);
    assert(msg.subrange(i + 11, i + 11 + len) =~= cmd.subrange(11, 11 + len as int));
    assert(cmd.subrange(11, 11 + len as int) =~= cut(s));
}

} // verus!
