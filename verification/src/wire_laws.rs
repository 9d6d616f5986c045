//! What block driver and client say to each other, said of the bytes.
use vstd::prelude::*;
use crate::blk::{Client, Pending};
use crate::blkdrv::AskView;
use crate::bytes_laws::little;
use crate::ipc::{ChannelView, MessageView};

verus! {

/// A request says what is asked, under which tag, and of which sector.
pub proof fn a_request_is_laid_out(op: u8, tag: u32, sector: u64)
    ensures
        ({
            let h = crate::blk::header_bytes(op, tag, sector);
            &&& h.len() == 13
            &&& h[0] == op
            &&& little(h.subrange(1, 5)) == tag
            &&& little(h.subrange(5, 13)) == sector
        }),
{
    let h = crate::blk::header_bytes(op, tag, sector);
    crate::bytes_laws::bytes_say_their_integer(0, tag, sector);
    assert(h.subrange(1, 5) =~= crate::bytes::le32_bytes(tag));
    assert(h.subrange(5, 13) =~= crate::bytes::le64_bytes(sector));
}

/// What a driver takes a message for: by its first byte, 0 asks about the disk, 1 reads, 2
/// writes, 3 ends; anything shorter than a header is not a request.
pub proof fn a_message_is_taken_for_what_it_says(req: Seq<u8>, n: int)
    requires
        req.len() == 525,
    ensures
        match crate::blkdrv::asked(req, n) {
            AskView::Ignore => n < 13,
            AskView::Info => n >= 13 && req[0] == 0,
            AskView::Read { sector } => n >= 13 && req[0] == 1 && sector == little(
                req.subrange(5, 13),
            ),
            AskView::Write { sector, data } => n >= 13 && req[0] == 2 && sector == little(
                req.subrange(5, 13),
            ) && data == req.subrange(13, 525),
            AskView::Shutdown => n >= 13 && req[0] == 3,
            AskView::Unknown => n >= 13 && req[0] > 3,
        },
{
    crate::bytes_laws::integers_are_what_their_bytes_say(req, 5);
}

/// What a driver answers: whether it was done, the tag of the request, and behind them what was
/// asked for — the capacity, or the sector that was read. What was not read is not made up.
pub proof fn an_answer_is_laid_out(
    req: Seq<u8>,
    ask: AskView,
    capacity: u64,
    ok: bool,
    data: Seq<u8>,
)
    requires
        req.len() == 525,
        data.len() == 512,
        !(ask is Ignore),
    ensures
        ({
            let a = crate::blkdrv::answer_of(req, ask, capacity, ok, data);
            let done = ask is Info || ask is Shutdown || (ok && (ask is Read || ask is Write));
            &&& a.len() == if ask is Info {
                13int
            } else if ask is Read {
                517
            } else {
                5
            }
            &&& a[0] == if done {
                0u8
            } else {
                1
            }
            &&& a.subrange(1, 5) == req.subrange(1, 5)
            &&& crate::blk::tag_of(a) == little(req.subrange(1, 5))
            &&& ask is Info ==> crate::blk::capacity_in(a) == Some(capacity)
            &&& ask is Read && ok ==> crate::blk::sector_in(a) == Some(data)
            &&& ask is Read && !ok ==> crate::blk::sector_in(a) == Some(
                Seq::new(512, |i: int| 0u8),
            )
        }),
{
    let a = crate::blkdrv::answer_of(req, ask, capacity, ok, data);
    assert(a.subrange(1, 5) =~= req.subrange(1, 5));
    crate::bytes_laws::integers_are_what_their_bytes_say(a, 1);
    if ask is Info {
        assert(a.subrange(5, 13) =~= crate::bytes::le64_bytes(capacity));
        crate::bytes_laws::integers_are_what_their_bytes_say(a, 5);
        crate::bytes_laws::bytes_say_their_integer(0, 0, capacity);
    }
    if ask is Read {
        if ok {
            assert(a.subrange(5, 517) =~= data);
        } else {
            assert(a.subrange(5, 517) =~= Seq::new(512, |i: int| 0u8));
        }
    }
}

/// A reply that is too short to carry what was asked for is not read.
pub proof fn a_short_reply_is_not_read(reply: Seq<u8>)
    ensures
        reply.len() < 13 <==> crate::blk::capacity_in(reply) is None,
        reply.len() < 512 + 5 <==> crate::blk::sector_in(reply) is None,
        reply.len() < 5 ==> crate::blk::tag_of(reply) == 0,
{
}

/// A request that is begun goes to the driver's channel, behind what is there, under a tag that
/// the one before did not have, and no other channel is touched. It is given its whole time
/// from now. Without a driver nothing is sent.
pub proof fn a_request_is_sent_once(
    c: Client,
    cs: Seq<ChannelView>,
    body: spec_fn(u32) -> Seq<u8>,
    now: u64,
    k: int,
)
    requires
        now + 800 <= u64::MAX,
        0 <= k < cs.len(),
    ensures
        ({
            let (c1, cs1, r) = crate::blk::begin_outcome(c, cs, body, now);
            &&& r is Ok <==> c.request != usize::MAX && c.request < cs.len()
            &&& c1.next_tag != c.next_tag
            &&& c1.in_flight == c.in_flight && c1.stale == c.stale && c1.capacity == c.capacity
                && c1.request == c.request && c1.reply == c.reply
            &&& cs1.len() == cs.len()
            &&& r is Err ==> cs1 == cs && c1.requests == c.requests
            &&& r matches Ok(p) ==> {
                &&& p.tag == c.next_tag
                &&& p.deadline - now == 800
                &&& k != c.request ==> cs1[k] == cs[k]
                &&& k == c.request ==> cs1[k].queue == cs[k].queue + seq![
                    MessageView { from: usize::MAX, bytes: body(p.tag) },
                ]
            }
        }),
{
    let m = MessageView { from: usize::MAX, bytes: body(c.next_tag) };
    assert(cs[k].queue.push(m) =~= cs[k].queue + seq![m]);
}

proof fn lemma_first(q: Seq<MessageView>, tag: u32, i: int, k: int)
    requires
        0 <= i <= q.len(),
    ensures
        ({
            let f = crate::blk::first_with_tag(q, tag, i);
            &&& i <= f <= q.len()
            &&& i <= k < f ==> crate::blk::tag_of(q[k].bytes) != tag
            &&& f < q.len() ==> crate::blk::tag_of(q[f].bytes) == tag
        }),
    decreases q.len() - i,
{
    if i < q.len() && crate::blk::tag_of(q[i].bytes) != tag {
        lemma_first(q, tag, i + 1, k);
    }
}

/// A look at the reply channel ends the wait exactly when a reply with the request's tag is
/// there, or when its time is over and none is. What lies before that reply is thrown away, as
/// is everything if there is none; what lies behind it stays.
pub proof fn a_wait_ends_with_its_reply_or_its_time(
    c: Client,
    cs: Seq<ChannelView>,
    p: Pending,
    now: u64,
)
    requires
        c.reply < cs.len(),
    ensures
        ({
            let q = cs[c.reply as int].queue;
            let (dropped, cs1, verdict) = crate::blk::poll_outcome(c, cs, p, now);
            let there = exists|k: int|
                0 <= k < q.len() && crate::blk::tag_of((#[trigger] q[k]).bytes) == p.tag;
            &&& verdict is None <==> !there && now <= p.deadline
            &&& !there && now > p.deadline ==> verdict->0 is Err
            &&& !there ==> dropped == q.len()
            &&& there ==> {
                &&& 0 <= dropped < q.len()
                &&& crate::blk::tag_of(q[dropped].bytes) == p.tag
                &&& verdict->0 is Ok <==> q[dropped].bytes.len() > 0 && q[dropped].bytes[0] == 0
                &&& verdict matches Some(Ok(b)) ==> b == q[dropped].bytes
            }
        }),
{
    let q = cs[c.reply as int].queue;
    let f = crate::blk::first_with_tag(q, p.tag, 0);
    lemma_first(q, p.tag, 0, 0);
    if f == q.len() {
        assert forall|k: int| 0 <= k < q.len() implies crate::blk::tag_of((#[trigger] q[k]).bytes)
            != p.tag by {
            lemma_first(q, p.tag, 0, k);
        }
    } else {
        assert(crate::blk::tag_of(q[f].bytes) == p.tag);
    }
}

/// A driver waits for its device and no longer than it has to: it is told at once when the
/// device has moved on, gives up after eight turns, and counts that; until one of the two it
/// waits on, and nothing changes.
pub proof fn a_driver_waits_for_its_device(d: crate::blkdrv::Disk, mem: Seq<u8>, turn: u32)
    requires
        mem.len() >= 4096,
        d.exhausted < u64::MAX,
    ensures
        ({
            let (r, after) = crate::blkdrv::waited(d, mem, turn);
            let used = little(mem.subrange(2050, 2052));
            &&& r == Some(true) <==> used != d.last_used
            &&& r is None <==> used == d.last_used && turn < 8
            &&& after.last_used == used
            &&& after.exhausted - d.exhausted == if r == Some(false) {
                1int
            } else {
                0
            }
            &&& after.avail_idx == d.avail_idx && after.dma_phys == d.dma_phys && after.capacity
                == d.capacity && after.timeouts == d.timeouts && after.interrupts == d.interrupts
        }),
{
    crate::bytes_laws::integers_are_what_their_bytes_say(mem, 2050);
}

/// The same of the graphics device, which also has to agree: its answer says so.
pub proof fn a_command_is_waited_for(g: crate::gpudrv::Gpu, mem: Seq<u8>, turn: u32)
    requires
        mem.len() >= 8192,
    ensures
        ({
            let (r, after) = crate::gpudrv::waited(g, mem, turn);
            let used = little(mem.subrange(2050, 2052));
            let agreed = little(mem.subrange(4608, 4612)) == 0x1100;
            &&& r == Some(true) <==> turn < 16 && used != g.last_used && agreed
            &&& r is None <==> turn < 16 && used == g.last_used
            &&& turn < 16 ==> after.last_used == used
            &&& turn >= 16 ==> after == g
            &&& after.avail_idx == g.avail_idx && after.frames == g.frames && after.dma_phys
                == g.dma_phys
        }),
{
    crate::bytes_laws::integers_are_what_their_bytes_say(mem, 2050);
    crate::bytes_laws::integers_are_what_their_bytes_say(mem, 4608);
}

} // verus!
