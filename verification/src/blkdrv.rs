//! The block driver in userspace.
//!
//! An ordinary process. It has no privilege, no kernel mapping and no way to reach
//! a device it was not handed. What is verified here is everything it decides: what
//! it puts in the memory it shares with the device, how long it waits, and how each
//! request on its channel is answered. `mem` is its DMA region: the queue's page,
//! then the buffer's.
use vstd::prelude::*;
use vstd::slice::slice_subrange;
use crate::bytes::{get_u64, push_bytes, push_u64};
use crate::virtq::{
    blk_finish, blk_prepare, place, publish, used_idx, Attach, BLK_DEPTH, BLK_T_IN,
    HDR_OFF, PAGE,
};

verus! {

pub const OP_INFO: u8 = 0;

pub const OP_READ: u8 = 1;

pub const OP_WRITE: u8 = 2;

pub const OP_SHUTDOWN: u8 = 3;

/// Bytes of op, tag and sector.
pub const HEADER: usize = 13;

/// Bytes of status and tag.
pub const REPLY_HEADER: usize = 5;

pub const SECTOR: usize = 512;

/// How often the used ring is looked at before a request is given up on.
pub const MAX_WAITS: u32 = 8;

/// Ticks to wait for an interrupt each time.
pub const WAIT_TICKS: u64 = 50;

pub struct Disk {
    /// Physical address of the DMA region, which is what the device understands.
    pub dma_phys: u64,
    pub capacity: u64,
    pub last_used: u16,
    pub avail_idx: u16,
    pub interrupts: u64,
    pub exhausted: u64,
    pub timeouts: u64,
}

/// A request laid out and offered.
pub open spec fn requested(d: Disk, mem: Seq<u8>, kind: u32, sector: u64, data: Seq<u8>) -> Seq<u8> {
    let buf = (d.dma_phys + HDR_OFF) as u64;
    crate::virtq::offered(
        crate::virtq::blk_chain(
            crate::virtq::blk_buffers(mem, kind, sector, data),
            buf,
            kind,
        ),
        8,
        d.avail_idx,
        0,
    )
}

/// What a turn of waiting for the device says, and the driver after it.
pub open spec fn waited(d: Disk, mem: Seq<u8>, turn: u32) -> (Option<bool>, Disk) {
    let used = crate::virtq::used_of(mem);
    if used != d.last_used {
        (Some(true), Disk { last_used: used, ..d })
    } else if turn >= MAX_WAITS {
        (Some(false), Disk { exhausted: d.exhausted.wrapping_add(1), ..d })
    } else {
        (None, d)
    }
}

/// What came of waiting for an interrupt.
#[derive(Clone, Copy, Debug, PartialEq, Eq, Structural)]
pub enum Woken {
    /// How many interrupts there have been in all.
    Interrupt(u64),
    Nothing,
    Failed,
}

impl Disk {
    /// The conversation that brings the device up.
    pub fn attach(dma_phys: u64) -> (a: Attach)
        ensures
            a == (Attach {
                stage: crate::virtq::Stage::Identify,
                kind: 2,
                depth: 8,
                dma: dma_phys,
                start: true,
            }),
    {
        Attach::new(2, 8, dma_phys, true)
    }

    /// The driver of a device that is up.
    pub fn new(dma_phys: u64, capacity: u64) -> (d: Disk)
        ensures
            d == (Disk {
                dma_phys,
                capacity,
                last_used: 0,
                avail_idx: 0,
                interrupts: 0,
                exhausted: 0,
                timeouts: 0,
            }),
    {
        Disk {
            dma_phys,
            capacity,
            last_used: 0,
            avail_idx: 0,
            interrupts: 0,
            exhausted: 0,
            timeouts: 0,
        }
    }

    /// Begin one request. The device is to be notified afterwards.
    pub fn request(&mut self, mem: &mut [u8], kind: u32, sector: u64, data: &[u8; 512])
        requires
            old(mem)@.len() >= 2 * PAGE,
            old(self).dma_phys + 2 * PAGE <= u64::MAX,
        ensures
            final(mem)@ == requested(*old(self), old(mem)@, kind, sector, data@),
            *final(self) == (Disk { avail_idx: old(self).avail_idx.wrapping_add(1), ..*old(self) }),
    {
        blk_prepare(mem, self.dma_phys + HDR_OFF as u64, kind, sector, data);
        place(mem, BLK_DEPTH, self.avail_idx, 0);
        self.avail_idx = publish(mem, BLK_DEPTH, self.avail_idx);
    }

    /// Look whether the device has finished.
    fn advanced(&mut self, mem: &[u8]) -> (r: bool)
        requires
            mem@.len() >= PAGE,
        ensures
            r == (crate::virtq::used_of(mem@) != old(self).last_used),
            *final(self) == (Disk { last_used: crate::virtq::used_of(mem@), ..*old(self) }),
    {
        let used = used_idx(mem);
        let r = used != self.last_used;
        self.last_used = used;
        r
    }

    /// One turn of waiting for the device: `Some(true)` once it has finished,
    /// `Some(false)` when it is given up on after `MAX_WAITS` turns, and `None`
    /// where the next interrupt is to be waited for and reported to
    /// [`Disk::woken`].
    ///
    /// The wait is bounded because a driver that can block forever on a line that
    /// never asserts is a driver that wedges itself.
    pub fn wait(&mut self, mem: &[u8], turn: u32) -> (r: Option<bool>)
        requires
            mem@.len() >= PAGE,
        ensures
            (r, *final(self)) == waited(*old(self), mem@, turn),
    {
        if self.advanced(mem) {
            return Some(true);
        }
        if turn >= MAX_WAITS {
            self.exhausted = self.exhausted.wrapping_add(1);
            return Some(false);
        }
        None
    }

    /// An interrupt was waited for. True where the device is to be asked for its
    /// interrupt status, and quieted: acknowledging it is what lets the next one
    /// through.
    pub fn woken(&mut self, w: Woken) -> (quiet: bool)
        ensures
            quiet == (w is Interrupt),
            *final(self) == (match w {
                Woken::Interrupt(n) => Disk { interrupts: n, ..*old(self) },
                Woken::Nothing => *old(self),
                Woken::Failed => Disk { timeouts: old(self).timeouts.wrapping_add(1), ..*old(self) },
            }),
    {
        match w {
            Woken::Interrupt(n) => {
                self.interrupts = n;
                true
            },
            Woken::Nothing => false,
            Woken::Failed => {
                self.timeouts = self.timeouts.wrapping_add(1);
                false
            },
        }
    }
}

// ---- answering requests --------------------------------------------------------------------

/// What a message on the request channel asks for.
#[derive(Clone, Copy)]
pub enum Ask {
    /// Too short to be a request: no answer.
    Ignore,
    Info,
    Read { sector: u64 },
    Write { sector: u64, data: [u8; 512] },
    Shutdown,
    /// An operation there is not.
    Unknown,
}

#[verifier::ext_equal]
pub enum AskView {
    Ignore,
    Info,
    Read { sector: u64 },
    Write { sector: u64, data: Seq<u8> },
    Shutdown,
    Unknown,
}

impl View for Ask {
    type V = AskView;

    open spec fn view(&self) -> AskView {
        match *self {
            Ask::Ignore => AskView::Ignore,
            Ask::Info => AskView::Info,
            Ask::Read { sector } => AskView::Read { sector },
            Ask::Write { sector, data } => AskView::Write { sector, data: data@ },
            Ask::Shutdown => AskView::Shutdown,
            Ask::Unknown => AskView::Unknown,
        }
    }
}

/// The receive buffer: room for a header and a sector.
pub const REQUEST_BYTES: usize = 525;

/// What the first `n` bytes of the receive buffer ask for. The data of a write is
/// whatever follows the header in the buffer.
pub open spec fn asked(req: Seq<u8>, n: int) -> AskView {
    if n < HEADER {
        AskView::Ignore
    } else if req[0] == OP_INFO {
        AskView::Info
    } else if req[0] == OP_READ {
        AskView::Read { sector: crate::bytes::le64(req, 5) }
    } else if req[0] == OP_WRITE {
        AskView::Write { sector: crate::bytes::le64(req, 5), data: req.subrange(13, 525) }
    } else if req[0] == OP_SHUTDOWN {
        AskView::Shutdown
    } else {
        AskView::Unknown
    }
}

/// Understand a request.
pub fn parse(req: &[u8; 525], n: usize) -> (r: Ask)
    ensures
        r@ == asked(req@, n as int),
{
    if n < HEADER {
        return Ask::Ignore;
    }
    let op = req[0];
    if op == OP_INFO {
        return Ask::Info;
    }
    if op == OP_READ {
        return Ask::Read { sector: get_u64(req, 5) };
    }
    if op == OP_WRITE {
        let mut data: [u8; 512] = [0;512];
        let mut i: usize = 0;
        while i < 512
            invariant
                i <= 512,
                forall|k: int| 0 <= k < i ==> data@[k] == req@[13 + k],
            decreases 512 - i,
        {
            data[i] = req[13 + i];
            i = i + 1;
        }
        assert(data@ =~= req@.subrange(13, 525));
        return Ask::Write { sector: get_u64(req, 5), data };
    }
    if op == OP_SHUTDOWN {
        return Ask::Shutdown;
    }
    Ask::Unknown
}

/// A reply's header: the status, and the request's tag, so the client can tell this
/// reply from a late one.
pub open spec fn reply_header(req: Seq<u8>, ok: bool) -> Seq<u8> {
    seq![
        if ok {
            0u8
        } else {
            1u8
        },
    ] + req.subrange(1, 5)
}

/// The answer to a request, given whether the device did it and what it read.
pub open spec fn answer_of(req: Seq<u8>, ask: AskView, capacity: u64, ok: bool, data: Seq<u8>) -> Seq<
    u8,
> {
    match ask {
        AskView::Ignore => Seq::empty(),
        AskView::Info => reply_header(req, true) + crate::bytes::le64_bytes(capacity),
        AskView::Read { .. } => reply_header(req, ok) + (if ok {
            data
        } else {
            Seq::new(512, |i: int| 0u8)
        }),
        AskView::Write { .. } => reply_header(req, ok),
        AskView::Shutdown => reply_header(req, true),
        AskView::Unknown => reply_header(req, false),
    }
}

/// Answer a request. A message that is no request gets an empty answer: none.
pub fn answer(req: &[u8; 525], ask: &Ask, capacity: u64, ok: bool, data: &[u8; 512]) -> (r: Vec<u8>)
    ensures
        r@ == answer_of(req@, ask@, capacity, ok, data@),
{
    let mut out: Vec<u8> = Vec::new();
    let good = match ask {
        Ask::Ignore => {
            assert(out@ =~= Seq::<u8>::empty());
            return out;
        },
        Ask::Info => true,
        Ask::Shutdown => true,
        Ask::Unknown => false,
        _ => ok,
    };
    let status: u8 = if good {
        0
    } else {
        1
    };
    out.push(status);
    push_bytes(&mut out, slice_subrange(req, 1, 5));
    assert(out@ =~= reply_header(req@, good));
    match ask {
        Ask::Info => {
            push_u64(&mut out, capacity);
        },
        Ask::Read { sector: _ } => {
            if ok {
                push_bytes(&mut out, data);
            } else {
                let blank: [u8; 512] = [0;512];
                assert(blank@ =~= Seq::new(512, |i: int| 0u8));
                push_bytes(&mut out, &blank);
            }
        },
        _ => {},
    }
    out
}

/// Look at a finished request: whether the device did it, and for a read what it
/// read.
pub fn finish(mem: &[u8], kind: u32, out: &mut [u8; 512]) -> (ok: bool)
    requires
        mem@.len() >= 2 * PAGE,
    ensures
        ok == (crate::virtq::blk_result(mem@) is Some),
        final(out)@ == (match crate::virtq::blk_result(mem@) {
            Some(d) => if kind == BLK_T_IN {
                d
            } else {
                old(out)@
            },
            None => old(out)@,
        }),
{
    let mut got: [u8; 512] = [0;512];
    let ok = blk_finish(mem, &mut got);
    if ok && kind == BLK_T_IN {
        *out = got;
    }
    ok
}

// ---- what driver and client promise each other ------------------------------------------------

proof fn lemma_request_reads_back(req: Seq<u8>, op: u8, tag: u32, sector: u64)
    requires
        req.len() == 525,
        req.take(13) == crate::blk::header_bytes(op, tag, sector),
    ensures
        req[0] == op,
        req.subrange(1, 5) == crate::bytes::le32_bytes(tag),
        crate::bytes::le64(req, 5) == sector,
{
    let h = crate::blk::header_bytes(op, tag, sector);
    assert(req.take(13)[0] == h[0]);
    assert(req.subrange(1, 5) =~= h.subrange(1, 5)) by {
        assert(req.subrange(1, 5) =~= req.take(13).subrange(1, 5));
    }
    assert(h.subrange(1, 5) =~= crate::bytes::le32_bytes(tag));
    assert(req.subrange(5, 13) =~= req.take(13).subrange(5, 13));
    assert(h.subrange(5, 13) =~= crate::bytes::le64_bytes(sector));
    crate::bytes::le64_reads_back(req, 5, sector);
}

/// The driver understands what the client says: a read, a write or a question about
/// the disk is taken for exactly that, with the sector and the data that were meant.
pub proof fn a_request_is_understood(
    req: Seq<u8>,
    tag: u32,
    sector: u64,
    data: Seq<u8>,
)
    requires
        req.len() == 525,
        data.len() == 512,
    ensures
        req.take(13) == crate::blk::header_bytes(crate::blk::OP_READ, tag, sector) ==> asked(
            req,
            13,
        ) == (AskView::Read { sector }),
        req == crate::blk::header_bytes(crate::blk::OP_WRITE, tag, sector) + data ==> asked(
            req,
            525,
        ) == (AskView::Write { sector, data }),
        req.take(13) == crate::blk::header_bytes(crate::blk::OP_INFO, tag, 0) ==> asked(req, 13)
            == AskView::Info,
        req.take(13) == crate::blk::header_bytes(crate::blk::OP_SHUTDOWN, tag, 0) ==> asked(
            req,
            13,
        ) == AskView::Shutdown,
{
    if req.take(13) == crate::blk::header_bytes(crate::blk::OP_READ, tag, sector) {
        lemma_request_reads_back(req, crate::blk::OP_READ, tag, sector);
    }
    if req == crate::blk::header_bytes(crate::blk::OP_WRITE, tag, sector) + data {
        assert(req.take(13) =~= crate::blk::header_bytes(crate::blk::OP_WRITE, tag, sector));
        lemma_request_reads_back(req, crate::blk::OP_WRITE, tag, sector);
        assert(req.subrange(13, 525) =~= data);
    }
    if req.take(13) == crate::blk::header_bytes(crate::blk::OP_INFO, tag, 0) {
        lemma_request_reads_back(req, crate::blk::OP_INFO, tag, 0);
    }
    if req.take(13) == crate::blk::header_bytes(crate::blk::OP_SHUTDOWN, tag, 0) {
        lemma_request_reads_back(req, crate::blk::OP_SHUTDOWN, tag, 0);
    }
}

/// The client recognises the answer to its own request: an answer carries the tag
/// of the request that it answers, and the data that was read.
pub proof fn an_answer_carries_the_tag_of_its_request(
    req: Seq<u8>,
    op: u8,
    tag: u32,
    sector: u64,
    ask: AskView,
    capacity: u64,
    ok: bool,
    data: Seq<u8>,
)
    requires
        req.len() == 525,
        req.take(13) == crate::blk::header_bytes(op, tag, sector),
        !(ask is Ignore),
        data.len() == 512,
    ensures
        ({
            let a = answer_of(req, ask, capacity, ok, data);
            &&& crate::blk::tag_of(a) == tag
            &&& ask is Read && ok ==> a[0] == 0 && a.skip(5) == data
            &&& ask is Info ==> a[0] == 0 && crate::bytes::le64(a, 5) == capacity
        }),
{
    let a = answer_of(req, ask, capacity, ok, data);
    lemma_request_reads_back(req, op, tag, sector);
    assert(a.subrange(1, 5) =~= req.subrange(1, 5));
    crate::bytes::le32_reads_back(a, 1, tag);
    if ask is Read && ok {
        assert(a.skip(5) =~= data);
    }
    if ask is Info {
        assert(a.subrange(5, 13) =~= crate::bytes::le64_bytes(capacity));
        crate::bytes::le64_reads_back(a, 5, capacity);
    }
}

} // verus!
