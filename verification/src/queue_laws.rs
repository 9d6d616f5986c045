//! What drivers and their devices mean by the same memory. A device knows nothing of
//! offsets: it is told addresses, and finds descriptors, rings and buffers by them.
use vstd::prelude::*;
use crate::virtq::{Attach, Stage, BLK_T_IN, BLK_T_OUT, HDR_OFF};

verus! {

/// A descriptor as a device reads it.
pub struct Desc {
    pub addr: int,
    pub len: int,
    /// Whether another one follows.
    pub more: bool,
    /// Whether the device writes there.
    pub for_device: bool,
    pub next: int,
}

/// Descriptor `i` of the table at the start of the queue's memory.
pub open spec fn desc_at(mem: Seq<u8>, i: int) -> Desc {
    let flags = crate::bytes_laws::little(mem.subrange(16 * i + 12, 16 * i + 14));
    Desc {
        addr: crate::bytes_laws::little(mem.subrange(16 * i, 16 * i + 8)),
        len: crate::bytes_laws::little(mem.subrange(16 * i + 8, 16 * i + 12)),
        more: flags % 2 == 1,
        for_device: flags / 2 % 2 == 1,
        next: crate::bytes_laws::little(mem.subrange(16 * i + 14, 16 * i + 16)),
    }
}

/// A descriptor reads back as it was written.
pub proof fn a_descriptor_reads_back(
    mem: Seq<u8>,
    i: int,
    addr: u64,
    len: u32,
    flags: u16,
    next: u16,
)
    requires
        0 <= i,
        16 * i + 16 <= mem.len(),
        mem.subrange(16 * i, 16 * i + 16) == crate::virtq::desc_bytes(addr, len, flags, next),
    ensures
        desc_at(mem, i) == (Desc {
            addr: addr as int,
            len: len as int,
            more: flags % 2 == 1,
            for_device: flags / 2 % 2 == 1,
            next: next as int,
        }),
{
    let all = mem.subrange(16 * i, 16 * i + 16);
    let d = crate::virtq::desc_bytes(addr, len, flags, next);
    crate::bytes_laws::bytes_say_their_integer(flags, len, addr);
    crate::bytes_laws::bytes_say_their_integer(next, len, addr);
    assert(mem.subrange(16 * i, 16 * i + 8) =~= all.subrange(0, 8));
    assert(mem.subrange(16 * i + 8, 16 * i + 12) =~= all.subrange(8, 12));
    assert(mem.subrange(16 * i + 12, 16 * i + 14) =~= all.subrange(12, 14));
    assert(mem.subrange(16 * i + 14, 16 * i + 16) =~= all.subrange(14, 16));
    assert(d.subrange(0, 8) =~= crate::bytes::le64_bytes(addr));
    assert(d.subrange(8, 12) =~= crate::bytes::le32_bytes(len));
    assert(d.subrange(12, 14) =~= crate::bytes::le16_bytes(flags));
    assert(d.subrange(14, 16) =~= crate::bytes::le16_bytes(next));
}

/// Where the address of a buffer lies in the driver's memory, whose buffer page begins at
/// the address `buf`.
pub open spec fn place_of(buf: u64, addr: int) -> int {
    HDR_OFF + (addr - buf)
}

/// Whether `mem` holds, for a device that is handed descriptor 0, the request to read or
/// write `sector`: a header it reads, then the data, which it writes for a read and finds
/// there for a write, then one byte of status that it writes, all in the buffer page and
/// apart from one another.
pub open spec fn asks(mem: Seq<u8>, buf: u64, kind: u32, sector: u64, data: Seq<u8>) -> bool {
    let head = desc_at(mem, 0);
    let body = desc_at(mem, 1);
    let end = desc_at(mem, 2);
    let h = place_of(buf, head.addr);
    let b = place_of(buf, body.addr);
    let e = place_of(buf, end.addr);
    &&& head.more && head.next == 1 && !head.for_device && head.len == 16
    &&& body.more && body.next == 2 && body.len == 512
    &&& body.for_device == (kind == BLK_T_IN)
    &&& !end.more && end.for_device && end.len == 1
    &&& HDR_OFF <= h && h + 16 <= HDR_OFF + 4096
    &&& HDR_OFF <= b && b + 512 <= HDR_OFF + 4096
    &&& HDR_OFF <= e && e + 1 <= HDR_OFF + 4096
    &&& h + 16 <= b || b + 512 <= h
    &&& h + 16 <= e || e + 1 <= h
    &&& b + 512 <= e || e + 1 <= b
    &&& crate::bytes_laws::little(mem.subrange(h, h + 4)) == kind
    &&& crate::bytes_laws::little(mem.subrange(h + 4, h + 8)) == 0
    &&& crate::bytes_laws::little(mem.subrange(h + 8, h + 16)) == sector
    &&& kind == BLK_T_OUT ==> mem.subrange(b, b + 512) == data
}

proof fn lemma_chain(mem: Seq<u8>, buf: u64, kind: u32)
    requires
        mem.len() >= 8192,
        buf + 4096 <= u64::MAX,
    ensures
        ({
            let m = crate::virtq::blk_chain(mem, buf, kind);
            &&& m.len() == mem.len()
            &&& forall|i: int| 48 <= i < mem.len() ==> #[trigger] m[i] == mem[i]
            &&& desc_at(m, 0) == (Desc {
                addr: buf as int,
                len: 16,
                more: true,
                for_device: false,
                next: 1,
            })
            &&& desc_at(m, 1) == (Desc {
                addr: buf + 64,
                len: 512,
                more: true,
                for_device: kind == BLK_T_IN,
                next: 2,
            })
            &&& desc_at(m, 2) == (Desc {
                addr: buf + 576,
                len: 1,
                more: false,
                for_device: true,
                next: 0,
            })
        }),
{
    let m = crate::virtq::blk_chain(mem, buf, kind);
    let flags: u16 = if kind == BLK_T_IN {
        3
    } else {
        1
    };
    crate::bytes_laws::bytes_say_their_integer(1, 16, buf);
    crate::bytes_laws::bytes_say_their_integer(flags, 512, (buf + 64) as u64);
    crate::bytes_laws::bytes_say_their_integer(2, 1, (buf + 576) as u64);
    crate::bytes_laws::bytes_say_their_integer(0, 0, 0);
    assert(m.subrange(0, 16) =~= crate::virtq::desc_bytes(buf, 16, 1, 1));
    assert(m.subrange(16, 32) =~= crate::virtq::desc_bytes((buf + 64) as u64, 512, flags, 2));
    assert(m.subrange(32, 48) =~= crate::virtq::desc_bytes((buf + 576) as u64, 1, 2, 0));
    a_descriptor_reads_back(m, 0, buf, 16, 1, 1);
    a_descriptor_reads_back(m, 1, (buf + 64) as u64, 512, flags, 2);
    a_descriptor_reads_back(m, 2, (buf + 576) as u64, 1, 2, 0);
}

proof fn lemma_buffers(mem: Seq<u8>, kind: u32, sector: u64, data: Seq<u8>)
    requires
        mem.len() >= 8192,
        data.len() == 512,
    ensures
        ({
            let m = crate::virtq::blk_buffers(mem, kind, sector, data);
            &&& m.len() == mem.len()
            &&& m.subrange(4096, 4112) == crate::virtq::blk_header(kind, sector)
            &&& m[4672] == 0xff
            &&& kind == BLK_T_OUT ==> m.subrange(4160, 4672) == data
        }),
{
    let m = crate::virtq::blk_buffers(mem, kind, sector, data);
    crate::bytes_laws::bytes_say_their_integer(0, kind, sector);
    crate::bytes_laws::bytes_say_their_integer(0, 0, sector);
    assert(m.subrange(4096, 4112) =~= crate::virtq::blk_header(kind, sector));
    if kind == BLK_T_OUT {
        assert(m.subrange(4160, 4672) =~= data);
    }
}

/// The bytes of a header say what it asks.
proof fn lemma_header(mem: Seq<u8>, kind: u32, sector: u64)
    requires
        mem.len() >= 8192,
        mem.subrange(4096, 4112) == crate::virtq::blk_header(kind, sector),
    ensures
        crate::bytes_laws::little(mem.subrange(4096, 4100)) == kind,
        crate::bytes_laws::little(mem.subrange(4100, 4104)) == 0,
        crate::bytes_laws::little(mem.subrange(4104, 4112)) == sector,
{
    let s = mem.subrange(4096, 4112);
    let h = crate::virtq::blk_header(kind, sector);
    crate::bytes_laws::bytes_say_their_integer(0, kind, sector);
    crate::bytes_laws::bytes_say_their_integer(0, 0, sector);
    assert(mem.subrange(4096, 4100) =~= s.subrange(0, 4));
    assert(mem.subrange(4100, 4104) =~= s.subrange(4, 8));
    assert(mem.subrange(4104, 4112) =~= s.subrange(8, 16));
    assert(h.subrange(0, 4) =~= crate::bytes::le32_bytes(kind));
    assert(h.subrange(4, 8) =~= crate::bytes::le32_bytes(0));
    assert(h.subrange(8, 16) =~= crate::bytes::le64_bytes(sector));
}

/// A request that was laid out is found by the device as it was meant: the right operation,
/// the right sector, and for a write the right data, each where its descriptor says.
pub proof fn a_device_finds_the_request(
    mem: Seq<u8>,
    buf: u64,
    kind: u32,
    sector: u64,
    data: Seq<u8>,
)
    requires
        mem.len() >= 8192,
        data.len() == 512,
        buf + 4096 <= u64::MAX,
    ensures
        asks(
            crate::virtq::blk_chain(crate::virtq::blk_buffers(mem, kind, sector, data), buf, kind),
            buf,
            kind,
            sector,
            data,
        ),
{
    let a = crate::virtq::blk_buffers(mem, kind, sector, data);
    let m = crate::virtq::blk_chain(a, buf, kind);
    lemma_buffers(mem, kind, sector, data);
    lemma_chain(a, buf, kind);
    assert(m.subrange(4096, 4112) =~= a.subrange(4096, 4112));
    assert(m.subrange(4160, 4672) =~= a.subrange(4160, 4672));
    lemma_header(m, kind, sector);
}

/// What a device answers is what the driver takes from it: once the device has put `found`
/// where the data descriptor points and a status where the last one does, the request came
/// to `found` if the status is 0, and to nothing if it is not.
pub proof fn a_devices_answer_is_understood(
    mem: Seq<u8>,
    buf: u64,
    kind: u32,
    sector: u64,
    data: Seq<u8>,
    answered: Seq<u8>,
    found: Seq<u8>,
    status: u8,
)
    requires
        mem.len() >= 8192,
        data.len() == 512,
        buf + 4096 <= u64::MAX,
        found.len() == 512,
        ({
            let m = crate::virtq::blk_chain(
                crate::virtq::blk_buffers(mem, kind, sector, data),
                buf,
                kind,
            );
            let b = place_of(buf, desc_at(m, 1).addr);
            let e = place_of(buf, desc_at(m, 2).addr);
            &&& answered.len() == m.len()
            &&& answered.subrange(b, b + 512) == found
            &&& answered[e] == status
        }),
    ensures
        crate::virtq::blk_result(answered) == if status == 0 {
            Some(found)
        } else {
            None
        },
{
    let a = crate::virtq::blk_buffers(mem, kind, sector, data);
    lemma_buffers(mem, kind, sector, data);
    lemma_chain(a, buf, kind);
}

// ---- rings ----------------------------------------------------------------------------------

/// What a device sees of the available ring, which begins at `ring` in the queue's memory:
/// how many chains have been offered in all.
pub open spec fn offers(mem: Seq<u8>, ring: int) -> int {
    crate::bytes_laws::little(mem.subrange(ring + 2, ring + 4))
}

/// And which descriptor the `n`th of them begins with.
pub open spec fn offer(mem: Seq<u8>, ring: int, depth: int, n: int) -> int {
    let at = ring + 4 + 2 * (n % depth);
    crate::bytes_laws::little(mem.subrange(at, at + 2))
}

/// Offering a chain shows the device one offer more, and it is that chain. Every earlier
/// offer that is still in the ring stays, and so does every byte outside the ring: the
/// descriptors before it and the device's own ring behind it.
pub proof fn what_is_offered_is_seen(mem: Seq<u8>, depth: int, idx: u16, head: u16)
    requires
        0 < depth <= 64,
        mem.len() >= 4096,
    ensures
        ({
            let m = crate::virtq::offered(mem, depth, idx, head);
            let ring = 16 * depth;
            &&& m.len() == mem.len()
            &&& offers(m, ring) == (idx + 1) % 0x1_0000
            &&& offer(m, ring, depth, idx as int) == head
            &&& forall|n: int|
                0 <= n && n % depth != idx as int % depth ==> #[trigger] offer(m, ring, depth, n)
                    == offer(mem, ring, depth, n)
            &&& forall|i: int|
                0 <= i < mem.len() && !(ring + 2 <= i < ring + 4 + 2 * depth) ==> #[trigger] m[i]
                    == mem[i]
        }),
{
    let m = crate::virtq::offered(mem, depth, idx, head);
    let ring = 16 * depth;
    let next = idx.wrapping_add(1);
    let s = idx as int % depth;
    crate::bytes_laws::bytes_say_their_integer(head, 0, 0);
    crate::bytes_laws::bytes_say_their_integer(next, 0, 0);
    assert(0 <= s < depth) by (nonlinear_arith)
        requires
            depth > 0,
            s == idx as int % depth,
            idx >= 0,
    ;
    assert(m.subrange(ring + 2, ring + 4) =~= crate::bytes::le16_bytes(next));
    let at = ring + 4 + 2 * s;
    assert(m.subrange(at, at + 2) =~= crate::bytes::le16_bytes(head));
    assert forall|n: int| 0 <= n && n % depth != s implies #[trigger] offer(m, ring, depth, n)
        == offer(mem, ring, depth, n) by {
        let t = n % depth;
        assert(0 <= t < depth) by (nonlinear_arith)
            requires
                depth > 0,
                t == n % depth,
                n >= 0,
        ;
        let x = ring + 4 + 2 * t;
        assert(m.subrange(x, x + 2) =~= mem.subrange(x, x + 2));
    }
}

/// A whole request of the driver process, from the device's side: one offer more than
/// before, beginning with descriptor 0, and what it finds there is the request.
pub proof fn a_request_reaches_the_device(
    d: crate::blkdrv::Disk,
    mem: Seq<u8>,
    kind: u32,
    sector: u64,
    data: Seq<u8>,
)
    requires
        mem.len() >= 8192,
        data.len() == 512,
        d.dma_phys + 8192 <= u64::MAX,
    ensures
        ({
            let m = crate::blkdrv::requested(d, mem, kind, sector, data);
            &&& offers(m, 128) == (d.avail_idx + 1) % 0x1_0000
            &&& offer(m, 128, 8, d.avail_idx as int) == 0
            &&& asks(m, (d.dma_phys + 4096) as u64, kind, sector, data)
            // Nothing is taken for done that was not.
            &&& crate::virtq::used_of(m) == crate::virtq::used_of(mem)
            &&& crate::virtq::blk_result(m) is None
        }),
{
    let buf = (d.dma_phys + 4096) as u64;
    let a = crate::virtq::blk_buffers(mem, kind, sector, data);
    let c = crate::virtq::blk_chain(a, buf, kind);
    let m = crate::blkdrv::requested(d, mem, kind, sector, data);
    lemma_buffers(mem, kind, sector, data);
    lemma_chain(a, buf, kind);
    a_device_finds_the_request(mem, buf, kind, sector, data);
    what_is_offered_is_seen(c, 8, d.avail_idx, 0);
    lemma_asks_by_parts(c, m, buf, kind, sector, data);
    lemma_used_untouched(mem, a, c, m, kind, sector, data);
}

proof fn lemma_used_untouched(
    mem: Seq<u8>,
    a: Seq<u8>,
    c: Seq<u8>,
    m: Seq<u8>,
    kind: u32,
    sector: u64,
    data: Seq<u8>,
)
    requires
        mem.len() >= 8192,
        data.len() == 512,
        a == crate::virtq::blk_buffers(mem, kind, sector, data),
        c.len() == a.len(),
        m.len() == a.len(),
        forall|i: int| 48 <= i < a.len() ==> #[trigger] c[i] == a[i],
        forall|i: int| 148 <= i < a.len() ==> #[trigger] m[i] == c[i],
    ensures
        crate::virtq::used_of(m) == crate::virtq::used_of(mem),
{
    crate::bytes_laws::bytes_say_their_integer(0, kind, sector);
    crate::bytes_laws::bytes_say_their_integer(0, 0, sector);
    assert(m[2050] == c[2050] && m[2051] == c[2051]);
    assert(c[2050] == a[2050] && c[2051] == a[2051]);
    assert(a[2050] == mem[2050] && a[2051] == mem[2051]);
}

/// A request is read from the descriptors and the buffer page alone.
proof fn lemma_asks_by_parts(
    a: Seq<u8>,
    b: Seq<u8>,
    buf: u64,
    kind: u32,
    sector: u64,
    data: Seq<u8>,
)
    requires
        a.len() >= 8192,
        b.len() == a.len(),
        asks(a, buf, kind, sector, data),
        forall|i: int| 0 <= i < 48 ==> #[trigger] b[i] == a[i],
        forall|i: int| 4096 <= i < 8192 ==> #[trigger] b[i] == a[i],
    ensures
        asks(b, buf, kind, sector, data),
{
    lemma_same_desc(a, b, 0);
    lemma_same_desc(a, b, 1);
    lemma_same_desc(a, b, 2);
    let h = place_of(buf, desc_at(a, 0).addr);
    let d = place_of(buf, desc_at(a, 1).addr);
    assert(b.subrange(h, h + 4) =~= a.subrange(h, h + 4));
    assert(b.subrange(h + 4, h + 8) =~= a.subrange(h + 4, h + 8));
    assert(b.subrange(h + 8, h + 16) =~= a.subrange(h + 8, h + 16));
    assert(b.subrange(d, d + 512) =~= a.subrange(d, d + 512));
}

proof fn lemma_same_desc(a: Seq<u8>, b: Seq<u8>, i: int)
    requires
        0 <= i < 3,
        a.len() >= 48,
        b.len() >= 48,
        forall|k: int| 0 <= k < 48 ==> #[trigger] b[k] == a[k],
    ensures
        desc_at(a, i) == desc_at(b, i),
{
    assert(a.subrange(16 * i, 16 * i + 8) =~= b.subrange(16 * i, 16 * i + 8));
    assert(a.subrange(16 * i + 8, 16 * i + 12) =~= b.subrange(16 * i + 8, 16 * i + 12));
    assert(a.subrange(16 * i + 12, 16 * i + 14) =~= b.subrange(16 * i + 12, 16 * i + 14));
    assert(a.subrange(16 * i + 14, 16 * i + 16) =~= b.subrange(16 * i + 14, 16 * i + 16));
}

/// The same of a request of the kernel's own driver.
pub proof fn a_kernel_request_reaches_the_device(
    mem: Seq<u8>,
    buf: u64,
    idx: u16,
    kind: u32,
    sector: u64,
    data: Seq<u8>,
)
    requires
        mem.len() >= 8192,
        data.len() == 512,
        buf + 4096 <= u64::MAX,
    ensures
        ({
            let m = crate::virtio::requested(mem, buf, idx, kind, sector, data);
            &&& offers(m, 128) == (idx + 1) % 0x1_0000
            &&& offer(m, 128, 8, idx as int) == 0
            &&& asks(m, buf, kind, sector, data)
            &&& crate::virtq::used_of(m) == crate::virtq::used_of(mem)
            &&& crate::virtq::blk_result(m) is None
        }),
{
    let a = crate::virtq::blk_buffers(mem, kind, sector, data);
    let c = crate::virtq::blk_chain(a, buf, kind);
    crate::bytes_laws::bytes_say_their_integer(0, 0, 0);
    let f = crate::bytes::splice(c, 128, crate::bytes::le16_bytes(0));
    let m = crate::virtio::requested(mem, buf, idx, kind, sector, data);
    lemma_buffers(mem, kind, sector, data);
    lemma_chain(a, buf, kind);
    a_device_finds_the_request(mem, buf, kind, sector, data);
    what_is_offered_is_seen(f, 8, idx, 0);
    assert(m == crate::virtq::offered(f, 8, idx, 0));
    assert(forall|i: int| 0 <= i < 128 ==> f[i] == c[i]);
    assert(forall|i: int| 130 <= i < c.len() ==> f[i] == c[i]);
    lemma_asks_by_parts(c, m, buf, kind, sector, data);
    lemma_used_untouched(mem, a, c, m, kind, sector, data);
}

// ---- bringing a device up ---------------------------------------------------------------------

/// The value last written to a register.
pub open spec fn last_written(writes: Seq<(u32, u32)>, register: u32) -> Option<u32>
    decreases writes.len(),
{
    if writes.len() == 0 {
        None
    } else if writes.last().0 == register {
        Some(writes.last().1)
    } else {
        last_written(writes.drop_last(), register)
    }
}

/// The address that two registers have been told, low half first.
pub open spec fn told(writes: Seq<(u32, u32)>, low: u32, high: u32) -> Option<int> {
    match (last_written(writes, low), last_written(writes, high)) {
        (Some(l), Some(h)) => Some(l + h * 0x1_0000_0000),
        _ => None,
    }
}

proof fn lemma_queue_setup(a: Attach)
    requires
        a.wf(),
    ensures
        ({
            let w = crate::virtq::queue_setup(a);
            &&& last_written(w, 0x038) == Some(a.depth)
            &&& told(w, 0x080, 0x084) == Some(a.dma as int)
            &&& told(w, 0x090, 0x094) == Some(a.dma + 16 * a.depth)
            &&& told(w, 0x0a0, 0x0a4) == Some(a.dma + 2048)
            &&& last_written(w, 0x044) == Some(1u32)
            &&& w.last() == (0x044u32, 1u32)
        }),
{
    reveal_with_fuel(last_written, 9);
    let w = crate::virtq::queue_setup(a);
    let w7 = w.drop_last();
    let w6 = w7.drop_last();
    let w5 = w6.drop_last();
    let w4 = w5.drop_last();
    let w3 = w4.drop_last();
    let w2 = w3.drop_last();
    let w1 = w2.drop_last();
    assert(w.len() == 8);
    assert(w7.last() == w[6] && w6.last() == w[5] && w5.last() == w[4] && w4.last() == w[3]
        && w3.last() == w[2] && w2.last() == w[1] && w1.last() == w[0]);
}

/// A device that is taken is told where its rings are before it is told that they are ready:
/// the descriptors at the start of the queue's memory, the available ring right behind them,
/// the used ring in the second half of the page. None lies over another.
pub proof fn a_device_is_told_where_its_rings_are(a: Attach, value: u32)
    requires
        a.wf(),
        a.depth > 0,
        a.stage == Stage::Depth,
        crate::virtq::reply(a, value).1 == Stage::Ready,
    ensures
        ({
            let w = crate::virtq::reply(a, value).0;
            let table = told(w, 0x080, 0x084)->0 - a.dma;
            let avail = told(w, 0x090, 0x094)->0 - a.dma;
            let used = told(w, 0x0a0, 0x0a4)->0 - a.dma;
            let ready = if a.start {
                w.len() - 2
            } else {
                w.len() - 1
            };
            &&& told(w, 0x080, 0x084) is Some && told(w, 0x090, 0x094) is Some && told(
                w,
                0x0a0,
                0x0a4,
            ) is Some
            &&& last_written(w, 0x038) == Some(a.depth)
            &&& table == 0
            // Where offers are made.
            &&& avail == 16 * a.depth
            // Where the driver looks for what is done.
            &&& used == 2048
            &&& avail + 6 + 2 * a.depth <= used
            &&& used + 6 + 8 * a.depth <= 4096
            &&& w[ready] == (0x044u32, 1u32)
            &&& a.start ==> w.last() == (0x070u32, 15u32)
            &&& a.start == (last_written(w, 0x070) is Some)
            &&& value >= a.depth
        }),
{
    let q = crate::virtq::queue_setup(a);
    let w = crate::virtq::reply(a, value).0;
    lemma_queue_setup(a);
    lemma_not_written(q, 0x070);
    if a.start {
        assert(w.drop_last() =~= q);
        lemma_one_later(w, 0x038);
        lemma_one_later(w, 0x080);
        lemma_one_later(w, 0x084);
        lemma_one_later(w, 0x090);
        lemma_one_later(w, 0x094);
        lemma_one_later(w, 0x0a0);
        lemma_one_later(w, 0x0a4);
        lemma_one_later(w, 0x070);
    }
}

proof fn lemma_one_later(w: Seq<(u32, u32)>, register: u32)
    requires
        w.len() > 0,
    ensures
        last_written(w, register) == if w.last().0 == register {
            Some(w.last().1)
        } else {
            last_written(w.drop_last(), register)
        },
{
}

proof fn lemma_not_written(w: Seq<(u32, u32)>, register: u32)
    requires
        forall|i: int| 0 <= i < w.len() ==> (#[trigger] w[i]).0 != register,
    ensures
        last_written(w, register) is None,
    decreases w.len(),
{
    if w.len() > 0 {
        assert(w.last() == w[w.len() - 1]);
        lemma_not_written(w.drop_last(), register);
    }
}

/// A driver takes exactly one feature, and only if it is offered: the modern interface. It
/// announces itself first, and asks whether the device agrees before going on.
pub proof fn a_driver_takes_one_feature(a: Attach, value: u32)
    requires
        a.stage == Stage::Identify || a.stage == Stage::Features,
    ensures
        ({
            let (w, next) = crate::virtq::reply(a, value);
            if a.stage == Stage::Identify {
                &&& (next == Stage::Features) == (value == a.kind)
                &&& next == Stage::Features || next == Stage::Refused
                &&& next == Stage::Features ==> {
                    // Reset, acknowledged, driver found; then which features to show.
                    &&& w.len() == 4
                    &&& w[0] == (0x070u32, 0u32) && w[1] == (0x070u32, 1u32) && w[2] == (
                        0x070u32,
                        3u32,
                    )
                    &&& w[3] == (0x014u32, 1u32)
                }
                &&& next == Stage::Refused ==> w.len() == 0
            } else {
                &&& (next == Stage::Agreed) == (value % 2 == 1)
                &&& next == Stage::Agreed || next == Stage::Refused
                &&& next == Stage::Agreed ==> {
                    // The first feature of the second word, none of the first.
                    &&& w.len() == 5
                    &&& w[0] == (0x024u32, 1u32) && w[1] == (0x020u32, 1u32)
                    &&& w[2] == (0x024u32, 0u32) && w[3] == (0x020u32, 0u32)
                    &&& w[4] == (0x070u32, 11u32)
                }
                &&& next == Stage::Refused ==> w == seq![(0x070u32, 128u32)]
            }
        }),
{
}

/// A device that agrees has its first queue looked at; one that does not is told that it
/// failed, and so is one whose queue is too short.
pub proof fn a_device_has_to_agree(a: Attach, value: u32)
    requires
        a.stage == Stage::Agreed || a.stage == Stage::Depth,
    ensures
        ({
            let (w, next) = crate::virtq::reply(a, value);
            let agrees = value / 8 % 2 == 1;
            &&& a.stage == Stage::Agreed ==> (if agrees {
                next == Stage::Depth && w == seq![(0x030u32, 0u32)]
            } else {
                next == Stage::Refused && w == seq![(0x070u32, 128u32)]
            })
            &&& a.stage == Stage::Depth ==> (if value >= a.depth {
                next == Stage::Ready
            } else {
                next == Stage::Refused && w == seq![(0x070u32, 128u32)]
            })
        }),
{
    assert((value & 8 != 0) == (value / 8 % 2 == 1)) by (bit_vector);
}

// ---- requests over a channel --------------------------------------------------------------------

/// A driver answers what was asked and nothing else: a message too short to be a request gets
/// no answer; anything else gets a status, the four bytes of its tag, and what was asked for.
/// The status is 0 exactly when the request was done.
pub proof fn an_answer_says_what_became_of_the_request(
    req: Seq<u8>,
    n: int,
    capacity: u64,
    ok: bool,
    data: Seq<u8>,
)
    requires
        req.len() == 525,
        data.len() == 512,
    ensures
        ({
            let a = crate::blkdrv::answer_of(
                req,
                crate::blkdrv::asked(req, n),
                capacity,
                ok,
                data,
            );
            if n < 13 {
                a.len() == 0
            } else {
                &&& a.len() >= 5
                &&& a.subrange(1, 5) == req.subrange(1, 5)
                &&& match req[0] {
                    0 => a[0] == 0 && a.len() == 13 && crate::bytes_laws::little(a.skip(5))
                        == capacity,
                    1 => a.len() == 517 && (a[0] == 0) == ok && (ok ==> a.skip(5) == data),
                    2 => a.len() == 5 && (a[0] == 0) == ok,
                    3 => a.len() == 5 && a[0] == 0,
                    _ => a.len() == 5 && a[0] != 0,
                }
            }
        }),
{
    let a = crate::blkdrv::answer_of(req, crate::blkdrv::asked(req, n), capacity, ok, data);
    crate::bytes_laws::bytes_say_their_integer(0, 0, capacity);
    if n >= 13 {
        assert(a.subrange(1, 5) =~= req.subrange(1, 5));
        if req[0] == 0 {
            assert(a.skip(5) =~= crate::bytes::le64_bytes(capacity));
        }
        if req[0] == 1 && ok {
            assert(a.skip(5) =~= data);
        }
    }
}

/// What a request asks for is in its bytes: the operation first, the sector from the sixth on,
/// least significant byte first, and what follows it is the data.
pub proof fn a_request_says_which_sector(req: Seq<u8>, n: int)
    requires
        req.len() == 525,
        n >= 13,
    ensures
        ({
            let sector = crate::bytes_laws::little(req.subrange(5, 13));
            match crate::blkdrv::asked(req, n) {
                crate::blkdrv::AskView::Read { sector: s } => req[0] == 1 && s == sector,
                crate::blkdrv::AskView::Write { sector: s, data } => req[0] == 2 && s == sector
                    && data == req.skip(13),
                crate::blkdrv::AskView::Info => req[0] == 0,
                crate::blkdrv::AskView::Shutdown => req[0] == 3,
                crate::blkdrv::AskView::Unknown => req[0] > 3,
                crate::blkdrv::AskView::Ignore => false,
            }
        }),
{
    crate::bytes_laws::integers_are_what_their_bytes_say(req, 5);
    assert(req.subrange(13, 525) =~= req.skip(13));
}

} // verus!
