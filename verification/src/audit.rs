//! The action log: an append-only, hash-chained record of what was done and on
//! whose authority.
//!
//! Each record carries the hash of the one before it, so a record cannot be
//! altered or removed without breaking the chain after it. Verification walks
//! the chain and reports the first break, which is the sequence number of the
//! earliest record that is no longer trustworthy.
//!
//! **This is tamper-evident, not tamper-proof.** The hash is FNV-1a: unkeyed,
//! and anyone who can write to the disk can recompute the rest of the chain.
use vstd::prelude::*;
use vstd::slice::slice_subrange;
use crate::blk::Disk;
use crate::bytes::{get_u64, push_u64};
use crate::fs::text_in;

verus! {

/// Four records to a sector, so appending is one read-modify-write.
pub const RECORD_BYTES: usize = 128;

pub const RECORDS_PER_SECTOR: u64 = 4;

pub const ACTOR_BYTES: usize = 8;

pub const NAME_BYTES: usize = 32;

pub const DETAIL_BYTES: usize = 40;

pub const MAGIC: u64 = 0x4A5F_4155_4449_5430;  // "J_AUDIT0"

pub const FNV_OFFSET: u64 = 0xcbf2_9ce4_8422_2325;

pub const FNV_PRIME: u64 = 0x0000_0100_0000_01B3;

/// FNV-1a from state `h`.
pub open spec fn fnv(h: u64, data: Seq<u8>) -> u64
    decreases data.len(),
{
    if data.len() == 0 {
        h
    } else {
        (fnv(h, data.drop_last()) ^ (data.last() as u64)).wrapping_mul(FNV_PRIME)
    }
}

/// The hash of a record's body, seeded with the previous record's hash.
pub open spec fn body_hash(body: Seq<u8>, prev: u64) -> u64 {
    fnv(prev ^ FNV_OFFSET, body)
}

/// FNV-1a over `data` from state `seed`.
pub fn fnv1a(seed: u64, data: &[u8]) -> (h: u64)
    ensures
        h == fnv(seed, data@),
{
    let mut h: u64 = seed;
    let mut i: usize = 0;
    assert(data@.take(0) =~= Seq::empty());
    while i < data.len()
        invariant
            i <= data@.len(),
            h == fnv(seed, data@.take(i as int)),
        decreases data@.len() - i,
    {
        assert(data@.take(i + 1).drop_last() =~= data@.take(i as int));
        h = (h ^ (data[i] as u64)).wrapping_mul(FNV_PRIME);
        i = i + 1;
    }
    assert(data@.take(i as int) =~= data@);
    h
}

/// The hash a record should carry, given the hash of the one before it.
pub fn hash_record(rec: &[u8], prev: u64) -> (h: u64)
    requires
        rec@.len() >= 120,
    ensures
        h == body_hash(rec@.take(120), prev),
{
    let body = slice_subrange(rec, 0, 120);
    assert(body@ =~= rec@.take(120));
    fnv1a(prev ^ FNV_OFFSET, body)
}

/// A text cut or zero-padded to `n` bytes.
pub open spec fn field(text: Seq<char>, n: nat) -> Seq<u8> {
    let b = vstd::utf8::encode_utf8(text);
    if b.len() <= n {
        b + crate::fs::zeros(n - b.len())
    } else {
        b.take(n as int)
    }
}

/// What one record says.
#[verifier::ext_equal]
pub struct Fields {
    pub seq: u64,
    pub prev: u64,
    pub tick: u64,
    /// Who acted: the first eight bytes of the text.
    pub actor: Seq<u8>,
    pub cap: u64,
    pub name: Seq<u8>,
    pub detail: Seq<u8>,
}

impl Fields {
    /// Every field has its size.
    pub open spec fn wf(self) -> bool {
        self.actor.len() == 8 && self.name.len() == 32 && self.detail.len() == 40
    }
}

/// The 120 bytes a record's hash covers.
pub open spec fn record_body(f: Fields) -> Seq<u8> {
    crate::bytes::le64_bytes(MAGIC) + crate::bytes::le64_bytes(f.seq) + crate::bytes::le64_bytes(
        f.prev,
    ) + crate::bytes::le64_bytes(f.tick) + f.actor + crate::bytes::le64_bytes(f.cap) + f.name + f.detail
}

/// A whole record.
pub open spec fn record_bytes(f: Fields) -> Seq<u8> {
    record_body(f) + crate::bytes::le64_bytes(body_hash(record_body(f), f.prev))
}

/// The log: where it is, and where it ends.
pub struct Log {
    pub start: u64,
    pub sectors: u64,
    pub next_seq: u64,
    pub last_hash: u64,
    pub ready: bool,
    /// Records appended since this log was opened.
    pub appended: u64,
}

/// The bytes of record `seq` of a log that starts at sector `start`.
pub open spec fn record_at(sectors: Seq<Seq<u8>>, start: u64, seq: int) -> Seq<u8> {
    sectors[start + seq / 4].subrange(128 * (seq % 4), 128 * (seq % 4) + 128)
}

/// The hash stored in the record before `seq`; 0 for the first.
pub open spec fn prev_hash(sectors: Seq<Seq<u8>>, start: u64, seq: int) -> u64 {
    if seq <= 0 {
        0
    } else {
        crate::bytes::le64(record_at(sectors, start, seq - 1), 120)
    }
}

/// Whether a record is one, follows the record before it, and matches its hash.
pub open spec fn record_good(sectors: Seq<Seq<u8>>, start: u64, seq: int) -> bool {
    let rec = record_at(sectors, start, seq);
    let prev = prev_hash(sectors, start, seq);
    &&& crate::bytes::le64(rec, 0) == MAGIC
    &&& crate::bytes::le64(rec, 16) == prev
    &&& body_hash(rec.take(120), prev) == crate::bytes::le64(rec, 120)
}

/// The first record at or after `i` that is not good, or `n`.
pub open spec fn first_break(sectors: Seq<Seq<u8>>, start: u64, i: int, n: int) -> int
    decreases n - i,
{
    if i >= n {
        n
    } else if !record_good(sectors, start, i) {
        i
    } else {
        first_break(sectors, start, i + 1, n)
    }
}

/// The first record at or after `i` that does not start with the magic, or `n`.
pub open spec fn scan_end(sectors: Seq<Seq<u8>>, start: u64, i: int, n: int) -> int
    decreases n - i,
{
    if i >= n {
        n
    } else if crate::bytes::le64(record_at(sectors, start, i), 0) != MAGIC {
        i
    } else {
        scan_end(sectors, start, i + 1, n)
    }
}

/// Sectors that hold `n` records.
pub open spec fn sectors_of(n: int) -> nat {
    ((n + 3) / 4) as nat
}

impl Log {
    /// The region is addressable.
    pub open spec fn wf(self) -> bool {
        &&& self.start + self.sectors <= u64::MAX
        &&& self.sectors * 4 <= u64::MAX
        &&& self.next_seq <= self.sectors * 4
    }

    /// A log that has not been pointed at a region yet.
    pub fn closed() -> (log: Log)
        ensures
            log == (Log {
                start: 0,
                sectors: 0,
                next_seq: 0,
                last_hash: 0,
                ready: false,
                appended: 0,
            }),
            log.wf(),
    {
        Log { start: 0, sectors: 0, next_seq: 0, last_hash: 0, ready: false, appended: 0 }
    }
}

/// Where a scan of a region ends on a device.
pub open spec fn opened_end(d: crate::blk::DiskView, start: u64, sectors: u64) -> int {
    scan_end(d.sectors, start, 0, 4 * d.readable(start, sectors as nat) as int)
}

/// The number after that of a record, as far as numbers go.
pub open spec fn number_after(rec: Seq<u8>) -> u64 {
    if crate::bytes::le64(rec, 8) == u64::MAX {
        u64::MAX
    } else {
        (crate::bytes::le64(rec, 8) + 1) as u64
    }
}

/// A log opened on what the region already holds.
pub open spec fn opened(log: Log, d: crate::blk::DiskView, start: u64, sectors: u64) -> Log {
    let end = opened_end(d, start, sectors);
    let last = record_at(d.sectors, start, end - 1);
    let seq = number_after(last);
    Log {
        start,
        sectors,
        next_seq: if end == 0 {
            0
        } else if seq < sectors * 4 {
            seq
        } else {
            (sectors * 4) as u64
        },
        last_hash: if end == 0 {
            0
        } else {
            crate::bytes::le64(last, 120)
        },
        ready: true,
        appended: log.appended,
    }
}

proof fn lemma_scan_end_bounds(sectors: Seq<Seq<u8>>, start: u64, i: int, n: int)
    requires
        0 <= i <= n,
    ensures
        i <= scan_end(sectors, start, i, n) <= n,
    decreases n - i,
{
    if i < n && crate::bytes::le64(record_at(sectors, start, i), 0) == MAGIC {
        lemma_scan_end_bounds(sectors, start, i + 1, n);
    }
}

proof fn lemma_first_break_bounds(sectors: Seq<Seq<u8>>, start: u64, i: int, n: int)
    requires
        0 <= i <= n,
    ensures
        i <= first_break(sectors, start, i, n) <= n,
        forall|k: int|
            i <= k < first_break(sectors, start, i, n) ==> #[trigger] record_good(
                sectors,
                start,
                k,
            ),
        first_break(sectors, start, i, n) < n ==> !record_good(
            sectors,
            start,
            first_break(sectors, start, i, n),
        ),
    decreases n - i,
{
    if i < n && record_good(sectors, start, i) {
        lemma_first_break_bounds(sectors, start, i + 1, n);
    }
}

/// A chain breaks at the first record that is not good.
pub proof fn break_is_the_first_bad_record(sectors: Seq<Seq<u8>>, start: u64, n: int, k: int)
    requires
        0 <= k <= n,
        forall|i: int| 0 <= i < k ==> #[trigger] record_good(sectors, start, i),
        k < n ==> !record_good(sectors, start, k),
    ensures
        first_break(sectors, start, 0, n) == k,
{
    lemma_first_break_bounds(sectors, start, 0, n);
    let b = first_break(sectors, start, 0, n);
    if b < k {
        assert(record_good(sectors, start, b));
    } else if k < b {
        assert(record_good(sectors, start, k));
    }
}

/// Where a chain does not break before `n`, every record before that is good.
pub proof fn all_before_the_break_are_good(sectors: Seq<Seq<u8>>, start: u64, n: int)
    requires
        0 <= n,
        first_break(sectors, start, 0, n) >= n,
    ensures
        forall|i: int| 0 <= i < n ==> #[trigger] record_good(sectors, start, i),
{
    lemma_first_break_bounds(sectors, start, 0, n);
}

/// Point the log at the region the filesystem reserved for it, and find the end
/// of whatever is already there.
#[verifier::rlimit(30)]
pub fn init(log: &mut Log, disk: &mut Disk, start: u64, sectors: u64)
    requires
        start + sectors <= u64::MAX,
        sectors * 4 <= u64::MAX,
    ensures
        *final(log) == opened(*old(log), old(disk)@, start, sectors),
        final(log).wf(),
        final(disk)@ == ({
            let d = old(disk)@;
            let end = opened_end(d, start, sectors);
            if end < 4 * d.readable(start, sectors as nat) {
                d.spent((end / 4 + 1) as nat)
            } else {
                d.after_reads(start, sectors as nat).0
            }
        }),
{
    let ghost d = disk@;
    let ghost limit: int = 4 * d.readable(start, sectors as nat) as int;
    let ghost end = opened_end(d, start, sectors);
    proof {
        lemma_scan_end_bounds(d.sectors, start, 0, limit);
        disk.sectors_are_whole();
        crate::blk::readable_bounds(d, start, sectors as nat);
    }
    let mut seq: u64 = 0;
    let mut last_hash: u64 = 0;
    let mut buf: [u8; 512] = [0u8; 512];
    let capacity: u64 = sectors * 4;
    let mut s: u64 = 0;
    let mut scanning = true;
    while s < sectors && scanning
        invariant
            d.wf(),
            old(disk)@ == d,
            s <= sectors,
            start + sectors <= u64::MAX,
            capacity == sectors * 4,
            limit == 4 * d.readable(start, sectors as nat),
            0 <= end <= limit,
            end == scan_end(d.sectors, start, 0, limit),
            scanning ==> {
                &&& s <= d.readable(start, sectors as nat) <= sectors
                &&& disk@ == d.spent(s as nat)
                &&& end == scan_end(d.sectors, start, 4 * s as int, limit)
                &&& 4 * s <= end
                &&& s > 0 ==> seq == number_after(record_at(d.sectors, start, 4 * s - 1))
                &&& s > 0 ==> last_hash == crate::bytes::le64(
                    record_at(d.sectors, start, 4 * s - 1),
                    120,
                )
                &&& s == 0 ==> seq == 0 && last_hash == 0
            },
            !scanning ==> {
                &&& disk@ == if end < limit {
                    d.spent((end / 4 + 1) as nat)
                } else {
                    d.after_reads(start, sectors as nat).0
                }
                &&& end > 0 ==> seq == number_after(record_at(d.sectors, start, end - 1))
                &&& end > 0 ==> last_hash == crate::bytes::le64(
                    record_at(d.sectors, start, end - 1),
                    120,
                )
                &&& end == 0 ==> seq == 0 && last_hash == 0
            },
        decreases sectors - s + if scanning { 1int } else { 0 },
    {
        proof {
            crate::blk::reading_on(d, start, sectors as nat, s as nat);
        }
        if disk.read_sector(start + s, &mut buf).is_err() {
            assert(4 * s == limit);
            scanning = false;
        } else {
            assert(s < d.readable(start, sectors as nat));
            let mut r: usize = 0;
            while r < 4 && scanning
                invariant
                    d.wf(),
                    r <= 4,
                    s < sectors,
                    start + sectors <= u64::MAX,
                    limit == 4 * d.readable(start, sectors as nat),
                    s < d.readable(start, sectors as nat),
                    0 <= end <= limit,
                    buf@ == d.sectors[start + s],
                    buf@.len() == 512,
                    disk@ == d.spent((s + 1) as nat),
                    end == scan_end(d.sectors, start, 0, limit),
                    scanning ==> end == scan_end(d.sectors, start, 4 * s + r, limit),
                    scanning ==> 4 * s + r <= end,
                    !scanning ==> r < 4 && end == 4 * s + r && end < limit,
                    4 * s + r > 0 ==> seq == number_after(record_at(d.sectors, start, 4 * s + r - 1)),
                    4 * s + r > 0 ==> last_hash == crate::bytes::le64(
                        record_at(d.sectors, start, 4 * s + r - 1),
                        120,
                    ),
                    4 * s + r == 0 ==> seq == 0 && last_hash == 0,
                decreases 4 - r + if scanning { 1int } else { 0 },
            {
                let rec = slice_subrange(&buf, r * 128, r * 128 + 128);
                let ghost at = 4 * s + r;
                assert(at / 4 == s && at % 4 == r) by {
                    assert((4 * s + r) / 4 == s);
                }
                assert(rec@ =~= record_at(d.sectors, start, at as int));
                if get_u64(rec, 0) != MAGIC {
                    // First unwritten slot: the end of the log.
                    scanning = false;
                } else {
                    proof {
                        lemma_scan_end_bounds(d.sectors, start, at + 1, limit);
                    }
                    seq = get_u64(rec, 8).saturating_add(1);
                    last_hash = get_u64(rec, 120);
                    r = r + 1;
                }
            }
            if scanning {
                s = s + 1;
            }
        }
    }
    log.start = start;
    log.sectors = sectors;
    log.next_seq =
    if seq < capacity {
        seq
    } else {
        capacity
    };
    log.last_hash = last_hash;
    log.ready = true;
}

/// The record that appending would write.
pub open spec fn new_fields(
    log: Log,
    now: u64,
    actor: Seq<char>,
    cap: u64,
    name: Seq<char>,
    detail: Seq<char>,
) -> Fields {
    Fields {
        seq: log.next_seq,
        prev: log.last_hash,
        tick: now,
        actor: field(actor, 8),
        cap,
        name: field(name, 32),
        detail: field(detail, 40),
    }
}

/// A sector with the record in slot `slot` replaced.
pub open spec fn with_record(sector: Seq<u8>, slot: int, rec: Seq<u8>) -> Seq<u8> {
    sector.take(128 * slot) + rec + sector.skip(128 * slot + 128)
}

/// The log after `f` has been appended.
pub open spec fn grown(log: Log, f: Fields) -> Log {
    Log {
        next_seq: (log.next_seq + 1) as u64,
        last_hash: body_hash(record_body(f), f.prev),
        appended: log.appended.wrapping_add(1),
        ..log
    }
}

/// Everything appending the record `f` does.
pub open spec fn append_outcome(log: Log, d: crate::blk::DiskView, f: Fields) -> (
    Log,
    crate::blk::DiskView,
    Result<u64, &'static str>,
) {
    let sector = (log.start + log.next_seq / 4) as u64;
    if !log.ready {
        (log, d, Err("no audit log"))
    } else if log.next_seq >= log.sectors * 4 {
        (log, d, Err("audit log is full"))
    } else {
        let d1 = d.after_read();
        match d.read_result(sector) {
            Err(e) => (log, d1, Err(e)),
            Ok(old_sector) => {
                let buf = with_record(
                    old_sector,
                    (log.next_seq % 4) as int,
                    record_bytes(f),
                );
                let d2 = d1.after_write(sector, buf);
                match d1.write_result(sector) {
                    Err(e) => (log, d2, Err(e)),
                    Ok(_) => (grown(log, f), d2, Ok(log.next_seq)),
                }
            },
        }
    }
}

/// Append a text cut or zero-padded to `n` bytes.
fn push_field(out: &mut Vec<u8>, text: &str, n: usize)
    ensures
        final(out)@ == old(out)@ + field(text@, n as nat),
{
    let bytes = text.as_bytes();
    let ghost base = out@;
    let mut i: usize = 0;
    while i < n
        invariant
            i <= n,
            bytes@ == vstd::utf8::encode_utf8(text@),
            out@ == base + field(text@, n as nat).take(i as int),
            field(text@, n as nat).len() == n,
        decreases n - i,
    {
        let b: u8 = if i < bytes.len() {
            bytes[i]
        } else {
            0
        };
        out.push(b);
        assert(field(text@, n as nat)[i as int] == b);
        assert(field(text@, n as nat).take(i + 1) =~= field(text@, n as nat).take(i as int).push(
            b,
        ));
        i = i + 1;
    }
    assert(field(text@, n as nat).take(n as int) =~= field(text@, n as nat));
}

/// Record something that happened.
///
/// `actor` is who did it, `cap` the capability it was done under, `name` what
/// was done and `detail` to what. The capability id is what ties a record back
/// to a delegation chain.
pub fn append(
    log: &mut Log,
    disk: &mut Disk,
    now: u64,
    actor: &str,
    cap: u64,
    name: &str,
    detail: &str,
) -> (r: Result<u64, &'static str>)
    requires
        old(log).wf(),
    ensures
        final(log).wf(),
        (*final(log), final(disk)@, r) == append_outcome(
            *old(log),
            old(disk)@,
            new_fields(*old(log), now, actor@, cap, name@, detail@),
        ),
{
    let ghost f = new_fields(*log, now, actor@, cap, name@, detail@);
    proof {
        disk.sectors_are_whole();
    }
    if !log.ready {
        return Err("no audit log");
    }
    if log.next_seq >= log.sectors * 4 {
        return Err("audit log is full");
    }
    let seq = log.next_seq;
    let mut rec: Vec<u8> = Vec::new();
    push_u64(&mut rec, MAGIC);
    push_u64(&mut rec, seq);
    push_u64(&mut rec, log.last_hash);
    push_u64(&mut rec, now);
    push_field(&mut rec, actor, ACTOR_BYTES);
    push_u64(&mut rec, cap);
    push_field(&mut rec, name, NAME_BYTES);
    push_field(&mut rec, detail, DETAIL_BYTES);
    assert(rec@ =~= record_body(f));
    assert(rec@.take(120) =~= record_body(f));
    let hash = hash_record(rec.as_slice(), log.last_hash);
    push_u64(&mut rec, hash);
    assert(rec@ =~= record_bytes(f));
    // Read-modify-write the sector this record shares with up to three others.
    let sector: u64 = log.start + seq / 4;
    let slot: usize = (seq % 4) as usize;
    let mut buf: [u8; 512] = [0u8; 512];
    match disk.read_sector(sector, &mut buf) {
        Err(e) => {
            return Err(e);
        },
        Ok(_) => {},
    }
    let ghost before = buf@;
    let mut i: usize = 0;
    while i < 128
        invariant
            i <= 128,
            slot < 4,
            rec@.len() == 128,
            before.len() == 512,
            forall|k: int|
                0 <= k < 512 ==> #[trigger] buf@[k] == if 128 * slot <= k < 128 * slot + i {
                    rec@[k - 128 * slot]
                } else {
                    before[k]
                },
        decreases 128 - i,
    {
        buf[slot * 128 + i] = rec[i];
        i = i + 1;
    }
    assert(buf@ =~= with_record(before, slot as int, rec@));
    match disk.write_sector(sector, &buf) {
        Err(e) => {
            return Err(e);
        },
        Ok(_) => {},
    }
    log.next_seq = seq + 1;
    log.last_hash = hash;
    log.appended = log.appended.wrapping_add(1);
    Ok(seq)
}

/// What a walk of the chain found.
#[derive(Clone, Copy, Debug, PartialEq, Eq, Structural)]
pub struct Verified {
    pub records: u64,
    /// The sequence number of the earliest record that no longer verifies.
    pub first_bad: Option<u64>,
}

/// How many of a log's records sit in sectors that can be read.
pub open spec fn reachable(log: Log, d: crate::blk::DiskView) -> int {
    let limit = 4 * d.readable(log.start, sectors_of(log.next_seq as int)) as int;
    if limit < log.next_seq {
        limit
    } else {
        log.next_seq as int
    }
}

/// The first record that does not verify; the length of the log if all do.
pub open spec fn chain_length(log: Log, d: crate::blk::DiskView) -> int {
    first_break(d.sectors, log.start, 0, reachable(log, d))
}

/// What a walk of the chain says.
pub open spec fn verdict(log: Log, d: crate::blk::DiskView) -> Verified {
    let n = chain_length(log, d);
    Verified {
        records: n as u64,
        first_bad: if n < log.next_seq {
            Some(n as u64)
        } else {
            None
        },
    }
}

/// Walk the chain from the beginning and check every link.
#[verifier::rlimit(30)]
pub fn verify(log: &Log, disk: &mut Disk) -> (v: Verified)
    requires
        log.wf(),
    ensures
        ({
            let n = chain_length(*log, old(disk)@);
            &&& v == verdict(*log, old(disk)@)
            &&& final(disk)@ == if n < reachable(*log, old(disk)@) {
                old(disk)@.spent((n / 4 + 1) as nat)
            } else {
                old(disk)@.after_reads(log.start, sectors_of(log.next_seq as int)).0
            }
        }),
{
    let ghost d = disk@;
    let ghost want = sectors_of(log.next_seq as int);
    let ghost can = d.readable(log.start, want);
    let ghost n = reachable(*log, d);
    let ghost brk = chain_length(*log, d);
    proof {
        disk.sectors_are_whole();
        crate::blk::readable_bounds(d, log.start, want);
        lemma_first_break_bounds(d.sectors, log.start, 0, n);
    }
    let mut prev: u64 = 0;
    let mut buf: [u8; 512] = [0u8; 512];
    let mut seq: u64 = 0;
    while seq < log.next_seq
        invariant
            log.wf(),
            d.wf(),
            old(disk)@ == d,
            seq <= log.next_seq,
            want == sectors_of(log.next_seq as int),
            can == d.readable(log.start, want),
            can <= want,
            n == reachable(*log, d),
            brk == chain_length(*log, d),
            seq <= n,
            brk == first_break(d.sectors, log.start, seq as int, n),
            prev == prev_hash(d.sectors, log.start, seq as int),
            disk@ == d.spent(sectors_of(seq as int)),
            seq % 4 != 0 ==> buf@ == d.sectors[log.start + seq / 4] && seq / 4 < can,
        decreases log.next_seq - seq,
    {
        let slot: usize = (seq % 4) as usize;
        if seq % 4 == 0 {
            proof {
                crate::blk::reading_on(d, log.start, want, (seq / 4) as nat);
            }
            if disk.read_sector(log.start + seq / 4, &mut buf).is_err() {
                assert(can == seq / 4);
                assert(n == seq);
                return Verified { records: seq, first_bad: Some(seq) };
            }
        }
        assert(seq / 4 < can);
        assert(buf@ == d.sectors[log.start + seq / 4]);
        let rec = slice_subrange(&buf, slot * 128, slot * 128 + 128);
        assert(rec@ =~= record_at(d.sectors, log.start, seq as int));
        // Three ways a record can be wrong: it is not a record, it does not
        // follow the one before it, or its own contents do not match its hash.
        let stored = get_u64(rec, 120);
        if get_u64(rec, 0) != MAGIC || get_u64(rec, 16) != prev || hash_record(rec, prev) != stored {
            assert(!record_good(d.sectors, log.start, seq as int));
            return Verified { records: seq, first_bad: Some(seq) };
        }
        prev = stored;
        seq = seq + 1;
    }
    Verified { records: seq, first_bad: None }
}

/// What reading a record gives: its sequence number, tick and capability, its name and
/// its detail. `None` where the sector cannot be read or holds no record there.
pub open spec fn read_outcome(log: Log, d: crate::blk::DiskView, seq: u64) -> Option<
    ((u64, u64, u64), Seq<u8>, Seq<u8>),
> {
    let rec = record_at(d.sectors, log.start, seq as int);
    if d.read_result((log.start + seq / 4) as u64) is Ok && crate::bytes::le64(rec, 0) == MAGIC {
        Some(
            (
                (
                    crate::bytes::le64(rec, 8),
                    crate::bytes::le64(rec, 24),
                    crate::bytes::le64(rec, 40),
                ),
                rec.subrange(48, 80),
                rec.subrange(80, 120),
            ),
        )
    } else {
        None
    }
}

/// Read one record back: its sequence number, tick and capability, with the
/// name and detail in the two buffers.
pub fn read(
    log: &Log,
    disk: &mut Disk,
    seq: u64,
    name_out: &mut [u8; 32],
    detail_out: &mut [u8; 40],
) -> (r: Option<(u64, u64, u64)>)
    requires
        log.start + seq / 4 <= u64::MAX,
    ensures
        final(disk)@ == old(disk)@.after_read(),
        match read_outcome(*log, old(disk)@, seq) {
            Some((head, name, detail)) => {
                &&& r == Some(head)
                &&& final(name_out)@ == name
                &&& final(detail_out)@ == detail
            },
            None => r is None && *final(name_out) == *old(name_out) && *final(detail_out) == *old(
                detail_out,
            ),
        },
{
    proof {
        disk.sectors_are_whole();
    }
    let ghost d = disk@;
    let mut buf: [u8; 512] = [0u8; 512];
    if disk.read_sector(log.start + seq / 4, &mut buf).is_err() {
        return None;
    }
    let slot: usize = (seq % 4) as usize;
    let rec = slice_subrange(&buf, slot * 128, slot * 128 + 128);
    assert(rec@ =~= record_at(d.sectors, log.start, seq as int));
    if get_u64(rec, 0) != MAGIC {
        return None;
    }
    let mut i: usize = 0;
    while i < 32
        invariant
            i <= 32,
            rec@.len() == 128,
            forall|k: int| 0 <= k < i ==> name_out@[k] == rec@[48 + k],
        decreases 32 - i,
    {
        name_out[i] = rec[48 + i];
        i = i + 1;
    }
    assert(name_out@ =~= rec@.subrange(48, 80));
    let mut j: usize = 0;
    while j < 40
        invariant
            j <= 40,
            rec@.len() == 128,
            forall|k: int| 0 <= k < j ==> detail_out@[k] == rec@[80 + k],
        decreases 40 - j,
    {
        detail_out[j] = rec[80 + j];
        j = j + 1;
    }
    assert(detail_out@ =~= rec@.subrange(80, 120));
    Some((get_u64(rec, 8), get_u64(rec, 24), get_u64(rec, 40)))
}

/// The text of a field, up to the first NUL.
pub fn as_str(bytes: &[u8]) -> (r: &str)
    ensures
        r@ == crate::fs::field_text(bytes@),
{
    text_in(bytes)
}

/// Records in the log.
pub fn len(log: &Log) -> (n: u64)
    ensures
        n == log.next_seq,
{
    log.next_seq
}

/// Records appended since the log was opened.
pub fn appended(log: &Log) -> (n: u64)
    ensures
        n == log.appended,
{
    log.appended
}

/// The offset inside a record that corrupting "byte `byte`" hits: never the
/// stored hash.
pub open spec fn corrupted_offset(byte: usize) -> int {
    if byte < 119 {
        byte as int
    } else {
        119
    }
}

/// Everything corrupting a record does.
pub open spec fn corrupt_outcome(log: Log, d: crate::blk::DiskView, seq: u64, byte: usize) -> (
    crate::blk::DiskView,
    Result<(), &'static str>,
) {
    let sector = (log.start + seq / 4) as u64;
    let at = 128 * (seq % 4) + corrupted_offset(byte);
    match d.read_result(sector) {
        Err(e) => (d.after_read(), Err(e)),
        Ok(b) => (
            d.after_read().after_write(sector, b.update(at, b[at] ^ 0xff)),
            d.after_read().write_result(sector),
        ),
    }
}

/// Corrupt one record on disk, to prove the chain notices.
pub fn corrupt_for_test(log: &Log, disk: &mut Disk, seq: u64, byte: usize) -> (r: Result<
    (),
    &'static str,
>)
    requires
        log.start + seq / 4 <= u64::MAX,
    ensures
        (final(disk)@, r) == corrupt_outcome(*log, old(disk)@, seq, byte),
{
    proof {
        disk.sectors_are_whole();
    }
    let sector: u64 = log.start + seq / 4;
    let mut buf: [u8; 512] = [0u8; 512];
    match disk.read_sector(sector, &mut buf) {
        Err(e) => {
            return Err(e);
        },
        Ok(_) => {},
    }
    let ghost before = buf@;
    let off: usize = if byte < 119 {
        byte
    } else {
        119
    };
    let at: usize = (seq % 4) as usize * 128 + off;
    buf[at] = buf[at] ^ 0xff;
    assert(buf@ =~= before.update(at as int, before[at as int] ^ 0xff));
    disk.write_sector(sector, &buf)
}

} // verus!
