//! What the action log promises as a whole.
use vstd::prelude::*;
use crate::bytes_laws::little;

verus! {

/// Multiplying by the FNV prime loses nothing: the prime is odd, so it has an
/// inverse modulo the word size.
proof fn lemma_prime_step_is_injective(a: u64, b: u64)
    requires
        a.wrapping_mul(crate::audit::FNV_PRIME) == b.wrapping_mul(crate::audit::FNV_PRIME),
    ensures
        a == b,
{
    let m: int = 0x1_0000_0000_0000_0000;
    let p: int = 1099511628211;
    let inv: int = 14886173955864302971;
    let k: int = 887285111055;
    let x = a as int * p;
    let y = b as int * p;
    assert(x % m == y % m);
    let t = x / m - y / m;
    assert(x == m * (x / m) + x % m);
    assert(y == m * (y / m) + y % m);
    let delta = a as int - b as int;
    assert(delta * p == m * t);
    assert(p * inv == 1 + k * m);
    assert(delta == m * (inv * t - k * delta));
    let q = inv * t - k * delta;
    assert(q == 0);
}

proof fn lemma_xor_is_injective(h: u64, g: u64, a: u8, b: u8)
    by (bit_vector)
    ensures
        a != b ==> (h ^ (a as u64)) != (h ^ (b as u64)),
        h != g ==> (h ^ (a as u64)) != (g ^ (a as u64)),
{
}

proof fn lemma_flip_changes(a: u8)
    by (bit_vector)
    ensures
        a ^ 0xffu8 != a,
{
}

proof fn lemma_hash_keeps_difference(h: u64, g: u64, data: Seq<u8>)
    requires
        h != g,
    ensures
        crate::audit::fnv(h, data) != crate::audit::fnv(g, data),
    decreases data.len(),
{
    if data.len() > 0 {
        lemma_hash_keeps_difference(h, g, data.drop_last());
        let x = crate::audit::fnv(h, data.drop_last());
        let y = crate::audit::fnv(g, data.drop_last());
        lemma_xor_is_injective(x, y, data.last(), data.last());
        if crate::audit::fnv(h, data) == crate::audit::fnv(g, data) {
            lemma_prime_step_is_injective(x ^ (data.last() as u64), y ^ (data.last() as u64));
        }
    }
}

/// Changing one byte always changes the hash.
pub proof fn one_byte_changes_the_hash(h: u64, data: Seq<u8>, at: int, v: u8)
    requires
        0 <= at < data.len(),
        data[at] != v,
    ensures
        crate::audit::fnv(h, data.update(at, v)) != crate::audit::fnv(h, data),
    decreases data.len(),
{
    let other = data.update(at, v);
    let x = crate::audit::fnv(h, data.drop_last());
    let y = crate::audit::fnv(h, other.drop_last());
    if at == data.len() - 1 {
        assert(other.drop_last() =~= data.drop_last());
        lemma_xor_is_injective(x, y, data.last(), v);
    } else {
        assert(other.drop_last() =~= data.drop_last().update(at, v));
        one_byte_changes_the_hash(h, data.drop_last(), at, v);
        lemma_xor_is_injective(x, y, data.last(), data.last());
        assert(other.last() == data.last());
    }
    if crate::audit::fnv(h, other) == crate::audit::fnv(h, data) {
        lemma_prime_step_is_injective(y ^ (other.last() as u64), x ^ (data.last() as u64));
    }
}

/// The fields of a record read back from its bytes.
pub proof fn record_reads_back(f: crate::audit::Fields)
    requires
        f.wf(),
    ensures
        ({
            let rec = crate::audit::record_bytes(f);
            &&& rec.len() == 128
            &&& rec.take(120) == crate::audit::record_body(f)
            &&& crate::bytes::le64(rec, 0) == crate::audit::MAGIC
            &&& crate::bytes::le64(rec, 8) == f.seq
            &&& crate::bytes::le64(rec, 16) == f.prev
            &&& crate::bytes::le64(rec, 24) == f.tick
            &&& rec.subrange(32, 40) == f.actor
            &&& crate::bytes::le64(rec, 40) == f.cap
            &&& rec.subrange(48, 80) == f.name
            &&& rec.subrange(80, 120) == f.detail
            &&& crate::bytes::le64(rec, 120) == crate::audit::body_hash(
                crate::audit::record_body(f),
                f.prev,
            )
        }),
{
    let rec = crate::audit::record_bytes(f);
    let h = crate::audit::body_hash(crate::audit::record_body(f), f.prev);
    assert(rec.take(120) =~= crate::audit::record_body(f));
    assert(rec.subrange(0, 8) =~= crate::bytes::le64_bytes(crate::audit::MAGIC));
    crate::bytes::le64_reads_back(rec, 0, crate::audit::MAGIC);
    assert(rec.subrange(8, 16) =~= crate::bytes::le64_bytes(f.seq));
    crate::bytes::le64_reads_back(rec, 8, f.seq);
    assert(rec.subrange(16, 24) =~= crate::bytes::le64_bytes(f.prev));
    crate::bytes::le64_reads_back(rec, 16, f.prev);
    assert(rec.subrange(24, 32) =~= crate::bytes::le64_bytes(f.tick));
    crate::bytes::le64_reads_back(rec, 24, f.tick);
    assert(rec.subrange(32, 40) =~= f.actor);
    assert(rec.subrange(40, 48) =~= crate::bytes::le64_bytes(f.cap));
    crate::bytes::le64_reads_back(rec, 40, f.cap);
    assert(rec.subrange(48, 80) =~= f.name);
    assert(rec.subrange(80, 120) =~= f.detail);
    assert(rec.subrange(120, 128) =~= crate::bytes::le64_bytes(h));
    crate::bytes::le64_reads_back(rec, 120, h);
}

/// A record says who acted: two actors that fit their field give different records, all
/// else being equal.
pub proof fn different_actors_leave_different_records(
    log: crate::audit::Log,
    now: u64,
    one: Seq<char>,
    two: Seq<char>,
    cap: u64,
    name: Seq<char>,
    detail: Seq<char>,
)
    requires
        one != two,
        crate::fs_laws::plain_name(one),
        crate::fs_laws::plain_name(two),
        vstd::utf8::encode_utf8(one).len() <= 8,
        vstd::utf8::encode_utf8(two).len() <= 8,
    ensures
        crate::audit::record_bytes(crate::audit::new_fields(log, now, one, cap, name, detail))
            != crate::audit::record_bytes(
            crate::audit::new_fields(log, now, two, cap, name, detail),
        ),
{
    let a = vstd::utf8::encode_utf8(one);
    let b = vstd::utf8::encode_utf8(two);
    let f = crate::audit::field(one, 8);
    let g = crate::audit::field(two, 8);
    if f == g {
        assert forall|i: int| 0 <= i < a.len() implies i < b.len() && #[trigger] a[i] == b[i] by {
            assert(f[i] == a[i] && g[i] != 0);
        }
        assert forall|i: int| 0 <= i < b.len() implies i < a.len() && #[trigger] b[i] == a[i] by {
            assert(g[i] == b[i] && f[i] != 0);
        }
        if a.len() > 0 {
            assert(a[a.len() - 1] == b[a.len() - 1]);
        }
        if b.len() > 0 {
            assert(b[b.len() - 1] == a[b.len() - 1]);
        }
        assert(a =~= b);
        vstd::utf8::encode_utf8_decode_utf8(one);
        vstd::utf8::encode_utf8_decode_utf8(two);
    }
    actors_are_told_apart_by_their_start(log, now, one, two, cap, name, detail);
}

/// Actors that differ in the first eight bytes leave different records, however long
/// they are.
pub proof fn actors_are_told_apart_by_their_start(
    log: crate::audit::Log,
    now: u64,
    one: Seq<char>,
    two: Seq<char>,
    cap: u64,
    name: Seq<char>,
    detail: Seq<char>,
)
    requires
        crate::audit::field(one, 8) != crate::audit::field(two, 8),
    ensures
        crate::audit::record_bytes(crate::audit::new_fields(log, now, one, cap, name, detail))
            != crate::audit::record_bytes(
            crate::audit::new_fields(log, now, two, cap, name, detail),
        ),
{
    lemma_records_fix_their_actor(
        crate::audit::new_fields(log, now, one, cap, name, detail),
        crate::audit::new_fields(log, now, two, cap, name, detail),
    );
}

proof fn lemma_records_fix_their_actor(f: crate::audit::Fields, g: crate::audit::Fields)
    requires
        f.wf(),
        g.wf(),
        f.actor != g.actor,
    ensures
        crate::audit::record_bytes(f) != crate::audit::record_bytes(g),
{
    let a = crate::audit::record_bytes(f).subrange(32, 40);
    let b = crate::audit::record_bytes(g).subrange(32, 40);
    assert(a == f.actor) by {
        record_reads_back(f);
    }
    assert(b == g.actor) by {
        record_reads_back(g);
    }
}

/// A log whose records, as the device holds them, form an unbroken chain that
/// ends where the log thinks it does.
pub open spec fn sound(log: crate::audit::Log, sectors: Seq<Seq<u8>>) -> bool {
    &&& log.wf()
    &&& log.ready
    &&& log.start + crate::audit::sectors_of(log.next_seq as int) <= sectors.len()
    &&& forall|i: int| 0 <= i < sectors.len() ==> (#[trigger] sectors[i]).len() == 512
    &&& forall|i: int|
        0 <= i < log.next_seq ==> #[trigger] crate::audit::record_good(sectors, log.start, i)
    &&& forall|i: int|
        0 <= i < log.next_seq ==> crate::bytes::le64(
            #[trigger] crate::audit::record_at(sectors, log.start, i),
            8,
        ) == i
    &&& log.last_hash == crate::audit::prev_hash(sectors, log.start, log.next_seq as int)
    &&& ended(log, sectors) || landed(log, sectors)
    &&& forall|i: int|
        log.next_seq < i < log.sectors * 4 && log.start + i / 4 < sectors.len() ==> blank(
            #[trigger] crate::audit::record_at(sectors, log.start, i),
        )
}

/// Not a record.
pub open spec fn blank(rec: Seq<u8>) -> bool {
    crate::bytes::le64(rec, 0) != crate::audit::MAGIC
}

/// Nothing follows the last record.
pub open spec fn ended(log: crate::audit::Log, sectors: Seq<Seq<u8>>) -> bool {
    let n = log.next_seq as int;
    n < log.sectors * 4 && log.start + n / 4 < sectors.len() ==> blank(
        crate::audit::record_at(sectors, log.start, n),
    )
}

/// One more record follows: it reached the device, but nobody was told.
pub open spec fn landed(log: crate::audit::Log, sectors: Seq<Seq<u8>>) -> bool {
    let n = log.next_seq as int;
    &&& n < log.sectors * 4
    &&& log.start + n / 4 < sectors.len()
    &&& crate::audit::record_good(sectors, log.start, n)
    &&& crate::bytes::le64(crate::audit::record_at(sectors, log.start, n), 8) == n
}

proof fn lemma_slot(sector: Seq<u8>, slot: int, rec: Seq<u8>, other: int)
    requires
        sector.len() == 512,
        rec.len() == 128,
        0 <= slot < 4,
        0 <= other < 4,
    ensures
        crate::audit::with_record(sector, slot, rec).len() == 512,
        crate::audit::with_record(sector, slot, rec).subrange(128 * other, 128 * other + 128)
            == if other == slot {
            rec
        } else {
            sector.subrange(128 * other, 128 * other + 128)
        },
{
    let s = crate::audit::with_record(sector, slot, rec);
    if other == slot {
        assert(s.subrange(128 * other, 128 * other + 128) =~= rec);
    } else {
        assert(s.subrange(128 * other, 128 * other + 128) =~= sector.subrange(
            128 * other,
            128 * other + 128,
        ));
    }
}

/// The device with record `n` of a log replaced by `rec`.
spec fn written(sectors: Seq<Seq<u8>>, start: u64, n: int, rec: Seq<u8>) -> Seq<Seq<u8>> {
    let at = start + n / 4;
    sectors.update(at, crate::audit::with_record(sectors[at], n % 4, rec))
}

proof fn lemma_written_records(sectors: Seq<Seq<u8>>, start: u64, n: int, rec: Seq<u8>)
    requires
        0 <= n,
        start + n / 4 < sectors.len(),
        sectors[start + n / 4].len() == 512,
        rec.len() == 128,
    ensures
        written(sectors, start, n, rec)[start + n / 4].len() == 512,
        crate::audit::record_at(written(sectors, start, n, rec), start, n) == rec,
        forall|i: int|
            0 <= i && i != n && start + i / 4 < sectors.len() ==> #[trigger] crate::audit::record_at(
                written(sectors, start, n, rec),
                start,
                i,
            ) == crate::audit::record_at(sectors, start, i),
{
    let at = start + n / 4;
    lemma_slot(sectors[at], n % 4, rec, n % 4);
    assert forall|i: int|
        0 <= i && i != n && start + i / 4 < sectors.len() implies #[trigger] crate::audit::record_at(
        written(sectors, start, n, rec),
        start,
        i,
    ) == crate::audit::record_at(sectors, start, i) by {
        if i / 4 == n / 4 {
            lemma_slot(sectors[at], n % 4, rec, i % 4);
        }
    }
}

proof fn lemma_good_depends_on_records(s: Seq<Seq<u8>>, t: Seq<Seq<u8>>, start: u64, i: int)
    requires
        crate::audit::record_at(t, start, i) == crate::audit::record_at(s, start, i),
        i > 0 ==> crate::audit::record_at(t, start, i - 1) == crate::audit::record_at(
            s,
            start,
            i - 1,
        ),
    ensures
        crate::audit::record_good(t, start, i) == crate::audit::record_good(s, start, i),
        crate::audit::prev_hash(t, start, i) == crate::audit::prev_hash(s, start, i),
{
}

proof fn lemma_written_is_sound(
    log: crate::audit::Log,
    sectors: Seq<Seq<u8>>,
    f: crate::audit::Fields,
)
    requires
        sound(log, sectors),
        f.seq == log.next_seq,
        f.prev == log.last_hash,
        f.wf(),
        log.next_seq < log.sectors * 4,
        log.start + log.next_seq / 4 < sectors.len(),
    ensures
        ({
            let t = written(
                sectors,
                log.start,
                log.next_seq as int,
                crate::audit::record_bytes(f),
            );
            sound(log, t)
        }),
{
    let n = log.next_seq as int;
    let rec = crate::audit::record_bytes(f);
    let t = written(sectors, log.start, n, rec);
    let start = log.start;
    assert(rec.len() == 128) by {
        record_reads_back(f);
    }
    lemma_written_records(sectors, start, n, rec);
    assert forall|i: int| 0 <= i < n implies #[trigger] crate::audit::record_good(t, start, i) by {
        assert(crate::audit::record_good(sectors, start, i));
        lemma_good_depends_on_records(sectors, t, start, i);
    }
    assert forall|i: int| 0 <= i < n implies crate::bytes::le64(
        #[trigger] crate::audit::record_at(t, start, i),
        8,
    ) == i by {
        assert(crate::bytes::le64(crate::audit::record_at(sectors, start, i), 8) == i);
    }
    assert(crate::audit::prev_hash(t, start, n) == crate::audit::prev_hash(sectors, start, n));
    lemma_new_record_is_good(log, t, f);
    assert(landed(log, t)) by {
        record_reads_back(f);
    }
    assert forall|i: int|
        n < i < log.sectors * 4 && start + i / 4 < t.len() implies blank(
        #[trigger] crate::audit::record_at(t, start, i),
    ) by {
        assert(blank(crate::audit::record_at(sectors, start, i)));
    }
}

proof fn lemma_new_record_is_good(
    log: crate::audit::Log,
    t: Seq<Seq<u8>>,
    f: crate::audit::Fields,
)
    requires
        f.prev == crate::audit::prev_hash(t, log.start, log.next_seq as int),
        f.wf(),
        crate::audit::record_at(t, log.start, log.next_seq as int) == crate::audit::record_bytes(
            f,
        ),
    ensures
        crate::audit::record_good(t, log.start, log.next_seq as int),
{
    record_reads_back(f);
}

/// Appending only ever extends the chain. Whatever becomes of the append —
/// refused, failed part way, landed without an answer, or done — every earlier
/// record is untouched and the log still verifies; and when it reports success,
/// the new record is the next link and nothing follows it.
pub proof fn append_extends_the_chain(
    log: crate::audit::Log,
    d: crate::blk::DiskView,
    f: crate::audit::Fields,
)
    requires
        sound(log, d.sectors),
        f.seq == log.next_seq,
        f.prev == log.last_hash,
        f.wf(),
    ensures
        ({
            let (log2, d2, r) = crate::audit::append_outcome(log, d, f);
            &&& sound(log2, d2.sectors)
            &&& forall|i: int|
                0 <= i < log.next_seq ==> #[trigger] crate::audit::record_at(
                    d2.sectors,
                    log.start,
                    i,
                ) == crate::audit::record_at(d.sectors, log.start, i)
            &&& r is Ok ==> log2.next_seq == log.next_seq + 1 && crate::audit::record_at(
                d2.sectors,
                log.start,
                log.next_seq as int,
            ) == crate::audit::record_bytes(f)
            &&& r is Ok ==> ended(log2, d2.sectors)
        }),
{
    let (log2, d2, r) = crate::audit::append_outcome(log, d, f);
    let n = log.next_seq as int;
    let at = log.start + n / 4;
    let rec = crate::audit::record_bytes(f);
    if n < log.sectors * 4 && at < d.sectors.len() {
        record_reads_back(f);
        lemma_written_records(d.sectors, log.start, n, rec);
        lemma_written_is_sound(log, d.sectors, f);
        let t = written(d.sectors, log.start, n, rec);
        assert(d2.sectors == d.sectors || d2.sectors == t);
        if r is Ok {
            assert(d2.sectors == t);
            lemma_new_record_is_good(log, t, f);
            lemma_grown_is_sound(log, t, f);
        }
    } else {
        assert(d2.sectors == d.sectors);
        assert(!(r is Ok));
    }
}

proof fn lemma_grown_is_sound(
    log: crate::audit::Log,
    t: Seq<Seq<u8>>,
    f: crate::audit::Fields,
)
    requires
        sound(log, t),
        f.seq == log.next_seq,
        f.prev == log.last_hash,
        f.wf(),
        log.next_seq < log.sectors * 4,
        log.start + log.next_seq / 4 < t.len(),
        crate::audit::record_at(t, log.start, log.next_seq as int) == crate::audit::record_bytes(
            f,
        ),
        crate::audit::record_good(t, log.start, log.next_seq as int),
    ensures
        sound(crate::audit::grown(log, f), t),
        ended(crate::audit::grown(log, f), t),
{
    record_reads_back(f);
    let g = crate::audit::grown(log, f);
    lemma_one_more(log, g, t);
}

/// A log that has grown by a good record with its number is sound.
proof fn lemma_one_more(log: crate::audit::Log, g: crate::audit::Log, t: Seq<Seq<u8>>)
    requires
        sound(log, t),
        g.start == log.start,
        g.sectors == log.sectors,
        g.ready,
        g.next_seq == log.next_seq + 1,
        log.next_seq < log.sectors * 4,
        log.start + log.next_seq / 4 < t.len(),
        crate::audit::record_good(t, log.start, log.next_seq as int),
        crate::bytes::le64(crate::audit::record_at(t, log.start, log.next_seq as int), 8)
            == log.next_seq,
        crate::bytes::le64(crate::audit::record_at(t, log.start, log.next_seq as int), 120)
            == g.last_hash,
    ensures
        sound(g, t),
        ended(g, t),
{
    let n = log.next_seq as int;
    assert(ended(g, t)) by {
        if n + 1 < log.sectors * 4 && log.start + (n + 1) / 4 < t.len() {
            assert(blank(crate::audit::record_at(t, log.start, n + 1)));
        }
    }
    assert forall|i: int|
        g.next_seq < i < g.sectors * 4 && g.start + i / 4 < t.len() implies blank(
        #[trigger] crate::audit::record_at(t, g.start, i),
    ) by {
        assert(blank(crate::audit::record_at(t, log.start, i)));
    }
    assert forall|i: int| 0 <= i < g.next_seq implies #[trigger] crate::audit::record_good(
        t,
        g.start,
        i,
    ) by {
        if i < n {
            assert(crate::audit::record_good(t, log.start, i));
        }
    }
    assert forall|i: int| 0 <= i < g.next_seq implies crate::bytes::le64(
        #[trigger] crate::audit::record_at(t, g.start, i),
        8,
    ) == i by {
        if i < n {
            assert(crate::bytes::le64(crate::audit::record_at(t, log.start, i), 8) == i);
        }
    }
    assert(crate::audit::prev_hash(t, g.start, n + 1) == g.last_hash);
}

/// A sound log on a device that answers verifies from end to end.
pub proof fn sound_log_verifies(log: crate::audit::Log, d: crate::blk::DiskView)
    requires
        sound(log, d.sectors),
        d.steady(),
    ensures
        crate::audit::chain_length(log, d) == log.next_seq,
{
    crate::audit::break_is_the_first_bad_record(
        d.sectors,
        log.start,
        log.next_seq as int,
        log.next_seq as int,
    );
}

/// Change any one byte of any one record of a sound log, and verification
/// reports exactly that record as the first that can no longer be trusted.
pub proof fn one_changed_byte_is_found(
    log: crate::audit::Log,
    d: crate::blk::DiskView,
    seq: u64,
    at: int,
    v: u8,
)
    requires
        sound(log, d.sectors),
        d.steady(),
        seq < log.next_seq,
        0 <= at < 128,
        v != crate::audit::record_at(d.sectors, log.start, seq as int)[at],
    ensures
        ({
            let k = log.start + seq / 4;
            let sector = d.sectors[k].update(128 * (seq % 4) + at, v);
            let d2 = crate::blk::DiskView { sectors: d.sectors.update(k, sector), ..d };
            crate::audit::chain_length(log, d2) == seq
        }),
{
    let k = log.start + seq / 4;
    let sector = d.sectors[k].update(128 * (seq % 4) + at, v);
    let d2 = crate::blk::DiskView { sectors: d.sectors.update(k, sector), ..d };
    let n = log.next_seq as int;
    let rec = crate::audit::record_at(d.sectors, log.start, seq as int);
    let bad = crate::audit::record_at(d2.sectors, log.start, seq as int);
    assert(bad =~= rec.update(at, v));
    assert forall|i: int| 0 <= i < seq implies #[trigger] crate::audit::record_at(
        d2.sectors,
        log.start,
        i,
    ) == crate::audit::record_at(d.sectors, log.start, i) by {
        if i / 4 == seq as int / 4 {
            assert(crate::audit::record_at(d2.sectors, log.start, i) =~= crate::audit::record_at(
                d.sectors,
                log.start,
                i,
            ));
        }
    }
    assert forall|i: int| 0 <= i < seq implies #[trigger] crate::audit::record_good(
        d2.sectors,
        log.start,
        i,
    ) by {
        assert(crate::audit::record_good(d.sectors, log.start, i));
        assert(crate::audit::record_at(d2.sectors, log.start, i) == crate::audit::record_at(
            d.sectors,
            log.start,
            i,
        ));
        if i > 0 {
            assert(crate::audit::record_at(d2.sectors, log.start, i - 1)
                == crate::audit::record_at(d.sectors, log.start, i - 1));
        }
    }
    assert(crate::audit::record_good(d.sectors, log.start, seq as int));
    let prev = crate::audit::prev_hash(d.sectors, log.start, seq as int);
    assert(prev == crate::audit::prev_hash(d2.sectors, log.start, seq as int)) by {
        if seq > 0 {
            assert(crate::audit::record_at(d2.sectors, log.start, seq - 1)
                == crate::audit::record_at(d.sectors, log.start, seq - 1));
        }
    }
    if at < 120 {
        assert(bad.take(120) =~= rec.take(120).update(at, v));
        one_byte_changes_the_hash(prev ^ crate::audit::FNV_OFFSET, rec.take(120), at, v);
    } else {
        assert(bad.take(120) =~= rec.take(120));
        lemma_stored_hash_differs(rec, at, v);
    }
    crate::audit::break_is_the_first_bad_record(d2.sectors, log.start, n, seq as int);
}

proof fn lemma_stored_hash_differs(rec: Seq<u8>, at: int, v: u8)
    requires
        rec.len() == 128,
        120 <= at < 128,
        rec[at] != v,
    ensures
        crate::bytes::le64(rec.update(at, v), 120) != crate::bytes::le64(rec, 120),
{
    let o = rec.update(at, v);
    lemma_bytes_of_word(
        rec[120], rec[121], rec[122], rec[123], rec[124], rec[125], rec[126], rec[127],
        o[120], o[121], o[122], o[123], o[124], o[125], o[126], o[127],
    );
}

proof fn lemma_bytes_of_word(
    a0: u8, a1: u8, a2: u8, a3: u8, a4: u8, a5: u8, a6: u8, a7: u8,
    b0: u8, b1: u8, b2: u8, b3: u8, b4: u8, b5: u8, b6: u8, b7: u8,
)
    by (bit_vector)
    ensures
        !(a0 == b0 && a1 == b1 && a2 == b2 && a3 == b3 && a4 == b4 && a5 == b5 && a6 == b6 && a7
            == b7) ==> ((((a0 as u32) | ((a1 as u32) << 8) | ((a2 as u32) << 16) | ((a3 as u32)
            << 24)) as u64) | ((((a4 as u32) | ((a5 as u32) << 8) | ((a6 as u32) << 16) | ((
        a7 as u32) << 24)) as u64) << 32)) != ((((b0 as u32) | ((b1 as u32) << 8) | ((b2 as u32)
            << 16) | ((b3 as u32) << 24)) as u64) | ((((b4 as u32) | ((b5 as u32) << 8) | ((
        b6 as u32) << 16) | ((b7 as u32) << 24)) as u64) << 32)),
{
}

/// The corruption that `corrupt_for_test` makes is always found, at the record
/// it was made in.
pub proof fn corruption_is_found(
    log: crate::audit::Log,
    d: crate::blk::DiskView,
    seq: u64,
    byte: usize,
)
    requires
        sound(log, d.sectors),
        d.steady(),
        seq < log.next_seq,
    ensures
        ({
            let k = log.start + seq / 4;
            let at = 128 * (seq % 4) + crate::audit::corrupted_offset(byte);
            let sector = d.sectors[k].update(at, d.sectors[k][at] ^ 0xff);
            let d2 = crate::blk::DiskView { sectors: d.sectors.update(k, sector), ..d };
            crate::audit::chain_length(log, d2) == seq
        }),
{
    let off = crate::audit::corrupted_offset(byte);
    let k = log.start + seq / 4;
    let old_byte = d.sectors[k][128 * (seq % 4) + off];
    lemma_flip_changes(old_byte);
    assert(crate::audit::record_at(d.sectors, log.start, seq as int)[off] == old_byte);
    one_changed_byte_is_found(log, d, seq, off, old_byte ^ 0xff);
}

proof fn lemma_scan_reaches(sectors: Seq<Seq<u8>>, start: u64, i: int, k: int, n: int)
    requires
        0 <= i <= k <= n,
        forall|j: int|
            i <= j < k ==> crate::bytes::le64(
                #[trigger] crate::audit::record_at(sectors, start, j),
                0,
            ) == crate::audit::MAGIC,
        k < n ==> crate::bytes::le64(crate::audit::record_at(sectors, start, k), 0)
            != crate::audit::MAGIC,
    ensures
        crate::audit::scan_end(sectors, start, i, n) == k,
    decreases k - i,
{
    if i < k {
        lemma_scan_reaches(sectors, start, i + 1, k, n);
    }
}

/// Opening the region again finds the log where it was left: same length, same
/// last hash. Where one more record had reached the device without anybody being
/// told, it is taken up, and the log is sound with it.
pub proof fn reopening_finds_the_end(log: crate::audit::Log, d: crate::blk::DiskView)
    requires
        sound(log, d.sectors),
        d.steady(),
        log.start + log.sectors <= d.sectors.len(),
    ensures
        ({
            let again = crate::audit::opened(log, d, log.start, log.sectors);
            &&& sound(again, d.sectors)
            &&& ended(again, d.sectors)
            &&& if ended(log, d.sectors) {
                again == log
            } else {
                again.next_seq == log.next_seq + 1
            }
        }),
{
    let n = log.next_seq as int;
    let again = crate::audit::opened(log, d, log.start, log.sectors);
    assert(d.readable(log.start, log.sectors as nat) == log.sectors);
    assert forall|j: int| 0 <= j < n implies crate::bytes::le64(
        #[trigger] crate::audit::record_at(d.sectors, log.start, j),
        0,
    ) == crate::audit::MAGIC by {
        assert(crate::audit::record_good(d.sectors, log.start, j));
    }
    if n > 0 {
        assert(crate::bytes::le64(crate::audit::record_at(d.sectors, log.start, n - 1), 8) == n - 1);
    }
    if ended(log, d.sectors) {
        lemma_scan_reaches(d.sectors, log.start, 0, n, 4 * log.sectors as int);
    } else {
        assert forall|j: int| 0 <= j < n + 1 implies crate::bytes::le64(
            #[trigger] crate::audit::record_at(d.sectors, log.start, j),
            0,
        ) == crate::audit::MAGIC by {
            if j == n {
                assert(crate::audit::record_good(d.sectors, log.start, j));
            }
        }
        if n + 1 < 4 * log.sectors {
            assert(blank(crate::audit::record_at(d.sectors, log.start, n + 1)));
        }
        lemma_scan_reaches(d.sectors, log.start, 0, n + 1, 4 * log.sectors as int);
        lemma_one_more(log, again, d.sectors);
    }
}

/// A region whose sectors are all blank holds a log with nothing in it.
pub proof fn a_blank_region_is_an_empty_log(
    log: crate::audit::Log,
    d: crate::blk::DiskView,
    start: u64,
    sectors: u64,
)
    requires
        d.wf(),
        d.steady(),
        start + sectors <= d.sectors.len(),
        d.sectors.len() <= u64::MAX,
        sectors * 4 <= u64::MAX,
        forall|i: int|
            start <= i < start + sectors ==> #[trigger] d.sectors[i] == crate::fs::zeros(512),
    ensures
        ({
            let new = crate::audit::opened(log, d, start, sectors);
            &&& new.next_seq == 0
            &&& sound(new, d.sectors)
            &&& ended(new, d.sectors)
        }),
{
    let new = crate::audit::opened(log, d, start, sectors);
    assert forall|i: int| 0 <= i < sectors * 4 implies blank(
        #[trigger] crate::audit::record_at(d.sectors, start, i),
    ) by {
        assert(d.sectors[start + i / 4] == crate::fs::zeros(512));
        let rec = crate::audit::record_at(d.sectors, start, i);
        assert(rec =~= crate::fs::zeros(128));
        crate::fs_laws::lemma_zero_word(rec, 0);
    }
    assert(d.readable(start, sectors as nat) == sectors);
    lemma_scan_reaches(d.sectors, start, 0, 0, 4 * sectors as int);
}

/// A device that has just been formatted has an empty log, whatever was on it before:
/// no record of a previous filesystem is taken into the new chain.
pub proof fn formatting_starts_an_empty_log(
    log: crate::audit::Log,
    d: crate::blk::DiskView,
    total: u64,
)
    requires
        d.wf(),
        total >= crate::fs::SPILL_SECTORS + crate::fs::AUDIT_SECTORS + crate::fs::LOG_START,
        total <= d.sectors.len() <= u64::MAX,
        d.steady(),
        d.after_writes(crate::fs::format_writes(total)).1 is Ok,
    ensures
        ({
            let d2 = d.after_writes(crate::fs::format_writes(total)).0;
            let at = (total - crate::fs::SPILL_SECTORS - crate::fs::AUDIT_SECTORS) as u64;
            let new = crate::audit::opened(log, d2, at, crate::fs::AUDIT_SECTORS);
            &&& new.next_seq == 0
            &&& sound(new, d2.sectors)
            &&& ended(new, d2.sectors)
        }),
{
    let d2 = d.after_writes(crate::fs::format_writes(total)).0;
    let at = (total - crate::fs::SPILL_SECTORS - crate::fs::AUDIT_SECTORS) as u64;
    crate::fs_laws::format_clears_the_action_log(d, total);
    crate::blk::a_run_is_journaled(d, crate::fs::format_writes(total));
    assert(d2.wf()) by {
        crate::fs_laws::formatting_writes_whole_sectors(d, total);
    }
    a_blank_region_is_an_empty_log(log, d2, at, crate::fs::AUDIT_SECTORS);
}

/// What was appended is what is read: as long as nobody has changed the record, and its
/// sector can be read, reading gives back the number, the tick and the capability, the
/// first bytes of the name and the first bytes of the detail, padded with zeros. Any name
/// and any detail will do.
pub proof fn a_record_reads_back(
    log: crate::audit::Log,
    d: crate::blk::DiskView,
    now: u64,
    actor: Seq<char>,
    cap: u64,
    name: Seq<char>,
    detail: Seq<char>,
    later: crate::blk::DiskView,
)
    requires
        log.wf(),
        d.wf(),
        ({
            let f = crate::audit::new_fields(log, now, actor, cap, name, detail);
            let (_, d2, r) = crate::audit::append_outcome(log, d, f);
            let n = log.next_seq as int;
            &&& r is Ok
            &&& later.read_result((log.start + n / 4) as u64) is Ok
            &&& crate::audit::record_at(later.sectors, log.start, n) == crate::audit::record_at(
                d2.sectors,
                log.start,
                n,
            )
        }),
    ensures
        ({
            let f = crate::audit::new_fields(log, now, actor, cap, name, detail);
            let (log2, _, r) = crate::audit::append_outcome(log, d, f);
            &&& r == Ok::<u64, &'static str>(log.next_seq)
            &&& crate::audit::read_outcome(log2, later, log.next_seq) == Some(
                (
                    (log.next_seq, now, cap),
                    crate::audit::field(name, 32),
                    crate::audit::field(detail, 40),
                ),
            )
        }),
{
    let f = crate::audit::new_fields(log, now, actor, cap, name, detail);
    let d2 = crate::audit::append_outcome(log, d, f).1;
    let n = log.next_seq as int;
    record_reads_back(f);
    lemma_written_records(d.sectors, log.start, n, crate::audit::record_bytes(f));
    assert(d2.sectors =~= written(d.sectors, log.start, n, crate::audit::record_bytes(f)));
}

/// Appending on a device that answers: a full log says so and nothing is written; any
/// other takes one more record, under the next number, and changes no record before it
/// and no other sector. A chain that verified still verifies, one record longer.
#[verifier::rlimit(30)]
pub proof fn appending_adds_one_record(
    log: crate::audit::Log,
    d: crate::blk::DiskView,
    f: crate::audit::Fields,
)
    requires
        log.wf(),
        log.ready,
        d.wf(),
        d.steady(),
        log.start + log.sectors <= d.sectors.len(),
        f.wf(),
        f.seq == log.next_seq,
        f.prev == log.last_hash,
        log.last_hash == crate::audit::prev_hash(d.sectors, log.start, log.next_seq as int),
    ensures
        ({
            let (log2, d2, r) = crate::audit::append_outcome(log, d, f);
            let n = log.next_seq;
            if n >= 4 * log.sectors {
                r == Err::<u64, &'static str>("audit log is full") && log2 == log && d2 == d
            } else {
                &&& r == Ok::<u64, &'static str>(n)
                &&& log2.next_seq == n + 1
                &&& log2.appended == log.appended.wrapping_add(1)
                &&& log2.start == log.start && log2.sectors == log.sectors
                &&& d2.sectors.len() == d.sectors.len()
                &&& forall|i: int|
                    0 <= i < d.sectors.len() && i != log.start + n / 4 ==> #[trigger] d2.sectors[i]
                        == d.sectors[i]
                &&& forall|i: int|
                    0 <= i < n ==> #[trigger] crate::audit::record_at(d2.sectors, log.start, i)
                        == crate::audit::record_at(d.sectors, log.start, i)
                &&& crate::audit::record_at(d2.sectors, log.start, n as int)
                    == crate::audit::record_bytes(f)
                &&& crate::audit::verdict(log, d).first_bad is None ==> crate::audit::verdict(
                    log2,
                    d2,
                ) == (crate::audit::Verified { records: (n + 1) as u64, first_bad: None })
                &&& log2.last_hash == crate::audit::prev_hash(d2.sectors, log.start, n + 1)
            }
        }),
{
    let (log2, d2, r) = crate::audit::append_outcome(log, d, f);
    let n = log.next_seq as int;
    let rec = crate::audit::record_bytes(f);
    if n < 4 * log.sectors {
        assert(rec.len() == 128 && crate::bytes::le64(rec, 120) == log2.last_hash) by {
            record_reads_back(f);
        }
        lemma_append_lands(log, d, f);
        assert(crate::audit::record_good(d2.sectors, log.start, n)) by {
            assert(crate::audit::prev_hash(d2.sectors, log.start, n) == crate::audit::prev_hash(
                d.sectors,
                log.start,
                n,
            ));
            lemma_new_record_is_good(log, d2.sectors, f);
        }
        if crate::audit::verdict(log, d).first_bad is None {
            lemma_longer_chain(log, d, log2, d2);
        }
    }
}

/// Where an append on a device that answers puts its record.
proof fn lemma_append_lands(
    log: crate::audit::Log,
    d: crate::blk::DiskView,
    f: crate::audit::Fields,
)
    requires
        log.wf(),
        log.ready,
        d.wf(),
        d.steady(),
        log.start + log.sectors <= d.sectors.len(),
        log.next_seq < 4 * log.sectors,
        crate::audit::record_bytes(f).len() == 128,
    ensures
        ({
            let (log2, d2, r) = crate::audit::append_outcome(log, d, f);
            let n = log.next_seq as int;
            &&& r == Ok::<u64, &'static str>(log.next_seq)
            &&& log2 == crate::audit::grown(log, f)
            &&& d2.steady()
            &&& d2.sectors.len() == d.sectors.len()
            &&& forall|i: int|
                0 <= i < d.sectors.len() && i != log.start + n / 4 ==> #[trigger] d2.sectors[i]
                    == d.sectors[i]
            &&& forall|i: int|
                0 <= i < n ==> #[trigger] crate::audit::record_at(d2.sectors, log.start, i)
                    == crate::audit::record_at(d.sectors, log.start, i)
            &&& crate::audit::record_at(d2.sectors, log.start, n) == crate::audit::record_bytes(f)
        }),
{
    let d2 = crate::audit::append_outcome(log, d, f).1;
    let n = log.next_seq as int;
    let rec = crate::audit::record_bytes(f);
    lemma_written_records(d.sectors, log.start, n, rec);
    assert(d2.sectors == written(d.sectors, log.start, n, rec));
    assert forall|i: int| 0 <= i < n implies #[trigger] crate::audit::record_at(
        d2.sectors,
        log.start,
        i,
    ) == crate::audit::record_at(d.sectors, log.start, i) by {
        assert(log.start + i / 4 < d.sectors.len());
    }
}

/// A chain that verified, with one more good record behind it, verifies.
proof fn lemma_longer_chain(
    log: crate::audit::Log,
    d: crate::blk::DiskView,
    log2: crate::audit::Log,
    d2: crate::blk::DiskView,
)
    requires
        log.wf(),
        d.steady(),
        d2.steady(),
        log.start + log.sectors <= d.sectors.len(),
        d2.sectors.len() == d.sectors.len(),
        log.next_seq < 4 * log.sectors,
        log2.start == log.start,
        log2.next_seq == log.next_seq + 1,
        crate::audit::chain_length(log, d) >= log.next_seq,
        forall|i: int|
            0 <= i < log.next_seq ==> #[trigger] crate::audit::record_at(d2.sectors, log.start, i)
                == crate::audit::record_at(d.sectors, log.start, i),
        crate::audit::record_good(d2.sectors, log.start, log.next_seq as int),
    ensures
        crate::audit::chain_length(log2, d2) == log.next_seq + 1,
{
    let n = log.next_seq as int;
    crate::audit::all_before_the_break_are_good(d.sectors, log.start, n);
    assert forall|i: int| 0 <= i < n + 1 implies #[trigger] crate::audit::record_good(
        d2.sectors,
        log.start,
        i,
    ) by {
        if i < n {
            assert(crate::audit::record_good(d.sectors, log.start, i));
            assert(crate::audit::record_at(d2.sectors, log.start, i) == crate::audit::record_at(
                d.sectors,
                log.start,
                i,
            ));
            if i > 0 {
                assert(crate::audit::record_at(d2.sectors, log.start, i - 1)
                    == crate::audit::record_at(d.sectors, log.start, i - 1));
            }
            lemma_good_depends_on_records(d.sectors, d2.sectors, log.start, i);
        }
    }
    crate::audit::break_is_the_first_bad_record(d2.sectors, log.start, n + 1, n + 1);
}

/// One thing to be recorded.
#[verifier::ext_equal]
pub struct Happening {
    pub tick: u64,
    pub actor: Seq<char>,
    pub cap: u64,
    pub name: Seq<char>,
    pub detail: Seq<char>,
}

/// A log, and the device, after the first `k` of these have been appended.
pub open spec fn filled(
    log: crate::audit::Log,
    d: crate::blk::DiskView,
    hs: Seq<Happening>,
    k: int,
) -> (crate::audit::Log, crate::blk::DiskView)
    decreases k,
{
    if k <= 0 {
        (log, d)
    } else {
        let (l, e) = filled(log, d, hs, k - 1);
        let h = hs[k - 1];
        let f = crate::audit::new_fields(l, h.tick, h.actor, h.cap, h.name, h.detail);
        let (l2, e2, _) = crate::audit::append_outcome(l, e, f);
        (l2, e2)
    }
}

/// Whether the append of the `k`th was answered.
pub open spec fn taken(
    log: crate::audit::Log,
    d: crate::blk::DiskView,
    hs: Seq<Happening>,
    k: int,
) -> bool {
    let (l, e) = filled(log, d, hs, k);
    let h = hs[k];
    let f = crate::audit::new_fields(l, h.tick, h.actor, h.cap, h.name, h.detail);
    crate::audit::append_outcome(l, e, f).2 is Ok
}

/// A log that began empty on a blank region, and into which everything was appended with
/// success, is sound and as long as what was appended.
pub proof fn a_log_filled_from_blank_is_sound(
    log: crate::audit::Log,
    d: crate::blk::DiskView,
    hs: Seq<Happening>,
    k: int,
)
    requires
        sound(log, d.sectors),
        ended(log, d.sectors),
        log.next_seq == 0,
        0 <= k <= hs.len(),
        forall|j: int| 0 <= j < k ==> #[trigger] taken(log, d, hs, j),
    ensures
        ({
            let (l, e) = filled(log, d, hs, k);
            &&& sound(l, e.sectors)
            &&& ended(l, e.sectors)
            &&& l.next_seq == k
            &&& l.start == log.start
            &&& d.steady() ==> e.steady()
        }),
    decreases k,
{
    if k > 0 {
        a_log_filled_from_blank_is_sound(log, d, hs, k - 1);
        assert(taken(log, d, hs, k - 1));
        let (l, e) = filled(log, d, hs, k - 1);
        let h = hs[k - 1];
        let f = crate::audit::new_fields(l, h.tick, h.actor, h.cap, h.name, h.detail);
        append_extends_the_chain(l, e, f);
    }
}

proof fn lemma_flip_twice(a: u8)
    by (bit_vector)
    ensures
        (a ^ 0xffu8) ^ 0xffu8 == a,
{
}

/// A log that verifies from end to end is reported broken exactly at a record that was
/// corrupted, wherever in it the damage is; corrupting the same byte again mends it.
pub proof fn corruption_is_found_and_mended(
    log: crate::audit::Log,
    d: crate::blk::DiskView,
    seq: u64,
    byte: usize,
)
    requires
        sound(log, d.sectors),
        d.steady(),
        seq < log.next_seq,
    ensures
        ({
            let (d2, r2) = crate::audit::corrupt_outcome(log, d, seq, byte);
            let (d3, r3) = crate::audit::corrupt_outcome(log, d2, seq, byte);
            let whole = crate::audit::Verified { records: log.next_seq, first_bad: None };
            &&& r2 is Ok && r3 is Ok
            &&& crate::audit::verdict(log, d) == whole
            &&& crate::audit::verdict(log, d2) == (crate::audit::Verified {
                records: seq,
                first_bad: Some(seq),
            })
            &&& crate::audit::verdict(log, d3) == whole
        }),
{
    let k = log.start + seq / 4;
    let at = 128 * (seq % 4) + crate::audit::corrupted_offset(byte);
    let (d2, r2) = crate::audit::corrupt_outcome(log, d, seq, byte);
    let (d3, r3) = crate::audit::corrupt_outcome(log, d2, seq, byte);
    let bad = d.sectors[k].update(at, d.sectors[k][at] ^ 0xff);
    lemma_flip_twice(d.sectors[k][at]);
    assert(d2.sectors == d.sectors.update(k, bad));
    assert(bad.update(at, bad[at] ^ 0xff) =~= d.sectors[k]);
    assert(d3.sectors =~= d.sectors);
    sound_log_verifies(log, d);
    sound_log_verifies(log, d3);
    corruption_is_found(log, d, seq, byte);
    let t = crate::blk::DiskView { sectors: d.sectors.update(k, bad), ..d };
    assert(crate::audit::chain_length(log, d2) == crate::audit::chain_length(log, t));
}

// ---- what is on the disk --------------------------------------------------------------------

/// Every byte goes into the hash, and each in the same way; a record's hash starts from that of
/// the record before it.
pub proof fn every_byte_goes_into_the_hash(h: u64, d: Seq<u8>, b: u8)
    ensures
        crate::audit::fnv(h, Seq::empty()) == h,
        crate::audit::fnv(h, d.push(b)) == ((crate::audit::fnv(h, d) ^ (b as u64))
            * 0x100_0000_01B3) % 0x1_0000_0000_0000_0000,
        crate::audit::body_hash(d, h) == crate::audit::fnv(h ^ 0xcbf2_9ce4_8422_2325, d),
{
    assert(d.push(b).drop_last() =~= d);
}

/// Where a record says what: its mark, its number, the hash of the record before it, the tick,
/// who acted, under which capability, what was done, to what, and the hash over all of that.
pub proof fn a_record_is_laid_out(f: crate::audit::Fields)
    requires
        f.wf(),
    ensures
        ({
            let r = crate::audit::record_bytes(f);
            &&& r.len() == 128
            &&& little(r.subrange(0, 8)) == 0x4A5F_4155_4449_5430
            &&& little(r.subrange(8, 16)) == f.seq
            &&& little(r.subrange(16, 24)) == f.prev
            &&& little(r.subrange(24, 32)) == f.tick
            &&& r.subrange(32, 40) == f.actor
            &&& little(r.subrange(40, 48)) == f.cap
            &&& r.subrange(48, 80) == f.name
            &&& r.subrange(80, 120) == f.detail
            &&& little(r.subrange(120, 128)) == crate::audit::fnv(
                f.prev ^ 0xcbf2_9ce4_8422_2325,
                r.subrange(0, 120),
            )
        }),
{
    let r = crate::audit::record_bytes(f);
    let body = crate::audit::record_body(f);
    let hash = crate::audit::body_hash(body, f.prev);
    crate::bytes_laws::bytes_say_their_integer(0, 0, crate::audit::MAGIC);
    crate::bytes_laws::bytes_say_their_integer(0, 0, f.seq);
    crate::bytes_laws::bytes_say_their_integer(0, 0, f.prev);
    crate::bytes_laws::bytes_say_their_integer(0, 0, f.tick);
    crate::bytes_laws::bytes_say_their_integer(0, 0, f.cap);
    crate::bytes_laws::bytes_say_their_integer(0, 0, hash);
    assert(body.len() == 120);
    assert(r.subrange(0, 120) =~= body);
    assert(r.subrange(0, 8) =~= crate::bytes::le64_bytes(crate::audit::MAGIC));
    assert(r.subrange(8, 16) =~= crate::bytes::le64_bytes(f.seq));
    assert(r.subrange(16, 24) =~= crate::bytes::le64_bytes(f.prev));
    assert(r.subrange(24, 32) =~= crate::bytes::le64_bytes(f.tick));
    assert(r.subrange(32, 40) =~= f.actor);
    assert(r.subrange(40, 48) =~= crate::bytes::le64_bytes(f.cap));
    assert(r.subrange(48, 80) =~= f.name);
    assert(r.subrange(80, 120) =~= f.detail);
    assert(r.subrange(120, 128) =~= crate::bytes::le64_bytes(hash));
}

/// A text field holds the text's first bytes in their order, and zeros behind them.
pub proof fn a_field_holds_the_start_of_its_text(text: Seq<char>, n: nat, i: int)
    requires
        0 <= i < n,
    ensures
        crate::audit::field(text, n).len() == n,
        crate::audit::field(text, n)[i] == ({
            let b = vstd::utf8::encode_utf8(text);
            if i < b.len() {
                b[i]
            } else {
                0
            }
        }),
{
}

/// Records stand one behind the other from the start of the region on, 128 bytes each.
pub proof fn records_stand_one_behind_the_other(
    sectors: Seq<Seq<u8>>,
    start: u64,
    seq: int,
    j: int,
)
    requires
        0 <= seq,
        0 <= j < 128,
        start + seq / 4 < sectors.len(),
        sectors[start + seq / 4].len() == 512,
    ensures
        crate::audit::record_at(sectors, start, seq).len() == 128,
        crate::audit::record_at(sectors, start, seq)[j] == sectors[start + (128 * seq + j)
            / 512][(128 * seq + j) % 512],
{
    assert((128 * seq + j) / 512 == seq / 4);
    assert((128 * seq + j) % 512 == 128 * (seq % 4) + j);
}

/// The end of a log is the first place without a mark: every place before it has one.
pub proof fn the_end_is_the_first_place_without_a_mark(
    sectors: Seq<Seq<u8>>,
    start: u64,
    i: int,
    n: int,
    k: int,
)
    requires
        0 <= i <= n,
        i <= k,
    ensures
        ({
            let end = crate::audit::scan_end(sectors, start, i, n);
            &&& i <= end <= n
            &&& k < end ==> crate::bytes::le64(crate::audit::record_at(sectors, start, k), 0)
                == 0x4A5F_4155_4449_5430
            &&& end < n ==> crate::bytes::le64(crate::audit::record_at(sectors, start, end), 0)
                != 0x4A5F_4155_4449_5430
        }),
    decreases n - i,
{
    if i < n && crate::bytes::le64(crate::audit::record_at(sectors, start, i), 0)
        == crate::audit::MAGIC {
        the_end_is_the_first_place_without_a_mark(
            sectors,
            start,
            i + 1,
            n,
            if k > i {
                k
            } else {
                i + 1
            },
        );
    }
}

/// A record stands if and only if it has its mark, names the hash that the record before it
/// carries — the first names none — and carries the hash of its own bytes from there.
pub proof fn a_record_stands_on_the_one_before(sectors: Seq<Seq<u8>>, start: u64, seq: int)
    requires
        0 <= seq,
        crate::audit::record_at(sectors, start, seq).len() == 128,
        seq > 0 ==> crate::audit::record_at(sectors, start, seq - 1).len() == 128,
    ensures
        crate::audit::record_good(sectors, start, seq) <==> ({
            let r = crate::audit::record_at(sectors, start, seq);
            let before = if seq == 0 {
                0
            } else {
                little(crate::audit::record_at(sectors, start, seq - 1).subrange(120, 128))
            };
            &&& little(r.subrange(0, 8)) == 0x4A5F_4155_4449_5430
            &&& little(r.subrange(16, 24)) == before
            &&& little(r.subrange(120, 128)) == crate::audit::fnv(
                before as u64 ^ 0xcbf2_9ce4_8422_2325,
                r.subrange(0, 120),
            )
        }),
{
    let r = crate::audit::record_at(sectors, start, seq);
    crate::bytes_laws::integers_are_what_their_bytes_say(r, 0);
    crate::bytes_laws::integers_are_what_their_bytes_say(r, 16);
    crate::bytes_laws::integers_are_what_their_bytes_say(r, 120);
    assert(r.take(120) =~= r.subrange(0, 120));
    if seq > 0 {
        let p = crate::audit::record_at(sectors, start, seq - 1);
        crate::bytes_laws::integers_are_what_their_bytes_say(p, 120);
    }
}

/// A walk of the chain stops at the first record that does not stand: every one before it does.
pub proof fn a_walk_stops_at_the_first_broken_link(
    sectors: Seq<Seq<u8>>,
    start: u64,
    i: int,
    n: int,
    k: int,
)
    requires
        0 <= i <= n,
        i <= k,
    ensures
        ({
            let end = crate::audit::first_break(sectors, start, i, n);
            &&& i <= end <= n
            &&& k < end ==> crate::audit::record_good(sectors, start, k)
            &&& end < n ==> !crate::audit::record_good(sectors, start, end)
        }),
    decreases n - i,
{
    if i < n && crate::audit::record_good(sectors, start, i) {
        a_walk_stops_at_the_first_broken_link(
            sectors,
            start,
            i + 1,
            n,
            if k > i {
                k
            } else {
                i + 1
            },
        );
    }
}

} // verus!
