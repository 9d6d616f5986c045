//! What the filesystem promises as a whole.
use vstd::prelude::*;
use crate::fs::Written;

verus! {

/// No byte of the encoded name is zero, so a padded name field reads back whole.
pub open spec fn plain_name(name: Seq<char>) -> bool {
    forall|i: int|
        0 <= i < vstd::utf8::encode_utf8(name).len() ==> #[trigger] vstd::utf8::encode_utf8(name)[i]
            != 0
}

proof fn lemma_first_nul(b: Seq<u8>, pad: nat, i: int)
    requires
        0 <= i <= b.len(),
        forall|k: int| 0 <= k < b.len() ==> #[trigger] b[k] != 0,
    ensures
        crate::fs::first_nul(b + crate::fs::zeros(pad as int), i) == b.len(),
    decreases b.len() - i,
{
    let f = b + crate::fs::zeros(pad as int);
    if i < b.len() {
        assert(f[i] == b[i]);
        lemma_first_nul(b, pad, i + 1);
    } else if pad > 0 {
        assert(f[i] == 0);
    }
}

/// A plain name that fits the field is read back from it.
pub proof fn name_field_reads_back(name: Seq<char>)
    requires
        plain_name(name),
        vstd::utf8::encode_utf8(name).len() <= 28,
    ensures
        crate::fs::name_field(name).len() == 28,
        crate::fs::field_text(crate::fs::name_field(name)) == name,
{
    let b = vstd::utf8::encode_utf8(name);
    let f = crate::fs::name_field(name);
    lemma_first_nul(b, (28 - b.len()) as nat, 0);
    assert(f.take(b.len() as int) =~= b);
    vstd::utf8::encode_utf8_valid_utf8(name);
    vstd::utf8::encode_utf8_decode_utf8(name);
}

/// The root depends on the first three sectors alone.
pub proof fn root_is_in_the_first_sectors(s: Seq<Seq<u8>>, t: Seq<Seq<u8>>)
    requires
        s.len() == t.len(),
        forall|i: int| 0 <= i < 3 && i < s.len() ==> #[trigger] s[i] == t[i],
    ensures
        crate::fs::root(s) == crate::fs::root(t),
{
    if s.len() > 0 {
        assert(s[0] == t[0]);
    }
    if s.len() > 1 {
        assert(s[1] == t[1]);
    }
    if s.len() > 2 {
        assert(s[2] == t[2]);
    }
}

pub(crate) proof fn lemma_data_writes_stay_in_the_log(
    d: crate::blk::DiskView,
    start: u64,
    data: Seq<u8>,
    n: int,
)
    requires
        start >= 3,
        start + crate::fs::sectors_for(data.len() as int) <= u64::MAX,
        0 <= n <= crate::fs::sectors_for(data.len() as int),
    ensures
        ({
            let d1 = d.after_writes(crate::fs::data_writes(start, data).take(n)).0;
            &&& d1.sectors.len() == d.sectors.len()
            &&& forall|i: int|
                0 <= i < start && i < d.sectors.len() ==> #[trigger] d1.sectors[i] == d.sectors[i]
            &&& crate::fs::root(d1.sectors) == crate::fs::root(d.sectors)
        }),
{
    let ws = crate::fs::data_writes(start, data).take(n);
    let d1 = d.after_writes(ws).0;
    crate::blk::writes_touch_only_their_sectors(d, ws);
    assert forall|i: int| 0 <= i < start && i < d.sectors.len() implies #[trigger] d1.sectors[i]
        == d.sectors[i] by {
        assert forall|k: int| 0 <= k < ws.len() implies (#[trigger] ws[k]).0 != i by {
            assert(ws[k].0 == (start + k) as u64);
        }
    }
    root_is_in_the_first_sectors(d.sectors, d1.sectors);
}

/// Data whose writes all succeeded is on the disk.
pub proof fn written_data_is_on_the_disk(d: crate::blk::DiskView, start: u64, data: Seq<u8>, n: int)
    requires
        start + crate::fs::sectors_for(data.len() as int) <= u64::MAX,
        0 <= n <= crate::fs::sectors_for(data.len() as int),
        d.after_writes(crate::fs::data_writes(start, data).take(n)).1 is Ok,
    ensures
        ({
            let d1 = d.after_writes(crate::fs::data_writes(start, data).take(n)).0;
            &&& n > 0 ==> start + n <= d1.sectors.len()
            &&& forall|s: int|
                0 <= s < n ==> #[trigger] d1.sectors[start + s] == crate::fs::sector_of(data, s)
        }),
    decreases n,
{
    let all = crate::fs::data_writes(start, data);
    if n > 0 {
        let ws = all.take(n);
        assert(ws.drop_last() =~= all.take(n - 1));
        written_data_is_on_the_disk(d, start, data, n - 1);
        let d0 = d.after_writes(all.take(n - 1)).0;
        let d1 = d.after_writes(ws).0;
        assert(ws.last() == ((start + (n - 1)) as u64, crate::fs::sector_of(data, n - 1)));
        assert forall|s: int| 0 <= s < n implies #[trigger] d1.sectors[start + s]
            == crate::fs::sector_of(data, s) by {
            if s < n - 1 {
                assert(d0.sectors[start + s] == crate::fs::sector_of(data, s));
            }
        }
    }
}

/// A commit that goes unanswered leaves the old root or the new one; a commit
/// that is answered leaves the new one.
pub proof fn commit_is_atomic(
    fs: crate::fs::FsView,
    d: crate::blk::DiskView,
    next: crate::fs::FsView,
)
    requires
        fs.wf(),
        next.cp.wf(),
        crate::fs::root(d.sectors) == Ok::<crate::fs::FsView, &'static str>(fs),
        next == (crate::fs::FsView { cp: next.cp, slot: 1 - fs.slot, ..fs }),
        next.cp.seq > fs.cp.seq,
    ensures
        ({
            let (fs2, d2, r) = fs.commit(d, next);
            &&& d2.sectors.len() == d.sectors.len()
            &&& forall|i: int|
                3 <= i < d.sectors.len() ==> #[trigger] d2.sectors[i] == d.sectors[i]
            &&& crate::fs::root(d2.sectors) == Ok::<crate::fs::FsView, &'static str>(fs)
                || crate::fs::root(d2.sectors) == Ok::<crate::fs::FsView, &'static str>(next)
            &&& r is Ok ==> crate::fs::root(d2.sectors) == Ok::<crate::fs::FsView, &'static str>(
                next,
            )
        }),
{
    let (fs2, d2, r) = fs.commit(d, next);
    let sector = crate::fs::slot_sector(1 - fs.slot);
    let raw = crate::fs::checkpoint_sector(next.cp);
    assert(d.sectors.len() >= 3);
    lemma_newer_slot_wins(fs, d.sectors, next);
    assert(d2.sectors == d.sectors || d2.sectors == d.sectors.update(sector as int, raw));
}

/// A newer checkpoint in the slot that the live root is not in becomes the root.
#[verifier::rlimit(30)]
proof fn lemma_newer_slot_wins(
    fs: crate::fs::FsView,
    sectors: Seq<Seq<u8>>,
    next: crate::fs::FsView,
)
    requires
        fs.wf(),
        next.cp.wf(),
        crate::fs::root(sectors) == Ok::<crate::fs::FsView, &'static str>(fs),
        next == (crate::fs::FsView { cp: next.cp, slot: 1 - fs.slot, ..fs }),
        next.cp.seq > fs.cp.seq,
    ensures
        sectors.len() >= 3,
        crate::fs::root(
            sectors.update(
                crate::fs::slot_sector(1 - fs.slot) as int,
                crate::fs::checkpoint_sector(next.cp),
            ),
        ) == Ok::<crate::fs::FsView, &'static str>(next),
{
    let raw = crate::fs::checkpoint_sector(next.cp);
    crate::fs::checkpoint_round_trip(next.cp);
    lemma_root_of_sectors(sectors);
    let at = crate::fs::slot_sector(1 - fs.slot) as int;
    let t = sectors.update(at, raw);
    lemma_root_of_sectors(t);
    assert(t[0] == sectors[0]);
    if fs.slot == 0 {
        assert(at == 2);
        assert(t[1] == sectors[1] && t[2] == raw);
    } else {
        assert(at == 1);
        assert(t[2] == sectors[2] && t[1] == raw);
    }
}

/// The root is what the superblock and the two slots describe.
proof fn lemma_root_of_sectors(sectors: Seq<Seq<u8>>)
    ensures
        crate::fs::root(sectors) is Ok ==> sectors.len() >= 3,
        sectors.len() >= 3 ==> crate::fs::root(sectors) == (match crate::fs::superblock_error(
            sectors[0],
        ) {
            Some(e) => Err::<crate::fs::FsView, &'static str>(e),
            None => crate::fs::root_of(sectors[0], sectors[1], sectors[2]),
        }),
{
}

proof fn lemma_bit_injective(a: u32, b: u32)
    requires
        a != b,
    ensures
        crate::fs::crc_bit(a) != crate::fs::crc_bit(b),
{
    assert(a != b ==> (if a & 1 == 1 {
        (a >> 1) ^ 0xEDB8_8320u32
    } else {
        a >> 1
    }) != (if b & 1 == 1 {
        (b >> 1) ^ 0xEDB8_8320u32
    } else {
        b >> 1
    })) by (bit_vector);
}

proof fn lemma_bits_injective(a: u32, b: u32, n: nat)
    requires
        a != b,
    ensures
        crate::fs::crc_bits(a, n) != crate::fs::crc_bits(b, n),
    decreases n,
{
    if n > 0 {
        lemma_bits_injective(a, b, (n - 1) as nat);
        lemma_bit_injective(
            crate::fs::crc_bits(a, (n - 1) as nat),
            crate::fs::crc_bits(b, (n - 1) as nat),
        );
    }
}

proof fn lemma_register_tells(s: Seq<u8>, at: int, v: u8)
    requires
        0 <= at < s.len(),
        s[at] != v,
    ensures
        crate::fs::crc_register(s.update(at, v)) != crate::fs::crc_register(s),
    decreases s.len(),
{
    let t = s.update(at, v);
    let before = crate::fs::crc_register(s.drop_last());
    let other = crate::fs::crc_register(t.drop_last());
    let x = s.last();
    let y = t.last();
    if at == s.len() - 1 {
        assert(t.drop_last() =~= s.drop_last());
        assert(x != y ==> before ^ (x as u32) != before ^ (y as u32)) by (bit_vector);
    } else {
        assert(t.drop_last() =~= s.drop_last().update(at, v));
        lemma_register_tells(s.drop_last(), at, v);
        assert(before != other ==> before ^ (x as u32) != other ^ (x as u32)) by (bit_vector);
    }
    lemma_bits_injective(before ^ (x as u32), other ^ (y as u32), 8);
}

proof fn lemma_le32_tells(a: u8, b: u8, c: u8, d: u8, e: u8, f: u8, g: u8, h: u8)
    by (bit_vector)
    requires
        (a as u32) | ((b as u32) << 8) | ((c as u32) << 16) | ((d as u32) << 24) == (e as u32) | ((
        f as u32) << 8) | ((g as u32) << 16) | ((h as u32) << 24),
    ensures
        a == e && b == f && c == g && d == h,
{
}

/// A change of any one byte of an intact sector shows: it is intact no longer,
/// whether the byte was covered by the CRC or part of it.
pub proof fn one_changed_byte_is_noticed(raw: Seq<u8>, at: int, v: u8)
    requires
        raw.len() == 512,
        crate::fs::is_intact(raw),
        0 <= at < 512,
        raw[at] != v,
    ensures
        !crate::fs::is_intact(raw.update(at, v)),
{
    let t = raw.update(at, v);
    if at < 508 {
        assert(t.take(508) =~= raw.take(508).update(at, v));
        lemma_register_tells(raw.take(508), at, v);
        let a = crate::fs::crc_register(raw.take(508));
        let b = crate::fs::crc_register(t.take(508));
        assert(a != b ==> !a != !b) by (bit_vector);
    } else {
        assert(t.take(508) =~= raw.take(508));
        if crate::bytes::le32(raw, 508) == crate::bytes::le32(t, 508) {
            lemma_le32_tells(
                raw[508],
                raw[509],
                raw[510],
                raw[511],
                t[508],
                t[509],
                t[510],
                t[511],
            );
            assert(t[at] == v);
        }
    }
}

/// A checkpoint with any one byte changed is not a checkpoint.
pub proof fn a_damaged_checkpoint_is_rejected(raw: Seq<u8>, at: int, v: u8)
    requires
        raw.len() == 512,
        crate::fs::decoded(raw) is Some,
        0 <= at < 512,
        raw[at] != v,
    ensures
        crate::fs::decoded(raw.update(at, v)) is None,
{
    one_changed_byte_is_noticed(raw, at, v);
}

/// With one byte of the newer root damaged, what is mounted is the older one.
pub proof fn a_damaged_root_falls_back(
    sectors: Seq<Seq<u8>>,
    newer: crate::fs::FsView,
    older: crate::fs::CheckpointView,
    at: int,
    v: u8,
)
    requires
        crate::fs::root(sectors) == Ok::<crate::fs::FsView, &'static str>(newer),
        0 <= newer.slot <= 1,
        crate::fs::decoded(sectors[crate::fs::slot_sector(1 - newer.slot) as int]) == Some(older),
        sectors[crate::fs::slot_sector(newer.slot) as int].len() == 512,
        0 <= at < 512,
        sectors[crate::fs::slot_sector(newer.slot) as int][at] != v,
    ensures
        ({
            let i = crate::fs::slot_sector(newer.slot) as int;
            crate::fs::root(sectors.update(i, sectors[i].update(at, v))) == Ok::<
                crate::fs::FsView,
                &'static str,
            >(crate::fs::FsView { cp: older, slot: 1 - newer.slot, ..newer })
        }),
{
    let i = crate::fs::slot_sector(newer.slot) as int;
    assert(sectors.len() >= 3);
    a_damaged_checkpoint_is_rejected(sectors[i], at, v);
}

/// What a torn commit leaves in the other slot is ignored, and the root stays,
/// wherever the bytes are not a checkpoint.
pub proof fn torn_commit_is_ignored(
    fs: crate::fs::FsView,
    sectors: Seq<Seq<u8>>,
    torn: Seq<u8>,
)
    requires
        fs.wf(),
        crate::fs::root(sectors) == Ok::<crate::fs::FsView, &'static str>(fs),
        crate::fs::decoded(torn) is None,
    ensures
        crate::fs::root(
            sectors.update(crate::fs::slot_sector(1 - fs.slot) as int, torn),
        ) == Ok::<crate::fs::FsView, &'static str>(fs),
{
    assert(sectors.len() >= 3);
}

/// The filesystem as the device holds it, with its log past the fixed sectors
/// and room in the counters for one more commit.
pub open spec fn settled(fs: crate::fs::FsView, d: crate::blk::DiskView) -> bool {
    &&& fs.wf()
    &&& fs.cp.log_head >= crate::fs::LOG_START
    &&& fs.cp.seq < u64::MAX
    &&& crate::fs::root(d.sectors) == Ok::<crate::fs::FsView, &'static str>(fs)
}

pub(crate) proof fn lemma_written_wf(fs: crate::fs::FsView, name: Seq<char>, data: Seq<u8>)
    requires
        fs.wf(),
        !fs.no_room_for(name),
        vstd::utf8::encode_utf8(name).len() <= 28,
    ensures
        fs.with_written(name, data).cp.wf(),
{
    crate::fs::find_from_finds_the_first(fs.cp.files, name, 0);
    let e = fs.new_entry(name, data);
    assert(e.name.len() == 28);
    let files = fs.with_written(name, data).cp.files;
    assert forall|i: int| 0 <= i < files.len() implies (#[trigger] files[i]).name.len() == 28 by {
        if i < fs.cp.files.len() {
            assert(fs.cp.files[i].name.len() == 28);
        }
    }
}

/// Wherever a write is interrupted — a power cut between any two sectors, or a
/// driver that stops answering, with or without the last write landing —
/// mounting afterwards gives the filesystem from before the write or the one
/// after it, and never anything else. A write that reported success is there; a
/// write stopped before its checkpoint has left no trace.
pub proof fn crash_leaves_old_or_new(
    fs: crate::fs::FsView,
    d: crate::blk::DiskView,
    name: Seq<char>,
    data: Seq<u8>,
    crash_after: Option<u32>,
)
    requires
        settled(fs, d),
        fs.cp.log_head + crate::fs::sectors_for(data.len() as int) <= u64::MAX,
    ensures
        ({
            let (fs2, d2, r) = fs.write_outcome(d, name, data, crash_after);
            let seen = crate::fs::root(d2.sectors);
            &&& seen == Ok::<crate::fs::FsView, &'static str>(fs) || seen == Ok::<
                crate::fs::FsView,
                &'static str,
            >(fs.with_written(name, data))
            &&& r == Ok::<Written, &'static str>(Written::Committed) ==> fs2 == fs.with_written(
                name,
                data,
            ) && seen == Ok::<crate::fs::FsView, &'static str>(fs2)
            &&& r matches Ok(w) ==> w != Written::Committed ==> seen == Ok::<
                crate::fs::FsView,
                &'static str,
            >(fs)
            &&& d2.sectors.len() == d.sectors.len()
            &&& forall|i: int|
                3 <= i < fs.cp.log_head && i < d.sectors.len() ==> #[trigger] d2.sectors[i]
                    == d.sectors[i]
        }),
{
    let writes = crate::fs::data_writes(fs.cp.log_head, data);
    let n = writes.len() as int;
    assert(writes.take(n) =~= writes);
    if fs.write_refused(name, data) is None {
        match crash_after {
            Some(c) if c <= writes.len() => {
                lemma_data_writes_stay_in_the_log(d, fs.cp.log_head, data, c as int);
            },
            _ => {
                lemma_data_writes_stay_in_the_log(d, fs.cp.log_head, data, n);
                let d1 = d.after_writes(writes).0;
                if d.after_writes(writes).1 is Ok && !fs.no_room_for(name) {
                    lemma_written_wf(fs, name, data);
                    commit_is_atomic(fs, d1, fs.with_written(name, data));
                }
            },
        }
    }
}

/// The writes of a committed write of `data` as `name`, in order: the data, and only
/// afterwards the checkpoint.
pub open spec fn committing_writes(fs: crate::fs::FsView, name: Seq<char>, data: Seq<u8>) -> Seq<
    (u64, Seq<u8>),
> {
    crate::fs::data_writes(fs.cp.log_head, data).push(
        (
            crate::fs::slot_sector(1 - fs.slot),
            crate::fs::checkpoint_sector(fs.with_written(name, data).cp),
        ),
    )
}

/// The order in which a write reaches the device is what makes it safe: carry out any
/// number of the writes that a committed write made, stop, and mount — it is the
/// filesystem from before the write or the one after it, and the one after it exactly
/// when all of them were carried out.
pub proof fn carrying_part_of_a_write_leaves_old_or_new(
    fs: crate::fs::FsView,
    d: crate::blk::DiskView,
    name: Seq<char>,
    data: Seq<u8>,
    k: u64,
)
    requires
        settled(fs, d),
        fs.cp.log_head + crate::fs::sectors_for(data.len() as int) <= u64::MAX,
        d.steady(),
        fs.write_outcome(d, name, data, None).2 == Ok::<Written, &'static str>(Written::Committed),
        k <= committing_writes(fs, name, data).len(),
    ensures
        ({
            let ws = committing_writes(fs, name, data);
            let d2 = fs.write_outcome(d, name, data, None).1;
            let seen = crate::fs::root(crate::blk::replayed(d.sectors, ws.take(k as int)));
            &&& d2.journal == d.journal + ws
            &&& d2.sectors == crate::blk::replayed(d.sectors, ws)
            &&& seen == Ok::<crate::fs::FsView, &'static str>(fs) || seen == Ok::<
                crate::fs::FsView,
                &'static str,
            >(fs.with_written(name, data))
            &&& k == ws.len() ==> seen == Ok::<crate::fs::FsView, &'static str>(
                fs.with_written(name, data),
            )
            &&& k < ws.len() ==> seen == Ok::<crate::fs::FsView, &'static str>(fs)
        }),
{
    let ws = committing_writes(fs, name, data);
    let data_ws = crate::fs::data_writes(fs.cp.log_head, data);
    let d1 = d.after_writes(data_ws).0;
    let (fs2, d2, r) = fs.write_outcome(d, name, data, None);
    assert(ws.drop_last() =~= data_ws);
    assert(d.after_writes(ws) == (d2, Ok::<(), &'static str>(())));
    crate::blk::a_run_is_journaled(d, ws);
    crash_leaves_old_or_new(fs, d, name, data, None);
    if k == ws.len() {
        assert(ws.take(k as int) =~= ws);
    } else {
        assert(ws.take(k as int) =~= data_ws.take(k as int));
        assert forall|i: int| 0 <= i < data_ws.len() implies (#[trigger] data_ws[i]).0
            < d.sectors.len() by {
            assert(ws[i] == data_ws[i]);
        }
        crate::blk::a_cut_run_is_a_prefix(d, data_ws, k as nat);
        let c = crate::blk::DiskView { fates: crate::blk::cut_after(k as nat), ..d };
        lemma_data_writes_stay_in_the_log(c, fs.cp.log_head, data, data_ws.len() as int);
        assert(data_ws.take(data_ws.len() as int) =~= data_ws);
    }
}

/// A file that was written reads back: its entry is found under its name and
/// stands for exactly the bytes that were written, all of which can be read.
pub proof fn write_then_read(
    fs: crate::fs::FsView,
    d: crate::blk::DiskView,
    name: Seq<char>,
    data: Seq<u8>,
)
    requires
        settled(fs, d),
        fs.cp.log_head + crate::fs::sectors_for(data.len() as int) <= u64::MAX,
        data.len() <= u32::MAX,
        plain_name(name),
        fs.write_outcome(d, name, data, None).2 == Ok::<Written, &'static str>(Written::Committed),
    ensures
        ({
            let (fs2, d2, r) = fs.write_outcome(d, name, data, None);
            let e = fs.new_entry(name, data);
            &&& fs2.read_target(name, data.len()) == Ok::<crate::fs::EntryView, &'static str>(e)
            &&& crate::fs::contents(d2.sectors, e) == data
            &&& d2.steady() ==> d2.after_reads(
                e.start,
                crate::fs::reads_needed(e.size, e.sectors),
            ).1 is Ok
        }),
{
    let n = crate::fs::sectors_for(data.len() as int);
    let (fs2, d2, r) = fs.write_outcome(d, name, data, None);
    lemma_written_is_found(fs, name, data);
    lemma_committed_data(fs, d, name, data);
    lemma_extent_holds(d2.sectors, fs.new_entry(name, data), data);
    if d2.steady() && n > 0 {
        crate::blk::answered_reads(d2, fs.cp.log_head, n as nat);
    }
}

/// A file just written is found under its name.
pub(crate) proof fn lemma_written_is_found(fs: crate::fs::FsView, name: Seq<char>, data: Seq<u8>)
    requires
        fs.wf(),
        plain_name(name),
        vstd::utf8::encode_utf8(name).len() <= 28,
        data.len() <= u32::MAX,
    ensures
        fs.with_written(name, data).read_target(name, data.len()) == Ok::<
            crate::fs::EntryView,
            &'static str,
        >(fs.new_entry(name, data)),
{
    let fs2 = fs.with_written(name, data);
    name_field_reads_back(name);
    crate::fs::find_from_finds_the_first(fs.cp.files, name, 0);
    crate::fs::find_from_finds_the_first(fs2.cp.files, name, 0);
    let at: int = match crate::fs::find_from(fs.cp.files, name, 0) {
        Some(i) => i,
        None => fs.cp.files.len() as int,
    };
    assert(fs2.cp.files[at] == fs.new_entry(name, data));
    assert(crate::fs::field_text(fs2.cp.files[at].name) == name);
    assert forall|j: int| 0 <= j < at implies crate::fs::field_text(
        #[trigger] fs2.cp.files[j].name,
    ) != name by {
        assert(fs2.cp.files[j] == fs.cp.files[j]);
    }
    match crate::fs::find_from(fs2.cp.files, name, 0) {
        Some(k) => {
            assert(k == at);
        },
        None => {},
    }
}

/// The data of a committed write is in the log.
pub(crate) proof fn lemma_committed_data(
    fs: crate::fs::FsView,
    d: crate::blk::DiskView,
    name: Seq<char>,
    data: Seq<u8>,
)
    requires
        settled(fs, d),
        fs.cp.log_head + crate::fs::sectors_for(data.len() as int) <= u64::MAX,
        fs.write_outcome(d, name, data, None).2 == Ok::<Written, &'static str>(Written::Committed),
    ensures
        ({
            let (fs2, d2, r) = fs.write_outcome(d, name, data, None);
            let n = crate::fs::sectors_for(data.len() as int);
            &&& fs2 == fs.with_written(name, data)
            &&& vstd::utf8::encode_utf8(name).len() <= 28
            &&& n > 0 ==> fs.cp.log_head + n <= d2.sectors.len()
            &&& forall|s: int|
                0 <= s < n ==> #[trigger] d2.sectors[fs.cp.log_head + s] == crate::fs::sector_of(
                    data,
                    s,
                )
        }),
{
    let writes = crate::fs::data_writes(fs.cp.log_head, data);
    let n = writes.len() as int;
    assert(writes.take(n) =~= writes);
    let d2 = fs.write_outcome(d, name, data, None).1;
    let d1 = d.after_writes(writes).0;
    written_data_is_on_the_disk(d, fs.cp.log_head, data, n);
    lemma_data_writes_stay_in_the_log(d, fs.cp.log_head, data, n);
    lemma_written_wf(fs, name, data);
    commit_is_atomic(fs, d1, fs.with_written(name, data));
    assert forall|s: int| 0 <= s < n implies #[trigger] d2.sectors[fs.cp.log_head + s]
        == crate::fs::sector_of(data, s) by {
        assert(d1.sectors[fs.cp.log_head + s] == crate::fs::sector_of(data, s));
    }
}

/// An extent whose sectors hold data, one after the other, stands for that data.
proof fn lemma_extent_holds(sectors: Seq<Seq<u8>>, e: crate::fs::EntryView, data: Seq<u8>)
    requires
        e.size == data.len(),
        forall|s: int|
            0 <= s < crate::fs::sectors_for(data.len() as int) ==> #[trigger] sectors[e.start + s]
                == crate::fs::sector_of(data, s),
    ensures
        crate::fs::contents(sectors, e) == data,
{
    assert forall|i: int| 0 <= i < data.len() implies crate::fs::contents(sectors, e)[i]
        == data[i] by {
        let s = i / 512;
        assert(sectors[e.start + s] == crate::fs::sector_of(data, s));
        assert(512 * s + i % 512 == i);
    }
    assert(crate::fs::contents(sectors, e) =~= data);
}

/// The extent of an entry lies in the part of the log already written.
pub open spec fn in_log(fs: crate::fs::FsView, e: crate::fs::EntryView) -> bool {
    crate::fs::LOG_START <= e.start && e.start + crate::fs::sectors_for(e.size as int)
        <= fs.cp.log_head
}

/// What an entry in the written part of the log stands for depends on that part alone.
pub proof fn written_extents_are_kept(
    s: Seq<Seq<u8>>,
    t: Seq<Seq<u8>>,
    fs: crate::fs::FsView,
    e: crate::fs::EntryView,
)
    requires
        in_log(fs, e),
        fs.cp.log_head <= s.len(),
        s.len() == t.len(),
        forall|i: int| 3 <= i < fs.cp.log_head && i < s.len() ==> #[trigger] t[i] == s[i],
    ensures
        crate::fs::contents(t, e) == crate::fs::contents(s, e),
{
    assert forall|i: int| 0 <= i < e.size implies crate::fs::contents(t, e)[i]
        == crate::fs::contents(s, e)[i] by {
        let k = e.start + i / 512;
        assert(3 <= k < fs.cp.log_head);
        assert(t[k] == s[k]);
    }
    assert(crate::fs::contents(t, e) =~= crate::fs::contents(s, e));
}

/// Writing one file changes no other: every other name finds the entry it found
/// before, and an entry in the written part of the log still stands for the
/// same bytes — the file's own old version included.
pub proof fn write_leaves_other_files(
    fs: crate::fs::FsView,
    d: crate::blk::DiskView,
    name: Seq<char>,
    data: Seq<u8>,
    crash_after: Option<u32>,
    other: Seq<char>,
    e: crate::fs::EntryView,
)
    requires
        settled(fs, d),
        fs.cp.log_head + crate::fs::sectors_for(data.len() as int) <= u64::MAX,
        fs.cp.log_head <= d.sectors.len(),
        plain_name(name),
        other != name,
        in_log(fs, e),
    ensures
        ({
            let (fs2, d2, r) = fs.write_outcome(d, name, data, crash_after);
            &&& crate::fs::contents(d2.sectors, e) == crate::fs::contents(d.sectors, e)
            &&& crate::fs::find_from(fs2.cp.files, other, 0) == crate::fs::find_from(
                fs.cp.files,
                other,
                0,
            )
            &&& crate::fs::find_from(fs.cp.files, other, 0) matches Some(i) ==> fs2.cp.files[i]
                == fs.cp.files[i]
        }),
{
    crash_leaves_old_or_new(fs, d, name, data, crash_after);
    let (fs2, d2, r) = fs.write_outcome(d, name, data, crash_after);
    written_extents_are_kept(d.sectors, d2.sectors, fs, e);
    crate::fs::find_from_finds_the_first(fs.cp.files, other, 0);
    crate::fs::find_from_finds_the_first(fs2.cp.files, other, 0);
    crate::fs::find_from_finds_the_first(fs.cp.files, name, 0);
    if fs2 != fs {
        name_field_reads_back(name);
        let a = fs.cp.files;
        let b = fs2.cp.files;
        let at: int = match crate::fs::find_from(a, name, 0) {
            Some(i) => i,
            None => a.len() as int,
        };
        assert(crate::fs::field_text(b[at].name) == name);
        assert(forall|j: int| 0 <= j < a.len() && j != at ==> #[trigger] b[j] == a[j]);
        let x = crate::fs::find_from(a, other, 0);
        let y = crate::fs::find_from(b, other, 0);
        match (x, y) {
            (Some(i), Some(j)) => {
                if i < j {
                    assert(crate::fs::field_text(b[i].name) == other);
                } else if j < i {
                    assert(crate::fs::field_text(a[j].name) == other);
                }
            },
            (Some(i), None) => {
                assert(crate::fs::field_text(b[i].name) == other);
            },
            (None, Some(j)) => {
                if j < a.len() && j != at {
                    assert(crate::fs::field_text(a[j].name) == other);
                }
            },
            (None, None) => {},
        }
    }
}

/// Undoing a write is putting the old directory entry back — or removing the
/// file, if the write created it. The directory is then what it was, and every
/// file in it stands for the bytes it stood for, though nothing was copied.
pub proof fn putting_the_old_entry_back_undoes_a_write(
    fs: crate::fs::FsView,
    d: crate::blk::DiskView,
    name: Seq<char>,
    data: Seq<u8>,
    d2: crate::blk::DiskView,
)
    requires
        settled(fs, d),
        fs.cp.seq + 1 < u64::MAX,
        fs.cp.log_head + crate::fs::sectors_for(data.len() as int) <= u64::MAX,
        fs.cp.log_head <= d.sectors.len(),
        plain_name(name),
        fs.write_outcome(d, name, data, None).2 == Ok::<Written, &'static str>(Written::Committed),
        d2.sectors == fs.write_outcome(d, name, data, None).1.sectors,
        ({
            let before = match crate::fs::find_from(fs.cp.files, name, 0) {
                Some(i) => Some(fs.cp.files[i]),
                None => None,
            };
            fs.with_written(name, data).set_entry_outcome(d2, name, before).2 is Ok
        }),
    ensures
        ({
            let before = match crate::fs::find_from(fs.cp.files, name, 0) {
                Some(i) => Some(fs.cp.files[i]),
                None => None,
            };
            let (fs3, d3, _) = fs.with_written(name, data).set_entry_outcome(d2, name, before);
            &&& fs3.cp.files == fs.cp.files
            &&& crate::fs::root(d3.sectors) == Ok::<crate::fs::FsView, &'static str>(fs3)
            &&& forall|i: int|
                0 <= i < fs.cp.files.len() && in_log(fs, #[trigger] fs.cp.files[i])
                    ==> crate::fs::contents(d3.sectors, fs.cp.files[i]) == crate::fs::contents(
                    d.sectors,
                    fs.cp.files[i],
                )
        }),
{
    let before = match crate::fs::find_from(fs.cp.files, name, 0) {
        Some(i) => Some(fs.cp.files[i]),
        None => None,
    };
    let fs2 = fs.with_written(name, data);
    let next = fs2.with_entry(name, before)->0;
    let d3 = fs2.set_entry_outcome(d2, name, before).1;
    lemma_entry_restored(fs, name, data);
    assert(crate::fs::root(d2.sectors) == Ok::<crate::fs::FsView, &'static str>(fs2)
        && d2.sectors.len() == d.sectors.len() && forall|i: int|
        fs.cp.log_head > i >= 3 && i < d.sectors.len() ==> #[trigger] d2.sectors[i]
            == d.sectors[i]) by {
        crash_leaves_old_or_new(fs, d, name, data, None);
    }
    assert(fs2.set_entry_outcome(d2, name, before) == fs2.commit(d2, next));
    commit_is_atomic(fs2, d2, next);
    assert forall|i: int|
        0 <= i < fs.cp.files.len() && in_log(fs, #[trigger] fs.cp.files[i]) implies crate::fs::contents(
        d3.sectors, fs.cp.files[i]) == crate::fs::contents(d.sectors, fs.cp.files[i]) by {
        written_extents_are_kept(d.sectors, d3.sectors, fs, fs.cp.files[i]);
    }
}

/// The directory with a file written and its entry put back is the directory before.
pub(crate) proof fn lemma_entry_restored(fs: crate::fs::FsView, name: Seq<char>, data: Seq<u8>)
    requires
        fs.wf(),
        fs.cp.seq + 1 < u64::MAX,
        plain_name(name),
        vstd::utf8::encode_utf8(name).len() <= 28,
        !fs.no_room_for(name),
    ensures
        ({
            let before = match crate::fs::find_from(fs.cp.files, name, 0) {
                Some(i) => Some(fs.cp.files[i]),
                None => None,
            };
            let fs2 = fs.with_written(name, data);
            let next = fs2.with_entry(name, before)->0;
            &&& fs2.wf()
            &&& fs2.with_entry(name, before) is Some
            &&& next.cp.files == fs.cp.files
            &&& next.cp.wf()
            &&& next == (crate::fs::FsView { cp: next.cp, slot: 1 - fs2.slot, ..fs2 })
            &&& next.cp.seq > fs2.cp.seq
            &&& crate::fs::find_from(fs2.cp.files, name, 0) is Some
            &&& !(before is Some && fs2.no_room_for(name))
        }),
{
    let before = match crate::fs::find_from(fs.cp.files, name, 0) {
        Some(i) => Some(fs.cp.files[i]),
        None => None,
    };
    let fs2 = fs.with_written(name, data);
    crate::fs::find_from_finds_the_first(fs.cp.files, name, 0);
    crate::fs::find_from_finds_the_first(fs2.cp.files, name, 0);
    name_field_reads_back(name);
    lemma_written_wf(fs, name, data);
    let at: int = match crate::fs::find_from(fs.cp.files, name, 0) {
        Some(i) => i,
        None => fs.cp.files.len() as int,
    };
    assert(fs2.cp.files[at].name == crate::fs::name_field(name));
    assert(forall|j: int| 0 <= j < at ==> fs2.cp.files[j] == fs.cp.files[j]);
    assert(crate::fs::find_from(fs2.cp.files, name, 0) == Some(at));
    let next = fs2.with_entry(name, before)->0;
    assert(next.cp.files =~= fs.cp.files);
}

/// The log never grows into the regions reserved above it.
pub proof fn log_stays_below_the_reserved_regions(
    fs: crate::fs::FsView,
    d: crate::blk::DiskView,
    name: Seq<char>,
    data: Seq<u8>,
    crash_after: Option<u32>,
)
    requires
        fs.cp.log_head <= fs.audit_start,
    ensures
        fs.write_outcome(d, name, data, crash_after).0.cp.log_head <= fs.audit_start,
        fs.write_outcome(d, name, data, crash_after).0.audit_start == fs.audit_start,
{
}

/// A device that was formatted without error mounts as an empty filesystem.
pub proof fn format_then_mount(d: crate::blk::DiskView, total: u64)
    requires
        total >= crate::fs::SPILL_SECTORS + crate::fs::AUDIT_SECTORS + crate::fs::LOG_START,
        d.after_writes(crate::fs::format_writes(total)).1 is Ok,
    ensures
        crate::fs::root(d.after_writes(crate::fs::format_writes(total)).0.sectors) == Ok::<
            crate::fs::FsView,
            &'static str,
        >(
            crate::fs::FsView {
                cp: crate::fs::fresh_checkpoint(),
                slot: 0,
                total_sectors: total,
                spill_start: (total - crate::fs::SPILL_SECTORS) as u64,
                spill_sectors: crate::fs::SPILL_SECTORS,
                audit_start: (total - crate::fs::SPILL_SECTORS - crate::fs::AUDIT_SECTORS) as u64,
                audit_sectors: crate::fs::AUDIT_SECTORS,
            },
        ),
{
    lemma_format_lands(d, total);
    lemma_superblock_fields(total);
    lemma_blank_slot();
    crate::fs::checkpoint_round_trip(crate::fs::fresh_checkpoint());
}

proof fn lemma_format_lands(d: crate::blk::DiskView, total: u64)
    requires
        total >= crate::fs::SPILL_SECTORS + crate::fs::AUDIT_SECTORS + crate::fs::LOG_START,
        d.after_writes(crate::fs::format_writes(total)).1 is Ok,
    ensures
        ({
            let s = d.after_writes(crate::fs::format_writes(total)).0.sectors;
            &&& s.len() >= 3
            &&& s[0] == crate::fs::superblock_sector(total)
            &&& s[1] == crate::fs::checkpoint_sector(crate::fs::fresh_checkpoint())
            &&& s[2] == crate::fs::zeros(512)
        }),
{
    let ws = crate::fs::format_writes(total);
    lemma_later_writes(total);
    crate::blk::the_last_write_stays(d, ws, 0);
    crate::blk::the_last_write_stays(d, ws, 1);
    crate::blk::the_last_write_stays(d, ws, 2);
}

/// No two writes of a format go to the same sector.
proof fn lemma_later_writes(total: u64)
    requires
        total >= crate::fs::SPILL_SECTORS + crate::fs::AUDIT_SECTORS + crate::fs::LOG_START,
    ensures
        ({
            let ws = crate::fs::format_writes(total);
            &&& ws.len() == 3 + crate::fs::AUDIT_SECTORS
            &&& forall|i: int, j: int|
                0 <= i < j < ws.len() ==> (#[trigger] ws[i]).0 != (#[trigger] ws[j]).0
        }),
{
}

/// Formatting clears the whole region of the action log.
pub proof fn format_clears_the_action_log(d: crate::blk::DiskView, total: u64)
    requires
        total >= crate::fs::SPILL_SECTORS + crate::fs::AUDIT_SECTORS + crate::fs::LOG_START,
        d.after_writes(crate::fs::format_writes(total)).1 is Ok,
    ensures
        ({
            let s = d.after_writes(crate::fs::format_writes(total)).0.sectors;
            let audit = total - crate::fs::SPILL_SECTORS - crate::fs::AUDIT_SECTORS;
            forall|i: int|
                audit <= i < audit + crate::fs::AUDIT_SECTORS ==> #[trigger] s[i]
                    == crate::fs::zeros(512)
        }),
{
    let ws = crate::fs::format_writes(total);
    let s = d.after_writes(ws).0.sectors;
    let audit = total - crate::fs::SPILL_SECTORS - crate::fs::AUDIT_SECTORS;
    lemma_later_writes(total);
    assert forall|i: int| audit <= i < audit + crate::fs::AUDIT_SECTORS implies #[trigger] s[i]
        == crate::fs::zeros(512) by {
        let k = 3 + i - audit;
        assert(ws[k] == (i as u64, crate::fs::zeros(512)));
        crate::blk::the_last_write_stays(d, ws, k);
    }
}

/// Formatting leaves every sector a whole sector.
pub proof fn formatting_writes_whole_sectors(d: crate::blk::DiskView, total: u64)
    requires
        d.wf(),
        total >= crate::fs::SPILL_SECTORS + crate::fs::AUDIT_SECTORS + crate::fs::LOG_START,
    ensures
        d.after_writes(crate::fs::format_writes(total)).0.wf(),
{
    let ws = crate::fs::format_writes(total);
    let d2 = d.after_writes(ws).0;
    crate::blk::writes_touch_only_their_sectors(d, ws);
    assert(crate::fs::superblock_sector(total).len() == 512);
    crate::fs::checkpoint_round_trip(crate::fs::fresh_checkpoint());
    assert forall|k: int| 0 <= k < ws.len() implies (#[trigger] ws[k]).1.len() == 512 by {
        if k >= 3 {
            assert(ws[k].1 == crate::fs::zeros(512));
        }
    }
    assert forall|i: int| 0 <= i < d2.sectors.len() implies (#[trigger] d2.sectors[i]).len()
        == 512 by {
        if d2.sectors[i] != d.sectors[i] {
            let k = choose|k: int|
                0 <= k < ws.len() && (#[trigger] ws[k]).0 == i && ws[k].1 == d2.sectors[i];
            assert(ws[k].1.len() == 512);
        }
    }
}

proof fn lemma_superblock_fields(total: u64)
    requires
        total >= crate::fs::SPILL_SECTORS + crate::fs::AUDIT_SECTORS + crate::fs::LOG_START,
    ensures
        ({
            let sb = crate::fs::superblock_sector(total);
            &&& crate::fs::superblock_error(sb) is None
            &&& crate::bytes::le64(sb, 12) == total
            &&& crate::bytes::le64(sb, 36) == total - crate::fs::SPILL_SECTORS
            &&& crate::bytes::le64(sb, 44) == crate::fs::SPILL_SECTORS
            &&& crate::bytes::le64(sb, 52) == total - crate::fs::SPILL_SECTORS
                - crate::fs::AUDIT_SECTORS
            &&& crate::bytes::le64(sb, 60) == crate::fs::AUDIT_SECTORS
        }),
{
    let c = crate::fs::superblock_contents(total);
    let body = c + crate::fs::zeros(508 - 68);
    let crc = crate::bytes::le32_bytes(crate::fs::crc32_of(body));
    lemma_superblock_words(total);
    crate::fs::sealed_is_intact(body);
    lemma_word_in_front(c, crate::fs::zeros(508 - 68), crc, 0);
    lemma_word_in_front(c, crate::fs::zeros(508 - 68), crc, 12);
    lemma_word_in_front(c, crate::fs::zeros(508 - 68), crc, 36);
    lemma_word_in_front(c, crate::fs::zeros(508 - 68), crc, 44);
    lemma_word_in_front(c, crate::fs::zeros(508 - 68), crc, 52);
    lemma_word_in_front(c, crate::fs::zeros(508 - 68), crc, 60);
}

/// What follows a word does not change it.
proof fn lemma_word_in_front(a: Seq<u8>, b: Seq<u8>, c: Seq<u8>, at: int)
    requires
        0 <= at <= a.len() - 8,
    ensures
        crate::bytes::le64(a + b + c, at) == crate::bytes::le64(a, at),
{
    assert forall|i: int| at <= i < at + 8 implies #[trigger] (a + b + c)[i] == a[i] by {}
}

proof fn lemma_superblock_words(total: u64)
    requires
        total >= crate::fs::SPILL_SECTORS + crate::fs::AUDIT_SECTORS + crate::fs::LOG_START,
    ensures
        ({
            let c = crate::fs::superblock_contents(total);
            &&& c.len() == 68
            &&& crate::bytes::le64(c, 0) == crate::fs::SB_MAGIC
            &&& crate::bytes::le64(c, 12) == total
            &&& crate::bytes::le64(c, 36) == total - crate::fs::SPILL_SECTORS
            &&& crate::bytes::le64(c, 44) == crate::fs::SPILL_SECTORS
            &&& crate::bytes::le64(c, 52) == total - crate::fs::SPILL_SECTORS
                - crate::fs::AUDIT_SECTORS
            &&& crate::bytes::le64(c, 60) == crate::fs::AUDIT_SECTORS
        }),
{
    let c = crate::fs::superblock_contents(total);
    let spill = (total - crate::fs::SPILL_SECTORS) as u64;
    let audit = (spill - crate::fs::AUDIT_SECTORS) as u64;
    assert(c.subrange(0, 8) =~= crate::bytes::le64_bytes(crate::fs::SB_MAGIC));
    assert(c.subrange(12, 20) =~= crate::bytes::le64_bytes(total));
    assert(c.subrange(36, 44) =~= crate::bytes::le64_bytes(spill));
    assert(c.subrange(44, 52) =~= crate::bytes::le64_bytes(crate::fs::SPILL_SECTORS));
    assert(c.subrange(52, 60) =~= crate::bytes::le64_bytes(audit));
    assert(c.subrange(60, 68) =~= crate::bytes::le64_bytes(crate::fs::AUDIT_SECTORS));
    crate::bytes::le64_reads_back(c, 0, crate::fs::SB_MAGIC);
    crate::bytes::le64_reads_back(c, 12, total);
    crate::bytes::le64_reads_back(c, 36, spill);
    crate::bytes::le64_reads_back(c, 44, crate::fs::SPILL_SECTORS);
    crate::bytes::le64_reads_back(c, 52, audit);
    crate::bytes::le64_reads_back(c, 60, crate::fs::AUDIT_SECTORS);
}

proof fn lemma_blank_slot()
    ensures
        crate::fs::decoded(crate::fs::zeros(512)) is None,
{
    lemma_zero_word(crate::fs::zeros(512), 0);
}

pub(crate) proof fn lemma_zero_word(b: Seq<u8>, at: int)
    requires
        0 <= at <= b.len() - 8,
        forall|i: int| at <= i < at + 8 ==> #[trigger] b[i] == 0u8,
    ensures
        crate::bytes::le64(b, at) == 0,
{
    lemma_zero_bytes();
    assert(b.subrange(at, at + 8) =~= crate::bytes::le64_bytes(0));
    crate::bytes::le64_reads_back(b, at, 0);
}

proof fn lemma_zero_bytes()
    by (bit_vector)
    ensures
        (0u64 >> 32) as u32 == 0u32,
        0u32 as u8 == 0u8,
        (0u32 >> 8) as u8 == 0u8,
        (0u32 >> 16) as u8 == 0u8,
        (0u32 >> 24) as u8 == 0u8,
{
}

} // verus!
