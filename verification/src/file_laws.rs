//! What the filesystem promises whoever keeps files in it, from one operation to the
//! next.
use vstd::prelude::*;
use crate::blk::DiskView;
use crate::fs::{CheckpointView, EntryView, FsView, Written};
use crate::fs_laws::{in_log, plain_name, settled};

verus! {

// ---- the root ---------------------------------------------------------------------------

/// A checkpoint that was written reads back as it was, and with any one byte of its sector
/// changed it does not read back at all.
pub proof fn a_checkpoint_reads_back_whole_or_not_at_all(cp: CheckpointView, at: int, v: u8)
    requires
        cp.wf(),
        0 <= at < 512,
        crate::fs::checkpoint_sector(cp)[at] != v,
    ensures
        crate::fs::decoded(crate::fs::checkpoint_sector(cp)) == Some(cp),
        crate::fs::decoded(crate::fs::checkpoint_sector(cp).update(at, v)) is None,
{
    crate::fs::checkpoint_round_trip(cp);
    crate::fs_laws::a_damaged_checkpoint_is_rejected(crate::fs::checkpoint_sector(cp), at, v);
}

/// While the driver answers, mounting finds the root and leaves the disk alone.
pub proof fn mounting_finds_the_root(d: DiskView)
    requires
        d.steady(),
    ensures
        crate::fs::mount_result(d) == (d, crate::fs::root(d.sectors)),
{
    assert(d.after_read() =~= d);
}

// ---- the recorded phase -----------------------------------------------------------------

/// A phase that was recorded is the one found, as long as nobody has written its sector
/// since and it can be read. Recording it touches no other sector.
pub proof fn a_recorded_phase_reads_back(d: DiskView, phase: u64, later: DiskView)
    requires
        d.write_result(crate::fs::TEST_STATE_SECTOR) is Ok,
        later.read_result(crate::fs::TEST_STATE_SECTOR) is Ok,
        later.sectors[4] == d.after_write(
            crate::fs::TEST_STATE_SECTOR,
            crate::fs::phase_sector(phase),
        ).sectors[4],
    ensures
        crate::fs::phase_on(later) == phase,
        forall|i: int|
            0 <= i < d.sectors.len() && i != 4 ==> #[trigger] d.after_write(
                crate::fs::TEST_STATE_SECTOR,
                crate::fs::phase_sector(phase),
            ).sectors[i] == d.sectors[i],
{
    crate::fs::phase_round_trip(phase);
}

/// Formatting leaves the recorded phase alone, however far it gets.
pub proof fn formatting_keeps_the_phase(d: DiskView, total: u64)
    requires
        total >= crate::fs::SPILL_SECTORS + crate::fs::AUDIT_SECTORS + crate::fs::LOG_START,
        d.sectors.len() > 4,
    ensures
        d.after_writes(crate::fs::format_writes(total)).0.sectors[4] == d.sectors[4],
        d.after_writes(crate::fs::format_writes(total)).0.sectors.len() == d.sectors.len(),
{
    let ws = crate::fs::format_writes(total);
    crate::blk::writes_touch_only_their_sectors(d, ws);
    assert forall|k: int| 0 <= k < ws.len() implies (#[trigger] ws[k]).0 != 4 by {}
}

/// Mounting leaves the recorded phase alone, and every other sector.
pub proof fn mounting_keeps_the_phase(d: DiskView)
    ensures
        crate::fs::mount_result(d).0.sectors == d.sectors,
{
}

/// Writing a file leaves the recorded phase alone, whatever becomes of the write.
pub proof fn writing_keeps_the_phase(
    fs: FsView,
    d: DiskView,
    name: Seq<char>,
    data: Seq<u8>,
    crash_after: Option<u32>,
)
    requires
        fs.cp.log_head >= crate::fs::LOG_START,
        fs.cp.log_head + crate::fs::sectors_for(data.len() as int) <= u64::MAX,
        d.sectors.len() > 4,
    ensures
        fs.write_outcome(d, name, data, crash_after).1.sectors[4] == d.sectors[4],
        fs.write_outcome(d, name, data, crash_after).1.sectors.len() == d.sectors.len(),
{
    let ws = crate::fs::data_writes(fs.cp.log_head, data);
    lemma_data_keeps_the_phase(fs, d, data, ws.len() as int);
    assert(ws.take(ws.len() as int) =~= ws);
    match crash_after {
        Some(c) if c <= ws.len() => {
            lemma_data_keeps_the_phase(fs, d, data, c as int);
        },
        _ => {},
    }
}

proof fn lemma_data_keeps_the_phase(fs: FsView, d: DiskView, data: Seq<u8>, n: int)
    requires
        fs.cp.log_head >= crate::fs::LOG_START,
        fs.cp.log_head + crate::fs::sectors_for(data.len() as int) <= u64::MAX,
        d.sectors.len() > 4,
        0 <= n <= crate::fs::sectors_for(data.len() as int),
    ensures
        ({
            let ws = crate::fs::data_writes(fs.cp.log_head, data).take(n);
            &&& d.after_writes(ws).0.sectors[4] == d.sectors[4]
            &&& d.after_writes(ws).0.sectors.len() == d.sectors.len()
        }),
{
    let ws = crate::fs::data_writes(fs.cp.log_head, data).take(n);
    crate::blk::writes_touch_only_their_sectors(d, ws);
    assert forall|k: int| 0 <= k < ws.len() implies (#[trigger] ws[k]).0 != 4 by {
        assert(ws[k].0 == (fs.cp.log_head + k) as u64);
    }
}

/// Changing a directory entry leaves the recorded phase alone.
pub proof fn changing_an_entry_keeps_the_phase(
    fs: FsView,
    d: DiskView,
    name: Seq<char>,
    entry: Option<EntryView>,
)
    requires
        d.sectors.len() > 4,
    ensures
        fs.set_entry_outcome(d, name, entry).1.sectors[4] == d.sectors[4],
        fs.set_entry_outcome(d, name, entry).1.sectors.len() == d.sectors.len(),
{
}

// ---- a write that is cut short ----------------------------------------------------------

/// Power lost after any number of data sectors, all of them included, leaves no trace: the
/// superblock, both checkpoints and the log so far are untouched, the next mount finds the
/// old root, every file holds its old bytes, and the next write begins where this one did.
pub proof fn a_power_cut_leaves_no_trace(
    fs: FsView,
    d: DiskView,
    name: Seq<char>,
    data: Seq<u8>,
    k: u32,
)
    requires
        settled(fs, d),
        fs.cp.log_head <= d.sectors.len(),
        vstd::utf8::encode_utf8(name).len() <= 28,
        fs.cp.log_head + crate::fs::sectors_for(data.len() as int) <= fs.audit_start,
        k <= crate::fs::sectors_for(data.len() as int),
    ensures
        ({
            let (fs2, d2, r) = fs.write_outcome(d, name, data, Some(k));
            &&& fs2 == fs
            &&& r matches Ok(w) ==> w == Written::PowerCut { data_sectors: k }
            &&& d.answers(k as nat) && fs.cp.log_head + k <= d.sectors.len() ==> r is Ok
            &&& d2.sectors.len() == d.sectors.len()
            &&& forall|i: int| 0 <= i < fs.cp.log_head ==> #[trigger] d2.sectors[i] == d.sectors[i]
            &&& crate::fs::root(d2.sectors) == Ok::<FsView, &'static str>(fs)
            &&& d2.steady() ==> crate::fs::mount_result(d2) == (
                d2,
                Ok::<FsView, &'static str>(fs),
            )
            &&& forall|i: int|
                0 <= i < fs.cp.files.len() && in_log(fs, #[trigger] fs.cp.files[i])
                    ==> crate::fs::contents(d2.sectors, fs.cp.files[i]) == crate::fs::contents(
                    d.sectors,
                    fs.cp.files[i],
                )
        }),
{
    let (fs2, d2, r) = fs.write_outcome(d, name, data, Some(k));
    let ws = crate::fs::data_writes(fs.cp.log_head, data).take(k as int);
    crate::fs_laws::lemma_data_writes_stay_in_the_log(d, fs.cp.log_head, data, k as int);
    if d.answers(k as nat) && fs.cp.log_head + k <= d.sectors.len() {
        assert forall|j: int| 0 <= j < ws.len() implies (#[trigger] ws[j]).0 < d.sectors.len() by {
            assert(ws[j].0 == (fs.cp.log_head + j) as u64);
        }
        crate::blk::run_succeeds(d, ws);
    }
    if d2.steady() {
        mounting_finds_the_root(d2);
    }
    assert forall|i: int|
        0 <= i < fs.cp.files.len() && in_log(fs, #[trigger] fs.cp.files[i]) implies crate::fs::contents(
        d2.sectors,
        fs.cp.files[i],
    ) == crate::fs::contents(d.sectors, fs.cp.files[i]) by {
        crate::fs_laws::written_extents_are_kept(d.sectors, d2.sectors, fs, fs.cp.files[i]);
    }
}

// ---- what was written is what is read ------------------------------------------------------

proof fn lemma_before_the_nul(b: Seq<u8>, i: int)
    requires
        0 <= i <= b.len(),
    ensures
        i <= crate::fs::first_nul(b, i) <= b.len(),
        forall|k: int| i <= k < crate::fs::first_nul(b, i) ==> #[trigger] b[k] != 0,
    decreases b.len() - i,
{
    if i < b.len() && b[i] != 0 {
        lemma_before_the_nul(b, i + 1);
    }
}

/// The text of a name field is a plain name.
proof fn lemma_field_text_is_plain(b: Seq<u8>)
    ensures
        plain_name(crate::fs::field_text(b)),
{
    lemma_before_the_nul(b, 0);
    let head = b.take(crate::fs::first_nul(b, 0));
    if vstd::utf8::valid_utf8(head) {
        vstd::utf8::decode_utf8_encode_utf8(head);
        assert(vstd::utf8::encode_utf8(crate::fs::field_text(b)) == head);
        assert forall|k: int| 0 <= k < head.len() implies #[trigger] head[k] != 0 by {
            assert(b[k] != 0);
        }
    } else {
        reveal_strlit("<invalid>");
        let t = "<invalid>"@;
        assert(vstd::utf8::is_ascii_chars(t));
        vstd::utf8::is_ascii_chars_encode_utf8(t);
        assert(crate::fs::field_text(b) == t);
    }
}

/// A file that is there keeps its place in the directory when another is written.
proof fn lemma_place_is_kept(fs: FsView, name: Seq<char>, i: int, other: Seq<char>, data: Seq<u8>)
    requires
        crate::fs::find_from(fs.cp.files, name, 0) == Some(i),
        other != name,
        vstd::utf8::encode_utf8(other).len() <= 28,
    ensures
        ({
            let files = fs.with_written(other, data).cp.files;
            &&& 0 <= i < fs.cp.files.len() && i < files.len()
            &&& crate::fs::find_from(files, name, 0) == Some(i)
            &&& files[i] == fs.cp.files[i]
        }),
{
    let a = fs.cp.files;
    let b = fs.with_written(other, data).cp.files;
    crate::fs::find_from_finds_the_first(a, name, 0);
    crate::fs::find_from_finds_the_first(a, other, 0);
    crate::fs::find_from_finds_the_first(b, name, 0);
    match crate::fs::find_from(a, other, 0) {
        Some(j) => {
            lemma_field_text_is_plain(a[j].name);
            crate::fs_laws::name_field_reads_back(other);
            assert(b[j].name == crate::fs::name_field(other));
            assert(crate::fs::field_text(b[j].name) == other);
            assert(j != i);
        },
        None => {},
    }
    assert(b[i] == a[i]);
    assert forall|k: int| 0 <= k < i implies crate::fs::field_text(#[trigger] b[k].name)
        != name by {
        assert(b[k] == a[k] || crate::fs::field_text(b[k].name) == other);
        assert(crate::fs::field_text(a[k].name) != name);
    }
    match crate::fs::find_from(b, name, 0) {
        Some(k) => {
            assert(!(k < i));
            if k > i {
                assert(crate::fs::field_text(b[i].name) != name);
            }
        },
        None => {
            assert(crate::fs::field_text(b[i].name) != name);
        },
    }
}

/// What a committed write leaves.
proof fn lemma_committed(fs: FsView, d: DiskView, name: Seq<char>, data: Seq<u8>)
    requires
        settled(fs, d),
        fs.cp.seq + 1 < u64::MAX,
        fs.cp.log_head <= d.sectors.len(),
        fs.write_outcome(d, name, data, None).2 == Ok::<Written, &'static str>(Written::Committed),
    ensures
        ({
            let (fs2, d2, _) = fs.write_outcome(d, name, data, None);
            &&& fs2 == fs.with_written(name, data)
            &&& settled(fs2, d2)
            &&& fs2.cp.seq == fs.cp.seq + 1
            &&& fs2.cp.log_head == fs.cp.log_head + crate::fs::sectors_for(data.len() as int)
            &&& fs2.cp.log_head <= d2.sectors.len()
            &&& vstd::utf8::encode_utf8(name).len() <= 28
            &&& !fs.no_room_for(name)
            &&& d2.sectors.len() == d.sectors.len()
            &&& forall|i: int|
                3 <= i < fs.cp.log_head && i < d.sectors.len() ==> #[trigger] d2.sectors[i]
                    == d.sectors[i]
        }),
{
    crate::fs_laws::crash_leaves_old_or_new(fs, d, name, data, None);
    crate::fs_laws::lemma_written_wf(fs, name, data);
    crate::fs_laws::lemma_committed_data(fs, d, name, data);
}

/// The filesystem and the device after the first `k` of these files have been written.
pub open spec fn after_files(
    fs: FsView,
    d: DiskView,
    files: Seq<(Seq<char>, Seq<u8>)>,
    k: int,
) -> (FsView, DiskView)
    decreases k,
{
    if k <= 0 {
        (fs, d)
    } else {
        let (f, e) = after_files(fs, d, files, k - 1);
        let (f2, e2, _) = f.write_outcome(e, files[k - 1].0, files[k - 1].1, None);
        (f2, e2)
    }
}

/// Whether the write of the `k`th of them committed.
pub open spec fn committed(
    fs: FsView,
    d: DiskView,
    files: Seq<(Seq<char>, Seq<u8>)>,
    k: int,
) -> bool {
    let (f, e) = after_files(fs, d, files, k);
    f.write_outcome(e, files[k].0, files[k].1, None).2 == Ok::<Written, &'static str>(
        Written::Committed,
    )
}

/// What is still true of a file after `k` others have been written.
spec fn still_there(
    fs: FsView,
    d: DiskView,
    files: Seq<(Seq<char>, Seq<u8>)>,
    k: int,
    name: Seq<char>,
    i: int,
    e: EntryView,
    data: Seq<u8>,
) -> bool {
    let (f, b) = after_files(fs, d, files, k);
    &&& settled(f, b)
    &&& f.cp.seq == fs.cp.seq + k
    &&& f.cp.log_head <= b.sectors.len()
    &&& crate::fs::find_from(f.cp.files, name, 0) == Some(i)
    &&& 0 <= i < f.cp.files.len()
    &&& f.cp.files[i] == e
    &&& in_log(f, e)
    &&& crate::fs::contents(b.sectors, e) == data
}

proof fn lemma_still_there(
    fs: FsView,
    d: DiskView,
    files: Seq<(Seq<char>, Seq<u8>)>,
    k: int,
    name: Seq<char>,
    i: int,
    e: EntryView,
    data: Seq<u8>,
)
    requires
        0 <= k <= files.len(),
        fs.cp.seq + files.len() < u64::MAX,
        still_there(fs, d, files, 0, name, i, e, data),
        forall|j: int|
            0 <= j < files.len() ==> #[trigger] committed(fs, d, files, j) && files[j].0 != name,
    ensures
        still_there(fs, d, files, k, name, i, e, data),
    decreases k,
{
    if k > 0 {
        lemma_still_there(fs, d, files, k - 1, name, i, e, data);
        assert(committed(fs, d, files, k - 1));
        let (f, b) = after_files(fs, d, files, k - 1);
        let (other, bytes) = files[k - 1];
        let (f2, b2, _) = f.write_outcome(b, other, bytes, None);
        lemma_committed(f, b, other, bytes);
        lemma_place_is_kept(f, name, i, other, bytes);
        crate::fs_laws::written_extents_are_kept(b.sectors, b2.sectors, f, e);
    }
}

/// Reading a file that is whole on the device.
proof fn lemma_reads(fs: FsView, d: DiskView, name: Seq<char>, data: Seq<u8>, out: Seq<u8>, i: int)
    requires
        d.steady(),
        crate::fs::find_from(fs.cp.files, name, 0) == Some(i),
        fs.cp.files[i].size == data.len(),
        fs.cp.files[i].sectors == crate::fs::sectors_for(data.len() as int),
        in_log(fs, fs.cp.files[i]),
        fs.cp.log_head <= d.sectors.len(),
        crate::fs::contents(d.sectors, fs.cp.files[i]) == data,
    ensures
        fs.read_outcome(d, name, out) == if out.len() < data.len() {
            (d, out, Err::<usize, &'static str>("buffer too small"))
        } else {
            (d, data + out.skip(data.len() as int), Ok(data.len() as usize))
        },
{
    let e = fs.cp.files[i];
    if out.len() >= data.len() {
        let n = crate::fs::reads_needed(e.size, e.sectors);
        let all = fs.read_outcome(d, name, out).1;
        if n > 0 {
            crate::blk::answered_reads(d, e.start, n);
        }
        assert forall|k: int| 0 <= k < data.len() implies #[trigger] all[k] == data[k] by {
            assert(crate::fs::contents(d.sectors, e)[k] == data[k]);
        }
        assert(all =~= data + out.skip(data.len() as int));
    }
}

/// A file that was written is what is read under its name, whatever other files have been
/// written since, as long as the device answers: the bytes come first in the buffer, and
/// what lies behind them is left. A buffer that is too small stays as it is.
pub proof fn a_file_reads_back(
    fs: FsView,
    d: DiskView,
    name: Seq<char>,
    data: Seq<u8>,
    others: Seq<(Seq<char>, Seq<u8>)>,
    out: Seq<u8>,
)
    requires
        settled(fs, d),
        fs.cp.seq + 1 + others.len() < u64::MAX,
        fs.cp.log_head <= d.sectors.len(),
        data.len() <= u32::MAX,
        plain_name(name),
        ({
            let (fs1, d1, r) = fs.write_outcome(d, name, data, None);
            let (_, d2) = after_files(fs1, d1, others, others.len() as int);
            &&& r == Ok::<Written, &'static str>(Written::Committed)
            &&& forall|j: int|
                0 <= j < others.len() ==> #[trigger] committed(fs1, d1, others, j) && others[j].0
                    != name
            &&& d2.steady()
        }),
    ensures
        ({
            let (fs1, d1, _) = fs.write_outcome(d, name, data, None);
            let (fs2, d2) = after_files(fs1, d1, others, others.len() as int);
            fs2.read_outcome(d2, name, out) == if out.len() < data.len() {
                (d2, out, Err::<usize, &'static str>("buffer too small"))
            } else {
                (d2, data + out.skip(data.len() as int), Ok(data.len() as usize))
            }
        }),
{
    let (fs1, d1, _) = fs.write_outcome(d, name, data, None);
    let e = fs.new_entry(name, data);
    lemma_committed(fs, d, name, data);
    crate::fs_laws::lemma_written_is_found(fs, name, data);
    crate::fs_laws::write_then_read(fs, d, name, data);
    crate::fs::find_from_finds_the_first(fs1.cp.files, name, 0);
    let i = crate::fs::find_from(fs1.cp.files, name, 0)->0;
    assert(still_there(fs1, d1, others, 0, name, i, e, data));
    lemma_still_there(fs1, d1, others, others.len() as int, name, i, e, data);
    let (fs2, d2) = after_files(fs1, d1, others, others.len() as int);
    lemma_reads(fs2, d2, name, data, out, i);
}

/// A name that is in no entry is reported, and nothing is read.
pub proof fn a_missing_file_is_reported(fs: FsView, d: DiskView, name: Seq<char>, out: Seq<u8>)
    requires
        forall|i: int|
            0 <= i < fs.cp.files.len() ==> crate::fs::field_text(#[trigger] fs.cp.files[i].name)
                != name,
    ensures
        fs.read_outcome(d, name, out) == (d, out, Err::<usize, &'static str>("no such file")),
{
    crate::fs::find_from_finds_the_first(fs.cp.files, name, 0);
}

// ---- putting an entry back -------------------------------------------------------------------

/// Putting back the entry that a name had before it was written takes one checkpoint
/// sector and no more: the directory is what it was, every file in it stands for the bytes
/// it stood for, and the log keeps its length. A name that had no entry is gone again.
pub proof fn an_entry_put_back_undoes_the_write(
    fs: FsView,
    d: DiskView,
    name: Seq<char>,
    data: Seq<u8>,
)
    requires
        settled(fs, d),
        fs.cp.seq + 1 < u64::MAX,
        fs.cp.log_head <= d.sectors.len(),
        plain_name(name),
        ({
            let (fs2, d2, r) = fs.write_outcome(d, name, data, None);
            &&& r == Ok::<Written, &'static str>(Written::Committed)
            &&& d2.write_result(crate::fs::slot_sector(1 - fs2.slot)) is Ok
        }),
    ensures
        ({
            let before = crate::intent_laws::entry_of(fs.cp.files, name);
            let (fs2, d2, _) = fs.write_outcome(d, name, data, None);
            let (fs3, d3, r) = fs2.set_entry_outcome(d2, name, before);
            let slot = crate::fs::slot_sector(1 - fs2.slot) as int;
            &&& r is Ok
            &&& fs3.cp.files == fs.cp.files
            &&& crate::intent_laws::entry_of(fs3.cp.files, name) == before
            &&& fs3.cp.log_head == fs2.cp.log_head
            &&& fs3.cp.seq == fs2.cp.seq + 1
            &&& d3.sectors.len() == d2.sectors.len()
            &&& slot == 1 || slot == 2
            &&& forall|i: int|
                0 <= i < d2.sectors.len() && i != slot ==> #[trigger] d3.sectors[i]
                    == d2.sectors[i]
            &&& crate::fs::root(d3.sectors) == Ok::<FsView, &'static str>(fs3)
            &&& forall|i: int|
                0 <= i < fs.cp.files.len() && in_log(fs, #[trigger] fs.cp.files[i])
                    ==> crate::fs::contents(d3.sectors, fs.cp.files[i]) == crate::fs::contents(
                    d.sectors,
                    fs.cp.files[i],
                )
            &&& before is None ==> forall|out: Seq<u8>| #[trigger]
                fs3.read_outcome(d3, name, out) == (
                    d3,
                    out,
                    Err::<usize, &'static str>("no such file"),
                )
        }),
{
    let before = crate::intent_laws::entry_of(fs.cp.files, name);
    let (fs2, d2, _) = fs.write_outcome(d, name, data, None);
    lemma_committed(fs, d, name, data);
    crate::fs_laws::lemma_entry_restored(fs, name, data);
    crate::fs_laws::putting_the_old_entry_back_undoes_a_write(fs, d, name, data, d2);
}

} // verus!
