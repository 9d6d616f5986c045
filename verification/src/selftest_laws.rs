//! What the crash-consistency test shows: five boots in a row.
use vstd::prelude::*;
use crate::selftest::CrashBoot;

verus! {

/// An answering disk in a phase of the test, with version `v` of the file committed
/// and readable.
pub open spec fn holds(
    d: crate::blk::DiskView,
    fs: crate::fs::FsView,
    v: u8,
    len: int,
    phase: u64,
) -> bool {
    let at = crate::fs::find_from(fs.cp.files, crate::selftest::FILE@, 0);
    let e = fs.cp.files[at->0];
    &&& d.steady()
    &&& crate::fs::phase_on(d) == phase
    &&& crate::fs_laws::settled(fs, d)
    &&& crate::selftest::in_numbers(fs)
    &&& fs.cp.log_head <= fs.audit_start <= d.sectors.len()
    &&& at is Some
    &&& e.size == len
    &&& e.sectors == crate::fs::sectors_for(len)
    &&& crate::fs_laws::in_log(fs, e)
    &&& crate::fs::contents(d.sectors, e) == crate::selftest::contents_of(v, len)
}

proof fn lemma_file_name()
    ensures
        crate::fs_laws::plain_name(crate::selftest::FILE@),
        vstd::utf8::encode_utf8(crate::selftest::FILE@).len() <= 28,
{
    reveal_strlit("hello.txt");
    let t = crate::selftest::FILE@;
    assert(vstd::utf8::is_ascii_chars(t));
    vstd::utf8::is_ascii_chars_encode_utf8(t);
}

/// The version that a disk holds is the one that is read.
proof fn lemma_verifies(
    d: crate::blk::DiskView,
    fs: crate::fs::FsView,
    v: u8,
    len: usize,
    phase: u64,
)
    requires
        holds(d, fs, v, len as int, phase),
    ensures
        crate::selftest::verified(fs, d, v, len) == (d, true),
{
    let at = crate::fs::find_from(fs.cp.files, crate::selftest::FILE@, 0);
    let e = fs.cp.files[at->0];
    let n = crate::fs::reads_needed(e.size, e.sectors);
    assert(d.readable(e.start, n) == n);
    assert(d.spent(n) =~= d);
    assert(crate::selftest::read_bytes(d, e, len as int) =~= crate::fs::contents(d.sectors, e));
}

/// Recording a phase touches nothing else.
proof fn lemma_phase(
    d: crate::blk::DiskView,
    fs: crate::fs::FsView,
    v: u8,
    len: int,
    before: u64,
    phase: u64,
)
    requires
        holds(d, fs, v, len, before),
        fs.cp.log_head >= 8,
    ensures
        holds(crate::selftest::with_phase(d, phase), fs, v, len, phase),
        crate::selftest::with_phase(d, phase).sectors.len() == d.sectors.len(),
{
    let d1 = crate::selftest::with_phase(d, phase);
    crate::fs::phase_round_trip(phase);
    crate::fs_laws::root_is_in_the_first_sectors(d.sectors, d1.sectors);
    let at = crate::fs::find_from(fs.cp.files, crate::selftest::FILE@, 0);
    let e = fs.cp.files[at->0];
    assert(crate::fs::contents(d1.sectors, e) =~= crate::fs::contents(d.sectors, e));
}

/// Room for one more version, on a disk whose driver answers.
spec fn roomy(d: crate::blk::DiskView, fs: crate::fs::FsView) -> bool {
    &&& d.steady()
    &&& crate::fs_laws::settled(fs, d)
    &&& crate::selftest::in_numbers(fs)
    &&& fs.cp.seq + 1 < u64::MAX
    &&& fs.cp.log_head + 4 <= fs.audit_start <= d.sectors.len()
    &&& fs.audit_start + 8 <= u64::MAX
    &&& !fs.no_room_for(crate::selftest::FILE@)
}

proof fn lemma_write_succeeds(d: crate::blk::DiskView, fs: crate::fs::FsView, data: Seq<u8>)
    requires
        roomy(d, fs),
        0 < data.len() <= 2048,
    ensures
        ({
            let (fs2, d2, w) = fs.write_outcome(d, crate::selftest::FILE@, data, None);
            &&& w == Ok::<crate::fs::Written, &'static str>(crate::fs::Written::Committed)
            &&& d2.steady()
        }),
{
    lemma_file_name();
    let writes = crate::fs::data_writes(fs.cp.log_head, data);
    assert forall|k: int| 0 <= k < writes.len() implies (#[trigger] writes[k]).0
        < d.sectors.len() by {}
    crate::blk::run_succeeds(d, writes);
    crate::blk::writes_touch_only_their_sectors(d, writes);
}

/// A version that is written is the one that the disk holds afterwards.
proof fn lemma_written(d: crate::blk::DiskView, fs: crate::fs::FsView, v: u8, len: u32)
    requires
        roomy(d, fs),
        0 < len <= 2048,
        crate::selftest::contents_of(v, len as int).len() == len,
    ensures
        ({
            let data = crate::selftest::contents_of(v, len as int);
            let (fs2, d2, w) = fs.write_outcome(d, crate::selftest::FILE@, data, None);
            &&& w is Ok
            &&& fs2 == fs.with_written(crate::selftest::FILE@, data)
            &&& d2.sectors.len() == d.sectors.len()
            &&& holds(d2, fs2, v, len as int, crate::fs::phase_on(d))
        }),
{
    let name = crate::selftest::FILE@;
    let data = crate::selftest::contents_of(v, len as int);
    lemma_file_name();
    lemma_write_succeeds(d, fs, data);
    let (fs2, d2, w) = fs.write_outcome(d, name, data, None);
    crate::fs_laws::crash_leaves_old_or_new(fs, d, name, data, None);
    crate::fs_laws::write_then_read(fs, d, name, data);
    lemma_kept(d, fs, data, fs2, d2);
}

proof fn lemma_kept(
    d: crate::blk::DiskView,
    fs: crate::fs::FsView,
    data: Seq<u8>,
    fs2: crate::fs::FsView,
    d2: crate::blk::DiskView,
)
    requires
        roomy(d, fs),
        0 < data.len() <= 2048,
        fs2 == fs.with_written(crate::selftest::FILE@, data),
        d2.steady(),
        d2.sectors.len() == d.sectors.len(),
        forall|i: int|
            3 <= i < fs.cp.log_head && i < d.sectors.len() ==> #[trigger] d2.sectors[i]
                == d.sectors[i],
    ensures
        fs2.wf(),
        crate::selftest::in_numbers(fs2),
        crate::fs::phase_on(d2) == crate::fs::phase_on(d),
{
    lemma_written_still_wf(fs, data);
    assert(d2.sectors[4] == d.sectors[4]);
    crate::fs::find_from_finds_the_first(fs.cp.files, crate::selftest::FILE@, 0);
    assert forall|i: int| 0 <= i < fs2.cp.files.len() implies (#[trigger] fs2.cp.files[i]).start
        + fs2.cp.files[i].sectors <= u64::MAX by {
        if i < fs.cp.files.len() {
            assert(fs.cp.files[i].start + fs.cp.files[i].sectors <= u64::MAX);
        }
    }
}

proof fn lemma_written_still_wf(fs: crate::fs::FsView, data: Seq<u8>)
    requires
        fs.wf(),
        !fs.no_room_for(crate::selftest::FILE@),
    ensures
        fs.with_written(crate::selftest::FILE@, data).wf(),
{
    lemma_file_name();
    let name = crate::selftest::FILE@;
    crate::fs::find_from_finds_the_first(fs.cp.files, name, 0);
    crate::fs_laws::name_field_reads_back(name);
}

#[verifier::rlimit(60)]
proof fn lemma_first_boot(d: crate::blk::DiskView, capacity: u64) -> (fs: crate::fs::FsView)
    requires
        d.steady(),
        capacity <= d.sectors.len(),
        capacity >= 18440 + 7,
        capacity + 8 <= u64::MAX,
        crate::fs::phase_on(d) == 0,
    ensures
        ({
            let (d2, r) = crate::selftest::crash_outcome(d, capacity);
            &&& r == CrashBoot::Prepared
            &&& holds(d2, fs, 1, 1100, 1)
            &&& fs.cp.seq == 2
            &&& fs.cp.log_head == 11
            &&& fs.audit_start == capacity - 18432
        }),
{
    crate::selftest::contents_have_their_length();
    let ws = crate::fs::format_writes(capacity);
    assert(d.after_read() =~= d);
    crate::blk::run_succeeds(d, ws);
    crate::blk::writes_touch_only_their_sectors(d, ws);
    crate::fs_laws::format_then_mount(d, capacity);
    let d1 = d.after_writes(ws).0;
    crate::file_laws::mounting_finds_the_root(d1);
    let fs = crate::fs::root(d1.sectors)->Ok_0;
    lemma_written(d1, fs, 1, 1100);
    let data = crate::selftest::contents_of(1, 1100);
    let (fs2, d2, w) = fs.write_outcome(d1, crate::selftest::FILE@, data, None);
    lemma_phase(d2, fs2, 1, 1100, crate::fs::phase_on(d1), 1);
    fs2
}

proof fn lemma_interrupted_boot(
    d: crate::blk::DiskView,
    capacity: u64,
    fs: crate::fs::FsView,
    phase: u64,
)
    requires
        phase == 1 || phase == 2,
        holds(d, fs, 1, 1100, phase),
        fs.cp.log_head + 4 <= fs.audit_start,
    ensures
        ({
            let (d2, r) = crate::selftest::crash_outcome(d, capacity);
            &&& r == CrashBoot::Interrupted(crate::selftest::cut_after(phase))
            &&& holds(d2, fs, 1, 1100, (phase + 1) as u64)
        }),
{
    crate::selftest::contents_have_their_length();
    lemma_file_name();
    assert(d.after_read() =~= d);
    crate::file_laws::mounting_finds_the_root(d);
    lemma_verifies(d, fs, 1, 1100, phase);
    let d3 = crate::selftest::with_phase(d, (phase + 1) as u64);
    lemma_phase(d, fs, 1, 1100, phase, (phase + 1) as u64);
    let name = crate::selftest::FILE@;
    let data = crate::selftest::contents_of(2, 1600);
    let c = crate::selftest::cut_after(phase);
    let writes = crate::fs::data_writes(fs.cp.log_head, data);
    crate::blk::run_succeeds(d3, writes.take(c as int));
    let (_, d4, w) = fs.write_outcome(d3, name, data, Some(c));
    crate::fs_laws::crash_leaves_old_or_new(fs, d3, name, data, Some(c));
    assert(d4.sectors[4] == d3.sectors[4]);
    let at = crate::fs::find_from(fs.cp.files, name, 0);
    let e = fs.cp.files[at->0];
    crate::fs_laws::written_extents_are_kept(d3.sectors, d4.sectors, fs, e);
}

proof fn lemma_recovery_boot(d: crate::blk::DiskView, capacity: u64, fs: crate::fs::FsView) -> (fs2:
    crate::fs::FsView)
    requires
        holds(d, fs, 1, 1100, 3),
        fs.cp.log_head + 4 <= fs.audit_start,
        fs.cp.seq + 1 < u64::MAX,
        fs.audit_start + 8 <= u64::MAX,
    ensures
        ({
            let (d2, r) = crate::selftest::crash_outcome(d, capacity);
            &&& r == CrashBoot::Recovered
            &&& holds(d2, fs2, 2, 1600, 4)
        }),
{
    crate::selftest::contents_have_their_length();
    assert(d.after_read() =~= d);
    crate::file_laws::mounting_finds_the_root(d);
    lemma_verifies(d, fs, 1, 1100, 3);
    lemma_written(d, fs, 2, 1600);
    let data = crate::selftest::contents_of(2, 1600);
    let (fs2, d3, w) = fs.write_outcome(d, crate::selftest::FILE@, data, None);
    lemma_phase(d3, fs2, 2, 1600, 3, 4);
    fs2
}

/// Five boots of a fresh disk whose driver answers: the file is committed, its
/// rewriting is cut short in the middle of the data, cut short again with only the
/// commit missing, both times leaving the old version whole, and then committed; the
/// new version is there on the next boot and on every one after it.
#[verifier::rlimit(30)]
pub proof fn the_crash_test_passes(d: crate::blk::DiskView, capacity: u64)
    requires
        d.steady(),
        crate::fs::SPILL_SECTORS + crate::fs::AUDIT_SECTORS + crate::fs::LOG_START + 7 <= capacity
            <= d.sectors.len(),
        capacity + 8 <= u64::MAX,
        crate::fs::phase_on(d) == 0,
    ensures
        ({
            let (d1, r1) = crate::selftest::crash_outcome(d, capacity);
            let (d2, r2) = crate::selftest::crash_outcome(d1, capacity);
            let (d3, r3) = crate::selftest::crash_outcome(d2, capacity);
            let (d4, r4) = crate::selftest::crash_outcome(d3, capacity);
            let (d5, r5) = crate::selftest::crash_outcome(d4, capacity);
            &&& r1 == CrashBoot::Prepared
            &&& r2 == CrashBoot::Interrupted(1)
            &&& r3 == CrashBoot::Interrupted(4)
            &&& r4 == CrashBoot::Recovered
            &&& r5 == CrashBoot::Complete(true)
            &&& crate::selftest::crash_outcome(d5, capacity).0.sectors == d5.sectors
            &&& crate::selftest::crash_outcome(d5, capacity).1 == CrashBoot::Complete(true)
        }),
{
    let (d1, r1) = crate::selftest::crash_outcome(d, capacity);
    let fs = lemma_first_boot(d, capacity);
    let (d2, r2) = crate::selftest::crash_outcome(d1, capacity);
    lemma_interrupted_boot(d1, capacity, fs, 1);
    let (d3, r3) = crate::selftest::crash_outcome(d2, capacity);
    lemma_interrupted_boot(d2, capacity, fs, 2);
    let (d4, r4) = crate::selftest::crash_outcome(d3, capacity);
    let fs4 = lemma_recovery_boot(d3, capacity, fs);
    let (d5, r5) = crate::selftest::crash_outcome(d4, capacity);
    lemma_last_boot(d4, capacity, fs4, 4);
    lemma_last_boot(d5, capacity, fs4, 5);
    let d6 = crate::selftest::crash_outcome(d5, capacity).0;
    assert(d6.sectors =~= d5.sectors);
}

proof fn lemma_last_boot(d: crate::blk::DiskView, capacity: u64, fs: crate::fs::FsView, phase: u64)
    requires
        phase == 4 || phase == 5,
        holds(d, fs, 2, 1600, phase),
    ensures
        crate::selftest::crash_outcome(d, capacity) == (
            crate::selftest::with_phase(d, 5),
            CrashBoot::Complete(true),
        ),
        holds(crate::selftest::with_phase(d, 5), fs, 2, 1600, 5),
{
    assert(d.after_read() =~= d);
    crate::file_laws::mounting_finds_the_root(d);
    lemma_verifies(d, fs, 2, 1600, phase);
    lemma_phase(d, fs, 2, 1600, phase, 5);
}

} // verus!
