//! The machine's own tests: what each boot checks, writes down and reports.
//!
//! They are sequenced by what earlier boots left on the disk, so each is a function
//! from a disk to a disk and a report.
use vstd::prelude::*;
use vstd::slice::slice_subrange;
use crate::blk::Disk;
use crate::bytes::{get_u64, push_bytes, push_u64, same_bytes};
use crate::cap::Cap;
use crate::fs::{mount, read_phase, text_in, write_phase, Fs};
use crate::mm::frames::Frames;
use crate::mm::ram::Ram;
use crate::proc::{create, install_cap, Table};
use crate::sched::{attach_process, spawn_stopped, start, Scheduler, State, Thread};

verus! {

// ---- starting a process ---------------------------------------------------------------------

/// Create a process, give it a capability, and let it run. `entry` is where its
/// kernel-side thread starts, and `stack` that thread's stack.
///
/// Stopped, then attached, then started: a thread that is visible is a thread that
/// is running, and one started before its address space was attached would be
/// scheduled with an empty one.
pub fn start_process(
    table: &mut Table,
    frames: &mut Frames,
    ram: &mut Ram,
    next_asid: &mut u64,
    s: &mut Scheduler,
    name: &'static str,
    image: &[u8],
    role: u64,
    cap: Option<Cap>,
    entry: u64,
    stack: u64,
) -> (r: Result<usize, &'static str>)
    requires
        crate::mm::paging::frames_in(*old(frames), *old(ram)),
        crate::elf::header_error(image@) is None ==> crate::elf::addressable(image@),
        stack + crate::sched::STACK_BYTES < crate::mm::PHYS_LIMIT,
    ensures
        crate::mm::paging::frames_in(*final(frames), *final(ram)),
        crate::proc::spaces_ok(old(table).procs@, *old(ram), *old(frames))
            ==> crate::proc::spaces_ok(final(table).procs@, *final(ram), *final(frames)),
        *final(next_asid) == (if old(frames).available() == 0 {
            *old(next_asid)
        } else {
            crate::mm::paging::asid_after(*old(next_asid))
        }),
        old(s).same_but_threads(*final(s)),
        match r {
            Ok(pid) => {
                let p = final(table).procs@[pid as int];
                let t = final(s).threads@.last();
                &&& pid == old(table).procs@.len()
                &&& final(table).procs@.len() == pid + 1
                &&& final(table).procs@.drop_last() == old(table).procs@
                &&& p.pid == pid && p.name == name && p.arg == role
                &&& p.entry == crate::elf::entry_of(image@)
                &&& p.exit_code is None
                &&& p.space.wf(*final(ram), *final(frames))
                &&& crate::proc::fresh_memory(image@, p.space, *final(ram), *final(frames))
                &&& p.caps@[0] == cap
                &&& forall|i: int| 1 <= i < 8 ==> (#[trigger] p.caps@[i]) is None
                &&& final(s).threads@.len() == old(s).threads@.len() + 1
                &&& final(s).threads@.drop_last() == old(s).threads@
                &&& t.state == State::Runnable
                &&& t.pid == Some(pid)
                &&& t.ttbr0 == (p.space.asid << 48) | p.space.root
                &&& crate::sched::created(
                    Thread { state: State::New, pid: None, ttbr0: old(s).empty_ttbr0, ..t },
                    *old(s),
                    old(s).threads@.len() as usize,
                    name,
                    entry,
                    pid as u64,
                    None,
                    stack,
                    State::New,
                )
            },
            Err(e) => {
                &&& crate::proc::create_error(image@, old(frames).available() as int, e)
                &&& final(table).procs@ == old(table).procs@
                &&& final(s).threads@ == old(s).threads@
            },
        },
{
    let ghost procs = table.procs@;
    let ghost ts = s.threads@;
    let pid: usize = match create(table, frames, ram, next_asid, name, image, role) {
        Err(e) => {
            return Err(e);
        },
        Ok(pid) => pid,
    };
    let ghost created = table.procs@;
    match cap {
        Some(c) => {
            let installed = install_cap(table, pid, 0, c);
            assert(installed is Ok);
        },
        None => {},
    }
    assert(table.procs@.drop_last() =~= procs);
    proof {
        if crate::proc::spaces_ok(procs, *old(ram), *old(frames)) {
            assert forall|i: int| 0 <= i < table.procs@.len() implies (
            #[trigger] table.procs@[i]).space == created[i].space by {}
            crate::proc::only_spaces_matter(created, table.procs@, *ram, *frames);
        }
    }
    let tid: usize = match spawn_stopped(s, name, entry, pid as u64, Some(stack)) {
        Some(tid) => tid,
        None => 0,
    };
    let ttbr0 = table.procs[pid].space.ttbr0();
    attach_process(s, tid, pid, ttbr0);
    start(s, tid);
    assert(s.threads@.drop_last() =~= ts);
    Ok(pid)
}

// ---- which cores ran ------------------------------------------------------------------------

/// The cores in a mask, of the first `n`, as digits.
pub open spec fn cores_in(mask: u64, n: int) -> Seq<u8>
    decreases n,
{
    if n <= 0 {
        Seq::empty()
    } else if mask & (1u64 << ((n - 1) as u64)) != 0 {
        cores_in(mask, n - 1).push((0x30 + (n - 1)) as u8)
    } else {
        cores_in(mask, n - 1)
    }
}

/// Render a core bitmask as digits, so a glance shows migration; a dash for none.
pub fn cores_str(mask: u64) -> (r: Vec<u8>)
    ensures
        r@ == (if cores_in(mask, 8).len() == 0 {
            seq![0x2du8]
        } else {
            cores_in(mask, 8)
        }),
{
    let mut out: Vec<u8> = Vec::new();
    let mut c: u64 = 0;
    while c < 8
        invariant
            c <= 8,
            out@ == cores_in(mask, c as int),
        decreases 8 - c,
    {
        if mask & (1u64 << c) != 0 {
            out.push(0x30 + c as u8);
        }
        c = c + 1;
    }
    if out.len() == 0 {
        out.push(0x2d);
        assert(out@ =~= seq![0x2du8]);
    }
    out
}

// ---- a record that outlives a boot ------------------------------------------------------------

/// Where the record lives. Sector 0 is left alone.
pub const RECORD_SECTOR: u64 = 64;

/// Recognises our own record and nothing else: "JUNGEY_1".
pub const RECORD_MAGIC: u64 = 0x4A55_4E47_4559_5F31;

pub const RECORD_TEXT: &'static str = "written by jungey os";

/// Byte `i` of the body of a record: the low bytes of two products, added without
/// carry, so a read that returns the right header but the wrong body is caught.
pub open spec fn pattern_of(i: int, boot: u64) -> u8 {
    ((i * 31) % 256) as u8 ^ ((boot * 131) % 256) as u8
}

pub fn pattern_byte(i: usize, boot: u64) -> (b: u8)
    ensures
        b == pattern_of(i as int, boot),
{
    let a: u8 = ((i % 256) * 31 % 256) as u8;
    let p: u8 = ((boot % 256) * 131 % 256) as u8;
    proof {
        vstd::arithmetic::div_mod::lemma_mul_mod_noop_left(i as int, 31, 256);
        vstd::arithmetic::div_mod::lemma_mul_mod_noop_left(boot as int, 131, 256);
    }
    a ^ p
}

/// A record's header: magic, boot, tick and text, padded to its body.
pub open spec fn record_head(boot: u64, ticks: u64) -> Seq<u8> {
    let text = vstd::utf8::encode_utf8(RECORD_TEXT@);
    crate::bytes::le64_bytes(RECORD_MAGIC) + crate::bytes::le64_bytes(boot)
        + crate::bytes::le64_bytes(ticks) + text + crate::fs::zeros(40 - text.len())
}

/// The record of a boot.
pub open spec fn record_bytes(boot: u64, ticks: u64) -> Seq<u8> {
    record_head(boot, ticks) + Seq::new(448, |i: int| pattern_of(64 + i, boot))
}

/// Build the record of a boot.
pub fn build_record(boot: u64, ticks: u64) -> (r: [u8; 512])
    ensures
        r@ == record_bytes(boot, ticks),
{
    let text = RECORD_TEXT.as_bytes();
    proof {
        lemma_record_text();
    }
    let mut head: Vec<u8> = Vec::new();
    push_u64(&mut head, RECORD_MAGIC);
    push_u64(&mut head, boot);
    push_u64(&mut head, ticks);
    push_bytes(&mut head, text);
    while head.len() < 64
        invariant
            text@ == vstd::utf8::encode_utf8(RECORD_TEXT@),
            text@.len() == 20,
            44 <= head@.len() <= 64,
            head@ == crate::bytes::le64_bytes(RECORD_MAGIC) + crate::bytes::le64_bytes(boot)
                + crate::bytes::le64_bytes(ticks) + text@ + crate::fs::zeros(head@.len() - 44),
        decreases 64 - head@.len(),
    {
        let ghost before = head@;
        head.push(0);
        assert(head@ =~= crate::bytes::le64_bytes(RECORD_MAGIC) + crate::bytes::le64_bytes(boot)
            + crate::bytes::le64_bytes(ticks) + text@ + crate::fs::zeros(before.len() + 1 - 44));
    }
    assert(head@ =~= record_head(boot, ticks));
    let mut out: [u8; 512] = [0;512];
    let mut i: usize = 0;
    while i < 512
        invariant
            i <= 512,
            head@ == record_head(boot, ticks),
            head@.len() == 64,
            forall|k: int| 0 <= k < i ==> out@[k] == record_bytes(boot, ticks)[k],
        decreases 512 - i,
    {
        if i < 64 {
            out[i] = head[i];
        } else {
            out[i] = pattern_byte(i, boot);
        }
        i = i + 1;
    }
    assert(out@ =~= record_bytes(boot, ticks));
    out
}

proof fn lemma_record_text()
    ensures
        vstd::utf8::encode_utf8(RECORD_TEXT@).len() == 20,
        RECORD_TEXT@.len() == 20,
        forall|i: int|
            0 <= i < 20 ==> #[trigger] vstd::utf8::encode_utf8(RECORD_TEXT@)[i] != 0,
{
    reveal_strlit("written by jungey os");
    let t = RECORD_TEXT@;
    assert(t.len() == 20);
    assert(vstd::utf8::is_ascii_chars(t)) by {
        assert forall|i: int| 0 <= i < 20 implies (0 <= t[i] as u32 && (t[i] as u32) < 128) by {}
    }
    vstd::utf8::is_ascii_chars_encode_utf8(t);
}

/// What the last boot left behind.
pub struct Record<'a> {
    pub boot: u64,
    pub ticks: u64,
    pub text: &'a str,
    /// Bytes of the body that are not what they should be.
    pub bad: usize,
}

/// How many bytes of a body differ from the pattern, up to byte `n`.
pub open spec fn bad_upto(raw: Seq<u8>, boot: u64, n: int) -> int
    decreases n,
{
    if n <= 64 {
        0
    } else {
        bad_upto(raw, boot, n - 1) + if raw[n - 1] != pattern_of(n - 1, boot) {
            1int
        } else {
            0
        }
    }
}

/// Read the record in a sector; `None` where this disk has never been written by us.
pub fn read_record<'a>(raw: &'a [u8; 512]) -> (r: Option<Record<'a>>)
    ensures
        match r {
            None => crate::bytes::le64(raw@, 0) != RECORD_MAGIC,
            Some(rec) => {
                &&& crate::bytes::le64(raw@, 0) == RECORD_MAGIC
                &&& rec.boot == crate::bytes::le64(raw@, 8)
                &&& rec.ticks == crate::bytes::le64(raw@, 16)
                &&& rec.text@ == crate::fs::field_text(raw@.subrange(24, 64))
                &&& rec.bad == bad_upto(raw@, rec.boot, 512)
            },
        },
{
    if get_u64(raw, 0) != RECORD_MAGIC {
        return None;
    }
    let boot = get_u64(raw, 8);
    let ticks = get_u64(raw, 16);
    let text = text_in(slice_subrange(raw, 24, 64));
    // The body has to match too, or a stale-but-plausible header passes.
    let mut bad: usize = 0;
    let mut i: usize = 64;
    while i < 512
        invariant
            64 <= i <= 512,
            bad <= i,
            bad == bad_upto(raw@, boot, i as int),
        decreases 512 - i,
    {
        if raw[i] != pattern_byte(i, boot) {
            bad = bad + 1;
        }
        i = i + 1;
    }
    Some(Record { boot, ticks, text, bad })
}

/// The number of this boot, given the record of the last.
pub fn next_boot(previous: Option<u64>) -> (boot: u64)
    ensures
        boot == (match previous {
            Some(b) => b.wrapping_add(1),
            None => 1,
        }),
{
    match previous {
        Some(b) => b.wrapping_add(1),
        None => 1,
    }
}

/// How many of the first `n` bytes differ.
pub open spec fn differing_upto(a: Seq<u8>, b: Seq<u8>, n: int) -> int
    decreases n,
{
    if n <= 0 {
        0
    } else {
        differing_upto(a, b, n - 1) + if a[n - 1] != b[n - 1] {
            1int
        } else {
            0
        }
    }
}

/// How many bytes of two sectors differ.
pub fn differing(a: &[u8; 512], b: &[u8; 512]) -> (n: usize)
    ensures
        n == differing_upto(a@, b@, 512),
{
    let mut n: usize = 0;
    let mut i: usize = 0;
    while i < 512
        invariant
            i <= 512,
            n <= i,
            n == differing_upto(a@, b@, i as int),
        decreases 512 - i,
    {
        if a[i] != b[i] {
            n = n + 1;
        }
        i = i + 1;
    }
    n
}

proof fn lemma_no_bad(raw: Seq<u8>, boot: u64, n: int)
    requires
        forall|i: int| 64 <= i < n ==> #[trigger] raw[i] == pattern_of(i, boot),
    ensures
        bad_upto(raw, boot, n) == 0,
    decreases n,
{
    if n > 64 {
        lemma_no_bad(raw, boot, n - 1);
    }
}

/// A sector written on one boot is understood on the next: the boot and the tick
/// read back, and no byte of the body is out of place.
pub proof fn a_record_reads_back(boot: u64, ticks: u64)
    ensures
        ({
            let raw = record_bytes(boot, ticks);
            &&& raw.len() == 512
            &&& crate::bytes::le64(raw, 0) == RECORD_MAGIC
            &&& crate::bytes::le64(raw, 8) == boot
            &&& crate::bytes::le64(raw, 16) == ticks
            &&& crate::fs::field_text(raw.subrange(24, 64)) == RECORD_TEXT@
            &&& bad_upto(raw, boot, 512) == 0
        }),
{
    lemma_record_text();
    let raw = record_bytes(boot, ticks);
    let head = record_head(boot, ticks);
    assert(head.len() == 64);
    assert(raw.subrange(0, 8) =~= crate::bytes::le64_bytes(RECORD_MAGIC));
    crate::bytes::le64_reads_back(raw, 0, RECORD_MAGIC);
    assert(raw.subrange(8, 16) =~= crate::bytes::le64_bytes(boot));
    crate::bytes::le64_reads_back(raw, 8, boot);
    assert(raw.subrange(16, 24) =~= crate::bytes::le64_bytes(ticks));
    crate::bytes::le64_reads_back(raw, 16, ticks);
    let text = vstd::utf8::encode_utf8(RECORD_TEXT@);
    let field = raw.subrange(24, 64);
    assert(field =~= text + crate::fs::zeros(20));
    lemma_text_ends(field, 0);
    assert(field.take(20) =~= text);
    vstd::utf8::encode_utf8_decode_utf8(RECORD_TEXT@);
    vstd::utf8::encode_utf8_valid_utf8(RECORD_TEXT@);
    assert forall|i: int| 64 <= i < 512 implies #[trigger] raw[i] == pattern_of(i, boot) by {}
    lemma_no_bad(raw, boot, 512);
}

proof fn lemma_text_ends(field: Seq<u8>, i: int)
    requires
        field.len() == 40,
        0 <= i <= 20,
        forall|k: int| 0 <= k < 20 ==> #[trigger] field[k] != 0,
        field[20] == 0,
    ensures
        crate::fs::first_nul(field, i) == 20,
    decreases 20 - i,
{
    if i < 20 {
        lemma_text_ends(field, i + 1);
    }
}

/// What a boot of the persistence test came to.
pub enum RecordBoot {
    ReadFailed(&'static str),
    WriteFailed(&'static str),
    ReadBackFailed(&'static str),
    /// The sector as the last boot left it, the number of this boot, and how many
    /// bytes came back other than they were written.
    Done { found: [u8; 512], boot: u64, differing: usize },
}

/// The number of the boot that finds `raw` in the record's sector.
pub open spec fn boot_after(raw: Seq<u8>) -> u64 {
    if crate::bytes::le64(raw, 0) == RECORD_MAGIC {
        crate::bytes::le64(raw, 8).wrapping_add(1)
    } else {
        1
    }
}

/// A sector written on one boot is there on the next. One boot of the test that says
/// so: read what the last one left behind, leave a record of this one, and read it
/// straight back.
pub fn record_test(disk: &mut Disk, ticks: u64) -> (r: RecordBoot)
    ensures
        ({
            let d = old(disk)@;
            let d1 = d.after_read();
            match d.read_result(RECORD_SECTOR) {
                Err(e) => r == RecordBoot::ReadFailed(e) && final(disk)@ == d1,
                Ok(raw) => {
                    let out = record_bytes(boot_after(raw), ticks);
                    let d2 = d1.after_write(RECORD_SECTOR, out);
                    match d1.write_result(RECORD_SECTOR) {
                        Err(e) => r == RecordBoot::WriteFailed(e) && final(disk)@ == d2,
                        Ok(_) => {
                            &&& final(disk)@ == d2.after_read()
                            &&& match d2.read_result(RECORD_SECTOR) {
                                Err(e) => r == RecordBoot::ReadBackFailed(e),
                                Ok(check) => r matches RecordBoot::Done { found, boot, differing }
                                    && found@ == raw && boot == boot_after(raw) && differing
                                    == differing_upto(check, out, 512),
                            }
                        },
                    }
                },
            }
        }),
{
    let mut found: [u8; 512] = [0;512];
    match disk.read_sector(RECORD_SECTOR, &mut found) {
        Err(e) => {
            return RecordBoot::ReadFailed(e);
        },
        Ok(_) => {},
    }
    let previous = match read_record(&found) {
        Some(rec) => Some(rec.boot),
        None => None,
    };
    let boot = next_boot(previous);
    let out = build_record(boot, ticks);
    match disk.write_sector(RECORD_SECTOR, &out) {
        Err(e) => {
            return RecordBoot::WriteFailed(e);
        },
        Ok(_) => {},
    }
    let mut check: [u8; 512] = [0;512];
    match disk.read_sector(RECORD_SECTOR, &mut check) {
        Err(e) => {
            return RecordBoot::ReadBackFailed(e);
        },
        Ok(_) => {},
    }
    RecordBoot::Done { found, boot, differing: differing(&check, &out) }
}

proof fn lemma_same_sector(a: Seq<u8>, n: int)
    ensures
        differing_upto(a, a, n) == 0,
    decreases n,
{
    if n > 0 {
        lemma_same_sector(a, n - 1);
    }
}

/// A sector written on one boot is there on the next: while the driver answers, what
/// is read straight back is what was written, and the next boot finds it whole and
/// counts on from it.
pub proof fn a_record_outlives_its_boot(d: crate::blk::DiskView, ticks: u64)
    requires
        d.steady(),
        RECORD_SECTOR < d.sectors.len(),
    ensures
        ({
            let boot = boot_after(d.sectors[64]);
            let out = record_bytes(boot, ticks);
            let d2 = d.after_read().after_write(RECORD_SECTOR, out);
            let d3 = d2.after_read();
            &&& d2.read_result(RECORD_SECTOR) == Ok::<Seq<u8>, &'static str>(out)
            &&& d3.read_result(RECORD_SECTOR) == Ok::<Seq<u8>, &'static str>(out)
            &&& differing_upto(out, out, 512) == 0
            &&& boot_after(out) == boot.wrapping_add(1)
            &&& bad_upto(out, boot, 512) == 0
        }),
{
    let boot = boot_after(d.sectors[64]);
    a_record_reads_back(boot, ticks);
    lemma_same_sector(record_bytes(boot, ticks), 512);
}

// ---- the crash-consistency test -----------------------------------------------------------------

/// The file that is written, interrupted, and read.
pub const FILE: &'static str = "hello.txt";

/// Three sectors, so a partial write is possible.
pub const V1_LEN: usize = 1100;

pub const V2_LEN: usize = 1600;

pub const HEADER_1: &'static str = "v1: written before the crash test\n";

pub const HEADER_2: &'static str = "v2: written after the crash test\n";

/// The first line of a version.
pub open spec fn header_of(v: u8) -> Seq<u8> {
    vstd::utf8::encode_utf8(
        if v == 1 {
            HEADER_1@
        } else {
            HEADER_2@
        },
    )
}

/// The contents of a version, so a read can be checked byte for byte.
pub open spec fn contents_of(v: u8, len: int) -> Seq<u8> {
    let h = header_of(v);
    h + Seq::new(
        if len < h.len() {
            0
        } else {
            (len - h.len()) as nat
        },
        |k: int| (((h.len() + k) * 7) % 256) as u8 ^ ((v * 97) % 256) as u8,
    )
}

/// Deterministic file contents for version `v`.
pub fn contents(v: u8, len: usize) -> (out: Vec<u8>)
    ensures
        out@ == contents_of(v, len as int),
{
    let header = if v == 1 {
        HEADER_1.as_bytes()
    } else {
        HEADER_2.as_bytes()
    };
    let mut out: Vec<u8> = Vec::new();
    push_bytes(&mut out, header);
    let ghost h = header_of(v);
    assert(out@ =~= h);
    let mix: u8 = ((v as u32 * 97) % 256) as u8;
    let ghost f = |k: int| (((h.len() + k) * 7) % 256) as u8 ^ ((v * 97) % 256) as u8;
    assert(h + Seq::new(0, f) =~= h);
    while out.len() < len
        invariant
            h == header_of(v),
            h.len() <= out@.len(),
            out@.len() <= len || out@.len() == h.len(),
            mix == (v * 97) % 256,
            f == (|k: int| (((h.len() + k) * 7) % 256) as u8 ^ ((v * 97) % 256) as u8),
            out@ == h + Seq::new((out@.len() - h.len()) as nat, f),
        decreases len - out@.len(),
    {
        let ghost before = out@;
        let at: usize = out.len();
        let b: u8 = ((at % 256) * 7 % 256) as u8;
        proof {
            vstd::arithmetic::div_mod::lemma_mul_mod_noop_left(at as int, 7, 256);
        }
        out.push(b ^ mix);
        assert(out@ =~= h + Seq::new((before.len() + 1 - h.len()) as nat, f));
    }
    assert(out@ =~= contents_of(v, len as int));
    out
}

/// Every sector that a filesystem names has a number, and its counters have room for
/// one more version.
pub open spec fn in_numbers(fs: crate::fs::FsView) -> bool {
    &&& fs.cp.seq < u64::MAX
    &&& fs.cp.log_head + 8 <= u64::MAX
    &&& forall|i: int|
        0 <= i < fs.cp.files.len() ==> (#[trigger] fs.cp.files[i]).start + fs.cp.files[i].sectors
            <= u64::MAX
}

fn check_numbers(f: &Fs) -> (r: bool)
    requires
        f.wf(),
    ensures
        r == in_numbers(f@),
{
    if f.cp.seq == u64::MAX || f.cp.log_head > u64::MAX - 8 {
        return false;
    }
    let mut i: usize = 0;
    while i < f.cp.count
        invariant
            i <= f.cp.count <= 8,
            forall|k: int|
                0 <= k < i ==> (#[trigger] f@.cp.files[k]).start + f@.cp.files[k].sectors
                    <= u64::MAX,
        decreases f.cp.count - i,
    {
        assert(f@.cp.files[i as int] == f.cp.files@[i as int]@);
        if f.cp.files[i].start > u64::MAX - f.cp.files[i].sectors as u64 {
            return false;
        }
        i = i + 1;
    }
    true
}

/// What reading a file of `len` bytes puts in a blank buffer.
pub open spec fn read_bytes(d: crate::blk::DiskView, e: crate::fs::EntryView, len: int) -> Seq<u8> {
    let n = crate::fs::reads_needed(e.size, e.sectors);
    let got = d.readable(e.start, n);
    Seq::new(
        len as nat,
        |i: int|
            if i < e.size && i < 512 * got {
                crate::fs::extent_byte(d.sectors, e.start, i)
            } else {
                0u8
            },
    )
}

/// Whether the file holds version `v`, and the disk after looking.
pub open spec fn verified(
    fs: crate::fs::FsView,
    d: crate::blk::DiskView,
    v: u8,
    len: usize,
) -> (crate::blk::DiskView, bool) {
    match fs.read_target(FILE@, len as nat) {
        Err(_) => (d, false),
        Ok(e) => {
            let (d1, r) = d.after_reads(e.start, crate::fs::reads_needed(e.size, e.sectors));
            (d1, r is Ok && e.size == len && read_bytes(d, e, len as int) == contents_of(
                v,
                len as int,
            ))
        },
    }
}

/// Check that the file holds version `v`, byte for byte.
pub fn verify(f: &Fs, disk: &mut Disk, v: u8, len: usize) -> (ok: bool)
    requires
        f.wf(),
        in_numbers(f@),
    ensures
        (final(disk)@, ok) == verified(f@, old(disk)@, v, len),
{
    let want = contents(v, len);
    let mut got: Vec<u8> = Vec::new();
    let mut i: usize = 0;
    while i < len
        invariant
            i <= len,
            got@ == Seq::new(i as nat, |k: int| 0u8),
        decreases len - i,
    {
        got.push(0);
        assert(got@ =~= Seq::new((i + 1) as nat, |k: int| 0u8));
        i = i + 1;
    }
    let ghost d0 = disk@;
    proof {
        crate::fs::find_from_finds_the_first(f@.cp.files, FILE@, 0);
    }
    let r = f.read(disk, FILE, got.as_mut_slice());
    match r {
        Err(_) => false,
        Ok(n) => {
            proof {
                let e = f@.read_target(FILE@, len as nat)->Ok_0;
                assert(got@ =~= read_bytes(d0, e, len as int));
            }
            n == len && same_bytes(got.as_slice(), want.as_slice())
        },
    }
}

/// What a boot of the test came to.
#[derive(Clone, Copy, Debug, PartialEq, Eq)]
pub enum CrashBoot {
    FormatFailed(&'static str),
    MountFailed(&'static str),
    WriteFailed(&'static str),
    /// The filesystem names sectors that have no number.
    OutOfNumbers,
    /// A fresh filesystem with one committed file.
    Prepared,
    /// An interrupted write was partly visible.
    Torn,
    /// The old version is whole; a write of the new one was cut short after so many
    /// sectors.
    Interrupted(u32),
    /// The write that was to be cut short failed before it came to that.
    NotInterrupted(&'static str),
    /// A fully written but uncommitted file was invisible; the new version is
    /// committed now.
    Recovered,
    /// Whether the new version survived.
    Complete(bool),
}

/// The disk with a phase recorded.
pub open spec fn with_phase(d: crate::blk::DiskView, phase: u64) -> crate::blk::DiskView {
    d.after_write(crate::fs::TEST_STATE_SECTOR, crate::fs::phase_sector(phase))
}

/// How many sectors the interrupted write of a phase gets to write: one, and then
/// every one of them with only the commit missing.
pub open spec fn cut_after(phase: u64) -> u32 {
    if phase == 1 {
        1
    } else {
        4
    }
}

/// The first boot: lay down a filesystem and one committed file.
pub open spec fn prepare(d: crate::blk::DiskView, capacity: u64) -> (
    crate::blk::DiskView,
    CrashBoot,
) {
    let (d1, r) = d.after_writes(crate::fs::format_writes(capacity));
    match r {
        Err(e) => (d1, CrashBoot::FormatFailed(e)),
        Ok(_) => {
            let (d2, m) = crate::fs::mount_result(d1);
            match m {
                Err(e) => (d2, CrashBoot::MountFailed(e)),
                Ok(fs) => if !in_numbers(fs) {
                    (d2, CrashBoot::OutOfNumbers)
                } else {
                    let (_, d3, w) = fs.write_outcome(d2, FILE@, contents_of(1, 1100), None);
                    match w {
                        Err(e) => (d3, CrashBoot::WriteFailed(e)),
                        Ok(_) => (with_phase(d3, 1), CrashBoot::Prepared),
                    }
                },
            }
        },
    }
}

/// The boots that lose power on purpose.
pub open spec fn interrupt(d: crate::blk::DiskView, phase: u64) -> (
    crate::blk::DiskView,
    CrashBoot,
) {
    let (d1, m) = crate::fs::mount_result(d);
    match m {
        Err(e) => (d1, CrashBoot::MountFailed(e)),
        Ok(fs) => if !in_numbers(fs) {
            (d1, CrashBoot::OutOfNumbers)
        } else {
            let (d2, ok) = verified(fs, d1, 1, V1_LEN);
            if !ok {
                (d2, CrashBoot::Torn)
            } else {
                // The next phase is recorded before the crash, or this boot repeats
                // forever.
                let d3 = with_phase(d2, (phase + 1) as u64);
                let (_, d4, w) = fs.write_outcome(
                    d3,
                    FILE@,
                    contents_of(2, 1600),
                    Some(cut_after(phase)),
                );
                match w {
                    Err(e) => (d4, CrashBoot::NotInterrupted(e)),
                    Ok(_) => (d4, CrashBoot::Interrupted(cut_after(phase))),
                }
            }
        },
    }
}

/// The boot after the last crash.
pub open spec fn recover(d: crate::blk::DiskView) -> (crate::blk::DiskView, CrashBoot) {
    let (d1, m) = crate::fs::mount_result(d);
    match m {
        Err(e) => (d1, CrashBoot::MountFailed(e)),
        Ok(fs) => if !in_numbers(fs) {
            (d1, CrashBoot::OutOfNumbers)
        } else {
            let (d2, ok) = verified(fs, d1, 1, V1_LEN);
            if !ok {
                (d2, CrashBoot::Torn)
            } else {
                let (_, d3, w) = fs.write_outcome(d2, FILE@, contents_of(2, 1600), None);
                match w {
                    Err(e) => (d3, CrashBoot::WriteFailed(e)),
                    Ok(_) => (with_phase(d3, 4), CrashBoot::Recovered),
                }
            }
        },
    }
}

/// Every boot after that.
pub open spec fn confirm(d: crate::blk::DiskView) -> (crate::blk::DiskView, CrashBoot) {
    let (d1, m) = crate::fs::mount_result(d);
    match m {
        Err(e) => (d1, CrashBoot::MountFailed(e)),
        Ok(fs) => if !in_numbers(fs) {
            (d1, CrashBoot::OutOfNumbers)
        } else {
            let (d2, ok) = verified(fs, d1, 2, V2_LEN);
            (with_phase(d2, 5), CrashBoot::Complete(ok))
        },
    }
}

/// Everything one boot of the test does.
pub open spec fn crash_outcome(d: crate::blk::DiskView, capacity: u64) -> (
    crate::blk::DiskView,
    CrashBoot,
) {
    let phase = crate::fs::phase_on(d);
    let d1 = d.after_read();
    if phase == 0 {
        prepare(d1, capacity)
    } else if phase == 1 || phase == 2 {
        interrupt(d1, phase)
    } else if phase == 3 {
        recover(d1)
    } else {
        confirm(d1)
    }
}

/// The two versions of the file are as long as they say.
pub proof fn contents_have_their_length()
    ensures
        contents_of(1, 1100).len() == 1100,
        contents_of(2, 1600).len() == 1600,
        FILE@ == "hello.txt"@,
{
    reveal_strlit("v1: written before the crash test\n");
    reveal_strlit("v2: written after the crash test\n");
    assert(vstd::utf8::is_ascii_chars(HEADER_1@));
    assert(vstd::utf8::is_ascii_chars(HEADER_2@));
    vstd::utf8::is_ascii_chars_encode_utf8(HEADER_1@);
    vstd::utf8::is_ascii_chars_encode_utf8(HEADER_2@);
}

/// A write cut short by a power failure leaves the filesystem mountable, holding
/// either the old contents or the new. One boot of the test that says so: it spans
/// five, and sequences itself through a phase marker stored outside the filesystem.
pub fn crash_test(disk: &mut Disk, capacity: u64) -> (r: CrashBoot)
    requires
        capacity >= crate::fs::SPILL_SECTORS + crate::fs::AUDIT_SECTORS + crate::fs::LOG_START,
    ensures
        (final(disk)@, r) == crash_outcome(old(disk)@, capacity),
{
    proof {
        contents_have_their_length();
    }
    let phase = read_phase(disk);
    if phase == 0 {
        match crate::fs::format(disk, capacity) {
            Err(e) => {
                return CrashBoot::FormatFailed(e);
            },
            Ok(_) => {},
        }
    }
    let mut f = match mount(disk) {
        Err(e) => {
            return CrashBoot::MountFailed(e);
        },
        Ok(f) => f,
    };
    if !check_numbers(&f) {
        return CrashBoot::OutOfNumbers;
    }
    if phase == 0 {
        let v1 = contents(1, V1_LEN);
        match f.write(disk, FILE, v1.as_slice(), None) {
            Err(e) => {
                return CrashBoot::WriteFailed(e);
            },
            Ok(_) => {},
        }
        let _ = write_phase(disk, 1);
        return CrashBoot::Prepared;
    }
    if phase > 3 {
        let ok = verify(&f, disk, 2, V2_LEN);
        let _ = write_phase(disk, 5);
        return CrashBoot::Complete(ok);
    }
    if !verify(&f, disk, 1, V1_LEN) {
        return CrashBoot::Torn;
    }
    let v2 = contents(2, V2_LEN);
    if phase == 3 {
        match f.write(disk, FILE, v2.as_slice(), None) {
            Err(e) => {
                return CrashBoot::WriteFailed(e);
            },
            Ok(_) => {},
        }
        let _ = write_phase(disk, 4);
        return CrashBoot::Recovered;
    }
    let _ = write_phase(disk, phase + 1);
    let point: u32 = if phase == 1 {
        1
    } else {
        4
    };
    match f.write(disk, FILE, v2.as_slice(), Some(point)) {
        Err(e) => CrashBoot::NotInterrupted(e),
        Ok(_) => CrashBoot::Interrupted(point),
    }
}

} // verus!
