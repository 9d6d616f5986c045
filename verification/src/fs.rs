//! JLFS — a small log-structured filesystem.
//!
//! On-disk shape:
//!
//! ```text
//!   sector 0      superblock          static after format
//!   sector 1      checkpoint A    \   alternately written; the newer valid
//!   sector 2      checkpoint B    /   one is the filesystem's root
//!   sector 4      test state          used by the crash test, not by the fs
//!   sector 8..    log                 append-only data
//! ```
//!
//! Committing is one sector write. Data is appended to the log first and the
//! checkpoint second, so a crash either loses the checkpoint — and with it every
//! trace of the unfinished write — or lands after it, with the data already
//! durable. [`crash_leaves_old_or_new`] is that sentence as a theorem.
use vstd::prelude::*;
use vstd::slice::slice_subrange;
use crate::blk::Disk;
use crate::bytes::{from_utf8, get_u32, get_u64, push_bytes, push_u32, push_u64, same_text};

verus! {

pub const SB_SECTOR: u64 = 0;

/// Sectors reserved at the top of the disk for cache spill. Recorded in the
/// superblock, so the log refuses to grow into them.
pub const SPILL_SECTORS: u64 = 16384;

/// Sectors reserved for the action log, below the spill region.
pub const AUDIT_SECTORS: u64 = 2048;

pub const TEST_STATE_SECTOR: u64 = 4;

pub const LOG_START: u64 = 8;

pub const SB_MAGIC: u64 = 0x4A4C_4653_5F53_4230;  // "JLFS_SB0"

pub const CP_MAGIC: u64 = 0x4A4C_4653_5F43_5030;  // "JLFS_CP0"

pub const TEST_MAGIC: u64 = 0x4A4C_4653_5445_5354;  // "JLFSTEST"

/// Files per checkpoint: a flat directory that fits in one sector.
pub const MAX_FILES: usize = 8;

pub const MAX_NAME: usize = 28;

// ---- checksums ------------------------------------------------------------

/// One step of the reflected CRC-32 shift register.
pub open spec fn crc_bit(crc: u32) -> u32 {
    if crc & 1 == 1 {
        (crc >> 1) ^ 0xEDB8_8320
    } else {
        crc >> 1
    }
}

/// `n` steps of the shift register.
pub open spec fn crc_bits(crc: u32, n: nat) -> u32
    decreases n,
{
    if n == 0 {
        crc
    } else {
        crc_bit(crc_bits(crc, (n - 1) as nat))
    }
}

/// The register after `data` has been fed in, least significant bit first.
pub open spec fn crc_register(data: Seq<u8>) -> u32
    decreases data.len(),
{
    if data.len() == 0 {
        0xFFFF_FFFF
    } else {
        crc_bits(crc_register(data.drop_last()) ^ (data.last() as u32), 8)
    }
}

/// CRC-32 (IEEE).
pub open spec fn crc32_of(data: Seq<u8>) -> u32 {
    !crc_register(data)
}

/// CRC-32 (IEEE), computed bitwise.
pub fn crc32(data: &[u8]) -> (r: u32)
    ensures
        r == crc32_of(data@),
{
    let mut crc: u32 = 0xFFFF_FFFF;
    let mut i: usize = 0;
    while i < data.len()
        invariant
            i <= data@.len(),
            crc == crc_register(data@.take(i as int)),
        decreases data@.len() - i,
    {
        assert(data@.take(i + 1).drop_last() =~= data@.take(i as int));
        assert(data@.take(i + 1).last() == data@[i as int]);
        let ghost fed = crc ^ (data@[i as int] as u32);
        crc = crc ^ (data[i] as u32);
        let mut k: u32 = 0;
        while k < 8
            invariant
                k <= 8,
                crc == crc_bits(fed, k as nat),
            decreases 8 - k,
        {
            if crc & 1 == 1 {
                crc = (crc >> 1) ^ 0xEDB8_8320;
            } else {
                crc = crc >> 1;
            }
            k = k + 1;
        }
        i = i + 1;
    }
    assert(data@.take(i as int) =~= data@);
    !crc
}

/// `body` with its CRC behind it.
pub open spec fn sealed(body: Seq<u8>) -> Seq<u8> {
    body + crate::bytes::le32_bytes(crc32_of(body))
}

/// Does a sector's CRC match its contents?
pub open spec fn is_intact(raw: Seq<u8>) -> bool {
    crc32_of(raw.take(508)) == crate::bytes::le32(raw, 508)
}

/// What has been sealed is intact.
pub proof fn sealed_is_intact(body: Seq<u8>)
    requires
        body.len() == 508,
    ensures
        is_intact(sealed(body)),
{
    let raw = sealed(body);
    assert(raw.take(508) =~= body);
    assert(raw.subrange(508, 512) =~= crate::bytes::le32_bytes(crc32_of(body)));
    crate::bytes::le32_reads_back(raw, 508, crc32_of(body));
}

/// Does a sector's CRC match its contents?
pub fn intact(sector: &[u8; 512]) -> (r: bool)
    ensures
        r == is_intact(sector@),
{
    let body = slice_subrange(sector, 0, 508);
    assert(body@ =~= sector@.take(508));
    crc32(body) == get_u32(sector, 508)
}

/// A run of zero bytes.
pub open spec fn zeros(n: int) -> Seq<u8> {
    Seq::new(n as nat, |i: int| 0u8)
}

/// Append zero bytes until there are `len`.
fn pad_to(out: &mut Vec<u8>, len: usize)
    requires
        old(out)@.len() <= len,
    ensures
        final(out)@ == old(out)@ + zeros(len - old(out)@.len()),
{
    let ghost base = out@;
    while out.len() < len
        invariant
            base.len() <= out@.len() <= len,
            out@ == base + zeros(out@.len() - base.len()),
        decreases len - out@.len(),
    {
        let ghost before = out@;
        out.push(0);
        assert(out@ =~= base + zeros(before.len() + 1 - base.len()));
    }
}

/// Pad a sector's contents, stamp the CRC over everything before it, and give
/// the sector.
pub fn seal(contents: &Vec<u8>) -> (r: [u8; 512])
    requires
        contents@.len() <= 508,
    ensures
        r@ == sealed(contents@ + zeros(508 - contents@.len())),
{
    let mut out: Vec<u8> = Vec::new();
    push_bytes(&mut out, contents.as_slice());
    assert(out@ =~= contents@);
    pad_to(&mut out, 508);
    let crc = crc32(out.as_slice());
    push_u32(&mut out, crc);
    let mut raw: [u8; 512] = [0u8; 512];
    let mut i: usize = 0;
    while i < 512
        invariant
            i <= 512,
            out@.len() == 512,
            forall|j: int| 0 <= j < i ==> raw@[j] == out@[j],
        decreases 512 - i,
    {
        raw[i] = out[i];
        i = i + 1;
    }
    assert(raw@ =~= out@);
    raw
}

// ---- directory entries ----------------------------------------------------

/// A directory entry as a mathematical value.
#[verifier::ext_equal]
pub struct EntryView {
    pub name: Seq<u8>,
    pub size: u32,
    pub start: u64,
    pub sectors: u32,
}

/// The first index at or after `i` where `b` holds a zero, or its length.
pub open spec fn first_nul(b: Seq<u8>, i: int) -> int
    decreases b.len() - i,
{
    if i >= b.len() || b[i] == 0 {
        i
    } else {
        first_nul(b, i + 1)
    }
}

/// The text of a NUL-padded name field.
pub open spec fn field_text(b: Seq<u8>) -> Seq<char> {
    match crate::bytes::text_of(b.take(first_nul(b, 0))) {
        Some(t) => t,
        None => "<invalid>"@,
    }
}

#[derive(Clone, Copy)]
pub struct FileEntry {
    pub name: [u8; 28],
    pub size: u32,
    pub start: u64,
    pub sectors: u32,
}

impl View for FileEntry {
    type V = EntryView;

    open spec fn view(&self) -> EntryView {
        EntryView { name: self.name@, size: self.size, start: self.start, sectors: self.sectors }
    }
}

/// The text of a NUL-padded field, or a placeholder where it is not UTF-8.
pub fn text_in(field: &[u8]) -> (r: &str)
    ensures
        r@ == field_text(field@),
{
    let mut end: usize = 0;
    while end < field.len() && field[end] != 0
        invariant
            end <= field@.len(),
            first_nul(field@, 0) == first_nul(field@, end as int),
        decreases field@.len() - end,
    {
        end = end + 1;
    }
    let used = slice_subrange(field, 0, end);
    assert(used@ =~= field@.take(first_nul(field@, 0)));
    match from_utf8(used) {
        Some(s) => s,
        None => "<invalid>",
    }
}

/// A place in the directory that names no file.
pub open spec fn no_entry() -> EntryView {
    EntryView { name: zeros(28), size: 0, start: 0, sectors: 0 }
}

impl FileEntry {
    pub fn empty() -> (e: FileEntry)
        ensures
            e@ == no_entry(),
    {
        let e = FileEntry { name: [0u8; 28], size: 0, start: 0, sectors: 0 };
        assert(e@.name =~= zeros(28));
        e
    }

    /// The file's name, up to the first NUL.
    pub fn name_str(&self) -> (r: &str)
        ensures
            r@ == field_text(self@.name),
    {
        text_in(&self.name)
    }
}

// ---- checkpoints ----------------------------------------------------------

/// A checkpoint as a mathematical value: only the entries in use.
#[verifier::ext_equal]
pub struct CheckpointView {
    pub seq: u64,
    pub log_head: u64,
    pub files: Seq<EntryView>,
}

impl CheckpointView {
    pub open spec fn wf(self) -> bool {
        &&& self.files.len() <= 8
        &&& forall|i: int| 0 <= i < self.files.len() ==> (#[trigger] self.files[i]).name.len() == 28
    }
}

pub struct Checkpoint {
    pub seq: u64,
    pub log_head: u64,
    pub files: [FileEntry; 8],
    pub count: usize,
}

impl View for Checkpoint {
    type V = CheckpointView;

    open spec fn view(&self) -> CheckpointView {
        CheckpointView {
            seq: self.seq,
            log_head: self.log_head,
            files: Seq::new(self.count as nat, |i: int| self.files@[i]@),
        }
    }
}

/// The 48 bytes of one directory entry.
pub open spec fn entry_bytes(e: EntryView) -> Seq<u8> {
    e.name + crate::bytes::le32_bytes(e.size) + crate::bytes::le64_bytes(e.start)
        + crate::bytes::le32_bytes(e.sectors) + zeros(4)
}

/// The directory entry that 48 bytes at `at` describe.
pub open spec fn entry_at(raw: Seq<u8>, at: int) -> EntryView {
    EntryView {
        name: raw.subrange(at, at + 28),
        size: crate::bytes::le32(raw, at + 28),
        start: crate::bytes::le64(raw, at + 32),
        sectors: crate::bytes::le32(raw, at + 40),
    }
}

/// Directory entries back to back.
pub open spec fn directory_bytes(files: Seq<EntryView>) -> Seq<u8>
    decreases files.len(),
{
    if files.len() == 0 {
        Seq::empty()
    } else {
        directory_bytes(files.drop_last()) + entry_bytes(files.last())
    }
}

/// What a checkpoint sector holds before padding and CRC.
pub open spec fn checkpoint_contents(cp: CheckpointView) -> Seq<u8> {
    crate::bytes::le64_bytes(CP_MAGIC) + crate::bytes::le64_bytes(cp.seq)
        + crate::bytes::le64_bytes(cp.log_head) + crate::bytes::le32_bytes(cp.files.len() as u32)
        + zeros(4) + directory_bytes(cp.files)
}

/// A checkpoint sector.
pub open spec fn checkpoint_sector(cp: CheckpointView) -> Seq<u8> {
    let c = checkpoint_contents(cp);
    sealed(c + zeros(508 - c.len()))
}

/// The checkpoint a sector holds, if it holds a valid one.
pub open spec fn decoded(raw: Seq<u8>) -> Option<CheckpointView> {
    if crate::bytes::le64(raw, 0) != CP_MAGIC || !is_intact(raw) {
        None
    } else if crate::bytes::le32(raw, 24) > 8 {
        None
    } else {
        Some(
            CheckpointView {
                seq: crate::bytes::le64(raw, 8),
                log_head: crate::bytes::le64(raw, 16),
                files: Seq::new(
                    crate::bytes::le32(raw, 24) as nat,
                    |i: int| entry_at(raw, 32 + 48 * i),
                ),
            },
        )
    }
}

proof fn lemma_directory_len(files: Seq<EntryView>)
    requires
        forall|i: int| 0 <= i < files.len() ==> (#[trigger] files[i]).name.len() == 28,
    ensures
        directory_bytes(files).len() == 48 * files.len(),
    decreases files.len(),
{
    if files.len() > 0 {
        assert forall|i: int| 0 <= i < files.drop_last().len() implies (
        #[trigger] files.drop_last()[i]).name.len() == 28 by {
            assert(files.drop_last()[i] == files[i]);
        }
        lemma_directory_len(files.drop_last());
        assert(files.last() == files[files.len() - 1]);
    }
}

proof fn lemma_directory_entry(files: Seq<EntryView>, i: int)
    requires
        forall|i: int| 0 <= i < files.len() ==> (#[trigger] files[i]).name.len() == 28,
        0 <= i < files.len(),
    ensures
        directory_bytes(files).len() == 48 * files.len(),
        directory_bytes(files).subrange(48 * i, 48 * i + 48) == entry_bytes(files[i]),
    decreases files.len(),
{
    lemma_directory_len(files);
    let head = files.drop_last();
    assert forall|k: int| 0 <= k < head.len() implies (#[trigger] head[k]).name.len() == 28 by {
        assert(head[k] == files[k]);
    }
    lemma_directory_len(head);
    if i < files.len() - 1 {
        lemma_directory_entry(head, i);
        assert(head[i] == files[i]);
        assert(directory_bytes(files).subrange(48 * i, 48 * i + 48) =~= directory_bytes(
            head,
        ).subrange(48 * i, 48 * i + 48));
    } else {
        assert(files.last() == files[i]);
        assert(directory_bytes(files).subrange(48 * i, 48 * i + 48) =~= entry_bytes(files[i]));
    }
}

proof fn lemma_entry_reads_back(raw: Seq<u8>, at: int, e: EntryView)
    requires
        0 <= at,
        at + 48 <= raw.len(),
        e.name.len() == 28,
        raw.subrange(at, at + 48) == entry_bytes(e),
    ensures
        entry_at(raw, at) == e,
{
    let b = raw.subrange(at, at + 48);
    assert(raw.subrange(at, at + 28) =~= b.subrange(0, 28));
    assert(b.subrange(0, 28) =~= e.name);
    assert(raw.subrange(at + 28, at + 32) =~= b.subrange(28, 32));
    assert(b.subrange(28, 32) =~= crate::bytes::le32_bytes(e.size));
    crate::bytes::le32_reads_back(raw, at + 28, e.size);
    assert(raw.subrange(at + 32, at + 40) =~= b.subrange(32, 40));
    assert(b.subrange(32, 40) =~= crate::bytes::le64_bytes(e.start));
    crate::bytes::le64_reads_back(raw, at + 32, e.start);
    assert(raw.subrange(at + 40, at + 44) =~= b.subrange(40, 44));
    assert(b.subrange(40, 44) =~= crate::bytes::le32_bytes(e.sectors));
    crate::bytes::le32_reads_back(raw, at + 40, e.sectors);
}

/// A checkpoint that has been written reads back as itself.
pub proof fn checkpoint_round_trip(cp: CheckpointView)
    requires
        cp.wf(),
    ensures
        checkpoint_sector(cp).len() == 512,
        decoded(checkpoint_sector(cp)) == Some(cp),
{
    let raw = checkpoint_sector(cp);
    let c = checkpoint_contents(cp);
    lemma_directory_len(cp.files);
    assert(c.len() == 32 + 48 * cp.files.len());
    let body = c + zeros(508 - c.len());
    assert(body.len() == 508);
    sealed_is_intact(body);
    assert(raw.subrange(0, 8) =~= crate::bytes::le64_bytes(CP_MAGIC));
    crate::bytes::le64_reads_back(raw, 0, CP_MAGIC);
    assert(raw.subrange(8, 16) =~= crate::bytes::le64_bytes(cp.seq));
    crate::bytes::le64_reads_back(raw, 8, cp.seq);
    assert(raw.subrange(16, 24) =~= crate::bytes::le64_bytes(cp.log_head));
    crate::bytes::le64_reads_back(raw, 16, cp.log_head);
    assert(raw.subrange(24, 28) =~= crate::bytes::le32_bytes(cp.files.len() as u32));
    crate::bytes::le32_reads_back(raw, 24, cp.files.len() as u32);
    let d = decoded(raw)->0;
    assert forall|i: int| 0 <= i < cp.files.len() implies d.files[i] == cp.files[i] by {
        lemma_directory_entry(cp.files, i);
        assert(raw.subrange(32 + 48 * i, 32 + 48 * i + 48) =~= directory_bytes(cp.files).subrange(
            48 * i,
            48 * i + 48,
        ));
        lemma_entry_reads_back(raw, 32 + 48 * i, cp.files[i]);
    }
    assert(d.files =~= cp.files);
}

impl Checkpoint {
    /// There is room for eight files, and the places of the others are empty.
    pub open spec fn wf(&self) -> bool {
        &&& self.count <= 8
        &&& forall|i: int| self.count <= i < 8 ==> (#[trigger] self.files@[i])@ == no_entry()
    }

    /// The root of a fresh filesystem.
    pub fn new() -> (cp: Checkpoint)
        ensures
            cp.wf(),
            cp@ == (CheckpointView { seq: 1, log_head: LOG_START, files: Seq::empty() }),
    {
        let blank = FileEntry::empty();
        let cp = Checkpoint { seq: 1, log_head: LOG_START, files: [blank; 8], count: 0 };
        assert(cp@.files =~= Seq::empty());
        cp
    }

    pub fn decode(raw: &[u8; 512]) -> (r: Option<Checkpoint>)
        ensures
            match r {
                Some(cp) => cp.wf() && decoded(raw@) == Some(cp@),
                None => decoded(raw@) is None,
            },
    {
        if get_u64(raw, 0) != CP_MAGIC || !intact(raw) {
            return None;
        }
        let count32 = get_u32(raw, 24);
        if count32 > 8 {
            return None;
        }
        let count: usize = count32 as usize;
        let blank = FileEntry::empty();
        let mut files: [FileEntry; 8] = [blank; 8];
        let mut i: usize = 0;
        while i < count
            invariant
                i <= count <= 8,
                forall|k: int| 0 <= k < i ==> (#[trigger] files@[k])@ == entry_at(raw@, 32 + 48 * k),
                forall|k: int| i <= k < 8 ==> (#[trigger] files@[k])@ == no_entry(),
            decreases count - i,
        {
            let at: usize = 32 + i * 48;
            let mut name: [u8; 28] = [0u8; 28];
            let mut j: usize = 0;
            while j < 28
                invariant
                    j <= 28,
                    i < 8,
                    at == 32 + i * 48,
                    forall|k: int| 0 <= k < j ==> name@[k] == raw@[at + k],
                decreases 28 - j,
            {
                name[j] = raw[at + j];
                j = j + 1;
            }
            let e = FileEntry {
                name,
                size: get_u32(raw, at + 28),
                start: get_u64(raw, at + 32),
                sectors: get_u32(raw, at + 40),
            };
            assert(e@.name =~= raw@.subrange(at as int, at + 28));
            files[i] = e;
            i = i + 1;
        }
        let cp = Checkpoint { seq: get_u64(raw, 8), log_head: get_u64(raw, 16), files, count };
        assert(cp@.files =~= (decoded(raw@)->0).files);
        Some(cp)
    }

    pub fn encode(&self) -> (raw: [u8; 512])
        requires
            self.count <= 8,
        ensures
            raw@ == checkpoint_sector(self@),
    {
        let mut out: Vec<u8> = Vec::new();
        push_u64(&mut out, CP_MAGIC);
        push_u64(&mut out, self.seq);
        push_u64(&mut out, self.log_head);
        push_u32(&mut out, self.count as u32);
        pad_to(&mut out, 32);
        let ghost head = out@;
        assert(head =~= crate::bytes::le64_bytes(CP_MAGIC) + crate::bytes::le64_bytes(self.seq)
            + crate::bytes::le64_bytes(self.log_head) + crate::bytes::le32_bytes(self.count as u32)
            + zeros(4));
        let mut i: usize = 0;
        while i < self.count
            invariant
                i <= self.count <= 8,
                head.len() == 32,
                out@ == head + directory_bytes(self@.files.take(i as int)),
                out@.len() == 32 + 48 * i,
            decreases self.count - i,
        {
            let ghost before = out@;
            let e = self.files[i];
            push_bytes(&mut out, &e.name);
            push_u32(&mut out, e.size);
            push_u64(&mut out, e.start);
            push_u32(&mut out, e.sectors);
            let end: usize = 32 + (i + 1) * 48;
            pad_to(&mut out, end);
            let ghost upto = self@.files.take(i + 1);
            assert(upto.drop_last() =~= self@.files.take(i as int));
            assert(upto.last() == e@);
            assert(out@ =~= head + directory_bytes(upto));
            i = i + 1;
        }
        assert(self@.files.take(i as int) =~= self@.files);
        seal(&out)
    }
}

// ---- the filesystem ---------------------------------------------------------

/// A mounted filesystem as a mathematical value.
#[verifier::ext_equal]
pub struct FsView {
    pub cp: CheckpointView,
    pub spill_start: u64,
    pub spill_sectors: u64,
    pub audit_start: u64,
    pub audit_sectors: u64,
    pub slot: int,
    pub total_sectors: u64,
}

pub struct Fs {
    pub cp: Checkpoint,
    /// First sector of the reserved spill region.
    pub spill_start: u64,
    pub spill_sectors: u64,
    /// First sector of the action log: the filesystem's own log stops here.
    pub audit_start: u64,
    pub audit_sectors: u64,
    /// Which checkpoint slot the live root is in. The next commit writes the
    /// other one, so a torn write can never damage the root we booted from.
    pub slot: usize,
    pub total_sectors: u64,
}

impl View for Fs {
    type V = FsView;

    open spec fn view(&self) -> FsView {
        FsView {
            cp: self.cp@,
            spill_start: self.spill_start,
            spill_sectors: self.spill_sectors,
            audit_start: self.audit_start,
            audit_sectors: self.audit_sectors,
            slot: self.slot as int,
            total_sectors: self.total_sectors,
        }
    }
}

/// The sector checkpoint slot `slot` lives in.
pub open spec fn slot_sector(slot: int) -> u64 {
    if slot == 0 {
        1
    } else {
        2
    }
}

/// What the superblock of a disk of `total` sectors holds.
pub open spec fn superblock_contents(total: u64) -> Seq<u8> {
    let spill = (total - SPILL_SECTORS) as u64;
    let audit = (spill - AUDIT_SECTORS) as u64;
    crate::bytes::le64_bytes(SB_MAGIC) + crate::bytes::le32_bytes(1) + crate::bytes::le64_bytes(
        total,
    ) + crate::bytes::le64_bytes(LOG_START) + crate::bytes::le64_bytes((audit - LOG_START) as u64)
        + crate::bytes::le64_bytes(spill) + crate::bytes::le64_bytes(SPILL_SECTORS)
        + crate::bytes::le64_bytes(audit) + crate::bytes::le64_bytes(AUDIT_SECTORS)
}

/// The superblock sector of a disk of `total` sectors.
pub open spec fn superblock_sector(total: u64) -> Seq<u8> {
    sealed(superblock_contents(total) + zeros(508 - 68))
}

pub open spec fn fresh_checkpoint() -> CheckpointView {
    CheckpointView { seq: 1, log_head: LOG_START, files: Seq::empty() }
}

/// The writes that lay down a fresh filesystem, in order.
pub open spec fn format_writes(total: u64) -> Seq<(u64, Seq<u8>)> {
    let audit = total - SPILL_SECTORS - AUDIT_SECTORS;
    seq![
        (SB_SECTOR, superblock_sector(total)),
        (2u64, zeros(512)),
        (1u64, checkpoint_sector(fresh_checkpoint())),
    ] + Seq::new(AUDIT_SECTORS as nat, |i: int| ((audit + i) as u64, zeros(512)))
}

/// Lay down a fresh filesystem: superblock, then one valid checkpoint. Slot B is
/// left invalid on purpose, and the action log is started empty: every sector of its
/// region is cleared, or a record of a previous filesystem that happens to follow the
/// last one written would be taken for part of the new chain.
pub fn format(disk: &mut Disk, total_sectors: u64) -> (r: Result<(), &'static str>)
    requires
        total_sectors >= SPILL_SECTORS + AUDIT_SECTORS + LOG_START,
    ensures
        (final(disk)@, r) == old(disk)@.after_writes(format_writes(total_sectors)),
{
    let ghost d0 = disk@;
    let ghost ws = format_writes(total_sectors);
    let spill_start: u64 = total_sectors - SPILL_SECTORS;
    let audit_start: u64 = spill_start - AUDIT_SECTORS;
    let mut sb: Vec<u8> = Vec::new();
    push_u64(&mut sb, SB_MAGIC);
    push_u32(&mut sb, 1);
    push_u64(&mut sb, total_sectors);
    push_u64(&mut sb, LOG_START);
    push_u64(&mut sb, audit_start - LOG_START);
    push_u64(&mut sb, spill_start);
    push_u64(&mut sb, SPILL_SECTORS);
    push_u64(&mut sb, audit_start);
    push_u64(&mut sb, AUDIT_SECTORS);
    assert(sb@ =~= superblock_contents(total_sectors));
    let raw = seal(&sb);
    let blank: [u8; 512] = [0u8; 512];
    assert(blank@ =~= zeros(512));

    assert(ws.take(0) =~= Seq::empty());
    assert(ws.take(1) =~= ws.take(0).push(ws[0]));
    assert(ws.take(2) =~= ws.take(1).push(ws[1]));
    assert(ws.take(3) =~= ws.take(2).push(ws[2]));

    let r0 = disk.write_sector(SB_SECTOR, &raw);
    proof {
        crate::blk::run_extends(d0, ws.take(0), ws[0].0, ws[0].1);
    }
    if r0.is_err() {
        proof {
            crate::blk::failed_run_stops(d0, ws, 1);
        }
        return r0;
    }
    let r1 = disk.write_sector(2, &blank);
    proof {
        crate::blk::run_extends(d0, ws.take(1), ws[1].0, ws[1].1);
    }
    if r1.is_err() {
        proof {
            crate::blk::failed_run_stops(d0, ws, 2);
        }
        return r1;
    }
    let fresh = Checkpoint::new().encode();
    let r2 = disk.write_sector(1, &fresh);
    proof {
        crate::blk::run_extends(d0, ws.take(2), ws[2].0, ws[2].1);
    }
    if r2.is_err() {
        proof {
            crate::blk::failed_run_stops(d0, ws, 3);
        }
        return r2;
    }
    let mut i: u64 = 0;
    while i < AUDIT_SECTORS
        invariant
            i <= AUDIT_SECTORS,
            audit_start == total_sectors - SPILL_SECTORS - AUDIT_SECTORS,
            total_sectors >= SPILL_SECTORS + AUDIT_SECTORS + LOG_START,
            blank@ == zeros(512),
            ws == format_writes(total_sectors),
            d0 == old(disk)@,
            (disk@, Ok::<(), &'static str>(())) == d0.after_writes(ws.take(3 + i)),
        decreases AUDIT_SECTORS - i,
    {
        let r = disk.write_sector(audit_start + i, &blank);
        proof {
            assert(ws[3 + i] == ((audit_start + i) as u64, blank@));
            crate::blk::run_extends(d0, ws.take(3 + i), (audit_start + i) as u64, blank@);
            assert(ws.take(3 + i).push(ws[3 + i]) =~= ws.take(3 + i + 1));
        }
        if r.is_err() {
            proof {
                crate::blk::failed_run_stops(d0, ws, 3 + i + 1);
            }
            return r;
        }
        i = i + 1;
    }
    assert(ws.take(3 + i) =~= ws);
    Ok(())
}

/// The root that a superblock and the two checkpoint slots describe.
pub open spec fn root_of(sb: Seq<u8>, a: Seq<u8>, b: Seq<u8>) -> Result<FsView, &'static str> {
    let with = |cp: CheckpointView, slot: int|
        FsView {
            cp,
            slot,
            total_sectors: crate::bytes::le64(sb, 12),
            spill_start: crate::bytes::le64(sb, 36),
            spill_sectors: crate::bytes::le64(sb, 44),
            audit_start: crate::bytes::le64(sb, 52),
            audit_sectors: crate::bytes::le64(sb, 60),
        };
    match (decoded(a), decoded(b)) {
        (Some(x), Some(y)) => if y.seq > x.seq {
            Ok(with(y, 1))
        } else {
            Ok(with(x, 0))
        },
        (Some(x), None) => Ok(with(x, 0)),
        (None, Some(y)) => Ok(with(y, 1)),
        (None, None) => Err("no valid checkpoint: filesystem is unrecoverable"),
    }
}

/// Why a superblock is not one, if it is not.
pub open spec fn superblock_error(sb: Seq<u8>) -> Option<&'static str> {
    if crate::bytes::le64(sb, 0) != SB_MAGIC {
        Some("not a JLFS filesystem")
    } else if !is_intact(sb) {
        Some("superblock checksum mismatch")
    } else {
        None
    }
}

/// What mounting a device gives, and the device afterwards.
pub open spec fn mount_result(d: crate::blk::DiskView) -> (
    crate::blk::DiskView,
    Result<FsView, &'static str>,
) {
    let d1 = d.after_read();
    let d2 = d1.after_read();
    let d3 = d2.after_read();
    match d.read_result(0) {
        Err(e) => (d1, Err(e)),
        Ok(sb) => match superblock_error(sb) {
            Some(e) => (d1, Err(e)),
            None => match d1.read_result(1) {
                Err(e) => (d2, Err(e)),
                Ok(a) => match d2.read_result(2) {
                    Err(e) => (d3, Err(e)),
                    Ok(b) => (d3, root_of(sb, a, b)),
                },
            },
        },
    }
}

/// The filesystem that a device holds, once its driver answers.
pub open spec fn root(sectors: Seq<Seq<u8>>) -> Result<FsView, &'static str> {
    mount_result(crate::blk::resting(sectors)).1
}

/// Read the superblock and adopt the newer of the two valid checkpoints.
pub fn mount(disk: &mut Disk) -> (r: Result<Fs, &'static str>)
    ensures
        final(disk)@ == mount_result(old(disk)@).0,
        match r {
            Ok(fs) => fs.wf() && mount_result(old(disk)@).1 == Ok::<FsView, &'static str>(fs@),
            Err(e) => mount_result(old(disk)@).1 == Err::<FsView, &'static str>(e),
        },
{
    let mut sb: [u8; 512] = [0u8; 512];
    match disk.read_sector(SB_SECTOR, &mut sb) {
        Err(e) => {
            return Err(e);
        },
        Ok(_) => {},
    }
    if get_u64(&sb, 0) != SB_MAGIC {
        return Err("not a JLFS filesystem");
    }
    if !intact(&sb) {
        return Err("superblock checksum mismatch");
    }
    let mut a: [u8; 512] = [0u8; 512];
    match disk.read_sector(1, &mut a) {
        Err(e) => {
            return Err(e);
        },
        Ok(_) => {},
    }
    let mut b: [u8; 512] = [0u8; 512];
    match disk.read_sector(2, &mut b) {
        Err(e) => {
            return Err(e);
        },
        Ok(_) => {},
    }
    // A slot that fails to decode is not an error: it is either never written,
    // or the half-written casualty of a crash.
    let (slot, cp) = match (Checkpoint::decode(&a), Checkpoint::decode(&b)) {
        (Some(x), Some(y)) => if y.seq > x.seq {
            (1usize, y)
        } else {
            (0usize, x)
        },
        (Some(x), None) => (0usize, x),
        (None, Some(y)) => (1usize, y),
        (None, None) => {
            return Err("no valid checkpoint: filesystem is unrecoverable");
        },
    };
    Ok(
        Fs {
            cp,
            slot,
            total_sectors: get_u64(&sb, 12),
            spill_start: get_u64(&sb, 36),
            spill_sectors: get_u64(&sb, 44),
            audit_start: get_u64(&sb, 52),
            audit_sectors: get_u64(&sb, 60),
        },
    )
}

/// The first entry at or after `i` whose name reads `name`.
pub open spec fn find_from(files: Seq<EntryView>, name: Seq<char>, i: int) -> Option<int>
    decreases files.len() - i,
{
    if i >= files.len() {
        None
    } else if field_text(files[i].name) == name {
        Some(i)
    } else {
        find_from(files, name, i + 1)
    }
}

/// What `find_from` finds is in range, reads `name`, and is the first to.
pub proof fn find_from_finds_the_first(files: Seq<EntryView>, name: Seq<char>, i: int)
    requires
        0 <= i <= files.len(),
    ensures
        match find_from(files, name, i) {
            Some(k) => i <= k < files.len() && field_text(files[k].name) == name && forall|j: int|
                i <= j < k ==> field_text(#[trigger] files[j].name) != name,
            None => forall|j: int|
                i <= j < files.len() ==> field_text(#[trigger] files[j].name) != name,
        },
    decreases files.len() - i,
{
    if i < files.len() && field_text(files[i].name) != name {
        find_from_finds_the_first(files, name, i + 1);
    }
}

/// Sectors needed for `len` bytes.
pub open spec fn sectors_for(len: int) -> int {
    (len + 511) / 512
}

/// Sector `s` of `data`, padded with zeros.
pub open spec fn sector_of(data: Seq<u8>, s: int) -> Seq<u8> {
    Seq::new(
        512,
        |j: int|
            if 512 * s + j < data.len() {
                data[512 * s + j]
            } else {
                0u8
            },
    )
}

/// The writes that append `data` to the log at `start`.
pub open spec fn data_writes(start: u64, data: Seq<u8>) -> Seq<(u64, Seq<u8>)> {
    Seq::new(
        sectors_for(data.len() as int) as nat,
        |s: int| ((start + s) as u64, sector_of(data, s)),
    )
}

/// A name field: the name's bytes, padded with zeros.
pub open spec fn name_field(name: Seq<char>) -> Seq<u8> {
    let b = vstd::utf8::encode_utf8(name);
    b + zeros(28 - b.len())
}

/// How a write ended, where it did not fail.
#[derive(Clone, Copy, Debug, PartialEq, Eq, Structural)]
pub enum Written {
    /// The file is durable and visible.
    Committed,
    /// The requested power cut point was reached: the caller switches the
    /// machine off. This many data sectors had landed.
    PowerCut { data_sectors: u32 },
}

impl CheckpointView {
    /// The checkpoint with `name` naming `e`, and the log grown to `head`.
    pub open spec fn with_file(self, name: Seq<char>, e: EntryView, head: u64) -> CheckpointView {
        CheckpointView {
            seq: (self.seq + 1) as u64,
            log_head: head,
            files: match find_from(self.files, name, 0) {
                Some(i) => self.files.update(i, e),
                None => self.files.push(e),
            },
        }
    }
}

impl FsView {
    pub open spec fn wf(self) -> bool {
        self.cp.wf() && 0 <= self.slot <= 1
    }

    /// The entry a write of `data` as `name` would make.
    pub open spec fn new_entry(self, name: Seq<char>, data: Seq<u8>) -> EntryView {
        EntryView {
            name: name_field(name),
            size: data.len() as u32,
            start: self.cp.log_head,
            sectors: sectors_for(data.len() as int) as u32,
        }
    }

    /// The filesystem once a write of `data` as `name` has committed.
    pub open spec fn with_written(self, name: Seq<char>, data: Seq<u8>) -> FsView {
        FsView {
            cp: self.cp.with_file(
                name,
                self.new_entry(name, data),
                (self.cp.log_head + sectors_for(data.len() as int)) as u64,
            ),
            slot: 1 - self.slot,
            ..self
        }
    }

    /// Whether the directory has no room for a file called `name`.
    pub open spec fn no_room_for(self, name: Seq<char>) -> bool {
        find_from(self.cp.files, name, 0) is None && self.cp.files.len() == 8
    }

    /// Why a write is refused before anything is written, if it is.
    pub open spec fn write_refused(self, name: Seq<char>, data: Seq<u8>) -> Option<&'static str> {
        if vstd::utf8::encode_utf8(name).len() > 28 {
            Some("name too long")
        } else if self.cp.log_head + sectors_for(data.len() as int) > self.audit_start {
            Some("log is full")
        } else {
            None
        }
    }

    /// Putting `next` in the slot the live root is not in.
    pub open spec fn commit(self, d: crate::blk::DiskView, next: FsView) -> (
        FsView,
        crate::blk::DiskView,
        Result<(), &'static str>,
    ) {
        let sector = slot_sector(1 - self.slot);
        let r = d.write_result(sector);
        (
            if r is Ok {
                next
            } else {
                self
            },
            d.after_write(sector, checkpoint_sector(next.cp)),
            r,
        )
    }

    /// Everything a write does: the filesystem and the device afterwards, and
    /// what is returned.
    pub open spec fn write_outcome(
        self,
        d: crate::blk::DiskView,
        name: Seq<char>,
        data: Seq<u8>,
        crash_after: Option<u32>,
    ) -> (FsView, crate::blk::DiskView, Result<Written, &'static str>) {
        let writes = data_writes(self.cp.log_head, data);
        match self.write_refused(name, data) {
            Some(e) => (self, d, Err(e)),
            None => match crash_after {
                Some(c) if c <= writes.len() => {
                    let (d1, r1) = d.after_writes(writes.take(c as int));
                    match r1 {
                        Err(e) => (self, d1, Err(e)),
                        Ok(_) => (self, d1, Ok(Written::PowerCut { data_sectors: c })),
                    }
                },
                _ => {
                    let (d1, r1) = d.after_writes(writes);
                    match r1 {
                        Err(e) => (self, d1, Err(e)),
                        Ok(_) => if self.no_room_for(name) {
                            (self, d1, Err("directory is full"))
                        } else {
                            let (fs2, d2, r2) = self.commit(d1, self.with_written(name, data));
                            match r2 {
                                Err(e) => (fs2, d2, Err(e)),
                                Ok(_) => (fs2, d2, Ok(Written::Committed)),
                            }
                        },
                    }
                },
            },
        }
    }
}

impl Fs {
    pub open spec fn wf(&self) -> bool {
        self.cp.wf() && self.slot <= 1
    }

    /// The directory.
    pub fn files(&self) -> (r: &[FileEntry])
        requires
            self.wf(),
        ensures
            r@.len() == self@.cp.files.len(),
            forall|i: int| 0 <= i < r@.len() ==> (#[trigger] r@[i])@ == self@.cp.files[i],
    {
        slice_subrange(&self.cp.files, 0, self.cp.count)
    }

    /// The index of the first entry called `name`.
    pub fn find(&self, name: &str) -> (r: Option<usize>)
        requires
            self.wf(),
        ensures
            match r {
                Some(i) => find_from(self@.cp.files, name@, 0) == Some(i as int) && i
                    < self@.cp.files.len(),
                None => find_from(self@.cp.files, name@, 0) is None,
            },
    {
        let mut i: usize = 0;
        while i < self.cp.count
            invariant
                self.wf(),
                i <= self.cp.count,
                find_from(self@.cp.files, name@, 0) == find_from(self@.cp.files, name@, i as int),
            decreases self.cp.count - i,
        {
            if same_text(self.cp.files[i].name_str(), name) {
                return Some(i);
            }
            i = i + 1;
        }
        None
    }

    /// Append `data` to the log and make it visible as `name`.
    ///
    /// `crash_after` stops once that many data sectors have landed, which is
    /// the whole crash test. `Some(0)` through `Some(n-1)` cut power part way
    /// through the data; `Some(n)` cuts it with every byte on the disk and only
    /// the checkpoint missing.
    pub fn write(
        &mut self,
        disk: &mut Disk,
        name: &str,
        data: &[u8],
        crash_after: Option<u32>,
    ) -> (r: Result<Written, &'static str>)
        requires
            old(self).wf(),
            old(self).cp.seq < u64::MAX,
            old(self).cp.log_head + sectors_for(data@.len() as int) <= u64::MAX,
            data@.len() <= u32::MAX,
        ensures
            final(self).wf(),
            (final(self)@, final(disk)@, r) == old(self)@.write_outcome(
                old(disk)@,
                name@,
                data@,
                crash_after,
            ),
    {
        let ghost fs0 = self@;
        let ghost d0 = disk@;
        let bytes = name.as_bytes();
        if bytes.len() > MAX_NAME {
            return Err("name too long");
        }
        let sectors: u32 = if data.len() % 512 == 0 {
            (data.len() / 512) as u32
        } else {
            (data.len() / 512 + 1) as u32
        };
        assert(sectors == sectors_for(data@.len() as int));
        let start = self.cp.log_head;
        if start + sectors as u64 > self.audit_start {
            return Err("log is full");
        }
        let ghost ws = data_writes(start, data@);

        // Step one: the data. Nothing points at it yet, so a crash here costs
        // only the space.
        let mut sector: [u8; 512] = [0u8; 512];
        let mut s: u32 = 0;
        assert(ws.take(0) =~= Seq::empty());
        while s < sectors
            invariant
                s <= sectors,
                sectors == sectors_for(data@.len() as int),
                data@.len() <= u32::MAX,
                start + sectors <= u64::MAX,
                self@ == fs0,
                old(self)@ == fs0,
                old(disk)@ == d0,
                self.wf(),
                start == fs0.cp.log_head,
                ws == data_writes(start, data@),
                fs0.write_refused(name@, data@) is None,
                crash_after matches Some(c) ==> s <= c || c > sectors,
                d0.after_writes(ws.take(s as int)) == (disk@, Ok::<(), &'static str>(())),
            decreases sectors - s,
        {
            match crash_after {
                Some(c) => {
                    if c == s {
                        return Ok(Written::PowerCut { data_sectors: s });
                    }
                },
                None => {},
            }
            let from: usize = s as usize * 512;
            let rest: usize = data.len() - from;
            let n: usize = if rest < 512 {
                rest
            } else {
                512
            };
            let mut j: usize = 0;
            while j < 512
                invariant
                    j <= 512,
                    from == 512 * s,
                    from < data@.len(),
                    n == if data@.len() - from < 512 {
                        data@.len() - from
                    } else {
                        512
                    },
                    forall|k: int| 0 <= k < j ==> sector@[k] == sector_of(data@, s as int)[k],
                decreases 512 - j,
            {
                sector[j] =
                if j < n {
                    data[from + j]
                } else {
                    0
                };
                j = j + 1;
            }
            assert(sector@ =~= sector_of(data@, s as int));
            let ghost before = disk@;
            let w = disk.write_sector(start + s as u64, &sector);
            proof {
                assert(ws[s as int] == ((start + s) as u64, sector_of(data@, s as int)));
                crate::blk::run_extends(d0, ws.take(s as int), (start + s) as u64, sector@);
                assert(ws.take(s as int).push(ws[s as int]) =~= ws.take(s + 1));
            }
            match w {
                Err(e) => {
                    proof {
                        match crash_after {
                            Some(c) if c <= ws.len() => {
                                let part = ws.take(c as int);
                                assert(part.take(s + 1) =~= ws.take(s + 1));
                                crate::blk::failed_run_stops(d0, part, s + 1);
                            },
                            _ => {
                                crate::blk::failed_run_stops(d0, ws, s + 1);
                            },
                        }
                    }
                    return Err(e);
                },
                Ok(_) => {},
            }
            s = s + 1;
        }
        assert(ws.take(s as int) =~= ws);
        match crash_after {
            Some(c) => {
                if c == sectors {
                    return Ok(Written::PowerCut { data_sectors: sectors });
                }
            },
            None => {},
        }

        // Step two: the root. One sector, so it happens or it does not.
        let mut files = self.cp.files;
        let mut count: usize = self.cp.count;
        let found = self.find(name);
        let idx: usize = match found {
            Some(i) => i,
            None => {
                if count == MAX_FILES {
                    return Err("directory is full");
                }
                count = count + 1;
                count - 1
            },
        };
        let mut field: [u8; 28] = [0u8; 28];
        let mut j: usize = 0;
        while j < bytes.len()
            invariant
                j <= bytes@.len() <= 28,
                forall|k: int| 0 <= k < j ==> field@[k] == bytes@[k],
                forall|k: int| j <= k < 28 ==> field@[k] == 0u8,
            decreases bytes@.len() - j,
        {
            field[j] = bytes[j];
            j = j + 1;
        }
        let entry = FileEntry { name: field, size: data.len() as u32, start, sectors };
        assert(entry@.name =~= name_field(name@));
        assert(entry@ == fs0.new_entry(name@, data@));
        files[idx] = entry;
        let next = Checkpoint {
            seq: self.cp.seq + 1,
            log_head: start + sectors as u64,
            files,
            count,
        };
        assert(next@ == fs0.with_written(name@, data@).cp) by {
            assert(next@.files =~= fs0.with_written(name@, data@).cp.files);
        }
        let target: usize = 1 - self.slot;
        let sector_no: u64 = if target == 0 {
            1
        } else {
            2
        };
        match disk.write_sector(sector_no, &next.encode()) {
            Err(e) => Err(e),
            Ok(_) => {
                self.cp = next;
                self.slot = target;
                Ok(Written::Committed)
            },
        }
    }
}

// ---- reading and metadata ---------------------------------------------------

/// How many sectors reading a file of `size` bytes over `sectors` sectors takes.
pub open spec fn reads_needed(size: u32, sectors: u32) -> nat {
    if size == 0 {
        if sectors == 0 {
            0
        } else {
            1
        }
    } else if sectors_for(size as int) < sectors {
        sectors_for(size as int) as nat
    } else {
        sectors as nat
    }
}

/// Byte `i` of the extent that starts at sector `start`.
pub open spec fn extent_byte(sectors: Seq<Seq<u8>>, start: u64, i: int) -> u8 {
    sectors[start + i / 512][i % 512]
}

/// The bytes a directory entry stands for.
pub open spec fn contents(sectors: Seq<Seq<u8>>, e: EntryView) -> Seq<u8> {
    Seq::new(e.size as nat, |i: int| extent_byte(sectors, e.start, i))
}

/// The sum of the extents of a directory.
pub open spec fn live_sectors(files: Seq<EntryView>) -> int
    decreases files.len(),
{
    if files.len() == 0 {
        0
    } else {
        live_sectors(files.drop_last()) + files.last().sectors
    }
}

proof fn lemma_live_grows(files: Seq<EntryView>, i: int)
    requires
        0 <= i <= files.len(),
    ensures
        0 <= live_sectors(files.take(i)) <= live_sectors(files),
    decreases files.len(),
{
    if i == files.len() {
        assert(files.take(i) =~= files);
        if files.len() > 0 {
            lemma_live_grows(files.drop_last(), files.len() - 1);
            assert(files.drop_last().take(files.len() - 1) =~= files.drop_last());
        }
    } else {
        lemma_live_grows(files.drop_last(), i);
        assert(files.drop_last().take(i) =~= files.take(i));
    }
}

impl FsView {
    /// Why a read is refused before anything is read, if it is, else the entry.
    pub open spec fn read_target(self, name: Seq<char>, room: nat) -> Result<
        EntryView,
        &'static str,
    > {
        match find_from(self.cp.files, name, 0) {
            None => Err("no such file"),
            Some(i) => if room < self.cp.files[i].size {
                Err("buffer too small")
            } else {
                Ok(self.cp.files[i])
            },
        }
    }

    /// The filesystem with `name`'s entry replaced or removed; `None` where
    /// there is nothing to commit.
    pub open spec fn with_entry(self, name: Seq<char>, entry: Option<EntryView>) -> Option<FsView> {
        let files = match (find_from(self.cp.files, name, 0), entry) {
            (Some(i), Some(e)) => Some(self.cp.files.update(i, e)),
            (Some(i), None) => Some(self.cp.files.remove(i)),
            (None, Some(e)) => Some(self.cp.files.push(e)),
            (None, None) => None,
        };
        match files {
            None => None,
            Some(files) => Some(
                FsView {
                    cp: CheckpointView {
                        seq: (self.cp.seq + 1) as u64,
                        log_head: self.cp.log_head,
                        files,
                    },
                    slot: 1 - self.slot,
                    ..self
                },
            ),
        }
    }

    /// Everything reading a file into `out` does: the device, the buffer and the result.
    /// A read that fails part way has filled the sectors before.
    pub open spec fn read_outcome(
        self,
        d: crate::blk::DiskView,
        name: Seq<char>,
        out: Seq<u8>,
    ) -> (crate::blk::DiskView, Seq<u8>, Result<usize, &'static str>) {
        match self.read_target(name, out.len()) {
            Err(e) => (d, out, Err(e)),
            Ok(e) => {
                let n = reads_needed(e.size, e.sectors);
                let got = d.readable(e.start, n);
                let (d2, r) = d.after_reads(e.start, n);
                (
                    d2,
                    Seq::new(
                        out.len(),
                        |i: int|
                            if i < e.size && i < 512 * got {
                                extent_byte(d.sectors, e.start, i)
                            } else {
                                out[i]
                            },
                    ),
                    match r {
                        Ok(_) => Ok(e.size as usize),
                        Err(m) => Err(m),
                    },
                )
            },
        }
    }

    /// Everything `set_entry` does.
    pub open spec fn set_entry_outcome(
        self,
        d: crate::blk::DiskView,
        name: Seq<char>,
        entry: Option<EntryView>,
    ) -> (FsView, crate::blk::DiskView, Result<(), &'static str>) {
        match self.with_entry(name, entry) {
            None => (self, d, Ok(())),
            Some(next) => if entry is Some && self.no_room_for(name) {
                (self, d, Err("directory is full"))
            } else {
                self.commit(d, next)
            },
        }
    }
}

impl Fs {
    /// Read a whole file into `out`, giving its size.
    pub fn read(&self, disk: &mut Disk, name: &str, out: &mut [u8]) -> (r: Result<
        usize,
        &'static str,
    >)
        requires
            self.wf(),
            self@.read_target(name@, old(out)@.len()) matches Ok(e) ==> e.start + e.sectors
                <= u64::MAX,
        ensures
            (final(disk)@, final(out)@, r) == self@.read_outcome(old(disk)@, name@, old(out)@),
    {
        let ghost d0 = disk@;
        let ghost out0 = out@;
        let i: usize = match self.find(name) {
            None => {
                return Err("no such file");
            },
            Some(i) => i,
        };
        let entry = self.cp.files[i];
        assert(entry@ == self@.cp.files[i as int]);
        let size: usize = entry.size as usize;
        if out.len() < size {
            return Err("buffer too small");
        }
        let mut sector: [u8; 512] = [0u8; 512];
        let mut done: usize = 0;
        let mut s: u32 = 0;
        let ghost n = reads_needed(entry.size, entry.sectors);
        let ghost got = d0.readable(entry.start, n);
        proof {
            crate::blk::readable_bounds(d0, entry.start, n);
        }
        while s < entry.sectors && (s == 0 || done < size)
            invariant
                s <= entry.sectors,
                n == reads_needed(entry.size, entry.sectors),
                got == d0.readable(entry.start, n),
                entry.start + entry.sectors <= u64::MAX,
                size == entry.size,
                size <= out@.len(),
                out@.len() == out0.len(),
                old(out)@ == out0,
                old(disk)@ == d0,
                self@.read_target(name@, out0.len()) == Ok::<EntryView, &'static str>(entry@),
                disk@ == d0.spent(s as nat),
                s <= got <= n,
                done == if 512 * s < size {
                    512 * s as int
                } else {
                    size as int
                },
                forall|k: int|
                    0 <= k < out@.len() ==> #[trigger] out@[k] == if k < done {
                        extent_byte(d0.sectors, entry.start, k)
                    } else {
                        out0[k]
                    },
            decreases entry.sectors - s,
        {
            proof {
                disk.sectors_are_whole();
                crate::blk::reading_on(d0, entry.start, n, s as nat);
            }
            let ghost before = out@;
            match disk.read_sector(entry.start + s as u64, &mut sector) {
                Err(e) => {
                    return Err(e);
                },
                Ok(_) => {},
            }
            let rest: usize = size - done;
            let take: usize = if rest < 512 {
                rest
            } else {
                512
            };
            let mut j: usize = 0;
            while j < take
                invariant
                    j <= take,
                    take <= 512,
                    done == 512 * s || take == 0,
                    done + take <= size <= out@.len(),
                    out@.len() == before.len(),
                    sector@ == d0.sectors[entry.start + s],
                    forall|k: int|
                        0 <= k < out@.len() ==> #[trigger] out@[k] == if done <= k < done + j {
                            extent_byte(d0.sectors, entry.start, k)
                        } else {
                            before[k]
                        },
                decreases take - j,
            {
                out[done + j] = sector[j];
                j = j + 1;
            }
            done = done + take;
            s = s + 1;
        }
        Ok(size)
    }

    /// Replace or remove a directory entry, committing a new checkpoint.
    ///
    /// This is what makes undo cheap. A log-structured filesystem never
    /// overwrites, so the bytes a file used to contain are still on the disk
    /// after it is rewritten — putting the old entry back is a metadata
    /// operation, not a copy.
    pub fn set_entry(&mut self, disk: &mut Disk, name: &str, entry: Option<FileEntry>) -> (r: Result<
        (),
        &'static str,
    >)
        requires
            old(self).wf(),
            old(self).cp.seq < u64::MAX,
        ensures
            final(self).wf(),
            (final(self)@, final(disk)@, r) == old(self)@.set_entry_outcome(
                old(disk)@,
                name@,
                match entry {
                    Some(e) => Some(e@),
                    None => None,
                },
            ),
    {
        let ghost fs0 = self@;
        let mut files = self.cp.files;
        let mut count: usize = self.cp.count;
        let found = self.find(name);
        match (found, entry) {
            (Some(i), Some(e)) => {
                files[i] = e;
            },
            (Some(i), None) => {
                // Remove by shifting the tail down.
                let mut j: usize = i;
                while j < count - 1
                    invariant
                        i <= j <= count - 1,
                        count <= 8,
                        count == self.cp.count,
                        forall|k: int|
                            0 <= k < 8 ==> #[trigger] files@[k] == if i <= k < j {
                                self.cp.files@[k + 1]
                            } else {
                                self.cp.files@[k]
                            },
                    decreases count - j,
                {
                    files[j] = files[j + 1];
                    j = j + 1;
                }
                count = count - 1;
                files[count] = FileEntry::empty();
            },
            (None, Some(e)) => {
                if count == MAX_FILES {
                    return Err("directory is full");
                }
                files[count] = e;
                count = count + 1;
            },
            (None, None) => {
                return Ok(());
            },
        }
        let next = Checkpoint { seq: self.cp.seq + 1, log_head: self.cp.log_head, files, count };
        proof {
            let ev = match entry {
                Some(e) => Some(e@),
                None => None,
            };
            assert(next@.files =~= (fs0.with_entry(name@, ev)->0).cp.files);
        }
        let target: usize = 1 - self.slot;
        let sector_no: u64 = if target == 0 {
            1
        } else {
            2
        };
        match disk.write_sector(sector_no, &next.encode()) {
            Err(e) => Err(e),
            Ok(_) => {
                self.cp = next;
                self.slot = target;
                Ok(())
            },
        }
    }

    /// The directory entry for `name`, if it exists.
    pub fn entry(&self, name: &str) -> (r: Option<FileEntry>)
        requires
            self.wf(),
        ensures
            match (r, find_from(self@.cp.files, name@, 0)) {
                (Some(e), Some(i)) => e@ == self@.cp.files[i],
                (None, None) => true,
                _ => false,
            },
    {
        match self.find(name) {
            Some(i) => Some(self.cp.files[i]),
            None => None,
        }
    }

    /// Sectors of log in use, and how much of that is garbage left by rewrites.
    pub fn usage(&self) -> (r: (u64, u64))
        requires
            self.wf(),
            LOG_START + live_sectors(self@.cp.files) <= self.cp.log_head,
        ensures
            r.0 == self.cp.log_head - LOG_START,
            r.1 == r.0 - live_sectors(self@.cp.files),
    {
        let mut live: u64 = 0;
        let mut i: usize = 0;
        proof {
            lemma_live_grows(self@.cp.files, 0);
        }
        assert(self@.cp.files.take(0) =~= Seq::empty());
        while i < self.cp.count
            invariant
                self.wf(),
                i <= self.cp.count,
                LOG_START + live_sectors(self@.cp.files) <= self.cp.log_head,
                live == live_sectors(self@.cp.files.take(i as int)),
            decreases self.cp.count - i,
        {
            proof {
                lemma_live_grows(self@.cp.files, i + 1);
                assert(self@.cp.files.take(i + 1).drop_last() =~= self@.cp.files.take(i as int));
            }
            live = live + self.cp.files[i].sectors as u64;
            i = i + 1;
        }
        assert(self@.cp.files.take(i as int) =~= self@.cp.files);
        let used: u64 = self.cp.log_head - LOG_START;
        (used, used - live)
    }
}

// ---- test-state sector ------------------------------------------------------
// Outside the filesystem on purpose: the crash test has to survive the
// filesystem being inconsistent, so it cannot live inside it.

/// The test-state sector for `phase`.
pub open spec fn phase_sector(phase: u64) -> Seq<u8> {
    sealed(crate::bytes::le64_bytes(TEST_MAGIC) + crate::bytes::le64_bytes(phase) + zeros(492))
}

/// The phase a test-state sector records; 0 where it records none.
pub open spec fn phase_in(raw: Seq<u8>) -> u64 {
    if crate::bytes::le64(raw, 0) != TEST_MAGIC || !is_intact(raw) {
        0
    } else {
        crate::bytes::le64(raw, 8)
    }
}

/// The phase that reading finds; 0 where the sector cannot be read.
pub open spec fn phase_on(d: crate::blk::DiskView) -> u64 {
    match d.read_result(TEST_STATE_SECTOR) {
        Ok(raw) => phase_in(raw),
        Err(_) => 0,
    }
}

/// The recorded phase, or 0 where none can be read.
pub fn read_phase(disk: &mut Disk) -> (r: u64)
    ensures
        final(disk)@ == old(disk)@.after_read(),
        r == phase_on(old(disk)@),
{
    let mut raw: [u8; 512] = [0u8; 512];
    if disk.read_sector(TEST_STATE_SECTOR, &mut raw).is_err() {
        return 0;
    }
    if get_u64(&raw, 0) != TEST_MAGIC || !intact(&raw) {
        return 0;
    }
    get_u64(&raw, 8)
}

/// Record the phase.
pub fn write_phase(disk: &mut Disk, phase: u64) -> (r: Result<(), &'static str>)
    ensures
        final(disk)@ == old(disk)@.after_write(TEST_STATE_SECTOR, phase_sector(phase)),
        r == old(disk)@.write_result(TEST_STATE_SECTOR),
{
    let mut out: Vec<u8> = Vec::new();
    push_u64(&mut out, TEST_MAGIC);
    push_u64(&mut out, phase);
    assert(out@ =~= crate::bytes::le64_bytes(TEST_MAGIC) + crate::bytes::le64_bytes(phase));
    let raw = seal(&out);
    disk.write_sector(TEST_STATE_SECTOR, &raw)
}

/// A recorded phase reads back.
pub proof fn phase_round_trip(phase: u64)
    ensures
        phase_in(phase_sector(phase)) == phase,
{
    let raw = phase_sector(phase);
    sealed_is_intact(
        crate::bytes::le64_bytes(TEST_MAGIC) + crate::bytes::le64_bytes(phase) + zeros(492),
    );
    assert(raw.subrange(0, 8) =~= crate::bytes::le64_bytes(TEST_MAGIC));
    assert(raw.subrange(8, 16) =~= crate::bytes::le64_bytes(phase));
    crate::bytes::le64_reads_back(raw, 0, TEST_MAGIC);
    crate::bytes::le64_reads_back(raw, 8, phase);
}

} // verus!
