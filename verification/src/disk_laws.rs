//! What the filesystem keeps where, said of the bytes of its sectors.
use vstd::prelude::*;
use crate::bytes_laws::little;
use crate::fs::{EntryView, FsView};

verus! {

// ---- checksums ------------------------------------------------------------------------------

proof fn lemma_shift(c: u32)
    by (bit_vector)
    ensures
        c & 1 == c % 2,
        c >> 1 == c / 2,
        ((c >> 1) ^ 0xEDB8_8320) ^ 0xEDB8_8320 == c >> 1,
{
}

/// The shift register moves down by one bit; where the bit that falls out is set, the
/// polynomial is added.
pub proof fn the_register_shifts_and_divides(c: u32)
    ensures
        c % 2 == 0 ==> crate::fs::crc_bit(c) == c / 2,
        c % 2 == 1 ==> crate::fs::crc_bit(c) ^ 0xEDB8_8320 == c / 2,
{
    lemma_shift(c);
}

/// Every byte goes into the checksum, and each in the same way: it is added to the register,
/// which is then shifted eight times.
pub proof fn every_byte_goes_into_the_checksum(d: Seq<u8>, b: u8)
    ensures
        crate::fs::crc_register(Seq::empty()) == 0xFFFF_FFFF,
        ({
            let r0 = crate::fs::crc_register(d) ^ (b as u32);
            let r4 = crate::fs::crc_bit(
                crate::fs::crc_bit(crate::fs::crc_bit(crate::fs::crc_bit(r0))),
            );
            crate::fs::crc_register(d.push(b)) == crate::fs::crc_bit(
                crate::fs::crc_bit(crate::fs::crc_bit(crate::fs::crc_bit(r4))),
            )
        }),
        crate::fs::crc32_of(d) == !crate::fs::crc_register(d),
{
    assert(d.push(b).drop_last() =~= d);
    reveal_with_fuel(crate::fs::crc_bits, 10);
}

/// A sector is taken as it was written exactly when the checksum of all but its last four bytes
/// is what those say.
pub proof fn a_sector_vouches_for_itself(raw: Seq<u8>)
    requires
        raw.len() == 512,
    ensures
        crate::fs::is_intact(raw) == (crate::fs::crc32_of(raw.subrange(0, 508)) == little(
            raw.subrange(508, 512),
        )),
{
    assert(raw.take(508) =~= raw.subrange(0, 508));
    crate::bytes_laws::integers_are_what_their_bytes_say(raw, 508);
}

// ---- checkpoints ----------------------------------------------------------------------------

/// Where a checkpoint sector says what: its mark, its number, the end of the log, how many
/// files there are, and from byte 32 on an entry of 48 bytes for each.
pub proof fn a_checkpoint_is_read_in_place(raw: Seq<u8>, i: int)
    requires
        raw.len() == 512,
    ensures
        match crate::fs::decoded(raw) {
            Some(cp) => {
                &&& crate::fs::is_intact(raw)
                &&& little(raw.subrange(0, 8)) == 0x4A4C_4653_5F43_5030
                &&& cp.seq == little(raw.subrange(8, 16))
                &&& cp.log_head == little(raw.subrange(16, 24))
                &&& cp.files.len() == little(raw.subrange(24, 28))
                &&& cp.files.len() <= 8
                &&& 0 <= i < cp.files.len() ==> {
                    let at = 32 + 48 * i;
                    &&& cp.files[i].name == raw.subrange(at, at + 28)
                    &&& cp.files[i].size == little(raw.subrange(at + 28, at + 32))
                    &&& cp.files[i].start == little(raw.subrange(at + 32, at + 40))
                    &&& cp.files[i].sectors == little(raw.subrange(at + 40, at + 44))
                }
            },
            None => {
                ||| !crate::fs::is_intact(raw)
                ||| little(raw.subrange(0, 8)) != 0x4A4C_4653_5F43_5030
                ||| little(raw.subrange(24, 28)) > 8
            },
        },
{
    crate::bytes_laws::integers_are_what_their_bytes_say(raw, 0);
    crate::bytes_laws::integers_are_what_their_bytes_say(raw, 8);
    crate::bytes_laws::integers_are_what_their_bytes_say(raw, 16);
    crate::bytes_laws::integers_are_what_their_bytes_say(raw, 24);
    if 0 <= i < 8 {
        let at = 32 + 48 * i;
        crate::bytes_laws::integers_are_what_their_bytes_say(raw, at + 28);
        crate::bytes_laws::integers_are_what_their_bytes_say(raw, at + 32);
        crate::bytes_laws::integers_are_what_their_bytes_say(raw, at + 40);
    }
}

/// The root is the newer of the checkpoints that are whole — the only one, if only one is —
/// and the regions of the disk are those that the superblock names.
pub proof fn the_newer_checkpoint_is_the_root(sb: Seq<u8>, a: Seq<u8>, b: Seq<u8>)
    requires
        sb.len() == 512,
    ensures
        match crate::fs::root_of(sb, a, b) {
            Ok(fs) => {
                let ca = crate::fs::decoded(a);
                let cb = crate::fs::decoded(b);
                &&& fs.slot == 0 || fs.slot == 1
                &&& fs.slot == 0 ==> ca == Some(fs.cp)
                &&& fs.slot == 1 ==> cb == Some(fs.cp)
                &&& ca matches Some(x) ==> x.seq <= fs.cp.seq
                &&& cb matches Some(y) ==> y.seq <= fs.cp.seq
                &&& fs.total_sectors == little(sb.subrange(12, 20))
                &&& fs.spill_start == little(sb.subrange(36, 44))
                &&& fs.spill_sectors == little(sb.subrange(44, 52))
                &&& fs.audit_start == little(sb.subrange(52, 60))
                &&& fs.audit_sectors == little(sb.subrange(60, 68))
            },
            Err(_) => crate::fs::decoded(a) is None && crate::fs::decoded(b) is None,
        },
{
    crate::bytes_laws::integers_are_what_their_bytes_say(sb, 12);
    crate::bytes_laws::integers_are_what_their_bytes_say(sb, 36);
    crate::bytes_laws::integers_are_what_their_bytes_say(sb, 44);
    crate::bytes_laws::integers_are_what_their_bytes_say(sb, 52);
    crate::bytes_laws::integers_are_what_their_bytes_say(sb, 60);
}

/// A superblock is one exactly when it carries the mark and vouches for itself.
pub proof fn a_superblock_is_marked(sb: Seq<u8>)
    requires
        sb.len() == 512,
    ensures
        crate::fs::superblock_error(sb) is None <==> little(sb.subrange(0, 8))
            == 0x4A4C_4653_5F53_4230 && crate::fs::is_intact(sb),
{
    crate::bytes_laws::integers_are_what_their_bytes_say(sb, 0);
}

/// The superblock of a disk accounts for every sector of it: the log begins at sector 8 and
/// ends where the action log begins, which ends where the spill region begins, which ends
/// where the disk does.
pub proof fn the_regions_fill_the_disk(total: u64)
    requires
        total >= 16384 + 2048 + 8,
    ensures
        ({
            let c = crate::fs::superblock_contents(total);
            let log = little(c.subrange(20, 28));
            let log_len = little(c.subrange(28, 36));
            let spill = little(c.subrange(36, 44));
            let spill_len = little(c.subrange(44, 52));
            let audit = little(c.subrange(52, 60));
            let audit_len = little(c.subrange(60, 68));
            &&& c.len() == 68
            &&& little(c.subrange(0, 8)) == 0x4A4C_4653_5F53_4230
            &&& little(c.subrange(8, 12)) == 1
            &&& little(c.subrange(12, 20)) == total
            &&& log == 8 && log + log_len == audit
            &&& audit_len == 2048 && audit + audit_len == spill
            &&& spill_len == 16384 && spill + spill_len == total
        }),
{
    let c = crate::fs::superblock_contents(total);
    let spill = (total - 16384) as u64;
    let audit = (spill - 2048) as u64;
    crate::bytes_laws::bytes_say_their_integer(0, 1, crate::fs::SB_MAGIC);
    crate::bytes_laws::bytes_say_their_integer(0, 1, total);
    crate::bytes_laws::bytes_say_their_integer(0, 1, 8);
    crate::bytes_laws::bytes_say_their_integer(0, 1, (audit - 8) as u64);
    crate::bytes_laws::bytes_say_their_integer(0, 1, spill);
    crate::bytes_laws::bytes_say_their_integer(0, 1, 16384);
    crate::bytes_laws::bytes_say_their_integer(0, 1, audit);
    crate::bytes_laws::bytes_say_their_integer(0, 1, 2048);
    assert(c.subrange(0, 8) =~= crate::bytes::le64_bytes(crate::fs::SB_MAGIC));
    assert(c.subrange(8, 12) =~= crate::bytes::le32_bytes(1));
    assert(c.subrange(12, 20) =~= crate::bytes::le64_bytes(total));
    assert(c.subrange(20, 28) =~= crate::bytes::le64_bytes(8));
    assert(c.subrange(28, 36) =~= crate::bytes::le64_bytes((audit - 8) as u64));
    assert(c.subrange(36, 44) =~= crate::bytes::le64_bytes(spill));
    assert(c.subrange(44, 52) =~= crate::bytes::le64_bytes(16384));
    assert(c.subrange(52, 60) =~= crate::bytes::le64_bytes(audit));
    assert(c.subrange(60, 68) =~= crate::bytes::le64_bytes(2048));
}

// ---- the directory --------------------------------------------------------------------------

/// A name ends at the first zero byte of its field, or with the field.
pub proof fn a_name_ends_at_the_first_zero(b: Seq<u8>, i: int, k: int)
    requires
        0 <= i <= b.len(),
        i <= k,
    ensures
        i <= crate::fs::first_nul(b, i) <= b.len(),
        k < crate::fs::first_nul(b, i) ==> b[k] != 0,
        crate::fs::first_nul(b, i) < b.len() ==> b[crate::fs::first_nul(b, i)] == 0,
    decreases b.len() - i,
{
    if i < b.len() && b[i] != 0 {
        a_name_ends_at_the_first_zero(
            b,
            i + 1,
            if k > i {
                k
            } else {
                i + 1
            },
        );
    }
}

/// A file is found under its name: the first entry that reads so, or none if none does.
pub proof fn a_file_is_found_under_its_name(
    files: Seq<EntryView>,
    name: Seq<char>,
    i: int,
    k: int,
)
    requires
        0 <= i <= k < files.len(),
    ensures
        match crate::fs::find_from(files, name, i) {
            Some(f) => i <= f < files.len() && crate::fs::field_text(files[f].name) == name && (k
                < f ==> crate::fs::field_text(files[k].name) != name),
            None => crate::fs::field_text(files[k].name) != name,
        },
    decreases files.len() - i,
{
    if crate::fs::field_text(files[i].name) != name {
        if k > i {
            a_file_is_found_under_its_name(files, name, i + 1, k);
        } else if i + 1 < files.len() {
            a_file_is_found_under_its_name(files, name, i + 1, i + 1);
        } else {
            assert(crate::fs::find_from(files, name, i + 1) is None);
        }
    }
}

/// A write is refused before it touches the disk exactly when its name does not fit its field
/// or its sectors would reach the action log.
pub proof fn a_write_is_refused_for_want_of_room(fs: FsView, name: Seq<char>, data: Seq<u8>)
    ensures
        fs.write_refused(name, data) is None <==> {
            &&& vstd::utf8::encode_utf8(name).len() <= 28
            &&& fs.cp.log_head + crate::fs::sectors_for(data.len() as int) <= fs.audit_start
        },
        ({
            let n = crate::fs::sectors_for(data.len() as int);
            512 * n >= data.len() && 512 * (n - 1) < data.len()
        }),
{
}

/// What a write leaves on the disk: byte `i` of the data is byte `i % 512` of the sector
/// `i / 512` behind the end of the log; the last sector is filled up with zeros.
pub proof fn data_goes_behind_the_log(start: u64, data: Seq<u8>, i: int)
    requires
        start + data.len() / 512 + 1 <= u64::MAX,
        0 <= i < 512 * crate::fs::sectors_for(data.len() as int),
    ensures
        ({
            let w = crate::fs::data_writes(start, data);
            &&& w.len() == crate::fs::sectors_for(data.len() as int)
            &&& w[i / 512].0 == start + i / 512
            &&& w[i / 512].1.len() == 512
            &&& w[i / 512].1[i % 512] == if i < data.len() {
                data[i]
            } else {
                0
            }
        }),
{
}

/// What is live is the sum of what the entries name, each counted once.
pub proof fn live_sectors_are_added_up(files: Seq<EntryView>, e: EntryView)
    ensures
        crate::fs::live_sectors(Seq::empty()) == 0,
        crate::fs::live_sectors(files.push(e)) == crate::fs::live_sectors(files) + e.sectors,
{
    assert(files.push(e).drop_last() =~= files);
}

/// A commit never writes over the root it was made from: it goes to the other of the two
/// checkpoint sectors, and the number it carries is one more.
pub proof fn a_commit_goes_to_the_other_slot(fs: FsView, name: Seq<char>, data: Seq<u8>)
    requires
        fs.wf(),
        fs.cp.seq < u64::MAX,
    ensures
        ({
            let next = fs.with_written(name, data);
            &&& crate::fs::slot_sector(fs.slot) != crate::fs::slot_sector(next.slot)
            &&& crate::fs::slot_sector(0) == 1 && crate::fs::slot_sector(1) == 2
            &&& next.cp.seq == fs.cp.seq + 1
            &&& next.total_sectors == fs.total_sectors
            &&& next.audit_start == fs.audit_start && next.audit_sectors == fs.audit_sectors
            &&& next.spill_start == fs.spill_start && next.spill_sectors == fs.spill_sectors
        }),
{
}

} // verus!
