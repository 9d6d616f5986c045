//! The disk, the filesystem on it, and what survives a power cut.
use jungey::blk::{Disk, Fate};
use jungey::fs::{
    crc32, intact, mount, read_phase, seal, text_in, write_phase, Checkpoint, FileEntry, Fs,
    Written, LOG_START,
};
use jungey::selftest::{
    build_record, contents, cores_str, crash_test, differing, next_boot, pattern_byte,
    read_record, record_test, verify, CrashBoot, RecordBoot, FILE, RECORD_SECTOR, V1_LEN, V2_LEN,
};

const SECTORS: usize = 20_000;

/// So many requests are answered, and the next is lost.
fn lost_after(n: usize) -> Vec<Fate> {
    let mut fates = vec![Fate::Answered; n];
    fates.push(Fate::Lost);
    fates
}

fn fresh() -> (Disk, Fs) {
    let mut disk = Disk::new(SECTORS);
    assert_eq!(jungey::fs::format(&mut disk, SECTORS as u64), Ok(()));
    let fs = mount(&mut disk).ok().unwrap();
    (disk, fs)
}

fn contents_of(fs: &Fs, disk: &mut Disk, name: &str) -> Vec<u8> {
    let mut out = vec![0u8; 8192];
    let n = fs.read(disk, name, &mut out).unwrap();
    out.truncate(n);
    out
}

#[test]
fn disk_reads_what_was_written() {
    let mut disk = Disk::new(4);
    let mut buf = [9u8; 512];
    assert_eq!(disk.read_sector(3, &mut buf), Ok(()));
    assert_eq!(buf, [0u8; 512]);
    assert_eq!(disk.write_sector(3, &[7u8; 512]), Ok(()));
    assert_eq!(disk.read_sector(3, &mut buf), Ok(()));
    assert_eq!(buf, [7u8; 512]);
}

#[test]
fn disk_reports_a_missing_sector_and_a_silent_driver() {
    let mut disk = Disk::new(4);
    let mut buf = [1u8; 512];
    assert_eq!(disk.read_sector(4, &mut buf), Err("driver reported an error"));
    assert_eq!(disk.write_sector(4, &buf), Err("driver reported an error"));
    disk.fated(vec![Fate::Answered, Fate::Lost, Fate::Late, Fate::Failed, Fate::Failed]);
    assert_eq!(disk.write_sector(0, &buf), Ok(()));
    assert_eq!(disk.write_sector(1, &buf), Err("block driver did not answer"));
    assert_eq!(disk.read_sector(0, &mut buf), Err("block driver did not answer"));
    assert_eq!(disk.read_sector(0, &mut buf), Err("driver reported an error"));
    assert_eq!(disk.write_sector(2, &buf), Err("driver reported an error"));
    assert_eq!((disk.sectors[1], disk.sectors[2]), ([0u8; 512], [0u8; 512]));
    // It was a bad moment, and it is over.
    assert_eq!(disk.read_sector(0, &mut buf), Ok(()));
    assert_eq!(buf, [1u8; 512]);
}

#[test]
fn a_request_that_failed_once_works_the_next_time() {
    let (mut disk, mut fs) = fresh();
    disk.fated(vec![Fate::Lost]);
    assert_eq!(fs.write(&mut disk, "a", b"x", None), Err("block driver did not answer"));
    assert_eq!(fs.write(&mut disk, "a", b"x", None), Ok(Written::Committed));
    disk.fated(vec![Fate::Failed]);
    let mut out = [0u8; 1];
    assert_eq!(fs.read(&mut disk, "a", &mut out), Err("driver reported an error"));
    assert_eq!(fs.read(&mut disk, "a", &mut out), Ok(1));
    assert_eq!(out, *b"x");
}

#[test]
fn a_damaged_root_falls_back() {
    let (mut disk, mut fs) = fresh();
    fs.write(&mut disk, "a", b"x", None).unwrap();
    assert_eq!(fs.slot, 1);
    disk.sectors[2][20] ^= 4;
    let again = mount(&mut disk).ok().unwrap();
    assert_eq!((again.slot, again.cp.seq, again.files().len()), (0, 1, 0));
}

#[test]
fn a_late_write_still_lands() {
    let mut disk = Disk::new(2);
    disk.fated(vec![Fate::Late]);
    assert_eq!(disk.write_sector(1, &[5u8; 512]), Err("block driver did not answer"));
    assert_eq!(disk.sectors[1], [5u8; 512]);
}

#[test]
fn the_journal_is_what_happened() {
    let (mut disk, mut fs) = fresh();
    let first = disk.sectors.clone();
    disk.journal.clear();
    fs.write(&mut disk, "a", &[7u8; 600], None).unwrap();
    let order: Vec<u64> = disk.journal.iter().map(|w| w.0).collect();
    // The data, and only then the checkpoint.
    assert_eq!(order, [8, 9, 2]);
    let mut replayed = first;
    for (sector, data) in &disk.journal {
        replayed[*sector as usize] = *data;
    }
    assert!(replayed == disk.sectors);
}

#[test]
fn carrying_part_of_a_write_leaves_the_old_file() {
    let (mut disk, mut fs) = fresh();
    fs.write(&mut disk, "f", &[1u8; 1000], None).unwrap();
    let first = disk.sectors.clone();
    disk.journal.clear();
    fs.write(&mut disk, "f", &[2u8; 2000], None).unwrap();
    for n in 0..=disk.journal.len() {
        let mut device = Disk::new(SECTORS);
        device.sectors = first.clone();
        for (sector, data) in &disk.journal[..n] {
            device.write_sector(*sector, data).unwrap();
        }
        let seen = mount(&mut device).ok().unwrap();
        let want = if n == 5 { vec![2u8; 2000] } else { vec![1u8; 1000] };
        assert_eq!(contents_of(&seen, &mut device, "f"), want);
    }
}

#[test]
fn crc_of_the_check_string() {
    assert_eq!(crc32(b"123456789"), 0xCBF4_3926);
    assert_eq!(crc32(b""), 0);
}

#[test]
fn a_sealed_sector_is_intact_and_a_changed_one_is_not() {
    let mut raw = seal(&vec![1, 2, 3]);
    assert!(intact(&raw));
    assert_eq!(&raw[..4], &[1, 2, 3, 0]);
    raw[1] ^= 0x10;
    assert!(!intact(&raw));
}

#[test]
fn text_fields_stop_at_the_first_nul() {
    assert_eq!(text_in(b"abc\0def"), "abc");
    assert_eq!(text_in(b"abcd"), "abcd");
    assert_eq!(text_in(&[0xff, 0xfe, 0]), "<invalid>");
}

#[test]
fn a_checkpoint_round_trips() {
    let mut cp = Checkpoint::new();
    cp.seq = 41;
    cp.log_head = 99;
    cp.count = 2;
    let mut e = FileEntry::empty();
    e.name[..5].copy_from_slice(b"a.txt");
    e.size = 700;
    e.start = 8;
    e.sectors = 2;
    cp.files[0] = e;
    e.name[0] = b'b';
    e.start = 10;
    cp.files[1] = e;
    let raw = cp.encode();
    let back = Checkpoint::decode(&raw).unwrap();
    assert_eq!((back.seq, back.log_head, back.count), (41, 99, 2));
    assert_eq!(back.files[0].name_str(), "a.txt");
    assert_eq!(back.files[1].name_str(), "b.txt");
    assert_eq!((back.files[1].size, back.files[1].start, back.files[1].sectors), (700, 10, 2));
    // Places without a file are empty.
    for e in &back.files[2..] {
        assert_eq!((e.name, e.size, e.start, e.sectors), ([0u8; 28], 0, 0, 0));
    }
    // Any one byte that changes is noticed.
    for at in 0..512 {
        let mut torn = raw;
        torn[at] ^= 1;
        assert!(Checkpoint::decode(&torn).is_none());
    }
}

#[test]
fn a_formatted_disk_mounts_empty() {
    let (_, fs) = fresh();
    assert_eq!(fs.files().len(), 0);
    assert_eq!((fs.cp.seq, fs.cp.log_head, fs.slot), (1, LOG_START, 0));
    assert_eq!(fs.spill_start, SECTORS as u64 - 16384);
    assert_eq!(fs.audit_start, SECTORS as u64 - 16384 - 2048);
    assert_eq!((fs.spill_sectors, fs.audit_sectors), (16384, 2048));
    assert_eq!(fs.total_sectors, SECTORS as u64);
    assert_eq!(fs.usage(), (0, 0));
}

#[test]
fn mounting_reports_each_reason() {
    let mut disk = Disk::new(SECTORS);
    assert_eq!(mount(&mut disk).err(), Some("not a JLFS filesystem"));
    let (mut disk, _) = fresh();
    disk.sectors[0][30] ^= 1;
    assert_eq!(mount(&mut disk).err(), Some("superblock checksum mismatch"));
    let (mut disk, _) = fresh();
    disk.sectors[1][100] ^= 1;
    assert_eq!(
        mount(&mut disk).err(),
        Some("no valid checkpoint: filesystem is unrecoverable")
    );
    let (mut disk, _) = fresh();
    disk.fated(lost_after(2));
    assert_eq!(mount(&mut disk).err(), Some("block driver did not answer"));
}

#[test]
fn formatting_reports_a_disk_that_is_too_small() {
    let mut disk = Disk::new(100);
    assert_eq!(
        jungey::fs::format(&mut disk, SECTORS as u64),
        Err("driver reported an error")
    );
}

#[test]
fn a_file_reads_back_and_a_rewrite_replaces_it() {
    let (mut disk, mut fs) = fresh();
    let first: Vec<u8> = (0..1300u32).map(|i| (i * 7) as u8).collect();
    assert_eq!(fs.write(&mut disk, "a.bin", &first, None), Ok(Written::Committed));
    assert_eq!(fs.write(&mut disk, "b.bin", b"other", None), Ok(Written::Committed));
    assert_eq!(contents_of(&fs, &mut disk, "a.bin"), first);
    assert_eq!(fs.write(&mut disk, "a.bin", b"short", None), Ok(Written::Committed));
    let again = mount(&mut disk).ok().unwrap();
    assert_eq!(again.cp.seq, 4);
    assert_eq!(contents_of(&again, &mut disk, "a.bin"), b"short");
    assert_eq!(contents_of(&again, &mut disk, "b.bin"), b"other");
    assert_eq!(again.find("a.bin"), Some(0));
    assert_eq!(again.find("c.bin"), None);
    // Three sectors, one and one are written; the first three are garbage now.
    assert_eq!(again.usage(), (5, 3));
}

#[test]
fn an_empty_file_is_a_file() {
    let (mut disk, mut fs) = fresh();
    assert_eq!(fs.write(&mut disk, "empty", b"", None), Ok(Written::Committed));
    let mut out = [1u8; 4];
    assert_eq!(fs.read(&mut disk, "empty", &mut out), Ok(0));
    assert_eq!(out, [1u8; 4]);
}

#[test]
fn writing_reports_each_reason() {
    let (mut disk, mut fs) = fresh();
    assert_eq!(
        fs.write(&mut disk, "a name of twenty-nine letters", b"x", None),
        Err("name too long")
    );
    let room = (fs.audit_start - fs.cp.log_head) as usize;
    let big = vec![1u8; room * 512 + 1];
    assert_eq!(fs.write(&mut disk, "big", &big, None), Err("log is full"));
    for name in ["0", "1", "2", "3", "4", "5", "6", "7"] {
        assert_eq!(fs.write(&mut disk, name, b"x", None), Ok(Written::Committed));
    }
    assert_eq!(fs.write(&mut disk, "8", b"x", None), Err("directory is full"));
    assert_eq!(fs.write(&mut disk, "7", b"y", None), Ok(Written::Committed));
    disk.fated(lost_after(0));
    assert_eq!(fs.write(&mut disk, "7", b"z", None), Err("block driver did not answer"));
}

#[test]
fn reading_reports_each_reason() {
    let (mut disk, mut fs) = fresh();
    fs.write(&mut disk, "a", &[3u8; 600], None).unwrap();
    let mut small = [0u8; 599];
    assert_eq!(fs.read(&mut disk, "b", &mut small), Err("no such file"));
    assert_eq!(fs.read(&mut disk, "a", &mut small), Err("buffer too small"));
    disk.fated(lost_after(1));
    let mut out = [0u8; 600];
    assert_eq!(fs.read(&mut disk, "a", &mut out), Err("block driver did not answer"));
    assert_eq!(&out[..512], &[3u8; 512]);
    assert_eq!(&out[512..], &[0u8; 88]);
}

#[test]
fn a_write_cut_anywhere_leaves_the_old_file() {
    for cut in 0..=4u32 {
        let (mut disk, mut fs) = fresh();
        fs.write(&mut disk, "f", &[1u8; 1000], None).unwrap();
        let r = fs.write(&mut disk, "f", &[2u8; 2000], Some(cut));
        assert_eq!(r, Ok(Written::PowerCut { data_sectors: cut }));
        let after = mount(&mut disk).ok().unwrap();
        assert_eq!(contents_of(&after, &mut disk, "f"), vec![1u8; 1000]);
        // The crash cost no space.
        assert_eq!(after.usage(), (2, 0));
    }
}

#[test]
fn a_driver_that_stops_leaves_the_old_file_or_the_new() {
    for answers in 0..6 {
        for last in [Fate::Lost, Fate::Late, Fate::Failed] {
            let (mut disk, mut fs) = fresh();
            fs.write(&mut disk, "f", &[1u8; 1000], None).unwrap();
            let mut fates = vec![Fate::Answered; answers];
            fates.push(last);
            disk.fated(fates);
            let r = fs.write(&mut disk, "f", &[2u8; 2000], None);
            disk.fated(Vec::new());
            let after = mount(&mut disk).ok().unwrap();
            let seen = contents_of(&after, &mut disk, "f");
            if r == Ok(Written::Committed) {
                assert_eq!(seen, vec![2u8; 2000]);
            } else {
                assert!(seen == vec![1u8; 1000] || seen == vec![2u8; 2000]);
            }
        }
    }
}

#[test]
fn a_torn_commit_is_ignored() {
    let (mut disk, mut fs) = fresh();
    fs.write(&mut disk, "f", b"old", None).unwrap();
    let live = mount(&mut disk).ok().unwrap();
    assert_eq!(live.slot, 1);
    disk.sectors[1] = [0x5a; 512];
    let after = mount(&mut disk).ok().unwrap();
    assert_eq!(contents_of(&after, &mut disk, "f"), b"old");
}

#[test]
fn putting_an_entry_back_undoes_a_write() {
    let (mut disk, mut fs) = fresh();
    fs.write(&mut disk, "f", b"before", None).unwrap();
    let before = fs.entry("f");
    fs.write(&mut disk, "f", b"after it", None).unwrap();
    assert_eq!(contents_of(&fs, &mut disk, "f"), b"after it");
    assert_eq!(fs.set_entry(&mut disk, "f", before), Ok(()));
    assert_eq!(contents_of(&fs, &mut disk, "f"), b"before");
    // A file that did not exist before is removed.
    let absent = fs.entry("g");
    assert!(absent.is_none());
    fs.write(&mut disk, "g", b"new", None).unwrap();
    assert_eq!(fs.set_entry(&mut disk, "g", absent), Ok(()));
    assert_eq!(fs.find("g"), None);
    assert_eq!(fs.set_entry(&mut disk, "nothing", None), Ok(()));
}

#[test]
fn setting_an_entry_reports_a_full_directory() {
    let (mut disk, mut fs) = fresh();
    for name in ["0", "1", "2", "3", "4", "5", "6", "7"] {
        fs.write(&mut disk, name, b"x", None).unwrap();
    }
    let mut e = fs.entry("0").unwrap();
    e.name[0] = b'8';
    assert_eq!(fs.set_entry(&mut disk, "8", Some(e)), Err("directory is full"));
}

#[test]
fn the_filesystem_leaves_the_phase_alone() {
    let mut disk = Disk::new(SECTORS);
    write_phase(&mut disk, 7).unwrap();
    let before = disk.sectors[4];
    jungey::fs::format(&mut disk, SECTORS as u64).unwrap();
    let mut fs = mount(&mut disk).ok().unwrap();
    fs.write(&mut disk, "a", &[1u8; 3000], None).unwrap();
    fs.write(&mut disk, "a", &[2u8; 3000], Some(2)).unwrap();
    fs.set_entry(&mut disk, "a", None).unwrap();
    assert_eq!(disk.sectors[4], before);
    assert_eq!(read_phase(&mut disk), 7);
    disk.fated(vec![Fate::Lost]);
    assert_eq!(read_phase(&mut disk), 0);
}

#[test]
fn an_entry_put_back_undoes_the_write() {
    let (mut disk, mut fs) = fresh();
    fs.write(&mut disk, "a", b"one", None).unwrap();
    fs.write(&mut disk, "b", b"other", None).unwrap();
    for name in ["a", "c"] {
        let before = fs.entry(name);
        fs.write(&mut disk, name, b"two", None).unwrap();
        let (head, seq, slot) = (fs.cp.log_head, fs.cp.seq, fs.slot);
        let sectors = disk.sectors.clone();
        assert_eq!(fs.set_entry(&mut disk, name, before), Ok(()));
        assert_eq!((fs.cp.log_head, fs.cp.seq, fs.slot), (head, seq + 1, 1 - slot));
        let changed: Vec<usize> =
            (0..SECTORS).filter(|&i| disk.sectors[i] != sectors[i]).collect();
        assert_eq!(changed, [1 + fs.slot]);
    }
    assert_eq!(contents_of(&fs, &mut disk, "a"), b"one");
    assert_eq!(contents_of(&fs, &mut disk, "b"), b"other");
    let mut out = [9u8; 2];
    assert_eq!(fs.read(&mut disk, "c", &mut out), Err("no such file"));
    assert_eq!(fs.read(&mut disk, "a", &mut out), Err("buffer too small"));
    assert_eq!(out, [9u8; 2]);
}

#[test]
fn the_phase_reads_back() {
    let mut disk = Disk::new(8);
    assert_eq!(read_phase(&mut disk), 0);
    assert_eq!(write_phase(&mut disk, 3), Ok(()));
    assert_eq!(read_phase(&mut disk), 3);
    disk.sectors[4][9] ^= 1;
    assert_eq!(read_phase(&mut disk), 0);
}

#[test]
fn the_crash_test_passes_over_five_boots() {
    let mut disk = Disk::new(SECTORS);
    let capacity = SECTORS as u64;
    assert_eq!(crash_test(&mut disk, capacity), CrashBoot::Prepared);
    assert_eq!(crash_test(&mut disk, capacity), CrashBoot::Interrupted(1));
    assert_eq!(crash_test(&mut disk, capacity), CrashBoot::Interrupted(4));
    let f = mount(&mut disk).ok().unwrap();
    assert_eq!((f.cp.seq, f.slot, f.usage()), (2, 1, (3, 0)));
    assert_eq!(crash_test(&mut disk, capacity), CrashBoot::Recovered);
    assert_eq!(crash_test(&mut disk, capacity), CrashBoot::Complete(true));
    assert_eq!(crash_test(&mut disk, capacity), CrashBoot::Complete(true));
    let f = mount(&mut disk).ok().unwrap();
    assert_eq!(f.usage(), (7, 3));
    assert!(verify(&f, &mut disk, 2, V2_LEN));
    assert!(!verify(&f, &mut disk, 1, V1_LEN));
}

#[test]
fn the_crash_test_reports_each_failure() {
    let capacity = SECTORS as u64;
    let mut disk = Disk::new(10);
    assert_eq!(
        crash_test(&mut disk, capacity),
        CrashBoot::FormatFailed("driver reported an error")
    );
    // The phase is read, and formatting clears the action log; mounting gets no answer.
    let mut disk = Disk::new(SECTORS);
    disk.fated(lost_after(1 + 3 + 2048));
    assert_eq!(
        crash_test(&mut disk, capacity),
        CrashBoot::MountFailed("block driver did not answer")
    );
    let mut disk = Disk::new(SECTORS);
    disk.fated(lost_after(1 + 3 + 2048 + 4));
    assert_eq!(
        crash_test(&mut disk, capacity),
        CrashBoot::WriteFailed("block driver did not answer")
    );
    // A file that changed behind the filesystem's back.
    let mut disk = Disk::new(SECTORS);
    crash_test(&mut disk, capacity);
    disk.sectors[LOG_START as usize][40] ^= 1;
    assert_eq!(crash_test(&mut disk, capacity), CrashBoot::Torn);
    // The phase, three sectors to mount, three to verify and one for the phase.
    let mut disk = Disk::new(SECTORS);
    crash_test(&mut disk, capacity);
    disk.fated(lost_after(8));
    assert_eq!(
        crash_test(&mut disk, capacity),
        CrashBoot::NotInterrupted("block driver did not answer")
    );
    // A checkpoint that counts as far as it can.
    let mut disk = Disk::new(SECTORS);
    crash_test(&mut disk, capacity);
    let mut cp = Checkpoint::new();
    cp.seq = u64::MAX;
    disk.sectors[1] = cp.encode();
    assert_eq!(crash_test(&mut disk, capacity), CrashBoot::OutOfNumbers);
    // The new version is not there.
    let mut disk = Disk::new(SECTORS);
    crash_test(&mut disk, capacity);
    write_phase(&mut disk, 4).unwrap();
    assert_eq!(crash_test(&mut disk, capacity), CrashBoot::Complete(false));
}

#[test]
fn the_versions_of_the_file() {
    let v1 = contents(1, V1_LEN);
    assert_eq!(v1.len(), 1100);
    assert!(v1.starts_with(b"v1: written before the crash test\n"));
    // Byte 34 is 34 * 7 xor 97.
    assert_eq!(v1[34], 238 ^ 97);
    assert_eq!(v1[1099], ((1099u32 * 7) as u8) ^ 97);
    let v2 = contents(2, 10);
    assert_eq!(v2, b"v2: written after the crash test\n");
    assert_eq!(FILE, "hello.txt");
}

#[test]
fn a_record_is_there_on_the_next_boot() {
    let mut disk = Disk::new(65);
    match record_test(&mut disk, 90) {
        RecordBoot::Done { found, boot, differing } => {
            assert!(read_record(&found).is_none());
            assert_eq!((boot, differing), (1, 0));
        }
        _ => panic!("the first boot failed"),
    }
    match record_test(&mut disk, 91) {
        RecordBoot::Done { found, boot, differing } => {
            let last = read_record(&found).unwrap();
            assert_eq!((last.boot, last.ticks, last.bad), (1, 90, 0));
            assert_eq!(last.text, "written by jungey os");
            assert_eq!((boot, differing), (2, 0));
        }
        _ => panic!("the second boot failed"),
    }
    disk.sectors[RECORD_SECTOR as usize][100] ^= 1;
    assert_eq!(read_record(&disk.sectors[RECORD_SECTOR as usize]).unwrap().bad, 1);
}

#[test]
fn a_record_test_reports_each_failure() {
    let mut disk = Disk::new(65);
    disk.fated(lost_after(0));
    assert!(matches!(
        record_test(&mut disk, 0),
        RecordBoot::ReadFailed("block driver did not answer")
    ));
    disk.fated(lost_after(1));
    assert!(matches!(
        record_test(&mut disk, 0),
        RecordBoot::WriteFailed("block driver did not answer")
    ));
    disk.fated(lost_after(2));
    assert!(matches!(
        record_test(&mut disk, 0),
        RecordBoot::ReadBackFailed("block driver did not answer")
    ));
    let mut small = Disk::new(64);
    assert!(matches!(
        record_test(&mut small, 0),
        RecordBoot::ReadFailed("driver reported an error")
    ));
}

#[test]
fn the_parts_of_a_record() {
    assert_eq!(pattern_byte(64, 1), ((64u32 * 31) as u8) ^ 131);
    assert_eq!(pattern_byte(100, 3), ((3100u32) as u8) ^ ((393u32) as u8));
    let r = build_record(3, 7);
    assert_eq!(&r[..8], &0x4A55_4E47_4559_5F31u64.to_le_bytes());
    assert_eq!(&r[8..16], &3u64.to_le_bytes());
    assert_eq!(&r[16..24], &7u64.to_le_bytes());
    assert_eq!(&r[24..44], b"written by jungey os");
    assert_eq!(&r[44..64], &[0u8; 20]);
    assert_eq!(r[511], pattern_byte(511, 3));
    assert_eq!(next_boot(None), 1);
    assert_eq!(next_boot(Some(4)), 5);
    assert_eq!(differing(&r, &build_record(3, 8)), 1);
}

#[test]
fn cores_are_written_as_digits() {
    assert_eq!(cores_str(0b1111), b"0123");
    assert_eq!(cores_str(0b101), b"02");
    assert_eq!(cores_str(0x80), b"7");
    assert_eq!(cores_str(0), b"-");
    assert_eq!(cores_str(0x100), b"-");
}
