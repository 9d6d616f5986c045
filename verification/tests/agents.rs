//! What an assistant may do, the record of it, undoing it — and the model store.
use jungey::audit::{
    append, appended, as_str, corrupt_for_test, fnv1a, len, verify, Log, Verified, FNV_OFFSET,
};
use jungey::blk::{Disk, Fate};
use jungey::fs::{mount, Fs, Written};
use jungey::intent::{
    begin, commit, find, for_each_operation, plan, record, steps, undo, Effect, IntentState,
    Intents, Operation, Registry,
};
use jungey::mm::frames::{free_count, Frames};
use jungey::mm::ram::Ram;
use jungey::mm::uaccess::copy_from_user;
use jungey::model::{
    attach, claim, fault, fault_totals, load_page, locate, open, open_by_name, publish, reclaim,
    resident_pages, shared_hits, stat, Claim, Fault, PageState, Store,
};
use jungey::proc::Table;
use jungey::user::{keep_waiting, model_byte, pages_of, sweep};

const SECTORS: usize = 20_000;
const BASE: u64 = 0x4000_0000;

/// So many requests are answered, and the next is lost.
fn lost_after(n: usize) -> Vec<Fate> {
    let mut fates = vec![Fate::Answered; n];
    fates.push(Fate::Lost);
    fates
}

fn formatted() -> (Disk, Fs) {
    let mut disk = Disk::new(SECTORS);
    jungey::fs::format(&mut disk, SECTORS as u64).unwrap();
    let fs = mount(&mut disk).ok().unwrap();
    (disk, fs)
}

fn opened(disk: &mut Disk) -> Log {
    let mut log = Log::closed();
    jungey::audit::init(&mut log, disk, 100, 2);
    log
}

#[test]
fn the_hash_of_known_bytes() {
    assert_eq!(fnv1a(FNV_OFFSET, b""), FNV_OFFSET);
    assert_eq!(fnv1a(FNV_OFFSET, b"a"), 0xaf63_dc4c_8601_ec8c);
    assert_eq!(fnv1a(FNV_OFFSET, b"foobar"), 0x8594_4171_f739_67e8);
}

#[test]
fn records_read_back_and_the_chain_holds() {
    let mut disk = Disk::new(200);
    let mut log = Log::closed();
    assert_eq!(append(&mut log, &mut disk, 0, "a", 1, "n", "d"), Err("no audit log"));
    jungey::audit::init(&mut log, &mut disk, 100, 2);
    assert_eq!(append(&mut log, &mut disk, 269, "you", 11, "journal.append", "journal.txt"), Ok(0));
    assert_eq!(append(&mut log, &mut disk, 270, "you", 11, "notes.rewrite", "notes.txt"), Ok(1));
    assert_eq!((len(&log), appended(&log)), (2, 2));
    let (mut name, mut detail) = ([0u8; 32], [0u8; 40]);
    let r = jungey::audit::read(&log, &mut disk, 1, &mut name, &mut detail);
    assert_eq!(r, Some((1, 270, 11)));
    assert_eq!((as_str(&name), as_str(&detail)), ("notes.rewrite", "notes.txt"));
    assert_eq!(jungey::audit::read(&log, &mut disk, 2, &mut name, &mut detail), None);
    assert_eq!(verify(&log, &mut disk), Verified { records: 2, first_bad: None });
    // Found again on the next boot.
    let again = opened(&mut disk);
    assert_eq!((again.next_seq, again.last_hash), (log.next_seq, log.last_hash));
}

#[test]
fn a_record_says_who_acted() {
    let record = |actor: &str| {
        let mut disk = Disk::new(200);
        let mut log = opened(&mut disk);
        append(&mut log, &mut disk, 5, actor, 3, "notes.rewrite", "detail").unwrap();
        disk.sectors[100]
    };
    let a = record("assistant");
    assert_ne!(a, record("scheduler"));
    assert_eq!(&a[32..40], b"assistan");
    assert_eq!(&a[48..62], b"notes.rewrite\0");
    assert_eq!(a[62..80], [0u8; 18]);
    assert_ne!(record("ai"), record("you"));
    assert_ne!(record("ai"), record("ai2"));
}

#[test]
fn a_record_reads_back_byte_for_byte() {
    let mut disk = Disk::new(200);
    let mut log = opened(&mut disk);
    let long = "a detail that is a good deal longer than the forty bytes there are";
    assert_eq!(append(&mut log, &mut disk, 9, "assistant", 4, "a\0b", long), Ok(0));
    assert_eq!(append(&mut log, &mut disk, 10, "you", 5, "", "d\0\0e"), Ok(1));
    let (mut name, mut detail) = ([7u8; 32], [7u8; 40]);
    let r = jungey::audit::read(&log, &mut disk, 0, &mut name, &mut detail);
    assert_eq!(r, Some((0, 9, 4)));
    assert_eq!((&name[..3], &name[3..]), (&b"a\0b"[..], &[0u8; 29][..]));
    assert_eq!(&detail[..], &long.as_bytes()[..40]);
    let r = jungey::audit::read(&log, &mut disk, 1, &mut name, &mut detail);
    assert_eq!(r, Some((1, 10, 5)));
    assert_eq!(name, [0u8; 32]);
    assert_eq!((&detail[..4], &detail[4..]), (&b"d\0\0e"[..], &[0u8; 36][..]));
    // Nothing there, or nothing to be had: the buffers stay.
    disk.fated(vec![Fate::Lost]);
    assert_eq!(jungey::audit::read(&log, &mut disk, 0, &mut name, &mut detail), None);
    assert_eq!(jungey::audit::read(&log, &mut disk, 2, &mut name, &mut detail), None);
    assert_eq!((name, &detail[..4]), ([0u8; 32], &b"d\0\0e"[..]));
}

#[test]
fn formatting_starts_an_empty_log() {
    let (mut disk, fs) = formatted();
    let at = fs.audit_start;
    let mut log = Log::closed();
    jungey::audit::init(&mut log, &mut disk, at, 2048);
    for i in 0..8 {
        append(&mut log, &mut disk, i, "you", 1, "old", "record").unwrap();
    }
    jungey::fs::format(&mut disk, SECTORS as u64).unwrap();
    jungey::audit::init(&mut log, &mut disk, at, 2048);
    assert_eq!(len(&log), 0);
    for i in 0..4 {
        assert_eq!(append(&mut log, &mut disk, i, "you", 1, "new", "record"), Ok(i));
    }
    jungey::audit::init(&mut log, &mut disk, at, 2048);
    assert_eq!(len(&log), 4);
    assert_eq!(verify(&log, &mut disk), Verified { records: 4, first_bad: None });
}

#[test]
fn a_record_that_landed_unnoticed_is_taken_up() {
    let mut disk = Disk::new(200);
    let mut log = opened(&mut disk);
    append(&mut log, &mut disk, 0, "a", 0, "n", "d").unwrap();
    disk.fated(vec![Fate::Answered, Fate::Late]);
    assert_eq!(
        append(&mut log, &mut disk, 1, "a", 0, "n", "d"),
        Err("block driver did not answer")
    );
    assert_eq!(verify(&log, &mut disk), Verified { records: 1, first_bad: None });
    let again = opened(&mut disk);
    assert_eq!(again.next_seq, 2);
    assert_eq!(verify(&again, &mut disk), Verified { records: 2, first_bad: None });
}

#[test]
fn an_altered_record_breaks_the_chain_there() {
    let mut disk = Disk::new(200);
    let mut log = opened(&mut disk);
    for i in 0..6 {
        append(&mut log, &mut disk, i, "you", 1, "op", "target").unwrap();
    }
    assert_eq!(corrupt_for_test(&log, &mut disk, 4, 60), Ok(()));
    assert_eq!(verify(&log, &mut disk), Verified { records: 4, first_bad: Some(4) });
    // The same damage again mends it.
    assert_eq!(corrupt_for_test(&log, &mut disk, 4, 60), Ok(()));
    assert_eq!(verify(&log, &mut disk), Verified { records: 6, first_bad: None });
    assert_eq!(corrupt_for_test(&log, &mut disk, 0, 500), Ok(()));
    assert_eq!(verify(&log, &mut disk), Verified { records: 0, first_bad: Some(0) });
    disk.fated(lost_after(0));
    assert_eq!(
        corrupt_for_test(&log, &mut disk, 0, 0),
        Err("block driver did not answer")
    );
}

#[test]
fn a_log_fills_up() {
    let mut disk = Disk::new(200);
    let mut log = opened(&mut disk);
    for i in 0..8 {
        assert_eq!(append(&mut log, &mut disk, 0, "a", 0, "n", "d"), Ok(i));
    }
    assert_eq!(append(&mut log, &mut disk, 0, "a", 0, "n", "d"), Err("audit log is full"));
    assert_eq!(verify(&log, &mut disk).records, 8);
}

#[test]
fn long_texts_are_cut_and_bad_ones_named() {
    let mut disk = Disk::new(200);
    let mut log = opened(&mut disk);
    let long = "a name that is longer than the thirty-two bytes there are";
    append(&mut log, &mut disk, 0, "a", 0, long, "d").unwrap();
    let (mut name, mut detail) = ([0u8; 32], [0u8; 40]);
    jungey::audit::read(&log, &mut disk, 0, &mut name, &mut detail).unwrap();
    assert_eq!(as_str(&name), &long[..32]);
    assert_eq!(as_str(&[b'a', 0xff, 0, b'b']), "<invalid>");
}

fn operation(name: &'static str, provider: &'static str, effect: Effect) -> Operation {
    Operation { name, provider, args: "file, text", effect, confirm: false }
}

#[test]
fn an_assistant_composes_what_was_published() {
    let mut reg = Registry::new();
    jungey::intent::publish(&mut reg, operation("notes.read", "notes", Effect::ReadOnly));
    jungey::intent::publish(&mut reg, operation("notes.rewrite", "notes", Effect::Mutates));
    jungey::intent::publish(&mut reg, operation("journal.append", "journal", Effect::Mutates));
    jungey::intent::publish(&mut reg, operation("message.send", "messages", Effect::External));
    assert_eq!(find(&reg, "journal.append").unwrap().provider, "journal");
    assert!(find(&reg, "journal.delete").is_none());
    let mut out = [operation("", "", Effect::ReadOnly); 4];
    let n = plan(&reg, &[Effect::ReadOnly, Effect::Mutates], &mut out);
    assert_eq!(n, 2);
    assert_eq!((out[0].name, out[1].name), ("notes.read", "notes.rewrite"));
    let mut small = [operation("", "", Effect::ReadOnly); 1];
    assert_eq!(plan(&reg, &[Effect::External, Effect::Mutates], &mut small), 1);
    assert_eq!(small[0].name, "message.send");
    assert_eq!(plan(&Registry::new(), &[Effect::External], &mut out), 0);
    for_each_operation(&reg, |op| assert_eq!(op.args, "file, text"));
    assert_eq!(Effect::External.label(), "external");
    assert_eq!((Effect::ReadOnly.label(), Effect::Mutates.label()), ("read-only", "mutates"));
}

#[test]
fn a_task_is_undone_byte_for_byte() {
    let (mut disk, mut fs) = formatted();
    fs.write(&mut disk, "notes.txt", b"buy milk", None).unwrap();
    let mut all = Intents::new();
    let id = begin(&mut all, "summarise", "assistant", 11);
    record(&mut all, id, "notes.rewrite", "notes.txt", fs.entry("notes.txt"), true);
    fs.write(&mut disk, "notes.txt", b"bought milk, and more", None).unwrap();
    record(&mut all, id, "journal.append", "journal.txt", fs.entry("journal.txt"), true);
    fs.write(&mut disk, "journal.txt", b"a summary", None).unwrap();
    record(&mut all, id, "message.send", "someone", None, false);
    commit(&mut all, id);
    assert_eq!(steps(&all, id), 3);
    assert_eq!(all.all[0].state, IntentState::Committed);
    let head = fs.cp.log_head;
    assert_eq!(undo(&mut all, id, &mut fs, &mut disk), Ok((2, 1)));
    let mut out = [0u8; 64];
    assert_eq!(fs.read(&mut disk, "notes.txt", &mut out), Ok(8));
    assert_eq!(&out[..8], b"buy milk");
    assert_eq!(fs.find("journal.txt"), None);
    // Nothing was copied.
    assert_eq!(fs.cp.log_head, head);
    assert_eq!(undo(&mut all, id, &mut fs, &mut disk), Err("already undone"));
    assert_eq!(undo(&mut all, 99, &mut fs, &mut disk), Err("no such intent"));
    assert_eq!(steps(&all, 99), 0);
    jungey::intent::for_each(&all, |i| assert_eq!(i.state, IntentState::Undone));
}

#[test]
fn a_task_is_undone_whole() {
    let (mut disk, mut fs) = formatted();
    assert_eq!(fs.write(&mut disk, "a", b"one", None), Ok(Written::Committed));
    let mut all = Intents::new();
    let id = begin(&mut all, "g", "a", 1);
    for (name, data) in [("a", "two"), ("b", "new"), ("a", "three")] {
        let before = fs.entry(name);
        record(&mut all, id, "write", name, before, true);
        assert_eq!(fs.write(&mut disk, name, data.as_bytes(), None), Ok(Written::Committed));
    }
    record(&mut all, id, "send", "mail", None, false);
    assert_eq!(undo(&mut all, id, &mut fs, &mut disk), Ok((3, 1)));
    assert_eq!(fs.files().len(), 1);
    let mut out = [0u8; 8];
    assert_eq!(fs.read(&mut disk, "a", &mut out), Ok(3));
    assert_eq!(&out[..3], b"one");
}

#[test]
fn undoing_reports_a_silent_driver() {
    let (mut disk, mut fs) = formatted();
    let mut all = Intents::new();
    let id = begin(&mut all, "g", "a", 1);
    record(&mut all, id, "op", "f", None, true);
    assert_eq!(fs.write(&mut disk, "f", b"x", None), Ok(Written::Committed));
    disk.fated(lost_after(0));
    assert_eq!(
        undo(&mut all, id, &mut fs, &mut disk),
        Err("block driver did not answer")
    );
}

struct World {
    disk: Disk,
    frames: Frames,
    ram: Ram,
    table: Table,
    store: Store,
}

const START: u64 = 11;
const SIZE: usize = 10_000;

/// Two processes, and a disk with a model of three pages.
fn world() -> World {
    let mut disk = Disk::new(64);
    for i in 0..SIZE {
        disk.sectors[START as usize + i / 512][i % 512] = model_byte(i as u64);
    }
    let mut w = World {
        disk,
        frames: Frames::new(),
        ram: Ram::new(BASE, 0x40_0000),
        table: Table::new(),
        store: Store::new(),
    };
    jungey::mm::frames::init(&mut w.frames, &[(BASE, 0x40_0000)], &[]);
    let mut asid = 1;
    let mut image = vec![0u8; 64];
    image[..6].copy_from_slice(&[0x7f, b'E', b'L', b'F', 2, 1]);
    image[16] = 2;
    image[18] = 183;
    for name in ["modelA", "modelB"] {
        jungey::proc::create(
            &mut w.table,
            &mut w.frames,
            &mut w.ram,
            &mut asid,
            name,
            &image,
            0,
        )
        .unwrap();
    }
    publish(&mut w.store, "model.bin", START, SIZE);
    w
}

const AT: u64 = 0x1000_0000;

impl World {
    fn touch(&mut self, id: u64, pid: usize, page: usize) -> Fault {
        fault(
            &mut self.store,
            &mut self.disk,
            &mut self.frames,
            &mut self.ram,
            &mut self.table,
            id,
            page * 4096 + 5,
            pid,
            AT + page as u64 * 4096,
        )
    }

    fn seen(&self, pid: usize, page: usize) -> Vec<u8> {
        copy_from_user(&self.table.procs[pid].space, &self.ram, AT + page as u64 * 4096, 4096)
            .unwrap()
    }
}

#[test]
fn the_same_bytes_are_one_model() {
    let mut w = world();
    let a = open_by_name(&mut w.store, &mut w.disk, "model.bin").unwrap();
    assert_eq!(open_by_name(&mut w.store, &mut w.disk, "other"), Err("no such model"));
    assert_eq!(open(&mut w.store, &mut w.disk, "again", START, SIZE), Ok(a));
    let b = open(&mut w.store, &mut w.disk, "less", START, SIZE - 1).unwrap();
    assert_ne!(a, b);
    let st = stat(&w.store, a).unwrap();
    assert_eq!((st.0, st.2, st.3, st.4, st.7), (a, SIZE, 0, 3, 2));
    assert_eq!(st.1, fnv1a(FNV_OFFSET, &(0..SIZE).map(|i| model_byte(i as u64)).collect::<Vec<u8>>()));
    assert!(stat(&w.store, 77).is_none());
    w.disk.fated(lost_after(3));
    assert_eq!(
        open(&mut w.store, &mut w.disk, "x", START, SIZE),
        Err("block driver did not answer")
    );
}

#[test]
fn two_processes_share_one_copy() {
    let mut w = world();
    let id = open_by_name(&mut w.store, &mut w.disk, "model.bin").unwrap();
    assert_eq!(attach(&mut w.store, id, 0, AT), Ok(SIZE));
    assert_eq!(attach(&mut w.store, id, 1, AT), Ok(SIZE));
    assert_eq!(attach(&mut w.store, 9, 0, AT), Err("no such model"));
    assert_eq!(locate(&w.store, 1, AT + 4100), Some((id, 4100)));
    assert_eq!(locate(&w.store, 2, AT), None);
    assert_eq!(locate(&w.store, 0, AT + SIZE as u64), None);
    assert_eq!(locate(&w.store, 0, AT - 1), None);
    for pid in 0..2 {
        for page in 0..3 {
            assert_eq!(w.touch(id, pid, page), Fault::Served);
        }
    }
    assert_eq!(fault_totals(&w.store), (6, 3));
    assert_eq!((resident_pages(&w.store), shared_hits(&w.store)), (3, 3));
    assert_eq!(w.store.models[0].resident_pages(), 3);
    assert_eq!(w.store.models[0].total_pages(), 3);
    for pid in 0..2 {
        let page = w.seen(pid, 1);
        assert!((0..4096).all(|i| page[i] == model_byte(4096 + i as u64)));
        // Past the end of the file there are zeros.
        let last = w.seen(pid, 2);
        assert!((SIZE - 8192..4096).all(|i| last[i] == 0));
    }
    jungey::model::for_each(&w.store, |m| assert_eq!(m.size, SIZE));

    // Dropping pages is invisible: they come back as they were.
    let free = free_count(&w.frames);
    assert_eq!(reclaim(&mut w.store, &mut w.frames, &mut w.ram, &w.table, 2), 2);
    assert_eq!(free_count(&w.frames), free + 2);
    assert_eq!(resident_pages(&w.store), 1);
    assert_eq!(w.table.procs[0].space.translate(&w.ram, AT + 8192), None);
    assert_eq!(w.table.procs[1].space.translate(&w.ram, AT + 4096), None);
    assert!(w.table.procs[1].space.translate(&w.ram, AT).is_some());
    assert_eq!(w.touch(id, 1, 1), Fault::Served);
    assert!((0..4096).all(|i| w.seen(1, 1)[i] == model_byte(4096 + i as u64)));
    assert_eq!(stat(&w.store, id).unwrap().6, 2);
    assert_eq!(reclaim(&mut w.store, &mut w.frames, &mut w.ram, &w.table, 9), 2);
}

#[test]
fn the_newest_pages_go_first() {
    let mut w = world();
    let id = open_by_name(&mut w.store, &mut w.disk, "model.bin").unwrap();
    attach(&mut w.store, id, 0, AT).unwrap();
    assert_eq!(w.touch(id, 0, 1), Fault::Served);
    assert_eq!(w.touch(id, 0, 0), Fault::Served);
    assert_eq!(reclaim(&mut w.store, &mut w.frames, &mut w.ram, &w.table, 1), 1);
    assert_eq!(w.store.models[0].pages[0], PageState::Absent);
    assert!(matches!(w.store.models[0].pages[1], PageState::Resident(_)));
    // Across models too.
    let less = open(&mut w.store, &mut w.disk, "less", START, SIZE - 1).unwrap();
    assert_ne!(less, id);
    attach(&mut w.store, less, 1, AT).unwrap();
    assert_eq!(w.touch(less, 1, 0), Fault::Served);
    assert_eq!(w.touch(id, 0, 2), Fault::Served);
    assert_eq!(reclaim(&mut w.store, &mut w.frames, &mut w.ram, &w.table, 2), 2);
    assert_eq!(w.store.models[0].pages[2], PageState::Absent);
    assert_eq!(w.store.models[1].pages[0], PageState::Absent);
    assert!(matches!(w.store.models[0].pages[1], PageState::Resident(_)));
    assert_eq!((resident_pages(&w.store), w.store.order.clone()), (1, vec![(0, 1)]));
}

#[test]
fn a_page_is_read_by_one_thread_at_a_time() {
    let mut w = world();
    let id = open_by_name(&mut w.store, &mut w.disk, "model.bin").unwrap();
    assert_eq!(claim(&mut w.store, id, 1), Claim::Mine);
    assert_eq!(claim(&mut w.store, id, 1), Claim::Busy);
    assert_eq!(w.touch(id, 0, 1), Fault::Busy);
    assert_eq!(w.store.models[0].pages[1], PageState::Loading);
    assert_eq!(claim(&mut w.store, id, 3), Claim::Missing);
    assert_eq!(claim(&mut w.store, 9, 0), Claim::Missing);
    assert_eq!(w.touch(9, 0, 0), Fault::Failed);
}

#[test]
fn a_failed_read_can_be_retried() {
    let mut w = world();
    let id = open_by_name(&mut w.store, &mut w.disk, "model.bin").unwrap();
    let free = free_count(&w.frames);
    w.disk.fated(lost_after(2));
    assert_eq!(w.touch(id, 0, 0), Fault::Failed);
    assert_eq!(w.store.models[0].pages[0], PageState::Absent);
    assert_eq!(free_count(&w.frames), free);
    // The bad moment is over.
    assert_eq!(w.touch(id, 0, 0), Fault::Served);
    let got = load_page(&mut w.disk, &mut w.frames, &mut w.ram, START, SIZE, 0).unwrap();
    let mut page = Vec::new();
    w.ram.read_bytes(got, 4096, &mut page);
    assert_eq!(page, w.seen(0, 0));
}

#[test]
fn the_programs_that_use_a_model() {
    assert_eq!(model_byte(0), 0);
    assert_eq!(model_byte(4097), ((4097u32 * 31) as u8) ^ 17);
    assert_eq!((pages_of(0), pages_of(4096), pages_of(4097)), (0, 1, 2));
    assert!(keep_waiting(0, 0));
    assert!(!keep_waiting(1, 0));
    assert!(!keep_waiting(0, 400));
    // Eight bytes in every page are looked at.
    let mut seen: Vec<u8> = (0..16).map(|i| model_byte(i / 8 * 4096 + i % 8 * 512)).collect();
    assert_eq!(sweep(&seen), (16, 0));
    seen[9] ^= 1;
    assert_eq!(sweep(&seen), (16, 1));
    assert_eq!(sweep(&[]), (0, 0));
}
