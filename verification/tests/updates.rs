//! Measured boot, and updates that are tried before they are trusted.
use jungey::blk::{Disk, Fate};
use jungey::measure::{full, measure_with_flipped_byte, short};
use jungey::ota::{
    boot, build_image, initialise, load, mark_successful, read_control, slot_name, stage,
    write_control, Control, Outcome, Region, SlotState, MAX_TRIES,
};
use jungey::sha256::{digest, from_hex, hex, Sha256};

const ABC: &str = "ba7816bf8f01cfea414140de5dae2223b00361a396177a9cb410ff61f20015ad";

/// So many requests are answered, and the next is lost.
fn lost_after(n: usize) -> Vec<Fate> {
    let mut fates = vec![Fate::Answered; n];
    fates.push(Fate::Lost);
    fates
}

fn region() -> Region {
    Region { start: 4, slot_sectors: 16 }
}

#[test]
fn the_digest_of_known_messages() {
    assert_eq!(std::str::from_utf8(&hex(&digest(b"abc"))), Ok(ABC));
    assert_eq!(
        std::str::from_utf8(&hex(&digest(b""))),
        Ok("e3b0c44298fc1c149afbf4c8996fb92427ae41e4649b934ca495991b7852b855")
    );
    assert_eq!(
        std::str::from_utf8(&hex(&digest(
            b"abcdbcdecdefdefgefghfghighijhijkijkljklmklmnlmnomnopnopq"
        ))),
        Ok("248d6a61d20638b8e5c026930c3e6039a33ce45964ff2167f6ecedd419db06c1")
    );
}

#[test]
fn a_message_may_come_in_pieces() {
    let data: Vec<u8> = (0..300u32).map(|i| i as u8).collect();
    for cut in [0, 1, 63, 64, 65, 128, 299, 300] {
        let mut h = Sha256::new();
        h.update(&data[..cut]);
        h.update(&data[cut..]);
        assert_eq!(h.finish(), digest(&data));
    }
}

#[test]
fn hexadecimal_reads_back() {
    let d = digest(b"abc");
    assert_eq!(from_hex(ABC), Some(d));
    assert_eq!(from_hex(&ABC.to_uppercase()), Some(d));
    assert_eq!(from_hex(&ABC[1..]), None);
    assert_eq!(from_hex(&ABC.replace('b', "g")), None);
    assert_eq!(full(&d), ABC);
    assert_eq!(short(&d), "ba7816bf8f01cfea…f20015ad");
}

#[test]
fn only_the_recorded_image_is_started() {
    let b = jungey::measure::measure(b"kernel", b"abc", ABC);
    assert!(b.ok);
    assert_eq!(b.kernel, digest(b"kernel"));
    assert_eq!((b.init, b.expected), (digest(b"abc"), Some(digest(b"abc"))));
    assert!(!jungey::measure::measure(b"kernel", b"abd", ABC).ok);
    let unrecorded = jungey::measure::measure(b"kernel", b"abc", "none");
    assert!(!unrecorded.ok);
    assert_eq!(unrecorded.expected, None);
}

#[test]
fn one_flipped_byte_is_noticed() {
    assert_eq!(measure_with_flipped_byte(b"abc", 1), digest(&[b'a', b'b' ^ 0xff, b'c']));
    // Past the end, it is the last byte.
    assert_eq!(measure_with_flipped_byte(b"abc", 9), digest(&[b'a', b'b', b'c' ^ 0xff]));
    assert_ne!(measure_with_flipped_byte(b"abc", 0), digest(b"abc"));
}

#[test]
fn slot_states_have_numbers_and_labels() {
    for s in [SlotState::Empty, SlotState::Unverified, SlotState::Successful, SlotState::Failed] {
        assert_eq!(SlotState::from(s.to()), s);
    }
    assert_eq!(SlotState::from(200), SlotState::Empty);
    assert_eq!(SlotState::Unverified.label(), "unverified");
    assert_eq!((slot_name(0), slot_name(1)), ("A", "B"));
}

#[test]
fn a_control_block_round_trips() {
    let mut c = Control::blank();
    c.seq = 9;
    c.active = 1;
    c.tries = 2;
    c.rollbacks = 3;
    c.state = [SlotState::Failed, SlotState::Unverified];
    c.version = [7, 8];
    c.digest[1] = digest(b"abc");
    assert_eq!(c.other(), 0);
    let raw = c.encode();
    let back = Control::decode(&raw).unwrap();
    assert_eq!((back.seq, back.active, back.tries, back.rollbacks), (9, 1, 2, 3));
    assert_eq!((back.state, back.version), (c.state, c.version));
    assert_eq!(back.digest, c.digest);
    let mut torn = raw;
    torn[20] ^= 1;
    assert!(Control::decode(&torn).is_none());
    assert!(Control::decode(&[0; 512]).is_none());
}

#[test]
fn the_control_block_is_on_the_disk() {
    let mut disk = Disk::new(64);
    assert!(read_control(&region(), &mut disk).is_none());
    let mut c = Control::blank();
    assert_eq!(write_control(&region(), &mut disk, &mut c), Ok(()));
    assert_eq!(c.seq, 1);
    assert_eq!(read_control(&region(), &mut disk).unwrap().seq, 1);
    disk.fated(lost_after(0));
    assert_eq!(
        write_control(&region(), &mut disk, &mut c),
        Err("block driver did not answer")
    );
}

#[test]
fn an_image_says_what_it_is() {
    let mut img = [0u8; 4096];
    build_image(3, true, &mut img);
    assert_eq!(&img[..8], &0x4A53_5953_494D_4730u64.to_le_bytes());
    assert_eq!(&img[8..16], &3u64.to_le_bytes());
    assert_eq!(&img[16..24], &1u64.to_le_bytes());
    assert_eq!(img[100], ((3700u32) as u8) ^ ((3309u32) as u8));
    let mut other = [0u8; 4096];
    build_image(3, false, &mut other);
    assert_ne!(img, other);
}

#[test]
fn a_new_device_runs_its_first_version() {
    let mut disk = Disk::new(64);
    assert_eq!(boot(&region(), &mut disk).1, Outcome::Fresh);
    let c = initialise(&region(), &mut disk).ok().unwrap();
    assert_eq!(c.state, [SlotState::Successful, SlotState::Empty]);
    assert_eq!(boot(&region(), &mut disk).1, Outcome::Running { slot: 0, version: 1 });
    let img = load(&region(), &mut disk, 0).ok().unwrap();
    assert_eq!((img.version, img.flags), (1, 1));
    assert_eq!(img.digest, c.digest[0]);
    assert_eq!(load(&region(), &mut disk, 1).err(), Some("slot holds no system image"));
}

#[test]
fn a_good_update_is_tried_and_kept() {
    let mut disk = Disk::new(64);
    let mut c = initialise(&region(), &mut disk).ok().unwrap();
    assert_eq!(stage(&region(), &mut disk, &mut c, 1, 2, true), Ok(()));
    assert_eq!((c.active, c.tries), (1, MAX_TRIES));
    let (mut c, o) = boot(&region(), &mut disk);
    assert_eq!(o, Outcome::Trying { slot: 1, version: 2, tries_left: 1, healthy: true });
    assert_eq!(mark_successful(&region(), &mut disk, &mut c), Ok(()));
    assert_eq!(c.state, [SlotState::Empty, SlotState::Successful]);
    assert_eq!(boot(&region(), &mut disk).1, Outcome::Running { slot: 1, version: 2 });
}

#[test]
fn an_update_that_never_comes_up_is_rolled_back() {
    let mut disk = Disk::new(64);
    let mut c = initialise(&region(), &mut disk).ok().unwrap();
    stage(&region(), &mut disk, &mut c, 1, 2, false).unwrap();
    let trying = |n| Outcome::Trying { slot: 1, version: 2, tries_left: n, healthy: false };
    assert_eq!(boot(&region(), &mut disk).1, trying(1));
    assert_eq!(boot(&region(), &mut disk).1, trying(0));
    let (c, o) = boot(&region(), &mut disk);
    assert_eq!(o, Outcome::RolledBack { from: 1, to: 0, version: 1 });
    assert_eq!((c.rollbacks, c.state[1]), (1, SlotState::Failed));
    assert_eq!(boot(&region(), &mut disk).1, Outcome::Running { slot: 0, version: 1 });
}

#[test]
fn with_nothing_to_fall_back_to_it_keeps_trying() {
    let mut disk = Disk::new(64);
    let mut c = initialise(&region(), &mut disk).ok().unwrap();
    c.state[0] = SlotState::Failed;
    stage(&region(), &mut disk, &mut c, 1, 2, false).unwrap();
    for left in [1, 0, 0, 0] {
        assert_eq!(
            boot(&region(), &mut disk).1,
            Outcome::Trying { slot: 1, version: 2, tries_left: left, healthy: false }
        );
    }
}

#[test]
fn a_changed_image_is_not_run() {
    let mut disk = Disk::new(64);
    initialise(&region(), &mut disk).ok().unwrap();
    disk.sectors[7][5] ^= 1;
    assert_eq!(boot(&region(), &mut disk).1, Outcome::Corrupt { slot: 0 });
}

#[test]
fn a_rollback_refuses_an_altered_slot() {
    let mut disk = Disk::new(64);
    let mut c = initialise(&region(), &mut disk).ok().unwrap();
    stage(&region(), &mut disk, &mut c, 1, 2, false).unwrap();
    boot(&region(), &mut disk);
    boot(&region(), &mut disk);
    disk.sectors[7][5] ^= 1;
    let (c, o) = boot(&region(), &mut disk);
    assert_eq!(o, Outcome::Corrupt { slot: 0 });
    assert_eq!((c.active, c.rollbacks, c.state[1]), (0, 1, SlotState::Failed));
}

#[test]
fn a_damaged_control_block_is_rejected() {
    let mut disk = Disk::new(64);
    initialise(&region(), &mut disk).ok().unwrap();
    for at in 0..512 {
        disk.sectors[4][at] ^= 0x10;
        assert!(read_control(&region(), &mut disk).is_none());
        disk.sectors[4][at] ^= 0x10;
    }
    assert!(read_control(&region(), &mut disk).is_some());
}

#[test]
fn an_interrupted_install_costs_only_the_slot() {
    for answers in 0..9 {
        let mut disk = Disk::new(64);
        let mut c = initialise(&region(), &mut disk).ok().unwrap();
        disk.fated(lost_after(answers));
        assert_eq!(
            stage(&region(), &mut disk, &mut c, 1, 2, true),
            Err("block driver did not answer")
        );
        disk.fated(Vec::new());
        assert_eq!(boot(&region(), &mut disk).1, Outcome::Running { slot: 0, version: 1 });
    }
    let mut small = Disk::new(6);
    assert_eq!(initialise(&region(), &mut small).err(), Some("driver reported an error"));
}
