//! What the update mechanism promises.
use vstd::prelude::*;
use crate::bytes_laws::little;
use crate::ota::{
    ControlView, ImageView, Outcome, Region, SlotState, CB_MAGIC, FLAG_HEALTHY, IMG_MAGIC,
    MAX_TRIES,
};

verus! {

/// Both slots are on the disk, and an image fits in a slot.
pub open spec fn fits(d: crate::blk::DiskView, f: Region) -> bool {
    &&& f.wf()
    &&& f.slot_sectors >= 8
    &&& f.start + 1 + f.slot_sectors + 8 <= d.sectors.len()
    &&& d.wf()
}

/// A slot holds what the control block says it should.
pub open spec fn holds(sectors: Seq<Seq<u8>>, f: Region, c: ControlView, slot: int) -> bool {
    match crate::ota::image_in(crate::ota::slot_bytes(sectors, f, slot)) {
        Ok(img) => img.digest == c.digest[slot] && img.version == c.version[slot],
        Err(_) => false,
    }
}

/// A control block that was written reads back as itself.
pub proof fn control_round_trip(c: ControlView)
    requires
        c.wf(),
    ensures
        crate::ota::control_sector(c).len() == 512,
        crate::ota::decoded(crate::ota::control_sector(c)) == Some(c),
{
    let b = crate::ota::control_contents(c);
    let raw = crate::ota::control_sector(c);
    assert(b.len() == 104);
    crate::fs::sealed_is_intact(b + crate::fs::zeros(508 - b.len()));
    assert(raw.subrange(0, 8) =~= crate::bytes::le64_bytes(CB_MAGIC));
    crate::bytes::le64_reads_back(raw, 0, CB_MAGIC);
    assert(raw.subrange(8, 16) =~= crate::bytes::le64_bytes(c.seq));
    crate::bytes::le64_reads_back(raw, 8, c.seq);
    assert(raw.subrange(24, 32) =~= crate::bytes::le64_bytes(c.version[0]));
    crate::bytes::le64_reads_back(raw, 24, c.version[0]);
    assert(raw.subrange(32, 40) =~= crate::bytes::le64_bytes(c.version[1]));
    crate::bytes::le64_reads_back(raw, 32, c.version[1]);
    assert(raw.subrange(40, 72) =~= c.digest[0]);
    assert(raw.subrange(72, 104) =~= c.digest[1]);
    assert(raw[16] == c.active as u8);
    assert(raw[17] == c.tries && raw[18] == c.rollbacks);
    assert(raw[19] == crate::ota::state_byte(c.state[0]));
    assert(raw[20] == crate::ota::state_byte(c.state[1]));
    let d = crate::ota::decoded(raw)->0;
    assert(d.state =~= c.state);
    assert(d.version =~= c.version);
    assert(d.digest =~= c.digest);
    assert(d =~= c);
}

/// Switching is a single sector write: afterwards the control block on the disk
/// is the old one or the new one, and the new one if the driver answered.
/// Nothing else has changed.
pub proof fn the_switch_happened_or_did_not(d: crate::blk::DiskView, f: Region, c: ControlView)
    requires
        fits(d, f),
        c.wf(),
    ensures
        ({
            let (n, d2, r) = crate::ota::write_outcome(d, f, c);
            &&& d2.sectors.len() == d.sectors.len()
            &&& d2.wf()
            &&& n.wf()
            &&& forall|i: int|
                0 <= i < d.sectors.len() && i != f.start ==> #[trigger] d2.sectors[i]
                    == d.sectors[i]
            &&& d2.sectors[f.start as int] == d.sectors[f.start as int]
                || crate::ota::decoded(d2.sectors[f.start as int]) == Some(n)
            &&& r is Ok ==> crate::ota::decoded(d2.sectors[f.start as int]) == Some(n)
            &&& d.answers(1) ==> r is Ok
        }),
{
    control_round_trip(c.numbered());
}

/// A switch is one request.
proof fn lemma_switch_spends(d: crate::blk::DiskView, f: Region, c: ControlView, m: nat)
    requires
        d.answers(m + 1),
    ensures
        d.answers(1),
        crate::ota::write_outcome(d, f, c).1.answers(m),
{
    crate::blk::answers_after(d, 1, m);
    crate::blk::answers_after(d, m, 1);
    let d2 = crate::ota::write_outcome(d, f, c).1;
    assert(d2.fates == d.spent(1).fates);
}

proof fn lemma_slots_apart(a: crate::blk::DiskView, b: crate::blk::DiskView, f: Region, slot: int)
    requires
        fits(a, f),
        0 <= slot <= 1,
        a.sectors.len() == b.sectors.len(),
        forall|s: int|
            f.base(slot) <= s < f.base(slot) + 8 ==> #[trigger] a.sectors[s] == b.sectors[s],
    ensures
        crate::ota::slot_bytes(a.sectors, f, slot) == crate::ota::slot_bytes(b.sectors, f, slot),
        f.base(slot) > f.start,
        f.base(slot) + 8 <= a.sectors.len(),
{
    let x = crate::ota::slot_bytes(a.sectors, f, slot);
    let y = crate::ota::slot_bytes(b.sectors, f, slot);
    assert forall|i: int| 0 <= i < 4096 implies #[trigger] x[i] == y[i] by {
        let s = f.base(slot) + i / 512;
        assert(a.sectors[s] == b.sectors[s]);
    }
    assert(x =~= y);
}

/// Nothing damaged is run: a slot is tried, run or gone back to only if it holds the
/// image whose digest and version the control block records.
pub proof fn only_a_sound_image_is_run(d: crate::blk::DiskView, f: Region)
    requires
        fits(d, f),
    ensures
        match crate::ota::boot_outcome(d, f).2 {
            Outcome::Trying { slot, version, .. } => {
                let c = crate::ota::boot_outcome(d, f).0;
                slot == c.active && version == c.version[c.active] && holds(
                    d.sectors,
                    f,
                    c,
                    c.active,
                )
            },
            Outcome::Running { slot, version } => {
                let c = crate::ota::boot_outcome(d, f).0;
                slot == c.active && version == c.version[c.active] && c.state[c.active]
                    != SlotState::Unverified && holds(d.sectors, f, c, c.active)
            },
            Outcome::RolledBack { to, version, .. } => {
                let c = crate::ota::boot_outcome(d, f).0;
                to == c.active && version == c.version[c.active] && holds(
                    d.sectors,
                    f,
                    c,
                    c.active,
                )
            },
            Outcome::Corrupt { slot } => slot == crate::ota::boot_outcome(d, f).0.active,
            Outcome::Fresh => crate::ota::control_on(d, f) is None,
        },
{
    match crate::ota::control_on(d, f) {
        None => {},
        Some(c) => {
            lemma_control_is_wf(d, f);
            let d1 = d.after_read();
            if c.out_of_tries() && c.state[c.other()] != SlotState::Successful {
                the_switch_happened_or_did_not(d1, f, c.one_more_try());
                let d2 = crate::ota::write_outcome(d1, f, c.one_more_try()).1;
                assert(f.base(c.active) > f.start) by {
                    lemma_slots_apart(d, d, f, c.active);
                }
                lemma_slots_apart(d1, d2, f, c.active);
            }
            if c.out_of_tries() && c.state[c.other()] == SlotState::Successful {
                the_switch_happened_or_did_not(d1, f, c.rolled_back());
                let d2 = crate::ota::write_outcome(d1, f, c.rolled_back()).1;
                lemma_slots_apart(d, d, f, c.other());
                lemma_slots_apart(d1, d2, f, c.other());
            }
        },
    }
}

/// A slot that does not hold what it should is never handed back as good: where the
/// one to go back to was altered, the boot says that it is corrupt.
pub proof fn a_rollback_refuses_an_altered_slot(
    d: crate::blk::DiskView,
    f: Region,
    c: ControlView,
)
    requires
        fits(d, f),
        crate::ota::control_on(d, f) == Some(c),
        c.out_of_tries(),
        c.state[c.other()] == SlotState::Successful,
        !holds(d.sectors, f, c, c.other()),
    ensures
        crate::ota::boot_outcome(d, f).2 == (Outcome::Corrupt { slot: c.other() as usize }),
{
    lemma_control_is_wf(d, f);
    let d1 = d.after_read();
    the_switch_happened_or_did_not(d1, f, c.rolled_back());
    let d2 = crate::ota::write_outcome(d1, f, c.rolled_back()).1;
    lemma_slots_apart(d, d, f, c.other());
    lemma_slots_apart(d1, d2, f, c.other());
}

proof fn lemma_control_is_wf(d: crate::blk::DiskView, f: Region)
    requires
        fits(d, f),
    ensures
        crate::ota::control_on(d, f) matches Some(c) ==> c.wf(),
{
}

/// A rollback goes only to a slot that said it came up, and marks the one that
/// did not so that it is not chosen again.
pub proof fn a_rollback_goes_to_a_slot_that_came_up(d: crate::blk::DiskView, f: Region)
    requires
        fits(d, f),
    ensures
        crate::ota::boot_outcome(d, f).2 matches Outcome::RolledBack { from, to, version } ==> {
            let was = crate::ota::control_on(d, f)->0;
            let now = crate::ota::boot_outcome(d, f).0;
            &&& crate::ota::control_on(d, f) is Some
            &&& from == was.active && to == 1 - from
            &&& was.state[from as int] == SlotState::Unverified && was.tries == 0
            &&& was.state[to as int] == SlotState::Successful
            &&& now.active == to
            &&& now.state[from as int] == SlotState::Failed
            &&& now.state[to as int] == SlotState::Successful
            &&& version == now.version[to as int]
        },
{
    lemma_control_is_wf(d, f);
}

/// The try is spent before the attempt: when a boot goes ahead on probation, the
/// control block that is on the disk by then has one try fewer than the boot
/// found, so a hang counts.
pub proof fn the_try_is_spent_before_the_attempt(d: crate::blk::DiskView, f: Region)
    requires
        fits(d, f),
        d.answers(11),
        crate::ota::boot_outcome(d, f).2 is Trying,
    ensures
        ({
            let was = crate::ota::control_on(d, f)->0;
            let (now, d2, o) = crate::ota::boot_outcome(d, f);
            &&& crate::ota::control_on(d, f) is Some
            &&& crate::ota::decoded(d2.sectors[f.start as int]) == Some(now)
            &&& now.tries == if was.tries == 0 {
                0
            } else {
                was.tries - 1
            }
            &&& o->tries_left == now.tries
            &&& now.active == was.active
            &&& now.state == was.state
        }),
{
    let c = crate::ota::control_on(d, f)->0;
    lemma_control_is_wf(d, f);
    let d1 = d.after_read();
    lemma_slots_apart(d, d, f, c.active);
    crate::blk::answers_after(d, 1, 10);
    crate::blk::answers_after(d1, 1, 9);
    if c.out_of_tries() {
        lemma_switch_spends(d1, f, c.one_more_try(), 9);
        the_switch_happened_or_did_not(d1, f, c.one_more_try());
        let (c2, d2, _) = crate::ota::write_outcome(d1, f, c.one_more_try());
        lemma_attempt_writes(d2, f, c2);
    } else {
        lemma_attempt_writes(d1, f, c);
    }
}

proof fn lemma_attempt_writes(d: crate::blk::DiskView, f: Region, c: ControlView)
    requires
        fits(d, f),
        c.wf(),
        d.answers(9),
        crate::ota::attempt(d, f, c).2 is Trying,
    ensures
        ({
            let (now, d2, o) = crate::ota::attempt(d, f, c);
            &&& crate::ota::decoded(d2.sectors[f.start as int]) == Some(now)
            &&& now == c.one_try_spent().numbered()
            &&& o->tries_left == now.tries
        }),
{
    let d1 = crate::ota::after_load(d, f, c.active);
    lemma_slots_apart(d, d, f, c.active);
    crate::blk::answers_after(d, 8, 1);
    crate::blk::answered_reads(d, f.base(c.active) as u64, 8);
    assert(d1.sectors == d.sectors);
    the_switch_happened_or_did_not(d1, f, c.one_try_spent());
}

/// A boot of a slot on probation, on a device that answers: where the slot is out of tries
/// and the other one came up before, it is not tried again. Otherwise it is tried, and by
/// the time the boot says so the control block on the device has one try fewer. Nothing
/// else in it has changed but its number.
pub proof fn a_boot_on_probation_costs_a_try(d: crate::blk::DiskView, f: Region, c: ControlView)
    requires
        fits(d, f),
        d.steady(),
        crate::ota::control_on(d, f) == Some(c),
        c.state[c.active] == SlotState::Unverified,
        holds(d.sectors, f, c, c.active),
    ensures
        ({
            let (now, d2, o) = crate::ota::boot_outcome(d, f);
            if c.tries == 0 && c.state[c.other()] == SlotState::Successful {
                o is RolledBack || o is Corrupt
            } else {
                &&& o is Trying
                &&& o->Trying_slot == c.active
                &&& o->Trying_version == c.version[c.active]
                &&& o->tries_left == if c.tries == 0 {
                    0
                } else {
                    c.tries - 1
                }
                &&& crate::ota::control_on(d2, f) == Some(now)
                &&& now.tries == o->tries_left
                &&& now == (ControlView { tries: now.tries, seq: now.seq, ..c })
            }
        }),
{
    lemma_control_is_wf(d, f);
    assert(d.after_read() =~= d);
    lemma_slots_apart(d, d, f, c.active);
    if c.out_of_tries() {
        if c.state[c.other()] != SlotState::Successful {
            the_switch_happened_or_did_not(d, f, c.one_more_try());
            let (c2, d2, _) = crate::ota::write_outcome(d, f, c.one_more_try());
            lemma_slots_apart(d, d2, f, c.active);
            lemma_attempt_costs_a_try(d2, f, c2);
        }
    } else {
        lemma_attempt_costs_a_try(d, f, c);
    }
}

proof fn lemma_attempt_costs_a_try(d: crate::blk::DiskView, f: Region, c: ControlView)
    requires
        fits(d, f),
        d.steady(),
        c.wf(),
        c.state[c.active] == SlotState::Unverified,
        holds(d.sectors, f, c, c.active),
    ensures
        ({
            let (now, d2, o) = crate::ota::attempt(d, f, c);
            &&& o is Trying
            &&& o->Trying_slot == c.active
            &&& o->Trying_version == c.version[c.active]
            &&& o->tries_left == now.tries
            &&& now == c.one_try_spent().numbered()
            &&& crate::ota::control_on(d2, f) == Some(now)
        }),
{
    lemma_slots_apart(d, d, f, c.active);
    crate::blk::answered_reads(d, f.base(c.active) as u64, 8);
    let d1 = crate::ota::after_load(d, f, c.active);
    assert(d1 == d);
    the_switch_happened_or_did_not(d, f, c.one_try_spent());
}

/// The disk after `n` boots, none of which got far enough to report success.
pub open spec fn after_boots(d: crate::blk::DiskView, f: Region, n: nat) -> crate::blk::DiskView
    decreases n,
{
    if n == 0 {
        d
    } else {
        after_boots(crate::ota::boot_outcome(d, f).1, f, (n - 1) as nat)
    }
}

/// A slot that never reports success is given its tries and no more: the boot
/// after the last of them goes back to the slot that came up before.
pub proof fn an_update_that_never_comes_up_is_rolled_back(
    d: crate::blk::DiskView,
    f: Region,
    c: ControlView,
)
    requires
        fits(d, f),
        d.answers((11 * (c.tries + 1)) as nat),
        crate::ota::control_on(d, f) == Some(c),
        c.state[c.active] == SlotState::Unverified,
        c.state[c.other()] == SlotState::Successful,
        holds(d.sectors, f, c, c.active),
        holds(d.sectors, f, c, c.other()),
    ensures
        crate::ota::boot_outcome(after_boots(d, f, c.tries as nat), f).2 == (Outcome::RolledBack {
            from: c.active as usize,
            to: c.other() as usize,
            version: c.version[c.other()],
        }),
    decreases c.tries,
{
    lemma_control_is_wf(d, f);
    if c.tries > 0 {
        let d1 = d.after_read();
        let (c2, d2, o) = crate::ota::boot_outcome(d, f);
        lemma_slots_apart(d, d, f, c.active);
        let more = (11 * c.tries) as nat;
        lemma_sound_attempt(d, f, c, more);
        lemma_slots_apart(d, d, f, c.other());
        lemma_slots_apart(d, d2, f, c.active);
        lemma_slots_apart(d, d2, f, c.other());
        an_update_that_never_comes_up_is_rolled_back(d2, f, c2);
    } else {
        let d1 = d.after_read();
        crate::blk::answers_after(d, 1, 9);
        lemma_switch_spends(d1, f, c.rolled_back(), 8);
        the_switch_happened_or_did_not(d1, f, c.rolled_back());
        let d2 = crate::ota::write_outcome(d1, f, c.rolled_back()).1;
        lemma_slots_apart(d, d, f, c.other());
        lemma_slots_apart(d1, d2, f, c.other());
        crate::blk::answered_reads(d2, f.base(c.other()) as u64, 8);
    }
}

/// A boot on probation of a slot that holds its image, and what is left of the driver's
/// patience.
proof fn lemma_sound_attempt(d: crate::blk::DiskView, f: Region, c: ControlView, more: nat)
    requires
        fits(d, f),
        c.wf(),
        d.answers(more + 11),
        crate::ota::control_on(d, f) == Some(c),
        c.state[c.active] == SlotState::Unverified,
        c.tries > 0,
        holds(d.sectors, f, c, c.active),
    ensures
        ({
            let (c2, d2, o) = crate::ota::boot_outcome(d, f);
            &&& c2 == c.one_try_spent().numbered()
            &&& c2.wf()
            &&& d2.answers(more)
            &&& d2.wf()
            &&& d2.sectors.len() == d.sectors.len()
            &&& crate::ota::decoded(d2.sectors[f.start as int]) == Some(c2)
            &&& forall|i: int|
                0 <= i < d.sectors.len() && i != f.start ==> #[trigger] d2.sectors[i]
                    == d.sectors[i]
        }),
{
    let d1 = d.after_read();
    lemma_slots_apart(d, d, f, c.active);
    crate::blk::answers_after(d, 1, more + 10);
    crate::blk::answers_after(d1, 8, more + 2);
    crate::blk::answered_reads(d1, f.base(c.active) as u64, 8);
    let dl = crate::ota::after_load(d1, f, c.active);
    assert(dl.answers(more + 1)) by {
        crate::blk::answers_after(dl, more + 1, 1);
    }
    lemma_switch_spends(dl, f, c.one_try_spent(), more);
    the_switch_happened_or_did_not(dl, f, c.one_try_spent());
}

#[verifier::rlimit(30)]
proof fn lemma_image_reads_back(version: u64, healthy: bool)
    ensures
        crate::ota::image_in(crate::ota::image(version, healthy)) == Ok::<ImageView, &'static str>(
            ImageView {
                version,
                flags: if healthy {
                    FLAG_HEALTHY
                } else {
                    0
                },
                digest: crate::sha256::digest_of(crate::ota::image(version, healthy)),
            },
        ),
        crate::ota::image(version, healthy).len() == 4096,
{
    let b = crate::ota::image(version, healthy);
    let flags = if healthy {
        FLAG_HEALTHY
    } else {
        0
    };
    assert(b.subrange(0, 8) =~= crate::bytes::le64_bytes(IMG_MAGIC));
    crate::bytes::le64_reads_back(b, 0, IMG_MAGIC);
    assert(b.subrange(8, 16) =~= crate::bytes::le64_bytes(version));
    crate::bytes::le64_reads_back(b, 8, version);
    assert(b.subrange(16, 24) =~= crate::bytes::le64_bytes(flags));
    crate::bytes::le64_reads_back(b, 16, flags);
}

/// The writes that put an image in one slot leave every other sector alone, and
/// if they all succeed the slot holds the image.
proof fn lemma_image_lands(
    d: crate::blk::DiskView,
    f: Region,
    slot: int,
    version: u64,
    healthy: bool,
)
    requires
        fits(d, f),
        0 <= slot <= 1,
    ensures
        ({
            let (d1, r1) = d.after_writes(crate::ota::image_writes(f, slot, version, healthy));
            &&& d1.sectors.len() == d.sectors.len()
            &&& d1.wf()
            &&& forall|i: int|
                0 <= i < d.sectors.len() && !(f.base(slot) <= i < f.base(slot) + 8)
                    ==> #[trigger] d1.sectors[i] == d.sectors[i]
            &&& r1 is Ok ==> crate::ota::slot_bytes(d1.sectors, f, slot) == crate::ota::image(
                version,
                healthy,
            )
        }),
{
    let img = crate::ota::image(version, healthy);
    let base = f.base(slot) as u64;
    let ws = crate::ota::image_writes(f, slot, version, healthy);
    lemma_image_reads_back(version, healthy);
    lemma_slots_apart(d, d, f, slot);
    assert(ws.len() == 8);
    assert(ws.take(8) =~= ws);
    let (d1, r1) = d.after_writes(ws);
    crate::blk::writes_touch_only_their_sectors(d, ws);
    assert forall|i: int|
        0 <= i < d.sectors.len() && !(f.base(slot) <= i < f.base(slot) + 8) implies
        #[trigger] d1.sectors[i] == d.sectors[i] by {
        assert forall|k: int| 0 <= k < ws.len() implies (#[trigger] ws[k]).0 != i by {
            assert(ws[k].0 == (base + k) as u64);
        }
    }
    assert forall|i: int| 0 <= i < d1.sectors.len() implies (#[trigger] d1.sectors[i]).len()
        == 512 by {
        if d1.sectors[i] != d.sectors[i] {
            let k = choose|k: int|
                0 <= k < ws.len() && (#[trigger] ws[k]).0 == i && ws[k].1 == d1.sectors[i];
            assert(ws[k].1 == crate::fs::sector_of(img, k));
        }
    }
    if r1 is Ok {
        crate::fs_laws::written_data_is_on_the_disk(d, base, img, 8);
        let got = crate::ota::slot_bytes(d1.sectors, f, slot);
        assert forall|i: int| 0 <= i < 4096 implies #[trigger] got[i] == img[i] by {
            let s = i / 512;
            assert(d1.sectors[base + s] == crate::fs::sector_of(img, s));
            assert(512 * s + i % 512 == i);
        }
        assert(got =~= img);
    }
}

/// An interrupted install costs a slot, not a device: whatever happens while the
/// other slot is being written, the running slot is as it was, and the control
/// block is the old one unless the new image is down whole.
pub proof fn an_interrupted_install_costs_only_the_slot(
    d: crate::blk::DiskView,
    f: Region,
    c: ControlView,
    version: u64,
    healthy: bool,
)
    requires
        fits(d, f),
        c.wf(),
    ensures
        ({
            let slot = c.other();
            let (now, d2, r) = crate::ota::stage_outcome(d, f, c, slot, version, healthy);
            &&& crate::ota::slot_bytes(d2.sectors, f, c.active) == crate::ota::slot_bytes(
                d.sectors,
                f,
                c.active,
            )
            &&& d2.sectors[f.start as int] == d.sectors[f.start as int] || (crate::ota::decoded(
                d2.sectors[f.start as int],
            ) == Some(now) && crate::ota::slot_bytes(d2.sectors, f, slot) == crate::ota::image(
                version,
                healthy,
            ))
            &&& r is Ok ==> crate::ota::decoded(d2.sectors[f.start as int]) == Some(now)
        }),
{
    let slot = c.other();
    let ws = crate::ota::image_writes(f, slot, version, healthy);
    let (d1, r1) = d.after_writes(ws);
    lemma_image_lands(d, f, slot, version, healthy);
    lemma_slots_apart(d, d, f, slot);
    lemma_slots_apart(d, d, f, c.active);
    assert(f.base(0) + 8 <= f.base(1) || f.base(1) + 8 <= f.base(0));
    lemma_slots_apart(d, d1, f, c.active);
    if r1 is Ok {
        crate::sha256::digest_has_32_bytes(crate::ota::image(version, healthy));
        let next = c.on_probation(
            slot,
            version,
            crate::sha256::digest_of(crate::ota::image(version, healthy)),
        );
        assert(next.wf());
        the_switch_happened_or_did_not(d1, f, next);
        let d2 = crate::ota::write_outcome(d1, f, next).1;
        lemma_slots_apart(d1, d2, f, c.active);
        lemma_slots_apart(d1, d2, f, slot);
    }
}

/// What a boot does with a slot that holds its image.
proof fn lemma_boot_of_a_sound_slot(
    d: crate::blk::DiskView,
    f: Region,
    c: ControlView,
    img: ImageView,
)
    requires
        fits(d, f),
        c.wf(),
        d.answers(9),
        d.read_result(f.start) is Ok,
        crate::ota::decoded(d.sectors[f.start as int]) == Some(c),
        crate::ota::image_in(crate::ota::slot_bytes(d.sectors, f, c.active)) == Ok::<
            ImageView,
            &'static str,
        >(img),
        img.digest == c.digest[c.active],
        img.version == c.version[c.active],
        !c.out_of_tries(),
    ensures
        crate::ota::boot_outcome(d, f).2 == if c.state[c.active] == SlotState::Unverified {
            Outcome::Trying {
                slot: c.active as usize,
                version: img.version,
                tries_left: (c.tries - 1) as u8,
                healthy: img.flags & FLAG_HEALTHY != 0,
            }
        } else {
            Outcome::Running { slot: c.active as usize, version: img.version }
        },
{
    lemma_slots_apart(d, d, f, c.active);
    assert(crate::ota::control_on(d, f) == Some(c));
    crate::blk::answers_after(d, 1, 8);
    crate::blk::answered_reads(d.after_read(), f.base(c.active) as u64, 8);
}

/// A control block that has just been written is what a boot finds.
proof fn lemma_boot_after_a_switch(
    d: crate::blk::DiskView,
    f: Region,
    c: ControlView,
    img: ImageView,
)
    requires
        fits(d, f),
        c.wf(),
        crate::ota::write_outcome(d, f, c).2 is Ok,
        crate::ota::write_outcome(d, f, c).1.answers(9),
        crate::ota::image_in(crate::ota::slot_bytes(d.sectors, f, c.active)) == Ok::<
            ImageView,
            &'static str,
        >(img),
        img.digest == c.digest[c.active],
        img.version == c.version[c.active],
        !c.out_of_tries(),
    ensures
        crate::ota::boot_outcome(crate::ota::write_outcome(d, f, c).1, f).2 == if c.state[c.active]
            == SlotState::Unverified {
            Outcome::Trying {
                slot: c.active as usize,
                version: img.version,
                tries_left: (c.tries - 1) as u8,
                healthy: img.flags & FLAG_HEALTHY != 0,
            }
        } else {
            Outcome::Running { slot: c.active as usize, version: img.version }
        },
{
    the_switch_happened_or_did_not(d, f, c);
    let (n, d2, r) = crate::ota::write_outcome(d, f, c);
    lemma_slots_apart(d, d, f, c.active);
    lemma_slots_apart(d, d2, f, c.active);
    lemma_boot_of_a_sound_slot(d2, f, n, img);
}

/// What a boot does with an image that has just been written and switched to.
proof fn lemma_boot_after_an_install(
    d: crate::blk::DiskView,
    f: Region,
    next: ControlView,
    version: u64,
    healthy: bool,
)
    requires
        fits(d, f),
        next.wf(),
        !next.out_of_tries(),
        next.version[next.active] == version,
        next.digest[next.active] == crate::sha256::digest_of(crate::ota::image(version, healthy)),
        ({
            let (d1, r1) = d.after_writes(
                crate::ota::image_writes(f, next.active, version, healthy),
            );
            let (n, d2, r2) = crate::ota::write_outcome(d1, f, next);
            r1 is Ok && r2 is Ok && d2.answers(9)
        }),
    ensures
        ({
            let d1 = d.after_writes(
                crate::ota::image_writes(f, next.active, version, healthy),
            ).0;
            let d2 = crate::ota::write_outcome(d1, f, next).1;
            crate::ota::boot_outcome(d2, f).2 == if next.state[next.active]
                == SlotState::Unverified {
                Outcome::Trying {
                    slot: next.active as usize,
                    version,
                    tries_left: (next.tries - 1) as u8,
                    healthy,
                }
            } else {
                Outcome::Running { slot: next.active as usize, version }
            }
        }),
{
    let d1 = d.after_writes(crate::ota::image_writes(f, next.active, version, healthy)).0;
    lemma_image_lands(d, f, next.active, version, healthy);
    lemma_image_reads_back(version, healthy);
    let img = crate::ota::image_in(crate::ota::image(version, healthy))->Ok_0;
    lemma_boot_after_a_switch(d1, f, next, img);
    assert(1u64 & 1 != 0) by (bit_vector);
    assert(0u64 & 1 == 0) by (bit_vector);
}

/// A staged update boots on probation: the next boot tries it, with one of its
/// tries already spent.
pub proof fn a_staged_update_boots_on_probation(
    d: crate::blk::DiskView,
    f: Region,
    c: ControlView,
    slot: int,
    version: u64,
    healthy: bool,
)
    requires
        fits(d, f),
        c.wf(),
        0 <= slot <= 1,
        crate::ota::stage_outcome(d, f, c, slot, version, healthy).2 is Ok,
        crate::ota::stage_outcome(d, f, c, slot, version, healthy).1.answers(9),
    ensures
        crate::ota::boot_outcome(
            crate::ota::stage_outcome(d, f, c, slot, version, healthy).1,
            f,
        ).2 == (Outcome::Trying {
            slot: slot as usize,
            version,
            tries_left: (MAX_TRIES - 1) as u8,
            healthy,
        }),
{
    let digest = crate::sha256::digest_of(crate::ota::image(version, healthy));
    crate::sha256::digest_has_32_bytes(crate::ota::image(version, healthy));
    lemma_boot_after_an_install(
        d,
        f,
        c.on_probation(slot, version, digest),
        version,
        healthy,
    );
}

/// A slot that reported success runs from then on.
pub proof fn a_proven_slot_runs(d: crate::blk::DiskView, f: Region, c: ControlView)
    requires
        fits(d, f),
        c.wf(),
        holds(d.sectors, f, c, c.active),
        crate::ota::write_outcome(d, f, c.proved()).2 is Ok,
        crate::ota::write_outcome(d, f, c.proved()).1.answers(9),
    ensures
        crate::ota::boot_outcome(crate::ota::write_outcome(d, f, c.proved()).1, f).2 == (
        Outcome::Running { slot: c.active as usize, version: c.version[c.active] }),
{
    let img = crate::ota::image_in(crate::ota::slot_bytes(d.sectors, f, c.active))->Ok_0;
    lemma_boot_after_a_switch(d, f, c.proved(), img);
}

/// A device that was set up runs version 1 from slot A.
#[verifier::rlimit(60)]
pub proof fn a_new_device_runs_its_first_version(d: crate::blk::DiskView, f: Region)
    requires
        fits(d, f),
        d.after_writes(crate::ota::image_writes(f, 0, 1, true)).1 is Ok,
        ({
            let d1 = d.after_writes(crate::ota::image_writes(f, 0, 1, true)).0;
            let (c, d2, r) = crate::ota::write_outcome(d1, f, crate::ota::first_control());
            r is Ok && d2.answers(9)
        }),
    ensures
        ({
            let d1 = d.after_writes(crate::ota::image_writes(f, 0, 1, true)).0;
            let d2 = crate::ota::write_outcome(d1, f, crate::ota::first_control()).1;
            crate::ota::boot_outcome(d2, f).2 == (Outcome::Running { slot: 0, version: 1 })
        }),
{
    lemma_first_control();
    lemma_boot_after_an_install(d, f, crate::ota::first_control(), 1, true);
}

proof fn lemma_first_control()
    ensures
        ({
            let c = crate::ota::first_control();
            &&& c.wf()
            &&& c.active == 0
            &&& c.state[0] == SlotState::Successful
            &&& c.version[0] == 1
            &&& c.digest[0] == crate::sha256::digest_of(crate::ota::image(1, true))
        }),
{
    reveal(crate::ota::first_control);
    crate::sha256::digest_has_32_bytes(crate::ota::image(1, true));
}

/// A control block with any one byte changed is not a control block.
pub proof fn a_damaged_control_block_is_rejected(raw: Seq<u8>, at: int, v: u8)
    requires
        raw.len() == 512,
        crate::ota::decoded(raw) is Some,
        0 <= at < 512,
        raw[at] != v,
    ensures
        crate::ota::decoded(raw.update(at, v)) is None,
{
    crate::fs_laws::one_changed_byte_is_noticed(raw, at, v);
}

// ---- what is on the disk --------------------------------------------------------------------

/// A state's byte says the state, and every byte that is no state's says that the slot is empty.
pub proof fn a_byte_says_its_state(s: SlotState, v: u8)
    ensures
        crate::ota::state_of(crate::ota::state_byte(s)) == s,
        crate::ota::state_byte(SlotState::Empty) == 0,
        crate::ota::state_byte(SlotState::Unverified) == 1,
        crate::ota::state_byte(SlotState::Successful) == 2,
        crate::ota::state_byte(SlotState::Failed) == 3,
        v > 3 ==> crate::ota::state_of(v) == SlotState::Empty,
{
}

/// Where a control block says what: its mark, its number, which slot is active, the tries left
/// and the rollbacks so far, and of each slot its state, its version and its digest.
pub proof fn a_control_block_is_read_in_place(raw: Seq<u8>)
    requires
        raw.len() == 512,
    ensures
        match crate::ota::decoded(raw) {
            Some(c) => {
                &&& crate::fs::is_intact(raw) && little(raw.subrange(0, 8))
                    == 0x4A42_4F4F_5443_4230
                &&& c.seq == little(raw.subrange(8, 16))
                &&& c.active == raw[16] % 2
                &&& c.tries == raw[17]
                &&& c.rollbacks == raw[18]
                &&& c.state.len() == 2 && c.state[0] == crate::ota::state_of(raw[19])
                    && c.state[1] == crate::ota::state_of(raw[20])
                &&& c.version.len() == 2 && c.version[0] == little(raw.subrange(24, 32))
                    && c.version[1] == little(raw.subrange(32, 40))
                &&& c.digest.len() == 2 && c.digest[0] == raw.subrange(40, 72) && c.digest[1]
                    == raw.subrange(72, 104)
            },
            None => !crate::fs::is_intact(raw) || little(raw.subrange(0, 8))
                != 0x4A42_4F4F_5443_4230,
        },
{
    crate::bytes_laws::integers_are_what_their_bytes_say(raw, 0);
    crate::bytes_laws::integers_are_what_their_bytes_say(raw, 8);
    crate::bytes_laws::integers_are_what_their_bytes_say(raw, 24);
    crate::bytes_laws::integers_are_what_their_bytes_say(raw, 32);
}

/// An image says its version and whether it is healthy, and every byte behind its header is
/// that version's.
pub proof fn an_image_says_its_version(version: u64, healthy: bool, i: int)
    requires
        32 <= i < 4096,
    ensures
        ({
            let b = crate::ota::image(version, healthy);
            &&& b.len() == 4096
            &&& little(b.subrange(0, 8)) == 0x4A53_5953_494D_4730
            &&& little(b.subrange(8, 16)) == version
            &&& little(b.subrange(16, 24)) == if healthy {
                1int
            } else {
                0
            }
            &&& little(b.subrange(24, 32)) == 4096 - 32
            &&& b[i] == (i * 37 % 256) as u8 ^ (version * 1103 % 256) as u8
        }),
{
    let b = crate::ota::image(version, healthy);
    let flag: u64 = if healthy {
        1
    } else {
        0
    };
    crate::bytes_laws::bytes_say_their_integer(0, 0, IMG_MAGIC);
    crate::bytes_laws::bytes_say_their_integer(0, 0, version);
    crate::bytes_laws::bytes_say_their_integer(0, 0, flag);
    crate::bytes_laws::bytes_say_their_integer(0, 0, 4064);
    assert(b.subrange(0, 8) =~= crate::bytes::le64_bytes(IMG_MAGIC));
    assert(b.subrange(8, 16) =~= crate::bytes::le64_bytes(version));
    assert(b.subrange(16, 24) =~= crate::bytes::le64_bytes(flag));
    assert(b.subrange(24, 32) =~= crate::bytes::le64_bytes(4064));
}

/// What is found in a slot is what its bytes say: the mark, the version, the flags, and the
/// digest of all of them.
pub proof fn an_image_is_read_in_place(b: Seq<u8>)
    requires
        b.len() == 4096,
    ensures
        match crate::ota::image_in(b) {
            Ok(i) => {
                &&& little(b.subrange(0, 8)) == 0x4A53_5953_494D_4730
                &&& i.version == little(b.subrange(8, 16))
                &&& i.flags == little(b.subrange(16, 24))
                &&& i.digest == crate::sha256::digest_of(b)
            },
            Err(_) => little(b.subrange(0, 8)) != 0x4A53_5953_494D_4730,
        },
{
    crate::bytes_laws::integers_are_what_their_bytes_say(b, 0);
    crate::bytes_laws::integers_are_what_their_bytes_say(b, 8);
    crate::bytes_laws::integers_are_what_their_bytes_say(b, 16);
}

/// The control block and the slots stand one behind the other: slot A behind the control block,
/// slot B behind slot A, and a slot's bytes in their order.
pub proof fn the_slots_stand_one_behind_the_other(sectors: Seq<Seq<u8>>, f: Region, i: int)
    requires
        f.wf(),
        0 <= i < 4096,
    ensures
        f.base(0) == f.start + 1,
        f.base(1) == f.base(0) + f.slot_sectors,
        crate::ota::slot_bytes(sectors, f, 0)[i] == sectors[f.start + 1 + i / 512][i % 512],
        crate::ota::slot_bytes(sectors, f, 1)[i] == sectors[f.start + 1 + f.slot_sectors + i
            / 512][i % 512],
{
}

// ---- what changes in the control block ------------------------------------------------------

/// A staged slot becomes the active one, on probation with two tries, under the version and
/// digest it was given; nothing is forgotten of the other slot.
pub proof fn staging_changes_one_slot(c: ControlView, slot: int, version: u64, digest: Seq<u8>)
    requires
        c.wf(),
        slot == 0 || slot == 1,
    ensures
        ({
            let n = c.on_probation(slot, version, digest);
            &&& n.active == slot && n.tries == 2
            &&& n.state[slot] == SlotState::Unverified && n.version[slot] == version
                && n.digest[slot] == digest
            &&& n.state[1 - slot] == c.state[1 - slot] && n.version[1 - slot] == c.version[1
                - slot] && n.digest[1 - slot] == c.digest[1 - slot]
            &&& n.rollbacks == c.rollbacks && n.seq == c.seq
        }),
{
}

/// A rollback makes the other slot the active one, marks the one it leaves as failed, and is
/// counted; it changes no version and no digest.
pub proof fn a_rollback_changes_sides(c: ControlView)
    requires
        c.wf(),
    ensures
        ({
            let n = c.rolled_back();
            &&& n.active + c.active == 1
            &&& n.state[c.active] == SlotState::Failed
            &&& n.state[n.active] == c.state[n.active]
            &&& n.version == c.version && n.digest == c.digest && n.tries == c.tries && n.seq
                == c.seq
            &&& c.rollbacks < 255 ==> n.rollbacks == c.rollbacks + 1
            &&& c.rollbacks == 255 ==> n.rollbacks == 255
        }),
{
}

/// A slot that came up is marked so and keeps its place; the other is free for the next install
/// if it had come up before, and is left as it is if not. No version and no digest changes.
pub proof fn coming_up_frees_the_other_slot(c: ControlView)
    requires
        c.wf(),
    ensures
        ({
            let n = c.proved();
            let o = 1 - c.active;
            &&& n.active == c.active && n.tries == 0
            &&& n.state[c.active] == SlotState::Successful
            &&& n.state[o] == if c.state[o] == SlotState::Successful {
                SlotState::Empty
            } else {
                c.state[o]
            }
            &&& n.version == c.version && n.digest == c.digest && n.rollbacks == c.rollbacks
                && n.seq == c.seq
        }),
{
}

/// Every control block that is written has the next number and says the rest unchanged.
pub proof fn control_blocks_are_numbered(d: crate::blk::DiskView, f: Region, c: ControlView)
    requires
        c.seq < u64::MAX,
    ensures
        ({
            let n = crate::ota::write_outcome(d, f, c).0;
            &&& n.seq == c.seq + 1
            &&& n.active == c.active && n.tries == c.tries && n.rollbacks == c.rollbacks
            &&& n.state == c.state && n.version == c.version && n.digest == c.digest
        }),
{
}

} // verus!
