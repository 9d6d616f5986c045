//! A/B updates: two system slots, a boot counter, and a rollback rule.
//!
//! An update that can brick the device is not an update, it is a gamble. Keep two
//! copies of the system, install into the one you are not running, and boot the
//! new one on probation. If it never reports that it came up, go back.
//!
//! The whole mechanism is four rules, and the order of them is the mechanism:
//!
//! 1. An update is written to the *inactive* slot. Nothing that is running is
//!    ever overwritten, so an interrupted install costs a slot, not a device.
//! 2. Switching to it is a single sector write, so the switch either happened or
//!    did not.
//! 3. **The try counter is decremented and written to disk before the attempt,
//!    not after.** A system that decrements afterwards never decrements at all
//!    when the failure is a hang.
//! 4. Only the running system can mark itself good, and only after it has come
//!    up far enough to mean it. Until then the slot is on probation.
//!
//! The rules themselves are proved in [`crate::ota_laws`].
use vstd::prelude::*;
use crate::blk::Disk;
use crate::bytes::{get_u64, push_bytes, push_u64, same_bytes};
use crate::fs::{intact, seal};
use crate::sha256::digest;

verus! {

pub const CB_MAGIC: u64 = 0x4A42_4F4F_5443_4230;  // "JBOOTCB0"

pub const IMG_MAGIC: u64 = 0x4A53_5953_494D_4730;  // "JSYSIMG0"

/// How many boots a new slot gets to prove itself.
pub const MAX_TRIES: u8 = 2;

/// The synthetic system image: a header and a body of a pattern derived from the
/// version, so a slot holding the wrong version fails its digest check rather
/// than looking plausible.
pub const IMAGE_BYTES: usize = 4096;

pub const IMAGE_HEADER: usize = 32;

pub const IMAGE_SECTORS: u64 = 8;

pub const FLAG_HEALTHY: u64 = 1;

#[derive(Clone, Copy, PartialEq, Eq, Debug, Structural)]
pub enum SlotState {
    Empty,
    /// Written, switched to, and on probation.
    Unverified,
    /// Came up and said so.
    Successful,
    /// Ran out of tries.
    Failed,
}

/// The state that a byte stands for.
pub open spec fn state_of(v: u8) -> SlotState {
    match v {
        1 => SlotState::Unverified,
        2 => SlotState::Successful,
        3 => SlotState::Failed,
        _ => SlotState::Empty,
    }
}

/// The byte that stands for a state.
pub open spec fn state_byte(s: SlotState) -> u8 {
    match s {
        SlotState::Empty => 0,
        SlotState::Unverified => 1,
        SlotState::Successful => 2,
        SlotState::Failed => 3,
    }
}

impl SlotState {
    pub fn from(v: u8) -> (s: SlotState)
        ensures
            s == state_of(v),
    {
        match v {
            1 => SlotState::Unverified,
            2 => SlotState::Successful,
            3 => SlotState::Failed,
            _ => SlotState::Empty,
        }
    }

    pub fn to(self) -> (v: u8)
        ensures
            v == state_byte(self),
    {
        match self {
            SlotState::Empty => 0,
            SlotState::Unverified => 1,
            SlotState::Successful => 2,
            SlotState::Failed => 3,
        }
    }

    pub fn label(self) -> (s: &'static str)
        ensures
            s == (match self {
                SlotState::Empty => "empty",
                SlotState::Unverified => "unverified",
                SlotState::Successful => "successful",
                SlotState::Failed => "failed",
            }),
    {
        match self {
            SlotState::Empty => "empty",
            SlotState::Unverified => "unverified",
            SlotState::Successful => "successful",
            SlotState::Failed => "failed",
        }
    }
}

// ---- the control block -----------------------------------------------------------

/// A control block as a mathematical value.
#[verifier::ext_equal]
pub struct ControlView {
    pub seq: u64,
    pub active: int,
    pub tries: u8,
    pub rollbacks: u8,
    pub state: Seq<SlotState>,
    pub version: Seq<u64>,
    pub digest: Seq<Seq<u8>>,
}

impl ControlView {
    pub open spec fn wf(self) -> bool {
        &&& 0 <= self.active <= 1
        &&& self.state.len() == 2
        &&& self.version.len() == 2
        &&& self.digest.len() == 2
        &&& self.digest[0].len() == 32
        &&& self.digest[1].len() == 32
    }

    pub open spec fn other(self) -> int {
        1 - self.active
    }

    /// The next control block to be written.
    pub open spec fn numbered(self) -> ControlView {
        ControlView { seq: self.seq.wrapping_add(1), ..self }
    }
}

#[derive(Clone, Copy)]
pub struct Control {
    pub seq: u64,
    pub active: usize,
    pub tries: u8,
    pub rollbacks: u8,
    pub state: [SlotState; 2],
    pub version: [u64; 2],
    pub digest: [[u8; 32]; 2],
}

impl View for Control {
    type V = ControlView;

    open spec fn view(&self) -> ControlView {
        ControlView {
            seq: self.seq,
            active: self.active as int,
            tries: self.tries,
            rollbacks: self.rollbacks,
            state: self.state@,
            version: self.version@,
            digest: self.digest@.map_values(|d: [u8; 32]| d@),
        }
    }
}

pub open spec fn blank_control() -> ControlView {
    ControlView {
        seq: 0,
        active: 0,
        tries: 0,
        rollbacks: 0,
        state: seq![SlotState::Empty, SlotState::Empty],
        version: seq![0u64, 0u64],
        digest: seq![crate::fs::zeros(32), crate::fs::zeros(32)],
    }
}

/// What a control block's sector holds before padding and CRC.
pub open spec fn control_contents(c: ControlView) -> Seq<u8> {
    crate::bytes::le64_bytes(CB_MAGIC) + crate::bytes::le64_bytes(c.seq) + seq![
        c.active as u8,
        c.tries,
        c.rollbacks,
        state_byte(c.state[0]),
        state_byte(c.state[1]),
        0u8,
        0u8,
        0u8,
    ] + crate::bytes::le64_bytes(c.version[0]) + crate::bytes::le64_bytes(c.version[1])
        + c.digest[0] + c.digest[1]
}

/// A control block's sector.
pub open spec fn control_sector(c: ControlView) -> Seq<u8> {
    let b = control_contents(c);
    crate::fs::sealed(b + crate::fs::zeros(508 - b.len()))
}

/// The control block that a sector holds, if it holds one.
pub open spec fn decoded(raw: Seq<u8>) -> Option<ControlView> {
    if crate::bytes::le64(raw, 0) != CB_MAGIC || !crate::fs::is_intact(raw) {
        None
    } else {
        Some(
            ControlView {
                seq: crate::bytes::le64(raw, 8),
                active: raw[16] as int % 2,
                tries: raw[17],
                rollbacks: raw[18],
                state: seq![state_of(raw[19]), state_of(raw[20])],
                version: seq![crate::bytes::le64(raw, 24), crate::bytes::le64(raw, 32)],
                digest: seq![raw.subrange(40, 72), raw.subrange(72, 104)],
            },
        )
    }
}

fn copy_digest(raw: &[u8; 512], at: usize) -> (d: [u8; 32])
    requires
        at + 32 <= 512,
    ensures
        d@ == raw@.subrange(at as int, at + 32),
{
    let mut d: [u8; 32] = [0;32];
    let mut i: usize = 0;
    while i < 32
        invariant
            i <= 32,
            at + 32 <= 512,
            forall|k: int| 0 <= k < i ==> d@[k] == raw@[at + k],
        decreases 32 - i,
    {
        d[i] = raw[at + i];
        i = i + 1;
    }
    assert(d@ =~= raw@.subrange(at as int, at + 32));
    d
}

impl Control {
    pub fn blank() -> (c: Control)
        ensures
            c@ == blank_control(),
            c@.wf(),
    {
        let c = Control {
            seq: 0,
            active: 0,
            tries: 0,
            rollbacks: 0,
            state: [SlotState::Empty, SlotState::Empty],
            version: [0, 0],
            digest: [[0;32], [0;32]],
        };
        assert(c@.digest[0] =~= crate::fs::zeros(32));
        assert(c@.digest[1] =~= crate::fs::zeros(32));
        assert(c@ =~= blank_control());
        c
    }

    pub fn other(&self) -> (r: usize)
        requires
            self@.wf(),
        ensures
            r == self@.other(),
    {
        1 - self.active
    }

    pub fn decode(raw: &[u8; 512]) -> (r: Option<Control>)
        ensures
            match r {
                Some(c) => decoded(raw@) == Some(c@) && c@.wf(),
                None => decoded(raw@) is None,
            },
    {
        if get_u64(raw, 0) != CB_MAGIC || !intact(raw) {
            return None;
        }
        let c = Control {
            seq: get_u64(raw, 8),
            active: (raw[16] % 2) as usize,
            tries: raw[17],
            rollbacks: raw[18],
            state: [SlotState::from(raw[19]), SlotState::from(raw[20])],
            version: [get_u64(raw, 24), get_u64(raw, 32)],
            digest: [copy_digest(raw, 40), copy_digest(raw, 72)],
        };
        assert(c@ =~= decoded(raw@)->0);
        Some(c)
    }

    pub fn encode(&self) -> (raw: [u8; 512])
        requires
            self@.wf(),
        ensures
            raw@ == control_sector(self@),
    {
        let mut out: Vec<u8> = Vec::new();
        push_u64(&mut out, CB_MAGIC);
        push_u64(&mut out, self.seq);
        let flags: [u8; 8] = [
            self.active as u8,
            self.tries,
            self.rollbacks,
            self.state[0].to(),
            self.state[1].to(),
            0,
            0,
            0,
        ];
        push_bytes(&mut out, &flags);
        push_u64(&mut out, self.version[0]);
        push_u64(&mut out, self.version[1]);
        push_bytes(&mut out, &self.digest[0]);
        push_bytes(&mut out, &self.digest[1]);
        assert(out@ =~= control_contents(self@));
        seal(&out)
    }
}

/// Where on the disk the control block and the two slots are.
#[derive(Clone, Copy)]
pub struct Region {
    /// The control block's sector; slot A begins behind it.
    pub start: u64,
    /// Sectors in a slot.
    pub slot_sectors: u64,
}

impl Region {
    /// Every sector of both images has a number.
    pub open spec fn wf(self) -> bool {
        self.start + 1 + self.slot_sectors + IMAGE_SECTORS <= u64::MAX
    }

    /// The first sector of a slot.
    pub open spec fn base(self, slot: int) -> int {
        if slot == 0 {
            self.start + 1
        } else {
            self.start + 1 + self.slot_sectors
        }
    }
}

fn slot_sector(f: &Region, slot: usize) -> (s: u64)
    requires
        f.wf(),
        slot < 2,
    ensures
        s == f.base(slot as int),
        s + IMAGE_SECTORS <= u64::MAX,
{
    if slot == 0 {
        f.start + 1
    } else {
        f.start + 1 + f.slot_sectors
    }
}

/// The control block on the disk, if there is one to be read.
pub open spec fn control_on(d: crate::blk::DiskView, f: Region) -> Option<ControlView> {
    match d.read_result(f.start) {
        Ok(raw) => decoded(raw),
        Err(_) => None,
    }
}

pub fn read_control(f: &Region, disk: &mut Disk) -> (r: Option<Control>)
    ensures
        final(disk)@ == old(disk)@.after_read(),
        match r {
            Some(c) => control_on(old(disk)@, *f) == Some(c@) && c@.wf(),
            None => control_on(old(disk)@, *f) is None,
        },
{
    let mut raw: [u8; 512] = [0;512];
    match disk.read_sector(f.start, &mut raw) {
        Err(_) => None,
        Ok(_) => Control::decode(&raw),
    }
}

/// Writing a control block down: the block as written, the disk, the verdict.
pub open spec fn write_outcome(d: crate::blk::DiskView, f: Region, c: ControlView) -> (
    ControlView,
    crate::blk::DiskView,
    Result<(), &'static str>,
) {
    let n = c.numbered();
    (n, d.after_write(f.start, control_sector(n)), d.write_result(f.start))
}

/// Persist the control block. One sector, sealed, so it either lands or does not
/// — a device guarantees a sector, not a range.
pub fn write_control(f: &Region, disk: &mut Disk, c: &mut Control) -> (r: Result<(), &'static str>)
    requires
        old(c)@.wf(),
    ensures
        (final(c)@, final(disk)@, r) == write_outcome(old(disk)@, *f, old(c)@),
        final(c)@.wf(),
{
    c.seq = c.seq.wrapping_add(1);
    assert(c@ =~= old(c)@.numbered());
    let raw = c.encode();
    disk.write_sector(f.start, &raw)
}

// ---- the synthetic system image ----------------------------------------------------

/// Byte `offset` of the body of an image: the low bytes of two products, added
/// without carry.
pub open spec fn image_byte_of(version: u64, offset: int) -> u8 {
    ((offset * 37) % 256) as u8 ^ ((version * 1103) % 256) as u8
}

fn image_byte(version: u64, offset: usize) -> (b: u8)
    ensures
        b == image_byte_of(version, offset as int),
{
    let a: u8 = ((offset % 256) * 37 % 256) as u8;
    let v: u8 = ((version % 256) * 1103 % 256) as u8;
    proof {
        vstd::arithmetic::div_mod::lemma_mul_mod_noop_left(offset as int, 37, 256);
        vstd::arithmetic::div_mod::lemma_mul_mod_noop_left(version as int, 1103, 256);
    }
    a ^ v
}

pub open spec fn image_header(version: u64, healthy: bool) -> Seq<u8> {
    crate::bytes::le64_bytes(IMG_MAGIC) + crate::bytes::le64_bytes(version)
        + crate::bytes::le64_bytes(
        if healthy {
            FLAG_HEALTHY
        } else {
            0
        },
    ) + crate::bytes::le64_bytes(4064)
}

/// The system image of `version`, healthy or not.
pub open spec fn image(version: u64, healthy: bool) -> Seq<u8> {
    image_header(version, healthy) + Seq::new(4064, |i: int| image_byte_of(version, 32 + i))
}

/// Build a system image for `version`, healthy or not.
pub fn build_image(version: u64, healthy: bool, out: &mut [u8; 4096])
    ensures
        final(out)@ == image(version, healthy),
{
    let flags: u64 = if healthy {
        FLAG_HEALTHY
    } else {
        0
    };
    let mut head: Vec<u8> = Vec::new();
    push_u64(&mut head, IMG_MAGIC);
    push_u64(&mut head, version);
    push_u64(&mut head, flags);
    push_u64(&mut head, 4064);
    assert(head@ =~= image_header(version, healthy));
    let mut i: usize = 0;
    while i < 4096
        invariant
            i <= 4096,
            head@ == image_header(version, healthy),
            head@.len() == 32,
            forall|k: int| 0 <= k < i ==> out@[k] == image(version, healthy)[k],
        decreases 4096 - i,
    {
        if i < IMAGE_HEADER {
            out[i] = head[i];
        } else {
            out[i] = image_byte(version, i);
        }
        i = i + 1;
    }
    assert(out@ =~= image(version, healthy));
}

/// The writes that put an image in a slot.
pub open spec fn image_writes(f: Region, slot: int, version: u64, healthy: bool) -> Seq<
    (u64, Seq<u8>),
> {
    crate::fs::data_writes(f.base(slot) as u64, image(version, healthy))
}

fn write_image(f: &Region, disk: &mut Disk, slot: usize, img: &[u8; 4096]) -> (r: Result<
    (),
    &'static str,
>)
    requires
        f.wf(),
        slot < 2,
    ensures
        (final(disk)@, r) == old(disk)@.after_writes(
            crate::fs::data_writes(f.base(slot as int) as u64, img@),
        ),
{
    let base = slot_sector(f, slot);
    let ghost d0 = disk@;
    let ghost ws = crate::fs::data_writes(base, img@);
    let mut s: usize = 0;
    assert(ws.take(0) =~= Seq::empty());
    while s < 8
        invariant
            s <= 8,
            base + IMAGE_SECTORS <= u64::MAX,
            old(disk)@ == d0,
            ws == crate::fs::data_writes(base, img@),
            base == f.base(slot as int),
            ws.len() == 8,
            d0.after_writes(ws.take(s as int)) == (disk@, Ok::<(), &'static str>(())),
        decreases 8 - s,
    {
        let mut sector: [u8; 512] = [0;512];
        let mut j: usize = 0;
        while j < 512
            invariant
                j <= 512,
                s < 8,
                forall|k: int| 0 <= k < j ==> sector@[k] == img@[512 * s + k],
            decreases 512 - j,
        {
            sector[j] = img[512 * s + j];
            j = j + 1;
        }
        assert(sector@ =~= crate::fs::sector_of(img@, s as int));
        let w = disk.write_sector(base + s as u64, &sector);
        proof {
            assert(ws[s as int] == ((base + s) as u64, crate::fs::sector_of(img@, s as int)));
            crate::blk::run_extends(d0, ws.take(s as int), (base + s) as u64, sector@);
            assert(ws.take(s as int).push(ws[s as int]) =~= ws.take(s + 1));
        }
        match w {
            Err(e) => {
                proof {
                    crate::blk::failed_run_stops(d0, ws, s + 1);
                }
                return Err(e);
            },
            Ok(_) => {},
        }
        s = s + 1;
    }
    assert(ws.take(8) =~= ws);
    Ok(())
}

impl ControlView {
    /// Pointing at a freshly written slot, on probation.
    pub open spec fn on_probation(self, slot: int, version: u64, digest: Seq<u8>) -> ControlView {
        ControlView {
            active: slot,
            tries: MAX_TRIES,
            state: self.state.update(slot, SlotState::Unverified),
            version: self.version.update(slot, version),
            digest: self.digest.update(slot, digest),
            ..self
        }
    }
}

/// Everything staging an update does.
pub open spec fn stage_outcome(
    d: crate::blk::DiskView,
    f: Region,
    c: ControlView,
    slot: int,
    version: u64,
    healthy: bool,
) -> (ControlView, crate::blk::DiskView, Result<(), &'static str>) {
    let (d1, r1) = d.after_writes(image_writes(f, slot, version, healthy));
    match r1 {
        Err(e) => (c, d1, Err(e)),
        Ok(_) => write_outcome(
            d1,
            f,
            c.on_probation(slot, version, crate::sha256::digest_of(image(version, healthy))),
        ),
    }
}

/// Write an image into a slot and record its digest. The slot written is never
/// the one running: that is the caller's job to arrange, and the only reason an
/// interrupted install is survivable.
pub fn stage(
    f: &Region,
    disk: &mut Disk,
    c: &mut Control,
    slot: usize,
    version: u64,
    healthy: bool,
) -> (r: Result<(), &'static str>)
    requires
        f.wf(),
        old(c)@.wf(),
        slot < 2,
    ensures
        (final(c)@, final(disk)@, r) == stage_outcome(
            old(disk)@,
            *f,
            old(c)@,
            slot as int,
            version,
            healthy,
        ),
        final(c)@.wf(),
{
    let mut img: [u8; 4096] = [0;4096];
    build_image(version, healthy, &mut img);
    match write_image(f, disk, slot, &img) {
        Err(e) => {
            return Err(e);
        },
        Ok(_) => {},
    }
    // Only once the bytes are down does the control block start pointing at
    // them. A crash before this leaves an unreferenced slot; a crash after it
    // leaves a slot that will be checked before it is trusted.
    c.version[slot] = version;
    c.digest[slot] = digest(&img);
    c.state[slot] = SlotState::Unverified;
    c.active = slot;
    c.tries = MAX_TRIES;
    assert(c@ =~= old(c)@.on_probation(slot as int, version, crate::sha256::digest_of(img@)));
    write_control(f, disk, c)
}

pub struct Image {
    pub version: u64,
    pub flags: u64,
    pub digest: [u8; 32],
}

#[verifier::ext_equal]
pub struct ImageView {
    pub version: u64,
    pub flags: u64,
    pub digest: Seq<u8>,
}

impl View for Image {
    type V = ImageView;

    open spec fn view(&self) -> ImageView {
        ImageView { version: self.version, flags: self.flags, digest: self.digest@ }
    }
}

/// The bytes in a slot.
pub open spec fn slot_bytes(sectors: Seq<Seq<u8>>, f: Region, slot: int) -> Seq<u8> {
    Seq::new(4096, |i: int| crate::fs::extent_byte(sectors, f.base(slot) as u64, i))
}

/// The system image that bytes hold.
pub open spec fn image_in(b: Seq<u8>) -> Result<ImageView, &'static str> {
    if crate::bytes::le64(b, 0) != IMG_MAGIC {
        Err("slot holds no system image")
    } else {
        Ok(
            ImageView {
                version: crate::bytes::le64(b, 8),
                flags: crate::bytes::le64(b, 16),
                digest: crate::sha256::digest_of(b),
            },
        )
    }
}

/// What loading a slot gives.
pub open spec fn load_result(d: crate::blk::DiskView, f: Region, slot: int) -> Result<
    ImageView,
    &'static str,
> {
    match d.after_reads(f.base(slot) as u64, 8).1 {
        Err(e) => Err(e),
        Ok(_) => image_in(slot_bytes(d.sectors, f, slot)),
    }
}

/// The disk after loading a slot.
pub open spec fn after_load(d: crate::blk::DiskView, f: Region, slot: int) -> crate::blk::DiskView {
    d.after_reads(f.base(slot) as u64, 8).0
}

/// Read a slot back and measure it. Nothing is trusted on the strength of the
/// control block saying it should be there.
pub fn load(f: &Region, disk: &mut Disk, slot: usize) -> (r: Result<Image, &'static str>)
    requires
        f.wf(),
        slot < 2,
    ensures
        final(disk)@ == after_load(old(disk)@, *f, slot as int),
        match load_result(old(disk)@, *f, slot as int) {
            Ok(i) => r is Ok && (r->Ok_0)@ == i,
            Err(e) => r == Err::<Image, &'static str>(e),
        },
{
    let ghost d0 = disk@;
    let mut img: [u8; 4096] = [0;4096];
    let base = slot_sector(f, slot);
    let mut s: usize = 0;
    proof {
        crate::blk::readable_bounds(d0, base, 8);
    }
    while s < 8
        invariant
            s <= 8,
            base + IMAGE_SECTORS <= u64::MAX,
            base == f.base(slot as int),
            old(disk)@ == d0,
            disk@ == d0.spent(s as nat),
            s <= d0.readable(base, 8) <= 8,
            forall|k: int|
                0 <= k < 512 * s ==> #[trigger] img@[k] == crate::fs::extent_byte(
                    d0.sectors,
                    base,
                    k,
                ),
        decreases 8 - s,
    {
        let mut sector: [u8; 512] = [0;512];
        proof {
            disk.sectors_are_whole();
            crate::blk::reading_on(d0, base, 8, s as nat);
        }
        match disk.read_sector(base + s as u64, &mut sector) {
            Err(e) => {
                return Err(e);
            },
            Ok(_) => {},
        }
        let mut j: usize = 0;
        while j < 512
            invariant
                j <= 512,
                s < 8,
                sector@ == d0.sectors[base + s],
                forall|k: int|
                    0 <= k < 512 * s + j ==> #[trigger] img@[k] == crate::fs::extent_byte(
                        d0.sectors,
                        base,
                        k,
                    ),
            decreases 512 - j,
        {
            assert((512 * s + j) / 512 == s && (512 * s + j) % 512 == j);
            img[512 * s + j] = sector[j];
            j = j + 1;
        }
        s = s + 1;
    }
    assert(img@ =~= slot_bytes(d0.sectors, *f, slot as int));
    if get_u64(&img, 0) != IMG_MAGIC {
        return Err("slot holds no system image");
    }
    let i = Image { version: get_u64(&img, 8), flags: get_u64(&img, 16), digest: digest(&img) };
    Ok(i)
}

// ---- booting ------------------------------------------------------------------------

#[derive(PartialEq, Eq, Debug, Structural, Clone, Copy)]
pub enum Outcome {
    /// No control block: the device has never been updated.
    Fresh,
    /// The active slot is on probation and this boot is one of its tries.
    Trying { slot: usize, version: u64, tries_left: u8, healthy: bool },
    /// The slot ran out of tries and the other one was restored.
    RolledBack { from: usize, to: usize, version: u64 },
    /// Running a slot that has already proved itself.
    Running { slot: usize, version: u64 },
    /// The slot named by the control block does not hold what it should.
    Corrupt { slot: usize },
}

impl ControlView {
    /// The active slot has had its chances.
    pub open spec fn out_of_tries(self) -> bool {
        self.state[self.active] == SlotState::Unverified && self.tries == 0
    }

    /// Back on the other slot; the active one is never chosen again without being
    /// rewritten.
    pub open spec fn rolled_back(self) -> ControlView {
        ControlView {
            active: self.other(),
            rollbacks: if self.rollbacks == 255 {
                255
            } else {
                (self.rollbacks + 1) as u8
            },
            state: self.state.update(self.active, SlotState::Failed),
            ..self
        }
    }

    /// One try fewer.
    pub open spec fn one_try_spent(self) -> ControlView {
        ControlView {
            tries: if self.tries == 0 {
                0
            } else {
                (self.tries - 1) as u8
            },
            ..self
        }
    }

    /// Nothing to fall back to: one more try.
    pub open spec fn one_more_try(self) -> ControlView {
        ControlView { tries: 1, ..self }
    }
}

/// Booting the active slot.
pub open spec fn attempt(d: crate::blk::DiskView, f: Region, c: ControlView) -> (
    ControlView,
    crate::blk::DiskView,
    Outcome,
) {
    let d1 = after_load(d, f, c.active);
    let slot = c.active as usize;
    match load_result(d, f, c.active) {
        Err(_) => (c, d1, Outcome::Corrupt { slot }),
        Ok(img) => if img.digest != c.digest[c.active] || img.version != c.version[c.active] {
            (c, d1, Outcome::Corrupt { slot })
        } else if c.state[c.active] == SlotState::Unverified {
            let (c2, d2, _) = write_outcome(d1, f, c.one_try_spent());
            (
                c2,
                d2,
                Outcome::Trying {
                    slot,
                    version: img.version,
                    tries_left: c2.tries,
                    healthy: img.flags & FLAG_HEALTHY != 0,
                },
            )
        } else {
            (c, d1, Outcome::Running { slot, version: img.version })
        },
    }
}

/// Whether an image is the one that the control block records for a slot.
pub open spec fn as_recorded(img: Result<ImageView, &'static str>, c: ControlView, slot: int) -> bool {
    match img {
        Ok(i) => i.digest == c.digest[slot] && i.version == c.version[slot],
        Err(_) => false,
    }
}

/// Going back to the slot that `c` now names. That it came up once is no reason to
/// run it unchecked.
pub open spec fn restore(d: crate::blk::DiskView, f: Region, c: ControlView) -> (
    ControlView,
    crate::blk::DiskView,
    Outcome,
) {
    (
        c,
        after_load(d, f, c.active),
        if as_recorded(load_result(d, f, c.active), c, c.active) {
            Outcome::RolledBack {
                from: c.other() as usize,
                to: c.active as usize,
                version: c.version[c.active],
            }
        } else {
            Outcome::Corrupt { slot: c.active as usize }
        },
    )
}

/// Everything a boot does once the control block has been read.
pub open spec fn boot_from(d: crate::blk::DiskView, f: Region, c: ControlView) -> (
    ControlView,
    crate::blk::DiskView,
    Outcome,
) {
    if c.out_of_tries() {
        if c.state[c.other()] == SlotState::Successful {
            let (c2, d2, _) = write_outcome(d, f, c.rolled_back());
            restore(d2, f, c2)
        } else {
            let (c2, d2, _) = write_outcome(d, f, c.one_more_try());
            attempt(d2, f, c2)
        }
    } else {
        attempt(d, f, c)
    }
}

/// Everything a boot does: the control block in force, the disk, and what was
/// decided.
pub open spec fn boot_outcome(d: crate::blk::DiskView, f: Region) -> (
    ControlView,
    crate::blk::DiskView,
    Outcome,
) {
    match control_on(d, f) {
        None => (blank_control(), d.after_read(), Outcome::Fresh),
        Some(c) => boot_from(d.after_read(), f, c),
    }
}

/// Decide what to boot, and record the decision before acting on it.
#[verifier::rlimit(30)]
pub fn boot(f: &Region, disk: &mut Disk) -> (r: (Control, Outcome))
    requires
        f.wf(),
    ensures
        (r.0@, final(disk)@, r.1) == boot_outcome(old(disk)@, *f),
        r.0@.wf(),
{
    let mut c = match read_control(f, disk) {
        None => {
            return (Control::blank(), Outcome::Fresh);
        },
        Some(c) => c,
    };
    let ghost c0 = c@;
    let ghost d1 = disk@;

    // Out of tries: the slot had its chances. Go back to whichever slot last said
    // it came up, and mark this one so it is never chosen again without being
    // rewritten.
    if c.state[c.active] == SlotState::Unverified && c.tries == 0 {
        let from = c.active;
        let to = c.other();
        if c.state[to] == SlotState::Successful {
            c.state[from] = SlotState::Failed;
            c.active = to;
            c.rollbacks =
            if c.rollbacks == 255 {
                255
            } else {
                c.rollbacks + 1
            };
            assert(c@ =~= c0.rolled_back());
            let _ = write_control(f, disk, &mut c);
            let version = c.version[to];
            let ghost c2 = c@;
            let ghost d2 = disk@;
            assert(boot_outcome(old(disk)@, *f) == restore(d2, *f, c2));
            let sound = match load(f, disk, to) {
                Ok(i) => same_bytes(&i.digest, &c.digest[to]) && i.version == version,
                Err(_) => false,
            };
            if !sound {
                return (c, Outcome::Corrupt { slot: to });
            }
            return (c, Outcome::RolledBack { from, to, version });
        }
        // Nothing to fall back to. Keep trying rather than refuse to boot: a
        // device with one slot and a bad update is in trouble either way, and a
        // bootloop at least leaves a chance of being recovered.
        c.tries = 1;
        assert(c@ =~= c0.one_more_try());
        let _ = write_control(f, disk, &mut c);
    }
    let ghost c1 = c@;
    let ghost d2 = disk@;
    assert(boot_outcome(old(disk)@, *f) == attempt(d2, *f, c1));

    let slot = c.active;
    let img = match load(f, disk, slot) {
        Ok(i) => i,
        Err(_) => {
            return (c, Outcome::Corrupt { slot });
        },
    };
    if !same_bytes(&img.digest, &c.digest[slot]) || img.version != c.version[slot] {
        return (c, Outcome::Corrupt { slot });
    }
    if c.state[slot] == SlotState::Unverified {
        // Spend the try *now*. If this boot hangs or the power goes, the next one
        // must find one fewer try than this one did.
        c.tries =
        if c.tries == 0 {
            0
        } else {
            c.tries - 1
        };
        assert(c@ =~= c1.one_try_spent());
        let _ = write_control(f, disk, &mut c);
        let healthy = img.flags & FLAG_HEALTHY != 0;
        return (
            c,
            Outcome::Trying { slot, version: img.version, tries_left: c.tries, healthy },
        );
    }
    (c, Outcome::Running { slot, version: img.version })
}

impl ControlView {
    /// The active slot has proved itself; the other is the next install's target.
    pub open spec fn proved(self) -> ControlView {
        let mine = self.state.update(self.active, SlotState::Successful);
        ControlView {
            tries: 0,
            state: if mine[self.other()] == SlotState::Successful {
                mine.update(self.other(), SlotState::Empty)
            } else {
                mine
            },
            ..self
        }
    }
}

/// The running system reporting that it came up. Only this turns probation into a
/// commitment.
pub fn mark_successful(f: &Region, disk: &mut Disk, c: &mut Control) -> (r: Result<
    (),
    &'static str,
>)
    requires
        old(c)@.wf(),
    ensures
        (final(c)@, final(disk)@, r) == write_outcome(old(disk)@, *f, old(c)@.proved()),
        final(c)@.wf(),
{
    let active = c.active;
    c.state[active] = SlotState::Successful;
    c.tries = 0;
    // The slot we came from is no longer needed and is the next install's target.
    // Leaving it marked successful would make a rollback go somewhere stale rather
    // than nowhere.
    let other = c.other();
    if c.state[other] == SlotState::Successful {
        c.state[other] = SlotState::Empty;
    }
    assert(c@ =~= old(c)@.proved());
    write_control(f, disk, c)
}

/// The control block of a device that has never been updated.
#[verifier::opaque]
pub open spec fn first_control() -> ControlView {
    ControlView {
        state: blank_control().state.update(0, SlotState::Successful),
        version: blank_control().version.update(0, 1),
        digest: blank_control().digest.update(0, crate::sha256::digest_of(image(1, true))),
        ..blank_control()
    }
}

/// Set up a device that has never been updated: slot A holds version 1 and has
/// already proved itself, because it is what is running.
pub fn initialise(f: &Region, disk: &mut Disk) -> (r: Result<Control, &'static str>)
    requires
        f.wf(),
    ensures
        ({
            let (d1, r1) = old(disk)@.after_writes(image_writes(*f, 0, 1, true));
            let (c2, d2, r2) = write_outcome(d1, *f, first_control());
            match r1 {
                Err(e) => r == Err::<Control, &'static str>(e) && final(disk)@ == d1,
                Ok(_) => final(disk)@ == d2 && match r2 {
                    Err(e) => r == Err::<Control, &'static str>(e),
                    Ok(_) => r is Ok && (r->Ok_0)@ == c2 && c2.wf(),
                },
            }
        }),
{
    let mut c = Control::blank();
    let mut img: [u8; 4096] = [0;4096];
    build_image(1, true, &mut img);
    match write_image(f, disk, 0, &img) {
        Err(e) => {
            return Err(e);
        },
        Ok(_) => {},
    }
    c.version[0] = 1;
    c.digest[0] = digest(&img);
    c.state[0] = SlotState::Successful;
    c.active = 0;
    c.tries = 0;
    reveal(first_control);
    assert(c@ =~= first_control());
    match write_control(f, disk, &mut c) {
        Err(e) => Err(e),
        Ok(_) => Ok(c),
    }
}

pub fn slot_name(slot: usize) -> (s: &'static str)
    ensures
        s == (if slot == 0 {
            "A"
        } else {
            "B"
        }),
{
    if slot == 0 {
        "A"
    } else {
        "B"
    }
}

} // verus!
