//! The display driver in userspace, like the block driver.
//!
//! What it implements is the 2D subset of virtio-gpu: create a host resource,
//! attach guest memory as its backing store, point a scanout at it, and then
//! transfer and flush whenever the pixels change. On top of that it is the display
//! server: it takes a frame's worth of drawing commands, renders, and shows.
//!
//! Pixels are a slice, row by row; a pixel is 0xAARRGGBB. Letters come from a
//! [`Font`] the program brings.
use vstd::prelude::*;
use vstd::slice::slice_subrange;
use crate::bytes::{
    get_be16, get_u32, push_bytes, push_u32, push_u64, set_bytes, set_u16, set_u32,
};
use crate::virtq::{publish, used_idx, write_desc, Attach, DESC_F_NEXT, DESC_F_WRITE, PAGE};
use crate::wm::{HEIGHT, WIDTH};

verus! {

pub const FB_BYTES: u32 = 1_843_200;

pub const PIXELS: usize = 460_800;

// virtio-gpu commands.
pub const CMD_RESOURCE_CREATE_2D: u32 = 0x0101;

pub const CMD_SET_SCANOUT: u32 = 0x0103;

pub const CMD_RESOURCE_FLUSH: u32 = 0x0104;

pub const CMD_TRANSFER_TO_HOST_2D: u32 = 0x0105;

pub const CMD_RESOURCE_ATTACH_BACKING: u32 = 0x0106;

pub const RESP_OK_NODATA: u32 = 0x1100;

/// B8G8R8A8: a pixel is 0xAARRGGBB as a little-endian number.
pub const FORMAT_B8G8R8A8: u32 = 1;

pub const RESOURCE_ID: u32 = 1;

// Where things live inside the DMA region.
pub const CMD_OFF: usize = 4096;

pub const RESP_OFF: usize = 4608;

pub const FB_OFF: u64 = 8192;

pub const DEPTH: usize = 8;

pub const AVAIL_OFF: usize = 128;

/// How often the used ring is looked at before a command is given up on.
pub const MAX_WAITS: u32 = 16;

// ---- commands to the device --------------------------------------------------------------

/// A command: its header, and its fields.
pub open spec fn command(cmd: u32, fields: Seq<u8>) -> Seq<u8> {
    crate::bytes::le32_bytes(cmd) + Seq::new(20, |i: int| 0u8) + fields
}

/// A rectangle as large as the screen.
pub open spec fn whole_screen() -> Seq<u8> {
    crate::bytes::le32_bytes(0) + crate::bytes::le32_bytes(0) + crate::bytes::le32_bytes(
        WIDTH as u32,
    ) + crate::bytes::le32_bytes(HEIGHT as u32)
}

pub open spec fn create_resource_command() -> Seq<u8> {
    command(
        CMD_RESOURCE_CREATE_2D,
        crate::bytes::le32_bytes(RESOURCE_ID) + crate::bytes::le32_bytes(FORMAT_B8G8R8A8)
            + crate::bytes::le32_bytes(WIDTH as u32) + crate::bytes::le32_bytes(HEIGHT as u32),
    )
}

/// One entry, because the framebuffer came from a single contiguous region.
pub open spec fn attach_backing_command(dma: u64) -> Seq<u8> {
    command(
        CMD_RESOURCE_ATTACH_BACKING,
        crate::bytes::le32_bytes(RESOURCE_ID) + crate::bytes::le32_bytes(1)
            + crate::bytes::le64_bytes((dma + FB_OFF) as u64) + crate::bytes::le32_bytes(FB_BYTES)
            + crate::bytes::le32_bytes(0),
    )
}

pub open spec fn set_scanout_command() -> Seq<u8> {
    command(
        CMD_SET_SCANOUT,
        whole_screen() + crate::bytes::le32_bytes(0) + crate::bytes::le32_bytes(RESOURCE_ID),
    )
}

pub open spec fn transfer_command() -> Seq<u8> {
    command(
        CMD_TRANSFER_TO_HOST_2D,
        whole_screen() + crate::bytes::le64_bytes(0) + crate::bytes::le32_bytes(RESOURCE_ID)
            + crate::bytes::le32_bytes(0),
    )
}

pub open spec fn flush_command() -> Seq<u8> {
    command(
        CMD_RESOURCE_FLUSH,
        whole_screen() + crate::bytes::le32_bytes(RESOURCE_ID) + crate::bytes::le32_bytes(0),
    )
}

fn hdr(cmd: u32) -> (out: Vec<u8>)
    ensures
        out@ == command(cmd, Seq::empty()),
{
    let mut out: Vec<u8> = Vec::new();
    push_u32(&mut out, cmd);
    push_u32(&mut out, 0);
    push_u32(&mut out, 0);
    push_u32(&mut out, 0);
    push_u32(&mut out, 0);
    push_u32(&mut out, 0);
    proof {
        lemma_zero_bytes();
    }
    assert(out@ =~= command(cmd, Seq::empty()));
    out
}

proof fn lemma_zero_bytes()
    ensures
        crate::bytes::le32_bytes(0) == seq![0u8, 0u8, 0u8, 0u8],
{
    assert(0u32 >> 8 == 0 && 0u32 >> 16 == 0 && 0u32 >> 24 == 0) by (bit_vector);
    assert(crate::bytes::le32_bytes(0) =~= seq![0u8, 0u8, 0u8, 0u8]);
}

fn push_screen(out: &mut Vec<u8>)
    ensures
        final(out)@ == old(out)@ + whole_screen(),
{
    push_u32(out, 0);
    push_u32(out, 0);
    push_u32(out, WIDTH as u32);
    push_u32(out, HEIGHT as u32);
    assert(out@ =~= old(out)@ + whole_screen());
}

pub fn create_resource() -> (out: Vec<u8>)
    ensures
        out@ == create_resource_command(),
{
    let mut out = hdr(CMD_RESOURCE_CREATE_2D);
    push_u32(&mut out, RESOURCE_ID);
    push_u32(&mut out, FORMAT_B8G8R8A8);
    push_u32(&mut out, WIDTH as u32);
    push_u32(&mut out, HEIGHT as u32);
    assert(out@ =~= create_resource_command());
    out
}

/// Tell the device which guest memory holds the pixels.
pub fn attach_backing(dma: u64) -> (out: Vec<u8>)
    requires
        dma + FB_OFF <= u64::MAX,
    ensures
        out@ == attach_backing_command(dma),
{
    let mut out = hdr(CMD_RESOURCE_ATTACH_BACKING);
    push_u32(&mut out, RESOURCE_ID);
    push_u32(&mut out, 1);
    push_u64(&mut out, dma + FB_OFF);
    push_u32(&mut out, FB_BYTES);
    push_u32(&mut out, 0);
    assert(out@ =~= attach_backing_command(dma));
    out
}

pub fn set_scanout() -> (out: Vec<u8>)
    ensures
        out@ == set_scanout_command(),
{
    let mut out = hdr(CMD_SET_SCANOUT);
    push_screen(&mut out);
    push_u32(&mut out, 0);
    push_u32(&mut out, RESOURCE_ID);
    assert(out@ =~= set_scanout_command());
    out
}

/// Push the framebuffer to the host resource.
pub fn transfer() -> (out: Vec<u8>)
    ensures
        out@ == transfer_command(),
{
    let mut out = hdr(CMD_TRANSFER_TO_HOST_2D);
    push_screen(&mut out);
    push_u64(&mut out, 0);
    push_u32(&mut out, RESOURCE_ID);
    push_u32(&mut out, 0);
    assert(out@ =~= transfer_command());
    out
}

/// Show the host resource.
pub fn flush() -> (out: Vec<u8>)
    ensures
        out@ == flush_command(),
{
    let mut out = hdr(CMD_RESOURCE_FLUSH);
    push_screen(&mut out);
    push_u32(&mut out, RESOURCE_ID);
    push_u32(&mut out, 0);
    assert(out@ =~= flush_command());
    out
}

pub struct Gpu {
    pub dma_phys: u64,
    pub last_used: u16,
    pub avail_idx: u16,
    pub frames: u64,
}

/// A command laid out and offered: the command, a blank response, the two
/// descriptors, the ring, and the index.
pub open spec fn submitted(mem: Seq<u8>, dma: u64, idx: u16, cmd: Seq<u8>) -> Seq<u8> {
    let a = crate::bytes::splice(mem, CMD_OFF as int, cmd);
    let b = crate::bytes::splice(a, RESP_OFF as int, crate::bytes::le32_bytes(0));
    let c = crate::bytes::splice(
        b,
        0,
        crate::virtq::desc_bytes((dma + CMD_OFF) as u64, cmd.len() as u32, DESC_F_NEXT, 1),
    );
    let d = crate::bytes::splice(
        c,
        16,
        crate::virtq::desc_bytes((dma + RESP_OFF) as u64, 64, DESC_F_WRITE, 0),
    );
    let e = crate::bytes::splice(d, AVAIL_OFF + 4, crate::bytes::le16_bytes(0));
    crate::bytes::splice(e, AVAIL_OFF + 2, crate::bytes::le16_bytes(idx.wrapping_add(1)))
}

/// What a turn of waiting for the device says, and the driver after it.
pub open spec fn waited(g: Gpu, mem: Seq<u8>, turn: u32) -> (Option<bool>, Gpu) {
    let used = crate::virtq::used_of(mem);
    if turn >= MAX_WAITS {
        (Some(false), g)
    } else if used != g.last_used {
        (
            Some(crate::bytes::le32(mem, RESP_OFF as int) == RESP_OK_NODATA),
            Gpu { last_used: used, ..g },
        )
    } else {
        (None, g)
    }
}

impl Gpu {
    /// The conversation that brings the device up.
    pub fn attach(dma_phys: u64) -> (a: Attach)
        ensures
            a == (Attach {
                stage: crate::virtq::Stage::Identify,
                kind: 16,
                depth: 8,
                dma: dma_phys,
                start: true,
            }),
    {
        Attach::new(16, 8, dma_phys, true)
    }

    pub fn new(dma_phys: u64) -> (g: Gpu)
        ensures
            g == (Gpu { dma_phys, last_used: 0, avail_idx: 0, frames: 0 }),
    {
        Gpu { dma_phys, last_used: 0, avail_idx: 0, frames: 0 }
    }

    /// Lay a command out and offer it. The device is to be notified afterwards.
    pub fn submit(&mut self, mem: &mut [u8], cmd: &Vec<u8>)
        requires
            old(mem)@.len() >= 2 * PAGE,
            cmd@.len() <= 512,
            old(self).dma_phys + 2 * PAGE <= u64::MAX,
        ensures
            final(mem)@ == submitted(old(mem)@, old(self).dma_phys, old(self).avail_idx, cmd@),
            *final(self) == (Gpu { avail_idx: old(self).avail_idx.wrapping_add(1), ..*old(self) }),
    {
        set_bytes(mem, CMD_OFF, cmd.as_slice());
        set_u32(mem, RESP_OFF, 0);
        write_desc(mem, 0, self.dma_phys + CMD_OFF as u64, cmd.len() as u32, DESC_F_NEXT, 1);
        write_desc(mem, 1, self.dma_phys + RESP_OFF as u64, 64, DESC_F_WRITE, 0);
        set_u16(mem, AVAIL_OFF + 4, 0);
        self.avail_idx = publish(mem, DEPTH, self.avail_idx);
    }

    /// One turn of waiting for the device: `Some` of whether it agreed once it has
    /// answered, `Some(false)` when it is given up on, `None` where its interrupt is
    /// to be waited for first.
    pub fn wait(&mut self, mem: &[u8], turn: u32) -> (r: Option<bool>)
        requires
            mem@.len() >= 2 * PAGE,
        ensures
            (r, *final(self)) == waited(*old(self), mem@, turn),
    {
        if turn >= MAX_WAITS {
            return Some(false);
        }
        let used = used_idx(mem);
        if used != self.last_used {
            self.last_used = used;
            return Some(get_u32(mem, RESP_OFF) == RESP_OK_NODATA);
        }
        None
    }

    /// A frame was transferred and flushed: it counts if both were agreed to.
    pub fn presented(&mut self, ok: bool)
        ensures
            *final(self) == (Gpu {
                frames: if ok {
                    old(self).frames.wrapping_add(1)
                } else {
                    old(self).frames
                },
                ..*old(self)
            }),
    {
        if ok {
            self.frames = self.frames.wrapping_add(1);
        }
    }
}

// ---- drawing -------------------------------------------------------------------------------

/// Where a pixel is.
pub open spec fn at(x: int, y: int) -> int {
    y * 480 + x
}

/// Whether `after` is `before` with exactly the pixels that `on` says in `color`.
pub open spec fn painted(
    before: Seq<u32>,
    after: Seq<u32>,
    on: spec_fn(int, int) -> bool,
    color: u32,
) -> bool {
    &&& after.len() == before.len()
    &&& forall|x: int, y: int|
        0 <= x < 480 && 0 <= y < 960 ==> #[trigger] after[at(x, y)] == (if on(x, y) {
            color
        } else {
            before[at(x, y)]
        })
}

proof fn lemma_at(x: int, y: int)
    requires
        0 <= x < 480,
        0 <= y < 960,
    ensures
        0 <= at(x, y) < 460800,
{
}

proof fn lemma_at_unique(x: int, y: int, u: int, v: int)
    requires
        0 <= x < 480,
        0 <= u < 480,
        at(x, y) == at(u, v),
    ensures
        x == u,
        y == v,
{
}

/// Set one pixel. Nothing happens off the screen.
pub fn px(fb: &mut [u32], x: usize, y: usize, color: u32)
    requires
        old(fb)@.len() == PIXELS,
    ensures
        final(fb)@ == (if x < WIDTH && y < HEIGHT {
            old(fb)@.update(at(x as int, y as int), color)
        } else {
            old(fb)@
        }),
{
    if x >= WIDTH || y >= HEIGHT {
        return ;
    }
    proof {
        lemma_at(x as int, y as int);
    }
    fb[y * 480 + x] = color;
}

pub fn clear(fb: &mut [u32], color: u32)
    requires
        old(fb)@.len() == PIXELS,
    ensures
        final(fb)@ == Seq::new(PIXELS as nat, |i: int| color),
{
    let mut i: usize = 0;
    while i < PIXELS
        invariant
            i <= PIXELS,
            fb@.len() == PIXELS,
            forall|k: int| 0 <= k < i ==> fb@[k] == color,
        decreases PIXELS - i,
    {
        fb[i] = color;
        i = i + 1;
    }
    assert(fb@ =~= Seq::new(PIXELS as nat, |i: int| color));
}

/// Whether a point is in a rectangle.
pub open spec fn in_rect(x: usize, y: usize, w: usize, h: usize) -> spec_fn(int, int) -> bool {
    |px: int, py: int| x <= px < x + w && y <= py < y + h
}

fn cut(from: usize, extent: usize, limit: usize) -> (end: usize)
    ensures
        end <= limit,
        forall|p: int|
            0 <= p < limit ==> (#[trigger] in_span(p, from as int, extent as int) <==> from <= p
                < end),
{
    if from >= limit {
        0
    } else if extent < limit - from {
        from + extent
    } else {
        limit
    }
}

spec fn in_span(p: int, from: int, extent: int) -> bool {
    from <= p < from + extent
}

/// Fill a rectangle. What is off the screen is left out.
pub fn rect(fb: &mut [u32], x: usize, y: usize, w: usize, h: usize, color: u32)
    requires
        old(fb)@.len() == PIXELS,
    ensures
        painted(old(fb)@, final(fb)@, in_rect(x, y, w, h), color),
{
    let ghost f0 = fb@;
    let right = cut(x, w, WIDTH);
    let bottom = cut(y, h, HEIGHT);
    let mut py = y;
    while py < bottom
        invariant
            fb@.len() == PIXELS,
            f0.len() == PIXELS,
            right <= WIDTH,
            bottom <= HEIGHT,
            y <= py,
            forall|u: int, v: int|
                0 <= u < 480 && 0 <= v < 960 ==> #[trigger] fb@[at(u, v)] == (if x <= u < right && y
                    <= v < py && v < bottom {
                    color
                } else {
                    f0[at(u, v)]
                }),
        decreases bottom - py,
    {
        let mut px_ = x;
        while px_ < right
            invariant
                fb@.len() == PIXELS,
                f0.len() == PIXELS,
                right <= WIDTH,
                bottom <= HEIGHT,
                y <= py < bottom,
                x <= px_,
                forall|u: int, v: int|
                    0 <= u < 480 && 0 <= v < 960 ==> #[trigger] fb@[at(u, v)] == (if x <= u < right
                        && y <= v < bottom && (v < py || (v == py && u < px_)) {
                        color
                    } else {
                        f0[at(u, v)]
                    }),
            decreases right - px_,
        {
            let ghost f1 = fb@;
            px(fb, px_, py, color);
            proof {
                lemma_at(px_ as int, py as int);
                assert forall|u: int, v: int| 0 <= u < 480 && 0 <= v < 960 implies #[trigger] fb@[at(
                    u,
                    v,
                )] == (if x <= u < right && y <= v < bottom && (v < py || (v == py && u < px_ + 1)) {
                    color
                } else {
                    f0[at(u, v)]
                }) by {
                    lemma_at(u, v);
                    if at(u, v) == at(px_ as int, py as int) {
                        lemma_at_unique(u, v, px_ as int, py as int);
                    } else {
                        assert(fb@[at(u, v)] == f1[at(u, v)]);
                    }
                }
            }
            px_ = px_ + 1;
        }
        py = py + 1;
    }
    proof {
        let on = in_rect(x, y, w, h);
        assert forall|u: int, v: int| 0 <= u < 480 && 0 <= v < 960 implies #[trigger] fb@[at(u, v)]
            == (if on(u, v) {
            color
        } else {
            f0[at(u, v)]
        }) by {
            assert(in_span(u, x as int, w as int) <==> x <= u < right);
            assert(in_span(v, y as int, h as int) <==> y <= v < bottom);
        }
    }
}

/// Letters, eight pixels square: for each character from `first` to `last` eight
/// rows, the most significant bit leftmost.
pub struct Font {
    pub first: u8,
    pub last: u8,
    pub glyphs: Vec<[u8; 8]>,
}

impl Font {
    /// There is a glyph for every character in the range.
    pub open spec fn wf(&self) -> bool {
        self.first <= self.last && self.glyphs@.len() == self.last - self.first + 1
    }

    /// The rows of a character: lower case is drawn as upper case, and what has no
    /// glyph has no rows.
    pub open spec fn rows(&self, ch: u8) -> Option<Seq<u8>> {
        let c: u8 = if 0x61 <= ch <= 0x7a {
            (ch - 32) as u8
        } else {
            ch
        };
        if c < self.first || c > self.last {
            None
        } else {
            Some(self.glyphs@[c - self.first]@)
        }
    }

    /// Whether a character drawn `scale` times its size is on at (dx, dy).
    pub open spec fn on(&self, ch: u8, scale: int, dx: int, dy: int) -> bool {
        match self.rows(ch) {
            None => false,
            Some(rows) => 0 <= dx < 8 * scale && 0 <= dy < 8 * scale && rows[dy / scale] & (0x80u8
                >> ((dx / scale) as u8)) != 0,
        }
    }
}

/// Where a character drawn at (x, y) is on.
pub open spec fn letter(font: Font, ch: u8, x: int, y: int, scale: int) -> spec_fn(int, int) -> bool {
    |px: int, py: int| font.on(ch, scale, px - x, py - y)
}

/// Where the first `n` characters of a text drawn at (x, y) are on: one after the
/// other, eight pixels apart before scaling.
pub open spec fn lettering(font: Font, s: Seq<u8>, n: int, x: int, y: int, scale: int) -> spec_fn(
    int,
    int,
) -> bool {
    |px: int, py: int|
        exists|i: int|
            0 <= i < n && #[trigger] font.on(s[i], scale, px - (x + i * (8 * scale)), py - y)
}

proof fn lemma_cell(d: int, scale: int)
    requires
        scale > 0,
        0 <= d < 8 * scale,
    ensures
        0 <= d / scale < 8,
{
    assert(0 <= d / scale < 8) by (nonlinear_arith)
        requires
            scale > 0,
            0 <= d < 8 * scale,
    ;
}

/// Draw one character. Lowercase is folded to uppercase; anything without a glyph is
/// skipped rather than drawn as a box.
pub fn glyph(fb: &mut [u32], font: &Font, ch: u8, x: usize, y: usize, scale: usize, color: u32)
    requires
        old(fb)@.len() == PIXELS,
        font.wf(),
        8 * scale <= usize::MAX,
    ensures
        painted(old(fb)@, final(fb)@, letter(*font, ch, x as int, y as int, scale as int), color),
{
    let ghost f0 = fb@;
    let ghost on = letter(*font, ch, x as int, y as int, scale as int);
    let c: u8 = if 0x61 <= ch && ch <= 0x7a {
        ch - 32
    } else {
        ch
    };
    if c < font.first || c > font.last {
        return ;
    }
    let bits = &font.glyphs[(c - font.first) as usize];
    let size: usize = 8 * scale;
    let right = cut(x, size, WIDTH);
    let bottom = cut(y, size, HEIGHT);
    let mut py = y;
    while py < bottom
        invariant
            fb@.len() == PIXELS,
            f0.len() == PIXELS,
            right <= WIDTH,
            bottom <= HEIGHT,
            y <= py,
            size == 8 * scale,
            font.rows(ch) == Some(bits@),
            on == letter(*font, ch, x as int, y as int, scale as int),
            forall|p: int|
                0 <= p < 480 ==> (#[trigger] in_span(p, x as int, size as int) <==> x <= p < right),
            forall|p: int|
                0 <= p < 960 ==> (#[trigger] in_span(p, y as int, size as int) <==> y <= p
                    < bottom),
            forall|u: int, v: int|
                0 <= u < 480 && 0 <= v < 960 ==> #[trigger] fb@[at(u, v)] == (if v < py && on(u, v) {
                    color
                } else {
                    f0[at(u, v)]
                }),
        decreases bottom - py,
    {
        assert(in_span(py as int, y as int, size as int));
        proof {
            lemma_cell(py - y, scale as int);
        }
        let row = bits[(py - y) / scale];
        let mut col = x;
        while col < right
            invariant
                fb@.len() == PIXELS,
                f0.len() == PIXELS,
                right <= WIDTH,
                bottom <= HEIGHT,
                y <= py < bottom,
                x <= col,
                size == 8 * scale,
                scale > 0,
                0 <= py - y < size,
                font.rows(ch) == Some(bits@),
                row == bits@[(py - y) / scale as int],
                on == letter(*font, ch, x as int, y as int, scale as int),
                forall|p: int|
                    0 <= p < 480 ==> (#[trigger] in_span(p, x as int, size as int) <==> x <= p
                        < right),
                forall|u: int, v: int|
                    0 <= u < 480 && 0 <= v < 960 ==> #[trigger] fb@[at(u, v)] == (if (v < py || (v
                        == py && u < col)) && on(u, v) {
                        color
                    } else {
                        f0[at(u, v)]
                    }),
            decreases right - col,
        {
            let ghost f1 = fb@;
            assert(in_span(col as int, x as int, size as int));
            proof {
                lemma_cell(col - x, scale as int);
            }
            let cell: u8 = ((col - x) / scale) as u8;
            let lit = row & (0x80u8 >> cell) != 0;
            assert(lit == on(col as int, py as int));
            if lit {
                px(fb, col, py, color);
            }
            proof {
                lemma_at(col as int, py as int);
                assert forall|u: int, v: int| 0 <= u < 480 && 0 <= v < 960 implies #[trigger] fb@[at(
                    u,
                    v,
                )] == (if (v < py || (v == py && u < col + 1)) && on(u, v) {
                    color
                } else {
                    f0[at(u, v)]
                }) by {
                    lemma_at(u, v);
                    if at(u, v) == at(col as int, py as int) {
                        lemma_at_unique(u, v, col as int, py as int);
                    } else {
                        assert(fb@[at(u, v)] == f1[at(u, v)]);
                    }
                }
            }
            col = col + 1;
        }
        proof {
            assert forall|u: int, v: int| 0 <= u < 480 && 0 <= v < 960 implies #[trigger] fb@[at(
                u,
                v,
            )] == (if v < py + 1 && on(u, v) {
                color
            } else {
                f0[at(u, v)]
            }) by {
                assert(in_span(u, x as int, size as int) <==> x <= u < right);
            }
        }
        py = py + 1;
    }
    proof {
        assert forall|u: int, v: int| 0 <= u < 480 && 0 <= v < 960 implies #[trigger] fb@[at(u, v)]
            == (if on(u, v) {
            color
        } else {
            f0[at(u, v)]
        }) by {
            assert(in_span(v, y as int, size as int) <==> y <= v < bottom);
        }
    }
}

/// Draw a text.
pub fn text(
    fb: &mut [u32],
    font: &Font,
    s: &[u8],
    x: usize,
    y: usize,
    scale: usize,
    color: u32,
)
    requires
        old(fb)@.len() == PIXELS,
        font.wf(),
        x + s@.len() * (8 * scale) <= usize::MAX,
        8 * scale <= usize::MAX,
    ensures
        painted(
            old(fb)@,
            final(fb)@,
            lettering(*font, s@, s@.len() as int, x as int, y as int, scale as int),
            color,
        ),
{
    let ghost f0 = fb@;
    let size: usize = 8 * scale;
    let mut i: usize = 0;
    let mut cx = x;
    while i < s.len()
        invariant
            i <= s@.len(),
            fb@.len() == PIXELS,
            f0.len() == PIXELS,
            font.wf(),
            size == 8 * scale,
            cx == x + i * (8 * scale),
            x + s@.len() * (8 * scale) <= usize::MAX,
            painted(
                f0,
                fb@,
                lettering(*font, s@, i as int, x as int, y as int, scale as int),
                color,
            ),
        decreases s@.len() - i,
    {
        let ghost f1 = fb@;
        assert((i + 1) * (8 * scale) == i * (8 * scale) + 8 * scale && (i + 1) * (8 * scale)
            <= s@.len() * (8 * scale)) by (nonlinear_arith)
            requires
                0 <= i < s@.len(),
                scale >= 0,
        ;
        glyph(fb, font, s[i], cx, y, scale, color);
        proof {
            let was = lettering(*font, s@, i as int, x as int, y as int, scale as int);
            let now = lettering(*font, s@, i + 1, x as int, y as int, scale as int);
            let one = letter(*font, s@[i as int], cx as int, y as int, scale as int);
            assert forall|u: int, v: int| 0 <= u < 480 && 0 <= v < 960 implies #[trigger] fb@[at(
                u,
                v,
            )] == (if now(u, v) {
                color
            } else {
                f0[at(u, v)]
            }) by {
                lemma_one_more(*font, s@, i as int, x as int, y as int, scale as int, u, v);
                assert(f1[at(u, v)] == (if was(u, v) {
                    color
                } else {
                    f0[at(u, v)]
                }));
                assert(fb@[at(u, v)] == (if one(u, v) {
                    color
                } else {
                    f1[at(u, v)]
                }));
            }
        }
        cx = cx + size;
        i = i + 1;
    }
}

proof fn lemma_one_more(font: Font, s: Seq<u8>, i: int, x: int, y: int, scale: int, u: int, v: int)
    requires
        0 <= i < s.len(),
    ensures
        lettering(font, s, i + 1, x, y, scale)(u, v) == (lettering(font, s, i, x, y, scale)(u, v)
            || letter(font, s[i], x + i * (8 * scale), y, scale)(u, v)),
{
    if lettering(font, s, i + 1, x, y, scale)(u, v) {
        let k = choose|k: int|
            0 <= k < i + 1 && #[trigger] font.on(s[k], scale, u - (x + k * (8 * scale)), v - y);
        if k < i {
            assert(font.on(s[k], scale, u - (x + k * (8 * scale)), v - y));
        }
    }
    if lettering(font, s, i, x, y, scale)(u, v) {
        let k = choose|k: int|
            0 <= k < i && #[trigger] font.on(s[k], scale, u - (x + k * (8 * scale)), v - y);
        assert(font.on(s[k], scale, u - (x + k * (8 * scale)), v - y));
    }
    if letter(font, s[i], x + i * (8 * scale), y, scale)(u, v) {
        assert(font.on(s[i], scale, u - (x + i * (8 * scale)), v - y));
    }
}

// ---- the display server --------------------------------------------------------------------

pub const OP_CLEAR: u8 = 0x01;

pub const OP_RECT: u8 = 0x02;

pub const OP_TEXT: u8 = 0x03;

pub const OP_PRESENT: u8 = 0x04;

pub const OP_SHUTDOWN: u8 = 0xff;

/// One drawing command, as a mathematical value.
#[verifier::ext_equal]
pub enum OpView {
    Clear { color: u32 },
    Rect { x: u16, y: u16, w: u16, h: u16, color: u32 },
    Text { x: u16, y: u16, scale: u8, color: u32, bytes: Seq<u8> },
    Present,
}

/// One drawing command.
pub enum Op {
    Clear { color: u32 },
    Rect { x: u16, y: u16, w: u16, h: u16, color: u32 },
    Text { x: u16, y: u16, scale: u8, color: u32, bytes: Vec<u8> },
    Present,
}

impl View for Op {
    type V = OpView;

    open spec fn view(&self) -> OpView {
        match *self {
            Op::Clear { color } => OpView::Clear { color },
            Op::Rect { x, y, w, h, color } => OpView::Rect { x, y, w, h, color },
            Op::Text { x, y, scale, color, bytes } => OpView::Text {
                x,
                y,
                scale,
                color,
                bytes: bytes@,
            },
            Op::Present => OpView::Present,
        }
    }
}

/// How much of a message is left.
pub open spec fn to_go(n: int, i: int) -> int {
    if i >= n {
        0
    } else {
        n - i
    }
}

/// What a message in a receive buffer says from byte `i` on, when it is `n` bytes
/// long: drawing commands, and whether to shut down. What is malformed, or sticks
/// out of the buffer, ends it.
pub open spec fn said(msg: Seq<u8>, n: int, i: int) -> (Seq<OpView>, bool)
    decreases to_go(n, i),
{
    if i >= n {
        (Seq::empty(), false)
    } else if msg[i] == OP_CLEAR && i + 5 <= msg.len() {
        let rest = said(msg, n, i + 5);
        (seq![OpView::Clear { color: crate::bytes::le32(msg, i + 1) }] + rest.0, rest.1)
    } else if msg[i] == OP_RECT && i + 13 <= msg.len() {
        let rest = said(msg, n, i + 13);
        (
            seq![
                OpView::Rect {
                    x: crate::bytes::be16(msg, i + 1),
                    y: crate::bytes::be16(msg, i + 3),
                    w: crate::bytes::be16(msg, i + 5),
                    h: crate::bytes::be16(msg, i + 7),
                    color: crate::bytes::le32(msg, i + 9),
                },
            ] + rest.0,
            rest.1,
        )
    } else if msg[i] == OP_TEXT && i + 11 <= msg.len() && i + 11 + msg[i + 10] <= msg.len() {
        let rest = said(msg, n, i + 11 + msg[i + 10]);
        (
            seq![
                OpView::Text {
                    x: crate::bytes::be16(msg, i + 1),
                    y: crate::bytes::be16(msg, i + 3),
                    color: crate::bytes::le32(msg, i + 5),
                    scale: msg[i + 9],
                    bytes: msg.subrange(i + 11, i + 11 + msg[i + 10]),
                },
            ] + rest.0,
            rest.1,
        )
    } else if msg[i] == OP_PRESENT {
        let rest = said(msg, n, i + 1);
        (seq![OpView::Present] + rest.0, rest.1)
    } else {
        (Seq::empty(), msg[i] == OP_SHUTDOWN)
    }
}

/// Commands as mathematical values.
pub open spec fn op_views(ops: Seq<Op>) -> Seq<OpView> {
    ops.map_values(|o: Op| o@)
}

/// Understand a message of `n` bytes in a receive buffer.
pub fn decode(msg: &[u8], n: usize) -> (r: (Vec<Op>, bool))
    requires
        n <= msg@.len(),
        msg@.len() + 300 <= usize::MAX,
    ensures
        (op_views(r.0@), r.1) == said(msg@, n as int, 0),
{
    let len: usize = msg.len();
    let mut ops: Vec<Op> = Vec::new();
    let mut i: usize = 0;
    let ghost all = said(msg@, n as int, 0);
    assert(op_views(ops@) + all.0 =~= all.0);
    loop
        invariant
            n <= len,
            len == msg@.len(),
            len + 300 <= usize::MAX,
            i <= len,
            all == said(msg@, n as int, 0),
            all == (
                op_views(ops@) + said(msg@, n as int, i as int).0,
                said(msg@, n as int, i as int).1,
            ),
        decreases len + 1 - i,
    {
        let ghost before = op_views(ops@);
        let ghost now = said(msg@, n as int, i as int);
        if i >= n {
            assert(before + Seq::<OpView>::empty() =~= before);
            return (ops, false);
        }
        let op = msg[i];
        if op == OP_CLEAR && i + 5 <= len {
            ops.push(Op::Clear { color: get_u32(msg, i + 1) });
            i = i + 5;
        } else if op == OP_RECT && i + 13 <= len {
            ops.push(
                Op::Rect {
                    x: get_be16(msg, i + 1),
                    y: get_be16(msg, i + 3),
                    w: get_be16(msg, i + 5),
                    h: get_be16(msg, i + 7),
                    color: get_u32(msg, i + 9),
                },
            );
            i = i + 13;
        } else if op == OP_TEXT && i + 11 <= len && i + 11 + msg[i + 10] as usize <= len {
            let end: usize = i + 11 + msg[i + 10] as usize;
            let mut bytes: Vec<u8> = Vec::new();
            push_bytes(&mut bytes, slice_subrange(msg, i + 11, end));
            assert(bytes@ =~= msg@.subrange(i + 11, end as int));
            ops.push(
                Op::Text {
                    x: get_be16(msg, i + 1),
                    y: get_be16(msg, i + 3),
                    color: get_u32(msg, i + 5),
                    scale: msg[i + 9],
                    bytes,
                },
            );
            i = end;
        } else if op == OP_PRESENT {
            ops.push(Op::Present);
            i = i + 1;
        } else {
            assert(before + Seq::<OpView>::empty() =~= before);
            return (ops, op == OP_SHUTDOWN);
        }
        proof {
            let rest = said(msg@, n as int, i as int);
            assert(op_views(ops@) =~= before.push(ops@.last()@));
            assert(now.0 =~= seq![ops@.last()@] + rest.0);
            assert(before + now.0 =~= op_views(ops@) + rest.0);
        }
    }
}

/// What drawing a command does to the pixels.
pub open spec fn drawn(font: Font, before: Seq<u32>, after: Seq<u32>, op: OpView) -> bool {
    match op {
        OpView::Clear { color } => after == Seq::new(PIXELS as nat, |i: int| color),
        OpView::Rect { x, y, w, h, color } => painted(
            before,
            after,
            in_rect(x as usize, y as usize, w as usize, h as usize),
            color,
        ),
        OpView::Text { x, y, scale, color, bytes } => painted(
            before,
            after,
            lettering(
                font,
                bytes,
                bytes.len() as int,
                x as int,
                y as int,
                if scale == 0 {
                    1
                } else {
                    scale as int
                },
            ),
            color,
        ),
        OpView::Present => after == before,
    }
}

/// Draw a command. Presenting draws nothing: it is the device's.
pub fn draw(fb: &mut [u32], font: &Font, op: &Op)
    requires
        old(fb)@.len() == PIXELS,
        font.wf(),
        op matches Op::Text { bytes, .. } ==> bytes@.len() <= 255,
    ensures
        drawn(*font, old(fb)@, final(fb)@, op@),
        final(fb)@.len() == PIXELS,
{
    match op {
        Op::Clear { color } => {
            clear(fb, *color);
        },
        Op::Rect { x, y, w, h, color } => {
            rect(fb, *x as usize, *y as usize, *w as usize, *h as usize, *color);
        },
        Op::Text { x, y, scale, color, bytes } => {
            let times: usize = if *scale == 0 {
                1
            } else {
                *scale as usize
            };
            assert(bytes@.len() * (8 * times) <= 255 * 2040) by (nonlinear_arith)
                requires
                    bytes@.len() <= 255,
                    times <= 255,
            ;
            text(fb, font, bytes.as_slice(), *x as usize, *y as usize, times, *color);
        },
        Op::Present => {},
    }
}

/// Every text in a message fits in a byte's count.
pub proof fn texts_are_short(msg: Seq<u8>, n: int, i: int)
    requires
        0 <= i,
    ensures
        forall|k: int|
            0 <= k < said(msg, n, i).0.len() ==> (
            #[trigger] said(msg, n, i).0[k] matches OpView::Text { bytes, .. } ==> bytes.len()
                <= 255),
    decreases to_go(n, i),
{
    if i < n {
        let all = said(msg, n, i).0;
        if msg[i] == OP_CLEAR && i + 5 <= msg.len() {
            texts_are_short(msg, n, i + 5);
            lemma_behind_one(all, said(msg, n, i + 5).0);
        } else if msg[i] == OP_RECT && i + 13 <= msg.len() {
            texts_are_short(msg, n, i + 13);
            lemma_behind_one(all, said(msg, n, i + 13).0);
        } else if msg[i] == OP_TEXT && i + 11 <= msg.len() && i + 11 + msg[i + 10] <= msg.len() {
            texts_are_short(msg, n, i + 11 + msg[i + 10]);
            lemma_behind_one(all, said(msg, n, i + 11 + msg[i + 10]).0);
        } else if msg[i] == OP_PRESENT {
            texts_are_short(msg, n, i + 1);
            lemma_behind_one(all, said(msg, n, i + 1).0);
        }
    }
}

spec fn short(op: OpView) -> bool {
    op matches OpView::Text { bytes, .. } ==> bytes.len() <= 255
}

proof fn lemma_behind_one(all: Seq<OpView>, rest: Seq<OpView>)
    requires
        all.len() == rest.len() + 1,
        short(all[0]),
        forall|k: int| 0 <= k < rest.len() ==> all[k + 1] == #[trigger] rest[k],
        forall|k: int|
            0 <= k < rest.len() ==> (#[trigger] rest[k] matches OpView::Text { bytes, .. }
                ==> bytes.len() <= 255),
    ensures
        forall|k: int|
            0 <= k < all.len() ==> (#[trigger] all[k] matches OpView::Text { bytes, .. }
                ==> bytes.len() <= 255),
{
    assert forall|k: int| 0 <= k < all.len() implies (
    #[trigger] all[k] matches OpView::Text { bytes, .. } ==> bytes.len() <= 255) by {
        if k > 0 {
            assert(all[k] == rest[k - 1]);
        }
    }
}

/// The server's answer to a message: that it was taken, and how many frames it has
/// shown, in a byte.
pub fn acknowledgement(gpu: &Gpu) -> (r: [u8; 2])
    ensures
        r@ == seq![0u8, (gpu.frames % 256) as u8],
{
    let r: [u8; 2] = [0, (gpu.frames % 256) as u8];
    assert(r@ =~= seq![0u8, (gpu.frames % 256) as u8]);
    r
}

} // verus!
