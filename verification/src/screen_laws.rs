//! What screen, touch and applications promise, said of pixels, positions and bytes.
use vstd::prelude::*;
use crate::app::{App, Effect, Session};
use crate::bytes_laws::{big, little};
use crate::gpudrv::{Font, OpView};
use crate::inputdrv::{Axis, Input, Pointer};
use crate::queue_laws::{desc_at, offer, offers, Desc};

verus! {

// ---- the graphics device --------------------------------------------------------------------

/// The number that four bytes at `at` say.
pub open spec fn said_at(b: Seq<u8>, at: int) -> int {
    little(b.subrange(at, at + 4))
}

/// Whether a rectangle as large as the screen stands at `at`.
pub open spec fn screen_at(b: Seq<u8>, at: int) -> bool {
    said_at(b, at) == 0 && said_at(b, at + 4) == 0 && said_at(b, at + 8) == 480 && said_at(
        b,
        at + 12,
    ) == 960
}

proof fn lemma_command(cmd: u32, fields: Seq<u8>)
    ensures
        ({
            let c = crate::gpudrv::command(cmd, fields);
            &&& c.len() == 24 + fields.len()
            &&& said_at(c, 0) == cmd
            &&& forall|i: int| 4 <= i < 24 ==> #[trigger] c[i] == 0
            &&& forall|i: int| 0 <= i < fields.len() ==> c[24 + i] == #[trigger] fields[i]
        }),
{
    let c = crate::gpudrv::command(cmd, fields);
    crate::bytes_laws::bytes_say_their_integer(0, cmd, 0);
    assert(c.subrange(0, 4) =~= crate::bytes::le32_bytes(cmd));
}

proof fn lemma_said(b: Seq<u8>, at: int, v: u32)
    requires
        0 <= at,
        at + 4 <= b.len(),
        b.subrange(at, at + 4) == crate::bytes::le32_bytes(v),
    ensures
        said_at(b, at) == v,
{
    crate::bytes_laws::bytes_say_their_integer(0, v, 0);
}

proof fn lemma_sizes(v: u32, x: u64)
    ensures
        crate::bytes::le32_bytes(v).len() == 4,
        crate::bytes::le64_bytes(x).len() == 8,
{
    crate::bytes_laws::bytes_say_their_integer(0, v, x);
}

proof fn lemma_screen(b: Seq<u8>, at: int)
    requires
        0 <= at,
        at + 16 <= b.len(),
        b.subrange(at, at + 16) == crate::gpudrv::whole_screen(),
    ensures
        screen_at(b, at),
{
    let w = crate::gpudrv::whole_screen();
    let all = b.subrange(at, at + 16);
    lemma_sizes(0, 0);
    lemma_sizes(480, 0);
    lemma_sizes(960, 0);
    assert(w.subrange(0, 4) =~= crate::bytes::le32_bytes(0));
    assert(w.subrange(4, 8) =~= crate::bytes::le32_bytes(0));
    assert(w.subrange(8, 12) =~= crate::bytes::le32_bytes(480));
    assert(w.subrange(12, 16) =~= crate::bytes::le32_bytes(960));
    assert(b.subrange(at, at + 4) =~= all.subrange(0, 4));
    assert(b.subrange(at + 4, at + 8) =~= all.subrange(4, 8));
    assert(b.subrange(at + 8, at + 12) =~= all.subrange(8, 12));
    assert(b.subrange(at + 12, at + 16) =~= all.subrange(12, 16));
    lemma_said(b, at, 0);
    lemma_said(b, at + 4, 0);
    lemma_said(b, at + 8, 480);
    lemma_said(b, at + 12, 960);
}

/// The device is asked for a picture as large as the screen, of four bytes a pixel.
pub proof fn the_picture_is_as_large_as_the_screen()
    ensures
        ({
            let c = crate::gpudrv::create_resource_command();
            &&& c.len() == 40
            &&& said_at(c, 0) == 0x101
            &&& said_at(c, 24) == 1
            &&& said_at(c, 28) == 1
            &&& said_at(c, 32) == 480
            &&& said_at(c, 36) == 960
        }),
{
    let c = crate::gpudrv::create_resource_command();
    let f = crate::bytes::le32_bytes(1) + crate::bytes::le32_bytes(1) + crate::bytes::le32_bytes(
        480,
    ) + crate::bytes::le32_bytes(960);
    lemma_sizes(1, 0);
    lemma_sizes(480, 0);
    lemma_sizes(960, 0);
    lemma_command(0x101, f);
    assert(c.subrange(24, 28) =~= crate::bytes::le32_bytes(1));
    assert(c.subrange(28, 32) =~= crate::bytes::le32_bytes(1));
    assert(c.subrange(32, 36) =~= crate::bytes::le32_bytes(480));
    assert(c.subrange(36, 40) =~= crate::bytes::le32_bytes(960));
    lemma_said(c, 24, 1);
    lemma_said(c, 28, 1);
    lemma_said(c, 32, 480);
    lemma_said(c, 36, 960);
}

/// The memory behind the picture is one piece, behind the rings and the commands, and as large
/// as all of its pixels.
pub proof fn the_picture_is_backed_by_one_piece(dma: u64)
    requires
        dma + 8192 <= u64::MAX,
    ensures
        ({
            let c = crate::gpudrv::attach_backing_command(dma);
            &&& c.len() == 48
            &&& said_at(c, 0) == 0x106
            &&& said_at(c, 24) == 1
            &&& said_at(c, 28) == 1
            &&& little(c.subrange(32, 40)) == dma + 8192
            &&& said_at(c, 40) == 480 * 960 * 4
            &&& said_at(c, 44) == 0
        }),
{
    let c = crate::gpudrv::attach_backing_command(dma);
    let fb = (dma + 8192) as u64;
    let f = crate::bytes::le32_bytes(1) + crate::bytes::le32_bytes(1) + crate::bytes::le64_bytes(
        fb,
    ) + crate::bytes::le32_bytes(1_843_200) + crate::bytes::le32_bytes(0);
    lemma_sizes(1, fb);
    lemma_sizes(1_843_200, 0);
    lemma_sizes(0, 0);
    lemma_command(0x106, f);
    crate::bytes_laws::bytes_say_their_integer(0, 0, fb);
    assert(c.subrange(24, 28) =~= crate::bytes::le32_bytes(1));
    assert(c.subrange(28, 32) =~= crate::bytes::le32_bytes(1));
    assert(c.subrange(32, 40) =~= crate::bytes::le64_bytes(fb));
    assert(c.subrange(40, 44) =~= crate::bytes::le32_bytes(1_843_200));
    assert(c.subrange(44, 48) =~= crate::bytes::le32_bytes(0));
    lemma_said(c, 24, 1);
    lemma_said(c, 28, 1);
    lemma_said(c, 40, 1_843_200);
    lemma_said(c, 44, 0);
}

/// The picture is shown on the one screen, transferred and flushed whole: each of the three
/// commands names all of the screen and that picture.
pub proof fn the_whole_picture_is_shown()
    ensures
        ({
            let s = crate::gpudrv::set_scanout_command();
            let t = crate::gpudrv::transfer_command();
            let f = crate::gpudrv::flush_command();
            &&& s.len() == 48 && said_at(s, 0) == 0x103 && screen_at(s, 24) && said_at(s, 40) == 0
                && said_at(s, 44) == 1
            &&& t.len() == 56 && said_at(t, 0) == 0x105 && screen_at(t, 24) && little(
                t.subrange(40, 48),
            ) == 0 && said_at(t, 48) == 1 && said_at(t, 52) == 0
            &&& f.len() == 48 && said_at(f, 0) == 0x104 && screen_at(f, 24) && said_at(f, 40) == 1
                && said_at(f, 44) == 0
        }),
{
    let s = crate::gpudrv::set_scanout_command();
    let t = crate::gpudrv::transfer_command();
    let f = crate::gpudrv::flush_command();
    let w = crate::gpudrv::whole_screen();
    let one = crate::bytes::le32_bytes(1);
    let zero = crate::bytes::le32_bytes(0);
    let long = crate::bytes::le64_bytes(0);
    lemma_sizes(0, 0);
    lemma_sizes(1, 0);
    lemma_sizes(480, 0);
    lemma_sizes(960, 0);
    assert(w.len() == 16);
    lemma_command(0x103, w + zero + one);
    lemma_command(0x105, w + long + one + zero);
    lemma_command(0x104, w + one + zero);
    crate::bytes_laws::bytes_say_their_integer(0, 0, 0);
    assert(s.subrange(24, 40) =~= w);
    assert(s.subrange(40, 44) =~= zero);
    assert(s.subrange(44, 48) =~= one);
    assert(t.subrange(24, 40) =~= w);
    assert(t.subrange(40, 48) =~= long);
    assert(t.subrange(48, 52) =~= one);
    assert(t.subrange(52, 56) =~= zero);
    assert(f.subrange(24, 40) =~= w);
    assert(f.subrange(40, 44) =~= one);
    assert(f.subrange(44, 48) =~= zero);
    lemma_screen(s, 24);
    lemma_screen(t, 24);
    lemma_screen(f, 24);
    lemma_said(s, 40, 0);
    lemma_said(s, 44, 1);
    lemma_said(t, 48, 1);
    lemma_said(t, 52, 0);
    lemma_said(f, 40, 1);
    lemma_said(f, 44, 0);
}

/// The device finds a command it was handed: the first descriptor leads to all of its bytes,
/// for reading, the second to room for the answer, for writing, which does not say yet that
/// anything was done; and it is shown one offer more.
pub proof fn a_command_reaches_the_device(mem: Seq<u8>, dma: u64, idx: u16, cmd: Seq<u8>)
    requires
        mem.len() >= 8192,
        cmd.len() <= 512,
        dma + 8192 <= u64::MAX,
    ensures
        ({
            let m = crate::gpudrv::submitted(mem, dma, idx, cmd);
            let head = desc_at(m, 0);
            let answer = desc_at(m, 1);
            &&& m.len() == mem.len()
            &&& head.len == cmd.len() && head.more && head.next == 1 && !head.for_device
            &&& m.subrange(head.addr - dma, head.addr - dma + head.len) == cmd
            &&& answer.len == 64 && !answer.more && answer.for_device
            &&& answer.addr - dma + answer.len <= m.len()
            &&& answer.addr >= head.addr + head.len
            &&& said_at(m, answer.addr - dma) == 0
            &&& offers(m, 128) == (idx + 1) % 0x1_0000
            &&& little(m.subrange(132, 134)) == 0
        }),
{
    let m = crate::gpudrv::submitted(mem, dma, idx, cmd);
    let next = idx.wrapping_add(1);
    lemma_sizes(0, 0);
    crate::bytes_laws::bytes_say_their_integer(next, 0, 0);
    crate::bytes_laws::bytes_say_their_integer(0, 0, 0);
    let d0 = crate::virtq::desc_bytes((dma + 4096) as u64, cmd.len() as u32, 1, 1);
    let d1 = crate::virtq::desc_bytes((dma + 4608) as u64, 64, 2, 0);
    crate::bytes_laws::bytes_say_their_integer(1, cmd.len() as u32, (dma + 4096) as u64);
    crate::bytes_laws::bytes_say_their_integer(2, 64, (dma + 4608) as u64);
    assert(d0.len() == 16 && d1.len() == 16);
    assert(m.subrange(0, 16) =~= d0);
    assert(m.subrange(16, 32) =~= d1);
    crate::queue_laws::a_descriptor_reads_back(
        m,
        0,
        (dma + 4096) as u64,
        cmd.len() as u32,
        1,
        1,
    );
    crate::queue_laws::a_descriptor_reads_back(m, 1, (dma + 4608) as u64, 64, 2, 0);
    assert(m.subrange(4096, 4096 + cmd.len() as int) =~= cmd);
    assert(m.subrange(4608, 4612) =~= crate::bytes::le32_bytes(0));
    lemma_said(m, 4608, 0);
    assert(m.subrange(130, 132) =~= crate::bytes::le16_bytes(next));
    assert(m.subrange(132, 134) =~= crate::bytes::le16_bytes(0));
}

// ---- drawing --------------------------------------------------------------------------------

/// Pixels stand row by row, so that no two places of the screen are one.
pub proof fn pixels_stand_row_by_row(x: int, y: int, u: int, v: int)
    requires
        0 <= x < 480,
        0 <= u < 480,
        0 <= y < 960,
        0 <= v < 960,
    ensures
        0 <= crate::gpudrv::at(x, y) < 480 * 960,
        crate::gpudrv::at(x, y) == crate::gpudrv::at(u, v) ==> x == u && y == v,
        x + 1 < 480 ==> crate::gpudrv::at(x + 1, y) == crate::gpudrv::at(x, y) + 1,
        crate::gpudrv::at(0, y + 1) == crate::gpudrv::at(479, y) + 1,
{
}

/// Whether some letter of a text that begins at `tx` is on in column `x`, `dy` rows down.
pub open spec fn inked(font: Font, text: Seq<u8>, size: int, tx: int, x: int, dy: int) -> bool {
    exists|i: int|
        0 <= i < text.len() && #[trigger] font.on(text[i], size, x - (tx + i * (8 * size)), dy)
}

/// Drawing a rectangle colours exactly its pixels, and a text those at which one of its letters
/// is on, eight times its size apart; clearing colours all of them, and presenting none.
pub proof fn drawing_colours_exactly_its_pixels(
    font: Font,
    before: Seq<u32>,
    after: Seq<u32>,
    op: OpView,
    x: int,
    y: int,
)
    requires
        before.len() == 460_800,
        after.len() == 460_800,
        crate::gpudrv::drawn(font, before, after, op),
        0 <= x < 480,
        0 <= y < 960,
    ensures
        ({
            let was = before[y * 480 + x];
            let is = after[y * 480 + x];
            match op {
                OpView::Clear { color } => is == color,
                OpView::Rect { x: rx, y: ry, w, h, color } => is == if rx <= x < rx + w && ry <= y
                    < ry + h {
                    color
                } else {
                    was
                },
                OpView::Text { x: tx, y: ty, scale, color, bytes } => {
                    let size: int = if scale == 0 {
                        1
                    } else {
                        scale as int
                    };
                    is == if inked(font, bytes, size, tx as int, x, y - ty) {
                        color
                    } else {
                        was
                    }
                },
                OpView::Present => is == was,
            }
        }),
{
    assert(after[crate::gpudrv::at(x, y)] == after[y * 480 + x]);
}

/// A letter drawn larger is the same letter: every pixel of it becomes a square.
pub proof fn a_letter_is_scaled_pixel_by_pixel(font: Font, ch: u8, scale: int, dx: int, dy: int)
    requires
        scale >= 1,
    ensures
        font.on(ch, scale, dx, dy) == (dx >= 0 && dy >= 0 && font.on(
            ch,
            1,
            dx / scale,
            dy / scale,
        )),
        font.on(ch, scale, dx, dy) ==> dx < 8 * scale && dy < 8 * scale,
{
    if dx >= 0 && dy >= 0 {
        assert((dx / scale < 8) == (dx < 8 * scale) && dx / scale >= 0) by (nonlinear_arith)
            requires
                scale >= 1,
                dx >= 0,
        ;
        assert((dy / scale < 8) == (dy < 8 * scale) && dy / scale >= 0) by (nonlinear_arith)
            requires
                scale >= 1,
                dy >= 0,
        ;
        assert((dx / scale) / 1 == dx / scale && (dy / scale) / 1 == dy / scale);
    }
}

/// Small letters are drawn as capital ones, and what is not in the font is not drawn.
pub proof fn letters_are_drawn_as_capitals(font: Font, k: u8, ch: u8, scale: int, dx: int, dy: int)
    requires
        k < 26,
    ensures
        font.on((0x61 + k) as u8, scale, dx, dy) == font.on((0x41 + k) as u8, scale, dx, dy),
        ch < font.first && !(0x61 <= ch <= 0x7a) ==> !font.on(ch, scale, dx, dy),
        ch > font.last && !(0x61 <= ch <= 0x7a) ==> !font.on(ch, scale, dx, dy),
        font.wf() && font.first <= ch <= font.last && !(0x61 <= ch <= 0x7a) ==> font.rows(ch)
            == Some(font.glyphs@[ch - font.first]@),
{
}

/// What a message says is read command by command: a colour after 1, a rectangle and its colour
/// after 2, a text after 3 with its place, colour, size and count, and 4 to present. Whatever
/// follows is read from where the command ends; a command that sticks out ends the message.
pub proof fn a_message_is_read_command_by_command(msg: Seq<u8>, n: int, i: int)
    requires
        0 <= i < n <= msg.len(),
    ensures
        ({
            let (ops, stop) = crate::gpudrv::said(msg, n, i);
            let room = msg.len() - i;
            let length = if room >= 11 {
                11 + msg[i + 10]
            } else {
                11
            };
            let taken: int = if msg[i] == 1 && room >= 5 {
                5
            } else if msg[i] == 2 && room >= 13 {
                13
            } else if msg[i] == 3 && room >= length {
                length
            } else if msg[i] == 4 {
                1
            } else {
                0
            };
            let rest = crate::gpudrv::said(msg, n, i + taken);
            &&& taken == 0 ==> ops.len() == 0 && stop == (msg[i] == 0xff)
            &&& taken > 0 ==> ops.len() == rest.0.len() + 1 && ops.skip(1) == rest.0 && stop
                == rest.1
            &&& taken > 0 && msg[i] == 1 ==> (ops[0] matches OpView::Clear { color } && color
                == little(msg.subrange(i + 1, i + 5)))
            &&& taken > 0 && msg[i] == 2 ==> (ops[0] matches OpView::Rect { x, y, w, h, color }
                && x == big(msg.subrange(i + 1, i + 3)) && y == big(msg.subrange(i + 3, i + 5))
                && w == big(msg.subrange(i + 5, i + 7)) && h == big(msg.subrange(i + 7, i + 9))
                && color == little(msg.subrange(i + 9, i + 13)))
            &&& taken > 0 && msg[i] == 3 ==> (ops[0] matches OpView::Text {
                x,
                y,
                scale,
                color,
                bytes,
            } && x == big(msg.subrange(i + 1, i + 3)) && y == big(msg.subrange(i + 3, i + 5))
                && color == little(msg.subrange(i + 5, i + 9)) && scale == msg[i + 9] && bytes
                == msg.subrange(i + 11, i + 11 + msg[i + 10]))
            &&& taken > 0 && msg[i] == 4 ==> ops[0] is Present
        }),
{
    let (ops, stop) = crate::gpudrv::said(msg, n, i);
    crate::bytes_laws::integers_are_what_their_bytes_say(msg, i + 1);
    crate::bytes_laws::integers_are_what_their_bytes_say(msg, i + 3);
    crate::bytes_laws::integers_are_what_their_bytes_say(msg, i + 5);
    crate::bytes_laws::integers_are_what_their_bytes_say(msg, i + 7);
    crate::bytes_laws::integers_are_what_their_bytes_say(msg, i + 9);
    if msg[i] == 1 && i + 5 <= msg.len() {
        assert(ops.skip(1) =~= crate::gpudrv::said(msg, n, i + 5).0);
    } else if msg[i] == 2 && i + 13 <= msg.len() {
        assert(ops.skip(1) =~= crate::gpudrv::said(msg, n, i + 13).0);
    } else if msg[i] == 3 && i + 11 <= msg.len() && i + 11 + msg[i + 10] <= msg.len() {
        assert(ops.skip(1) =~= crate::gpudrv::said(msg, n, i + 11 + msg[i + 10]).0);
    } else if msg[i] == 4 {
        assert(ops.skip(1) =~= crate::gpudrv::said(msg, n, i + 1).0);
    }
}

// ---- touch ----------------------------------------------------------------------------------

/// A position on an axis becomes one on the screen: the least the first pixel, the greatest the
/// last, what lies beyond either the same, and in between in proportion.
pub proof fn an_axis_is_stretched_over_the_screen(a: Axis, v: i32, w: i32, extent: int)
    requires
        1 <= extent,
        a.min < a.max,
        v <= w,
    ensures
        ({
            let s = crate::inputdrv::on_screen(a, v, extent);
            &&& 0 <= s < extent
            &&& s <= crate::inputdrv::on_screen(a, w, extent)
            &&& v <= a.min ==> s == 0
            &&& v >= a.max ==> s == extent - 1
            &&& a.min <= v <= a.max ==> s * (a.max - a.min) <= (v - a.min) * (extent - 1) < (s + 1)
                * (a.max - a.min)
        }),
{
    let d = a.max - a.min;
    let e = extent - 1;
    let p = crate::inputdrv::along(a, v);
    let q = crate::inputdrv::along(a, w);
    assert(0 <= p <= q <= d);
    assert(0 <= p * e / d <= e && p * e / d <= q * e / d && p * e / d * d <= p * e < (p * e / d + 1)
        * d && 0 * e / d == 0 && d * e / d == e) by (nonlinear_arith)
        requires
            0 <= p <= q <= d,
            d > 0,
            e >= 0,
    ;
}

/// What an event moves: one axis, or the press, or nothing; the other two stay.
pub proof fn an_event_moves_one_thing(p: Pointer, d: Input, kind: u16, code: u16, value: u32)
    ensures
        ({
            let q = crate::inputdrv::moved(p, d, kind, code, value);
            let v = crate::inputdrv::signed(value) as i32;
            let across = kind == 3 && code == 0;
            let down = kind == 3 && code == 1;
            let press = kind == 1 && (code == 0x110 || code == 0x14a);
            &&& across ==> q.x == crate::inputdrv::on_screen(d.x_axis, v, 480) as usize
            &&& !across ==> q.x == p.x
            &&& down ==> q.y == crate::inputdrv::on_screen(d.y_axis, v, 960) as usize
            &&& !down ==> q.y == p.y
            &&& press ==> q.down == (value != 0)
            &&& !press ==> q.down == p.down
            &&& q.dirty == (p.dirty || across || down || press)
            &&& q.sent == p.sent
        }),
{
}

/// An axis goes from one number to the other, both as the device says them, signed; where it
/// says too little, or nothing that makes sense, there is none.
pub proof fn an_axis_is_what_the_device_says(field: Seq<u8>, size: int)
    requires
        field.len() >= 8,
    ensures
        ({
            let a = crate::inputdrv::axis_in(field, size);
            let min = little(field.subrange(0, 4));
            let max = little(field.subrange(4, 8));
            let low = if min >= 0x8000_0000 {
                min - 0x1_0000_0000
            } else {
                min
            };
            let high = if max >= 0x8000_0000 {
                max - 0x1_0000_0000
            } else {
                max
            };
            if size >= 8 && low < high {
                a.min == low && a.max == high
            } else {
                a.min == 0 && a.max == 0
            }
        }),
{
    crate::bytes_laws::integers_are_what_their_bytes_say(field, 0);
    crate::bytes_laws::integers_are_what_their_bytes_say(field, 4);
}

/// An event is read from the buffer that the device names, kind, code and value in that order,
/// and the buffer is then offered again; nothing is taken while the device has nothing to say.
pub proof fn an_event_is_read_and_its_buffer_given_back(d: Input, mem: Seq<u8>)
    requires
        mem.len() >= 8192,
    ensures
        ({
            let (e, m, d1) = crate::inputdrv::event_taken(d, mem);
            let slot = 2048 + 4 + d.last_used as int % 64 * 8;
            let id = little(mem.subrange(slot, slot + 4)) % 64;
            let at = 4096 + 8 * id;
            let none = little(mem.subrange(2050, 2052)) == d.last_used;
            &&& e is None <==> none
            &&& none ==> m == mem && d1 == d
            &&& !none ==> {
                &&& (e->0).0 == little(mem.subrange(at, at + 2))
                &&& (e->0).1 == little(mem.subrange(at + 2, at + 4))
                &&& (e->0).2 == little(mem.subrange(at + 4, at + 8))
                &&& offers(m, 1024) == (d.avail_idx + 1) % 0x1_0000
                &&& offer(m, 1024, 64, d.avail_idx as int) == id
                &&& d1.last_used == (d.last_used + 1) % 0x1_0000
                &&& d1.avail_idx == (d.avail_idx + 1) % 0x1_0000
                &&& d1.dma_phys == d.dma_phys && d1.x_axis == d.x_axis && d1.y_axis == d.y_axis
            }
        }),
{
    let slot = 2048 + 4 + d.last_used as int % 64 * 8;
    crate::bytes_laws::integers_are_what_their_bytes_say(mem, 2050);
    crate::bytes_laws::integers_are_what_their_bytes_say(mem, slot);
    let id = crate::inputdrv::used_id(mem, d.last_used);
    let at = 4096 + 8 * id;
    crate::bytes_laws::integers_are_what_their_bytes_say(mem, at);
    crate::bytes_laws::integers_are_what_their_bytes_say(mem, at + 2);
    crate::bytes_laws::integers_are_what_their_bytes_say(mem, at + 4);
    crate::queue_laws::what_is_offered_is_seen(mem, 64, d.avail_idx, id as u16);
}

proof fn lemma_stocked(mem: Seq<u8>, dma: u64, n: int, i: int)
    requires
        mem.len() >= 8192,
        0 <= n <= 64,
        0 <= i < n,
        dma + 8192 <= u64::MAX,
    ensures
        ({
            let m = crate::inputdrv::stocked(mem, dma, n);
            &&& m.len() == mem.len()
            &&& m.subrange(16 * i, 16 * i + 16) == crate::virtq::desc_bytes(
                (dma + 4096 + 8 * i) as u64,
                8,
                2,
                0,
            )
            &&& offer(m, 1024, 64, i) == i
            &&& offers(m, 1024) == n
        }),
    decreases n,
{
    let k = n - 1;
    let before = crate::inputdrv::stocked(mem, dma, k);
    let bytes = crate::virtq::desc_bytes((dma + 4096 + k * 8) as u64, 8, 2, 0);
    crate::bytes_laws::bytes_say_their_integer(2, 8, (dma + 4096 + k * 8) as u64);
    crate::bytes_laws::bytes_say_their_integer(0, 8, 0);
    assert(bytes.len() == 16);
    if k > 0 {
        lemma_stocked(
            mem,
            dma,
            k,
            if i < k {
                i
            } else {
                0
            },
        );
    }
    let mid = crate::bytes::splice(before, 16 * k, bytes);
    let m = crate::inputdrv::stocked(mem, dma, n);
    assert(before.len() == mem.len());
    assert(mid.len() == mem.len());
    crate::queue_laws::what_is_offered_is_seen(mid, 64, k as u16, k as u16);
    assert(m == crate::virtq::offered(mid, 64, k as u16, k as u16));
    if i < k {
        assert(m.subrange(16 * i, 16 * i + 16) =~= before.subrange(16 * i, 16 * i + 16));
        let at = 1024 + 4 + 2 * (i % 64);
        assert(mid.subrange(at, at + 2) =~= before.subrange(at, at + 2));
        assert(offer(mid, 1024, 64, i) == offer(before, 1024, 64, i));
        assert(i % 64 != k % 64);
    } else {
        assert(m.subrange(16 * k, 16 * k + 16) =~= bytes);
    }
}

/// Before the device runs, every one of its 64 buffers is described and offered: eight bytes
/// each, apart from one another, for the device to write.
pub proof fn every_buffer_is_offered(mem: Seq<u8>, dma: u64, i: int)
    requires
        mem.len() >= 8192,
        0 <= i < 64,
        dma + 8192 <= u64::MAX,
    ensures
        ({
            let m = crate::inputdrv::stocked(mem, dma, 64);
            &&& desc_at(m, i) == (Desc {
                addr: dma + 4096 + 8 * i,
                len: 8,
                more: false,
                for_device: true,
                next: 0,
            })
            &&& offer(m, 1024, 64, i) == i
            &&& offers(m, 1024) == 64
        }),
{
    lemma_stocked(mem, dma, 64, i);
    crate::queue_laws::a_descriptor_reads_back(
        crate::inputdrv::stocked(mem, dma, 64),
        i,
        (dma + 4096 + 8 * i) as u64,
        8,
        2,
        0,
    );
}

// ---- applications ---------------------------------------------------------------------------

/// A tap on a row is that row's, wherever in it the finger is: rows begin ten pixels below the
/// title bar and are thirty-four high. It turns the row over. Above the rows is the title bar,
/// and below the last there is nothing.
pub proof fn a_tap_on_a_row_turns_it_over(a: App, on: Seq<bool>, ry: int, i: int)
    requires
        0 <= ry,
        0 <= i,
        22 + 10 + 34 * i <= ry < 22 + 10 + 34 * (i + 1),
    ensures
        i < a.rows@.len() && i < 6 ==> crate::app::tapped(a, on, ry) == Effect::Row(
            i as usize,
            !on[i],
        ),
        i >= a.rows@.len() || i >= 6 ==> crate::app::tapped(a, on, ry) == Effect::BelowTheRows,
        forall|up: int| 0 <= up < 32 ==> #[trigger] crate::app::tapped(a, on, up)
            == Effect::TitleBar,
{
    assert((ry - 32) / 34 == i);
}

proof fn lemma_high_low(v: usize)
    requires
        v <= 0xffff,
    ensures
        crate::app::be16_of(v).len() == 2,
        big(crate::app::be16_of(v)) == v,
{
    let b = crate::app::be16_of(v);
    crate::bytes_laws::two_bytes_say(b);
}

/// A row is drawn as a box in its window, ten pixels in from either side, in the accent colour
/// if it is on, with its text nine pixels below the top of the box.
pub proof fn a_row_is_a_box_and_its_text(a: App, on: Seq<bool>, i: int)
    requires
        0 <= i < 6,
        i < a.rows@.len(),
        20 <= a.w <= 480,
    ensures
        ({
            let b = crate::app::row_bytes(a, on, i);
            let text = vstd::utf8::encode_utf8(a.rows@[i]@);
            let n: int = if text.len() < 40 {
                text.len() as int
            } else {
                40
            };
            &&& b.len() == 26 + n
            &&& b[0] == 0x24 && b[1] == a.win
            &&& big(b.subrange(2, 4)) == 10
            &&& big(b.subrange(4, 6)) == 10 + 34 * i
            &&& big(b.subrange(6, 8)) == a.w - 20
            &&& big(b.subrange(8, 10)) == 26
            &&& little(b.subrange(10, 14)) == if on[i] {
                a.accent as int
            } else {
                0xff30_363d
            }
            &&& b[14] == 0x23 && b[15] == a.win
            &&& big(b.subrange(16, 18)) == 20
            &&& big(b.subrange(18, 20)) == 10 + 34 * i + 9
            &&& little(b.subrange(20, 24)) == 0xffe6_edf3
            &&& b[24] == 1
            &&& b[25] == n
            &&& b.subrange(26, 26 + n) == text.subrange(0, n)
        }),
{
    let b = crate::app::row_bytes(a, on, i);
    let y = (10 + 34 * i) as usize;
    let color = if on[i] {
        a.accent
    } else {
        crate::app::ROW_COLOR
    };
    let text = vstd::utf8::encode_utf8(a.rows@[i]@);
    lemma_high_low(10);
    lemma_high_low(20);
    lemma_high_low(26);
    lemma_high_low(y);
    lemma_high_low((y + 9) as usize);
    lemma_high_low((a.w - 20) as usize);
    crate::bytes_laws::bytes_say_their_integer(0, color, 0);
    crate::bytes_laws::bytes_say_their_integer(0, crate::app::TEXT_COLOR, 0);
    assert(b.subrange(2, 4) =~= crate::app::be16_of(10));
    assert(b.subrange(4, 6) =~= crate::app::be16_of(y));
    assert(b.subrange(6, 8) =~= crate::app::be16_of((a.w - 20) as usize));
    assert(b.subrange(8, 10) =~= crate::app::be16_of(26));
    assert(b.subrange(10, 14) =~= crate::bytes::le32_bytes(color));
    assert(b.subrange(16, 18) =~= crate::app::be16_of(20));
    assert(b.subrange(18, 20) =~= crate::app::be16_of((y + 9) as usize));
    assert(b.subrange(20, 24) =~= crate::bytes::le32_bytes(crate::app::TEXT_COLOR));
    let n: int = if text.len() < 40 {
        text.len() as int
    } else {
        40
    };
    assert(b.subrange(26, 26 + n) =~= text.subrange(0, n));
}

/// The message that opens a window says which, where, how large, in which colour, and its title.
pub proof fn a_window_is_asked_for_as_it_is(a: App)
    requires
        a.x <= 0xffff,
        a.y <= 0xffff,
        a.w <= 0xffff,
        a.h <= 0xffff,
    ensures
        ({
            let b = crate::app::create_bytes(a);
            &&& b[0] == 0x20 && b[1] == a.win
            &&& big(b.subrange(2, 4)) == a.x
            &&& big(b.subrange(4, 6)) == a.y
            &&& big(b.subrange(6, 8)) == a.w
            &&& big(b.subrange(8, 10)) == a.h
            &&& little(b.subrange(10, 14)) == a.bg
            &&& b.skip(14) == crate::app::counted(vstd::utf8::encode_utf8(a.title@))
        }),
{
    let b = crate::app::create_bytes(a);
    lemma_high_low(a.x);
    lemma_high_low(a.y);
    lemma_high_low(a.w);
    lemma_high_low(a.h);
    crate::bytes_laws::bytes_say_their_integer(0, a.bg, 0);
    assert(b.subrange(2, 4) =~= crate::app::be16_of(a.x));
    assert(b.subrange(4, 6) =~= crate::app::be16_of(a.y));
    assert(b.subrange(6, 8) =~= crate::app::be16_of(a.w));
    assert(b.subrange(8, 10) =~= crate::app::be16_of(a.h));
    assert(b.subrange(10, 14) =~= crate::bytes::le32_bytes(a.bg));
    assert(b.skip(14) =~= crate::app::counted(vstd::utf8::encode_utf8(a.title@)));
}

/// All of the bytes of some messages, in order.
pub open spec fn all_of(ms: Seq<Seq<u8>>) -> Seq<u8>
    decreases ms.len(),
{
    if ms.len() == 0 {
        Seq::empty()
    } else {
        all_of(ms.drop_last()) + ms.last()
    }
}

/// All of the first `n` rows, in order.
pub open spec fn all_rows(a: App, on: Seq<bool>, n: int) -> Seq<u8>
    decreases n,
{
    if n <= 0 {
        Seq::empty()
    } else {
        all_rows(a, on, n - 1) + crate::app::row_bytes(a, on, n - 1)
    }
}

proof fn lemma_rows_sent(a: App, on: Seq<bool>, n: int)
    requires
        0 <= n <= crate::app::shown_rows(a),
    ensures
        ({
            let (sent, m) = crate::app::rows_drawn(a, on, n);
            &&& m.len() <= 300
            &&& all_of(sent) + m == seq![0x25u8, a.win] + all_rows(a, on, n)
        }),
    decreases n,
{
    let (sent, m) = crate::app::rows_drawn(a, on, n);
    if n > 0 {
        lemma_rows_sent(a, on, n - 1);
        let (sent0, m0) = crate::app::rows_drawn(a, on, n - 1);
        let row = crate::app::row_bytes(a, on, n - 1);
        assert(row.len() <= 66);
        let more = m0 + row;
        assert(crate::app::joined(m0, row) == more);
        let reset = seq![0x25u8, a.win];
        assert(all_of(sent0) + more =~= (all_of(sent0) + m0) + row);
        assert((reset + all_rows(a, on, n - 1)) + row =~= reset + all_rows(a, on, n));
        if more.len() > 300 {
            assert(sent.drop_last() =~= sent0);
            assert(all_of(sent) + m =~= all_of(sent0) + more);
        }
    } else {
        assert(all_of(sent) + m =~= seq![0x25u8, a.win] + all_rows(a, on, 0));
    }
}

/// However a drawing is cut into messages, together they say it whole and in order: the window
/// is emptied, every row is drawn, and the result is shown.
pub proof fn a_drawing_is_sent_whole(a: App, on: Seq<bool>)
    ensures
        all_of(crate::app::drawing(a, on)) == seq![0x25u8, a.win] + all_rows(
            a,
            on,
            if a.rows@.len() < 6 {
                a.rows@.len() as int
            } else {
                6
            },
        ) + seq![0x31u8],
{
    let n = crate::app::shown_rows(a);
    lemma_rows_sent(a, on, n);
    let (sent, m) = crate::app::rows_drawn(a, on, n);
    let d = crate::app::drawing(a, on);
    assert(d.drop_last() =~= sent);
    assert(all_of(d) =~= (all_of(sent) + m) + seq![0x31u8]);
}

/// A session does nothing before it is told to start, and opens its window once, before all
/// else. After that it heeds taps alone: each raises its window and is counted, and a tap on a
/// row turns that row over and no other.
pub proof fn a_session_heeds_what_it_should(
    a: App,
    s0: Session,
    s1: Session,
    ev: Seq<u8>,
    n: int,
    e: Effect,
    sent: Seq<Seq<u8>>,
    k: int,
)
    requires
        ev.len() == 32,
        0 <= n <= 32,
        0 <= k < 6,
        crate::app::reacted(a, s0, s1, ev, n, e, sent),
        s0.taps < u64::MAX,
    ensures
        ({
            let start = !s0.open && n >= 1 && ev[0] == 0x41;
            let tap = s0.open && n >= 7 && ev[0] == 0x40;
            &&& s1.open == (s0.open || start)
            &&& s1.taps - s0.taps == if tap {
                1int
            } else {
                0
            }
            &&& !start && !tap ==> sent.len() == 0 && e == Effect::Ignored && s1.on@ == s0.on@
            &&& start ==> e == Effect::Opened && sent.len() >= 2 && sent[0]
                == crate::app::create_bytes(a) && s1.on@ == s0.on@
            &&& tap ==> {
                &&& e == crate::app::tapped(a, s0.on@, big(ev.subrange(4, 6)))
                &&& sent.len() >= 1 && sent[0] == seq![0x21u8, a.win]
                &&& s1.on@[k] == if e is Row && e->Row_0 == k {
                    !s0.on@[k]
                } else {
                    s0.on@[k]
                }
                &&& e is Row ==> sent.skip(1) == crate::app::drawing(a, s1.on@)
                &&& !(e is Row) ==> sent.len() == 1
            }
        }),
{
    crate::bytes_laws::integers_are_what_their_bytes_say(ev, 4);
    if s0.open && n >= 7 && ev[0] == 0x40 && e is Row {
        assert(sent.skip(1) =~= crate::app::drawing(a, s1.on@));
    }
}

} // verus!
