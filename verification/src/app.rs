//! A tappable application: a list of rows you can toggle.
//!
//! It is an ordinary, unprivileged process holding exactly two capabilities: one to
//! send window operations to the display server, and one to receive the taps that
//! landed on its own windows. What is here is everything it decides: the messages
//! it sends, and what a tap does.
use vstd::prelude::*;

verus! {

pub const OP_WIN_CREATE: u8 = 0x20;

pub const OP_WIN_RAISE: u8 = 0x21;

pub const OP_WIN_MOVE: u8 = 0x22;

pub const OP_WIN_TEXT: u8 = 0x23;

pub const OP_WIN_FILL: u8 = 0x24;

pub const OP_WIN_RESET: u8 = 0x25;

pub const OP_COMPOSE: u8 = 0x31;

pub const EV_TAP: u8 = 0x40;

/// The kernel telling this application to open its window. Without it the
/// applications race, and which one ends up on top of the other is decided by which
/// core happened to be free.
pub const EV_START: u8 = 0x41;

pub const ROW_H: usize = 34;

pub const MAX_ROWS: usize = 6;

/// Taps arrive in window coordinates, and the server draws the title bar, so its
/// height is part of the protocol.
pub const TITLE_BAR: usize = 22;

pub const INSET: usize = 10;

/// The longest text a message carries, in bytes.
pub const MAX_TEXT: usize = 40;

/// The longest message.
pub const MSG_BYTES: usize = 512;

/// A message this long is sent before another row is added.
pub const FULL: usize = 300;

pub const TEXT_COLOR: u32 = 0xffe6_edf3;

/// The colour of a row that is off.
pub const ROW_COLOR: u32 = 0xff30_363d;

// ---- messages ------------------------------------------------------------------------------

/// Bytes with more behind them, as far as a message goes.
pub open spec fn joined(m: Seq<u8>, more: Seq<u8>) -> Seq<u8> {
    if m.len() + more.len() <= MSG_BYTES {
        m + more
    } else {
        (m + more).take(MSG_BYTES as int)
    }
}

/// The low sixteen bits of a number, most significant byte first.
pub open spec fn be16_of(v: usize) -> Seq<u8> {
    seq![(v as int / 256 % 256) as u8, (v as int % 256) as u8]
}

/// As much of a text as a message carries, behind its length.
pub open spec fn counted(s: Seq<u8>) -> Seq<u8> {
    let n = if s.len() < MAX_TEXT {
        s.len() as int
    } else {
        MAX_TEXT as int
    };
    seq![n as u8] + s.take(n)
}

/// A message under construction.
pub struct Msg {
    pub bytes: Vec<u8>,
}

impl Msg {
    pub open spec fn wf(&self) -> bool {
        self.bytes@.len() <= MSG_BYTES
    }

    pub fn new() -> (m: Msg)
        ensures
            m.wf(),
            m.bytes@ == Seq::<u8>::empty(),
    {
        Msg { bytes: Vec::new() }
    }

    /// One byte more, if there is room.
    pub fn b(&mut self, v: u8)
        requires
            old(self).wf(),
        ensures
            final(self).wf(),
            final(self).bytes@ == joined(old(self).bytes@, seq![v]),
    {
        let ghost before = self.bytes@;
        if self.bytes.len() < MSG_BYTES {
            self.bytes.push(v);
            assert(self.bytes@ =~= joined(before, seq![v]));
        } else {
            assert(self.bytes@ =~= joined(before, seq![v]));
        }
    }

    pub fn be16(&mut self, v: usize)
        requires
            old(self).wf(),
        ensures
            final(self).wf(),
            final(self).bytes@ == joined(old(self).bytes@, be16_of(v)),
    {
        let ghost before = self.bytes@;
        self.b((v / 256 % 256) as u8);
        self.b((v % 256) as u8);
        assert(self.bytes@ =~= joined(before, be16_of(v)));
    }

    pub fn le32(&mut self, v: u32)
        requires
            old(self).wf(),
        ensures
            final(self).wf(),
            final(self).bytes@ == joined(old(self).bytes@, crate::bytes::le32_bytes(v)),
    {
        let ghost before = self.bytes@;
        self.b(v as u8);
        self.b((v >> 8) as u8);
        self.b((v >> 16) as u8);
        self.b((v >> 24) as u8);
        assert(self.bytes@ =~= joined(before, crate::bytes::le32_bytes(v)));
    }

    pub fn text(&mut self, s: &str)
        requires
            old(self).wf(),
        ensures
            final(self).wf(),
            final(self).bytes@ == joined(
                old(self).bytes@,
                counted(vstd::utf8::encode_utf8(s@)),
            ),
    {
        let ghost before = self.bytes@;
        let t = s.as_bytes();
        let n: usize = if t.len() < MAX_TEXT {
            t.len()
        } else {
            MAX_TEXT
        };
        self.b(n as u8);
        let mut i: usize = 0;
        assert(joined(before, seq![n as u8] + t@.take(0)) =~= joined(before, seq![n as u8]));
        while i < n
            invariant
                i <= n <= t@.len(),
                n <= 40,
                self.wf(),
                before.len() <= MSG_BYTES,
                self.bytes@ == joined(before, seq![n as u8] + t@.take(i as int)),
            decreases n - i,
        {
            let ghost so_far = self.bytes@;
            self.b(t[i]);
            proof {
                let a = seq![n as u8] + t@.take(i as int);
                let b = seq![n as u8] + t@.take(i + 1);
                assert(b =~= a.push(t@[i as int]));
                assert(self.bytes@ =~= joined(before, b));
            }
            i = i + 1;
        }
    }
}

pub struct App {
    pub tag: &'static str,
    pub win: u8,
    pub x: usize,
    pub y: usize,
    pub w: usize,
    pub h: usize,
    pub bg: u32,
    pub accent: u32,
    pub title: &'static str,
    pub rows: Vec<&'static str>,
    /// A window id this process does not own, which it tries once. The point is to
    /// be refused.
    pub poach: Option<u8>,
}

/// How many rows are drawn.
pub open spec fn shown_rows(a: App) -> int {
    if a.rows@.len() < MAX_ROWS {
        a.rows@.len() as int
    } else {
        MAX_ROWS as int
    }
}

/// What draws a row: a filled box, and its text.
pub open spec fn row_bytes(a: App, on: Seq<bool>, i: int) -> Seq<u8> {
    let y = 10 + i * ROW_H;
    let color = if on[i] {
        a.accent
    } else {
        ROW_COLOR
    };
    let width: int = if a.w < 20 {
        0
    } else {
        a.w - 20
    };
    seq![OP_WIN_FILL, a.win] + be16_of(10) + be16_of(y as usize) + be16_of(width as usize) + be16_of(
        26,
    ) + crate::bytes::le32_bytes(color) + seq![OP_WIN_TEXT, a.win] + be16_of(20) + be16_of(
        (y + 9) as usize,
    ) + crate::bytes::le32_bytes(TEXT_COLOR) + seq![1u8] + counted(
        vstd::utf8::encode_utf8(a.rows@[i]@),
    )
}

/// Drawing the first `n` rows: the messages that are full by then, and the one being
/// built.
pub open spec fn rows_drawn(a: App, on: Seq<bool>, n: int) -> (Seq<Seq<u8>>, Seq<u8>)
    decreases n,
{
    if n <= 0 {
        (Seq::empty(), seq![OP_WIN_RESET, a.win])
    } else {
        let (sent, m) = rows_drawn(a, on, n - 1);
        let more = joined(m, row_bytes(a, on, n - 1));
        if more.len() > FULL {
            (sent.push(more), Seq::empty())
        } else {
            (sent, more)
        }
    }
}

/// The messages that draw the whole window and have it shown.
pub open spec fn drawing(a: App, on: Seq<bool>) -> Seq<Seq<u8>> {
    let (sent, m) = rows_drawn(a, on, shown_rows(a));
    sent.push(joined(m, seq![OP_COMPOSE]))
}

/// Messages as mathematical values.
pub open spec fn views(ms: Seq<Vec<u8>>) -> Seq<Seq<u8>> {
    ms.map_values(|v: Vec<u8>| v@)
}

proof fn lemma_joins(m: Seq<u8>, a: Seq<u8>, b: Seq<u8>)
    requires
        m.len() <= MSG_BYTES,
    ensures
        joined(joined(m, a), b) == joined(m, a + b),
{
    let x = joined(joined(m, a), b);
    let y = joined(m, a + b);
    assert(x =~= y);
}

#[verifier::rlimit(30)]
fn add_row(m: &mut Msg, a: &App, on: &[bool; 6], i: usize)
    requires
        old(m).wf(),
        i < a.rows@.len(),
        i < 6,
    ensures
        final(m).wf(),
        final(m).bytes@ == joined(old(m).bytes@, row_bytes(*a, on@, i as int)),
{
    let ghost m0 = m.bytes@;
    let y: usize = 10 + i * ROW_H;
    let color = if on[i] {
        a.accent
    } else {
        ROW_COLOR
    };
    let width: usize = if a.w < 20 {
        0
    } else {
        a.w - 20
    };
    let ghost p1 = seq![OP_WIN_FILL];
    let ghost p2 = p1 + seq![a.win];
    let ghost p3 = p2 + be16_of(10);
    let ghost p4 = p3 + be16_of(y);
    let ghost p5 = p4 + be16_of(width);
    let ghost p6 = p5 + be16_of(26);
    let ghost p7 = p6 + crate::bytes::le32_bytes(color);
    let ghost p8 = p7 + seq![OP_WIN_TEXT];
    let ghost p9 = p8 + seq![a.win];
    let ghost p10 = p9 + be16_of(20);
    let ghost p11 = p10 + be16_of((y + 9) as usize);
    let ghost p12 = p11 + crate::bytes::le32_bytes(TEXT_COLOR);
    let ghost p13 = p12 + seq![1u8];
    let ghost p14 = p13 + counted(vstd::utf8::encode_utf8(a.rows@[i as int]@));
    proof {
        lemma_joins(m0, p1, seq![a.win]);
        lemma_joins(m0, p2, be16_of(10));
        lemma_joins(m0, p3, be16_of(y));
        lemma_joins(m0, p4, be16_of(width));
        lemma_joins(m0, p5, be16_of(26));
        lemma_joins(m0, p6, crate::bytes::le32_bytes(color));
        lemma_joins(m0, p7, seq![OP_WIN_TEXT]);
        lemma_joins(m0, p8, seq![a.win]);
        lemma_joins(m0, p9, be16_of(20));
        lemma_joins(m0, p10, be16_of((y + 9) as usize));
        lemma_joins(m0, p11, crate::bytes::le32_bytes(TEXT_COLOR));
        lemma_joins(m0, p12, seq![1u8]);
        lemma_joins(m0, p13, counted(vstd::utf8::encode_utf8(a.rows@[i as int]@)));
    }
    m.b(OP_WIN_FILL);
    m.b(a.win);
    m.be16(10);
    m.be16(y);
    m.be16(width);
    m.be16(26);
    m.le32(color);
    m.b(OP_WIN_TEXT);
    m.b(a.win);
    m.be16(20);
    m.be16(y + 9);
    m.le32(TEXT_COLOR);
    m.b(1);
    m.text(a.rows[i]);
    assert(m.bytes@ == joined(m0, p14));
    assert(p14 =~= row_bytes(*a, on@, i as int));
}

/// The messages that draw the window.
pub fn draw(a: &App, on: &[bool; 6]) -> (r: Vec<Vec<u8>>)
    ensures
        views(r@) == drawing(*a, on@),
{
    let mut out: Vec<Vec<u8>> = Vec::new();
    let mut m = Msg::new();
    m.b(OP_WIN_RESET);
    m.b(a.win);
    assert(m.bytes@ =~= seq![OP_WIN_RESET, a.win]);
    let n: usize = if a.rows.len() < MAX_ROWS {
        a.rows.len()
    } else {
        MAX_ROWS
    };
    let mut i: usize = 0;
    assert(views(out@) =~= Seq::<Seq<u8>>::empty());
    while i < n
        invariant
            i <= n,
            n == shown_rows(*a),
            m.wf(),
            (views(out@), m.bytes@) == rows_drawn(*a, on@, i as int),
        decreases n - i,
    {
        add_row(&mut m, a, on, i);
        // One message per two rows keeps every message well under the server's
        // buffer without needing to know its size exactly.
        if m.bytes.len() > FULL {
            let ghost sent = views(out@);
            let ghost full = m.bytes@;
            out.push(m.bytes);
            m = Msg::new();
            assert(views(out@) =~= sent.push(full));
        }
        i = i + 1;
    }
    m.b(OP_COMPOSE);
    let ghost sent = views(out@);
    let ghost last = m.bytes@;
    out.push(m.bytes);
    assert(views(out@) =~= sent.push(last));
    out
}

// ---- a session -------------------------------------------------------------------------------

pub struct Session {
    pub open: bool,
    pub on: [bool; 6],
    pub taps: u64,
}

/// The message that opens the window.
pub open spec fn create_bytes(a: App) -> Seq<u8> {
    seq![OP_WIN_CREATE, a.win] + be16_of(a.x) + be16_of(a.y) + be16_of(a.w) + be16_of(a.h)
        + crate::bytes::le32_bytes(a.bg) + counted(vstd::utf8::encode_utf8(a.title@))
}

/// Asking, once, to move a window belonging to somebody else.
pub open spec fn poach_bytes(id: u8) -> Seq<u8> {
    seq![OP_WIN_MOVE, id, 0u8, 0u8, 0u8, 0u8, OP_COMPOSE]
}

/// What an event came to.
#[derive(Clone, Copy, Debug, PartialEq, Eq, Structural)]
pub enum Effect {
    /// Nothing: there is no window yet for it to belong to, or it is no tap.
    Ignored,
    Opened,
    TitleBar,
    /// A row, and whether it is on now.
    Row(usize, bool),
    BelowTheRows,
}

/// The row that a tap at a height names.
pub open spec fn row_at(ry: int) -> int {
    (ry - TITLE_BAR - INSET) / (ROW_H as int)
}

/// What a tap at a height does.
pub open spec fn tapped(a: App, on: Seq<bool>, ry: int) -> Effect {
    if ry < TITLE_BAR + INSET {
        Effect::TitleBar
    } else if row_at(ry) < a.rows@.len() && row_at(ry) < MAX_ROWS {
        Effect::Row(row_at(ry) as usize, !on[row_at(ry)])
    } else {
        Effect::BelowTheRows
    }
}

fn create_message(a: &App) -> (r: Vec<u8>)
    ensures
        r@ == create_bytes(*a),
{
    let mut m = Msg::new();
    m.b(OP_WIN_CREATE);
    m.b(a.win);
    m.be16(a.x);
    m.be16(a.y);
    m.be16(a.w);
    m.be16(a.h);
    m.le32(a.bg);
    m.text(a.title);
    assert(m.bytes@ =~= create_bytes(*a));
    m.bytes
}

fn poach_message(id: u8) -> (r: Vec<u8>)
    ensures
        r@ == poach_bytes(id),
{
    let mut m = Msg::new();
    m.b(OP_WIN_MOVE);
    m.b(id);
    m.be16(0);
    m.be16(0);
    m.b(OP_COMPOSE);
    assert(m.bytes@ =~= poach_bytes(id));
    m.bytes
}

fn raise_message(win: u8) -> (r: Vec<u8>)
    ensures
        r@ == seq![OP_WIN_RAISE, win],
{
    let mut m = Msg::new();
    m.b(OP_WIN_RAISE);
    m.b(win);
    assert(m.bytes@ =~= seq![OP_WIN_RAISE, win]);
    m.bytes
}

fn append(out: &mut Vec<Vec<u8>>, more: Vec<Vec<u8>>)
    ensures
        views(final(out)@) == views(old(out)@) + views(more@),
{
    let ghost before = views(out@);
    let ghost all = views(more@);
    let mut more = more;
    out.append(&mut more);
    assert(views(out@) =~= before + all);
}

/// What an event of `n` bytes does to a session, what it came to, and what is sent.
pub open spec fn reacted(
    a: App,
    s0: Session,
    s1: Session,
    ev: Seq<u8>,
    n: int,
    e: Effect,
    sent: Seq<Seq<u8>>,
) -> bool {
    if !s0.open {
        if n >= 1 && ev[0] == EV_START {
            &&& e == Effect::Opened
            &&& s1.open
            &&& sent == (seq![create_bytes(a)] + drawing(a, s0.on@) + match a.poach {
                Some(id) => seq![poach_bytes(id)],
                None => Seq::empty(),
            })
            &&& s1.on@ == s0.on@
            &&& s1.taps == s0.taps
        } else {
            &&& e == Effect::Ignored
            &&& sent == Seq::<Seq<u8>>::empty()
            &&& s1 == s0
        }
    } else if n < 7 || ev[0] != EV_TAP {
        &&& e == Effect::Ignored
        &&& sent == Seq::<Seq<u8>>::empty()
        &&& s1 == s0
    } else {
        let ry = crate::bytes::be16(ev, 4) as int;
        let raise = seq![seq![OP_WIN_RAISE, a.win]];
        &&& e == tapped(a, s0.on@, ry)
        &&& s1.open
        &&& s1.taps == s0.taps.wrapping_add(1)
        &&& match e {
            Effect::Row(row, now) => {
                &&& s1.on@ == s0.on@.update(row as int, now)
                &&& sent == raise + drawing(a, s1.on@)
            },
            _ => {
                &&& s1.on@ == s0.on@
                &&& sent == raise
            },
        }
    }
}

impl Session {
    pub fn new() -> (s: Session)
        ensures
            !s.open,
            s.on@ == Seq::new(6, |i: int| false),
            s.taps == 0,
    {
        let s = Session { open: false, on: [false;6], taps: 0 };
        assert(s.on@ =~= Seq::new(6, |i: int| false));
        s
    }

    /// Take in the event in the first `n` bytes of a buffer: what it came to, and
    /// the messages to send, in order.
    pub fn run(&mut self, a: &App, ev: &[u8; 32], n: usize) -> (r: (Effect, Vec<Vec<u8>>))
        ensures
            reacted(*a, *old(self), *final(self), ev@, n as int, r.0, views(r.1@)),
    {
        let mut out: Vec<Vec<u8>> = Vec::new();
        assert(views(out@) =~= Seq::<Seq<u8>>::empty());
        if !self.open {
            // Anything else that arrives before the start is dropped: there is no
            // window yet for a tap to belong to.
            if n < 1 || ev[0] != EV_START {
                return (Effect::Ignored, out);
            }
            self.open = true;
            out.push(create_message(a));
            assert(views(out@) =~= seq![create_bytes(*a)]);
            append(&mut out, draw(a, &self.on));
            let ghost drawn = views(out@);
            match a.poach {
                Some(id) => {
                    out.push(poach_message(id));
                    assert(views(out@) =~= drawn + seq![poach_bytes(id)]);
                },
                None => {
                    assert(views(out@) =~= drawn + Seq::<Seq<u8>>::empty());
                },
            }
            return (Effect::Opened, out);
        }
        if n < 7 || ev[0] != EV_TAP {
            return (Effect::Ignored, out);
        }
        let ry: usize = crate::bytes::get_be16(ev, 4) as usize;
        self.taps = self.taps.wrapping_add(1);
        // Tapping a window brings it to the front, which is what makes the next tap
        // at the same point go somewhere else.
        out.push(raise_message(a.win));
        assert(views(out@) =~= seq![seq![OP_WIN_RAISE, a.win]]);
        if ry < TITLE_BAR + INSET {
            return (Effect::TitleBar, out);
        }
        let row: usize = (ry - TITLE_BAR - INSET) / ROW_H;
        assert(row == row_at(ry as int));
        if row < a.rows.len() && row < MAX_ROWS {
            let now = !self.on[row];
            self.on[row] = now;
            append(&mut out, draw(a, &self.on));
            (Effect::Row(row, now), out)
        } else {
            (Effect::BelowTheRows, out)
        }
    }
}

/// Tapping the same place twice leaves every row as it was.
pub proof fn tapping_twice_changes_nothing(a: App, on: Seq<bool>, ry: int)
    requires
        on.len() == 6,
        tapped(a, on, ry) is Row,
        0 <= ry,
    ensures
        ({
            let r1 = tapped(a, on, ry);
            let once = on.update(r1->Row_0 as int, r1->Row_1);
            let r2 = tapped(a, once, ry);
            &&& r2 is Row && r2->Row_0 == r1->Row_0
            &&& once.update(r2->Row_0 as int, r2->Row_1) == on
        }),
{
    let r1 = tapped(a, on, ry);
    let once = on.update(r1->Row_0 as int, r1->Row_1);
    let r2 = tapped(a, once, ry);
    assert(once.update(r2->Row_0 as int, r2->Row_1) =~= on);
}

proof fn lemma_rows_fit(a: App, on: Seq<bool>, n: int)
    requires
        0 <= n <= shown_rows(a),
    ensures
        rows_drawn(a, on, n).1.len() <= FULL,
        forall|k: int|
            0 <= k < rows_drawn(a, on, n).0.len() ==> (#[trigger] rows_drawn(a, on, n).0[k]).len()
                <= 366,
    decreases n,
{
    if n > 0 {
        lemma_rows_fit(a, on, n - 1);
        assert(row_bytes(a, on, n - 1).len() <= 66);
    }
}

/// No message that draws is ever cut: each stays well inside the longest one there
/// can be.
pub proof fn drawing_is_never_cut(a: App, on: Seq<bool>)
    ensures
        forall|k: int|
            0 <= k < drawing(a, on).len() ==> (#[trigger] drawing(a, on)[k]).len() <= 366,
{
    lemma_rows_fit(a, on, shown_rows(a));
}

// ---- the two applications --------------------------------------------------------------------

/// The application's shell.
pub fn shell() -> (a: App)
    ensures
        a.win == 0,
        a.x == 30 && a.y == 150 && a.w == 390 && a.h == 250,
        a.bg == 0xff16_1b22,
        a.accent == 0xff58_a6ff,
        a.tag == "  [shell   ]",
        a.title == "JUNGEY SHELL",
        a.rows@ == seq![
            "RUN A MODEL",
            "OPEN NOTES",
            "SHOW THE LOG",
            "CHECK BATTERY",
            "READ THE AUDIT",
            "SLEEP",
        ],
        a.poach is None,
{
    let mut rows: Vec<&'static str> = Vec::new();
    rows.push("RUN A MODEL");
    rows.push("OPEN NOTES");
    rows.push("SHOW THE LOG");
    rows.push("CHECK BATTERY");
    rows.push("READ THE AUDIT");
    rows.push("SLEEP");
    App {
        tag: "  [shell   ]",
        win: 0,
        x: 30,
        y: 150,
        w: 390,
        h: 250,
        bg: 0xff16_1b22,
        accent: 0xff58_a6ff,
        title: "JUNGEY SHELL",
        rows,
        poach: None,
    }
}

/// A second one, which tries to move the shell's window. Asking is the point.
pub fn notes() -> (a: App)
    ensures
        a.win == 1,
        a.x == 70 && a.y == 330 && a.w == 390 && a.h == 220,
        a.bg == 0xff1b_1622,
        a.accent == 0xffd2_9922,
        a.tag == "  [notes   ]",
        a.title == "NOTES",
        a.rows@ == seq!["GROCERIES", "STANDUP", "READ THE ROADMAP"],
        a.poach == Some(0u8),
{
    let mut rows: Vec<&'static str> = Vec::new();
    rows.push("GROCERIES");
    rows.push("STANDUP");
    rows.push("READ THE ROADMAP");
    App {
        tag: "  [notes   ]",
        win: 1,
        x: 70,
        y: 330,
        w: 390,
        h: 220,
        bg: 0xff1b_1622,
        accent: 0xffd2_9922,
        title: "NOTES",
        rows,
        poach: Some(0),
    }
}

} // verus!
