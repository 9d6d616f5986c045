//! The window manager: what is on the screen, who owns it, and who a tap belongs
//! to.
//!
//! Two properties are worth stating, and both are proved below:
//!
//! - **A window belongs to the process that created it.** Windows are keyed by
//!   (owner, id), where the owner is the pid the *kernel* recorded at `send` time,
//!   not a field in the message. An application that guesses another's window id
//!   reaches its own window of that id, or nothing.
//! - **A tap goes to exactly one window**: the topmost one containing the point.
//!   Not the one that asked last, not all of them.
use vstd::prelude::*;
use vstd::slice::slice_subrange;
use crate::bytes::push_bytes;

verus! {

/// Phone-shaped, and small enough that a frame is under two megabytes.
pub const WIDTH: usize = 480;

pub const HEIGHT: usize = 960;

pub const MAX_WINDOWS: usize = 8;

pub const MAX_CMDS: usize = 24;

pub const MAX_TEXT: usize = 40;

pub const TITLE_BAR: usize = 22;

pub const MAX_TITLE: usize = 24;

#[derive(Clone, Copy, Debug, PartialEq, Eq, Structural)]
pub struct Rect {
    pub x: usize,
    pub y: usize,
    pub w: usize,
    pub h: usize,
}

/// The smaller of two.
pub open spec fn lesser(a: int, b: int) -> int {
    if a < b {
        a
    } else {
        b
    }
}

/// The larger of two.
pub open spec fn greater(a: int, b: int) -> int {
    if a < b {
        b
    } else {
        a
    }
}

impl Rect {
    /// Its far corner has coordinates.
    pub open spec fn wf(self) -> bool {
        self.x + self.w <= usize::MAX && self.y + self.h <= usize::MAX
    }

    pub open spec fn on_screen(self) -> bool {
        self.x + self.w <= WIDTH && self.y + self.h <= HEIGHT
    }

    /// Whether a point is in the rectangle.
    pub open spec fn has(self, px: int, py: int) -> bool {
        &&& self.w != 0
        &&& self.x <= px < self.x + self.w
        &&& self.y <= py < self.y + self.h
    }

    /// The smallest rectangle covering both.
    pub open spec fn joined(self, o: Rect) -> Rect {
        if self.w == 0 {
            o
        } else if o.w == 0 {
            self
        } else {
            let x0 = lesser(self.x as int, o.x as int);
            let y0 = lesser(self.y as int, o.y as int);
            let x1 = greater(self.x + self.w, o.x + o.w);
            let y1 = greater(self.y + self.h, o.y + o.h);
            Rect {
                x: x0 as usize,
                y: y0 as usize,
                w: (x1 - x0) as usize,
                h: (y1 - y0) as usize,
            }
        }
    }

    /// The part that is on the screen.
    pub open spec fn clamped(self) -> Rect {
        let x = lesser(self.x as int, WIDTH as int);
        let y = lesser(self.y as int, HEIGHT as int);
        Rect {
            x: x as usize,
            y: y as usize,
            w: greater(lesser(self.x + self.w, WIDTH as int) - x, 0) as usize,
            h: greater(lesser(self.y + self.h, HEIGHT as int) - y, 0) as usize,
        }
    }

    pub fn empty() -> (r: Rect)
        ensures
            r == (Rect { x: 0, y: 0, w: 0, h: 0 }),
    {
        Rect { x: 0, y: 0, w: 0, h: 0 }
    }

    pub fn contains(&self, px: usize, py: usize) -> (r: bool)
        ensures
            r == self.has(px as int, py as int),
    {
        self.w != 0 && px >= self.x && py >= self.y && px - self.x < self.w && py - self.y < self.h
    }

    pub fn area(&self) -> (r: usize)
        requires
            self.w * self.h <= usize::MAX,
        ensures
            r == self.w * self.h,
    {
        self.w * self.h
    }

    /// The smallest rectangle covering both. Damage is tracked as one box rather
    /// than a list: it over-reports when two changes are far apart.
    pub fn union(&self, o: &Rect) -> (r: Rect)
        requires
            self.wf(),
            o.wf(),
        ensures
            r == self.joined(*o),
            r.wf(),
    {
        if self.w == 0 {
            return *o;
        }
        if o.w == 0 {
            return *self;
        }
        let x0 = if self.x < o.x {
            self.x
        } else {
            o.x
        };
        let y0 = if self.y < o.y {
            self.y
        } else {
            o.y
        };
        let x1 = if self.x + self.w < o.x + o.w {
            o.x + o.w
        } else {
            self.x + self.w
        };
        let y1 = if self.y + self.h < o.y + o.h {
            o.y + o.h
        } else {
            self.y + self.h
        };
        Rect { x: x0, y: y0, w: x1 - x0, h: y1 - y0 }
    }

    pub fn clamp_to_screen(&self) -> (r: Rect)
        ensures
            r == self.clamped(),
            r.on_screen(),
    {
        let x = if self.x < WIDTH {
            self.x
        } else {
            WIDTH
        };
        let y = if self.y < HEIGHT {
            self.y
        } else {
            HEIGHT
        };
        let w = if self.w < WIDTH - x {
            self.w
        } else {
            WIDTH - x
        };
        let h = if self.h < HEIGHT - y {
            self.h
        } else {
            HEIGHT - y
        };
        Rect { x, y, w, h }
    }
}

/// Something an application drew in its window.
#[derive(Clone, Copy)]
pub enum Cmd {
    Blank,
    Fill { x: usize, y: usize, w: usize, h: usize, color: u32 },
    Text { x: usize, y: usize, scale: usize, color: u32, len: usize, bytes: [u8; 40] },
}

/// The command can be placed anywhere on the screen.
pub open spec fn cmd_ok(c: Cmd) -> bool {
    match c {
        Cmd::Blank => true,
        Cmd::Fill { x, y, .. } => x + WIDTH <= usize::MAX && y + HEIGHT + TITLE_BAR <= usize::MAX,
        Cmd::Text { x, y, len, .. } => x + WIDTH <= usize::MAX && y + HEIGHT + TITLE_BAR
            <= usize::MAX && len <= MAX_TEXT,
    }
}

#[derive(Clone, Copy)]
pub struct Window {
    pub used: bool,
    pub owner: usize,
    pub id: u8,
    pub rect: Rect,
    pub bg: u32,
    pub z: usize,
    pub title: [u8; 24],
    pub title_len: usize,
    pub cmds: [Cmd; 24],
    pub ncmd: usize,
}

impl Window {
    /// On the screen, with no more title and no more commands than there is room
    /// for.
    pub open spec fn wf(self) -> bool {
        &&& self.rect.on_screen()
        &&& self.title_len <= MAX_TITLE
        &&& self.ncmd <= MAX_CMDS
        &&& forall|k: int| 0 <= k < self.ncmd ==> cmd_ok(#[trigger] self.cmds@[k])
    }

    /// The title as it was given.
    pub open spec fn title_text(self) -> Seq<u8> {
        self.title@.take(self.title_len as int)
    }

    /// What the application drew, in order.
    pub open spec fn drawing(self) -> Seq<Cmd> {
        self.cmds@.take(self.ncmd as int)
    }

    fn blank() -> (w: Window)
        ensures
            !w.used,
            w.wf(),
            w.ncmd == 0,
            w.title_len == 0,
    {
        Window {
            used: false,
            owner: 0,
            id: 0,
            rect: Rect { x: 0, y: 0, w: 0, h: 0 },
            bg: 0,
            z: 0,
            title: [0;24],
            title_len: 0,
            cmds: [Cmd::Blank;24],
            ncmd: 0,
        }
    }
}

pub struct Wm {
    pub windows: [Window; 8],
    pub next_z: usize,
    pub damage: Rect,
    /// Taps that landed on no window at all. A compositor that silently delivered
    /// those somewhere would be much harder to trust.
    pub taps_on_nothing: usize,
    pub taps_routed: usize,
    /// Operations naming a window the sender does not own.
    pub rejected: usize,
    pub composes: usize,
}

/// How many of the first `n` windows are open.
pub open spec fn open_among(ws: Seq<Window>, n: int) -> int
    decreases n,
{
    if n <= 0 {
        0
    } else {
        open_among(ws, n - 1) + if ws[n - 1].used {
            1int
        } else {
            0
        }
    }
}

/// The first window at or after the `i`th with this owner and id.
pub open spec fn owned_from(ws: Seq<Window>, owner: usize, id: u8, i: int) -> Option<int>
    decreases ws.len() - i,
{
    if i >= ws.len() {
        None
    } else if ws[i].used && ws[i].owner == owner && ws[i].id == id {
        Some(i)
    } else {
        owned_from(ws, owner, id, i + 1)
    }
}

/// The first place at or after the `i`th where no window is.
pub open spec fn free_from(ws: Seq<Window>, i: int) -> Option<int>
    decreases ws.len() - i,
{
    if i >= ws.len() {
        None
    } else if !ws[i].used {
        Some(i)
    } else {
        free_from(ws, i + 1)
    }
}

/// The topmost of the first `n` windows that contains a point: the one with the
/// greatest z.
pub open spec fn topmost(ws: Seq<Window>, x: int, y: int, n: int) -> Option<int>
    decreases n,
{
    if n <= 0 {
        None
    } else {
        let below = topmost(ws, x, y, n - 1);
        let w = ws[n - 1];
        if !w.used || !w.rect.has(x, y) {
            below
        } else {
            match below {
                Some(b) => if w.z > ws[b].z {
                    Some(n - 1)
                } else {
                    below
                },
                None => Some(n - 1),
            }
        }
    }
}

impl Wm {
    /// Every window is sound, and no two are at the same height.
    pub open spec fn wf(&self) -> bool {
        &&& self.damage.wf()
        &&& forall|i: int| 0 <= i < 8 ==> (#[trigger] self.windows@[i]).wf()
        &&& forall|i: int|
            0 <= i < 8 && (#[trigger] self.windows@[i]).used ==> self.windows@[i].z < self.next_z
        &&& forall|i: int, j: int|
            0 <= i < 8 && 0 <= j < 8 && i != j && (#[trigger] self.windows@[i]).used && (
            #[trigger] self.windows@[j]).used ==> self.windows@[i].z != self.windows@[j].z
    }

    /// Whether `w` can stand where window `i` stands: it is sound, and at a height of its
    /// own.
    pub open spec fn has_place_for(&self, i: int, w: Window) -> bool {
        &&& w.wf()
        &&& w.used ==> w.z < self.next_z && forall|j: int|
            0 <= j < 8 && j != i && (#[trigger] self.windows@[j]).used ==> self.windows@[j].z != w.z
    }

    /// Nothing but the windows, the heights and the damage differs.
    pub open spec fn same_counts(&self, o: Wm) -> bool {
        &&& o.taps_on_nothing == self.taps_on_nothing
        &&& o.taps_routed == self.taps_routed
        &&& o.composes == self.composes
    }

    pub fn new() -> (m: Wm)
        ensures
            m.wf(),
            forall|i: int| 0 <= i < 8 ==> !(#[trigger] m.windows@[i]).used,
            m.next_z == 1,
            m.damage == (Rect { x: 0, y: 0, w: 0, h: 0 }),
            m.taps_on_nothing == 0,
            m.taps_routed == 0,
            m.rejected == 0,
            m.composes == 0,
    {
        Wm {
            windows: [Window::blank();8],
            next_z: 1,
            damage: Rect::empty(),
            taps_on_nothing: 0,
            taps_routed: 0,
            rejected: 0,
            composes: 0,
        }
    }

    /// How many windows are open.
    pub fn open(&self) -> (n: usize)
        ensures
            n == open_among(self.windows@, 8),
    {
        let mut n: usize = 0;
        let mut i: usize = 0;
        while i < 8
            invariant
                i <= 8,
                n <= i,
                n == open_among(self.windows@, i as int),
            decreases 8 - i,
        {
            if self.windows[i].used {
                n = n + 1;
            }
            i = i + 1;
        }
        n
    }

    pub fn dirty(&mut self, r: Rect)
        requires
            old(self).damage.wf(),
        ensures
            *final(self) == (Wm { damage: old(self).damage.joined(r.clamped()), ..*old(self) }),
            final(self).damage.wf(),
    {
        let c = r.clamp_to_screen();
        self.damage = self.damage.union(&c);
    }

    pub fn dirty_all(&mut self)
        ensures
            *final(self) == (Wm {
                damage: Rect { x: 0, y: 0, w: WIDTH, h: HEIGHT },
                ..*old(self)
            }),
    {
        self.damage = Rect { x: 0, y: 0, w: WIDTH, h: HEIGHT };
    }

    /// Find a window by owner and id. The owner comes from the kernel, so this is
    /// the whole of the ownership check.
    fn find(&self, owner: usize, id: u8) -> (r: Option<usize>)
        ensures
            match r {
                Some(i) => i < 8 && owned_from(self.windows@, owner, id, 0) == Some(i as int)
                    && self.windows@[i as int].used && self.windows@[i as int].owner == owner
                    && self.windows@[i as int].id == id,
                None => owned_from(self.windows@, owner, id, 0) is None,
            },
    {
        let mut i: usize = 0;
        while i < 8
            invariant
                i <= 8,
                owned_from(self.windows@, owner, id, 0) == owned_from(
                    self.windows@,
                    owner,
                    id,
                    i as int,
                ),
            decreases 8 - i,
        {
            let w = self.windows[i];
            if w.used && w.owner == owner && w.id == id {
                return Some(i);
            }
            i = i + 1;
        }
        None
    }

    fn free_slot(&self) -> (r: Option<usize>)
        ensures
            match r {
                Some(i) => i < 8 && free_from(self.windows@, 0) == Some(i as int)
                    && !self.windows@[i as int].used,
                None => free_from(self.windows@, 0) is None,
            },
    {
        let mut i: usize = 0;
        while i < 8
            invariant
                i <= 8,
                free_from(self.windows@, 0) == free_from(self.windows@, i as int),
            decreases 8 - i,
        {
            if !self.windows[i].used {
                return Some(i);
            }
            i = i + 1;
        }
        None
    }

    /// Open a window, above every other. An owner has one window of an id, and
    /// there is room for a few in all.
    pub fn create(&mut self, owner: usize, id: u8, rect: Rect, bg: u32, title: &[u8]) -> (r: bool)
        requires
            old(self).wf(),
            old(self).next_z < usize::MAX,
        ensures
            final(self).wf(),
            opened(*old(self), *final(self), owner, id, rect, bg, title@, r),
    {
        if self.find(owner, id).is_some() {
            return false;
        }
        let slot: usize = match self.free_slot() {
            None => {
                return false;
            },
            Some(s) => s,
        };
        let mut w = Window::blank();
        w.used = true;
        w.owner = owner;
        w.id = id;
        w.rect = rect.clamp_to_screen();
        w.bg = bg;
        w.z = self.next_z;
        self.next_z = self.next_z + 1;
        let n: usize = if title.len() < MAX_TITLE {
            title.len()
        } else {
            MAX_TITLE
        };
        w.title_len = n;
        let mut i: usize = 0;
        let ghost w0 = w;
        while i < n
            invariant
                i <= n <= title@.len(),
                n <= 24,
                w == (Window { title: w.title, ..w0 }),
                forall|k: int| 0 <= k < i ==> w.title@[k] == title@[k],
            decreases n - i,
        {
            w.title[i] = title[i];
            i = i + 1;
        }
        assert(w.title_text() =~= title@.take(n as int));
        let r = w.rect;
        self.windows[slot] = w;
        self.dirty(r);
        true
    }

    /// Change a window that the sender owns, in any way. False when the sender does not
    /// own that window, which is counted rather than silently ignored.
    pub fn with<F: FnOnce(Window) -> Window>(&mut self, owner: usize, id: u8, f: F) -> (r: bool)
        requires
            old(self).damage.wf(),
            owned_from(old(self).windows@, owner, id, 0) matches Some(i) ==> call_requires(
                f,
                (old(self).windows@[i],),
            ),
        ensures
            final(self).damage.wf(),
            old(self).wf() && (owned_from(old(self).windows@, owner, id, 0) matches Some(i) ==> old(
                self,
            ).has_place_for(i, final(self).windows@[i])) ==> final(self).wf(),
            old(self).same_counts(*final(self)),
            final(self).next_z == old(self).next_z,
            match owned_from(old(self).windows@, owner, id, 0) {
                Some(i) => {
                    let before = old(self).windows@[i];
                    let after = final(self).windows@[i];
                    &&& r
                    &&& call_ensures(f, (before,), after)
                    &&& final(self).windows@ == old(self).windows@.update(i, after)
                    &&& final(self).rejected == old(self).rejected
                    &&& final(self).damage == old(self).damage.joined(
                        before.rect.clamped(),
                    ).joined(after.rect.clamped())
                },
                None => {
                    &&& !r
                    &&& final(self).windows@ == old(self).windows@
                    &&& final(self).rejected == old(self).rejected.wrapping_add(1)
                    &&& final(self).damage == old(self).damage
                },
            },
    {
        match self.find(owner, id) {
            Some(i) => {
                let w = self.windows[i];
                let before = w.rect;
                let changed = f(w);
                let after = changed.rect;
                self.windows[i] = changed;
                self.dirty(before);
                self.dirty(after);
                true
            },
            None => {
                self.rejected = self.rejected.wrapping_add(1);
                false
            },
        }
    }

    /// Bring a window to the front.
    pub fn raise(&mut self, owner: usize, id: u8) -> (r: bool)
        requires
            old(self).wf(),
            old(self).next_z < usize::MAX,
        ensures
            final(self).wf(),
            old(self).same_counts(*final(self)),
            final(self).next_z == old(self).next_z + 1,
            raised(*old(self), *final(self), owner, id, r),
    {
        let z = self.next_z;
        self.next_z = self.next_z + 1;
        proof {
            lemma_owned(self.windows@, owner, id, 0);
        }
        let to_front = |w: Window| -> (r: Window)
            ensures
                r == (Window { z, ..w })
        { Window { z, ..w } };
        self.with(owner, id, to_front)
    }

    /// Add to what a window shows. A window that is full stays as it is.
    pub fn push(&mut self, owner: usize, id: u8, cmd: Cmd) -> (r: bool)
        requires
            old(self).wf(),
            cmd_ok(cmd),
        ensures
            final(self).wf(),
            old(self).same_counts(*final(self)),
            final(self).next_z == old(self).next_z,
            shown(*old(self), *final(self), owner, id, cmd, r),
    {
        proof {
            lemma_owned(self.windows@, owner, id, 0);
        }
        let drawn = |w: Window| -> (r: Window)
            requires
                w.wf()
            ensures
                added(w, cmd, r)
        { with_cmd(w, cmd) };
        self.with(owner, id, drawn)
    }

    /// Forget what a window shows.
    pub fn reset(&mut self, owner: usize, id: u8) -> (r: bool)
        requires
            old(self).wf(),
        ensures
            final(self).wf(),
            old(self).same_counts(*final(self)),
            final(self).next_z == old(self).next_z,
            cleared(*old(self), *final(self), owner, id, r),
    {
        proof {
            lemma_owned(self.windows@, owner, id, 0);
        }
        let wiped = |w: Window| -> (r: Window)
            ensures
                r == (Window { ncmd: 0, ..w })
        { Window { ncmd: 0, ..w } };
        self.with(owner, id, wiped)
    }

    /// Which window a point belongs to: the topmost one containing it. Gives its
    /// owner, its id, and the point in the window's own coordinates.
    pub fn hit(&self, x: usize, y: usize) -> (r: Option<(usize, u8, usize, usize)>)
        requires
            self.wf(),
        ensures
            r == aimed_at(*self, x, y),
    {
        let mut best: Option<usize> = None;
        let mut i: usize = 0;
        while i < 8
            invariant
                i <= 8,
                self.wf(),
                match best {
                    Some(b) => b < i && topmost(self.windows@, x as int, y as int, i as int) == Some(
                        b as int,
                    ) && self.windows@[b as int].rect.has(x as int, y as int),
                    None => topmost(self.windows@, x as int, y as int, i as int) is None,
                },
            decreases 8 - i,
        {
            let w = self.windows[i];
            assert(self.windows@[i as int].wf());
            if w.used && w.rect.contains(x, y) {
                best =
                match best {
                    Some(b) => {
                        if w.z > self.windows[b].z {
                            Some(i)
                        } else {
                            Some(b)
                        }
                    },
                    None => Some(i),
                };
            }
            i = i + 1;
        }
        match best {
            None => None,
            Some(b) => {
                let w = self.windows[b];
                Some((w.owner, w.id, x - w.rect.x, y - w.rect.y))
            },
        }
    }
}

/// What opening a window does, and what it says.
pub open spec fn opened(
    m0: Wm,
    m1: Wm,
    owner: usize,
    id: u8,
    rect: Rect,
    bg: u32,
    title: Seq<u8>,
    r: bool,
) -> bool {
    &&& r == (owned_from(m0.windows@, owner, id, 0) is None && free_from(m0.windows@, 0) is Some)
    &&& !r ==> m1 == m0
    &&& r ==> {
        let slot = free_from(m0.windows@, 0)->0;
        let w = m1.windows@[slot];
        let n: int = lesser(title.len() as int, MAX_TITLE as int);
        &&& m0.same_counts(m1)
        &&& m1.rejected == m0.rejected
        &&& m1.next_z == m0.next_z + 1
        &&& m1.windows@ == m0.windows@.update(slot, w)
        &&& w.used && w.owner == owner && w.id == id
        &&& w.rect == rect.clamped()
        &&& w.bg == bg
        &&& w.z == m0.next_z
        &&& w.title_text() == title.take(n)
        &&& w.ncmd == 0
        &&& m1.damage == m0.damage.joined(rect.clamped().clamped())
    }
}

/// What bringing a window to the front does to the windows, and what it says.
pub open spec fn raised(m0: Wm, m1: Wm, owner: usize, id: u8, r: bool) -> bool {
    match owned_from(m0.windows@, owner, id, 0) {
        Some(i) => {
            let w = m0.windows@[i];
            &&& r
            &&& m1.windows@ == m0.windows@.update(
                i,
                Window { z: m0.next_z, ..w },
            )
            &&& m1.rejected == m0.rejected
            &&& m1.damage == m0.damage.joined(w.rect.clamped()).joined(
                w.rect.clamped(),
            )
        },
        None => {
            &&& !r
            &&& m1.windows@ == m0.windows@
            &&& m1.rejected == m0.rejected.wrapping_add(1)
            &&& m1.damage == m0.damage
        },
    }
}

/// What adding to a window does to the windows, and what it says.
pub open spec fn shown(m0: Wm, m1: Wm, owner: usize, id: u8, cmd: Cmd, r: bool) -> bool {
    match owned_from(m0.windows@, owner, id, 0) {
        Some(i) => {
            let before = m0.windows@[i];
            let after = m1.windows@[i];
            &&& r
            &&& m1.windows@ == m0.windows@.update(i, after)
            &&& after == (Window { cmds: after.cmds, ncmd: after.ncmd, ..before })
            &&& after.drawing() == (if before.ncmd < MAX_CMDS {
                before.drawing().push(cmd)
            } else {
                before.drawing()
            })
            &&& m1.rejected == m0.rejected
            &&& m1.damage == m0.damage.joined(
                before.rect.clamped(),
            ).joined(before.rect.clamped())
        },
        None => {
            &&& !r
            &&& m1.windows@ == m0.windows@
            &&& m1.rejected == m0.rejected.wrapping_add(1)
            &&& m1.damage == m0.damage
        },
    }
}

/// What forgetting what a window shows does to the windows, and what it says.
pub open spec fn cleared(m0: Wm, m1: Wm, owner: usize, id: u8, r: bool) -> bool {
    match owned_from(m0.windows@, owner, id, 0) {
        Some(i) => {
            let w = m0.windows@[i];
            &&& r
            &&& m1.windows@ == m0.windows@.update(
                i,
                Window { ncmd: 0, ..w },
            )
            &&& m1.rejected == m0.rejected
            &&& m1.damage == m0.damage.joined(w.rect.clamped()).joined(
                w.rect.clamped(),
            )
        },
        None => {
            &&& !r
            &&& m1.windows@ == m0.windows@
            &&& m1.rejected == m0.rejected.wrapping_add(1)
            &&& m1.damage == m0.damage
        },
    }
}

/// Whose window a point belongs to, which, and where in it.
pub open spec fn aimed_at(m: Wm, x: usize, y: usize) -> Option<(usize, u8, usize, usize)> {
    match topmost(m.windows@, x as int, y as int, 8) {
        Some(i) => {
            let w = m.windows@[i];
            Some((w.owner, w.id, (x - w.rect.x) as usize, (y - w.rect.y) as usize))
        },
        None => None,
    }
}

/// A window with one more command, if there is room for it.
pub open spec fn added(w: Window, cmd: Cmd, r: Window) -> bool {
    &&& r.wf()
    &&& r == (Window { cmds: r.cmds, ncmd: r.ncmd, ..w })
    &&& r.drawing() == (if w.ncmd < MAX_CMDS {
        w.drawing().push(cmd)
    } else {
        w.drawing()
    })
}

fn with_cmd(w: Window, cmd: Cmd) -> (r: Window)
    requires
        w.wf(),
        cmd_ok(cmd),
    ensures
        added(w, cmd, r),
{
    let mut r = w;
    if r.ncmd < MAX_CMDS {
        r.cmds[r.ncmd] = cmd;
        r.ncmd = r.ncmd + 1;
        assert(r.drawing() =~= w.drawing().push(cmd));
    }
    r
}

proof fn lemma_owned(ws: Seq<Window>, owner: usize, id: u8, i: int)
    requires
        0 <= i,
    ensures
        match owned_from(ws, owner, id, i) {
            Some(k) => i <= k < ws.len() && ws[k].used && ws[k].owner == owner && ws[k].id == id,
            None => forall|k: int|
                i <= k < ws.len() ==> !((#[trigger] ws[k]).used && ws[k].owner == owner && ws[k].id
                    == id),
        },
    decreases ws.len() - i,
{
    if i < ws.len() && !(ws[i].used && ws[i].owner == owner && ws[i].id == id) {
        lemma_owned(ws, owner, id, i + 1);
    }
}

// ---- painting -------------------------------------------------------------------------

/// One drawing operation, as a mathematical value.
#[verifier::ext_equal]
pub enum DrawView {
    Fill { x: usize, y: usize, w: usize, h: usize, color: u32 },
    Text { x: usize, y: usize, scale: usize, color: u32, bytes: Seq<u8> },
}

/// What the window manager needs from whoever owns the pixels. Keeping it to two
/// calls is what lets the window model be tried without a framebuffer.
pub trait Painter {
    /// Everything that has been drawn, in order.
    spec fn drawn(&self) -> Seq<DrawView>;

    fn fill(&mut self, x: usize, y: usize, w: usize, h: usize, color: u32)
        ensures
            final(self).drawn() == old(self).drawn().push(DrawView::Fill { x, y, w, h, color }),
    ;

    fn text(&mut self, x: usize, y: usize, scale: usize, color: u32, bytes: &[u8])
        ensures
            final(self).drawn() == old(self).drawn().push(
                DrawView::Text { x, y, scale, color, bytes: bytes@ },
            ),
    ;
}

/// One drawing operation.
pub enum Draw {
    Fill { x: usize, y: usize, w: usize, h: usize, color: u32 },
    Text { x: usize, y: usize, scale: usize, color: u32, bytes: Vec<u8> },
}

impl View for Draw {
    type V = DrawView;

    open spec fn view(&self) -> DrawView {
        match *self {
            Draw::Fill { x, y, w, h, color } => DrawView::Fill { x, y, w, h, color },
            Draw::Text { x, y, scale, color, bytes } => DrawView::Text {
                x,
                y,
                scale,
                color,
                bytes: bytes@,
            },
        }
    }
}

/// A painter that writes down what it is asked to draw.
pub struct Recorder {
    pub ops: Vec<Draw>,
}

impl Recorder {
    pub fn new() -> (r: Recorder)
        ensures
            r.drawn() == Seq::<DrawView>::empty(),
    {
        let r = Recorder { ops: Vec::new() };
        assert(r.drawn() =~= Seq::<DrawView>::empty());
        r
    }
}

impl Painter for Recorder {
    open spec fn drawn(&self) -> Seq<DrawView> {
        self.ops@.map_values(|d: Draw| d@)
    }

    fn fill(&mut self, x: usize, y: usize, w: usize, h: usize, color: u32) {
        let ghost before = self.drawn();
        self.ops.push(Draw::Fill { x, y, w, h, color });
        assert(self.drawn() =~= before.push(DrawView::Fill { x, y, w, h, color }));
    }

    fn text(&mut self, x: usize, y: usize, scale: usize, color: u32, bytes: &[u8]) {
        let ghost before = self.drawn();
        let mut copy: Vec<u8> = Vec::new();
        push_bytes(&mut copy, bytes);
        assert(copy@ =~= bytes@);
        self.ops.push(Draw::Text { x, y, scale, color, bytes: copy });
        assert(self.drawn() =~= before.push(
            DrawView::Text { x, y, scale, color, bytes: bytes@ },
        ));
    }
}

/// A colour channel, a third of the way to white.
pub open spec fn lighter(v: int) -> int {
    v + (255 - v) / 3
}

/// A colour, a third of the way to white and opaque.
pub open spec fn shaded(c: u32) -> int {
    0xff00_0000 + lighter(c as int / 0x1_0000 % 256) * 0x1_0000 + lighter(c as int / 0x100 % 256)
        * 0x100 + lighter(c as int % 256)
}

/// Lighten a colour for the title bar, channel by channel.
pub fn shade(c: u32) -> (r: u32)
    ensures
        r == shaded(c),
{
    let red: u32 = c / 0x1_0000 % 256;
    let green: u32 = c / 0x100 % 256;
    let blue: u32 = c % 256;
    0xff00_0000 + (red + (255 - red) / 3) * 0x1_0000 + (green + (255 - green) / 3) * 0x100 + (blue
        + (255 - blue) / 3)
}

pub const TITLE_COLOR: u32 = 0xffe6_edf3;

/// What a command draws on the screen: its place is in the window, below the title
/// bar.
pub open spec fn cmd_draw(w: Window, c: Cmd) -> Option<DrawView> {
    match c {
        Cmd::Blank => None,
        Cmd::Fill { x, y, w: cw, h, color } => Some(
            DrawView::Fill {
                x: (w.rect.x + x) as usize,
                y: (w.rect.y + TITLE_BAR + y) as usize,
                w: cw,
                h,
                color,
            },
        ),
        Cmd::Text { x, y, scale, color, len, bytes } => Some(
            DrawView::Text {
                x: (w.rect.x + x) as usize,
                y: (w.rect.y + TITLE_BAR + y) as usize,
                scale,
                color,
                bytes: bytes@.take(len as int),
            },
        ),
    }
}

/// What the first `n` commands of a window draw.
pub open spec fn content(w: Window, n: int) -> Seq<DrawView>
    decreases n,
{
    if n <= 0 {
        Seq::empty()
    } else {
        match cmd_draw(w, w.cmds@[n - 1]) {
            Some(d) => content(w, n - 1).push(d),
            None => content(w, n - 1),
        }
    }
}

/// What a window looks like: its background, its title bar, its title, and what
/// the application drew.
pub open spec fn picture(w: Window) -> Seq<DrawView> {
    seq![
        DrawView::Fill { x: w.rect.x, y: w.rect.y, w: w.rect.w, h: w.rect.h, color: w.bg },
        DrawView::Fill {
            x: w.rect.x,
            y: w.rect.y,
            w: w.rect.w,
            h: TITLE_BAR,
            color: shaded(w.bg) as u32,
        },
        DrawView::Text {
            x: (w.rect.x + 6) as usize,
            y: (w.rect.y + 7) as usize,
            scale: 1,
            color: TITLE_COLOR,
            bytes: w.title_text(),
        },
    ] + content(w, w.ncmd as int)
}

/// The pictures of the first `n` windows of a stack.
pub open spec fn pictures(ws: Seq<Window>, order: Seq<usize>, n: int) -> Seq<DrawView>
    decreases n,
{
    if n <= 0 {
        Seq::empty()
    } else {
        pictures(ws, order, n - 1) + picture(ws[order[n - 1] as int])
    }
}

/// Whether `order` lists exactly the open windows, each once.
pub open spec fn lists_open(ws: Seq<Window>, order: Seq<usize>) -> bool {
    &&& order.no_duplicates()
    &&& forall|i: usize| #[trigger] order.contains(i) <==> (i < ws.len() && ws[i as int].used)
}

/// Whether `order` goes from the bottom of the stack to the top.
pub open spec fn bottom_to_top(ws: Seq<Window>, order: Seq<usize>) -> bool {
    forall|a: int, b: int|
        0 <= a < b < order.len() ==> ws[(#[trigger] order[a]) as int].z <= ws[(
        #[trigger] order[b]) as int].z
}

fn paint_window<P: Painter>(w: &Window, painter: &mut P)
    requires
        w.wf(),
    ensures
        final(painter).drawn() == old(painter).drawn() + picture(*w),
{
    let ghost d0 = painter.drawn();
    painter.fill(w.rect.x, w.rect.y, w.rect.w, w.rect.h, w.bg);
    painter.fill(w.rect.x, w.rect.y, w.rect.w, TITLE_BAR, shade(w.bg));
    let title = slice_subrange(&w.title, 0, w.title_len);
    assert(title@ =~= w.title_text());
    painter.text(w.rect.x + 6, w.rect.y + 7, 1, TITLE_COLOR, title);
    let ghost d3 = painter.drawn();
    let mut k: usize = 0;
    assert(d3 + content(*w, 0) =~= d3);
    while k < w.ncmd
        invariant
            k <= w.ncmd,
            w.wf(),
            painter.drawn() == d3 + content(*w, k as int),
        decreases w.ncmd - k,
    {
        let ghost before = painter.drawn();
        assert(cmd_ok(w.cmds@[k as int]));
        match w.cmds[k] {
            Cmd::Blank => {},
            Cmd::Fill { x, y, w: cw, h, color } => {
                painter.fill(w.rect.x + x, w.rect.y + TITLE_BAR + y, cw, h, color);
                assert(painter.drawn() =~= d3 + content(*w, k + 1));
            },
            Cmd::Text { x, y, scale, color, len, bytes } => {
                let shown = slice_subrange(&bytes, 0, len);
                assert(shown@ =~= bytes@.take(len as int));
                painter.text(w.rect.x + x, w.rect.y + TITLE_BAR + y, scale, color, shown);
                assert(painter.drawn() =~= d3 + content(*w, k + 1));
            },
        }
        k = k + 1;
    }
    assert(painter.drawn() =~= d0 + picture(*w));
}

proof fn lemma_swapped(ws: Seq<Window>, a: Seq<usize>, b: Seq<usize>, j: int)
    requires
        0 < j < a.len(),
        b == a.update(j - 1, a[j]).update(j, a[j - 1]),
        lists_open(ws, a),
    ensures
        lists_open(ws, b),
{
    assert forall|i: usize| #[trigger] b.contains(i) <==> a.contains(i) by {
        if a.contains(i) {
            let k = choose|k: int| 0 <= k < a.len() && a[k] == i;
            if k == j {
                assert(b[j - 1] == i);
            } else if k == j - 1 {
                assert(b[j] == i);
            } else {
                assert(b[k] == i);
            }
        }
        if b.contains(i) {
            let k = choose|k: int| 0 <= k < b.len() && b[k] == i;
            if k == j {
                assert(a[j - 1] == i);
            } else if k == j - 1 {
                assert(a[j] == i);
            } else {
                assert(a[k] == i);
            }
        }
    }
}

/// The open windows, from the bottom of the stack to the top.
fn stack(ws: &[Window; 8]) -> (order: Vec<usize>)
    ensures
        lists_open(ws@, order@),
        bottom_to_top(ws@, order@),
{
    let mut order: Vec<usize> = Vec::new();
    let mut i: usize = 0;
    while i < 8
        invariant
            i <= 8,
            order@.len() <= i,
            order@.no_duplicates(),
            forall|k: usize| #[trigger]
                order@.contains(k) <==> (k < i && ws@[k as int].used),
        decreases 8 - i,
    {
        if ws[i].used {
            let ghost before = order@;
            order.push(i);
            proof {
                assert(!before.contains(i));
                assert forall|k: usize| #[trigger] order@.contains(k) <==> (k < i + 1
                    && ws@[k as int].used) by {
                    if order@.contains(k) {
                        let m = choose|m: int| 0 <= m < order@.len() && order@[m] == k;
                        if m < before.len() {
                            assert(before[m] == k);
                            assert(before.contains(k));
                        }
                    }
                    if k < i + 1 && ws@[k as int].used {
                        if k < i {
                            assert(before.contains(k));
                            let m = choose|m: int| 0 <= m < before.len() && before[m] == k;
                            assert(order@[m] == k);
                        } else {
                            assert(order@[before.len() as int] == k);
                        }
                    }
                }
            }
        }
        i = i + 1;
    }
    assert forall|k: int| 0 <= k < order@.len() implies (#[trigger] order@[k]) < 8 by {
        assert(order@.contains(order@[k]));
    }
    let ghost ws_ = ws@;
    // Insertion sort by height: eight windows, and it keeps the ordering obvious at
    // the point where being wrong would be invisible.
    let n: usize = order.len();
    let mut i: usize = 1;
    while i < n
        invariant
            1 <= i,
            n == order@.len(),
            ws_ == ws@,
            lists_open(ws_, order@),
            forall|k: int| 0 <= k < order@.len() ==> (#[trigger] order@[k]) < 8,
            i <= n || n == 0,
            forall|a: int, b: int|
                0 <= a < b < i && b < n ==> ws_[(#[trigger] order@[a]) as int].z <= ws_[(
                #[trigger] order@[b]) as int].z,
        decreases n - i,
    {
        let mut j: usize = i;
        while j > 0 && ws[order[j - 1]].z > ws[order[j]].z
            invariant
                j <= i < n,
                n == order@.len(),
                ws_ == ws@,
                lists_open(ws_, order@),
                forall|k: int| 0 <= k < order@.len() ==> (#[trigger] order@[k]) < 8,
                // Sorted, but for the one on its way down.
                forall|a: int, b: int|
                    0 <= a < b <= i && a != j && b != j ==> ws_[(#[trigger] order@[a]) as int].z
                        <= ws_[(#[trigger] order@[b]) as int].z,
                forall|b: int|
                    j < b <= i ==> ws_[order@[j as int] as int].z <= ws_[(
                    #[trigger] order@[b]) as int].z,
            decreases j,
        {
            let ghost before = order@;
            let low = order[j - 1];
            let high = order[j];
            order[j - 1] = high;
            order[j] = low;
            proof {
                lemma_swapped(ws_, before, order@, j as int);
            }
            j = j - 1;
        }
        i = i + 1;
    }
    order
}

impl Wm {
    /// Draw every window, bottom to top.
    pub fn paint<P: Painter>(&mut self, painter: &mut P)
        requires
            old(self).wf(),
        ensures
            *final(self) == (Wm { composes: old(self).composes.wrapping_add(1), ..*old(self) }),
            exists|order: Seq<usize>|
                {
                    &&& lists_open(old(self).windows@, order)
                    &&& bottom_to_top(old(self).windows@, order)
                    &&& final(painter).drawn() == old(painter).drawn() + #[trigger] pictures(
                        old(self).windows@,
                        order,
                        order.len() as int,
                    )
                },
    {
        let order = stack(&self.windows);
        let ghost d0 = painter.drawn();
        let ghost ws = self.windows@;
        let mut k: usize = 0;
        assert(d0 + pictures(ws, order@, 0) =~= d0);
        while k < order.len()
            invariant
                k <= order@.len(),
                ws == self.windows@,
                *self == *old(self),
                self.wf(),
                lists_open(ws, order@),
                painter.drawn() == d0 + pictures(ws, order@, k as int),
            decreases order@.len() - k,
        {
            assert(order@.contains(order@[k as int]));
            let w = self.windows[order[k]];
            assert(self.windows@[order@[k as int] as int].wf());
            paint_window(&w, painter);
            assert(painter.drawn() =~= d0 + pictures(ws, order@, k + 1));
            k = k + 1;
        }
        self.composes = self.composes.wrapping_add(1);
    }
}

// ---- what the window manager promises ----------------------------------------------------

proof fn lemma_topmost(ws: Seq<Window>, x: int, y: int, n: int)
    requires
        0 <= n <= ws.len(),
    ensures
        match topmost(ws, x, y, n) {
            Some(i) => {
                &&& 0 <= i < n
                &&& ws[i].used
                &&& ws[i].rect.has(x, y)
                &&& forall|j: int|
                    0 <= j < n && (#[trigger] ws[j]).used && ws[j].rect.has(x, y) ==> ws[j].z
                        <= ws[i].z
            },
            None => forall|j: int|
                0 <= j < n && (#[trigger] ws[j]).used ==> !ws[j].rect.has(x, y),
        },
    decreases n,
{
    if n > 0 {
        lemma_topmost(ws, x, y, n - 1);
    }
}

/// A tap goes to exactly one window: one that contains the point, with every other
/// window that contains it strictly below. It goes to none only where there is
/// none.
pub proof fn a_tap_goes_to_the_topmost_window(m: Wm, x: int, y: int)
    requires
        m.wf(),
    ensures
        match topmost(m.windows@, x, y, 8) {
            Some(i) => {
                &&& 0 <= i < 8
                &&& m.windows@[i].used
                &&& m.windows@[i].rect.has(x, y)
                &&& forall|j: int|
                    0 <= j < 8 && j != i && (#[trigger] m.windows@[j]).used
                        && m.windows@[j].rect.has(x, y) ==> m.windows@[j].z < m.windows@[i].z
            },
            None => forall|j: int|
                0 <= j < 8 && (#[trigger] m.windows@[j]).used ==> !m.windows@[j].rect.has(x, y),
        },
{
    lemma_topmost(m.windows@, x, y, 8);
}

/// A window that was just raised gets every tap inside it.
pub proof fn a_raised_window_gets_the_taps(m: Wm, i: int, x: int, y: int)
    requires
        m.wf(),
        0 <= i < 8,
        m.windows@[i].used,
        m.windows@[i].rect.has(x, y),
    ensures
        topmost(
            m.windows@.update(i, Window { z: m.next_z, ..m.windows@[i] }),
            x,
            y,
            8,
        ) == Some(i),
{
    let ws = m.windows@.update(i, Window { z: m.next_z, ..m.windows@[i] });
    lemma_topmost(ws, x, y, 8);
    let t = topmost(ws, x, y, 8);
    assert(ws[i].used && ws[i].rect.has(x, y));
    if t is Some && t->0 != i {
        assert(m.windows@[t->0].z < m.next_z);
    }
}

/// An application reaches its own window of an id, or nothing: the window that an
/// operation finds belongs to the sender.
pub proof fn an_operation_finds_the_senders_own_window(
    ws: Seq<Window>,
    owner: usize,
    id: u8,
)
    ensures
        owned_from(ws, owner, id, 0) matches Some(i) ==> 0 <= i < ws.len() && ws[i].used
            && ws[i].owner == owner && ws[i].id == id,
        owned_from(ws, owner, id, 0) is None ==> forall|i: int|
            0 <= i < ws.len() && (#[trigger] ws[i]).used && ws[i].owner == owner ==> ws[i].id != id,
{
    lemma_owned(ws, owner, id, 0);
}

/// The damage box is no larger than it has to be: a rectangle that holds every pixel
/// of both holds every pixel of the one joining them.
pub proof fn joining_is_smallest(a: Rect, b: Rect, c: Rect, x: int, y: int)
    requires
        a.wf(),
        b.wf(),
        a.w != 0 ==> a.h != 0,
        b.w != 0 ==> b.h != 0,
        forall|px: int, py: int| a.has(px, py) || b.has(px, py) ==> #[trigger] c.has(px, py),
        a.joined(b).has(x, y),
    ensures
        c.has(x, y),
{
    if a.w == 0 {
        assert(b.has(x, y));
        assert(c.has(x, y));
    } else if b.w == 0 {
        assert(a.has(x, y));
        assert(c.has(x, y));
    } else {
        assert(a.has(a.x as int, a.y as int));
        assert(c.has(a.x as int, a.y as int));
        assert(a.has(a.x + a.w - 1, a.y + a.h - 1));
        assert(c.has(a.x + a.w - 1, a.y + a.h - 1));
        assert(b.has(b.x as int, b.y as int));
        assert(c.has(b.x as int, b.y as int));
        assert(b.has(b.x + b.w - 1, b.y + b.h - 1));
        assert(c.has(b.x + b.w - 1, b.y + b.h - 1));
    }
}

/// The damage box covers everything that was reported: what either of two
/// rectangles contains, the one joining them contains.
pub proof fn joining_covers_both(a: Rect, b: Rect, x: int, y: int)
    requires
        a.wf(),
        b.wf(),
        a.has(x, y) || b.has(x, y),
    ensures
        a.joined(b).has(x, y),
{
}

/// Clamping keeps exactly the points that are on the screen.
pub proof fn clamping_keeps_the_screen(r: Rect, x: int, y: int)
    requires
        r.wf(),
        0 <= x < WIDTH,
        0 <= y < HEIGHT,
    ensures
        r.clamped().has(x, y) == r.has(x, y),
{
}

} // verus!
