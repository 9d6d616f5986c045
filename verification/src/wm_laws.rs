//! What the window manager promises its applications and the person in front of the screen.
use vstd::prelude::*;
use crate::wm::{Cmd, DrawView, Rect, Window, Wm};

verus! {

/// Whether `i` is the place of the open window that `owner` calls `id`.
pub open spec fn is_window(m: Wm, owner: usize, id: u8, i: int) -> bool {
    &&& 0 <= i < 8
    &&& m.windows@[i].used
    &&& m.windows@[i].owner == owner
    &&& m.windows@[i].id == id
}

/// Whether the owner has such a window.
pub open spec fn has_window(m: Wm, owner: usize, id: u8) -> bool {
    exists|i: int| is_window(m, owner, id, i)
}

/// Whether a point of the screen is in a rectangle.
pub open spec fn covers(r: Rect, x: int, y: int) -> bool {
    r.x <= x < r.x + r.w && r.y <= y < r.y + r.h
}

proof fn lemma_damage(m0: Wm, d: Rect, r: Rect, x: int, y: int)
    requires
        m0.wf(),
        r.on_screen(),
        d == m0.damage.joined(r.clamped()) || d == m0.damage.joined(r.clamped()).joined(
            r.clamped(),
        ),
    ensures
        covers(r, x, y) || covers(m0.damage, x, y) ==> covers(d, x, y),
{
    let one = m0.damage.joined(r.clamped());
    assert(r.clamped() == r);
}

/// What was asked of a window that the sender does not have leaves every window alone and is
/// counted.
pub open spec fn turned_away(m0: Wm, m1: Wm) -> bool {
    &&& m1.windows@ == m0.windows@
    &&& m1.damage == m0.damage
    &&& m0.rejected < usize::MAX ==> m1.rejected == m0.rejected + 1
}

/// What was asked of the window at `i` leaves every other alone, and all of it is painted anew.
pub open spec fn only_that_one(m0: Wm, m1: Wm, i: int) -> bool {
    &&& forall|j: int| 0 <= j < 8 && j != i ==> #[trigger] m1.windows@[j] == m0.windows@[j]
    &&& m1.windows@[i].used && m1.windows@[i].owner == m0.windows@[i].owner && m1.windows@[i].id
        == m0.windows@[i].id
    &&& m1.windows@[i].rect == m0.windows@[i].rect && m1.windows@[i].bg == m0.windows@[i].bg
    &&& m1.windows@[i].title == m0.windows@[i].title && m1.windows@[i].title_len
        == m0.windows@[i].title_len
    &&& m1.rejected == m0.rejected
    &&& forall|x: int, y: int|
        #![trigger covers(m1.damage, x, y)]
        covers(m0.windows@[i].rect, x, y) || covers(m0.damage, x, y) ==> covers(m1.damage, x, y)
}

/// Bringing a window to the front puts it above every other and changes nothing else; only the
/// owner's own window is ever touched.
pub proof fn raising_puts_a_window_above_all(m0: Wm, m1: Wm, owner: usize, id: u8, r: bool)
    requires
        m0.wf(),
        crate::wm::raised(m0, m1, owner, id, r),
    ensures
        r == has_window(m0, owner, id),
        !r ==> turned_away(m0, m1),
        r ==> exists|i: int| #[trigger]
            is_window(m0, owner, id, i) && only_that_one(m0, m1, i) && m1.windows@[i].cmds
                == m0.windows@[i].cmds && m1.windows@[i].ncmd == m0.windows@[i].ncmd && forall|
                j: int,
            |
                0 <= j < 8 && j != i && (#[trigger] m1.windows@[j]).used ==> m1.windows@[j].z
                    < m1.windows@[i].z,
{
    crate::wm::an_operation_finds_the_senders_own_window(m0.windows@, owner, id);
    match crate::wm::owned_from(m0.windows@, owner, id, 0) {
        Some(i) => {
            assert(is_window(m0, owner, id, i));
            assert forall|x: int, y: int|
                #![trigger covers(m1.damage, x, y)]
                covers(m0.windows@[i].rect, x, y) || covers(m0.damage, x, y) implies covers(
                m1.damage,
                x,
                y,
            ) by {
                lemma_damage(m0, m1.damage, m0.windows@[i].rect, x, y);
            }
        },
        None => {},
    }
}

/// What an application draws comes behind what it drew before, in its own window and no other;
/// a window that shows as much as it can stays as it is.
pub proof fn drawing_comes_behind_what_was_drawn(
    m0: Wm,
    m1: Wm,
    owner: usize,
    id: u8,
    cmd: Cmd,
    r: bool,
)
    requires
        m0.wf(),
        m1.wf(),
        crate::wm::shown(m0, m1, owner, id, cmd, r),
    ensures
        r == has_window(m0, owner, id),
        !r ==> turned_away(m0, m1),
        r ==> exists|i: int| #[trigger]
            is_window(m0, owner, id, i) && only_that_one(m0, m1, i) && m1.windows@[i].z
                == m0.windows@[i].z && ({
                let a = m0.windows@[i];
                let b = m1.windows@[i];
                &&& forall|k: int|
                    0 <= k < a.ncmd ==> #[trigger] b.cmds@[k] == a.cmds@[k]
                &&& a.ncmd < 24 ==> b.ncmd == a.ncmd + 1 && b.cmds@[a.ncmd as int] == cmd
                &&& a.ncmd == 24 ==> b.ncmd == 24
            }),
{
    crate::wm::an_operation_finds_the_senders_own_window(m0.windows@, owner, id);
    match crate::wm::owned_from(m0.windows@, owner, id, 0) {
        Some(i) => {
            assert(is_window(m0, owner, id, i));
            let a = m0.windows@[i];
            let b = m1.windows@[i];
            assert forall|x: int, y: int|
                #![trigger covers(m1.damage, x, y)]
                covers(a.rect, x, y) || covers(m0.damage, x, y) implies covers(
                m1.damage,
                x,
                y,
            ) by {
                lemma_damage(m0, m1.damage, a.rect, x, y);
            }
            assert(a.wf() && b.wf());
            assert(b.drawing().len() == b.ncmd);
            assert(a.drawing().len() == a.ncmd);
            assert forall|k: int| 0 <= k < a.ncmd implies #[trigger] b.cmds@[k] == a.cmds@[k] by {
                assert(b.drawing()[k] == b.cmds@[k]);
                assert(a.drawing()[k] == a.cmds@[k]);
            }
            if a.ncmd < 24 {
                assert(b.drawing()[a.ncmd as int] == cmd);
            }
        },
        None => {},
    }
}

/// Forgetting what a window shows leaves it empty, where and as high as it was.
pub proof fn clearing_leaves_a_window_empty(m0: Wm, m1: Wm, owner: usize, id: u8, r: bool)
    requires
        m0.wf(),
        crate::wm::cleared(m0, m1, owner, id, r),
    ensures
        r == has_window(m0, owner, id),
        !r ==> turned_away(m0, m1),
        r ==> exists|i: int| #[trigger]
            is_window(m0, owner, id, i) && only_that_one(m0, m1, i) && m1.windows@[i].z
                == m0.windows@[i].z && m1.windows@[i].ncmd == 0,
{
    crate::wm::an_operation_finds_the_senders_own_window(m0.windows@, owner, id);
    match crate::wm::owned_from(m0.windows@, owner, id, 0) {
        Some(i) => {
            assert(is_window(m0, owner, id, i));
            assert forall|x: int, y: int|
                #![trigger covers(m1.damage, x, y)]
                covers(m0.windows@[i].rect, x, y) || covers(m0.damage, x, y) implies covers(
                m1.damage,
                x,
                y,
            ) by {
                lemma_damage(m0, m1.damage, m0.windows@[i].rect, x, y);
            }
        },
        None => {},
    }
}

proof fn lemma_free(ws: Seq<Window>, i: int, k: int)
    requires
        0 <= i <= ws.len(),
    ensures
        match crate::wm::free_from(ws, i) {
            Some(f) => i <= f < ws.len() && !ws[f].used && (i <= k < f ==> ws[k].used),
            None => i <= k < ws.len() ==> ws[k].used,
        },
    decreases ws.len() - i,
{
    if i < ws.len() && ws[i].used {
        lemma_free(ws, i + 1, k);
    }
}

/// A window is opened unless its owner has one of that id already or there are eight. It is
/// above every other, empty, and covers what was asked for of the screen and no more; the start
/// of its title is kept. The windows that were there stay as they are.
pub proof fn a_window_opens_above_the_others(
    m0: Wm,
    m1: Wm,
    owner: usize,
    id: u8,
    rect: Rect,
    bg: u32,
    title: Seq<u8>,
    r: bool,
)
    requires
        m0.wf(),
        crate::wm::opened(m0, m1, owner, id, rect, bg, title, r),
    ensures
        r <==> !has_window(m0, owner, id) && exists|i: int|
            0 <= i < 8 && !(#[trigger] m0.windows@[i]).used,
        !r ==> m1 == m0,
        r ==> exists|i: int| #[trigger]
            is_window(m1, owner, id, i) && !m0.windows@[i].used && ({
                let w = m1.windows@[i];
                &&& forall|j: int|
                    0 <= j < 8 && j != i ==> #[trigger] m1.windows@[j] == m0.windows@[j]
                &&& forall|j: int|
                    0 <= j < 8 && j != i && (#[trigger] m1.windows@[j]).used ==> m1.windows@[j].z
                        < w.z
                &&& forall|x: int, y: int|
                    #![trigger covers(w.rect, x, y)]
                    covers(w.rect, x, y) <==> covers(rect, x, y) && 0 <= x < 480 && 0 <= y < 960
                &&& forall|x: int, y: int|
                    #![trigger covers(m1.damage, x, y)]
                    covers(w.rect, x, y) || covers(m0.damage, x, y) ==> covers(m1.damage, x, y)
                &&& w.bg == bg && w.ncmd == 0
                &&& w.title_text().is_prefix_of(title) && (w.title_text() == title
                    || w.title_text().len() == 24)
            }),
{
    crate::wm::an_operation_finds_the_senders_own_window(m0.windows@, owner, id);
    let f = crate::wm::free_from(m0.windows@, 0);
    lemma_free(m0.windows@, 0, 0);
    if f is None {
        assert forall|i: int| 0 <= i < 8 implies (#[trigger] m0.windows@[i]).used by {
            lemma_free(m0.windows@, 0, i);
        }
    }
    if crate::wm::owned_from(m0.windows@, owner, id, 0) is Some {
        assert(is_window(
            m0,
            owner,
            id,
            crate::wm::owned_from(m0.windows@, owner, id, 0)->0,
        ));
    }
    if r {
        let i = f->0;
        let w = m1.windows@[i];
        assert(is_window(m1, owner, id, i));
        assert(rect.clamped().on_screen());
        assert(rect.clamped().clamped() == rect.clamped());
        assert forall|x: int, y: int|
            #![trigger covers(m1.damage, x, y)]
            covers(w.rect, x, y) || covers(m0.damage, x, y) implies covers(m1.damage, x, y) by {
            lemma_damage(m0, m1.damage, w.rect, x, y);
        }
        let n = crate::wm::lesser(title.len() as int, 24);
        assert(title.take(title.len() as int) =~= title);
    }
}

/// A tap reaches the window it was meant for: an open window that the point is in, none that
/// the point is in being higher, and at the place in that window that the finger was at. It
/// reaches none only where no window is.
pub proof fn a_tap_lands_where_the_finger_was(m: Wm, x: usize, y: usize)
    requires
        m.wf(),
    ensures
        match crate::wm::aimed_at(m, x, y) {
            Some((owner, id, px, py)) => exists|i: int| #[trigger]
                is_window(m, owner, id, i) && covers(m.windows@[i].rect, x as int, y as int)
                    && m.windows@[i].rect.x + px == x && m.windows@[i].rect.y + py == y && forall|
                    j: int,
                |
                    0 <= j < 8 && (#[trigger] m.windows@[j]).used && covers(
                        m.windows@[j].rect,
                        x as int,
                        y as int,
                    ) ==> m.windows@[j].z <= m.windows@[i].z,
            None => forall|j: int|
                0 <= j < 8 && (#[trigger] m.windows@[j]).used ==> !covers(
                    m.windows@[j].rect,
                    x as int,
                    y as int,
                ),
        },
{
    crate::wm::a_tap_goes_to_the_topmost_window(m, x as int, y as int);
    match crate::wm::topmost(m.windows@, x as int, y as int, 8) {
        Some(i) => {
            let w = m.windows@[i];
            let (owner, id, px, py) = crate::wm::aimed_at(m, x, y)->0;
            assert(is_window(m, owner, id, i));
            assert(w.rect.x + px == x && w.rect.y + py == y);
            assert forall|j: int|
                0 <= j < 8 && (#[trigger] m.windows@[j]).used && covers(
                    m.windows@[j].rect,
                    x as int,
                    y as int,
                ) implies m.windows@[j].z <= w.z by {
                assert(m.windows@[j].rect.has(x as int, y as int));
            }
        },
        None => {
            assert forall|j: int| 0 <= j < 8 && (#[trigger] m.windows@[j]).used implies !covers(
                m.windows@[j].rect,
                x as int,
                y as int,
            ) by {
                assert(!m.windows@[j].rect.has(x as int, y as int));
            }
        },
    }
}

// ---- painting -------------------------------------------------------------------------------

proof fn lemma_channels(r: int, g: int, b: int)
    requires
        0 <= r <= 255,
        0 <= g <= 255,
        0 <= b <= 255,
    ensures
        ({
            let s = 0xff00_0000 + r * 0x1_0000 + g * 0x100 + b;
            s / 0x100_0000 == 255 && s / 65536 % 256 == r && s / 256 % 256 == g && s % 256 == b
        }),
{
}

/// The colour channels of a title bar lie a third of the way from the background's to white,
/// each by itself, and the bar is opaque.
pub proof fn a_title_bar_is_a_third_lighter(c: u32)
    ensures
        ({
            let s = crate::wm::shaded(c);
            let blue = c as int % 256;
            let green = c as int / 256 % 256;
            let red = c as int / 65536 % 256;
            &&& s / 0x100_0000 == 255
            &&& s / 65536 % 256 == red + (255 - red) / 3
            &&& s / 256 % 256 == green + (255 - green) / 3
            &&& s % 256 == blue + (255 - blue) / 3
        }),
{
    lemma_channels(
        crate::wm::lighter(c as int / 0x1_0000 % 256),
        crate::wm::lighter(c as int / 0x100 % 256),
        crate::wm::lighter(c as int % 256),
    );
}

/// Where what an application drew stands on the screen: as far from its window's corner as it
/// said, below the title bar.
pub proof fn drawing_stands_in_its_window(w: Window, c: Cmd)
    requires
        w.wf(),
        crate::wm::cmd_ok(c),
    ensures
        match (c, crate::wm::cmd_draw(w, c)) {
            (Cmd::Blank, d) => d is None,
            (Cmd::Fill { x, y, w: cw, h, color }, Some(d)) => match d {
                DrawView::Fill { x: dx, y: dy, w: dw, h: dh, color: dc } => dx - w.rect.x == x
                    && dy - w.rect.y == y + 22 && dw == cw && dh == h && dc == color,
                DrawView::Text { .. } => false,
            },
            (Cmd::Text { x, y, scale, color, len, bytes }, Some(d)) => match d {
                DrawView::Text { x: dx, y: dy, scale: ds, color: dc, bytes: db } => dx - w.rect.x
                    == x && dy - w.rect.y == y + 22 && ds == scale && dc == color && db.len()
                    == len && forall|i: int| 0 <= i < len ==> #[trigger] db[i] == bytes@[i],
                DrawView::Fill { .. } => false,
            },
            _ => false,
        },
{
}

/// What an application drew is painted in the order it was drawn, each command once.
pub proof fn commands_are_painted_in_order(w: Window, n: int)
    requires
        0 <= n,
    ensures
        crate::wm::content(w, 0).len() == 0,
        crate::wm::content(w, n + 1) == crate::wm::content(w, n) + (match crate::wm::cmd_draw(
            w,
            w.cmds@[n],
        ) {
            Some(d) => seq![d],
            None => Seq::empty(),
        }),
{
    let so_far = crate::wm::content(w, n);
    match crate::wm::cmd_draw(w, w.cmds@[n]) {
        Some(d) => {
            assert(so_far.push(d) =~= so_far + seq![d]);
        },
        None => {
            assert(so_far =~= so_far + Seq::<DrawView>::empty());
        },
    }
}

/// A window is painted from the back: all of it in its own colour, the bar over its top in the
/// lighter one, the title over the bar, and over that what the application drew.
pub proof fn a_window_is_painted_from_the_back(w: Window)
    requires
        w.wf(),
    ensures
        ({
            let p = crate::wm::picture(w);
            &&& p.len() == 3 + crate::wm::content(w, w.ncmd as int).len()
            &&& p[0] == (DrawView::Fill {
                x: w.rect.x,
                y: w.rect.y,
                w: w.rect.w,
                h: w.rect.h,
                color: w.bg,
            })
            &&& p[1] matches DrawView::Fill { x, y, w: bw, h, color } && x == w.rect.x && y
                == w.rect.y && bw == w.rect.w && h == 22 && color == crate::wm::shaded(w.bg)
            &&& p[2] matches DrawView::Text { x, y, scale, color, bytes } && x == w.rect.x + 6
                && y == w.rect.y + 7 && scale == 1 && color == 0xffe6_edf3 && bytes
                == w.title_text()
            &&& p.skip(3) == crate::wm::content(w, w.ncmd as int)
        }),
{
    a_title_bar_is_a_third_lighter(w.bg);
    assert(crate::wm::picture(w).skip(3) =~= crate::wm::content(w, w.ncmd as int));
}

/// Windows are painted whole, one after the other.
pub proof fn windows_are_painted_one_after_the_other(
    ws: Seq<Window>,
    order: Seq<usize>,
    n: int,
)
    requires
        0 <= n < order.len(),
    ensures
        crate::wm::pictures(ws, order, 0).len() == 0,
        crate::wm::pictures(ws, order, n + 1) == crate::wm::pictures(ws, order, n)
            + crate::wm::picture(ws[order[n] as int]),
{
}

/// The order of painting is the order of the stack: every open window is painted, once, and any
/// window above it later.
pub proof fn what_is_above_is_painted_later(m: Wm, order: Seq<usize>, i: int, j: int)
    requires
        m.wf(),
        crate::wm::lists_open(m.windows@, order),
        crate::wm::bottom_to_top(m.windows@, order),
        0 <= i < 8,
        0 <= j < 8,
        m.windows@[i].used,
        m.windows@[j].used,
        m.windows@[i].z < m.windows@[j].z,
    ensures
        exists|a: int, b: int|
            0 <= a < b < order.len() && #[trigger] order[a] == i && #[trigger] order[b] == j,
{
    assert(order.contains(i as usize));
    assert(order.contains(j as usize));
    let a = choose|a: int| 0 <= a < order.len() && order[a] == i as usize;
    let b = choose|b: int| 0 <= b < order.len() && order[b] == j as usize;
    if b < a {
        assert(m.windows@[order[b] as int].z <= m.windows@[order[a] as int].z);
    }
    assert(order[a] == i && order[b] == j);
}

} // verus!
