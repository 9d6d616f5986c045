//! What address spaces promise as a whole.
use vstd::prelude::*;
use crate::mm::frames::Frames;
use crate::mm::paging::{AddressSpace, Path, Perm};
use crate::mm::ram::Ram;

verus! {

proof fn lemma_paths_are_pages(a: u64, b: u64)
    by (bit_vector)
    requires
        a < 0x1_0000_0000_0000,
        b < 0x1_0000_0000_0000,
    ensures
        (((a >> 39) & 0x1ff) == ((b >> 39) & 0x1ff) && ((a >> 30) & 0x1ff) == ((b >> 30) & 0x1ff)
            && ((a >> 21) & 0x1ff) == ((b >> 21) & 0x1ff) && ((a >> 12) & 0x1ff) == ((b >> 12)
            & 0x1ff)) == (a / 4096 == b / 4096),
{
}

proof fn lemma_offset(a: u64, v: u64)
    by (bit_vector)
    requires
        a % 4096 == 0,
        a < 0x1_0000_0000_0000,
    ensures
        a | (v & 4095) == a + v % 4096,
        (a | 0x20_0000_0000_0fc7u64) == a + 0x20_0000_0000_0fc7u64,
        (a | 0x60_0000_0000_0fc7u64) == a + 0x60_0000_0000_0fc7u64,
        (a | 0x60_0000_0000_0f47u64) == a + 0x60_0000_0000_0f47u64,
        (a | 0x60_0000_0000_0c43u64) == a + 0x60_0000_0000_0c43u64,
        0x1u64 | 0x2u64 | 0x4u64 | 0x300u64 | 0x400u64 | 0x800u64 | 0x40u64
            | 0x20_0000_0000_0000u64 == 0x20_0000_0000_0f47u64,
        0x20_0000_0000_0f47u64 | 0x80u64 == 0x20_0000_0000_0fc7u64,
        0x20_0000_0000_0fc7u64 | 0x40_0000_0000_0000u64 == 0x60_0000_0000_0fc7u64,
        0x20_0000_0000_0f47u64 | 0x40_0000_0000_0000u64 == 0x60_0000_0000_0f47u64,
        0x20_0000_0000_0f47u64 & !0x4u64 & !0x300u64 == 0x20_0000_0000_0c43u64,
        0x20_0000_0000_0c43u64 | 0x40_0000_0000_0000u64 == 0x60_0000_0000_0c43u64,
{
}

/// Two user addresses take the same path exactly when they lie in the same page.
pub proof fn a_path_is_a_page(a: u64, b: u64)
    requires
        a < crate::mm::paging::USER_LIMIT,
        b < crate::mm::paging::USER_LIMIT,
    ensures
        (crate::mm::paging::path_of(a) == crate::mm::paging::path_of(b)) == (a / 4096 == b / 4096),
{
    lemma_paths_are_pages(a, b);
}

proof fn lemma_mapped(
    ram: Ram,
    root: int,
    va: u64,
    pa: u64,
    perm: Perm,
    n: int,
    w: u64,
)
    requires
        0 <= n,
        va % 4096 == 0,
        pa % 4096 == 0,
        va + n * 4096 <= crate::mm::paging::USER_LIMIT,
        w < crate::mm::paging::USER_LIMIT,
    ensures
        crate::mm::paging::mapped_leaf(
            ram,
            root,
            va,
            pa,
            perm,
            n,
            crate::mm::paging::path_of(w),
        ) == (if va <= w < va + n * 4096 {
            Some(
                crate::mm::paging::page_descriptor(
                    (pa + (w - va) / 4096 * 4096) as u64,
                    perm,
                ),
            )
        } else {
            crate::mm::paging::leaf(ram, root, crate::mm::paging::path_of(w))
        }),
    decreases n,
{
    if n > 0 {
        let page = (va + (n - 1) * 4096) as u64;
        a_path_is_a_page(w, page);
        lemma_mapped(ram, root, va, pa, perm, n - 1, w);
        if w / 4096 == page / 4096 {
            assert(va + (n - 1) * 4096 <= w < va + n * 4096);
            assert((w - va) / 4096 == n - 1);
        }
    }
}

/// Mapping does what it says, and nothing else: an address in the range leads to
/// its byte of the target, and every other user address leads where it led.
pub proof fn mapping_maps_exactly_its_range(
    r0: Ram,
    r1: Ram,
    root: int,
    va: u64,
    pa: u64,
    perm: Perm,
    n: int,
    w: u64,
)
    requires
        0 <= n,
        va % 4096 == 0,
        pa % 4096 == 0,
        va + n * 4096 <= crate::mm::paging::USER_LIMIT,
        pa + n * 4096 <= crate::mm::paging::USER_LIMIT,
        crate::mm::paging::mapped_upto(r0, r1, root, va, pa, perm, n),
    ensures
        crate::mm::paging::translation(r1, root, w) == (if va <= w < va + n * 4096 {
            Some((pa + (w - va)) as u64)
        } else {
            crate::mm::paging::translation(r0, root, w)
        }),
{
    if w < crate::mm::paging::USER_LIMIT {
        let p = crate::mm::paging::path_of(w);
        crate::mm::paging::paths_are_in_range(w);
        lemma_mapped(r0, root, va, pa, perm, n, w);
        assert(crate::mm::paging::leaf(r1, root, p) == crate::mm::paging::mapped_leaf(
            r0,
            root,
            va,
            pa,
            perm,
            n,
            p,
        ));
        if va <= w < va + n * 4096 {
            let frame = (pa + (w - va) / 4096 * 4096) as u64;
            assert(frame % 4096 == 0 && frame < crate::mm::paging::USER_LIMIT);
            crate::mm::paging::a_descriptor_holds_its_frame(frame, perm);
            lemma_offset(frame, w);
            assert(w % 4096 == (w - va) % 4096);
        }
    }
}

/// Where a page of anonymous memory leads, and that no other page leads
/// anywhere new.
pub proof fn backed_pages_lead_to_their_frames(ram: Ram, root: int, va: u64, fs: Seq<u64>, perm: Perm, w: u64)
    requires
        va % 4096 == 0,
        va + fs.len() * 4096 <= crate::mm::paging::USER_LIMIT,
        w < crate::mm::paging::USER_LIMIT,
    ensures
        crate::mm::paging::backed_leaf(ram, root, va, fs, perm, crate::mm::paging::path_of(w)) == (
        if va <= w < va + fs.len() * 4096 {
            Some(crate::mm::paging::page_descriptor(fs[(w - va) / 4096], perm))
        } else {
            crate::mm::paging::leaf(ram, root, crate::mm::paging::path_of(w))
        }),
    decreases fs.len(),
{
    if fs.len() > 0 {
        let page = (va + (fs.len() - 1) * 4096) as u64;
        a_path_is_a_page(w, page);
        backed_pages_lead_to_their_frames(ram, root, va, fs.drop_last(), perm, w);
        if w / 4096 == page / 4096 {
            assert((w - va) / 4096 == fs.len() - 1);
        } else if va <= w < va + fs.len() * 4096 {
            assert((w - va) / 4096 < fs.len() - 1);
            assert(fs.drop_last()[(w - va) / 4096] == fs[(w - va) / 4096]);
        }
    }
}

/// Anonymous memory is fresh: every page of the range leads to a frame of its
/// own that nothing used before, and reads as zeros; every other user address
/// leads where it led.
pub proof fn anonymous_memory_is_fresh_and_zero(
    s0: AddressSpace,
    r0: Ram,
    f0: Frames,
    s1: AddressSpace,
    r1: Ram,
    f1: Frames,
    va: u64,
    perm: Perm,
    fs: Seq<u64>,
    w: u64,
)
    requires
        crate::mm::paging::anonymous(s0, r0, f0, s1, r1, f1, va, perm, fs),
        crate::mm::paging::frames_in(f1, r1),
        s1.root == s0.root,
        va % 4096 == 0,
        va + fs.len() * 4096 <= crate::mm::paging::USER_LIMIT,
    ensures
        crate::mm::paging::translation(r1, s1.root as int, w) == (if va <= w < va + fs.len()
            * 4096 {
            Some((fs[(w - va) / 4096] + w % 4096) as u64)
        } else {
            crate::mm::paging::translation(r0, s0.root as int, w)
        }),
        va <= w < va + fs.len() * 4096 ==> r1.byte(fs[(w - va) / 4096] + w % 4096) == 0
            && !f0.in_use(fs[(w - va) / 4096]),
{
    if w < crate::mm::paging::USER_LIMIT {
        let p = crate::mm::paging::path_of(w);
        crate::mm::paging::paths_are_in_range(w);
        backed_pages_lead_to_their_frames(r0, s0.root as int, va, fs, perm, w);
        assert(crate::mm::paging::leaf(r1, s1.root as int, p) == crate::mm::paging::backed_leaf(
            r0,
            s0.root as int,
            va,
            fs,
            perm,
            p,
        ));
        if va <= w < va + fs.len() * 4096 {
            let i = (w - va) / 4096;
            assert(0 <= i < fs.len());
            let frame = fs[i];
            assert(f1.in_use(fs[i]));
            crate::mm::paging::a_descriptor_holds_its_frame(frame, perm);
            lemma_offset(frame, w);
            let q = frame + w % 4096;
            assert(r1.byte(q) == 0);
        }
    }
}

/// Mapping anonymous memory runs out only when fewer than four frames a page
/// were at hand: one for the page, and at most three for tables.
pub proof fn four_frames_a_page_are_enough(
    s0: AddressSpace,
    r0: Ram,
    f0: Frames,
    s1: AddressSpace,
    r1: Ram,
    f1: Frames,
    pages: int,
    mapped: int,
)
    requires
        crate::mm::paging::grew(s0, r0, f0, s1, r1, f1),
        0 <= mapped < pages,
        s1.owned@.len() <= s0.owned@.len() + 4 * mapped + 3,
        f1.available() == 0,
    ensures
        f0.available() < 4 * pages,
{
}

/// Within a page, addresses lead to consecutive bytes.
pub proof fn a_page_is_contiguous(ram: Ram, root: int, va: u64, j: int)
    requires
        va < crate::mm::paging::USER_LIMIT,
        0 <= j,
        va % 4096 + j < 4096,
    ensures
        va + j < crate::mm::paging::USER_LIMIT,
        crate::mm::paging::translation(ram, root, (va + j) as u64) == (
        match crate::mm::paging::translation(ram, root, va) {
            Some(pa) => Some((pa + j) as u64),
            None => None,
        }),
        crate::mm::paging::translation(ram, root, va) matches Some(pa) ==> {
            &&& pa % 4096 == va % 4096
            &&& pa < crate::mm::paging::USER_LIMIT
            &&& pa - pa % 4096 == crate::mm::paging::leaf(
                ram,
                root,
                crate::mm::paging::path_of(va),
            )->0 & crate::mm::paging::ADDR_MASK
        },
{
    let w = (va + j) as u64;
    a_path_is_a_page(va, w);
    match crate::mm::paging::leaf(ram, root, crate::mm::paging::path_of(va)) {
        Some(e) => {
            crate::mm::paging::frame_fields_are_page_addresses(e);
            lemma_offset(e & crate::mm::paging::ADDR_MASK, va);
            lemma_offset(e & crate::mm::paging::ADDR_MASK, w);
            assert(w % 4096 == va % 4096 + j);
        },
        None => {},
    }
}

/// Writing inside a page that is no table changes no walk: a process that writes
/// its own memory cannot change what it can reach.
pub proof fn writing_user_memory_keeps_the_space(
    a: Ram,
    b: Ram,
    root: int,
    tables: Seq<u64>,
    page: u64,
)
    requires
        crate::mm::paging::tree(a, root, tables),
        page % 4096 == 0,
        !tables.contains(page),
        a.same_outside(b, page as int, 4096),
    ensures
        crate::mm::paging::tree(b, root, tables),
        forall|p: Path|
            crate::mm::paging::path_ok(p) ==> #[trigger] crate::mm::paging::leaf(b, root, p)
                == crate::mm::paging::leaf(a, root, p),
        forall|va: u64| #[trigger]
            crate::mm::paging::translation(b, root, va) == crate::mm::paging::translation(
                a,
                root,
                va,
            ),
{
    crate::mm::paging::page_writes_keep_walks(a, b, root, tables, page);
    assert forall|va: u64| #[trigger] crate::mm::paging::translation(b, root, va)
        == crate::mm::paging::translation(a, root, va) by {
        crate::mm::paging::paths_are_in_range(va);
        let p = crate::mm::paging::path_of(va);
        assert(crate::mm::paging::leaf(b, root, p) == crate::mm::paging::leaf(a, root, p));
    }
}

/// Every walk after backing a range leads where it led, or to one of the frames.
pub proof fn backed_walks_lead_to_old_or_new(
    ram: Ram,
    root: int,
    va: u64,
    fs: Seq<u64>,
    perm: Perm,
    p: Path,
)
    ensures
        ({
            let e = crate::mm::paging::backed_leaf(ram, root, va, fs, perm, p);
            e == crate::mm::paging::leaf(ram, root, p) || exists|i: int|
                0 <= i < fs.len() && e == Some(
                    crate::mm::paging::page_descriptor(#[trigger] fs[i], perm),
                )
        }),
    decreases fs.len(),
{
    if fs.len() > 0 {
        let e = crate::mm::paging::backed_leaf(ram, root, va, fs, perm, p);
        if p == crate::mm::paging::path_of((va + (fs.len() - 1) * 4096) as u64) {
            assert(e == Some(crate::mm::paging::page_descriptor(fs[fs.len() - 1], perm)));
        } else {
            backed_walks_lead_to_old_or_new(ram, root, va, fs.drop_last(), perm, p);
            if e != crate::mm::paging::leaf(ram, root, p) {
                let i = choose|i: int|
                    0 <= i < fs.drop_last().len() && e == Some(
                        crate::mm::paging::page_descriptor(#[trigger] fs.drop_last()[i], perm),
                    );
                assert(fs[i] == fs.drop_last()[i]);
            }
        }
    }
}

/// Address spaces are isolated: whatever one space gains — tables, pages, new
/// contents for its own frames — leaves every walk of another as it was, and
/// every byte of a frame that the other uses and the first does not own.
pub proof fn one_space_cannot_touch_another(
    a0: AddressSpace,
    r0: Ram,
    f0: Frames,
    a1: AddressSpace,
    r1: Ram,
    f1: Frames,
    b: AddressSpace,
)
    requires
        a0.wf(r0, f0),
        b.wf(r0, f0),
        crate::mm::paging::grew(a0, r0, f0, a1, r1, f1),
        crate::mm::paging::kept(a0, r0, a1, r1),
        forall|k: int|
            0 <= k < b.owned@.len() ==> !a0.owned@.contains(#[trigger] b.owned@[k]),
    ensures
        b.wf(r1, f1),
        forall|p: Path|
            crate::mm::paging::path_ok(p) ==> #[trigger] b.leaf(r1, p) == b.leaf(r0, p),
        forall|x: u64, q: int|
            #![trigger f0.in_use(x), r1.byte(q)]
            f0.in_use(x) && !a0.owned@.contains(x) && x <= q < x + 4096 ==> r1.byte(q) == r0.byte(
                q,
            ),
        forall|k: int|
            0 <= k < b.owned@.len() ==> !a1.owned@.contains(#[trigger] b.owned@[k]),
{
    assert forall|x: u64, q: int|
        #![trigger f0.in_use(x), r1.byte(q)]
        f0.in_use(x) && !a0.owned@.contains(x) && x <= q < x + 4096 implies r1.byte(q) == r0.byte(
        q,
    ) by {
        if a0.tables@.contains(x) {
            let k = choose|k: int| 0 <= k < a0.tables@.len() && a0.tables@[k] == x;
            assert(a0.owned@.contains(a0.tables@[k]));
        }
        crate::mm::paging::frames_in_use_are_kept(a0, r0, f0, a1, r1, f1, x);
    }
    crate::mm::paging::tables_kept_keep_walks(r0, r1, b, f0);
    assert forall|k: int| 0 <= k < b.owned@.len() implies f1.in_use(#[trigger] b.owned@[k]) by {
        assert(f0.in_use(b.owned@[k]));
    }
    assert forall|k: int| 0 <= k < b.owned@.len() implies !a1.owned@.contains(
        #[trigger] b.owned@[k],
    ) by {
        let x = b.owned@[k];
        if a1.owned@.contains(x) {
            let j = choose|j: int| 0 <= j < a1.owned@.len() && a1.owned@[j] == x;
            if j < a0.owned@.len() {
                assert(a1.owned@.take(a0.owned@.len() as int)[j] == a0.owned@[j]);
                assert(a0.owned@.contains(x));
            } else {
                assert(!f0.in_use(a1.owned@[j]));
                assert(f0.in_use(b.owned@[k]));
            }
        }
    }
}

// ---- what the hardware reads ----------------------------------------------------------------

proof fn lemma_fields(va: u64, e: u64, asid: u64, root: u64)
    by (bit_vector)
    requires
        va < 0x1_0000_0000_0000,
        asid < 0x1_0000,
        root < 0x1_0000_0000_0000,
    ensures
        (va >> 39) & 0x1ff == va / 0x80_0000_0000,
        (va >> 30) & 0x1ff == va / 0x4000_0000 % 512,
        (va >> 21) & 0x1ff == va / 0x20_0000 % 512,
        (va >> 12) & 0x1ff == va / 4096 % 512,
        (e & 1 == 0) == (e % 2 == 0),
        e & 0x0000_FFFF_FFFF_F000 == e / 4096 % 0x10_0000_0000 * 4096,
        ((asid << 48) | root) / 0x1_0000_0000_0000 == asid,
        ((asid << 48) | root) % 0x1_0000_0000_0000 == root,
{
}

/// The frame a descriptor names: bits 12 to 47.
pub open spec fn frame_in(e: u64) -> int {
    (e as int / 4096) % 0x10_0000_0000 * 4096
}

/// Entry `i` of the table at `t`.
pub open spec fn entry(ram: Ram, t: int, i: int) -> u64 {
    ram.word(t + 8 * i)
}

/// An address is looked up level by level: nine bits of it choose an entry of each of four
/// tables, from the top down; each entry must be valid and names the next table, the last one
/// the page; the low twelve bits are the place in the page. Addresses of the other half are
/// never found.
pub proof fn an_address_is_looked_up_level_by_level(ram: Ram, root: int, va: u64)
    ensures
        ({
            let a = va as int;
            let e0 = entry(ram, root, a / 0x80_0000_0000);
            let e1 = entry(ram, frame_in(e0), a / 0x4000_0000 % 512);
            let e2 = entry(ram, frame_in(e1), a / 0x20_0000 % 512);
            let e3 = entry(ram, frame_in(e2), a / 4096 % 512);
            crate::mm::paging::translation(ram, root, va) == (if a < 0x1_0000_0000_0000 && e0 % 2
                == 1 && e1 % 2 == 1 && e2 % 2 == 1 && e3 % 2 == 1 {
                Some((frame_in(e3) + a % 4096) as u64)
            } else {
                None
            })
        }),
{
    if va < 0x1_0000_0000_0000 {
        let a = va as int;
        let p = crate::mm::paging::path_of(va);
        let e0 = entry(ram, root, a / 0x80_0000_0000);
        let e1 = entry(ram, frame_in(e0), a / 0x4000_0000 % 512);
        let e2 = entry(ram, frame_in(e1), a / 0x20_0000 % 512);
        let e3 = entry(ram, frame_in(e2), a / 4096 % 512);
        lemma_fields(va, e0, 0, 0);
        lemma_fields(va, e1, 0, 0);
        lemma_fields(va, e2, 0, 0);
        lemma_fields(va, e3, 0, 0);
        crate::mm::paging::frame_fields_are_page_addresses(e3);
        lemma_offset(e3 & crate::mm::paging::ADDR_MASK, va);
        assert(crate::mm::paging::table_at(ram, root, 0, p) == Some(root));
        assert(crate::mm::paging::table_at(ram, root, 1, p) == crate::mm::paging::link(
            ram,
            root,
            p.i0,
        ));
        if e0 % 2 == 1 {
            assert(crate::mm::paging::table_at(ram, root, 2, p) == crate::mm::paging::link(
                ram,
                frame_in(e0),
                p.i1,
            ));
            if e1 % 2 == 1 {
                assert(crate::mm::paging::table_at(ram, root, 3, p) == crate::mm::paging::link(
                    ram,
                    frame_in(e1),
                    p.i2,
                ));
            } else {
                assert(crate::mm::paging::table_at(ram, root, 3, p) is None);
            }
        } else {
            assert(crate::mm::paging::table_at(ram, root, 2, p) is None);
            assert(crate::mm::paging::table_at(ram, root, 3, p) is None);
        }
    }
}

/// The field of a descriptor that starts at the bit worth `unit` and has `size` values.
pub open spec fn field(e: u64, unit: int, size: int) -> int {
    e as int / unit % size
}

#[verifier::rlimit(40)]
proof fn lemma_low_parts(q: int, low: int)
    requires
        0 <= q,
        0 <= low < 4096,
    ensures
        ({
            let e = 4096 * q + low;
            &&& e % 4 == low % 4
            &&& e / 4 % 8 == low / 4 % 8
            &&& e / 0x20 % 2 == low / 0x20 % 2
            &&& e / 0x40 % 4 == low / 0x40 % 4
            &&& e / 0x100 % 4 == low / 0x100 % 4
            &&& e / 0x400 % 2 == low / 0x400 % 2
            &&& e / 0x800 % 2 == low / 0x800 % 2
            &&& e / 4096 == q
        }),
{
    let e = 4096 * q + low;
    assert(e / 4 == 1024 * q + low / 4);
    assert(e / 0x20 == 128 * q + low / 0x20);
    assert(e / 0x40 == 64 * q + low / 0x40);
    assert(e / 0x100 == 16 * q + low / 0x100);
    assert(e / 0x400 == 4 * q + low / 0x400);
    assert(e / 0x800 == 2 * q + low / 0x800);
}

proof fn lemma_high_parts(pa: int, low: int, top: int)
    requires
        0 <= pa < 0x1_0000_0000_0000,
        0 <= low < 4096,
        pa % 4096 == 0,
        0 <= top < 4,
    ensures
        ({
            let e = pa + low + top * 0x20_0000_0000_0000;
            &&& e / 4096 % 0x10_0000_0000 * 4096 == pa
            &&& e / 0x1_0000_0000_0000 % 32 == 0
            &&& e / 0x20_0000_0000_0000 % 2 == top % 2
            &&& e / 0x40_0000_0000_0000 % 2 == top / 2
            &&& e / 0x80_0000_0000_0000 % 512 == 0
        }),
{
    let e = pa + low + top * 0x20_0000_0000_0000;
    assert(e / 4096 == pa / 4096 + top * 0x200_0000_0000);
    assert(e / 0x1_0000_0000_0000 == top * 32);
    assert(e / 0x20_0000_0000_0000 == top);
    assert(e / 0x40_0000_0000_0000 == top / 2);
}

proof fn lemma_parts_of(pa: int, low: int, top: int)
    requires
        0 <= pa < 0x1_0000_0000_0000,
        pa % 4096 == 0,
        0 <= low < 4096,
        0 <= top < 4,
    ensures
        ({
            let e = pa + low + top * 0x20_0000_0000_0000;
            &&& e / 4096 % 0x10_0000_0000 * 4096 == pa
            &&& e % 4 == low % 4
            &&& e / 4 % 8 == low / 4 % 8
            &&& e / 0x20 % 2 == low / 0x20 % 2
            &&& e / 0x40 % 4 == low / 0x40 % 4
            &&& e / 0x100 % 4 == low / 0x100 % 4
            &&& e / 0x400 % 2 == low / 0x400 % 2
            &&& e / 0x800 % 2 == low / 0x800 % 2
            &&& e / 0x1_0000_0000_0000 % 32 == 0
            &&& e / 0x20_0000_0000_0000 % 2 == top % 2
            &&& e / 0x40_0000_0000_0000 % 2 == top / 2
            &&& e / 0x80_0000_0000_0000 % 512 == 0
        }),
{
    let q = pa / 4096 + top * 0x200_0000_0000;
    assert(pa + low + top * 0x20_0000_0000_0000 == 4096 * q + low);
    lemma_low_parts(q, low);
    lemma_high_parts(pa, low, top);
}

/// What the hardware lets a process do with a page is what its permission says: it can write
/// data and device registers and nothing else, execute text and nothing else; the kernel can
/// execute none of it. Every page is valid, usable at once, and seen only under its own address
/// space; device registers are neither cached nor shared.
pub proof fn a_permission_allows_what_it_says(pa: u64, perm: Perm)
    requires
        pa % 4096 == 0,
        pa < 0x1_0000_0000_0000,
    ensures
        ({
            let e = crate::mm::paging::page_descriptor(pa, perm);
            let writable = perm == Perm::UserData || perm == Perm::UserDevice;
            &&& frame_in(e) == pa
            &&& field(e, 1, 4) == 3
            &&& field(e, 4, 8) == if perm == Perm::UserDevice {
                0int
            } else {
                1
            }
            &&& field(e, 0x20, 2) == 0
            &&& field(e, 0x40, 4) == if writable {
                1int
            } else {
                3
            }
            &&& field(e, 0x100, 4) == if perm == Perm::UserDevice {
                0int
            } else {
                3
            }
            &&& field(e, 0x400, 2) == 1
            &&& field(e, 0x800, 2) == 1
            &&& field(e, 0x1_0000_0000_0000, 32) == 0
            &&& field(e, 0x20_0000_0000_0000, 2) == 1
            &&& field(e, 0x40_0000_0000_0000, 2) == if perm == Perm::UserText {
                0int
            } else {
                1
            }
            &&& field(e, 0x80_0000_0000_0000, 512) == 0
        }),
{
    lemma_offset(pa, 0);
    let e = crate::mm::paging::page_descriptor(pa, perm);
    match perm {
        Perm::UserText => {
            assert(e == pa + 0x20_0000_0000_0fc7);
            lemma_parts_of(pa as int, 0xfc7, 1);
        },
        Perm::UserReadOnly => {
            assert(e == pa + 0x60_0000_0000_0fc7);
            lemma_parts_of(pa as int, 0xfc7, 3);
        },
        Perm::UserData => {
            assert(e == pa + 0x60_0000_0000_0f47);
            lemma_parts_of(pa as int, 0xf47, 3);
        },
        Perm::UserDevice => {
            assert(e == pa + 0x60_0000_0000_0c43);
            lemma_parts_of(pa as int, 0xc43, 3);
        },
    }
}

/// The register that selects a space holds its identifier above its root table, so that two
/// spaces are never confused.
pub proof fn a_selector_names_its_space(asid: u64, root: u64)
    requires
        asid < 0x1_0000,
        root < 0x1_0000_0000_0000,
    ensures
        crate::mm::paging::selector(asid, root) == asid * 0x1_0000_0000_0000 + root,
{
    lemma_fields(0, 0, asid, root);
}

/// Identifiers are given out one after the other, from 1 to the last that fits the register
/// and over again; 0 is never given.
pub proof fn identifiers_go_round(counter: u64)
    requires
        counter <= u64::MAX - 2,
    ensures
        ({
            let id = crate::mm::paging::asid_from(counter);
            let next = crate::mm::paging::asid_from(crate::mm::paging::asid_after(counter));
            &&& 1 <= id <= 0xffff
            &&& next == if id == 0xffff {
                1
            } else {
                id + 1
            }
            &&& crate::mm::paging::asid_after(counter) > counter
        }),
{
}

/// Unmapping takes exactly its pages out of the space: no address in them leads anywhere, and
/// every other leads where it did.
pub proof fn unmapping_takes_exactly_its_range(
    r0: Ram,
    r1: Ram,
    root: int,
    va: u64,
    n: int,
    w: u64,
)
    requires
        0 <= n,
        va % 4096 == 0,
        va + n * 4096 <= crate::mm::paging::USER_LIMIT,
        crate::mm::paging::unmapped_upto(r0, r1, root, va, n),
    ensures
        crate::mm::paging::translation(r1, root, w) == (if va <= w < va + n * 4096 {
            None
        } else {
            crate::mm::paging::translation(r0, root, w)
        }),
{
    if w < crate::mm::paging::USER_LIMIT {
        let p = crate::mm::paging::path_of(w);
        crate::mm::paging::paths_are_in_range(w);
        if va <= w < va + n * 4096 {
            let i = (w - va) / 4096;
            let page = (va + i * 4096) as u64;
            assert(0 <= i < n && w / 4096 == page / 4096) by (nonlinear_arith)
                requires
                    i == (w - va) / 4096,
                    page == va + i * 4096,
                    va % 4096 == 0,
                    va <= w < va + n * 4096,
            ;
            a_path_is_a_page(w, page);
            assert(p == crate::mm::paging::path_of((va + i * 4096) as u64));
            assert(crate::mm::paging::on_pages(va, n, p));
        } else if crate::mm::paging::on_pages(va, n, p) {
            let i = choose|i: int|
                0 <= i < n && p == #[trigger] crate::mm::paging::path_of((va + i * 4096) as u64);
            assert(0 <= i * 4096 <= (n - 1) * 4096) by (nonlinear_arith)
                requires
                    0 <= i < n,
            ;
            let page = (va + i * 4096) as u64;
            a_path_is_a_page(w, page);
            assert(false);
        }
    }
}

} // verus!
