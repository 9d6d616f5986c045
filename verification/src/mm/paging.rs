//! Page tables and address spaces.
//!
//! Per-process translation at 4 KiB granularity, through four levels of tables
//! that live in physical memory like everything else. An `AddressSpace` owns a
//! level-0 table and everything reachable from it. What it means is the function
//! [`leaf`]: which descriptor, if any, the hardware finds for a page.
use vstd::prelude::*;
use crate::mm::frames::{alloc_frame, free, Frames};
use crate::mm::ram::Ram;
use crate::mm::PAGE_SIZE;

verus! {

// Descriptor bits.
pub const PTE_VALID: u64 = 0x1;

/// At levels 0-2 this means "table"; at level 3 it means "page". Same bit.
pub const PTE_TABLE_OR_PAGE: u64 = 0x2;

/// Normal memory.
pub const PTE_ATTR_NORMAL: u64 = 0x4;

/// Accessible at EL0.
pub const PTE_AP_EL0: u64 = 0x40;

/// Read-only.
pub const PTE_AP_RO: u64 = 0x80;

pub const PTE_SH_INNER: u64 = 0x300;

/// Access flag; without it every touch faults.
pub const PTE_AF: u64 = 0x400;

/// Non-global: tagged with the ASID.
pub const PTE_NG: u64 = 0x800;

/// Never executable at EL1.
pub const PTE_PXN: u64 = 0x20_0000_0000_0000;

/// Never executable at EL0.
pub const PTE_UXN: u64 = 0x40_0000_0000_0000;

pub const ADDR_MASK: u64 = 0x0000_FFFF_FFFF_F000;

/// User addresses lie below this: the other half is the kernel's.
pub const USER_LIMIT: u64 = 0x0001_0000_0000_0000;

/// What a user mapping is allowed to do. Kernel text is never mapped here, so
/// every one of these sets PXN: a bug that jumps to user memory at EL1 faults
/// instead of executing whatever the process put there.
#[derive(Clone, Copy, Debug, PartialEq, Eq, Structural)]
pub enum Perm {
    /// Executable at EL0, read-only. Program text.
    UserText,
    /// Readable at EL0, never executable. Constants.
    UserReadOnly,
    /// Read/write at EL0, never executable. Data, BSS, stack.
    UserData,
    /// Device registers: read/write at EL0, never executable, never cached.
    UserDevice,
}

/// The bits every user page has.
pub open spec fn common_bits() -> u64 {
    PTE_VALID | PTE_TABLE_OR_PAGE | PTE_ATTR_NORMAL | PTE_SH_INNER | PTE_AF | PTE_NG | PTE_AP_EL0
        | PTE_PXN
}

/// The descriptor bits of a permission.
pub open spec fn perm_bits(p: Perm) -> u64 {
    match p {
        Perm::UserText => common_bits() | PTE_AP_RO,
        Perm::UserReadOnly => common_bits() | PTE_AP_RO | PTE_UXN,
        Perm::UserData => common_bits() | PTE_UXN,
        Perm::UserDevice => (common_bits() & !PTE_ATTR_NORMAL & !PTE_SH_INNER) | PTE_UXN,
    }
}

impl Perm {
    pub fn bits(self) -> (r: u64)
        ensures
            r == perm_bits(self),
    {
        let common = PTE_VALID | PTE_TABLE_OR_PAGE | PTE_ATTR_NORMAL | PTE_SH_INNER | PTE_AF
            | PTE_NG | PTE_AP_EL0 | PTE_PXN;
        match self {
            Perm::UserText => common | PTE_AP_RO,
            Perm::UserReadOnly => common | PTE_AP_RO | PTE_UXN,
            Perm::UserData => common | PTE_UXN,
            // Device memory takes another attribute, so the normal-memory
            // attribute and the shareability bits both come off.
            Perm::UserDevice => (common & !PTE_ATTR_NORMAL & !PTE_SH_INNER) | PTE_UXN,
        }
    }
}

proof fn lemma_perm_values()
    by (bit_vector)
    ensures
        0x1u64 | 0x2 | 0x4 | 0x300 | 0x400 | 0x800 | 0x40 | 0x20_0000_0000_0000
            == 0x20_0000_0000_0F47u64,
        0x20_0000_0000_0F47u64 | 0x80 == 0x20_0000_0000_0FC7u64,
        0x20_0000_0000_0FC7u64 | 0x40_0000_0000_0000 == 0x60_0000_0000_0FC7u64,
        0x20_0000_0000_0F47u64 | 0x40_0000_0000_0000 == 0x60_0000_0000_0F47u64,
        (0x20_0000_0000_0F47u64 & !0x4u64 & !0x300u64) | 0x40_0000_0000_0000
            == 0x60_0000_0000_0C43u64,
{
}

proof fn lemma_mask_facts(a: u64, b: u64)
    by (bit_vector)
    ensures
        a % 4096 == 0 && a < 0x1_0000_0000_0000 && (b == 0x20_0000_0000_0FC7 || b
            == 0x60_0000_0000_0FC7 || b == 0x60_0000_0000_0F47 || b == 0x60_0000_0000_0C43 || b == 3)
            ==> (a | b) & 0x0000_FFFF_FFFF_F000 == a && (a | b) & 1 == 1,
        (a & 0x0000_FFFF_FFFF_F000) % 4096 == 0,
        (a & 0x0000_FFFF_FFFF_F000) < 0x1_0000_0000_0000,
        0u64 & 1 == 0,
        1u64 | 2 == 3u64,
        (a | 1) | 2 == a | 3,
        (a | 3) & 3 == 3,
{
}

proof fn lemma_desc(a: u64, p: Perm)
    requires
        a % 4096 == 0,
        a < 0x1_0000_0000_0000,
    ensures
        (a | perm_bits(p)) & ADDR_MASK == a,
        (a | perm_bits(p)) & 1 == 1,
{
    lemma_perm_values();
    lemma_mask_facts(a, perm_bits(p));
}

/// The frame and the validity of a page can be read back from its descriptor.
pub proof fn a_descriptor_holds_its_frame(a: u64, p: Perm)
    requires
        a % 4096 == 0,
        a < USER_LIMIT,
    ensures
        page_descriptor(a, p) & ADDR_MASK == a,
        page_descriptor(a, p) & 1 == 1,
{
    lemma_desc(a, p);
}

/// No permission is both writable and executable, none is executable at EL1, and
/// each is what its name says: a valid page, open to EL0, tagged with the ASID.
pub proof fn no_page_is_both_writable_and_executable(p: Perm)
    ensures
        perm_bits(p) & PTE_VALID != 0,
        perm_bits(p) & PTE_TABLE_OR_PAGE != 0,
        perm_bits(p) & PTE_AF != 0,
        perm_bits(p) & PTE_NG != 0,
        perm_bits(p) & PTE_AP_EL0 != 0,
        perm_bits(p) & PTE_PXN != 0,
        perm_bits(p) & PTE_AP_RO != 0 || perm_bits(p) & PTE_UXN != 0,
        (perm_bits(p) & PTE_UXN == 0) == (p == Perm::UserText),
        (perm_bits(p) & PTE_AP_RO == 0) == (p == Perm::UserData || p == Perm::UserDevice),
        (perm_bits(p) & PTE_ATTR_NORMAL == 0) == (p == Perm::UserDevice),
        perm_bits(p) & ADDR_MASK == 0,
{
    lemma_perm_values();
    lemma_perm_tests();
    let b = perm_bits(p);
    assert(b == 0x20_0000_0000_0FC7u64 || b == 0x60_0000_0000_0FC7 || b == 0x60_0000_0000_0F47 || b
        == 0x60_0000_0000_0C43);
    assert(b & 0x1 != 0);
}

proof fn lemma_perm_tests()
    by (bit_vector)
    ensures
        forall|b: u64|
            #![trigger b & 0x1]
            b == 0x20_0000_0000_0FC7u64 || b == 0x60_0000_0000_0FC7 || b == 0x60_0000_0000_0F47 || b
                == 0x60_0000_0000_0C43 ==> b & 0x1 != 0 && b & 0x2 != 0 && b & 0x400 != 0 && b
                & 0x800 != 0 && b & 0x40 != 0 && b & 0x20_0000_0000_0000 != 0 && b
                & 0x0000_FFFF_FFFF_F000 == 0,
        0x20_0000_0000_0FC7u64 & 0x80 != 0 && 0x20_0000_0000_0FC7u64 & 0x40_0000_0000_0000 == 0
            && 0x20_0000_0000_0FC7u64 & 0x4 != 0,
        0x60_0000_0000_0FC7u64 & 0x80 != 0 && 0x60_0000_0000_0FC7u64 & 0x40_0000_0000_0000 != 0
            && 0x60_0000_0000_0FC7u64 & 0x4 != 0,
        0x60_0000_0000_0F47u64 & 0x80 == 0 && 0x60_0000_0000_0F47u64 & 0x40_0000_0000_0000 != 0
            && 0x60_0000_0000_0F47u64 & 0x4 != 0,
        0x60_0000_0000_0C43u64 & 0x80 == 0 && 0x60_0000_0000_0C43u64 & 0x40_0000_0000_0000 != 0
            && 0x60_0000_0000_0C43u64 & 0x4 == 0,
{
}

// ---- the walk -------------------------------------------------------------------

/// The four table indices a virtual address selects.
#[verifier::ext_equal]
pub struct Path {
    pub i0: int,
    pub i1: int,
    pub i2: int,
    pub i3: int,
}

/// The index a walk uses at level `l`.
pub open spec fn step_of(p: Path, l: int) -> int {
    if l == 0 {
        p.i0
    } else if l == 1 {
        p.i1
    } else if l == 2 {
        p.i2
    } else {
        p.i3
    }
}

pub open spec fn path_ok(p: Path) -> bool {
    0 <= p.i0 < 512 && 0 <= p.i1 < 512 && 0 <= p.i2 < 512 && 0 <= p.i3 < 512
}

/// The path of a virtual address.
pub open spec fn path_of(va: u64) -> Path {
    Path {
        i0: ((va >> 39) & 0x1ff) as int,
        i1: ((va >> 30) & 0x1ff) as int,
        i2: ((va >> 21) & 0x1ff) as int,
        i3: ((va >> 12) & 0x1ff) as int,
    }
}

/// Whether two paths agree on their first `l` indices, and so share a level-`l`
/// table.
pub open spec fn same_prefix(l: int, p: Path, q: Path) -> bool {
    &&& l >= 1 ==> p.i0 == q.i0
    &&& l >= 2 ==> p.i1 == q.i1
    &&& l >= 3 ==> p.i2 == q.i2
    &&& l >= 4 ==> p.i3 == q.i3
}

/// The table that entry `i` of the table at `t` points to.
pub open spec fn link(ram: Ram, t: int, i: int) -> Option<int> {
    let e = ram.word(t + 8 * i);
    if e & 1 == 0 {
        None
    } else {
        Some((e & ADDR_MASK) as int)
    }
}

/// The level-`l` table on path `p`.
pub open spec fn table_at(ram: Ram, root: int, l: int, p: Path) -> Option<int>
    decreases l,
{
    if l <= 0 {
        Some(root)
    } else {
        match table_at(ram, root, l - 1, p) {
            Some(t) => link(ram, t, step_of(p, l - 1)),
            None => None,
        }
    }
}

/// The page descriptor on path `p`, if there is a valid one.
pub open spec fn leaf(ram: Ram, root: int, p: Path) -> Option<u64> {
    match table_at(ram, root, 3, p) {
        Some(t) => {
            let e = ram.word(t + 8 * p.i3);
            if e & 1 == 0 {
                None
            } else {
                Some(e)
            }
        },
        None => None,
    }
}

/// Where a virtual address leads. A kernel address leads nowhere.
pub open spec fn translation(ram: Ram, root: int, va: u64) -> Option<u64> {
    if va >= USER_LIMIT {
        None
    } else {
        match leaf(ram, root, path_of(va)) {
            Some(e) => Some((e & ADDR_MASK) | (va & 4095)),
            None => None,
        }
    }
}

/// The tables form a tree: every table reached is one of `tables`, and no table
/// is reached in two ways.
pub open spec fn tree(ram: Ram, root: int, tables: Seq<u64>) -> bool {
    &&& forall|k: int|
        0 <= k < tables.len() ==> (#[trigger] tables[k]) % 4096 == 0 && ram.holds(
            tables[k] as int,
            4096,
        )
    &&& forall|l: int, p: Path|
        0 <= l <= 3 && path_ok(p) ==> ((#[trigger] table_at(ram, root, l, p)) matches Some(t) ==> 0
            <= t <= u64::MAX && tables.contains(t as u64))
    &&& forall|l: int, p: Path, m: int, q: Path|
        0 <= l <= 3 && path_ok(p) && 0 <= m <= 3 && path_ok(q) && (#[trigger] table_at(
            ram,
            root,
            l,
            p,
        )) is Some && table_at(ram, root, l, p) == (#[trigger] table_at(ram, root, m, q)) ==> l == m
            && same_prefix(l, p, q)
}

/// No word of any of `tables` differs, but for entry `i` of the table at `t`.
pub open spec fn words_kept(a: Ram, b: Ram, tables: Seq<u64>, t: int, i: int) -> bool {
    &&& b.base == a.base
    &&& b.bytes@.len() == a.bytes@.len()
    &&& forall|k: int, j: int|
        #![trigger tables[k], b.word(tables[k] + 8 * j)]
        0 <= k < tables.len() && 0 <= j < 512 && !(tables[k] == t && j == i) ==> b.word(
            tables[k] + 8 * j,
        ) == a.word(tables[k] + 8 * j)
}

proof fn lemma_prefix_shares(ram: Ram, root: int, l: int, p: Path, q: Path)
    requires
        0 <= l <= 3,
        same_prefix(l, p, q),
    ensures
        table_at(ram, root, l, p) == table_at(ram, root, l, q),
    decreases l,
{
    if l > 0 {
        lemma_prefix_shares(ram, root, l - 1, p, q);
    }
}

proof fn lemma_link_kept(a: Ram, b: Ram, tables: Seq<u64>, t: int, i: int, u: int, j: int)
    requires
        words_kept(a, b, tables, t, i),
        0 <= u <= u64::MAX,
        tables.contains(u as u64),
        0 <= j < 512,
        !(u == t && j == i),
    ensures
        link(b, u, j) == link(a, u, j),
        b.word(u + 8 * j) == a.word(u + 8 * j),
{
    let k = choose|k: int| 0 <= k < tables.len() && tables[k] == u as u64;
    assert(b.word(tables[k] + 8 * j) == a.word(tables[k] + 8 * j));
}

/// Writing nothing in the tables changes no walk.
proof fn lemma_untouched(a: Ram, b: Ram, root: int, tables: Seq<u64>, l: int, p: Path)
    requires
        tree(a, root, tables),
        words_kept(a, b, tables, -1, -1),
        0 <= l <= 3,
        path_ok(p),
    ensures
        table_at(b, root, l, p) == table_at(a, root, l, p),
        l == 3 ==> leaf(b, root, p) == leaf(a, root, p),
    decreases l,
{
    if l > 0 {
        lemma_untouched(a, b, root, tables, l - 1, p);
        match table_at(a, root, l - 1, p) {
            Some(u) => {
                lemma_link_kept(a, b, tables, -1, -1, u, step_of(p, l - 1));
            },
            None => {},
        }
    }
    if l == 3 {
        match table_at(a, root, 3, p) {
            Some(u) => {
                lemma_link_kept(a, b, tables, -1, -1, u, p.i3);
            },
            None => {},
        }
    }
}

proof fn lemma_tree_untouched(a: Ram, b: Ram, root: int, tables: Seq<u64>)
    requires
        tree(a, root, tables),
        words_kept(a, b, tables, -1, -1),
    ensures
        tree(b, root, tables),
        forall|p: Path| path_ok(p) ==> #[trigger] leaf(b, root, p) == leaf(a, root, p),
        forall|l: int, p: Path|
            0 <= l <= 3 && path_ok(p) ==> #[trigger] table_at(b, root, l, p) == table_at(
                a,
                root,
                l,
                p,
            ),
{
    assert forall|l: int, p: Path| 0 <= l <= 3 && path_ok(p) implies #[trigger] table_at(
        b,
        root,
        l,
        p,
    ) == table_at(a, root, l, p) by {
        lemma_untouched(a, b, root, tables, l, p);
    }
    assert forall|p: Path| path_ok(p) implies #[trigger] leaf(b, root, p) == leaf(a, root, p) by {
        lemma_untouched(a, b, root, tables, 3, p);
    }
    assert forall|l: int, p: Path, m: int, q: Path|
        0 <= l <= 3 && path_ok(p) && 0 <= m <= 3 && path_ok(q) && (#[trigger] table_at(
            b,
            root,
            l,
            p,
        )) is Some && table_at(b, root, l, p) == (#[trigger] table_at(b, root, m, q)) implies l == m
        && same_prefix(l, p, q) by {
        assert(table_at(a, root, l, p) == table_at(b, root, l, p));
        assert(table_at(a, root, m, q) == table_at(b, root, m, q));
    }
}

/// Writing inside a page that is no table changes no walk.
pub proof fn page_writes_keep_walks(a: Ram, b: Ram, root: int, tables: Seq<u64>, page: u64)
    requires
        tree(a, root, tables),
        page % 4096 == 0,
        !tables.contains(page),
        a.same_outside(b, page as int, 4096),
    ensures
        tree(b, root, tables),
        forall|p: Path| path_ok(p) ==> #[trigger] leaf(b, root, p) == leaf(a, root, p),
{
    lemma_page_write_keeps_words(a, b, tables, page);
    lemma_tree_untouched(a, b, root, tables);
}

/// A space whose tables kept their bytes keeps its walks.
pub proof fn tables_kept_keep_walks(r0: Ram, r1: Ram, b: AddressSpace, frames: Frames)
    requires
        b.wf(r0, frames),
        r1.base == r0.base,
        r1.bytes@.len() == r0.bytes@.len(),
        forall|k: int, q: int|
            #![trigger b.owned@[k], r1.byte(q)]
            0 <= k < b.owned@.len() && b.owned@[k] <= q < b.owned@[k] + 4096 ==> r1.byte(q)
                == r0.byte(q),
    ensures
        tree(r1, b.root as int, b.tables@),
        forall|p: Path| path_ok(p) ==> #[trigger] b.leaf(r1, p) == b.leaf(r0, p),
{
    let tables = b.tables@;
    assert(words_kept(r0, r1, tables, -1, -1)) by {
        assert forall|k: int, j: int|
            #![trigger tables[k], r1.word(tables[k] + 8 * j)]
            0 <= k < tables.len() && 0 <= j < 512 && !(tables[k] == -1 && j == -1) implies r1.word(
            tables[k] + 8 * j,
        ) == r0.word(tables[k] + 8 * j) by {
            assert(b.owned@.contains(tables[k]));
            let m = choose|m: int| 0 <= m < b.owned@.len() && b.owned@[m] == tables[k];
            let pa = tables[k] + 8 * j;
            assert forall|q: int| pa <= q < pa + 8 implies #[trigger] r1.byte(q) == r0.byte(q) by {
                assert(b.owned@[m] <= q < b.owned@[m] + 4096);
            }
            crate::mm::ram::word_is_its_bytes(r0, r1, pa);
        }
    }
    lemma_tree_untouched(r0, r1, b.root as int, tables);
    assert forall|p: Path| path_ok(p) implies #[trigger] b.leaf(r1, p) == b.leaf(r0, p) by {
        assert(leaf(r1, b.root as int, p) == leaf(r0, b.root as int, p));
    }
}

/// The address field of a descriptor is a page address.
pub proof fn frame_fields_are_page_addresses(e: u64)
    ensures
        (e & ADDR_MASK) % 4096 == 0,
        (e & ADDR_MASK) < USER_LIMIT,
{
    lemma_mask_facts(e, 0);
}

/// Hanging an empty table `f` on entry `step_of(p, l)` of the level-`l` table `t`
/// on path `p` changes exactly the walks that pass through that entry.
proof fn lemma_hung(
    a: Ram,
    b: Ram,
    root: int,
    tables: Seq<u64>,
    l: int,
    p: Path,
    t: int,
    f: int,
    m: int,
    q: Path,
)
    requires
        tree(a, root, tables),
        0 <= l < 3,
        path_ok(p),
        path_ok(q),
        0 <= m <= 3,
        table_at(a, root, l, p) == Some(t),
        link(a, t, step_of(p, l)) is None,
        words_kept(a, b, tables, t, step_of(p, l)),
        link(b, t, step_of(p, l)) == Some(f),
        forall|j: int| 0 <= j < 512 ==> #[trigger] b.word(f + 8 * j) == 0,
    ensures
        table_at(b, root, m, q) == (if m > l && same_prefix(l + 1, p, q) {
            if m == l + 1 {
                Some(f)
            } else {
                None
            }
        } else {
            table_at(a, root, m, q)
        }),
        m > l && same_prefix(l + 1, p, q) ==> table_at(a, root, m, q) is None,
        m == 3 ==> leaf(b, root, q) == leaf(a, root, q),
    decreases m,
{
    lemma_mask_facts(0, 0);
    if m > 0 {
        lemma_hung(a, b, root, tables, l, p, t, f, m - 1, q);
        let before = table_at(a, root, m - 1, q);
        if m - 1 > l && same_prefix(l + 1, p, q) {
            if m - 1 == l + 1 {
                assert(b.word(f + 8 * step_of(q, m - 1)) == 0);
            }
        } else {
            match before {
                Some(u) => {
                    if u == t && step_of(q, m - 1) == step_of(p, l) {
                        // The tree has no sharing, so this is the entry itself.
                        assert(m - 1 == l && same_prefix(l, q, p));
                        assert(same_prefix(l + 1, p, q));
                    } else {
                        lemma_link_kept(
                            a,
                            b,
                            tables,
                            t,
                            step_of(p, l),
                            u,
                            step_of(q, m - 1),
                        );
                        if m - 1 == l && same_prefix(l + 1, p, q) {
                            lemma_prefix_shares(a, root, l, p, q);
                        }
                    }
                },
                None => {
                    if m - 1 == l && same_prefix(l + 1, p, q) {
                        lemma_prefix_shares(a, root, l, p, q);
                    }
                },
            }
        }
    }
    if m == 3 {
        if same_prefix(l + 1, p, q) {
            if l == 2 {
                assert(b.word(f + 8 * q.i3) == 0);
            }
        } else {
            match table_at(a, root, 3, q) {
                Some(u) => {
                    if u == t {
                        assert(3 == l);
                    }
                    lemma_link_kept(a, b, tables, t, step_of(p, l), u, q.i3);
                },
                None => {},
            }
        }
    }
}

proof fn lemma_tree_hung(
    a: Ram,
    b: Ram,
    root: int,
    tables: Seq<u64>,
    l: int,
    p: Path,
    t: int,
    f: u64,
)
    requires
        tree(a, root, tables),
        0 <= l < 3,
        path_ok(p),
        table_at(a, root, l, p) == Some(t),
        link(a, t, step_of(p, l)) is None,
        words_kept(a, b, tables, t, step_of(p, l)),
        link(b, t, step_of(p, l)) == Some(f as int),
        forall|j: int| 0 <= j < 512 ==> #[trigger] b.word(f + 8 * j) == 0,
        !tables.contains(f),
        f % 4096 == 0,
        b.holds(f as int, 4096),
    ensures
        tree(b, root, tables.push(f)),
        forall|q: Path| path_ok(q) ==> #[trigger] leaf(b, root, q) == leaf(a, root, q),
        table_at(b, root, l + 1, p) == Some(f as int),
{
    let more = tables.push(f);
    assert forall|m: int, q: Path| 0 <= m <= 3 && path_ok(q) implies ((#[trigger] table_at(
        b,
        root,
        m,
        q,
    )) matches Some(u) ==> 0 <= u <= u64::MAX && more.contains(u as u64)) by {
        lemma_hung(a, b, root, tables, l, p, t, f as int, m, q);
        match table_at(b, root, m, q) {
            Some(u) => {
                if m == l + 1 && same_prefix(l + 1, p, q) {
                    assert(more[tables.len() as int] == f);
                } else {
                    assert(table_at(a, root, m, q) == Some(u));
                    let k = choose|k: int| 0 <= k < tables.len() && tables[k] == u as u64;
                    assert(more[k] == u as u64);
                }
            },
            None => {},
        }
    }
    assert forall|q: Path| path_ok(q) implies #[trigger] leaf(b, root, q) == leaf(a, root, q) by {
        lemma_hung(a, b, root, tables, l, p, t, f as int, 3, q);
    }
    assert forall|m: int, q: Path, n: int, r: Path|
        0 <= m <= 3 && path_ok(q) && 0 <= n <= 3 && path_ok(r) && (#[trigger] table_at(
            b,
            root,
            m,
            q,
        )) is Some && table_at(b, root, m, q) == (#[trigger] table_at(b, root, n, r)) implies m == n
        && same_prefix(m, q, r) by {
        lemma_hung(a, b, root, tables, l, p, t, f as int, m, q);
        lemma_hung(a, b, root, tables, l, p, t, f as int, n, r);
        let x = table_at(b, root, m, q)->0;
        if m > l && same_prefix(l + 1, p, q) {
            if !(n > l && same_prefix(l + 1, p, r)) {
                assert(table_at(a, root, n, r) == Some(f as int));
            }
        } else {
            if n > l && same_prefix(l + 1, p, r) {
                assert(table_at(a, root, m, q) == Some(f as int));
            } else {
                assert(table_at(a, root, m, q) == table_at(a, root, n, r));
            }
        }
    }
    lemma_hung(a, b, root, tables, l, p, t, f as int, l + 1, p);
    assert forall|k: int| 0 <= k < more.len() implies (#[trigger] more[k]) % 4096 == 0 && b.holds(
        more[k] as int,
        4096,
    ) by {
        if k < tables.len() {
            assert(more[k] == tables[k]);
        }
    }
}

/// Writing one page descriptor changes that page and no other.
proof fn lemma_leaf_written(a: Ram, b: Ram, root: int, tables: Seq<u64>, p: Path, t: int, e: u64)
    requires
        tree(a, root, tables),
        path_ok(p),
        table_at(a, root, 3, p) == Some(t),
        words_kept(a, b, tables, t, p.i3),
        b.word(t + 8 * p.i3) == e,
    ensures
        tree(b, root, tables),
        forall|q: Path|
            path_ok(q) ==> #[trigger] leaf(b, root, q) == (if q == p {
                if e & 1 == 0 {
                    None
                } else {
                    Some(e)
                }
            } else {
                leaf(a, root, q)
            }),
        forall|l: int, q: Path|
            0 <= l <= 3 && path_ok(q) ==> #[trigger] table_at(b, root, l, q) == table_at(
                a,
                root,
                l,
                q,
            ),
{
    assert forall|l: int, q: Path| 0 <= l <= 3 && path_ok(q) implies #[trigger] table_at(
        b,
        root,
        l,
        q,
    ) == table_at(a, root, l, q) by {
        lemma_walk_past_leaf(a, b, root, tables, p, t, l, q);
    }
    assert forall|q: Path| path_ok(q) implies #[trigger] leaf(b, root, q) == (if q == p {
        if e & 1 == 0 {
            None
        } else {
            Some(e)
        }
    } else {
        leaf(a, root, q)
    }) by {
        assert(table_at(b, root, 3, q) == table_at(a, root, 3, q));
        match table_at(a, root, 3, q) {
            Some(u) => {
                if u == t && q.i3 == p.i3 {
                    assert(same_prefix(3, q, p));
                    assert(q =~= p);
                } else {
                    lemma_link_kept(a, b, tables, t, p.i3, u, q.i3);
                }
            },
            None => {},
        }
    }
    assert forall|l: int, q: Path, m: int, r: Path|
        0 <= l <= 3 && path_ok(q) && 0 <= m <= 3 && path_ok(r) && (#[trigger] table_at(
            b,
            root,
            l,
            q,
        )) is Some && table_at(b, root, l, q) == (#[trigger] table_at(b, root, m, r)) implies l == m
        && same_prefix(l, q, r) by {
        assert(table_at(a, root, l, q) == table_at(b, root, l, q));
        assert(table_at(a, root, m, r) == table_at(b, root, m, r));
    }
}

proof fn lemma_walk_past_leaf(
    a: Ram,
    b: Ram,
    root: int,
    tables: Seq<u64>,
    p: Path,
    t: int,
    l: int,
    q: Path,
)
    requires
        tree(a, root, tables),
        path_ok(p),
        path_ok(q),
        0 <= l <= 3,
        table_at(a, root, 3, p) == Some(t),
        words_kept(a, b, tables, t, p.i3),
    ensures
        table_at(b, root, l, q) == table_at(a, root, l, q),
    decreases l,
{
    if l > 0 {
        lemma_walk_past_leaf(a, b, root, tables, p, t, l - 1, q);
        match table_at(a, root, l - 1, q) {
            Some(u) => {
                if u == t {
                    assert(l - 1 == 3);
                }
                lemma_link_kept(a, b, tables, t, p.i3, u, step_of(q, l - 1));
            },
            None => {},
        }
    }
}

// ---- address spaces ---------------------------------------------------------------

pub struct AddressSpace {
    /// Physical address of the level-0 table.
    pub root: u64,
    pub asid: u64,
    /// Every frame this space owns: tables and mapped pages alike.
    pub owned: Vec<u64>,
    /// The tables among them.
    pub tables: Ghost<Seq<u64>>,
}

/// Whether `q` lies in one of the pages of `list`.
pub open spec fn in_pages(list: Seq<u64>, q: int) -> bool {
    exists|k: int| 0 <= k < list.len() && (#[trigger] list[k]) <= q < list[k] + 4096
}

/// The allocator hands out frames of this memory.
pub open spec fn frames_in(frames: Frames, ram: Ram) -> bool {
    &&& ram.wf()
    &&& frames.sound()
    &&& frames.bump != 0 ==> ram.base <= frames.start && frames.end <= ram.base + ram.bytes@.len()
}

impl AddressSpace {
    /// The space's tables form a tree in `ram`, and its frames are in use.
    pub open spec fn wf(&self, ram: Ram, frames: Frames) -> bool {
        &&& frames_in(frames, ram)
        &&& tree(ram, self.root as int, self.tables@)
        &&& forall|k: int|
            0 <= k < self.owned@.len() ==> frames.in_use(#[trigger] self.owned@[k])
        &&& forall|k: int|
            0 <= k < self.tables@.len() ==> self.owned@.contains(#[trigger] self.tables@[k])
        &&& self.owned@.no_duplicates()
    }

    /// The descriptor on path `p`.
    pub open spec fn leaf(&self, ram: Ram, p: Path) -> Option<u64> {
        leaf(ram, self.root as int, p)
    }

    /// No user page is one of the space's own tables.
    pub open spec fn apart(&self, ram: Ram) -> bool {
        forall|p: Path|
            path_ok(p) ==> ((#[trigger] self.leaf(ram, p)) matches Some(e) ==> !self.tables@.contains(
                e & ADDR_MASK,
            ))
    }
}

/// The space has only gained tables: frames in use stay in use, memory outside
/// the tables is untouched, and what the space gained the allocator lost.
pub open spec fn grew(
    s0: AddressSpace,
    r0: Ram,
    f0: Frames,
    s1: AddressSpace,
    r1: Ram,
    f1: Frames,
) -> bool {
    &&& s1.wf(r1, f1)
    &&& s1.root == s0.root
    &&& s1.asid == s0.asid
    &&& r1.base == r0.base
    &&& r1.bytes@.len() == r0.bytes@.len()
    &&& f1.start == f0.start
    &&& f1.end == f0.end
    &&& f1.reserved@ == f0.reserved@
    &&& s0.owned@.len() <= s1.owned@.len()
    &&& s1.owned@.take(s0.owned@.len() as int) == s0.owned@
    &&& forall|x: u64| f0.in_use(x) ==> #[trigger] f1.in_use(x)
    &&& f1.available() + (s1.owned@.len() - s0.owned@.len()) == f0.available()
    &&& forall|t: u64| #[trigger]
        s1.tables@.contains(t) ==> s0.tables@.contains(t) || !f0.in_use(t)
    &&& forall|t: u64| s0.tables@.contains(t) ==> #[trigger] s1.tables@.contains(t)
    &&& forall|k: int|
        s0.owned@.len() <= k < s1.owned@.len() ==> !f0.in_use(#[trigger] s1.owned@[k])
    &&& forall|x: u64| #[trigger] f1.in_use(x) ==> f0.in_use(x) || s1.owned@.contains(x)
}

proof fn lemma_take_is_prefix<A>(a: Seq<A>, b: Seq<A>, c: Seq<A>)
    requires
        a.len() <= b.len() <= c.len(),
        b.take(a.len() as int) == a,
        c.take(b.len() as int) == b,
    ensures
        c.take(a.len() as int) == a,
{
    assert(c.take(a.len() as int) =~= b.take(a.len() as int)) by {
        assert forall|i: int| 0 <= i < a.len() implies c[i] == b[i] by {
            assert(c.take(b.len() as int)[i] == b[i]);
        }
    }
}

/// Memory outside the tables of `s1` is untouched.
pub open spec fn kept_outside_tables(r0: Ram, r1: Ram, tables: Seq<u64>) -> bool {
    forall|q: int| r0.holds(q, 1) && !in_pages(tables, q) ==> #[trigger] r1.byte(q) == r0.byte(q)
}

proof fn lemma_grew_trans(
    s0: AddressSpace,
    r0: Ram,
    f0: Frames,
    s1: AddressSpace,
    r1: Ram,
    f1: Frames,
    s2: AddressSpace,
    r2: Ram,
    f2: Frames,
)
    requires
        grew(s0, r0, f0, s1, r1, f1),
        grew(s1, r1, f1, s2, r2, f2),
        kept_outside_tables(r0, r1, s1.tables@),
        kept_outside_tables(r1, r2, s2.tables@),
    ensures
        grew(s0, r0, f0, s2, r2, f2),
        kept_outside_tables(r0, r2, s2.tables@),
{
    lemma_take_is_prefix(s0.owned@, s1.owned@, s2.owned@);
    assert forall|x: u64| f0.in_use(x) implies #[trigger] f2.in_use(x) by {
        assert(f1.in_use(x));
    }
    assert forall|x: u64| #[trigger] f2.in_use(x) implies f0.in_use(x) || s2.owned@.contains(x) by {
        if f1.in_use(x) && s1.owned@.contains(x) {
            let k = choose|k: int| 0 <= k < s1.owned@.len() && s1.owned@[k] == x;
            assert(s2.owned@.take(s1.owned@.len() as int)[k] == s2.owned@[k]);
            assert(s2.owned@[k] == x);
        }
    }
    assert forall|t: u64| #[trigger] s2.tables@.contains(t) implies s0.tables@.contains(t)
        || !f0.in_use(t) by {
        if s1.tables@.contains(t) {
        } else if f0.in_use(t) {
            assert(f1.in_use(t));
        }
    }
    assert forall|t: u64| s0.tables@.contains(t) implies #[trigger] s2.tables@.contains(t) by {
        assert(s1.tables@.contains(t));
    }
    assert forall|k: int| s0.owned@.len() <= k < s2.owned@.len() implies !f0.in_use(
        #[trigger] s2.owned@[k],
    ) by {
        if k < s1.owned@.len() {
            assert(s2.owned@.take(s1.owned@.len() as int)[k] == s1.owned@[k]);
        } else if f0.in_use(s2.owned@[k]) {
            assert(f1.in_use(s2.owned@[k]));
        }
    }
    assert forall|q: int| r0.holds(q, 1) && !in_pages(s2.tables@, q) implies #[trigger] r2.byte(q)
        == r0.byte(q) by {
        if in_pages(s1.tables@, q) {
            let k = choose|k: int|
                0 <= k < s1.tables@.len() && (#[trigger] s1.tables@[k]) <= q < s1.tables@[k] + 4096;
            assert(s1.tables@.contains(s1.tables@[k]));
            assert(s2.tables@.contains(s1.tables@[k]));
            let j = choose|j: int| 0 <= j < s2.tables@.len() && s2.tables@[j] == s1.tables@[k];
            assert(s2.tables@[j] <= q < s2.tables@[j] + 4096);
        }
        assert(r1.byte(q) == r0.byte(q));
    }
}

proof fn lemma_page_write_keeps_words(a: Ram, b: Ram, tables: Seq<u64>, f: u64)
    requires
        a.same_outside(b, f as int, 4096),
        f % 4096 == 0,
        !tables.contains(f),
        forall|k: int|
            0 <= k < tables.len() ==> (#[trigger] tables[k]) % 4096 == 0 && a.holds(
                tables[k] as int,
                4096,
            ),
    ensures
        words_kept(a, b, tables, -1, -1),
{
    assert forall|k: int, j: int|
        #![trigger tables[k], b.word(tables[k] + 8 * j)]
        0 <= k < tables.len() && 0 <= j < 512 implies b.word(tables[k] + 8 * j) == a.word(
        tables[k] + 8 * j,
    ) by {
        assert(tables[k] != f) by {
            if tables[k] == f {
                assert(tables.contains(f));
            }
        }
        let pa = tables[k] + 8 * j;
        assert forall|q: int| pa <= q < pa + 8 implies #[trigger] b.byte(q) == a.byte(q) by {
            assert(a.holds(q, 1));
        }
        crate::mm::ram::word_is_its_bytes(a, b, pa);
    }
}

proof fn lemma_word_write_keeps_words(a: Ram, b: Ram, tables: Seq<u64>, t: u64, i: int)
    requires
        a.same_outside(b, t + 8 * i, 8),
        t % 4096 == 0,
        0 <= i < 512,
        forall|k: int|
            0 <= k < tables.len() ==> (#[trigger] tables[k]) % 4096 == 0 && a.holds(
                tables[k] as int,
                4096,
            ),
    ensures
        words_kept(a, b, tables, t as int, i),
{
    assert forall|k: int, j: int|
        #![trigger tables[k], b.word(tables[k] + 8 * j)]
        0 <= k < tables.len() && 0 <= j < 512 && !(tables[k] == t && j == i) implies b.word(
        tables[k] + 8 * j,
    ) == a.word(tables[k] + 8 * j) by {
        let pa = tables[k] + 8 * j;
        assert forall|q: int| pa <= q < pa + 8 implies #[trigger] b.byte(q) == a.byte(q) by {
            assert(a.holds(q, 1));
        }
        crate::mm::ram::word_is_its_bytes(a, b, pa);
    }
}

proof fn lemma_index_bound(va: u64)
    by (bit_vector)
    ensures
        ((va >> 39) & 0x1ff) < 512,
        ((va >> 30) & 0x1ff) < 512,
        ((va >> 21) & 0x1ff) < 512,
        ((va >> 12) & 0x1ff) < 512,
{
}

/// Every virtual address has a path.
pub proof fn paths_are_in_range(va: u64)
    ensures
        path_ok(path_of(va)),
{
    lemma_index_bound(va);
}

/// Where a walk along `p` finds a table in `r1` that it did not find in `r0`, the entry that
/// leads to it is marked as a table.
pub open spec fn links_made(r0: Ram, r1: Ram, root: int, p: Path) -> bool {
    forall|m: int|
        1 <= m <= 3 && table_at(r0, root, m, p) is None && (#[trigger] table_at(r1, root, m, p))
            is Some ==> r1.word(table_at(r1, root, m - 1, p)->0 + 8 * step_of(p, m - 1)) & 3 == 3
}

/// The same, and from level `l` on the walk finds what it found in `r0`.
#[verifier::opaque]
pub open spec fn made_upto(r0: Ram, r1: Ram, root: int, p: Path, l: int) -> bool {
    &&& links_made(r0, r1, root, p)
    &&& forall|m: int|
        l < m <= 3 ==> #[trigger] table_at(r1, root, m, p) == table_at(r0, root, m, p)
}

proof fn lemma_made(r0: Ram, r1: Ram, root: int, p: Path, l: int)
    ensures
        r0 == r1 ==> made_upto(r0, r1, root, p, l),
        made_upto(r0, r1, root, p, l) ==> made_upto(r0, r1, root, p, l + 1) && links_made(
            r0,
            r1,
            root,
            p,
        ),
{
    reveal(made_upto);
}

proof fn lemma_links_made(
    r0: Ram,
    a: Ram,
    b: Ram,
    root: int,
    tables: Seq<u64>,
    l: int,
    p: Path,
    t: int,
    f: int,
)
    requires
        tree(a, root, tables),
        0 <= l < 3,
        path_ok(p),
        table_at(a, root, l, p) == Some(t),
        link(a, t, step_of(p, l)) is None,
        words_kept(a, b, tables, t, step_of(p, l)),
        link(b, t, step_of(p, l)) == Some(f),
        b.word(t + 8 * step_of(p, l)) & 3 == 3,
        forall|j: int| 0 <= j < 512 ==> #[trigger] b.word(f + 8 * j) == 0,
        made_upto(r0, a, root, p, l),
    ensures
        made_upto(r0, b, root, p, l + 1),
{
    reveal(made_upto);
    assert forall|m: int|
        1 <= m <= 3 && table_at(r0, root, m, p) is None && (#[trigger] table_at(b, root, m, p))
            is Some implies b.word(table_at(b, root, m - 1, p)->0 + 8 * step_of(p, m - 1)) & 3
        == 3 by {
        lemma_hung(a, b, root, tables, l, p, t, f, m, p);
        lemma_hung(a, b, root, tables, l, p, t, f, m - 1, p);
        if m <= l {
            assert(table_at(a, root, m, p) is Some);
            let u = table_at(a, root, m - 1, p)->0;
            assert(table_at(a, root, m - 1, p) == Some(u));
            if u == t {
                assert(m - 1 == l);
            }
            lemma_link_kept(a, b, tables, t, step_of(p, l), u, step_of(p, m - 1));
        }
    }
    assert forall|m: int| l + 1 < m <= 3 implies #[trigger] table_at(b, root, m, p) == table_at(
        r0,
        root,
        m,
        p,
    ) by {
        lemma_hung(a, b, root, tables, l, p, t, f, m, p);
        assert(table_at(a, root, m, p) == table_at(r0, root, m, p));
    }
}

proof fn lemma_links_kept(
    r0: Ram,
    a: Ram,
    b: Ram,
    root: int,
    tables: Seq<u64>,
    l: int,
    p: Path,
)
    requires
        tree(a, root, tables),
        path_ok(p),
        0 <= l,
        words_kept(a, b, tables, -1, -1),
        made_upto(r0, a, root, p, l),
    ensures
        made_upto(r0, b, root, p, l),
{
    reveal(made_upto);
    assert forall|m: int|
        1 <= m <= 3 && table_at(r0, root, m, p) is None && (#[trigger] table_at(b, root, m, p))
            is Some implies b.word(table_at(b, root, m - 1, p)->0 + 8 * step_of(p, m - 1)) & 3
        == 3 by {
        lemma_untouched(a, b, root, tables, m, p);
        lemma_untouched(a, b, root, tables, m - 1, p);
        assert(table_at(a, root, m, p) is Some);
        let u = table_at(a, root, m - 1, p)->0;
        assert(table_at(a, root, m - 1, p) == Some(u));
        lemma_link_kept(a, b, tables, -1, -1, u, step_of(p, m - 1));
    }
    assert forall|m: int| 0 <= l < m <= 3 implies #[trigger] table_at(b, root, m, p) == table_at(
        r0,
        root,
        m,
        p,
    ) by {
        lemma_untouched(a, b, root, tables, m, p);
        assert(table_at(a, root, m, p) == table_at(r0, root, m, p));
    }
}

/// The table index a virtual address selects at a level.
pub fn index(va: u64, level: usize) -> (r: u64)
    requires
        level <= 3,
    ensures
        r == step_of(path_of(va), level as int),
        r < 512,
{
    proof {
        lemma_index_bound(va);
    }
    match level {
        0 => (va >> 39) & 0x1ff,
        1 => (va >> 30) & 0x1ff,
        2 => (va >> 21) & 0x1ff,
        _ => (va >> 12) & 0x1ff,
    }
}

/// Allocate a zeroed frame for use as a page table.
pub fn alloc_table(frames: &mut Frames, ram: &mut Ram) -> (r: Option<u64>)
    requires
        frames_in(*old(frames), *old(ram)),
    ensures
        frames_in(*final(frames), *final(ram)),
        crate::mm::frames::allocated_from(*old(frames), *final(frames)),
        r == crate::mm::frames::alloc_outcome(*old(frames)).0,
        match r {
            Some(f) => {
                &&& f % 4096 == 0
                &&& final(ram).holds(f as int, 4096)
                &&& old(ram).same_outside(*final(ram), f as int, 4096)
                &&& forall|q: int| f <= q < f + 4096 ==> #[trigger] final(ram).byte(q) == 0
            },
            None => *final(ram) == *old(ram),
        },
{
    let ghost f0 = *frames;
    let r = alloc_frame(frames);
    proof {
        crate::mm::frames::a_frame_is_handed_out_once(f0, *frames);
    }
    match r {
        None => None,
        Some(f) => {
            assert(frames.in_use(f));
            ram.zero_page(f);
            Some(f)
        },
    }
}

/// The identifier that a counter gives: its low sixteen bits, but never 0, which is
/// kept for the empty space.
pub open spec fn asid_from(counter: u64) -> u64 {
    if counter % 0x1_0000 == 0 {
        1
    } else {
        counter % 0x1_0000
    }
}

/// The counter after it has given an identifier.
pub open spec fn asid_after(counter: u64) -> u64 {
    if counter % 0x1_0000 == 0 {
        counter.wrapping_add(2)
    } else {
        counter.wrapping_add(1)
    }
}

impl AddressSpace {
    /// An address space with nothing mapped: `None` where no frame is left.
    /// `next_asid` is the counter that address space identifiers come from.
    pub fn new(frames: &mut Frames, ram: &mut Ram, next_asid: &mut u64) -> (r: Option<AddressSpace>)
        requires
            frames_in(*old(frames), *old(ram)),
        ensures
            frames_in(*final(frames), *final(ram)),
            crate::mm::frames::allocated_from(*old(frames), *final(frames)),
            match (r, crate::mm::frames::alloc_outcome(*old(frames)).0) {
                (Some(s), Some(root)) => {
                    &&& s.wf(*final(ram), *final(frames))
                    &&& s.root == root
                    &&& s.asid == asid_from(*old(next_asid))
                    &&& 1 <= s.asid <= 0xffff
                    &&& s.owned@ == seq![root]
                    &&& s.tables@ == seq![root]
                    &&& *final(next_asid) == asid_after(*old(next_asid))
                    &&& forall|p: Path| path_ok(p) ==> #[trigger] s.leaf(*final(ram), p) is None
                    &&& old(ram).same_outside(*final(ram), root as int, 4096)
                },
                (None, None) => *final(ram) == *old(ram) && *final(next_asid) == *old(next_asid),
                _ => false,
            },
    {
        let ghost f0 = *frames;
        match alloc_table(frames, ram) {
            None => None,
            Some(root) => {
                proof {
                    crate::mm::frames::a_frame_is_handed_out_once(f0, *frames);
                }
                if *next_asid % 0x1_0000 == 0 {
                    *next_asid = next_asid.wrapping_add(1);
                }
                let asid: u64 = *next_asid % 0x1_0000;
                *next_asid = next_asid.wrapping_add(1);
                let mut owned: Vec<u64> = Vec::new();
                owned.push(root);
                let ghost only_root: Seq<u64> = seq![root];
                let s = AddressSpace { root, asid, owned, tables: Ghost(only_root) };
                proof {
                    lemma_mask_facts(0, 0);
                    assert forall|j: int| 0 <= j < 512 implies #[trigger] ram.word(root + 8 * j)
                        == 0 by {
                        crate::mm::ram::zero_bytes_are_a_zero_word(*ram, root + 8 * j);
                    }
                    assert forall|l: int, p: Path| 0 < l <= 3 && path_ok(p) implies (
                    #[trigger] table_at(*ram, root as int, l, p)) is None by {
                        lemma_empty_root(*ram, root as int, l, p);
                    }
                    assert(s.tables@.contains(root)) by {
                        assert(s.tables@[0] == root);
                    }
                    assert(s.owned@[0] == root);
                    assert(s.owned@ =~= seq![root]);
                    assert forall|l: int, p: Path| 0 <= l <= 3 && path_ok(p) implies ((
                    #[trigger] table_at(*ram, root as int, l, p)) matches Some(t) ==> 0 <= t <= u64::MAX
                        && s.tables@.contains(t as u64)) by {
                        if l > 0 {
                            assert(table_at(*ram, root as int, l, p) is None);
                        }
                    }
                }
                Some(s)
            },
        }
    }
}

proof fn lemma_empty_root(ram: Ram, root: int, l: int, p: Path)
    requires
        0 < l <= 3,
        path_ok(p),
        forall|j: int| 0 <= j < 512 ==> #[trigger] ram.word(root + 8 * j) == 0,
    ensures
        table_at(ram, root, l, p) is None,
    decreases l,
{
    lemma_mask_facts(0, 0);
    if l == 1 {
        assert(ram.word(root + 8 * p.i0) == 0);
        assert(table_at(ram, root, 0, p) == Some(root));
    } else {
        lemma_empty_root(ram, root, l - 1, p);
    }
}

/// The descriptor a mapping writes.
pub open spec fn page_descriptor(pa: u64, perm: Perm) -> u64 {
    pa | perm_bits(perm)
}

/// What path `p` leads to once `n` pages at `va` have been mapped to `pa` on.
pub open spec fn mapped_leaf(
    ram: Ram,
    root: int,
    va: u64,
    pa: u64,
    perm: Perm,
    n: int,
    p: Path,
) -> Option<u64>
    decreases n,
{
    if n <= 0 {
        leaf(ram, root, p)
    } else if p == path_of((va + (n - 1) * 4096) as u64) {
        Some(page_descriptor((pa + (n - 1) * 4096) as u64, perm))
    } else {
        mapped_leaf(ram, root, va, pa, perm, n - 1, p)
    }
}

/// The register value that selects the space with this identifier and root table.
pub open spec fn selector(asid: u64, root: u64) -> u64 {
    (asid << 48) | root
}

impl AddressSpace {
    pub fn root(&self) -> (r: u64)
        ensures
            r == self.root,
    {
        self.root
    }

    /// TTBR0_EL1 value that selects this space.
    pub fn ttbr0(&self) -> (r: u64)
        ensures
            r == selector(self.asid, self.root),
    {
        (self.asid << 48) | self.root
    }

    pub fn asid(&self) -> (r: u64)
        ensures
            r == self.asid,
    {
        self.asid
    }

    /// Walk to the level-3 entry for `va`, creating tables on the way: the
    /// physical address of the entry.
    pub fn entry_for(&mut self, frames: &mut Frames, ram: &mut Ram, va: u64) -> (r: Option<u64>)
        requires
            old(self).wf(*old(ram), *old(frames)),
        ensures
            grew(*old(self), *old(ram), *old(frames), *final(self), *final(ram), *final(frames)),
            kept_outside_tables(*old(ram), *final(ram), final(self).tables@),
            final(self).owned@.len() <= old(self).owned@.len() + 3,
            links_made(*old(ram), *final(ram), final(self).root as int, path_of(va)),
            forall|q: Path|
                path_ok(q) ==> #[trigger] final(self).leaf(*final(ram), q) == old(self).leaf(
                    *old(ram),
                    q,
                ),
            match r {
                Some(slot) => {
                    &&& table_at(*final(ram), final(self).root as int, 3, path_of(va)) is Some
                    &&& slot == table_at(
                        *final(ram),
                        final(self).root as int,
                        3,
                        path_of(va),
                    )->0 + 8 * path_of(va).i3
                    &&& final(ram).holds(slot as int, 8)
                },
                None => final(frames).available() == 0 && final(self).owned@.len() <= old(
                    self,
                ).owned@.len() + 2,
            },
    {
        let ghost p = path_of(va);
        let ghost s0 = *self;
        let ghost r0 = *ram;
        let ghost f0 = *frames;
        proof {
            paths_are_in_range(va);
            assert(self.owned@.take(self.owned@.len() as int) =~= self.owned@);
            lemma_made(r0, *ram, self.root as int, p, 0);
        }
        let root: u64 = self.root;
        let mut table: u64 = root;
        let mut level: usize = 0;
        while level < 3
            invariant
                level <= 3,
                p == path_of(va),
                path_ok(p),
                root == self.root,
                grew(s0, r0, f0, *self, *ram, *frames),
                kept_outside_tables(r0, *ram, self.tables@),
                self.owned@.len() <= s0.owned@.len() + level,
                made_upto(r0, *ram, root as int, p, level as int),
                forall|q: Path|
                    path_ok(q) ==> #[trigger] leaf(*ram, root as int, q) == leaf(
                        r0,
                        root as int,
                        q,
                    ),
                table_at(*ram, root as int, level as int, p) == Some(table as int),
                s0 == *old(self),
                r0 == *old(ram),
                f0 == *old(frames),
            decreases 3 - level,
        {
            let ghost s1 = *self;
            let ghost r1 = *ram;
            let ghost f1 = *frames;
            let i = index(va, level);
            proof {
                assert(self.tables@.contains(table));
                let k = choose|k: int| 0 <= k < self.tables@.len() && self.tables@[k] == table;
                assert(self.tables@[k] % 4096 == 0 && ram.holds(self.tables@[k] as int, 4096));
            }
            let e = ram.read_u64(table + 8 * i);
            if e & PTE_VALID == 0 {
                match alloc_table(frames, ram) {
                    None => {
                        proof {
                            lemma_made(r0, *ram, root as int, p, level as int);
                            crate::mm::frames::a_frame_is_handed_out_once(f1, *frames);
                            lemma_alloc_failed(s0, r0, f0, s1, r1, f1, *frames);
                        }
                        return None;
                    },
                    Some(next) => {
                        proof {
                            crate::mm::frames::a_frame_is_handed_out_once(f1, *frames);
                            lemma_mask_facts(next, 3);
                            lemma_fresh_not_owned(s1, r1, f1, next);
                        }
                        let ghost r2 = *ram;
                        proof {
                            lemma_page_write_keeps_words(r1, r2, s1.tables@, next);
                            lemma_tree_untouched(r1, r2, root as int, s1.tables@);
                        }
                        self.owned.push(next);
                        ram.write_u64(table + 8 * i, next | PTE_VALID | PTE_TABLE_OR_PAGE);
                        proof {
                            lemma_word_write_keeps_words(
                                r2,
                                *ram,
                                s1.tables@,
                                table,
                                i as int,
                            );
                            lemma_fresh_is_empty(r2, *ram, next, table, i as int);
                            lemma_links_kept(r0, r1, r2, root as int, s1.tables@, level as int, p);
                            lemma_links_made(
                                r0,
                                r2,
                                *ram,
                                root as int,
                                s1.tables@,
                                level as int,
                                p,
                                table as int,
                                next as int,
                            );
                            lemma_tree_hung(
                                r2,
                                *ram,
                                root as int,
                                s1.tables@,
                                level as int,
                                p,
                                table as int,
                                next,
                            );
                            self.tables@ = self.tables@.push(next);
                            lemma_hung_grew(
                                s1,
                                r1,
                                f1,
                                r2,
                                *self,
                                *ram,
                                *frames,
                                next,
                                table,
                                i as int,
                            );
                            lemma_grew_trans(s0, r0, f0, s1, r1, f1, *self, *ram, *frames);
                        }
                        table = next;
                    },
                }
            } else {
                proof {
                    lemma_mask_facts(e, 0);
                    lemma_made(r0, *ram, root as int, p, level as int);
                }
                table = e & ADDR_MASK;
                assert(table_at(*ram, root as int, level + 1, p) == Some(table as int));
            }
            level = level + 1;
        }
        proof {
            lemma_made(r0, *ram, root as int, p, 3);
            assert(self.tables@.contains(table));
            let k = choose|k: int| 0 <= k < self.tables@.len() && self.tables@[k] == table;
            assert(self.tables@[k] % 4096 == 0 && ram.holds(self.tables@[k] as int, 4096));
        }
        let i3 = index(va, 3);
        Some(table + 8 * i3)
    }
}

proof fn lemma_alloc_failed(
    s0: AddressSpace,
    r0: Ram,
    f0: Frames,
    s1: AddressSpace,
    r1: Ram,
    f1: Frames,
    f2: Frames,
)
    requires
        grew(s0, r0, f0, s1, r1, f1),
        f2.sound(),
        crate::mm::frames::allocated_from(f1, f2),
        frames_in(f2, r1),
        f1.available() == 0,
        f2.available() == 0,
        forall|x: u64| #[trigger] f2.in_use(x) == f1.in_use(x),
    ensures
        grew(s0, r0, f0, s1, r1, f2),
{
    assert forall|x: u64| f0.in_use(x) implies #[trigger] f2.in_use(x) by {
        assert(f1.in_use(x));
    }
    assert forall|k: int| 0 <= k < s1.owned@.len() implies f2.in_use(#[trigger] s1.owned@[k]) by {
        assert(f1.in_use(s1.owned@[k]));
    }
}

proof fn lemma_fresh_not_owned(s: AddressSpace, ram: Ram, f: Frames, x: u64)
    requires
        s.wf(ram, f),
        !f.in_use(x),
    ensures
        !s.owned@.contains(x),
        !s.tables@.contains(x),
{
    if s.owned@.contains(x) {
        let k = choose|k: int| 0 <= k < s.owned@.len() && s.owned@[k] == x;
        assert(f.in_use(s.owned@[k]));
    }
    if s.tables@.contains(x) {
        let k = choose|k: int| 0 <= k < s.tables@.len() && s.tables@[k] == x;
        assert(s.owned@.contains(s.tables@[k]));
        let j = choose|j: int| 0 <= j < s.owned@.len() && s.owned@[j] == x;
        assert(f.in_use(s.owned@[j]));
    }
}

proof fn lemma_fresh_is_empty(a: Ram, b: Ram, f: u64, t: u64, i: int)
    requires
        a.same_outside(b, t + 8 * i, 8),
        f % 4096 == 0,
        t % 4096 == 0,
        f != t,
        0 <= i < 512,
        a.holds(f as int, 4096),
        forall|q: int| f <= q < f + 4096 ==> #[trigger] a.byte(q) == 0,
    ensures
        forall|j: int| 0 <= j < 512 ==> #[trigger] b.word(f + 8 * j) == 0,
{
    assert forall|j: int| 0 <= j < 512 implies #[trigger] b.word(f + 8 * j) == 0 by {
        let pa = f + 8 * j;
        assert forall|q: int| pa <= q < pa + 8 implies #[trigger] b.byte(q) == 0 by {
            assert(a.holds(q, 1));
            assert(a.byte(q) == 0);
        }
        crate::mm::ram::zero_bytes_are_a_zero_word(b, pa);
    }
}

proof fn lemma_push_unique(s: Seq<u64>, x: u64)
    requires
        s.no_duplicates(),
        !s.contains(x),
    ensures
        s.push(x).no_duplicates(),
{
    let t = s.push(x);
    assert forall|i: int, j: int| 0 <= i < t.len() && 0 <= j < t.len() && i != j implies t[i]
        != t[j] by {
        if i == s.len() && t[j] == x {
            assert(s[j] == x);
        }
        if j == s.len() && t[i] == x {
            assert(s[i] == x);
        }
    }
}

proof fn lemma_hung_grew(
    s1: AddressSpace,
    r1: Ram,
    f1: Frames,
    r2: Ram,
    s3: AddressSpace,
    r3: Ram,
    f3: Frames,
    next: u64,
    table: u64,
    i: int,
)
    requires
        s1.wf(r1, f1),
        crate::mm::frames::allocated_from(f1, f3),
        frames_in(f3, r2),
        r1.same_outside(r2, next as int, 4096),
        r2.same_outside(r3, table + 8 * i, 8),
        0 <= i < 512,
        s1.tables@.contains(table),
        s3.root == s1.root,
        s3.asid == s1.asid,
        s3.owned@ == s1.owned@.push(next),
        s3.tables@ == s1.tables@.push(next),
        tree(r3, s3.root as int, s3.tables@),
        !f1.in_use(next),
        f3.in_use(next),
        forall|x: u64| x != next ==> #[trigger] f3.in_use(x) == f1.in_use(x),
        f3.available() == f1.available() - 1,
    ensures
        grew(s1, r1, f1, s3, r3, f3),
        kept_outside_tables(r1, r3, s3.tables@),
{
    lemma_fresh_not_owned(s1, r1, f1, next);
    lemma_push_unique(s1.owned@, next);
    assert(s3.owned@.take(s1.owned@.len() as int) =~= s1.owned@);
    assert(s3.owned@[s1.owned@.len() as int] == next);
    assert forall|x: u64| f1.in_use(x) implies #[trigger] f3.in_use(x) by {}
    assert forall|k: int| 0 <= k < s3.owned@.len() implies f3.in_use(#[trigger] s3.owned@[k]) by {
        if k < s1.owned@.len() {
            assert(f1.in_use(s1.owned@[k]));
        }
    }
    assert forall|k: int| 0 <= k < s3.tables@.len() implies s3.owned@.contains(
        #[trigger] s3.tables@[k],
    ) by {
        if k < s1.tables@.len() {
            assert(s1.owned@.contains(s1.tables@[k]));
            let j = choose|j: int| 0 <= j < s1.owned@.len() && s1.owned@[j] == s1.tables@[k];
            assert(s3.owned@[j] == s3.tables@[k]);
        } else {
            assert(s3.owned@[s1.owned@.len() as int] == next);
        }
    }
    assert forall|t: u64| #[trigger] s3.tables@.contains(t) implies s1.tables@.contains(t)
        || !f1.in_use(t) by {
        let k = choose|k: int| 0 <= k < s3.tables@.len() && s3.tables@[k] == t;
        if k < s1.tables@.len() {
            assert(s1.tables@[k] == t);
        }
    }
    assert forall|t: u64| s1.tables@.contains(t) implies #[trigger] s3.tables@.contains(t) by {
        let k = choose|k: int| 0 <= k < s1.tables@.len() && s1.tables@[k] == t;
        assert(s3.tables@[k] == t);
    }
    assert forall|q: int| r1.holds(q, 1) && !in_pages(s3.tables@, q) implies #[trigger] r3.byte(q)
        == r1.byte(q) by {
        if next <= q < next + 4096 {
            assert(s3.tables@[s1.tables@.len() as int] == next);
        }
        if table <= q < table + 4096 {
            let k = choose|k: int| 0 <= k < s1.tables@.len() && s1.tables@[k] == table;
            assert(s3.tables@[k] == table);
        }
        assert(r2.byte(q) == r1.byte(q));
    }
}

impl AddressSpace {
    /// Physical address backing a user virtual address, if it is mapped.
    pub fn translate(&self, ram: &Ram, va: u64) -> (r: Option<u64>)
        requires
            tree(*ram, self.root as int, self.tables@),
        ensures
            r == translation(*ram, self.root as int, va),
    {
        if va >= USER_LIMIT {
            return None;
        }
        let ghost p = path_of(va);
        proof {
            paths_are_in_range(va);
        }
        let mut table: u64 = self.root;
        let mut level: usize = 0;
        while level < 3
            invariant
                level <= 3,
                va < USER_LIMIT,
                p == path_of(va),
                path_ok(p),
                tree(*ram, self.root as int, self.tables@),
                table_at(*ram, self.root as int, level as int, p) == Some(table as int),
            decreases 3 - level,
        {
            let i = index(va, level);
            proof {
                lemma_table_held(*self, *ram, level as int, p, table);
            }
            let e = ram.read_u64(table + 8 * i);
            if e & PTE_VALID == 0 {
                proof {
                    lemma_dead_end(*ram, self.root as int, level as int, 3, p);
                }
                return None;
            }
            table = e & ADDR_MASK;
            assert(table_at(*ram, self.root as int, level + 1, p) == Some(table as int));
            level = level + 1;
        }
        let i3 = index(va, 3);
        proof {
            lemma_table_held(*self, *ram, 3, p, table);
        }
        let e = ram.read_u64(table + 8 * i3);
        if e & PTE_VALID == 0 {
            return None;
        }
        Some((e & ADDR_MASK) | (va & (PAGE_SIZE - 1)))
    }
}

proof fn lemma_table_held(s: AddressSpace, ram: Ram, l: int, p: Path, t: u64)
    requires
        tree(ram, s.root as int, s.tables@),
        0 <= l <= 3,
        path_ok(p),
        table_at(ram, s.root as int, l, p) == Some(t as int),
    ensures
        t % 4096 == 0,
        ram.holds(t as int, 4096),
        s.tables@.contains(t),
{
    assert(s.tables@.contains(t));
    let k = choose|k: int| 0 <= k < s.tables@.len() && s.tables@[k] == t;
    assert(s.tables@[k] % 4096 == 0 && ram.holds(s.tables@[k] as int, 4096));
}

proof fn lemma_dead_end(ram: Ram, root: int, l: int, m: int, p: Path)
    requires
        0 <= l < m <= 3,
        table_at(ram, root, l, p) is Some,
        link(ram, table_at(ram, root, l, p)->0, step_of(p, l)) is None,
    ensures
        table_at(ram, root, m, p) is None,
    decreases m,
{
    if m > l + 1 {
        lemma_dead_end(ram, root, l, m - 1, p);
    }
}

// ---- mapping ------------------------------------------------------------------------

/// Memory is untouched but for the tables `s0` had and the frames it gained.
pub open spec fn kept(s0: AddressSpace, r0: Ram, s1: AddressSpace, r1: Ram) -> bool {
    forall|q: int|
        r0.holds(q, 1) && !in_pages(s0.tables@, q) && !in_pages(
            s1.owned@.skip(s0.owned@.len() as int),
            q,
        ) ==> #[trigger] r1.byte(q) == r0.byte(q)
}

proof fn lemma_kept(s0: AddressSpace, r0: Ram, f0: Frames, s1: AddressSpace, r1: Ram, f1: Frames)
    requires
        s0.wf(r0, f0),
        grew(s0, r0, f0, s1, r1, f1),
        kept_outside_tables(r0, r1, s1.tables@),
    ensures
        kept(s0, r0, s1, r1),
{
    let gained = s1.owned@.skip(s0.owned@.len() as int);
    assert forall|q: int|
        r0.holds(q, 1) && !in_pages(s0.tables@, q) && !in_pages(gained, q) implies #[trigger] r1.byte(
        q,
    ) == r0.byte(q) by {
        if in_pages(s1.tables@, q) {
            let k = choose|k: int|
                0 <= k < s1.tables@.len() && (#[trigger] s1.tables@[k]) <= q < s1.tables@[k] + 4096;
            let t = s1.tables@[k];
            assert(s1.tables@.contains(t));
            if s0.tables@.contains(t) {
                let j = choose|j: int| 0 <= j < s0.tables@.len() && s0.tables@[j] == t;
                assert(s0.tables@[j] <= q < s0.tables@[j] + 4096);
            } else {
                assert(s1.owned@.contains(s1.tables@[k]));
                let j = choose|j: int| 0 <= j < s1.owned@.len() && s1.owned@[j] == t;
                if j < s0.owned@.len() {
                    assert(s1.owned@.take(s0.owned@.len() as int)[j] == s0.owned@[j]);
                    assert(f0.in_use(s0.owned@[j]));
                } else {
                    assert(gained[j - s0.owned@.len()] == t);
                }
            }
        }
    }
}

/// One growth after another is a growth.
pub proof fn growth_adds_up(
    s0: AddressSpace,
    r0: Ram,
    f0: Frames,
    s1: AddressSpace,
    r1: Ram,
    f1: Frames,
    s2: AddressSpace,
    r2: Ram,
    f2: Frames,
)
    requires
        s0.wf(r0, f0),
        grew(s0, r0, f0, s1, r1, f1),
        grew(s1, r1, f1, s2, r2, f2),
        kept(s0, r0, s1, r1),
        kept(s1, r1, s2, r2),
    ensures
        grew(s0, r0, f0, s2, r2, f2),
        kept(s0, r0, s2, r2),
{
    lemma_take_is_prefix(s0.owned@, s1.owned@, s2.owned@);
    assert forall|x: u64| f0.in_use(x) implies #[trigger] f2.in_use(x) by {
        assert(f1.in_use(x));
    }
    assert forall|x: u64| #[trigger] f2.in_use(x) implies f0.in_use(x) || s2.owned@.contains(x) by {
        if f1.in_use(x) && s1.owned@.contains(x) {
            let k = choose|k: int| 0 <= k < s1.owned@.len() && s1.owned@[k] == x;
            assert(s2.owned@.take(s1.owned@.len() as int)[k] == s2.owned@[k]);
            assert(s2.owned@[k] == x);
        }
    }
    assert forall|t: u64| #[trigger] s2.tables@.contains(t) implies s0.tables@.contains(t)
        || !f0.in_use(t) by {
        if s1.tables@.contains(t) {
        } else if f0.in_use(t) {
            assert(f1.in_use(t));
        }
    }
    assert forall|t: u64| s0.tables@.contains(t) implies #[trigger] s2.tables@.contains(t) by {
        assert(s1.tables@.contains(t));
    }
    assert forall|k: int| s0.owned@.len() <= k < s2.owned@.len() implies !f0.in_use(
        #[trigger] s2.owned@[k],
    ) by {
        if k < s1.owned@.len() {
            assert(s2.owned@.take(s1.owned@.len() as int)[k] == s1.owned@[k]);
        } else if f0.in_use(s2.owned@[k]) {
            assert(f1.in_use(s2.owned@[k]));
        }
    }
    let g1 = s1.owned@.skip(s0.owned@.len() as int);
    let g2 = s2.owned@.skip(s0.owned@.len() as int);
    let h2 = s2.owned@.skip(s1.owned@.len() as int);
    assert forall|q: int|
        r0.holds(q, 1) && !in_pages(s0.tables@, q) && !in_pages(g2, q) implies #[trigger] r2.byte(q)
        == r0.byte(q) by {
        assert(!in_pages(g1, q)) by {
            if in_pages(g1, q) {
                let k = choose|k: int| 0 <= k < g1.len() && (#[trigger] g1[k]) <= q < g1[k] + 4096;
                assert(s2.owned@.take(s1.owned@.len() as int)[k + s0.owned@.len()]
                    == s1.owned@[k + s0.owned@.len()]);
                assert(g2[k] == g1[k]);
                assert(in_pages(g2, q));
            }
        }
        assert(!in_pages(h2, q)) by {
            if in_pages(h2, q) {
                let k = choose|k: int| 0 <= k < h2.len() && (#[trigger] h2[k]) <= q < h2[k] + 4096;
                let j = k + s1.owned@.len() - s0.owned@.len();
                assert(g2[j] == h2[k]);
                assert(in_pages(g2, q));
            }
        }
        assert(!in_pages(s1.tables@, q)) by {
            if in_pages(s1.tables@, q) {
                let k = choose|k: int|
                    0 <= k < s1.tables@.len() && (#[trigger] s1.tables@[k]) <= q < s1.tables@[k]
                        + 4096;
                let t = s1.tables@[k];
                assert(s1.tables@.contains(t));
                if s0.tables@.contains(t) {
                    let j = choose|j: int| 0 <= j < s0.tables@.len() && s0.tables@[j] == t;
                    assert(s0.tables@[j] <= q < s0.tables@[j] + 4096);
                } else {
                    assert(s1.owned@.contains(s1.tables@[k]));
                    let j = choose|j: int| 0 <= j < s1.owned@.len() && s1.owned@[j] == t;
                    if j < s0.owned@.len() {
                        assert(s1.owned@.take(s0.owned@.len() as int)[j] == s0.owned@[j]);
                        assert(f0.in_use(s0.owned@[j]));
                    } else {
                        assert(g1[j - s0.owned@.len()] == t);
                        assert(in_pages(g1, q));
                    }
                }
            }
        }
        assert(r1.byte(q) == r0.byte(q));
    }
}

proof fn lemma_leaf_grew(
    s: AddressSpace,
    r1: Ram,
    f: Frames,
    r2: Ram,
    t: u64,
    i: int,
)
    requires
        s.wf(r1, f),
        s.tables@.contains(t),
        0 <= i < 512,
        r1.same_outside(r2, t + 8 * i, 8),
        tree(r2, s.root as int, s.tables@),
    ensures
        grew(s, r1, f, s, r2, f),
        kept(s, r1, s, r2),
{
    assert(s.owned@.take(s.owned@.len() as int) =~= s.owned@);
    assert forall|q: int|
        r1.holds(q, 1) && !in_pages(s.tables@, q) && !in_pages(
            s.owned@.skip(s.owned@.len() as int),
            q,
        ) implies #[trigger] r2.byte(q) == r1.byte(q) by {
        if t + 8 * i <= q < t + 8 * i + 8 {
            let k = choose|k: int| 0 <= k < s.tables@.len() && s.tables@[k] == t;
            assert(s.tables@[k] <= q < s.tables@[k] + 4096);
        }
    }
}

/// A space that is left alone has grown by nothing.
pub proof fn standing_still_is_growth(s: AddressSpace, r: Ram, f: Frames)
    requires
        s.wf(r, f),
    ensures
        grew(s, r, f, s, r, f),
        kept(s, r, s, r),
{
    assert(s.owned@.take(s.owned@.len() as int) =~= s.owned@);
}

impl AddressSpace {
    /// Map one page, or say that no frame was left for a table on the way.
    fn map_page(&mut self, frames: &mut Frames, ram: &mut Ram, va: u64, pa: u64, perm: Perm) -> (r:
        bool)
        requires
            old(self).wf(*old(ram), *old(frames)),
            pa % 4096 == 0,
            pa < USER_LIMIT,
        ensures
            grew(*old(self), *old(ram), *old(frames), *final(self), *final(ram), *final(frames)),
            kept(*old(self), *old(ram), *final(self), *final(ram)),
            final(self).owned@.len() <= old(self).owned@.len() + 3,
            forall|q: Path|
                path_ok(q) ==> #[trigger] final(self).leaf(*final(ram), q) == (if r && q == path_of(
                    va,
                ) {
                    Some(page_descriptor(pa, perm))
                } else {
                    old(self).leaf(*old(ram), q)
                }),
            !r ==> final(frames).available() == 0 && final(self).owned@.len() <= old(
                self,
            ).owned@.len() + 2,
    {
        let ghost s0 = *self;
        let ghost r0 = *ram;
        let ghost f0 = *frames;
        let ghost p = path_of(va);
        match self.entry_for(frames, ram, va) {
            None => {
                proof {
                    lemma_kept(s0, r0, f0, *self, *ram, *frames);
                }
                false
            },
            Some(slot) => {
                proof {
                    lemma_kept(s0, r0, f0, *self, *ram, *frames);
                    paths_are_in_range(va);
                }
                let ghost r1 = *ram;
                let ghost s1 = *self;
                let ghost t = table_at(*ram, self.root as int, 3, p)->0;
                ram.write_u64(slot, pa | perm.bits());
                proof {
                    lemma_table_held(*self, r1, 3, p, t as u64);
                    lemma_word_write_keeps_words(r1, *ram, self.tables@, t as u64, p.i3);
                    lemma_desc(pa, perm);
                    lemma_leaf_written(
                        r1,
                        *ram,
                        self.root as int,
                        self.tables@,
                        p,
                        t,
                        page_descriptor(pa, perm),
                    );
                    lemma_leaf_grew(*self, r1, *frames, *ram, t as u64, p.i3);
                    growth_adds_up(s0, r0, f0, *self, r1, *frames, *self, *ram, *frames);
                    assert forall|q: Path| path_ok(q) implies #[trigger] self.leaf(*ram, q) == (
                    if q == p {
                        Some(page_descriptor(pa, perm))
                    } else {
                        s0.leaf(r0, q)
                    }) by {
                        assert(s1.leaf(r1, q) == s0.leaf(r0, q));
                    }
                }
                true
            },
        }
    }

    /// Map `pages` 4 KiB pages of `pa` at `va`. The caller drops the space's TLB
    /// entries afterwards.
    ///
    /// Where no frame is left for a table, the pages before that one stay mapped.
    pub fn map(
        &mut self,
        frames: &mut Frames,
        ram: &mut Ram,
        va: u64,
        pa: u64,
        pages: u64,
        perm: Perm,
    ) -> (r: Result<(), &'static str>)
        requires
            old(self).wf(*old(ram), *old(frames)),
            va + pages * 4096 <= u64::MAX,
            pa + pages * 4096 <= USER_LIMIT,
        ensures
            grew(*old(self), *old(ram), *old(frames), *final(self), *final(ram), *final(frames)),
            kept(*old(self), *old(ram), *final(self), *final(ram)),
            final(self).owned@.len() <= old(self).owned@.len() + 3 * pages,
            if va % 4096 != 0 || pa % 4096 != 0 {
                &&& r == Err::<(), &'static str>("unaligned mapping")
                &&& *final(self) == *old(self)
                &&& *final(ram) == *old(ram)
                &&& *final(frames) == *old(frames)
            } else {
                exists|n: int|
                    {
                        &&& 0 <= n <= pages
                        &&& r == (if n == pages {
                            Ok::<(), &'static str>(())
                        } else {
                            Err("out of frames for page tables")
                        })
                        &&& n < pages ==> final(frames).available() == 0
                            && final(self).owned@.len() <= old(self).owned@.len() + 3 * n + 2
                        &&& #[trigger] mapped_upto(
                            *old(ram),
                            *final(ram),
                            old(self).root as int,
                            va,
                            pa,
                            perm,
                            n,
                        )
                    }
            },
    {
        let ghost s0 = *self;
        let ghost r0 = *ram;
        let ghost f0 = *frames;
        proof {
            standing_still_is_growth(s0, r0, f0);
        }
        if va % PAGE_SIZE != 0 || pa % PAGE_SIZE != 0 {
            return Err("unaligned mapping");
        }
        let mut i: u64 = 0;
        assert(mapped_upto(r0, *ram, s0.root as int, va, pa, perm, 0));
        while i < pages
            invariant
                i <= pages,
                s0 == *old(self),
                r0 == *old(ram),
                f0 == *old(frames),
                s0.wf(r0, f0),
                va % 4096 == 0,
                pa % 4096 == 0,
                va + pages * 4096 <= u64::MAX,
                pa + pages * 4096 <= USER_LIMIT,
                grew(s0, r0, f0, *self, *ram, *frames),
                kept(s0, r0, *self, *ram),
                self.owned@.len() <= s0.owned@.len() + 3 * i,
                mapped_upto(r0, *ram, s0.root as int, va, pa, perm, i as int),
            decreases pages - i,
        {
            let ghost s1 = *self;
            let ghost r1 = *ram;
            let ghost f1 = *frames;
            let ok = self.map_page(
                frames,
                ram,
                va + i * PAGE_SIZE,
                pa + i * PAGE_SIZE,
                perm,
            );
            proof {
                growth_adds_up(s0, r0, f0, s1, r1, f1, *self, *ram, *frames);
            }
            if !ok {
                assert(mapped_upto(r0, *ram, s0.root as int, va, pa, perm, i as int)) by {
                    assert forall|q: Path| path_ok(q) implies #[trigger] leaf(
                        *ram,
                        s0.root as int,
                        q,
                    ) == mapped_leaf(r0, s0.root as int, va, pa, perm, i as int, q) by {
                        assert(self.leaf(*ram, q) == s1.leaf(r1, q));
                        assert(leaf(r1, s0.root as int, q) == mapped_leaf(
                            r0,
                            s0.root as int,
                            va,
                            pa,
                            perm,
                            i as int,
                            q,
                        ));
                    }
                }
                return Err("out of frames for page tables");
            }
            assert(mapped_upto(r0, *ram, s0.root as int, va, pa, perm, i + 1)) by {
                assert forall|q: Path| path_ok(q) implies #[trigger] leaf(*ram, s0.root as int, q)
                    == mapped_leaf(r0, s0.root as int, va, pa, perm, i + 1, q) by {
                    assert(self.leaf(*ram, q) == (if q == path_of((va + i * 4096) as u64) {
                        Some(page_descriptor((pa + i * 4096) as u64, perm))
                    } else {
                        s1.leaf(r1, q)
                    }));
                    assert(leaf(r1, s0.root as int, q) == mapped_leaf(
                        r0,
                        s0.root as int,
                        va,
                        pa,
                        perm,
                        i as int,
                        q,
                    ));
                }
            }
            i = i + 1;
        }
        Ok(())
    }
}

/// Whether `q` is the path of one of the `n` pages from `va` on.
pub open spec fn on_pages(va: u64, n: int, q: Path) -> bool {
    exists|i: int| 0 <= i < n && q == #[trigger] path_of((va + i * 4096) as u64)
}

/// The walks of `r1` are those of `r0` with the `n` pages from `va` on unmapped.
pub open spec fn unmapped_upto(r0: Ram, r1: Ram, root: int, va: u64, n: int) -> bool {
    forall|q: Path|
        path_ok(q) ==> #[trigger] leaf(r1, root, q) == (if on_pages(va, n, q) {
            None
        } else {
            leaf(r0, root, q)
        })
}

/// Unmapping keeps the space and touches nothing but its tables.
pub proof fn unmapping_keeps_the_space(s: AddressSpace, r0: Ram, r1: Ram, f: Frames)
    requires
        s.wf(r0, f),
        r1.base == r0.base,
        r1.bytes@.len() == r0.bytes@.len(),
        tree(r1, s.root as int, s.tables@),
        kept_outside_tables(r0, r1, s.tables@),
    ensures
        grew(s, r0, f, s, r1, f),
        kept(s, r0, s, r1),
{
    assert(s.owned@.take(s.owned@.len() as int) =~= s.owned@);
}

impl AddressSpace {
    fn unmap_page(&self, ram: &mut Ram, va: u64)
        requires
            tree(*old(ram), self.root as int, self.tables@),
        ensures
            tree(*final(ram), self.root as int, self.tables@),
            final(ram).base == old(ram).base,
            final(ram).bytes@.len() == old(ram).bytes@.len(),
            kept_outside_tables(*old(ram), *final(ram), self.tables@),
            forall|q: Path|
                path_ok(q) ==> #[trigger] self.leaf(*final(ram), q) == (if q == path_of(va) {
                    None
                } else {
                    self.leaf(*old(ram), q)
                }),
    {
        let ghost r0 = *ram;
        let ghost p = path_of(va);
        proof {
            paths_are_in_range(va);
        }
        let mut table: u64 = self.root;
        let mut level: usize = 0;
        while level < 3
            invariant
                level <= 3,
                r0 == *old(ram),
                *ram == r0,
                p == path_of(va),
                path_ok(p),
                tree(r0, self.root as int, self.tables@),
                table_at(r0, self.root as int, level as int, p) == Some(table as int),
            decreases 3 - level,
        {
            let i = index(va, level);
            proof {
                lemma_table_held(*self, r0, level as int, p, table);
            }
            let e = ram.read_u64(table + 8 * i);
            if e & PTE_VALID == 0 {
                proof {
                    lemma_dead_end(r0, self.root as int, level as int, 3, p);
                }
                return ;
            }
            table = e & ADDR_MASK;
            assert(table_at(r0, self.root as int, level + 1, p) == Some(table as int));
            level = level + 1;
        }
        let i3 = index(va, 3);
        proof {
            lemma_table_held(*self, r0, 3, p, table);
        }
        ram.write_u64(table + 8 * i3, 0);
        proof {
            lemma_mask_facts(0, 0);
            lemma_word_write_keeps_words(r0, *ram, self.tables@, table, p.i3);
            lemma_leaf_written(r0, *ram, self.root as int, self.tables@, p, table as int, 0);
            assert forall|q: int| r0.holds(q, 1) && !in_pages(self.tables@, q) implies
                #[trigger] ram.byte(q) == r0.byte(q) by {
                if table + 8 * p.i3 <= q < table + 8 * p.i3 + 8 {
                    let k = choose|k: int| 0 <= k < self.tables@.len() && self.tables@[k] == table;
                    assert(self.tables@[k] <= q < self.tables@[k] + 4096);
                }
            }
        }
    }

    /// Take `pages` pages from `va` on out of the space. The frames behind them
    /// stay with whoever they belong to; the caller drops the TLB entries.
    pub fn unmap(&self, ram: &mut Ram, va: u64, pages: u64)
        requires
            tree(*old(ram), self.root as int, self.tables@),
            va + pages * 4096 <= u64::MAX,
        ensures
            tree(*final(ram), self.root as int, self.tables@),
            final(ram).base == old(ram).base,
            final(ram).bytes@.len() == old(ram).bytes@.len(),
            kept_outside_tables(*old(ram), *final(ram), self.tables@),
            unmapped_upto(*old(ram), *final(ram), self.root as int, va, pages as int),
    {
        let ghost r0 = *ram;
        let ghost root = self.root as int;
        let mut i: u64 = 0;
        while i < pages
            invariant
                i <= pages,
                r0 == *old(ram),
                root == self.root,
                va + pages * 4096 <= u64::MAX,
                tree(*ram, root, self.tables@),
                ram.base == r0.base,
                ram.bytes@.len() == r0.bytes@.len(),
                kept_outside_tables(r0, *ram, self.tables@),
                unmapped_upto(r0, *ram, root, va, i as int),
            decreases pages - i,
        {
            let ghost r1 = *ram;
            let ghost w = (va + i * 4096) as u64;
            self.unmap_page(ram, va + i * PAGE_SIZE);
            proof {
                assert forall|q: Path| path_ok(q) implies #[trigger] leaf(*ram, root, q) == (
                if on_pages(va, i + 1, q) {
                    None
                } else {
                    leaf(r0, root, q)
                }) by {
                    assert(self.leaf(*ram, q) == (if q == path_of(w) {
                        None
                    } else {
                        self.leaf(r1, q)
                    }));
                    assert(leaf(r1, root, q) == (if on_pages(va, i as int, q) {
                        None
                    } else {
                        leaf(r0, root, q)
                    }));
                    if q == path_of(w) {
                        assert(on_pages(va, i + 1, q));
                    } else if on_pages(va, i + 1, q) {
                        let k = choose|k: int|
                            0 <= k < i + 1 && q == #[trigger] path_of((va + k * 4096) as u64);
                        assert(k < i);
                        assert(on_pages(va, i as int, q));
                    } else if on_pages(va, i as int, q) {
                        let k = choose|k: int|
                            0 <= k < i && q == #[trigger] path_of((va + k * 4096) as u64);
                        assert(on_pages(va, i + 1, q));
                    }
                }
            }
            i = i + 1;
        }
    }
}

/// The walks of `r1` are those of `r0` with `n` pages mapped.
pub open spec fn mapped_upto(
    r0: Ram,
    r1: Ram,
    root: int,
    va: u64,
    pa: u64,
    perm: Perm,
    n: int,
) -> bool {
    forall|q: Path|
        path_ok(q) ==> #[trigger] leaf(r1, root, q) == mapped_leaf(r0, root, va, pa, perm, n, q)
}

/// What path `p` leads to once the frames `fs` back the pages from `va` on.
pub open spec fn backed_leaf(
    ram: Ram,
    root: int,
    va: u64,
    fs: Seq<u64>,
    perm: Perm,
    p: Path,
) -> Option<u64>
    decreases fs.len(),
{
    if fs.len() == 0 {
        leaf(ram, root, p)
    } else if p == path_of((va + (fs.len() - 1) * 4096) as u64) {
        Some(page_descriptor(fs.last(), perm))
    } else {
        backed_leaf(ram, root, va, fs.drop_last(), perm, p)
    }
}

/// Fresh zeroed frames `fs` back the pages from `va` on, and nothing else is
/// mapped differently.
pub open spec fn anonymous(
    s0: AddressSpace,
    r0: Ram,
    f0: Frames,
    s1: AddressSpace,
    r1: Ram,
    f1: Frames,
    va: u64,
    perm: Perm,
    fs: Seq<u64>,
) -> bool {
    &&& forall|q: Path|
        path_ok(q) ==> #[trigger] leaf(r1, s1.root as int, q) == backed_leaf(
            r0,
            s0.root as int,
            va,
            fs,
            perm,
            q,
        )
    &&& fs.no_duplicates()
    &&& forall|i: int|
        0 <= i < fs.len() ==> {
            &&& !f0.in_use(#[trigger] fs[i])
            &&& f1.in_use(fs[i])
            &&& !s1.tables@.contains(fs[i])
            &&& s1.owned@.contains(fs[i])
        }
    &&& forall|i: int, q: int|
        #![trigger fs[i], r1.byte(q)]
        0 <= i < fs.len() && fs[i] <= q < fs[i] + 4096 ==> r1.byte(q) == 0
}

/// A frame in use before that is no table keeps its bytes, and stays no table.
pub proof fn frames_in_use_are_kept(
    s0: AddressSpace,
    r0: Ram,
    f0: Frames,
    s1: AddressSpace,
    r1: Ram,
    f1: Frames,
    x: u64,
)
    requires
        s0.wf(r0, f0),
        grew(s0, r0, f0, s1, r1, f1),
        kept(s0, r0, s1, r1),
        f0.in_use(x),
        !s0.tables@.contains(x),
    ensures
        f1.in_use(x),
        !s1.tables@.contains(x),
        forall|q: int| x <= q < x + 4096 ==> #[trigger] r1.byte(q) == r0.byte(q),
{
    let gained = s1.owned@.skip(s0.owned@.len() as int);
    assert forall|q: int| x <= q < x + 4096 implies #[trigger] r1.byte(q) == r0.byte(q) by {
        assert(r0.holds(q, 1));
        assert(!in_pages(s0.tables@, q)) by {
            if in_pages(s0.tables@, q) {
                let k = choose|k: int|
                    0 <= k < s0.tables@.len() && (#[trigger] s0.tables@[k]) <= q < s0.tables@[k]
                        + 4096;
                assert(s0.tables@[k] == x);
                assert(s0.tables@.contains(x));
            }
        }
        assert(!in_pages(gained, q)) by {
            if in_pages(gained, q) {
                let k = choose|k: int|
                    0 <= k < gained.len() && (#[trigger] gained[k]) <= q < gained[k] + 4096;
                let y = s1.owned@[k + s0.owned@.len()];
                assert(f1.in_use(y));
                assert(y == x);
                assert(!f0.in_use(s1.owned@[k + s0.owned@.len()]));
            }
        }
    }
}

proof fn lemma_frame_taken(
    s1: AddressSpace,
    r1: Ram,
    f1: Frames,
    s2: AddressSpace,
    r2: Ram,
    f2: Frames,
    x: u64,
)
    requires
        s1.wf(r1, f1),
        crate::mm::frames::allocated_from(f1, f2),
        frames_in(f2, r2),
        x % 4096 == 0,
        r1.same_outside(r2, x as int, 4096),
        s2.root == s1.root,
        s2.asid == s1.asid,
        s2.owned@ == s1.owned@.push(x),
        s2.tables@ == s1.tables@,
        !f1.in_use(x),
        f2.in_use(x),
        forall|y: u64| y != x ==> #[trigger] f2.in_use(y) == f1.in_use(y),
        f2.available() == f1.available() - 1,
    ensures
        grew(s1, r1, f1, s2, r2, f2),
        kept(s1, r1, s2, r2),
        !s2.tables@.contains(x),
        forall|q: Path|
            path_ok(q) ==> #[trigger] leaf(r2, s2.root as int, q) == leaf(r1, s1.root as int, q),
{
    lemma_fresh_not_owned(s1, r1, f1, x);
    lemma_push_unique(s1.owned@, x);
    lemma_page_write_keeps_words(r1, r2, s1.tables@, x);
    lemma_tree_untouched(r1, r2, s1.root as int, s1.tables@);
    assert(s2.owned@.take(s1.owned@.len() as int) =~= s1.owned@);
    assert(s2.owned@[s1.owned@.len() as int] == x);
    assert forall|k: int| 0 <= k < s2.owned@.len() implies f2.in_use(#[trigger] s2.owned@[k]) by {
        if k < s1.owned@.len() {
            assert(f1.in_use(s1.owned@[k]));
        }
    }
    assert forall|k: int| 0 <= k < s2.tables@.len() implies s2.owned@.contains(
        #[trigger] s2.tables@[k],
    ) by {
        assert(s1.owned@.contains(s1.tables@[k]));
        let j = choose|j: int| 0 <= j < s1.owned@.len() && s1.owned@[j] == s1.tables@[k];
        assert(s2.owned@[j] == s2.tables@[k]);
    }
    let gained = s2.owned@.skip(s1.owned@.len() as int);
    assert(gained[0] == x);
    assert forall|q: int|
        r1.holds(q, 1) && !in_pages(s1.tables@, q) && !in_pages(gained, q) implies #[trigger] r2.byte(
        q,
    ) == r1.byte(q) by {
        if x <= q < x + 4096 {
            assert(gained[0] <= q < gained[0] + 4096);
        }
    }
}

impl AddressSpace {
    /// Allocate `pages` fresh zeroed frames and map them at `va`.
    ///
    /// Where memory runs out part way, the pages before stay mapped.
    pub fn map_anonymous(
        &mut self,
        frames: &mut Frames,
        ram: &mut Ram,
        va: u64,
        pages: u64,
        perm: Perm,
    ) -> (r: Result<(), &'static str>)
        requires
            old(self).wf(*old(ram), *old(frames)),
            va + pages * 4096 <= u64::MAX,
        ensures
            grew(*old(self), *old(ram), *old(frames), *final(self), *final(ram), *final(frames)),
            kept(*old(self), *old(ram), *final(self), *final(ram)),
            exists|fs: Seq<u64>|
                {
                    &&& #[trigger] anonymous(
                        *old(self),
                        *old(ram),
                        *old(frames),
                        *final(self),
                        *final(ram),
                        *final(frames),
                        va,
                        perm,
                        fs,
                    )
                    &&& match r {
                        Ok(_) => fs.len() == pages && final(self).owned@.len() <= old(
                            self,
                        ).owned@.len() + 4 * pages,
                        Err(e) => {
                            &&& fs.len() < pages
                            &&& final(self).owned@.len() <= old(self).owned@.len() + 4 * fs.len()
                                + 3
                            &&& {
                                ||| e == "out of frames" && final(frames).available() == 0
                                ||| e == "out of frames for page tables" && va % 4096 == 0
                                    && final(frames).available() == 0
                                ||| e == "unaligned mapping" && va % 4096 != 0
                            }
                        },
                    }
                },
    {
        let ghost s0 = *self;
        let ghost r0 = *ram;
        let ghost f0 = *frames;
        let ghost mut fs: Seq<u64> = Seq::empty();
        proof {
            standing_still_is_growth(s0, r0, f0);
        }
        let mut i: u64 = 0;
        assert(anonymous(s0, r0, f0, *self, *ram, *frames, va, perm, fs));
        while i < pages
            invariant
                i <= pages,
                s0 == *old(self),
                r0 == *old(ram),
                f0 == *old(frames),
                s0.wf(r0, f0),
                va + pages * 4096 <= u64::MAX,
                grew(s0, r0, f0, *self, *ram, *frames),
                kept(s0, r0, *self, *ram),
                self.owned@.len() <= s0.owned@.len() + 4 * i,
                fs.len() == i,
                anonymous(s0, r0, f0, *self, *ram, *frames, va, perm, fs),
            decreases pages - i,
        {
            let ghost s1 = *self;
            let ghost r1 = *ram;
            let ghost f1 = *frames;
            let got = alloc_frame(frames);
            proof {
                crate::mm::frames::a_frame_is_handed_out_once(f1, *frames);
            }
            let frame: u64 = match got {
                None => {
                    proof {
                        lemma_alloc_failed(s0, r0, f0, s1, r1, f1, *frames);
                        lemma_anonymous_keeps(
                            s0,
                            r0,
                            f0,
                            s1,
                            r1,
                            f1,
                            *self,
                            *ram,
                            *frames,
                            va,
                            perm,
                            fs,
                        );
                    }
                    return Err("out of frames");
                },
                Some(f) => f,
            };
            assert(frames.in_use(frame));
            ram.zero_page(frame);
            self.owned.push(frame);
            let ghost s2 = *self;
            let ghost r2 = *ram;
            let ghost f2 = *frames;
            proof {
                lemma_frame_taken(s1, r1, f1, s2, r2, f2, frame);
                growth_adds_up(s0, r0, f0, s1, r1, f1, s2, r2, f2);
                lemma_anonymous_keeps(s0, r0, f0, s1, r1, f1, s2, r2, f2, va, perm, fs);
            }
            let m = self.map(frames, ram, va + i * PAGE_SIZE, frame, 1, perm);
            proof {
                growth_adds_up(s0, r0, f0, s2, r2, f2, *self, *ram, *frames);
                frames_in_use_are_kept(s2, r2, f2, *self, *ram, *frames, frame);
            }
            match m {
                Err(e) => {
                    proof {
                        assert forall|q: Path| path_ok(q) implies #[trigger] leaf(
                            *ram,
                            s0.root as int,
                            q,
                        ) == leaf(r2, s0.root as int, q) by {
                            if va % 4096 == 0 {
                                let n = choose|n: int|
                                    {
                                        &&& 0 <= n <= 1
                                        &&& m == (if n == 1 {
                                            Ok::<(), &'static str>(())
                                        } else {
                                            Err("out of frames for page tables")
                                        })
                                        &&& n < 1 ==> frames.available() == 0
                                            && self.owned@.len() <= s2.owned@.len() + 3 * n + 2
                                        &&& #[trigger] mapped_upto(
                                            r2,
                                            *ram,
                                            s2.root as int,
                                            (va + i * 4096) as u64,
                                            frame,
                                            perm,
                                            n,
                                        )
                                    };
                                assert(n == 0);
                                assert(leaf(*ram, s0.root as int, q) == mapped_leaf(
                                    r2,
                                    s2.root as int,
                                    (va + i * 4096) as u64,
                                    frame,
                                    perm,
                                    0,
                                    q,
                                ));
                            }
                        }
                        lemma_anonymous_keeps(
                            s0,
                            r0,
                            f0,
                            s2,
                            r2,
                            f2,
                            *self,
                            *ram,
                            *frames,
                            va,
                            perm,
                            fs,
                        );
                    }
                    return Err(e);
                },
                Ok(_) => {},
            }
            proof {
                let page = (va + i * 4096) as u64;
                assert(s2.owned@[s1.owned@.len() as int] == frame);
                assert(mapped_upto(r2, *ram, s2.root as int, page, frame, perm, 1));
                lemma_anonymous_extends(
                    s0,
                    r0,
                    f0,
                    s2,
                    r2,
                    f2,
                    *self,
                    *ram,
                    *frames,
                    va,
                    perm,
                    fs,
                    frame,
                );
                fs = fs.push(frame);
            }
            i = i + 1;
        }
        Ok(())
    }

    /// Give every frame back. Nothing may use the space afterwards.
    pub fn release(self, frames: &mut Frames)
        requires
            old(frames).sound(),
            self.owned@.no_duplicates(),
            forall|k: int|
                0 <= k < self.owned@.len() ==> old(frames).in_use(#[trigger] self.owned@[k]),
        ensures
            final(frames).sound(),
            final(frames).free@ == old(frames).free@ + self.owned@,
            final(frames).start == old(frames).start,
            final(frames).bump == old(frames).bump,
            final(frames).end == old(frames).end,
            final(frames).total == old(frames).total,
            final(frames).reserved@ == old(frames).reserved@,
            final(frames).available() == old(frames).available() + self.owned@.len(),
            forall|x: u64| #[trigger]
                final(frames).in_use(x) == (old(frames).in_use(x) && !self.owned@.contains(x)),
    {
        let ghost f0 = *frames;
        let mut i: usize = 0;
        assert(self.owned@.take(0) =~= Seq::<u64>::empty());
        assert(f0.free@ + Seq::<u64>::empty() =~= f0.free@);
        while i < self.owned.len()
            invariant
                i <= self.owned@.len(),
                f0 == *old(frames),
                frames.sound(),
                self.owned@.no_duplicates(),
                forall|k: int|
                    0 <= k < self.owned@.len() ==> f0.in_use(#[trigger] self.owned@[k]),
                frames.free@ == f0.free@ + self.owned@.take(i as int),
                frames.start == f0.start,
                frames.bump == f0.bump,
                frames.end == f0.end,
                frames.total == f0.total,
                frames.reserved@ == f0.reserved@,
                frames.available() == f0.available() + i,
                forall|x: u64| #[trigger]
                    frames.in_use(x) == (f0.in_use(x) && !self.owned@.take(i as int).contains(x)),
            decreases self.owned@.len() - i,
        {
            let ghost f1 = *frames;
            let ghost x = self.owned@[i as int];
            proof {
                assert(f0.in_use(self.owned@[i as int]));
                let before = self.owned@.take(i as int);
                assert(!before.contains(x)) by {
                    if before.contains(x) {
                        let k = choose|k: int| 0 <= k < before.len() && before[k] == x;
                        assert(self.owned@[k] == x);
                    }
                }
                assert(f1.in_use(x));
            }
            free(frames, self.owned[i]);
            proof {
                crate::mm::frames::a_freed_frame_is_available_again(f1, *frames, x);
                let before = self.owned@.take(i as int);
                let after = self.owned@.take(i + 1);
                assert(after =~= before.push(x));
                assert(frames.free@ =~= f0.free@ + after);
                assert forall|y: u64| #[trigger] frames.in_use(y) == (f0.in_use(y)
                    && !after.contains(y)) by {
                    if y == x {
                        assert(after[i as int] == x);
                    } else {
                        assert(frames.in_use(y) == f1.in_use(y));
                        if before.contains(y) {
                            let k = choose|k: int| 0 <= k < before.len() && before[k] == y;
                            assert(after[k] == y);
                        }
                        if after.contains(y) {
                            let k = choose|k: int| 0 <= k < after.len() && after[k] == y;
                            assert(before[k] == y);
                        }
                    }
                }
            }
            i = i + 1;
        }
        assert(self.owned@.take(i as int) =~= self.owned@);
    }
}

proof fn lemma_anonymous_keeps(
    s0: AddressSpace,
    r0: Ram,
    f0: Frames,
    s1: AddressSpace,
    r1: Ram,
    f1: Frames,
    s2: AddressSpace,
    r2: Ram,
    f2: Frames,
    va: u64,
    perm: Perm,
    fs: Seq<u64>,
)
    requires
        s1.wf(r1, f1),
        anonymous(s0, r0, f0, s1, r1, f1, va, perm, fs),
        (grew(s1, r1, f1, s2, r2, f2) && kept(s1, r1, s2, r2)) || (s2 == s1 && r2 == r1 && forall|
            x: u64,
        | #[trigger] f2.in_use(x) == f1.in_use(x)),
        s2.root == s1.root,
        forall|q: Path|
            path_ok(q) ==> #[trigger] leaf(r2, s2.root as int, q) == leaf(r1, s1.root as int, q),
    ensures
        anonymous(s0, r0, f0, s2, r2, f2, va, perm, fs),
{
    if !(s2 == s1 && r2 == r1 && forall|x: u64| #[trigger] f2.in_use(x) == f1.in_use(x)) {
        assert forall|i: int| 0 <= i < fs.len() implies {
            &&& !f0.in_use(#[trigger] fs[i])
            &&& f2.in_use(fs[i])
            &&& !s2.tables@.contains(fs[i])
            &&& s2.owned@.contains(fs[i])
        } by {
            frames_in_use_are_kept(s1, r1, f1, s2, r2, f2, fs[i]);
            let j = choose|j: int| 0 <= j < s1.owned@.len() && s1.owned@[j] == fs[i];
            assert(s2.owned@.take(s1.owned@.len() as int)[j] == s2.owned@[j]);
            assert(s2.owned@[j] == fs[i]);
        }
        assert forall|i: int, q: int|
            #![trigger fs[i], r2.byte(q)]
            0 <= i < fs.len() && fs[i] <= q < fs[i] + 4096 implies r2.byte(q) == 0 by {
            frames_in_use_are_kept(s1, r1, f1, s2, r2, f2, fs[i]);
            assert(r1.byte(q) == 0);
        }
    }
}

proof fn lemma_anonymous_extends(
    s0: AddressSpace,
    r0: Ram,
    f0: Frames,
    s2: AddressSpace,
    r2: Ram,
    f2: Frames,
    s3: AddressSpace,
    r3: Ram,
    f3: Frames,
    va: u64,
    perm: Perm,
    fs: Seq<u64>,
    x: u64,
)
    requires
        s2.wf(r2, f2),
        anonymous(s0, r0, f0, s2, r2, f2, va, perm, fs),
        grew(s2, r2, f2, s3, r3, f3),
        kept(s2, r2, s3, r3),
        s0.root == s2.root,
        !f0.in_use(x),
        !fs.contains(x),
        f2.in_use(x),
        s2.owned@.contains(x),
        !s2.tables@.contains(x),
        forall|q: int| x <= q < x + 4096 ==> #[trigger] r2.byte(q) == 0,
        mapped_upto(r2, r3, s2.root as int, (va + fs.len() * 4096) as u64, x, perm, 1),
    ensures
        anonymous(s0, r0, f0, s3, r3, f3, va, perm, fs.push(x)),
{
    let more = fs.push(x);
    let page = (va + fs.len() * 4096) as u64;
    assert(more.drop_last() =~= fs);
    assert forall|q: Path| path_ok(q) implies #[trigger] leaf(r3, s3.root as int, q) == backed_leaf(
        r0,
        s0.root as int,
        va,
        more,
        perm,
        q,
    ) by {
        assert(leaf(r3, s2.root as int, q) == mapped_leaf(
            r2,
            s2.root as int,
            page,
            x,
            perm,
            1,
            q,
        ));
        assert(mapped_leaf(r2, s2.root as int, page, x, perm, 0, q) == leaf(
            r2,
            s2.root as int,
            q,
        ));
        assert((page + 0 * 4096) as u64 == page && (x + 0 * 4096) as u64 == x);
    }
    assert forall|i: int| 0 <= i < more.len() implies {
        &&& !f0.in_use(#[trigger] more[i])
        &&& f3.in_use(more[i])
        &&& !s3.tables@.contains(more[i])
        &&& s3.owned@.contains(more[i])
    } by {
        let y = more[i];
        if i < fs.len() {
            assert(y == fs[i]);
        }
        frames_in_use_are_kept(s2, r2, f2, s3, r3, f3, y);
        let j = choose|j: int| 0 <= j < s2.owned@.len() && s2.owned@[j] == y;
        assert(s3.owned@.take(s2.owned@.len() as int)[j] == s3.owned@[j]);
        assert(s3.owned@[j] == y);
    }
    assert forall|i: int, q: int|
        #![trigger more[i], r3.byte(q)]
        0 <= i < more.len() && more[i] <= q < more[i] + 4096 implies r3.byte(q) == 0 by {
        let y = more[i];
        if i < fs.len() {
            assert(y == fs[i]);
            assert(r2.byte(q) == 0);
        }
        frames_in_use_are_kept(s2, r2, f2, s3, r3, f3, y);
    }
    assert(more.no_duplicates()) by {
        assert forall|i: int, j: int| 0 <= i < more.len() && 0 <= j < more.len() && i != j implies more[i]
            != more[j] by {
            if i == fs.len() && more[j] == x {
                assert(fs[j] == x);
            }
            if j == fs.len() && more[i] == x {
                assert(fs[i] == x);
            }
        }
    }
}

/// Build the empty user space: the TTBR0 value that maps nothing, so a stray low
/// access is a translation fault rather than whatever the last process mapped.
pub fn init(frames: &mut Frames, ram: &mut Ram) -> (r: Result<u64, &'static str>)
    requires
        frames_in(*old(frames), *old(ram)),
    ensures
        frames_in(*final(frames), *final(ram)),
        crate::mm::frames::allocated_from(*old(frames), *final(frames)),
        r == (match crate::mm::frames::alloc_outcome(*old(frames)).0 {
            Some(root) => Ok(root),
            None => Err("no frame for the empty address space"),
        }),
        r matches Ok(root) ==> forall|va: u64| #[trigger]
            translation(*final(ram), root as int, va) is None,
        r matches Ok(root) ==> old(ram).same_outside(*final(ram), root as int, 4096),
{
    match alloc_table(frames, ram) {
        None => Err("no frame for the empty address space"),
        Some(root) => {
            proof {
                assert forall|j: int| 0 <= j < 512 implies #[trigger] ram.word(root + 8 * j)
                    == 0 by {
                    crate::mm::ram::zero_bytes_are_a_zero_word(*ram, root + 8 * j);
                }
                assert forall|va: u64| #[trigger] translation(*ram, root as int, va) is None by {
                    paths_are_in_range(va);
                    lemma_empty_root(*ram, root as int, 3, path_of(va));
                }
            }
            Ok(root)
        },
    }
}

} // verus!
