//! What is read from a device tree, said of its bytes.
use vstd::prelude::*;
use crate::bytes_laws::big;
use crate::dtb::{EventView, FdtView, Seen, WalkerView};

verus! {

/// The word at byte `at`.
pub open spec fn word(b: Seq<u8>, at: int) -> int {
    big(b.subrange(at, at + 4))
}

proof fn lemma_word(b: Seq<u8>, at: int)
    requires
        0 <= at,
        at + 4 <= b.len(),
    ensures
        crate::bytes::be32(b, at) == word(b, at),
{
    crate::bytes_laws::integers_are_what_their_bytes_say(b, at);
}

/// A blob is a device tree exactly if it is somewhere, at a multiple of eight, has room for the
/// header and begins with the mark; the header says how large it is and where its parts are.
pub proof fn a_tree_says_where_its_parts_are(addr: u64, b: Seq<u8>)
    requires
        b.len() >= 40,
    ensures
        crate::dtb::is_fdt(addr, b) <==> addr > 0 && addr % 8 == 0 && word(b, 0) == 0xd00d_feed,
        ({
            let f = crate::dtb::header_in(b);
            &&& f.b == b
            &&& f.total_size == word(b, 4)
            &&& f.struct_off == word(b, 8)
            &&& f.strings_off == word(b, 12)
            &&& f.struct_size == word(b, 36)
        }),
{
    lemma_word(b, 0);
    lemma_word(b, 4);
    lemma_word(b, 8);
    lemma_word(b, 12);
    lemma_word(b, 36);
}

/// Whether a string of `n` bytes and the zero that ends it stand at `at`.
pub open spec fn string_stands(b: Seq<u8>, at: int, n: int) -> bool {
    &&& 0 <= at
    &&& 0 <= n
    &&& at + n < b.len()
    &&& b[at + n] == 0
    &&& forall|k: int| at <= k < at + n ==> #[trigger] b[k] != 0
}

proof fn lemma_nul(b: Seq<u8>, at: int, i: int, n: int)
    requires
        string_stands(b, at, n),
        at <= i <= at + n,
    ensures
        crate::dtb::nul_from(b, i) == Some(at + n),
    decreases at + n - i,
{
    if i < at + n {
        lemma_nul(b, at, i + 1, n);
    }
}

/// A string goes up to the first zero byte.
pub proof fn a_string_ends_at_the_first_zero(b: Seq<u8>, at: int, n: int)
    requires
        string_stands(b, at, n),
    ensures
        crate::dtb::string_at(b, at) == Some(
            (crate::dtb::text_or_mark(b.subrange(at, at + n)), n + 1),
        ),
{
    lemma_nul(b, at, at, n);
}

/// The walk is at a word of the structure block.
pub open spec fn at_word(f: FdtView, w: WalkerView) -> bool {
    &&& 0 <= w.pos
    &&& w.pos + 4 <= f.struct_size
    &&& f.struct_off + w.pos + 4 <= f.b.len()
}

/// A node begins with the word 1 and its name: the walk is then one deeper, in a node of that
/// name, at the first whole word behind it.
pub proof fn a_node_begins(f: FdtView, w: WalkerView, n: int)
    requires
        at_word(f, w),
        word(f.b, f.struct_off + w.pos) == 1,
        string_stands(f.b, f.struct_off + w.pos + 4, n),
    ensures
        ({
            let (e, w2) = crate::dtb::next_of(f, w);
            let at = f.struct_off + w.pos + 4;
            let skipped = w2.pos - w.pos - 4;
            &&& e == Some(EventView::BeginNode { depth: w.depth + 1 })
            &&& w2.depth == w.depth + 1
            &&& w2.node == crate::dtb::text_or_mark(f.b.subrange(at, at + n))
            &&& skipped % 4 == 0 && n + 1 <= skipped < n + 5
        }),
{
    lemma_word(f.b, f.struct_off + w.pos);
    a_string_ends_at_the_first_zero(f.b, f.struct_off + w.pos + 4, n);
}

/// A node ends with the word 2: the walk is one less deep, at the next word.
pub proof fn a_node_ends(f: FdtView, w: WalkerView)
    requires
        at_word(f, w),
        word(f.b, f.struct_off + w.pos) == 2,
    ensures
        ({
            let (e, w2) = crate::dtb::next_of(f, w);
            &&& e == Some(EventView::EndNode)
            &&& w.depth > 0 ==> w2.depth == w.depth - 1
            &&& w.depth == 0 ==> w2.depth == 0
            &&& w2.node == w.node
            &&& w2.pos == w.pos + 4
        }),
{
    lemma_word(f.b, f.struct_off + w.pos);
}

/// A property is the word 3, the length of its value, where its name is among the strings, and
/// the value: all of it is given, and the walk is at the first whole word behind it.
pub proof fn a_property_is_given_whole(f: FdtView, w: WalkerView, n: int)
    requires
        at_word(f, w),
        word(f.b, f.struct_off + w.pos) == 3,
        f.struct_off + w.pos + 12 + word(f.b, f.struct_off + w.pos + 4) <= f.b.len(),
        string_stands(f.b, f.strings_off + word(f.b, f.struct_off + w.pos + 8), n),
    ensures
        ({
            let (e, w2) = crate::dtb::next_of(f, w);
            let at = f.struct_off + w.pos;
            let len = word(f.b, at + 4);
            let name = f.strings_off + word(f.b, at + 8);
            let skipped = w2.pos - w.pos - 12;
            &&& e == Some(
                EventView::Prop {
                    depth: w.depth,
                    name: crate::dtb::text_or_mark(f.b.subrange(name, name + n)),
                    value: f.b.subrange(at + 12, at + 12 + len),
                },
            )
            &&& w2.depth == w.depth && w2.node == w.node
            &&& skipped % 4 == 0 && len <= skipped < len + 4
        }),
{
    let at = f.struct_off + w.pos;
    lemma_word(f.b, at);
    assert(0 <= word(f.b, at + 4)) by {
        crate::bytes_laws::big_is_not_negative(f.b.subrange(at + 4, at + 8));
    }
    lemma_word(f.b, at + 4);
    lemma_word(f.b, at + 8);
    a_string_ends_at_the_first_zero(f.b, f.strings_off + word(f.b, at + 8), n);
}

/// The word 4 says nothing: the walk goes on behind it.
pub proof fn a_gap_is_passed_over(f: FdtView, w: WalkerView)
    requires
        at_word(f, w),
        word(f.b, f.struct_off + w.pos) == 4,
    ensures
        crate::dtb::next_of(f, w) == crate::dtb::next_of(
            f,
            WalkerView { pos: w.pos + 4, depth: w.depth, node: w.node },
        ),
{
    lemma_word(f.b, f.struct_off + w.pos);
}

/// Any other word ends the walk, and so does the end of the structure block or of the blob.
pub proof fn anything_else_ends_the_walk(f: FdtView, w: WalkerView)
    requires
        !at_word(f, w) || word(f.b, f.struct_off + w.pos) == 0 || word(
            f.b,
            f.struct_off + w.pos,
        ) > 4,
    ensures
        crate::dtb::next_of(f, w).0 is None,
{
    if at_word(f, w) {
        lemma_word(f.b, f.struct_off + w.pos);
    }
}

// ---- numbers --------------------------------------------------------------------------------

proof fn lemma_two_words(rest: u64, high: u64, low: u64)
    by (bit_vector)
    requires
        high < 0x1_0000_0000,
        low < 0x1_0000_0000,
    ensures
        (high << 32) | low == high * 0x1_0000_0000 + low,
        (0u64 << 32) | low == low,
        (((rest << 32) | high) << 32) | low == (high << 32) | low,
{
}

/// One cell says the number that its four bytes say, two cells the number that their eight
/// bytes say, and no cell says 0. Of more cells the last two count.
pub proof fn cells_say_their_number(v: Seq<u8>, at: int, n: int)
    requires
        0 <= at,
        2 <= n,
        at + 4 * n <= v.len(),
    ensures
        crate::dtb::cells_at(v, at, 0) == 0,
        crate::dtb::cells_at(v, at, 1) == word(v, at),
        crate::dtb::cells_at(v, at, n) == word(v, at + 4 * (n - 2)) * 0x1_0000_0000 + word(
            v,
            at + 4 * (n - 1),
        ),
{
    reveal_with_fuel(crate::dtb::cells_at, 3);
    let high = crate::bytes::be32(v, at + 4 * (n - 2));
    let low = crate::bytes::be32(v, at + 4 * (n - 1));
    lemma_word(v, at);
    lemma_word(v, at + 4 * (n - 2));
    lemma_word(v, at + 4 * (n - 1));
    lemma_two_words(crate::dtb::cells_at(v, at, n - 2), high as u64, low as u64);
    lemma_two_words(0, 0, crate::bytes::be32(v, at) as u64);
}

/// A `reg` property lists address and size, entry by entry, for as long as a whole entry is
/// there; an entry of size 0 is left out, and the order stays.
pub proof fn regions_are_listed_entry_by_entry(
    v: Seq<u8>,
    cursor: int,
    addr_cells: int,
    size_cells: int,
)
    requires
        0 <= cursor,
        0 <= addr_cells,
        0 <= size_cells,
        addr_cells + size_cells > 0,
    ensures
        ({
            let stride = 4 * addr_cells + 4 * size_cells;
            let here = crate::dtb::regions_from(v, cursor, addr_cells, size_cells);
            let rest = crate::dtb::regions_from(v, cursor + stride, addr_cells, size_cells);
            let base = crate::dtb::cells_at(v, cursor, addr_cells);
            let size = crate::dtb::cells_at(v, cursor + 4 * addr_cells, size_cells);
            &&& cursor + stride > v.len() ==> here.len() == 0
            &&& cursor + stride <= v.len() && size == 0 ==> here == rest
            &&& cursor + stride <= v.len() && size > 0 ==> here.len() == rest.len() + 1 && here[0]
                == (base, size) && here.skip(1) == rest
        }),
{
    let stride = 4 * addr_cells + 4 * size_cells;
    let here = crate::dtb::regions_from(v, cursor, addr_cells, size_cells);
    let rest = crate::dtb::regions_from(v, cursor + stride, addr_cells, size_cells);
    assert((addr_cells + size_cells) * 4 == stride);
    if cursor + stride <= v.len() && crate::dtb::cells_at(
        v,
        cursor + 4 * addr_cells,
        size_cells,
    ) > 0 {
        assert(here.skip(1) =~= rest);
    }
}

/// The first interrupt a device names is its number among the shared ones, which follow the
/// first 32, or among the private ones, which follow the first 16.
pub proof fn interrupts_are_numbered_by_their_kind(v: Seq<u8>)
    requires
        v.len() >= 8,
    ensures
        word(v, 0) == 0 && word(v, 4) <= u32::MAX - 32 ==> crate::dtb::line_in(v) == word(v, 4)
            + 32,
        word(v, 0) != 0 && word(v, 4) <= u32::MAX - 16 ==> crate::dtb::line_in(v) == word(v, 4)
            + 16,
{
    lemma_word(v, 0);
    lemma_word(v, 4);
}

// ---- nodes ----------------------------------------------------------------------------------

/// Memory is what the `reg` properties of the nodes under the root say that are called `memory`,
/// alone or with an address: each of their regions is reported, in order, under the numbers of
/// cells that the root has given by then; no other property adds any.
pub proof fn memory_is_what_memory_nodes_say(
    f: FdtView,
    w: WalkerView,
    addr_cells: int,
    size_cells: int,
)
    requires
        0 <= w.depth <= w.pos,
    ensures
        ({
            let (e, w2) = crate::dtb::next_of(f, w);
            let here = crate::dtb::memory_from(f, w, addr_cells, size_cells);
            match e {
                None => here.len() == 0,
                Some(EventView::Prop { depth, name, value }) => {
                    let named = w2.node == "memory"@ || (w2.node.len() >= 7 && w2.node.subrange(
                        0,
                        7,
                    ) == "memory@"@);
                    let a = if depth == 1 && name == "#address-cells"@ && value.len() >= 4 {
                        word(value, 0)
                    } else {
                        addr_cells
                    };
                    let s = if depth == 1 && name == "#size-cells"@ && value.len() >= 4 {
                        word(value, 0)
                    } else {
                        size_cells
                    };
                    here == (if w2.depth == 2 && named && name == "reg"@ {
                        crate::dtb::regions_from(value, 0, addr_cells, size_cells)
                    } else {
                        Seq::empty()
                    }) + crate::dtb::memory_from(f, w2, a, s)
                },
                Some(_) => here == crate::dtb::memory_from(f, w2, addr_cells, size_cells),
            }
        }),
{
    crate::dtb::a_walk_moves_on(f, w);
    reveal_strlit("memory@");
    let (e, w2) = crate::dtb::next_of(f, w);
    match e {
        Some(EventView::Prop { depth, name, value }) => {
            if value.len() >= 4 {
                lemma_word(value, 0);
            }
            if w2.node.len() >= 7 {
                assert(w2.node.take(7) =~= w2.node.subrange(0, 7));
            }
            let rest = crate::dtb::memory_from(
                f,
                w2,
                crate::dtb::cells_after(e->0, "#address-cells"@, addr_cells),
                crate::dtb::cells_after(e->0, "#size-cells"@, size_cells),
            );
            assert(Seq::<(u64, u64)>::empty() + rest =~= rest);
        },
        _ => {},
    }
}

/// A node gives the property that is wanted of it exactly if it has one and the property it is
/// looked for by names the text: whichever of the two comes first, and whatever else stands
/// between them.
pub proof fn a_node_gives_what_is_wanted_of_it(
    key: Seq<char>,
    text: Seq<u8>,
    want: Seq<char>,
    k: Seq<u8>,
    v: Seq<u8>,
    other: Seq<char>,
    x: Seq<u8>,
)
    requires
        key != want,
        other != key,
        other != want,
    ensures
        ({
            let none = crate::dtb::nothing_seen();
            let a = crate::dtb::seeing(none, key, k, key, text, want);
            let b = crate::dtb::seeing(none, want, v, key, text, want);
            let ax = crate::dtb::seeing(a, other, x, key, text, want);
            let bx = crate::dtb::seeing(b, other, x, key, text, want);
            let axb = crate::dtb::seeing(ax, want, v, key, text, want);
            let bxa = crate::dtb::seeing(bx, key, k, key, text, want);
            &&& crate::dtb::closing(none).len() == 0
            &&& crate::dtb::closing(a).len() == 0
            &&& crate::dtb::closing(b).len() == 0
            &&& ax == a && bx == b && axb == bxa
            &&& crate::dtb::closing(axb) == if crate::dtb::names(k, text) {
                seq![v]
            } else {
                Seq::empty()
            }
        }),
{
}

/// What nodes give comes in the order of the tree: what a node gives when it is over, before
/// what those behind it give.
pub proof fn nodes_give_in_the_order_of_the_tree(
    f: FdtView,
    w: WalkerView,
    n: Seen,
    key: Seq<char>,
    text: Seq<u8>,
    want: Seq<char>,
)
    requires
        0 <= w.depth <= w.pos,
    ensures
        ({
            let (e, w2) = crate::dtb::next_of(f, w);
            let here = crate::dtb::nodes_from(f, w, n, key, text, want);
            &&& e is None ==> here == crate::dtb::closing(n)
            &&& e is Some && !(e->0 is Prop) ==> here == crate::dtb::closing(n)
                + crate::dtb::nodes_from(f, w2, crate::dtb::nothing_seen(), key, text, want)
            &&& e matches Some(EventView::Prop { depth, name, value }) ==> here
                == crate::dtb::nodes_from(
                f,
                w2,
                crate::dtb::seeing(n, name, value, key, text, want),
                key,
                text,
                want,
            )
        }),
{
    crate::dtb::a_walk_moves_on(f, w);
}

/// A property of the root is found only among its own, which come before the nodes inside it:
/// the first of that name.
pub proof fn the_roots_properties_come_first(f: FdtView, w: WalkerView, want: Seq<char>)
    requires
        0 <= w.depth <= w.pos,
    ensures
        ({
            let (e, w2) = crate::dtb::next_of(f, w);
            let here = crate::dtb::root_prop_from(f, w, want);
            let rest = crate::dtb::root_prop_from(f, w2, want);
            match e {
                None => here is None,
                Some(EventView::Prop { depth, name, value }) => here == if depth == 1 && name
                    == want {
                    Some(value)
                } else {
                    rest
                },
                Some(EventView::BeginNode { depth }) => if depth == 2 {
                    here is None
                } else {
                    here == rest
                },
                Some(EventView::EndNode) => here == rest,
            }
        }),
{
    crate::dtb::a_walk_moves_on(f, w);
}

/// A device is where its first region is, on the line that its first interrupt names; a node
/// without either is no device.
pub proof fn a_device_is_where_its_node_says(
    f: FdtView,
    regs: Seq<Seq<u8>>,
    interrupts: Seq<Seq<u8>>,
    n: int,
)
    requires
        0 <= n < regs.len(),
        n < interrupts.len(),
    ensures
        ({
            let before = crate::dtb::devices_upto(f, regs, interrupts, n);
            let after = crate::dtb::devices_upto(f, regs, interrupts, n + 1);
            let r = crate::dtb::regs_in(f, regs[n]);
            if r.len() == 0 || interrupts[n].len() < 8 {
                after == before
            } else {
                &&& after.len() == before.len() + 1
                &&& after.drop_last() == before
                &&& after.last().base == r[0].0
                &&& after.last().irq == crate::dtb::line_in(interrupts[n])
            }
        }),
{
    let before = crate::dtb::devices_upto(f, regs, interrupts, n);
    let after = crate::dtb::devices_upto(f, regs, interrupts, n + 1);
    if crate::dtb::device_in(f, regs[n], interrupts[n]) is Some {
        assert(after.drop_last() =~= before);
    }
}

} // verus!
