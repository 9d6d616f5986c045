//! Minimal flattened-device-tree (FDT / DTB) reader.
//!
//! The kernel refuses to hardcode board layout: RAM ranges, the UART base and the
//! interrupt controller all come from here. This is a read-only parser over the
//! blob the bootloader handed us. What the structure block says is a sequence of
//! events, which [`next_of`] defines; everything else is defined over them. A blob
//! that says to look outside itself ends the walk there.
use vstd::prelude::*;
use vstd::slice::slice_subrange;
use vstd::string::StrSliceExecFns;
use crate::bytes::{from_utf8, get_be32, same_bytes, same_text};
use crate::devices::DeviceNode;

verus! {

pub const FDT_MAGIC: u32 = 0xd00d_feed;

pub const FDT_BEGIN_NODE: u32 = 1;

pub const FDT_END_NODE: u32 = 2;

pub const FDT_PROP: u32 = 3;

pub const FDT_NOP: u32 = 4;

pub const FDT_END: u32 = 9;

/// Bytes of header that are read.
pub const HEADER_BYTES: usize = 40;

/// Rounded up to a whole number of words.
pub open spec fn aligned(n: int) -> int {
    (n + 3) / 4 * 4
}

pub fn align4(n: u64) -> (r: u64)
    requires
        n + 3 <= u64::MAX,
    ensures
        r == aligned(n as int),
{
    (n + 3) / 4 * 4
}

/// A device tree as a mathematical value.
pub struct FdtView {
    pub b: Seq<u8>,
    pub struct_off: u32,
    pub struct_size: u32,
    pub strings_off: u32,
    pub total_size: u32,
}

pub struct Fdt<'a> {
    pub blob: &'a [u8],
    pub struct_off: u32,
    pub struct_size: u32,
    pub strings_off: u32,
    pub total_size: u32,
}

impl<'a> View for Fdt<'a> {
    type V = FdtView;

    open spec fn view(&self) -> FdtView {
        FdtView {
            b: self.blob@,
            struct_off: self.struct_off,
            struct_size: self.struct_size,
            strings_off: self.strings_off,
            total_size: self.total_size,
        }
    }
}

impl<'a> Fdt<'a> {
    /// A device tree's size is a 32-bit number.
    pub open spec fn wf(&self) -> bool {
        self.blob@.len() <= 0xFFFF_FFFF
    }
}

/// Whether a blob at `addr` is a device tree.
pub open spec fn is_fdt(addr: u64, b: Seq<u8>) -> bool {
    addr != 0 && addr % 8 == 0 && b.len() >= HEADER_BYTES && crate::bytes::be32(b, 0) == FDT_MAGIC
}

/// The device tree that a blob's header describes.
pub open spec fn header_in(b: Seq<u8>) -> FdtView {
    FdtView {
        b,
        total_size: crate::bytes::be32(b, 4),
        struct_off: crate::bytes::be32(b, 8),
        strings_off: crate::bytes::be32(b, 12),
        struct_size: crate::bytes::be32(b, 36),
    }
}

/// The first zero byte at or after the `i`th.
pub open spec fn nul_from(b: Seq<u8>, i: int) -> Option<int>
    decreases b.len() - i,
{
    if i >= b.len() {
        None
    } else if b[i] == 0 {
        Some(i)
    } else {
        nul_from(b, i + 1)
    }
}

/// The text that bytes hold.
pub open spec fn text_or_mark(b: Seq<u8>) -> Seq<char> {
    match crate::bytes::text_of(b) {
        Some(t) => t,
        None => "<non-utf8>"@,
    }
}

/// The NUL-terminated string at `at`, and its length with the terminator.
pub open spec fn string_at(b: Seq<u8>, at: int) -> Option<(Seq<char>, int)> {
    match nul_from(b, at) {
        Some(e) => Some((text_or_mark(b.subrange(at, e)), e - at + 1)),
        None => None,
    }
}

/// Read a NUL-terminated string, giving it and its length with the terminator.
fn cstr<'a>(b: &'a [u8], at: usize) -> (r: Option<(&'a str, usize)>)
    requires
        at <= b@.len(),
    ensures
        match r {
            Some((s, n)) => string_at(b@, at as int) == Some((s@, n as int)) && at + n <= b@.len()
                && n >= 1,
            None => string_at(b@, at as int) is None,
        },
{
    let mut end = at;
    while end < b.len()
        invariant
            at <= end <= b@.len(),
            nul_from(b@, at as int) == nul_from(b@, end as int),
        decreases b@.len() - end,
    {
        if b[end] == 0 {
            let bytes = slice_subrange(b, at, end);
            let s = match from_utf8(bytes) {
                Some(s) => s,
                None => "<non-utf8>",
            };
            return Some((s, end - at + 1));
        }
        end = end + 1;
    }
    None
}

// ---- events -------------------------------------------------------------------------

#[verifier::ext_equal]
pub enum EventView {
    BeginNode { depth: int },
    EndNode,
    Prop { depth: int, name: Seq<char>, value: Seq<u8> },
}

pub enum Event<'a> {
    BeginNode { depth: u64 },
    EndNode,
    Prop { depth: u64, name: &'a str, value: &'a [u8] },
}

impl<'a> View for Event<'a> {
    type V = EventView;

    open spec fn view(&self) -> EventView {
        match *self {
            Event::BeginNode { depth } => EventView::BeginNode { depth: depth as int },
            Event::EndNode => EventView::EndNode,
            Event::Prop { depth, name, value } => EventView::Prop {
                depth: depth as int,
                name: name@,
                value: value@,
            },
        }
    }
}

/// Where a walk is: how far into the structure block, how deep, and the name of
/// the node begun last.
#[verifier::ext_equal]
pub struct WalkerView {
    pub pos: int,
    pub depth: int,
    pub node: Seq<char>,
}

/// Where every walk starts.
pub open spec fn at_start() -> WalkerView {
    WalkerView { pos: 0, depth: 0, node: ""@ }
}

/// How much of the structure block is left.
pub open spec fn left(f: FdtView, w: WalkerView) -> int {
    if w.pos >= f.struct_size {
        0
    } else {
        f.struct_size - w.pos
    }
}

/// The property whose header is at `at`.
pub open spec fn prop_at(f: FdtView, at: int, depth: int) -> Option<EventView> {
    let len = crate::bytes::be32(f.b, at);
    let name_off = crate::bytes::be32(f.b, at + 4);
    if at + 8 > f.b.len() || at + 8 + len > f.b.len() || f.strings_off + name_off > f.b.len() {
        None
    } else {
        match string_at(f.b, f.strings_off + name_off) {
            Some((name, _)) => Some(
                EventView::Prop { depth, name, value: f.b.subrange(at + 8, at + 8 + len) },
            ),
            None => None,
        }
    }
}

/// The next event of a walk, and where the walk is after it.
pub open spec fn next_of(f: FdtView, w: WalkerView) -> (Option<EventView>, WalkerView)
    decreases left(f, w),
{
    let at = f.struct_off + w.pos;
    let past = WalkerView { pos: w.pos + 4, ..w };
    if w.pos < 0 || w.pos + 4 > f.struct_size || at + 4 > f.b.len() {
        (None, w)
    } else {
        let token = crate::bytes::be32(f.b, at);
        if token == FDT_NOP {
            next_of(f, past)
        } else if token == FDT_BEGIN_NODE {
            match string_at(f.b, at + 4) {
                Some((name, n)) => (
                    Some(EventView::BeginNode { depth: w.depth + 1 }),
                    WalkerView { pos: w.pos + 4 + aligned(n), depth: w.depth + 1, node: name },
                ),
                None => (None, past),
            }
        } else if token == FDT_END_NODE {
            (
                Some(EventView::EndNode),
                WalkerView {
                    depth: if w.depth > 0 {
                        w.depth - 1
                    } else {
                        0
                    },
                    ..past
                },
            )
        } else if token == FDT_PROP {
            match prop_at(f, at + 4, w.depth) {
                Some(e) => (
                    Some(e),
                    WalkerView {
                        pos: w.pos + 12 + aligned(crate::bytes::be32(f.b, at + 4) as int),
                        ..w
                    },
                ),
                None => (None, past),
            }
        } else {
            // The end, or a corrupt blob.
            (None, past)
        }
    }
}

proof fn lemma_nul_from(b: Seq<u8>, i: int)
    requires
        0 <= i,
    ensures
        nul_from(b, i) matches Some(e) ==> i <= e < b.len() && b[e] == 0,
    decreases b.len() - i,
{
    if i < b.len() && b[i] != 0 {
        lemma_nul_from(b, i + 1);
    }
}

/// Every event moves the walk on.
pub proof fn a_walk_moves_on(f: FdtView, w: WalkerView)
    requires
        0 <= w.depth <= w.pos,
    ensures
        ({
            let (e, w2) = next_of(f, w);
            &&& e is Some ==> w2.pos >= w.pos + 4 && w.pos + 4 <= f.struct_size
            &&& e is Some ==> left(f, w2) < left(f, w)
            &&& 0 <= w2.depth <= w2.pos
        }),
    decreases left(f, w),
{
    let at = f.struct_off + w.pos;
    if !(w.pos + 4 > f.struct_size || at + 4 > f.b.len()) {
        let token = crate::bytes::be32(f.b, at);
        if token == FDT_NOP {
            a_walk_moves_on(f, WalkerView { pos: w.pos + 4, ..w });
        } else if token == FDT_BEGIN_NODE {
            lemma_nul_from(f.b, at + 4);
        }
    }
}

/// Linear token walker over the structure block.
pub struct Walker<'a> {
    pub pos: u64,
    pub depth: u64,
    pub node: &'a str,
}

impl<'a> View for Walker<'a> {
    type V = WalkerView;

    open spec fn view(&self) -> WalkerView {
        WalkerView { pos: self.pos as int, depth: self.depth as int, node: self.node@ }
    }
}

impl<'a> Walker<'a> {
    /// The walk has not left the numbers that positions can have.
    pub open spec fn wf(&self) -> bool {
        self.depth <= self.pos <= 0x4_0000_0000
    }

    pub fn new() -> (w: Walker<'a>)
        ensures
            w@ == at_start(),
            w.wf(),
    {
        Walker { pos: 0, depth: 0, node: "" }
    }

    pub fn next_event(&mut self, fdt: &Fdt<'a>) -> (r: Option<Event<'a>>)
        requires
            old(self).wf(),
            fdt.wf(),
        ensures
            final(self).wf(),
            final(self)@ == next_of(fdt@, old(self)@).1,
            match r {
                Some(e) => next_of(fdt@, old(self)@).0 == Some(e@),
                None => next_of(fdt@, old(self)@).0 is None,
            },
    {
        let ghost f = fdt@;
        let ghost w0 = self@;
        let size: usize = fdt.blob.len();
        let len: u64 = size as u64;
        loop
            invariant
                self.wf(),
                fdt.wf(),
                f == fdt@,
                size == fdt.blob@.len(),
                len == size,
                w0 == old(self)@,
                next_of(f, w0) == next_of(f, self@),
            decreases left(f, self@),
        {
            let at: u64 = fdt.struct_off as u64 + self.pos;
            if self.pos + 4 > fdt.struct_size as u64 || at + 4 > len {
                return None;
            }
            let ghost w = self@;
            let token = get_be32(fdt.blob, at as usize);
            self.pos = self.pos + 4;
            assert(self@ =~= (WalkerView { pos: w.pos + 4, ..w }));
            if token == FDT_NOP {
                continue ;
            }
            if token == FDT_BEGIN_NODE {
                match cstr(fdt.blob, (at + 4) as usize) {
                    None => {
                        return None;
                    },
                    Some((name, n)) => {
                        self.pos = self.pos + align4(n as u64);
                        self.depth = self.depth + 1;
                        self.node = name;
                        return Some(Event::BeginNode { depth: self.depth });
                    },
                }
            }
            if token == FDT_END_NODE {
                if self.depth > 0 {
                    self.depth = self.depth - 1;
                }
                return Some(Event::EndNode);
            }
            if token == FDT_PROP {
                if at + 12 > len {
                    return None;
                }
                let vlen = get_be32(fdt.blob, (at + 4) as usize) as u64;
                let name_off = get_be32(fdt.blob, (at + 8) as usize) as u64;
                if at + 12 + vlen > len || fdt.strings_off as u64 + name_off > len {
                    return None;
                }
                match cstr(fdt.blob, (fdt.strings_off as u64 + name_off) as usize) {
                    None => {
                        return None;
                    },
                    Some((name, _)) => {
                        let value = slice_subrange(
                            fdt.blob,
                            (at + 12) as usize,
                            (at + 12 + vlen) as usize,
                        );
                        self.pos = self.pos + 8 + align4(vlen);
                        return Some(Event::Prop { depth: self.depth, name, value });
                    },
                }
            }
            return None;
        }
    }
}

// ---- what is read from a tree -------------------------------------------------------

/// The value of a property of the root node, from where a walk is.
pub open spec fn root_prop_from(f: FdtView, w: WalkerView, want: Seq<char>) -> Option<Seq<u8>>
    decreases left(f, w),
    when 0 <= w.depth <= w.pos
{
    proof {
        a_walk_moves_on(f, w);
    }
    match next_of(f, w) {
        (None, _) => None,
        (Some(e), w2) => match e {
            EventView::Prop { depth, name, value } => if depth == 1 && name == want {
                Some(value)
            } else {
                root_prop_from(f, w2, want)
            },
            // Past the root's own properties once we descend.
            EventView::BeginNode { depth } => if depth == 2 {
                None
            } else {
                root_prop_from(f, w2, want)
            },
            EventView::EndNode => root_prop_from(f, w2, want),
        },
    }
}

/// The value of a property of the root node.
pub open spec fn root_prop_of(f: FdtView, want: Seq<char>) -> Option<Seq<u8>> {
    root_prop_from(f, at_start(), want)
}

/// Up to the first zero byte.
pub open spec fn up_to_nul(v: Seq<u8>) -> Seq<u8> {
    match nul_from(v, 0) {
        Some(e) => v.take(e),
        None => v,
    }
}

/// The number that `n` cells at `at` write, the most significant first. What does
/// not fit in two cells is shifted out.
pub open spec fn cells_at(v: Seq<u8>, at: int, n: int) -> u64
    decreases n,
{
    if n <= 0 {
        0
    } else {
        (cells_at(v, at, n - 1) << 32) | crate::bytes::be32(v, at + 4 * (n - 1)) as u64
    }
}

/// The regions that a `reg` property lists from a byte on, the empty ones left
/// out.
pub open spec fn regions_from(v: Seq<u8>, cursor: int, addr_cells: int, size_cells: int) -> Seq<
    (u64, u64),
>
    decreases v.len() - cursor,
{
    let stride = (addr_cells + size_cells) * 4;
    if stride <= 0 || cursor + stride > v.len() {
        Seq::empty()
    } else {
        let base = cells_at(v, cursor, addr_cells);
        let size = cells_at(v, cursor + addr_cells * 4, size_cells);
        let rest = regions_from(v, cursor + stride, addr_cells, size_cells);
        if size > 0 {
            seq![(base, size)] + rest
        } else {
            rest
        }
    }
}

/// Whether a name begins with another.
pub open spec fn starts_with(name: Seq<char>, prefix: Seq<char>) -> bool {
    prefix.len() <= name.len() && name.take(prefix.len() as int) == prefix
}

/// Whether a walk is among the properties of a memory node.
pub open spec fn in_memory_node(w: WalkerView) -> bool {
    w.depth == 2 && (w.node == "memory"@ || starts_with(w.node, "memory@"@))
}

/// What a property says about the numbers of cells.
pub open spec fn cells_after(e: EventView, which: Seq<char>, cells: int) -> int {
    match e {
        EventView::Prop { depth, name, value } => if depth == 1 && name == which && value.len() >= 4 {
            crate::bytes::be32(value, 0) as int
        } else {
            cells
        },
        _ => cells,
    }
}

/// The memory regions that a walk comes past.
pub open spec fn memory_from(f: FdtView, w: WalkerView, addr_cells: int, size_cells: int) -> Seq<
    (u64, u64),
>
    decreases left(f, w),
    when 0 <= w.depth <= w.pos
{
    proof {
        a_walk_moves_on(f, w);
    }
    match next_of(f, w) {
        (None, _) => Seq::empty(),
        (Some(e), w2) => {
            let rest = memory_from(
                f,
                w2,
                cells_after(e, "#address-cells"@, addr_cells),
                cells_after(e, "#size-cells"@, size_cells),
            );
            match e {
                EventView::Prop { name, value, .. } => if name == "reg"@ && in_memory_node(w2) {
                    regions_from(value, 0, addr_cells, size_cells) + rest
                } else {
                    rest
                },
                _ => rest,
            }
        },
    }
}

/// Every `(base, size)` pair from every memory node.
pub open spec fn memory_of(f: FdtView) -> Seq<(u64, u64)> {
    memory_from(f, at_start(), 2, 2)
}

fn read_cells(blob: &[u8], at: usize, cells: usize) -> (r: u64)
    requires
        at + cells * 4 <= blob@.len(),
    ensures
        r == cells_at(blob@, at as int, cells as int),
{
    let len: usize = blob.len();
    let mut v: u64 = 0;
    let mut i: usize = 0;
    while i < cells
        invariant
            i <= cells,
            len == blob@.len(),
            at + cells * 4 <= len,
            v == cells_at(blob@, at as int, i as int),
        decreases cells - i,
    {
        v = (v << 32) | get_be32(blob, at + i * 4) as u64;
        i = i + 1;
    }
    v
}

/// Append the regions that a `reg` property lists.
fn push_regions(value: &[u8], addr_cells: u32, size_cells: u32, out: &mut Vec<(u64, u64)>)
    ensures
        final(out)@ == old(out)@ + regions_from(value@, 0, addr_cells as int, size_cells as int),
{
    let ghost out0 = out@;
    let ghost all = regions_from(value@, 0, addr_cells as int, size_cells as int);
    let len: usize = value.len();
    let stride: u64 = (addr_cells as u64 + size_cells as u64) * 4;
    let mut cursor: usize = 0;
    assert(out@ + all =~= out0 + all);
    while stride > 0 && stride <= (len - cursor) as u64
        invariant
            cursor <= len,
            len == value@.len(),
            stride == (addr_cells + size_cells) * 4,
            all == regions_from(value@, 0, addr_cells as int, size_cells as int),
            out0 + all == out@ + regions_from(
                value@,
                cursor as int,
                addr_cells as int,
                size_cells as int,
            ),
        decreases len - cursor,
    {
        let ghost before = out@;
        let ghost rest = regions_from(
            value@,
            cursor + stride,
            addr_cells as int,
            size_cells as int,
        );
        let base = read_cells(value, cursor, addr_cells as usize);
        let size = read_cells(value, cursor + addr_cells as usize * 4, size_cells as usize);
        cursor = cursor + stride as usize;
        if size > 0 {
            out.push((base, size));
            assert(before + (seq![(base, size)] + rest) =~= out@ + rest);
        }
    }
    assert(out@ + Seq::<(u64, u64)>::empty() =~= out@);
}

/// Whether a list of NUL-terminated strings has `text` at byte `i`.
pub open spec fn has_at(list: Seq<u8>, text: Seq<u8>, i: int) -> bool {
    &&& 0 <= i && i + text.len() <= list.len()
    &&& i == 0 || list[i - 1] == 0
    &&& i + text.len() == list.len() || list[i + text.len()] == 0
    &&& list.subrange(i, i + text.len()) == text
}

/// Whether a list of NUL-terminated strings names `text`.
pub open spec fn names(list: Seq<u8>, text: Seq<u8>) -> bool {
    exists|i: int| #[trigger] has_at(list, text, i)
}

/// What has been seen of a node: whether it is the kind that is looked for, and the
/// property that is wanted of it.
pub struct Seen {
    pub kind: bool,
    pub value: Option<Seq<u8>>,
}

/// Nothing has been seen of a node.
pub open spec fn nothing_seen() -> Seen {
    Seen { kind: false, value: None }
}

/// What a node gives once all of its properties have been seen.
pub open spec fn closing(n: Seen) -> Seq<Seq<u8>> {
    if n.kind && n.value is Some {
        seq![n.value->0]
    } else {
        Seq::empty()
    }
}

/// What has been seen of a node after one more of its properties.
pub open spec fn seeing(
    n: Seen,
    name: Seq<char>,
    value: Seq<u8>,
    key: Seq<char>,
    text: Seq<u8>,
    want: Seq<char>,
) -> Seen {
    Seen {
        kind: if name == key {
            names(value, text)
        } else {
            n.kind
        },
        value: if name == want {
            Some(value)
        } else {
            n.value
        },
    }
}

/// The property `want` of every node from where a walk is whose property `key` names
/// `text`. A node's own properties come before the nodes inside it.
pub open spec fn nodes_from(
    f: FdtView,
    w: WalkerView,
    n: Seen,
    key: Seq<char>,
    text: Seq<u8>,
    want: Seq<char>,
) -> Seq<Seq<u8>>
    decreases left(f, w),
    when 0 <= w.depth <= w.pos
{
    proof {
        a_walk_moves_on(f, w);
    }
    match next_of(f, w) {
        (None, _) => closing(n),
        (Some(e), w2) => match e {
            EventView::Prop { name, value, .. } => nodes_from(
                f,
                w2,
                seeing(n, name, value, key, text, want),
                key,
                text,
                want,
            ),
            _ => closing(n) + nodes_from(f, w2, nothing_seen(), key, text, want),
        },
    }
}

/// The property `want` of every node whose property `key` names `text`.
pub open spec fn nodes_of(f: FdtView, key: Seq<char>, text: Seq<char>, want: Seq<char>) -> Seq<
    Seq<u8>,
> {
    nodes_from(f, at_start(), nothing_seen(), key, vstd::utf8::encode_utf8(text), want)
}

/// The property `want` of every node compatible with `text`.
pub open spec fn compatible_nodes(f: FdtView, text: Seq<char>, want: Seq<char>) -> Seq<Seq<u8>> {
    nodes_of(f, "compatible"@, text, want)
}

/// How many cells the root gives an address or a size.
pub open spec fn root_cells(f: FdtView, which: Seq<char>) -> int {
    match root_prop_of(f, which) {
        Some(v) => if v.len() >= 4 {
            crate::bytes::be32(v, 0) as int
        } else {
            2
        },
        None => 2,
    }
}

/// The regions that a `reg` property of a node under the root lists.
pub open spec fn regs_in(f: FdtView, reg: Seq<u8>) -> Seq<(u64, u64)> {
    regions_from(reg, 0, root_cells(f, "#address-cells"@), root_cells(f, "#size-cells"@))
}

/// The number of the first interrupt that an `interrupts` property lists: shared lines
/// follow the private ones.
pub open spec fn line_in(interrupts: Seq<u8>) -> u32 {
    let n = crate::bytes::be32(interrupts, 4);
    if crate::bytes::be32(interrupts, 0) == 0 {
        n.wrapping_add(32)
    } else {
        n.wrapping_add(16)
    }
}

/// A device: where its registers are, and its interrupt.
pub open spec fn device_in(f: FdtView, reg: Seq<u8>, interrupts: Seq<u8>) -> Option<DeviceNode> {
    let r = regs_in(f, reg);
    if r.len() > 0 && interrupts.len() >= 8 {
        Some(DeviceNode { base: r[0].0, irq: line_in(interrupts) })
    } else {
        None
    }
}

/// The devices that the first `n` nodes describe.
pub open spec fn devices_upto(
    f: FdtView,
    regs: Seq<Seq<u8>>,
    interrupts: Seq<Seq<u8>>,
    n: int,
) -> Seq<DeviceNode>
    decreases n,
{
    if n <= 0 {
        Seq::empty()
    } else {
        let before = devices_upto(f, regs, interrupts, n - 1);
        match device_in(f, regs[n - 1], interrupts[n - 1]) {
            Some(d) => before.push(d),
            None => before,
        }
    }
}

/// The devices compatible with `text`: their registers and their interrupts, paired
/// in the order of the tree.
pub open spec fn devices_of(f: FdtView, text: Seq<char>) -> Seq<DeviceNode> {
    let regs = compatible_nodes(f, text, "reg"@);
    let interrupts = compatible_nodes(f, text, "interrupts"@);
    devices_upto(
        f,
        regs,
        interrupts,
        if regs.len() < interrupts.len() {
            regs.len() as int
        } else {
            interrupts.len() as int
        },
    )
}

/// The affinity that a core's `reg` property gives: all of its cells.
pub open spec fn affinity_in(reg: Seq<u8>) -> u64 {
    cells_at(reg, 0, reg.len() as int / 4)
}

/// Property values as mathematical values.
pub open spec fn value_views(vs: Seq<&[u8]>) -> Seq<Seq<u8>> {
    vs.map_values(|v: &[u8]| v@)
}

fn lists(list: &[u8], text: &[u8]) -> (r: bool)
    ensures
        r == names(list@, text@),
{
    let n: usize = text.len();
    let len: usize = list.len();
    if n > len {
        return false;
    }
    let mut i: usize = 0;
    while i <= len - n
        invariant
            n == text@.len(),
            len == list@.len(),
            n <= len,
            i <= len - n + 1,
            forall|k: int| 0 <= k < i ==> !#[trigger] has_at(list@, text@, k),
        decreases len - n + 1 - i,
    {
        if (i == 0 || list[i - 1] == 0) && (i + n == len || list[i + n] == 0) && same_bytes(
            slice_subrange(list, i, i + n),
            text,
        ) {
            assert(has_at(list@, text@, i as int));
            return true;
        }
        assert(!has_at(list@, text@, i as int));
        if i == len - n {
            assert forall|k: int| !#[trigger] has_at(list@, text@, k) by {}
            return false;
        }
        i = i + 1;
    }
    false
}

fn has_prefix(name: &str, prefix: &str) -> (r: bool)
    ensures
        r == starts_with(name@, prefix@),
{
    let n: usize = prefix.unicode_len();
    if name.unicode_len() < n {
        return false;
    }
    let mut i: usize = 0;
    while i < n
        invariant
            i <= n,
            n == prefix@.len(),
            n <= name@.len(),
            forall|k: int| 0 <= k < i ==> name@[k] == prefix@[k],
        decreases n - i,
    {
        if name.get_char(i) != prefix.get_char(i) {
            assert(name@.take(n as int)[i as int] != prefix@[i as int]);
            return false;
        }
        i = i + 1;
    }
    assert(name@.take(n as int) =~= prefix@);
    true
}

impl<'a> Walker<'a> {
    pub fn in_memory_node(&self) -> (r: bool)
        ensures
            r == in_memory_node(self@),
    {
        self.depth == 2 && (same_text(self.node, "memory") || has_prefix(self.node, "memory@"))
    }
}

impl<'a> Fdt<'a> {
    /// Validate the blob at `addr`. `None` if the magic does not match.
    pub fn new(addr: u64, blob: &'a [u8]) -> (r: Option<Fdt<'a>>)
        requires
            blob@.len() <= 0xFFFF_FFFF,
        ensures
            match r {
                Some(f) => is_fdt(addr, blob@) && f.wf() && f@ == header_in(blob@),
                None => !is_fdt(addr, blob@),
            },
    {
        if addr == 0 || addr % 8 != 0 || blob.len() < HEADER_BYTES {
            return None;
        }
        if get_be32(blob, 0) != FDT_MAGIC {
            return None;
        }
        Some(
            Fdt {
                blob,
                total_size: get_be32(blob, 4),
                struct_off: get_be32(blob, 8),
                strings_off: get_be32(blob, 12),
                struct_size: get_be32(blob, 36),
            },
        )
    }

    pub fn total_size(&self) -> (n: u32)
        ensures
            n == self@.total_size,
    {
        self.total_size
    }

    /// Value bytes of a property on the root node, such as "model".
    pub fn root_prop(&self, want: &str) -> (r: Option<&'a [u8]>)
        requires
            self.wf(),
        ensures
            match r {
                Some(v) => root_prop_of(self@, want@) == Some(v@),
                None => root_prop_of(self@, want@) is None,
            },
    {
        let mut w = Walker::new();
        loop
            invariant
                self.wf(),
                w.wf(),
                root_prop_of(self@, want@) == root_prop_from(self@, w@, want@),
            decreases left(self@, w@),
        {
            proof {
                a_walk_moves_on(self@, w@);
            }
            match w.next_event(self) {
                None => {
                    return None;
                },
                Some(Event::Prop { depth, name, value }) => {
                    if depth == 1 && same_text(name, want) {
                        return Some(value);
                    }
                },
                Some(Event::BeginNode { depth }) => {
                    if depth == 2 {
                        return None;
                    }
                },
                Some(Event::EndNode) => {},
            }
        }
    }

    /// The board's human-readable model string, if it advertises one.
    pub fn model(&self) -> (r: Option<&'a str>)
        requires
            self.wf(),
        ensures
            ({
                let text = match root_prop_of(self@, "model"@) {
                    Some(v) => crate::bytes::text_of(up_to_nul(v)),
                    None => None,
                };
                match r {
                    Some(s) => text == Some(s@),
                    None => text is None,
                }
            }),
    {
        let v = match self.root_prop("model") {
            None => {
                return None;
            },
            Some(v) => v,
        };
        let mut end: usize = 0;
        while end < v.len() && v[end] != 0
            invariant
                end <= v@.len(),
                nul_from(v@, 0) == nul_from(v@, end as int),
            decreases v@.len() - end,
        {
            end = end + 1;
        }
        let used = slice_subrange(v, 0, end);
        assert(used@ =~= up_to_nul(v@));
        from_utf8(used)
    }

    /// Every `(base, size)` pair from every memory node.
    pub fn memory_regions(&self) -> (r: Vec<(u64, u64)>)
        requires
            self.wf(),
        ensures
            r@ == memory_of(self@),
    {
        let ghost f = self@;
        let mut out: Vec<(u64, u64)> = Vec::new();
        let mut addr_cells: u32 = 2;
        let mut size_cells: u32 = 2;
        let mut w = Walker::new();
        assert(out@ + memory_from(f, w@, 2, 2) =~= memory_of(f));
        loop
            invariant
                self.wf(),
                w.wf(),
                f == self@,
                memory_of(f) == out@ + memory_from(f, w@, addr_cells as int, size_cells as int),
            decreases left(f, w@),
        {
            let ghost w0 = w@;
            let ghost before = out@;
            let ghost (a0, s0) = (addr_cells as int, size_cells as int);
            proof {
                a_walk_moves_on(f, w0);
            }
            let e = match w.next_event(self) {
                None => {
                    assert(out@ + Seq::<(u64, u64)>::empty() =~= out@);
                    return out;
                },
                Some(e) => e,
            };
            match e {
                Event::Prop { depth, name, value } => {
                    if same_text(name, "reg") && w.in_memory_node() {
                        push_regions(value, addr_cells, size_cells, &mut out);
                    }
                    if depth == 1 && value.len() >= 4 && same_text(name, "#address-cells") {
                        addr_cells = get_be32(value, 0);
                    }
                    if depth == 1 && value.len() >= 4 && same_text(name, "#size-cells") {
                        size_cells = get_be32(value, 0);
                    }
                },
                _ => {},
            }
            proof {
                let ev = next_of(f, w0).0->0;
                assert(ev == e@);
                assert(addr_cells == cells_after(ev, "#address-cells"@, a0));
                assert(size_cells == cells_after(ev, "#size-cells"@, s0));
                let rest = memory_from(f, w@, addr_cells as int, size_cells as int);
                assert(memory_from(f, w0, a0, s0) == match ev {
                    EventView::Prop { name, value, .. } => if name == "reg"@ && in_memory_node(w@) {
                        regions_from(value, 0, a0, s0) + rest
                    } else {
                        rest
                    },
                    _ => rest,
                });
                assert(memory_of(f) =~= out@ + rest);
            }
        }
    }

    /// The property `want` of every node whose property `key` names `text`.
    pub fn nodes(&self, key: &str, text: &str, want: &str) -> (r: Vec<&'a [u8]>)
        requires
            self.wf(),
        ensures
            value_views(r@) == nodes_of(self@, key@, text@, want@),
    {
        let ghost f = self@;
        let ghost t = vstd::utf8::encode_utf8(text@);
        let mut out: Vec<&'a [u8]> = Vec::new();
        let mut kind = false;
        let mut value: Option<&'a [u8]> = None;
        let ghost mut n = nothing_seen();
        let mut w = Walker::new();
        assert(value_views(out@) =~= Seq::<Seq<u8>>::empty());
        assert(Seq::<Seq<u8>>::empty() + nodes_of(f, key@, text@, want@) =~= nodes_of(
            f,
            key@,
            text@,
            want@,
        ));
        loop
            invariant
                self.wf(),
                w.wf(),
                f == self@,
                t == vstd::utf8::encode_utf8(text@),
                n.kind == kind,
                n.value == (match value {
                    Some(v) => Some(v@),
                    None => None,
                }),
                nodes_of(f, key@, text@, want@) == value_views(out@) + nodes_from(
                    f,
                    w@,
                    n,
                    key@,
                    t,
                    want@,
                ),
            decreases left(f, w@),
        {
            let ghost w0 = w@;
            let ghost before = value_views(out@);
            proof {
                a_walk_moves_on(f, w0);
            }
            let e = match w.next_event(self) {
                None => {
                    if kind {
                        match value {
                            Some(v) => {
                                out.push(v);
                                assert(value_views(out@) =~= before + closing(n));
                            },
                            None => {
                                assert(value_views(out@) =~= before + closing(n));
                            },
                        }
                    } else {
                        assert(value_views(out@) =~= before + closing(n));
                    }
                    return out;
                },
                Some(e) => e,
            };
            match e {
                Event::Prop { depth: _, name, value: v } => {
                    if same_text(name, key) {
                        kind = lists(v, text.as_bytes());
                    }
                    if same_text(name, want) {
                        value = Some(v);
                    }
                    proof {
                        n = seeing(n, name@, v@, key@, t, want@);
                    }
                },
                _ => {
                    let ghost rest = nodes_from(f, w@, nothing_seen(), key@, t, want@);
                    if kind {
                        match value {
                            Some(v) => {
                                out.push(v);
                            },
                            None => {},
                        }
                    }
                    assert(value_views(out@) =~= before + closing(n));
                    assert(before + (closing(n) + rest) =~= value_views(out@) + rest);
                    kind = false;
                    value = None;
                    proof {
                        n = nothing_seen();
                    }
                },
            }
        }
    }

    /// A property of the first node compatible with `text` that has it.
    pub fn prop_of(&self, text: &str, want: &str) -> (r: Option<&'a [u8]>)
        requires
            self.wf(),
        ensures
            ({
                let all = compatible_nodes(self@, text@, want@);
                match r {
                    Some(v) => all.len() > 0 && v@ == all[0],
                    None => all.len() == 0,
                }
            }),
    {
        let all = self.nodes("compatible", text, want);
        assert(value_views(all@).len() == all@.len());
        if all.len() > 0 {
            assert(value_views(all@)[0] == all@[0]@);
            Some(all[0])
        } else {
            None
        }
    }

    fn cells(&self, which: &str) -> (n: u32)
        requires
            self.wf(),
        ensures
            n == root_cells(self@, which@),
    {
        match self.root_prop(which) {
            Some(v) => {
                if v.len() >= 4 {
                    get_be32(v, 0)
                } else {
                    2
                }
            },
            None => 2,
        }
    }

    fn regs(&self, reg: &[u8]) -> (r: Vec<(u64, u64)>)
        requires
            self.wf(),
        ensures
            r@ == regs_in(self@, reg@),
    {
        let mut out: Vec<(u64, u64)> = Vec::new();
        push_regions(reg, self.cells("#address-cells"), self.cells("#size-cells"), &mut out);
        assert(out@ =~= regs_in(self@, reg@));
        out
    }

    /// Where the registers of the first node compatible with `text` are.
    pub fn node_regs(&self, text: &str) -> (r: Vec<(u64, u64)>)
        requires
            self.wf(),
        ensures
            ({
                let all = compatible_nodes(self@, text@, "reg"@);
                r@ == (if all.len() > 0 {
                    regs_in(self@, all[0])
                } else {
                    Seq::empty()
                })
            }),
    {
        match self.prop_of(text, "reg") {
            Some(v) => self.regs(v),
            None => {
                let none: Vec<(u64, u64)> = Vec::new();
                assert(none@ =~= Seq::<(u64, u64)>::empty());
                none
            },
        }
    }

    /// The cores that the tree describes, by affinity.
    pub fn cpus(&self) -> (r: Vec<u64>)
        requires
            self.wf(),
        ensures
            r@ == nodes_of(self@, "device_type"@, "cpu"@, "reg"@).map_values(
                |v: Seq<u8>| affinity_in(v),
            ),
    {
        let all = self.nodes("device_type", "cpu", "reg");
        let ghost vs = value_views(all@);
        let mut out: Vec<u64> = Vec::new();
        let mut i: usize = 0;
        while i < all.len()
            invariant
                i <= all@.len(),
                vs == value_views(all@),
                out@.len() == i,
                forall|k: int| 0 <= k < i ==> #[trigger] out@[k] == affinity_in(vs[k]),
            decreases all@.len() - i,
        {
            let v = all[i];
            assert(vs[i as int] == v@);
            out.push(read_cells(v, 0, v.len() / 4));
            i = i + 1;
        }
        assert(out@ =~= vs.map_values(|v: Seq<u8>| affinity_in(v)));
        out
    }

    /// The devices compatible with `text`.
    pub fn devices(&self, text: &str) -> (r: Vec<DeviceNode>)
        requires
            self.wf(),
        ensures
            r@ == devices_of(self@, text@),
    {
        let regs = self.nodes("compatible", text, "reg");
        let lines = self.nodes("compatible", text, "interrupts");
        let ghost rs = value_views(regs@);
        let ghost ls = value_views(lines@);
        let n: usize = if regs.len() < lines.len() {
            regs.len()
        } else {
            lines.len()
        };
        let mut out: Vec<DeviceNode> = Vec::new();
        let mut i: usize = 0;
        while i < n
            invariant
                self.wf(),
                i <= n,
                n <= regs@.len(),
                n <= lines@.len(),
                rs == value_views(regs@),
                ls == value_views(lines@),
                out@ == devices_upto(self@, rs, ls, i as int),
            decreases n - i,
        {
            let line = lines[i];
            assert(rs[i as int] == regs@[i as int]@);
            assert(ls[i as int] == line@);
            let r = self.regs(regs[i]);
            if r.len() > 0 && line.len() >= 8 {
                let number = get_be32(line, 4);
                let irq = if get_be32(line, 0) == 0 {
                    number.wrapping_add(32)
                } else {
                    number.wrapping_add(16)
                };
                out.push(DeviceNode { base: r[0].0, irq });
            }
            i = i + 1;
        }
        out
    }
}

proof fn lemma_regions_not_empty(v: Seq<u8>, cursor: int, addr_cells: int, size_cells: int)
    ensures
        forall|i: int|
            0 <= i < regions_from(v, cursor, addr_cells, size_cells).len() ==> (
            #[trigger] regions_from(v, cursor, addr_cells, size_cells)[i]).1 > 0,
    decreases v.len() - cursor,
{
    let stride = (addr_cells + size_cells) * 4;
    if stride > 0 && cursor + stride <= v.len() {
        lemma_regions_not_empty(v, cursor + stride, addr_cells, size_cells);
        let all = regions_from(v, cursor, addr_cells, size_cells);
        let rest = regions_from(v, cursor + stride, addr_cells, size_cells);
        assert forall|i: int| 0 <= i < all.len() implies (#[trigger] all[i]).1 > 0 by {
            if all.len() == rest.len() + 1 {
                if i > 0 {
                    assert(all[i] == rest[i - 1]);
                }
            } else {
                assert(all[i] == rest[i]);
            }
        }
    }
}

/// No memory region that is reported is empty.
pub proof fn no_region_is_empty(f: FdtView, w: WalkerView, addr_cells: int, size_cells: int)
    requires
        0 <= w.depth <= w.pos,
    ensures
        forall|i: int|
            0 <= i < memory_from(f, w, addr_cells, size_cells).len() ==> (#[trigger] memory_from(
                f,
                w,
                addr_cells,
                size_cells,
            )[i]).1 > 0,
    decreases left(f, w),
{
    a_walk_moves_on(f, w);
    match next_of(f, w) {
        (None, _) => {},
        (Some(e), w2) => {
            no_region_is_empty(
                f,
                w2,
                cells_after(e, "#address-cells"@, addr_cells),
                cells_after(e, "#size-cells"@, size_cells),
            );
            let all = memory_from(f, w, addr_cells, size_cells);
            let rest = memory_from(
                f,
                w2,
                cells_after(e, "#address-cells"@, addr_cells),
                cells_after(e, "#size-cells"@, size_cells),
            );
            match e {
                EventView::Prop { name, value, .. } => {
                    lemma_regions_not_empty(value, 0, addr_cells, size_cells);
                    let here = regions_from(value, 0, addr_cells, size_cells);
                    if name == "reg"@ && in_memory_node(w2) {
                        assert forall|i: int| 0 <= i < all.len() implies (
                        #[trigger] all[i]).1 > 0 by {
                            if i < here.len() {
                                assert(all[i] == here[i]);
                            } else {
                                assert(all[i] == rest[i - here.len()]);
                            }
                        }
                    }
                },
                _ => {},
            }
        },
    }
}

} // verus!
