//! Minimal ELF64 loader for AArch64 user images.
//!
//! Only what a statically linked, non-relocatable executable needs: walk the
//! program headers, map each PT_LOAD with the permissions its flags ask for,
//! copy the file bytes in, zero the rest.
use vstd::prelude::*;
use vstd::slice::slice_subrange;
use crate::bytes::{get_u16, get_u32, get_u64};
use crate::mm::frames::Frames;
use crate::mm::paging::{AddressSpace, Path, Perm, USER_LIMIT};
use crate::mm::ram::Ram;
use crate::mm::uaccess::copy_to_user;
use crate::mm::{page_align_down, page_align_up, PAGE_SIZE};

verus! {

pub const EHDR_BYTES: u64 = 64;

pub const PHDR_BYTES: u64 = 56;

pub const ELFCLASS64: u8 = 2;

pub const ELFDATA2LSB: u8 = 1;

pub const ET_EXEC: u16 = 2;

pub const EM_AARCH64: u16 = 183;

pub const PT_LOAD: u32 = 1;

pub const PF_X: u32 = 1;

pub const PF_W: u32 = 2;

/// A program header.
#[derive(Clone, Copy, Debug, PartialEq, Eq, Structural)]
pub struct Phdr {
    pub ptype: u32,
    pub flags: u32,
    pub offset: u64,
    pub vaddr: u64,
    pub filesz: u64,
    pub memsz: u64,
}

/// What is wrong with an image's header, if anything is.
pub open spec fn header_error(image: Seq<u8>) -> Option<&'static str> {
    if image.len() < 64 {
        Some("ELF truncated")
    } else if !(image[0] == 0x7f && image[1] == 0x45 && image[2] == 0x4c && image[3] == 0x46) {
        Some("not an ELF")
    } else if image[4] != ELFCLASS64 || image[5] != ELFDATA2LSB {
        Some("not 64-bit little-endian")
    } else if crate::bytes::le16(image, 16) != ET_EXEC {
        Some("not a static executable")
    } else if crate::bytes::le16(image, 18) != EM_AARCH64 {
        Some("wrong architecture")
    } else {
        None
    }
}

/// The entry point an image names.
pub open spec fn entry_of(image: Seq<u8>) -> u64 {
    crate::bytes::le64(image, 24)
}

/// How many program headers an image has.
pub open spec fn header_count(image: Seq<u8>) -> int {
    crate::bytes::le16(image, 56) as int
}

/// Where program header `i` is.
pub open spec fn header_at(image: Seq<u8>, i: int) -> int {
    crate::bytes::le64(image, 32) + i * crate::bytes::le16(image, 54)
}

/// Program header `i`.
pub open spec fn phdr(image: Seq<u8>, i: int) -> Phdr {
    let at = header_at(image, i);
    Phdr {
        ptype: crate::bytes::le32(image, at),
        flags: crate::bytes::le32(image, at + 4),
        offset: crate::bytes::le64(image, at + 8),
        vaddr: crate::bytes::le64(image, at + 16),
        filesz: crate::bytes::le64(image, at + 32),
        memsz: crate::bytes::le64(image, at + 40),
    }
}

/// Whether a program header asks for memory.
pub open spec fn loads(ph: Phdr) -> bool {
    ph.ptype == PT_LOAD && ph.memsz != 0
}

/// The first byte of a segment's pages.
pub open spec fn seg_start(ph: Phdr) -> int {
    crate::mm::page_down(ph.vaddr as int)
}

/// The end of a segment's pages.
pub open spec fn seg_end(ph: Phdr) -> int {
    crate::mm::page_up(ph.vaddr + ph.memsz)
}

/// What is wrong with segment `i`, if anything is. The first is found before
/// anything is mapped for it, the second after.
pub open spec fn segment_error(image: Seq<u8>, i: int) -> Option<&'static str> {
    let ph = phdr(image, i);
    if header_at(image, i) + 56 > image.len() {
        Some("ELF truncated")
    } else if loads(ph) && ph.filesz > ph.memsz {
        Some("segment filesz exceeds memsz")
    } else if loads(ph) && ph.offset + ph.filesz > image.len() {
        Some("segment past end of image")
    } else {
        None
    }
}

/// The first segment at or after the `i`th with something wrong, or their number.
pub open spec fn first_bad_segment(image: Seq<u8>, i: int) -> int
    decreases header_count(image) - i,
{
    if i >= header_count(image) || segment_error(image, i) is Some {
        i
    } else {
        first_bad_segment(image, i + 1)
    }
}

/// Every place a header may stand at can be added up, and so can what a segment to
/// be loaded says of itself; such a segment lies in the user half.
pub open spec fn addressable(image: Seq<u8>) -> bool {
    &&& forall|i: int|
        0 <= i < header_count(image) ==> #[trigger] header_at(image, i) + 56 <= u64::MAX
    &&& forall|i: int|
        0 <= i < header_count(image) && header_at(image, i) + 56 <= image.len() ==> {
            loads(#[trigger] phdr(image, i)) ==> {
                &&& phdr(image, i).offset + phdr(image, i).filesz <= u64::MAX
                &&& phdr(image, i).vaddr + phdr(image, i).memsz + 4096
                    <= crate::mm::paging::USER_LIMIT
            }
        }
}

/// Whether every address and size an image names can be used. Ask this of an image
/// with a sound header before loading it.
pub fn is_addressable(image: &[u8]) -> (r: bool)
    requires
        header_error(image@) is None,
    ensures
        r == addressable(image@),
{
    let len: u64 = image.len() as u64;
    let phoff = get_u64(image, 32);
    let phentsize = get_u16(image, 54);
    let phnum = get_u16(image, 56);
    let mut i: u16 = 0;
    while i < phnum
        invariant
            i <= phnum,
            len == image@.len(),
            header_error(image@) is None,
            phoff == crate::bytes::le64(image@, 32),
            phentsize == crate::bytes::le16(image@, 54),
            phnum == header_count(image@),
            forall|k: int|
                0 <= k < i ==> #[trigger] header_at(image@, k) + 56 <= u64::MAX,
            forall|k: int|
                0 <= k < i && header_at(image@, k) + 56 <= image@.len() ==> {
                    loads(#[trigger] phdr(image@, k)) ==> {
                        &&& phdr(image@, k).offset + phdr(image@, k).filesz <= u64::MAX
                        &&& phdr(image@, k).vaddr + phdr(image@, k).memsz + 4096
                            <= crate::mm::paging::USER_LIMIT
                    }
                },
        decreases phnum - i,
    {
        assert(i * phentsize <= 0xffff * 0xffff && i * phentsize >= 0) by (nonlinear_arith)
            requires
                0 <= i <= 0xffff,
                0 <= phentsize <= 0xffff,
        ;
        let skip: u64 = i as u64 * phentsize as u64;
        assert(header_at(image@, i as int) == phoff + skip);
        if phoff > u64::MAX - 56 - skip {
            return false;
        }
        let at: u64 = phoff + skip;
        if at + 56 <= len {
            match read_phdr(image, at) {
                Ok(ph) => {
                    assert(ph == phdr(image@, i as int));
                    if ph.ptype == PT_LOAD && ph.memsz != 0 && (ph.offset > u64::MAX - ph.filesz
                        || ph.vaddr > USER_LIMIT || ph.memsz > USER_LIMIT || ph.vaddr + ph.memsz
                        + 4096 > USER_LIMIT) {
                        return false;
                    }
                },
                Err(_) => {},
            }
        }
        i = i + 1;
    }
    true
}

/// Permissions come from the segment, not from a guess: writable segments are
/// never executable and executable ones are never writable.
pub open spec fn perm_of(flags: u32) -> Perm {
    if flags & PF_X != 0 {
        Perm::UserText
    } else if flags & PF_W != 0 {
        Perm::UserData
    } else {
        Perm::UserReadOnly
    }
}

/// The last of the first `n` segments whose pages cover `w`.
pub open spec fn covering(image: Seq<u8>, n: int, w: int) -> Option<int>
    decreases n,
{
    if n <= 0 {
        None
    } else {
        let ph = phdr(image, n - 1);
        if loads(ph) && seg_start(ph) <= w < seg_end(ph) {
            Some(n - 1)
        } else {
            covering(image, n - 1, w)
        }
    }
}

/// The byte segment `i` puts at `w`: from the file, or zero past its end.
pub open spec fn content(image: Seq<u8>, i: int, w: int) -> u8 {
    let ph = phdr(image, i);
    if ph.vaddr <= w < ph.vaddr + ph.filesz {
        image[ph.offset + (w - ph.vaddr)]
    } else {
        0
    }
}

/// Every user page is memory in use that is no table, or lies outside what the
/// allocator hands out.
pub open spec fn anchored(s: AddressSpace, ram: Ram, frames: Frames) -> bool {
    forall|p: Path|
        crate::mm::paging::path_ok(p) ==> ((#[trigger] s.leaf(ram, p)) matches Some(e) ==> {
            let x = e & crate::mm::paging::ADDR_MASK;
            &&& !s.tables@.contains(x)
            &&& frames.in_use(x) || x < frames.start || x >= frames.end
        })
}

/// The memory at `w` is what segment `i` asks for: its own frame, with its
/// permissions and its byte.
pub open spec fn placed(
    image: Seq<u8>,
    i: int,
    s: AddressSpace,
    ram: Ram,
    frames: Frames,
    w: u64,
) -> bool {
    let e = s.leaf(ram, crate::mm::paging::path_of(w));
    let x = e->0 & crate::mm::paging::ADDR_MASK;
    &&& e is Some
    &&& e->0 == crate::mm::paging::page_descriptor(x, perm_of(phdr(image, i).flags))
    &&& frames.in_use(x)
    &&& s.owned@.contains(x)
    &&& !s.tables@.contains(x)
    &&& ram.byte(x + w % 4096) == content(image, i, w as int)
}

/// The first `n` segments are in place, and no other user address leads anywhere
/// it did not lead before.
pub open spec fn in_place(
    image: Seq<u8>,
    n: int,
    s0: AddressSpace,
    r0: Ram,
    s: AddressSpace,
    ram: Ram,
    frames: Frames,
) -> bool {
    forall|w: u64|
        w < crate::mm::paging::USER_LIMIT ==> match #[trigger] covering(image, n, w as int) {
            Some(i) => placed(image, i, s, ram, frames, w),
            None => s.leaf(ram, crate::mm::paging::path_of(w)) == s0.leaf(
                r0,
                crate::mm::paging::path_of(w),
            ),
        }
}

/// Read program header `i`.
fn read_phdr(image: &[u8], at: u64) -> (r: Result<Phdr, &'static str>)
    requires
        at + 56 <= u64::MAX,
    ensures
        if at + 56 > image@.len() {
            r == Err::<Phdr, &'static str>("ELF truncated")
        } else {
            r == Ok::<Phdr, &'static str>(
                Phdr {
                    ptype: crate::bytes::le32(image@, at as int),
                    flags: crate::bytes::le32(image@, at + 4),
                    offset: crate::bytes::le64(image@, at + 8),
                    vaddr: crate::bytes::le64(image@, at + 16),
                    filesz: crate::bytes::le64(image@, at + 32),
                    memsz: crate::bytes::le64(image@, at + 40),
                },
            )
        },
{
    let len: usize = image.len();
    if at + PHDR_BYTES > len as u64 {
        return Err("ELF truncated");
    }
    let at: usize = at as usize;
    Ok(
        Phdr {
            ptype: get_u32(image, at),
            flags: get_u32(image, at + 4),
            offset: get_u64(image, at + 8),
            vaddr: get_u64(image, at + 16),
            filesz: get_u64(image, at + 32),
            memsz: get_u64(image, at + 40),
        },
    )
}

/// Check an image's header.
pub fn check_header(image: &[u8]) -> (r: Result<(), &'static str>)
    ensures
        r == (match header_error(image@) {
            Some(e) => Err(e),
            None => Ok(()),
        }),
{
    if image.len() < 64 {
        return Err("ELF truncated");
    }
    if image[0] != 0x7f || image[1] != 0x45 || image[2] != 0x4c || image[3] != 0x46 {
        return Err("not an ELF");
    }
    if image[4] != ELFCLASS64 || image[5] != ELFDATA2LSB {
        return Err("not 64-bit little-endian");
    }
    if get_u16(image, 16) != ET_EXEC {
        return Err("not a static executable");
    }
    if get_u16(image, 18) != EM_AARCH64 {
        return Err("wrong architecture");
    }
    Ok(())
}

/// The permissions a segment's flags ask for.
pub fn segment_perm(flags: u32) -> (p: Perm)
    ensures
        p == perm_of(flags),
{
    if flags & PF_X != 0 {
        Perm::UserText
    } else if flags & PF_W != 0 {
        Perm::UserData
    } else {
        Perm::UserReadOnly
    }
}

/// Where anonymous memory for a segment leads, page by page.
spec fn fresh_pages(
    s1: AddressSpace,
    r1: Ram,
    f1: Frames,
    s2: AddressSpace,
    r2: Ram,
    f2: Frames,
    start: u64,
    perm: Perm,
    fs: Seq<u64>,
) -> bool {
    &&& s1.wf(r1, f1)
    &&& anchored(s1, r1, f1)
    &&& crate::mm::paging::grew(s1, r1, f1, s2, r2, f2)
    &&& crate::mm::paging::kept(s1, r1, s2, r2)
    &&& crate::mm::paging::anonymous(s1, r1, f1, s2, r2, f2, start, perm, fs)
    &&& start % 4096 == 0
    &&& start + fs.len() * 4096 <= crate::mm::paging::USER_LIMIT
}

proof fn lemma_fresh_walk(
    s1: AddressSpace,
    r1: Ram,
    f1: Frames,
    s2: AddressSpace,
    r2: Ram,
    f2: Frames,
    start: u64,
    perm: Perm,
    fs: Seq<u64>,
    w: u64,
)
    requires
        fresh_pages(s1, r1, f1, s2, r2, f2, start, perm, fs),
        w < crate::mm::paging::USER_LIMIT,
    ensures
        ({
            let p = crate::mm::paging::path_of(w);
            if start <= w < start + fs.len() * 4096 {
                let x = fs[(w - start) / 4096];
                &&& 0 <= (w - start) / 4096 < fs.len()
                &&& s2.leaf(r2, p) == Some(crate::mm::paging::page_descriptor(x, perm))
                &&& crate::mm::paging::page_descriptor(x, perm) & crate::mm::paging::ADDR_MASK == x
                &&& f2.in_use(x)
                &&& !f1.in_use(x)
                &&& !s2.tables@.contains(x)
                &&& crate::mm::paging::translation(r2, s2.root as int, w) == Some(
                    (x + w % 4096) as u64,
                )
                &&& r2.byte(x + w % 4096) == 0
                &&& r2.holds(x + w % 4096, 1)
            } else {
                s2.leaf(r2, p) == s1.leaf(r1, p)
            }
        }),
{
    let p = crate::mm::paging::path_of(w);
    crate::mm::paging::paths_are_in_range(w);
    crate::mm::paging_laws::backed_pages_lead_to_their_frames(
        r1,
        s1.root as int,
        start,
        fs,
        perm,
        w,
    );
    crate::mm::paging_laws::anonymous_memory_is_fresh_and_zero(
        s1,
        r1,
        f1,
        s2,
        r2,
        f2,
        start,
        perm,
        fs,
        w,
    );
    assert(crate::mm::paging::leaf(r2, s2.root as int, p) == crate::mm::paging::backed_leaf(
        r1,
        s1.root as int,
        start,
        fs,
        perm,
        p,
    ));
    if start <= w < start + fs.len() * 4096 {
        let i = (w - start) / 4096;
        assert(f2.in_use(fs[i]));
        crate::mm::paging::a_descriptor_holds_its_frame(fs[i], perm);
    }
}

/// Anonymous memory leaves every user page anchored.
pub proof fn anonymous_memory_is_anchored(
    s1: AddressSpace,
    r1: Ram,
    f1: Frames,
    s2: AddressSpace,
    r2: Ram,
    f2: Frames,
    start: u64,
    perm: Perm,
    fs: Seq<u64>,
)
    requires
        s1.wf(r1, f1),
        anchored(s1, r1, f1),
        crate::mm::paging::grew(s1, r1, f1, s2, r2, f2),
        crate::mm::paging::anonymous(s1, r1, f1, s2, r2, f2, start, perm, fs),
    ensures
        anchored(s2, r2, f2),
{
    assert forall|p: Path| crate::mm::paging::path_ok(p) implies ((#[trigger] s2.leaf(
        r2,
        p,
    )) matches Some(e) ==> {
        let x = e & crate::mm::paging::ADDR_MASK;
        &&& !s2.tables@.contains(x)
        &&& f2.in_use(x) || x < f2.start || x >= f2.end
    }) by {
        assert(crate::mm::paging::leaf(r2, s2.root as int, p) == crate::mm::paging::backed_leaf(
            r1,
            s1.root as int,
            start,
            fs,
            perm,
            p,
        ));
        crate::mm::paging_laws::backed_walks_lead_to_old_or_new(
            r1,
            s1.root as int,
            start,
            fs,
            perm,
            p,
        );
        match s2.leaf(r2, p) {
            Some(e) => {
                let x = e & crate::mm::paging::ADDR_MASK;
                if s2.leaf(r2, p) == s1.leaf(r1, p) {
                    assert(s1.leaf(r1, p) is Some);
                    if s2.tables@.contains(x) {
                        lemma_table_in_use(s2, r2, f2, x);
                    }
                    if f1.in_use(x) {
                        assert(f2.in_use(x));
                    }
                } else {
                    let i = choose|i: int|
                        0 <= i < fs.len() && s2.leaf(r2, p) == Some(
                            crate::mm::paging::page_descriptor(#[trigger] fs[i], perm),
                        );
                    assert(f2.in_use(fs[i]));
                    crate::mm::paging::a_descriptor_holds_its_frame(fs[i], perm);
                }
            },
            None => {},
        }
    }
}

proof fn lemma_table_in_use(s: AddressSpace, ram: Ram, frames: Frames, x: u64)
    requires
        s.wf(ram, frames),
        s.tables@.contains(x),
    ensures
        frames.in_use(x),
{
    let k = choose|k: int| 0 <= k < s.tables@.len() && s.tables@[k] == x;
    assert(s.owned@.contains(s.tables@[k]));
    let j = choose|j: int| 0 <= j < s.owned@.len() && s.owned@[j] == x;
    assert(frames.in_use(s.owned@[j]));
}

/// The frames that a segment may need: one a page, and three tables to reach each.
pub open spec fn segment_frames(ph: Phdr) -> int {
    if loads(ph) {
        4 * ((seg_end(ph) - seg_start(ph)) / 4096)
    } else {
        0
    }
}

/// The frames that the first `n` segments of an image may need.
pub open spec fn frames_for(image: Seq<u8>, n: int) -> int
    decreases n,
{
    if n <= 0 {
        0
    } else {
        frames_for(image, n - 1) + segment_frames(phdr(image, n - 1))
    }
}

proof fn lemma_more_segments(image: Seq<u8>, m: int, n: int)
    requires
        0 <= m <= n,
    ensures
        0 <= frames_for(image, m) <= frames_for(image, n),
    decreases n,
{
    if n > 0 {
        let ph = phdr(image, n - 1);
        crate::mm::rounding_encloses(ph.vaddr as int);
        crate::mm::rounding_encloses(ph.vaddr + ph.memsz);
        assert(segment_frames(ph) >= 0);
        if m < n {
            lemma_more_segments(image, m, n - 1);
        } else {
            lemma_more_segments(image, m - 1, n - 1);
        }
    }
}

/// Whether an error says that memory ran out.
pub open spec fn out_of_memory(e: &'static str) -> bool {
    e == "out of frames" || e == "out of frames for page tables"
}

/// The memory of a segment after its file bytes were copied to `vaddr`.
spec fn filled(
    s2: AddressSpace,
    r2: Ram,
    r3: Ram,
    vaddr: u64,
    data: Seq<u8>,
) -> bool {
    &&& r3.wf()
    &&& r3.base == r2.base
    &&& r3.bytes@.len() == r2.bytes@.len()
    &&& crate::mm::paging::tree(r3, s2.root as int, s2.tables@)
    &&& forall|q: int|
        r2.holds(q, 1) ==> #[trigger] r3.byte(q) == (match crate::mm::uaccess::last_writer(
            r2,
            s2.root as int,
            vaddr,
            data.len() as int,
            q,
        ) {
            Some(i) => data[i],
            None => r2.byte(q),
        })
}

proof fn lemma_one_landing(
    s1: AddressSpace,
    r1: Ram,
    f1: Frames,
    s2: AddressSpace,
    r2: Ram,
    f2: Frames,
    start: u64,
    perm: Perm,
    fs: Seq<u64>,
    w: u64,
    v: u64,
)
    requires
        fresh_pages(s1, r1, f1, s2, r2, f2, start, perm, fs),
        start <= w < start + fs.len() * 4096,
        start <= v < start + fs.len() * 4096,
        v != w,
    ensures
        crate::mm::paging::translation(r2, s2.root as int, v) != Some(
            (fs[(w - start) / 4096] + w % 4096) as u64,
        ),
{
    lemma_fresh_walk(s1, r1, f1, s2, r2, f2, start, perm, fs, w);
    lemma_fresh_walk(s1, r1, f1, s2, r2, f2, start, perm, fs, v);
    let i = (w - start) / 4096;
    let j = (v - start) / 4096;
    assert(f2.in_use(fs[i]) && f2.in_use(fs[j]));
    lemma_distinct_spots(fs, start, w, v);
}

proof fn lemma_distinct_spots(fs: Seq<u64>, start: u64, w: u64, v: u64)
    requires
        fs.no_duplicates(),
        start % 4096 == 0,
        start <= w < start + fs.len() * 4096,
        start <= v < start + fs.len() * 4096,
        v != w,
        fs[(w - start) / 4096] % 4096 == 0,
        fs[(v - start) / 4096] % 4096 == 0,
    ensures
        fs[(v - start) / 4096] + v % 4096 != fs[(w - start) / 4096] + w % 4096,
{
    let i = (w - start) / 4096;
    let j = (v - start) / 4096;
    assert(0 <= i < fs.len() && 0 <= j < fs.len());
    let x = fs[i] as int;
    let y = fs[j] as int;
    if y + v % 4096 == x + w % 4096 {
        assert(x == y);
        assert(i == j);
        assert(v % 4096 == w % 4096);
        assert((v - start) % 4096 == (w - start) % 4096);
    }
}

proof fn lemma_filled_byte(
    s1: AddressSpace,
    r1: Ram,
    f1: Frames,
    s2: AddressSpace,
    r2: Ram,
    f2: Frames,
    r3: Ram,
    start: u64,
    perm: Perm,
    fs: Seq<u64>,
    vaddr: u64,
    data: Seq<u8>,
    w: u64,
)
    requires
        fresh_pages(s1, r1, f1, s2, r2, f2, start, perm, fs),
        filled(s2, r2, r3, vaddr, data),
        start <= vaddr,
        vaddr + data.len() <= start + fs.len() * 4096,
        start <= w < start + fs.len() * 4096,
    ensures
        r3.byte(fs[(w - start) / 4096] + w % 4096) == (if vaddr <= w < vaddr + data.len() {
            data[w - vaddr]
        } else {
            0u8
        }),
{
    let root = s2.root as int;
    lemma_fresh_walk(s1, r1, f1, s2, r2, f2, start, perm, fs, w);
    let q = fs[(w - start) / 4096] + w % 4096;
    assert forall|k: int| 0 <= k < data.len() && vaddr + k != w implies
        #[trigger] crate::mm::uaccess::user_byte_at(r2, root, vaddr, k) != Some(q as u64) by {
        lemma_one_landing(s1, r1, f1, s2, r2, f2, start, perm, fs, w, (vaddr + k) as u64);
    }
    assert(r2.holds(q, 1));
    if vaddr <= w < vaddr + data.len() {
        let i = w - vaddr;
        assert(crate::mm::uaccess::user_byte_at(r2, root, vaddr, i) == Some(q as u64));
        crate::mm::uaccess::copied_bytes_are_there(r2, root, vaddr, data.len() as int, i);
    } else {
        crate::mm::uaccess::other_bytes_are_not_written(r2, root, vaddr, data.len() as int, q);
    }
}

proof fn lemma_filled_kept(
    s1: AddressSpace,
    r1: Ram,
    f1: Frames,
    s2: AddressSpace,
    r2: Ram,
    f2: Frames,
    r3: Ram,
    start: u64,
    perm: Perm,
    fs: Seq<u64>,
    vaddr: u64,
    data: Seq<u8>,
)
    requires
        fresh_pages(s1, r1, f1, s2, r2, f2, start, perm, fs),
        filled(s2, r2, r3, vaddr, data),
        start <= vaddr,
        vaddr + data.len() <= start + fs.len() * 4096,
    ensures
        crate::mm::paging::grew(s1, r1, f1, s2, r3, f2),
        crate::mm::paging::kept(s1, r1, s2, r3),
{
    let root = s2.root as int;
    let gained = s2.owned@.skip(s1.owned@.len() as int);
    assert forall|q: int|
        r1.holds(q, 1) && !crate::mm::paging::in_pages(s1.tables@, q)
            && !crate::mm::paging::in_pages(gained, q) implies #[trigger] r3.byte(q) == r1.byte(
        q,
    ) by {
        assert(r2.byte(q) == r1.byte(q));
        assert forall|k: int| 0 <= k < data.len() implies
            #[trigger] crate::mm::uaccess::user_byte_at(r2, root, vaddr, k) != Some(q as u64) by {
            let v = (vaddr + k) as u64;
            lemma_fresh_walk(s1, r1, f1, s2, r2, f2, start, perm, fs, v);
            let y = fs[(v - start) / 4096];
            assert(y + 4096 <= u64::MAX);
            if y + v % 4096 == q {
                lemma_gained(s1, r1, f1, s2, y);
                let j = choose|j: int| 0 <= j < gained.len() && gained[j] == y;
                assert(gained[j] <= q < gained[j] + 4096);
                assert(crate::mm::paging::in_pages(gained, q));
            }
        }
        crate::mm::uaccess::other_bytes_are_not_written(r2, root, vaddr, data.len() as int, q);
    }
}

proof fn lemma_gained(s1: AddressSpace, r1: Ram, f1: Frames, s2: AddressSpace, y: u64)
    requires
        s1.wf(r1, f1),
        s1.owned@.len() <= s2.owned@.len(),
        s2.owned@.take(s1.owned@.len() as int) == s1.owned@,
        s2.owned@.contains(y),
        !f1.in_use(y),
    ensures
        s2.owned@.skip(s1.owned@.len() as int).contains(y),
{
    let j = choose|j: int| 0 <= j < s2.owned@.len() && s2.owned@[j] == y;
    if j < s1.owned@.len() {
        assert(s2.owned@.take(s1.owned@.len() as int)[j] == s1.owned@[j]);
        assert(f1.in_use(s1.owned@[j]));
    } else {
        assert(s2.owned@.skip(s1.owned@.len() as int)[j - s1.owned@.len()] == y);
    }
}

proof fn lemma_ready_to_fill(
    s1: AddressSpace,
    r1: Ram,
    f1: Frames,
    s2: AddressSpace,
    r2: Ram,
    f2: Frames,
    start: u64,
    perm: Perm,
    fs: Seq<u64>,
    vaddr: u64,
    len: int,
)
    requires
        fresh_pages(s1, r1, f1, s2, r2, f2, start, perm, fs),
        anchored(s2, r2, f2),
        start <= vaddr,
        0 <= len,
        vaddr + len <= start + fs.len() * 4096,
    ensures
        crate::mm::uaccess::mapped_prefix(r2, s2.root as int, vaddr, len, 0) == len,
        crate::mm::uaccess::in_memory(r2, s2.root as int, vaddr, len),
        s2.apart(r2),
{
    let root = s2.root as int;
    assert forall|k: int| 0 <= k < len implies (#[trigger] crate::mm::uaccess::user_byte_at(
        r2,
        root,
        vaddr,
        k,
    )) is Some by {
        lemma_fresh_walk(s1, r1, f1, s2, r2, f2, start, perm, fs, (vaddr + k) as u64);
    }
    crate::mm::uaccess::a_mapped_buffer_is_mapped_to_its_end(r2, root, vaddr, len);
    assert forall|i: int|
        0 <= i < crate::mm::uaccess::mapped_prefix(r2, root, vaddr, len, 0) implies r2.holds(
        (#[trigger] crate::mm::uaccess::user_byte_at(r2, root, vaddr, i))->0 as int,
        1,
    ) by {
        lemma_fresh_walk(s1, r1, f1, s2, r2, f2, start, perm, fs, (vaddr + i) as u64);
    }
}

/// What a loaded segment looks like at `w`.
pub open spec fn segment_at(
    ph: Phdr,
    image: Seq<u8>,
    s0: AddressSpace,
    r0: Ram,
    s: AddressSpace,
    ram: Ram,
    frames: Frames,
    w: u64,
) -> bool {
    let e = s.leaf(ram, crate::mm::paging::path_of(w));
    let x = e->0 & crate::mm::paging::ADDR_MASK;
    if seg_start(ph) <= w < seg_end(ph) {
        &&& e is Some
        &&& e->0 == crate::mm::paging::page_descriptor(x, perm_of(ph.flags))
        &&& frames.in_use(x)
        &&& s.owned@.contains(x)
        &&& !s.tables@.contains(x)
        &&& ram.byte(x + w % 4096) == (if ph.vaddr <= w < ph.vaddr + ph.filesz {
            image[ph.offset + (w - ph.vaddr)]
        } else {
            0u8
        })
    } else {
        e == s0.leaf(r0, crate::mm::paging::path_of(w))
    }
}

proof fn lemma_segment_placed(
    s1: AddressSpace,
    r1: Ram,
    f1: Frames,
    s2: AddressSpace,
    r2: Ram,
    f2: Frames,
    r3: Ram,
    start: u64,
    perm: Perm,
    fs: Seq<u64>,
    ph: Phdr,
    image: Seq<u8>,
    data: Seq<u8>,
)
    requires
        fresh_pages(s1, r1, f1, s2, r2, f2, start, perm, fs),
        anchored(s2, r2, f2),
        forall|p: Path|
            crate::mm::paging::path_ok(p) ==> #[trigger] s2.leaf(r3, p) == s2.leaf(r2, p),
        filled(s2, r2, r3, ph.vaddr, data),
        start <= ph.vaddr,
        ph.vaddr + data.len() <= start + fs.len() * 4096,
        start == seg_start(ph),
        start + fs.len() * 4096 == seg_end(ph),
        perm == perm_of(ph.flags),
        ph.offset + ph.filesz <= image.len(),
        data == image.subrange(ph.offset as int, ph.offset + ph.filesz),
    ensures
        anchored(s2, r3, f2),
        forall|w: u64|
            w < crate::mm::paging::USER_LIMIT ==> #[trigger] segment_at(
                ph,
                image,
                s1,
                r1,
                s2,
                r3,
                f2,
                w,
            ),
{
    assert forall|p: Path| crate::mm::paging::path_ok(p) implies ((#[trigger] s2.leaf(
        r3,
        p,
    )) matches Some(e) ==> {
        let x = e & crate::mm::paging::ADDR_MASK;
        &&& !s2.tables@.contains(x)
        &&& f2.in_use(x) || x < f2.start || x >= f2.end
    }) by {
        assert(s2.leaf(r2, p) == s2.leaf(r3, p));
    }
    assert forall|w: u64| w < crate::mm::paging::USER_LIMIT implies #[trigger] segment_at(
        ph,
        image,
        s1,
        r1,
        s2,
        r3,
        f2,
        w,
    ) by {
        let p = crate::mm::paging::path_of(w);
        crate::mm::paging::paths_are_in_range(w);
        lemma_fresh_walk(s1, r1, f1, s2, r2, f2, start, perm, fs, w);
        assert(s2.leaf(r3, p) == s2.leaf(r2, p));
        if seg_start(ph) <= w < seg_end(ph) {
            lemma_filled_byte(
                s1,
                r1,
                f1,
                s2,
                r2,
                f2,
                r3,
                start,
                perm,
                fs,
                ph.vaddr,
                data,
                w,
            );
        }
    }
}

/// Map one segment and copy its file bytes in. The kernel's own view of the
/// frames is writable even where the user's is not, which is exactly what makes
/// read-only text loadable.
fn load_segment(
    space: &mut AddressSpace,
    frames: &mut Frames,
    ram: &mut Ram,
    image: &[u8],
    ph: &Phdr,
) -> (r: Result<(), &'static str>)
    requires
        old(space).wf(*old(ram), *old(frames)),
        anchored(*old(space), *old(ram), *old(frames)),
        ph.memsz > 0,
        ph.filesz <= ph.memsz,
        ph.offset + ph.filesz <= u64::MAX,
        ph.vaddr + ph.memsz + 4096 <= crate::mm::paging::USER_LIMIT,
    ensures
        crate::mm::paging::grew(
            *old(space),
            *old(ram),
            *old(frames),
            *final(space),
            *final(ram),
            *final(frames),
        ),
        crate::mm::paging::kept(*old(space), *old(ram), *final(space), *final(ram)),
        anchored(*final(space), *final(ram), *final(frames)),
        loads(*ph) ==> final(space).owned@.len() <= old(space).owned@.len() + segment_frames(*ph),
        match r {
            Err(e) => {
                ||| out_of_memory(e) && final(frames).available() == 0 && (loads(*ph)
                    ==> final(space).owned@.len() < old(space).owned@.len() + segment_frames(*ph))
                ||| e == "segment past end of image" && ph.offset + ph.filesz > image@.len()
            },
            Ok(_) => {
                &&& ph.offset + ph.filesz <= image@.len()
                &&& forall|w: u64|
                    w < crate::mm::paging::USER_LIMIT ==> #[trigger] segment_at(
                        *ph,
                        image@,
                        *old(space),
                        *old(ram),
                        *final(space),
                        *final(ram),
                        *final(frames),
                        w,
                    )
            },
        },
{
    let ghost s1 = *space;
    let ghost r1 = *ram;
    let ghost f1 = *frames;
    let start = page_align_down(ph.vaddr);
    let end = page_align_up(ph.vaddr + ph.memsz);
    proof {
        crate::mm::rounding_encloses(ph.vaddr as int);
        crate::mm::rounding_encloses(ph.vaddr + ph.memsz);
    }
    let pages: u64 = (end - start) / PAGE_SIZE;
    assert(pages * 4096 == end - start);
    let perm = segment_perm(ph.flags);
    let m = space.map_anonymous(frames, ram, start, pages, perm);
    let ghost s2 = *space;
    let ghost r2 = *ram;
    let ghost f2 = *frames;
    let ghost fs = choose|fs: Seq<u64>|
        {
            &&& #[trigger] crate::mm::paging::anonymous(s1, r1, f1, s2, r2, f2, start, perm, fs)
            &&& match m {
                Ok(_) => fs.len() == pages && s2.owned@.len() <= s1.owned@.len() + 4 * pages,
                Err(e) => {
                    &&& fs.len() < pages
                    &&& s2.owned@.len() <= s1.owned@.len() + 4 * fs.len() + 3
                    &&& {
                        ||| e == "out of frames" && f2.available() == 0
                        ||| e == "out of frames for page tables" && start % 4096 == 0
                            && f2.available() == 0
                        ||| e == "unaligned mapping" && start % 4096 != 0
                    }
                },
            }
        };
    proof {
        anonymous_memory_is_anchored(s1, r1, f1, s2, r2, f2, start, perm, fs);
    }
    match m {
        Err(e) => {
            return Err(e);
        },
        Ok(_) => {},
    }
    let src_end: u64 = ph.offset + ph.filesz;
    if src_end > image.len() as u64 {
        return Err("segment past end of image");
    }
    let data = slice_subrange(image, ph.offset as usize, src_end as usize);
    assert(fresh_pages(s1, r1, f1, s2, r2, f2, start, perm, fs));
    proof {
        lemma_ready_to_fill(
            s1,
            r1,
            f1,
            s2,
            r2,
            f2,
            start,
            perm,
            fs,
            ph.vaddr,
            data@.len() as int,
        );
    }
    let c = copy_to_user(space, ram, ph.vaddr, data);
    proof {
        assert(filled(s2, r2, *ram, ph.vaddr, data@));
        lemma_filled_kept(s1, r1, f1, s2, r2, f2, *ram, start, perm, fs, ph.vaddr, data@);
        lemma_segment_placed(s1, r1, f1, s2, r2, f2, *ram, start, perm, fs, *ph, image@, data@);
    }
    match c {
        Err(_) => Err("segment page vanished"),
        Ok(_) => Ok(()),
    }
}

/// Map `image` into `space`. Gives the entry point.
///
/// Where a segment is at fault or memory runs out, the segments before it stay
/// mapped.
pub fn load(space: &mut AddressSpace, frames: &mut Frames, ram: &mut Ram, image: &[u8]) -> (r: Result<
    u64,
    &'static str,
>)
    requires
        old(space).wf(*old(ram), *old(frames)),
        anchored(*old(space), *old(ram), *old(frames)),
        header_error(image@) is None ==> addressable(image@),
    ensures
        crate::mm::paging::grew(
            *old(space),
            *old(ram),
            *old(frames),
            *final(space),
            *final(ram),
            *final(frames),
        ),
        crate::mm::paging::kept(*old(space), *old(ram), *final(space), *final(ram)),
        anchored(*final(space), *final(ram), *final(frames)),
        match header_error(image@) {
            Some(e) => {
                &&& r == Err::<u64, &'static str>(e)
                &&& *final(space) == *old(space)
                &&& *final(ram) == *old(ram)
                &&& *final(frames) == *old(frames)
            },
            None => {
                let bad = first_bad_segment(image@, 0);
                match r {
                    Ok(entry) => {
                        &&& bad == header_count(image@)
                        &&& entry == entry_of(image@)
                        &&& final(space).owned@.len() <= old(space).owned@.len() + frames_for(
                            image@,
                            bad,
                        )
                        &&& in_place(
                            image@,
                            bad,
                            *old(space),
                            *old(ram),
                            *final(space),
                            *final(ram),
                            *final(frames),
                        )
                    },
                    Err(e) => {
                        ||| out_of_memory(e) && final(frames).available() == 0 && old(
                            frames,
                        ).available() < frames_for(image@, header_count(image@))
                        ||| bad < header_count(image@) && segment_error(image@, bad) == Some(e)
                    },
                }
            },
        },
{
    let ghost s0 = *space;
    let ghost r0 = *ram;
    let ghost f0 = *frames;
    proof {
        crate::mm::paging::standing_still_is_growth(s0, r0, f0);
    }
    match check_header(image) {
        Err(e) => {
            return Err(e);
        },
        Ok(_) => {},
    }
    let phoff = get_u64(image, 32);
    let phentsize = get_u16(image, 54);
    let phnum = get_u16(image, 56);
    let mut i: u16 = 0;
    assert(in_place(image@, 0, s0, r0, *space, *ram, *frames));
    while i < phnum
        invariant
            i <= phnum,
            s0 == *old(space),
            r0 == *old(ram),
            f0 == *old(frames),
            s0.wf(r0, f0),
            header_error(image@) is None,
            addressable(image@),
            phoff == crate::bytes::le64(image@, 32),
            phentsize == crate::bytes::le16(image@, 54),
            phnum == header_count(image@),
            crate::mm::paging::grew(s0, r0, f0, *space, *ram, *frames),
            crate::mm::paging::kept(s0, r0, *space, *ram),
            anchored(*space, *ram, *frames),
            first_bad_segment(image@, 0) == first_bad_segment(image@, i as int),
            in_place(image@, i as int, s0, r0, *space, *ram, *frames),
            space.owned@.len() <= s0.owned@.len() + frames_for(image@, i as int),
        decreases phnum - i,
    {
        let ghost s1 = *space;
        let ghost r1 = *ram;
        let ghost f1 = *frames;
        proof {
            assert(header_at(image@, i as int) + 56 <= u64::MAX);
            assert(header_at(image@, i as int) == phoff + i * phentsize);
            assert(i * phentsize >= 0) by (nonlinear_arith)
                requires
                    i >= 0,
                    phentsize >= 0,
            ;
        }
        let at: u64 = phoff + i as u64 * phentsize as u64;
        let ph = match read_phdr(image, at) {
            Err(e) => {
                return Err(e);
            },
            Ok(ph) => ph,
        };
        assert(ph == phdr(image@, i as int));
        if ph.ptype != PT_LOAD || ph.memsz == 0 {
            proof {
                assert(!loads(phdr(image@, i as int)));
                assert forall|w: u64| w < crate::mm::paging::USER_LIMIT implies match
                #[trigger] covering(image@, i + 1, w as int) {
                    Some(j) => placed(image@, j, *space, *ram, *frames, w),
                    None => space.leaf(*ram, crate::mm::paging::path_of(w)) == s0.leaf(
                        r0,
                        crate::mm::paging::path_of(w),
                    ),
                } by {
                    assert(covering(image@, i + 1, w as int) == covering(
                        image@,
                        i as int,
                        w as int,
                    ));
                }
            }
            i = i + 1;
            continue ;
        }
        if ph.filesz > ph.memsz {
            return Err("segment filesz exceeds memsz");
        }
        let l = load_segment(space, frames, ram, image, &ph);
        proof {
            lemma_more_segments(image@, i + 1, phnum as int);
            crate::mm::paging::growth_adds_up(s0, r0, f0, s1, r1, f1, *space, *ram, *frames);
        }
        match l {
            Err(e) => {
                return Err(e);
            },
            Ok(_) => {},
        }
        proof {
            assert forall|w: u64| w < crate::mm::paging::USER_LIMIT implies match
            #[trigger] covering(image@, i + 1, w as int) {
                Some(j) => placed(image@, j, *space, *ram, *frames, w),
                None => space.leaf(*ram, crate::mm::paging::path_of(w)) == s0.leaf(
                    r0,
                    crate::mm::paging::path_of(w),
                ),
            } by {
                let e = space.leaf(*ram, crate::mm::paging::path_of(w));
                assert(segment_at(ph, image@, s1, r1, *space, *ram, *frames, w));
                if seg_start(ph) <= w < seg_end(ph) {
                    assert(covering(image@, i + 1, w as int) == Some(i as int));
                    assert(placed(image@, i as int, *space, *ram, *frames, w));
                } else {
                    assert(covering(image@, i + 1, w as int) == covering(
                        image@,
                        i as int,
                        w as int,
                    ));
                    match covering(image@, i as int, w as int) {
                        Some(j) => {
                            assert(placed(image@, j, s1, r1, f1, w));
                            let x = e->0 & crate::mm::paging::ADDR_MASK;
                            crate::mm::paging::frames_in_use_are_kept(
                                s1,
                                r1,
                                f1,
                                *space,
                                *ram,
                                *frames,
                                x,
                            );
                            let q = x + w % 4096;
                            assert(ram.byte(q) == r1.byte(q));
                        },
                        None => {},
                    }
                }
            }
        }
        i = i + 1;
    }
    Ok(get_u64(image, 24))
}

} // verus!
