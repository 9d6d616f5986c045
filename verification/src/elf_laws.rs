//! What the loader promises of an image, said of its bytes.
use vstd::prelude::*;
use crate::bytes_laws::little;
use crate::elf::Phdr;
use crate::mm::paging::Perm;

verus! {

proof fn lemma_flags(flags: u32)
    by (bit_vector)
    ensures
        (flags & 1 != 0) == (flags % 2 == 1),
        (flags & 2 != 0) == (flags / 2 % 2 == 1),
{
}

/// An image is taken exactly when it says of itself, in the bytes where such images say it,
/// that it is a 64-bit little-endian static executable for this architecture.
pub proof fn an_image_says_what_it_is(b: Seq<u8>)
    ensures
        crate::elf::header_error(b) is None <==> {
            &&& b.len() >= 64
            &&& b[0] == 0x7f && b[1] == 0x45 && b[2] == 0x4c && b[3] == 0x46
            &&& b[4] == 2 && b[5] == 1
            &&& b[16] == 2 && b[17] == 0
            &&& b[18] == 183 && b[19] == 0
        },
{
    if b.len() >= 64 {
        crate::bytes_laws::integers_are_what_their_bytes_say(b, 16);
        crate::bytes_laws::integers_are_what_their_bytes_say(b, 18);
        reveal_with_fuel(little, 4);
    }
}

/// Where an image says what is in it: the entry point at byte 24, its program headers at the
/// place that byte 32 says, as many as byte 56 says, each as long as byte 54 says. In a header
/// come its type, its flags, then where its bytes are in the file, where they go, and — after a
/// word that is not used — how many are in the file and how many in memory.
pub proof fn a_program_header_is_read_in_place(b: Seq<u8>, i: int)
    requires
        b.len() >= 64,
        0 <= i,
        crate::elf::header_at(b, i) + 56 <= b.len(),
    ensures
        crate::elf::entry_of(b) == little(b.subrange(24, 32)),
        crate::elf::header_count(b) == little(b.subrange(56, 58)),
        crate::elf::header_at(b, i) == little(b.subrange(32, 40)) + i * little(b.subrange(54, 56)),
        ({
            let at = crate::elf::header_at(b, i);
            let p = crate::elf::phdr(b, i);
            &&& p.ptype == little(b.subrange(at, at + 4))
            &&& p.flags == little(b.subrange(at + 4, at + 8))
            &&& p.offset == little(b.subrange(at + 8, at + 16))
            &&& p.vaddr == little(b.subrange(at + 16, at + 24))
            &&& p.filesz == little(b.subrange(at + 32, at + 40))
            &&& p.memsz == little(b.subrange(at + 40, at + 48))
        }),
{
    let at = crate::elf::header_at(b, i);
    crate::bytes_laws::integers_are_what_their_bytes_say(b, 24);
    crate::bytes_laws::integers_are_what_their_bytes_say(b, 32);
    crate::bytes_laws::integers_are_what_their_bytes_say(b, 54);
    crate::bytes_laws::integers_are_what_their_bytes_say(b, 56);
    assert(0 <= i * crate::bytes::le16(b, 54)) by (nonlinear_arith)
        requires
            0 <= i,
            0 <= crate::bytes::le16(b, 54),
    ;
    crate::bytes_laws::integers_are_what_their_bytes_say(b, at);
    crate::bytes_laws::integers_are_what_their_bytes_say(b, at + 4);
    crate::bytes_laws::integers_are_what_their_bytes_say(b, at + 8);
    crate::bytes_laws::integers_are_what_their_bytes_say(b, at + 16);
    crate::bytes_laws::integers_are_what_their_bytes_say(b, at + 32);
    crate::bytes_laws::integers_are_what_their_bytes_say(b, at + 40);
}

/// What a segment may do is what its flags say: the lowest asks to be executed, the next to be
/// written. What is executed is never written, whatever the flags say.
pub proof fn a_segment_may_do_what_it_asks(flags: u32)
    ensures
        crate::elf::perm_of(flags) == (if flags % 2 == 1 {
            Perm::UserText
        } else if flags / 2 % 2 == 1 {
            Perm::UserData
        } else {
            Perm::UserReadOnly
        }),
{
    lemma_flags(flags);
}

/// Whether a header asks for the page that `w` is in: it is to be loaded, and some byte of that
/// page is one of its bytes in memory.
pub open spec fn asks_for(p: Phdr, w: int) -> bool {
    &&& p.ptype == 1
    &&& exists|a: int| p.vaddr <= a < p.vaddr + p.memsz && #[trigger] (a / 4096) == w / 4096
}

proof fn lemma_asks_for(p: Phdr, w: int)
    requires
        0 <= w,
    ensures
        asks_for(p, w) == (crate::elf::loads(p) && crate::elf::seg_start(p) <= w
            < crate::elf::seg_end(p)),
{
    if asks_for(p, w) {
        let a = choose|a: int|
            p.vaddr <= a < p.vaddr + p.memsz && #[trigger] (a / 4096) == w / 4096;
        assert(p.vaddr as int / 4096 <= a / 4096);
    }
    if crate::elf::loads(p) && crate::elf::seg_start(p) <= w < crate::elf::seg_end(p) {
        let first = p.vaddr as int;
        let last = p.vaddr + p.memsz - 1;
        if first / 4096 == w / 4096 {
            assert(p.vaddr <= first < p.vaddr + p.memsz && first / 4096 == w / 4096);
        } else if w <= last {
            assert(p.vaddr <= w < p.vaddr + p.memsz && w / 4096 == w / 4096);
        } else {
            assert(last / 4096 == w / 4096);
            assert(p.vaddr <= last < p.vaddr + p.memsz && last / 4096 == w / 4096);
        }
    }
}

/// Which segment an address belongs to: the last that asks for its page, or none if none does.
pub proof fn the_last_segment_to_ask_has_the_page(b: Seq<u8>, n: int, w: int, k: int)
    requires
        0 <= w,
        0 <= k < n,
    ensures
        match crate::elf::covering(b, n, w) {
            Some(i) => 0 <= i < n && asks_for(crate::elf::phdr(b, i), w) && (i < k ==> !asks_for(
                crate::elf::phdr(b, k),
                w,
            )),
            None => !asks_for(crate::elf::phdr(b, k), w),
        },
    decreases n,
{
    lemma_asks_for(crate::elf::phdr(b, n - 1), w);
    lemma_asks_for(crate::elf::phdr(b, k), w);
    if !asks_for(crate::elf::phdr(b, n - 1), w) {
        if k < n - 1 {
            the_last_segment_to_ask_has_the_page(b, n - 1, w, k);
        } else if n > 1 {
            the_last_segment_to_ask_has_the_page(b, n - 1, w, 0);
        } else {
            assert(crate::elf::covering(b, 0, w) is None);
        }
    }
}

/// A segment's bytes are the file's, in their order and from where it says; what it asks for
/// beyond them, and the rest of its pages, is zero.
pub proof fn a_segment_holds_its_part_of_the_file(b: Seq<u8>, i: int, w: int)
    ensures
        ({
            let p = crate::elf::phdr(b, i);
            let k = w - p.vaddr;
            &&& 0 <= k < p.filesz ==> crate::elf::content(b, i, w) == b[p.offset + k]
            &&& k < 0 || k >= p.filesz ==> crate::elf::content(b, i, w) == 0
        }),
{
}

/// A segment is refused exactly when its header is not all there, or when it is to be loaded and
/// has more bytes in the file than in memory or bytes that the file does not have.
pub proof fn a_segment_is_refused_for_what_is_missing(b: Seq<u8>, i: int)
    ensures
        ({
            let p = crate::elf::phdr(b, i);
            crate::elf::segment_error(b, i) is None <==> {
                &&& crate::elf::header_at(b, i) + 56 <= b.len()
                &&& p.ptype == 1 && p.memsz > 0 ==> p.filesz <= p.memsz && p.offset + p.filesz
                    <= b.len()
            }
        }),
{
}

/// The segment a load stops at is the first with something wrong: every one before it is sound.
pub proof fn a_load_stops_at_the_first_fault(b: Seq<u8>, i: int, k: int)
    requires
        0 <= i <= crate::elf::header_count(b),
        i <= k,
    ensures
        ({
            let bad = crate::elf::first_bad_segment(b, i);
            &&& i <= bad <= crate::elf::header_count(b)
            &&& k < bad ==> crate::elf::segment_error(b, k) is None
            &&& bad < crate::elf::header_count(b) ==> crate::elf::segment_error(b, bad) is Some
        }),
    decreases crate::elf::header_count(b) - i,
{
    if i < crate::elf::header_count(b) && crate::elf::segment_error(b, i) is None {
        if k > i {
            a_load_stops_at_the_first_fault(b, i + 1, k);
        } else {
            a_load_stops_at_the_first_fault(b, i + 1, i + 1);
        }
    }
}

/// The room an image may need is the sum over its segments of its pages and three tables for
/// each; one that is not loaded needs none.
pub proof fn room_is_counted_by_the_page(b: Seq<u8>, n: int)
    requires
        0 <= n,
    ensures
        crate::elf::frames_for(b, 0) == 0,
        ({
            let p = crate::elf::phdr(b, n);
            let first = p.vaddr as int / 4096;
            let last = (p.vaddr + p.memsz - 1) / 4096;
            crate::elf::frames_for(b, n + 1) == crate::elf::frames_for(b, n) + (if p.ptype == 1
                && p.memsz > 0 {
                4 * (last - first + 1)
            } else {
                0
            })
        }),
{
}

} // verus!
