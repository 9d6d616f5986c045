//! What integers in byte buffers are as numbers.
use vstd::prelude::*;

verus! {

proof fn lemma_numbers(a: u8, b: u8, c: u8, d: u8, lo: u32, hi: u32)
    by (bit_vector)
    ensures
        (a as u16) | ((b as u16) << 8) == (a as u16) + (b as u16) * 0x100u16,
        ((a as u16) << 8) | (b as u16) == (a as u16) * 0x100u16 + (b as u16),
        (a as u32) | ((b as u32) << 8) | ((c as u32) << 16) | ((d as u32) << 24) == (a as u32) + (
        b as u32) * 0x100u32 + (c as u32) * 0x1_0000u32 + (d as u32) * 0x100_0000u32,
        ((a as u32) << 24) | ((b as u32) << 16) | ((c as u32) << 8) | (d as u32) == (a as u32)
            * 0x100_0000u32 + (b as u32) * 0x1_0000u32 + (c as u32) * 0x100u32 + (d as u32),
        (lo as u64) | ((hi as u64) << 32) == (lo as u64) + (hi as u64) * 0x1_0000_0000u64,
{
}

proof fn lemma_parts(h: u16, w: u32, x: u64)
    by (bit_vector)
    ensures
        h == (h as u8 as u16) + ((h >> 8) as u8 as u16) * 0x100u16,
        w == (w as u8 as u32) + ((w >> 8) as u8 as u32) * 0x100u32 + ((w >> 16) as u8 as u32)
            * 0x1_0000u32 + ((w >> 24) as u8 as u32) * 0x100_0000u32,
        x == (x as u32 as u64) + ((x >> 32) as u32 as u64) * 0x1_0000_0000u64,
{
}

/// The number that bytes say, least significant first.
pub open spec fn little(b: Seq<u8>) -> int
    decreases b.len(),
{
    if b.len() == 0 {
        0
    } else {
        b[0] + 0x100 * little(b.skip(1))
    }
}

/// The number that bytes say, most significant first.
pub open spec fn big(b: Seq<u8>) -> int
    decreases b.len(),
{
    if b.len() == 0 {
        0
    } else {
        big(b.drop_last()) * 0x100 + b.last()
    }
}

/// Two bytes say the first times 256 and the second.
pub proof fn two_bytes_say(b: Seq<u8>)
    requires
        b.len() == 2,
    ensures
        big(b) == b[0] * 256 + b[1],
{
    reveal_with_fuel(big, 4);
}

/// Bytes never say a negative number.
pub proof fn big_is_not_negative(b: Seq<u8>)
    ensures
        0 <= big(b),
    decreases b.len(),
{
    if b.len() > 0 {
        big_is_not_negative(b.drop_last());
    }
}

proof fn lemma_little(b: Seq<u8>)
    ensures
        b.len() == 2 ==> little(b) == b[0] + 0x100 * b[1],
        b.len() == 4 ==> little(b) == b[0] + 0x100 * b[1] + 0x1_0000 * b[2] + 0x100_0000 * b[3],
        b.len() == 2 ==> big(b) == b[0] * 0x100 + b[1],
        b.len() == 4 ==> big(b) == b[0] * 0x100_0000 + b[1] * 0x1_0000 + b[2] * 0x100 + b[3],
{
    reveal_with_fuel(little, 5);
    reveal_with_fuel(big, 5);
    if b.len() == 2 || b.len() == 4 {
        assert(b.skip(1)[0] == b[1]);
        assert(b.skip(1).skip(1) =~= b.skip(2));
        assert(b.drop_last().last() == b[b.len() - 2]);
        if b.len() == 4 {
            assert(b.skip(2)[0] == b[2]);
            assert(b.skip(2).skip(1) =~= b.skip(3));
            assert(b.skip(3)[0] == b[3]);
            assert(b.skip(3).skip(1) =~= Seq::empty());
            let c = b.drop_last();
            assert(c.drop_last().last() == b[1]);
            assert(c.drop_last().drop_last().last() == b[0]);
        }
    }
}

proof fn lemma_little_halves(b: Seq<u8>, n: int)
    requires
        0 <= n <= b.len(),
        n == 4,
    ensures
        little(b) == little(b.take(n)) + 0x1_0000_0000 * little(b.skip(n)),
{
    reveal_with_fuel(little, 6);
    let t = b.take(4);
    assert(b.skip(1).skip(1) =~= b.skip(2));
    assert(b.skip(2).skip(1) =~= b.skip(3));
    assert(b.skip(3).skip(1) =~= b.skip(4));
    assert(b.skip(1)[0] == b[1] && b.skip(2)[0] == b[2] && b.skip(3)[0] == b[3]);
    lemma_little(t);
}

/// What is read from a buffer is the number its bytes say, in the order it is read in; no
/// byte counts for more or less than its place.
pub proof fn integers_are_what_their_bytes_say(b: Seq<u8>, at: int)
    requires
        0 <= at,
    ensures
        at + 2 <= b.len() ==> crate::bytes::le16(b, at) == little(b.subrange(at, at + 2)),
        at + 4 <= b.len() ==> crate::bytes::le32(b, at) == little(b.subrange(at, at + 4)),
        at + 8 <= b.len() ==> crate::bytes::le64(b, at) == little(b.subrange(at, at + 8)),
        at + 2 <= b.len() ==> crate::bytes::be16(b, at) == big(b.subrange(at, at + 2)),
        at + 4 <= b.len() ==> crate::bytes::be32(b, at) == big(b.subrange(at, at + 4)),
{
    if at + 2 <= b.len() {
        lemma_little(b.subrange(at, at + 2));
        lemma_numbers(b[at], b[at + 1], 0, 0, 0, 0);
    }
    if at + 4 <= b.len() {
        lemma_little(b.subrange(at, at + 4));
        lemma_numbers(b[at], b[at + 1], b[at + 2], b[at + 3], 0, 0);
    }
    if at + 8 <= b.len() {
        let s = b.subrange(at, at + 8);
        lemma_little(b.subrange(at + 4, at + 8));
        lemma_numbers(b[at + 4], b[at + 5], b[at + 6], b[at + 7], 0, 0);
        lemma_numbers(0, 0, 0, 0, crate::bytes::le32(b, at), crate::bytes::le32(b, at + 4));
        lemma_little_halves(s, 4);
        assert(s.take(4) =~= b.subrange(at, at + 4));
        assert(s.skip(4) =~= b.subrange(at + 4, at + 8));
    }
}

/// What is written of an integer are as many bytes as it has, and they say it.
pub proof fn bytes_say_their_integer(h: u16, w: u32, x: u64)
    ensures
        crate::bytes::le16_bytes(h).len() == 2 && little(crate::bytes::le16_bytes(h)) == h,
        crate::bytes::le32_bytes(w).len() == 4 && little(crate::bytes::le32_bytes(w)) == w,
        crate::bytes::le64_bytes(x).len() == 8 && little(crate::bytes::le64_bytes(x)) == x,
        crate::bytes::be16_bytes(h).len() == 2 && big(crate::bytes::be16_bytes(h)) == h,
        crate::sha256::be32_bytes(w).len() == 4 && big(crate::sha256::be32_bytes(w)) == w,
{
    lemma_parts(h, w, x);
    lemma_parts(h, x as u32, x);
    lemma_parts(h, (x >> 32) as u32, x);
    lemma_little(crate::bytes::le16_bytes(h));
    lemma_little(crate::bytes::be16_bytes(h));
    lemma_little(crate::bytes::le32_bytes(w));
    lemma_little(crate::sha256::be32_bytes(w));
    lemma_little(crate::bytes::le32_bytes(x as u32));
    lemma_little(crate::bytes::le32_bytes((x >> 32) as u32));
    let all = crate::bytes::le64_bytes(x);
    lemma_little_halves(all, 4);
    assert(all.take(4) =~= crate::bytes::le32_bytes(x as u32));
    assert(all.skip(4) =~= crate::bytes::le32_bytes((x >> 32) as u32));
}

/// The two halves of a long word say all of it.
pub proof fn halves_say_the_whole(x: u64)
    ensures
        x == (x >> 32) as u32 * 0x1_0000_0000 + x as u32,
{
    lemma_parts(0, 0, x);
}

/// Putting bytes in a buffer puts them there and changes nothing else, its length included.
pub proof fn a_splice_changes_only_its_place(b: Seq<u8>, at: int, d: Seq<u8>, i: int)
    requires
        0 <= at,
        at + d.len() <= b.len(),
        0 <= i < b.len(),
    ensures
        crate::bytes::splice(b, at, d).len() == b.len(),
        crate::bytes::splice(b, at, d)[i] == if at <= i < at + d.len() {
            d[i - at]
        } else {
            b[i]
        },
{
}

} // verus!
