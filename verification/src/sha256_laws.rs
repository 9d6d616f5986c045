//! What makes the digest a SHA-256, said of bits, bytes and numbers rather than of the
//! code.
use vstd::prelude::*;
use crate::sha256::Regs;

verus! {

/// Bit `i` of a word.
pub open spec fn bit(x: u32, i: u32) -> bool {
    (x >> i) & 1 == 1
}

/// The number that four bytes say, most significant first.
pub open spec fn number(a: u8, b: u8, c: u8, d: u8) -> int {
    a * 0x100_0000 + b * 0x1_0000 + c * 0x100 + d
}

proof fn lemma_word(block: Seq<u8>, at: int)
    requires
        0 <= at,
        at + 4 <= block.len(),
    ensures
        crate::bytes::be32(block, at) == number(
            block[at],
            block[at + 1],
            block[at + 2],
            block[at + 3],
        ),
{
    crate::bytes_laws::integers_are_what_their_bytes_say(block, at);
    lemma_big(block.subrange(at, at + 4));
}

proof fn lemma_big(b: Seq<u8>)
    requires
        b.len() == 4,
    ensures
        crate::bytes_laws::big(b) == number(b[0], b[1], b[2], b[3]),
{
    reveal_with_fuel(crate::bytes_laws::big, 5);
    let c = b.drop_last();
    assert(c.last() == b[2]);
    assert(c.drop_last().last() == b[1]);
    assert(c.drop_last().drop_last().last() == b[0]);
}

proof fn lemma_word_bytes(x: u32)
    ensures
        ({
            let b = crate::sha256::be32_bytes(x);
            b.len() == 4 && number(b[0], b[1], b[2], b[3]) == x
        }),
{
    crate::bytes_laws::bytes_say_their_integer(0, x, 0);
    lemma_big(crate::sha256::be32_bytes(x));
}

proof fn lemma_number_bounds(a: u8, b: u8, c: u8, d: u8, e: u8, f: u8, g: u8, h: u8)
    requires
        number(a, b, c, d) == number(e, f, g, h),
    ensures
        a == e && b == f && c == g && d == h,
{
}

// ---- the message schedule -------------------------------------------------------------------

/// The first sixteen words of the schedule are the block, four bytes to a word, the most
/// significant first: no bit of it is lost and none is added.
pub proof fn the_schedule_begins_with_the_block(block: Seq<u8>, t: int)
    requires
        block.len() == 64,
        0 <= t < 16,
    ensures
        crate::sha256::scheduled(block, t) == number(
            block[4 * t],
            block[4 * t + 1],
            block[4 * t + 2],
            block[4 * t + 3],
        ),
{
    lemma_word(block, 4 * t);
}

/// Two different blocks never have the same schedule: they differ in the word that holds
/// the byte they differ in.
pub proof fn different_blocks_have_different_schedules(a: Seq<u8>, b: Seq<u8>, i: int)
    requires
        a.len() == 64,
        b.len() == 64,
        0 <= i < 64,
        a[i] != b[i],
    ensures
        crate::sha256::scheduled(a, i / 4) != crate::sha256::scheduled(b, i / 4),
{
    let t = i / 4;
    the_schedule_begins_with_the_block(a, t);
    the_schedule_begins_with_the_block(b, t);
    if crate::sha256::scheduled(a, t) == crate::sha256::scheduled(b, t) {
        lemma_number_bounds(
            a[4 * t],
            a[4 * t + 1],
            a[4 * t + 2],
            a[4 * t + 3],
            b[4 * t],
            b[4 * t + 1],
            b[4 * t + 2],
            b[4 * t + 3],
        );
    }
}

/// Every later word is the sum, modulo the word size, of four earlier ones, two of them
/// turned and shifted.
pub proof fn the_schedule_goes_on_from_itself(block: Seq<u8>, t: int)
    requires
        16 <= t < 64,
    ensures
        crate::sha256::scheduled(block, t) == (crate::sha256::small_sigma1(
            crate::sha256::scheduled(block, t - 2),
        ) + crate::sha256::scheduled(block, t - 7) + crate::sha256::small_sigma0(
            crate::sha256::scheduled(block, t - 15),
        ) + crate::sha256::scheduled(block, t - 16)) % 0x1_0000_0000,
{
}

// ---- functions of bits ----------------------------------------------------------------------

/// The functions that stir the words, bit by bit: which bits of the argument are added up,
/// counted from the bit itself round the word, or off its end.
pub proof fn the_words_are_stirred_bit_by_bit(x: u32, i: u32)
    requires
        i < 32,
    ensures
        bit(crate::sha256::big_sigma0(x), i) == (bit(x, ((i + 2) % 32) as u32) != (bit(
            x,
            ((i + 13) % 32) as u32,
        ) != bit(x, ((i + 22) % 32) as u32))),
        bit(crate::sha256::big_sigma1(x), i) == (bit(x, ((i + 6) % 32) as u32) != (bit(
            x,
            ((i + 11) % 32) as u32,
        ) != bit(x, ((i + 25) % 32) as u32))),
        bit(crate::sha256::small_sigma0(x), i) == (bit(x, ((i + 7) % 32) as u32) != (bit(
            x,
            ((i + 18) % 32) as u32,
        ) != (i + 3 < 32 && bit(x, (i + 3) as u32)))),
        bit(crate::sha256::small_sigma1(x), i) == (bit(x, ((i + 17) % 32) as u32) != (bit(
            x,
            ((i + 19) % 32) as u32,
        ) != (i + 10 < 32 && bit(x, (i + 10) as u32)))),
{
    lemma_turned(x, 2, i);
    lemma_turned(x, 13, i);
    lemma_turned(x, 22, i);
    lemma_turned(x, 6, i);
    lemma_turned(x, 11, i);
    lemma_turned(x, 25, i);
    lemma_turned(x, 7, i);
    lemma_turned(x, 18, i);
    lemma_turned(x, 17, i);
    lemma_turned(x, 19, i);
    lemma_shifted(x, 3, i);
    lemma_shifted(x, 10, i);
    lemma_added(crate::sha256::rotr(x, 2), crate::sha256::rotr(x, 13), crate::sha256::rotr(x, 22), i);
    lemma_added(crate::sha256::rotr(x, 6), crate::sha256::rotr(x, 11), crate::sha256::rotr(x, 25), i);
    lemma_added(crate::sha256::rotr(x, 7), crate::sha256::rotr(x, 18), x >> 3, i);
    lemma_added(crate::sha256::rotr(x, 17), crate::sha256::rotr(x, 19), x >> 10, i);
}

proof fn lemma_turned(x: u32, n: u32, i: u32)
    requires
        0 < n < 32,
        i < 32,
    ensures
        bit(crate::sha256::rotr(x, n), i) == bit(x, ((i + n) % 32) as u32),
{
    let m = (32 - n) as u32;
    let j = ((i + n) % 32) as u32;
    assert((((x >> n) | (x << m)) >> i) & 1 == (x >> j) & 1) by (bit_vector)
        requires
            0 < n < 32,
            i < 32,
            m + n == 32,
            j < 32,
            j == i + n || j + 32 == i + n,
    ;
}

proof fn lemma_shifted(x: u32, n: u32, i: u32)
    requires
        n < 32,
        i < 32,
    ensures
        bit(x >> n, i) == (i + n < 32 && bit(x, (i + n) as u32)),
{
    let j = (i + n) as u32;
    assert(((x >> n) >> i) & 1 == if j < 32 {
        (x >> j) & 1
    } else {
        0
    }) by (bit_vector)
        requires
            n < 32,
            i < 32,
            j == i + n,
    ;
}

proof fn lemma_added(x: u32, y: u32, z: u32, i: u32)
    by (bit_vector)
    requires
        i < 32,
    ensures
        (((x ^ y ^ z) >> i) & 1 == 1) == (((x >> i) & 1 == 1) != (((y >> i) & 1 == 1) != ((z >> i)
            & 1 == 1))),
{
}

/// A choice takes each bit from the second word where the first has a one and from the
/// third where it has none; a majority is what at least two of three say.
pub proof fn choice_and_majority_bit_by_bit(x: u32, y: u32, z: u32, i: u32)
    requires
        i < 32,
    ensures
        bit(crate::sha256::ch(x, y, z), i) == (if bit(x, i) {
            bit(y, i)
        } else {
            bit(z, i)
        }),
        bit(crate::sha256::maj(x, y, z), i) == (if bit(x, i) == bit(y, i) {
            bit(x, i)
        } else {
            bit(z, i)
        }),
{
    lemma_choice(x, y, z, i);
}

proof fn lemma_choice(x: u32, y: u32, z: u32, i: u32)
    by (bit_vector)
    requires
        i < 32,
    ensures
        ((((x & y) ^ (!x & z)) >> i) & 1 == 1) == (if (x >> i) & 1 == 1 {
            (y >> i) & 1 == 1
        } else {
            (z >> i) & 1 == 1
        }),
        ((((x & y) ^ (x & z) ^ (y & z)) >> i) & 1 == 1) == (if ((x >> i) & 1 == 1) == ((y >> i) & 1
            == 1) {
            (x >> i) & 1 == 1
        } else {
            (z >> i) & 1 == 1
        }),
{
}

// ---- rounds ---------------------------------------------------------------------------------

/// A round moves every register on by one. What comes in at the front, and what is added to
/// the fifth, are sums modulo the word size.
pub proof fn a_round_moves_the_registers_on(r: Regs, k: u32, w: u32)
    ensures
        ({
            let s = crate::sha256::round(r, k, w);
            let m: int = 0x1_0000_0000;
            let t1 = r.h + crate::sha256::big_sigma1(r.e) + crate::sha256::ch(r.e, r.f, r.g) + k + w;
            let t2 = crate::sha256::big_sigma0(r.a) + crate::sha256::maj(r.a, r.b, r.c);
            &&& s.b == r.a && s.c == r.b && s.d == r.c
            &&& s.f == r.e && s.g == r.f && s.h == r.g
            &&& s.a == (t1 + t2) % m
            &&& s.e == (r.d + t1) % m
        }),
{
    let s1 = crate::sha256::big_sigma1(r.e);
    let c = crate::sha256::ch(r.e, r.f, r.g);
    let s0 = crate::sha256::big_sigma0(r.a);
    let j = crate::sha256::maj(r.a, r.b, r.c);
    lemma_front(r, s1, c, s0, j, k, w);
}

proof fn lemma_front(r: Regs, s1: u32, c: u32, s0: u32, j: u32, k: u32, w: u32)
    ensures
        ({
            let t1 = r.h.wrapping_add(s1).wrapping_add(c).wrapping_add(k).wrapping_add(w);
            let t2 = s0.wrapping_add(j);
            &&& t1.wrapping_add(t2) == (r.h + s1 + c + k + w + s0 + j) % 0x1_0000_0000
            &&& r.d.wrapping_add(t1) == (r.d + (r.h + s1 + c + k + w)) % 0x1_0000_0000
        }),
{
    let a = r.h.wrapping_add(s1);
    let b = a.wrapping_add(c);
    let d = b.wrapping_add(k);
    let t1 = d.wrapping_add(w);
    let t2 = s0.wrapping_add(j);
    lemma_plus(r.h, r.h as int, s1, s1 as int);
    lemma_plus(a, r.h + s1, c, c as int);
    lemma_plus(b, r.h + s1 + c, k, k as int);
    lemma_plus(d, r.h + s1 + c + k, w, w as int);
    lemma_plus(s0, s0 as int, j, j as int);
    lemma_plus(t1, r.h + s1 + c + k + w, t2, s0 + j);
    lemma_plus(r.d, r.d as int, t1, r.h + s1 + c + k + w);
}

/// Adding words modulo their size is adding numbers modulo that size.
proof fn lemma_plus(x: u32, a: int, y: u32, b: int)
    requires
        x == a % 0x1_0000_0000,
        y == b % 0x1_0000_0000,
    ensures
        x.wrapping_add(y) == (a + b) % 0x1_0000_0000,
{
}

/// No round loses anything: two states that differ, or two words that differ, come out
/// different.
#[verifier::rlimit(40)]
pub proof fn a_round_loses_nothing(r: Regs, q: Regs, k: u32, w: u32, v: u32)
    ensures
        crate::sha256::round(r, k, w) == crate::sha256::round(q, k, w) ==> r == q,
        crate::sha256::round(r, k, w) == crate::sha256::round(r, k, v) ==> w == v,
{
    a_round_moves_the_registers_on(r, k, w);
    a_round_moves_the_registers_on(q, k, w);
    a_round_moves_the_registers_on(r, k, v);
}

/// There are as many rounds as words in the schedule, each with its own constant and word.
pub proof fn every_word_has_its_round(r: Regs, block: Seq<u8>, n: int)
    requires
        0 <= n < 64,
    ensures
        crate::sha256::rounds(r, block, 0) == r,
        crate::sha256::rounds(r, block, n + 1) == crate::sha256::round(
            crate::sha256::rounds(r, block, n),
            crate::sha256::K@[n],
            crate::sha256::scheduled(block, n),
        ),
{
}

proof fn lemma_same_so_far(r: Regs, a: Seq<u8>, b: Seq<u8>, n: int)
    requires
        a.len() == 64,
        b.len() == 64,
        0 <= n <= 16,
        forall|i: int| 0 <= i < 4 * n ==> #[trigger] a[i] == b[i],
    ensures
        crate::sha256::rounds(r, a, n) == crate::sha256::rounds(r, b, n),
    decreases n,
{
    if n > 0 {
        lemma_same_so_far(r, a, b, n - 1);
        the_schedule_begins_with_the_block(a, n - 1);
        the_schedule_begins_with_the_block(b, n - 1);
        assert(a[4 * (n - 1)] == b[4 * (n - 1)] && a[4 * (n - 1) + 1] == b[4 * (n - 1) + 1]
            && a[4 * (n - 1) + 2] == b[4 * (n - 1) + 2] && a[4 * (n - 1) + 3] == b[4 * (n - 1)
            + 3]);
    }
}

/// Every byte of a block is stirred in: where two blocks first differ, the registers differ
/// after the round that takes that byte.
pub proof fn every_byte_is_stirred_in(r: Regs, a: Seq<u8>, b: Seq<u8>, at: int)
    requires
        a.len() == 64,
        b.len() == 64,
        0 <= at < 64,
        a[at] != b[at],
        forall|i: int| 0 <= i < at ==> #[trigger] a[i] == b[i],
    ensures
        crate::sha256::rounds(r, a, at / 4 + 1) != crate::sha256::rounds(r, b, at / 4 + 1),
{
    let t = at / 4;
    lemma_same_so_far(r, a, b, t);
    different_blocks_have_different_schedules(a, b, at);
    a_round_loses_nothing(
        crate::sha256::rounds(r, a, t),
        crate::sha256::rounds(r, a, t),
        crate::sha256::K@[t],
        crate::sha256::scheduled(a, t),
        crate::sha256::scheduled(b, t),
    );
}

/// A block is compressed by adding what its sixty-four rounds make of the registers to the
/// registers themselves.
pub proof fn compressing_adds_the_rounds(r: Regs, block: Seq<u8>)
    ensures
        ({
            let s = crate::sha256::rounds(r, block, 64);
            let c = crate::sha256::compressed(r, block);
            let m: int = 0x1_0000_0000;
            &&& c.a == (r.a + s.a) % m && c.b == (r.b + s.b) % m
            &&& c.c == (r.c + s.c) % m && c.d == (r.d + s.d) % m
            &&& c.e == (r.e + s.e) % m && c.f == (r.f + s.f) % m
            &&& c.g == (r.g + s.g) % m && c.h == (r.h + s.h) % m
        }),
{
}

proof fn lemma_absorbed_prefix(a: Seq<u8>, b: Seq<u8>, n: int)
    requires
        64 * n <= a.len(),
        64 * n <= b.len(),
        forall|i: int| 0 <= i < 64 * n ==> #[trigger] a[i] == b[i],
    ensures
        crate::sha256::absorbed(a, n) == crate::sha256::absorbed(b, n),
    decreases n,
{
    if n > 0 {
        lemma_absorbed_prefix(a, b, n - 1);
        assert(a.subrange(64 * (n - 1), 64 * n) =~= b.subrange(64 * (n - 1), 64 * n));
    }
}

/// Blocks are absorbed one after the other, however many there are: one more block acts on
/// what all those before have left.
pub proof fn one_more_block_is_absorbed(data: Seq<u8>, n: int, block: Seq<u8>)
    requires
        n >= 0,
        data.len() == 64 * n,
        block.len() == 64,
    ensures
        crate::sha256::absorbed(data, 0) == crate::sha256::start(),
        crate::sha256::absorbed(data + block, n + 1) == crate::sha256::compressed(
            crate::sha256::absorbed(data, n),
            block,
        ),
{
    lemma_absorbed_prefix(data, data + block, n);
    assert((data + block).subrange(64 * n, 64 * (n + 1)) =~= block);
}

// ---- padding --------------------------------------------------------------------------------

/// The number that eight bytes say, most significant first.
pub open spec fn long_number(b: Seq<u8>) -> int {
    number(b[0], b[1], b[2], b[3]) * 0x1_0000_0000 + number(b[4], b[5], b[6], b[7])
}

proof fn lemma_halves(bits: u64)
    ensures
        bits == (bits >> 32) as u32 * 0x1_0000_0000 + bits as u32,
{
    crate::bytes_laws::halves_say_the_whole(bits);
}

/// A padded message is whole blocks, no more than it takes: the message, a byte with only
/// its first bit set, zeros, and in the last eight bytes the message's length in bits.
#[verifier::rlimit(40)]
pub proof fn a_message_is_padded(message: Seq<u8>)
    requires
        message.len() <= 0x1FFF_FFFF_FFFF_FFFF,
    ensures
        ({
            let n = message.len() as int;
            let p = crate::sha256::padded(message);
            &&& p.len() % 64 == 0
            &&& n + 9 <= p.len() < n + 9 + 64
            &&& p.take(n) == message
            &&& p[n] == 0x80
            &&& forall|i: int| n < i < p.len() - 8 ==> #[trigger] p[i] == 0
            &&& long_number(p.skip(p.len() - 8)) == 8 * n
        }),
{
    let n = message.len();
    let p = crate::sha256::padded(message);
    let bits = (8 * n) as u64;
    assert(p.take(n as int) =~= message);
    lemma_tail(bits);
    assert(p.skip(p.len() - 8) =~= length_field(bits));
}

/// The last eight bytes of a padded message of so many bits.
spec fn length_field(bits: u64) -> Seq<u8> {
    crate::sha256::be32_bytes((bits >> 32) as u32) + crate::sha256::be32_bytes(bits as u32)
}

proof fn lemma_tail(bits: u64)
    ensures
        length_field(bits).len() == 8,
        long_number(length_field(bits)) == bits,
{
    let hi = crate::sha256::be32_bytes((bits >> 32) as u32);
    let lo = crate::sha256::be32_bytes(bits as u32);
    lemma_word_bytes((bits >> 32) as u32);
    lemma_word_bytes(bits as u32);
    lemma_halves(bits);
    let f = hi + lo;
    assert(f[0] == hi[0] && f[1] == hi[1] && f[2] == hi[2] && f[3] == hi[3]);
    assert(f[4] == lo[0] && f[5] == lo[1] && f[6] == lo[2] && f[7] == lo[3]);
}

/// Different messages are padded differently.
pub proof fn padding_tells_messages_apart(a: Seq<u8>, b: Seq<u8>)
    requires
        a.len() <= 0x1FFF_FFFF_FFFF_FFFF,
        b.len() <= 0x1FFF_FFFF_FFFF_FFFF,
        crate::sha256::padded(a) == crate::sha256::padded(b),
    ensures
        a == b,
{
    a_message_is_padded(a);
    a_message_is_padded(b);
}

// ---- the digest -----------------------------------------------------------------------------

/// A digest is the eight registers, each most significant byte first, after the whole padded
/// message has been absorbed.
pub proof fn a_digest_is_the_registers(message: Seq<u8>, i: int)
    requires
        0 <= i < 8,
    ensures
        ({
            let p = crate::sha256::padded(message);
            let r = crate::sha256::absorbed(p, p.len() as int / 64);
            let d = crate::sha256::digest_of(message);
            let regs = seq![r.a, r.b, r.c, r.d, r.e, r.f, r.g, r.h];
            &&& d.len() == 32
            &&& number(d[4 * i], d[4 * i + 1], d[4 * i + 2], d[4 * i + 3]) == regs[i]
        }),
{
    reveal(crate::sha256::digest_of);
    let p = crate::sha256::padded(message);
    let r = crate::sha256::absorbed(p, p.len() as int / 64);
    lemma_word_bytes(r.a);
    lemma_word_bytes(r.b);
    lemma_word_bytes(r.c);
    lemma_word_bytes(r.d);
    lemma_word_bytes(r.e);
    lemma_word_bytes(r.f);
    lemma_word_bytes(r.g);
    lemma_word_bytes(r.h);
}

} // verus!
