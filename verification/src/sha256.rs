//! The SHA-256 hash function.
//!
//! [`digest_of`] is the definition: pad the message, run the compression
//! function over its blocks, write the registers down. [`Sha256`] computes it
//! over a message that arrives in pieces.
use vstd::prelude::*;
use crate::bytes::get_be32;

verus! {

/// The round constants: the first thirty-two bits of the fractional parts of the
/// cube roots of the first primes.
pub const K: [u32; 64] = [
    0x428a_2f98, 0x7137_4491, 0xb5c0_fbcf, 0xe9b5_dba5,
    0x3956_c25b, 0x59f1_11f1, 0x923f_82a4, 0xab1c_5ed5,
    0xd807_aa98, 0x1283_5b01, 0x2431_85be, 0x550c_7dc3,
    0x72be_5d74, 0x80de_b1fe, 0x9bdc_06a7, 0xc19b_f174,
    0xe49b_69c1, 0xefbe_4786, 0x0fc1_9dc6, 0x240c_a1cc,
    0x2de9_2c6f, 0x4a74_84aa, 0x5cb0_a9dc, 0x76f9_88da,
    0x983e_5152, 0xa831_c66d, 0xb003_27c8, 0xbf59_7fc7,
    0xc6e0_0bf3, 0xd5a7_9147, 0x06ca_6351, 0x1429_2967,
    0x27b7_0a85, 0x2e1b_2138, 0x4d2c_6dfc, 0x5338_0d13,
    0x650a_7354, 0x766a_0abb, 0x81c2_c92e, 0x9272_2c85,
    0xa2bf_e8a1, 0xa81a_664b, 0xc24b_8b70, 0xc76c_51a3,
    0xd192_e819, 0xd699_0624, 0xf40e_3585, 0x106a_a070,
    0x19a4_c116, 0x1e37_6c08, 0x2748_774c, 0x34b0_bcb5,
    0x391c_0cb3, 0x4ed8_aa4a, 0x5b9c_ca4f, 0x682e_6ff3,
    0x748f_82ee, 0x78a5_636f, 0x84c8_7814, 0x8cc7_0208,
    0x90be_fffa, 0xa450_6ceb, 0xbef9_a3f7, 0xc671_78f2,
];

/// The eight working registers.
#[derive(Clone, Copy)]
pub struct Regs {
    pub a: u32,
    pub b: u32,
    pub c: u32,
    pub d: u32,
    pub e: u32,
    pub f: u32,
    pub g: u32,
    pub h: u32,
}

/// Where every digest starts: the fractional parts of the square roots of the
/// first eight primes.
pub open spec fn start() -> Regs {
    Regs {
        a: 0x6a09_e667,
        b: 0xbb67_ae85,
        c: 0x3c6e_f372,
        d: 0xa54f_f53a,
        e: 0x510e_527f,
        f: 0x9b05_688c,
        g: 0x1f83_d9ab,
        h: 0x5be0_cd19,
    }
}

/// Rotation to the right.
pub open spec fn rotr(x: u32, n: u32) -> u32 {
    (x >> n) | (x << ((32 - n) as u32))
}

pub open spec fn big_sigma0(x: u32) -> u32 {
    rotr(x, 2) ^ rotr(x, 13) ^ rotr(x, 22)
}

pub open spec fn big_sigma1(x: u32) -> u32 {
    rotr(x, 6) ^ rotr(x, 11) ^ rotr(x, 25)
}

pub open spec fn small_sigma0(x: u32) -> u32 {
    rotr(x, 7) ^ rotr(x, 18) ^ (x >> 3)
}

pub open spec fn small_sigma1(x: u32) -> u32 {
    rotr(x, 17) ^ rotr(x, 19) ^ (x >> 10)
}

/// For each bit, `y` where `x` is set and `z` where it is not.
pub open spec fn ch(x: u32, y: u32, z: u32) -> u32 {
    (x & y) ^ (!x & z)
}

/// For each bit, what at least two of the three say.
pub open spec fn maj(x: u32, y: u32, z: u32) -> u32 {
    (x & y) ^ (x & z) ^ (y & z)
}

/// Word `t` of the message schedule of a block.
pub open spec fn scheduled(block: Seq<u8>, t: int) -> u32
    decreases t,
{
    if t < 16 {
        crate::bytes::be32(block, 4 * t)
    } else {
        small_sigma1(scheduled(block, t - 2)).wrapping_add(scheduled(block, t - 7)).wrapping_add(
            small_sigma0(scheduled(block, t - 15)),
        ).wrapping_add(scheduled(block, t - 16))
    }
}

/// One round.
pub open spec fn round(r: Regs, k: u32, w: u32) -> Regs {
    let t1 = r.h.wrapping_add(big_sigma1(r.e)).wrapping_add(ch(r.e, r.f, r.g)).wrapping_add(
        k,
    ).wrapping_add(w);
    let t2 = big_sigma0(r.a).wrapping_add(maj(r.a, r.b, r.c));
    Regs {
        a: t1.wrapping_add(t2),
        b: r.a,
        c: r.b,
        d: r.c,
        e: r.d.wrapping_add(t1),
        f: r.e,
        g: r.f,
        h: r.g,
    }
}

/// The first `n` rounds over a block.
pub open spec fn rounds(r: Regs, block: Seq<u8>, n: int) -> Regs
    decreases n,
{
    if n <= 0 {
        r
    } else {
        round(rounds(r, block, n - 1), K@[n - 1], scheduled(block, n - 1))
    }
}

/// The compression function.
pub open spec fn compressed(r: Regs, block: Seq<u8>) -> Regs {
    let s = rounds(r, block, 64);
    Regs {
        a: r.a.wrapping_add(s.a),
        b: r.b.wrapping_add(s.b),
        c: r.c.wrapping_add(s.c),
        d: r.d.wrapping_add(s.d),
        e: r.e.wrapping_add(s.e),
        f: r.f.wrapping_add(s.f),
        g: r.g.wrapping_add(s.g),
        h: r.h.wrapping_add(s.h),
    }
}

/// The registers after the first `n` blocks of `data`.
pub open spec fn absorbed(data: Seq<u8>, n: int) -> Regs
    decreases n,
{
    if n <= 0 {
        start()
    } else {
        compressed(absorbed(data, n - 1), data.subrange(64 * (n - 1), 64 * n))
    }
}

/// A word, most significant byte first.
pub open spec fn be32_bytes(x: u32) -> Seq<u8> {
    seq![(x >> 24) as u8, (x >> 16) as u8, (x >> 8) as u8, x as u8]
}

/// How many zero bytes go between the mark and the length.
pub open spec fn fill(len: nat) -> nat {
    ((119 - len % 64) % 64) as nat
}

/// What is put behind a message of `len` bytes: a one bit, zeros up to eight
/// bytes short of a block, and the length in bits.
pub open spec fn padding(len: nat) -> Seq<u8> {
    let bits = (8 * len) as u64;
    seq![0x80u8] + Seq::new(fill(len), |i: int| 0u8) + be32_bytes((bits >> 32) as u32) + be32_bytes(
        bits as u32,
    )
}

pub open spec fn padded(message: Seq<u8>) -> Seq<u8> {
    message + padding(message.len())
}

/// Eight registers as thirty-two bytes.
pub open spec fn written(r: Regs) -> Seq<u8> {
    be32_bytes(r.a) + be32_bytes(r.b) + be32_bytes(r.c) + be32_bytes(r.d) + be32_bytes(r.e)
        + be32_bytes(r.f) + be32_bytes(r.g) + be32_bytes(r.h)
}

/// The digest of a message.
#[verifier::opaque]
pub open spec fn digest_of(message: Seq<u8>) -> Seq<u8> {
    written(absorbed(padded(message), padded(message).len() as int / 64))
}

/// A digest has thirty-two bytes.
pub proof fn digest_has_32_bytes(message: Seq<u8>)
    ensures
        digest_of(message).len() == 32,
{
    reveal(digest_of);
}

/// The longest message, in bytes: its length in bits is written in eight bytes.
pub const MAX_MESSAGE: u64 = 0x1FFF_FFFF_FFFF_FFFF;

fn rotate(x: u32, n: u32) -> (r: u32)
    requires
        0 < n < 32,
    ensures
        r == rotr(x, n),
{
    (x >> n) | (x << (32 - n))
}

fn one_round(r: &Regs, k: u32, w: u32) -> (s: Regs)
    ensures
        s == round(*r, k, w),
{
    let s1 = rotate(r.e, 6) ^ rotate(r.e, 11) ^ rotate(r.e, 25);
    let choice = (r.e & r.f) ^ (!r.e & r.g);
    let t1 = r.h.wrapping_add(s1).wrapping_add(choice).wrapping_add(k).wrapping_add(w);
    let s0 = rotate(r.a, 2) ^ rotate(r.a, 13) ^ rotate(r.a, 22);
    let majority = (r.a & r.b) ^ (r.a & r.c) ^ (r.b & r.c);
    let t2 = s0.wrapping_add(majority);
    Regs {
        a: t1.wrapping_add(t2),
        b: r.a,
        c: r.b,
        d: r.c,
        e: r.d.wrapping_add(t1),
        f: r.e,
        g: r.f,
        h: r.g,
    }
}

fn schedule(block: &[u8; 64]) -> (w: [u32; 64])
    ensures
        forall|t: int| 0 <= t < 64 ==> #[trigger] w@[t] == scheduled(block@, t),
{
    let mut w: [u32; 64] = [0;64];
    let mut t: usize = 0;
    while t < 16
        invariant
            t <= 16,
            forall|j: int| 0 <= j < t ==> #[trigger] w@[j] == scheduled(block@, j),
        decreases 16 - t,
    {
        w[t] = get_be32(block, 4 * t);
        t = t + 1;
    }
    while t < 64
        invariant
            16 <= t <= 64,
            forall|j: int| 0 <= j < t ==> #[trigger] w@[j] == scheduled(block@, j),
        decreases 64 - t,
    {
        let x = w[t - 2];
        let y = w[t - 15];
        let s1 = rotate(x, 17) ^ rotate(x, 19) ^ (x >> 10);
        let s0 = rotate(y, 7) ^ rotate(y, 18) ^ (y >> 3);
        let z7 = w[t - 7];
        let z16 = w[t - 16];
        assert(x == scheduled(block@, t - 2));
        assert(y == scheduled(block@, t - 15));
        assert(z7 == scheduled(block@, t - 7));
        assert(z16 == scheduled(block@, t - 16));
        w[t] = s1.wrapping_add(z7).wrapping_add(s0).wrapping_add(z16);
        t = t + 1;
    }
    w
}

fn compress(r: &Regs, block: &[u8; 64]) -> (s: Regs)
    ensures
        s == compressed(*r, block@),
{
    let w = schedule(block);
    let mut s = *r;
    let mut t: usize = 0;
    while t < 64
        invariant
            t <= 64,
            s == rounds(*r, block@, t as int),
            forall|j: int| 0 <= j < 64 ==> #[trigger] w@[j] == scheduled(block@, j),
        decreases 64 - t,
    {
        s = one_round(&s, K[t], w[t]);
        t = t + 1;
    }
    Regs {
        a: r.a.wrapping_add(s.a),
        b: r.b.wrapping_add(s.b),
        c: r.c.wrapping_add(s.c),
        d: r.d.wrapping_add(s.d),
        e: r.e.wrapping_add(s.e),
        f: r.f.wrapping_add(s.f),
        g: r.g.wrapping_add(s.g),
        h: r.h.wrapping_add(s.h),
    }
}

/// A digest in the making. Its view is the message so far.
pub struct Sha256 {
    regs: Regs,
    block: [u8; 64],
    used: usize,
    length: u64,
    message: Ghost<Seq<u8>>,
}

impl View for Sha256 {
    type V = Seq<u8>;

    closed spec fn view(&self) -> Seq<u8> {
        self.message@
    }
}

impl Sha256 {
    /// Whole blocks have been compressed; the rest waits in the block buffer.
    pub closed spec fn wf(&self) -> bool {
        &&& self.length == self@.len()
        &&& self.length <= MAX_MESSAGE
        &&& self.used == self@.len() % 64
        &&& self.block@.take(self.used as int) == self@.skip(self@.len() - self.used)
        &&& self.regs == absorbed(self@, self@.len() as int / 64)
    }

    pub fn new() -> (h: Sha256)
        ensures
            h.wf(),
            h@ == Seq::<u8>::empty(),
    {
        let ghost none: Seq<u8> = Seq::empty();
        let h = Sha256 {
            regs: Regs {
                a: 0x6a09_e667,
                b: 0xbb67_ae85,
                c: 0x3c6e_f372,
                d: 0xa54f_f53a,
                e: 0x510e_527f,
                f: 0x9b05_688c,
                g: 0x1f83_d9ab,
                h: 0x5be0_cd19,
            },
            block: [0;64],
            used: 0,
            length: 0,
            message: Ghost(none),
        };
        assert(h.block@.take(0) =~= h@.skip(0));
        h
    }

    /// One more byte, whatever the length of the message says.
    fn put(&mut self, byte: u8)
        requires
            old(self).used < 64,
            old(self).used == old(self)@.len() % 64,
            old(self).block@.take(old(self).used as int) == old(self)@.skip(
                old(self)@.len() - old(self).used,
            ),
            old(self).regs == absorbed(old(self)@, old(self)@.len() as int / 64),
        ensures
            final(self)@ == old(self)@.push(byte),
            final(self).length == old(self).length,
            final(self).used == final(self)@.len() % 64,
            final(self).block@.take(final(self).used as int) == final(self)@.skip(
                final(self)@.len() - final(self).used,
            ),
            final(self).regs == absorbed(final(self)@, final(self)@.len() as int / 64),
    {
        let ghost before = self@;
        let ghost after = before.push(byte);
        let ghost n = before.len() as int / 64;
        self.block[self.used] = byte;
        self.used = self.used + 1;
        proof {
            self.message@ = after;
            assert(after.take(before.len() as int) =~= before);
            lemma_absorbed_prefix(before, after, n);
            assert(self.block@.take(self.used as int) =~= after.skip(after.len() - self.used)) by {
                assert(old(self).block@.take(old(self).used as int) =~= before.skip(
                    before.len() - old(self).used,
                ));
                assert forall|i: int|
                    0 <= i < self.used implies #[trigger] self.block@.take(self.used as int)[i]
                    == after.skip(after.len() - self.used)[i] by {
                    if i < old(self).used {
                        assert(old(self).block@.take(old(self).used as int)[i] == before.skip(
                            before.len() - old(self).used,
                        )[i]);
                    }
                }
            }
        }
        if self.used == 64 {
            proof {
                assert(self.block@.take(64) =~= self.block@);
                assert(after.skip(after.len() - 64) =~= after.subrange(64 * n, 64 * (n + 1)));
            }
            self.regs = compress(&self.regs, &self.block);
            self.used = 0;
            proof {
                assert(self.block@.take(0) =~= after.skip(after.len() as int));
            }
        }
    }

    /// Feed in more of the message.
    pub fn update(&mut self, data: &[u8])
        requires
            old(self).wf(),
            old(self)@.len() + data@.len() <= MAX_MESSAGE,
        ensures
            final(self).wf(),
            final(self)@ == old(self)@ + data@,
    {
        let mut i: usize = 0;
        while i < data.len()
            invariant
                i <= data@.len(),
                self.wf(),
                old(self)@.len() + data@.len() <= MAX_MESSAGE,
                self@ == old(self)@ + data@.take(i as int),
            decreases data@.len() - i,
        {
            self.put(data[i]);
            self.length = self.length + 1;
            proof {
                assert(data@.take(i + 1) =~= data@.take(i as int).push(data@[i as int]));
                assert(self@ =~= old(self)@ + data@.take(i + 1));
            }
            i = i + 1;
        }
        proof {
            assert(data@.take(i as int) =~= data@);
        }
    }

    #[verifier::rlimit(30)]
    fn put_word(&mut self, x: u32)
        requires
            old(self).used < 64,
            old(self).used == old(self)@.len() % 64,
            old(self).block@.take(old(self).used as int) == old(self)@.skip(
                old(self)@.len() - old(self).used,
            ),
            old(self).regs == absorbed(old(self)@, old(self)@.len() as int / 64),
        ensures
            final(self)@ == old(self)@ + be32_bytes(x),
            final(self).length == old(self).length,
            final(self).used == final(self)@.len() % 64,
            final(self).block@.take(final(self).used as int) == final(self)@.skip(
                final(self)@.len() - final(self).used,
            ),
            final(self).regs == absorbed(final(self)@, final(self)@.len() as int / 64),
    {
        self.put(
            #[verifier::truncate]
            ((x >> 24) as u8),
        );
        self.put(
            #[verifier::truncate]
            ((x >> 16) as u8),
        );
        self.put(
            #[verifier::truncate]
            ((x >> 8) as u8),
        );
        self.put(
            #[verifier::truncate]
            (x as u8),
        );
        assert(self@ =~= old(self)@ + be32_bytes(x));
    }

    /// The digest of the message.
    #[verifier::rlimit(30)]
    pub fn finish(self) -> (d: [u8; 32])
        requires
            self.wf(),
        ensures
            d@ == digest_of(self@),
    {
        let ghost message = self@;
        let mut h = self;
        let bits: u64 = h.length * 8;
        h.put(0x80);
        let ghost zeros: Seq<u8> = Seq::empty();
        assert(h@ =~= message + seq![0x80u8] + zeros);
        while h.used != 56
            invariant
                h.used < 64,
                h.used == h@.len() % 64,
                h.block@.take(h.used as int) == h@.skip(h@.len() - h.used),
                h.regs == absorbed(h@, h@.len() as int / 64),
                h@ == message + seq![0x80u8] + zeros,
                zeros.len() <= fill(message.len()),
                zeros == Seq::new(zeros.len(), |i: int| 0u8),
            decreases fill(message.len()) - zeros.len(),
        {
            h.put(0);
            proof {
                let more = zeros.push(0u8);
                assert(more =~= Seq::new(more.len(), |i: int| 0u8));
                assert(h@ =~= message + seq![0x80u8] + more);
                zeros = more;
            }
        }
        assert(zeros.len() == fill(message.len()));
        h.put_word(
            #[verifier::truncate]
            ((bits >> 32) as u32),
        );
        h.put_word(
            #[verifier::truncate]
            (bits as u32),
        );
        assert(bits == (8 * message.len()) as u64);
        assert(h@ =~= padded(message));
        reveal(digest_of);
        write_out(&h.regs)
    }
}

/// Blocks that are there already are absorbed the same way when more follows.
proof fn lemma_absorbed_prefix(a: Seq<u8>, b: Seq<u8>, n: int)
    requires
        64 * n <= a.len() <= b.len(),
        b.take(a.len() as int) == a,
    ensures
        absorbed(a, n) == absorbed(b, n),
    decreases n,
{
    if n > 0 {
        lemma_absorbed_prefix(a, b, n - 1);
        let x = a.subrange(64 * (n - 1), 64 * n);
        let y = b.subrange(64 * (n - 1), 64 * n);
        assert forall|i: int| 0 <= i < 64 implies #[trigger] x[i] == y[i] by {
            assert(b.take(a.len() as int)[64 * (n - 1) + i] == a[64 * (n - 1) + i]);
        }
        assert(x =~= y);
    }
}

fn write_word(out: &mut [u8; 32], at: usize, x: u32)
    requires
        at + 4 <= 32,
    ensures
        final(out)@ == crate::bytes::splice(old(out)@, at as int, be32_bytes(x)),
{
    out[at] =
    #[verifier::truncate]
    ((x >> 24) as u8);
    out[at + 1] =
    #[verifier::truncate]
    ((x >> 16) as u8);
    out[at + 2] =
    #[verifier::truncate]
    ((x >> 8) as u8);
    out[at + 3] =
    #[verifier::truncate]
    (x as u8);
    assert(out@ =~= crate::bytes::splice(old(out)@, at as int, be32_bytes(x)));
}

fn write_out(r: &Regs) -> (d: [u8; 32])
    ensures
        d@ == written(*r),
{
    let mut d: [u8; 32] = [0;32];
    write_word(&mut d, 0, r.a);
    write_word(&mut d, 4, r.b);
    write_word(&mut d, 8, r.c);
    write_word(&mut d, 12, r.d);
    write_word(&mut d, 16, r.e);
    write_word(&mut d, 20, r.f);
    write_word(&mut d, 24, r.g);
    write_word(&mut d, 28, r.h);
    assert(d@ =~= written(*r));
    d
}

/// The digest of `data`.
pub fn digest(data: &[u8]) -> (d: [u8; 32])
    requires
        data@.len() <= MAX_MESSAGE,
    ensures
        d@ == digest_of(data@),
{
    let mut h = Sha256::new();
    h.update(data);
    assert(h@ =~= data@);
    h.finish()
}

// ---- hexadecimal ---------------------------------------------------------------

/// The hexadecimal digit of a value below sixteen.
pub open spec fn digit_of(v: u8) -> u8 {
    if v < 10 {
        (0x30 + v) as u8
    } else {
        (0x57 + v) as u8
    }
}

/// The value of a hexadecimal digit.
pub open spec fn value_of(digit: u8) -> Option<u8> {
    if 0x30 <= digit <= 0x39 {
        Some((digit - 0x30) as u8)
    } else if 0x61 <= digit <= 0x66 {
        Some((digit - 0x57) as u8)
    } else if 0x41 <= digit <= 0x46 {
        Some((digit - 0x37) as u8)
    } else {
        None
    }
}

/// The half of byte `i / 2` that digit `i` shows, the upper half first.
pub open spec fn nibble(d: Seq<u8>, i: int) -> u8 {
    if i % 2 == 0 {
        d[i / 2] / 16
    } else {
        d[i / 2] % 16
    }
}

/// A digest in hexadecimal.
pub open spec fn hex_of(d: Seq<u8>) -> Seq<u8> {
    Seq::new(2 * d.len(), |i: int| digit_of(nibble(d, i)))
}

/// What sixty-four digits say.
pub open spec fn from_hex_of(s: Seq<u8>) -> Option<Seq<u8>> {
    if s.len() == 64 && forall|i: int| 0 <= i < 64 ==> value_of(#[trigger] s[i]) is Some {
        Some(Seq::new(32, |i: int| (value_of(s[2 * i])->0 * 16 + value_of(s[2 * i + 1])->0) as u8))
    } else {
        None
    }
}

fn hex_digit(v: u8) -> (r: u8)
    requires
        v < 16,
    ensures
        r == digit_of(v),
{
    if v < 10 {
        0x30 + v
    } else {
        0x57 + v
    }
}

fn hex_value(digit: u8) -> (r: Option<u8>)
    ensures
        r == value_of(digit),
        r matches Some(v) ==> v < 16,
{
    if 0x30 <= digit && digit <= 0x39 {
        Some(digit - 0x30)
    } else if 0x61 <= digit && digit <= 0x66 {
        Some(digit - 0x57)
    } else if 0x41 <= digit && digit <= 0x46 {
        Some(digit - 0x37)
    } else {
        None
    }
}

/// A digest in hexadecimal, lower case.
pub fn hex(d: &[u8; 32]) -> (r: [u8; 64])
    ensures
        r@ == hex_of(d@),
{
    let mut out: [u8; 64] = [0;64];
    let mut i: usize = 0;
    while i < 32
        invariant
            i <= 32,
            forall|j: int| 0 <= j < 2 * i ==> #[trigger] out@[j] == hex_of(d@)[j],
        decreases 32 - i,
    {
        out[2 * i] = hex_digit(d[i] / 16);
        out[2 * i + 1] = hex_digit(d[i] % 16);
        assert(nibble(d@, 2 * i) == d@[i as int] / 16);
        assert(nibble(d@, 2 * i + 1) == d@[i as int] % 16);
        i = i + 1;
    }
    assert(out@ =~= hex_of(d@));
    out
}

/// Read a digest written in hexadecimal. Nothing but sixty-four digits is one.
pub fn from_hex(s: &str) -> (r: Option<[u8; 32]>)
    ensures
        match r {
            Some(d) => from_hex_of(vstd::utf8::encode_utf8(s@)) == Some(d@),
            None => from_hex_of(vstd::utf8::encode_utf8(s@)) is None,
        },
{
    let b = s.as_bytes();
    if b.len() != 64 {
        return None;
    }
    let mut out: [u8; 32] = [0;32];
    let mut i: usize = 0;
    while i < 32
        invariant
            i <= 32,
            b@.len() == 64,
            b@ == vstd::utf8::encode_utf8(s@),
            forall|j: int| 0 <= j < 2 * i ==> value_of(#[trigger] b@[j]) is Some,
            forall|j: int|
                0 <= j < i ==> #[trigger] out@[j] == (value_of(b@[2 * j])->0 * 16 + value_of(
                    b@[2 * j + 1],
                )->0) as u8,
        decreases 32 - i,
    {
        match (hex_value(b[2 * i]), hex_value(b[2 * i + 1])) {
            (Some(hi), Some(lo)) => {
                out[i] = hi * 16 + lo;
            },
            _ => {
                return None;
            },
        }
        i = i + 1;
    }
    proof {
        assert(out@ =~= (from_hex_of(b@)->0));
    }
    Some(out)
}

/// Writing a digest down and reading it gives the digest.
pub proof fn hex_reads_back(d: Seq<u8>)
    requires
        d.len() == 32,
    ensures
        from_hex_of(hex_of(d)) == Some(d),
{
    let s = hex_of(d);
    assert forall|i: int| 0 <= i < 64 implies value_of(#[trigger] s[i]) == Some(nibble(d, i)) by {
        assert(nibble(d, i) < 16);
    }
    assert forall|i: int| 0 <= i < 32 implies (from_hex_of(s)->0)[i] == d[i] by {
        assert(s[2 * i] == digit_of(nibble(d, 2 * i)));
        assert(s[2 * i + 1] == digit_of(nibble(d, 2 * i + 1)));
        assert(nibble(d, 2 * i) == d[i] / 16);
        assert(nibble(d, 2 * i + 1) == d[i] % 16);
        assert(value_of(s[2 * i]) == Some(nibble(d, 2 * i)));
        assert(value_of(s[2 * i + 1]) == Some(nibble(d, 2 * i + 1)));
    }
    assert(from_hex_of(s)->0 =~= d);
}

} // verus!
