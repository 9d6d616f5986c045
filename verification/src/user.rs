//! What user programs share: printing numbers, reading results, and the checks that
//! the test programs make.
use vstd::prelude::*;
use crate::syscall::from_register;

verus! {

/// What a program started with a role does.
#[derive(Clone, Copy, Debug, PartialEq, Eq, Structural)]
pub enum Role {
    Sender,
    Receiver,
    Intruder,
    Trespasser,
    BlockDriver,
    ModelA,
    ModelB,
    Unknown,
}

/// The role that the kernel picked, which it puts in x0 before the program starts.
pub fn role(n: u64) -> (r: Role)
    ensures
        r == (match n {
            0 => Role::Sender,
            1 => Role::Receiver,
            2 => Role::Intruder,
            3 => Role::Trespasser,
            4 => Role::BlockDriver,
            5 => Role::ModelA,
            6 => Role::ModelB,
            _ => Role::Unknown,
        }),
{
    match n {
        0 => Role::Sender,
        1 => Role::Receiver,
        2 => Role::Intruder,
        3 => Role::Trespasser,
        4 => Role::BlockDriver,
        5 => Role::ModelA,
        6 => Role::ModelB,
        _ => Role::Unknown,
    }
}

/// What an error means.
pub fn errname(e: i64) -> (r: &'static str)
    ensures
        r == (if e == crate::syscall::EBADCAP {
            "EBADCAP (no such capability)"
        } else if e == crate::syscall::EPERM {
            "EPERM (capability lacks the right)"
        } else if e == crate::syscall::EREVOKED {
            "EREVOKED (capability was revoked)"
        } else if e == crate::syscall::EFAULT {
            "EFAULT (bad user pointer)"
        } else if e == crate::syscall::EINVAL {
            "EINVAL"
        } else {
            "unknown error"
        }),
{
    match e {
        -1 => "EBADCAP (no such capability)",
        -2 => "EPERM (capability lacks the right)",
        -3 => "EREVOKED (capability was revoked)",
        -4 => "EFAULT (bad user pointer)",
        -5 => "EINVAL",
        _ => "unknown error",
    }
}

/// What a system call that moves bytes came to: how many, or the error.
pub fn outcome(x0: u64) -> (r: Result<u64, i64>)
    ensures
        match r {
            Ok(n) => n == x0 && n <= 0x7FFF_FFFF_FFFF_FFFF,
            Err(e) => e < 0 && crate::syscall::in_register(e) == x0,
        },
{
    let v = from_register(x0);
    if v < 0 {
        Err(v)
    } else {
        Ok(v as u64)
    }
}

/// How long to sleep to be there at tick `t`, when it is tick `now`; `None` where it
/// is that late already.
pub fn wait_until(t: u64, now: u64) -> (r: Option<u64>)
    ensures
        r == (if t > now {
            Some((t - now) as u64)
        } else {
            None
        }),
{
    if t > now {
        Some(t - now)
    } else {
        None
    }
}

// ---- numbers ---------------------------------------------------------------------------------

/// A number in decimal.
pub open spec fn decimal(n: nat) -> Seq<u8>
    decreases n,
{
    if n < 10 {
        seq![(0x30 + n) as u8]
    } else {
        decimal(n / 10).push((0x30 + n % 10) as u8)
    }
}

/// What decimal digits say.
pub open spec fn value(d: Seq<u8>) -> int
    decreases d.len(),
{
    if d.len() == 0 {
        0
    } else {
        value(d.drop_last()) * 10 + (d.last() - 0x30)
    }
}

/// Unsigned decimal output: there is no formatter down here.
pub fn write_dec(n: u64) -> (r: Vec<u8>)
    ensures
        r@ == decimal(n as nat),
{
    let mut digits: Vec<u8> = Vec::new();
    let mut left = n;
    let ghost mut tail: Seq<u8> = Seq::empty();
    assert(decimal(n as nat) =~= decimal(left as nat) + tail);
    while left >= 10
        invariant
            decimal(n as nat) == decimal(left as nat) + tail,
            tail == digits@.reverse(),
        decreases left,
    {
        let d: u8 = 0x30 + (left % 10) as u8;
        proof {
            let more = seq![d] + tail;
            assert(decimal(left as nat) + tail =~= decimal((left / 10) as nat) + more);
            assert(digits@.push(d).reverse() =~= more);
            tail = more;
        }
        digits.push(d);
        left = left / 10;
    }
    let d: u8 = 0x30 + left as u8;
    proof {
        assert(digits@.push(d).reverse() =~= seq![d] + tail);
    }
    digits.push(d);
    let ghost all = digits@.reverse();
    assert(all =~= decimal(n as nat));
    let mut out: Vec<u8> = Vec::new();
    assert(out@ + digits@.reverse() =~= all);
    while digits.len() > 0
        invariant
            out@ + digits@.reverse() == all,
        decreases digits@.len(),
    {
        let ghost o0 = out@;
        let ghost d0 = digits@;
        match digits.pop() {
            Some(d) => {
                out.push(d);
                proof {
                    assert(d0 =~= digits@.push(d));
                    assert(d0.reverse() =~= seq![d] + digits@.reverse());
                    assert(out@ + digits@.reverse() =~= o0 + d0.reverse());
                }
            },
            None => {},
        }
    }
    assert(out@ =~= all);
    out
}

/// The digits of a number say the number.
pub proof fn decimal_reads_back(n: nat)
    ensures
        value(decimal(n)) == n,
    decreases n,
{
    if n < 10 {
        let d = decimal(n);
        assert(d.drop_last() =~= Seq::<u8>::empty());
        assert(value(d.drop_last()) == 0);
    } else {
        decimal_reads_back(n / 10);
        let d = decimal(n);
        assert(d.drop_last() =~= decimal(n / 10));
    }
}

/// A number in hexadecimal: all sixteen digits, behind their mark.
pub open spec fn hexadecimal(n: u64) -> Seq<u8> {
    seq![0x30u8, 0x78u8] + Seq::new(
        16,
        |i: int| crate::sha256::digit_of(((n >> ((60 - 4 * i) as u64)) & 0xf) as u8),
    )
}

proof fn lemma_nibble(n: u64, s: u64)
    by (bit_vector)
    ensures
        (n >> s) & 0xf < 16,
{
}

pub fn write_hex(n: u64) -> (r: Vec<u8>)
    ensures
        r@ == hexadecimal(n),
{
    let mut out: Vec<u8> = Vec::new();
    out.push(0x30);
    out.push(0x78);
    let ghost digits = |i: int|
        crate::sha256::digit_of(((n >> ((60 - 4 * i) as u64)) & 0xf) as u8);
    let mut i: u64 = 0;
    assert(out@ =~= seq![0x30u8, 0x78u8] + Seq::new(0, digits));
    while i < 16
        invariant
            i <= 16,
            digits == (|i: int|
                crate::sha256::digit_of(((n >> ((60 - 4 * i) as u64)) & 0xf) as u8)),
            out@ == seq![0x30u8, 0x78u8] + Seq::new(i as nat, digits),
        decreases 16 - i,
    {
        let shift: u64 = 60 - 4 * i;
        proof {
            lemma_nibble(n, shift);
        }
        let v: u8 = ((n >> shift) & 0xf) as u8;
        let d: u8 = if v < 10 {
            0x30 + v
        } else {
            0x57 + v
        };
        out.push(d);
        assert(out@ =~= seq![0x30u8, 0x78u8] + Seq::new((i + 1) as nat, digits));
        i = i + 1;
    }
    out
}

// ---- checking a mapped model -----------------------------------------------------------------

/// The pattern in the model file: the low bytes of two products, added without
/// carry.
pub open spec fn model_byte_of(offset: int) -> u8 {
    ((offset * 31) % 256) as u8 ^ ((offset / 4096 * 17) % 256) as u8
}

/// The byte that the model file has at `offset`. Checking it on every page is what
/// turns "the mapping worked" into "the right bytes arrived".
pub fn model_byte(offset: u64) -> (b: u8)
    ensures
        b == model_byte_of(offset as int),
{
    let page: u64 = offset / 4096;
    let a: u8 = ((offset % 256) * 31 % 256) as u8;
    let p: u8 = ((page % 256) * 17 % 256) as u8;
    proof {
        vstd::arithmetic::div_mod::lemma_mul_mod_noop_left(offset as int, 31, 256);
        vstd::arithmetic::div_mod::lemma_mul_mod_noop_left(page as int, 17, 256);
    }
    a ^ p
}

/// Pages that a model of `size` bytes takes.
pub fn pages_of(size: u64) -> (n: u64)
    requires
        size + 4095 <= u64::MAX,
    ensures
        n == (size + 4095) / 4096,
{
    (size + 4095) / 4096
}

/// The offset of the `i`th byte that a sweep looks at: eight in every page.
pub open spec fn sampled(i: int) -> int {
    i / 8 * 4096 + i % 8 * 512
}

/// How many of the first `n` bytes that a sweep saw are wrong.
pub open spec fn wrong_among(seen: Seq<u8>, n: int) -> int
    decreases n,
{
    if n <= 0 {
        0
    } else {
        wrong_among(seen, n - 1) + if seen[n - 1] != model_byte_of(sampled(n - 1)) {
            1int
        } else {
            0
        }
    }
}

/// Check what a sweep over a mapping saw: how many bytes were checked, and how many
/// of them are wrong.
pub fn sweep(seen: &[u8]) -> (r: (usize, usize))
    requires
        sampled(seen@.len() as int) <= u64::MAX,
    ensures
        r.0 == seen@.len(),
        r.1 == wrong_among(seen@, seen@.len() as int),
{
    let mut wrong: usize = 0;
    let mut i: usize = 0;
    while i < seen.len()
        invariant
            i <= seen@.len(),
            sampled(seen@.len() as int) <= u64::MAX,
            wrong <= i,
            wrong == wrong_among(seen@, i as int),
        decreases seen@.len() - i,
    {
        let off: u64 = i as u64 / 8 * 4096 + i as u64 % 8 * 512;
        if seen[i] != model_byte(off) {
            wrong = wrong + 1;
        }
        i = i + 1;
    }
    (i, wrong)
}

/// Whether to go on waiting for the kernel to reclaim pages: nothing has been
/// reclaimed, and not too long has been waited.
pub fn keep_waiting(reclaimed: u64, waited: u64) -> (r: bool)
    ensures
        r == (reclaimed == 0 && waited < 400),
{
    reclaimed == 0 && waited < 400
}

} // verus!
