//! Measured boot.
//!
//! Before the first userspace process exists, the kernel hashes the image it is
//! about to run and compares that against a digest recorded when the two were
//! built together. A single altered byte anywhere in the image changes what is
//! hashed, and the kernel refuses to start an image whose digest is not the
//! recorded one.
//!
//! **This is measured boot, not verified boot, and the difference matters.** A
//! measurement says "this is the image that was here when the kernel was built".
//! A *signature* says "somebody holding a key I trust vouched for this image".
//! The expected digest lives inside the kernel image, so whoever can replace the
//! kernel can replace the digest with it.
use vstd::prelude::*;
use vstd::slice::slice_subrange;
use vstd::string::StringExecFns;
use crate::bytes::same_bytes;
use crate::sha256::{digest, from_hex, hex, Sha256};

verus! {

pub struct Boot {
    pub kernel: [u8; 32],
    pub init: [u8; 32],
    /// None when the recorded digest is malformed, which fails the check rather
    /// than matching nothing.
    pub expected: Option<[u8; 32]>,
    pub ok: bool,
}

/// Measure the kernel and the image it is about to run. `recorded` is the digest
/// of the image in hexadecimal, as it was when the kernel was built.
///
/// The kernel's own digest is reported, not checked: the expected value would
/// have to live inside the region it covers.
pub fn measure(kernel: &[u8], init: &[u8], recorded: &str) -> (b: Boot)
    requires
        kernel@.len() <= crate::sha256::MAX_MESSAGE,
        init@.len() <= crate::sha256::MAX_MESSAGE,
    ensures
        b.kernel@ == crate::sha256::digest_of(kernel@),
        b.init@ == crate::sha256::digest_of(init@),
        match b.expected {
            Some(d) => crate::sha256::from_hex_of(vstd::utf8::encode_utf8(recorded@)) == Some(d@),
            None => crate::sha256::from_hex_of(vstd::utf8::encode_utf8(recorded@)) is None,
        },
        b.ok == (crate::sha256::from_hex_of(vstd::utf8::encode_utf8(recorded@)) == Some(
            crate::sha256::digest_of(init@),
        )),
{
    let k = digest(kernel);
    let i = digest(init);
    let expected = from_hex(recorded);
    let ok = match &expected {
        Some(d) => same_bytes(d, &i),
        None => false,
    };
    Boot { kernel: k, init: i, expected, ok }
}

/// The byte that `at` names: the last one, when it names none.
pub open spec fn place(len: nat, at: usize) -> int {
    if at < len {
        at as int
    } else {
        len - 1
    }
}

/// Hash the image with one byte flipped, without copying it: the prefix, the
/// altered byte, and the suffix.
///
/// A check that has never been shown to reject anything is a claim rather than a
/// property.
pub fn measure_with_flipped_byte(init: &[u8], at: usize) -> (d: [u8; 32])
    requires
        0 < init@.len() <= crate::sha256::MAX_MESSAGE,
    ensures
        d@ == crate::sha256::digest_of(
            init@.update(place(init@.len(), at), init@[place(init@.len(), at)] ^ 0xff),
        ),
{
    let at = if at < init.len() {
        at
    } else {
        init.len() - 1
    };
    let flipped: [u8; 1] = [init[at] ^ 0xff];
    let mut h = Sha256::new();
    h.update(slice_subrange(init, 0, at));
    h.update(&flipped);
    h.update(slice_subrange(init, at + 1, init.len()));
    assert(h@ =~= init@.update(at as int, init@[at as int] ^ 0xff));
    h.finish()
}

/// The image that is measured with a byte flipped is never the image itself.
pub proof fn a_flipped_byte_alters_the_image(init: Seq<u8>, at: usize)
    requires
        init.len() > 0,
    ensures
        init.update(place(init.len(), at), init[place(init.len(), at)] ^ 0xff) != init,
{
    let p = place(init.len(), at);
    let b = init[p];
    assert(b ^ 0xffu8 != b) by (bit_vector);
    assert(init.update(p, b ^ 0xff)[p] == b ^ 0xff);
}

/// A kernel that recorded the digest of an image starts exactly the images with
/// that digest.
pub proof fn the_recorded_image_is_started(image: Seq<u8>, other: Seq<u8>)
    ensures
        crate::sha256::from_hex_of(crate::sha256::hex_of(crate::sha256::digest_of(image))) == Some(
            crate::sha256::digest_of(other),
        ) <==> crate::sha256::digest_of(image) == crate::sha256::digest_of(other),
{
    let d = crate::sha256::digest_of(image);
    crate::sha256::digest_has_32_bytes(image);
    crate::sha256::hex_reads_back(d);
}

// ---- what is shown ---------------------------------------------------------------

/// A digest in hexadecimal, as text.
pub open spec fn hex_text(d: Seq<u8>) -> Seq<char> {
    crate::sha256::hex_of(d).map_values(|b: u8| b as char)
}

fn append_digit(s: &mut String, digit: u8)
    requires
        0x30 <= digit <= 0x39 || 0x61 <= digit <= 0x66,
    ensures
        final(s)@ == old(s)@.push(digit as char),
{
    proof {
        reveal_strlit("0");
        reveal_strlit("1");
        reveal_strlit("2");
        reveal_strlit("3");
        reveal_strlit("4");
        reveal_strlit("5");
        reveal_strlit("6");
        reveal_strlit("7");
        reveal_strlit("8");
        reveal_strlit("9");
        reveal_strlit("a");
        reveal_strlit("b");
        reveal_strlit("c");
        reveal_strlit("d");
        reveal_strlit("e");
        reveal_strlit("f");
    }
    let t = match digit {
        0x30 => "0",
        0x31 => "1",
        0x32 => "2",
        0x33 => "3",
        0x34 => "4",
        0x35 => "5",
        0x36 => "6",
        0x37 => "7",
        0x38 => "8",
        0x39 => "9",
        0x61 => "a",
        0x62 => "b",
        0x63 => "c",
        0x64 => "d",
        0x65 => "e",
        _ => "f",
    };
    assert(t@ =~= seq![digit as char]);
    s.append(t);
    assert(s@ =~= old(s)@.push(digit as char));
}

fn append_digits(s: &mut String, d: &[u8; 32], from: usize, to: usize)
    requires
        from <= to <= 64,
    ensures
        final(s)@ == old(s)@ + hex_text(d@).subrange(from as int, to as int),
{
    let digits = hex(d);
    let mut i = from;
    while i < to
        invariant
            from <= i <= to <= 64,
            digits@ == crate::sha256::hex_of(d@),
            s@ == old(s)@ + hex_text(d@).subrange(from as int, i as int),
        decreases to - i,
    {
        assert(crate::sha256::nibble(d@, i as int) < 16);
        append_digit(s, digits[i]);
        assert(hex_text(d@).subrange(from as int, i + 1) =~= hex_text(d@).subrange(
            from as int,
            i as int,
        ).push(hex_text(d@)[i as int]));
        assert(s@ =~= old(s)@ + hex_text(d@).subrange(from as int, i + 1));
        i = i + 1;
    }
}

/// The first sixteen and the last eight digits.
pub fn short(d: &[u8; 32]) -> (s: String)
    ensures
        s@ == hex_text(d@).take(16) + "…"@ + hex_text(d@).skip(56),
{
    let mut s = String::new();
    append_digits(&mut s, d, 0, 16);
    s.append("…");
    append_digits(&mut s, d, 56, 64);
    assert(s@ =~= hex_text(d@).take(16) + "…"@ + hex_text(d@).skip(56));
    s
}

/// Every digit.
pub fn full(d: &[u8; 32]) -> (s: String)
    ensures
        s@ == hex_text(d@),
{
    let mut s = String::new();
    append_digits(&mut s, d, 0, 64);
    assert(s@ =~= hex_text(d@));
    s
}

} // verus!
