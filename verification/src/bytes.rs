//! Fixed-width integers in byte buffers.
//!
//! Every on-disk and on-wire format in this crate is written out field by field
//! with these helpers rather than by casting a struct: layout is part of the
//! format.
use vstd::prelude::*;

verus! {

/// The little-endian 16-bit integer at offset `at`.
pub open spec fn le16(b: Seq<u8>, at: int) -> u16 {
    (b[at] as u16) | ((b[at + 1] as u16) << 8)
}

/// The little-endian 32-bit integer at offset `at`.
pub open spec fn le32(b: Seq<u8>, at: int) -> u32 {
    (b[at] as u32) | ((b[at + 1] as u32) << 8) | ((b[at + 2] as u32) << 16) | ((b[at + 3] as u32)
        << 24)
}

/// The little-endian 64-bit integer at offset `at`.
pub open spec fn le64(b: Seq<u8>, at: int) -> u64 {
    (le32(b, at) as u64) | ((le32(b, at + 4) as u64) << 32)
}

/// The big-endian 16-bit integer at offset `at`.
pub open spec fn be16(b: Seq<u8>, at: int) -> u16 {
    ((b[at] as u16) << 8) | (b[at + 1] as u16)
}

/// The big-endian 32-bit integer at offset `at`.
pub open spec fn be32(b: Seq<u8>, at: int) -> u32 {
    ((b[at] as u32) << 24) | ((b[at + 1] as u32) << 16) | ((b[at + 2] as u32) << 8) | (b[at
        + 3] as u32)
}

/// The bytes of `v`, least significant first.
pub open spec fn le32_bytes(v: u32) -> Seq<u8> {
    seq![v as u8, (v >> 8) as u8, (v >> 16) as u8, (v >> 24) as u8]
}

/// The bytes of `v`, least significant first.
pub open spec fn le64_bytes(v: u64) -> Seq<u8> {
    le32_bytes(v as u32) + le32_bytes((v >> 32) as u32)
}

proof fn lemma_split32(v: u32)
    by (bit_vector)
    ensures
        ((v as u8) as u32) | ((((v >> 8) as u8) as u32) << 8) | ((((v >> 16) as u8) as u32) << 16)
            | ((((v >> 24) as u8) as u32) << 24) == v,
{
}

proof fn lemma_split64(v: u64)
    by (bit_vector)
    ensures
        ((v as u32) as u64) | ((((v >> 32) as u32) as u64) << 32) == v,
{
}

/// Four bytes written with `le32_bytes` read back as the value.
pub proof fn le32_reads_back(b: Seq<u8>, at: int, v: u32)
    requires
        0 <= at,
        at + 4 <= b.len(),
        b.subrange(at, at + 4) == le32_bytes(v),
    ensures
        le32(b, at) == v,
{
    let s = b.subrange(at, at + 4);
    assert(b[at] == s[0] && b[at + 1] == s[1] && b[at + 2] == s[2] && b[at + 3] == s[3]);
    lemma_split32(v);
}

/// Eight bytes written with `le64_bytes` read back as the value.
pub proof fn le64_reads_back(b: Seq<u8>, at: int, v: u64)
    requires
        0 <= at,
        at + 8 <= b.len(),
        b.subrange(at, at + 8) == le64_bytes(v),
    ensures
        le64(b, at) == v,
{
    let s = b.subrange(at, at + 8);
    assert(b.subrange(at, at + 4) =~= s.subrange(0, 4));
    assert(b.subrange(at + 4, at + 8) =~= s.subrange(4, 8));
    assert(s.subrange(0, 4) =~= le32_bytes(v as u32));
    assert(s.subrange(4, 8) =~= le32_bytes((v >> 32) as u32));
    le32_reads_back(b, at, v as u32);
    le32_reads_back(b, at + 4, (v >> 32) as u32);
    lemma_split64(v);
}

/// Read a little-endian 32-bit integer.
pub fn get_u32(b: &[u8], at: usize) -> (v: u32)
    requires
        at + 4 <= b@.len(),
    ensures
        v == le32(b@, at as int),
{
    (b[at] as u32) | ((b[at + 1] as u32) << 8) | ((b[at + 2] as u32) << 16) | ((b[at + 3] as u32)
        << 24)
}

/// Read a little-endian 64-bit integer.
pub fn get_u64(b: &[u8], at: usize) -> (v: u64)
    requires
        at + 8 <= b@.len(),
    ensures
        v == le64(b@, at as int),
{
    let len: usize = b.len();
    assert(at + 8 <= len);
    (get_u32(b, at) as u64) | ((get_u32(b, at + 4) as u64) << 32)
}

/// Write a little-endian 32-bit integer, leaving every other byte alone.
pub fn put_u32(b: &mut [u8; 512], at: usize, v: u32)
    requires
        at + 4 <= 512,
    ensures
        le32(final(b)@, at as int) == v,
        final(b)@.subrange(at as int, at + 4) == le32_bytes(v),
        forall|i: int| 0 <= i < 512 && !(at <= i < at + 4) ==> final(b)@[i] == old(b)@[i],
{
    b[at] = v as u8;
    b[at + 1] = (v >> 8) as u8;
    b[at + 2] = (v >> 16) as u8;
    b[at + 3] = (v >> 24) as u8;
    assert(b@.subrange(at as int, at + 4) =~= le32_bytes(v));
    proof {
        le32_reads_back(b@, at as int, v);
    }
}

/// Write a little-endian 64-bit integer, leaving every other byte alone.
pub fn put_u64(b: &mut [u8; 512], at: usize, v: u64)
    requires
        at + 8 <= 512,
    ensures
        le64(final(b)@, at as int) == v,
        final(b)@.subrange(at as int, at + 8) == le64_bytes(v),
        forall|i: int| 0 <= i < 512 && !(at <= i < at + 8) ==> final(b)@[i] == old(b)@[i],
{
    put_u32(b, at, v as u32);
    let ghost mid = b@;
    put_u32(b, at + 4, (v >> 32) as u32);
    assert(b@.subrange(at as int, at + 4) =~= mid.subrange(at as int, at + 4));
    assert(b@.subrange(at as int, at + 8) =~= b@.subrange(at as int, at + 4) + b@.subrange(
        at + 4,
        at + 8,
    ));
    proof {
        le64_reads_back(b@, at as int, v);
    }
}

/// The bytes of `v`, least significant first.
pub open spec fn le16_bytes(v: u16) -> Seq<u8> {
    seq![v as u8, (v >> 8) as u8]
}

/// The bytes of `v`, most significant first.
pub open spec fn be16_bytes(v: u16) -> Seq<u8> {
    seq![(v >> 8) as u8, v as u8]
}

/// `b` with the bytes at `at` replaced by `d`.
pub open spec fn splice(b: Seq<u8>, at: int, d: Seq<u8>) -> Seq<u8> {
    b.take(at) + d + b.skip(at + d.len())
}

/// Replace the bytes at `at`, leaving every other byte alone.
pub fn set_bytes(b: &mut [u8], at: usize, d: &[u8])
    requires
        at + d@.len() <= old(b)@.len(),
    ensures
        final(b)@ == splice(old(b)@, at as int, d@),
{
    let ghost b0 = b@;
    let len: usize = b.len();
    let mut i: usize = 0;
    while i < d.len()
        invariant
            i <= d@.len(),
            at + d@.len() <= b@.len() == len,
            b0.len() == b@.len(),
            forall|k: int|
                0 <= k < b@.len() ==> #[trigger] b@[k] == if at <= k < at + i {
                    d@[k - at]
                } else {
                    b0[k]
                },
        decreases d@.len() - i,
    {
        b[at + i] = d[i];
        i = i + 1;
    }
    assert(b@ =~= splice(b0, at as int, d@));
}

/// Replace two bytes with a little-endian integer.
pub fn set_u16(b: &mut [u8], at: usize, v: u16)
    requires
        at + 2 <= old(b)@.len(),
    ensures
        final(b)@ == splice(old(b)@, at as int, le16_bytes(v)),
{
    let d: [u8; 2] = [v as u8, (v >> 8) as u8];
    assert(d@ =~= le16_bytes(v));
    set_bytes(b, at, &d);
}

/// Replace four bytes with a little-endian integer.
pub fn set_u32(b: &mut [u8], at: usize, v: u32)
    requires
        at + 4 <= old(b)@.len(),
    ensures
        final(b)@ == splice(old(b)@, at as int, le32_bytes(v)),
{
    let d: [u8; 4] = [v as u8, (v >> 8) as u8, (v >> 16) as u8, (v >> 24) as u8];
    assert(d@ =~= le32_bytes(v));
    set_bytes(b, at, &d);
}

/// Replace eight bytes with a little-endian integer.
pub fn set_u64(b: &mut [u8], at: usize, v: u64)
    requires
        at + 8 <= old(b)@.len(),
    ensures
        final(b)@ == splice(old(b)@, at as int, le64_bytes(v)),
{
    let ghost b0 = b@;
    let len: usize = b.len();
    set_u32(b, at, v as u32);
    set_u32(b, at + 4, (v >> 32) as u32);
    assert(b@ =~= splice(b0, at as int, le64_bytes(v)));
}

/// Replace one byte.
pub fn set_u8(b: &mut [u8], at: usize, v: u8)
    requires
        at < old(b)@.len(),
    ensures
        final(b)@ == splice(old(b)@, at as int, seq![v]),
{
    let d: [u8; 1] = [v];
    assert(d@ =~= seq![v]);
    set_bytes(b, at, &d);
}

/// Replace `n` bytes with zeros.
pub fn set_zeros(b: &mut [u8], at: usize, n: usize)
    requires
        at + n <= old(b)@.len(),
    ensures
        final(b)@ == splice(old(b)@, at as int, Seq::new(n as nat, |i: int| 0u8)),
{
    let ghost b0 = b@;
    let len: usize = b.len();
    let mut i: usize = 0;
    while i < n
        invariant
            i <= n,
            at + n <= b@.len() == len,
            b0.len() == b@.len(),
            forall|k: int|
                0 <= k < b@.len() ==> #[trigger] b@[k] == if at <= k < at + i {
                    0u8
                } else {
                    b0[k]
                },
        decreases n - i,
    {
        b[at + i] = 0;
        i = i + 1;
    }
    assert(b@ =~= splice(b0, at as int, Seq::new(n as nat, |i: int| 0u8)));
}

/// Read a little-endian 16-bit integer.
pub fn get_u16(b: &[u8], at: usize) -> (v: u16)
    requires
        at + 2 <= b@.len(),
    ensures
        v == le16(b@, at as int),
{
    (b[at] as u16) | ((b[at + 1] as u16) << 8)
}

/// Read a big-endian 16-bit integer.
pub fn get_be16(b: &[u8], at: usize) -> (v: u16)
    requires
        at + 2 <= b@.len(),
    ensures
        v == be16(b@, at as int),
{
    ((b[at] as u16) << 8) | (b[at + 1] as u16)
}

/// Read a big-endian 32-bit integer.
pub fn get_be32(b: &[u8], at: usize) -> (v: u32)
    requires
        at + 4 <= b@.len(),
    ensures
        v == be32(b@, at as int),
{
    ((b[at] as u32) << 24) | ((b[at + 1] as u32) << 16) | ((b[at + 2] as u32) << 8) | (b[at
        + 3] as u32)
}

proof fn lemma_split16(v: u16)
    by (bit_vector)
    ensures
        ((v as u8) as u16) | ((((v >> 8) as u8) as u16) << 8) == v,
        ((((v >> 8) as u8) as u16) << 8) | ((v as u8) as u16) == v,
{
}

/// Two bytes written with `le16_bytes` read back as the value.
pub proof fn le16_reads_back(b: Seq<u8>, at: int, v: u16)
    requires
        0 <= at,
        at + 2 <= b.len(),
        b.subrange(at, at + 2) == le16_bytes(v),
    ensures
        le16(b, at) == v,
{
    let s = b.subrange(at, at + 2);
    assert(b[at] == s[0] && b[at + 1] == s[1]);
    lemma_split16(v);
}

/// Two bytes written with `be16_bytes` read back as the value.
pub proof fn be16_reads_back(b: Seq<u8>, at: int, v: u16)
    requires
        0 <= at,
        at + 2 <= b.len(),
        b.subrange(at, at + 2) == be16_bytes(v),
    ensures
        be16(b, at) == v,
{
    let s = b.subrange(at, at + 2);
    assert(b[at] == s[0] && b[at + 1] == s[1]);
    lemma_split16(v);
}

/// Append the little-endian bytes of a 32-bit integer.
pub fn push_u32(out: &mut Vec<u8>, v: u32)
    ensures
        final(out)@ == old(out)@ + le32_bytes(v),
{
    out.push(v as u8);
    out.push((v >> 8) as u8);
    out.push((v >> 16) as u8);
    out.push((v >> 24) as u8);
    assert(out@ =~= old(out)@ + le32_bytes(v));
}

/// Append the little-endian bytes of a 64-bit integer.
pub fn push_u64(out: &mut Vec<u8>, v: u64)
    ensures
        final(out)@ == old(out)@ + le64_bytes(v),
{
    push_u32(out, v as u32);
    push_u32(out, (v >> 32) as u32);
    assert(out@ =~= old(out)@ + le64_bytes(v));
}

/// Append a run of bytes.
pub fn push_bytes(out: &mut Vec<u8>, data: &[u8])
    ensures
        final(out)@ == old(out)@ + data@,
{
    let mut i: usize = 0;
    while i < data.len()
        invariant
            i <= data@.len(),
            out@ == old(out)@ + data@.take(i as int),
        decreases data@.len() - i,
    {
        out.push(data[i]);
        assert(data@.take(i + 1) =~= data@.take(i as int).push(data@[i as int]));
        i = i + 1;
    }
    assert(data@.take(i as int) =~= data@);
}

/// Whether two byte strings are the same.
pub fn same_bytes(a: &[u8], b: &[u8]) -> (r: bool)
    ensures
        r == (a@ == b@),
{
    if a.len() != b.len() {
        return false;
    }
    let mut i: usize = 0;
    while i < a.len()
        invariant
            a@.len() == b@.len(),
            i <= a@.len(),
            forall|j: int| 0 <= j < i ==> a@[j] == b@[j],
        decreases a@.len() - i,
    {
        if a[i] != b[i] {
            return false;
        }
        i = i + 1;
    }
    assert(a@ =~= b@);
    true
}

/// The text whose encoding is `bytes`, when `bytes` is well-formed UTF-8.
pub open spec fn text_of(bytes: Seq<u8>) -> Option<Seq<char>> {
    if vstd::utf8::valid_utf8(bytes) {
        Some(vstd::utf8::decode_utf8(bytes))
    } else {
        None
    }
}

/// Calls `core::str::from_utf8`. Trusted: it succeeds exactly on well-formed
/// UTF-8, and then gives the text that the bytes encode.
#[verifier::external_body]
pub(crate) fn from_utf8(bytes: &[u8]) -> (r: Option<&str>)
    ensures
        r matches Some(s) ==> text_of(bytes@) == Some(s@),
        r is None ==> text_of(bytes@) is None,
{
    core::str::from_utf8(bytes).ok()
}

/// Whether two texts are the same.
pub fn same_text(a: &str, b: &str) -> (r: bool)
    ensures
        r == (a@ == b@),
{
    let r = same_bytes(a.as_bytes(), b.as_bytes());
    proof {
        vstd::utf8::encode_utf8_decode_utf8(a@);
        vstd::utf8::encode_utf8_decode_utf8(b@);
    }
    r
}

} // verus!
