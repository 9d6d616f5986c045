//! Physical memory, as the kernel reaches it through the linear map.
use vstd::prelude::*;
use crate::bytes::{get_u64, set_bytes, set_u64, set_zeros};

verus! {

pub struct Ram {
    /// Physical address of the first byte.
    pub base: u64,
    pub bytes: Vec<u8>,
}

impl Ram {
    /// Physical memory is addressable through the linear map.
    pub open spec fn wf(&self) -> bool {
        self.base + self.bytes@.len() <= crate::mm::PHYS_LIMIT
    }

    /// Whether the `n` bytes at `pa` exist.
    pub open spec fn holds(&self, pa: int, n: int) -> bool {
        self.base <= pa && pa + n <= self.base + self.bytes@.len()
    }

    /// The byte at `pa`.
    pub open spec fn byte(&self, pa: int) -> u8 {
        self.bytes@[pa - self.base]
    }

    /// The 64-bit word at `pa`.
    pub open spec fn word(&self, pa: int) -> u64 {
        crate::bytes::le64(self.bytes@, pa - self.base)
    }

    /// The same memory but for the `n` bytes at `pa`.
    pub open spec fn same_outside(&self, other: Ram, pa: int, n: int) -> bool {
        &&& other.base == self.base
        &&& other.bytes@.len() == self.bytes@.len()
        &&& forall|q: int|
            self.holds(q, 1) && !(pa <= q < pa + n) ==> #[trigger] other.byte(q) == self.byte(q)
    }

    /// `len` bytes of zeros from `base` on.
    pub fn new(base: u64, len: usize) -> (r: Ram)
        requires
            base + len <= crate::mm::PHYS_LIMIT,
        ensures
            r.wf(),
            r.base == base,
            r.bytes@ == Seq::new(len as nat, |i: int| 0u8),
    {
        let mut bytes: Vec<u8> = Vec::new();
        let mut i: usize = 0;
        while i < len
            invariant
                i <= len,
                bytes@ == Seq::new(i as nat, |i: int| 0u8),
            decreases len - i,
        {
            bytes.push(0);
            assert(bytes@ =~= Seq::new((i + 1) as nat, |i: int| 0u8));
            i = i + 1;
        }
        Ram { base, bytes }
    }

    pub fn read_u64(&self, pa: u64) -> (v: u64)
        requires
            self.holds(pa as int, 8),
        ensures
            v == self.word(pa as int),
    {
        let len: usize = self.bytes.len();
        get_u64(self.bytes.as_slice(), (pa - self.base) as usize)
    }

    pub fn write_u64(&mut self, pa: u64, v: u64)
        requires
            old(self).holds(pa as int, 8),
        ensures
            old(self).same_outside(*final(self), pa as int, 8),
            final(self).word(pa as int) == v,
    {
        let len: usize = self.bytes.len();
        let at: usize = (pa - self.base) as usize;
        let ghost before = self.bytes@;
        set_u64(self.bytes.as_mut_slice(), at, v);
        proof {
            let b = self.bytes@;
            assert(b.subrange(at as int, at + 8) =~= crate::bytes::le64_bytes(v));
            crate::bytes::le64_reads_back(b, at as int, v);
        }
    }

    /// Fill one page with zeros.
    pub fn zero_page(&mut self, pa: u64)
        requires
            old(self).holds(pa as int, 4096),
        ensures
            old(self).same_outside(*final(self), pa as int, 4096),
            forall|q: int| pa <= q < pa + 4096 ==> #[trigger] final(self).byte(q) == 0,
    {
        let len: usize = self.bytes.len();
        set_zeros(self.bytes.as_mut_slice(), (pa - self.base) as usize, 4096);
    }

    /// Copy bytes in.
    pub fn write_bytes(&mut self, pa: u64, data: &[u8])
        requires
            old(self).holds(pa as int, data@.len() as int),
        ensures
            old(self).same_outside(*final(self), pa as int, data@.len() as int),
            forall|q: int|
                pa <= q < pa + data@.len() ==> #[trigger] final(self).byte(q) == data@[q - pa],
    {
        let len: usize = self.bytes.len();
        if data.len() > 0 {
            set_bytes(self.bytes.as_mut_slice(), (pa - self.base) as usize, data);
        }
    }

    /// Append `n` bytes from `pa` to `out`.
    pub fn read_bytes(&self, pa: u64, n: usize, out: &mut Vec<u8>)
        requires
            self.holds(pa as int, n as int),
        ensures
            final(out)@ == old(out)@ + Seq::new(n as nat, |i: int| self.byte(pa + i)),
    {
        let len: usize = self.bytes.len();
        let ghost o = out@;
        let mut i: usize = 0;
        while i < n
            invariant
                i <= n,
                self.holds(pa as int, n as int),
                len == self.bytes@.len(),
                out@ == o + Seq::new(i as nat, |i: int| self.byte(pa + i)),
            decreases n - i,
        {
            let at: usize = (pa - self.base) as usize + i;
            out.push(self.bytes[at]);
            assert(out@ =~= o + Seq::new((i + 1) as nat, |i: int| self.byte(pa + i)));
            i = i + 1;
        }
    }
}

/// A word untouched byte by byte is the same word.
pub proof fn word_is_its_bytes(a: Ram, b: Ram, pa: int)
    requires
        a.base == b.base,
        forall|q: int| pa <= q < pa + 8 ==> #[trigger] b.byte(q) == a.byte(q),
    ensures
        b.word(pa) == a.word(pa),
{
    assert(b.byte(pa) == a.byte(pa));
    assert(b.byte(pa + 1) == a.byte(pa + 1));
    assert(b.byte(pa + 2) == a.byte(pa + 2));
    assert(b.byte(pa + 3) == a.byte(pa + 3));
    assert(b.byte(pa + 4) == a.byte(pa + 4));
    assert(b.byte(pa + 5) == a.byte(pa + 5));
    assert(b.byte(pa + 6) == a.byte(pa + 6));
    assert(b.byte(pa + 7) == a.byte(pa + 7));
}

proof fn lemma_zero_word()
    by (bit_vector)
    ensures
        (0u8 as u32) | ((0u8 as u32) << 8) | ((0u8 as u32) << 16) | ((0u8 as u32) << 24) == 0u32,
        (0u32 as u64) | ((0u32 as u64) << 32) == 0u64,
{
}

/// Eight zero bytes are a zero word.
pub proof fn zero_bytes_are_a_zero_word(a: Ram, pa: int)
    requires
        forall|q: int| pa <= q < pa + 8 ==> #[trigger] a.byte(q) == 0,
    ensures
        a.word(pa) == 0,
{
    assert(a.byte(pa) == 0);
    assert(a.byte(pa + 1) == 0);
    assert(a.byte(pa + 2) == 0);
    assert(a.byte(pa + 3) == 0);
    assert(a.byte(pa + 4) == 0);
    assert(a.byte(pa + 5) == 0);
    assert(a.byte(pa + 6) == 0);
    assert(a.byte(pa + 7) == 0);
    lemma_zero_word();
}

} // verus!
