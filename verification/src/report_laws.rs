//! What is shown and recorded says what it should: digits, digests, cores, records.
use vstd::prelude::*;
use crate::bytes_laws::little;

verus! {

// ---- digits ---------------------------------------------------------------------------------

/// A number in decimal is made of decimal digits, and its first is 0 only where it is all there
/// is.
pub proof fn a_decimal_number_is_made_of_digits(n: nat, i: int)
    requires
        0 <= i < crate::user::decimal(n).len(),
    ensures
        0x30 <= crate::user::decimal(n)[i] <= 0x39,
        crate::user::decimal(n).len() >= 1,
        crate::user::decimal(n)[0] == 0x30 ==> n == 0,
        n < 10 ==> crate::user::decimal(n).len() == 1,
        n >= 10 ==> crate::user::decimal(n).len() == crate::user::decimal(n / 10).len() + 1,
    decreases n,
{
    if n >= 10 {
        let front = crate::user::decimal(n / 10);
        if i < front.len() {
            a_decimal_number_is_made_of_digits(n / 10, i);
        } else {
            a_number_has_a_digit(n / 10);
            a_decimal_number_is_made_of_digits(n / 10, 0);
        }
    }
}

proof fn a_number_has_a_digit(n: nat)
    ensures
        crate::user::decimal(n).len() >= 1,
{
}

proof fn lemma_nibbles(n: u64)
    by (bit_vector)
    ensures
        (n >> 60) & 0xf == n / 0x1000_0000_0000_0000 % 16,
        (n >> 56) & 0xf == n / 0x100_0000_0000_0000 % 16,
        (n >> 52) & 0xf == n / 0x10_0000_0000_0000 % 16,
        (n >> 48) & 0xf == n / 0x1_0000_0000_0000 % 16,
        (n >> 44) & 0xf == n / 0x1000_0000_0000 % 16,
        (n >> 40) & 0xf == n / 0x100_0000_0000 % 16,
        (n >> 36) & 0xf == n / 0x10_0000_0000 % 16,
        (n >> 32) & 0xf == n / 0x1_0000_0000 % 16,
        (n >> 28) & 0xf == n / 0x1000_0000 % 16,
        (n >> 24) & 0xf == n / 0x100_0000 % 16,
        (n >> 20) & 0xf == n / 0x10_0000 % 16,
        (n >> 16) & 0xf == n / 0x1_0000 % 16,
        (n >> 12) & 0xf == n / 0x1000 % 16,
        (n >> 8) & 0xf == n / 0x100 % 16,
        (n >> 4) & 0xf == n / 0x10 % 16,
        (n >> 0) & 0xf == n % 16,
{
}

/// The value of a hexadecimal digit in small letters.
pub open spec fn worth(c: u8) -> int {
    if c < 0x3a {
        c - 0x30
    } else {
        c - 0x61 + 10
    }
}

/// A number in hexadecimal is sixteen digits behind `0x`, the most significant first.
pub proof fn hexadecimal_digits_say_the_number(n: u64)
    ensures
        ({
            let h = crate::user::hexadecimal(n);
            &&& h.len() == 18 && h[0] == 0x30 && h[1] == 0x78
            &&& worth(h[2]) == n as int / 0x1000_0000_0000_0000 % 16
            &&& worth(h[3]) == n as int / 0x100_0000_0000_0000 % 16
            &&& worth(h[4]) == n as int / 0x10_0000_0000_0000 % 16
            &&& worth(h[5]) == n as int / 0x1_0000_0000_0000 % 16
            &&& worth(h[6]) == n as int / 0x1000_0000_0000 % 16
            &&& worth(h[7]) == n as int / 0x100_0000_0000 % 16
            &&& worth(h[8]) == n as int / 0x10_0000_0000 % 16
            &&& worth(h[9]) == n as int / 0x1_0000_0000 % 16
            &&& worth(h[10]) == n as int / 0x1000_0000 % 16
            &&& worth(h[11]) == n as int / 0x100_0000 % 16
            &&& worth(h[12]) == n as int / 0x10_0000 % 16
            &&& worth(h[13]) == n as int / 0x1_0000 % 16
            &&& worth(h[14]) == n as int / 0x1000 % 16
            &&& worth(h[15]) == n as int / 0x100 % 16
            &&& worth(h[16]) == n as int / 0x10 % 16
            &&& worth(h[17]) == n as int % 16
        }),
{
    lemma_nibbles(n);
}

/// A byte of a digest is two hexadecimal digits, the upper half first; in small letters.
pub proof fn a_digest_is_shown_byte_by_byte(d: Seq<u8>, i: int)
    requires
        0 <= i < d.len(),
    ensures
        ({
            let h = crate::sha256::hex_of(d);
            &&& h.len() == 2 * d.len()
            &&& worth(h[2 * i]) * 16 + worth(h[2 * i + 1]) == d[i]
            &&& 0x30 <= h[2 * i] <= 0x39 || 0x61 <= h[2 * i] <= 0x66
            &&& 0x30 <= h[2 * i + 1] <= 0x39 || 0x61 <= h[2 * i + 1] <= 0x66
        }),
{
}

/// A digest that was written down is read digit by digit, in small letters or capital ones, and
/// only if it is all there and nothing else is.
pub proof fn a_digest_is_read_digit_by_digit(s: Seq<u8>, i: int)
    requires
        0 <= i < 32,
    ensures
        crate::sha256::from_hex_of(s) is Some <==> s.len() == 64 && forall|k: int|
            0 <= k < 64 ==> 0x30 <= #[trigger] s[k] <= 0x39 || 0x61 <= s[k] <= 0x66 || 0x41 <= s[k]
                <= 0x46,
        crate::sha256::from_hex_of(s) matches Some(d) ==> d.len() == 32 && ({
            let high = s[2 * i];
            let low = s[2 * i + 1];
            let h = if 0x41 <= high <= 0x46 {
                high - 0x41 + 10
            } else {
                worth(high)
            };
            let l = if 0x41 <= low <= 0x46 {
                low - 0x41 + 10
            } else {
                worth(low)
            };
            d[i] == h * 16 + l
        }),
{
    if crate::sha256::from_hex_of(s) is Some {
        assert(crate::sha256::value_of(s[2 * i]) is Some);
        assert(crate::sha256::value_of(s[2 * i + 1]) is Some);
        assert forall|k: int| 0 <= k < 64 implies 0x30 <= #[trigger] s[k] <= 0x39 || 0x61 <= s[k]
            <= 0x66 || 0x41 <= s[k] <= 0x46 by {
            assert(crate::sha256::value_of(s[k]) is Some);
        }
    } else if s.len() == 64 {
        let k = choose|k: int|
            0 <= k < 64 && crate::sha256::value_of(#[trigger] s[k]) is None;
        assert(!(0x30 <= s[k] <= 0x39));
    }
}

// ---- cores ----------------------------------------------------------------------------------

/// The cores a thread ran on are shown in order, each exactly if its bit is set.
pub proof fn cores_are_shown_in_order(mask: u64, n: int)
    requires
        0 <= n < 8,
    ensures
        ({
            let before = crate::selftest::cores_in(mask, n);
            let after = crate::selftest::cores_in(mask, n + 1);
            &&& crate::selftest::cores_in(mask, 0).len() == 0
            &&& after == before + (if mask & (1u64 << (n as u64)) != 0 {
                seq![(0x30 + n) as u8]
            } else {
                Seq::empty()
            })
        }),
{
    let before = crate::selftest::cores_in(mask, n);
    assert(before.push((0x30 + n) as u8) =~= before + seq![(0x30 + n) as u8]);
    assert(before =~= before + Seq::<u8>::empty());
}

// ---- records --------------------------------------------------------------------------------

/// Where a record says what: its mark, its boot and its tick; the rest is that boot's pattern.
pub proof fn a_boot_record_is_laid_out(boot: u64, ticks: u64, i: int)
    requires
        64 <= i < 512,
    ensures
        ({
            let r = crate::selftest::record_bytes(boot, ticks);
            &&& little(r.subrange(0, 8)) == 0x4A55_4E47_4559_5F31
            &&& little(r.subrange(8, 16)) == boot
            &&& little(r.subrange(16, 24)) == ticks
            &&& crate::selftest::record_head(boot, ticks).len() == 64 ==> r[i] == (i * 31 % 256)
                as u8 ^ (boot * 131 % 256) as u8
        }),
{
    let r = crate::selftest::record_bytes(boot, ticks);
    crate::bytes_laws::bytes_say_their_integer(0, 0, crate::selftest::RECORD_MAGIC);
    crate::bytes_laws::bytes_say_their_integer(0, 0, boot);
    crate::bytes_laws::bytes_say_their_integer(0, 0, ticks);
    assert(r.subrange(0, 8) =~= crate::bytes::le64_bytes(crate::selftest::RECORD_MAGIC));
    assert(r.subrange(8, 16) =~= crate::bytes::le64_bytes(boot));
    assert(r.subrange(16, 24) =~= crate::bytes::le64_bytes(ticks));
}

/// Every byte that is not what it should be is counted, once: in a body, in two sectors that
/// are compared, and in what a sweep saw.
pub proof fn every_wrong_byte_is_counted(a: Seq<u8>, b: Seq<u8>, boot: u64, n: int)
    requires
        0 <= n < a.len(),
    ensures
        crate::selftest::differing_upto(a, b, 0) == 0,
        crate::selftest::differing_upto(a, b, n + 1) - crate::selftest::differing_upto(a, b, n)
            == if a[n] == b[n] {
            0int
        } else {
            1
        },
        crate::selftest::bad_upto(a, boot, 64) == 0,
        n >= 64 ==> crate::selftest::bad_upto(a, boot, n + 1) - crate::selftest::bad_upto(
            a,
            boot,
            n,
        ) == if a[n] == (n * 31 % 256) as u8 ^ (boot * 131 % 256) as u8 {
            0int
        } else {
            1
        },
        crate::user::wrong_among(a, 0) == 0,
        crate::user::wrong_among(a, n + 1) - crate::user::wrong_among(a, n) == ({
            let at = n / 8 * 4096 + n % 8 * 512;
            if a[n] == (at * 31 % 256) as u8 ^ (at / 4096 * 17 % 256) as u8 {
                0int
            } else {
                1
            }
        }),
{
}

// ---- devices --------------------------------------------------------------------------------

/// A device is found in the first of the transports looked at — the first thirty-two — that
/// carries the mark and reports its kind.
pub proof fn a_device_is_found_by_its_kind(
    slots: Seq<crate::devices::Slot>,
    kind: u32,
    i: int,
    k: int,
)
    requires
        0 <= i <= k < slots.len(),
        k < 32,
    ensures
        match crate::devices::first_of(slots, kind, i) {
            Some(found) => exists|f: int|
                i <= f < slots.len() && f < 32 && (#[trigger] slots[f]).magic == 0x7472_6976
                    && slots[f].device_id == kind && found.node == slots[f].node && found.device_id
                    == kind && found.version == slots[f].version && (k < f ==> slots[k].magic
                    != 0x7472_6976 || slots[k].device_id != kind),
            None => slots[k].magic != 0x7472_6976 || slots[k].device_id != kind,
        },
    decreases slots.len() - i,
{
    if slots[i].magic == 0x7472_6976 && slots[i].device_id == kind {
        assert(crate::devices::first_of(slots, kind, i) is Some);
        assert(i <= i < slots.len() && slots[i].magic == 0x7472_6976);
    } else if k > i {
        a_device_is_found_by_its_kind(slots, kind, i + 1, k);
    } else if i + 1 < slots.len() && i + 1 < 32 {
        a_device_is_found_by_its_kind(slots, kind, i + 1, i + 1);
        if crate::devices::first_of(slots, kind, i + 1) is Some {
            let found = crate::devices::first_of(slots, kind, i + 1)->0;
            let f = choose|f: int|
                i + 1 <= f < slots.len() && f < 32 && (#[trigger] slots[f]).magic == 0x7472_6976
                    && slots[f].device_id == kind && found.node == slots[f].node && found.device_id
                    == kind && found.version == slots[f].version && (i + 1 < f ==> slots[i
                    + 1].magic != 0x7472_6976 || slots[i + 1].device_id != kind);
            assert(i <= f < slots.len() && slots[f].magic == 0x7472_6976);
        }
    } else {
        assert(crate::devices::first_of(slots, kind, i + 1) is None);
    }
}

} // verus!
