//! Dates on the wire: milliseconds as an IEEE-754 binary64, held here as its
//! bit pattern and converted to and from whole milliseconds by integer
//! arithmetic.
use vstd::prelude::*;

verus! {

/// The 52 fraction bits of a binary64.
pub const FRACTION_MASK: u64 = 0xF_FFFF_FFFF_FFFF;

/// The implicit leading bit of a normal binary64.
pub const HIDDEN_BIT: u64 = 0x10_0000_0000_0000;

/// The biased exponent of a binary64.
pub open spec fn exponent(bits: u64) -> u64 {
    (bits >> 52) & 0x7FF
}

/// A date's milliseconds must be finite and carry a positive sign.
pub open spec fn is_valid_date(bits: u64) -> bool {
    bits >> 63 == 0 && exponent(bits) != 0x7FF
}

/// The whole milliseconds of a finite, non-negative binary64, rounding toward
/// zero and saturating at `u64::MAX`.
pub open spec fn millis_of(bits: u64) -> u64 {
    let e = exponent(bits);
    let m = (bits & FRACTION_MASK) | HIDDEN_BIT;
    if e < 1023 {
        0
    } else if e >= 1023 + 64 {
        u64::MAX
    } else if e >= 1075 {
        m << ((e - 1075) as u64)
    } else {
        m >> ((1075 - e) as u64)
    }
}

/// The position of the highest set bit of `m` (zero for zero and one).
pub open spec fn top_bit(m: nat) -> nat
    decreases m,
{
    if m <= 1 {
        0
    } else {
        1 + top_bit(m / 2)
    }
}

/// The binary64 nearest to `m`, ties to even.
pub open spec fn bits_of(m: u64) -> u64 {
    if m == 0 {
        0
    } else {
        let k = top_bit(m as nat) as u64;
        if k <= 52 {
            (((1023 + k) as u64) << 52) | ((m << ((52 - k) as u64)) & FRACTION_MASK)
        } else {
            let s = (k - 52) as u64;
            let q = m >> s;
            let r = m & ((1u64 << s) - 1) as u64;
            let half = 1u64 << ((s - 1) as u64);
            let q2 = if r > half || (r == half && q & 1 == 1) {
                (q + 1) as u64
            } else {
                q
            };
            if q2 == 1u64 << 53 {
                ((1024 + k) as u64) << 52
            } else {
                (((1023 + k) as u64) << 52) | (q2 & FRACTION_MASK)
            }
        }
    }
}

proof fn lemma_top_bit(m: u64)
    requires
        m > 0,
    ensures
        top_bit(m as nat) < 64,
        m >> (top_bit(m as nat) as u64) == 1,
    decreases m,
{
    if m <= 1 {
        assert(m == 1 ==> m >> 0 == 1) by (bit_vector);
    } else {
        let h = m >> 1;
        assert(m > 1 ==> (m >> 1) > 0 && (m >> 1) < m && (m >> 1) == m / 2) by (bit_vector);
        lemma_top_bit(h);
        let t = top_bit(h as nat) as u64;
        assert(t < 63) by {
            assert(m >> 1 == h && h >> t == 1 && t < 64 ==> t < 63) by (bit_vector);
        }
        assert(h == m >> 1 && t < 63 ==> h >> t == m >> ((t + 1) as u64)) by (bit_vector);
    }
}

/// Whole milliseconds of a valid date value.
pub fn millis_from_bits(bits: u64) -> (r: u64)
    ensures
        r == millis_of(bits),
{
    let e = (bits >> 52) & 0x7FF;
    let m = (bits & FRACTION_MASK) | HIDDEN_BIT;
    if e < 1023 {
        0
    } else if e >= 1023 + 64 {
        u64::MAX
    } else if e >= 1075 {
        m << (e - 1075)
    } else {
        m >> (1075 - e)
    }
}

/// The binary64 nearest to `m`, as bits.
pub fn bits_from_millis(m: u64) -> (r: u64)
    ensures
        r == bits_of(m),
{
    if m == 0 {
        return 0;
    }
    proof {
        lemma_top_bit(m);
    }
    let mut k: u64 = 0;
    let mut x: u64 = m;
    while x > 1
        invariant
            x > 0,
            k + top_bit(x as nat) == top_bit(m as nat),
            top_bit(m as nat) < 64,
        decreases x,
    {
        assert(x > 1 ==> (x >> 1) < x && (x >> 1) > 0 && (x >> 1) == x / 2) by (bit_vector);
        x = x >> 1;
        k = k + 1;
    }
    if k <= 52 {
        ((1023 + k) << 52) | ((m << (52 - k)) & FRACTION_MASK)
    } else {
        let s = k - 52;
        let q = m >> s;
        assert(s >= 1 && s <= 11 ==> 1u64 << s >= 1) by (bit_vector);
        let r = m & ((1u64 << s) - 1);
        let half = 1u64 << (s - 1);
        let q2 = if r > half || (r == half && q & 1 == 1) {
            assert(s >= 1 && s <= 11 && q == m >> s ==> q < 0xFFFF_FFFF_FFFF_FFFF) by (bit_vector);
            q + 1
        } else {
            q
        };
        if q2 == 1u64 << 53 {
            (1024 + k) << 52
        } else {
            ((1023 + k) << 52) | (q2 & FRACTION_MASK)
        }
    }
}

/// Whole milliseconds below 2^53 come back unchanged from their binary64.
pub proof fn lemma_millis_round_trip(m: u64)
    requires
        m < 0x20_0000_0000_0000,
    ensures
        is_valid_date(bits_of(m)),
        millis_of(bits_of(m)) == m,
{
    if m == 0 {
        assert(is_valid_date(0)) by (bit_vector);
        assert(millis_of(0) == 0) by {
            assert(exponent(0) == 0) by (bit_vector);
        }
    } else {
        lemma_top_bit(m);
        let k = top_bit(m as nat) as u64;
        assert(m < 0x20_0000_0000_0000 && m >> k == 1 && k < 64 ==> k <= 52) by (bit_vector);
        let b = bits_of(m);
        assert(b == (((1023 + k) as u64) << 52) | ((m << ((52 - k) as u64)) & FRACTION_MASK));
        assert(k <= 52 && m >> k == 1 && b == (((1023 + k) as u64) << 52) | ((m << ((52 - k) as u64))
            & 0xF_FFFF_FFFF_FFFF) ==> b >> 63 == 0 && (b >> 52) & 0x7FF == 1023 + k && ((b
            & 0xF_FFFF_FFFF_FFFF) | 0x10_0000_0000_0000) == m << ((52 - k) as u64)) by (bit_vector);
        assert(k <= 52 && m >> k == 1 ==> (m << ((52 - k) as u64)) >> ((52 - k) as u64) == m)
            by (bit_vector);
        assert(k == 52 ==> (m << ((52 - k) as u64)) << ((1023 + k - 1075) as u64) == m)
            by (bit_vector);
    }
}

} // verus!
