//! Binary64 numbers as bit patterns: their total order, and the number that
//! an integer converts to.
//!
//! The order is the one of the numbers, with the two zeros equal, every NaN
//! equal to every NaN, and NaN above all else.

use vstd::prelude::*;

verus! {

/// The bit that holds the sign.
pub const SIGN_BIT: u64 = 0x8000_0000_0000_0000;

/// The bit pattern of positive infinity: all bits of the exponent set.
pub const INFINITY_BITS: u64 = 0x7FF0_0000_0000_0000;

/// The lowest bit of the exponent, two to the power 52.
pub const EXPONENT_UNIT: u64 = 0x10_0000_0000_0000;

/// The bits of `bits` but the sign.
pub open spec fn float_magnitude(bits: u64) -> int {
    bits as int % 0x8000_0000_0000_0000
}

/// Whether `bits` is a NaN.
pub open spec fn float_is_nan(bits: u64) -> bool {
    float_magnitude(bits) > 0x7FF0_0000_0000_0000
}

/// An integer that orders bit patterns as the total order of their numbers
/// does.
pub open spec fn float_key(bits: u64) -> int {
    if float_is_nan(bits) {
        0x8000_0000_0000_0000
    } else if bits >= 0x8000_0000_0000_0000 {
        -float_magnitude(bits)
    } else {
        float_magnitude(bits)
    }
}

/// Computes [`float_key`].
pub fn float_order_key(bits: u64) -> (key: i128)
    ensures
        key == float_key(bits),
{
    let negative = bits >= SIGN_BIT;
    let magnitude: u64 = if negative {
        bits - SIGN_BIT
    } else {
        bits
    };
    if magnitude > INFINITY_BITS {
        0x8000_0000_0000_0000
    } else if negative {
        -(magnitude as i128)
    } else {
        magnitude as i128
    }
}

/// The bit pattern of the NaN that stands for every NaN.
pub const NAN_BITS: u64 = 0x7FF8_0000_0000_0000;

/// The place of a float in the total order, as an integer of 64 bits: its
/// key, and the greatest integer for a NaN.
pub open spec fn float_ordinal(bits: u64) -> i64 {
    if float_is_nan(bits) {
        i64::MAX
    } else {
        float_key(bits) as i64
    }
}

/// The float at a place of the total order: the NaN at the greatest place,
/// and positive zero at the place of the two zeros.
pub open spec fn float_at(place: i64) -> u64 {
    if place == i64::MAX {
        NAN_BITS
    } else if place >= 0 {
        place as u64
    } else if place == i64::MIN {
        SIGN_BIT
    } else {
        (SIGN_BIT + (-place)) as u64
    }
}

/// A float and the float at its place are the same number: they have the
/// same key. And the places order floats as their keys do.
pub proof fn lemma_float_ordinal(a: u64, b: u64)
    ensures
        float_key(float_at(float_ordinal(a))) == float_key(a),
        float_ordinal(a) <= float_ordinal(b) <==> float_key(a) <= float_key(b),
        float_ordinal(a) == float_ordinal(b) <==> float_key(a) == float_key(b),
{
}

/// Computes [`float_ordinal`].
pub fn float_place(bits: u64) -> (place: i64)
    ensures
        place == float_ordinal(bits),
{
    let key = float_order_key(bits);
    if key == 0x8000_0000_0000_0000 {
        i64::MAX
    } else {
        key as i64
    }
}

/// Computes [`float_at`].
pub fn float_at_place(place: i64) -> (bits: u64)
    ensures
        bits == float_at(place),
{
    if place == i64::MAX {
        NAN_BITS
    } else if place >= 0 {
        place as u64
    } else if place == i64::MIN {
        SIGN_BIT
    } else {
        SIGN_BIT + ((-place) as u64)
    }
}

/// Two to the power `n`.
pub open spec fn pow2(n: nat) -> nat
    decreases n,
{
    if n == 0 {
        1
    } else {
        2 * pow2((n - 1) as nat)
    }
}

/// The position of the highest bit set in `m`.
pub open spec fn log2_floor(m: nat) -> nat
    decreases m,
{
    if m < 2 {
        0
    } else {
        1 + log2_floor(m / 2)
    }
}

/// `m` divided by `d` and rounded to the nearest integer, a tie to the even
/// one.
pub open spec fn round_half_even(m: nat, d: nat) -> nat {
    let q = m / d;
    let r = m % d;
    if 2 * r > d || (2 * r == d && q % 2 == 1) {
        q + 1
    } else {
        q
    }
}

/// The 53 bits that stand for `m` in a binary64 number: `m` scaled up to 53
/// bits where it has fewer, rounded to 53 bits where it has more.
pub open spec fn float_significand(m: nat) -> nat {
    let e = log2_floor(m);
    if e <= 52 {
        m * pow2((52 - e) as nat)
    } else {
        round_half_even(m, pow2((e - 52) as nat))
    }
}

/// The bit pattern of the binary64 number nearest to the positive integer
/// `m`. A significand that rounding carried to 54 bits moves into the
/// exponent by the addition.
pub open spec fn float_bits_of_magnitude(m: nat) -> nat {
    (log2_floor(m) + 1022) * pow2(52) + float_significand(m)
}

/// The bit pattern of the binary64 number that `i` converts to.
pub open spec fn float_of_int(i: i64) -> u64 {
    if i == 0 {
        0
    } else if i < 0 {
        (0x8000_0000_0000_0000 + float_bits_of_magnitude((-i) as nat)) as u64
    } else {
        float_bits_of_magnitude(i as nat) as u64
    }
}

pub proof fn lemma_pow2_values()
    ensures
        pow2(0) == 1,
        pow2(11) == 0x800,
        pow2(52) == 0x10_0000_0000_0000,
        pow2(53) == 0x20_0000_0000_0000,
        pow2(63) == 0x8000_0000_0000_0000,
        pow2(64) == 0x1_0000_0000_0000_0000,
{
    assert(pow2(0) == 1);
    assert(pow2(11) == 0x800) by {
        reveal_with_fuel(pow2, 12);
    }
    assert(pow2(1) == 2 && pow2(8) == 0x100) by {
        reveal_with_fuel(pow2, 9);
    }
    lemma_pow2_add(11, 11);
    assert(pow2(22) == 0x40_0000) by (nonlinear_arith)
        requires
            pow2(22) == pow2(11) * pow2(11),
            pow2(11) == 0x800,
    ;
    lemma_pow2_add(22, 22);
    assert(pow2(44) == 0x1000_0000_0000) by (nonlinear_arith)
        requires
            pow2(44) == pow2(22) * pow2(22),
            pow2(22) == 0x40_0000,
    ;
    lemma_pow2_add(44, 8);
    assert(pow2(52) == 0x10_0000_0000_0000) by (nonlinear_arith)
        requires
            pow2(52) == pow2(44) * pow2(8),
            pow2(44) == 0x1000_0000_0000,
            pow2(8) == 0x100,
    ;
    lemma_pow2_add(52, 1);
    lemma_pow2_add(52, 11);
    assert(pow2(63) == 0x8000_0000_0000_0000) by (nonlinear_arith)
        requires
            pow2(63) == pow2(52) * pow2(11),
            pow2(52) == 0x10_0000_0000_0000,
            pow2(11) == 0x800,
    ;
    lemma_pow2_add(63, 1);
}

pub proof fn lemma_pow2_mono(a: nat, b: nat)
    requires
        a <= b,
    ensures
        pow2(a) <= pow2(b),
        pow2(a) > 0,
    decreases b,
{
    if a < b {
        lemma_pow2_mono(a, (b - 1) as nat);
    } else if a > 0 {
        lemma_pow2_mono((a - 1) as nat, (a - 1) as nat);
    }
}

pub proof fn lemma_pow2_add(a: nat, b: nat)
    ensures
        pow2(a + b) == pow2(a) * pow2(b),
    decreases b,
{
    if b > 0 {
        lemma_pow2_add(a, (b - 1) as nat);
        assert(pow2(a + b) == 2 * pow2((a + b - 1) as nat));
        assert(2 * (pow2(a) * pow2((b - 1) as nat)) == pow2(a) * (2 * pow2((b - 1) as nat)))
            by (nonlinear_arith);
    } else {
        assert(pow2(a) * 1 == pow2(a));
    }
}

/// A number between two powers of two has the lower one's exponent as the
/// position of its highest bit.
pub proof fn lemma_log2_floor_between(m: nat, e: nat)
    requires
        pow2(e) <= m < 2 * pow2(e),
    ensures
        log2_floor(m) == e,
    decreases e,
{
    if e > 0 {
        lemma_log2_floor_between(m / 2, (e - 1) as nat);
    }
}

/// The position of the highest bit set in `m`, with the power of two there.
fn highest_bit(m: u64) -> (res: (u32, u64))
    requires
        m > 0,
    ensures
        res.0 == log2_floor(m as nat),
        res.0 <= 63,
        res.1 == pow2(res.0 as nat),
        res.1 <= m,
        m - res.1 < res.1,
{
    let mut e: u32 = 0;
    let mut p: u64 = 1;
    while m / 2 >= p
        invariant
            p == pow2(e as nat),
            1 <= p <= m,
            e <= 63,
        decreases m - p,
    {
        proof {
            lemma_pow2_values();
            if e >= 63 {
                lemma_pow2_mono(63, e as nat);
            }
        }
        p = p * 2;
        e = e + 1;
    }
    proof {
        lemma_log2_floor_between(m as nat, e as nat);
    }
    (e, p)
}

/// Two to the power `n`.
fn power_of_two(n: u32) -> (p: u64)
    requires
        n <= 63,
    ensures
        p == pow2(n as nat),
{
    let mut k: u32 = 0;
    let mut p: u64 = 1;
    while k < n
        invariant
            k <= n <= 63,
            p == pow2(k as nat),
        decreases n - k,
    {
        proof {
            lemma_pow2_values();
            lemma_pow2_mono((k + 1) as nat, 63);
        }
        p = p * 2;
        k = k + 1;
    }
    p
}

/// The bit pattern of the binary64 number nearest to `m`.
fn magnitude_to_float_bits(m: u64) -> (bits: u64)
    requires
        0 < m <= 0x8000_0000_0000_0000,
    ensures
        bits == float_bits_of_magnitude(m as nat),
        bits < 0x8000_0000_0000_0000,
{
    let (e, p) = highest_bit(m);
    proof {
        lemma_pow2_values();
    }
    let significand: u64 = if e <= 52 {
        let scale = power_of_two(52 - e);
        proof {
            lemma_pow2_add(e as nat, (52 - e) as nat);
            lemma_pow2_mono(0, (52 - e) as nat);
            assert(m * scale < 0x20_0000_0000_0000) by (nonlinear_arith)
                requires
                    m < 2 * p,
                    p * scale == 0x10_0000_0000_0000,
                    scale > 0,
            ;
        }
        m * scale
    } else {
        let d = power_of_two(e - 52);
        proof {
            lemma_pow2_add((e - 52) as nat, 52);
            lemma_pow2_mono(1, (e - 52) as nat);
            assert(pow2(1) == 2) by {
                reveal_with_fuel(pow2, 2);
            }
            assert(m / d < 0x20_0000_0000_0000) by (nonlinear_arith)
                requires
                    m < 2 * p,
                    p == d * 0x10_0000_0000_0000,
                    d > 0,
            ;
        }
        let q = m / d;
        let r = m % d;
        let half = d / 2;
        assert(d % 2 == 0) by {
            assert(pow2((e - 52) as nat) == 2 * pow2((e - 53) as nat));
        }
        if r > half || (r == half && q % 2 == 1) {
            q + 1
        } else {
            q
        }
    };
    assert(significand <= 0x20_0000_0000_0000);
    ((e as u64) + 1022) * EXPONENT_UNIT + significand
}

/// The bit pattern of the binary64 number that `i` converts to: the nearest
/// one, and of two equally near the one whose last bit is zero.
pub fn int_to_float_bits(i: i64) -> (bits: u64)
    ensures
        bits == float_of_int(i),
{
    if i == 0 {
        0
    } else if i < 0 {
        let m: u64 = if i == i64::MIN {
            SIGN_BIT
        } else {
            (-i) as u64
        };
        SIGN_BIT + magnitude_to_float_bits(m)
    } else {
        magnitude_to_float_bits(i as u64)
    }
}

} // verus!
