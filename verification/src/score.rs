//! Scores as IEEE 754 binary32 bit patterns.
//!
//! A score is carried as the `u32` that holds the bits of a single-precision
//! number. Ranking uses the total order of IEEE 754 (`totalOrder`): the bits,
//! read as a sign and a magnitude, are mapped to a signed integer key, and
//! keys are compared as integers.

use vstd::arithmetic::power2::{
    lemma_pow2_pos, lemma_pow2_strictly_increases, lemma_pow2_unfold, pow2,
};
use vstd::prelude::*;

verus! {

/// The bit pattern of `0.5`.
pub const HALF: u32 = 0x3F00_0000;

/// The bit pattern of positive infinity.
pub const INFINITY: u32 = 0x7F80_0000;

/// The sign bit of a pattern.
pub const SIGN: u32 = 0x8000_0000;

/// The total-order key of a bit pattern.
///
/// A pattern without the sign bit is its own key. A pattern with the sign
/// bit, whose other 31 bits hold the magnitude `m`, has the key `-1 - m`.
pub open spec fn key_of(bits: u32) -> int {
    if bits < SIGN {
        bits as int
    } else {
        -1 - (bits - SIGN)
    }
}

/// Whether a pattern holds a number greater than one half: a positive
/// number above `0.5`, positive infinity included, and no NaN.
pub open spec fn exceeds_half(bits: u32) -> bool {
    HALF < bits <= INFINITY
}

/// The key under which a pattern is ranked.
///
/// Computed as the standard library does for `total_cmp`: the bits are read
/// as a two's complement integer and, where the sign bit is set, the other
/// 31 bits are flipped.
pub fn total_order_key(bits: u32) -> (key: i32)
    ensures
        key == key_of(bits),
{
    let flip: u32 = if bits >= SIGN {
        0x7FFF_FFFF
    } else {
        0
    };
    let adjusted: u32 = bits ^ flip;
    assert(bits < 0x8000_0000u32 ==> bits ^ 0u32 == bits) by (bit_vector);
    assert(bits >= 0x8000_0000u32 ==> bits ^ 0x7FFF_FFFFu32 >= 0x8000_0000u32 && (bits
        ^ 0x7FFF_FFFFu32) - 0x8000_0000u32 == 0x7FFF_FFFFu32 - (bits - 0x8000_0000u32))
        by (bit_vector);
    if adjusted < SIGN {
        adjusted as i32
    } else {
        let low: u32 = adjusted - SIGN;
        (low as i32) - 0x7FFF_FFFF - 1
    }
}

/// Whether the score is strictly greater than one half.
pub fn above_half(bits: u32) -> (r: bool)
    ensures
        r == exceeds_half(bits),
{
    HALF < bits && bits <= INFINITY
}

/// The 31 bits below the sign bit, as a number.
pub open spec fn magnitude(bits: u32) -> int {
    if bits < SIGN {
        bits as int
    } else {
        bits - SIGN
    }
}

/// Whether the pattern holds no number.
pub open spec fn is_nan(bits: u32) -> bool {
    magnitude(bits) > INFINITY
}

/// Whether the pattern holds a finite number.
pub open spec fn is_finite(bits: u32) -> bool {
    magnitude(bits) < INFINITY
}

/// The size of the finite number whose magnitude bits are `m`, in units of
/// two to the power of -149: the upper eight bits are the exponent `e`, the
/// lower 23 the fraction `f`; with `e` zero the size is `f`, else it is
/// two to the power of 23 plus `f`, times two to the power of `e - 1`.
pub open spec fn units_of(m: int) -> int {
    let e = m / 0x80_0000;
    let f = m % 0x80_0000;
    if e == 0 {
        f
    } else {
        (0x80_0000 + f) * pow2((e - 1) as nat)
    }
}

/// The number that a finite pattern holds, in units of two to the power of
/// -149.
pub open spec fn value_of(bits: u32) -> int {
    if bits < SIGN {
        units_of(magnitude(bits))
    } else {
        -units_of(magnitude(bits))
    }
}

/// A greater magnitude holds a greater size.
pub proof fn lemma_size_increasing(m1: int, m2: int)
    requires
        0 <= m1 < m2 < 0x8000_0000,
    ensures
        0 <= units_of(m1) < units_of(m2),
{
    let e1 = m1 / 0x80_0000;
    let f1 = m1 % 0x80_0000;
    let e2 = m2 / 0x80_0000;
    let f2 = m2 % 0x80_0000;
    if e1 > 0 {
        lemma_pow2_pos((e1 - 1) as nat);
        assert(0 <= (0x80_0000 + f1) * pow2((e1 - 1) as nat)) by (nonlinear_arith)
            requires
                0 <= f1,
                0 < pow2((e1 - 1) as nat),
        ;
    }
    if e1 == e2 {
        if e1 > 0 {
            let power = pow2((e1 - 1) as nat);
            assert((0x80_0000 + f1) * power < (0x80_0000 + f2) * power) by (nonlinear_arith)
                requires
                    f1 < f2,
                    0 < power,
            ;
        }
    } else {
        let upper = pow2((e2 - 1) as nat);
        lemma_pow2_pos((e2 - 1) as nat);
        assert(0x80_0000 * upper <= (0x80_0000 + f2) * upper) by (nonlinear_arith)
            requires
                0 <= f2,
                0 < upper,
        ;
        if e1 == 0 {
            assert(0x80_0000 * 1 <= 0x80_0000 * upper) by (nonlinear_arith)
                requires
                    1 <= upper,
            ;
        } else {
            let lower = pow2((e1 - 1) as nat);
            lemma_pow2_unfold(e1 as nat);
            if e1 < e2 - 1 {
                lemma_pow2_strictly_increases(e1 as nat, (e2 - 1) as nat);
            }
            assert((0x80_0000 + f1) * lower < 0x80_0000 * (2 * lower)) by (nonlinear_arith)
                requires
                    f1 < 0x80_0000,
                    0 < lower,
            ;
            assert(0x80_0000 * (2 * lower) <= 0x80_0000 * upper) by (nonlinear_arith)
                requires
                    2 * lower <= upper,
            ;
        }
    }
}

/// Among finite numbers, the total order is the order of the numbers: of
/// two numbers, the smaller has the lower key.
pub proof fn lemma_key_respects_value(a: u32, b: u32)
    requires
        is_finite(a),
        is_finite(b),
        value_of(a) < value_of(b),
    ensures
        key_of(a) < key_of(b),
{
    let ma = magnitude(a);
    let mb = magnitude(b);
    if ma < mb {
        lemma_size_increasing(ma, mb);
    } else if mb < ma {
        lemma_size_increasing(mb, ma);
    }
    if ma > 0 {
        lemma_size_increasing(0, ma);
    }
    if mb > 0 {
        lemma_size_increasing(0, mb);
    }
}

/// Among finite numbers, a lower key holds no greater number; it holds the
/// same number only where the keys are those of the negative zero and of the
/// positive zero.
pub proof fn lemma_value_respects_key(a: u32, b: u32)
    requires
        is_finite(a),
        is_finite(b),
        key_of(a) < key_of(b),
    ensures
        value_of(a) <= value_of(b),
        value_of(a) == value_of(b) ==> a == SIGN && b == 0,
{
    let ma = magnitude(a);
    let mb = magnitude(b);
    if ma < mb {
        lemma_size_increasing(ma, mb);
    } else if mb < ma {
        lemma_size_increasing(mb, ma);
    }
    if ma > 0 {
        lemma_size_increasing(0, ma);
    }
    if mb > 0 {
        lemma_size_increasing(0, mb);
    }
}

/// What holds no number has its place at the ends of the order: with the
/// sign bit clear above positive infinity, with the sign bit set below
/// negative infinity.
pub proof fn lemma_nan_position(bits: u32)
    requires
        is_nan(bits),
    ensures
        bits < SIGN ==> key_of(bits) > key_of(INFINITY),
        bits >= SIGN ==> key_of(bits) < key_of((SIGN + INFINITY) as u32),
{
}

/// A pattern exceeds one half where it holds positive infinity or a finite
/// number greater than the number that `HALF` holds, and nowhere else.
pub proof fn lemma_exceeds_half(bits: u32)
    ensures
        exceeds_half(bits) <==> bits == INFINITY || (is_finite(bits) && value_of(bits) > value_of(
            HALF,
        )),
        exceeds_half(bits) <==> key_of(HALF) < key_of(bits) <= key_of(INFINITY),
{
    let m = magnitude(bits);
    if is_finite(bits) {
        if m < HALF {
            lemma_size_increasing(m, HALF as int);
        } else if m > HALF {
            lemma_size_increasing(HALF as int, m);
        }
        lemma_size_increasing(0, HALF as int);
    }
}

} // verus!
