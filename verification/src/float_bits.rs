//! IEEE 754 numbers as bit patterns: their order, and their integer parts.

use vstd::arithmetic::power2::pow2;
use vstd::prelude::*;

verus! {

/// The pattern of +infinity.
pub const INFINITY: u32 = 0x7f80_0000;

/// The pattern of -infinity.
pub const NEG_INFINITY: u32 = 0xff80_0000;

/// The pattern of 1.0.
pub const ONE: u32 = 0x3f80_0000;

/// The pattern of -1.0.
pub const MINUS_ONE: u32 = 0xbf80_0000;

/// The bits of a binary32 pattern below the sign.
pub open spec fn magnitude(b: u32) -> int {
    b as int % 0x8000_0000
}

pub open spec fn is_negative(b: u32) -> bool {
    b >= 0x8000_0000
}

/// The pattern stands for no number.
pub open spec fn is_nan(b: u32) -> bool {
    magnitude(b) > 0x7f80_0000
}

/// Which of a list of patterns stand for no number.
pub open spec fn nan_places(list: Seq<u32>) -> Seq<bool> {
    Seq::new(list.len(), |i: int| is_nan(list[i]))
}

/// Whether all of a list of patterns stand for numbers.
pub fn all_numbers(list: &Vec<u32>) -> (r: bool)
    ensures
        r == !nan_places(list@).contains(true),
{
    let mut i: usize = 0;
    while i < list.len()
        invariant
            i <= list@.len(),
            forall|k: int| 0 <= k < i ==> !is_nan(#[trigger] list@[k]),
        decreases list@.len() - i,
    {
        if list[i] % 0x8000_0000 > 0x7f80_0000 {
            assert(nan_places(list@)[i as int]);
            return false;
        }
        i += 1;
    }
    true
}

/// An integer that orders numbers as their values are ordered; the two zeros share it.
pub open spec fn order_key(b: u32) -> int {
    if is_negative(b) {
        -magnitude(b)
    } else {
        magnitude(b)
    }
}

/// An integer that orders all patterns: negative before positive, each by magnitude.
pub open spec fn total_key(b: u32) -> int {
    if is_negative(b) {
        -magnitude(b) - 1
    } else {
        magnitude(b)
    }
}

/// `a < b` of two binary32 numbers.
pub open spec fn lt_of(a: u32, b: u32) -> bool {
    !is_nan(a) && !is_nan(b) && order_key(a) < order_key(b)
}

/// `a == b` of two binary32 numbers.
pub open spec fn eq_of(a: u32, b: u32) -> bool {
    !is_nan(a) && !is_nan(b) && order_key(a) == order_key(b)
}

/// The greater of two numbers; a number wins over a pattern that stands for none.
pub open spec fn max_of(a: u32, b: u32) -> u32 {
    if lt_of(a, b) || (is_nan(a) && !is_nan(b)) {
        b
    } else {
        a
    }
}

/// The smaller of two numbers; a number wins over a pattern that stands for none.
pub open spec fn min_of(a: u32, b: u32) -> u32 {
    if lt_of(b, a) || (is_nan(a) && !is_nan(b)) {
        b
    } else {
        a
    }
}

/// The value is +0.0 or -0.0.
pub open spec fn is_zero_of(b: u32) -> bool {
    magnitude(b) == 0
}

fn key(b: u32) -> (k: i64)
    ensures
        k == order_key(b),
{
    if b >= 0x8000_0000 {
        -((b % 0x8000_0000) as i64)
    } else {
        (b % 0x8000_0000) as i64
    }
}

fn nan(b: u32) -> (r: bool)
    ensures
        r == is_nan(b),
{
    b % 0x8000_0000 > 0x7f80_0000
}

/// `a < b` of two binary32 numbers.
pub fn lt(a: u32, b: u32) -> (r: bool)
    ensures
        r == lt_of(a, b),
{
    !nan(a) && !nan(b) && key(a) < key(b)
}

/// `a == b` of two binary32 numbers.
pub fn equal(a: u32, b: u32) -> (r: bool)
    ensures
        r == eq_of(a, b),
{
    !nan(a) && !nan(b) && key(a) == key(b)
}

/// Whether the value is zero.
pub fn is_zero(b: u32) -> (r: bool)
    ensures
        r == is_zero_of(b),
{
    b % 0x8000_0000 == 0
}

/// The greater of two numbers.
pub fn maximum(a: u32, b: u32) -> (r: u32)
    ensures
        r == max_of(a, b),
{
    if lt(a, b) || (nan(a) && !nan(b)) {
        b
    } else {
        a
    }
}

/// The smaller of two numbers.
pub fn minimum(a: u32, b: u32) -> (r: u32)
    ensures
        r == min_of(a, b),
{
    if lt(b, a) || (nan(a) && !nan(b)) {
        b
    } else {
        a
    }
}

/// The key of the total order of all patterns.
pub fn total(b: u32) -> (k: i64)
    ensures
        k == total_key(b),
{
    if b >= 0x8000_0000 {
        -((b % 0x8000_0000) as i64) - 1
    } else {
        (b % 0x8000_0000) as i64
    }
}

/// The integer part of `m * 2^e`.
pub open spec fn scaled(m: int, e: int) -> int {
    if e >= 0 {
        m * pow2(e as nat)
    } else {
        m / (pow2((-e) as nat) as int)
    }
}

/// The integer part of the absolute value of a finite binary64 number.
pub open spec fn double_integer(b: u64) -> int {
    let exponent = b as int / 0x10_0000_0000_0000 % 0x800;
    let fraction = b as int % 0x10_0000_0000_0000;
    if exponent == 0 {
        scaled(fraction, -1074)
    } else {
        scaled(fraction + 0x10_0000_0000_0000, exponent - 1075)
    }
}

/// A binary64 number cut to a 32-bit unsigned integer: toward zero, held to the range of the
/// type, zero for no number.
pub open spec fn double_to_u32_of(b: u64) -> u32 {
    let exponent = b as int / 0x10_0000_0000_0000 % 0x800;
    let fraction = b as int % 0x10_0000_0000_0000;
    if b >= 0x8000_0000_0000_0000 {
        0
    } else if exponent == 0x7ff {
        if fraction == 0 {
            u32::MAX
        } else {
            0
        }
    } else if double_integer(b) > u32::MAX {
        u32::MAX
    } else {
        double_integer(b) as u32
    }
}

/// The value is a number and not infinite.
pub open spec fn double_finite_of(b: u64) -> bool {
    b as int / 0x10_0000_0000_0000 % 0x800 != 0x7ff
}

/// Whether a binary64 pattern stands for a finite number.
pub fn double_finite(b: u64) -> (r: bool)
    ensures
        r == double_finite_of(b),
{
    b / 0x10_0000_0000_0000 % 0x800 != 0x7ff
}

proof fn lemma_scaled_down(m: int, k: nat)
    requires
        0 <= m < 0x20_0000_0000_0000,
        k >= 53,
    ensures
        m / (pow2(k) as int) == 0,
{
    vstd::arithmetic::power2::lemma2_to64();
    vstd::arithmetic::power2::lemma2_to64_rest();
    if k > 53 {
        vstd::arithmetic::power2::lemma_pow2_strictly_increases(53, k);
    }
    assert(pow2(53) == 0x20_0000_0000_0000);
    vstd::arithmetic::div_mod::lemma_basic_div(m, pow2(k) as int);
}

proof fn lemma_scaled_up(m: int, k: nat)
    requires
        m >= 0,
    ensures
        m * pow2(k) >= m,
{
    vstd::arithmetic::power2::lemma_pow2_pos(k);
    let p = pow2(k) as int;
    assert(m * p >= m) by (nonlinear_arith)
        requires
            m >= 0,
            p >= 1,
    ;
}

/// A binary64 number cut to a 32-bit unsigned integer.
pub fn double_to_u32(b: u64) -> (r: u32)
    ensures
        r == double_to_u32_of(b),
{
    let exponent: u64 = b / 0x10_0000_0000_0000 % 0x800;
    let fraction: u64 = b % 0x10_0000_0000_0000;
    if b >= 0x8000_0000_0000_0000 {
        return 0;
    }
    if exponent == 0x7ff {
        return if fraction == 0 {
            u32::MAX
        } else {
            0
        };
    }
    if exponent >= 1075 {
        proof {
            lemma_scaled_up(fraction + 0x10_0000_0000_0000, (exponent - 1075) as nat);
        }
        return u32::MAX;
    }
    if exponent < 1023 {
        proof {
            if exponent == 0 {
                lemma_scaled_down(fraction as int, 1074);
            } else {
                lemma_scaled_down(fraction + 0x10_0000_0000_0000, (1075 - exponent) as nat);
            }
        }
        return 0;
    }
    let m: u64 = fraction + 0x10_0000_0000_0000;
    let k: u64 = 1075 - exponent;
    proof {
        vstd::bits::lemma_u64_shr_is_div(m, k);
    }
    let whole: u64 = m >> k;
    if whole > u32::MAX as u64 {
        u32::MAX
    } else {
        whole as u32
    }
}

/// The integer part of the absolute value of a finite binary32 number.
pub open spec fn single_integer(b: u32) -> int {
    let exponent = b as int / 0x80_0000 % 0x100;
    let fraction = b as int % 0x80_0000;
    if exponent == 0 {
        scaled(fraction, -149)
    } else {
        scaled(fraction + 0x80_0000, exponent - 150)
    }
}

/// A binary32 number cut to a 64-bit signed integer: toward zero, held to the range of the type,
/// zero for no number.
pub open spec fn single_to_i64_of(b: u32) -> i64 {
    if is_nan(b) {
        0
    } else if is_negative(b) {
        if magnitude(b) == 0x7f80_0000 || single_integer(b) > 0x8000_0000_0000_0000 {
            i64::MIN
        } else {
            (-single_integer(b)) as i64
        }
    } else if magnitude(b) == 0x7f80_0000 || single_integer(b) > i64::MAX {
        i64::MAX
    } else {
        single_integer(b) as i64
    }
}

proof fn lemma_saturates(m: int, k: nat)
    requires
        m >= 0x80_0000,
        k >= 41,
    ensures
        m * pow2(k) > 0x8000_0000_0000_0000,
{
    vstd::arithmetic::power2::lemma2_to64();
    vstd::arithmetic::power2::lemma2_to64_rest();
    if k > 41 {
        vstd::arithmetic::power2::lemma_pow2_strictly_increases(41, k);
    }
    let p = pow2(k) as int;
    assert(p >= 0x200_0000_0000);
    assert(m * p >= 0x80_0000 * 0x200_0000_0000) by (nonlinear_arith)
        requires
            m >= 0x80_0000,
            p >= 0x200_0000_0000,
    ;
}

/// A binary32 number cut to a 64-bit signed integer.
pub fn single_to_i64(b: u32) -> (r: i64)
    ensures
        r == single_to_i64_of(b),
{
    if nan(b) {
        return 0;
    }
    let negative = b >= 0x8000_0000;
    let exponent: u32 = b / 0x80_0000 % 0x100;
    let fraction: u32 = b % 0x80_0000;
    if exponent == 0xff {
        return if negative {
            i64::MIN
        } else {
            i64::MAX
        };
    }
    if exponent >= 191 {
        proof {
            lemma_saturates(fraction + 0x80_0000, (exponent - 150) as nat);
        }
        return if negative {
            i64::MIN
        } else {
            i64::MAX
        };
    }
    if exponent == 0 {
        proof {
            lemma_scaled_down(fraction as int, 149);
        }
        return 0;
    }
    let m: u64 = fraction as u64 + 0x80_0000;
    let whole: u64;
    if exponent >= 150 {
        let k: u64 = exponent as u64 - 150;
        proof {
            vstd::arithmetic::power2::lemma2_to64();
            vstd::arithmetic::power2::lemma2_to64_rest();
            if k < 40 {
                vstd::arithmetic::power2::lemma_pow2_strictly_increases(k as nat, 40);
            }
            let p = pow2(k as nat) as int;
            assert(p <= 0x100_0000_0000);
            assert(m * p <= 0xff_ffff * 0x100_0000_0000) by (nonlinear_arith)
                requires
                    m <= 0xff_ffff,
                    0 <= p <= 0x100_0000_0000,
                    m >= 0,
            ;
            vstd::bits::lemma_u64_shl_is_mul(m, k);
        }
        whole = m << k;
    } else if exponent >= 97 {
        let k: u64 = 150 - exponent as u64;
        proof {
            vstd::bits::lemma_u64_shr_is_div(m, k);
        }
        whole = m >> k;
    } else {
        proof {
            lemma_scaled_down(m as int, (150 - exponent) as nat);
        }
        whole = 0;
    }
    assert(whole == single_integer(b));
    if negative {
        if whole >= 0x8000_0000_0000_0000 {
            i64::MIN
        } else {
            -(whole as i64)
        }
    } else if whole > i64::MAX as u64 {
        i64::MAX
    } else {
        whole as i64
    }
}

/// Numbers are ordered: none is less than itself, of two one is less, unless they are equal or one
/// of them is no number; negative ones are less than positive ones, and the two zeros are equal.
pub proof fn law_numbers_are_ordered(a: u32, b: u32, c: u32)
    ensures
        !lt_of(a, a),
        !(lt_of(a, b) && lt_of(b, a)),
        lt_of(a, b) && lt_of(b, c) ==> lt_of(a, c),
        !is_nan(a) && !is_nan(b) ==> lt_of(a, b) || lt_of(b, a) || eq_of(a, b),
        is_nan(a) ==> !lt_of(a, b) && !lt_of(b, a) && !eq_of(a, b),
        !is_nan(a) && a >= 0x8000_0000 && magnitude(a) > 0 ==> lt_of(a, 0),
        !is_nan(b) && 0 < b < 0x8000_0000 ==> lt_of(0, b),
        eq_of(0, 0x8000_0000),
        a < b < 0x7f80_0000 ==> lt_of(a, b),
        0x8000_0000 < a < b < 0xff80_0000 ==> lt_of(b, a),
{
}

/// The greater and the smaller of two numbers are one of the two, and nothing is beyond them.
pub proof fn law_greater_and_smaller(a: u32, b: u32)
    ensures
        max_of(a, b) == a || max_of(a, b) == b,
        min_of(a, b) == a || min_of(a, b) == b,
        !lt_of(max_of(a, b), a) && !lt_of(max_of(a, b), b),
        !lt_of(a, min_of(a, b)) && !lt_of(b, min_of(a, b)),
        !is_nan(a) || !is_nan(b) ==> !is_nan(max_of(a, b)) && !is_nan(min_of(a, b)),
{
}

} // verus!
