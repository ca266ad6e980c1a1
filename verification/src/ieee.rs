//! Comparing the value that 64 bits stand for as a binary floating-point
//! number with an integer, in integer arithmetic.
//!
//! The bits follow IEEE 754 binary64: one sign bit, eleven bits of exponent,
//! fifty-two bits of fraction. The integer is first rounded to the nearest
//! number with fifty-three significant bits, as a conversion to binary64
//! does, and the two are then compared exactly.
use vstd::prelude::*;
use vstd::arithmetic::power2::{
    lemma2_to64, lemma2_to64_rest, lemma_pow2_pos, lemma_pow2_strictly_increases,
    lemma_pow2_unfold, pow2,
};
use crate::value::{int_order, PakOrder};

verus! {

/// Two to the power of 52: the numbers below it are the fractions.
pub const FRACTION_END: u64 = 0x10_0000_0000_0000;

/// Two to the power of 53: the integers up to it have fifty-three significant bits.
pub const EXACT_END: u64 = 0x20_0000_0000_0000;

/// Whether the sign bit is set.
pub open spec fn sign_of(bits: u64) -> bool {
    bits >= 0x8000_0000_0000_0000
}

/// The eleven bits of the exponent.
pub open spec fn exponent_of(bits: u64) -> int {
    (bits / FRACTION_END) as int % 0x800
}

/// The fifty-two bits of the fraction.
pub open spec fn fraction_of(bits: u64) -> int {
    (bits % FRACTION_END) as int
}

/// Whether the bits stand for no number.
pub open spec fn is_nan(bits: u64) -> bool {
    exponent_of(bits) == 0x7ff && fraction_of(bits) != 0
}

/// Whether the bits stand for an infinity.
pub open spec fn is_infinite(bits: u64) -> bool {
    exponent_of(bits) == 0x7ff && fraction_of(bits) == 0
}

/// The significand of a finite number, with its sign: the number is the
/// significand times two to the power of [`power_of`].
pub open spec fn significand_of(bits: u64) -> int {
    let magnitude = if exponent_of(bits) == 0 {
        fraction_of(bits)
    } else {
        fraction_of(bits) + FRACTION_END
    };
    if sign_of(bits) {
        -magnitude
    } else {
        magnitude
    }
}

/// The power of two by which the significand of a finite number is scaled.
pub open spec fn power_of(bits: u64) -> int {
    if exponent_of(bits) == 0 {
        -1074
    } else {
        exponent_of(bits) - 1075
    }
}

/// The distance between neighbouring numbers with fifty-three significant
/// bits around `a`, a number of at most sixty-four bits.
pub open spec fn unit_of(a: nat) -> nat {
    if a < 0x20_0000_0000_0000 {
        1
    } else if a < 0x40_0000_0000_0000 {
        2
    } else if a < 0x80_0000_0000_0000 {
        4
    } else if a < 0x100_0000_0000_0000 {
        8
    } else if a < 0x200_0000_0000_0000 {
        16
    } else if a < 0x400_0000_0000_0000 {
        32
    } else if a < 0x800_0000_0000_0000 {
        64
    } else if a < 0x1000_0000_0000_0000 {
        128
    } else if a < 0x2000_0000_0000_0000 {
        256
    } else if a < 0x4000_0000_0000_0000 {
        512
    } else if a < 0x8000_0000_0000_0000 {
        1024
    } else {
        2048
    }
}

/// The integer that a conversion of `n` to binary64 gives: the nearest
/// multiple of the unit, and of two nearest ones the even multiple.
pub open spec fn rounded(n: int) -> int {
    let a = if n < 0 {
        -n
    } else {
        n
    };
    let unit = unit_of(a as nat) as int;
    let whole = a / unit;
    let rest = a % unit;
    let up = 2 * rest > unit || (2 * rest == unit && whole % 2 == 1);
    let magnitude = (if up {
        whole + 1
    } else {
        whole
    }) * unit;
    if n < 0 {
        -magnitude
    } else {
        magnitude
    }
}

/// The order of the number that `bits` stand for and the integer `n`
/// converted to binary64, or `None` where the bits stand for no number.
pub open spec fn float_int_order(bits: u64, n: int) -> Option<PakOrder> {
    if is_nan(bits) {
        None
    } else if is_infinite(bits) {
        Some(
            if sign_of(bits) {
                PakOrder::Less
            } else {
                PakOrder::Greater
            },
        )
    } else if power_of(bits) >= 0 {
        Some(int_order(significand_of(bits) * pow2(power_of(bits) as nat), rounded(n)))
    } else {
        Some(int_order(significand_of(bits), rounded(n) * pow2((-power_of(bits)) as nat)))
    }
}

/// The number that the bits of a finite number stand for, times two to the
/// power of 1074. It is a whole number, since no number of binary64 is
/// scaled by a smaller power of two.
pub open spec fn scaled(bits: u64) -> int {
    significand_of(bits) * pow2((power_of(bits) + 1074) as nat)
}

/// Where the bits lie beyond the numbers: 1 for the infinity above them, -1
/// for the infinity below them, 0 for a number.
pub open spec fn end_of(bits: u64) -> int {
    if !is_infinite(bits) {
        0
    } else if sign_of(bits) {
        -1
    } else {
        1
    }
}

/// The order of the two numbers that `a` and `b` stand for, or `None` where
/// one of them stands for no number. Numbers are compared by their size, so
/// that the two zeros are equal; an infinity lies beyond every number and is
/// equal to itself.
pub open spec fn float_order(a: u64, b: u64) -> Option<PakOrder> {
    if is_nan(a) || is_nan(b) {
        None
    } else if is_infinite(a) || is_infinite(b) {
        Some(int_order(end_of(a), end_of(b)))
    } else {
        Some(int_order(scaled(a), scaled(b)))
    }
}

/// The exponent and the fraction read as one number, below zero where the
/// sign bit is set. Among the bits that stand for a number or an infinity,
/// a greater level is a greater number.
pub open spec fn level_of(bits: u64) -> int {
    let magnitude = exponent_of(bits) * 0x10_0000_0000_0000 + fraction_of(bits);
    if sign_of(bits) {
        -magnitude
    } else {
        magnitude
    }
}

/// The other way round.
pub open spec fn flipped(order: Option<PakOrder>) -> Option<PakOrder> {
    match order {
        Some(PakOrder::Less) => Some(PakOrder::Greater),
        Some(PakOrder::Greater) => Some(PakOrder::Less),
        other => other,
    }
}

/// Two to the power of `k`.
fn power_of_two(k: u32) -> (r: u128)
    requires
        k <= 64,
    ensures
        r == pow2(k as nat),
        1 <= r <= 0x1_0000_0000_0000_0000,
{
    let mut r: u128 = 1;
    let mut i: u32 = 0;
    proof {
        lemma2_to64();
    }
    while i < k
        invariant
            i <= k <= 64,
            r == pow2(i as nat),
            r <= pow2(64),
            pow2(64) == 0x1_0000_0000_0000_0000,
        decreases k - i,
    {
        proof {
            lemma_pow2_unfold((i + 1) as nat);
            if i + 1 < 64 {
                lemma_pow2_strictly_increases((i + 1) as nat, 64);
            }
        }
        r = r * 2;
        i += 1;
    }
    proof {
        lemma_pow2_pos(k as nat);
    }
    r
}

/// The distance between neighbouring numbers with fifty-three significant
/// bits around `a`.
fn unit_for(a: u128) -> (r: u128)
    ensures
        r == unit_of(a as nat),
{
    if a < 0x20_0000_0000_0000 {
        1
    } else if a < 0x40_0000_0000_0000 {
        2
    } else if a < 0x80_0000_0000_0000 {
        4
    } else if a < 0x100_0000_0000_0000 {
        8
    } else if a < 0x200_0000_0000_0000 {
        16
    } else if a < 0x400_0000_0000_0000 {
        32
    } else if a < 0x800_0000_0000_0000 {
        64
    } else if a < 0x1000_0000_0000_0000 {
        128
    } else if a < 0x2000_0000_0000_0000 {
        256
    } else if a < 0x4000_0000_0000_0000 {
        512
    } else if a < 0x8000_0000_0000_0000 {
        1024
    } else {
        2048
    }
}

/// The unit divides two to the power of sixty-four, and two to the power of
/// sixty-three where the number is below that; and it is no more than the
/// number, unless that is zero.
proof fn lemma_unit_divides(a: nat)
    ensures
        1 <= unit_of(a) <= 2048,
        a >= 1 ==> unit_of(a) <= a,
        (0x1_0000_0000_0000_0000int / (unit_of(a) as int)) * unit_of(a)
            == 0x1_0000_0000_0000_0000,
        a < 0x8000_0000_0000_0000 ==> (0x8000_0000_0000_0000int / (unit_of(a) as int)) * unit_of(
            a,
        ) == 0x8000_0000_0000_0000,
{
    if a < 0x20_0000_0000_0000 {
        assert(unit_of(a) == 1);
        assert((0x1_0000_0000_0000_0000int / 1) * 1 == 0x1_0000_0000_0000_0000);
        assert((0x8000_0000_0000_0000int / 1) * 1 == 0x8000_0000_0000_0000);
    } else if a < 0x40_0000_0000_0000 {
        assert(unit_of(a) == 2);
        assert((0x1_0000_0000_0000_0000int / 2) * 2 == 0x1_0000_0000_0000_0000);
        assert((0x8000_0000_0000_0000int / 2) * 2 == 0x8000_0000_0000_0000);
    } else if a < 0x80_0000_0000_0000 {
        assert(unit_of(a) == 4);
        assert((0x1_0000_0000_0000_0000int / 4) * 4 == 0x1_0000_0000_0000_0000);
        assert((0x8000_0000_0000_0000int / 4) * 4 == 0x8000_0000_0000_0000);
    } else if a < 0x100_0000_0000_0000 {
        assert(unit_of(a) == 8);
        assert((0x1_0000_0000_0000_0000int / 8) * 8 == 0x1_0000_0000_0000_0000);
        assert((0x8000_0000_0000_0000int / 8) * 8 == 0x8000_0000_0000_0000);
    } else if a < 0x200_0000_0000_0000 {
        assert(unit_of(a) == 16);
        assert((0x1_0000_0000_0000_0000int / 16) * 16 == 0x1_0000_0000_0000_0000);
        assert((0x8000_0000_0000_0000int / 16) * 16 == 0x8000_0000_0000_0000);
    } else if a < 0x400_0000_0000_0000 {
        assert(unit_of(a) == 32);
        assert((0x1_0000_0000_0000_0000int / 32) * 32 == 0x1_0000_0000_0000_0000);
        assert((0x8000_0000_0000_0000int / 32) * 32 == 0x8000_0000_0000_0000);
    } else if a < 0x800_0000_0000_0000 {
        assert(unit_of(a) == 64);
        assert((0x1_0000_0000_0000_0000int / 64) * 64 == 0x1_0000_0000_0000_0000);
        assert((0x8000_0000_0000_0000int / 64) * 64 == 0x8000_0000_0000_0000);
    } else if a < 0x1000_0000_0000_0000 {
        assert(unit_of(a) == 128);
        assert((0x1_0000_0000_0000_0000int / 128) * 128 == 0x1_0000_0000_0000_0000);
        assert((0x8000_0000_0000_0000int / 128) * 128 == 0x8000_0000_0000_0000);
    } else if a < 0x2000_0000_0000_0000 {
        assert(unit_of(a) == 256);
        assert((0x1_0000_0000_0000_0000int / 256) * 256 == 0x1_0000_0000_0000_0000);
        assert((0x8000_0000_0000_0000int / 256) * 256 == 0x8000_0000_0000_0000);
    } else if a < 0x4000_0000_0000_0000 {
        assert(unit_of(a) == 512);
        assert((0x1_0000_0000_0000_0000int / 512) * 512 == 0x1_0000_0000_0000_0000);
        assert((0x8000_0000_0000_0000int / 512) * 512 == 0x8000_0000_0000_0000);
    } else if a < 0x8000_0000_0000_0000 {
        assert(unit_of(a) == 1024);
        assert((0x1_0000_0000_0000_0000int / 1024) * 1024 == 0x1_0000_0000_0000_0000);
        assert((0x8000_0000_0000_0000int / 1024) * 1024 == 0x8000_0000_0000_0000);
    } else {
        assert(unit_of(a) == 2048);
        assert((0x1_0000_0000_0000_0000int / 2048) * 2048 == 0x1_0000_0000_0000_0000);
    }
}

/// Below a multiple of the unit, the next multiple of the unit above a
/// number is at most that multiple.
proof fn lemma_next_multiple(a: int, unit: int, count: int)
    requires
        0 <= a < count * unit,
        unit > 0,
    ensures
        (a / unit + 1) * unit <= count * unit,
        (a / unit) * unit <= a,
        a == (a / unit) * unit + a % unit,
        0 <= a % unit < unit,
{
    vstd::arithmetic::div_mod::lemma_fundamental_div_mod(a, unit);
    vstd::arithmetic::div_mod::lemma_mod_bound(a, unit);
    let whole = a / unit;
    assert(unit * whole == whole * unit) by (nonlinear_arith);
    assert(whole < count) by (nonlinear_arith)
        requires
            whole * unit <= a,
            a < count * unit,
            unit > 0,
    ;
    assert((whole + 1) * unit <= count * unit) by (nonlinear_arith)
        requires
            whole + 1 <= count,
            unit > 0,
    ;
}

/// The integer that a conversion of `n` to binary64 gives.
fn round(n: i128) -> (r: i128)
    requires
        -0x8000_0000_0000_0000 <= n <= 0xffff_ffff_ffff_ffff,
    ensures
        r == rounded(n as int),
        -0x8000_0000_0000_0000 <= r <= 0x1_0000_0000_0000_0000,
        (r < 0) == (n < 0),
        (r == 0) == (n == 0),
{
    let a: u128 = if n < 0 {
        (-n) as u128
    } else {
        n as u128
    };
    let unit = unit_for(a);
    let whole = a / unit;
    let rest = a % unit;
    let up = 2 * rest > unit || (2 * rest == unit && whole % 2 == 1);
    proof {
        lemma_unit_divides(a as nat);
        let count = 0x1_0000_0000_0000_0000int / (unit as int);
        assert(count * unit == 0x1_0000_0000_0000_0000);
        lemma_next_multiple(a as int, unit as int, count);
        assert((whole + 1) * unit == whole * unit + unit) by (nonlinear_arith);
        if n < 0 && a < 0x8000_0000_0000_0000 {
            let half = 0x8000_0000_0000_0000int / (unit as int);
            assert(half * unit == 0x8000_0000_0000_0000);
            lemma_next_multiple(a as int, unit as int, half);
        }
        if a > 0 {
            assert(whole >= 1);
            assert(whole * unit >= 1) by (nonlinear_arith)
                requires
                    whole >= 1,
                    unit >= 1,
            ;
        }
    }
    let magnitude: u128 = if up {
        (whole + 1) * unit
    } else {
        whole * unit
    };
    if n < 0 {
        -(magnitude as i128)
    } else {
        magnitude as i128
    }
}

/// The size of a finite number, scaled like [`scaled`], from its exponent
/// and its fraction.
spec fn size_of(exponent: int, fraction: int) -> int {
    if exponent == 0 {
        fraction
    } else {
        (fraction + 0x10_0000_0000_0000) * pow2((exponent - 1) as nat)
    }
}

/// Of two finite numbers the one with the smaller exponent is the smaller
/// in size, and of two with the same exponent the one with the smaller
/// fraction.
proof fn lemma_size_rises(e1: int, f1: int, e2: int, f2: int)
    requires
        0 <= e1 <= e2,
        0 <= f1 < 0x10_0000_0000_0000,
        0 <= f2 < 0x10_0000_0000_0000,
        e1 < e2 || f1 < f2,
    ensures
        0 <= size_of(e1, f1) < size_of(e2, f2),
{
    lemma2_to64();
    if e1 == e2 {
        if e1 > 0 {
            let scale = pow2((e1 - 1) as nat) as int;
            lemma_pow2_pos((e1 - 1) as nat);
            assert(0 <= (f1 + 0x10_0000_0000_0000) * scale < (f2 + 0x10_0000_0000_0000) * scale)
                by (nonlinear_arith)
                requires
                    0 <= f1 < f2,
                    scale > 0,
            ;
        }
    } else {
        let high = pow2((e2 - 1) as nat) as int;
        lemma_pow2_pos((e2 - 1) as nat);
        if e1 == 0 {
            assert((f2 + 0x10_0000_0000_0000) * high >= 0x10_0000_0000_0000) by (nonlinear_arith)
                requires
                    f2 >= 0,
                    high >= 1,
            ;
        } else {
            let low = pow2((e1 - 1) as nat) as int;
            lemma_pow2_pos((e1 - 1) as nat);
            lemma_pow2_unfold(e1 as nat);
            if e1 < e2 - 1 {
                lemma_pow2_strictly_increases(e1 as nat, (e2 - 1) as nat);
            }
            assert(2 * low <= high);
            assert(0 <= (f1 + 0x10_0000_0000_0000) * low < (f2 + 0x10_0000_0000_0000) * high)
                by (nonlinear_arith)
                requires
                    0 <= f1 < 0x10_0000_0000_0000,
                    0 <= f2,
                    low > 0,
                    2 * low <= high,
            ;
        }
    }
}

/// The size of a finite number is its scaled value without the sign.
proof fn lemma_scaled_size(bits: u64)
    requires
        exponent_of(bits) != 0x7ff,
    ensures
        scaled(bits) == if sign_of(bits) {
            -size_of(exponent_of(bits), fraction_of(bits))
        } else {
            size_of(exponent_of(bits), fraction_of(bits))
        },
        size_of(exponent_of(bits), fraction_of(bits)) >= 0,
        size_of(exponent_of(bits), fraction_of(bits)) == 0 <==> exponent_of(bits) == 0
            && fraction_of(bits) == 0,
{
    lemma2_to64();
    let e = exponent_of(bits);
    let f = fraction_of(bits);
    if e == 0 {
        assert(f * 1 == f && (-f) * 1 == -f);
    } else {
        let scale = pow2((e - 1) as nat) as int;
        lemma_pow2_pos((e - 1) as nat);
        assert((-(f + 0x10_0000_0000_0000)) * scale == -((f + 0x10_0000_0000_0000) * scale))
            by (nonlinear_arith);
        assert((f + 0x10_0000_0000_0000) * scale > 0) by (nonlinear_arith)
            requires
                f >= 0,
                scale > 0,
        ;
    }
}

/// Numbers and infinities are ordered like their levels.
pub proof fn lemma_float_order_by_level(a: u64, b: u64)
    requires
        !is_nan(a),
        !is_nan(b),
    ensures
        float_order(a, b) == Some(int_order(level_of(a), level_of(b))),
{
    let (ea, fa) = (exponent_of(a), fraction_of(a));
    let (eb, fb) = (exponent_of(b), fraction_of(b));
    if !is_infinite(a) && !is_infinite(b) {
        lemma_scaled_size(a);
        lemma_scaled_size(b);
        if ea < eb || (ea == eb && fa < fb) {
            lemma_size_rises(ea, fa, eb, fb);
        } else if eb < ea || (ea == eb && fb < fa) {
            lemma_size_rises(eb, fb, ea, fa);
        }
    }
}

/// Whether the bits stand for no number.
fn stands_for_none(bits: u64) -> (r: bool)
    ensures
        r == is_nan(bits),
{
    (bits / FRACTION_END) % 0x800 == 0x7ff && bits % FRACTION_END != 0
}

/// The level of the bits.
fn level(bits: u64) -> (r: i128)
    ensures
        r == level_of(bits),
{
    let magnitude = bits % 0x8000_0000_0000_0000;
    assert(bits % 0x8000_0000_0000_0000 == (bits / 0x10_0000_0000_0000) % 0x800
        * 0x10_0000_0000_0000 + bits % 0x10_0000_0000_0000) by (bit_vector);
    if bits >= 0x8000_0000_0000_0000 {
        -(magnitude as i128)
    } else {
        magnitude as i128
    }
}

/// The order of the two numbers that the bits stand for.
pub fn order_bits(a: u64, b: u64) -> (r: Option<PakOrder>)
    ensures
        r == float_order(a, b),
{
    if stands_for_none(a) || stands_for_none(b) {
        return None;
    }
    proof {
        lemma_float_order_by_level(a, b);
    }
    Some(order_int(level(a), level(b)))
}

/// The order of two integers.
fn order_int(x: i128, y: i128) -> (r: PakOrder)
    ensures
        r == int_order(x as int, y as int),
{
    if x < y {
        PakOrder::Less
    } else if x == y {
        PakOrder::Equal
    } else {
        PakOrder::Greater
    }
}

/// The order of the number that `bits` stand for and the integer `n`
/// converted to binary64, or `None` where the bits stand for no number.
pub fn order_bits_int(bits: u64, n: i128) -> (r: Option<PakOrder>)
    requires
        -0x8000_0000_0000_0000 <= n <= 0xffff_ffff_ffff_ffff,
    ensures
        r == float_int_order(bits, n as int),
{
    let negative = bits >= 0x8000_0000_0000_0000;
    let exponent = (bits / FRACTION_END) % 0x800;
    let fraction = bits % FRACTION_END;
    if exponent == 0x7ff {
        return if fraction != 0 {
            None
        } else if negative {
            Some(PakOrder::Less)
        } else {
            Some(PakOrder::Greater)
        };
    }
    let whole = round(n);
    let magnitude: i128 = if exponent == 0 {
        fraction as i128
    } else {
        (fraction + FRACTION_END) as i128
    };
    let significand: i128 = if negative {
        -magnitude
    } else {
        magnitude
    };
    proof {
        lemma2_to64();
        lemma2_to64_rest();
    }
    if exponent >= 1075 {
        let power = (exponent - 1075) as u32;
        if power > 12 {
            proof {
                lemma_pow2_strictly_increases(12, power as nat);
                assert(magnitude * pow2(power as nat) > 0x1_0000_0000_0000_0000)
                    by (nonlinear_arith)
                    requires
                        magnitude >= 0x10_0000_0000_0000,
                        pow2(power as nat) > 0x1000,
                ;
                assert((-magnitude) * pow2(power as nat) == -(magnitude * pow2(power as nat)))
                    by (nonlinear_arith);
            }
            Some(
                if negative {
                    PakOrder::Less
                } else {
                    PakOrder::Greater
                },
            )
        } else {
            let scale = power_of_two(power);
            proof {
                if power < 12 {
                    lemma_pow2_strictly_increases(power as nat, 12);
                }
                assert(-0x2_0000_0000_0000_0000 < significand * scale < 0x2_0000_0000_0000_0000)
                    by (nonlinear_arith)
                    requires
                        -0x20_0000_0000_0000 < significand < 0x20_0000_0000_0000,
                        1 <= scale <= 0x1000,
                ;
            }
            Some(order_int(significand * (scale as i128), whole))
        }
    } else {
        let down = if exponent == 0 {
            1074
        } else {
            (1075 - exponent) as u32
        };
        if down > 52 {
            proof {
                if down > 53 {
                    lemma_pow2_strictly_increases(53, down as nat);
                }
                assert(pow2(down as nat) >= 0x20_0000_0000_0000);
                if whole > 0 {
                    assert(whole * pow2(down as nat) >= 0x20_0000_0000_0000) by (nonlinear_arith)
                        requires
                            whole >= 1,
                            pow2(down as nat) >= 0x20_0000_0000_0000,
                    ;
                } else if whole < 0 {
                    assert(whole * pow2(down as nat) <= -0x20_0000_0000_0000) by (nonlinear_arith)
                        requires
                            whole <= -1,
                            pow2(down as nat) >= 0x20_0000_0000_0000,
                    ;
                } else {
                    assert(whole * pow2(down as nat) == 0) by (nonlinear_arith)
                        requires
                            whole == 0,
                    ;
                }
            }
            Some(
                if whole > 0 {
                    PakOrder::Less
                } else if whole < 0 {
                    PakOrder::Greater
                } else {
                    order_int(significand, 0)
                },
            )
        } else {
            let scale = power_of_two(down);
            proof {
                if down < 52 {
                    lemma_pow2_strictly_increases(down as nat, 52);
                }
                assert(-0x10_0000_0000_0000_0000_0000_0000_0000 <= whole * scale
                    <= 0x10_0000_0000_0000_0000_0000_0000_0000) by (nonlinear_arith)
                    requires
                        -0x8000_0000_0000_0000 <= whole <= 0x1_0000_0000_0000_0000,
                        1 <= scale <= 0x10_0000_0000_0000,
                ;
            }
            Some(order_int(significand, whole * (scale as i128)))
        }
    }
}

} // verus!
