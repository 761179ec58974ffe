//! Order of IEEE 754 double-precision numbers, on their bits.

use vstd::prelude::*;

verus! {

/// The sign bit.
pub const SIGN: u64 = 0x8000_0000_0000_0000;

/// Bits of positive infinity.
pub const INFINITY: u64 = 0x7ff0_0000_0000_0000;

/// Bits without the sign.
pub open spec fn magnitude(bits: u64) -> int {
    if bits >= SIGN {
        bits - SIGN
    } else {
        bits as int
    }
}

/// Bits of something that is not a number.
pub open spec fn is_nan(bits: u64) -> bool {
    magnitude(bits) > INFINITY
}

/// Where a number stands among all numbers; both zeros stand at 0.
pub open spec fn rank(bits: u64) -> int {
    if bits >= SIGN {
        -magnitude(bits)
    } else {
        magnitude(bits)
    }
}

/// -1, 0 or 1 as the first number is smaller than, equal to or greater than the second; 0 where
/// one of the two is not a number.
pub open spec fn order(a: u64, b: u64) -> int {
    if is_nan(a) || is_nan(b) || rank(a) == rank(b) {
        0
    } else if rank(a) < rank(b) {
        -1
    } else {
        1
    }
}

/// Whether the bits are not a number's.
pub fn not_a_number(bits: u64) -> (r: bool)
    ensures
        r == is_nan(bits),
{
    if bits >= SIGN {
        bits - SIGN > INFINITY
    } else {
        bits > INFINITY
    }
}

/// Compares two numbers by their bits.
pub fn float_order(a: u64, b: u64) -> (r: i32)
    ensures
        r == order(a, b),
{
    if not_a_number(a) || not_a_number(b) {
        return 0;
    }
    if a >= SIGN {
        if b >= SIGN {
            if a == b {
                0
            } else if a > b {
                -1
            } else {
                1
            }
        } else if a == SIGN && b == 0 {
            0
        } else {
            -1
        }
    } else if b >= SIGN {
        if a == 0 && b == SIGN {
            0
        } else {
            1
        }
    } else if a == b {
        0
    } else if a < b {
        -1
    } else {
        1
    }
}

/// Swapping two numbers turns their order round.
pub proof fn law_order_antisymmetric(a: u64, b: u64)
    ensures
        order(a, b) == -order(b, a),
{
}

/// Numbers are ordered as the IEEE format orders their bits: positive ones with them, negative ones
/// against them, negative ones before positive ones. The two zeros are equal, and so is everything
/// to what is not a number.
pub proof fn law_order_of_bits(a: u64, b: u64)
    ensures
        a <= 0x7ff0_0000_0000_0000 && b <= 0x7ff0_0000_0000_0000 ==> {
            &&& a < b ==> order(a, b) == -1
            &&& a == b ==> order(a, b) == 0
            &&& a > b ==> order(a, b) == 1
        },
        0x8000_0000_0000_0000 <= a <= 0xfff0_0000_0000_0000 && 0x8000_0000_0000_0000 <= b
            <= 0xfff0_0000_0000_0000 ==> {
            &&& a < b ==> order(a, b) == 1
            &&& a == b ==> order(a, b) == 0
            &&& a > b ==> order(a, b) == -1
        },
        0x8000_0000_0000_0000 <= a <= 0xfff0_0000_0000_0000 && b <= 0x7ff0_0000_0000_0000 ==> {
            &&& a == 0x8000_0000_0000_0000 && b == 0 ==> order(a, b) == 0 && order(b, a) == 0
            &&& !(a == 0x8000_0000_0000_0000 && b == 0) ==> order(a, b) == -1 && order(b, a) == 1
        },
        0x7ff0_0000_0000_0000 < a < 0x8000_0000_0000_0000 || a > 0xfff0_0000_0000_0000 ==> order(a, b)
            == 0 && order(b, a) == 0,
{
}


// ---------------------------------------------------------------------------
// Integers as numbers
// ---------------------------------------------------------------------------

/// Position of the highest bit of a positive number.
pub open spec fn top_bit(m: nat) -> nat
    decreases m,
{
    if m < 2 {
        0
    } else {
        1 + top_bit(m / 2)
    }
}

/// A positive number in units of the last place of its 53-bit significand, rounded to nearest,
/// ties to even.
pub open spec fn significand(m: nat) -> nat {
    let e = top_bit(m);
    if e <= 52 {
        m * vstd::arithmetic::power2::pow2((52 - e) as nat)
    } else {
        let unit = vstd::arithmetic::power2::pow2((e - 52) as nat);
        let q = m / unit;
        let r = m % unit;
        if 2 * r > unit || (2 * r == unit && q % 2 == 1) {
            q + 1
        } else {
            q
        }
    }
}

/// Bits of the number that is nearest to an integer.
pub open spec fn int_bits(i: int) -> int {
    if i == 0 {
        0
    } else {
        let m = if i < 0 {
            (-i) as nat
        } else {
            i as nat
        };
        let bits = (top_bit(m) + 1022) * 0x10_0000_0000_0000 + significand(m);
        if i < 0 {
            bits + SIGN
        } else {
            bits as int
        }
    }
}

proof fn lemma_top_bit(m: nat, e: nat)
    requires
        vstd::arithmetic::power2::pow2(e) <= m < vstd::arithmetic::power2::pow2(e + 1),
    ensures
        top_bit(m) == e,
    decreases e,
{
    vstd::arithmetic::power2::lemma_pow2_unfold(e + 1);
    if e == 0 {
        vstd::arithmetic::power2::lemma2_to64();
    } else {
        vstd::arithmetic::power2::lemma_pow2_unfold(e);
        vstd::arithmetic::power2::lemma_pow2_pos((e - 1) as nat);
        lemma_top_bit(m / 2, (e - 1) as nat);
    }
}

/// A power of two.
pub fn power_of_two(n: u32) -> (p: u64)
    requires
        n <= 63,
    ensures
        p == vstd::arithmetic::power2::pow2(n as nat),
{
    let mut p: u64 = 1;
    let mut k: u32 = 0;
    proof {
        vstd::arithmetic::power2::lemma2_to64();
        vstd::arithmetic::power2::lemma2_to64_rest();
    }
    while k < n
        invariant
            k <= n <= 63,
            p == vstd::arithmetic::power2::pow2(k as nat),
            vstd::arithmetic::power2::pow2(63) == 0x8000_0000_0000_0000,
        decreases n - k,
    {
        proof {
            vstd::arithmetic::power2::lemma_pow2_unfold((k + 1) as nat);
            if k + 1 < 63 {
                vstd::arithmetic::power2::lemma_pow2_strictly_increases((k + 1) as nat, 63);
            }
        }
        p = p * 2;
        k = k + 1;
    }
    p
}

/// Position of the highest bit of a positive number, and the power of two there.
pub fn highest_bit(m: u32) -> (r: (u32, u32))
    requires
        m > 0,
    ensures
        r.0 == top_bit(m as nat),
        r.1 == vstd::arithmetic::power2::pow2(r.0 as nat),
        r.1 <= m < 2 * r.1,
        r.0 < 32,
{
    let mut e: u32 = 0;
    let mut p: u32 = 1;
    proof {
        vstd::arithmetic::power2::lemma2_to64();
    }
    while p <= m / 2
        invariant
            e < 32,
            p == vstd::arithmetic::power2::pow2(e as nat),
            1 <= p <= m,
            vstd::arithmetic::power2::pow2(31) == 0x8000_0000,
        decreases m - p,
    {
        proof {
            vstd::arithmetic::power2::lemma_pow2_unfold((e + 1) as nat);
        }
        p = p * 2;
        e = e + 1;
    }
    proof {
        vstd::arithmetic::power2::lemma_pow2_unfold((e + 1) as nat);
        lemma_top_bit(m as nat, e as nat);
    }
    (e, p)
}

/// Bits of the number that is nearest to an integer.
pub fn from_int(i: i64) -> (bits: u64)
    ensures
        bits == int_bits(i as int),
{
    if i == 0 {
        return 0;
    }
    let m: u64 = if i == i64::MIN {
        0x8000_0000_0000_0000
    } else if i < 0 {
        (-i) as u64
    } else {
        i as u64
    };
    let mut e: u32 = 0;
    let mut p: u64 = 1;
    proof {
        vstd::arithmetic::power2::lemma2_to64();
        vstd::arithmetic::power2::lemma2_to64_rest();
    }
    while p <= m / 2
        invariant
            e <= 63,
            p == vstd::arithmetic::power2::pow2(e as nat),
            1 <= p <= m <= 0x8000_0000_0000_0000,
            vstd::arithmetic::power2::pow2(63) == 0x8000_0000_0000_0000,
        decreases m - p,
    {
        proof {
            vstd::arithmetic::power2::lemma_pow2_unfold((e + 1) as nat);
            if e >= 63 {
                assert(p == 0x8000_0000_0000_0000);
            }
        }
        p = p * 2;
        e = e + 1;
    }
    proof {
        vstd::arithmetic::power2::lemma_pow2_unfold((e + 1) as nat);
        lemma_top_bit(m as nat, e as nat);
    }
    let s: u64 = if e <= 52 {
        let f: u64 = power_of_two(52 - e);
        proof {
            vstd::arithmetic::power2::lemma_pow2_adds(e as nat, (52 - e) as nat);
            vstd::arithmetic::power2::lemma_pow2_adds((e + 1) as nat, (52 - e) as nat);
            assert(m * f < 2 * p * f) by (nonlinear_arith)
                requires
                    m < 2 * p,
                    f > 0,
            ;
            assert(2 * p * f == 2 * (p * f)) by (nonlinear_arith);
        }
        m * f
    } else {
        let unit: u64 = power_of_two(e - 52);
        let q: u64 = m / unit;
        let r: u64 = m % unit;
        proof {
            vstd::arithmetic::power2::lemma_pow2_adds(52, (e - 52) as nat);
            vstd::arithmetic::div_mod::lemma_fundamental_div_mod(m as int, unit as int);
            assert(q < 0x20_0000_0000_0000) by (nonlinear_arith)
                requires
                    m < 2 * p,
                    p == 0x10_0000_0000_0000 * unit,
                    m == unit * q + r,
                    r >= 0,
                    unit > 0,
            ;
            if e - 52 < 63 {
                vstd::arithmetic::power2::lemma_pow2_strictly_increases((e - 52) as nat, 12);
            }
        }
        if 2 * r > unit || (2 * r == unit && q % 2 == 1) {
            q + 1
        } else {
            q
        }
    };
    let bits: u64 = (e as u64 + 1022) * 0x10_0000_0000_0000 + s;
    if i < 0 {
        bits + SIGN
    } else {
        bits
    }
}

// ---------------------------------------------------------------------------
// Numbers as integers
// ---------------------------------------------------------------------------

/// Exponent field.
pub open spec fn exponent(mag: int) -> int {
    mag / 0x10_0000_0000_0000
}

/// Significand of a normal number, with its leading bit.
pub open spec fn full_significand(mag: int) -> int {
    mag % 0x10_0000_0000_0000 + 0x10_0000_0000_0000
}

/// Number of units of the last place in 1, where a normal number has a part after the point.
pub open spec fn unit_count(mag: int) -> int {
    vstd::arithmetic::power2::pow2((1075 - exponent(mag)) as nat) as int
}

/// The part of a number before the point, without its sign.
pub open spec fn whole_part(mag: int) -> int {
    if exponent(mag) < 1023 {
        0
    } else if exponent(mag) < 1075 {
        full_significand(mag) / unit_count(mag)
    } else {
        full_significand(mag) * vstd::arithmetic::power2::pow2((exponent(mag) - 1075) as nat)
    }
}

/// Whether something stands after the point.
pub open spec fn has_fraction(mag: int) -> bool {
    if exponent(mag) < 1023 {
        mag != 0
    } else {
        exponent(mag) < 1075 && full_significand(mag) % unit_count(mag) != 0
    }
}

/// Whether what stands after the point is one half or more.
pub open spec fn half_or_more(mag: int) -> bool {
    if exponent(mag) < 1023 {
        exponent(mag) == 1022
    } else {
        exponent(mag) < 1075 && 2 * (full_significand(mag) % unit_count(mag)) >= unit_count(mag)
    }
}

/// The number of a range that is nearest to an integer.
pub open spec fn clamped(i: int, low: int, high: int) -> int {
    if i < low {
        low
    } else if i > high {
        high
    } else {
        i
    }
}

/// A number without what stands after the point, as an integer; 0 for what is not a number.
pub open spec fn truncated(bits: u64) -> int {
    if is_nan(bits) {
        0
    } else if bits >= SIGN {
        -whole_part(magnitude(bits))
    } else {
        whole_part(magnitude(bits))
    }
}

/// The greatest integer that is not above a number; 0 for what is not a number.
pub open spec fn rounded_down(bits: u64) -> int {
    if bits >= SIGN && !is_nan(bits) && has_fraction(magnitude(bits)) {
        truncated(bits) - 1
    } else {
        truncated(bits)
    }
}

/// The least integer that is not below a number; 0 for what is not a number.
pub open spec fn rounded_up(bits: u64) -> int {
    if bits < SIGN && !is_nan(bits) && has_fraction(magnitude(bits)) {
        truncated(bits) + 1
    } else {
        truncated(bits)
    }
}

/// The nearest integer, halves away from zero; 0 for what is not a number.
pub open spec fn rounded(bits: u64) -> int {
    if is_nan(bits) || !half_or_more(magnitude(bits)) {
        truncated(bits)
    } else if bits >= SIGN {
        truncated(bits) - 1
    } else {
        truncated(bits) + 1
    }
}

/// A number taken apart at the point.
struct Parts {
    /// The part before the point, without its sign, where it is less than 2^63.
    whole: u64,
    /// Whether it is 2^63 or more.
    huge: bool,
    fraction: bool,
    half: bool,
}

fn split_at_point(mag: u64) -> (p: Parts)
    requires
        mag < SIGN,
    ensures
        p.huge <==> whole_part(mag as int) >= SIGN,
        !p.huge ==> p.whole == whole_part(mag as int),
        p.fraction == has_fraction(mag as int),
        p.half == half_or_more(mag as int),
{
    let e: u64 = mag / 0x10_0000_0000_0000;
    let sig: u64 = mag % 0x10_0000_0000_0000 + 0x10_0000_0000_0000;
    proof {
        vstd::arithmetic::power2::lemma2_to64();
        vstd::arithmetic::power2::lemma2_to64_rest();
    }
    if e < 1023 {
        return Parts { whole: 0, huge: false, fraction: mag != 0, half: e == 1022 };
    }
    if e >= 1075 {
        proof {
            if e >= 1086 {
                if e > 1086 {
                    vstd::arithmetic::power2::lemma_pow2_strictly_increases(
                        11,
                        (e - 1075) as nat,
                    );
                }
                assert(sig * vstd::arithmetic::power2::pow2((e - 1075) as nat)
                    >= 0x10_0000_0000_0000 * 2048) by (nonlinear_arith)
                    requires
                        sig >= 0x10_0000_0000_0000,
                        vstd::arithmetic::power2::pow2((e - 1075) as nat) >= 2048,
                ;
            } else {
                if e < 1085 {
                    vstd::arithmetic::power2::lemma_pow2_strictly_increases(
                        (e - 1075) as nat,
                        10,
                    );
                }
                assert(sig * vstd::arithmetic::power2::pow2((e - 1075) as nat)
                    < 0x20_0000_0000_0000 * 1024) by (nonlinear_arith)
                    requires
                        0 < sig < 0x20_0000_0000_0000,
                        0 < vstd::arithmetic::power2::pow2((e - 1075) as nat) <= 1024,
                ;
            }
        }
        if e >= 1086 {
            return Parts { whole: 0, huge: true, fraction: false, half: false };
        }
        let whole: u64 = sig * power_of_two((e - 1075) as u32);
        return Parts { whole, huge: false, fraction: false, half: false };
    }
    let unit: u64 = power_of_two((1075 - e) as u32);
    proof {
        if e > 1023 {
            vstd::arithmetic::power2::lemma_pow2_strictly_increases((1075 - e) as nat, 52);
        }
        vstd::arithmetic::div_mod::lemma_fundamental_div_mod(sig as int, unit as int);
        assert(sig as int / unit as int <= sig) by (nonlinear_arith)
            requires
                sig >= 0,
                unit >= 1,
        ;
    }
    let rest: u64 = sig % unit;
    Parts { whole: sig / unit, huge: false, fraction: rest != 0, half: 2 * rest >= unit }
}

/// Bits without the sign.
pub fn without_sign(bits: u64) -> (mag: u64)
    ensures
        mag == magnitude(bits),
        mag < SIGN,
{
    if bits >= SIGN {
        bits - SIGN
    } else {
        bits
    }
}

/// Whether nothing stands after the point.
pub fn is_whole(bits: u64) -> (r: bool)
    ensures
        r == !has_fraction(magnitude(bits)),
{
    !split_at_point(without_sign(bits)).fraction
}

/// A number below 10^15 is one, and its part before the point fits in 64 bits.
pub proof fn lemma_short_whole(bits: u64)
    requires
        magnitude(bits) < int_bits(1_000_000_000_000_000),
    ensures
        !is_nan(bits),
        i64::MIN < truncated(bits) <= i64::MAX,
{
    vstd::arithmetic::power2::lemma2_to64();
    vstd::arithmetic::power2::lemma2_to64_rest();
    lemma_top_bit(1_000_000_000_000_000, 49);
    let mag = magnitude(bits);
    if exponent(mag) >= 1023 {
        let unit = unit_count(mag);
        vstd::arithmetic::power2::lemma_pow2_pos((1075 - exponent(mag)) as nat);
        assert(0 <= full_significand(mag) / unit <= full_significand(mag)) by (nonlinear_arith)
            requires
                full_significand(mag) >= 0,
                unit >= 1,
        ;
    }
}

/// A number as a 64-bit integer, without what stands after the point, or the nearest end of the
/// range.
pub fn to_int(bits: u64) -> (i: i64)
    ensures
        i == clamped(truncated(bits), i64::MIN as int, i64::MAX as int),
{
    if not_a_number(bits) {
        return 0;
    }
    let p: Parts = split_at_point(without_sign(bits));
    if bits >= SIGN {
        if p.huge {
            i64::MIN
        } else {
            -(p.whole as i64)
        }
    } else if p.huge {
        i64::MAX
    } else {
        p.whole as i64
    }
}

/// A signed count as a 32-bit integer, or the nearest end of the range.
fn narrowed(whole: u64, huge: bool, negative: bool, away: bool) -> (i: i32)
    requires
        !huge ==> whole < SIGN,
    ensures
        !huge ==> i == clamped(
            if negative {
                -(whole + if away { 1int } else { 0 })
            } else {
                whole + if away { 1int } else { 0 }
            },
            i32::MIN as int,
            i32::MAX as int,
        ),
        huge ==> i == if negative {
            i32::MIN
        } else {
            i32::MAX
        },
{
    if huge || whole >= 0x8000_0000 {
        return if negative {
            i32::MIN
        } else {
            i32::MAX
        };
    }
    let n: i64 = if away {
        whole as i64 + 1
    } else {
        whole as i64
    };
    let m: i64 = if negative {
        -n
    } else {
        n
    };
    if m < -0x8000_0000 {
        i32::MIN
    } else if m > 0x7fff_ffff {
        i32::MAX
    } else {
        m as i32
    }
}

/// The greatest 32-bit integer that is not above a number, or the nearest end of the range.
pub fn floor_int(bits: u64) -> (i: i32)
    ensures
        i == clamped(rounded_down(bits), i32::MIN as int, i32::MAX as int),
{
    if not_a_number(bits) {
        return 0;
    }
    let p: Parts = split_at_point(without_sign(bits));
    narrowed(p.whole, p.huge, bits >= SIGN, bits >= SIGN && p.fraction)
}

/// The least 32-bit integer that is not below a number, or the nearest end of the range.
pub fn ceil_int(bits: u64) -> (i: i32)
    ensures
        i == clamped(rounded_up(bits), i32::MIN as int, i32::MAX as int),
{
    if not_a_number(bits) {
        return 0;
    }
    let p: Parts = split_at_point(without_sign(bits));
    narrowed(p.whole, p.huge, bits >= SIGN, bits < SIGN && p.fraction)
}

/// The nearest 32-bit integer, halves away from zero, or the nearest end of the range.
pub fn round_int(bits: u64) -> (i: i32)
    ensures
        i == clamped(rounded(bits), i32::MIN as int, i32::MAX as int),
{
    if not_a_number(bits) {
        return 0;
    }
    let p: Parts = split_at_point(without_sign(bits));
    narrowed(p.whole, p.huge, bits >= SIGN, p.half)
}

/// The place of the top bit of a number is that of the largest power of two in it.
pub proof fn lemma_top_bit_bounds(m: nat)
    requires
        m > 0,
    ensures
        vstd::arithmetic::power2::pow2(top_bit(m)) <= m < vstd::arithmetic::power2::pow2(
            top_bit(m) + 1,
        ),
    decreases m,
{
    vstd::arithmetic::power2::lemma2_to64();
    if m >= 2 {
        lemma_top_bit_bounds(m / 2);
        vstd::arithmetic::power2::lemma_pow2_unfold(top_bit(m));
        vstd::arithmetic::power2::lemma_pow2_unfold(top_bit(m) + 1);
    }
}

/// An integer of at most 53 bits goes through a number unchanged.
pub proof fn law_int_round_trip(i: int)
    requires
        -0x20_0000_0000_0000 < i < 0x20_0000_0000_0000,
    ensures
        0 <= int_bits(i) <= u64::MAX,
        truncated(int_bits(i) as u64) == i,
{
    vstd::arithmetic::power2::lemma2_to64();
    vstd::arithmetic::power2::lemma2_to64_rest();
    if i != 0 {
        let m: nat = if i < 0 {
            (-i) as nat
        } else {
            i as nat
        };
        let e = top_bit(m);
        lemma_top_bit_bounds(m);
        if e > 52 {
            if e > 53 {
                vstd::arithmetic::power2::lemma_pow2_strictly_increases(53, e);
            }
            assert(false);
        }
        let f = vstd::arithmetic::power2::pow2((52 - e) as nat);
        vstd::arithmetic::power2::lemma_pow2_pos((52 - e) as nat);
        vstd::arithmetic::power2::lemma_pow2_adds(e, (52 - e) as nat);
        vstd::arithmetic::power2::lemma_pow2_adds(e + 1, (52 - e) as nat);
        let s = m * f;
        assert(0x10_0000_0000_0000 <= s < 0x20_0000_0000_0000) by (nonlinear_arith)
            requires
                s == m * f,
                f > 0,
                vstd::arithmetic::power2::pow2(e) <= m < vstd::arithmetic::power2::pow2(e + 1),
                vstd::arithmetic::power2::pow2(e) * f == 0x10_0000_0000_0000,
                vstd::arithmetic::power2::pow2(e + 1) * f == 0x20_0000_0000_0000,
        ;
        assert(significand(m) == s);
        let mag = (e + 1022) * 0x10_0000_0000_0000 + s;
        assert(magnitude(int_bits(i) as u64) == mag);
        assert(exponent(mag as int) == e + 1023);
        assert(full_significand(mag as int) == s);
        if e < 52 {
            assert(unit_count(mag as int) == f);
            vstd::arithmetic::div_mod::lemma_div_by_multiple(m as int, f as int);
        } else {
            assert(f == 1);
            assert(m * 1 == m) by (nonlinear_arith);
            assert(s * 1 == s) by (nonlinear_arith);
        }
        assert(whole_part(mag as int) == m);
    }
}

/// An integer of at most 53 bits is the value of the number that it becomes: its sign is the top
/// bit, and its significand with the leading bit, shifted as the exponent says, is its size.
pub proof fn law_int_bits_value(i: int)
    requires
        -0x20_0000_0000_0000 < i < 0x20_0000_0000_0000,
        i != 0,
    ensures
        ({
            let bits = int_bits(i);
            let mag = bits % 0x8000_0000_0000_0000;
            let e = mag / 0x10_0000_0000_0000;
            let m = mag % 0x10_0000_0000_0000;
            let size = if i < 0 {
                -i
            } else {
                i
            };
            &&& 0 < bits <= u64::MAX
            &&& bits >= 0x8000_0000_0000_0000 <==> i < 0
            &&& 1023 <= e <= 1075
            &&& 0x10_0000_0000_0000 + m == size * vstd::arithmetic::power2::pow2((1075 - e) as nat)
        }),
        int_bits(0) == 0,
{
    vstd::arithmetic::power2::lemma2_to64();
    vstd::arithmetic::power2::lemma2_to64_rest();
    let m: nat = if i < 0 {
        (-i) as nat
    } else {
        i as nat
    };
    let e = top_bit(m);
    lemma_top_bit_bounds(m);
    if e > 52 {
        if e > 53 {
            vstd::arithmetic::power2::lemma_pow2_strictly_increases(53, e);
        }
        assert(false);
    }
    let f = vstd::arithmetic::power2::pow2((52 - e) as nat);
    vstd::arithmetic::power2::lemma_pow2_pos((52 - e) as nat);
    vstd::arithmetic::power2::lemma_pow2_adds(e, (52 - e) as nat);
    vstd::arithmetic::power2::lemma_pow2_adds(e + 1, (52 - e) as nat);
    let s = m * f;
    assert(0x10_0000_0000_0000 <= s < 0x20_0000_0000_0000) by (nonlinear_arith)
        requires
            s == m * f,
            f > 0,
            vstd::arithmetic::power2::pow2(e) <= m < vstd::arithmetic::power2::pow2(e + 1),
            vstd::arithmetic::power2::pow2(e) * f == 0x10_0000_0000_0000,
            vstd::arithmetic::power2::pow2(e + 1) * f == 0x20_0000_0000_0000,
    ;
    let mag = (e + 1022) * 0x10_0000_0000_0000 + s;
    assert(int_bits(i) % 0x8000_0000_0000_0000 == mag);
    assert(mag as int / 0x10_0000_0000_0000 == e + 1023);
}

/// Integers of at most 53 bits keep their order as numbers.
pub proof fn law_integers_keep_their_order(i: int, j: int)
    requires
        -0x20_0000_0000_0000 < i < 0x20_0000_0000_0000,
        -0x20_0000_0000_0000 < j < 0x20_0000_0000_0000,
    ensures
        i < j ==> order(int_bits(i) as u64, int_bits(j) as u64) == -1,
        i == j ==> order(int_bits(i) as u64, int_bits(j) as u64) == 0,
        i > j ==> order(int_bits(i) as u64, int_bits(j) as u64) == 1,
{
    lemma_rank_grows(i, j);
    lemma_rank_grows(j, i);
}

proof fn lemma_rank_grows(i: int, j: int)
    requires
        -0x20_0000_0000_0000 < i < 0x20_0000_0000_0000,
        -0x20_0000_0000_0000 < j < 0x20_0000_0000_0000,
    ensures
        0 <= int_bits(i) <= u64::MAX,
        !is_nan(int_bits(i) as u64),
        i < j ==> rank(int_bits(i) as u64) < rank(int_bits(j) as u64),
{
    if i != 0 {
        law_int_bits_value(i);
    }
    if j != 0 {
        law_int_bits_value(j);
    }
    if 0 < i < j {
        lemma_magnitude_grows(i as nat, j as nat);
    }
    if i < j < 0 {
        lemma_magnitude_grows((-j) as nat, (-i) as nat);
    }
}

proof fn lemma_magnitude_grows(i: nat, j: nat)
    requires
        0 < i < j < 0x20_0000_0000_0000,
    ensures
        int_bits(i as int) < int_bits(j as int),
        int_bits(-(i as int)) == int_bits(i as int) + 0x8000_0000_0000_0000,
        int_bits(-(j as int)) == int_bits(j as int) + 0x8000_0000_0000_0000,
{
    law_int_bits_value(i as int);
    law_int_bits_value(j as int);
    let a = int_bits(i as int);
    let b = int_bits(j as int);
    let ea = a / 0x10_0000_0000_0000;
    let eb = b / 0x10_0000_0000_0000;
    let ma = 0x10_0000_0000_0000 + a % 0x10_0000_0000_0000;
    let mb = 0x10_0000_0000_0000 + b % 0x10_0000_0000_0000;
    let pa = vstd::arithmetic::power2::pow2((1075 - ea) as nat) as int;
    let pb = vstd::arithmetic::power2::pow2((1075 - eb) as nat) as int;
    vstd::arithmetic::power2::lemma_pow2_pos((1075 - ea) as nat);
    vstd::arithmetic::power2::lemma_pow2_pos((1075 - eb) as nat);
    if ea > eb {
        vstd::arithmetic::power2::lemma_pow2_adds((1075 - ea) as nat, (ea - eb) as nat);
        vstd::arithmetic::power2::lemma_pow2_unfold((ea - eb) as nat);
        vstd::arithmetic::power2::lemma_pow2_pos((ea - eb - 1) as nat);
        let d = vstd::arithmetic::power2::pow2((ea - eb) as nat) as int;
        assert(pb >= 2 * pa) by (nonlinear_arith)
            requires
                pb == pa * d,
                d >= 2,
                pa > 0,
        ;
        assert(mb >= 2 * ma) by (nonlinear_arith)
            requires
                mb == j * pb,
                ma == i * pa,
                pb >= 2 * pa,
                0 < i < j,
                pa > 0,
        ;
        assert(false);
    } else if ea == eb {
        assert(ma < mb) by (nonlinear_arith)
            requires
                mb == j * pb,
                ma == i * pa,
                pa == pb,
                0 < i < j,
                pa > 0,
        ;
    }
}

/// What rounding does to a number between 1 and 2 to the power of 52, whose significand is `f` units
/// of which `u` make up 1: down to the greatest integer not above it, up to the least not below it,
/// towards zero, and to the nearest one with halves away from zero.
pub proof fn law_rounding(bits: u64)
    requires
        1023 <= (bits as int % 0x8000_0000_0000_0000) / 0x10_0000_0000_0000 < 1075,
    ensures
        ({
            let mag = bits as int % 0x8000_0000_0000_0000;
            let f = 0x10_0000_0000_0000 + mag % 0x10_0000_0000_0000;
            let u = vstd::arithmetic::power2::pow2((1075 - mag / 0x10_0000_0000_0000) as nat) as int;
            let x = if bits >= 0x8000_0000_0000_0000 {
                -f
            } else {
                f
            };
            &&& rounded_down(bits) * u <= x < (rounded_down(bits) + 1) * u
            &&& (rounded_up(bits) - 1) * u < x <= rounded_up(bits) * u
            &&& x > 0 ==> truncated(bits) * u <= x < (truncated(bits) + 1) * u && rounded(bits) * u
                * 2 - u <= 2 * x < rounded(bits) * u * 2 + u
            &&& x < 0 ==> (truncated(bits) - 1) * u < x <= truncated(bits) * u && rounded(bits) * u
                * 2 - u < 2 * x <= rounded(bits) * u * 2 + u
        }),
{
    let mag = bits as int % 0x8000_0000_0000_0000;
    assert(magnitude(bits) == mag);
    let f = full_significand(mag);
    let u = unit_count(mag);
    vstd::arithmetic::power2::lemma_pow2_pos((1075 - exponent(mag)) as nat);
    vstd::arithmetic::div_mod::lemma_fundamental_div_mod(f, u);
    vstd::arithmetic::div_mod::lemma_mod_bound(f, u);
    let w = f / u;
    assert(u * w == w * u) by (nonlinear_arith);
    assert((w + 1) * u == w * u + u && (w - 1) * u == w * u - u && (w + 2) * u == w * u + 2 * u)
        by (nonlinear_arith);
    assert((-w) * u == -(w * u) && (-w - 1) * u == -(w * u) - u && (-w + 1) * u == -(w * u) + u && (
    -w - 2) * u == -(w * u) - 2 * u) by (nonlinear_arith);
}

/// What rounding does to the other numbers: below 1 there are only 0 and 1, of which the nearest
/// is 1 from one half on, and a number of more than 52 bits is whole. What is not a number gives 0.
pub proof fn law_rounding_at_the_ends(bits: u64)
    ensures
        ({
            let mag = bits as int % 0x8000_0000_0000_0000;
            let e = mag / 0x10_0000_0000_0000;
            let negative = bits >= 0x8000_0000_0000_0000;
            &&& mag == 0 ==> rounded_down(bits) == 0 && rounded_up(bits) == 0
            &&& 0 < mag && e < 1023 ==> {
                &&& rounded_down(bits) == if negative { -1int } else { 0 }
                &&& rounded_up(bits) == if negative { 0int } else { 1 }
            }
            &&& e < 1023 ==> truncated(bits) == 0
            &&& e < 1022 ==> rounded(bits) == 0
            &&& e == 1022 ==> rounded(bits) == if negative { -1int } else { 1 }
            &&& mag > 0x7ff0_0000_0000_0000 ==> truncated(bits) == 0 && rounded_down(bits) == 0
                && rounded_up(bits) == 0 && rounded(bits) == 0
            &&& 1075 <= e && mag <= 0x7ff0_0000_0000_0000 ==> {
                let v = (0x10_0000_0000_0000 + mag % 0x10_0000_0000_0000)
                    * vstd::arithmetic::power2::pow2((e - 1075) as nat);
                let x = if negative { -v } else { v };
                truncated(bits) == x && rounded_down(bits) == x && rounded_up(bits) == x && rounded(
                    bits,
                ) == x
            }
        }),
{
    assert(magnitude(bits) == bits as int % 0x8000_0000_0000_0000);
}

/// An integer of more than 53 bits becomes the nearest number: of the numbers that are `unit` apart
/// around it, the one that is at most half of that away, and the even one of two that are.
pub proof fn law_large_integers_are_rounded(m: nat, e: nat)
    requires
        53 <= e < 64,
        vstd::arithmetic::power2::pow2(e) <= m < vstd::arithmetic::power2::pow2(e + 1),
    ensures
        ({
            let bits = int_bits(m as int);
            let x = bits / 0x10_0000_0000_0000;
            let f = 0x10_0000_0000_0000 + bits % 0x10_0000_0000_0000;
            let unit = vstd::arithmetic::power2::pow2((e - 52) as nat);
            let value = f * vstd::arithmetic::power2::pow2((x - 1075) as nat);
            &&& 0 <= bits < 0x7ff0_0000_0000_0000
            &&& 1075 < x <= 1087
            &&& -unit <= 2 * (value - m) <= unit
            &&& 2 * (value - m) == unit || 2 * (value - m) == -unit ==> bits % 2 == 0
            &&& int_bits(-m) == bits + 0x8000_0000_0000_0000
        }),
{
    vstd::arithmetic::power2::lemma2_to64();
    vstd::arithmetic::power2::lemma2_to64_rest();
    vstd::arithmetic::power2::lemma_pow2_pos(e);
    lemma_top_bit_bounds(m);
    let t = top_bit(m);
    if t < e {
        if t + 1 < e {
            vstd::arithmetic::power2::lemma_pow2_strictly_increases(t + 1, e);
        }
        assert(false);
    }
    if t > e {
        if e + 1 < t {
            vstd::arithmetic::power2::lemma_pow2_strictly_increases(e + 1, t);
        }
        assert(false);
    }
    let k = (e - 52) as nat;
    let unit = vstd::arithmetic::power2::pow2(k) as int;
    vstd::arithmetic::power2::lemma_pow2_pos(k);
    vstd::arithmetic::power2::lemma_pow2_adds(52, k);
    vstd::arithmetic::power2::lemma_pow2_adds(53, k);
    let q = m as int / unit;
    let r = m as int % unit;
    vstd::arithmetic::div_mod::lemma_fundamental_div_mod(m as int, unit);
    vstd::arithmetic::div_mod::lemma_mod_bound(m as int, unit);
    assert(0x10_0000_0000_0000 <= q < 0x20_0000_0000_0000) by (nonlinear_arith)
        requires
            m == unit * q + r,
            0 <= r < unit,
            0x10_0000_0000_0000 * unit <= m < 0x20_0000_0000_0000 * unit,
    ;
    let s = significand(m) as int;
    assert(s == q || s == q + 1);
    let bits = int_bits(m as int);
    assert(bits == (e + 1022) * 0x10_0000_0000_0000 + s);
    let x = bits / 0x10_0000_0000_0000;
    let f = 0x10_0000_0000_0000 + bits % 0x10_0000_0000_0000;
    let value = f * vstd::arithmetic::power2::pow2((x - 1075) as nat);
    if s < 0x20_0000_0000_0000 {
        assert(x == e + 1023 && f == s);
        assert(value == s * unit);
    } else {
        assert(x == e + 1024 && f == 0x10_0000_0000_0000);
        vstd::arithmetic::power2::lemma_pow2_unfold((k + 1) as nat);
        assert(value == s * unit) by (nonlinear_arith)
            requires
                value == 0x10_0000_0000_0000 * (2 * unit),
                s == 0x20_0000_0000_0000,
        ;
    }
    assert(unit * q == q * unit && (q + 1) * unit == q * unit + unit) by (nonlinear_arith);
}

/// A number of a range is kept, and one outside it becomes the end that is nearer.
pub proof fn law_clamping(i: int, low: int, high: int)
    requires
        low <= high,
    ensures
        clamped(i, low, high) == vstd::math::max(low, vstd::math::min(i, high)),
{
}

/// An integer of at most 53 bits has nothing after the point as a number, and its magnitude is that
/// of its opposite.
pub proof fn law_whole_numbers_have_no_fraction(i: int)
    requires
        -0x20_0000_0000_0000 < i < 0x20_0000_0000_0000,
    ensures
        0 <= int_bits(i) <= u64::MAX,
        !has_fraction(magnitude(int_bits(i) as u64)),
        magnitude(int_bits(i) as u64) == int_bits(if i < 0 { -i } else { i }),
        !is_nan(int_bits(i) as u64),
{
    if i != 0 {
        law_int_bits_value(i);
        let m: int = if i < 0 {
            -i
        } else {
            i
        };
        law_int_bits_value(m);
        let mag = int_bits(m);
        let u = unit_count(mag);
        vstd::arithmetic::power2::lemma_pow2_pos((1075 - exponent(mag)) as nat);
        if exponent(mag) < 1075 {
            assert(full_significand(mag) == m * u);
            vstd::arithmetic::div_mod::lemma_mod_multiples_basic(m, u);
        }
    }
}

} // verus!
