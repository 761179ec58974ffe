//! The `Math` runtime, as far as it is a matter of integers: signs, kinds and whole parts of
//! numbers given by their bits, and the pseudo-random generator.

use crate::floats;
use vstd::prelude::*;

verus! {

/// Multiplier of the linear congruential generator.
pub const RANDOM_MULTIPLIER: u64 = 1103515245;

/// Increment of the linear congruential generator.
pub const RANDOM_INCREMENT: u64 = 12345;

/// The number without its sign.
pub fn haxe_math_abs(x: u64) -> (r: u64)
    ensures
        r == floats::magnitude(x),
{
    if x >= floats::SIGN {
        x - floats::SIGN
    } else {
        x
    }
}

/// The greatest integer that is not above a number.
pub fn haxe_math_floor(x: u64) -> (i: i32)
    ensures
        i == floats::clamped(floats::rounded_down(x), i32::MIN as int, i32::MAX as int),
{
    floats::floor_int(x)
}

/// The least integer that is not below a number.
pub fn haxe_math_ceil(x: u64) -> (i: i32)
    ensures
        i == floats::clamped(floats::rounded_up(x), i32::MIN as int, i32::MAX as int),
{
    floats::ceil_int(x)
}

/// The nearest integer, halves away from zero.
pub fn haxe_math_round(x: u64) -> (i: i32)
    ensures
        i == floats::clamped(floats::rounded(x), i32::MIN as int, i32::MAX as int),
{
    floats::round_int(x)
}

/// Whether the value is not a number.
pub fn haxe_math_is_nan(x: u64) -> (r: bool)
    ensures
        r == floats::is_nan(x),
{
    floats::not_a_number(x)
}

/// Whether the value is a number and not infinite.
pub fn haxe_math_is_finite(x: u64) -> (r: bool)
    ensures
        r == (floats::magnitude(x) < floats::INFINITY),
{
    haxe_math_abs(x) < floats::INFINITY
}

/// The state after another one, in arithmetic modulo 2^64.
pub open spec fn next_seed(seed: u64) -> int {
    (seed * RANDOM_MULTIPLIER + RANDOM_INCREMENT) % 0x1_0000_0000_0000_0000
}

/// Steps the generator: the next of 32768 equally spaced values from 0 up to 1, as its numerator.
pub fn haxe_math_random(seed: &mut u64) -> (n: u64)
    ensures
        *final(seed) == next_seed(*old(seed)),
        n == (*final(seed) / 65536) % 32768,
{
    *seed = seed.wrapping_mul(RANDOM_MULTIPLIER).wrapping_add(RANDOM_INCREMENT);
    proof {
        let p = *old(seed) * RANDOM_MULTIPLIER;
        let m = 0x1_0000_0000_0000_0000int;
        vstd::arithmetic::div_mod::lemma_add_mod_noop(p, RANDOM_INCREMENT as int, m);
        vstd::arithmetic::div_mod::lemma_small_mod(RANDOM_INCREMENT as nat, m as nat);
    }
    (*seed / 65536) % 32768
}

/// Rounding a number down gives at most its whole part, rounding it up at least that, and the two
/// differ by no more than one.
pub proof fn law_floor_ceil(x: u64)
    ensures
        floats::rounded_down(x) <= floats::rounded(x) <= floats::rounded_up(x),
        floats::rounded_up(x) <= floats::rounded_down(x) + 1,
{
    let mag = floats::magnitude(x);
    if !floats::is_nan(x) && floats::half_or_more(mag) && floats::exponent(mag) >= 1023 {
        vstd::arithmetic::power2::lemma_pow2_pos((1075 - floats::exponent(mag)) as nat);
        assert(floats::has_fraction(mag));
    }
}

/// The generator multiplies its state by 1103515245 and adds 12345, modulo 2 to the power of 64.
pub proof fn law_random_step(seed: u64)
    ensures
        next_seed(seed) == (1103515245 * seed + 12345) % 0x1_0000_0000_0000_0000,
{
}

} // verus!
