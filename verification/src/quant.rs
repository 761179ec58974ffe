//! Quantised tensors: storage formats, the integers inside a block, and the life of a tensor.
//!
//! - INT8: one signed byte per element, and one scale per group of elements.
//! - Q4_K_M: super-blocks of 256 elements in 144 bytes: two 16-bit floats (scale and minimum), 12
//!   bytes with eight pairs of a 6-bit scale and a 6-bit minimum, and 128 bytes of 4-bit quants.
//! - Q6_K: super-blocks of 256 elements in 210 bytes: 128 bytes with the low four bits of the
//!   quants, 64 bytes with their high two bits, 16 signed scales, and a 16-bit float.
//!
//! Single-precision numbers are held by their bits.

use crate::floats;
use vstd::prelude::*;

verus! {

/// One signed byte per element.
pub const QSCHEME_INT8: u8 = 0;

/// Four bits per element in super-blocks.
pub const QSCHEME_Q4_K_M: u8 = 1;

/// Six bits per element in super-blocks.
pub const QSCHEME_Q6_K: u8 = 2;

/// Elements of a Q4_K_M super-block.
pub const Q4_K_M_BLOCK_SIZE: usize = 256;

/// Bytes of a Q4_K_M super-block.
pub const Q4_K_M_BLOCK_BYTES: usize = 144;

/// Elements of a Q6_K super-block.
pub const Q6_K_BLOCK_SIZE: usize = 256;

/// Bytes of a Q6_K super-block.
pub const Q6_K_BLOCK_BYTES: usize = 210;

// ---------------------------------------------------------------------------
// Numbers of half precision
// ---------------------------------------------------------------------------

/// Bits of a half-precision number without the sign.
pub open spec fn half_magnitude(h: u16) -> int {
    h as int % 0x8000
}

/// Bits of the single-precision number that a half-precision number is, without the sign. What is
/// not a number stays so, with its top bit set.
pub open spec fn widened(mag: int) -> int {
    let e = mag / 0x400;
    let m = mag % 0x400;
    if e == 31 {
        if m == 0 {
            0x7f80_0000
        } else {
            0x7fc0_0000 + (m % 0x200) * 0x2000
        }
    } else if e > 0 {
        (e + 112) * 0x80_0000 + m * 0x2000
    } else if m > 0 {
        let t = floats::top_bit(m as nat);
        (t + 103) * 0x80_0000 + (m - vstd::arithmetic::power2::pow2(t))
            * vstd::arithmetic::power2::pow2((23 - t) as nat)
    } else {
        0
    }
}

/// Bits of the single-precision number that a half-precision number is.
pub open spec fn single_of_half(h: u16) -> int {
    widened(half_magnitude(h)) + if h >= 0x8000 {
        0x8000_0000int
    } else {
        0
    }
}

/// Value of a finite number with `p` bits behind the point, given without the sign, as a multiple
/// of the smallest positive number of its precision.
pub open spec fn smallest_units(mag: int, p: nat) -> int {
    let point = vstd::arithmetic::power2::pow2(p) as int;
    if mag / point == 0 {
        mag % point
    } else {
        (point + mag % point) * vstd::arithmetic::power2::pow2((mag / point - 1) as nat)
    }
}

/// Widening keeps the value of every finite number: the smallest single-precision number goes
/// into the smallest half-precision number 2 to the power of 125 times.
pub proof fn law_widening_keeps_the_value(mag: int)
    requires
        0 <= mag < 0x7c00,
    ensures
        0 <= widened(mag) < 0x7f80_0000,
        smallest_units(widened(mag), 23) == smallest_units(mag, 10)
            * vstd::arithmetic::power2::pow2(125),
{
    let e = mag / 0x400;
    let m = mag % 0x400;
    vstd::arithmetic::power2::lemma2_to64();
    if e > 0 {
        let w = widened(mag);
        assert(w / 0x80_0000 == e + 112 && w % 0x80_0000 == m * 0x2000);
        vstd::arithmetic::power2::lemma_pow2_adds((e - 1) as nat, 112);
        vstd::arithmetic::power2::lemma_pow2_adds(13, 112);
        let a = vstd::arithmetic::power2::pow2((e - 1) as nat) as int;
        let b = vstd::arithmetic::power2::pow2(112) as int;
        assert(smallest_units(w, 23) == (0x80_0000 + m * 0x2000) * (a * b));
        assert(smallest_units(mag, 10) == (0x400 + m) * a);
        assert((0x80_0000 + m * 0x2000) * (a * b) == ((0x400 + m) * a) * (0x2000 * b))
            by (nonlinear_arith);
        assert(0x2000 * b == vstd::arithmetic::power2::pow2(125));
    } else if m > 0 {
        floats::lemma_top_bit_bounds(m as nat);
        let t = floats::top_bit(m as nat);
        let p = vstd::arithmetic::power2::pow2(t) as int;
        vstd::arithmetic::power2::lemma_pow2_unfold(t + 1);
        if t >= 10 {
            vstd::arithmetic::power2::lemma_pow2_adds(10, (t - 10) as nat);
            vstd::arithmetic::power2::lemma_pow2_pos((t - 10) as nat);
            assert(p >= 0x400) by (nonlinear_arith)
                requires
                    p == 0x400 * vstd::arithmetic::power2::pow2((t - 10) as nat),
                    vstd::arithmetic::power2::pow2((t - 10) as nat) > 0,
            ;
        }
        vstd::arithmetic::power2::lemma_pow2_adds(t, (23 - t) as nat);
        vstd::arithmetic::power2::lemma_pow2_adds((23 - t) as nat, (t + 102) as nat);
        let f = vstd::arithmetic::power2::pow2((23 - t) as nat) as int;
        let g = vstd::arithmetic::power2::pow2((t + 102) as nat) as int;
        assert(0 <= (m - p) * f < 0x80_0000) by (nonlinear_arith)
            requires
                0 <= m - p < p,
                p * f == 0x80_0000,
                f > 0,
        ;
        let w = widened(mag);
        assert(w / 0x80_0000 == t + 103 && w % 0x80_0000 == (m - p) * f);
        assert(smallest_units(w, 23) == (0x80_0000 + (m - p) * f) * g);
        assert(smallest_units(mag, 10) == m);
        assert((0x80_0000 + (m - p) * f) * g == m * (f * g)) by (nonlinear_arith)
            requires
                p * f == 0x80_0000,
        ;
        assert(f * g == vstd::arithmetic::power2::pow2(125));
    } else {
        assert(smallest_units(widened(mag), 23) == 0);
        assert(smallest_units(mag, 10) == 0);
        assert(0 * vstd::arithmetic::power2::pow2(125) == 0);
    }
}

/// The single-precision number that a half-precision number is.
pub fn half_to_single(h: u16) -> (bits: u32)
    ensures
        bits == single_of_half(h),
{
    let mag: u32 = h as u32 % 0x8000;
    let e: u32 = mag / 0x400;
    let m: u32 = mag % 0x400;
    let sign: u32 = if h >= 0x8000 {
        0x8000_0000
    } else {
        0
    };
    if e == 31 {
        if m == 0 {
            0x7f80_0000 + sign
        } else {
            0x7fc0_0000 + (m % 0x200) * 0x2000 + sign
        }
    } else if e > 0 {
        (e + 112) * 0x80_0000 + m * 0x2000 + sign
    } else if m > 0 {
        let (t, p): (u32, u32) = floats::highest_bit(m);
        proof {
            vstd::arithmetic::power2::lemma2_to64();
            if t > 10 {
                vstd::arithmetic::power2::lemma_pow2_strictly_increases(10, t as nat);
            }
            vstd::arithmetic::power2::lemma_pow2_adds(t as nat, (23 - t) as nat);
        }
        let f: u32 = floats::power_of_two(23 - t) as u32;
        assert((m - p) * f < 0x80_0000) by (nonlinear_arith)
            requires
                0 <= m - p < p,
                p * f == 0x80_0000,
                f > 0,
        ;
        (t + 103) * 0x80_0000 + (m - p) * f + sign
    } else {
        sign
    }
}

// ---------------------------------------------------------------------------
// Inside a block
// ---------------------------------------------------------------------------

/// Scale and minimum of a sub-block, as 6-bit integers: the first four pairs are in the low six
/// bits of the first eight bytes, the others have their low four bits in the last four bytes and
/// their high two bits on top of the first eight.
pub open spec fn scale_min(j: int, header: Seq<u8>) -> (int, int) {
    if j < 4 {
        (header[j] as int % 64, header[j + 4] as int % 64)
    } else {
        (
            header[j + 4] as int % 16 + (header[j - 4] as int / 64) * 16,
            header[j + 4] as int / 16 + (header[j] as int / 64) * 16,
        )
    }
}

/// Scale and minimum of a sub-block of a Q4_K_M block with a header.
pub fn q4_k_get_scale_min(j: usize, header: &[u8]) -> (r: (u8, u8))
    requires
        j < 8,
        header@.len() == 12,
    ensures
        (r.0 as int, r.1 as int) == scale_min(j as int, header@),
        r.0 < 64,
        r.1 < 64,
{
    if j < 4 {
        (header[j] % 64, header[j + 4] % 64)
    } else {
        (
            header[j + 4] % 16 + (header[j - 4] / 64) * 16,
            header[j + 4] / 16 + (header[j] / 64) * 16,
        )
    }
}

/// The 4-bit quant of an element: two sub-blocks share 32 bytes, the first in the low halves and
/// the second in the high halves.
pub open spec fn nibble(qs: Seq<u8>, i: int) -> int {
    let byte = qs[(i / 64) * 32 + i % 32] as int;
    if (i / 32) % 2 == 0 {
        byte % 16
    } else {
        byte / 16
    }
}

/// The 4-bit quant of an element of a Q4_K_M block.
pub fn q4_k_quant(qs: &[u8], i: usize) -> (q: u8)
    requires
        qs@.len() == 128,
        i < 256,
    ensures
        q == nibble(qs@, i as int),
        q < 16,
{
    let byte: u8 = qs[(i / 64) * 32 + i % 32];
    if (i / 32) % 2 == 0 {
        byte % 16
    } else {
        byte / 16
    }
}

/// The quant of an element of a Q6_K block, -32 to 31: in each half of 128 elements, 64 bytes hold
/// the low four bits of two elements each and 32 bytes the high two bits of four.
pub open spec fn six_bits(block: Seq<u8>, i: int) -> int {
    let half = i / 128;
    let quarter = (i % 128) / 32;
    let l = i % 32;
    let low = block[half * 64 + (quarter % 2) * 32 + l] as int;
    let high = block[128 + half * 32 + l] as int;
    let nib = if quarter < 2 {
        low % 16
    } else {
        low / 16
    };
    let top = if quarter == 0 {
        high % 4
    } else if quarter == 1 {
        (high / 4) % 4
    } else if quarter == 2 {
        (high / 16) % 4
    } else {
        high / 64
    };
    nib + top * 16 - 32
}

/// The quant of an element of a Q6_K block.
pub fn q6_k_quant(block: &[u8], i: usize) -> (q: i32)
    requires
        block@.len() == Q6_K_BLOCK_BYTES,
        i < 256,
    ensures
        q == six_bits(block@, i as int),
        -32 <= q < 32,
{
    let half: usize = i / 128;
    let quarter: usize = (i % 128) / 32;
    let l: usize = i % 32;
    let low: u8 = block[half * 64 + (quarter % 2) * 32 + l];
    let high: u8 = block[128 + half * 32 + l];
    let nib: u8 = if quarter < 2 {
        low % 16
    } else {
        low / 16
    };
    let top: u8 = if quarter == 0 {
        high % 4
    } else if quarter == 1 {
        (high / 4) % 4
    } else if quarter == 2 {
        (high / 16) % 4
    } else {
        high / 64
    };
    (nib + top * 16) as i32 - 32
}

/// A byte as a signed number.
pub open spec fn signed(b: u8) -> int {
    if b < 128 {
        b as int
    } else {
        b - 256
    }
}

/// The scale of an element of a Q6_K block: 16 elements share one.
pub fn q6_k_scale(block: &[u8], i: usize) -> (s: i32)
    requires
        block@.len() == Q6_K_BLOCK_BYTES,
        i < 256,
    ensures
        s == signed(block@[192 + i as int / 16]),
{
    let b: u8 = block[192 + i / 16];
    if b < 128 {
        b as i32
    } else {
        b as i32 - 256
    }
}

/// Quants are read back from the bytes that they are packed into: byte `l` of the `p`-th 32 bytes
/// holds element `l` of the `p`-th 64 elements in its low half, and in its high half the element 32
/// places behind that one.
pub proof fn law_quants_are_unpacked(qs: Seq<u8>, q: Seq<int>)
    requires
        qs.len() == 128,
        q.len() == 256,
        forall|i: int| 0 <= i < 256 ==> 0 <= #[trigger] q[i] < 16,
        forall|p: int, l: int|
            0 <= p < 4 && 0 <= l < 32 ==> #[trigger] qs[32 * p + l] == q[64 * p + l] + 16 * q[64 * p
                + 32 + l],
    ensures
        forall|i: int| 0 <= i < 256 ==> #[trigger] nibble(qs, i) == q[i],
{
    assert forall|i: int| 0 <= i < 256 implies #[trigger] nibble(qs, i) == q[i] by {
        let p = i / 64;
        let l = i % 32;
        assert(0 <= p < 4 && 0 <= l < 32);
        assert(qs[32 * p + l] == q[64 * p + l] + 16 * q[64 * p + 32 + l]);
        assert(0 <= q[64 * p + l] < 16 && 0 <= q[64 * p + 32 + l] < 16);
        if i % 64 < 32 {
            assert(i == 64 * p + l && (i / 32) % 2 == 0);
        } else {
            assert(i == 64 * p + 32 + l && (i / 32) % 2 == 1);
        }
    }
}

proof fn lemma_halves(low: int, high: int)
    requires
        0 <= low < 16,
        0 <= high < 16,
    ensures
        (low + 16 * high) % 16 == low,
        (low + 16 * high) / 16 == high,
{
}

proof fn lemma_quarters(a: int, b: int, c: int, d: int)
    requires
        0 <= a < 4,
        0 <= b < 4,
        0 <= c < 4,
        0 <= d < 4,
    ensures
        (a + 4 * b + 16 * c + 64 * d) % 4 == a,
        ((a + 4 * b + 16 * c + 64 * d) / 4) % 4 == b,
        ((a + 4 * b + 16 * c + 64 * d) / 16) % 4 == c,
        (a + 4 * b + 16 * c + 64 * d) / 64 == d,
{
}

proof fn lemma_six_and_two(low: int, high: int)
    requires
        0 <= low < 64,
        0 <= high < 4,
    ensures
        (low + 64 * high) % 64 == low,
        (low + 64 * high) / 64 == high,
{
}

/// Scales and minima are read back from the header that they are packed into: the first four of
/// each stand in the low six bits of the first eight bytes. Of the others the low halves share the
/// last four bytes, and the high bits stand on top of the first eight.
pub proof fn law_scales_are_unpacked(header: Seq<u8>, scale: Seq<int>, min: Seq<int>)
    requires
        header.len() == 12,
        scale.len() == 8,
        min.len() == 8,
        forall|j: int| 0 <= j < 8 ==> 0 <= #[trigger] scale[j] < 64 && 0 <= min[j] < 64,
        forall|j: int|
            0 <= j < 4 ==> {
                &&& #[trigger] header[j] == scale[j] + 64 * (scale[j + 4] / 16)
                &&& header[j + 4] == min[j] + 64 * (min[j + 4] / 16)
                &&& header[j + 8] == scale[j + 4] % 16 + 16 * (min[j + 4] % 16)
            },
    ensures
        forall|j: int| 0 <= j < 8 ==> #[trigger] scale_min(j, header) == (scale[j], min[j]),
{
    assert forall|j: int| 0 <= j < 8 implies #[trigger] scale_min(j, header) == (
        scale[j],
        min[j],
    ) by {
        let k = j % 4;
        assert(0 <= scale[k] < 64 && 0 <= min[k] < 64);
        assert(0 <= scale[k + 4] < 64 && 0 <= min[k + 4] < 64);
        assert(header[k] == scale[k] + 64 * (scale[k + 4] / 16));
        assert(header[k + 4] == min[k] + 64 * (min[k + 4] / 16));
        assert(header[k + 8] == scale[k + 4] % 16 + 16 * (min[k + 4] % 16));
        lemma_six_and_two(scale[k], scale[k + 4] / 16);
        lemma_six_and_two(min[k], min[k + 4] / 16);
        lemma_halves(scale[k + 4] % 16, min[k + 4] % 16);
        if j < 4 {
            assert(j == k);
        } else {
            assert(j == k + 4);
        }
    }
}

/// The quants of a Q6_K block are read back from the bytes that they are packed into, 32 being
/// taken off each: in each half of 128 elements, 64 bytes hold the low four bits of the elements
/// and of those 64 places behind, and 32 bytes the high two bits of four elements 32 places apart.
pub proof fn law_six_bit_quants_are_unpacked(block: Seq<u8>, q: Seq<int>)
    requires
        block.len() == 210,
        q.len() == 256,
        forall|i: int| 0 <= i < 256 ==> 0 <= #[trigger] q[i] < 64,
        forall|h: int, l: int|
            0 <= h < 2 && 0 <= l < 32 ==> {
                &&& #[trigger] block[128 + 32 * h + l] == q[128 * h + l] / 16 + 4 * (q[128 * h + 32
                    + l] / 16) + 16 * (q[128 * h + 64 + l] / 16) + 64 * (q[128 * h + 96 + l] / 16)
                &&& block[64 * h + l] == q[128 * h + l] % 16 + 16 * (q[128 * h + 64 + l] % 16)
                &&& block[64 * h + 32 + l] == q[128 * h + 32 + l] % 16 + 16 * (q[128 * h + 96 + l]
                    % 16)
            },
    ensures
        forall|i: int| 0 <= i < 256 ==> #[trigger] six_bits(block, i) == q[i] - 32,
{
    assert forall|i: int| 0 <= i < 256 implies #[trigger] six_bits(block, i) == q[i] - 32 by {
        lemma_six_bits(block, q, i / 128, (i % 128) / 32, i % 32);
        assert(i == 128 * (i / 128) + 32 * ((i % 128) / 32) + i % 32);
    }
}

proof fn lemma_six_bits(block: Seq<u8>, q: Seq<int>, h: int, quarter: int, l: int)
    requires
        q.len() == 256,
        0 <= h < 2,
        0 <= quarter < 4,
        0 <= l < 32,
        forall|i: int| 0 <= i < 256 ==> 0 <= #[trigger] q[i] < 64,
        block[128 + 32 * h + l] == q[128 * h + l] / 16 + 4 * (q[128 * h + 32 + l] / 16) + 16 * (q[128
            * h + 64 + l] / 16) + 64 * (q[128 * h + 96 + l] / 16),
        block[64 * h + l] == q[128 * h + l] % 16 + 16 * (q[128 * h + 64 + l] % 16),
        block[64 * h + 32 + l] == q[128 * h + 32 + l] % 16 + 16 * (q[128 * h + 96 + l] % 16),
    ensures
        six_bits(block, 128 * h + 32 * quarter + l) == q[128 * h + 32 * quarter + l] - 32,
{
    let a = q[128 * h + l];
    let b = q[128 * h + 32 + l];
    let c = q[128 * h + 64 + l];
    let d = q[128 * h + 96 + l];
    assert(0 <= a < 64 && 0 <= b < 64 && 0 <= c < 64 && 0 <= d < 64);
    lemma_quarters(a / 16, b / 16, c / 16, d / 16);
    lemma_halves(a % 16, c % 16);
    lemma_halves(b % 16, d % 16);
    let i = 128 * h + 32 * quarter + l;
    assert(i / 128 == h && (i % 128) / 32 == quarter && i % 32 == l);
    assert(h * 64 == 64 * h && h * 32 == 32 * h);
}

/// A Q4_K_M super-block: the bits of its two half-precision numbers, its header and its quants.
pub struct Q4KMBlock {
    pub d: u16,
    pub dmin: u16,
    pub scales: Vec<u8>,
    pub qs: Vec<u8>,
}

impl Q4KMBlock {
    /// Lengths of the parts.
    pub open spec fn wf(&self) -> bool {
        self.scales@.len() == 12 && self.qs@.len() == 128
    }
}

/// Takes a super-block apart.
pub fn parse_q4_k_m(block: &[u8]) -> (b: Q4KMBlock)
    requires
        block@.len() == Q4_K_M_BLOCK_BYTES,
    ensures
        b.wf(),
        b.d == block@[0] + block@[1] * 256,
        b.dmin == block@[2] + block@[3] * 256,
        b.scales@ == block@.subrange(4, 16),
        b.qs@ == block@.subrange(16, 144),
{
    Q4KMBlock {
        d: block[0] as u16 + block[1] as u16 * 256,
        dmin: block[2] as u16 + block[3] as u16 * 256,
        scales: crate::text::copy_range(block, 4, 16),
        qs: crate::text::copy_range(block, 16, 144),
    }
}

/// A Q4_K_M super-block with its two scales as single-precision numbers and its sub-blocks' scales
/// and minima as integers.
pub struct Q4KBlock {
    pub d: u32,
    pub dmin: u32,
    pub scales: Vec<u8>,
    pub mins: Vec<u8>,
    pub quants: Vec<u8>,
}

/// Decodes a super-block.
pub fn decode_q4_k_block(block: &[u8]) -> (b: Q4KBlock)
    requires
        block@.len() == Q4_K_M_BLOCK_BYTES,
    ensures
        b.d == single_of_half((block@[0] + block@[1] * 256) as u16),
        b.dmin == single_of_half((block@[2] + block@[3] * 256) as u16),
        b.scales@.len() == 8,
        b.mins@.len() == 8,
        forall|j: int|
            0 <= j < 8 ==> (#[trigger] b.scales@[j] as int, b.mins@[j] as int) == scale_min(
                j,
                block@.subrange(4, 16),
            ),
        b.quants@ == block@.subrange(16, 144),
{
    let p: Q4KMBlock = parse_q4_k_m(block);
    let mut scales: Vec<u8> = Vec::new();
    let mut mins: Vec<u8> = Vec::new();
    let mut j: usize = 0;
    while j < 8
        invariant
            j <= 8,
            p.wf(),
            scales@.len() == j,
            mins@.len() == j,
            forall|i: int|
                0 <= i < j ==> (#[trigger] scales@[i] as int, mins@[i] as int) == scale_min(
                    i,
                    p.scales@,
                ),
        decreases 8 - j,
    {
        let (s, m): (u8, u8) = q4_k_get_scale_min(j, p.scales.as_slice());
        scales.push(s);
        mins.push(m);
        j = j + 1;
    }
    Q4KBlock {
        d: half_to_single(p.d),
        dmin: half_to_single(p.dmin),
        scales,
        mins,
        quants: p.qs,
    }
}

// ---------------------------------------------------------------------------
// Dot product with a block of 8-bit activations
// ---------------------------------------------------------------------------

/// 256 activations as 8-bit integers with a common scale, and the sums of each 16 of them.
pub struct Q8KBlock {
    pub d: u32,
    pub qs: Vec<i8>,
    pub bsums: Vec<i16>,
}

impl Q8KBlock {
    /// Lengths of the parts.
    pub open spec fn wf(&self) -> bool {
        self.qs@.len() == 256 && self.bsums@.len() == 16
    }
}

/// What a sub-block contributes to a dot product: its scale and minimum, the sum of the products
/// of the quants, and the sum of the activations.
#[derive(Clone, Copy, PartialEq, Eq, Structural, Debug)]
pub struct SubDot {
    pub scale: u8,
    pub min: u8,
    pub products: i32,
    pub activations: i32,
}

/// Sum of the first products of quants and activations of a sub-block.
pub open spec fn product_sum(qs: Seq<u8>, xs: Seq<i8>, s: int, count: int) -> int
    decreases count,
{
    if count <= 0 {
        0
    } else {
        product_sum(qs, xs, s, count - 1) + nibble(qs, s * 32 + count - 1) * xs[s * 32 + count - 1]
    }
}

/// What a sub-block contributes.
pub open spec fn is_sub_dot(w: Q4KMBlock, x: Q8KBlock, s: int, d: SubDot) -> bool {
    &&& (d.scale as int, d.min as int) == scale_min(s, w.scales@)
    &&& d.products == product_sum(w.qs@, x.qs@, s, 32)
    &&& d.activations == x.bsums@[2 * s] + x.bsums@[2 * s + 1]
}

fn sub_dot(w: &Q4KMBlock, x: &Q8KBlock, s: usize) -> (d: SubDot)
    requires
        w.wf(),
        x.wf(),
        s < 8,
    ensures
        is_sub_dot(*w, *x, s as int, d),
{
    let (scale, min): (u8, u8) = q4_k_get_scale_min(s, w.scales.as_slice());
    let mut products: i32 = 0;
    let mut i: usize = 0;
    while i < 32
        invariant
            i <= 32,
            s < 8,
            w.wf(),
            x.wf(),
            products == product_sum(w.qs@, x.qs@, s as int, i as int),
            -1920 * i <= products <= 1920 * i,
        decreases 32 - i,
    {
        let q: u8 = q4_k_quant(w.qs.as_slice(), s * 32 + i);
        let a: i8 = x.qs[s * 32 + i];
        assert(-1920 <= q as int * a as int <= 1920) by (nonlinear_arith)
            requires
                0 <= q < 16,
                -128 <= a <= 127,
        ;
        products = products + q as i32 * a as i32;
        i = i + 1;
    }
    let activations: i32 = x.bsums[2 * s] as i32 + x.bsums[2 * s + 1] as i32;
    SubDot { scale, min, products, activations }
}

/// The integers of the dot product of a block of weights and a block of activations: the product is
/// the activations' scale times the sum, over the sub-blocks, of `d * scale * products - dmin * min
/// * activations`.
#[allow(non_snake_case)]
pub fn vec_dot_q4_K_q8_K(weight: &Q4KMBlock, x: &Q8KBlock) -> (subs: Vec<SubDot>)
    requires
        weight.wf(),
        x.wf(),
    ensures
        subs@.len() == 8,
        forall|s: int| 0 <= s < 8 ==> is_sub_dot(*weight, *x, s, #[trigger] subs@[s]),
{
    let mut subs: Vec<SubDot> = Vec::new();
    let mut s: usize = 0;
    while s < 8
        invariant
            s <= 8,
            weight.wf(),
            x.wf(),
            subs@.len() == s,
            forall|t: int| 0 <= t < s ==> is_sub_dot(*weight, *x, t, #[trigger] subs@[t]),
        decreases 8 - s,
    {
        subs.push(sub_dot(weight, x, s));
        s = s + 1;
    }
    subs
}

proof fn lemma_product_sum(qs: Seq<u8>, xs: Seq<i8>, p: int, count: int)
    requires
        qs.len() == 128,
        xs.len() == 256,
        0 <= p < 4,
        0 <= count <= 32,
    ensures
        product_sum(qs, xs, 2 * p, count) == Seq::new(
            count as nat,
            |l: int| (qs[32 * p + l] % 16) * xs[64 * p + l],
        ).fold_left(0int, |a: int, b: int| a + b),
        product_sum(qs, xs, 2 * p + 1, count) == Seq::new(
            count as nat,
            |l: int| (qs[32 * p + l] / 16) * xs[64 * p + 32 + l],
        ).fold_left(0int, |a: int, b: int| a + b),
    decreases count,
{
    let low = |l: int| (qs[32 * p + l] % 16) * xs[64 * p + l];
    let high = |l: int| (qs[32 * p + l] / 16) * xs[64 * p + 32 + l];
    if count > 0 {
        lemma_product_sum(qs, xs, p, count - 1);
        let n = (count - 1) as nat;
        assert(Seq::new(count as nat, low).drop_last() =~= Seq::new(n, low));
        assert(Seq::new(count as nat, high).drop_last() =~= Seq::new(n, high));
        let i = 2 * p * 32 + count - 1;
        assert((i / 64) * 32 + i % 32 == 32 * p + count - 1 && (i / 32) % 2 == 0);
        assert(nibble(qs, i) == qs[32 * p + count - 1] % 16);
        let j = (2 * p + 1) * 32 + count - 1;
        assert((j / 64) * 32 + j % 32 == 32 * p + count - 1 && (j / 32) % 2 == 1);
        assert(nibble(qs, j) == qs[32 * p + count - 1] / 16);
    }
}

/// What the sub-blocks contribute to a dot product, over the bytes themselves: the even one of a
/// pair multiplies the low halves of its 32 bytes, the odd one the high halves of the same bytes,
/// each with its own 32 activations and with the sums of these.
pub proof fn law_dot_contributions(w: Q4KMBlock, x: Q8KBlock, p: int, even: SubDot, odd: SubDot)
    requires
        w.wf(),
        x.wf(),
        0 <= p < 4,
        is_sub_dot(w, x, 2 * p, even),
        is_sub_dot(w, x, 2 * p + 1, odd),
    ensures
        even.products == Seq::new(
            32,
            |l: int| (w.qs@[32 * p + l] % 16) * x.qs@[64 * p + l],
        ).fold_left(0int, |a: int, b: int| a + b),
        odd.products == Seq::new(
            32,
            |l: int| (w.qs@[32 * p + l] / 16) * x.qs@[64 * p + 32 + l],
        ).fold_left(0int, |a: int, b: int| a + b),
        even.activations == x.bsums@[4 * p] + x.bsums@[4 * p + 1],
        odd.activations == x.bsums@[4 * p + 2] + x.bsums@[4 * p + 3],
{
    lemma_product_sum(w.qs@, x.qs@, p, 32);
}

/// The scales and minima that enter a dot product are those that the header of the weights was
/// packed from.
pub proof fn law_dot_scales(
    w: Q4KMBlock,
    x: Q8KBlock,
    scale: Seq<int>,
    min: Seq<int>,
    s: int,
    d: SubDot,
)
    requires
        w.wf(),
        x.wf(),
        0 <= s < 8,
        is_sub_dot(w, x, s, d),
        scale.len() == 8,
        min.len() == 8,
        forall|j: int| 0 <= j < 8 ==> 0 <= #[trigger] scale[j] < 64 && 0 <= min[j] < 64,
        forall|j: int|
            0 <= j < 4 ==> {
                &&& #[trigger] w.scales@[j] == scale[j] + 64 * (scale[j + 4] / 16)
                &&& w.scales@[j + 4] == min[j] + 64 * (min[j + 4] / 16)
                &&& w.scales@[j + 8] == scale[j + 4] % 16 + 16 * (min[j + 4] % 16)
            },
    ensures
        d.scale == scale[s],
        d.min == min[s],
{
    law_scales_are_unpacked(w.scales@, scale, min);
    assert(scale_min(s, w.scales@) == (scale[s], min[s]));
}

proof fn lemma_zero_products(qs: Seq<u8>, xs: Seq<i8>, s: int, count: int)
    requires
        forall|i: int| 0 <= i < xs.len() ==> xs[i] == 0,
        0 <= s,
        s * 32 + count <= xs.len(),
    ensures
        product_sum(qs, xs, s, count) == 0,
    decreases count,
{
    if count > 0 {
        lemma_zero_products(qs, xs, s, count - 1);
        assert(nibble(qs, s * 32 + count - 1) * 0 == 0) by (nonlinear_arith);
    }
}

/// Activations that are all zero contribute nothing, whatever the weights are.
pub proof fn law_zero_activations(w: Q4KMBlock, x: Q8KBlock, s: int, d: SubDot)
    requires
        w.wf(),
        x.wf(),
        forall|i: int| 0 <= i < 256 ==> x.qs@[i] == 0,
        forall|i: int| 0 <= i < 16 ==> x.bsums@[i] == 0,
        0 <= s < 8,
        is_sub_dot(w, x, s, d),
    ensures
        d.products == 0,
        d.activations == 0,
{
    lemma_zero_products(w.qs@, x.qs@, s, 32);
}

// ---------------------------------------------------------------------------
// Tensors
// ---------------------------------------------------------------------------

/// The bytes of a tensor.
pub enum QData {
    /// Bytes of its own.
    Owned(Vec<u8>),
    /// Bytes of another object, by the object's address.
    Shared(usize),
}

/// A quantised tensor: a matrix in row-major order.
pub struct QTensor {
    pub data: QData,
    /// Scales of an INT8 tensor, one for each group of elements.
    pub meta: Option<Vec<u32>>,
    pub numel: usize,
    pub group_size: usize,
    pub scheme: u8,
    pub rows: usize,
    pub cols: usize,
    /// Number of references to the tensor.
    pub refcount: usize,
}

/// Bytes of a number of elements in a format; none for an unknown format.
pub open spec fn bytes_for(scheme: u8, numel: int) -> Option<int> {
    if scheme == QSCHEME_INT8 {
        Some(numel)
    } else if scheme == QSCHEME_Q4_K_M {
        Some((numel / 256) * 144)
    } else if scheme == QSCHEME_Q6_K {
        Some((numel / 256) * 210)
    } else {
        None
    }
}

fn format_bytes(scheme: u8, numel: usize) -> (r: Option<usize>)
    ensures
        match bytes_for(scheme, numel as int) {
            Some(n) => r == Some(n as usize) && 0 <= n <= numel,
            None => r is None,
        },
{
    match scheme {
        QSCHEME_INT8 => Some(numel),
        QSCHEME_Q4_K_M => Some((numel / Q4_K_M_BLOCK_SIZE) * Q4_K_M_BLOCK_BYTES),
        QSCHEME_Q6_K => Some((numel / Q6_K_BLOCK_SIZE) * Q6_K_BLOCK_BYTES),
        _ => None,
    }
}

impl QTensor {
    /// The shape and the bytes fit each other.
    pub open spec fn wf(&self) -> bool {
        &&& self.numel == self.rows * self.cols
        &&& self.refcount > 0
        &&& self.scheme <= QSCHEME_Q6_K
        &&& (self.data matches QData::Owned(v) ==> {
            &&& v@.len() >= bytes_for(self.scheme, self.numel as int)->Some_0
            &&& self.scheme == QSCHEME_INT8 ==> v@.len() == self.numel
        })
        &&& self.scheme == QSCHEME_INT8 ==> self.group_size > 0 && self.meta is Some
            && self.meta->Some_0@.len() == self.numel / self.group_size && self.data is Owned
        &&& self.scheme != QSCHEME_INT8 ==> self.meta is None
    }

    /// Whether the tensor has bytes of its own.
    pub open spec fn owns_data(&self) -> bool {
        self.data is Owned
    }

    /// Number of bytes of the elements.
    pub fn data_bytes(&self) -> (n: usize)
        ensures
            n == match bytes_for(self.scheme, self.numel as int) {
                Some(b) => b,
                None => 0,
            },
    {
        match format_bytes(self.scheme, self.numel) {
            Some(n) => n,
            None => 0,
        }
    }
}

/// Class of tensors that can take each other's place.
#[derive(Clone, Copy, PartialEq, Eq, Structural, Debug)]
pub struct PoolKey {
    /// The format, marked as one of quantised tensors.
    pub dtype: u8,
    pub rows: usize,
    pub cols: usize,
    pub group_size: usize,
}

/// Class of a format, a shape and a group size.
pub open spec fn key_of(scheme: u8, rows: usize, cols: usize, group_size: usize) -> PoolKey {
    PoolKey { dtype: 0x80 | scheme, rows, cols, group_size }
}

/// Class of a tensor.
pub open spec fn tensor_key(t: QTensor) -> PoolKey {
    key_of(t.scheme, t.rows, t.cols, t.group_size)
}

/// Class of a format, a shape and a group size.
pub fn qtensor_pool_key(scheme: u8, rows: usize, cols: usize, group_size: usize) -> (k: PoolKey)
    ensures
        k == key_of(scheme, rows, cols, group_size),
{
    PoolKey { dtype: 0x80 | scheme, rows, cols, group_size }
}

/// What became of a tensor that was released.
#[derive(Clone, Copy, PartialEq, Eq, Structural, Debug)]
pub enum Released {
    /// There was none.
    Nothing,
    /// Others still refer to it.
    Kept,
    /// It is gone; its bytes belong to another object and stay.
    Wrapper,
    /// It is gone, with its bytes.
    Freed,
    /// It waits to take the place of a new one.
    Parked,
}

/// Quantised tensors, named by handles; 0 is the null handle.
pub struct QTensors {
    pub slots: Vec<Option<QTensor>>,
    /// Released tensors that can take the place of new ones.
    pub parked: Vec<QTensor>,
}

impl QTensors {
    /// Tensors are in order, and only INT8 tensors with bytes of their own are parked.
    pub open spec fn wf(&self) -> bool {
        &&& forall|i: int|
            0 <= i < self.slots@.len() && self.slots@[i] is Some ==> (
            #[trigger] self.slots@[i])->Some_0.wf()
        &&& forall|i: int|
            0 <= i < self.parked@.len() ==> {
                &&& (#[trigger] self.parked@[i]).wf()
                &&& self.parked@[i].scheme == QSCHEME_INT8
                &&& self.parked@[i].owns_data()
            }
    }

    /// The tensor that a handle names.
    pub open spec fn at(&self, qt: i64) -> Option<QTensor> {
        if 1 <= qt <= self.slots@.len() {
            self.slots@[qt - 1]
        } else {
            None
        }
    }

    /// Whether there is room for another handle.
    pub open spec fn has_room(&self) -> bool {
        self.slots@.len() < i64::MAX
    }

    /// A new tensor was added under a handle; nothing else has changed.
    pub open spec fn added(&self, before: QTensors, qt: i64, t: QTensor) -> bool {
        &&& self.wf()
        &&& qt == before.slots@.len() + 1
        &&& self.slots@ == before.slots@.push(Some(t))
    }

    /// No tensors.
    pub fn new() -> (s: QTensors)
        ensures
            s.wf(),
            s.slots@.len() == 0,
            s.parked@.len() == 0,
    {
        QTensors { slots: Vec::new(), parked: Vec::new() }
    }

    fn insert_tensor(&mut self, t: QTensor) -> (qt: i64)
        requires
            old(self).wf(),
            old(self).has_room(),
            t.wf(),
        ensures
            final(self).added(*old(self), qt, t),
            final(self).parked@ == old(self).parked@,
    {
        self.slots.push(Some(t));
        let n: usize = self.slots.len();
        n as i64
    }
}

/// A position among parked tensors at which one of a class stands.
pub open spec fn parked_at(parked: Seq<QTensor>, key: PoolKey, i: int) -> bool {
    0 <= i < parked.len() && tensor_key(parked[i]) == key
}

/// Takes a parked tensor of a class.
fn try_pop_qtensor(
    store: &mut QTensors,
    scheme: u8,
    rows: usize,
    cols: usize,
    group_size: usize,
) -> (r: Option<QTensor>)
    requires
        old(store).wf(),
    ensures
        final(store).wf(),
        final(store).slots@ == old(store).slots@,
        match r {
            None => {
                &&& final(store).parked@ == old(store).parked@
                &&& forall|i: int|
                    !#[trigger] parked_at(
                        old(store).parked@,
                        key_of(scheme, rows, cols, group_size),
                        i,
                    )
            },
            Some(t) => {
                &&& t.wf()
                &&& t.scheme == QSCHEME_INT8
                &&& t.owns_data()
                &&& exists|i: int|
                    {
                        &&& #[trigger] parked_at(
                            old(store).parked@,
                            key_of(scheme, rows, cols, group_size),
                            i,
                        )
                        &&& t == old(store).parked@[i]
                        &&& final(store).parked@ == old(store).parked@.remove(i)
                    }
            },
        },
{
    let key: PoolKey = qtensor_pool_key(scheme, rows, cols, group_size);
    let mut i: usize = store.parked.len();
    while i > 0
        invariant
            i <= store.parked@.len(),
            *store == *old(store),
            old(store).wf(),
            key == key_of(scheme, rows, cols, group_size),
            forall|j: int| i <= j ==> !#[trigger] parked_at(store.parked@, key, j),
        decreases i,
    {
        i = i - 1;
        let k: PoolKey = {
            let t: &QTensor = &store.parked[i];
            qtensor_pool_key(t.scheme, t.rows, t.cols, t.group_size)
        };
        if k == key {
            assert(parked_at(store.parked@, key, i as int));
            let t: QTensor = store.parked.remove(i);
            return Some(t);
        }
    }
    None
}

fn zeros_u8(n: usize) -> (v: Vec<u8>)
    ensures
        v@.len() == n,
        forall|i: int| 0 <= i < n ==> v@[i] == 0,
{
    let mut v: Vec<u8> = Vec::new();
    let mut i: usize = 0;
    while i < n
        invariant
            i <= n,
            v@.len() == i,
            forall|j: int| 0 <= j < i ==> v@[j] == 0,
        decreases n - i,
    {
        v.push(0);
        i = i + 1;
    }
    v
}

pub(crate) fn zeros_u32(n: usize) -> (v: Vec<u32>)
    ensures
        v@.len() == n,
        forall|i: int| 0 <= i < n ==> v@[i] == 0,
{
    let mut v: Vec<u32> = Vec::new();
    let mut i: usize = 0;
    while i < n
        invariant
            i <= n,
            v@.len() == i,
            forall|j: int| 0 <= j < i ==> v@[j] == 0,
        decreases n - i,
    {
        v.push(0);
        i = i + 1;
    }
    v
}

fn cleared_u8(v: Vec<u8>) -> (r: Vec<u8>)
    ensures
        r@.len() == v@.len(),
        forall|i: int| 0 <= i < r@.len() ==> r@[i] == 0,
{
    let mut r: Vec<u8> = v;
    let mut i: usize = 0;
    while i < r.len()
        invariant
            i <= r@.len() == v@.len(),
            forall|j: int| 0 <= j < i ==> r@[j] == 0,
        decreases r@.len() - i,
    {
        r.set(i, 0);
        i = i + 1;
    }
    r
}

fn cleared_u32(v: Vec<u32>) -> (r: Vec<u32>)
    ensures
        r@.len() == v@.len(),
        forall|i: int| 0 <= i < r@.len() ==> r@[i] == 0,
{
    let mut r: Vec<u32> = v;
    let mut i: usize = 0;
    while i < r.len()
        invariant
            i <= r@.len() == v@.len(),
            forall|j: int| 0 <= j < i ==> r@[j] == 0,
        decreases r@.len() - i,
    {
        r.set(i, 0);
        i = i + 1;
    }
    r
}

/// A new tensor of a class: all of its bytes and scales are zero.
pub open spec fn is_fresh(
    t: QTensor,
    scheme: u8,
    rows: usize,
    cols: usize,
    group_size: usize,
) -> bool {
    &&& t.wf()
    &&& t.scheme == scheme
    &&& t.rows == rows
    &&& t.cols == cols
    &&& t.group_size == group_size
    &&& t.refcount == 1
    &&& t.data matches QData::Owned(v) && v@.len() == bytes_for(scheme, t.numel as int)->Some_0
        && forall|i: int| 0 <= i < v@.len() ==> v@[i] == 0
    &&& t.meta matches Some(m) ==> forall|i: int| 0 <= i < m@.len() ==> m@[i] == 0
}

/// A new tensor of zeros, in the place of a parked one of its class if there is one; null for a
/// format that has no new tensors.
pub fn alloc_qtensor(
    store: &mut QTensors,
    scheme: u8,
    rows: usize,
    cols: usize,
    group_size: usize,
) -> (qt: i64)
    requires
        old(store).wf(),
        old(store).has_room(),
        rows * cols <= usize::MAX,
        scheme == QSCHEME_INT8 ==> group_size > 0,
    ensures
        final(store).wf(),
        if scheme == QSCHEME_INT8 || scheme == QSCHEME_Q4_K_M {
            &&& qt == old(store).slots@.len() + 1
            &&& final(store).slots@.len() == qt
            &&& final(store).slots@.drop_last() == old(store).slots@
            &&& final(store).at(qt) is Some
            &&& is_fresh(final(store).at(qt)->Some_0, scheme, rows, cols, group_size)
            &&& (final(store).parked@ == old(store).parked@ && forall|i: int|
                !#[trigger] parked_at(
                    old(store).parked@,
                    key_of(scheme, rows, cols, group_size),
                    i,
                )) || exists|i: int|
                {
                    &&& #[trigger] parked_at(
                        old(store).parked@,
                        key_of(scheme, rows, cols, group_size),
                        i,
                    )
                    &&& final(store).parked@ == old(store).parked@.remove(i)
                }
        } else {
            qt == 0 && *final(store) == *old(store)
        },
{
    if scheme != QSCHEME_INT8 && scheme != QSCHEME_Q4_K_M {
        return 0;
    }
    let numel: usize = rows * cols;
    let bytes: usize = match format_bytes(scheme, numel) {
        Some(n) => n,
        None => 0,
    };
    let popped: Option<QTensor> = try_pop_qtensor(store, scheme, rows, cols, group_size);
    let t: QTensor = match popped {
        Some(p) => {
            proof {
                assert((0x80u8 | 0u8) != (0x80u8 | 1u8)) by (bit_vector);
            }
            let data: Vec<u8> = match p.data {
                QData::Owned(v) => cleared_u8(v),
                QData::Shared(_) => zeros_u8(bytes),
            };
            let meta: Option<Vec<u32>> = match p.meta {
                Some(m) => Some(cleared_u32(m)),
                None => None,
            };
            QTensor {
                data: QData::Owned(data),
                meta,
                numel,
                group_size,
                scheme,
                rows,
                cols,
                refcount: 1,
            }
        },
        None => {
            let meta: Option<Vec<u32>> = if scheme == QSCHEME_INT8 {
                Some(zeros_u32(numel / group_size))
            } else {
                None
            };
            QTensor {
                data: QData::Owned(zeros_u8(bytes)),
                meta,
                numel,
                group_size,
                scheme,
                rows,
                cols,
                refcount: 1,
            }
        },
    };
    assert(is_fresh(t, scheme, rows, cols, group_size));
    let qt: i64 = store.insert_tensor(t);
    assert(store.slots@.drop_last() =~= old(store).slots@);
    qt
}

// ---------------------------------------------------------------------------
// Making tensors
// ---------------------------------------------------------------------------

/// Whether a shape of so many elements can be given: both sides are positive, and the elements are
/// a whole number of super-blocks.
pub open spec fn blocks_fit(rows: i64, cols: i64) -> bool {
    rows > 0 && cols > 0 && (rows * cols) % 256 == 0
}

/// Number of elements of a shape.
pub open spec fn in_memory(rows: i64, cols: i64) -> bool {
    rows > 0 && cols > 0 ==> rows * cols <= usize::MAX
}

pub proof fn lemma_sides(rows: i64, cols: i64)
    requires
        rows > 0,
        cols > 0,
        rows * cols <= usize::MAX,
    ensures
        rows <= usize::MAX,
        cols <= usize::MAX,
{
    assert(rows <= rows * cols && cols <= rows * cols) by (nonlinear_arith)
        requires
            rows > 0,
            cols > 0,
    ;
}

/// Whether the bytes of another object stand at the null address.
pub open spec fn is_null(d: QData) -> bool {
    d matches QData::Shared(address) && address == 0
}

/// A tensor over super-blocks that were quantised before, with bytes of its own or those of another
/// object; null where there are no bytes or the shape is not one of super-blocks.
pub fn rayzor_qtensor_wrap_q4_k_m(
    store: &mut QTensors,
    block_data: Option<QData>,
    rows: i64,
    cols: i64,
) -> (qt: i64)
    requires
        old(store).wf(),
        old(store).has_room(),
        in_memory(rows, cols),
        block_data matches Some(QData::Owned(v)) ==> (blocks_fit(rows, cols) ==> v@.len()
            >= bytes_for(QSCHEME_Q4_K_M, rows * cols)->Some_0),
    ensures
        match block_data {
            Some(d) if blocks_fit(rows, cols) && !is_null(d) => final(store).added(
                *old(store),
                qt,
                QTensor {
                    data: d,
                    meta: None,
                    numel: (rows * cols) as usize,
                    group_size: Q4_K_M_BLOCK_SIZE,
                    scheme: QSCHEME_Q4_K_M,
                    rows: rows as usize,
                    cols: cols as usize,
                    refcount: 1,
                },
            ) && final(store).parked@ == old(store).parked@,
            _ => qt == 0 && *final(store) == *old(store),
        },
{
    let d: QData = match block_data {
        Some(d) => d,
        None => {
            return 0;
        },
    };
    let null: bool = match &d {
        QData::Shared(address) => *address == 0,
        QData::Owned(_) => false,
    };
    if null || rows <= 0 || cols <= 0 {
        return 0;
    }
    proof {
        lemma_sides(rows, cols);
    }
    let r: usize = rows as usize;
    let c: usize = cols as usize;
    let numel: usize = r * c;
    if numel % Q4_K_M_BLOCK_SIZE != 0 {
        return 0;
    }
    store.insert_tensor(
        QTensor {
            data: d,
            meta: None,
            numel,
            group_size: Q4_K_M_BLOCK_SIZE,
            scheme: QSCHEME_Q4_K_M,
            rows: r,
            cols: c,
            refcount: 1,
        },
    )
}

/// Whether so many bytes hold a shape in a format of super-blocks.
pub open spec fn bytes_hold(scheme: u8, rows: i64, cols: i64, len: int) -> bool {
    blocks_fit(rows, cols) && bytes_for(scheme, rows * cols)->Some_0 <= len
}

/// A tensor over the bytes of another object, which keeps them, in a format of super-blocks.
pub open spec fn view_of(scheme: u8, address: usize, rows: i64, cols: i64) -> QTensor {
    QTensor {
        data: QData::Shared(address),
        meta: None,
        numel: (rows * cols) as usize,
        group_size: 256,
        scheme,
        rows: rows as usize,
        cols: cols as usize,
        refcount: 1,
    }
}

/// A tensor over a buffer, given by its address and length, was added; none for a null buffer, a
/// shape that is not one of super-blocks, or too few bytes.
pub open spec fn viewed(
    after: QTensors,
    before: QTensors,
    qt: i64,
    scheme: u8,
    bytes: Option<(usize, usize)>,
    rows: i64,
    cols: i64,
) -> bool {
    match bytes {
        Some(b) if b.0 != 0 && bytes_hold(scheme, rows, cols, b.1 as int) => {
            &&& after.added(before, qt, view_of(scheme, b.0, rows, cols))
            &&& after.parked@ == before.parked@
        },
        _ => qt == 0 && after == before,
    }
}

fn view_bytes(
    store: &mut QTensors,
    scheme: u8,
    bytes: Option<(usize, usize)>,
    rows: i64,
    cols: i64,
) -> (qt: i64)
    requires
        old(store).wf(),
        old(store).has_room(),
        in_memory(rows, cols),
        scheme == QSCHEME_Q4_K_M || scheme == QSCHEME_Q6_K,
    ensures
        viewed(*final(store), *old(store), qt, scheme, bytes, rows, cols),
{
    let (address, len): (usize, usize) = match bytes {
        Some((address, len)) => (address, len),
        None => {
            return 0;
        },
    };
    if rows <= 0 || cols <= 0 || address == 0 {
        return 0;
    }
    proof {
        lemma_sides(rows, cols);
    }
    let r: usize = rows as usize;
    let c: usize = cols as usize;
    let numel: usize = r * c;
    if numel % 256 != 0 {
        return 0;
    }
    let expected: usize = match format_bytes(scheme, numel) {
        Some(n) => n,
        None => 0,
    };
    if len < expected {
        return 0;
    }
    store.insert_tensor(
        QTensor {
            data: QData::Shared(address),
            meta: None,
            numel,
            group_size: 256,
            scheme,
            rows: r,
            cols: c,
            refcount: 1,
        },
    )
}

/// A Q4_K_M tensor over a buffer, given by its address and length; null for a null buffer, a shape
/// that is not one of super-blocks, or too few bytes.
pub fn rayzor_qtensor_from_bytes_q4_k_m(
    store: &mut QTensors,
    bytes: Option<(usize, usize)>,
    rows: i64,
    cols: i64,
) -> (qt: i64)
    requires
        old(store).wf(),
        old(store).has_room(),
        in_memory(rows, cols),
    ensures
        viewed(*final(store), *old(store), qt, QSCHEME_Q4_K_M, bytes, rows, cols),
{
    view_bytes(store, QSCHEME_Q4_K_M, bytes, rows, cols)
}

/// A Q6_K tensor over a buffer, given by its address and length; null for a null buffer, a shape
/// that is not one of super-blocks, or too few bytes.
pub fn rayzor_qtensor_from_bytes_q6_k(
    store: &mut QTensors,
    bytes: Option<(usize, usize)>,
    rows: i64,
    cols: i64,
) -> (qt: i64)
    requires
        old(store).wf(),
        old(store).has_room(),
        in_memory(rows, cols),
    ensures
        viewed(*final(store), *old(store), qt, QSCHEME_Q6_K, bytes, rows, cols),
{
    view_bytes(store, QSCHEME_Q6_K, bytes, rows, cols)
}

// ---------------------------------------------------------------------------
// Getters
// ---------------------------------------------------------------------------

pub(crate) fn lookup(store: &QTensors, qt: i64) -> (i: Option<usize>)
    ensures
        match i {
            Some(k) => k == qt - 1 && k < store.slots@.len() && store.slots@[k as int] is Some,
            None => store.at(qt) is None,
        },
{
    if qt < 1 || qt as u64 > store.slots.len() as u64 {
        return None;
    }
    let k: usize = (qt - 1) as usize;
    if store.slots[k].is_some() {
        Some(k)
    } else {
        None
    }
}

/// Number of rows; 0 for null.
pub fn rayzor_qtensor_rows(store: &QTensors, qt: i64) -> (n: usize)
    ensures
        n == match store.at(qt) {
            Some(t) => t.rows,
            None => 0,
        },
{
    match lookup(store, qt) {
        None => 0,
        Some(k) => match &store.slots[k] {
            Some(t) => t.rows,
            None => 0,
        },
    }
}

/// Number of columns; 0 for null.
pub fn rayzor_qtensor_cols(store: &QTensors, qt: i64) -> (n: usize)
    ensures
        n == match store.at(qt) {
            Some(t) => t.cols,
            None => 0,
        },
{
    match lookup(store, qt) {
        None => 0,
        Some(k) => match &store.slots[k] {
            Some(t) => t.cols,
            None => 0,
        },
    }
}

/// The format; 0 for null.
pub fn rayzor_qtensor_scheme(store: &QTensors, qt: i64) -> (n: i64)
    ensures
        n == match store.at(qt) {
            Some(t) => t.scheme as i64,
            None => 0,
        },
{
    match lookup(store, qt) {
        None => 0,
        Some(k) => match &store.slots[k] {
            Some(t) => t.scheme as i64,
            None => 0,
        },
    }
}

/// Number of elements; 0 for null.
pub fn rayzor_qtensor_numel(store: &QTensors, qt: i64) -> (n: usize)
    ensures
        n == match store.at(qt) {
            Some(t) => t.numel,
            None => 0,
        },
{
    match lookup(store, qt) {
        None => 0,
        Some(k) => match &store.slots[k] {
            Some(t) => t.numel,
            None => 0,
        },
    }
}

// ---------------------------------------------------------------------------
// Sharing and releasing
// ---------------------------------------------------------------------------

/// The tensor with another number of references.
pub open spec fn with_count(t: QTensor, refcount: usize) -> QTensor {
    QTensor {
        data: t.data,
        meta: t.meta,
        numel: t.numel,
        group_size: t.group_size,
        scheme: t.scheme,
        rows: t.rows,
        cols: t.cols,
        refcount,
    }
}

pub(crate) fn take_slot(store: &mut QTensors, k: usize) -> (t: QTensor)
    requires
        k < old(store).slots@.len(),
        old(store).slots@[k as int] is Some,
    ensures
        Some(t) == old(store).slots@[k as int],
        final(store).slots@ == old(store).slots@.update(k as int, None),
        final(store).parked@ == old(store).parked@,
{
    let mut taken: Option<QTensor> = None;
    std::mem::swap(&mut taken, &mut store.slots[k]);
    match taken {
        Some(t) => t,
        None => vstd::pervasive::unreached(),
    }
}

/// Another reference to a tensor: the same handle.
pub fn rayzor_qtensor_arc_clone(store: &mut QTensors, src: i64) -> (qt: i64)
    requires
        old(store).wf(),
        old(store).at(src) matches Some(t) ==> t.refcount < usize::MAX,
    ensures
        final(store).wf(),
        final(store).parked@ == old(store).parked@,
        match old(store).at(src) {
            None => qt == 0 && final(store).slots@ == old(store).slots@,
            Some(t) => {
                &&& qt == src
                &&& final(store).slots@ == old(store).slots@.update(
                    src - 1,
                    Some(with_count(t, (t.refcount + 1) as usize)),
                )
            },
        },
{
    match lookup(store, src) {
        None => 0,
        Some(k) => {
            let mut t: QTensor = take_slot(store, k);
            t.refcount = t.refcount + 1;
            store.slots.set(k, Some(t));
            src
        },
    }
}

/// Another reference to a tensor.
pub fn rayzor_qtensor_clone(store: &mut QTensors, src: i64) -> (qt: i64)
    requires
        old(store).wf(),
        old(store).at(src) matches Some(t) ==> t.refcount < usize::MAX,
    ensures
        final(store).wf(),
        final(store).parked@ == old(store).parked@,
        match old(store).at(src) {
            None => qt == 0 && final(store).slots@ == old(store).slots@,
            Some(t) => {
                &&& qt == src
                &&& final(store).slots@ == old(store).slots@.update(
                    src - 1,
                    Some(with_count(t, (t.refcount + 1) as usize)),
                )
            },
        },
{
    rayzor_qtensor_arc_clone(store, src)
}

/// A tensor that holds what another holds in bytes of its own.
pub open spec fn is_copy(t: QTensor, src: QTensor, bytes: Seq<u8>) -> bool {
    &&& t.data matches QData::Owned(v) && v@ == bytes.take(
        bytes_for(src.scheme, src.numel as int)->Some_0,
    )
    &&& match (src.meta, t.meta) {
        (Some(a), Some(b)) => a@ == b@,
        (None, None) => true,
        _ => false,
    }
    &&& t.numel == src.numel
    &&& t.group_size == src.group_size
    &&& t.scheme == src.scheme
    &&& t.rows == src.rows
    &&& t.cols == src.cols
    &&& t.refcount == 1
}

/// A new tensor with a copy of another's bytes and scales; `view` holds the bytes of a tensor that
/// has none of its own. Null for null.
pub fn rayzor_qtensor_deep_clone(store: &mut QTensors, src: i64, view: &[u8]) -> (qt: i64)
    requires
        old(store).wf(),
        old(store).has_room(),
        old(store).at(src) matches Some(t) ==> t.data is Shared ==> view@.len() >= bytes_for(
            t.scheme,
            t.numel as int,
        )->Some_0,
    ensures
        final(store).wf(),
        match old(store).at(src) {
            None => qt == 0 && *final(store) == *old(store),
            Some(t) => {
                &&& qt == old(store).slots@.len() + 1
                &&& final(store).slots@.len() == qt
                &&& final(store).slots@.drop_last() == old(store).slots@
                &&& final(store).at(qt) is Some
                &&& is_copy(
                    final(store).at(qt)->Some_0,
                    t,
                    match t.data {
                        QData::Owned(v) => v@,
                        QData::Shared(_) => view@,
                    },
                )
                &&& final(store).parked@ == old(store).parked@
            },
        },
{
    let k: usize = match lookup(store, src) {
        Some(k) => k,
        None => {
            return 0;
        },
    };
    let copy: QTensor = match &store.slots[k] {
        None => {
            return 0;
        },
        Some(t) => {
            let n: usize = t.data_bytes();
            let data: Vec<u8> = match &t.data {
                QData::Owned(v) => crate::text::copy_range(v.as_slice(), 0, n),
                QData::Shared(_) => crate::text::copy_range(view, 0, n),
            };
            assert(data@ =~= (match t.data {
                QData::Owned(v) => v@,
                QData::Shared(_) => view@,
            }).take(n as int));
            let meta: Option<Vec<u32>> = match &t.meta {
                Some(m) => Some(copy_u32(m)),
                None => None,
            };
            QTensor {
                data: QData::Owned(data),
                meta,
                numel: t.numel,
                group_size: t.group_size,
                scheme: t.scheme,
                rows: t.rows,
                cols: t.cols,
                refcount: 1,
            }
        },
    };
    let qt: i64 = store.insert_tensor(copy);
    assert(store.slots@.drop_last() =~= old(store).slots@);
    qt
}

fn copy_u32(v: &Vec<u32>) -> (r: Vec<u32>)
    ensures
        r@ == v@,
{
    let mut r: Vec<u32> = Vec::new();
    let mut i: usize = 0;
    while i < v.len()
        invariant
            i <= v@.len(),
            r@ == v@.take(i as int),
        decreases v@.len() - i,
    {
        r.push(v[i]);
        i = i + 1;
    }
    assert(v@.take(v@.len() as int) =~= v@);
    r
}

/// Drops a reference. The last one releases the tensor: an INT8 tensor with bytes of its own is
/// parked, another one is gone, with its bytes if they are its own.
pub fn rayzor_qtensor_free(store: &mut QTensors, qt: i64) -> (r: Released)
    requires
        old(store).wf(),
    ensures
        final(store).wf(),
        match old(store).at(qt) {
            None => r is Nothing && *final(store) == *old(store),
            Some(t) => if t.refcount > 1 {
                &&& r is Kept
                &&& final(store).slots@ == old(store).slots@.update(
                    qt - 1,
                    Some(with_count(t, (t.refcount - 1) as usize)),
                )
                &&& final(store).parked@ == old(store).parked@
            } else {
                &&& final(store).slots@ == old(store).slots@.update(qt - 1, None)
                &&& if !t.owns_data() {
                    r is Wrapper && final(store).parked@ == old(store).parked@
                } else if t.scheme != QSCHEME_INT8 {
                    r is Freed && final(store).parked@ == old(store).parked@
                } else {
                    r is Parked && final(store).parked@ == old(store).parked@.push(t)
                }
            },
        },
{
    let k: usize = match lookup(store, qt) {
        Some(k) => k,
        None => {
            return Released::Nothing;
        },
    };
    let mut t: QTensor = take_slot(store, k);
    if t.refcount > 1 {
        t.refcount = t.refcount - 1;
        store.slots.set(k, Some(t));
        return Released::Kept;
    }
    let owned: bool = match &t.data {
        QData::Owned(_) => true,
        QData::Shared(_) => false,
    };
    if !owned {
        return Released::Wrapper;
    }
    if t.scheme != QSCHEME_INT8 {
        return Released::Freed;
    }
    store.parked.push(t);
    Released::Parked
}

/// A tensor that was parked is found by its class.
pub proof fn law_parked_is_found(parked: Seq<QTensor>, t: QTensor)
    ensures
        parked_at(parked.push(t), tensor_key(t), parked.len() as int),
{
}

/// Classes keep formats, shapes and group sizes apart.
pub proof fn law_classes_differ(a: QTensor, b: QTensor)
    requires
        a.scheme <= QSCHEME_Q6_K,
        b.scheme <= QSCHEME_Q6_K,
        tensor_key(a) == tensor_key(b),
    ensures
        a.scheme == b.scheme,
        a.rows == b.rows,
        a.cols == b.cols,
        a.group_size == b.group_size,
{
    let (x, y) = (a.scheme, b.scheme);
    assert((0x80u8 | x) == (0x80u8 | y) ==> x == y) by (bit_vector)
        requires
            x <= 2,
            y <= 2,
    ;
}

/// Bytes of a format: one for each element of INT8, and for each 256 elements 144 of Q4_K_M and 210
/// of Q6_K; there is no other format.
pub proof fn law_format_sizes(scheme: u8, blocks: int, n: int)
    requires
        0 <= n < 256,
    ensures
        bytes_for(0, blocks) == Some(blocks),
        bytes_for(1, 256 * blocks + n) == Some(144 * blocks),
        bytes_for(2, 256 * blocks + n) == Some(210 * blocks),
        scheme > 2 ==> bytes_for(scheme, n) is None,
{
}

/// A byte as a signed number: the same modulo 256, and between -128 and 127.
pub proof fn law_signed_bytes(b: u8)
    ensures
        -128 <= signed(b) <= 127,
        (signed(b) - b) % 256 == 0,
{
}

/// A tensor over the bytes of another object has their address, its shape and groups of 256, and is
/// referred to once.
pub proof fn law_views_of_bytes(scheme: u8, address: usize, rows: i64, cols: i64)
    requires
        rows > 0,
        cols > 0,
        rows * cols <= usize::MAX,
        rows <= usize::MAX,
        cols <= usize::MAX,
    ensures
        ({
            let t = view_of(scheme, address, rows, cols);
            &&& t.data == QData::Shared(address)
            &&& t.meta is None
            &&& t.numel == rows * cols
            &&& t.group_size == 256
            &&& t.scheme == scheme
            &&& t.rows == rows
            &&& t.cols == cols
            &&& t.refcount == 1
        }),
        blocks_fit(rows, cols) <==> (rows * cols) % 256 == 0,
        !blocks_fit(0, cols) && !blocks_fit(rows, 0) && !blocks_fit(-rows as i64, cols),
{
}

} // verus!
