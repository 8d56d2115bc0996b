//! Floating-point values as bit patterns: what can be said of them without arithmetic.

use vstd::prelude::*;

verus! {

/// A half-precision fraction doubled until its leading bit is in place, the exponent falling by
/// one each time, as a single-precision exponent and fraction.
pub open spec fn normalised(fraction: int, exponent: int) -> int
    decreases 2048 - fraction,
{
    if fraction <= 0 {
        0
    } else if fraction >= 1024 {
        exponent * 0x80_0000 + (fraction - 1024) * 8192
    } else {
        normalised(2 * fraction, exponent - 1)
    }
}

/// The single-precision pattern of the value a half-precision pattern stands for. Every half
/// has one; a NaN comes out quiet.
pub open spec fn widened_half(half: u16) -> int {
    let sign = if half >= 0x8000 { 0x8000_0000int } else { 0 };
    let exponent = half as int / 1024 % 32;
    let fraction = half as int % 1024;
    if exponent == 31 && 0 < fraction < 512 {
        sign + 0x7fc0_0000 + fraction * 8192
    } else if exponent == 31 {
        sign + 0x7f80_0000 + fraction * 8192
    } else if exponent == 0 {
        sign + normalised(fraction, 113)
    } else {
        sign + (exponent + 112) * 0x80_0000 + fraction * 8192
    }
}

/// Widens a half-precision bit pattern to single precision.
pub fn half_to_single(half: u16) -> (bits: u32)
    ensures
        bits == widened_half(half),
{
    let sign: u32 = if half >= 0x8000 { 0x8000_0000 } else { 0 };
    let exponent: u32 = (half / 1024 % 32) as u32;
    let fraction: u32 = (half % 1024) as u32;
    if exponent == 31 {
        if 0 < fraction && fraction < 512 {
            sign + 0x7fc0_0000 + fraction * 8192
        } else {
            sign + 0x7f80_0000 + fraction * 8192
        }
    } else if exponent == 0 {
        if fraction == 0 {
            return sign;
        }
        let mut f: u32 = fraction;
        let mut e: u32 = 113;
        while f < 1024
            invariant
                1 <= f < 2048,
                fraction < 1024,
                normalised(f as int, e as int) == normalised(fraction as int, 113),
                e <= 113,
                e >= 103,
                e == 113 ==> f >= 1,
                e == 112 ==> f >= 2,
                e == 111 ==> f >= 4,
                e == 110 ==> f >= 8,
                e == 109 ==> f >= 16,
                e == 108 ==> f >= 32,
                e == 107 ==> f >= 64,
                e == 106 ==> f >= 128,
                e == 105 ==> f >= 256,
                e == 104 ==> f >= 512,
                e == 103 ==> f >= 1024,
            decreases 2048 - f,
        {
            f = 2 * f;
            e = e - 1;
        }
        sign + e * 0x80_0000 + (f - 1024) * 8192
    } else {
        sign + (exponent + 112) * 0x80_0000 + fraction * 8192
    }
}

/// The single-precision pattern of a `bf16`: its bits in the high half, a NaN made quiet.
pub open spec fn widened_brain(brain: u16) -> int {
    if brain % 0x8000 > 0x7f80 && brain % 128 < 64 {
        (brain + 64) * 65536
    } else {
        brain * 65536
    }
}

/// Widens a `bf16` bit pattern to single precision, a NaN made quiet.
pub fn brain_to_single(brain: u16) -> (bits: u32)
    ensures
        bits == widened_brain(brain),
{
    if brain % 0x8000 > 0x7f80 && brain % 128 < 64 {
        (brain as u32 + 64) * 65536
    } else {
        brain as u32 * 65536
    }
}

/// A 16-bit number read low byte first.
pub open spec fn from_le16(bytes: Seq<u8>, at: int) -> int {
    bytes[at] + 256 * bytes[at + 1]
}

/// A 32-bit number read low byte first.
pub open spec fn from_le32(bytes: Seq<u8>, at: int) -> int {
    bytes[at] + 256 * bytes[at + 1] + 65536 * bytes[at + 2] + 16777216 * bytes[at + 3]
}

/// A 64-bit number read low byte first.
pub open spec fn from_le64(bytes: Seq<u8>, at: int) -> int {
    from_le32(bytes, at) + 0x1_0000_0000 * from_le32(bytes, at + 4)
}

/// Reads a 64-bit number, low byte first.
pub fn read_le64(bytes: &[u8], at: usize) -> (n: u64)
    requires
        at + 8 <= bytes@.len(),
    ensures
        n == from_le64(bytes@, at as int),
{
    let len: usize = bytes.len();
    assert(at + 8 <= len);
    read_le32(bytes, at) as u64 + 0x1_0000_0000 * read_le32(bytes, at + 4) as u64
}

/// Reads a 16-bit number, low byte first.
pub fn read_le16(bytes: &[u8], at: usize) -> (n: u16)
    requires
        at + 2 <= bytes@.len(),
    ensures
        n == from_le16(bytes@, at as int),
{
    bytes[at] as u16 + 256 * bytes[at + 1] as u16
}

/// Reads a 32-bit number, low byte first.
pub fn read_le32(bytes: &[u8], at: usize) -> (n: u32)
    requires
        at + 4 <= bytes@.len(),
    ensures
        n == from_le32(bytes@, at as int),
{
    bytes[at] as u32 + 256 * bytes[at + 1] as u32 + 65536 * bytes[at + 2] as u32 + 16777216
        * bytes[at + 3] as u32
}

/// Whether a double-precision bit pattern is not a number.
pub open spec fn double_is_nan(bits: u64) -> bool {
    bits % 0x8000_0000_0000_0000 > 0x7ff0_0000_0000_0000
}

/// Where a double-precision number stands among the others: its magnitude pattern, negated
/// where the sign is set, so that both zeros stand at nought.
pub open spec fn double_rank(bits: u64) -> int {
    if bits >= 0x8000_0000_0000_0000 {
        -(bits - 0x8000_0000_0000_0000)
    } else {
        bits as int
    }
}

/// Whether one double-precision value is greater than another; never where either is not a
/// number.
pub open spec fn double_greater(a: u64, b: u64) -> bool {
    !double_is_nan(a) && !double_is_nan(b) && double_rank(a) > double_rank(b)
}

/// Compares two double-precision bit patterns as the numbers they stand for.
pub fn is_greater(a: u64, b: u64) -> (yes: bool)
    ensures
        yes == double_greater(a, b),
{
    let half: u64 = 0x8000_0000_0000_0000;
    if a % half > 0x7ff0_0000_0000_0000 || b % half > 0x7ff0_0000_0000_0000 {
        return false;
    }
    if a >= half {
        b >= half && a - half < b - half
    } else if b >= half {
        a > 0 || b - half > 0
    } else {
        a > b
    }
}

/// Whether a single-precision bit pattern is not a number.
pub open spec fn single_is_nan(bits: u32) -> bool {
    bits % 0x8000_0000 > 0x7f80_0000
}

/// Where a single-precision number stands among the others.
pub open spec fn single_rank(bits: u32) -> int {
    if bits >= 0x8000_0000 { -(bits - 0x8000_0000) } else { bits as int }
}

/// Whether one single-precision value is greater than another; never where either is not a
/// number.
pub open spec fn single_greater(a: u32, b: u32) -> bool {
    !single_is_nan(a) && !single_is_nan(b) && single_rank(a) > single_rank(b)
}

/// Compares two single-precision bit patterns as the numbers they stand for.
pub fn is_single_greater(a: u32, b: u32) -> (yes: bool)
    ensures
        yes == single_greater(a, b),
{
    let half: u32 = 0x8000_0000;
    if a % half > 0x7f80_0000 || b % half > 0x7f80_0000 {
        return false;
    }
    if a >= half {
        b >= half && a - half < b - half
    } else if b >= half {
        a > 0 || b - half > 0
    } else {
        a > b
    }
}

/// What a finite pattern is worth, its sign aside, counted in the smallest half there is, with
/// `places` of its fraction kept whole: its significand doubled as often as its exponent says.
proof fn lemma_normalised(fraction: int, exponent: int)
    requires
        0 < fraction < 2048,
        exponent >= 103,
        fraction >= 1024 || fraction * vstd::arithmetic::power2::pow2((exponent - 103) as nat) >= 1024,
    ensures
        ({
            let n = normalised(fraction, exponent);
            let (e, f) = (n / 0x80_0000, n % 0x80_0000);
            &&& 103 <= e <= exponent
            &&& (0x80_0000 + f) * vstd::arithmetic::power2::pow2((e - 103) as nat) == fraction * 8192 * vstd::arithmetic::power2::pow2(
                (exponent - 103) as nat,
            )
        }),
    decreases 2048 - fraction,
{
    let p = vstd::arithmetic::power2::pow2((exponent - 103) as nat);
    if fraction >= 1024 {
        let n = normalised(fraction, exponent);
        assert(n == exponent * 0x80_0000 + (fraction - 1024) * 8192);
        assert(n / 0x80_0000 == exponent && n % 0x80_0000 == (fraction - 1024) * 8192);
        assert(0x80_0000 + n % 0x80_0000 == fraction * 8192);
    } else {
        if exponent == 103 {
            vstd::arithmetic::power2::lemma2_to64();
            assert(fraction * 1 == fraction) by (nonlinear_arith);
        }
        let q = vstd::arithmetic::power2::pow2((exponent - 104) as nat);
        vstd::arithmetic::power2::lemma_pow2_unfold((exponent - 103) as nat);
        assert(p == 2 * q);
        assert((2 * fraction) * q == fraction * (2 * q)) by (nonlinear_arith);
        assert((2 * fraction) * 8192 * q == fraction * 8192 * (2 * q)) by (nonlinear_arith);
        lemma_normalised(2 * fraction, exponent - 1);
    }
}

/// Widening keeps the value. A half that is a number is worth its significand, with the hidden bit
/// where it has an exponent, doubled once for each step of that exponent; the single it widens to
/// is worth the same, counted in units 2^46 times smaller. The sign is kept, infinity stays infinity and
/// what is not a number stays none.
pub proof fn law_widening_keeps_the_value(half: u16)
    ensures
        ({
            let wide = widened_half(half);
            let (e, f) = (half as int / 1024 % 32, half as int % 1024);
            let magnitude = wide % 0x8000_0000;
            let (we, wf) = (magnitude / 0x80_0000, magnitude % 0x80_0000);
            let worth = if e == 0 { f } else { (1024 + f) * vstd::arithmetic::power2::pow2((e - 1) as nat) };
            &&& 0 <= wide < 0x1_0000_0000
            &&& wide >= 0x8000_0000 <==> half >= 0x8000
            &&& e == 31 && f == 0 ==> magnitude == 0x7f80_0000
            &&& e == 31 && f > 0 ==> magnitude > 0x7fc0_0000 || magnitude == 0x7fc0_0000
            &&& e < 31 && worth == 0 ==> magnitude == 0
            &&& e < 31 && worth > 0 ==> 103 <= we < 255 && (0x80_0000 + wf) * vstd::arithmetic::power2::pow2(
                (we - 103) as nat,
            ) == worth * 0x80_0000
        }),
{
    let (e, f) = (half as int / 1024 % 32, half as int % 1024);
    let sign = if half >= 0x8000 { 0x8000_0000int } else { 0 };
    vstd::arithmetic::power2::lemma2_to64();
    if e == 0 && f > 0 {
        assert(f * vstd::arithmetic::power2::pow2(10) == f * 1024);
        lemma_normalised(f, 113);
        let n = normalised(f, 113);
        assert(f * 8192 * 1024 == f * 0x80_0000) by (nonlinear_arith);
        assert(0 <= n < 0x8000_0000);
    } else if 0 < e < 31 {
        let n = (e + 112) * 0x80_0000 + f * 8192;
        assert(n / 0x80_0000 == e + 112 && n % 0x80_0000 == f * 8192);
        let p = vstd::arithmetic::power2::pow2((e - 1) as nat);
        vstd::arithmetic::power2::lemma_pow2_adds((e - 1) as nat, 10);
        vstd::arithmetic::power2::lemma_pow2_pos((e - 1) as nat);
        assert(vstd::arithmetic::power2::pow2((e + 9) as nat) == p * 1024);
        assert((8192 * (1024 + f)) * (p * 1024) == ((1024 + f) * p) * 0x80_0000)
            by (nonlinear_arith);
        assert((1024 + f) * p > 0) by (nonlinear_arith)
            requires
                p > 0,
                f >= 0,
        ;
    } else if e == 0 {
        assert(normalised(0, 113) == 0);
    }
}

/// A `bf16` widens to the single it is the high half of; what is not a number stays so, quiet.
pub proof fn law_widening_a_brain_keeps_the_value(brain: u16)
    ensures
        brain % 0x8000 <= 0x7f80 ==> widened_brain(brain) == 0x1_0000 * brain,
        brain % 0x8000 > 0x7f80 ==> widened_brain(brain) / 0x40_0000 % 2 == 1 && widened_brain(brain)
            % 0x8000_0000 > 0x7f80_0000 && (widened_brain(brain) >= 0x8000_0000 <==> brain
            >= 0x8000) && widened_brain(brain) % 0x40_0000 == 0x1_0000 * brain % 0x40_0000,
{
}

/// Numbers are read low byte first.
pub proof fn law_bytes_count_from_the_low_end(bytes: Seq<u8>, at: int)
    ensures
        from_le16(bytes, at) == bytes[at] + 0x100 * bytes[at + 1],
        from_le32(bytes, at) == bytes[at] + 0x100 * bytes[at + 1] + 0x1_0000 * bytes[at + 2]
            + 0x100_0000 * bytes[at + 3],
        from_le64(bytes, at) == bytes[at] + 0x100 * bytes[at + 1] + 0x1_0000 * bytes[at + 2]
            + 0x100_0000 * bytes[at + 3] + 0x1_0000_0000 * bytes[at + 4] + 0x100_0000_0000
            * bytes[at + 5] + 0x1_0000_0000_0000 * bytes[at + 6] + 0x100_0000_0000_0000 * bytes[at
            + 7],
{
}

/// Doubles compare as numbers do: among the positive ones the greater pattern is greater, among
/// the negative ones the smaller, every positive one is greater than every negative one, the two
/// zeros are equal, and what is not a number is greater than nothing and nothing than it.
pub proof fn law_doubles_compare_as_numbers(a: u64, b: u64)
    ensures
        ({
            let sign: int = 0x8000_0000_0000_0000;
            let infinity: int = 0x7ff0_0000_0000_0000;
            &&& a <= infinity && b <= infinity ==> double_greater(a, b) == (a > b)
            &&& sign <= a <= sign + infinity && sign <= b <= sign + infinity ==> double_greater(a, b)
                == (a < b)
            &&& a <= infinity && sign <= b <= sign + infinity ==> double_greater(a, b) == (a > 0
                || b > sign)
            &&& sign <= a <= sign + infinity && b <= infinity ==> !double_greater(a, b)
            &&& infinity < a < sign || a > sign + infinity ==> !double_greater(a, b)
                && !double_greater(b, a)
        }),
{
}

/// Singles compare as numbers do, in the same way.
pub proof fn law_singles_compare_as_numbers(a: u32, b: u32)
    ensures
        ({
            let sign: int = 0x8000_0000;
            let infinity: int = 0x7f80_0000;
            &&& a <= infinity && b <= infinity ==> single_greater(a, b) == (a > b)
            &&& sign <= a <= sign + infinity && sign <= b <= sign + infinity ==> single_greater(a, b)
                == (a < b)
            &&& a <= infinity && sign <= b <= sign + infinity ==> single_greater(a, b) == (a > 0
                || b > sign)
            &&& sign <= a <= sign + infinity && b <= infinity ==> !single_greater(a, b)
            &&& infinity < a < sign || a > sign + infinity ==> !single_greater(a, b)
                && !single_greater(b, a)
        }),
{
}

} // verus!
