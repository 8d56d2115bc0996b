//! How the levels and scales of one quantized block are laid out in bytes.
//!
//! Each `pack_*` function appends exactly one block. The laws at the end read a level or a
//! scale back out of the bytes the way a reader does and find what was put in.

use vstd::prelude::*;
use crate::quantize;

verus! {

/// Two 4-bit values in one byte, the first in the low nibble.
#[verifier::opaque]
pub open spec fn pair(low: u8, high: u8) -> u8 {
    (low % 16 + 16 * (high % 16)) as u8
}

/// Four 2-bit values in one byte, the first in the lowest bits.
#[verifier::opaque]
pub open spec fn quad(a: u8, b: u8, c: u8, d: u8) -> u8 {
    (a % 4 + 4 * (b % 4) + 16 * (c % 4) + 64 * (d % 4)) as u8
}

/// Both nibbles of a paired byte read back.
proof fn lemma_pair(low: u8, high: u8)
    ensures
        pair(low, high) as int % 16 == low as int % 16,
        pair(low, high) as int / 16 == high as int % 16,
{
    reveal(pair);
}

/// All four 2-bit parts of a byte read back.
proof fn lemma_quad(a: u8, b: u8, c: u8, d: u8)
    ensures
        two_bits(quad(a, b, c, d), 0) == a as int % 4,
        two_bits(quad(a, b, c, d), 1) == b as int % 4,
        two_bits(quad(a, b, c, d), 2) == c as int % 4,
        two_bits(quad(a, b, c, d), 3) == d as int % 4,
{
    reveal(quad);
    reveal(two_bits);
    let (x, y, z, w) = (a as int % 4, b as int % 4, c as int % 4, d as int % 4);
    assert(quad(a, b, c, d) == x + 4 * y + 16 * z + 64 * w);
}

/// One when the level has reached the threshold, zero below it.
pub open spec fn reached(level: u8, threshold: u8) -> int {
    if level >= threshold { 1 } else { 0 }
}

fn pair_byte(low: u8, high: u8) -> (byte: u8)
    ensures
        byte == pair(low, high),
{
    proof {
        reveal(pair);
    }
    low % 16 + 16 * (high % 16)
}

fn quad_byte(a: u8, b: u8, c: u8, d: u8) -> (byte: u8)
    ensures
        byte == quad(a, b, c, d),
{
    proof {
        reveal(quad);
    }
    a % 4 + 4 * (b % 4) + 16 * (c % 4) + 64 * (d % 4)
}

fn reached_bit(level: u8, threshold: u8) -> (bit: u8)
    ensures
        bit == reached(level, threshold),
        bit <= 1,
{
    if level >= threshold { 1 } else { 0 }
}

/// The layout the 4- and 5-bit types share: each 64-wide chunk as 32 bytes, its first half
/// in the low nibbles and its second half in the high ones.
pub open spec fn nibble_layout(levels: Seq<u8>) -> Seq<u8> {
    Seq::new(
        128,
        |k: int| pair(levels[64 * (k / 32) + k % 32], levels[64 * (k / 32) + k % 32 + 32]),
    )
}

/// The layout of 2-bit parts: each 128-wide chunk as 32 bytes, four values 32 apart in each.
pub open spec fn quad_layout(levels: Seq<u8>) -> Seq<u8> {
    Seq::new(
        64,
        |k: int|
            quad(
                levels[128 * (k / 32) + k % 32],
                levels[128 * (k / 32) + k % 32 + 32],
                levels[128 * (k / 32) + k % 32 + 64],
                levels[128 * (k / 32) + k % 32 + 96],
            ),
    )
}

/// Eight bits in one byte, the first lowest: whether levels `k`, `k + 32`, `k + 64` and so on
/// have reached the threshold.
#[verifier::opaque]
pub open spec fn mask_byte(levels: Seq<u8>, threshold: u8, k: int) -> u8 {
    (reached(levels[k], threshold) + 2 * reached(levels[k + 32], threshold) + 4 * reached(
        levels[k + 64],
        threshold,
    ) + 8 * reached(levels[k + 96], threshold) + 16 * reached(levels[k + 128], threshold) + 32
        * reached(levels[k + 160], threshold) + 64 * reached(levels[k + 192], threshold) + 128
        * reached(levels[k + 224], threshold)) as u8
}

/// One bit for each of 256 levels, eight of them 32 apart to a byte.
pub open spec fn mask_layout(levels: Seq<u8>, threshold: u8) -> Seq<u8> {
    Seq::new(32, |k: int| mask_byte(levels, threshold, k))
}

fn push_le16(out: &mut Vec<u8>, x: u16)
    ensures
        final(out)@ == old(out)@ + quantize::le16(x),
{
    out.push((x % 256) as u8);
    out.push((x / 256) as u8);
    assert(out@ =~= old(out)@ + quantize::le16(x));
}

fn push_nibbles(out: &mut Vec<u8>, levels: &[u8; 256])
    ensures
        final(out)@ == old(out)@ + nibble_layout(levels@),
{
    let mut k: usize = 0;
    while k < 128
        invariant
            k <= 128,
            out@ == old(out)@ + nibble_layout(levels@).take(k as int),
        decreases 128 - k,
    {
        let at: usize = 64 * (k / 32) + k % 32;
        out.push(pair_byte(levels[at], levels[at + 32]));
        k = k + 1;
        assert(nibble_layout(levels@).take(k as int) =~= nibble_layout(levels@).take(k - 1).push(
            nibble_layout(levels@)[k - 1],
        ));
    }
    assert(nibble_layout(levels@).take(128) =~= nibble_layout(levels@));
}

fn push_quads(out: &mut Vec<u8>, levels: &[u8; 256])
    ensures
        final(out)@ == old(out)@ + quad_layout(levels@),
{
    let mut k: usize = 0;
    while k < 64
        invariant
            k <= 64,
            out@ == old(out)@ + quad_layout(levels@).take(k as int),
        decreases 64 - k,
    {
        let at: usize = 128 * (k / 32) + k % 32;
        out.push(quad_byte(levels[at], levels[at + 32], levels[at + 64], levels[at + 96]));
        k = k + 1;
        assert(quad_layout(levels@).take(k as int) =~= quad_layout(levels@).take(k - 1).push(
            quad_layout(levels@)[k - 1],
        ));
    }
    assert(quad_layout(levels@).take(64) =~= quad_layout(levels@));
}

fn push_mask(out: &mut Vec<u8>, levels: &[u8; 256], threshold: u8)
    ensures
        final(out)@ == old(out)@ + mask_layout(levels@, threshold),
{
    let mut k: usize = 0;
    while k < 32
        invariant
            k <= 32,
            out@ == old(out)@ + mask_layout(levels@, threshold).take(k as int),
        decreases 32 - k,
    {
        let b0: u8 = reached_bit(levels[k], threshold);
        let b1: u8 = reached_bit(levels[k + 32], threshold);
        let b2: u8 = reached_bit(levels[k + 64], threshold);
        let b3: u8 = reached_bit(levels[k + 96], threshold);
        let b4: u8 = reached_bit(levels[k + 128], threshold);
        let b5: u8 = reached_bit(levels[k + 160], threshold);
        let b6: u8 = reached_bit(levels[k + 192], threshold);
        let b7: u8 = reached_bit(levels[k + 224], threshold);
        proof {
            reveal(mask_byte);
        }
        out.push(b0 + 2 * b1 + 4 * b2 + 8 * b3 + 16 * b4 + 32 * b5 + 64 * b6 + 128 * b7);
        k = k + 1;
        assert(mask_layout(levels@, threshold).take(k as int) =~= mask_layout(
            levels@,
            threshold,
        ).take(k - 1).push(mask_layout(levels@, threshold)[k - 1]));
    }
    assert(mask_layout(levels@, threshold).take(32) =~= mask_layout(levels@, threshold));
}

/// Twelve bytes for eight 6-bit scales and eight 6-bit minimums: the first four of each
/// whole, the low nibbles of the last four paired, and their top two bits folded into the
/// high bits of the first four.
pub open spec fn scale_min_layout(scales: Seq<u8>, mins: Seq<u8>) -> Seq<u8> {
    Seq::new(
        12,
        |k: int|
            if k < 4 {
                (scales[k] + 64 * (scales[k + 4] / 16)) as u8
            } else if k < 8 {
                (mins[k - 4] + 64 * (mins[k] / 16)) as u8
            } else {
                pair(scales[k - 4], mins[k - 4])
            },
    )
}

/// The 6-bit scale and minimum of sub-block `j`, as a reader takes them out of the twelve
/// bytes.
pub open spec fn scale_min_at(packed: Seq<u8>, j: int) -> (int, int) {
    if j < 4 {
        (packed[j] as int % 64, packed[j + 4] as int % 64)
    } else {
        (packed[j + 4] % 16 + 16 * (packed[j - 4] / 64), packed[j + 4] / 16 + 16 * (packed[j] / 64))
    }
}

pub open spec fn all_below(values: Seq<u8>, bound: int) -> bool {
    forall|i: int| 0 <= i < values.len() ==> #[trigger] values[i] < bound
}

/// A 6-bit value and the top two bits of another, folded into one byte, both read back.
proof fn lemma_fold(low: u8, other: u8)
    requires
        low < 64,
        other < 64,
    ensures
        (low + 64 * (other / 16)) as u8 == low + 64 * (other / 16),
        (low + 64 * (other / 16)) % 64 == low,
        (low + 64 * (other / 16)) / 64 == other as int / 16,
        other as int % 16 + 16 * (other as int / 16) == other,
{
}

proof fn lemma_scale_min(scales: Seq<u8>, mins: Seq<u8>, j: int)
    requires
        scales.len() == 8,
        mins.len() == 8,
        all_below(scales, 64),
        all_below(mins, 64),
        0 <= j < 8,
    ensures
        scale_min_at(scale_min_layout(scales, mins), j) == (scales[j] as int, mins[j] as int),
{
    let packed = scale_min_layout(scales, mins);
    let low = j % 4;
    assert(scales[low] < 64 && scales[low + 4] < 64 && mins[low] < 64 && mins[low + 4] < 64);
    lemma_fold(scales[low], scales[low + 4]);
    lemma_fold(mins[low], mins[low + 4]);
    if j < 4 {
        assert(packed[j] == scales[j] + 64 * (scales[j + 4] / 16));
        assert(packed[j + 4] == mins[j] + 64 * (mins[j + 4] / 16));
    } else {
        lemma_pair(scales[j], mins[j]);
        assert(low == j - 4);
        assert(packed[j + 4] == pair(scales[j], mins[j]));
        assert(packed[j - 4] == scales[j - 4] + 64 * (scales[j] / 16));
        assert(packed[j] == mins[j - 4] + 64 * (mins[j] / 16));
    }
}

/// Packs eight scales and eight minimums of six bits each. Reading sub-block `j` back gives
/// exactly the scale and minimum that went in.
pub fn pack_scale_min(scales: &[u8; 8], mins: &[u8; 8]) -> (packed: [u8; 12])
    requires
        all_below(scales@, 64),
        all_below(mins@, 64),
    ensures
        packed@ == scale_min_layout(scales@, mins@),
        forall|j: int|
            0 <= j < 8 ==> #[trigger] scale_min_at(packed@, j) == (scales@[j] as int, mins@[j] as int),
{
    let mut packed: [u8; 12] = [0u8; 12];
    let mut j: usize = 0;
    while j < 4
        invariant
            j <= 4,
            all_below(scales@, 64),
            all_below(mins@, 64),
            packed@.len() == 12,
            forall|k: int| 0 <= k < j ==> packed@[k] == scale_min_layout(scales@, mins@)[k],
            forall|k: int| 4 <= k < 4 + j ==> packed@[k] == scale_min_layout(scales@, mins@)[k],
            forall|k: int| 8 <= k < 8 + j ==> packed@[k] == scale_min_layout(scales@, mins@)[k],
        decreases 4 - j,
    {
        packed[j] = scales[j] + 64 * (scales[j + 4] / 16);
        packed[j + 4] = mins[j] + 64 * (mins[j + 4] / 16);
        packed[j + 8] = pair_byte(scales[j + 4], mins[j + 4]);
        j = j + 1;
    }
    assert(packed@ =~= scale_min_layout(scales@, mins@));
    assert forall|j: int| 0 <= j < 8 implies #[trigger] scale_min_at(packed@, j) == (
        scales@[j] as int,
        mins@[j] as int,
    ) by {
        lemma_scale_min(scales@, mins@, j);
    }
    packed
}

/// The 6-bit scale and minimum for sub-block `j`, read back out of the twelve packed bytes
/// exactly as a reader does.
pub fn unpack_scale_min(j: usize, packed: &[u8; 12]) -> (scale_and_min: (u8, u8))
    requires
        j < 8,
    ensures
        (scale_and_min.0 as int, scale_and_min.1 as int) == scale_min_at(packed@, j as int),
{
    if j < 4 {
        (packed[j] % 64, packed[j + 4] % 64)
    } else {
        (packed[j + 4] % 16 + 16 * (packed[j - 4] / 64), packed[j + 4] / 16 + 16 * (packed[j] / 64))
    }
}

/// A signed 6-bit scale as it is stored, with 32 added.
pub open spec fn stored_scale(scale: i8) -> u8 {
    (scale + 32) as u8
}

/// Twelve bytes for sixteen signed 6-bit scales: the low nibbles of scales `k` and `k + 8`
/// paired in byte `k`, and the top two bits of scales `k`, `k + 4`, `k + 8` and `k + 12` in
/// byte `8 + k`.
pub open spec fn signed_scale_layout(scales: Seq<i8>) -> Seq<u8> {
    Seq::new(
        12,
        |k: int|
            if k < 8 {
                pair(stored_scale(scales[k]), stored_scale(scales[k + 8]))
            } else {
                quad(
                    stored_scale(scales[k - 8]) / 16,
                    stored_scale(scales[k - 4]) / 16,
                    stored_scale(scales[k]) / 16,
                    stored_scale(scales[k + 4]) / 16,
                )
            },
    )
}

/// Two bits of a byte: the pair `which`, counted from the lowest.
#[verifier::opaque]
pub open spec fn two_bits(byte: u8, which: int) -> int {
    if which == 0 {
        byte as int % 4
    } else if which == 1 {
        byte as int / 4 % 4
    } else if which == 2 {
        byte as int / 16 % 4
    } else {
        byte as int / 64
    }
}

/// The signed scale of sub-block `j`, as a reader takes it out of the twelve bytes.
pub open spec fn signed_scale_at(packed: Seq<u8>, j: int) -> int {
    let low = if j < 8 { packed[j] as int % 16 } else { packed[j - 8] as int / 16 };
    low + 16 * two_bits(packed[8 + j % 4], j / 4) - 32
}

pub open spec fn six_bit_signed(scales: Seq<i8>) -> bool {
    forall|i: int| 0 <= i < scales.len() ==> -32 <= #[trigger] scales[i] <= 31
}

proof fn lemma_signed_scale(scales: Seq<i8>, j: int)
    requires
        scales.len() == 16,
        six_bit_signed(scales),
        0 <= j < 16,
    ensures
        signed_scale_at(signed_scale_layout(scales), j) == scales[j],
{
    let packed = signed_scale_layout(scales);
    let k = j % 4;
    let stored = stored_scale(scales[j]);
    assert(-32 <= scales[j] <= 31);
    assert(stored == scales[j] + 32);
    assert(signed_scale_at(packed, j) == stored as int % 16 + 16 * (stored as int / 16) - 32) by {
        let (a, b, c, d) = (
            stored_scale(scales[k]) / 16,
            stored_scale(scales[k + 4]) / 16,
            stored_scale(scales[k + 8]) / 16,
            stored_scale(scales[k + 12]) / 16,
        );
        assert(packed[8 + k] == quad(a, b, c, d));
        lemma_quad(a, b, c, d);
        assert(two_bits(packed[8 + k], j / 4) == stored as int / 16) by {
            if j < 4 {
                assert(j == k && j / 4 == 0);
            } else if j < 8 {
                assert(j == k + 4 && j / 4 == 1);
            } else if j < 12 {
                assert(j == k + 8 && j / 4 == 2);
            } else {
                assert(j == k + 12 && j / 4 == 3);
            }
        }
        if j < 8 {
            lemma_pair(stored, stored_scale(scales[j + 8]));
            assert(packed[j] == pair(stored, stored_scale(scales[j + 8])));
        } else {
            lemma_pair(stored_scale(scales[j - 8]), stored);
            assert(packed[j - 8] == pair(stored_scale(scales[j - 8]), stored));
        }
    }
}

/// Packs sixteen signed 6-bit scales. Reading sub-block `j` back gives exactly the scale that
/// went in.
pub fn pack_signed_scales(scales: &[i8; 16]) -> (packed: [u8; 12])
    requires
        six_bit_signed(scales@),
    ensures
        packed@ == signed_scale_layout(scales@),
        forall|j: int| 0 <= j < 16 ==> #[trigger] signed_scale_at(packed@, j) == scales@[j],
{
    let mut packed: [u8; 12] = [0u8; 12];
    let mut k: usize = 0;
    while k < 8
        invariant
            k <= 8,
            six_bit_signed(scales@),
            packed@.len() == 12,
            forall|i: int| 0 <= i < k ==> #[trigger] packed@[i] == signed_scale_layout(scales@)[i],
        decreases 8 - k,
    {
        packed[k] = pair_byte((scales[k] + 32) as u8, (scales[k + 8] + 32) as u8);
        k = k + 1;
    }
    let mut m: usize = 0;
    while m < 4
        invariant
            m <= 4,
            six_bit_signed(scales@),
            packed@.len() == 12,
            forall|i: int| 0 <= i < 8 ==> packed@[i] == signed_scale_layout(scales@)[i],
            forall|i: int| 8 <= i < 8 + m ==> packed@[i] == signed_scale_layout(scales@)[i],
        decreases 4 - m,
    {
        packed[m + 8] = quad_byte(
            (scales[m] + 32) as u8 / 16,
            (scales[m + 4] + 32) as u8 / 16,
            (scales[m + 8] + 32) as u8 / 16,
            (scales[m + 12] + 32) as u8 / 16,
        );
        m = m + 1;
    }
    assert(packed@ =~= signed_scale_layout(scales@));
    assert forall|j: int| 0 <= j < 16 implies #[trigger] signed_scale_at(packed@, j)
        == scales@[j] by {
        lemma_signed_scale(scales@, j);
    }
    packed
}

/// The signed 6-bit scale for sub-block `j`, read back out of the twelve packed bytes exactly
/// as a reader does.
pub fn unpack_signed_scale(j: usize, packed: &[u8; 12]) -> (scale: i32)
    requires
        j < 16,
    ensures
        scale == signed_scale_at(packed@, j as int),
{
    let low: u8 = if j < 8 { packed[j] % 16 } else { packed[j - 8] / 16 };
    let byte: u8 = packed[8 + j % 4];
    let which: usize = j / 4;
    let high: u8 = if which == 0 {
        byte % 4
    } else if which == 1 {
        byte / 4 % 4
    } else if which == 2 {
        byte / 16 % 4
    } else {
        byte / 64
    };
    proof {
        reveal(two_bits);
    }
    (low + 16 * high) as i32 - 32
}

/// A `Q2_K` block: sixteen 16-wide sub-blocks, each with a 4-bit scale and a 4-bit minimum
/// against a shared half-precision pair, and 2-bit quants.
#[derive(Debug, Clone, PartialEq, Eq)]
pub struct Q2Block {
    pub d: u16,
    pub dmin: u16,
    pub scales: [u8; 16],
    pub mins: [u8; 16],
    pub quants: [u8; 256],
}

impl Q2Block {
    pub open spec fn wf(&self) -> bool {
        all_below(self.scales@, 16) && all_below(self.mins@, 16) && all_below(self.quants@, 4)
    }

    /// The block's 84 bytes: paired scales and minimums, quants, the two factors.
    pub open spec fn bytes(&self) -> Seq<u8> {
        Seq::new(16, |k: int| pair(self.scales@[k], self.mins@[k])) + quad_layout(self.quants@)
            + quantize::le16(self.d) + quantize::le16(self.dmin)
    }
}

/// Appends one `Q2_K` block.
pub fn pack_q2_k(block: &Q2Block, out: &mut Vec<u8>)
    requires
        block.wf(),
    ensures
        final(out)@ == old(out)@ + block.bytes(),
{
    let ghost heads = Seq::new(16, |k: int| pair(block.scales@[k], block.mins@[k]));
    let mut k: usize = 0;
    while k < 16
        invariant
            k <= 16,
            heads == Seq::new(16, |k: int| pair(block.scales@[k], block.mins@[k])),
            out@ == old(out)@ + heads.take(k as int),
        decreases 16 - k,
    {
        out.push(pair_byte(block.scales[k], block.mins[k]));
        k = k + 1;
        assert(heads.take(k as int) =~= heads.take(k - 1).push(heads[k - 1]));
    }
    assert(heads.take(16) =~= heads);
    push_quads(out, &block.quants);
    push_le16(out, block.d);
    push_le16(out, block.dmin);
    assert(out@ =~= old(out)@ + block.bytes());
}

/// A `Q3_K` block: sixteen 16-wide sub-blocks with signed 6-bit scales against one factor, and
/// 3-bit levels, stored with four added to the signed quant.
#[derive(Debug, Clone, PartialEq, Eq)]
pub struct Q3Block {
    pub d: u16,
    pub scales: [i8; 16],
    pub levels: [u8; 256],
}

impl Q3Block {
    pub open spec fn wf(&self) -> bool {
        six_bit_signed(self.scales@) && all_below(self.levels@, 8)
    }

    /// The block's 110 bytes: the high bit of every level, the low two bits, scales, factor.
    pub open spec fn bytes(&self) -> Seq<u8> {
        mask_layout(self.levels@, 4) + quad_layout(self.levels@) + signed_scale_layout(
            self.scales@,
        ) + quantize::le16(self.d)
    }
}

fn push_packed(out: &mut Vec<u8>, packed: &[u8; 12])
    ensures
        final(out)@ == old(out)@ + packed@,
{
    let mut k: usize = 0;
    while k < 12
        invariant
            k <= 12,
            out@ == old(out)@ + packed@.take(k as int),
        decreases 12 - k,
    {
        out.push(packed[k]);
        k = k + 1;
        assert(packed@.take(k as int) =~= packed@.take(k - 1).push(packed@[k - 1]));
    }
    assert(packed@.take(12) =~= packed@);
}

/// Appends one `Q3_K` block.
pub fn pack_q3_k(block: &Q3Block, out: &mut Vec<u8>)
    requires
        block.wf(),
    ensures
        final(out)@ == old(out)@ + block.bytes(),
{
    push_mask(out, &block.levels, 4);
    push_quads(out, &block.levels);
    let packed = pack_signed_scales(&block.scales);
    push_packed(out, &packed);
    push_le16(out, block.d);
    assert(out@ =~= old(out)@ + block.bytes());
}

/// A `Q4_K` or `Q5_K` block: eight 32-wide sub-blocks, each with a 6-bit scale and a 6-bit
/// minimum against a shared half-precision pair, and 4- or 5-bit quants.
#[derive(Debug, Clone, PartialEq, Eq)]
pub struct AffineBlock {
    pub d: u16,
    pub dmin: u16,
    pub scales: [u8; 8],
    pub mins: [u8; 8],
    pub quants: [u8; 256],
}

impl AffineBlock {
    pub open spec fn wf(&self, levels: int) -> bool {
        all_below(self.scales@, 64) && all_below(self.mins@, 64) && all_below(self.quants@, levels)
    }

    /// The sixteen bytes both widths start with: the two factors and the packed scales.
    pub open spec fn head(&self) -> Seq<u8> {
        quantize::le16(self.d) + quantize::le16(self.dmin) + scale_min_layout(
            self.scales@,
            self.mins@,
        )
    }

    /// The block's 144 bytes at four bits a quant.
    pub open spec fn four_bit_bytes(&self) -> Seq<u8> {
        self.head() + nibble_layout(self.quants@)
    }

    /// The block's 176 bytes at five bits a quant, the fifth bits in a mask of their own.
    pub open spec fn five_bit_bytes(&self) -> Seq<u8> {
        self.head() + mask_layout(self.quants@, 16) + nibble_layout(self.quants@)
    }
}

fn push_affine_head(block: &AffineBlock, out: &mut Vec<u8>)
    requires
        all_below(block.scales@, 64),
        all_below(block.mins@, 64),
    ensures
        final(out)@ == old(out)@ + block.head(),
{
    push_le16(out, block.d);
    push_le16(out, block.dmin);
    let packed = pack_scale_min(&block.scales, &block.mins);
    push_packed(out, &packed);
    assert(out@ =~= old(out)@ + block.head());
}

/// Appends one `Q4_K` block.
pub fn pack_q4_k(block: &AffineBlock, out: &mut Vec<u8>)
    requires
        block.wf(16),
    ensures
        final(out)@ == old(out)@ + block.four_bit_bytes(),
{
    push_affine_head(block, out);
    push_nibbles(out, &block.quants);
    assert(out@ =~= old(out)@ + block.four_bit_bytes());
}

/// Appends one `Q5_K` block.
pub fn pack_q5_k(block: &AffineBlock, out: &mut Vec<u8>)
    requires
        block.wf(32),
    ensures
        final(out)@ == old(out)@ + block.five_bit_bytes(),
{
    push_affine_head(block, out);
    push_mask(out, &block.quants, 16);
    push_nibbles(out, &block.quants);
    assert(out@ =~= old(out)@ + block.five_bit_bytes());
}

/// A `Q6_K` block: sixteen 16-wide sub-blocks with signed 8-bit scales against one factor, and
/// signed 6-bit quants.
#[derive(Debug, Clone, PartialEq, Eq)]
pub struct Q6Block {
    pub d: u16,
    pub scales: [i8; 16],
    pub quants: [i8; 256],
}

/// A signed byte as its two's-complement bit pattern.
pub open spec fn byte_of(value: i8) -> u8 {
    if value < 0 { (value + 256) as u8 } else { value as u8 }
}

/// The layout of the low nibbles of 6-bit quants: each 128-wide chunk as 64 bytes, values 64
/// apart paired.
pub open spec fn wide_nibble_layout(levels: Seq<u8>) -> Seq<u8> {
    Seq::new(
        128,
        |k: int| pair(levels[128 * (k / 64) + k % 64], levels[128 * (k / 64) + k % 64 + 64]),
    )
}

impl Q6Block {
    pub open spec fn wf(&self) -> bool {
        six_bit_signed(self.quants@)
    }

    /// The quants as they are stored, with 32 added.
    pub open spec fn stored(&self) -> Seq<u8> {
        Seq::new(256, |k: int| stored_scale(self.quants@[k]))
    }

    /// The block's 210 bytes: low nibbles, high bit pairs, scales, factor.
    pub open spec fn bytes(&self) -> Seq<u8> {
        wide_nibble_layout(self.stored()) + quad_layout(
            Seq::new(256, |k: int| self.stored()[k] / 16),
        ) + Seq::new(16, |k: int| byte_of(self.scales@[k])) + quantize::le16(self.d)
    }
}

fn push_wide_nibbles(out: &mut Vec<u8>, levels: &[u8; 256])
    ensures
        final(out)@ == old(out)@ + wide_nibble_layout(levels@),
{
    let mut k: usize = 0;
    while k < 128
        invariant
            k <= 128,
            out@ == old(out)@ + wide_nibble_layout(levels@).take(k as int),
        decreases 128 - k,
    {
        let at: usize = 128 * (k / 64) + k % 64;
        out.push(pair_byte(levels[at], levels[at + 64]));
        k = k + 1;
        assert(wide_nibble_layout(levels@).take(k as int) =~= wide_nibble_layout(levels@).take(
            k - 1,
        ).push(wide_nibble_layout(levels@)[k - 1]));
    }
    assert(wide_nibble_layout(levels@).take(128) =~= wide_nibble_layout(levels@));
}

/// Appends one `Q6_K` block.
pub fn pack_q6_k(block: &Q6Block, out: &mut Vec<u8>)
    requires
        block.wf(),
    ensures
        final(out)@ == old(out)@ + block.bytes(),
{
    let mut stored: [u8; 256] = [0u8; 256];
    let mut tops: [u8; 256] = [0u8; 256];
    let mut k: usize = 0;
    while k < 256
        invariant
            k <= 256,
            block.wf(),
            stored@.len() == 256,
            tops@.len() == 256,
            forall|i: int| 0 <= i < k ==> #[trigger] stored@[i] == block.stored()[i],
            forall|i: int| 0 <= i < k ==> #[trigger] tops@[i] == block.stored()[i] / 16,
        decreases 256 - k,
    {
        let level: u8 = (block.quants[k] + 32) as u8;
        stored[k] = level;
        tops[k] = level / 16;
        k = k + 1;
    }
    assert(stored@ =~= block.stored());
    assert(tops@ =~= Seq::new(256, |k: int| block.stored()[k] / 16));
    push_wide_nibbles(out, &stored);
    push_quads(out, &tops);
    let ghost before = out@;
    let ghost tail = Seq::new(16, |k: int| byte_of(block.scales@[k]));
    let mut j: usize = 0;
    while j < 16
        invariant
            j <= 16,
            tail == Seq::new(16, |k: int| byte_of(block.scales@[k])),
            out@ == before + tail.take(j as int),
        decreases 16 - j,
    {
        let scale: i8 = block.scales[j];
        let byte: u8 = if scale < 0 { (scale as i16 + 256) as u8 } else { scale as u8 };
        out.push(byte);
        j = j + 1;
        assert(tail.take(j as int) =~= tail.take(j - 1).push(tail[j - 1]));
    }
    assert(tail.take(16) =~= tail);
    push_le16(out, block.d);
    assert(out@ =~= old(out)@ + block.bytes());
}

/// An `IQ4_NL` block: 32 indices into the non-linear codebook and one factor.
#[derive(Debug, Clone, PartialEq, Eq)]
pub struct Iq4NlBlock {
    pub d: u16,
    pub levels: [u8; 32],
}

impl Iq4NlBlock {
    pub open spec fn wf(&self) -> bool {
        all_below(self.levels@, 16)
    }

    /// The block's 18 bytes: the factor, then values 16 apart paired.
    pub open spec fn bytes(&self) -> Seq<u8> {
        quantize::le16(self.d) + Seq::new(16, |k: int| pair(self.levels@[k], self.levels@[k + 16]))
    }
}

/// Appends one `IQ4_NL` block.
pub fn pack_iq4_nl(block: &Iq4NlBlock, out: &mut Vec<u8>)
    requires
        block.wf(),
    ensures
        final(out)@ == old(out)@ + block.bytes(),
{
    push_le16(out, block.d);
    let ghost before = out@;
    let ghost tail = Seq::new(16, |k: int| pair(block.levels@[k], block.levels@[k + 16]));
    let mut k: usize = 0;
    while k < 16
        invariant
            k <= 16,
            tail == Seq::new(16, |k: int| pair(block.levels@[k], block.levels@[k + 16])),
            out@ == before + tail.take(k as int),
        decreases 16 - k,
    {
        out.push(pair_byte(block.levels[k], block.levels[k + 16]));
        k = k + 1;
        assert(tail.take(k as int) =~= tail.take(k - 1).push(tail[k - 1]));
    }
    assert(tail.take(16) =~= tail);
    assert(out@ =~= old(out)@ + block.bytes());
}

/// An `IQ4_XS` block: eight 32-wide sub-blocks of codebook indices, each with a signed 6-bit
/// scale against one factor.
#[derive(Debug, Clone, PartialEq, Eq)]
pub struct Iq4XsBlock {
    pub d: u16,
    pub scales: [i8; 8],
    pub levels: [u8; 256],
}

/// The six bytes of an `IQ4_XS` block's scales: the top two bits of all eight, then their low
/// nibbles paired.
pub open spec fn xs_scale_layout(scales: Seq<i8>) -> Seq<u8> {
    Seq::new(
        6,
        |k: int|
            if k < 2 {
                quad(
                    stored_scale(scales[4 * k]) / 16,
                    stored_scale(scales[4 * k + 1]) / 16,
                    stored_scale(scales[4 * k + 2]) / 16,
                    stored_scale(scales[4 * k + 3]) / 16,
                )
            } else {
                pair(stored_scale(scales[2 * (k - 2)]), stored_scale(scales[2 * (k - 2) + 1]))
            },
    )
}

/// The layout of codebook indices: each 32-wide sub-block as 16 bytes, values 16 apart paired.
pub open spec fn narrow_nibble_layout(levels: Seq<u8>) -> Seq<u8> {
    Seq::new(
        128,
        |k: int| pair(levels[32 * (k / 16) + k % 16], levels[32 * (k / 16) + k % 16 + 16]),
    )
}

impl Iq4XsBlock {
    pub open spec fn wf(&self) -> bool {
        six_bit_signed(self.scales@) && all_below(self.levels@, 16)
    }

    /// The block's 136 bytes: the factor, the scales, the indices.
    pub open spec fn bytes(&self) -> Seq<u8> {
        quantize::le16(self.d) + xs_scale_layout(self.scales@) + narrow_nibble_layout(self.levels@)
    }
}

fn push_xs_scales(out: &mut Vec<u8>, scales: &[i8; 8])
    requires
        six_bit_signed(scales@),
    ensures
        final(out)@ == old(out)@ + xs_scale_layout(scales@),
{
    let ghost layout = xs_scale_layout(scales@);
    let mut k: usize = 0;
    while k < 6
        invariant
            k <= 6,
            six_bit_signed(scales@),
            layout == xs_scale_layout(scales@),
            out@ == old(out)@ + layout.take(k as int),
        decreases 6 - k,
    {
        if k < 2 {
            out.push(
                quad_byte(
                    (scales[4 * k] + 32) as u8 / 16,
                    (scales[4 * k + 1] + 32) as u8 / 16,
                    (scales[4 * k + 2] + 32) as u8 / 16,
                    (scales[4 * k + 3] + 32) as u8 / 16,
                ),
            );
        } else {
            let at: usize = 2 * (k - 2);
            out.push(pair_byte((scales[at] + 32) as u8, (scales[at + 1] + 32) as u8));
        }
        k = k + 1;
        assert(layout.take(k as int) =~= layout.take(k - 1).push(layout[k - 1]));
    }
    assert(layout.take(6) =~= layout);
}

/// Appends one `IQ4_XS` block.
pub fn pack_iq4_xs(block: &Iq4XsBlock, out: &mut Vec<u8>)
    requires
        block.wf(),
    ensures
        final(out)@ == old(out)@ + block.bytes(),
{
    push_le16(out, block.d);
    push_xs_scales(out, &block.scales);
    let ghost before = out@;
    let ghost tail = narrow_nibble_layout(block.levels@);
    let mut k: usize = 0;
    while k < 128
        invariant
            k <= 128,
            tail == narrow_nibble_layout(block.levels@),
            out@ == before + tail.take(k as int),
        decreases 128 - k,
    {
        let at: usize = 32 * (k / 16) + k % 16;
        out.push(pair_byte(block.levels[at], block.levels[at + 16]));
        k = k + 1;
        assert(tail.take(k as int) =~= tail.take(k - 1).push(tail[k - 1]));
    }
    assert(tail.take(128) =~= tail);
    assert(out@ =~= old(out)@ + block.bytes());
}

/// Bit `which` of a byte, counted from the lowest.
#[verifier::opaque]
pub open spec fn bit_at(byte: u8, which: int) -> int {
    if which == 0 {
        byte as int % 2
    } else if which == 1 {
        byte as int / 2 % 2
    } else if which == 2 {
        byte as int / 4 % 2
    } else if which == 3 {
        byte as int / 8 % 2
    } else if which == 4 {
        byte as int / 16 % 2
    } else if which == 5 {
        byte as int / 32 % 2
    } else if which == 6 {
        byte as int / 64 % 2
    } else {
        byte as int / 128
    }
}

/// The low or the high nibble of a byte.
pub open spec fn nibble_at(byte: u8, high: bool) -> int {
    if high { byte as int / 16 } else { byte as int % 16 }
}

proof fn lemma_bits(b0: int, b1: int, b2: int, b3: int, b4: int, b5: int, b6: int, b7: int)
    requires
        0 <= b0 <= 1,
        0 <= b1 <= 1,
        0 <= b2 <= 1,
        0 <= b3 <= 1,
        0 <= b4 <= 1,
        0 <= b5 <= 1,
        0 <= b6 <= 1,
        0 <= b7 <= 1,
    ensures
        ({
            let byte = (b0 + 2 * b1 + 4 * b2 + 8 * b3 + 16 * b4 + 32 * b5 + 64 * b6 + 128
                * b7) as u8;
            &&& bit_at(byte, 0) == b0
            &&& bit_at(byte, 1) == b1
            &&& bit_at(byte, 2) == b2
            &&& bit_at(byte, 3) == b3
            &&& bit_at(byte, 4) == b4
            &&& bit_at(byte, 5) == b5
            &&& bit_at(byte, 6) == b6
            &&& bit_at(byte, 7) == b7
        }),
{
    reveal(bit_at);
}

/// The mask byte and bit of a level say whether it has reached the threshold.
proof fn lemma_mask(levels: Seq<u8>, threshold: u8, i: int)
    requires
        levels.len() == 256,
        0 <= i < 256,
    ensures
        bit_at(mask_layout(levels, threshold)[i % 32], i / 32) == reached(levels[i], threshold),
{
    reveal(mask_byte);
    let k = i % 32;
    lemma_bits(
        reached(levels[k], threshold),
        reached(levels[k + 32], threshold),
        reached(levels[k + 64], threshold),
        reached(levels[k + 96], threshold),
        reached(levels[k + 128], threshold),
        reached(levels[k + 160], threshold),
        reached(levels[k + 192], threshold),
        reached(levels[k + 224], threshold),
    );
    assert(i == k + 32 * (i / 32));
}

proof fn lemma_quad_layout(levels: Seq<u8>, i: int)
    requires
        levels.len() == 256,
        0 <= i < 256,
    ensures
        two_bits(quad_layout(levels)[32 * (i / 128) + i % 32], i % 128 / 32) == levels[i] as int
            % 4,
{
    let k = 32 * (i / 128) + i % 32;
    assert(k / 32 == i / 128 && k % 32 == i % 32);
    let at = 128 * (k / 32) + k % 32;
    lemma_quad(levels[at], levels[at + 32], levels[at + 64], levels[at + 96]);
    assert(i == at + 32 * (i % 128 / 32));
}

proof fn lemma_nibble_layout(levels: Seq<u8>, i: int)
    requires
        levels.len() == 256,
        0 <= i < 256,
    ensures
        nibble_at(nibble_layout(levels)[32 * (i / 64) + i % 32], i % 64 >= 32) == levels[i] as int
            % 16,
{
    let k = 32 * (i / 64) + i % 32;
    assert(k / 32 == i / 64 && k % 32 == i % 32);
    let at = 64 * (k / 32) + k % 32;
    lemma_pair(levels[at], levels[at + 32]);
    assert(i == if i % 64 >= 32 { at + 32 } else { at });
}

/// A `Q2_K` block fills the bytes its type is sized at, and every scale, minimum and quant
/// reads back out of them.
#[verifier::spinoff_prover]
pub proof fn law_q2_k_reads_back(block: Q2Block)
    requires
        block.wf(),
    ensures
        block.bytes().len() == quantize::block_bytes(quantize::GGML_TYPE_Q2_K),
        forall|j: int|
            #![trigger block.scales@[j]]
            0 <= j < 16 ==> nibble_at(block.bytes()[j], false) == block.scales@[j] && nibble_at(
                block.bytes()[j],
                true,
            ) == block.mins@[j],
        forall|i: int|
            #![trigger block.quants@[i]]
            0 <= i < 256 ==> two_bits(block.bytes()[16 + 32 * (i / 128) + i % 32], i % 128 / 32)
                == block.quants@[i],
{
    assert forall|j: int|
        #![trigger block.scales@[j]]
        0 <= j < 16 implies nibble_at(block.bytes()[j], false) == block.scales@[j] && nibble_at(
        block.bytes()[j],
        true,
    ) == block.mins@[j] by {
        lemma_pair(block.scales@[j], block.mins@[j]);
        assert(block.scales@[j] < 16 && block.mins@[j] < 16);
    }
    assert forall|i: int| #![trigger block.quants@[i]] 0 <= i < 256 implies two_bits(
        block.bytes()[16 + 32 * (i / 128) + i % 32],
        i % 128 / 32,
    ) == block.quants@[i] by {
        lemma_quad_layout(block.quants@, i);
        assert(block.bytes()[16 + 32 * (i / 128) + i % 32] == quad_layout(block.quants@)[32 * (i
            / 128) + i % 32]);
    }
}

/// A `Q3_K` block fills the bytes its type is sized at, and every scale and level reads back
/// out of them.
#[verifier::spinoff_prover]
pub proof fn law_q3_k_reads_back(block: Q3Block)
    requires
        block.wf(),
    ensures
        block.bytes().len() == quantize::block_bytes(quantize::GGML_TYPE_Q3_K),
        forall|j: int|
            #![trigger block.scales@[j]]
            0 <= j < 16 ==> signed_scale_at(block.bytes().subrange(96, 108), j) == block.scales@[j],
        forall|i: int|
            #![trigger block.levels@[i]]
            0 <= i < 256 ==> two_bits(block.bytes()[32 + 32 * (i / 128) + i % 32], i % 128 / 32) + 4
                * bit_at(block.bytes()[i % 32], i / 32) == block.levels@[i],
{
    assert forall|j: int| #![trigger block.scales@[j]] 0 <= j < 16 implies signed_scale_at(
        block.bytes().subrange(96, 108),
        j,
    ) == block.scales@[j] by {
        lemma_q3_scale(block, j);
    }
    assert forall|i: int| #![trigger block.levels@[i]] 0 <= i < 256 implies two_bits(
        block.bytes()[32 + 32 * (i / 128) + i % 32],
        i % 128 / 32,
    ) + 4 * bit_at(block.bytes()[i % 32], i / 32) == block.levels@[i] by {
        lemma_q3_level(block, i);
    }
}

proof fn lemma_q3_scale(block: Q3Block, j: int)
    requires
        block.wf(),
        0 <= j < 16,
    ensures
        signed_scale_at(block.bytes().subrange(96, 108), j) == block.scales@[j],
{
    assert(block.bytes().subrange(96, 108) =~= signed_scale_layout(block.scales@));
    lemma_signed_scale(block.scales@, j);
}

/// Where a level's high bit and its low two stand.
proof fn lemma_q3_places(block: Q3Block, i: int)
    requires
        block.wf(),
        0 <= i < 256,
    ensures
        block.bytes()[i % 32] == mask_layout(block.levels@, 4)[i % 32],
        block.bytes()[32 + 32 * (i / 128) + i % 32] == quad_layout(block.levels@)[32 * (i / 128) + i
            % 32],
{
}

proof fn lemma_q3_level(block: Q3Block, i: int)
    requires
        block.wf(),
        0 <= i < 256,
    ensures
        two_bits(block.bytes()[32 + 32 * (i / 128) + i % 32], i % 128 / 32) + 4 * bit_at(
            block.bytes()[i % 32],
            i / 32,
        ) == block.levels@[i],
{
    lemma_q3_places(block, i);
    lemma_quad_layout(block.levels@, i);
    lemma_mask(block.levels@, 4, i);
    assert(block.levels@[i] < 8);
}

/// A `Q4_K` block fills the bytes its type is sized at, and every scale, minimum and quant
/// reads back out of them.
#[verifier::spinoff_prover]
pub proof fn law_q4_k_reads_back(block: AffineBlock)
    requires
        block.wf(16),
    ensures
        block.four_bit_bytes().len() == quantize::block_bytes(quantize::GGML_TYPE_Q4_K),
        forall|j: int|
            #![trigger block.scales@[j]]
            0 <= j < 8 ==> scale_min_at(block.four_bit_bytes().subrange(4, 16), j) == (
                block.scales@[j] as int,
                block.mins@[j] as int,
            ),
        forall|i: int|
            #![trigger block.quants@[i]]
            0 <= i < 256 ==> nibble_at(
                block.four_bit_bytes()[16 + 32 * (i / 64) + i % 32],
                i % 64 >= 32,
            ) == block.quants@[i],
{
    let packed = scale_min_layout(block.scales@, block.mins@);
    assert(block.four_bit_bytes().subrange(4, 16) =~= packed);
    assert forall|j: int| #![trigger block.scales@[j]] 0 <= j < 8 implies scale_min_at(
        block.four_bit_bytes().subrange(4, 16),
        j,
    ) == (block.scales@[j] as int, block.mins@[j] as int) by {
        lemma_scale_min(block.scales@, block.mins@, j);
    }
    assert forall|i: int| #![trigger block.quants@[i]] 0 <= i < 256 implies nibble_at(
        block.four_bit_bytes()[16 + 32 * (i / 64) + i % 32],
        i % 64 >= 32,
    ) == block.quants@[i] by {
        lemma_nibble_layout(block.quants@, i);
        assert(block.four_bit_bytes()[16 + 32 * (i / 64) + i % 32] == nibble_layout(
            block.quants@,
        )[32 * (i / 64) + i % 32]);
        assert(block.quants@[i] < 16);
    }
}

/// A `Q5_K` block fills the bytes its type is sized at, and every scale, minimum and quant
/// reads back out of them.
#[verifier::spinoff_prover]
pub proof fn law_q5_k_reads_back(block: AffineBlock)
    requires
        block.wf(32),
    ensures
        block.five_bit_bytes().len() == quantize::block_bytes(quantize::GGML_TYPE_Q5_K),
        forall|j: int|
            #![trigger block.scales@[j]]
            0 <= j < 8 ==> scale_min_at(block.five_bit_bytes().subrange(4, 16), j) == (
                block.scales@[j] as int,
                block.mins@[j] as int,
            ),
        forall|i: int|
            #![trigger block.quants@[i]]
            0 <= i < 256 ==> nibble_at(
                block.five_bit_bytes()[48 + 32 * (i / 64) + i % 32],
                i % 64 >= 32,
            ) + 16 * bit_at(block.five_bit_bytes()[16 + i % 32], i / 32) == block.quants@[i],
{
    let packed = scale_min_layout(block.scales@, block.mins@);
    assert(block.five_bit_bytes().subrange(4, 16) =~= packed);
    assert forall|j: int| #![trigger block.scales@[j]] 0 <= j < 8 implies scale_min_at(
        block.five_bit_bytes().subrange(4, 16),
        j,
    ) == (block.scales@[j] as int, block.mins@[j] as int) by {
        lemma_scale_min(block.scales@, block.mins@, j);
    }
    assert forall|i: int| #![trigger block.quants@[i]] 0 <= i < 256 implies nibble_at(
        block.five_bit_bytes()[48 + 32 * (i / 64) + i % 32],
        i % 64 >= 32,
    ) + 16 * bit_at(block.five_bit_bytes()[16 + i % 32], i / 32) == block.quants@[i] by {
        lemma_nibble_layout(block.quants@, i);
        lemma_mask(block.quants@, 16, i);
        assert(block.five_bit_bytes()[48 + 32 * (i / 64) + i % 32] == nibble_layout(
            block.quants@,
        )[32 * (i / 64) + i % 32]);
        assert(block.five_bit_bytes()[16 + i % 32] == mask_layout(block.quants@, 16)[i % 32]);
        assert(block.quants@[i] < 32);
    }
}

/// A `Q6_K` block fills the bytes its type is sized at, and every scale and quant reads back
/// out of them.
#[verifier::spinoff_prover]
pub proof fn law_q6_k_reads_back(block: Q6Block)
    requires
        block.wf(),
    ensures
        block.bytes().len() == quantize::block_bytes(quantize::GGML_TYPE_Q6_K),
        forall|j: int|
            #![trigger block.scales@[j]]
            0 <= j < 16 ==> block.bytes()[192 + j] == byte_of(block.scales@[j]),
        forall|i: int|
            #![trigger block.quants@[i]]
            0 <= i < 256 ==> nibble_at(block.bytes()[64 * (i / 128) + i % 64], i % 128 >= 64) + 16
                * two_bits(block.bytes()[128 + 32 * (i / 128) + i % 32], i % 128 / 32) - 32
                == block.quants@[i],
{
    let stored = block.stored();
    let tops = Seq::new(256, |k: int| stored[k] / 16);
    assert forall|i: int| #![trigger block.quants@[i]] 0 <= i < 256 implies nibble_at(
        block.bytes()[64 * (i / 128) + i % 64],
        i % 128 >= 64,
    ) + 16 * two_bits(block.bytes()[128 + 32 * (i / 128) + i % 32], i % 128 / 32) - 32
        == block.quants@[i] by {
        let k = 64 * (i / 128) + i % 64;
        assert(k / 64 == i / 128 && k % 64 == i % 64);
        let at = 128 * (k / 64) + k % 64;
        lemma_pair(stored[at], stored[at + 64]);
        assert(i == if i % 128 >= 64 { at + 64 } else { at });
        lemma_quad_layout(tops, i);
        assert(block.bytes()[k] == wide_nibble_layout(stored)[k]);
        assert(block.bytes()[128 + 32 * (i / 128) + i % 32] == quad_layout(tops)[32 * (i / 128) + i
            % 32]);
        assert(-32 <= block.quants@[i] <= 31);
        assert(stored[i] == block.quants@[i] + 32);
    }
}

/// An `IQ4_NL` block fills the bytes its type is sized at, and every index reads back out of
/// them.
#[verifier::spinoff_prover]
pub proof fn law_iq4_nl_reads_back(block: Iq4NlBlock)
    requires
        block.wf(),
    ensures
        block.bytes().len() == quantize::block_bytes(quantize::GGML_TYPE_IQ4_NL),
        forall|i: int|
            #![trigger block.levels@[i]]
            0 <= i < 32 ==> nibble_at(block.bytes()[2 + i % 16], i >= 16) == block.levels@[i],
{
    assert forall|i: int| #![trigger block.levels@[i]] 0 <= i < 32 implies nibble_at(
        block.bytes()[2 + i % 16],
        i >= 16,
    ) == block.levels@[i] by {
        lemma_pair(block.levels@[i % 16], block.levels@[i % 16 + 16]);
        assert(block.levels@[i] < 16);
        assert(i == if i >= 16 { i % 16 + 16 } else { i % 16 });
    }
}

/// An `IQ4_XS` block fills the bytes its type is sized at, and every scale and index reads back
/// out of them.
#[verifier::spinoff_prover]
pub proof fn law_iq4_xs_reads_back(block: Iq4XsBlock)
    requires
        block.wf(),
    ensures
        block.bytes().len() == quantize::block_bytes(quantize::GGML_TYPE_IQ4_XS),
        forall|j: int|
            #![trigger block.scales@[j]]
            0 <= j < 8 ==> nibble_at(block.bytes()[4 + j / 2], j % 2 == 1) + 16 * two_bits(
                block.bytes()[2 + j / 4],
                j % 4,
            ) - 32 == block.scales@[j],
        forall|i: int|
            #![trigger block.levels@[i]]
            0 <= i < 256 ==> nibble_at(block.bytes()[8 + 16 * (i / 32) + i % 16], i % 32 >= 16)
                == block.levels@[i],
{
    let layout = xs_scale_layout(block.scales@);
    assert forall|j: int| #![trigger block.scales@[j]] 0 <= j < 8 implies nibble_at(
        block.bytes()[4 + j / 2],
        j % 2 == 1,
    ) + 16 * two_bits(block.bytes()[2 + j / 4], j % 4) - 32 == block.scales@[j] by {
        let s = block.scales@;
        let h = 4 * (j / 4);
        lemma_quad(
            stored_scale(s[h]) / 16,
            stored_scale(s[h + 1]) / 16,
            stored_scale(s[h + 2]) / 16,
            stored_scale(s[h + 3]) / 16,
        );
        let l = 2 * (j / 2);
        lemma_pair(stored_scale(s[l]), stored_scale(s[l + 1]));
        assert(block.bytes()[4 + j / 2] == layout[2 + j / 2]);
        assert(block.bytes()[2 + j / 4] == layout[j / 4]);
        assert(-32 <= s[j] <= 31);
        assert(j == h + j % 4 && j == l + j % 2);
    }
    assert forall|i: int| #![trigger block.levels@[i]] 0 <= i < 256 implies nibble_at(
        block.bytes()[8 + 16 * (i / 32) + i % 16],
        i % 32 >= 16,
    ) == block.levels@[i] by {
        let k = 16 * (i / 32) + i % 16;
        assert(k / 16 == i / 32 && k % 16 == i % 16);
        let at = 32 * (k / 16) + k % 16;
        lemma_pair(block.levels@[at], block.levels@[at + 16]);
        assert(i == if i % 32 >= 16 { at + 16 } else { at });
        assert(block.bytes()[8 + k] == narrow_nibble_layout(block.levels@)[k]);
        assert(block.levels@[i] < 16);
    }
}

/// The two bytes of a 16-bit number, low byte first.
proof fn lemma_le16(bytes: Seq<u8>, at: int, x: u16)
    requires
        0 <= at,
        at + 2 <= bytes.len(),
        bytes.subrange(at, at + 2) == quantize::le16(x),
    ensures
        bytes[at] + 256 * bytes[at + 1] == x,
{
    let part = bytes.subrange(at, at + 2);
    assert(bytes[at] == part[0] && bytes[at + 1] == part[1]);
    assert(x % 256 + 256 * (x / 256) == x);
}

/// The factors of every block stand where a reader looks for them, low byte first: of the affine
/// blocks the scales' factor comes before the minimums', at the front; a `Q2_K` block ends in the
/// two, a `Q3_K` and a `Q6_K` block in their one; and the two codebook blocks begin with theirs.
/// Each block is exactly as long as that leaves it.
pub proof fn law_every_factor_reads_back(
    two: Q2Block,
    three: Q3Block,
    affine: AffineBlock,
    six: Q6Block,
    narrow: Iq4NlBlock,
    wide: Iq4XsBlock,
)
    ensures
        two.bytes().len() == 84,
        two.bytes()[80] + 256 * two.bytes()[81] == two.d,
        two.bytes()[82] + 256 * two.bytes()[83] == two.dmin,
        three.bytes().len() == 110,
        three.bytes()[108] + 256 * three.bytes()[109] == three.d,
        affine.four_bit_bytes().len() == 144,
        affine.four_bit_bytes()[0] + 256 * affine.four_bit_bytes()[1] == affine.d,
        affine.four_bit_bytes()[2] + 256 * affine.four_bit_bytes()[3] == affine.dmin,
        affine.five_bit_bytes().len() == 176,
        affine.five_bit_bytes()[0] + 256 * affine.five_bit_bytes()[1] == affine.d,
        affine.five_bit_bytes()[2] + 256 * affine.five_bit_bytes()[3] == affine.dmin,
        six.bytes().len() == 210,
        six.bytes()[208] + 256 * six.bytes()[209] == six.d,
        narrow.bytes().len() == 18,
        narrow.bytes()[0] + 256 * narrow.bytes()[1] == narrow.d,
        wide.bytes().len() == 136,
        wide.bytes()[0] + 256 * wide.bytes()[1] == wide.d,
{
    assert(two.bytes().subrange(80, 82) =~= quantize::le16(two.d));
    assert(two.bytes().subrange(82, 84) =~= quantize::le16(two.dmin));
    lemma_le16(two.bytes(), 80, two.d);
    lemma_le16(two.bytes(), 82, two.dmin);
    assert(three.bytes().subrange(108, 110) =~= quantize::le16(three.d));
    lemma_le16(three.bytes(), 108, three.d);
    let (four, five) = (affine.four_bit_bytes(), affine.five_bit_bytes());
    assert(four.subrange(0, 2) =~= quantize::le16(affine.d));
    assert(four.subrange(2, 4) =~= quantize::le16(affine.dmin));
    assert(five.subrange(0, 2) =~= quantize::le16(affine.d));
    assert(five.subrange(2, 4) =~= quantize::le16(affine.dmin));
    lemma_le16(four, 0, affine.d);
    lemma_le16(four, 2, affine.dmin);
    lemma_le16(five, 0, affine.d);
    lemma_le16(five, 2, affine.dmin);
    assert(six.bytes().subrange(208, 210) =~= quantize::le16(six.d));
    lemma_le16(six.bytes(), 208, six.d);
    assert(narrow.bytes().subrange(0, 2) =~= quantize::le16(narrow.d));
    lemma_le16(narrow.bytes(), 0, narrow.d);
    assert(wide.bytes().subrange(0, 2) =~= quantize::le16(wide.d));
    lemma_le16(wide.bytes(), 0, wide.d);
}

/// A byte that holds four 2-bit values has nothing else in it: the first counts once, the next
/// four times, the next sixteen and the last sixty-four times.
proof fn lemma_quad_sum(a: u8, b: u8, c: u8, d: u8)
    requires
        a < 4,
        b < 4,
        c < 4,
        d < 4,
    ensures
        quad(a, b, c, d) == a + 4 * b + 16 * c + 64 * d,
{
    reveal(quad);
}

proof fn lemma_pair_sum(low: u8, high: u8)
    requires
        low < 16,
        high < 16,
    ensures
        pair(low, high) == low + 16 * high,
{
    reveal(pair);
}

/// A `Q2_K` block's bytes are worth the values in them: a sub-block's scale plus sixteen times
/// its minimum; and of each half of the quants the ones 32 apart, the first counting least.
pub proof fn law_q2_k_bytes_are_worth_their_values(block: Q2Block, j: int, h: int, l: int)
    requires
        block.wf(),
        0 <= j < 16,
        0 <= h < 2,
        0 <= l < 32,
    ensures
        block.bytes()[j] == block.scales@[j] + 16 * block.mins@[j],
        block.bytes()[16 + 32 * h + l] == block.quants@[128 * h + l] + 4 * block.quants@[128 * h
            + l + 32] + 16 * block.quants@[128 * h + l + 64] + 64 * block.quants@[128 * h + l + 96],
{
    lemma_pair_sum(block.scales@[j], block.mins@[j]);
    let at = 128 * h + l;
    let k = 32 * h + l;
    assert(k / 32 == h && k % 32 == l);
    assert(block.quants@[at] < 4 && block.quants@[at + 32] < 4 && block.quants@[at + 64] < 4
        && block.quants@[at + 96] < 4);
    lemma_quad_sum(
        block.quants@[at],
        block.quants@[at + 32],
        block.quants@[at + 64],
        block.quants@[at + 96],
    );
    assert(block.bytes()[16 + k] == quad_layout(block.quants@)[k]);
}

/// A `Q3_K` block's bytes are worth the values in them: of each half of the levels the low two
/// bits of the ones 32 apart, and of all of them the high bits, a mask byte holding those 32
/// apart.
pub proof fn law_q3_k_bytes_are_worth_their_levels(block: Q3Block, h: int, l: int)
    requires
        block.wf(),
        0 <= h < 2,
        0 <= l < 32,
    ensures
        block.bytes()[32 + 32 * h + l] == block.levels@[128 * h + l] % 4 + 4 * (block.levels@[128
            * h + l + 32] % 4) + 16 * (block.levels@[128 * h + l + 64] % 4) + 64 * (
        block.levels@[128 * h + l + 96] % 4),
        block.bytes()[l] == block.levels@[l] / 4 + 2 * (block.levels@[l + 32] / 4) + 4 * (
        block.levels@[l + 64] / 4) + 8 * (block.levels@[l + 96] / 4) + 16 * (block.levels@[l + 128]
            / 4) + 32 * (block.levels@[l + 160] / 4) + 64 * (block.levels@[l + 192] / 4) + 128 * (
        block.levels@[l + 224] / 4),
{
    let k = 32 * h + l;
    assert(k / 32 == h && k % 32 == l);
    let at = 128 * h + l;
    assert(at / 128 == h && at % 32 == l);
    lemma_q3_places(block, at);
    lemma_q3_places(block, l);
    lemma_q3_low(block.levels@, k);
    lemma_q3_mask(block.levels@, l);
}

proof fn lemma_q3_low(levels: Seq<u8>, k: int)
    requires
        levels.len() == 256,
        0 <= k < 64,
    ensures
        quad_layout(levels)[k] == levels[128 * (k / 32) + k % 32] % 4 + 4 * (levels[128 * (k / 32)
            + k % 32 + 32] % 4) + 16 * (levels[128 * (k / 32) + k % 32 + 64] % 4) + 64 * (
        levels[128 * (k / 32) + k % 32 + 96] % 4),
{
    reveal(quad);
}

proof fn lemma_q3_mask(levels: Seq<u8>, l: int)
    requires
        levels.len() == 256,
        all_below(levels, 8),
        0 <= l < 32,
    ensures
        mask_layout(levels, 4)[l] == levels[l] / 4 + 2 * (levels[l + 32] / 4) + 4 * (levels[l + 64]
            / 4) + 8 * (levels[l + 96] / 4) + 16 * (levels[l + 128] / 4) + 32 * (levels[l + 160]
            / 4) + 64 * (levels[l + 192] / 4) + 128 * (levels[l + 224] / 4),
{
    reveal(mask_byte);
    assert forall|i: int| 0 <= i < 256 implies reached(#[trigger] levels[i], 4) == levels[i] / 4 by {
        assert(levels[i] < 8);
    }
}

/// A `Q3_K` block's scales, with 32 added: the low nibbles of two sub-blocks 8 apart share a
/// byte, and the top bits of four sub-blocks 4 apart another.
pub proof fn law_q3_k_scales_stand_in_six_bits(block: Q3Block, j: int)
    requires
        block.wf(),
        0 <= j < 4,
    ensures
        block.scales@[j] == block.bytes()[96 + j] as int % 16 + 16 * (block.bytes()[104 + j] as int
            % 4) - 32,
        block.scales@[j + 4] == block.bytes()[100 + j] as int % 16 + 16 * (
        block.bytes()[104 + j] as int / 4 % 4) - 32,
        block.scales@[j + 8] == block.bytes()[96 + j] as int / 16 + 16 * (
        block.bytes()[104 + j] as int / 16 % 4) - 32,
        block.scales@[j + 12] == block.bytes()[100 + j] as int / 16 + 16 * (
        block.bytes()[104 + j] as int / 64) - 32,
{
    lemma_q3_scale(block, j);
    lemma_q3_scale(block, j + 4);
    lemma_q3_scale(block, j + 8);
    lemma_q3_scale(block, j + 12);
    reveal(two_bits);
    let packed = block.bytes().subrange(96, 108);
    assert(packed[j] == block.bytes()[96 + j] && packed[j + 4] == block.bytes()[100 + j]
        && packed[8 + j] == block.bytes()[104 + j]);
    assert((j + 4) % 4 == j && (j + 8) % 4 == j && (j + 12) % 4 == j && j % 4 == j);
    assert((j + 4) / 4 == 1 && (j + 8) / 4 == 2 && (j + 12) / 4 == 3 && j / 4 == 0);
}

/// The scales and minimums of an affine block, read out of its bytes: the first four of each
/// stand whole in six bits, the last four in a nibble each and the two bits above the first.
pub proof fn law_affine_scales_stand_in_six_bits(block: AffineBlock, j: int)
    requires
        all_below(block.scales@, 64),
        all_below(block.mins@, 64),
        0 <= j < 4,
    ensures
        block.four_bit_bytes().take(16) == block.five_bit_bytes().take(16),
        block.scales@[j] == block.four_bit_bytes()[4 + j] as int % 64,
        block.mins@[j] == block.four_bit_bytes()[8 + j] as int % 64,
        block.scales@[j + 4] == block.four_bit_bytes()[12 + j] as int % 16 + 16 * (
        block.four_bit_bytes()[4 + j] as int / 64),
        block.mins@[j + 4] == block.four_bit_bytes()[12 + j] as int / 16 + 16 * (
        block.four_bit_bytes()[8 + j] as int / 64),
{
    assert(block.four_bit_bytes().take(16) =~= block.head());
    assert(block.five_bit_bytes().take(16) =~= block.head());
    lemma_scale_min(block.scales@, block.mins@, j);
    lemma_scale_min(block.scales@, block.mins@, j + 4);
    let packed = scale_min_layout(block.scales@, block.mins@);
    assert(block.four_bit_bytes().subrange(4, 16) =~= packed);
    assert forall|m: int| 0 <= m < 12 implies #[trigger] packed[m] == block.four_bit_bytes()[4
        + m] by {
        assert(packed[m] == block.four_bit_bytes().subrange(4, 16)[m]);
    }
    assert(packed[j] == block.four_bit_bytes()[4 + j]);
    assert(packed[j + 4] == block.four_bit_bytes()[8 + j]);
    assert(packed[j + 8] == block.four_bit_bytes()[12 + j]);
}

/// An affine block's quants: each byte is worth one of them plus sixteen times the one 32 on, of
/// every 64 in turn; the fifth bits stand before that, a mask byte holding those 32 apart.
pub proof fn law_affine_bytes_are_worth_their_values(block: AffineBlock, c: int, l: int)
    requires
        all_below(block.quants@, 32),
        0 <= c < 4,
        0 <= l < 32,
    ensures
        block.four_bit_bytes()[16 + 32 * c + l] == block.quants@[64 * c + l] % 16 + 16 * (
        block.quants@[64 * c + l + 32] % 16),
        block.five_bit_bytes()[48 + 32 * c + l] == block.quants@[64 * c + l] % 16 + 16 * (
        block.quants@[64 * c + l + 32] % 16),
        block.five_bit_bytes()[16 + l] == block.quants@[l] / 16 + 2 * (block.quants@[l + 32] / 16)
            + 4 * (block.quants@[l + 64] / 16) + 8 * (block.quants@[l + 96] / 16) + 16 * (
        block.quants@[l + 128] / 16) + 32 * (block.quants@[l + 160] / 16) + 64 * (block.quants@[l
            + 192] / 16) + 128 * (block.quants@[l + 224] / 16),
{
    let k = 32 * c + l;
    assert(k / 32 == c && k % 32 == l);
    reveal(pair);
    reveal(mask_byte);
    assert(block.four_bit_bytes()[16 + k] == nibble_layout(block.quants@)[k]);
    assert(block.five_bit_bytes()[48 + k] == nibble_layout(block.quants@)[k]);
    assert(block.five_bit_bytes()[16 + l] == mask_layout(block.quants@, 16)[l]);
    assert forall|i: int| 0 <= i < 256 implies reached(#[trigger] block.quants@[i], 16)
        == block.quants@[i] / 16 by {
        assert(block.quants@[i] < 32);
    }
}

/// A `Q6_K` block's quants, with 32 added: the low nibbles of two 64 apart share a byte, the top
/// bits of four 32 apart another, of each half in turn. Its scales stand as signed bytes.
pub proof fn law_q6_k_bytes_are_worth_their_values(block: Q6Block, j: int, h: int, l: int)
    requires
        block.wf(),
        0 <= j < 16,
        0 <= h < 2,
        0 <= l < 32,
    ensures
        block.bytes()[192 + j] == if block.scales@[j] < 0 {
            block.scales@[j] + 256
        } else {
            block.scales@[j] as int
        },
        block.quants@[128 * h + l] == block.bytes()[64 * h + l] as int % 16 + 16 * (
        block.bytes()[128 + 32 * h + l] as int % 4) - 32,
        block.quants@[128 * h + l + 32] == block.bytes()[64 * h + l + 32] as int % 16 + 16 * (
        block.bytes()[128 + 32 * h + l] as int / 4 % 4) - 32,
        block.quants@[128 * h + l + 64] == block.bytes()[64 * h + l] as int / 16 + 16 * (
        block.bytes()[128 + 32 * h + l] as int / 16 % 4) - 32,
        block.quants@[128 * h + l + 96] == block.bytes()[64 * h + l + 32] as int / 16 + 16 * (
        block.bytes()[128 + 32 * h + l] as int / 64) - 32,
{
    law_q6_k_reads_back(block);
    reveal(two_bits);
    let at = 128 * h + l;
    assert(at / 128 == h && at % 64 == l && at % 32 == l && at % 128 == l);
    let b = at + 32;
    assert(b / 128 == h && b % 64 == l + 32 && b % 32 == l && b % 128 == l + 32);
    let c = at + 64;
    assert(c / 128 == h && c % 64 == l && c % 32 == l && c % 128 == l + 64);
    let d = at + 96;
    assert(d / 128 == h && d % 64 == l + 32 && d % 32 == l && d % 128 == l + 96);
    assert(block.quants@[at] == block.quants@[at] && block.quants@[b] == block.quants@[b]
        && block.quants@[c] == block.quants@[c] && block.quants@[d] == block.quants@[d]);
    assert(block.scales@[j] == block.scales@[j]);
}

/// The bytes of the two codebook blocks: each is worth one index plus sixteen times the one 16
/// on, of every 32 in turn; and of an `IQ4_XS` block's scales, with 32 added, two neighbours' low
/// nibbles share a byte and four neighbours' top bits another.
pub proof fn law_codebook_bytes_are_worth_their_values(
    narrow: Iq4NlBlock,
    wide: Iq4XsBlock,
    j: int,
    c: int,
    l: int,
)
    requires
        narrow.wf(),
        wide.wf(),
        0 <= j < 2,
        0 <= c < 8,
        0 <= l < 16,
    ensures
        narrow.bytes()[2 + l] == narrow.levels@[l] + 16 * narrow.levels@[l + 16],
        wide.bytes()[8 + 16 * c + l] == wide.levels@[32 * c + l] + 16 * wide.levels@[32 * c + l
            + 16],
        wide.scales@[4 * j] == wide.bytes()[4 + 2 * j] as int % 16 + 16 * (wide.bytes()[2
            + j] as int % 4) - 32,
        wide.scales@[4 * j + 1] == wide.bytes()[4 + 2 * j] as int / 16 + 16 * (wide.bytes()[2
            + j] as int / 4 % 4) - 32,
        wide.scales@[4 * j + 2] == wide.bytes()[5 + 2 * j] as int % 16 + 16 * (wide.bytes()[2
            + j] as int / 16 % 4) - 32,
        wide.scales@[4 * j + 3] == wide.bytes()[5 + 2 * j] as int / 16 + 16 * (wide.bytes()[2
            + j] as int / 64) - 32,
{
    lemma_pair_sum(narrow.levels@[l], narrow.levels@[l + 16]);
    let k = 16 * c + l;
    assert(k / 16 == c && k % 16 == l);
    let at = 32 * c + l;
    assert(wide.levels@[at] < 16 && wide.levels@[at + 16] < 16);
    lemma_pair_sum(wide.levels@[at], wide.levels@[at + 16]);
    assert(wide.bytes()[8 + k] == narrow_nibble_layout(wide.levels@)[k]);
    law_iq4_xs_reads_back(wide);
    reveal(two_bits);
    let m = 4 * j;
    assert(m / 2 == 2 * j && m % 2 == 0 && m / 4 == j && m % 4 == 0);
    assert((m + 1) / 2 == 2 * j && (m + 1) % 2 == 1 && (m + 1) / 4 == j && (m + 1) % 4 == 1);
    assert((m + 2) / 2 == 2 * j + 1 && (m + 2) % 2 == 0 && (m + 2) / 4 == j && (m + 2) % 4 == 2);
    assert((m + 3) / 2 == 2 * j + 1 && (m + 3) % 2 == 1 && (m + 3) / 4 == j && (m + 3) % 4 == 3);
    let s = wide.scales@;
    assert(s[m] == s[m] && s[m + 1] == s[m + 1] && s[m + 2] == s[m + 2] && s[m + 3] == s[m + 3]);
}

} // verus!
