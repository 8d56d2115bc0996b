//! The GGUF weight formats: what each type is called, how many bytes a row of it takes,
//! and how the fitted levels and scales of a block are laid out in those bytes.
//!
//! Fitting a scale to a block of weights is floating-point work and lives outside this
//! library. What it produces is integers: levels, packed scales and the bit patterns of
//! the half-precision factors. From there to the bytes of the file everything is here.

use vstd::prelude::*;

verus! {

pub const GGML_TYPE_F32: u32 = 0;
pub const GGML_TYPE_F16: u32 = 1;
pub const GGML_TYPE_Q2_K: u32 = 10;
pub const GGML_TYPE_Q3_K: u32 = 11;
pub const GGML_TYPE_Q4_K: u32 = 12;
pub const GGML_TYPE_Q5_K: u32 = 13;
pub const GGML_TYPE_Q6_K: u32 = 14;
pub const GGML_TYPE_Q8_K: u32 = 15;
pub const GGML_TYPE_IQ2_XXS: u32 = 16;
pub const GGML_TYPE_IQ2_XS: u32 = 17;
pub const GGML_TYPE_IQ3_XXS: u32 = 18;
pub const GGML_TYPE_IQ1_S: u32 = 19;
pub const GGML_TYPE_IQ4_NL: u32 = 20;
pub const GGML_TYPE_IQ3_S: u32 = 21;
pub const GGML_TYPE_IQ2_S: u32 = 22;
pub const GGML_TYPE_IQ4_XS: u32 = 23;
pub const GGML_TYPE_I8: u32 = 24;
pub const GGML_TYPE_I16: u32 = 25;
pub const GGML_TYPE_I32: u32 = 26;
pub const GGML_TYPE_I64: u32 = 27;
pub const GGML_TYPE_F64: u32 = 28;
pub const GGML_TYPE_IQ1_M: u32 = 29;
pub const GGML_TYPE_BF16: u32 = 30;

/// The super-block width every K-quant works in.
pub const QK_K: usize = 256;

/// The block width `IQ4_NL` works in: the only 32-wide type left, and so the only place a
/// row that does not divide 256 can still be four bits.
pub const QK: usize = 32;

/// `IQ4_NL`'s sixteen levels, crowded near zero where trained weights are.
pub const IQ4_VALUES: [i8; 16] = [
    -127, -104, -83, -65, -49, -35, -22, -10, 1, 13, 25, 38, 53, 69, 89, 113,
];

/// The types whose block is a 256-wide super-block.
pub open spec fn super_block_type(ggml_type: u32) -> bool {
    GGML_TYPE_Q2_K <= ggml_type <= GGML_TYPE_IQ1_S || GGML_TYPE_IQ3_S <= ggml_type
        <= GGML_TYPE_IQ4_XS || ggml_type == GGML_TYPE_IQ1_M
}

/// How many elements one block of a type holds: 256 for the super-block types, 32 for
/// `IQ4_NL`, one for everything else.
pub open spec fn block_size_spec(ggml_type: u32) -> nat {
    if super_block_type(ggml_type) {
        256
    } else if ggml_type == GGML_TYPE_IQ4_NL {
        32
    } else {
        1
    }
}

/// Elements in one block of the type.
pub fn block_size(ggml_type: u32) -> (size: usize)
    ensures
        size == block_size_spec(ggml_type),
{
    match ggml_type {
        GGML_TYPE_Q2_K | GGML_TYPE_Q3_K | GGML_TYPE_Q4_K | GGML_TYPE_Q5_K | GGML_TYPE_Q6_K
        | GGML_TYPE_Q8_K | GGML_TYPE_IQ2_XXS | GGML_TYPE_IQ2_XS | GGML_TYPE_IQ2_S
        | GGML_TYPE_IQ3_XXS | GGML_TYPE_IQ3_S | GGML_TYPE_IQ1_S | GGML_TYPE_IQ1_M
        | GGML_TYPE_IQ4_XS => QK_K,
        GGML_TYPE_IQ4_NL => QK,
        _ => 1,
    }
}

/// The name the format gives a type number; `?` for a number it does not define.
pub open spec fn ggml_type_name_spec(ggml_type: u32) -> Seq<char> {
    match ggml_type {
        GGML_TYPE_F32 => "F32"@,
        GGML_TYPE_F16 => "F16"@,
        GGML_TYPE_BF16 => "BF16"@,
        GGML_TYPE_F64 => "F64"@,
        GGML_TYPE_I8 => "I8"@,
        GGML_TYPE_I16 => "I16"@,
        GGML_TYPE_I32 => "I32"@,
        GGML_TYPE_I64 => "I64"@,
        GGML_TYPE_Q2_K => "Q2_K"@,
        GGML_TYPE_Q3_K => "Q3_K"@,
        GGML_TYPE_Q4_K => "Q4_K"@,
        GGML_TYPE_Q5_K => "Q5_K"@,
        GGML_TYPE_Q6_K => "Q6_K"@,
        GGML_TYPE_Q8_K => "Q8_K"@,
        GGML_TYPE_IQ1_S => "IQ1_S"@,
        GGML_TYPE_IQ1_M => "IQ1_M"@,
        GGML_TYPE_IQ2_XXS => "IQ2_XXS"@,
        GGML_TYPE_IQ2_XS => "IQ2_XS"@,
        GGML_TYPE_IQ2_S => "IQ2_S"@,
        GGML_TYPE_IQ3_XXS => "IQ3_XXS"@,
        GGML_TYPE_IQ3_S => "IQ3_S"@,
        GGML_TYPE_IQ4_NL => "IQ4_NL"@,
        GGML_TYPE_IQ4_XS => "IQ4_XS"@,
        _ => "?"@,
    }
}

/// Every type the format defines that these tools have any business naming: what they
/// write, and what they may find in a file they are asked to convert.
pub fn ggml_type_name(ggml_type: u32) -> (name: &'static str)
    ensures
        name@ == ggml_type_name_spec(ggml_type),
{
    match ggml_type {
        GGML_TYPE_F32 => "F32",
        GGML_TYPE_F16 => "F16",
        GGML_TYPE_BF16 => "BF16",
        GGML_TYPE_F64 => "F64",
        GGML_TYPE_I8 => "I8",
        GGML_TYPE_I16 => "I16",
        GGML_TYPE_I32 => "I32",
        GGML_TYPE_I64 => "I64",
        GGML_TYPE_Q2_K => "Q2_K",
        GGML_TYPE_Q3_K => "Q3_K",
        GGML_TYPE_Q4_K => "Q4_K",
        GGML_TYPE_Q5_K => "Q5_K",
        GGML_TYPE_Q6_K => "Q6_K",
        GGML_TYPE_Q8_K => "Q8_K",
        GGML_TYPE_IQ1_S => "IQ1_S",
        GGML_TYPE_IQ1_M => "IQ1_M",
        GGML_TYPE_IQ2_XXS => "IQ2_XXS",
        GGML_TYPE_IQ2_XS => "IQ2_XS",
        GGML_TYPE_IQ2_S => "IQ2_S",
        GGML_TYPE_IQ3_XXS => "IQ3_XXS",
        GGML_TYPE_IQ3_S => "IQ3_S",
        GGML_TYPE_IQ4_NL => "IQ4_NL",
        GGML_TYPE_IQ4_XS => "IQ4_XS",
        _ => "?",
    }
}

/// Bytes one block of a type takes, for the types that are written; zero for the rest.
pub open spec fn block_bytes(ggml_type: u32) -> nat {
    match ggml_type {
        GGML_TYPE_F64 | GGML_TYPE_I64 => 8,
        GGML_TYPE_F32 | GGML_TYPE_I32 => 4,
        GGML_TYPE_F16 | GGML_TYPE_BF16 | GGML_TYPE_I16 => 2,
        GGML_TYPE_I8 => 1,
        GGML_TYPE_Q2_K => 84,
        GGML_TYPE_Q3_K => 110,
        GGML_TYPE_Q4_K => 144,
        GGML_TYPE_Q5_K => 176,
        GGML_TYPE_Q6_K => 210,
        GGML_TYPE_IQ4_NL => 18,
        GGML_TYPE_IQ4_XS => 136,
        _ => 0,
    }
}

/// Bytes a row takes: its whole blocks, each at the type's size.
pub open spec fn row_bytes_spec(ggml_type: u32, ncols: nat) -> nat {
    ncols / block_size_spec(ggml_type) * block_bytes(ggml_type)
}

/// Bytes one row of `ncols` elements takes.
pub fn row_bytes(ggml_type: u32, ncols: usize) -> (bytes: usize)
    requires
        row_bytes_spec(ggml_type, ncols as nat) <= usize::MAX,
    ensures
        bytes == row_bytes_spec(ggml_type, ncols as nat),
{
    match ggml_type {
        GGML_TYPE_F64 | GGML_TYPE_I64 => ncols * 8,
        GGML_TYPE_F32 | GGML_TYPE_I32 => ncols * 4,
        GGML_TYPE_F16 | GGML_TYPE_BF16 | GGML_TYPE_I16 => ncols * 2,
        GGML_TYPE_I8 => ncols,
        GGML_TYPE_Q2_K => ncols / QK_K * (QK_K / 16 + QK_K / 4 + 2 + 2),
        GGML_TYPE_Q3_K => ncols / QK_K * (QK_K / 8 + QK_K / 4 + 12 + 2),
        GGML_TYPE_Q4_K => ncols / QK_K * (2 + 2 + 12 + QK_K / 2),
        GGML_TYPE_Q5_K => ncols / QK_K * (2 + 2 + 12 + QK_K / 8 + QK_K / 2),
        GGML_TYPE_Q6_K => ncols / QK_K * (QK_K / 2 + QK_K / 4 + QK_K / 16 + 2),
        GGML_TYPE_IQ4_NL => ncols / QK * (2 + QK / 2),
        GGML_TYPE_IQ4_XS => ncols / QK_K * (2 + 2 + QK_K / 64 + QK_K / 2),
        _ => 0,
    }
}

/// A 16-bit number, low byte first.
pub open spec fn le16(x: u16) -> Seq<u8> {
    seq![(x % 256) as u8, (x / 256) as u8]
}

/// A 32-bit number, low byte first.
pub open spec fn le32(x: u32) -> Seq<u8> {
    seq![
        (x % 256) as u8,
        (x / 256 % 256) as u8,
        (x / 65536 % 256) as u8,
        (x / 16777216) as u8,
    ]
}

/// Whether a single-precision bit pattern is not a number.
pub open spec fn is_nan(bits: u32) -> bool {
    bits % 0x8000_0000 > 0x7f80_0000
}

/// `wide` rounded to `narrow` by dropping sixteen low bits, nearest first and to the even
/// neighbour on a tie.
pub open spec fn rounds_to_nearest_even(wide: u32, narrow: u16) -> bool {
    let gap = wide - narrow * 65536;
    &&& -32768 <= gap <= 32768
    &&& gap == -32768 || gap == 32768 ==> narrow % 2 == 0
}

/// A single-precision pattern as the two bytes of a `bf16`: the low 16 bits of the mantissa
/// dropped and rounded to nearest even, so the exponent, and with it the dynamic range, is
/// untouched. A NaN keeps its high half with the quiet bit set.
pub fn bf16_bytes(bits: u32) -> (bytes: [u8; 2])
    ensures
        is_nan(bits) ==> bytes@ == le16((bits / 65536) as u16 | 0x0040),
        !is_nan(bits) ==> exists|narrow: u16|
            bytes@ == #[trigger] le16(narrow) && rounds_to_nearest_even(bits, narrow),
{
    let high: u16 = (bits / 65536) as u16;
    let narrow: u16 = if bits % 0x8000_0000 > 0x7f80_0000 {
        high | 0x0040
    } else {
        let rounded: u32 = bits + 0x7fff + (bits / 65536) % 2;
        (rounded / 65536) as u16
    };
    let bytes: [u8; 2] = [(narrow % 256) as u8, (narrow / 256) as u8];
    proof {
        assert(bytes@ == le16(narrow));
        if !is_nan(bits) {
            assert(rounds_to_nearest_even(bits, narrow));
        }
    }
    bytes
}

/// Every value's bytes in turn, low byte first.
pub open spec fn le32_all(values: Seq<u32>) -> Seq<u8>
    decreases values.len(),
{
    if values.len() == 0 {
        Seq::empty()
    } else {
        le32_all(values.drop_last()) + le32(values.last())
    }
}

/// Encodes single-precision bit patterns as `F32`: four bytes each, low byte first.
pub fn encode_single(values: &[u32]) -> (bytes: Vec<u8>)
    ensures
        bytes@ == le32_all(values@),
        bytes@.len() == row_bytes_spec(GGML_TYPE_F32, values@.len()),
{
    let mut out: Vec<u8> = Vec::new();
    let mut i: usize = 0;
    while i < values.len()
        invariant
            i <= values.len(),
            out@ == le32_all(values@.take(i as int)),
            out@.len() == 4 * i,
        decreases values.len() - i,
    {
        let bits: u32 = values[i];
        out.push((bits % 256) as u8);
        out.push((bits / 256 % 256) as u8);
        out.push((bits / 65536 % 256) as u8);
        out.push((bits / 16777216) as u8);
        i = i + 1;
        assert(values@.take(i as int).drop_last() =~= values@.take(i - 1));
        assert(out@ =~= le32_all(values@.take(i - 1)) + le32(bits));
    }
    assert(values@.take(i as int) =~= values@);
    out
}

/// Whether two bytes are the `bf16` of a single-precision pattern: the NaN kept quiet, every
/// other value rounded to nearest even.
pub open spec fn is_bf16_of(bytes: Seq<u8>, bits: u32) -> bool {
    if is_nan(bits) {
        bytes == le16((bits / 65536) as u16 | 0x0040)
    } else {
        exists|narrow: u16|
            bytes == #[trigger] le16(narrow) && rounds_to_nearest_even(bits, narrow)
    }
}

/// Encodes single-precision bit patterns as `BF16`, two bytes each.
pub fn encode_brain(values: &[u32]) -> (bytes: Vec<u8>)
    requires
        2 * values@.len() <= usize::MAX,
    ensures
        bytes@.len() == row_bytes_spec(GGML_TYPE_BF16, values@.len()),
        forall|i: int|
            0 <= i < values@.len() ==> is_bf16_of(
                bytes@.subrange(2 * i, 2 * i + 2),
                #[trigger] values@[i],
            ),
{
    let mut out: Vec<u8> = Vec::new();
    let mut i: usize = 0;
    while i < values.len()
        invariant
            i <= values.len(),
            out@.len() == 2 * i,
            forall|k: int|
                0 <= k < i ==> is_bf16_of(
                    out@.subrange(2 * k, 2 * k + 2),
                    #[trigger] values@[k],
                ),
        decreases values.len() - i,
    {
        let pair = bf16_bytes(values[i]);
        let ghost before = out@;
        out.push(pair[0]);
        out.push(pair[1]);
        i = i + 1;
        assert(out@.subrange(2 * (i - 1), 2 * (i - 1) + 2) =~= pair@);
        assert forall|k: int| 0 <= k < i implies is_bf16_of(
            out@.subrange(2 * k, 2 * k + 2),
            #[trigger] values@[k],
        ) by {
            if k < i - 1 {
                assert(out@.subrange(2 * k, 2 * k + 2) =~= before.subrange(2 * k, 2 * k + 2));
            }
        }
    }
    out
}

/// A block's values as a full super-block, a short tail filled with the pattern of zero.
pub fn super_block(block: &[u32]) -> (values: [u32; 256])
    ensures
        forall|i: int|
            0 <= i < 256 ==> #[trigger] values@[i] == if i < block@.len() { block@[i] } else { 0 },
{
    let mut values: [u32; 256] = [0u32; 256];
    let n: usize = if block.len() < QK_K { block.len() } else { QK_K };
    let mut i: usize = 0;
    while i < n
        invariant
            i <= n,
            n <= 256,
            n <= block@.len(),
            values@.len() == 256,
            forall|k: int| 0 <= k < 256 ==> #[trigger] values@[k] == if k < i { block@[k] } else { 0 },
        decreases n - i,
    {
        values[i] = block[i];
        i = i + 1;
    }
    values
}

pub open spec fn at_least_one(n: int) -> int {
    if n < 1 { 1 } else { n }
}

/// How many rows one parallel group of an encode takes: big enough that a group is real work,
/// small enough that a tall thin tensor still spreads over the pool, and never none.
pub fn rows_per_group(rows: usize, threads: usize) -> (group: usize)
    requires
        threads * 4 <= usize::MAX,
    ensures
        group == at_least_one(rows as int / at_least_one(threads * 4)),
{
    let mut share: usize = threads * 4;
    if share < 1 {
        share = 1;
    }
    let group: usize = rows / share;
    if group < 1 { 1 } else { group }
}

/// Where the pieces of a run of `len` items cut every `width` begin and end.
pub open spec fn piece(len: int, width: int, i: int) -> (int, int) {
    (i * width, if (i + 1) * width < len { (i + 1) * width } else { len })
}

/// Cuts a run of `len` items into pieces of `width`, the last one short where it does not
/// divide. The pieces follow on from each other and cover the run.
pub fn pieces(len: usize, width: usize) -> (ranges: Vec<(usize, usize)>)
    requires
        width > 0,
    ensures
        ranges@.len() == (len + width - 1) / (width as int),
        forall|i: int|
            0 <= i < ranges@.len() ==> {
                let r = #[trigger] ranges@[i];
                (r.0 as int, r.1 as int) == piece(len as int, width as int, i) && r.0 < r.1
                    && r.1 - r.0 <= width
            },
{
    let mut ranges: Vec<(usize, usize)> = Vec::new();
    let mut at: usize = 0;
    proof {
        assert(0 * width == 0) by (nonlinear_arith);
        vstd::arithmetic::div_mod::lemma_basic_div(width - 1, width as int);
    }
    while at < len
        invariant
            width > 0,
            at <= len,
            at == if ranges@.len() * width < len { ranges@.len() * width } else { len as int },
            at == len ==> ranges@.len() == (len + width - 1) / (width as int),
            forall|i: int|
                0 <= i < ranges@.len() ==> {
                    let r = #[trigger] ranges@[i];
                    (r.0 as int, r.1 as int) == piece(len as int, width as int, i) && r.0 < r.1
                        && r.1 - r.0 <= width
                },
        decreases len - at,
    {
        let ghost n = ranges@.len() as int;
        let end: usize = if len - at <= width { len } else { at + width };
        proof {
            assert((n + 1) * width == n * width + width) by (nonlinear_arith);
            if end == len {
                assert(at == n * width);
                vstd::arithmetic::div_mod::lemma_fundamental_div_mod_converse(
                    len + width - 1,
                    width as int,
                    n + 1,
                    len + width - 1 - (n + 1) * width,
                );
            }
        }
        ranges.push((at, end));
        at = end;
    }
    ranges
}

/// A run encoded block by block and joined.
pub open spec fn joined(
    encode: spec_fn(Seq<u32>) -> Seq<u8>,
    values: Seq<u32>,
    width: nat,
) -> Seq<u8>
    decreases values.len(),
{
    if width == 0 {
        Seq::empty()
    } else if values.len() <= width {
        if values.len() == 0 { Seq::empty() } else { encode(values) }
    } else {
        encode(values.take(width as int)) + joined(encode, values.skip(width as int), width)
    }
}

/// A run cut into groups, each group encoded block by block, and the groups joined.
pub open spec fn joined_groups(
    encode: spec_fn(Seq<u32>) -> Seq<u8>,
    values: Seq<u32>,
    width: nat,
    group: nat,
) -> Seq<u8> {
    joined(|part: Seq<u32>| joined(encode, part, width), values, group)
}

/// Cutting a run at a block boundary and encoding the two parts gives the bytes of the whole.
proof fn lemma_joined_splits(
    encode: spec_fn(Seq<u32>) -> Seq<u8>,
    values: Seq<u32>,
    width: nat,
    blocks: nat,
)
    requires
        width > 0,
        blocks * width <= values.len(),
    ensures
        joined(encode, values, width) == joined(encode, values.take((blocks * width) as int), width)
            + joined(encode, values.skip((blocks * width) as int), width),
    decreases blocks,
{
    let cut = (blocks * width) as int;
    if blocks == 0 {
        assert(0 * width == 0) by (nonlinear_arith);
        assert(values.skip(0) =~= values);
        assert(values.take(0).len() == 0);
        assert(joined(encode, values.take(0), width) =~= Seq::empty());
    } else {
        let rest = (blocks - 1) as nat;
        assert(blocks * width == width + rest * width) by (nonlinear_arith)
            requires
                rest == blocks - 1,
        ;
        assert(rest * width >= 0) by (nonlinear_arith);
        let w = width as int;
        if values.len() == width {
            assert(values.take(cut) =~= values);
            assert(values.skip(cut).len() == 0);
            assert(joined(encode, values.skip(cut), width) =~= Seq::empty());
        } else {
            lemma_joined_splits(encode, values.skip(w), width, rest);
            let inner = (rest * width) as int;
            assert(values.skip(w).skip(inner) =~= values.skip(cut));
            assert(values.skip(w).take(inner) =~= values.take(cut).skip(w));
            assert(values.take(cut).take(w) =~= values.take(w));
            if rest == 0 {
                assert(0 * width == 0) by (nonlinear_arith);
                assert(values.take(cut) =~= values.take(w));
                assert(joined(encode, values.skip(w).take(inner), width) =~= Seq::empty());
            } else {
                assert(rest * width >= width) by (nonlinear_arith)
                    requires
                        rest >= 1,
                ;
            }
            assert(joined(encode, values.take(cut), width) =~= encode(values.take(w)) + joined(
                encode,
                values.skip(w).take(inner),
                width,
            ));
        }
    }
}

/// Encoding a tensor in parallel groups of whole blocks is byte-identical to encoding it in one
/// pass, whatever the encoder of a block and however many blocks a group takes.
pub proof fn law_groups_encode_as_one_pass(
    encode: spec_fn(Seq<u32>) -> Seq<u8>,
    values: Seq<u32>,
    width: nat,
    blocks: nat,
)
    requires
        width > 0,
        blocks > 0,
    ensures
        joined_groups(encode, values, width, blocks * width) == joined(encode, values, width),
    decreases values.len(),
{
    let group = blocks * width;
    assert(blocks * width >= width) by (nonlinear_arith)
        requires
            blocks > 0,
    ;
    let inner = |part: Seq<u32>| joined(encode, part, width);
    if values.len() > group {
        lemma_joined_splits(encode, values, width, blocks);
        law_groups_encode_as_one_pass(encode, values.skip(group as int), width, blocks);
    }
}

proof fn lemma_joined_len(
    encode: spec_fn(Seq<u32>) -> Seq<u8>,
    values: Seq<u32>,
    width: nat,
    bytes: nat,
    blocks: nat,
)
    requires
        width > 0,
        values.len() == blocks * width,
        forall|part: Seq<u32>| part.len() == width ==> (#[trigger] encode(part)).len() == bytes,
    ensures
        joined(encode, values, width).len() == blocks * bytes,
    decreases blocks,
{
    if blocks == 0 {
        assert(0 * width == 0 && 0 * bytes == 0) by (nonlinear_arith);
    } else {
        let rest = (blocks - 1) as nat;
        assert(blocks * width == width + rest * width && blocks * bytes == bytes + rest * bytes)
            by (nonlinear_arith)
            requires
                rest == blocks - 1,
        ;
        assert(rest * width >= 0) by (nonlinear_arith);
        if rest == 0 {
            assert(0 * width == 0 && 0 * bytes == 0) by (nonlinear_arith);
        } else {
            assert(rest * width >= width) by (nonlinear_arith)
                requires
                    rest >= 1,
            ;
            lemma_joined_len(encode, values.skip(width as int), width, bytes, rest);
        }
    }
}

/// An encoded tensor has as many bytes as its rows take, whatever the encoder of a block, as long
/// as each block has its type's size.
pub proof fn law_an_encoded_tensor_is_as_long_as_its_rows(
    encode: spec_fn(Seq<u32>) -> Seq<u8>,
    values: Seq<u32>,
    ggml_type: u32,
    ncols: nat,
    rows: nat,
)
    requires
        ncols % block_size_spec(ggml_type) == 0,
        values.len() == rows * ncols,
        forall|part: Seq<u32>|
            part.len() == block_size_spec(ggml_type) ==> (#[trigger] encode(part)).len()
                == block_bytes(ggml_type),
    ensures
        joined(encode, values, block_size_spec(ggml_type)).len() == rows * row_bytes_spec(
            ggml_type,
            ncols,
        ),
{
    let (width, bytes) = (block_size_spec(ggml_type), block_bytes(ggml_type));
    let per_row = ncols / width;
    assert(ncols == per_row * width) by {
        vstd::arithmetic::div_mod::lemma_fundamental_div_mod(ncols as int, width as int);
        assert(width * per_row == per_row * width) by (nonlinear_arith);
    }
    assert(rows * (per_row * width) == (rows * per_row) * width) by (nonlinear_arith);
    assert(rows * (per_row * bytes) == (rows * per_row) * bytes) by (nonlinear_arith);
    lemma_joined_len(encode, values, width, bytes, rows * per_row);
}

/// The numbers the format gives its types, and the width of their blocks.
pub proof fn law_types_have_the_formats_numbers(ggml_type: u32)
    ensures
        GGML_TYPE_F32 == 0,
        GGML_TYPE_F16 == 1,
        GGML_TYPE_Q2_K == 10,
        GGML_TYPE_Q3_K == 11,
        GGML_TYPE_Q4_K == 12,
        GGML_TYPE_Q5_K == 13,
        GGML_TYPE_Q6_K == 14,
        GGML_TYPE_Q8_K == 15,
        GGML_TYPE_IQ2_XXS == 16,
        GGML_TYPE_IQ2_XS == 17,
        GGML_TYPE_IQ3_XXS == 18,
        GGML_TYPE_IQ1_S == 19,
        GGML_TYPE_IQ4_NL == 20,
        GGML_TYPE_IQ3_S == 21,
        GGML_TYPE_IQ2_S == 22,
        GGML_TYPE_IQ4_XS == 23,
        GGML_TYPE_I8 == 24,
        GGML_TYPE_I16 == 25,
        GGML_TYPE_I32 == 26,
        GGML_TYPE_I64 == 27,
        GGML_TYPE_F64 == 28,
        GGML_TYPE_IQ1_M == 29,
        GGML_TYPE_BF16 == 30,
        QK_K == 256,
        QK == 32,
        block_size_spec(ggml_type) == if ggml_type == 20 {
            32
        } else if 10 <= ggml_type <= 23 || ggml_type == 29 {
            256nat
        } else {
            1
        },
{
}

/// A row's bytes are its blocks': each further block of a type adds the same number, and a part
/// of a block none.
pub proof fn law_each_block_adds_its_bytes(blocks: nat, part: nat)
    ensures
        part < 256 ==> row_bytes_spec(10, 256 * blocks + part) == 84 * blocks,
        part < 256 ==> row_bytes_spec(11, 256 * blocks + part) == 110 * blocks,
        part < 256 ==> row_bytes_spec(12, 256 * blocks + part) == 144 * blocks,
        part < 256 ==> row_bytes_spec(13, 256 * blocks + part) == 176 * blocks,
        part < 256 ==> row_bytes_spec(14, 256 * blocks + part) == 210 * blocks,
        part < 256 ==> row_bytes_spec(23, 256 * blocks + part) == 136 * blocks,
        part < 32 ==> row_bytes_spec(20, 32 * blocks + part) == 18 * blocks,
        row_bytes_spec(28, blocks) == 8 * blocks,
        row_bytes_spec(27, blocks) == 8 * blocks,
        row_bytes_spec(0, blocks) == 4 * blocks,
        row_bytes_spec(26, blocks) == 4 * blocks,
        row_bytes_spec(1, blocks) == 2 * blocks,
        row_bytes_spec(30, blocks) == 2 * blocks,
        row_bytes_spec(25, blocks) == 2 * blocks,
        row_bytes_spec(24, blocks) == blocks,
        row_bytes_spec(15, blocks) == 0,
{
    assert(part < 256 ==> (256 * blocks + part) / 256nat == blocks);
    assert(part < 32 ==> (32 * blocks + part) / 32nat == blocks);
    assert(blocks / 1nat == blocks);
    assert(block_bytes(30) == 2 && block_bytes(25) == 2 && block_bytes(1) == 2);
    assert(block_size_spec(30) == 1 && block_size_spec(25) == 1);
}

/// The levels of the sixteen-entry codebook rise, from the lowest to the highest.
pub proof fn law_the_codebook_rises(i: int)
    requires
        0 <= i < 16,
    ensures
        i < 15 ==> IQ4_VALUES@[i] < IQ4_VALUES@[i + 1],
        IQ4_VALUES@[i] == seq![
            -127int, -104, -83, -65, -49, -35, -22, -10, 1, 13, 25, 38, 53, 69, 89, 113,
        ][i],
{
}

/// Numbers are written low byte first.
pub proof fn law_bytes_count_from_the_low_end(x: u16, y: u32)
    ensures
        le16(x).len() == 2,
        le16(x)[0] + 256 * le16(x)[1] == x,
        le32(y).len() == 4,
        le32(y)[0] + 0x100 * le32(y)[1] + 0x1_0000 * le32(y)[2] + 0x100_0000 * le32(y)[3] == y,
{
}

/// A full-precision row is its numbers' bytes in turn, the low byte of each first.
pub proof fn law_singles_stand_in_turn(values: Seq<u32>, i: int)
    requires
        0 <= i < values.len(),
    ensures
        ({
            let bytes = le32_all(values);
            &&& bytes.len() == 4 * values.len()
            &&& bytes[4 * i] + 0x100 * bytes[4 * i + 1] + 0x1_0000 * bytes[4 * i + 2] + 0x100_0000
                * bytes[4 * i + 3] == values[i]
        }),
    decreases values.len(),
{
    let rest = values.drop_last();
    let head = le32_all(rest);
    let bytes = le32_all(values);
    if rest.len() > 0 {
        law_singles_stand_in_turn(rest, if i < rest.len() { i } else { 0 });
    }
    assert(head.len() == 4 * rest.len());
    if i < rest.len() {
        assert(bytes[4 * i] == head[4 * i] && bytes[4 * i + 1] == head[4 * i + 1] && bytes[4 * i
            + 2] == head[4 * i + 2] && bytes[4 * i + 3] == head[4 * i + 3]);
    } else {
        law_bytes_count_from_the_low_end(0, values[i]);
        assert(bytes[4 * i] == le32(values[i])[0] && bytes[4 * i + 1] == le32(values[i])[1]
            && bytes[4 * i + 2] == le32(values[i])[2] && bytes[4 * i + 3] == le32(values[i])[3]);
    }
}

/// No `bf16` is nearer to a number than the one it is written as, and of two that are as near the
/// even one is. What is not a number stays so, with its sign, and quiet.
pub proof fn law_a_brain_is_the_nearest(bytes: Seq<u8>, bits: u32, other: u16)
    requires
        is_bf16_of(bytes, bits),
    ensures
        ({
            let written = bytes[0] + 256 * bytes[1];
            let gap = bits - 65536 * written;
            let beside = bits - 65536 * other;
            let nan = bits % 0x8000_0000 > 0x7f80_0000;
            &&& bytes.len() == 2
            &&& !nan ==> -beside <= gap <= beside || beside <= gap <= -beside
            &&& !nan && other != written && (gap == beside || gap == -beside) ==> written % 2 == 0
            &&& nan ==> written % 0x8000 > 0x7f80 && written / 64 % 2 == 1 && (written >= 0x8000
                <==> bits >= 0x8000_0000)
        }),
{
    if is_nan(bits) {
        let high = (bits / 65536) as u16;
        assert((high | 0x0040u16) % 0x8000 >= high % 0x8000 && (high | 0x0040u16) / 64 % 2 == 1 && ((
        high | 0x0040u16) >= 0x8000 <==> high >= 0x8000)) by (bit_vector);
        law_bytes_count_from_the_low_end(high | 0x0040, 0);
        let written = (high | 0x0040) as int;
        assert(written % 0x8000 >= 0x7f80);
        assert(written % 0x8000 > 0x7f80);
    } else {
        let narrow = choose|narrow: u16|
            bytes == #[trigger] le16(narrow) && rounds_to_nearest_even(bits, narrow);
        law_bytes_count_from_the_low_end(narrow, 0);
    }
}

/// The pieces of a run follow on from each other, begin with its first item and end with its
/// last, and only the last may be shorter than the width.
pub proof fn law_the_pieces_cover_the_run(len: int, width: int, i: int)
    requires
        width > 0,
        len > 0,
        0 <= i < (len + width - 1) / width,
    ensures
        piece(len, width, 0).0 == 0,
        ({
            let last = (len + width - 1) / width - 1;
            let (start, end) = piece(len, width, i);
            &&& i < last ==> end == start + width && piece(len, width, i + 1).0 == end
            &&& i == last ==> end == len
            &&& start < end <= start + width
        }),
{
    let n = (len + width - 1) / width;
    assert(0 * width == 0) by (nonlinear_arith);
    vstd::arithmetic::div_mod::lemma_fundamental_div_mod(len + width - 1, width);
    assert((i + 1) * width == i * width + width) by (nonlinear_arith);
    assert(width * n == n * width) by (nonlinear_arith);
    let r = (len + width - 1) % width;
    assert(0 <= r < width);
    if i < n - 1 {
        assert((i + 1) * width <= (n - 1) * width) by (nonlinear_arith)
            requires
                i + 1 <= n - 1,
                width > 0,
        ;
        assert((n - 1) * width == n * width - width) by (nonlinear_arith);
    } else {
        assert(i == n - 1);
    }
}

/// Encoding block by block gives each block's bytes in its place.
pub proof fn law_each_block_is_encoded_in_its_place(
    encode: spec_fn(Seq<u32>) -> Seq<u8>,
    values: Seq<u32>,
    width: nat,
    blocks: nat,
    rest: Seq<u32>,
)
    requires
        width > 0,
        values.len() == blocks * width,
        0 < rest.len() <= width,
    ensures
        joined(encode, values + rest, width) == joined(encode, values, width) + encode(rest),
        joined(encode, Seq::empty(), width) == Seq::<u8>::empty(),
        joined(encode, rest, width) == encode(rest),
{
    lemma_joined_splits(encode, values + rest, width, blocks);
    assert((values + rest).take((blocks * width) as int) =~= values);
    assert((values + rest).skip((blocks * width) as int) =~= rest);
}

/// The name of a plain type spells how many bits it has, and that of a type of super-blocks how
/// many bits it spends on a weight.
pub proof fn law_a_name_spells_its_bits(ggml_type: u32, bits: nat)
    ensures
        ggml_type == GGML_TYPE_F16 || ggml_type == GGML_TYPE_F32 || ggml_type == GGML_TYPE_F64
            ==> ggml_type_name_spec(ggml_type) == "F"@ + crate::text::decimal_spec(
            8 * block_bytes(ggml_type),
        ),
        ggml_type_name_spec(GGML_TYPE_BF16) == "B"@ + ggml_type_name_spec(GGML_TYPE_F16),
        GGML_TYPE_I8 <= ggml_type <= GGML_TYPE_I64 ==> ggml_type_name_spec(ggml_type) == "I"@
            + crate::text::decimal_spec(8 * block_bytes(ggml_type)),
        2 <= bits <= 6 ==> ggml_type_name_spec((GGML_TYPE_Q2_K - 2 + bits) as u32) == "Q"@
            + crate::text::decimal_spec(bits) + "_K"@,
        ggml_type_name_spec(GGML_TYPE_Q8_K) == "Q8_K"@,
        ggml_type_name_spec(GGML_TYPE_IQ4_XS).take(4) == ggml_type_name_spec(
            GGML_TYPE_IQ4_NL,
        ).take(4),
        GGML_TYPE_BF16 < ggml_type ==> ggml_type_name_spec(ggml_type) == "?"@,
{
    reveal_strlit("F16");
    reveal_strlit("F32");
    reveal_strlit("F64");
    reveal_strlit("BF16");
    reveal_strlit("I8");
    reveal_strlit("I16");
    reveal_strlit("I32");
    reveal_strlit("I64");
    reveal_strlit("F");
    reveal_strlit("B");
    reveal_strlit("I");
    reveal_strlit("Q");
    reveal_strlit("_K");
    reveal_strlit("Q2_K");
    reveal_strlit("Q3_K");
    reveal_strlit("Q4_K");
    reveal_strlit("Q5_K");
    reveal_strlit("Q6_K");
    reveal_strlit("IQ4_XS");
    reveal_strlit("IQ4_NL");
    reveal_with_fuel(crate::text::decimal_spec, 3);
    assert(crate::text::decimal_spec(8) =~= seq!['8']);
    assert(crate::text::decimal_spec(16) =~= seq!['1', '6']);
    assert(crate::text::decimal_spec(32) =~= seq!['3', '2']);
    assert(crate::text::decimal_spec(64) =~= seq!['6', '4']);
    assert("F16"@ =~= "F"@ + seq!['1', '6']);
    assert("F32"@ =~= "F"@ + seq!['3', '2']);
    assert("F64"@ =~= "F"@ + seq!['6', '4']);
    assert("BF16"@ =~= "B"@ + "F16"@);
    assert("I8"@ =~= "I"@ + seq!['8']);
    assert("I16"@ =~= "I"@ + seq!['1', '6']);
    assert("I32"@ =~= "I"@ + seq!['3', '2']);
    assert("I64"@ =~= "I"@ + seq!['6', '4']);
    assert("Q2_K"@ =~= "Q"@ + crate::text::decimal_spec(2) + "_K"@);
    assert("Q3_K"@ =~= "Q"@ + crate::text::decimal_spec(3) + "_K"@);
    assert("Q4_K"@ =~= "Q"@ + crate::text::decimal_spec(4) + "_K"@);
    assert("Q5_K"@ =~= "Q"@ + crate::text::decimal_spec(5) + "_K"@);
    assert("Q6_K"@ =~= "Q"@ + crate::text::decimal_spec(6) + "_K"@);
    assert("IQ4_XS"@.take(4) =~= "IQ4_NL"@.take(4));
}

} // verus!
