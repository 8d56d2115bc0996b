//! File types and the rules that turn one into an actual type for each tensor.
//!
//! A `Q4_K_M` file is not a file of `Q4_K` tensors. The M is a mixture: the tensors a
//! quantization error hurts most, the vocabulary projection and the value and down projections
//! in the outer blocks, are carried at higher precision, and the rest at four bits.
//!
//! Norms and any other one-dimensional tensor stay `F32`. A block quantization needs its row
//! length to divide the block; a row that does not falls back, and [`Plan`] records that.

use vstd::prelude::*;
use vstd::string::*;
use crate::ieee;
use crate::ieee::{half_to_single, read_le16, read_le32};
use crate::quantize;
use crate::quantize::{
    block_size, ggml_type_name, GGML_TYPE_BF16, GGML_TYPE_F16, GGML_TYPE_F32, GGML_TYPE_IQ4_NL,
    GGML_TYPE_IQ4_XS, GGML_TYPE_Q2_K, GGML_TYPE_Q3_K, GGML_TYPE_Q4_K, GGML_TYPE_Q5_K,
    GGML_TYPE_Q6_K,
};
use crate::text;

verus! {

/// A whole-file type: what `--quantization` selects.
#[derive(Debug, Clone, Copy, PartialEq, Eq, Structural)]
pub enum Ftype {
    F32,
    F16,
    Bf16,
    Q2K,
    Q3KS,
    Q3KM,
    Q3KL,
    Q4KS,
    Q4KM,
    Q5KS,
    Q5KM,
    Q6K,
    IQ4NL,
    IQ4XS,
}

/// Why a spelling is not a file type that is written.
#[derive(Debug, Clone, PartialEq, Eq)]
pub enum FtypeError {
    /// A type the format defines that needs an importance matrix. Holds its name in capitals.
    NeedsImportance(String),
    /// A format from before the K-quants. Holds its name in capitals.
    Outdated(String),
    /// No type at all. Holds the spelling.
    Unknown(String),
}

/// The spellings each file type is offered under.
pub open spec fn spelled(s: Seq<char>) -> Option<Ftype> {
    if s == "f32"@ || s == "fp32"@ {
        Some(Ftype::F32)
    }
    else if s == "f16"@ || s == "fp16"@ {
        Some(Ftype::F16)
    }
    else if s == "bf16"@ || s == "bfloat16"@ {
        Some(Ftype::Bf16)
    }
    else if s == "q2_k"@ || s == "q2k"@ {
        Some(Ftype::Q2K)
    }
    else if s == "q3_k_s"@ || s == "q3ks"@ {
        Some(Ftype::Q3KS)
    }
    else if s == "q3_k_m"@ || s == "q3km"@ || s == "q3_k"@ {
        Some(Ftype::Q3KM)
    }
    else if s == "q3_k_l"@ || s == "q3kl"@ {
        Some(Ftype::Q3KL)
    }
    else if s == "q4_k_s"@ || s == "q4ks"@ {
        Some(Ftype::Q4KS)
    }
    else if s == "q4_k_m"@ || s == "q4km"@ || s == "q4_k"@ {
        Some(Ftype::Q4KM)
    }
    else if s == "q5_k_s"@ || s == "q5ks"@ {
        Some(Ftype::Q5KS)
    }
    else if s == "q5_k_m"@ || s == "q5km"@ || s == "q5_k"@ {
        Some(Ftype::Q5KM)
    }
    else if s == "q6_k"@ || s == "q6k"@ {
        Some(Ftype::Q6K)
    }
    else if s == "iq4_nl"@ || s == "iq4nl"@ {
        Some(Ftype::IQ4NL)
    }
    else if s == "iq4_xs"@ || s == "iq4xs"@ {
        Some(Ftype::IQ4XS)
    }
    else {
        None
    }
}

/// The names the format defines whose files need an importance matrix.
pub open spec fn needs_importance(s: Seq<char>) -> bool {
    s == "q2_k_s"@ || s == "iq1_s"@ || s == "iq1_m"@ || s == "iq2_xxs"@ || s == "iq2_xs"@ || s == "iq2_s"@ || s == "iq2_m"@ || s == "iq3_xxs"@ || s == "iq3_s"@ || s == "iq3_m"@
}

/// The names of the formats from before the K-quants.
pub open spec fn outdated(s: Seq<char>) -> bool {
    text::begins(s, "q4_0"@) || text::begins(s, "q4_1"@) || text::begins(s, "q5_0"@) || text::begins(s, "q5_1"@) || text::begins(s, "q8_0"@) || text::begins(s, "q8_1"@)
}

/// A spelling as it is looked up: without surrounding white space, in small letters.
pub open spec fn spelling(value: Seq<char>) -> Seq<char> {
    text::lower_all(text::trim_spec(value))
}

/// The file types' names in the order they are listed.
pub open spec fn listed_names() -> Seq<Seq<char>> {
    Ftype::ALL@.map_values(|f: Ftype| f.name_spec())
}

impl FtypeError {
    pub open spec fn message_spec(&self) -> Seq<char> {
        match self {
            FtypeError::NeedsImportance(name) => name@
                + " needs an importance matrix, which this tool does not measure yet — at that many bits a file written without one is worse than the next size up"@,
            FtypeError::Outdated(name) => name@
                + " is a pre-K-quant format and is not written — Q6_K is the same size and more accurate"@,
            FtypeError::Unknown(spelling) => "unknown quantization "@ + text::debug_quoted(
                spelling@,
            ) + " — one of: "@ + text::joined_spec(listed_names(), ", "@),
        }
    }

    /// What the user is told.
    pub fn message(&self) -> (s: String)
        ensures
            s@ == self.message_spec(),
    {
        let mut out = String::new();
        match self {
            FtypeError::NeedsImportance(name) => {
                out.append(name.as_str());
                out.append(
                    " needs an importance matrix, which this tool does not measure yet — at that many bits a file written without one is worse than the next size up",
                );
            },
            FtypeError::Outdated(name) => {
                out.append(name.as_str());
                out.append(
                    " is a pre-K-quant format and is not written — Q6_K is the same size and more accurate",
                );
            },
            FtypeError::Unknown(spelling) => {
                out.append("unknown quantization ");
                let quoted = text::debug_text(spelling.as_str());
                out.append(quoted.as_str());
                out.append(" — one of: ");
                let mut names: Vec<String> = Vec::new();
                let mut i: usize = 0;
                while i < 14
                    invariant
                        i <= 14,
                        text::views(names@) == listed_names().take(i as int),
                    decreases 14 - i,
                {
                    let ftype: Ftype = Ftype::ALL[i];
                    let ghost before = names@;
                    names.push(ftype.name().to_owned());
                    i = i + 1;
                    assert(listed_names()[i - 1] == ftype.name_spec());
                    assert(text::views(names@) =~= text::views(before).push(ftype.name_spec()));
                    assert(text::views(names@) =~= listed_names().take(i as int));
                }
                assert(listed_names().take(14) =~= listed_names());
                let list = text::join(&names, ", ");
                out.append(list.as_str());
            },
        }
        assert(out@ =~= self.message_spec());
        out
    }
}

impl Ftype {
    /// Largest first, so a list of them reads as a size ladder.
    pub const ALL: [Ftype; 14] = [
        Ftype::Bf16,
        Ftype::F16,
        Ftype::F32,
        Ftype::Q6K,
        Ftype::Q5KM,
        Ftype::Q5KS,
        Ftype::Q4KM,
        Ftype::Q4KS,
        Ftype::IQ4NL,
        Ftype::IQ4XS,
        Ftype::Q3KL,
        Ftype::Q3KM,
        Ftype::Q3KS,
        Ftype::Q2K,
    ];

    /// Parses the spelling used on the command line.
    pub fn parse(value: &str) -> (parsed: Result<Ftype, FtypeError>)
        ensures
            match parsed {
                Ok(ftype) => spelled(spelling(value@)) == Some(ftype),
                Err(FtypeError::NeedsImportance(name)) => spelled(spelling(value@)) is None
                    && needs_importance(spelling(value@)) && name@ == text::upper_all(
                    spelling(value@),
                ),
                Err(FtypeError::Outdated(name)) => spelled(spelling(value@)) is None
                    && !needs_importance(spelling(value@)) && outdated(spelling(value@)) && name@
                    == text::upper_all(spelling(value@)),
                Err(FtypeError::Unknown(name)) => spelled(spelling(value@)) is None
                    && !needs_importance(spelling(value@)) && !outdated(spelling(value@)) && name@
                    == spelling(value@),
            },
    {
        let trimmed = text::trim(value);
        let owned = text::ascii_lowercase(trimmed.as_str());
        let s = owned.as_str();
        if text::same(s, "f32") || text::same(s, "fp32") {
            return Ok(Ftype::F32);
        }
        if text::same(s, "f16") || text::same(s, "fp16") {
            return Ok(Ftype::F16);
        }
        if text::same(s, "bf16") || text::same(s, "bfloat16") {
            return Ok(Ftype::Bf16);
        }
        if text::same(s, "q2_k") || text::same(s, "q2k") {
            return Ok(Ftype::Q2K);
        }
        if text::same(s, "q3_k_s") || text::same(s, "q3ks") {
            return Ok(Ftype::Q3KS);
        }
        if text::same(s, "q3_k_m") || text::same(s, "q3km") || text::same(s, "q3_k") {
            return Ok(Ftype::Q3KM);
        }
        if text::same(s, "q3_k_l") || text::same(s, "q3kl") {
            return Ok(Ftype::Q3KL);
        }
        if text::same(s, "q4_k_s") || text::same(s, "q4ks") {
            return Ok(Ftype::Q4KS);
        }
        if text::same(s, "q4_k_m") || text::same(s, "q4km") || text::same(s, "q4_k") {
            return Ok(Ftype::Q4KM);
        }
        if text::same(s, "q5_k_s") || text::same(s, "q5ks") {
            return Ok(Ftype::Q5KS);
        }
        if text::same(s, "q5_k_m") || text::same(s, "q5km") || text::same(s, "q5_k") {
            return Ok(Ftype::Q5KM);
        }
        if text::same(s, "q6_k") || text::same(s, "q6k") {
            return Ok(Ftype::Q6K);
        }
        if text::same(s, "iq4_nl") || text::same(s, "iq4nl") {
            return Ok(Ftype::IQ4NL);
        }
        if text::same(s, "iq4_xs") || text::same(s, "iq4xs") {
            return Ok(Ftype::IQ4XS);
        }
        if text::same(s, "q2_k_s") || text::same(s, "iq1_s") || text::same(s, "iq1_m") || text::same(s, "iq2_xxs") || text::same(s, "iq2_xs") || text::same(s, "iq2_s") || text::same(s, "iq2_m") || text::same(s, "iq3_xxs") || text::same(s, "iq3_s") || text::same(s, "iq3_m") {
            return Err(FtypeError::NeedsImportance(text::ascii_uppercase(s)));
        }
        if text::starts_with(s, "q4_0") || text::starts_with(s, "q4_1") || text::starts_with(s, "q5_0") || text::starts_with(s, "q5_1") || text::starts_with(s, "q8_0") || text::starts_with(s, "q8_1") {
            return Err(FtypeError::Outdated(text::ascii_uppercase(s)));
        }
        Err(FtypeError::Unknown(owned))
    }

    pub open spec fn name_spec(&self) -> Seq<char> {
        match self {
            Ftype::F32 => "F32"@,
            Ftype::F16 => "F16"@,
            Ftype::Bf16 => "BF16"@,
            Ftype::Q2K => "Q2_K"@,
            Ftype::Q3KS => "Q3_K_S"@,
            Ftype::Q3KM => "Q3_K_M"@,
            Ftype::Q3KL => "Q3_K_L"@,
            Ftype::Q4KS => "Q4_K_S"@,
            Ftype::Q4KM => "Q4_K_M"@,
            Ftype::Q5KS => "Q5_K_S"@,
            Ftype::Q5KM => "Q5_K_M"@,
            Ftype::Q6K => "Q6_K"@,
            Ftype::IQ4NL => "IQ4_NL"@,
            Ftype::IQ4XS => "IQ4_XS"@,
        }
    }

    pub fn name(&self) -> (name: &'static str)
        ensures
            name@ == self.name_spec(),
    {
        match self {
            Ftype::F32 => "F32",
            Ftype::F16 => "F16",
            Ftype::Bf16 => "BF16",
            Ftype::Q2K => "Q2_K",
            Ftype::Q3KS => "Q3_K_S",
            Ftype::Q3KM => "Q3_K_M",
            Ftype::Q3KL => "Q3_K_L",
            Ftype::Q4KS => "Q4_K_S",
            Ftype::Q4KM => "Q4_K_M",
            Ftype::Q5KS => "Q5_K_S",
            Ftype::Q5KM => "Q5_K_M",
            Ftype::Q6K => "Q6_K",
            Ftype::IQ4NL => "IQ4_NL",
            Ftype::IQ4XS => "IQ4_XS",
        }
    }

    pub open spec fn description_spec(&self) -> Seq<char> {
        match self {
            Ftype::F32 => "Every weight in full precision. Twice the size of BF16, no more accurate in practice."@,
            Ftype::F16 => "Half precision. Same size as BF16, less range — BF16 is the better default for trained weights."@,
            Ftype::Bf16 => "Half precision with the exponent range of F32. The reference file: quantize from this, not to it."@,
            Ftype::Q2K => "Two bits. The smallest file worth writing, and the first one where the model is visibly worse."@,
            Ftype::Q3KS => "Three bits throughout. Smaller than Q3_K_M and measurably weaker."@,
            Ftype::Q3KM => "Three bits, with four and five where they pay: the value and down projections."@,
            Ftype::Q3KL => "Three bits, with five on the tensors Q3_K_M gives four."@,
            Ftype::Q4KS => "Four bits, with five on the outermost down projections only."@,
            Ftype::Q4KM => "Four bits, with six on the outer value and down projections. The size/quality sweet spot."@,
            Ftype::Q5KS => "Five bits throughout. Close to Q6_K for noticeably less size."@,
            Ftype::Q5KM => "Five bits, with six on the outer value and down projections."@,
            Ftype::Q6K => "Six bits. Indistinguishable from BF16 on every benchmark that matters, at 40% of the size."@,
            Ftype::IQ4NL => "Four non-linear bits in 32-wide blocks. Fits rows a K-quant cannot, at Q4_K_S's size."@,
            Ftype::IQ4XS => "Four non-linear bits in 256-wide blocks. The smallest four-bit file, just under Q4_K_S."@,
        }
    }

    /// One line on what this file type is for.
    pub fn description(&self) -> (line: &'static str)
        ensures
            line@ == self.description_spec(),
    {
        match self {
            Ftype::F32 => "Every weight in full precision. Twice the size of BF16, no more accurate in practice.",
            Ftype::F16 => "Half precision. Same size as BF16, less range — BF16 is the better default for trained weights.",
            Ftype::Bf16 => "Half precision with the exponent range of F32. The reference file: quantize from this, not to it.",
            Ftype::Q2K => "Two bits. The smallest file worth writing, and the first one where the model is visibly worse.",
            Ftype::Q3KS => "Three bits throughout. Smaller than Q3_K_M and measurably weaker.",
            Ftype::Q3KM => "Three bits, with four and five where they pay: the value and down projections.",
            Ftype::Q3KL => "Three bits, with five on the tensors Q3_K_M gives four.",
            Ftype::Q4KS => "Four bits, with five on the outermost down projections only.",
            Ftype::Q4KM => "Four bits, with six on the outer value and down projections. The size/quality sweet spot.",
            Ftype::Q5KS => "Five bits throughout. Close to Q6_K for noticeably less size.",
            Ftype::Q5KM => "Five bits, with six on the outer value and down projections.",
            Ftype::Q6K => "Six bits. Indistinguishable from BF16 on every benchmark that matters, at 40% of the size.",
            Ftype::IQ4NL => "Four non-linear bits in 32-wide blocks. Fits rows a K-quant cannot, at Q4_K_S's size.",
            Ftype::IQ4XS => "Four non-linear bits in 256-wide blocks. The smallest four-bit file, just under Q4_K_S.",
        }
    }

    pub open spec fn file_type_spec(&self) -> u32 {
        match self {
            Ftype::F32 => 0,
            Ftype::F16 => 1,
            Ftype::Bf16 => 32,
            Ftype::Q2K => 10,
            Ftype::Q3KS => 11,
            Ftype::Q3KM => 12,
            Ftype::Q3KL => 13,
            Ftype::Q4KS => 14,
            Ftype::Q4KM => 15,
            Ftype::Q5KS => 16,
            Ftype::Q5KM => 17,
            Ftype::Q6K => 18,
            Ftype::IQ4NL => 25,
            Ftype::IQ4XS => 30,
        }
    }

    /// The `general.file_type` this writes.
    pub fn file_type(&self) -> (number: u32)
        ensures
            number == self.file_type_spec(),
    {
        match self {
            Ftype::F32 => 0,
            Ftype::F16 => 1,
            Ftype::Bf16 => 32,
            Ftype::Q2K => 10,
            Ftype::Q3KS => 11,
            Ftype::Q3KM => 12,
            Ftype::Q3KL => 13,
            Ftype::Q4KS => 14,
            Ftype::Q4KM => 15,
            Ftype::Q5KS => 16,
            Ftype::Q5KM => 17,
            Ftype::Q6K => 18,
            Ftype::IQ4NL => 25,
            Ftype::IQ4XS => 30,
        }
    }

    pub open spec fn base_type_spec(&self) -> u32 {
        match self {
            Ftype::F32 => GGML_TYPE_F32,
            Ftype::F16 => GGML_TYPE_F16,
            Ftype::Bf16 => GGML_TYPE_BF16,
            Ftype::Q2K => GGML_TYPE_Q2_K,
            Ftype::Q3KS => GGML_TYPE_Q3_K,
            Ftype::Q3KM => GGML_TYPE_Q3_K,
            Ftype::Q3KL => GGML_TYPE_Q3_K,
            Ftype::Q4KS => GGML_TYPE_Q4_K,
            Ftype::Q4KM => GGML_TYPE_Q4_K,
            Ftype::Q5KS => GGML_TYPE_Q5_K,
            Ftype::Q5KM => GGML_TYPE_Q5_K,
            Ftype::Q6K => GGML_TYPE_Q6_K,
            Ftype::IQ4NL => GGML_TYPE_IQ4_NL,
            Ftype::IQ4XS => GGML_TYPE_IQ4_XS,
        }
    }

    /// The type most of the file is written as, before the mixture rules move individual
    /// tensors.
    pub fn base_type(&self) -> (ggml_type: u32)
        ensures
            ggml_type == self.base_type_spec(),
    {
        match self {
            Ftype::F32 => GGML_TYPE_F32,
            Ftype::F16 => GGML_TYPE_F16,
            Ftype::Bf16 => GGML_TYPE_BF16,
            Ftype::Q2K => GGML_TYPE_Q2_K,
            Ftype::Q3KS => GGML_TYPE_Q3_K,
            Ftype::Q3KM => GGML_TYPE_Q3_K,
            Ftype::Q3KL => GGML_TYPE_Q3_K,
            Ftype::Q4KS => GGML_TYPE_Q4_K,
            Ftype::Q4KM => GGML_TYPE_Q4_K,
            Ftype::Q5KS => GGML_TYPE_Q5_K,
            Ftype::Q5KM => GGML_TYPE_Q5_K,
            Ftype::Q6K => GGML_TYPE_Q6_K,
            Ftype::IQ4NL => GGML_TYPE_IQ4_NL,
            Ftype::IQ4XS => GGML_TYPE_IQ4_XS,
        }
    }

    pub open spec fn quantized(&self) -> bool {
        !(*self is F32 || *self is F16 || *self is Bf16)
    }

    /// Whether the file is quantized at all, which is what decides if the mixture rules run.
    pub fn is_quantized(&self) -> (yes: bool)
        ensures
            yes == self.quantized(),
    {
        match self {
            Ftype::F32 | Ftype::F16 | Ftype::Bf16 => false,
            _ => true,
        }
    }
}

/// Where a tensor sits in the network, which is what the mixture rules key off. Derived from
/// the tensor's name.
#[derive(Debug, Clone, Copy, PartialEq, Eq, Structural)]
pub enum Role {
    TokenEmbedding,
    Output,
    AttentionValue,
    AttentionOutput,
    FeedForwardDown,
    Other,
}

pub open spec fn role_spec(name: Seq<char>) -> Role {
    if name == "token_embd.weight"@ {
        Role::TokenEmbedding
    } else if name == "output.weight"@ {
        Role::Output
    } else if text::ends(name, "attn_v.weight"@) {
        Role::AttentionValue
    } else if text::ends(name, "attn_output.weight"@) {
        Role::AttentionOutput
    } else if text::ends(name, "ffn_down.weight"@) {
        Role::FeedForwardDown
    } else {
        Role::Other
    }
}

pub fn role_of(name: &str) -> (role: Role)
    ensures
        role == role_spec(name@),
{
    if text::same(name, "token_embd.weight") {
        Role::TokenEmbedding
    } else if text::same(name, "output.weight") {
        Role::Output
    } else if text::ends_with(name, "attn_v.weight") {
        Role::AttentionValue
    } else if text::ends_with(name, "attn_output.weight") {
        Role::AttentionOutput
    } else if text::ends_with(name, "ffn_down.weight") {
        Role::FeedForwardDown
    } else {
        Role::Other
    }
}

/// The number between `blk.` and the next dot, where a name begins so and it fits a `usize`.
pub open spec fn block_index_spec(name: Seq<char>) -> Option<usize> {
    if text::begins(name, "blk."@) {
        match text::number_spec(text::until(name.skip(4), '.')) {
            Some(n) => if n <= usize::MAX { Some(n as usize) } else { None },
            None => None,
        }
    } else {
        None
    }
}

/// The block index in a `blk.N.` tensor name.
pub fn block_index(name: &str) -> (index: Option<usize>)
    ensures
        index == block_index_spec(name@),
{
    if !text::starts_with(name, "blk.") {
        return None;
    }
    proof {
        reveal_strlit("blk.");
    }
    let chars = text::chars_of(name);
    let part = text::part_until(&chars, 4, '.');
    text::parse_usize(part.as_str())
}

/// The outer eighths of the stack, and every third block in between.
pub open spec fn more_bits(layer: int, layers: int) -> bool {
    layer < layers / 8 || layer >= 7 * layers / 8 || (layer - layers / 8) % 3 == 2
}

/// The rule that spends the extra bits on the outer blocks and on every third block in between,
/// rather than spreading them evenly.
pub fn use_more_bits(layer: usize, layers: usize) -> (yes: bool)
    ensures
        yes == more_bits(layer as int, layers as int),
{
    layer < layers / 8 || layer as u128 >= 7 * (layers as u128) / 8 || (layer - layers / 8) % 3
        == 2
}

/// What the mixture rules need to know about the model beyond one tensor's own name and shape.
#[derive(Debug, Clone, Copy, PartialEq, Eq, Structural)]
pub struct Model {
    pub layers: usize,
    /// Query heads per key/value head. Grouped-query attention makes the value projection small
    /// enough that carrying it at a higher precision costs almost nothing, so the rules spend
    /// bits there when it is four or more.
    pub gqa: usize,
}

/// What one tensor is written as, and why it might not be what was asked for.
#[derive(Debug, Clone, Copy, PartialEq, Eq, Structural)]
pub struct Plan {
    pub ggml_type: u32,
    /// The type the mixture rules chose, when a shape forced something else. `None` when
    /// nothing was overridden.
    pub fallback_from: Option<u32>,
}

/// The type the mixture rules give a tensor in a quantized file, by its role, its layer and the
/// model.
pub open spec fn mixture_spec(ftype: Ftype, role: Role, layer: int, model: Model) -> u32 {
    let base = ftype.base_type_spec();
    let layers = if model.layers < 1 { 1int } else { model.layers as int };
    match role {
        Role::Output => GGML_TYPE_Q6_K,
        Role::TokenEmbedding => base,
        Role::AttentionValue => match ftype {
            Ftype::Q2K => if model.gqa >= 4 { GGML_TYPE_Q4_K } else { GGML_TYPE_Q3_K },
            Ftype::Q3KM => if layer < 2 { GGML_TYPE_Q5_K } else { GGML_TYPE_Q4_K },
            Ftype::Q3KL => GGML_TYPE_Q5_K,
            Ftype::IQ4NL | Ftype::IQ4XS => if model.gqa >= 4 { GGML_TYPE_Q5_K } else { base },
            Ftype::Q4KM | Ftype::Q5KM => if more_bits(layer, layers) {
                GGML_TYPE_Q6_K
            } else {
                base
            },
            _ => base,
        },
        Role::FeedForwardDown => match ftype {
            Ftype::Q2K => GGML_TYPE_Q3_K,
            Ftype::Q3KM => if layer < layers / 16 { GGML_TYPE_Q5_K } else { GGML_TYPE_Q4_K },
            Ftype::Q3KL => GGML_TYPE_Q5_K,
            Ftype::Q4KM | Ftype::Q5KM => if more_bits(layer, layers) {
                GGML_TYPE_Q6_K
            } else {
                base
            },
            Ftype::Q4KS | Ftype::IQ4NL | Ftype::IQ4XS => if layer < layers / 8 {
                GGML_TYPE_Q5_K
            } else {
                base
            },
            _ => base,
        },
        Role::AttentionOutput => match ftype {
            Ftype::Q2K => GGML_TYPE_Q3_K,
            Ftype::Q3KM => GGML_TYPE_Q4_K,
            Ftype::Q3KL => GGML_TYPE_Q5_K,
            _ => base,
        },
        Role::Other => base,
    }
}

/// The layer a tensor's name puts it in; the first where the name gives none.
pub open spec fn layer_of(name: Seq<char>) -> int {
    match block_index_spec(name) {
        Some(n) => n as int,
        None => 0,
    }
}

/// The per-tensor rules behind the `_S`, `_M` and `_L` in a file type's name: which tensors are
/// carried above the file's base type, and by how much.
pub fn mixture(ftype: Ftype, name: &str, model: Model) -> (ggml_type: u32)
    ensures
        ggml_type == mixture_spec(ftype, role_spec(name@), layer_of(name@), model),
{
    let base: u32 = ftype.base_type();
    let layers: usize = if model.layers < 1 { 1 } else { model.layers };
    let layer: usize = match block_index(name) {
        Some(n) => n,
        None => 0,
    };
    match role_of(name) {
        Role::Output => GGML_TYPE_Q6_K,
        Role::TokenEmbedding => base,
        Role::AttentionValue => match ftype {
            Ftype::Q2K if model.gqa >= 4 => GGML_TYPE_Q4_K,
            Ftype::Q2K => GGML_TYPE_Q3_K,
            Ftype::Q3KM if layer < 2 => GGML_TYPE_Q5_K,
            Ftype::Q3KM => GGML_TYPE_Q4_K,
            Ftype::Q3KL => GGML_TYPE_Q5_K,
            Ftype::IQ4NL if model.gqa >= 4 => GGML_TYPE_Q5_K,
            Ftype::IQ4XS if model.gqa >= 4 => GGML_TYPE_Q5_K,
            Ftype::Q4KM if use_more_bits(layer, layers) => GGML_TYPE_Q6_K,
            Ftype::Q5KM if use_more_bits(layer, layers) => GGML_TYPE_Q6_K,
            _ => base,
        },
        Role::FeedForwardDown => match ftype {
            Ftype::Q2K => GGML_TYPE_Q3_K,
            Ftype::Q3KM if layer < layers / 16 => GGML_TYPE_Q5_K,
            Ftype::Q3KM => GGML_TYPE_Q4_K,
            Ftype::Q3KL => GGML_TYPE_Q5_K,
            Ftype::Q4KM if use_more_bits(layer, layers) => GGML_TYPE_Q6_K,
            Ftype::Q5KM if use_more_bits(layer, layers) => GGML_TYPE_Q6_K,
            Ftype::Q4KS if layer < layers / 8 => GGML_TYPE_Q5_K,
            Ftype::IQ4NL if layer < layers / 8 => GGML_TYPE_Q5_K,
            Ftype::IQ4XS if layer < layers / 8 => GGML_TYPE_Q5_K,
            _ => base,
        },
        Role::AttentionOutput => match ftype {
            Ftype::Q2K => GGML_TYPE_Q3_K,
            Ftype::Q3KM => GGML_TYPE_Q4_K,
            Ftype::Q3KL => GGML_TYPE_Q5_K,
            _ => base,
        },
        Role::Other => base,
    }
}

/// Whether a row of `ncols` is a whole number of the type's blocks.
pub open spec fn divides(ggml_type: u32, ncols: int) -> bool {
    ncols % (quantize::block_size_spec(ggml_type) as int) == 0
}

/// The wanted type where its block divides the row. Otherwise four bits and below go to the
/// 32-wide type where that divides, and everything else to half precision.
pub open spec fn fit_spec(wanted: u32, ncols: int) -> u32 {
    if divides(wanted, ncols) {
        wanted
    } else if (wanted == GGML_TYPE_Q2_K || wanted == GGML_TYPE_Q3_K || wanted == GGML_TYPE_Q4_K
        || wanted == GGML_TYPE_IQ4_XS) && divides(GGML_TYPE_IQ4_NL, ncols) {
        GGML_TYPE_IQ4_NL
    } else {
        GGML_TYPE_F16
    }
}

/// Demotes a type whose block does not divide the row length.
pub fn fit(wanted: u32, ncols: u64) -> (ggml_type: u32)
    ensures
        ggml_type == fit_spec(wanted, ncols as int),
{
    if ncols % (block_size(wanted) as u64) == 0 {
        return wanted;
    }
    let demoted: u32 = match wanted {
        GGML_TYPE_Q2_K | GGML_TYPE_Q3_K | GGML_TYPE_Q4_K | GGML_TYPE_IQ4_XS => GGML_TYPE_IQ4_NL,
        other => other,
    };
    if ncols % (block_size(demoted) as u64) == 0 {
        demoted
    } else {
        GGML_TYPE_F16
    }
}

/// The type the rules want for a matrix, before its row length has a say.
pub open spec fn wanted_spec(ftype: Ftype, name: Seq<char>, model: Model) -> u32 {
    if ftype.quantized() {
        mixture_spec(ftype, role_spec(name), layer_of(name), model)
    } else {
        ftype.base_type_spec()
    }
}

pub open spec fn plan_spec(ftype: Ftype, name: Seq<char>, dims: Seq<u64>, model: Model) -> Plan {
    if dims.len() < 2 {
        Plan { ggml_type: GGML_TYPE_F32, fallback_from: None }
    } else {
        let wanted = wanted_spec(ftype, name, model);
        let fitted = fit_spec(wanted, dims[0] as int);
        Plan {
            ggml_type: fitted,
            fallback_from: if fitted != wanted { Some(wanted) } else { None },
        }
    }
}

/// Chooses the type for one tensor.
///
/// `dims` is in GGUF order, so `dims[0]` is the row length: the dimension a block has to
/// divide. Anything that is not a matrix, every norm, stays `F32` in every file type.
pub fn plan_tensor(ftype: Ftype, name: &str, dims: &[u64], model: Model) -> (plan: Plan)
    ensures
        plan == plan_spec(ftype, name@, dims@, model),
{
    if dims.len() < 2 {
        return Plan { ggml_type: GGML_TYPE_F32, fallback_from: None };
    }
    let wanted: u32 = if ftype.is_quantized() {
        mixture(ftype, name, model)
    } else {
        ftype.base_type()
    };
    let ggml_type: u32 = fit(wanted, dims[0]);
    Plan {
        ggml_type,
        fallback_from: if ggml_type != wanted { Some(wanted) } else { None },
    }
}

/// A tensor whose stored type cannot be read back as numbers here, by its type number.
#[derive(Debug, Clone, PartialEq, Eq)]
pub struct AlreadyQuantized {
    pub ggml_type: u32,
}

impl AlreadyQuantized {
    pub open spec fn message_spec(&self) -> Seq<char> {
        "this file's tensors are already "@ + quantize::ggml_type_name_spec(self.ggml_type)
            + " — quantize from the F32, F16 or BF16 file instead"@
    }

    /// What the user is told.
    pub fn message(&self) -> (s: String)
        ensures
            s@ == self.message_spec(),
    {
        let mut out = String::new();
        out.append("this file's tensors are already ");
        out.append(ggml_type_name(self.ggml_type));
        out.append(" — quantize from the F32, F16 or BF16 file instead");
        assert(out@ =~= self.message_spec());
        out
    }
}

/// Element `i` of a tensor stored as a float type, as a single-precision bit pattern.
pub open spec fn element_bits(ggml_type: u32, bytes: Seq<u8>, i: int) -> int {
    if ggml_type == GGML_TYPE_F32 {
        ieee::from_le32(bytes, 4 * i)
    } else if ggml_type == GGML_TYPE_F16 {
        ieee::widened_half(ieee::from_le16(bytes, 2 * i) as u16)
    } else {
        65536 * ieee::from_le16(bytes, 2 * i)
    }
}

pub open spec fn is_float_type(ggml_type: u32) -> bool {
    ggml_type == GGML_TYPE_F32 || ggml_type == GGML_TYPE_F16 || ggml_type == GGML_TYPE_BF16
}

/// How many elements a decode of at most `elements` yields: as many as there are bytes for.
pub open spec fn decoded_len(ggml_type: u32, bytes: int, elements: int) -> int {
    let held = if ggml_type == GGML_TYPE_F32 { bytes / 4 } else { bytes / 2 };
    if held < elements { held } else { elements }
}

/// Reads a tensor's stored bytes back as single-precision bit patterns, at most `elements` of
/// them.
///
/// Only the float encodings are handled, and that is deliberate: quantizing a file that is
/// already quantized would compound two roundings and quietly produce something worse than
/// quantizing the unquantized weights once, so it is refused with a message that says so.
pub fn decode(ggml_type: u32, bytes: &[u8], elements: usize) -> (decoded: Result<
    Vec<u32>,
    AlreadyQuantized,
>)
    ensures
        decoded is Ok <==> is_float_type(ggml_type),
        match decoded {
            Ok(values) => {
                &&& values@.len() == decoded_len(ggml_type, bytes@.len() as int, elements as int)
                &&& forall|i: int|
                    0 <= i < values@.len() ==> #[trigger] values@[i] == element_bits(
                        ggml_type,
                        bytes@,
                        i,
                    )
            },
            Err(refused) => refused.ggml_type == ggml_type,
        },
{
    let held: usize = match ggml_type {
        GGML_TYPE_F32 => bytes.len() / 4,
        GGML_TYPE_F16 | GGML_TYPE_BF16 => bytes.len() / 2,
        other => {
            return Err(AlreadyQuantized { ggml_type: other });
        },
    };
    let count: usize = if held < elements { held } else { elements };
    let mut values: Vec<u32> = Vec::new();
    let mut i: usize = 0;
    while i < count
        invariant
            i <= count,
            ggml_type == GGML_TYPE_F32 ==> 4 * count <= bytes.len(),
            ggml_type != GGML_TYPE_F32 ==> 2 * count <= bytes.len(),
            is_float_type(ggml_type),
            values@.len() == i,
            forall|k: int|
                0 <= k < i ==> #[trigger] values@[k] == element_bits(ggml_type, bytes@, k),
        decreases count - i,
    {
        let bits: u32 = if ggml_type == GGML_TYPE_F32 {
            read_le32(bytes, 4 * i)
        } else {
            let stored: u16 = read_le16(bytes, 2 * i);
            if ggml_type == GGML_TYPE_F16 {
                half_to_single(stored)
            } else {
                65536 * stored as u32
            }
        };
        values.push(bits);
        i = i + 1;
    }
    Ok(values)
}

/// Every name a file type is listed under parses back to it.
pub proof fn law_every_name_parses_back(ftype: Ftype)
    ensures
        spelled(spelling(ftype.name_spec())) == Some(ftype),
{
    let n = ftype.name_spec();
    reveal_strlit("F32");
    reveal_strlit("F16");
    reveal_strlit("BF16");
    reveal_strlit("Q2_K");
    reveal_strlit("Q3_K_S");
    reveal_strlit("Q3_K_M");
    reveal_strlit("Q3_K_L");
    reveal_strlit("Q4_K_S");
    reveal_strlit("Q4_K_M");
    reveal_strlit("Q5_K_S");
    reveal_strlit("Q5_K_M");
    reveal_strlit("Q6_K");
    reveal_strlit("IQ4_NL");
    reveal_strlit("IQ4_XS");
    reveal_strlit("f32");
    reveal_strlit("fp32");
    reveal_strlit("f16");
    reveal_strlit("fp16");
    reveal_strlit("bf16");
    reveal_strlit("bfloat16");
    reveal_strlit("q2_k");
    reveal_strlit("q2k");
    reveal_strlit("q3_k_s");
    reveal_strlit("q3ks");
    reveal_strlit("q3_k_m");
    reveal_strlit("q3km");
    reveal_strlit("q3_k");
    reveal_strlit("q3_k_l");
    reveal_strlit("q3kl");
    reveal_strlit("q4_k_s");
    reveal_strlit("q4ks");
    reveal_strlit("q4_k_m");
    reveal_strlit("q4km");
    reveal_strlit("q4_k");
    reveal_strlit("q5_k_s");
    reveal_strlit("q5ks");
    reveal_strlit("q5_k_m");
    reveal_strlit("q5km");
    reveal_strlit("q5_k");
    reveal_strlit("q6_k");
    reveal_strlit("q6k");
    reveal_strlit("iq4_nl");
    reveal_strlit("iq4nl");
    reveal_strlit("iq4_xs");
    reveal_strlit("iq4xs");
    assert(!text::white(n[0]));
    assert(!text::white(n.last()));
    assert(text::trim_spec(n) == n);
    match ftype {
        Ftype::F32 => {
            assert(text::lower_all(n) =~= "f32"@);
            assert(spelled("f32"@) == Some(ftype));
        },
        Ftype::F16 => {
            assert(text::lower_all(n) =~= "f16"@);
            assert("f32"@[1] != "f16"@[1]);
            assert(spelled("f16"@) == Some(ftype));
        },
        Ftype::Bf16 => {
            assert(text::lower_all(n) =~= "bf16"@);
            assert("fp32"@[0] != "bf16"@[0]);
            assert("fp16"@[0] != "bf16"@[0]);
            assert(spelled("bf16"@) == Some(ftype));
        },
        Ftype::Q2K => {
            assert(text::lower_all(n) =~= "q2_k"@);
            assert("fp32"@[0] != "q2_k"@[0]);
            assert("fp16"@[0] != "q2_k"@[0]);
            assert("bf16"@[0] != "q2_k"@[0]);
            assert(spelled("q2_k"@) == Some(ftype));
        },
        Ftype::Q3KS => {
            assert(text::lower_all(n) =~= "q3_k_s"@);
            assert(spelled("q3_k_s"@) == Some(ftype));
        },
        Ftype::Q3KM => {
            assert(text::lower_all(n) =~= "q3_k_m"@);
            assert("q3_k_s"@[5] != "q3_k_m"@[5]);
            assert(spelled("q3_k_m"@) == Some(ftype));
        },
        Ftype::Q3KL => {
            assert(text::lower_all(n) =~= "q3_k_l"@);
            assert("q3_k_s"@[5] != "q3_k_l"@[5]);
            assert("q3_k_m"@[5] != "q3_k_l"@[5]);
            assert(spelled("q3_k_l"@) == Some(ftype));
        },
        Ftype::Q4KS => {
            assert(text::lower_all(n) =~= "q4_k_s"@);
            assert("q3_k_s"@[1] != "q4_k_s"@[1]);
            assert("q3_k_m"@[1] != "q4_k_s"@[1]);
            assert("q3_k_l"@[1] != "q4_k_s"@[1]);
            assert(spelled("q4_k_s"@) == Some(ftype));
        },
        Ftype::Q4KM => {
            assert(text::lower_all(n) =~= "q4_k_m"@);
            assert("q3_k_s"@[1] != "q4_k_m"@[1]);
            assert("q3_k_m"@[1] != "q4_k_m"@[1]);
            assert("q3_k_l"@[1] != "q4_k_m"@[1]);
            assert("q4_k_s"@[5] != "q4_k_m"@[5]);
            assert(spelled("q4_k_m"@) == Some(ftype));
        },
        Ftype::Q5KS => {
            assert(text::lower_all(n) =~= "q5_k_s"@);
            assert("q3_k_s"@[1] != "q5_k_s"@[1]);
            assert("q3_k_m"@[1] != "q5_k_s"@[1]);
            assert("q3_k_l"@[1] != "q5_k_s"@[1]);
            assert("q4_k_s"@[1] != "q5_k_s"@[1]);
            assert("q4_k_m"@[1] != "q5_k_s"@[1]);
            assert(spelled("q5_k_s"@) == Some(ftype));
        },
        Ftype::Q5KM => {
            assert(text::lower_all(n) =~= "q5_k_m"@);
            assert("q3_k_s"@[1] != "q5_k_m"@[1]);
            assert("q3_k_m"@[1] != "q5_k_m"@[1]);
            assert("q3_k_l"@[1] != "q5_k_m"@[1]);
            assert("q4_k_s"@[1] != "q5_k_m"@[1]);
            assert("q4_k_m"@[1] != "q5_k_m"@[1]);
            assert("q5_k_s"@[5] != "q5_k_m"@[5]);
            assert(spelled("q5_k_m"@) == Some(ftype));
        },
        Ftype::Q6K => {
            assert(text::lower_all(n) =~= "q6_k"@);
            assert("fp32"@[0] != "q6_k"@[0]);
            assert("fp16"@[0] != "q6_k"@[0]);
            assert("bf16"@[0] != "q6_k"@[0]);
            assert("q2_k"@[1] != "q6_k"@[1]);
            assert("q3ks"@[1] != "q6_k"@[1]);
            assert("q3km"@[1] != "q6_k"@[1]);
            assert("q3_k"@[1] != "q6_k"@[1]);
            assert("q3kl"@[1] != "q6_k"@[1]);
            assert("q4ks"@[1] != "q6_k"@[1]);
            assert("q4km"@[1] != "q6_k"@[1]);
            assert("q4_k"@[1] != "q6_k"@[1]);
            assert("q5ks"@[1] != "q6_k"@[1]);
            assert("q5km"@[1] != "q6_k"@[1]);
            assert("q5_k"@[1] != "q6_k"@[1]);
            assert(spelled("q6_k"@) == Some(ftype));
        },
        Ftype::IQ4NL => {
            assert(text::lower_all(n) =~= "iq4_nl"@);
            assert("q3_k_s"@[0] != "iq4_nl"@[0]);
            assert("q3_k_m"@[0] != "iq4_nl"@[0]);
            assert("q3_k_l"@[0] != "iq4_nl"@[0]);
            assert("q4_k_s"@[0] != "iq4_nl"@[0]);
            assert("q4_k_m"@[0] != "iq4_nl"@[0]);
            assert("q5_k_s"@[0] != "iq4_nl"@[0]);
            assert("q5_k_m"@[0] != "iq4_nl"@[0]);
            assert(spelled("iq4_nl"@) == Some(ftype));
        },
        Ftype::IQ4XS => {
            assert(text::lower_all(n) =~= "iq4_xs"@);
            assert("q3_k_s"@[0] != "iq4_xs"@[0]);
            assert("q3_k_m"@[0] != "iq4_xs"@[0]);
            assert("q3_k_l"@[0] != "iq4_xs"@[0]);
            assert("q4_k_s"@[0] != "iq4_xs"@[0]);
            assert("q4_k_m"@[0] != "iq4_xs"@[0]);
            assert("q5_k_s"@[0] != "iq4_xs"@[0]);
            assert("q5_k_m"@[0] != "iq4_xs"@[0]);
            assert("iq4_nl"@[4] != "iq4_xs"@[4]);
            assert(spelled("iq4_xs"@) == Some(ftype));
        },
    }
}

/// A norm, or anything else that is not a matrix, stays in full precision in every file type,
/// and nothing is recorded as overridden.
pub proof fn law_norms_stay_single(ftype: Ftype, name: Seq<char>, dims: Seq<u64>, model: Model)
    requires
        dims.len() < 2,
    ensures
        plan_spec(ftype, name, dims, model).ggml_type == GGML_TYPE_F32,
        plan_spec(ftype, name, dims, model).fallback_from is None,
{
}

/// The type a matrix is written as has a block that divides its row.
pub proof fn law_planned_block_divides_row(
    ftype: Ftype,
    name: Seq<char>,
    dims: Seq<u64>,
    model: Model,
)
    requires
        dims.len() >= 2,
    ensures
        divides(plan_spec(ftype, name, dims, model).ggml_type, dims[0] as int),
{
}

/// Every fallback is recorded, with the type the rules had chosen, and nothing else is.
pub proof fn law_every_fallback_is_recorded(
    ftype: Ftype,
    name: Seq<char>,
    dims: Seq<u64>,
    model: Model,
)
    requires
        dims.len() >= 2,
    ensures
        ({
            let plan = plan_spec(ftype, name, dims, model);
            let wanted = wanted_spec(ftype, name, model);
            &&& plan.fallback_from is None <==> plan.ggml_type == wanted
            &&& plan.fallback_from is Some ==> plan.fallback_from == Some(wanted)
        }),
{
}

/// The vocabulary projection is six bits in every quantized file whose row allows it, whatever
/// the model.
pub proof fn law_output_is_six_bits(ftype: Ftype, dims: Seq<u64>, model: Model)
    requires
        ftype.quantized(),
        dims.len() >= 2,
        dims[0] % 256 == 0,
    ensures
        plan_spec(ftype, "output.weight"@, dims, model) == (Plan {
            ggml_type: GGML_TYPE_Q6_K,
            fallback_from: None,
        }),
{
    reveal_strlit("output.weight");
    reveal_strlit("token_embd.weight");
}

proof fn lemma_le32_all(values: Seq<u32>, i: int)
    requires
        0 <= i < values.len(),
    ensures
        quantize::le32_all(values).len() == 4 * values.len(),
        ieee::from_le32(quantize::le32_all(values), 4 * i) == values[i],
    decreases values.len(),
{
    let rest = values.drop_last();
    if i < rest.len() {
        lemma_le32_all(rest, i);
        assert(rest[i] == values[i]);
    } else if rest.len() > 0 {
        lemma_le32_all(rest, 0);
    }
    let head = quantize::le32_all(rest);
    assert(head.len() == 4 * rest.len());
    if i == rest.len() {
        let x = values[i];
        assert(quantize::le32_all(values).subrange(4 * i, 4 * i + 4) =~= quantize::le32(x));
        assert(x == x % 256 + 256 * (x / 256 % 256) + 65536 * (x / 65536 % 256) + 16777216 * (x
            / 16777216));
    }
}

/// Full-precision weights survive a write and a read unchanged.
pub proof fn law_single_round_trips(values: Seq<u32>, i: int)
    requires
        0 <= i < values.len(),
    ensures
        element_bits(GGML_TYPE_F32, quantize::le32_all(values), i) == values[i],
{
    lemma_le32_all(values, i);
}

/// What a `BF16` decode gives back of a number that was encoded is the number rounded to nearest
/// even: within half of the last place that was kept.
pub proof fn law_brain_round_trips_within_rounding(bits: u32, bytes: Seq<u8>)
    requires
        !quantize::is_nan(bits),
        quantize::is_bf16_of(bytes, bits),
    ensures
        -32768 <= bits - element_bits(GGML_TYPE_BF16, bytes, 0) <= 32768,
{
}

/// The name of a tensor of block `n`.
pub open spec fn in_block(n: usize, part: Seq<char>) -> Seq<char> {
    "blk."@ + text::decimal_spec(n as nat) + "."@ + part
}

/// A tensor's name puts it in the block whose number it carries.
pub proof fn law_a_block_is_known_by_its_number(n: usize, part: Seq<char>)
    ensures
        block_index_spec(in_block(n, part)) == Some(n),
{
    reveal_strlit("blk.");
    reveal_strlit(".");
    let number = text::decimal_spec(n as nat);
    let name = in_block(n, part);
    text::law_a_decimal_reads_back(n as nat);
    assert(name.subrange(0, 4) =~= "blk."@);
    let rest = name.skip(4);
    assert(rest =~= number + "."@ + part);
    text::law_until_stops_at_the_first(rest, '.');
    let u = text::until(rest, '.');
    assert(rest[number.len() as int] == '.');
    if u.len() < number.len() {
        assert(rest[u.len() as int] == number[u.len() as int]);
        if u == rest {
            assert(false);
        }
    } else if u.len() > number.len() {
        assert(u[number.len() as int] == rest.take(u.len() as int)[number.len() as int]);
        assert(u.contains('.'));
    }
    assert(u =~= number);
}

proof fn lemma_roles(n: usize)
    ensures
        role_spec(in_block(n, "attn_v.weight"@)) == Role::AttentionValue,
        role_spec(in_block(n, "attn_output.weight"@)) == Role::AttentionOutput,
        role_spec(in_block(n, "ffn_down.weight"@)) == Role::FeedForwardDown,
{
    reveal_strlit("blk.");
    reveal_strlit(".");
    reveal_strlit("attn_v.weight");
    reveal_strlit("attn_output.weight");
    reveal_strlit("ffn_down.weight");
    reveal_strlit("token_embd.weight");
    reveal_strlit("output.weight");
    let v = in_block(n, "attn_v.weight"@);
    let o = in_block(n, "attn_output.weight"@);
    let d = in_block(n, "ffn_down.weight"@);
    assert(v[0] == 'b' && o[0] == 'b' && d[0] == 'b');
    assert("token_embd.weight"@[0] == 't' && "output.weight"@[0] == 'o');
    assert(v.subrange(v.len() - 13, v.len() as int) =~= "attn_v.weight"@);
    assert(o.subrange(o.len() - 18, o.len() as int) =~= "attn_output.weight"@);
    assert(d.subrange(d.len() - 15, d.len() as int) =~= "ffn_down.weight"@);
    if text::ends(o, "attn_v.weight"@) {
        assert(o.subrange(o.len() - 13, o.len() as int)[5] == "attn_v.weight"@[5]);
        assert(o[o.len() - 8] == "attn_output.weight"@[10]);
    }
    if text::ends(d, "attn_v.weight"@) {
        assert(d.subrange(d.len() - 13, d.len() as int)[5] == "attn_v.weight"@[5]);
        assert(d[d.len() - 8] == "ffn_down.weight"@[7]);
    }
    if text::ends(d, "attn_output.weight"@) {
        assert(d.subrange(d.len() - 18, d.len() as int)[10] == "attn_output.weight"@[10]);
        assert(d[d.len() - 8] == "ffn_down.weight"@[7]);
    }
}

/// In a four- or five-bit mixture the value and down projections of block `n` are six bits in the
/// first eighth of the stack, in the last eighth, and in every third block between; elsewhere
/// they are the file's own type. The third blocks are counted from the end of the first eighth.
pub proof fn law_medium_files_spend_six_bits_on_every_third_block(
    ftype: Ftype,
    n: usize,
    dims: Seq<u64>,
    model: Model,
    part: Seq<char>,
    k: int,
)
    requires
        ftype is Q4KM || ftype is Q5KM,
        part == "attn_v.weight"@ || part == "ffn_down.weight"@,
        dims.len() >= 2,
        dims[0] % 256 == 0,
    ensures
        ({
            let planned = plan_spec(ftype, in_block(n, part), dims, model);
            let layers = if model.layers == 0 { 1int } else { model.layers as int };
            let eighth = layers / 8;
            let base: u32 = if ftype is Q4KM { 12 } else { 13 };
            &&& planned.fallback_from is None
            &&& n < eighth ==> planned.ggml_type == 14
            &&& 8 * (n + 1) > 7 * layers ==> planned.ggml_type == 14
            &&& k >= 0 && n == eighth + 2 + 3 * k ==> planned.ggml_type == 14
            &&& n >= eighth && 8 * (n + 1) <= 7 * layers && (n == eighth + 3 * k || n == eighth
                + 3 * k + 1) ==> planned.ggml_type == base
        }),
{
    law_a_block_is_known_by_its_number(n, part);
    lemma_roles(n);
}

/// Of any three blocks in a row at least one has its value and down projections at six bits in a
/// four- or five-bit mixture.
pub proof fn law_of_three_blocks_one_has_six_bits(
    ftype: Ftype,
    n: usize,
    dims: Seq<u64>,
    model: Model,
    part: Seq<char>,
)
    requires
        ftype is Q4KM || ftype is Q5KM,
        part == "attn_v.weight"@ || part == "ffn_down.weight"@,
        n + 2 <= usize::MAX,
        dims.len() >= 2,
        dims[0] % 256 == 0,
    ensures
        plan_spec(ftype, in_block(n, part), dims, model).ggml_type == 14 || plan_spec(
            ftype,
            in_block((n + 1) as usize, part),
            dims,
            model,
        ).ggml_type == 14 || plan_spec(
            ftype,
            in_block((n + 2) as usize, part),
            dims,
            model,
        ).ggml_type == 14,
{
    let layers = if model.layers == 0 { 1int } else { model.layers as int };
    let eighth = layers / 8;
    let past = if n < eighth { 2int } else { (n - eighth) % 3 };
    let m = (n + 2 - past) as usize;
    let k = (m - eighth - 2) / 3;
    law_medium_files_spend_six_bits_on_every_third_block(ftype, m, dims, model, part, k);
    assert(n < eighth || m == eighth + 2 + 3 * k);
}

/// What each of the other mixtures gives the value projection of a block: more bits where few
/// key heads make it small, or in the first two blocks, or everywhere.
pub proof fn law_value_projections(ftype: Ftype, n: usize, dims: Seq<u64>, model: Model)
    requires
        dims.len() >= 2,
        dims[0] % 256 == 0,
    ensures
        ({
            let planned = plan_spec(ftype, in_block(n, "attn_v.weight"@), dims, model).ggml_type;
            let small = model.gqa >= 4;
            &&& ftype is F32 ==> planned == 0
            &&& ftype is F16 ==> planned == 1
            &&& ftype is Bf16 ==> planned == 30
            &&& ftype is Q2K && small ==> planned == 12
            &&& ftype is Q2K && !small ==> planned == 11
            &&& ftype is Q3KS ==> planned == 11
            &&& ftype is Q3KM && n <= 1 ==> planned == 13
            &&& ftype is Q3KM && n > 1 ==> planned == 12
            &&& ftype is Q3KL ==> planned == 13
            &&& ftype is Q4KS ==> planned == 12
            &&& ftype is Q5KS ==> planned == 13
            &&& ftype is Q6K ==> planned == 14
            &&& (ftype is IQ4NL || ftype is IQ4XS) && small ==> planned == 13
            &&& ftype is IQ4NL && !small ==> planned == 20
            &&& ftype is IQ4XS && !small ==> planned == 23
        }),
{
    law_a_block_is_known_by_its_number(n, "attn_v.weight"@);
    lemma_roles(n);
}

/// What each of the other mixtures gives the down projection of a block: more bits in the first
/// sixteenth or the first eighth of the stack, or everywhere, or nowhere.
pub proof fn law_down_projections(ftype: Ftype, n: usize, dims: Seq<u64>, model: Model)
    requires
        model.layers > 0,
        dims.len() >= 2,
        dims[0] % 256 == 0,
    ensures
        ({
            let planned = plan_spec(ftype, in_block(n, "ffn_down.weight"@), dims, model).ggml_type;
            let first_sixteenth = 16 * (n + 1) <= model.layers;
            let first_eighth = 8 * (n + 1) <= model.layers;
            &&& ftype is F32 ==> planned == 0
            &&& ftype is F16 ==> planned == 1
            &&& ftype is Bf16 ==> planned == 30
            &&& ftype is Q2K ==> planned == 11
            &&& ftype is Q3KS ==> planned == 11
            &&& ftype is Q3KM && first_sixteenth ==> planned == 13
            &&& ftype is Q3KM && !first_sixteenth ==> planned == 12
            &&& ftype is Q3KL ==> planned == 13
            &&& ftype is Q4KS && first_eighth ==> planned == 13
            &&& ftype is Q4KS && !first_eighth ==> planned == 12
            &&& ftype is Q5KS ==> planned == 13
            &&& ftype is Q6K ==> planned == 14
            &&& (ftype is IQ4NL || ftype is IQ4XS) && first_eighth ==> planned == 13
            &&& ftype is IQ4NL && !first_eighth ==> planned == 20
            &&& ftype is IQ4XS && !first_eighth ==> planned == 23
        }),
{
    law_a_block_is_known_by_its_number(n, "ffn_down.weight"@);
    lemma_roles(n);
}

/// The type most of a file is written as: what a tensor no rule singles out is planned as, and
/// the token embedding too. The attention output has more bits in the two- and three-bit
/// mixtures, and is no exception elsewhere.
pub proof fn law_everything_else_is_the_base_type(
    ftype: Ftype,
    name: Seq<char>,
    n: usize,
    dims: Seq<u64>,
    model: Model,
)
    requires
        dims.len() >= 2,
        dims[0] % 256 == 0,
        name != "output.weight"@,
        name == "token_embd.weight"@ || !(text::ends(name, "attn_v.weight"@) || text::ends(
            name,
            "attn_output.weight"@,
        ) || text::ends(name, "ffn_down.weight"@)),
    ensures
        ({
            let base: u32 = match ftype {
                Ftype::F32 => 0,
                Ftype::F16 => 1,
                Ftype::Bf16 => 30,
                Ftype::Q2K => 10,
                Ftype::Q3KS | Ftype::Q3KM | Ftype::Q3KL => 11,
                Ftype::Q4KS | Ftype::Q4KM => 12,
                Ftype::Q5KS | Ftype::Q5KM => 13,
                Ftype::Q6K => 14,
                Ftype::IQ4NL => 20,
                Ftype::IQ4XS => 23,
            };
            let output = plan_spec(ftype, in_block(n, "attn_output.weight"@), dims, model);
            &&& plan_spec(ftype, name, dims, model) == (Plan {
                ggml_type: base,
                fallback_from: None,
            })
            &&& output.fallback_from is None
            &&& output.ggml_type == match ftype {
                Ftype::Q2K => 11,
                Ftype::Q3KM => 12,
                Ftype::Q3KL => 13,
                _ => base,
            }
        }),
{
    lemma_roles(n);
}

/// A name that carries no block number is planned as one of the first block's.
pub proof fn law_no_number_is_the_first_block(
    ftype: Ftype,
    name: Seq<char>,
    dims: Seq<u64>,
    model: Model,
)
    requires
        !text::begins(name, "blk."@),
        name != "token_embd.weight"@,
        name != "output.weight"@,
    ensures
        text::ends(name, "attn_v.weight"@) ==> plan_spec(ftype, name, dims, model) == plan_spec(
            ftype,
            in_block(0, "attn_v.weight"@),
            dims,
            model,
        ),
        text::ends(name, "ffn_down.weight"@) && !text::ends(name, "attn_v.weight"@) && !text::ends(
            name,
            "attn_output.weight"@,
        ) ==> plan_spec(ftype, name, dims, model) == plan_spec(
            ftype,
            in_block(0, "ffn_down.weight"@),
            dims,
            model,
        ),
{
    law_a_block_is_known_by_its_number(0, "attn_v.weight"@);
    law_a_block_is_known_by_its_number(0, "ffn_down.weight"@);
    lemma_roles(0);
}

proof fn lemma_wanted(ftype: Ftype, name: Seq<char>, model: Model)
    ensures
        ({
            let wanted = wanted_spec(ftype, name, model);
            wanted == 0 || wanted == 1 || wanted == 30 || wanted == 20 || wanted == 23 || 10 <= wanted
                <= 14
        }),
{
}

proof fn lemma_fits(wanted: u32, ncols: int)
    requires
        wanted == 0 || wanted == 1 || wanted == 30 || wanted == 20 || wanted == 23 || 10 <= wanted
            <= 14,
    ensures
        ncols % 256 == 0 ==> ncols % 32 == 0 && fit_spec(wanted, ncols) == wanted,
        wanted == 0 || wanted == 1 || wanted == 30 ==> fit_spec(wanted, ncols) == wanted,
        wanted == 20 ==> fit_spec(wanted, ncols) == if ncols % 32 == 0 { 20u32 } else { 1 },
        (10 <= wanted <= 12 || wanted == 23) && ncols % 256 != 0 ==> fit_spec(wanted, ncols)
            == if ncols % 32 == 0 { 20u32 } else { 1 },
        13 <= wanted <= 14 && ncols % 256 != 0 ==> fit_spec(wanted, ncols) == 1,
{
    assert(ncols % 1 == 0);
    assert(ncols % 256 == 0 ==> ncols % 32 == 0);
}

/// What a row that no block divides does to a plan, told by what a 256-wide row of the same
/// tensor is planned as: the float types stay, four bits and below go to the 32-wide type where
/// that divides, the rest to half precision; and what was wanted is recorded.
pub proof fn law_a_row_that_does_not_divide_falls_back(
    ftype: Ftype,
    name: Seq<char>,
    dims: Seq<u64>,
    model: Model,
)
    requires
        dims.len() >= 2,
    ensures
        ({
            let wanted = plan_spec(ftype, name, seq![256u64, 1u64], model).ggml_type;
            let plan = plan_spec(ftype, name, dims, model);
            let whole = Plan { ggml_type: wanted, fallback_from: None };
            &&& wanted == 0 || wanted == 1 || wanted == 30 || wanted == 20 || wanted == 23 || 10
                <= wanted <= 14
            &&& dims[0] % 256 == 0 ==> plan == whole
            &&& wanted == 0 || wanted == 1 || wanted == 30 ==> plan == whole
            &&& wanted == 20 && dims[0] % 32 == 0 ==> plan == whole
            &&& (10 <= wanted <= 12 || wanted == 23) && dims[0] % 256 != 0 && dims[0] % 32 == 0
                ==> plan == (Plan { ggml_type: 20, fallback_from: Some(wanted) })
            &&& (10 <= wanted <= 12 || wanted == 23 || wanted == 20) && dims[0] % 32 != 0 ==> plan
                == (Plan { ggml_type: 1, fallback_from: Some(wanted) })
            &&& 13 <= wanted <= 14 && dims[0] % 256 != 0 ==> plan == (Plan {
                ggml_type: 1,
                fallback_from: Some(wanted),
            })
        }),
{
    let wide = seq![256u64, 1u64];
    assert(wide[0] == 256 && wide.len() == 2);
    lemma_wanted(ftype, name, model);
    let wanted = wanted_spec(ftype, name, model);
    lemma_fits(wanted, 256);
    lemma_fits(wanted, dims[0] as int);
    assert(plan_spec(ftype, name, wide, model).ggml_type == wanted);
}

/// A file type's name is that of the tensor type most of it is written as, with the size of the
/// mixture behind it where it is one of several; its listing number tells it from every other.
pub proof fn law_a_file_is_named_after_its_tensors(a: Ftype, b: Ftype)
    ensures
        ({
            let tensor = quantize::ggml_type_name_spec(a.base_type_spec());
            match a {
                Ftype::Q3KS | Ftype::Q4KS | Ftype::Q5KS => a.name_spec() == tensor + "_S"@,
                Ftype::Q3KM | Ftype::Q4KM | Ftype::Q5KM => a.name_spec() == tensor + "_M"@,
                Ftype::Q3KL => a.name_spec() == tensor + "_L"@,
                _ => a.name_spec() == tensor,
            }
        }),
        a != b ==> a.file_type_spec() != b.file_type_spec(),
        10 <= a.file_type_spec() <= 18 || a.file_type_spec() == 25 || a.file_type_spec() == 30
            <==> a.quantized(),
{
    reveal_strlit("Q3_K");
    reveal_strlit("Q4_K");
    reveal_strlit("Q5_K");
    reveal_strlit("_S");
    reveal_strlit("_M");
    reveal_strlit("_L");
    reveal_strlit("Q3_K_S");
    reveal_strlit("Q3_K_M");
    reveal_strlit("Q3_K_L");
    reveal_strlit("Q4_K_S");
    reveal_strlit("Q4_K_M");
    reveal_strlit("Q5_K_S");
    reveal_strlit("Q5_K_M");
    assert("Q3_K_S"@ =~= "Q3_K"@ + "_S"@);
    assert("Q3_K_M"@ =~= "Q3_K"@ + "_M"@);
    assert("Q3_K_L"@ =~= "Q3_K"@ + "_L"@);
    assert("Q4_K_S"@ =~= "Q4_K"@ + "_S"@);
    assert("Q4_K_M"@ =~= "Q4_K"@ + "_M"@);
    assert("Q5_K_S"@ =~= "Q5_K"@ + "_S"@);
    assert("Q5_K_M"@ =~= "Q5_K"@ + "_M"@);
}

/// A decode reads each number from its own bytes, the low one first: four to a full-precision
/// one, two to the others, of which a `BF16` is the high half of the number.
pub proof fn law_each_number_has_its_bytes(bytes: Seq<u8>, i: int, elements: int)
    requires
        0 <= i,
        0 <= elements,
    ensures
        element_bits(0, bytes, i) == bytes[4 * i] + 0x100 * bytes[4 * i + 1] + 0x1_0000 * bytes[4
            * i + 2] + 0x100_0000 * bytes[4 * i + 3],
        element_bits(30, bytes, i) == 0x1_0000 * bytes[2 * i] + 0x100_0000 * bytes[2 * i + 1],
        element_bits(1, bytes, i) == ieee::widened_half(
            (bytes[2 * i] + 256 * bytes[2 * i + 1]) as u16,
        ),
        ({
            let n = decoded_len(0, bytes.len() as int, elements);
            n <= elements && 4 * n <= bytes.len() && (n == elements || 4 * (n + 1) > bytes.len())
        }),
        ({
            let n = decoded_len(30, bytes.len() as int, elements);
            n <= elements && 2 * n <= bytes.len() && (n == elements || 2 * (n + 1) > bytes.len())
        }),
        decoded_len(1, bytes.len() as int, elements) == decoded_len(30, bytes.len() as int, elements),
{
}

proof fn lemma_spelled_f32()
    ensures
        spelled("f32"@) == Some(Ftype::F32),
{
    reveal_strlit("f32");
}

proof fn lemma_spelled_fp32()
    ensures
        spelled("fp32"@) == Some(Ftype::F32),
{
    reveal_strlit("fp32");
    reveal_strlit("f32");
    assert("f32"@.len() != "fp32"@.len());
}

proof fn lemma_spelled_f16()
    ensures
        spelled("f16"@) == Some(Ftype::F16),
{
    reveal_strlit("f16");
    reveal_strlit("f32");
    assert("f32"@[1] != "f16"@[1]);
    reveal_strlit("fp32");
    assert("fp32"@.len() != "f16"@.len());
}

proof fn lemma_spelled_fp16()
    ensures
        spelled("fp16"@) == Some(Ftype::F16),
{
    reveal_strlit("fp16");
    reveal_strlit("f32");
    assert("f32"@.len() != "fp16"@.len());
    reveal_strlit("fp32");
    assert("fp32"@[2] != "fp16"@[2]);
    reveal_strlit("f16");
    assert("f16"@.len() != "fp16"@.len());
}

proof fn lemma_spelled_bf16()
    ensures
        spelled("bf16"@) == Some(Ftype::Bf16),
{
    reveal_strlit("bf16");
    reveal_strlit("f32");
    assert("f32"@.len() != "bf16"@.len());
    reveal_strlit("fp32");
    assert("fp32"@[0] != "bf16"@[0]);
    reveal_strlit("f16");
    assert("f16"@.len() != "bf16"@.len());
    reveal_strlit("fp16");
    assert("fp16"@[0] != "bf16"@[0]);
}

proof fn lemma_spelled_bfloat16()
    ensures
        spelled("bfloat16"@) == Some(Ftype::Bf16),
{
    reveal_strlit("bfloat16");
    reveal_strlit("f32");
    assert("f32"@.len() != "bfloat16"@.len());
    reveal_strlit("fp32");
    assert("fp32"@.len() != "bfloat16"@.len());
    reveal_strlit("f16");
    assert("f16"@.len() != "bfloat16"@.len());
    reveal_strlit("fp16");
    assert("fp16"@.len() != "bfloat16"@.len());
    reveal_strlit("bf16");
    assert("bf16"@.len() != "bfloat16"@.len());
}

proof fn lemma_spelled_q2_k()
    ensures
        spelled("q2_k"@) == Some(Ftype::Q2K),
{
    reveal_strlit("q2_k");
    reveal_strlit("f32");
    assert("f32"@.len() != "q2_k"@.len());
    reveal_strlit("fp32");
    assert("fp32"@[0] != "q2_k"@[0]);
    reveal_strlit("f16");
    assert("f16"@.len() != "q2_k"@.len());
    reveal_strlit("fp16");
    assert("fp16"@[0] != "q2_k"@[0]);
    reveal_strlit("bf16");
    assert("bf16"@[0] != "q2_k"@[0]);
    reveal_strlit("bfloat16");
    assert("bfloat16"@.len() != "q2_k"@.len());
}

proof fn lemma_spelled_q2k()
    ensures
        spelled("q2k"@) == Some(Ftype::Q2K),
{
    reveal_strlit("q2k");
    reveal_strlit("f32");
    assert("f32"@[0] != "q2k"@[0]);
    reveal_strlit("fp32");
    assert("fp32"@.len() != "q2k"@.len());
    reveal_strlit("f16");
    assert("f16"@[0] != "q2k"@[0]);
    reveal_strlit("fp16");
    assert("fp16"@.len() != "q2k"@.len());
    reveal_strlit("bf16");
    assert("bf16"@.len() != "q2k"@.len());
    reveal_strlit("bfloat16");
    assert("bfloat16"@.len() != "q2k"@.len());
    reveal_strlit("q2_k");
    assert("q2_k"@.len() != "q2k"@.len());
}

proof fn lemma_spelled_q3_k_s()
    ensures
        spelled("q3_k_s"@) == Some(Ftype::Q3KS),
{
    reveal_strlit("q3_k_s");
    reveal_strlit("f32");
    assert("f32"@.len() != "q3_k_s"@.len());
    reveal_strlit("fp32");
    assert("fp32"@.len() != "q3_k_s"@.len());
    reveal_strlit("f16");
    assert("f16"@.len() != "q3_k_s"@.len());
    reveal_strlit("fp16");
    assert("fp16"@.len() != "q3_k_s"@.len());
    reveal_strlit("bf16");
    assert("bf16"@.len() != "q3_k_s"@.len());
    reveal_strlit("bfloat16");
    assert("bfloat16"@.len() != "q3_k_s"@.len());
    reveal_strlit("q2_k");
    assert("q2_k"@.len() != "q3_k_s"@.len());
    reveal_strlit("q2k");
    assert("q2k"@.len() != "q3_k_s"@.len());
}

proof fn lemma_spelled_q3ks()
    ensures
        spelled("q3ks"@) == Some(Ftype::Q3KS),
{
    reveal_strlit("q3ks");
    reveal_strlit("f32");
    assert("f32"@.len() != "q3ks"@.len());
    reveal_strlit("fp32");
    assert("fp32"@[0] != "q3ks"@[0]);
    reveal_strlit("f16");
    assert("f16"@.len() != "q3ks"@.len());
    reveal_strlit("fp16");
    assert("fp16"@[0] != "q3ks"@[0]);
    reveal_strlit("bf16");
    assert("bf16"@[0] != "q3ks"@[0]);
    reveal_strlit("bfloat16");
    assert("bfloat16"@.len() != "q3ks"@.len());
    reveal_strlit("q2_k");
    assert("q2_k"@[1] != "q3ks"@[1]);
    reveal_strlit("q2k");
    assert("q2k"@.len() != "q3ks"@.len());
    reveal_strlit("q3_k_s");
    assert("q3_k_s"@.len() != "q3ks"@.len());
}

proof fn lemma_spelled_q3_k_m()
    ensures
        spelled("q3_k_m"@) == Some(Ftype::Q3KM),
{
    reveal_strlit("q3_k_m");
    reveal_strlit("f32");
    assert("f32"@.len() != "q3_k_m"@.len());
    reveal_strlit("fp32");
    assert("fp32"@.len() != "q3_k_m"@.len());
    reveal_strlit("f16");
    assert("f16"@.len() != "q3_k_m"@.len());
    reveal_strlit("fp16");
    assert("fp16"@.len() != "q3_k_m"@.len());
    reveal_strlit("bf16");
    assert("bf16"@.len() != "q3_k_m"@.len());
    reveal_strlit("bfloat16");
    assert("bfloat16"@.len() != "q3_k_m"@.len());
    reveal_strlit("q2_k");
    assert("q2_k"@.len() != "q3_k_m"@.len());
    reveal_strlit("q2k");
    assert("q2k"@.len() != "q3_k_m"@.len());
    reveal_strlit("q3_k_s");
    assert("q3_k_s"@[5] != "q3_k_m"@[5]);
    reveal_strlit("q3ks");
    assert("q3ks"@.len() != "q3_k_m"@.len());
}

proof fn lemma_spelled_q3km()
    ensures
        spelled("q3km"@) == Some(Ftype::Q3KM),
{
    reveal_strlit("q3km");
    reveal_strlit("f32");
    assert("f32"@.len() != "q3km"@.len());
    reveal_strlit("fp32");
    assert("fp32"@[0] != "q3km"@[0]);
    reveal_strlit("f16");
    assert("f16"@.len() != "q3km"@.len());
    reveal_strlit("fp16");
    assert("fp16"@[0] != "q3km"@[0]);
    reveal_strlit("bf16");
    assert("bf16"@[0] != "q3km"@[0]);
    reveal_strlit("bfloat16");
    assert("bfloat16"@.len() != "q3km"@.len());
    reveal_strlit("q2_k");
    assert("q2_k"@[1] != "q3km"@[1]);
    reveal_strlit("q2k");
    assert("q2k"@.len() != "q3km"@.len());
    reveal_strlit("q3_k_s");
    assert("q3_k_s"@.len() != "q3km"@.len());
    reveal_strlit("q3ks");
    assert("q3ks"@[3] != "q3km"@[3]);
    reveal_strlit("q3_k_m");
    assert("q3_k_m"@.len() != "q3km"@.len());
}

proof fn lemma_spelled_q3_k()
    ensures
        spelled("q3_k"@) == Some(Ftype::Q3KM),
{
    reveal_strlit("q3_k");
    reveal_strlit("f32");
    assert("f32"@.len() != "q3_k"@.len());
    reveal_strlit("fp32");
    assert("fp32"@[0] != "q3_k"@[0]);
    reveal_strlit("f16");
    assert("f16"@.len() != "q3_k"@.len());
    reveal_strlit("fp16");
    assert("fp16"@[0] != "q3_k"@[0]);
    reveal_strlit("bf16");
    assert("bf16"@[0] != "q3_k"@[0]);
    reveal_strlit("bfloat16");
    assert("bfloat16"@.len() != "q3_k"@.len());
    reveal_strlit("q2_k");
    assert("q2_k"@[1] != "q3_k"@[1]);
    reveal_strlit("q2k");
    assert("q2k"@.len() != "q3_k"@.len());
    reveal_strlit("q3_k_s");
    assert("q3_k_s"@.len() != "q3_k"@.len());
    reveal_strlit("q3ks");
    assert("q3ks"@[2] != "q3_k"@[2]);
    reveal_strlit("q3_k_m");
    assert("q3_k_m"@.len() != "q3_k"@.len());
    reveal_strlit("q3km");
    assert("q3km"@[2] != "q3_k"@[2]);
}

proof fn lemma_spelled_q3_k_l()
    ensures
        spelled("q3_k_l"@) == Some(Ftype::Q3KL),
{
    reveal_strlit("q3_k_l");
    reveal_strlit("f32");
    assert("f32"@.len() != "q3_k_l"@.len());
    reveal_strlit("fp32");
    assert("fp32"@.len() != "q3_k_l"@.len());
    reveal_strlit("f16");
    assert("f16"@.len() != "q3_k_l"@.len());
    reveal_strlit("fp16");
    assert("fp16"@.len() != "q3_k_l"@.len());
    reveal_strlit("bf16");
    assert("bf16"@.len() != "q3_k_l"@.len());
    reveal_strlit("bfloat16");
    assert("bfloat16"@.len() != "q3_k_l"@.len());
    reveal_strlit("q2_k");
    assert("q2_k"@.len() != "q3_k_l"@.len());
    reveal_strlit("q2k");
    assert("q2k"@.len() != "q3_k_l"@.len());
    reveal_strlit("q3_k_s");
    assert("q3_k_s"@[5] != "q3_k_l"@[5]);
    reveal_strlit("q3ks");
    assert("q3ks"@.len() != "q3_k_l"@.len());
    reveal_strlit("q3_k_m");
    assert("q3_k_m"@[5] != "q3_k_l"@[5]);
    reveal_strlit("q3km");
    assert("q3km"@.len() != "q3_k_l"@.len());
    reveal_strlit("q3_k");
    assert("q3_k"@.len() != "q3_k_l"@.len());
}

proof fn lemma_spelled_q3kl()
    ensures
        spelled("q3kl"@) == Some(Ftype::Q3KL),
{
    reveal_strlit("q3kl");
    reveal_strlit("f32");
    assert("f32"@.len() != "q3kl"@.len());
    reveal_strlit("fp32");
    assert("fp32"@[0] != "q3kl"@[0]);
    reveal_strlit("f16");
    assert("f16"@.len() != "q3kl"@.len());
    reveal_strlit("fp16");
    assert("fp16"@[0] != "q3kl"@[0]);
    reveal_strlit("bf16");
    assert("bf16"@[0] != "q3kl"@[0]);
    reveal_strlit("bfloat16");
    assert("bfloat16"@.len() != "q3kl"@.len());
    reveal_strlit("q2_k");
    assert("q2_k"@[1] != "q3kl"@[1]);
    reveal_strlit("q2k");
    assert("q2k"@.len() != "q3kl"@.len());
    reveal_strlit("q3_k_s");
    assert("q3_k_s"@.len() != "q3kl"@.len());
    reveal_strlit("q3ks");
    assert("q3ks"@[3] != "q3kl"@[3]);
    reveal_strlit("q3_k_m");
    assert("q3_k_m"@.len() != "q3kl"@.len());
    reveal_strlit("q3km");
    assert("q3km"@[3] != "q3kl"@[3]);
    reveal_strlit("q3_k");
    assert("q3_k"@[2] != "q3kl"@[2]);
    reveal_strlit("q3_k_l");
    assert("q3_k_l"@.len() != "q3kl"@.len());
}

proof fn lemma_spelled_q4_k_s()
    ensures
        spelled("q4_k_s"@) == Some(Ftype::Q4KS),
{
    reveal_strlit("q4_k_s");
    reveal_strlit("f32");
    assert("f32"@.len() != "q4_k_s"@.len());
    reveal_strlit("fp32");
    assert("fp32"@.len() != "q4_k_s"@.len());
    reveal_strlit("f16");
    assert("f16"@.len() != "q4_k_s"@.len());
    reveal_strlit("fp16");
    assert("fp16"@.len() != "q4_k_s"@.len());
    reveal_strlit("bf16");
    assert("bf16"@.len() != "q4_k_s"@.len());
    reveal_strlit("bfloat16");
    assert("bfloat16"@.len() != "q4_k_s"@.len());
    reveal_strlit("q2_k");
    assert("q2_k"@.len() != "q4_k_s"@.len());
    reveal_strlit("q2k");
    assert("q2k"@.len() != "q4_k_s"@.len());
    reveal_strlit("q3_k_s");
    assert("q3_k_s"@[1] != "q4_k_s"@[1]);
    reveal_strlit("q3ks");
    assert("q3ks"@.len() != "q4_k_s"@.len());
    reveal_strlit("q3_k_m");
    assert("q3_k_m"@[1] != "q4_k_s"@[1]);
    reveal_strlit("q3km");
    assert("q3km"@.len() != "q4_k_s"@.len());
    reveal_strlit("q3_k");
    assert("q3_k"@.len() != "q4_k_s"@.len());
    reveal_strlit("q3_k_l");
    assert("q3_k_l"@[1] != "q4_k_s"@[1]);
    reveal_strlit("q3kl");
    assert("q3kl"@.len() != "q4_k_s"@.len());
}

proof fn lemma_spelled_q4ks()
    ensures
        spelled("q4ks"@) == Some(Ftype::Q4KS),
{
    reveal_strlit("q4ks");
    reveal_strlit("f32");
    assert("f32"@.len() != "q4ks"@.len());
    reveal_strlit("fp32");
    assert("fp32"@[0] != "q4ks"@[0]);
    reveal_strlit("f16");
    assert("f16"@.len() != "q4ks"@.len());
    reveal_strlit("fp16");
    assert("fp16"@[0] != "q4ks"@[0]);
    reveal_strlit("bf16");
    assert("bf16"@[0] != "q4ks"@[0]);
    reveal_strlit("bfloat16");
    assert("bfloat16"@.len() != "q4ks"@.len());
    reveal_strlit("q2_k");
    assert("q2_k"@[1] != "q4ks"@[1]);
    reveal_strlit("q2k");
    assert("q2k"@.len() != "q4ks"@.len());
    reveal_strlit("q3_k_s");
    assert("q3_k_s"@.len() != "q4ks"@.len());
    reveal_strlit("q3ks");
    assert("q3ks"@[1] != "q4ks"@[1]);
    reveal_strlit("q3_k_m");
    assert("q3_k_m"@.len() != "q4ks"@.len());
    reveal_strlit("q3km");
    assert("q3km"@[1] != "q4ks"@[1]);
    reveal_strlit("q3_k");
    assert("q3_k"@[1] != "q4ks"@[1]);
    reveal_strlit("q3_k_l");
    assert("q3_k_l"@.len() != "q4ks"@.len());
    reveal_strlit("q3kl");
    assert("q3kl"@[1] != "q4ks"@[1]);
    reveal_strlit("q4_k_s");
    assert("q4_k_s"@.len() != "q4ks"@.len());
}

proof fn lemma_spelled_q4_k_m()
    ensures
        spelled("q4_k_m"@) == Some(Ftype::Q4KM),
{
    reveal_strlit("q4_k_m");
    reveal_strlit("f32");
    assert("f32"@.len() != "q4_k_m"@.len());
    reveal_strlit("fp32");
    assert("fp32"@.len() != "q4_k_m"@.len());
    reveal_strlit("f16");
    assert("f16"@.len() != "q4_k_m"@.len());
    reveal_strlit("fp16");
    assert("fp16"@.len() != "q4_k_m"@.len());
    reveal_strlit("bf16");
    assert("bf16"@.len() != "q4_k_m"@.len());
    reveal_strlit("bfloat16");
    assert("bfloat16"@.len() != "q4_k_m"@.len());
    reveal_strlit("q2_k");
    assert("q2_k"@.len() != "q4_k_m"@.len());
    reveal_strlit("q2k");
    assert("q2k"@.len() != "q4_k_m"@.len());
    reveal_strlit("q3_k_s");
    assert("q3_k_s"@[1] != "q4_k_m"@[1]);
    reveal_strlit("q3ks");
    assert("q3ks"@.len() != "q4_k_m"@.len());
    reveal_strlit("q3_k_m");
    assert("q3_k_m"@[1] != "q4_k_m"@[1]);
    reveal_strlit("q3km");
    assert("q3km"@.len() != "q4_k_m"@.len());
    reveal_strlit("q3_k");
    assert("q3_k"@.len() != "q4_k_m"@.len());
    reveal_strlit("q3_k_l");
    assert("q3_k_l"@[1] != "q4_k_m"@[1]);
    reveal_strlit("q3kl");
    assert("q3kl"@.len() != "q4_k_m"@.len());
    reveal_strlit("q4_k_s");
    assert("q4_k_s"@[5] != "q4_k_m"@[5]);
    reveal_strlit("q4ks");
    assert("q4ks"@.len() != "q4_k_m"@.len());
}

proof fn lemma_spelled_q4km()
    ensures
        spelled("q4km"@) == Some(Ftype::Q4KM),
{
    reveal_strlit("q4km");
    reveal_strlit("f32");
    assert("f32"@.len() != "q4km"@.len());
    reveal_strlit("fp32");
    assert("fp32"@[0] != "q4km"@[0]);
    reveal_strlit("f16");
    assert("f16"@.len() != "q4km"@.len());
    reveal_strlit("fp16");
    assert("fp16"@[0] != "q4km"@[0]);
    reveal_strlit("bf16");
    assert("bf16"@[0] != "q4km"@[0]);
    reveal_strlit("bfloat16");
    assert("bfloat16"@.len() != "q4km"@.len());
    reveal_strlit("q2_k");
    assert("q2_k"@[1] != "q4km"@[1]);
    reveal_strlit("q2k");
    assert("q2k"@.len() != "q4km"@.len());
    reveal_strlit("q3_k_s");
    assert("q3_k_s"@.len() != "q4km"@.len());
    reveal_strlit("q3ks");
    assert("q3ks"@[1] != "q4km"@[1]);
    reveal_strlit("q3_k_m");
    assert("q3_k_m"@.len() != "q4km"@.len());
    reveal_strlit("q3km");
    assert("q3km"@[1] != "q4km"@[1]);
    reveal_strlit("q3_k");
    assert("q3_k"@[1] != "q4km"@[1]);
    reveal_strlit("q3_k_l");
    assert("q3_k_l"@.len() != "q4km"@.len());
    reveal_strlit("q3kl");
    assert("q3kl"@[1] != "q4km"@[1]);
    reveal_strlit("q4_k_s");
    assert("q4_k_s"@.len() != "q4km"@.len());
    reveal_strlit("q4ks");
    assert("q4ks"@[3] != "q4km"@[3]);
    reveal_strlit("q4_k_m");
    assert("q4_k_m"@.len() != "q4km"@.len());
}

proof fn lemma_spelled_q4_k()
    ensures
        spelled("q4_k"@) == Some(Ftype::Q4KM),
{
    reveal_strlit("q4_k");
    reveal_strlit("f32");
    assert("f32"@.len() != "q4_k"@.len());
    reveal_strlit("fp32");
    assert("fp32"@[0] != "q4_k"@[0]);
    reveal_strlit("f16");
    assert("f16"@.len() != "q4_k"@.len());
    reveal_strlit("fp16");
    assert("fp16"@[0] != "q4_k"@[0]);
    reveal_strlit("bf16");
    assert("bf16"@[0] != "q4_k"@[0]);
    reveal_strlit("bfloat16");
    assert("bfloat16"@.len() != "q4_k"@.len());
    reveal_strlit("q2_k");
    assert("q2_k"@[1] != "q4_k"@[1]);
    reveal_strlit("q2k");
    assert("q2k"@.len() != "q4_k"@.len());
    reveal_strlit("q3_k_s");
    assert("q3_k_s"@.len() != "q4_k"@.len());
    reveal_strlit("q3ks");
    assert("q3ks"@[1] != "q4_k"@[1]);
    reveal_strlit("q3_k_m");
    assert("q3_k_m"@.len() != "q4_k"@.len());
    reveal_strlit("q3km");
    assert("q3km"@[1] != "q4_k"@[1]);
    reveal_strlit("q3_k");
    assert("q3_k"@[1] != "q4_k"@[1]);
    reveal_strlit("q3_k_l");
    assert("q3_k_l"@.len() != "q4_k"@.len());
    reveal_strlit("q3kl");
    assert("q3kl"@[1] != "q4_k"@[1]);
    reveal_strlit("q4_k_s");
    assert("q4_k_s"@.len() != "q4_k"@.len());
    reveal_strlit("q4ks");
    assert("q4ks"@[2] != "q4_k"@[2]);
    reveal_strlit("q4_k_m");
    assert("q4_k_m"@.len() != "q4_k"@.len());
    reveal_strlit("q4km");
    assert("q4km"@[2] != "q4_k"@[2]);
}

proof fn lemma_spelled_q5_k_s()
    ensures
        spelled("q5_k_s"@) == Some(Ftype::Q5KS),
{
    reveal_strlit("q5_k_s");
    reveal_strlit("f32");
    assert("f32"@.len() != "q5_k_s"@.len());
    reveal_strlit("fp32");
    assert("fp32"@.len() != "q5_k_s"@.len());
    reveal_strlit("f16");
    assert("f16"@.len() != "q5_k_s"@.len());
    reveal_strlit("fp16");
    assert("fp16"@.len() != "q5_k_s"@.len());
    reveal_strlit("bf16");
    assert("bf16"@.len() != "q5_k_s"@.len());
    reveal_strlit("bfloat16");
    assert("bfloat16"@.len() != "q5_k_s"@.len());
    reveal_strlit("q2_k");
    assert("q2_k"@.len() != "q5_k_s"@.len());
    reveal_strlit("q2k");
    assert("q2k"@.len() != "q5_k_s"@.len());
    reveal_strlit("q3_k_s");
    assert("q3_k_s"@[1] != "q5_k_s"@[1]);
    reveal_strlit("q3ks");
    assert("q3ks"@.len() != "q5_k_s"@.len());
    reveal_strlit("q3_k_m");
    assert("q3_k_m"@[1] != "q5_k_s"@[1]);
    reveal_strlit("q3km");
    assert("q3km"@.len() != "q5_k_s"@.len());
    reveal_strlit("q3_k");
    assert("q3_k"@.len() != "q5_k_s"@.len());
    reveal_strlit("q3_k_l");
    assert("q3_k_l"@[1] != "q5_k_s"@[1]);
    reveal_strlit("q3kl");
    assert("q3kl"@.len() != "q5_k_s"@.len());
    reveal_strlit("q4_k_s");
    assert("q4_k_s"@[1] != "q5_k_s"@[1]);
    reveal_strlit("q4ks");
    assert("q4ks"@.len() != "q5_k_s"@.len());
    reveal_strlit("q4_k_m");
    assert("q4_k_m"@[1] != "q5_k_s"@[1]);
    reveal_strlit("q4km");
    assert("q4km"@.len() != "q5_k_s"@.len());
    reveal_strlit("q4_k");
    assert("q4_k"@.len() != "q5_k_s"@.len());
}

proof fn lemma_spelled_q5ks()
    ensures
        spelled("q5ks"@) == Some(Ftype::Q5KS),
{
    reveal_strlit("q5ks");
    reveal_strlit("f32");
    assert("f32"@.len() != "q5ks"@.len());
    reveal_strlit("fp32");
    assert("fp32"@[0] != "q5ks"@[0]);
    reveal_strlit("f16");
    assert("f16"@.len() != "q5ks"@.len());
    reveal_strlit("fp16");
    assert("fp16"@[0] != "q5ks"@[0]);
    reveal_strlit("bf16");
    assert("bf16"@[0] != "q5ks"@[0]);
    reveal_strlit("bfloat16");
    assert("bfloat16"@.len() != "q5ks"@.len());
    reveal_strlit("q2_k");
    assert("q2_k"@[1] != "q5ks"@[1]);
    reveal_strlit("q2k");
    assert("q2k"@.len() != "q5ks"@.len());
    reveal_strlit("q3_k_s");
    assert("q3_k_s"@.len() != "q5ks"@.len());
    reveal_strlit("q3ks");
    assert("q3ks"@[1] != "q5ks"@[1]);
    reveal_strlit("q3_k_m");
    assert("q3_k_m"@.len() != "q5ks"@.len());
    reveal_strlit("q3km");
    assert("q3km"@[1] != "q5ks"@[1]);
    reveal_strlit("q3_k");
    assert("q3_k"@[1] != "q5ks"@[1]);
    reveal_strlit("q3_k_l");
    assert("q3_k_l"@.len() != "q5ks"@.len());
    reveal_strlit("q3kl");
    assert("q3kl"@[1] != "q5ks"@[1]);
    reveal_strlit("q4_k_s");
    assert("q4_k_s"@.len() != "q5ks"@.len());
    reveal_strlit("q4ks");
    assert("q4ks"@[1] != "q5ks"@[1]);
    reveal_strlit("q4_k_m");
    assert("q4_k_m"@.len() != "q5ks"@.len());
    reveal_strlit("q4km");
    assert("q4km"@[1] != "q5ks"@[1]);
    reveal_strlit("q4_k");
    assert("q4_k"@[1] != "q5ks"@[1]);
    reveal_strlit("q5_k_s");
    assert("q5_k_s"@.len() != "q5ks"@.len());
}

proof fn lemma_spelled_q5_k_m()
    ensures
        spelled("q5_k_m"@) == Some(Ftype::Q5KM),
{
    reveal_strlit("q5_k_m");
    reveal_strlit("f32");
    assert("f32"@.len() != "q5_k_m"@.len());
    reveal_strlit("fp32");
    assert("fp32"@.len() != "q5_k_m"@.len());
    reveal_strlit("f16");
    assert("f16"@.len() != "q5_k_m"@.len());
    reveal_strlit("fp16");
    assert("fp16"@.len() != "q5_k_m"@.len());
    reveal_strlit("bf16");
    assert("bf16"@.len() != "q5_k_m"@.len());
    reveal_strlit("bfloat16");
    assert("bfloat16"@.len() != "q5_k_m"@.len());
    reveal_strlit("q2_k");
    assert("q2_k"@.len() != "q5_k_m"@.len());
    reveal_strlit("q2k");
    assert("q2k"@.len() != "q5_k_m"@.len());
    reveal_strlit("q3_k_s");
    assert("q3_k_s"@[1] != "q5_k_m"@[1]);
    reveal_strlit("q3ks");
    assert("q3ks"@.len() != "q5_k_m"@.len());
    reveal_strlit("q3_k_m");
    assert("q3_k_m"@[1] != "q5_k_m"@[1]);
    reveal_strlit("q3km");
    assert("q3km"@.len() != "q5_k_m"@.len());
    reveal_strlit("q3_k");
    assert("q3_k"@.len() != "q5_k_m"@.len());
    reveal_strlit("q3_k_l");
    assert("q3_k_l"@[1] != "q5_k_m"@[1]);
    reveal_strlit("q3kl");
    assert("q3kl"@.len() != "q5_k_m"@.len());
    reveal_strlit("q4_k_s");
    assert("q4_k_s"@[1] != "q5_k_m"@[1]);
    reveal_strlit("q4ks");
    assert("q4ks"@.len() != "q5_k_m"@.len());
    reveal_strlit("q4_k_m");
    assert("q4_k_m"@[1] != "q5_k_m"@[1]);
    reveal_strlit("q4km");
    assert("q4km"@.len() != "q5_k_m"@.len());
    reveal_strlit("q4_k");
    assert("q4_k"@.len() != "q5_k_m"@.len());
    reveal_strlit("q5_k_s");
    assert("q5_k_s"@[5] != "q5_k_m"@[5]);
    reveal_strlit("q5ks");
    assert("q5ks"@.len() != "q5_k_m"@.len());
}

proof fn lemma_spelled_q5km()
    ensures
        spelled("q5km"@) == Some(Ftype::Q5KM),
{
    reveal_strlit("q5km");
    reveal_strlit("f32");
    assert("f32"@.len() != "q5km"@.len());
    reveal_strlit("fp32");
    assert("fp32"@[0] != "q5km"@[0]);
    reveal_strlit("f16");
    assert("f16"@.len() != "q5km"@.len());
    reveal_strlit("fp16");
    assert("fp16"@[0] != "q5km"@[0]);
    reveal_strlit("bf16");
    assert("bf16"@[0] != "q5km"@[0]);
    reveal_strlit("bfloat16");
    assert("bfloat16"@.len() != "q5km"@.len());
    reveal_strlit("q2_k");
    assert("q2_k"@[1] != "q5km"@[1]);
    reveal_strlit("q2k");
    assert("q2k"@.len() != "q5km"@.len());
    reveal_strlit("q3_k_s");
    assert("q3_k_s"@.len() != "q5km"@.len());
    reveal_strlit("q3ks");
    assert("q3ks"@[1] != "q5km"@[1]);
    reveal_strlit("q3_k_m");
    assert("q3_k_m"@.len() != "q5km"@.len());
    reveal_strlit("q3km");
    assert("q3km"@[1] != "q5km"@[1]);
    reveal_strlit("q3_k");
    assert("q3_k"@[1] != "q5km"@[1]);
    reveal_strlit("q3_k_l");
    assert("q3_k_l"@.len() != "q5km"@.len());
    reveal_strlit("q3kl");
    assert("q3kl"@[1] != "q5km"@[1]);
    reveal_strlit("q4_k_s");
    assert("q4_k_s"@.len() != "q5km"@.len());
    reveal_strlit("q4ks");
    assert("q4ks"@[1] != "q5km"@[1]);
    reveal_strlit("q4_k_m");
    assert("q4_k_m"@.len() != "q5km"@.len());
    reveal_strlit("q4km");
    assert("q4km"@[1] != "q5km"@[1]);
    reveal_strlit("q4_k");
    assert("q4_k"@[1] != "q5km"@[1]);
    reveal_strlit("q5_k_s");
    assert("q5_k_s"@.len() != "q5km"@.len());
    reveal_strlit("q5ks");
    assert("q5ks"@[3] != "q5km"@[3]);
    reveal_strlit("q5_k_m");
    assert("q5_k_m"@.len() != "q5km"@.len());
}

proof fn lemma_spelled_q5_k()
    ensures
        spelled("q5_k"@) == Some(Ftype::Q5KM),
{
    reveal_strlit("q5_k");
    reveal_strlit("f32");
    assert("f32"@.len() != "q5_k"@.len());
    reveal_strlit("fp32");
    assert("fp32"@[0] != "q5_k"@[0]);
    reveal_strlit("f16");
    assert("f16"@.len() != "q5_k"@.len());
    reveal_strlit("fp16");
    assert("fp16"@[0] != "q5_k"@[0]);
    reveal_strlit("bf16");
    assert("bf16"@[0] != "q5_k"@[0]);
    reveal_strlit("bfloat16");
    assert("bfloat16"@.len() != "q5_k"@.len());
    reveal_strlit("q2_k");
    assert("q2_k"@[1] != "q5_k"@[1]);
    reveal_strlit("q2k");
    assert("q2k"@.len() != "q5_k"@.len());
    reveal_strlit("q3_k_s");
    assert("q3_k_s"@.len() != "q5_k"@.len());
    reveal_strlit("q3ks");
    assert("q3ks"@[1] != "q5_k"@[1]);
    reveal_strlit("q3_k_m");
    assert("q3_k_m"@.len() != "q5_k"@.len());
    reveal_strlit("q3km");
    assert("q3km"@[1] != "q5_k"@[1]);
    reveal_strlit("q3_k");
    assert("q3_k"@[1] != "q5_k"@[1]);
    reveal_strlit("q3_k_l");
    assert("q3_k_l"@.len() != "q5_k"@.len());
    reveal_strlit("q3kl");
    assert("q3kl"@[1] != "q5_k"@[1]);
    reveal_strlit("q4_k_s");
    assert("q4_k_s"@.len() != "q5_k"@.len());
    reveal_strlit("q4ks");
    assert("q4ks"@[1] != "q5_k"@[1]);
    reveal_strlit("q4_k_m");
    assert("q4_k_m"@.len() != "q5_k"@.len());
    reveal_strlit("q4km");
    assert("q4km"@[1] != "q5_k"@[1]);
    reveal_strlit("q4_k");
    assert("q4_k"@[1] != "q5_k"@[1]);
    reveal_strlit("q5_k_s");
    assert("q5_k_s"@.len() != "q5_k"@.len());
    reveal_strlit("q5ks");
    assert("q5ks"@[2] != "q5_k"@[2]);
    reveal_strlit("q5_k_m");
    assert("q5_k_m"@.len() != "q5_k"@.len());
    reveal_strlit("q5km");
    assert("q5km"@[2] != "q5_k"@[2]);
}

proof fn lemma_spelled_q6_k()
    ensures
        spelled("q6_k"@) == Some(Ftype::Q6K),
{
    reveal_strlit("q6_k");
    reveal_strlit("f32");
    assert("f32"@.len() != "q6_k"@.len());
    reveal_strlit("fp32");
    assert("fp32"@[0] != "q6_k"@[0]);
    reveal_strlit("f16");
    assert("f16"@.len() != "q6_k"@.len());
    reveal_strlit("fp16");
    assert("fp16"@[0] != "q6_k"@[0]);
    reveal_strlit("bf16");
    assert("bf16"@[0] != "q6_k"@[0]);
    reveal_strlit("bfloat16");
    assert("bfloat16"@.len() != "q6_k"@.len());
    reveal_strlit("q2_k");
    assert("q2_k"@[1] != "q6_k"@[1]);
    reveal_strlit("q2k");
    assert("q2k"@.len() != "q6_k"@.len());
    reveal_strlit("q3_k_s");
    assert("q3_k_s"@.len() != "q6_k"@.len());
    reveal_strlit("q3ks");
    assert("q3ks"@[1] != "q6_k"@[1]);
    reveal_strlit("q3_k_m");
    assert("q3_k_m"@.len() != "q6_k"@.len());
    reveal_strlit("q3km");
    assert("q3km"@[1] != "q6_k"@[1]);
    reveal_strlit("q3_k");
    assert("q3_k"@[1] != "q6_k"@[1]);
    reveal_strlit("q3_k_l");
    assert("q3_k_l"@.len() != "q6_k"@.len());
    reveal_strlit("q3kl");
    assert("q3kl"@[1] != "q6_k"@[1]);
    reveal_strlit("q4_k_s");
    assert("q4_k_s"@.len() != "q6_k"@.len());
    reveal_strlit("q4ks");
    assert("q4ks"@[1] != "q6_k"@[1]);
    reveal_strlit("q4_k_m");
    assert("q4_k_m"@.len() != "q6_k"@.len());
    reveal_strlit("q4km");
    assert("q4km"@[1] != "q6_k"@[1]);
    reveal_strlit("q4_k");
    assert("q4_k"@[1] != "q6_k"@[1]);
    reveal_strlit("q5_k_s");
    assert("q5_k_s"@.len() != "q6_k"@.len());
    reveal_strlit("q5ks");
    assert("q5ks"@[1] != "q6_k"@[1]);
    reveal_strlit("q5_k_m");
    assert("q5_k_m"@.len() != "q6_k"@.len());
    reveal_strlit("q5km");
    assert("q5km"@[1] != "q6_k"@[1]);
    reveal_strlit("q5_k");
    assert("q5_k"@[1] != "q6_k"@[1]);
}

proof fn lemma_spelled_q6k()
    ensures
        spelled("q6k"@) == Some(Ftype::Q6K),
{
    reveal_strlit("q6k");
    reveal_strlit("f32");
    assert("f32"@[0] != "q6k"@[0]);
    reveal_strlit("fp32");
    assert("fp32"@.len() != "q6k"@.len());
    reveal_strlit("f16");
    assert("f16"@[0] != "q6k"@[0]);
    reveal_strlit("fp16");
    assert("fp16"@.len() != "q6k"@.len());
    reveal_strlit("bf16");
    assert("bf16"@.len() != "q6k"@.len());
    reveal_strlit("bfloat16");
    assert("bfloat16"@.len() != "q6k"@.len());
    reveal_strlit("q2_k");
    assert("q2_k"@.len() != "q6k"@.len());
    reveal_strlit("q2k");
    assert("q2k"@[1] != "q6k"@[1]);
    reveal_strlit("q3_k_s");
    assert("q3_k_s"@.len() != "q6k"@.len());
    reveal_strlit("q3ks");
    assert("q3ks"@.len() != "q6k"@.len());
    reveal_strlit("q3_k_m");
    assert("q3_k_m"@.len() != "q6k"@.len());
    reveal_strlit("q3km");
    assert("q3km"@.len() != "q6k"@.len());
    reveal_strlit("q3_k");
    assert("q3_k"@.len() != "q6k"@.len());
    reveal_strlit("q3_k_l");
    assert("q3_k_l"@.len() != "q6k"@.len());
    reveal_strlit("q3kl");
    assert("q3kl"@.len() != "q6k"@.len());
    reveal_strlit("q4_k_s");
    assert("q4_k_s"@.len() != "q6k"@.len());
    reveal_strlit("q4ks");
    assert("q4ks"@.len() != "q6k"@.len());
    reveal_strlit("q4_k_m");
    assert("q4_k_m"@.len() != "q6k"@.len());
    reveal_strlit("q4km");
    assert("q4km"@.len() != "q6k"@.len());
    reveal_strlit("q4_k");
    assert("q4_k"@.len() != "q6k"@.len());
    reveal_strlit("q5_k_s");
    assert("q5_k_s"@.len() != "q6k"@.len());
    reveal_strlit("q5ks");
    assert("q5ks"@.len() != "q6k"@.len());
    reveal_strlit("q5_k_m");
    assert("q5_k_m"@.len() != "q6k"@.len());
    reveal_strlit("q5km");
    assert("q5km"@.len() != "q6k"@.len());
    reveal_strlit("q5_k");
    assert("q5_k"@.len() != "q6k"@.len());
    reveal_strlit("q6_k");
    assert("q6_k"@.len() != "q6k"@.len());
}

proof fn lemma_spelled_iq4_nl()
    ensures
        spelled("iq4_nl"@) == Some(Ftype::IQ4NL),
{
    reveal_strlit("iq4_nl");
    reveal_strlit("f32");
    assert("f32"@.len() != "iq4_nl"@.len());
    reveal_strlit("fp32");
    assert("fp32"@.len() != "iq4_nl"@.len());
    reveal_strlit("f16");
    assert("f16"@.len() != "iq4_nl"@.len());
    reveal_strlit("fp16");
    assert("fp16"@.len() != "iq4_nl"@.len());
    reveal_strlit("bf16");
    assert("bf16"@.len() != "iq4_nl"@.len());
    reveal_strlit("bfloat16");
    assert("bfloat16"@.len() != "iq4_nl"@.len());
    reveal_strlit("q2_k");
    assert("q2_k"@.len() != "iq4_nl"@.len());
    reveal_strlit("q2k");
    assert("q2k"@.len() != "iq4_nl"@.len());
    reveal_strlit("q3_k_s");
    assert("q3_k_s"@[0] != "iq4_nl"@[0]);
    reveal_strlit("q3ks");
    assert("q3ks"@.len() != "iq4_nl"@.len());
    reveal_strlit("q3_k_m");
    assert("q3_k_m"@[0] != "iq4_nl"@[0]);
    reveal_strlit("q3km");
    assert("q3km"@.len() != "iq4_nl"@.len());
    reveal_strlit("q3_k");
    assert("q3_k"@.len() != "iq4_nl"@.len());
    reveal_strlit("q3_k_l");
    assert("q3_k_l"@[0] != "iq4_nl"@[0]);
    reveal_strlit("q3kl");
    assert("q3kl"@.len() != "iq4_nl"@.len());
    reveal_strlit("q4_k_s");
    assert("q4_k_s"@[0] != "iq4_nl"@[0]);
    reveal_strlit("q4ks");
    assert("q4ks"@.len() != "iq4_nl"@.len());
    reveal_strlit("q4_k_m");
    assert("q4_k_m"@[0] != "iq4_nl"@[0]);
    reveal_strlit("q4km");
    assert("q4km"@.len() != "iq4_nl"@.len());
    reveal_strlit("q4_k");
    assert("q4_k"@.len() != "iq4_nl"@.len());
    reveal_strlit("q5_k_s");
    assert("q5_k_s"@[0] != "iq4_nl"@[0]);
    reveal_strlit("q5ks");
    assert("q5ks"@.len() != "iq4_nl"@.len());
    reveal_strlit("q5_k_m");
    assert("q5_k_m"@[0] != "iq4_nl"@[0]);
    reveal_strlit("q5km");
    assert("q5km"@.len() != "iq4_nl"@.len());
    reveal_strlit("q5_k");
    assert("q5_k"@.len() != "iq4_nl"@.len());
    reveal_strlit("q6_k");
    assert("q6_k"@.len() != "iq4_nl"@.len());
    reveal_strlit("q6k");
    assert("q6k"@.len() != "iq4_nl"@.len());
}

proof fn lemma_spelled_iq4nl()
    ensures
        spelled("iq4nl"@) == Some(Ftype::IQ4NL),
{
    reveal_strlit("iq4nl");
    reveal_strlit("f32");
    assert("f32"@.len() != "iq4nl"@.len());
    reveal_strlit("fp32");
    assert("fp32"@.len() != "iq4nl"@.len());
    reveal_strlit("f16");
    assert("f16"@.len() != "iq4nl"@.len());
    reveal_strlit("fp16");
    assert("fp16"@.len() != "iq4nl"@.len());
    reveal_strlit("bf16");
    assert("bf16"@.len() != "iq4nl"@.len());
    reveal_strlit("bfloat16");
    assert("bfloat16"@.len() != "iq4nl"@.len());
    reveal_strlit("q2_k");
    assert("q2_k"@.len() != "iq4nl"@.len());
    reveal_strlit("q2k");
    assert("q2k"@.len() != "iq4nl"@.len());
    reveal_strlit("q3_k_s");
    assert("q3_k_s"@.len() != "iq4nl"@.len());
    reveal_strlit("q3ks");
    assert("q3ks"@.len() != "iq4nl"@.len());
    reveal_strlit("q3_k_m");
    assert("q3_k_m"@.len() != "iq4nl"@.len());
    reveal_strlit("q3km");
    assert("q3km"@.len() != "iq4nl"@.len());
    reveal_strlit("q3_k");
    assert("q3_k"@.len() != "iq4nl"@.len());
    reveal_strlit("q3_k_l");
    assert("q3_k_l"@.len() != "iq4nl"@.len());
    reveal_strlit("q3kl");
    assert("q3kl"@.len() != "iq4nl"@.len());
    reveal_strlit("q4_k_s");
    assert("q4_k_s"@.len() != "iq4nl"@.len());
    reveal_strlit("q4ks");
    assert("q4ks"@.len() != "iq4nl"@.len());
    reveal_strlit("q4_k_m");
    assert("q4_k_m"@.len() != "iq4nl"@.len());
    reveal_strlit("q4km");
    assert("q4km"@.len() != "iq4nl"@.len());
    reveal_strlit("q4_k");
    assert("q4_k"@.len() != "iq4nl"@.len());
    reveal_strlit("q5_k_s");
    assert("q5_k_s"@.len() != "iq4nl"@.len());
    reveal_strlit("q5ks");
    assert("q5ks"@.len() != "iq4nl"@.len());
    reveal_strlit("q5_k_m");
    assert("q5_k_m"@.len() != "iq4nl"@.len());
    reveal_strlit("q5km");
    assert("q5km"@.len() != "iq4nl"@.len());
    reveal_strlit("q5_k");
    assert("q5_k"@.len() != "iq4nl"@.len());
    reveal_strlit("q6_k");
    assert("q6_k"@.len() != "iq4nl"@.len());
    reveal_strlit("q6k");
    assert("q6k"@.len() != "iq4nl"@.len());
    reveal_strlit("iq4_nl");
    assert("iq4_nl"@.len() != "iq4nl"@.len());
}

proof fn lemma_spelled_iq4_xs()
    ensures
        spelled("iq4_xs"@) == Some(Ftype::IQ4XS),
{
    reveal_strlit("iq4_xs");
    reveal_strlit("f32");
    assert("f32"@.len() != "iq4_xs"@.len());
    reveal_strlit("fp32");
    assert("fp32"@.len() != "iq4_xs"@.len());
    reveal_strlit("f16");
    assert("f16"@.len() != "iq4_xs"@.len());
    reveal_strlit("fp16");
    assert("fp16"@.len() != "iq4_xs"@.len());
    reveal_strlit("bf16");
    assert("bf16"@.len() != "iq4_xs"@.len());
    reveal_strlit("bfloat16");
    assert("bfloat16"@.len() != "iq4_xs"@.len());
    reveal_strlit("q2_k");
    assert("q2_k"@.len() != "iq4_xs"@.len());
    reveal_strlit("q2k");
    assert("q2k"@.len() != "iq4_xs"@.len());
    reveal_strlit("q3_k_s");
    assert("q3_k_s"@[0] != "iq4_xs"@[0]);
    reveal_strlit("q3ks");
    assert("q3ks"@.len() != "iq4_xs"@.len());
    reveal_strlit("q3_k_m");
    assert("q3_k_m"@[0] != "iq4_xs"@[0]);
    reveal_strlit("q3km");
    assert("q3km"@.len() != "iq4_xs"@.len());
    reveal_strlit("q3_k");
    assert("q3_k"@.len() != "iq4_xs"@.len());
    reveal_strlit("q3_k_l");
    assert("q3_k_l"@[0] != "iq4_xs"@[0]);
    reveal_strlit("q3kl");
    assert("q3kl"@.len() != "iq4_xs"@.len());
    reveal_strlit("q4_k_s");
    assert("q4_k_s"@[0] != "iq4_xs"@[0]);
    reveal_strlit("q4ks");
    assert("q4ks"@.len() != "iq4_xs"@.len());
    reveal_strlit("q4_k_m");
    assert("q4_k_m"@[0] != "iq4_xs"@[0]);
    reveal_strlit("q4km");
    assert("q4km"@.len() != "iq4_xs"@.len());
    reveal_strlit("q4_k");
    assert("q4_k"@.len() != "iq4_xs"@.len());
    reveal_strlit("q5_k_s");
    assert("q5_k_s"@[0] != "iq4_xs"@[0]);
    reveal_strlit("q5ks");
    assert("q5ks"@.len() != "iq4_xs"@.len());
    reveal_strlit("q5_k_m");
    assert("q5_k_m"@[0] != "iq4_xs"@[0]);
    reveal_strlit("q5km");
    assert("q5km"@.len() != "iq4_xs"@.len());
    reveal_strlit("q5_k");
    assert("q5_k"@.len() != "iq4_xs"@.len());
    reveal_strlit("q6_k");
    assert("q6_k"@.len() != "iq4_xs"@.len());
    reveal_strlit("q6k");
    assert("q6k"@.len() != "iq4_xs"@.len());
    reveal_strlit("iq4_nl");
    assert("iq4_nl"@[4] != "iq4_xs"@[4]);
    reveal_strlit("iq4nl");
    assert("iq4nl"@.len() != "iq4_xs"@.len());
}

proof fn lemma_spelled_iq4xs()
    ensures
        spelled("iq4xs"@) == Some(Ftype::IQ4XS),
{
    reveal_strlit("iq4xs");
    reveal_strlit("f32");
    assert("f32"@.len() != "iq4xs"@.len());
    reveal_strlit("fp32");
    assert("fp32"@.len() != "iq4xs"@.len());
    reveal_strlit("f16");
    assert("f16"@.len() != "iq4xs"@.len());
    reveal_strlit("fp16");
    assert("fp16"@.len() != "iq4xs"@.len());
    reveal_strlit("bf16");
    assert("bf16"@.len() != "iq4xs"@.len());
    reveal_strlit("bfloat16");
    assert("bfloat16"@.len() != "iq4xs"@.len());
    reveal_strlit("q2_k");
    assert("q2_k"@.len() != "iq4xs"@.len());
    reveal_strlit("q2k");
    assert("q2k"@.len() != "iq4xs"@.len());
    reveal_strlit("q3_k_s");
    assert("q3_k_s"@.len() != "iq4xs"@.len());
    reveal_strlit("q3ks");
    assert("q3ks"@.len() != "iq4xs"@.len());
    reveal_strlit("q3_k_m");
    assert("q3_k_m"@.len() != "iq4xs"@.len());
    reveal_strlit("q3km");
    assert("q3km"@.len() != "iq4xs"@.len());
    reveal_strlit("q3_k");
    assert("q3_k"@.len() != "iq4xs"@.len());
    reveal_strlit("q3_k_l");
    assert("q3_k_l"@.len() != "iq4xs"@.len());
    reveal_strlit("q3kl");
    assert("q3kl"@.len() != "iq4xs"@.len());
    reveal_strlit("q4_k_s");
    assert("q4_k_s"@.len() != "iq4xs"@.len());
    reveal_strlit("q4ks");
    assert("q4ks"@.len() != "iq4xs"@.len());
    reveal_strlit("q4_k_m");
    assert("q4_k_m"@.len() != "iq4xs"@.len());
    reveal_strlit("q4km");
    assert("q4km"@.len() != "iq4xs"@.len());
    reveal_strlit("q4_k");
    assert("q4_k"@.len() != "iq4xs"@.len());
    reveal_strlit("q5_k_s");
    assert("q5_k_s"@.len() != "iq4xs"@.len());
    reveal_strlit("q5ks");
    assert("q5ks"@.len() != "iq4xs"@.len());
    reveal_strlit("q5_k_m");
    assert("q5_k_m"@.len() != "iq4xs"@.len());
    reveal_strlit("q5km");
    assert("q5km"@.len() != "iq4xs"@.len());
    reveal_strlit("q5_k");
    assert("q5_k"@.len() != "iq4xs"@.len());
    reveal_strlit("q6_k");
    assert("q6_k"@.len() != "iq4xs"@.len());
    reveal_strlit("q6k");
    assert("q6k"@.len() != "iq4xs"@.len());
    reveal_strlit("iq4_nl");
    assert("iq4_nl"@.len() != "iq4xs"@.len());
    reveal_strlit("iq4nl");
    assert("iq4nl"@[3] != "iq4xs"@[3]);
    reveal_strlit("iq4_xs");
    assert("iq4_xs"@.len() != "iq4xs"@.len());
}

/// Each type is spelled by its name in small letters, by that without its underscores, or by one
/// other word: the two words for half and full precision, and the bits alone for the middle one of
/// three sizes.
pub proof fn law_each_type_has_its_spellings(s: Seq<char>)
    ensures
        spelled(s) == Some(Ftype::F32) <==> s == "f32"@ || s == "fp32"@,
        spelled(s) == Some(Ftype::F16) <==> s == "f16"@ || s == "fp16"@,
        spelled(s) == Some(Ftype::Bf16) <==> s == "bf16"@ || s == "bfloat16"@,
        spelled(s) == Some(Ftype::Q2K) <==> s == "q2_k"@ || s == "q2k"@,
        spelled(s) == Some(Ftype::Q3KS) <==> s == "q3_k_s"@ || s == "q3ks"@,
        spelled(s) == Some(Ftype::Q3KM) <==> s == "q3_k_m"@ || s == "q3km"@ || s == "q3_k"@,
        spelled(s) == Some(Ftype::Q3KL) <==> s == "q3_k_l"@ || s == "q3kl"@,
        spelled(s) == Some(Ftype::Q4KS) <==> s == "q4_k_s"@ || s == "q4ks"@,
        spelled(s) == Some(Ftype::Q4KM) <==> s == "q4_k_m"@ || s == "q4km"@ || s == "q4_k"@,
        spelled(s) == Some(Ftype::Q5KS) <==> s == "q5_k_s"@ || s == "q5ks"@,
        spelled(s) == Some(Ftype::Q5KM) <==> s == "q5_k_m"@ || s == "q5km"@ || s == "q5_k"@,
        spelled(s) == Some(Ftype::Q6K) <==> s == "q6_k"@ || s == "q6k"@,
        spelled(s) == Some(Ftype::IQ4NL) <==> s == "iq4_nl"@ || s == "iq4nl"@,
        spelled(s) == Some(Ftype::IQ4XS) <==> s == "iq4_xs"@ || s == "iq4xs"@,
{
    reveal_strlit("f32");
    reveal_strlit("fp32");
    reveal_strlit("f16");
    reveal_strlit("fp16");
    reveal_strlit("bf16");
    reveal_strlit("bfloat16");
    reveal_strlit("q2_k");
    reveal_strlit("q2k");
    reveal_strlit("q3_k_s");
    reveal_strlit("q3ks");
    reveal_strlit("q3_k_m");
    reveal_strlit("q3km");
    reveal_strlit("q3_k");
    reveal_strlit("q3_k_l");
    reveal_strlit("q3kl");
    reveal_strlit("q4_k_s");
    reveal_strlit("q4ks");
    reveal_strlit("q4_k_m");
    reveal_strlit("q4km");
    reveal_strlit("q4_k");
    reveal_strlit("q5_k_s");
    reveal_strlit("q5ks");
    reveal_strlit("q5_k_m");
    reveal_strlit("q5km");
    reveal_strlit("q5_k");
    reveal_strlit("q6_k");
    reveal_strlit("q6k");
    reveal_strlit("iq4_nl");
    reveal_strlit("iq4nl");
    reveal_strlit("iq4_xs");
    reveal_strlit("iq4xs");
    if s == "f32"@ {
        lemma_spelled_f32();
    }
    if s == "fp32"@ {
        lemma_spelled_fp32();
    }
    if s == "f16"@ {
        lemma_spelled_f16();
    }
    if s == "fp16"@ {
        lemma_spelled_fp16();
    }
    if s == "bf16"@ {
        lemma_spelled_bf16();
    }
    if s == "bfloat16"@ {
        lemma_spelled_bfloat16();
    }
    if s == "q2_k"@ {
        lemma_spelled_q2_k();
    }
    if s == "q2k"@ {
        lemma_spelled_q2k();
    }
    if s == "q3_k_s"@ {
        lemma_spelled_q3_k_s();
    }
    if s == "q3ks"@ {
        lemma_spelled_q3ks();
    }
    if s == "q3_k_m"@ {
        lemma_spelled_q3_k_m();
    }
    if s == "q3km"@ {
        lemma_spelled_q3km();
    }
    if s == "q3_k"@ {
        lemma_spelled_q3_k();
    }
    if s == "q3_k_l"@ {
        lemma_spelled_q3_k_l();
    }
    if s == "q3kl"@ {
        lemma_spelled_q3kl();
    }
    if s == "q4_k_s"@ {
        lemma_spelled_q4_k_s();
    }
    if s == "q4ks"@ {
        lemma_spelled_q4ks();
    }
    if s == "q4_k_m"@ {
        lemma_spelled_q4_k_m();
    }
    if s == "q4km"@ {
        lemma_spelled_q4km();
    }
    if s == "q4_k"@ {
        lemma_spelled_q4_k();
    }
    if s == "q5_k_s"@ {
        lemma_spelled_q5_k_s();
    }
    if s == "q5ks"@ {
        lemma_spelled_q5ks();
    }
    if s == "q5_k_m"@ {
        lemma_spelled_q5_k_m();
    }
    if s == "q5km"@ {
        lemma_spelled_q5km();
    }
    if s == "q5_k"@ {
        lemma_spelled_q5_k();
    }
    if s == "q6_k"@ {
        lemma_spelled_q6_k();
    }
    if s == "q6k"@ {
        lemma_spelled_q6k();
    }
    if s == "iq4_nl"@ {
        lemma_spelled_iq4_nl();
    }
    if s == "iq4nl"@ {
        lemma_spelled_iq4nl();
    }
    if s == "iq4_xs"@ {
        lemma_spelled_iq4_xs();
    }
    if s == "iq4xs"@ {
        lemma_spelled_iq4xs();
    }
}

/// The names that need an importance matrix, and the beginnings of those from before the K-quants.
pub proof fn law_what_is_not_written_is_named(s: Seq<char>, rest: Seq<char>)
    ensures
        needs_importance(s) <==> seq![
            "q2_k_s"@, "iq1_s"@, "iq1_m"@, "iq2_xxs"@, "iq2_xs"@, "iq2_s"@, "iq2_m"@, "iq3_xxs"@, "iq3_s"@, "iq3_m"@
        ].contains(s),
        outdated("q4_0"@ + rest) && outdated("q4_1"@ + rest) && outdated("q5_0"@ + rest) && outdated(
            "q5_1"@ + rest,
        ) && outdated("q8_0"@ + rest) && outdated("q8_1"@ + rest),
        outdated(s) ==> s.len() >= 4 && s[0] == 'q' && (s[1] == '4' || s[1] == '5' || s[1] == '8')
            && s[2] == '_' && (s[3] == '0' || s[3] == '1'),
{
    let names = seq![
        "q2_k_s"@, "iq1_s"@, "iq1_m"@, "iq2_xxs"@, "iq2_xs"@, "iq2_s"@, "iq2_m"@, "iq3_xxs"@, "iq3_s"@, "iq3_m"@
    ];
    assert(names[0] == "q2_k_s"@ && names[1] == "iq1_s"@ && names[2] == "iq1_m"@ && names[3] == "iq2_xxs"@ && names[4] == "iq2_xs"@ && names[5] == "iq2_s"@ && names[6] == "iq2_m"@ && names[7] == "iq3_xxs"@ && names[8] == "iq3_s"@ && names[9] == "iq3_m"@);
    reveal_strlit("q4_0");
    reveal_strlit("q4_1");
    reveal_strlit("q5_0");
    reveal_strlit("q5_1");
    reveal_strlit("q8_0");
    reveal_strlit("q8_1");
    assert(("q4_0"@ + rest).subrange(0, 4) =~= "q4_0"@);
    assert(("q4_1"@ + rest).subrange(0, 4) =~= "q4_1"@);
    assert(("q5_0"@ + rest).subrange(0, 4) =~= "q5_0"@);
    assert(("q5_1"@ + rest).subrange(0, 4) =~= "q5_1"@);
    assert(("q8_0"@ + rest).subrange(0, 4) =~= "q8_0"@);
    assert(("q8_1"@ + rest).subrange(0, 4) =~= "q8_1"@);
    if outdated(s) {
        let head = s.subrange(0, 4);
        assert(head[0] == s[0] && head[1] == s[1] && head[2] == s[2] && head[3] == s[3]);
    }
}

} // verus!
