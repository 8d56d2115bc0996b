//! Hadamard-folded weights: what a file's `prism.hadamard.*` metadata declares, and which
//! weights' activations a loader has to transform because of it.
//!
//! A release may fold a blockwise rotation into its stored weights, so that they quantize
//! better. A runtime that multiplies by them as if they were plain computes every projection
//! wrong, on every token, with no error anywhere. The file declares the fold precisely so a
//! runtime can refuse what it does not implement; everything that decides that is here. The
//! rotation itself is floating-point work and lives outside this library.

use vstd::prelude::*;
use vstd::string::*;
use crate::gguf;
use crate::gguf::{array_i64, array_strings, scalar_u64, string, GgufValue};
use crate::text;

verus! {

pub const KEY_VERSION: &'static str = "prism.hadamard.version";
pub const KEY_BLOCK_SIZE: &'static str = "prism.hadamard.block_size";
pub const KEY_TRANSFORM: &'static str = "prism.hadamard.transform";
pub const KEY_AXIS: &'static str = "prism.hadamard.axis";
pub const KEY_SIGN_MODE: &'static str = "prism.hadamard.sign_mode";
pub const KEY_WEIGHT_NAMES: &'static str = "prism.hadamard.weight_names";
pub const KEY_SIGN_WIDTHS: &'static str = "prism.hadamard.sign_widths";
pub const KEY_SIGN_VALUES: &'static str = "prism.hadamard.sign_values";
pub const KEY_INVERSE_NAMES: &'static str = "prism.hadamard.inverse_weight_names";
pub const KEY_GDN_V_GROUPED: &'static str = "prism.hadamard.gdn_v_grouped";

/// The one transform and axis the format defines today; anything else is a newer file than
/// this build.
pub const TRANSFORM: &'static str = "normalized-sylvester-walsh-hadamard";
pub const AXIS: &'static str = "input-last-dimension";

/// Why a fold cannot be run, or a weight's transform not be given.
#[derive(Debug, Clone, PartialEq, Eq)]
pub enum FoldError {
    /// A key that has to be there and is not, or holds something else.
    Missing(&'static str),
    Version(u64),
    BlockSize(usize),
    Transform(String),
    Axis(String),
    SignMode(String),
    NoWeightNames,
    RepeatedName(String),
    BothWays(String),
    NoSignWidths,
    SignWidth(i64),
    ShortSigns,
    SignValue(i64),
    RepeatedWidth(usize),
    /// How many sign values there are, and how many the widths add up to.
    SignCount(usize, usize),
    /// A weight whose width the block size does not divide: name, block size, width.
    OffGrid(String, usize, usize),
    /// A weight whose width has no sign vector: name, width.
    NoSigns(String, usize),
    NotDeltaNet(String),
    /// Name, value heads, key heads, width.
    HeadGeometry(String, usize, usize, usize),
    /// Two weights that read one activation and are not folded alike.
    NotAlike(String, String),
    /// How many folded weights were never transformed, and the first few of them.
    NotCovered(usize, Vec<String>),
}

/// A [`FoldError`] by the values it holds.
#[verifier::ext_equal]
pub enum Fault {
    Missing(Seq<char>),
    Version(int),
    BlockSize(int),
    Transform(Seq<char>),
    Axis(Seq<char>),
    SignMode(Seq<char>),
    NoWeightNames,
    RepeatedName(Seq<char>),
    BothWays(Seq<char>),
    NoSignWidths,
    SignWidth(int),
    ShortSigns,
    SignValue(int),
    RepeatedWidth(int),
    SignCount(int, int),
    OffGrid(Seq<char>, int, int),
    NoSigns(Seq<char>, int),
    NotDeltaNet(Seq<char>),
    HeadGeometry(Seq<char>, int, int, int),
    NotAlike(Seq<char>, Seq<char>),
    NotCovered(int, Seq<Seq<char>>),
}

impl View for FoldError {
    type V = Fault;

    open spec fn view(&self) -> Fault {
        match self {
            FoldError::Missing(key) => Fault::Missing(key@),
            FoldError::Version(v) => Fault::Version(*v as int),
            FoldError::BlockSize(v) => Fault::BlockSize(*v as int),
            FoldError::Transform(t) => Fault::Transform(t@),
            FoldError::Axis(t) => Fault::Axis(t@),
            FoldError::SignMode(t) => Fault::SignMode(t@),
            FoldError::NoWeightNames => Fault::NoWeightNames,
            FoldError::RepeatedName(t) => Fault::RepeatedName(t@),
            FoldError::BothWays(t) => Fault::BothWays(t@),
            FoldError::NoSignWidths => Fault::NoSignWidths,
            FoldError::SignWidth(v) => Fault::SignWidth(*v as int),
            FoldError::ShortSigns => Fault::ShortSigns,
            FoldError::SignValue(v) => Fault::SignValue(*v as int),
            FoldError::RepeatedWidth(v) => Fault::RepeatedWidth(*v as int),
            FoldError::SignCount(a, b) => Fault::SignCount(*a as int, *b as int),
            FoldError::OffGrid(t, a, b) => Fault::OffGrid(t@, *a as int, *b as int),
            FoldError::NoSigns(t, a) => Fault::NoSigns(t@, *a as int),
            FoldError::NotDeltaNet(t) => Fault::NotDeltaNet(t@),
            FoldError::HeadGeometry(t, a, b, c) => Fault::HeadGeometry(
                t@,
                *a as int,
                *b as int,
                *c as int,
            ),
            FoldError::NotAlike(a, b) => Fault::NotAlike(a@, b@),
            FoldError::NotCovered(n, shown) => Fault::NotCovered(*n as int, text::views(shown@)),
        }
    }
}

impl Fault {
    /// What the user is told.
    pub open spec fn message(self) -> Seq<char> {
        match self {
            Fault::Missing(key) => key + " is missing"@,
            Fault::Version(v) => "unsupported version "@ + text::decimal_spec(v as nat),
            Fault::BlockSize(v) => "block size "@ + text::decimal_spec(v as nat)
                + " is not a power of two"@,
            Fault::Transform(t) => "unsupported transform '"@ + t + "'"@,
            Fault::Axis(t) => "unsupported axis '"@ + t + "'"@,
            Fault::SignMode(t) => "unsupported sign mode '"@ + t + "'"@,
            Fault::NoWeightNames => KEY_WEIGHT_NAMES@ + " is empty"@,
            Fault::RepeatedName(t) => KEY_WEIGHT_NAMES@ + " lists "@ + t + " twice"@,
            Fault::BothWays(t) => t + " is listed as both a folded weight and an inverse table"@,
            Fault::NoSignWidths => "sign mode is explicit but "@ + KEY_SIGN_WIDTHS@ + " is empty"@,
            Fault::SignWidth(v) => "sign width "@ + text::signed_decimal_spec(v)
                + " is not a positive multiple of the block size"@,
            Fault::ShortSigns => KEY_SIGN_VALUES@ + " is shorter than "@ + KEY_SIGN_WIDTHS@
                + " adds up to"@,
            Fault::SignValue(v) => KEY_SIGN_VALUES@ + " holds "@ + text::signed_decimal_spec(v)
                + "; must be +1/-1"@,
            Fault::RepeatedWidth(v) => KEY_SIGN_WIDTHS@ + " lists width "@ + text::decimal_spec(
                v as nat,
            ) + " twice"@,
            Fault::SignCount(a, b) => KEY_SIGN_VALUES@ + " length "@ + text::decimal_spec(a as nat)
                + " does not match "@ + KEY_SIGN_WIDTHS@ + " ("@ + text::decimal_spec(b as nat)
                + ")"@,
            Fault::OffGrid(t, block, width) => t + ": fold block size "@ + text::decimal_spec(
                block as nat,
            ) + " does not divide input width "@ + text::decimal_spec(width as nat),
            Fault::NoSigns(t, width) => t + ": no fold sign vector for width "@
                + text::decimal_spec(width as nat),
            Fault::NotDeltaNet(t) => t
                + ": gdn_v_grouped fold on a weight that is not a delta-net output"@,
            Fault::HeadGeometry(t, n_v, n_k, width) => t
                + ": bad delta-net head geometry for a gdn_v_grouped fold (n_v "@
                + text::decimal_spec(n_v as nat) + ", n_k "@ + text::decimal_spec(n_k as nat)
                + ", width "@ + text::decimal_spec(width as nat) + ")"@,
            Fault::NotAlike(a, b) => a + " and "@ + b
                + " read the same activation but are not folded alike"@,
            Fault::NotCovered(n, shown) => text::decimal_spec(n as nat)
                + " Hadamard-folded weight(s) are not on a matmul path this build transforms (first: "@
                + text::joined_spec(shown, ", "@) + "); this architecture cannot serve this file"@,
        }
    }
}

fn put(out: &mut String, part: &str)
    ensures
        final(out)@ == old(out)@ + part@,
{
    out.append(part);
}

fn put_number(out: &mut String, n: usize)
    ensures
        final(out)@ == old(out)@ + text::decimal_spec(n as nat),
{
    let digits = text::decimal(n as u64);
    out.append(digits.as_str());
}

fn put_signed(out: &mut String, n: i64)
    ensures
        final(out)@ == old(out)@ + text::signed_decimal_spec(n as int),
{
    let digits = text::signed_decimal(n);
    out.append(digits.as_str());
}

impl FoldError {
    /// What the user is told.
    pub fn message(&self) -> (s: String)
        ensures
            s@ == self@.message(),
    {
        let mut out = String::new();
        match self {
            FoldError::Missing(key) => {
                put(&mut out, key);
                put(&mut out, " is missing");
            },
            FoldError::Version(v) => {
                put(&mut out, "unsupported version ");
                let digits = text::decimal(*v);
                out.append(digits.as_str());
            },
            FoldError::BlockSize(v) => {
                put(&mut out, "block size ");
                put_number(&mut out, *v);
                put(&mut out, " is not a power of two");
            },
            FoldError::Transform(t) => {
                put(&mut out, "unsupported transform '");
                put(&mut out, t.as_str());
                put(&mut out, "'");
            },
            FoldError::Axis(t) => {
                put(&mut out, "unsupported axis '");
                put(&mut out, t.as_str());
                put(&mut out, "'");
            },
            FoldError::SignMode(t) => {
                put(&mut out, "unsupported sign mode '");
                put(&mut out, t.as_str());
                put(&mut out, "'");
            },
            FoldError::NoWeightNames => {
                put(&mut out, KEY_WEIGHT_NAMES);
                put(&mut out, " is empty");
            },
            FoldError::RepeatedName(t) => {
                put(&mut out, KEY_WEIGHT_NAMES);
                put(&mut out, " lists ");
                put(&mut out, t.as_str());
                put(&mut out, " twice");
            },
            FoldError::BothWays(t) => {
                put(&mut out, t.as_str());
                put(&mut out, " is listed as both a folded weight and an inverse table");
            },
            FoldError::NoSignWidths => {
                put(&mut out, "sign mode is explicit but ");
                put(&mut out, KEY_SIGN_WIDTHS);
                put(&mut out, " is empty");
            },
            FoldError::SignWidth(v) => {
                put(&mut out, "sign width ");
                put_signed(&mut out, *v);
                put(&mut out, " is not a positive multiple of the block size");
            },
            FoldError::ShortSigns => {
                put(&mut out, KEY_SIGN_VALUES);
                put(&mut out, " is shorter than ");
                put(&mut out, KEY_SIGN_WIDTHS);
                put(&mut out, " adds up to");
            },
            FoldError::SignValue(v) => {
                put(&mut out, KEY_SIGN_VALUES);
                put(&mut out, " holds ");
                put_signed(&mut out, *v);
                put(&mut out, "; must be +1/-1");
            },
            FoldError::RepeatedWidth(v) => {
                put(&mut out, KEY_SIGN_WIDTHS);
                put(&mut out, " lists width ");
                put_number(&mut out, *v);
                put(&mut out, " twice");
            },
            FoldError::SignCount(a, b) => {
                put(&mut out, KEY_SIGN_VALUES);
                put(&mut out, " length ");
                put_number(&mut out, *a);
                put(&mut out, " does not match ");
                put(&mut out, KEY_SIGN_WIDTHS);
                put(&mut out, " (");
                put_number(&mut out, *b);
                put(&mut out, ")");
            },
            FoldError::OffGrid(t, block, width) => {
                put(&mut out, t.as_str());
                put(&mut out, ": fold block size ");
                put_number(&mut out, *block);
                put(&mut out, " does not divide input width ");
                put_number(&mut out, *width);
            },
            FoldError::NoSigns(t, width) => {
                put(&mut out, t.as_str());
                put(&mut out, ": no fold sign vector for width ");
                put_number(&mut out, *width);
            },
            FoldError::NotDeltaNet(t) => {
                put(&mut out, t.as_str());
                put(&mut out, ": gdn_v_grouped fold on a weight that is not a delta-net output");
            },
            FoldError::HeadGeometry(t, n_v, n_k, width) => {
                put(&mut out, t.as_str());
                put(&mut out, ": bad delta-net head geometry for a gdn_v_grouped fold (n_v ");
                put_number(&mut out, *n_v);
                put(&mut out, ", n_k ");
                put_number(&mut out, *n_k);
                put(&mut out, ", width ");
                put_number(&mut out, *width);
                put(&mut out, ")");
            },
            FoldError::NotAlike(a, b) => {
                put(&mut out, a.as_str());
                put(&mut out, " and ");
                put(&mut out, b.as_str());
                put(&mut out, " read the same activation but are not folded alike");
            },
            FoldError::NotCovered(n, shown) => {
                put_number(&mut out, *n);
                put(
                    &mut out,
                    " Hadamard-folded weight(s) are not on a matmul path this build transforms (first: ",
                );
                let list = text::join(shown, ", ");
                put(&mut out, list.as_str());
                put(&mut out, "); this architecture cannot serve this file");
            },
        }
        assert(out@ =~= self@.message());
        out
    }
}

/// Whether halving a number over and over comes down to one.
pub open spec fn power_of_two(n: nat) -> bool
    decreases n,
{
    n == 1 || (n > 1 && n % 2 == 0 && power_of_two(n / 2))
}

fn is_power_of_two(n: usize) -> (yes: bool)
    ensures
        yes == power_of_two(n as nat),
{
    let mut m: usize = n;
    while m > 1 && m % 2 == 0
        invariant
            power_of_two(m as nat) == power_of_two(n as nat),
        decreases m,
    {
        m = m / 2;
    }
    m == 1
}

/// The first name at or after `from` that already stood before.
pub open spec fn first_repeat(names: Seq<Seq<char>>, from: int) -> Option<Seq<char>>
    decreases names.len() - from,
{
    if from < 0 || from >= names.len() {
        None
    } else if names.take(from).contains(names[from]) {
        Some(names[from])
    } else {
        first_repeat(names, from + 1)
    }
}

/// The first width that is not a positive multiple of the block size.
pub open spec fn first_bad_width(widths: Seq<int>, block: usize, from: int) -> Option<int>
    decreases widths.len() - from,
{
    if from < 0 || from >= widths.len() {
        None
    } else if !(widths[from] > 0 && (widths[from] as usize) % block == 0) {
        Some(widths[from])
    } else {
        first_bad_width(widths, block, from + 1)
    }
}

/// What a declaration says, the sign values aside.
#[verifier::ext_equal]
pub struct Declared {
    pub block_size: usize,
    pub explicit_signs: bool,
    pub sign_widths: Seq<usize>,
    pub weight_names: Seq<Seq<char>>,
    pub inverse_names: Seq<Seq<char>>,
    pub gdn_v_grouped: bool,
}

/// The names of the inverse tables; none where the key does not hold a list of texts.
pub open spec fn inverse_names_spec(m: Seq<(String, GgufValue)>) -> Seq<Seq<char>> {
    match gguf::strings_spec(m, KEY_INVERSE_NAMES@) {
        Some(names) => names,
        None => Seq::empty(),
    }
}

/// The first thing wrong with the names and widths of a declaration whose other keys are sound.
pub open spec fn names_fault(m: Seq<(String, GgufValue)>, explicit: bool, block: usize) -> Option<
    Fault,
> {
    let weights = gguf::strings_spec(m, KEY_WEIGHT_NAMES@);
    let names = weights->0 + inverse_names_spec(m);
    let widths = gguf::numbers_spec(m, KEY_SIGN_WIDTHS@);
    if weights is None {
        Some(Fault::Missing(KEY_WEIGHT_NAMES@))
    } else if weights->0.len() == 0 {
        Some(Fault::NoWeightNames)
    } else if first_repeat(weights->0, 0) is Some {
        Some(Fault::RepeatedName(first_repeat(weights->0, 0)->0))
    } else if first_repeat(names, weights->0.len() as int) is Some {
        Some(Fault::BothWays(first_repeat(names, weights->0.len() as int)->0))
    } else if !explicit {
        None
    } else if widths is None {
        Some(Fault::Missing(KEY_SIGN_WIDTHS@))
    } else if widths->0.len() == 0 {
        Some(Fault::NoSignWidths)
    } else if first_bad_width(widths->0, block, 0) is Some {
        Some(Fault::SignWidth(first_bad_width(widths->0, block, 0)->0))
    } else {
        None
    }
}

/// The first thing wrong with a declaration, in the order its keys are read.
pub open spec fn declaration_fault(m: Seq<(String, GgufValue)>) -> Option<Fault> {
    let version = gguf::scalar_spec(m, KEY_VERSION@)->0;
    let block = gguf::scalar_spec(m, KEY_BLOCK_SIZE@);
    let transform = gguf::string_spec(m, KEY_TRANSFORM@);
    let axis = gguf::string_spec(m, KEY_AXIS@);
    let mode = gguf::string_spec(m, KEY_SIGN_MODE@);
    if version != 1 {
        Some(Fault::Version(version as int))
    } else if block is None {
        Some(Fault::Missing(KEY_BLOCK_SIZE@))
    } else if !power_of_two((block->0 as usize) as nat) {
        Some(Fault::BlockSize((block->0 as usize) as int))
    } else if transform is None {
        Some(Fault::Missing(KEY_TRANSFORM@))
    } else if transform->0 != TRANSFORM@ {
        Some(Fault::Transform(transform->0))
    } else if axis is None {
        Some(Fault::Missing(KEY_AXIS@))
    } else if axis->0 != AXIS@ {
        Some(Fault::Axis(axis->0))
    } else if mode is None {
        Some(Fault::Missing(KEY_SIGN_MODE@))
    } else if mode->0 != "identity"@ && mode->0 != "explicit"@ {
        Some(Fault::SignMode(mode->0))
    } else {
        names_fault(m, mode->0 != "identity"@, block->0 as usize)
    }
}

/// What a sound declaration says.
pub open spec fn declared_spec(m: Seq<(String, GgufValue)>) -> Declared {
    let explicit = gguf::string_spec(m, KEY_SIGN_MODE@)->0 != "identity"@;
    Declared {
        block_size: gguf::scalar_spec(m, KEY_BLOCK_SIZE@)->0 as usize,
        explicit_signs: explicit,
        sign_widths: if explicit {
            gguf::numbers_spec(m, KEY_SIGN_WIDTHS@)->0.map_values(|w: int| w as usize)
        } else {
            Seq::empty()
        },
        weight_names: gguf::strings_spec(m, KEY_WEIGHT_NAMES@)->0,
        inverse_names: inverse_names_spec(m),
        gdn_v_grouped: gguf::scalar_spec(m, KEY_GDN_V_GROUPED@) is Some && gguf::scalar_spec(
            m,
            KEY_GDN_V_GROUPED@,
        )->0 != 0,
    }
}

/// The declaration, validated: everything but the sign values, which a summary header does not
/// carry.
#[derive(Debug, Clone, PartialEq, Eq)]
pub struct Spec {
    pub block_size: usize,
    pub explicit_signs: bool,
    pub sign_widths: Vec<usize>,
    pub weight_names: Vec<String>,
    pub inverse_names: Vec<String>,
    pub gdn_v_grouped: bool,
}

impl View for Spec {
    type V = Declared;

    open spec fn view(&self) -> Declared {
        Declared {
            block_size: self.block_size,
            explicit_signs: self.explicit_signs,
            sign_widths: self.sign_widths@,
            weight_names: text::views(self.weight_names@),
            inverse_names: text::views(self.inverse_names@),
            gdn_v_grouped: self.gdn_v_grouped,
        }
    }
}

/// The name at `from` or later, in `names` taken as following `before`, that already stood.
fn find_repeat(before: &Vec<String>, names: &Vec<String>) -> (repeat: Option<String>)
    ensures
        match repeat {
            Some(name) => first_repeat(
                text::views(before@) + text::views(names@),
                before@.len() as int,
            ) == Some(name@),
            None => first_repeat(
                text::views(before@) + text::views(names@),
                before@.len() as int,
            ) is None,
        },
{
    let ghost all = text::views(before@) + text::views(names@);
    let mut earlier: Vec<String> = Vec::new();
    let mut i: usize = 0;
    assert(text::views(earlier@) =~= text::views(names@).take(0));
    while i < names.len()
        invariant
            i <= names@.len(),
            all == text::views(before@) + text::views(names@),
            text::views(earlier@) == text::views(names@).take(i as int),
            first_repeat(all, before@.len() as int) == first_repeat(all, before@.len() + i),
        decreases names.len() - i,
    {
        let ghost at = before@.len() + i;
        assert(all.take(at) =~= text::views(before@) + text::views(names@).take(i as int));
        assert(all[at] == names@[i as int]@);
        let first = text::is_listed(before, names[i].as_str());
        let second = text::is_listed(&earlier, names[i].as_str());
        proof {
            let a = text::views(before@);
            let b = text::views(names@).take(i as int);
            let name = names@[i as int]@;
            if first {
                let k = choose|k: int| 0 <= k < a.len() && a[k] == name;
                assert((a + b)[k] == name);
            }
            if second {
                let k = choose|k: int| 0 <= k < b.len() && b[k] == name;
                assert((a + b)[a.len() + k] == name);
            }
            if (a + b).contains(name) {
                let k = choose|k: int| 0 <= k < (a + b).len() && (a + b)[k] == name;
                if k < a.len() {
                    assert(a[k] == name);
                } else {
                    assert(b[k - a.len()] == name);
                }
            }
        }
        if first || second {
            return Some(names[i].clone());
        }
        let ghost held = earlier@;
        earlier.push(names[i].clone());
        i = i + 1;
        assert(text::views(earlier@) =~= text::views(held).push(names@[i - 1]@));
        assert(text::views(earlier@) =~= text::views(names@).take(i as int));
    }
    None
}

/// The widths as sizes, or the first that is not a positive multiple of the block size.
fn read_widths(widths: &Vec<i64>, block: usize) -> (read: Result<Vec<usize>, i64>)
    requires
        block > 0,
    ensures
        match read {
            Ok(sizes) => first_bad_width(gguf::ints(widths@), block, 0) is None && sizes@ == gguf::ints(
                widths@,
            ).map_values(|w: int| w as usize),
            Err(width) => first_bad_width(gguf::ints(widths@), block, 0) == Some(width as int),
        },
{
    let mut sizes: Vec<usize> = Vec::new();
    let mut i: usize = 0;
    while i < widths.len()
        invariant
            i <= widths@.len(),
            block > 0,
            sizes@ == gguf::ints(widths@).map_values(|w: int| w as usize).take(i as int),
            first_bad_width(gguf::ints(widths@), block, 0) == first_bad_width(
                gguf::ints(widths@),
                block,
                i as int,
            ),
        decreases widths.len() - i,
    {
        let width: i64 = widths[i];
        assert(gguf::ints(widths@)[i as int] == width);
        if !(width > 0 && (width as usize) % block == 0) {
            return Err(width);
        }
        sizes.push(width as usize);
        i = i + 1;
        assert(sizes@ =~= gguf::ints(widths@).map_values(|w: int| w as usize).take(i as int));
    }
    assert(sizes@ =~= gguf::ints(widths@).map_values(|w: int| w as usize));
    Ok(sizes)
}

impl Spec {
    /// Reads and validates the declaration; nothing for a file that declares no fold.
    pub fn parse(metadata: &[(String, GgufValue)]) -> (parsed: Result<Option<Spec>, FoldError>)
        ensures
            gguf::scalar_spec(metadata@, KEY_VERSION@) is None ==> parsed == Ok::<Option<Spec>, FoldError>(None),
            gguf::scalar_spec(metadata@, KEY_VERSION@) is Some ==> match parsed {
                Ok(None) => false,
                Ok(Some(spec)) => declaration_fault(metadata@) is None && spec@ == declared_spec(
                    metadata@,
                ),
                Err(e) => declaration_fault(metadata@) == Some(e@),
            },
    {
        let version: u64 = match scalar_u64(metadata, KEY_VERSION) {
            Some(v) => v,
            None => {
                return Ok(None);
            },
        };
        if version != 1 {
            return Err(FoldError::Version(version));
        }
        let block_size: usize = match scalar_u64(metadata, KEY_BLOCK_SIZE) {
            Some(v) => v as usize,
            None => {
                return Err(FoldError::Missing(KEY_BLOCK_SIZE));
            },
        };
        if !is_power_of_two(block_size) {
            return Err(FoldError::BlockSize(block_size));
        }
        let transform = match string(metadata, KEY_TRANSFORM) {
            Some(t) => t,
            None => {
                return Err(FoldError::Missing(KEY_TRANSFORM));
            },
        };
        if !text::same(transform.as_str(), TRANSFORM) {
            return Err(FoldError::Transform(transform));
        }
        let axis = match string(metadata, KEY_AXIS) {
            Some(t) => t,
            None => {
                return Err(FoldError::Missing(KEY_AXIS));
            },
        };
        if !text::same(axis.as_str(), AXIS) {
            return Err(FoldError::Axis(axis));
        }
        let sign_mode = match string(metadata, KEY_SIGN_MODE) {
            Some(t) => t,
            None => {
                return Err(FoldError::Missing(KEY_SIGN_MODE));
            },
        };
        let explicit_signs = if text::same(sign_mode.as_str(), "identity") {
            false
        } else if text::same(sign_mode.as_str(), "explicit") {
            true
        } else {
            return Err(FoldError::SignMode(sign_mode));
        };
        let weight_names = match array_strings(metadata, KEY_WEIGHT_NAMES) {
            Some(names) => names,
            None => {
                return Err(FoldError::Missing(KEY_WEIGHT_NAMES));
            },
        };
        if weight_names.len() == 0 {
            return Err(FoldError::NoWeightNames);
        }
        let none: Vec<String> = Vec::new();
        assert(text::views(none@) + text::views(weight_names@) =~= text::views(weight_names@));
        if let Some(name) = find_repeat(&none, &weight_names) {
            return Err(FoldError::RepeatedName(name));
        }
        let inverse_names = match array_strings(metadata, KEY_INVERSE_NAMES) {
            Some(names) => names,
            None => Vec::new(),
        };
        assert(text::views(inverse_names@) =~= inverse_names_spec(metadata@));
        if let Some(name) = find_repeat(&weight_names, &inverse_names) {
            return Err(FoldError::BothWays(name));
        }
        let mut sign_widths: Vec<usize> = Vec::new();
        if explicit_signs {
            let widths = match array_i64(metadata, KEY_SIGN_WIDTHS) {
                Some(widths) => widths,
                None => {
                    return Err(FoldError::Missing(KEY_SIGN_WIDTHS));
                },
            };
            if widths.len() == 0 {
                return Err(FoldError::NoSignWidths);
            }
            match read_widths(&widths, block_size) {
                Ok(sizes) => {
                    sign_widths = sizes;
                },
                Err(width) => {
                    return Err(FoldError::SignWidth(width));
                },
            }
        }
        let gdn_v_grouped = match scalar_u64(metadata, KEY_GDN_V_GROUPED) {
            Some(v) => v != 0,
            None => false,
        };
        let spec = Spec {
            block_size,
            explicit_signs,
            sign_widths,
            weight_names,
            inverse_names,
            gdn_v_grouped,
        };
        assert(spec@ =~= declared_spec(metadata@));
        Ok(Some(spec))
    }
}

/// A fold by the values it holds.
#[verifier::ext_equal]
pub struct Fold {
    pub block_size: usize,
    /// Each width with its signs.
    pub signs: Seq<(usize, Seq<i8>)>,
    pub weights: Seq<Seq<char>>,
    pub inverses: Seq<Seq<char>>,
    pub gdn_v_grouped: bool,
}

impl Fold {
    /// Every folded name, forward and inverse.
    pub open spec fn names(self) -> Seq<Seq<char>> {
        self.weights + self.inverses
    }

    /// The block size is a power of two, the sign vectors are as wide as they say and hold only
    /// ones of either sign, no width has two of them, and no name stands twice.
    pub open spec fn sound(self) -> bool {
        &&& power_of_two(self.block_size as nat)
        &&& self.weights.len() > 0
        &&& self.names().no_duplicates()
        &&& forall|i: int|
            0 <= i < self.signs.len() ==> {
                let (width, _) = #[trigger] self.signs[i];
                width % self.block_size == 0
            }
        &&& sound_signs(self.signs)
    }
}

pub open spec fn unit_signs(values: Seq<i8>) -> bool {
    forall|i: int| 0 <= i < values.len() ==> #[trigger] values[i] == 1 || values[i] == -1
}

/// The first value that is neither one nor minus one.
pub open spec fn first_bad_sign(values: Seq<int>, from: int) -> Option<int>
    decreases values.len() - from,
{
    if from < 0 || from >= values.len() {
        None
    } else if values[from] != 1 && values[from] != -1 {
        Some(values[from])
    } else {
        first_bad_sign(values, from + 1)
    }
}

/// What the first widths add up to.
pub open spec fn total(widths: Seq<usize>) -> int
    decreases widths.len(),
{
    if widths.len() == 0 { 0 } else { total(widths.drop_last()) + widths.last() }
}

pub open spec fn has_width(signs: Seq<(usize, Seq<i8>)>, width: usize) -> bool {
    exists|i: int| 0 <= i < signs.len() && (#[trigger] signs[i]).0 == width
}

/// The sign vectors of the first `n` widths, cut from the values in turn, or the first thing
/// wrong with them.
pub open spec fn signs_spec(widths: Seq<usize>, values: Seq<int>, n: int) -> Result<
    Seq<(usize, Seq<i8>)>,
    Fault,
>
    decreases n,
{
    if n <= 0 {
        Ok(Seq::empty())
    } else {
        match signs_spec(widths, values, n - 1) {
            Err(fault) => Err(fault),
            Ok(done) => {
                let off = total(widths.take(n - 1));
                let width = widths[n - 1];
                if off + width > values.len() {
                    Err(Fault::ShortSigns)
                } else {
                    let cut = values.subrange(off, off + width);
                    if first_bad_sign(cut, 0) is Some {
                        Err(Fault::SignValue(first_bad_sign(cut, 0)->0))
                    } else if has_width(done, width) {
                        Err(Fault::RepeatedWidth(width as int))
                    } else {
                        Ok(done.push((width, cut.map_values(|v: int| v as i8))))
                    }
                }
            },
        }
    }
}

/// The fold a sound declaration and its sign values make, or the first thing wrong with the
/// values.
pub open spec fn fold_spec(m: Seq<(String, GgufValue)>) -> Result<Fold, Fault> {
    let d = declared_spec(m);
    let values = gguf::numbers_spec(m, KEY_SIGN_VALUES@);
    let fold = Fold {
        block_size: d.block_size,
        signs: Seq::empty(),
        weights: d.weight_names,
        inverses: d.inverse_names,
        gdn_v_grouped: d.gdn_v_grouped,
    };
    if !d.explicit_signs {
        Ok(fold)
    } else if values is None {
        Err(Fault::Missing(KEY_SIGN_VALUES@))
    } else {
        match signs_spec(d.sign_widths, values->0, d.sign_widths.len() as int) {
            Err(fault) => Err(fault),
            Ok(signs) => if total(d.sign_widths) != values->0.len() {
                Err(Fault::SignCount(values->0.len() as int, total(d.sign_widths)))
            } else {
                Ok(Fold { signs, ..fold })
            },
        }
    }
}

/// Sign values that fit their widths: nothing but ones of either sign, as many as the widths add
/// up to, and no width twice.
pub open spec fn good_signs(widths: Seq<usize>, values: Seq<int>) -> bool {
    &&& total(widths) == values.len()
    &&& forall|i: int| 0 <= i < values.len() ==> #[trigger] values[i] == 1 || values[i] == -1
    &&& widths.no_duplicates()
}

/// Whether a file declares a fold that is refused: something is wrong with the declaration, or it
/// has explicit signs whose values are missing or do not fit their widths.
pub open spec fn is_refused(m: Seq<(String, GgufValue)>) -> bool {
    let d = declared_spec(m);
    gguf::scalar_spec(m, KEY_VERSION@) is Some && (declaration_fault(m) is Some || (
    d.explicit_signs && match gguf::numbers_spec(m, KEY_SIGN_VALUES@) {
        None => true,
        Some(values) => !good_signs(d.sign_widths, values),
    }))
}

proof fn lemma_first_bad_sign(values: Seq<int>, from: int)
    requires
        0 <= from <= values.len(),
    ensures
        first_bad_sign(values, from) is None <==> forall|i: int|
            from <= i < values.len() ==> #[trigger] values[i] == 1 || values[i] == -1,
    decreases values.len() - from,
{
    if from < values.len() && (values[from] == 1 || values[from] == -1) {
        lemma_first_bad_sign(values, from + 1);
    }
}

/// The first `n` widths can be cut exactly where there are values enough for them, nothing but
/// ones of either sign, and no width stands twice.
proof fn lemma_signs(widths: Seq<usize>, values: Seq<int>, n: int)
    requires
        0 <= n <= widths.len(),
    ensures
        signs_spec(widths, values, n) is Ok <==> total(widths.take(n)) <= values.len() && (forall|
            i: int,
        |
            0 <= i < total(widths.take(n)) ==> #[trigger] values[i] == 1 || values[i] == -1)
            && widths.take(n).no_duplicates(),
        signs_spec(widths, values, n) matches Ok(done) ==> done.len() == n && forall|i: int|
            0 <= i < n ==> (#[trigger] done[i]).0 == widths[i],
        0 <= total(widths.take(n)),
    decreases n,
{
    let part = widths.take(n);
    if n > 0 {
        lemma_signs(widths, values, n - 1);
        let before = widths.take(n - 1);
        let off = total(before);
        let width = widths[n - 1];
        assert(part.drop_last() =~= before);
        assert(total(part) == off + width);
        assert forall|i: int, j: int| 0 <= i < j < before.len() implies before[i] == part[i]
            && before[j] == part[j] by {}
        if part.no_duplicates() {
            assert(before.no_duplicates()) by {
                assert forall|i: int, j: int|
                    0 <= i < before.len() && 0 <= j < before.len() && i != j implies before[i]
                    != before[j] by {
                    assert(part[i] != part[j]);
                }
            }
        }
        if let Ok(done) = signs_spec(widths, values, n - 1) {
            if off + width <= values.len() {
                let cut = values.subrange(off, off + width);
                lemma_first_bad_sign(cut, 0);
                assert(forall|i: int| off <= i < off + width ==> cut[i - off] == #[trigger] values[i]);
                assert(forall|i: int| 0 <= i < width ==> #[trigger] cut[i] == values[i + off]);
                if has_width(done, width) {
                    let k = choose|k: int| 0 <= k < done.len() && (#[trigger] done[k]).0 == width;
                    assert(part[k] == part[n - 1]);
                    assert(!part.no_duplicates());
                } else {
                    assert forall|k: int| 0 <= k < n - 1 implies #[trigger] part[k] != width by {
                        assert(done[k].0 == widths[k]);
                    }
                    assert(part.no_duplicates()) by {
                        assert forall|i: int, j: int|
                            0 <= i < part.len() && 0 <= j < part.len() && i != j implies part[i]
                            != part[j] by {
                            if i < n - 1 && j < n - 1 {
                                assert(before[i] != before[j]);
                            }
                        }
                    }
                    if exists|i: int|
                        0 <= i < width && #[trigger] cut[i] != 1 && cut[i] != -1 {
                        let i = choose|i: int| 0 <= i < width && #[trigger] cut[i] != 1 && cut[i] != -1;
                        assert(values[i + off] == cut[i]);
                    }
                }
            }
        }
    }
}

/// The sign values of a sound declaration are taken exactly where they fit their widths.
proof fn lemma_fold(m: Seq<(String, GgufValue)>)
    requires
        gguf::scalar_spec(m, KEY_VERSION@) is Some,
        declaration_fault(m) is None,
    ensures
        fold_spec(m) is Err <==> is_refused(m),
{
    let d = declared_spec(m);
    if let Some(values) = gguf::numbers_spec(m, KEY_SIGN_VALUES@) {
        let n = d.sign_widths.len() as int;
        lemma_signs(d.sign_widths, values, n);
        assert(d.sign_widths.take(n) =~= d.sign_widths);
    }
}

/// The two readers agree: a file whose header alone is refused is refused in full, and one whose
/// header is not is refused exactly where explicit sign values are missing or do not fit.
pub proof fn law_a_refused_header_is_a_refused_file(m: Seq<(String, GgufValue)>)
    requires
        gguf::scalar_spec(m, KEY_VERSION@) is Some,
    ensures
        declaration_fault(m) is Some ==> is_refused(m),
        declaration_fault(m) is None ==> (is_refused(m) <==> fold_spec(m) is Err),
{
    if declaration_fault(m) is None {
        lemma_fold(m);
    }
}

/// Which weights of a file are Hadamard-folded, and with what, read once at load from the
/// file's `prism.hadamard.*` keys.
#[derive(Debug)]
pub struct HadamardFold {
    block_size: usize,
    /// One vector of ones of either sign per input width the file folds at. Empty in
    /// `identity` sign mode.
    signs: Vec<(usize, Vec<i8>)>,
    /// Weights whose input is rotated before the matmul.
    weights: Vec<String>,
    /// Row-lookup tables whose output is un-rotated after the lookup.
    inverses: Vec<String>,
    gdn_v_grouped: bool,
}

/// Sign vectors by their widths and values.
pub open spec fn sign_views(signs: Seq<(usize, Vec<i8>)>) -> Seq<(usize, Seq<i8>)> {
    signs.map_values(|s: (usize, Vec<i8>)| (s.0, s.1@))
}

impl View for HadamardFold {
    type V = Fold;

    closed spec fn view(&self) -> Fold {
        Fold {
            block_size: self.block_size,
            signs: sign_views(self.signs@),
            weights: text::views(self.weights@),
            inverses: text::views(self.inverses@),
            gdn_v_grouped: self.gdn_v_grouped,
        }
    }
}

/// Values `from..to` as signs, or the first that is not one.
fn read_signs(values: &Vec<i64>, from: usize, to: usize) -> (read: Result<Vec<i8>, i64>)
    requires
        from <= to <= values@.len(),
    ensures
        match read {
            Ok(signs) => first_bad_sign(gguf::ints(values@).subrange(from as int, to as int), 0) is None
                && signs@ == gguf::ints(values@).subrange(from as int, to as int).map_values(
                |v: int| v as i8,
            ) && unit_signs(signs@),
            Err(value) => first_bad_sign(gguf::ints(values@).subrange(from as int, to as int), 0) == Some(
                value as int,
            ),
        },
{
    let ghost cut = gguf::ints(values@).subrange(from as int, to as int);
    let mut signs: Vec<i8> = Vec::new();
    let mut i: usize = from;
    while i < to
        invariant
            from <= i <= to <= values@.len(),
            cut == gguf::ints(values@).subrange(from as int, to as int),
            signs@ == cut.map_values(|v: int| v as i8).take(i - from),
            unit_signs(signs@),
            first_bad_sign(cut, 0) == first_bad_sign(cut, i - from),
        decreases to - i,
    {
        let value: i64 = values[i];
        assert(cut[i - from] == value);
        if value != 1 && value != -1 {
            return Err(value);
        }
        signs.push(value as i8);
        i = i + 1;
        assert(signs@ =~= cut.map_values(|v: int| v as i8).take(i - from));
    }
    assert(signs@ =~= cut.map_values(|v: int| v as i8));
    Ok(signs)
}

fn find_width(signs: &Vec<(usize, Vec<i8>)>, width: usize) -> (at: Option<usize>)
    ensures
        at is Some <==> has_width(sign_views(signs@), width),
        at matches Some(i) ==> i < signs@.len() && signs@[i as int].0 == width && forall|k: int|
            0 <= k < i ==> (#[trigger] signs@[k]).0 != width,
{
    let mut i: usize = 0;
    while i < signs.len()
        invariant
            i <= signs@.len(),
            forall|k: int| 0 <= k < i ==> (#[trigger] signs@[k]).0 != width,
        decreases signs.len() - i,
    {
        if signs[i].0 == width {
            assert(sign_views(signs@)[i as int].0 == width);
            return Some(i);
        }
        i = i + 1;
    }
    assert forall|k: int| 0 <= k < sign_views(signs@).len() implies (#[trigger] sign_views(
        signs@,
    )[k]).0 != width by {
        assert(signs@[k].0 != width);
    }
    None
}

proof fn lemma_signs_fault_stays(widths: Seq<usize>, values: Seq<int>, i: int, n: int)
    requires
        0 <= i <= n,
        signs_spec(widths, values, i) is Err,
    ensures
        signs_spec(widths, values, n) == signs_spec(widths, values, i),
    decreases n - i,
{
    if i < n {
        lemma_signs_fault_stays(widths, values, i, n - 1);
    }
}

/// Cuts the sign vectors out of the values.
fn cut_signs(widths: &Vec<usize>, values: &Vec<i64>) -> (cut: Result<
    Vec<(usize, Vec<i8>)>,
    FoldError,
>)
    ensures
        match cut {
            Ok(signs) => signs_spec(widths@, gguf::ints(values@), widths@.len() as int) == Ok::<
                Seq<(usize, Seq<i8>)>,
                Fault,
            >(sign_views(signs@)) && total(widths@) == values@.len() && sound_signs(
                sign_views(signs@),
            ) && forall|k: int|
                0 <= k < signs@.len() ==> widths@.contains((#[trigger] signs@[k]).0),
            Err(e) => match signs_spec(widths@, gguf::ints(values@), widths@.len() as int) {
                Ok(_) => total(widths@) != values@.len() && e@ == Fault::SignCount(
                    values@.len() as int,
                    total(widths@),
                ),
                Err(fault) => e@ == fault,
            },
        },
{
    let mut signs: Vec<(usize, Vec<i8>)> = Vec::new();
    let mut off: usize = 0;
    let mut i: usize = 0;
    assert(sign_views(signs@) =~= Seq::<(usize, Seq<i8>)>::empty());
    assert(widths@.take(0) =~= Seq::<usize>::empty());
    while i < widths.len()
        invariant
            i <= widths@.len(),
            off == total(widths@.take(i as int)),
            off <= values@.len(),
            signs_spec(widths@, gguf::ints(values@), i as int) == Ok::<Seq<(usize, Seq<i8>)>, Fault>(
                sign_views(signs@),
            ),
            sound_signs(sign_views(signs@)),
            forall|k: int| 0 <= k < signs@.len() ==> widths@.contains((#[trigger] signs@[k]).0),
        decreases widths.len() - i,
    {
        let width: usize = widths[i];
        assert(widths@.take(i + 1).drop_last() =~= widths@.take(i as int));
        if width > values.len() - off {
            proof {
                lemma_signs_fault_stays(widths@, gguf::ints(values@), i + 1, widths@.len() as int);
            }
            return Err(FoldError::ShortSigns);
        }
        let vector = match read_signs(values, off, off + width) {
            Ok(vector) => vector,
            Err(value) => {
                proof {
                    lemma_signs_fault_stays(widths@, gguf::ints(values@), i + 1, widths@.len() as int);
                }
                return Err(FoldError::SignValue(value));
            },
        };
        if find_width(&signs, width).is_some() {
            proof {
                lemma_signs_fault_stays(widths@, gguf::ints(values@), i + 1, widths@.len() as int);
            }
            return Err(FoldError::RepeatedWidth(width));
        }
        let ghost before = signs@;
        let ghost added = vector@;
        signs.push((width, vector));
        off = off + width;
        i = i + 1;
        assert(sign_views(signs@) =~= sign_views(before).push((width, added)));
        assert(widths@[i - 1] == width);
    }
    assert(widths@.take(i as int) =~= widths@);
    if off != values.len() {
        return Err(FoldError::SignCount(values.len(), off));
    }
    Ok(signs)
}

/// Sign vectors as wide as they say, of ones of either sign, no width twice.
pub open spec fn sound_signs(signs: Seq<(usize, Seq<i8>)>) -> bool {
    &&& forall|i: int|
        0 <= i < signs.len() ==> {
            let (width, values) = #[trigger] signs[i];
            values.len() == width && unit_signs(values)
        }
    &&& forall|i: int, j: int|
        0 <= i < j < signs.len() ==> (#[trigger] signs[i]).0 != (#[trigger] signs[j]).0
}

proof fn lemma_no_repeat(names: Seq<Seq<char>>, from: int)
    requires
        0 <= from <= names.len(),
        names.take(from).no_duplicates(),
        first_repeat(names, from) is None,
    ensures
        names.no_duplicates(),
    decreases names.len() - from,
{
    if from < names.len() {
        let next = names.take(from + 1);
        assert forall|i: int, j: int| 0 <= i < next.len() && 0 <= j < next.len() && i
            != j implies next[i] != next[j] by {
            if i < from && j < from {
                assert(names.take(from)[i] != names.take(from)[j]);
            } else if i < from {
                assert(names.take(from)[i] == names[i]);
            } else if j < from {
                assert(names.take(from)[j] == names[j]);
            }
        }
        lemma_no_repeat(names, from + 1);
    } else {
        assert(names.take(from) =~= names);
    }
}

proof fn lemma_widths_divide(widths: Seq<int>, block: usize, from: int, i: int)
    requires
        0 <= from <= i < widths.len(),
        first_bad_width(widths, block, from) is None,
    ensures
        (widths[i] as usize) % block == 0,
    decreases i - from,
{
    if from < i {
        lemma_widths_divide(widths, block, from + 1, i);
    }
}

impl HadamardFold {
    /// Reads the fold a file declares, or nothing for a file that declares none. An error is a
    /// fold this build cannot run, or a declaration that contradicts itself, and a load must
    /// stop on it.
    pub fn from_metadata(metadata: &[(String, GgufValue)]) -> (read: Result<
        Option<HadamardFold>,
        FoldError,
    >)
        ensures
            gguf::scalar_spec(metadata@, KEY_VERSION@) is None ==> read == Ok::<
                Option<HadamardFold>,
                FoldError,
            >(None),
            gguf::scalar_spec(metadata@, KEY_VERSION@) is Some ==> match read {
                Ok(None) => false,
                Ok(Some(fold)) => declaration_fault(metadata@) is None && fold_spec(metadata@)
                    == Ok::<Fold, Fault>(fold@) && fold@.sound(),
                Err(e) => match declaration_fault(metadata@) {
                    Some(fault) => e@ == fault,
                    None => fold_spec(metadata@) == Err::<Fold, Fault>(e@),
                },
            },
            read is Err <==> is_refused(metadata@),
    {
        proof {
            if gguf::scalar_spec(metadata@, KEY_VERSION@) is Some {
                law_a_refused_header_is_a_refused_file(metadata@);
            }
        }
        let spec = match Spec::parse(metadata) {
            Ok(Some(spec)) => spec,
            Ok(None) => {
                return Ok(None);
            },
            Err(e) => {
                return Err(e);
            },
        };
        let mut signs: Vec<(usize, Vec<i8>)> = Vec::new();
        assert(sign_views(signs@) =~= Seq::<(usize, Seq<i8>)>::empty());
        if spec.explicit_signs {
            let values = match array_i64(metadata, KEY_SIGN_VALUES) {
                Some(values) => values,
                None => {
                    return Err(FoldError::Missing(KEY_SIGN_VALUES));
                },
            };
            match cut_signs(&spec.sign_widths, &values) {
                Ok(cut) => {
                    signs = cut;
                },
                Err(e) => {
                    return Err(e);
                },
            }
        }
        let ghost declared = spec@;
        let fold = HadamardFold {
            block_size: spec.block_size,
            signs,
            weights: spec.weight_names,
            inverses: spec.inverse_names,
            gdn_v_grouped: spec.gdn_v_grouped,
        };
        proof {
            let names = fold@.names();
            let n = fold@.weights.len() as int;
            assert(names.take(n) =~= fold@.weights);
            lemma_no_repeat(fold@.weights, 0);
            lemma_no_repeat(names, n);
            assert forall|i: int| 0 <= i < fold@.signs.len() implies (#[trigger] fold@.signs[i]).0
                % fold@.block_size == 0 by {
                assert(fold@.signs[i].0 == signs@[i].0);
                let k = choose|k: int|
                    0 <= k < declared.sign_widths.len() && declared.sign_widths[k] == signs@[i].0;
                lemma_widths_divide(
                    gguf::numbers_spec(metadata@, KEY_SIGN_WIDTHS@)->0,
                    fold@.block_size,
                    0,
                    k,
                );
            }
        }
        Ok(Some(fold))
    }

    /// Why a listing should say no for a file, or nothing when the file declares no fold or one
    /// this build runs.
    ///
    /// Reads only what a summary header keeps: the scalar keys, the weight names and the sign
    /// widths.
    pub fn header_support(metadata: &[(String, GgufValue)]) -> (reason: Option<String>)
        ensures
            reason is Some <==> gguf::scalar_spec(metadata@, KEY_VERSION@) is Some && declaration_fault(
                metadata@,
            ) is Some,
            reason matches Some(s) ==> s@ == "prism.hadamard: "@ + declaration_fault(
                metadata@,
            )->0.message(),
    {
        match Spec::parse(metadata) {
            Ok(_) => None,
            Err(e) => {
                let mut out = String::new();
                put(&mut out, "prism.hadamard: ");
                let message = e.message();
                put(&mut out, message.as_str());
                Some(out)
            },
        }
    }

    pub fn block_size(&self) -> (n: usize)
        ensures
            n == self@.block_size,
    {
        self.block_size
    }

    /// Whether `name`'s input is rotated before the matmul.
    pub fn is_folded(&self, name: &str) -> (yes: bool)
        ensures
            yes == self@.weights.contains(name@),
    {
        text::is_listed(&self.weights, name)
    }
}

/// The transform one folded weight's activation goes through.
#[derive(Debug, Clone, PartialEq, Eq)]
pub struct Rotation {
    pub block_size: usize,
    pub signs: Option<Vec<i8>>,
    /// The tiled-to-grouped head permutation for a `gdn_v_grouped` input: head width, key
    /// heads, and value heads to each.
    pub perm: Option<(usize, usize, usize)>,
}

/// A [`Rotation`] by the values it holds.
#[verifier::ext_equal]
pub struct Turn {
    pub block_size: usize,
    pub signs: Option<Seq<i8>>,
    pub perm: Option<(usize, usize, usize)>,
}

impl View for Rotation {
    type V = Turn;

    open spec fn view(&self) -> Turn {
        Turn {
            block_size: self.block_size,
            signs: match self.signs {
                Some(values) => Some(values@),
                None => None,
            },
            perm: self.perm,
        }
    }
}

/// The index of a width among the sign vectors.
pub open spec fn width_index(signs: Seq<(usize, Seq<i8>)>, width: usize) -> int {
    choose|i: int| 0 <= i < signs.len() && (#[trigger] signs[i]).0 == width
}

impl Fold {
    /// The transform of a folded weight of a width, its permutation aside.
    pub open spec fn turn(self, name: Seq<char>, width: usize) -> Result<Turn, Fault> {
        if width == 0 || width % self.block_size != 0 {
            Err(Fault::OffGrid(name, self.block_size as int, width as int))
        } else if self.signs.len() == 0 {
            Ok(Turn { block_size: self.block_size, signs: None, perm: None })
        } else if !has_width(self.signs, width) {
            Err(Fault::NoSigns(name, width as int))
        } else {
            Ok(
                Turn {
                    block_size: self.block_size,
                    signs: Some(self.signs[width_index(self.signs, width)].1),
                    perm: None,
                },
            )
        }
    }

    /// Whether a weight's input is also regrouped.
    pub open spec fn regroups(self, name: Seq<char>) -> bool {
        self.gdn_v_grouped && text::occurs(name, ".ssm_out."@)
    }

    /// The transform for the activation feeding a weight; nothing for one that is not folded.
    pub open spec fn input(
        self,
        name: Seq<char>,
        width: usize,
        heads: Option<(usize, usize)>,
    ) -> Result<Option<Turn>, Fault> {
        if !self.weights.contains(name) {
            Ok(None)
        } else {
            match self.turn(name, width) {
                Err(fault) => Err(fault),
                Ok(turn) => if !self.regroups(name) {
                    Ok(Some(turn))
                } else {
                    match heads {
                        None => Err(Fault::NotDeltaNet(name)),
                        Some((n_v, n_k)) => if n_k > 0 && n_v > 0 && n_v % n_k == 0 && width % n_v
                            == 0 {
                            Ok(
                                Some(
                                    Turn { perm: Some((width / n_v, n_k, n_v / n_k)), ..turn },
                                ),
                            )
                        } else {
                            Err(Fault::HeadGeometry(name, n_v as int, n_k as int, width as int))
                        },
                    }
                },
            }
        }
    }

    /// The transform for a row looked up from a table; nothing for one that is not folded.
    pub open spec fn inverse(self, name: Seq<char>, width: usize) -> Result<Option<Turn>, Fault> {
        if !self.inverses.contains(name) {
            Ok(None)
        } else {
            match self.turn(name, width) {
                Err(fault) => Err(fault),
                Ok(turn) => Ok(Some(turn)),
            }
        }
    }
}

fn copy_signs(values: &Vec<i8>) -> (copy: Vec<i8>)
    ensures
        copy@ == values@,
{
    let mut copy: Vec<i8> = Vec::new();
    let mut i: usize = 0;
    while i < values.len()
        invariant
            i <= values@.len(),
            copy@ == values@.take(i as int),
        decreases values.len() - i,
    {
        copy.push(values[i]);
        i = i + 1;
        assert(copy@ =~= values@.take(i as int));
    }
    assert(copy@ =~= values@);
    copy
}

fn same_signs(a: &Vec<i8>, b: &Vec<i8>) -> (yes: bool)
    ensures
        yes == (a@ == b@),
{
    if a.len() != b.len() {
        return false;
    }
    let mut i: usize = 0;
    while i < a.len()
        invariant
            i <= a@.len(),
            a@.len() == b@.len(),
            forall|k: int| 0 <= k < i ==> a@[k] == b@[k],
        decreases a.len() - i,
    {
        if a[i] != b[i] {
            return false;
        }
        i = i + 1;
    }
    assert(a@ =~= b@);
    true
}

/// Whether a result is the one a model gives: the same value, or the same fault.
pub open spec fn gives(result: Result<Option<Rotation>, FoldError>, model: Result<Option<Turn>, Fault>) -> bool {
    match (result, model) {
        (Ok(None), Ok(None)) => true,
        (Ok(Some(r)), Ok(Some(t))) => r@ == t,
        (Err(e), Err(fault)) => e@ == fault,
        _ => false,
    }
}

impl HadamardFold {
    /// The transform for the activation feeding `name`, a matrix whose input width is `in_dim`,
    /// or nothing if `name` is not folded.
    ///
    /// `gdn_heads` holds the value-head and key-head counts of a gated delta-net output
    /// projection. It is ignored for every other weight, and for `ssm_out` when the file does
    /// not set `gdn_v_grouped`.
    pub fn input_rotation(
        &self,
        name: &str,
        in_dim: usize,
        gdn_heads: Option<(usize, usize)>,
    ) -> (rotation: Result<Option<Rotation>, FoldError>)
        requires
            self@.sound(),
        ensures
            gives(rotation, self@.input(name@, in_dim, gdn_heads)),
    {
        if !text::is_listed(&self.weights, name) {
            return Ok(None);
        }
        let mut rotation = match self.rotation_for(name, in_dim) {
            Ok(rotation) => rotation,
            Err(e) => {
                return Err(e);
            },
        };
        if self.gdn_v_grouped && text::contains(name, ".ssm_out.") {
            let (n_v, n_k): (usize, usize) = match gdn_heads {
                Some(heads) => heads,
                None => {
                    return Err(FoldError::NotDeltaNet(name.to_owned()));
                },
            };
            if !(n_k > 0 && n_v > 0 && n_v % n_k == 0 && in_dim % n_v == 0) {
                return Err(FoldError::HeadGeometry(name.to_owned(), n_v, n_k, in_dim));
            }
            rotation.perm = Some((in_dim / n_v, n_k, n_v / n_k));
        }
        Ok(Some(rotation))
    }

    /// The transform for a row looked up from `name`, a table whose rows are `dim` wide, or
    /// nothing if `name` is not an inverse table.
    pub fn inverse_rotation(&self, name: &str, dim: usize) -> (rotation: Result<
        Option<Rotation>,
        FoldError,
    >)
        requires
            self@.sound(),
        ensures
            gives(rotation, self@.inverse(name@, dim)),
    {
        if !text::is_listed(&self.inverses, name) {
            return Ok(None);
        }
        match self.rotation_for(name, dim) {
            Ok(rotation) => Ok(Some(rotation)),
            Err(e) => Err(e),
        }
    }

    fn rotation_for(&self, name: &str, width: usize) -> (rotation: Result<Rotation, FoldError>)
        requires
            self@.sound(),
        ensures
            match (rotation, self@.turn(name@, width)) {
                (Ok(r), Ok(t)) => r@ == t,
                (Err(e), Err(fault)) => e@ == fault,
                _ => false,
            },
    {
        if width == 0 || width % self.block_size != 0 {
            return Err(FoldError::OffGrid(name.to_owned(), self.block_size, width));
        }
        if self.signs.len() == 0 {
            return Ok(Rotation { block_size: self.block_size, signs: None, perm: None });
        }
        match find_width(&self.signs, width) {
            None => Err(FoldError::NoSigns(name.to_owned(), width)),
            Some(i) => {
                proof {
                    let views = self@.signs;
                    assert(views[i as int].0 == width);
                    let k = width_index(views, width);
                    if k != i {
                        assert(views[k].0 == width);
                    }
                }
                Ok(
                    Rotation {
                        block_size: self.block_size,
                        signs: Some(copy_signs(&self.signs[i].1)),
                        perm: None,
                    },
                )
            },
        }
    }
}

/// The names that were not claimed, in the order they stand.
pub open spec fn unclaimed(names: Seq<Seq<char>>, claimed: Set<Seq<char>>) -> Seq<Seq<char>>
    decreases names.len(),
{
    if names.len() == 0 {
        Seq::empty()
    } else {
        let rest = unclaimed(names.drop_last(), claimed);
        if claimed.contains(names.last()) { rest } else { rest.push(names.last()) }
    }
}

/// Nothing is unclaimed exactly when every name was claimed.
proof fn lemma_unclaimed(names: Seq<Seq<char>>, claimed: Set<Seq<char>>)
    ensures
        unclaimed(names, claimed).len() == 0 <==> forall|i: int|
            0 <= i < names.len() ==> claimed.contains(#[trigger] names[i]),
        unclaimed(names, claimed).len() <= names.len(),
    decreases names.len(),
{
    if names.len() > 0 {
        let rest = names.drop_last();
        lemma_unclaimed(rest, claimed);
        assert forall|i: int| 0 <= i < rest.len() implies rest[i] == names[i] by {}
        if unclaimed(names, claimed).len() == 0 {
            assert forall|i: int| 0 <= i < names.len() implies claimed.contains(
                #[trigger] names[i],
            ) by {
                if i < rest.len() {
                    assert(claimed.contains(rest[i]));
                }
            }
        }
        if forall|i: int| 0 <= i < names.len() ==> claimed.contains(#[trigger] names[i]) {
            assert forall|i: int| 0 <= i < rest.len() implies claimed.contains(
                #[trigger] rest[i],
            ) by {
                assert(claimed.contains(names[i]));
            }
            assert(claimed.contains(names[names.len() - 1]));
        }
    }
}

/// The names of a list as a set.
pub open spec fn name_set(list: Seq<String>) -> Set<Seq<char>> {
    text::views(list).to_set()
}

impl Fold {
    /// What is said when some folded names were not claimed: how many, and the first four in
    /// order.
    pub open spec fn coverage(self, claimed: Set<Seq<char>>) -> Result<(), Fault> {
        let missing = unclaimed(self.names(), claimed);
        if missing.len() == 0 {
            Ok(())
        } else {
            let sorted = text::sorted_spec(missing);
            Err(
                Fault::NotCovered(
                    missing.len() as int,
                    if sorted.len() < 4 { sorted } else { sorted.take(4) },
                ),
            )
        }
    }
}

impl HadamardFold {
    /// Every folded name, forward and inverse: what a loader must have claimed by the time it
    /// is done.
    pub fn names(&self) -> (names: Vec<String>)
        ensures
            text::views(names@) == self@.names(),
    {
        let mut out: Vec<String> = Vec::new();
        let mut i: usize = 0;
        while i < self.weights.len()
            invariant
                i <= self.weights@.len(),
                text::views(out@) == text::views(self.weights@).take(i as int),
            decreases self.weights.len() - i,
        {
            let ghost before = out@;
            out.push(self.weights[i].clone());
            i = i + 1;
            assert(text::views(out@) =~= text::views(before).push(self.weights@[i - 1]@));
            assert(text::views(out@) =~= text::views(self.weights@).take(i as int));
        }
        let mut j: usize = 0;
        assert(text::views(out@) =~= text::views(self.weights@) + text::views(self.inverses@).take(
            0,
        ));
        while j < self.inverses.len()
            invariant
                j <= self.inverses@.len(),
                text::views(out@) == text::views(self.weights@) + text::views(self.inverses@).take(
                    j as int,
                ),
            decreases self.inverses.len() - j,
        {
            let ghost before = out@;
            out.push(self.inverses[j].clone());
            j = j + 1;
            assert(text::views(out@) =~= text::views(before).push(self.inverses@[j - 1]@));
            assert(text::views(out@) =~= text::views(self.weights@) + text::views(
                self.inverses@,
            ).take(j as int));
        }
        assert(text::views(out@) =~= self@.names());
        out
    }

    /// Fails if the file folds a weight that `claimed`, the names a loader routed through
    /// [`Self::input_rotation`] or [`Self::inverse_rotation`], does not hold. That weight would
    /// be multiplied in the wrong basis.
    pub fn verify_covered(&self, claimed: &Vec<String>) -> (covered: Result<(), FoldError>)
        ensures
            match (covered, self@.coverage(name_set(claimed@))) {
                (Ok(_), Ok(_)) => true,
                (Err(e), Err(fault)) => e@ == fault,
                _ => false,
            },
            covered is Ok <==> forall|i: int|
                0 <= i < self@.names().len() ==> name_set(claimed@).contains(
                    #[trigger] self@.names()[i],
                ),
    {
        let names = self.names();
        let ghost all = self@.names();
        let ghost set = name_set(claimed@);
        let mut missing: Vec<String> = Vec::new();
        let mut i: usize = 0;
        assert(text::views(missing@) =~= unclaimed(all.take(0), set));
        while i < names.len()
            invariant
                i <= names@.len(),
                all == text::views(names@),
                set == name_set(claimed@),
                text::views(missing@) == unclaimed(all.take(i as int), set),
            decreases names.len() - i,
        {
            assert(all.take(i + 1).drop_last() =~= all.take(i as int));
            assert(all.take(i + 1).last() == names@[i as int]@);
            if !text::is_listed(claimed, names[i].as_str()) {
                let ghost before = missing@;
                missing.push(names[i].clone());
                assert(text::views(missing@) =~= text::views(before).push(names@[i as int]@));
            }
            i = i + 1;
        }
        assert(all.take(i as int) =~= all);
        proof {
            lemma_unclaimed(all, set);
        }
        if missing.len() == 0 {
            return Ok(());
        }
        let count: usize = missing.len();
        let sorted = text::sorted(missing);
        proof {
            text::lemma_sorted(unclaimed(all, set));
        }
        let mut shown: Vec<String> = Vec::new();
        let mut k: usize = 0;
        while k < sorted.len() && k < 4
            invariant
                k <= sorted@.len(),
                k <= 4,
                text::views(shown@) == text::views(sorted@).take(k as int),
            decreases sorted.len() - k,
        {
            let ghost before = shown@;
            shown.push(sorted[k].clone());
            k = k + 1;
            assert(text::views(shown@) =~= text::views(before).push(sorted@[k - 1]@));
            assert(text::views(shown@) =~= text::views(sorted@).take(k as int));
        }
        assert(sorted@.len() < 4 ==> text::views(sorted@).take(k as int) =~= text::views(sorted@));
        Err(FoldError::NotCovered(count, shown))
    }
}

impl Rotation {
    pub fn block_size(&self) -> (n: usize)
        ensures
            n == self.block_size,
    {
        self.block_size
    }

    /// The signs, nothing in identity sign mode.
    pub fn signs(&self) -> (signs: Option<&Vec<i8>>)
        ensures
            match signs {
                Some(values) => self@.signs == Some(values@),
                None => self@.signs is None,
            },
    {
        match &self.signs {
            Some(values) => Some(values),
            None => None,
        }
    }

    /// Whether this rotation permutes its input first, which the device kernel does not do.
    pub fn has_permutation(&self) -> (yes: bool)
        ensures
            yes == self@.perm is Some,
    {
        self.perm.is_some()
    }

    /// This rotation's signs and blocks with the head permutation dropped, for a caller that has
    /// already stored its input in grouped order.
    pub fn without_permutation(&self) -> (plain: Rotation)
        ensures
            plain@ == (Turn { perm: None, ..self@ }),
    {
        let signs = match &self.signs {
            Some(values) => Some(copy_signs(values)),
            None => None,
        };
        Rotation { block_size: self.block_size, signs, perm: None }
    }

    /// Whether two sites can share one transformed copy of the same input.
    pub fn same_as(&self, other: &Rotation) -> (yes: bool)
        ensures
            yes == (self@ == other@),
    {
        if self.block_size != other.block_size {
            return false;
        }
        let alike_perm = match (self.perm, other.perm) {
            (None, None) => true,
            (Some((a, b, c)), Some((d, e, f))) => a == d && b == e && c == f,
            _ => false,
        };
        if !alike_perm {
            return false;
        }
        let alike = match (&self.signs, &other.signs) {
            (None, None) => true,
            (Some(a), Some(b)) => same_signs(a, b),
            _ => false,
        };
        alike
    }
}

/// What an architecture's loader carries while it reads its weights: the fold the file declares,
/// if any, and every folded name it has routed through a transform so far.
///
/// A file without a fold hands out nothing from every lookup and passes
/// [`FoldLedger::finish`].
#[derive(Debug)]
pub struct FoldLedger<'a> {
    fold: Option<&'a HadamardFold>,
    claimed: Vec<String>,
}

impl<'a> FoldLedger<'a> {
    /// The fold the ledger was made with.
    pub closed spec fn fold(self) -> Option<Fold> {
        match self.fold {
            Some(fold) => Some(fold@),
            None => None,
        }
    }

    /// The names routed through a transform so far.
    pub closed spec fn claimed(self) -> Set<Seq<char>> {
        name_set(self.claimed@)
    }

    pub open spec fn sound(self) -> bool {
        self.fold() matches Some(fold) ==> fold.sound()
    }

    pub fn new(fold: Option<&'a HadamardFold>) -> (ledger: FoldLedger<'a>)
        ensures
            ledger.fold() == match fold {
                Some(fold) => Some(fold@),
                None => None,
            },
            ledger.claimed() == Set::<Seq<char>>::empty(),
    {
        let ledger = FoldLedger { fold, claimed: Vec::new() };
        assert(ledger.claimed() =~= Set::<Seq<char>>::empty());
        ledger
    }

    fn claim(&mut self, name: &str)
        ensures
            final(self).fold() == old(self).fold(),
            final(self).claimed() == old(self).claimed().insert(name@),
    {
        let ghost before = self.claimed@;
        if !text::is_listed(&self.claimed, name) {
            self.claimed.push(name.to_owned());
            assert(text::views(self.claimed@) =~= text::views(before).push(name@));
            assert forall|n: Seq<char>| text::views(before).push(name@).to_set().contains(n)
                <==> text::views(before).to_set().insert(name@).contains(n) by {
                if text::views(before).contains(n) {
                    let k = choose|k: int|
                        0 <= k < before.len() && text::views(before)[k] == n;
                    assert(text::views(before).push(name@)[k] == n);
                }
                if n == name@ {
                    assert(text::views(before).push(name@)[before.len() as int] == n);
                }
            }
            assert(text::views(before).push(name@).to_set() =~= text::views(
                before,
            ).to_set().insert(name@));
        } else {
            assert(text::views(before).to_set().insert(name@) =~= text::views(before).to_set());
        }
    }

    /// The transform for the input of weight `name`, recorded as covered.
    pub fn input(&mut self, name: &str, in_dim: usize, gdn_heads: Option<(usize, usize)>) -> (
        rotation: Result<Option<Rotation>, FoldError>)
        requires
            old(self).sound(),
        ensures
            final(self).fold() == old(self).fold(),
            match old(self).fold() {
                None => rotation == Ok::<Option<Rotation>, FoldError>(None),
                Some(fold) => gives(rotation, fold.input(name@, in_dim, gdn_heads)),
            },
            final(self).claimed() == if rotation matches Ok(Some(_)) {
                old(self).claimed().insert(name@)
            } else {
                old(self).claimed()
            },
    {
        let fold = match self.fold {
            Some(fold) => fold,
            None => {
                return Ok(None);
            },
        };
        let rotation = match fold.input_rotation(name, in_dim, gdn_heads) {
            Ok(rotation) => rotation,
            Err(e) => {
                return Err(e);
            },
        };
        if rotation.is_some() {
            self.claim(name);
        }
        Ok(rotation)
    }

    /// The transform for rows looked up from `name`, recorded as covered.
    pub fn inverse(&mut self, name: &str, dim: usize) -> (rotation: Result<
        Option<Rotation>,
        FoldError,
    >)
        requires
            old(self).sound(),
        ensures
            final(self).fold() == old(self).fold(),
            match old(self).fold() {
                None => rotation == Ok::<Option<Rotation>, FoldError>(None),
                Some(fold) => gives(rotation, fold.inverse(name@, dim)),
            },
            final(self).claimed() == if rotation matches Ok(Some(_)) {
                old(self).claimed().insert(name@)
            } else {
                old(self).claimed()
            },
    {
        let fold = match self.fold {
            Some(fold) => fold,
            None => {
                return Ok(None);
            },
        };
        let rotation = match fold.inverse_rotation(name, dim) {
            Ok(rotation) => rotation,
            Err(e) => {
                return Err(e);
            },
        };
        if rotation.is_some() {
            self.claim(name);
        }
        Ok(rotation)
    }

    /// Whether everything the file folds was claimed.
    pub fn finish(&self) -> (covered: Result<(), FoldError>)
        ensures
            match self.fold() {
                None => covered is Ok,
                Some(fold) => match (covered, fold.coverage(self.claimed())) {
                    (Ok(_), Ok(_)) => true,
                    (Err(e), Err(fault)) => e@ == fault,
                    _ => false,
                },
            },
            self.fold() matches Some(fold) ==> (covered is Ok <==> forall|i: int|
                0 <= i < fold.names().len() ==> self.claimed().contains(
                    #[trigger] fold.names()[i],
                )),
    {
        match self.fold {
            Some(fold) => fold.verify_covered(&self.claimed),
            None => Ok(()),
        }
    }
}

/// The texts of a list of borrowed ones.
pub open spec fn str_views(names: Seq<&str>) -> Seq<Seq<char>> {
    names.map_values(|s: &str| s@)
}

impl Fold {
    /// Whether the readers of one activation from `i` on have transforms that agree with the
    /// first, and the first fault if not.
    pub open spec fn shared_from(self, names: Seq<Seq<char>>, width: usize, i: int) -> Result<
        (),
        Fault,
    >
        decreases names.len() - i,
    {
        if i < 0 || i >= names.len() {
            Ok(())
        } else {
            match self.input(names[i], width, None) {
                Err(fault) => Err(fault),
                Ok(turn) => if i > 0 && self.input(names[0], width, None) != Ok::<
                    Option<Turn>,
                    Fault,
                >(turn) {
                    Err(Fault::NotAlike(names[0], names[i]))
                } else {
                    self.shared_from(names, width, i + 1)
                },
            }
        }
    }

    /// The one transform of several readers of an activation: the first one's, where all agree.
    pub open spec fn shared(self, names: Seq<Seq<char>>, width: usize) -> Result<
        Option<Turn>,
        Fault,
    > {
        match self.shared_from(names, width, 0) {
            Err(fault) => Err(fault),
            Ok(_) => if names.len() == 0 { Ok(None) } else { self.input(names[0], width, None) },
        }
    }

    /// What is claimed after asking for the readers from `i` on in turn, up to the first that
    /// is refused.
    pub open spec fn shared_claims(
        self,
        names: Seq<Seq<char>>,
        width: usize,
        i: int,
        claimed: Set<Seq<char>>,
    ) -> Set<Seq<char>>
        decreases names.len() - i,
    {
        if i < 0 || i >= names.len() {
            claimed
        } else {
            match self.input(names[i], width, None) {
                Err(_) => claimed,
                Ok(turn) => {
                    let next = if turn is Some { claimed.insert(names[i]) } else { claimed };
                    if i > 0 && self.input(names[0], width, None) != Ok::<Option<Turn>, Fault>(
                        turn,
                    ) {
                        next
                    } else {
                        self.shared_claims(names, width, i + 1, next)
                    }
                },
            }
        }
    }
}

impl<'a> FoldLedger<'a> {
    /// One transform for several weights that read the same activation, a joint query, key and
    /// value, or gate and up. Either every name is folded the same way, or none is; a file that
    /// folded only some of them would need the one input in two bases at once, and is refused.
    pub fn shared_input(&mut self, names: &[&str], in_dim: usize) -> (rotation: Result<
        Option<Rotation>,
        FoldError,
    >)
        requires
            old(self).sound(),
        ensures
            final(self).fold() == old(self).fold(),
            match old(self).fold() {
                None => rotation == Ok::<Option<Rotation>, FoldError>(None) && final(self).claimed()
                    == old(self).claimed(),
                Some(fold) => gives(rotation, fold.shared(str_views(names@), in_dim))
                    && final(self).claimed() == fold.shared_claims(
                    str_views(names@),
                    in_dim,
                    0,
                    old(self).claimed(),
                ),
            },
    {
        let ghost fold = self.fold()->0;
        let ghost texts = str_views(names@);
        let mut shared: Option<Rotation> = None;
        let mut i: usize = 0;
        while i < names.len()
            invariant
                i <= names@.len(),
                texts == str_views(names@),
                self.sound(),
                self.fold() == old(self).fold(),
                self.fold() is None ==> shared is None && self.claimed() == old(self).claimed(),
                i == 0 ==> shared is None,
                self.fold() matches Some(f) ==> {
                    &&& f == fold
                    &&& i > 0 ==> gives(
                        Ok(shared),
                        f.input(texts[0], in_dim, None),
                    )
                    &&& f.shared_from(texts, in_dim, 0) == f.shared_from(texts, in_dim, i as int)
                    &&& f.shared_claims(texts, in_dim, 0, old(self).claimed()) == f.shared_claims(
                        texts,
                        in_dim,
                        i as int,
                        self.claimed(),
                    )
                },
            decreases names.len() - i,
        {
            assert(texts[i as int] == names@[i as int]@);
            let rotation = match self.input(names[i], in_dim, None) {
                Ok(rotation) => rotation,
                Err(e) => {
                    return Err(e);
                },
            };
            if i == 0 {
                shared = rotation;
            } else {
                let agree = match (&shared, &rotation) {
                    (None, None) => true,
                    (Some(a), Some(b)) => a.same_as(b),
                    _ => false,
                };
                if !agree {
                    assert(texts[0] == names@[0]@);
                    return Err(FoldError::NotAlike(names[0].to_owned(), names[i].to_owned()));
                }
            }
            i = i + 1;
        }
        Ok(shared)
    }
}

/// Heads in grouped order: place `r + rep * k` of the result holds head `k + nk * r` of the
/// tiled row, each `hd` wide.
pub open spec fn regrouped<T>(row: Seq<T>, hd: int, nk: int, rep: int) -> Seq<T> {
    Seq::new(
        row.len(),
        |p: int| row[p % hd + hd * (p / hd / rep + nk * (p / hd % rep))],
    )
}

proof fn lemma_head_index(h: int, k: int, r: int, hd: int, nk: int, rep: int)
    requires
        0 <= h < hd,
        0 <= k < nk,
        0 <= r < rep,
    ensures
        0 <= h + hd * (r + rep * k) < hd * nk * rep,
        (h + hd * (r + rep * k)) % hd == h,
        (h + hd * (r + rep * k)) / hd == r + rep * k,
        (r + rep * k) % rep == r,
        (r + rep * k) / rep == k,
{
    let v = r + rep * k;
    assert(0 <= rep * k) by (nonlinear_arith)
        requires
            0 <= k,
            0 <= r < rep,
    ;
    assert(rep * k + rep <= nk * rep) by (nonlinear_arith)
        requires
            0 <= k < nk,
            0 < rep,
    ;
    assert(0 <= v < nk * rep);
    assert(hd * v + hd <= hd * nk * rep) by (nonlinear_arith)
        requires
            0 <= v < nk * rep,
            0 < hd,
    ;
    assert(0 <= hd * v) by (nonlinear_arith)
        requires
            0 <= v,
            0 < hd,
    ;
    vstd::arithmetic::div_mod::lemma_fundamental_div_mod_converse(h + hd * v, hd, v, h);
    vstd::arithmetic::div_mod::lemma_fundamental_div_mod_converse(v, rep, k, r);
}

/// Reorders a delta-net output row from tiled head order, element `h + hd * (k + nk * r)`, to
/// grouped order, `h + hd * (r + rep * k)`.
pub fn permute_tiled_to_grouped<T: Copy>(
    row: &mut Vec<T>,
    hd: usize,
    nk: usize,
    rep: usize,
    scratch: &mut Vec<T>,
)
    requires
        old(row)@.len() == hd * nk * rep,
    ensures
        final(row)@ == regrouped(old(row)@, hd as int, nk as int, rep as int),
        final(scratch)@ == old(row)@,
{
    let ghost tiled = row@;
    scratch.clear();
    let mut i: usize = 0;
    while i < row.len()
        invariant
            i <= row@.len(),
            row@ == tiled,
            scratch@ == tiled.take(i as int),
        decreases row.len() - i,
    {
        scratch.push(row[i]);
        i = i + 1;
        assert(scratch@ =~= tiled.take(i as int));
    }
    assert(scratch@ =~= tiled);
    let mut p: usize = 0;
    while p < row.len()
        invariant
            p <= row@.len(),
            row@.len() == tiled.len(),
            tiled.len() == hd * nk * rep,
            scratch@ == tiled,
            forall|q: int|
                0 <= q < p ==> #[trigger] row@[q] == regrouped(
                    tiled,
                    hd as int,
                    nk as int,
                    rep as int,
                )[q],
        decreases row.len() - p,
    {
        proof {
            if hd == 0 {
                assert(hd * nk * rep == 0) by (nonlinear_arith)
                    requires
                        hd == 0,
                ;
            }
            if rep == 0 {
                assert(hd * nk * rep == 0) by (nonlinear_arith)
                    requires
                        rep == 0,
                ;
            }
        }
        let v: usize = p / hd;
        let k: usize = v / rep;
        let r: usize = v % rep;
        let h: usize = p % hd;
        proof {
            vstd::arithmetic::div_mod::lemma_fundamental_div_mod(p as int, hd as int);
            vstd::arithmetic::div_mod::lemma_fundamental_div_mod(v as int, rep as int);
            assert(v < nk * rep) by (nonlinear_arith)
                requires
                    p < hd * nk * rep,
                    p == hd * v + h,
                    h >= 0,
                    hd > 0,
                    v >= 0,
            ;
            assert(k < nk) by (nonlinear_arith)
                requires
                    v < nk * rep,
                    v == rep * k + r,
                    r >= 0,
                    rep > 0,
                    k >= 0,
            ;
            lemma_head_index(h as int, r as int, k as int, hd as int, rep as int, nk as int);
            assert(hd * rep * nk == hd * nk * rep) by (nonlinear_arith);
            assert(nk * r >= 0) by (nonlinear_arith);
            assert(hd * (k + nk * r) >= k + nk * r) by (nonlinear_arith)
                requires
                    hd > 0,
                    k >= 0,
                    nk * r >= 0,
            ;
            assert(k + nk * r >= nk * r);
        }
        let head: usize = k + nk * r;
        row.set(p, scratch[h + hd * head]);
        p = p + 1;
    }
    assert(row@ =~= regrouped(tiled, hd as int, nk as int, rep as int));
}

/// Regrouping with the two head counts exchanged undoes regrouping, whatever the row holds.
pub proof fn law_regrouping_is_undone<T>(row: Seq<T>, hd: int, nk: int, rep: int)
    requires
        hd > 0,
        nk > 0,
        rep > 0,
        row.len() == hd * nk * rep,
    ensures
        regrouped(regrouped(row, hd, nk, rep), hd, rep, nk) == row,
{
    let once = regrouped(row, hd, nk, rep);
    let twice = regrouped(once, hd, rep, nk);
    assert forall|p: int| 0 <= p < row.len() implies twice[p] == row[p] by {
        let v = p / hd;
        let h = p % hd;
        let r = v % nk;
        let k = v / nk;
        vstd::arithmetic::div_mod::lemma_fundamental_div_mod(p, hd);
        vstd::arithmetic::div_mod::lemma_fundamental_div_mod(v, nk);
        vstd::arithmetic::div_mod::lemma_div_pos_is_pos(p, hd);
        vstd::arithmetic::div_mod::lemma_div_pos_is_pos(v, nk);
        assert(v < rep * nk) by (nonlinear_arith)
            requires
                p < hd * nk * rep,
                p == hd * v + h,
                h >= 0,
                hd > 0,
                v >= 0,
        ;
        assert(k < rep) by (nonlinear_arith)
            requires
                v < rep * nk,
                v == nk * k + r,
                r >= 0,
                nk > 0,
                k >= 0,
        ;
        lemma_head_index(h, r, k, hd, nk, rep);
        let q = h + hd * (k + rep * r);
        assert(twice[p] == once[q]);
        assert(once[q] == row[h + hd * (r + nk * k)]);
    }
    assert(twice =~= row);
}

/// A name that is folded and found its transform is covered from then on: claiming it and
/// finishing agree for any loader that asks for every folded name.
pub proof fn law_claiming_every_name_is_enough(fold: Fold, claimed: Set<Seq<char>>)
    requires
        forall|i: int|
            0 <= i < fold.names().len() ==> claimed.contains(#[trigger] fold.names()[i]),
    ensures
        fold.coverage(claimed) is Ok,
{
    lemma_unclaimed(fold.names(), claimed);
}

/// One folded name that nobody claimed is enough to refuse the file.
pub proof fn law_one_unclaimed_name_is_refused(fold: Fold, claimed: Set<Seq<char>>, i: int)
    requires
        0 <= i < fold.names().len(),
        !claimed.contains(fold.names()[i]),
    ensures
        fold.coverage(claimed) is Err,
{
    lemma_unclaimed(fold.names(), claimed);
}

/// What the first `k` widths add up to.
pub open spec fn width_before(widths: Seq<int>, k: int) -> int
    decreases k,
{
    if k <= 0 { 0 } else { width_before(widths, k - 1) + widths[k - 1] }
}

proof fn lemma_good_width(widths: Seq<int>, block: usize, from: int, i: int)
    requires
        first_bad_width(widths, block, from) is None,
        0 <= from <= i < widths.len(),
    ensures
        widths[i] > 0,
        (widths[i] as usize) % block == 0,
    decreases i - from,
{
    if from < i {
        lemma_good_width(widths, block, from + 1, i);
    }
}

proof fn lemma_total_before(widths: Seq<int>, k: int)
    requires
        0 <= k <= widths.len(),
        forall|i: int| 0 <= i < widths.len() ==> 0 <= #[trigger] widths[i] <= usize::MAX,
    ensures
        total(widths.map_values(|w: int| w as usize).take(k)) == width_before(widths, k),
    decreases k,
{
    let cut = widths.map_values(|w: int| w as usize);
    if k > 0 {
        lemma_total_before(widths, k - 1);
        assert(cut.take(k).drop_last() =~= cut.take(k - 1));
        assert(cut.take(k).last() == widths[k - 1] as usize);
        assert(0 <= widths[k - 1] <= usize::MAX);
    }
}

proof fn lemma_signs_cut(widths: Seq<usize>, values: Seq<int>, n: int, k: int)
    requires
        0 <= k < n <= widths.len(),
        signs_spec(widths, values, n) is Ok,
    ensures
        signs_spec(widths, values, n)->Ok_0.len() == n,
        signs_spec(widths, values, n)->Ok_0[k].0 == widths[k],
        signs_spec(widths, values, n)->Ok_0[k].1.len() == widths[k],
        forall|i: int|
            0 <= i < widths[k] ==> #[trigger] signs_spec(widths, values, n)->Ok_0[k].1[i]
                == values[total(widths.take(k)) + i],
    decreases n,
{
    lemma_signs(widths, values, n);
    lemma_signs(widths, values, n - 1);
    if k < n - 1 {
        lemma_signs_cut(widths, values, n - 1, k);
    } else {
        let off = total(widths.take(k));
        let cut = values.subrange(off, off + widths[k]);
        lemma_first_bad_sign(cut, 0);
        assert forall|i: int| 0 <= i < widths[k] implies #[trigger] signs_spec(
            widths,
            values,
            n,
        )->Ok_0[k].1[i] == values[off + i] by {
            assert(cut[i] == values[off + i]);
            assert(cut[i] == 1 || cut[i] == -1);
        }
    }
}

proof fn lemma_widths_fit(m: Seq<(String, GgufValue)>, i: int)
    requires
        declaration_fault(m) is None,
        gguf::string_spec(m, KEY_SIGN_MODE@) == Some("explicit"@),
        0 <= i < gguf::numbers_spec(m, KEY_SIGN_WIDTHS@)->0.len(),
    ensures
        gguf::numbers_spec(m, KEY_SIGN_WIDTHS@) is Some,
        gguf::numbers_spec(m, KEY_SIGN_WIDTHS@)->0[i] > 0,
        (gguf::numbers_spec(m, KEY_SIGN_WIDTHS@)->0[i] as usize) % (gguf::scalar_spec(
            m,
            KEY_BLOCK_SIZE@,
        )->0 as usize) == 0,
{
    reveal_strlit("explicit");
    reveal_strlit("identity");
    assert("explicit"@[0] != "identity"@[0]);
    lemma_good_width(
        gguf::numbers_spec(m, KEY_SIGN_WIDTHS@)->0,
        gguf::scalar_spec(m, KEY_BLOCK_SIZE@)->0 as usize,
        0,
        i,
    );
}

/// The rotation of a folded weight carries the signs the file declares for its width: those
/// behind the signs of all the widths listed before it, in their order. The same of a table whose
/// rows are looked up.
pub proof fn law_a_rotation_carries_the_declared_signs(
    m: Seq<(String, GgufValue)>,
    fold: Fold,
    name: Seq<char>,
    heads: Option<(usize, usize)>,
    k: int,
)
    requires
        declaration_fault(m) is None,
        fold_spec(m) == Ok::<Fold, Fault>(fold),
        gguf::string_spec(m, KEY_SIGN_MODE@) == Some("explicit"@),
        0 <= k < gguf::numbers_spec(m, KEY_SIGN_WIDTHS@)->0.len(),
        forall|i: int|
            0 <= i < gguf::numbers_spec(m, KEY_SIGN_WIDTHS@)->0.len() ==> #[trigger] gguf::numbers_spec(
                m,
                KEY_SIGN_WIDTHS@,
            )->0[i] <= usize::MAX,
    ensures
        ({
            let widths = gguf::numbers_spec(m, KEY_SIGN_WIDTHS@)->0;
            let values = gguf::numbers_spec(m, KEY_SIGN_VALUES@)->0;
            let width = widths[k] as usize;
            let block = gguf::scalar_spec(m, KEY_BLOCK_SIZE@)->0 as usize;
            let input = fold.input(name, width, heads);
            let inverse = fold.inverse(name, width);
            &&& gguf::strings_spec(m, KEY_WEIGHT_NAMES@)->0.contains(name) ==> input is Err
                || carries(input->Ok_0->0, block, width, values, width_before(widths, k))
            &&& inverse_names_spec(m).contains(name) ==> (inverse matches Ok(Some(turn))
                && carries(turn, block, width, values, width_before(widths, k)))
            &&& gguf::strings_spec(m, KEY_WEIGHT_NAMES@)->0.contains(name) && !text::occurs(
                name,
                ".ssm_out."@,
            ) ==> (input matches Ok(Some(turn)) && turn.perm is None)
        }),
{
    let widths = gguf::numbers_spec(m, KEY_SIGN_WIDTHS@)->0;
    let values = gguf::numbers_spec(m, KEY_SIGN_VALUES@)->0;
    let cut = widths.map_values(|w: int| w as usize);
    let n = cut.len() as int;
    let width = widths[k] as usize;
    reveal_strlit("explicit");
    reveal_strlit("identity");
    assert("explicit"@[0] != "identity"@[0]);
    assert forall|i: int| 0 <= i < widths.len() implies 0 <= #[trigger] widths[i]
        <= usize::MAX by {
        lemma_widths_fit(m, i);
    }
    lemma_widths_fit(m, k);
    assert(declared_spec(m).sign_widths == cut);
    assert(signs_spec(cut, values, n) == Ok::<Seq<(usize, Seq<i8>)>, Fault>(fold.signs));
    lemma_signs_cut(cut, values, n, k);
    lemma_signs(cut, values, n);
    lemma_total_before(widths, k);
    assert(cut.take(n) =~= cut);
    assert(fold.signs[k].0 == width);
    assert(has_width(fold.signs, width));
    let at = width_index(fold.signs, width);
    assert(0 <= at < n && fold.signs[at].0 == width);
    lemma_signs_cut(cut, values, n, at);
    assert(at == k) by {
        if at != k {
            assert(cut[at] == cut[k]);
        }
    }
    assert(width > 0);
    let block = gguf::scalar_spec(m, KEY_BLOCK_SIZE@)->0 as usize;
    assert(fold.block_size == block);
    assert(width % block == 0);
    let turn = fold.turn(name, width);
    assert(turn is Ok);
    assert(carries(turn->Ok_0, block, width, values, width_before(widths, k))) by {
        let signs = turn->Ok_0.signs->0;
        assert forall|i: int| 0 <= i < width implies #[trigger] signs[i] == values[width_before(
            widths,
            k,
        ) + i] by {
            assert(fold.signs[k].1[i] == values[total(cut.take(k)) + i]);
        }
    }
}

/// Whether a transform has a block size, and signs of a width that stand among the values from a
/// place on.
pub open spec fn carries(
    turn: Turn,
    block: usize,
    width: usize,
    values: Seq<int>,
    from: int,
) -> bool {
    &&& turn.block_size == block
    &&& turn.signs matches Some(signs) && signs.len() == width && forall|i: int|
        0 <= i < width ==> #[trigger] signs[i] == values[from + i]
}

/// Without explicit signs a rotation has none, at every width its blocks fit; and a weight that
/// is not listed has no rotation at all, nor has one whose width is off the grid.
pub proof fn law_only_listed_weights_turn(
    m: Seq<(String, GgufValue)>,
    fold: Fold,
    name: Seq<char>,
    heads: Option<(usize, usize)>,
    width: usize,
)
    requires
        declaration_fault(m) is None,
        fold_spec(m) == Ok::<Fold, Fault>(fold),
    ensures
        ({
            let block = gguf::scalar_spec(m, KEY_BLOCK_SIZE@)->0 as usize;
            let listed = gguf::strings_spec(m, KEY_WEIGHT_NAMES@)->0.contains(name);
            let looked_up = inverse_names_spec(m).contains(name);
            &&& !listed ==> fold.input(name, width, heads) == Ok::<Option<Turn>, Fault>(None)
            &&& !looked_up ==> fold.inverse(name, width) == Ok::<Option<Turn>, Fault>(None)
            &&& listed && (width == 0 || width as int % block as int != 0) ==> fold.input(
                name,
                width,
                heads,
            ) is Err
            &&& looked_up && (width == 0 || width as int % block as int != 0) ==> fold.inverse(
                name,
                width,
            ) is Err
            &&& gguf::string_spec(m, KEY_SIGN_MODE@) == Some("identity"@) && looked_up && width
                > 0 && width as int % block as int == 0 ==> fold.inverse(name, width) == Ok::<
                Option<Turn>,
                Fault,
            >(Some(Turn { block_size: block, signs: None, perm: None }))
        }),
{
}

/// Where a delta-net projection is regrouped, its heads fill the width, and the key heads the
/// value heads: the permutation's three numbers multiply to the width.
pub proof fn law_a_regrouping_fills_the_width(
    fold: Fold,
    name: Seq<char>,
    width: usize,
    heads: Option<(usize, usize)>,
)
    requires
        fold.input(name, width, heads) matches Ok(Some(turn)) && turn.perm is Some,
    ensures
        ({
            let (hd, nk, rep) = fold.input(name, width, heads)->Ok_0->0.perm->0;
            &&& fold.gdn_v_grouped && text::occurs(name, ".ssm_out."@)
            &&& heads matches Some((n_v, n_k)) && nk == n_k && rep * nk == n_v && hd * n_v == width
        }),
{
    let (n_v, n_k) = heads->0;
    let (w, v, k) = (width as int, n_v as int, n_k as int);
    vstd::arithmetic::div_mod::lemma_fundamental_div_mod(w, v);
    vstd::arithmetic::div_mod::lemma_fundamental_div_mod(v, k);
    assert((w / v) * v == v * (w / v)) by (nonlinear_arith);
    assert((v / k) * k == k * (v / k)) by (nonlinear_arith);
}

/// A delta-net projection of a regrouped file whose heads do divide it is never left in tiled
/// order.
pub proof fn law_a_grouped_projection_is_regrouped(
    fold: Fold,
    name: Seq<char>,
    width: usize,
    heads: Option<(usize, usize)>,
)
    requires
        fold.gdn_v_grouped,
        text::occurs(name, ".ssm_out."@),
        fold.input(name, width, heads) matches Ok(Some(_)),
    ensures
        fold.input(name, width, heads)->Ok_0->0.perm is Some,
{
}

/// The keys of a fold in a file's metadata, all under one prefix.
pub proof fn law_the_keys_share_a_prefix()
    ensures
        KEY_VERSION@ == "prism.hadamard."@ + "version"@,
        KEY_BLOCK_SIZE@ == "prism.hadamard."@ + "block_size"@,
        KEY_TRANSFORM@ == "prism.hadamard."@ + "transform"@,
        KEY_AXIS@ == "prism.hadamard."@ + "axis"@,
        KEY_SIGN_MODE@ == "prism.hadamard."@ + "sign_mode"@,
        KEY_WEIGHT_NAMES@ == "prism.hadamard."@ + "weight_names"@,
        KEY_SIGN_WIDTHS@ == "prism.hadamard."@ + "sign_widths"@,
        KEY_SIGN_VALUES@ == "prism.hadamard."@ + "sign_values"@,
        KEY_INVERSE_NAMES@ == "prism.hadamard."@ + "inverse_weight_names"@,
        KEY_GDN_V_GROUPED@ == "prism.hadamard."@ + "gdn_v_grouped"@,
        TRANSFORM@ == "normalized-sylvester-walsh-hadamard"@,
        AXIS@ == "input-last-dimension"@,
{
    reveal_strlit("prism.hadamard.");
    reveal_strlit("version");
    reveal_strlit("block_size");
    reveal_strlit("transform");
    reveal_strlit("axis");
    reveal_strlit("sign_mode");
    reveal_strlit("weight_names");
    reveal_strlit("sign_widths");
    reveal_strlit("sign_values");
    reveal_strlit("inverse_weight_names");
    reveal_strlit("gdn_v_grouped");
    reveal_strlit("prism.hadamard.version");
    reveal_strlit("prism.hadamard.block_size");
    reveal_strlit("prism.hadamard.transform");
    reveal_strlit("prism.hadamard.axis");
    reveal_strlit("prism.hadamard.sign_mode");
    reveal_strlit("prism.hadamard.weight_names");
    reveal_strlit("prism.hadamard.sign_widths");
    reveal_strlit("prism.hadamard.sign_values");
    reveal_strlit("prism.hadamard.inverse_weight_names");
    reveal_strlit("prism.hadamard.gdn_v_grouped");
    assert(KEY_VERSION@ =~= "prism.hadamard."@ + "version"@);
    assert(KEY_BLOCK_SIZE@ =~= "prism.hadamard."@ + "block_size"@);
    assert(KEY_TRANSFORM@ =~= "prism.hadamard."@ + "transform"@);
    assert(KEY_AXIS@ =~= "prism.hadamard."@ + "axis"@);
    assert(KEY_SIGN_MODE@ =~= "prism.hadamard."@ + "sign_mode"@);
    assert(KEY_WEIGHT_NAMES@ =~= "prism.hadamard."@ + "weight_names"@);
    assert(KEY_SIGN_WIDTHS@ =~= "prism.hadamard."@ + "sign_widths"@);
    assert(KEY_SIGN_VALUES@ =~= "prism.hadamard."@ + "sign_values"@);
    assert(KEY_INVERSE_NAMES@ =~= "prism.hadamard."@ + "inverse_weight_names"@);
    assert(KEY_GDN_V_GROUPED@ =~= "prism.hadamard."@ + "gdn_v_grouped"@);
}

proof fn lemma_power(n: nat) -> (k: nat)
    requires
        power_of_two(n),
    ensures
        n == vstd::arithmetic::power2::pow2(k),
    decreases n,
{
    if n == 1 {
        vstd::arithmetic::power2::lemma2_to64();
        0
    } else {
        let k = lemma_power(n / 2);
        vstd::arithmetic::power2::lemma_pow2_unfold(k + 1);
        k + 1
    }
}

proof fn lemma_is_power(k: nat)
    ensures
        power_of_two(vstd::arithmetic::power2::pow2(k)),
        vstd::arithmetic::power2::pow2(k) >= 1,
    decreases k,
{
    vstd::arithmetic::power2::lemma2_to64();
    if k > 0 {
        lemma_is_power((k - 1) as nat);
        vstd::arithmetic::power2::lemma_pow2_unfold(k);
        let half = vstd::arithmetic::power2::pow2((k - 1) as nat);
        assert(2 * half / 2nat == half && 2 * half % 2nat == 0);
    }
}

proof fn lemma_repeat(names: Seq<Seq<char>>, from: int)
    requires
        0 <= from <= names.len(),
    ensures
        first_repeat(names, from) is None <==> forall|i: int, j: int|
            0 <= i < j < names.len() && from <= j ==> names[i] != names[j],
        first_repeat(names, from) matches Some(name) ==> exists|i: int, j: int|
            0 <= i < j < names.len() && from <= j && names[i] == name && names[j] == name,
    decreases names.len() - from,
{
    if from < names.len() {
        let head = names.take(from);
        if head.contains(names[from]) {
            let i = choose|i: int| 0 <= i < head.len() && head[i] == names[from];
            assert(names[i] == names[from]);
        } else {
            lemma_repeat(names, from + 1);
            assert forall|i: int| 0 <= i < from implies names[i] != names[from] by {
                assert(head[i] == names[i]);
            }
        }
    }
}

proof fn lemma_bad_width(widths: Seq<int>, block: usize, from: int)
    requires
        0 <= from <= widths.len(),
    ensures
        first_bad_width(widths, block, from) is None <==> forall|i: int|
            from <= i < widths.len() ==> #[trigger] widths[i] > 0 && (widths[i] as usize) % block
                == 0,
        first_bad_width(widths, block, from) matches Some(w) ==> widths.contains(w) && !(w > 0 && (
        w as usize) % block == 0),
    decreases widths.len() - from,
{
    if from < widths.len() {
        lemma_bad_width(widths, block, from + 1);
    }
}

/// No name stands in two places of a list.
pub open spec fn all_different(names: Seq<Seq<char>>) -> bool {
    forall|i: int, j: int| 0 <= i < j < names.len() ==> names[i] != names[j]
}

/// A declaration is taken exactly where it is the one the format defines: its first version, a
/// block of a power of two, the one transform along the one axis, a known sign mode, and names
/// of which none stands twice, nor in both lists; and with explicit signs, widths that are all
/// positive multiples of the block.
pub proof fn law_a_sound_declaration_is_what_the_format_defines(
    m: Seq<(String, GgufValue)>,
    k: nat,
)
    requires
        gguf::scalar_spec(m, KEY_VERSION@) is Some,
    ensures
        ({
            let block = gguf::scalar_spec(m, KEY_BLOCK_SIZE@);
            let mode = gguf::string_spec(m, KEY_SIGN_MODE@);
            let weights = gguf::strings_spec(m, KEY_WEIGHT_NAMES@);
            let tables = gguf::strings_spec(m, KEY_INVERSE_NAMES@);
            let widths = gguf::numbers_spec(m, KEY_SIGN_WIDTHS@);
            let names = if tables is Some { weights->0 + tables->0 } else { weights->0 };
            let keys = {
                &&& gguf::scalar_spec(m, KEY_VERSION@) == Some(1u64)
                &&& block is Some
                &&& gguf::string_spec(m, KEY_TRANSFORM@) == Some(TRANSFORM@)
                &&& gguf::string_spec(m, KEY_AXIS@) == Some(AXIS@)
                &&& mode == Some("identity"@) || mode == Some("explicit"@)
                &&& weights is Some && weights->0.len() > 0 && all_different(names)
                &&& mode == Some("explicit"@) ==> widths is Some && widths->0.len() > 0 && forall|
                    i: int,
                |
                    0 <= i < widths->0.len() ==> (#[trigger] widths->0[i]) > 0 && (
                    widths->0[i] as usize) % (block->0 as usize) == 0
            };
            &&& declaration_fault(m) is None ==> keys && exists|e: nat|
                (block->0 as usize) as nat == #[trigger] vstd::arithmetic::power2::pow2(e)
            &&& keys && (block->0 as usize) as nat == vstd::arithmetic::power2::pow2(k)
                ==> declaration_fault(m) is None
        }),
{
    reveal_strlit("explicit");
    reveal_strlit("identity");
    assert("explicit"@[0] != "identity"@[0]);
    let block = gguf::scalar_spec(m, KEY_BLOCK_SIZE@)->0 as usize;
    let weights = gguf::strings_spec(m, KEY_WEIGHT_NAMES@)->0;
    let tables = gguf::strings_spec(m, KEY_INVERSE_NAMES@);
    let names = if tables is Some { weights + tables->0 } else { weights };
    let joint = weights + inverse_names_spec(m);
    assert(joint =~= names);
    lemma_repeat(weights, 0);
    lemma_repeat(joint, weights.len() as int);
    lemma_bad_width(gguf::numbers_spec(m, KEY_SIGN_WIDTHS@)->0, block, 0);
    assert forall|i: int, j: int| 0 <= i < j < weights.len() implies weights[i] == joint[i]
        && weights[j] == joint[j] by {}
    if declaration_fault(m) is None {
        let e = lemma_power(block as nat);
        assert(block as nat == vstd::arithmetic::power2::pow2(e));
        assert forall|i: int, j: int| 0 <= i < j < names.len() implies names[i] != names[j] by {
            if j < weights.len() {
                assert(weights[i] != weights[j]);
            }
        }
    }
    lemma_is_power(k);
    if all_different(names) {
        assert forall|i: int, j: int| 0 <= i < j < weights.len() implies weights[i]
            != weights[j] by {
            assert(names[i] != names[j]);
        }
    }
}

/// What a refusal of a declaration says is so: a key that is called missing is not there or holds
/// something else, and a value that is called unsupported is the file's and not the format's.
pub proof fn law_a_refusal_says_what_is_wrong(m: Seq<(String, GgufValue)>)
    requires
        gguf::scalar_spec(m, KEY_VERSION@) is Some,
    ensures
        ({
            let weights = gguf::strings_spec(m, KEY_WEIGHT_NAMES@);
            match declaration_fault(m) {
                None => true,
                Some(Fault::Version(v)) => gguf::scalar_spec(m, KEY_VERSION@)->0 == v && v != 1,
                Some(Fault::Missing(key)) => (key == KEY_BLOCK_SIZE@ && gguf::scalar_spec(m, key) is None)
                    || ((key == KEY_TRANSFORM@ || key == KEY_AXIS@ || key == KEY_SIGN_MODE@)
                    && gguf::string_spec(m, key) is None) || (key == KEY_WEIGHT_NAMES@
                    && gguf::strings_spec(m, key) is None) || (key == KEY_SIGN_WIDTHS@
                    && gguf::numbers_spec(m, key) is None),
                Some(Fault::BlockSize(n)) => gguf::scalar_spec(m, KEY_BLOCK_SIZE@) matches Some(b)
                    && b as usize == n && forall|e: nat|
                    n != #[trigger] vstd::arithmetic::power2::pow2(e),
                Some(Fault::Transform(t)) => gguf::string_spec(m, KEY_TRANSFORM@) == Some(t) && t
                    != TRANSFORM@,
                Some(Fault::Axis(t)) => gguf::string_spec(m, KEY_AXIS@) == Some(t) && t != AXIS@,
                Some(Fault::SignMode(t)) => gguf::string_spec(m, KEY_SIGN_MODE@) == Some(t) && t
                    != "identity"@ && t != "explicit"@,
                Some(Fault::NoWeightNames) => weights matches Some(names) && names.len() == 0,
                Some(Fault::RepeatedName(name)) => exists|i: int, j: int|
                    0 <= i < j < weights->0.len() && weights->0[i] == name && weights->0[j] == name,
                Some(Fault::BothWays(name)) => gguf::strings_spec(m, KEY_INVERSE_NAMES@) matches Some(
                    tables,
                ) && tables.contains(name),
                Some(Fault::NoSignWidths) => gguf::numbers_spec(m, KEY_SIGN_WIDTHS@) matches Some(w)
                    && w.len() == 0,
                Some(Fault::SignWidth(w)) => gguf::numbers_spec(m, KEY_SIGN_WIDTHS@) matches Some(ws)
                    && ws.contains(w) && !(w > 0 && (w as usize) % (gguf::scalar_spec(
                    m,
                    KEY_BLOCK_SIZE@,
                )->0 as usize) == 0),
                _ => false,
            }
        }),
{
    let block = gguf::scalar_spec(m, KEY_BLOCK_SIZE@)->0 as usize;
    let weights = gguf::strings_spec(m, KEY_WEIGHT_NAMES@)->0;
    let tables = inverse_names_spec(m);
    lemma_repeat(weights, 0);
    lemma_repeat(weights + tables, weights.len() as int);
    lemma_bad_width(gguf::numbers_spec(m, KEY_SIGN_WIDTHS@)->0, block, 0);
    if let Some(Fault::BlockSize(n)) = declaration_fault(m) {
        assert forall|e: nat| n != #[trigger] vstd::arithmetic::power2::pow2(e) by {
            lemma_is_power(e);
        }
    }
    if let Some(Fault::BothWays(name)) = declaration_fault(m) {
        let (i, j) = choose|i: int, j: int|
            0 <= i < j < (weights + tables).len() && weights.len() <= j && (weights + tables)[i]
                == name && (weights + tables)[j] == name;
        assert(tables[j - weights.len()] == name);
    }
}

/// Explicit signs are taken exactly where there is one value, one or minus one, for each place of
/// each width, and no width is listed twice.
pub proof fn law_signs_fill_their_widths(m: Seq<(String, GgufValue)>)
    requires
        gguf::scalar_spec(m, KEY_VERSION@) is Some,
        declaration_fault(m) is None,
        gguf::string_spec(m, KEY_SIGN_MODE@) == Some("explicit"@),
        forall|i: int|
            0 <= i < gguf::numbers_spec(m, KEY_SIGN_WIDTHS@)->0.len() ==> #[trigger] gguf::numbers_spec(
                m,
                KEY_SIGN_WIDTHS@,
            )->0[i] <= usize::MAX,
    ensures
        ({
            let widths = gguf::numbers_spec(m, KEY_SIGN_WIDTHS@)->0;
            fold_spec(m) is Ok <==> {
                &&& gguf::numbers_spec(m, KEY_SIGN_VALUES@) matches Some(values)
                &&& values.len() == width_before(widths, widths.len() as int)
                &&& forall|i: int|
                    0 <= i < values.len() ==> #[trigger] values[i] == 1 || values[i] == -1
                &&& forall|i: int, j: int| 0 <= i < j < widths.len() ==> widths[i] != widths[j]
            }
        }),
{
    let widths = gguf::numbers_spec(m, KEY_SIGN_WIDTHS@)->0;
    let cut = widths.map_values(|w: int| w as usize);
    let n = cut.len() as int;
    reveal_strlit("explicit");
    reveal_strlit("identity");
    assert("explicit"@[0] != "identity"@[0]);
    assert forall|i: int| 0 <= i < widths.len() implies 0 <= #[trigger] widths[i]
        <= usize::MAX by {
        lemma_widths_fit(m, i);
    }
    lemma_total_before(widths, n);
    assert(cut.take(n) =~= cut);
    lemma_fold(m);
    assert forall|i: int| 0 <= i < n implies #[trigger] cut[i] == widths[i] by {
        assert(0 <= widths[i] <= usize::MAX);
    }
    if let Some(values) = gguf::numbers_spec(m, KEY_SIGN_VALUES@) {
        if cut.no_duplicates() {
            assert forall|i: int, j: int| 0 <= i < j < widths.len() implies widths[i]
                != widths[j] by {
                assert(cut[i] != cut[j]);
            }
        }
        if forall|i: int, j: int| 0 <= i < j < widths.len() ==> widths[i] != widths[j] {
            assert forall|i: int, j: int|
                0 <= i < cut.len() && 0 <= j < cut.len() && i != j implies cut[i] != cut[j] by {
                if i < j {
                    assert(widths[i] != widths[j]);
                } else {
                    assert(widths[j] != widths[i]);
                }
            }
        }
    }
}

proof fn lemma_shared(fold: Fold, names: Seq<Seq<char>>, width: usize, i: int, k: int)
    requires
        0 <= i <= k < names.len(),
        fold.shared_from(names, width, i) is Ok,
    ensures
        fold.input(names[k], width, None) is Ok,
        k > 0 ==> fold.input(names[k], width, None) == fold.input(names[0], width, None),
    decreases k - i,
{
    if i < k {
        lemma_shared(fold, names, width, i + 1, k);
    }
}

proof fn lemma_alike(fold: Fold, names: Seq<Seq<char>>, width: usize, turn: Option<Turn>, i: int)
    requires
        0 <= i <= names.len(),
        forall|k: int|
            0 <= k < names.len() ==> fold.input(#[trigger] names[k], width, None) == Ok::<
                Option<Turn>,
                Fault,
            >(turn),
    ensures
        fold.shared_from(names, width, i) is Ok,
    decreases names.len() - i,
{
    if i < names.len() {
        assert(fold.input(names[i], width, None) == Ok::<Option<Turn>, Fault>(turn));
        assert(fold.input(names[0], width, None) == Ok::<Option<Turn>, Fault>(turn));
        lemma_alike(fold, names, width, turn, i + 1);
    }
}

/// Readers of one activation share a transform exactly where each of them has that one; where
/// one is folded and another not, or otherwise, there is none to share.
pub proof fn law_readers_share_only_what_each_has(
    fold: Fold,
    names: Seq<Seq<char>>,
    width: usize,
    turn: Option<Turn>,
)
    requires
        names.len() > 0,
    ensures
        fold.shared(names, width) == Ok::<Option<Turn>, Fault>(turn) <==> forall|k: int|
            0 <= k < names.len() ==> fold.input(#[trigger] names[k], width, None) == Ok::<
                Option<Turn>,
                Fault,
            >(turn),
        fold.shared(Seq::empty(), width) == Ok::<Option<Turn>, Fault>(None),
{
    if fold.shared(names, width) == Ok::<Option<Turn>, Fault>(turn) {
        assert forall|k: int| 0 <= k < names.len() implies fold.input(
            #[trigger] names[k],
            width,
            None,
        ) == Ok::<Option<Turn>, Fault>(turn) by {
            lemma_shared(fold, names, width, 0, k);
        }
    }
    if forall|k: int|
        0 <= k < names.len() ==> fold.input(#[trigger] names[k], width, None) == Ok::<
            Option<Turn>,
            Fault,
        >(turn) {
        lemma_alike(fold, names, width, turn, 0);
        assert(fold.input(names[0], width, None) == Ok::<Option<Turn>, Fault>(turn));
    }
}

/// Asking for readers that share a transform claims every one of them, and where they share none
/// because none is folded, none of them; nothing is ever given up.
pub proof fn law_sharing_claims_every_reader(
    fold: Fold,
    names: Seq<Seq<char>>,
    width: usize,
    claimed: Set<Seq<char>>,
    i: int,
    name: Seq<char>,
)
    requires
        0 <= i <= names.len(),
        fold.shared_from(names, width, i) is Ok,
    ensures
        fold.shared_claims(names, width, i, claimed).contains(name) <==> claimed.contains(name) || (
        exists|k: int|
            i <= k < names.len() && names[k] == name && fold.input(name, width, None) matches Ok(
                Some(_),
            )),
    decreases names.len() - i,
{
    if i < names.len() {
        let next = if fold.input(names[i], width, None)->Ok_0 is Some {
            claimed.insert(names[i])
        } else {
            claimed
        };
        law_sharing_claims_every_reader(fold, names, width, next, i + 1, name);
        if name == names[i] {
            assert(names[i] == name);
        }
    }
}

/// What is said of names nobody claimed: how many they are, and the first few of them in order,
/// each one a folded name that was not claimed.
pub proof fn law_the_first_unclaimed_names_are_told(
    fold: Fold,
    claimed: Set<Seq<char>>,
    n: int,
    shown: Seq<Seq<char>>,
    i: int,
)
    requires
        fold.coverage(claimed) == Err::<(), Fault>(Fault::NotCovered(n, shown)),
        0 <= i < shown.len(),
    ensures
        n == fold.names().filter(|name: Seq<char>| !claimed.contains(name)).len(),
        shown.len() == if n < 4 { n } else { 4 },
        fold.names().contains(shown[i]),
        !claimed.contains(shown[i]),
        forall|j: int| i < j < shown.len() ==> !text::precedes(shown[j], shown[i]),
{
    broadcast use vstd::seq_lib::group_to_multiset_ensures;

    let missing = unclaimed(fold.names(), claimed);
    lemma_unclaimed_filter(fold.names(), claimed);
    text::lemma_sorted(missing);
    let sorted = text::sorted_spec(missing);
    assert(shown[i] == sorted[i]);
    assert(sorted.contains(sorted[i]));
    assert(sorted.to_multiset().count(sorted[i]) > 0);
    assert(missing.contains(sorted[i]));
    let at = choose|at: int| 0 <= at < missing.len() && missing[at] == sorted[i];
    assert forall|j: int| i < j < shown.len() implies !text::precedes(shown[j], shown[i]) by {
        assert(shown[j] == sorted[j]);
    }
}

proof fn lemma_unclaimed_filter(names: Seq<Seq<char>>, claimed: Set<Seq<char>>)
    ensures
        unclaimed(names, claimed) == names.filter(|name: Seq<char>| !claimed.contains(name)),
        forall|i: int|
            0 <= i < unclaimed(names, claimed).len() ==> names.contains(
                #[trigger] unclaimed(names, claimed)[i],
            ) && !claimed.contains(unclaimed(names, claimed)[i]),
    decreases names.len(),
{
    reveal(Seq::filter);
    if names.len() > 0 {
        let rest = names.drop_last();
        lemma_unclaimed_filter(rest, claimed);
        let before = unclaimed(rest, claimed);
        let now = unclaimed(names, claimed);
        assert forall|i: int| 0 <= i < now.len() implies names.contains(#[trigger] now[i])
            && !claimed.contains(now[i]) by {
            if i < before.len() {
                assert(rest.contains(before[i]));
                let k = choose|k: int| 0 <= k < rest.len() && rest[k] == before[i];
                assert(names[k] == now[i]);
            } else {
                assert(names[names.len() - 1] == now[i]);
            }
        }
    }
}

/// Head `k + nk * r` of a tiled row comes to stand at `r + rep * k`: the value heads of one key
/// head together.
pub proof fn law_heads_of_one_key_stand_together<T>(
    row: Seq<T>,
    hd: int,
    nk: int,
    rep: int,
    h: int,
    k: int,
    r: int,
)
    requires
        row.len() == hd * nk * rep,
        0 <= h < hd,
        0 <= k < nk,
        0 <= r < rep,
    ensures
        regrouped(row, hd, nk, rep).len() == row.len(),
        regrouped(row, hd, nk, rep)[h + hd * (r + rep * k)] == row[h + hd * (k + nk * r)],
{
    lemma_head_index(h, k, r, hd, nk, rep);
}

/// A regrouped projection turns as it would if it were not, and is regrouped too: by the width of a
/// head, the key heads and the value heads to each. It is refused without heads, or with heads
/// that do not divide one another and the width.
pub proof fn law_regrouping_adds_to_the_turn(
    fold: Fold,
    name: Seq<char>,
    width: usize,
    plain: Turn,
    n_v: usize,
    n_k: usize,
)
    requires
        fold.gdn_v_grouped,
        text::occurs(name, ".ssm_out."@),
        (Fold { gdn_v_grouped: false, ..fold }).input(name, width, None) == Ok::<Option<Turn>, Fault>(
            Some(plain),
        ),
    ensures
        fold.input(name, width, None) == Err::<Option<Turn>, Fault>(Fault::NotDeltaNet(name)),
        n_k > 0 && n_v > 0 && n_v as int % n_k as int == 0 && width as int % n_v as int == 0
            ==> fold.input(name, width, Some((n_v, n_k))) == Ok::<Option<Turn>, Fault>(
            Some(
                Turn {
                    perm: Some(((width / n_v) as usize, n_k, (n_v / n_k) as usize)),
                    block_size: plain.block_size,
                    signs: plain.signs,
                },
            ),
        ),
        n_k == 0 || n_v == 0 || n_v as int % n_k as int != 0 || width as int % n_v as int != 0
            ==> fold.input(name, width, Some((n_v, n_k))) == Err::<Option<Turn>, Fault>(
            Fault::HeadGeometry(name, n_v as int, n_k as int, width as int),
        ),
{
}

/// A declaration is kept as it is written: each part is what stands under its key.
pub proof fn law_a_declaration_is_kept_as_written(m: Seq<(String, GgufValue)>, i: int)
    requires
        gguf::scalar_spec(m, KEY_VERSION@) is Some,
        declaration_fault(m) is None,
    ensures
        ({
            let d = declared_spec(m);
            let grouped = gguf::scalar_spec(m, KEY_GDN_V_GROUPED@);
            let tables = gguf::strings_spec(m, KEY_INVERSE_NAMES@);
            let widths = gguf::numbers_spec(m, KEY_SIGN_WIDTHS@)->0;
            &&& gguf::scalar_spec(m, KEY_BLOCK_SIZE@) is Some
            &&& d.block_size == gguf::scalar_spec(m, KEY_BLOCK_SIZE@)->0 as usize
            &&& gguf::strings_spec(m, KEY_WEIGHT_NAMES@) == Some(d.weight_names)
            &&& tables is Some ==> d.inverse_names == tables->0
            &&& tables is None ==> d.inverse_names.len() == 0
            &&& d.gdn_v_grouped <==> grouped is Some && grouped->0 > 0
            &&& d.explicit_signs <==> gguf::string_spec(m, KEY_SIGN_MODE@) == Some("explicit"@)
            &&& !d.explicit_signs ==> d.sign_widths.len() == 0
            &&& d.explicit_signs ==> d.sign_widths.len() == widths.len()
            &&& d.explicit_signs && 0 <= i < widths.len() ==> d.sign_widths[i] == widths[i] as usize
        }),
        fold_spec(m) matches Ok(fold) ==> {
            let d = declared_spec(m);
            &&& fold.block_size == d.block_size
            &&& fold.weights == d.weight_names
            &&& fold.inverses == d.inverse_names
            &&& fold.gdn_v_grouped == d.gdn_v_grouped
        },
{
    reveal_strlit("explicit");
    reveal_strlit("identity");
    assert("explicit"@[0] != "identity"@[0]);
}

/// The numbers of a message stand in the order its words call for them.
pub proof fn law_a_message_tells_its_numbers_in_turn(t: Seq<char>, a: nat, b: nat, c: nat)
    ensures
        text::ends(
            Fault::OffGrid(t, a as int, b as int).message(),
            " block size "@ + text::decimal_spec(a) + " does not divide input width "@
                + text::decimal_spec(b),
        ),
        text::ends(
            Fault::NoSigns(t, a as int).message(),
            " for width "@ + text::decimal_spec(a),
        ),
        text::ends(
            Fault::HeadGeometry(t, a as int, b as int, c as int).message(),
            "(n_v "@ + text::decimal_spec(a) + ", n_k "@ + text::decimal_spec(b) + ", width "@
                + text::decimal_spec(c) + ")"@,
        ),
        text::begins(
            Fault::SignCount(a as int, b as int).message(),
            KEY_SIGN_VALUES@ + " length "@ + text::decimal_spec(a) + " "@,
        ),
        text::ends(
            Fault::SignCount(a as int, b as int).message(),
            KEY_SIGN_WIDTHS@ + " ("@ + text::decimal_spec(b) + ")"@,
        ),
        text::begins(Fault::OffGrid(t, a as int, b as int).message(), t + ": "@),
        text::begins(Fault::NoSigns(t, a as int).message(), t + ": "@),
        text::begins(Fault::NotDeltaNet(t).message(), t + ": "@),
        text::begins(Fault::HeadGeometry(t, a as int, b as int, c as int).message(), t + ": "@),
        text::ends(Fault::Version(a as int).message(), " version "@ + text::decimal_spec(a)),
        text::begins(
            Fault::BlockSize(a as int).message(),
            "block size "@ + text::decimal_spec(a) + " "@,
        ),
{
    reveal_strlit(": fold block size ");
    reveal_strlit(" block size ");
    reveal_strlit("block size ");
    reveal_strlit(" does not divide input width ");
    reveal_strlit(": no fold sign vector for width ");
    reveal_strlit(" for width ");
    reveal_strlit(": gdn_v_grouped fold on a weight that is not a delta-net output");
    reveal_strlit(": bad delta-net head geometry for a gdn_v_grouped fold (n_v ");
    reveal_strlit("(n_v ");
    reveal_strlit(": ");
    reveal_strlit(" ");
    reveal_strlit(" length ");
    reveal_strlit(" does not match ");
    reveal_strlit(" is not a power of two");
    reveal_strlit("unsupported version ");
    reveal_strlit(" version ");
    let (da, db, dc) = (text::decimal_spec(a), text::decimal_spec(b), text::decimal_spec(c));
    let grid = Fault::OffGrid(t, a as int, b as int).message();
    let signs = Fault::NoSigns(t, a as int).message();
    let heads = Fault::HeadGeometry(t, a as int, b as int, c as int).message();
    let count = Fault::SignCount(a as int, b as int).message();
    lemma_ends(grid, " block size "@ + da + " does not divide input width "@ + db);
    lemma_ends(signs, " for width "@ + da);
    lemma_ends(heads, "(n_v "@ + da + ", n_k "@ + db + ", width "@ + dc + ")"@);
    lemma_begins(count, KEY_SIGN_VALUES@ + " length "@ + da + " "@);
    lemma_ends(count, KEY_SIGN_WIDTHS@ + " ("@ + db + ")"@);
    lemma_begins(grid, t + ": "@);
    lemma_begins(signs, t + ": "@);
    lemma_begins(Fault::NotDeltaNet(t).message(), t + ": "@);
    lemma_begins(heads, t + ": "@);
    lemma_ends(Fault::Version(a as int).message(), " version "@ + da);
    lemma_begins(Fault::BlockSize(a as int).message(), "block size "@ + da + " "@);
}

proof fn lemma_ends(whole: Seq<char>, end: Seq<char>)
    requires
        end.len() <= whole.len(),
        forall|i: int|
            0 <= i < end.len() ==> #[trigger] end[i] == whole[whole.len() - end.len() + i],
    ensures
        text::ends(whole, end),
{
    assert(whole.subrange(whole.len() - end.len(), whole.len() as int) =~= end);
}

proof fn lemma_begins(whole: Seq<char>, start: Seq<char>)
    requires
        start.len() <= whole.len(),
        forall|i: int| 0 <= i < start.len() ==> #[trigger] start[i] == whole[i],
    ensures
        text::begins(whole, start),
{
    assert(whole.subrange(0, start.len() as int) =~= start);
}

} // verus!
