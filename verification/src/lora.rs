//! A low-rank adapter for the picture transformer: which linears a file holds one for.
//!
//! The file is `safetensors` in the layout every trainer writes: `<linear>.lora_down.weight`,
//! `<linear>.lora_up.weight` and a scalar `<linear>.alpha`, the linear with or without a
//! `transformer.` prefix; the spelling `lora_A` and `lora_B` is read too. The scale of an adapter
//! is its alpha over its rank, or one where no alpha is stored; that division, and applying the
//! adapter, is floating-point work and lives outside this library.

use vstd::prelude::*;
use vstd::string::*;
use crate::quantize;
use crate::quantize::row_bytes;
use crate::safetensors;
use crate::safetensors::SafeTensors;
use crate::text;

verus! {

/// The endings of an adapter's two halves, with what each is.
pub open spec fn split_key_spec(name: Seq<char>) -> Option<(Seq<char>, Seq<char>)> {
    if text::ends(name, ".lora_down.weight"@) {
        Some((name.take(name.len() - 17), "down"@))
    } else if text::ends(name, ".lora_A.weight"@) {
        Some((name.take(name.len() - 14), "down"@))
    } else if text::ends(name, ".lora_up.weight"@) {
        Some((name.take(name.len() - 15), "up"@))
    } else if text::ends(name, ".lora_B.weight"@) {
        Some((name.take(name.len() - 14), "up"@))
    } else {
        None
    }
}

fn before_suffix<'a>(name: &'a str, n: usize) -> (base: &'a str)
    requires
        n <= name@.len(),
    ensures
        base@ == name@.take(name@.len() - n),
{
    let len: usize = name.unicode_len();
    let base = name.substring_char(0, len - n);
    assert(base@ =~= name@.take(name@.len() - n));
    base
}

/// `transformer_blocks.7.attn.to_q.lora_down.weight` is the `down` half of
/// `transformer_blocks.7.attn.to_q`; `lora_A` reads as `down`, `lora_up` and `lora_B` as `up`.
pub fn split_key<'a>(name: &'a str) -> (split: Option<(&'a str, &'static str)>)
    ensures
        match split {
            Some((base, kind)) => split_key_spec(name@) == Some((base@, kind@)),
            None => split_key_spec(name@) is None,
        },
{
    proof {
        reveal_strlit(".lora_down.weight");
        reveal_strlit(".lora_A.weight");
        reveal_strlit(".lora_up.weight");
        reveal_strlit(".lora_B.weight");
    }
    if text::ends_with(name, ".lora_down.weight") {
        Some((before_suffix(name, 17), "down"))
    } else if text::ends_with(name, ".lora_A.weight") {
        Some((before_suffix(name, 14), "down"))
    } else if text::ends_with(name, ".lora_up.weight") {
        Some((before_suffix(name, 15), "up"))
    } else if text::ends_with(name, ".lora_B.weight") {
        Some((before_suffix(name, 14), "up"))
    } else {
        None
    }
}

/// One linear's adapter, its weights as single-precision bit patterns.
#[derive(Debug, Clone, PartialEq, Eq)]
pub struct LoraPair {
    /// `rank` rows of `in_dim`.
    pub down: Vec<u32>,
    /// `out_dim` rows of `rank`.
    pub up: Vec<u32>,
    pub rank: usize,
    pub in_dim: usize,
    pub out_dim: usize,
    /// The stored alpha, where there is one.
    pub alpha: Option<u32>,
}

/// A [`LoraPair`] by the values it holds.
#[verifier::ext_equal]
pub struct Pair {
    pub down: Seq<u32>,
    pub up: Seq<u32>,
    pub rank: usize,
    pub in_dim: usize,
    pub out_dim: usize,
    pub alpha: Option<u32>,
}

impl View for LoraPair {
    type V = Pair;

    open spec fn view(&self) -> Pair {
        Pair {
            down: self.down@,
            up: self.up@,
            rank: self.rank,
            in_dim: self.in_dim,
            out_dim: self.out_dim,
            alpha: self.alpha,
        }
    }
}

/// Why a file's adapters cannot be taken.
#[derive(Debug, Clone, PartialEq, Eq)]
pub enum LoraError {
    /// A down projection without its up projection.
    NoUp(String),
    /// The linear, and the two shapes that disagree.
    Shapes(String, Vec<usize>, Vec<usize>),
    /// The file holds no pairs at all.
    Empty,
}

/// A [`LoraError`] by the values it holds.
#[verifier::ext_equal]
pub enum LoraFlaw {
    NoUp(Seq<char>),
    Shapes(Seq<char>, Seq<usize>, Seq<usize>),
    Empty,
}

impl View for LoraError {
    type V = LoraFlaw;

    open spec fn view(&self) -> LoraFlaw {
        match self {
            LoraError::NoUp(name) => LoraFlaw::NoUp(name@),
            LoraError::Shapes(base, down, up) => LoraFlaw::Shapes(base@, down@, up@),
            LoraError::Empty => LoraFlaw::Empty,
        }
    }
}

/// The first `n` dimensions of a shape, separated by commas.
pub open spec fn listed_dims(shape: Seq<usize>, n: int) -> Seq<char>
    decreases n,
{
    if n <= 0 {
        Seq::empty()
    } else if n == 1 {
        text::decimal_spec(shape[0] as nat)
    } else {
        listed_dims(shape, n - 1) + ", "@ + text::decimal_spec(shape[n - 1] as nat)
    }
}

/// A shape in brackets.
pub open spec fn shape_text(shape: Seq<usize>) -> Seq<char> {
    "["@ + listed_dims(shape, shape.len() as int) + "]"@
}

fn put_shape(out: &mut String, shape: &Vec<usize>)
    ensures
        final(out)@ == old(out)@ + shape_text(shape@),
{
    let ghost before = out@;
    out.append("[");
    let ghost opened = out@;
    let mut i: usize = 0;
    assert(out@ =~= opened + listed_dims(shape@, 0));
    while i < shape.len()
        invariant
            i <= shape@.len(),
            out@ == opened + listed_dims(shape@, i as int),
        decreases shape.len() - i,
    {
        if i > 0 {
            out.append(", ");
        }
        let digits = text::decimal(shape[i] as u64);
        out.append(digits.as_str());
        i = i + 1;
        assert(out@ =~= opened + listed_dims(shape@, i as int));
    }
    out.append("]");
    assert(out@ =~= before + shape_text(shape@));
}

impl LoraFlaw {
    /// What the user is told, of the file at a path.
    pub open spec fn message(self, path: Seq<char>) -> Seq<char> {
        match self {
            LoraFlaw::NoUp(name) => "LoRA "@ + name + " has no matching up projection"@,
            LoraFlaw::Shapes(base, down, up) => "LoRA "@ + base + ": down is "@ + shape_text(down)
                + ", up is "@ + shape_text(up),
            LoraFlaw::Empty => path + " holds no LoRA pairs"@,
        }
    }
}

impl LoraError {
    /// What the user is told, of the file at `path`.
    pub fn message(&self, path: &str) -> (s: String)
        ensures
            s@ == self@.message(path@),
    {
        let mut out = String::new();
        match self {
            LoraError::NoUp(name) => {
                out.append("LoRA ");
                out.append(name.as_str());
                out.append(" has no matching up projection");
            },
            LoraError::Shapes(base, down, up) => {
                out.append("LoRA ");
                out.append(base.as_str());
                out.append(": down is ");
                put_shape(&mut out, down);
                out.append(", up is ");
                put_shape(&mut out, up);
            },
            LoraError::Empty => {
                out.append(path);
                out.append(" holds no LoRA pairs");
            },
        }
        assert(out@ =~= self@.message(path@));
        out
    }
}

/// A tensor's values as single-precision bit patterns.
pub open spec fn values_of(file: SafeTensors, info: safetensors::Info) -> Seq<u32> {
    Seq::new(safetensors::product(info.shape), |i: int| file.element(info, i) as u32)
}

/// The entry of a name, where the file has it.
pub open spec fn info_of(file: SafeTensors, name: Seq<char>) -> Option<safetensors::Info> {
    match safetensors::tensor_index(file.tensors(), name, 0) {
        Some(i) => Some(file.tensors()[i].1),
        None => None,
    }
}

/// The up projection of a linear: the one spelling, else the other.
pub open spec fn up_of(file: SafeTensors, base: Seq<char>) -> Option<safetensors::Info> {
    match info_of(file, base + ".lora_up.weight"@) {
        Some(info) => Some(info),
        None => info_of(file, base + ".lora_B.weight"@),
    }
}

/// The first value of a linear's alpha, where one is stored.
pub open spec fn alpha_of(file: SafeTensors, base: Seq<char>) -> Option<u32> {
    match info_of(file, base + ".alpha"@) {
        Some(info) => if values_of(file, info).len() > 0 {
            Some(values_of(file, info)[0])
        } else {
            None
        },
        None => None,
    }
}

/// The adapter of one down projection, or what is wrong with it.
pub open spec fn pair_spec(file: SafeTensors, name: Seq<char>, base: Seq<char>) -> Result<
    Pair,
    LoraFlaw,
> {
    let down = info_of(file, name)->0;
    match up_of(file, base) {
        None => Err(LoraFlaw::NoUp(name)),
        Some(up) => if down.shape.len() != 2 || up.shape.len() != 2 || down.shape[0]
            != up.shape[1] {
            Err(LoraFlaw::Shapes(base, down.shape, up.shape))
        } else {
            Ok(
                Pair {
                    down: values_of(file, down),
                    up: values_of(file, up),
                    rank: down.shape[0],
                    in_dim: down.shape[1],
                    out_dim: up.shape[0],
                    alpha: alpha_of(file, base),
                },
            )
        },
    }
}

/// A linear's name without its `transformer.` prefix.
pub open spec fn linear_of(base: Seq<char>) -> Seq<char> {
    if text::begins(base, "transformer."@) { base.skip(12) } else { base }
}

/// The first pair of a linear, at or after `from`.
pub open spec fn pair_index(pairs: Seq<(Seq<char>, Pair)>, linear: Seq<char>, from: int) -> Option<
    int,
>
    decreases pairs.len() - from,
{
    if from < 0 || from >= pairs.len() {
        None
    } else if pairs[from].0 == linear {
        Some(from)
    } else {
        pair_index(pairs, linear, from + 1)
    }
}

/// A pair put under a linear: in place of the one there, or at the end.
pub open spec fn stored(
    pairs: Seq<(Seq<char>, Pair)>,
    linear: Seq<char>,
    pair: Pair,
) -> Seq<(Seq<char>, Pair)> {
    match pair_index(pairs, linear, 0) {
        Some(i) => pairs.update(i, (linear, pair)),
        None => pairs.push((linear, pair)),
    }
}

/// The pairs of the first `n` names, or the first thing wrong.
pub open spec fn pairs_spec(file: SafeTensors, names: Seq<Seq<char>>, n: int) -> Result<
    Seq<(Seq<char>, Pair)>,
    LoraFlaw,
>
    decreases n,
{
    if n <= 0 {
        Ok(Seq::empty())
    } else {
        match pairs_spec(file, names, n - 1) {
            Err(flaw) => Err(flaw),
            Ok(done) => match split_key_spec(names[n - 1]) {
                Some((base, kind)) => if kind == "down"@ {
                    match pair_spec(file, names[n - 1], base) {
                        Err(flaw) => Err(flaw),
                        Ok(pair) => Ok(stored(done, linear_of(base), pair)),
                    }
                } else {
                    Ok(done)
                },
                None => Ok(done),
            },
        }
    }
}

/// The names of a file's tensors, sorted.
pub open spec fn names_of(file: SafeTensors) -> Seq<Seq<char>> {
    text::sorted_spec(file.tensors().map_values(|t: (Seq<char>, safetensors::Info)| t.0))
}

/// The adapters of a file, or the first thing wrong with it.
pub open spec fn lora_spec(file: SafeTensors) -> Result<Seq<(Seq<char>, Pair)>, LoraFlaw> {
    match pairs_spec(file, names_of(file), names_of(file).len() as int) {
        Err(flaw) => Err(flaw),
        Ok(pairs) => if pairs.len() == 0 { Err(LoraFlaw::Empty) } else { Ok(pairs) },
    }
}

/// Every adapter in one file, by its linear's name.
#[derive(Debug)]
pub struct Lora {
    pairs: Vec<(String, LoraPair)>,
}

/// Adapters by the values they hold.
pub open spec fn pair_views(pairs: Seq<(String, LoraPair)>) -> Seq<(Seq<char>, Pair)> {
    pairs.map_values(|p: (String, LoraPair)| (p.0@, p.1@))
}

/// No linear twice.
pub open spec fn distinct_linears(pairs: Seq<(Seq<char>, Pair)>) -> bool {
    forall|i: int, j: int| 0 <= i < j < pairs.len() ==> (#[trigger] pairs[i]).0 != (
    #[trigger] pairs[j]).0
}

impl View for Lora {
    type V = Seq<(Seq<char>, Pair)>;

    closed spec fn view(&self) -> Seq<(Seq<char>, Pair)> {
        pair_views(self.pairs@)
    }
}

proof fn lemma_pair_index(pairs: Seq<(Seq<char>, Pair)>, linear: Seq<char>, from: int)
    requires
        0 <= from <= pairs.len(),
    ensures
        pair_index(pairs, linear, from) matches Some(i) ==> from <= i < pairs.len() && pairs[i].0
            == linear,
        pair_index(pairs, linear, from) is None ==> forall|i: int|
            from <= i < pairs.len() ==> (#[trigger] pairs[i]).0 != linear,
    decreases pairs.len() - from,
{
    if from < pairs.len() && pairs[from].0 != linear {
        lemma_pair_index(pairs, linear, from + 1);
    }
}

proof fn lemma_stored_distinct(pairs: Seq<(Seq<char>, Pair)>, linear: Seq<char>, pair: Pair)
    requires
        distinct_linears(pairs),
    ensures
        distinct_linears(stored(pairs, linear, pair)),
{
    lemma_pair_index(pairs, linear, 0);
    let now = stored(pairs, linear, pair);
    assert forall|i: int, j: int| 0 <= i < j < now.len() implies (#[trigger] now[i]).0 != (
    #[trigger] now[j]).0 by {
        if i < pairs.len() && j < pairs.len() {
            assert(pairs[i].0 != pairs[j].0);
        }
    }
}

proof fn lemma_tensor_index(
    tensors: Seq<(Seq<char>, safetensors::Info)>,
    name: Seq<char>,
    from: int,
    k: int,
)
    requires
        0 <= from <= k < tensors.len(),
        tensors[k].0 == name,
    ensures
        safetensors::tensor_index(tensors, name, from) is Some,
    decreases k - from,
{
    if from < k && tensors[from].0 != name {
        lemma_tensor_index(tensors, name, from + 1, k);
    }
}

/// Every listed name is a tensor of the file.
proof fn lemma_listed(file: SafeTensors, i: int)
    requires
        0 <= i < names_of(file).len(),
    ensures
        safetensors::tensor_index(file.tensors(), names_of(file)[i], 0) is Some,
{
    broadcast use vstd::seq_lib::group_to_multiset_ensures;

    let all = file.tensors().map_values(|t: (Seq<char>, safetensors::Info)| t.0);
    let sorted = names_of(file);
    text::lemma_sorted(all);
    assert(sorted.to_multiset().count(sorted[i]) > 0);
    assert(all.contains(sorted[i]));
    let k = choose|k: int| 0 <= k < all.len() && all[k] == sorted[i];
    assert(file.tensors()[k].0 == sorted[i]);
    lemma_tensor_index(file.tensors(), sorted[i], 0, k);
}

proof fn lemma_pairs_flaw_stays(file: SafeTensors, names: Seq<Seq<char>>, i: int, n: int)
    requires
        0 <= i <= n,
        pairs_spec(file, names, i) is Err,
    ensures
        pairs_spec(file, names, n) == pairs_spec(file, names, i),
    decreases n - i,
{
    if i < n {
        lemma_pairs_flaw_stays(file, names, i, n - 1);
    }
}

fn copy_shape(shape: &Vec<usize>) -> (copy: Vec<usize>)
    ensures
        copy@ == shape@,
{
    let mut copy: Vec<usize> = Vec::new();
    let mut i: usize = 0;
    while i < shape.len()
        invariant
            i <= shape@.len(),
            copy@ == shape@.take(i as int),
        decreases shape.len() - i,
    {
        copy.push(shape[i]);
        i = i + 1;
        assert(copy@ =~= shape@.take(i as int));
    }
    assert(copy@ =~= shape@);
    copy
}

fn joined(base: &str, suffix: &str) -> (name: String)
    ensures
        name@ == base@ + suffix@,
{
    let mut name = String::new();
    name.append(base);
    name.append(suffix);
    assert(name@ =~= base@ + suffix@);
    name
}

/// The adapter of one down projection.
fn read_pair(file: &SafeTensors, name: &str, base: &str) -> (read: Result<LoraPair, LoraError>)
    requires
        file.sound(),
        info_of(*file, name@) is Some,
    ensures
        match (read, pair_spec(*file, name@, base@)) {
            (Ok(p), Ok(model)) => p@ == model,
            (Err(e), Err(flaw)) => e@ == flaw,
            _ => false,
        },
{
    let first = joined(base, ".lora_up.weight");
    let second = joined(base, ".lora_B.weight");
    let up_name = if file.has(first.as_str()) {
        first
    } else if file.has(second.as_str()) {
        second
    } else {
        return Err(LoraError::NoUp(name.to_owned()));
    };
    let (down, down_shape) = match file.tensor(name) {
        Ok(found) => found,
        Err(_) => {
            return Err(LoraError::Empty);
        },
    };
    let (up, up_shape) = match file.tensor(up_name.as_str()) {
        Ok(found) => found,
        Err(_) => {
            return Err(LoraError::Empty);
        },
    };
    if down_shape.len() != 2 || up_shape.len() != 2 || down_shape[0] != up_shape[1] {
        return Err(
            LoraError::Shapes(base.to_owned(), copy_shape(down_shape), copy_shape(up_shape)),
        );
    }
    let alpha_name = joined(base, ".alpha");
    let alpha: Option<u32> = match file.tensor(alpha_name.as_str()) {
        Ok((values, _)) => {
            assert(values@ =~= values_of(*file, info_of(*file, alpha_name@)->0));
            if values.len() > 0 {
                Some(values[0])
            } else {
                None
            }
        },
        Err(_) => None,
    };
    assert(down@ =~= values_of(*file, info_of(*file, name@)->0));
    assert(up@ =~= values_of(*file, info_of(*file, up_name@)->0));
    Ok(
        LoraPair {
            down,
            up,
            rank: down_shape[0],
            in_dim: down_shape[1],
            out_dim: up_shape[0],
            alpha,
        },
    )
}

fn find_linear(pairs: &Vec<(String, LoraPair)>, linear: &str) -> (at: Option<usize>)
    ensures
        text::place(at) == pair_index(pair_views(pairs@), linear@, 0),
        at matches Some(i) ==> i < pairs@.len(),
{
    let mut i: usize = 0;
    while i < pairs.len()
        invariant
            i <= pairs@.len(),
            pair_index(pair_views(pairs@), linear@, 0) == pair_index(
                pair_views(pairs@),
                linear@,
                i as int,
            ),
        decreases pairs.len() - i,
    {
        assert(pair_views(pairs@)[i as int] == (pairs@[i as int].0@, pairs@[i as int].1@));
        if text::same(pairs[i].0.as_str(), linear) {
            return Some(i);
        }
        i = i + 1;
    }
    None
}

fn linear_name(base: &str) -> (linear: String)
    ensures
        linear@ == linear_of(base@),
{
    if text::starts_with(base, "transformer.") {
        proof {
            reveal_strlit("transformer.");
        }
        let chars = text::chars_of(base);
        let len: usize = chars.len();
        let linear = text::string_of(&chars, 12, len);
        assert(linear@ =~= base@.skip(12));
        linear
    } else {
        base.to_owned()
    }
}

impl Lora {
    /// Reads every `lora_down` and `lora_up`, or `lora_A` and `lora_B`, pair in the file. A pair
    /// whose shapes disagree, or a `down` without its `up`, is an error: an adapter half-applied
    /// is a picture nobody asked for.
    pub fn open(file: &SafeTensors) -> (lora: Result<Lora, LoraError>)
        requires
            file.sound(),
        ensures
            match (lora, lora_spec(*file)) {
                (Ok(l), Ok(pairs)) => l@ == pairs && distinct_linears(pairs),
                (Err(e), Err(flaw)) => e@ == flaw,
                _ => false,
            },
    {
        let names = file.names();
        let ghost listed = names_of(*file);
        let mut pairs: Vec<(String, LoraPair)> = Vec::new();
        let mut i: usize = 0;
        assert(pair_views(pairs@) =~= Seq::<(Seq<char>, Pair)>::empty());
        while i < names.len()
            invariant
                i <= names@.len(),
                file.sound(),
                listed == names_of(*file),
                text::views(names@) == listed,
                pairs_spec(*file, listed, i as int) == Ok::<Seq<(Seq<char>, Pair)>, LoraFlaw>(
                    pair_views(pairs@),
                ),
                distinct_linears(pair_views(pairs@)),
            decreases names.len() - i,
        {
            let name = names[i].as_str();
            assert(listed[i as int] == name@);
            if let Some((base, kind)) = split_key(name) {
                if text::same(kind, "down") {
                    proof {
                        lemma_listed(*file, i as int);
                    }
                    match read_pair(file, name, base) {
                        Err(e) => {
                            proof {
                                lemma_pairs_flaw_stays(*file, listed, i + 1, listed.len() as int);
                            }
                            return Err(e);
                        },
                        Ok(pair) => {
                            let linear = linear_name(base);
                            let ghost before = pairs@;
                            let ghost (l, p) = (linear@, pair@);
                            proof {
                                lemma_stored_distinct(pair_views(before), l, p);
                            }
                            match find_linear(&pairs, linear.as_str()) {
                                Some(at) => {
                                    pairs.set(at, (linear, pair));
                                    assert(pair_views(pairs@) =~= pair_views(before).update(
                                        at as int,
                                        (l, p),
                                    ));
                                },
                                None => {
                                    pairs.push((linear, pair));
                                    assert(pair_views(pairs@) =~= pair_views(before).push((l, p)));
                                },
                            }
                        },
                    }
                }
            }
            i = i + 1;
        }
        if pairs.len() == 0 {
            return Err(LoraError::Empty);
        }
        Ok(Lora { pairs })
    }

    /// Takes the adapter for `linear` out, if the file has one.
    pub fn take(&mut self, linear: &str) -> (pair: Option<LoraPair>)
        ensures
            match pair_index(old(self)@, linear@, 0) {
                Some(i) => pair matches Some(p) && p@ == old(self)@[i].1 && final(self)@ == old(
                    self,
                )@.remove(i),
                None => pair is None && final(self)@ == old(self)@,
            },
    {
        let ghost before = self.pairs@;
        match find_linear(&self.pairs, linear) {
            Some(i) => {
                let (_, pair) = self.pairs.remove(i);
                assert(pair_views(self.pairs@) =~= pair_views(before).remove(i as int));
                Some(pair)
            },
            None => None,
        }
    }

    /// The linears still unclaimed, sorted: the ones this transformer does not have, worth a
    /// warning.
    pub fn remaining(&self) -> (names: Vec<String>)
        ensures
            text::views(names@) == text::sorted_spec(
                self@.map_values(|p: (Seq<char>, Pair)| p.0),
            ),
    {
        let ghost all = self@.map_values(|p: (Seq<char>, Pair)| p.0);
        let mut names: Vec<String> = Vec::new();
        let mut i: usize = 0;
        while i < self.pairs.len()
            invariant
                i <= self.pairs@.len(),
                all == self@.map_values(|p: (Seq<char>, Pair)| p.0),
                text::views(names@) == all.take(i as int),
            decreases self.pairs.len() - i,
        {
            let ghost before = names@;
            names.push(self.pairs[i].0.clone());
            i = i + 1;
            assert(text::views(names@) =~= text::views(before).push(self.pairs@[i - 1].0@));
            assert(text::views(names@) =~= all.take(i as int));
        }
        assert(text::views(names@) =~= all);
        text::sorted(names)
    }

    pub fn len(&self) -> (n: usize)
        ensures
            n == self@.len(),
    {
        self.pairs.len()
    }

    pub fn is_empty(&self) -> (yes: bool)
        ensures
            yes == (self@.len() == 0),
    {
        self.pairs.len() == 0
    }
}

/// A linear taken once is gone: asking again gives nothing.
pub proof fn law_a_pair_is_taken_once(pairs: Seq<(Seq<char>, Pair)>, linear: Seq<char>, i: int)
    requires
        distinct_linears(pairs),
        pair_index(pairs, linear, 0) == Some(i),
    ensures
        pair_index(pairs.remove(i), linear, 0) is None,
        distinct_linears(pairs.remove(i)),
{
    lemma_pair_index(pairs, linear, 0);
    let rest = pairs.remove(i);
    lemma_pair_index(rest, linear, 0);
    assert forall|k: int| 0 <= k < rest.len() implies (#[trigger] rest[k]).0 != linear by {
        let at = if k < i { k } else { k + 1 };
        assert(rest[k] == pairs[at]);
        if at < i {
            assert(pairs[at].0 != pairs[i].0);
        } else {
            assert(pairs[i].0 != pairs[at].0);
        }
    }
    assert forall|a: int, b: int| 0 <= a < b < rest.len() implies (#[trigger] rest[a]).0 != (
    #[trigger] rest[b]).0 by {
        let x = if a < i { a } else { a + 1 };
        let y = if b < i { b } else { b + 1 };
        assert(pairs[x].0 != pairs[y].0);
    }
}

/// Whether an adapter can be folded into weights of a type: rows of that type and width are
/// written, and are as long as the weights' own.
pub open spec fn mergeable(ggml_type: u32, in_dim: nat, stored_row: int) -> bool {
    let bytes = quantize::row_bytes_spec(ggml_type, in_dim);
    bytes == stored_row && bytes > 0
}

pub open spec fn no_encoder_message(name: Seq<char>, ggml_type: u32) -> Seq<char> {
    name + ": no encoder for tensor type "@ + text::decimal_spec(ggml_type as nat)
        + ", so the adapter cannot be merged"@
}

/// Whether the weights of `name` can take an adapter, and if not what to say.
pub fn check_merge(name: &str, ggml_type: u32, in_dim: usize, stored_row: usize) -> (checked: Result<
    (),
    String,
>)
    requires
        quantize::row_bytes_spec(ggml_type, in_dim as nat) <= usize::MAX,
    ensures
        checked is Ok <==> mergeable(ggml_type, in_dim as nat, stored_row as int),
        checked matches Err(why) ==> why@ == no_encoder_message(name@, ggml_type),
{
    let bytes: usize = row_bytes(ggml_type, in_dim);
    if bytes == stored_row && bytes > 0 {
        return Ok(());
    }
    let mut why = String::new();
    why.append(name);
    why.append(": no encoder for tensor type ");
    let digits = text::decimal(ggml_type as u64);
    why.append(digits.as_str());
    why.append(", so the adapter cannot be merged");
    assert(why@ =~= no_encoder_message(name@, ggml_type));
    Err(why)
}

/// Whether a file has a tensor of a name.
pub open spec fn has_tensor(file: SafeTensors, name: Seq<char>) -> bool {
    exists|k: int| 0 <= k < file.tensors().len() && (#[trigger] file.tensors()[k]).0 == name
}

/// Whether a name is that of the down half of a linear, in either spelling, with or without the
/// prefix that the transformer's own names lack.
pub open spec fn is_down_half(name: Seq<char>, linear: Seq<char>) -> bool {
    let without = name == linear + ".lora_down.weight"@ || name == linear + ".lora_A.weight"@;
    ||| name == "transformer."@ + linear + ".lora_down.weight"@
    ||| name == "transformer."@ + linear + ".lora_A.weight"@
    ||| without && !text::begins(linear, "transformer."@)
}

proof fn lemma_split_down(base: Seq<char>)
    ensures
        split_key_spec(base + ".lora_down.weight"@) == Some((base, "down"@)),
        split_key_spec(base + ".lora_A.weight"@) == Some((base, "down"@)),
{
    reveal_strlit(".lora_down.weight");
    reveal_strlit(".lora_A.weight");
    let one = base + ".lora_down.weight"@;
    let n = one.len() as int;
    assert(one.subrange(n - 17, n) =~= ".lora_down.weight"@);
    assert(one.take(n - 17) =~= base);
    let other = base + ".lora_A.weight"@;
    let m = other.len() as int;
    assert(other.subrange(m - 14, m) =~= ".lora_A.weight"@);
    assert(other.take(m - 14) =~= base);
    assert(other[m - 8] == 'A');
    if text::ends(other, ".lora_down.weight"@) {
        assert(other.subrange(m - 17, m)[9] == 'n');
    }
}

proof fn lemma_split_parts(name: Seq<char>)
    requires
        split_key_spec(name) matches Some((_, kind)) && kind == "down"@,
    ensures
        ({
            let (base, _) = split_key_spec(name)->0;
            name == base + ".lora_down.weight"@ || name == base + ".lora_A.weight"@
        }),
{
    reveal_strlit(".lora_down.weight");
    reveal_strlit(".lora_A.weight");
    reveal_strlit("down");
    reveal_strlit("up");
    assert("down"@.len() != "up"@.len());
    let n = name.len() as int;
    if text::ends(name, ".lora_down.weight"@) {
        assert(name =~= name.take(n - 17) + name.subrange(n - 17, n));
    } else if text::ends(name, ".lora_A.weight"@) {
        assert(name =~= name.take(n - 14) + name.subrange(n - 14, n));
    }
}

proof fn lemma_prefix(linear: Seq<char>)
    ensures
        linear_of("transformer."@ + linear) == linear,
{
    reveal_strlit("transformer.");
    let whole = "transformer."@ + linear;
    assert(whole.subrange(0, 12) =~= "transformer."@);
    assert(whole.skip(12) =~= linear);
}

/// A linear's own name and the one it is filed under differ by the prefix at most.
proof fn lemma_linear_of(base: Seq<char>)
    ensures
        base == linear_of(base) && !text::begins(base, "transformer."@) || base == "transformer."@
            + linear_of(base),
{
    reveal_strlit("transformer.");
    if text::begins(base, "transformer."@) {
        assert(base =~= base.subrange(0, 12) + base.skip(12));
    }
}

proof fn lemma_down_half(name: Seq<char>, linear: Seq<char>)
    requires
        is_down_half(name, linear),
    ensures
        split_key_spec(name) matches Some((base, kind)) && kind == "down"@ && linear_of(base)
            == linear,
{
    lemma_split_down(linear);
    lemma_split_down("transformer."@ + linear);
    lemma_prefix(linear);
}

/// A pair put under a linear leaves it held, and every other one that was.
proof fn lemma_stored_held(
    pairs: Seq<(Seq<char>, Pair)>,
    linear: Seq<char>,
    pair: Pair,
    other: Seq<char>,
)
    requires
        other == linear || exists|i: int| 0 <= i < pairs.len() && (#[trigger] pairs[i]).0 == other,
    ensures
        exists|i: int|
            0 <= i < stored(pairs, linear, pair).len() && (#[trigger] stored(
                pairs,
                linear,
                pair,
            )[i]).0 == other,
{
    lemma_pair_index(pairs, linear, 0);
    let now = stored(pairs, linear, pair);
    if other == linear {
        match pair_index(pairs, linear, 0) {
            Some(i) => {
                assert(now[i].0 == other);
            },
            None => {
                assert(now[pairs.len() as int].0 == other);
            },
        }
    } else {
        let i = choose|i: int| 0 <= i < pairs.len() && (#[trigger] pairs[i]).0 == other;
        assert(now[i].0 == other);
    }
}

proof fn lemma_held(
    file: SafeTensors,
    names: Seq<Seq<char>>,
    at: int,
    n: int,
    linear: Seq<char>,
)
    requires
        0 <= at < n <= names.len(),
        is_down_half(names[at], linear),
        pairs_spec(file, names, n) is Ok,
    ensures
        exists|i: int|
            0 <= i < pairs_spec(file, names, n)->Ok_0.len() && (#[trigger] pairs_spec(
                file,
                names,
                n,
            )->Ok_0[i]).0 == linear,
    decreases n,
{
    let done = pairs_spec(file, names, n - 1)->Ok_0;
    let now = pairs_spec(file, names, n)->Ok_0;
    if at < n - 1 {
        lemma_held(file, names, at, n - 1, linear);
    } else {
        lemma_down_half(names[at], linear);
    }
    match split_key_spec(names[n - 1]) {
        Some((base, kind)) => {
            if kind == "down"@ {
                let pair = pair_spec(file, names[n - 1], base)->Ok_0;
                lemma_stored_held(done, linear_of(base), pair, linear);
                assert(now == stored(done, linear_of(base), pair));
                let i = choose|i: int| 0 <= i < now.len() && (#[trigger] now[i]).0 == linear;
                assert(now[i].0 == linear);
            } else {
                assert(now == done);
            }
        },
        None => {
            assert(now == done);
        },
    }
    if now == done {
        let i = choose|i: int| 0 <= i < done.len() && (#[trigger] done[i]).0 == linear;
        assert(now[i].0 == linear);
    }
}

/// The place of a name among the sorted ones.
proof fn lemma_is_listed(file: SafeTensors, name: Seq<char>) -> (at: int)
    requires
        has_tensor(file, name),
    ensures
        0 <= at < names_of(file).len(),
        names_of(file)[at] == name,
{
    broadcast use vstd::seq_lib::group_to_multiset_ensures;

    let all = file.tensors().map_values(|t: (Seq<char>, safetensors::Info)| t.0);
    let sorted = names_of(file);
    text::lemma_sorted(all);
    let k = choose|k: int| 0 <= k < file.tensors().len() && (#[trigger] file.tensors()[k]).0 == name;
    assert(all[k] == name);
    assert(all.contains(name));
    assert(all.to_multiset().count(name) > 0);
    assert(sorted.contains(name));
    choose|at: int| 0 <= at < sorted.len() && sorted[at] == name
}

/// No adapter of a file is left behind: whatever linear the file has a down half for, in either
/// spelling and with or without the `transformer.` before it, taking that linear gives a pair.
pub proof fn law_every_down_half_is_held(file: SafeTensors, name: Seq<char>, linear: Seq<char>)
    requires
        lora_spec(file) is Ok,
        has_tensor(file, name),
        is_down_half(name, linear),
    ensures
        pair_index(lora_spec(file)->Ok_0, linear, 0) matches Some(i) && 0 <= i
            < lora_spec(file)->Ok_0.len() && lora_spec(file)->Ok_0[i].0 == linear,
{
    let names = names_of(file);
    let at = lemma_is_listed(file, name);
    lemma_held(file, names, at, names.len() as int, linear);
    lemma_pair_index(lora_spec(file)->Ok_0, linear, 0);
}

/// Whether a pair is made of two tensors of the file: a down half of the linear, and the up half
/// of the same name, in either spelling. The down half is as high as the rank and as wide as the
/// linear's input, the up half as high as its output and as wide as the rank.
pub open spec fn is_pair_of(file: SafeTensors, linear: Seq<char>, pair: Pair) -> bool {
    exists|base: Seq<char>, down: int, up: int| #[trigger]
        is_made_of(file, linear, pair, base, down, up)
}

/// Whether a pair is made of two given tensors of the file, under a given name.
pub open spec fn is_made_of(
    file: SafeTensors,
    linear: Seq<char>,
    pair: Pair,
    base: Seq<char>,
    down: int,
    up: int,
) -> bool {
    let tensors = file.tensors();
    &&& 0 <= down < tensors.len()
    &&& 0 <= up < tensors.len()
    &&& is_down_half(tensors[down].0, linear)
    &&& (tensors[down].0 == base + ".lora_down.weight"@ || tensors[down].0 == base
        + ".lora_A.weight"@)
    &&& (tensors[up].0 == base + ".lora_up.weight"@ || tensors[up].0 == base + ".lora_B.weight"@
        && !has_tensor(file, base + ".lora_up.weight"@))
    &&& tensors[down].1.shape == seq![pair.rank, pair.in_dim]
    &&& tensors[up].1.shape == seq![pair.out_dim, pair.rank]
    &&& pair.down == values_of(file, tensors[down].1)
    &&& pair.up == values_of(file, tensors[up].1)
    &&& match pair.alpha {
        Some(alpha) => exists|k: int|
            0 <= k < tensors.len() && (#[trigger] tensors[k]).0 == base + ".alpha"@ && values_of(
                file,
                tensors[k].1,
            ).len() > 0 && alpha == values_of(file, tensors[k].1)[0],
        None => forall|k: int|
            0 <= k < tensors.len() && (#[trigger] tensors[k]).0 == base + ".alpha"@ ==> values_of(
                file,
                tensors[k].1,
            ).len() == 0,
    }
}

proof fn lemma_info(file: SafeTensors, name: Seq<char>) -> (k: int)
    requires
        info_of(file, name) is Some,
    ensures
        0 <= k < file.tensors().len(),
        file.tensors()[k] == (name, info_of(file, name)->0),
{
    lemma_tensor_found(file.tensors(), name, 0);
    safetensors::tensor_index(file.tensors(), name, 0)->0
}

proof fn lemma_tensor_found(
    tensors: Seq<(Seq<char>, safetensors::Info)>,
    name: Seq<char>,
    from: int,
)
    requires
        0 <= from <= tensors.len(),
    ensures
        safetensors::tensor_index(tensors, name, from) matches Some(i) ==> from <= i
            < tensors.len() && tensors[i].0 == name,
    decreases tensors.len() - from,
{
    if from < tensors.len() && tensors[from].0 != name {
        lemma_tensor_found(tensors, name, from + 1);
    }
}

proof fn lemma_pair_is_of(file: SafeTensors, name: Seq<char>, base: Seq<char>) -> (halves: (
    int,
    int,
))
    requires
        file.sound(),
        info_of(file, name) is Some,
        split_key_spec(name) == Some((base, "down"@)),
        pair_spec(file, name, base) is Ok,
    ensures
        is_pair_of(file, linear_of(base), pair_spec(file, name, base)->Ok_0),
        is_made_of(
            file,
            linear_of(base),
            pair_spec(file, name, base)->Ok_0,
            base,
            halves.0,
            halves.1,
        ),
        file.tensors()[halves.0].0 == name,
{
    let tensors = file.tensors();
    let linear = linear_of(base);
    let pair = pair_spec(file, name, base)->Ok_0;
    lemma_split_parts(name);
    lemma_linear_of(base);
    let down = lemma_info(file, name);
    assert(is_down_half(tensors[down].0, linear)) by {
        if base == "transformer."@ + linear {
        } else {
            assert(base == linear);
        }
    }
    let up_name = if info_of(file, base + ".lora_up.weight"@) is Some {
        base + ".lora_up.weight"@
    } else {
        base + ".lora_B.weight"@
    };
    let up = lemma_info(file, up_name);
    if info_of(file, base + ".lora_up.weight"@) is None && has_tensor(
        file,
        base + ".lora_up.weight"@,
    ) {
        let m = choose|m: int|
            0 <= m < tensors.len() && (#[trigger] tensors[m]).0 == base + ".lora_up.weight"@;
        lemma_tensor_index(tensors, base + ".lora_up.weight"@, 0, m);
    }
    assert(tensors[down].1.shape =~= seq![pair.rank, pair.in_dim]);
    assert(tensors[up].1.shape =~= seq![pair.out_dim, pair.rank]);
    let alpha_name = base + ".alpha"@;
    if info_of(file, alpha_name) is Some {
        let k = lemma_info(file, alpha_name);
        assert(tensors[k].0 == alpha_name);
        assert forall|m: int|
            0 <= m < tensors.len() && (#[trigger] tensors[m]).0 == alpha_name implies m == k by {
            if m < k {
                assert(tensors[m].0 != tensors[k].0);
            } else if k < m {
                assert(tensors[k].0 != tensors[m].0);
            }
        }
    } else {
        assert forall|m: int|
            0 <= m < tensors.len() && (#[trigger] tensors[m]).0 == alpha_name implies false by {
            lemma_tensor_index(tensors, alpha_name, 0, m);
        }
    }
    assert(is_made_of(file, linear, pair, base, down, up));
    (down, up)
}

proof fn lemma_all_pairs(file: SafeTensors, n: int)
    requires
        file.sound(),
        0 <= n <= names_of(file).len(),
        pairs_spec(file, names_of(file), n) is Ok,
    ensures
        forall|i: int|
            0 <= i < pairs_spec(file, names_of(file), n)->Ok_0.len() ==> is_pair_of(
                file,
                (#[trigger] pairs_spec(file, names_of(file), n)->Ok_0[i]).0,
                pairs_spec(file, names_of(file), n)->Ok_0[i].1,
            ),
    decreases n,
{
    let names = names_of(file);
    if n > 0 {
        lemma_all_pairs(file, n - 1);
        let done = pairs_spec(file, names, n - 1)->Ok_0;
        let now = pairs_spec(file, names, n)->Ok_0;
        if let Some((base, kind)) = split_key_spec(names[n - 1]) {
            if kind == "down"@ {
                lemma_listed(file, n - 1);
                lemma_pair_is_of(file, names[n - 1], base);
                let pair = pair_spec(file, names[n - 1], base)->Ok_0;
                lemma_pair_index(done, linear_of(base), 0);
                assert forall|i: int| 0 <= i < now.len() implies is_pair_of(
                    file,
                    (#[trigger] now[i]).0,
                    now[i].1,
                ) by {
                    if i < done.len() && now[i] == done[i] {
                        assert(is_pair_of(file, done[i].0, done[i].1));
                    } else {
                        assert(now[i] == (linear_of(base), pair));
                    }
                }
            }
        }
    }
}

/// Nothing is made up: each pair a file is found to hold stands in it, its two halves under the
/// names of its linear, with the shapes they have there and every value unchanged.
pub proof fn law_every_pair_stands_in_the_file(file: SafeTensors, i: int)
    requires
        file.sound(),
        lora_spec(file) is Ok,
        0 <= i < lora_spec(file)->Ok_0.len(),
    ensures
        is_pair_of(file, lora_spec(file)->Ok_0[i].0, lora_spec(file)->Ok_0[i].1),
{
    lemma_all_pairs(file, names_of(file).len() as int);
}

/// No held name begins with the prefix, unless the file's own has it twice.
pub proof fn law_the_prefix_is_taken_off(file: SafeTensors, i: int)
    requires
        file.sound(),
        lora_spec(file) is Ok,
        0 <= i < lora_spec(file)->Ok_0.len(),
        text::begins(lora_spec(file)->Ok_0[i].0, "transformer."@),
    ensures
        ({
            let twice = "transformer."@ + lora_spec(file)->Ok_0[i].0;
            has_tensor(file, twice + ".lora_down.weight"@) || has_tensor(
                file,
                twice + ".lora_A.weight"@,
            )
        }),
{
    law_every_pair_stands_in_the_file(file, i);
    let (linear, pair) = lora_spec(file)->Ok_0[i];
    let (base, down, up) = choose|base: Seq<char>, down: int, up: int| #[trigger]
        is_made_of(file, linear, pair, base, down, up);
    assert(file.tensors()[down].0 == file.tensors()[down].0);
}

/// A key is a linear's name and one of four endings, two for each half; any other is no key.
pub proof fn law_a_key_is_a_name_and_its_half(base: Seq<char>, name: Seq<char>)
    ensures
        split_key_spec(base + ".lora_down.weight"@) == Some((base, "down"@)),
        split_key_spec(base + ".lora_A.weight"@) == Some((base, "down"@)),
        split_key_spec(base + ".lora_up.weight"@) == Some((base, "up"@)),
        split_key_spec(base + ".lora_B.weight"@) == Some((base, "up"@)),
        split_key_spec(name) is None <==> !(text::ends(name, ".lora_down.weight"@) || text::ends(
            name,
            ".lora_A.weight"@,
        ) || text::ends(name, ".lora_up.weight"@) || text::ends(name, ".lora_B.weight"@)),
{
    lemma_split_down(base);
    reveal_strlit(".lora_down.weight");
    reveal_strlit(".lora_A.weight");
    reveal_strlit(".lora_up.weight");
    reveal_strlit(".lora_B.weight");
    let up = base + ".lora_up.weight"@;
    let n = up.len() as int;
    assert(up.subrange(n - 15, n) =~= ".lora_up.weight"@);
    assert(up.take(n - 15) =~= base);
    if text::ends(up, ".lora_down.weight"@) {
        assert(up.subrange(n - 17, n)[8] == ".lora_down.weight"@[8]);
        assert(up[n - 9] == ".lora_up.weight"@[6]);
    }
    if text::ends(up, ".lora_A.weight"@) {
        assert(up.subrange(n - 14, n)[6] == ".lora_A.weight"@[6]);
        assert(up[n - 8] == ".lora_up.weight"@[7]);
    }
    let b = base + ".lora_B.weight"@;
    let m = b.len() as int;
    assert(b.subrange(m - 14, m) =~= ".lora_B.weight"@);
    assert(b.take(m - 14) =~= base);
    assert(b[m - 8] == ".lora_B.weight"@[6]);
    if text::ends(b, ".lora_down.weight"@) {
        assert(b.subrange(m - 17, m)[9] == ".lora_down.weight"@[9]);
    }
    if text::ends(b, ".lora_A.weight"@) {
        assert(b.subrange(m - 14, m)[6] == ".lora_A.weight"@[6]);
    }
    if text::ends(b, ".lora_up.weight"@) {
        assert(b.subrange(m - 15, m)[7] == ".lora_up.weight"@[7]);
    }
}

/// A tensor's values are its elements, each in its place.
pub proof fn law_values_are_the_elements(file: SafeTensors, info: safetensors::Info, i: int)
    requires
        0 <= i < safetensors::product(info.shape),
    ensures
        values_of(file, info).len() == safetensors::product(info.shape),
        values_of(file, info)[i] == file.element(info, i) as u32,
{
}

/// Whether a name is that of a down half whose up half the file has in neither spelling.
pub open spec fn lacks_up(file: SafeTensors, name: Seq<char>) -> bool {
    exists|base: Seq<char>| #[trigger] lacks_up_of(file, name, base)
}

pub open spec fn lacks_up_of(file: SafeTensors, name: Seq<char>, base: Seq<char>) -> bool {
    &&& name == base + ".lora_down.weight"@ || name == base + ".lora_A.weight"@
    &&& info_of(file, base + ".lora_up.weight"@) is None
    &&& info_of(file, base + ".lora_B.weight"@) is None
}

/// Whether a name ends as a down half's does.
pub open spec fn ends_as_down(name: Seq<char>) -> bool {
    text::ends(name, ".lora_down.weight"@) || text::ends(name, ".lora_A.weight"@)
}

/// A file is refused only for what is so: a down half that it has without either spelling of its
/// up half, or two halves whose ranks differ, or no down half at all.
pub proof fn law_a_file_is_refused_only_for_what_is_so(file: SafeTensors)
    ensures
        match lora_spec(file) {
            Ok(_) => true,
            Err(LoraFlaw::NoUp(name)) => names_of(file).contains(name) && lacks_up(file, name),
            Err(LoraFlaw::Shapes(_, down, up)) => down.len() != 2 || up.len() != 2 || down[0]
                != up[1],
            Err(LoraFlaw::Empty) => forall|i: int|
                0 <= i < names_of(file).len() ==> !ends_as_down(#[trigger] names_of(file)[i]),
        },
{
    lemma_refused(file, names_of(file), names_of(file).len() as int);
}

proof fn lemma_refused(file: SafeTensors, names: Seq<Seq<char>>, n: int)
    requires
        0 <= n <= names.len(),
    ensures
        match pairs_spec(file, names, n) {
            Ok(pairs) => pairs.len() == 0 ==> forall|i: int|
                0 <= i < n ==> !ends_as_down(#[trigger] names[i]),
            Err(LoraFlaw::NoUp(name)) => names.contains(name) && lacks_up(file, name),
            Err(LoraFlaw::Shapes(_, down, up)) => down.len() != 2 || up.len() != 2 || down[0]
                != up[1],
            Err(LoraFlaw::Empty) => false,
        },
    decreases n,
{
    if n > 0 {
        lemma_refused(file, names, n - 1);
        let name = names[n - 1];
        reveal_strlit("down");
        reveal_strlit("up");
        assert("down"@.len() != "up"@.len());
        if let Ok(done) = pairs_spec(file, names, n - 1) {
            if let Some((base, kind)) = split_key_spec(name) {
                if kind == "down"@ {
                    lemma_split_parts(name);
                    match pair_spec(file, name, base) {
                        Ok(pair) => {
                            lemma_pair_index(done, linear_of(base), 0);
                            assert(stored(done, linear_of(base), pair).len() > 0);
                        },
                        Err(flaw) => {
                            if flaw is NoUp {
                                assert(lacks_up_of(file, name, base));
                                assert(names.contains(name));
                            }
                        },
                    }
                } else {
                    assert(!ends_as_down(name));
                }
            } else {
                assert(!ends_as_down(name));
            }
        }
    }
}

/// Weights take an adapter exactly where their rows are as long as rows of their type and width
/// are written, which is not at all for a type that is not written.
pub proof fn law_weights_take_an_adapter_where_their_rows_fit(
    ggml_type: u32,
    in_dim: nat,
    row: int,
)
    ensures
        mergeable(ggml_type, in_dim, row) <==> row > 0 && quantize::row_bytes_spec(ggml_type, in_dim)
            == row,
{
}

/// Whether a pair is made of the down half with a given name.
pub open spec fn is_made_from(
    file: SafeTensors,
    linear: Seq<char>,
    pair: Pair,
    name: Seq<char>,
) -> bool {
    exists|base: Seq<char>, down: int, up: int| #[trigger]
        is_made_of(file, linear, pair, base, down, up) && file.tensors()[down].0 == name
}

/// Where a file has several down halves of one linear, the last of them in order counts.
pub proof fn law_the_last_half_counts(file: SafeTensors, k: int, linear: Seq<char>)
    requires
        file.sound(),
        lora_spec(file) is Ok,
        0 <= k < names_of(file).len(),
        is_down_half(names_of(file)[k], linear),
        forall|j: int|
            k < j < names_of(file).len() ==> !is_down_half(#[trigger] names_of(file)[j], linear),
    ensures
        text::ascending(names_of(file)),
        ({
            let pairs = lora_spec(file)->Ok_0;
            pair_index(pairs, linear, 0) matches Some(i) && 0 <= i < pairs.len() && is_made_from(
                file,
                linear,
                pairs[i].1,
                names_of(file)[k],
            )
        }),
{
    let names = names_of(file);
    lemma_last_half(file, names, k, names.len() as int, linear);
    text::lemma_sorted(file.tensors().map_values(|t: (Seq<char>, safetensors::Info)| t.0));
    lemma_down_half(names[k], linear);
    lemma_listed(file, k);
    let (base, kind) = split_key_spec(names[k])->0;
    let (down, up) = lemma_pair_is_of(file, names[k], base);
    let pairs = lora_spec(file)->Ok_0;
    let i = pair_index(pairs, linear, 0)->0;
    assert(is_made_of(file, linear, pairs[i].1, base, down, up));
    assert(is_made_from(file, linear, pairs[i].1, names[k]));
}

proof fn lemma_last_half(
    file: SafeTensors,
    names: Seq<Seq<char>>,
    k: int,
    n: int,
    linear: Seq<char>,
)
    requires
        pairs_spec(file, names, n) is Ok,
        0 <= k < n <= names.len(),
        is_down_half(names[k], linear),
        forall|j: int| k < j < n ==> !is_down_half(#[trigger] names[j], linear),
    ensures
        ({
            let (base, _) = split_key_spec(names[k])->0;
            let pairs = pairs_spec(file, names, n)->Ok_0;
            pair_index(pairs, linear, 0) matches Some(i) && 0 <= i < pairs.len() && pair_spec(
                file,
                names[k],
                base,
            ) == Ok::<Pair, LoraFlaw>(pairs[i].1)
        }),
    decreases n,
{
    let done = pairs_spec(file, names, n - 1)->Ok_0;
    let now = pairs_spec(file, names, n)->Ok_0;
    lemma_down_half(names[k], linear);
    if k == n - 1 {
        let (base, kind) = split_key_spec(names[k])->0;
        let pair = pair_spec(file, names[k], base)->Ok_0;
        assert(now == stored(done, linear, pair));
        lemma_stored_under(done, linear, pair, linear);
    } else {
        lemma_last_half(file, names, k, n - 1, linear);
        if let Some((base, kind)) = split_key_spec(names[n - 1]) {
            if kind == "down"@ {
                lemma_split_parts(names[n - 1]);
                lemma_linear_of(base);
                assert(linear_of(base) != linear) by {
                    if linear_of(base) == linear {
                        assert(is_down_half(names[n - 1], linear));
                    }
                }
                let pair = pair_spec(file, names[n - 1], base)->Ok_0;
                assert(now == stored(done, linear_of(base), pair));
                lemma_stored_under(done, linear_of(base), pair, linear);
                let i = pair_index(done, linear, 0)->0;
                assert(now[i] == done[i]);
                assert(0 <= i < now.len());
            } else {
                assert(now == done);
            }
        } else {
            assert(now == done);
        }
    }
}

proof fn lemma_stored_under(
    pairs: Seq<(Seq<char>, Pair)>,
    linear: Seq<char>,
    pair: Pair,
    asked: Seq<char>,
)
    ensures
        ({
            let now = stored(pairs, linear, pair);
            &&& asked == linear ==> (pair_index(now, asked, 0) matches Some(i) && 0 <= i < now.len()
                && now[i].1 == pair)
            &&& asked != linear ==> match pair_index(pairs, asked, 0) {
                Some(i) => pair_index(now, asked, 0) == Some(i) && 0 <= i < pairs.len()
                    <= now.len() && now[i] == pairs[i],
                None => true,
            }
        }),
{
    lemma_pair_index(pairs, linear, 0);
    lemma_pair_index(pairs, asked, 0);
    let now = stored(pairs, linear, pair);
    lemma_pair_index(now, asked, 0);
    if asked == linear {
        match pair_index(pairs, linear, 0) {
            Some(i) => {
                lemma_first_pair(pairs, linear, 0);
                assert forall|m: int| 0 <= m < i implies (#[trigger] now[m]).0 != linear by {
                    assert(now[m] == pairs[m]);
                }
                assert(now[i].0 == linear);
                lemma_found_pair(now, linear, 0, i);
            },
            None => {
                assert(now[pairs.len() as int].0 == linear);
                assert forall|m: int| 0 <= m < pairs.len() implies (#[trigger] now[m]).0
                    != linear by {
                    assert(now[m] == pairs[m]);
                }
                lemma_found_pair(now, linear, 0, pairs.len() as int);
            },
        }
    } else if let Some(i) = pair_index(pairs, asked, 0) {
        lemma_first_pair(pairs, asked, 0);
        assert(now[i] == pairs[i]);
        assert forall|m: int| 0 <= m < i implies (#[trigger] now[m]).0 != asked by {
            assert(pairs[m].0 != asked);
        }
        lemma_found_pair(now, asked, 0, i);
    }
}

proof fn lemma_first_pair(pairs: Seq<(Seq<char>, Pair)>, linear: Seq<char>, from: int)
    requires
        0 <= from,
    ensures
        pair_index(pairs, linear, from) matches Some(i) ==> forall|m: int|
            from <= m < i ==> (#[trigger] pairs[m]).0 != linear,
    decreases pairs.len() - from,
{
    if from < pairs.len() {
        lemma_first_pair(pairs, linear, from + 1);
    }
}

proof fn lemma_found_pair(pairs: Seq<(Seq<char>, Pair)>, linear: Seq<char>, from: int, i: int)
    requires
        0 <= from <= i < pairs.len(),
        pairs[i].0 == linear,
        forall|m: int| from <= m < i ==> (#[trigger] pairs[m]).0 != linear,
    ensures
        pair_index(pairs, linear, from) == Some(i),
    decreases i - from,
{
    if from < i {
        lemma_found_pair(pairs, linear, from + 1, i);
    }
}

/// What is told of two halves names the down half's shape before the up half's, each with its
/// dimensions in turn.
pub proof fn law_a_message_tells_both_shapes(
    base: Seq<char>,
    down: Seq<usize>,
    up: Seq<usize>,
    a: usize,
    b: usize,
    path: Seq<char>,
)
    ensures
        text::begins(LoraFlaw::Shapes(base, down, up).message(path), "LoRA "@ + base + ": "@),
        text::ends(
            LoraFlaw::Shapes(base, down, up).message(path),
            " down is "@ + shape_text(down) + ", up is "@ + shape_text(up),
        ),
        shape_text(seq![a, b]) == "["@ + text::decimal_spec(a as nat) + ", "@ + text::decimal_spec(
            b as nat,
        ) + "]"@,
        text::begins(LoraFlaw::NoUp(base).message(path), "LoRA "@ + base + " "@),
        text::begins(LoraFlaw::Empty.message(path), path + " "@),
{
    reveal_strlit(": ");
    reveal_strlit(" ");
    reveal_strlit(": down is ");
    reveal_strlit(" down is ");
    reveal_strlit(" has no matching up projection");
    reveal_strlit(" holds no LoRA pairs");
    let told = LoraFlaw::Shapes(base, down, up).message(path);
    let start = "LoRA "@ + base + ": "@;
    assert(told.subrange(0, start.len() as int) =~= start);
    let end = " down is "@ + shape_text(down) + ", up is "@ + shape_text(up);
    assert(told.subrange(told.len() - end.len(), told.len() as int) =~= end);
    let shape = seq![a, b];
    reveal_with_fuel(listed_dims, 3);
    assert(shape[0] == a && shape[1] == b && shape.len() == 2);
    let none = LoraFlaw::NoUp(base).message(path);
    let none_start = "LoRA "@ + base + " "@;
    assert(none.subrange(0, none_start.len() as int) =~= none_start);
    let empty = LoraFlaw::Empty.message(path);
    assert(empty.subrange(0, path.len() as int + 1) =~= path + " "@);
}

} // verus!
