//! GGUF metadata: typed values under text keys, and reading them.

use vstd::prelude::*;
use vstd::string::*;
use crate::text;

verus! {

/// A metadata value. Floating-point values are held as their bit patterns.
#[derive(Debug)]
pub enum GgufValue {
    U8(u8),
    I8(i8),
    U16(u16),
    I16(i16),
    U32(u32),
    I32(i32),
    U64(u64),
    I64(i64),
    F32(u32),
    F64(u64),
    Bool(bool),
    String(String),
    Array(Vec<GgufValue>),
}

impl GgufValue {
    /// The value as an unsigned number: unsigned numbers, signed ones that are not negative,
    /// and booleans as nought and one.
    pub open spec fn as_u64_spec(self) -> Option<u64> {
        match self {
            GgufValue::U8(v) => Some(v as u64),
            GgufValue::U16(v) => Some(v as u64),
            GgufValue::U32(v) => Some(v as u64),
            GgufValue::U64(v) => Some(v),
            GgufValue::I8(v) => if v >= 0 { Some(v as u64) } else { None },
            GgufValue::I16(v) => if v >= 0 { Some(v as u64) } else { None },
            GgufValue::I32(v) => if v >= 0 { Some(v as u64) } else { None },
            GgufValue::I64(v) => if v >= 0 { Some(v as u64) } else { None },
            GgufValue::Bool(v) => Some(if v { 1 } else { 0 }),
            _ => None,
        }
    }

    pub fn as_u64(&self) -> (n: Option<u64>)
        ensures
            n == self.as_u64_spec(),
    {
        match self {
            GgufValue::U8(v) => Some(*v as u64),
            GgufValue::U16(v) => Some(*v as u64),
            GgufValue::U32(v) => Some(*v as u64),
            GgufValue::U64(v) => Some(*v),
            GgufValue::I8(v) => if *v >= 0 { Some(*v as u64) } else { None },
            GgufValue::I16(v) => if *v >= 0 { Some(*v as u64) } else { None },
            GgufValue::I32(v) => if *v >= 0 { Some(*v as u64) } else { None },
            GgufValue::I64(v) => if *v >= 0 { Some(*v as u64) } else { None },
            GgufValue::Bool(v) => Some(if *v { 1 } else { 0 }),
            _ => None,
        }
    }

    /// The value as a signed number: signed numbers as they are, and what reads as an unsigned
    /// one by its 64 bits.
    pub open spec fn as_i64_spec(self) -> Option<int> {
        match self {
            GgufValue::I8(v) => Some(v as int),
            GgufValue::I16(v) => Some(v as int),
            GgufValue::I32(v) => Some(v as int),
            GgufValue::I64(v) => Some(v as int),
            other => match other.as_u64_spec() {
                Some(v) => Some(if v <= i64::MAX { v as int } else { v - 0x1_0000_0000_0000_0000 }),
                None => None,
            },
        }
    }

    pub fn as_i64(&self) -> (n: Option<i64>)
        ensures
            match n {
                Some(v) => self.as_i64_spec() == Some(v as int),
                None => self.as_i64_spec() is None,
            },
    {
        match self {
            GgufValue::I8(v) => Some(*v as i64),
            GgufValue::I16(v) => Some(*v as i64),
            GgufValue::I32(v) => Some(*v as i64),
            GgufValue::I64(v) => Some(*v),
            other => match other.as_u64() {
                Some(v) => if v <= i64::MAX as u64 {
                    Some(v as i64)
                } else {
                    Some((v as i128 - 0x1_0000_0000_0000_0000) as i64)
                },
                None => None,
            },
        }
    }
}

/// The first value stored under a key.
pub open spec fn lookup_spec(metadata: Seq<(String, GgufValue)>, key: Seq<char>) -> Option<
    GgufValue,
>
    decreases metadata.len(),
{
    if metadata.len() == 0 {
        None
    } else if metadata[0].0@ == key {
        Some(metadata[0].1)
    } else {
        lookup_spec(metadata.drop_first(), key)
    }
}

/// The first value stored under a key.
pub fn lookup<'a>(metadata: &'a [(String, GgufValue)], key: &str) -> (value: Option<&'a GgufValue>)
    ensures
        match value {
            Some(v) => lookup_spec(metadata@, key@) == Some(*v),
            None => lookup_spec(metadata@, key@) is None,
        },
{
    let mut i: usize = 0;
    assert(metadata@.skip(0) =~= metadata@);
    while i < metadata.len()
        invariant
            i <= metadata@.len(),
            lookup_spec(metadata@.skip(i as int), key@) == lookup_spec(metadata@, key@),
        decreases metadata.len() - i,
    {
        if text::same(metadata[i].0.as_str(), key) {
            return Some(&metadata[i].1);
        }
        assert(metadata@.skip(i as int).drop_first() =~= metadata@.skip(i + 1));
        i = i + 1;
    }
    None
}

/// The number under a key.
pub open spec fn scalar_spec(metadata: Seq<(String, GgufValue)>, key: Seq<char>) -> Option<u64> {
    match lookup_spec(metadata, key) {
        Some(v) => v.as_u64_spec(),
        None => None,
    }
}

pub fn scalar_u64(metadata: &[(String, GgufValue)], key: &str) -> (n: Option<u64>)
    ensures
        n == scalar_spec(metadata@, key@),
{
    match lookup(metadata, key) {
        Some(v) => v.as_u64(),
        None => None,
    }
}

/// The text under a key.
pub open spec fn string_spec(metadata: Seq<(String, GgufValue)>, key: Seq<char>) -> Option<
    Seq<char>,
> {
    match lookup_spec(metadata, key) {
        Some(GgufValue::String(s)) => Some(s@),
        _ => None,
    }
}

pub fn string(metadata: &[(String, GgufValue)], key: &str) -> (s: Option<String>)
    ensures
        match s {
            Some(t) => string_spec(metadata@, key@) == Some(t@),
            None => string_spec(metadata@, key@) is None,
        },
{
    match lookup(metadata, key) {
        Some(GgufValue::String(s)) => Some(s.clone()),
        _ => None,
    }
}

/// The texts of a list, where every item is one.
pub open spec fn texts_of(items: Seq<GgufValue>) -> Option<Seq<Seq<char>>>
    decreases items.len(),
{
    if items.len() == 0 {
        Some(Seq::empty())
    } else {
        match (texts_of(items.drop_last()), items.last()) {
            (Some(rest), GgufValue::String(s)) => Some(rest.push(s@)),
            _ => None,
        }
    }
}

/// The numbers of a list, where every item is one.
pub open spec fn numbers_of(items: Seq<GgufValue>) -> Option<Seq<int>>
    decreases items.len(),
{
    if items.len() == 0 {
        Some(Seq::empty())
    } else {
        match (numbers_of(items.drop_last()), items.last().as_i64_spec()) {
            (Some(rest), Some(v)) => Some(rest.push(v)),
            _ => None,
        }
    }
}

/// One item that does not read leaves the whole list unread.
proof fn lemma_texts_of_prefix(items: Seq<GgufValue>, i: int)
    requires
        0 <= i <= items.len(),
        texts_of(items.take(i)) is None,
    ensures
        texts_of(items) is None,
    decreases items.len() - i,
{
    if i < items.len() {
        assert(items.take(i + 1).drop_last() =~= items.take(i));
        lemma_texts_of_prefix(items, i + 1);
    } else {
        assert(items.take(i) =~= items);
    }
}

proof fn lemma_numbers_of_prefix(items: Seq<GgufValue>, i: int)
    requires
        0 <= i <= items.len(),
        numbers_of(items.take(i)) is None,
    ensures
        numbers_of(items) is None,
    decreases items.len() - i,
{
    if i < items.len() {
        assert(items.take(i + 1).drop_last() =~= items.take(i));
        lemma_numbers_of_prefix(items, i + 1);
    } else {
        assert(items.take(i) =~= items);
    }
}

/// The list of texts under a key.
pub open spec fn strings_spec(metadata: Seq<(String, GgufValue)>, key: Seq<char>) -> Option<
    Seq<Seq<char>>,
> {
    match lookup_spec(metadata, key) {
        Some(GgufValue::Array(items)) => texts_of(items@),
        _ => None,
    }
}

pub fn array_strings(metadata: &[(String, GgufValue)], key: &str) -> (list: Option<Vec<String>>)
    ensures
        match list {
            Some(l) => strings_spec(metadata@, key@) == Some(text::views(l@)),
            None => strings_spec(metadata@, key@) is None,
        },
{
    match lookup(metadata, key) {
        Some(GgufValue::Array(items)) => {
            let mut out: Vec<String> = Vec::new();
            let mut i: usize = 0;
            assert(text::views(out@) =~= Seq::<Seq<char>>::empty());
            while i < items.len()
                invariant
                    i <= items@.len(),
                    texts_of(items@.take(i as int)) == Some(text::views(out@)),
                    strings_spec(metadata@, key@) == texts_of(items@),
                decreases items.len() - i,
            {
                assert(items@.take(i + 1).drop_last() =~= items@.take(i as int));
                match &items[i] {
                    GgufValue::String(s) => {
                        let ghost before = out@;
                        out.push(s.clone());
                        assert(text::views(out@) =~= text::views(before).push(s@));
                    },
                    _ => {
                        proof {
                            assert(texts_of(items@.take(i + 1)) is None);
                            lemma_texts_of_prefix(items@, i + 1);
                        }
                        return None;
                    },
                }
                i = i + 1;
            }
            assert(items@.take(i as int) =~= items@);
            Some(out)
        },
        _ => None,
    }
}

/// The list of numbers under a key.
pub open spec fn numbers_spec(metadata: Seq<(String, GgufValue)>, key: Seq<char>) -> Option<
    Seq<int>,
> {
    match lookup_spec(metadata, key) {
        Some(GgufValue::Array(items)) => numbers_of(items@),
        _ => None,
    }
}

/// Numbers as mathematical integers.
pub open spec fn ints(list: Seq<i64>) -> Seq<int> {
    list.map_values(|v: i64| v as int)
}

pub fn array_i64(metadata: &[(String, GgufValue)], key: &str) -> (list: Option<Vec<i64>>)
    ensures
        match list {
            Some(l) => numbers_spec(metadata@, key@) == Some(ints(l@)),
            None => numbers_spec(metadata@, key@) is None,
        },
{
    match lookup(metadata, key) {
        Some(GgufValue::Array(items)) => {
            let mut out: Vec<i64> = Vec::new();
            let mut i: usize = 0;
            assert(ints(out@) =~= Seq::<int>::empty());
            while i < items.len()
                invariant
                    i <= items@.len(),
                    numbers_of(items@.take(i as int)) == Some(ints(out@)),
                    numbers_spec(metadata@, key@) == numbers_of(items@),
                decreases items.len() - i,
            {
                assert(items@.take(i + 1).drop_last() =~= items@.take(i as int));
                match items[i].as_i64() {
                    Some(v) => {
                        let ghost before = out@;
                        out.push(v);
                        assert(ints(out@) =~= ints(before).push(v as int));
                    },
                    None => {
                        proof {
                            assert(numbers_of(items@.take(i + 1)) is None);
                            lemma_numbers_of_prefix(items@, i + 1);
                        }
                        return None;
                    },
                }
                i = i + 1;
            }
            assert(items@.take(i as int) =~= items@);
            Some(out)
        },
        _ => None,
    }
}

/// The first entry of a key counts, whatever stands behind it; a key no entry has gives nothing.
pub proof fn law_the_first_entry_of_a_key_counts(
    before: Seq<(String, GgufValue)>,
    entry: (String, GgufValue),
    after: Seq<(String, GgufValue)>,
)
    requires
        forall|i: int| 0 <= i < before.len() ==> (#[trigger] before[i]).0@ != entry.0@,
    ensures
        lookup_spec(before + seq![entry] + after, entry.0@) == Some(entry.1),
        lookup_spec(before, entry.0@) is None,
    decreases before.len(),
{
    let whole = before + seq![entry] + after;
    if before.len() > 0 {
        assert(before[0].0@ != entry.0@);
        let rest = before.drop_first();
        assert forall|i: int| 0 <= i < rest.len() implies (#[trigger] rest[i]).0@ != entry.0@ by {
            assert(rest[i] == before[i + 1]);
        }
        law_the_first_entry_of_a_key_counts(rest, entry, after);
        assert(whole.drop_first() =~= rest + seq![entry] + after);
    }
}

pub open spec fn is_text(item: GgufValue, text: Seq<char>) -> bool {
    item matches GgufValue::String(s) && s@ == text
}

/// A list of texts is read where every item is a text, and a list of numbers where every item is
/// a number; each item then stands in its place.
pub proof fn law_a_list_is_read_item_by_item(items: Seq<GgufValue>)
    ensures
        texts_of(items) is Some <==> forall|i: int|
            0 <= i < items.len() ==> #[trigger] items[i] is String,
        texts_of(items) matches Some(list) ==> list.len() == items.len() && forall|i: int|
            0 <= i < items.len() ==> is_text(#[trigger] items[i], list[i]),
        numbers_of(items) is Some <==> forall|i: int|
            0 <= i < items.len() ==> (#[trigger] items[i]).as_i64_spec() is Some,
        numbers_of(items) matches Some(list) ==> list.len() == items.len() && forall|i: int|
            0 <= i < items.len() ==> (#[trigger] items[i]).as_i64_spec() == Some(list[i]),
    decreases items.len(),
{
    if items.len() > 0 {
        let rest = items.drop_last();
        law_a_list_is_read_item_by_item(rest);
        assert(items.last() == items[items.len() - 1]);
        assert forall|i: int| 0 <= i < rest.len() implies rest[i] == #[trigger] items[i] by {}
        if texts_of(items) is Some {
            assert forall|i: int| 0 <= i < items.len() implies #[trigger] items[i] is String by {
                if i < rest.len() {
                    assert(rest[i] is String);
                }
            }
            let list = texts_of(items)->0;
            assert forall|i: int| 0 <= i < items.len() implies is_text(#[trigger] items[i], list[i]) by {
                if i < rest.len() {
                    assert(rest[i] is String);
                }
            }
        }
        if numbers_of(items) is Some {
            let list = numbers_of(items)->0;
            assert forall|i: int| 0 <= i < items.len() implies (
            #[trigger] items[i]).as_i64_spec() == Some(list[i]) by {
                if i < rest.len() {
                    assert(rest[i].as_i64_spec() is Some);
                }
            }
        }
        if forall|i: int| 0 <= i < items.len() ==> #[trigger] items[i] is String {
            assert forall|i: int| 0 <= i < rest.len() implies #[trigger] rest[i] is String by {
                assert(items[i] is String);
            }
        }
        if forall|i: int| 0 <= i < items.len() ==> (#[trigger] items[i]).as_i64_spec() is Some {
            assert forall|i: int| 0 <= i < rest.len() implies (
            #[trigger] rest[i]).as_i64_spec() is Some by {
                assert(items[i].as_i64_spec() is Some);
            }
        }
    }
}

/// The whole number a value stands for, where it is one: a boolean counts as nought or one.
pub open spec fn worth(value: GgufValue) -> Option<int> {
    match value {
        GgufValue::U8(v) => Some(v as int),
        GgufValue::I8(v) => Some(v as int),
        GgufValue::U16(v) => Some(v as int),
        GgufValue::I16(v) => Some(v as int),
        GgufValue::U32(v) => Some(v as int),
        GgufValue::I32(v) => Some(v as int),
        GgufValue::U64(v) => Some(v as int),
        GgufValue::I64(v) => Some(v as int),
        GgufValue::Bool(v) => Some(if v { 1 } else { 0 }),
        _ => None,
    }
}

/// A number reads as what it is worth: as an unsigned one unless it is negative, and as a signed
/// one where it fits, else by its low bits. Nothing else reads as a number.
pub proof fn law_a_number_reads_as_its_worth(value: GgufValue)
    ensures
        value.as_u64_spec() is Some <==> worth(value) is Some && worth(value)->0 >= 0,
        value.as_u64_spec() matches Some(n) ==> worth(value) == Some(n as int),
        value.as_i64_spec() is Some <==> worth(value) is Some,
        worth(value) is Some && worth(value)->0 <= i64::MAX ==> value.as_i64_spec() == worth(value),
        value.as_i64_spec() matches Some(n) ==> i64::MIN <= n <= i64::MAX && (worth(value)->0 - n)
            % 0x1_0000_0000_0000_0000 == 0,
{
}

/// A key gives its value where that is of the kind asked for: a number, a text, a list of texts or
/// a list of numbers; and nothing otherwise.
pub proof fn law_a_key_gives_its_value(
    before: Seq<(String, GgufValue)>,
    entry: (String, GgufValue),
    after: Seq<(String, GgufValue)>,
)
    requires
        forall|i: int| 0 <= i < before.len() ==> (#[trigger] before[i]).0@ != entry.0@,
    ensures
        ({
            let m = before + seq![entry] + after;
            let key = entry.0@;
            &&& scalar_spec(m, key) == entry.1.as_u64_spec()
            &&& entry.1 matches GgufValue::String(s) ==> string_spec(m, key) == Some(s@)
            &&& !(entry.1 is String) ==> string_spec(m, key) is None
            &&& entry.1 matches GgufValue::Array(items) ==> strings_spec(m, key) == texts_of(items@)
                && numbers_spec(m, key) == numbers_of(items@)
            &&& !(entry.1 is Array) ==> strings_spec(m, key) is None && numbers_spec(m, key) is None
            &&& scalar_spec(before, key) is None && string_spec(before, key) is None && strings_spec(
                before,
                key,
            ) is None && numbers_spec(before, key) is None
        }),
{
    law_the_first_entry_of_a_key_counts(before, entry, after);
}

} // verus!
