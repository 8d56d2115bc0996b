//! JSON values as the rest of the library reads them.

use vstd::prelude::*;
use vstd::string::*;
use vstd::utf8::*;
use crate::text;

verus! {

/// A JSON value. A number is kept as the whole non-negative one it is, if it is one, and as its
/// text.
#[derive(Debug)]
pub enum Json {
    Null,
    Bool(bool),
    Number(Option<u64>, String),
    Text(String),
    Array(Vec<Json>),
    Object(Vec<(String, Json)>),
}

/// A [`Json`] by the values it holds.
pub enum Tree {
    Null,
    Bool(bool),
    Number(Option<u64>, Seq<char>),
    Text(Seq<char>),
    Array(Seq<Tree>),
    Object(Seq<(Seq<char>, Tree)>),
}

impl Json {
    pub open spec fn tree(self) -> Tree
        decreases self,
    {
        match self {
            Json::Null => Tree::Null,
            Json::Bool(b) => Tree::Bool(b),
            Json::Number(n, s) => Tree::Number(n, s@),
            Json::Text(s) => Tree::Text(s@),
            Json::Array(items) => Tree::Array(
                Seq::new(
                    items@.len(),
                    |i: int|
                        if 0 <= i < items@.len() {
                            items@[i].tree()
                        } else {
                            Tree::Null
                        },
                ),
            ),
            Json::Object(fields) => Tree::Object(
                Seq::new(
                    fields@.len(),
                    |i: int|
                        if 0 <= i < fields@.len() {
                            (fields@[i].0@, fields@[i].1.tree())
                        } else {
                            (Seq::empty(), Tree::Null)
                        },
                ),
            ),
        }
    }
}

/// `serde_json::Value`, carried through as it is.
#[verifier::external_type_specification]
#[verifier::external_body]
pub struct ExValue(serde_json::Value);

/// What a `serde_json::Value` holds, a number by its `as_u64` and its `to_string`.
pub uninterp spec fn contents(v: serde_json::Value) -> Tree;

/// The value a JSON text spells, as `serde_json::from_slice` reads it into a
/// `serde_json::Value`; nothing for a text it refuses.
pub uninterp spec fn json_text(bytes: Seq<u8>) -> Option<Tree>;

/// The fields a JSON text spells, as `serde_json::from_slice` reads it into a `serde_json::Map`;
/// nothing for a text it refuses, or one that is no object.
pub uninterp spec fn object_text(bytes: Seq<u8>) -> Option<Seq<(Seq<char>, Tree)>>;

/// One level of a `serde_json::Value`.
pub(crate) enum Node {
    Null,
    Bool(bool),
    Number(Option<u64>, String),
    Text(String),
    Array(Vec<serde_json::Value>),
    Object(Vec<(String, serde_json::Value)>),
}

pub(crate) open spec fn node_tree(node: Node) -> Tree {
    match node {
        Node::Null => Tree::Null,
        Node::Bool(b) => Tree::Bool(b),
        Node::Number(n, s) => Tree::Number(n, s@),
        Node::Text(s) => Tree::Text(s@),
        Node::Array(items) => Tree::Array(items@.map_values(|v: serde_json::Value| contents(v))),
        Node::Object(fields) => Tree::Object(
            fields@.map_values(|f: (String, serde_json::Value)| (f.0@, contents(f.1))),
        ),
    }
}

/// How many arrays and objects stand inside one another.
pub open spec fn depth(tree: Tree) -> nat
    decreases tree,
{
    match tree {
        Tree::Array(items) => 1 + deepest(items),
        Tree::Object(fields) => 1 + deepest_field(fields),
        _ => 0,
    }
}

pub open spec fn deepest(items: Seq<Tree>) -> nat
    decreases items,
{
    if items.len() == 0 {
        0
    } else {
        let (a, b) = (deepest(items.drop_last()), depth(items.last()));
        if a < b { b } else { a }
    }
}

pub open spec fn deepest_field(fields: Seq<(Seq<char>, Tree)>) -> nat
    decreases fields,
{
    if fields.len() == 0 {
        0
    } else {
        let (a, b) = (deepest_field(fields.drop_last()), depth(fields.last().1));
        if a < b { b } else { a }
    }
}

/// Keys strictly ascending, so each once.
pub open spec fn ascending_keys(fields: Seq<(Seq<char>, Tree)>) -> bool {
    forall|i: int, j: int|
        0 <= i < j < fields.len() ==> text::precedes((#[trigger] fields[i]).0, (
        #[trigger] fields[j]).0)
}

/// An object's keys strictly ascending; anything else as it is.
pub(crate) open spec fn keys_ascend(node: Node) -> bool {
    match node_tree(node) {
        Tree::Object(fields) => ascending_keys(fields),
        _ => true,
    }
}

/// `serde_json::from_slice` into a `serde_json::Value`, a function of the bytes alone.
#[verifier::external_body]
pub(crate) fn parse_value(bytes: &[u8]) -> (value: Option<serde_json::Value>)
    ensures
        match value {
            Some(v) => json_text(bytes@) == Some(contents(v)),
            None => json_text(bytes@) is None,
        },
{
    serde_json::from_slice::<serde_json::Value>(bytes).ok()
}

/// `serde_json::from_slice` into a `serde_json::Map`, a function of the bytes alone. Its fields
/// come in the order of the map, a `BTreeMap`: keys strictly ascending.
#[verifier::external_body]
pub(crate) fn parse_object(bytes: &[u8]) -> (fields: Option<Vec<(String, serde_json::Value)>>)
    ensures
        match fields {
            Some(f) => object_text(bytes@) == Some(field_trees(f@)) && ascending_keys(
                field_trees(f@),
            ),
            None => object_text(bytes@) is None,
        },
{
    let map = serde_json::from_slice::<serde_json::Map<String, serde_json::Value>>(bytes).ok()?;
    Some(map.into_iter().collect())
}

/// The variants of `serde_json::Value` told apart, each field moved as it is. An object's fields
/// come in the order of its map, a `BTreeMap`: keys strictly ascending.
#[verifier::external_body]
pub(crate) fn node_of(value: serde_json::Value) -> (node: Node)
    ensures
        node_tree(node) == contents(value),
        keys_ascend(node),
{
    match value {
        serde_json::Value::Null => Node::Null,
        serde_json::Value::Bool(b) => Node::Bool(b),
        serde_json::Value::Number(n) => Node::Number(n.as_u64(), n.to_string()),
        serde_json::Value::String(s) => Node::Text(s),
        serde_json::Value::Array(items) => Node::Array(items),
        serde_json::Value::Object(map) => Node::Object(map.into_iter().collect()),
    }
}

/// A field put into an object's fields, in the place of its key; one of the same key makes way.
pub open spec fn inserted(
    fields: Seq<(Seq<char>, Tree)>,
    field: (Seq<char>, Tree),
) -> Seq<(Seq<char>, Tree)>
    decreases fields.len(),
{
    if fields.len() == 0 || text::precedes(fields.last().0, field.0) {
        fields.push(field)
    } else if fields.last().0 == field.0 {
        fields.drop_last().push(field)
    } else {
        inserted(fields.drop_last(), field).push(fields.last())
    }
}

/// An object's fields, put in one after another.
pub open spec fn collected(fields: Seq<(Seq<char>, Tree)>) -> Seq<(Seq<char>, Tree)>
    decreases fields.len(),
{
    if fields.len() == 0 {
        fields
    } else {
        inserted(collected(fields.drop_last()), fields.last())
    }
}

/// Fields by what they hold.
pub open spec fn field_trees(fields: Seq<(String, serde_json::Value)>) -> Seq<(Seq<char>, Tree)> {
    fields.map_values(|f: (String, serde_json::Value)| (f.0@, contents(f.1)))
}

/// `serde_json::Map` collected from its fields, as a `serde_json::Value`. The map is a
/// `BTreeMap`: keys ascending, and the last of two fields with one key stays.
#[verifier::external_body]
pub(crate) fn object_of(fields: Vec<(String, serde_json::Value)>) -> (value: serde_json::Value)
    ensures
        contents(value) == Tree::Object(collected(field_trees(fields@))),
{
    serde_json::Value::Object(fields.into_iter().collect())
}

/// `serde_json::Value::Array` of its items.
#[verifier::external_body]
pub(crate) fn array_of(items: Vec<serde_json::Value>) -> (value: serde_json::Value)
    ensures
        contents(value) == Tree::Array(items@.map_values(|v: serde_json::Value| contents(v))),
{
    serde_json::Value::Array(items)
}

/// `serde_json::Value::String` of a text.
#[verifier::external_body]
pub(crate) fn text_of(s: String) -> (value: serde_json::Value)
    ensures
        contents(value) == Tree::Text(s@),
{
    serde_json::Value::String(s)
}

/// A whole number, or null.
pub open spec fn count_tree(n: Option<u64>) -> Tree {
    match n {
        Some(x) => Tree::Number(Some(x), text::decimal_spec(x as nat)),
        None => Tree::Null,
    }
}

/// `serde_json::Value::from` of a whole number that may be missing: the number, spelled in
/// decimal, or null.
#[verifier::external_body]
pub(crate) fn count_of(n: Option<u64>) -> (value: serde_json::Value)
    ensures
        contents(value) == count_tree(n),
{
    serde_json::Value::from(n)
}

/// The compact text `serde_json::to_string` writes a value as.
pub uninterp spec fn written(tree: Tree) -> Seq<char>;

/// Whether a number is a whole one: its text has neither a point nor an exponent.
pub open spec fn is_whole(number: Seq<char>) -> bool {
    !number.contains('.') && !number.contains('e')
}

/// Whether every number is a whole one.
pub open spec fn whole_only(tree: Tree) -> bool
    decreases tree,
{
    match tree {
        Tree::Number(n, s) => n is Some || is_whole(s),
        Tree::Array(items) => forall|i: int| 0 <= i < items.len() ==> whole_only(#[trigger] items[i]),
        Tree::Object(fields) => forall|i: int|
            0 <= i < fields.len() ==> whole_only((#[trigger] fields[i]).1),
        _ => true,
    }
}

/// The key by which an object stands for the value its text spells: the parser reads an object
/// that begins with it as that value.
pub open spec fn raw_key() -> Seq<char> {
    "$serde_json::private::RawValue"@
}

/// Whether no object has the key that makes it stand for something else.
pub open spec fn no_raw_key(tree: Tree) -> bool
    decreases tree,
{
    match tree {
        Tree::Array(items) => forall|i: int| 0 <= i < items.len() ==> no_raw_key(#[trigger] items[i]),
        Tree::Object(fields) => forall|i: int|
            0 <= i < fields.len() ==> (#[trigger] fields[i]).0 != raw_key() && no_raw_key(
                fields[i].1,
            ),
        _ => true,
    }
}

/// Whether a value, written out, is read back as itself: its numbers are whole, no more than 127
/// arrays and objects stand inside one another, and no object stands for something else.
pub open spec fn reads_back(tree: Tree) -> bool {
    whole_only(tree) && depth(tree) <= 127 && no_raw_key(tree)
}

/// Whether an object's fields, written out, are read back as themselves by a reader of objects,
/// to which every key of the outermost one is an ordinary key.
pub open spec fn fields_read_back(fields: Seq<(Seq<char>, Tree)>) -> bool {
    &&& whole_only(Tree::Object(fields))
    &&& depth(Tree::Object(fields)) <= 127
    &&& forall|i: int| 0 <= i < fields.len() ==> no_raw_key((#[trigger] fields[i]).1)
}

/// `serde_json::to_string` of a `serde_json::Value`, which always succeeds. What it writes is
/// read back as the same value, or an object as the same fields, where the parser takes that many
/// arrays and objects inside one another and no object read as a value has the key that the
/// parser keeps for itself. Of numbers with a point
/// or an exponent nothing is said there: the parser may be off in their last place.
#[verifier::external_body]
pub(crate) fn write_value(value: &serde_json::Value) -> (text: Option<String>)
    ensures
        match text {
            Some(s) => s@ == written(contents(*value)) && (reads_back(contents(*value))
                ==> json_text(encode_utf8(s@)) == Some(contents(*value))) && (contents(
                *value,
            ) matches Tree::Object(fields) ==> fields_read_back(fields) ==> object_text(
                encode_utf8(s@),
            ) == Some(fields)),
            None => false,
        },
{
    serde_json::to_string(value).ok()
}

/// Fields that are in order already are collected as they are.
pub proof fn lemma_collected_in_order(fields: Seq<(Seq<char>, Tree)>)
    requires
        ascending_keys(fields),
    ensures
        collected(fields) == fields,
    decreases fields.len(),
{
    if fields.len() > 0 {
        let rest = fields.drop_last();
        assert(ascending_keys(rest)) by {
            assert forall|i: int, j: int| 0 <= i < j < rest.len() implies text::precedes(
                (#[trigger] rest[i]).0,
                (#[trigger] rest[j]).0,
            ) by {
                assert(rest[i] == fields[i] && rest[j] == fields[j]);
            }
        }
        lemma_collected_in_order(rest);
        if rest.len() > 0 {
            assert(rest.last() == fields[fields.len() - 2]);
        }
        assert(fields =~= rest.push(fields.last()));
    }
}

/// The whole value, level by level.
fn json_of(value: serde_json::Value) -> (json: Json)
    ensures
        json.tree() == contents(value),
        json.tree() matches Tree::Object(fields) ==> ascending_keys(fields),
    decreases contents(value),
{
    let ghost whole = contents(value);
    match node_of(value) {
        Node::Null => Json::Null,
        Node::Bool(b) => Json::Bool(b),
        Node::Number(n, s) => Json::Number(n, s),
        Node::Text(s) => Json::Text(s),
        Node::Array(items) => {
            let ghost parts = items@;
            let mut out: Vec<Json> = Vec::new();
            for v in it: items
                invariant
                    it.seq() == parts,
                    out@.len() == it.index(),
                    whole == contents(value),
                    whole == Tree::Array(parts.map_values(|v: serde_json::Value| contents(v))),
                    forall|k: int|
                        0 <= k < out@.len() ==> (#[trigger] out@[k]).tree() == contents(parts[k]),
            {
                proof {
                    let at = it.index() as int;
                    assert(contents(v) == whole->Array_0[at]);
                    assert(decreases_to!(whole => whole->Array_0));
                    assert(decreases_to!(whole->Array_0 => whole->Array_0[at]));
                }
                out.push(json_of(v));
            }
            let json = Json::Array(out);
            assert(json.tree()->Array_0 =~= parts.map_values(|v: serde_json::Value| contents(v)));
            json
        },
        Node::Object(fields) => {
            let ghost parts = fields@;
            let ghost trees = parts.map_values(|f: (String, serde_json::Value)| (f.0@, contents(f.1)));
            let mut out: Vec<(String, Json)> = Vec::new();
            for f in it: fields
                invariant
                    it.seq() == parts,
                    out@.len() == it.index(),
                    trees == parts.map_values(
                        |f: (String, serde_json::Value)| (f.0@, contents(f.1)),
                    ),
                    whole == contents(value),
                    whole == Tree::Object(trees),
                    forall|k: int|
                        0 <= k < out@.len() ==> (#[trigger] out@[k]).0@ == parts[k].0@
                            && out@[k].1.tree() == contents(parts[k].1),
            {
                proof {
                    let at = it.index() as int;
                    assert(contents(f.1) == whole->Object_0[at].1);
                    assert(decreases_to!(whole => whole->Object_0));
                    assert(decreases_to!(whole->Object_0 => whole->Object_0[at]));
                    assert(decreases_to!(whole->Object_0[at] => whole->Object_0[at].1));
                }
                out.push((f.0, json_of(f.1)));
            }
            let json = Json::Object(out);
            assert(json.tree()->Object_0 =~= trees);
            json
        },
    }
}

/// Whether two values hold the same.
pub fn same_json(a: &Json, b: &Json) -> (yes: bool)
    ensures
        yes == (a.tree() == b.tree()),
    decreases a,
{
    match (a, b) {
        (Json::Null, Json::Null) => true,
        (Json::Bool(x), Json::Bool(y)) => *x == *y,
        (Json::Number(m, x), Json::Number(n, y)) => {
            let same_count = match (m, n) {
                (Some(p), Some(q)) => *p == *q,
                (None, None) => true,
                _ => false,
            };
            same_count && text::same(x.as_str(), y.as_str())
        },
        (Json::Text(x), Json::Text(y)) => text::same(x.as_str(), y.as_str()),
        (Json::Array(x), Json::Array(y)) => {
            if x.len() != y.len() {
                assert(a.tree()->Array_0.len() != b.tree()->Array_0.len());
                return false;
            }
            let mut i: usize = 0;
            while i < x.len()
                invariant
                    i <= x@.len(),
                    x@.len() == y@.len(),
                    a == Json::Array(*x),
                    b == Json::Array(*y),
                    forall|k: int| 0 <= k < i ==> (#[trigger] x@[k]).tree() == y@[k].tree(),
                decreases x.len() - i,
            {
                if !same_json(&x[i], &y[i]) {
                    assert(a.tree()->Array_0[i as int] != b.tree()->Array_0[i as int]);
                    return false;
                }
                i = i + 1;
            }
            assert(a.tree()->Array_0 =~= b.tree()->Array_0);
            true
        },
        (Json::Object(x), Json::Object(y)) => {
            if x.len() != y.len() {
                assert(a.tree()->Object_0.len() != b.tree()->Object_0.len());
                return false;
            }
            let mut i: usize = 0;
            while i < x.len()
                invariant
                    i <= x@.len(),
                    x@.len() == y@.len(),
                    a == Json::Object(*x),
                    b == Json::Object(*y),
                    forall|k: int|
                        0 <= k < i ==> (#[trigger] x@[k]).0@ == y@[k].0@ && x@[k].1.tree()
                            == y@[k].1.tree(),
                decreases x.len() - i,
            {
                if !text::same(x[i].0.as_str(), y[i].0.as_str()) || !same_json(&x[i].1, &y[i].1) {
                    assert(a.tree()->Object_0[i as int] != b.tree()->Object_0[i as int]);
                    return false;
                }
                i = i + 1;
            }
            assert(a.tree()->Object_0 =~= b.tree()->Object_0);
            true
        },
        _ => false,
    }
}

/// The first field of a key, at or after `from`.
pub open spec fn field_index(fields: Seq<(Seq<char>, Tree)>, key: Seq<char>, from: int) -> Option<
    int,
>
    decreases fields.len() - from,
{
    if from < 0 || from >= fields.len() {
        None
    } else if fields[from].0 == key {
        Some(from)
    } else {
        field_index(fields, key, from + 1)
    }
}

impl Tree {
    /// Whether it is an object that holds something under a key.
    pub open spec fn has(self, key: Seq<char>) -> bool {
        self matches Tree::Object(fields) && field_index(fields, key, 0) is Some
    }

    /// What an object holds under a key; null where it holds nothing, or is no object.
    pub open spec fn field(self, key: Seq<char>) -> Tree {
        match self {
            Tree::Object(fields) => match field_index(fields, key, 0) {
                Some(i) => fields[i].1,
                None => Tree::Null,
            },
            _ => Tree::Null,
        }
    }

    pub open spec fn as_u64(self) -> Option<u64> {
        match self {
            Tree::Number(n, _) => n,
            _ => None,
        }
    }
}

impl Json {
    /// What a `serde_json::Value` holds.
    pub fn of_value(value: serde_json::Value) -> (json: Json)
        ensures
            json.tree() == contents(value),
            json.tree() matches Tree::Object(fields) ==> ascending_keys(fields),
    {
        json_of(value)
    }

    /// Parses a JSON text; nothing for one that is not JSON.
    pub fn parse(bytes: &[u8]) -> (json: Option<Json>)
        ensures
            match json {
                Some(j) => json_text(bytes@) == Some(j.tree()) && (j.tree() matches Tree::Object(
                    fields,
                ) ==> ascending_keys(fields)),
                None => json_text(bytes@) is None,
            },
    {
        match parse_value(bytes) {
            Some(value) => Some(json_of(value)),
            None => None,
        }
    }

    /// Parses the JSON text of an object; nothing for one that is not JSON, or no object.
    pub fn parse_object(bytes: &[u8]) -> (json: Option<Json>)
        ensures
            match json {
                Some(j) => j.tree() matches Tree::Object(fields) && object_text(bytes@) == Some(
                    fields,
                ) && ascending_keys(fields),
                None => object_text(bytes@) is None,
            },
    {
        let fields: Vec<(String, serde_json::Value)> = match self::parse_object(bytes) {
            Some(fields) => fields,
            None => return None,
        };
        let ghost trees = field_trees(fields@);
        let ghost parts = fields@;
        let mut out: Vec<(String, Json)> = Vec::new();
        for f in it: fields
            invariant
                it.seq() == parts,
                trees == field_trees(parts),
                out@.len() == it.index(),
                forall|k: int|
                    0 <= k < out@.len() ==> (#[trigger] out@[k]).0@ == parts[k].0@
                        && out@[k].1.tree() == contents(parts[k].1),
        {
            out.push((f.0, json_of(f.1)));
        }
        let json = Json::Object(out);
        assert(json.tree()->Object_0 =~= trees);
        Some(json)
    }

    /// What an object holds under a key.
    pub fn get<'a>(&'a self, key: &str) -> (value: Option<&'a Json>)
        ensures
            match value {
                Some(j) => self.tree().has(key@) && self.tree().field(key@) == j.tree(),
                None => !self.tree().has(key@) && self.tree().field(key@) is Null,
            },
    {
        match self {
            Json::Object(fields) => {
                let ghost trees = self.tree()->Object_0;
                let mut i: usize = 0;
                while i < fields.len()
                    invariant
                        i <= fields@.len(),
                        self.tree() == Tree::Object(trees),
                        trees.len() == fields@.len(),
                        forall|k: int|
                            0 <= k < fields@.len() ==> #[trigger] trees[k] == (
                                fields@[k].0@,
                                fields@[k].1.tree(),
                            ),
                        field_index(trees, key@, 0) == field_index(trees, key@, i as int),
                    decreases fields.len() - i,
                {
                    assert(trees[i as int] == (fields@[i as int].0@, fields@[i as int].1.tree()));
                    if text::same(fields[i].0.as_str(), key) {
                        return Some(&fields[i].1);
                    }
                    i = i + 1;
                }
                None
            },
            _ => None,
        }
    }

    pub fn as_str<'a>(&'a self) -> (s: Option<&'a str>)
        ensures
            match s {
                Some(t) => self.tree() == Tree::Text(t@),
                None => !(self.tree() is Text),
            },
    {
        match self {
            Json::Text(t) => Some(t.as_str()),
            _ => None,
        }
    }

    pub fn as_array<'a>(&'a self) -> (items: Option<&'a Vec<Json>>)
        ensures
            match items {
                Some(list) => self.tree() matches Tree::Array(trees) && trees.len() == list@.len()
                    && forall|i: int|
                    0 <= i < list@.len() ==> (#[trigger] list@[i]).tree() == trees[i],
                None => !(self.tree() is Array),
            },
    {
        match self {
            Json::Array(items) => Some(items),
            _ => None,
        }
    }

    pub fn as_bool(&self) -> (b: Option<bool>)
        ensures
            match b {
                Some(value) => self.tree() == Tree::Bool(value),
                None => !(self.tree() is Bool),
            },
    {
        match self {
            Json::Bool(b) => Some(*b),
            _ => None,
        }
    }

    pub fn as_object<'a>(&'a self) -> (fields: Option<&'a Vec<(String, Json)>>)
        ensures
            match fields {
                Some(list) => self.tree() matches Tree::Object(trees) && trees.len() == list@.len()
                    && forall|i: int|
                    0 <= i < list@.len() ==> ((#[trigger] list@[i]).0@, list@[i].1.tree())
                        == trees[i],
                None => !(self.tree() is Object),
            },
    {
        match self {
            Json::Object(fields) => Some(fields),
            _ => None,
        }
    }

    pub fn as_u64(&self) -> (n: Option<u64>)
        ensures
            n == self.tree().as_u64(),
    {
        match self {
            Json::Number(n, _) => *n,
            _ => None,
        }
    }
}

/// An object gives what it holds under a key, the first field of it; nothing for a key it has not,
/// nor anything but an object for any key.
pub proof fn law_a_key_finds_its_first_field(
    before: Seq<(Seq<char>, Tree)>,
    key: Seq<char>,
    value: Tree,
    after: Seq<(Seq<char>, Tree)>,
    other: Tree,
)
    requires
        forall|i: int| 0 <= i < before.len() ==> (#[trigger] before[i]).0 != key,
    ensures
        Tree::Object(before + seq![(key, value)] + after).field(key) == value,
        Tree::Object(before + seq![(key, value)] + after).has(key),
        Tree::Object(before).field(key) == Tree::Null,
        !Tree::Object(before).has(key),
        !(other is Object) ==> other.field(key) == Tree::Null && !other.has(key),
{
    let whole = before + seq![(key, value)] + after;
    let n = before.len() as int;
    assert(whole[n] == (key, value));
    assert forall|i: int| 0 <= i < n implies (#[trigger] whole[i]).0 != key by {
        assert(whole[i] == before[i]);
    }
    lemma_field_from(whole, key, n, 0);
    lemma_no_field_from(before, key, 0);
}

proof fn lemma_field_from(fields: Seq<(Seq<char>, Tree)>, key: Seq<char>, n: int, from: int)
    requires
        0 <= from <= n < fields.len(),
        fields[n].0 == key,
        forall|i: int| 0 <= i < n ==> (#[trigger] fields[i]).0 != key,
    ensures
        field_index(fields, key, from) == Some(n),
    decreases n - from,
{
    if from < n {
        lemma_field_from(fields, key, n, from + 1);
    }
}

proof fn lemma_no_field_from(fields: Seq<(Seq<char>, Tree)>, key: Seq<char>, from: int)
    requires
        0 <= from <= fields.len(),
        forall|i: int| 0 <= i < fields.len() ==> (#[trigger] fields[i]).0 != key,
    ensures
        field_index(fields, key, from) is None,
    decreases fields.len() - from,
{
    if from < fields.len() {
        lemma_no_field_from(fields, key, from + 1);
    }
}

/// A number is the whole one it is, where it is one, and nothing else is a number.
pub proof fn law_only_whole_numbers_count(tree: Tree, n: u64, s: Seq<char>)
    ensures
        Tree::Number(Some(n), s).as_u64() == Some(n),
        Tree::Number(None, s).as_u64() is None,
        !(tree is Number) ==> tree.as_u64() is None,
        count_tree(Some(n)).as_u64() == Some(n),
        count_tree(None) == Tree::Null,
{
}

/// Of several fields with one key the last is kept, and nothing else is lost or added.
pub proof fn law_the_last_field_of_a_key_is_kept(
    before: Seq<(Seq<char>, Tree)>,
    field: (Seq<char>, Tree),
    key: Seq<char>,
)
    ensures
        Tree::Object(collected(before.push(field))).field(field.0) == field.1,
        Tree::Object(collected(before.push(field))).has(field.0),
        key != field.0 ==> Tree::Object(collected(before.push(field))).field(key) == Tree::Object(
            collected(before),
        ).field(key),
        key != field.0 ==> Tree::Object(collected(before.push(field))).has(key) == Tree::Object(
            collected(before),
        ).has(key),
        !Tree::Object(collected(Seq::empty())).has(key),
        ascending_keys(collected(before)),
{
    assert(before.push(field).drop_last() =~= before);
    lemma_collected_ascends(before);
    let have = collected(before);
    lemma_inserted_ascends(have, field);
    lemma_inserted_field(have, field, field.0);
    lemma_inserted_field(have, field, key);
    assert(field_index(collected(Seq::empty()), key, 0) is None);
}

proof fn lemma_collected_ascends(fields: Seq<(Seq<char>, Tree)>)
    ensures
        ascending_keys(collected(fields)),
    decreases fields.len(),
{
    if fields.len() > 0 {
        lemma_collected_ascends(fields.drop_last());
        lemma_inserted_ascends(collected(fields.drop_last()), fields.last());
    }
}

proof fn lemma_inserted_ascends(fields: Seq<(Seq<char>, Tree)>, field: (Seq<char>, Tree))
    requires
        ascending_keys(fields),
    ensures
        ascending_keys(inserted(fields, field)),
        forall|key: Seq<char>|
            #![trigger text::precedes(inserted(fields, field).last().0, key)]
            (fields.len() > 0 ==> text::precedes(fields.last().0, key)) && text::precedes(
                field.0,
                key,
            ) ==> text::precedes(inserted(fields, field).last().0, key),
        inserted(fields, field).len() > 0,
    decreases fields.len(),
{
    let now = inserted(fields, field);
    if fields.len() == 0 {
    } else {
        let last = fields.last();
        let rest = fields.drop_last();
        text::lemma_order_is_total(last.0, field.0);
        if text::precedes(last.0, field.0) {
            assert forall|i: int, j: int| 0 <= i < j < now.len() implies text::precedes(
                (#[trigger] now[i]).0,
                (#[trigger] now[j]).0,
            ) by {
                if j == fields.len() && i < fields.len() - 1 {
                    assert(text::precedes(fields[i].0, fields[fields.len() - 1].0));
                    lemma_before(fields[i].0, last.0, field.0);
                } else if j < fields.len() {
                    assert(text::precedes(fields[i].0, fields[j].0));
                }
            }
        } else if last.0 == field.0 {
            assert forall|i: int, j: int| 0 <= i < j < now.len() implies text::precedes(
                (#[trigger] now[i]).0,
                (#[trigger] now[j]).0,
            ) by {
                assert(text::precedes(fields[i].0, fields[j].0));
            }
        } else {
            assert forall|i: int, j: int| 0 <= i < j < rest.len() implies text::precedes(
                (#[trigger] rest[i]).0,
                (#[trigger] rest[j]).0,
            ) by {
                assert(text::precedes(fields[i].0, fields[j].0));
            }
            lemma_inserted_ascends(rest, field);
            let part = inserted(rest, field);
            if rest.len() > 0 {
                assert(text::precedes(fields[rest.len() - 1].0, fields[rest.len() as int].0));
            }
            assert(text::precedes(part.last().0, last.0));
            assert forall|i: int, j: int| 0 <= i < j < now.len() implies text::precedes(
                (#[trigger] now[i]).0,
                (#[trigger] now[j]).0,
            ) by {
                if j == part.len() {
                    if i < part.len() - 1 {
                        assert(text::precedes(part[i].0, part[part.len() - 1].0));
                        lemma_before(part[i].0, part.last().0, last.0);
                    }
                } else {
                    assert(text::precedes(part[i].0, part[j].0));
                }
            }
        }
    }
}

proof fn lemma_before(a: Seq<char>, b: Seq<char>, c: Seq<char>)
    requires
        text::precedes(a, b),
        text::precedes(b, c),
    ensures
        text::precedes(a, c),
{
    text::lemma_order_is_total(a, b);
    text::lemma_order_is_total(b, c);
    text::lemma_order_is_transitive(a, b, c);
    text::lemma_order_is_total(a, c);
}

/// The value a run of fields has under a key, where keys are not repeated.
spec fn kept(fields: Seq<(Seq<char>, Tree)>, key: Seq<char>, value: Tree) -> bool {
    exists|i: int| 0 <= i < fields.len() && #[trigger] fields[i] == (key, value)
}

proof fn lemma_kept(fields: Seq<(Seq<char>, Tree)>, key: Seq<char>, from: int)
    requires
        0 <= from,
    ensures
        match field_index(fields, key, from) {
            Some(i) => from <= i < fields.len() && fields[i].0 == key,
            None => forall|i: int| from <= i < fields.len() ==> (#[trigger] fields[i]).0 != key,
        },
    decreases fields.len() - from,
{
    if from < fields.len() {
        lemma_kept(fields, key, from + 1);
    }
}

proof fn lemma_inserted_kept(
    fields: Seq<(Seq<char>, Tree)>,
    field: (Seq<char>, Tree),
    key: Seq<char>,
    value: Tree,
)
    requires
        ascending_keys(fields),
    ensures
        kept(inserted(fields, field), key, value) == if key == field.0 {
            value == field.1
        } else {
            kept(fields, key, value)
        },
    decreases fields.len(),
{
    let now = inserted(fields, field);
    if fields.len() == 0 {
        assert(now[0] == field);
    } else {
        let last = fields.last();
        let rest = fields.drop_last();
        text::lemma_order_is_total(last.0, field.0);
        if text::precedes(last.0, field.0) || last.0 == field.0 {
            let at = now.len() - 1;
            assert(now[at] == field);
            assert forall|i: int| 0 <= i < at implies (#[trigger] now[i]) == fields[i] && now[i].0
                != field.0 by {
                if i < fields.len() - 1 {
                    assert(text::precedes(fields[i].0, fields[fields.len() - 1].0));
                    if text::precedes(last.0, field.0) {
                        lemma_before(fields[i].0, last.0, field.0);
                    }
                }
                text::lemma_order_is_total(fields[i].0, field.0);
            }
            if key != field.0 && kept(fields, key, value) {
                let i = choose|i: int| 0 <= i < fields.len() && #[trigger] fields[i] == (key, value);
                assert(now[i] == (key, value));
            }
        } else {
            assert forall|i: int, j: int| 0 <= i < j < rest.len() implies text::precedes(
                (#[trigger] rest[i]).0,
                (#[trigger] rest[j]).0,
            ) by {
                assert(text::precedes(fields[i].0, fields[j].0));
            }
            lemma_inserted_kept(rest, field, key, value);
            let part = inserted(rest, field);
            assert(now[part.len() as int] == last);
            assert(fields[rest.len() as int] == last);
            if kept(part, key, value) {
                let i = choose|i: int| 0 <= i < part.len() && #[trigger] part[i] == (key, value);
                assert(now[i] == (key, value));
            }
            if kept(now, key, value) {
                let i = choose|i: int| 0 <= i < now.len() && #[trigger] now[i] == (key, value);
                if i < part.len() {
                    assert(part[i] == (key, value));
                }
            }
            if kept(rest, key, value) {
                let i = choose|i: int| 0 <= i < rest.len() && #[trigger] rest[i] == (key, value);
                assert(fields[i] == (key, value));
            }
            if kept(fields, key, value) {
                let i = choose|i: int| 0 <= i < fields.len() && #[trigger] fields[i] == (key, value);
                if i < rest.len() {
                    assert(rest[i] == (key, value));
                }
            }
        }
    }
}

proof fn lemma_inserted_field(
    fields: Seq<(Seq<char>, Tree)>,
    field: (Seq<char>, Tree),
    key: Seq<char>,
)
    requires
        ascending_keys(fields),
    ensures
        ({
            let (was, now) = (Tree::Object(fields), Tree::Object(inserted(fields, field)));
            &&& key == field.0 ==> now.has(key) && now.field(key) == field.1
            &&& key != field.0 ==> now.has(key) == was.has(key) && now.field(key) == was.field(key)
        }),
{
    let list = inserted(fields, field);
    lemma_kept(fields, key, 0);
    lemma_kept(list, key, 0);
    if key == field.0 {
        lemma_inserted_kept(fields, field, key, field.1);
        let i = choose|i: int| 0 <= i < list.len() && #[trigger] list[i] == (key, field.1);
        assert(list[i].0 == key);
        let at = field_index(list, key, 0)->0;
        lemma_inserted_kept(fields, field, key, list[at].1);
        assert(list[at] == (key, list[at].1));
        assert(kept(list, key, list[at].1));
    } else {
        if field_index(list, key, 0) is Some {
            let at = field_index(list, key, 0)->0;
            lemma_inserted_kept(fields, field, key, list[at].1);
            assert(list[at] == (key, list[at].1));
            assert(kept(list, key, list[at].1));
            let i = choose|i: int|
                0 <= i < fields.len() && #[trigger] fields[i] == (key, list[at].1);
            assert(fields[i].0 == key);
            let was = field_index(fields, key, 0)->0;
            if i < was {
                assert(text::precedes(fields[i].0, fields[was].0));
            } else if was < i {
                assert(text::precedes(fields[was].0, fields[i].0));
            }
            text::lemma_order_is_total(key, key);
        } else if field_index(fields, key, 0) is Some {
            let was = field_index(fields, key, 0)->0;
            lemma_inserted_kept(fields, field, key, fields[was].1);
            assert(fields[was] == (key, fields[was].1));
            assert(kept(fields, key, fields[was].1));
            let i = choose|i: int|
                0 <= i < list.len() && #[trigger] list[i] == (key, fields[was].1);
            assert(list[i].0 == key);
        }
    }
}

} // verus!
