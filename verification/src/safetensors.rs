//! A reader for the `safetensors` container.
//!
//! Eight little-endian bytes of header length, a JSON header mapping each tensor name to its
//! `dtype`, `shape` and byte range, and the tensor bytes after it, in row-major order. Only
//! `F32`, `F16` and `BF16` are read, and every tensor comes back as single-precision bit
//! patterns.

use vstd::prelude::*;
use vstd::string::*;
use crate::ieee;
use crate::ieee::{brain_to_single, half_to_single, read_le16, read_le32};
use crate::json;
use crate::json::Json;
use crate::text;

verus! {

/// One tensor's entry in the header.
#[derive(Debug, Clone, PartialEq, Eq)]
pub struct TensorInfo {
    pub dtype: String,
    pub shape: Vec<usize>,
    /// Byte range inside the data section, after the header.
    pub begin: usize,
    pub end: usize,
}

/// A [`TensorInfo`] by the values it holds.
#[verifier::ext_equal]
pub struct Info {
    pub dtype: Seq<char>,
    pub shape: Seq<usize>,
    pub begin: usize,
    pub end: usize,
}

impl View for TensorInfo {
    type V = Info;

    open spec fn view(&self) -> Info {
        Info { dtype: self.dtype@, shape: self.shape@, begin: self.begin, end: self.end }
    }
}

/// Why a file cannot be read, or a tensor not be given.
#[derive(Debug, Clone, PartialEq, Eq)]
pub enum TensorError {
    TooShort,
    /// The header length the file gives, past its end.
    HeaderLength(usize),
    /// The header is not a JSON object.
    Header,
    NoDtype(String),
    NoShape(String),
    Dimension(String),
    NoOffsets(String),
    /// Name, begin and end.
    Range(String, usize, usize),
    /// Name and stored type.
    Unread(String, String),
    /// Name, elements, stored type and bytes. A count past the largest `usize` is held as that.
    Unfilled(String, usize, String, usize),
    Missing(String),
}

/// A [`TensorError`] by the values it holds.
#[verifier::ext_equal]
pub enum Flaw {
    TooShort,
    HeaderLength(int),
    Header,
    NoDtype(Seq<char>),
    NoShape(Seq<char>),
    Dimension(Seq<char>),
    NoOffsets(Seq<char>),
    Range(Seq<char>, int, int),
    Unread(Seq<char>, Seq<char>),
    Unfilled(Seq<char>, int, Seq<char>, int),
    Missing(Seq<char>),
}

impl View for TensorError {
    type V = Flaw;

    open spec fn view(&self) -> Flaw {
        match self {
            TensorError::TooShort => Flaw::TooShort,
            TensorError::HeaderLength(n) => Flaw::HeaderLength(*n as int),
            TensorError::Header => Flaw::Header,
            TensorError::NoDtype(name) => Flaw::NoDtype(name@),
            TensorError::NoShape(name) => Flaw::NoShape(name@),
            TensorError::Dimension(name) => Flaw::Dimension(name@),
            TensorError::NoOffsets(name) => Flaw::NoOffsets(name@),
            TensorError::Range(name, a, b) => Flaw::Range(name@, *a as int, *b as int),
            TensorError::Unread(name, dtype) => Flaw::Unread(name@, dtype@),
            TensorError::Unfilled(name, n, dtype, bytes) => Flaw::Unfilled(
                name@,
                *n as int,
                dtype@,
                *bytes as int,
            ),
            TensorError::Missing(name) => Flaw::Missing(name@),
        }
    }
}

impl Flaw {
    /// What the user is told.
    pub open spec fn message(self) -> Seq<char> {
        match self {
            Flaw::TooShort => "file is too short to be a safetensors file"@,
            Flaw::HeaderLength(n) => "safetensors header length "@ + text::decimal_spec(n as nat)
                + " exceeds the file"@,
            Flaw::Header => "parsing safetensors header"@,
            Flaw::NoDtype(name) => "tensor '"@ + name + "' has no dtype"@,
            Flaw::NoShape(name) => "tensor '"@ + name + "' has no shape"@,
            Flaw::Dimension(name) => "tensor '"@ + name + "' has a non-integer dimension"@,
            Flaw::NoOffsets(name) => "tensor '"@ + name + "' has no data_offsets"@,
            Flaw::Range(name, begin, end) => "tensor '"@ + name + "' has byte range "@
                + text::decimal_spec(begin as nat) + ".."@ + text::decimal_spec(end as nat)
                + " outside the data section"@,
            Flaw::Unread(name, dtype) => "tensor '"@ + name + "' is stored as "@ + dtype
                + ", which this reader does not read"@,
            Flaw::Unfilled(name, n, dtype, bytes) => "tensor '"@ + name + "': "@
                + text::decimal_spec(n as nat) + " "@ + dtype + " elements do not fill "@
                + text::decimal_spec(bytes as nat) + " bytes"@,
            Flaw::Missing(name) => "safetensors file is missing tensor '"@ + name + "'"@,
        }
    }
}

fn put_number(out: &mut String, n: usize)
    ensures
        final(out)@ == old(out)@ + text::decimal_spec(n as nat),
{
    let digits = text::decimal(n as u64);
    out.append(digits.as_str());
}

impl TensorError {
    /// What the user is told.
    pub fn message(&self) -> (s: String)
        ensures
            s@ == self@.message(),
    {
        let mut out = String::new();
        match self {
            TensorError::TooShort => {
                out.append("file is too short to be a safetensors file");
            },
            TensorError::HeaderLength(n) => {
                out.append("safetensors header length ");
                put_number(&mut out, *n);
                out.append(" exceeds the file");
            },
            TensorError::Header => {
                out.append("parsing safetensors header");
            },
            TensorError::NoDtype(name) => {
                out.append("tensor '");
                out.append(name.as_str());
                out.append("' has no dtype");
            },
            TensorError::NoShape(name) => {
                out.append("tensor '");
                out.append(name.as_str());
                out.append("' has no shape");
            },
            TensorError::Dimension(name) => {
                out.append("tensor '");
                out.append(name.as_str());
                out.append("' has a non-integer dimension");
            },
            TensorError::NoOffsets(name) => {
                out.append("tensor '");
                out.append(name.as_str());
                out.append("' has no data_offsets");
            },
            TensorError::Range(name, begin, end) => {
                out.append("tensor '");
                out.append(name.as_str());
                out.append("' has byte range ");
                put_number(&mut out, *begin);
                out.append("..");
                put_number(&mut out, *end);
                out.append(" outside the data section");
            },
            TensorError::Unread(name, dtype) => {
                out.append("tensor '");
                out.append(name.as_str());
                out.append("' is stored as ");
                out.append(dtype.as_str());
                out.append(", which this reader does not read");
            },
            TensorError::Unfilled(name, n, dtype, bytes) => {
                out.append("tensor '");
                out.append(name.as_str());
                out.append("': ");
                put_number(&mut out, *n);
                out.append(" ");
                out.append(dtype.as_str());
                out.append(" elements do not fill ");
                put_number(&mut out, *bytes);
                out.append(" bytes");
            },
            TensorError::Missing(name) => {
                out.append("safetensors file is missing tensor '");
                out.append(name.as_str());
                out.append("'");
            },
        }
        assert(out@ =~= self@.message());
        out
    }
}

/// How many elements a shape has.
pub open spec fn product(shape: Seq<usize>) -> nat
    decreases shape.len(),
{
    if shape.len() == 0 { 1 } else { product(shape.drop_last()) * shape.last() as nat }
}

/// A count, or the largest `usize` where it is past that.
pub open spec fn capped(n: nat) -> usize {
    if n <= usize::MAX { n as usize } else { usize::MAX }
}

/// Bytes an element takes, for the types that are read.
pub open spec fn width_of(dtype: Seq<char>) -> Option<int> {
    if dtype == "F32"@ {
        Some(4)
    } else if dtype == "F16"@ || dtype == "BF16"@ {
        Some(2)
    } else {
        None
    }
}

/// The dimensions a list gives, where every item is a whole number.
pub open spec fn dimensions(items: Seq<json::Tree>) -> Option<Seq<usize>>
    decreases items.len(),
{
    if items.len() == 0 {
        Some(Seq::empty())
    } else {
        match (dimensions(items.drop_last()), items.last().as_u64()) {
            (Some(rest), Some(d)) => Some(rest.push(d as usize)),
            _ => None,
        }
    }
}

/// One end of a byte range; the largest there is where it is no whole number.
pub open spec fn offset_of(tree: json::Tree) -> usize {
    match tree.as_u64() {
        Some(n) => n as usize,
        None => u64::MAX as usize,
    }
}

/// What a header's entry for a tensor says, over a data section of a length, or the first thing
/// wrong with it.
pub open spec fn info_spec(name: Seq<char>, entry: json::Tree, data_len: int) -> Result<
    Info,
    Flaw,
> {
    let dtype = entry.field("dtype"@);
    let shape = entry.field("shape"@);
    let offsets = entry.field("data_offsets"@);
    if !(dtype is Text) {
        Err(Flaw::NoDtype(name))
    } else if !(shape is Array) {
        Err(Flaw::NoShape(name))
    } else if dimensions(shape->Array_0) is None {
        Err(Flaw::Dimension(name))
    } else if !(offsets is Array) || offsets->Array_0.len() != 2 {
        Err(Flaw::NoOffsets(name))
    } else {
        let begin = offset_of(offsets->Array_0[0]);
        let end = offset_of(offsets->Array_0[1]);
        let dims = dimensions(shape->Array_0)->0;
        if begin > end || end > data_len {
            Err(Flaw::Range(name, begin as int, end as int))
        } else if width_of(dtype->Text_0) is None {
            Err(Flaw::Unread(name, dtype->Text_0))
        } else if product(dims) * width_of(dtype->Text_0)->0 != end - begin {
            Err(
                Flaw::Unfilled(
                    name,
                    capped(product(dims)) as int,
                    dtype->Text_0,
                    end - begin,
                ),
            )
        } else {
            Ok(Info { dtype: dtype->Text_0, shape: dims, begin, end })
        }
    }
}

/// The tensors of the first `n` fields of a header, in their order, or the first thing wrong.
/// The field `__metadata__` is no tensor.
pub open spec fn tensors_spec(
    fields: Seq<(Seq<char>, json::Tree)>,
    data_len: int,
    n: int,
) -> Result<Seq<(Seq<char>, Info)>, Flaw>
    decreases n,
{
    if n <= 0 {
        Ok(Seq::empty())
    } else {
        match tensors_spec(fields, data_len, n - 1) {
            Err(flaw) => Err(flaw),
            Ok(done) => {
                let (name, entry) = fields[n - 1];
                if name == "__metadata__"@ {
                    Ok(done)
                } else {
                    match info_spec(name, entry, data_len) {
                        Err(flaw) => Err(flaw),
                        Ok(info) => Ok(done.push((name, info))),
                    }
                }
            },
        }
    }
}

proof fn lemma_dimensions_prefix(items: Seq<json::Tree>, i: int)
    requires
        0 <= i <= items.len(),
        dimensions(items.take(i)) is None,
    ensures
        dimensions(items) is None,
    decreases items.len() - i,
{
    if i < items.len() {
        assert(items.take(i + 1).drop_last() =~= items.take(i));
        lemma_dimensions_prefix(items, i + 1);
    } else {
        assert(items.take(i) =~= items);
    }
}

fn read_dimensions(items: &Vec<Json>, Ghost(trees): Ghost<Seq<json::Tree>>) -> (dims: Option<
    Vec<usize>,
>)
    requires
        trees.len() == items@.len(),
        forall|i: int| 0 <= i < items@.len() ==> (#[trigger] items@[i]).tree() == trees[i],
    ensures
        match dims {
            Some(d) => dimensions(trees) == Some(d@),
            None => dimensions(trees) is None,
        },
{
    let mut dims: Vec<usize> = Vec::new();
    let mut i: usize = 0;
    while i < items.len()
        invariant
            i <= items@.len(),
            trees.len() == items@.len(),
            forall|k: int| 0 <= k < items@.len() ==> (#[trigger] items@[k]).tree() == trees[k],
            dimensions(trees.take(i as int)) == Some(dims@),
        decreases items.len() - i,
    {
        assert(trees.take(i + 1).drop_last() =~= trees.take(i as int));
        assert(trees.take(i + 1).last() == items@[i as int].tree());
        match items[i].as_u64() {
            Some(d) => {
                dims.push(d as usize);
            },
            None => {
                proof {
                    lemma_dimensions_prefix(trees, i + 1);
                }
                return None;
            },
        }
        i = i + 1;
    }
    assert(trees.take(i as int) =~= trees);
    Some(dims)
}

/// How many elements a shape has, held at the largest `usize`.
fn count(shape: &Vec<usize>) -> (n: usize)
    ensures
        n == capped(product(shape@)),
{
    let mut n: usize = 1;
    let mut i: usize = 0;
    while i < shape.len()
        invariant
            i <= shape@.len(),
            n == capped(product(shape@.take(i as int))),
        decreases shape.len() - i,
    {
        let d: usize = shape[i];
        assert(shape@.take(i + 1).drop_last() =~= shape@.take(i as int));
        let ghost so_far = product(shape@.take(i as int));
        let ghost next = product(shape@.take(i + 1));
        assert(next == so_far * d as nat);
        proof {
            if so_far > usize::MAX {
                if d == 0 {
                    assert(so_far * 0 == 0) by (nonlinear_arith);
                } else {
                    assert(so_far * d as nat >= so_far) by (nonlinear_arith)
                        requires
                            d >= 1,
                    ;
                    assert(usize::MAX * d >= usize::MAX) by (nonlinear_arith)
                        requires
                            d >= 1,
                    ;
                }
            }
        }
        n = match n.checked_mul(d) {
            Some(m) => m,
            None => usize::MAX,
        };
        proof {
            if so_far > usize::MAX && d == 1 {
                assert(usize::MAX * 1 == usize::MAX);
            }
            if so_far > usize::MAX && d > 1 {
                assert(usize::MAX * d > usize::MAX) by (nonlinear_arith)
                    requires
                        d > 1,
                        usize::MAX > 0,
                ;
            }
        }
        i = i + 1;
    }
    assert(shape@.take(i as int) =~= shape@);
    n
}

/// Reads one entry of a header.
pub fn read_info(name: &str, entry: &Json, data_len: usize) -> (info: Result<
    TensorInfo,
    TensorError,
>)
    ensures
        match (info, info_spec(name@, entry.tree(), data_len as int)) {
            (Ok(i), Ok(model)) => i@ == model,
            (Err(e), Err(flaw)) => e@ == flaw,
            _ => false,
        },
{
    let ghost tree = entry.tree();
    let dtype = match entry.get("dtype") {
        Some(j) => match j.as_str() {
            Some(s) => s.to_owned(),
            None => {
                return Err(TensorError::NoDtype(name.to_owned()));
            },
        },
        None => {
            return Err(TensorError::NoDtype(name.to_owned()));
        },
    };
    let shape_items = match entry.get("shape") {
        Some(j) => match j.as_array() {
            Some(items) => items,
            None => {
                return Err(TensorError::NoShape(name.to_owned()));
            },
        },
        None => {
            return Err(TensorError::NoShape(name.to_owned()));
        },
    };
    let shape = match read_dimensions(
        shape_items,
        Ghost(tree.field("shape"@)->Array_0),
    ) {
        Some(dims) => dims,
        None => {
            return Err(TensorError::Dimension(name.to_owned()));
        },
    };
    let offsets = match entry.get("data_offsets") {
        Some(j) => match j.as_array() {
            Some(items) => items,
            None => {
                return Err(TensorError::NoOffsets(name.to_owned()));
            },
        },
        None => {
            return Err(TensorError::NoOffsets(name.to_owned()));
        },
    };
    if offsets.len() != 2 {
        return Err(TensorError::NoOffsets(name.to_owned()));
    }
    assert(offsets@[0].tree() == tree.field("data_offsets"@)->Array_0[0]);
    assert(offsets@[1].tree() == tree.field("data_offsets"@)->Array_0[1]);
    let begin: usize = match offsets[0].as_u64() {
        Some(n) => n as usize,
        None => u64::MAX as usize,
    };
    let end: usize = match offsets[1].as_u64() {
        Some(n) => n as usize,
        None => u64::MAX as usize,
    };
    if begin > end || end > data_len {
        return Err(TensorError::Range(name.to_owned(), begin, end));
    }
    let elements: usize = count(&shape);
    let width: usize = if text::same(dtype.as_str(), "F32") {
        4
    } else if text::same(dtype.as_str(), "F16") || text::same(dtype.as_str(), "BF16") {
        2
    } else {
        return Err(TensorError::Unread(name.to_owned(), dtype));
    };
    proof {
        let exact = product(shape@);
        if exact > usize::MAX {
            assert(exact * 4 > end - begin);
            assert(exact * 2 > end - begin);
        }
    }
    let filled: u128 = if width == 4 { 4 * elements as u128 } else { 2 * elements as u128 };
    if filled != (end - begin) as u128 {
        return Err(TensorError::Unfilled(name.to_owned(), elements, dtype, end - begin));
    }
    Ok(TensorInfo { dtype, shape, begin, end })
}

/// An open container: its bytes and where each tensor stands in them.
#[derive(Debug)]
pub struct SafeTensors<'a> {
    data: &'a [u8],
    data_start: usize,
    tensors: Vec<(String, TensorInfo)>,
}

/// Tensors by the values they hold.
pub open spec fn tensor_views(tensors: Seq<(String, TensorInfo)>) -> Seq<(Seq<char>, Info)> {
    tensors.map_values(|t: (String, TensorInfo)| (t.0@, t.1@))
}

/// The first tensor of a name, at or after `from`.
pub open spec fn tensor_index(tensors: Seq<(Seq<char>, Info)>, name: Seq<char>, from: int) -> Option<
    int,
>
    decreases tensors.len() - from,
{
    if from < 0 || from >= tensors.len() {
        None
    } else if tensors[from].0 == name {
        Some(from)
    } else {
        tensor_index(tensors, name, from + 1)
    }
}

/// An entry that lies inside a data section and fills its byte range.
pub open spec fn fits(info: Info, data_len: int) -> bool {
    &&& info.begin <= info.end <= data_len
    &&& width_of(info.dtype) matches Some(width) && product(info.shape) * width == info.end
        - info.begin
}

impl<'a> SafeTensors<'a> {
    /// The whole file.
    pub closed spec fn data(self) -> Seq<u8> {
        self.data@
    }

    /// Where the data section begins.
    pub closed spec fn data_start(self) -> int {
        self.data_start as int
    }

    /// Each tensor's name and entry.
    pub closed spec fn tensors(self) -> Seq<(Seq<char>, Info)> {
        tensor_views(self.tensors@)
    }

    /// Every tensor lies inside the data section and fills its byte range, and no name stands
    /// twice.
    pub open spec fn sound(self) -> bool {
        &&& 0 <= self.data_start() <= self.data().len()
        &&& forall|i: int|
            0 <= i < self.tensors().len() ==> fits(
                (#[trigger] self.tensors()[i]).1,
                self.data().len() - self.data_start(),
            )
        &&& forall|i: int, j: int|
            0 <= i < j < self.tensors().len() ==> (#[trigger] self.tensors()[i]).0 != (
            #[trigger] self.tensors()[j]).0
    }
}

proof fn lemma_tensors_flaw_stays(
    fields: Seq<(Seq<char>, json::Tree)>,
    data_len: int,
    i: int,
    n: int,
)
    requires
        0 <= i <= n,
        tensors_spec(fields, data_len, i) is Err,
    ensures
        tensors_spec(fields, data_len, n) == tensors_spec(fields, data_len, i),
    decreases n - i,
{
    if i < n {
        lemma_tensors_flaw_stays(fields, data_len, i, n - 1);
    }
}

/// The header a file holds, where its length fits: the JSON text after the first eight bytes.
pub open spec fn header_end(data: Seq<u8>) -> Option<int> {
    let end = 8 + (ieee::from_le64(data, 0) as usize);
    if end <= data.len() { Some(end) } else { None }
}

/// What a file's tensors are, or the first thing wrong with it.
pub open spec fn file_spec(data: Seq<u8>) -> Result<Seq<(Seq<char>, Info)>, Flaw> {
    if data.len() < 8 {
        Err(Flaw::TooShort)
    } else if header_end(data) is None {
        Err(Flaw::HeaderLength((ieee::from_le64(data, 0) as usize) as int))
    } else {
        let end = header_end(data)->0;
        match json::object_text(data.subrange(8, end)) {
            Some(fields) => tensors_spec(fields, data.len() - end, fields.len() as int),
            None => Err(Flaw::Header),
        }
    }
}

impl<'a> SafeTensors<'a> {
    /// Takes a file whose header has been parsed: every entry is checked against the data
    /// section, in the header's order.
    pub fn from_header(data: &'a [u8], data_start: usize, header: &Json) -> (file: Result<
        SafeTensors<'a>,
        TensorError,
    >)
        requires
            data_start <= data@.len(),
            header.tree() matches json::Tree::Object(fields) ==> json::ascending_keys(fields),
        ensures
            match (file, header.tree()) {
                (Ok(f), json::Tree::Object(fields)) => f.sound() && f.data() == data@
                    && f.data_start() == data_start && tensors_spec(
                    fields,
                    data@.len() - data_start,
                    fields.len() as int,
                ) == Ok::<Seq<(Seq<char>, Info)>, Flaw>(f.tensors()),
                (Err(e), json::Tree::Object(fields)) => tensors_spec(
                    fields,
                    data@.len() - data_start,
                    fields.len() as int,
                ) == Err::<Seq<(Seq<char>, Info)>, Flaw>(e@),
                (Err(e), _) => e@ == Flaw::Header,
                (Ok(_), _) => false,
            },
    {
        let list = match header {
            Json::Object(list) => list,
            _ => {
                return Err(TensorError::Header);
            },
        };
        let data_len: usize = data.len() - data_start;
        let ghost fields = header.tree()->Object_0;
        let mut tensors: Vec<(String, TensorInfo)> = Vec::new();
        let mut i: usize = 0;
        assert(tensor_views(tensors@) =~= Seq::<(Seq<char>, Info)>::empty());
        while i < list.len()
            invariant
                i <= list@.len(),
                header.tree() == json::Tree::Object(fields),
                fields.len() == list@.len(),
                forall|k: int|
                    0 <= k < list@.len() ==> #[trigger] fields[k] == (
                        list@[k].0@,
                        list@[k].1.tree(),
                    ),
                json::ascending_keys(fields),
                data_len == data@.len() - data_start,
                tensors_spec(fields, data_len as int, i as int) == Ok::<
                    Seq<(Seq<char>, Info)>,
                    Flaw,
                >(tensor_views(tensors@)),
                forall|k: int|
                    0 <= k < tensors@.len() ==> fits((#[trigger] tensors@[k]).1@, data_len as int),
                forall|a: int, b: int|
                    0 <= a < b < tensors@.len() ==> (#[trigger] tensors@[a]).0@ != (
                    #[trigger] tensors@[b]).0@,
                forall|k: int|
                    0 <= k < tensors@.len() ==> exists|f: int|
                        0 <= f < i && (#[trigger] fields[f]).0 == (#[trigger] tensors@[k]).0@,
            decreases list.len() - i,
        {
            let name = list[i].0.as_str();
            assert(fields[i as int] == (list@[i as int].0@, list@[i as int].1.tree()));
            let ghost before = tensors@;
            if !text::same(name, "__metadata__") {
                match read_info(name, &list[i].1, data_len) {
                    Err(e) => {
                        proof {
                            lemma_tensors_flaw_stays(
                                fields,
                                data_len as int,
                                i + 1,
                                fields.len() as int,
                            );
                        }
                        return Err(e);
                    },
                    Ok(info) => {
                        let ghost added = info@;
                        tensors.push((name.to_owned(), info));
                        assert(tensor_views(tensors@) =~= tensor_views(before).push((name@, added)));
                        assert forall|a: int, b: int| 0 <= a < b < tensors@.len() implies (
                        #[trigger] tensors@[a]).0@ != (#[trigger] tensors@[b]).0@ by {
                            if b == before.len() {
                                let f = choose|f: int|
                                    0 <= f < i && (#[trigger] fields[f]).0 == before[a].0@;
                                text::lemma_order_is_total(fields[f].0, fields[i as int].0);
                                assert(text::precedes(fields[f].0, fields[i as int].0));
                            }
                        }
                        assert forall|k: int| 0 <= k < tensors@.len() implies exists|f: int|
                            0 <= f < i + 1 && (#[trigger] fields[f]).0 == (
                            #[trigger] tensors@[k]).0@ by {
                            if k == before.len() {
                                assert(fields[i as int].0 == tensors@[k].0@);
                            } else {
                                let f = choose|f: int|
                                    0 <= f < i && (#[trigger] fields[f]).0 == before[k].0@;
                                assert(fields[f].0 == tensors@[k].0@);
                            }
                        }
                    },
                }
            }
            i = i + 1;
        }
        let file = SafeTensors { data, data_start, tensors };
        assert forall|k: int| 0 <= k < file.tensors().len() implies fits(
            (#[trigger] file.tensors()[k]).1,
            file.data().len() - file.data_start(),
        ) by {
            assert(fits(tensors@[k].1@, data_len as int));
        }
        assert forall|a: int, b: int| 0 <= a < b < file.tensors().len() implies (
        #[trigger] file.tensors()[a]).0 != (#[trigger] file.tensors()[b]).0 by {
            assert(tensors@[a].0@ != tensors@[b].0@);
        }
        Ok(file)
    }

    /// Reads a whole file.
    pub fn parse(data: &'a [u8]) -> (file: Result<SafeTensors<'a>, TensorError>)
        ensures
            match (file, file_spec(data@)) {
                (Ok(f), Ok(tensors)) => f.sound() && f.data() == data@ && header_end(data@)
                    == Some(f.data_start()) && f.tensors() == tensors,
                (Err(e), Err(flaw)) => e@ == flaw,
                _ => false,
            },
    {
        if data.len() < 8 {
            return Err(TensorError::TooShort);
        }
        let header_len: usize = ieee::read_le64(data, 0) as usize;
        if header_len > data.len() - 8 {
            return Err(TensorError::HeaderLength(header_len));
        }
        let data_start: usize = 8 + header_len;
        let bytes = vstd::slice::slice_subrange(data, 8, data_start);
        match Json::parse_object(bytes) {
            Some(header) => SafeTensors::from_header(data, data_start, &header),
            None => Err(TensorError::Header),
        }
    }

    fn find(&self, name: &str) -> (at: Option<usize>)
        ensures
            text::place(at) == tensor_index(self.tensors(), name@, 0),
            at matches Some(i) ==> i < self.tensors@.len() && self.tensors()[i as int].0 == name@
                && self.tensors()[i as int].1 == self.tensors@[i as int].1@,
    {
        let mut i: usize = 0;
        while i < self.tensors.len()
            invariant
                i <= self.tensors@.len(),
                tensor_index(self.tensors(), name@, 0) == tensor_index(
                    self.tensors(),
                    name@,
                    i as int,
                ),
            decreases self.tensors.len() - i,
        {
            assert(self.tensors()[i as int] == (
                self.tensors@[i as int].0@,
                self.tensors@[i as int].1@,
            ));
            if text::same(self.tensors[i].0.as_str(), name) {
                return Some(i);
            }
            i = i + 1;
        }
        None
    }

    pub fn has(&self, name: &str) -> (yes: bool)
        ensures
            yes == tensor_index(self.tensors(), name@, 0) is Some,
    {
        self.find(name).is_some()
    }

    /// Every tensor name in the file, sorted.
    pub fn names(&self) -> (names: Vec<String>)
        ensures
            text::views(names@) == text::sorted_spec(
                self.tensors().map_values(|t: (Seq<char>, Info)| t.0),
            ),
    {
        let ghost all = self.tensors().map_values(|t: (Seq<char>, Info)| t.0);
        let mut names: Vec<String> = Vec::new();
        let mut i: usize = 0;
        while i < self.tensors.len()
            invariant
                i <= self.tensors@.len(),
                all == self.tensors().map_values(|t: (Seq<char>, Info)| t.0),
                text::views(names@) == all.take(i as int),
            decreases self.tensors.len() - i,
        {
            let ghost before = names@;
            names.push(self.tensors[i].0.clone());
            i = i + 1;
            assert(text::views(names@) =~= text::views(before).push(self.tensors@[i - 1].0@));
            assert(text::views(names@) =~= all.take(i as int));
        }
        assert(text::views(names@) =~= all);
        text::sorted(names)
    }

    /// Element `i` of a tensor, as a single-precision bit pattern.
    pub open spec fn element(self, info: Info, i: int) -> int {
        let at = self.data_start() + info.begin;
        if info.dtype == "F32"@ {
            ieee::from_le32(self.data(), at + 4 * i)
        } else if info.dtype == "F16"@ {
            ieee::widened_half(ieee::from_le16(self.data(), at + 2 * i) as u16)
        } else {
            ieee::widened_brain(ieee::from_le16(self.data(), at + 2 * i) as u16)
        }
    }

    /// Tensor `name` widened to single precision, with its shape.
    pub fn tensor(&self, name: &str) -> (found: Result<(Vec<u32>, &Vec<usize>), TensorError>)
        requires
            self.sound(),
        ensures
            match (found, tensor_index(self.tensors(), name@, 0)) {
                (Ok((values, shape)), Some(k)) => {
                    let info = self.tensors()[k].1;
                    &&& shape@ == info.shape
                    &&& values@.len() == product(info.shape)
                    &&& forall|i: int|
                        0 <= i < values@.len() ==> #[trigger] values@[i] == self.element(info, i)
                },
                (Err(e), None) => e@ == Flaw::Missing(name@),
                _ => false,
            },
    {
        let k: usize = match self.find(name) {
            Some(k) => k,
            None => {
                return Err(TensorError::Missing(name.to_owned()));
            },
        };
        let entry = &self.tensors[k].1;
        let ghost info = self.tensors()[k as int].1;
        assert(fits(info, self.data().len() - self.data_start()));
        let single = text::same(entry.dtype.as_str(), "F32");
        let half = text::same(entry.dtype.as_str(), "F16");
        let bytes: usize = entry.end - entry.begin;
        let elements: usize = if single { bytes / 4 } else { bytes / 2 };
        proof {
            assert(product(info.shape) * 4 == bytes ==> product(info.shape) == bytes / 4);
            assert(product(info.shape) * 2 == bytes ==> product(info.shape) == bytes / 2);
        }
        let total: usize = self.data.len();
        assert(self.data_start + entry.end <= total);
        let at: usize = self.data_start + entry.begin;
        let mut values: Vec<u32> = Vec::new();
        let mut i: usize = 0;
        while i < elements
            invariant
                i <= elements,
                info == entry@,
                at == self.data_start() + info.begin,
                at + bytes <= self.data.len(),
                self.data() == self.data@,
                single == (info.dtype == "F32"@),
                half == (info.dtype == "F16"@),
                single ==> 4 * elements <= bytes,
                !single ==> 2 * elements <= bytes,
                values@.len() == i,
                forall|j: int|
                    0 <= j < i ==> #[trigger] values@[j] == self.element(info, j),
            decreases elements - i,
        {
            let bits: u32 = if single {
                read_le32(self.data, at + 4 * i)
            } else {
                let stored: u16 = read_le16(self.data, at + 2 * i);
                if half {
                    half_to_single(stored)
                } else {
                    brain_to_single(stored)
                }
            };
            values.push(bits);
            i = i + 1;
        }
        Ok((values, &entry.shape))
    }
}

proof fn lemma_dimensions(items: Seq<json::Tree>)
    ensures
        dimensions(items) is Some <==> forall|i: int|
            0 <= i < items.len() ==> (#[trigger] items[i]).as_u64() is Some,
        dimensions(items) matches Some(dims) ==> dims.len() == items.len() && forall|i: int|
            0 <= i < items.len() ==> dims[i] == (#[trigger] items[i]).as_u64()->0 as usize,
    decreases items.len(),
{
    if items.len() > 0 {
        let rest = items.drop_last();
        lemma_dimensions(rest);
        assert(items.last() == items[items.len() - 1]);
        assert forall|i: int| 0 <= i < rest.len() implies rest[i] == #[trigger] items[i] by {}
        if dimensions(items) is Some {
            assert forall|i: int| 0 <= i < items.len() implies (
            #[trigger] items[i]).as_u64() is Some && dimensions(items)->0[i] == items[i].as_u64()->0 as usize by {
                if i < rest.len() {
                    assert(rest[i].as_u64() is Some);
                }
            }
        }
        if forall|i: int| 0 <= i < items.len() ==> (#[trigger] items[i]).as_u64() is Some {
            assert forall|i: int| 0 <= i < rest.len() implies (
            #[trigger] rest[i]).as_u64() is Some by {
                assert(items[i].as_u64() is Some);
            }
        }
    }
}

/// A shape has as many elements as its dimensions multiply to; one with none has one.
pub proof fn law_a_shape_multiplies_out(shape: Seq<usize>, d: usize)
    ensures
        product(Seq::empty()) == 1,
        product(shape.push(d)) == product(shape) * d as nat,
{
    assert(shape.push(d).drop_last() =~= shape);
}

/// An entry is taken exactly where it gives a type that is read, whole dimensions and a byte range
/// inside the data that its elements fill, two bytes each or four; and it is taken as it stands.
pub proof fn law_an_entry_fills_its_range(
    name: Seq<char>,
    entry: json::Tree,
    data_len: int,
    info: Info,
)
    ensures
        info_spec(name, entry, data_len) == Ok::<Info, Flaw>(info) <==> {
            let offsets = entry.field("data_offsets"@);
            let shape = entry.field("shape"@);
            &&& entry.field("dtype"@) == json::Tree::Text(info.dtype)
            &&& shape is Array && shape->Array_0.len() == info.shape.len()
            &&& forall|i: int|
                0 <= i < info.shape.len() ==> (#[trigger] shape->Array_0[i]).as_u64() is Some
                    && info.shape[i] == shape->Array_0[i].as_u64()->0 as usize
            &&& offsets is Array && offsets->Array_0.len() == 2
            &&& info.begin == offset_of(offsets->Array_0[0])
            &&& info.end == offset_of(offsets->Array_0[1])
            &&& info.begin <= info.end <= data_len
            &&& (info.dtype == "F32"@ && info.end - info.begin == 4 * product(info.shape)) || ((
            info.dtype == "F16"@ || info.dtype == "BF16"@) && info.end - info.begin == 2 * product(
                info.shape,
            ))
        },
{
    reveal_strlit("F32");
    reveal_strlit("F16");
    reveal_strlit("BF16");
    assert("F32"@[1] != "F16"@[1]);
    assert("F32"@.len() != "BF16"@.len());
    let shape = entry.field("shape"@);
    if shape is Array {
        lemma_dimensions(shape->Array_0);
        if let Some(dims) = dimensions(shape->Array_0) {
            if dims.len() == info.shape.len() && forall|i: int|
                0 <= i < info.shape.len() ==> (#[trigger] shape->Array_0[i]).as_u64() is Some
                    && info.shape[i] == shape->Array_0[i].as_u64()->0 as usize {
                assert forall|i: int| 0 <= i < dims.len() implies dims[i] == info.shape[i] by {
                    assert(shape->Array_0[i].as_u64() is Some);
                }
                assert(dims =~= info.shape);
            }
        }
    }
}

/// What a refusal of an entry says is so.
pub proof fn law_a_flaw_says_what_is_wrong(name: Seq<char>, entry: json::Tree, data_len: int)
    ensures
        ({
            let dtype = entry.field("dtype"@);
            let shape = entry.field("shape"@);
            let offsets = entry.field("data_offsets"@);
            match info_spec(name, entry, data_len) {
                Ok(_) => true,
                Err(Flaw::NoDtype(of)) => of == name && !(dtype is Text),
                Err(Flaw::NoShape(of)) => of == name && !(shape is Array),
                Err(Flaw::Dimension(of)) => of == name && exists|i: int|
                    0 <= i < shape->Array_0.len() && (#[trigger] shape->Array_0[i]).as_u64() is None,
                Err(Flaw::NoOffsets(of)) => of == name && !(offsets is Array
                    && offsets->Array_0.len() == 2),
                Err(Flaw::Range(of, begin, end)) => of == name && begin == offset_of(
                    offsets->Array_0[0],
                ) && end == offset_of(offsets->Array_0[1]) && (begin > end || end > data_len),
                Err(Flaw::Unread(of, t)) => of == name && dtype == json::Tree::Text(t) && t
                    != "F32"@ && t != "F16"@ && t != "BF16"@,
                Err(Flaw::Unfilled(of, n, t, bytes)) => of == name && dtype == json::Tree::Text(t)
                    && bytes == offset_of(offsets->Array_0[1]) - offset_of(offsets->Array_0[0]) && (
                if t == "F32"@ {
                    4 * n != bytes
                } else {
                    2 * n != bytes
                } || n == usize::MAX),
                Err(_) => false,
            }
        }),
{
    reveal_strlit("F32");
    reveal_strlit("F16");
    reveal_strlit("BF16");
    let shape = entry.field("shape"@);
    if shape is Array {
        lemma_dimensions(shape->Array_0);
    }
}

/// Every field of a header but its metadata is a tensor, in the header's order; and one that
/// cannot be taken refuses the file.
pub proof fn law_every_field_is_a_tensor(
    fields: Seq<(Seq<char>, json::Tree)>,
    data_len: int,
    name: Seq<char>,
    entry: json::Tree,
)
    ensures
        ({
            let n = fields.len() as int;
            let more = tensors_spec(fields.push((name, entry)), data_len, n + 1);
            &&& tensors_spec(fields, data_len, 0) == Ok::<Seq<(Seq<char>, Info)>, Flaw>(Seq::empty())
            &&& tensors_spec(fields, data_len, n) matches Err(flaw) ==> more == Err::<
                Seq<(Seq<char>, Info)>,
                Flaw,
            >(flaw)
            &&& tensors_spec(fields, data_len, n) matches Ok(done) ==> {
                &&& name == "__metadata__"@ ==> more == Ok::<Seq<(Seq<char>, Info)>, Flaw>(done)
                &&& name != "__metadata__"@ ==> match info_spec(name, entry, data_len) {
                    Ok(info) => more == Ok::<Seq<(Seq<char>, Info)>, Flaw>(
                        done.push((name, info)),
                    ),
                    Err(flaw) => more == Err::<Seq<(Seq<char>, Info)>, Flaw>(flaw),
                }
            }
        }),
{
    lemma_tensors_agree(fields, fields.push((name, entry)), data_len, fields.len() as int);
}

proof fn lemma_tensors_agree(
    a: Seq<(Seq<char>, json::Tree)>,
    b: Seq<(Seq<char>, json::Tree)>,
    data_len: int,
    n: int,
)
    requires
        0 <= n <= a.len(),
        n <= b.len(),
        forall|i: int| 0 <= i < n ==> a[i] == b[i],
    ensures
        tensors_spec(a, data_len, n) == tensors_spec(b, data_len, n),
    decreases n,
{
    if n > 0 {
        lemma_tensors_agree(a, b, data_len, n - 1);
    }
}

/// A file is eight bytes of length, low byte first, that many of header, and the data its
/// tensors lie in; it is refused where it has not even the first, or not the second, or where
/// the header is no object.
pub proof fn law_a_file_is_a_length_a_header_and_data(
    length: Seq<u8>,
    header: Seq<u8>,
    data: Seq<u8>,
)
    requires
        length.len() == 8,
        header.len() == length[0] + 0x100 * length[1] + 0x1_0000 * length[2] + 0x100_0000
            * length[3] + 0x1_0000_0000 * length[4] + 0x100_0000_0000 * length[5]
            + 0x1_0000_0000_0000 * length[6] + 0x100_0000_0000_0000 * length[7],
        header.len() <= usize::MAX,
    ensures
        ({
            let file = length + header + data;
            &&& header_end(file) == Some(8 + header.len() as int)
            &&& json::object_text(header) matches Some(fields) ==> file_spec(file) == tensors_spec(
                fields,
                data.len() as int,
                fields.len() as int,
            )
            &&& json::object_text(header) is None ==> file_spec(file) == Err::<
                Seq<(Seq<char>, Info)>,
                Flaw,
            >(Flaw::Header)
            &&& data.len() < 8 ==> file_spec(data) == Err::<Seq<(Seq<char>, Info)>, Flaw>(
                Flaw::TooShort,
            )
            &&& header.len() > data.len() ==> file_spec(length + data) == Err::<
                Seq<(Seq<char>, Info)>,
                Flaw,
            >(Flaw::HeaderLength(header.len() as int))
        }),
{
    let file = length + header + data;
    let n = header.len() as int;
    let short = length + data;
    assert forall|i: int| 0 <= i < 8 implies file[i] == length[i] && short[i] == length[i] by {}
    ieee::law_bytes_count_from_the_low_end(file, 0);
    ieee::law_bytes_count_from_the_low_end(short, 0);
    assert(ieee::from_le64(file, 0) == n);
    assert(ieee::from_le64(short, 0) == n);
    assert(file.subrange(8, 8 + n) =~= header);
    assert(file.len() - (8 + n) == data.len());
}

/// A name finds its tensor, the first of that name.
pub proof fn law_a_name_finds_its_tensor(
    tensors: Seq<(Seq<char>, Info)>,
    name: Seq<char>,
    from: int,
)
    requires
        0 <= from,
    ensures
        match tensor_index(tensors, name, from) {
            Some(i) => from <= i < tensors.len() && tensors[i].0 == name && forall|k: int|
                from <= k < i ==> (#[trigger] tensors[k]).0 != name,
            None => forall|k: int| from <= k < tensors.len() ==> (#[trigger] tensors[k]).0 != name,
        },
    decreases tensors.len() - from,
{
    if from < tensors.len() {
        law_a_name_finds_its_tensor(tensors, name, from + 1);
    }
}

/// An element is read from its own bytes of the tensor's range, the low one first: four to a
/// single, two to the others, which are widened.
pub proof fn law_each_element_has_its_bytes(file: SafeTensors, info: Info, i: int)
    ensures
        ({
            let d = file.data();
            let four = file.data_start() + info.begin + 4 * i;
            let two = file.data_start() + info.begin + 2 * i;
            &&& info.dtype == "F32"@ ==> file.element(info, i) == d[four] + 0x100 * d[four + 1]
                + 0x1_0000 * d[four + 2] + 0x100_0000 * d[four + 3]
            &&& info.dtype == "F16"@ ==> file.element(info, i) == ieee::widened_half(
                (d[two] + 256 * d[two + 1]) as u16,
            )
            &&& info.dtype == "BF16"@ ==> file.element(info, i) == ieee::widened_brain(
                (d[two] + 256 * d[two + 1]) as u16,
            )
        }),
{
    reveal_strlit("F32");
    reveal_strlit("F16");
    reveal_strlit("BF16");
    assert("F32"@[1] != "F16"@[1]);
    assert("F32"@.len() != "BF16"@.len());
    assert("F16"@.len() != "BF16"@.len());
}

/// What is told of a tensor names it first and then what was found, in turn.
pub proof fn law_a_message_names_its_tensor(
    name: Seq<char>,
    dtype: Seq<char>,
    a: nat,
    b: nat,
)
    ensures
        Flaw::Range(name, a as int, b as int).message() == Flaw::NoDtype(name).message().take(
            ("tensor '"@ + name + "'"@).len() as int,
        ) + " has byte range "@ + text::decimal_spec(a) + ".."@ + text::decimal_spec(b)
            + " outside the data section"@,
        text::begins(Flaw::Unread(name, dtype).message(), "tensor '"@ + name + "'"@),
        text::occurs(Flaw::Unread(name, dtype).message(), " stored as "@ + dtype),
        text::begins(
            Flaw::Unfilled(name, a as int, dtype, b as int).message(),
            "tensor '"@ + name + "': "@ + text::decimal_spec(a) + " "@ + dtype + " "@,
        ),
        text::ends(
            Flaw::Unfilled(name, a as int, dtype, b as int).message(),
            " "@ + text::decimal_spec(b) + " bytes"@,
        ),
        text::ends(Flaw::NoDtype(name).message(), " dtype"@),
        text::ends(Flaw::NoShape(name).message(), " shape"@),
        text::ends(Flaw::NoOffsets(name).message(), " data_offsets"@),
        text::ends(Flaw::Dimension(name).message(), " dimension"@),
        text::ends(Flaw::Missing(name).message(), "'"@ + name + "'"@),
        text::occurs(Flaw::HeaderLength(a as int).message(), " "@ + text::decimal_spec(a) + " "@),
{
    reveal_strlit("tensor '");
    reveal_strlit("'");
    reveal_strlit("' has no dtype");
    reveal_strlit("' has no shape");
    reveal_strlit("' has no data_offsets");
    reveal_strlit("' has a non-integer dimension");
    reveal_strlit("' has byte range ");
    reveal_strlit(" has byte range ");
    reveal_strlit("' is stored as ");
    reveal_strlit(" stored as ");
    reveal_strlit("': ");
    reveal_strlit(" ");
    reveal_strlit(" elements do not fill ");
    reveal_strlit(" bytes");
    reveal_strlit(" dtype");
    reveal_strlit(" shape");
    reveal_strlit(" data_offsets");
    reveal_strlit(" dimension");
    reveal_strlit("safetensors file is missing tensor '");
    reveal_strlit("safetensors header length ");
    reveal_strlit(" exceeds the file");
    let (da, db) = (text::decimal_spec(a), text::decimal_spec(b));
    let range = Flaw::Range(name, a as int, b as int).message();
    let titled = "tensor '"@ + name + "'"@;
    assert(Flaw::NoDtype(name).message().take(titled.len() as int) =~= titled);
    assert(range =~= titled + " has byte range "@ + da + ".."@ + db + " outside the data section"@);
    let unread = Flaw::Unread(name, dtype).message();
    assert(unread.subrange(0, titled.len() as int) =~= titled);
    let stored = " stored as "@ + dtype;
    let at: int = titled.len() as int + 3;
    assert(unread.subrange(at, at + stored.len()) =~= stored);
    assert(text::stands_at(unread, stored, at));
    let unfilled = Flaw::Unfilled(name, a as int, dtype, b as int).message();
    let start = "tensor '"@ + name + "': "@ + da + " "@ + dtype + " "@;
    assert(unfilled.subrange(0, start.len() as int) =~= start);
    let end = " "@ + db + " bytes"@;
    assert(unfilled.subrange(unfilled.len() - end.len(), unfilled.len() as int) =~= end);
    lemma_ends(Flaw::NoDtype(name).message(), " dtype"@);
    lemma_ends(Flaw::NoShape(name).message(), " shape"@);
    lemma_ends(Flaw::NoOffsets(name).message(), " data_offsets"@);
    lemma_ends(Flaw::Dimension(name).message(), " dimension"@);
    lemma_ends(Flaw::Missing(name).message(), "'"@ + name + "'"@);
    let header = Flaw::HeaderLength(a as int).message();
    let length = " "@ + da + " "@;
    assert(header.subrange(25, 25int + length.len()) =~= length);
    assert(text::stands_at(header, length, 25));
}

proof fn lemma_ends(whole: Seq<char>, end: Seq<char>)
    requires
        end.len() <= whole.len(),
        forall|i: int|
            0 <= i < end.len() ==> #[trigger] end[i] == whole[whole.len() - end.len() + i],
    ensures
        text::ends(whole, end),
{
    assert(whole.subrange(whole.len() - end.len(), whole.len() as int) =~= end);
}

/// An offset that is no number is as far out as any can be; any other is the number it says.
pub proof fn law_what_is_no_offset_is_out_of_range(tree: json::Tree, n: u64)
    ensures
        tree.as_u64() is None ==> n as usize <= offset_of(tree),
        n <= usize::MAX && tree.as_u64() == Some(n) ==> offset_of(tree) == n,
{
    assert(n as usize <= 0xffff_ffff_ffff_ffffu64 as usize) by (bit_vector);
}

} // verus!
