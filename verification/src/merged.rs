//! The merged tensors of one model and adapter kept on disk: the file's name, its layout, and
//! what of it can be trusted.
//!
//! A magic, the header's length, a JSON header naming the files it was made of and every tensor's
//! type, shape and byte range, then the rows, each tensor aligned. Reading and writing the file is
//! the caller's.

use vstd::prelude::*;
use vstd::slice::*;
use vstd::string::*;
use vstd::utf8::*;
use crate::ieee;
use crate::json;
use crate::json::array_of;
use crate::json::count_of;
use crate::json::node_of;
use crate::json::object_of;
use crate::json::same_json;
use crate::json::text_of;
use crate::json::write_value;
use crate::json::Json;
use crate::json::Node;
use crate::json::Tree;
use crate::quantize;
use crate::text;

verus! {

/// The digest of some bytes.
pub uninterp spec fn sha256_of(bytes: Seq<u8>) -> Seq<u8>;

/// `sha2::Sha256::digest`: 32 bytes that are a function of the input alone.
#[verifier::external_body]
fn sha256(bytes: &[u8]) -> (digest: Vec<u8>)
    ensures
        digest@ == sha256_of(bytes@),
        digest@.len() == 32,
{
    <sha2::Sha256 as sha2::Digest>::digest(bytes).to_vec()
}

/// The small hexadecimal digit of a number below sixteen.
pub open spec fn hex_digit(d: int) -> char {
    if d < 10 { ((48 + d) as u8) as char } else { ((87 + d) as u8) as char }
}

/// The first `n` bytes, two hexadecimal digits each.
pub open spec fn hex(bytes: Seq<u8>, n: int) -> Seq<char>
    decreases n,
{
    if n <= 0 {
        Seq::empty()
    } else {
        hex(bytes, n - 1).push(hex_digit(bytes[n - 1] as int / 16)).push(
            hex_digit(bytes[n - 1] as int % 16),
        )
    }
}

fn hex_char(d: u8) -> (c: char)
    requires
        d < 16,
    ensures
        c == hex_digit(d as int),
{
    if d < 10 { (48 + d) as char } else { (87 + d) as char }
}

/// The name of a cache file under a digest: its first sixteen bytes in hexadecimal.
pub fn file_name(digest: &[u8]) -> (name: String)
    requires
        digest@.len() >= 16,
    ensures
        name@ == hex(digest@, 16) + ".bin"@,
{
    let mut name = String::new();
    let mut i: usize = 0;
    while i < 16
        invariant
            i <= 16,
            digest@.len() >= 16,
            name@ == hex(digest@, i as int),
        decreases 16 - i,
    {
        name.push(hex_char(digest[i] / 16));
        name.push(hex_char(digest[i] % 16));
        i = i + 1;
    }
    name.append(".bin");
    name
}

/// The name of the cache file of an identity: the text that says which model and adapter it is
/// of, by where they are, how big they are and when they last changed.
pub fn cache_file(identity: &str) -> (name: String)
    ensures
        sha256_of(identity.spec_bytes()).len() == 32,
        name@ == hex(sha256_of(identity.spec_bytes()), 16) + ".bin"@,
{
    let digest = sha256(identity.as_bytes());
    file_name(digest.as_slice())
}

/// One tensor of a cache file.
#[derive(Debug, Clone, PartialEq, Eq)]
pub struct MergedEntry {
    pub name: String,
    pub ggml_type: u32,
    pub in_dim: usize,
    pub out_dim: usize,
    pub offset: usize,
    pub len: usize,
}

/// A [`MergedEntry`] by the values it holds.
pub struct Entry {
    pub name: Seq<char>,
    pub ggml_type: u32,
    pub in_dim: usize,
    pub out_dim: usize,
    pub offset: usize,
    pub len: usize,
}

impl View for MergedEntry {
    type V = Entry;

    open spec fn view(&self) -> Entry {
        Entry {
            name: self.name@,
            ggml_type: self.ggml_type,
            in_dim: self.in_dim,
            out_dim: self.out_dim,
            offset: self.offset,
            len: self.len,
        }
    }
}

pub open spec fn entries_of(list: Seq<MergedEntry>) -> Seq<Entry> {
    list.map_values(|e: MergedEntry| e@)
}

/// What a cache file begins with.
pub open spec fn magic() -> Seq<u8> {
    seq![0x4fu8, 0x52, 0x4d, 0x45, 0x52, 0x47, 0x45, 0x31]
}

/// A 64-bit number, low byte first.
pub open spec fn le64(x: u64) -> Seq<u8> {
    quantize::le32((x % 0x1_0000_0000) as u32) + quantize::le32((x / 0x1_0000_0000) as u32)
}

/// Where a cache file's header ends, where it begins with the magic and the header fits.
pub open spec fn header_end(file: Seq<u8>) -> Option<int> {
    if file.len() < 16 || file.take(8) != magic() {
        None
    } else {
        let end = 16 + (ieee::from_le64(file, 8) as usize);
        if end <= file.len() { Some(end) } else { None }
    }
}

/// Where a cache file's header ends; it starts at byte 16. Nothing for a file that is not one,
/// or whose header does not fit in it.
pub fn find_header(file: &[u8]) -> (end: Option<usize>)
    ensures
        text::place(end) == header_end(file@),
{
    if file.len() < 16 {
        return None;
    }
    let is_magic = file[0] == 0x4f && file[1] == 0x52 && file[2] == 0x4d && file[3] == 0x45
        && file[4] == 0x52 && file[5] == 0x47 && file[6] == 0x45 && file[7] == 0x31;
    if !is_magic {
        assert(!(file@.take(8) =~= magic())) by {
            if file@.take(8) == magic() {
                assert(forall|i: int| 0 <= i < 8 ==> file@[i] == #[trigger] file@.take(8)[i]);
                assert(file@.take(8)[0] == magic()[0] && file@.take(8)[1] == magic()[1]);
                assert(file@.take(8)[2] == magic()[2] && file@.take(8)[3] == magic()[3]);
                assert(file@.take(8)[4] == magic()[4] && file@.take(8)[5] == magic()[5]);
                assert(file@.take(8)[6] == magic()[6] && file@.take(8)[7] == magic()[7]);
            }
        }
        return None;
    }
    assert(file@.take(8) =~= magic());
    let header_len: usize = ieee::read_le64(file, 8) as usize;
    if header_len > file.len() - 16 {
        None
    } else {
        Some(16 + header_len)
    }
}

/// Every entry inside a file of a length.
pub open spec fn in_bounds(entries: Seq<Entry>, file_len: int) -> bool {
    forall|i: int| 0 <= i < entries.len() ==> (#[trigger] entries[i]).offset + entries[i].len
        <= file_len
}

/// Whether every entry lies inside a file of `file_len` bytes; one that does not means the file
/// is not to be trusted.
pub fn entries_fit(entries: &Vec<MergedEntry>, file_len: usize) -> (yes: bool)
    ensures
        yes == in_bounds(entries_of(entries@), file_len as int),
{
    let mut i: usize = 0;
    while i < entries.len()
        invariant
            i <= entries@.len(),
            forall|k: int| 0 <= k < i ==> (#[trigger] entries@[k]).offset + entries@[k].len
                <= file_len,
        decreases entries.len() - i,
    {
        if entries[i].offset > file_len || entries[i].len > file_len - entries[i].offset {
            assert(entries_of(entries@)[i as int] == entries@[i as int]@);
            return false;
        }
        i = i + 1;
    }
    true
}

/// The first entry of a name, at or after `from`.
pub open spec fn entry_index(entries: Seq<Entry>, name: Seq<char>, from: int) -> Option<int>
    decreases entries.len() - from,
{
    if from < 0 || from >= entries.len() {
        None
    } else if entries[from].name == name {
        Some(from)
    } else {
        entry_index(entries, name, from + 1)
    }
}

/// The cached tensor for `name`, where it has the type and shape of the weights it is to stand
/// in for.
pub fn find_entry(
    entries: &Vec<MergedEntry>,
    name: &str,
    ggml_type: u32,
    in_dim: usize,
    out_dim: usize,
) -> (at: Option<usize>)
    ensures
        text::place(at) == match entry_index(entries_of(entries@), name@, 0) {
            Some(i) => if entries@[i].in_dim == in_dim && entries@[i].out_dim == out_dim
                && entries@[i].ggml_type == ggml_type {
                Some(i)
            } else {
                None
            },
            None => None,
        },
{
    let mut i: usize = 0;
    while i < entries.len()
        invariant
            i <= entries@.len(),
            entry_index(entries_of(entries@), name@, 0) == entry_index(
                entries_of(entries@),
                name@,
                i as int,
            ),
        decreases entries.len() - i,
    {
        assert(entries_of(entries@)[i as int] == entries@[i as int]@);
        if text::same(entries[i].name.as_str(), name) {
            return if entries[i].in_dim == in_dim && entries[i].out_dim == out_dim
                && entries[i].ggml_type == ggml_type {
                Some(i)
            } else {
                None
            };
        }
        i = i + 1;
    }
    None
}

/// The next multiple of 64 at or above a number.
pub open spec fn aligned(n: int) -> int {
    (n + 63) / 64 * 64
}

fn align(n: usize) -> (a: Option<usize>)
    ensures
        match a {
            Some(at) => at == aligned(n as int),
            None => aligned(n as int) > usize::MAX,
        },
{
    if n % 64 == 0 { Some(n) } else { n.checked_add(64 - n % 64) }
}

/// Where the data starts behind a header of `header_len` bytes; nothing past the last address.
pub fn data_start(header_len: usize) -> (at: Option<usize>)
    ensures
        match at {
            Some(start) => start == aligned(16 + header_len),
            None => aligned(16 + header_len) > usize::MAX,
        },
{
    match header_len.checked_add(16) {
        Some(n) => align(n),
        None => None,
    }
}

/// Where tensor `i` goes when tensors of these lengths follow one another from a start, each
/// aligned; and, past the last, where the file would go on.
pub open spec fn offset_of(lens: Seq<usize>, start: int, i: int) -> int
    decreases i,
{
    if i <= 0 {
        aligned(start)
    } else {
        aligned(offset_of(lens, start, i - 1) + lens[i - 1])
    }
}

proof fn lemma_offsets_grow(lens: Seq<usize>, start: int, i: int, j: int)
    requires
        0 <= i <= j <= lens.len(),
        0 <= start,
    ensures
        0 <= offset_of(lens, start, i) <= offset_of(lens, start, j),
        i < j ==> offset_of(lens, start, i) + lens[i] <= offset_of(lens, start, j),
        start <= offset_of(lens, start, i),
        offset_of(lens, start, i) % 64 == 0,
    decreases j,
{
    if j > 0 {
        if i < j {
            lemma_offsets_grow(lens, start, i, j - 1);
            lemma_offsets_grow(lens, start, j - 1, j - 1);
        } else {
            lemma_offsets_grow(lens, start, i - 1, i - 1);
        }
    }
}

/// Places tensors of these lengths from `start` on, each aligned; nothing where they would reach
/// past the last address.
pub fn place(lens: &Vec<usize>, start: usize) -> (offsets: Option<Vec<usize>>)
    ensures
        match offsets {
            Some(at) => offset_of(lens@, start as int, lens@.len() as int) <= usize::MAX
                && at@.len() == lens@.len() && forall|i: int|
                0 <= i < lens@.len() ==> #[trigger] at@[i] == offset_of(lens@, start as int, i),
            None => offset_of(lens@, start as int, lens@.len() as int) > usize::MAX,
        },
{
    let mut offsets: Vec<usize> = Vec::new();
    proof {
        lemma_offsets_grow(lens@, start as int, 0, lens@.len() as int);
    }
    let mut next: usize = match align(start) {
        Some(at) => at,
        None => return None,
    };
    let mut i: usize = 0;
    while i < lens.len()
        invariant
            i <= lens@.len(),
            next == offset_of(lens@, start as int, i as int),
            offsets@.len() == i,
            forall|k: int|
                0 <= k < i ==> #[trigger] offsets@[k] == offset_of(lens@, start as int, k),
        decreases lens.len() - i,
    {
        offsets.push(next);
        proof {
            lemma_offsets_grow(lens@, start as int, i as int, lens@.len() as int);
            lemma_offsets_grow(lens@, start as int, i + 1, lens@.len() as int);
        }
        match next.checked_add(lens[i]) {
            Some(end) => match align(end) {
                Some(at) => {
                    next = at;
                },
                None => return None,
            },
            None => return None,
        }
        i = i + 1;
    }
    Some(offsets)
}

/// Tensors placed one after another are aligned, begin at or after the start, and never overlap.
pub proof fn law_placed_tensors_do_not_overlap(lens: Seq<usize>, start: int, i: int, j: int)
    requires
        0 <= start,
        0 <= i < j < lens.len(),
    ensures
        offset_of(lens, start, i) % 64 == 0,
        start <= offset_of(lens, start, i),
        offset_of(lens, start, i) + lens[i] <= offset_of(lens, start, j),
{
    lemma_offsets_grow(lens, start, i, j);
}

/// A file's beginning: the magic, the header's length and the header.
pub open spec fn front(header: Seq<u8>) -> Seq<u8> {
    magic() + le64(header.len() as u64) + header
}

/// `n` zero bytes.
pub open spec fn zeros(n: int) -> Seq<u8> {
    Seq::new(n as nat, |i: int| 0u8)
}

/// A file with the first `n` tensors written at their offsets, zero bytes between them.
pub open spec fn written(
    header: Seq<u8>,
    offsets: Seq<usize>,
    rows: Seq<Seq<u8>>,
    n: int,
) -> Seq<u8>
    decreases n,
{
    if n <= 0 {
        front(header)
    } else {
        let before = written(header, offsets, rows, n - 1);
        before + zeros(offsets[n - 1] - before.len()) + rows[n - 1]
    }
}

/// Whether each tensor can be written at its offset after what comes before it.
pub open spec fn writable(header: Seq<u8>, offsets: Seq<usize>, rows: Seq<Seq<u8>>) -> bool {
    &&& offsets.len() == rows.len()
    &&& forall|i: int|
        0 <= i < offsets.len() ==> written(header, offsets, rows, i).len() <= #[trigger] offsets[i]
}

fn push_le32(out: &mut Vec<u8>, x: u32)
    ensures
        final(out)@ == old(out)@ + quantize::le32(x),
{
    out.push((x % 256) as u8);
    out.push((x / 256 % 256) as u8);
    out.push((x / 65536 % 256) as u8);
    out.push((x / 16777216) as u8);
    assert(out@ =~= old(out)@ + quantize::le32(x));
}

/// The beginning of a file under a header.
pub fn front_bytes(header: &[u8]) -> (bytes: Vec<u8>)
    ensures
        bytes@ == front(header@),
{
    let mut out: Vec<u8> = Vec::new();
    out.push(0x4f);
    out.push(0x52);
    out.push(0x4d);
    out.push(0x45);
    out.push(0x52);
    out.push(0x47);
    out.push(0x45);
    out.push(0x31);
    assert(out@ =~= magic());
    let n: u64 = header.len() as u64;
    push_le32(&mut out, (n % 0x1_0000_0000) as u32);
    push_le32(&mut out, (n / 0x1_0000_0000) as u32);
    assert(out@ =~= magic() + le64(n));
    let mut i: usize = 0;
    while i < header.len()
        invariant
            i <= header@.len(),
            out@ == magic() + le64(header@.len() as u64) + header@.take(i as int),
        decreases header.len() - i,
    {
        out.push(header[i]);
        i = i + 1;
        assert(out@ =~= magic() + le64(header@.len() as u64) + header@.take(i as int));
    }
    assert(header@.take(i as int) =~= header@);
    out
}

/// How long a file is with the first `n` tensors written.
pub open spec fn end_of(header_len: int, offsets: Seq<usize>, lens: Seq<usize>, n: int) -> int {
    if n <= 0 { 16 + header_len } else { offsets[n - 1] + lens[n - 1] }
}

/// The zero bytes to write before each tensor, and how long the file is at the end. Nothing
/// where a tensor's offset lies inside what was written before it: the header outgrew the room
/// its offsets were worked out for.
pub fn paddings(header_len: usize, offsets: &Vec<usize>, lens: &Vec<usize>) -> (plan: Option<
    (Vec<usize>, usize),
>)
    requires
        16 + header_len <= usize::MAX,
        offsets@.len() == lens@.len(),
        forall|i: int| 0 <= i < offsets@.len() ==> (#[trigger] offsets@[i]) + lens@[i]
            <= usize::MAX,
    ensures
        plan is Some <==> forall|i: int|
            0 <= i < offsets@.len() ==> end_of(header_len as int, offsets@, lens@, i)
                <= #[trigger] offsets@[i],
        plan matches Some((pads, total)) ==> {
            &&& pads@.len() == offsets@.len()
            &&& forall|i: int|
                0 <= i < pads@.len() ==> #[trigger] pads@[i] == offsets@[i] - end_of(
                    header_len as int,
                    offsets@,
                    lens@,
                    i,
                )
            &&& total == end_of(header_len as int, offsets@, lens@, offsets@.len() as int)
        },
{
    let mut pads: Vec<usize> = Vec::new();
    let mut at: usize = 16 + header_len;
    let mut i: usize = 0;
    while i < offsets.len()
        invariant
            i <= offsets@.len(),
            offsets@.len() == lens@.len(),
            forall|k: int| 0 <= k < offsets@.len() ==> (#[trigger] offsets@[k]) + lens@[k]
                <= usize::MAX,
            at == end_of(header_len as int, offsets@, lens@, i as int),
            pads@.len() == i,
            forall|k: int|
                0 <= k < i ==> end_of(header_len as int, offsets@, lens@, k)
                    <= #[trigger] offsets@[k],
            forall|k: int|
                0 <= k < i ==> #[trigger] pads@[k] == offsets@[k] - end_of(
                    header_len as int,
                    offsets@,
                    lens@,
                    k,
                ),
        decreases offsets.len() - i,
    {
        if at > offsets[i] {
            assert(end_of(header_len as int, offsets@, lens@, i as int) > offsets@[i as int]);
            return None;
        }
        pads.push(offsets[i] - at);
        at = offsets[i] + lens[i];
        i = i + 1;
    }
    Some((pads, at))
}

proof fn lemma_written_prefix(
    header: Seq<u8>,
    offsets: Seq<usize>,
    rows: Seq<Seq<u8>>,
    i: int,
    n: int,
)
    requires
        0 <= i <= n <= rows.len(),
        writable(header, offsets, rows),
    ensures
        written(header, offsets, rows, i).len() <= written(header, offsets, rows, n).len(),
        written(header, offsets, rows, n).take(
            written(header, offsets, rows, i).len() as int,
        ) == written(header, offsets, rows, i),
    decreases n,
{
    let whole = written(header, offsets, rows, n);
    if i == n {
        assert(whole.take(whole.len() as int) =~= whole);
    } else {
        lemma_written_prefix(header, offsets, rows, i, n - 1);
        let before = written(header, offsets, rows, n - 1);
        let part = written(header, offsets, rows, i);
        assert(whole.take(part.len() as int) =~= before.take(part.len() as int));
    }
}

proof fn lemma_le32(bytes: Seq<u8>, at: int, x: u32)
    requires
        0 <= at,
        at + 4 <= bytes.len(),
        bytes.subrange(at, at + 4) == quantize::le32(x),
    ensures
        ieee::from_le32(bytes, at) == x,
{
    let part = bytes.subrange(at, at + 4);
    assert(bytes[at] == part[0] && bytes[at + 1] == part[1]);
    assert(bytes[at + 2] == part[2] && bytes[at + 3] == part[3]);
    assert(x == x % 256 + 256 * (x / 256 % 256) + 65536 * (x / 65536 % 256) + 16777216 * (x
        / 16777216));
}

/// A file that begins with a header's front holds that header.
proof fn lemma_front(header: Seq<u8>, file: Seq<u8>)
    requires
        16 + header.len() <= usize::MAX,
        front(header).len() <= file.len(),
        file.take(front(header).len() as int) == front(header),
    ensures
        header_end(file) == Some(16 + header.len() as int),
        file.subrange(16, 16 + header.len() as int) == header,
{
    let start = front(header);
    let x = header.len() as u64;
    let low = (x % 0x1_0000_0000) as u32;
    let high = (x / 0x1_0000_0000) as u32;
    assert(start.len() == 16 + header.len());
    assert(file.take(8) =~= start.take(8));
    assert(start.take(8) =~= magic());
    assert(file.subrange(8, 12) =~= start.subrange(8, 12));
    assert(start.subrange(8, 12) =~= quantize::le32(low));
    assert(file.subrange(12, 16) =~= start.subrange(12, 16));
    assert(start.subrange(12, 16) =~= quantize::le32(high));
    lemma_le32(file, 8, low);
    lemma_le32(file, 12, high);
    assert(ieee::from_le64(file, 8) == header.len());
    assert(file.subrange(16, 16 + header.len() as int) =~= start.subrange(
        16,
        16 + header.len() as int,
    ));
    assert(start.subrange(16, 16 + header.len() as int) =~= header);
}

/// What was written comes back: the header is found where it was put, and each tensor's bytes
/// stand at its offset, unchanged.
pub proof fn law_what_is_written_reads_back(
    header: Seq<u8>,
    offsets: Seq<usize>,
    rows: Seq<Seq<u8>>,
    i: int,
)
    requires
        writable(header, offsets, rows),
        16 + header.len() <= usize::MAX,
        0 <= i < rows.len(),
    ensures
        ({
            let file = written(header, offsets, rows, rows.len() as int);
            &&& header_end(file) == Some(16 + header.len() as int)
            &&& file.subrange(16, 16 + header.len() as int) == header
            &&& file.subrange(offsets[i] as int, offsets[i] + rows[i].len()) == rows[i]
        }),
{
    let n = rows.len() as int;
    let file = written(header, offsets, rows, n);
    lemma_written_prefix(header, offsets, rows, 0, n);
    lemma_written_prefix(header, offsets, rows, i + 1, n);
    lemma_front(header, file);
    let part = written(header, offsets, rows, i + 1);
    let before = written(header, offsets, rows, i);
    assert(before.len() <= offsets[i]);
    let (from, to) = (offsets[i] as int, offsets[i] + rows[i].len());
    assert(part.len() == to);
    assert(part.subrange(from, to) =~= rows[i]);
    assert(file.subrange(from, to) =~= file.take(part.len() as int).subrange(from, to));
}

/// What a header's tensor says, by its name, type, shape and byte range; nothing where one of
/// them is missing, is of another kind, or does not fit.
pub open spec fn read_parts(
    name: Tree,
    ggml_type: Tree,
    in_dim: Tree,
    out_dim: Tree,
    offset: Tree,
    len: Tree,
) -> Option<Entry> {
    match (
        name,
        ggml_type.as_u64(),
        in_dim.as_u64(),
        out_dim.as_u64(),
        offset.as_u64(),
        len.as_u64(),
    ) {
        (Tree::Text(s), Some(t), Some(i), Some(o), Some(at), Some(n)) => if t <= u32::MAX && i
            <= usize::MAX && o <= usize::MAX && at <= usize::MAX && n <= usize::MAX {
            Some(
                Entry {
                    name: s,
                    ggml_type: t as u32,
                    in_dim: i as usize,
                    out_dim: o as usize,
                    offset: at as usize,
                    len: n as usize,
                },
            )
        } else {
            None
        },
        _ => None,
    }
}

/// What a header's tensor says: an object with a field for each part, whatever else it holds, or
/// an array of just the parts.
pub open spec fn read_entry(tensor: Tree) -> Option<Entry> {
    match tensor {
        Tree::Object(_) => read_parts(
            tensor.field("name"@),
            tensor.field("ggml_type"@),
            tensor.field("in_dim"@),
            tensor.field("out_dim"@),
            tensor.field("offset"@),
            tensor.field("len"@),
        ),
        Tree::Array(items) => if items.len() == 6 {
            read_parts(items[0], items[1], items[2], items[3], items[4], items[5])
        } else {
            None
        },
        _ => None,
    }
}

/// What every tensor says; nothing where one of them says nothing.
pub open spec fn read_entries(tensors: Seq<Tree>) -> Option<Seq<Entry>>
    decreases tensors.len(),
{
    if tensors.len() == 0 {
        Some(Seq::empty())
    } else {
        match (read_entries(tensors.drop_last()), read_entry(tensors.last())) {
            (Some(list), Some(entry)) => Some(list.push(entry)),
            _ => None,
        }
    }
}

/// The tensors a header lists.
pub open spec fn listed(header: Tree) -> Option<Seq<Entry>> {
    match header.field("tensors"@) {
        Tree::Array(tensors) => read_entries(tensors),
        _ => None,
    }
}

/// Whether a header is of an identity.
pub open spec fn has_identity(header: Tree, identity: Tree) -> bool {
    header.has("identity"@) && header.field("identity"@) == identity
}

/// The tensors of a cache file of an identity; nothing for a file that is not one, is of another
/// identity, or lists a tensor that does not lie in it.
pub open spec fn cached(file: Seq<u8>, identity: Tree) -> Option<Seq<Entry>> {
    match header_end(file) {
        None => None,
        Some(end) => match json::json_text(file.subrange(16, end)) {
            None => None,
            Some(header) => match listed(header) {
                Some(list) => if has_identity(header, identity) && in_bounds(
                    list,
                    file.len() as int,
                ) {
                    Some(list)
                } else {
                    None
                },
                None => None,
            },
        },
    }
}

/// A whole number that fits; nothing for anything else.
fn whole(json: Option<&Json>) -> (n: Option<usize>)
    ensures
        n matches Some(x) ==> json matches Some(j) && j.tree().as_u64() == Some(x as u64),
        n is None ==> match json {
            Some(j) => j.tree().as_u64() matches Some(x) ==> x > usize::MAX,
            None => true,
        },
{
    match json {
        Some(j) => match j.as_u64() {
            Some(x) => {
                if x > usize::MAX as u64 {
                    None
                } else {
                    Some(x as usize)
                }
            },
            None => None,
        },
        None => None,
    }
}

pub open spec fn tree_of(json: Option<&Json>) -> Tree {
    match json {
        Some(j) => j.tree(),
        None => Tree::Null,
    }
}

fn parts_of(
    name: Option<&Json>,
    ggml_type: Option<&Json>,
    in_dim: Option<&Json>,
    out_dim: Option<&Json>,
    offset: Option<&Json>,
    len: Option<&Json>,
) -> (entry: Option<MergedEntry>)
    ensures
        match entry {
            Some(e) => Some(e@),
            None => None,
        } == read_parts(
            tree_of(name),
            tree_of(ggml_type),
            tree_of(in_dim),
            tree_of(out_dim),
            tree_of(offset),
            tree_of(len),
        ),
{
    let name: &str = match name {
        Some(j) => match j.as_str() {
            Some(s) => s,
            None => return None,
        },
        None => return None,
    };
    let ggml_type: u32 = match ggml_type {
        Some(j) => match j.as_u64() {
            Some(x) => {
                if x > 0xffff_ffff {
                    return None;
                }
                x as u32
            },
            None => return None,
        },
        None => return None,
    };
    match (whole(in_dim), whole(out_dim), whole(offset), whole(len)) {
        (Some(in_dim), Some(out_dim), Some(offset), Some(len)) => Some(
            MergedEntry { name: name.to_string(), ggml_type, in_dim, out_dim, offset, len },
        ),
        _ => None,
    }
}

fn entry_of(tensor: &Json) -> (entry: Option<MergedEntry>)
    ensures
        match entry {
            Some(e) => Some(e@),
            None => None,
        } == read_entry(tensor.tree()),
{
    match tensor {
        Json::Object(_) => parts_of(
            tensor.get("name"),
            tensor.get("ggml_type"),
            tensor.get("in_dim"),
            tensor.get("out_dim"),
            tensor.get("offset"),
            tensor.get("len"),
        ),
        Json::Array(items) => {
            if items.len() != 6 {
                return None;
            }
            parts_of(
                Some(&items[0]),
                Some(&items[1]),
                Some(&items[2]),
                Some(&items[3]),
                Some(&items[4]),
                Some(&items[5]),
            )
        },
        _ => None,
    }
}

/// One tensor that says nothing leaves nothing of the whole list.
proof fn lemma_one_unread(tensors: Seq<Tree>, i: int)
    requires
        0 <= i < tensors.len(),
        read_entry(tensors[i]) is None,
    ensures
        read_entries(tensors) is None,
    decreases tensors.len(),
{
    if i < tensors.len() - 1 {
        lemma_one_unread(tensors.drop_last(), i);
    }
}

fn entries_in(header: &Json) -> (entries: Option<Vec<MergedEntry>>)
    ensures
        match entries {
            Some(e) => Some(entries_of(e@)),
            None => None,
        } == listed(header.tree()),
{
    let tensors: &Vec<Json> = match header.get("tensors") {
        Some(j) => match j.as_array() {
            Some(list) => list,
            None => return None,
        },
        None => return None,
    };
    let ghost trees = header.tree().field("tensors"@)->Array_0;
    let mut out: Vec<MergedEntry> = Vec::new();
    let mut i: usize = 0;
    assert(entries_of(out@) =~= Seq::empty());
    while i < tensors.len()
        invariant
            i <= tensors@.len(),
            trees.len() == tensors@.len(),
            forall|k: int| 0 <= k < trees.len() ==> (#[trigger] tensors@[k]).tree() == trees[k],
            listed(header.tree()) == read_entries(trees),
            read_entries(trees.take(i as int)) == Some(entries_of(out@)),
        decreases tensors.len() - i,
    {
        assert(tensors@[i as int].tree() == trees[i as int]);
        match entry_of(&tensors[i]) {
            Some(e) => {
                let ghost before = entries_of(out@);
                out.push(e);
                assert(entries_of(out@) =~= before.push(e@));
            },
            None => {
                proof {
                    lemma_one_unread(trees, i as int);
                }
                return None;
            },
        }
        assert(trees.take(i + 1).drop_last() =~= trees.take(i as int));
        i = i + 1;
    }
    assert(trees.take(i as int) =~= trees);
    Some(out)
}

/// Reads a cache file: its tensors, where it is one of this identity. A file whose header does
/// not match, or that lists a tensor outside it, is ignored.
pub fn read_cache(file: &[u8], identity: &Json) -> (entries: Option<Vec<MergedEntry>>)
    ensures
        match entries {
            Some(e) => Some(entries_of(e@)),
            None => None,
        } == cached(file@, identity.tree()),
{
    let end: usize = match find_header(file) {
        Some(end) => end,
        None => return None,
    };
    let header: Json = match Json::parse(slice_subrange(file, 16, end)) {
        Some(header) => header,
        None => return None,
    };
    match header.get("identity") {
        Some(found) => {
            if !same_json(found, identity) {
                return None;
            }
        },
        None => return None,
    }
    match entries_in(&header) {
        Some(entries) => {
            if entries_fit(&entries, file.len()) {
                Some(entries)
            } else {
                None
            }
        },
        None => None,
    }
}

/// A tensor as a header spells it.
pub open spec fn entry_tree(e: Entry) -> Tree {
    Tree::Object(
        seq![
            ("ggml_type"@, json::count_tree(Some(e.ggml_type as u64))),
            ("in_dim"@, json::count_tree(Some(e.in_dim as u64))),
            ("len"@, json::count_tree(Some(e.len as u64))),
            ("name"@, Tree::Text(e.name)),
            ("offset"@, json::count_tree(Some(e.offset as u64))),
            ("out_dim"@, json::count_tree(Some(e.out_dim as u64))),
        ],
    )
}

pub open spec fn entry_trees(entries: Seq<Entry>) -> Seq<Tree> {
    entries.map_values(|e: Entry| entry_tree(e))
}

/// A header of an identity that lists these tensors.
pub open spec fn header_tree(identity: Tree, entries: Seq<Entry>) -> Tree {
    Tree::Object(
        seq![("identity"@, identity), ("tensors"@, Tree::Array(entry_trees(entries)))],
    )
}

/// A header's bytes.
pub open spec fn header_bytes(identity: Tree, entries: Seq<Entry>) -> Seq<u8> {
    encode_utf8(json::written(header_tree(identity, entries)))
}

proof fn lemma_entry(e: Entry)
    ensures
        json::ascending_keys(entry_tree(e)->Object_0),
        read_entry(entry_tree(e)) == Some(e),
        json::reads_back(entry_tree(e)),
        json::depth(entry_tree(e)) == 1,
{
    reveal_strlit("ggml_type");
    reveal_strlit("in_dim");
    reveal_strlit("len");
    reveal_strlit("name");
    reveal_strlit("offset");
    reveal_strlit("out_dim");
    reveal_strlit("$serde_json::private::RawValue");
    let tree = entry_tree(e);
    let fields = tree->Object_0;
    assert forall|i: int, j: int| 0 <= i < j < fields.len() implies text::precedes(
        (#[trigger] fields[i]).0,
        (#[trigger] fields[j]).0,
    ) by {
        if i == 4 {
            reveal_with_fuel(text::precedes, 2);
            assert(fields[4].0.drop_first()[0] == 'f' && fields[5].0.drop_first()[0] == 'u');
        }
    }
    reveal_with_fuel(json::field_index, 7);
    let (in_dim, offset) = ("in_dim"@, "offset"@);
    assert(in_dim[0] != offset[0]);
    assert(tree.field("ggml_type"@) == fields[0].1);
    assert(tree.field("in_dim"@) == fields[1].1);
    assert(tree.field("len"@) == fields[2].1);
    assert(tree.field("name"@) == fields[3].1);
    assert(tree.field("offset"@) == fields[4].1);
    assert(tree.field("out_dim"@) == fields[5].1);
    lemma_flat(fields);
    reveal_with_fuel(json::whole_only, 2);
    reveal_with_fuel(json::no_raw_key, 2);
    assert forall|i: int| 0 <= i < fields.len() implies (#[trigger] fields[i]).0
        != json::raw_key() by {
        assert(json::raw_key()[0] == '$');
        assert(fields[i].0[0] != '$');
    }
}

/// An object whose fields are no arrays and no objects is one level deep.
proof fn lemma_flat(fields: Seq<(Seq<char>, Tree)>)
    requires
        forall|i: int| 0 <= i < fields.len() ==> json::depth((#[trigger] fields[i]).1) == 0,
    ensures
        json::deepest_field(fields) == 0,
    decreases fields.len(),
{
    if fields.len() > 0 {
        lemma_flat(fields.drop_last());
    }
}

proof fn lemma_entries(entries: Seq<Entry>)
    ensures
        read_entries(entry_trees(entries)) == Some(entries),
        json::deepest(entry_trees(entries)) <= 1,
        forall|i: int|
            0 <= i < entries.len() ==> json::reads_back(#[trigger] entry_trees(entries)[i]),
    decreases entries.len(),
{
    let trees = entry_trees(entries);
    if entries.len() > 0 {
        let rest = entries.drop_last();
        lemma_entries(rest);
        lemma_entry(entries.last());
        assert(entry_trees(rest) =~= trees.drop_last());
        assert(rest.push(entries.last()) =~= entries);
        assert forall|i: int| 0 <= i < entries.len() implies json::reads_back(
            #[trigger] trees[i],
        ) by {
            if i < rest.len() {
                assert(trees[i] == entry_trees(rest)[i]);
            }
        }
    } else {
        assert(entries =~= Seq::empty());
    }
}

/// A header lists the tensors it was made of under its identity, and reads back where the
/// identity does.
proof fn lemma_header(identity: Tree, entries: Seq<Entry>)
    ensures
        json::ascending_keys(header_tree(identity, entries)->Object_0),
        listed(header_tree(identity, entries)) == Some(entries),
        has_identity(header_tree(identity, entries), identity),
        forall|other: Tree|
            other != identity ==> !#[trigger] has_identity(header_tree(identity, entries), other),
        json::reads_back(identity) && json::depth(identity) < 127 ==> json::reads_back(
            header_tree(identity, entries),
        ),
{
    reveal_strlit("identity");
    reveal_strlit("tensors");
    reveal_strlit("$serde_json::private::RawValue");
    let tree = header_tree(identity, entries);
    let fields = tree->Object_0;
    assert("identity"@[0] == 'i' && "tensors"@[0] == 't' && json::raw_key()[0] == '$');
    reveal_with_fuel(json::field_index, 3);
    assert(tree.field("identity"@) == fields[0].1);
    assert(tree.field("tensors"@) == fields[1].1);
    lemma_entries(entries);
    if json::reads_back(identity) && json::depth(identity) < 127 {
        assert(json::depth(fields[1].1) <= 2);
        assert(json::deepest_field(fields.drop_last().drop_last()) == 0);
        assert(json::deepest_field(fields.drop_last()) == json::depth(identity));
        assert(json::deepest_field(fields) <= 126);
        assert(json::depth(tree) <= 127);
        assert(fields.drop_last() =~= seq![("identity"@, identity)]);
        assert(fields.drop_last().drop_last() =~= Seq::empty());
        assert(json::whole_only(fields[1].1));
        assert(json::no_raw_key(fields[1].1));
        assert(json::whole_only(tree));
        assert(json::no_raw_key(tree));
    }
}

fn add_count(fields: &mut Vec<(String, serde_json::Value)>, key: &str, n: Option<u64>)
    ensures
        json::field_trees(final(fields)@) == json::field_trees(old(fields)@).push(
            (key@, json::count_tree(n)),
        ),
{
    fields.push((key.to_string(), count_of(n)));
    assert(json::field_trees(fields@) =~= json::field_trees(old(fields)@).push(
        (key@, json::count_tree(n)),
    ));
}

fn add_text(fields: &mut Vec<(String, serde_json::Value)>, key: &str, s: &str)
    ensures
        json::field_trees(final(fields)@) == json::field_trees(old(fields)@).push(
            (key@, Tree::Text(s@)),
        ),
{
    fields.push((key.to_string(), text_of(s.to_string())));
    assert(json::field_trees(fields@) =~= json::field_trees(old(fields)@).push(
        (key@, Tree::Text(s@)),
    ));
}

fn value_of(e: &MergedEntry) -> (value: serde_json::Value)
    ensures
        json::contents(value) == entry_tree(e@),
{
    let mut fields: Vec<(String, serde_json::Value)> = Vec::new();
    assert(json::field_trees(fields@) =~= Seq::empty());
    add_count(&mut fields, "ggml_type", Some(e.ggml_type as u64));
    add_count(&mut fields, "in_dim", Some(e.in_dim as u64));
    add_count(&mut fields, "len", Some(e.len as u64));
    add_text(&mut fields, "name", e.name.as_str());
    add_count(&mut fields, "offset", Some(e.offset as u64));
    add_count(&mut fields, "out_dim", Some(e.out_dim as u64));
    proof {
        assert(json::field_trees(fields@) =~= entry_tree(e@)->Object_0);
        lemma_entry(e@);
        json::lemma_collected_in_order(entry_tree(e@)->Object_0);
    }
    object_of(fields)
}

fn values_of(entries: &Vec<MergedEntry>) -> (value: serde_json::Value)
    ensures
        json::contents(value) == Tree::Array(entry_trees(entries_of(entries@))),
{
    let mut items: Vec<serde_json::Value> = Vec::new();
    let mut i: usize = 0;
    while i < entries.len()
        invariant
            i <= entries@.len(),
            items@.len() == i,
            forall|k: int|
                0 <= k < i ==> json::contents(#[trigger] items@[k]) == entry_tree(entries@[k]@),
        decreases entries.len() - i,
    {
        items.push(value_of(&entries[i]));
        i = i + 1;
    }
    assert(items@.map_values(|v: serde_json::Value| json::contents(v)) =~= entry_trees(
        entries_of(entries@),
    ));
    array_of(items)
}

/// Writes a header, and hands the identity back.
fn write_header(identity: serde_json::Value, entries: &Vec<MergedEntry>) -> (out: (
    Vec<u8>,
    serde_json::Value,
))
    ensures
        ({
            let tree = header_tree(json::contents(identity), entries_of(entries@));
            &&& out.0@ == header_bytes(json::contents(identity), entries_of(entries@))
            &&& json::reads_back(tree) ==> json::json_text(out.0@) == Some(tree)
            &&& json::contents(out.1) == json::contents(identity)
        }),
{
    let ghost id = json::contents(identity);
    let mut fields: Vec<(String, serde_json::Value)> = Vec::new();
    fields.push(("identity".to_string(), identity));
    fields.push(("tensors".to_string(), values_of(entries)));
    let ghost tree = header_tree(id, entries_of(entries@));
    proof {
        assert(json::field_trees(fields@) =~= tree->Object_0);
        lemma_header(id, entries_of(entries@));
        json::lemma_collected_in_order(tree->Object_0);
    }
    let header = object_of(fields);
    let bytes: Vec<u8> = match write_value(&header) {
        Some(s) => slice_to_vec(s.as_str().as_bytes()),
        None => Vec::new(),
    };
    let node = node_of(header);
    assert(tree == json::node_tree(node));
    if let Node::Object(fields) = node {
        let mut fields = fields;
        let ghost parts = fields@;
        assert(tree->Object_0[0] == (parts[0].0@, json::contents(parts[0].1)));
        let _ = fields.pop();
        if let Some(first) = fields.pop() {
            return (bytes, first.1);
        }
    }
    (bytes, count_of(None))
}

pub open spec fn lens_of(entries: Seq<Entry>) -> Seq<usize> {
    entries.map_values(|e: Entry| e.len)
}

pub open spec fn offsets_of(entries: Seq<Entry>) -> Seq<usize> {
    entries.map_values(|e: Entry| e.offset)
}

/// Tensors placed one after another from a start, each aligned.
pub open spec fn placed(entries: Seq<Entry>, start: int) -> Seq<Entry> {
    Seq::new(
        entries.len(),
        |i: int|
            Entry { offset: offset_of(lens_of(entries), start, i) as usize, ..entries[i] },
    )
}

/// Whether tensors placed from a start stay within the addresses there are.
pub open spec fn reachable(entries: Seq<Entry>, start: int) -> bool {
    offset_of(lens_of(entries), start, entries.len() as int) <= usize::MAX
}

/// The header of a file and its tensors where they go, trying a start for the data and going on
/// from where the header ends as long as it does not end before it.
pub open spec fn layout_from(identity: Tree, entries: Seq<Entry>, start: int) -> Option<
    (Seq<u8>, Seq<Entry>),
>
    decreases usize::MAX - start,
{
    let list = placed(entries, start);
    let header = header_bytes(identity, list);
    let end = 16 + header.len() as int;
    if start < 0 || !reachable(entries, start) {
        None
    } else if end <= start {
        Some((header, list))
    } else if aligned(end) > usize::MAX {
        None
    } else {
        layout_from(identity, entries, aligned(end))
    }
}

/// The header of a file and its tensors where they go, in passes over the header: its length
/// decides where the data starts, and the offsets in it depend on that. Nothing where the file
/// would reach past the last address.
pub open spec fn layout(identity: Tree, entries: Seq<Entry>) -> Option<(Seq<u8>, Seq<Entry>)> {
    layout_from(identity, entries, 0)
}

/// Whether a header and its tensors are laid out for a start of the data.
pub open spec fn laid_out(
    identity: Tree,
    entries: Seq<Entry>,
    header: Seq<u8>,
    list: Seq<Entry>,
    start: int,
) -> bool {
    &&& 0 <= start
    &&& start % 64 == 0
    &&& reachable(entries, start)
    &&& 16 + header.len() <= start
    &&& list == placed(entries, start)
    &&& header == header_bytes(identity, list)
}

proof fn lemma_layout(identity: Tree, entries: Seq<Entry>, from: int) -> (start: int)
    requires
        layout_from(identity, entries, from) is Some,
        from % 64 == 0,
    ensures
        laid_out(
            identity,
            entries,
            layout_from(identity, entries, from)->Some_0.0,
            layout_from(identity, entries, from)->Some_0.1,
            start,
        ),
        start <= usize::MAX,
    decreases usize::MAX - from,
{
    let list = placed(entries, from);
    let end = 16 + header_bytes(identity, list).len() as int;
    lemma_offsets_grow(lens_of(entries), from, 0, entries.len() as int);
    if end <= from {
        from
    } else {
        lemma_layout(identity, entries, aligned(end))
    }
}

pub open spec fn plan_view(plan: Option<(Vec<u8>, Vec<MergedEntry>)>) -> Option<
    (Seq<u8>, Seq<Entry>),
> {
    match plan {
        Some((header, entries)) => Some((header@, entries_of(entries@))),
        None => None,
    }
}

/// Whether these are the rows of these tensors, by their lengths.
pub open spec fn rows_fit(rows: Seq<Seq<u8>>, entries: Seq<Entry>) -> bool {
    rows.len() == entries.len() && forall|i: int|
        0 <= i < rows.len() ==> (#[trigger] rows[i]).len() == entries[i].len
}

/// The file that holds these rows, each at its tensor's offset.
pub open spec fn file_of(header: Seq<u8>, entries: Seq<Entry>, rows: Seq<Seq<u8>>) -> Seq<u8> {
    written(header, offsets_of(entries), rows, rows.len() as int)
}

/// Whether a file, read for an identity, lists these tensors and holds their rows at aligned
/// offsets past its header; and is no file of any other identity.
pub open spec fn holds(
    file: Seq<u8>,
    identity: Tree,
    entries: Seq<Entry>,
    rows: Seq<Seq<u8>>,
) -> bool {
    &&& cached(file, identity) == Some(entries)
    &&& forall|other: Tree| other != identity ==> #[trigger] cached(file, other) is None
    &&& forall|i: int|
        0 <= i < entries.len() ==> {
            let e = #[trigger] entries[i];
            &&& e.offset % 64 == 0
            &&& header_end(file) matches Some(end) && end <= e.offset
            &&& file.subrange(e.offset as int, e.offset + e.len) == rows[i]
        }
}

/// Whatever the rows, a file of this header and these tensors holds them for this identity.
pub open spec fn stores(header: Seq<u8>, entries: Seq<Entry>, identity: Tree) -> bool {
    forall|rows: Seq<Seq<u8>>| #[trigger]
        rows_fit(rows, entries) ==> holds(
            file_of(header, entries, rows),
            identity,
            entries,
            rows,
        )
}

proof fn lemma_written_len(
    header: Seq<u8>,
    entries: Seq<Entry>,
    rows: Seq<Seq<u8>>,
    start: int,
    n: int,
)
    requires
        0 <= n <= entries.len(),
        rows_fit(rows, entries),
        0 <= start,
        start % 64 == 0,
        16 + header.len() <= start,
        forall|i: int|
            0 <= i < entries.len() ==> (#[trigger] entries[i]).offset == offset_of(
                lens_of(entries),
                start,
                i,
            ),
    ensures
        written(header, offsets_of(entries), rows, n).len() == end_of(
            header.len() as int,
            offsets_of(entries),
            lens_of(entries),
            n,
        ),
        n < entries.len() ==> written(header, offsets_of(entries), rows, n).len()
            <= offsets_of(entries)[n],
    decreases n,
{
    let lens = lens_of(entries);
    if n > 0 {
        lemma_written_len(header, entries, rows, start, n - 1);
        assert(entries[n - 1].offset == offsets_of(entries)[n - 1]);
        assert(rows[n - 1].len() == entries[n - 1].len);
        if n < entries.len() {
            assert(entries[n].offset == offsets_of(entries)[n]);
            lemma_offsets_grow(lens, start, n - 1, n);
        }
    } else if entries.len() > 0 {
        assert(entries[0].offset == offsets_of(entries)[0]);
        lemma_offsets_grow(lens, start, 0, 0);
    }
}

proof fn lemma_layout_writable(identity: Tree, entries: Seq<Entry>, rows: Seq<Seq<u8>>)
    requires
        layout(identity, entries) is Some,
        rows_fit(rows, layout(identity, entries)->Some_0.1),
    ensures
        ({
            let (header, list) = layout(identity, entries)->Some_0;
            &&& writable(header, offsets_of(list), rows)
            &&& in_bounds(list, file_of(header, list, rows).len() as int)
            &&& lens_of(list) == lens_of(entries)
            &&& forall|i: int|
                0 <= i < list.len() ==> (#[trigger] list[i]).offset % 64 == 0 && 16 + header.len()
                    <= list[i].offset
        }),
{
    let (header, list) = layout(identity, entries)->Some_0;
    let start = lemma_layout(identity, entries, 0);
    let n = list.len() as int;
    assert(lens_of(list) =~= lens_of(entries));
    assert forall|i: int| 0 <= i < n implies (#[trigger] list[i]).offset == offset_of(
        lens_of(list),
        start,
        i,
    ) && list[i].offset % 64 == 0 && start <= list[i].offset by {
        lemma_offsets_grow(lens_of(list), start, i, n);
    }
    assert forall|i: int| 0 <= i < n implies written(header, offsets_of(list), rows, i).len()
        <= #[trigger] offsets_of(list)[i] by {
        lemma_written_len(header, list, rows, start, i);
    }
    let file = file_of(header, list, rows);
    assert forall|i: int| 0 <= i < n implies (#[trigger] list[i]).offset + list[i].len
        <= file.len() by {
        lemma_written_len(header, list, rows, start, i + 1);
        lemma_written_prefix(header, offsets_of(list), rows, i + 1, n);
        assert(offsets_of(list)[i] == list[i].offset && lens_of(list)[i] == list[i].len);
    }
}

/// A cache reads back: a file laid out for an identity and written with each tensor's rows is a
/// hit for that identity and for no other. It lists the tensors it was laid out for, and each
/// one's rows stand unchanged at its offset, aligned and past the header.
pub proof fn law_a_stored_cache_is_a_hit(
    identity: Tree,
    entries: Seq<Entry>,
    rows: Seq<Seq<u8>>,
)
    requires
        layout(identity, entries) matches Some((header, list)) && rows_fit(rows, list)
            && json::json_text(header) == Some(header_tree(identity, list)),
    ensures
        ({
            let (header, list) = layout(identity, entries)->Some_0;
            &&& holds(file_of(header, list, rows), identity, list, rows)
            &&& list.len() == entries.len()
            &&& forall|i: int|
                0 <= i < list.len() ==> #[trigger] list[i] == (Entry {
                    offset: list[i].offset,
                    ..entries[i]
                })
        }),
{
    let (header, list) = layout(identity, entries)->Some_0;
    let _ = lemma_layout(identity, entries, 0);
    let file = file_of(header, list, rows);
    let n = rows.len() as int;
    lemma_layout_writable(identity, entries, rows);
    lemma_header(identity, list);
    lemma_written_prefix(header, offsets_of(list), rows, 0, n);
    lemma_front(header, file);
    assert forall|i: int| 0 <= i < list.len() implies file.subrange(
        (#[trigger] list[i]).offset as int,
        list[i].offset + list[i].len,
    ) == rows[i] by {
        law_what_is_written_reads_back(header, offsets_of(list), rows, i);
        assert(offsets_of(list)[i] == list[i].offset);
    }
}

fn set_offsets(entries: &mut Vec<MergedEntry>, offsets: &Vec<usize>, Ghost(start): Ghost<int>)
    requires
        offsets@.len() == old(entries)@.len(),
        forall|i: int|
            0 <= i < offsets@.len() ==> #[trigger] offsets@[i] == offset_of(
                lens_of(entries_of(old(entries)@)),
                start,
                i,
            ),
    ensures
        entries_of(final(entries)@) == placed(entries_of(old(entries)@), start),
{
    let ghost before = entries_of(entries@);
    let mut i: usize = 0;
    while i < offsets.len()
        invariant
            i <= offsets@.len(),
            offsets@.len() == entries@.len(),
            before.len() == entries@.len(),
            forall|k: int|
                0 <= k < offsets@.len() ==> #[trigger] offsets@[k] == offset_of(
                    lens_of(before),
                    start,
                    k,
                ),
            forall|k: int|
                0 <= k < i ==> (#[trigger] entries@[k])@ == (Entry {
                    offset: offsets@[k],
                    ..before[k]
                }),
            forall|k: int| i <= k < before.len() ==> (#[trigger] entries@[k])@ == before[k],
        decreases offsets.len() - i,
    {
        assert(entries@[i as int]@ == before[i as int]);
        entries[i].offset = offsets[i];
        i = i + 1;
    }
    assert(entries_of(entries@) =~= placed(before, start));
}

fn lens(entries: &Vec<MergedEntry>) -> (lens: Vec<usize>)
    ensures
        lens@ == lens_of(entries_of(entries@)),
{
    let mut out: Vec<usize> = Vec::new();
    let mut i: usize = 0;
    while i < entries.len()
        invariant
            i <= entries@.len(),
            out@.len() == i,
            forall|k: int| 0 <= k < i ==> #[trigger] out@[k] == entries@[k].len,
        decreases entries.len() - i,
    {
        out.push(entries[i].len);
        i = i + 1;
    }
    assert(out@ =~= lens_of(entries_of(entries@)));
    out
}

/// Lays a file out: its header, and its tensors with the offsets they go to.
pub fn lay_out(identity: serde_json::Value, entries: Vec<MergedEntry>) -> (plan: Option<
    (Vec<u8>, Vec<MergedEntry>),
>)
    ensures
        plan_view(plan) == layout(json::contents(identity), entries_of(entries@)),
        plan matches Some((header, list)) ==> json::reads_back(json::contents(identity))
            && json::depth(json::contents(identity)) < 127 ==> stores(
            header@,
            entries_of(list@),
            json::contents(identity),
        ),
{
    let ghost id = json::contents(identity);
    let ghost given = entries_of(entries@);
    let lens = lens(&entries);
    let mut list = entries;
    let mut held = identity;
    let mut start: usize = 0;
    let mut header: Vec<u8>;
    assert(placed(given, 0).len() == given.len());
    loop
        invariant_except_break
            id == json::contents(identity),
            given == entries_of(entries@),
            json::contents(held) == id,
            lens@ == lens_of(given),
            lens_of(entries_of(list@)) == lens_of(given),
            forall|at: int|
                #![trigger placed(given, at)]
                placed(entries_of(list@), at) == placed(given, at),
            layout(id, given) == layout_from(id, given, start as int),
        ensures
            layout(id, given) == Some((header@, entries_of(list@))),
            json::reads_back(header_tree(id, entries_of(list@))) ==> json::json_text(header@)
                == Some(header_tree(id, entries_of(list@))),
        decreases usize::MAX - start,
    {
        let offsets = match place(&lens, start) {
            Some(offsets) => offsets,
            None => return None,
        };
        set_offsets(&mut list, &offsets, Ghost(start as int));
        assert(entries_of(list@) == placed(given, start as int));
        let (written, again) = write_header(held, &list);
        held = again;
        header = written;
        if start >= 16 && header.len() <= start - 16 {
            break;
        }
        proof {
            assert(lens_of(entries_of(list@)) =~= lens_of(given));
            assert forall|at: int|
                #![trigger placed(given, at)]
                placed(entries_of(list@), at) == placed(given, at) by {
                assert(placed(entries_of(list@), at) =~= placed(given, at));
            }
        }
        start = match data_start(header.len()) {
            Some(next) => next,
            None => return None,
        };
    }
    proof {
        let placed_list = entries_of(list@);
        lemma_header(id, placed_list);
        if json::reads_back(id) && json::depth(id) < 127 {
            assert forall|rows: Seq<Seq<u8>>| #[trigger] rows_fit(rows, placed_list) implies holds(
                file_of(header@, placed_list, rows),
                id,
                placed_list,
                rows,
            ) by {
                law_a_stored_cache_is_a_hit(id, given, rows);
            }
        }
    }
    Some((header, list))
}

/// What identifies a file: where it is, how big it is, and when it last changed, as far as that
/// can be told.
#[derive(Debug)]
pub struct FileIdentity {
    pub path: String,
    pub len: Option<u64>,
    pub mtime: Option<u64>,
}

/// A [`FileIdentity`] by the values it holds.
pub struct Identified {
    pub path: Seq<char>,
    pub len: Option<u64>,
    pub mtime: Option<u64>,
}

impl View for FileIdentity {
    type V = Identified;

    open spec fn view(&self) -> Identified {
        Identified { path: self.path@, len: self.len, mtime: self.mtime }
    }
}

/// A file's identity as a header spells it.
pub open spec fn file_tree(file: Identified) -> Tree {
    Tree::Object(
        seq![
            ("len"@, json::count_tree(file.len)),
            ("mtime"@, json::count_tree(file.mtime)),
            ("path"@, Tree::Text(file.path)),
        ],
    )
}

/// The identity of a model merged with an adapter.
pub open spec fn identity_tree(model: Identified, lora: Identified) -> Tree {
    Tree::Object(
        seq![
            ("lora"@, file_tree(lora)),
            ("model"@, file_tree(model)),
            ("version"@, json::count_tree(Some(1))),
        ],
    )
}

proof fn lemma_file(file: Identified)
    ensures
        json::ascending_keys(file_tree(file)->Object_0),
        json::reads_back(file_tree(file)),
        json::depth(file_tree(file)) == 1,
{
    reveal_strlit("len");
    reveal_strlit("mtime");
    reveal_strlit("path");
    reveal_strlit("$serde_json::private::RawValue");
    let fields = file_tree(file)->Object_0;
    assert(fields[0].0[0] == 'l' && fields[1].0[0] == 'm' && fields[2].0[0] == 'p');
    assert(json::raw_key()[0] == '$');
    lemma_flat(fields);
    reveal_with_fuel(json::whole_only, 2);
    reveal_with_fuel(json::no_raw_key, 2);
}

proof fn lemma_identity(model: Identified, lora: Identified)
    ensures
        json::ascending_keys(identity_tree(model, lora)->Object_0),
        json::reads_back(identity_tree(model, lora)),
        json::depth(identity_tree(model, lora)) < 127,
{
    reveal_strlit("lora");
    reveal_strlit("model");
    reveal_strlit("version");
    reveal_strlit("$serde_json::private::RawValue");
    let tree = identity_tree(model, lora);
    let fields = tree->Object_0;
    assert(fields[0].0[0] == 'l' && fields[1].0[0] == 'm' && fields[2].0[0] == 'v');
    assert(json::raw_key()[0] == '$');
    lemma_file(model);
    lemma_file(lora);
    let two = fields.drop_last();
    let one = two.drop_last();
    assert(json::deepest_field(one.drop_last()) == 0);
    assert(json::deepest_field(one) == 1);
    assert(json::deepest_field(two) == 1);
    assert(json::depth(fields[2].1) == 0);
    assert(json::deepest_field(fields) == 1);
    assert(json::whole_only(fields[2].1) && json::no_raw_key(fields[2].1));
}

/// A cache is keyed on both files: no two pairs of a model and an adapter that differ in where
/// one of them is, in how big it is or in when it last changed have one identity.
pub proof fn law_the_key_is_both_files(
    model: Identified,
    lora: Identified,
    other_model: Identified,
    other_lora: Identified,
)
    requires
        identity_tree(model, lora) == identity_tree(other_model, other_lora),
    ensures
        model == other_model,
        lora == other_lora,
{
    let (a, b) = (
        identity_tree(model, lora)->Object_0,
        identity_tree(other_model, other_lora)->Object_0,
    );
    assert(a[0] == b[0] && a[1] == b[1]);
    let (x, y) = (a[1].1->Object_0, b[1].1->Object_0);
    assert(x[0] == y[0] && x[1] == y[1] && x[2] == y[2]);
    let (x, y) = (a[0].1->Object_0, b[0].1->Object_0);
    assert(x[0] == y[0] && x[1] == y[1] && x[2] == y[2]);
}

fn file_value(file: &FileIdentity) -> (value: serde_json::Value)
    ensures
        json::contents(value) == file_tree(file@),
{
    let mut fields: Vec<(String, serde_json::Value)> = Vec::new();
    assert(json::field_trees(fields@) =~= Seq::empty());
    add_count(&mut fields, "len", file.len);
    add_count(&mut fields, "mtime", file.mtime);
    add_text(&mut fields, "path", file.path.as_str());
    proof {
        assert(json::field_trees(fields@) =~= file_tree(file@)->Object_0);
        lemma_file(file@);
        json::lemma_collected_in_order(file_tree(file@)->Object_0);
    }
    object_of(fields)
}

/// The identity of a model merged with an adapter.
pub fn identity_of(model: &FileIdentity, lora: &FileIdentity) -> (identity: serde_json::Value)
    ensures
        json::contents(identity) == identity_tree(model@, lora@),
{
    let mut fields: Vec<(String, serde_json::Value)> = Vec::new();
    fields.push(("lora".to_string(), file_value(lora)));
    fields.push(("model".to_string(), file_value(model)));
    fields.push(("version".to_string(), count_of(Some(1))));
    proof {
        assert(json::field_trees(fields@) =~= identity_tree(model@, lora@)->Object_0);
        lemma_identity(model@, lora@);
        json::lemma_collected_in_order(identity_tree(model@, lora@)->Object_0);
    }
    object_of(fields)
}

/// The name of the cache file of an identity.
pub open spec fn name_spec(identity: Tree) -> Seq<char> {
    hex(sha256_of(encode_utf8(json::written(identity))), 16) + ".bin"@
}

/// The name of the file that a merge of these two files is kept in.
pub fn cache_name(model: &FileIdentity, lora: &FileIdentity) -> (name: String)
    ensures
        name@ == name_spec(identity_tree(model@, lora@)),
{
    match write_value(&identity_of(model, lora)) {
        Some(s) => cache_file(s.as_str()),
        None => String::new(),
    }
}

/// What is pending cannot be laid out: it would reach past the last address.
#[derive(Debug, Clone, Copy, PartialEq, Eq)]
pub struct NoRoom;

/// What is written of a cache: the file's beginning, its tensors with their offsets, the zero
/// bytes before each tensor's rows, and how long the file is at the end.
#[derive(Debug)]
pub struct Flush {
    pub front: Vec<u8>,
    pub entries: Vec<MergedEntry>,
    pub pads: Vec<usize>,
    pub total: usize,
}

/// The merged tensors of a model and an adapter: those a matching file was found to hold, and
/// those merged since, to be written.
#[derive(Debug)]
pub struct MergedCache {
    pub model: FileIdentity,
    pub lora: FileIdentity,
    pub hit: Option<Vec<MergedEntry>>,
    pub pending: Vec<MergedEntry>,
}

/// A plan to write what is pending: nothing where there is nothing, an error where it cannot be
/// laid out.
pub open spec fn flush_spec(identity: Tree, pending: Seq<Entry>, flush: Result<Option<Flush>, NoRoom>)
    -> bool {
    if pending.len() == 0 {
        flush == Ok::<Option<Flush>, NoRoom>(None)
    } else {
        match layout(identity, pending) {
            None => flush is Err,
            Some((header, list)) => flush matches Ok(Some(f)) && {
                let (offsets, lens) = (offsets_of(list), lens_of(list));
                &&& f.front@ == front(header)
                &&& entries_of(f.entries@) == list
                &&& f.pads@.len() == list.len()
                &&& forall|i: int|
                    0 <= i < list.len() ==> #[trigger] f.pads@[i] == offsets[i] - end_of(
                        header.len() as int,
                        offsets,
                        lens,
                        i,
                    )
                &&& f.total == end_of(header.len() as int, offsets, lens, list.len() as int)
            },
        }
    }
}

impl MergedCache {
    pub open spec fn identity(self) -> Tree {
        identity_tree(self.model@, self.lora@)
    }

    /// The tensors found, where there was a matching file.
    pub open spec fn found(self) -> Option<Seq<Entry>> {
        match self.hit {
            Some(entries) => Some(entries_of(entries@)),
            None => None,
        }
    }

    /// The name of the file this merge is kept in.
    pub fn path(&self) -> (name: String)
        ensures
            name@ == name_spec(self.identity()),
    {
        cache_name(&self.model, &self.lora)
    }

    /// Looks for a cached merge of a model with an adapter in what its file holds, where there is
    /// one.
    pub fn open(model: FileIdentity, lora: FileIdentity, file: Option<&[u8]>) -> (cache:
        MergedCache)
        ensures
            cache.model == model,
            cache.lora == lora,
            cache.found() == match file {
                Some(bytes) => cached(bytes@, identity_tree(model@, lora@)),
                None => None,
            },
            cache.pending@.len() == 0,
    {
        let hit: Option<Vec<MergedEntry>> = match file {
            Some(bytes) => read_cache(bytes, &Json::of_value(identity_of(&model, &lora))),
            None => None,
        };
        MergedCache { model, lora, hit, pending: Vec::new() }
    }

    /// Whether a matching file was found: the merge can be skipped.
    pub fn is_hit(&self) -> (yes: bool)
        ensures
            yes == (self.found() is Some),
    {
        self.hit.is_some()
    }

    /// Where the cached tensor for `name` stands in the file, and how many bytes it has, where it
    /// has the type and shape of the weights it is to stand in for.
    pub fn get(&self, name: &str, ggml_type: u32, in_dim: usize, out_dim: usize) -> (range: Option<
        (usize, usize),
    >)
        ensures
            range == match self.found() {
                Some(entries) => match entry_index(entries, name@, 0) {
                    Some(i) => if entries[i].in_dim == in_dim && entries[i].out_dim == out_dim
                        && entries[i].ggml_type == ggml_type {
                        Some((entries[i].offset, entries[i].len))
                    } else {
                        None
                    },
                    None => None,
                },
                None => None,
            },
    {
        match &self.hit {
            Some(entries) => {
                let at = find_entry(entries, name, ggml_type, in_dim, out_dim);
                proof {
                    if entry_index(entries_of(entries@), name@, 0) is Some {
                        lemma_entry_index(entries_of(entries@), name@, 0);
                    }
                }
                match at {
                    Some(i) => {
                        assert(entries_of(entries@)[i as int] == entries@[i as int]@);
                        Some((entries[i].offset, entries[i].len))
                    },
                    None => None,
                }
            },
            None => None,
        }
    }

    /// Records a tensor that was merged, for [`Self::flush`].
    pub fn put(&mut self, name: &str, ggml_type: u32, in_dim: usize, out_dim: usize, len: usize)
        ensures
            final(self).model == old(self).model,
            final(self).lora == old(self).lora,
            final(self).hit == old(self).hit,
            entries_of(final(self).pending@) == entries_of(old(self).pending@).push(
                Entry { name: name@, ggml_type, in_dim, out_dim, offset: 0, len },
            ),
    {
        self.pending.push(
            MergedEntry { name: name.to_string(), ggml_type, in_dim, out_dim, offset: 0, len },
        );
        assert(entries_of(self.pending@) =~= entries_of(old(self).pending@).push(
            Entry { name: name@, ggml_type, in_dim, out_dim, offset: 0, len },
        ));
    }

    /// How what was merged is to be written; nothing pending writes nothing. An error where it
    /// cannot be laid out. Opened again for the same two files, what was written is a hit.
    pub fn flush(&self) -> (flush: Result<Option<Flush>, NoRoom>)
        ensures
            flush_spec(self.identity(), entries_of(self.pending@), flush),
            flush matches Ok(Some(f)) ==> stores(
                layout(self.identity(), entries_of(self.pending@))->Some_0.0,
                entries_of(f.entries@),
                self.identity(),
            ),
    {
        if self.pending.len() == 0 {
            return Ok(None);
        }
        let mut entries: Vec<MergedEntry> = Vec::new();
        let mut i: usize = 0;
        while i < self.pending.len()
            invariant
                i <= self.pending@.len(),
                entries@.len() == i,
                forall|k: int| 0 <= k < i ==> (#[trigger] entries@[k])@ == self.pending@[k]@,
            decreases self.pending.len() - i,
        {
            let e = &self.pending[i];
            entries.push(
                MergedEntry {
                    name: e.name.as_str().to_string(),
                    ggml_type: e.ggml_type,
                    in_dim: e.in_dim,
                    out_dim: e.out_dim,
                    offset: e.offset,
                    len: e.len,
                },
            );
            i = i + 1;
        }
        let ghost given = entries_of(self.pending@);
        assert(entries_of(entries@) =~= given);
        let (header, entries) = match lay_out(identity_of(&self.model, &self.lora), entries) {
            Some(plan) => plan,
            None => return Err(NoRoom),
        };
        let lens = lens(&entries);
        let mut offsets: Vec<usize> = Vec::new();
        let mut i: usize = 0;
        while i < entries.len()
            invariant
                i <= entries@.len(),
                offsets@.len() == i,
                forall|k: int| 0 <= k < i ==> #[trigger] offsets@[k] == entries@[k].offset,
            decreases entries.len() - i,
        {
            offsets.push(entries[i].offset);
            i = i + 1;
        }
        let ghost list = entries_of(entries@);
        assert(offsets@ =~= offsets_of(list));
        proof {
            lemma_identity(self.model@, self.lora@);
            lemma_layout_ends(self.identity(), given, header@, list);
        }
        match paddings(header.len(), &offsets, &lens) {
            Some((pads, total)) => {
                let front = front_bytes(header.as_slice());
                Ok(Some(Flush { front, entries, pads, total }))
            },
            None => Err(NoRoom),
        }
    }

    /// What was pending has been written.
    pub fn flushed(&mut self)
        ensures
            final(self).model == old(self).model,
            final(self).lora == old(self).lora,
            final(self).hit == old(self).hit,
            final(self).pending@.len() == 0,
    {
        self.pending.clear();
    }
}

proof fn lemma_entry_index(entries: Seq<Entry>, name: Seq<char>, from: int)
    requires
        entry_index(entries, name, from) is Some,
    ensures
        0 <= entry_index(entries, name, from)->Some_0 < entries.len(),
    decreases entries.len() - from,
{
    if 0 <= from < entries.len() && entries[from].name != name {
        lemma_entry_index(entries, name, from + 1);
    }
}

/// Of a layout, what comes before each tensor ends at or before its offset.
proof fn lemma_layout_ends(
    identity: Tree,
    entries: Seq<Entry>,
    header: Seq<u8>,
    list: Seq<Entry>,
)
    requires
        layout(identity, entries) == Some((header, list)),
    ensures
        16 + header.len() <= usize::MAX,
        forall|i: int|
            0 <= i < list.len() ==> end_of(
                header.len() as int,
                offsets_of(list),
                lens_of(list),
                i,
            ) <= #[trigger] offsets_of(list)[i] && offsets_of(list)[i] + lens_of(list)[i]
                <= usize::MAX,
{
    let start = lemma_layout(identity, entries, 0);
    let n = list.len() as int;
    assert(lens_of(list) =~= lens_of(entries));
    assert forall|i: int| 0 <= i < n implies end_of(
        header.len() as int,
        offsets_of(list),
        lens_of(list),
        i,
    ) <= #[trigger] offsets_of(list)[i] && offsets_of(list)[i] + lens_of(list)[i] <= usize::MAX by {
        lemma_offsets_grow(lens_of(list), start, i, n);
        if i > 0 {
            lemma_offsets_grow(lens_of(list), start, i - 1, i);
            lemma_offsets_grow(lens_of(list), start, i - 1, n);
        }
    }
}

/// Of tensors with different names, each is found by its own, and no other name finds one.
pub proof fn law_each_tensor_is_found_by_its_name(entries: Seq<Entry>, name: Seq<char>, i: int)
    requires
        forall|j: int, k: int|
            0 <= j < k < entries.len() ==> (#[trigger] entries[j]).name != (
            #[trigger] entries[k]).name,
    ensures
        0 <= i < entries.len() ==> entry_index(entries, entries[i].name, 0) == Some(i),
        (forall|j: int| 0 <= j < entries.len() ==> (#[trigger] entries[j]).name != name)
            ==> entry_index(entries, name, 0) is None,
{
    if 0 <= i < entries.len() {
        lemma_found_from(entries, i, 0);
    }
    if forall|j: int| 0 <= j < entries.len() ==> (#[trigger] entries[j]).name != name {
        lemma_not_found(entries, name, 0);
    }
}

proof fn lemma_found_from(entries: Seq<Entry>, i: int, from: int)
    requires
        0 <= from <= i < entries.len(),
        forall|j: int, k: int|
            0 <= j < k < entries.len() ==> (#[trigger] entries[j]).name != (
            #[trigger] entries[k]).name,
    ensures
        entry_index(entries, entries[i].name, from) == Some(i),
    decreases i - from,
{
    if from < i {
        lemma_found_from(entries, i, from + 1);
    }
}

proof fn lemma_not_found(entries: Seq<Entry>, name: Seq<char>, from: int)
    requires
        0 <= from <= entries.len(),
        forall|j: int| 0 <= j < entries.len() ==> (#[trigger] entries[j]).name != name,
    ensures
        entry_index(entries, name, from) is None,
    decreases entries.len() - from,
{
    if from < entries.len() {
        lemma_not_found(entries, name, from + 1);
    }
}

/// A digest is spelled two digits a byte, the high half first, in small letters; a file is named
/// by half of it.
pub proof fn law_a_byte_is_two_digits(bytes: Seq<u8>, n: int, i: int, d: int)
    requires
        0 <= i < n,
        0 <= d < 16,
    ensures
        hex(bytes, n).len() == 2 * n,
        hex(bytes, n)[2 * i] == hex_digit(bytes[i] as int / 16),
        hex(bytes, n)[2 * i + 1] == hex_digit(bytes[i] as int % 16),
        hex_digit(d) == seq![
            '0', '1', '2', '3', '4', '5', '6', '7', '8', '9', 'a', 'b', 'c', 'd', 'e', 'f',
        ][d],
    decreases n,
{
    if n > 1 {
        law_a_byte_is_two_digits(bytes, n - 1, if i < n - 1 { i } else { 0 }, d);
    } else {
        assert(hex(bytes, 0).len() == 0);
    }
    assert(hex(bytes, n - 1).len() == 2 * (n - 1));
}

/// The next place to align to is less than a line away; and between two tensors there is never as
/// much as a line left empty.
pub proof fn law_alignment_wastes_less_than_a_line(lens: Seq<usize>, start: int, i: int)
    requires
        0 <= start,
        0 <= i < lens.len(),
    ensures
        aligned(start) % 64 == 0,
        start <= aligned(start) < start + 64,
        start <= offset_of(lens, start, 0) < start + 64,
        offset_of(lens, start, i) + lens[i] <= offset_of(lens, start, i + 1) < offset_of(
            lens,
            start,
            i,
        ) + lens[i] + 64,
{
}

/// A file begins with its eight letters, the header's length, low byte first, and the header.
pub proof fn law_a_file_begins_with_its_letters(header: Seq<u8>)
    requires
        header.len() <= u64::MAX,
    ensures
        ({
            let f = front(header);
            &&& f.len() == 16 + header.len()
            &&& f[0] as char == 'O' && f[1] as char == 'R' && f[2] as char == 'M' && f[3] as char
                == 'E' && f[4] as char == 'R' && f[5] as char == 'G' && f[6] as char == 'E'
                && f[7] as char == '1'
            &&& f[8] + 0x100 * f[9] + 0x1_0000 * f[10] + 0x100_0000 * f[11] + 0x1_0000_0000 * f[12]
                + 0x100_0000_0000 * f[13] + 0x1_0000_0000_0000 * f[14] + 0x100_0000_0000_0000
                * f[15] == header.len()
            &&& f.skip(16) == header
        }),
{
    let f = front(header);
    let x = header.len() as u64;
    let low = (x % 0x1_0000_0000) as u32;
    let high = (x / 0x1_0000_0000) as u32;
    quantize::law_bytes_count_from_the_low_end(0, low);
    quantize::law_bytes_count_from_the_low_end(0, high);
    assert(f[8] == quantize::le32(low)[0] && f[9] == quantize::le32(low)[1] && f[10]
        == quantize::le32(low)[2] && f[11] == quantize::le32(low)[3]);
    assert(f[12] == quantize::le32(high)[0] && f[13] == quantize::le32(high)[1] && f[14]
        == quantize::le32(high)[2] && f[15] == quantize::le32(high)[3]);
    assert(f.skip(16) =~= header);
}

/// What is trusted of a file: it begins as one does, its header is of this identity, and it lists
/// only tensors that lie in the file. Anything else is no cache at all.
pub proof fn law_only_a_sound_file_is_trusted(file: Seq<u8>, identity: Tree, i: int)
    requires
        cached(file, identity) is Some,
        0 <= i < cached(file, identity)->0.len(),
    ensures
        ({
            let entries = cached(file, identity)->0;
            let n = ieee::from_le64(file, 8) as usize;
            let header = json::json_text(file.subrange(16, 16 + n));
            &&& file.len() >= 16 + n
            &&& file[0] as char == 'O' && file[7] as char == '1'
            &&& header is Some && header->0.field("identity"@) == identity && header->0.has(
                "identity"@,
            )
            &&& header->0.field("tensors"@) is Array && header->0.field("tensors"@)->Array_0.len()
                == entries.len()
            &&& entries[i].offset + entries[i].len <= file.len()
            &&& read_entry(header->0.field("tensors"@)->Array_0[i]) == Some(entries[i])
        }),
{
    let end = header_end(file)->0;
    let header = json::json_text(file.subrange(16, end))->0;
    let tensors = header.field("tensors"@)->Array_0;
    lemma_each_read(tensors, i);
    assert(file.take(8)[0] == file[0] && file.take(8)[7] == file[7]);
}

proof fn lemma_each_read(tensors: Seq<Tree>, i: int)
    requires
        read_entries(tensors) is Some,
    ensures
        read_entries(tensors)->0.len() == tensors.len(),
        0 <= i < tensors.len() ==> read_entry(tensors[i]) == Some(read_entries(tensors)->0[i]),
    decreases tensors.len(),
{
    if tensors.len() > 0 {
        lemma_each_read(tensors.drop_last(), i);
    }
}

/// A header's tensor is read from the fields that carry its parts, each under its own name; one
/// that misses a part, or whose part is of another kind, is not read.
pub proof fn law_a_tensor_is_read_from_its_fields(tensor: Tree, e: Entry)
    requires
        tensor is Object,
    ensures
        read_entry(tensor) == Some(e) ==> {
            &&& tensor.field("name"@) == Tree::Text(e.name)
            &&& tensor.field("ggml_type"@).as_u64() == Some(e.ggml_type as u64)
            &&& tensor.field("in_dim"@).as_u64() == Some(e.in_dim as u64)
            &&& tensor.field("out_dim"@).as_u64() == Some(e.out_dim as u64)
            &&& tensor.field("offset"@).as_u64() == Some(e.offset as u64)
            &&& tensor.field("len"@).as_u64() == Some(e.len as u64)
        },
        read_entry(tensor) is None ==> !(tensor.field("name"@) is Text) || tensor.field(
            "ggml_type"@,
        ).as_u64() is None || tensor.field("in_dim"@).as_u64() is None || tensor.field(
            "out_dim"@,
        ).as_u64() is None || tensor.field("offset"@).as_u64() is None || tensor.field(
            "len"@,
        ).as_u64() is None || tensor.field("ggml_type"@).as_u64()->0 > u32::MAX || tensor.field(
            "in_dim"@,
        ).as_u64()->0 > usize::MAX || tensor.field("out_dim"@).as_u64()->0 > usize::MAX
            || tensor.field("offset"@).as_u64()->0 > usize::MAX || tensor.field("len"@).as_u64()->0
            > usize::MAX,
{
}

/// An identity names the two files under their own keys, each by its path, its length and its
/// time, and the version of the layout.
pub proof fn law_an_identity_says_what_it_is_of(model: Identified, lora: Identified)
    ensures
        ({
            let id = identity_tree(model, lora);
            &&& id.field("version"@).as_u64() == Some(1u64)
            &&& id.field("model"@).field("path"@) == Tree::Text(model.path)
            &&& id.field("model"@).field("len"@) == json::count_tree(model.len)
            &&& id.field("model"@).field("mtime"@) == json::count_tree(model.mtime)
            &&& id.field("lora"@).field("path"@) == Tree::Text(lora.path)
            &&& id.field("lora"@).field("len"@) == json::count_tree(lora.len)
            &&& id.field("lora"@).field("mtime"@) == json::count_tree(lora.mtime)
        }),
{
    reveal_strlit("lora");
    reveal_strlit("model");
    reveal_strlit("version");
    reveal_strlit("len");
    reveal_strlit("mtime");
    reveal_strlit("path");
    reveal_with_fuel(json::field_index, 4);
    let id = identity_tree(model, lora);
    assert("lora"@[0] == 'l' && "model"@[0] == 'm' && "version"@[0] == 'v');
    assert("len"@[0] == 'l' && "mtime"@[0] == 'm' && "path"@[0] == 'p');
    assert(id.field("lora"@) == file_tree(lora));
    assert(id.field("model"@) == file_tree(model));
    assert(id.field("version"@) == json::count_tree(Some(1)));
    lemma_file_fields(model);
    lemma_file_fields(lora);
}

proof fn lemma_file_fields(file: Identified)
    ensures
        file_tree(file).field("path"@) == Tree::Text(file.path),
        file_tree(file).field("len"@) == json::count_tree(file.len),
        file_tree(file).field("mtime"@) == json::count_tree(file.mtime),
{
    reveal_strlit("len");
    reveal_strlit("mtime");
    reveal_strlit("path");
    reveal_with_fuel(json::field_index, 4);
    assert("len"@[0] == 'l' && "mtime"@[0] == 'm' && "path"@[0] == 'p');
}

/// Whether a start is where a header ends that was written for some earlier start, aligned.
pub open spec fn follows_a_header(identity: Tree, entries: Seq<Entry>, start: int) -> bool {
    exists|before: int|
        start == aligned(16 + (#[trigger] header_bytes(identity, placed(entries, before))).len() as int)
}

/// The data of a file begins where a header ended, no further on: its tensors follow on one
/// another from there.
pub proof fn law_the_data_follows_a_header(identity: Tree, entries: Seq<Entry>)
    requires
        layout(identity, entries) is Some,
    ensures
        exists|start: int| #[trigger]
            follows_a_header(identity, entries, start) && layout(identity, entries)->Some_0.1
                == placed(entries, start),
{
    let _ = lemma_layout_start(identity, entries, 0);
}

proof fn lemma_layout_start(identity: Tree, entries: Seq<Entry>, from: int) -> (start: int)
    requires
        layout_from(identity, entries, from) is Some,
        from % 64 == 0,
        from == 0 || follows_a_header(identity, entries, from),
    ensures
        follows_a_header(identity, entries, start),
        layout_from(identity, entries, from)->Some_0.1 == placed(entries, start),
    decreases usize::MAX - from,
{
    let list = placed(entries, from);
    let header = header_bytes(identity, list);
    let end = 16 + header.len() as int;
    if end <= from {
        from
    } else {
        assert(aligned(end) == aligned(16 + header_bytes(identity, placed(entries, from)).len() as int));
        assert(follows_a_header(identity, entries, aligned(end)));
        lemma_layout_start(identity, entries, aligned(end))
    }
}

/// A file is named by the first half of its identity's digest, two digits a byte.
pub proof fn law_a_file_is_named_by_its_identity(identity: Tree, i: int)
    requires
        0 <= i < 16,
    ensures
        ({
            let name = name_spec(identity);
            let byte = sha256_of(encode_utf8(json::written(identity)))[i] as int;
            &&& name.len() == 36
            &&& text::ends(name, ".bin"@)
            &&& name[2 * i] == hex_digit(byte / 16)
            &&& name[2 * i + 1] == hex_digit(byte % 16)
        }),
{
    let digest = sha256_of(encode_utf8(json::written(identity)));
    law_a_byte_is_two_digits(digest, 16, i, 0);
    reveal_strlit(".bin");
    let name = name_spec(identity);
    assert(name.subrange(32, 36) =~= ".bin"@);
}

} // verus!
