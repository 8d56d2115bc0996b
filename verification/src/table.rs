//! A benchmark history as a markdown comparison.
//!
//! Every model is on its own row, with one column per swept value and, where there are exactly
//! two, their ratio. Rows sharing a label are one model measured at several values of the
//! swept variable: the sweep writes `<label> · VAR=value`, so the prefix is the row and the
//! value the column. Labels without that shape are each their own row.
//!
//! Only the latest measurement of each point is shown: the file keeps every run, the table
//! answers what the build that exists does now.
//!
//! Measurements are held as double-precision bit patterns. Writing one in decimal, and dividing
//! two, is left to the caller: the table says where each goes.

use vstd::prelude::*;
use vstd::string::*;
use crate::ieee;
use crate::text;

verus! {

/// One measurement of the history.
#[derive(Debug, Clone, PartialEq, Eq)]
pub struct Record {
    pub date: String,
    pub label: String,
    pub mode: String,
    pub n: u32,
    pub best: u64,
    pub mean: u64,
    pub sd_sample: Option<u64>,
}

/// A [`Record`] by the values it holds.
#[verifier::ext_equal]
pub struct Entry {
    pub date: Seq<char>,
    pub label: Seq<char>,
    pub mode: Seq<char>,
    pub n: u32,
    pub best: u64,
    pub mean: u64,
    pub sd_sample: Option<u64>,
}

impl View for Record {
    type V = Entry;

    open spec fn view(&self) -> Entry {
        Entry {
            date: self.date@,
            label: self.label@,
            mode: self.mode@,
            n: self.n,
            best: self.best,
            mean: self.mean,
            sd_sample: self.sd_sample,
        }
    }
}

/// Records by the values they hold.
pub open spec fn entries(records: Seq<Record>) -> Seq<Entry> {
    records.map_values(|r: Record| r@)
}

fn copy_record(r: &Record) -> (copy: Record)
    ensures
        copy@ == r@,
{
    Record {
        date: r.date.clone(),
        label: r.label.clone(),
        mode: r.mode.clone(),
        n: r.n,
        best: r.best,
        mean: r.mean,
        sd_sample: r.sd_sample,
    }
}

/// The row and the column a label maps to.
///
/// The split is on the last ` · `, because a label may itself hold one, and then on the first
/// `=` behind it. A label without both is its own row with no column.
pub open spec fn split_spec(label: Seq<char>) -> (Seq<char>, Option<Seq<char>>) {
    match text::last_place(label, " · "@, label.len() as int) {
        None => (label, None),
        Some(at) => {
            let point = label.skip(at + 3);
            match text::first_place(point, "="@, 0) {
                None => (label, None),
                Some(eq) => (label.take(at), Some(point.skip(eq + 1))),
            }
        },
    }
}

/// A text's characters, where there is one.
pub open spec fn text_of(s: Option<String>) -> Option<Seq<char>> {
    match s {
        Some(t) => Some(t@),
        None => None,
    }
}

/// The row and the column a record's label maps to.
pub fn split_label(label: &str) -> (parts: (String, Option<String>))
    ensures
        parts.0@ == split_spec(label@).0,
        text_of(parts.1) == split_spec(label@).1,
{
    proof {
        reveal_strlit(" · ");
        reveal_strlit("=");
    }
    let chars = text::chars_of(label);
    if let Some(at) = text::rfind(&chars, &text::chars_of(" · ")) {
        let len: usize = chars.len();
        let point = text::string_of(&chars, at + 3, len);
        assert(point@ =~= label@.skip(at + 3));
        let tail = text::chars_of(point.as_str());
        if let Some(eq) = text::find(&tail, &text::chars_of("=")) {
            let end: usize = tail.len();
            let prefix = text::string_of(&chars, 0, at);
            let value = text::string_of(&tail, eq + 1, end);
            assert(prefix@ =~= label@.take(at as int));
            assert(value@ =~= point@.skip(eq + 1));
            return (prefix, Some(value));
        }
    }
    (label.to_owned(), None)
}

/// Whether two measurements are of the same point.
pub open spec fn same_point(a: Entry, b: Entry) -> bool {
    a.label == b.label && a.mode == b.mode && a.n == b.n
}

/// The modes that measure a cost, lower being better; the others measure a rate.
pub open spec fn is_cost(mode: Seq<char>) -> bool {
    mode == "cpu"@ || mode == "ttft"@
}

/// Whether a measurement has a better figure than another of its mode.
pub open spec fn faster(a: Entry, b: Entry) -> bool {
    if is_cost(a.mode) {
        ieee::double_greater(b.best, a.best)
    } else {
        ieee::double_greater(a.best, b.best)
    }
}

/// Whether a measurement replaces another of its point: a later date, or the same date and a
/// better figure.
pub open spec fn supersedes(a: Entry, b: Entry) -> bool {
    text::precedes(b.date, a.date) || (a.date == b.date && faster(a, b))
}

/// The first entry at or after `from` of the same point as `e`.
pub open spec fn point_index(have: Seq<Entry>, e: Entry, from: int) -> Option<int>
    decreases have.len() - from,
{
    if from < 0 || from >= have.len() {
        None
    } else if same_point(have[from], e) {
        Some(from)
    } else {
        point_index(have, e, from + 1)
    }
}

/// One more record taken into the latest so far.
pub open spec fn taken(have: Seq<Entry>, e: Entry) -> Seq<Entry> {
    match point_index(have, e, 0) {
        Some(i) => if supersedes(e, have[i]) { have.update(i, e) } else { have },
        None => have.push(e),
    }
}

/// The latest measurement of each point, in the order the points first appear.
pub open spec fn latest_spec(records: Seq<Entry>) -> Seq<Entry>
    decreases records.len(),
{
    if records.len() == 0 {
        Seq::empty()
    } else {
        taken(latest_spec(records.drop_last()), records.last())
    }
}

/// The modes a table shows: every one that is a rate or a cost per token.
pub open spec fn tabled(mode: Seq<char>) -> bool {
    mode == "pp"@ || mode == "tg"@ || mode == "pg"@ || mode == "curve"@ || mode == "cpu"@ || mode
        == "embed"@ || mode == "ttft"@
}

/// The entries of the modes a table shows.
pub open spec fn tabled_only(have: Seq<Entry>) -> Seq<Entry>
    decreases have.len(),
{
    if have.len() == 0 {
        Seq::empty()
    } else {
        let rest = tabled_only(have.drop_last());
        if tabled(have.last().mode) { rest.push(have.last()) } else { rest }
    }
}

fn is_tabled(mode: &str) -> (yes: bool)
    ensures
        yes == tabled(mode@),
{
    text::same(mode, "pp") || text::same(mode, "tg") || text::same(mode, "pg") || text::same(
        mode,
        "curve",
    ) || text::same(mode, "cpu") || text::same(mode, "embed") || text::same(mode, "ttft")
}

fn is_faster(a: &Record, b: &Record) -> (yes: bool)
    ensures
        yes == faster(a@, b@),
{
    if text::same(a.mode.as_str(), "cpu") || text::same(a.mode.as_str(), "ttft") {
        ieee::is_greater(b.best, a.best)
    } else {
        ieee::is_greater(a.best, b.best)
    }
}

fn find_point(have: &Vec<Record>, r: &Record) -> (at: Option<usize>)
    ensures
        text::place(at) == point_index(entries(have@), r@, 0),
        at matches Some(i) ==> i < have@.len(),
{
    let mut i: usize = 0;
    while i < have.len()
        invariant
            i <= have@.len(),
            point_index(entries(have@), r@, 0) == point_index(entries(have@), r@, i as int),
        decreases have.len() - i,
    {
        assert(entries(have@)[i as int] == have@[i as int]@);
        if text::same(have[i].label.as_str(), r.label.as_str()) && text::same(
            have[i].mode.as_str(),
            r.mode.as_str(),
        ) && have[i].n == r.n {
            return Some(i);
        }
        i = i + 1;
    }
    None
}

/// The latest measurement of each point, at equal dates the better repetition.
pub fn latest(records: &[Record]) -> (have: Vec<Record>)
    ensures
        entries(have@) == latest_spec(entries(records@)),
{
    let mut have: Vec<Record> = Vec::new();
    let mut i: usize = 0;
    assert(entries(have@) =~= latest_spec(entries(records@).take(0)));
    while i < records.len()
        invariant
            i <= records@.len(),
            entries(have@) == latest_spec(entries(records@).take(i as int)),
        decreases records.len() - i,
    {
        let r = &records[i];
        let ghost before = have@;
        assert(entries(records@).take(i + 1).drop_last() =~= entries(records@).take(i as int));
        assert(entries(records@).take(i + 1).last() == r@);
        match find_point(&have, r) {
            Some(at) => {
                assert(entries(before)[at as int] == before[at as int]@);
                let newer = text::before(have[at].date.as_str(), r.date.as_str());
                let same_day = text::same(have[at].date.as_str(), r.date.as_str());
                if newer || (same_day && is_faster(r, &have[at])) {
                    have.set(at, copy_record(r));
                    assert(entries(have@) =~= entries(before).update(at as int, r@));
                }
            },
            None => {
                have.push(copy_record(r));
                assert(entries(have@) =~= entries(before).push(r@));
            },
        }
        i = i + 1;
    }
    assert(entries(records@).take(i as int) =~= entries(records@));
    have
}

/// The latest measurements of the modes a table shows.
pub fn throughput(records: &[Record]) -> (have: Vec<Record>)
    ensures
        entries(have@) == tabled_only(latest_spec(entries(records@))),
{
    let all = latest(records);
    let ghost points = entries(all@);
    let mut have: Vec<Record> = Vec::new();
    let mut i: usize = 0;
    assert(entries(have@) =~= tabled_only(points.take(0)));
    while i < all.len()
        invariant
            i <= all@.len(),
            points == entries(all@),
            entries(have@) == tabled_only(points.take(i as int)),
        decreases all.len() - i,
    {
        assert(points.take(i + 1).drop_last() =~= points.take(i as int));
        assert(points.take(i + 1).last() == all@[i as int]@);
        if is_tabled(all[i].mode.as_str()) {
            let ghost before = have@;
            have.push(copy_record(&all[i]));
            assert(entries(have@) =~= entries(before).push(all@[i as int]@));
        }
        i = i + 1;
    }
    assert(points.take(i as int) =~= points);
    have
}

/// A list with an item added at the end where it is not already there.
pub open spec fn with_new<T>(list: Seq<T>, item: T) -> Seq<T> {
    if list.contains(item) { list } else { list.push(item) }
}

/// The modes of the entries, in the order they first appear.
pub open spec fn modes_of(have: Seq<Entry>) -> Seq<Seq<char>>
    decreases have.len(),
{
    if have.len() == 0 {
        Seq::empty()
    } else {
        with_new(modes_of(have.drop_last()), have.last().mode)
    }
}

/// The rows of the entries, in the order they first appear.
pub open spec fn rows_of(have: Seq<Entry>) -> Seq<Seq<char>>
    decreases have.len(),
{
    if have.len() == 0 {
        Seq::empty()
    } else {
        with_new(rows_of(have.drop_last()), split_spec(have.last().label).0)
    }
}

/// The columns of the entries, in the order they first appear.
pub open spec fn columns_of(have: Seq<Entry>) -> Seq<Option<Seq<char>>>
    decreases have.len(),
{
    if have.len() == 0 {
        Seq::empty()
    } else {
        with_new(columns_of(have.drop_last()), split_spec(have.last().label).1)
    }
}

/// The columns of a list by their texts.
pub open spec fn column_views(columns: Seq<Option<String>>) -> Seq<Option<Seq<char>>> {
    columns.map_values(|c: Option<String>| text_of(c))
}

fn same_column(a: &Option<String>, b: &Option<String>) -> (yes: bool)
    ensures
        yes == (text_of(*a) == text_of(*b)),
{
    match (a, b) {
        (None, None) => true,
        (Some(x), Some(y)) => text::same(x.as_str(), y.as_str()),
        _ => false,
    }
}

fn has_column(columns: &Vec<Option<String>>, column: &Option<String>) -> (yes: bool)
    ensures
        yes == column_views(columns@).contains(text_of(*column)),
{
    let mut i: usize = 0;
    while i < columns.len()
        invariant
            i <= columns@.len(),
            forall|k: int| 0 <= k < i ==> #[trigger] column_views(columns@)[k] != text_of(*column),
        decreases columns.len() - i,
    {
        if same_column(&columns[i], column) {
            assert(column_views(columns@)[i as int] == text_of(*column));
            return true;
        }
        i = i + 1;
    }
    false
}

/// What a table is laid out from: the modes, rows and columns in the order they first appear.
struct Layout {
    modes: Vec<String>,
    rows: Vec<String>,
    columns: Vec<Option<String>>,
}

fn layout(have: &Vec<Record>) -> (l: Layout)
    ensures
        text::views(l.modes@) == modes_of(entries(have@)),
        text::views(l.rows@) == rows_of(entries(have@)),
        column_views(l.columns@) == columns_of(entries(have@)),
{
    let ghost points = entries(have@);
    let mut modes: Vec<String> = Vec::new();
    let mut rows: Vec<String> = Vec::new();
    let mut columns: Vec<Option<String>> = Vec::new();
    let mut i: usize = 0;
    assert(text::views(modes@) =~= modes_of(points.take(0)));
    assert(text::views(rows@) =~= rows_of(points.take(0)));
    assert(column_views(columns@) =~= columns_of(points.take(0)));
    while i < have.len()
        invariant
            i <= have@.len(),
            points == entries(have@),
            text::views(modes@) == modes_of(points.take(i as int)),
            text::views(rows@) == rows_of(points.take(i as int)),
            column_views(columns@) == columns_of(points.take(i as int)),
        decreases have.len() - i,
    {
        assert(points.take(i + 1).drop_last() =~= points.take(i as int));
        assert(points.take(i + 1).last() == have@[i as int]@);
        let ghost (m, r, c) = (modes@, rows@, columns@);
        if !text::is_listed(&modes, have[i].mode.as_str()) {
            modes.push(have[i].mode.clone());
            assert(text::views(modes@) =~= text::views(m).push(have@[i as int].mode@));
        }
        let (row, column) = split_label(have[i].label.as_str());
        if !text::is_listed(&rows, row.as_str()) {
            let ghost added = row@;
            rows.push(row);
            assert(text::views(rows@) =~= text::views(r).push(added));
        }
        if !has_column(&columns, &column) {
            let ghost added = text_of(column);
            columns.push(column);
            assert(column_views(columns@) =~= column_views(c).push(added));
        }
        i = i + 1;
    }
    assert(points.take(i as int) =~= points);
    Layout { modes, rows, columns }
}

/// A number put into a strictly ascending list, where it is not already there.
pub open spec fn number_placed(ns: Seq<u32>, n: u32) -> Seq<u32>
    decreases ns.len(),
{
    if ns.len() == 0 || ns.last() < n {
        ns.push(n)
    } else if ns.last() == n {
        ns
    } else {
        number_placed(ns.drop_last(), n).push(ns.last())
    }
}

/// The contexts a row of a mode was measured at, ascending, each once.
pub open spec fn contexts(have: Seq<Entry>, mode: Seq<char>, row: Seq<char>) -> Seq<u32>
    decreases have.len(),
{
    if have.len() == 0 {
        Seq::empty()
    } else {
        let rest = contexts(have.drop_last(), mode, row);
        let e = have.last();
        if e.mode == mode && split_spec(e.label).0 == row {
            number_placed(rest, e.n)
        } else {
            rest
        }
    }
}

fn place_number(ns: &mut Vec<u32>, n: u32)
    ensures
        final(ns)@ == number_placed(old(ns)@, n),
{
    let ghost whole = ns@;
    let mut at: usize = ns.len();
    assert(whole.take(at as int) =~= whole);
    assert(number_placed(whole.take(at as int), n) + whole.skip(at as int) =~= number_placed(
        whole,
        n,
    ));
    while at > 0 && ns[at - 1] > n
        invariant
            at <= ns@.len(),
            ns@ == whole,
            number_placed(whole.take(at as int), n) + whole.skip(at as int) == number_placed(
                whole,
                n,
            ),
        decreases at,
    {
        assert(whole.take(at as int).drop_last() =~= whole.take(at - 1));
        assert(number_placed(whole.take(at - 1), n).push(whole[at - 1]) + whole.skip(at as int)
            =~= number_placed(whole.take(at - 1), n) + whole.skip(at - 1));
        at = at - 1;
    }
    if at > 0 && ns[at - 1] == n {
        assert(whole.take(at as int) + whole.skip(at as int) =~= whole);
    } else {
        ns.insert(at, n);
        assert(ns@ =~= whole.take(at as int).push(n) + whole.skip(at as int));
    }
}

fn contexts_at(have: &Vec<Record>, mode: &str, row: &str) -> (ns: Vec<u32>)
    ensures
        ns@ == contexts(entries(have@), mode@, row@),
{
    let ghost points = entries(have@);
    let mut ns: Vec<u32> = Vec::new();
    let mut i: usize = 0;
    assert(ns@ =~= contexts(points.take(0), mode@, row@));
    while i < have.len()
        invariant
            i <= have@.len(),
            points == entries(have@),
            ns@ == contexts(points.take(i as int), mode@, row@),
        decreases have.len() - i,
    {
        assert(points.take(i + 1).drop_last() =~= points.take(i as int));
        assert(points.take(i + 1).last() == have@[i as int]@);
        if text::same(have[i].mode.as_str(), mode) {
            let (r, _) = split_label(have[i].label.as_str());
            if text::same(r.as_str(), row) {
                place_number(&mut ns, have[i].n);
            }
        }
        i = i + 1;
    }
    assert(points.take(i as int) =~= points);
    ns
}

/// The first entry at or after `from` of a mode, row, context and column.
pub open spec fn cell_index(
    have: Seq<Entry>,
    mode: Seq<char>,
    row: Seq<char>,
    n: u32,
    column: Option<Seq<char>>,
    from: int,
) -> Option<int>
    decreases have.len() - from,
{
    if from < 0 || from >= have.len() {
        None
    } else if have[from].mode == mode && have[from].n == n && split_spec(have[from].label) == (
        row,
        column,
    ) {
        Some(from)
    } else {
        cell_index(have, mode, row, n, column, from + 1)
    }
}

fn find_cell(have: &Vec<Record>, mode: &str, row: &str, n: u32, column: &Option<String>) -> (at:
    Option<usize>)
    ensures
        text::place(at) == cell_index(entries(have@), mode@, row@, n, text_of(*column), 0),
        at matches Some(i) ==> i < have@.len(),
{
    let mut i: usize = 0;
    while i < have.len()
        invariant
            i <= have@.len(),
            cell_index(entries(have@), mode@, row@, n, text_of(*column), 0) == cell_index(
                entries(have@),
                mode@,
                row@,
                n,
                text_of(*column),
                i as int,
            ),
        decreases have.len() - i,
    {
        assert(entries(have@)[i as int] == have@[i as int]@);
        if text::same(have[i].mode.as_str(), mode) && have[i].n == n {
            let (r, c) = split_label(have[i].label.as_str());
            if text::same(r.as_str(), row) && same_column(&c, column) {
                return Some(i);
            }
        }
        i = i + 1;
    }
    None
}

/// A piece of a rendered table: text, a measurement to be written out with its spread, or the
/// quotient of two.
#[derive(Debug, Clone, PartialEq, Eq)]
pub enum Piece {
    Text(String),
    /// The best, the mean, and the sample deviation where there is one.
    Cell(u64, u64, Option<u64>),
    /// The first over the second.
    Ratio(u64, u64),
}

/// One mark of a rendered table: a character, a measurement or a quotient.
pub enum Mark {
    Letter(char),
    Cell(u64, u64, Option<u64>),
    Ratio(u64, u64),
}

/// A character's mark.
pub open spec fn letter(c: char) -> Mark {
    Mark::Letter(c)
}

/// A text's marks.
pub open spec fn marks(s: Seq<char>) -> Seq<Mark> {
    s.map_values(|c: char| letter(c))
}

/// The marks of a list of pieces, however the text is cut up between them.
pub open spec fn flat(pieces: Seq<Piece>) -> Seq<Mark>
    decreases pieces.len(),
{
    if pieces.len() == 0 {
        Seq::empty()
    } else {
        flat(pieces.drop_last()) + match pieces.last() {
            Piece::Text(s) => marks(s@),
            Piece::Cell(best, mean, sd) => seq![Mark::Cell(best, mean, sd)],
            Piece::Ratio(a, b) => seq![Mark::Ratio(a, b)],
        }
    }
}

proof fn lemma_marks(a: Seq<char>, b: Seq<char>)
    ensures
        marks(a + b) == marks(a) + marks(b),
{
    assert(marks(a + b) =~= marks(a) + marks(b));
}

fn write(page: &mut Vec<Piece>, s: &str)
    ensures
        flat(final(page)@) == flat(old(page)@) + marks(s@),
{
    let ghost before = page@;
    match page.pop() {
        None => {
            page.push(Piece::Text(s.to_owned()));
            assert(page@.drop_last() =~= before);
        },
        Some(Piece::Text(held)) => {
            let mut longer = String::new();
            longer.append(held.as_str());
            longer.append(s);
            proof {
                lemma_marks(held@, s@);
                assert(longer@ =~= held@ + s@);
                assert(before.last() == Piece::Text(held));
            }
            page.push(Piece::Text(longer));
            assert(page@.drop_last() =~= before.drop_last());
            assert(flat(page@) =~= flat(before) + marks(s@));
        },
        Some(other) => {
            page.push(other);
            assert(page@ =~= before);
            page.push(Piece::Text(s.to_owned()));
            assert(page@.drop_last() =~= before);
        },
    }
}

fn write_cell(page: &mut Vec<Piece>, r: &Record)
    ensures
        flat(final(page)@) == flat(old(page)@) + seq![Mark::Cell(r.best, r.mean, r.sd_sample)],
{
    page.push(Piece::Cell(r.best, r.mean, r.sd_sample));
    assert(page@.drop_last() =~= old(page)@);
}

fn write_ratio(page: &mut Vec<Piece>, a: u64, b: u64)
    ensures
        flat(final(page)@) == flat(old(page)@) + seq![Mark::Ratio(a, b)],
{
    page.push(Piece::Ratio(a, b));
    assert(page@.drop_last() =~= old(page)@);
}

/// What a mode's figures are.
pub open spec fn unit_of(mode: Seq<char>) -> Seq<char> {
    if mode == "cpu"@ {
        "ms/token, lower is better"@
    } else if mode == "ttft"@ {
        "ms to first token, lower is better"@
    } else if mode == "pg"@ {
        "tok/s, prompt + generated over the whole turn"@
    } else {
        "tok/s"@
    }
}

/// What a mode's context number is.
pub open spec fn axis_of(mode: Seq<char>) -> Seq<char> {
    if mode == "pp"@ || mode == "embed"@ || mode == "pg"@ {
        "prompt"@
    } else if mode == "tg"@ || mode == "cpu"@ {
        "depth"@
    } else {
        "n"@
    }
}

/// A column's heading: its value, or `best` for plain labels.
pub open spec fn column_name_spec(column: Option<Seq<char>>) -> Seq<char> {
    match column {
        Some(value) => value,
        None => "best"@,
    }
}

/// Whether the table ends in a ratio: exactly two columns, both swept values.
pub open spec fn has_ratio(columns: Seq<Option<Seq<char>>>) -> bool {
    columns.len() == 2 && columns[0] is Some && columns[1] is Some
}

/// The headings of the first `k` columns.
pub open spec fn headings(columns: Seq<Option<Seq<char>>>, k: int) -> Seq<char>
    decreases k,
{
    if k <= 0 {
        Seq::empty()
    } else {
        headings(columns, k - 1) + " "@ + column_name_spec(columns[k - 1]) + " |"@
    }
}

/// The alignment marks of `k` columns.
pub open spec fn rules(k: int) -> Seq<char>
    decreases k,
{
    if k <= 0 {
        Seq::empty()
    } else {
        rules(k - 1) + " --: |"@
    }
}

/// The head of a mode's table: its title, the headings and the alignment row.
pub open spec fn head(mode: Seq<char>, columns: Seq<Option<Seq<char>>>) -> Seq<char> {
    let k = columns.len() as int;
    "**"@ + mode + "** ("@ + unit_of(mode) + ")\n\n| model | "@ + axis_of(mode) + " |"@ + headings(
        columns,
        k,
    ) + (if has_ratio(columns) {
        " "@ + column_name_spec(columns[0]) + " / "@ + column_name_spec(columns[1]) + " |"@
    } else {
        Seq::empty()
    }) + "\n| :-- | --: |"@ + rules(k) + (if has_ratio(columns) {
        " --: |"@
    } else {
        Seq::empty()
    }) + "\n"@
}

/// A measurement of a cell, or a dash where there is none.
pub open spec fn cell_marks(have: Seq<Entry>, at: Option<int>) -> Seq<Mark> {
    match at {
        Some(i) => marks(" "@) + seq![
            Mark::Cell(have[i].best, have[i].mean, have[i].sd_sample),
        ] + marks(" |"@),
        None => marks(" — |"@),
    }
}

/// The cells of the first `k` columns of a line.
pub open spec fn cells(
    have: Seq<Entry>,
    mode: Seq<char>,
    row: Seq<char>,
    n: u32,
    columns: Seq<Option<Seq<char>>>,
    k: int,
) -> Seq<Mark>
    decreases k,
{
    if k <= 0 {
        Seq::empty()
    } else {
        cells(have, mode, row, n, columns, k - 1) + cell_marks(
            have,
            cell_index(have, mode, row, n, columns[k - 1], 0),
        )
    }
}

/// The ratio of two cells: both measured and the second above zero, or a dash.
pub open spec fn ratio_marks(have: Seq<Entry>, a: Option<int>, b: Option<int>) -> Seq<Mark> {
    match (a, b) {
        (Some(i), Some(j)) => if ieee::double_greater(have[j].best, 0) {
            marks(" "@) + seq![Mark::Ratio(have[i].best, have[j].best)] + marks("× |"@)
        } else {
            marks(" — |"@)
        },
        _ => marks(" — |"@),
    }
}

/// One line of a table: the row, the context, its cells and, where there is one, the ratio.
pub open spec fn line(
    have: Seq<Entry>,
    mode: Seq<char>,
    row: Seq<char>,
    n: u32,
    columns: Seq<Option<Seq<char>>>,
) -> Seq<Mark> {
    marks("| "@ + row + " | "@ + text::decimal_spec(n as nat) + " |"@) + cells(
        have,
        mode,
        row,
        n,
        columns,
        columns.len() as int,
    ) + (if has_ratio(columns) {
        ratio_marks(
            have,
            cell_index(have, mode, row, n, columns[0], 0),
            cell_index(have, mode, row, n, columns[1], 0),
        )
    } else {
        Seq::empty()
    }) + marks("\n"@)
}

/// The lines of a row's first `k` contexts.
pub open spec fn lines(
    have: Seq<Entry>,
    mode: Seq<char>,
    row: Seq<char>,
    ns: Seq<u32>,
    columns: Seq<Option<Seq<char>>>,
    k: int,
) -> Seq<Mark>
    decreases k,
{
    if k <= 0 {
        Seq::empty()
    } else {
        lines(have, mode, row, ns, columns, k - 1) + line(have, mode, row, ns[k - 1], columns)
    }
}

/// The lines of a mode's first `k` rows.
pub open spec fn body(
    have: Seq<Entry>,
    mode: Seq<char>,
    rows: Seq<Seq<char>>,
    columns: Seq<Option<Seq<char>>>,
    k: int,
) -> Seq<Mark>
    decreases k,
{
    if k <= 0 {
        Seq::empty()
    } else {
        let ns = contexts(have, mode, rows[k - 1]);
        body(have, mode, rows, columns, k - 1) + lines(
            have,
            mode,
            rows[k - 1],
            ns,
            columns,
            ns.len() as int,
        )
    }
}

/// The tables of the first `k` modes.
pub open spec fn tables(
    have: Seq<Entry>,
    modes: Seq<Seq<char>>,
    rows: Seq<Seq<char>>,
    columns: Seq<Option<Seq<char>>>,
    k: int,
) -> Seq<Mark>
    decreases k,
{
    if k <= 0 {
        Seq::empty()
    } else {
        tables(have, modes, rows, columns, k - 1) + marks(head(modes[k - 1], columns)) + body(
            have,
            modes[k - 1],
            rows,
            columns,
            rows.len() as int,
        ) + marks("\n"@)
    }
}

/// The whole rendering: one table per mode, in the order the modes first appear.
pub open spec fn render_spec(records: Seq<Entry>) -> Seq<Mark> {
    let have = tabled_only(latest_spec(records));
    tables(have, modes_of(have), rows_of(have), columns_of(have), modes_of(have).len() as int)
}

fn unit(mode: &str) -> (unit: &'static str)
    ensures
        unit@ == unit_of(mode@),
{
    if text::same(mode, "cpu") {
        "ms/token, lower is better"
    } else if text::same(mode, "ttft") {
        "ms to first token, lower is better"
    } else if text::same(mode, "pg") {
        "tok/s, prompt + generated over the whole turn"
    } else {
        "tok/s"
    }
}

fn axis(mode: &str) -> (axis: &'static str)
    ensures
        axis@ == axis_of(mode@),
{
    if text::same(mode, "pp") || text::same(mode, "embed") || text::same(mode, "pg") {
        "prompt"
    } else if text::same(mode, "tg") || text::same(mode, "cpu") {
        "depth"
    } else {
        "n"
    }
}

fn column_name(column: &Option<String>) -> (name: &str)
    ensures
        name@ == column_name_spec(text_of(*column)),
{
    match column {
        Some(value) => value.as_str(),
        None => "best",
    }
}

fn ends_in_ratio(columns: &Vec<Option<String>>) -> (yes: bool)
    ensures
        yes == has_ratio(column_views(columns@)),
{
    columns.len() == 2 && columns[0].is_some() && columns[1].is_some()
}

fn head_text(mode: &str, columns: &Vec<Option<String>>) -> (s: String)
    ensures
        s@ == head(mode@, column_views(columns@)),
{
    let ghost cols = column_views(columns@);
    let ratio = ends_in_ratio(columns);
    let mut out = String::new();
    out.append("**");
    out.append(mode);
    out.append("** (");
    out.append(unit(mode));
    out.append(")\n\n| model | ");
    out.append(axis(mode));
    out.append(" |");
    let ghost title = out@;
    let mut i: usize = 0;
    assert(out@ =~= title + headings(cols, 0));
    while i < columns.len()
        invariant
            i <= columns@.len(),
            cols == column_views(columns@),
            out@ == title + headings(cols, i as int),
        decreases columns.len() - i,
    {
        out.append(" ");
        out.append(column_name(&columns[i]));
        out.append(" |");
        i = i + 1;
        assert(out@ =~= title + headings(cols, i as int));
    }
    let ghost named = out@;
    if ratio {
        out.append(" ");
        out.append(column_name(&columns[0]));
        out.append(" / ");
        out.append(column_name(&columns[1]));
        out.append(" |");
    }
    out.append("\n| :-- | --: |");
    let ghost before = out@;
    let mut j: usize = 0;
    assert(out@ =~= before + rules(0));
    while j < columns.len()
        invariant
            j <= columns@.len(),
            out@ == before + rules(j as int),
        decreases columns.len() - j,
    {
        out.append(" --: |");
        j = j + 1;
        assert(out@ =~= before + rules(j as int));
    }
    if ratio {
        out.append(" --: |");
    }
    out.append("\n");
    assert(out@ =~= head(mode@, cols));
    out
}

fn write_line(
    page: &mut Vec<Piece>,
    have: &Vec<Record>,
    mode: &str,
    row: &str,
    n: u32,
    columns: &Vec<Option<String>>,
)
    ensures
        flat(final(page)@) == flat(old(page)@) + line(
            entries(have@),
            mode@,
            row@,
            n,
            column_views(columns@),
        ),
{
    let ghost start = flat(page@);
    let ghost points = entries(have@);
    let ghost cols = column_views(columns@);
    let mut lead = String::new();
    lead.append("| ");
    lead.append(row);
    lead.append(" | ");
    let digits = text::decimal(n as u64);
    lead.append(digits.as_str());
    lead.append(" |");
    assert(lead@ =~= "| "@ + row@ + " | "@ + text::decimal_spec(n as nat) + " |"@);
    write(page, lead.as_str());
    let ghost led = flat(page@);
    let mut i: usize = 0;
    assert(led =~= led + cells(points, mode@, row@, n, cols, 0));
    while i < columns.len()
        invariant
            i <= columns@.len(),
            points == entries(have@),
            cols == column_views(columns@),
            flat(page@) == led + cells(points, mode@, row@, n, cols, i as int),
        decreases columns.len() - i,
    {
        let ghost before = flat(page@);
        assert(cols[i as int] == text_of(columns@[i as int]));
        match find_cell(have, mode, row, n, &columns[i]) {
            Some(at) => {
                assert(points[at as int] == have@[at as int]@);
                write(page, " ");
                write_cell(page, &have[at]);
                write(page, " |");
            },
            None => {
                write(page, " — |");
            },
        }
        i = i + 1;
        assert(flat(page@) =~= before + cell_marks(
            points,
            cell_index(points, mode@, row@, n, cols[i - 1], 0),
        ));
        assert(flat(page@) =~= led + cells(points, mode@, row@, n, cols, i as int));
    }
    let ghost celled = flat(page@);
    if ends_in_ratio(columns) {
        let first = find_cell(have, mode, row, n, &columns[0]);
        let second = find_cell(have, mode, row, n, &columns[1]);
        match (first, second) {
            (Some(a), Some(b)) => {
                assert(points[a as int] == have@[a as int]@);
                assert(points[b as int] == have@[b as int]@);
                if ieee::is_greater(have[b].best, 0) {
                    write(page, " ");
                    write_ratio(page, have[a].best, have[b].best);
                    write(page, "× |");
                } else {
                    write(page, " — |");
                }
            },
            _ => {
                write(page, " — |");
            },
        }
        assert(flat(page@) =~= celled + ratio_marks(
            points,
            cell_index(points, mode@, row@, n, cols[0], 0),
            cell_index(points, mode@, row@, n, cols[1], 0),
        ));
    }
    write(page, "\n");
    assert(flat(page@) =~= start + line(points, mode@, row@, n, cols));
}

fn write_body(
    page: &mut Vec<Piece>,
    have: &Vec<Record>,
    mode: &str,
    rows: &Vec<String>,
    columns: &Vec<Option<String>>,
)
    ensures
        flat(final(page)@) == flat(old(page)@) + body(
            entries(have@),
            mode@,
            text::views(rows@),
            column_views(columns@),
            rows@.len() as int,
        ),
{
    let ghost start = flat(page@);
    let ghost points = entries(have@);
    let ghost cols = column_views(columns@);
    let ghost names = text::views(rows@);
    let mut r: usize = 0;
    assert(flat(page@) =~= start + body(points, mode@, names, cols, 0));
    while r < rows.len()
        invariant
            r <= rows@.len(),
            points == entries(have@),
            cols == column_views(columns@),
            names == text::views(rows@),
            flat(page@) == start + body(points, mode@, names, cols, r as int),
        decreases rows.len() - r,
    {
        let row = rows[r].as_str();
        assert(names[r as int] == row@);
        let ns = contexts_at(have, mode, row);
        let ghost before = flat(page@);
        let mut k: usize = 0;
        assert(flat(page@) =~= before + lines(points, mode@, row@, ns@, cols, 0));
        while k < ns.len()
            invariant
                k <= ns@.len(),
                points == entries(have@),
                cols == column_views(columns@),
                flat(page@) == before + lines(points, mode@, row@, ns@, cols, k as int),
            decreases ns.len() - k,
        {
            write_line(page, have, mode, row, ns[k], columns);
            k = k + 1;
            assert(flat(page@) =~= before + lines(points, mode@, row@, ns@, cols, k as int));
        }
        r = r + 1;
        assert(flat(page@) =~= start + body(points, mode@, names, cols, r as int));
    }
}

/// Renders the records as markdown: one table per mode, in the order the modes first appear,
/// each with one line per row and context and one column per swept value. With exactly two swept
/// values the last column is their ratio, the first over the second.
pub fn render(records: &[Record]) -> (pieces: Vec<Piece>)
    ensures
        flat(pieces@) == render_spec(entries(records@)),
{
    let have = throughput(records);
    let l = layout(&have);
    let ghost points = entries(have@);
    let ghost modes = text::views(l.modes@);
    let ghost rows = text::views(l.rows@);
    let ghost cols = column_views(l.columns@);
    let mut page: Vec<Piece> = Vec::new();
    let mut i: usize = 0;
    assert(flat(page@) =~= tables(points, modes, rows, cols, 0));
    while i < l.modes.len()
        invariant
            i <= l.modes@.len(),
            points == entries(have@),
            modes == text::views(l.modes@),
            rows == text::views(l.rows@),
            cols == column_views(l.columns@),
            flat(page@) == tables(points, modes, rows, cols, i as int),
        decreases l.modes.len() - i,
    {
        let mode = l.modes[i].as_str();
        assert(modes[i as int] == mode@);
        let title = head_text(mode, &l.columns);
        write(&mut page, title.as_str());
        write_body(&mut page, &have, mode, &l.rows, &l.columns);
        write(&mut page, "\n");
        i = i + 1;
    }
    page
}

/// No later record of a point is passed over: the entry kept of a point has a date that no
/// record of that point comes after, and of those of its date none is faster.
pub proof fn law_the_latest_date_is_kept(records: Seq<Entry>, i: int)
    requires
        0 <= i < records.len(),
    ensures
        exists|k: int|
            0 <= k < latest_spec(records).len() && same_point(
                #[trigger] latest_spec(records)[k],
                records[i],
            ) && !text::precedes(latest_spec(records)[k].date, records[i].date) && (
            latest_spec(records)[k].date == records[i].date ==> !faster(
                records[i],
                latest_spec(records)[k],
            )),
    decreases records.len(),
{
    let rest = records.drop_last();
    let have = latest_spec(rest);
    let e = records.last();
    let now = latest_spec(records);
    lemma_point_index(have, e, 0);
    text::lemma_order_is_total(e.date, e.date);
    if i < rest.len() {
        law_the_latest_date_is_kept(rest, i);
        assert(rest[i] == records[i]);
        let k = choose|k: int|
            0 <= k < have.len() && same_point(#[trigger] have[k], rest[i]) && !text::precedes(
                have[k].date,
                rest[i].date,
            ) && (have[k].date == rest[i].date ==> !faster(rest[i], have[k]));
        if point_index(have, e, 0) == Some(k) && supersedes(e, have[k]) {
            assert(now[k] == e);
            text::lemma_order_is_total(have[k].date, e.date);
            text::lemma_order_is_transitive(records[i].date, have[k].date, e.date);
            assert(same_point(now[k], records[i]));
        } else {
            assert(now[k] == have[k]);
            assert(same_point(now[k], records[i]));
        }
    } else {
        match point_index(have, e, 0) {
            Some(k) => {
                if supersedes(e, have[k]) {
                    assert(now[k] == e);
                } else {
                    assert(now[k] == have[k]);
                }
                assert(same_point(now[k], records[i]));
            },
            None => {
                assert(now[have.len() as int] == e);
                assert(same_point(now[have.len() as int], records[i]));
            },
        }
    }
}

proof fn lemma_point_index(have: Seq<Entry>, e: Entry, from: int)
    requires
        0 <= from <= have.len(),
    ensures
        point_index(have, e, from) matches Some(i) ==> from <= i < have.len() && same_point(
            have[i],
            e,
        ),
        point_index(have, e, from) is None ==> forall|i: int|
            from <= i < have.len() ==> !same_point(#[trigger] have[i], e),
    decreases have.len() - from,
{
    if from < have.len() && !same_point(have[from], e) {
        lemma_point_index(have, e, from + 1);
    }
}

/// Each point is kept once.
pub proof fn law_each_point_is_kept_once(records: Seq<Entry>)
    ensures
        forall|i: int, j: int|
            0 <= i < j < latest_spec(records).len() ==> !same_point(
                #[trigger] latest_spec(records)[i],
                #[trigger] latest_spec(records)[j],
            ),
    decreases records.len(),
{
    if records.len() > 0 {
        let have = latest_spec(records.drop_last());
        let e = records.last();
        law_each_point_is_kept_once(records.drop_last());
        lemma_point_index(have, e, 0);
        let now = latest_spec(records);
        assert forall|i: int, j: int| 0 <= i < j < now.len() implies !same_point(
            #[trigger] now[i],
            #[trigger] now[j],
        ) by {
            if i < have.len() && j < have.len() {
                assert(!same_point(have[i], have[j]));
            } else {
                assert(!same_point(have[i], e));
            }
        }
    }
}

proof fn lemma_untabled_update(have: Seq<Entry>, i: int, e: Entry)
    requires
        0 <= i < have.len(),
        !tabled(have[i].mode),
        !tabled(e.mode),
    ensures
        tabled_only(have.update(i, e)) == tabled_only(have),
    decreases have.len(),
{
    let rest = have.drop_last();
    if i < have.len() - 1 {
        lemma_untabled_update(rest, i, e);
        assert(have.update(i, e).drop_last() =~= rest.update(i, e));
    } else {
        assert(have.update(i, e).drop_last() =~= rest);
    }
}

/// The page shows what the build that exists does now: one more record of a mode without a table,
/// or one of a point that has a record of a later date, leaves it as it was.
pub proof fn law_a_superseded_record_changes_nothing(records: Seq<Entry>, e: Entry)
    requires
        !tabled(e.mode) || exists|i: int|
            0 <= i < records.len() && same_point(#[trigger] records[i], e) && text::precedes(
                e.date,
                records[i].date,
            ),
    ensures
        render_spec(records.push(e)) == render_spec(records),
{
    let have = latest_spec(records);
    assert(records.push(e).drop_last() =~= records);
    lemma_point_index(have, e, 0);
    if !tabled(e.mode) {
        match point_index(have, e, 0) {
            Some(k) => {
                lemma_untabled_update(have, k, e);
            },
            None => {
                assert(have.push(e).drop_last() =~= have);
            },
        }
    } else {
        let i = choose|i: int|
            0 <= i < records.len() && same_point(#[trigger] records[i], e) && text::precedes(
                e.date,
                records[i].date,
            );
        law_the_latest_date_is_kept(records, i);
        law_each_point_is_kept_once(records);
        let k = choose|k: int|
            0 <= k < have.len() && same_point(#[trigger] have[k], records[i]) && !text::precedes(
                have[k].date,
                records[i].date,
            );
        let at = point_index(have, e, 0)->0;
        assert(same_point(have[k], e));
        assert(same_point(have[at], e));
        assert(at == k) by {
            if at < k {
                assert(!same_point(have[at], have[k]));
            } else if k < at {
                assert(!same_point(have[k], have[at]));
            }
        }
        let kept = have[k].date;
        text::lemma_order_is_total(e.date, records[i].date);
        text::lemma_order_is_transitive(e.date, records[i].date, kept);
    }
}

/// Whether a measurement is of a row of a mode, at a context.
pub open spec fn is_at(e: Entry, mode: Seq<char>, row: Seq<char>, n: u32) -> bool {
    e.mode == mode && split_spec(e.label).0 == row && e.n == n
}

proof fn lemma_number_placed(ns: Seq<u32>, n: u32)
    requires
        forall|i: int, j: int| 0 <= i < j < ns.len() ==> ns[i] < ns[j],
    ensures
        forall|i: int, j: int|
            0 <= i < j < number_placed(ns, n).len() ==> number_placed(ns, n)[i]
                < number_placed(ns, n)[j],
        forall|m: u32| #[trigger] number_placed(ns, n).contains(m) <==> ns.contains(m) || m == n,
    decreases ns.len(),
{
    let now = number_placed(ns, n);
    if ns.len() == 0 || ns.last() < n {
        assert forall|m: u32| #[trigger] now.contains(m) <==> ns.contains(m) || m == n by {
            if ns.contains(m) {
                let i = choose|i: int| 0 <= i < ns.len() && ns[i] == m;
                assert(now[i] == m);
            }
            assert(now[ns.len() as int] == n);
        }
    } else if ns.last() == n {
        assert(ns[ns.len() - 1] == n);
    } else {
        let rest = ns.drop_last();
        lemma_number_placed(rest, n);
        let placed = number_placed(rest, n);
        assert forall|m: u32| #[trigger] now.contains(m) <==> ns.contains(m) || m == n by {
            if now.contains(m) {
                let i = choose|i: int| 0 <= i < now.len() && now[i] == m;
                if i < placed.len() {
                    assert(placed[i] == m && placed.contains(m));
                    if rest.contains(m) {
                        let k = choose|k: int| 0 <= k < rest.len() && rest[k] == m;
                        assert(ns[k] == m);
                    }
                } else {
                    assert(ns[ns.len() - 1] == m);
                }
            }
            if ns.contains(m) || m == n {
                if m == ns.last() && m != n {
                    assert(now[placed.len() as int] == m);
                } else {
                    if ns.contains(m) && m != n {
                        let k = choose|k: int| 0 <= k < ns.len() && ns[k] == m;
                        assert(rest[k] == m);
                    }
                    assert(placed.contains(m));
                    let i = choose|i: int| 0 <= i < placed.len() && placed[i] == m;
                    assert(now[i] == m);
                }
            }
        }
        assert forall|i: int, j: int| 0 <= i < j < now.len() implies now[i] < now[j] by {
            if j == placed.len() {
                assert(placed.contains(placed[i]));
                if rest.contains(placed[i]) {
                    let k = choose|k: int| 0 <= k < rest.len() && rest[k] == placed[i];
                    assert(ns[k] < ns[ns.len() - 1]);
                }
            }
        }
    }
}

/// Every context a row of a mode was measured at is listed, no other is, and they ascend, so that
/// none stands twice.
pub proof fn law_every_context_is_listed_once(
    have: Seq<Entry>,
    mode: Seq<char>,
    row: Seq<char>,
)
    ensures
        forall|n: u32| #[trigger]
            contexts(have, mode, row).contains(n) <==> exists|i: int|
                0 <= i < have.len() && is_at(#[trigger] have[i], mode, row, n),
        forall|i: int, j: int|
            0 <= i < j < contexts(have, mode, row).len() ==> contexts(have, mode, row)[i]
                < contexts(have, mode, row)[j],
    decreases have.len(),
{
    let now = contexts(have, mode, row);
    if have.len() > 0 {
        let rest = have.drop_last();
        law_every_context_is_listed_once(rest, mode, row);
        let e = have.last();
        lemma_number_placed(contexts(rest, mode, row), e.n);
        assert forall|n: u32| #[trigger] now.contains(n) <==> exists|i: int|
            0 <= i < have.len() && is_at(#[trigger] have[i], mode, row, n) by {
            if now.contains(n) {
                if contexts(rest, mode, row).contains(n) {
                    let i = choose|i: int|
                        0 <= i < rest.len() && is_at(#[trigger] rest[i], mode, row, n);
                    assert(is_at(have[i], mode, row, n));
                } else {
                    assert(is_at(have[have.len() - 1], mode, row, n));
                }
            }
            if exists|i: int| 0 <= i < have.len() && is_at(#[trigger] have[i], mode, row, n) {
                let i = choose|i: int|
                    0 <= i < have.len() && is_at(#[trigger] have[i], mode, row, n);
                if i < rest.len() {
                    assert(is_at(rest[i], mode, row, n));
                    assert(contexts(rest, mode, row).contains(n));
                }
            }
        }
    }
}

/// How often a mark stands in a stretch of a page.
pub open spec fn times(page: Seq<Mark>, mark: Mark) -> nat
    decreases page.len(),
{
    if page.len() == 0 {
        0
    } else {
        times(page.drop_last(), mark) + if page.last() == mark { 1nat } else { 0 }
    }
}

proof fn lemma_times(a: Seq<Mark>, b: Seq<Mark>, mark: Mark)
    ensures
        times(a + b, mark) == times(a, mark) + times(b, mark),
    decreases b.len(),
{
    if b.len() == 0 {
        assert(a + b =~= a);
    } else {
        assert((a + b).drop_last() =~= a + b.drop_last());
        lemma_times(a, b.drop_last(), mark);
    }
}

/// Whether a page has a line that begins like this and, behind so many bars and before the line
/// is over, this mark.
pub open spec fn shows(page: Seq<Mark>, start: Seq<Mark>, bars: nat, mark: Mark) -> bool {
    exists|before: Seq<Mark>, middle: Seq<Mark>, after: Seq<Mark>| #[trigger]
        is_shown(page, start, bars, mark, before, middle, after)
}

pub open spec fn is_shown(
    page: Seq<Mark>,
    start: Seq<Mark>,
    bars: nat,
    mark: Mark,
    before: Seq<Mark>,
    middle: Seq<Mark>,
    after: Seq<Mark>,
) -> bool {
    &&& page == before + start + middle + seq![mark] + after
    &&& times(middle, Mark::Letter('|')) == bars
    &&& times(middle, Mark::Letter('\n')) == 0
}

proof fn lemma_shows_within(
    a: Seq<Mark>,
    page: Seq<Mark>,
    b: Seq<Mark>,
    start: Seq<Mark>,
    bars: nat,
    mark: Mark,
)
    requires
        shows(page, start, bars, mark),
    ensures
        shows(a + page + b, start, bars, mark),
{
    let (before, middle, after) = choose|
        before: Seq<Mark>,
        middle: Seq<Mark>,
        after: Seq<Mark>,
    | #[trigger] is_shown(page, start, bars, mark, before, middle, after);
    assert(a + page + b =~= (a + before) + start + middle + seq![mark] + (after + b));
    assert(is_shown(a + page + b, start, bars, mark, a + before, middle, after + b));
}

/// The first kept measurement of its place: no other that comes before it has its mode, context,
/// row and column.
pub open spec fn is_first_of_its_place(have: Seq<Entry>, i: int) -> bool {
    0 <= i < have.len() && forall|j: int|
        0 <= j < i ==> !((#[trigger] have[j]).mode == have[i].mode && have[j].n == have[i].n
            && split_spec(have[j].label) == split_spec(have[i].label))
}

proof fn lemma_cell_index(have: Seq<Entry>, i: int, from: int)
    requires
        is_first_of_its_place(have, i),
        0 <= from <= i,
    ensures
        cell_index(
            have,
            have[i].mode,
            split_spec(have[i].label).0,
            have[i].n,
            split_spec(have[i].label).1,
            from,
        ) == Some(i),
    decreases i - from,
{
    if from < i {
        assert(!(have[from].mode == have[i].mode && have[from].n == have[i].n && split_spec(
            have[from].label,
        ) == split_spec(have[i].label)));
        lemma_cell_index(have, i, from + 1);
    }
}

proof fn lemma_cell_bars(have: Seq<Entry>, at: Option<int>)
    ensures
        times(cell_marks(have, at), Mark::Letter('|')) == 1,
        times(cell_marks(have, at), Mark::Letter('\n')) == 0,
{
    reveal_strlit(" ");
    reveal_strlit(" |");
    reveal_strlit(" — |");
    reveal_with_fuel(times, 6);
    match at {
        Some(i) => {
            let m = cell_marks(have, at);
            let cell = Mark::Cell(have[i].best, have[i].mean, have[i].sd_sample);
            assert(m =~= seq![letter(' '), cell, letter(' '), letter('|')]);
            assert(m.drop_last() =~= seq![letter(' '), cell, letter(' ')]);
            assert(m.drop_last().drop_last() =~= seq![letter(' '), cell]);
            assert(m.drop_last().drop_last().drop_last() =~= seq![letter(' ')]);
        },
        None => {
            let m = cell_marks(have, at);
            assert(m =~= seq![letter(' '), letter('—'), letter(' '), letter('|')]);
            assert(m.drop_last() =~= seq![letter(' '), letter('—'), letter(' ')]);
            assert(m.drop_last().drop_last() =~= seq![letter(' '), letter('—')]);
            assert(m.drop_last().drop_last().drop_last() =~= seq![letter(' ')]);
        },
    }
}

proof fn lemma_cells_bars(
    have: Seq<Entry>,
    mode: Seq<char>,
    row: Seq<char>,
    n: u32,
    columns: Seq<Option<Seq<char>>>,
    k: int,
)
    requires
        0 <= k,
    ensures
        times(cells(have, mode, row, n, columns, k), Mark::Letter('|')) == k,
        times(cells(have, mode, row, n, columns, k), Mark::Letter('\n')) == 0,
    decreases k,
{
    if k > 0 {
        lemma_cells_bars(have, mode, row, n, columns, k - 1);
        let at = cell_index(have, mode, row, n, columns[k - 1], 0);
        lemma_cell_bars(have, at);
        let rest = cells(have, mode, row, n, columns, k - 1);
        lemma_times(rest, cell_marks(have, at), Mark::Letter('|'));
        lemma_times(rest, cell_marks(have, at), Mark::Letter('\n'));
    }
}

/// The cells behind the `k`-th of a line's.
proof fn lemma_cells_split(
    have: Seq<Entry>,
    mode: Seq<char>,
    row: Seq<char>,
    n: u32,
    columns: Seq<Option<Seq<char>>>,
    k: int,
    to: int,
) -> (rest: Seq<Mark>)
    requires
        0 <= k < to,
    ensures
        cells(have, mode, row, n, columns, to) == cells(have, mode, row, n, columns, k)
            + cell_marks(have, cell_index(have, mode, row, n, columns[k], 0)) + rest,
    decreases to - k,
{
    let cell = cell_marks(have, cell_index(have, mode, row, n, columns[k], 0));
    let first = cells(have, mode, row, n, columns, k);
    if to == k + 1 {
        assert(first + cell =~= first + cell + Seq::<Mark>::empty());
        Seq::empty()
    } else {
        let rest = lemma_cells_split(have, mode, row, n, columns, k, to - 1);
        let last = cell_marks(have, cell_index(have, mode, row, n, columns[to - 1], 0));
        assert((first + cell + rest) + last =~= first + cell + (rest + last));
        rest + last
    }
}

/// How a line begins: its row and its context.
pub open spec fn line_start(row: Seq<char>, n: u32) -> Seq<Mark> {
    marks("| "@ + row + " | "@ + text::decimal_spec(n as nat) + " |"@)
}

proof fn lemma_line_shows(have: Seq<Entry>, i: int, columns: Seq<Option<Seq<char>>>, k: int)
    requires
        is_first_of_its_place(have, i),
        0 <= k < columns.len(),
        columns[k] == split_spec(have[i].label).1,
    ensures
        shows(
            line(have, have[i].mode, split_spec(have[i].label).0, have[i].n, columns),
            line_start(split_spec(have[i].label).0, have[i].n),
            k as nat,
            Mark::Cell(have[i].best, have[i].mean, have[i].sd_sample),
        ),
{
    let e = have[i];
    let (row, _) = split_spec(e.label);
    let whole = line(have, e.mode, row, e.n, columns);
    let start = line_start(row, e.n);
    let mark = Mark::Cell(e.best, e.mean, e.sd_sample);
    lemma_cell_index(have, i, 0);
    let first = cells(have, e.mode, row, e.n, columns, k);
    let rest = lemma_cells_split(have, e.mode, row, e.n, columns, k, columns.len() as int);
    lemma_cells_bars(have, e.mode, row, e.n, columns, k);
    let middle = first + marks(" "@);
    lemma_times(first, marks(" "@), Mark::Letter('|'));
    lemma_times(first, marks(" "@), Mark::Letter('\n'));
    reveal_strlit(" ");
    assert(marks(" "@) =~= seq![letter(' ')]);
    reveal_with_fuel(times, 2);
    assert(marks(" "@).drop_last() =~= Seq::<Mark>::empty());
    let tail = (if has_ratio(columns) {
        ratio_marks(
            have,
            cell_index(have, e.mode, row, e.n, columns[0], 0),
            cell_index(have, e.mode, row, e.n, columns[1], 0),
        )
    } else {
        Seq::empty()
    }) + marks("\n"@);
    let after = marks(" |"@) + rest + tail;
    assert(whole =~= Seq::<Mark>::empty() + start + middle + seq![mark] + after);
    assert(is_shown(whole, start, k as nat, mark, Seq::empty(), middle, after));
}

proof fn lemma_lines_show(
    have: Seq<Entry>,
    mode: Seq<char>,
    row: Seq<char>,
    ns: Seq<u32>,
    columns: Seq<Option<Seq<char>>>,
    at: int,
    k: int,
    start: Seq<Mark>,
    bars: nat,
    mark: Mark,
)
    requires
        0 <= at < k <= ns.len(),
        shows(line(have, mode, row, ns[at], columns), start, bars, mark),
    ensures
        shows(lines(have, mode, row, ns, columns, k), start, bars, mark),
    decreases k,
{
    let rest = lines(have, mode, row, ns, columns, k - 1);
    let last = line(have, mode, row, ns[k - 1], columns);
    if at < k - 1 {
        lemma_lines_show(have, mode, row, ns, columns, at, k - 1, start, bars, mark);
        lemma_shows_within(Seq::empty(), rest, last, start, bars, mark);
        assert(Seq::<Mark>::empty() + rest + last =~= rest + last);
    } else {
        lemma_shows_within(rest, last, Seq::empty(), start, bars, mark);
        assert(rest + last + Seq::<Mark>::empty() =~= rest + last);
    }
}

proof fn lemma_body_shows(
    have: Seq<Entry>,
    mode: Seq<char>,
    rows: Seq<Seq<char>>,
    columns: Seq<Option<Seq<char>>>,
    at: int,
    k: int,
    start: Seq<Mark>,
    bars: nat,
    mark: Mark,
)
    requires
        0 <= at < k <= rows.len(),
        shows(
            lines(
                have,
                mode,
                rows[at],
                contexts(have, mode, rows[at]),
                columns,
                contexts(have, mode, rows[at]).len() as int,
            ),
            start,
            bars,
            mark,
        ),
    ensures
        shows(body(have, mode, rows, columns, k), start, bars, mark),
    decreases k,
{
    let ns = contexts(have, mode, rows[k - 1]);
    let rest = body(have, mode, rows, columns, k - 1);
    let last = lines(have, mode, rows[k - 1], ns, columns, ns.len() as int);
    if at < k - 1 {
        lemma_body_shows(have, mode, rows, columns, at, k - 1, start, bars, mark);
        lemma_shows_within(Seq::empty(), rest, last, start, bars, mark);
        assert(Seq::<Mark>::empty() + rest + last =~= rest + last);
    } else {
        lemma_shows_within(rest, last, Seq::empty(), start, bars, mark);
        assert(rest + last + Seq::<Mark>::empty() =~= rest + last);
    }
}

/// Whether a page has the table of a mode, under its title, with a line that shows a mark.
pub open spec fn table_shows(
    page: Seq<Mark>,
    mode: Seq<char>,
    start: Seq<Mark>,
    bars: nat,
    mark: Mark,
) -> bool {
    exists|before: Seq<Mark>, table: Seq<Mark>, after: Seq<Mark>|
        #![trigger is_cut(page, before, marks("**"@ + mode + "** ("@), table, after)]
        is_cut(page, before, marks("**"@ + mode + "** ("@), table, after) && shows(
            table,
            start,
            bars,
            mark,
        )
}

/// Whether a page is these four stretches, one after another.
pub open spec fn is_cut(
    page: Seq<Mark>,
    before: Seq<Mark>,
    title: Seq<Mark>,
    table: Seq<Mark>,
    after: Seq<Mark>,
) -> bool {
    page == before + title + table + after
}

proof fn lemma_table_shows_on(
    page: Seq<Mark>,
    more: Seq<Mark>,
    mode: Seq<char>,
    start: Seq<Mark>,
    bars: nat,
    mark: Mark,
)
    requires
        table_shows(page, mode, start, bars, mark),
    ensures
        table_shows(page + more, mode, start, bars, mark),
{
    let name = marks("**"@ + mode + "** ("@);
    let (before, table, after) = choose|before: Seq<Mark>, table: Seq<Mark>, after: Seq<Mark>|
        #![trigger is_cut(page, before, name, table, after)]
        is_cut(page, before, name, table, after) && shows(table, start, bars, mark);
    assert(page + more =~= before + name + table + (after + more));
    assert(is_cut(page + more, before, name, table, after + more));
}

proof fn lemma_own_table_shows(
    rest: Seq<Mark>,
    inner: Seq<Mark>,
    mode: Seq<char>,
    columns: Seq<Option<Seq<char>>>,
    start: Seq<Mark>,
    bars: nat,
    mark: Mark,
)
    requires
        shows(inner, start, bars, mark),
    ensures
        table_shows(
            rest + marks(head(mode, columns)) + inner + marks("\n"@),
            mode,
            start,
            bars,
            mark,
        ),
{
    let whole = head(mode, columns);
    let opening = "**"@ + mode + "** ("@;
    let more = whole.skip(opening.len() as int);
    assert(whole =~= opening + more);
    lemma_marks(opening, more);
    lemma_shows_within(marks(more), inner, marks("\n"@), start, bars, mark);
    let table = marks(more) + inner + marks("\n"@);
    let page = rest + marks(whole) + inner + marks("\n"@);
    assert(page =~= rest + marks(opening) + table + Seq::<Mark>::empty());
    assert(is_cut(page, rest, marks(opening), table, Seq::empty()));
}

proof fn lemma_tables_show(
    have: Seq<Entry>,
    modes: Seq<Seq<char>>,
    rows: Seq<Seq<char>>,
    columns: Seq<Option<Seq<char>>>,
    at: int,
    k: int,
    start: Seq<Mark>,
    bars: nat,
    mark: Mark,
)
    requires
        0 <= at < k <= modes.len(),
        shows(body(have, modes[at], rows, columns, rows.len() as int), start, bars, mark),
    ensures
        table_shows(tables(have, modes, rows, columns, k), modes[at], start, bars, mark),
    decreases k,
{
    let rest = tables(have, modes, rows, columns, k - 1);
    let title = marks(head(modes[k - 1], columns));
    let inner = body(have, modes[k - 1], rows, columns, rows.len() as int);
    let end = marks("\n"@);
    if at < k - 1 {
        lemma_tables_show(have, modes, rows, columns, at, k - 1, start, bars, mark);
        lemma_table_shows_on(rest, title + inner + end, modes[at], start, bars, mark);
        assert(rest + (title + inner + end) =~= rest + title + inner + end);
    } else {
        lemma_own_table_shows(rest, inner, modes[at], columns, start, bars, mark);
    }
}

proof fn lemma_modes(have: Seq<Entry>, i: int) -> (at: int)
    requires
        0 <= i < have.len(),
    ensures
        0 <= at < modes_of(have).len(),
        modes_of(have)[at] == have[i].mode,
    decreases have.len(),
{
    let rest = have.drop_last();
    if i < rest.len() {
        let at = lemma_modes(rest, i);
        assert(modes_of(have)[at] == modes_of(rest)[at]);
        at
    } else if modes_of(rest).contains(have.last().mode) {
        choose|at: int| 0 <= at < modes_of(rest).len() && modes_of(rest)[at] == have.last().mode
    } else {
        modes_of(rest).len() as int
    }
}

proof fn lemma_rows(have: Seq<Entry>, i: int) -> (at: int)
    requires
        0 <= i < have.len(),
    ensures
        0 <= at < rows_of(have).len(),
        rows_of(have)[at] == split_spec(have[i].label).0,
    decreases have.len(),
{
    let rest = have.drop_last();
    let row = split_spec(have.last().label).0;
    if i < rest.len() {
        let at = lemma_rows(rest, i);
        assert(rows_of(have)[at] == rows_of(rest)[at]);
        at
    } else if rows_of(rest).contains(row) {
        choose|at: int| 0 <= at < rows_of(rest).len() && rows_of(rest)[at] == row
    } else {
        rows_of(rest).len() as int
    }
}

/// Every column a label names has one heading, and no heading stands twice.
pub proof fn law_every_column_has_its_heading(have: Seq<Entry>)
    ensures
        columns_of(have).no_duplicates(),
        rows_of(have).no_duplicates(),
        modes_of(have).no_duplicates(),
        forall|i: int|
            0 <= i < have.len() ==> columns_of(have).contains(
                split_spec((#[trigger] have[i]).label).1,
            ) && rows_of(have).contains(split_spec(have[i].label).0) && modes_of(have).contains(
                have[i].mode,
            ),
    decreases have.len(),
{
    if have.len() > 0 {
        let rest = have.drop_last();
        law_every_column_has_its_heading(rest);
        let (r, c) = split_spec(have.last().label);
        let m = have.last().mode;
        lemma_with_new(columns_of(rest), c);
        lemma_with_new(rows_of(rest), r);
        lemma_with_new(modes_of(rest), m);
        assert forall|i: int| 0 <= i < have.len() implies columns_of(have).contains(
            split_spec((#[trigger] have[i]).label).1,
        ) && rows_of(have).contains(split_spec(have[i].label).0) && modes_of(have).contains(
            have[i].mode,
        ) by {
            if i < rest.len() {
                assert(have[i] == rest[i]);
            }
        }
    }
}

proof fn lemma_with_new<T>(list: Seq<T>, item: T)
    requires
        list.no_duplicates(),
    ensures
        with_new(list, item).no_duplicates(),
        with_new(list, item).contains(item),
        forall|x: T| list.contains(x) ==> #[trigger] with_new(list, item).contains(x),
{
    let now = with_new(list, item);
    if !list.contains(item) {
        assert(now[list.len() as int] == item);
        assert forall|x: T| list.contains(x) implies #[trigger] now.contains(x) by {
            let k = choose|k: int| 0 <= k < list.len() && list[k] == x;
            assert(now[k] == x);
        }
    }
}

/// Every kept measurement of a tabled mode is shown: in the table of its mode, on the line of its
/// row and its context, behind as many bars as there are columns before its own. Only where two
/// labels come to one row and column does the first of them stand for both.
pub proof fn law_every_kept_measurement_is_shown(records: Seq<Entry>, i: int)
    requires
        is_first_of_its_place(tabled_only(latest_spec(records)), i),
    ensures
        ({
            let have = tabled_only(latest_spec(records));
            let e = have[i];
            exists|k: int|
                0 <= k < columns_of(have).len() && columns_of(have)[k] == split_spec(e.label).1
                    && #[trigger] table_shows(
                    render_spec(records),
                    e.mode,
                    line_start(split_spec(e.label).0, e.n),
                    k as nat,
                    Mark::Cell(e.best, e.mean, e.sd_sample),
                )
        }),
{
    let have = tabled_only(latest_spec(records));
    let e = have[i];
    let (row, column) = split_spec(e.label);
    let (modes, rows, columns) = (modes_of(have), rows_of(have), columns_of(have));
    let start = line_start(row, e.n);
    let mark = Mark::Cell(e.best, e.mean, e.sd_sample);
    law_every_column_has_its_heading(have);
    assert(have[i] == e);
    let k = choose|k: int| 0 <= k < columns.len() && columns[k] == column;
    lemma_line_shows(have, i, columns, k);
    law_every_context_is_listed_once(have, e.mode, row);
    let ns = contexts(have, e.mode, row);
    assert(is_at(have[i], e.mode, row, e.n));
    assert(ns.contains(e.n));
    let c = choose|c: int| 0 <= c < ns.len() && ns[c] == e.n;
    lemma_lines_show(have, e.mode, row, ns, columns, c, ns.len() as int, start, k as nat, mark);
    let r = lemma_rows(have, i);
    lemma_body_shows(have, e.mode, rows, columns, r, rows.len() as int, start, k as nat, mark);
    let m = lemma_modes(have, i);
    lemma_tables_show(
        have,
        modes,
        rows,
        columns,
        m,
        modes.len() as int,
        start,
        k as nat,
        mark,
    );
    assert(table_shows(render_spec(records), e.mode, start, k as nat, mark));
}

/// A label of a sweep comes apart at its last separator: what stands before it is the row, and
/// what stands behind the first `=` after it the column. A label without a separator is its own
/// row.
pub proof fn law_a_sweep_label_comes_apart(
    prefix: Seq<char>,
    variable: Seq<char>,
    value: Seq<char>,
    label: Seq<char>,
)
    requires
        !variable.contains('='),
        !text::occurs(" "@ + variable + "="@ + value, " · "@),
        !text::occurs(label, " · "@),
    ensures
        split_spec(prefix + " · "@ + variable + "="@ + value) == (prefix, Some(value)),
        split_spec(label) == (label, None::<Seq<char>>),
{
    reveal_strlit(" · ");
    reveal_strlit("=");
    reveal_strlit(" ");
    let whole = prefix + " · "@ + variable + "="@ + value;
    let p = prefix.len() as int;
    let tail = " "@ + variable + "="@ + value;
    assert forall|k: int| k > p implies !text::stands_at(whole, " · "@, k) by {
        if text::stands_at(whole, " · "@, k) {
            let part = whole.subrange(k, k + 3);
            assert(part[0] == ' ' && part[1] == '·');
            if k == p + 1 {
                assert(whole[p + 1] == '·');
                assert(part[0] == whole[p + 1]);
            } else {
                assert(whole.skip(p + 2) =~= tail);
                assert(tail.subrange(k - p - 2, k - p + 1) =~= part);
                assert(text::stands_at(tail, " · "@, k - p - 2));
            }
        }
    }
    assert(whole.subrange(p, p + 3) =~= " · "@);
    assert(text::stands_at(whole, " · "@, p));
    lemma_last_place(whole, " · "@, whole.len() as int, p);
    let point = whole.skip(p + 3);
    assert(point =~= variable + "="@ + value);
    let v = variable.len() as int;
    assert(point.subrange(v, v + 1) =~= "="@);
    assert(text::stands_at(point, "="@, v));
    assert forall|k: int| 0 <= k < v implies !text::stands_at(point, "="@, k) by {
        if text::stands_at(point, "="@, k) {
            assert(point.subrange(k, k + 1)[0] == '=');
            assert(variable[k] == '=');
        }
    }
    lemma_first_place(point, "="@, 0, v);
    assert(whole.take(p) =~= prefix);
    assert(point.skip(v + 1) =~= value);
    lemma_no_place(label, " · "@, label.len() as int);
}

proof fn lemma_last_place(whole: Seq<char>, part: Seq<char>, from: int, at: int)
    requires
        0 <= at <= from,
        text::stands_at(whole, part, at),
        forall|k: int| k > at ==> !text::stands_at(whole, part, k),
    ensures
        text::last_place(whole, part, from) == Some(at),
    decreases from - at,
{
    if from > at {
        lemma_last_place(whole, part, from - 1, at);
    }
}

proof fn lemma_first_place(whole: Seq<char>, part: Seq<char>, from: int, at: int)
    requires
        0 <= from <= at,
        text::stands_at(whole, part, at),
        forall|k: int| from <= k < at ==> !text::stands_at(whole, part, k),
    ensures
        text::first_place(whole, part, from) == Some(at),
    decreases at - from,
{
    if from < at {
        lemma_first_place(whole, part, from + 1, at);
    }
}

proof fn lemma_no_place(whole: Seq<char>, part: Seq<char>, from: int)
    requires
        !text::occurs(whole, part),
    ensures
        text::last_place(whole, part, from) is None,
    decreases from + 1,
{
    if from >= 0 {
        assert(!text::stands_at(whole, part, from));
        lemma_no_place(whole, part, from - 1);
    }
}

/// A point is a label, a mode and a context: each record's has one entry kept, and no two entries
/// kept are of one.
pub proof fn law_a_point_is_its_label_mode_and_context(records: Seq<Entry>, i: int, a: int, b: int)
    requires
        0 <= i < records.len(),
    ensures
        exists|k: int|
            0 <= k < latest_spec(records).len() && (#[trigger] latest_spec(records)[k]).label
                == records[i].label && latest_spec(records)[k].mode == records[i].mode
                && latest_spec(records)[k].n == records[i].n,
        0 <= a < b < latest_spec(records).len() ==> latest_spec(records)[a].label != latest_spec(
            records,
        )[b].label || latest_spec(records)[a].mode != latest_spec(records)[b].mode || latest_spec(
            records,
        )[a].n != latest_spec(records)[b].n,
{
    law_the_latest_date_is_kept(records, i);
    law_each_point_is_kept_once(records);
    let have = latest_spec(records);
    if 0 <= a < b < have.len() {
        assert(!same_point(have[a], have[b]));
    }
}

/// One more record of a kept point takes its place where it has a later date, or the same and a
/// better figure: a lower one of the two modes that are costs, a higher one of the others. It
/// changes nothing else, and a new point comes last.
pub proof fn law_a_better_record_takes_the_place(records: Seq<Entry>, e: Entry, k: int)
    requires
        0 <= k < latest_spec(records).len(),
        latest_spec(records)[k].label == e.label,
        latest_spec(records)[k].mode == e.mode,
        latest_spec(records)[k].n == e.n,
    ensures
        ({
            let have = latest_spec(records);
            let now = latest_spec(records.push(e));
            let cost = e.mode == "cpu"@ || e.mode == "ttft"@;
            let same_day = have[k].date == e.date;
            &&& text::precedes(have[k].date, e.date) ==> now == have.update(k, e)
            &&& text::precedes(e.date, have[k].date) ==> now == have
            &&& same_day && cost && ieee::double_greater(have[k].best, e.best) ==> now
                == have.update(k, e)
            &&& same_day && !cost && ieee::double_greater(e.best, have[k].best) ==> now
                == have.update(k, e)
            &&& same_day && cost && !ieee::double_greater(have[k].best, e.best) ==> now == have
            &&& same_day && !cost && !ieee::double_greater(e.best, have[k].best) ==> now == have
        }),
{
    let have = latest_spec(records);
    assert(records.push(e).drop_last() =~= records);
    lemma_point_index(have, e, 0);
    law_each_point_is_kept_once(records);
    assert(same_point(have[k], e));
    let at = point_index(have, e, 0)->0;
    if at != k {
        if at < k {
            assert(!same_point(have[at], have[k]));
        } else {
            assert(!same_point(have[k], have[at]));
        }
    }
    text::lemma_order_is_total(have[k].date, e.date);
}

/// A point that is not kept yet comes last.
pub proof fn law_a_new_point_comes_last(records: Seq<Entry>, e: Entry)
    requires
        forall|k: int|
            0 <= k < latest_spec(records).len() ==> (#[trigger] latest_spec(records)[k]).label
                != e.label || latest_spec(records)[k].mode != e.mode || latest_spec(records)[k].n
                != e.n,
    ensures
        latest_spec(records.push(e)) == latest_spec(records).push(e),
        latest_spec(Seq::empty()) == Seq::<Entry>::empty(),
{
    let have = latest_spec(records);
    assert(records.push(e).drop_last() =~= records);
    lemma_point_index(have, e, 0);
}

/// Seven modes have a table; an entry of one is kept in its turn, any other is left out.
pub proof fn law_seven_modes_are_tabled(have: Seq<Entry>, e: Entry)
    ensures
        ({
            let shown = e.mode == "pp"@ || e.mode == "tg"@ || e.mode == "pg"@ || e.mode == "curve"@
                || e.mode == "cpu"@ || e.mode == "embed"@ || e.mode == "ttft"@;
            &&& shown ==> tabled_only(have.push(e)) == tabled_only(have).push(e)
            &&& !shown ==> tabled_only(have.push(e)) == tabled_only(have)
        }),
        tabled_only(Seq::empty()) == Seq::<Entry>::empty(),
{
    assert(have.push(e).drop_last() =~= have);
}

/// Modes, rows and columns come in the order they first appear: one more entry adds its own at the
/// end, where it is new.
pub proof fn law_what_appears_first_stands_first(have: Seq<Entry>, e: Entry)
    ensures
        ({
            let (row, column) = split_spec(e.label);
            let more = have.push(e);
            &&& modes_of(more) == if modes_of(have).contains(e.mode) {
                modes_of(have)
            } else {
                modes_of(have).push(e.mode)
            }
            &&& rows_of(more) == if rows_of(have).contains(row) {
                rows_of(have)
            } else {
                rows_of(have).push(row)
            }
            &&& columns_of(more) == if columns_of(have).contains(column) {
                columns_of(have)
            } else {
                columns_of(have).push(column)
            }
        }),
{
    assert(have.push(e).drop_last() =~= have);
}

/// What a mode's figures and its contexts are said to be: costs in milliseconds, where lower is
/// better, and rates in tokens a second.
pub proof fn law_each_mode_says_what_it_measures(mode: Seq<char>)
    ensures
        mode == "cpu"@ ==> unit_of(mode) == "ms/token, lower is better"@,
        mode == "ttft"@ ==> unit_of(mode) == "ms to first token, lower is better"@,
        mode == "pg"@ ==> unit_of(mode) == "tok/s, prompt + generated over the whole turn"@,
        mode != "cpu"@ && mode != "ttft"@ && mode != "pg"@ ==> unit_of(mode) == "tok/s"@,
        mode == "pp"@ || mode == "embed"@ || mode == "pg"@ ==> axis_of(mode) == "prompt"@,
        mode == "tg"@ || mode == "cpu"@ ==> axis_of(mode) == "depth"@,
        mode == "curve"@ || mode == "ttft"@ ==> axis_of(mode) == "n"@,
{
    reveal_strlit("cpu");
    reveal_strlit("ttft");
    reveal_strlit("pg");
    reveal_strlit("pp");
    reveal_strlit("tg");
    reveal_strlit("embed");
    reveal_strlit("curve");
    assert("pg"@[1] == 'g' && "pp"@[1] == 'p' && "tg"@[0] == 't' && "pg"@[0] == 'p');
    assert("embed"@[0] == 'e' && "curve"@[0] == 'c');
    assert("cpu"@.len() == 3 && "ttft"@.len() == 4 && "pg"@.len() == 2 && "pp"@.len() == 2
        && "tg"@.len() == 2 && "embed"@.len() == 5 && "curve"@.len() == 5);
}

/// A line ends, under two swept columns, in the first over the second: in a dash where one of them
/// was not measured, or the second is not above zero. No other table has a ratio.
pub proof fn law_the_ratio_is_the_first_over_the_second(
    have: Seq<Entry>,
    i: int,
    j: int,
    columns: Seq<Option<Seq<char>>>,
)
    ensures
        ieee::double_greater(have[j].best, 0) ==> ratio_marks(have, Some(i), Some(j)) == marks(" "@)
            + seq![Mark::Ratio(have[i].best, have[j].best)] + marks("× |"@),
        !ieee::double_greater(have[j].best, 0) ==> ratio_marks(have, Some(i), Some(j)) == marks(
            " — |"@,
        ),
        ratio_marks(have, None, Some(j)) == marks(" — |"@),
        ratio_marks(have, Some(i), None) == marks(" — |"@),
        ratio_marks(have, None, None) == marks(" — |"@),
        has_ratio(columns) <==> columns.len() == 2 && columns[0] != None::<Seq<char>> && columns[1]
            != None::<Seq<char>>,
        cell_marks(have, None) == marks(" — |"@),
{
}

/// A cell is the first entry of its mode, row, context and column; there is none only where no
/// entry is of all four.
pub proof fn law_a_cell_is_the_first_of_its_place(
    have: Seq<Entry>,
    mode: Seq<char>,
    row: Seq<char>,
    n: u32,
    column: Option<Seq<char>>,
    from: int,
)
    requires
        0 <= from,
    ensures
        match cell_index(have, mode, row, n, column, from) {
            Some(i) => from <= i < have.len() && have[i].mode == mode && have[i].n == n && split_spec(
                have[i].label,
            ).0 == row && split_spec(have[i].label).1 == column && forall|k: int|
                from <= k < i ==> !((#[trigger] have[k]).mode == mode && have[k].n == n
                    && split_spec(have[k].label).0 == row && split_spec(have[k].label).1 == column),
            None => forall|k: int|
                from <= k < have.len() ==> !((#[trigger] have[k]).mode == mode && have[k].n == n
                    && split_spec(have[k].label).0 == row && split_spec(have[k].label).1 == column),
        },
    decreases have.len() - from,
{
    if from < have.len() {
        law_a_cell_is_the_first_of_its_place(have, mode, row, n, column, from + 1);
    }
}

/// A table's head has a heading for each column in turn, `best` where the label sweeps nothing,
/// and under them as many marks of alignment.
pub proof fn law_each_column_is_headed_in_turn(columns: Seq<Option<Seq<char>>>, k: int, v: Seq<char>)
    requires
        k > 0,
    ensures
        headings(columns, k) == headings(columns, k - 1) + " "@ + (if columns[k - 1] is Some {
            columns[k - 1]->0
        } else {
            "best"@
        }) + " |"@,
        rules(k) == rules(k - 1) + " --: |"@,
        headings(columns, 0) == Seq::<char>::empty(),
        rules(0) == Seq::<char>::empty(),
{
}

} // verus!
