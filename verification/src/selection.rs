//! Mouse text selection over the drawn screen.
//!
//! A left-button drag highlights the cells between the press and the pointer, and the release
//! copies their text. The selection is made of screen cells: it follows whatever the last frame
//! put on screen, and copies exactly what is visible.
//!
//! The screen is one resource, so its selection is one value, a [`State`]. Times are nanoseconds
//! on one clock.

use vstd::prelude::*;
use vstd::string::*;
use crate::text;

verus! {

/// How long the `Copied …` notice stays on the status line.
pub const NOTICE_DURATION: u64 = 3_000_000_000;

/// A screen cell as `(column, row)`.
pub type Cell = (u16, u16);

/// Whether one cell is read no later than another: row by row, each from the left.
pub open spec fn reads_no_later(a: Cell, b: Cell) -> bool {
    a.1 < b.1 || (a.1 == b.1 && a.0 <= b.0)
}

/// A stream selection: every cell from `anchor` to `head` in reading order, both ends included,
/// whole rows in between. Either end may be the one the button went down on.
#[derive(Clone, Copy, Debug, PartialEq, Eq)]
pub struct Selection {
    pub anchor: Cell,
    pub head: Cell,
    /// The button is still down: releases finish the selection, and the pointer keeps moving
    /// `head`.
    pub dragging: bool,
}

impl Selection {
    /// The two ends in reading order.
    pub open spec fn ends(self) -> (Cell, Cell) {
        if reads_no_later(self.anchor, self.head) {
            (self.anchor, self.head)
        } else {
            (self.head, self.anchor)
        }
    }

    /// Whether a cell is between the ends, in reading order.
    pub open spec fn covers(self, cell: Cell) -> bool {
        reads_no_later(self.ends().0, cell) && reads_no_later(cell, self.ends().1)
    }

    /// The columns of a row inside the selection, on a screen of a width: the first and the last.
    pub open spec fn columns_spec(self, row: u16, width: u16) -> Option<(int, int)> {
        let (first, last) = self.ends();
        let from = if row == first.1 { first.0 as int } else { 0 };
        let to = if row == last.1 && last.0 < width { last.0 as int } else { width - 1 };
        if first.1 <= row <= last.1 && from <= to { Some((from, to)) } else { None }
    }

    /// Start a selection at the cell the button went down on.
    pub fn begin(cell: Cell) -> (selection: Selection)
        ensures
            selection == (Selection { anchor: cell, head: cell, dragging: true }),
    {
        Selection { anchor: cell, head: cell, dragging: true }
    }

    /// A finished selection covering `start..=end` in reading order.
    pub fn span(start: Cell, end: Cell) -> (selection: Selection)
        ensures
            selection == (Selection { anchor: start, head: end, dragging: false }),
    {
        Selection { anchor: start, head: end, dragging: false }
    }

    /// Move the free end to where the pointer is now.
    pub fn extend(&mut self, cell: Cell)
        ensures
            *final(self) == (Selection { head: cell, ..*old(self) }),
    {
        self.head = cell;
    }

    /// The button came up; the selection keeps its extent.
    pub fn finish(&mut self)
        ensures
            *final(self) == (Selection { dragging: false, ..*old(self) }),
    {
        self.dragging = false;
    }

    pub fn is_dragging(&self) -> (yes: bool)
        ensures
            yes == self.dragging,
    {
        self.dragging
    }

    /// A click without a drag selects nothing.
    pub fn is_empty(&self) -> (yes: bool)
        ensures
            yes == (self.anchor == self.head),
    {
        self.anchor.0 == self.head.0 && self.anchor.1 == self.head.1
    }

    /// The two ends in reading order: `(first, last)`, both inclusive.
    pub fn bounds(&self) -> (ends: (Cell, Cell))
        ensures
            ends == self.ends(),
    {
        if self.anchor.1 < self.head.1 || (self.anchor.1 == self.head.1 && self.anchor.0
            <= self.head.0) {
            (self.anchor, self.head)
        } else {
            (self.head, self.anchor)
        }
    }

    /// Whether `(column, row)` is inside the selection.
    pub fn contains(&self, cell: Cell) -> (yes: bool)
        ensures
            yes == self.covers(cell),
    {
        let (first, last) = self.bounds();
        if cell.1 < first.1 || cell.1 > last.1 {
            return false;
        }
        (cell.1 > first.1 || cell.0 >= first.0) && (cell.1 < last.1 || cell.0 <= last.0)
    }

    /// The columns of `row` inside the selection, clipped to `width`.
    fn columns(&self, row: u16, width: u16) -> (columns: Option<(u16, u16)>)
        ensures
            match columns {
                Some(c) => self.columns_spec(row, width) == Some((c.0 as int, c.1 as int)),
                None => self.columns_spec(row, width) is None,
            },
    {
        let (first, last) = self.bounds();
        if row < first.1 || row > last.1 || width == 0 {
            return None;
        }
        let from: u16 = if row == first.1 {
            first.0
        } else {
            0
        };
        let to: u16 = if row == last.1 && last.0 < width {
            last.0
        } else {
            width - 1
        };
        if from <= to {
            Some((from, to))
        } else {
            None
        }
    }
}

/// The columns of a row are exactly its covered cells: the selection follows the stream, not the
/// rectangle.
pub proof fn law_columns_are_the_covered_cells(
    selection: Selection,
    row: u16,
    width: u16,
    col: u16,
)
    requires
        col < width,
    ensures
        selection.covers((col, row)) == (selection.columns_spec(row, width) matches Some(c) && c.0
            <= col <= c.1),
{
}

/// Which end is the anchor makes no difference to what is selected.
pub proof fn law_the_ends_can_be_swapped(a: Cell, b: Cell, dragging: bool, cell: Cell)
    ensures
        (Selection { anchor: a, head: b, dragging }).ends() == (Selection {
            anchor: b,
            head: a,
            dragging,
        }).ends(),
        (Selection { anchor: a, head: b, dragging }).covers(cell) == (Selection {
            anchor: b,
            head: a,
            dragging,
        }).covers(cell),
{
}

/// What one cell of the screen shows.
#[derive(Clone, Debug, PartialEq, Eq)]
pub struct Tile {
    pub symbol: String,
    /// Shown in reverse video.
    pub reversed: bool,
}

#[verifier::ext_equal]
pub ghost struct Shown {
    pub symbol: Seq<char>,
    pub reversed: bool,
}

impl View for Tile {
    type V = Shown;

    open spec fn view(&self) -> Shown {
        Shown { symbol: self.symbol@, reversed: self.reversed }
    }
}

/// The cells of a frame, row by row. The first column is `left`, the first row `top`.
#[derive(Clone, Debug, PartialEq, Eq)]
pub struct Screen {
    pub left: u16,
    pub top: u16,
    pub width: u16,
    pub height: u16,
    pub rows: Vec<Vec<Tile>>,
}

#[verifier::ext_equal]
pub ghost struct Grid {
    pub left: int,
    pub top: int,
    pub width: int,
    pub height: int,
    pub rows: Seq<Seq<Shown>>,
}

pub open spec fn row_view(row: Seq<Tile>) -> Seq<Shown> {
    row.map_values(|t: Tile| t@)
}

pub open spec fn rows_view(rows: Seq<Vec<Tile>>) -> Seq<Seq<Shown>> {
    rows.map_values(|r: Vec<Tile>| row_view(r@))
}

impl View for Screen {
    type V = Grid;

    open spec fn view(&self) -> Grid {
        Grid {
            left: self.left as int,
            top: self.top as int,
            width: self.width as int,
            height: self.height as int,
            rows: rows_view(self.rows@),
        }
    }
}

/// The number of columns a text takes on a terminal.
pub uninterp spec fn display_width(s: Seq<char>) -> nat;

/// Whether a text is made of printable ASCII characters, the space among them.
pub open spec fn is_printable(s: Seq<char>) -> bool {
    forall|i: int| 0 <= i < s.len() ==> 32 <= (#[trigger] s[i]) as u32 && (s[i] as u32) < 127
}

/// `unicode_width::UnicodeWidthStr::width`, a function of the text alone. Of printable ASCII each
/// character takes one column.
#[verifier::external_body]
fn width_of(s: &str) -> (n: usize)
    ensures
        n == display_width(s@),
        is_printable(s@) ==> n == s@.len(),
{
    unicode_width::UnicodeWidthStr::width(s)
}

/// Whether a character is a letter or a digit, in any script.
pub uninterp spec fn alphanumeric(c: char) -> bool;

/// `char::is_alphanumeric` of the standard library, a function of the character alone. Of ASCII
/// characters exactly the letters and digits are.
#[verifier::external_body]
fn is_alphanumeric(c: char) -> (yes: bool)
    ensures
        yes == alphanumeric(c),
        (c as u32) < 128 ==> yes == ('0' <= c <= '9' || 'a' <= c <= 'z' || 'A' <= c <= 'Z'),
{
    c.is_alphanumeric()
}

/// Whether a character can be part of a word: besides letters and digits those that paths,
/// identifiers and version numbers are made of.
pub open spec fn word_char(c: char) -> bool {
    alphanumeric(c) || c == '_' || c == '-' || c == '.' || c == '/' || c == '~' || c == '@'
}

/// Whether a symbol is part of a word.
pub open spec fn word_symbol(symbol: Seq<char>) -> bool {
    symbol.len() > 0 && forall|i: int| 0 <= i < symbol.len() ==> word_char(#[trigger] symbol[i])
}

/// The ASCII characters that can be part of a word.
pub open spec fn ascii_word_char(c: char) -> bool {
    '0' <= c <= '9' || 'a' <= c <= 'z' || 'A' <= c <= 'Z' || c == '_' || c == '-' || c == '.' || c
        == '/' || c == '~' || c == '@'
}

/// Whether `symbol` is part of a word for double-click selection.
pub fn is_word_symbol(symbol: &str) -> (yes: bool)
    ensures
        yes == word_symbol(symbol@),
        (forall|i: int| 0 <= i < symbol@.len() ==> (#[trigger] symbol@[i] as u32) < 128) ==> yes
            == (symbol@.len() > 0 && forall|i: int|
            0 <= i < symbol@.len() ==> ascii_word_char(#[trigger] symbol@[i])),
{
    let chars = text::chars_of(symbol);
    let mut i: usize = 0;
    while i < chars.len()
        invariant
            i <= chars@.len(),
            chars@ == symbol@,
            forall|k: int| 0 <= k < i ==> word_char(#[trigger] chars@[k]),
            forall|k: int|
                0 <= k < i && (#[trigger] chars@[k] as u32) < 128 ==> ascii_word_char(chars@[k]),
        decreases chars.len() - i,
    {
        let c: char = chars[i];
        if !(is_alphanumeric(c) || c == '_' || c == '-' || c == '.' || c == '/' || c == '~' || c
            == '@') {
            assert(!word_char(symbol@[i as int]));
            return false;
        }
        i = i + 1;
    }
    chars.len() > 0
}

impl Grid {
    /// Every row has a cell for every column, and every cell a place on a screen.
    pub open spec fn wf(self) -> bool {
        &&& self.left >= 0 && self.width >= 0 && self.left + self.width <= u16::MAX
        &&& self.top >= 0 && self.height >= 0 && self.top + self.height <= u16::MAX
        &&& self.rows.len() == self.height
        &&& forall|r: int| 0 <= r < self.rows.len() ==> (#[trigger] self.rows[r]).len() == self.width
    }

    /// Whether a cell is on the screen.
    pub open spec fn holds(self, col: int, row: int) -> bool {
        self.left <= col < self.left + self.width && self.top <= row < self.top + self.height
    }

    /// What a cell on the screen shows.
    pub open spec fn at(self, col: int, row: int) -> Shown {
        self.rows[row - self.top][col - self.left]
    }

    /// Whether a cell is the hidden half of a wide character: the screen keeps the character in
    /// the first cell and a blank in the second, which the terminal never shows.
    pub open spec fn hidden(self, col: int, row: int) -> bool {
        col > self.left && self.holds(col - 1, row) && display_width(self.at(col - 1, row).symbol)
            > 1
    }

    /// What a cell adds to a text: its symbol, or nothing for a hidden half or a cell that is not
    /// on the screen.
    pub open spec fn piece(self, col: int, row: int) -> Seq<char> {
        if !self.hidden(col, row) && self.holds(col, row) {
            self.at(col, row).symbol
        } else {
            Seq::empty()
        }
    }

    /// The text of the columns `from..=to` of a row.
    pub open spec fn line(self, row: int, from: int, to: int) -> Seq<char>
        decreases to + 1 - from,
    {
        if to < from {
            Seq::empty()
        } else {
            self.line(row, from, to - 1) + self.piece(to, row)
        }
    }

    /// The lines of a selection's rows before `row`, without blanks at their ends.
    pub open spec fn lines(self, selection: Selection, row: int) -> Seq<Seq<char>>
        decreases row - self.top,
    {
        if row <= self.top {
            Seq::empty()
        } else {
            let rest = self.lines(selection, row - 1);
            match selection.columns_spec((row - 1) as u16, self.width as u16) {
                Some(c) => rest.push(text::trim_end_spec(self.line(row - 1, c.0, c.1))),
                None => rest,
            }
        }
    }

    /// The text under a selection: one line per screen row, trailing blanks trimmed.
    pub open spec fn text_of(self, selection: Selection) -> Seq<char> {
        text::joined_spec(self.lines(selection, self.top + self.height), "\n"@)
    }

    /// Whether every cell shows at most one printable ASCII character.
    pub open spec fn is_plain(self) -> bool {
        forall|col: int, row: int| #[trigger]
            self.holds(col, row) ==> self.at(col, row).symbol.len() <= 1 && is_printable(
                self.at(col, row).symbol,
            )
    }

    /// The symbols of the columns `from..=to` of a row, one after another.
    pub open spec fn plain_line(self, row: int, from: int, to: int) -> Seq<char>
        decreases to + 1 - from,
    {
        if to < from {
            Seq::empty()
        } else {
            self.plain_line(row, from, to - 1) + if self.holds(to, row) {
                self.at(to, row).symbol
            } else {
                Seq::empty()
            }
        }
    }

    /// The lines of a selection's rows before `row`, every cell taken as it stands.
    pub open spec fn plain_lines(self, selection: Selection, row: int) -> Seq<Seq<char>>
        decreases row - self.top,
    {
        if row <= self.top {
            Seq::empty()
        } else {
            let rest = self.plain_lines(selection, row - 1);
            match selection.columns_spec((row - 1) as u16, self.width as u16) {
                Some(c) => rest.push(text::trim_end_spec(self.plain_line(row - 1, c.0, c.1))),
                None => rest,
            }
        }
    }

    /// The text under a selection of a plain screen: every cell's symbol, row by row.
    pub open spec fn plain_text(self, selection: Selection) -> Seq<char> {
        text::joined_spec(self.plain_lines(selection, self.top + self.height), "\n"@)
    }

    /// Whether a cell of a plain screen belongs to a word.
    pub open spec fn plain_word_cell(self, col: int, row: int) -> bool {
        self.holds(col, row) && self.at(col, row).symbol.len() == 1 && ascii_word_char(
            self.at(col, row).symbol[0],
        )
    }

    pub open spec fn plain_word_start(self, col: int, row: int) -> int
        decreases col - self.left,
    {
        if col > self.left && self.plain_word_cell(col - 1, row) {
            self.plain_word_start(col - 1, row)
        } else {
            col
        }
    }

    pub open spec fn plain_word_end(self, col: int, row: int) -> int
        decreases self.left + self.width - col,
    {
        if col + 1 < self.left + self.width && self.plain_word_cell(col + 1, row) {
            self.plain_word_end(col + 1, row)
        } else {
            col
        }
    }

    /// The word under a cell of a plain screen.
    pub open spec fn plain_word(self, cell: Cell) -> Option<Selection> {
        let (col, row) = (cell.0 as int, cell.1 as int);
        if self.plain_word_cell(col, row) {
            Some(
                Selection {
                    anchor: (self.plain_word_start(col, row) as u16, cell.1),
                    head: (self.plain_word_end(col, row) as u16, cell.1),
                    dragging: false,
                },
            )
        } else {
            None
        }
    }

    /// The screen with the cells of a selection in reverse video.
    pub open spec fn highlighted(self, selection: Selection) -> Grid {
        Grid {
            rows: Seq::new(
                self.rows.len(),
                |r: int|
                    Seq::new(
                        self.rows[r].len(),
                        |c: int|
                            Shown {
                                symbol: self.rows[r][c].symbol,
                                reversed: self.rows[r][c].reversed || self.paints(
                                    selection,
                                    self.left + c,
                                    self.top + r,
                                ),
                            },
                    ),
            ),
            ..self
        }
    }

    /// Whether a selection puts a cell in reverse video.
    pub open spec fn paints(self, selection: Selection, col: int, row: int) -> bool {
        selection.columns_spec(row as u16, self.width as u16) matches Some(c) && c.0 <= col <= c.1
    }

    /// Whether a cell belongs to a word; the hidden half of a wide character does iff the
    /// character does.
    pub open spec fn word_cell(self, col: int, row: int) -> bool {
        let c = if self.hidden(col, row) { col - 1 } else { col };
        self.holds(c, row) && word_symbol(self.at(c, row).symbol)
    }

    /// The first cell of the run of word cells that a cell belongs to.
    pub open spec fn word_start(self, col: int, row: int) -> int
        decreases col - self.left,
    {
        if col > self.left && self.word_cell(col - 1, row) {
            self.word_start(col - 1, row)
        } else {
            col
        }
    }

    /// The last cell of the run of word cells that a cell belongs to.
    pub open spec fn word_end(self, col: int, row: int) -> int
        decreases self.left + self.width - col,
    {
        if col + 1 < self.left + self.width && self.word_cell(col + 1, row) {
            self.word_end(col + 1, row)
        } else {
            col
        }
    }

    /// The word under a cell, as a finished selection.
    pub open spec fn word(self, cell: Cell) -> Option<Selection> {
        let (col, row) = (cell.0 as int, cell.1 as int);
        if self.holds(col, row) && self.word_cell(col, row) {
            Some(
                Selection {
                    anchor: (self.word_start(col, row) as u16, cell.1),
                    head: (self.word_end(col, row) as u16, cell.1),
                    dragging: false,
                },
            )
        } else {
            None
        }
    }
}

impl Screen {
    /// The right edge: the column behind the last.
    fn right(&self) -> (col: u16)
        requires
            self@.wf(),
        ensures
            col == self@.left + self@.width,
    {
        self.left + self.width
    }

    fn bottom(&self) -> (row: u16)
        requires
            self@.wf(),
        ensures
            row == self@.top + self@.height,
    {
        self.top + self.height
    }

    fn is_inside(&self, col: u16, row: u16) -> (yes: bool)
        requires
            self@.wf(),
        ensures
            yes == self@.holds(col as int, row as int),
    {
        self.left <= col && col < self.right() && self.top <= row && row < self.bottom()
    }

    fn symbol(&self, col: u16, row: u16) -> (s: &str)
        requires
            self@.wf(),
            self@.holds(col as int, row as int),
        ensures
            s@ == self@.at(col as int, row as int).symbol,
    {
        let r: usize = (row - self.top) as usize;
        let c: usize = (col - self.left) as usize;
        assert(self@.rows[r as int] == row_view(self.rows@[r as int]@));
        assert(self@.rows[r as int][c as int] == self.rows@[r as int]@[c as int]@);
        self.rows[r][c].symbol.as_str()
    }

    /// A copy of the screen.
    fn copied(&self) -> (copy: Screen)
        ensures
            copy@ == self@,
    {
        let mut rows: Vec<Vec<Tile>> = Vec::new();
        let ghost all = rows_view(self.rows@);
        assert(rows_view(rows@) =~= all.take(0));
        let mut r: usize = 0;
        while r < self.rows.len()
            invariant
                r <= self.rows@.len(),
                all == rows_view(self.rows@),
                rows_view(rows@) == all.take(r as int),
            decreases self.rows.len() - r,
        {
            let ghost before = rows_view(rows@);
            let source = &self.rows[r];
            let mut row: Vec<Tile> = Vec::new();
            assert(row_view(row@) =~= row_view(source@).take(0));
            let mut c: usize = 0;
            while c < source.len()
                invariant
                    c <= source@.len(),
                    row_view(row@) == row_view(source@).take(c as int),
                decreases source.len() - c,
            {
                let ghost held = row_view(row@);
                let tile = Tile { symbol: source[c].symbol.clone(), reversed: source[c].reversed };
                let ghost shown = tile@;
                row.push(tile);
                assert(row_view(row@) =~= held.push(shown));
                assert(row_view(source@)[c as int] == shown);
                c = c + 1;
                assert(row_view(source@).take(c as int) =~= row_view(source@).take(c - 1).push(
                    shown,
                ));
            }
            assert(row_view(source@).take(c as int) =~= row_view(source@));
            rows.push(row);
            assert(rows_view(rows@) =~= before.push(row_view(source@)));
            r = r + 1;
            assert(all.take(r as int) =~= all.take(r - 1).push(all[r - 1]));
        }
        assert(all.take(all.len() as int) =~= all);
        Screen { left: self.left, top: self.top, width: self.width, height: self.height, rows }
    }
}

/// Whether the cell at `(col, row)` is the hidden half of a wide character.
fn hidden_by_wide(screen: &Screen, col: u16, row: u16) -> (yes: bool)
    requires
        screen@.wf(),
    ensures
        yes == screen@.hidden(col as int, row as int),
        screen@.is_plain() ==> !yes,
{
    col > screen.left && screen.is_inside(col - 1, row) && width_of(screen.symbol(col - 1, row)) > 1
}

/// Paint the selection onto `screen` in reverse video, which reads against every theme and every
/// background.
pub fn highlight(screen: &mut Screen, selection: &Selection)
    requires
        old(screen)@.wf(),
    ensures
        final(screen)@ == old(screen)@.highlighted(*selection),
        final(screen)@.wf(),
{
    let ghost start = screen@;
    let left: u16 = screen.left;
    let top: u16 = screen.top;
    let width: u16 = screen.width;
    let height: u16 = screen.height;
    let mut rows: Vec<Vec<Tile>> = Vec::new();
    std::mem::swap(&mut rows, &mut screen.rows);
    let ghost given = rows@;
    let ghost target = start.highlighted(*selection).rows;
    let mut painted: Vec<Vec<Tile>> = Vec::new();
    assert(rows_view(painted@) =~= target.take(0));
    for row in it: rows
        invariant
            it.seq() == given,
            start.rows == rows_view(given),
            start.left == left,
            start.top == top,
            start.width == width,
            start.wf(),
            given.len() == height,
            top + height <= u16::MAX,
            left + width <= u16::MAX,
            start.height == height,
            target == start.highlighted(*selection).rows,
            rows_view(painted@) == target.take(it.index() as int),
    {
        let ghost r = it.index() as int;
        let ghost before = rows_view(painted@);
        let ghost source = row@;
        assert(start.rows[r] == row_view(source));
        assert(rows_view(painted@).len() == r);
        let number: u16 = top + painted.len() as u16;
        assert(number == start.top + r);
        let columns = selection.columns(number, width);
        let mut line: Vec<Tile> = Vec::new();
        assert(row_view(line@) =~= target[r].take(0));
        for tile in jt: row
            invariant
                jt.seq() == source,
                source.len() == width,
                start.left == left,
                start.top == top,
                start.width == width,
                0 <= r < start.rows.len(),
                start.rows[r] == row_view(source),
                left + width <= u16::MAX,
                number == start.top + r,
                match columns {
                    Some(c) => selection.columns_spec(number, width) == Some(
                        (c.0 as int, c.1 as int),
                    ),
                    None => selection.columns_spec(number, width) is None,
                },
                target == start.highlighted(*selection).rows,
                row_view(line@) == target[r].take(jt.index() as int),
        {
            let ghost c = jt.index() as int;
            let ghost held = row_view(line@);
            assert(row_view(line@).len() == c);
            let col: u16 = left + line.len() as u16;
            let inside = match columns {
                Some((from, to)) => from <= col && col <= to,
                None => false,
            };
            let Tile { symbol, reversed } = tile;
            let marked = Tile { symbol, reversed: reversed || inside };
            let ghost shown = marked@;
            line.push(marked);
            proof {
                assert(start.rows[r][c] == source[c]@);
                assert(start.paints(*selection, start.left + c, start.top + r) == inside);
                assert(target[r][c] == shown);
                assert(row_view(line@) =~= held.push(shown));
                assert(target[r].take(c + 1) =~= target[r].take(c).push(shown));
            }
        }
        assert(target[r].take(target[r].len() as int) =~= target[r]);
        painted.push(line);
        assert(rows_view(painted@) =~= before.push(target[r]));
        assert(target.take(r + 1) =~= target.take(r).push(target[r]));
    }
    assert(target.take(target.len() as int) =~= target);
    screen.rows = painted;
    assert(screen@ =~= start.highlighted(*selection));
}

/// The text under the selection: one line per screen row, trailing blanks trimmed, rows joined
/// with `\n`. A wide character takes two cells but contributes its symbol once.
pub fn text(screen: &Screen, selection: &Selection) -> (copied: String)
    requires
        screen@.wf(),
    ensures
        copied@ == screen@.text_of(*selection),
        screen@.is_plain() ==> copied@ == screen@.plain_text(*selection),
{
    let mut lines: Vec<String> = Vec::new();
    let ghost grid = screen@;
    let bottom: u16 = screen.bottom();
    let mut row: u16 = screen.top;
    assert(text::views(lines@) =~= grid.lines(*selection, row as int));
    assert(text::views(lines@) =~= grid.plain_lines(*selection, row as int));
    while row < bottom
        invariant
            grid == screen@,
            grid.wf(),
            bottom == grid.top + grid.height,
            grid.top <= row <= bottom,
            text::views(lines@) == grid.lines(*selection, row as int),
            grid.is_plain() ==> text::views(lines@) == grid.plain_lines(*selection, row as int),
        decreases bottom - row,
    {
        let ghost before = text::views(lines@);
        if let Some((from, to)) = selection.columns(row, screen.width) {
            let mut line = String::new();
            let mut next: u32 = from as u32;
            assert(line@ =~= grid.line(row as int, from as int, next - 1));
            assert(line@ =~= grid.plain_line(row as int, from as int, next - 1));
            while next <= to as u32
                invariant
                    grid == screen@,
                    grid.wf(),
                    from <= next <= to + 1,
                    line@ == grid.line(row as int, from as int, next - 1),
                    grid.is_plain() ==> line@ == grid.plain_line(
                        row as int,
                        from as int,
                        next - 1,
                    ),
                decreases to + 1 - next,
            {
                let col: u16 = next as u16;
                let ghost before = line@;
                if !hidden_by_wide(screen, col, row) && screen.is_inside(col, row) {
                    line.append(screen.symbol(col, row));
                }
                assert(line@ =~= grid.line(row as int, from as int, next - 1) + grid.piece(
                    col as int,
                    row as int,
                ));
                assert(grid.is_plain() ==> line@ =~= before + if grid.holds(col as int, row as int) {
                    grid.at(col as int, row as int).symbol
                } else {
                    Seq::empty()
                });
                next = next + 1;
            }
            let trimmed = text::trim_end(line.as_str());
            let ghost kept = trimmed@;
            lines.push(trimmed);
            assert(text::views(lines@) =~= before.push(kept));
        }
        row = row + 1;
    }
    text::join(&lines, "\n")
}

fn is_word(screen: &Screen, col: u16, row: u16) -> (yes: bool)
    requires
        screen@.wf(),
    ensures
        yes == screen@.word_cell(col as int, row as int),
        screen@.is_plain() ==> yes == screen@.plain_word_cell(col as int, row as int),
{
    let c: u16 = if hidden_by_wide(screen, col, row) {
        col - 1
    } else {
        col
    };
    screen.is_inside(c, row) && is_word_symbol(screen.symbol(c, row))
}

/// The word under `(column, row)` as a finished selection, or `None` when the cell is blank or
/// outside the screen.
pub fn word_at(screen: &Screen, cell: Cell) -> (word: Option<Selection>)
    requires
        screen@.wf(),
    ensures
        word == screen@.word(cell),
        screen@.is_plain() ==> word == screen@.plain_word(cell),
{
    let (col, row) = cell;
    if !screen.is_inside(col, row) || !is_word(screen, col, row) {
        return None;
    }
    let ghost grid = screen@;
    let mut first: u16 = col;
    while first > screen.left && is_word(screen, first - 1, row)
        invariant
            grid == screen@,
            grid.wf(),
            grid.left <= first <= col,
            grid.word_start(first as int, row as int) == grid.word_start(col as int, row as int),
            grid.is_plain() ==> grid.plain_word_start(first as int, row as int)
                == grid.plain_word_start(col as int, row as int),
        decreases first,
    {
        first = first - 1;
    }
    let right: u16 = screen.right();
    let mut last: u16 = col;
    while last < right - 1 && is_word(screen, last + 1, row)
        invariant
            grid == screen@,
            grid.wf(),
            right == grid.left + grid.width,
            col <= last < right,
            grid.word_end(last as int, row as int) == grid.word_end(col as int, row as int),
            grid.is_plain() ==> grid.plain_word_end(last as int, row as int)
                == grid.plain_word_end(col as int, row as int),
        decreases right - last,
    {
        last = last + 1;
    }
    Some(Selection::span((first, row), (last, row)))
}

/// A word is a whole run of word cells on one row, the clicked one among them.
pub proof fn law_a_word_is_a_whole_run(grid: Grid, cell: Cell)
    requires
        grid.wf(),
        grid.word(cell) is Some,
    ensures
        ({
            let word = grid.word(cell).unwrap();
            let row = cell.1 as int;
            &&& word.anchor.1 == cell.1 && word.head.1 == cell.1
            &&& grid.left <= word.anchor.0 <= cell.0 <= word.head.0 < grid.left + grid.width
            &&& forall|c: int|
                word.anchor.0 <= c <= word.head.0 ==> #[trigger] grid.word_cell(c, row)
            &&& word.anchor.0 > grid.left ==> !grid.word_cell(word.anchor.0 - 1, row)
            &&& word.head.0 + 1 < grid.left + grid.width ==> !grid.word_cell(
                word.head.0 + 1,
                row,
            )
        }),
{
    lemma_word_start(grid, cell.0 as int, cell.1 as int);
    lemma_word_end(grid, cell.0 as int, cell.1 as int);
}

proof fn lemma_word_start(grid: Grid, col: int, row: int)
    requires
        grid.left <= col,
        grid.word_cell(col, row),
    ensures
        grid.left <= grid.word_start(col, row) <= col,
        forall|c: int|
            grid.word_start(col, row) <= c <= col ==> #[trigger] grid.word_cell(c, row),
        grid.word_start(col, row) > grid.left ==> !grid.word_cell(
            grid.word_start(col, row) - 1,
            row,
        ),
    decreases col - grid.left,
{
    if col > grid.left && grid.word_cell(col - 1, row) {
        lemma_word_start(grid, col - 1, row);
    }
}

proof fn lemma_word_end(grid: Grid, col: int, row: int)
    requires
        col < grid.left + grid.width,
        grid.word_cell(col, row),
    ensures
        col <= grid.word_end(col, row) < grid.left + grid.width,
        forall|c: int| col <= c <= grid.word_end(col, row) ==> #[trigger] grid.word_cell(c, row),
        grid.word_end(col, row) + 1 < grid.left + grid.width ==> !grid.word_cell(
            grid.word_end(col, row) + 1,
            row,
        ),
    decreases grid.left + grid.width - col,
{
    if col + 1 < grid.left + grid.width && grid.word_cell(col + 1, row) {
        lemma_word_end(grid, col + 1, row);
    }
}

/// The live selection, the frame it was made on, and the copy notice with the time it is shown
/// until.
#[derive(Debug)]
pub struct State {
    pub selection: Option<Selection>,
    /// The cells of the last frame drawn, read when the button comes up.
    pub frame: Option<Screen>,
    pub notice: Option<(String, u64)>,
}

#[verifier::ext_equal]
pub ghost struct Live {
    pub selection: Option<Selection>,
    pub frame: Option<Grid>,
    pub notice: Option<(Seq<char>, u64)>,
}

impl View for State {
    type V = Live;

    open spec fn view(&self) -> Live {
        Live {
            selection: self.selection,
            frame: match self.frame {
                Some(f) => Some(f@),
                None => None,
            },
            notice: match self.notice {
                Some(n) => Some((n.0@, n.1)),
                None => None,
            },
        }
    }
}

impl Live {
    /// The frame kept is a whole one.
    pub open spec fn wf(self) -> bool {
        self.frame matches Some(f) ==> f.wf()
    }
}

impl Default for State {
    fn default() -> (state: State)
        ensures
            state@ == (Live { selection: None, frame: None, notice: None }),
            state@.wf(),
    {
        State { selection: None, frame: None, notice: None }
    }
}

pub open spec fn copied_view(copied: Option<String>) -> Option<Seq<char>> {
    match copied {
        Some(s) => Some(s@),
        None => None,
    }
}

/// Called with every finished frame: keeps its cells for [`release`] and paints the current
/// selection over it.
pub fn finish_frame(state: &mut State, screen: &mut Screen)
    requires
        old(screen)@.wf(),
    ensures
        final(state)@ == (Live { frame: Some(old(screen)@), ..old(state)@ }),
        final(state)@.wf(),
        final(screen)@ == match old(state)@.selection {
            Some(selection) => old(screen)@.highlighted(selection),
            None => old(screen)@,
        },
{
    let copy = screen.copied();
    state.frame = Some(copy);
    if let Some(selection) = state.selection {
        highlight(screen, &selection);
    }
}

/// The left button went down on `cell`: any earlier selection is dropped and a new one starts
/// here. Returns whether the screen changed.
pub fn press(state: &mut State, cell: Cell) -> (changed: bool)
    ensures
        changed == (old(state)@.selection is Some),
        final(state)@ == (Live {
            selection: Some(Selection { anchor: cell, head: cell, dragging: true }),
            notice: None,
            ..old(state)@
        }),
{
    let had_selection = state.selection.is_some();
    state.selection = Some(Selection::begin(cell));
    state.notice = None;
    had_selection
}

/// The pointer moved to `cell` with the button down. Returns whether the selection changed.
pub fn drag(state: &mut State, cell: Cell) -> (changed: bool)
    ensures
        changed == (old(state)@.selection matches Some(s) && s.dragging && s.head != cell),
        final(state)@ == if changed {
            Live {
                selection: Some(
                    Selection { head: cell, ..old(state)@.selection.unwrap() },
                ),
                ..old(state)@
            }
        } else {
            old(state)@
        },
{
    if let Some(selection) = state.selection {
        if selection.is_dragging() && !(selection.head.0 == cell.0 && selection.head.1 == cell.1) {
            let mut moved = selection;
            moved.extend(cell);
            state.selection = Some(moved);
            return true;
        }
    }
    false
}

/// The left button came up. A drag over at least two cells yields the selected text, which stays
/// highlighted; a plain click yields nothing and clears the highlight. Only a selection still
/// being dragged is finished here, so the release that ends a double-click leaves its word
/// selection alone.
pub fn release(state: &mut State) -> (copied: Option<String>)
    requires
        old(state)@.wf(),
    ensures
        final(state)@ == match old(state)@.selection {
            Some(s) => if !s.dragging {
                old(state)@
            } else if s.anchor == s.head {
                Live { selection: None, ..old(state)@ }
            } else {
                Live {
                    selection: Some(Selection { dragging: false, ..s }),
                    ..old(state)@
                }
            },
            None => old(state)@,
        },
        copied_view(copied) == match (old(state)@.selection, old(state)@.frame) {
            (Some(s), Some(frame)) => if s.dragging && s.anchor != s.head {
                Some(frame.text_of(Selection { dragging: false, ..s }))
            } else {
                None
            },
            _ => None,
        },
        copied matches Some(c) ==> old(state)@.frame->0.is_plain() ==> c@
            == old(state)@.frame->0.plain_text(
            Selection { dragging: false, ..old(state)@.selection->0 },
        ),
{
    let selection = match state.selection {
        Some(selection) => selection,
        None => return None,
    };
    if !selection.is_dragging() {
        return None;
    }
    let mut finished = selection;
    finished.finish();
    if finished.is_empty() {
        state.selection = None;
        return None;
    }
    state.selection = Some(finished);
    match &state.frame {
        Some(frame) => Some(text(frame, &finished)),
        None => None,
    }
}

/// Select the word under `cell` on the last frame drawn (a double-click) and return its text;
/// `None` when there is no word there.
pub fn select_word(state: &mut State, cell: Cell) -> (copied: Option<String>)
    requires
        old(state)@.wf(),
    ensures
        match old(state)@.frame {
            Some(frame) => match frame.word(cell) {
                Some(word) => copied_view(copied) == Some(frame.text_of(word)) && final(state)@
                    == (Live { selection: Some(word), ..old(state)@ }),
                None => copied is None && final(state)@ == old(state)@,
            },
            None => copied is None && final(state)@ == old(state)@,
        },
        old(state)@.frame matches Some(frame) ==> frame.is_plain() ==> copied_view(copied)
            == match frame.plain_word(cell) {
            Some(word) => Some(frame.plain_text(word)),
            None => None,
        },
{
    let found = match &state.frame {
        Some(frame) => match word_at(frame, cell) {
            Some(selection) => Some((selection, text(frame, &selection))),
            None => None,
        },
        None => None,
    };
    match found {
        Some((selection, word)) => {
            state.selection = Some(selection);
            Some(word)
        },
        None => None,
    }
}

/// Drop the selection and its highlight. Returns whether there was one.
pub fn clear(state: &mut State) -> (had: bool)
    ensures
        had == (old(state)@.selection is Some),
        final(state)@ == (Live { selection: None, ..old(state)@ }),
{
    let had = state.selection.is_some();
    state.selection = None;
    had
}

/// Whether a selection is on screen.
pub fn is_active(state: &State) -> (yes: bool)
    ensures
        yes == (state@.selection is Some),
{
    state.selection.is_some()
}

/// Put `message` on the status line for [`NOTICE_DURATION`].
pub fn set_notice(state: &mut State, message: String, now: u64)
    requires
        now + NOTICE_DURATION <= u64::MAX,
    ensures
        final(state)@ == (Live {
            notice: Some((message@, (now + NOTICE_DURATION) as u64)),
            ..old(state)@
        }),
{
    state.notice = Some((message, now + NOTICE_DURATION));
}

/// A notice once it was looked at: as it is while it lasts, gone when it has run out.
pub open spec fn lasting(notice: Option<(Seq<char>, u64)>, now: u64) -> Option<(Seq<char>, u64)> {
    match notice {
        Some(n) => if now < n.1 { Some(n) } else { None },
        None => None,
    }
}

/// What a look at a notice shows.
pub open spec fn shown(notice: Option<(Seq<char>, u64)>, now: u64) -> Option<Seq<char>> {
    match lasting(notice, now) {
        Some(n) => Some(n.0),
        None => None,
    }
}

/// The status-line notice, while it lasts; one that has run out is dropped.
pub fn notice(state: &mut State, now: u64) -> (message: Option<String>)
    ensures
        copied_view(message) == shown(old(state)@.notice, now),
        final(state)@ == (Live { notice: lasting(old(state)@.notice, now), ..old(state)@ }),
{
    let shown = match &state.notice {
        Some(held) => if now < held.1 {
            Some(held.0.clone())
        } else {
            None
        },
        None => None,
    };
    if shown.is_none() {
        state.notice = None;
    }
    shown
}

/// How long the notice has left, for event loops that poll with a timeout and need to redraw when
/// it expires.
pub fn notice_remaining(state: &State, now: u64) -> (left: Option<u64>)
    ensures
        left == match state@.notice {
            Some(n) => Some(if n.1 > now { (n.1 - now) as u64 } else { 0 }),
            None => None,
        },
{
    match &state.notice {
        Some(held) => Some(held.1.saturating_sub(now)),
        None => None,
    }
}

/// A notice after looks at these times.
pub open spec fn after_looks(notice: Option<(Seq<char>, u64)>, looks: Seq<u64>) -> Option<
    (Seq<char>, u64),
>
    decreases looks.len(),
{
    if looks.len() == 0 {
        notice
    } else {
        lasting(after_looks(notice, looks.drop_last()), looks.last())
    }
}

/// A notice stays for three seconds, however often it is looked at as time goes on: before they
/// are over every look shows it, and from then on none does. One that is gone, as after a press,
/// stays gone.
pub proof fn law_a_notice_stays_for_its_time(
    message: Seq<char>,
    since: u64,
    looks: Seq<u64>,
    now: u64,
)
    requires
        since + NOTICE_DURATION <= u64::MAX,
        forall|i: int| 0 <= i < looks.len() ==> #[trigger] looks[i] <= now,
    ensures
        shown(
            after_looks(Some((message, (since + NOTICE_DURATION) as u64)), looks),
            now,
        ) == if now < since + NOTICE_DURATION {
            Some(message)
        } else {
            None
        },
        shown(after_looks(None, looks), now) is None,
{
    lemma_looks(message, (since + NOTICE_DURATION) as u64, looks, now);
}

proof fn lemma_looks(message: Seq<char>, until: u64, looks: Seq<u64>, now: u64)
    requires
        forall|i: int| 0 <= i < looks.len() ==> #[trigger] looks[i] <= now,
    ensures
        now < until ==> after_looks(Some((message, until)), looks) == Some((message, until)),
        after_looks(Some((message, until)), looks) is None || after_looks(
            Some((message, until)),
            looks,
        ) == Some((message, until)),
        after_looks(None, looks) is None,
    decreases looks.len(),
{
    if looks.len() > 0 {
        let rest = looks.drop_last();
        assert(forall|i: int| 0 <= i < rest.len() ==> #[trigger] rest[i] == looks[i]);
        assert(looks.last() == looks[looks.len() - 1]);
        lemma_looks(message, until, rest, now);
    }
}

/// Painting changes no symbol, so the text under a selection is the same before and after.
pub proof fn law_highlighting_changes_no_text(grid: Grid, painted: Selection, selection: Selection)
    requires
        grid.wf(),
    ensures
        grid.highlighted(painted).text_of(selection) == grid.text_of(selection),
{
    lemma_lines(grid, painted, selection, grid.top + grid.height);
}

proof fn lemma_line(grid: Grid, painted: Selection, row: int, from: int, to: int)
    requires
        grid.wf(),
    ensures
        grid.highlighted(painted).line(row, from, to) == grid.line(row, from, to),
    decreases to + 1 - from,
{
    if to >= from {
        lemma_line(grid, painted, row, from, to - 1);
        assert(grid.highlighted(painted).piece(to, row) == grid.piece(to, row));
    }
}

proof fn lemma_lines(grid: Grid, painted: Selection, selection: Selection, row: int)
    requires
        grid.wf(),
        row <= grid.top + grid.height,
    ensures
        grid.highlighted(painted).lines(selection, row) == grid.lines(selection, row),
    decreases row - grid.top,
{
    if row > grid.top {
        lemma_lines(grid, painted, selection, row - 1);
        if let Some(c) = selection.columns_spec((row - 1) as u16, grid.width as u16) {
            lemma_line(grid, painted, row - 1, c.0, c.1);
        }
    }
}

/// Where a cell stands in reading order: rows count before columns.
pub open spec fn reading_place(cell: Cell) -> int {
    0x1_0000 * cell.1 + cell.0
}

/// A selection covers the cells that are read from the earlier of its ends to the later, both
/// among them; and the columns of a row lie on the screen.
pub proof fn law_a_selection_reads_on(selection: Selection, cell: Cell, row: u16, width: u16)
    ensures
        ({
            let (a, h) = (reading_place(selection.anchor), reading_place(selection.head));
            let place = reading_place(cell);
            selection.covers(cell) <==> (a <= place <= h || h <= place <= a)
        }),
        reading_place(selection.ends().0) <= reading_place(selection.ends().1),
        selection.ends() == (selection.anchor, selection.head) || selection.ends() == (
            selection.head,
            selection.anchor,
        ),
        selection.columns_spec(row, width) matches Some((from, to)) ==> 0 <= from <= to < width,
{
}

/// A line of text is made of its cells in turn: each one's symbol, but nothing for the hidden half
/// of a wide character.
pub proof fn law_a_line_is_its_cells_in_turn(grid: Grid, row: int, from: int, mid: int, to: int)
    requires
        from <= mid <= to,
    ensures
        grid.line(row, from, to) == grid.line(row, from, mid - 1) + grid.line(row, mid, to),
        grid.holds(mid, row) && (mid == grid.left || display_width(grid.at(mid - 1, row).symbol)
            <= 1) ==> grid.line(row, mid, mid) == grid.at(mid, row).symbol,
        grid.holds(mid, row) && mid > grid.left && display_width(grid.at(mid - 1, row).symbol) > 1
            ==> grid.line(row, mid, mid) == Seq::<char>::empty(),
        !grid.holds(mid, row) ==> grid.line(row, mid, mid) == Seq::<char>::empty(),
    decreases to - mid,
{
    assert(grid.line(row, mid, mid - 1) =~= Seq::empty());
    assert(grid.line(row, mid, mid) =~= grid.piece(mid, row));
    if mid < to {
        law_a_line_is_its_cells_in_turn(grid, row, from, mid, to - 1);
        assert(grid.line(row, from, to) =~= grid.line(row, from, mid - 1) + grid.line(row, mid, to));
    } else {
        assert(grid.line(row, from, to) =~= grid.line(row, from, mid - 1) + grid.line(row, mid, to));
    }
}

/// Each row of a selection is a line of what is copied, from the first row on: its first one from
/// where the selection begins, its last one up to where it ends, the others whole, and none with
/// blanks at its end.
pub proof fn law_each_row_is_a_line(grid: Grid, selection: Selection, row: int)
    requires
        grid.wf(),
        grid.width > 0,
        grid.top <= selection.ends().0.1,
        selection.ends().0.0 < grid.width,
        selection.ends().0.1 <= row <= selection.ends().1.1,
        row < grid.top + grid.height,
        selection.ends().0.1 == selection.ends().1.1 ==> selection.ends().0.0
            <= selection.ends().1.0,
    ensures
        ({
            let (first, last) = selection.ends();
            let from = if row == first.1 { first.0 as int } else { 0 };
            let to = if row == last.1 && last.0 < grid.width {
                last.0 as int
            } else {
                grid.width - 1
            };
            let lines = grid.lines(selection, row + 1);
            &&& lines.len() == row + 1 - first.1
            &&& lines[row - first.1] == text::trim_end_spec(grid.line(row, from, to))
            &&& row > first.1 ==> lines.drop_last() == grid.lines(selection, row)
        }),
    decreases row,
{
    let (first, last) = selection.ends();
    if row > first.1 {
        law_each_row_is_a_line(grid, selection, row - 1);
    } else {
        lemma_no_lines_before(grid, selection, row);
    }
    let from = if row == first.1 { first.0 as int } else { 0 };
    let to = if row == last.1 && last.0 < grid.width { last.0 as int } else { grid.width - 1 };
    assert((row as u16) as int == row);
    assert((grid.width as u16) as int == grid.width);
    assert(selection.columns_spec(row as u16, grid.width as u16) == Some((from, to)));
    let rest = grid.lines(selection, row);
    assert(grid.lines(selection, row + 1) == rest.push(
        text::trim_end_spec(grid.line(row, from, to)),
    ));
    assert(grid.lines(selection, row + 1).drop_last() =~= rest);
}

proof fn lemma_no_lines_before(grid: Grid, selection: Selection, row: int)
    requires
        grid.wf(),
        row <= selection.ends().0.1,
    ensures
        grid.lines(selection, row) == Seq::<Seq<char>>::empty(),
    decreases row - grid.top,
{
    if row > grid.top {
        lemma_no_lines_before(grid, selection, row - 1);
        assert(((row - 1) as u16) as int == row - 1);
    }
}

proof fn lemma_no_lines_behind(grid: Grid, selection: Selection, row: int, to: int)
    requires
        grid.wf(),
        grid.top <= row <= to <= grid.top + grid.height,
        row > selection.ends().1.1,
    ensures
        grid.lines(selection, to) == grid.lines(selection, row),
    decreases to - row,
{
    if row < to {
        lemma_no_lines_behind(grid, selection, row, to - 1);
        assert(((to - 1) as u16) as int == to - 1);
    }
}

/// What is copied from one row is its line; what is copied from two is the one, a line break and
/// the other.
pub proof fn law_rows_are_copied_with_a_break_between(grid: Grid, selection: Selection)
    requires
        grid.wf(),
        grid.width > 0,
        grid.top <= selection.ends().0.1,
        selection.ends().1.1 < grid.top + grid.height,
        selection.ends().0.0 < grid.width,
        selection.ends().1.0 < grid.width,
    ensures
        ({
            let (first, last) = selection.ends();
            &&& first.1 == last.1 ==> grid.text_of(selection) == text::trim_end_spec(
                grid.line(first.1 as int, first.0 as int, last.0 as int),
            )
            &&& first.1 + 1 == last.1 ==> grid.text_of(selection) == text::trim_end_spec(
                grid.line(first.1 as int, first.0 as int, grid.width - 1),
            ) + seq!['\n'] + text::trim_end_spec(grid.line(last.1 as int, 0, last.0 as int))
        }),
{
    let (first, last) = selection.ends();
    let bottom = grid.top + grid.height;
    lemma_no_lines_behind(grid, selection, last.1 + 1, bottom);
    reveal_strlit("\n");
    assert("\n"@ =~= seq!['\n']);
    if first.1 == last.1 {
        law_each_row_is_a_line(grid, selection, first.1 as int);
        let lines = grid.lines(selection, bottom);
        assert(lines =~= Seq::empty().push(lines[0]));
        text::law_joined_texts_stand_in_turn(Seq::empty(), lines[0], "\n"@);
    } else if first.1 + 1 == last.1 {
        law_each_row_is_a_line(grid, selection, first.1 as int);
        law_each_row_is_a_line(grid, selection, last.1 as int);
        let lines = grid.lines(selection, bottom);
        let one = grid.lines(selection, last.1 as int);
        assert(one =~= Seq::empty().push(one[0]));
        assert(lines =~= one.push(lines[1]));
        text::law_joined_texts_stand_in_turn(Seq::empty(), one[0], "\n"@);
        text::law_joined_texts_stand_in_turn(one, lines[1], "\n"@);
    }
}

/// Painting puts the covered cells in reverse video and leaves the others, and every symbol, as
/// they were.
pub proof fn law_the_covered_cells_are_painted(grid: Grid, selection: Selection, col: u16, row: u16)
    requires
        grid.wf(),
        grid.holds(col as int, row as int),
        col < grid.width,
    ensures
        ({
            let (was, now) = (
                grid.at(col as int, row as int),
                grid.highlighted(selection).at(col as int, row as int),
            );
            &&& now.symbol == was.symbol
            &&& now.reversed == (was.reversed || selection.covers((col, row)))
        }),
{
    law_columns_are_the_covered_cells(selection, row, grid.width as u16, col);
    assert((grid.width as u16) as int == grid.width);
}

/// A word is made of letters, digits and the six marks of paths and versions; a cell is part of one
/// where it shows such characters only, and one at least.
pub proof fn law_a_word_is_made_of_word_characters(c: char, grid: Grid, col: int, row: int)
    ensures
        word_char(c) <==> alphanumeric(c) || seq!['_', '-', '.', '/', '~', '@'].contains(c),
        word_symbol(seq![c]) <==> word_char(c),
        !word_symbol(Seq::empty()),
        grid.holds(col, row) && (col == grid.left || display_width(grid.at(col - 1, row).symbol)
            <= 1) ==> grid.word_cell(col, row) == word_symbol(grid.at(col, row).symbol),
        grid.holds(col, row) && col > grid.left && display_width(grid.at(col - 1, row).symbol) > 1
            ==> grid.word_cell(col, row) == word_symbol(grid.at(col - 1, row).symbol),
        !grid.holds(col, row) && !grid.holds(col - 1, row) ==> !grid.word_cell(col, row),
{
    let marks = seq!['_', '-', '.', '/', '~', '@'];
    assert(marks[0] == '_' && marks[1] == '-' && marks[2] == '.' && marks[3] == '/' && marks[4]
        == '~' && marks[5] == '@');
    if word_symbol(seq![c]) {
        assert(word_char(seq![c][0]));
    }
}

/// A notice is shown until its time, and not from then on; it is given three seconds.
pub proof fn law_a_notice_runs_out_at_its_time(message: Seq<char>, until: u64, now: u64)
    ensures
        now < until ==> shown(Some((message, until)), now) == Some(message) && lasting(
            Some((message, until)),
            now,
        ) == Some((message, until)),
        now >= until ==> shown(Some((message, until)), now) is None && lasting(
            Some((message, until)),
            now,
        ) is None,
        NOTICE_DURATION == 3 * 1_000_000_000,
{
}

} // verus!
