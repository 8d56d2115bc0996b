//! The session picker: every stored session as one row of a table, most recently updated first,
//! with one row highlighted and a last row that starts a fresh session instead.

use vstd::prelude::*;
use vstd::string::*;
use crate::text;

verus! {

/// What a stored session recorded about itself.
#[derive(Clone, Debug, PartialEq, Eq)]
pub struct SessionMetadata {
    /// Empty when unknown.
    pub workspace: String,
    /// Empty when unknown.
    pub branch: String,
    /// Seconds since the epoch.
    pub last_updated_at: u64,
    /// `last_updated_at` as `YYYY-MM-DD HH:MM`.
    pub date: String,
}

#[verifier::ext_equal]
pub ghost struct Metadata {
    pub workspace: Seq<char>,
    pub branch: Seq<char>,
    pub last_updated_at: u64,
    pub date: Seq<char>,
}

impl View for SessionMetadata {
    type V = Metadata;

    open spec fn view(&self) -> Metadata {
        Metadata {
            workspace: self.workspace@,
            branch: self.branch@,
            last_updated_at: self.last_updated_at,
            date: self.date@,
        }
    }
}

pub open spec fn metadata_view(meta: Option<SessionMetadata>) -> Option<Metadata> {
    match meta {
        Some(m) => Some(m@),
        None => None,
    }
}

/// One row of the list, already rendered to the strings the table shows.
#[derive(Clone, Debug, PartialEq, Eq)]
pub struct PickerEntry {
    pub uuid: String,
    /// The workspace the session was started in, or `-` when unknown.
    pub workspace: String,
    pub branch: String,
    /// The last-updated timestamp as `YYYY-MM-DD HH:MM`, or `-`.
    pub date: String,
}

#[verifier::ext_equal]
pub ghost struct Entry {
    pub uuid: Seq<char>,
    pub workspace: Seq<char>,
    pub branch: Seq<char>,
    pub date: Seq<char>,
}

impl View for PickerEntry {
    type V = Entry;

    open spec fn view(&self) -> Entry {
        Entry {
            uuid: self.uuid@,
            workspace: self.workspace@,
            branch: self.branch@,
            date: self.date@,
        }
    }
}

pub open spec fn entry_views(entries: Seq<PickerEntry>) -> Seq<Entry> {
    entries.map_values(|e: PickerEntry| e@)
}

/// A text, or a dash for an empty one.
pub open spec fn or_dash(s: Seq<char>) -> Seq<char> {
    if s.len() == 0 { "-"@ } else { s }
}

fn text_or_dash(s: &String) -> (t: String)
    ensures
        t@ == or_dash(s@),
{
    let chars = text::chars_of(s.as_str());
    if chars.len() == 0 {
        "-".to_string()
    } else {
        s.clone()
    }
}

/// The row a stored session is shown as.
pub open spec fn entry_of(uuid: Seq<char>, meta: Option<Metadata>) -> Entry {
    match meta {
        Some(m) => Entry {
            uuid,
            workspace: or_dash(m.workspace),
            branch: or_dash(m.branch),
            date: m.date,
        },
        None => Entry { uuid, workspace: "-"@, branch: "-"@, date: "-"@ },
    }
}

impl PickerEntry {
    pub fn from_stored(uuid: String, meta: &Option<SessionMetadata>) -> (entry: PickerEntry)
        ensures
            entry@ == entry_of(uuid@, metadata_view(*meta)),
    {
        match meta {
            Some(m) => PickerEntry {
                uuid,
                workspace: text_or_dash(&m.workspace),
                branch: text_or_dash(&m.branch),
                date: m.date.clone(),
            },
            None => PickerEntry {
                uuid,
                workspace: "-".to_string(),
                branch: "-".to_string(),
                date: "-".to_string(),
            },
        }
    }

    /// The workspace to open the session in, when the metadata recorded one.
    pub fn workspace_path(&self) -> (path: Option<String>)
        ensures
            path_view(path) == self@.workspace_path(),
    {
        if text::same(self.workspace.as_str(), "-") {
            None
        } else {
            Some(self.workspace.clone())
        }
    }
}

pub open spec fn path_view(path: Option<String>) -> Option<Seq<char>> {
    match path {
        Some(p) => Some(p@),
        None => None,
    }
}

impl Entry {
    pub open spec fn workspace_path(self) -> Option<Seq<char>> {
        if self.workspace == "-"@ { None } else { Some(self.workspace) }
    }
}

/// What the user took from the list.
#[derive(Clone, Debug, PartialEq, Eq)]
pub enum PickerChoice {
    /// A stored session: its UUID and, when its metadata recorded one, the workspace it was
    /// started in.
    Resume { uuid: String, workspace: Option<String> },
    /// The `New` row: no resume at all, not even the automatic one for the workspace and branch —
    /// a fresh session.
    New,
}

pub ghost enum Choice {
    Resume { uuid: Seq<char>, workspace: Option<Seq<char>> },
    New,
}

impl View for PickerChoice {
    type V = Choice;

    open spec fn view(&self) -> Choice {
        match self {
            PickerChoice::Resume { uuid, workspace } => Choice::Resume {
                uuid: uuid@,
                workspace: path_view(*workspace),
            },
            PickerChoice::New => Choice::New,
        }
    }
}

/// A stored session: its UUID and what it recorded about itself, if anything.
#[derive(Clone, Debug, PartialEq, Eq)]
pub struct StoredSession {
    pub uuid: String,
    pub meta: Option<SessionMetadata>,
}

#[verifier::ext_equal]
pub ghost struct Stored {
    pub uuid: Seq<char>,
    pub meta: Option<Metadata>,
}

impl View for StoredSession {
    type V = Stored;

    open spec fn view(&self) -> Stored {
        Stored { uuid: self.uuid@, meta: metadata_view(self.meta) }
    }
}

impl Stored {
    /// When the session was last updated; one without metadata is older than every other.
    pub open spec fn updated(self) -> int {
        match self.meta {
            Some(m) => m.last_updated_at as int,
            None => -1,
        }
    }
}

pub open spec fn stored_views(sessions: Seq<StoredSession>) -> Seq<Stored> {
    sessions.map_values(|s: StoredSession| s@)
}

/// A session put into a list, after the last one that is no older.
pub open spec fn placed(sessions: Seq<Stored>, session: Stored) -> Seq<Stored>
    decreases sessions.len(),
{
    if sessions.len() == 0 || sessions.last().updated() >= session.updated() {
        sessions.push(session)
    } else {
        placed(sessions.drop_last(), session).push(sessions.last())
    }
}

/// The sessions, most recently updated first, those of one time in the order they came in.
pub open spec fn by_recency(sessions: Seq<Stored>) -> Seq<Stored>
    decreases sessions.len(),
{
    if sessions.len() == 0 {
        sessions
    } else {
        placed(by_recency(sessions.drop_last()), sessions.last())
    }
}

/// The rows of stored sessions.
pub open spec fn rows_of(sessions: Seq<Stored>) -> Seq<Entry> {
    sessions.map_values(|s: Stored| entry_of(s.uuid, s.meta))
}

fn updated_at(session: &StoredSession) -> (time: i128)
    ensures
        time == session@.updated(),
{
    match &session.meta {
        Some(m) => m.last_updated_at as i128,
        None => -1,
    }
}

/// Puts the sessions in order, most recently updated first.
fn sorted_by_recency(sessions: Vec<StoredSession>) -> (out: Vec<StoredSession>)
    ensures
        stored_views(out@) == by_recency(stored_views(sessions@)),
{
    let mut out: Vec<StoredSession> = Vec::new();
    let ghost all = stored_views(sessions@);
    assert(stored_views(out@) =~= by_recency(all.take(0)));
    for session in it: sessions
        invariant
            it.seq() == sessions@,
            all == stored_views(sessions@),
            stored_views(out@) == by_recency(all.take(it.index() as int)),
    {
        let ghost i = it.index() as int;
        let ghost whole = stored_views(out@);
        let ghost part = session@;
        let time: i128 = updated_at(&session);
        let mut at: usize = out.len();
        assert(whole.take(at as int) =~= whole);
        assert(placed(whole.take(at as int), part) + whole.skip(at as int) =~= placed(whole, part));
        while at > 0 && updated_at(&out[at - 1]) < time
            invariant
                at <= out@.len(),
                whole == stored_views(out@),
                time == part.updated(),
                placed(whole.take(at as int), part) + whole.skip(at as int) == placed(whole, part),
            decreases at,
        {
            assert(whole.take(at as int).drop_last() =~= whole.take(at - 1));
            assert(placed(whole.take(at - 1), part).push(whole[at - 1]) + whole.skip(at as int)
                =~= placed(whole.take(at - 1), part) + whole.skip(at - 1));
            at = at - 1;
        }
        out.insert(at, session);
        proof {
            assert(stored_views(out@) =~= whole.take(at as int).push(part) + whole.skip(at as int));
            assert(all[i] == part);
            assert(all.take(i + 1).drop_last() =~= all.take(i));
        }
    }
    assert(all.take(all.len() as int) =~= all);
    out
}

/// Every stored session as a picker row, most recently updated first. A session without metadata
/// has no timestamp to order by and sorts last.
pub fn picker_entries(sessions: Vec<StoredSession>) -> (entries: Vec<PickerEntry>)
    ensures
        entry_views(entries@) == rows_of(by_recency(stored_views(sessions@))),
{
    let sorted = sorted_by_recency(sessions);
    let ghost all = stored_views(sorted@);
    let mut out: Vec<PickerEntry> = Vec::new();
    assert(entry_views(out@) =~= rows_of(all.take(0)));
    for session in it: sorted
        invariant
            it.seq() == sorted@,
            all == stored_views(sorted@),
            entry_views(out@) == rows_of(all.take(it.index() as int)),
    {
        let ghost i = it.index() as int;
        let ghost held = session@;
        let ghost before = entry_views(out@);
        let entry = PickerEntry::from_stored(session.uuid, &session.meta);
        let ghost shown = entry@;
        out.push(entry);
        proof {
            assert(all[i] == held);
            assert(shown == entry_of(held.uuid, held.meta));
            assert(entry_views(out@) =~= before.push(shown));
            assert(rows_of(all.take(i + 1)) =~= rows_of(all.take(i)).push(shown));
        }
    }
    assert(all.take(all.len() as int) =~= all);
    out
}

/// The list and the row highlighted in it. The rows are the entries followed by one `New` row, so
/// `selected == entries.len()` is that row.
#[derive(Debug)]
pub struct PickerState {
    pub entries: Vec<PickerEntry>,
    pub selected: usize,
    /// Index of the first row on screen; kept so the highlight stays visible.
    pub scroll: usize,
}

/// One row back, where there is one.
pub open spec fn back_by(selected: usize, rows: usize) -> int {
    if selected < rows { 0 } else { selected - rows }
}

pub open spec fn at_least_one(rows: usize) -> usize {
    if rows == 0 { 1 } else { rows }
}

impl PickerState {
    /// The highlight is on a row, and every row has a number.
    pub open spec fn wf(self) -> bool {
        self.selected <= self.entries@.len() < usize::MAX
    }

    /// The highlighted row is one of `rows` rows from the scroll offset on.
    pub open spec fn shows_highlight(self, rows: usize) -> bool {
        self.scroll <= self.selected < self.scroll + at_least_one(rows)
    }

    /// What the highlighted row stands for.
    pub open spec fn picked_spec(self) -> Choice {
        if self.selected < self.entries@.len() {
            let entry = self.entries@[self.selected as int]@;
            Choice::Resume { uuid: entry.uuid, workspace: entry.workspace_path() }
        } else {
            Choice::New
        }
    }

    pub fn new(entries: Vec<PickerEntry>) -> (state: PickerState)
        requires
            entries@.len() < usize::MAX,
        ensures
            state == (PickerState { entries, selected: 0, scroll: 0 }),
            state.wf(),
    {
        PickerState { entries, selected: 0, scroll: 0 }
    }

    /// Every row, the trailing `New` one included.
    pub fn row_count(&self) -> (n: usize)
        requires
            self.wf(),
        ensures
            n == self.entries@.len() + 1,
    {
        self.entries.len() + 1
    }

    pub fn select_next(&mut self)
        requires
            old(self).wf(),
        ensures
            final(self).wf(),
            final(self).entries == old(self).entries,
            final(self).scroll == old(self).scroll,
            final(self).selected == if old(self).selected < old(self).entries@.len() {
                old(self).selected + 1
            } else {
                old(self).selected as int
            },
    {
        if self.selected + 1 < self.row_count() {
            self.selected = self.selected + 1;
        }
    }

    pub fn select_prev(&mut self)
        requires
            old(self).wf(),
        ensures
            final(self).wf(),
            final(self).entries == old(self).entries,
            final(self).scroll == old(self).scroll,
            final(self).selected == back_by(old(self).selected, 1),
    {
        self.selected = self.selected.saturating_sub(1);
    }

    pub fn page_down(&mut self, rows: usize)
        requires
            old(self).wf(),
        ensures
            final(self).wf(),
            final(self).entries == old(self).entries,
            final(self).scroll == old(self).scroll,
            final(self).selected == if old(self).selected + at_least_one(rows)
                < old(self).entries@.len() {
                old(self).selected + at_least_one(rows)
            } else {
                old(self).entries@.len() as int
            },
    {
        let last: usize = self.row_count() - 1;
        let step: usize = if rows == 0 {
            1
        } else {
            rows
        };
        self.selected = if step < last - self.selected {
            self.selected + step
        } else {
            last
        };
    }

    pub fn page_up(&mut self, rows: usize)
        requires
            old(self).wf(),
        ensures
            final(self).wf(),
            final(self).entries == old(self).entries,
            final(self).scroll == old(self).scroll,
            final(self).selected == back_by(old(self).selected, at_least_one(rows)),
    {
        let step: usize = if rows == 0 {
            1
        } else {
            rows
        };
        self.selected = self.selected.saturating_sub(step);
    }

    pub fn select_first(&mut self)
        requires
            old(self).wf(),
        ensures
            final(self).wf(),
            final(self).entries == old(self).entries,
            final(self).scroll == old(self).scroll,
            final(self).selected == 0,
    {
        self.selected = 0;
    }

    pub fn select_last(&mut self)
        requires
            old(self).wf(),
        ensures
            final(self).wf(),
            final(self).entries == old(self).entries,
            final(self).scroll == old(self).scroll,
            final(self).selected == old(self).entries@.len(),
    {
        self.selected = self.row_count() - 1;
    }

    /// Slides the window so the highlighted row is inside `rows` visible rows, and no further
    /// than that takes.
    pub fn clamp(&mut self, rows: usize)
        requires
            old(self).wf(),
        ensures
            final(self).wf(),
            final(self).entries == old(self).entries,
            final(self).selected == old(self).selected,
            final(self).shows_highlight(rows),
            final(self).scroll == if old(self).selected < old(self).scroll {
                old(self).selected as int
            } else if old(self).selected < old(self).scroll + at_least_one(rows) {
                old(self).scroll as int
            } else {
                old(self).selected + 1 - at_least_one(rows)
            },
    {
        let shown: usize = if rows == 0 {
            1
        } else {
            rows
        };
        if self.selected < self.scroll {
            self.scroll = self.selected;
        } else if self.selected - self.scroll >= shown {
            self.scroll = self.selected - shown + 1;
        }
    }

    pub fn picked(&self) -> (choice: PickerChoice)
        requires
            self.wf(),
        ensures
            choice@ == self.picked_spec(),
    {
        if self.selected < self.entries.len() {
            let entry = &self.entries[self.selected];
            PickerChoice::Resume { uuid: entry.uuid.clone(), workspace: entry.workspace_path() }
        } else {
            PickerChoice::New
        }
    }

    /// The status line: which session is highlighted, or what the last row does.
    pub fn status(&self) -> (line: String)
        requires
            self.wf(),
        ensures
            line@ == if self.selected < self.entries@.len() {
                "Session "@ + text::decimal_spec((self.selected + 1) as nat) + " of "@
                    + text::decimal_spec(self.entries@.len())
            } else {
                NEW_ROW_TEXT@
            },
    {
        if self.selected < self.entries.len() {
            let len: usize = self.entries.len();
            let mut line = "Session ".to_string();
            line.append(text::decimal(self.selected as u64 + 1).as_str());
            line.append(" of ");
            line.append(text::decimal(len as u64).as_str());
            line
        } else {
            NEW_ROW_TEXT.to_string()
        }
    }

    /// The table row shown in a row of the body, if there is one that far down.
    pub fn row_at(&self, row: usize) -> (index: Option<usize>)
        requires
            self.wf(),
        ensures
            text::place(index) == if self.scroll + row <= self.entries@.len() {
                Some(self.scroll + row)
            } else {
                None
            },
    {
        let count: usize = self.row_count();
        if self.scroll < count && row < count - self.scroll {
            Some(self.scroll + row)
        } else {
            None
        }
    }
}

/// The label of the `New` row, in the SESSION column.
pub const NEW_ROW_LABEL: &'static str = "New";

pub const NEW_ROW_TEXT: &'static str = "Start a new session";

pub const TITLE: &'static str = "Resume a session  ↑/↓ Move  Enter Select  Esc Quit";

/// That many spaces.
pub open spec fn blanks(n: int) -> Seq<char> {
    Seq::new(if n < 0 { 0 } else { n as nat }, |i: int| ' ')
}

/// A text with spaces behind it up to a width; a wider one as it is.
pub open spec fn padded_spec(s: Seq<char>, width: int) -> Seq<char> {
    s + blanks(width - s.len())
}

/// Pads a text on the right to a width in characters, so a highlight spans the row.
pub fn padded(s: &str, width: usize) -> (out: String)
    ensures
        out@ == padded_spec(s@, width as int),
{
    let chars = text::chars_of(s);
    let mut shown: usize = chars.len();
    let mut out = s.to_string();
    assert(out@ =~= padded_spec(s@, shown as int));
    while shown < width
        invariant
            s@.len() <= shown,
            shown <= width || shown == s@.len(),
            out@ == padded_spec(s@, shown as int),
        decreases width - shown,
    {
        out.push(' ');
        shown = shown + 1;
        assert(out@ =~= padded_spec(s@, shown as int));
    }
    assert(padded_spec(s@, shown as int) =~= padded_spec(s@, width as int));
    out
}

/// One of the columns that are padded.
#[derive(Clone, Copy, Debug, PartialEq, Eq, Structural)]
pub enum Column {
    Session,
    Workspace,
    Branch,
}

impl Column {
    pub open spec fn header(self) -> Seq<char> {
        match self {
            Column::Session => "SESSION"@,
            Column::Workspace => "WORKSPACE"@,
            Column::Branch => "BRANCH"@,
        }
    }

    pub open spec fn of(self, entry: Entry) -> Seq<char> {
        match self {
            Column::Session => entry.uuid,
            Column::Workspace => entry.workspace,
            Column::Branch => entry.branch,
        }
    }

    /// The widest value of the column, its header included.
    pub open spec fn width(self, entries: Seq<Entry>) -> int
        decreases entries.len(),
    {
        if entries.len() == 0 {
            self.header().len() as int
        } else {
            let rest = self.width(entries.drop_last());
            let last = self.of(entries.last()).len() as int;
            if last > rest { last } else { rest }
        }
    }

    fn measure(self, entries: &[PickerEntry]) -> (width: usize)
        ensures
            width == self.width(entry_views(entries@)),
    {
        let header = match self {
            Column::Session => "SESSION",
            Column::Workspace => "WORKSPACE",
            Column::Branch => "BRANCH",
        };
        let letters = text::chars_of(header);
        let mut widest: usize = letters.len();
        let ghost all = entry_views(entries@);
        let mut i: usize = 0;
        while i < entries.len()
            invariant
                i <= entries@.len(),
                all == entry_views(entries@),
                widest == self.width(all.take(i as int)),
            decreases entries.len() - i,
        {
            let entry = &entries[i];
            let value = match self {
                Column::Session => text::chars_of(entry.uuid.as_str()),
                Column::Workspace => text::chars_of(entry.workspace.as_str()),
                Column::Branch => text::chars_of(entry.branch.as_str()),
            };
            assert(value@ == self.of(all[i as int]));
            if value.len() > widest {
                widest = value.len();
            }
            i = i + 1;
            assert(all.take(i as int).drop_last() =~= all.take(i - 1));
        }
        assert(all.take(all.len() as int) =~= all);
        widest
    }
}

/// Every value of a column fits in its width.
pub proof fn law_every_value_fits_its_column(column: Column, entries: Seq<Entry>)
    ensures
        forall|i: int|
            0 <= i < entries.len() ==> (#[trigger] column.of(entries[i])).len() <= column.width(
                entries,
            ),
        column.header().len() <= column.width(entries),
    decreases entries.len(),
{
    if entries.len() > 0 {
        let rest = entries.drop_last();
        law_every_value_fits_its_column(column, rest);
        assert forall|i: int| 0 <= i < entries.len() implies (#[trigger] column.of(
            entries[i],
        )).len() <= column.width(entries) by {
            if i < rest.len() {
                assert(rest[i] == entries[i]);
                assert(column.of(rest[i]).len() <= column.width(rest));
            }
        }
    }
}

/// One line of the table: the columns with two spaces between, the last one as it is.
pub open spec fn line_spec(entry: Entry, entries: Seq<Entry>) -> Seq<char> {
    padded_spec(entry.uuid, Column::Session.width(entries)) + "  "@ + padded_spec(
        entry.workspace,
        Column::Workspace.width(entries),
    ) + "  "@ + padded_spec(entry.branch, Column::Branch.width(entries)) + "  "@ + entry.date
}

/// The names of the columns, as a row of the table.
pub open spec fn header_entry() -> Entry {
    Entry { uuid: "SESSION"@, workspace: "WORKSPACE"@, branch: "BRANCH"@, date: "DATE"@ }
}

pub open spec fn new_row_spec(entries: Seq<Entry>) -> Seq<char> {
    padded_spec(NEW_ROW_LABEL@, Column::Session.width(entries)) + "  "@ + NEW_ROW_TEXT@
}

/// The rows of the table, the `New` row last.
pub open spec fn table_spec(entries: Seq<Entry>) -> Seq<Seq<char>> {
    entries.map_values(|e: Entry| line_spec(e, entries)).push(new_row_spec(entries))
}

fn table_line(
    uuid: &str,
    workspace: &str,
    branch: &str,
    date: &str,
    widths: (usize, usize, usize),
) -> (line: String)
    ensures
        line@ == padded_spec(uuid@, widths.0 as int) + "  "@ + padded_spec(
            workspace@,
            widths.1 as int,
        ) + "  "@ + padded_spec(branch@, widths.2 as int) + "  "@ + date@,
{
    let mut line = padded(uuid, widths.0);
    line.append("  ");
    line.append(padded(workspace, widths.1).as_str());
    line.append("  ");
    line.append(padded(branch, widths.2).as_str());
    line.append("  ");
    line.append(date);
    line
}

/// The header and rows of the table, each padded to the widest value of its column, followed by
/// the `New` row.
pub fn table_lines(entries: &[PickerEntry]) -> (table: (String, Vec<String>))
    ensures
        table.0@ == line_spec(header_entry(), entry_views(entries@)),
        text::views(table.1@) == table_spec(entry_views(entries@)),
{
    let ghost all = entry_views(entries@);
    let session: usize = Column::Session.measure(entries);
    let workspace: usize = Column::Workspace.measure(entries);
    let branch: usize = Column::Branch.measure(entries);
    let widths = (session, workspace, branch);
    let header = table_line("SESSION", "WORKSPACE", "BRANCH", "DATE", widths);
    let mut rows: Vec<String> = Vec::new();
    assert(text::views(rows@) =~= table_spec(all).take(0));
    let mut i: usize = 0;
    while i < entries.len()
        invariant
            i <= entries@.len(),
            all == entry_views(entries@),
            widths.0 == Column::Session.width(all),
            widths.1 == Column::Workspace.width(all),
            widths.2 == Column::Branch.width(all),
            text::views(rows@) == table_spec(all).take(i as int),
        decreases entries.len() - i,
    {
        let entry = &entries[i];
        let line = table_line(
            entry.uuid.as_str(),
            entry.workspace.as_str(),
            entry.branch.as_str(),
            entry.date.as_str(),
            widths,
        );
        let ghost before = text::views(rows@);
        let ghost shown = line@;
        assert(shown == line_spec(all[i as int], all));
        rows.push(line);
        i = i + 1;
        assert(text::views(rows@) =~= before.push(shown));
        assert(table_spec(all)[i - 1] == shown);
        assert(table_spec(all).take(i as int) =~= table_spec(all).take(i - 1).push(shown));
    }
    let mut new_row = padded(NEW_ROW_LABEL, widths.0);
    new_row.append("  ");
    new_row.append(NEW_ROW_TEXT);
    let ghost before = text::views(rows@);
    rows.push(new_row);
    assert(text::views(rows@) =~= before.push(new_row_spec(all)));
    assert(text::views(rows@) =~= table_spec(all));
    (header, rows)
}

/// Rows of the list body: the screen minus the title, the column header and the status line.
pub fn body_rows(height: u16) -> (rows: usize)
    ensures
        rows == if height > 4 { height - 3 } else { 1 },
{
    if height > 4 {
        (height - 3) as usize
    } else {
        1
    }
}

/// What came in from the keyboard or the wheel.
#[derive(Clone, Copy, Debug, PartialEq, Eq, Structural)]
pub enum Input {
    Enter,
    Escape,
    Letter(char),
    Up,
    Down,
    PageUp,
    PageDown,
    Home,
    End,
    WheelUp,
    WheelDown,
    Other,
}

/// What an input means to the picker.
#[derive(Clone, Copy, Debug, PartialEq, Eq, Structural)]
pub enum Meaning {
    Take,
    Leave,
    Previous,
    Next,
    PageUp,
    PageDown,
    First,
    Last,
    Nothing,
}

pub open spec fn meaning_spec(input: Input, ctrl: bool) -> Meaning {
    match input {
        Input::Enter => Meaning::Take,
        Input::Escape => Meaning::Leave,
        Input::Letter(c) => if (c == 'q' && !ctrl) || (c == 'c' && ctrl) {
            Meaning::Leave
        } else if c == 'k' && !ctrl {
            Meaning::Previous
        } else if c == 'j' && !ctrl {
            Meaning::Next
        } else {
            Meaning::Nothing
        },
        Input::Up => Meaning::Previous,
        Input::WheelUp => Meaning::Previous,
        Input::Down => Meaning::Next,
        Input::WheelDown => Meaning::Next,
        Input::PageUp => Meaning::PageUp,
        Input::PageDown => Meaning::PageDown,
        Input::Home => Meaning::First,
        Input::End => Meaning::Last,
        Input::Other => Meaning::Nothing,
    }
}

fn meaning(input: Input, ctrl: bool) -> (m: Meaning)
    ensures
        m == meaning_spec(input, ctrl),
{
    match input {
        Input::Enter => Meaning::Take,
        Input::Escape => Meaning::Leave,
        Input::Letter(c) => if (c == 'q' && !ctrl) || (c == 'c' && ctrl) {
            Meaning::Leave
        } else if c == 'k' && !ctrl {
            Meaning::Previous
        } else if c == 'j' && !ctrl {
            Meaning::Next
        } else {
            Meaning::Nothing
        },
        Input::Up => Meaning::Previous,
        Input::WheelUp => Meaning::Previous,
        Input::Down => Meaning::Next,
        Input::WheelDown => Meaning::Next,
        Input::PageUp => Meaning::PageUp,
        Input::PageDown => Meaning::PageDown,
        Input::Home => Meaning::First,
        Input::End => Meaning::Last,
        Input::Other => Meaning::Nothing,
    }
}

/// What the picker does with an input.
#[derive(Clone, Debug, PartialEq, Eq)]
pub enum Step {
    /// Show the list again.
    Stay,
    /// The choice was made.
    Picked(PickerChoice),
    /// Left without one.
    Cancelled,
}

/// Where the highlight goes, of a list of `last` entries.
pub open spec fn moved(selected: int, last: int, rows: int, m: Meaning) -> int {
    match m {
        Meaning::Previous => if selected > 0 { selected - 1 } else { 0 },
        Meaning::Next => if selected < last { selected + 1 } else { last },
        Meaning::PageUp => if selected > rows { selected - rows } else { 0 },
        Meaning::PageDown => if selected + rows < last { selected + rows } else { last },
        Meaning::First => 0,
        Meaning::Last => last,
        _ => selected,
    }
}

impl PickerState {
    /// Takes one input, on a screen with `rows` rows of the list.
    pub fn on_input(&mut self, input: Input, ctrl: bool, rows: usize) -> (step: Step)
        requires
            old(self).wf(),
        ensures
            final(self).wf(),
            final(self).entries == old(self).entries,
            final(self).scroll == old(self).scroll,
            final(self).selected == moved(
                old(self).selected as int,
                old(self).entries@.len() as int,
                at_least_one(rows) as int,
                meaning_spec(input, ctrl),
            ),
            match step {
                Step::Picked(choice) => meaning_spec(input, ctrl) == Meaning::Take && choice@
                    == old(self).picked_spec(),
                Step::Cancelled => meaning_spec(input, ctrl) == Meaning::Leave,
                Step::Stay => meaning_spec(input, ctrl) != Meaning::Take && meaning_spec(
                    input,
                    ctrl,
                ) != Meaning::Leave,
            },
    {
        match meaning(input, ctrl) {
            Meaning::Take => return Step::Picked(self.picked()),
            Meaning::Leave => return Step::Cancelled,
            Meaning::Previous => self.select_prev(),
            Meaning::Next => self.select_next(),
            Meaning::PageUp => self.page_up(rows),
            Meaning::PageDown => self.page_down(rows),
            Meaning::First => self.select_first(),
            Meaning::Last => self.select_last(),
            Meaning::Nothing => {},
        }
        Step::Stay
    }
}

/// No input ever moves the highlight off the list, the `New` row included.
pub proof fn law_the_highlight_stays_on_the_list(selected: int, last: int, rows: int, m: Meaning)
    requires
        0 <= selected <= last,
        rows >= 1,
    ensures
        0 <= moved(selected, last, rows, m) <= last,
{
}

/// Each list comes out most recently updated first: no session stands before a newer one, and
/// those without metadata stand last.
pub proof fn law_newest_sessions_come_first(sessions: Seq<Stored>)
    ensures
        by_recency(sessions).len() == sessions.len(),
        by_recency(sessions).to_multiset() == sessions.to_multiset(),
        newest_first(by_recency(sessions)),
    decreases sessions.len(),
{
    broadcast use vstd::seq_lib::group_to_multiset_ensures;

    if sessions.len() > 0 {
        let rest = sessions.drop_last();
        law_newest_sessions_come_first(rest);
        lemma_placed(by_recency(rest), sessions.last());
        assert(sessions =~= rest.push(sessions.last()));
    }
}

pub open spec fn newest_first(sessions: Seq<Stored>) -> bool {
    forall|i: int, j: int|
        0 <= i < j < sessions.len() ==> sessions[i].updated() >= sessions[j].updated()
}

pub open spec fn none_older(sessions: Seq<Stored>, time: int) -> bool {
    forall|i: int| 0 <= i < sessions.len() ==> (#[trigger] sessions[i]).updated() >= time
}

proof fn lemma_placed(sessions: Seq<Stored>, session: Stored)
    requires
        newest_first(sessions),
    ensures
        placed(sessions, session).len() == sessions.len() + 1,
        placed(sessions, session).to_multiset() == sessions.push(session).to_multiset(),
        newest_first(placed(sessions, session)),
        forall|time: int|
            time <= session.updated() && #[trigger] none_older(sessions, time) ==> none_older(
                placed(sessions, session),
                time,
            ),
    decreases sessions.len(),
{
    broadcast use vstd::seq_lib::group_to_multiset_ensures;

    if sessions.len() > 0 && sessions.last().updated() < session.updated() {
        let rest = sessions.drop_last();
        lemma_placed(rest, session);
        assert(none_older(rest, sessions.last().updated()));
        assert forall|time: int|
            time <= session.updated() && #[trigger] none_older(
                sessions,
                time,
            ) implies none_older(placed(sessions, session), time) by {
            assert(none_older(rest, time));
            assert(sessions.last() == sessions[sessions.len() - 1]);
        }
        assert(sessions =~= rest.push(sessions.last()));
    }
}

/// What a row shows of a session: what it recorded, and a dash for what it did not.
pub proof fn law_what_is_unknown_is_a_dash(uuid: Seq<char>, m: Metadata)
    ensures
        ({
            let row = entry_of(uuid, Some(m));
            &&& row.uuid == uuid && row.date == m.date
            &&& m.workspace.len() > 0 ==> row.workspace == m.workspace
            &&& m.workspace.len() == 0 ==> row.workspace == "-"@ && row.workspace_path() is None
            &&& m.branch.len() > 0 ==> row.branch == m.branch
            &&& m.branch.len() == 0 ==> row.branch == "-"@
            &&& m.workspace.len() > 0 && m.workspace != "-"@ ==> row.workspace_path() == Some(
                m.workspace,
            )
        }),
        ({
            let row = entry_of(uuid, None);
            row.uuid == uuid && row.workspace == "-"@ && row.branch == "-"@ && row.date == "-"@
                && row.workspace_path() is None
        }),
{
}

/// No session stands before one that was updated later, and none that recorded nothing before one
/// that did.
pub proof fn law_what_recorded_nothing_stands_last(sessions: Seq<Stored>, i: int, j: int)
    requires
        0 <= i < j < sessions.len(),
    ensures
        ({
            let (a, b) = (by_recency(sessions)[i].meta, by_recency(sessions)[j].meta);
            &&& b is Some ==> a is Some
            &&& a is Some && b is Some ==> a->0.last_updated_at >= b->0.last_updated_at
        }),
{
    law_newest_sessions_come_first(sessions);
    let sorted = by_recency(sessions);
    assert(sorted[i].updated() >= sorted[j].updated());
}

/// Sessions of one time stay in the order they came in.
pub proof fn law_sessions_of_one_time_keep_their_order(sessions: Seq<Stored>, time: int)
    ensures
        by_recency(sessions).filter(|s: Stored| s.updated() == time) == sessions.filter(
            |s: Stored| s.updated() == time,
        ),
    decreases sessions.len(),
{
    reveal(Seq::filter);
    if sessions.len() > 0 {
        let rest = sessions.drop_last();
        law_sessions_of_one_time_keep_their_order(rest, time);
        lemma_placed_keeps_order(by_recency(rest), sessions.last(), time);
    }
}

proof fn lemma_placed_keeps_order(sessions: Seq<Stored>, session: Stored, time: int)
    ensures
        ({
            let kept = sessions.filter(|s: Stored| s.updated() == time);
            placed(sessions, session).filter(|s: Stored| s.updated() == time) == if session.updated()
                == time {
                kept.push(session)
            } else {
                kept
            }
        }),
    decreases sessions.len(),
{
    reveal(Seq::filter);
    let at = placed(sessions, session);
    if sessions.len() == 0 || sessions.last().updated() >= session.updated() {
        assert(at.drop_last() =~= sessions);
    } else {
        lemma_placed_keeps_order(sessions.drop_last(), session, time);
        assert(at.drop_last() =~= placed(sessions.drop_last(), session));
    }
}

/// A padded text begins with the text, is as long as the wider of the text and the width, and has
/// nothing but spaces behind it.
pub proof fn law_padding_is_spaces_behind(s: Seq<char>, width: int, i: int)
    ensures
        ({
            let p = padded_spec(s, width);
            &&& p.len() == if s.len() < width { width } else { s.len() as int }
            &&& p.take(s.len() as int) == s
            &&& s.len() <= i < p.len() ==> p[i] == ' '
        }),
{
    assert(padded_spec(s, width).take(s.len() as int) =~= s);
}

/// A column is as wide as its widest value or its heading, and no wider.
pub proof fn law_a_column_is_no_wider_than_it_must_be(column: Column, entries: Seq<Entry>)
    ensures
        column.width(entries) == column.header().len() || exists|i: int|
            0 <= i < entries.len() && column.width(entries) == (#[trigger] column.of(entries[i])).len(),
        Column::Session.header() == "SESSION"@,
        Column::Workspace.header() == "WORKSPACE"@,
        Column::Branch.header() == "BRANCH"@,
    decreases entries.len(),
{
    if entries.len() > 0 {
        let rest = entries.drop_last();
        law_a_column_is_no_wider_than_it_must_be(column, rest);
        if column.width(entries) == column.width(rest) && column.width(rest)
            != column.header().len() {
            let i = choose|i: int|
                0 <= i < rest.len() && column.width(rest) == (#[trigger] column.of(rest[i])).len();
            assert(column.of(entries[i]) == column.of(rest[i]));
        } else if column.width(entries) != column.width(rest) {
            assert(column.of(entries[entries.len() - 1]).len() == column.width(entries));
        }
    }
}

/// The columns line up: on every line of the table, the heading's too, each column begins at the
/// same place, two spaces behind the widest value of the one before.
pub proof fn law_the_columns_line_up(entry: Entry, entries: Seq<Entry>, i: int)
    requires
        0 <= i < entries.len() && entry == entries[i] || entry == header_entry(),
    ensures
        ({
            let line = line_spec(entry, entries);
            let one = Column::Session.width(entries) + 2;
            let two = one + Column::Workspace.width(entries) + 2;
            let three = two + Column::Branch.width(entries) + 2;
            &&& text::stands_at(line, entry.uuid, 0)
            &&& text::stands_at(line, entry.workspace, one)
            &&& text::stands_at(line, entry.branch, two)
            &&& text::stands_at(line, entry.date, three)
            &&& line.len() == three + entry.date.len()
        }),
        header_entry().uuid == "SESSION"@ && header_entry().workspace == "WORKSPACE"@
            && header_entry().branch == "BRANCH"@ && header_entry().date == "DATE"@,
{
    reveal_strlit("  ");
    law_every_value_fits_its_column(Column::Session, entries);
    law_every_value_fits_its_column(Column::Workspace, entries);
    law_every_value_fits_its_column(Column::Branch, entries);
    if 0 <= i < entries.len() && entry == entries[i] {
        assert(Column::Session.of(entries[i]).len() <= Column::Session.width(entries));
        assert(Column::Workspace.of(entries[i]).len() <= Column::Workspace.width(entries));
        assert(Column::Branch.of(entries[i]).len() <= Column::Branch.width(entries));
    }
    let line = line_spec(entry, entries);
    let one = Column::Session.width(entries) + 2;
    let two = one + Column::Workspace.width(entries) + 2;
    let three = two + Column::Branch.width(entries) + 2;
    assert(line.subrange(0, entry.uuid.len() as int) =~= entry.uuid);
    assert(line.subrange(one, one + entry.workspace.len()) =~= entry.workspace);
    assert(line.subrange(two, two + entry.branch.len()) =~= entry.branch);
    assert(line.subrange(three, three + entry.date.len()) =~= entry.date);
}

/// The table has a line for each session, in their order, and one more, of which the first column
/// is the label of the new session and the rest says what it does.
pub proof fn law_the_last_row_starts_afresh(entries: Seq<Entry>, i: int)
    requires
        0 <= i < entries.len(),
    ensures
        table_spec(entries).len() == entries.len() + 1,
        table_spec(entries)[i] == line_spec(entries[i], entries),
        ({
            let last = table_spec(entries).last();
            text::stands_at(last, "New"@, 0) && text::stands_at(
                last,
                "Start a new session"@,
                Column::Session.width(entries) + 2,
            )
        }),
        NEW_ROW_LABEL@ == "New"@,
        NEW_ROW_TEXT@ == "Start a new session"@,
        TITLE@ == "Resume a session  ↑/↓ Move  Enter Select  Esc Quit"@,
{
    reveal_strlit("New");
    reveal_strlit("SESSION");
    reveal_strlit("  ");
    law_every_value_fits_its_column(Column::Session, entries);
    let last = new_row_spec(entries);
    let at = Column::Session.width(entries) + 2;
    assert(last.subrange(0, 3) =~= "New"@);
    assert(last.subrange(at, at + NEW_ROW_TEXT@.len()) =~= NEW_ROW_TEXT@);
}

/// What each input means: an arrow, its letter and the wheel move the highlight alike, a letter
/// only without the control key; escape, `q` and control-`c` leave.
pub proof fn law_what_each_input_means(c: char, ctrl: bool)
    ensures
        meaning_spec(Input::Enter, ctrl) is Take,
        meaning_spec(Input::Escape, ctrl) is Leave,
        meaning_spec(Input::Up, ctrl) is Previous && meaning_spec(Input::WheelUp, ctrl) is Previous
            && meaning_spec(Input::Letter('k'), false) is Previous,
        meaning_spec(Input::Down, ctrl) is Next && meaning_spec(Input::WheelDown, ctrl) is Next
            && meaning_spec(Input::Letter('j'), false) is Next,
        meaning_spec(Input::PageUp, ctrl) is PageUp,
        meaning_spec(Input::PageDown, ctrl) is PageDown,
        meaning_spec(Input::Home, ctrl) is First,
        meaning_spec(Input::End, ctrl) is Last,
        meaning_spec(Input::Other, ctrl) is Nothing,
        meaning_spec(Input::Letter('q'), false) is Leave,
        meaning_spec(Input::Letter('c'), true) is Leave,
        c != 'c' ==> meaning_spec(Input::Letter(c), true) is Nothing,
        c != 'q' && c != 'k' && c != 'j' ==> meaning_spec(Input::Letter(c), false) is Nothing,
{
}

/// A move is as far as asked, one row or a page, and stops at either end; nothing else moves the
/// highlight.
pub proof fn law_a_move_stops_at_the_ends(selected: int, last: int, rows: int)
    requires
        0 <= selected <= last,
        rows >= 1,
    ensures
        moved(selected, last, rows, Meaning::Next) == if selected == last {
            last
        } else {
            selected + 1
        },
        moved(selected, last, rows, Meaning::Previous) == if selected == 0 {
            0
        } else {
            selected - 1
        },
        selected + rows <= last ==> moved(selected, last, rows, Meaning::PageDown) == selected
            + rows,
        selected + rows > last ==> moved(selected, last, rows, Meaning::PageDown) == last,
        selected >= rows ==> moved(selected, last, rows, Meaning::PageUp) == selected - rows,
        selected < rows ==> moved(selected, last, rows, Meaning::PageUp) == 0,
        moved(selected, last, rows, Meaning::First) == 0,
        moved(selected, last, rows, Meaning::Last) == last,
        moved(selected, last, rows, Meaning::Take) == selected,
        moved(selected, last, rows, Meaning::Leave) == selected,
        moved(selected, last, rows, Meaning::Nothing) == selected,
{
}

/// Going back stops at the first row, and a page is a row at least.
pub proof fn law_going_back_stops_at_the_first_row(selected: usize, rows: usize)
    ensures
        selected >= rows ==> back_by(selected, rows) == selected - rows,
        selected < rows ==> back_by(selected, rows) == 0,
        rows > 0 ==> at_least_one(rows) == rows,
        at_least_one(0) == 1,
{
}

} // verus!
