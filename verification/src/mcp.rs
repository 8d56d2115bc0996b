//! The inventory of MCP servers a configuration file names, and replacing it.
//!
//! A replacement checks every entry before the file is touched, so a refused one leaves the file
//! as it was. Then each section the file no longer names is removed, and each that is new or
//! changed is rewritten; the unchanged ones keep their lines. Validating an entry, and reading
//! and writing the file, is the caller's: [`Replacement`] says what to do next and is told how
//! it went.

use vstd::prelude::*;
use vstd::string::*;
use crate::text;

verus! {

/// One configured server.
#[derive(Debug, Clone, PartialEq, Eq)]
pub struct McpConfiguration {
    pub name: String,
    pub endpoint: String,
    pub enabled: bool,
    pub approval_mode: String,
}

/// One server as the console shows and sends it.
#[derive(Debug, Clone, PartialEq, Eq)]
pub struct McpView {
    pub name: String,
    pub endpoint: String,
    pub enabled: bool,
    pub approval_mode: String,
}

/// A server by the values it holds.
#[verifier::ext_equal]
pub struct Server {
    pub name: Seq<char>,
    pub endpoint: Seq<char>,
    pub enabled: bool,
    pub approval_mode: Seq<char>,
}

impl View for McpConfiguration {
    type V = Server;

    open spec fn view(&self) -> Server {
        Server {
            name: self.name@,
            endpoint: self.endpoint@,
            enabled: self.enabled,
            approval_mode: self.approval_mode@,
        }
    }
}

impl View for McpView {
    type V = Server;

    open spec fn view(&self) -> Server {
        Server {
            name: self.name@,
            endpoint: self.endpoint@,
            enabled: self.enabled,
            approval_mode: self.approval_mode@,
        }
    }
}

/// Configured servers by the values they hold.
pub open spec fn servers(list: Seq<McpConfiguration>) -> Seq<Server> {
    list.map_values(|m: McpConfiguration| m@)
}

/// Shown servers by the values they hold.
pub open spec fn shown(list: Seq<McpView>) -> Seq<Server> {
    list.map_values(|m: McpView| m@)
}

/// A server is enabled unless it says otherwise.
pub fn enabled_default() -> (enabled: bool)
    ensures
        enabled,
{
    true
}

/// A server's calls are approved by hand where they write, unless it says otherwise.
pub fn approval_default() -> (mode: String)
    ensures
        mode@ == "writes"@,
{
    "writes".to_owned()
}

/// A configured server as the console shows it.
pub fn view(mcp: &McpConfiguration) -> (v: McpView)
    ensures
        v@ == mcp@,
{
    McpView {
        name: mcp.name.clone(),
        endpoint: mcp.endpoint.clone(),
        enabled: mcp.enabled,
        approval_mode: mcp.approval_mode.clone(),
    }
}

fn copy(mcp: &McpConfiguration) -> (c: McpConfiguration)
    ensures
        c@ == mcp@,
{
    McpConfiguration {
        name: mcp.name.clone(),
        endpoint: mcp.endpoint.clone(),
        enabled: mcp.enabled,
        approval_mode: mcp.approval_mode.clone(),
    }
}

/// The list, with where it comes from: `path` is the configuration file a save writes, nothing
/// when there is none, in which case the console is read-only.
#[derive(Debug, Clone, PartialEq, Eq)]
pub struct Inventory {
    pub servers: Vec<McpView>,
    pub path: Option<String>,
    /// Set on the answer to a save: what was written is in the file, and a server started from
    /// it is what reads it.
    pub restart_required: bool,
}

/// A text, where there is one, by its characters.
pub open spec fn text_of(s: Option<String>) -> Option<Seq<char>> {
    match s {
        Some(t) => Some(t@),
        None => None,
    }
}

pub fn inventory(
    configured: &Vec<McpConfiguration>,
    config_file: &Option<String>,
    restart_required: bool,
) -> (list: Inventory)
    ensures
        shown(list.servers@) == servers(configured@),
        text_of(list.path) == text_of(*config_file),
        list.restart_required == restart_required,
{
    let mut out: Vec<McpView> = Vec::new();
    let mut i: usize = 0;
    while i < configured.len()
        invariant
            i <= configured@.len(),
            shown(out@) == servers(configured@).take(i as int),
        decreases configured.len() - i,
    {
        let ghost before = out@;
        out.push(view(&configured[i]));
        i = i + 1;
        assert(shown(out@) =~= shown(before).push(configured@[i - 1]@));
        assert(shown(out@) =~= servers(configured@).take(i as int));
    }
    assert(shown(out@) =~= servers(configured@));
    let path = match config_file {
        Some(p) => Some(p.clone()),
        None => None,
    };
    Inventory { servers: out, path, restart_required }
}

/// The first server of a name, at or after `from`.
pub open spec fn named(list: Seq<Server>, name: Seq<char>, from: int) -> Option<int>
    decreases list.len() - from,
{
    if from < 0 || from >= list.len() {
        None
    } else if list[from].name == name {
        Some(from)
    } else {
        named(list, name, from + 1)
    }
}

proof fn lemma_named(list: Seq<Server>, name: Seq<char>, from: int)
    requires
        0 <= from <= list.len(),
    ensures
        named(list, name, from) matches Some(i) ==> from <= i < list.len() && list[i].name == name,
        named(list, name, from) is None ==> forall|i: int|
            from <= i < list.len() ==> (#[trigger] list[i]).name != name,
    decreases list.len() - from,
{
    if from < list.len() && list[from].name != name {
        lemma_named(list, name, from + 1);
    }
}

fn find_named(list: &Vec<McpConfiguration>, name: &str) -> (at: Option<usize>)
    ensures
        text::place(at) == named(servers(list@), name@, 0),
        at matches Some(i) ==> i < list@.len(),
{
    let mut i: usize = 0;
    while i < list.len()
        invariant
            i <= list@.len(),
            named(servers(list@), name@, 0) == named(servers(list@), name@, i as int),
        decreases list.len() - i,
    {
        assert(servers(list@)[i as int] == list@[i as int]@);
        if text::same(list[i].name.as_str(), name) {
            return Some(i);
        }
        i = i + 1;
    }
    None
}

/// The server of a name, as the console shows it.
pub fn show(configured: &Vec<McpConfiguration>, name: &str) -> (found: Option<McpView>)
    ensures
        match named(servers(configured@), name@, 0) {
            Some(i) => found matches Some(v) && v@ == servers(configured@)[i],
            None => found is None,
        },
{
    match find_named(configured, name) {
        Some(i) => {
            assert(servers(configured@)[i as int] == configured@[i as int]@);
            Some(view(&configured[i]))
        },
        None => None,
    }
}

/// A server with white space cut from the ends of its texts.
pub open spec fn trimmed(s: Server) -> Server {
    Server {
        name: text::trim_spec(s.name),
        endpoint: text::trim_spec(s.endpoint),
        enabled: s.enabled,
        approval_mode: text::trim_spec(s.approval_mode),
    }
}

/// What the console sent, as it is to be configured.
pub fn wanted_of(sent: &Vec<McpView>) -> (wanted: Vec<McpConfiguration>)
    ensures
        servers(wanted@) == shown(sent@).map_values(|s: Server| trimmed(s)),
{
    let mut wanted: Vec<McpConfiguration> = Vec::new();
    let ghost goal = shown(sent@).map_values(|s: Server| trimmed(s));
    let mut i: usize = 0;
    while i < sent.len()
        invariant
            i <= sent@.len(),
            goal == shown(sent@).map_values(|s: Server| trimmed(s)),
            servers(wanted@) == goal.take(i as int),
        decreases sent.len() - i,
    {
        let ghost before = wanted@;
        let mcp = McpConfiguration {
            name: text::trim(sent[i].name.as_str()),
            endpoint: text::trim(sent[i].endpoint.as_str()),
            enabled: sent[i].enabled,
            approval_mode: text::trim(sent[i].approval_mode.as_str()),
        };
        let ghost added = mcp@;
        wanted.push(mcp);
        i = i + 1;
        assert(added == trimmed(shown(sent@)[i - 1]));
        assert(servers(wanted@) =~= servers(before).push(added));
        assert(servers(wanted@) =~= goal.take(i as int));
    }
    assert(servers(wanted@) =~= goal);
    wanted
}

/// The first server at or after `from` whose name already stood before it.
pub open spec fn first_twin(list: Seq<Server>, from: int) -> Option<Seq<char>>
    decreases list.len() - from,
{
    if from < 0 || from >= list.len() {
        None
    } else if named(list.take(from), list[from].name, 0) is Some {
        Some(list[from].name)
    } else {
        first_twin(list, from + 1)
    }
}

/// No two servers of one name.
pub open spec fn distinct_names(list: Seq<Server>) -> bool {
    forall|i: int, j: int| 0 <= i < j < list.len() ==> (#[trigger] list[i]).name != (
    #[trigger] list[j]).name
}

proof fn lemma_no_twin(list: Seq<Server>, from: int)
    requires
        0 <= from <= list.len(),
        distinct_names(list.take(from)),
        first_twin(list, from) is None,
    ensures
        distinct_names(list),
    decreases list.len() - from,
{
    if from < list.len() {
        lemma_named(list.take(from), list[from].name, 0);
        let next = list.take(from + 1);
        assert forall|i: int, j: int| 0 <= i < j < next.len() implies (#[trigger] next[i]).name != (
        #[trigger] next[j]).name by {
            assert(list.take(from)[i] == next[i]);
            if j < from {
                assert(list.take(from)[j] == next[j]);
            }
        }
        lemma_no_twin(list, from + 1);
    } else {
        assert(list.take(from) =~= list);
    }
}

fn find_twin(list: &Vec<McpConfiguration>) -> (twin: Option<String>)
    ensures
        text_of(twin) == first_twin(servers(list@), 0),
        twin is None ==> distinct_names(servers(list@)),
{
    let ghost all = servers(list@);
    let mut i: usize = 0;
    while i < list.len()
        invariant
            i <= list@.len(),
            all == servers(list@),
            first_twin(all, 0) == first_twin(all, i as int),
        decreases list.len() - i,
    {
        assert(all[i as int] == list@[i as int]@);
        let mut j: usize = 0;
        while j < i
            invariant
                j <= i < list@.len(),
                all == servers(list@),
                first_twin(all, 0) == first_twin(all, i as int),
                named(all.take(i as int), all[i as int].name, 0) == named(
                    all.take(i as int),
                    all[i as int].name,
                    j as int,
                ),
            decreases i - j,
        {
            assert(all.take(i as int)[j as int] == list@[j as int]@);
            assert(all[i as int] == list@[i as int]@);
            if text::same(list[j].name.as_str(), list[i].name.as_str()) {
                return Some(list[i].name.clone());
            }
            j = j + 1;
        }
        i = i + 1;
    }
    proof {
        assert(distinct_names(all.take(0)));
        lemma_no_twin(all, 0);
    }
    None
}

/// A section to rewrite: with a configuration it is written, without one removed.
#[derive(Debug, Clone, PartialEq, Eq)]
pub struct Rewrite {
    pub name: String,
    pub config: Option<McpConfiguration>,
}

/// A [`Rewrite`] by the values it holds.
#[verifier::ext_equal]
pub struct Change {
    pub name: Seq<char>,
    pub config: Option<Server>,
}

impl View for Rewrite {
    type V = Change;

    open spec fn view(&self) -> Change {
        Change {
            name: self.name@,
            config: match self.config {
                Some(c) => Some(c@),
                None => None,
            },
        }
    }
}

/// Rewrites by the values they hold.
pub open spec fn changes(list: Seq<Rewrite>) -> Seq<Change> {
    list.map_values(|r: Rewrite| r@)
}

/// The removals of the servers the file names and the list no longer does.
pub open spec fn removals(current: Seq<Server>, wanted: Seq<Server>) -> Seq<Change>
    decreases current.len(),
{
    if current.len() == 0 {
        Seq::empty()
    } else {
        let rest = removals(current.drop_last(), wanted);
        let gone = current.last();
        if named(wanted, gone.name, 0) is None {
            rest.push(Change { name: gone.name, config: None })
        } else {
            rest
        }
    }
}

/// The writes of the servers that are new or changed.
pub open spec fn writes(current: Seq<Server>, wanted: Seq<Server>) -> Seq<Change>
    decreases wanted.len(),
{
    if wanted.len() == 0 {
        Seq::empty()
    } else {
        let rest = writes(current, wanted.drop_last());
        let mcp = wanted.last();
        if current.contains(mcp) {
            rest
        } else {
            rest.push(Change { name: mcp.name, config: Some(mcp) })
        }
    }
}

fn is_unchanged(current: &Vec<McpConfiguration>, mcp: &McpConfiguration) -> (yes: bool)
    ensures
        yes == servers(current@).contains(mcp@),
{
    let mut i: usize = 0;
    while i < current.len()
        invariant
            i <= current@.len(),
            forall|k: int| 0 <= k < i ==> #[trigger] servers(current@)[k] != mcp@,
        decreases current.len() - i,
    {
        assert(servers(current@)[i as int] == current@[i as int]@);
        if text::same(current[i].name.as_str(), mcp.name.as_str()) && text::same(
            current[i].endpoint.as_str(),
            mcp.endpoint.as_str(),
        ) && current[i].enabled == mcp.enabled && text::same(
            current[i].approval_mode.as_str(),
            mcp.approval_mode.as_str(),
        ) {
            return true;
        }
        i = i + 1;
    }
    false
}

/// What turns the sections a file holds into those wanted: first every removal, in the file's
/// order, then every server that is new or changed, in the list's.
pub fn rewrites(current: &Vec<McpConfiguration>, wanted: &Vec<McpConfiguration>) -> (list: Vec<
    Rewrite,
>)
    ensures
        changes(list@) == removals(servers(current@), servers(wanted@)) + writes(
            servers(current@),
            servers(wanted@),
        ),
{
    let ghost have = servers(current@);
    let ghost want = servers(wanted@);
    let mut list: Vec<Rewrite> = Vec::new();
    let mut i: usize = 0;
    assert(changes(list@) =~= removals(have.take(0), want));
    while i < current.len()
        invariant
            i <= current@.len(),
            have == servers(current@),
            want == servers(wanted@),
            changes(list@) == removals(have.take(i as int), want),
        decreases current.len() - i,
    {
        assert(have.take(i + 1).drop_last() =~= have.take(i as int));
        assert(have.take(i + 1).last() == current@[i as int]@);
        if find_named(wanted, current[i].name.as_str()).is_none() {
            let ghost before = list@;
            let gone = Rewrite { name: current[i].name.clone(), config: None };
            let ghost added = gone@;
            list.push(gone);
            assert(changes(list@) =~= changes(before).push(added));
        }
        i = i + 1;
    }
    assert(have.take(i as int) =~= have);
    let ghost gone = changes(list@);
    let mut j: usize = 0;
    assert(changes(list@) =~= gone + writes(have, want.take(0)));
    while j < wanted.len()
        invariant
            j <= wanted@.len(),
            have == servers(current@),
            want == servers(wanted@),
            changes(list@) == gone + writes(have, want.take(j as int)),
        decreases wanted.len() - j,
    {
        assert(want.take(j + 1).drop_last() =~= want.take(j as int));
        assert(want.take(j + 1).last() == wanted@[j as int]@);
        if !is_unchanged(current, &wanted[j]) {
            let ghost before = list@;
            let put = Rewrite { name: wanted[j].name.clone(), config: Some(copy(&wanted[j])) };
            let ghost added = put@;
            list.push(put);
            assert(changes(list@) =~= changes(before).push(added));
            assert(changes(list@) =~= gone + writes(have, want.take(j as int)).push(added));
        }
        j = j + 1;
    }
    assert(want.take(j as int) =~= want);
    list
}

/// The sections of a file by name.
pub open spec fn sections(list: Seq<Server>) -> Map<Seq<char>, Server>
    decreases list.len(),
{
    if list.len() == 0 {
        Map::empty()
    } else {
        sections(list.drop_last()).insert(list.last().name, list.last())
    }
}

/// The sections after a run of rewrites.
pub open spec fn applied(
    have: Map<Seq<char>, Server>,
    list: Seq<Change>,
) -> Map<Seq<char>, Server>
    decreases list.len(),
{
    if list.len() == 0 {
        have
    } else {
        let before = applied(have, list.drop_last());
        match list.last().config {
            Some(c) => before.insert(list.last().name, c),
            None => before.remove(list.last().name),
        }
    }
}

proof fn lemma_sections(list: Seq<Server>)
    requires
        distinct_names(list),
    ensures
        forall|n: Seq<char>| #[trigger]
            sections(list).dom().contains(n) <==> exists|i: int|
                0 <= i < list.len() && (#[trigger] list[i]).name == n,
        forall|i: int| 0 <= i < list.len() ==> sections(list)[(#[trigger] list[i]).name] == list[i],
    decreases list.len(),
{
    if list.len() > 0 {
        let rest = list.drop_last();
        assert(distinct_names(rest)) by {
            assert forall|i: int, j: int| 0 <= i < j < rest.len() implies (#[trigger] rest[i]).name
                != (#[trigger] rest[j]).name by {
                assert(rest[i] == list[i] && rest[j] == list[j]);
            }
        }
        lemma_sections(rest);
        assert forall|n: Seq<char>| #[trigger] sections(list).dom().contains(n) <==> exists|i: int|
            0 <= i < list.len() && (#[trigger] list[i]).name == n by {
            if sections(list).dom().contains(n) {
                if n == list.last().name {
                    assert(list[list.len() - 1].name == n);
                } else {
                    assert(sections(rest).dom().contains(n));
                    let i = choose|i: int| 0 <= i < rest.len() && (#[trigger] rest[i]).name == n;
                    assert(list[i].name == n);
                }
            }
            if exists|i: int| 0 <= i < list.len() && (#[trigger] list[i]).name == n {
                let i = choose|i: int| 0 <= i < list.len() && (#[trigger] list[i]).name == n;
                if i < rest.len() {
                    assert(rest[i].name == n);
                    assert(sections(rest).dom().contains(n));
                }
            }
        }
        assert forall|i: int| 0 <= i < list.len() implies sections(list)[(#[trigger] list[i]).name]
            == list[i] by {
            if i < rest.len() {
                assert(rest[i] == list[i]);
                assert(list[i].name != list[list.len() - 1].name);
            }
        }
    }
}

/// After the removals a name is there exactly when it was and is still wanted, unchanged.
proof fn lemma_removals(
    have: Map<Seq<char>, Server>,
    current: Seq<Server>,
    wanted: Seq<Server>,
    n: Seq<char>,
)
    ensures
        ({
            let after = applied(have, removals(current, wanted));
            let gone = named(wanted, n, 0) is None && exists|i: int|
                0 <= i < current.len() && (#[trigger] current[i]).name == n;
            &&& after.dom().contains(n) <==> have.dom().contains(n) && !gone
            &&& after.dom().contains(n) ==> after[n] == have[n]
        }),
    decreases current.len(),
{
    if current.len() > 0 {
        let rest = current.drop_last();
        lemma_removals(have, rest, wanted, n);
        let last = current.last();
        let all = removals(current, wanted);
        if named(wanted, last.name, 0) is None {
            assert(all.drop_last() =~= removals(rest, wanted));
        }
        assert(forall|i: int| 0 <= i < rest.len() ==> rest[i] == #[trigger] current[i]);
        assert(current[current.len() - 1] == last);
        if exists|i: int| 0 <= i < current.len() && (#[trigger] current[i]).name == n {
            let i = choose|i: int| 0 <= i < current.len() && (#[trigger] current[i]).name == n;
            if i < rest.len() {
                assert(rest[i].name == n);
            }
        }
        if exists|i: int| 0 <= i < rest.len() && (#[trigger] rest[i]).name == n {
            let i = choose|i: int| 0 <= i < rest.len() && (#[trigger] rest[i]).name == n;
            assert(current[i].name == n);
        }
    }
}

/// After the writes a wanted name holds what is wanted, where it was already there unchanged or
/// written now, and every other name is as it was.
proof fn lemma_writes(
    have: Map<Seq<char>, Server>,
    current: Seq<Server>,
    wanted: Seq<Server>,
    n: Seq<char>,
)
    requires
        distinct_names(wanted),
        forall|i: int|
            0 <= i < wanted.len() && current.contains(#[trigger] wanted[i])
                ==> have.dom().contains(wanted[i].name) && have[wanted[i].name] == wanted[i],
    ensures
        ({
            let after = applied(have, writes(current, wanted));
            &&& (forall|i: int| 0 <= i < wanted.len() ==> (#[trigger] wanted[i]).name != n) ==> (
            after.dom().contains(n) <==> have.dom().contains(n)) && (after.dom().contains(n)
                ==> after[n] == have[n])
            &&& forall|i: int|
                0 <= i < wanted.len() && (#[trigger] wanted[i]).name == n
                    ==> after.dom().contains(n) && after[n] == wanted[i]
        }),
    decreases wanted.len(),
{
    if wanted.len() > 0 {
        let rest = wanted.drop_last();
        let last = wanted.last();
        assert(forall|i: int| 0 <= i < rest.len() ==> rest[i] == #[trigger] wanted[i]);
        assert(distinct_names(rest)) by {
            assert forall|i: int, j: int| 0 <= i < j < rest.len() implies (#[trigger] rest[i]).name
                != (#[trigger] rest[j]).name by {
                assert(wanted[i].name != wanted[j].name);
            }
        }
        assert forall|i: int|
            0 <= i < rest.len() && current.contains(
                #[trigger] rest[i],
            ) implies have.dom().contains(rest[i].name) && have[rest[i].name] == rest[i] by {
            assert(current.contains(wanted[i]));
        }
        lemma_writes(have, current, rest, n);
        let before = applied(have, writes(current, rest));
        let after = applied(have, writes(current, wanted));
        assert(wanted[wanted.len() - 1] == last);
        if !current.contains(last) {
            assert(writes(current, wanted).drop_last() =~= writes(current, rest));
            assert(after == before.insert(last.name, last));
        } else {
            assert(after == before);
        }
        assert forall|i: int|
            0 <= i < wanted.len() && (#[trigger] wanted[i]).name == n implies after.dom().contains(
            n,
        ) && after[n] == wanted[i] by {
            if i < rest.len() {
                assert(rest[i].name == n);
                assert(last.name != n) by {
                    assert(wanted[i].name != wanted[wanted.len() - 1].name);
                }
            } else {
                assert forall|k: int| 0 <= k < rest.len() implies (#[trigger] rest[k]).name
                    != n by {
                    assert(wanted[k].name != wanted[i].name);
                }
                if current.contains(last) {
                    assert(current.contains(wanted[wanted.len() - 1]));
                }
            }
        }
        if forall|i: int| 0 <= i < wanted.len() ==> (#[trigger] wanted[i]).name != n {
            assert forall|k: int| 0 <= k < rest.len() implies (#[trigger] rest[k]).name != n by {
                assert(wanted[k].name != n);
            }
        }
    }
}

/// Carrying out the rewrites leaves the file with exactly the sections wanted.
pub proof fn law_rewrites_reach_what_is_wanted(current: Seq<Server>, wanted: Seq<Server>)
    requires
        distinct_names(current),
        distinct_names(wanted),
    ensures
        applied(sections(current), removals(current, wanted) + writes(current, wanted)) == sections(
            wanted,
        ),
{
    let have = sections(current);
    let kept = applied(have, removals(current, wanted));
    lemma_sections(current);
    lemma_sections(wanted);
    lemma_applied_joins(have, removals(current, wanted), writes(current, wanted));
    assert forall|i: int|
        0 <= i < wanted.len() && current.contains(
            #[trigger] wanted[i],
        ) implies kept.dom().contains(wanted[i].name) && kept[wanted[i].name] == wanted[i] by {
        let k = choose|k: int| 0 <= k < current.len() && current[k] == wanted[i];
        assert(current[k].name == wanted[i].name);
        lemma_removals(have, current, wanted, wanted[i].name);
        lemma_named(wanted, wanted[i].name, 0);
        assert(have.dom().contains(wanted[i].name));
    }
    let after = applied(kept, writes(current, wanted));
    let goal = sections(wanted);
    assert forall|n: Seq<char>|
        #![trigger after.dom().contains(n)]
        #![trigger goal.dom().contains(n)]
        after.dom().contains(n) == goal.dom().contains(n) && (goal.dom().contains(n) ==> after[n]
            == goal[n]) by {
        lemma_removals(have, current, wanted, n);
        lemma_writes(kept, current, wanted, n);
        lemma_named(wanted, n, 0);
        if goal.dom().contains(n) {
            let i = choose|i: int| 0 <= i < wanted.len() && (#[trigger] wanted[i]).name == n;
            assert(goal[wanted[i].name] == wanted[i]);
        } else {
            assert forall|i: int| 0 <= i < wanted.len() implies (#[trigger] wanted[i]).name
                != n by {}
            if have.dom().contains(n) {
                let i = choose|i: int| 0 <= i < current.len() && (#[trigger] current[i]).name == n;
                assert(current[i].name == n);
            }
        }
    }
    assert(after.dom() =~= goal.dom());
    assert(after =~= goal);
}

proof fn lemma_applied_joins(have: Map<Seq<char>, Server>, a: Seq<Change>, b: Seq<Change>)
    ensures
        applied(have, a + b) == applied(applied(have, a), b),
    decreases b.len(),
{
    if b.len() == 0 {
        assert(a + b =~= a);
    } else {
        assert((a + b).drop_last() =~= a + b.drop_last());
        lemma_applied_joins(have, a, b.drop_last());
    }
}

/// Where a replacement stands.
#[derive(Debug, Clone, Copy, PartialEq, Eq, Structural)]
pub enum Stage {
    /// Waiting to hear whether this entry is valid.
    Checking(usize),
    /// Waiting for what the file holds now.
    Loading,
    /// Waiting for this rewrite to be carried out.
    Writing(usize),
    /// Waiting for what the file holds after the writes.
    Reloading,
    Over,
}

/// How the last action went.
#[derive(Debug, Clone, PartialEq, Eq)]
pub enum Outcome {
    Passed,
    /// What went wrong, in words.
    Refused(String),
    /// What the file holds.
    Loaded(Vec<McpConfiguration>),
}

/// What a request to replace the inventory is answered.
#[derive(Debug, Clone, PartialEq, Eq)]
pub enum Answer {
    /// There is no configuration file to write to.
    NoFile,
    BadRequest(String),
    Failed(String),
    /// The servers the file now names, and the list that is shown.
    Saved(Vec<McpConfiguration>, Inventory),
}

/// What to do next.
#[derive(Debug, Clone, PartialEq, Eq)]
pub enum Action {
    /// Validate this entry of what is wanted.
    Validate(usize),
    /// Read what the file holds now, not what the process came up with.
    Load,
    /// Carry out this rewrite.
    Write(usize),
    /// Read back what was written, so that what is shown is what a restart will read.
    Reload,
    Answer(Answer),
}

/// A replacement of the inventory under way.
#[derive(Debug)]
pub struct Replacement {
    pub config_file: Option<String>,
    pub wanted: Vec<McpConfiguration>,
    pub rewrites: Vec<Rewrite>,
    pub stage: Stage,
}

pub open spec fn twin_message(name: Seq<char>) -> Seq<char> {
    "two MCP servers named '"@ + name + "'"@
}

impl Answer {
    pub open spec fn status_spec(&self) -> u16 {
        match self {
            Answer::NoFile => 501,
            Answer::BadRequest(_) => 400,
            Answer::Failed(_) => 500,
            Answer::Saved(_, _) => 200,
        }
    }

    /// The HTTP status of the answer.
    pub fn status(&self) -> (code: u16)
        ensures
            code == self.status_spec(),
    {
        match self {
            Answer::NoFile => 501,
            Answer::BadRequest(_) => 400,
            Answer::Failed(_) => 500,
            Answer::Saved(_, _) => 200,
        }
    }
}

impl Replacement {
    pub open spec fn wanted_servers(&self) -> Seq<Server> {
        servers(self.wanted@)
    }

    /// The stage points at something that is there, past the checks every name is its own, and
    /// before the file was read nothing is to be rewritten.
    pub open spec fn sound(&self) -> bool {
        &&& self.stage matches Stage::Checking(k) ==> k < self.wanted@.len()
        &&& self.stage matches Stage::Writing(k) ==> k < self.rewrites@.len()
        &&& (self.stage is Loading || self.stage is Writing || self.stage is Reloading)
            ==> distinct_names(self.wanted_servers())
        &&& (self.stage is Checking || self.stage is Loading) ==> self.rewrites@.len() == 0
    }

    /// Whether an outcome is one the stage waits for.
    pub open spec fn awaits(&self, outcome: Outcome) -> bool {
        match self.stage {
            Stage::Checking(_) | Stage::Writing(_) => !(outcome is Loaded),
            Stage::Loading | Stage::Reloading => !(outcome is Passed),
            Stage::Over => false,
        }
    }

    /// Takes up a request: nothing can be done without a file; otherwise the entries are checked
    /// first, and a list of none goes straight on to the file.
    pub fn begin(config_file: &Option<String>, sent: &Vec<McpView>) -> (begun: (Replacement, Action))
        ensures
            begun.0.sound(),
            begun.0.wanted_servers() == shown(sent@).map_values(|s: Server| trimmed(s)),
            text_of(begun.0.config_file) == text_of(*config_file),
            begun.0.rewrites@.len() == 0,
            if config_file is None {
                begun.0.stage is Over && begun.1 == Action::Answer(Answer::NoFile)
            } else if sent@.len() == 0 {
                begun.0.stage is Loading && begun.1 is Load
            } else {
                begun.0.stage == Stage::Checking(0) && begun.1 == Action::Validate(0)
            },
    {
        let wanted = wanted_of(sent);
        let path = match config_file {
            Some(p) => Some(p.clone()),
            None => None,
        };
        assert(servers(wanted@).len() == sent@.len());
        let (stage, action): (Stage, Action) = if path.is_none() {
            (Stage::Over, Action::Answer(Answer::NoFile))
        } else if wanted.len() == 0 {
            (Stage::Loading, Action::Load)
        } else {
            (Stage::Checking(0), Action::Validate(0))
        };
        (Replacement { config_file: path, wanted, rewrites: Vec::new(), stage }, action)
    }

    /// Goes on from an outcome to the next action.
    pub fn advance(&mut self, outcome: Outcome) -> (action: Action)
        requires
            old(self).sound(),
            old(self).awaits(outcome),
        ensures
            final(self).sound(),
            final(self).wanted == old(self).wanted,
            final(self).config_file == old(self).config_file,
            !(old(self).stage is Loading && outcome is Loaded) ==> final(self).rewrites == old(
                self,
            ).rewrites,
            action matches Action::Answer(Answer::BadRequest(_)) ==> final(self).rewrites@.len() == 0,
            match (old(self).stage, outcome) {
                (Stage::Checking(_), Outcome::Refused(why)) => final(self).stage is Over && action
                    == Action::Answer(Answer::BadRequest(why)),
                (Stage::Checking(k), _) => if k + 1 < old(self).wanted@.len() {
                    final(self).stage == Stage::Checking((k + 1) as usize) && action
                        == Action::Validate((k + 1) as usize)
                } else {
                    match first_twin(old(self).wanted_servers(), 0) {
                        Some(name) => final(self).stage is Over && (action matches Action::Answer(
                            Answer::BadRequest(why),
                        ) && why@ == twin_message(name)),
                        None => final(self).stage is Loading && action is Load,
                    }
                },
                (Stage::Loading, Outcome::Loaded(current)) => {
                    &&& changes(final(self).rewrites@) == removals(
                        servers(current@),
                        old(self).wanted_servers(),
                    ) + writes(servers(current@), old(self).wanted_servers())
                    &&& if final(self).rewrites@.len() == 0 {
                        final(self).stage is Reloading && action is Reload
                    } else {
                        final(self).stage == Stage::Writing(0) && action == Action::Write(0)
                    }
                },
                (Stage::Writing(k), Outcome::Passed) => if k + 1 < old(self).rewrites@.len() {
                    final(self).stage == Stage::Writing((k + 1) as usize) && action
                        == Action::Write((k + 1) as usize)
                } else {
                    final(self).stage is Reloading && action is Reload
                },
                (Stage::Reloading, Outcome::Loaded(now)) => final(self).stage is Over && (
                action matches Action::Answer(Answer::Saved(kept, list)) && kept == now && shown(
                    list.servers@,
                ) == servers(now@) && text_of(list.path) == text_of(old(self).config_file)
                    && list.restart_required),
                (_, Outcome::Refused(why)) => final(self).stage is Over && action == Action::Answer(
                    Answer::Failed(why),
                ),
                _ => true,
            },
    {
        match (self.stage, outcome) {
            (Stage::Checking(_), Outcome::Refused(why)) => {
                self.stage = Stage::Over;
                Action::Answer(Answer::BadRequest(why))
            },
            (Stage::Checking(k), _) => {
                if k < self.wanted.len() - 1 {
                    self.stage = Stage::Checking(k + 1);
                    return Action::Validate(k + 1);
                }
                match find_twin(&self.wanted) {
                    Some(name) => {
                        self.stage = Stage::Over;
                        let mut why = String::new();
                        why.append("two MCP servers named '");
                        why.append(name.as_str());
                        why.append("'");
                        assert(why@ =~= twin_message(name@));
                        Action::Answer(Answer::BadRequest(why))
                    },
                    None => {
                        self.stage = Stage::Loading;
                        Action::Load
                    },
                }
            },
            (Stage::Loading, Outcome::Loaded(current)) => {
                let list = rewrites(&current, &self.wanted);
                let none = list.len() == 0;
                self.rewrites = list;
                if none {
                    self.stage = Stage::Reloading;
                    Action::Reload
                } else {
                    self.stage = Stage::Writing(0);
                    Action::Write(0)
                }
            },
            (Stage::Writing(k), Outcome::Passed) => {
                if k < self.rewrites.len() - 1 {
                    self.stage = Stage::Writing(k + 1);
                    Action::Write(k + 1)
                } else {
                    self.stage = Stage::Reloading;
                    Action::Reload
                }
            },
            (Stage::Reloading, Outcome::Loaded(now)) => {
                self.stage = Stage::Over;
                let list = inventory(&now, &self.config_file, true);
                Action::Answer(Answer::Saved(now, list))
            },
            (_, Outcome::Refused(why)) => {
                self.stage = Stage::Over;
                Action::Answer(Answer::Failed(why))
            },
            (_, _) => {
                assert(false);
                Action::Reload
            },
        }
    }
}

/// A name finds the first server that has it.
pub proof fn law_a_name_finds_its_first_server(list: Seq<Server>, name: Seq<char>, from: int)
    requires
        0 <= from,
    ensures
        match named(list, name, from) {
            Some(i) => from <= i < list.len() && list[i].name == name && forall|k: int|
                from <= k < i ==> (#[trigger] list[k]).name != name,
            None => forall|k: int| from <= k < list.len() ==> (#[trigger] list[k]).name != name,
        },
    decreases list.len() - from,
{
    if from < list.len() {
        law_a_name_finds_its_first_server(list, name, from + 1);
    }
}

/// What the console sends is wanted without the white space around its texts, and otherwise as it
/// is.
pub proof fn law_what_is_sent_is_trimmed(s: Server)
    ensures
        trimmed(s).name == text::trim_spec(s.name),
        trimmed(s).endpoint == text::trim_spec(s.endpoint),
        trimmed(s).approval_mode == text::trim_spec(s.approval_mode),
        trimmed(s).enabled == s.enabled,
{
}

/// A list is refused for its names exactly where two of its servers share one, and the name that
/// is told is such a name.
pub proof fn law_two_of_one_name_are_refused(list: Seq<Server>)
    ensures
        first_twin(list, 0) is None <==> forall|i: int, j: int|
            0 <= i < j < list.len() ==> (#[trigger] list[i]).name != (#[trigger] list[j]).name,
        first_twin(list, 0) matches Some(name) ==> exists|i: int, j: int|
            0 <= i < j < list.len() && (#[trigger] list[i]).name == name && (
            #[trigger] list[j]).name == name,
{
    lemma_twin(list, 0);
}

proof fn lemma_twin(list: Seq<Server>, from: int)
    requires
        0 <= from <= list.len(),
    ensures
        first_twin(list, from) is None <==> forall|i: int, j: int|
            0 <= i < j < list.len() && from <= j ==> (#[trigger] list[i]).name != (
            #[trigger] list[j]).name,
        first_twin(list, from) matches Some(name) ==> exists|i: int, j: int|
            0 <= i < j < list.len() && (#[trigger] list[i]).name == name && (
            #[trigger] list[j]).name == name,
    decreases list.len() - from,
{
    if from < list.len() {
        let head = list.take(from);
        law_a_name_finds_its_first_server(head, list[from].name, 0);
        if let Some(i) = named(head, list[from].name, 0) {
            assert(head[i] == list[i]);
            assert(list[i].name == list[from].name);
        } else {
            lemma_twin(list, from + 1);
            assert forall|i: int| 0 <= i < from implies (#[trigger] list[i]).name
                != list[from].name by {
                assert(head[i] == list[i]);
            }
        }
    }
}

/// Only what has to be is rewritten: a section is removed where the list has no server of its
/// name, and written where the file does not hold that very server.
pub proof fn law_only_what_changed_is_rewritten(current: Seq<Server>, wanted: Seq<Server>, k: int)
    ensures
        ({
            let gone = removals(current, wanted);
            0 <= k < gone.len() ==> gone[k].config is None && (exists|i: int|
                0 <= i < current.len() && (#[trigger] current[i]).name == gone[k].name) && forall|
                j: int,
            |
                0 <= j < wanted.len() ==> (#[trigger] wanted[j]).name != gone[k].name
        }),
        ({
            let put = writes(current, wanted);
            0 <= k < put.len() ==> (put[k].config matches Some(mcp) && mcp.name == put[k].name
                && wanted.contains(mcp) && !current.contains(mcp))
        }),
{
    lemma_only_gone(current, wanted, k);
    lemma_only_new(current, wanted, k);
}

proof fn lemma_only_gone(current: Seq<Server>, wanted: Seq<Server>, k: int)
    ensures
        ({
            let gone = removals(current, wanted);
            0 <= k < gone.len() ==> gone[k].config is None && (exists|i: int|
                0 <= i < current.len() && (#[trigger] current[i]).name == gone[k].name) && forall|
                j: int,
            |
                0 <= j < wanted.len() ==> (#[trigger] wanted[j]).name != gone[k].name
        }),
    decreases current.len(),
{
    if current.len() > 0 {
        let rest = current.drop_last();
        lemma_only_gone(rest, wanted, k);
        let last = current.last();
        law_a_name_finds_its_first_server(wanted, last.name, 0);
        let before = removals(rest, wanted);
        let gone = removals(current, wanted);
        if 0 <= k < before.len() {
            assert(gone[k] == before[k]);
            let i = choose|i: int| 0 <= i < rest.len() && (#[trigger] rest[i]).name == before[k].name;
            assert(current[i].name == gone[k].name);
        } else if k == before.len() && k < gone.len() {
            assert(current[current.len() - 1].name == gone[k].name);
        }
    }
}

proof fn lemma_only_new(current: Seq<Server>, wanted: Seq<Server>, k: int)
    ensures
        ({
            let put = writes(current, wanted);
            0 <= k < put.len() ==> (put[k].config matches Some(mcp) && mcp.name == put[k].name
                && wanted.contains(mcp) && !current.contains(mcp))
        }),
    decreases wanted.len(),
{
    if wanted.len() > 0 {
        let rest = wanted.drop_last();
        lemma_only_new(current, rest, k);
        let before = writes(current, rest);
        let put = writes(current, wanted);
        if 0 <= k < before.len() {
            assert(put[k] == before[k]);
            let mcp = put[k].config->0;
            let i = choose|i: int| 0 <= i < rest.len() && rest[i] == mcp;
            assert(wanted[i] == mcp);
        } else if k == before.len() && k < put.len() {
            assert(wanted[wanted.len() - 1] == put[k].config->0);
        }
    }
}

/// The status of each answer: only a save is a success, what was sent is told apart from what
/// failed, and a server without a file cannot save at all.
pub proof fn law_only_a_save_succeeds(answer: Answer)
    ensures
        answer is Saved ==> answer.status_spec() == 200,
        answer is BadRequest ==> answer.status_spec() == 400,
        answer is Failed ==> answer.status_spec() == 500,
        answer is NoFile ==> answer.status_spec() == 501,
{
}

} // verus!
