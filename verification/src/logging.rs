//! Where a process writes what it has to say while it runs — the terminal, or a file — resolved
//! from two keys of its config section: `log_type` (`console`, the default, or `file`) and
//! `log_path` (for `file`: the file, by default named after the section, in the directory the
//! process was started from).
//!
//! On the console a record is the bare message, `info` on stdout and `warn` or `error` on stderr.
//! Only a file gets a timestamp and a level in front of each line.

use vstd::prelude::*;
use vstd::string::*;
use crate::session_picker;
use crate::session_picker::padded;
use crate::text;

verus! {

/// The `log_type` value that keeps the console — the default.
pub const LOG_TYPE_CONSOLE: &'static str = "console";

/// The `log_type` value that sends everything to `log_path` instead.
pub const LOG_TYPE_FILE: &'static str = "file";

/// Every accepted `log_type`, in the order a prompt offers them.
pub const LOG_TYPES: [&'static str; 2] = [LOG_TYPE_CONSOLE, LOG_TYPE_FILE];

/// Where a process logs — `log_type` and `log_path`, resolved.
#[derive(Clone, Debug, PartialEq, Eq)]
pub enum LogTarget {
    /// `log_type = console` (or no `log_type` at all): the terminal.
    Console,
    /// `log_type = file`: everything is appended to this file. Absolute — a daemon changes its
    /// working directory once detached, so a relative path is resolved against the directory the
    /// process was started in *before* that happens, and a leading `~` against the home
    /// directory.
    File(String),
}

pub ghost enum Target {
    Console,
    File(Seq<char>),
}

impl View for LogTarget {
    type V = Target;

    open spec fn view(&self) -> Target {
        match self {
            LogTarget::Console => Target::Console,
            LogTarget::File(path) => Target::File(path@),
        }
    }
}

impl Default for LogTarget {
    fn default() -> (target: LogTarget)
        ensures
            target@ == Target::Console,
    {
        LogTarget::Console
    }
}

/// An unknown `log_type`: the section it stands in, and what it says.
#[derive(Clone, Debug, PartialEq, Eq)]
pub struct UnknownType {
    pub section: String,
    pub value: String,
}

#[verifier::ext_equal]
pub ghost struct Unknown {
    pub section: Seq<char>,
    pub value: Seq<char>,
}

impl View for UnknownType {
    type V = Unknown;

    open spec fn view(&self) -> Unknown {
        Unknown { section: self.section@, value: self.value@ }
    }
}

impl UnknownType {
    pub fn message(&self) -> (s: String)
        ensures
            s@ == "invalid value for ["@ + self.section@ + "].log_type: '"@ + self.value@
                + "' (expected "@ + LOG_TYPE_CONSOLE@ + " or "@ + LOG_TYPE_FILE@ + ")"@,
    {
        let mut s = "invalid value for [".to_string();
        s.append(self.section.as_str());
        s.append("].log_type: '");
        s.append(self.value.as_str());
        s.append("' (expected ");
        s.append(LOG_TYPE_CONSOLE);
        s.append(" or ");
        s.append(LOG_TYPE_FILE);
        s.append(")");
        s
    }
}

/// A text in lower case.
pub uninterp spec fn lowercase_of(s: Seq<char>) -> Seq<char>;

/// Whether a text is ASCII throughout.
pub open spec fn all_ascii(s: Seq<char>) -> bool {
    forall|i: int| 0 <= i < s.len() ==> (#[trigger] s[i] as u32) < 128
}

/// `str::to_lowercase` of the standard library, a function of the text alone. Of ASCII text it
/// turns each capital into its small letter and leaves the rest.
#[verifier::external_body]
fn lowercase(s: &str) -> (t: String)
    ensures
        t@ == lowercase_of(s@),
        all_ascii(s@) ==> t@ == text::lower_all(s@),
{
    s.to_lowercase()
}

/// `home::home_dir`, as text. Which directory that is depends on the environment and the user, so
/// nothing is said of it; one whose name is not Unicode counts as none.
#[verifier::external_body]
fn home_dir() -> (home: Option<String>) {
    home::home_dir()?.into_os_string().into_string().ok()
}

/// What a path ends in: what follows its last slash, or all of it where it has none.
pub open spec fn last_name(path: Seq<char>) -> Seq<char>
    decreases path.len(),
{
    if path.len() == 0 || path.last() == '/' {
        Seq::empty()
    } else {
        last_name(path.drop_last()).push(path.last())
    }
}

/// What comes before a name's first dot.
pub open spec fn stem(name: Seq<char>) -> Seq<char>
    decreases name.len(),
{
    if name.len() == 0 || name[0] == '.' {
        Seq::empty()
    } else {
        seq![name[0]] + stem(name.drop_first())
    }
}

/// Whether a stem, in small letters, is the name of a device on some platform.
pub open spec fn is_device(stem: Seq<char>) -> bool {
    ||| stem == seq!['c', 'o', 'n']
    ||| stem == seq!['p', 'r', 'n']
    ||| stem == seq!['a', 'u', 'x']
    ||| stem == seq!['n', 'u', 'l']
    ||| stem.len() == 4 && (stem.take(3) == seq!['c', 'o', 'm'] || stem.take(3) == seq![
        'l',
        'p',
        't',
    ])
}

/// A character that stands for itself in a file's name on every platform.
pub open spec fn is_plain_char(c: char) -> bool {
    'a' <= c <= 'z' || 'A' <= c <= 'Z' || '0' <= c <= '9' || c == '-' || c == '_' || c == '.' || c
        == '~'
}

/// Whether a name is that of a file on every platform, as it stands.
pub open spec fn is_plain(name: Seq<char>) -> bool {
    &&& name.len() > 0
    &&& forall|i: int| 0 <= i < name.len() ==> is_plain_char(#[trigger] name[i])
    &&& name.last() != '.'
    &&& !is_device(text::lower_all(stem(name)))
}

/// Whether a path is an absolute one: it starts with a root, or with a drive and a root.
pub open spec fn is_rooted(path: Seq<char>) -> bool {
    ||| path.len() > 0 && (path[0] == '/' || path[0] == '\\')
    ||| path.len() > 2 && path[1] == ':' && (path[2] == '/' || path[2] == '\\')
}

/// Whether a path is made of plain names with single slashes between them, none of them beginning
/// with a dot, and nothing behind the last.
pub open spec fn is_tidy(path: Seq<char>) -> bool {
    &&& path.len() > 0
    &&& path.last() != '/'
    &&& path[0] != '.'
    &&& forall|i: int| 0 <= i < path.len() ==> #[trigger] path[i] == '/' || is_plain_char(path[i])
    &&& forall|i: int|
        0 < i < path.len() && path[i - 1] == '/' ==> #[trigger] path[i] != '/' && path[i] != '.'
}

/// Whether a used path is what a path can be made absolute to. It is absolute, and ends in the
/// name the path ends in, where that is one that no platform reads as something else. Where
/// absolute paths begin with a slash, a tidy one that does is kept as it is, and any other tidy
/// one is put behind a directory.
pub open spec fn anchors(path: Seq<char>, used: Seq<char>) -> bool {
    &&& path.len() > 0
    &&& is_rooted(used)
    &&& is_plain(last_name(path)) ==> text::ends(used, last_name(path))
    &&& is_tidy(path) && used[0] == '/' ==> if path[0] == '/' {
        used == path
    } else {
        text::ends(used, seq!['/'] + path)
    }
}

/// `std::path::absolute`, as text. An empty path has no absolute form. An absolute path that has
/// nothing to resolve in it is kept, and a relative one is put behind the current directory.
/// Which directory that is depends on the process and on the platform, so no more is said of it;
/// a path that is not Unicode counts as none.
#[verifier::external_body]
fn absolute_path(path: &str) -> (absolute: Option<String>)
    ensures
        absolute matches Some(a) ==> anchors(path@, a@),
{
    std::path::absolute(path).ok()?.into_os_string().into_string().ok()
}

/// Whether a used path can stand for a path: made absolute or, where that cannot be done, as it
/// was given.
pub open spec fn stands_for(path: Seq<char>, used: Seq<char>) -> bool {
    used == path || anchors(path, used)
}

proof fn lemma_ends_in_last_name(path: Seq<char>)
    ensures
        text::ends(path, last_name(path)),
        last_name(path).len() <= path.len(),
    decreases path.len(),
{
    if path.len() > 0 && path.last() != '/' {
        let rest = path.drop_last();
        lemma_ends_in_last_name(rest);
        let at = rest.len() - last_name(rest).len();
        assert(path.subrange(at as int, path.len() as int) =~= rest.subrange(
            at as int,
            rest.len() as int,
        ).push(path.last()));
    } else {
        assert(path.subrange(path.len() as int, path.len() as int) =~= Seq::empty());
    }
}

/// A name without a slash is what a path ends in, behind a slash or by itself.
proof fn lemma_last_name(directory: Seq<char>, rest: Seq<char>)
    requires
        directory.len() == 0 || directory.last() == '/',
    ensures
        last_name(directory + rest) == last_name(rest),
    decreases rest.len(),
{
    let whole = directory + rest;
    if rest.len() == 0 {
        assert(whole =~= directory);
    } else {
        assert(whole.drop_last() =~= directory + rest.drop_last());
        lemma_last_name(directory, rest.drop_last());
    }
}

/// A name of plain characters is what it ends in.
proof fn lemma_plain_name(name: Seq<char>)
    requires
        forall|i: int| 0 <= i < name.len() ==> is_plain_char(#[trigger] name[i]),
    ensures
        last_name(name) == name,
    decreases name.len(),
{
    if name.len() > 0 {
        let rest = name.drop_last();
        assert(forall|i: int| 0 <= i < rest.len() ==> #[trigger] rest[i] == name[i]);
        lemma_plain_name(rest);
        assert(is_plain_char(name[name.len() - 1]));
        assert(rest.push(name.last()) =~= name);
    }
}

/// A key's value without white space around it, where there is anything else.
pub open spec fn set_value(value: Option<Seq<char>>) -> Option<Seq<char>> {
    match value {
        Some(v) => if text::trim_spec(v).len() > 0 { Some(text::trim_spec(v)) } else { None },
        None => None,
    }
}

pub open spec fn str_view(value: Option<&str>) -> Option<Seq<char>> {
    match value {
        Some(v) => Some(v@),
        None => None,
    }
}

pub open spec fn string_view(value: Option<String>) -> Option<Seq<char>> {
    match value {
        Some(v) => Some(v@),
        None => None,
    }
}

fn set(value: Option<&str>) -> (trimmed: Option<String>)
    ensures
        string_view(trimmed) == set_value(str_view(value)),
{
    match value {
        Some(v) => {
            let trimmed = text::trim(v);
            let chars = text::chars_of(trimmed.as_str());
            if chars.len() > 0 {
                Some(trimmed)
            } else {
                None
            }
        },
        None => None,
    }
}

/// What a `log_type` asks for.
pub ghost enum Wanted {
    Console,
    File,
    Unknown(Seq<char>),
}

/// What a value asks for, in lower case.
pub open spec fn wanted_by(value: Seq<char>) -> Wanted {
    if value.len() == 0 || value == LOG_TYPE_CONSOLE@ {
        Wanted::Console
    } else if value == LOG_TYPE_FILE@ {
        Wanted::File
    } else {
        Wanted::Unknown(value)
    }
}

pub open spec fn wanted_of(log_type: Option<Seq<char>>) -> Wanted {
    match log_type {
        None => Wanted::Console,
        Some(v) => wanted_by(lowercase_of(text::trim_spec(v))),
    }
}

/// What a `log_type` in ASCII letters asks for.
pub open spec fn wanted_in_ascii(log_type: Option<Seq<char>>) -> Wanted {
    match log_type {
        None => Wanted::Console,
        Some(v) => wanted_by(text::lower_all(text::trim_spec(v))),
    }
}

/// Whether a `log_type` is in ASCII, white space around it aside.
pub open spec fn in_ascii(log_type: Option<Seq<char>>) -> bool {
    log_type matches Some(v) ==> all_ascii(text::trim_spec(v))
}

/// A text without the slashes it begins with.
pub open spec fn without_slashes(s: Seq<char>) -> Seq<char>
    decreases s.len(),
{
    if s.len() > 0 && s[0] == '/' {
        without_slashes(s.drop_first())
    } else {
        s
    }
}

/// A path below a directory: a slash between, unless the directory ends in one or is empty.
pub open spec fn below(directory: Seq<char>, rest: Seq<char>) -> Seq<char> {
    if directory.len() == 0 || directory.last() == '/' {
        directory + rest
    } else {
        directory + "/"@ + rest
    }
}

/// A path with a leading `~` as the home directory, where there is one.
pub open spec fn expanded(path: Seq<char>, home: Option<Seq<char>>) -> Seq<char> {
    if path.len() > 0 && path[0] == '~' {
        match home {
            Some(home) => below(home, without_slashes(path.drop_first())),
            None => path,
        }
    } else {
        path
    }
}

/// Expands a leading `~` or `~/` to the home directory.
pub fn expand_tilde(path: &str, home: &Option<String>) -> (full: String)
    ensures
        full@ == expanded(path@, string_view(*home)),
{
    let chars = text::chars_of(path);
    if chars.len() == 0 || chars[0] != '~' {
        return path.to_string();
    }
    match home {
        Some(home) => {
            let mut from: usize = 1;
            assert(chars@.skip(1) =~= path@.drop_first());
            while from < chars.len() && chars[from] == '/'
                invariant
                    1 <= from <= chars@.len(),
                    without_slashes(chars@.skip(from as int)) == without_slashes(
                        path@.drop_first(),
                    ),
                decreases chars.len() - from,
            {
                assert(chars@.skip(from as int).drop_first() =~= chars@.skip(from + 1));
                from = from + 1;
            }
            assert(chars@.subrange(from as int, chars@.len() as int) =~= chars@.skip(from as int));
            let rest = text::string_of(&chars, from, chars.len());
            let directory = text::chars_of(home.as_str());
            let mut full = home.clone();
            if directory.len() > 0 && directory[directory.len() - 1] != '/' {
                full.append("/");
            }
            full.append(rest.as_str());
            full
        },
        None => path.to_string(),
    }
}

/// A path made absolute, or as it was given where that cannot be done.
pub open spec fn anchored_spec(path: Seq<char>, absolute: Option<Seq<char>>) -> Seq<char> {
    match absolute {
        Some(a) => a,
        None => path,
    }
}

/// The path to use, by what became of making it absolute.
pub fn anchored(path: String, absolute: Option<String>) -> (used: String)
    ensures
        used@ == anchored_spec(path@, string_view(absolute)),
{
    match absolute {
        Some(a) => a,
        None => path,
    }
}

/// The file a section logs to when `log_path` says nothing, before it is made absolute.
pub fn default_log_name(section: &str) -> (name: String)
    ensures
        name@ == section@ + ".log"@,
{
    let mut name = section.to_string();
    name.append(".log");
    name
}

/// The file of a section that says nothing of one, by what became of making its name absolute.
pub open spec fn default_path_spec(section: Seq<char>, absolute: Option<Seq<char>>) -> Seq<char> {
    anchored_spec(section + ".log"@, absolute)
}

/// The file of a section that says nothing of one, by what became of making its name absolute.
pub fn default_path(section: &str, absolute: Option<String>) -> (path: String)
    ensures
        path@ == default_path_spec(section@, string_view(absolute)),
{
    anchored(default_log_name(section), absolute)
}

/// The file `log_type = file` writes to when `log_path` says nothing: `<section>.log`, in the
/// directory the process was started from, resolved right now so that a daemon's later move
/// doesn't change where the file is. Which directory that is depends on the process; without one
/// the name stays as it is.
pub fn default_log_path(section: &str) -> (path: String)
    ensures
        stands_for(section@ + ".log"@, path@),
        is_plain(section@ + ".log"@) ==> text::ends(path@, section@ + ".log"@),
        is_plain(last_name(section@ + ".log"@)) ==> text::ends(
            path@,
            last_name(section@ + ".log"@),
        ),
{
    let name = default_log_name(section);
    let absolute = absolute_path(name.as_str());
    proof {
        lemma_ends_in_last_name(name@);
        if is_plain(name@) {
            lemma_plain_name(name@);
        }
    }
    default_path(section, absolute)
}

/// The name of the file the keys ask for: the section's own, or the one given, without the `~`
/// that stands for the home directory.
pub open spec fn name_asked(section: Seq<char>, log_path: Option<Seq<char>>) -> Seq<char> {
    match set_value(log_path) {
        None => section + ".log"@,
        Some(path) => if path[0] == '~' {
            without_slashes(path.drop_first())
        } else {
            path
        },
    }
}

/// A text without the slashes it begins with follows them.
proof fn lemma_slashes(s: Seq<char>) -> (slashes: Seq<char>)
    ensures
        s == slashes + without_slashes(s),
        slashes.len() == 0 || slashes.last() == '/',
    decreases s.len(),
{
    if s.len() > 0 && s[0] == '/' {
        let rest = lemma_slashes(s.drop_first());
        let slashes = seq!['/'] + rest;
        assert(s =~= seq!['/'] + s.drop_first());
        assert(s =~= slashes + without_slashes(s.drop_first()));
        slashes
    } else {
        assert(s =~= Seq::empty() + s);
        Seq::empty()
    }
}

/// A plain name behind a tilde is plain.
proof fn lemma_tilde_is_plain(name: Seq<char>)
    requires
        is_plain(name),
    ensures
        is_plain(seq!['~'] + name),
{
    let whole = seq!['~'] + name;
    assert forall|i: int| 0 <= i < whole.len() implies is_plain_char(#[trigger] whole[i]) by {
        if i > 0 {
            assert(whole[i] == name[i - 1]);
        }
    }
    assert(stem(whole)[0] == '~');
    let low = text::lower_all(stem(whole));
    assert(low[0] == '~');
    if low.len() == 4 {
        assert(low.take(3)[0] == '~');
    }
}

/// The path the keys choose ends in the name they ask for, and where that is plain the path ends
/// in a plain name.
proof fn lemma_name_asked(section: Seq<char>, log_path: Option<Seq<char>>, home: Option<Seq<char>>)
    ensures
        ({
            let path = match set_value(log_path) {
                Some(path) => expanded(path, home),
                None => section + ".log"@,
            };
            let name = last_name(name_asked(section, log_path));
            &&& text::ends(last_name(path), name)
            &&& is_plain(name) ==> is_plain(last_name(path))
        }),
{
    let name = last_name(name_asked(section, log_path));
    assert(name.subrange(0, name.len() as int) =~= name);
    match set_value(log_path) {
        Some(path) => {
            if path[0] == '~' {
                let tail = path.drop_first();
                let rest = without_slashes(tail);
                match home {
                    Some(home) => {
                        if home.len() == 0 || home.last() == '/' {
                            lemma_last_name(home, rest);
                        } else {
                            reveal_strlit("/");
                            lemma_last_name(home + "/"@, rest);
                        }
                    },
                    None => {
                        let slashes = lemma_slashes(tail);
                        assert(path =~= seq!['~'] + tail);
                        assert(path =~= (seq!['~'] + slashes) + rest);
                        if slashes.len() > 0 {
                            lemma_last_name(seq!['~'] + slashes, rest);
                        } else {
                            assert(path =~= seq!['~'] + rest);
                            lemma_behind_tilde(rest);
                        }
                    },
                }
            }
        },
        None => {},
    }
}

/// What ends in a text ends in what that text ends in.
proof fn lemma_ends_chain(whole: Seq<char>, middle: Seq<char>, part: Seq<char>)
    requires
        text::ends(whole, middle),
        text::ends(middle, part),
    ensures
        text::ends(whole, part),
{
    let n = whole.len() as int;
    let m = middle.len() as int;
    assert(whole.subrange(n - part.len(), n) =~= whole.subrange(n - m, n).subrange(
        m - part.len(),
        m,
    ));
}

proof fn lemma_behind_tilde(rest: Seq<char>)
    ensures
        ({
            let (whole, name) = (last_name(seq!['~'] + rest), last_name(rest));
            &&& text::ends(whole, name)
            &&& is_plain(name) ==> is_plain(whole)
        }),
{
    lemma_tilde_name(rest);
    let (whole, name) = (last_name(seq!['~'] + rest), last_name(rest));
    if whole == name {
        assert(name.subrange(0, name.len() as int) =~= name);
    } else {
        assert(whole.subrange(1, whole.len() as int) =~= name);
        if is_plain(name) {
            lemma_tilde_is_plain(name);
        }
    }
}

proof fn lemma_tilde_name(rest: Seq<char>)
    ensures
        last_name(seq!['~'] + rest) == last_name(rest) || last_name(seq!['~'] + rest) == seq!['~']
            + last_name(rest),
    decreases rest.len(),
{
    let whole = seq!['~'] + rest;
    if rest.len() == 0 {
        assert(whole =~= seq!['~']);
        assert(whole.drop_last() =~= Seq::empty());
        assert(last_name(whole.drop_last()) =~= Seq::empty());
        assert(last_name(rest) =~= Seq::empty());
        assert(whole.last() == '~');
        assert(last_name(whole) =~= seq!['~'] + last_name(rest));
    } else {
        assert(whole.drop_last() =~= seq!['~'] + rest.drop_last());
        lemma_tilde_name(rest.drop_last());
        if rest.last() != '/' {
            assert((seq!['~'] + last_name(rest.drop_last())).push(rest.last()) =~= seq!['~']
                + last_name(rest));
        }
    }
}

/// Where the keys say to log, a file by its path before it is made absolute.
pub open spec fn chosen(
    section: Seq<char>,
    log_type: Option<Seq<char>>,
    log_path: Option<Seq<char>>,
    home: Option<Seq<char>>,
) -> Result<Target, Unknown> {
    chosen_by(wanted_of(log_type), section, log_path, home)
}

/// Where to log, by what is wanted.
pub open spec fn chosen_by(
    wanted: Wanted,
    section: Seq<char>,
    log_path: Option<Seq<char>>,
    home: Option<Seq<char>>,
) -> Result<Target, Unknown> {
    match wanted {
        Wanted::Console => Ok(Target::Console),
        Wanted::File => Ok(
            Target::File(
                match set_value(log_path) {
                    Some(path) => expanded(path, home),
                    None => section + ".log"@,
                },
            ),
        ),
        Wanted::Unknown(value) => Err(Unknown { section, value }),
    }
}

pub open spec fn chosen_view(target: Result<LogTarget, UnknownType>) -> Result<Target, Unknown> {
    match target {
        Ok(t) => Ok(t@),
        Err(e) => Err(e@),
    }
}

/// A target with its file made absolute.
pub open spec fn anchored_target(
    target: Result<Target, Unknown>,
    absolute: Option<Seq<char>>,
) -> Result<Target, Unknown> {
    match target {
        Ok(Target::File(path)) => Ok(Target::File(anchored_spec(path, absolute))),
        other => other,
    }
}

/// Whether a target is one that keys can come to in some process: what they choose, given some
/// home directory, with a file made absolute as far as that can be done.
pub open spec fn resolved_by(
    wanted: Wanted,
    section: Seq<char>,
    log_path: Option<Seq<char>>,
    target: Result<Target, Unknown>,
) -> bool {
    exists|home: Option<Seq<char>>|
        match #[trigger] chosen_by(wanted, section, log_path, home) {
            Ok(Target::File(path)) => target matches Ok(Target::File(used)) && stands_for(
                path,
                used,
            ),
            other => target == other,
        }
}

/// The log level of a record, or the least serious one that is let through.
#[derive(Clone, Copy, Debug, PartialEq, Eq, Structural)]
pub enum Level {
    Off,
    Error,
    Warn,
    Info,
}

/// Where a record goes on the console.
#[derive(Clone, Copy, Debug, PartialEq, Eq, Structural)]
pub enum Stream {
    Stdout,
    Stderr,
    Nowhere,
}

impl LogTarget {
    /// Reads a section's keys, given the home directory. A file's path is not made absolute yet.
    pub fn read_keys(
        section: &str,
        log_type: Option<&str>,
        log_path: Option<&str>,
        home: &Option<String>,
    ) -> (target: Result<LogTarget, UnknownType>)
        ensures
            chosen_view(target) == chosen(
                section@,
                str_view(log_type),
                str_view(log_path),
                string_view(*home),
            ),
            in_ascii(str_view(log_type)) ==> chosen_view(target) == chosen_by(
                wanted_in_ascii(str_view(log_type)),
                section@,
                str_view(log_path),
                string_view(*home),
            ),
    {
        let value = match log_type {
            Some(v) => lowercase(text::trim(v).as_str()),
            None => return Ok(LogTarget::Console),
        };
        let letters = text::chars_of(value.as_str());
        if letters.len() == 0 || text::same(value.as_str(), LOG_TYPE_CONSOLE) {
            return Ok(LogTarget::Console);
        }
        if !text::same(value.as_str(), LOG_TYPE_FILE) {
            return Err(UnknownType { section: section.to_string(), value });
        }
        match set(log_path) {
            Some(path) => Ok(LogTarget::File(expand_tilde(path.as_str(), home))),
            None => Ok(LogTarget::File(default_log_name(section))),
        }
    }

    /// The target with its file made absolute, by what became of that.
    pub fn anchor(self, absolute: Option<String>) -> (target: LogTarget)
        ensures
            Ok::<Target, Unknown>(target@) == anchored_target(
                Ok(self@),
                string_view(absolute),
            ),
    {
        match self {
            LogTarget::File(path) => LogTarget::File(anchored(path, absolute)),
            LogTarget::Console => LogTarget::Console,
        }
    }

    /// Resolves a section's `log_type` and `log_path` keys, as read from the config file (`None`
    /// for an absent key; a present-but-blank value is treated the same).
    ///
    /// `log_path` is only consulted when `log_type = file`, and falls back to
    /// [`default_log_path`]. An unknown `log_type` is an error naming the two accepted values
    /// rather than a silent console. The home directory and the current one are the process's.
    pub fn from_keys(section: &str, log_type: Option<&str>, log_path: Option<&str>) -> (target:
        Result<LogTarget, UnknownType>)
        ensures
            resolved_by(
                wanted_of(str_view(log_type)),
                section@,
                str_view(log_path),
                chosen_view(target),
            ),
            in_ascii(str_view(log_type)) ==> resolved_by(
                wanted_in_ascii(str_view(log_type)),
                section@,
                str_view(log_path),
                chosen_view(target),
            ),
            target matches Ok(t) ==> t@ matches Target::File(path) ==> set_value(
                str_view(log_path),
            ) matches Some(given) ==> is_tidy(given) && given[0] != '~' && path[0] == '/' ==> if given[0]
                == '/' {
                path == given
            } else {
                text::ends(path, seq!['/'] + given)
            },
            target matches Ok(t) ==> t@ matches Target::File(path) ==> set_value(
                str_view(log_path),
            ) is None ==> stands_for(section@ + ".log"@, path),
            target matches Ok(t) ==> t@ matches Target::File(path) ==> is_plain(
                last_name(name_asked(section@, str_view(log_path))),
            ) ==> text::ends(path, last_name(name_asked(section@, str_view(log_path)))),
            (target matches Ok(t) && t@ is Console) == (wanted_of(str_view(log_type)) is Console),
            (target matches Ok(t) && t@ is File) == (wanted_of(str_view(log_type)) is File),
            target matches Err(e) ==> e.section@ == section@ && wanted_of(str_view(log_type))
                == Wanted::Unknown(e.value@),
    {
        let home = home_dir();
        let ghost at_home = string_view(home);
        let ghost chosen_here = chosen(
            section@,
            str_view(log_type),
            str_view(log_path),
            at_home,
        );
        match LogTarget::read_keys(section, log_type, log_path, &home) {
            Ok(target) => {
                let absolute = match &target {
                    LogTarget::File(path) => absolute_path(path.as_str()),
                    LogTarget::Console => None,
                };
                let ghost before = target@;
                let resolved = target.anchor(absolute);
                proof {
                    assert(chosen_here == Ok::<Target, Unknown>(before));
                    if let Target::File(path) = before {
                        lemma_name_asked(section@, str_view(log_path), at_home);
                        lemma_ends_in_last_name(path);
                        let name = last_name(name_asked(section@, str_view(log_path)));
                        let used = resolved@->File_0;
                        if text::ends(used, last_name(path)) {
                            lemma_ends_chain(used, last_name(path), name);
                        }
                    }
                }
                Ok(resolved)
            },
            Err(e) => Err(e),
        }
    }

    /// The `log_type` spelling this target answers to.
    pub fn log_type(&self) -> (s: &'static str)
        ensures
            s@ == if self@ is Console {
                LOG_TYPE_CONSOLE@
            } else {
                LOG_TYPE_FILE@
            },
    {
        match self {
            LogTarget::Console => LOG_TYPE_CONSOLE,
            LogTarget::File(_) => LOG_TYPE_FILE,
        }
    }

    /// The file, when there is one.
    pub fn path(&self) -> (path: Option<&str>)
        ensures
            match path {
                Some(p) => self@ == Target::File(p@),
                None => self@ is Console,
            },
    {
        match self {
            LogTarget::Console => None,
            LogTarget::File(path) => Some(path.as_str()),
        }
    }

    pub fn is_console(&self) -> (yes: bool)
        ensures
            yes == (self@ is Console),
    {
        matches!(self, LogTarget::Console)
    }
}

/// How much of the log reaches the **console**. Says nothing about a file, which always gets
/// everything.
#[derive(Clone, Copy, Debug, PartialEq, Eq, Structural)]
pub enum Console {
    /// Everything — an attached run.
    Everything,
    /// Errors only — a quiet run, which keeps the reason a process exits.
    ErrorsOnly,
    /// Nothing at all — a daemon with the console as its log.
    Nothing,
}

/// The level a logger lets through: everything into a file, and on the console what it is asked
/// for.
pub fn level(target: &LogTarget, console: Console) -> (l: Level)
    ensures
        l == if target@ is File || console == Console::Everything {
            Level::Info
        } else if console == Console::ErrorsOnly {
            Level::Error
        } else {
            Level::Off
        },
{
    match (target, console) {
        (LogTarget::File(_), _) => Level::Info,
        (LogTarget::Console, Console::Everything) => Level::Info,
        (LogTarget::Console, Console::ErrorsOnly) => Level::Error,
        (LogTarget::Console, Console::Nothing) => Level::Off,
    }
}

/// The stream a record is written to: `info` is output, a warning or an error is not.
pub fn stream(record: Level) -> (s: Stream)
    ensures
        s == match record {
            Level::Info => Stream::Stdout,
            Level::Warn => Stream::Stderr,
            Level::Error => Stream::Stderr,
            Level::Off => Stream::Nowhere,
        },
{
    match record {
        Level::Info => Stream::Stdout,
        Level::Warn => Stream::Stderr,
        Level::Error => Stream::Stderr,
        Level::Off => Stream::Nowhere,
    }
}

/// One line of a log file: when, how serious, and what.
pub fn file_line(time: &str, level: &str, message: &str) -> (line: String)
    ensures
        line@ == time@ + " "@ + session_picker::padded_spec(level@, 5) + " "@ + message@,
{
    let mut line = time.to_string();
    line.append(" ");
    line.append(padded(level, 5).as_str());
    line.append(" ");
    line.append(message);
    line
}

/// With the console selected, a path is kept but not used: it changes nothing.
pub proof fn law_a_path_is_only_read_for_a_file(
    section: Seq<char>,
    log_type: Option<Seq<char>>,
    one: Option<Seq<char>>,
    other: Option<Seq<char>>,
    home: Option<Seq<char>>,
)
    requires
        !(wanted_of(log_type) is File),
    ensures
        chosen(section, log_type, one, home) == chosen(section, log_type, other, home),
{
}

/// A `log_path` that is absent or blank is the section's own file.
pub proof fn law_a_blank_path_is_no_path(
    section: Seq<char>,
    log_type: Option<Seq<char>>,
    blank: Seq<char>,
    home: Option<Seq<char>>,
)
    requires
        text::trim_spec(blank).len() == 0,
    ensures
        chosen(section, log_type, Some(blank), home) == chosen(section, log_type, None, home),
{
}

/// A resolved target, its type and its path read as keys again, chooses itself: whatever the
/// section and the home directory, the console stays the console, and a path with no white space
/// around it and no leading `~` is chosen as it stands. It stays so where it is absolute already,
/// or cannot be made so.
pub proof fn law_a_target_chooses_itself(
    section: Seq<char>,
    path: Seq<char>,
    home: Option<Seq<char>>,
)
    requires
        text::trim_spec(path) == path,
        path.len() > 0,
        path[0] != '~',
    ensures
        chosen_by(
            wanted_in_ascii(Some(LOG_TYPE_CONSOLE@)),
            section,
            None,
            home,
        ) == Ok::<Target, Unknown>(Target::Console),
        ({
            let again = chosen_by(wanted_in_ascii(Some(LOG_TYPE_FILE@)), section, Some(path), home);
            &&& again == Ok::<Target, Unknown>(Target::File(path))
            &&& anchored_target(again, Some(path)) == again
            &&& anchored_target(again, None) == again
        }),
{
    reveal_strlit("console");
    reveal_strlit("file");
    let (console, file) = (LOG_TYPE_CONSOLE@, LOG_TYPE_FILE@);
    assert(console =~= seq!['c', 'o', 'n', 's', 'o', 'l', 'e']);
    assert(file =~= seq!['f', 'i', 'l', 'e']);
    reveal_with_fuel(text::trim_start_spec, 2);
    reveal_with_fuel(text::trim_end_spec, 2);
    assert(text::trim_spec(console) == console);
    assert(text::trim_spec(file) == file);
    assert(text::lower_all(console) =~= console);
    assert(text::lower_all(file) =~= file);
    assert(file[0] != console[0]);
}

pub open spec fn type_spec(target: Target) -> Seq<char> {
    if target is Console { LOG_TYPE_CONSOLE@ } else { LOG_TYPE_FILE@ }
}

pub open spec fn path_spec(target: Target) -> Option<Seq<char>> {
    match target {
        Target::File(path) => Some(path),
        Target::Console => None,
    }
}

/// A resolved target, its type and its path read as keys again, comes back as itself, whatever
/// the section, the home directory and the directory the process is in by then: the console, and
/// a file under a tidy path that begins with a slash, where absolute paths do.
pub proof fn law_a_resolved_target_reads_back(
    section: Seq<char>,
    target: Target,
    again: Result<Target, Unknown>,
)
    requires
        target matches Target::File(path) ==> is_tidy(path) && path[0] == '/',
        resolved_by(
            wanted_in_ascii(Some(type_spec(target))),
            section,
            path_spec(target),
            again,
        ),
        again matches Ok(Target::File(path)) ==> path[0] == '/',
    ensures
        again == Ok::<Target, Unknown>(target),
{
    match target {
        Target::File(path) => {
            assert(!text::white(path[0]) && !text::white(path.last()));
            assert(text::trim_spec(path) == path);
            law_a_target_chooses_itself(section, path, None);
            let home = choose|home: Option<Seq<char>>|
                match #[trigger] chosen_by(
                    wanted_in_ascii(Some(type_spec(target))),
                    section,
                    path_spec(target),
                    home,
                ) {
                    Ok(Target::File(path)) => again matches Ok(Target::File(used)) && stands_for(
                        path,
                        used,
                    ),
                    other => again == other,
                };
            law_a_target_chooses_itself(section, path, home);
        },
        Target::Console => {
            let slash = seq!['/'];
            assert(text::trim_spec(slash) == slash);
            law_a_target_chooses_itself(section, slash, None);
        },
    }
}

/// A file target with an absent or blank path is the default log path: for one and the same
/// outcome of making a name absolute, both are the same file.
pub proof fn law_a_file_without_a_path_is_the_default(
    section: Seq<char>,
    log_path: Option<Seq<char>>,
    home: Option<Seq<char>>,
    absolute: Option<Seq<char>>,
)
    requires
        set_value(log_path) is None,
    ensures
        anchored_target(chosen_by(Wanted::File, section, log_path, home), absolute) == Ok::<
            Target,
            Unknown,
        >(Target::File(default_path_spec(section, absolute))),
{
}

/// The two types a section may ask for, the console first.
pub proof fn law_there_are_two_types()
    ensures
        LOG_TYPE_CONSOLE@ == "console"@,
        LOG_TYPE_FILE@ == "file"@,
        LOG_TYPES@[0]@ == "console"@,
        LOG_TYPES@[1]@ == "file"@,
{
}

/// A type is known in any case and with any white space around it; a blank one is the console, as
/// is none at all, and any other is named in small letters.
pub proof fn law_a_type_is_known_in_any_case(
    left: Seq<char>,
    value: Seq<char>,
    right: Seq<char>,
)
    requires
        text::all_white(left),
        text::all_white(right),
        value.len() > 0 ==> !text::white(value[0]) && !text::white(value.last()),
    ensures
        wanted_in_ascii(None) is Console,
        value.len() == 0 ==> wanted_in_ascii(Some(left + value + right)) is Console,
        text::lower_all(value) == "console"@ ==> wanted_in_ascii(
            Some(left + value + right),
        ) is Console,
        text::lower_all(value) == "file"@ ==> wanted_in_ascii(Some(left + value + right)) is File,
        value.len() > 0 && text::lower_all(value) != "console"@ && text::lower_all(value)
            != "file"@ ==> wanted_in_ascii(Some(left + value + right)) == Wanted::Unknown(
            text::lower_all(value),
        ),
{
    reveal_strlit("console");
    reveal_strlit("file");
    assert("console"@.len() == 7 && "file"@.len() == 4);
    text::law_trimming_takes_the_ends(left, value, right, ' ');
}

/// A path counts without the white space around it, and not at all where there is nothing else.
pub proof fn law_a_path_counts_without_its_white_space(
    left: Seq<char>,
    path: Seq<char>,
    right: Seq<char>,
)
    requires
        text::all_white(left),
        text::all_white(right),
        path.len() > 0 ==> !text::white(path[0]) && !text::white(path.last()),
    ensures
        set_value(None) is None,
        path.len() > 0 ==> set_value(Some(left + path + right)) == Some(path),
        path.len() == 0 ==> set_value(Some(left + path + right)) is None,
{
    text::law_trimming_takes_the_ends(left, path, right, ' ');
}

/// A leading tilde stands for the home directory, the slashes behind it for the one between; a
/// path without one is as it was, and so is every path where there is no home.
pub proof fn law_a_tilde_is_the_home_directory(
    home: Seq<char>,
    slashes: nat,
    rest: Seq<char>,
    path: Seq<char>,
)
    requires
        rest.len() == 0 || rest[0] != '/',
    ensures
        ({
            let tilde = seq!['~'] + Seq::new(slashes, |i: int| '/') + rest;
            &&& home.len() > 0 && home.last() != '/' ==> expanded(tilde, Some(home)) == home + seq![
                '/',
            ] + rest
            &&& home.len() == 0 || home.last() == '/' ==> expanded(tilde, Some(home)) == home + rest
            &&& expanded(path, None) == path
            &&& path.len() == 0 || path[0] != '~' ==> expanded(path, Some(home)) == path
        }),
{
    let run = Seq::new(slashes, |i: int| '/');
    let tilde = seq!['~'] + run + rest;
    assert(tilde[0] == '~');
    assert(tilde.drop_first() =~= run + rest);
    lemma_run_of_slashes(slashes, rest);
    reveal_strlit("/");
    assert("/"@ =~= seq!['/']);
}

proof fn lemma_run_of_slashes(slashes: nat, rest: Seq<char>)
    requires
        rest.len() == 0 || rest[0] != '/',
    ensures
        without_slashes(Seq::new(slashes, |i: int| '/') + rest) == rest,
    decreases slashes,
{
    let run = Seq::new(slashes, |i: int| '/');
    if slashes > 0 {
        let less = Seq::new((slashes - 1) as nat, |i: int| '/');
        lemma_run_of_slashes((slashes - 1) as nat, rest);
        assert((run + rest).drop_first() =~= less + rest);
    } else {
        assert(run + rest =~= rest);
    }
}

/// A path that was made absolute is used so, and otherwise as it was given.
pub proof fn law_an_absolute_path_is_used(path: Seq<char>, absolute: Seq<char>)
    ensures
        anchored_spec(path, Some(absolute)) == absolute,
        anchored_spec(path, None) == path,
        default_path_spec(path, None) == path + ".log"@,
        anchored_target(Ok(Target::File(path)), Some(absolute)) == Ok::<Target, Unknown>(
            Target::File(absolute),
        ),
        anchored_target(Ok(Target::Console), Some(absolute)) == Ok::<Target, Unknown>(
            Target::Console,
        ),
{
}

} // verus!
