//! The completion-script switch every binary carries: picking one of four hand-written scripts
//! from what the environment says of the shell, and the error that names the supported shells
//! when it cannot.

use vstd::prelude::*;
use vstd::string::*;
use crate::text;

verus! {

/// One binary's four completion scripts.
#[derive(Clone, Copy, Debug)]
pub struct Scripts {
    pub bash: &'static str,
    pub zsh: &'static str,
    pub fish: &'static str,
    pub powershell: &'static str,
}

/// No script for this `$SHELL` value.
#[derive(Clone, Debug, PartialEq, Eq)]
pub struct UnknownShell {
    pub binary: String,
    pub shell: String,
}

/// What is said of an undetectable shell: how to install the script for each one there is.
pub open spec fn unknown_shell_text(binary: Seq<char>, shell: Seq<char>) -> Seq<char> {
    "could not detect shell from $SHELL ("@ + text::debug_quoted(shell)
        + ").\nSupported shells: bash, zsh, fish, PowerShell.\n\nUsage:\n  bash:       eval \"$("@
        + binary + " -s)\"\n  zsh:        "@ + binary + " -s > ~/.zsh/completions/_"@ + binary
        + "\n  fish:       "@ + binary + " -s > ~/.config/fish/completions/"@ + binary
        + ".fish\n  PowerShell: "@ + binary + " -s | Out-String | Invoke-Expression"@
}

impl UnknownShell {
    pub fn message(&self) -> (s: String)
        ensures
            s@ == unknown_shell_text(self.binary@, self.shell@),
    {
        let binary = self.binary.as_str();
        let mut s = "could not detect shell from $SHELL (".to_string();
        s.append(text::debug_text(self.shell.as_str()).as_str());
        s.append(
            ").\nSupported shells: bash, zsh, fish, PowerShell.\n\nUsage:\n  bash:       eval \"$(",
        );
        s.append(binary);
        s.append(" -s)\"\n  zsh:        ");
        s.append(binary);
        s.append(" -s > ~/.zsh/completions/_");
        s.append(binary);
        s.append("\n  fish:       ");
        s.append(binary);
        s.append(" -s > ~/.config/fish/completions/");
        s.append(binary);
        s.append(".fish\n  PowerShell: ");
        s.append(binary);
        s.append(" -s | Out-String | Invoke-Expression");
        s
    }
}

pub open spec fn separates(c: char) -> bool {
    c == '/' || c == '\\'
}

/// A path's last component.
pub open spec fn last_component(path: Seq<char>) -> Seq<char>
    decreases path.len(),
{
    if path.len() == 0 || separates(path.last()) {
        Seq::empty()
    } else {
        last_component(path.drop_last()).push(path.last())
    }
}

/// A text without an `.exe` at its end.
pub open spec fn without_exe(s: Seq<char>) -> Seq<char> {
    if text::ends(s, ".exe"@) { s.take(s.len() - ".exe"@.len()) } else { s }
}

/// The name a shell goes by: the last component of its path, in lower case, an `.exe` ignored.
pub open spec fn shell_name(shell: Seq<char>) -> Seq<char> {
    without_exe(text::lower_all(last_component(shell)))
}

/// The script of a shell, or of PowerShell when nothing but its own mark says which shell it is.
pub open spec fn script_spec(
    shell: Seq<char>,
    in_powershell: bool,
    scripts: Scripts,
) -> Option<Seq<char>> {
    let name = shell_name(shell);
    if name == "bash"@ {
        Some(scripts.bash@)
    } else if name == "zsh"@ {
        Some(scripts.zsh@)
    } else if name == "fish"@ {
        Some(scripts.fish@)
    } else if name == "pwsh"@ || name == "powershell"@ || in_powershell {
        Some(scripts.powershell@)
    } else {
        None
    }
}

/// The part of a path behind its last separator.
fn component(path: &str) -> (last: String)
    ensures
        last@ == last_component(path@),
{
    let chars = text::chars_of(path);
    let mut from: usize = chars.len();
    assert(chars@.take(from as int) =~= path@);
    assert(chars@.skip(from as int) =~= Seq::empty());
    assert(last_component(path@) + Seq::<char>::empty() =~= last_component(path@));
    while from > 0 && chars[from - 1] != '/' && chars[from - 1] != '\\'
        invariant
            from <= chars@.len(),
            last_component(chars@.take(from as int)) + chars@.skip(from as int)
                == last_component(path@),
        decreases from,
    {
        assert(chars@.take(from as int).drop_last() =~= chars@.take(from - 1));
        assert(last_component(chars@.take(from - 1)).push(chars@[from - 1]) + chars@.skip(
            from as int,
        ) =~= last_component(chars@.take(from - 1)) + chars@.skip(from - 1));
        from = from - 1;
    }
    assert(Seq::<char>::empty() + chars@.skip(from as int) =~= chars@.subrange(
        from as int,
        chars@.len() as int,
    ));
    text::string_of(&chars, from, chars.len())
}

fn name_of(shell: &str) -> (name: String)
    ensures
        name@ == shell_name(shell@),
{
    let name = text::ascii_lowercase(component(shell).as_str());
    if text::ends_with(name.as_str(), ".exe") {
        let chars = text::chars_of(name.as_str());
        let suffix = text::chars_of(".exe");
        assert(chars@.subrange(0, chars@.len() - suffix@.len()) =~= chars@.take(
            chars@.len() - suffix@.len(),
        ));
        text::string_of(&chars, 0, chars.len() - suffix.len())
    } else {
        name
    }
}

/// Pick the completion script for a `$SHELL` value.
///
/// The value is matched by its last path component, with a `.exe` suffix ignored.
/// `in_powershell` is the fallback for a `$SHELL` that names nothing: PowerShell is the one shell
/// that announces itself another way. `binary` is the executable's own name, which only the error
/// uses.
pub fn script(binary: &str, shell: &str, in_powershell: bool, scripts: &Scripts) -> (picked: Result<
    &'static str,
    UnknownShell,
>)
    ensures
        match picked {
            Ok(s) => script_spec(shell@, in_powershell, *scripts) == Some(s@),
            Err(e) => script_spec(shell@, in_powershell, *scripts) is None && e.binary@ == binary@
                && e.shell@ == shell@,
        },
{
    let name = name_of(shell);
    if text::same(name.as_str(), "bash") {
        Ok(scripts.bash)
    } else if text::same(name.as_str(), "zsh") {
        Ok(scripts.zsh)
    } else if text::same(name.as_str(), "fish") {
        Ok(scripts.fish)
    } else if text::same(name.as_str(), "pwsh") || text::same(name.as_str(), "powershell")
        || in_powershell {
        Ok(scripts.powershell)
    } else {
        Err(UnknownShell { binary: binary.to_string(), shell: shell.to_string() })
    }
}

/// The script for the shell the environment names: `$SHELL`, or, failing that, PowerShell when
/// `$PSModulePath` holds anything.
pub fn detected(
    binary: &str,
    shell: Option<&str>,
    module_path_len: usize,
    scripts: &Scripts,
) -> (picked: Result<&'static str, UnknownShell>)
    ensures
        ({
            let value = match shell {
                Some(s) => s@,
                None => Seq::empty(),
            };
            match picked {
                Ok(s) => script_spec(value, module_path_len > 0, *scripts) == Some(s@),
                Err(e) => script_spec(value, module_path_len > 0, *scripts) is None && e.binary@
                    == binary@ && e.shell@ == value,
            }
        }),
{
    match shell {
        Some(s) => script(binary, s, module_path_len > 0, scripts),
        None => {
            let nothing = String::new();
            assert(nothing@ =~= Seq::empty());
            script(binary, nothing.as_str(), module_path_len > 0, scripts)
        },
    }
}

/// What ends a word of a script.
pub open spec fn breaks(c: char) -> bool {
    text::white(c) || c == '\'' || c == '"' || c == '{' || c == '}' || c == '[' || c == ']' || c
        == '(' || c == ')' || c == ',' || c == '|' || c == '=' || c == '*'
}

fn is_break(c: char) -> (yes: bool)
    ensures
        yes == breaks(c),
{
    text::is_white(c) || c == '\'' || c == '"' || c == '{' || c == '}' || c == '[' || c == ']' || c
        == '(' || c == ')' || c == ',' || c == '|' || c == '=' || c == '*'
}

/// A list of words with one more, unless it is empty.
pub open spec fn with_word(words: Seq<Seq<char>>, word: Seq<char>) -> Seq<Seq<char>> {
    if word.len() > 0 { words.push(word) } else { words }
}

/// The finished words of a text, and the one its end may still belong to.
pub open spec fn scanned(s: Seq<char>) -> (Seq<Seq<char>>, Seq<char>)
    decreases s.len(),
{
    if s.len() == 0 {
        (Seq::empty(), Seq::empty())
    } else {
        let (words, word) = scanned(s.drop_last());
        if breaks(s.last()) {
            (with_word(words, word), Seq::empty())
        } else {
            (words, word.push(s.last()))
        }
    }
}

/// The words of a script.
pub open spec fn tokens_spec(script: Seq<char>) -> Seq<Seq<char>> {
    with_word(scanned(script).0, scanned(script).1)
}

fn tokens(script: &str) -> (words: Vec<String>)
    ensures
        text::views(words@) == tokens_spec(script@),
{
    let chars = text::chars_of(script);
    let mut words: Vec<String> = Vec::new();
    let mut from: usize = 0;
    let mut i: usize = 0;
    assert(text::views(words@) =~= scanned(chars@.take(0)).0);
    assert(chars@.subrange(0, 0) =~= Seq::empty());
    while i < chars.len()
        invariant
            from <= i <= chars@.len(),
            text::views(words@) == scanned(chars@.take(i as int)).0,
            chars@.subrange(from as int, i as int) == scanned(chars@.take(i as int)).1,
        decreases chars.len() - i,
    {
        let ghost before = text::views(words@);
        let ghost word = chars@.subrange(from as int, i as int);
        assert(chars@.take(i + 1).drop_last() =~= chars@.take(i as int));
        assert(chars@.take(i + 1).last() == chars@[i as int]);
        if is_break(chars[i]) {
            if from < i {
                words.push(text::string_of(&chars, from, i));
                assert(text::views(words@) =~= before.push(word));
            }
            i = i + 1;
            from = i;
            assert(chars@.subrange(from as int, i as int) =~= Seq::empty());
        } else {
            i = i + 1;
            assert(chars@.subrange(from as int, i as int) =~= word.push(chars@[i - 1]));
        }
    }
    assert(chars@.take(i as int) =~= script@);
    let ghost before = text::views(words@);
    if from < i {
        words.push(text::string_of(&chars, from, i));
        assert(text::views(words@) =~= before.push(chars@.subrange(from as int, i as int)));
    }
    words
}

/// Whether two words stand in a row somewhere.
pub open spec fn in_a_row(words: Seq<Seq<char>>, first: Seq<char>, second: Seq<char>) -> bool {
    exists|i: int| 0 <= i < words.len() - 1 && #[trigger] words[i] == first && words[i + 1] == second
}

fn follows(words: &Vec<String>, first: &str, second: &str) -> (yes: bool)
    ensures
        yes == in_a_row(text::views(words@), first@, second@),
{
    let ghost all = text::views(words@);
    let mut i: usize = 0;
    while i < words.len() && i + 1 < words.len()
        invariant
            i <= words@.len(),
            all == text::views(words@),
            forall|k: int|
                0 <= k < i && k < all.len() - 1 ==> !(#[trigger] all[k] == first@ && all[k + 1]
                    == second@),
        decreases words.len() - i,
    {
        assert(all[i as int] == words@[i as int]@);
        assert(all[i + 1] == words@[i + 1]@);
        if text::same(words[i].as_str(), first) && text::same(words[i + 1].as_str(), second) {
            return true;
        }
        i = i + 1;
    }
    false
}

/// One argument of a parser: its long and short name, and whether it is kept out of the help.
#[derive(Clone, Debug, PartialEq, Eq)]
pub struct Argument {
    pub long: Option<String>,
    pub short: Option<char>,
    pub hidden: bool,
}

/// An [`Argument`] by its long name, its short name and whether it is hidden.
pub open spec fn argument_view(argument: Argument) -> (Option<Seq<char>>, Option<char>, bool) {
    (
        match argument.long {
            Some(s) => Some(s@),
            None => None,
        },
        argument.short,
        argument.hidden,
    )
}

pub open spec fn argument_views(list: Seq<Argument>) -> Seq<
    (Option<Seq<char>>, Option<char>, bool),
> {
    list.map_values(|a: Argument| argument_view(a))
}

/// The words of the four scripts.
#[verifier::ext_equal]
pub ghost struct Words {
    pub bash: Seq<Seq<char>>,
    pub zsh: Seq<Seq<char>>,
    pub fish: Seq<Seq<char>>,
    pub powershell: Seq<Seq<char>>,
}

pub open spec fn words_of(scripts: Scripts) -> Words {
    Words {
        bash: tokens_spec(scripts.bash@),
        zsh: tokens_spec(scripts.zsh@),
        fish: tokens_spec(scripts.fish@),
        powershell: tokens_spec(scripts.powershell@),
    }
}

/// A line for a flag that a shell's script does not offer.
pub open spec fn line_unless(offered: bool, shell: Seq<char>, flag: Seq<char>) -> Seq<Seq<char>> {
    if offered { Seq::empty() } else { seq![shell + flag] }
}

/// The shells that do not offer a flag; the fish script spells it as an option and a name.
pub open spec fn missing_flag(
    flag: Seq<char>,
    option: Seq<char>,
    name: Seq<char>,
    words: Words,
) -> Seq<Seq<char>> {
    line_unless(words.bash.contains(flag), "bash: "@, flag) + line_unless(
        words.zsh.contains(flag),
        "zsh: "@,
        flag,
    ) + line_unless(in_a_row(words.fish, option, name), "fish: "@, flag) + line_unless(
        words.powershell.contains(flag),
        "powershell: "@,
        flag,
    )
}

/// What the scripts lack of one argument: its long name, then its short one.
pub open spec fn missing_of(
    argument: (Option<Seq<char>>, Option<char>, bool),
    words: Words,
) -> Seq<Seq<char>> {
    if argument.2 {
        Seq::empty()
    } else {
        (match argument.0 {
            Some(long) => missing_flag("--"@ + long, "-l"@, long, words),
            None => Seq::empty(),
        }) + (match argument.1 {
            Some(short) => missing_flag("-"@.push(short), "-s"@, seq![short], words),
            None => Seq::empty(),
        })
    }
}

/// What the scripts lack of a list of arguments, in turn.
pub open spec fn missing_spec(
    arguments: Seq<(Option<Seq<char>>, Option<char>, bool)>,
    words: Words,
) -> Seq<Seq<char>>
    decreases arguments.len(),
{
    if arguments.len() == 0 {
        Seq::empty()
    } else {
        missing_spec(arguments.drop_last(), words) + missing_of(arguments.last(), words)
    }
}

/// The scripts' words, read once.
struct Offered {
    bash: Vec<String>,
    zsh: Vec<String>,
    fish: Vec<String>,
    powershell: Vec<String>,
}

impl Offered {
    spec fn words(self) -> Words {
        Words {
            bash: text::views(self.bash@),
            zsh: text::views(self.zsh@),
            fish: text::views(self.fish@),
            powershell: text::views(self.powershell@),
        }
    }

    fn note(shell: &str, flag: &str, missing: &mut Vec<String>)
        ensures
            text::views(final(missing)@) == text::views(old(missing)@).push(shell@ + flag@),
    {
        let ghost before = text::views(missing@);
        let mut line = shell.to_string();
        line.append(flag);
        missing.push(line);
        assert(text::views(missing@) =~= before.push(shell@ + flag@));
    }

    fn look_for(&self, flag: &str, option: &str, name: &str, missing: &mut Vec<String>)
        ensures
            text::views(final(missing)@) == text::views(old(missing)@) + missing_flag(
                flag@,
                option@,
                name@,
                self.words(),
            ),
    {
        if !text::is_listed(&self.bash, flag) {
            Self::note("bash: ", flag, missing);
        }
        if !text::is_listed(&self.zsh, flag) {
            Self::note("zsh: ", flag, missing);
        }
        if !follows(&self.fish, option, name) {
            Self::note("fish: ", flag, missing);
        }
        if !text::is_listed(&self.powershell, flag) {
            Self::note("powershell: ", flag, missing);
        }
        assert(text::views(missing@) =~= text::views(old(missing)@) + missing_flag(
            flag@,
            option@,
            name@,
            self.words(),
        ));
    }
}

/// Every flag of a list of arguments that one of the four scripts does not offer, as
/// `"<shell>: <flag>"` — empty when the scripts are in step with the parser.
///
/// The check is lexical — a script offers `--foo` when `--foo` appears in it as a word (bash, zsh
/// and PowerShell), or as `-l foo` (fish). `*` is a word break so zsh's `*--foo[...]`, the
/// spelling of a repeatable option, counts as offering `--foo`. Hidden arguments are skipped, as
/// they are from the help.
pub fn missing_flags(arguments: &Vec<Argument>, scripts: &Scripts) -> (missing: Vec<String>)
    ensures
        text::views(missing@) == missing_spec(argument_views(arguments@), words_of(*scripts)),
{
    let offered = Offered {
        bash: tokens(scripts.bash),
        zsh: tokens(scripts.zsh),
        fish: tokens(scripts.fish),
        powershell: tokens(scripts.powershell),
    };
    let ghost words = words_of(*scripts);
    let ghost all = argument_views(arguments@);
    assert(offered.words() =~= words);
    let mut missing: Vec<String> = Vec::new();
    assert(text::views(missing@) =~= missing_spec(all.take(0), words));
    let mut i: usize = 0;
    while i < arguments.len()
        invariant
            i <= arguments@.len(),
            all == argument_views(arguments@),
            offered.words() == words,
            text::views(missing@) == missing_spec(all.take(i as int), words),
        decreases arguments.len() - i,
    {
        let argument = &arguments[i];
        let ghost before = text::views(missing@);
        assert(all[i as int] == argument_view(*argument));
        assert(all.take(i + 1).drop_last() =~= all.take(i as int));
        if !argument.hidden {
            if let Some(long) = &argument.long {
                let mut flag = "--".to_string();
                flag.append(long.as_str());
                offered.look_for(flag.as_str(), "-l", long.as_str(), &mut missing);
            }
            if let Some(short) = argument.short {
                let mut flag = "-".to_string();
                flag.push(short);
                let mut name = String::new();
                name.push(short);
                assert(name@ =~= seq![short]);
                offered.look_for(flag.as_str(), "-s", name.as_str(), &mut missing);
            }
        }
        assert(text::views(missing@) =~= before + missing_of(all[i as int], words));
        i = i + 1;
    }
    assert(all.take(all.len() as int) =~= all);
    missing
}

/// `clap::Command`, a parser's definition.
#[verifier::external_type_specification]
#[verifier::external_body]
pub struct ExCommand(clap::Command);

/// The arguments a `clap::Command` holds, in its order: each one's long name, its short name and
/// whether it is hidden.
pub uninterp spec fn arguments_of(command: clap::Command) -> Seq<
    (Option<Seq<char>>, Option<char>, bool),
>;

/// `clap::Command::get_arguments`, each argument by its `get_long`, `get_short` and
/// `is_hide_set`.
#[verifier::external_body]
fn command_arguments(command: &clap::Command) -> (list: Vec<Argument>)
    ensures
        argument_views(list@) == arguments_of(*command),
{
    command.get_arguments().map(|arg| Argument {
        long: arg.get_long().map(str::to_string),
        short: arg.get_short(),
        hidden: arg.is_hide_set(),
    }).collect()
}

/// Every flag a parser takes that one of the four scripts does not offer. The parser is one that
/// `clap::Command::build` has been called on: only that adds the flags it has of itself, such as
/// those for help and version.
pub fn unoffered(built: &clap::Command, scripts: &Scripts) -> (missing: Vec<String>)
    ensures
        text::views(missing@) == missing_spec(arguments_of(*built), words_of(*scripts)),
{
    missing_flags(&command_arguments(built), scripts)
}

/// A `$SHELL` that does name a shell wins over PowerShell's own mark.
pub proof fn law_a_named_shell_wins(shell: Seq<char>, scripts: Scripts)
    requires
        script_spec(shell, false, scripts) is Some,
    ensures
        script_spec(shell, true, scripts) == script_spec(shell, false, scripts),
{
}

/// A hidden argument is never reported.
pub proof fn law_hidden_arguments_are_skipped(
    arguments: Seq<(Option<Seq<char>>, Option<char>, bool)>,
    words: Words,
)
    requires
        forall|i: int| 0 <= i < arguments.len() ==> (#[trigger] arguments[i]).2,
    ensures
        missing_spec(arguments, words) == Seq::<Seq<char>>::empty(),
    decreases arguments.len(),
{
    if arguments.len() > 0 {
        let rest = arguments.drop_last();
        assert(forall|i: int| 0 <= i < rest.len() ==> #[trigger] rest[i] == arguments[i]);
        law_hidden_arguments_are_skipped(rest, words);
        assert(missing_spec(arguments, words) =~= Seq::empty());
    }
}

/// A shell is known by what stands behind the last separator of its path, either kind of it.
pub proof fn law_a_path_ends_in_its_last_component(directory: Seq<char>, name: Seq<char>)
    requires
        directory.len() == 0 || directory.last() == '/' || directory.last() == '\\',
        !name.contains('/') && !name.contains('\\'),
    ensures
        last_component(directory + name) == name,
    decreases name.len(),
{
    let whole = directory + name;
    if name.len() > 0 {
        let rest = name.drop_last();
        assert forall|c: char| rest.contains(c) implies name.contains(c) by {
            let k = choose|k: int| 0 <= k < rest.len() && rest[k] == c;
            assert(name[k] == c);
        }
        law_a_path_ends_in_its_last_component(directory, rest);
        assert(whole.drop_last() =~= directory + rest);
        assert(name[name.len() - 1] == name.last());
        assert(!separates(name.last()));
        assert(rest.push(name.last()) =~= name);
    } else {
        assert(whole =~= directory);
        assert(last_component(whole) =~= name);
    }
}

/// A shell is known in any case and whether or not its name ends in `.exe`; each has its own
/// script, PowerShell under two names, and a name that is none of theirs has PowerShell's exactly
/// where PowerShell says so itself.
pub proof fn law_each_shell_has_its_script(
    directory: Seq<char>,
    name: Seq<char>,
    in_powershell: bool,
    scripts: Scripts,
)
    requires
        directory.len() == 0 || directory.last() == '/' || directory.last() == '\\',
        !name.contains('/') && !name.contains('\\'),
        !text::ends(text::lower_all(name), ".exe"@),
    ensures
        ({
            let low = text::lower_all(name);
            let picked = script_spec(directory + name, in_powershell, scripts);
            let known = low == "bash"@ || low == "zsh"@ || low == "fish"@ || low == "pwsh"@ || low
                == "powershell"@;
            &&& low == "bash"@ ==> picked == Some(scripts.bash@)
            &&& low == "zsh"@ ==> picked == Some(scripts.zsh@)
            &&& low == "fish"@ ==> picked == Some(scripts.fish@)
            &&& low == "pwsh"@ || low == "powershell"@ ==> picked == Some(scripts.powershell@)
            &&& !known && in_powershell ==> picked == Some(scripts.powershell@)
            &&& !known && !in_powershell ==> picked is None
            &&& script_spec(directory + name + ".exe"@, in_powershell, scripts) == picked
            &&& script_spec(directory + name + ".EXE"@, in_powershell, scripts) == picked
        }),
{
    reveal_strlit("bash");
    reveal_strlit("zsh");
    reveal_strlit("fish");
    reveal_strlit("pwsh");
    reveal_strlit("powershell");
    reveal_strlit(".exe");
    reveal_strlit(".EXE");
    assert("bash"@[0] == 'b' && "zsh"@[0] == 'z' && "fish"@[0] == 'f' && "pwsh"@[0] == 'p'
        && "powershell"@[0] == 'p');
    law_a_path_ends_in_its_last_component(directory, name);
    let low = text::lower_all(name);
    lemma_exe(directory, name, ".exe"@);
    lemma_exe(directory, name, ".EXE"@);
}

proof fn lemma_exe(directory: Seq<char>, name: Seq<char>, ending: Seq<char>)
    requires
        directory.len() == 0 || directory.last() == '/' || directory.last() == '\\',
        !name.contains('/') && !name.contains('\\'),
        ending == ".exe"@ || ending == ".EXE"@,
    ensures
        shell_name(directory + name + ending) == text::lower_all(name),
{
    reveal_strlit(".exe");
    reveal_strlit(".EXE");
    let full = name + ending;
    assert forall|c: char| #[trigger] full.contains(c) implies name.contains(c) || ending.contains(c) by {
        let k = choose|k: int| 0 <= k < full.len() && full[k] == c;
        if k < name.len() {
            assert(name[k] == c);
        } else {
            assert(ending[k - name.len()] == c);
        }
    }
    assert(!ending.contains('/') && !ending.contains('\\'));
    law_a_path_ends_in_its_last_component(directory, full);
    assert(directory + name + ending =~= directory + full);
    let low = text::lower_all(full);
    assert(low.len() == name.len() + 4);
    assert(low.subrange(name.len() as int, low.len() as int) =~= ".exe"@);
    assert(text::ends(low, ".exe"@));
    assert(low.take(name.len() as int) =~= text::lower_all(name));
}

/// A script's words are what stands between its breaks: white space, quotes, brackets of every
/// kind, commas, bars, equal signs and stars.
pub proof fn law_words_stand_between_breaks(
    front: Seq<char>,
    c: char,
    back: Seq<char>,
    word: Seq<char>,
)
    ensures
        breaks(c) <==> text::white(c) || seq![
            '\'', '"', '{', '}', '[', ']', '(', ')', ',', '|', '=', '*',
        ].contains(c),
        breaks(c) ==> tokens_spec(front + seq![c] + back) == tokens_spec(front) + tokens_spec(back),
        word.len() > 0 && (forall|i: int| 0 <= i < word.len() ==> !breaks(#[trigger] word[i]))
            ==> tokens_spec(word) == seq![word],
        tokens_spec(Seq::empty()) == Seq::<Seq<char>>::empty(),
{
    let marks = seq!['\'', '"', '{', '}', '[', ']', '(', ')', ',', '|', '=', '*'];
    assert(marks[0] == '\'' && marks[1] == '"' && marks[2] == '{' && marks[3] == '}' && marks[4]
        == '[' && marks[5] == ']' && marks[6] == '(' && marks[7] == ')' && marks[8] == ','
        && marks[9] == '|' && marks[10] == '=' && marks[11] == '*');
    if breaks(c) {
        lemma_scanned_behind(front, c, back);
        let (words, rest) = scanned(back);
        assert(tokens_spec(front + seq![c] + back) =~= tokens_spec(front) + tokens_spec(back));
    }
    if forall|i: int| 0 <= i < word.len() ==> !breaks(#[trigger] word[i]) {
        lemma_one_word(word);
    }
}

proof fn lemma_scanned_behind(front: Seq<char>, c: char, back: Seq<char>)
    requires
        breaks(c),
    ensures
        scanned(front + seq![c] + back) == (tokens_spec(front) + scanned(back).0, scanned(back).1),
    decreases back.len(),
{
    let whole = front + seq![c] + back;
    if back.len() == 0 {
        assert(whole.drop_last() =~= front);
        assert(whole.last() == c);
        assert(tokens_spec(front) + scanned(back).0 =~= tokens_spec(front));
        assert(scanned(whole) == (with_word(scanned(front).0, scanned(front).1), Seq::<char>::empty()));
    } else {
        lemma_scanned_behind(front, c, back.drop_last());
        assert(whole.drop_last() =~= front + seq![c] + back.drop_last());
        assert(whole.last() == back.last());
        let (words, word) = scanned(back.drop_last());
        if breaks(back.last()) {
            assert(with_word(tokens_spec(front) + words, word) =~= tokens_spec(front) + with_word(
                words,
                word,
            ));
        }
    }
}

proof fn lemma_one_word(word: Seq<char>)
    requires
        forall|i: int| 0 <= i < word.len() ==> !breaks(#[trigger] word[i]),
    ensures
        scanned(word) == (Seq::<Seq<char>>::empty(), word),
    decreases word.len(),
{
    if word.len() > 0 {
        let rest = word.drop_last();
        assert forall|i: int| 0 <= i < rest.len() implies !breaks(#[trigger] rest[i]) by {
            assert(rest[i] == word[i]);
        }
        lemma_one_word(rest);
        assert(!breaks(word[word.len() - 1]));
        assert(rest.push(word.last()) =~= word);
    } else {
        assert(word =~= Seq::empty());
    }
}

/// A flag is reported for each shell whose script does not offer it, by the shell's name and the
/// flag, and for no other: as a word of its own in three of them, as an option and a name in
/// fish's.
pub proof fn law_each_shell_that_lacks_a_flag_is_told(
    flag: Seq<char>,
    option: Seq<char>,
    name: Seq<char>,
    words: Words,
)
    ensures
        ({
            let told = missing_flag(flag, option, name, words);
            let in_fish = exists|i: int|
                0 <= i < words.fish.len() - 1 && #[trigger] words.fish[i] == option && words.fish[i
                    + 1] == name;
            let lacking = (if words.bash.contains(flag) { 0int } else { 1 }) + (
            if words.zsh.contains(flag) { 0int } else { 1 }) + (if in_fish { 0int } else { 1 }) + (
            if words.powershell.contains(flag) { 0int } else { 1 });
            &&& told.len() == lacking
            &&& !words.bash.contains(flag) ==> told.contains("bash: "@ + flag)
            &&& !words.zsh.contains(flag) ==> told.contains("zsh: "@ + flag)
            &&& !in_fish ==> told.contains("fish: "@ + flag)
            &&& !words.powershell.contains(flag) ==> told.contains("powershell: "@ + flag)
        }),
{
    let told = missing_flag(flag, option, name, words);
    let a = line_unless(words.bash.contains(flag), "bash: "@, flag);
    let b = line_unless(words.zsh.contains(flag), "zsh: "@, flag);
    let c = line_unless(in_a_row(words.fish, option, name), "fish: "@, flag);
    let d = line_unless(words.powershell.contains(flag), "powershell: "@, flag);
    let (x, y, z) = (a.len() as int, b.len() as int, c.len() as int);
    if a.len() > 0 {
        assert(told[0] == a[0]);
    }
    if b.len() > 0 {
        assert(told[x] == b[0]);
    }
    if c.len() > 0 {
        assert(told[x + y] == c[0]);
    }
    if d.len() > 0 {
        assert(told[x + y + z] == d[0]);
    }
}

/// Arguments are looked for in turn, each by its long name behind two dashes and its short one
/// behind one; what is hidden is not.
pub proof fn law_arguments_are_looked_for_in_turn(
    front: Seq<(Option<Seq<char>>, Option<char>, bool)>,
    long: Seq<char>,
    short: char,
    words: Words,
)
    ensures
        missing_spec(front.push((Some(long), Some(short), false)), words) == missing_spec(front, words)
            + missing_flag("--"@ + long, "-l"@, long, words) + missing_flag(
            "-"@ + seq![short],
            "-s"@,
            seq![short],
            words,
        ),
        missing_spec(front.push((Some(long), None, false)), words) == missing_spec(front, words)
            + missing_flag("--"@ + long, "-l"@, long, words),
        missing_spec(front.push((None, Some(short), false)), words) == missing_spec(front, words)
            + missing_flag("-"@ + seq![short], "-s"@, seq![short], words),
        missing_spec(front.push((Some(long), Some(short), true)), words) == missing_spec(
            front,
            words,
        ),
        missing_spec(Seq::empty(), words) == Seq::<Seq<char>>::empty(),
{
    let both = front.push((Some(long), Some(short), false));
    let first = front.push((Some(long), None, false));
    let second = front.push((None, Some(short), false));
    let none = front.push((Some(long), Some(short), true));
    assert(both.drop_last() =~= front && first.drop_last() =~= front && second.drop_last() =~= front
        && none.drop_last() =~= front);
    assert("-"@.push(short) =~= "-"@ + seq![short]);
    assert(missing_spec(both, words) =~= missing_spec(front, words) + missing_flag(
        "--"@ + long,
        "-l"@,
        long,
        words,
    ) + missing_flag("-"@ + seq![short], "-s"@, seq![short], words));
    assert(missing_spec(first, words) =~= missing_spec(front, words) + missing_flag(
        "--"@ + long,
        "-l"@,
        long,
        words,
    ));
    assert(missing_spec(second, words) =~= missing_spec(front, words) + missing_flag(
        "-"@ + seq![short],
        "-s"@,
        seq![short],
        words,
    ));
    assert(missing_spec(none, words) =~= missing_spec(front, words));
}

} // verus!
