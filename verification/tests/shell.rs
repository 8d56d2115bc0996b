use orangu::shell_completions::{
    detected, missing_flags, script, unoffered, Argument, Scripts,
};

const SCRIPTS: Scripts = Scripts {
    bash: "# bash completion",
    zsh: "#compdef",
    fish: "# fish completion",
    powershell: "# PowerShell completion",
};

#[test]
fn detects_each_supported_shell_by_path_or_name() {
    for (shell, expected) in [
        ("/bin/bash", SCRIPTS.bash),
        ("bash", SCRIPTS.bash),
        ("/usr/bin/zsh", SCRIPTS.zsh),
        ("zsh", SCRIPTS.zsh),
        ("/usr/local/bin/fish", SCRIPTS.fish),
        ("fish", SCRIPTS.fish),
        ("pwsh", SCRIPTS.powershell),
        ("/usr/bin/pwsh", SCRIPTS.powershell),
        ("powershell", SCRIPTS.powershell),
        (r"C:\Program Files\PowerShell\7\pwsh.exe", SCRIPTS.powershell),
        (
            r"C:\WINDOWS\System32\WindowsPowerShell\v1.0\powershell.exe",
            SCRIPTS.powershell,
        ),
        // Git Bash on Windows.
        (r"C:\Program Files\Git\usr\bin\bash.exe", SCRIPTS.bash),
    ] {
        assert_eq!(script("orangu", shell, false, &SCRIPTS).expect(shell), expected);
    }
}

/// Windows sets no `$SHELL`; PowerShell there is known by `$PSModulePath` instead. But a `$SHELL`
/// that does name a shell wins — Git Bash on Windows inherits `$PSModulePath` too.
#[test]
fn powershell_is_the_fallback_when_only_psmodulepath_says_so() {
    assert_eq!(script("orangu", "", true, &SCRIPTS).unwrap(), SCRIPTS.powershell);
    assert_eq!(script("orangu", "/bin/bash", true, &SCRIPTS).unwrap(), SCRIPTS.bash);
    assert!(script("orangu", "", false, &SCRIPTS).is_err());
}

#[test]
fn refuses_an_undetectable_shell_naming_the_binary() {
    let err = script("orangu-bench", "/usr/bin/nonesuch", false, &SCRIPTS)
        .expect_err("an unsupported shell must not yield a script")
        .message();
    assert!(err.contains("nonesuch"), "{err}");
    assert!(err.contains("bash, zsh, fish, PowerShell"), "{err}");
    assert!(err.contains("eval \"$(orangu-bench -s)\""), "{err}");
    assert!(err.contains("_orangu-bench"), "{err}");
    assert!(err.contains("orangu-bench.fish"), "{err}");
    assert!(
        err.contains("orangu-bench -s | Out-String | Invoke-Expression"),
        "{err}"
    );
    assert!(script("orangu", "", false, &SCRIPTS).is_err());
}

fn built(command: &clap::Command) -> clap::Command {
    let mut built = command.clone();
    built.build();
    built
}

/// A parser with one flag no script offers is reported by every shell, and a flag they all offer
/// by none.
#[test]
fn unoffered_names_the_flag_every_script_lacks() {
    let command = clap::Command::new("tool")
        .arg(clap::Arg::new("known").short('k').long("known"))
        .arg(clap::Arg::new("added").short('a').long("added"))
        .arg(clap::Arg::new("repeat").long("repeat"))
        .arg(clap::Arg::new("secret").long("secret").hide(true));
    let scripts = Scripts {
        bash: "compgen -W \"-k --known --repeat -h --help -V --version\"",
        zsh: "'(-k --known)'{-k,--known}'[Known]' '*--repeat[Repeatable]' '(-h --help)'{-h,--help}'[Print help]' '(-V --version)'{-V,--version}'[Print version]'",
        fish: "complete -c tool -s k -l known\ncomplete -c tool -l repeat\ncomplete -c tool -s h -l help\ncomplete -c tool -s V -l version",
        powershell: "@('-k', '--known', 'Known'), @('--repeat', 'Repeatable'), @('-h', '--help', 'Print help'), @('-V', '--version', 'Print version')",
    };
    assert_eq!(
        unoffered(&built(&command), &scripts),
        [
            "bash: --added",
            "zsh: --added",
            "fish: --added",
            "powershell: --added",
            "bash: -a",
            "zsh: -a",
            "fish: -a",
            "powershell: -a"
        ]
    );
}

#[test]
fn the_environment_names_the_shell() {
    assert_eq!(detected("orangu", Some("/bin/zsh"), 3, &SCRIPTS).unwrap(), SCRIPTS.zsh);
    assert_eq!(detected("orangu", None, 3, &SCRIPTS).unwrap(), SCRIPTS.powershell);
    assert!(detected("orangu", None, 0, &SCRIPTS).is_err());
    assert_eq!(script("o", "/opt/BASH.EXE", false, &SCRIPTS).unwrap(), SCRIPTS.bash);
    let err = script("o", "a\"b", false, &SCRIPTS).unwrap_err().message();
    assert!(err.contains("\"a\\\"b\""), "{err}");
}

#[test]
fn the_coordinators_scripts_offer_its_flags() {
    let flag = |long: &str, short: char| Argument {
        long: Some(long.to_string()),
        short: Some(short),
        hidden: false,
    };
    let scripts = Scripts {
        bash: orangu::coordinator_shell::BASH,
        zsh: orangu::coordinator_shell::ZSH,
        fish: orangu::coordinator_shell::FISH,
        powershell: orangu::coordinator_shell::POWERSHELL,
    };
    let flags = vec![
        flag("config", 'c'),
        flag("init", 'i'),
        flag("quiet", 'q'),
        flag("daemon", 'd'),
        flag("shell-completions", 's'),
        flag("help", 'h'),
        flag("version", 'V'),
    ];
    assert_eq!(missing_flags(&flags, &scripts), Vec::<String>::new());
    let mut hidden = flag("absent", 'x');
    hidden.hidden = true;
    assert_eq!(missing_flags(&vec![hidden], &scripts), Vec::<String>::new());
    assert_eq!(missing_flags(&vec![flag("absent", 'x')], &scripts).len(), 8);
}

#[test]
fn the_quantizers_scripts_offer_its_flags() {
    let long = |long: &str| Argument { long: Some(long.to_string()), short: None, hidden: false };
    let scripts = Scripts {
        bash: orangu::gguf_shell::BASH,
        zsh: orangu::gguf_shell::ZSH,
        fish: orangu::gguf_shell::FISH,
        powershell: orangu::gguf_shell::POWERSHELL,
    };
    let flags = vec![
        long("model"),
        long("training-size"),
        long("quantization"),
        long("context-size"),
        long("output"),
        long("list-quantizations"),
        long("flamegraph"),
        long("shell-completions"),
        long("help"),
        long("version"),
    ];
    assert_eq!(missing_flags(&flags, &scripts), Vec::<String>::new());
}

#[test]
fn the_flags_a_parser_gets_of_itself_are_looked_for_too() {
    let bare = Scripts { bash: "", zsh: "--help -h", fish: "-l help -s h", powershell: "--help -h" };
    let command = clap::Command::new("tool");
    assert_eq!(unoffered(&built(&command), &bare), ["bash: --help", "bash: -h"]);
}
