use orangu::logging::{
    anchored, default_log_path, default_path, expand_tilde, file_line, level, stream, Console, Level, LogTarget,
    Stream, LOG_TYPES,
};

/// No key, a blank key, and `console` in any casing are all the console.
#[test]
fn the_console_is_the_default_and_needs_no_path() {
    for log_type in [None, Some(""), Some("  "), Some("console"), Some("CONSOLE")] {
        assert_eq!(
            LogTarget::from_keys("orangu-server", log_type, None).unwrap(),
            LogTarget::Console,
            "log_type = {log_type:?}"
        );
    }
    // A path with the console selected is kept but not used.
    assert_eq!(
        LogTarget::from_keys("orangu-server", None, Some("/var/log/orangu.log")).unwrap(),
        LogTarget::Console
    );
}

fn here(name: &str) -> String {
    std::path::absolute(name).unwrap().to_str().unwrap().to_string()
}

#[test]
fn a_file_needs_a_path_and_gets_an_absolute_one() {
    // An absolute path is kept as given.
    let given = here("var/orangu.log");
    let target = LogTarget::from_keys("orangu-server", Some("file"), Some(&given)).unwrap();
    assert_eq!(target, LogTarget::File(given.clone()));
    assert_eq!(target.log_type(), "file");
    assert_eq!(target.path(), Some(given.as_str()));

    // A relative path is anchored where the process started, since a daemon moves to `/` before
    // it writes a line.
    let target = LogTarget::from_keys("orangu-server", Some("FILE"), Some("orangu.log")).unwrap();
    let LogTarget::File(path) = target else {
        panic!("expected a file");
    };
    let path = std::path::Path::new(&path);
    assert!(path.is_absolute(), "{}", path.display());
    assert!(path.ends_with("orangu.log"), "{}", path.display());
}

#[test]
fn expands_a_leading_tilde_in_the_path() {
    let target =
        LogTarget::from_keys("orangu-coordinator", Some("file"), Some("~/orangu.log")).unwrap();
    assert_eq!(
        target.path(),
        home::home_dir().unwrap().join("orangu.log").to_str()
    );
}

/// `file` with no path — absent or blank alike — is the section's own name with `.log`, in the
/// directory the process was started from.
#[test]
fn a_file_without_a_path_defaults_beside_the_process() {
    let expected = here("orangu-coordinator.log");
    assert_eq!(default_log_path("orangu-coordinator"), expected);
    for log_path in [None, Some(""), Some("  ")] {
        assert_eq!(
            LogTarget::from_keys("orangu-coordinator", Some("file"), log_path).unwrap(),
            LogTarget::File(expected.clone()),
            "log_path = {log_path:?}"
        );
    }
    assert_eq!(default_log_path("orangu-server"), here("orangu-server.log"));
}

#[test]
fn an_unknown_log_type_is_rejected_with_the_alternatives() {
    let err = LogTarget::from_keys("orangu-server", Some("syslog"), None).unwrap_err();
    let text = err.message();
    assert!(text.contains("[orangu-server].log_type"), "{text}");
    assert!(text.contains("syslog"), "{text}");
    assert!(text.contains("console or file"), "{text}");
    // What is said is in lower case.
    let err = LogTarget::from_keys("s", Some(" SysLÖG "), None).unwrap_err();
    assert_eq!(err.value, "syslög");
}

#[test]
fn a_tilde_is_the_home_directory() {
    let home = Some("/home/u".to_string());
    assert_eq!(expand_tilde("~/a.log", &home), "/home/u/a.log");
    assert_eq!(expand_tilde("~//a.log", &home), "/home/u/a.log");
    assert_eq!(expand_tilde("~", &home), "/home/u/");
    assert_eq!(expand_tilde("~a", &home), "/home/u/a");
    assert_eq!(expand_tilde("~/a", &Some("/".to_string())), "/a");
    assert_eq!(expand_tilde("~/a", &Some(String::new())), "a");
    assert_eq!(expand_tilde("~/a", &None), "~/a");
    assert_eq!(expand_tilde("/a/~", &home), "/a/~");
    for rest in ["a.log", "a/b", ""] {
        assert_eq!(
            expand_tilde(&format!("~/{rest}"), &home),
            std::path::Path::new("/home/u").join(rest).to_str().unwrap()
        );
    }
    assert_eq!(anchored("a".to_string(), None), "a");
    assert_eq!(anchored("a".to_string(), Some("/x/a".to_string())), "/x/a");
}

#[test]
fn a_file_gets_everything_whatever_the_console_is_asked_for() {
    let file = LogTarget::File("/a".to_string());
    for console in [Console::Everything, Console::ErrorsOnly, Console::Nothing] {
        assert_eq!(level(&file, console), Level::Info);
    }
    assert_eq!(level(&LogTarget::Console, Console::Everything), Level::Info);
    assert_eq!(level(&LogTarget::Console, Console::ErrorsOnly), Level::Error);
    assert_eq!(level(&LogTarget::Console, Console::Nothing), Level::Off);
    assert_eq!(stream(Level::Info), Stream::Stdout);
    assert_eq!(stream(Level::Warn), Stream::Stderr);
    assert_eq!(stream(Level::Error), Stream::Stderr);
    assert_eq!(stream(Level::Off), Stream::Nowhere);
    assert_eq!(
        file_line("2026-01-01 00:00:00", "WARN", "low on disk"),
        "2026-01-01 00:00:00 WARN  low on disk"
    );
    assert_eq!(LogTarget::default(), LogTarget::Console);
    assert!(LogTarget::default().is_console());
    assert_eq!(LogTarget::default().log_type(), "console");
    assert_eq!(LOG_TYPES, ["console", "file"]);
}

#[test]
fn a_resolved_target_chooses_itself() {
    for (log_type, log_path) in [("console", None), ("file", None), ("file", Some("a/b.log"))] {
        let target = LogTarget::from_keys("orangu", Some(log_type), log_path).unwrap();
        assert_eq!(target.is_console(), target.path().is_none());
        let again = LogTarget::from_keys("orangu", Some(target.log_type()), target.path());
        assert_eq!(again.unwrap(), target);
    }
}

#[test]
fn no_directory_of_a_path_is_lost() {
    let target = LogTarget::from_keys("orangu", Some("file"), Some(" logs/today/a.log ")).unwrap();
    let path = target.path().unwrap();
    assert_eq!(path, here("logs/today/a.log"));
    assert!(std::path::Path::new(path).ends_with("logs/today/a.log"));
    assert_eq!(default_path("orangu", None), "orangu.log");
    assert_eq!(default_path("orangu", Some("/srv/orangu.log".to_string())), "/srv/orangu.log");
    assert_eq!(default_path("orangu", Some(here("orangu.log"))), default_log_path("orangu"));
}
