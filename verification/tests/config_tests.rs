use process_display_helper::config::{
    config_path, is_run_on_startup_assignment, newline_for, parse_config_contents,
    rewrite_run_on_startup_entry, validate_config, Config, ConfigError, DisplayEntry, WatchEntry,
};

fn display(monitor: u8) -> DisplayEntry {
    DisplayEntry {
        monitor,
        set_primary: false,
        move_to_monitor: false,
        resolution: None,
        refresh_rate: None,
        flip_orientation: false,
    }
}

fn watch(process_name: &str, display: Vec<DisplayEntry>) -> WatchEntry {
    WatchEntry {
        process_name: process_name.to_string(),
        restore_on_exit: false,
        priority: 0,
        display,
    }
}

#[test]
fn watch_display_is_required() {
    // The configuration that `[[watch]]\nprocess_name = "game.exe"` describes.
    let parsed = Config {
        run_on_startup: false,
        watch: vec![watch("game.exe", Vec::new())],
    };
    let error = validate_config(&parsed).expect_err("validation should reject missing display");

    assert!(error
        .message()
        .contains("must define at least one [[watch.display]] section"));
}

#[test]
fn rewrite_run_on_startup_places_entry_after_top_comments() {
    let raw = r#"# Test comment
# Additional context

[[watch]]
process_name = "game.exe"

[[watch.display]]
monitor = 1
"#;

    let rewritten = rewrite_run_on_startup_entry(raw, true);
    let expected = r#"# Test comment
# Additional context

run_on_startup = true

[[watch]]
process_name = "game.exe"

[[watch.display]]
monitor = 1
"#;

    assert_eq!(rewritten, expected);
}

#[test]
fn rewrite_run_on_startup_removes_existing_entry_and_repositions() {
    let raw = r#"# Test comment

[[watch]]
process_name = "game.exe"

[[watch.display]]
monitor = 1

run_on_startup = false
"#;

    let rewritten = rewrite_run_on_startup_entry(raw, true);

    assert_eq!(rewritten.matches("run_on_startup = true").count(), 1);
    assert!(!rewritten.contains("run_on_startup = false"));
    assert!(rewritten.starts_with("# Test comment\n\nrun_on_startup = true\n\n"));
}

#[test]
fn empty_config_is_considered_valid() {
    let parsed = parse_config_contents("\n\n", Err("not parsed".to_string()))
        .expect("config should parse");

    assert!(parsed.watch.is_empty());
    assert!(!parsed.run_on_startup);
}

#[test]
fn rewrite_without_comments_puts_entry_first() {
    let raw = "\n\n[[watch]]\nprocess_name = \"a.exe\"\n";
    let rewritten = rewrite_run_on_startup_entry(raw, false);
    assert_eq!(
        rewritten,
        "run_on_startup = false\n\n[[watch]]\nprocess_name = \"a.exe\"\n"
    );
}

#[test]
fn rewrite_of_empty_text_is_the_assignment_alone() {
    assert_eq!(rewrite_run_on_startup_entry("", true), "run_on_startup = true");
    assert_eq!(rewrite_run_on_startup_entry("\n", false), "run_on_startup = false\n");
}

#[test]
fn rewrite_keeps_crlf_line_endings() {
    let raw = "# c\r\nrun_on_startup = true\r\n[[watch]]\r\n";
    let rewritten = rewrite_run_on_startup_entry(raw, false);
    assert_eq!(rewritten, "# c\r\n\r\nrun_on_startup = false\r\n\r\n[[watch]]\r\n");
}

#[test]
fn rewrite_twice_keeps_only_the_last_value() {
    let raw = "# header\n\n[[watch]]\nprocess_name = \"a.exe\"\n";
    let once = rewrite_run_on_startup_entry(raw, true);
    let twice = rewrite_run_on_startup_entry(&once, false);
    assert_eq!(twice, rewrite_run_on_startup_entry(raw, false));
    assert_eq!(twice.matches("run_on_startup").count(), 1);
}

#[test]
fn rewrite_twice_with_blank_last_line_and_crlf() {
    let raw = "a = 1\n\nrun_on_startup = true";
    let once = rewrite_run_on_startup_entry(raw, false);
    assert_eq!(once, "run_on_startup = false\n\na = 1\n");
    let twice = rewrite_run_on_startup_entry(&once, true);
    assert_eq!(twice, rewrite_run_on_startup_entry(raw, true));

    let crlf = "# top\r\n\r\nrun_on_startup = false\r\nx = 2\r\n";
    let once = rewrite_run_on_startup_entry(crlf, true);
    assert_eq!(rewrite_run_on_startup_entry(&once, false), rewrite_run_on_startup_entry(crlf, false));
}

#[test]
fn comment_only_file_gets_entry_after_blank_line() {
    let rewritten = rewrite_run_on_startup_entry("# only a comment\n", true);
    assert_eq!(rewritten, "# only a comment\n\nrun_on_startup = true\n");
}

#[test]
fn assignment_detection_allows_spacing() {
    assert!(is_run_on_startup_assignment("run_on_startup = true"));
    assert!(is_run_on_startup_assignment("   run_on_startup=false"));
    assert!(is_run_on_startup_assignment("\trun_on_startup \t = 1"));
    assert!(!is_run_on_startup_assignment("# run_on_startup = true"));
    assert!(!is_run_on_startup_assignment("run_on_startup_extra = true"));
    assert!(!is_run_on_startup_assignment("run_on_startup"));
    assert!(!is_run_on_startup_assignment(""));
}

#[test]
fn newline_follows_the_file() {
    assert_eq!(newline_for("a\r\nb"), "\r\n");
    assert_eq!(newline_for("a\nb"), "\n");
    assert_eq!(newline_for("a\rb"), "\n");
    assert_eq!(newline_for(""), "\n");
}

#[test]
fn validation_names_the_first_entry_without_display() {
    let config = Config {
        run_on_startup: false,
        watch: vec![
            watch("ok.exe", vec![display(1)]),
            watch("first.exe", Vec::new()),
            watch("second.exe", Vec::new()),
        ],
    };
    let error = validate_config(&config).expect_err("must fail");
    assert_eq!(
        error,
        ConfigError::MissingDisplay {
            process_name: "first.exe".to_string()
        }
    );
    assert_eq!(
        error.message(),
        "watch entry 'first.exe' must define at least one [[watch.display]] section"
    );
}

#[test]
fn validation_accepts_entries_with_display() {
    let config = Config {
        run_on_startup: true,
        watch: vec![watch("a.exe", vec![display(1), display(2)])],
    };
    assert!(validate_config(&config).is_ok());
}

#[test]
fn parse_reports_parser_errors_for_non_blank_text() {
    let result = parse_config_contents("garbage", Err("expected `=`".to_string()));
    assert_eq!(
        result,
        Err(ConfigError::Parse {
            message: "expected `=`".to_string()
        })
    );
    assert_eq!(
        ConfigError::Parse {
            message: "expected `=`".to_string()
        }
        .message(),
        "expected `=`"
    );
}

#[test]
fn parse_validates_parsed_configuration() {
    let bad = Config {
        run_on_startup: false,
        watch: vec![watch("x.exe", Vec::new())],
    };
    assert_eq!(
        parse_config_contents("[[watch]]", Ok(bad)),
        Err(ConfigError::MissingDisplay {
            process_name: "x.exe".to_string()
        })
    );
    let good = Config {
        run_on_startup: true,
        watch: vec![watch("x.exe", vec![display(3)])],
    };
    assert_eq!(parse_config_contents("run_on_startup = true", Ok(good.clone())), Ok(good));
}

#[test]
fn blank_text_ignores_the_parser() {
    let other = Config {
        run_on_startup: true,
        watch: vec![watch("x.exe", Vec::new())],
    };
    let parsed = parse_config_contents(" \t\n", Ok(other)).expect("blank is valid");
    assert_eq!(parsed, Config::default());
}

#[test]
fn config_path_appends_file_name() {
    let path = config_path("/opt/helper");
    assert!(path.starts_with("/opt/helper"));
    assert!(path.ends_with("config.toml"));
    assert!(path.len() > "/opt/helper".len() + "config.toml".len() - 1);
    assert_eq!(config_path(""), "config.toml");
}
