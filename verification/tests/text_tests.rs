use process_display_helper::log_rotation::{plan_log_write, MAX_LINES_PER_FILE};
use process_display_helper::startup::{
    add_startup_task_args, command_failure_details, delete_legacy_value_args,
    delete_startup_task_args, query_legacy_value_args, query_startup_task_args,
    startup_setting_steps, startup_task_command_value, toggle_begin, toggle_next,
    StartupCommand, ToggleStep,
};
use process_display_helper::wide::{wide, wide_to_string};

#[test]
fn wide_appends_a_terminator() {
    assert_eq!(wide("Ab"), vec![0x41, 0x62, 0]);
    assert_eq!(wide(""), vec![0]);
    assert_eq!(wide("\u{1F600}"), vec![0xD83D, 0xDE00, 0]);
}

#[test]
fn wide_to_string_stops_at_nul_and_replaces_lone_surrogates() {
    assert_eq!(wide_to_string(&[0x44, 0x31, 0, 0x58]), "D1");
    assert_eq!(wide_to_string(&[0x41, 0x42]), "AB");
    assert_eq!(wide_to_string(&[0xD83D, 0xDE00]), "\u{1F600}");
    assert_eq!(wide_to_string(&[0xDE00, 0x41]), "\u{FFFD}A");
    assert_eq!(wide_to_string(&[0xD83D, 0x41]), "\u{FFFD}A");
}

#[test]
fn wide_round_trip() {
    for s in ["\\\\.\\DISPLAY1", "héllo \u{1F600} wörld", ""] {
        assert_eq!(wide_to_string(&wide(s)), s);
    }
}

#[test]
fn log_rotates_after_max_lines() {
    let plan = plan_log_write(MAX_LINES_PER_FILE - 1, b"a\nb\nc");
    assert_eq!(plan.rotate_before, vec![2]);
    assert_eq!(plan.line_count, 1);
    let quiet = plan_log_write(0, b"hello world\n");
    assert!(quiet.rotate_before.is_empty());
    assert_eq!(quiet.line_count, 1);
    assert_eq!(plan_log_write(7, b"").line_count, 7);
}

#[test]
fn startup_task_arguments() {
    assert_eq!(
        add_startup_task_args("\"C:\\x.exe\""),
        vec![
            "/Create",
            "/TN",
            "ProcessDisplayHelperWin",
            "/SC",
            "ONLOGON",
            "/RL",
            "HIGHEST",
            "/TR",
            "\"C:\\x.exe\"",
            "/F"
        ]
    );
    assert_eq!(query_startup_task_args(), vec!["/Query", "/TN", "ProcessDisplayHelperWin"]);
    assert_eq!(
        delete_startup_task_args(),
        vec!["/Delete", "/TN", "ProcessDisplayHelperWin", "/F"]
    );
    assert_eq!(
        query_legacy_value_args(),
        vec![
            "query",
            "HKCU\\Software\\Microsoft\\Windows\\CurrentVersion\\Run",
            "/v",
            "ProcessDisplayHelperWin"
        ]
    );
    assert_eq!(
        delete_legacy_value_args(),
        vec![
            "delete",
            "HKCU\\Software\\Microsoft\\Windows\\CurrentVersion\\Run",
            "/v",
            "ProcessDisplayHelperWin",
            "/f"
        ]
    );
    assert_eq!(startup_task_command_value("C:\\a b\\x.exe"), "\"C:\\a b\\x.exe\"");
}

#[test]
fn failure_details_prefer_error_output() {
    assert_eq!(command_failure_details("  denied \n", "ok"), "denied");
    assert_eq!(command_failure_details(" \r\n", "  out  "), "out");
    assert_eq!(command_failure_details("", ""), "");
}

#[test]
fn startup_steps_and_toggle() {
    assert_eq!(
        startup_setting_steps(true),
        vec![(StartupCommand::AddTask, true), (StartupCommand::RemoveLegacyValue, false)]
    );
    assert_eq!(
        startup_setting_steps(false),
        vec![(StartupCommand::RemoveTask, true), (StartupCommand::RemoveLegacyValue, false)]
    );
    let first = toggle_begin(false);
    assert_eq!(first, ToggleStep::Apply(true));
    assert_eq!(toggle_next(false, first, false), ToggleStep::Failed);
    let persist = toggle_next(false, first, true);
    assert_eq!(persist, ToggleStep::Persist(true));
    assert_eq!(toggle_next(false, persist, true), ToggleStep::Succeeded);
    let rollback = toggle_next(false, persist, false);
    assert_eq!(rollback, ToggleStep::RollBack(false));
    assert_eq!(toggle_next(false, rollback, true), ToggleStep::Failed);
}
