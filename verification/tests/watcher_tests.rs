use process_display_helper::config::{Config, DisplayEntry, WatchEntry};
use process_display_helper::monitor::DisplaySnapshot;
use process_display_helper::process_event::{
    is_process_lifecycle_event, normalize_process_name, process_event_from_record, ProcessEvent,
};
use process_display_helper::watcher::{
    baseline_captured, commit_winner, find_watch_entry, find_winner_key, handle_process_event,
    reload_config, ActiveWatch, DisplayStep, LayoutRequest, WatchAction, WatchState,
};

fn watch_entry(process_name: &str, priority: u8) -> WatchEntry {
    WatchEntry {
        process_name: process_name.to_string(),
        restore_on_exit: true,
        priority,
        display: vec![DisplayEntry {
            monitor: 1,
            set_primary: true,
            move_to_monitor: false,
            resolution: None,
            refresh_rate: None,
            flip_orientation: false,
        }],
    }
}

fn config(watch: Vec<WatchEntry>) -> Config {
    Config { run_on_startup: false, watch }
}

fn snapshot() -> DisplaySnapshot {
    DisplaySnapshot {
        primary: 1,
        primary_device_name: "\\\\.\\DISPLAY1".to_string(),
        resolution: (1920, 1080),
        refresh_rate: 60,
        flip_orientation: false,
        display_orientation: 0,
        monitor_modes: Vec::new(),
    }
}

fn started(name: &str, pid: u32) -> ProcessEvent {
    ProcessEvent::Started { name: name.to_string(), pid }
}

#[test]
fn normalize_process_name_extracts_filename_and_lowercases() {
    let normalized = normalize_process_name(r"C:\Program Files\App\ALACRITTY.EXE");
    assert_eq!(normalized, "alacritty.exe");
}

#[test]
fn find_watch_entry_matches_case_insensitively() {
    let config = config(vec![watch_entry("ALACRITTY.EXE", 0)]);

    let matched = find_watch_entry(&config, "alacritty.exe");
    assert!(matched.is_some());
}

#[test]
fn winner_prefers_higher_priority() {
    let config = config(vec![watch_entry("a.exe", 1), watch_entry("b.exe", 5)]);

    let mut state = WatchState::default();
    state.active.push(ActiveWatch { key: "a.exe".to_string(), pids: vec![1] });
    state.active.push(ActiveWatch { key: "b.exe".to_string(), pids: vec![2] });

    let winner = find_winner_key(&config, &state);
    assert_eq!(winner.as_deref(), Some("b.exe"));
}

#[test]
fn winner_uses_newest_activation_for_priority_ties() {
    let config = config(vec![watch_entry("a.exe", 3), watch_entry("b.exe", 3)]);

    let mut state = WatchState::default();
    // Activation order: a.exe first, b.exe one moment later.
    state.active.push(ActiveWatch { key: "a.exe".to_string(), pids: vec![1] });
    state.active.push(ActiveWatch { key: "b.exe".to_string(), pids: vec![2] });

    let winner = find_winner_key(&config, &state);
    assert_eq!(winner.as_deref(), Some("b.exe"));
}

#[test]
fn normalize_handles_paths_and_spacing() {
    assert_eq!(normalize_process_name("game.exe"), "game.exe");
    assert_eq!(normalize_process_name("  Game.EXE  "), "game.exe");
    assert_eq!(normalize_process_name("/usr/bin/Tool"), "tool");
    assert_eq!(normalize_process_name("dir\\sub\\"), "sub");
    assert_eq!(normalize_process_name("dir\\sub\\."), "sub");
    assert_eq!(normalize_process_name("dir\\.."), "dir\\..");
    assert_eq!(normalize_process_name("C:App.exe"), "app.exe");
    assert_eq!(normalize_process_name("\\\\server\\share\\X.EXE"), "x.exe");
    assert_eq!(normalize_process_name("\\\\server\\share"), "\\\\server\\share");
    assert_eq!(
        normalize_process_name("\\Device\\HarddiskVolume3\\Windows\\NOTEPAD.EXE"),
        "notepad.exe"
    );
    assert_eq!(normalize_process_name(""), "");
}

#[test]
fn normalize_follows_windows_prefixes() {
    // Two separators without a share open no prefix.
    assert_eq!(normalize_process_name("\\\\Server"), "server");
    assert_eq!(normalize_process_name("\\\\server\\"), "server");
    assert_eq!(normalize_process_name("//host/share/Tool.EXE"), "tool.exe");
    // Verbatim paths split at backslashes only, and keep `.` as a component.
    assert_eq!(normalize_process_name("\\\\?\\C:\\dir/App.exe"), "dir/app.exe");
    assert_eq!(normalize_process_name("\\\\?\\C:\\a\\."), "\\\\?\\c:\\a\\.");
    assert_eq!(normalize_process_name("\\\\?\\Volume\\Game.EXE"), "game.exe");
    // A verbatim UNC prefix takes the server and the share.
    assert_eq!(normalize_process_name("\\\\?\\UNC\\srv\\share"), "\\\\?\\unc\\srv\\share");
    assert_eq!(normalize_process_name("\\\\?\\UNC\\srv\\share\\A.exe"), "a.exe");
    // `UNC` is read in upper case only: in lower case it is a plain verbatim name.
    assert_eq!(normalize_process_name("\\\\?\\unc\\srv\\share"), "share");
    // A device path takes its device name.
    assert_eq!(normalize_process_name("\\\\.\\COM1"), "\\\\.\\com1");
    assert_eq!(normalize_process_name("\\\\.\\pipe\\Name"), "name");
}

#[test]
fn normalized_names_normalize_to_themselves() {
    for name in ["C:\\Apps\\Game.EXE", "  Tool.exe ", "x", "..", "", "x\\..", "AB:c", "C:"] {
        let once = normalize_process_name(name);
        assert_eq!(normalize_process_name(&once), once);
        assert_eq!(once, once.to_ascii_lowercase());
        assert_eq!(once, once.trim());
    }
    // A drive followed by a name is read as a path again.
    let once = normalize_process_name("x\\C:d");
    assert_eq!(once, "c:d");
    assert_eq!(normalize_process_name(&once), "d");
}

#[test]
fn lifecycle_records_become_events() {
    assert!(is_process_lifecycle_event(1));
    assert!(is_process_lifecycle_event(2));
    assert!(!is_process_lifecycle_event(3));
    assert_eq!(
        process_event_from_record(1, Some(42), Some("C:\\Apps\\Game.exe".to_string())),
        Some(started("game.exe", 42))
    );
    assert_eq!(process_event_from_record(1, Some(42), None), None);
    assert_eq!(process_event_from_record(1, Some(42), Some("   ".to_string())), None);
    assert_eq!(process_event_from_record(1, None, Some("a.exe".to_string())), None);
    assert_eq!(process_event_from_record(2, Some(7), None), Some(ProcessEvent::Exited { pid: 7 }));
    assert_eq!(process_event_from_record(5, Some(7), None), None);
}

#[test]
fn unwatched_process_changes_nothing() {
    let config = config(vec![watch_entry("a.exe", 1)]);
    let mut state = WatchState::default();
    let action = handle_process_event(started("other.exe", 5), &config, &mut state);
    assert_eq!(action, WatchAction::Nothing);
    assert!(state.active.is_empty());
}

#[test]
fn first_activation_captures_baseline_then_applies_layout() {
    let config = config(vec![watch_entry("Game.EXE", 1)]);
    let mut state = WatchState::default();
    let action = handle_process_event(started("C:\\games\\game.exe", 10), &config, &mut state);
    assert_eq!(action, WatchAction::CaptureBaseline);
    assert_eq!(state.active.len(), 1);
    assert_eq!(state.active[0].key, "game.exe");

    let next = baseline_captured(&config, &mut state, snapshot());
    assert_eq!(
        next,
        WatchAction::ApplyLayout(LayoutRequest {
            process: "game.exe".to_string(),
            pids: vec![10],
            steps: vec![DisplayStep::SetPrimary {
                monitor: 1,
                resolution: None,
                refresh_rate: None,
                flip_orientation: false,
            }],
        })
    );
    assert_eq!(state.current_winner, None);
    commit_winner(&mut state, "game.exe".to_string());
    assert_eq!(state.current_winner.as_deref(), Some("game.exe"));

    // A second instance changes nothing.
    let again = handle_process_event(started("game.exe", 11), &config, &mut state);
    assert_eq!(again, WatchAction::Nothing);
    assert_eq!(state.active[0].pids, vec![10, 11]);

    // The first instance exits: still running.
    let exit = handle_process_event(ProcessEvent::Exited { pid: 10 }, &config, &mut state);
    assert_eq!(exit, WatchAction::Nothing);
    assert_eq!(state.active[0].pids, vec![11]);

    // The last instance exits: the baseline comes back and control ends.
    let last = handle_process_event(ProcessEvent::Exited { pid: 11 }, &config, &mut state);
    assert_eq!(last, WatchAction::RestoreBaseline(snapshot()));
    assert!(state.active.is_empty());
    assert_eq!(state.current_winner, None);
    assert!(state.baseline.is_none());
}

#[test]
fn exit_without_restore_only_clears_state() {
    let mut entry = watch_entry("a.exe", 1);
    entry.restore_on_exit = false;
    let config = config(vec![entry]);
    let mut state = WatchState::default();
    handle_process_event(started("a.exe", 1), &config, &mut state);
    baseline_captured(&config, &mut state, snapshot());
    commit_winner(&mut state, "a.exe".to_string());
    let action = handle_process_event(ProcessEvent::Exited { pid: 1 }, &config, &mut state);
    assert_eq!(action, WatchAction::Nothing);
    assert!(state.baseline.is_none());
    assert_eq!(state.current_winner, None);
}

#[test]
fn higher_priority_arrival_takes_control_and_hands_back_on_exit() {
    let mut high = watch_entry("high.exe", 9);
    high.display = vec![DisplayEntry {
        monitor: 2,
        set_primary: false,
        move_to_monitor: true,
        resolution: Some([1080, 1920]),
        refresh_rate: Some(144),
        flip_orientation: true,
    }];
    let config = config(vec![watch_entry("low.exe", 1), high]);
    let mut state = WatchState::default();
    handle_process_event(started("low.exe", 1), &config, &mut state);
    baseline_captured(&config, &mut state, snapshot());
    commit_winner(&mut state, "low.exe".to_string());

    let action = handle_process_event(started("high.exe", 2), &config, &mut state);
    assert_eq!(
        action,
        WatchAction::ApplyLayout(LayoutRequest {
            process: "high.exe".to_string(),
            pids: vec![2],
            steps: vec![
                DisplayStep::SetMode {
                    monitor: 2,
                    resolution: Some([1080, 1920]),
                    refresh_rate: Some(144),
                    flip_orientation: true,
                },
                DisplayStep::MoveWindows { monitor: 2 },
            ],
        })
    );
    commit_winner(&mut state, "high.exe".to_string());

    // The high-priority process exits: control goes back to the other one.
    let back = handle_process_event(ProcessEvent::Exited { pid: 2 }, &config, &mut state);
    match back {
        WatchAction::ApplyLayout(req) => assert_eq!(req.process, "low.exe"),
        other => panic!("unexpected {other:?}"),
    }
    assert!(state.baseline.is_some());
}

#[test]
fn unknown_pid_exit_changes_nothing() {
    let config = config(vec![watch_entry("a.exe", 1)]);
    let mut state = WatchState::default();
    let action = handle_process_event(ProcessEvent::Exited { pid: 99 }, &config, &mut state);
    assert_eq!(action, WatchAction::Nothing);
}

#[test]
fn reload_drops_unwatched_and_restores_when_nothing_is_left() {
    let old = config(vec![watch_entry("a.exe", 1)]);
    let mut state = WatchState::default();
    handle_process_event(started("a.exe", 1), &old, &mut state);
    baseline_captured(&old, &mut state, snapshot());
    commit_winner(&mut state, "a.exe".to_string());

    let new = config(vec![watch_entry("b.exe", 1)]);
    let action = reload_config(&new, &mut state);
    assert_eq!(action, WatchAction::RestoreBaseline(snapshot()));
    assert!(state.active.is_empty());
    assert_eq!(state.current_winner, None);
    assert!(state.baseline.is_none());
}

#[test]
fn reload_reapplies_the_winner() {
    let config = config(vec![watch_entry("a.exe", 1)]);
    let mut state = WatchState::default();
    handle_process_event(started("a.exe", 1), &config, &mut state);
    baseline_captured(&config, &mut state, snapshot());
    commit_winner(&mut state, "a.exe".to_string());
    match reload_config(&config, &mut state) {
        WatchAction::ApplyLayout(req) => assert_eq!(req.process, "a.exe"),
        other => panic!("unexpected {other:?}"),
    }
}

fn well_formed(state: &WatchState) -> bool {
    let keys_distinct = state
        .active
        .iter()
        .enumerate()
        .all(|(i, a)| state.active.iter().skip(i + 1).all(|b| a.key != b.key));
    let pids_ok = state.active.iter().all(|a| {
        !a.pids.is_empty()
            && a.pids.iter().enumerate().all(|(i, p)| !a.pids[i + 1..].contains(p))
    });
    let idle_clear = !state.active.is_empty()
        || (state.current_winner.is_none() && state.baseline.is_none());
    keys_distinct && pids_ok && idle_clear
}

#[test]
fn state_stays_well_formed_across_configurations() {
    let first = config(vec![watch_entry("a.exe", 1), watch_entry("b.exe", 2)]);
    let second = config(vec![watch_entry("b.exe", 1)]);
    let mut state = WatchState::default();

    let action = handle_process_event(started("A.EXE", 1), &first, &mut state);
    assert!(matches!(action, WatchAction::CaptureBaseline));
    assert!(!state.active.is_empty());
    baseline_captured(&first, &mut state, snapshot());
    assert!(well_formed(&state));

    // Events handled under another configuration than the one that started them.
    handle_process_event(started("a.exe", 1), &second, &mut state);
    handle_process_event(started("b.exe", 2), &first, &mut state);
    handle_process_event(started("b.exe", 2), &first, &mut state);
    assert!(well_formed(&state));
    handle_process_event(ProcessEvent::Exited { pid: 1 }, &second, &mut state);
    assert!(well_formed(&state));
    reload_config(&second, &mut state);
    assert!(well_formed(&state));
    handle_process_event(ProcessEvent::Exited { pid: 2 }, &first, &mut state);
    assert!(well_formed(&state));
    assert!(state.active.is_empty());
    assert!(state.current_winner.is_none() && state.baseline.is_none());
}
