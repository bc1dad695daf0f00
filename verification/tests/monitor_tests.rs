use process_display_helper::monitor::{
    assign_monitor_indices, attempt_failure_message, current_primary_snapshot,
    display_query_outcome, fallback_failure_message, sorted_labels,
    ensure_display_change_success, is_attached_to_desktop, label_indices, mode_attempts,
    monitor_from_display_mode, orientation_step, restore_display_snapshot, set_monitor_mode,
    set_primary_monitor, set_primary_monitor_with_orientation, DisplayError, DisplayModeSnapshot,
    DisplaySnapshot, ModeAttempt, ModeRequest, ModeStrategy, MonitorInfo, MonitorLabel,
    PrimarySwitchPlan, QueryOutcome, Reposition,
};
use process_display_helper::orientation::{
    desired_display_orientation, is_flipped_orientation, is_portrait_orientation,
    is_portrait_resolution, mode_dimensions_for_orientation_transition,
    normalize_resolution_for_orientation, DMDO_180, DMDO_270, DMDO_90, DMDO_DEFAULT,
};

#[test]
fn orientation_defaults_to_landscape_for_wide_resolution() {
    assert_eq!(desired_display_orientation(1920, 1080, false), DMDO_DEFAULT);
}

#[test]
fn orientation_uses_portrait_for_tall_resolution() {
    assert_eq!(desired_display_orientation(1080, 1920, false), DMDO_90);
}

#[test]
fn orientation_uses_flipped_variant_when_requested() {
    assert_eq!(desired_display_orientation(1920, 1080, true), DMDO_180);
    assert_eq!(desired_display_orientation(1080, 1920, true), DMDO_270);
}

#[test]
fn flipped_orientation_detection_matches_expected_values() {
    assert!(!is_flipped_orientation(DMDO_DEFAULT));
    assert!(!is_flipped_orientation(DMDO_90));
    assert!(is_flipped_orientation(DMDO_180));
    assert!(is_flipped_orientation(DMDO_270));
}

#[test]
fn mode_dimensions_swap_for_portrait_landscape_transition() {
    assert_eq!(
        mode_dimensions_for_orientation_transition(1920, 1080, DMDO_90, DMDO_DEFAULT),
        (1080, 1920)
    );
    assert_eq!(
        mode_dimensions_for_orientation_transition(1080, 1920, DMDO_DEFAULT, DMDO_90),
        (1920, 1080)
    );
}

#[test]
fn mode_dimensions_stay_same_when_orientation_class_unchanged() {
    assert_eq!(
        mode_dimensions_for_orientation_transition(1920, 1080, DMDO_DEFAULT, DMDO_180),
        (1920, 1080)
    );
    assert_eq!(
        mode_dimensions_for_orientation_transition(1080, 1920, DMDO_90, DMDO_270),
        (1080, 1920)
    );
}

#[test]
fn normalize_resolution_matches_portrait_orientation() {
    assert_eq!(
        normalize_resolution_for_orientation((1920, 1080), DMDO_90),
        (1080, 1920)
    );
    assert_eq!(
        normalize_resolution_for_orientation((1080, 1920), DMDO_90),
        (1080, 1920)
    );
}

#[test]
fn normalize_resolution_matches_landscape_orientation() {
    assert_eq!(
        normalize_resolution_for_orientation((1080, 1920), DMDO_DEFAULT),
        (1920, 1080)
    );
    assert_eq!(
        normalize_resolution_for_orientation((1920, 1080), DMDO_DEFAULT),
        (1920, 1080)
    );
}

#[test]
fn portrait_checks() {
    assert!(is_portrait_resolution(1080, 1920));
    assert!(!is_portrait_resolution(1920, 1080));
    assert!(!is_portrait_resolution(1000, 1000));
    assert!(is_portrait_orientation(DMDO_90));
    assert!(is_portrait_orientation(DMDO_270));
    assert!(!is_portrait_orientation(DMDO_DEFAULT));
    assert!(!is_portrait_orientation(DMDO_180));
}

#[test]
fn desired_orientation_agrees_with_request() {
    for &(w, h) in &[(1920u16, 1080u16), (1080, 1920), (800, 800)] {
        for &flip in &[false, true] {
            let o = desired_display_orientation(w, h, flip);
            assert_eq!(is_flipped_orientation(o), flip);
            assert_eq!(is_portrait_orientation(o), is_portrait_resolution(w, h));
        }
    }
}

fn monitor(name: &str, index: u8, x: i32, y: i32, w: u16, h: u16, primary: bool) -> MonitorInfo {
    MonitorInfo {
        device_name: name.to_string(),
        index,
        position: (x, y),
        resolution: (w, h),
        refresh_rate: 60,
        display_orientation: DMDO_DEFAULT,
        is_primary: primary,
    }
}

fn two_monitors() -> Vec<MonitorInfo> {
    vec![
        monitor("\\\\.\\DISPLAY1", 1, 0, 0, 1920, 1080, true),
        monitor("\\\\.\\DISPLAY2", 2, 1920, -200, 2560, 1440, false),
    ]
}

#[test]
fn set_monitor_mode_reports_unknown_monitor() {
    assert_eq!(
        set_monitor_mode(&two_monitors(), 7, None, None, false),
        Err(DisplayError::MonitorNotFound { index: 7 })
    );
}

#[test]
fn set_monitor_mode_skips_matching_mode() {
    assert_eq!(set_monitor_mode(&two_monitors(), 2, None, None, false), Ok(None));
    assert_eq!(
        set_monitor_mode(&two_monitors(), 2, Some([2560, 1440]), Some(60), false),
        Ok(None)
    );
}

#[test]
fn set_monitor_mode_plans_portrait_mode() {
    assert_eq!(
        set_monitor_mode(&two_monitors(), 2, Some([1440, 2560]), Some(144), false),
        Ok(Some(ModeRequest {
            device_name: "\\\\.\\DISPLAY2".to_string(),
            width: 1440,
            height: 2560,
            refresh_rate: 144,
            orientation: DMDO_90,
        }))
    );
}

#[test]
fn primary_already_primary_needs_nothing() {
    assert_eq!(
        set_primary_monitor(&two_monitors(), 1, None, None, false),
        Ok(PrimarySwitchPlan::AlreadyPrimary)
    );
}

#[test]
fn primary_with_new_mode_changes_mode_only() {
    assert_eq!(
        set_primary_monitor(&two_monitors(), 1, None, Some(120), true),
        Ok(PrimarySwitchPlan::ModeOnly(ModeRequest {
            device_name: "\\\\.\\DISPLAY1".to_string(),
            width: 1920,
            height: 1080,
            refresh_rate: 120,
            orientation: DMDO_180,
        }))
    );
}

#[test]
fn switching_primary_moves_every_other_monitor() {
    assert_eq!(
        set_primary_monitor(&two_monitors(), 2, None, None, false),
        Ok(PrimarySwitchPlan::Switch {
            target_device: "\\\\.\\DISPLAY2".to_string(),
            repositions: vec![Reposition {
                device_name: "\\\\.\\DISPLAY1".to_string(),
                x: -1920,
                y: 200,
            }],
            then_mode: None,
        })
    );
}

#[test]
fn orientation_override_is_used() {
    let plan = set_primary_monitor_with_orientation(
        &two_monitors(),
        2,
        Some([2560, 1440]),
        Some(60),
        false,
        Some(DMDO_180),
    );
    match plan {
        Ok(PrimarySwitchPlan::Switch { then_mode, .. }) => assert_eq!(
            then_mode,
            Some(ModeRequest {
                device_name: "\\\\.\\DISPLAY2".to_string(),
                width: 2560,
                height: 1440,
                refresh_rate: 60,
                orientation: DMDO_180,
            })
        ),
        other => panic!("unexpected plan {other:?}"),
    }
}

#[test]
fn snapshot_records_primary_and_all_modes() {
    let mut monitors = two_monitors();
    monitors[1].display_orientation = DMDO_270;
    monitors[1].resolution = (2560, 1440);
    let snapshot = current_primary_snapshot(&monitors).expect("primary present");
    assert_eq!(snapshot.primary, 1);
    assert_eq!(snapshot.primary_device_name, "\\\\.\\DISPLAY1");
    assert_eq!(snapshot.resolution, (1920, 1080));
    assert!(!snapshot.flip_orientation);
    assert_eq!(snapshot.monitor_modes.len(), 2);
    assert_eq!(snapshot.monitor_modes[1].resolution, (1440, 2560));
    assert_eq!(snapshot.monitor_modes[1].display_orientation, DMDO_270);
}

#[test]
fn snapshot_needs_a_primary() {
    let mut monitors = two_monitors();
    monitors[0].is_primary = false;
    assert_eq!(
        current_primary_snapshot(&monitors),
        Err(DisplayError::NoPrimaryMonitor)
    );
}

#[test]
fn restore_plan_finds_primary_by_name_and_skips_missing() {
    let snapshot = DisplaySnapshot {
        primary: 9,
        primary_device_name: "\\\\.\\DISPLAY2".to_string(),
        resolution: (2560, 1440),
        refresh_rate: 144,
        flip_orientation: false,
        display_orientation: DMDO_DEFAULT,
        monitor_modes: vec![
            DisplayModeSnapshot {
                device_name: "\\\\.\\DISPLAY1".to_string(),
                resolution: (1920, 1080),
                refresh_rate: 60,
                display_orientation: DMDO_DEFAULT,
            },
            DisplayModeSnapshot {
                device_name: "\\\\.\\DISPLAY2".to_string(),
                resolution: (2560, 1440),
                refresh_rate: 144,
                display_orientation: DMDO_DEFAULT,
            },
            DisplayModeSnapshot {
                device_name: "\\\\.\\DISPLAY3".to_string(),
                resolution: (1280, 1024),
                refresh_rate: 75,
                display_orientation: DMDO_90,
            },
        ],
    };
    let plan = restore_display_snapshot(&snapshot, &two_monitors());
    assert_eq!(plan.primary_index, 2);
    assert_eq!(plan.resolution, [2560, 1440]);
    assert_eq!(plan.refresh_rate, 144);
    assert_eq!(
        plan.mode_restores,
        vec![ModeRequest {
            device_name: "\\\\.\\DISPLAY1".to_string(),
            width: 1920,
            height: 1080,
            refresh_rate: 60,
            orientation: DMDO_DEFAULT,
        }]
    );
    assert_eq!(plan.missing_devices, vec!["\\\\.\\DISPLAY3".to_string()]);
}

#[test]
fn restore_plan_falls_back_to_saved_label() {
    let snapshot = DisplaySnapshot {
        primary: 4,
        primary_device_name: "\\\\.\\DISPLAY9".to_string(),
        resolution: (1920, 1080),
        refresh_rate: 60,
        flip_orientation: true,
        display_orientation: DMDO_180,
        monitor_modes: Vec::new(),
    };
    let plan = restore_display_snapshot(&snapshot, &two_monitors());
    assert_eq!(plan.primary_index, 4);
    assert!(plan.flip_orientation);
    assert_eq!(plan.orientation, DMDO_180);
}

#[test]
fn mode_attempts_try_both_ways_round() {
    let sp = |w, h| ModeAttempt { strategy: ModeStrategy::SinglePass, width: w, height: h };
    let of = |w, h| ModeAttempt { strategy: ModeStrategy::OrientationFirst, width: w, height: h };
    assert_eq!(
        mode_attempts(1920, 1080),
        vec![sp(1920, 1080), sp(1080, 1920), of(1920, 1080), of(1080, 1920)]
    );
    assert_eq!(mode_attempts(1000, 1000), vec![sp(1000, 1000), of(1000, 1000)]);
}

#[test]
fn orientation_step_only_when_orientation_changes() {
    assert_eq!(orientation_step(1920, 1080, DMDO_DEFAULT, DMDO_DEFAULT), None);
    assert_eq!(orientation_step(1920, 1080, DMDO_DEFAULT, DMDO_90), Some((1080, 1920)));
    assert_eq!(orientation_step(1920, 1080, DMDO_DEFAULT, DMDO_180), Some((1920, 1080)));
}

#[test]
fn display_change_status_is_checked() {
    assert_eq!(ensure_display_change_success(0), Ok(()));
    assert_eq!(
        ensure_display_change_success(-2),
        Err(DisplayError::DisplayChangeFailed { code: -2 })
    );
}

#[test]
fn display_device_flags() {
    assert!(is_attached_to_desktop(0x1 | 0x4));
    assert!(!is_attached_to_desktop(0x4));
    let m = monitor_from_display_mode("D".to_string(), 0x5, (10, 20), 1920, 1080, 0, DMDO_90);
    assert!(m.is_primary);
    assert_eq!(m.refresh_rate, 60);
    assert_eq!(m.index, 0);
    assert_eq!(m.resolution, (1920, 1080));
    let n = monitor_from_display_mode("E".to_string(), 0x1, (0, 0), 800, 600, 75, DMDO_DEFAULT);
    assert!(!n.is_primary);
    assert_eq!(n.refresh_rate, 75);
}

#[test]
fn display_query_outcomes() {
    assert_eq!(display_query_outcome(1, 122, 0), QueryOutcome::Retry);
    assert_eq!(display_query_outcome(3, 122, 0), QueryOutcome::Failed { status: 122 });
    assert_eq!(display_query_outcome(1, 87, 2), QueryOutcome::Failed { status: 87 });
    assert_eq!(display_query_outcome(1, 0, 0), QueryOutcome::NoActivePaths);
    assert_eq!(display_query_outcome(1, 0, 2), QueryOutcome::Paths);
}

#[test]
fn labels_follow_path_order_and_skip_duplicates() {
    let names = vec![
        Some("\\\\.\\DISPLAY2".to_string()),
        None,
        Some("\\\\.\\DISPLAY1".to_string()),
        Some("\\\\.\\DISPLAY2".to_string()),
    ];
    let labels = label_indices(&names).expect("labels");
    assert_eq!(
        labels,
        vec![
            MonitorLabel { device_name: "\\\\.\\DISPLAY2".to_string(), index: 1 },
            MonitorLabel { device_name: "\\\\.\\DISPLAY1".to_string(), index: 2 },
        ]
    );
}

#[test]
fn labels_need_a_readable_source() {
    assert_eq!(
        label_indices(&vec![None, None]),
        Err(DisplayError::NoUsableLabels {
            path_count: 2,
            source_name_failures: 2,
            ordinal_overflow: 0
        })
    );
}

#[test]
fn labels_stop_at_255() {
    let names: Vec<Option<String>> = (0..257).map(|i| Some(format!("D{i}"))).collect();
    let labels = label_indices(&names).expect("labels");
    assert_eq!(labels.len(), 255);
    assert_eq!(labels[254].index, 255);
}

#[test]
fn monitors_take_their_labels() {
    let labels = vec![
        MonitorLabel { device_name: "\\\\.\\DISPLAY2".to_string(), index: 1 },
        MonitorLabel { device_name: "\\\\.\\DISPLAY1".to_string(), index: 2 },
    ];
    let monitors = assign_monitor_indices(two_monitors(), &labels).expect("all labelled");
    assert_eq!(monitors[0].index, 2);
    assert_eq!(monitors[1].index, 1);
    let missing = assign_monitor_indices(two_monitors(), &labels[..1].to_vec());
    assert_eq!(
        missing,
        Err(DisplayError::MissingMonitorLabel {
            device_name: "\\\\.\\DISPLAY1".to_string(),
            known_labels: vec!["\\\\.\\DISPLAY2".to_string()],
        })
    );
}

#[test]
fn failed_attempts_are_reported_in_order() {
    let first = attempt_failure_message(
        ModeAttempt { strategy: ModeStrategy::SinglePass, width: 1920, height: 1080 },
        60,
        "bad mode",
    );
    assert_eq!(first, "single-pass 1920x1080@60Hz failed: bad mode");
    let second = attempt_failure_message(
        ModeAttempt { strategy: ModeStrategy::OrientationFirst, width: 0, height: 7 },
        144,
        "x",
    );
    assert_eq!(second, "orientation-first 0x7@144Hz failed: x");
    assert_eq!(
        fallback_failure_message(&vec![first, second]),
        "failed to apply monitor mode after fallback attempts: single-pass 1920x1080@60Hz failed: bad mode | orientation-first 0x7@144Hz failed: x"
    );
    assert_eq!(
        fallback_failure_message(&vec![]),
        "failed to apply monitor mode after fallback attempts: "
    );
}

#[test]
fn display_errors_read_as_before() {
    assert_eq!(
        DisplayError::MonitorNotFound { index: 3 }.message(),
        "target monitor index 3 not found"
    );
    assert_eq!(DisplayError::NoPrimaryMonitor.message(), "no primary monitor found");
    assert_eq!(
        DisplayError::DisplayChangeFailed { code: -2 }.message(),
        "display API returned status code -2"
    );
    assert_eq!(
        DisplayError::DisplayChangeFailed { code: i32::MIN }.message(),
        "display API returned status code -2147483648"
    );
    assert_eq!(
        DisplayError::NoActivePaths.message(),
        "QueryDisplayConfig(QDC_ONLY_ACTIVE_PATHS) returned zero active display paths"
    );
    assert_eq!(
        DisplayError::NoUsableLabels { path_count: 2, source_name_failures: 1, ordinal_overflow: 0 }
            .message(),
        "DisplayConfig returned 2 active path(s) but no usable source labels (device_info_failures=1, ordinal_overflow=0)"
    );
    assert_eq!(
        DisplayError::ConfigQueryFailed { status: 87 }.message_with("bad parameter", ""),
        "QueryDisplayConfig(QDC_ONLY_ACTIVE_PATHS) failed with status 87 (bad parameter)"
    );
    assert_eq!(
        DisplayError::BufferSizeQueryFailed { status: 5 }.message_with("denied", ""),
        "GetDisplayConfigBufferSizes(QDC_ONLY_ACTIVE_PATHS) failed with status 5 (denied)"
    );
    assert!(DisplayError::ConfigQueryFailed { status: 87 }
        .message()
        .starts_with("QueryDisplayConfig(QDC_ONLY_ACTIVE_PATHS) failed with status 87 ("));
}

#[test]
fn missing_label_lists_known_labels_sorted() {
    let labels = vec!["\\\\.\\DISPLAY2".to_string(), "\\\\.\\DISPLAY10".to_string(), "A".to_string()];
    assert_eq!(
        sorted_labels(&labels),
        vec!["A".to_string(), "\\\\.\\DISPLAY10".to_string(), "\\\\.\\DISPLAY2".to_string()]
    );
    let error = DisplayError::MissingMonitorLabel {
        device_name: "\\\\.\\DISPLAY3".to_string(),
        known_labels: labels,
    };
    assert_eq!(
        error.message(),
        "DisplayConfig did not return a label for active monitor '\\\\.\\DISPLAY3' (known labels: [\"A\", \"\\\\\\\\.\\\\DISPLAY10\", \"\\\\\\\\.\\\\DISPLAY2\"])"
    );
    assert_eq!(
        error.message_with("", "[]"),
        "DisplayConfig did not return a label for active monitor '\\\\.\\DISPLAY3' (known labels: [])"
    );
}
