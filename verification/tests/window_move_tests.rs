use process_display_helper::window_move::{clamp_window_origin, window_target_origin, Rect};

#[test]
fn clamp_window_origin_clamps_to_bounds() {
    assert_eq!(clamp_window_origin(50, 600, 100, 800), 100);
    assert_eq!(clamp_window_origin(500, 600, 100, 800), 200);
    assert_eq!(clamp_window_origin(150, 600, 100, 800), 150);
}

#[test]
fn clamp_window_origin_pins_when_window_larger_than_target() {
    assert_eq!(clamp_window_origin(300, 900, 100, 800), 100);
}

#[test]
fn window_keeps_its_offset_on_the_target_monitor() {
    let window = Rect { left: 100, top: 50, right: 900, bottom: 650 };
    let source = Rect { left: 0, top: 0, right: 1920, bottom: 1080 };
    assert_eq!(
        window_target_origin(window, source, (1920, 0), (2560, 1440)),
        Some((2020, 50))
    );
}

#[test]
fn window_is_pulled_back_onto_a_smaller_monitor() {
    let window = Rect { left: 1500, top: 900, right: 1900, bottom: 1060 };
    let source = Rect { left: 0, top: 0, right: 1920, bottom: 1080 };
    assert_eq!(
        window_target_origin(window, source, (-1280, 0), (1280, 1024)),
        Some((-400, 864))
    );
}

#[test]
fn window_move_overflow_is_reported() {
    let window = Rect { left: i32::MIN, top: 0, right: i32::MAX, bottom: 10 };
    let source = Rect { left: 0, top: 0, right: 10, bottom: 10 };
    assert_eq!(window_target_origin(window, source, (0, 0), (100, 100)), None);
}
