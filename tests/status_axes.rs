use penger3d::axis::{enabled_axes, Axe};
use penger3d::status::{StatusLine, ERROR_FRAMES};

#[test]
fn axes_come_in_x_y_z_order() {
    assert_eq!(enabled_axes(true, true, true), vec![Axe::X, Axe::Y, Axe::Z]);
    assert_eq!(enabled_axes(false, true, false), vec![Axe::Y]);
    assert_eq!(enabled_axes(true, false, true), vec![Axe::X, Axe::Z]);
    assert!(enabled_axes(false, false, false).is_empty());
}

#[test]
fn new_status_line_is_empty() {
    let s = StatusLine::new();
    assert_eq!(s.message(), "");
    assert_eq!(s.frames_left(), 0);
}

#[test]
fn error_shows_for_fixed_number_of_frames() {
    let mut s = StatusLine::new();
    s.report_error(String::from("Last Error: 'gone'."));
    assert_eq!(s.frames_left(), ERROR_FRAMES);
    assert_eq!(ERROR_FRAMES, 200);
    for _ in 0..ERROR_FRAMES - 1 {
        s.tick();
        assert_eq!(s.message(), "Last Error: 'gone'.");
    }
    assert_eq!(s.frames_left(), 1);
    s.tick();
    assert_eq!(s.message(), "");
    assert_eq!(s.frames_left(), 0);
    s.tick();
    assert_eq!(s.message(), "");
    assert_eq!(s.frames_left(), 0);
}

#[test]
fn clear_removes_message_at_once() {
    let mut s = StatusLine::new();
    s.report_error(String::from("bad"));
    s.tick();
    s.clear();
    assert_eq!(s.message(), "");
    assert_eq!(s.frames_left(), 0);
}
