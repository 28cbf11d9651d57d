use usage_tracker::sampler::{hid_idle_millis, playback_asserted};
use usage_tracker::usage::usage_window;

#[test]
fn hid_idle_time_is_read_in_milliseconds() {
    let dump = b"+-o IOHIDSystem\n  | {\n  |   \"HIDIdleTime\" = 2500000000\n  | }\n";
    assert_eq!(hid_idle_millis(dump), 2500);
}

#[test]
fn hid_idle_time_skips_unreadable_lines() {
    let dump = b"\"HIDIdleTime\" = soon\r\n\"HIDIdleTime\" = +7000000 \r\n";
    assert_eq!(hid_idle_millis(dump), 7);
}

#[test]
fn hid_idle_time_without_field_is_zero() {
    assert_eq!(hid_idle_millis(b""), 0);
    assert_eq!(hid_idle_millis(b"HIDOther = 99999999999\n"), 0);
    assert_eq!(hid_idle_millis(b"HIDIdleTime = 99999999999999999999\n"), 0);
    assert_eq!(hid_idle_millis(b"HIDIdleTime = -5\n"), 0);
}

#[test]
fn playback_needs_assertion_and_flag_on_one_line() {
    let playing = b"Assertion status system-wide:\n   PreventUserIdleDisplaySleep    1\n";
    assert!(playback_asserted(playing));
    let idle = b"   PreventUserIdleDisplaySleep    0\n   PreventSystemSleep 1\n";
    assert!(!playback_asserted(idle));
    assert!(!playback_asserted(b""));
}

#[test]
fn usage_window_spans_one_more_day() {
    assert_eq!(usage_window(1_000_000, 0), Some((1_000_000 - 86400, 1_000_000)));
    assert_eq!(usage_window(1_000_000, 6), Some((1_000_000 - 7 * 86400, 1_000_000)));
    assert_eq!(usage_window(1_000_000, -1), None);
    assert_eq!(usage_window(i64::MIN + 86399, 0), None);
    assert_eq!(usage_window(i64::MIN + 86400, 0), Some((i64::MIN, i64::MIN + 86400)));
}
