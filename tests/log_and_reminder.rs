use usage_tracker::config::AppConfig;
use usage_tracker::event_log::EventLog;
use usage_tracker::reminder::ReminderState;
use usage_tracker::sampler::{get_idle_time, idle_millis_from_ticks, is_media_playing};

#[test]
fn recording_twice_equals_once() {
    let mut once = EventLog::new();
    once.record(42);
    let mut twice = EventLog::new();
    twice.record(42);
    twice.record(42);
    assert_eq!(once.query(0, 100), twice.query(0, 100));
    assert_eq!(twice.query(0, 100), vec![42]);
}

#[test]
fn query_is_inclusive_and_ascending() {
    let mut log = EventLog::new();
    for t in [30, 10, 20, 40, 10] {
        log.record(t);
    }
    assert_eq!(log.query(10, 30), vec![10, 20, 30]);
    assert_eq!(log.query(41, 50), Vec::<i64>::new());
    assert_eq!(log.query(i64::MIN, i64::MAX), vec![10, 20, 30, 40]);
}

fn reminder_config(minutes: u32) -> AppConfig {
    let mut cfg = AppConfig::default();
    cfg.break_reminder_threshold_minutes = minutes;
    cfg
}

#[test]
fn reminder_fires_after_twelve_active_ticks() {
    let cfg = reminder_config(1);
    let mut state = ReminderState::new();
    for _ in 0..11 {
        let a = state.tick(0, false, &cfg);
        assert!(a.is_active);
        assert!(!a.show_reminder);
    }
    assert_eq!(state.active_seconds, 55);
    let a = state.tick(0, false, &cfg);
    assert!(a.show_reminder);
    assert_eq!(state.active_seconds, 0);
    let a = state.tick(0, false, &cfg);
    assert!(!a.show_reminder);
    assert_eq!(state.active_seconds, 5);
}

#[test]
fn long_idle_resets_credit() {
    let cfg = AppConfig::default();
    let mut state = ReminderState { active_seconds: 300 };
    let a = state.tick(119_999, false, &cfg);
    assert!(!a.is_active);
    assert_eq!(state.active_seconds, 300);
    let a = state.tick(120_000, false, &cfg);
    assert!(!a.is_active && !a.show_reminder);
    assert_eq!(state.active_seconds, 0);
}

#[test]
fn media_keeps_user_active() {
    let cfg = AppConfig::default();
    let mut state = ReminderState::new();
    let a = state.tick(600_000, true, &cfg);
    assert!(a.is_active);
    assert_eq!(state.active_seconds, 5);
}

#[test]
fn disabled_reminders_never_fire() {
    let mut cfg = reminder_config(1);
    cfg.break_reminder_enabled = false;
    let mut state = ReminderState::new();
    for _ in 0..30 {
        assert!(!state.tick(0, false, &cfg).show_reminder);
    }
    assert_eq!(state.active_seconds, 150);
}

#[test]
fn default_config_values() {
    let cfg = AppConfig::default();
    assert_eq!(cfg.break_threshold_seconds, 120);
    assert_eq!(cfg.break_reminder_threshold_minutes, 55);
    assert!(cfg.break_reminder_enabled);
    assert!(cfg.show_debug_view);
    assert!(!cfg.show_fullscreen_svg);
}

#[test]
fn idle_ticks_across_wraparound() {
    assert_eq!(idle_millis_from_ticks(10_000, 4_000), 6_000);
    assert_eq!(idle_millis_from_ticks(0x1_0000_0010, 0xFFFF_FFF0), 0x20);
    assert_eq!(idle_millis_from_ticks(0x5_0000_0000, 0), 0);
    assert_eq!(idle_millis_from_ticks(5, 10), 0);
}

#[test]
fn fallback_sampler_reports_active() {
    assert_eq!(get_idle_time(), 0);
    assert!(!is_media_playing());
}
