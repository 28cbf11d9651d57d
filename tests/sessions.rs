use usage_tracker::sessions::split_sessions;
use usage_tracker::usage::{usage_days, usage_for_pings};
use usage_tracker::event_log::EventLog;

#[test]
fn gap_equal_to_threshold_keeps_one_session() {
    assert_eq!(split_sessions(&vec![0, 10], 10), vec![(0, 1)]);
}

#[test]
fn gap_above_threshold_splits() {
    assert_eq!(split_sessions(&vec![0, 11], 10), vec![(0, 0), (1, 1)]);
}

#[test]
fn sessions_are_ordered_runs() {
    let pings = vec![0, 3, 5, 20, 21, 40];
    let spans = split_sessions(&pings, 5);
    assert_eq!(spans, vec![(0, 2), (3, 4), (5, 5)]);
    for w in spans.windows(2) {
        assert!(pings[w[0].1] < pings[w[1].0]);
        assert!(pings[w[1].0] - pings[w[0].1] > 5);
    }
}

#[test]
fn no_pings_no_sessions() {
    assert!(split_sessions(&vec![], 10).is_empty());
    assert!(usage_days(&vec![], &vec![], 10).is_empty());
    assert!(usage_for_pings(&vec![], 10).is_empty());
}

#[test]
fn record_then_query_round_trip() {
    let t: i64 = 1_700_000_000;
    let mut log = EventLog::new();
    log.record(t);
    log.record(t + 1);
    let pings = log.query(t, t + 1);
    assert_eq!(pings, vec![t, t + 1]);
    let days = usage_for_pings(&pings, 5);
    assert_eq!(days.len(), 1);
    assert_eq!(days[0].sessions.len(), 1);
    assert_eq!(days[0].sessions[0].start_ts, t);
    assert_eq!(days[0].sessions[0].end_ts, t + 1);
    assert_eq!(days[0].sessions[0].duration_minutes, 1);
}

#[test]
fn day_total_uses_unrounded_seconds() {
    let pings = vec![0, 90, 1000, 1095];
    let days = usage_days(&pings, &vec![0, 0, 0, 0], 120);
    assert_eq!(days.len(), 1);
    assert_eq!(days[0].sessions.len(), 2);
    assert_eq!(days[0].sessions[0].duration_minutes, 2);
    assert_eq!(days[0].sessions[1].duration_minutes, 2);
    assert_eq!(days[0].total_minutes, 3);
}

#[test]
fn labels_follow_local_time() {
    let ts: i64 = 13 * 3600 + 5 * 60;
    let days = usage_days(&vec![ts, ts + 600], &vec![0, 0], 900);
    assert_eq!(days[0].date, "1970-01-01");
    assert_eq!(days[0].sessions[0].start, "13:05");
    assert_eq!(days[0].sessions[0].end, "13:15");
    assert_eq!(days[0].sessions[0].duration_minutes, 10);
    assert_eq!(days[0].total_minutes, 10);
    let shifted = usage_days(&vec![ts], &vec![-14 * 3600], 900);
    assert_eq!(shifted[0].date, "1969-12-31");
    assert_eq!(shifted[0].sessions[0].start, "23:05");
}

#[test]
fn pings_split_by_local_day() {
    let day: i64 = 86400;
    let pings = vec![day - 60, day - 30, day + 30, 3 * day + 10];
    let days = usage_days(&pings, &vec![0, 0, 0, 0], 3600);
    assert_eq!(days.len(), 3);
    assert_eq!(days[0].date, "1970-01-01");
    assert_eq!(days[1].date, "1970-01-02");
    assert_eq!(days[2].date, "1970-01-04");
    assert_eq!(days[0].sessions.len(), 1);
    assert_eq!(days[0].sessions[0].start, "23:59");
    assert_eq!(days[1].sessions[0].start_ts, day + 30);
    assert_eq!(days[1].sessions[0].start, "00:00");
}

#[test]
fn rounding_of_session_minutes() {
    let days = usage_days(&vec![0, 29], &vec![0, 0], 60);
    assert_eq!(days[0].sessions[0].duration_minutes, 1);
    assert_eq!(days[0].total_minutes, 0);
    let days = usage_days(&vec![0, 60, 120, 149], &vec![0, 0, 0, 0], 60);
    assert_eq!(days[0].sessions[0].duration_minutes, 2);
    let days = usage_days(&vec![0, 60, 120, 150], &vec![0, 0, 0, 0], 60);
    assert_eq!(days[0].sessions[0].duration_minutes, 3);
    assert_eq!(days[0].total_minutes, 2);
}

#[test]
fn single_ping_is_one_minute_session() {
    let days = usage_days(&vec![500], &vec![0], 10);
    assert_eq!(days[0].sessions.len(), 1);
    assert_eq!(days[0].sessions[0].start, days[0].sessions[0].end);
    assert_eq!(days[0].sessions[0].duration_minutes, 1);
}

#[test]
fn unlabelable_pings_are_left_out() {
    let days = usage_for_pings(&vec![i64::MIN, 100, i64::MAX], 10);
    assert_eq!(days.len(), 1);
    assert_eq!(days[0].sessions[0].start_ts, 100);
}
