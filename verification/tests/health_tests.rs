use apollo_core::health::{detect_crash_pattern, fleet_counts, CrashLog, CrashRecord, HealthStatus};

fn crash(ts: u64, oom: bool) -> CrashRecord {
    CrashRecord { timestamp: ts, exit_code: Some(1), signal: None, was_oom: oom, restart_attempted: false }
}

#[test]
fn crash_is_counted_and_stamped() {
    let mut rec = CrashLog::new();
    rec.record_crash(1_000, Some(1), None, false, 0);
    assert!(rec.crash_count == 1);
    assert_eq!(rec.last_crash_ts, Some(1_000));
    assert!(rec.crash_pattern.is_none());
}

#[test]
fn test_oom_pattern_detection() {
    let mut rec = CrashLog::new();
    rec.record_crash(1_000, None, None, true, 0);
    rec.record_crash(1_001, None, None, true, 0);
    assert_eq!(rec.crash_pattern.as_deref(), Some("oom_loop"));
}

#[test]
fn startup_crashes_are_recognised() {
    let mut rec = CrashLog::new();
    rec.record_crash(1_005, Some(1), None, false, 1_000);
    rec.record_crash(1_010, Some(1), None, false, 1_000);
    assert_eq!(rec.crash_pattern.as_deref(), Some("startup_crash"));
}

#[test]
fn periodic_and_repeated_patterns() {
    let periodic = vec![crash(1_000, false), crash(1_060, false), crash(1_120, false), crash(1_180, false)];
    assert_eq!(detect_crash_pattern(&periodic, 0).as_deref(), Some("periodic"));
    let irregular = vec![crash(1_000, false), crash(1_010, false), crash(1_200, false)];
    assert_eq!(detect_crash_pattern(&irregular, 0).as_deref(), Some("repeated"));
    assert_eq!(detect_crash_pattern(&vec![crash(5, false)], 0), None);
}

#[test]
fn old_crashes_leave_the_window() {
    let mut rec = CrashLog::new();
    rec.record_crash(1_000, None, None, true, 0);
    rec.record_crash(2_000, None, None, true, 0);
    // the first crash is more than 300 s old
    assert_eq!(rec.recent_crashes.len(), 1);
    assert_eq!(rec.crash_count, 2);
    assert!(rec.crash_pattern.is_none());
}

#[test]
fn restart_budget() {
    let mut rec = CrashLog::new();
    rec.record_crash(1_000, Some(1), None, false, 0);
    assert!(rec.should_restart(&HealthStatus::Dead, 3, 600, 1_010));
    assert!(!rec.should_restart(&HealthStatus::Healthy, 3, 600, 1_010));
    rec.record_restart();
    assert_eq!(rec.restart_count, 1);
    assert!(rec.recent_crashes[0].restart_attempted);
    assert!(!rec.should_restart(&HealthStatus::Critical, 1, 600, 1_010));
    assert!(rec.should_restart(&HealthStatus::Critical, 2, 600, 1_010));
}

#[test]
fn fleet_counts_by_status() {
    let statuses = vec![HealthStatus::Healthy, HealthStatus::Critical, HealthStatus::Dead, HealthStatus::Healthy];
    let c = fleet_counts(&statuses, &vec![false, true, true, false]);
    assert_eq!(c.total_instances, 4);
    assert_eq!(c.healthy, 2);
    assert_eq!(c.critical, 1);
    assert_eq!(c.dead, 1);
    assert_eq!(c.degraded, 0);
    assert_eq!(c.instances_needing_restart, 2);
}
