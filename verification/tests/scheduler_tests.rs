use apollo_core::cron::next_cron;
use apollo_core::scheduler::{
    create_job, create_job_with_id, delete_job, due_jobs, load_job, mark_fired, recent_history, update_job,
    JobRunRecord, Schedule, ScheduledJob, SchedulerError,
};
use std::collections::HashMap;

const NOW: u64 = 1_700_000_000;

fn make_job(tenant: &str, agent: &str, schedule: Schedule) -> ScheduledJob {
    ScheduledJob {
        id: String::new(),
        name: "test-job".to_string(),
        tenant_id: tenant.to_string(),
        agent_id: agent.to_string(),
        extra_env: HashMap::new(),
        schedule,
        enabled: true,
        created_at: 0,
        updated_at: 0,
        last_run: None,
        next_run: 0,
        run_count: 0,
        fail_count: 0,
    }
}

#[test]
fn test_create_and_load_job() {
    let mut jobs = Vec::new();
    let job = create_job(&mut jobs, make_job("t1", "openclaw", Schedule::Interval { secs: 300 }), NOW);

    assert!(!job.id.is_empty());
    assert!(job.next_run > 0);

    let loaded = load_job(jobs, &job.id).unwrap();
    assert_eq!(loaded.agent_id, "openclaw");
}

#[test]
fn test_delete_job() {
    let mut jobs = Vec::new();
    let job = create_job(&mut jobs, make_job("t1", "a1", Schedule::Once { at: u64::MAX }), NOW);

    delete_job(&mut jobs, &job.id).ok().unwrap();
    assert!(load_job(jobs, &job.id).is_none());
}

#[test]
fn test_interval_schedule_next_after() {
    let sched = Schedule::Interval { secs: 60 };
    let now = 1_000_000u64;
    let next = sched.next_after(now).unwrap();
    assert_eq!(next, now + 60);
}

#[test]
fn test_once_schedule_fires_once() {
    let future_ts = 9_999_999_999u64;
    let sched = Schedule::Once { at: future_ts };
    let now = 1_000u64;
    assert_eq!(sched.next_after(now).unwrap(), future_ts);
    // Past the scheduled time — no more fires
    assert!(sched.next_after(future_ts).is_none());
}

#[test]
fn test_cron_hourly() {
    // "0 * * * *" — every hour at minute 0
    let sched = Schedule::Cron { expression: "0 * * * *".to_string() };
    let now = 1_700_000_000u64; // some unix timestamp
    let next = sched.next_after(now).unwrap();
    assert!(next > now, "Next fire should be in the future");
    assert!(next - now <= 3600, "Next fire within an hour");
}

#[test]
fn test_due_jobs_returns_ready() {
    let now = NOW;
    let mut overdue = make_job("t1", "a1", Schedule::Interval { secs: 60 });
    overdue.id = "job-overdue".to_string();
    overdue.name = "overdue".to_string();
    overdue.created_at = now;
    overdue.updated_at = now;
    overdue.next_run = 1; // far in the past — overdue

    let mut future = make_job("t1", "a1", Schedule::Interval { secs: 86400 });
    future.id = "job-future".to_string();
    future.name = "future".to_string();
    future.created_at = now;
    future.updated_at = now;
    future.next_run = u64::MAX; // far in the future

    let due = due_jobs(vec![overdue, future], now);
    assert_eq!(due.len(), 1, "Only the overdue job should be returned");
    assert_eq!(due[0].id, "job-overdue");
}

#[test]
fn test_mark_fired_updates_state() {
    let mut jobs = Vec::new();
    let job = create_job(&mut jobs, make_job("t1", "a1", Schedule::Interval { secs: 60 }), NOW);

    mark_fired(&mut jobs, &job.id, true, None, NOW + 5);

    let updated = load_job(jobs, &job.id).unwrap();
    assert_eq!(updated.run_count, 1);
    assert!(updated.last_run.is_some());
}

#[test]
fn cron_known_values() {
    // 2023-11-14 22:13:20 UTC → next top of the hour is 23:00:00
    assert_eq!(next_cron("0 * * * *", 1_700_000_000), Some(1_700_002_800));
    // every 15 minutes
    assert_eq!(next_cron("*/15 * * * *", 1_700_000_000), Some(1_700_000_100));
    // daily at 09:30
    assert_eq!(next_cron("30 9 * * *", 1_700_000_000), Some(1_700_040_600));
    // malformed expressions never fire
    assert_eq!(next_cron("0 * * *", 1_700_000_000), None);
    assert_eq!(next_cron("61 * * * *", 1_700_000_000), None);
    assert_eq!(next_cron("a * * * *", 1_700_000_000), None);
}

#[test]
fn cron_day_of_week_and_month() {
    // Mondays at 00:00: 2023-11-14 is a Tuesday, so the next is 2023-11-20
    assert_eq!(next_cron("0 0 * * 1", 1_700_000_000), Some(1_700_438_400));
    // 1 January at 00:00 → 2024-01-01
    assert_eq!(next_cron("0 0 1 1 *", 1_700_000_000), Some(1_704_067_200));
}

#[test]
fn next_after_is_strictly_later() {
    let sched = Schedule::Cron { expression: "* * * * *".to_string() };
    let next = sched.next_after(120).unwrap();
    assert_eq!(next, 180);
}

#[test]
fn create_keeps_given_id_and_sets_times() {
    let mut jobs = Vec::new();
    let mut j = make_job("t", "a", Schedule::Interval { secs: 10 });
    j.id = "given".to_string();
    let r = create_job_with_id(&mut jobs, j, "other".to_string(), 100);
    assert_eq!(r.id, "given");
    assert_eq!(r.created_at, 100);
    assert_eq!(r.next_run, 110);
    assert_eq!(jobs.len(), 1);

    let r2 = create_job_with_id(&mut jobs, make_job("t", "a", Schedule::Once { at: 50 }), "fresh".to_string(), 100);
    assert_eq!(r2.id, "fresh");
    // no future fire: a minute from now
    assert_eq!(r2.next_run, 160);
}

#[test]
fn delete_missing_job_is_refused() {
    let mut jobs = vec![make_job("t", "a", Schedule::Interval { secs: 1 })];
    jobs[0].id = "x".to_string();
    match delete_job(&mut jobs, "nope") {
        Err(SchedulerError::NotFound(id)) => assert_eq!(id, "nope"),
        Ok(()) => panic!("expected NotFound"),
    }
    assert_eq!(jobs.len(), 1);
}

#[test]
fn update_job_recomputes_next_run() {
    let mut jobs = Vec::new();
    let mut j = make_job("t", "a", Schedule::Interval { secs: 10 });
    j.id = "u".to_string();
    create_job_with_id(&mut jobs, j, String::new(), 100);
    let mut changed = make_job("t", "b", Schedule::Interval { secs: 30 });
    changed.id = "u".to_string();
    let r = update_job(&mut jobs, changed, 200).ok().unwrap();
    assert_eq!(r.next_run, 230);
    assert_eq!(r.updated_at, 200);
    assert_eq!(jobs[0].agent_id, "b");

    let mut missing = make_job("t", "b", Schedule::Interval { secs: 30 });
    missing.id = "zz".to_string();
    assert!(matches!(update_job(&mut jobs, missing, 200), Err(SchedulerError::NotFound(_))));
}

#[test]
fn once_job_is_disabled_after_firing() {
    let mut jobs = Vec::new();
    let mut j = make_job("t", "a", Schedule::Once { at: 500 });
    j.id = "o".to_string();
    create_job_with_id(&mut jobs, j, String::new(), 100);
    let rec = mark_fired(&mut jobs, "o", false, Some("boom".to_string()), 600);
    assert_eq!(rec.status, "error");
    assert_eq!(rec.fired_at, 600);
    assert_eq!(jobs[0].fail_count, 1);
    assert!(!jobs[0].enabled);
    assert_eq!(jobs[0].next_run, 600 + 86400);
}

#[test]
fn history_is_newest_first_and_limited() {
    let recs: Vec<JobRunRecord> = (0..5)
        .map(|i| JobRunRecord {
            job_id: format!("j{}", i),
            fired_at: i,
            status: "ok".to_string(),
            message: None,
            duration_ms: None,
        })
        .collect();
    let r = recent_history(recs, 2);
    assert_eq!(r.len(), 2);
    assert_eq!(r[0].fired_at, 4);
    assert_eq!(r[1].fired_at, 3);
}

#[test]
fn restricted_day_fields_match_either_day() {
    // 1970-01-02 is the first Friday; the 13th comes later.
    assert_eq!(next_cron("0 0 13 * 5", 0), Some(86_400));
    assert_eq!(
        Schedule::Cron { expression: "0 0 13 * 5".to_string() }.next_after(0),
        Some(86_400)
    );
    // With an unrestricted day of week, only the 13th matches.
    assert_eq!(next_cron("0 0 13 * *", 0), Some(12 * 86_400));
    // A day of week starting with `*` leaves both day fields required.
    assert_eq!(next_cron("0 0 13 * */1", 0), Some(12 * 86_400));
    // Malformed expressions give nothing at any time.
    assert_eq!(next_cron("0 * * *", u64::MAX - 10), None);
    assert!(!Schedule::Cron { expression: "60 * * * *".to_string() }.has_future(u64::MAX - 10));
}
