use apollo_core::cron::cron_zero_step;
use apollo_core::health::{CrashLog, CrashRecord};
use apollo_core::instances::{
    build_path, count_running, group_by_tenant, instance_id, launch_env, memory_limit_mb, monitor_step,
    needs_recovery, parse_memory_limit, parse_u64, started_instance, stop_agent_instances, stop_instance,
    upsert_instance, volume_env, volume_env_key, MonitorAction, ProcessRuntime,
    harden_path, path_components_of, path_starts_with, PathEscape,
};
use apollo_core::memory::MemoryStore;
use apollo_core::node_ops::{
    admit_run, events_rotation, group_started_status, node_id_for, parse_secret_keys, request_identity,
    unresolved_step_status, RateLimiter, RunRefusal,
};
use apollo_core::orchestration::{GroupStatus, StepStatus};
use apollo_core::policy::{PolicyDecision, PolicyViolation};
use apollo_core::runtime_registry::{readiness_given, RuntimeReadiness, TargetOs};
use apollo_core::scheduler::Schedule;
use apollo_core::types::{AgentRuntimeConfig, RuntimeInstallConfig, VolumeSpec};

#[test]
fn runtime_paths() {
    let rt = ProcessRuntime::new("/srv/apollo".to_string());
    assert_eq!(rt.agent_code_dir("bot"), "/srv/apollo/agents/bot");
    assert_eq!(rt.tenant_workspace_dir("t1", "bot"), "/srv/apollo/tenants/t1/bot");
    assert_eq!(rt.tenant_log_file("t1", "bot"), "/srv/apollo/logs/t1/bot.log");
    assert_eq!(rt.runtimes_dir(), "/srv/apollo/runtimes");
    assert_eq!(rt.pid_file("t1", "bot"), "/srv/apollo/tenants/t1/bot/.apollo.pid");
    assert_eq!(rt.volume_dir("t1", "bot", "data"), "/srv/apollo/volumes/t1/bot/data");
}

#[test]
fn instance_records() {
    assert_eq!(instance_id("bot", 1_700_012_345), "bot-12345");
    let a = started_instance("bot", "t1", Some(42), 9000, 1_700_012_345);
    assert_eq!(a.status, "running");
    assert_eq!(a.stats.last_restart, 1_700_012_345);
    let mut list = vec![a];
    upsert_instance(&mut list, started_instance("web", "t1", None, 9001, 5));
    assert_eq!(list.len(), 2);
    let mut again = started_instance("bot", "t1", Some(43), 9000, 1_700_012_345);
    again.port = Some(1);
    upsert_instance(&mut list, again);
    assert_eq!(list.len(), 2);
    assert_eq!(list[0].pid, Some(43));
    assert_eq!(count_running(&list), 2);
    assert_eq!(stop_instance(&mut list, "bot", "t1"), Some(Some(43)));
    assert_eq!(list[0].status, "stopped");
    assert_eq!(list[0].pid, None);
    assert_eq!(stop_instance(&mut list, "web", "t1"), Some(None));
    assert_eq!(list[1].status, "running");
    assert_eq!(stop_instance(&mut list, "nope", "t1"), None);
    assert_eq!(count_running(&list), 1);
    assert!(needs_recovery(&list[1], false));
    assert!(!needs_recovery(&list[1], true));
    assert!(!needs_recovery(&list[0], false));
}

#[test]
fn group_stop_and_grouping() {
    let mut list = vec![
        started_instance("bot", "t1", Some(1), 1, 1),
        started_instance("bot", "t2", Some(2), 2, 2),
        started_instance("web", "t1", Some(3), 3, 3),
        started_instance("bot", "t1", None, 4, 4),
    ];
    let stopped = stop_agent_instances(&mut list, "bot");
    assert_eq!(stopped.iter().map(|p| p.0).collect::<Vec<_>>(), vec![1, 2]);
    assert_eq!(list[0].status, "stopped");
    assert_eq!(list[2].status, "running");
    assert_eq!(list[3].status, "running");
    let groups = group_by_tenant(list);
    assert_eq!(groups.len(), 2);
    assert_eq!(groups[0].0, "t1");
    assert_eq!(groups[0].1.len(), 3);
    assert_eq!(groups[1].0, "t2");
    assert_eq!(groups[1].1.len(), 1);
}

#[test]
fn memory_limits() {
    assert_eq!(parse_u64("+42"), Some(42));
    assert_eq!(parse_u64("-1"), None);
    assert_eq!(parse_u64(""), None);
    assert_eq!(parse_u64("18446744073709551616"), None);
    assert_eq!(parse_memory_limit("2GB"), 2048);
    assert_eq!(parse_memory_limit(" 256 mb"), 256);
    assert_eq!(parse_memory_limit("lots gb"), 1024);
    assert_eq!(parse_memory_limit("xmb"), 512);
    assert_eq!(parse_memory_limit("1tb"), 512);
    assert_eq!(parse_memory_limit("3gbgb"), 3072);
    assert_eq!(memory_limit_mb("18014398509481984gb"), None);
    assert_eq!(memory_limit_mb("1gb"), Some(1024));
}

#[test]
fn resource_monitor() {
    assert!(matches!(monitor_step(0, 600, 512, false), (MonitorAction::KillForMemory, 0)));
    assert!(matches!(monitor_step(1, 100, 512, true), (MonitorAction::Continue, 2)));
    assert!(matches!(monitor_step(2, 100, 512, true), (MonitorAction::KillForCpu, 3)));
    assert!(matches!(monitor_step(2, 100, 512, false), (MonitorAction::Continue, 0)));
}

#[test]
fn launch_environment() {
    assert_eq!(volume_env_key("my-data"), "APOLLO_VOLUME_MY_DATA");
    let rt = ProcessRuntime::new("/b".to_string());
    let vols = volume_env(&rt, "t", "bot", &vec![VolumeSpec { name: "cache".to_string(), size: "1gb".to_string() }]);
    assert_eq!(vols, vec![("APOLLO_VOLUME_CACHE".to_string(), "/b/volumes/t/bot/cache".to_string())]);
    let agent_env = vec![("LOG".to_string(), "1".to_string()), ("PATH".to_string(), "/evil".to_string())];
    let secrets = vec![("APOLLO_PORT".to_string(), "1".to_string()), ("TOKEN".to_string(), "x".to_string())];
    let env = launch_env("/usr/bin", "t", "bot", 8080, "/w", &agent_env, &secrets, &vols);
    let keys: Vec<&str> = env.iter().map(|p| p.0.as_str()).collect();
    assert_eq!(
        keys,
        vec![
            "PATH", "PYTHONUNBUFFERED", "NODE_NO_WARNINGS", "APOLLO_TENANT_ID", "APOLLO_AGENT_NAME", "APOLLO_PORT",
            "APOLLO_WORKSPACE", "NO_PROXY", "APOLLO_NETWORK_ALLOW_INTERNAL", "LOG", "TOKEN", "APOLLO_VOLUME_CACHE"
        ]
    );
    assert_eq!(env[5].1, "8080");
    let path = build_path("/nonexistent/runtimes", "python3");
    assert_eq!(path, "/usr/local/bin:/usr/bin:/bin:/usr/sbin:/sbin:/opt/homebrew/bin:/opt/homebrew/sbin:/usr/local/go/bin");
}

fn runtime(kind: &str, command: Option<&str>, install: Option<RuntimeInstallConfig>) -> AgentRuntimeConfig {
    AgentRuntimeConfig { kind: kind.to_string(), entry: "main".to_string(), env: None, command: command.map(|c| c.to_string()), install }
}

#[test]
fn runtime_readiness_decisions() {
    assert!(matches!(readiness_given(&runtime("sh", None, None), TargetOs::Linux, false, false, false), RuntimeReadiness::Ready));
    assert!(matches!(readiness_given(&runtime("go", None, None), TargetOs::Linux, true, false, false), RuntimeReadiness::Ready));
    assert!(matches!(
        readiness_given(&runtime("deno", Some("deno run {entry}"), None), TargetOs::Linux, false, false, true),
        RuntimeReadiness::Ready
    ));
    let install = RuntimeInstallConfig { linux: Some("https://l/x.tgz".to_string()), macos: None, windows: None, script: None, sha256: None };
    match readiness_given(&runtime("node", None, Some(install)), TargetOs::MacOs, false, false, false) {
        RuntimeReadiness::Install(u) => assert_eq!(u, "https://l/x.tgz"),
        _ => panic!("expected an install"),
    }
    match readiness_given(&runtime("python", None, None), TargetOs::Linux, false, false, false) {
        RuntimeReadiness::Missing(m) => assert!(m.starts_with("Runtime 'python' (binary: 'python3') is not installed")),
        _ => panic!("expected a missing runtime"),
    }
}

#[test]
fn rate_limiter_per_key() {
    let mut rl = RateLimiter::new(100); // 10 ms apart
    assert!(rl.check("a", 1_000_000_000));
    assert!(!rl.check("a", 1_005_000_000));
    assert!(rl.check("b", 1_005_000_000));
    assert!(rl.check("a", 1_010_000_000));
    assert_eq!(rl.buckets.len(), 2);
}

#[test]
fn keys_and_identities() {
    assert_eq!(parse_secret_keys(None), vec!["apollo-dev-secret"]);
    assert_eq!(parse_secret_keys(Some(" k1 , k2,")), vec!["k1", "k2", ""]);
    let valid = vec!["k1".to_string(), "k2".to_string()];
    assert_eq!(request_identity(Some("k2"), &valid, None), Some("k2".to_string()));
    assert_eq!(request_identity(Some("zz"), &valid, None), None);
    assert_eq!(
        request_identity(Some("zz"), &valid, Some(("alice".to_string(), vec![]))),
        Some("jwt:alice".to_string())
    );
    assert_eq!(request_identity(None, &valid, Some(("bob".to_string(), vec!["k1".to_string()]))), Some("jwt:bob".to_string()));
    assert_eq!(request_identity(None, &valid, Some(("eve".to_string(), vec!["x".to_string()]))), None);
    assert_eq!(node_id_for(1_700_012_345), "node-2345");
}

#[test]
fn admission_and_outcomes() {
    assert!(admit_run(PolicyDecision::Allow, 1, 2).is_ok());
    assert!(matches!(admit_run(PolicyDecision::Allow, 2, 2), Err(RunRefusal::AtCapacity)));
    match admit_run(PolicyDecision::Deny { reason: "no".to_string(), code: PolicyViolation::AgentBlocked }, 0, 2) {
        Err(RunRefusal::Policy(r)) => assert_eq!(r, "no"),
        _ => panic!("expected a policy refusal"),
    }
    assert!(matches!(group_started_status(0), GroupStatus::Running));
    assert!(matches!(group_started_status(2), GroupStatus::Error));
    assert!(matches!(unresolved_step_status(true), StepStatus::Skipped));
    assert!(matches!(unresolved_step_status(false), StepStatus::Failed));
    assert!(events_rotation("/b", 10).is_empty());
    let r = events_rotation("/b", 200 * 1024 * 1024);
    assert_eq!(r[2], ("/b/events.jsonl".to_string(), "/b/events.jsonl.1".to_string()));
    assert_eq!(r[0].1, "/b/events.jsonl.3");
}

#[test]
fn preconditions_can_be_checked() {
    assert!(cron_zero_step("*/0 * * * *"));
    assert!(!cron_zero_step("*/5 * * * *"));
    // a malformed field before the zero step wins
    assert!(!cron_zero_step("x */0 * * *"));
    assert!(!Schedule::Cron { expression: "0 */0 * * *".to_string() }.next_after_ok(10));
    assert!(!Schedule::Interval { secs: 10 }.next_after_ok(u64::MAX - 5));
    assert!(Schedule::Once { at: 1 }.next_after_ok(u64::MAX));
    assert!(MemoryStore::new().well_formed());
    let log = CrashLog::new();
    assert!(log.can_record_crash(1_000, None, &None, false, 0));
    let far = CrashLog {
        crash_count: 2,
        recent_crashes: vec![
            CrashRecord { timestamp: 0, exit_code: None, signal: None, was_oom: false, restart_attempted: false },
            CrashRecord { timestamp: u64::MAX - 400, exit_code: None, signal: None, was_oom: false, restart_attempted: false },
        ],
        restart_count: 0,
        last_crash_ts: None,
        crash_pattern: None,
    };
    // the new crash keeps only the recent one of these, so the pattern is computable
    assert!(far.can_record_crash(u64::MAX - 300, None, &None, false, 0));
}

#[test]
fn path_components_follow_std() {
    assert_eq!(path_components_of("/srv//apollo/./agents/"), vec!["/", "srv", "apollo", "agents"]);
    assert_eq!(path_components_of("./a/b"), vec![".", "a", "b"]);
    assert_eq!(path_components_of("."), vec!["."]);
    assert_eq!(path_components_of("a/../b"), vec!["a", "..", "b"]);
    assert!(path_components_of("").is_empty());
    for (p, b) in [("/srv/a/b", "/srv/a"), ("/srv/a/b", "/srv/ab"), ("x/y", "x"), ("/x", "x"), ("./x/y", "x/y")] {
        assert_eq!(path_starts_with(p, b), std::path::Path::new(p).starts_with(b), "{} {}", p, b);
    }
}

#[test]
fn entries_are_confined_to_the_code_dir() {
    let root = "/srv/apollo/agents/bot";
    assert_eq!(harden_path(root, "/srv/apollo/agents/bot/main.py").ok().as_deref(), Some("/srv/apollo/agents/bot/main.py"));
    assert!(matches!(harden_path(root, "/srv/apollo/agents/bot2/main.py"), Err(PathEscape::Escape)));
    assert!(matches!(harden_path(root, "/etc/passwd"), Err(PathEscape::Escape)));
    assert!(harden_path(root, "/srv/apollo/agents/bot/").is_ok());
}
