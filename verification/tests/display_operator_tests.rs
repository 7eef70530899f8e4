use apollo_core::display::{
    clock_text, format_next, format_next_compact, health_bar, health_tint, status_str, status_tint, strip_ansi,
    strip_ansi_len, textwrap, Tint,
};
use apollo_core::operator::{
    default_replicas, node_base_url, reconcile_plan, running_estimate, status_timestamp, unix_to_ymd, ApolloAgentSpec,
    SecretKeyRef,
};

#[test]
fn ansi_sequences_are_invisible() {
    assert_eq!(strip_ansi("\x1b[32mok\x1b[0m done"), "ok done");
    assert_eq!(strip_ansi_len("\x1b[1;31mé\x1b[0m"), 1);
    assert_eq!(strip_ansi("plain"), "plain");
}

#[test]
fn relative_times() {
    assert_eq!(format_next(100, 100), "overdue");
    assert_eq!(format_next(130, 100), "in 30s");
    assert_eq!(format_next(100 + 125, 100), "in 2m 5s");
    assert_eq!(format_next(100 + 7380, 100), "in 2h 3m");
    assert_eq!(format_next_compact(100 + 125, 100), "in 2m");
    assert_eq!(format_next_compact(100 + 7380, 100), "in 2h");
    assert_eq!(format_next_compact(50, 100), "overdue");
    assert_eq!(clock_text(1_700_000_000), "22:13:20 UTC");
    assert_eq!(clock_text(3_661), "01:01:01 UTC");
}

#[test]
fn words_wrap_at_width() {
    assert_eq!(textwrap("the quick brown fox", 10), vec!["the quick", "brown fox"]);
    assert_eq!(textwrap("  a   b  ", 72), vec!["a b"]);
    assert!(textwrap("", 10).is_empty());
    // a first word too long for the line leaves an empty first line
    assert_eq!(textwrap("abcdefghij k", 5), vec!["", "abcdefghij", "k"]);
}

#[test]
fn health_bars_and_states() {
    assert_eq!(strip_ansi(&health_bar(82)), "████████░░ 82");
    assert_eq!(strip_ansi(&health_bar(5)), "░░░░░░░░░░ 5");
    assert_eq!(strip_ansi(&health_bar(150)), "███████████████ 150");
    assert!(matches!(health_tint(80), Tint::Green));
    assert!(matches!(health_tint(79), Tint::Yellow));
    assert!(matches!(health_tint(39), Tint::Red));
    assert!(matches!(health_tint(101), Tint::Red));
    assert!(matches!(status_tint("running"), Tint::Green));
    assert!(matches!(status_tint("Critical"), Tint::RedBold));
    assert!(matches!(status_tint("other"), Tint::Dimmed));
    assert_eq!(strip_ansi(&status_str("Degraded")), "Degraded");
}

fn spec(replicas: u32) -> ApolloAgentSpec {
    ApolloAgentSpec {
        agent_id: "a".to_string(),
        tenant_id: "t".to_string(),
        agent_source: None,
        replicas,
        node_url: "http://node:8080/".to_string(),
        secret_key_ref: SecretKeyRef { name: "s".to_string(), key: "k".to_string() },
    }
}

#[test]
fn reconciliation_plans() {
    assert_eq!(default_replicas(), 1);
    let p = reconcile_plan(&spec(3), 1);
    assert_eq!((p.phase.as_str(), p.starts, p.stop_excess), ("Running", 2, false));
    assert_eq!(p.message, "1/3 instances running");
    let p = reconcile_plan(&spec(1), 4);
    assert_eq!((p.phase.as_str(), p.starts, p.stop_excess), ("Running", 0, true));
    assert_eq!(p.message, "1/1 instances running");
    let p = reconcile_plan(&spec(0), 0);
    assert_eq!((p.phase.as_str(), p.starts, p.stop_excess), ("Stopped", 0, false));
    assert_eq!(p.message, "0/0 instances running");
    assert_eq!(running_estimate(Some(5), Some(2)), 3);
    assert_eq!(running_estimate(Some(1), Some(2)), 0);
    assert_eq!(running_estimate(None, None), 0);
    assert_eq!(node_base_url("http://node:8080///"), "http://node:8080");
}

#[test]
fn operator_timestamps() {
    assert_eq!(unix_to_ymd(0), (1970, 1, 1, 0, 0, 0));
    // the operator's calendar counts 365-day years and 30-day months
    assert_eq!(unix_to_ymd(1_700_000_000), (2023, 12, 1, 22, 13, 20));
    assert_eq!(status_timestamp(1_700_000_000), "2023-12-01T22:13:20Z");
    assert_eq!(status_timestamp(59), "1970-01-01T00:00:59Z");
}

#[test]
fn colours_are_written_when_colouring_is_on() {
    colored::control::set_override(true);
    assert_eq!(status_str("running"), "\x1b[32mrunning\x1b[0m");
    assert_eq!(status_str("Critical"), "\x1b[1;31mCritical\x1b[0m");
    assert_eq!(status_str("odd"), "\x1b[2modd\x1b[0m");
    assert_eq!(health_bar(82), "\x1b[32m████████░░\x1b[0m\x1b[32m 82\x1b[0m");
    assert_eq!(health_bar(50), "\x1b[33m█████░░░░░\x1b[0m\x1b[33m 50\x1b[0m");
    colored::control::set_override(false);
    assert_eq!(status_str("Dead"), "Dead");
    assert_eq!(health_bar(5), "░░░░░░░░░░ 5");
    colored::control::unset_override();
}
