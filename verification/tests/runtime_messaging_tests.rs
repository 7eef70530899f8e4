use apollo_core::calendar::{days_to_ymd, is_leap, unix_to_parts};
use apollo_core::messaging::{compact_topic, peek_latest, poll, publish, topic_stats, BusMessage, TopicMeta};
use apollo_core::runtime_registry::{
    all_instances_index_path, instances_path, platform_install_url, resolve_launch, launch_given, runtime_binary_name, LaunchError,
    TargetOs,
};
use apollo_core::tracing::{summarize_trace, SpanStatus, TokenUsage, TraceSpan};
use apollo_core::types::{AgentRuntimeConfig, RuntimeInstallConfig};
use std::collections::HashMap;

fn runtime(kind: &str, command: Option<&str>) -> AgentRuntimeConfig {
    AgentRuntimeConfig {
        kind: kind.to_string(),
        entry: "main".to_string(),
        env: None,
        command: command.map(|c| c.to_string()),
        install: None,
    }
}

#[test]
fn launch_from_template_splits_quoted_words() {
    let rt = runtime("python3", Some("  python3 -u \"{entry}\" --name 'my agent' "));
    let (bin, args) = resolve_launch(&rt, "/agents/a/main.py", "/nonexistent/runtimes").ok().unwrap();
    assert_eq!(bin, "python3");
    assert_eq!(args, vec!["-u", "/agents/a/main.py", "--name", "my agent"]);
    let empty = runtime("python3", Some("   "));
    assert!(matches!(resolve_launch(&empty, "x", "/r"), Err(LaunchError::EmptyTemplate)));
}

#[test]
fn launch_by_runtime_kind() {
    let (bin, args) = resolve_launch(&runtime("go", None), "/a/main.go", "/nonexistent/runtimes").ok().unwrap();
    assert_eq!(bin, "go");
    assert_eq!(args, vec!["run", "/a/main.go"]);
    let (bin, args) = resolve_launch(&runtime("shell", None), "/a/run.sh", "/nonexistent/runtimes").ok().unwrap();
    assert_eq!(bin, "sh");
    assert_eq!(args, vec!["-c", "/a/run.sh"]);
    let (bin, args) = resolve_launch(&runtime("rust", None), "/a/agent", "/nonexistent/runtimes").ok().unwrap();
    assert_eq!(bin, "/a/agent");
    assert!(args.is_empty());
}

#[test]
fn binary_names_and_install_urls() {
    assert_eq!(runtime_binary_name("python"), "python3");
    assert_eq!(runtime_binary_name("nodejs"), "node");
    assert_eq!(runtime_binary_name("powershell"), "pwsh");
    assert_eq!(runtime_binary_name("zig"), "zig");
    let install = RuntimeInstallConfig {
        linux: Some("https://l".to_string()),
        macos: None,
        windows: Some("https://w".to_string()),
        script: None,
        sha256: None,
    };
    assert_eq!(platform_install_url(&install, TargetOs::MacOs).as_deref(), Some("https://l"));
    assert_eq!(platform_install_url(&install, TargetOs::Windows).as_deref(), Some("https://w"));
    assert_eq!(instances_path("/d", "t 1"), "/d/instances/t_1.json");
    assert_eq!(all_instances_index_path("/d"), "/d/instances/_index.json");
}

#[test]
fn calendar_conversion() {
    assert!(is_leap(2024));
    assert!(!is_leap(1900));
    assert!(is_leap(2000));
    assert_eq!(days_to_ymd(0), (1970, 1, 1));
    assert_eq!(days_to_ymd(19_675), (2023, 11, 14));
    assert_eq!(days_to_ymd(11_016), (2000, 2, 29));
    let t = unix_to_parts(1_700_000_000);
    assert_eq!((t.month, t.dom, t.hour, t.minute, t.dow), (11, 14, 22, 13, 2));
}

fn message(seq: u64, ts: u64, ttl: Option<u64>) -> BusMessage {
    BusMessage {
        id: format!("m{}", seq),
        seq,
        topic: "t".to_string(),
        sender_tenant: "a".to_string(),
        sender_agent: "b".to_string(),
        payload: serde_json::Value::Null,
        timestamp: ts,
        ttl_secs: ttl,
    }
}

#[test]
fn publishing_numbers_messages() {
    let mut meta = TopicMeta::new();
    let m1 = publish(&mut meta, "events", "t1", "a1", serde_json::Value::Bool(true), None, 100);
    let m2 = publish(&mut meta, "events", "t1", "a1", serde_json::Value::Bool(false), Some(5), 200);
    assert_eq!((m1.seq, m2.seq), (1, 2));
    assert_eq!(meta.created_at, 100);
    assert_eq!(meta.last_message_at, Some(200));
    assert_eq!(m1.id.len(), 36);
    let s = topic_stats("events".to_string(), &meta);
    assert_eq!(s.total_messages, 2);
}

#[test]
fn polling_and_peeking() {
    let ms = || vec![message(1, 100, None), message(2, 100, Some(10)), message(3, 150, None), message(4, 160, None)];
    let r = poll(ms(), 1, 10, 200);
    assert_eq!(r.iter().map(|m| m.seq).collect::<Vec<_>>(), vec![3, 4]);
    let r = poll(ms(), 0, 1, 105);
    assert_eq!(r.iter().map(|m| m.seq).collect::<Vec<_>>(), vec![1]);
    let r = peek_latest(ms(), 2, 200);
    assert_eq!(r.iter().map(|m| m.seq).collect::<Vec<_>>(), vec![3, 4]);
    assert!(peek_latest(ms(), 0, 200).is_empty());
    let (kept, removed) = compact_topic(ms(), 4, 200);
    assert_eq!(kept.len(), 3);
    assert_eq!(removed, 1);
}

fn span(name: &str, parent: Option<&str>, start: u64, end: Option<u64>, status: SpanStatus, tokens: Option<(u64, u64)>) -> TraceSpan {
    TraceSpan {
        span_id: name.to_string(),
        trace_id: "tr".to_string(),
        parent_span_id: parent.map(|p| p.to_string()),
        tenant_id: "tenant1".to_string(),
        agent_id: "agent1".to_string(),
        name: name.to_string(),
        attributes: HashMap::new(),
        events: vec![],
        token_usage: tokens.map(|(i, o)| TokenUsage {
            model: "gpt-4o".to_string(),
            input_tokens: i,
            output_tokens: o,
            cost_usd_bits: 0.001f64.to_bits(),
            provider: "openai".to_string(),
        }),
        status,
        error: None,
        start_ts_ms: start,
        end_ts_ms: end,
        duration_ms: end.map(|e| e - start),
    }
}

#[test]
fn trace_summary() {
    let spans = vec![
        span("step", Some("root"), 1_010, Some(1_200), SpanStatus::Success, Some((10, 500))),
        span("root", None, 1_000, Some(1_500), SpanStatus::Success, None),
        span("tool", Some("root"), 1_050, Some(1_100), SpanStatus::Error, Some((5, 5))),
    ];
    let t = summarize_trace(&spans, 9_999);
    assert_eq!(t.root_span, "root");
    assert_eq!(t.span_count, 3);
    assert_eq!(t.total_tokens, 520);
    assert_eq!(t.duration_ms, Some(500));
    assert!(matches!(t.status, SpanStatus::Error));
    assert_eq!(t.start_ts_ms, 1_000);

    let none = summarize_trace(&vec![], 42);
    assert_eq!(none.root_span, "unknown");
    assert_eq!(none.start_ts_ms, 42);
    assert_eq!(none.duration_ms, None);
}

#[test]
fn launch_picks_the_local_copy_exactly_when_it_exists() {
    let go = runtime("go", None);
    let (bin, args) = launch_given(&go, "/a/main.go", "/r", false).ok().unwrap();
    assert_eq!(bin, "go");
    assert_eq!(args, vec!["run", "/a/main.go"]);
    let (bin, _) = launch_given(&go, "/a/main.go", "/r", true).ok().unwrap();
    assert_eq!(bin, "/r/go/go");
    let (bin, args) = launch_given(&runtime("java", None), "/a/app.jar", "/r", false).ok().unwrap();
    assert_eq!((bin.as_str(), args), ("java", vec!["-jar".to_string(), "/a/app.jar".to_string()]));
    let (bin, args) = launch_given(&runtime("sh", None), "/a/run.sh", "/r", false).ok().unwrap();
    assert_eq!((bin.as_str(), args), ("sh", vec!["-c".to_string(), "/a/run.sh".to_string()]));
    let (bin, args) = launch_given(&runtime("rust", None), "/a/bin", "/r", true).ok().unwrap();
    assert_eq!((bin.as_str(), args.len()), ("/a/bin", 0));
    let (bin, _) = resolve_launch(&runtime("python", None), "/a/m.py", "/nonexistent/runtimes").ok().unwrap();
    assert_eq!(bin, "python3");
    match launch_given(&runtime("python3", Some("")), "x", "/r", true) {
        Err(e) => assert_eq!(e.message(), "Empty command template in agent.yaml"),
        Ok(_) => panic!("an empty template launches nothing"),
    }
}
