use apollo_core::tracing::{
    index_file, latest_spans, summarize_trace, tokens_fit, trace_dir, trace_file, SpanStatus, TokenUsage, TraceSpan,
};
use apollo_core::layout::{
    health_path, job_history_path, jobs_path, memory_store_path, messages_path, meta_path, model_usage_path,
    models_registry_path, policy_path, secrets_path,
};
use std::collections::HashMap;

const NOW_MS: u64 = 1_700_000_000_000;

fn span(span_id: &str, trace_id: &str, tenant: &str, agent: &str, name: &str, start: u64) -> TraceSpan {
    TraceSpan {
        span_id: span_id.to_string(),
        trace_id: trace_id.to_string(),
        parent_span_id: None,
        tenant_id: tenant.to_string(),
        agent_id: agent.to_string(),
        name: name.to_string(),
        attributes: HashMap::new(),
        events: vec![],
        token_usage: None,
        status: SpanStatus::Running,
        error: None,
        start_ts_ms: start,
        end_ts_ms: None,
        duration_ms: None,
    }
}

#[test]
fn test_span_append_and_load() {
    let mut s = span("s1", "tr1", "tenant1", "agent1", "llm_inference", NOW_MS - 1000);
    s.token_usage = Some(TokenUsage {
        model: "gpt-4o".to_string(),
        input_tokens: 100,
        output_tokens: 50,
        cost_usd_bits: 0.0015f64.to_bits(),
        provider: "openai".to_string(),
    });
    s.status = SpanStatus::Success;
    s.end_ts_ms = Some(NOW_MS);
    s.duration_ms = Some(1000);
    // the trace file holds the appended record
    let spans = latest_spans(vec![s]);
    assert_eq!(spans.len(), 1);
    assert_eq!(spans[0].span_id, "s1");
    assert_eq!(spans[0].token_usage.as_ref().unwrap().input_tokens, 100);
}

#[test]
fn test_upsert_span_updates_existing() {
    let first = span("sp", "tr", "t1", "a1", "step", NOW_MS);
    let mut second = span("sp", "tr", "t1", "a1", "step", NOW_MS);
    second.status = SpanStatus::Success;
    second.end_ts_ms = Some(NOW_MS + 5);
    let spans = latest_spans(vec![first, second]);
    assert_eq!(spans.len(), 1, "Should not duplicate the span");
    assert!(matches!(spans[0].status, SpanStatus::Success));
}

#[test]
fn test_finalize_trace_builds_summary() {
    let mut records = Vec::new();
    for i in 0..3 {
        let mut s = span(&format!("s{}", i), "tr", "t1", "a1", "step", NOW_MS);
        s.token_usage = Some(TokenUsage {
            model: "gpt-4o".to_string(),
            input_tokens: 10,
            output_tokens: 5,
            cost_usd_bits: 0.001f64.to_bits(),
            provider: "openai".to_string(),
        });
        s.status = SpanStatus::Success;
        s.end_ts_ms = Some(NOW_MS + 500);
        s.duration_ms = Some(500);
        records.push(s);
    }
    let spans = latest_spans(records);
    assert!(tokens_fit(&spans));
    let summary = summarize_trace(&spans, NOW_MS);
    let cost: f64 = spans.iter().filter_map(|s| s.token_usage.as_ref()).map(|t| f64::from_bits(t.cost_usd_bits)).sum();
    assert_eq!(summary.span_count, 3);
    assert!((cost - 0.003).abs() < 1e-9);
    assert!(matches!(summary.status, SpanStatus::Success));
    assert_eq!(summary.total_tokens, 45);
}

#[test]
fn spans_come_out_by_start() {
    let spans = latest_spans(vec![
        span("c", "tr", "t", "a", "c", 30),
        span("a", "tr", "t", "a", "a", 10),
        span("b", "tr", "t", "a", "b", 20),
        span("a", "tr", "t", "a", "a2", 25),
    ]);
    let names: Vec<&str> = spans.iter().map(|s| s.name.as_str()).collect();
    assert_eq!(names, vec!["b", "a2", "c"]);
}

#[test]
fn trace_file_layout() {
    assert_eq!(trace_dir("/d", "t 1", "a/b"), "/d/traces/t_1/a_b");
    assert_eq!(trace_file("/d", "t", "a", "tr.1"), "/d/traces/t/a/tr_1.jsonl");
    assert_eq!(index_file("/d", "t", "a"), "/d/traces/t/a/_index.jsonl");
}

#[test]
fn storage_layout() {
    assert_eq!(jobs_path("/d"), "/d/scheduler/jobs.json");
    assert_eq!(job_history_path("/d", "j/1"), "/d/scheduler/history/j_1.jsonl");
    assert_eq!(policy_path("/d", "acme corp"), "/d/policies/acme_corp.json");
    assert_eq!(models_registry_path("/d"), "/d/models/registry.json");
    assert_eq!(model_usage_path("/d", "t"), "/d/models/usage/t.json");
    assert_eq!(memory_store_path("/d", "t", "a"), "/d/memory/t/a/store.json");
    assert_eq!(health_path("/d", "t", "a.b"), "/d/health/t/a_b.json");
    assert_eq!(secrets_path("/d", "t"), "/d/secrets/t.json");
    assert_eq!(messages_path("/d", "events"), "/d/messages/events/messages.jsonl");
    assert_eq!(meta_path("/d", "events"), "/d/messages/events/meta.json");
}

#[test]
fn spans_starting_together_keep_the_order_of_their_last_records() {
    let spans = latest_spans(vec![
        span("a", "tr", "t", "ag", "a", 5),
        span("b", "tr", "t", "ag", "b", 5),
        span("c", "tr", "t", "ag", "c", 1),
        span("a", "tr", "t", "ag", "a2", 5),
    ]);
    let ids: Vec<&str> = spans.iter().map(|s| s.span_id.as_str()).collect();
    assert_eq!(ids, vec!["c", "b", "a"]);
    assert_eq!(spans[2].name, "a2");
}
