use apollo_core::model_router::{register_model, remove_model, ModelRecord, ModelRouter, RouterError, RoutingRequest};
use apollo_core::policy::ModelPolicy;

fn make_model(id: &str, priority: i32, cost: f64, latency: u64) -> ModelRecord {
    ModelRecord {
        model_id: id.to_string(),
        provider: "test".to_string(),
        endpoint: None,
        cost_per_m_input_bits: cost.to_bits(),
        cost_per_m_output_bits: cost.to_bits(),
        latency_p50_ms: latency,
        latency_p99_ms: latency * 2,
        throughput_tok_s_bits: 100.0f32.to_bits(),
        capabilities: vec!["text".to_string()],
        context_window: 128_000,
        is_local: false,
        is_available: true,
        priority,
        registered_at: 0,
        updated_at: 0,
    }
}

fn request(preferred: Option<&str>, max_latency_ms: Option<u64>) -> RoutingRequest {
    RoutingRequest {
        tenant_id: "t1".to_string(),
        preferred_model: preferred.map(|s| s.to_string()),
        max_cost_usd_bits: None,
        input_tokens: None,
        output_tokens: None,
        required_capabilities: vec![],
        require_local: false,
        max_latency_ms,
    }
}

fn no_policy() -> ModelPolicy {
    ModelPolicy { allowed_models: None, preferred_model: None, max_cost_per_request_usd_bits: None, require_local: false }
}

fn router() -> ModelRouter {
    ModelRouter::new("/tmp/apollo-test".to_string())
}

fn selected(models: &Vec<ModelRecord>, req: &RoutingRequest) -> String {
    let ok = vec![true; models.len()];
    let choice = router().route(models, &no_policy(), req, &ok).ok().unwrap();
    models[choice.selected].model_id.clone()
}

#[test]
fn test_register_and_list() {
    let mut models = Vec::new();
    register_model(&mut models, make_model("m1", 1, 0.5, 200), 10);
    register_model(&mut models, make_model("m2", 2, 1.0, 100), 10);
    assert_eq!(models.len(), 2);
}

#[test]
fn test_route_selects_lowest_priority() {
    let mut models = Vec::new();
    register_model(&mut models, make_model("cheap-fast", 1, 0.5, 100), 10);
    register_model(&mut models, make_model("expensive-slow", 10, 5.0, 1000), 10);
    assert_eq!(selected(&models, &request(None, None)), "cheap-fast");
}

#[test]
fn test_route_respects_preferred_model() {
    let mut models = Vec::new();
    register_model(&mut models, make_model("m1", 1, 0.5, 100), 10);
    register_model(&mut models, make_model("m2", 2, 5.0, 500), 10);
    assert_eq!(selected(&models, &request(Some("m2"), None)), "m2");
}

#[test]
fn test_route_filters_by_latency() {
    let mut models = Vec::new();
    let mut slow_model = make_model("slow", 1, 0.1, 2000);
    slow_model.latency_p50_ms = 2000;
    register_model(&mut models, slow_model, 10);
    let mut fast_model = make_model("fast", 2, 1.0, 100);
    fast_model.latency_p50_ms = 100;
    register_model(&mut models, fast_model, 10);
    assert_eq!(selected(&models, &request(None, Some(500))), "fast");
}

#[test]
fn test_remove_model() {
    let mut models = Vec::new();
    register_model(&mut models, make_model("m1", 1, 0.5, 100), 10);
    remove_model(&mut models, "m1").ok().unwrap();
    assert!(models.is_empty());
}

#[test]
fn routing_errors() {
    let models: Vec<ModelRecord> = Vec::new();
    assert!(matches!(router().route(&models, &no_policy(), &request(None, None), &vec![]), Err(RouterError::NoModels)));
    let models = vec![make_model("m", 1, 1.0, 900)];
    assert!(matches!(
        router().route(&models, &no_policy(), &request(None, Some(10)), &vec![true]),
        Err(RouterError::NoMatch)
    ));
    // over the cost limit
    assert!(matches!(
        router().route(&models, &no_policy(), &request(None, None), &vec![false]),
        Err(RouterError::NoMatch)
    ));
    let mut models = models;
    match remove_model(&mut models, "zz") {
        Err(RouterError::NotFound(id)) => assert_eq!(id, "zz"),
        _ => panic!("expected NotFound"),
    }
}

#[test]
fn fallbacks_are_the_next_three_candidates() {
    let models: Vec<ModelRecord> = (0..6).map(|i| make_model(&format!("m{}", i), 6 - i, 1.0, 10)).collect();
    let ok = vec![true; models.len()];
    let c = router().route(&models, &no_policy(), &request(None, None), &ok).ok().unwrap();
    assert_eq!(models[c.selected].model_id, "m5");
    assert_eq!(c.fallback_models, vec!["m0", "m1", "m2"]);
}

#[test]
fn policy_allow_list_and_local_requirement() {
    let mut local = make_model("local", 5, 0.0, 10);
    local.is_local = true;
    let models = vec![make_model("remote", 1, 1.0, 10), local];
    let ok = vec![true, true];
    let mut mp = no_policy();
    mp.require_local = true;
    let c = router().route(&models, &mp, &request(None, None), &ok).ok().unwrap();
    assert_eq!(c.selected, 1);
    let mut mp = no_policy();
    mp.allowed_models = Some(vec!["remote".to_string()]);
    let c = router().route(&models, &mp, &request(Some("local"), None), &ok).ok().unwrap();
    assert_eq!(c.selected, 0);
}

#[test]
fn register_replaces_and_feedback_updates() {
    let mut models = Vec::new();
    register_model(&mut models, make_model("m", 1, 1.0, 100), 10);
    let again = register_model(&mut models, make_model("m", 3, 1.0, 100), 20);
    assert_eq!(models.len(), 1);
    assert_eq!(again.registered_at, 20);
    assert_eq!(models[0].priority, 3);

    let r = router();
    assert!(r.feedback(&mut models, "m", 5000, false, 0, 30));
    assert_eq!(models[0].latency_p99_ms, 5000);
    assert!(r.feedback(&mut models, "m", 50, true, 80, 31));
    assert_eq!(models[0].latency_p50_ms, 80);
    assert_eq!(models[0].updated_at, 31);
    assert!(!r.feedback(&mut models, "absent", 1, true, 1, 32));
}
