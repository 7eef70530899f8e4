use apollo_core::policy::{compliance_report, PolicyDecision, PolicyEngine, PolicyViolation, TenantPolicy};

fn engine() -> PolicyEngine {
    PolicyEngine::new("/tmp/apollo-test".to_string())
}

fn policy() -> TenantPolicy {
    TenantPolicy::permissive("tenant1".to_string(), 0)
}

#[test]
fn test_default_policy_allows_all() {
    let engine = engine();
    // No policy set → the permissive policy: everything allowed
    let p = policy();
    let decision = engine.check_run(&p, "openclaw", "us-east-1", 0);
    assert!(matches!(decision, PolicyDecision::Allow));
}

#[test]
fn test_blocked_agent_is_denied() {
    let engine = engine();
    let mut p = policy();
    p.blocked_agents = vec!["dangerous-agent".to_string()];
    let decision = engine.check_run(&p, "dangerous-agent", "us-east-1", 0);
    assert!(matches!(decision, PolicyDecision::Deny { code: PolicyViolation::AgentBlocked, .. }));
}

#[test]
fn test_allowed_agents_whitelist() {
    let engine = engine();
    let mut p = policy();
    p.allowed_agents = Some(vec!["trusted-agent".to_string()]);

    let ok = engine.check_run(&p, "trusted-agent", "us-east-1", 0);
    assert!(matches!(ok, PolicyDecision::Allow));

    let deny = engine.check_run(&p, "other-agent", "us-east-1", 0);
    assert!(matches!(deny, PolicyDecision::Deny { code: PolicyViolation::AgentNotAllowed, .. }));
}

#[test]
fn test_region_residency_constraint() {
    let engine = engine();
    let mut p = policy();
    p.data_residency = Some("eu-west-1".to_string());

    let deny = engine.check_run(&p, "agent", "us-east-1", 0);
    assert!(matches!(deny, PolicyDecision::Deny { code: PolicyViolation::RegionMismatch, .. }));

    let ok = engine.check_run(&p, "agent", "eu-west-1", 0);
    assert!(matches!(ok, PolicyDecision::Allow));
}

#[test]
fn test_capacity_limit() {
    let engine = engine();
    let mut p = policy();
    p.max_instances = Some(2);

    assert!(matches!(engine.check_run(&p, "a", "us-east-1", 1), PolicyDecision::Allow));
    assert!(matches!(
        engine.check_run(&p, "a", "us-east-1", 2),
        PolicyDecision::Deny { code: PolicyViolation::CapacityExceeded, .. }
    ));
}

#[test]
fn test_tool_policy() {
    let engine = engine();
    let mut p = policy();
    p.blocked_tools = vec!["bash".to_string(), "file_write".to_string()];

    let deny = engine.check_tool(&p, "bash");
    assert!(matches!(deny, PolicyDecision::Deny { .. }));

    let ok = engine.check_tool(&p, "http_get");
    assert!(matches!(ok, PolicyDecision::Allow));
}

#[test]
fn test_compliance_report() {
    let mut p = TenantPolicy::permissive("t1".to_string(), 0);
    p.data_residency = Some("eu-west-1".to_string());
    p.require_audit = true;
    p.max_instances = Some(5);

    let report = compliance_report(p, "t1", true, 0);
    assert!(report.policy_active);
    assert_eq!(report.data_residency.as_deref(), Some("eu-west-1"));
    assert!(report.require_audit);
    assert_eq!(report.max_instances, Some(5));
}

#[test]
fn deny_reasons_name_the_subject() {
    let engine = engine();
    let mut p = policy();
    p.blocked_agents = vec!["x".to_string()];
    match engine.check_run(&p, "x", "r", 0) {
        PolicyDecision::Deny { reason, .. } => assert_eq!(reason, "Agent 'x' is blocked by tenant policy"),
        PolicyDecision::Allow => panic!("expected a denial"),
    }
    let mut p = policy();
    p.max_instances = Some(3);
    match engine.check_run(&p, "a", "r", 7) {
        PolicyDecision::Deny { reason, .. } => assert_eq!(reason, "Tenant capacity limit reached (7/3)"),
        PolicyDecision::Allow => panic!("expected a denial"),
    }
    let mut p = policy();
    p.data_residency = Some("eu".to_string());
    match engine.check_run(&p, "a", "us", 0) {
        PolicyDecision::Deny { reason, code } => {
            assert!(matches!(code, PolicyViolation::RegionMismatch));
            assert_eq!(reason, "Tenant data residency policy requires region 'eu', node is 'us'");
        }
        PolicyDecision::Allow => panic!("expected a denial"),
    }
}

#[test]
fn residency_any_allows_every_region() {
    let engine = engine();
    let mut p = policy();
    p.data_residency = Some("any".to_string());
    assert!(matches!(engine.check_run(&p, "a", "ap-south-1", 0), PolicyDecision::Allow));
}

#[test]
fn block_list_wins_over_allow_list() {
    let engine = engine();
    let mut p = policy();
    p.allowed_agents = Some(vec!["a".to_string()]);
    p.blocked_agents = vec!["a".to_string()];
    assert!(matches!(
        engine.check_run(&p, "a", "r", 0),
        PolicyDecision::Deny { code: PolicyViolation::AgentBlocked, .. }
    ));
}

#[test]
fn tool_allow_list_and_model_policy() {
    let engine = engine();
    let mut p = policy();
    p.allowed_tools = Some(vec!["http_get".to_string()]);
    match engine.check_tool(&p, "bash") {
        PolicyDecision::Deny { reason, code } => {
            assert!(matches!(code, PolicyViolation::ToolBlocked));
            assert_eq!(reason, "Tool 'bash' is not in tenant's allowed_tools list");
        }
        PolicyDecision::Allow => panic!("expected a denial"),
    }
    p.model_policy.allowed_models = Some(vec!["gpt-4o".to_string()]);
    assert!(matches!(engine.check_model(&p, "gpt-4o"), PolicyDecision::Allow));
    assert!(matches!(
        engine.check_model(&p, "llama"),
        PolicyDecision::Deny { code: PolicyViolation::ModelNotAllowed, .. }
    ));
    assert_eq!(engine.effective_rate_limit(&p), None);
}
