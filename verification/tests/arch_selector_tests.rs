use apollo_core::arch_selector::{
    analyse_dag, build_config, check_governance, quick_classify, rank_reasons, ArchitectureType,
    QuickClassifyRequest,
};
use apollo_core::orchestration::{WorkflowDef, WorkflowStep};
use apollo_core::policy::TenantPolicy;
use std::collections::HashMap;

fn make_step(id: &str, agent: &str, deps: Vec<&str>, optional: bool, timeout: Option<u64>) -> WorkflowStep {
    WorkflowStep {
        step_id: id.to_string(),
        name: id.to_string(),
        agent_id: agent.to_string(),
        depends_on: deps.into_iter().map(|s| s.to_string()).collect(),
        env: HashMap::new(),
        optional,
        timeout_secs: timeout,
    }
}

fn make_def(tenant: &str, steps: Vec<WorkflowStep>) -> WorkflowDef {
    WorkflowDef {
        id: "wf-test".to_string(),
        name: "Test Workflow".to_string(),
        description: String::new(),
        tenant_id: tenant.to_string(),
        steps,
        created_at: 0,
        updated_at: 0,
    }
}

fn confidence(top: u32, total: u32) -> f32 {
    if total == 0 {
        0.0
    } else {
        top as f32 / total as f32
    }
}

#[test]
fn test_empty_workflow_gives_default_metrics() {
    let def = make_def("t1", vec![]);
    let m = analyse_dag(&def);
    assert_eq!(m.step_count, 0);
    assert_eq!(m.distinct_agents, 0);
    assert_eq!(m.max_parallel_width, 0);
}

#[test]
fn test_single_step_dag() {
    let def = make_def("t1", vec![make_step("s1", "agent-a", vec![], false, Some(60))]);
    let m = analyse_dag(&def);
    assert_eq!(m.step_count, 1);
    assert_eq!(m.distinct_agents, 1);
    assert_eq!(m.max_parallel_width, 1);
    assert_eq!(m.critical_path_length, 1);
    assert_eq!(m.critical_path, vec!["s1"]);
    assert!(!m.has_branching);
    assert!(!m.has_fan_in);
    assert!(m.has_timeout_constraints);
    assert_eq!(m.optional_count, 0);
}

#[test]
fn test_linear_chain_dag() {
    // a → b → c
    let def = make_def(
        "t1",
        vec![
            make_step("a", "agent", vec![], false, None),
            make_step("b", "agent", vec!["a"], false, None),
            make_step("c", "agent", vec!["b"], false, None),
        ],
    );
    let m = analyse_dag(&def);
    assert_eq!(m.step_count, 3);
    assert_eq!(m.max_parallel_width, 1); // no parallelism
    assert_eq!(m.critical_path_length, 3);
    assert!(!m.has_branching);
    assert!(!m.has_fan_in);
}

#[test]
fn test_parallel_dag_width() {
    // root → [a, b, c] → join
    let def = make_def(
        "t1",
        vec![
            make_step("root", "ag", vec![], false, None),
            make_step("a", "ag", vec!["root"], false, None),
            make_step("b", "ag", vec!["root"], false, None),
            make_step("c", "ag", vec!["root"], false, None),
            make_step("join", "ag", vec!["a", "b", "c"], false, None),
        ],
    );
    let m = analyse_dag(&def);
    assert_eq!(m.step_count, 5);
    assert_eq!(m.max_parallel_width, 3, "Three steps at level 1 should give width 3");
    assert!(m.has_branching, "root has 3 successors");
    assert!(m.has_fan_in, "join has 3 predecessors");
    assert_eq!(m.critical_path_length, 3, "root → a|b|c → join");
}

#[test]
fn test_distinct_agents_count() {
    let def = make_def(
        "t1",
        vec![
            make_step("s1", "scraper", vec![], false, None),
            make_step("s2", "analyzer", vec!["s1"], false, None),
            make_step("s3", "reporter", vec!["s2"], false, None),
            make_step("s4", "scraper", vec!["s3"], false, None), // reuse
        ],
    );
    let m = analyse_dag(&def);
    assert_eq!(m.distinct_agents, 3); // scraper, analyzer, reporter
}

#[test]
fn test_optional_ratio() {
    let def = make_def(
        "t1",
        vec![
            make_step("s1", "a", vec![], false, None),
            make_step("s2", "a", vec![], true, None),
            make_step("s3", "a", vec![], true, None),
            make_step("s4", "a", vec![], false, None),
        ],
    );
    let m = analyse_dag(&def);
    let ratio = m.optional_count as f32 / m.step_count as f32;
    assert!((ratio - 0.5).abs() < 1e-6, "2/4 optional = 0.5");
}

#[test]
fn test_config_critical_path_populated() {
    let def = make_def(
        "t1",
        vec![
            make_step("a", "agent", vec![], false, None),
            make_step("b", "agent", vec!["a"], false, None),
            make_step("c", "agent", vec!["b"], false, None),
        ],
    );
    let policy = TenantPolicy::permissive("t1".to_string(), 0);
    let dag = analyse_dag(&def);
    let gov = check_governance(&policy, &def, "us-east-1");
    let config = build_config(&ArchitectureType::SingleAgent, &dag, &def, &gov);

    assert_eq!(config.critical_path.len(), 3);
    assert_eq!(config.phase_count, 3); // 3 topological levels
}

#[test]
fn test_suggested_timeout_sums_critical_path() {
    let def = make_def(
        "t1",
        vec![
            make_step("a", "agent", vec![], false, Some(100)),
            make_step("b", "agent", vec!["a"], false, Some(200)),
        ],
    );
    let policy = TenantPolicy::permissive("t1".to_string(), 0);
    let dag = analyse_dag(&def);
    let gov = check_governance(&policy, &def, "us-east-1");
    let config = build_config(&ArchitectureType::Deterministic, &dag, &def, &gov);

    assert_eq!(config.suggested_total_timeout_secs, Some(300));
}

#[test]
fn test_governance_skip_candidates_populated() {
    // Block "risky-agent" via policy
    let mut policy = TenantPolicy::permissive("t1".to_string(), 0);
    policy.blocked_agents = vec!["risky-agent".to_string()];

    // Workflow with a risky but optional step
    let def = make_def(
        "t1",
        vec![
            make_step("safe", "safe-agent", vec![], false, None),
            make_step("risky", "risky-agent", vec![], true, None), // optional
        ],
    );
    let dag = analyse_dag(&def);
    let gov = check_governance(&policy, &def, "us-east-1");
    let config = build_config(&ArchitectureType::MultiAgent, &dag, &def, &gov);

    assert!(!gov.all_agents_allowed);
    assert!(gov.blocked_agents.contains(&"risky-agent".to_string()));
    assert!(
        config.governance_skip_candidates.contains(&"risky".to_string()),
        "Optional blocked step should be a skip candidate"
    );
}

#[test]
fn test_quick_classify_single_tool_sequential() {
    let req = QuickClassifyRequest {
        tenant_id: "t1".to_string(),
        tool_count: 1,
        parallel_branches: 0,
        error_tolerance: 0,
        governance_strict: false,
    };
    let resp = quick_classify(&req);
    assert!(matches!(resp.architecture, ArchitectureType::Deterministic));
    assert!(!resp.one_line.is_empty());
}

#[test]
fn test_quick_classify_many_tools_parallel() {
    let req = QuickClassifyRequest {
        tenant_id: "t1".to_string(),
        tool_count: 6,
        parallel_branches: 4,
        error_tolerance: 3,
        governance_strict: false,
    };
    let resp = quick_classify(&req);
    assert!(matches!(resp.architecture, ArchitectureType::MultiAgent));
    assert!(confidence(resp.top_score, resp.total_score) > 0.3);
}

#[test]
fn test_quick_classify_two_tools_single_branch() {
    let req = QuickClassifyRequest {
        tenant_id: "t1".to_string(),
        tool_count: 2,
        parallel_branches: 1,
        error_tolerance: 1,
        governance_strict: false,
    };
    let resp = quick_classify(&req);
    assert!(matches!(resp.architecture, ArchitectureType::SingleAgent));
}

#[test]
fn test_quick_classify_strict_governance_nudges_deterministic() {
    let req = QuickClassifyRequest {
        tenant_id: "t1".to_string(),
        tool_count: 1,
        parallel_branches: 0,
        error_tolerance: 0,
        governance_strict: true,
    };
    let resp = quick_classify(&req);
    // With governance_strict + single tool + sequential → deterministic
    assert!(matches!(resp.architecture, ArchitectureType::Deterministic));
}

#[test]
fn critical_path_follows_the_longest_chain() {
    // a → b → d, c → d : the chain through b is the longest
    let def = make_def(
        "t1",
        vec![
            make_step("a", "x", vec![], false, None),
            make_step("c", "y", vec![], false, None),
            make_step("b", "x", vec!["a"], false, None),
            make_step("d", "x", vec!["b", "c"], false, None),
        ],
    );
    let m = analyse_dag(&def);
    assert_eq!(m.critical_path, vec!["a", "b", "d"]);
    assert_eq!(m.parallel_groups, vec![vec!["a", "c"], vec!["b"], vec!["d"]]);
    assert_eq!(m.max_parallel_width, 2);
    assert!(m.has_fan_in);
}

#[test]
fn cyclic_steps_are_left_out_of_the_levels() {
    let def = make_def(
        "t1",
        vec![
            make_step("a", "x", vec![], false, None),
            make_step("b", "x", vec!["c"], false, None),
            make_step("c", "x", vec!["b"], false, None),
        ],
    );
    let m = analyse_dag(&def);
    assert_eq!(m.step_count, 3);
    // steps on a cycle keep the level their processed predecessors gave them
    assert_eq!(m.parallel_groups, vec![vec!["a", "b", "c"]]);
}

#[test]
fn governance_reports_residency_and_strictness() {
    let mut policy = TenantPolicy::permissive("t1".to_string(), 0);
    policy.data_residency = Some("eu-west-1".to_string());
    policy.require_audit = true;
    let def = make_def("t1", vec![make_step("a", "x", vec![], false, None)]);
    let gov = check_governance(&policy, &def, "us-east-1");
    // the residency also refuses the step's agent on this node
    assert!(!gov.all_agents_allowed);
    assert!(!gov.data_residency_ok);
    assert!(gov.audit_required);
    assert_eq!(gov.strictness_pct, 50);
    assert_eq!(gov.policy_warnings.len(), 2);
    assert_eq!(
        gov.policy_warnings[1],
        "Data residency 'Some(\"eu-west-1\")' does not match node region 'us-east-1' \u{2014} workflow may be rejected"
    );
}

#[test]
fn multi_agent_config_caps_concurrency() {
    let steps: Vec<WorkflowStep> = (0..10).map(|i| make_step(&format!("s{}", i), "a", vec![], false, None)).collect();
    let def = make_def("t1", steps);
    let policy = TenantPolicy::permissive("t1".to_string(), 0);
    let dag = analyse_dag(&def);
    assert_eq!(dag.max_parallel_width, 10);
    let gov = check_governance(&policy, &def, "r");
    let config = build_config(&ArchitectureType::MultiAgent, &dag, &def, &gov);
    assert_eq!(config.max_concurrency, 8);
    assert!(!config.fail_fast);
    assert_eq!(config.suggested_total_timeout_secs, None);
    assert_eq!(config.retry_eligible_steps.len(), 9);
}

#[test]
fn reasons_are_ranked_by_weight() {
    let r = rank_reasons(vec![
        (10, "low".to_string()),
        (30, "high".to_string()),
        (20, "mid".to_string()),
        (30, "high2".to_string()),
        (5, "least".to_string()),
    ]);
    assert_eq!(r, vec!["high", "high2", "mid", "low", "least"]);
    let many: Vec<(i32, String)> = (0..9).map(|i| (i, format!("r{}", i))).collect();
    assert_eq!(rank_reasons(many), vec!["r8", "r7", "r6", "r5", "r4", "r3"]);
}

#[test]
fn architecture_names() {
    assert_eq!(ArchitectureType::Deterministic.name(), "deterministic");
    assert_eq!(ArchitectureType::SingleAgent.name(), "single_agent");
    assert_eq!(ArchitectureType::MultiAgent.name(), "multi_agent");
}

#[test]
fn dependencies_lie_in_earlier_groups() {
    let def = make_def(
        "t",
        vec![
            make_step("a", "x", vec![], false, None),
            make_step("b", "x", vec!["a"], false, None),
            make_step("c", "y", vec!["a"], false, None),
            make_step("d", "y", vec!["b", "c"], false, None),
            make_step("e", "z", vec!["a", "d"], false, None),
        ],
    );
    let m = analyse_dag(&def);
    let group_of = |id: &str| m.parallel_groups.iter().position(|g| g.iter().any(|s| s == id)).unwrap();
    for s in &def.steps {
        let g = group_of(&s.step_id);
        for d in &s.depends_on {
            assert!(group_of(d) < g);
        }
        if g > 0 {
            assert!(s.depends_on.iter().any(|d| group_of(d) == g - 1));
        }
    }
    // The longest chain a -> b -> d -> e has four steps, the critical path's length.
    assert_eq!(m.critical_path_length, 4);
    assert_eq!(m.critical_path, vec!["a", "b", "d", "e"]);
}

#[test]
fn critical_path_follows_the_predecessor_the_sort_takes_first() {
    // The sort takes r1, r2, then q (freed by r1) before p (freed by r2),
    // so the end step reaches level 2 through q, though p comes first in
    // step order and in its dependency list.
    let def = make_def(
        "t",
        vec![
            make_step("r1", "x", vec![], false, None),
            make_step("r2", "x", vec![], false, None),
            make_step("p", "x", vec!["r2"], false, None),
            make_step("q", "x", vec!["r1"], false, None),
            make_step("e", "x", vec!["p", "q"], false, None),
        ],
    );
    let m = analyse_dag(&def);
    assert_eq!(m.parallel_groups, vec![vec!["r1", "r2"], vec!["p", "q"], vec!["e"]]);
    assert_eq!(m.critical_path_length, 3);
    assert_eq!(m.critical_path, vec!["r1", "q", "e"]);
}

#[test]
fn parallel_groups_hold_every_step_once() {
    let def = make_def(
        "t",
        vec![
            make_step("a", "x", vec![], false, None),
            make_step("b", "x", vec!["a"], false, None),
            make_step("c", "y", vec![], false, None),
            make_step("d", "y", vec!["b", "c"], false, None),
        ],
    );
    let m = analyse_dag(&def);
    let mut all: Vec<String> = m.parallel_groups.concat();
    all.sort();
    assert_eq!(all, vec!["a", "b", "c", "d"]);
}
