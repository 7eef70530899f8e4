use apollo_core::orchestration::{
    blueprint_path, blueprints_dir, create_workflow_run, group_path, ready_steps, ready_steps_with_def,
    save_blueprint, save_group, save_workflow_def, set_group_status, workflow_def_path, workflow_run_path,
    AgentGroup, Blueprint, GroupMember, GroupStatus, StepStatus, WorkflowDef, WorkflowStep,
};
use std::collections::HashMap;

const NOW: u64 = 1_700_000_000;

fn step(id: &str, name: &str, agent: &str, deps: Vec<&str>) -> WorkflowStep {
    WorkflowStep {
        step_id: id.to_string(),
        name: name.to_string(),
        agent_id: agent.to_string(),
        depends_on: deps.into_iter().map(|s| s.to_string()).collect(),
        env: HashMap::new(),
        optional: false,
        timeout_secs: None,
    }
}

#[test]
fn test_blueprint_crud() {
    let bp = Blueprint {
        id: String::new(),
        name: "My Blueprint".to_string(),
        description: "A test blueprint".to_string(),
        agent_id: "openclaw".to_string(),
        pin_version: Some("1.0.0".to_string()),
        default_env: HashMap::new(),
        cpu_override_bits: None,
        memory_override: None,
        timeout_override: None,
        tags: vec!["prod".to_string()],
        region: Some("us-east-1".to_string()),
        created_at: 0,
        updated_at: 0,
    };

    let saved = save_blueprint(bp, NOW);
    assert!(!saved.id.is_empty());
    assert!(saved.created_at > 0);
    assert_eq!(saved.agent_id, "openclaw");
    assert_eq!(saved.tags, vec!["prod"]);
    assert_eq!(
        blueprint_path("/data", &saved.id),
        format!("/data/blueprints/{}.json", saved.id)
    );
}

#[test]
fn test_list_blueprints() {
    let mut ids = Vec::new();
    for i in 0..3 {
        let saved = save_blueprint(
            Blueprint {
                id: String::new(),
                name: format!("bp-{}", i),
                description: String::new(),
                agent_id: "a".to_string(),
                pin_version: None,
                default_env: HashMap::new(),
                cpu_override_bits: None,
                memory_override: None,
                timeout_override: None,
                tags: vec![],
                region: None,
                created_at: 0,
                updated_at: 0,
            },
            NOW,
        );
        ids.push(saved.id);
    }
    ids.sort();
    ids.dedup();
    assert_eq!(ids.len(), 3);
}

#[test]
fn test_group_crud() {
    let group = AgentGroup {
        id: String::new(),
        name: "My Group".to_string(),
        description: "Test group".to_string(),
        tenant_id: "tenant1".to_string(),
        members: vec![
            GroupMember { agent_id: "a1".to_string(), blueprint_id: None, tenant_override: None },
            GroupMember { agent_id: "a2".to_string(), blueprint_id: None, tenant_override: None },
        ],
        status: GroupStatus::Idle,
        created_at: 0,
        updated_at: 0,
    };

    let saved = save_group(group, NOW);
    assert_eq!(saved.members.len(), 2);
    let id = saved.id.clone();

    let loaded = set_group_status(saved, GroupStatus::Running, NOW + 1);
    assert!(matches!(loaded.status, GroupStatus::Running));
    assert_eq!(loaded.id, id);
    assert_eq!(loaded.created_at, NOW);
    assert_eq!(loaded.updated_at, NOW + 1);
}

#[test]
fn test_workflow_definition_crud() {
    let mut extract = step("extract", "Extract", "extractor", vec![]);
    extract.timeout_secs = Some(300);
    let def = WorkflowDef {
        id: String::new(),
        name: "ETL Pipeline".to_string(),
        description: "Extract, transform, load".to_string(),
        tenant_id: "t1".to_string(),
        steps: vec![extract, step("transform", "Transform", "transformer", vec!["extract"])],
        created_at: 0,
        updated_at: 0,
    };

    let saved = save_workflow_def(def, NOW);
    assert_eq!(saved.steps.len(), 2);
    assert_eq!(saved.name, "ETL Pipeline");
}

#[test]
fn test_workflow_run_creation() {
    let def = save_workflow_def(
        WorkflowDef {
            id: String::new(),
            name: "test".to_string(),
            description: String::new(),
            tenant_id: "t1".to_string(),
            steps: vec![step("s1", "Step 1", "a1", vec![])],
            created_at: 0,
            updated_at: 0,
        },
        NOW,
    );

    let run = create_workflow_run(&def, NOW);
    assert_eq!(run.workflow_id, def.id);
    assert_eq!(run.steps.len(), 1);
    assert!(matches!(run.steps[0].status, StepStatus::Pending));
}

#[test]
fn test_ready_steps_with_def() {
    let def = WorkflowDef {
        id: "wf1".to_string(),
        name: "w".to_string(),
        description: String::new(),
        tenant_id: "t1".to_string(),
        steps: vec![step("a", "A", "ag", vec![]), step("b", "B", "ag", vec!["a"])],
        created_at: 0,
        updated_at: 0,
    };

    let run = create_workflow_run(&def, NOW);

    // Initially only "a" is ready (no deps)
    let ready = ready_steps_with_def(&run, &def);
    assert_eq!(ready, vec!["a"], "Only root step should be ready initially");
}

#[test]
fn completing_a_step_releases_its_dependents() {
    let def = WorkflowDef {
        id: "wf1".to_string(),
        name: "w".to_string(),
        description: String::new(),
        tenant_id: "t1".to_string(),
        steps: vec![
            step("a", "A", "ag", vec![]),
            step("b", "B", "ag", vec!["a"]),
            step("c", "C", "ag", vec!["a", "b"]),
        ],
        created_at: 0,
        updated_at: 0,
    };
    let mut run = create_workflow_run(&def, NOW);
    assert_eq!(ready_steps(&run), vec!["a", "b", "c"]);
    run.steps[0].status = StepStatus::Completed;
    assert_eq!(ready_steps_with_def(&run, &def), vec!["b"]);
    run.steps[1].status = StepStatus::Completed;
    assert_eq!(ready_steps_with_def(&run, &def), vec!["c"]);
}

#[test]
fn saving_keeps_existing_id_and_creation_time() {
    let def = WorkflowDef {
        id: "keep".to_string(),
        name: "w".to_string(),
        description: String::new(),
        tenant_id: "t1".to_string(),
        steps: vec![],
        created_at: 5,
        updated_at: 5,
    };
    let saved = save_workflow_def(def, NOW);
    assert_eq!(saved.id, "keep");
    assert_eq!(saved.created_at, 5);
    assert_eq!(saved.updated_at, NOW);
}

#[test]
fn storage_paths_sanitize_ids() {
    assert_eq!(blueprints_dir("/base"), "/base/blueprints");
    assert_eq!(group_path("/base", "g/1 x"), "/base/groups/g_1_x.json");
    assert_eq!(workflow_def_path("base", "w-1"), "base/workflows/definitions/w-1.json");
    assert_eq!(workflow_run_path("/b/", "r.1"), "/b/workflows/runs/r_1.json");
}
