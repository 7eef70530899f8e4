use apollo_core::display::strip_ansi;
use apollo_core::orchestration::{
    AgentGroup, Blueprint, GroupMember, GroupStatus, StepExecution, StepStatus, WorkflowDef, WorkflowRun,
    WorkflowStatus, WorkflowStep,
};
use apollo_core::scheduler::{JobRunRecord, Schedule, ScheduledJob};
use apollo_core::health::CrashRecord;
use apollo_core::views::{
    crash_rows,
    count_bar, schedule_kind_text,
    blueprint_rows, comma_list, group_rows, history_rows, job_rows, join_strings, member_list_text, run_rows,
    run_step_rows, schedule_from_flags, schedule_text, section_rule, short_id, short_id_upto, step_rows, table_lines,
    table_widths, workflow_rows,
};
use std::collections::HashMap;

const NOW: u64 = 1_700_000_000;

fn job(id: &str, schedule: Schedule, next_run: u64, enabled: bool) -> ScheduledJob {
    ScheduledJob {
        id: id.to_string(),
        name: "nightly".to_string(),
        tenant_id: "acme".to_string(),
        agent_id: "etl".to_string(),
        extra_env: HashMap::new(),
        schedule,
        enabled,
        created_at: 0,
        updated_at: 0,
        last_run: None,
        next_run,
        run_count: 12,
        fail_count: 3,
    }
}

fn run_record(job_id: &str, fired_at: u64) -> JobRunRecord {
    JobRunRecord {
        job_id: job_id.to_string(),
        fired_at,
        status: "ok".to_string(),
        message: None,
        duration_ms: Some(5),
    }
}

fn exec(id: &str, status: StepStatus, pid: Option<u32>) -> StepExecution {
    StepExecution {
        step_id: id.to_string(),
        status,
        agent_pid: pid,
        started_at: Some(10),
        finished_at: None,
        output: None,
        error: Some("boom".to_string()),
    }
}

#[test]
fn short_ids_take_the_first_eight_bytes() {
    assert_eq!(short_id("0123456789abcdef"), "01234567");
    assert_eq!(short_id_upto("abc"), "abc");
    assert_eq!(short_id_upto("0123456789"), "01234567");
}

#[test]
fn comma_lists_trim_and_drop_empty_items() {
    assert_eq!(comma_list(" text, code ,,vision, "), vec!["text", "code", "vision"]);
    assert!(comma_list("").is_empty());
    assert!(comma_list(" , ,").is_empty());
}

#[test]
fn joining_puts_the_separator_between_items() {
    let v = vec!["a".to_string(), "b".to_string(), "c".to_string()];
    assert_eq!(join_strings(&v, ", "), "a, b, c");
    assert_eq!(join_strings(&vec![], ", "), "");
    assert_eq!(join_strings(&vec!["x".to_string()], "-"), "x");
}

#[test]
fn schedules_are_labelled_by_kind() {
    assert_eq!(schedule_text(&Schedule::Cron { expression: "0 * * * *".to_string() }), "cron(0 * * * *)");
    assert_eq!(schedule_text(&Schedule::Interval { secs: 300 }), "every 300s");
    assert_eq!(schedule_text(&Schedule::Once { at: 42 }), "once@42");
}

#[test]
fn schedule_flags_prefer_cron_then_interval_then_once() {
    assert!(matches!(
        schedule_from_flags(Some("* * * * *".to_string()), Some(5), Some(7)),
        Some(Schedule::Cron { .. })
    ));
    assert!(matches!(schedule_from_flags(None, Some(5), Some(7)), Some(Schedule::Interval { secs: 5 })));
    assert!(matches!(schedule_from_flags(None, None, Some(7)), Some(Schedule::Once { at: 7 })));
    assert!(schedule_from_flags(None, None, None).is_none());
}

#[test]
fn job_table_rows() {
    let jobs = vec![
        job("abcdef0123456789", Schedule::Interval { secs: 60 }, NOW + 30, true),
        job("99999999zzz", Schedule::Once { at: 5 }, NOW - 1, false),
    ];
    let rows = job_rows(&jobs, NOW);
    assert_eq!(
        rows[0],
        vec!["abcdef01", "nightly", "acme", "etl", "every 60s", "in 30s", "12", "3", "✓"]
    );
    assert_eq!(rows[1][0], "99999999");
    assert_eq!(rows[1][5], "overdue");
    assert_eq!(rows[1][8], "—");
}

#[test]
fn history_shows_the_last_twenty_newest_first() {
    let runs: Vec<JobRunRecord> = (0..25).map(|i| run_record("job", i)).collect();
    let rows = history_rows(runs);
    assert_eq!(rows.len(), 20);
    assert_eq!(rows[0], vec!["job", "ok", "24", "5", "—"]);
    assert_eq!(rows[19][2], "5");
}

#[test]
fn blueprint_table_rows() {
    let bp = Blueprint {
        id: "0123456789".to_string(),
        name: "web".to_string(),
        description: String::new(),
        agent_id: "site".to_string(),
        pin_version: None,
        default_env: HashMap::new(),
        cpu_override_bits: None,
        memory_override: None,
        timeout_override: None,
        tags: vec!["prod".to_string(), "eu".to_string()],
        region: Some("eu-west".to_string()),
        created_at: 0,
        updated_at: 0,
    };
    assert_eq!(blueprint_rows(&vec![bp])[0], vec!["01234567", "web", "site", "latest", "eu-west", "prod, eu"]);
}

#[test]
fn group_table_rows_and_members() {
    let g = AgentGroup {
        id: "g0123456789".to_string(),
        name: "crew".to_string(),
        description: String::new(),
        tenant_id: "acme".to_string(),
        members: vec![
            GroupMember { agent_id: "a1".to_string(), blueprint_id: None, tenant_override: None },
            GroupMember { agent_id: "a2".to_string(), blueprint_id: None, tenant_override: None },
        ],
        status: GroupStatus::Running,
        created_at: 0,
        updated_at: 0,
    };
    assert_eq!(member_list_text(&g), "a1, a2");
    assert_eq!(group_rows(&vec![g])[0], vec!["g0123456", "crew", "acme", "2", "Running"]);
}

#[test]
fn workflow_tables() {
    let mut load = WorkflowStep {
        step_id: "load".to_string(),
        name: "Load".to_string(),
        agent_id: "loader".to_string(),
        depends_on: vec!["a".to_string(), "b".to_string()],
        env: HashMap::new(),
        optional: true,
        timeout_secs: None,
    };
    let def = WorkflowDef {
        id: "wf-0123456789".to_string(),
        name: "etl".to_string(),
        description: String::new(),
        tenant_id: "acme".to_string(),
        steps: vec![],
        created_at: 0,
        updated_at: 0,
    };
    assert_eq!(workflow_rows(&vec![def])[0], vec!["wf-01234", "etl", "acme", "0"]);

    let def2 = WorkflowDef {
        id: "x".to_string(),
        name: "n".to_string(),
        description: String::new(),
        tenant_id: "t".to_string(),
        steps: vec![
            WorkflowStep {
                step_id: "extract".to_string(),
                name: "Extract".to_string(),
                agent_id: "ex".to_string(),
                depends_on: vec![],
                env: HashMap::new(),
                optional: false,
                timeout_secs: None,
            },
            {
                load.timeout_secs = Some(3);
                load
            },
        ],
        created_at: 0,
        updated_at: 0,
    };
    let rows = step_rows(&def2);
    assert_eq!(rows[0], vec!["extract", "Extract", "ex", "—", "false"]);
    assert_eq!(rows[1], vec!["load", "Load", "loader", "a, b", "true"]);
}

#[test]
fn run_tables() {
    let run = WorkflowRun {
        run_id: "run-0123456789".to_string(),
        workflow_id: "wf".to_string(),
        tenant_id: "acme".to_string(),
        status: WorkflowStatus::Running,
        steps: vec![exec("s1", StepStatus::Completed, Some(42)), exec("s2", StepStatus::Pending, None)],
        started_at: 7,
        finished_at: None,
        error: None,
    };
    let progress = run_step_rows(&run, true);
    assert_eq!(strip_ansi(&progress[0][1]), "Completed");
    assert_eq!(progress[0][0], "s1");
    assert_eq!(&progress[0][2..], &["42", "10", "—"]);
    let status = run_step_rows(&run, false);
    assert_eq!(strip_ansi(&status[1][1]), "Pending");
    assert_eq!(&status[1][2..], &["—", "boom"]);
    assert_eq!(run_rows(&vec![run])[0], vec!["run-0123", "Running", "1/2", "7"]);
}

#[test]
fn tables_pad_cells_to_the_widest_shown_text() {
    let headers = vec!["NAME".to_string(), "STATUS".to_string()];
    let rows = vec![
        vec!["openclaw".to_string(), "running".to_string()],
        vec!["a".to_string(), "\x1b[32mok\x1b[0m".to_string(), "extra".to_string()],
    ];
    assert_eq!(table_widths(&headers, &rows), vec![8, 7]);
    let (head, lines) = table_lines(&headers, &rows);
    assert_eq!(head, "NAME      STATUS   ");
    assert_eq!(lines[0], "openclaw  running  ");
    assert_eq!(lines[1], format!("a         \x1b[32mok\x1b[0m{}extra{}", " ".repeat(7), " ".repeat(7)));
}

#[test]
fn section_rules_fill_sixty_bytes() {
    let (head, pad) = section_rule("Jobs");
    assert_eq!(head, "── Jobs ");
    assert_eq!(head.len() + pad.len() / 3, 60);
    assert!(pad.chars().all(|c| c == '─'));
    let long = "x".repeat(70);
    assert_eq!(section_rule(&long).1, "");
}

#[test]
fn dashboard_kinds_and_bars() {
    assert_eq!(schedule_kind_text(&Schedule::Cron { expression: "* * * * *".to_string() }), "cron");
    assert_eq!(schedule_kind_text(&Schedule::Interval { secs: 1 }), "interval");
    assert_eq!(schedule_kind_text(&Schedule::Once { at: 1 }), "once");
    assert_eq!(count_bar(3, 4), "█".repeat(9));
    assert_eq!(count_bar(0, 0), "");
    assert_eq!(count_bar(1, 0), "█".repeat(12));
}

#[test]
fn crash_table_shows_the_last_five_newest_first() {
    let crash = |ts: u64, code: Option<i32>, oom: bool| CrashRecord {
        timestamp: ts,
        exit_code: code,
        signal: if oom { Some("SIGKILL".to_string()) } else { None },
        was_oom: oom,
        restart_attempted: false,
    };
    let cs = vec![
        crash(1, Some(0), false),
        crash(2, Some(1), false),
        crash(3, Some(-1), false),
        crash(4, None, false),
        crash(5, Some(137), true),
        crash(6, Some(i32::MIN), false),
    ];
    let rows = crash_rows(cs);
    assert_eq!(rows.len(), 5);
    assert_eq!(rows[0], vec!["T+6s", "-2147483648", "false", "—"]);
    assert_eq!(rows[1], vec!["T+5s", "137", "true", "SIGKILL"]);
    assert_eq!(rows[2][1], "—");
    assert_eq!(rows[3][1], "-1");
    assert_eq!(rows[4][0], "T+2s");
}
