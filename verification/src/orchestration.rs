//! Workflow, group and run records of the orchestration layer, and the
//! scheduling decisions taken on them.

use vstd::prelude::*;
use std::collections::HashMap;
use crate::text::{str_eq, join, join_path, sanitize_id, sanitized};
use crate::ids::new_uuid;

verus! {

/// A JSON value, from `serde_json`; step outputs are carried as they are.
#[verifier::external_type_specification]
#[verifier::external_body]
pub struct ExJsonValue(serde_json::Value);

/// A reusable deployment template for an agent.
pub struct Blueprint {
    pub id: String,
    pub name: String,
    pub description: String,
    /// Agent deployed from the template.
    pub agent_id: String,
    /// Only this exact version may be deployed, when set.
    pub pin_version: Option<String>,
    /// Environment injected at deploy time.
    pub default_env: HashMap<String, String>,
    /// CPU override as the bits of an IEEE 754 single.
    pub cpu_override_bits: Option<u32>,
    pub memory_override: Option<String>,
    pub timeout_override: Option<u32>,
    /// Tags for discovery.
    pub tags: Vec<String>,
    /// Region deployments from the template are bound to.
    pub region: Option<String>,
    pub created_at: u64,
    pub updated_at: u64,
}

/// Lifecycle state of an agent group.
pub enum GroupStatus {
    Idle,
    Starting,
    Running,
    Stopping,
    Stopped,
    Error,
}

/// One agent of a group.
pub struct GroupMember {
    pub agent_id: String,
    pub blueprint_id: Option<String>,
    /// Tenant to run this member under instead of the group's.
    pub tenant_override: Option<String>,
}

/// A named group of agents that share a lifecycle.
pub struct AgentGroup {
    pub id: String,
    pub name: String,
    pub description: String,
    pub tenant_id: String,
    /// Members, in start order.
    pub members: Vec<GroupMember>,
    pub status: GroupStatus,
    pub created_at: u64,
    pub updated_at: u64,
}

/// A workflow definition: a graph of agent steps.
pub struct WorkflowDef {
    pub id: String,
    pub name: String,
    pub description: String,
    pub tenant_id: String,
    /// The steps, in declaration order.
    pub steps: Vec<WorkflowStep>,
    pub created_at: u64,
    pub updated_at: u64,
}

/// One step of a workflow.
pub struct WorkflowStep {
    pub step_id: String,
    pub name: String,
    /// Agent run by this step.
    pub agent_id: String,
    /// Ids of the steps that must complete before this one starts.
    pub depends_on: Vec<String>,
    /// Environment passed to the step.
    pub env: HashMap<String, String>,
    /// A failure of an optional step does not fail the workflow.
    pub optional: bool,
    /// Longest time the step may run, in seconds.
    pub timeout_secs: Option<u64>,
}

/// State of a workflow run.
pub enum WorkflowStatus {
    Pending,
    Running,
    Completed,
    Failed,
    Cancelled,
}

/// State of one step within a run.
pub enum StepStatus {
    Pending,
    Running,
    Completed,
    Failed,
    Skipped,
}


/// A run of a workflow.
pub struct WorkflowRun {
    pub run_id: String,
    pub workflow_id: String,
    pub tenant_id: String,
    pub status: WorkflowStatus,
    /// One execution record per step of the definition, in its order.
    pub steps: Vec<StepExecution>,
    pub started_at: u64,
    pub finished_at: Option<u64>,
    pub error: Option<String>,
}

/// The execution of one step within a run.
pub struct StepExecution {
    pub step_id: String,
    pub status: StepStatus,
    pub agent_pid: Option<u32>,
    pub started_at: Option<u64>,
    pub finished_at: Option<u64>,
    pub output: Option<serde_json::Value>,
    pub error: Option<String>,
}

// ── Storage layout ───────────────────────────────────────────────────────────

/// The file name of the record `id`: the sanitized id and `.json`.
pub open spec fn record_file(id: Seq<char>) -> Seq<char> {
    sanitized(id) + ".json"@
}

fn record_file_name(id: &str) -> (r: String)
    ensures
        r@ == record_file(id@),
{
    let mut r = sanitize_id(id);
    r.append(".json");
    r
}

/// The directory of the blueprints under `base_dir`.
pub fn blueprints_dir(base_dir: &str) -> (r: String)
    ensures
        r@ == join_path(base_dir@, "blueprints"@),
{
    join(base_dir, "blueprints")
}

/// The file of the blueprint `id`.
pub fn blueprint_path(base_dir: &str, id: &str) -> (r: String)
    ensures
        r@ == join_path(join_path(base_dir@, "blueprints"@), record_file(id@)),
{
    let d = blueprints_dir(base_dir);
    let f = record_file_name(id);
    join(d.as_str(), f.as_str())
}

/// The directory of the agent groups under `base_dir`.
pub fn groups_dir(base_dir: &str) -> (r: String)
    ensures
        r@ == join_path(base_dir@, "groups"@),
{
    join(base_dir, "groups")
}

/// The file of the group `id`.
pub fn group_path(base_dir: &str, id: &str) -> (r: String)
    ensures
        r@ == join_path(join_path(base_dir@, "groups"@), record_file(id@)),
{
    let d = groups_dir(base_dir);
    let f = record_file_name(id);
    join(d.as_str(), f.as_str())
}

/// The directory of the workflow definitions under `base_dir`.
pub fn workflow_defs_dir(base_dir: &str) -> (r: String)
    ensures
        r@ == join_path(join_path(base_dir@, "workflows"@), "definitions"@),
{
    let w = join(base_dir, "workflows");
    join(w.as_str(), "definitions")
}

/// The directory of the workflow runs under `base_dir`.
pub fn workflow_runs_dir(base_dir: &str) -> (r: String)
    ensures
        r@ == join_path(join_path(base_dir@, "workflows"@), "runs"@),
{
    let w = join(base_dir, "workflows");
    join(w.as_str(), "runs")
}

/// The file of the workflow definition `id`.
pub fn workflow_def_path(base_dir: &str, id: &str) -> (r: String)
    ensures
        r@ == join_path(join_path(join_path(base_dir@, "workflows"@), "definitions"@), record_file(id@)),
{
    let d = workflow_defs_dir(base_dir);
    let f = record_file_name(id);
    join(d.as_str(), f.as_str())
}

/// The file of the workflow run `run_id`.
pub fn workflow_run_path(base_dir: &str, run_id: &str) -> (r: String)
    ensures
        r@ == join_path(join_path(join_path(base_dir@, "workflows"@), "runs"@), record_file(run_id@)),
{
    let d = workflow_runs_dir(base_dir);
    let f = record_file_name(run_id);
    join(d.as_str(), f.as_str())
}

// ── Saving records ───────────────────────────────────────────────────────────

/// A record saved at `now` keeps its creation time, or takes `now` when it
/// has none, and is updated at `now`. One without an id gets a fresh one.
pub open spec fn stamped_id(id: String, r: String) -> bool {
    if id@.len() == 0 { r@.len() == 36 } else { r == id }
}

/// The id of a record being saved: its own, or a fresh one.
fn id_or_fresh(id: String) -> (r: String)
    ensures
        stamped_id(id, r),
{
    if id.unicode_len() == 0 {
        new_uuid()
    } else {
        id
    }
}

/// A blueprint as saved at `now`.
pub fn save_blueprint(bp: Blueprint, now: u64) -> (r: Blueprint)
    ensures
        stamped_id(bp.id, r.id),
        r == (Blueprint { id: r.id, created_at: if bp.created_at == 0 { now } else { bp.created_at }, updated_at: now, ..bp }),
{
    let mut bp = bp;
    let mut id = String::new();
    std::mem::swap(&mut id, &mut bp.id);
    bp.id = id_or_fresh(id);
    if bp.created_at == 0 {
        bp.created_at = now;
    }
    bp.updated_at = now;
    bp
}

/// A group as saved at `now`.
pub fn save_group(group: AgentGroup, now: u64) -> (r: AgentGroup)
    ensures
        stamped_id(group.id, r.id),
        r == (AgentGroup { id: r.id, created_at: if group.created_at == 0 { now } else { group.created_at }, updated_at: now, ..group }),
{
    let mut group = group;
    let mut id = String::new();
    std::mem::swap(&mut id, &mut group.id);
    group.id = id_or_fresh(id);
    if group.created_at == 0 {
        group.created_at = now;
    }
    group.updated_at = now;
    group
}

/// A group moved to `status` and saved at `now`.
pub fn set_group_status(group: AgentGroup, status: GroupStatus, now: u64) -> (r: AgentGroup)
    ensures
        stamped_id(group.id, r.id),
        r == (AgentGroup { id: r.id, status, created_at: if group.created_at == 0 { now } else { group.created_at },
            updated_at: now, ..group }),
{
    let mut group = group;
    group.status = status;
    save_group(group, now)
}

/// A workflow definition as saved at `now`.
pub fn save_workflow_def(def: WorkflowDef, now: u64) -> (r: WorkflowDef)
    ensures
        stamped_id(def.id, r.id),
        r == (WorkflowDef { id: r.id, created_at: if def.created_at == 0 { now } else { def.created_at }, updated_at: now, ..def }),
{
    let mut def = def;
    let mut id = String::new();
    std::mem::swap(&mut id, &mut def.id);
    def.id = id_or_fresh(id);
    if def.created_at == 0 {
        def.created_at = now;
    }
    def.updated_at = now;
    def
}

// ── Runs ─────────────────────────────────────────────────────────────────────

/// A new run of `def` started at `now`: pending, with one pending execution
/// per step, and a fresh run id.
pub fn create_workflow_run(def: &WorkflowDef, now: u64) -> (run: WorkflowRun)
    ensures
        run.run_id@.len() == 36,
        run.workflow_id == def.id,
        run.tenant_id == def.tenant_id,
        run.status is Pending,
        run.steps@.len() == def.steps@.len(),
        forall|k: int| 0 <= k < run.steps@.len() ==> {
            let e = #[trigger] run.steps@[k];
            &&& e.step_id == def.steps@[k].step_id
            &&& e.status is Pending
            &&& e.agent_pid is None && e.started_at is None && e.finished_at is None
            &&& e.output is None && e.error is None
        },
        run.started_at == now,
        run.finished_at is None,
        run.error is None,
{
    let mut steps: Vec<StepExecution> = Vec::new();
    let mut k: usize = 0;
    while k < def.steps.len()
        invariant
            k <= def.steps.len(),
            steps@.len() == k,
            forall|q: int| 0 <= q < k ==> {
                let e = #[trigger] steps@[q];
                &&& e.step_id == def.steps@[q].step_id
                &&& e.status is Pending
                &&& e.agent_pid is None && e.started_at is None && e.finished_at is None
                &&& e.output is None && e.error is None
            },
        decreases def.steps.len() - k,
    {
        steps.push(StepExecution {
            step_id: def.steps[k].step_id.clone(),
            status: StepStatus::Pending,
            agent_pid: None,
            started_at: None,
            finished_at: None,
            output: None,
            error: None,
        });
        k += 1;
    }
    WorkflowRun {
        run_id: new_uuid(),
        workflow_id: def.id.clone(),
        tenant_id: def.tenant_id.clone(),
        status: WorkflowStatus::Pending,
        steps,
        started_at: now,
        finished_at: None,
        error: None,
    }
}

/// The ids of the pending steps of a run, in order.
pub fn ready_steps(run: &WorkflowRun) -> (r: Vec<String>)
    ensures
        r@ == run.steps@.filter(|e: StepExecution| e.status is Pending).map_values(|e: StepExecution| e.step_id),
{
    let ghost pred = |e: StepExecution| e.status is Pending;
    let steps = &run.steps;
    let mut r: Vec<String> = Vec::new();
    let mut i: usize = 0;
    proof {
        reveal(Seq::filter);
        assert(steps@.take(0).filter(pred) =~= Seq::<StepExecution>::empty());
    }
    while i < steps.len()
        invariant
            pred == (|e: StepExecution| e.status is Pending),
            i <= steps.len(),
            r@ == steps@.take(i as int).filter(pred).map_values(|e: StepExecution| e.step_id),
        decreases steps.len() - i,
    {
        let ghost f = steps@.take(i as int).filter(pred);
        proof {
            assert(steps@.take(i + 1) =~= steps@.take(i as int).push(steps@[i as int]));
            steps@.take(i as int).lemma_filter_push(steps@[i as int], pred);
        }
        if let StepStatus::Pending = steps[i].status {
            r.push(steps[i].step_id.clone());
            proof {
                assert(f.push(steps@[i as int]).map_values(|e: StepExecution| e.step_id)
                    =~= f.map_values(|e: StepExecution| e.step_id).push(steps@[i as int].step_id));
            }
        }
        i += 1;
    }
    proof {
        assert(steps@.take(steps.len() as int) =~= steps@);
    }
    r
}

/// Index of the first execution at or after `i` of the step `id`, or -1.
pub open spec fn exec_pos_from(es: Seq<StepExecution>, id: Seq<char>, i: int) -> int
    decreases es.len() - i,
{
    if i < 0 || i >= es.len() {
        -1
    } else if es[i].step_id@ == id {
        i
    } else {
        exec_pos_from(es, id, i + 1)
    }
}

/// Some execution of the step `id` completed or was skipped.
pub open spec fn finished_id(es: Seq<StepExecution>, id: Seq<char>) -> bool {
    exists|k: int| 0 <= k < es.len() && #[trigger] es[k].step_id@ == id
        && (es[k].status is Completed || es[k].status is Skipped)
}

/// A step may start: its (first) execution is pending or absent, and all
/// its dependencies have finished.
pub open spec fn step_ready(es: Seq<StepExecution>, s: WorkflowStep) -> bool {
    let p = exec_pos_from(es, s.step_id@, 0);
    &&& (p < 0 || es[p].status is Pending)
    &&& forall|k: int| 0 <= k < s.depends_on@.len() ==> finished_id(es, #[trigger] s.depends_on@[k]@)
}

proof fn lemma_exec_pos_from(es: Seq<StepExecution>, id: Seq<char>, i: int)
    requires
        0 <= i <= es.len(),
    ensures
        -1 <= exec_pos_from(es, id, i) < es.len(),
        exec_pos_from(es, id, i) != -1 ==> i <= exec_pos_from(es, id, i),
    decreases es.len() - i,
{
    if i < es.len() && es[i].step_id@ != id {
        lemma_exec_pos_from(es, id, i + 1);
    }
}

fn is_finished(es: &Vec<StepExecution>, id: &str) -> (b: bool)
    ensures
        b == finished_id(es@, id@),
{
    let mut k: usize = 0;
    while k < es.len()
        invariant
            k <= es.len(),
            forall|q: int| 0 <= q < k ==> !(#[trigger] es@[q].step_id@ == id@
                && (es@[q].status is Completed || es@[q].status is Skipped)),
        decreases es.len() - k,
    {
        let done = match es[k].status {
            StepStatus::Completed | StepStatus::Skipped => true,
            _ => false,
        };
        if done && str_eq(es[k].step_id.as_str(), id) {
            return true;
        }
        k += 1;
    }
    false
}

/// The first execution of the step `id` is pending, or there is none.
fn first_exec_pending(es: &Vec<StepExecution>, id: &str) -> (b: bool)
    ensures
        ({
            let p = exec_pos_from(es@, id@, 0);
            b == (p < 0 || es@[p].status is Pending)
        }),
{
    proof {
        lemma_exec_pos_from(es@, id@, 0);
    }
    let mut i: usize = 0;
    while i < es.len()
        invariant
            i <= es.len(),
            exec_pos_from(es@, id@, 0) == exec_pos_from(es@, id@, i as int),
        decreases es.len() - i,
    {
        if str_eq(es[i].step_id.as_str(), id) {
            return match es[i].status {
                StepStatus::Pending => true,
                _ => false,
            };
        }
        i += 1;
    }
    true
}

fn is_step_ready(es: &Vec<StepExecution>, s: &WorkflowStep) -> (b: bool)
    ensures
        b == step_ready(es@, *s),
{
    let pending = first_exec_pending(es, s.step_id.as_str());
    if !pending {
        return false;
    }
    let mut k: usize = 0;
    while k < s.depends_on.len()
        invariant
            k <= s.depends_on.len(),
            forall|q: int| 0 <= q < k ==> finished_id(es@, #[trigger] s.depends_on@[q]@),
        decreases s.depends_on.len() - k,
    {
        if !is_finished(es, s.depends_on[k].as_str()) {
            return false;
        }
        k += 1;
    }
    true
}

proof fn lemma_exec_pos_is(es: Seq<StepExecution>, id: Seq<char>, i: int)
    requires
        0 <= i <= es.len(),
    ensures
        exec_pos_from(es, id, i) >= 0 ==> es[exec_pos_from(es, id, i)].step_id@ == id,
    decreases es.len() - i,
{
    if i < es.len() && es[i].step_id@ != id {
        lemma_exec_pos_is(es, id, i + 1);
    }
}

proof fn lemma_exec_pos_same_ids(es1: Seq<StepExecution>, es2: Seq<StepExecution>, id: Seq<char>, i: int)
    requires
        es1.len() == es2.len(),
        forall|j: int| 0 <= j < es1.len() ==> (#[trigger] es1[j]).step_id@ == es2[j].step_id@,
    ensures
        exec_pos_from(es1, id, i) == exec_pos_from(es2, id, i),
    decreases es1.len() - i,
{
    if 0 <= i < es1.len() && es1[i].step_id@ != id {
        lemma_exec_pos_same_ids(es1, es2, id, i + 1);
    }
}

/// A skipped step satisfies the steps that depend on it exactly as a
/// completed one does: in a run where one execution is skipped instead of
/// completed, and nothing else differs, the same steps may start.
pub proof fn lemma_skipped_counts_as_completed(es1: Seq<StepExecution>, es2: Seq<StepExecution>, k: int, s: WorkflowStep)
    requires
        es1.len() == es2.len(),
        0 <= k < es1.len(),
        forall|j: int| 0 <= j < es1.len() && j != k ==> #[trigger] es1[j] == es2[j],
        es1[k].step_id == es2[k].step_id,
        es1[k].status is Completed,
        es2[k].status is Skipped,
    ensures
        step_ready(es1, s) == step_ready(es2, s),
{
    assert forall|j: int| 0 <= j < es1.len() implies (#[trigger] es1[j]).step_id@ == es2[j].step_id@ by {
        if j != k {
            assert(es1[j] == es2[j]);
        }
    }
    lemma_exec_pos_same_ids(es1, es2, s.step_id@, 0);
    assert forall|d: int| 0 <= d < s.depends_on@.len() implies
        finished_id(es1, #[trigger] s.depends_on@[d]@) == finished_id(es2, s.depends_on@[d]@) by {
        let id = s.depends_on@[d]@;
        if finished_id(es1, id) {
            let q = choose|q: int| 0 <= q < es1.len() && #[trigger] es1[q].step_id@ == id
                && (es1[q].status is Completed || es1[q].status is Skipped);
            if q != k {
                assert(es1[q] == es2[q]);
            }
            assert(es2[q].step_id@ == id);
        }
        if finished_id(es2, id) {
            let q = choose|q: int| 0 <= q < es2.len() && #[trigger] es2[q].step_id@ == id
                && (es2[q].status is Completed || es2[q].status is Skipped);
            if q != k {
                assert(es1[q] == es2[q]);
            }
            assert(es1[q].step_id@ == id);
        }
    }
    let p = exec_pos_from(es1, s.step_id@, 0);
    lemma_exec_pos_from(es1, s.step_id@, 0);
    if p >= 0 && p != k {
        assert(es1[p] == es2[p]);
    }
}

/// A step none of whose executions has started, and each of whose
/// dependencies has an execution that completed or was skipped, is among
/// the steps that may start.
pub proof fn lemma_ready_when_dependencies_done(es: Seq<StepExecution>, steps: Seq<WorkflowStep>, r: Seq<String>, i: int)
    requires
        r == steps.filter(|s: WorkflowStep| step_ready(es, s)).map_values(|s: WorkflowStep| s.step_id),
        0 <= i < steps.len(),
        forall|j: int| 0 <= j < es.len() && (#[trigger] es[j]).step_id@ == steps[i].step_id@ ==> es[j].status is Pending,
        forall|d: int| 0 <= d < steps[i].depends_on@.len() ==> exists|j: int| 0 <= j < es.len()
            && #[trigger] es[j].step_id@ == (#[trigger] steps[i].depends_on@[d])@
            && (es[j].status is Completed || es[j].status is Skipped),
    ensures
        r.contains(steps[i].step_id),
{
    broadcast use vstd::seq_lib::group_filter_ensures;
    let s = steps[i];
    let pred = |x: WorkflowStep| step_ready(es, x);
    let p = exec_pos_from(es, s.step_id@, 0);
    lemma_exec_pos_from(es, s.step_id@, 0);
    lemma_exec_pos_is(es, s.step_id@, 0);
    assert forall|d: int| 0 <= d < s.depends_on@.len() implies finished_id(es, #[trigger] s.depends_on@[d]@) by {
        let j = choose|j: int| 0 <= j < es.len()
            && #[trigger] es[j].step_id@ == (#[trigger] steps[i].depends_on@[d])@
            && (es[j].status is Completed || es[j].status is Skipped);
    }
    assert(pred(steps[i]));
    steps.lemma_filter_contains(pred, i);
    let f = steps.filter(pred);
    let q = choose|q: int| 0 <= q < f.len() && f[q] == steps[i];
    assert(r[q] == steps[i].step_id);
}

/// Every step that may start has each of its dependencies satisfied by an
/// execution that completed or was skipped, and has no execution that has
/// left the pending state first.
pub proof fn lemma_ready_only_when_dependencies_done(es: Seq<StepExecution>, steps: Seq<WorkflowStep>, r: Seq<String>, q: int)
    requires
        r == steps.filter(|s: WorkflowStep| step_ready(es, s)).map_values(|s: WorkflowStep| s.step_id),
        0 <= q < r.len(),
    ensures
        exists|i: int| 0 <= i < steps.len() && #[trigger] steps[i].step_id == r[q]
            && (forall|d: int| 0 <= d < steps[i].depends_on@.len() ==> exists|j: int| 0 <= j < es.len()
                && #[trigger] es[j].step_id@ == (#[trigger] steps[i].depends_on@[d])@
                && (es[j].status is Completed || es[j].status is Skipped))
            && (exec_pos_from(es, steps[i].step_id@, 0) >= 0 ==> es[exec_pos_from(es, steps[i].step_id@, 0)].status is Pending),
{
    broadcast use vstd::seq_lib::group_filter_ensures, Seq::lemma_filter_contains_rev;
    let pred = |x: WorkflowStep| step_ready(es, x);
    let f = steps.filter(pred);
    let s = f[q];
    assert(pred(s));
    assert(f.contains(s));
    assert(steps.contains(s));
    let i = choose|i: int| 0 <= i < steps.len() && steps[i] == s;
    assert(r[q] == s.step_id);
    assert forall|d: int| 0 <= d < steps[i].depends_on@.len() implies exists|j: int| 0 <= j < es.len()
        && #[trigger] es[j].step_id@ == (#[trigger] steps[i].depends_on@[d])@
        && (es[j].status is Completed || es[j].status is Skipped) by {
        assert(finished_id(es, s.depends_on@[d]@));
    }
}

/// The ids of the steps of `def` that may start in `run`, in the order of
/// the definition.
pub fn ready_steps_with_def(run: &WorkflowRun, def: &WorkflowDef) -> (r: Vec<String>)
    ensures
        r@ == def.steps@.filter(|s: WorkflowStep| step_ready(run.steps@, s)).map_values(|s: WorkflowStep| s.step_id),
{
    let es = &run.steps;
    let steps = &def.steps;
    let ghost pred = |s: WorkflowStep| step_ready(es@, s);
    let mut r: Vec<String> = Vec::new();
    let mut i: usize = 0;
    proof {
        reveal(Seq::filter);
        assert(steps@.take(0).filter(pred) =~= Seq::<WorkflowStep>::empty());
    }
    while i < steps.len()
        invariant
            pred == (|s: WorkflowStep| step_ready(es@, s)),
            i <= steps.len(),
            r@ == steps@.take(i as int).filter(pred).map_values(|s: WorkflowStep| s.step_id),
        decreases steps.len() - i,
    {
        let ghost f = steps@.take(i as int).filter(pred);
        proof {
            assert(steps@.take(i + 1) =~= steps@.take(i as int).push(steps@[i as int]));
            steps@.take(i as int).lemma_filter_push(steps@[i as int], pred);
        }
        if is_step_ready(es, &steps[i]) {
            r.push(steps[i].step_id.clone());
            proof {
                assert(f.push(steps@[i as int]).map_values(|s: WorkflowStep| s.step_id)
                    =~= f.map_values(|s: WorkflowStep| s.step_id).push(steps@[i as int].step_id));
            }
        }
        i += 1;
    }
    proof {
        assert(steps@.take(steps.len() as int) =~= steps@);
    }
    r
}

} // verus!
