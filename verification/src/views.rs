//! What the command line shows of schedules, blueprints, groups and
//! workflows: the rows of its tables and the values its flags select.

use vstd::prelude::*;
use vstd::string::StringSliceAdditionalSpecFns;
use vstd::utf8::{decode_utf8, encode_utf8, encode_utf8_decode_utf8, is_char_boundary};
use crate::text::{chars_of, split_char, split_on, string_of, texts, decimal, push_decimal};
use crate::runtime_registry::{trim_text, trimmed};
use crate::scheduler::{Schedule, ScheduledJob, JobRunRecord};
use crate::orchestration::{Blueprint, AgentGroup, GroupStatus, WorkflowDef, WorkflowStep, WorkflowRun, WorkflowStatus,
    StepExecution, StepStatus};
use crate::display::{next_text, format_next, status_str, visible, no_escape, strip_ansi, blen};
use crate::text::last_n_reversed;
use crate::health::CrashRecord;

verus! {

/// The first eight bytes of an id, as text.
pub open spec fn id_head(id: Seq<char>) -> Seq<char> {
    decode_utf8(encode_utf8(id).subrange(0, 8))
}

/// An id whose first eight bytes end on a character boundary.
pub open spec fn has_id_head(id: Seq<char>) -> bool {
    is_char_boundary(encode_utf8(id), 8)
}

/// The first eight bytes of `id`, as the tables show it.
pub fn short_id(id: &str) -> (r: String)
    requires
        has_id_head(id@),
    ensures
        r@ == id_head(id@),
{
    let (head, _) = id.split_at(8);
    proof {
        encode_utf8_decode_utf8(head@);
    }
    head.to_owned()
}

/// The number of bytes of an id's head: eight, or the whole id when it is
/// shorter.
pub open spec fn head_len(id: Seq<char>) -> int {
    let n = encode_utf8(id).len() as int;
    if n < 8 { n } else { 8 }
}

/// The first eight bytes of an id, or all of it, as text.
pub open spec fn id_head_upto(id: Seq<char>) -> Seq<char> {
    decode_utf8(encode_utf8(id).subrange(0, head_len(id)))
}

/// An id whose head ends on a character boundary.
pub open spec fn has_id_head_upto(id: Seq<char>) -> bool {
    is_char_boundary(encode_utf8(id), head_len(id))
}

/// The first eight bytes of `id`, or all of it when it is shorter.
pub fn short_id_upto(id: &str) -> (r: String)
    requires
        has_id_head_upto(id@),
    ensures
        r@ == id_head_upto(id@),
{
    let n = id.as_bytes().len();
    let k = if n < 8 { n } else { 8 };
    proof {
        assert(id.spec_bytes() == encode_utf8(id@));
        assert(k as int == head_len(id@));
    }
    let (head, _) = id.split_at(k);
    proof {
        encode_utf8_decode_utf8(head@);
    }
    head.to_owned()
}

/// `n` in decimal.
pub fn dec_string(n: u64) -> (r: String)
    ensures
        r@ == decimal(n as nat),
{
    let mut r = String::new();
    push_decimal(&mut r, n);
    r
}

/// A number in decimal, or a dash when there is none.
pub open spec fn opt_decimal(n: Option<u64>) -> Seq<char> {
    match n {
        Some(v) => decimal(v as nat),
        None => "—"@,
    }
}

/// `n` in decimal, or a dash.
pub fn opt_dec_string(n: Option<u64>) -> (r: String)
    ensures
        r@ == opt_decimal(n),
{
    match n {
        Some(v) => dec_string(v),
        None => String::from_str("—"),
    }
}

/// A text, or a dash when there is none.
pub open spec fn opt_text(s: Option<String>) -> Seq<char> {
    match s {
        Some(v) => v@,
        None => "—"@,
    }
}

/// The text, or a dash.
pub fn opt_text_string(s: &Option<String>) -> (r: String)
    ensures
        r@ == opt_text(*s),
{
    match s {
        Some(v) => v.clone(),
        None => String::from_str("—"),
    }
}

/// The items of a comma-separated list: the pieces between commas, trimmed
/// of white space, without the empty ones.
pub open spec fn comma_items(s: Seq<char>) -> Seq<Seq<char>> {
    split_on(s, ',').map_values(|p: Seq<char>| trimmed(p)).filter(|p: Seq<char>| p.len() > 0)
}

/// The items of a comma-separated list, as the command line reads tags,
/// capabilities and group members.
pub fn comma_list(s: &str) -> (r: Vec<String>)
    ensures
        texts(r@) == comma_items(s@),
{
    let cs = chars_of(s);
    let parts = split_char(&cs, ',');
    let ghost all = split_on(s@, ',').map_values(|p: Seq<char>| trimmed(p));
    let ghost pred = |p: Seq<char>| p.len() > 0;
    let mut out: Vec<String> = Vec::new();
    let mut i: usize = 0;
    proof {
        reveal(Seq::filter);
        assert(all.take(0) =~= Seq::<Seq<char>>::empty());
        assert(texts(out@) =~= Seq::<Seq<char>>::empty());
    }
    while i < parts.len()
        invariant
            parts@.map_values(|w: Vec<char>| w@) == split_on(s@, ','),
            all == split_on(s@, ',').map_values(|p: Seq<char>| trimmed(p)),
            pred == (|p: Seq<char>| p.len() > 0),
            i <= parts.len(),
            texts(out@) == all.take(i as int).filter(pred),
        decreases parts.len() - i,
    {
        let t = trim_text(&parts[i]);
        proof {
            assert(parts@.map_values(|w: Vec<char>| w@)[i as int] == parts@[i as int]@);
            assert(all[i as int] == t@);
            assert(all.take(i + 1) =~= all.take(i as int).push(all[i as int]));
            all.take(i as int).lemma_filter_push(all[i as int], pred);
        }
        if t.len() > 0 {
            let ghost o = out@;
            out.push(string_of(&t));
            proof {
                assert(texts(out@) =~= texts(o).push(t@));
            }
        }
        i += 1;
    }
    proof {
        assert(all.take(parts@.len() as int) =~= all);
    }
    out
}

/// Texts joined with a separator between each two.
pub open spec fn joined(ts: Seq<Seq<char>>, sep: Seq<char>) -> Seq<char>
    decreases ts.len(),
{
    if ts.len() == 0 {
        Seq::empty()
    } else if ts.len() == 1 {
        ts[0]
    } else {
        joined(ts.drop_last(), sep) + sep + ts.last()
    }
}

/// `v` joined with `sep`, as `[String]::join` does.
pub fn join_strings(v: &Vec<String>, sep: &str) -> (r: String)
    ensures
        r@ == joined(texts(v@), sep@),
{
    let mut r = String::new();
    let mut i: usize = 0;
    while i < v.len()
        invariant
            i <= v.len(),
            r@ == joined(texts(v@).take(i as int), sep@),
        decreases v.len() - i,
    {
        proof {
            assert(texts(v@).take(i + 1).drop_last() =~= texts(v@).take(i as int));
            assert(texts(v@).take(i + 1).last() == v@[i as int]@);
        }
        if i > 0 {
            r.append(sep);
        }
        r.append(v[i].as_str());
        proof {
            if i == 0 {
                assert(texts(v@).take(1) =~= seq![v@[0]@]);
            }
        }
        i += 1;
    }
    proof {
        assert(texts(v@).take(v@.len() as int) =~= texts(v@));
    }
    r
}

// ── Schedules ────────────────────────────────────────────────────────────────

/// How a schedule is described in the job table.
pub open spec fn schedule_label(s: Schedule) -> Seq<char> {
    match s {
        Schedule::Cron { expression } => "cron("@ + expression@ + ")"@,
        Schedule::Interval { secs } => "every "@ + decimal(secs as nat) + "s"@,
        Schedule::Once { at } => "once@"@ + decimal(at as nat),
    }
}

/// How a schedule is described in the job table.
pub fn schedule_text(s: &Schedule) -> (r: String)
    ensures
        r@ == schedule_label(*s),
{
    match s {
        Schedule::Cron { expression } => {
            let mut r = String::from_str("cron(");
            r.append(expression.as_str());
            r.append(")");
            r
        },
        Schedule::Interval { secs } => {
            let mut r = String::from_str("every ");
            push_decimal(&mut r, *secs);
            r.append("s");
            r
        },
        Schedule::Once { at } => {
            let mut r = String::from_str("once@");
            push_decimal(&mut r, *at);
            r
        },
    }
}

/// The schedule that the flags of `schedule create` select: the cron
/// expression, else the interval, else the one-shot time; none when no flag
/// is given.
pub fn schedule_from_flags(cron: Option<String>, interval: Option<u64>, once: Option<u64>) -> (r: Option<Schedule>)
    ensures
        r == match (cron, interval, once) {
            (Some(e), _, _) => Some(Schedule::Cron { expression: e }),
            (None, Some(s), _) => Some(Schedule::Interval { secs: s }),
            (None, None, Some(a)) => Some(Schedule::Once { at: a }),
            (None, None, None) => None::<Schedule>,
        },
{
    match cron {
        Some(e) => Some(Schedule::Cron { expression: e }),
        None => match interval {
            Some(s) => Some(Schedule::Interval { secs: s }),
            None => match once {
                Some(a) => Some(Schedule::Once { at: a }),
                None => None,
            },
        },
    }
}

// ── Tables ───────────────────────────────────────────────────────────────────

/// The rows of a table, as text.
pub open spec fn rows_text(rows: Seq<Vec<String>>) -> Seq<Seq<Seq<char>>> {
    rows.map_values(|r: Vec<String>| texts(r@))
}

proof fn lemma_rows_push(rows: Seq<Vec<String>>, row: Vec<String>)
    ensures
        rows_text(rows.push(row)) == rows_text(rows).push(texts(row@)),
{
    assert(rows_text(rows.push(row)) =~= rows_text(rows).push(texts(row@)));
}

/// The row of a job in the job table at `now`.
pub open spec fn job_row(j: ScheduledJob, now: u64) -> Seq<Seq<char>> {
    seq![id_head(j.id@), j.name@, j.tenant_id@, j.agent_id@, schedule_label(j.schedule),
        next_text(j.next_run, now), decimal(j.run_count as nat), decimal(j.fail_count as nat),
        if j.enabled { "✓"@ } else { "—"@ }]
}

/// The job table at `now`, one row per job.
pub fn job_rows(jobs: &Vec<ScheduledJob>, now: u64) -> (rows: Vec<Vec<String>>)
    requires
        forall|i: int| 0 <= i < jobs@.len() ==> has_id_head(#[trigger] jobs@[i].id@),
    ensures
        rows_text(rows@) == jobs@.map_values(|j: ScheduledJob| job_row(j, now)),
{
    let mut rows: Vec<Vec<String>> = Vec::new();
    let mut i: usize = 0;
    proof {
        assert(rows_text(rows@) =~= jobs@.take(0).map_values(|j: ScheduledJob| job_row(j, now)));
    }
    while i < jobs.len()
        invariant
            i <= jobs.len(),
            forall|k: int| 0 <= k < jobs@.len() ==> has_id_head(#[trigger] jobs@[k].id@),
            rows_text(rows@) == jobs@.take(i as int).map_values(|j: ScheduledJob| job_row(j, now)),
        decreases jobs.len() - i,
    {
        let j = &jobs[i];
        let mut row: Vec<String> = Vec::new();
        row.push(short_id(j.id.as_str()));
        row.push(j.name.clone());
        row.push(j.tenant_id.clone());
        row.push(j.agent_id.clone());
        row.push(schedule_text(&j.schedule));
        row.push(format_next(j.next_run, now));
        row.push(dec_string(j.run_count));
        row.push(dec_string(j.fail_count));
        row.push(if j.enabled { String::from_str("✓") } else { String::from_str("—") });
        proof {
            assert(texts(row@) =~= job_row(*j, now));
            assert(jobs@.take(i + 1).map_values(|j: ScheduledJob| job_row(j, now))
                =~= jobs@.take(i as int).map_values(|j: ScheduledJob| job_row(j, now)).push(job_row(jobs@[i as int], now)));
            lemma_rows_push(rows@, row);
        }
        rows.push(row);
        i += 1;
    }
    proof {
        assert(jobs@.take(jobs@.len() as int) =~= jobs@);
    }
    rows
}

/// The row of a run in a job's history table.
pub open spec fn history_row(r: JobRunRecord) -> Seq<Seq<char>> {
    seq![id_head_upto(r.job_id@), r.status@, decimal(r.fired_at as nat), opt_decimal(r.duration_ms), opt_text(r.message)]
}

/// The last `n` runs, newest first.
pub open spec fn latest_runs(runs: Seq<JobRunRecord>, n: int) -> Seq<JobRunRecord> {
    let k = if n < runs.len() { n } else { runs.len() as int };
    runs.subrange(runs.len() - k, runs.len() as int).reverse()
}

/// The history table of a job: its last twenty runs, newest first.
pub fn history_rows(runs: Vec<JobRunRecord>) -> (rows: Vec<Vec<String>>)
    requires
        forall|i: int| 0 <= i < runs@.len() ==> has_id_head_upto(#[trigger] runs@[i].job_id@),
    ensures
        rows_text(rows@) == latest_runs(runs@, 20).map_values(|r: JobRunRecord| history_row(r)),
{
    let ghost all = runs@;
    let recent = last_n_reversed(runs, 20);
    let ghost rs = recent@;
    proof {
        assert(rs == latest_runs(all, 20));
        assert forall|k: int| 0 <= k < rs.len() implies has_id_head_upto(#[trigger] rs[k].job_id@) by {
            let n = if 20 < all.len() { 20int } else { all.len() as int };
            assert(rs[k] == all[all.len() - 1 - k]);
        }
    }
    let mut rows: Vec<Vec<String>> = Vec::new();
    let mut i: usize = 0;
    proof {
        assert(rows_text(rows@) =~= rs.take(0).map_values(|r: JobRunRecord| history_row(r)));
    }
    while i < recent.len()
        invariant
            rs == recent@,
            i <= recent.len(),
            forall|k: int| 0 <= k < rs.len() ==> has_id_head_upto(#[trigger] rs[k].job_id@),
            rows_text(rows@) == rs.take(i as int).map_values(|r: JobRunRecord| history_row(r)),
        decreases recent.len() - i,
    {
        let r = &recent[i];
        let mut row: Vec<String> = Vec::new();
        row.push(short_id_upto(r.job_id.as_str()));
        row.push(r.status.clone());
        row.push(dec_string(r.fired_at));
        row.push(opt_dec_string(r.duration_ms));
        row.push(opt_text_string(&r.message));
        proof {
            assert(texts(row@) =~= history_row(*r));
            assert(rs.take(i + 1).map_values(|r: JobRunRecord| history_row(r))
                =~= rs.take(i as int).map_values(|r: JobRunRecord| history_row(r)).push(history_row(rs[i as int])));
            lemma_rows_push(rows@, row);
        }
        rows.push(row);
        i += 1;
    }
    proof {
        assert(rs.take(rs.len() as int) =~= rs);
    }
    rows
}

// ── Orchestration ────────────────────────────────────────────────────────────

/// The row of a blueprint in the blueprint table.
pub open spec fn blueprint_row(b: Blueprint) -> Seq<Seq<char>> {
    seq![id_head(b.id@), b.name@, b.agent_id@,
        match b.pin_version { Some(v) => v@, None => "latest"@ },
        match b.region { Some(r) => r@, None => "any"@ },
        joined(texts(b.tags@), ", "@)]
}

/// The blueprint table.
pub fn blueprint_rows(bps: &Vec<Blueprint>) -> (rows: Vec<Vec<String>>)
    requires
        forall|i: int| 0 <= i < bps@.len() ==> has_id_head(#[trigger] bps@[i].id@),
    ensures
        rows_text(rows@) == bps@.map_values(|b: Blueprint| blueprint_row(b)),
{
    let mut rows: Vec<Vec<String>> = Vec::new();
    let mut i: usize = 0;
    proof {
        assert(rows_text(rows@) =~= bps@.take(0).map_values(|b: Blueprint| blueprint_row(b)));
    }
    while i < bps.len()
        invariant
            i <= bps.len(),
            forall|k: int| 0 <= k < bps@.len() ==> has_id_head(#[trigger] bps@[k].id@),
            rows_text(rows@) == bps@.take(i as int).map_values(|b: Blueprint| blueprint_row(b)),
        decreases bps.len() - i,
    {
        let b = &bps[i];
        let mut row: Vec<String> = Vec::new();
        row.push(short_id(b.id.as_str()));
        row.push(b.name.clone());
        row.push(b.agent_id.clone());
        row.push(match &b.pin_version { Some(v) => v.clone(), None => String::from_str("latest") });
        row.push(match &b.region { Some(r) => r.clone(), None => String::from_str("any") });
        row.push(join_strings(&b.tags, ", "));
        proof {
            assert(texts(row@) =~= blueprint_row(*b));
            assert(bps@.take(i + 1).map_values(|b: Blueprint| blueprint_row(b))
                =~= bps@.take(i as int).map_values(|b: Blueprint| blueprint_row(b)).push(blueprint_row(bps@[i as int])));
            lemma_rows_push(rows@, row);
        }
        rows.push(row);
        i += 1;
    }
    proof {
        assert(bps@.take(bps@.len() as int) =~= bps@);
    }
    rows
}

/// The name of a group status, as `{:?}` writes it.
pub open spec fn group_status_name(s: GroupStatus) -> Seq<char> {
    match s {
        GroupStatus::Idle => "Idle"@,
        GroupStatus::Starting => "Starting"@,
        GroupStatus::Running => "Running"@,
        GroupStatus::Stopping => "Stopping"@,
        GroupStatus::Stopped => "Stopped"@,
        GroupStatus::Error => "Error"@,
    }
}

/// The name of a group status.
pub fn group_status_text(s: &GroupStatus) -> (r: String)
    ensures
        r@ == group_status_name(*s),
{
    match s {
        GroupStatus::Idle => String::from_str("Idle"),
        GroupStatus::Starting => String::from_str("Starting"),
        GroupStatus::Running => String::from_str("Running"),
        GroupStatus::Stopping => String::from_str("Stopping"),
        GroupStatus::Stopped => String::from_str("Stopped"),
        GroupStatus::Error => String::from_str("Error"),
    }
}

/// The row of a group in the group table.
pub open spec fn group_row(g: AgentGroup) -> Seq<Seq<char>> {
    seq![id_head(g.id@), g.name@, g.tenant_id@, decimal(g.members@.len()), group_status_name(g.status)]
}

/// The group table.
pub fn group_rows(groups: &Vec<AgentGroup>) -> (rows: Vec<Vec<String>>)
    requires
        forall|i: int| 0 <= i < groups@.len() ==> has_id_head(#[trigger] groups@[i].id@),
    ensures
        rows_text(rows@) == groups@.map_values(|g: AgentGroup| group_row(g)),
{
    let mut rows: Vec<Vec<String>> = Vec::new();
    let mut i: usize = 0;
    proof {
        assert(rows_text(rows@) =~= groups@.take(0).map_values(|g: AgentGroup| group_row(g)));
    }
    while i < groups.len()
        invariant
            i <= groups.len(),
            forall|k: int| 0 <= k < groups@.len() ==> has_id_head(#[trigger] groups@[k].id@),
            rows_text(rows@) == groups@.take(i as int).map_values(|g: AgentGroup| group_row(g)),
        decreases groups.len() - i,
    {
        let g = &groups[i];
        let mut row: Vec<String> = Vec::new();
        row.push(short_id(g.id.as_str()));
        row.push(g.name.clone());
        row.push(g.tenant_id.clone());
        row.push(dec_string(g.members.len() as u64));
        row.push(group_status_text(&g.status));
        proof {
            assert(texts(row@) =~= group_row(*g));
            assert(groups@.take(i + 1).map_values(|g: AgentGroup| group_row(g))
                =~= groups@.take(i as int).map_values(|g: AgentGroup| group_row(g)).push(group_row(groups@[i as int])));
            lemma_rows_push(rows@, row);
        }
        rows.push(row);
        i += 1;
    }
    proof {
        assert(groups@.take(groups@.len() as int) =~= groups@);
    }
    rows
}

/// The agents of a group, as the group view lists them.
pub open spec fn member_list(g: AgentGroup) -> Seq<char> {
    joined(g.members@.map_values(|m: crate::orchestration::GroupMember| m.agent_id@), ", "@)
}

pub fn member_list_text(g: &AgentGroup) -> (r: String)
    ensures
        r@ == member_list(*g),
{
    let mut ids: Vec<String> = Vec::new();
    let mut i: usize = 0;
    while i < g.members.len()
        invariant
            i <= g.members.len(),
            texts(ids@) == g.members@.take(i as int).map_values(|m: crate::orchestration::GroupMember| m.agent_id@),
        decreases g.members.len() - i,
    {
        let ghost o = ids@;
        ids.push(g.members[i].agent_id.clone());
        proof {
            assert(texts(ids@) =~= texts(o).push(g.members@[i as int].agent_id@));
            assert(g.members@.take(i + 1).map_values(|m: crate::orchestration::GroupMember| m.agent_id@)
                =~= g.members@.take(i as int).map_values(|m: crate::orchestration::GroupMember| m.agent_id@)
                    .push(g.members@[i as int].agent_id@));
        }
        i += 1;
    }
    proof {
        assert(g.members@.take(g.members@.len() as int) =~= g.members@);
    }
    join_strings(&ids, ", ")
}

/// The row of a workflow definition in the workflow table.
pub open spec fn workflow_row(d: WorkflowDef) -> Seq<Seq<char>> {
    seq![id_head(d.id@), d.name@, d.tenant_id@, decimal(d.steps@.len())]
}

/// The workflow table.
pub fn workflow_rows(defs: &Vec<WorkflowDef>) -> (rows: Vec<Vec<String>>)
    requires
        forall|i: int| 0 <= i < defs@.len() ==> has_id_head(#[trigger] defs@[i].id@),
    ensures
        rows_text(rows@) == defs@.map_values(|d: WorkflowDef| workflow_row(d)),
{
    let mut rows: Vec<Vec<String>> = Vec::new();
    let mut i: usize = 0;
    proof {
        assert(rows_text(rows@) =~= defs@.take(0).map_values(|d: WorkflowDef| workflow_row(d)));
    }
    while i < defs.len()
        invariant
            i <= defs.len(),
            forall|k: int| 0 <= k < defs@.len() ==> has_id_head(#[trigger] defs@[k].id@),
            rows_text(rows@) == defs@.take(i as int).map_values(|d: WorkflowDef| workflow_row(d)),
        decreases defs.len() - i,
    {
        let d = &defs[i];
        let mut row: Vec<String> = Vec::new();
        row.push(short_id(d.id.as_str()));
        row.push(d.name.clone());
        row.push(d.tenant_id.clone());
        row.push(dec_string(d.steps.len() as u64));
        proof {
            assert(texts(row@) =~= workflow_row(*d));
            assert(defs@.take(i + 1).map_values(|d: WorkflowDef| workflow_row(d))
                =~= defs@.take(i as int).map_values(|d: WorkflowDef| workflow_row(d)).push(workflow_row(defs@[i as int])));
            lemma_rows_push(rows@, row);
        }
        rows.push(row);
        i += 1;
    }
    proof {
        assert(defs@.take(defs@.len() as int) =~= defs@);
    }
    rows
}

/// The row of a step in the view of a workflow definition.
pub open spec fn step_row(s: WorkflowStep) -> Seq<Seq<char>> {
    seq![s.step_id@, s.name@, s.agent_id@,
        if s.depends_on@.len() == 0 { "—"@ } else { joined(texts(s.depends_on@), ", "@) },
        if s.optional { "true"@ } else { "false"@ }]
}

/// The step table of a workflow definition.
pub fn step_rows(def: &WorkflowDef) -> (rows: Vec<Vec<String>>)
    ensures
        rows_text(rows@) == def.steps@.map_values(|s: WorkflowStep| step_row(s)),
{
    let steps = &def.steps;
    let mut rows: Vec<Vec<String>> = Vec::new();
    let mut i: usize = 0;
    proof {
        assert(rows_text(rows@) =~= steps@.take(0).map_values(|s: WorkflowStep| step_row(s)));
    }
    while i < steps.len()
        invariant
            steps@ == def.steps@,
            i <= steps.len(),
            rows_text(rows@) == steps@.take(i as int).map_values(|s: WorkflowStep| step_row(s)),
        decreases steps.len() - i,
    {
        let s = &steps[i];
        let mut row: Vec<String> = Vec::new();
        row.push(s.step_id.clone());
        row.push(s.name.clone());
        row.push(s.agent_id.clone());
        row.push(if s.depends_on.len() == 0 { String::from_str("—") } else { join_strings(&s.depends_on, ", ") });
        row.push(if s.optional { String::from_str("true") } else { String::from_str("false") });
        proof {
            assert(texts(row@) =~= step_row(*s));
            assert(steps@.take(i + 1).map_values(|s: WorkflowStep| step_row(s))
                =~= steps@.take(i as int).map_values(|s: WorkflowStep| step_row(s)).push(step_row(steps@[i as int])));
            lemma_rows_push(rows@, row);
        }
        rows.push(row);
        i += 1;
    }
    proof {
        assert(steps@.take(steps@.len() as int) =~= steps@);
    }
    rows
}

/// The name of a workflow status, as `{:?}` writes it.
pub open spec fn workflow_status_name(s: WorkflowStatus) -> Seq<char> {
    match s {
        WorkflowStatus::Pending => "Pending"@,
        WorkflowStatus::Running => "Running"@,
        WorkflowStatus::Completed => "Completed"@,
        WorkflowStatus::Failed => "Failed"@,
        WorkflowStatus::Cancelled => "Cancelled"@,
    }
}

/// The name of a workflow status.
pub fn workflow_status_text(s: &WorkflowStatus) -> (r: String)
    ensures
        r@ == workflow_status_name(*s),
{
    match s {
        WorkflowStatus::Pending => String::from_str("Pending"),
        WorkflowStatus::Running => String::from_str("Running"),
        WorkflowStatus::Completed => String::from_str("Completed"),
        WorkflowStatus::Failed => String::from_str("Failed"),
        WorkflowStatus::Cancelled => String::from_str("Cancelled"),
    }
}

/// The name of a step status, as `{:?}` writes it.
pub open spec fn step_status_name(s: StepStatus) -> Seq<char> {
    match s {
        StepStatus::Pending => "Pending"@,
        StepStatus::Running => "Running"@,
        StepStatus::Completed => "Completed"@,
        StepStatus::Failed => "Failed"@,
        StepStatus::Skipped => "Skipped"@,
    }
}

/// The name of a step status.
pub fn step_status_text(s: &StepStatus) -> (r: String)
    ensures
        r@ == step_status_name(*s),
{
    match s {
        StepStatus::Pending => String::from_str("Pending"),
        StepStatus::Running => String::from_str("Running"),
        StepStatus::Completed => String::from_str("Completed"),
        StepStatus::Failed => String::from_str("Failed"),
        StepStatus::Skipped => String::from_str("Skipped"),
    }
}

/// A process id in decimal, or a dash.
pub open spec fn opt_pid(p: Option<u32>) -> Seq<char> {
    match p {
        Some(v) => decimal(v as nat),
        None => "—"@,
    }
}

/// A process id in decimal, or a dash.
pub fn opt_pid_string(p: Option<u32>) -> (r: String)
    ensures
        r@ == opt_pid(p),
{
    match p {
        Some(v) => dec_string(v as u64),
        None => String::from_str("—"),
    }
}

/// The number of completed steps of a run.
pub open spec fn completed_steps(steps: Seq<StepExecution>) -> nat {
    steps.filter(|s: StepExecution| s.status is Completed).len()
}

/// The number of completed steps.
fn count_completed(steps: &Vec<StepExecution>) -> (n: usize)
    ensures
        n == completed_steps(steps@),
{
    let ghost pred = |s: StepExecution| s.status is Completed;
    let mut n: usize = 0;
    let mut i: usize = 0;
    proof {
        reveal(Seq::filter);
        assert(steps@.take(0).filter(pred) =~= Seq::<StepExecution>::empty());
    }
    while i < steps.len()
        invariant
            pred == (|s: StepExecution| s.status is Completed),
            i <= steps.len(),
            n == steps@.take(i as int).filter(pred).len(),
            n <= i,
        decreases steps.len() - i,
    {
        proof {
            assert(steps@.take(i + 1) =~= steps@.take(i as int).push(steps@[i as int]));
            steps@.take(i as int).lemma_filter_push(steps@[i as int], pred);
        }
        match steps[i].status {
            StepStatus::Completed => {
                n = n + 1;
            },
            _ => {},
        }
        i += 1;
    }
    proof {
        assert(steps@.take(steps@.len() as int) =~= steps@);
    }
    n
}

/// The row of a run in the table of a workflow's runs.
pub open spec fn run_row(r: WorkflowRun) -> Seq<Seq<char>> {
    seq![id_head(r.run_id@), workflow_status_name(r.status),
        decimal(completed_steps(r.steps@)) + "/"@ + decimal(r.steps@.len()), decimal(r.started_at as nat)]
}

/// The table of a workflow's runs.
pub fn run_rows(runs: &Vec<WorkflowRun>) -> (rows: Vec<Vec<String>>)
    requires
        forall|i: int| 0 <= i < runs@.len() ==> has_id_head(#[trigger] runs@[i].run_id@),
    ensures
        rows_text(rows@) == runs@.map_values(|r: WorkflowRun| run_row(r)),
{
    let mut rows: Vec<Vec<String>> = Vec::new();
    let mut i: usize = 0;
    proof {
        assert(rows_text(rows@) =~= runs@.take(0).map_values(|r: WorkflowRun| run_row(r)));
    }
    while i < runs.len()
        invariant
            i <= runs.len(),
            forall|k: int| 0 <= k < runs@.len() ==> has_id_head(#[trigger] runs@[k].run_id@),
            rows_text(rows@) == runs@.take(i as int).map_values(|r: WorkflowRun| run_row(r)),
        decreases runs.len() - i,
    {
        let r = &runs[i];
        let mut row: Vec<String> = Vec::new();
        row.push(short_id(r.run_id.as_str()));
        row.push(workflow_status_text(&r.status));
        let mut done = dec_string(count_completed(&r.steps) as u64);
        done.append("/");
        push_decimal(&mut done, r.steps.len() as u64);
        row.push(done);
        row.push(dec_string(r.started_at));
        proof {
            assert(texts(row@) =~= run_row(*r));
            assert(runs@.take(i + 1).map_values(|r: WorkflowRun| run_row(r))
                =~= runs@.take(i as int).map_values(|r: WorkflowRun| run_row(r)).push(run_row(runs@[i as int])));
            lemma_rows_push(rows@, row);
        }
        rows.push(row);
        i += 1;
    }
    proof {
        assert(runs@.take(runs@.len() as int) =~= runs@);
    }
    rows
}

/// The row of a step in the progress table of a run (before its status is
/// painted).
pub open spec fn progress_row(s: StepExecution) -> Seq<Seq<char>> {
    seq![s.step_id@, step_status_name(s.status), opt_pid(s.agent_pid), opt_decimal(s.started_at), opt_decimal(s.finished_at)]
}

/// The row of a step in the status table of a run (before its status is
/// painted).
pub open spec fn status_row(s: StepExecution) -> Seq<Seq<char>> {
    seq![s.step_id@, step_status_name(s.status), opt_pid(s.agent_pid), opt_text(s.error)]
}

/// A row whose status cell (the second) is shown without its colours.
pub open spec fn unpainted(row: Seq<Seq<char>>) -> Seq<Seq<char>> {
    row.update(1, visible(row[1]))
}

proof fn lemma_step_status_plain(s: StepStatus)
    ensures
        no_escape(step_status_name(s)),
{
    reveal_strlit("Pending");
    reveal_strlit("Running");
    reveal_strlit("Completed");
    reveal_strlit("Failed");
    reveal_strlit("Skipped");
}

/// The step tables of a run, with each status painted by its colour: with
/// start and finish times (`with_times`), or with errors.
pub fn run_step_rows(run: &WorkflowRun, with_times: bool) -> (rows: Vec<Vec<String>>)
    ensures
        rows@.map_values(|r: Vec<String>| unpainted(texts(r@))) == run.steps@.map_values(|s: StepExecution|
            if with_times { progress_row(s) } else { status_row(s) }),
{
    let steps = &run.steps;
    let ghost f = |s: StepExecution| if with_times { progress_row(s) } else { status_row(s) };
    let ghost u = |r: Vec<String>| unpainted(texts(r@));
    let mut rows: Vec<Vec<String>> = Vec::new();
    let mut i: usize = 0;
    proof {
        assert(rows@.map_values(u) =~= steps@.take(0).map_values(f));
    }
    while i < steps.len()
        invariant
            steps@ == run.steps@,
            f == (|s: StepExecution| if with_times { progress_row(s) } else { status_row(s) }),
            u == (|r: Vec<String>| unpainted(texts(r@))),
            i <= steps.len(),
            rows@.map_values(u) == steps@.take(i as int).map_values(f),
        decreases steps.len() - i,
    {
        let s = &steps[i];
        let name = step_status_text(&s.status);
        proof {
            lemma_step_status_plain(s.status);
        }
        let mut row: Vec<String> = Vec::new();
        row.push(s.step_id.clone());
        row.push(status_str(name.as_str()));
        row.push(opt_pid_string(s.agent_pid));
        if with_times {
            row.push(opt_dec_string(s.started_at));
            row.push(opt_dec_string(s.finished_at));
        } else {
            row.push(opt_text_string(&s.error));
        }
        proof {
            assert(unpainted(texts(row@)) =~= f(*s));
            assert(steps@.take(i + 1).map_values(f) =~= steps@.take(i as int).map_values(f).push(f(steps@[i as int])));
            assert(rows@.push(row).map_values(u) =~= rows@.map_values(u).push(u(row)));
        }
        rows.push(row);
        i += 1;
    }
    proof {
        assert(steps@.take(steps@.len() as int) =~= steps@);
    }
    rows
}

// ── Table layout ─────────────────────────────────────────────────────────────

/// The length in bytes of what a cell shows, its colours left out.
pub open spec fn vis_len(s: Seq<char>) -> int {
    blen(visible(s))
}

/// The width of column `i` over the header `h` and the first `n` rows: the
/// longest of the header and of the cells shown in that column.
pub open spec fn width_upto(h: Seq<char>, rows: Seq<Seq<Seq<char>>>, i: int, n: int) -> int
    decreases n,
{
    if n <= 0 {
        blen(h)
    } else {
        let w = width_upto(h, rows, i, n - 1);
        let r = rows[n - 1];
        if i < r.len() && vis_len(r[i]) > w { vis_len(r[i]) } else { w }
    }
}

/// The column widths of a table.
pub open spec fn col_widths(headers: Seq<Seq<char>>, rows: Seq<Seq<Seq<char>>>) -> Seq<int> {
    Seq::new(headers.len(), |i: int| width_upto(headers[i], rows, i, rows.len() as int))
}

/// `n` spaces (none when `n` is not positive).
pub open spec fn spaces(n: int) -> Seq<char> {
    Seq::new(if n > 0 { n as nat } else { 0 }, |k: int| ' ')
}

/// The header line of a table: each header left-aligned in its column
/// width plus two, counted in characters.
pub open spec fn header_line(headers: Seq<Seq<char>>, widths: Seq<int>, n: int) -> Seq<char>
    decreases n,
{
    if n <= 0 {
        Seq::empty()
    } else {
        header_line(headers, widths, n - 1) + headers[n - 1] + spaces(widths[n - 1] + 2 - headers[n - 1].len())
    }
}

/// The width a cell is padded to: its column width plus two, or twelve
/// beyond the last column.
pub open spec fn cell_width(widths: Seq<int>, i: int) -> int {
    if i < widths.len() { widths[i] + 2 } else { 12 }
}

/// A row line of a table: each cell followed by the spaces that bring what
/// it shows to its cell width.
pub open spec fn row_line(cells: Seq<Seq<char>>, widths: Seq<int>, n: int) -> Seq<char>
    decreases n,
{
    if n <= 0 {
        Seq::empty()
    } else {
        row_line(cells, widths, n - 1) + cells[n - 1] + spaces(cell_width(widths, n - 1) - vis_len(cells[n - 1]))
    }
}

/// Appends `n` spaces.
fn push_spaces(s: &mut String, n: usize)
    ensures
        final(s)@ == old(s)@ + spaces(n as int),
{
    let ghost s0 = s@;
    let mut k: usize = 0;
    while k < n
        invariant
            k <= n,
            s@ == s0 + spaces(k as int),
        decreases n - k,
    {
        s.append(" ");
        proof {
            reveal_strlit(" ");
            assert(s0 + spaces(k + 1) =~= s0 + spaces(k as int) + " "@);
        }
        k += 1;
    }
}

/// The length in bytes of what `s` shows.
fn shown_len(s: &str) -> (n: usize)
    ensures
        n == vis_len(s@),
{
    let v = strip_ansi(s);
    v.as_str().as_bytes().len()
}

/// The column widths of a table of `headers` and `rows`.
pub fn table_widths(headers: &Vec<String>, rows: &Vec<Vec<String>>) -> (w: Vec<usize>)
    ensures
        w@.len() == headers@.len(),
        forall|i: int| 0 <= i < w@.len() ==> w@[i] == #[trigger] col_widths(texts(headers@), rows_text(rows@))[i],
{
    let ghost hs = texts(headers@);
    let ghost rs = rows_text(rows@);
    let mut w: Vec<usize> = Vec::new();
    let mut i: usize = 0;
    while i < headers.len()
        invariant
            hs == texts(headers@),
            i <= headers.len(),
            w@.len() == i,
            forall|k: int| 0 <= k < i ==> w@[k] == #[trigger] width_upto(hs[k], rs, k, 0),
        decreases headers.len() - i,
    {
        w.push(headers[i].as_str().as_bytes().len());
        i += 1;
    }
    let mut n: usize = 0;
    while n < rows.len()
        invariant
            hs == texts(headers@),
            rs == rows_text(rows@),
            n <= rows.len(),
            w@.len() == headers@.len(),
            forall|k: int| 0 <= k < w@.len() ==> w@[k] == #[trigger] width_upto(hs[k], rs, k, n as int),
        decreases rows.len() - n,
    {
        let row = &rows[n];
        proof {
            assert(rs[n as int] == texts(row@));
        }
        let mut k: usize = 0;
        while k < w.len()
            invariant
                hs == texts(headers@),
                rs == rows_text(rows@),
                rs[n as int] == texts(row@),
                n < rows.len(),
                k <= w.len(),
                w@.len() == headers@.len(),
                forall|j: int| 0 <= j < k ==> w@[j] == #[trigger] width_upto(hs[j], rs, j, n + 1),
                forall|j: int| k <= j < w@.len() ==> w@[j] == #[trigger] width_upto(hs[j], rs, j, n as int),
            decreases w.len() - k,
        {
            let ghost before = w@[k as int];
            proof {
                assert(rs[n as int].len() == row@.len());
                if k < row.len() {
                    assert(rs[n as int][k as int] == row@[k as int]@);
                }
            }
            if k < row.len() {
                let vl = shown_len(row[k].as_str());
                if vl > w[k] {
                    w.set(k, vl);
                }
            }
            proof {
                assert(before == width_upto(hs[k as int], rs, k as int, n as int));
                assert(width_upto(hs[k as int], rs, k as int, n + 1) == w@[k as int]);
            }
            k += 1;
        }
        n += 1;
    }
    w
}

/// The lines of a table: the header line, and one line per row.
pub fn table_lines(headers: &Vec<String>, rows: &Vec<Vec<String>>) -> (r: (String, Vec<String>))
    requires
        forall|i: int| 0 <= i < headers@.len() ==> blen(#[trigger] headers@[i]@) + 2 <= usize::MAX,
        forall|i: int, k: int| 0 <= i < rows@.len() && 0 <= k < rows@[i]@.len()
            ==> vis_len(#[trigger] rows@[i]@[k]@) + 2 <= usize::MAX,
    ensures
        ({
            let ws = col_widths(texts(headers@), rows_text(rows@));
            &&& r.0@ == header_line(texts(headers@), ws, headers@.len() as int)
            &&& r.1@.len() == rows@.len()
            &&& forall|i: int| 0 <= i < rows@.len() ==>
                #[trigger] r.1@[i]@ == row_line(texts(rows@[i]@), ws, rows@[i]@.len() as int)
        }),
{
    let w = table_widths(headers, rows);
    let ghost ws = col_widths(texts(headers@), rows_text(rows@));
    proof {
        let hs = texts(headers@);
        let rs = rows_text(rows@);
        assert forall|r: int, k: int| 0 <= r < rs.len() && 0 <= k < rs[r].len()
            implies vis_len(#[trigger] rs[r][k]) + 2 <= usize::MAX by {
            assert(rs[r] == texts(rows@[r]@));
            assert(rs[r][k] == rows@[r]@[k]@);
        }
        assert forall|i: int| 0 <= i < w@.len() implies #[trigger] w@[i] as int + 2 <= usize::MAX by {
            assert(headers@[i]@ == hs[i]);
            assert(blen(headers@[i]@) + 2 <= usize::MAX);
            lemma_width_from(hs, rs, i, rows@.len() as int);
            assert(rs.len() == rows@.len());
            assert(w@[i] == col_widths(hs, rs)[i]);
            assert(col_widths(hs, rs)[i] == width_upto(hs[i], rs, i, rs.len() as int));
        }
        assert forall|i: int| 0 <= i < w@.len() implies #[trigger] ws[i] == w@[i] by {}
    }
    let mut head = String::new();
    let mut i: usize = 0;
    while i < headers.len()
        invariant
            w@.len() == headers@.len(),
            ws == col_widths(texts(headers@), rows_text(rows@)),
            forall|k: int| 0 <= k < w@.len() ==> #[trigger] ws[k] == w@[k],
            forall|k: int| 0 <= k < w@.len() ==> #[trigger] w@[k] as int + 2 <= usize::MAX,
            i <= headers.len(),
            head@ == header_line(texts(headers@), ws, i as int),
        decreases headers.len() - i,
    {
        head.append(headers[i].as_str());
        let hc = chars_of(headers[i].as_str()).len();
        let target = w[i] + 2;
        if hc < target {
            push_spaces(&mut head, target - hc);
        } else {
            push_spaces(&mut head, 0);
        }
        proof {
            assert(texts(headers@)[i as int] == headers@[i as int]@);
        }
        i += 1;
    }
    let mut lines: Vec<String> = Vec::new();
    let mut n: usize = 0;
    while n < rows.len()
        invariant
            w@.len() == headers@.len(),
            ws == col_widths(texts(headers@), rows_text(rows@)),
            forall|k: int| 0 <= k < w@.len() ==> #[trigger] ws[k] == w@[k],
            forall|k: int| 0 <= k < w@.len() ==> #[trigger] w@[k] as int + 2 <= usize::MAX,
            forall|i: int, k: int| 0 <= i < rows@.len() && 0 <= k < rows@[i]@.len()
                ==> vis_len(#[trigger] rows@[i]@[k]@) + 2 <= usize::MAX,
            n <= rows.len(),
            lines@.len() == n,
            forall|j: int| 0 <= j < n ==>
                #[trigger] lines@[j]@ == row_line(texts(rows@[j]@), ws, rows@[j]@.len() as int),
        decreases rows.len() - n,
    {
        let row = &rows[n];
        let mut line = String::new();
        let mut k: usize = 0;
        while k < row.len()
            invariant
                w@.len() == headers@.len(),
                forall|q: int| 0 <= q < w@.len() ==> #[trigger] ws[q] == w@[q],
                forall|q: int| 0 <= q < w@.len() ==> #[trigger] w@[q] as int + 2 <= usize::MAX,
                ws.len() == w@.len(),
                row@ == rows@[n as int]@,
                n < rows@.len(),
                forall|i: int, q: int| 0 <= i < rows@.len() && 0 <= q < rows@[i]@.len()
                    ==> vis_len(#[trigger] rows@[i]@[q]@) + 2 <= usize::MAX,
                k <= row.len(),
                line@ == row_line(texts(row@), ws, k as int),
            decreases row.len() - k,
        {
            line.append(row[k].as_str());
            let cw: usize = if k < w.len() { w[k] + 2 } else { 12 };
            let vl = shown_len(row[k].as_str());
            if vl < cw {
                push_spaces(&mut line, cw - vl);
            } else {
                push_spaces(&mut line, 0);
            }
            proof {
                assert(texts(row@)[k as int] == row@[k as int]@);
                assert(cw == cell_width(ws, k as int));
            }
            k += 1;
        }
        lines.push(line);
        n += 1;
    }
    (head, lines)
}

proof fn lemma_width_from(hs: Seq<Seq<char>>, rs: Seq<Seq<Seq<char>>>, i: int, n: int)
    requires
        0 <= i < hs.len(),
        blen(hs[i]) + 2 <= usize::MAX,
        0 <= n <= rs.len(),
        forall|r: int, k: int| 0 <= r < rs.len() && 0 <= k < rs[r].len() ==> vis_len(#[trigger] rs[r][k]) + 2 <= usize::MAX,
    ensures
        width_upto(hs[i], rs, i, n) + 2 <= usize::MAX,
    decreases n,
{
    if n > 0 {
        lemma_width_from(hs, rs, i, n - 1);
        if i < rs[n - 1].len() {
            assert(vis_len(rs[n - 1][i]) + 2 <= usize::MAX);
        }
    }
}

// ── Section rules ────────────────────────────────────────────────────────────

/// The opening of a section rule: `── title `.
pub open spec fn section_head(title: Seq<char>) -> Seq<char> {
    "── "@ + title + " "@
}

/// The rule that follows the opening, bringing the line to sixty bytes.
pub open spec fn section_pad(title: Seq<char>) -> Seq<char> {
    let n = 60 - blen(section_head(title));
    Seq::new(if n > 0 { n as nat } else { 0 }, |k: int| '─')
}

/// The two parts of a section rule `── title ───…`: the opening, and the
/// rule that brings the line to sixty bytes (none when the title is longer).
pub fn section_rule(title: &str) -> (r: (String, String))
    ensures
        r.0@ == section_head(title@),
        r.1@ == section_pad(title@),
{
    let mut head = String::from_str("── ");
    head.append(title);
    head.append(" ");
    let n = head.as_str().as_bytes().len();
    let count: usize = if n < 60 { 60 - n } else { 0 };
    let mut pad = String::new();
    let mut k: usize = 0;
    while k < count
        invariant
            k <= count,
            pad@ == Seq::new(k as nat, |q: int| '─'),
        decreases count - k,
    {
        pad.append("─");
        proof {
            reveal_strlit("─");
            assert(pad@ =~= Seq::new((k + 1) as nat, |q: int| '─'));
        }
        k += 1;
    }
    proof {
        assert(pad@ =~= section_pad(title@));
    }
    (head, pad)
}

// ── Dashboard ────────────────────────────────────────────────────────────────

/// The kind of a schedule, as the dashboard names it.
pub open spec fn schedule_kind(s: Schedule) -> Seq<char> {
    match s {
        Schedule::Cron { .. } => "cron"@,
        Schedule::Interval { .. } => "interval"@,
        Schedule::Once { .. } => "once"@,
    }
}

/// The kind of a schedule.
pub fn schedule_kind_text(s: &Schedule) -> (r: String)
    ensures
        r@ == schedule_kind(*s),
{
    match s {
        Schedule::Cron { .. } => String::from_str("cron"),
        Schedule::Interval { .. } => String::from_str("interval"),
        Schedule::Once { .. } => String::from_str("once"),
    }
}

/// The dashboard bar of `n` instances out of `total`: one block per twelfth
/// of the fleet, rounded down (a fleet of none counts as one).
pub open spec fn count_bar_len(n: int, total: int) -> int {
    n * 12 / (if total < 1 { 1 } else { total })
}

pub fn count_bar(n: usize, total: usize) -> (r: String)
    requires
        n * 12 <= usize::MAX,
    ensures
        r@ == Seq::new(count_bar_len(n as int, total as int) as nat, |k: int| '█'),
{
    let t: usize = if total < 1 { 1 } else { total };
    let len = n * 12 / t;
    let mut r = String::new();
    let mut k: usize = 0;
    while k < len
        invariant
            k <= len,
            r@ == Seq::new(k as nat, |q: int| '█'),
        decreases len - k,
    {
        r.append("█");
        proof {
            reveal_strlit("█");
            assert(r@ =~= Seq::new((k + 1) as nat, |q: int| '█'));
        }
        k += 1;
    }
    proof {
        assert(len as int == count_bar_len(n as int, total as int));
    }
    r
}

// ── Health ───────────────────────────────────────────────────────────────────

/// A signed number in decimal, with a minus sign when negative.
pub open spec fn signed_decimal(x: int) -> Seq<char> {
    if x < 0 { "-"@ + decimal((-x) as nat) } else { decimal(x as nat) }
}

/// An exit code in decimal, or a dash when there is none.
pub open spec fn opt_code(c: Option<i32>) -> Seq<char> {
    match c {
        Some(v) => signed_decimal(v as int),
        None => "—"@,
    }
}

/// An exit code in decimal, or a dash.
pub fn opt_code_string(c: Option<i32>) -> (r: String)
    ensures
        r@ == opt_code(c),
{
    match c {
        Some(v) => {
            if v < 0 {
                let mut r = String::from_str("-");
                let m: u64 = (-(v as i64)) as u64;
                push_decimal(&mut r, m);
                r
            } else {
                dec_string(v as u64)
            }
        },
        None => String::from_str("—"),
    }
}

/// The row of a crash in an agent's health view.
pub open spec fn crash_row(c: CrashRecord) -> Seq<Seq<char>> {
    seq!["T+"@ + decimal(c.timestamp as nat) + "s"@, opt_code(c.exit_code),
        if c.was_oom { "true"@ } else { "false"@ }, opt_text(c.signal)]
}

/// The last `n` crashes, newest first.
pub open spec fn latest_crashes(cs: Seq<CrashRecord>, n: int) -> Seq<CrashRecord> {
    let k = if n < cs.len() { n } else { cs.len() as int };
    cs.subrange(cs.len() - k, cs.len() as int).reverse()
}

/// The crash table of an agent's health view: its last five crashes,
/// newest first.
pub fn crash_rows(crashes: Vec<CrashRecord>) -> (rows: Vec<Vec<String>>)
    ensures
        rows_text(rows@) == latest_crashes(crashes@, 5).map_values(|c: CrashRecord| crash_row(c)),
{
    let recent = last_n_reversed(crashes, 5);
    let ghost rs = recent@;
    let mut rows: Vec<Vec<String>> = Vec::new();
    let mut i: usize = 0;
    proof {
        assert(rows_text(rows@) =~= rs.take(0).map_values(|c: CrashRecord| crash_row(c)));
    }
    while i < recent.len()
        invariant
            rs == recent@,
            i <= recent.len(),
            rows_text(rows@) == rs.take(i as int).map_values(|c: CrashRecord| crash_row(c)),
        decreases recent.len() - i,
    {
        let c = &recent[i];
        let mut t = String::from_str("T+");
        push_decimal(&mut t, c.timestamp);
        t.append("s");
        let mut row: Vec<String> = Vec::new();
        row.push(t);
        row.push(opt_code_string(c.exit_code));
        row.push(if c.was_oom { String::from_str("true") } else { String::from_str("false") });
        row.push(opt_text_string(&c.signal));
        proof {
            assert(texts(row@) =~= crash_row(*c));
            assert(rs.take(i + 1).map_values(|c: CrashRecord| crash_row(c))
                =~= rs.take(i as int).map_values(|c: CrashRecord| crash_row(c)).push(crash_row(rs[i as int])));
            lemma_rows_push(rows@, row);
        }
        rows.push(row);
        i += 1;
    }
    proof {
        assert(rs.take(rs.len() as int) =~= rs);
    }
    rows
}

} // verus!
