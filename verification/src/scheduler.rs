//! Scheduled agent execution: cron, fixed-interval and one-shot schedules,
//! and the job list operations of the scheduler loop.

use vstd::prelude::*;
use std::collections::HashMap;
use crate::cron::{next_cron, cron_outcome, CronOutcome, is_next_cron_time, cron_after_in_range, cron_zero_step, cron_after_ok, cron_parses,
    cron_window_start, cron_window_end};
use crate::text::{str_eq, last_n_reversed};

verus! {

/// When a job fires.
pub enum Schedule {
    /// Standard five-field cron expression, e.g. `"0 * * * *"` for every hour.
    Cron { expression: String },
    /// Every `secs` seconds.
    Interval { secs: u64 },
    /// Once, at the Unix timestamp `at`.
    Once { at: u64 },
}

impl Schedule {
    /// The inputs on which computing the next fire time is defined: a cron
    /// expression may not hold a zero step, and the search for a well-formed
    /// one must stay within the calendar's range; an interval may not
    /// overflow.
    pub open spec fn next_after_defined(&self, after_ts: u64) -> bool {
        match *self {
            Schedule::Cron { expression } => cron_outcome(expression@) != CronOutcome::ZeroStep
                && (cron_outcome(expression@) is Fields ==> cron_after_in_range(after_ts as int)),
            Schedule::Interval { secs } => after_ts + secs <= u64::MAX,
            Schedule::Once { .. } => true,
        }
    }

    /// `r` is the next fire time after `after_ts`.
    pub open spec fn is_next_after(&self, after_ts: u64, r: Option<u64>) -> bool {
        match *self {
            Schedule::Once { at } => r == if at > after_ts { Some(at) } else { None },
            Schedule::Interval { secs } => r == Some((after_ts + secs) as u64),
            Schedule::Cron { expression } => match cron_outcome(expression@) {
                CronOutcome::Fields(mi, h, dom, mon, dow, either) => is_next_cron_time(mi, h, dom, mon, dow, either, after_ts as int, r),
                _ => r is None,
            },
        }
    }

    /// The next fire time after `after_ts`.
    pub open spec fn spec_next_after(&self, after_ts: u64) -> Option<u64> {
        choose|r: Option<u64>| self.is_next_after(after_ts, r)
    }

    /// Computes the next fire time after `after_ts` (Unix seconds).
    pub fn next_after(&self, after_ts: u64) -> (r: Option<u64>)
        requires
            self.next_after_defined(after_ts),
        ensures
            self.is_next_after(after_ts, r),
            r == self.spec_next_after(after_ts),
    {
        let r = match self {
            Schedule::Once { at } => {
                if *at > after_ts {
                    Some(*at)
                } else {
                    None
                }
            },
            Schedule::Interval { secs } => Some(after_ts + secs),
            Schedule::Cron { expression } => next_cron(expression.as_str(), after_ts),
        };
        proof {
            lemma_next_after_unique(*self, after_ts, r, self.spec_next_after(after_ts));
        }
        r
    }

    /// Whether the next fire time after `after_ts` can be computed: a cron
    /// expression holds no zero step and, when it is well formed, the search
    /// stays within the calendar; an interval does not overflow.
    pub fn next_after_ok(&self, after_ts: u64) -> (b: bool)
        ensures
            b == self.next_after_defined(after_ts),
    {
        match self {
            Schedule::Cron { expression } => !cron_zero_step(expression.as_str())
                && (cron_after_ok(after_ts) || !cron_parses(expression.as_str())),
            Schedule::Interval { secs } => after_ts <= u64::MAX - *secs,
            Schedule::Once { .. } => true,
        }
    }

    /// True if this schedule can fire again after `now`.
    pub fn has_future(&self, now: u64) -> (b: bool)
        requires
            self.next_after_defined(now),
        ensures
            b == self.spec_next_after(now) is Some,
    {
        self.next_after(now).is_some()
    }

    pub fn duplicate(&self) -> (r: Schedule)
        ensures
            r == *self,
    {
        match self {
            Schedule::Cron { expression } => Schedule::Cron { expression: expression.clone() },
            Schedule::Interval { secs } => Schedule::Interval { secs: *secs },
            Schedule::Once { at } => Schedule::Once { at: *at },
        }
    }
}

/// At most one time is the next fire time.
pub proof fn lemma_next_after_unique(s: Schedule, after_ts: u64, r1: Option<u64>, r2: Option<u64>)
    requires
        s.is_next_after(after_ts, r1),
        s.is_next_after(after_ts, r2) || r2 == s.spec_next_after(after_ts),
    ensures
        r1 == r2,
{
    if !s.is_next_after(after_ts, r2) {
        assert(s.is_next_after(after_ts, s.spec_next_after(after_ts)));
    }
    match s {
        Schedule::Cron { expression } => match cron_outcome(expression@) {
            CronOutcome::Fields(mi, h, dom, mon, dow, either) => {
                match (r1, r2) {
                    (Some(a), Some(b)) => {
                        if a < b {
                            assert(cron_window_start(after_ts as int) <= a < b && a % 60 == 0);
                        } else if b < a {
                            assert(cron_window_start(after_ts as int) <= b < a && b % 60 == 0);
                        }
                    },
                    (Some(a), None) => {
                        assert(cron_window_start(after_ts as int) <= a < cron_window_end(after_ts as int));
                    },
                    (None, Some(b)) => {
                        assert(cron_window_start(after_ts as int) <= b < cron_window_end(after_ts as int));
                    },
                    _ => {},
                }
            },
            _ => {},
        },
        _ => {},
    }
}

/// The next fire time of a one-shot schedule is its time while that is
/// still ahead, and it never fires again once that time has passed.
pub proof fn lemma_once_fires_once(at: u64, now: u64)
    ensures
        (Schedule::Once { at }).spec_next_after(now) == if at > now { Some(at) } else { None::<u64> },
        (Schedule::Once { at }).spec_next_after(at) is None,
{
    let s = Schedule::Once { at };
    lemma_next_after_unique(s, now, if at > now { Some(at) } else { None::<u64> }, s.spec_next_after(now));
    lemma_next_after_unique(s, at, None::<u64>, s.spec_next_after(at));
}

/// Every fire time lies strictly after the time it was computed from, for
/// every schedule but an interval of zero seconds.
pub proof fn lemma_next_after_is_later(s: Schedule, after_ts: u64)
    requires
        s.next_after_defined(after_ts),
        !(s matches Schedule::Interval { secs } && secs == 0),
    ensures
        s.spec_next_after(after_ts) matches Some(t) ==> t > after_ts,
{
    let r = s.spec_next_after(after_ts);
    match s {
        Schedule::Cron { expression } => {
            lemma_cron_has_next(expression, after_ts);
            assert(s.is_next_after(after_ts, r));
        },
        Schedule::Once { at } => {
            lemma_next_after_unique(s, after_ts, if at > after_ts { Some(at) } else { None::<u64> }, r);
        },
        Schedule::Interval { secs } => {
            lemma_next_after_unique(s, after_ts, Some((after_ts + secs) as u64), r);
        },
    }
}

/// A cron schedule whose expression holds no zero step always has a next
/// fire time or none, computed by `next_cron`.
proof fn lemma_cron_has_next(expression: String, after_ts: u64)
    requires
        cron_outcome(expression@) != CronOutcome::ZeroStep,
        cron_outcome(expression@) is Fields ==> cron_after_in_range(after_ts as int),
    ensures
        exists|x: Option<u64>| (Schedule::Cron { expression }).is_next_after(after_ts, x),
{
    let s = Schedule::Cron { expression };
    match cron_outcome(expression@) {
        CronOutcome::Fields(mi, h, dom, mon, dow, either) => {
            if exists|u: int| cron_window_start(after_ts as int) <= u < cron_window_end(after_ts as int)
                && u % 60 == 0 && crate::cron::cron_matches(mi, h, dom, mon, dow, either, u) {
                lemma_least_match(mi, h, dom, mon, dow, either, after_ts);
                let x = choose|x: Option<u64>| is_next_cron_time(mi, h, dom, mon, dow, either, after_ts as int, x);
                assert(s.is_next_after(after_ts, x));
            } else {
                assert(s.is_next_after(after_ts, None));
            }
        },
        _ => {
            assert(s.is_next_after(after_ts, None));
        },
    }
}

proof fn lemma_least_match(
    mi: Set<int>,
    h: Set<int>,
    dom: Set<int>,
    mon: Set<int>,
    dow: Set<int>,
    either: bool,
    after_ts: u64,
)
    requires
        cron_after_in_range(after_ts as int),
        exists|u: int| cron_window_start(after_ts as int) <= u < cron_window_end(after_ts as int)
            && u % 60 == 0 && crate::cron::cron_matches(mi, h, dom, mon, dow, either, u),
    ensures
        exists|x: Option<u64>| is_next_cron_time(mi, h, dom, mon, dow, either, after_ts as int, x),
{
    let lo = cron_window_start(after_ts as int);
    let u0 = choose|u: int| lo <= u < cron_window_end(after_ts as int)
        && u % 60 == 0 && crate::cron::cron_matches(mi, h, dom, mon, dow, either, u);
    lemma_least_match_below(mi, h, dom, mon, dow, either, after_ts, u0);
}

proof fn lemma_least_match_below(
    mi: Set<int>,
    h: Set<int>,
    dom: Set<int>,
    mon: Set<int>,
    dow: Set<int>,
    either: bool,
    after_ts: u64,
    u0: int,
)
    requires
        cron_after_in_range(after_ts as int),
        cron_window_start(after_ts as int) <= u0 < cron_window_end(after_ts as int),
        u0 % 60 == 0,
        crate::cron::cron_matches(mi, h, dom, mon, dow, either, u0),
    ensures
        exists|x: Option<u64>| is_next_cron_time(mi, h, dom, mon, dow, either, after_ts as int, x),
    decreases u0 - cron_window_start(after_ts as int),
{
    let lo = cron_window_start(after_ts as int);
    if exists|u: int| lo <= u < u0 && u % 60 == 0 && crate::cron::cron_matches(mi, h, dom, mon, dow, either, u) {
        let u1 = choose|u: int| lo <= u < u0 && u % 60 == 0 && crate::cron::cron_matches(mi, h, dom, mon, dow, either, u);
        lemma_least_match_below(mi, h, dom, mon, dow, either, after_ts, u1);
    } else {
        assert(is_next_cron_time(mi, h, dom, mon, dow, either, after_ts as int, Some(u0 as u64)));
    }
}


// ── Job records ──────────────────────────────────────────────────────────────

/// A job that launches an agent on a schedule.
pub struct ScheduledJob {
    pub id: String,
    pub name: String,
    pub tenant_id: String,
    pub agent_id: String,
    /// Extra environment variables injected when the job fires.
    pub extra_env: HashMap<String, String>,
    pub schedule: Schedule,
    pub enabled: bool,
    pub created_at: u64,
    pub updated_at: u64,
    pub last_run: Option<u64>,
    pub next_run: u64,
    pub run_count: u64,
    pub fail_count: u64,
}

/// One firing of a job, as kept in its run history.
pub struct JobRunRecord {
    pub job_id: String,
    pub fired_at: u64,
    /// `"ok"`, `"error"` or `"skipped"`.
    pub status: String,
    pub message: Option<String>,
    pub duration_ms: Option<u64>,
}

/// Why a job operation was refused.
pub enum SchedulerError {
    /// No job has this id.
    NotFound(String),
}

/// `a` and `b` hold the same job: equal text, equal environment, equal
/// schedule and counters.
pub open spec fn same_job(a: ScheduledJob, b: ScheduledJob) -> bool {
    &&& a.id@ == b.id@
    &&& a.name@ == b.name@
    &&& a.tenant_id@ == b.tenant_id@
    &&& a.agent_id@ == b.agent_id@
    &&& a.extra_env@ == b.extra_env@
    &&& a.schedule == b.schedule
    &&& a.enabled == b.enabled
    &&& a.created_at == b.created_at
    &&& a.updated_at == b.updated_at
    &&& a.last_run == b.last_run
    &&& a.next_run == b.next_run
    &&& a.run_count == b.run_count
    &&& a.fail_count == b.fail_count
}

impl ScheduledJob {
    /// A copy of this job.
    pub fn duplicate(&self) -> (r: ScheduledJob)
        ensures
            same_job(r, *self),
    {
        ScheduledJob {
            id: self.id.clone(),
            name: self.name.clone(),
            tenant_id: self.tenant_id.clone(),
            agent_id: self.agent_id.clone(),
            extra_env: self.extra_env.clone(),
            schedule: self.schedule.duplicate(),
            enabled: self.enabled,
            created_at: self.created_at,
            updated_at: self.updated_at,
            last_run: self.last_run,
            next_run: self.next_run,
            run_count: self.run_count,
            fail_count: self.fail_count,
        }
    }
}

/// Index of the first job at or after `i` whose id is `id`, or -1.
pub open spec fn job_pos_from(jobs: Seq<ScheduledJob>, id: Seq<char>, i: int) -> int
    decreases jobs.len() - i,
{
    if i < 0 || i >= jobs.len() {
        -1
    } else if jobs[i].id@ == id {
        i
    } else {
        job_pos_from(jobs, id, i + 1)
    }
}

/// Index of the first job whose id is `id`, or -1 when there is none.
pub open spec fn job_pos(jobs: Seq<ScheduledJob>, id: Seq<char>) -> int {
    job_pos_from(jobs, id, 0)
}

/// Some job has the id `id`.
pub open spec fn has_job(jobs: Seq<ScheduledJob>, id: Seq<char>) -> bool {
    exists|i: int| 0 <= i < jobs.len() && #[trigger] jobs[i].id@ == id
}

proof fn lemma_job_pos_from(jobs: Seq<ScheduledJob>, id: Seq<char>, i: int)
    requires
        0 <= i <= jobs.len(),
    ensures
        job_pos_from(jobs, id, i) == -1 ==> forall|k: int| i <= k < jobs.len() ==> #[trigger] jobs[k].id@ != id,
        job_pos_from(jobs, id, i) != -1 ==> {
            let p = job_pos_from(jobs, id, i);
            &&& i <= p < jobs.len()
            &&& jobs[p].id@ == id
            &&& forall|k: int| i <= k < p ==> #[trigger] jobs[k].id@ != id
        },
    decreases jobs.len() - i,
{
    if i < jobs.len() && jobs[i].id@ != id {
        lemma_job_pos_from(jobs, id, i + 1);
    }
}

/// The first job with id `id` sits at `job_pos`, and there is one exactly
/// when some job has that id.
pub proof fn lemma_job_pos(jobs: Seq<ScheduledJob>, id: Seq<char>)
    ensures
        (job_pos(jobs, id) >= 0) == has_job(jobs, id),
        job_pos(jobs, id) >= 0 ==> {
            let p = job_pos(jobs, id);
            &&& p < jobs.len()
            &&& jobs[p].id@ == id
            &&& forall|k: int| 0 <= k < p ==> #[trigger] jobs[k].id@ != id
        },
{
    lemma_job_pos_from(jobs, id, 0);
    if has_job(jobs, id) {
        let k = choose|k: int| 0 <= k < jobs.len() && #[trigger] jobs[k].id@ == id;
        assert(jobs[k].id@ == id);
    }
}

/// Position of the first job whose id is `job_id`.
fn find_job(jobs: &Vec<ScheduledJob>, job_id: &str) -> (r: Option<usize>)
    ensures
        r == if job_pos(jobs@, job_id@) >= 0 { Some(job_pos(jobs@, job_id@) as usize) } else { None },
{
    proof {
        lemma_job_pos(jobs@, job_id@);
    }
    let mut i: usize = 0;
    while i < jobs.len()
        invariant
            i <= jobs.len(),
            job_pos(jobs@, job_id@) == job_pos_from(jobs@, job_id@, i as int),
        decreases jobs.len() - i,
    {
        if str_eq(jobs[i].id.as_str(), job_id) {
            return Some(i);
        }
        i += 1;
    }
    None
}

/// The job whose id is `job_id` (the first one, should several share it).
pub fn load_job(jobs: Vec<ScheduledJob>, job_id: &str) -> (r: Option<ScheduledJob>)
    ensures
        r == if job_pos(jobs@, job_id@) >= 0 { Some(jobs@[job_pos(jobs@, job_id@)]) } else { None },
{
    proof {
        lemma_job_pos(jobs@, job_id@);
    }
    match find_job(&jobs, job_id) {
        Some(p) => {
            let mut jobs = jobs;
            Some(jobs.swap_remove(p))
        },
        None => None,
    }
}

/// A job is due when it is enabled and its next run is not after `now`.
pub open spec fn is_due(j: ScheduledJob, now: u64) -> bool {
    j.enabled && j.next_run <= now
}

/// The jobs that are due at `now`, in their order.
pub fn due_jobs(jobs: Vec<ScheduledJob>, now: u64) -> (r: Vec<ScheduledJob>)
    ensures
        r@ == jobs@.filter(|j: ScheduledJob| is_due(j, now)),
        forall|k: int| 0 <= k < r@.len() ==> (#[trigger] r@[k]).enabled && r@[k].next_run <= now,
        forall|k: int| 0 <= k < jobs@.len() && (#[trigger] jobs@[k]).enabled && jobs@[k].next_run <= now
            ==> r@.contains(jobs@[k]),
{
    let ghost input = jobs@;
    let r = due_jobs_in_order(jobs, now);
    proof {
        lemma_due_jobs_are_enabled_and_ripe(input, now, r@);
    }
    r
}

/// The jobs that a firing round takes are exactly the enabled jobs whose
/// next run has come: a disabled job is never taken, whatever its next run,
/// and an enabled job whose next run is not after `now` is always taken.
pub proof fn lemma_due_jobs_are_enabled_and_ripe(jobs: Seq<ScheduledJob>, now: u64, r: Seq<ScheduledJob>)
    requires
        r == jobs.filter(|j: ScheduledJob| is_due(j, now)),
    ensures
        forall|k: int| 0 <= k < r.len() ==> (#[trigger] r[k]).enabled && r[k].next_run <= now,
        forall|k: int| 0 <= k < jobs.len() && (#[trigger] jobs[k]).enabled && jobs[k].next_run <= now
            ==> r.contains(jobs[k]),
        forall|k: int| 0 <= k < jobs.len() && !(#[trigger] jobs[k]).enabled ==> !r.contains(jobs[k]),
{
    broadcast use vstd::seq_lib::group_filter_ensures;
    let pred = |j: ScheduledJob| is_due(j, now);
    assert forall|k: int| 0 <= k < r.len() implies (#[trigger] r[k]).enabled && r[k].next_run <= now by {
        assert(pred(jobs.filter(pred)[k]));
    }
    assert forall|k: int| 0 <= k < jobs.len() && (#[trigger] jobs[k]).enabled && jobs[k].next_run <= now
        implies r.contains(jobs[k]) by {
        jobs.lemma_filter_contains(pred, k);
    }
    assert forall|k: int| 0 <= k < jobs.len() && !(#[trigger] jobs[k]).enabled implies !r.contains(jobs[k]) by {
        if r.contains(jobs[k]) {
            let q = choose|q: int| 0 <= q < r.len() && r[q] == jobs[k];
            assert(pred(jobs.filter(pred)[q]));
        }
    }
}

fn due_jobs_in_order(jobs: Vec<ScheduledJob>, now: u64) -> (r: Vec<ScheduledJob>)
    ensures
        r@ == jobs@.filter(|j: ScheduledJob| is_due(j, now)),
{
    let ghost all = jobs@;
    let ghost pred = |j: ScheduledJob| is_due(j, now);
    let mut out: Vec<ScheduledJob> = Vec::new();
    proof {
        reveal(Seq::filter);
        assert(all.take(0) =~= Seq::<ScheduledJob>::empty());
    }
    for j in it: jobs.into_iter()
        invariant
            it.seq() == all,
            pred == (|j: ScheduledJob| is_due(j, now)),
            out@ == all.take(it.index() as int).filter(pred),
    {
        let ghost k = it.index() as int;
        proof {
            assert(j == all[k]);
            assert(all.take(k + 1) =~= all.take(k).push(j));
            all.take(k).lemma_filter_push(j, pred);
        }
        if j.enabled && j.next_run <= now {
            out.push(j);
        }
    }
    proof {
        assert(all.take(all.len() as int) =~= all);
    }
    out
}


/// Removes every job whose id is `job_id`; refused when there is none.
pub fn delete_job(jobs: &mut Vec<ScheduledJob>, job_id: &str) -> (r: Result<(), SchedulerError>)
    ensures
        final(jobs)@ == old(jobs)@.filter(|j: ScheduledJob| j.id@ != job_id@),
        r is Err <==> !has_job(old(jobs)@, job_id@),
        r matches Err(SchedulerError::NotFound(id)) ==> id@ == job_id@,
{
    let ghost all = old(jobs)@;
    let ghost pred = |j: ScheduledJob| j.id@ != job_id@;
    let mut taken: Vec<ScheduledJob> = Vec::new();
    std::mem::swap(&mut taken, jobs);
    let before = taken.len();
    let mut kept: Vec<ScheduledJob> = Vec::new();
    proof {
        reveal(Seq::filter);
        assert(all.take(0) =~= Seq::<ScheduledJob>::empty());
    }
    for j in it: taken.into_iter()
        invariant
            it.seq() == all,
            pred == (|j: ScheduledJob| j.id@ != job_id@),
            kept@ == all.take(it.index() as int).filter(pred),
    {
        let ghost k = it.index() as int;
        proof {
            assert(j == all[k]);
            assert(all.take(k + 1) =~= all.take(k).push(j));
            all.take(k).lemma_filter_push(j, pred);
        }
        if !str_eq(j.id.as_str(), job_id) {
            kept.push(j);
        }
    }
    proof {
        assert(all.take(all.len() as int) =~= all);
        all.lemma_filter_len(pred);
        if has_job(all, job_id@) {
            let k = choose|k: int| 0 <= k < all.len() && #[trigger] all[k].id@ == job_id@;
            lemma_filter_drops(all, pred, k);
        } else {
            assert(all.filter(pred) =~= all) by {
                lemma_filter_keeps_all(all, pred);
            }
        }
    }
    let found = kept.len() != before;
    *jobs = kept;
    if !found {
        return Err(SchedulerError::NotFound(job_id.to_owned()));
    }
    Ok(())
}

/// Filtering out an element that fails the predicate shortens the sequence.
proof fn lemma_filter_drops<A>(s: Seq<A>, pred: spec_fn(A) -> bool, k: int)
    requires
        0 <= k < s.len(),
        !pred(s[k]),
    ensures
        s.filter(pred).len() < s.len(),
    decreases s.len(),
{
    reveal(Seq::filter);
    s.drop_last().lemma_filter_len(pred);
    if k < s.len() - 1 {
        lemma_filter_drops(s.drop_last(), pred, k);
    }
}

/// A predicate that holds of every element filters nothing out.
proof fn lemma_filter_keeps_all<A>(s: Seq<A>, pred: spec_fn(A) -> bool)
    requires
        forall|k: int| 0 <= k < s.len() ==> pred(#[trigger] s[k]),
    ensures
        s.filter(pred) == s,
    decreases s.len(),
{
    reveal(Seq::filter);
    if s.len() > 0 {
        lemma_filter_keeps_all(s.drop_last(), pred);
        assert(s.drop_last().push(s.last()) =~= s);
    }
}


/// The next fire time, or `fallback` when the schedule has none.
pub open spec fn next_run_or(s: Schedule, now: u64, fallback: u64) -> u64 {
    match s.spec_next_after(now) {
        Some(t) => t,
        None => fallback,
    }
}

fn next_run_or_exec(s: &Schedule, now: u64, fallback: u64) -> (r: u64)
    requires
        s.next_after_defined(now),
    ensures
        r == next_run_or(*s, now, fallback),
{
    match s.next_after(now) {
        Some(t) => t,
        None => fallback,
    }
}

/// The job as stored on creation at `now`: it keeps its id, or takes `id`
/// when it has none, and its next run is the next fire time (a minute from
/// now when the schedule has none).
pub open spec fn created(job: ScheduledJob, id: String, now: u64) -> ScheduledJob {
    ScheduledJob {
        id: if job.id@.len() == 0 { id } else { job.id },
        created_at: now,
        updated_at: now,
        next_run: next_run_or(job.schedule, now, (now + 60) as u64),
        ..job
    }
}

/// Adds `job` to the list at `now`, giving it the id `id` when it has none.
pub fn create_job_with_id(jobs: &mut Vec<ScheduledJob>, job: ScheduledJob, id: String, now: u64) -> (r: ScheduledJob)
    requires
        job.schedule.next_after_defined(now),
        now + 60 <= u64::MAX,
    ensures
        r == created(job, id, now),
        final(jobs)@.len() == old(jobs)@.len() + 1,
        final(jobs)@.drop_last() == old(jobs)@,
        same_job(final(jobs)@.last(), r),
{
    let mut job = job;
    if job.id.unicode_len() == 0 {
        job.id = id;
    }
    let next = next_run_or_exec(&job.schedule, now, now + 60);
    job.created_at = now;
    job.updated_at = now;
    job.next_run = next;
    jobs.push(job.duplicate());
    proof {
        assert(final(jobs)@.drop_last() =~= old(jobs)@);
    }
    job
}

/// Adds `job` to the list at `now`, giving it a fresh random id when it has
/// none.
pub fn create_job(jobs: &mut Vec<ScheduledJob>, job: ScheduledJob, now: u64) -> (r: ScheduledJob)
    requires
        job.schedule.next_after_defined(now),
        now + 60 <= u64::MAX,
    ensures
        r == created(job, r.id, now),
        job.id@.len() > 0 ==> r.id == job.id,
        job.id@.len() == 0 ==> r.id@.len() == 36,
        final(jobs)@.len() == old(jobs)@.len() + 1,
        final(jobs)@.drop_last() == old(jobs)@,
        same_job(final(jobs)@.last(), r),
{
    let id = if job.id.unicode_len() == 0 {
        crate::ids::new_uuid()
    } else {
        String::new()
    };
    create_job_with_id(jobs, job, id, now)
}

/// The job as stored by an update at `now`: its next run is recomputed, and
/// kept when the schedule has no next fire time.
pub open spec fn refreshed(job: ScheduledJob, now: u64) -> ScheduledJob {
    ScheduledJob { updated_at: now, next_run: next_run_or(job.schedule, now, job.next_run), ..job }
}

/// Replaces the job that has the id of `updated`; refused when there is none.
pub fn update_job(jobs: &mut Vec<ScheduledJob>, updated: ScheduledJob, now: u64) -> (r: Result<ScheduledJob, SchedulerError>)
    requires
        updated.schedule.next_after_defined(now),
    ensures
        ({
            let p = job_pos(old(jobs)@, updated.id@);
            if p < 0 {
                &&& r matches Err(SchedulerError::NotFound(id)) && id@ == updated.id@
                &&& final(jobs)@ == old(jobs)@
            } else {
                &&& r == Ok::<ScheduledJob, SchedulerError>(refreshed(updated, now))
                &&& final(jobs)@.len() == old(jobs)@.len()
                &&& forall|q: int| 0 <= q < old(jobs)@.len() && q != p ==> #[trigger] final(jobs)@[q] == old(jobs)@[q]
                &&& same_job(final(jobs)@[p], refreshed(updated, now))
            }
        }),
{
    proof {
        lemma_job_pos(old(jobs)@, updated.id@);
    }
    let pos = match find_job(jobs, updated.id.as_str()) {
        Some(p) => p,
        None => {
            return Err(SchedulerError::NotFound(updated.id.clone()));
        },
    };
    let mut j = updated;
    let next = next_run_or_exec(&j.schedule, now, j.next_run);
    j.updated_at = now;
    j.next_run = next;
    proof {
        assert(0 <= job_pos(jobs@, updated.id@) < jobs.len());
    }
    jobs.set(pos, j.duplicate());
    Ok(j)
}

/// The job after it fired at `now`: one more run (and failure, when it
/// failed), its next run a day from now when the schedule has none, and a
/// one-shot job disabled.
pub open spec fn fired(j: ScheduledJob, success: bool, now: u64) -> ScheduledJob {
    ScheduledJob {
        last_run: Some(now),
        run_count: (j.run_count + 1) as u64,
        fail_count: if success { j.fail_count } else { (j.fail_count + 1) as u64 },
        next_run: next_run_or(j.schedule, now, (now + 86400) as u64),
        enabled: if j.schedule is Once { false } else { j.enabled },
        ..j
    }
}

/// What `mark_fired` needs of the job it updates: a computable next fire
/// time and counters that do not overflow.
pub open spec fn can_fire(j: ScheduledJob, success: bool, now: u64) -> bool {
    &&& j.schedule.next_after_defined(now)
    &&& j.run_count < u64::MAX
    &&& (!success ==> j.fail_count < u64::MAX)
    &&& now + 86400 <= u64::MAX
}

/// Whether `mark_fired` can record a firing of `j` at `now`.
pub fn can_fire_job(j: &ScheduledJob, success: bool, now: u64) -> (b: bool)
    ensures
        b == can_fire(*j, success, now),
{
    j.schedule.next_after_ok(now) && j.run_count < u64::MAX && (success || j.fail_count < u64::MAX)
        && now <= u64::MAX - 86400
}

/// Records that the job `job_id` fired at `now` and returns the run record
/// for its history. The list is left as it is when no job has that id.
pub fn mark_fired(jobs: &mut Vec<ScheduledJob>, job_id: &str, success: bool, msg: Option<String>, now: u64) -> (r: JobRunRecord)
    requires
        job_pos(old(jobs)@, job_id@) >= 0 ==> can_fire(old(jobs)@[job_pos(old(jobs)@, job_id@)], success, now),
    ensures
        ({
            let p = job_pos(old(jobs)@, job_id@);
            if p < 0 {
                final(jobs)@ == old(jobs)@
            } else {
                final(jobs)@ == old(jobs)@.update(p, fired(old(jobs)@[p], success, now))
            }
        }),
        r.job_id@ == job_id@,
        r.fired_at == now,
        r.status@ == (if success { "ok"@ } else { "error"@ }),
        r.message == msg,
        r.duration_ms is None,
{
    proof {
        lemma_job_pos(old(jobs)@, job_id@);
    }
    let found = find_job(jobs, job_id);
    match found {
        Some(pos) => {
            proof {
                assert(0 <= job_pos(jobs@, job_id@) < jobs.len());
            }
            let mut j = jobs.remove(pos);
            j.last_run = Some(now);
            j.run_count = j.run_count + 1;
            if !success {
                j.fail_count = j.fail_count + 1;
            }
            j.next_run = next_run_or_exec(&j.schedule, now, now + 86400);
            if let Schedule::Once { .. } = j.schedule {
                j.enabled = false;
            }
            jobs.insert(pos, j);
            proof {
                assert(final(jobs)@ =~= old(jobs)@.update(pos as int, fired(old(jobs)@[pos as int], success, now)));
            }
        },
        None => {},
    }
    JobRunRecord {
        job_id: job_id.to_owned(),
        fired_at: now,
        status: if success { "ok".to_owned() } else { "error".to_owned() },
        message: msg,
        duration_ms: None,
    }
}

/// The last `limit` run records, newest first.
pub fn recent_history(records: Vec<JobRunRecord>, limit: usize) -> (r: Vec<JobRunRecord>)
    ensures
        r@ == records@.subrange(records@.len() - (if limit < records@.len() { limit as int } else { records@.len() as int }),
            records@.len() as int).reverse(),
{
    last_n_reversed(records, limit)
}

} // verus!
