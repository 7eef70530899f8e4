//! Crash intelligence of agent instances: the crash window, crash pattern
//! detection, the restart budget, and fleet tallies.

use vstd::prelude::*;
use vstd::string::*;

verus! {

/// How an instance is doing.
pub enum HealthStatus {
    /// Score of 80 or more.
    Healthy,
    /// Score from 40 up to 80.
    Degraded,
    /// Score under 40.
    Critical,
    /// The process is gone.
    Dead,
    /// No data yet.
    Unknown,
}

/// One crash of an instance.
pub struct CrashRecord {
    pub timestamp: u64,
    pub exit_code: Option<i32>,
    pub signal: Option<String>,
    pub was_oom: bool,
    pub restart_attempted: bool,
}

/// How far back crashes count towards the pattern and the score, in seconds.
pub const SLIDING_WINDOW_SECS: u64 = 300;

/// The crash and restart state of an instance.
pub struct CrashLog {
    /// Crashes over the instance's life.
    pub crash_count: u32,
    /// Crashes within the sliding window, oldest first.
    pub recent_crashes: Vec<CrashRecord>,
    pub restart_count: u32,
    pub last_crash_ts: Option<u64>,
    /// `"oom_loop"`, `"startup_crash"`, `"periodic"` or `"repeated"`.
    pub crash_pattern: Option<String>,
}

pub open spec fn sat_sub(a: int, b: int) -> int {
    if a >= b { a - b } else { 0 }
}

pub open spec fn oom_count(cs: Seq<CrashRecord>) -> int {
    cs.filter(|c: CrashRecord| c.was_oom).len() as int
}

pub open spec fn startup_count(cs: Seq<CrashRecord>, created_at: u64) -> int {
    cs.filter(|c: CrashRecord| sat_sub(c.timestamp as int, created_at as int) < 30).len() as int
}

/// The gaps between consecutive crashes.
pub open spec fn crash_gaps(cs: Seq<CrashRecord>) -> Seq<int> {
    Seq::new((cs.len() - 1) as nat, |k: int| sat_sub(cs[k + 1].timestamp as int, cs[k].timestamp as int))
}

pub open spec fn int_sum(s: Seq<int>) -> int
    decreases s.len(),
{
    if s.len() == 0 { 0 } else { int_sum(s.drop_last()) + s.last() }
}

/// The sum of the squared distances of `s` from `m`.
pub open spec fn sq_dev_sum(s: Seq<int>, m: int) -> int
    decreases s.len(),
{
    if s.len() == 0 { 0 } else { sq_dev_sum(s.drop_last(), m) + (s.last() - m) * (s.last() - m) }
}

pub open spec fn gap_mean(cs: Seq<CrashRecord>) -> int {
    int_sum(crash_gaps(cs)) / crash_gaps(cs).len() as int
}

/// The crashes are evenly spaced: the variance of the gaps is below the
/// square of a third of their mean (integer arithmetic throughout).
pub open spec fn is_periodic(cs: Seq<CrashRecord>) -> bool {
    let m = gap_mean(cs);
    let v = sq_dev_sum(crash_gaps(cs), m) / crash_gaps(cs).len() as int;
    m > 0 && v < (m / 3) * (m / 3)
}

/// The arithmetic of the periodicity test stays within its machine types.
pub open spec fn gaps_in_range(cs: Seq<CrashRecord>) -> bool {
    let g = crash_gaps(cs);
    let m = gap_mean(cs);
    &&& int_sum(g) <= u64::MAX
    &&& forall|k: int| 0 <= k < g.len() ==> #[trigger] g[k] <= i64::MAX && (g[k] - m) * (g[k] - m) <= i64::MAX
    &&& sq_dev_sum(g, m) <= u64::MAX
    &&& m > 0 ==> (m / 3) * (m / 3) <= u64::MAX
}

/// The pattern of a crash history: two or more OOM kills form an OOM loop;
/// two or more crashes within 30 s of creation a startup crash; three or
/// more evenly spaced crashes a periodic one; other histories of two or
/// more crashes are repeated ones.
pub open spec fn crash_pattern_of(cs: Seq<CrashRecord>, created_at: u64) -> Option<Seq<char>> {
    if cs.len() < 2 {
        None
    } else if oom_count(cs) >= 2 {
        Some("oom_loop"@)
    } else if startup_count(cs, created_at) >= 2 {
        Some("startup_crash"@)
    } else if cs.len() >= 3 && is_periodic(cs) {
        Some("periodic"@)
    } else {
        Some("repeated"@)
    }
}

/// What the pattern detection needs of its input.
pub open spec fn pattern_computable(cs: Seq<CrashRecord>, created_at: u64) -> bool {
    cs.len() >= 3 && oom_count(cs) < 2 && startup_count(cs, created_at) < 2 ==> gaps_in_range(cs)
}

fn count_oom(cs: &Vec<CrashRecord>) -> (r: usize)
    ensures
        r as int == oom_count(cs@),
{
    let ghost pred = |c: CrashRecord| c.was_oom;
    let mut r: usize = 0;
    let mut i: usize = 0;
    proof {
        reveal(Seq::filter);
        assert(cs@.take(0) =~= Seq::<CrashRecord>::empty());
    }
    while i < cs.len()
        invariant
            pred == (|c: CrashRecord| c.was_oom),
            i <= cs.len(),
            r <= i,
            r as int == cs@.take(i as int).filter(pred).len(),
        decreases cs.len() - i,
    {
        proof {
            assert(cs@.take(i + 1) =~= cs@.take(i as int).push(cs@[i as int]));
            cs@.take(i as int).lemma_filter_push(cs@[i as int], pred);
        }
        if cs[i].was_oom {
            r += 1;
        }
        i += 1;
    }
    proof {
        assert(cs@.take(cs.len() as int) =~= cs@);
    }
    r
}

fn count_startup(cs: &Vec<CrashRecord>, created_at: u64) -> (r: usize)
    ensures
        r as int == startup_count(cs@, created_at),
{
    let ghost pred = |c: CrashRecord| sat_sub(c.timestamp as int, created_at as int) < 30;
    let mut r: usize = 0;
    let mut i: usize = 0;
    proof {
        reveal(Seq::filter);
        assert(cs@.take(0) =~= Seq::<CrashRecord>::empty());
    }
    while i < cs.len()
        invariant
            pred == (|c: CrashRecord| sat_sub(c.timestamp as int, created_at as int) < 30),
            i <= cs.len(),
            r <= i,
            r as int == cs@.take(i as int).filter(pred).len(),
        decreases cs.len() - i,
    {
        proof {
            assert(cs@.take(i + 1) =~= cs@.take(i as int).push(cs@[i as int]));
            cs@.take(i as int).lemma_filter_push(cs@[i as int], pred);
        }
        let t = cs[i].timestamp;
        let since = if t >= created_at { t - created_at } else { 0 };
        if since < 30 {
            r += 1;
        }
        i += 1;
    }
    proof {
        assert(cs@.take(cs.len() as int) =~= cs@);
    }
    r
}

proof fn lemma_int_sum_push(s: Seq<int>, x: int)
    ensures
        int_sum(s.push(x)) == int_sum(s) + x,
{
    assert(s.push(x).drop_last() =~= s);
}

proof fn lemma_sq_dev_sum_push(s: Seq<int>, m: int, x: int)
    ensures
        sq_dev_sum(s.push(x), m) == sq_dev_sum(s, m) + (x - m) * (x - m),
{
    assert(s.push(x).drop_last() =~= s);
}

proof fn lemma_int_sum_bounds(s: Seq<int>, hi: int)
    requires
        forall|q: int| 0 <= q < s.len() ==> 0 <= #[trigger] s[q] <= hi,
    ensures
        0 <= int_sum(s) <= s.len() * hi,
    decreases s.len(),
{
    if s.len() > 0 {
        lemma_int_sum_bounds(s.drop_last(), hi);
        assert(s.last() == s[s.len() - 1]);
        assert((s.len() - 1) * hi + hi == s.len() * hi) by (nonlinear_arith);
    }
}

proof fn lemma_int_sum_prefix(s: Seq<int>, k: int)
    requires
        0 <= k <= s.len(),
        forall|q: int| 0 <= q < s.len() ==> #[trigger] s[q] >= 0,
    ensures
        int_sum(s.take(k)) <= int_sum(s),
    decreases s.len() - k,
{
    if k < s.len() {
        lemma_int_sum_prefix(s, k + 1);
        assert(s.take(k + 1) =~= s.take(k).push(s[k]));
        lemma_int_sum_push(s.take(k), s[k]);
    } else {
        assert(s.take(k) =~= s);
    }
}

proof fn lemma_sq_dev_sum_nonneg(s: Seq<int>, m: int)
    ensures
        sq_dev_sum(s, m) >= 0,
    decreases s.len(),
{
    if s.len() > 0 {
        lemma_sq_dev_sum_nonneg(s.drop_last(), m);
        let d = s.last() - m;
        assert(d * d >= 0) by (nonlinear_arith);
    }
}

proof fn lemma_sq_dev_sum_prefix(s: Seq<int>, m: int, k: int)
    requires
        0 <= k <= s.len(),
    ensures
        sq_dev_sum(s.take(k), m) <= sq_dev_sum(s, m),
    decreases s.len() - k,
{
    if k < s.len() {
        lemma_sq_dev_sum_prefix(s, m, k + 1);
        assert(s.take(k + 1) =~= s.take(k).push(s[k]));
        lemma_sq_dev_sum_push(s.take(k), m, s[k]);
        let d = s[k] - m;
        assert(d * d >= 0) by (nonlinear_arith);
    } else {
        assert(s.take(k) =~= s);
    }
}

/// Whether the crashes are evenly spaced.
fn periodic(cs: &Vec<CrashRecord>) -> (b: bool)
    requires
        cs@.len() >= 3,
        gaps_in_range(cs@),
    ensures
        b == is_periodic(cs@),
{
    let ghost g = crash_gaps(cs@);
    let n = cs.len() - 1;
    let mut sum: u64 = 0;
    let mut k: usize = 0;
    while k < n
        invariant
            g == crash_gaps(cs@),
            n == cs@.len() - 1,
            g.len() == n,
            k <= n,
            gaps_in_range(cs@),
            sum as int == int_sum(g.take(k as int)),
        decreases n - k,
    {
        let a = cs[k].timestamp;
        let b = cs[k + 1].timestamp;
        let gap = if b >= a { b - a } else { 0 };
        proof {
            assert(gap as int == g[k as int]);
            assert(g.take(k + 1) =~= g.take(k as int).push(g[k as int]));
            lemma_int_sum_push(g.take(k as int), g[k as int]);
            assert forall|q: int| 0 <= q < g.len() implies #[trigger] g[q] >= 0 by {}
            lemma_int_sum_prefix(g, k + 1);
        }
        sum = sum + gap;
        k += 1;
    }
    proof {
        assert(g.take(n as int) =~= g);
        lemma_int_sum_bounds(g, i64::MAX as int);
        let t = int_sum(g);
        let nn = n as int;
        assert(t / nn <= i64::MAX) by (nonlinear_arith)
            requires
                0 <= t <= nn * (i64::MAX as int),
                nn > 0;
    }
    let avg = sum / (n as u64);
    let mut var_sum: u64 = 0;
    k = 0;
    while k < n
        invariant
            g == crash_gaps(cs@),
            n == cs@.len() - 1,
            g.len() == n,
            k <= n,
            gaps_in_range(cs@),
            avg as int == gap_mean(cs@),
            avg <= i64::MAX,
            var_sum as int == sq_dev_sum(g.take(k as int), avg as int),
        decreases n - k,
    {
        let a = cs[k].timestamp;
        let b = cs[k + 1].timestamp;
        let gap = if b >= a { b - a } else { 0 };
        proof {
            assert(gap as int == g[k as int]);
            assert(g.take(k + 1) =~= g.take(k as int).push(g[k as int]));
            lemma_sq_dev_sum_push(g.take(k as int), avg as int, g[k as int]);
            lemma_sq_dev_sum_prefix(g, avg as int, k + 1);
            assert(g[k as int] <= i64::MAX && (g[k as int] - avg) * (g[k as int] - avg) <= i64::MAX);
            let d = g[k as int] - avg;
            assert(d * d >= 0) by (nonlinear_arith);
        }
        let diff: i64 = (gap as i64) - (avg as i64);
        let sq: i64 = diff * diff;
        var_sum = var_sum + (sq as u64);
        k += 1;
    }
    proof {
        assert(g.take(n as int) =~= g);
    }
    let variance = var_sum / (n as u64);
    if avg > 0 {
        let third = avg / 3;
        variance < third * third
    } else {
        false
    }
}

/// The pattern of the crash history `cs` of an instance created at
/// `created_at`.
pub fn detect_crash_pattern(cs: &Vec<CrashRecord>, created_at: u64) -> (r: Option<String>)
    requires
        pattern_computable(cs@, created_at),
    ensures
        match crash_pattern_of(cs@, created_at) {
            None => r is None,
            Some(p) => r matches Some(s) && s@ == p,
        },
{
    if cs.len() < 2 {
        return None;
    }
    if count_oom(cs) >= 2 {
        return Some(String::from_str("oom_loop"));
    }
    if count_startup(cs, created_at) >= 2 {
        return Some(String::from_str("startup_crash"));
    }
    if cs.len() >= 3 {
        if periodic(cs) {
            return Some(String::from_str("periodic"));
        }
    }
    Some(String::from_str("repeated"))
}


/// The crashes of `cs` at or after `cutoff`.
pub open spec fn crashes_since(cs: Seq<CrashRecord>, cutoff: int) -> Seq<CrashRecord> {
    cs.filter(|c: CrashRecord| c.timestamp >= cutoff)
}

fn keep_since(cs: Vec<CrashRecord>, cutoff: u64) -> (r: Vec<CrashRecord>)
    ensures
        r@ == crashes_since(cs@, cutoff as int),
{
    let ghost all = cs@;
    let ghost pred = |c: CrashRecord| c.timestamp >= cutoff as int;
    let mut out: Vec<CrashRecord> = Vec::new();
    proof {
        reveal(Seq::filter);
        assert(all.take(0) =~= Seq::<CrashRecord>::empty());
    }
    for c in it: cs.into_iter()
        invariant
            it.seq() == all,
            pred == (|c: CrashRecord| c.timestamp >= cutoff as int),
            out@ == all.take(it.index() as int).filter(pred),
    {
        let ghost k = it.index() as int;
        proof {
            assert(c == all[k]);
            assert(all.take(k + 1) =~= all.take(k).push(c));
            all.take(k).lemma_filter_push(c, pred);
        }
        if c.timestamp >= cutoff {
            out.push(c);
        }
    }
    proof {
        assert(all.take(all.len() as int) =~= all);
    }
    out
}

/// The crash history after a crash at `now`: the crash is appended and
/// those older than the sliding window are dropped.
pub open spec fn crashes_after(cs: Seq<CrashRecord>, c: CrashRecord, now: u64) -> Seq<CrashRecord> {
    crashes_since(cs.push(c), sat_sub(now as int, SLIDING_WINDOW_SECS as int))
}

/// The number of crashes at or after `cutoff` for which a restart was
/// attempted.
pub open spec fn restarts_since(cs: Seq<CrashRecord>, cutoff: int) -> int {
    cs.filter(|c: CrashRecord| c.timestamp >= cutoff && c.restart_attempted).len() as int
}

/// Whether an instance in `status` may be restarted again: only dead or
/// critical instances are, and only while both the lifetime restart count
/// and the restarts attempted within the last `window_secs` are below
/// `max_restarts`.
pub open spec fn restart_allowed(log: CrashLog, status: HealthStatus, max_restarts: u32, window_secs: u64, now: u64) -> bool {
    &&& (status is Dead || status is Critical)
    &&& log.restart_count < max_restarts
    &&& restarts_since(log.recent_crashes@, sat_sub(now as int, window_secs as int)) < max_restarts
}

/// Only an instance that is down is restarted, and only within its budget:
/// a restart is never allowed for a healthy, degraded or unknown instance,
/// whatever its crash log, nor once the lifetime restart count has reached
/// the budget, nor once as many restarts were attempted within the window; a dead
/// or critical instance within both budgets is restarted; and a dead
/// instance is treated exactly like a critical one.
pub proof fn lemma_restart_only_when_down(log: CrashLog, status: HealthStatus, max_restarts: u32, window_secs: u64, now: u64)
    ensures
        restart_allowed(log, status, max_restarts, window_secs, now) ==> (status is Dead || status is Critical),
        (status is Healthy || status is Degraded || status is Unknown) ==> !restart_allowed(log, status, max_restarts, window_secs, now),
        log.restart_count >= max_restarts ==> !restart_allowed(log, status, max_restarts, window_secs, now),
        restart_allowed(log, HealthStatus::Dead, max_restarts, window_secs, now)
            == restart_allowed(log, HealthStatus::Critical, max_restarts, window_secs, now),
        log.recent_crashes@.filter(|c: CrashRecord| c.timestamp >= sat_sub(now as int, window_secs as int) && c.restart_attempted).len()
            >= max_restarts ==> !restart_allowed(log, status, max_restarts, window_secs, now),
        (status is Dead || status is Critical) && log.restart_count < max_restarts
            && log.recent_crashes@.filter(|c: CrashRecord| c.timestamp >= sat_sub(now as int, window_secs as int) && c.restart_attempted).len()
                < max_restarts
            ==> restart_allowed(log, status, max_restarts, window_secs, now),
{
}

impl CrashLog {
    /// The log of an instance that never crashed.
    pub fn new() -> (log: CrashLog)
        ensures
            log.crash_count == 0,
            log.recent_crashes@.len() == 0,
            log.restart_count == 0,
            log.last_crash_ts is None,
            log.crash_pattern is None,
    {
        CrashLog { crash_count: 0, recent_crashes: Vec::new(), restart_count: 0, last_crash_ts: None, crash_pattern: None }
    }

    /// Records a crash at `now` of an instance created at `created_at`.
    pub fn record_crash(&mut self, now: u64, exit_code: Option<i32>, signal: Option<String>, was_oom: bool, created_at: u64)
        requires
            old(self).crash_count < u32::MAX,
            pattern_computable(crashes_after(old(self).recent_crashes@,
                CrashRecord { timestamp: now, exit_code, signal, was_oom, restart_attempted: false }, now), created_at),
        ensures
            ({
                let c = CrashRecord { timestamp: now, exit_code, signal, was_oom, restart_attempted: false };
                let cs = crashes_after(old(self).recent_crashes@, c, now);
                &&& final(self).crash_count == old(self).crash_count + 1
                &&& final(self).last_crash_ts == Some(now)
                &&& final(self).recent_crashes@ == cs
                &&& final(self).restart_count == old(self).restart_count
                &&& match crash_pattern_of(cs, created_at) {
                    None => final(self).crash_pattern is None,
                    Some(p) => final(self).crash_pattern matches Some(s) && s@ == p,
                }
            }),
    {
        self.crash_count = self.crash_count + 1;
        self.last_crash_ts = Some(now);
        let mut cs: Vec<CrashRecord> = Vec::new();
        std::mem::swap(&mut cs, &mut self.recent_crashes);
        cs.push(CrashRecord { timestamp: now, exit_code, signal, was_oom, restart_attempted: false });
        let cutoff = if now >= SLIDING_WINDOW_SECS { now - SLIDING_WINDOW_SECS } else { 0 };
        let kept = keep_since(cs, cutoff);
        self.crash_pattern = detect_crash_pattern(&kept, created_at);
        self.recent_crashes = kept;
    }

    /// Records a restart: counted, and marked on the latest crash.
    pub fn record_restart(&mut self)
        requires
            old(self).restart_count < u32::MAX,
        ensures
            final(self).restart_count == old(self).restart_count + 1,
            final(self).crash_count == old(self).crash_count,
            final(self).last_crash_ts == old(self).last_crash_ts,
            final(self).crash_pattern == old(self).crash_pattern,
            final(self).recent_crashes@.len() == old(self).recent_crashes@.len(),
            old(self).recent_crashes@.len() > 0 ==> {
                let n = old(self).recent_crashes@.len() - 1;
                let c = old(self).recent_crashes@[n];
                final(self).recent_crashes@ == old(self).recent_crashes@.update(n,
                    CrashRecord { restart_attempted: true, ..c })
            },
    {
        self.restart_count = self.restart_count + 1;
        let n = self.recent_crashes.len();
        if n > 0 {
            let mut last = self.recent_crashes.remove(n - 1);
            last.restart_attempted = true;
            self.recent_crashes.push(last);
            proof {
                assert(final(self).recent_crashes@ =~= old(self).recent_crashes@.update(n - 1,
                    CrashRecord { restart_attempted: true, ..old(self).recent_crashes@[n - 1] }));
            }
        }
    }

    /// Whether an instance in `status` should be restarted automatically at
    /// `now`, within a budget of `max_restarts` per `window_secs`.
    pub fn should_restart(&self, status: &HealthStatus, max_restarts: u32, window_secs: u64, now: u64) -> (b: bool)
        ensures
            b == restart_allowed(*self, *status, max_restarts, window_secs, now),
            b ==> (*status is Dead || *status is Critical),
            b ==> self.restart_count < max_restarts,
    {
        proof {
            lemma_restart_only_when_down(*self, *status, max_restarts, window_secs, now);
        }
        match status {
            HealthStatus::Dead | HealthStatus::Critical => {},
            _ => {
                return false;
            },
        }
        if self.restart_count >= max_restarts {
            return false;
        }
        let cutoff = if now >= window_secs { now - window_secs } else { 0 };
        let cs = &self.recent_crashes;
        let ghost pred = |c: CrashRecord| c.timestamp >= cutoff as int && c.restart_attempted;
        let mut r: usize = 0;
        let mut i: usize = 0;
        proof {
            reveal(Seq::filter);
            assert(cs@.take(0) =~= Seq::<CrashRecord>::empty());
        }
        while i < cs.len()
            invariant
                pred == (|c: CrashRecord| c.timestamp >= cutoff as int && c.restart_attempted),
                i <= cs.len(),
                r <= i,
                r as int == cs@.take(i as int).filter(pred).len(),
            decreases cs.len() - i,
        {
            proof {
                assert(cs@.take(i + 1) =~= cs@.take(i as int).push(cs@[i as int]));
                cs@.take(i as int).lemma_filter_push(cs@[i as int], pred);
            }
            if cs[i].timestamp >= cutoff && cs[i].restart_attempted {
                r += 1;
            }
            i += 1;
        }
        proof {
            assert(cs@.take(cs.len() as int) =~= cs@);
        }
        (r as u64) < (max_restarts as u64)
    }
}

/// Instance counts of a fleet by status.
pub struct FleetCounts {
    pub total_instances: usize,
    pub healthy: usize,
    pub degraded: usize,
    pub critical: usize,
    pub dead: usize,
    pub instances_needing_restart: usize,
}

pub open spec fn true_count(bs: Seq<bool>) -> int {
    bs.filter(|b: bool| b).len() as int
}

/// Tallies the statuses of a fleet, and how many of its instances need a
/// restart.
pub fn fleet_counts(statuses: &Vec<HealthStatus>, needs_restart: &Vec<bool>) -> (c: FleetCounts)
    ensures
        c.total_instances == statuses@.len(),
        c.healthy == statuses@.filter(|x: HealthStatus| x == HealthStatus::Healthy).len(),
        c.degraded == statuses@.filter(|x: HealthStatus| x == HealthStatus::Degraded).len(),
        c.critical == statuses@.filter(|x: HealthStatus| x == HealthStatus::Critical).len(),
        c.dead == statuses@.filter(|x: HealthStatus| x == HealthStatus::Dead).len(),
        c.instances_needing_restart == true_count(needs_restart@),
{
    let ss = statuses;
    let ghost ph = |x: HealthStatus| x == HealthStatus::Healthy;
    let ghost pd = |x: HealthStatus| x == HealthStatus::Degraded;
    let ghost pc = |x: HealthStatus| x == HealthStatus::Critical;
    let ghost px = |x: HealthStatus| x == HealthStatus::Dead;
    let mut h: usize = 0;
    let mut d: usize = 0;
    let mut cr: usize = 0;
    let mut de: usize = 0;
    let mut i: usize = 0;
    proof {
        reveal(Seq::filter);
        assert(ss@.take(0) =~= Seq::<HealthStatus>::empty());
    }
    while i < ss.len()
        invariant
            ph == (|x: HealthStatus| x == HealthStatus::Healthy),
            pd == (|x: HealthStatus| x == HealthStatus::Degraded),
            pc == (|x: HealthStatus| x == HealthStatus::Critical),
            px == (|x: HealthStatus| x == HealthStatus::Dead),
            i <= ss.len(),
            h <= i && d <= i && cr <= i && de <= i,
            h as int == ss@.take(i as int).filter(ph).len(),
            d as int == ss@.take(i as int).filter(pd).len(),
            cr as int == ss@.take(i as int).filter(pc).len(),
            de as int == ss@.take(i as int).filter(px).len(),
        decreases ss.len() - i,
    {
        proof {
            let t = ss@.take(i as int);
            assert(ss@.take(i + 1) =~= t.push(ss@[i as int]));
            t.lemma_filter_push(ss@[i as int], ph);
            t.lemma_filter_push(ss@[i as int], pd);
            t.lemma_filter_push(ss@[i as int], pc);
            t.lemma_filter_push(ss@[i as int], px);
        }
        match ss[i] {
            HealthStatus::Healthy => { h += 1; },
            HealthStatus::Degraded => { d += 1; },
            HealthStatus::Critical => { cr += 1; },
            HealthStatus::Dead => { de += 1; },
            HealthStatus::Unknown => {},
        }
        i += 1;
    }
    proof {
        assert(ss@.take(ss.len() as int) =~= ss@);
    }
    let ghost pt = |b: bool| b;
    let mut nr: usize = 0;
    let mut j: usize = 0;
    proof {
        assert(needs_restart@.take(0) =~= Seq::<bool>::empty());
    }
    while j < needs_restart.len()
        invariant
            pt == (|b: bool| b),
            j <= needs_restart.len(),
            nr <= j,
            nr as int == needs_restart@.take(j as int).filter(pt).len(),
        decreases needs_restart.len() - j,
    {
        proof {
            assert(needs_restart@.take(j + 1) =~= needs_restart@.take(j as int).push(needs_restart@[j as int]));
            needs_restart@.take(j as int).lemma_filter_push(needs_restart@[j as int], pt);
        }
        if needs_restart[j] {
            nr += 1;
        }
        j += 1;
    }
    proof {
        assert(needs_restart@.take(needs_restart.len() as int) =~= needs_restart@);
    }
    FleetCounts { total_instances: ss.len(), healthy: h, degraded: d, critical: cr, dead: de, instances_needing_restart: nr }
}

/// Whether the arithmetic of the periodicity test stays within its machine
/// types for these crashes.
fn gaps_check(cs: &Vec<CrashRecord>) -> (b: bool)
    requires
        cs@.len() >= 3,
    ensures
        b == gaps_in_range(cs@),
{
    let ghost g = crash_gaps(cs@);
    let n = cs.len() - 1;
    let mut sum: u128 = 0;
    let mut k: usize = 0;
    proof {
        assert forall|q: int| 0 <= q < g.len() implies #[trigger] g[q] >= 0 by {}
    }
    while k < n
        invariant
            g == crash_gaps(cs@),
            n == cs@.len() - 1,
            g.len() == n,
            k <= n,
            forall|q: int| 0 <= q < g.len() ==> #[trigger] g[q] >= 0,
            sum as int == int_sum(g.take(k as int)),
            sum <= u64::MAX,
        decreases n - k,
    {
        let a = cs[k].timestamp;
        let b = cs[k + 1].timestamp;
        let gap = if b >= a { b - a } else { 0 };
        proof {
            assert(gap as int == g[k as int]);
            assert(g.take(k + 1) =~= g.take(k as int).push(g[k as int]));
            lemma_int_sum_push(g.take(k as int), g[k as int]);
            lemma_int_sum_prefix(g, k + 1);
        }
        sum = sum + gap as u128;
        k += 1;
        if sum > u64::MAX as u128 {
            return false;
        }
    }
    proof {
        assert(g.take(n as int) =~= g);
    }
    let m: u128 = sum / (n as u128);
    let third = m / 3;
    proof {
        assert(m <= sum) by (nonlinear_arith)
            requires
                m == sum / (n as u128),
                n >= 2;
        assert((third as int) * (third as int) <= (u64::MAX as int) * (u64::MAX as int)) by (nonlinear_arith)
            requires
                third <= u64::MAX;
    }
    if m > 0 && third * third > u64::MAX as u128 {
        return false;
    }
    let mut sq: u128 = 0;
    k = 0;
    while k < n
        invariant
            g == crash_gaps(cs@),
            n == cs@.len() - 1,
            g.len() == n,
            k <= n,
            m as int == gap_mean(cs@),
            m <= u64::MAX,
            int_sum(g) <= u64::MAX,
            forall|q: int| 0 <= q < k ==> #[trigger] g[q] <= i64::MAX && (g[q] - m) * (g[q] - m) <= i64::MAX,
            sq as int == sq_dev_sum(g.take(k as int), m as int),
            sq <= u64::MAX,
        decreases n - k,
    {
        let a = cs[k].timestamp;
        let b = cs[k + 1].timestamp;
        let gap = if b >= a { b - a } else { 0 };
        proof {
            assert(gap as int == g[k as int]);
            assert(g.take(k + 1) =~= g.take(k as int).push(g[k as int]));
            lemma_sq_dev_sum_push(g.take(k as int), m as int, g[k as int]);
            lemma_sq_dev_sum_prefix(g, m as int, k + 1);
        }
        if gap > i64::MAX as u64 {
            return false;
        }
        let d: u128 = if gap as u128 >= m { gap as u128 - m } else { m - gap as u128 };
        proof {
            assert((g[k as int] - m) * (g[k as int] - m) == (d as int) * (d as int)) by (nonlinear_arith)
                requires
                    d == g[k as int] - m || d == m - g[k as int];
        }
        if d > 3037000499 {
            proof {
                assert((d as int) * (d as int) > i64::MAX) by (nonlinear_arith)
                    requires
                        d > 3037000499;
            }
            return false;
        }
        proof {
            assert((d as int) * (d as int) <= 3037000499 * 3037000499) by (nonlinear_arith)
                requires
                    d <= 3037000499;
        }
        let dd = d * d;
        if dd > i64::MAX as u128 {
            return false;
        }
        sq = sq + dd;
        k += 1;
        if sq > u64::MAX as u128 {
            return false;
        }
    }
    proof {
        assert(g.take(n as int) =~= g);
    }
    true
}

/// Whether the pattern of the crashes `cs` of an instance created at
/// `created_at` can be computed.
pub fn pattern_checkable(cs: &Vec<CrashRecord>, created_at: u64) -> (b: bool)
    ensures
        b == pattern_computable(cs@, created_at),
{
    if cs.len() >= 3 && count_oom(cs) < 2 && count_startup(cs, created_at) < 2 {
        gaps_check(cs)
    } else {
        true
    }
}

/// `a` and `b` list crashes at the same times with the same OOM flags.
pub open spec fn same_shape(a: Seq<CrashRecord>, b: Seq<CrashRecord>) -> bool {
    &&& a.len() == b.len()
    &&& forall|k: int| 0 <= k < a.len() ==> (#[trigger] a[k]).timestamp == b[k].timestamp && a[k].was_oom == b[k].was_oom
}

proof fn lemma_shape_since(a: Seq<CrashRecord>, b: Seq<CrashRecord>, cut: int)
    requires
        same_shape(a, b),
    ensures
        same_shape(crashes_since(a, cut), crashes_since(b, cut)),
    decreases a.len(),
{
    if a.len() > 0 {
        let p = |c: CrashRecord| c.timestamp >= cut;
        lemma_shape_since(a.drop_last(), b.drop_last(), cut);
        assert(a =~= a.drop_last().push(a.last()));
        assert(b =~= b.drop_last().push(b.last()));
        a.drop_last().lemma_filter_push(a.last(), p);
        b.drop_last().lemma_filter_push(b.last(), p);
        let fa = a.drop_last().filter(p);
        let fb = b.drop_last().filter(p);
        if p(a.last()) {
            assert forall|k: int| 0 <= k < fa.len() + 1 implies (#[trigger] fa.push(a.last())[k]).timestamp == fb.push(b.last())[k].timestamp
                && fa.push(a.last())[k].was_oom == fb.push(b.last())[k].was_oom by {
                if k < fa.len() {
                    assert(fa.push(a.last())[k] == fa[k]);
                    assert(fb.push(b.last())[k] == fb[k]);
                }
            }
        }
    } else {
        assert(crashes_since(a, cut) =~= Seq::<CrashRecord>::empty()) by {
            reveal(Seq::filter);
        }
        assert(crashes_since(b, cut) =~= Seq::<CrashRecord>::empty()) by {
            reveal(Seq::filter);
        }
    }
}

proof fn lemma_shape_counts(a: Seq<CrashRecord>, b: Seq<CrashRecord>, created_at: u64)
    requires
        same_shape(a, b),
    ensures
        oom_count(a) == oom_count(b),
        startup_count(a, created_at) == startup_count(b, created_at),
    decreases a.len(),
{
    let po = |c: CrashRecord| c.was_oom;
    let ps = |c: CrashRecord| sat_sub(c.timestamp as int, created_at as int) < 30;
    if a.len() > 0 {
        lemma_shape_counts(a.drop_last(), b.drop_last(), created_at);
        assert(a =~= a.drop_last().push(a.last()));
        assert(b =~= b.drop_last().push(b.last()));
        a.drop_last().lemma_filter_push(a.last(), po);
        b.drop_last().lemma_filter_push(b.last(), po);
        a.drop_last().lemma_filter_push(a.last(), ps);
        b.drop_last().lemma_filter_push(b.last(), ps);
    } else {
        reveal(Seq::filter);
        assert(a.filter(po) =~= Seq::<CrashRecord>::empty());
        assert(b.filter(po) =~= Seq::<CrashRecord>::empty());
        assert(a.filter(ps) =~= Seq::<CrashRecord>::empty());
        assert(b.filter(ps) =~= Seq::<CrashRecord>::empty());
    }
}

proof fn lemma_shape_pattern(a: Seq<CrashRecord>, b: Seq<CrashRecord>, created_at: u64)
    requires
        same_shape(a, b),
    ensures
        pattern_computable(a, created_at) == pattern_computable(b, created_at),
{
    lemma_shape_counts(a, b, created_at);
    if a.len() >= 3 {
        assert(crash_gaps(a) =~= crash_gaps(b));
    }
}

impl CrashLog {
    /// Whether a crash at `now` with these details can be recorded: the
    /// crash counter has room, and the pattern of the crashes that stay in
    /// the window can be computed.
    pub fn can_record_crash(&self, now: u64, exit_code: Option<i32>, signal: &Option<String>, was_oom: bool, created_at: u64) -> (b: bool)
        ensures
            b == (self.crash_count < u32::MAX && pattern_computable(crashes_after(self.recent_crashes@,
                CrashRecord { timestamp: now, exit_code, signal: *signal, was_oom, restart_attempted: false }, now), created_at)),
    {
        if self.crash_count == u32::MAX {
            return false;
        }
        let ghost orig = self.recent_crashes@;
        let mut cs: Vec<CrashRecord> = Vec::new();
        let mut i: usize = 0;
        while i < self.recent_crashes.len()
            invariant
                orig == self.recent_crashes@,
                i <= self.recent_crashes.len(),
                same_shape(cs@, orig.take(i as int)),
            decreases self.recent_crashes.len() - i,
        {
            let c = &self.recent_crashes[i];
            cs.push(CrashRecord { timestamp: c.timestamp, exit_code: c.exit_code, signal: None, was_oom: c.was_oom,
                restart_attempted: c.restart_attempted });
            proof {
                assert forall|k: int| 0 <= k < i + 1 implies (#[trigger] cs@[k]).timestamp == orig.take(i + 1)[k].timestamp
                    && cs@[k].was_oom == orig.take(i + 1)[k].was_oom by {
                    if k < i {
                        assert(orig.take(i + 1)[k] == orig.take(i as int)[k]);
                    }
                }
            }
            i += 1;
        }
        cs.push(CrashRecord { timestamp: now, exit_code, signal: None, was_oom, restart_attempted: false });
        let ghost full = orig.push(CrashRecord { timestamp: now, exit_code, signal: *signal, was_oom, restart_attempted: false });
        proof {
            assert(orig.take(orig.len() as int) =~= orig);
            assert forall|k: int| 0 <= k < cs@.len() implies (#[trigger] cs@[k]).timestamp == full[k].timestamp
                && cs@[k].was_oom == full[k].was_oom by {
                if k < orig.len() {
                    assert(full[k] == orig[k]);
                }
            }
        }
        let cutoff = if now >= SLIDING_WINDOW_SECS { now - SLIDING_WINDOW_SECS } else { 0 };
        let ghost shaped = cs@;
        let kept = keep_since(cs, cutoff);
        proof {
            lemma_shape_since(shaped, full, cutoff as int);
            lemma_shape_pattern(kept@, crashes_after(orig,
                CrashRecord { timestamp: now, exit_code, signal: *signal, was_oom, restart_attempted: false }, now), created_at);
        }
        pattern_checkable(&kept, created_at)
    }
}

} // verus!
