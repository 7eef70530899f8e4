//! Agent tracing: spans and the summary of a finished trace.

use vstd::prelude::*;
use vstd::string::*;
use std::collections::HashMap;
use crate::text::{str_eq, join, join_path, sanitize_id, sanitized};

verus! {

/// State of a span.
pub enum SpanStatus {
    Running,
    Success,
    Error,
    Timeout,
    Cancelled,
}

/// Token accounting of a span that called an LLM.
pub struct TokenUsage {
    pub model: String,
    pub input_tokens: u64,
    pub output_tokens: u64,
    /// Cost in US dollars, as the bits of an IEEE 754 double.
    pub cost_usd_bits: u64,
    pub provider: String,
}

/// An instant within a span.
pub struct SpanEvent {
    pub timestamp: u64,
    pub name: String,
    pub attributes: HashMap<String, String>,
}

/// One unit of work within a trace.
pub struct TraceSpan {
    pub span_id: String,
    pub trace_id: String,
    /// `None` for the root span.
    pub parent_span_id: Option<String>,
    pub tenant_id: String,
    pub agent_id: String,
    /// E.g. `"tool_call"`, `"llm_inference"`, `"agent_step"`.
    pub name: String,
    pub attributes: HashMap<String, String>,
    pub events: Vec<SpanEvent>,
    pub token_usage: Option<TokenUsage>,
    pub status: SpanStatus,
    pub error: Option<String>,
    /// Milliseconds since the Unix epoch.
    pub start_ts_ms: u64,
    pub end_ts_ms: Option<u64>,
    pub duration_ms: Option<u64>,
}

/// The summary of a trace, but for its cost.
pub struct TraceTotals {
    pub root_span: String,
    pub span_count: usize,
    pub total_tokens: u64,
    pub duration_ms: Option<u64>,
    pub status: SpanStatus,
    pub start_ts_ms: u64,
}

/// Index of the first root span, or -1.
pub open spec fn first_root(spans: Seq<TraceSpan>, i: int) -> int
    decreases spans.len() - i,
{
    if i < 0 || i >= spans.len() {
        -1
    } else if spans[i].parent_span_id is None {
        i
    } else {
        first_root(spans, i + 1)
    }
}

/// The tokens (input and output) of the spans.
pub open spec fn token_total(spans: Seq<TraceSpan>) -> int
    decreases spans.len(),
{
    if spans.len() == 0 {
        0
    } else {
        token_total(spans.drop_last()) + match spans.last().token_usage {
            Some(t) => t.input_tokens + t.output_tokens,
            None => 0int,
        }
    }
}

/// The latest end time among the spans, if any has one.
pub open spec fn latest_end(spans: Seq<TraceSpan>) -> Option<u64>
    decreases spans.len(),
{
    if spans.len() == 0 {
        None
    } else {
        let m = latest_end(spans.drop_last());
        match spans.last().end_ts_ms {
            None => m,
            Some(e) => match m {
                None => Some(e),
                Some(x) => if x >= e { Some(x) } else { Some(e) },
            },
        }
    }
}

proof fn lemma_token_total_nonneg(spans: Seq<TraceSpan>)
    ensures
        token_total(spans) >= 0,
    decreases spans.len(),
{
    if spans.len() > 0 {
        lemma_token_total_nonneg(spans.drop_last());
    }
}

proof fn lemma_token_total_mono(spans: Seq<TraceSpan>, k: int)
    requires
        0 <= k <= spans.len(),
    ensures
        0 <= token_total(spans.take(k)) <= token_total(spans),
    decreases spans.len() - k,
{
    lemma_token_total_nonneg(spans.take(k));
    if k < spans.len() {
        lemma_token_total_mono(spans, k + 1);
        assert(spans.take(k + 1).drop_last() =~= spans.take(k));
    } else {
        assert(spans.take(k) =~= spans);
    }
}

fn find_root(spans: &Vec<TraceSpan>) -> (r: Option<usize>)
    ensures
        match r {
            Some(i) => i as int == first_root(spans@, 0) && i < spans@.len(),
            None => first_root(spans@, 0) == -1,
        },
{
    let mut i: usize = 0;
    while i < spans.len()
        invariant
            i <= spans.len(),
            first_root(spans@, 0) == first_root(spans@, i as int),
        decreases spans.len() - i,
    {
        if spans[i].parent_span_id.is_none() {
            return Some(i);
        }
        i += 1;
    }
    None
}

/// The totals of the spans of a finished trace: its root (the first span
/// without a parent, named `"unknown"` and started `now_ms` when there is
/// none), the span and token counts, the time from the root's start to the
/// latest end, and `Error` when any span failed, else `Success`.
pub fn summarize_trace(spans: &Vec<TraceSpan>, now_ms: u64) -> (t: TraceTotals)
    requires
        token_total(spans@) <= u64::MAX,
    ensures
        ({
            let r = first_root(spans@, 0);
            let start = if r >= 0 { spans@[r].start_ts_ms } else { now_ms };
            &&& t.root_span@ == if r >= 0 { spans@[r].name@ } else { "unknown"@ }
            &&& t.start_ts_ms == start
            &&& t.span_count == spans@.len()
            &&& t.total_tokens == token_total(spans@)
            &&& t.duration_ms == match latest_end(spans@) {
                Some(e) => Some(if e >= start { (e - start) as u64 } else { 0u64 }),
                None => None::<u64>,
            }
            &&& t.status == if exists|k: int| 0 <= k < spans@.len() && #[trigger] spans@[k].status is Error {
                SpanStatus::Error
            } else {
                SpanStatus::Success
            }
        }),
{
    let root = find_root(spans);
    let (root_span, start) = match root {
        Some(r) => (spans[r].name.clone(), spans[r].start_ts_ms),
        None => (String::from_str("unknown"), now_ms),
    };
    let mut total: u64 = 0;
    let mut latest: Option<u64> = None;
    let mut failed = false;
    let mut k: usize = 0;
    while k < spans.len()
        invariant
            k <= spans.len(),
            token_total(spans@) <= u64::MAX,
            total == token_total(spans@.take(k as int)),
            latest == latest_end(spans@.take(k as int)),
            failed == exists|q: int| 0 <= q < k && #[trigger] spans@[q].status is Error,
        decreases spans.len() - k,
    {
        proof {
            assert(spans@.take(k + 1).drop_last() =~= spans@.take(k as int));
            assert(spans@.take(k + 1).last() == spans@[k as int]);
            lemma_token_total_mono(spans@, k + 1);
        }
        if let Some(u) = &spans[k].token_usage {
            total = total + u.input_tokens + u.output_tokens;
        }
        if let Some(e) = spans[k].end_ts_ms {
            latest = match latest {
                None => Some(e),
                Some(x) => if x >= e { Some(x) } else { Some(e) },
            };
        }
        if let SpanStatus::Error = spans[k].status {
            failed = true;
        }
        k += 1;
    }
    proof {
        assert(spans@.take(spans.len() as int) =~= spans@);
    }
    let duration_ms = match latest {
        Some(e) => Some(if e >= start { e - start } else { 0 }),
        None => None,
    };
    TraceTotals {
        root_span,
        span_count: spans.len(),
        total_tokens: total,
        duration_ms,
        status: if failed { SpanStatus::Error } else { SpanStatus::Success },
        start_ts_ms: start,
    }
}

proof fn lemma_token_total_prefix(spans: Seq<TraceSpan>, k: int)
    requires
        0 <= k <= spans.len(),
    ensures
        0 <= token_total(spans.take(k)) <= token_total(spans),
    decreases spans.len() - k,
{
    if k < spans.len() {
        lemma_token_total_prefix(spans, k + 1);
        assert(spans.take(k + 1).drop_last() =~= spans.take(k));
    } else {
        assert(spans.take(k) =~= spans);
    }
    lemma_token_total_nonneg(spans.take(k));
}


/// Whether the tokens of the spans sum within 64 bits, as
/// `summarize_trace` needs.
pub fn tokens_fit(spans: &Vec<TraceSpan>) -> (b: bool)
    ensures
        b == (token_total(spans@) <= u64::MAX),
{
    let mut total: u128 = 0;
    let mut k: usize = 0;
    while k < spans.len()
        invariant
            k <= spans.len(),
            total as int == token_total(spans@.take(k as int)),
            total <= u64::MAX,
        decreases spans.len() - k,
    {
        proof {
            assert(spans@.take(k + 1).drop_last() =~= spans@.take(k as int));
            lemma_token_total_prefix(spans@, k + 1);
        }
        match &spans[k].token_usage {
            Some(t) => {
                total = total + t.input_tokens as u128 + t.output_tokens as u128;
            },
            None => {},
        }
        k += 1;
        if total > u64::MAX as u128 {
            return false;
        }
    }
    proof {
        assert(spans@.take(spans.len() as int) =~= spans@);
    }
    true
}

// ── Trace files ──────────────────────────────────────────────────────────────

/// The directory of the traces of an agent of a tenant.
pub fn trace_dir(base_dir: &str, tenant_id: &str, agent_id: &str) -> (r: String)
    ensures
        r@ == join_path(join_path(join_path(base_dir@, "traces"@), sanitized(tenant_id@)), sanitized(agent_id@)),
{
    let t = join(base_dir, "traces");
    let tn = sanitize_id(tenant_id);
    let a = join(t.as_str(), tn.as_str());
    let ag = sanitize_id(agent_id);
    join(a.as_str(), ag.as_str())
}

/// The file of the spans of one trace.
pub fn trace_file(base_dir: &str, tenant_id: &str, agent_id: &str, trace_id: &str) -> (r: String)
    ensures
        r@ == join_path(join_path(join_path(join_path(base_dir@, "traces"@), sanitized(tenant_id@)), sanitized(agent_id@)),
            sanitized(trace_id@) + ".jsonl"@),
{
    let d = trace_dir(base_dir, tenant_id, agent_id);
    let mut f = sanitize_id(trace_id);
    f.append(".jsonl");
    join(d.as_str(), f.as_str())
}

/// The index of the finished traces of an agent.
pub fn index_file(base_dir: &str, tenant_id: &str, agent_id: &str) -> (r: String)
    ensures
        r@ == join_path(join_path(join_path(join_path(base_dir@, "traces"@), sanitized(tenant_id@)), sanitized(agent_id@)),
            "_index.jsonl"@),
{
    let d = trace_dir(base_dir, tenant_id, agent_id);
    join(d.as_str(), "_index.jsonl")
}

// ── Loading a trace ──────────────────────────────────────────────────────────

/// The spans of a trace file read in order, the last record of each span
/// replacing its earlier ones (a span is appended again when it changes).
pub open spec fn last_records(s: Seq<TraceSpan>) -> Seq<TraceSpan>
    decreases s.len(),
{
    if s.len() == 0 {
        Seq::empty()
    } else {
        let x = s.last();
        last_records(s.drop_last()).filter(|e: TraceSpan| e.span_id@ != x.span_id@).push(x)
    }
}

/// The spans are in order of their start.
pub open spec fn by_start(s: Seq<TraceSpan>) -> bool {
    forall|a: int, b: int| 0 <= a < b < s.len() ==> (#[trigger] s[a]).start_ts_ms <= (#[trigger] s[b]).start_ts_ms
}

fn drop_span(d: Vec<TraceSpan>, id: &str) -> (r: Vec<TraceSpan>)
    ensures
        r@ == d@.filter(|e: TraceSpan| e.span_id@ != id@),
{
    let ghost all = d@;
    let ghost pred = |e: TraceSpan| e.span_id@ != id@;
    let mut out: Vec<TraceSpan> = Vec::new();
    proof {
        reveal(Seq::filter);
        assert(all.take(0) =~= Seq::<TraceSpan>::empty());
    }
    for e in it: d.into_iter()
        invariant
            it.seq() == all,
            pred == (|e: TraceSpan| e.span_id@ != id@),
            out@ == all.take(it.index() as int).filter(pred),
    {
        let ghost k = it.index() as int;
        proof {
            assert(e == all[k]);
            assert(all.take(k + 1) =~= all.take(k).push(e));
            all.take(k).lemma_filter_push(e, pred);
        }
        if !str_eq(e.span_id.as_str(), id) {
            out.push(e);
        }
    }
    proof {
        assert(all.take(all.len() as int) =~= all);
    }
    out
}

/// Where a stable insertion puts `x` into spans ordered by start: after every
/// span from `p` on that starts no later than `x`.
pub open spec fn ins_pos(r: Seq<TraceSpan>, x: TraceSpan, p: int) -> int
    decreases r.len() - p,
{
    if p < 0 || p >= r.len() || r[p].start_ts_ms > x.start_ts_ms { p } else { ins_pos(r, x, p + 1) }
}

/// `s` sorted by start, stably: spans that start at the same time keep
/// their order in `s`.
pub open spec fn stable_by_start(s: Seq<TraceSpan>) -> Seq<TraceSpan>
    decreases s.len(),
{
    if s.len() == 0 {
        Seq::empty()
    } else {
        let r = stable_by_start(s.drop_last());
        r.insert(ins_pos(r, s.last(), 0), s.last())
    }
}

/// The spans of a trace from the records of its file, in order of their
/// start: the last record of each span wins, and spans that start at the
/// same time keep the order of their last records.
pub fn latest_spans(records: Vec<TraceSpan>) -> (r: Vec<TraceSpan>)
    ensures
        r@ == stable_by_start(last_records(records@)),
        by_start(r@),
        r@.to_multiset() == last_records(records@).to_multiset(),
{
    let ghost all = records@;
    let mut d: Vec<TraceSpan> = Vec::new();
    proof {
        assert(all.take(0) =~= Seq::<TraceSpan>::empty());
    }
    for x in it: records.into_iter()
        invariant
            it.seq() == all,
            d@ == last_records(all.take(it.index() as int)),
    {
        let ghost k = it.index() as int;
        proof {
            assert(x == all[k]);
            assert(all.take(k + 1).drop_last() =~= all.take(k));
            assert(all.take(k + 1).last() == x);
        }
        let id = x.span_id.clone();
        d = drop_span(d, id.as_str());
        d.push(x);
    }
    proof {
        assert(all.take(all.len() as int) =~= all);
    }
    let ghost dv = d@;
    let mut r: Vec<TraceSpan> = Vec::new();
    proof {
        assert(dv.take(0) =~= Seq::<TraceSpan>::empty());
        assert(r@ =~= dv.take(0));
    }
    for x in it: d.into_iter()
        invariant
            it.seq() == dv,
            by_start(r@),
            r@.to_multiset() == dv.take(it.index() as int).to_multiset(),
            r@ == stable_by_start(dv.take(it.index() as int)),
    {
        let ghost k = it.index() as int;
        let mut p: usize = 0;
        while p < r.len() && r[p].start_ts_ms <= x.start_ts_ms
            invariant
                p <= r.len(),
                forall|q: int| 0 <= q < p ==> (#[trigger] r@[q]).start_ts_ms <= x.start_ts_ms,
                ins_pos(r@, x, 0) == ins_pos(r@, x, p as int),
            decreases r.len() - p,
        {
            p += 1;
        }
        let ghost before = r@;
        proof {
            assert(x == dv[k]);
            assert(dv.take(k + 1) =~= dv.take(k).push(x));
            assert(dv.take(k + 1).drop_last() =~= dv.take(k));
            assert(ins_pos(before, x, 0) == p);
            vstd::seq_lib::to_multiset_build(dv.take(k), x);
            vstd::seq_lib::to_multiset_insert(before, p as int, x);
            assert forall|q: int| p <= q < before.len() implies x.start_ts_ms < (#[trigger] before[q]).start_ts_ms by {
                assert(before[p as int].start_ts_ms > x.start_ts_ms);
                if q > p {
                    assert(before[p as int].start_ts_ms <= before[q].start_ts_ms);
                }
            }
        }
        r.insert(p, x);
        proof {
            assert(r@ =~= before.insert(p as int, x));
            assert forall|a: int, b: int| 0 <= a < b < r@.len() implies (#[trigger] r@[a]).start_ts_ms <= (#[trigger] r@[b]).start_ts_ms by {
                if a < p && b < p {
                    assert(r@[a] == before[a] && r@[b] == before[b]);
                } else if a < p && b == p {
                    assert(r@[a] == before[a]);
                } else if a < p {
                    assert(r@[a] == before[a] && r@[b] == before[b - 1]);
                    assert(before[a].start_ts_ms <= before[b - 1].start_ts_ms);
                } else if a == p {
                    assert(r@[b] == before[b - 1]);
                } else {
                    assert(r@[a] == before[a - 1] && r@[b] == before[b - 1]);
                }
            }
        }
    }
    proof {
        assert(dv.take(dv.len() as int) =~= dv);
        assert(dv == last_records(records@));
    }
    r
}

} // verus!
