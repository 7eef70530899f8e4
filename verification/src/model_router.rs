//! Model routing: the registry of LLM models and the choice of a model for
//! each request under tenant policy, capability, latency and cost limits.

use vstd::prelude::*;
use vstd::string::*;
use crate::text::{str_eq, list_contains, lists};
use crate::policy::ModelPolicy;

verus! {

/// A registered LLM model.
pub struct ModelRecord {
    /// E.g. `"gpt-4o"`, `"llama-3-70b"`.
    pub model_id: String,
    /// E.g. `"openai"`, `"mistral"`, `"local"`.
    pub provider: String,
    /// Endpoint replacing the provider's default.
    pub endpoint: Option<String>,
    /// US dollars per million input tokens, as the bits of an IEEE 754 double.
    pub cost_per_m_input_bits: u64,
    /// US dollars per million output tokens, as the bits of an IEEE 754 double.
    pub cost_per_m_output_bits: u64,
    /// Observed median latency, in ms.
    pub latency_p50_ms: u64,
    /// Observed 99th-percentile latency, in ms.
    pub latency_p99_ms: u64,
    /// Output tokens per second, as the bits of an IEEE 754 single.
    pub throughput_tok_s_bits: u32,
    /// E.g. `"vision"`, `"code"`, `"function_calling"`.
    pub capabilities: Vec<String>,
    /// Largest context, in tokens.
    pub context_window: u64,
    pub is_local: bool,
    pub is_available: bool,
    /// Lower is preferred when all else is equal.
    pub priority: i32,
    pub registered_at: u64,
    pub updated_at: u64,
}

/// A request for a model.
pub struct RoutingRequest {
    pub tenant_id: String,
    /// A model to prefer, when it qualifies.
    pub preferred_model: Option<String>,
    /// Largest acceptable cost of the call in US dollars, as the bits of an
    /// IEEE 754 double.
    pub max_cost_usd_bits: Option<u64>,
    pub input_tokens: Option<u64>,
    pub output_tokens: Option<u64>,
    /// Capabilities the model must have.
    pub required_capabilities: Vec<String>,
    /// Only local models qualify.
    pub require_local: bool,
    /// Largest acceptable median latency, in ms.
    pub max_latency_ms: Option<u64>,
}

/// Why no model could be chosen, or a registry change was refused.
pub enum RouterError {
    /// The registry is empty.
    NoModels,
    /// No model meets the request's constraints.
    NoMatch,
    /// No model has this id.
    NotFound(String),
}

/// The chosen model, by its position in the registry, and up to three other
/// qualifying models to fall back on.
pub struct RouteChoice {
    pub selected: usize,
    pub fallback_models: Vec<String>,
}

/// `a` and `b` describe the same model.
pub open spec fn same_model(a: ModelRecord, b: ModelRecord) -> bool {
    &&& a.model_id@ == b.model_id@
    &&& a.provider@ == b.provider@
    &&& a.endpoint == b.endpoint
    &&& a.cost_per_m_input_bits == b.cost_per_m_input_bits
    &&& a.cost_per_m_output_bits == b.cost_per_m_output_bits
    &&& a.latency_p50_ms == b.latency_p50_ms
    &&& a.latency_p99_ms == b.latency_p99_ms
    &&& a.throughput_tok_s_bits == b.throughput_tok_s_bits
    &&& a.capabilities@ == b.capabilities@
    &&& a.context_window == b.context_window
    &&& a.is_local == b.is_local
    &&& a.is_available == b.is_available
    &&& a.priority == b.priority
    &&& a.registered_at == b.registered_at
    &&& a.updated_at == b.updated_at
}

impl ModelRecord {
    /// A copy of this record.
    pub fn duplicate(&self) -> (r: ModelRecord)
        ensures
            same_model(r, *self),
    {
        ModelRecord {
            model_id: self.model_id.clone(),
            provider: self.provider.clone(),
            endpoint: match &self.endpoint {
                Some(e) => Some(e.clone()),
                None => None,
            },
            cost_per_m_input_bits: self.cost_per_m_input_bits,
            cost_per_m_output_bits: self.cost_per_m_output_bits,
            latency_p50_ms: self.latency_p50_ms,
            latency_p99_ms: self.latency_p99_ms,
            throughput_tok_s_bits: self.throughput_tok_s_bits,
            capabilities: crate::text::copy_strings(&self.capabilities),
            context_window: self.context_window,
            is_local: self.is_local,
            is_available: self.is_available,
            priority: self.priority,
            registered_at: self.registered_at,
            updated_at: self.updated_at,
        }
    }
}

/// Index of the first model at or after `i` whose id is `id`, or -1.
pub open spec fn model_pos_from(ms: Seq<ModelRecord>, id: Seq<char>, i: int) -> int
    decreases ms.len() - i,
{
    if i < 0 || i >= ms.len() {
        -1
    } else if ms[i].model_id@ == id {
        i
    } else {
        model_pos_from(ms, id, i + 1)
    }
}

pub open spec fn model_pos(ms: Seq<ModelRecord>, id: Seq<char>) -> int {
    model_pos_from(ms, id, 0)
}

proof fn lemma_model_pos_from(ms: Seq<ModelRecord>, id: Seq<char>, i: int)
    requires
        0 <= i <= ms.len(),
    ensures
        model_pos_from(ms, id, i) == -1 ==> forall|k: int| i <= k < ms.len() ==> #[trigger] ms[k].model_id@ != id,
        model_pos_from(ms, id, i) != -1 ==> i <= model_pos_from(ms, id, i) < ms.len()
            && ms[model_pos_from(ms, id, i)].model_id@ == id,
    decreases ms.len() - i,
{
    if i < ms.len() && ms[i].model_id@ != id {
        lemma_model_pos_from(ms, id, i + 1);
    }
}

/// Position of the first model whose id is `id`.
pub fn find_model(models: &Vec<ModelRecord>, id: &str) -> (r: Option<usize>)
    ensures
        r == if model_pos(models@, id@) >= 0 { Some(model_pos(models@, id@) as usize) } else { None },
{
    proof {
        lemma_model_pos_from(models@, id@, 0);
    }
    let mut i: usize = 0;
    while i < models.len()
        invariant
            i <= models.len(),
            model_pos(models@, id@) == model_pos_from(models@, id@, i as int),
        decreases models.len() - i,
    {
        if str_eq(models[i].model_id.as_str(), id) {
            return Some(i);
        }
        i += 1;
    }
    None
}

/// The model has every capability of `caps`.
pub open spec fn has_caps(m: ModelRecord, caps: Seq<String>) -> bool {
    forall|k: int| 0 <= k < caps.len() ==> lists(m.capabilities@, #[trigger] caps[k]@)
}

/// Model `m` qualifies for `req` under the model policy `mp`, `cost_ok`
/// telling whether its estimated cost is within the limit.
pub open spec fn qualifies(m: ModelRecord, req: RoutingRequest, mp: ModelPolicy, cost_ok: bool) -> bool {
    &&& m.is_available
    &&& (req.require_local || mp.require_local) ==> m.is_local
    &&& (mp.allowed_models matches Some(allowed) ==> lists(allowed@, m.model_id@))
    &&& has_caps(m, req.required_capabilities@)
    &&& cost_ok
    &&& (req.max_latency_ms matches Some(max) ==> m.latency_p50_ms <= max)
}

/// The positions of the qualifying models, in registry order.
pub open spec fn candidates(ms: Seq<ModelRecord>, req: RoutingRequest, mp: ModelPolicy, cost_ok: Seq<bool>) -> Seq<int> {
    Seq::new(ms.len(), |k: int| k).filter(|k: int| qualifies(ms[k], req, mp, cost_ok[k]))
}

/// The model to prefer: the request's, else the policy's.
pub open spec fn preferred(req: RoutingRequest, mp: ModelPolicy) -> Option<String> {
    if req.preferred_model is Some { req.preferred_model } else { mp.preferred_model }
}

/// `c` is the first entry of `cs` naming the model `id`.
pub open spec fn first_named(ms: Seq<ModelRecord>, cs: Seq<int>, id: Seq<char>, c: int) -> bool {
    exists|q: int| 0 <= q < cs.len() && cs[q] == c && ms[c].model_id@ == id
        && forall|p: int| 0 <= p < q ==> #[trigger] ms[cs[p]].model_id@ != id
}

/// `c` is the first entry of `cs` of the lowest priority.
pub open spec fn first_cheapest(ms: Seq<ModelRecord>, cs: Seq<int>, c: int) -> bool {
    exists|q: int| 0 <= q < cs.len() && cs[q] == c
        && (forall|p: int| 0 <= p < cs.len() ==> ms[c].priority <= #[trigger] ms[cs[p]].priority)
        && (forall|p: int| 0 <= p < q ==> ms[c].priority < #[trigger] ms[cs[p]].priority)
}

/// `c` is the model chosen among the candidates `cs`: the first named by the
/// preference when one is, else the first of the lowest priority.
pub open spec fn is_choice(ms: Seq<ModelRecord>, cs: Seq<int>, pref: Option<String>, c: int) -> bool {
    match pref {
        Some(p) => if exists|x: int| #[trigger] first_named(ms, cs, p@, x) {
            first_named(ms, cs, p@, c)
        } else {
            first_cheapest(ms, cs, c)
        },
        None => first_cheapest(ms, cs, c),
    }
}

/// The ids of the first three candidates, in order, that are not named like
/// the chosen model.
pub open spec fn fallbacks(ms: Seq<ModelRecord>, cs: Seq<int>, chosen: Seq<char>) -> Seq<String> {
    let others = named_apart(ms, cs, chosen);
    others.take(if others.len() < 3 { others.len() as int } else { 3 }).map_values(|k: int| ms[k].model_id)
}

/// The entries of `cs` whose model is not named `chosen`, in order.
pub open spec fn named_apart(ms: Seq<ModelRecord>, cs: Seq<int>, chosen: Seq<char>) -> Seq<int> {
    cs.filter(|k: int| ms[k].model_id@ != chosen)
}


fn has_all_caps(m: &ModelRecord, caps: &Vec<String>) -> (b: bool)
    ensures
        b == has_caps(*m, caps@),
{
    let mut k: usize = 0;
    while k < caps.len()
        invariant
            k <= caps.len(),
            forall|q: int| 0 <= q < k ==> lists(m.capabilities@, #[trigger] caps@[q]@),
        decreases caps.len() - k,
    {
        if !list_contains(&m.capabilities, caps[k].as_str()) {
            return false;
        }
        k += 1;
    }
    true
}

fn qualifies_exec(m: &ModelRecord, req: &RoutingRequest, mp: &ModelPolicy, cost_ok: bool) -> (b: bool)
    ensures
        b == qualifies(*m, *req, *mp, cost_ok),
{
    if !m.is_available {
        return false;
    }
    if (req.require_local || mp.require_local) && !m.is_local {
        return false;
    }
    if let Some(allowed) = &mp.allowed_models {
        if !list_contains(allowed, m.model_id.as_str()) {
            return false;
        }
    }
    if !has_all_caps(m, &req.required_capabilities) {
        return false;
    }
    if !cost_ok {
        return false;
    }
    if let Some(max) = req.max_latency_ms {
        if m.latency_p50_ms > max {
            return false;
        }
    }
    true
}

/// The qualifying models among the first `k`.
pub open spec fn candidates_upto(ms: Seq<ModelRecord>, req: RoutingRequest, mp: ModelPolicy, cost_ok: Seq<bool>, k: int) -> Seq<int> {
    Seq::new(k as nat, |i: int| i).filter(|i: int| qualifies(ms[i], req, mp, cost_ok[i]))
}

fn candidate_list(models: &Vec<ModelRecord>, req: &RoutingRequest, mp: &ModelPolicy, cost_ok: &Vec<bool>) -> (cs: Vec<usize>)
    requires
        cost_ok@.len() == models@.len(),
    ensures
        cs@.map_values(|k: usize| k as int) == candidates(models@, *req, *mp, cost_ok@),
        forall|q: int| 0 <= q < cs@.len() ==> #[trigger] cs@[q] < models@.len(),
{
    let ghost pred = |i: int| qualifies(models@[i], *req, *mp, cost_ok@[i]);
    let mut cs: Vec<usize> = Vec::new();
    let mut k: usize = 0;
    proof {
        reveal(Seq::filter);
        assert(Seq::new(0nat, |i: int| i) =~= Seq::<int>::empty());
    }
    while k < models.len()
        invariant
            pred == (|i: int| qualifies(models@[i], *req, *mp, cost_ok@[i])),
            cost_ok@.len() == models@.len(),
            k <= models.len(),
            cs@.map_values(|x: usize| x as int) == Seq::new(k as nat, |i: int| i).filter(pred),
            forall|q: int| 0 <= q < cs@.len() ==> #[trigger] cs@[q] < k,
        decreases models.len() - k,
    {
        proof {
            assert(Seq::new((k + 1) as nat, |i: int| i) =~= Seq::new(k as nat, |i: int| i).push(k as int));
            Seq::new(k as nat, |i: int| i).lemma_filter_push(k as int, pred);
        }
        let ghost c0 = cs@;
        if qualifies_exec(&models[k], req, mp, cost_ok[k]) {
            cs.push(k);
            proof {
                assert(cs@.map_values(|x: usize| x as int) =~= c0.map_values(|x: usize| x as int).push(k as int));
            }
        }
        k += 1;
    }
    proof {
        assert(Seq::new(models@.len(), |i: int| i) =~= Seq::new(k as nat, |i: int| i));
    }
    cs
}

/// The first candidate named `id`.
fn find_named(models: &Vec<ModelRecord>, cs: &Vec<usize>, id: &str) -> (r: Option<usize>)
    requires
        forall|q: int| 0 <= q < cs@.len() ==> #[trigger] cs@[q] < models@.len(),
    ensures
        ({
            let ci = cs@.map_values(|k: usize| k as int);
            match r {
                Some(c) => first_named(models@, ci, id@, c as int),
                None => !exists|x: int| #[trigger] first_named(models@, ci, id@, x),
            }
        }),
{
    let ghost ci = cs@.map_values(|k: usize| k as int);
    let mut q: usize = 0;
    while q < cs.len()
        invariant
            ci == cs@.map_values(|k: usize| k as int),
            q <= cs.len(),
            forall|p: int| 0 <= p < cs@.len() ==> #[trigger] cs@[p] < models@.len(),
            forall|p: int| 0 <= p < q ==> #[trigger] models@[ci[p]].model_id@ != id@,
        decreases cs.len() - q,
    {
        if str_eq(models[cs[q]].model_id.as_str(), id) {
            proof {
                assert(ci[q as int] == cs@[q as int] as int);
                assert(first_named(models@, ci, id@, cs@[q as int] as int));
            }
            return Some(cs[q]);
        }
        q += 1;
    }
    proof {
        assert forall|x: int| !#[trigger] first_named(models@, ci, id@, x) by {
            if first_named(models@, ci, id@, x) {
                let qq = choose|qq: int| 0 <= qq < ci.len() && ci[qq] == x && models@[x].model_id@ == id@
                    && forall|p: int| 0 <= p < qq ==> #[trigger] models@[ci[p]].model_id@ != id@;
                assert(models@[ci[qq]].model_id@ != id@);
            }
        }
    }
    None
}

/// The first candidate of the lowest priority.
fn find_cheapest(models: &Vec<ModelRecord>, cs: &Vec<usize>) -> (c: usize)
    requires
        cs@.len() > 0,
        forall|q: int| 0 <= q < cs@.len() ==> #[trigger] cs@[q] < models@.len(),
    ensures
        first_cheapest(models@, cs@.map_values(|k: usize| k as int), c as int),
        c < models@.len(),
{
    let ghost ci = cs@.map_values(|k: usize| k as int);
    let mut best_q: usize = 0;
    let mut q: usize = 1;
    while q < cs.len()
        invariant
            ci == cs@.map_values(|k: usize| k as int),
            cs@.len() > 0,
            best_q < q <= cs.len(),
            forall|p: int| 0 <= p < cs@.len() ==> #[trigger] cs@[p] < models@.len(),
            forall|p: int| 0 <= p < q ==> models@[ci[best_q as int]].priority <= #[trigger] models@[ci[p]].priority,
            forall|p: int| 0 <= p < best_q ==> models@[ci[best_q as int]].priority < #[trigger] models@[ci[p]].priority,
        decreases cs.len() - q,
    {
        if models[cs[q]].priority < models[cs[best_q]].priority {
            best_q = q;
        }
        q += 1;
    }
    proof {
        assert(ci[best_q as int] == cs@[best_q as int] as int);
    }
    cs[best_q]
}

/// Up to three candidates other than the chosen one.
fn fallback_list(models: &Vec<ModelRecord>, cs: &Vec<usize>, chosen: &str) -> (r: Vec<String>)
    requires
        forall|q: int| 0 <= q < cs@.len() ==> #[trigger] cs@[q] < models@.len(),
    ensures
        r@ == fallbacks(models@, cs@.map_values(|k: usize| k as int), chosen@),
{
    let ghost ci = cs@.map_values(|k: usize| k as int);
    let ghost pred = |k: int| models@[k].model_id@ != chosen@;
    let mut r: Vec<String> = Vec::new();
    let mut q: usize = 0;
    proof {
        reveal(Seq::filter);
        assert(ci.take(0) =~= Seq::<int>::empty());
    }
    while q < cs.len() && r.len() < 3
        invariant
            ci == cs@.map_values(|k: usize| k as int),
            pred == (|k: int| models@[k].model_id@ != chosen@),
            q <= cs.len(),
            r@.len() <= 3,
            forall|p: int| 0 <= p < cs@.len() ==> #[trigger] cs@[p] < models@.len(),
            r@ == ci.take(q as int).filter(pred).map_values(|k: int| models@[k].model_id),
        decreases cs.len() - q,
    {
        proof {
            assert(ci.take(q + 1) =~= ci.take(q as int).push(ci[q as int]));
            ci.take(q as int).lemma_filter_push(ci[q as int], pred);
            assert(ci[q as int] == cs@[q as int] as int);
        }
        let ghost f = ci.take(q as int).filter(pred);
        if !str_eq(models[cs[q]].model_id.as_str(), chosen) {
            r.push(models[cs[q]].model_id.clone());
            proof {
                assert(f.push(ci[q as int]).map_values(|k: int| models@[k].model_id)
                    =~= f.map_values(|k: int| models@[k].model_id).push(models@[ci[q as int]].model_id));
            }
        }
        q += 1;
    }
    proof {
        let others = ci.filter(pred);
        let t = ci.take(q as int);
        // The filtered prefix is a prefix of the filtered whole.
        lemma_filter_prefix(ci, pred, q as int);
        if q == cs.len() {
            assert(t =~= ci);
        }
        let n = if others.len() < 3 { others.len() as int } else { 3int };
        assert(t.filter(pred).len() == n || (t.filter(pred).len() == 3 && n == 3)) by {
            if q < cs.len() {
                assert(r@.len() == 3);
            }
            ci.lemma_filter_len(pred);
        }
        assert(others.take(n) =~= t.filter(pred).take(n));
        assert(t.filter(pred).take(n) =~= t.filter(pred)) by {
            if q < cs.len() {
                assert(r@.len() == 3);
            } else {
                assert(t =~= ci);
            }
        }
    }
    r
}

/// Filtering a prefix gives a prefix of the filtered sequence.
proof fn lemma_filter_prefix(s: Seq<int>, pred: spec_fn(int) -> bool, k: int)
    requires
        0 <= k <= s.len(),
    ensures
        s.take(k).filter(pred).len() <= s.filter(pred).len(),
        s.take(k).filter(pred) =~= s.filter(pred).take(s.take(k).filter(pred).len() as int),
    decreases s.len() - k,
{
    reveal(Seq::filter);
    if k < s.len() {
        lemma_filter_prefix(s, pred, k + 1);
        assert(s.take(k + 1) =~= s.take(k).push(s[k]));
        s.take(k).lemma_filter_push(s[k], pred);
    } else {
        assert(s.take(k) =~= s);
    }
}


/// Model `m` can serve `req` under the policy `mp`: it is available, local
/// when the request or the policy asks for a local model, on the policy's
/// allow list when there is one, has every required capability, is within
/// the cost limit (`cost_ok`) and answers within the latency bound.
pub open spec fn serves(m: ModelRecord, req: RoutingRequest, mp: ModelPolicy, cost_ok: bool) -> bool {
    &&& m.is_available
    &&& (req.require_local || mp.require_local) ==> m.is_local
    &&& (mp.allowed_models matches Some(a) ==> lists(a@, m.model_id@))
    &&& forall|k: int| 0 <= k < req.required_capabilities@.len()
        ==> lists(m.capabilities@, #[trigger] req.required_capabilities@[k]@)
    &&& cost_ok
    &&& (req.max_latency_ms matches Some(x) ==> m.latency_p50_ms <= x)
}

/// Some model of `ms` named `id`, not named `chosen`, can serve `req`.
pub open spec fn other_server(ms: Seq<ModelRecord>, req: RoutingRequest, mp: ModelPolicy, cost_ok: Seq<bool>,
    id: String, chosen: Seq<char>) -> bool {
    exists|j: int| 0 <= j < ms.len() && ms[j].model_id == id && ms[j].model_id@ != chosen
        && #[trigger] serves(ms[j], req, mp, cost_ok[j])
}

proof fn lemma_candidates_qualify(ms: Seq<ModelRecord>, req: RoutingRequest, mp: ModelPolicy, cost_ok: Seq<bool>)
    ensures
        forall|t: int| 0 <= t < candidates(ms, req, mp, cost_ok).len() ==> {
            let k = #[trigger] candidates(ms, req, mp, cost_ok)[t];
            &&& 0 <= k < ms.len()
            &&& qualifies(ms[k], req, mp, cost_ok[k])
        },
{
    broadcast use vstd::seq_lib::group_filter_ensures;
    let all = Seq::new(ms.len(), |k: int| k);
    let pred = |k: int| qualifies(ms[k], req, mp, cost_ok[k]);
    let cs = all.filter(pred);
    assert forall|t: int| 0 <= t < cs.len() implies 0 <= #[trigger] cs[t] < ms.len() && pred(cs[t]) by {
        assert(cs.contains(cs[t]));
        all.lemma_filter_contains_rev(pred, cs[t]);
        let i = choose|i: int| 0 <= i < all.len() && all[i] == cs[t];
    }
}

/// Whatever `route` chooses can serve the request: the selected model, and
/// every model a fallback names, is available, is local when the request or
/// the policy asks for a local model, is on the policy's allow list when
/// there is one, has every capability the request requires, is within the
/// cost limit, and answers within the request's latency bound.
pub proof fn lemma_route_serves_request(ms: Seq<ModelRecord>, mp: ModelPolicy, req: RoutingRequest, cost_ok: Seq<bool>, c: RouteChoice)
    requires
        cost_ok.len() == ms.len(),
        c.selected < ms.len(),
        is_choice(ms, candidates(ms, req, mp, cost_ok), preferred(req, mp), c.selected as int),
        c.fallback_models@ == fallbacks(ms, candidates(ms, req, mp, cost_ok), ms[c.selected as int].model_id@),
    ensures
        ms[c.selected as int].is_available,
        (req.require_local || mp.require_local) ==> ms[c.selected as int].is_local,
        mp.allowed_models matches Some(a) ==> lists(a@, ms[c.selected as int].model_id@),
        forall|k: int| 0 <= k < req.required_capabilities@.len()
            ==> lists(ms[c.selected as int].capabilities@, #[trigger] req.required_capabilities@[k]@),
        cost_ok[c.selected as int],
        req.max_latency_ms matches Some(x) ==> ms[c.selected as int].latency_p50_ms <= x,
        forall|f: int| 0 <= f < c.fallback_models@.len()
            ==> #[trigger] other_server(ms, req, mp, cost_ok, c.fallback_models@[f], ms[c.selected as int].model_id@),
{
    broadcast use vstd::seq_lib::group_filter_ensures;
    let cs = candidates(ms, req, mp, cost_ok);
    let sel = c.selected as int;
    lemma_candidates_qualify(ms, req, mp, cost_ok);
    assert(exists|q: int| 0 <= q < cs.len() && cs[q] == sel) by {
        match preferred(req, mp) {
            Some(p) => {
                if exists|x: int| #[trigger] first_named(ms, cs, p@, x) {
                    assert(first_named(ms, cs, p@, sel));
                } else {
                    assert(first_cheapest(ms, cs, sel));
                }
            },
            None => {
                assert(first_cheapest(ms, cs, sel));
            },
        }
    }
    let q = choose|q: int| 0 <= q < cs.len() && cs[q] == sel;
    assert(qualifies(ms[cs[q]], req, mp, cost_ok[cs[q]]));
    assert forall|f: int| 0 <= f < c.fallback_models@.len()
        implies #[trigger] other_server(ms, req, mp, cost_ok, c.fallback_models@[f], ms[c.selected as int].model_id@) by {
        lemma_fallback_entry(ms, cs, ms[sel].model_id@, f);
        let t = choose|t: int| 0 <= t < cs.len() && ms[cs[t]].model_id@ != ms[sel].model_id@
            && fallbacks(ms, cs, ms[sel].model_id@)[f] == ms[#[trigger] cs[t]].model_id;
        let j = cs[t];
        assert(qualifies(ms[j], req, mp, cost_ok[j]));
        assert(serves(ms[j], req, mp, cost_ok[j]));
        assert(ms[j].model_id == c.fallback_models@[f]);
    }
}

/// Each fallback names a candidate that is not named like the chosen model.
proof fn lemma_fallback_entry(ms: Seq<ModelRecord>, cs: Seq<int>, chosen: Seq<char>, f: int)
    requires
        0 <= f < fallbacks(ms, cs, chosen).len(),
    ensures
        exists|t: int| 0 <= t < cs.len() && ms[cs[t]].model_id@ != chosen
            && fallbacks(ms, cs, chosen)[f] == ms[#[trigger] cs[t]].model_id,
{
    broadcast use vstd::seq_lib::group_filter_ensures, Seq::lemma_filter_contains_rev;
    let others = named_apart(ms, cs, chosen);
    let n = if others.len() < 3 { others.len() as int } else { 3 };
    assert(f < n);
    let j = others[f];
    assert(others.take(n)[f] == j);
    assert(fallbacks(ms, cs, chosen)[f] == ms[j].model_id);
    assert(ms[j].model_id@ != chosen);
    assert(others.contains(j));
    assert(cs.contains(j));
    let t = choose|t: int| 0 <= t < cs.len() && cs[t] == j;
}

/// The model router of a node, rooted at its data directory.
pub struct ModelRouter {
    pub base_dir: String,
}

impl ModelRouter {
    pub fn new(base_dir: String) -> (r: ModelRouter)
        ensures
            r.base_dir == base_dir,
    {
        ModelRouter { base_dir }
    }

    /// Chooses a model of the registry `models` for `req` under the tenant's
    /// model policy `mp`; `cost_ok[k]` tells whether the estimated cost of
    /// the call on model `k` is within the limit (or no limit applies).
    pub fn route(&self, models: &Vec<ModelRecord>, mp: &ModelPolicy, req: &RoutingRequest, cost_ok: &Vec<bool>)
        -> (r: Result<RouteChoice, RouterError>)
        requires
            cost_ok@.len() == models@.len(),
        ensures
            ({
                let cs = candidates(models@, *req, *mp, cost_ok@);
                if models@.len() == 0 {
                    r matches Err(RouterError::NoModels)
                } else if cs.len() == 0 {
                    r matches Err(RouterError::NoMatch)
                } else {
                    r matches Ok(c) && c.selected < models@.len()
                        && is_choice(models@, cs, preferred(*req, *mp), c.selected as int)
                        && c.fallback_models@ == fallbacks(models@, cs, models@[c.selected as int].model_id@)
                }
            }),
            r matches Ok(c) ==> c.selected < models@.len()
                && serves(models@[c.selected as int], *req, *mp, cost_ok@[c.selected as int])
                && forall|f: int| 0 <= f < c.fallback_models@.len() ==> #[trigger] other_server(models@, *req, *mp,
                    cost_ok@, c.fallback_models@[f], models@[c.selected as int].model_id@),
    {
        if models.len() == 0 {
            return Err(RouterError::NoModels);
        }
        let cs = candidate_list(models, req, mp, cost_ok);
        if cs.len() == 0 {
            return Err(RouterError::NoMatch);
        }
        let pref = if req.preferred_model.is_some() { &req.preferred_model } else { &mp.preferred_model };
        let named = match pref {
            Some(p) => find_named(models, &cs, p.as_str()),
            None => None,
        };
        let selected = match named {
            Some(c) => c,
            None => find_cheapest(models, &cs),
        };
        proof {
            assert(cs@.map_values(|k: usize| k as int).len() == cs@.len());
        }
        let fallback_models = fallback_list(models, &cs, models[selected].model_id.as_str());
        let choice = RouteChoice { selected, fallback_models };
        proof {
            lemma_route_serves_request(models@, *mp, *req, cost_ok@, choice);
        }
        Ok(choice)
    }

    /// Records the outcome of a call on `model_id` at `now`: after a success
    /// its median latency becomes `smoothed_p50` (the moving average of the
    /// old median and `latency_ms`); after a failure its 99th percentile
    /// rises to `latency_ms` if that is higher. Returns whether the model
    /// is registered; the registry is left as it is when it is not.
    pub fn feedback(&self, models: &mut Vec<ModelRecord>, model_id: &str, latency_ms: u64, is_success: bool,
        smoothed_p50: u64, now: u64) -> (found: bool)
        ensures
            ({
                let p = model_pos(old(models)@, model_id@);
                &&& found == (p >= 0)
                &&& p < 0 ==> final(models)@ == old(models)@
                &&& p >= 0 ==> {
                    let m = old(models)@[p];
                    final(models)@ == old(models)@.update(p, if is_success {
                        ModelRecord { latency_p50_ms: smoothed_p50, updated_at: now, ..m }
                    } else {
                        ModelRecord { latency_p99_ms: if m.latency_p99_ms >= latency_ms { m.latency_p99_ms } else { latency_ms },
                            updated_at: now, ..m }
                    })
                }
            }),
    {
        proof {
            lemma_model_pos_from(old(models)@, model_id@, 0);
        }
        match find_model(models, model_id) {
            Some(pos) => {
                proof {
                    assert(0 <= model_pos(models@, model_id@) < models.len());
                }
                let mut m = models.remove(pos);
                if is_success {
                    m.latency_p50_ms = smoothed_p50;
                } else if latency_ms > m.latency_p99_ms {
                    m.latency_p99_ms = latency_ms;
                }
                m.updated_at = now;
                models.insert(pos, m);
                proof {
                    assert(final(models)@ =~= old(models)@.update(pos as int, m));
                }
                true
            },
            None => false,
        }
    }
}

/// Removes every model named `model_id`; refused when there is none.
pub fn remove_model(models: &mut Vec<ModelRecord>, model_id: &str) -> (r: Result<(), RouterError>)
    ensures
        final(models)@ == old(models)@.filter(|m: ModelRecord| m.model_id@ != model_id@),
        r is Err <==> model_pos(old(models)@, model_id@) < 0,
        r matches Err(RouterError::NotFound(id)) ==> id@ == model_id@,
{
    proof {
        lemma_model_pos_from(old(models)@, model_id@, 0);
    }
    let ghost all = old(models)@;
    let ghost pred = |m: ModelRecord| m.model_id@ != model_id@;
    let mut taken: Vec<ModelRecord> = Vec::new();
    std::mem::swap(&mut taken, models);
    let before = taken.len();
    let mut kept: Vec<ModelRecord> = Vec::new();
    proof {
        reveal(Seq::filter);
        assert(all.take(0) =~= Seq::<ModelRecord>::empty());
    }
    for m in it: taken.into_iter()
        invariant
            it.seq() == all,
            pred == (|m: ModelRecord| m.model_id@ != model_id@),
            kept@ == all.take(it.index() as int).filter(pred),
    {
        let ghost k = it.index() as int;
        proof {
            assert(m == all[k]);
            assert(all.take(k + 1) =~= all.take(k).push(m));
            all.take(k).lemma_filter_push(m, pred);
        }
        if !str_eq(m.model_id.as_str(), model_id) {
            kept.push(m);
        }
    }
    proof {
        assert(all.take(all.len() as int) =~= all);
        all.lemma_filter_len(pred);
        if model_pos(all, model_id@) >= 0 {
            lemma_filter_shrinks(all, pred, model_pos(all, model_id@));
        } else {
            lemma_filter_all(all, pred);
        }
    }
    let found = kept.len() != before;
    *models = kept;
    if !found {
        return Err(RouterError::NotFound(model_id.to_owned()));
    }
    Ok(())
}

proof fn lemma_filter_shrinks(s: Seq<ModelRecord>, pred: spec_fn(ModelRecord) -> bool, k: int)
    requires
        0 <= k < s.len(),
        !pred(s[k]),
    ensures
        s.filter(pred).len() < s.len(),
    decreases s.len(),
{
    reveal(Seq::filter);
    s.drop_last().lemma_filter_len(pred);
    if k < s.len() - 1 {
        lemma_filter_shrinks(s.drop_last(), pred, k);
    }
}

proof fn lemma_filter_all(s: Seq<ModelRecord>, pred: spec_fn(ModelRecord) -> bool)
    requires
        forall|k: int| 0 <= k < s.len() ==> pred(#[trigger] s[k]),
    ensures
        s.filter(pred) == s,
    decreases s.len(),
{
    reveal(Seq::filter);
    if s.len() > 0 {
        lemma_filter_all(s.drop_last(), pred);
        assert(s.drop_last().push(s.last()) =~= s);
    }
}

/// The record as registered at `now`.
pub open spec fn registered(m: ModelRecord, now: u64) -> ModelRecord {
    ModelRecord { updated_at: now, registered_at: if m.registered_at == 0 { now } else { m.registered_at }, ..m }
}

/// Registers `model` at `now`, replacing the first model of the same id, or
/// appending it when there is none.
pub fn register_model(models: &mut Vec<ModelRecord>, model: ModelRecord, now: u64) -> (r: ModelRecord)
    ensures
        r == registered(model, now),
        ({
            let p = model_pos(old(models)@, model.model_id@);
            if p >= 0 {
                &&& final(models)@.len() == old(models)@.len()
                &&& forall|q: int| 0 <= q < old(models)@.len() && q != p ==> #[trigger] final(models)@[q] == old(models)@[q]
                &&& same_model(final(models)@[p], r)
            } else {
                &&& final(models)@.len() == old(models)@.len() + 1
                &&& final(models)@.drop_last() == old(models)@
                &&& same_model(final(models)@.last(), r)
            }
        }),
{
    proof {
        lemma_model_pos_from(old(models)@, model.model_id@, 0);
    }
    let mut model = model;
    model.updated_at = now;
    if model.registered_at == 0 {
        model.registered_at = now;
    }
    match find_model(models, model.model_id.as_str()) {
        Some(pos) => {
            proof {
                assert(0 <= model_pos(models@, model.model_id@) < models.len());
            }
            models.set(pos, model.duplicate());
        },
        None => {
            models.push(model.duplicate());
            proof {
                assert(final(models)@.drop_last() =~= old(models)@);
            }
        },
    }
    model
}

} // verus!
