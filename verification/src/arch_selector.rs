//! Architecture selection: the structure of a workflow's dependency graph,
//! the governance posture of its tenant, and the configuration recommended
//! for the chosen execution architecture.

use vstd::prelude::*;
use std::collections::VecDeque;
use crate::orchestration::{WorkflowDef, WorkflowStep};
use crate::text::{str_eq, copy_strings, list_contains, lists, push_decimal, decimal};
use crate::policy::{TenantPolicy, PolicyEngine, PolicyDecision, run_verdict};
use vstd::string::*;
use vstd::set_lib::{set_int_range, lemma_int_range, lemma_len_subset};

verus! {

// ── The dependency graph ─────────────────────────────────────────────────────

/// Index of the last of the first `i` steps whose id is `id`, or -1. When
/// several steps share an id, a dependency on it names the last of them.
pub open spec fn resolve_from(steps: Seq<WorkflowStep>, id: Seq<char>, i: int) -> int
    decreases i,
{
    if i <= 0 {
        -1
    } else if steps[i - 1].step_id@ == id {
        i - 1
    } else {
        resolve_from(steps, id, i - 1)
    }
}

pub open spec fn resolve(steps: Seq<WorkflowStep>, id: Seq<char>) -> int {
    resolve_from(steps, id, steps.len() as int)
}

/// The steps named by the dependency list `ds`, in order; names of no step
/// are dropped.
pub open spec fn resolve_all(steps: Seq<WorkflowStep>, ds: Seq<String>) -> Seq<int>
    decreases ds.len(),
{
    if ds.len() == 0 {
        Seq::empty()
    } else {
        let r = resolve_all(steps, ds.drop_last());
        let j = resolve(steps, ds.last()@);
        if j >= 0 {
            r.push(j)
        } else {
            r
        }
    }
}

/// The predecessors of step `i`: the steps its dependencies name.
pub open spec fn deps(steps: Seq<WorkflowStep>, i: int) -> Seq<int> {
    resolve_all(steps, steps[i].depends_on@)
}

proof fn lemma_resolve_from(steps: Seq<WorkflowStep>, id: Seq<char>, i: int)
    requires
        0 <= i <= steps.len(),
    ensures
        -1 <= resolve_from(steps, id, i) < i,
        resolve_from(steps, id, i) >= 0 ==> steps[resolve_from(steps, id, i)].step_id@ == id,
    decreases i,
{
    if i > 0 {
        lemma_resolve_from(steps, id, i - 1);
    }
}

proof fn lemma_resolve_all_bounds(steps: Seq<WorkflowStep>, ds: Seq<String>)
    ensures
        forall|k: int| 0 <= k < resolve_all(steps, ds).len() ==> 0 <= #[trigger] resolve_all(steps, ds)[k] < steps.len(),
        resolve_all(steps, ds).len() <= ds.len(),
    decreases ds.len(),
{
    if ds.len() > 0 {
        lemma_resolve_all_bounds(steps, ds.drop_last());
        lemma_resolve_from(steps, ds.last()@, steps.len() as int);
    }
}

/// Every predecessor is a step.
pub proof fn lemma_deps_bounds(steps: Seq<WorkflowStep>, i: int)
    requires
        0 <= i < steps.len(),
    ensures
        forall|k: int| 0 <= k < deps(steps, i).len() ==> 0 <= #[trigger] deps(steps, i)[k] < steps.len(),
        deps(steps, i).len() <= steps[i].depends_on@.len(),
{
    lemma_resolve_all_bounds(steps, steps[i].depends_on@);
}

/// The last step whose id is `id`.
fn resolve_step(steps: &Vec<WorkflowStep>, id: &str) -> (r: Option<usize>)
    ensures
        match r {
            Some(j) => j as int == resolve(steps@, id@) && j < steps.len(),
            None => resolve(steps@, id@) == -1,
        },
{
    let mut i = steps.len();
    while i > 0
        invariant
            i <= steps.len(),
            resolve(steps@, id@) == resolve_from(steps@, id@, i as int),
        decreases i,
    {
        if str_eq(steps[i - 1].step_id.as_str(), id) {
            return Some(i - 1);
        }
        i -= 1;
    }
    None
}

/// The predecessors of step `i`.
fn step_deps(steps: &Vec<WorkflowStep>, i: usize) -> (r: Vec<usize>)
    requires
        i < steps.len(),
    ensures
        r@.len() == deps(steps@, i as int).len(),
        forall|k: int| 0 <= k < r@.len() ==> #[trigger] r@[k] as int == deps(steps@, i as int)[k],
{
    let ds = &steps[i].depends_on;
    let mut r: Vec<usize> = Vec::new();
    let mut k: usize = 0;
    while k < ds.len()
        invariant
            ds@ == steps@[i as int].depends_on@,
            k <= ds.len(),
            r@.len() == resolve_all(steps@, ds@.take(k as int)).len(),
            forall|q: int| 0 <= q < r@.len() ==> #[trigger] r@[q] as int == resolve_all(steps@, ds@.take(k as int))[q],
        decreases ds.len() - k,
    {
        proof {
            assert(ds@.take(k + 1).drop_last() =~= ds@.take(k as int));
            assert(ds@.take(k + 1).last() == ds@[k as int]);
        }
        match resolve_step(steps, ds[k].as_str()) {
            Some(j) => {
                r.push(j);
            },
            None => {},
        }
        k += 1;
    }
    proof {
        assert(ds@.take(ds.len() as int) =~= ds@);
    }
    r
}


/// `pv` lists the predecessors of every step.
pub open spec fn deps_table(steps: Seq<WorkflowStep>, pv: Seq<Vec<usize>>) -> bool {
    &&& pv.len() == steps.len()
    &&& forall|i: int| 0 <= i < steps.len() ==> #[trigger] pv[i]@.len() == deps(steps, i).len()
    &&& forall|i: int, k: int| 0 <= i < steps.len() && 0 <= k < deps(steps, i).len()
        ==> #[trigger] pv[i]@[k] as int == deps(steps, i)[k]
}

/// Step `j` is a predecessor of step `i`.
pub open spec fn is_dep(steps: Seq<WorkflowStep>, i: int, j: int) -> bool {
    deps(steps, i).contains(j)
}

fn deps_of_all(steps: &Vec<WorkflowStep>) -> (pv: Vec<Vec<usize>>)
    ensures
        deps_table(steps@, pv@),
{
    let mut pv: Vec<Vec<usize>> = Vec::new();
    let mut i: usize = 0;
    while i < steps.len()
        invariant
            i <= steps.len(),
            pv@.len() == i,
            forall|q: int| 0 <= q < i ==> #[trigger] pv@[q]@.len() == deps(steps@, q).len(),
            forall|q: int, k: int| 0 <= q < i && 0 <= k < deps(steps@, q).len()
                ==> #[trigger] pv@[q]@[k] as int == deps(steps@, q)[k],
        decreases steps.len() - i,
    {
        let d = step_deps(steps, i);
        pv.push(d);
        i += 1;
    }
    pv
}

/// The steps among the first `i` that have `j` as a predecessor, in step
/// order.
pub open spec fn dependents(steps: Seq<WorkflowStep>, j: int, i: int) -> Seq<int>
    decreases i,
{
    if i <= 0 {
        Seq::empty()
    } else if is_dep(steps, i - 1, j) {
        dependents(steps, j, i - 1).push(i - 1)
    } else {
        dependents(steps, j, i - 1)
    }
}

proof fn lemma_dependents_bounds(steps: Seq<WorkflowStep>, j: int, i: int)
    requires
        0 <= i,
    ensures
        forall|q: int| 0 <= q < dependents(steps, j, i).len() ==> 0 <= #[trigger] dependents(steps, j, i)[q] < i
            && is_dep(steps, dependents(steps, j, i)[q], j),
        forall|a: int, b: int| 0 <= a < b < dependents(steps, j, i).len()
            ==> #[trigger] dependents(steps, j, i)[a] < #[trigger] dependents(steps, j, i)[b],
        forall|x: int| 0 <= x < i && is_dep(steps, x, j) ==> #[trigger] dependents(steps, j, i).contains(x),
    decreases i,
{
    if i > 0 {
        lemma_dependents_bounds(steps, j, i - 1);
        let d0 = dependents(steps, j, i - 1);
        let d = dependents(steps, j, i);
        assert forall|x: int| 0 <= x < i && is_dep(steps, x, j) implies #[trigger] d.contains(x) by {
            if x < i - 1 {
                assert(d0.contains(x));
                let q = choose|q: int| 0 <= q < d0.len() && d0[q] == x;
                assert(d[q] == x);
            } else {
                assert(d[d.len() - 1] == x);
            }
        }
    }
}

/// The steps that have `j` as a predecessor, each once, in step order.
fn successors_of(steps: &Vec<WorkflowStep>, pv: &Vec<Vec<usize>>, j: usize) -> (r: Vec<usize>)
    requires
        deps_table(steps@, pv@),
    ensures
        r@.len() == dependents(steps@, j as int, steps.len() as int).len(),
        forall|q: int| 0 <= q < r@.len() ==> #[trigger] r@[q] as int == dependents(steps@, j as int, steps.len() as int)[q],
        forall|q: int| 0 <= q < r@.len() ==> #[trigger] r@[q] < steps.len() && is_dep(steps@, r@[q] as int, j as int),
        forall|x: int| 0 <= x < steps.len() && is_dep(steps@, x, j as int) ==> r@.contains(x as usize),
{
    let mut r: Vec<usize> = Vec::new();
    let mut i: usize = 0;
    while i < pv.len()
        invariant
            deps_table(steps@, pv@),
            i <= pv.len(),
            r@.len() == dependents(steps@, j as int, i as int).len(),
            forall|q: int| 0 <= q < r@.len() ==> #[trigger] r@[q] as int == dependents(steps@, j as int, i as int)[q],
        decreases pv.len() - i,
    {
        let row = &pv[i];
        let mut hit = false;
        let mut k: usize = 0;
        while k < row.len()
            invariant
                deps_table(steps@, pv@),
                i < pv.len(),
                row@ == pv@[i as int]@,
                k <= row.len(),
                hit == exists|q: int| 0 <= q < k && #[trigger] row@[q] == j,
            decreases row.len() - k,
        {
            if row[k] == j {
                hit = true;
            }
            k += 1;
        }
        proof {
            if is_dep(steps@, i as int, j as int) {
                let q = choose|q: int| 0 <= q < deps(steps@, i as int).len() && deps(steps@, i as int)[q] == j as int;
                assert(row@[q] == j);
            }
            if hit {
                let q = choose|q: int| 0 <= q < k && #[trigger] row@[q] == j;
                assert(deps(steps@, i as int)[q] == j as int);
            }
        }
        if hit {
            r.push(i);
        }
        i += 1;
    }
    proof {
        lemma_dependents_bounds(steps@, j as int, steps.len() as int);
        assert forall|x: int| 0 <= x < steps.len() && is_dep(steps@, x, j as int) implies r@.contains(x as usize) by {
            let d = dependents(steps@, j as int, steps.len() as int);
            assert(d.contains(x));
            let q = choose|q: int| 0 <= q < d.len() && d[q] == x;
            assert(r@[q] == x as usize);
        }
    }
    r
}


// ── Levels ───────────────────────────────────────────────────────────────────

/// A set of steps that takes in every step all of whose predecessors it
/// holds.
pub open spec fn closed(steps: Seq<WorkflowStep>, x: Set<int>) -> bool {
    forall|i: int| #![trigger x.contains(i)]
        0 <= i < steps.len() && (forall|k: int| 0 <= k < deps(steps, i).len() ==> x.contains(#[trigger] deps(steps, i)[k]))
            ==> x.contains(i)
}

/// A step is settled when it lies in every closed set: no cycle reaches it
/// through its predecessors. These are the steps a topological sort orders.
pub open spec fn settled(steps: Seq<WorkflowStep>, i: int) -> bool {
    &&& 0 <= i < steps.len()
    &&& forall|x: Set<int>| #[trigger] closed(steps, x) ==> x.contains(i)
}

/// The largest `lv(j) + 1` over the entries `j` of `ps` that satisfy `ok`,
/// or 0.
pub open spec fn pred_max(ps: Seq<int>, ok: spec_fn(int) -> bool, lv: spec_fn(int) -> int) -> int
    decreases ps.len(),
{
    if ps.len() == 0 {
        0
    } else {
        let m = pred_max(ps.drop_last(), ok, lv);
        let c = if ok(ps.last()) { lv(ps.last()) + 1 } else { 0 };
        if m >= c { m } else { c }
    }
}

/// `lv` gives each step its level: one more than the highest level among its
/// settled predecessors, or 0 when it has none.
pub open spec fn is_levels(steps: Seq<WorkflowStep>, lv: Seq<int>) -> bool {
    &&& lv.len() == steps.len()
    &&& forall|i: int| 0 <= i < steps.len() ==> #[trigger] lv[i] == pred_max(deps(steps, i), |j: int| settled(steps, j), |j: int| lv[j])
}

/// The level of every step.
pub open spec fn dag_levels(steps: Seq<WorkflowStep>) -> Seq<int> {
    choose|lv: Seq<int>| is_levels(steps, lv)
}

proof fn lemma_pred_max_congruent(
    ps: Seq<int>,
    ok1: spec_fn(int) -> bool,
    lv1: spec_fn(int) -> int,
    ok2: spec_fn(int) -> bool,
    lv2: spec_fn(int) -> int,
)
    requires
        forall|k: int| 0 <= k < ps.len() ==> ok1(#[trigger] ps[k]) == ok2(ps[k]),
        forall|k: int| 0 <= k < ps.len() && ok1(#[trigger] ps[k]) ==> lv1(ps[k]) == lv2(ps[k]),
    ensures
        pred_max(ps, ok1, lv1) == pred_max(ps, ok2, lv2),
    decreases ps.len(),
{
    if ps.len() > 0 {
        assert(ps.last() == ps[ps.len() - 1]);
        lemma_pred_max_congruent(ps.drop_last(), ok1, lv1, ok2, lv2);
    }
}

proof fn lemma_pred_max_bound(ps: Seq<int>, ok: spec_fn(int) -> bool, lv: spec_fn(int) -> int, b: int)
    requires
        b >= 0,
        forall|k: int| 0 <= k < ps.len() && ok(#[trigger] ps[k]) ==> lv(ps[k]) + 1 <= b,
    ensures
        0 <= pred_max(ps, ok, lv) <= b,
    decreases ps.len(),
{
    if ps.len() > 0 {
        assert(ps.last() == ps[ps.len() - 1]);
        lemma_pred_max_bound(ps.drop_last(), ok, lv, b);
    }
}

proof fn lemma_pred_max_nonneg(ps: Seq<int>, ok: spec_fn(int) -> bool, lv: spec_fn(int) -> int)
    ensures
        pred_max(ps, ok, lv) >= 0,
    decreases ps.len(),
{
    if ps.len() > 0 {
        lemma_pred_max_nonneg(ps.drop_last(), ok, lv);
    }
}

/// Marking `node` (which the entries other than `node` do not feel) raises
/// the maximum to `c` exactly where `node` is an entry.
proof fn lemma_pred_max_mark(
    ps: Seq<int>,
    ok1: spec_fn(int) -> bool,
    lv1: spec_fn(int) -> int,
    ok2: spec_fn(int) -> bool,
    lv2: spec_fn(int) -> int,
    node: int,
)
    requires
        !ok1(node),
        ok2(node),
        forall|k: int| 0 <= k < ps.len() && ps[k] != node ==> ok1(#[trigger] ps[k]) == ok2(ps[k]),
        forall|k: int| 0 <= k < ps.len() && ps[k] != node && ok1(#[trigger] ps[k]) ==> lv1(ps[k]) == lv2(ps[k]),
    ensures
        pred_max(ps, ok2, lv2) == if ps.contains(node) {
            let m = pred_max(ps, ok1, lv1);
            if m >= lv2(node) + 1 { m } else { lv2(node) + 1 }
        } else {
            pred_max(ps, ok1, lv1)
        },
    decreases ps.len(),
{
    if ps.len() > 0 {
        let q = ps.drop_last();
        assert(ps.last() == ps[ps.len() - 1]);
        assert forall|k: int| 0 <= k < q.len() && q[k] != node implies ok1(#[trigger] q[k]) == ok2(q[k]) by {
            assert(q[k] == ps[k]);
        }
        assert forall|k: int| 0 <= k < q.len() && q[k] != node && ok1(#[trigger] q[k]) implies lv1(q[k]) == lv2(q[k]) by {
            assert(q[k] == ps[k]);
        }
        lemma_pred_max_mark(q, ok1, lv1, ok2, lv2, node);
        lemma_pred_max_nonneg(q, ok1, lv1);
        if ps.contains(node) {
            if !q.contains(node) {
                assert(ps.last() == node) by {
                    let k = choose|k: int| 0 <= k < ps.len() && ps[k] == node;
                    if k < ps.len() - 1 {
                        assert(q[k] == node);
                    }
                }
            }
        } else {
            assert(!q.contains(node)) by {
                if q.contains(node) {
                    let k = choose|k: int| 0 <= k < q.len() && q[k] == node;
                    assert(ps[k] == node);
                }
            }
            assert(ps.last() != node) by {
                if ps.last() == node {
                    assert(ps[ps.len() - 1] == node);
                }
            }
        }
        if q.contains(node) {
            let k = choose|k: int| 0 <= k < q.len() && q[k] == node;
            assert(ps[k] == node);
        }
    }
}

/// The settled steps form a closed set.
proof fn lemma_settled_closed(steps: Seq<WorkflowStep>, i: int)
    requires
        0 <= i < steps.len(),
        forall|k: int| 0 <= k < deps(steps, i).len() ==> settled(steps, #[trigger] deps(steps, i)[k]),
    ensures
        settled(steps, i),
{
    assert forall|x: Set<int>| #[trigger] closed(steps, x) implies x.contains(i) by {
        assert forall|k: int| 0 <= k < deps(steps, i).len() implies x.contains(#[trigger] deps(steps, i)[k]) by {
            assert(settled(steps, deps(steps, i)[k]));
        }
    }
}

/// At most one assignment of levels exists.
pub proof fn lemma_levels_unique(steps: Seq<WorkflowStep>, l1: Seq<int>, l2: Seq<int>)
    requires
        is_levels(steps, l1),
        is_levels(steps, l2),
    ensures
        l1 == l2,
{
    let t = Set::new(|j: int| settled(steps, j) && l1[j] == l2[j]);
    assert forall|i: int| #![trigger t.contains(i)]
        0 <= i < steps.len() && (forall|k: int| 0 <= k < deps(steps, i).len() ==> t.contains(#[trigger] deps(steps, i)[k]))
            implies t.contains(i) by {
        assert forall|k: int| 0 <= k < deps(steps, i).len() implies settled(steps, #[trigger] deps(steps, i)[k]) by {
            assert(t.contains(deps(steps, i)[k]));
        }
        lemma_settled_closed(steps, i);
        assert forall|k: int| 0 <= k < deps(steps, i).len()
            && (|j: int| settled(steps, j))(#[trigger] deps(steps, i)[k])
            implies (|j: int| l1[j])(deps(steps, i)[k]) == (|j: int| l2[j])(deps(steps, i)[k]) by {
            assert(t.contains(deps(steps, i)[k]));
        }
        lemma_pred_max_congruent(deps(steps, i), |j: int| settled(steps, j), |j: int| l1[j],
            |j: int| settled(steps, j), |j: int| l2[j]);
        assert(l1[i] == l2[i]);
    }
    assert(closed(steps, t));
    assert forall|i: int| 0 <= i < steps.len() implies l1[i] == l2[i] by {
        assert forall|k: int| 0 <= k < deps(steps, i).len()
            && (|j: int| settled(steps, j))(#[trigger] deps(steps, i)[k])
            implies (|j: int| l1[j])(deps(steps, i)[k]) == (|j: int| l2[j])(deps(steps, i)[k]) by {
            assert(t.contains(deps(steps, i)[k]));
        }
        lemma_pred_max_congruent(deps(steps, i), |j: int| settled(steps, j), |j: int| l1[j],
            |j: int| settled(steps, j), |j: int| l2[j]);
    }
    assert(l1 =~= l2);
}


/// An entry that `ok` admits raises the maximum to at least its level plus one.
proof fn lemma_pred_max_ge(ps: Seq<int>, ok: spec_fn(int) -> bool, lv: spec_fn(int) -> int, k: int)
    requires
        0 <= k < ps.len(),
        ok(ps[k]),
    ensures
        pred_max(ps, ok, lv) >= lv(ps[k]) + 1,
    decreases ps.len(),
{
    if k < ps.len() - 1 {
        assert(ps.drop_last()[k] == ps[k]);
        lemma_pred_max_ge(ps.drop_last(), ok, lv, k);
    }
}

/// A positive maximum is the level plus one of an entry that `ok` admits.
proof fn lemma_pred_max_attained(ps: Seq<int>, ok: spec_fn(int) -> bool, lv: spec_fn(int) -> int)
    requires
        pred_max(ps, ok, lv) > 0,
    ensures
        exists|k: int| 0 <= k < ps.len() && ok(#[trigger] ps[k]) && lv(ps[k]) + 1 == pred_max(ps, ok, lv),
    decreases ps.len(),
{
    let q = ps.drop_last();
    let m = pred_max(q, ok, lv);
    let c = if ok(ps.last()) { lv(ps.last()) + 1 } else { 0 };
    if m >= c {
        lemma_pred_max_attained(q, ok, lv);
        let k = choose|k: int| 0 <= k < q.len() && ok(#[trigger] q[k]) && lv(q[k]) + 1 == m;
        assert(ps[k] == q[k]);
    } else {
        assert(ps[ps.len() - 1] == ps.last());
    }
}

proof fn lemma_seq_max_ge(s: Seq<int>, k: int)
    requires
        0 <= k < s.len(),
    ensures
        seq_max(s) >= s[k],
    decreases s.len(),
{
    if k < s.len() - 1 {
        assert(s.drop_last()[k] == s[k]);
        lemma_seq_max_ge(s.drop_last(), k);
    }
}

/// Every settled predecessor of a step lies on an earlier level, so in an
/// earlier parallel group. (`analyse_dag` establishes the level assignment
/// for every workflow it is given.)
pub proof fn lemma_deps_on_earlier_levels(steps: Seq<WorkflowStep>, i: int, j: int)
    requires
        is_levels(steps, dag_levels(steps)),
        0 <= i < steps.len(),
        is_dep(steps, i, j),
        settled(steps, j),
    ensures
        dag_levels(steps)[j] < dag_levels(steps)[i],
{
    let lv = dag_levels(steps);
    let k = choose|k: int| 0 <= k < deps(steps, i).len() && deps(steps, i)[k] == j;
    lemma_pred_max_ge(deps(steps, i), |x: int| settled(steps, x), |x: int| lv[x], k);
    assert(lv[i] == pred_max(deps(steps, i), |x: int| settled(steps, x), |x: int| lv[x]));
}

/// Every step above level 0 has a settled predecessor on the level just
/// below: each parallel group after the first depends on the one before.
pub proof fn lemma_level_has_pred_below(steps: Seq<WorkflowStep>, i: int)
    requires
        is_levels(steps, dag_levels(steps)),
        0 <= i < steps.len(),
        dag_levels(steps)[i] > 0,
    ensures
        exists|j: int| #[trigger] is_dep(steps, i, j) && settled(steps, j) && dag_levels(steps)[j] == dag_levels(steps)[i] - 1,
{
    let lv = dag_levels(steps);
    assert(lv[i] == pred_max(deps(steps, i), |x: int| settled(steps, x), |x: int| lv[x]));
    lemma_pred_max_attained(deps(steps, i), |x: int| settled(steps, x), |x: int| lv[x]);
    let k = choose|k: int| 0 <= k < deps(steps, i).len() && (|x: int| settled(steps, x))(#[trigger] deps(steps, i)[k])
        && (|x: int| lv[x])(deps(steps, i)[k]) + 1 == lv[i];
    let j = deps(steps, i)[k];
    assert(deps(steps, i).contains(j));
    assert(is_dep(steps, i, j));
}

/// No chain of dependencies is longer than the critical path: a chain of
/// steps, each a settled predecessor of the next, has at most
/// `max_level + 1` steps, the length `analyse_dag` reports.
pub proof fn lemma_chain_within_critical_path(steps: Seq<WorkflowStep>, c: Seq<int>)
    requires
        is_levels(steps, dag_levels(steps)),
        c.len() > 0,
        forall|k: int| 0 <= k < c.len() ==> 0 <= #[trigger] c[k] < steps.len(),
        forall|k: int| 1 <= k < c.len() ==> is_dep(steps, #[trigger] c[k], c[k - 1]) && settled(steps, c[k - 1]),
    ensures
        c.len() <= max_level(steps) + 1,
{
    let lv = dag_levels(steps);
    assert forall|k: int| 0 <= k < c.len() implies #[trigger] lv[c[k]] >= k by {
        lemma_chain_levels(steps, c, k);
    }
    let last = c.len() - 1;
    assert(lv[c[last]] >= last);
    lemma_seq_max_ge(lv, c[last]);
}

proof fn lemma_chain_levels(steps: Seq<WorkflowStep>, c: Seq<int>, k: int)
    requires
        is_levels(steps, dag_levels(steps)),
        0 <= k < c.len(),
        forall|q: int| 0 <= q < c.len() ==> 0 <= #[trigger] c[q] < steps.len(),
        forall|q: int| 1 <= q < c.len() ==> is_dep(steps, #[trigger] c[q], c[q - 1]) && settled(steps, c[q - 1]),
    ensures
        dag_levels(steps)[c[k]] >= k,
    decreases k,
{
    let lv = dag_levels(steps);
    if k == 0 {
        assert(lv[c[0]] == pred_max(deps(steps, c[0]), |x: int| settled(steps, x), |x: int| lv[x]));
        lemma_pred_max_nonneg(deps(steps, c[0]), |x: int| settled(steps, x), |x: int| lv[x]);
    } else {
        lemma_chain_levels(steps, c, k - 1);
        assert(is_dep(steps, c[k], c[k - 1]) && settled(steps, c[k - 1]));
        lemma_deps_on_earlier_levels(steps, c[k], c[k - 1]);
    }
}

/// `rk` numbers the steps so that every predecessor of a step has a lower
/// number than the step: the dependency graph has no cycle.
pub open spec fn acyclic_by(steps: Seq<WorkflowStep>, rk: Seq<nat>) -> bool {
    &&& rk.len() == steps.len()
    &&& forall|i: int, k: int| 0 <= i < steps.len() && 0 <= k < deps(steps, i).len()
        ==> rk[#[trigger] deps(steps, i)[k]] < rk[i]
}

proof fn lemma_ranked_in_closed(steps: Seq<WorkflowStep>, rk: Seq<nat>, x: Set<int>, i: int)
    requires
        acyclic_by(steps, rk),
        closed(steps, x),
        0 <= i < steps.len(),
    ensures
        x.contains(i),
    decreases rk[i],
{
    lemma_deps_bounds(steps, i);
    assert forall|k: int| 0 <= k < deps(steps, i).len() implies x.contains(#[trigger] deps(steps, i)[k]) by {
        let j = deps(steps, i)[k];
        assert(rk[j] < rk[i]);
        lemma_ranked_in_closed(steps, rk, x, j);
    }
}

/// In a workflow without cycles every step is settled, so the laws on
/// settled steps (earlier levels, a predecessor just below, no chain longer
/// than the critical path) hold of every step.
pub proof fn lemma_acyclic_all_settled(steps: Seq<WorkflowStep>, rk: Seq<nat>)
    requires
        acyclic_by(steps, rk),
    ensures
        forall|i: int| 0 <= i < steps.len() ==> #[trigger] settled(steps, i),
{
    assert forall|i: int| 0 <= i < steps.len() implies #[trigger] settled(steps, i) by {
        assert forall|x: Set<int>| #[trigger] closed(steps, x) implies x.contains(i) by {
            lemma_ranked_in_closed(steps, rk, x, i);
        }
    }
}

/// Conversely, when every step is settled the levels number the steps with
/// every predecessor lower: the graph has no cycle.
pub proof fn lemma_settled_acyclic(steps: Seq<WorkflowStep>)
    requires
        is_levels(steps, dag_levels(steps)),
        forall|i: int| 0 <= i < steps.len() ==> #[trigger] settled(steps, i),
    ensures
        acyclic_by(steps, Seq::new(steps.len(), |i: int| dag_levels(steps)[i] as nat)),
{
    let lv = dag_levels(steps);
    let rk = Seq::new(steps.len(), |i: int| lv[i] as nat);
    assert forall|i: int, k: int| 0 <= i < steps.len() && 0 <= k < deps(steps, i).len()
        implies rk[#[trigger] deps(steps, i)[k]] < rk[i] by {
        lemma_deps_bounds(steps, i);
        let j = deps(steps, i)[k];
        assert(is_dep(steps, i, j));
        lemma_deps_on_earlier_levels(steps, i, j);
        assert(lv[j] == pred_max(deps(steps, j), |x: int| settled(steps, x), |x: int| lv[x]));
        lemma_pred_max_nonneg(deps(steps, j), |x: int| settled(steps, x), |x: int| lv[x]);
    }
}

/// In a workflow without cycles, every predecessor of a step lies on an
/// earlier level, so in an earlier parallel group.
pub proof fn lemma_acyclic_deps_earlier(steps: Seq<WorkflowStep>, rk: Seq<nat>, i: int, j: int)
    requires
        is_levels(steps, dag_levels(steps)),
        acyclic_by(steps, rk),
        0 <= i < steps.len(),
        is_dep(steps, i, j),
    ensures
        dag_levels(steps)[j] < dag_levels(steps)[i],
{
    lemma_acyclic_all_settled(steps, rk);
    lemma_deps_bounds(steps, i);
    let k = choose|k: int| 0 <= k < deps(steps, i).len() && deps(steps, i)[k] == j;
    assert(0 <= deps(steps, i)[k] < steps.len());
    assert(settled(steps, j));
    lemma_deps_on_earlier_levels(steps, i, j);
}

/// In a workflow without cycles, no chain of dependencies (each step a
/// predecessor of the next) has more steps than the critical path.
pub proof fn lemma_acyclic_chain_bound(steps: Seq<WorkflowStep>, rk: Seq<nat>, c: Seq<int>)
    requires
        is_levels(steps, dag_levels(steps)),
        acyclic_by(steps, rk),
        c.len() > 0,
        forall|k: int| 0 <= k < c.len() ==> 0 <= #[trigger] c[k] < steps.len(),
        forall|k: int| 1 <= k < c.len() ==> is_dep(steps, #[trigger] c[k], c[k - 1]),
    ensures
        c.len() <= max_level(steps) + 1,
{
    lemma_acyclic_all_settled(steps, rk);
    assert forall|k: int| 1 <= k < c.len() implies is_dep(steps, #[trigger] c[k], c[k - 1]) && settled(steps, c[k - 1]) by {
        assert(0 <= c[k - 1] < steps.len());
    }
    lemma_chain_within_critical_path(steps, c);
}

/// The level groups `0..l`, one after the other.
pub open spec fn groups_concat(steps: Seq<WorkflowStep>, l: int, i: int) -> Seq<String>
    decreases l,
{
    if l <= 0 { Seq::empty() } else { groups_concat(steps, l - 1, i) + level_group(steps, l - 1, i) }
}

/// The ids of the first `i` steps whose level is below `l`, in step order.
pub open spec fn ids_below(steps: Seq<WorkflowStep>, l: int, i: int) -> Seq<String>
    decreases i,
{
    if i <= 0 {
        Seq::empty()
    } else {
        let v = dag_levels(steps)[i - 1];
        ids_below(steps, l, i - 1) + (if 0 <= v < l { seq![steps[i - 1].step_id] } else { Seq::<String>::empty() })
    }
}

proof fn lemma_ids_below_split(steps: Seq<WorkflowStep>, l: int, i: int)
    requires
        is_levels(steps, dag_levels(steps)),
        l >= 1,
        0 <= i <= steps.len(),
    ensures
        ids_below(steps, l, i).to_multiset()
            == ids_below(steps, l - 1, i).to_multiset().add(level_group(steps, l - 1, i).to_multiset()),
    decreases i,
{
    if i > 0 {
        lemma_ids_below_split(steps, l, i - 1);
        let v = dag_levels(steps)[i - 1];
        let x = steps[i - 1].step_id;
        let a = ids_below(steps, l, i - 1);
        let b = ids_below(steps, l - 1, i - 1);
        let g = level_group(steps, l - 1, i - 1);
        let sx = seq![x];
        vstd::seq_lib::lemma_multiset_commutative(a, sx);
        vstd::seq_lib::lemma_multiset_commutative(b, sx);
        vstd::seq_lib::lemma_multiset_commutative(g, sx);
        assert(g.push(x) =~= g + sx);
        if 0 <= v < l - 1 {
            assert(ids_below(steps, l, i) == a + sx);
            assert(ids_below(steps, l - 1, i) == b + sx);
            assert(level_group(steps, l - 1, i) == g);
            assert((a + sx).to_multiset() =~= (b + sx).to_multiset().add(g.to_multiset()));
        } else if v == l - 1 {
            assert(ids_below(steps, l, i) == a + sx);
            assert(ids_below(steps, l - 1, i) =~= b);
            assert(level_group(steps, l - 1, i) == g.push(x));
            assert((a + sx).to_multiset() =~= b.to_multiset().add((g + sx).to_multiset()));
        } else {
            assert(ids_below(steps, l, i) =~= a);
            assert(ids_below(steps, l - 1, i) =~= b);
            assert(level_group(steps, l - 1, i) == g);
        }
    } else {
        broadcast use vstd::multiset::group_multiset_axioms;
        assert(ids_below(steps, l, 0) =~= Seq::<String>::empty());
        assert(ids_below(steps, l - 1, 0) =~= Seq::<String>::empty());
        assert(level_group(steps, l - 1, 0) =~= Seq::<String>::empty());
        let e = Seq::<String>::empty();
        vstd::seq_lib::to_multiset_len(e);
        vstd::multiset::lemma_multiset_empty_len(e.to_multiset());
        assert(e.to_multiset() =~= e.to_multiset().add(e.to_multiset()));
    }
}

proof fn lemma_ids_below_none(steps: Seq<WorkflowStep>, i: int)
    requires
        0 <= i <= steps.len(),
    ensures
        ids_below(steps, 0, i) =~= Seq::<String>::empty(),
    decreases i,
{
    if i > 0 {
        lemma_ids_below_none(steps, i - 1);
    }
}

proof fn lemma_groups_concat_multiset(steps: Seq<WorkflowStep>, l: int, i: int)
    requires
        is_levels(steps, dag_levels(steps)),
        l >= 0,
        0 <= i <= steps.len(),
    ensures
        groups_concat(steps, l, i).to_multiset() == ids_below(steps, l, i).to_multiset(),
    decreases l,
{
    broadcast use vstd::seq_lib::lemma_multiset_commutative;
    if l == 0 {
        lemma_ids_below_none(steps, i);
    } else {
        lemma_groups_concat_multiset(steps, l - 1, i);
        lemma_ids_below_split(steps, l, i);
    }
}

proof fn lemma_ids_below_all(steps: Seq<WorkflowStep>, l: int, i: int)
    requires
        0 <= i <= steps.len(),
        forall|j: int| 0 <= j < steps.len() ==> 0 <= #[trigger] dag_levels(steps)[j] < l,
    ensures
        ids_below(steps, l, i) =~= steps.take(i).map_values(|s: WorkflowStep| s.step_id),
    decreases i,
{
    if i > 0 {
        lemma_ids_below_all(steps, l, i - 1);
        assert(steps.take(i).map_values(|s: WorkflowStep| s.step_id)
            =~= steps.take(i - 1).map_values(|s: WorkflowStep| s.step_id) + seq![steps[i - 1].step_id]);
    }
}

/// The parallel groups partition the steps: laid one after the other, the
/// groups of levels `0..=max_level` hold every step id exactly as often as
/// the steps do.
pub proof fn lemma_groups_partition_ids(steps: Seq<WorkflowStep>)
    requires
        is_levels(steps, dag_levels(steps)),
    ensures
        groups_concat(steps, max_level(steps) + 1, steps.len() as int).to_multiset()
            == steps.map_values(|s: WorkflowStep| s.step_id).to_multiset(),
{
    let lv = dag_levels(steps);
    let n = steps.len() as int;
    assert forall|j: int| 0 <= j < steps.len() implies 0 <= #[trigger] dag_levels(steps)[j] < max_level(steps) + 1 by {
        assert(lv[j] == pred_max(deps(steps, j), |x: int| settled(steps, x), |x: int| lv[x]));
        lemma_pred_max_nonneg(deps(steps, j), |x: int| settled(steps, x), |x: int| lv[x]);
        lemma_seq_max_ge(lv, j);
    }
    lemma_pred_max_nonneg_levels(steps);
    lemma_groups_concat_multiset(steps, max_level(steps) + 1, n);
    lemma_ids_below_all(steps, max_level(steps) + 1, n);
    assert(steps.take(n) =~= steps);
}

proof fn lemma_pred_max_nonneg_levels(steps: Seq<WorkflowStep>)
    ensures
        max_level(steps) >= 0,
{
    lemma_seq_max_nonneg(dag_levels(steps));
}

proof fn lemma_seq_max_nonneg(s: Seq<int>)
    ensures
        seq_max(s) >= 0,
    decreases s.len(),
{
    if s.len() > 0 {
        lemma_seq_max_nonneg(s.drop_last());
    }
}

/// A list of distinct indices below `n` has at most `n` entries.
proof fn lemma_distinct_bound(q: Seq<usize>, n: int)
    requires
        0 <= n,
        q.no_duplicates(),
        forall|k: int| 0 <= k < q.len() ==> #[trigger] q[k] < n,
    ensures
        q.len() <= n,
{
    let f = |x: usize| x as int;
    let qi = q.map_values(f);
    q.lemma_no_duplicates_injective(f);
    qi.unique_seq_to_set();
    lemma_int_range(0, n);
    assert(qi.to_set().subset_of(set_int_range(0, n))) by {
        assert forall|x: int| qi.to_set().contains(x) implies set_int_range(0, n).contains(x) by {
            let k = choose|k: int| 0 <= k < qi.len() && qi[k] == x;
            assert(q[k] < n);
        }
    }
    lemma_len_subset(qi.to_set(), set_int_range(0, n));
}

/// Every entry of `row` is marked in `done`.
fn all_marked(row: &Vec<usize>, done: &Vec<bool>) -> (b: bool)
    requires
        forall|k: int| 0 <= k < row@.len() ==> #[trigger] row@[k] < done@.len(),
    ensures
        b == forall|k: int| 0 <= k < row@.len() ==> done@[#[trigger] row@[k] as int],
{
    let mut k: usize = 0;
    while k < row.len()
        invariant
            k <= row.len(),
            forall|q: int| 0 <= q < row@.len() ==> #[trigger] row@[q] < done@.len(),
            forall|q: int| 0 <= q < k ==> done@[#[trigger] row@[q] as int],
        decreases row.len() - k,
    {
        if !done[row[k]] {
            return false;
        }
        k += 1;
    }
    true
}

/// `sv[j]` lists the steps that have `j` as a predecessor, each once, in
/// step order.
pub open spec fn succ_table(steps: Seq<WorkflowStep>, sv: Seq<Vec<usize>>) -> bool {
    &&& sv.len() == steps.len()
    &&& forall|j: int, q: int| 0 <= j < steps.len() && 0 <= q < sv[j]@.len()
        ==> #[trigger] sv[j]@[q] < steps.len() && is_dep(steps, sv[j]@[q] as int, j)
    &&& forall|j: int, x: int| 0 <= j < steps.len() && 0 <= x < steps.len() && #[trigger] is_dep(steps, x, j)
        ==> sv[j]@.contains(x as usize)
    &&& forall|j: int| 0 <= j < steps.len() ==> #[trigger] sv[j]@.len() == dependents(steps, j, steps.len() as int).len()
    &&& forall|j: int, q: int| 0 <= j < steps.len() && 0 <= q < sv[j]@.len()
        ==> #[trigger] sv[j]@[q] as int == dependents(steps, j, steps.len() as int)[q]
}

/// The steps among the first `i` that have no predecessor, in step order:
/// where the breadth-first sort starts.
pub open spec fn roots(steps: Seq<WorkflowStep>, i: int) -> Seq<int>
    decreases i,
{
    if i <= 0 {
        Seq::empty()
    } else if deps(steps, i - 1).len() == 0 {
        roots(steps, i - 1).push(i - 1)
    } else {
        roots(steps, i - 1)
    }
}

/// Every predecessor of step `x` occurs in `d`.
pub open spec fn deps_within(steps: Seq<WorkflowStep>, x: int, d: Seq<int>) -> bool {
    forall|k: int| 0 <= k < deps(steps, x).len() ==> d.contains(#[trigger] deps(steps, x)[k])
}

/// The entries of `xs` all of whose predecessors occur in `d`, in order.
pub open spec fn ready_in(steps: Seq<WorkflowStep>, xs: Seq<int>, d: Seq<int>) -> Seq<int>
    decreases xs.len(),
{
    if xs.len() == 0 {
        Seq::empty()
    } else if deps_within(steps, xs.last(), d) {
        ready_in(steps, xs.drop_last(), d).push(xs.last())
    } else {
        ready_in(steps, xs.drop_last(), d)
    }
}

/// The steps that the sort queues when it takes `q[k]`: those that have
/// `q[k]` as a predecessor and all of whose predecessors are among
/// `q[0..=k]`, in step order.
pub open spec fn freed(steps: Seq<WorkflowStep>, q: Seq<int>, k: int) -> Seq<int> {
    ready_in(steps, dependents(steps, q[k], steps.len() as int), q.take(k + 1))
}

/// What the sort queues, beyond the roots, while it takes `q[0..h]`.
pub open spec fn freed_upto(steps: Seq<WorkflowStep>, q: Seq<int>, h: int) -> Seq<int>
    decreases h,
{
    if h <= 0 {
        Seq::empty()
    } else {
        freed_upto(steps, q, h - 1) + freed(steps, q, h - 1)
    }
}

/// `q` is the order in which a first-in first-out topological sort takes
/// the steps: the roots in step order, then, for each step it takes, the
/// steps that this frees, in step order; and each step is queued before it
/// is taken.
pub open spec fn is_bfs_order(steps: Seq<WorkflowStep>, q: Seq<int>) -> bool {
    &&& q == roots(steps, steps.len() as int) + freed_upto(steps, q, q.len() as int)
    &&& forall|k: int| 0 <= k < q.len() ==> k < roots(steps, steps.len() as int).len() + #[trigger] freed_upto(steps, q, k).len()
}

proof fn lemma_freed_upto_grows(steps: Seq<WorkflowStep>, q: Seq<int>, h1: int, h2: int)
    requires
        0 <= h1 <= h2,
    ensures
        freed_upto(steps, q, h1).len() <= freed_upto(steps, q, h2).len(),
        forall|k: int| 0 <= k < freed_upto(steps, q, h1).len()
            ==> #[trigger] freed_upto(steps, q, h2)[k] == freed_upto(steps, q, h1)[k],
    decreases h2 - h1,
{
    if h1 < h2 {
        lemma_freed_upto_grows(steps, q, h1, h2 - 1);
    }
}

proof fn lemma_bfs_prefix_agree(steps: Seq<WorkflowStep>, q1: Seq<int>, q2: Seq<int>, k: int)
    requires
        is_bfs_order(steps, q1),
        is_bfs_order(steps, q2),
        0 <= k <= q1.len(),
        k <= q2.len(),
    ensures
        q1.take(k) == q2.take(k),
    decreases k,
{
    if k > 0 {
        let j = k - 1;
        lemma_bfs_prefix_agree(steps, q1, q2, j);
        lemma_freed_upto_prefix(steps, q1, q2, j);
        let r = roots(steps, steps.len() as int);
        let f = freed_upto(steps, q1, j);
        assert(j < r.len() + f.len());
        lemma_freed_upto_grows(steps, q1, j, q1.len() as int);
        lemma_freed_upto_grows(steps, q2, j, q2.len() as int);
        assert(q1[j] == (r + f)[j]) by {
            if j >= r.len() {
                assert(q1[j] == freed_upto(steps, q1, q1.len() as int)[j - r.len()]);
            }
        }
        assert(q2[j] == (r + f)[j]) by {
            if j >= r.len() {
                assert(q2[j] == freed_upto(steps, q2, q2.len() as int)[j - r.len()]);
            }
        }
        assert(q1.take(k) =~= q2.take(k)) by {
            assert forall|t: int| 0 <= t < k implies q1.take(k)[t] == q2.take(k)[t] by {
                if t < j {
                    assert(q1.take(j)[t] == q2.take(j)[t]);
                }
            }
        }
    }
}

/// At most one order is the order of the breadth-first sort.
pub proof fn lemma_bfs_order_unique(steps: Seq<WorkflowStep>, q1: Seq<int>, q2: Seq<int>)
    requires
        is_bfs_order(steps, q1),
        is_bfs_order(steps, q2),
    ensures
        q1 == q2,
{
    if q1.len() <= q2.len() {
        lemma_bfs_prefix_agree(steps, q1, q2, q1.len() as int);
        lemma_bfs_short_is_whole(steps, q1, q2);
    } else {
        lemma_bfs_prefix_agree(steps, q2, q1, q2.len() as int);
        lemma_bfs_short_is_whole(steps, q2, q1);
    }
}

proof fn lemma_bfs_short_is_whole(steps: Seq<WorkflowStep>, q1: Seq<int>, q2: Seq<int>)
    requires
        is_bfs_order(steps, q1),
        is_bfs_order(steps, q2),
        q1.len() <= q2.len(),
        q1.take(q1.len() as int) == q2.take(q1.len() as int),
    ensures
        q1 == q2,
{
    let l = q1.len() as int;
    assert(q1.take(l) =~= q1);
    if l < q2.len() {
        lemma_freed_upto_prefix(steps, q1, q2, l);
        assert(l < roots(steps, steps.len() as int).len() + freed_upto(steps, q2, l).len());
    }
    assert(q2.take(l) =~= q2);
}

/// `p` is the first step in `q` that is a predecessor of `x` on the level
/// just below `x`.
pub open spec fn first_pred_below(steps: Seq<WorkflowStep>, q: Seq<int>, x: int, p: int) -> bool {
    exists|k: int| #![trigger q[k]]
        0 <= k < q.len() && q[k] == p && is_dep(steps, x, p) && dag_levels(steps)[p] + 1 == dag_levels(steps)[x]
        && forall|k2: int| 0 <= k2 < k ==> !(is_dep(steps, x, #[trigger] q[k2]) && dag_levels(steps)[q[k2]] + 1 == dag_levels(steps)[x])
}

proof fn lemma_freed_upto_prefix(steps: Seq<WorkflowStep>, q1: Seq<int>, q2: Seq<int>, h: int)
    requires
        0 <= h <= q1.len(),
        h <= q2.len(),
        q1.take(h) == q2.take(h),
    ensures
        freed_upto(steps, q1, h) == freed_upto(steps, q2, h),
    decreases h,
{
    if h > 0 {
        assert(q1.take(h - 1) =~= q1.take(h).take(h - 1));
        assert(q2.take(h - 1) =~= q2.take(h).take(h - 1));
        lemma_freed_upto_prefix(steps, q1, q2, h - 1);
        assert(q1[h - 1] == q1.take(h)[h - 1]);
        assert(q2[h - 1] == q2.take(h)[h - 1]);
    }
}

proof fn lemma_cast_contains(qs: Seq<usize>, gs: Seq<int>, h: int, y: int)
    requires
        0 <= h <= qs.len(),
        gs.len() == qs.len(),
        forall|k: int| 0 <= k < gs.len() ==> #[trigger] gs[k] == qs[k] as int,
        0 <= y <= usize::MAX,
    ensures
        qs.take(h).contains(y as usize) <==> gs.take(h).contains(y),
{
    if qs.take(h).contains(y as usize) {
        let k = choose|k: int| 0 <= k < h && qs.take(h)[k] == y as usize;
        assert(gs.take(h)[k] == y);
    }
    if gs.take(h).contains(y) {
        let k = choose|k: int| 0 <= k < h && gs.take(h)[k] == y;
        assert(qs.take(h)[k] == y as usize);
    }
}

proof fn lemma_ready_in_step(steps: Seq<WorkflowStep>, xs: Seq<int>, d: Seq<int>, m: int)
    requires
        0 <= m < xs.len(),
    ensures
        ready_in(steps, xs.take(m + 1), d) == if deps_within(steps, xs[m], d) {
            ready_in(steps, xs.take(m), d).push(xs[m])
        } else {
            ready_in(steps, xs.take(m), d)
        },
{
    assert(xs.take(m + 1).drop_last() =~= xs.take(m));
    assert(xs.take(m + 1).last() == xs[m]);
}

/// Levels of all steps by a breadth-first topological sort, and for each
/// step the predecessor through which it reached its level.
fn topo_levels(steps: &Vec<WorkflowStep>, pv: &Vec<Vec<usize>>, sv: &Vec<Vec<usize>>) -> (r: (Vec<usize>, Vec<usize>, Ghost<Seq<int>>))
    requires
        deps_table(steps@, pv@),
        succ_table(steps@, sv@),
    ensures
        r.0@.len() == steps.len(),
        r.1@.len() == steps.len(),
        is_levels(steps@, dag_levels(steps@)),
        forall|i: int| 0 <= i < steps.len() ==> #[trigger] r.0@[i] as int == dag_levels(steps@)[i],
        forall|i: int| 0 <= i < steps.len() ==> #[trigger] r.0@[i] < steps.len(),
        forall|i: int| 0 <= i < steps.len() ==> (#[trigger] r.1@[i] == usize::MAX <==> r.0@[i] == 0),
        forall|i: int| 0 <= i < steps.len() && #[trigger] r.1@[i] != usize::MAX ==> {
            let p = r.1@[i] as int;
            &&& 0 <= p < steps.len()
            &&& settled(steps@, p)
            &&& is_dep(steps@, i, p)
            &&& r.0@[p] + 1 == r.0@[i]
        },
        is_bfs_order(steps@, r.2@),
        forall|i: int| 0 <= i < steps.len() && #[trigger] r.1@[i] != usize::MAX ==> first_pred_below(steps@, r.2@, i, r.1@[i] as int),
{
    let n = steps.len();
    let mut level: Vec<usize> = Vec::new();
    let mut parent: Vec<usize> = Vec::new();
    let mut done: Vec<bool> = Vec::new();
    let mut pushed: Vec<bool> = Vec::new();
    let mut dq: VecDeque<usize> = VecDeque::new();
    let ghost mut hist: Seq<usize> = Seq::empty();
    let ghost mut gq: Seq<int> = Seq::empty();
    let mut i: usize = 0;
    while i < n
        invariant
            n == steps.len(),
            deps_table(steps@, pv@),
            i <= n,
            gq.len() == hist.len(),
            forall|k: int| 0 <= k < gq.len() ==> #[trigger] gq[k] == hist[k] as int,
            gq == roots(steps@, i as int),
            dq@ == hist,
            level@.len() == i && parent@.len() == i && done@.len() == i && pushed@.len() == i,
            forall|q: int| 0 <= q < i ==> #[trigger] level@[q] == 0,
            forall|q: int| 0 <= q < i ==> #[trigger] parent@[q] == usize::MAX,
            forall|q: int| 0 <= q < i ==> !#[trigger] done@[q],
            forall|q: int| 0 <= q < i ==> (#[trigger] pushed@[q] <==> deps(steps@, q).len() == 0),
            forall|q: int| 0 <= q < hist.len() ==> #[trigger] hist[q] < i && deps(steps@, hist[q] as int).len() == 0,
            forall|x: usize| x < i ==> (hist.contains(x) <==> deps(steps@, x as int).len() == 0),
            hist.no_duplicates(),
        decreases n - i,
    {
        level.push(0);
        parent.push(usize::MAX);
        done.push(false);
        let root = pv[i].len() == 0;
        pushed.push(root);
        proof {
            assert(pv@[i as int]@.len() == deps(steps@, i as int).len());
        }
        if root {
            let ghost q0 = hist;
            dq.push_back(i);
            proof {
                hist = hist.push(i);
                gq = gq.push(i as int);
                assert forall|x: usize| x < i + 1 implies (hist.contains(x) <==> deps(steps@, x as int).len() == 0) by {
                    if q0.contains(x) {
                        let k = choose|k: int| 0 <= k < q0.len() && q0[k] == x;
                        assert(hist[k] == x);
                    }
                    if x == i {
                        assert(hist[q0.len() as int] == x);
                    }
                    if hist.contains(x) && x != i {
                        let k = choose|k: int| 0 <= k < hist.len() && hist[k] == x;
                        assert(q0[k] == x);
                    }
                }
            }
        } else {
            proof {
                assert(pv@[i as int]@.len() == deps(steps@, i as int).len());
            }
        }
        i += 1;
    }
    let mut head: usize = 0;
    proof {
        assert forall|x: int| 0 <= x < n implies (#[trigger] pushed@[x] <==> hist.contains(x as usize)) by {}
        assert(hist.take(0) =~= Seq::<usize>::empty());
        assert forall|x: int| 0 <= x < n implies (#[trigger] done@[x] <==> hist.take(0).contains(x as usize)) by {}
        assert forall|x: int| 0 <= x < n && (forall|k: int| 0 <= k < deps(steps@, x).len() ==> done@[#[trigger] deps(steps@, x)[k]])
            implies #[trigger] pushed@[x] by {
            lemma_deps_bounds(steps@, x);
            if deps(steps@, x).len() > 0 {
                assert(done@[deps(steps@, x)[0]]);
            }
        }
        assert forall|x: int| 0 <= x < n && #[trigger] pushed@[x] implies settled(steps@, x) by {
            lemma_settled_closed(steps@, x);
        }
        assert forall|x: int| 0 <= x < n implies #[trigger] level@[x] as int == pred_max(deps(steps@, x), |j: int| done@[j], |j: int| level@[j] as int) by {
            lemma_deps_bounds(steps@, x);
            lemma_pred_max_bound(deps(steps@, x), |j: int| done@[j], |j: int| level@[j] as int, 0);
        }
        assert(gq =~= roots(steps@, n as int) + freed_upto(steps@, gq, 0));
    }
    while dq.len() > 0
        invariant
            dq@ == hist.skip(head as int),
            n == steps.len(),
            deps_table(steps@, pv@),
            succ_table(steps@, sv@),
            level@.len() == n && parent@.len() == n && done@.len() == n && pushed@.len() == n,
            gq.len() == hist.len(),
            forall|k: int| 0 <= k < gq.len() ==> #[trigger] gq[k] == hist[k] as int,
            gq == roots(steps@, n as int) + freed_upto(steps@, gq, head as int),
            forall|k: int| 0 <= k < head ==> k < roots(steps@, n as int).len() + #[trigger] freed_upto(steps@, gq, k).len(),
            forall|x: int| 0 <= x < n && #[trigger] parent@[x] != usize::MAX ==> exists|k: int| #![trigger gq[k]]
                0 <= k < head && gq[k] == parent@[x] as int
                && forall|k2: int| 0 <= k2 < k ==> !(is_dep(steps@, x, #[trigger] gq[k2]) && level@[gq[k2]] + 1 == level@[x]),
            head <= hist.len(),
            forall|q: int| 0 <= q < hist.len() ==> #[trigger] hist[q] < n,
            hist.no_duplicates(),
            forall|x: int| 0 <= x < n ==> (#[trigger] pushed@[x] <==> hist.contains(x as usize)),
            forall|x: int| 0 <= x < n ==> (#[trigger] done@[x] <==> hist.take(head as int).contains(x as usize)),
            forall|x: int, k: int| 0 <= x < n && pushed@[x] && 0 <= k < deps(steps@, x).len()
                ==> done@[#[trigger] deps(steps@, x)[k]],
            forall|x: int| 0 <= x < n && (forall|k: int| 0 <= k < deps(steps@, x).len() ==> done@[#[trigger] deps(steps@, x)[k]])
                ==> #[trigger] pushed@[x],
            forall|x: int| 0 <= x < n && #[trigger] pushed@[x] ==> settled(steps@, x),
            forall|x: int| 0 <= x < n ==> #[trigger] level@[x] as int == pred_max(deps(steps@, x), |j: int| done@[j], |j: int| level@[j] as int),
            forall|x: int| 0 <= x < n ==> #[trigger] level@[x] <= head,
            forall|x: int| 0 <= x < n && #[trigger] done@[x] ==> level@[x] < head,
            forall|x: int| 0 <= x < n ==> (#[trigger] parent@[x] == usize::MAX <==> level@[x] == 0),
            forall|x: int| 0 <= x < n && #[trigger] parent@[x] != usize::MAX ==> {
                let p = parent@[x] as int;
                &&& 0 <= p < n
                &&& done@[p]
                &&& is_dep(steps@, x, p)
                &&& level@[p] + 1 == level@[x]
            },
        decreases n - head,
    {
        proof {
            lemma_distinct_bound(hist, n as int);
        }
        let ghost dq0 = dq@;
        let node = dq.pop_front().unwrap();
        proof {
            assert(dq0.len() > 0);
            assert(node == dq0[0]);
            assert(node == hist[head as int]);
            assert(dq@ =~= hist.skip(head + 1));
        }
        let ghost d0 = done@;
        let ghost t0 = hist.take(head as int);
        proof {
            assert(!t0.contains(node)) by {
                if t0.contains(node) {
                    let k = choose|k: int| 0 <= k < t0.len() && t0[k] == node;
                    assert(hist[k] == hist[head as int]);
                }
            }
            assert(hist.contains(node));
            assert(pushed@[node as int]);
            assert(!d0[node as int]);
            assert(hist.take(head + 1) =~= t0.push(node));
            assert forall|y: int| 0 <= y < n && #[trigger] d0[y] implies !is_dep(steps@, y, node as int) by {
                assert(t0.contains(y as usize));
                let k = choose|k: int| 0 <= k < t0.len() && t0[k] == y as usize;
                assert(hist[k] == y as usize);
                assert(pushed@[y]);
                if is_dep(steps@, y, node as int) {
                    let kk = choose|kk: int| 0 <= kk < deps(steps@, y).len() && deps(steps@, y)[kk] == node as int;
                    assert(d0[deps(steps@, y)[kk]]);
                }
            }
            assert forall|q: int| 0 <= q < sv@[node as int]@.len() implies !#[trigger] pushed@[sv@[node as int]@[q] as int] by {
                let x = sv@[node as int]@[q] as int;
                assert(is_dep(steps@, x, node as int));
                if pushed@[x] {
                    let kk = choose|kk: int| 0 <= kk < deps(steps@, x).len() && deps(steps@, x)[kk] == node as int;
                    assert(d0[deps(steps@, x)[kk]]);
                }
            }
        }
        head += 1;
        done.set(node, true);
        proof {
            assert forall|x: int| 0 <= x < n implies (#[trigger] done@[x] <==> hist.take(head as int).contains(x as usize)) by {
                if x == node as int {
                    assert(hist.take(head as int)[head - 1] == node);
                } else {
                    if t0.contains(x as usize) {
                        let k = choose|k: int| 0 <= k < t0.len() && t0[k] == x as usize;
                        assert(hist.take(head as int)[k] == x as usize);
                    }
                    if hist.take(head as int).contains(x as usize) {
                        let k = choose|k: int| 0 <= k < head && hist.take(head as int)[k] == x as usize;
                        assert(t0[k] == x as usize);
                    }
                }
            }
            assert(!is_dep(steps@, node as int, node as int)) by {
                if is_dep(steps@, node as int, node as int) {
                    let k = choose|k: int| 0 <= k < deps(steps@, node as int).len() && deps(steps@, node as int)[k] == node as int;
                    assert(d0[deps(steps@, node as int)[k]]);
                }
            }
        }
        let sl = &sv[node];
        let ghost lv0 = level@;
        let ghost par0 = parent@;
        let ghost gq0 = gq;
        let ghost sd = dependents(steps@, node as int, n as int);
        proof {
            assert forall|k: int| 0 <= k < head - 1 implies #[trigger] gq0[k] == t0[k] as int by {
                assert(t0[k] == hist[k]);
            }
            assert(gq0 == roots(steps@, n as int) + freed_upto(steps@, gq0, head - 1));
            assert(head - 1 < roots(steps@, n as int).len() + freed_upto(steps@, gq0, head - 1).len());
            assert(forall|k: int| 0 <= k < head - 1 ==> k < roots(steps@, n as int).len() + #[trigger] freed_upto(steps@, gq0, k).len());
            assert forall|x: int| 0 <= x < n implies #[trigger] lv0[x] as int == pred_max(deps(steps@, x), |j: int| d0[j], |j: int| lv0[j] as int) by {}
            assert(sd.take(0) =~= Seq::<int>::empty());
            assert(gq =~= roots(steps@, n as int) + freed_upto(steps@, gq0, head - 1) + ready_in(steps@, sd.take(0), gq0.take(head as int)));
            lemma_dependents_bounds(steps@, node as int, n as int);
            assert forall|x: int, k: int| 0 <= x < n && pushed@[x] && 0 <= k < deps(steps@, x).len()
                implies done@[#[trigger] deps(steps@, x)[k]] by {
                lemma_deps_bounds(steps@, x);
                assert(d0[deps(steps@, x)[k]]);
            }
            assert forall|x: int| 0 <= x < n && !pushed@[x] && (forall|k: int| 0 <= k < deps(steps@, x).len() ==> done@[#[trigger] deps(steps@, x)[k]])
                implies exists|q: int| 0 <= q < sl@.len() && #[trigger] sl@[q] == x as usize by {
                lemma_deps_bounds(steps@, x);
                if !is_dep(steps@, x, node as int) {
                    assert forall|k: int| 0 <= k < deps(steps@, x).len() implies d0[#[trigger] deps(steps@, x)[k]] by {
                        assert(done@[deps(steps@, x)[k]]);
                        if deps(steps@, x)[k] == node as int {
                            assert(deps(steps@, x).contains(node as int));
                        }
                    }
                    assert(pushed@[x]);
                }
                assert(sv@[node as int]@.contains(x as usize));
            }
            assert(sl@.take(0) =~= Seq::<usize>::empty());
        }
        let mut m: usize = 0;
        while m < sl.len()
            invariant
                n == steps.len(),
                deps_table(steps@, pv@),
                succ_table(steps@, sv@),
                node < n,
                sl@ == sv@[node as int]@,
                m <= sl.len(),
                level@.len() == n && parent@.len() == n && done@.len() == n && pushed@.len() == n,
                0 < head <= hist.len(),
                hist[head - 1] == node,
                forall|q: int| 0 <= q < hist.len() ==> #[trigger] hist[q] < n,
                hist.no_duplicates(),
                forall|x: int| 0 <= x < n ==> (#[trigger] pushed@[x] <==> hist.contains(x as usize)),
                forall|x: int| 0 <= x < n ==> (#[trigger] done@[x] <==> hist.take(head as int).contains(x as usize)),
                done@[node as int],
                !is_dep(steps@, node as int, node as int),
                forall|x: int, k: int| 0 <= x < n && pushed@[x] && 0 <= k < deps(steps@, x).len()
                    ==> done@[#[trigger] deps(steps@, x)[k]],
                forall|x: int| 0 <= x < n && !pushed@[x] && (forall|k: int| 0 <= k < deps(steps@, x).len() ==> done@[#[trigger] deps(steps@, x)[k]])
                    ==> exists|q: int| m <= q < sl@.len() && #[trigger] sl@[q] == x as usize,
                forall|x: int| 0 <= x < n && #[trigger] pushed@[x] ==> settled(steps@, x),
                forall|x: int| 0 <= x < n ==> #[trigger] level@[x] == if sl@.take(m as int).contains(x as usize) {
                    if lv0[x] >= lv0[node as int] + 1 { lv0[x] } else { (lv0[node as int] + 1) as usize }
                } else {
                    lv0[x]
                },
                forall|x: int| 0 <= x < n ==> #[trigger] parent@[x] == if sl@.take(m as int).contains(x as usize) && lv0[node as int] + 1 > lv0[x] {
                    node
                } else {
                    par0[x]
                },
                lv0[node as int] < head,
                level@[node as int] == lv0[node as int],
                lv0.len() == n && par0.len() == n,
                gq.len() == hist.len(),
                forall|k: int| 0 <= k < gq.len() ==> #[trigger] gq[k] == hist[k] as int,
                head <= gq0.len() <= gq.len(),
                dq@ == hist.skip(head as int),
                gq.take(head as int) == gq0.take(head as int),
                gq0[head - 1] == node as int,
                sd == dependents(steps@, node as int, n as int),
                sl@.len() == sd.len(),
                forall|q: int| 0 <= q < sl@.len() ==> #[trigger] sl@[q] as int == sd[q],
                forall|a: int, b: int| 0 <= a < b < sd.len() ==> #[trigger] sd[a] < #[trigger] sd[b],
                gq == roots(steps@, n as int) + freed_upto(steps@, gq0, head - 1) + ready_in(steps@, sd.take(m as int), gq0.take(head as int)),
                forall|q: int| m <= q < sl@.len() ==> !#[trigger] pushed@[sl@[q] as int],
                forall|x: int| 0 <= x < n && #[trigger] par0[x] != usize::MAX ==> exists|k: int| #![trigger gq0[k]]
                    0 <= k < head - 1 && gq0[k] == par0[x] as int
                    && forall|k2: int| 0 <= k2 < k ==> !(is_dep(steps@, x, #[trigger] gq0[k2]) && lv0[gq0[k2]] + 1 == lv0[x]),
            decreases sl.len() - m,
        {
            let succ = sl[m];
            proof {
                assert(succ < n && is_dep(steps@, succ as int, node as int));
                assert(succ != node);
                assert(sl@.take(m + 1) =~= sl@.take(m as int).push(succ));
            }
            proof {
                assert forall|x: usize| x != succ implies (sl@.take(m + 1).contains(x) == sl@.take(m as int).contains(x)) by {
                    let t1 = sl@.take(m + 1);
                    let t0 = sl@.take(m as int);
                    if t1.contains(x) {
                        let q = choose|q: int| 0 <= q < t1.len() && t1[q] == x;
                        assert(t0[q] == x);
                    }
                    if t0.contains(x) {
                        let q = choose|q: int| 0 <= q < t0.len() && t0[q] == x;
                        assert(t1[q] == x);
                    }
                }
                assert(sl@.take(m + 1).contains(succ)) by {
                    assert(sl@.take(m + 1)[m as int] == succ);
                }
            }
            proof {
                lemma_ready_in_step(steps@, sd, gq0.take(head as int), m as int);
                lemma_deps_bounds(steps@, succ as int);
                assert forall|k: int| 0 <= k < deps(steps@, succ as int).len()
                    implies (#[trigger] done@[deps(steps@, succ as int)[k]] <==> gq0.take(head as int).contains(deps(steps@, succ as int)[k])) by {
                    lemma_cast_contains(hist, gq, head as int, deps(steps@, succ as int)[k]);
                }
                assert(!pushed@[succ as int]);
            }
            let cand = level[node] + 1;
            if cand > level[succ] {
                level.set(succ, cand);
                parent.set(succ, node);
            }
            if !pushed[succ] {
                proof {
                    assert forall|k: int| 0 <= k < pv@[succ as int]@.len() implies #[trigger] pv@[succ as int]@[k] < done@.len() by {
                        lemma_deps_bounds(steps@, succ as int);
                    }
                }
                if all_marked(&pv[succ], &done) {
                    proof {
                        assert forall|k: int| 0 <= k < deps(steps@, succ as int).len() implies settled(steps@, #[trigger] deps(steps@, succ as int)[k]) by {
                            assert(pv@[succ as int]@[k] as int == deps(steps@, succ as int)[k]);
                            assert(done@[pv@[succ as int]@[k] as int]);
                            lemma_deps_bounds(steps@, succ as int);
                            let d = deps(steps@, succ as int)[k];
                            assert(hist.take(head as int).contains(d as usize));
                            let kk = choose|kk: int| 0 <= kk < head && hist.take(head as int)[kk] == d as usize;
                            assert(pushed@[hist[kk] as int]);
                        }
                        lemma_settled_closed(steps@, succ as int);
                    }
                    let ghost q0 = hist;
                    dq.push_back(succ);
                    proof {
                        hist = hist.push(succ);
                        assert(dq@ =~= hist.skip(head as int));
                    }
                    pushed.set(succ, true);
                    proof {
                        let g1 = gq;
                        gq = gq.push(succ as int);
                        assert(deps_within(steps@, sd[m as int], gq0.take(head as int))) by {
                            assert forall|k: int| 0 <= k < deps(steps@, succ as int).len()
                                implies gq0.take(head as int).contains(#[trigger] deps(steps@, succ as int)[k]) by {
                                assert(pv@[succ as int]@[k] as int == deps(steps@, succ as int)[k]);
                                assert(done@[pv@[succ as int]@[k] as int]);
                            }
                        }
                        assert(gq.take(head as int) =~= g1.take(head as int));
                        assert forall|q: int| m + 1 <= q < sl@.len() implies !#[trigger] pushed@[sl@[q] as int] by {
                            assert(sd[m as int] < sd[q]);
                        }
                        assert(hist.no_duplicates()) by {
                            assert forall|a: int, b: int| 0 <= a < hist.len() && 0 <= b < hist.len() && a != b
                                implies hist[a] != hist[b] by {
                                if a == q0.len() as int {
                                    assert(!q0.contains(succ));
                                    if b < q0.len() { assert(q0[b] == hist[b]); }
                                } else if b == q0.len() as int {
                                    assert(!q0.contains(succ));
                                    if a < q0.len() { assert(q0[a] == hist[a]); }
                                }
                            }
                        }
                        assert forall|x: int| 0 <= x < n implies (#[trigger] pushed@[x] <==> hist.contains(x as usize)) by {
                            if x == succ as int {
                                assert(hist[q0.len() as int] == succ);
                            } else {
                                if q0.contains(x as usize) {
                                    let k = choose|k: int| 0 <= k < q0.len() && q0[k] == x as usize;
                                    assert(hist[k] == x as usize);
                                }
                                if hist.contains(x as usize) {
                                    let k = choose|k: int| 0 <= k < hist.len() && hist[k] == x as usize;
                                    assert(q0[k] == x as usize);
                                }
                            }
                        }
                        assert(hist.take(head as int) =~= q0.take(head as int));
                        assert forall|x: int, k: int| 0 <= x < n && pushed@[x] && 0 <= k < deps(steps@, x).len()
                            implies done@[#[trigger] deps(steps@, x)[k]] by {
                            if x == succ as int {
                                assert(pv@[succ as int]@[k] as int == deps(steps@, succ as int)[k]);
                                assert(done@[pv@[succ as int]@[k] as int]);
                            }
                        }
                    }
                } else {
                    proof {
                        let k = choose|k: int| 0 <= k < pv@[succ as int]@.len() && !done@[#[trigger] pv@[succ as int]@[k] as int];
                        assert(pv@[succ as int]@[k] as int == deps(steps@, succ as int)[k]);
                        assert(!deps_within(steps@, sd[m as int], gq0.take(head as int)));
                        assert forall|q: int| m + 1 <= q < sl@.len() implies !#[trigger] pushed@[sl@[q] as int] by {}
                    }
                }
            }
            m += 1;
        }
        proof {
            assert(sl@.take(sl@.len() as int) =~= sl@);
            assert forall|x: int| 0 <= x < n implies #[trigger] level@[x] as int == pred_max(deps(steps@, x), |j: int| done@[j], |j: int| level@[j] as int) by {
                lemma_deps_bounds(steps@, x);
                assert(sl@.contains(x as usize) == deps(steps@, x).contains(node as int)) by {
                    if sl@.contains(x as usize) {
                        let q = choose|q: int| 0 <= q < sl@.len() && sl@[q] == x as usize;
                        assert(is_dep(steps@, sv@[node as int]@[q] as int, node as int));
                    }
                    if deps(steps@, x).contains(node as int) {
                        assert(is_dep(steps@, x, node as int));
                    }
                }
                assert forall|k: int| 0 <= k < deps(steps@, x).len() && deps(steps@, x)[k] != node as int
                    && (|j: int| d0[j])(#[trigger] deps(steps@, x)[k])
                    implies (|j: int| lv0[j] as int)(deps(steps@, x)[k]) == (|j: int| level@[j] as int)(deps(steps@, x)[k]) by {
                    let p = deps(steps@, x)[k];
                    if sl@.contains(p as usize) {
                        let q = choose|q: int| 0 <= q < sl@.len() && sl@[q] == p as usize;
                        assert(is_dep(steps@, p, node as int));
                        let kk = choose|kk: int| 0 <= kk < deps(steps@, p).len() && deps(steps@, p)[kk] == node as int;
                        assert(t0.contains(p as usize));
                        let z = choose|z: int| 0 <= z < t0.len() && t0[z] == p as usize;
                        assert(hist[z] == p as usize);
                        assert(pushed@[p]);
                        assert(d0[deps(steps@, p)[kk]]);
                    }
                }
                lemma_pred_max_mark(deps(steps@, x), |j: int| d0[j], |j: int| lv0[j] as int,
                    |j: int| done@[j], |j: int| level@[j] as int, node as int);
            }
        }
        proof {
            assert(sd.take(sd.len() as int) =~= sd);
            assert(gq.take(head - 1) =~= gq.take(head as int).take(head - 1));
            assert(gq0.take(head - 1) =~= gq0.take(head as int).take(head - 1));
            lemma_freed_upto_prefix(steps@, gq, gq0, head - 1);
            assert(gq[head - 1] == gq.take(head as int)[head - 1]);
            assert(gq0[head - 1] == gq0.take(head as int)[head - 1]);
            assert(freed(steps@, gq, head - 1) == ready_in(steps@, sd, gq0.take(head as int)));
            assert(gq == roots(steps@, n as int) + freed_upto(steps@, gq, head as int));
            assert forall|k: int| 0 <= k < head implies k < roots(steps@, n as int).len() + #[trigger] freed_upto(steps@, gq, k).len() by {
                assert(gq.take(k) =~= gq.take(head as int).take(k));
                assert(gq0.take(k) =~= gq0.take(head as int).take(k));
                lemma_freed_upto_prefix(steps@, gq, gq0, k);
            }
            assert forall|k2: int| 0 <= k2 < head - 1 implies #[trigger] d0[gq[k2]] && gq[k2] == gq0[k2] && 0 <= gq[k2] < n by {
                assert(gq[k2] == gq.take(head as int)[k2]);
                assert(gq0[k2] == gq0.take(head as int)[k2]);
                assert(gq0[k2] == t0[k2] as int);
                assert(t0.contains(t0[k2]));
            }
            assert forall|y: int| 0 <= y < n && #[trigger] d0[y] implies level@[y] == lv0[y] by {
                assert(!is_dep(steps@, y, node as int));
                if sl@.contains(y as usize) {
                    let q = choose|q: int| 0 <= q < sl@.len() && sl@[q] == y as usize;
                    assert(is_dep(steps@, sl@[q] as int, node as int));
                }
            }
            assert forall|x: int| 0 <= x < n && #[trigger] parent@[x] != usize::MAX implies exists|k: int| #![trigger gq[k]]
                0 <= k < head && gq[k] == parent@[x] as int
                && forall|k2: int| 0 <= k2 < k ==> !(is_dep(steps@, x, #[trigger] gq[k2]) && level@[gq[k2]] + 1 == level@[x]) by {
                if sl@.take(sl@.len() as int).contains(x as usize) && lv0[node as int] + 1 > lv0[x] {
                    assert(gq[head - 1] == node as int);
                    assert forall|k2: int| 0 <= k2 < head - 1 implies !(is_dep(steps@, x, #[trigger] gq[k2]) && level@[gq[k2]] + 1 == level@[x]) by {
                        let y = gq[k2];
                        assert(d0[y]);
                        if is_dep(steps@, x, y) {
                            let kk = choose|kk: int| 0 <= kk < deps(steps@, x).len() && deps(steps@, x)[kk] == y;
                            lemma_pred_max_ge(deps(steps@, x), |j: int| d0[j], |j: int| lv0[j] as int, kk);
                        }
                    }
                } else {
                    assert(parent@[x] == par0[x]);
                    assert(level@[x] == lv0[x]);
                    let k = choose|k: int| #![trigger gq0[k]]
                        0 <= k < head - 1 && gq0[k] == par0[x] as int
                        && forall|k2: int| 0 <= k2 < k ==> !(is_dep(steps@, x, #[trigger] gq0[k2]) && lv0[gq0[k2]] + 1 == lv0[x]);
                    assert(gq[k] == gq0[k]);
                    assert forall|k2: int| 0 <= k2 < k implies !(is_dep(steps@, x, #[trigger] gq[k2]) && level@[gq[k2]] + 1 == level@[x]) by {
                        assert(gq[k2] == gq0[k2]);
                        assert(d0[gq[k2]]);
                    }
                }
            }
        }
    }
    proof {
        assert(hist.take(head as int) =~= hist);
    }
    // Every step is done exactly when it is settled.
    proof {
        let dset = Set::new(|j: int| 0 <= j < n && done@[j]);
        assert(closed(steps@, dset)) by {
            assert forall|x: int| #![trigger dset.contains(x)]
                0 <= x < steps.len() && (forall|k: int| 0 <= k < deps(steps@, x).len() ==> dset.contains(#[trigger] deps(steps@, x)[k]))
                    implies dset.contains(x) by {
                assert forall|k: int| 0 <= k < deps(steps@, x).len() implies done@[#[trigger] deps(steps@, x)[k]] by {
                    assert(dset.contains(deps(steps@, x)[k]));
                }
                assert(pushed@[x]);
            }
        }
    }
    let ghost lvs = Seq::new(n as nat, |j: int| level@[j] as int);
    proof {
        let dset = Set::new(|j: int| 0 <= j < n && done@[j]);
        assert forall|x: int| 0 <= x < n implies (#[trigger] done@[x] <==> settled(steps@, x)) by {
            if settled(steps@, x) {
                assert(closed(steps@, dset));
                assert(dset.contains(x));
            }
            if done@[x] {
                assert(pushed@[x]);
            }
        }
        assert forall|x: int| 0 <= x < n implies #[trigger] lvs[x] == pred_max(deps(steps@, x), |j: int| settled(steps@, j), |j: int| lvs[j]) by {
            lemma_deps_bounds(steps@, x);
            lemma_pred_max_congruent(deps(steps@, x), |j: int| done@[j], |j: int| level@[j] as int,
                |j: int| settled(steps@, j), |j: int| lvs[j]);
        }
        assert(is_levels(steps@, lvs));
        lemma_levels_unique(steps@, lvs, dag_levels(steps@));
        assert forall|x: int| 0 <= x < n implies #[trigger] level@[x] < n by {
            lemma_distinct_bound(hist, n as int);
            if head < n {
                assert(level@[x] <= head);
            } else {
                assert(hist.len() == n);
                lemma_all_listed(hist, n as int, x);
                assert(hist.take(head as int) =~= hist);
                assert(done@[x]);
            }
        }
        assert forall|x: int| 0 <= x < n && #[trigger] parent@[x] != usize::MAX implies settled(steps@, parent@[x] as int) by {
            assert(done@[parent@[x] as int]);
        }
        assert(is_bfs_order(steps@, gq));
        assert forall|x: int| 0 <= x < n && #[trigger] parent@[x] != usize::MAX implies first_pred_below(steps@, gq, x, parent@[x] as int) by {
            let lv = dag_levels(steps@);
            assert(lvs[x] == lv[x]);
            let p = parent@[x] as int;
            assert(lvs[p] == lv[p]);
            let k = choose|k: int| #![trigger gq[k]]
                0 <= k < head && gq[k] == parent@[x] as int
                && forall|k2: int| 0 <= k2 < k ==> !(is_dep(steps@, x, #[trigger] gq[k2]) && level@[gq[k2]] + 1 == level@[x]);
            assert forall|k2: int| 0 <= k2 < k implies !(is_dep(steps@, x, #[trigger] gq[k2]) && lv[gq[k2]] + 1 == lv[x]) by {
                assert(gq[k2] == hist[k2] as int);
                assert(lvs[gq[k2]] == lv[gq[k2]]);
            }
        }
    }
    (level, parent, Ghost(gq))
}

/// A list of `n` distinct indices below `n` holds every one of them.
proof fn lemma_all_listed(q: Seq<usize>, n: int, x: int)
    requires
        q.no_duplicates(),
        q.len() == n,
        forall|k: int| 0 <= k < q.len() ==> #[trigger] q[k] < n,
        0 <= x < n,
    ensures
        q.contains(x as usize),
{
    if !q.contains(x as usize) {
        let f = |y: usize| y as int;
        let qi = q.map_values(f);
        q.lemma_no_duplicates_injective(f);
        qi.unique_seq_to_set();
        lemma_int_range(0, n);
        let r = set_int_range(0, n).remove(x);
        assert(qi.to_set().subset_of(r)) by {
            assert forall|y: int| qi.to_set().contains(y) implies r.contains(y) by {
                let k = choose|k: int| 0 <= k < qi.len() && qi[k] == y;
                assert(q[k] < n);
                if y == x {
                    assert(q[k] == x as usize);
                }
            }
        }
        lemma_len_subset(qi.to_set(), r);
    }
}


// ── Metrics ──────────────────────────────────────────────────────────────────

/// Structural metrics of a workflow's dependency graph.
pub struct DagMetrics {
    /// Number of steps.
    pub step_count: usize,
    /// Number of distinct agent ids among the steps.
    pub distinct_agents: usize,
    /// Largest number of steps on one level: the most that can run at once.
    pub max_parallel_width: usize,
    /// Number of steps on the longest dependency chain.
    pub critical_path_length: usize,
    /// The ids of the steps on the critical path, first step first.
    pub critical_path: Vec<String>,
    /// The step ids of each level, in step order; the steps of one level can
    /// run in parallel.
    pub parallel_groups: Vec<Vec<String>>,
    /// Number of optional steps.
    pub optional_count: usize,
    /// Some step declares a timeout.
    pub has_timeout_constraints: bool,
    /// Some step is named by two or more dependencies.
    pub has_branching: bool,
    /// Some step has two or more predecessors.
    pub has_fan_in: bool,
}

/// The largest entry of `s`, or 0.
pub open spec fn seq_max(s: Seq<int>) -> int
    decreases s.len(),
{
    if s.len() == 0 {
        0
    } else {
        let m = seq_max(s.drop_last());
        if m >= s.last() { m } else { s.last() }
    }
}

/// The highest level of any step.
pub open spec fn max_level(steps: Seq<WorkflowStep>) -> int {
    seq_max(dag_levels(steps))
}

/// The ids of the first `i` steps that lie on level `l`, in step order.
pub open spec fn level_group(steps: Seq<WorkflowStep>, l: int, i: int) -> Seq<String>
    decreases i,
{
    if i <= 0 {
        Seq::empty()
    } else if dag_levels(steps)[i - 1] == l {
        level_group(steps, l, i - 1).push(steps[i - 1].step_id)
    } else {
        level_group(steps, l, i - 1)
    }
}

/// The size of the largest of the level groups `0..l`.
pub open spec fn widest_group(steps: Seq<WorkflowStep>, l: int) -> int
    decreases l,
{
    if l <= 0 {
        0
    } else {
        let m = widest_group(steps, l - 1);
        let c = level_group(steps, l - 1, steps.len() as int).len() as int;
        if m >= c { m } else { c }
    }
}

/// The index of the last of the first `i` steps on level `l`, or -1.
pub open spec fn last_on_level(steps: Seq<WorkflowStep>, l: int, i: int) -> int
    decreases i,
{
    if i <= 0 {
        -1
    } else if dag_levels(steps)[i - 1] == l {
        i - 1
    } else {
        last_on_level(steps, l, i - 1)
    }
}

/// `c` is the level chain to `end` that, from each of its steps down, goes
/// to the first predecessor in `q` on the level below: the chain that a
/// longest-path pass over the steps in the order `q` records.
pub open spec fn is_first_chain(steps: Seq<WorkflowStep>, q: Seq<int>, c: Seq<int>, end: int) -> bool {
    &&& is_level_chain(steps, c, end)
    &&& forall|t: int| 1 <= t < c.len() ==> first_pred_below(steps, q, #[trigger] c[t], c[t - 1])
}

proof fn lemma_first_pred_unique(steps: Seq<WorkflowStep>, q: Seq<int>, x: int, p1: int, p2: int)
    requires
        first_pred_below(steps, q, x, p1),
        first_pred_below(steps, q, x, p2),
    ensures
        p1 == p2,
{
    let lv = dag_levels(steps);
    let k1 = choose|k: int| #![trigger q[k]]
        0 <= k < q.len() && q[k] == p1 && is_dep(steps, x, p1) && lv[p1] + 1 == lv[x]
        && forall|k2: int| 0 <= k2 < k ==> !(is_dep(steps, x, #[trigger] q[k2]) && lv[q[k2]] + 1 == lv[x]);
    let k2 = choose|k: int| #![trigger q[k]]
        0 <= k < q.len() && q[k] == p2 && is_dep(steps, x, p2) && lv[p2] + 1 == lv[x]
        && forall|k3: int| 0 <= k3 < k ==> !(is_dep(steps, x, #[trigger] q[k3]) && lv[q[k3]] + 1 == lv[x]);
    if k1 < k2 {
        assert(is_dep(steps, x, q[k1]) && lv[q[k1]] + 1 == lv[x]);
    } else if k2 < k1 {
        assert(is_dep(steps, x, q[k2]) && lv[q[k2]] + 1 == lv[x]);
    }
}

proof fn lemma_first_chain_agree(steps: Seq<WorkflowStep>, q: Seq<int>, c1: Seq<int>, c2: Seq<int>, end: int, t: int)
    requires
        is_first_chain(steps, q, c1, end),
        is_first_chain(steps, q, c2, end),
        0 <= t < c1.len(),
    ensures
        c1[t] == c2[t],
    decreases c1.len() - t,
{
    if t < c1.len() - 1 {
        lemma_first_chain_agree(steps, q, c1, c2, end, t + 1);
        assert(first_pred_below(steps, q, c1[t + 1], c1[t]));
        assert(first_pred_below(steps, q, c2[t + 1], c2[t]));
        lemma_first_pred_unique(steps, q, c1[t + 1], c1[t], c2[t]);
    }
}

/// Given the order of the sort, the chain that the first predecessors trace
/// down from a step is one chain.
pub proof fn lemma_first_chain_unique(steps: Seq<WorkflowStep>, q: Seq<int>, c1: Seq<int>, c2: Seq<int>, end: int)
    requires
        is_first_chain(steps, q, c1, end),
        is_first_chain(steps, q, c2, end),
    ensures
        c1 == c2,
{
    assert forall|t: int| 0 <= t < c1.len() implies c1[t] == c2[t] by {
        lemma_first_chain_agree(steps, q, c1, c2, end, t);
    }
    assert(c1 =~= c2);
}

proof fn lemma_reversed_first_chain(steps: Seq<WorkflowStep>, q: Seq<int>, cr: Seq<int>, end: int)
    requires
        0 <= end < steps.len(),
        cr.len() > 0,
        cr.len() == dag_levels(steps)[end] + 1,
        cr[0] == end,
        forall|t: int| 0 <= t < cr.len() ==> 0 <= #[trigger] cr[t] < steps.len()
            && dag_levels(steps)[cr[t]] + t == dag_levels(steps)[end],
        forall|t: int| 1 <= t < cr.len() ==> is_dep(steps, #[trigger] cr[t - 1], cr[t]) && settled(steps, cr[t]),
        forall|t: int| 1 <= t < cr.len() ==> first_pred_below(steps, q, #[trigger] cr[t - 1], cr[t]),
    ensures
        is_first_chain(steps, q, cr.reverse(), end),
{
    let c = cr.reverse();
    let len = cr.len() as int;
    assert forall|k: int| 0 <= k < c.len() implies 0 <= #[trigger] c[k] < steps.len() && dag_levels(steps)[c[k]] == k by {
        assert(c[k] == cr[len - 1 - k]);
    }
    assert forall|k: int| 1 <= k < c.len() implies is_dep(steps, #[trigger] c[k], c[k - 1]) && settled(steps, c[k - 1]) by {
        let t = len - k;
        assert(c[k] == cr[t - 1]);
        assert(c[k - 1] == cr[t]);
        assert(1 <= t < cr.len());
        assert(is_dep(steps, cr[t - 1], cr[t]) && settled(steps, cr[t]));
    }
    assert(c[len - 1] == cr[0]);
    assert(c.last() == cr[0]);
    assert forall|k: int| 1 <= k < c.len() implies first_pred_below(steps, q, #[trigger] c[k], c[k - 1]) by {
        let t = len - k;
        assert(c[k] == cr[t - 1]);
        assert(c[k - 1] == cr[t]);
        assert(1 <= t < cr.len());
        assert(first_pred_below(steps, q, cr[t - 1], cr[t]));
    }
}

/// `c` is a chain of steps ending at `end`, one per level from 0 up to the
/// level of `end`, each step a settled predecessor of the next.
pub open spec fn is_level_chain(steps: Seq<WorkflowStep>, c: Seq<int>, end: int) -> bool {
    &&& c.len() == dag_levels(steps)[end] + 1
    &&& c.last() == end
    &&& forall|k: int| 0 <= k < c.len() ==> 0 <= #[trigger] c[k] < steps.len() && dag_levels(steps)[c[k]] == k
    &&& forall|k: int| 1 <= k < c.len() ==> is_dep(steps, #[trigger] c[k], c[k - 1]) && settled(steps, c[k - 1])
}

/// The number of distinct values in `s`.
pub open spec fn distinct_count(s: Seq<Seq<char>>) -> int
    decreases s.len(),
{
    if s.len() == 0 {
        0
    } else {
        distinct_count(s.drop_last()) + if s.drop_last().contains(s.last()) { 0int } else { 1int }
    }
}

pub open spec fn agent_ids(steps: Seq<WorkflowStep>) -> Seq<Seq<char>> {
    steps.map_values(|s: WorkflowStep| s.agent_id@)
}

/// Two different dependencies (of one step or of two) name step `j`.
pub open spec fn named_twice(steps: Seq<WorkflowStep>, j: int) -> bool {
    exists|i1: int, k1: int, i2: int, k2: int|
        0 <= i1 < steps.len() && 0 <= k1 < deps(steps, i1).len()
        && 0 <= i2 < steps.len() && 0 <= k2 < deps(steps, i2).len()
        && (i1 != i2 || k1 != k2)
        && #[trigger] deps(steps, i1)[k1] == j && #[trigger] deps(steps, i2)[k2] == j
}

pub open spec fn optional_total(steps: Seq<WorkflowStep>) -> int {
    steps.filter(|s: WorkflowStep| s.optional).len() as int
}


/// The groups of step ids per level, levels `0..=top`.
fn level_groups(steps: &Vec<WorkflowStep>, level: &Vec<usize>, top: usize) -> (r: Vec<Vec<String>>)
    requires
        level@.len() == steps.len(),
        forall|i: int| 0 <= i < steps.len() ==> #[trigger] level@[i] as int == dag_levels(steps@)[i],
        top < steps.len(),
    ensures
        r@.len() == top + 1,
        forall|l: int| 0 <= l <= top ==> #[trigger] r@[l]@ == level_group(steps@, l, steps.len() as int),
{
    let n = steps.len();
    let mut r: Vec<Vec<String>> = Vec::new();
    let mut l: usize = 0;
    while l <= top
        invariant
            n == steps.len(),
            top < n,
            l <= top + 1,
            level@.len() == n,
            forall|i: int| 0 <= i < n ==> #[trigger] level@[i] as int == dag_levels(steps@)[i],
            r@.len() == l,
            forall|q: int| 0 <= q < l ==> #[trigger] r@[q]@ == level_group(steps@, q, n as int),
        decreases top + 1 - l,
    {
        let mut g: Vec<String> = Vec::new();
        let mut i: usize = 0;
        while i < n
            invariant
                n == steps.len(),
                i <= n,
                level@.len() == n,
                forall|q: int| 0 <= q < n ==> #[trigger] level@[q] as int == dag_levels(steps@)[q],
                g@ == level_group(steps@, l as int, i as int),
            decreases n - i,
        {
            if level[i] == l {
                g.push(steps[i].step_id.clone());
            }
            i += 1;
        }
        r.push(g);
        l += 1;
    }
    r
}

/// The largest entry, and the last position holding it.
fn max_and_last(level: &Vec<usize>) -> (r: (usize, usize))
    requires
        level@.len() > 0,
    ensures
        r.0 as int == seq_max(level@.map_values(|x: usize| x as int)),
        r.1 < level@.len(),
        level@[r.1 as int] == r.0,
        forall|q: int| r.1 < q < level@.len() ==> #[trigger] level@[q] != r.0,
        forall|q: int| 0 <= q < level@.len() ==> #[trigger] level@[q] <= r.0,
{
    let ghost li = level@.map_values(|x: usize| x as int);
    let mut best: usize = level[0];
    let mut at: usize = 0;
    let mut i: usize = 1;
    proof {
        assert(li.take(1).drop_last() =~= Seq::<int>::empty());
        assert(seq_max(li.take(1).drop_last()) == 0);
        assert(li.take(1).last() == li[0]);
        assert(seq_max(li.take(1)) == li[0]);
    }
    while i < level.len()
        invariant
            li == level@.map_values(|x: usize| x as int),
            1 <= i <= level@.len(),
            best as int == seq_max(li.take(i as int)),
            at < i,
            level@[at as int] == best,
            forall|q: int| at < q < i ==> #[trigger] level@[q] != best,
            forall|q: int| 0 <= q < i ==> #[trigger] level@[q] <= best,
        decreases level.len() - i,
    {
        proof {
            assert(li.take(i + 1).drop_last() =~= li.take(i as int));
        }
        if level[i] >= best {
            best = level[i];
            at = i;
        }
        i += 1;
    }
    proof {
        assert(li.take(level@.len() as int) =~= li);
    }
    (best, at)
}

/// The largest group size.
fn widest(steps: &Vec<WorkflowStep>, groups: &Vec<Vec<String>>) -> (w: usize)
    requires
        forall|l: int| 0 <= l < groups@.len() ==> #[trigger] groups@[l]@ == level_group(steps@, l, steps.len() as int),
    ensures
        w as int == widest_group(steps@, groups@.len() as int),
{
    let mut w: usize = 0;
    let mut l: usize = 0;
    while l < groups.len()
        invariant
            l <= groups@.len(),
            forall|q: int| 0 <= q < groups@.len() ==> #[trigger] groups@[q]@ == level_group(steps@, q, steps.len() as int),
            w as int == widest_group(steps@, l as int),
        decreases groups.len() - l,
    {
        if groups[l].len() > w {
            w = groups[l].len();
        }
        l += 1;
    }
    w
}


/// The step ids of the chain that reaches `end` through `parent`, first
/// step first.
fn critical_chain(steps: &Vec<WorkflowStep>, level: &Vec<usize>, parent: &Vec<usize>, end: usize, bfs: Ghost<Seq<int>>) -> (r: Vec<String>)
    requires
        forall|i: int| 0 <= i < steps.len() && #[trigger] parent@[i] != usize::MAX ==> first_pred_below(steps@, bfs@, i, parent@[i] as int),
        level@.len() == steps.len(),
        parent@.len() == steps.len(),
        end < steps.len(),
        forall|i: int| 0 <= i < steps.len() ==> #[trigger] level@[i] as int == dag_levels(steps@)[i],
        forall|i: int| 0 <= i < steps.len() ==> (#[trigger] parent@[i] == usize::MAX <==> level@[i] == 0),
        forall|i: int| 0 <= i < steps.len() && #[trigger] parent@[i] != usize::MAX ==> {
            let p = parent@[i] as int;
            &&& 0 <= p < steps.len()
            &&& settled(steps@, p)
            &&& is_dep(steps@, i, p)
            &&& level@[p] + 1 == level@[i]
        },
    ensures
        exists|c: Seq<int>| #[trigger] is_first_chain(steps@, bfs@, c, end as int)
            && r@ == c.map_values(|i: int| steps@[i].step_id),
{
    let n = steps.len();
    let mut rev: Vec<String> = Vec::new();
    let ghost mut cr: Seq<int> = Seq::empty();
    let mut cur = end;
    while cur != usize::MAX
        invariant
            n == steps.len(),
            level@.len() == n && parent@.len() == n,
            end < n,
            forall|i: int| 0 <= i < n ==> #[trigger] level@[i] as int == dag_levels(steps@)[i],
            forall|i: int| 0 <= i < n ==> (#[trigger] parent@[i] == usize::MAX <==> level@[i] == 0),
            forall|i: int| 0 <= i < n && #[trigger] parent@[i] != usize::MAX ==> {
                let p = parent@[i] as int;
                &&& 0 <= p < n
                &&& settled(steps@, p)
                &&& is_dep(steps@, i, p)
                &&& level@[p] + 1 == level@[i]
            },
            cr.len() == rev@.len(),
            forall|t: int| 0 <= t < cr.len() ==> 0 <= #[trigger] cr[t] < n && level@[cr[t]] + t == level@[end as int]
                && rev@[t] == steps@[cr[t]].step_id,
            cr.len() > 0 ==> cr[0] == end as int,
            forall|t: int| 1 <= t < cr.len() ==> is_dep(steps@, #[trigger] cr[t - 1], cr[t]) && settled(steps@, cr[t]),
            cur == usize::MAX ==> cr.len() == level@[end as int] + 1,
            cur != usize::MAX ==> cur < n && level@[cur as int] + cr.len() == level@[end as int],
            cur != usize::MAX && cr.len() > 0 ==> is_dep(steps@, cr.last(), cur as int) && settled(steps@, cur as int),
            cr.len() == 0 ==> cur == end,
            forall|i: int| 0 <= i < n && #[trigger] parent@[i] != usize::MAX ==> first_pred_below(steps@, bfs@, i, parent@[i] as int),
            forall|t: int| 1 <= t < cr.len() ==> first_pred_below(steps@, bfs@, #[trigger] cr[t - 1], cr[t]),
            cur != usize::MAX && cr.len() > 0 ==> first_pred_below(steps@, bfs@, cr.last(), cur as int),
        decreases if cur == usize::MAX { 0 } else { level@[cur as int] + 1 },
    {
        rev.push(steps[cur].step_id.clone());
        proof {
            let old_cr = cr;
            cr = cr.push(cur as int);
            assert forall|t: int| 1 <= t < cr.len() implies is_dep(steps@, #[trigger] cr[t - 1], cr[t]) && settled(steps@, cr[t]) by {
                if t < old_cr.len() {
                    assert(cr[t - 1] == old_cr[t - 1] && cr[t] == old_cr[t]);
                } else {
                    assert(cr[t - 1] == old_cr.last());
                }
            }
            assert forall|t: int| 1 <= t < cr.len() implies first_pred_below(steps@, bfs@, #[trigger] cr[t - 1], cr[t]) by {
                if t < old_cr.len() {
                    assert(cr[t - 1] == old_cr[t - 1] && cr[t] == old_cr[t]);
                } else {
                    assert(cr[t - 1] == old_cr.last());
                }
            }
        }
        cur = parent[cur];
    }
    let mut r: Vec<String> = Vec::new();
    let mut k = rev.len();
    while k > 0
        invariant
            k <= rev@.len(),
            r@.len() == rev@.len() - k,
            forall|t: int| 0 <= t < r@.len() ==> #[trigger] r@[t] == rev@[rev@.len() - 1 - t],
        decreases k,
    {
        k -= 1;
        r.push(rev[k].clone());
    }
    let ghost c = cr.reverse();
    proof {
        let len = cr.len();
        assert forall|t: int| 0 <= t < cr.len() implies 0 <= #[trigger] cr[t] < steps.len()
            && dag_levels(steps@)[cr[t]] + t == dag_levels(steps@)[end as int] by {
            assert(level@[cr[t]] as int == dag_levels(steps@)[cr[t]]);
        }
        lemma_reversed_first_chain(steps@, bfs@, cr, end as int);
        assert(r@ =~= c.map_values(|i: int| steps@[i].step_id)) by {
            assert forall|t: int| 0 <= t < r@.len() implies r@[t] == c.map_values(|i: int| steps@[i].step_id)[t] by {
                assert(c[t] == cr[len - 1 - t]);
            }
        }
    }
    r
}

/// The number of distinct agent ids.
fn count_distinct_agents(steps: &Vec<WorkflowStep>) -> (r: usize)
    ensures
        r as int == distinct_count(agent_ids(steps@)),
{
    let ghost a = agent_ids(steps@);
    let mut count: usize = 0;
    let mut i: usize = 0;
    while i < steps.len()
        invariant
            a == agent_ids(steps@),
            i <= steps.len(),
            count as int == distinct_count(a.take(i as int)),
            count <= i,
        decreases steps.len() - i,
    {
        let mut seen = false;
        let mut j: usize = 0;
        while j < i
            invariant
                a == agent_ids(steps@),
                j <= i < steps.len(),
                seen == exists|q: int| 0 <= q < j && #[trigger] a[q] == a[i as int],
            decreases i - j,
        {
            proof {
                assert(a[j as int] == steps@[j as int].agent_id@);
                assert(a[i as int] == steps@[i as int].agent_id@);
            }
            if str_eq(steps[j].agent_id.as_str(), steps[i].agent_id.as_str()) {
                seen = true;
            }
            j += 1;
        }
        proof {
            let t = a.take(i + 1);
            assert(t.drop_last() =~= a.take(i as int));
            assert(t.last() == a[i as int]);
            if seen {
                let q = choose|q: int| 0 <= q < i && #[trigger] a[q] == a[i as int];
                assert(a.take(i as int)[q] == a[i as int]);
            } else {
                assert(!a.take(i as int).contains(a[i as int]));
            }
        }
        if !seen {
            count += 1;
        }
        i += 1;
    }
    proof {
        assert(a.take(steps.len() as int) =~= a);
    }
    count
}


/// Dependency `k` of step `i` names step `j`.
pub open spec fn occurs(steps: Seq<WorkflowStep>, j: int, i: int, k: int) -> bool {
    0 <= i < steps.len() && 0 <= k < deps(steps, i).len() && deps(steps, i)[k] == j
}

/// Whether two different dependencies name step `j`.
fn occurs_twice(steps: &Vec<WorkflowStep>, pv: &Vec<Vec<usize>>, j: usize) -> (b: bool)
    requires
        deps_table(steps@, pv@),
    ensures
        b == named_twice(steps@, j as int),
{
    let n = pv.len();
    let mut found = false;
    let ghost mut fi: int = 0;
    let ghost mut fk: int = 0;
    let mut i: usize = 0;
    while i < n
        invariant
            deps_table(steps@, pv@),
            n == steps.len(),
            i <= n,
            !found ==> forall|a: int, c: int| a < i && #[trigger] occurs(steps@, j as int, a, c) ==> false,
            found ==> occurs(steps@, j as int, fi, fk) && fi < i,
            found ==> forall|a: int, c: int| a < i && #[trigger] occurs(steps@, j as int, a, c) ==> a == fi && c == fk,
        decreases n - i,
    {
        let row = &pv[i];
        let mut k: usize = 0;
        while k < row.len()
            invariant
                deps_table(steps@, pv@),
                n == steps.len(),
                i < n,
                row@ == pv@[i as int]@,
                k <= row.len(),
                !found ==> forall|a: int, c: int| (a < i || (a == i && c < k)) && #[trigger] occurs(steps@, j as int, a, c) ==> false,
                found ==> occurs(steps@, j as int, fi, fk) && (fi < i || (fi == i && fk < k)),
                found ==> forall|a: int, c: int| (a < i || (a == i && c < k)) && #[trigger] occurs(steps@, j as int, a, c)
                    ==> a == fi && c == fk,
            decreases row.len() - k,
        {
            proof {
                assert(row@[k as int] as int == deps(steps@, i as int)[k as int]);
            }
            if row[k] == j {
                if found {
                    proof {
                        assert(occurs(steps@, j as int, i as int, k as int));
                        assert(named_twice(steps@, j as int)) by {
                            assert(deps(steps@, fi)[fk] == j as int);
                            assert(deps(steps@, i as int)[k as int] == j as int);
                        }
                    }
                    return true;
                }
                found = true;
                proof {
                    fi = i as int;
                    fk = k as int;
                }
            }
            k += 1;
        }
        proof {
            assert forall|a: int, c: int| a < i + 1 && #[trigger] occurs(steps@, j as int, a, c) implies (a < i || (a == i && c < k)) by {
                if a == i {
                    assert(c < deps(steps@, i as int).len());
                }
            }
        }
        i += 1;
    }
    proof {
        if named_twice(steps@, j as int) {
            let (i1, k1, i2, k2) = choose|i1: int, k1: int, i2: int, k2: int|
                0 <= i1 < steps.len() && 0 <= k1 < deps(steps@, i1).len()
                && 0 <= i2 < steps.len() && 0 <= k2 < deps(steps@, i2).len()
                && (i1 != i2 || k1 != k2)
                && #[trigger] deps(steps@, i1)[k1] == j as int && #[trigger] deps(steps@, i2)[k2] == j as int;
            assert(occurs(steps@, j as int, i1, k1));
            assert(occurs(steps@, j as int, i2, k2));
        }
    }
    false
}

/// Whether some step is named by two different dependencies.
fn any_named_twice(steps: &Vec<WorkflowStep>, pv: &Vec<Vec<usize>>) -> (b: bool)
    requires
        deps_table(steps@, pv@),
    ensures
        b == exists|j: int| 0 <= j < steps.len() && #[trigger] named_twice(steps@, j),
{
    let mut j: usize = 0;
    while j < steps.len()
        invariant
            deps_table(steps@, pv@),
            j <= steps.len(),
            forall|q: int| 0 <= q < j ==> !#[trigger] named_twice(steps@, q),
        decreases steps.len() - j,
    {
        if occurs_twice(steps, pv, j) {
            return true;
        }
        j += 1;
    }
    false
}

/// Whether some step has two or more predecessors.
fn any_fan_in(steps: &Vec<WorkflowStep>, pv: &Vec<Vec<usize>>) -> (b: bool)
    requires
        deps_table(steps@, pv@),
    ensures
        b == exists|i: int| 0 <= i < steps.len() && #[trigger] deps(steps@, i).len() >= 2,
{
    let mut i: usize = 0;
    while i < pv.len()
        invariant
            deps_table(steps@, pv@),
            i <= pv.len(),
            forall|q: int| 0 <= q < i ==> #[trigger] deps(steps@, q).len() < 2,
        decreases pv.len() - i,
    {
        if pv[i].len() >= 2 {
            return true;
        }
        i += 1;
    }
    false
}

/// The number of optional steps.
fn count_optional(steps: &Vec<WorkflowStep>) -> (r: usize)
    ensures
        r as int == optional_total(steps@),
{
    let ghost pred = |s: WorkflowStep| s.optional;
    let mut c: usize = 0;
    let mut i: usize = 0;
    proof {
        reveal(Seq::filter);
        assert(steps@.take(0) =~= Seq::<WorkflowStep>::empty());
    }
    while i < steps.len()
        invariant
            pred == (|s: WorkflowStep| s.optional),
            i <= steps.len(),
            c as int == steps@.take(i as int).filter(pred).len(),
            c <= i,
        decreases steps.len() - i,
    {
        proof {
            assert(steps@.take(i + 1) =~= steps@.take(i as int).push(steps@[i as int]));
            steps@.take(i as int).lemma_filter_push(steps@[i as int], pred);
        }
        if steps[i].optional {
            c += 1;
        }
        i += 1;
    }
    proof {
        assert(steps@.take(steps.len() as int) =~= steps@);
    }
    c
}

/// Whether some step declares a timeout.
fn any_timeout(steps: &Vec<WorkflowStep>) -> (b: bool)
    ensures
        b == exists|i: int| 0 <= i < steps.len() && #[trigger] steps@[i].timeout_secs is Some,
{
    let mut i: usize = 0;
    while i < steps.len()
        invariant
            i <= steps.len(),
            forall|q: int| 0 <= q < i ==> #[trigger] steps@[q].timeout_secs is None,
        decreases steps.len() - i,
    {
        if steps[i].timeout_secs.is_some() {
            return true;
        }
        i += 1;
    }
    false
}

proof fn lemma_last_on_level(steps: Seq<WorkflowStep>, l: int, i: int, at: int)
    requires
        0 <= at < i <= steps.len(),
        dag_levels(steps)[at] == l,
        forall|q: int| at < q < i ==> #[trigger] dag_levels(steps)[q] != l,
    ensures
        last_on_level(steps, l, i) == at,
    decreases i,
{
    if i - 1 > at {
        lemma_last_on_level(steps, l, i - 1, at);
    }
}


/// The metrics of the dependency graph of `def`. Levels are assigned by a
/// breadth-first topological sort; the critical path is a longest chain,
/// ending at the last step on the highest level and going, from each step
/// down, to the predecessor on the level below that the sort took first. A
/// workflow without steps has all metrics zero and empty.
pub fn analyse_dag(def: &WorkflowDef) -> (m: DagMetrics)
    ensures
        is_levels(def.steps@, dag_levels(def.steps@)),
        ({
            let steps = def.steps@;
            let n = steps.len();
            &&& m.step_count == n
            &&& m.distinct_agents == distinct_count(agent_ids(steps))
            &&& m.optional_count == optional_total(steps)
            &&& m.has_timeout_constraints == exists|i: int| 0 <= i < n && #[trigger] steps[i].timeout_secs is Some
            &&& m.has_branching == exists|j: int| 0 <= j < n && #[trigger] named_twice(steps, j)
            &&& m.has_fan_in == exists|i: int| 0 <= i < n && #[trigger] deps(steps, i).len() >= 2
            &&& n == 0 ==> {
                &&& m.max_parallel_width == 0
                &&& m.critical_path_length == 0
                &&& m.critical_path@.len() == 0
                &&& m.parallel_groups@.len() == 0
            }
            &&& n > 0 ==> {
                &&& m.parallel_groups@.len() == max_level(steps) + 1
                &&& forall|l: int| 0 <= l <= max_level(steps) ==> #[trigger] m.parallel_groups@[l]@ == level_group(steps, l, n as int)
                &&& m.max_parallel_width == widest_group(steps, max_level(steps) + 1)
                &&& m.critical_path_length == max_level(steps) + 1
                &&& exists|q: Seq<int>, c: Seq<int>| is_bfs_order(steps, q)
                    && #[trigger] is_first_chain(steps, q, c, last_on_level(steps, max_level(steps), n as int))
                    && m.critical_path@ == c.map_values(|i: int| steps[i].step_id)
            }
        }),
{
    let steps = &def.steps;
    let n = steps.len();
    if n == 0 {
        proof {
            assert(steps@.filter(|s: WorkflowStep| s.optional) =~= Seq::<WorkflowStep>::empty()) by {
                reveal(Seq::filter);
            }
            assert(is_levels(steps@, Seq::<int>::empty()));
        }
        return DagMetrics {
            step_count: 0,
            distinct_agents: 0,
            max_parallel_width: 0,
            critical_path_length: 0,
            critical_path: Vec::new(),
            parallel_groups: Vec::new(),
            optional_count: 0,
            has_timeout_constraints: false,
            has_branching: false,
            has_fan_in: false,
        };
    }
    let pv = deps_of_all(steps);
    let mut sv: Vec<Vec<usize>> = Vec::new();
    let mut j: usize = 0;
    while j < n
        invariant
            n == steps.len(),
            deps_table(steps@, pv@),
            j <= n,
            sv@.len() == j,
            forall|a: int, q: int| 0 <= a < j && 0 <= q < sv@[a]@.len()
                ==> #[trigger] sv@[a]@[q] < steps.len() && is_dep(steps@, sv@[a]@[q] as int, a),
            forall|a: int, x: int| 0 <= a < j && 0 <= x < steps.len() && #[trigger] is_dep(steps@, x, a)
                ==> sv@[a]@.contains(x as usize),
            forall|a: int| 0 <= a < j ==> #[trigger] sv@[a]@.len() == dependents(steps@, a, steps.len() as int).len(),
            forall|a: int, q: int| 0 <= a < j && 0 <= q < sv@[a]@.len()
                ==> #[trigger] sv@[a]@[q] as int == dependents(steps@, a, steps.len() as int)[q],
        decreases n - j,
    {
        let row = successors_of(steps, &pv, j);
        sv.push(row);
        j += 1;
    }
    let (level, parent, bfs) = topo_levels(steps, &pv, &sv);
    let (top, end) = max_and_last(&level);
    proof {
        assert(level@.map_values(|x: usize| x as int) =~= dag_levels(steps@));
        lemma_last_on_level(steps@, top as int, n as int, end as int);
    }
    let groups = level_groups(steps, &level, top);
    let width = widest(steps, &groups);
    let critical_path = critical_chain(steps, &level, &parent, end, bfs);
    DagMetrics {
        step_count: n,
        distinct_agents: count_distinct_agents(steps),
        max_parallel_width: width,
        critical_path_length: top + 1,
        critical_path,
        parallel_groups: groups,
        optional_count: count_optional(steps),
        has_timeout_constraints: any_timeout(steps),
        has_branching: any_named_twice(steps, &pv),
        has_fan_in: any_fan_in(steps, &pv),
    }
}


// ── Governance ───────────────────────────────────────────────────────────────

/// The workflow checked against its tenant's policy.
pub struct GovernanceCheck {
    /// Every agent of the workflow may run.
    pub all_agents_allowed: bool,
    /// The agents of the refused steps, in step order.
    pub blocked_agents: Vec<String>,
    /// The data residency of the policy is this node's region, `"any"`, or unset.
    pub data_residency_ok: bool,
    /// The policy asks for full audit logging.
    pub audit_required: bool,
    /// How locked-down the policy is, in percent: audit and residency count
    /// 25 each, an allow list 20, instance and token caps 15 each.
    pub strictness_pct: u32,
    /// Advisories, one per refused step, then one for a residency mismatch.
    pub policy_warnings: Vec<String>,
}

/// What `{:?}` renders of a string: the string quoted, with the escapes of
/// `str::escape_debug`.
pub uninterp spec fn debug_str(s: Seq<char>) -> Seq<char>;

/// The `Debug` rendering of `s`, from std's formatter.
#[verifier::external_body]
fn debug_quoted(s: &str) -> (r: String)
    ensures
        r@ == debug_str(s@),
{
    format!("{:?}", s)
}

/// The agents of the first `i` steps that the policy refuses.
pub open spec fn blocked_upto(p: TenantPolicy, steps: Seq<WorkflowStep>, region: Seq<char>, i: int) -> Seq<String>
    decreases i,
{
    if i <= 0 {
        Seq::empty()
    } else if run_verdict(p, steps[i - 1].agent_id@, region, 0) is Some {
        blocked_upto(p, steps, region, i - 1).push(steps[i - 1].agent_id)
    } else {
        blocked_upto(p, steps, region, i - 1)
    }
}

/// The warnings for the refused steps among the first `i`.
pub open spec fn step_warnings(p: TenantPolicy, steps: Seq<WorkflowStep>, region: Seq<char>, i: int) -> Seq<Seq<char>>
    decreases i,
{
    if i <= 0 {
        Seq::empty()
    } else {
        let w = step_warnings(p, steps, region, i - 1);
        match run_verdict(p, steps[i - 1].agent_id@, region, 0) {
            Some((_, reason)) => w.push("Step '"@ + steps[i - 1].step_id@ + "': "@ + reason),
            None => w,
        }
    }
}

pub open spec fn residency_ok(p: TenantPolicy, region: Seq<char>) -> bool {
    match p.data_residency {
        None => true,
        Some(r) => r@ == region || r@ == "any"@,
    }
}

pub open spec fn strictness_of(p: TenantPolicy) -> int {
    (if p.require_audit { 25int } else { 0int }) + (if p.data_residency is Some { 25int } else { 0int })
        + (if p.allowed_agents is Some { 20int } else { 0int }) + (if p.max_instances is Some { 15int } else { 0int })
        + (if p.max_tokens_per_day is Some { 15int } else { 0int })
}

/// Checks every step of `def` against the tenant policy `p` on a node of
/// `node_region`.
pub fn check_governance(p: &TenantPolicy, def: &WorkflowDef, node_region: &str) -> (g: GovernanceCheck)
    ensures
        ({
            let steps = def.steps@;
            let n = steps.len() as int;
            &&& g.blocked_agents@ == blocked_upto(*p, steps, node_region@, n)
            &&& g.all_agents_allowed == (blocked_upto(*p, steps, node_region@, n).len() == 0)
            &&& g.data_residency_ok == residency_ok(*p, node_region@)
            &&& g.audit_required == p.require_audit
            &&& g.strictness_pct == strictness_of(*p)
            &&& g.policy_warnings@.map_values(|w: String| w@) == if residency_ok(*p, node_region@) {
                step_warnings(*p, steps, node_region@, n)
            } else {
                step_warnings(*p, steps, node_region@, n).push("Data residency 'Some("@
                    + debug_str(p.data_residency->0@) + ")' does not match node region '"@ + node_region@
                    + "' \u{2014} workflow may be rejected"@)
            }
        }),
{
    let engine = PolicyEngine::new(String::new());
    let steps = &def.steps;
    let mut blocked: Vec<String> = Vec::new();
    let mut warnings: Vec<String> = Vec::new();
    let mut i: usize = 0;
    while i < steps.len()
        invariant
            i <= steps.len(),
            blocked@ == blocked_upto(*p, steps@, node_region@, i as int),
            warnings@.map_values(|w: String| w@) == step_warnings(*p, steps@, node_region@, i as int),
        decreases steps.len() - i,
    {
        let step = &steps[i];
        match engine.check_run(p, step.agent_id.as_str(), node_region, 0) {
            PolicyDecision::Deny { reason, .. } => {
                blocked.push(step.agent_id.clone());
                let mut w = String::from_str("Step '");
                w.append(step.step_id.as_str());
                w.append("': ");
                w.append(reason.as_str());
                let ghost w0 = warnings@;
                warnings.push(w);
                proof {
                    assert(warnings@.map_values(|w: String| w@) =~= w0.map_values(|w: String| w@).push(w@));
                }
            },
            PolicyDecision::Allow => {},
        }
        i += 1;
    }
    let data_residency_ok = match &p.data_residency {
        None => true,
        Some(r) => str_eq(r.as_str(), node_region) || str_eq(r.as_str(), "any"),
    };
    if !data_residency_ok {
        if let Some(r) = &p.data_residency {
            let mut w = String::from_str("Data residency 'Some(");
            let q = debug_quoted(r.as_str());
            w.append(q.as_str());
            w.append(")' does not match node region '");
            w.append(node_region);
            w.append("' \u{2014} workflow may be rejected");
            let ghost w0 = warnings@;
            warnings.push(w);
            proof {
                assert(warnings@.map_values(|w: String| w@) =~= w0.map_values(|w: String| w@).push(w@));
            }
        }
    }
    let mut strictness: u32 = 0;
    if p.require_audit {
        strictness += 25;
    }
    if p.data_residency.is_some() {
        strictness += 25;
    }
    if p.allowed_agents.is_some() {
        strictness += 20;
    }
    if p.max_instances.is_some() {
        strictness += 15;
    }
    if p.max_tokens_per_day.is_some() {
        strictness += 15;
    }
    GovernanceCheck {
        all_agents_allowed: blocked.len() == 0,
        blocked_agents: blocked,
        data_residency_ok,
        audit_required: p.require_audit,
        strictness_pct: strictness,
        policy_warnings: warnings,
    }
}


// ── Recommended configuration ────────────────────────────────────────────────

/// The execution architectures a workflow can run under.
pub enum ArchitectureType {
    /// One sequential path, one agent, no error tolerance.
    Deterministic,
    /// One agent over several tool-like steps, with light branching.
    SingleAgent,
    /// Several distinct agents running in parallel.
    MultiAgent,
}

impl ArchitectureType {
    /// The name of the architecture, as it is written in configuration.
    pub fn name(&self) -> (r: String)
        ensures
            r@ == arch_name(*self),
    {
        match self {
            ArchitectureType::Deterministic => String::from_str("deterministic"),
            ArchitectureType::SingleAgent => String::from_str("single_agent"),
            ArchitectureType::MultiAgent => String::from_str("multi_agent"),
        }
    }
}

pub open spec fn arch_name(a: ArchitectureType) -> Seq<char> {
    match a {
        ArchitectureType::Deterministic => "deterministic"@,
        ArchitectureType::SingleAgent => "single_agent"@,
        ArchitectureType::MultiAgent => "multi_agent"@,
    }
}

/// Configuration recommended for the chosen architecture.
pub struct RecommendedConfig {
    /// Steps that may be retried on failure.
    pub retry_eligible_steps: Vec<String>,
    /// Most agents that should run at once.
    pub max_concurrency: usize,
    /// Abort the whole workflow on the first failing step.
    pub fail_fast: bool,
    /// Steps that can start together, per phase.
    pub parallel_groups: Vec<Vec<String>>,
    /// The steps whose latency bounds the workflow's.
    pub critical_path: Vec<String>,
    /// Number of sequential phases.
    pub phase_count: usize,
    /// Optional steps whose agent the policy refuses.
    pub governance_skip_candidates: Vec<String>,
    /// Sum of the timeouts on the critical path, when any is set.
    pub suggested_total_timeout_secs: Option<u64>,
}

/// The ids of the steps that may be retried: optional ones, and those off
/// the critical path `cp`.
pub open spec fn retry_ids(steps: Seq<WorkflowStep>, cp: Seq<String>) -> Seq<String> {
    steps.filter(|s: WorkflowStep| s.optional || !lists(cp, s.step_id@)).map_values(|s: WorkflowStep| s.step_id)
}

/// The ids of the optional steps whose agent is among `blocked`.
pub open spec fn skip_ids(steps: Seq<WorkflowStep>, blocked: Seq<String>) -> Seq<String> {
    steps.filter(|s: WorkflowStep| s.optional && lists(blocked, s.agent_id@)).map_values(|s: WorkflowStep| s.step_id)
}

/// Index of the first step at or after `i` whose id is `id`, or -1.
pub open spec fn first_step_from(steps: Seq<WorkflowStep>, id: Seq<char>, i: int) -> int
    decreases steps.len() - i,
{
    if i < 0 || i >= steps.len() {
        -1
    } else if steps[i].step_id@ == id {
        i
    } else {
        first_step_from(steps, id, i + 1)
    }
}

/// The timeouts of the steps on the path `cp`, each step found by its id
/// (the first step with that id), skipping steps without one.
pub open spec fn path_timeouts(steps: Seq<WorkflowStep>, cp: Seq<String>) -> Seq<u64>
    decreases cp.len(),
{
    if cp.len() == 0 {
        Seq::empty()
    } else {
        let r = path_timeouts(steps, cp.drop_last());
        let j = first_step_from(steps, cp.last()@, 0);
        if j >= 0 && steps[j].timeout_secs is Some {
            r.push(steps[j].timeout_secs->0)
        } else {
            r
        }
    }
}

pub open spec fn sum_u64(s: Seq<u64>) -> int
    decreases s.len(),
{
    if s.len() == 0 { 0 } else { sum_u64(s.drop_last()) + s.last() }
}

proof fn lemma_first_step_from(steps: Seq<WorkflowStep>, id: Seq<char>, i: int)
    requires
        0 <= i <= steps.len(),
    ensures
        first_step_from(steps, id, i) == -1 || (i <= first_step_from(steps, id, i) < steps.len()),
    decreases steps.len() - i,
{
    if i < steps.len() && steps[i].step_id@ != id {
        lemma_first_step_from(steps, id, i + 1);
    }
}

fn first_step(steps: &Vec<WorkflowStep>, id: &str) -> (r: Option<usize>)
    ensures
        match r {
            Some(j) => j < steps.len() && j as int == first_step_from(steps@, id@, 0),
            None => first_step_from(steps@, id@, 0) == -1,
        },
{
    let mut i: usize = 0;
    while i < steps.len()
        invariant
            i <= steps.len(),
            first_step_from(steps@, id@, 0) == first_step_from(steps@, id@, i as int),
        decreases steps.len() - i,
    {
        if str_eq(steps[i].step_id.as_str(), id) {
            return Some(i);
        }
        i += 1;
    }
    None
}

/// The ids of the retry-eligible steps.
fn retry_eligible(steps: &Vec<WorkflowStep>, cp: &Vec<String>) -> (r: Vec<String>)
    ensures
        r@ == retry_ids(steps@, cp@),
{
    let ghost pred = |s: WorkflowStep| s.optional || !lists(cp@, s.step_id@);
    let mut r: Vec<String> = Vec::new();
    let mut i: usize = 0;
    proof {
        reveal(Seq::filter);
        assert(steps@.take(0).filter(pred) =~= Seq::<WorkflowStep>::empty());
    }
    while i < steps.len()
        invariant
            pred == (|s: WorkflowStep| s.optional || !lists(cp@, s.step_id@)),
            i <= steps.len(),
            r@ == steps@.take(i as int).filter(pred).map_values(|s: WorkflowStep| s.step_id),
        decreases steps.len() - i,
    {
        let ghost f = steps@.take(i as int).filter(pred);
        proof {
            assert(steps@.take(i + 1) =~= steps@.take(i as int).push(steps@[i as int]));
            steps@.take(i as int).lemma_filter_push(steps@[i as int], pred);
        }
        if steps[i].optional || !list_contains(cp, steps[i].step_id.as_str()) {
            r.push(steps[i].step_id.clone());
            proof {
                assert(f.push(steps@[i as int]).map_values(|s: WorkflowStep| s.step_id)
                    =~= f.map_values(|s: WorkflowStep| s.step_id).push(steps@[i as int].step_id));
            }
        }
        i += 1;
    }
    proof {
        assert(steps@.take(steps.len() as int) =~= steps@);
    }
    r
}

/// The ids of the optional steps whose agent is blocked.
fn skip_candidates(steps: &Vec<WorkflowStep>, blocked: &Vec<String>) -> (r: Vec<String>)
    ensures
        r@ == skip_ids(steps@, blocked@),
{
    let ghost pred = |s: WorkflowStep| s.optional && lists(blocked@, s.agent_id@);
    let mut r: Vec<String> = Vec::new();
    let mut i: usize = 0;
    proof {
        reveal(Seq::filter);
        assert(steps@.take(0).filter(pred) =~= Seq::<WorkflowStep>::empty());
    }
    while i < steps.len()
        invariant
            pred == (|s: WorkflowStep| s.optional && lists(blocked@, s.agent_id@)),
            i <= steps.len(),
            r@ == steps@.take(i as int).filter(pred).map_values(|s: WorkflowStep| s.step_id),
        decreases steps.len() - i,
    {
        let ghost f = steps@.take(i as int).filter(pred);
        proof {
            assert(steps@.take(i + 1) =~= steps@.take(i as int).push(steps@[i as int]));
            steps@.take(i as int).lemma_filter_push(steps@[i as int], pred);
        }
        if steps[i].optional && list_contains(blocked, steps[i].agent_id.as_str()) {
            r.push(steps[i].step_id.clone());
            proof {
                assert(f.push(steps@[i as int]).map_values(|s: WorkflowStep| s.step_id)
                    =~= f.map_values(|s: WorkflowStep| s.step_id).push(steps@[i as int].step_id));
            }
        }
        i += 1;
    }
    proof {
        assert(steps@.take(steps.len() as int) =~= steps@);
    }
    r
}

/// The sum of the critical-path timeouts, or `None` when no step on the path
/// has one.
fn suggested_timeout(steps: &Vec<WorkflowStep>, cp: &Vec<String>) -> (r: Option<u64>)
    requires
        sum_u64(path_timeouts(steps@, cp@)) <= u64::MAX,
    ensures
        r == if path_timeouts(steps@, cp@).len() == 0 {
            None::<u64>
        } else {
            Some(sum_u64(path_timeouts(steps@, cp@)) as u64)
        },
{
    let mut count: usize = 0;
    let mut total: u64 = 0;
    let mut k: usize = 0;
    while k < cp.len()
        invariant
            k <= cp.len(),
            sum_u64(path_timeouts(steps@, cp@)) <= u64::MAX,
            count as int == path_timeouts(steps@, cp@.take(k as int)).len(),
            total as int == sum_u64(path_timeouts(steps@, cp@.take(k as int))),
            count <= k,
        decreases cp.len() - k,
    {
        proof {
            lemma_path_timeouts_step(steps@, cp@, k as int);
            lemma_path_timeouts_prefix(steps@, cp@, k + 1);
        }
        match first_step(steps, cp[k].as_str()) {
            Some(j) => {
                if let Some(t) = steps[j].timeout_secs {
                    total = total + t;
                    count += 1;
                }
            },
            None => {},
        }
        k += 1;
    }
    proof {
        assert(cp@.take(cp.len() as int) =~= cp@);
    }
    if count == 0 {
        None
    } else {
        Some(total)
    }
}

/// Whether the timeouts on the critical path `cp` of `steps` sum within 64
/// bits, as `build_config` needs.
pub fn timeouts_fit(steps: &Vec<WorkflowStep>, cp: &Vec<String>) -> (b: bool)
    ensures
        b == (sum_u64(path_timeouts(steps@, cp@)) <= u64::MAX),
{
    let mut total: u128 = 0;
    let mut k: usize = 0;
    while k < cp.len()
        invariant
            k <= cp.len(),
            total as int == sum_u64(path_timeouts(steps@, cp@.take(k as int))),
            total <= u64::MAX,
        decreases cp.len() - k,
    {
        proof {
            lemma_path_timeouts_step(steps@, cp@, k as int);
            lemma_path_timeouts_prefix(steps@, cp@, k + 1);
        }
        match first_step(steps, cp[k].as_str()) {
            Some(j) => {
                if let Some(t) = steps[j].timeout_secs {
                    total = total + t as u128;
                }
            },
            None => {},
        }
        k += 1;
        if total > u64::MAX as u128 {
            return false;
        }
    }
    proof {
        assert(cp@.take(cp.len() as int) =~= cp@);
    }
    true
}

proof fn lemma_sum_push(r: Seq<u64>, x: u64)
    ensures
        sum_u64(r.push(x)) == sum_u64(r) + x,
{
    assert(r.push(x).drop_last() =~= r);
}

/// One more step of the path adds its timeout, if it has one.
proof fn lemma_path_timeouts_step(steps: Seq<WorkflowStep>, cp: Seq<String>, k: int)
    requires
        0 <= k < cp.len(),
    ensures
        ({
            let j = first_step_from(steps, cp[k]@, 0);
            let r = path_timeouts(steps, cp.take(k));
            path_timeouts(steps, cp.take(k + 1)) == if j >= 0 && steps[j].timeout_secs is Some {
                r.push(steps[j].timeout_secs->0)
            } else {
                r
            }
        }),
        sum_u64(path_timeouts(steps, cp.take(k))) <= sum_u64(path_timeouts(steps, cp.take(k + 1))),
        ({
            let j = first_step_from(steps, cp[k]@, 0);
            sum_u64(path_timeouts(steps, cp.take(k + 1))) == sum_u64(path_timeouts(steps, cp.take(k)))
                + if j >= 0 && steps[j].timeout_secs is Some { steps[j].timeout_secs->0 as int } else { 0int }
        }),
{
    assert(cp.take(k + 1).drop_last() =~= cp.take(k));
    assert(cp.take(k + 1).last() == cp[k]);
    let j = first_step_from(steps, cp[k]@, 0);
    if j >= 0 && steps[j].timeout_secs is Some {
        lemma_sum_push(path_timeouts(steps, cp.take(k)), steps[j].timeout_secs->0);
    }
}

/// The sums over prefixes of the path never exceed the sum over the whole.
proof fn lemma_path_timeouts_prefix(steps: Seq<WorkflowStep>, cp: Seq<String>, k: int)
    requires
        0 <= k <= cp.len(),
    ensures
        sum_u64(path_timeouts(steps, cp.take(k))) <= sum_u64(path_timeouts(steps, cp)),
    decreases cp.len() - k,
{
    if k < cp.len() {
        lemma_path_timeouts_prefix(steps, cp, k + 1);
        lemma_path_timeouts_step(steps, cp, k);
    } else {
        assert(cp.take(k) =~= cp);
    }
}

/// A copy of the level groups.
fn copy_groups(g: &Vec<Vec<String>>) -> (r: Vec<Vec<String>>)
    ensures
        r@.len() == g@.len(),
        forall|l: int| 0 <= l < g@.len() ==> #[trigger] r@[l]@ == g@[l]@,
{
    let mut r: Vec<Vec<String>> = Vec::new();
    let mut l: usize = 0;
    while l < g.len()
        invariant
            l <= g.len(),
            r@.len() == l,
            forall|q: int| 0 <= q < l ==> #[trigger] r@[q]@ == g@[q]@,
        decreases g.len() - l,
    {
        r.push(copy_strings(&g[l]));
        l += 1;
    }
    r
}

/// The configuration recommended for running `def` under `arch`.
pub fn build_config(arch: &ArchitectureType, dag: &DagMetrics, def: &WorkflowDef, gov: &GovernanceCheck) -> (c: RecommendedConfig)
    requires
        sum_u64(path_timeouts(def.steps@, dag.critical_path@)) <= u64::MAX,
    ensures
        c.retry_eligible_steps@ == retry_ids(def.steps@, dag.critical_path@),
        c.max_concurrency == match arch {
            ArchitectureType::MultiAgent => if dag.max_parallel_width < 8 { dag.max_parallel_width } else { 8 },
            _ => 1,
        },
        c.fail_fast == match arch {
            ArchitectureType::Deterministic => true,
            ArchitectureType::SingleAgent => dag.optional_count == 0,
            ArchitectureType::MultiAgent => false,
        },
        c.parallel_groups@.len() == dag.parallel_groups@.len(),
        forall|l: int| 0 <= l < dag.parallel_groups@.len() ==> #[trigger] c.parallel_groups@[l]@ == dag.parallel_groups@[l]@,
        c.critical_path@ == dag.critical_path@,
        c.phase_count == dag.parallel_groups@.len(),
        c.governance_skip_candidates@ == skip_ids(def.steps@, gov.blocked_agents@),
        c.suggested_total_timeout_secs == if path_timeouts(def.steps@, dag.critical_path@).len() == 0 {
            None::<u64>
        } else {
            Some(sum_u64(path_timeouts(def.steps@, dag.critical_path@)) as u64)
        },
{
    let max_concurrency = match arch {
        ArchitectureType::MultiAgent => if dag.max_parallel_width < 8 { dag.max_parallel_width } else { 8 },
        _ => 1,
    };
    let fail_fast = match arch {
        ArchitectureType::Deterministic => true,
        ArchitectureType::SingleAgent => dag.optional_count == 0,
        ArchitectureType::MultiAgent => false,
    };
    RecommendedConfig {
        retry_eligible_steps: retry_eligible(&def.steps, &dag.critical_path),
        max_concurrency,
        fail_fast,
        parallel_groups: copy_groups(&dag.parallel_groups),
        critical_path: copy_strings(&dag.critical_path),
        phase_count: dag.parallel_groups.len(),
        governance_skip_candidates: skip_candidates(&def.steps, &gov.blocked_agents),
        suggested_total_timeout_secs: suggested_timeout(&def.steps, &dag.critical_path),
    }
}


// ── The selector ─────────────────────────────────────────────────────────────

/// The architecture selector of a node, rooted at its data directory.
pub struct ArchitectureSelector {
    pub base_dir: String,
}

impl ArchitectureSelector {
    pub fn new(base_dir: String) -> (s: ArchitectureSelector)
        ensures
            s.base_dir == base_dir,
    {
        ArchitectureSelector { base_dir }
    }
}

/// The `k` reasons of highest weight, highest first; among equal weights the
/// earlier reason comes first.
pub open spec fn top_reasons(rs: Seq<(i32, String)>, k: int) -> Seq<String>
    decreases k,
{
    if k <= 0 || rs.len() == 0 {
        Seq::empty()
    } else {
        let i = first_heaviest(rs);
        seq![rs[i].1] + top_reasons(rs.remove(i), k - 1)
    }
}

/// `i` is the first reason of the highest weight.
pub open spec fn is_first_heaviest(rs: Seq<(i32, String)>, i: int) -> bool {
    &&& 0 <= i < rs.len()
    &&& forall|j: int| 0 <= j < rs.len() ==> #[trigger] rs[j].0 <= rs[i].0
    &&& forall|j: int| 0 <= j < i ==> #[trigger] rs[j].0 < rs[i].0
}

/// Index of the first reason of the highest weight.
pub open spec fn first_heaviest(rs: Seq<(i32, String)>) -> int {
    choose|i: int| #[trigger] is_first_heaviest(rs, i)
}

/// Orders weighted reasons by weight, highest first and stably, and keeps
/// the first six.
pub fn rank_reasons(reasons: Vec<(i32, String)>) -> (r: Vec<String>)
    ensures
        r@ == top_reasons(reasons@, 6),
{
    let mut rest = reasons;
    let mut out: Vec<String> = Vec::new();
    let mut k: usize = 6;
    let ghost r0 = rest@;
    while k > 0 && rest.len() > 0
        invariant
            k <= 6,
            out@ + top_reasons(rest@, k as int) == top_reasons(r0, 6),
        decreases k,
    {
        let mut best: usize = 0;
        let mut i: usize = 1;
        while i < rest.len()
            invariant
                0 < rest.len(),
                best < i <= rest.len(),
                forall|j: int| 0 <= j < i ==> #[trigger] rest@[j].0 <= rest@[best as int].0,
                forall|j: int| 0 <= j < best ==> #[trigger] rest@[j].0 < rest@[best as int].0,
            decreases rest.len() - i,
        {
            if rest[i].0 > rest[best].0 {
                best = i;
            }
            i += 1;
        }
        proof {
            assert(is_first_heaviest(rest@, best as int));
            let h = first_heaviest(rest@);
            assert(is_first_heaviest(rest@, h));
            if h < best {
                assert(rest@[h].0 < rest@[best as int].0);
            } else if h > best {
                assert(rest@[best as int].0 < rest@[h].0);
            }
            assert(h == best);
        }
        let ghost before = rest@;
        let item = rest.remove(best);
        proof {
            assert(top_reasons(before, k as int) == seq![item.1] + top_reasons(rest@, k - 1));
            assert(out@.push(item.1) + top_reasons(rest@, k - 1) =~= out@ + (seq![item.1] + top_reasons(rest@, k - 1)));
        }
        out.push(item.1);
        k -= 1;
    }
    proof {
        assert(top_reasons(rest@, k as int) == Seq::<String>::empty());
        assert(out@ + Seq::<String>::empty() =~= out@);
    }
    out
}

// ── Quick classification ─────────────────────────────────────────────────────

/// A rough description of a workflow that is not built yet.
pub struct QuickClassifyRequest {
    pub tenant_id: String,
    /// Estimated number of distinct tools or agents.
    pub tool_count: usize,
    /// Expected number of parallel branches (0 when fully sequential).
    pub parallel_branches: usize,
    /// Error tolerance: 0 none, 1 low, 2 medium, 3 high.
    pub error_tolerance: u8,
    /// Governance is strict (audit, residency, model constraints).
    pub governance_strict: bool,
}

/// The guidance given for a request: the architecture, the winning score
/// and the total of the three scores (their ratio is the confidence), a one
/// line summary and the reasons.
pub struct QuickClassifyResponse {
    pub architecture: ArchitectureType,
    pub top_score: u32,
    pub total_score: u32,
    pub one_line: String,
    pub reasoning: Vec<String>,
}

/// Score of the deterministic architecture for a request.
pub open spec fn quick_det(r: QuickClassifyRequest) -> int {
    (if r.tool_count <= 1 { 40int } else { 0int }) + (if r.parallel_branches == 0 { 20int } else { 0int })
        + (if r.error_tolerance == 0 { 20int } else { 0int }) + (if r.governance_strict { 15int } else { 0int })
}

/// Score of the single-agent architecture for a request.
pub open spec fn quick_single(r: QuickClassifyRequest) -> int {
    (if r.tool_count == 1 { 10int } else { 0int }) + (if r.tool_count == 2 { 30int } else { 0int })
        + (if r.tool_count >= 3 { 15int } else { 0int }) + (if r.parallel_branches == 0 { 10int } else { 0int })
        + (if r.parallel_branches == 1 { 25int } else { 0int }) + (if r.error_tolerance == 1 { 15int } else { 0int })
        + (if r.error_tolerance == 2 { 8int } else { 0int })
}

/// Score of the multi-agent architecture for a request, capped at 100.
pub open spec fn quick_multi(r: QuickClassifyRequest) -> int {
    let m = (if r.tool_count >= 3 { 30int } else { 0int }) + (if r.tool_count >= 5 { 20int } else { 0int })
        + (if r.parallel_branches >= 2 { 35int } else { 0int }) + (if r.parallel_branches >= 4 { 15int } else { 0int })
        + (if r.error_tolerance == 2 { 12int } else { 0int }) + (if r.error_tolerance >= 3 { 25int } else { 0int });
    if m > 100 { 100 } else { m }
}

/// The highest-scoring architecture; ties go to the simpler one.
pub open spec fn quick_winner(r: QuickClassifyRequest) -> ArchitectureType {
    if quick_det(r) >= quick_single(r) && quick_det(r) >= quick_multi(r) {
        ArchitectureType::Deterministic
    } else if quick_single(r) >= quick_multi(r) {
        ArchitectureType::SingleAgent
    } else {
        ArchitectureType::MultiAgent
    }
}

/// High error tolerance favours the multi-agent architecture: raising a
/// request's tolerance from none or low to high, all else equal, adds 25 to
/// its multi-agent score (up to the cap of 100) and never raises the other
/// two scores.
pub proof fn lemma_high_tolerance_bonus(r1: QuickClassifyRequest, r2: QuickClassifyRequest)
    requires
        r1.tool_count == r2.tool_count,
        r1.parallel_branches == r2.parallel_branches,
        r1.governance_strict == r2.governance_strict,
        r1.error_tolerance <= 1,
        r2.error_tolerance >= 3,
    ensures
        quick_multi(r2) == if quick_multi(r1) + 25 > 100 { 100 } else { quick_multi(r1) + 25 },
        quick_det(r2) <= quick_det(r1),
        quick_single(r2) <= quick_single(r1),
{
}

/// A request of three or more tools with high error tolerance is classified
/// multi-agent, whatever its parallelism and governance: its multi-agent
/// score is at least 55, and neither other score exceeds 40.
pub proof fn lemma_many_tools_high_tolerance_is_multi_agent(r: QuickClassifyRequest)
    requires
        r.tool_count >= 3,
        r.error_tolerance >= 3,
    ensures
        quick_multi(r) >= 55,
        quick_det(r) <= 35,
        quick_single(r) <= 40,
        quick_winner(r) is MultiAgent,
{
}

pub open spec fn one_line_of(a: ArchitectureType) -> Seq<char> {
    match a {
        ArchitectureType::Deterministic => "Sequential, single-agent execution \u{2014} fastest and most predictable"@,
        ArchitectureType::SingleAgent => "One agent with multiple tool steps \u{2014} balanced complexity and control"@,
        ArchitectureType::MultiAgent => "Parallel multi-agent coordination \u{2014} maximum throughput and fault tolerance"@,
    }
}

/// The reasons given for a request, in order.
pub open spec fn quick_reasons(r: QuickClassifyRequest) -> Seq<Seq<char>> {
    let a = if r.tool_count >= 3 {
        seq![decimal(r.tool_count as nat) + " tools \u{2192} multi-agent specialisation valuable"@]
    } else {
        Seq::empty()
    };
    let b = if r.parallel_branches >= 2 {
        seq![decimal(r.parallel_branches as nat) + " parallel branches \u{2192} multi-agent parallelism pays off"@]
    } else {
        Seq::empty()
    };
    let c = if r.error_tolerance == 0 {
        seq!["Zero error tolerance \u{2192} deterministic single path"@]
    } else {
        Seq::empty()
    };
    let d = if r.governance_strict {
        seq!["Strict governance \u{2192} deterministic reduces compliance surface"@]
    } else {
        Seq::empty()
    };
    let e = if r.tool_count == 1 && r.parallel_branches == 0 {
        seq!["Single tool, sequential \u{2192} deterministic is simplest and safest"@]
    } else {
        Seq::empty()
    };
    a + b + c + d + e
}

fn quick_scores(req: &QuickClassifyRequest) -> (r: (u32, u32, u32))
    ensures
        r.0 == quick_det(*req),
        r.1 == quick_single(*req),
        r.2 == quick_multi(*req),
{
    let mut det: u32 = 0;
    let mut sin: u32 = 0;
    let mut mul: u32 = 0;
    if req.tool_count <= 1 { det += 40; }
    if req.tool_count == 1 { sin += 10; }
    if req.tool_count == 2 { sin += 30; }
    if req.tool_count >= 3 { mul += 30; sin += 15; }
    if req.tool_count >= 5 { mul += 20; }
    if req.parallel_branches == 0 { det += 20; sin += 10; }
    if req.parallel_branches == 1 { sin += 25; }
    if req.parallel_branches >= 2 { mul += 35; }
    if req.parallel_branches >= 4 { mul += 15; }
    match req.error_tolerance {
        0 => { det += 20; },
        1 => { sin += 15; },
        2 => { sin += 8; mul += 12; },
        _ => { mul += 25; },
    }
    if req.governance_strict { det += 15; }
    if det > 100 { det = 100; }
    if sin > 100 { sin = 100; }
    if mul > 100 { mul = 100; }
    (det, sin, mul)
}

fn quick_reason_list(req: &QuickClassifyRequest) -> (reasoning: Vec<String>)
    ensures
        reasoning@.map_values(|s: String| s@) == quick_reasons(*req),
{
    let mut reasoning: Vec<String> = Vec::new();
    if req.tool_count >= 3 {
        let mut w = String::new();
        push_decimal(&mut w, req.tool_count as u64);
        w.append(" tools \u{2192} multi-agent specialisation valuable");
        reasoning.push(w);
    }
    if req.parallel_branches >= 2 {
        let mut w = String::new();
        push_decimal(&mut w, req.parallel_branches as u64);
        w.append(" parallel branches \u{2192} multi-agent parallelism pays off");
        reasoning.push(w);
    }
    if req.error_tolerance == 0 {
        reasoning.push(String::from_str("Zero error tolerance \u{2192} deterministic single path"));
    }
    if req.governance_strict {
        reasoning.push(String::from_str("Strict governance \u{2192} deterministic reduces compliance surface"));
    }
    if req.tool_count == 1 && req.parallel_branches == 0 {
        reasoning.push(String::from_str("Single tool, sequential \u{2192} deterministic is simplest and safest"));
    }
    proof {
        assert(reasoning@.map_values(|s: String| s@) =~= quick_reasons(*req));
    }
    reasoning
}

/// Heuristic guidance for a workflow described by counts alone.
pub fn quick_classify(req: &QuickClassifyRequest) -> (resp: QuickClassifyResponse)
    ensures
        resp.architecture == quick_winner(*req),
        resp.top_score == match quick_winner(*req) {
            ArchitectureType::Deterministic => quick_det(*req),
            ArchitectureType::SingleAgent => quick_single(*req),
            ArchitectureType::MultiAgent => quick_multi(*req),
        },
        resp.total_score == quick_det(*req) + quick_single(*req) + quick_multi(*req),
        resp.one_line@ == one_line_of(quick_winner(*req)),
        resp.reasoning@.map_values(|s: String| s@) == quick_reasons(*req),
        req.tool_count >= 3 && req.error_tolerance >= 3 ==> resp.architecture is MultiAgent,
{
    proof {
        if req.tool_count >= 3 && req.error_tolerance >= 3 {
            lemma_many_tools_high_tolerance_is_multi_agent(*req);
        }
    }
    let (det, sin, mul) = quick_scores(req);
    let total = det + sin + mul;
    let (arch, top) = if det >= sin && det >= mul {
        (ArchitectureType::Deterministic, det)
    } else if sin >= mul {
        (ArchitectureType::SingleAgent, sin)
    } else {
        (ArchitectureType::MultiAgent, mul)
    };
    let one_line = match arch {
        ArchitectureType::Deterministic => String::from_str("Sequential, single-agent execution \u{2014} fastest and most predictable"),
        ArchitectureType::SingleAgent => String::from_str("One agent with multiple tool steps \u{2014} balanced complexity and control"),
        ArchitectureType::MultiAgent => String::from_str("Parallel multi-agent coordination \u{2014} maximum throughput and fault tolerance"),
    };
    QuickClassifyResponse { architecture: arch, top_score: top, total_score: total, one_line, reasoning: quick_reason_list(req) }
}

} // verus!
