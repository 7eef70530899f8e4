//! Decisions of a node's API server: the per-key rate limiter, the keys it
//! accepts, the admission of agent runs, group and workflow step outcomes,
//! and the event log's files.

use vstd::prelude::*;
use vstd::string::*;
use crate::text::{str_eq, chars_of, split_char, split_on, string_of, texts, join, join_path, push_decimal, decimal};
use crate::runtime_registry::{trimmed, trim_text};
use crate::policy::PolicyDecision;
use crate::orchestration::{AgentGroup, GroupMember, GroupStatus, StepStatus};

verus! {

// ── Rate limiting ────────────────────────────────────────────────────────────

/// The last accepted request time of each key, at most one entry per key.
pub struct RateLimiter {
    pub buckets: Vec<(String, u64)>,
    /// Requests per second allowed to each key.
    pub rps_limit: u32,
}

/// Index of the first bucket at or after `i` of the key `k`, or -1.
pub open spec fn bucket_pos_from(bs: Seq<(String, u64)>, k: Seq<char>, i: int) -> int
    decreases bs.len() - i,
{
    if i < 0 || i >= bs.len() { -1 } else if bs[i].0@ == k { i } else { bucket_pos_from(bs, k, i + 1) }
}

/// The last accepted time of the key `k`.
pub open spec fn bucket_of(bs: Seq<(String, u64)>, k: Seq<char>) -> Option<u64> {
    let p = bucket_pos_from(bs, k, 0);
    if p >= 0 { Some(bs[p].1) } else { None }
}

proof fn lemma_bucket_pos(bs: Seq<(String, u64)>, k: Seq<char>, i: int)
    requires
        0 <= i <= bs.len(),
    ensures
        bucket_pos_from(bs, k, i) == -1 || (i <= bucket_pos_from(bs, k, i) < bs.len() && bs[bucket_pos_from(bs, k, i)].0@ == k),
        bucket_pos_from(bs, k, i) == -1 <==> forall|q: int| i <= q < bs.len() ==> #[trigger] bs[q].0@ != k,
        forall|q: int| i <= q < bucket_pos_from(bs, k, i) ==> #[trigger] bs[q].0@ != k,
    decreases bs.len() - i,
{
    if i < bs.len() && bs[i].0@ != k {
        lemma_bucket_pos(bs, k, i + 1);
    }
}

/// The least time, in nanoseconds, between two accepted requests of a key.
pub open spec fn interval_ns(rps: u32) -> int {
    (1000int / (rps as int)) * 1_000_000
}

/// A request of a key at `now` (nanoseconds on a monotonic clock) is
/// accepted unless the key's last accepted request is less than the
/// interval ago.
pub open spec fn rate_ok(bs: Seq<(String, u64)>, k: Seq<char>, now: u64, rps: u32) -> bool {
    match bucket_of(bs, k) {
        Some(last) => (if now >= last { now - last } else { 0 }) >= interval_ns(rps),
        None => true,
    }
}

/// Accepted requests of one key are at least the interval apart: once the
/// last accepted request of `key` is at `t`, every request of it from `t`
/// until the interval has passed is refused, and one at the end of the
/// interval is accepted.
pub proof fn lemma_accepted_requests_spaced(bs: Seq<(String, u64)>, key: Seq<char>, t: u64, t2: u64, rps: u32)
    requires
        bucket_of(bs, key) == Some(t),
        t <= t2,
    ensures
        t2 < t + interval_ns(rps) ==> !rate_ok(bs, key, t2, rps),
        t2 >= t + interval_ns(rps) ==> rate_ok(bs, key, t2, rps),
{
}

impl RateLimiter {
    pub fn new(rps: u32) -> (r: RateLimiter)
        ensures
            r.buckets@.len() == 0,
            r.rps_limit == rps,
    {
        RateLimiter { buckets: Vec::new(), rps_limit: rps }
    }

    /// Whether a request of `key` at `now` is accepted; an accepted request
    /// becomes the key's last one.
    pub fn check(&mut self, key: &str, now: u64) -> (ok: bool)
        requires
            old(self).rps_limit > 0,
        ensures
            ok == rate_ok(old(self).buckets@, key@, now, old(self).rps_limit),
            final(self).rps_limit == old(self).rps_limit,
            forall|k: Seq<char>| #[trigger] bucket_of(final(self).buckets@, k)
                == if ok && k == key@ { Some(now) } else { bucket_of(old(self).buckets@, k) },
    {
        let interval: u64 = (1000 / self.rps_limit as u64) * 1_000_000;
        proof {
            lemma_bucket_pos(self.buckets@, key@, 0);
            assert(forall|k: Seq<char>| #[trigger] bucket_pos_from(self.buckets@, k, 0) == -1
                || 0 <= bucket_pos_from(self.buckets@, k, 0) < self.buckets@.len()) by {
                assert forall|k: Seq<char>| #[trigger] bucket_pos_from(self.buckets@, k, 0) == -1
                    || 0 <= bucket_pos_from(self.buckets@, k, 0) < self.buckets@.len() by {
                    lemma_bucket_pos(self.buckets@, k, 0);
                }
            }
        }
        let mut i: usize = 0;
        while i < self.buckets.len()
            invariant
                self.buckets@ == old(self).buckets@,
                self.rps_limit == old(self).rps_limit,
                self.rps_limit > 0,
                interval as int == interval_ns(self.rps_limit),
                i <= self.buckets.len(),
                bucket_pos_from(self.buckets@, key@, 0) == bucket_pos_from(self.buckets@, key@, i as int),
            decreases self.buckets.len() - i,
        {
            if str_eq(self.buckets[i].0.as_str(), key) {
                let last = self.buckets[i].1;
                let elapsed = if now >= last { now - last } else { 0 };
                if elapsed < interval {
                    return false;
                }
                let ghost before = self.buckets@;
                let name = self.buckets[i].0.clone();
                self.buckets.set(i, (name, now));
                proof {
                    assert forall|k: Seq<char>| #[trigger] bucket_of(self.buckets@, k)
                        == if k == key@ { Some(now) } else { bucket_of(before, k) } by {
                        lemma_bucket_pos(before, k, 0);
                        lemma_bucket_pos(self.buckets@, k, 0);
                        lemma_same_pos(before, self.buckets@, k, 0);
                    }
                }
                return true;
            }
            i += 1;
        }
        let ghost before = self.buckets@;
        self.buckets.push((String::from_str(key), now));
        proof {
            assert forall|k: Seq<char>| #[trigger] bucket_of(self.buckets@, k)
                == if k == key@ { Some(now) } else { bucket_of(before, k) } by {
                lemma_bucket_pos(before, k, 0);
                lemma_bucket_pos(self.buckets@, k, 0);
                lemma_push_pos(before, self.buckets@, k, 0);
            }
        }
        true
    }
}

/// Overwriting the time of a bucket moves no key.
proof fn lemma_same_pos(a: Seq<(String, u64)>, b: Seq<(String, u64)>, k: Seq<char>, i: int)
    requires
        0 <= i <= a.len(),
        a.len() == b.len(),
        forall|q: int| 0 <= q < a.len() ==> (#[trigger] a[q]).0@ == b[q].0@,
    ensures
        bucket_pos_from(a, k, i) == bucket_pos_from(b, k, i),
    decreases a.len() - i,
{
    if i < a.len() {
        lemma_same_pos(a, b, k, i + 1);
    }
}

/// A bucket added at the end is found only when no earlier bucket has its key.
proof fn lemma_push_pos(a: Seq<(String, u64)>, b: Seq<(String, u64)>, k: Seq<char>, i: int)
    requires
        0 <= i <= a.len(),
        b.len() == a.len() + 1,
        forall|q: int| 0 <= q < a.len() ==> #[trigger] b[q] == a[q],
    ensures
        bucket_pos_from(a, k, i) >= 0 ==> bucket_pos_from(b, k, i) == bucket_pos_from(a, k, i),
        bucket_pos_from(a, k, i) == -1 ==> bucket_pos_from(b, k, i) == if b[a.len() as int].0@ == k { a.len() as int } else { -1 },
    decreases a.len() - i,
{
    if i < a.len() {
        lemma_push_pos(a, b, k, i + 1);
    } else {
        assert(bucket_pos_from(b, k, i + 1) == -1);
    }
}

// ── Keys ─────────────────────────────────────────────────────────────────────

/// The API keys of a node started with `arg`: its comma-separated keys,
/// trimmed, or the development key when none is given.
pub open spec fn secret_keys_of(arg: Option<Seq<char>>) -> Seq<Seq<char>> {
    let s = match arg { Some(a) => a, None => "apollo-dev-secret"@ };
    split_on(s, ',').map_values(|p: Seq<char>| trimmed(p))
}

pub fn parse_secret_keys(arg: Option<&str>) -> (keys: Vec<String>)
    ensures
        texts(keys@) == secret_keys_of(match arg { Some(a) => Some(a@), None => None }),
{
    let s = match arg { Some(a) => a, None => "apollo-dev-secret" };
    let parts = split_char(&chars_of(s), ',');
    let ghost pv = parts@.map_values(|w: Vec<char>| w@);
    let mut keys: Vec<String> = Vec::new();
    let mut i: usize = 0;
    while i < parts.len()
        invariant
            pv == parts@.map_values(|w: Vec<char>| w@),
            i <= parts.len(),
            texts(keys@) == pv.take(i as int).map_values(|p: Seq<char>| trimmed(p)),
        decreases parts.len() - i,
    {
        let k = string_of(&trim_text(&parts[i]));
        let ghost k0 = keys@;
        keys.push(k);
        proof {
            assert(texts(keys@) =~= texts(k0).push(k@));
            assert(pv.take(i + 1) =~= pv.take(i as int).push(pv[i as int]));
            assert(pv.take(i + 1).map_values(|p: Seq<char>| trimmed(p))
                =~= pv.take(i as int).map_values(|p: Seq<char>| trimmed(p)).push(trimmed(pv[i as int])));
        }
        i += 1;
    }
    proof {
        assert(pv.take(parts.len() as int) =~= pv);
    }
    keys
}

/// Whether `k` is one of the node's keys.
pub fn is_valid_key(valid_keys: &Vec<String>, k: &str) -> (b: bool)
    ensures
        b == texts(valid_keys@).contains(k@),
{
    let mut i: usize = 0;
    while i < valid_keys.len()
        invariant
            i <= valid_keys.len(),
            forall|q: int| 0 <= q < i ==> #[trigger] valid_keys@[q]@ != k@,
        decreases valid_keys.len() - i,
    {
        if str_eq(valid_keys[i].as_str(), k) {
            proof {
                assert(texts(valid_keys@)[i as int] == k@);
            }
            return true;
        }
        i += 1;
    }
    proof {
        if texts(valid_keys@).contains(k@) {
            let q = choose|q: int| 0 <= q < texts(valid_keys@).len() && texts(valid_keys@)[q] == k@;
            assert(valid_keys@[q]@ == k@);
        }
    }
    false
}

/// The identity a request of a token's claims is served under: `jwt:` and
/// the subject, when the token lists none of the keys or one of the node's.
pub open spec fn claims_identity(sub: Seq<char>, keys: Seq<Seq<char>>, valid: Seq<Seq<char>>) -> Option<Seq<char>> {
    if keys.len() == 0 || exists|i: int| 0 <= i < keys.len() && valid.contains(#[trigger] keys[i]) {
        Some("jwt:"@ + sub)
    } else {
        None
    }
}

/// The identity granted to a verified token with subject `sub` listing the
/// keys `keys`.
pub fn key_from_claims(sub: &str, keys: &Vec<String>, valid_keys: &Vec<String>) -> (r: Option<String>)
    ensures
        match r {
            Some(s) => claims_identity(sub@, texts(keys@), texts(valid_keys@)) == Some(s@),
            None => claims_identity(sub@, texts(keys@), texts(valid_keys@)) is None,
        },
{
    let mut ok = keys.len() == 0;
    let mut i: usize = 0;
    while i < keys.len() && !ok
        invariant
            i <= keys.len(),
            ok == (keys@.len() == 0 || exists|q: int| 0 <= q < i && texts(valid_keys@).contains(#[trigger] texts(keys@)[q])),
        decreases keys.len() - i,
    {
        if is_valid_key(valid_keys, keys[i].as_str()) {
            ok = true;
            proof {
                assert(texts(valid_keys@).contains(texts(keys@)[i as int]));
            }
        }
        i += 1;
    }
    if ok {
        let mut s = String::from_str("jwt:");
        s.append(sub);
        Some(s)
    } else {
        None
    }
}

/// The key a request with an `X-Apollo-Key` header `api_key` is served
/// under, when the header holds one of the node's keys; the token's
/// identity, `claims`, is the fallback.
pub fn request_identity(api_key: Option<&str>, valid_keys: &Vec<String>, claims: Option<(String, Vec<String>)>) -> (r: Option<String>)
    ensures
        match api_key {
            Some(k) if texts(valid_keys@).contains(k@) => r matches Some(s) && s@ == k@,
            _ => match claims {
                Some((sub, keys)) => match claims_identity(sub@, texts(keys@), texts(valid_keys@)) {
                    Some(id) => r matches Some(s) && s@ == id,
                    None => r is None,
                },
                None => r is None,
            },
        },
{
    if let Some(k) = api_key {
        if is_valid_key(valid_keys, k) {
            return Some(String::from_str(k));
        }
    }
    match claims {
        Some((sub, keys)) => key_from_claims(sub.as_str(), &keys, valid_keys),
        None => None,
    }
}

/// The id of a node started at `now`.
pub fn node_id_for(now: u64) -> (r: String)
    ensures
        r@ == "node-"@ + decimal((now % 10000) as nat),
{
    let mut r = String::from_str("node-");
    push_decimal(&mut r, now % 10000);
    r
}

// ── Admission ────────────────────────────────────────────────────────────────

/// Why a run was refused.
pub enum RunRefusal {
    /// The tenant's policy refuses it, for this reason.
    Policy(String),
    /// The node runs as many agents as it may.
    AtCapacity,
}

/// Whether a run is admitted after the policy's decision, with `running`
/// instances on a node that runs at most `max_agents`.
pub fn admit_run(decision: PolicyDecision, running: usize, max_agents: usize) -> (r: Result<(), RunRefusal>)
    ensures
        match decision {
            PolicyDecision::Deny { reason, .. } => r matches Err(RunRefusal::Policy(s)) && s == reason,
            PolicyDecision::Allow => if running >= max_agents { r matches Err(RunRefusal::AtCapacity) } else { r is Ok },
        },
{
    match decision {
        PolicyDecision::Deny { reason, .. } => Err(RunRefusal::Policy(reason)),
        PolicyDecision::Allow => if running >= max_agents { Err(RunRefusal::AtCapacity) } else { Ok(()) },
    }
}

// ── Groups and workflow steps ────────────────────────────────────────────────

/// The tenant a group member runs under.
pub fn member_tenant(member: &GroupMember, group: &AgentGroup) -> (r: String)
    ensures
        r@ == match member.tenant_override { Some(t) => t@, None => group.tenant_id@ },
{
    match &member.tenant_override {
        Some(t) => t.clone(),
        None => group.tenant_id.clone(),
    }
}

/// The state of a group after it was started with `errors` failures.
pub fn group_started_status(errors: usize) -> (s: GroupStatus)
    ensures
        s == if errors == 0 { GroupStatus::Running } else { GroupStatus::Error },
{
    if errors == 0 { GroupStatus::Running } else { GroupStatus::Error }
}

/// The state of a step whose agent could not be found: skipped when it is
/// optional, failed otherwise.
pub fn unresolved_step_status(optional: bool) -> (s: StepStatus)
    ensures
        s == if optional { StepStatus::Skipped } else { StepStatus::Failed },
{
    if optional { StepStatus::Skipped } else { StepStatus::Failed }
}

// ── The event log ────────────────────────────────────────────────────────────

/// The event log of a node rooted at `base_dir`.
pub fn events_log_path(base_dir: &str) -> (r: String)
    ensures
        r@ == join_path(base_dir@, "events.jsonl"@),
{
    join(base_dir, "events.jsonl")
}

/// The renames that rotate an event log of `size` bytes: above 100 MB the
/// second generation becomes the third, the first the second and the log
/// the first; otherwise none.
pub open spec fn rotation_of(base_dir: Seq<char>, size: u64) -> Seq<(Seq<char>, Seq<char>)> {
    if size > 100 * 1024 * 1024 {
        seq![
            (join_path(base_dir, "events.jsonl.2"@), join_path(base_dir, "events.jsonl.3"@)),
            (join_path(base_dir, "events.jsonl.1"@), join_path(base_dir, "events.jsonl.2"@)),
            (join_path(base_dir, "events.jsonl"@), join_path(base_dir, "events.jsonl.1"@)),
        ]
    } else {
        Seq::empty()
    }
}

pub fn events_rotation(base_dir: &str, size: u64) -> (r: Vec<(String, String)>)
    ensures
        r@.map_values(|p: (String, String)| (p.0@, p.1@)) == rotation_of(base_dir@, size),
{
    let mut r: Vec<(String, String)> = Vec::new();
    if size > 100 * 1024 * 1024 {
        r.push((join(base_dir, "events.jsonl.2"), join(base_dir, "events.jsonl.3")));
        r.push((join(base_dir, "events.jsonl.1"), join(base_dir, "events.jsonl.2")));
        r.push((join(base_dir, "events.jsonl"), join(base_dir, "events.jsonl.1")));
    }
    proof {
        assert(r@.map_values(|p: (String, String)| (p.0@, p.1@)) =~= rotation_of(base_dir@, size));
    }
    r
}

} // verus!
