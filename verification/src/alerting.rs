//! Alert rules: their storage operations, the cooldown that keeps a rule
//! from firing again too soon, and the signature of webhook deliveries.

use vstd::prelude::*;
use vstd::string::*;
use crate::text::{str_eq, join, join_path, hex_encode, hex_of, last_n_reversed};
use crate::ids::new_uuid;
use hmac::Mac;

verus! {

/// The metric a rule watches.
pub enum AlertMetric {
    /// The health score of an agent falls below the threshold.
    HealthScore { tenant_id: String, agent_id: String },
    /// A tenant's daily token use, in millions, exceeds the threshold.
    TokenBudget { tenant_id: String },
    /// An agent's crash count exceeds the threshold.
    CrashCount { tenant_id: String, agent_id: String },
    /// Fleet utilization (0 to 1) exceeds the threshold.
    FleetUtilization,
}

/// Where an alert is sent.
pub enum AlertChannel {
    /// A Slack incoming webhook.
    Slack { webhook_url: String },
    /// PagerDuty Events API v2; `severity` is critical, error, warning or info.
    PagerDuty { routing_key: String, severity: String },
    /// A generic HTTP webhook, signed when a secret is set.
    Webhook { url: String, secret: Option<String> },
}

/// A persisted alert rule.
pub struct AlertRule {
    pub id: String,
    pub name: String,
    pub description: String,
    pub metric: AlertMetric,
    /// The threshold, as the bits of an IEEE 754 double.
    pub threshold_bits: u64,
    pub channel: AlertChannel,
    /// Fewest seconds between two firings.
    pub cooldown_secs: u64,
    pub enabled: bool,
    pub last_fired_at: Option<u64>,
    pub created_at: u64,
    pub updated_at: u64,
}

/// One firing of a rule.
pub struct AlertFiring {
    pub id: String,
    pub rule_id: String,
    pub rule_name: String,
    pub fired_at: u64,
    /// The metric's value, as the bits of an IEEE 754 double.
    pub metric_value_bits: u64,
    pub message: String,
    pub channel_type: String,
    pub delivered: bool,
    pub error: Option<String>,
}

/// Why a rule operation was refused.
pub enum AlertError {
    /// No rule has this id.
    NotFound(String),
}

/// Severity of PagerDuty alerts when none is configured.
pub fn default_severity() -> (r: String)
    ensures
        r@ == "warning"@,
{
    String::from_str("warning")
}

/// Cooldown of a rule when none is configured, in seconds.
pub fn default_cooldown() -> (r: u64)
    ensures
        r == 300,
{
    300
}

/// The directory of the alert files under `base_dir`.
pub fn alerts_dir(base_dir: &str) -> (r: String)
    ensures
        r@ == join_path(base_dir@, "alerts"@),
{
    join(base_dir, "alerts")
}

/// The file of the alert rules.
pub fn rules_path(base_dir: &str) -> (r: String)
    ensures
        r@ == join_path(join_path(base_dir@, "alerts"@), "rules.json"@),
{
    let d = alerts_dir(base_dir);
    join(d.as_str(), "rules.json")
}

/// The file of the firing history.
pub fn history_path(base_dir: &str) -> (r: String)
    ensures
        r@ == join_path(join_path(base_dir@, "alerts"@), "history.jsonl"@),
{
    let d = alerts_dir(base_dir);
    join(d.as_str(), "history.jsonl")
}

/// The name of a channel's kind.
pub fn channel_type_name(c: &AlertChannel) -> (r: String)
    ensures
        r@ == match c {
            AlertChannel::Slack { .. } => "slack"@,
            AlertChannel::PagerDuty { .. } => "pagerduty"@,
            AlertChannel::Webhook { .. } => "webhook"@,
        },
{
    match c {
        AlertChannel::Slack { .. } => String::from_str("slack"),
        AlertChannel::PagerDuty { .. } => String::from_str("pagerduty"),
        AlertChannel::Webhook { .. } => String::from_str("webhook"),
    }
}

/// Index of the first rule at or after `i` whose id is `id`, or -1.
pub open spec fn rule_pos_from(rules: Seq<AlertRule>, id: Seq<char>, i: int) -> int
    decreases rules.len() - i,
{
    if i < 0 || i >= rules.len() {
        -1
    } else if rules[i].id@ == id {
        i
    } else {
        rule_pos_from(rules, id, i + 1)
    }
}

proof fn lemma_rule_pos_from(rules: Seq<AlertRule>, id: Seq<char>, i: int)
    requires
        0 <= i <= rules.len(),
    ensures
        rule_pos_from(rules, id, i) == -1 ==> forall|k: int| i <= k < rules.len() ==> #[trigger] rules[k].id@ != id,
        rule_pos_from(rules, id, i) != -1 ==> i <= rule_pos_from(rules, id, i) < rules.len()
            && rules[rule_pos_from(rules, id, i)].id@ == id,
    decreases rules.len() - i,
{
    if i < rules.len() && rules[i].id@ != id {
        lemma_rule_pos_from(rules, id, i + 1);
    }
}

fn find_rule(rules: &Vec<AlertRule>, rule_id: &str) -> (r: Option<usize>)
    ensures
        ({
            let p = rule_pos_from(rules@, rule_id@, 0);
            r == if p >= 0 { Some(p as usize) } else { None }
        }),
{
    proof {
        lemma_rule_pos_from(rules@, rule_id@, 0);
    }
    let mut i: usize = 0;
    while i < rules.len()
        invariant
            i <= rules.len(),
            rule_pos_from(rules@, rule_id@, 0) == rule_pos_from(rules@, rule_id@, i as int),
        decreases rules.len() - i,
    {
        if str_eq(rules[i].id.as_str(), rule_id) {
            return Some(i);
        }
        i += 1;
    }
    None
}

/// The rule whose id is `rule_id` (the first, should several share it).
pub fn get_rule(rules: Vec<AlertRule>, rule_id: &str) -> (r: Option<AlertRule>)
    ensures
        ({
            let p = rule_pos_from(rules@, rule_id@, 0);
            r == if p >= 0 { Some(rules@[p]) } else { None }
        }),
{
    proof {
        lemma_rule_pos_from(rules@, rule_id@, 0);
    }
    match find_rule(&rules, rule_id) {
        Some(p) => {
            let mut list = rules;
            Some(list.swap_remove(p))
        },
        None => None,
    }
}

/// Removes every rule whose id is `rule_id`; refused when there is none.
pub fn delete_rule(rules: &mut Vec<AlertRule>, rule_id: &str) -> (r: Result<(), AlertError>)
    ensures
        final(rules)@ == old(rules)@.filter(|x: AlertRule| x.id@ != rule_id@),
        r is Err <==> rule_pos_from(old(rules)@, rule_id@, 0) < 0,
        r matches Err(AlertError::NotFound(id)) ==> id@ == rule_id@,
{
    proof {
        lemma_rule_pos_from(old(rules)@, rule_id@, 0);
    }
    let ghost all = old(rules)@;
    let ghost pred = |x: AlertRule| x.id@ != rule_id@;
    let mut taken: Vec<AlertRule> = Vec::new();
    std::mem::swap(&mut taken, rules);
    let before = taken.len();
    let mut kept: Vec<AlertRule> = Vec::new();
    proof {
        reveal(Seq::filter);
        assert(all.take(0) =~= Seq::<AlertRule>::empty());
    }
    for x in it: taken.into_iter()
        invariant
            it.seq() == all,
            pred == (|x: AlertRule| x.id@ != rule_id@),
            kept@ == all.take(it.index() as int).filter(pred),
    {
        let ghost k = it.index() as int;
        proof {
            assert(x == all[k]);
            assert(all.take(k + 1) =~= all.take(k).push(x));
            all.take(k).lemma_filter_push(x, pred);
        }
        if !str_eq(x.id.as_str(), rule_id) {
            kept.push(x);
        }
    }
    proof {
        assert(all.take(all.len() as int) =~= all);
        all.lemma_filter_len(pred);
        if rule_pos_from(all, rule_id@, 0) >= 0 {
            lemma_filter_drops_rule(all, pred, rule_pos_from(all, rule_id@, 0));
        } else {
            lemma_filter_keeps_rules(all, pred);
        }
    }
    let found = kept.len() != before;
    *rules = kept;
    if !found {
        return Err(AlertError::NotFound(rule_id.to_owned()));
    }
    Ok(())
}

proof fn lemma_filter_drops_rule(s: Seq<AlertRule>, pred: spec_fn(AlertRule) -> bool, k: int)
    requires
        0 <= k < s.len(),
        !pred(s[k]),
    ensures
        s.filter(pred).len() < s.len(),
    decreases s.len(),
{
    reveal(Seq::filter);
    s.drop_last().lemma_filter_len(pred);
    if k < s.len() - 1 {
        lemma_filter_drops_rule(s.drop_last(), pred, k);
    }
}

proof fn lemma_filter_keeps_rules(s: Seq<AlertRule>, pred: spec_fn(AlertRule) -> bool)
    requires
        forall|k: int| 0 <= k < s.len() ==> pred(#[trigger] s[k]),
    ensures
        s.filter(pred) == s,
    decreases s.len(),
{
    reveal(Seq::filter);
    if s.len() > 0 {
        lemma_filter_keeps_rules(s.drop_last(), pred);
        assert(s.drop_last().push(s.last()) =~= s);
    }
}

/// Adds `rule` to the list at `now`: it gets a fresh id when it has none, a
/// creation time when it has none, the update time `now`, and is enabled.
pub fn create_rule(rules: &mut Vec<AlertRule>, rule: AlertRule, now: u64) -> (r: AlertRule)
    ensures
        if rule.id@.len() == 0 { r.id@.len() == 36 } else { r.id == rule.id },
        r == (AlertRule { id: r.id, created_at: if rule.created_at == 0 { now } else { rule.created_at },
            updated_at: now, enabled: true, ..rule }),
        final(rules)@.len() == old(rules)@.len() + 1,
        final(rules)@.drop_last() == old(rules)@,
        final(rules)@.last().id@ == r.id@,
{
    let mut rule = rule;
    if rule.id.unicode_len() == 0 {
        rule.id = new_uuid();
    }
    if rule.created_at == 0 {
        rule.created_at = now;
    }
    rule.updated_at = now;
    rule.enabled = true;
    let stored = AlertRule {
        id: rule.id.clone(),
        name: rule.name.clone(),
        description: rule.description.clone(),
        metric: copy_metric(&rule.metric),
        threshold_bits: rule.threshold_bits,
        channel: copy_channel(&rule.channel),
        cooldown_secs: rule.cooldown_secs,
        enabled: rule.enabled,
        last_fired_at: rule.last_fired_at,
        created_at: rule.created_at,
        updated_at: rule.updated_at,
    };
    rules.push(stored);
    proof {
        assert(final(rules)@.drop_last() =~= old(rules)@);
    }
    rule
}

fn copy_opt(s: &Option<String>) -> (r: Option<String>)
    ensures
        r == *s,
{
    match s {
        Some(x) => Some(x.clone()),
        None => None,
    }
}

fn copy_metric(m: &AlertMetric) -> (r: AlertMetric)
    ensures
        r == *m,
{
    match m {
        AlertMetric::HealthScore { tenant_id, agent_id } =>
            AlertMetric::HealthScore { tenant_id: tenant_id.clone(), agent_id: agent_id.clone() },
        AlertMetric::TokenBudget { tenant_id } => AlertMetric::TokenBudget { tenant_id: tenant_id.clone() },
        AlertMetric::CrashCount { tenant_id, agent_id } =>
            AlertMetric::CrashCount { tenant_id: tenant_id.clone(), agent_id: agent_id.clone() },
        AlertMetric::FleetUtilization => AlertMetric::FleetUtilization,
    }
}

fn copy_channel(c: &AlertChannel) -> (r: AlertChannel)
    ensures
        r == *c,
{
    match c {
        AlertChannel::Slack { webhook_url } => AlertChannel::Slack { webhook_url: webhook_url.clone() },
        AlertChannel::PagerDuty { routing_key, severity } =>
            AlertChannel::PagerDuty { routing_key: routing_key.clone(), severity: severity.clone() },
        AlertChannel::Webhook { url, secret } => AlertChannel::Webhook { url: url.clone(), secret: copy_opt(secret) },
    }
}

/// A rule is evaluated at `now` when it is enabled and its cooldown has run
/// out since it last fired.
pub open spec fn rule_due(rule: AlertRule, now: u64) -> bool {
    &&& rule.enabled
    &&& match rule.last_fired_at {
        None => true,
        Some(last) => (if now >= last { now - last } else { 0 }) >= rule.cooldown_secs,
    }
}

/// Whether `rule` is evaluated at `now`.
pub fn is_rule_due(rule: &AlertRule, now: u64) -> (b: bool)
    ensures
        b == rule_due(*rule, now),
{
    if !rule.enabled {
        return false;
    }
    match rule.last_fired_at {
        None => true,
        Some(last) => {
            let since = if now >= last { now - last } else { 0 };
            since >= rule.cooldown_secs
        },
    }
}

/// Records that `rule` fired at `now`.
pub fn mark_rule_fired(rule: &mut AlertRule, now: u64)
    ensures
        *final(rule) == (AlertRule { last_fired_at: Some(now), updated_at: now, ..*old(rule) }),
{
    rule.last_fired_at = Some(now);
    rule.updated_at = now;
}

/// The last `limit` firings, newest first.
pub fn recent_firings(firings: Vec<AlertFiring>, limit: usize) -> (r: Vec<AlertFiring>)
    ensures
        r@ == firings@.subrange(firings@.len() - (if limit < firings@.len() { limit as int } else { firings@.len() as int }),
            firings@.len() as int).reverse(),
{
    last_n_reversed(firings, limit)
}

/// The HMAC-SHA256 tag of `msg` under `key`.
pub uninterp spec fn hmac_sha256(key: Seq<u8>, msg: Seq<u8>) -> Seq<u8>;

/// HMAC-SHA256 from the `hmac` and `sha2` crates. HMAC takes keys of any
/// length, so the key is always accepted; the tag is the 32 bytes of one
/// SHA-256 output.
#[verifier::external_body]
fn hmac_sha256_tag(key: &[u8], msg: &[u8]) -> (r: Vec<u8>)
    ensures
        r@ == hmac_sha256(key@, msg@),
        r@.len() == 32,
{
    let mut mac = hmac::Hmac::<sha2::Sha256>::new_from_slice(key)
        .unwrap_or_else(|_| hmac::Hmac::<sha2::Sha256>::new_from_slice(b"").unwrap());
    mac.update(msg);
    mac.finalize().into_bytes().to_vec()
}

/// The value of the `X-Apollo-Signature` header of a webhook delivery:
/// `sha256=` and the hexadecimal HMAC-SHA256 of the payload under the secret.
pub fn webhook_signature(secret: &str, payload: &str) -> (r: String)
    ensures
        r@ == "sha256="@ + hex_of(hmac_sha256(vstd::utf8::encode_utf8(secret@), vstd::utf8::encode_utf8(payload@))),
{
    let tag = hmac_sha256_tag(secret.as_bytes(), payload.as_bytes());
    let mut r = String::from_str("sha256=");
    let h = hex_encode(&tag);
    r.append(h.as_str());
    r
}

} // verus!
