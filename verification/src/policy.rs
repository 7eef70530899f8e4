//! Governance: per-tenant policies and the decisions taken on them before
//! every agent operation.

use vstd::prelude::*;
use vstd::string::*;
use std::collections::HashMap;
use crate::text::{str_eq, list_contains, lists, push_decimal, decimal};

verus! {

/// Model rules attached to a tenant policy.
pub struct ModelPolicy {
    /// When set, only these model ids may be used.
    pub allowed_models: Option<Vec<String>>,
    /// Model used when the agent names none.
    pub preferred_model: Option<String>,
    /// Largest estimated cost of one call, in US dollars, as the bits of an
    /// IEEE 754 double.
    pub max_cost_per_request_usd_bits: Option<u64>,
    /// Only local models are permitted.
    pub require_local: bool,
}

/// The policy of one tenant.
pub struct TenantPolicy {
    pub tenant_id: String,
    /// Most concurrent agent instances.
    pub max_instances: Option<u32>,
    /// CPU cap per instance as the bits of an IEEE 754 single (a fraction of
    /// one core).
    pub max_cpu_pct_bits: Option<u32>,
    /// Memory cap per instance, in MB.
    pub max_memory_mb: Option<u64>,
    /// When set, only these agents may be started.
    pub allowed_agents: Option<Vec<String>>,
    /// These agents are always refused.
    pub blocked_agents: Vec<String>,
    /// When set, only these tools are allowed.
    pub allowed_tools: Option<Vec<String>>,
    /// These tools are always refused.
    pub blocked_tools: Vec<String>,
    /// When set, the tenant's agents may only run in this region.
    pub data_residency: Option<String>,
    /// Request rate cap, per second.
    pub rate_limit_rps: Option<u32>,
    /// LLM tokens allowed per day.
    pub max_tokens_per_day: Option<u64>,
    pub model_policy: ModelPolicy,
    /// Injected into every agent process.
    pub forced_env: HashMap<String, String>,
    /// Never injected, whatever their source.
    pub blocked_env_keys: Vec<String>,
    /// Every start and stop is audited.
    pub require_audit: bool,
    /// Longest run of one instance, in seconds.
    pub max_run_secs: Option<u64>,
    pub created_at: u64,
    pub updated_at: u64,
}

impl TenantPolicy {
    /// The permissive policy a tenant has when none was set, created at `now`.
    pub fn permissive(tenant_id: String, now: u64) -> (p: TenantPolicy)
        ensures
            p.tenant_id == tenant_id,
            is_permissive(p),
            p.created_at == now,
            p.updated_at == now,
    {
        TenantPolicy {
            tenant_id,
            max_instances: None,
            max_cpu_pct_bits: None,
            max_memory_mb: None,
            allowed_agents: None,
            blocked_agents: Vec::new(),
            allowed_tools: None,
            blocked_tools: Vec::new(),
            data_residency: None,
            rate_limit_rps: None,
            max_tokens_per_day: None,
            model_policy: ModelPolicy {
                allowed_models: None,
                preferred_model: None,
                max_cost_per_request_usd_bits: None,
                require_local: false,
            },
            forced_env: HashMap::new(),
            blocked_env_keys: Vec::new(),
            require_audit: false,
            max_run_secs: None,
            created_at: now,
            updated_at: now,
        }
    }
}

/// A policy that constrains nothing.
pub open spec fn is_permissive(p: TenantPolicy) -> bool {
    &&& p.max_instances is None
    &&& p.max_cpu_pct_bits is None
    &&& p.max_memory_mb is None
    &&& p.allowed_agents is None
    &&& p.blocked_agents@.len() == 0
    &&& p.allowed_tools is None
    &&& p.blocked_tools@.len() == 0
    &&& p.data_residency is None
    &&& p.rate_limit_rps is None
    &&& p.max_tokens_per_day is None
    &&& p.model_policy.allowed_models is None
    &&& p.model_policy.preferred_model is None
    &&& p.model_policy.max_cost_per_request_usd_bits is None
    &&& !p.model_policy.require_local
    &&& p.forced_env@ == Map::<String, String>::empty()
    &&& p.blocked_env_keys@.len() == 0
    &&& !p.require_audit
    &&& p.max_run_secs is None
}

/// Why a policy refused an operation.
pub enum PolicyViolation {
    AgentBlocked,
    AgentNotAllowed,
    RegionMismatch,
    CapacityExceeded,
    ToolBlocked,
    TokenBudgetExceeded,
    ModelNotAllowed,
    RunTimeLimitExceeded,
    Custom(String),
}

/// The outcome of a policy check.
pub enum PolicyDecision {
    Allow,
    Deny { reason: String, code: PolicyViolation },
}

/// `d` is the decision `v`: allowed when `v` is `None`, refused with the
/// code and reason `v` holds otherwise.
pub open spec fn decides(d: PolicyDecision, v: Option<(PolicyViolation, Seq<char>)>) -> bool {
    match v {
        None => d is Allow,
        Some((code, reason)) => d matches PolicyDecision::Deny { reason: r, code: c } && c == code && r@ == reason,
    }
}

/// Whether `agent` may start in `region` with `current` instances running,
/// and if not, why: the block list first, then the allow list, the data
/// residency and the instance cap.
pub open spec fn run_verdict(p: TenantPolicy, agent: Seq<char>, region: Seq<char>, current: u32)
    -> Option<(PolicyViolation, Seq<char>)> {
    if lists(p.blocked_agents@, agent) {
        Some((PolicyViolation::AgentBlocked, "Agent '"@ + agent + "' is blocked by tenant policy"@))
    } else if p.allowed_agents matches Some(allow) && !lists(allow@, agent) {
        Some((PolicyViolation::AgentNotAllowed, "Agent '"@ + agent + "' is not in tenant's allowed_agents list"@))
    } else if p.data_residency matches Some(req) && req@ != region && req@ != "any"@ {
        Some((PolicyViolation::RegionMismatch,
            "Tenant data residency policy requires region '"@ + p.data_residency->0@ + "', node is '"@ + region + "'"@))
    } else if p.max_instances matches Some(max) && current >= max {
        Some((PolicyViolation::CapacityExceeded,
            "Tenant capacity limit reached ("@ + decimal(current as nat) + "/"@ + decimal(p.max_instances->0 as nat) + ")"@))
    } else {
        None
    }
}

/// Whether `tool` may be called, and if not, why.
pub open spec fn tool_verdict(p: TenantPolicy, tool: Seq<char>) -> Option<(PolicyViolation, Seq<char>)> {
    if lists(p.blocked_tools@, tool) {
        Some((PolicyViolation::ToolBlocked, "Tool '"@ + tool + "' is blocked by tenant policy"@))
    } else if p.allowed_tools matches Some(allow) && !lists(allow@, tool) {
        Some((PolicyViolation::ToolBlocked, "Tool '"@ + tool + "' is not in tenant's allowed_tools list"@))
    } else {
        None
    }
}

/// Whether `model` may be used, and if not, why.
pub open spec fn model_verdict(p: TenantPolicy, model: Seq<char>) -> Option<(PolicyViolation, Seq<char>)> {
    if p.model_policy.allowed_models matches Some(allow) && !lists(allow@, model) {
        Some((PolicyViolation::ModelNotAllowed, "Model '"@ + model + "' is not allowed by tenant policy"@))
    } else {
        None
    }
}

/// `a + b + c` as a string.
fn join3(a: &str, b: &str, c: &str) -> (r: String)
    ensures
        r@ == a@ + b@ + c@,
{
    let mut r = String::from_str(a);
    r.append(b);
    r.append(c);
    r
}

/// The policy engine of a node, rooted at its data directory.
pub struct PolicyEngine {
    pub base_dir: String,
}

impl PolicyEngine {
    pub fn new(base_dir: String) -> (e: PolicyEngine)
        ensures
            e.base_dir == base_dir,
    {
        PolicyEngine { base_dir }
    }

    /// Whether the tenant of `p` may start `agent_name` on a node of
    /// `node_region` while `current_instances` of its instances run.
    pub fn check_run(&self, p: &TenantPolicy, agent_name: &str, node_region: &str, current_instances: u32) -> (d: PolicyDecision)
        ensures
            decides(d, run_verdict(*p, agent_name@, node_region@, current_instances)),
    {
        if list_contains(&p.blocked_agents, agent_name) {
            return PolicyDecision::Deny {
                reason: join3("Agent '", agent_name, "' is blocked by tenant policy"),
                code: PolicyViolation::AgentBlocked,
            };
        }
        if let Some(allow) = &p.allowed_agents {
            if !list_contains(allow, agent_name) {
                return PolicyDecision::Deny {
                    reason: join3("Agent '", agent_name, "' is not in tenant's allowed_agents list"),
                    code: PolicyViolation::AgentNotAllowed,
                };
            }
        }
        if let Some(required) = &p.data_residency {
            if !str_eq(required.as_str(), node_region) && !str_eq(required.as_str(), "any") {
                let mut reason = join3("Tenant data residency policy requires region '", required.as_str(), "', node is '");
                reason.append(node_region);
                reason.append("'");
                return PolicyDecision::Deny { reason, code: PolicyViolation::RegionMismatch };
            }
        }
        if let Some(max) = p.max_instances {
            if current_instances >= max {
                let mut reason = String::from_str("Tenant capacity limit reached (");
                push_decimal(&mut reason, current_instances as u64);
                reason.append("/");
                push_decimal(&mut reason, max as u64);
                reason.append(")");
                return PolicyDecision::Deny { reason, code: PolicyViolation::CapacityExceeded };
            }
        }
        PolicyDecision::Allow
    }

    /// Whether the tenant of `p` may call `tool_name`.
    pub fn check_tool(&self, p: &TenantPolicy, tool_name: &str) -> (d: PolicyDecision)
        ensures
            decides(d, tool_verdict(*p, tool_name@)),
    {
        if list_contains(&p.blocked_tools, tool_name) {
            return PolicyDecision::Deny {
                reason: join3("Tool '", tool_name, "' is blocked by tenant policy"),
                code: PolicyViolation::ToolBlocked,
            };
        }
        if let Some(allow) = &p.allowed_tools {
            if !list_contains(allow, tool_name) {
                return PolicyDecision::Deny {
                    reason: join3("Tool '", tool_name, "' is not in tenant's allowed_tools list"),
                    code: PolicyViolation::ToolBlocked,
                };
            }
        }
        PolicyDecision::Allow
    }

    /// Whether the tenant of `p` may use `model_id`.
    pub fn check_model(&self, p: &TenantPolicy, model_id: &str) -> (d: PolicyDecision)
        ensures
            decides(d, model_verdict(*p, model_id@)),
    {
        if let Some(allowed) = &p.model_policy.allowed_models {
            if !list_contains(allowed, model_id) {
                return PolicyDecision::Deny {
                    reason: join3("Model '", model_id, "' is not allowed by tenant policy"),
                    code: PolicyViolation::ModelNotAllowed,
                };
            }
        }
        PolicyDecision::Allow
    }

    /// The variables injected into, and the keys withheld from, every agent
    /// process of the tenant of `p`.
    pub fn effective_env(&self, p: TenantPolicy) -> (r: (HashMap<String, String>, Vec<String>))
        ensures
            r.0 == p.forced_env,
            r.1 == p.blocked_env_keys,
    {
        (p.forced_env, p.blocked_env_keys)
    }

    /// The tenant's own request rate cap, if it has one.
    pub fn effective_rate_limit(&self, p: &TenantPolicy) -> (r: Option<u32>)
        ensures
            r == p.rate_limit_rps,
    {
        p.rate_limit_rps
    }
}

/// A compliance summary of one tenant.
pub struct ComplianceReport {
    pub tenant_id: String,
    /// The tenant has a policy of its own.
    pub policy_active: bool,
    pub data_residency: Option<String>,
    pub agent_restrictions: bool,
    pub tool_restrictions: bool,
    pub model_restrictions: bool,
    pub require_audit: bool,
    pub max_instances: Option<u32>,
    pub max_tokens_per_day: Option<u64>,
    pub generated_at: u64,
}

/// The compliance summary of the tenant `tenant_id` under its policy `p`.
pub fn compliance_report(p: TenantPolicy, tenant_id: &str, policy_active: bool, generated_at: u64) -> (r: ComplianceReport)
    ensures
        r.tenant_id@ == tenant_id@,
        r.policy_active == policy_active,
        r.data_residency == p.data_residency,
        r.agent_restrictions == (p.allowed_agents is Some || p.blocked_agents@.len() > 0),
        r.tool_restrictions == (p.allowed_tools is Some || p.blocked_tools@.len() > 0),
        r.model_restrictions == p.model_policy.allowed_models is Some,
        r.require_audit == p.require_audit,
        r.max_instances == p.max_instances,
        r.max_tokens_per_day == p.max_tokens_per_day,
        r.generated_at == generated_at,
{
    let agent_restrictions = p.allowed_agents.is_some() || p.blocked_agents.len() > 0;
    let tool_restrictions = p.allowed_tools.is_some() || p.blocked_tools.len() > 0;
    let model_restrictions = p.model_policy.allowed_models.is_some();
    ComplianceReport {
        tenant_id: tenant_id.to_owned(),
        policy_active,
        data_residency: p.data_residency,
        agent_restrictions,
        tool_restrictions,
        model_restrictions,
        require_audit: p.require_audit,
        max_instances: p.max_instances,
        max_tokens_per_day: p.max_tokens_per_day,
        generated_at,
    }
}

} // verus!
