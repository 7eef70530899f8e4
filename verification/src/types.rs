//! Records shared across the platform: node configuration, agent
//! specifications, control-plane messages and events.

use vstd::prelude::*;
use std::collections::HashMap;

verus! {

/// Configuration of a node.
pub struct NodeConfig {
    pub node_id: String,
    pub provider_id: String,
    pub secret_keys: Vec<String>,
    pub profile: NodeProfile,
    pub network: NodeNetworkPolicy,
    /// `"default"` when not configured.
    pub region: String,
    pub jwt_secret: Option<String>,
}

pub struct NodeNetworkPolicy {
    pub rate_limit_rps: u32,
}

pub struct NodeProfile {
    pub os: String,
    pub arch: String,
    pub ram_gb: u32,
    pub runtimes: Vec<String>,
    pub llm: Option<NodeLLMProfile>,
}

pub struct NodeLLMProfile {
    pub provider: String,
    pub model: String,
    pub endpoint: String,
}

/// A command sent from the control plane to a node.
pub struct RemoteCommand {
    pub id: String,
    pub action: String,
    pub agent: String,
    pub tenant: String,
    pub params: Option<HashMap<String, String>>,
}

/// A node's answer to a command.
pub struct CommandResult {
    pub command_id: String,
    pub status: String,
    pub message: String,
}

/// The specification of an agent, as its `agent.yaml` declares it.
pub struct AgentSpec {
    pub name: String,
    pub version: String,
    pub runtime: AgentRuntimeConfig,
    pub llm: AgentLLMConfig,
    pub capabilities: Vec<String>,
    pub triggers: Vec<String>,
    pub resources: AgentResourceLimits,
    pub permissions: AgentPermissionConfig,
    pub compatibility: AgentCompatibility,
    pub restart_policy: Option<RestartPolicy>,
    pub volumes: Vec<VolumeSpec>,
}

/// A named persistent volume mounted into the tenant workspace.
pub struct VolumeSpec {
    pub name: String,
    /// Advisory size, e.g. `"1gb"`.
    pub size: String,
}

pub struct RestartPolicy {
    pub max_restarts: u32,
    pub window_secs: u32,
}

/// How an agent is launched.
pub struct AgentRuntimeConfig {
    /// `python3`, `node`, `go`, `deno`, `bun`, `ruby`, `gx`, `rust`, `shell`, or another.
    pub kind: String,
    /// Entry point, relative to the agent package.
    pub entry: String,
    pub env: Option<HashMap<String, String>>,
    /// Launch command template; `{entry}` stands for the entry point.
    pub command: Option<String>,
    /// Where to download the runtime when the node lacks it.
    pub install: Option<RuntimeInstallConfig>,
}

/// Download URLs of a runtime, per platform.
pub struct RuntimeInstallConfig {
    pub linux: Option<String>,
    pub macos: Option<String>,
    pub windows: Option<String>,
    /// A cross-platform install script.
    pub script: Option<String>,
    /// Expected SHA-256 hex digest of the download.
    pub sha256: Option<String>,
}

pub struct AgentLLMConfig {
    pub required: bool,
    pub provider: String,
    pub fallback: bool,
}

pub struct AgentResourceLimits {
    /// CPU share as the bits of an IEEE 754 single.
    pub cpu_bits: u32,
    pub memory: String,
    pub timeout: u32,
}

pub struct AgentPermissionConfig {
    pub network: String,
    pub filesystem: String,
    pub processes: String,
}

pub struct AgentCompatibility {
    pub os: Vec<String>,
    pub arch: Vec<String>,
}

/// An entry of the event spine.
pub struct ApolloEvent {
    pub timestamp: u64,
    pub node_id: String,
    pub level: String,
    pub category: String,
    pub action: String,
    pub message: String,
    pub correlation_id: Option<String>,
    pub metadata: Option<HashMap<String, String>>,
}

/// A tenant and its plan.
pub struct TenantRecord {
    pub id: String,
    pub plan: ResourcePlan,
    pub active_agents: Vec<String>,
}

/// What a tenant may use.
pub struct ResourcePlan {
    pub max_agents: u32,
    /// CPU limit as the bits of an IEEE 754 single.
    pub cpu_limit_bits: u32,
    pub memory_limit: String,
}

/// A registered agent package.
pub struct AgentRecord {
    pub id: String,
    pub spec: AgentSpec,
    /// SHA-256 of the package, in hexadecimal.
    pub checksum: String,
    pub created_at: u64,
    /// The version before the last update.
    pub prev_version: Option<String>,
}

/// A running (or stopped) agent process of a tenant.
pub struct AgentInstance {
    pub id: String,
    pub agent_id: String,
    pub tenant_id: String,
    /// `"running"` or `"stopped"`.
    pub status: String,
    pub pid: Option<u32>,
    pub port: Option<u16>,
    pub stats: ExecutionStats,
    pub created_at: u64,
}

/// Resource figures of an instance.
pub struct ExecutionStats {
    /// CPU use in percent, as the bits of an IEEE 754 single.
    pub cpu_usage_pct_bits: u32,
    pub memory_mb: u64,
    pub uptime_secs: u64,
    pub restart_count: u32,
    pub last_restart: u64,
    pub is_failed: bool,
}

impl ExecutionStats {
    /// The figures of an instance (re)started at `now`.
    pub fn started_at(now: u64) -> (s: ExecutionStats)
        ensures
            s.cpu_usage_pct_bits == 0 && s.memory_mb == 0 && s.uptime_secs == 0 && s.restart_count == 0
                && s.last_restart == now && !s.is_failed,
    {
        ExecutionStats { cpu_usage_pct_bits: 0, memory_mb: 0, uptime_secs: 0, restart_count: 0, last_restart: now, is_failed: false }
    }
}

} // verus!
