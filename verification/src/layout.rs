//! Where each kind of record of a node is stored under its data directory.
//! Tenant, agent, job and topic names are made safe as file names first.

use vstd::prelude::*;
use vstd::string::*;
use crate::text::{join, join_path, sanitize_id, sanitized};

verus! {

/// `name` made safe, with `.json`.
pub open spec fn json_file(name: Seq<char>) -> Seq<char> {
    sanitized(name) + ".json"@
}

fn json_file_name(name: &str) -> (r: String)
    ensures
        r@ == json_file(name@),
{
    let mut f = sanitize_id(name);
    f.append(".json");
    f
}

/// The scheduled jobs.
pub fn jobs_path(base_dir: &str) -> (r: String)
    ensures
        r@ == join_path(join_path(base_dir@, "scheduler"@), "jobs.json"@),
{
    let d = join(base_dir, "scheduler");
    join(d.as_str(), "jobs.json")
}

/// The run history of the job `job_id`.
pub fn job_history_path(base_dir: &str, job_id: &str) -> (r: String)
    ensures
        r@ == join_path(join_path(join_path(base_dir@, "scheduler"@), "history"@), sanitized(job_id@) + ".jsonl"@),
{
    let d = join(base_dir, "scheduler");
    let h = join(d.as_str(), "history");
    let mut f = sanitize_id(job_id);
    f.append(".jsonl");
    join(h.as_str(), f.as_str())
}

/// The policy of a tenant.
pub fn policy_path(base_dir: &str, tenant_id: &str) -> (r: String)
    ensures
        r@ == join_path(join_path(base_dir@, "policies"@), json_file(tenant_id@)),
{
    let d = join(base_dir, "policies");
    let f = json_file_name(tenant_id);
    join(d.as_str(), f.as_str())
}

/// The model registry.
pub fn models_registry_path(base_dir: &str) -> (r: String)
    ensures
        r@ == join_path(join_path(base_dir@, "models"@), "registry.json"@),
{
    let d = join(base_dir, "models");
    join(d.as_str(), "registry.json")
}

/// The model usage of a tenant.
pub fn model_usage_path(base_dir: &str, tenant_id: &str) -> (r: String)
    ensures
        r@ == join_path(join_path(join_path(base_dir@, "models"@), "usage"@), json_file(tenant_id@)),
{
    let d = join(base_dir, "models");
    let u = join(d.as_str(), "usage");
    let f = json_file_name(tenant_id);
    join(u.as_str(), f.as_str())
}

/// The memory store of an agent of a tenant.
pub fn memory_store_path(base_dir: &str, tenant_id: &str, agent_id: &str) -> (r: String)
    ensures
        r@ == join_path(join_path(join_path(join_path(base_dir@, "memory"@), sanitized(tenant_id@)), sanitized(agent_id@)),
            "store.json"@),
{
    let d = join(base_dir, "memory");
    let t = sanitize_id(tenant_id);
    let dt = join(d.as_str(), t.as_str());
    let a = sanitize_id(agent_id);
    let da = join(dt.as_str(), a.as_str());
    join(da.as_str(), "store.json")
}

/// The health record of an agent of a tenant.
pub fn health_path(base_dir: &str, tenant_id: &str, agent_id: &str) -> (r: String)
    ensures
        r@ == join_path(join_path(join_path(base_dir@, "health"@), sanitized(tenant_id@)), json_file(agent_id@)),
{
    let d = join(base_dir, "health");
    let t = sanitize_id(tenant_id);
    let dt = join(d.as_str(), t.as_str());
    let f = json_file_name(agent_id);
    join(dt.as_str(), f.as_str())
}

/// The sealed secrets of a tenant.
pub fn secrets_path(base_dir: &str, tenant_id: &str) -> (r: String)
    ensures
        r@ == join_path(join_path(base_dir@, "secrets"@), json_file(tenant_id@)),
{
    let d = join(base_dir, "secrets");
    let f = json_file_name(tenant_id);
    join(d.as_str(), f.as_str())
}

/// The directory of the message topics.
pub fn messages_root(base_dir: &str) -> (r: String)
    ensures
        r@ == join_path(base_dir@, "messages"@),
{
    join(base_dir, "messages")
}

/// The directory of a topic.
pub fn topic_dir(base_dir: &str, topic: &str) -> (r: String)
    ensures
        r@ == join_path(join_path(base_dir@, "messages"@), sanitized(topic@)),
{
    let d = messages_root(base_dir);
    let t = sanitize_id(topic);
    join(d.as_str(), t.as_str())
}

/// The messages of a topic.
pub fn messages_path(base_dir: &str, topic: &str) -> (r: String)
    ensures
        r@ == join_path(join_path(join_path(base_dir@, "messages"@), sanitized(topic@)), "messages.jsonl"@),
{
    let d = topic_dir(base_dir, topic);
    join(d.as_str(), "messages.jsonl")
}

/// The meta record of a topic.
pub fn meta_path(base_dir: &str, topic: &str) -> (r: String)
    ensures
        r@ == join_path(join_path(join_path(base_dir@, "messages"@), sanitized(topic@)), "meta.json"@),
{
    let d = topic_dir(base_dir, topic);
    join(d.as_str(), "meta.json")
}

} // verus!
