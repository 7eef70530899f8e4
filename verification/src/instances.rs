//! The process runtime of a node: where an agent's files live, the
//! instance records of each tenant and the decisions taken on them, the
//! environment an agent is launched with, and the resource monitor.

use vstd::prelude::*;
use vstd::string::*;
use crate::text::{str_eq, join, join_path, push_decimal, decimal, push_char, chars_of, string_of};
use crate::types::{AgentInstance, ExecutionStats, VolumeSpec};
use crate::cron::{is_digit, all_digits, digits_value, lemma_digits_value_prefix};
use crate::fetch::{ends_with, ends_with_str, starts_with, starts_with_str, lowercase, to_lowercase};
use crate::runtime_registry::{trimmed, trim_text, path_exists};
use crate::text::texts;
use crate::text::{split_char, split_on};

verus! {

// ── File layout ──────────────────────────────────────────────────────────────

/// The process runtime of a node rooted at `base_dir`.
pub struct ProcessRuntime {
    pub base_dir: String,
}

impl ProcessRuntime {
    pub fn new(base_dir: String) -> (r: ProcessRuntime)
        ensures
            r.base_dir == base_dir,
    {
        ProcessRuntime { base_dir }
    }

    /// Where the code of the agent `name` is unpacked.
    pub fn agent_code_dir(&self, name: &str) -> (r: String)
        ensures
            r@ == join_path(join_path(self.base_dir@, "agents"@), name@),
    {
        let d = join(self.base_dir.as_str(), "agents");
        join(d.as_str(), name)
    }

    /// The working directory of the agent `name` for `tenant_id`.
    pub fn tenant_workspace_dir(&self, tenant_id: &str, name: &str) -> (r: String)
        ensures
            r@ == join_path(join_path(join_path(self.base_dir@, "tenants"@), tenant_id@), name@),
    {
        let d = join(self.base_dir.as_str(), "tenants");
        let t = join(d.as_str(), tenant_id);
        join(t.as_str(), name)
    }

    /// The log file of the agent `name` for `tenant_id`.
    pub fn tenant_log_file(&self, tenant_id: &str, name: &str) -> (r: String)
        ensures
            r@ == join_path(join_path(join_path(self.base_dir@, "logs"@), tenant_id@), name@ + ".log"@),
    {
        let d = join(self.base_dir.as_str(), "logs");
        let t = join(d.as_str(), tenant_id);
        let mut f = String::from_str(name);
        f.append(".log");
        join(t.as_str(), f.as_str())
    }

    /// Where runtimes are installed locally.
    pub fn runtimes_dir(&self) -> (r: String)
        ensures
            r@ == join_path(self.base_dir@, "runtimes"@),
    {
        join(self.base_dir.as_str(), "runtimes")
    }

    /// The file holding the process id of the agent `name` for `tenant_id`.
    pub fn pid_file(&self, tenant_id: &str, name: &str) -> (r: String)
        ensures
            r@ == join_path(join_path(join_path(join_path(self.base_dir@, "tenants"@), tenant_id@), name@), ".apollo.pid"@),
    {
        let w = self.tenant_workspace_dir(tenant_id, name);
        join(w.as_str(), ".apollo.pid")
    }

    /// The directory of the volume `volume` of the agent `name` for
    /// `tenant_id`.
    pub fn volume_dir(&self, tenant_id: &str, name: &str, volume: &str) -> (r: String)
        ensures
            r@ == join_path(join_path(join_path(join_path(self.base_dir@, "volumes"@), tenant_id@), name@), volume@),
    {
        let d = join(self.base_dir.as_str(), "volumes");
        let t = join(d.as_str(), tenant_id);
        let n = join(t.as_str(), name);
        join(n.as_str(), volume)
    }
}

// ── Instance records ─────────────────────────────────────────────────────────

/// The id of an instance of `name` started at `now`.
pub open spec fn instance_id_of(name: Seq<char>, now: u64) -> Seq<char> {
    name + "-"@ + decimal((now % 100000) as nat)
}

pub fn instance_id(name: &str, now: u64) -> (r: String)
    ensures
        r@ == instance_id_of(name@, now),
{
    let mut r = String::from_str(name);
    r.append("-");
    push_decimal(&mut r, now % 100000);
    r
}

/// The record of an instance of `name` just started for `tenant_id` at
/// `now` as the process `pid`, listening on `port`.
pub fn started_instance(name: &str, tenant_id: &str, pid: Option<u32>, port: u16, now: u64) -> (r: AgentInstance)
    ensures
        r.id@ == instance_id_of(name@, now),
        r.agent_id@ == name@,
        r.tenant_id@ == tenant_id@,
        r.status@ == "running"@,
        r.pid == pid,
        r.port == Some(port),
        r.stats == ExecutionStats::started_at_spec(now),
        r.created_at == now,
{
    AgentInstance {
        id: instance_id(name, now),
        agent_id: String::from_str(name),
        tenant_id: String::from_str(tenant_id),
        status: String::from_str("running"),
        pid,
        port: Some(port),
        stats: ExecutionStats::started_at(now),
        created_at: now,
    }
}

impl ExecutionStats {
    pub open spec fn started_at_spec(now: u64) -> ExecutionStats {
        ExecutionStats { cpu_usage_pct_bits: 0, memory_mb: 0, uptime_secs: 0, restart_count: 0, last_restart: now, is_failed: false }
    }
}

pub open spec fn is_running(i: AgentInstance) -> bool {
    i.status@ == "running"@
}

/// The number of running instances.
pub fn count_running(insts: &Vec<AgentInstance>) -> (n: usize)
    ensures
        n == insts@.filter(|i: AgentInstance| is_running(i)).len(),
{
    let ghost pred = |i: AgentInstance| is_running(i);
    let mut n: usize = 0;
    let mut k: usize = 0;
    proof {
        reveal(Seq::filter);
        assert(insts@.take(0) =~= Seq::<AgentInstance>::empty());
    }
    while k < insts.len()
        invariant
            pred == (|i: AgentInstance| is_running(i)),
            k <= insts.len(),
            n <= k,
            n == insts@.take(k as int).filter(pred).len(),
        decreases insts.len() - k,
    {
        proof {
            assert(insts@.take(k + 1) =~= insts@.take(k as int).push(insts@[k as int]));
            insts@.take(k as int).lemma_filter_push(insts@[k as int], pred);
            reveal_strlit("running");
        }
        if str_eq(insts[k].status.as_str(), "running") {
            n += 1;
        }
        k += 1;
    }
    proof {
        assert(insts@.take(insts.len() as int) =~= insts@);
    }
    n
}

/// Index of the first instance at or after `k` satisfying `p`, or -1.
pub open spec fn first_where(s: Seq<AgentInstance>, p: spec_fn(AgentInstance) -> bool, k: int) -> int
    decreases s.len() - k,
{
    if k < 0 || k >= s.len() { -1 } else if p(s[k]) { k } else { first_where(s, p, k + 1) }
}

proof fn lemma_first_where(s: Seq<AgentInstance>, p: spec_fn(AgentInstance) -> bool, k: int)
    requires
        0 <= k <= s.len(),
    ensures
        first_where(s, p, k) == -1 || (k <= first_where(s, p, k) < s.len() && p(s[first_where(s, p, k)])),
        first_where(s, p, k) == -1 <==> forall|q: int| k <= q < s.len() ==> !p(#[trigger] s[q]),
    decreases s.len() - k,
{
    if k < s.len() && !p(s[k]) {
        lemma_first_where(s, p, k + 1);
    }
}

pub open spec fn has_id(id: Seq<char>) -> spec_fn(AgentInstance) -> bool {
    |i: AgentInstance| i.id@ == id
}

pub open spec fn of_agent(agent: Seq<char>, tenant: Seq<char>) -> spec_fn(AgentInstance) -> bool {
    |i: AgentInstance| i.agent_id@ == agent && i.tenant_id@ == tenant
}

/// Stores `inst` in the list: in place of the first instance with its id,
/// or at the end.
pub fn upsert_instance(insts: &mut Vec<AgentInstance>, inst: AgentInstance)
    ensures
        ({
            let p = first_where(old(insts)@, has_id(inst.id@), 0);
            if p == -1 { final(insts)@ == old(insts)@.push(inst) } else { final(insts)@ == old(insts)@.update(p, inst) }
        }),
{
    let ghost pred = has_id(inst.id@);
    proof {
        lemma_first_where(insts@, pred, 0);
    }
    let mut k: usize = 0;
    while k < insts.len()
        invariant
            pred == has_id(inst.id@),
            insts@ == old(insts)@,
            k <= insts.len(),
            first_where(insts@, pred, 0) == first_where(insts@, pred, k as int),
        decreases insts.len() - k,
    {
        if str_eq(insts[k].id.as_str(), inst.id.as_str()) {
            insts.set(k, inst);
            return;
        }
        k += 1;
    }
    insts.push(inst);
}

/// Stops the first instance of `agent` for `tenant`: when it has a process,
/// it becomes stopped without one, and its process id is returned to be
/// killed. `None` in the first place when there is no such instance.
pub fn stop_instance(insts: &mut Vec<AgentInstance>, agent: &str, tenant: &str) -> (r: Option<Option<u32>>)
    ensures
        ({
            let p = first_where(old(insts)@, of_agent(agent@, tenant@), 0);
            if p == -1 {
                &&& r is None
                &&& final(insts)@ == old(insts)@
            } else {
                let i = old(insts)@[p];
                &&& r == Some(i.pid)
                &&& final(insts)@.len() == old(insts)@.len()
                &&& forall|q: int| 0 <= q < old(insts)@.len() && q != p ==> #[trigger] final(insts)@[q] == old(insts)@[q]
                &&& i.pid is None ==> final(insts)@[p] == i
                &&& i.pid is Some ==> {
                    let f = final(insts)@[p];
                    &&& f.status@ == "stopped"@
                    &&& f.pid is None
                    &&& f.id == i.id && f.agent_id == i.agent_id && f.tenant_id == i.tenant_id
                    &&& f.port == i.port && f.stats == i.stats && f.created_at == i.created_at
                }
            }
        }),
{
    let ghost pred = of_agent(agent@, tenant@);
    proof {
        lemma_first_where(insts@, pred, 0);
    }
    let mut k: usize = 0;
    while k < insts.len()
        invariant
            pred == of_agent(agent@, tenant@),
            insts@ == old(insts)@,
            k <= insts.len(),
            first_where(insts@, pred, 0) == first_where(insts@, pred, k as int),
        decreases insts.len() - k,
    {
        if str_eq(insts[k].agent_id.as_str(), agent) && str_eq(insts[k].tenant_id.as_str(), tenant) {
            let pid = insts[k].pid;
            if pid.is_some() {
                let ghost o = insts@;
                let mut i = insts.remove(k);
                i.status = String::from_str("stopped");
                i.pid = None;
                insts.insert(k, i);
                proof {
                    assert(insts@ =~= o.update(k as int, i));
                }
            }
            return Some(pid);
        }
        k += 1;
    }
    None
}

/// An instance is brought back up at startup when it should be running
/// but its process is gone.
pub fn needs_recovery(inst: &AgentInstance, alive: bool) -> (b: bool)
    ensures
        b == (!alive && is_running(*inst)),
{
    proof {
        reveal_strlit("running");
    }
    !alive && str_eq(inst.status.as_str(), "running")
}

// ── Resource monitor ─────────────────────────────────────────────────────────

/// What the monitor does after one sample.
pub enum MonitorAction {
    Continue,
    /// The memory limit is exceeded.
    KillForMemory,
    /// The CPU limit was exceeded on three samples in a row.
    KillForCpu,
}

/// One step of the resource monitor: with `strikes` samples in a row over
/// the CPU limit so far, a sample of `mem_mb` against `mem_limit_mb` and
/// whether the CPU was over its limit. Returns the action and the new count.
pub fn monitor_step(strikes: u32, mem_mb: u64, mem_limit_mb: u64, cpu_over: bool) -> (r: (MonitorAction, u32))
    requires
        cpu_over ==> strikes < u32::MAX,
    ensures
        mem_mb > mem_limit_mb ==> r.0 is KillForMemory && r.1 == strikes,
        mem_mb <= mem_limit_mb && cpu_over ==> r.1 == strikes + 1
            && (if strikes + 1 >= 3 { r.0 is KillForCpu } else { r.0 is Continue }),
        mem_mb <= mem_limit_mb && !cpu_over ==> r.0 is Continue && r.1 == 0,
{
    if mem_mb > mem_limit_mb {
        return (MonitorAction::KillForMemory, strikes);
    }
    if cpu_over {
        let s = strikes + 1;
        if s >= 3 {
            (MonitorAction::KillForCpu, s)
        } else {
            (MonitorAction::Continue, s)
        }
    } else {
        (MonitorAction::Continue, 0)
    }
}

// ── Memory limits ────────────────────────────────────────────────────────────

/// The value `str::parse::<u64>` gives of `s`: an optional `+`, then at
/// least one ASCII digit, with a value that fits 64 bits.
pub open spec fn parse_u64_spec(s: Seq<char>) -> Option<u64> {
    let d = if s.len() > 0 && s[0] == '+' { s.drop_first() } else { s };
    if d.len() > 0 && all_digits(d) && digits_value(d) <= u64::MAX {
        Some(digits_value(d) as u64)
    } else {
        None
    }
}

/// Parses `s` as `str::parse::<u64>` does.
pub fn parse_u64(s: &str) -> (r: Option<u64>)
    ensures
        r == parse_u64_spec(s@),
{
    let v = chars_of(s);
    let hi = v.len();
    let mut i: usize = 0;
    if hi > 0 && v[0] == '+' {
        i = 1;
    }
    let ghost d = v@.subrange(i as int, hi as int);
    proof {
        if s@.len() > 0 && s@[0] == '+' {
            assert(d =~= s@.drop_first());
        } else {
            assert(d =~= s@);
        }
    }
    if i == hi {
        return None;
    }
    let first = i;
    let mut value: u128 = 0;
    while i < hi
        invariant
            first <= i <= hi == v.len(),
            v@ == s@,
            d == v@.subrange(first as int, hi as int),
            d.len() > 0,
            parse_u64_spec(s@) == (if all_digits(d) && digits_value(d) <= u64::MAX {
                Some(digits_value(d) as u64)
            } else {
                None::<u64>
            }),
            all_digits(v@.subrange(first as int, i as int)),
            value as int == digits_value(v@.subrange(first as int, i as int)),
            value <= u64::MAX,
        decreases hi - i,
    {
        let c = v[i];
        if !('0' <= c && c <= '9') {
            proof {
                assert(d[i - first] == c);
                assert(!is_digit(d[i - first]));
            }
            return None;
        }
        proof {
            assert(v@.subrange(first as int, i + 1).drop_last() =~= v@.subrange(first as int, i as int));
        }
        let digit = (c as u32 - '0' as u32) as u128;
        value = value * 10 + digit;
        i += 1;
        assert(value as int == digits_value(v@.subrange(first as int, i as int)));
        proof {
            assert forall|j: int| 0 <= j < v@.subrange(first as int, i as int).len() implies
                #[trigger] is_digit(v@.subrange(first as int, i as int)[j]) by {
                if j < i - 1 - first {
                    assert(v@.subrange(first as int, i as int)[j] == v@.subrange(first as int, i - 1)[j]);
                }
            }
        }
        if value > u64::MAX as u128 {
            proof {
                if all_digits(d) {
                    lemma_digits_value_prefix(d, i - first);
                    assert(d.subrange(0, i - first) =~= v@.subrange(first as int, i as int));
                }
            }
            return None;
        }
    }
    proof {
        assert(v@.subrange(first as int, i as int) =~= d);
    }
    Some(value as u64)
}

/// `s` without every repetition of the suffix `p` at its end, as
/// `str::trim_end_matches` strips it.
pub open spec fn strip_suffixes(s: Seq<char>, p: Seq<char>) -> Seq<char>
    decreases s.len(),
{
    if p.len() > 0 && s.len() >= p.len() && ends_with(s, p) {
        strip_suffixes(s.subrange(0, s.len() - p.len()), p)
    } else {
        s
    }
}

fn strip_suffixes_exec(v: &Vec<char>, p: &Vec<char>) -> (r: Vec<char>)
    requires
        p@.len() == 2,
    ensures
        r@ == strip_suffixes(v@, p@),
{
    let mut n = v.len();
    proof {
        assert(v@.subrange(0, n as int) =~= v@);
    }
    while n >= 2 && v[n - 2] == p[0] && v[n - 1] == p[1]
        invariant
            p@.len() == 2,
            n <= v.len(),
            strip_suffixes(v@, p@) == strip_suffixes(v@.subrange(0, n as int), p@),
        decreases n,
    {
        proof {
            let t = v@.subrange(0, n as int);
            assert(t.subrange(t.len() - 2, t.len() as int) =~= p@);
            assert(t.subrange(0, t.len() - 2) =~= v@.subrange(0, n - 2));
        }
        n -= 2;
    }
    proof {
        let t = v@.subrange(0, n as int);
        if n >= 2 && ends_with(t, p@) {
            assert(t.subrange(t.len() - 2, t.len() as int)[0] == v@[n - 2]);
            assert(t.subrange(t.len() - 2, t.len() as int)[1] == v@[n - 1]);
        }
    }
    crate::text::copy_range(v, 0, n)
}

/// The memory limit, in MB, of a limit such as `"512mb"` or `"2gb"` (case
/// does not matter): a number of gigabytes counts 1024 MB each (1 GB when
/// unreadable), a number of megabytes counts as it is (512 when
/// unreadable), and anything else means 512 MB.
pub open spec fn memory_limit_of(limit: Seq<char>) -> int {
    let s = lowercase(limit);
    if ends_with(s, "gb"@) {
        let n = match parse_u64_spec(trimmed(strip_suffixes(s, "gb"@))) { Some(n) => n as int, None => 1 };
        n * 1024
    } else if ends_with(s, "mb"@) {
        match parse_u64_spec(trimmed(strip_suffixes(s, "mb"@))) { Some(n) => n as int, None => 512 }
    } else {
        512
    }
}

/// The memory limit of an agent, in MB, read from its limit text.
pub fn parse_memory_limit(limit: &str) -> (r: u64)
    requires
        memory_limit_of(limit@) <= u64::MAX,
    ensures
        r == memory_limit_of(limit@),
{
    proof {
        reveal_strlit("gb");
        reveal_strlit("mb");
    }
    let s = to_lowercase(limit);
    if ends_with_str(s.as_str(), "gb") {
        let v = chars_of(s.as_str());
        let p = chars_of("gb");
        let stripped = strip_suffixes_exec(&v, &p);
        let t = string_of(&trim_text(&stripped));
        let n = match parse_u64(t.as_str()) { Some(n) => n, None => 1 };
        n * 1024
    } else if ends_with_str(s.as_str(), "mb") {
        let v = chars_of(s.as_str());
        let p = chars_of("mb");
        let stripped = strip_suffixes_exec(&v, &p);
        let t = string_of(&trim_text(&stripped));
        match parse_u64(t.as_str()) { Some(n) => n, None => 512 }
    } else {
        512
    }
}

/// The memory limit of an agent, in MB, or `None` when it does not fit in
/// 64 bits.
pub fn memory_limit_mb(limit: &str) -> (r: Option<u64>)
    ensures
        r == if memory_limit_of(limit@) <= u64::MAX { Some(memory_limit_of(limit@) as u64) } else { None::<u64> },
{
    proof {
        reveal_strlit("gb");
    }
    let s = to_lowercase(limit);
    if ends_with_str(s.as_str(), "gb") {
        let v = chars_of(s.as_str());
        let p = chars_of("gb");
        let stripped = strip_suffixes_exec(&v, &p);
        let t = string_of(&trim_text(&stripped));
        let n = match parse_u64(t.as_str()) { Some(n) => n, None => 1 };
        if n > u64::MAX / 1024 {
            return None;
        }
    }
    Some(parse_memory_limit(limit))
}

// ── Launch environment ───────────────────────────────────────────────────────

/// What `str::to_uppercase` gives of a string.
pub uninterp spec fn uppercase(s: Seq<char>) -> Seq<char>;

/// `s` in uppercase, by std's `str::to_uppercase`.
#[verifier::external_body]
pub fn to_uppercase(s: &str) -> (r: String)
    ensures
        r@ == uppercase(s@),
{
    s.to_uppercase()
}

/// The variable a volume's directory is passed in: `APOLLO_VOLUME_` and the
/// volume's name in uppercase with `-` made `_`.
pub open spec fn volume_env_key_of(name: Seq<char>) -> Seq<char> {
    "APOLLO_VOLUME_"@ + uppercase(name).map_values(|c: char| if c == '-' { '_' } else { c })
}

pub fn volume_env_key(name: &str) -> (r: String)
    ensures
        r@ == volume_env_key_of(name@),
{
    let up = to_uppercase(name);
    let cs = chars_of(up.as_str());
    let mut r = String::from_str("APOLLO_VOLUME_");
    let ghost r0 = r@;
    let mut i: usize = 0;
    while i < cs.len()
        invariant
            cs@ == uppercase(name@),
            r0 == "APOLLO_VOLUME_"@,
            i <= cs.len(),
            r@ == r0 + cs@.take(i as int).map_values(|c: char| if c == '-' { '_' } else { c }),
        decreases cs.len() - i,
    {
        let c = cs[i];
        push_char(&mut r, if c == '-' { '_' } else { c });
        proof {
            assert(cs@.take(i + 1).map_values(|c: char| if c == '-' { '_' } else { c })
                =~= cs@.take(i as int).map_values(|c: char| if c == '-' { '_' } else { c }).push(if c == '-' { '_' } else { c }));
        }
        i += 1;
    }
    proof {
        assert(cs@.take(cs.len() as int) =~= cs@);
    }
    r
}

/// Pairs of strings as text.
pub open spec fn pair_texts(v: Seq<(String, String)>) -> Seq<(Seq<char>, Seq<char>)> {
    v.map_values(|p: (String, String)| (p.0@, p.1@))
}

/// An agent's own variables and a tenant's secrets may set any variable
/// but `PATH` and those of the `APOLLO_` namespace.
pub open spec fn env_key_allowed(k: Seq<char>) -> bool {
    !starts_with(k, "APOLLO_"@) && k != "PATH"@
}

pub open spec fn allowed_pairs(v: Seq<(Seq<char>, Seq<char>)>) -> Seq<(Seq<char>, Seq<char>)> {
    v.filter(|p: (Seq<char>, Seq<char>)| env_key_allowed(p.0))
}

/// The variables every agent gets, in the order they are set.
pub open spec fn base_env(path: Seq<char>, tenant: Seq<char>, name: Seq<char>, port: u16, workspace: Seq<char>)
    -> Seq<(Seq<char>, Seq<char>)> {
    seq![
        ("PATH"@, path),
        ("PYTHONUNBUFFERED"@, "1"@),
        ("NODE_NO_WARNINGS"@, "1"@),
        ("APOLLO_TENANT_ID"@, tenant),
        ("APOLLO_AGENT_NAME"@, name),
        ("APOLLO_PORT"@, decimal(port as nat)),
        ("APOLLO_WORKSPACE"@, workspace),
        ("NO_PROXY"@, "localhost,127.0.0.1,10.0.0.0/8,192.168.0.0/16"@),
        ("APOLLO_NETWORK_ALLOW_INTERNAL"@, "false"@),
    ]
}

fn push_pair(v: &mut Vec<(String, String)>, k: &str, val: &str)
    ensures
        pair_texts(final(v)@) == pair_texts(old(v)@).push((k@, val@)),
{
    v.push((String::from_str(k), String::from_str(val)));
    proof {
        assert(pair_texts(final(v)@) =~= pair_texts(old(v)@).push((k@, val@)));
    }
}

fn push_allowed(v: &mut Vec<(String, String)>, from: &Vec<(String, String)>)
    ensures
        pair_texts(final(v)@) == pair_texts(old(v)@) + allowed_pairs(pair_texts(from@)),
{
    let ghost pred = |p: (Seq<char>, Seq<char>)| env_key_allowed(p.0);
    let ghost src = pair_texts(from@);
    let mut i: usize = 0;
    proof {
        reveal(Seq::filter);
        assert(src.take(0).filter(pred) =~= Seq::<(Seq<char>, Seq<char>)>::empty());
        assert(pair_texts(v@) =~= pair_texts(old(v)@) + src.take(0).filter(pred));
        reveal_strlit("APOLLO_");
        reveal_strlit("PATH");
    }
    while i < from.len()
        invariant
            pred == (|p: (Seq<char>, Seq<char>)| env_key_allowed(p.0)),
            src == pair_texts(from@),
            i <= from.len(),
            pair_texts(v@) == pair_texts(old(v)@) + src.take(i as int).filter(pred),
        decreases from.len() - i,
    {
        proof {
            assert(src.take(i + 1) =~= src.take(i as int).push(src[i as int]));
            src.take(i as int).lemma_filter_push(src[i as int], pred);
        }
        let k = from[i].0.as_str();
        if !starts_with_str(k, "APOLLO_") && !str_eq(k, "PATH") {
            let ghost before = pair_texts(v@);
            push_pair(v, k, from[i].1.as_str());
            proof {
                assert(pair_texts(v@) =~= pair_texts(old(v)@) + src.take(i + 1).filter(pred));
            }
        }
        i += 1;
    }
    proof {
        assert(src.take(from.len() as int) =~= src);
    }
}

/// The environment an agent is launched with, as assignments in order (a
/// later one wins): the base variables, then the agent's own and the
/// tenant's secrets that are allowed, then the volume directories.
pub fn launch_env(path: &str, tenant_id: &str, name: &str, port: u16, workspace: &str,
    agent_env: &Vec<(String, String)>, secrets: &Vec<(String, String)>, volumes: &Vec<(String, String)>)
    -> (r: Vec<(String, String)>)
    ensures
        pair_texts(r@) == base_env(path@, tenant_id@, name@, port, workspace@)
            + allowed_pairs(pair_texts(agent_env@)) + allowed_pairs(pair_texts(secrets@)) + pair_texts(volumes@),
{
    let mut r: Vec<(String, String)> = Vec::new();
    push_pair(&mut r, "PATH", path);
    push_pair(&mut r, "PYTHONUNBUFFERED", "1");
    push_pair(&mut r, "NODE_NO_WARNINGS", "1");
    push_pair(&mut r, "APOLLO_TENANT_ID", tenant_id);
    push_pair(&mut r, "APOLLO_AGENT_NAME", name);
    let mut port_text = String::new();
    push_decimal(&mut port_text, port as u64);
    push_pair(&mut r, "APOLLO_PORT", port_text.as_str());
    push_pair(&mut r, "APOLLO_WORKSPACE", workspace);
    push_pair(&mut r, "NO_PROXY", "localhost,127.0.0.1,10.0.0.0/8,192.168.0.0/16");
    push_pair(&mut r, "APOLLO_NETWORK_ALLOW_INTERNAL", "false");
    proof {
        assert(pair_texts(r@) =~= base_env(path@, tenant_id@, name@, port, workspace@));
    }
    push_allowed(&mut r, agent_env);
    push_allowed(&mut r, secrets);
    let ghost before = pair_texts(r@);
    let mut i: usize = 0;
    while i < volumes.len()
        invariant
            i <= volumes.len(),
            pair_texts(r@) == before + pair_texts(volumes@).take(i as int),
        decreases volumes.len() - i,
    {
        push_pair(&mut r, volumes[i].0.as_str(), volumes[i].1.as_str());
        proof {
            assert(pair_texts(volumes@).take(i + 1) =~= pair_texts(volumes@).take(i as int).push(pair_texts(volumes@)[i as int]));
            assert(pair_texts(r@) =~= before + pair_texts(volumes@).take(i + 1));
        }
        i += 1;
    }
    proof {
        assert(pair_texts(volumes@).take(volumes.len() as int) =~= pair_texts(volumes@));
    }
    r
}

/// The variables that pass an agent its volume directories, in order.
pub fn volume_env(rt: &ProcessRuntime, tenant_id: &str, name: &str, volumes: &Vec<VolumeSpec>) -> (r: Vec<(String, String)>)
    ensures
        pair_texts(r@) == volumes@.map_values(|v: VolumeSpec| (volume_env_key_of(v.name@),
            join_path(join_path(join_path(join_path(rt.base_dir@, "volumes"@), tenant_id@), name@), v.name@))),
{
    let mut r: Vec<(String, String)> = Vec::new();
    let mut i: usize = 0;
    while i < volumes.len()
        invariant
            i <= volumes.len(),
            pair_texts(r@) == volumes@.take(i as int).map_values(|v: VolumeSpec| (volume_env_key_of(v.name@),
                join_path(join_path(join_path(join_path(rt.base_dir@, "volumes"@), tenant_id@), name@), v.name@))),
        decreases volumes.len() - i,
    {
        let key = volume_env_key(volumes[i].name.as_str());
        let dir = rt.volume_dir(tenant_id, name, volumes[i].name.as_str());
        let ghost before = r@;
        r.push((key, dir));
        proof {
            assert(pair_texts(r@) =~= pair_texts(before).push((key@, dir@)));
            assert(volumes@.take(i + 1) =~= volumes@.take(i as int).push(volumes@[i as int]));
            assert(pair_texts(r@) =~= volumes@.take(i + 1).map_values(|v: VolumeSpec| (volume_env_key_of(v.name@),
                join_path(join_path(join_path(join_path(rt.base_dir@, "volumes"@), tenant_id@), name@), v.name@))));
        }
        i += 1;
    }
    proof {
        assert(volumes@.take(volumes.len() as int) =~= volumes@);
    }
    r
}

/// The system directories of an agent's search path, in order.
pub open spec fn system_path() -> Seq<char> {
    "/usr/local/bin:/usr/bin:/bin:/usr/sbin:/sbin:/opt/homebrew/bin:/opt/homebrew/sbin:/usr/local/go/bin"@
}

/// The search path of an agent of runtime `kind`: the locally installed
/// runtime's directory first when it exists, then the system directories.
pub open spec fn path_value(bin_dir: Seq<char>, local: bool) -> Seq<char> {
    if local { bin_dir + ":"@ + system_path() } else { system_path() }
}

pub fn build_path(runtimes_dir: &str, kind: &str) -> (r: String)
    ensures
        r@ == path_value(join_path(runtimes_dir@, kind@), true) || r@ == path_value(join_path(runtimes_dir@, kind@), false),
{
    let bin_dir = join(runtimes_dir, kind);
    let mut r = String::new();
    if path_exists(bin_dir.as_str()) {
        r.append(bin_dir.as_str());
        r.append(":");
    }
    r.append("/usr/local/bin:/usr/bin:/bin:/usr/sbin:/sbin:/opt/homebrew/bin:/opt/homebrew/sbin:/usr/local/go/bin");
    r
}

// ── Groups of instances ──────────────────────────────────────────────────────

/// An instance the stop of its agent's group stops: running, with a
/// process.
pub open spec fn stoppable(i: AgentInstance, agent: Seq<char>) -> bool {
    i.agent_id@ == agent && is_running(i) && i.pid is Some
}

/// `f` is `i` stopped: the same record, stopped, without a process.
pub open spec fn stopped_form(f: AgentInstance, i: AgentInstance) -> bool {
    &&& f.status@ == "stopped"@
    &&& f.pid is None
    &&& f.id == i.id && f.agent_id == i.agent_id && f.tenant_id == i.tenant_id
    &&& f.port == i.port && f.stats == i.stats && f.created_at == i.created_at
}

/// Stops every running instance of `agent` that has a process; returns
/// their process ids and instance ids, in order, for the processes to be
/// killed.
pub fn stop_agent_instances(insts: &mut Vec<AgentInstance>, agent: &str) -> (r: Vec<(u32, String)>)
    ensures
        final(insts)@.len() == old(insts)@.len(),
        forall|q: int| 0 <= q < old(insts)@.len() ==> {
            let i = #[trigger] old(insts)@[q];
            if stoppable(i, agent@) { stopped_form(final(insts)@[q], i) } else { final(insts)@[q] == i }
        },
        r@.map_values(|p: (u32, String)| (p.0, p.1@)) == old(insts)@.filter(|i: AgentInstance| stoppable(i, agent@))
            .map_values(|i: AgentInstance| (i.pid->0, i.id@)),
{
    let ghost o = insts@;
    let ghost pred = |i: AgentInstance| stoppable(i, agent@);
    let mut r: Vec<(u32, String)> = Vec::new();
    let mut k: usize = 0;
    proof {
        reveal(Seq::filter);
        assert(o.take(0).filter(pred) =~= Seq::<AgentInstance>::empty());
        assert(r@.map_values(|p: (u32, String)| (p.0, p.1@)) =~= Seq::<(u32, Seq<char>)>::empty());
        reveal_strlit("running");
    }
    while k < insts.len()
        invariant
            pred == (|i: AgentInstance| stoppable(i, agent@)),
            insts@.len() == o.len(),
            k <= insts.len(),
            forall|q: int| 0 <= q < k ==> {
                let i = #[trigger] o[q];
                if stoppable(i, agent@) { stopped_form(insts@[q], i) } else { insts@[q] == i }
            },
            forall|q: int| k <= q < o.len() ==> #[trigger] insts@[q] == o[q],
            r@.map_values(|p: (u32, String)| (p.0, p.1@)) == o.take(k as int).filter(pred)
                .map_values(|i: AgentInstance| (i.pid->0, i.id@)),
        decreases insts.len() - k,
    {
        proof {
            assert(o.take(k + 1) =~= o.take(k as int).push(o[k as int]));
            o.take(k as int).lemma_filter_push(o[k as int], pred);
        }
        let hit = str_eq(insts[k].agent_id.as_str(), agent) && str_eq(insts[k].status.as_str(), "running")
            && insts[k].pid.is_some();
        if hit {
            let ghost before = insts@;
            let ghost rb = r@;
            let mut i = insts.remove(k);
            let pid = match i.pid { Some(p) => p, None => 0 };
            let id = i.id.clone();
            i.status = String::from_str("stopped");
            i.pid = None;
            insts.insert(k, i);
            r.push((pid, id));
            proof {
                assert(insts@ =~= before.update(k as int, i));
                assert(r@.map_values(|p: (u32, String)| (p.0, p.1@))
                    =~= rb.map_values(|p: (u32, String)| (p.0, p.1@)).push((pid, id@)));
                assert(o.take(k + 1).filter(pred).map_values(|i: AgentInstance| (i.pid->0, i.id@))
                    =~= o.take(k as int).filter(pred).map_values(|i: AgentInstance| (i.pid->0, i.id@)).push((pid, id@)));
            }
        }
        k += 1;
    }
    proof {
        assert(o.take(o.len() as int) =~= o);
    }
    r
}

/// The tenants of the instances, each once, in order of first appearance.
pub open spec fn tenants_of(s: Seq<AgentInstance>) -> Seq<Seq<char>>
    decreases s.len(),
{
    if s.len() == 0 {
        Seq::empty()
    } else {
        let t = tenants_of(s.drop_last());
        if t.contains(s.last().tenant_id@) { t } else { t.push(s.last().tenant_id@) }
    }
}

pub open spec fn of_tenant(t: Seq<char>) -> spec_fn(AgentInstance) -> bool {
    |i: AgentInstance| i.tenant_id@ == t
}

proof fn lemma_tenants_distinct(s: Seq<AgentInstance>)
    ensures
        forall|i: int, j: int| 0 <= i < j < tenants_of(s).len() ==> tenants_of(s)[i] != tenants_of(s)[j],
    decreases s.len(),
{
    if s.len() > 0 {
        lemma_tenants_distinct(s.drop_last());
        let t = tenants_of(s.drop_last());
        if !t.contains(s.last().tenant_id@) {
            assert forall|i: int, j: int| 0 <= i < j < tenants_of(s).len() implies tenants_of(s)[i] != tenants_of(s)[j] by {
                if j == t.len() {
                    assert(tenants_of(s)[i] == t[i]);
                    if t[i] == s.last().tenant_id@ {
                        assert(t.contains(s.last().tenant_id@));
                    }
                }
            }
        }
    }
}

fn find_group(groups: &Vec<(String, Vec<AgentInstance>)>, t: &str) -> (r: Option<usize>)
    ensures
        match r {
            Some(p) => p < groups@.len() && groups@[p as int].0@ == t@,
            None => forall|k: int| 0 <= k < groups@.len() ==> (#[trigger] groups@[k]).0@ != t@,
        },
{
    let mut i: usize = 0;
    while i < groups.len()
        invariant
            i <= groups.len(),
            forall|k: int| 0 <= k < i ==> (#[trigger] groups@[k]).0@ != t@,
        decreases groups.len() - i,
    {
        if str_eq(groups[i].0.as_str(), t) {
            return Some(i);
        }
        i += 1;
    }
    None
}

/// `gs` holds one group per tenant of `s`, in order of first appearance,
/// each with the tenant's instances in their order.
pub open spec fn tenant_groups(gs: Seq<(String, Vec<AgentInstance>)>, s: Seq<AgentInstance>) -> bool {
    let ts = tenants_of(s);
    &&& gs.len() == ts.len()
    &&& forall|k: int| 0 <= k < gs.len() ==> {
        &&& (#[trigger] gs[k]).0@ == ts[k]
        &&& gs[k].1@ == s.filter(of_tenant(ts[k]))
    }
}

/// The instances grouped by tenant, for each tenant's file.
pub fn group_by_tenant(insts: Vec<AgentInstance>) -> (gs: Vec<(String, Vec<AgentInstance>)>)
    ensures
        tenant_groups(gs@, insts@),
{
    let ghost all = insts@;
    let mut gs: Vec<(String, Vec<AgentInstance>)> = Vec::new();
    proof {
        assert(all.take(0) =~= Seq::<AgentInstance>::empty());
    }
    for inst in it: insts.into_iter()
        invariant
            it.seq() == all,
            tenant_groups(gs@, all.take(it.index() as int)),
    {
        let ghost k = it.index() as int;
        let ghost prev = all.take(k);
        let ghost cur = all.take(k + 1);
        proof {
            assert(cur.drop_last() =~= prev);
            assert(cur =~= prev.push(inst));
            assert(inst == all[k]);
            lemma_tenants_distinct(prev);
            reveal(Seq::filter);
        }
        let ghost t = inst.tenant_id@;
        match find_group(&gs, inst.tenant_id.as_str()) {
            Some(p) => {
                let ghost old_gs = gs@;
                let (name, mut members) = gs.remove(p);
                let ghost m0 = members@;
                members.push(inst);
                gs.insert(p, (name, members));
                proof {
                    assert(gs@ =~= old_gs.update(p as int, (name, members)));
                    assert(tenants_of(prev)[p as int] == t);
                    assert(tenants_of(prev).contains(t));
                    assert(tenants_of(cur) =~= tenants_of(prev));
                    assert forall|q: int| 0 <= q < gs@.len() implies {
                        &&& (#[trigger] gs@[q]).0@ == tenants_of(cur)[q]
                        &&& gs@[q].1@ == cur.filter(of_tenant(tenants_of(cur)[q]))
                    } by {
                        let tq = tenants_of(cur)[q];
                        prev.lemma_filter_push(inst, of_tenant(tq));
                        if q != p {
                            assert(tenants_of(prev)[q] != tenants_of(prev)[p as int]);
                        }
                    }
                }
            },
            None => {
                let ghost old_gs = gs@;
                let mut members: Vec<AgentInstance> = Vec::new();
                let name = inst.tenant_id.clone();
                members.push(inst);
                gs.push((name, members));
                proof {
                    assert(!tenants_of(prev).contains(t)) by {
                        if tenants_of(prev).contains(t) {
                            let q = choose|q: int| 0 <= q < tenants_of(prev).len() && tenants_of(prev)[q] == t;
                            assert(old_gs[q].0@ == tenants_of(prev)[q]);
                        }
                    }
                    assert(tenants_of(cur) =~= tenants_of(prev).push(t));
                    lemma_no_tenant(prev, t);
                    assert forall|q: int| 0 <= q < gs@.len() implies {
                        &&& (#[trigger] gs@[q]).0@ == tenants_of(cur)[q]
                        &&& gs@[q].1@ == cur.filter(of_tenant(tenants_of(cur)[q]))
                    } by {
                        let tq = tenants_of(cur)[q];
                        prev.lemma_filter_push(inst, of_tenant(tq));
                        if q < old_gs.len() {
                            assert(tenants_of(prev)[q] != t);
                        } else {
                            assert(members@ =~= Seq::<AgentInstance>::empty().push(inst));
                        }
                    }
                }
            },
        }
    }
    proof {
        assert(all.take(all.len() as int) =~= all);
    }
    gs
}

/// A tenant none of the instances has has no instances.
proof fn lemma_no_tenant(s: Seq<AgentInstance>, t: Seq<char>)
    requires
        !tenants_of(s).contains(t),
    ensures
        s.filter(of_tenant(t)) == Seq::<AgentInstance>::empty(),
    decreases s.len(),
{
    reveal(Seq::filter);
    if s.len() > 0 {
        let r = tenants_of(s.drop_last());
        if r.contains(t) {
            let k = choose|k: int| 0 <= k < r.len() && r[k] == t;
            assert(tenants_of(s)[k] == t);
        }
        if s.last().tenant_id@ == t {
            if r.contains(s.last().tenant_id@) {
                assert(tenants_of(s) == r);
            } else {
                assert(tenants_of(s)[r.len() as int] == t);
            }
        }
        lemma_no_tenant(s.drop_last(), t);
    }
}

// ── Confining paths ──────────────────────────────────────────────────────────

/// A piece of a path between separators that names something: not empty,
/// and not `.`.
pub open spec fn named_piece(p: Seq<char>) -> bool {
    p.len() > 0 && p != seq!['.']
}

/// The components of a Unix path as `Path::components` yields them, as
/// text: `/` for the root, `.` for a leading current directory, then the
/// pieces between separators, empty pieces and `.` left out.
pub open spec fn path_components(s: Seq<char>) -> Seq<Seq<char>> {
    let root = if s.len() > 0 && s[0] == '/' { seq![seq!['/']] } else { Seq::empty() };
    let cur = if s == seq!['.'] || (s.len() >= 2 && s[0] == '.' && s[1] == '/') { seq![seq!['.']] } else { Seq::empty() };
    root + cur + split_on(s, '/').filter(|p: Seq<char>| named_piece(p))
}

/// `path` starts with `base` as `Path::starts_with` decides it: the
/// components of `base` are the first components of `path`.
pub open spec fn path_has_prefix(path: Seq<char>, base: Seq<char>) -> bool {
    let a = path_components(path);
    let b = path_components(base);
    b.len() <= a.len() && a.take(b.len() as int) == b
}

/// The components of the path `s`.
pub fn path_components_of(s: &str) -> (r: Vec<String>)
    ensures
        texts(r@) == path_components(s@),
{
    let cs = chars_of(s);
    let mut out: Vec<String> = Vec::new();
    let n = cs.len();
    proof {
        reveal_strlit("/");
        reveal_strlit(".");
        if s@.len() == 1 && s@[0] == '.' {
            assert(s@ =~= seq!['.']);
        }
    }
    let ghost root = if s@.len() > 0 && s@[0] == '/' { seq![seq!['/']] } else { Seq::<Seq<char>>::empty() };
    let ghost cur = if s@ == seq!['.'] || (s@.len() >= 2 && s@[0] == '.' && s@[1] == '/') { seq![seq!['.']] } else {
        Seq::<Seq<char>>::empty()
    };
    if n > 0 && cs[0] == '/' {
        let sep = String::from_str("/");
        proof {
            reveal_strlit("/");
            assert(sep@ =~= seq!['/']);
        }
        out.push(sep);
    }
    proof {
        assert(cs@ == s@);
        assert(texts(out@) =~= root);
    }
    if (n == 1 && cs[0] == '.') || (n >= 2 && cs[0] == '.' && cs[1] == '/') {
        let ghost o = out@;
        let dot = String::from_str(".");
        proof {
            reveal_strlit(".");
            assert(dot@ =~= seq!['.']);
        }
        out.push(dot);
        proof {
            assert(texts(out@) =~= texts(o).push(seq!['.']));
        }
    }
    let ghost head = texts(out@);
    proof {
        assert(head =~= root + cur);
    }
    let parts = split_char(&cs, '/');
    let ghost all = split_on(s@, '/');
    let ghost pred = |p: Seq<char>| named_piece(p);
    let mut i: usize = 0;
    proof {
        reveal(Seq::filter);
        assert(all.take(0) =~= Seq::<Seq<char>>::empty());
        assert(texts(out@) =~= head + all.take(0).filter(pred));
    }
    while i < parts.len()
        invariant
            parts@.map_values(|w: Vec<char>| w@) == split_on(s@, '/'),
            all == split_on(s@, '/'),
            pred == (|p: Seq<char>| named_piece(p)),
            i <= parts.len(),
            texts(out@) == head + all.take(i as int).filter(pred),
        decreases parts.len() - i,
    {
        proof {
            assert(parts@.map_values(|w: Vec<char>| w@)[i as int] == parts@[i as int]@);
            assert(all.take(i + 1) =~= all.take(i as int).push(all[i as int]));
            all.take(i as int).lemma_filter_push(all[i as int], pred);
        }
        let p = &parts[i];
        let named = p.len() > 0 && !(p.len() == 1 && p[0] == '.');
        proof {
            if p@.len() == 1 && p@[0] == '.' {
                assert(p@ =~= seq!['.']);
            }
            assert(named == named_piece(all[i as int]));
        }
        if named {
            let ghost o = out@;
            out.push(string_of(p));
            proof {
                assert(texts(out@) =~= texts(o).push(p@));
            }
        }
        i += 1;
    }
    proof {
        assert(all.take(parts@.len() as int) =~= all);
    }
    out
}

/// Whether `path` starts with `base`, whole components at a time.
pub fn path_starts_with(path: &str, base: &str) -> (b: bool)
    ensures
        b == path_has_prefix(path@, base@),
{
    let a = path_components_of(path);
    let c = path_components_of(base);
    if c.len() > a.len() {
        return false;
    }
    let mut i: usize = 0;
    while i < c.len()
        invariant
            texts(a@) == path_components(path@),
            texts(c@) == path_components(base@),
            c.len() <= a.len(),
            i <= c.len(),
            forall|k: int| 0 <= k < i ==> #[trigger] texts(a@)[k] == texts(c@)[k],
        decreases c.len() - i,
    {
        if !str_eq(a[i].as_str(), c[i].as_str()) {
            proof {
                assert(texts(a@)[i as int] != texts(c@)[i as int]);
                assert(path_components(path@).take(c@.len() as int)[i as int] != path_components(base@)[i as int]);
            }
            return false;
        }
        i += 1;
    }
    proof {
        assert(path_components(path@).take(c@.len() as int) =~= path_components(base@));
    }
    true
}

/// A path that leaves the directory it must stay in.
pub enum PathEscape {
    Escape,
}

/// Confines the resolved path of an agent's entry to the agent's code
/// directory `root`: the path itself when it lies within `root`, whole
/// components at a time, and an escape otherwise.
pub fn harden_path(root: &str, resolved: &str) -> (r: Result<String, PathEscape>)
    ensures
        r is Ok <==> path_has_prefix(resolved@, root@),
        r matches Ok(p) ==> p@ == resolved@,
{
    if path_starts_with(resolved, root) {
        Ok(resolved.to_owned())
    } else {
        Err(PathEscape::Escape)
    }
}

} // verus!
