//! Reconciliation decisions of the Kubernetes operator: how many instances
//! to start or stop for a desired replica count, the phase and message it
//! reports, and the timestamps it writes.

use vstd::prelude::*;
use vstd::string::*;
use crate::text::{chars_of, push_decimal, decimal, string_of};

verus! {

/// Where the node's API key is kept: a key of a Kubernetes Secret.
pub struct SecretKeyRef {
    pub name: String,
    pub key: String,
}

/// What an `ApolloAgent` resource asks for.
pub struct ApolloAgentSpec {
    /// The agent as registered on the node.
    pub agent_id: String,
    /// The tenant the agent runs for.
    pub tenant_id: String,
    /// A package source to register the agent from first.
    pub agent_source: Option<String>,
    /// Desired number of instances for the tenant.
    pub replicas: u32,
    /// The node that runs the agent.
    pub node_url: String,
    pub secret_key_ref: SecretKeyRef,
}

/// Replica count of a resource that does not set one.
pub fn default_replicas() -> (r: u32)
    ensures
        r == 1,
{
    1
}

/// What one reconciliation does and reports.
pub struct ReconcilePlan {
    /// `"Stopped"` or `"Running"`.
    pub phase: String,
    /// Instances to start.
    pub starts: usize,
    /// Excess instances are stopped.
    pub stop_excess: bool,
    /// E.g. `"2/3 instances running"`.
    pub message: String,
}

/// The phase reported for `running` instances of `desired`.
pub open spec fn phase_of(running: nat, desired: nat) -> Seq<char> {
    if running == 0 && desired == 0 { "Stopped"@ } else { "Running"@ }
}

/// The status message for `running` instances of `desired`.
pub open spec fn reconcile_message(running: nat, desired: nat) -> Seq<char> {
    decimal(if running < desired { running } else { desired }) + "/"@ + decimal(desired) + " instances running"@
}

/// The plan for a resource whose tenant runs `running` instances: start the
/// missing ones, or stop the excess, and report the phase.
pub fn reconcile_plan(spec: &ApolloAgentSpec, running: usize) -> (p: ReconcilePlan)
    ensures
        p.phase@ == phase_of(running as nat, spec.replicas as nat),
        p.starts == if !(running == 0 && spec.replicas == 0) && running < spec.replicas { spec.replicas - running } else { 0 },
        p.stop_excess == (!(running == 0 && spec.replicas == 0) && running > spec.replicas),
        p.message@ == reconcile_message(running as nat, spec.replicas as nat),
{
    let desired = spec.replicas as usize;
    let (phase, starts, stop_excess) = if running == 0 && desired == 0 {
        (String::from_str("Stopped"), 0, false)
    } else if running < desired {
        (String::from_str("Running"), desired - running, false)
    } else if running > desired {
        (String::from_str("Running"), 0, true)
    } else {
        (String::from_str("Running"), 0, false)
    };
    let mut message = String::new();
    let shown = if running < desired { running } else { desired };
    push_decimal(&mut message, shown as u64);
    message.append("/");
    push_decimal(&mut message, desired as u64);
    message.append(" instances running");
    ReconcilePlan { phase, starts, stop_excess, message }
}

/// Instances of a tenant judged running from its usage counters: starts
/// less stops, and none when there were more stops.
pub fn running_estimate(starts: Option<u64>, stops: Option<u64>) -> (r: u64)
    ensures
        ({
            let a = match starts { Some(x) => x as int, None => 0int };
            let b = match stops { Some(x) => x as int, None => 0int };
            r == if a >= b { a - b } else { 0 }
        }),
{
    let a = match starts { Some(x) => x, None => 0 };
    let b = match stops { Some(x) => x, None => 0 };
    if a >= b { a - b } else { 0 }
}

/// `s` without its trailing `/` characters.
pub open spec fn without_trailing_slashes(s: Seq<char>) -> Seq<char>
    decreases s.len(),
{
    if s.len() > 0 && s.last() == '/' { without_trailing_slashes(s.drop_last()) } else { s }
}

/// The node URL requests are built on: the given URL without trailing `/`.
pub fn node_base_url(url: &str) -> (r: String)
    ensures
        r@ == without_trailing_slashes(url@),
{
    let cs = chars_of(url);
    let mut n = cs.len();
    proof {
        assert(cs@.take(n as int) =~= cs@);
    }
    while n > 0 && cs[n - 1] == '/'
        invariant
            cs@ == url@,
            n <= cs.len(),
            without_trailing_slashes(url@) == without_trailing_slashes(cs@.take(n as int)),
        decreases n,
    {
        proof {
            assert(cs@.take(n as int).drop_last() =~= cs@.take(n - 1));
        }
        n -= 1;
    }
    let mut out: Vec<char> = Vec::new();
    let mut i: usize = 0;
    while i < n
        invariant
            n <= cs.len(),
            i <= n,
            out@ == cs@.take(i as int),
        decreases n - i,
    {
        out.push(cs[i]);
        proof {
            assert(cs@.take(i + 1) =~= cs@.take(i as int).push(cs@[i as int]));
        }
        i += 1;
    }
    proof {
        let t = cs@.take(n as int);
        assert(!(t.len() > 0 && t.last() == '/'));
        assert(without_trailing_slashes(t) == t);
    }
    string_of(&out)
}

// ── Timestamps ───────────────────────────────────────────────────────────────

/// The coarse calendar fields the operator stamps its status with: years
/// of 365 days and months of 30 from 1970, month at most 12 and day at
/// most 31.
pub open spec fn coarse_ymd(secs: u64) -> (int, int, int, int, int, int) {
    let days = secs / 86400;
    let mo = (days % 365) / 30 + 1;
    let d = (days % 365) % 30 + 1;
    (
        1970 + days / 365,
        if mo < 12 { mo as int } else { 12 },
        if d < 31 { d as int } else { 31 },
        ((secs / 3600) % 24) as int,
        ((secs / 60) % 60) as int,
        (secs % 60) as int,
    )
}

pub fn unix_to_ymd(secs: u64) -> (r: (u64, u64, u64, u64, u64, u64))
    ensures
        (r.0 as int, r.1 as int, r.2 as int, r.3 as int, r.4 as int, r.5 as int) == coarse_ymd(secs),
{
    let s = secs % 60;
    let m = (secs / 60) % 60;
    let h = (secs / 3600) % 24;
    let days = secs / 86400;
    let y = 1970 + days / 365;
    let mo = (days % 365) / 30 + 1;
    let d = (days % 365) % 30 + 1;
    (y, if mo < 12 { mo } else { 12 }, if d < 31 { d } else { 31 }, h, m, s)
}

/// `n` in decimal, zero-padded to `width` digits.
pub open spec fn padded(n: nat, width: nat) -> Seq<char> {
    let d = decimal(n);
    if d.len() < width { Seq::new((width - d.len()) as nat, |i: int| '0') + d } else { d }
}

fn push_padded(s: &mut String, n: u64, width: usize)
    ensures
        final(s)@ == old(s)@ + padded(n as nat, width as nat),
{
    let mut digits = String::new();
    push_decimal(&mut digits, n);
    let len = digits.unicode_len();
    let mut k: usize = len;
    let ghost zeros = Seq::<char>::empty();
    let ghost s0 = s@;
    while k < width
        invariant
            len == decimal(n as nat).len(),
            digits@ == decimal(n as nat),
            len <= k <= (if width > len { width } else { len }),
            s@ == s0 + Seq::new((k - len) as nat, |i: int| '0'),
        decreases width - k,
    {
        let ghost before = s@;
        crate::text::push_char(s, '0');
        proof {
            assert(s@ =~= s0 + Seq::new((k + 1 - len) as nat, |i: int| '0'));
        }
        k += 1;
    }
    s.append(digits.as_str());
    proof {
        if len < width {
            assert(s@ =~= s0 + padded(n as nat, width as nat));
        } else {
            assert(s@ =~= s0 + padded(n as nat, width as nat));
        }
    }
}

/// The RFC 3339 form of the coarse calendar fields of `secs`.
pub open spec fn status_timestamp_of(secs: u64) -> Seq<char> {
    let f = coarse_ymd(secs);
    padded(f.0 as nat, 4) + "-"@ + padded(f.1 as nat, 2) + "-"@ + padded(f.2 as nat, 2) + "T"@
        + padded(f.3 as nat, 2) + ":"@ + padded(f.4 as nat, 2) + ":"@ + padded(f.5 as nat, 2) + "Z"@
}

/// The time the operator stamps a status with.
pub fn status_timestamp(secs: u64) -> (r: String)
    ensures
        r@ == status_timestamp_of(secs),
{
    let (y, mo, d, h, mi, s) = unix_to_ymd(secs);
    let mut r = String::new();
    push_padded(&mut r, y, 4);
    r.append("-");
    push_padded(&mut r, mo, 2);
    r.append("-");
    push_padded(&mut r, d, 2);
    r.append("T");
    push_padded(&mut r, h, 2);
    r.append(":");
    push_padded(&mut r, mi, 2);
    r.append(":");
    push_padded(&mut r, s, 2);
    r.append("Z");
    proof {
        assert(r@ =~= status_timestamp_of(secs));
    }
    r
}

} // verus!
