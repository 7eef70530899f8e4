//! Fleet coordination of the hub: authorization of hub clients, the node
//! polling state machine, node placement, fleet and region tallies, and the
//! agent catalog gathered from the nodes.

use vstd::prelude::*;
use vstd::string::*;
use crate::text::{str_eq, list_contains, lists, texts};
use crate::fetch::{starts_with, starts_with_str};

verus! {

// ── Records ──────────────────────────────────────────────────────────────────

/// What the hub knows of a node's state.
pub struct NodeStatus {
    pub is_online: bool,
    pub active_agents: usize,
    pub max_agents: usize,
    /// Unix time of the last successful poll.
    pub last_seen: u64,
    /// Polls failed in a row.
    pub failure_count: u32,
}

/// A node registered with the hub.
pub struct NodeRecord {
    pub name: String,
    pub ip: String,
    /// The node's API key.
    pub key: String,
    pub region: String,
    pub status: NodeStatus,
}

impl NodeStatus {
    /// The state of a node that was never polled.
    pub fn unknown() -> (s: NodeStatus)
        ensures
            !s.is_online && s.active_agents == 0 && s.max_agents == 0 && s.last_seen == 0 && s.failure_count == 0,
    {
        NodeStatus { is_online: false, active_agents: 0, max_agents: 0, last_seen: 0, failure_count: 0 }
    }
}

/// The region of a node registered without one.
pub fn default_region() -> (r: String)
    ensures
        r@ == "default"@,
{
    String::from_str("default")
}

// ── Authorization ────────────────────────────────────────────────────────────

/// A hub client is authorized by an `X-Hub-Key` header equal to the hub key,
/// or by an `Authorization` header `Bearer ` followed by the hub key.
pub open spec fn hub_authorized(x_hub_key: Option<Seq<char>>, authorization: Option<Seq<char>>, hub_key: Seq<char>) -> bool {
    ||| x_hub_key == Some(hub_key)
    ||| authorization matches Some(a) && starts_with(a, "Bearer "@) && a.skip(7) == hub_key
}

/// Whether a request with these header values (those that are text) may
/// use the hub's API.
pub fn is_authorized(x_hub_key: Option<&str>, authorization: Option<&str>, hub_key: &str) -> (b: bool)
    ensures
        b == hub_authorized(
            match x_hub_key { Some(v) => Some(v@), None => None },
            match authorization { Some(a) => Some(a@), None => None },
            hub_key@,
        ),
{
    proof {
        reveal_strlit("Bearer ");
    }
    if let Some(v) = x_hub_key {
        if str_eq(v, hub_key) {
            return true;
        }
    }
    if let Some(a) = authorization {
        if starts_with_str(a, "Bearer ") {
            let token = a.substring_char(7, a.unicode_len());
            proof {
                assert(token@ =~= a@.skip(7));
            }
            if str_eq(token, hub_key) {
                return true;
            }
        }
    }
    false
}

// ── Polling ──────────────────────────────────────────────────────────────────

/// A node that failed five polls in a row is polled on every sixth tick only.
pub open spec fn poll_due(s: NodeStatus, tick: u64) -> bool {
    !(s.failure_count >= 5 && tick % 6 != 0)
}

/// Whether the node is polled on `tick`.
pub fn should_poll(s: &NodeStatus, tick: u64) -> (b: bool)
    ensures
        b == poll_due(*s, tick),
{
    !(s.failure_count >= 5 && tick % 6 != 0)
}

/// What a metrics poll of a node gave.
pub enum PollOutcome {
    /// A success answer with the node's load.
    Metrics { active_agents: usize, max_agents: usize },
    /// A success answer whose body could not be read.
    Unreadable,
    /// An error answer, or no answer.
    Failed,
}

/// The node's state after a poll at `now`: online with the reported load
/// after a readable success, offline with one more failure after a failed
/// poll, unchanged otherwise.
pub open spec fn polled(s: NodeStatus, o: PollOutcome, now: u64) -> NodeStatus {
    match o {
        PollOutcome::Metrics { active_agents, max_agents } => NodeStatus {
            is_online: true, active_agents, max_agents, last_seen: now, failure_count: 0,
        },
        PollOutcome::Unreadable => s,
        PollOutcome::Failed => NodeStatus { is_online: false, failure_count: (s.failure_count + 1) as u32, ..s },
    }
}

/// Applies the outcome of a poll at `now` to a node's state.
pub fn apply_poll(s: NodeStatus, o: PollOutcome, now: u64) -> (r: NodeStatus)
    requires
        o is Failed ==> s.failure_count < u32::MAX,
    ensures
        r == polled(s, o, now),
{
    match o {
        PollOutcome::Metrics { active_agents, max_agents } => NodeStatus {
            is_online: true, active_agents, max_agents, last_seen: now, failure_count: 0,
        },
        PollOutcome::Unreadable => s,
        PollOutcome::Failed => NodeStatus { is_online: false, failure_count: s.failure_count + 1, ..s },
    }
}

/// The catalog is gathered from online nodes on every fifth tick.
pub fn catalog_due(tick: u64, online: bool) -> (b: bool)
    ensures
        b == (tick % 5 == 0 && online),
{
    tick % 5 == 0 && online
}

// ── The node list ────────────────────────────────────────────────────────────

/// Index of the first node at or after `i` whose address is `ip`, or -1.
pub open spec fn node_pos_from(ns: Seq<NodeRecord>, ip: Seq<char>, i: int) -> int
    decreases ns.len() - i,
{
    if i < 0 || i >= ns.len() {
        -1
    } else if ns[i].ip@ == ip {
        i
    } else {
        node_pos_from(ns, ip, i + 1)
    }
}

pub open spec fn node_pos(ns: Seq<NodeRecord>, ip: Seq<char>) -> int {
    node_pos_from(ns, ip, 0)
}

proof fn lemma_node_pos_from(ns: Seq<NodeRecord>, ip: Seq<char>, i: int)
    requires
        0 <= i <= ns.len(),
    ensures
        node_pos_from(ns, ip, i) == -1 || (i <= node_pos_from(ns, ip, i) < ns.len()
            && ns[node_pos_from(ns, ip, i)].ip@ == ip),
        node_pos_from(ns, ip, i) == -1 <==> forall|q: int| i <= q < ns.len() ==> #[trigger] ns[q].ip@ != ip,
        forall|q: int| i <= q < node_pos_from(ns, ip, i) ==> #[trigger] ns[q].ip@ != ip,
    decreases ns.len() - i,
{
    if i < ns.len() && ns[i].ip@ != ip {
        lemma_node_pos_from(ns, ip, i + 1);
    }
}

/// Index of the first node whose address is `ip`.
pub fn find_node(nodes: &Vec<NodeRecord>, ip: &str) -> (r: Option<usize>)
    ensures
        match r {
            Some(p) => p as int == node_pos(nodes@, ip@) && p < nodes@.len(),
            None => node_pos(nodes@, ip@) == -1,
        },
{
    proof {
        lemma_node_pos_from(nodes@, ip@, 0);
    }
    let mut i: usize = 0;
    while i < nodes.len()
        invariant
            i <= nodes.len(),
            node_pos(nodes@, ip@) == node_pos_from(nodes@, ip@, i as int),
        decreases nodes.len() - i,
    {
        if str_eq(nodes[i].ip.as_str(), ip) {
            return Some(i);
        }
        i += 1;
    }
    None
}

/// Registers `node` unless a node with its address is registered already;
/// returns whether it was added.
pub fn add_node(nodes: &mut Vec<NodeRecord>, node: NodeRecord) -> (added: bool)
    ensures
        added == (node_pos(old(nodes)@, node.ip@) == -1),
        added ==> final(nodes)@ == old(nodes)@.push(node),
        !added ==> final(nodes)@ == old(nodes)@,
{
    match find_node(nodes, node.ip.as_str()) {
        Some(_) => false,
        None => {
            nodes.push(node);
            true
        },
    }
}

/// Stores the state of the first node whose address is `ip`; the list is
/// left as it is when there is none.
pub fn set_node_status(nodes: &mut Vec<NodeRecord>, ip: &str, status: NodeStatus)
    ensures
        ({
            let p = node_pos(old(nodes)@, ip@);
            if p == -1 {
                final(nodes)@ == old(nodes)@
            } else {
                final(nodes)@ == old(nodes)@.update(p, NodeRecord { status, ..old(nodes)@[p] })
            }
        }),
{
    proof {
        lemma_node_pos_from(old(nodes)@, ip@, 0);
    }
    match find_node(nodes, ip) {
        Some(p) => {
            let mut n = nodes.remove(p);
            n.status = status;
            nodes.insert(p, n);
            proof {
                assert(final(nodes)@ =~= old(nodes)@.update(p as int, NodeRecord { status, ..old(nodes)@[p as int] }));
            }
        },
        None => {},
    }
}

/// The state column of the node listing.
pub open spec fn status_label(s: NodeStatus) -> Seq<char> {
    if s.is_online { "ONLINE"@ } else if s.failure_count > 0 { "FAILED"@ } else { "UNKNOWN"@ }
}

pub fn node_status_label(s: &NodeStatus) -> (r: String)
    ensures
        r@ == status_label(*s),
{
    if s.is_online {
        String::from_str("ONLINE")
    } else if s.failure_count > 0 {
        String::from_str("FAILED")
    } else {
        String::from_str("UNKNOWN")
    }
}

// ── Placement ────────────────────────────────────────────────────────────────

/// A node can take another agent: it is online, below its capacity, and in
/// the asked region when one is asked.
pub open spec fn eligible(n: NodeRecord, region: Option<Seq<char>>) -> bool {
    &&& n.status.is_online
    &&& n.status.active_agents < n.status.max_agents
    &&& (region matches Some(r) ==> n.region@ == r)
}

/// `b` is the first of the eligible nodes with the fewest active agents.
pub open spec fn is_best(ns: Seq<NodeRecord>, region: Option<Seq<char>>, b: int) -> bool {
    &&& 0 <= b < ns.len()
    &&& eligible(ns[b], region)
    &&& forall|k: int| 0 <= k < ns.len() && eligible(#[trigger] ns[k], region) ==> ns[b].status.active_agents <= ns[k].status.active_agents
    &&& forall|k: int| 0 <= k < b && eligible(#[trigger] ns[k], region) ==> ns[b].status.active_agents < ns[k].status.active_agents
}

/// The node a new agent goes to: the least loaded eligible node (the first
/// of them on a tie), or none when no node is eligible.
pub fn best_node(nodes: &Vec<NodeRecord>, region: Option<&str>) -> (r: Option<usize>)
    ensures
        ({
            let reg = match region { Some(x) => Some(x@), None => None };
            match r {
                Some(b) => is_best(nodes@, reg, b as int),
                None => forall|k: int| 0 <= k < nodes@.len() ==> !eligible(#[trigger] nodes@[k], reg),
            }
        }),
{
    let ghost reg = match region { Some(x) => Some(x@), None => None::<Seq<char>> };
    let mut best: Option<usize> = None;
    let mut i: usize = 0;
    while i < nodes.len()
        invariant
            reg == match region { Some(x) => Some(x@), None => None::<Seq<char>> },
            i <= nodes.len(),
            match best {
                Some(b) => is_best(nodes@.take(i as int), reg, b as int),
                None => forall|k: int| 0 <= k < i ==> !eligible(#[trigger] nodes@[k], reg),
            },
        decreases nodes.len() - i,
    {
        let n = &nodes[i];
        let in_region = match region {
            Some(r) => str_eq(n.region.as_str(), r),
            None => true,
        };
        let ok = n.status.is_online && n.status.active_agents < n.status.max_agents && in_region;
        proof {
            assert(ok == eligible(nodes@[i as int], reg));
        }
        if ok {
            match best {
                Some(b) => {
                    if n.status.active_agents < nodes[b].status.active_agents {
                        best = Some(i);
                    }
                },
                None => {
                    best = Some(i);
                },
            }
        }
        proof {
            let t = nodes@.take(i + 1);
            assert(forall|k: int| 0 <= k < i ==> t[k] == #[trigger] nodes@.take(i as int)[k]);
            assert(t[i as int] == nodes@[i as int]);
        }
        i += 1;
    }
    proof {
        assert(nodes@.take(nodes@.len() as int) =~= nodes@);
    }
    best
}

// ── Fleet tallies ────────────────────────────────────────────────────────────

pub open spec fn online_count(ns: Seq<NodeRecord>) -> int
    decreases ns.len(),
{
    if ns.len() == 0 { 0 } else { online_count(ns.drop_last()) + if ns.last().status.is_online { 1int } else { 0int } }
}

pub open spec fn active_sum(ns: Seq<NodeRecord>) -> int
    decreases ns.len(),
{
    if ns.len() == 0 { 0 } else { active_sum(ns.drop_last()) + ns.last().status.active_agents }
}

pub open spec fn capacity_sum(ns: Seq<NodeRecord>) -> int
    decreases ns.len(),
{
    if ns.len() == 0 { 0 } else { capacity_sum(ns.drop_last()) + ns.last().status.max_agents }
}

proof fn lemma_sums_grow(ns: Seq<NodeRecord>, i: int)
    requires
        0 <= i <= ns.len(),
    ensures
        active_sum(ns.take(i)) <= active_sum(ns),
        capacity_sum(ns.take(i)) <= capacity_sum(ns),
        online_count(ns.take(i)) <= i,
    decreases ns.len() - i,
{
    if i < ns.len() {
        lemma_sums_grow(ns, i + 1);
        assert(ns.take(i + 1).drop_last() =~= ns.take(i));
    } else {
        assert(ns.take(i) =~= ns);
    }
    lemma_online_bound(ns.take(i));
}

proof fn lemma_online_bound(ns: Seq<NodeRecord>)
    ensures
        0 <= online_count(ns) <= ns.len(),
    decreases ns.len(),
{
    if ns.len() > 0 {
        lemma_online_bound(ns.drop_last());
    }
}

/// The hub's fleet summary.
pub struct FleetSummary {
    pub nodes_total: usize,
    pub nodes_online: usize,
    pub agents_active: usize,
    pub fleet_capacity: usize,
    pub catalog_agents: usize,
}

/// Counts the nodes, the online ones, the active agents and the capacity
/// of the fleet, with the size of the catalog.
pub fn fleet_summary(nodes: &Vec<NodeRecord>, catalog_agents: usize) -> (s: FleetSummary)
    requires
        active_sum(nodes@) <= usize::MAX,
        capacity_sum(nodes@) <= usize::MAX,
    ensures
        s.nodes_total == nodes@.len(),
        s.nodes_online == online_count(nodes@),
        s.agents_active == active_sum(nodes@),
        s.fleet_capacity == capacity_sum(nodes@),
        s.catalog_agents == catalog_agents,
{
    let mut online: usize = 0;
    let mut active: usize = 0;
    let mut cap: usize = 0;
    let mut i: usize = 0;
    while i < nodes.len()
        invariant
            i <= nodes.len(),
            active_sum(nodes@) <= usize::MAX,
            capacity_sum(nodes@) <= usize::MAX,
            online as int == online_count(nodes@.take(i as int)),
            active as int == active_sum(nodes@.take(i as int)),
            cap as int == capacity_sum(nodes@.take(i as int)),
        decreases nodes.len() - i,
    {
        proof {
            assert(nodes@.take(i + 1).drop_last() =~= nodes@.take(i as int));
            lemma_sums_grow(nodes@, i + 1);
        }
        let st = &nodes[i].status;
        if st.is_online {
            online = online + 1;
        }
        active = active + st.active_agents;
        cap = cap + st.max_agents;
        i += 1;
    }
    proof {
        assert(nodes@.take(nodes@.len() as int) =~= nodes@);
    }
    FleetSummary { nodes_total: nodes.len(), nodes_online: online, agents_active: active, fleet_capacity: cap, catalog_agents }
}

// ── Region tallies ───────────────────────────────────────────────────────────

/// The regions of the nodes, each once, in order of first appearance.
pub open spec fn regions_of(ns: Seq<NodeRecord>) -> Seq<Seq<char>>
    decreases ns.len(),
{
    if ns.len() == 0 {
        Seq::empty()
    } else {
        let r = regions_of(ns.drop_last());
        if r.contains(ns.last().region@) { r } else { r.push(ns.last().region@) }
    }
}

pub open spec fn region_nodes(ns: Seq<NodeRecord>, reg: Seq<char>) -> int
    decreases ns.len(),
{
    if ns.len() == 0 { 0 } else { region_nodes(ns.drop_last(), reg) + if ns.last().region@ == reg { 1int } else { 0int } }
}

pub open spec fn region_online(ns: Seq<NodeRecord>, reg: Seq<char>) -> int
    decreases ns.len(),
{
    if ns.len() == 0 {
        0
    } else {
        region_online(ns.drop_last(), reg) + if ns.last().region@ == reg && ns.last().status.is_online { 1int } else { 0int }
    }
}

pub open spec fn region_active(ns: Seq<NodeRecord>, reg: Seq<char>) -> int
    decreases ns.len(),
{
    if ns.len() == 0 {
        0
    } else {
        region_active(ns.drop_last(), reg) + if ns.last().region@ == reg { ns.last().status.active_agents as int } else { 0int }
    }
}

pub open spec fn region_capacity(ns: Seq<NodeRecord>, reg: Seq<char>) -> int
    decreases ns.len(),
{
    if ns.len() == 0 {
        0
    } else {
        region_capacity(ns.drop_last(), reg) + if ns.last().region@ == reg { ns.last().status.max_agents as int } else { 0int }
    }
}

/// The tallies of one region.
pub struct RegionTotals {
    pub region: String,
    pub nodes_total: u64,
    pub nodes_online: u64,
    pub agents_active: u64,
    pub fleet_capacity: u64,
}

/// `rows` holds one row per region of `ns`, in order of first appearance,
/// with the region's tallies.
pub open spec fn region_rows(rows: Seq<RegionTotals>, ns: Seq<NodeRecord>) -> bool {
    let regs = regions_of(ns);
    &&& rows.len() == regs.len()
    &&& forall|k: int| 0 <= k < rows.len() ==> {
        let row = #[trigger] rows[k];
        &&& row.region@ == regs[k]
        &&& row.nodes_total == region_nodes(ns, regs[k])
        &&& row.nodes_online == region_online(ns, regs[k])
        &&& row.agents_active == region_active(ns, regs[k])
        &&& row.fleet_capacity == region_capacity(ns, regs[k])
    }
}

proof fn lemma_regions_distinct(ns: Seq<NodeRecord>)
    ensures
        forall|i: int, j: int| 0 <= i < j < regions_of(ns).len() ==> regions_of(ns)[i] != regions_of(ns)[j],
    decreases ns.len(),
{
    if ns.len() > 0 {
        lemma_regions_distinct(ns.drop_last());
        let r = regions_of(ns.drop_last());
        if !r.contains(ns.last().region@) {
            assert forall|i: int, j: int| 0 <= i < j < regions_of(ns).len() implies regions_of(ns)[i] != regions_of(ns)[j] by {
                if j == r.len() {
                    assert(regions_of(ns)[i] == r[i]);
                    if r[i] == ns.last().region@ {
                        assert(r.contains(ns.last().region@));
                    }
                }
            }
        }
    }
}

proof fn lemma_region_bounds(ns: Seq<NodeRecord>, reg: Seq<char>)
    ensures
        0 <= region_nodes(ns, reg) <= ns.len(),
        0 <= region_online(ns, reg) <= region_nodes(ns, reg),
        0 <= region_active(ns, reg) <= active_sum(ns),
        0 <= region_capacity(ns, reg) <= capacity_sum(ns),
    decreases ns.len(),
{
    if ns.len() > 0 {
        lemma_region_bounds(ns.drop_last(), reg);
    }
}

fn find_region(rows: &Vec<RegionTotals>, reg: &str) -> (r: Option<usize>)
    ensures
        match r {
            Some(p) => p < rows@.len() && rows@[p as int].region@ == reg@,
            None => forall|k: int| 0 <= k < rows@.len() ==> (#[trigger] rows@[k]).region@ != reg@,
        },
{
    let mut i: usize = 0;
    while i < rows.len()
        invariant
            i <= rows.len(),
            forall|k: int| 0 <= k < i ==> (#[trigger] rows@[k]).region@ != reg@,
        decreases rows.len() - i,
    {
        if str_eq(rows[i].region.as_str(), reg) {
            return Some(i);
        }
        i += 1;
    }
    None
}

/// The tallies of the fleet per region.
pub fn region_totals(nodes: &Vec<NodeRecord>) -> (rows: Vec<RegionTotals>)
    requires
        active_sum(nodes@) <= u64::MAX,
        capacity_sum(nodes@) <= u64::MAX,
    ensures
        region_rows(rows@, nodes@),
{
    let mut rows: Vec<RegionTotals> = Vec::new();
    let mut i: usize = 0;
    while i < nodes.len()
        invariant
            i <= nodes.len(),
            active_sum(nodes@) <= u64::MAX,
            capacity_sum(nodes@) <= u64::MAX,
            region_rows(rows@, nodes@.take(i as int)),
        decreases nodes.len() - i,
    {
        let ghost prev = nodes@.take(i as int);
        let ghost cur = nodes@.take(i + 1);
        let n = &nodes[i];
        proof {
            assert(cur.drop_last() =~= prev);
            assert(cur.last() == nodes@[i as int]);
            lemma_regions_distinct(prev);
            lemma_sums_grow(nodes@, i + 1);
            lemma_region_bounds(cur, n.region@);
        }
        let online: u64 = if n.status.is_online { 1 } else { 0 };
        match find_region(&rows, n.region.as_str()) {
            Some(p) => {
                let ghost old_rows = rows@;
                let mut row = rows.remove(p);
                row.nodes_total = row.nodes_total + 1;
                row.nodes_online = row.nodes_online + online;
                row.agents_active = row.agents_active + n.status.active_agents as u64;
                row.fleet_capacity = row.fleet_capacity + n.status.max_agents as u64;
                rows.insert(p, row);
                proof {
                    assert(rows@ =~= old_rows.update(p as int, row));
                    assert(regions_of(prev).contains(n.region@)) by {
                        assert(regions_of(prev)[p as int] == n.region@);
                    }
                    assert(regions_of(cur) =~= regions_of(prev));
                    assert forall|k: int| 0 <= k < rows@.len() implies {
                        let row = #[trigger] rows@[k];
                        let regs = regions_of(cur);
                        &&& row.region@ == regs[k]
                        &&& row.nodes_total == region_nodes(cur, regs[k])
                        &&& row.nodes_online == region_online(cur, regs[k])
                        &&& row.agents_active == region_active(cur, regs[k])
                        &&& row.fleet_capacity == region_capacity(cur, regs[k])
                    } by {
                        if k != p {
                            assert(regions_of(prev)[k] != regions_of(prev)[p as int]);
                        }
                    }
                }
            },
            None => {
                let row = RegionTotals {
                    region: n.region.clone(),
                    nodes_total: 1,
                    nodes_online: online,
                    agents_active: n.status.active_agents as u64,
                    fleet_capacity: n.status.max_agents as u64,
                };
                let ghost old_rows = rows@;
                rows.push(row);
                proof {
                    assert(!regions_of(prev).contains(n.region@)) by {
                        if regions_of(prev).contains(n.region@) {
                            let k = choose|k: int| 0 <= k < regions_of(prev).len() && regions_of(prev)[k] == n.region@;
                            assert(old_rows[k].region@ == regions_of(prev)[k]);
                        }
                    }
                    assert(regions_of(cur) =~= regions_of(prev).push(n.region@));
                    lemma_region_zero(prev, n.region@);
                    assert forall|k: int| 0 <= k < rows@.len() implies {
                        let row = #[trigger] rows@[k];
                        let regs = regions_of(cur);
                        &&& row.region@ == regs[k]
                        &&& row.nodes_total == region_nodes(cur, regs[k])
                        &&& row.nodes_online == region_online(cur, regs[k])
                        &&& row.agents_active == region_active(cur, regs[k])
                        &&& row.fleet_capacity == region_capacity(cur, regs[k])
                    } by {
                        if k < old_rows.len() {
                            assert(regions_of(prev)[k] != n.region@);
                        }
                    }
                }
            },
        }
        i += 1;
    }
    proof {
        assert(nodes@.take(nodes@.len() as int) =~= nodes@);
    }
    rows
}

/// A region none of the nodes is in has no tallies.
proof fn lemma_region_zero(ns: Seq<NodeRecord>, reg: Seq<char>)
    requires
        !regions_of(ns).contains(reg),
    ensures
        region_nodes(ns, reg) == 0,
        region_online(ns, reg) == 0,
        region_active(ns, reg) == 0,
        region_capacity(ns, reg) == 0,
    decreases ns.len(),
{
    if ns.len() > 0 {
        let r = regions_of(ns.drop_last());
        if r.contains(reg) {
            let k = choose|k: int| 0 <= k < r.len() && r[k] == reg;
            if r.contains(ns.last().region@) {
                assert(regions_of(ns)[k] == reg);
            } else {
                assert(regions_of(ns)[k] == reg);
            }
        }
        if ns.last().region@ == reg {
            if r.contains(ns.last().region@) {
                assert(regions_of(ns) == r);
            } else {
                assert(regions_of(ns)[r.len() as int] == reg);
            }
        }
        lemma_region_zero(ns.drop_last(), reg);
    }
}

// ── The agent catalog ────────────────────────────────────────────────────────

/// An agent known to the fleet, and the nodes that have it.
pub struct CatalogEntry {
    pub agent_id: String,
    pub version: String,
    pub runtime: String,
    pub capabilities: Vec<String>,
    pub checksum: String,
    /// Addresses of the nodes that have the agent, in order of discovery.
    pub available_on: Vec<String>,
}

/// An agent as a node lists it (fields it lacks are empty).
pub struct AgentListing {
    pub id: String,
    pub version: String,
    pub runtime: String,
    pub capabilities: Vec<String>,
    pub checksum: String,
}

/// A catalog entry as text.
pub struct CatalogView {
    pub agent_id: Seq<char>,
    pub version: Seq<char>,
    pub runtime: Seq<char>,
    pub capabilities: Seq<Seq<char>>,
    pub checksum: Seq<char>,
    pub available_on: Seq<Seq<char>>,
}

/// A listing as text.
pub struct ListingView {
    pub id: Seq<char>,
    pub version: Seq<char>,
    pub runtime: Seq<char>,
    pub capabilities: Seq<Seq<char>>,
    pub checksum: Seq<char>,
}

impl View for CatalogEntry {
    type V = CatalogView;

    open spec fn view(&self) -> CatalogView {
        CatalogView {
            agent_id: self.agent_id@,
            version: self.version@,
            runtime: self.runtime@,
            capabilities: texts(self.capabilities@),
            checksum: self.checksum@,
            available_on: texts(self.available_on@),
        }
    }
}

impl View for AgentListing {
    type V = ListingView;

    open spec fn view(&self) -> ListingView {
        ListingView {
            id: self.id@,
            version: self.version@,
            runtime: self.runtime@,
            capabilities: texts(self.capabilities@),
            checksum: self.checksum@,
        }
    }
}

pub open spec fn catalog_view(c: Seq<CatalogEntry>) -> Seq<CatalogView> {
    c.map_values(|e: CatalogEntry| e@)
}

pub open spec fn listings_view(ls: Seq<AgentListing>) -> Seq<ListingView> {
    ls.map_values(|l: AgentListing| l@)
}

/// Index of the first entry at or after `i` for the agent `id`, or -1.
pub open spec fn entry_pos_from(c: Seq<CatalogView>, id: Seq<char>, i: int) -> int
    decreases c.len() - i,
{
    if i < 0 || i >= c.len() {
        -1
    } else if c[i].agent_id == id {
        i
    } else {
        entry_pos_from(c, id, i + 1)
    }
}

proof fn lemma_entry_pos_from(c: Seq<CatalogView>, id: Seq<char>, i: int)
    requires
        0 <= i <= c.len(),
    ensures
        entry_pos_from(c, id, i) == -1 || (i <= entry_pos_from(c, id, i) < c.len() && c[entry_pos_from(c, id, i)].agent_id == id),
        entry_pos_from(c, id, i) == -1 <==> forall|q: int| i <= q < c.len() ==> #[trigger] c[q].agent_id != id,
    decreases c.len() - i,
{
    if i < c.len() && c[i].agent_id != id {
        lemma_entry_pos_from(c, id, i + 1);
    }
}

/// The catalog after a node at `ip` listed the agent `l`: a known agent
/// takes the listed version and gains the node; an unknown one is added as
/// the node lists it.
pub open spec fn merge_one(c: Seq<CatalogView>, l: ListingView, ip: Seq<char>) -> Seq<CatalogView> {
    let p = entry_pos_from(c, l.id, 0);
    if p >= 0 {
        let e = c[p];
        c.update(p, CatalogView {
            version: l.version,
            available_on: if e.available_on.contains(ip) { e.available_on } else { e.available_on.push(ip) },
            ..e
        })
    } else {
        c.push(CatalogView {
            agent_id: l.id,
            version: l.version,
            runtime: l.runtime,
            capabilities: l.capabilities,
            checksum: l.checksum,
            available_on: seq![ip],
        })
    }
}

/// The catalog after the node at `ip` listed the agents `ls`, in order.
pub open spec fn merged(c: Seq<CatalogView>, ls: Seq<ListingView>, ip: Seq<char>) -> Seq<CatalogView>
    decreases ls.len(),
{
    if ls.len() == 0 { c } else { merge_one(merged(c, ls.drop_last(), ip), ls.last(), ip) }
}

fn find_entry(catalog: &Vec<CatalogEntry>, id: &str) -> (r: Option<usize>)
    ensures
        match r {
            Some(p) => p as int == entry_pos_from(catalog_view(catalog@), id@, 0) && p < catalog@.len(),
            None => entry_pos_from(catalog_view(catalog@), id@, 0) == -1,
        },
{
    let ghost cv = catalog_view(catalog@);
    proof {
        lemma_entry_pos_from(cv, id@, 0);
    }
    let mut i: usize = 0;
    while i < catalog.len()
        invariant
            cv == catalog_view(catalog@),
            i <= catalog.len(),
            entry_pos_from(cv, id@, 0) == entry_pos_from(cv, id@, i as int),
        decreases catalog.len() - i,
    {
        if str_eq(catalog[i].agent_id.as_str(), id) {
            return Some(i);
        }
        i += 1;
    }
    None
}

/// Merges what the node at `node_ip` listed into the catalog.
pub fn merge_catalog(catalog: &mut Vec<CatalogEntry>, listings: Vec<AgentListing>, node_ip: &str)
    ensures
        catalog_view(final(catalog)@) == merged(catalog_view(old(catalog)@), listings_view(listings@), node_ip@),
{
    let ghost c0 = catalog_view(catalog@);
    let ghost lv = listings_view(listings@);
    proof {
        assert(lv.take(0) =~= Seq::<ListingView>::empty());
    }
    for l in it: listings.into_iter()
        invariant
            lv == listings_view(it.seq()),
            catalog_view(catalog@) == merged(c0, lv.take(it.index() as int), node_ip@),
    {
        let ghost k = it.index() as int;
        let ghost before = catalog_view(catalog@);
        proof {
            assert(lv.take(k + 1).drop_last() =~= lv.take(k));
            assert(lv.take(k + 1).last() == l@);
        }
        let ghost lview = l@;
        match find_entry(catalog, l.id.as_str()) {
            Some(p) => {
                let mut e = catalog.remove(p);
                let ghost e0 = e@;
                if !list_contains(&e.available_on, node_ip) {
                    e.available_on.push(node_ip.to_owned());
                    proof {
                        assert(texts(e.available_on@) =~= e0.available_on.push(node_ip@));
                        assert(!e0.available_on.contains(node_ip@)) by {
                            if e0.available_on.contains(node_ip@) {
                                let q = choose|q: int| 0 <= q < e0.available_on.len() && e0.available_on[q] == node_ip@;
                                assert(e.available_on@[q]@ == node_ip@);
                            }
                        }
                    }
                } else {
                    proof {
                        let q = choose|q: int| 0 <= q < e.available_on@.len() && #[trigger] e.available_on@[q]@ == node_ip@;
                        assert(e0.available_on[q] == node_ip@);
                    }
                }
                e.version = l.version;
                catalog.insert(p, e);
                proof {
                    assert(catalog_view(catalog@) =~= merge_one(before, lview, node_ip@));
                }
            },
            None => {
                let mut on: Vec<String> = Vec::new();
                on.push(node_ip.to_owned());
                let e = CatalogEntry {
                    agent_id: l.id,
                    version: l.version,
                    runtime: l.runtime,
                    capabilities: l.capabilities,
                    checksum: l.checksum,
                    available_on: on,
                };
                catalog.push(e);
                proof {
                    assert(texts(on@) =~= seq![node_ip@]);
                    assert(catalog_view(catalog@) =~= merge_one(before, lview, node_ip@));
                }
            },
        }
    }
    proof {
        assert(lv.take(lv.len() as int) =~= lv);
    }
}

/// Whether the fleet's active agents and capacity each sum within `limit`.
pub fn fleet_sums_within(nodes: &Vec<NodeRecord>, limit: u64) -> (b: bool)
    ensures
        b == (active_sum(nodes@) <= limit && capacity_sum(nodes@) <= limit),
{
    let mut active: u128 = 0;
    let mut cap: u128 = 0;
    let mut i: usize = 0;
    while i < nodes.len()
        invariant
            i <= nodes.len(),
            active as int == active_sum(nodes@.take(i as int)),
            cap as int == capacity_sum(nodes@.take(i as int)),
            active <= limit,
            cap <= limit,
        decreases nodes.len() - i,
    {
        proof {
            assert(nodes@.take(i + 1).drop_last() =~= nodes@.take(i as int));
            lemma_sums_grow(nodes@, i + 1);
        }
        active = active + nodes[i].status.active_agents as u128;
        cap = cap + nodes[i].status.max_agents as u128;
        i += 1;
        if active > limit as u128 || cap > limit as u128 {
            return false;
        }
    }
    proof {
        assert(nodes@.take(nodes@.len() as int) =~= nodes@);
    }
    true
}

} // verus!
