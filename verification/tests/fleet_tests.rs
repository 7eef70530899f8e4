use apollo_core::fleet::{
    add_node, apply_poll, best_node, catalog_due, default_region, fleet_summary, fleet_sums_within, is_authorized,
    merge_catalog, node_status_label, region_totals, set_node_status, should_poll, AgentListing, CatalogEntry,
    NodeRecord, NodeStatus, PollOutcome,
};

fn node(name: &str, ip: &str, region: &str, online: bool, active: usize, max: usize) -> NodeRecord {
    NodeRecord {
        name: name.to_string(),
        ip: ip.to_string(),
        key: "k".to_string(),
        region: region.to_string(),
        status: NodeStatus { is_online: online, active_agents: active, max_agents: max, last_seen: 0, failure_count: 0 },
    }
}

#[test]
fn hub_authorization() {
    assert!(is_authorized(Some("secret"), None, "secret"));
    assert!(is_authorized(None, Some("Bearer secret"), "secret"));
    assert!(is_authorized(Some("wrong"), Some("Bearer secret"), "secret"));
    assert!(!is_authorized(Some("wrong"), Some("Basic secret"), "secret"));
    assert!(!is_authorized(None, Some("Bearer  secret"), "secret"));
    assert!(!is_authorized(None, None, "secret"));
}

#[test]
fn polling_state_machine() {
    let mut s = NodeStatus::unknown();
    assert!(should_poll(&s, 1));
    s = apply_poll(s, PollOutcome::Failed, 10);
    assert!(!s.is_online);
    assert_eq!(s.failure_count, 1);
    assert_eq!(node_status_label(&s), "FAILED");
    for _ in 0..4 {
        s = apply_poll(s, PollOutcome::Failed, 10);
    }
    assert_eq!(s.failure_count, 5);
    // backed off: only every sixth tick
    assert!(!should_poll(&s, 7));
    assert!(should_poll(&s, 12));
    s = apply_poll(s, PollOutcome::Unreadable, 11);
    assert_eq!(s.failure_count, 5);
    s = apply_poll(s, PollOutcome::Metrics { active_agents: 3, max_agents: 10 }, 12);
    assert!(s.is_online);
    assert_eq!((s.active_agents, s.max_agents, s.last_seen, s.failure_count), (3, 10, 12, 0));
    assert_eq!(node_status_label(&s), "ONLINE");
    assert_eq!(node_status_label(&NodeStatus::unknown()), "UNKNOWN");
    assert!(catalog_due(10, true));
    assert!(!catalog_due(10, false));
    assert!(!catalog_due(11, true));
}

#[test]
fn registering_and_updating_nodes() {
    let mut nodes = Vec::new();
    assert!(add_node(&mut nodes, node("a", "10.0.0.1:8080", &default_region(), false, 0, 0)));
    assert!(!add_node(&mut nodes, node("b", "10.0.0.1:8080", "eu", false, 0, 0)));
    assert_eq!(nodes.len(), 1);
    assert_eq!(nodes[0].region, "default");
    let st = NodeStatus { is_online: true, active_agents: 1, max_agents: 4, last_seen: 9, failure_count: 0 };
    set_node_status(&mut nodes, "10.0.0.1:8080", st);
    assert!(nodes[0].status.is_online);
    assert_eq!(nodes[0].status.max_agents, 4);
}

#[test]
fn best_node_is_least_loaded_eligible() {
    let nodes = vec![
        node("full", "1", "us", true, 5, 5),
        node("offline", "2", "us", false, 0, 5),
        node("busy", "3", "us", true, 3, 10),
        node("idle", "4", "eu", true, 1, 10),
        node("idle2", "5", "us", true, 1, 10),
    ];
    assert_eq!(best_node(&nodes, None), Some(3));
    assert_eq!(best_node(&nodes, Some("us")), Some(4));
    assert_eq!(best_node(&nodes, Some("ap")), None);
}

#[test]
fn fleet_and_region_tallies() {
    let nodes = vec![
        node("a", "1", "us", true, 2, 10),
        node("b", "2", "eu", false, 0, 5),
        node("c", "3", "us", true, 3, 10),
    ];
    assert!(fleet_sums_within(&nodes, u64::MAX));
    assert!(!fleet_sums_within(&nodes, 20));
    let s = fleet_summary(&nodes, 7);
    assert_eq!((s.nodes_total, s.nodes_online, s.agents_active, s.fleet_capacity, s.catalog_agents), (3, 2, 5, 25, 7));
    let rows = region_totals(&nodes);
    assert_eq!(rows.len(), 2);
    assert_eq!(rows[0].region, "us");
    assert_eq!((rows[0].nodes_total, rows[0].nodes_online, rows[0].agents_active, rows[0].fleet_capacity), (2, 2, 5, 20));
    assert_eq!(rows[1].region, "eu");
    assert_eq!((rows[1].nodes_total, rows[1].nodes_online, rows[1].agents_active, rows[1].fleet_capacity), (1, 0, 0, 5));
}

fn listing(id: &str, version: &str) -> AgentListing {
    AgentListing {
        id: id.to_string(),
        version: version.to_string(),
        runtime: "python3".to_string(),
        capabilities: vec!["text".to_string()],
        checksum: "abc".to_string(),
    }
}

#[test]
fn catalog_merges_listings() {
    let mut catalog: Vec<CatalogEntry> = Vec::new();
    merge_catalog(&mut catalog, vec![listing("a", "1.0"), listing("b", "2.0")], "10.0.0.1");
    assert_eq!(catalog.len(), 2);
    assert_eq!(catalog[0].available_on, vec!["10.0.0.1"]);
    merge_catalog(&mut catalog, vec![listing("a", "1.1")], "10.0.0.2");
    assert_eq!(catalog.len(), 2);
    assert_eq!(catalog[0].version, "1.1");
    assert_eq!(catalog[0].available_on, vec!["10.0.0.1", "10.0.0.2"]);
    merge_catalog(&mut catalog, vec![listing("a", "1.2")], "10.0.0.2");
    assert_eq!(catalog[0].available_on, vec!["10.0.0.1", "10.0.0.2"]);
    assert_eq!(catalog[0].version, "1.2");
    assert_eq!(catalog[1].runtime, "python3");
}
