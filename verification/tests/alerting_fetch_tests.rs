use apollo_core::alerting::{
    channel_type_name, create_rule, default_cooldown, default_severity, delete_rule, get_rule, history_path,
    is_rule_due, mark_rule_fired, recent_firings, rules_path, webhook_signature, AlertChannel, AlertError,
    AlertFiring, AlertMetric, AlertRule,
};
use apollo_core::fetch::{
    archive_kind, classify_source, safe_download_name, validate_git_url, verify_sha256, ArchiveKind, FetchError,
    SourceKind,
};

fn rule(id: &str) -> AlertRule {
    AlertRule {
        id: id.to_string(),
        name: "low health".to_string(),
        description: String::new(),
        metric: AlertMetric::FleetUtilization,
        threshold_bits: 0.9f64.to_bits(),
        channel: AlertChannel::Slack { webhook_url: "https://hooks.example/x".to_string() },
        cooldown_secs: 300,
        enabled: false,
        last_fired_at: None,
        created_at: 0,
        updated_at: 0,
    }
}

#[test]
fn alert_defaults_and_paths() {
    assert_eq!(default_severity(), "warning");
    assert_eq!(default_cooldown(), 300);
    assert_eq!(rules_path("/var/apollo"), "/var/apollo/alerts/rules.json");
    assert_eq!(history_path("/var/apollo"), "/var/apollo/alerts/history.jsonl");
    assert_eq!(channel_type_name(&AlertChannel::Webhook { url: "u".to_string(), secret: None }), "webhook");
    assert_eq!(
        channel_type_name(&AlertChannel::PagerDuty { routing_key: "k".to_string(), severity: "info".to_string() }),
        "pagerduty"
    );
}

#[test]
fn rule_lifecycle() {
    let mut rules = Vec::new();
    let created = create_rule(&mut rules, rule(""), 1_000);
    assert_eq!(created.id.len(), 36);
    assert!(created.enabled);
    assert_eq!(created.created_at, 1_000);
    assert_eq!(rules.len(), 1);

    let mut r = get_rule(vec![rule("a"), rule("b")], "b").unwrap();
    assert_eq!(r.id, "b");
    r.enabled = true;
    assert!(is_rule_due(&r, 10));
    mark_rule_fired(&mut r, 10);
    assert_eq!(r.last_fired_at, Some(10));
    assert!(!is_rule_due(&r, 309));
    assert!(is_rule_due(&r, 310));

    let id = created.id.clone();
    delete_rule(&mut rules, &id).ok().unwrap();
    assert!(rules.is_empty());
    match delete_rule(&mut rules, &id) {
        Err(AlertError::NotFound(x)) => assert_eq!(x, id),
        Ok(()) => panic!("expected NotFound"),
    }
}

#[test]
fn firings_newest_first() {
    let f: Vec<AlertFiring> = (0..4)
        .map(|i| AlertFiring {
            id: format!("f{}", i),
            rule_id: "r".to_string(),
            rule_name: "r".to_string(),
            fired_at: i,
            metric_value_bits: 0,
            message: String::new(),
            channel_type: "slack".to_string(),
            delivered: true,
            error: None,
        })
        .collect();
    let r = recent_firings(f, 10);
    assert_eq!(r.iter().map(|x| x.fired_at).collect::<Vec<_>>(), vec![3, 2, 1, 0]);
}

#[test]
fn webhook_signature_is_hex_hmac_sha256() {
    assert_eq!(
        webhook_signature("key", "The quick brown fox jumps over the lazy dog"),
        "sha256=f7bc83f430538424b13298e6aa6fb143ef4d59a14946175997479dbc2d1a3cd8"
    );
}

#[test]
fn sources_are_classified() {
    assert!(matches!(classify_source("https://github.com/acme/agent"), SourceKind::GitRepo));
    assert!(matches!(classify_source("https://example.com/agent.tar.gz"), SourceKind::Archive));
    assert!(matches!(classify_source("https://github.com/acme/agent/archive/v1.zip"), SourceKind::Archive));
    assert!(matches!(classify_source("git@github.com:acme/agent.git"), SourceKind::GitRepo));
    assert!(matches!(classify_source("./agents/local"), SourceKind::LocalPath));
}

#[test]
fn git_urls_are_validated() {
    assert!(validate_git_url("https://github.com/acme/agent.git").is_ok());
    match validate_git_url("https://x/repo --upload-pack=evil") {
        Err(FetchError::UnsafeToken(t)) => assert_eq!(t, "--upload-pack"),
        _ => panic!("expected UnsafeToken"),
    }
    match validate_git_url("https://x/repo; rm -rf /") {
        Err(FetchError::UnsafeToken(t)) => assert_eq!(t, "; "),
        _ => panic!("expected UnsafeToken"),
    }
    assert!(matches!(validate_git_url("file:///etc/passwd"), Err(FetchError::BadScheme)));
}

#[test]
fn download_names_are_safe() {
    assert_eq!(safe_download_name("https://example.com/files/agent-1.0.tar.gz?token=abc").ok().unwrap(), "agent-1.0.tar.gz");
    assert!(matches!(safe_download_name("https://example.com/.."), Err(FetchError::NoSafeName)));
    assert!(matches!(safe_download_name("https://example.com/"), Err(FetchError::NoSafeName)));
}

#[test]
fn archive_kinds() {
    assert!(matches!(archive_kind("Agent.TAR.GZ"), ArchiveKind::Tar));
    assert!(matches!(archive_kind("agent.tgz"), ArchiveKind::Tar));
    assert!(matches!(archive_kind("agent.Zip"), ArchiveKind::Zip));
    assert!(matches!(archive_kind("agent.bin"), ArchiveKind::Plain));
}

#[test]
fn sha256_checksums() {
    let data = b"abc".to_vec();
    assert!(verify_sha256(&data, "BA7816BF8F01CFEA414140DE5DAE2223B00361A396177A9CB410FF61F20015AD").is_ok());
    match verify_sha256(&data, "00") {
        Err(FetchError::ChecksumMismatch { expected, actual }) => {
            assert_eq!(expected, "00");
            assert_eq!(actual, "ba7816bf8f01cfea414140de5dae2223b00361a396177a9cb410ff61f20015ad");
        }
        _ => panic!("expected a mismatch"),
    }
}
