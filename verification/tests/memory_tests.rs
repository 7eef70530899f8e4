use apollo_core::memory::{delete_memory, get_memory, list_memory_keys, memory_stats, put_memory, tag_matches, tokenize, MemoryStore};
use serde_json::Value;

const NOW: u64 = 1_700_000_000;

fn json(s: &str) -> Value {
    serde_json::from_str(s).unwrap()
}

#[test]
fn test_put_and_get_memory() {
    let mut store = MemoryStore::new();
    let entry = put_memory(
        &mut store,
        "user_pref",
        json(r#"{"theme": "dark", "language": "en"}"#),
        vec!["preferences".to_string()],
        Some("user prefers dark theme".to_string()),
        None,
        None,
        NOW,
    );

    assert_eq!(entry.key, "user_pref");

    let loaded = get_memory(&store, "user_pref", NOW).unwrap();
    assert_eq!(loaded.value["theme"], "dark");
}

#[test]
fn test_delete_memory() {
    let mut store = MemoryStore::new();
    put_memory(&mut store, "key1", Value::String("value".to_string()), vec![], None, None, None, NOW);
    let removed = delete_memory(&mut store, "key1");
    assert!(removed);

    let none = get_memory(&store, "key1", NOW);
    assert!(none.is_none());
    assert!(!delete_memory(&mut store, "key1"));
}

#[test]
fn test_ttl_expiry() {
    let mut store = MemoryStore::new();
    put_memory(
        &mut store,
        "ephemeral",
        Value::String("short lived".to_string()),
        vec![],
        None,
        Some(0), // expires immediately
        None,
        NOW,
    );

    // TTL of 0 means expires at created_at, so it's already expired
    let result = get_memory(&store, "ephemeral", NOW);
    assert!(result.is_none(), "Entry with TTL=0 should be expired");
}

#[test]
fn test_list_keys() {
    let mut store = MemoryStore::new();
    for i in 0..5 {
        put_memory(&mut store, &format!("key{}", i), json(&i.to_string()), vec![], None, None, None, NOW);
    }

    let keys = list_memory_keys(&mut store, NOW);
    assert_eq!(keys.len(), 5);
}

#[test]
fn tag_filter_keeps_entries_with_every_required_tag() {
    let mut store = MemoryStore::new();
    put_memory(
        &mut store,
        "docs_entry",
        Value::String("technical documentation".to_string()),
        vec!["docs".to_string(), "tech".to_string()],
        Some("API reference guide".to_string()),
        None,
        None,
        NOW,
    );
    put_memory(
        &mut store,
        "blog_entry",
        Value::String("casual post".to_string()),
        vec!["blog".to_string()],
        Some("API blog post".to_string()),
        None,
        None,
        NOW,
    );

    let required = vec!["docs".to_string()]; // only docs entries
    let results: Vec<&str> =
        store.entries.iter().filter(|e| tag_matches(e, &required)).map(|e| e.key.as_str()).collect();
    assert_eq!(results.len(), 1);
    assert_eq!(results[0], "docs_entry");
}

#[test]
fn overwrite_keeps_creation_time_and_one_entry() {
    let mut store = MemoryStore::new();
    put_memory(&mut store, "k", json("1"), vec![], None, None, None, 100);
    let second = put_memory(&mut store, "k", json("2"), vec![], None, Some(50), None, 200);
    assert_eq!(second.created_at, 100);
    assert_eq!(second.updated_at, 200);
    assert_eq!(store.entries.len(), 1);
    assert_eq!(get_memory(&store, "k", 149).unwrap().value, json("2"));
    // created at 100 with a ttl of 50: gone at 150
    assert!(get_memory(&store, "k", 150).is_none());
}

#[test]
fn listing_prunes_expired_entries() {
    let mut store = MemoryStore::new();
    put_memory(&mut store, "a", json("1"), vec![], None, Some(10), None, 100);
    put_memory(&mut store, "b", json("2"), vec![], None, None, Some(vec![0u32, 1]), 100);
    let stats = memory_stats(&store, "t", "g", 42, 200);
    assert_eq!(stats.total_entries, 2);
    assert_eq!(stats.live_entries, 1);
    assert_eq!(stats.with_embeddings, 1);
    assert_eq!(stats.total_bytes, 42);
    let keys = list_memory_keys(&mut store, 200);
    assert_eq!(keys, vec!["b"]);
    assert_eq!(store.entries.len(), 1);
    assert_eq!(store.live_count(200), 1);
}

#[test]
fn tokenize_lowercases_and_splits_on_punctuation() {
    assert_eq!(tokenize("Hello, World! a-b rust_lang 42"), vec!["hello", "world", "rust", "lang", "42"]);
}

#[test]
fn tokenize_keeps_two_byte_single_characters() {
    // "é" is two bytes long in UTF-8, so it is kept; "x" is dropped.
    assert_eq!(tokenize("x é ok"), vec!["é", "ok"]);
    assert!(tokenize("").is_empty());
    assert!(tokenize("a b c").is_empty());
}
