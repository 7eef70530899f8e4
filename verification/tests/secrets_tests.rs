use apollo_core::secrets::{
    decrypt, encrypt, load_secrets, new_master_key, save_secrets, upsert_secrets, usable_master_key, SecretsError,
    StoredSecrets, TenantSecrets, KEY_LEN, NONCE_LEN,
};
use std::collections::HashMap;

#[test]
fn sealed_secrets_open_again() {
    let key = new_master_key();
    assert_eq!(key.len(), KEY_LEN);
    let plain = br#"{"API_KEY":"SECRET-REDACTED"}"#.to_vec();
    let stored = save_secrets(&plain, &key).ok().unwrap();
    // the stored text is base64, not the plaintext
    assert!(!stored.contains("API_KEY"));
    match load_secrets(&format!("  {}\n", stored), &key) {
        StoredSecrets::Decrypted(p) => assert_eq!(p, plain),
        StoredSecrets::Legacy(_) => panic!("expected the secrets to decrypt"),
    }
}

#[test]
fn legacy_plain_json_is_returned_trimmed() {
    let key = new_master_key();
    match load_secrets("  {\"A\":\"b\"}\n", &key) {
        StoredSecrets::Legacy(s) => assert_eq!(s, "{\"A\":\"b\"}"),
        StoredSecrets::Decrypted(_) => panic!("expected the legacy text"),
    }
}

#[test]
fn wrong_key_does_not_decrypt() {
    let key = new_master_key();
    let other = new_master_key();
    let blob = encrypt(&b"hello".to_vec(), &key).ok().unwrap();
    assert_eq!(blob.len(), NONCE_LEN + 5 + 16);
    assert!(matches!(decrypt(&blob, &other), Err(SecretsError::DecryptFailed)));
    assert_eq!(decrypt(&blob, &key).ok().unwrap(), b"hello".to_vec());
    assert!(matches!(decrypt(&vec![1, 2, 3], &key), Err(SecretsError::BlobTooShort)));
    let stored = save_secrets(&b"x".to_vec(), &key).ok().unwrap();
    assert!(matches!(load_secrets(&stored, &other), StoredSecrets::Legacy(_)));
}

#[test]
fn fresh_nonces_differ() {
    let key = new_master_key();
    let a = encrypt(&b"same".to_vec(), &key).ok().unwrap();
    let b = encrypt(&b"same".to_vec(), &key).ok().unwrap();
    assert_ne!(a, b);
}

#[test]
fn master_key_must_have_the_right_length() {
    assert!(usable_master_key(None).is_none());
    assert!(usable_master_key(Some(vec![0u8; 31])).is_none());
    assert_eq!(usable_master_key(Some(vec![7u8; 32])), Some(vec![7u8; 32]));
}

#[test]
fn upsert_replaces_and_adds() {
    let mut existing = HashMap::new();
    existing.insert("A".to_string(), "1".to_string());
    existing.insert("B".to_string(), "2".to_string());
    let mut new = HashMap::new();
    new.insert("B".to_string(), "20".to_string());
    new.insert("C".to_string(), "3".to_string());
    let r = upsert_secrets(TenantSecrets { secrets: existing }, new);
    assert_eq!(r.secrets.len(), 3);
    assert_eq!(r.secrets["A"], "1");
    assert_eq!(r.secrets["B"], "20");
    assert_eq!(r.secrets["C"], "3");
}
