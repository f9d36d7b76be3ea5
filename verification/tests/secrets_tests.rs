use std::collections::HashMap;

use wassette::secrets::{sanitize_component_id, secret_file_name, SecretMap};
use wassette::secrets_codec::{emit_secret_map, parse_secret_map};

#[test]
fn test_sanitize_component_id() {
    assert_eq!(sanitize_component_id("simple"), "simple");
    assert_eq!(sanitize_component_id("my-component.v1"), "my-component.v1");
    assert_eq!(sanitize_component_id("invalid/chars:here"), "invalid_chars_here");
    assert_eq!(sanitize_component_id("multiple___underscores"), "multiple_underscores");

    // Test truncation
    let long_id = "a".repeat(200);
    let sanitized = sanitize_component_id(&long_id);
    assert!(sanitized.len() <= 128);
    assert_eq!(sanitized, "a".repeat(128));
}

#[test]
fn test_secret_map_operations() {
    let mut secrets = SecretMap::new();
    assert!(secrets.is_empty());
    assert_eq!(secrets.len(), 0);

    secrets.insert("key1".to_string(), "value1".to_string());
    secrets.insert("key2".to_string(), "value2".to_string());

    assert!(!secrets.is_empty());
    assert_eq!(secrets.len(), 2);
    assert_eq!(secrets.get("key1"), Some(&"value1".to_string()));
    assert_eq!(secrets.get("key2"), Some(&"value2".to_string()));
    assert_eq!(secrets.get("nonexistent"), None);

    assert_eq!(secrets.remove("key1"), Some("value1".to_string()));
    assert_eq!(secrets.len(), 1);
    assert_eq!(secrets.remove("nonexistent"), None);
}

#[test]
fn test_secret_sanitization() {
    // The file-name stem of a wild component id collapses every unsafe rune.
    let file = secret_file_name("test/component:with@special#chars!");
    assert_eq!(file, "test_component_with_special_chars_.yaml");
}

#[test]
fn test_secret_map_file_round_trip() {
    let mut secrets = SecretMap::new();
    secrets.insert("API_KEY".to_string(), "secret123".to_string());
    secrets.insert("REGION".to_string(), "us-west-2".to_string());
    secrets.insert("quoted".to_string(), "a \"strange\" \\ value".to_string());

    let text = emit_secret_map(&secrets);
    let reloaded = parse_secret_map(&text).expect("the encoded map must decode");
    assert_eq!(reloaded.len(), 3);
    assert_eq!(reloaded.get("API_KEY"), Some(&"secret123".to_string()));
    assert_eq!(reloaded.get("REGION"), Some(&"us-west-2".to_string()));
    assert_eq!(reloaded.get("quoted"), Some(&"a \"strange\" \\ value".to_string()));
}

#[test]
fn test_secret_map_file_is_yaml() {
    let mut secrets = SecretMap::new();
    secrets.insert("API_KEY".to_string(), "secret123".to_string());
    secrets.insert("REGION".to_string(), "us-west-2".to_string());

    let text = emit_secret_map(&secrets);
    let as_yaml: HashMap<String, String> = serde_yaml::from_str(&text).expect("valid YAML");
    assert_eq!(as_yaml.get("API_KEY"), Some(&"secret123".to_string()));
    assert_eq!(as_yaml.get("REGION"), Some(&"us-west-2".to_string()));
}

#[test]
fn test_secret_persistence_across_sessions() {
    // One session writes the file text; a fresh session reloads it and the
    // projection sees the persisted value.
    let mut first_session = SecretMap::new();
    first_session.insert("API_KEY".to_string(), "v1".to_string());
    let file_text = emit_secret_map(&first_session);

    let second_session = parse_secret_map(&file_text).expect("reload");
    let env = second_session.into_env_vars();
    assert!(env.iter().any(|(k, v)| k == "API_KEY" && v == "v1"));
}

#[test]
fn test_parse_rejects_duplicate_keys() {
    let text = "\"k\": \"a\"\n\"k\": \"b\"\n";
    assert!(parse_secret_map(text).is_none());
}

#[test]
fn test_parse_rejects_foreign_text() {
    assert!(parse_secret_map("not the canonical shape").is_none());
}

#[test]
fn test_insert_replaces_existing_key() {
    let mut secrets = SecretMap::new();
    secrets.insert("KEY2".to_string(), "value2".to_string());
    secrets.insert("KEY2".to_string(), "updated_value2".to_string());
    assert_eq!(secrets.len(), 1);
    assert_eq!(secrets.get("KEY2"), Some(&"updated_value2".to_string()));
}

#[test]
fn test_keys_and_iter_follow_insertion_order() {
    let mut secrets = SecretMap::new();
    secrets.insert("KEY1".to_string(), "value1".to_string());
    secrets.insert("KEY3".to_string(), "value3".to_string());
    assert_eq!(secrets.keys(), vec!["KEY1".to_string(), "KEY3".to_string()]);
    let pairs = secrets.iter();
    assert_eq!(pairs[0], ("KEY1".to_string(), "value1".to_string()));
    assert_eq!(pairs[1], ("KEY3".to_string(), "value3".to_string()));
}

#[test]
fn test_remove_keys_reports_what_was_bound() {
    // Mirrors a delete-secret request: of the named keys, exactly the
    // bound ones are removed and reported, in order.
    let mut secrets = SecretMap::new();
    secrets.insert("KEY1".to_string(), "value1".to_string());
    secrets.insert("KEY2".to_string(), "updated_value2".to_string());
    secrets.insert("KEY3".to_string(), "value3".to_string());

    let deleted =
        secrets.remove_keys(&vec!["KEY1".to_string(), "NONEXISTENT".to_string()]);
    assert_eq!(deleted, vec!["KEY1".to_string()]);
    assert_eq!(secrets.len(), 2);
    assert_eq!(secrets.get("KEY1"), None);
    assert_eq!(secrets.get("KEY2"), Some(&"updated_value2".to_string()));
    assert_eq!(secrets.get("KEY3"), Some(&"value3".to_string()));
}

#[test]
fn test_sanitize_keeps_ascii_untouched() {
    assert_eq!(sanitize_component_id("test-component"), "test-component");
    assert_eq!(secret_file_name("dir-test"), "dir-test.yaml");
}
