use wassette::policy::{
    AccessType, EnvEntry, EnvironmentPolicy, HostEntry, NetworkPolicy, Permissions,
    PolicyDocument, ResourceLimits, ResourcePolicy, StorageEntry, StoragePolicy,
};
use wassette::policy::summarize_policy;
use wassette::policy_codec::{emit_policy_text, parse_policy_text};
use wassette::sigverify::{signature_outcome, validate_trust_config, verification_required,
    SignatureVerificationConfig, VerificationConfig};

fn full_policy() -> PolicyDocument {
    PolicyDocument {
        version: "1.0".to_string(),
        description: Some("Test policy for the host".to_string()),
        permissions: Permissions {
            network: Some(NetworkPolicy {
                allow: Some(vec![HostEntry { host: "api.example.com".to_string() }]),
            }),
            storage: Some(StoragePolicy {
                allow: Some(vec![StorageEntry {
                    uri: "fs://test/path".to_string(),
                    access: vec![AccessType::Read, AccessType::Write],
                }]),
            }),
            environment: Some(EnvironmentPolicy {
                allow: Some(vec![EnvEntry { key: "TEST_VAR".to_string() }]),
            }),
            resources: Some(ResourcePolicy {
                limits: Some(ResourceLimits { memory: Some("512Mi".to_string()) }),
                memory: None,
            }),
        },
    }
}

#[test]
fn test_policy_yaml_shape() {
    let text = emit_policy_text(&full_policy());
    let expected = "version: \"1.0\"\ndescription: \"Test policy for the host\"\npermissions:\n  network:\n    allow:\n      - host: \"api.example.com\"\n  storage:\n    allow:\n      - uri: \"fs://test/path\"\n        access: [\"read\", \"write\"]\n  environment:\n    allow:\n      - key: \"TEST_VAR\"\n  resources:\n    limits:\n      memory: \"512Mi\"\n";
    assert_eq!(text, expected);
}

#[test]
fn test_policy_yaml_readable_by_yaml_parser() {
    // The canonical encoding is ordinary YAML: a stock parser reads the
    // same structure back, so the round trip is stable under an
    // independent decoder as well.
    let text = emit_policy_text(&full_policy());
    let value: serde_yaml::Value = serde_yaml::from_str(&text).expect("valid YAML");
    assert_eq!(
        value.get("version").and_then(|v| v.as_str()),
        Some("1.0")
    );
    let host = value
        .get("permissions")
        .and_then(|p| p.get("network"))
        .and_then(|n| n.get("allow"))
        .and_then(|a| a.get(0))
        .and_then(|e| e.get("host"))
        .and_then(|h| h.as_str());
    assert_eq!(host, Some("api.example.com"));
    let memory = value
        .get("permissions")
        .and_then(|p| p.get("resources"))
        .and_then(|r| r.get("limits"))
        .and_then(|l| l.get("memory"))
        .and_then(|m| m.as_str());
    assert_eq!(memory, Some("512Mi"));
}

#[test]
fn test_policy_yaml_minimal_document() {
    let minimal = PolicyDocument::empty();
    let text = emit_policy_text(&minimal);
    assert_eq!(text, "version: \"1.0\"\npermissions:\n");
    let value: serde_yaml::Value = serde_yaml::from_str(&text).expect("valid YAML");
    assert_eq!(value.get("version").and_then(|v| v.as_str()), Some("1.0"));
}

#[test]
fn test_policy_yaml_legacy_memory() {
    let mut p = PolicyDocument::empty();
    p.permissions.resources = Some(ResourcePolicy { limits: None, memory: Some(256) });
    let text = emit_policy_text(&p);
    assert!(text.contains("  resources:\n    memory: \"256\"\n"));
}

#[test]
fn test_policy_round_trip() {
    // The document survives its trip to file text and back unchanged.
    let original = full_policy();
    let text = emit_policy_text(&original);
    let reloaded = parse_policy_text(&text).expect("the canonical text must decode");

    assert_eq!(reloaded.version, "1.0");
    assert_eq!(reloaded.description.as_deref(), Some("Test policy for the host"));
    let hosts = reloaded.permissions.network.as_ref().unwrap().allow.as_ref().unwrap();
    assert_eq!(hosts.len(), 1);
    assert_eq!(hosts[0].host, "api.example.com");
    let storage = reloaded.permissions.storage.as_ref().unwrap().allow.as_ref().unwrap();
    assert_eq!(storage.len(), 1);
    assert_eq!(storage[0].uri, "fs://test/path");
    assert_eq!(storage[0].access, vec![AccessType::Read, AccessType::Write]);
    let env = reloaded.permissions.environment.as_ref().unwrap().allow.as_ref().unwrap();
    assert_eq!(env.len(), 1);
    assert_eq!(env[0].key, "TEST_VAR");
    let res = reloaded.permissions.resources.as_ref().unwrap();
    assert_eq!(res.limits.as_ref().unwrap().memory.as_deref(), Some("512Mi"));
    assert_eq!(res.memory, None);

    // And the re-encoding of the reloaded document is byte-identical.
    assert_eq!(emit_policy_text(&reloaded), text);
}

#[test]
fn test_policy_round_trip_variants() {
    // Null allow, empty allow list, and the legacy memory field each
    // survive the trip and stay distinguishable.
    let mut p = PolicyDocument::empty();
    p.permissions.network = Some(NetworkPolicy { allow: None });
    p.permissions.storage = Some(StoragePolicy { allow: Some(Vec::new()) });
    p.permissions.resources = Some(ResourcePolicy { limits: None, memory: Some(256) });
    let text = emit_policy_text(&p);
    let back = parse_policy_text(&text).expect("decodes");
    assert!(back.permissions.network.as_ref().unwrap().allow.is_none());
    assert_eq!(
        back.permissions.storage.as_ref().unwrap().allow.as_ref().unwrap().len(),
        0
    );
    assert_eq!(back.permissions.resources.as_ref().unwrap().memory, Some(256));
    assert!(back.permissions.environment.is_none());
    assert_eq!(emit_policy_text(&back), text);
}

#[test]
fn test_parse_rejects_non_canonical_text() {
    assert!(parse_policy_text("").is_none());
    assert!(parse_policy_text("version: 1.0\n").is_none());
    assert!(parse_policy_text("version: \"1.0\"\npermissions:\n trailing").is_none());
}

#[test]
fn test_policy_summary() {
    let info = summarize_policy(&full_policy());
    assert_eq!(info.network, vec!["api.example.com".to_string()]);
    assert_eq!(info.storage, vec!["fs://test/path".to_string()]);
    assert_eq!(info.environment, vec!["TEST_VAR".to_string()]);
}

#[test]
fn test_verifier_creation_with_enforcement_disabled() {
    let config = VerificationConfig {
        enforce: false,
        trusted_keys: vec![],
        trusted_certs: vec![],
        allow_fulcio: false,
    };
    assert!(validate_trust_config(&config).is_ok());
    assert!(!verification_required(&config));
}

#[test]
fn test_verifier_creation_fails_with_no_trust_roots() {
    let config = VerificationConfig {
        enforce: true,
        trusted_keys: vec![],
        trusted_certs: vec![],
        allow_fulcio: false,
    };
    let result = validate_trust_config(&config);
    assert!(result.is_err());
    assert_eq!(result.unwrap_err().discriminant(), "SignatureError");
}

#[test]
fn test_signature_outcome_requires_a_layer() {
    // Zero verified signature layers is a failure, never an allow.
    assert!(signature_outcome(0).is_err());
    assert_eq!(signature_outcome(0).unwrap_err().discriminant(), "SignatureError");
    assert!(signature_outcome(1).is_ok());
    assert!(signature_outcome(3).is_ok());
}

#[test]
fn test_signature_verification_config() {
    let settings = SignatureVerificationConfig {
        enforce: true,
        trusted_keys: vec!["test-key".to_string()],
        trusted_certs: vec![],
        allow_fulcio: false,
    };
    let config = VerificationConfig::from_settings(&settings);
    assert!(config.enforce);
    assert_eq!(config.trusted_keys, vec!["test-key".to_string()]);
    assert!(validate_trust_config(&config).is_ok());
}
