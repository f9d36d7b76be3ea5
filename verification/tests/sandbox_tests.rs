use wassette::policy::{
    AccessType, EnvEntry, EnvironmentPolicy, HostEntry, NetworkPolicy, Permissions,
    PolicyDocument, ResourceLimits, ResourcePolicy, StorageEntry, StoragePolicy,
};
use wassette::sandbox::{
    calculate_permissions, check_http_request, create_wasi_state_template_from_policy,
    extract_allowed_hosts, extract_env_vars, extract_memory_limit, extract_network_perms,
    extract_storage_permissions, host_allowed, http_denied_message, memory_grow_allowed,
    merge_secret_env, parse_memory_size, DirPerms, FilePerms,
};
use wassette::secrets::SecretMap;

fn zero_permission_policy() -> PolicyDocument {
    PolicyDocument {
        version: "1.0".to_string(),
        description: Some("Minimal test policy".to_string()),
        permissions: Permissions {
            network: None,
            storage: None,
            environment: None,
            resources: None,
        },
    }
}

fn test_policy() -> PolicyDocument {
    PolicyDocument {
        version: "1.0".to_string(),
        description: Some("Test policy".to_string()),
        permissions: Permissions {
            network: Some(NetworkPolicy {
                allow: Some(vec![HostEntry { host: "api.example.com".to_string() }]),
            }),
            storage: Some(StoragePolicy {
                allow: Some(vec![
                    StorageEntry {
                        uri: "fs://test/path".to_string(),
                        access: vec![AccessType::Read],
                    },
                    StorageEntry {
                        uri: "fs://write/path".to_string(),
                        access: vec![AccessType::Write],
                    },
                    StorageEntry {
                        uri: "fs://readwrite/path".to_string(),
                        access: vec![AccessType::Read, AccessType::Write],
                    },
                    StorageEntry {
                        uri: "http://not-fs".to_string(),
                        access: vec![AccessType::Read],
                    },
                ]),
            }),
            environment: Some(EnvironmentPolicy {
                allow: Some(vec![
                    EnvEntry { key: "TEST_VAR".to_string() },
                    EnvEntry { key: "NONEXISTENT_VAR".to_string() },
                ]),
            }),
            resources: None,
        },
    }
}

#[test]
fn test_calculate_permissions_read_only() {
    let access_types = vec![AccessType::Read];
    let (file_perms, dir_perms) = calculate_permissions(&access_types);

    assert_eq!(file_perms, FilePerms { read: true, write: false });
    assert_eq!(dir_perms, DirPerms { read: true, mutate: false });
}

#[test]
fn test_calculate_permissions_write_only() {
    let access_types = vec![AccessType::Write];
    let (file_perms, dir_perms) = calculate_permissions(&access_types);

    assert_eq!(file_perms, FilePerms { read: false, write: true });
    assert_eq!(dir_perms, DirPerms { read: true, mutate: true });
}

#[test]
fn test_calculate_permissions_read_write() {
    let access_types = vec![AccessType::Read, AccessType::Write];
    let (file_perms, dir_perms) = calculate_permissions(&access_types);

    assert_eq!(file_perms, FilePerms { read: true, write: true });
    assert_eq!(dir_perms, DirPerms { read: true, mutate: true });
}

#[test]
fn test_calculate_permissions_empty() {
    let access_types = vec![];
    let (file_perms, dir_perms) = calculate_permissions(&access_types);

    assert_eq!(file_perms, FilePerms { read: false, write: false });
    assert_eq!(dir_perms, DirPerms { read: false, mutate: false });
}

#[test]
fn test_calculate_permissions_duplicated_access() {
    let access_types = vec![
        AccessType::Read,
        AccessType::Write,
        AccessType::Read,
        AccessType::Write,
    ];
    let (file_perms, dir_perms) = calculate_permissions(&access_types);

    assert_eq!(file_perms, FilePerms { read: true, write: true });
    assert_eq!(dir_perms, DirPerms { read: true, mutate: true });
}

#[test]
fn test_calculate_permissions_order_insensitive() {
    // Any permutation and any duplication of the access list grants the
    // same permissions.
    let forward = calculate_permissions(&vec![AccessType::Read, AccessType::Write]);
    let backward = calculate_permissions(&vec![AccessType::Write, AccessType::Read]);
    let doubled = calculate_permissions(&vec![
        AccessType::Read,
        AccessType::Write,
        AccessType::Read,
        AccessType::Write,
    ]);
    assert_eq!(forward, backward);
    assert_eq!(forward, doubled);
}

#[test]
fn test_extract_environment_variables_with_isolation() {
    let policy = test_policy();
    let env_vars = vec![("TEST_VAR".to_string(), "isolated_value".to_string())];

    let extracted = extract_env_vars(&policy, &env_vars);
    assert!(extracted
        .iter()
        .any(|(k, v)| k == "TEST_VAR" && v == "isolated_value"));
    assert!(!extracted.iter().any(|(k, _)| k == "NONEXISTENT_VAR"));
}

#[test]
fn test_extract_environment_variables_missing_env() {
    let policy = test_policy();
    let env_vars: Vec<(String, String)> = Vec::new();
    let extracted = extract_env_vars(&policy, &env_vars);
    assert!(!extracted.iter().any(|(k, _)| k == "TEST_VAR"));
}

#[test]
fn test_extract_environment_variables_no_permissions() {
    let policy = zero_permission_policy();
    let env_vars: Vec<(String, String)> = Vec::new();
    let extracted = extract_env_vars(&policy, &env_vars);
    assert!(extracted.is_empty());
}

#[test]
fn test_extract_environment_variables_empty_allow_list() {
    let mut policy = zero_permission_policy();
    policy.permissions.environment = Some(EnvironmentPolicy { allow: None });
    let env_vars: Vec<(String, String)> = Vec::new();
    let extracted = extract_env_vars(&policy, &env_vars);
    assert!(extracted.is_empty());
}

#[test]
fn test_extract_network_permissions_with_allow() {
    let policy = test_policy();
    let network_perms = extract_network_perms(&policy);

    assert!(network_perms.allow_tcp);
    assert!(network_perms.allow_udp);
    assert!(network_perms.allow_ip_name_lookup);
}

#[test]
fn test_extract_network_permissions_no_permissions() {
    let policy = zero_permission_policy();
    let network_perms = extract_network_perms(&policy);

    assert!(!network_perms.allow_tcp);
    assert!(!network_perms.allow_udp);
    assert!(!network_perms.allow_ip_name_lookup);
}

#[test]
fn test_extract_network_permissions_empty_allow_list() {
    let mut policy = zero_permission_policy();
    policy.permissions.network = Some(NetworkPolicy { allow: Some(Vec::new()) });
    let network_perms = extract_network_perms(&policy);

    assert!(!network_perms.allow_tcp);
    assert!(!network_perms.allow_udp);
    assert!(!network_perms.allow_ip_name_lookup);
}

#[test]
fn test_extract_storage_permissions() {
    let plugin_dir = "/plugins";
    let policy = test_policy();
    let preopened_dirs = extract_storage_permissions(&policy, plugin_dir);

    assert_eq!(preopened_dirs.len(), 3);

    let read_only = &preopened_dirs[0];
    assert_eq!(read_only.guest_path, "test/path");
    assert_eq!(read_only.host_path, "/plugins/test/path");
    assert_eq!(read_only.file_perms, FilePerms { read: true, write: false });
    assert_eq!(read_only.dir_perms, DirPerms { read: true, mutate: false });

    let write_only = &preopened_dirs[1];
    assert_eq!(write_only.guest_path, "write/path");
    assert_eq!(write_only.file_perms, FilePerms { read: false, write: true });
    assert_eq!(write_only.dir_perms, DirPerms { read: true, mutate: true });

    let read_write = &preopened_dirs[2];
    assert_eq!(read_write.guest_path, "readwrite/path");
    assert_eq!(read_write.file_perms, FilePerms { read: true, write: true });
    assert_eq!(read_write.dir_perms, DirPerms { read: true, mutate: true });
}

#[test]
fn test_extract_storage_permissions_skips_non_fs_uri() {
    let policy = test_policy();
    let preopened_dirs = extract_storage_permissions(&policy, "/plugins");

    for dir in &preopened_dirs {
        assert!(
            dir.guest_path.starts_with("test/")
                || dir.guest_path.starts_with("write/")
                || dir.guest_path.starts_with("readwrite/")
        );
    }
    assert_eq!(preopened_dirs.len(), 3);
}

#[test]
fn test_extract_storage_permissions_no_permissions() {
    let policy = zero_permission_policy();
    let preopened_dirs = extract_storage_permissions(&policy, "/plugins");
    assert!(preopened_dirs.is_empty());
}

#[test]
fn test_extract_storage_permissions_empty_allow_list() {
    let mut policy = zero_permission_policy();
    policy.permissions.storage = Some(StoragePolicy { allow: Some(Vec::new()) });
    let preopened_dirs = extract_storage_permissions(&policy, "/plugins");
    assert!(preopened_dirs.is_empty());
}

#[test]
fn test_extract_storage_permissions_duplicated_access_has_no_effect() {
    let mut policy = zero_permission_policy();
    policy.permissions.storage = Some(StoragePolicy {
        allow: Some(vec![StorageEntry {
            uri: "fs://duplicate/path".to_string(),
            access: vec![
                AccessType::Read,
                AccessType::Write,
                AccessType::Read,
                AccessType::Write,
            ],
        }]),
    });
    let preopened_dirs = extract_storage_permissions(&policy, "/plugins");

    assert_eq!(preopened_dirs.len(), 1);
    let dir = &preopened_dirs[0];
    assert_eq!(dir.file_perms, FilePerms { read: true, write: true });
    assert_eq!(dir.dir_perms, DirPerms { read: true, mutate: true });
}

#[test]
fn test_create_wasi_state_template_from_policy() {
    let policy = test_policy();
    let env_vars: Vec<(String, String)> = Vec::new();

    let template = create_wasi_state_template_from_policy(&policy, "/plugins", &env_vars).unwrap();

    assert!(template.network_perms.allow_tcp);
    assert!(template.network_perms.allow_udp);
    assert!(template.network_perms.allow_ip_name_lookup);
    assert_eq!(template.preopened_dirs.len(), 3);
}

#[test]
fn test_create_wasi_state_template_from_policy_no_permissions() {
    let policy = zero_permission_policy();
    let env_vars: Vec<(String, String)> = Vec::new();

    let template = create_wasi_state_template_from_policy(&policy, "/plugins", &env_vars).unwrap();

    assert!(!template.network_perms.allow_tcp);
    assert!(!template.network_perms.allow_udp);
    assert!(!template.network_perms.allow_ip_name_lookup);
    assert!(template.config_vars.is_empty());
    assert!(template.preopened_dirs.is_empty());
    assert!(template.allow_stdout);
    assert!(template.allow_stderr);
    assert!(template.allow_args);
    assert_eq!(template.memory_limit, None);
}

#[test]
fn test_extract_memory_limit() {
    let mut policy = zero_permission_policy();
    policy.permissions.resources = Some(ResourcePolicy {
        limits: Some(ResourceLimits { memory: Some("512Mi".to_string()) }),
        memory: None,
    });
    assert_eq!(extract_memory_limit(&policy).unwrap(), Some(512 * 1024 * 1024));

    let mut legacy = zero_permission_policy();
    legacy.permissions.resources = Some(ResourcePolicy { limits: None, memory: Some(256) });
    assert_eq!(extract_memory_limit(&legacy).unwrap(), Some(256 * 1024 * 1024));

    let none = zero_permission_policy();
    assert_eq!(extract_memory_limit(&none).unwrap(), None);
}

#[test]
fn test_create_wasi_state_template_with_memory_limit() {
    let mut policy = zero_permission_policy();
    policy.permissions.resources = Some(ResourcePolicy {
        limits: Some(ResourceLimits { memory: Some("512Mi".to_string()) }),
        memory: None,
    });
    let env_vars: Vec<(String, String)> = Vec::new();
    let template = create_wasi_state_template_from_policy(&policy, "/plugins", &env_vars).unwrap();

    assert_eq!(template.memory_limit, Some(512 * 1024 * 1024));
}

#[test]
fn test_memory_resource_end_to_end() {
    let mut policy = zero_permission_policy();
    policy.permissions.resources = Some(ResourcePolicy {
        limits: Some(ResourceLimits { memory: Some("1Gi".to_string()) }),
        memory: None,
    });

    let memory_limit = extract_memory_limit(&policy).unwrap();
    assert_eq!(memory_limit, Some(1024 * 1024 * 1024));

    let env_vars: Vec<(String, String)> = Vec::new();
    let template = create_wasi_state_template_from_policy(&policy, "/plugins", &env_vars).unwrap();
    assert_eq!(template.memory_limit, Some(1024 * 1024 * 1024));

    // The growth gate enforces the ceiling the template carries.
    assert!(memory_grow_allowed(512 * 1024 * 1024, &template.memory_limit));
    assert!(!memory_grow_allowed(2 * 1024 * 1024 * 1024, &template.memory_limit));
}

#[test]
fn test_memory_ceiling_denies_growth_beyond_limit() {
    // A `1Mi` ceiling admits growth to exactly the ceiling and refuses one
    // byte more; the decision depends only on the template, so later,
    // smaller invocations still pass.
    let limit = parse_memory_size("1Mi");
    assert_eq!(limit, Some(1048576));
    assert!(memory_grow_allowed(1048576, &limit));
    assert!(!memory_grow_allowed(1048577, &limit));
    assert!(memory_grow_allowed(4096, &limit));
    assert!(memory_grow_allowed(u64::MAX, &None));
}

#[test]
fn test_parse_memory_size_forms() {
    assert_eq!(parse_memory_size("512Mi"), Some(512 * 1024 * 1024));
    assert_eq!(parse_memory_size("4Ki"), Some(4096));
    assert_eq!(parse_memory_size("2Gi"), Some(2 * 1024 * 1024 * 1024));
    assert_eq!(parse_memory_size("1000"), Some(1000));
    assert_eq!(parse_memory_size(""), None);
    assert_eq!(parse_memory_size("Mi"), None);
    assert_eq!(parse_memory_size("12x"), None);
    assert_eq!(parse_memory_size("1.5Gi"), None);
}

#[test]
fn test_policy_compiler_idempotent() {
    // Compiling the same inputs twice yields equal templates.
    let policy = test_policy();
    let env_vars = vec![("TEST_VAR".to_string(), "isolated_value".to_string())];
    let a = create_wasi_state_template_from_policy(&policy, "/plugins", &env_vars).unwrap();
    let b = create_wasi_state_template_from_policy(&policy, "/plugins", &env_vars).unwrap();

    assert_eq!(a.allow_stdout, b.allow_stdout);
    assert_eq!(a.network_perms, b.network_perms);
    assert_eq!(a.config_vars, b.config_vars);
    assert_eq!(a.allowed_hosts, b.allowed_hosts);
    assert_eq!(a.memory_limit, b.memory_limit);
    assert_eq!(a.preopened_dirs.len(), b.preopened_dirs.len());
    for (da, db) in a.preopened_dirs.iter().zip(b.preopened_dirs.iter()) {
        assert_eq!(da.host_path, db.host_path);
        assert_eq!(da.guest_path, db.guest_path);
        assert_eq!(da.dir_perms, db.dir_perms);
        assert_eq!(da.file_perms, db.file_perms);
    }
}

#[test]
fn test_deny_by_default_network() {
    // With an empty policy the fetch for any authority is denied and the
    // guest sees the denial marker; after granting the host the same
    // request passes.
    let empty = zero_permission_policy();
    let env_vars: Vec<(String, String)> = Vec::new();
    let template = create_wasi_state_template_from_policy(&empty, "/plugins", &env_vars).unwrap();

    let denied = check_http_request(&template, "api.example.com");
    assert!(denied.is_err());
    let body = http_denied_message("api.example.com");
    assert!(body.contains("HttpRequestDenied"));

    let granted = test_policy();
    let template2 =
        create_wasi_state_template_from_policy(&granted, "/plugins", &env_vars).unwrap();
    assert!(check_http_request(&template2, "api.example.com").is_ok());
}

#[test]
fn test_other_host_still_denied() {
    let granted = test_policy();
    let env_vars: Vec<(String, String)> = Vec::new();
    let template =
        create_wasi_state_template_from_policy(&granted, "/plugins", &env_vars).unwrap();
    assert!(check_http_request(&template, "api.example.com").is_ok());
    assert!(check_http_request(&template, "example.com").is_err());
    assert!(!host_allowed(&template.allowed_hosts, "evil.example.com"));
}

#[test]
fn test_extract_allowed_hosts_order() {
    let policy = test_policy();
    let hosts = extract_allowed_hosts(&policy);
    assert_eq!(hosts, vec!["api.example.com".to_string()]);
}

#[test]
fn test_secret_materialization_overrides_env() {
    // A secret under a projected name replaces the host value; a secret
    // under a fresh name is added; an untouched projection entry stays.
    let env = vec![
        ("API_KEY".to_string(), "from-host".to_string()),
        ("REGION".to_string(), "us-west-2".to_string()),
    ];
    let mut secrets = SecretMap::new();
    secrets.insert("API_KEY".to_string(), "v1".to_string());
    secrets.insert("TOKEN".to_string(), "t9".to_string());

    let merged = merge_secret_env(&env, &secrets);
    assert_eq!(merged.len(), 3);
    assert_eq!(merged[0], ("API_KEY".to_string(), "v1".to_string()));
    assert_eq!(merged[1], ("REGION".to_string(), "us-west-2".to_string()));
    assert_eq!(merged[2], ("TOKEN".to_string(), "t9".to_string()));
}
