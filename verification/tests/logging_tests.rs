use wassette::json::JsonValue;
use wassette::logging::{
    build_log_payload, component_event_payload, component_loading, error_details,
    execution_performance, security_event_payload, security_violation, tool_execution_event,
    u64_to_string, LogLevel,
};

fn expect_str<'a>(v: &'a JsonValue, key: &str) -> &'a str {
    v.get(key)
        .and_then(|f| f.as_str())
        .map(|s| s.as_str())
        .expect("expected a string field")
}

fn expect_num<'a>(v: &'a JsonValue, key: &str) -> &'a str {
    v.get(key)
        .and_then(|f| f.as_num())
        .map(|s| s.as_str())
        .expect("expected a numeric field")
}

#[test]
fn test_data_helpers() {
    let loading_data = component_loading("/path/to/component.wasm", Some(1024));
    assert_eq!(expect_str(&loading_data, "component_path"), "/path/to/component.wasm");
    assert_eq!(expect_num(&loading_data, "file_size_bytes"), "1024");

    let error_data = error_details("RuntimeError", "Division by zero", false);
    assert_eq!(expect_str(&error_data, "error_type"), "RuntimeError");
    assert_eq!(error_data.get("recoverable").and_then(|f| f.as_bool()), Some(false));

    let security_data =
        security_violation("file_access", "/etc/passwd", "filesystem_access_denied");
    assert_eq!(expect_str(&security_data, "attempted_operation"), "file_access");
    assert_eq!(expect_str(&security_data, "policy_violation"), "filesystem_access_denied");
}

#[test]
fn test_data_helpers_comprehensive() {
    let perf = execution_performance(Some(2048), Some(150), Some(1024));
    assert_eq!(expect_num(&perf, "memory_usage_bytes"), "2048");
    assert_eq!(expect_num(&perf, "cpu_time_ms"), "150");
    assert_eq!(expect_num(&perf, "peak_memory_bytes"), "1024");

    let partial = execution_performance(None, Some(100), None);
    assert!(partial.get("memory_usage_bytes").is_none());
    assert_eq!(expect_num(&partial, "cpu_time_ms"), "100");
    assert!(partial.get("peak_memory_bytes").is_none());

    let error_data = error_details("ValidationError", "Invalid input", true);
    assert_eq!(expect_str(&error_data, "error_type"), "ValidationError");
    assert_eq!(expect_str(&error_data, "error_message"), "Invalid input");
    assert_eq!(error_data.get("recoverable").and_then(|f| f.as_bool()), Some(true));

    let security_data = security_violation(
        "network_access",
        "https://evil.com",
        "unauthorized_network_access",
    );
    assert_eq!(expect_str(&security_data, "attempted_operation"), "network_access");
    assert_eq!(expect_str(&security_data, "requested_resource"), "https://evil.com");
    assert_eq!(expect_str(&security_data, "policy_violation"), "unauthorized_network_access");
}

#[test]
fn test_logging_level_serialization() {
    let names: Vec<&str> = vec![
        LogLevel::Debug.name(),
        LogLevel::Info.name(),
        LogLevel::Notice.name(),
        LogLevel::Warning.name(),
        LogLevel::Error.name(),
        LogLevel::Critical.name(),
        LogLevel::Alert.name(),
        LogLevel::Emergency.name(),
    ];
    assert_eq!(
        names,
        vec!["debug", "info", "notice", "warning", "error", "critical", "alert", "emergency"]
    );
}

#[test]
fn test_logging_message_structure() {
    let data = JsonValue::Obj(vec![(
        "component_id".to_string(),
        JsonValue::Str("test-component".to_string()),
    )]);
    let payload = build_log_payload("Test message", "2025-01-15T10:30:00Z", data);
    assert_eq!(expect_str(&payload, "message"), "Test message");
    assert_eq!(expect_str(&payload, "timestamp"), "2025-01-15T10:30:00Z");
    assert_eq!(expect_str(&payload, "component_id"), "test-component");
}

#[test]
fn test_log_payload_wraps_non_object_data() {
    let payload = build_log_payload("note", "2025-01-15T10:30:00Z", JsonValue::Bool(true));
    assert_eq!(expect_str(&payload, "message"), "note");
    assert_eq!(
        payload.get("original_data").and_then(|f| f.as_bool()),
        Some(true)
    );
}

#[test]
fn test_u64_rendering() {
    assert_eq!(u64_to_string(0), "0");
    assert_eq!(u64_to_string(7), "7");
    assert_eq!(u64_to_string(1024), "1024");
    assert_eq!(u64_to_string(u64::MAX), "18446744073709551615");
}

#[test]
fn test_tool_execution_event_shape() {
    let (level, message, data) =
        tool_execution_event("convert", "demo", 150, true, None);
    assert_eq!(level, LogLevel::Info);
    assert_eq!(message, "Tool execution completed: convert");
    assert_eq!(expect_str(&data, "tool_name"), "convert");
    assert_eq!(expect_str(&data, "component_id"), "demo");
    assert_eq!(expect_num(&data, "execution_time_ms"), "150");
    assert_eq!(data.get("success").and_then(|f| f.as_bool()), Some(true));
    assert!(data.get("error").is_none());

    let oops = "boom".to_string();
    let (level, message, data) =
        tool_execution_event("convert", "demo", 9, false, Some(&oops));
    assert_eq!(level, LogLevel::Error);
    assert_eq!(message, "Tool execution failed: convert");
    assert_eq!(data.get("success").and_then(|f| f.as_bool()), Some(false));
    assert_eq!(expect_str(&data, "error"), "boom");
}

#[test]
fn test_component_and_security_event_payloads() {
    let extra = JsonValue::Obj(vec![(
        "component_path".to_string(),
        JsonValue::Str("/components/example.wasm".to_string()),
    )]);
    let event = component_event_payload("loaded", "example-component", extra);
    assert_eq!(expect_str(&event, "event"), "loaded");
    assert_eq!(expect_str(&event, "component_id"), "example-component");
    assert_eq!(expect_str(&event, "component_path"), "/components/example.wasm");

    let details = JsonValue::Obj(vec![(
        "host".to_string(),
        JsonValue::Str("api.example.com".to_string()),
    )]);
    let sec = security_event_payload("network_denied", "demo", details);
    assert_eq!(expect_str(&sec, "event_type"), "network_denied");
    assert_eq!(expect_str(&sec, "component_id"), "demo");
    assert_eq!(expect_str(&sec, "host"), "api.example.com");
}
