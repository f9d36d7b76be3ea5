use wassette::errors::ErrorKind;
use wassette::json::JsonValue;
use wassette::security::{
    sanitize_tool_output, validate_tool_input, validate_tool_name, RateLimiter, ValidationConfig,
};

#[test]
fn test_rate_limiter() {
    let mut limiter = RateLimiter::new(10);

    // Should allow initial requests
    assert!(limiter.allow_request("user1", 1).unwrap());
    assert!(limiter.allow_request("user1", 5).unwrap());
    assert!(limiter.allow_request("user1", 4).unwrap());

    // Should deny when limit exceeded
    assert!(!limiter.allow_request("user1", 1).unwrap());

    // Different user should have separate limit
    assert!(limiter.allow_request("user2", 5).unwrap());
}

#[test]
fn test_output_sanitization() {
    let output = "Hello\0World\x01Test\nNewline\tTab";
    let sanitized = sanitize_tool_output(output).unwrap();

    assert_eq!(sanitized, "HelloWorldTest\nNewline\tTab");
}

#[test]
fn test_tool_name_validation() {
    assert!(validate_tool_name("valid-tool_name.ext").is_ok());
    assert!(validate_tool_name("../invalid").is_err());
    assert!(validate_tool_name("/invalid").is_err());
    assert!(validate_tool_name("invalid<script>").is_err());
    assert!(validate_tool_name("").is_err());
}

#[test]
fn test_input_validation_valid() {
    let config = ValidationConfig::default();
    let input = JsonValue::Obj(vec![
        ("key".to_string(), JsonValue::Str("value".to_string())),
        ("number".to_string(), JsonValue::Num("42".to_string())),
    ]);

    assert!(validate_tool_input(&input, &config).is_ok());
}

#[test]
fn test_input_validation_too_deep() {
    let config = ValidationConfig {
        max_depth: 2,
        ..ValidationConfig::default()
    };

    let input = JsonValue::Obj(vec![(
        "a".to_string(),
        JsonValue::Obj(vec![(
            "b".to_string(),
            JsonValue::Obj(vec![(
                "c".to_string(),
                JsonValue::Obj(vec![(
                    "d".to_string(),
                    JsonValue::Str("too deep".to_string()),
                )]),
            )]),
        )]),
    )]);

    assert!(validate_tool_input(&input, &config).is_err());
}

#[test]
fn test_input_validation_dangerous_pattern() {
    let config = ValidationConfig::default();
    let input = JsonValue::Obj(vec![(
        "script".to_string(),
        JsonValue::Str("<script>alert('xss')</script>".to_string()),
    )]);

    assert!(validate_tool_input(&input, &config).is_err());
}

#[test]
fn test_collection_size_limits() {
    let config = ValidationConfig {
        max_collection_size: 2,
        ..ValidationConfig::default()
    };

    let large_array = JsonValue::Arr(vec![
        JsonValue::Num("1".to_string()),
        JsonValue::Num("2".to_string()),
        JsonValue::Num("3".to_string()),
    ]);
    assert!(validate_tool_input(&large_array, &config).is_err());

    let large_object = JsonValue::Obj(vec![
        ("a".to_string(), JsonValue::Num("1".to_string())),
        ("b".to_string(), JsonValue::Num("2".to_string())),
        ("c".to_string(), JsonValue::Num("3".to_string())),
    ]);
    assert!(validate_tool_input(&large_object, &config).is_err());
}

#[test]
fn test_input_size_boundary() {
    // A string of n plain characters serializes to n + 2 bytes.
    let config = ValidationConfig::default();
    let exactly = JsonValue::Str("a".repeat(1048574));
    assert!(validate_tool_input(&exactly, &config).is_ok());

    let one_over = JsonValue::Str("a".repeat(1048575));
    assert!(validate_tool_input(&one_over, &config).is_err());
}

#[test]
fn test_depth_boundary() {
    let config = ValidationConfig::default();
    let mut exactly = JsonValue::Str("x".to_string());
    for _ in 0..32 {
        exactly = JsonValue::Arr(vec![exactly]);
    }
    assert!(validate_tool_input(&exactly, &config).is_ok());

    let one_over = JsonValue::Arr(vec![exactly]);
    assert!(validate_tool_input(&one_over, &config).is_err());
}

#[test]
fn test_tool_name_path_traversal_rejected() {
    assert!(validate_tool_name("..").is_err());
    assert!(validate_tool_name("a..b").is_err());
    assert!(validate_tool_name(".hidden").is_err());
    assert!(validate_tool_name("tool with spaces").is_err());
    assert!(validate_tool_name("tool\0null").is_err());
    assert!(validate_tool_name("load-component").is_ok());
    assert!(validate_tool_name("my_tool.v1").is_ok());
}

#[test]
fn test_token_bucket_capacity_boundary() {
    // A bucket of capacity five admits exactly five single-token requests.
    let mut limiter = RateLimiter::new(5);
    for _ in 0..5 {
        assert!(limiter.allow_request("client", 1).unwrap());
    }
    assert!(!limiter.allow_request("client", 1).unwrap());
}

#[test]
fn test_rate_limiter_default_limit() {
    let mut limiter = RateLimiter::default();
    assert_eq!(limiter.remaining_tokens("someone").unwrap(), 100);
}

#[test]
fn test_remaining_tokens_reporting() {
    let mut limiter = RateLimiter::new(10);
    assert_eq!(limiter.remaining_tokens("fresh").unwrap(), 10);
    assert!(limiter.allow_request("fresh", 4).unwrap());
    assert_eq!(limiter.remaining_tokens("fresh").unwrap(), 6);
}

#[test]
fn test_error_discriminants() {
    assert_eq!(ErrorKind::InvalidInput.discriminant(), "InvalidInput");
    assert_eq!(ErrorKind::RateLimited.discriminant(), "RateLimited");
    assert_eq!(ErrorKind::NotFound.discriminant(), "NotFound");
    assert_eq!(ErrorKind::ToolNameConflict.discriminant(), "ToolNameConflict");
    assert_eq!(ErrorKind::PolicyViolation.discriminant(), "PolicyViolation");
    assert_eq!(ErrorKind::ExecutionFailure.discriminant(), "ExecutionFailure");
    assert_eq!(ErrorKind::RuntimeError.discriminant(), "RuntimeError");
    assert_eq!(ErrorKind::IoError.discriminant(), "IoError");
    assert_eq!(ErrorKind::SignatureError.discriminant(), "SignatureError");
}

#[test]
fn test_nul_rejected_in_every_mode() {
    // NUL-bearing strings are invalid input whether or not the strict
    // injection screen is on.
    let permissive = ValidationConfig {
        strict_mode: false,
        ..ValidationConfig::default()
    };
    let nul_value = JsonValue::Obj(vec![(
        "data".to_string(),
        JsonValue::Str("a\0b".to_string()),
    )]);
    assert!(validate_tool_input(&nul_value, &permissive).is_err());
    let nul_key = JsonValue::Obj(vec![("k\0ey".to_string(), JsonValue::Null)]);
    assert!(validate_tool_input(&nul_key, &permissive).is_err());

    let strict = ValidationConfig::default();
    assert!(validate_tool_input(&nul_value, &strict).is_err());
}

#[test]
fn test_refill_is_proportional_per_minute() {
    // The default bucket regains its limit over a minute: after 600 ms a
    // drained 100-token bucket has regained exactly one token.
    let mut limiter = RateLimiter::new(100);
    assert!(limiter.allow_request("client", 100).unwrap());
    assert_eq!(limiter.remaining_tokens("client").unwrap(), 0);
    limiter.advance_clock(599);
    assert_eq!(limiter.remaining_tokens("client").unwrap(), 0);
    limiter.advance_clock(1);
    assert_eq!(limiter.remaining_tokens("client").unwrap(), 1);
}

#[test]
fn test_strict_mode_vs_permissive() {
    let strict = ValidationConfig::default();
    let permissive = ValidationConfig {
        strict_mode: false,
        ..ValidationConfig::default()
    };
    let suspicious = JsonValue::Obj(vec![(
        "script".to_string(),
        JsonValue::Str("eval('some code')".to_string()),
    )]);
    assert!(validate_tool_input(&suspicious, &strict).is_err());
    assert!(validate_tool_input(&suspicious, &permissive).is_ok());

    let proto = JsonValue::Obj(vec![(
        "proto".to_string(),
        JsonValue::Str("__proto__".to_string()),
    )]);
    assert!(validate_tool_input(&proto, &strict).is_err());
    assert!(validate_tool_input(&proto, &permissive).is_ok());
}
