use wassette::dispatch::{
    autoload_plan, classify_builtin, list_tools, outcome_to_response, screen_tool_call,
    sort_tool_names, AutoloadMode, BuiltinTool, GuestOutcome, Route,
};
use wassette::errors::ErrorKind;
use wassette::json::JsonValue;
use wassette::registry::{ComponentEntry, Registry, ToolDescriptor};
use wassette::security::{RateLimiter, ValidationConfig};

fn tool(name: &str) -> ToolDescriptor {
    ToolDescriptor {
        name: name.to_string(),
        description: format!("{} tool", name),
        input_schema: JsonValue::Null,
        output_schema: JsonValue::Null,
    }
}

fn entry(handle: u64, tools: Vec<ToolDescriptor>) -> ComponentEntry {
    ComponentEntry {
        digest: vec![handle as u8],
        module_handle: handle,
        schema: tools,
        policy: None,
    }
}

#[test]
fn test_tool_name_conflict() {
    // Two components both export `convert`: the first load succeeds, the
    // second fails atomically and the tool list is unchanged.
    let mut registry = Registry::new();
    assert!(registry
        .load_commit("first".to_string(), entry(1, vec![tool("convert")]))
        .is_ok());
    let before = registry.tool_names();

    let result = registry.load_commit("second".to_string(), entry(2, vec![tool("convert")]));
    assert_eq!(result, Err(ErrorKind::ToolNameConflict));

    let after = registry.tool_names();
    assert_eq!(before, after);
    assert_eq!(after, vec!["convert".to_string()]);
    assert!(!registry.contains("second"));
}

#[test]
fn test_reload_same_component_replaces() {
    let mut registry = Registry::new();
    assert!(registry
        .load_commit("c".to_string(), entry(1, vec![tool("convert")]))
        .is_ok());
    // The same id may re-register its own tool names.
    assert!(registry
        .load_commit("c".to_string(), entry(2, vec![tool("convert"), tool("render")]))
        .is_ok());
    let names = registry.tool_names();
    assert_eq!(names, vec!["convert".to_string(), "render".to_string()]);
}

#[test]
fn test_unload_removes_all_tools() {
    // After unload, nothing the component owned is listed or resolvable.
    let mut registry = Registry::new();
    registry
        .load_commit("a".to_string(), entry(1, vec![tool("alpha"), tool("beta")]))
        .unwrap();
    registry
        .load_commit("b".to_string(), entry(2, vec![tool("gamma")]))
        .unwrap();

    registry.unload("a").unwrap();
    assert!(!registry.contains("a"));
    let names = registry.tool_names();
    assert_eq!(names, vec!["gamma".to_string()]);
    assert!(registry.lookup_tool("alpha").is_err());
    assert!(registry.lookup_tool("beta").is_err());
    assert_eq!(registry.lookup_tool("gamma").unwrap(), "b".to_string());
}

#[test]
fn test_unload_unknown_component() {
    let mut registry = Registry::new();
    assert_eq!(registry.unload("ghost"), Err(ErrorKind::NotFound));
}

#[test]
fn test_duplicate_name_within_schema_rejected() {
    let mut registry = Registry::new();
    let result =
        registry.load_commit("c".to_string(), entry(1, vec![tool("dup"), tool("dup")]));
    assert_eq!(result, Err(ErrorKind::ToolNameConflict));
    assert!(!registry.contains("c"));
}

#[test]
fn test_builtin_named_tool_rejected() {
    // A component may not claim a built-in admin tool's name: routing
    // would shadow the component tool forever.
    let mut registry = Registry::new();
    let result =
        registry.load_commit("c".to_string(), entry(1, vec![tool("load-component")]));
    assert_eq!(result, Err(ErrorKind::ToolNameConflict));
    assert!(!registry.contains("c"));
}

#[test]
fn test_lookup_tool_owner() {
    let mut registry = Registry::new();
    registry
        .load_commit("files".to_string(), entry(1, vec![tool("list"), tool("stat")]))
        .unwrap();
    assert_eq!(registry.lookup_tool("stat").unwrap(), "files".to_string());
    assert_eq!(registry.lookup_tool("missing"), Err(ErrorKind::NotFound));
}

#[test]
fn test_list_components_order() {
    let mut registry = Registry::new();
    registry.load_commit("one".to_string(), entry(1, vec![])).unwrap();
    registry.load_commit("two".to_string(), entry(2, vec![])).unwrap();
    assert_eq!(registry.list_components(), vec!["one".to_string(), "two".to_string()]);
}

#[test]
fn test_autoload_modes() {
    let files = vec![
        "alpha.wasm".to_string(),
        "notes.txt".to_string(),
        "beta.wasm".to_string(),
    ];

    let eager = autoload_plan(AutoloadMode::Eager, &files);
    assert_eq!(eager.immediate, vec!["alpha.wasm".to_string(), "beta.wasm".to_string()]);
    assert!(eager.background.is_empty());

    let lazy = autoload_plan(AutoloadMode::Lazy, &files);
    assert!(lazy.immediate.is_empty());
    assert_eq!(lazy.background, vec!["alpha.wasm".to_string(), "beta.wasm".to_string()]);

    let off = autoload_plan(AutoloadMode::Off, &files);
    assert!(off.immediate.is_empty());
    assert!(off.background.is_empty());
}

#[test]
fn test_classify_builtin_names() {
    assert_eq!(classify_builtin("load-component"), Some(BuiltinTool::LoadComponent));
    assert_eq!(classify_builtin("unload-component"), Some(BuiltinTool::UnloadComponent));
    assert_eq!(classify_builtin("list-components"), Some(BuiltinTool::ListComponents));
    assert_eq!(classify_builtin("get-policy"), Some(BuiltinTool::GetPolicy));
    assert_eq!(classify_builtin("grant-permission"), Some(BuiltinTool::GrantPermission));
    assert_eq!(classify_builtin("revoke-permission"), Some(BuiltinTool::RevokePermission));
    assert_eq!(classify_builtin("set-secret"), Some(BuiltinTool::SetSecret));
    assert_eq!(classify_builtin("delete-secret"), Some(BuiltinTool::DeleteSecret));
    assert_eq!(classify_builtin("fetch"), None);
}

#[test]
fn test_screen_tool_call_routes() {
    let config = ValidationConfig::default();
    let mut limiter = RateLimiter::new(10);
    let args = JsonValue::Obj(Vec::new());

    let route = screen_tool_call("list-components", &args, &config, &mut limiter, "cli");
    assert_eq!(route, Ok(Route::Builtin(BuiltinTool::ListComponents)));

    let route = screen_tool_call("fetch", &args, &config, &mut limiter, "cli");
    assert_eq!(route, Ok(Route::Component));
}

#[test]
fn test_screen_tool_call_rejects_bad_name() {
    let config = ValidationConfig::default();
    let mut limiter = RateLimiter::new(10);
    let args = JsonValue::Null;
    let r = screen_tool_call("../escape", &args, &config, &mut limiter, "cli");
    assert_eq!(r, Err(ErrorKind::InvalidInput));
    // A rejected call consumes no token.
    assert_eq!(limiter.remaining_tokens("cli").unwrap(), 10);
}

#[test]
fn test_screen_tool_call_rate_limits() {
    let config = ValidationConfig::default();
    let mut limiter = RateLimiter::new(2);
    let args = JsonValue::Null;
    assert!(screen_tool_call("fetch", &args, &config, &mut limiter, "c").is_ok());
    assert!(screen_tool_call("fetch", &args, &config, &mut limiter, "c").is_ok());
    let r = screen_tool_call("fetch", &args, &config, &mut limiter, "c");
    assert_eq!(r, Err(ErrorKind::RateLimited));
}

#[test]
fn test_outcome_translation() {
    let ok = outcome_to_response(&GuestOutcome::Success("body".to_string())).unwrap();
    match ok {
        JsonValue::Obj(fields) => {
            assert_eq!(fields.len(), 1);
            assert_eq!(fields[0].0, "ok");
        }
        _ => panic!("expected an object"),
    }

    let guest_err = outcome_to_response(&GuestOutcome::GuestError("oops".to_string())).unwrap();
    match guest_err {
        JsonValue::Obj(fields) => {
            assert_eq!(fields.len(), 1);
            assert_eq!(fields[0].0, "error");
        }
        _ => panic!("expected an object"),
    }

    let trap = outcome_to_response(&GuestOutcome::Trap("oom".to_string()));
    assert!(matches!(trap, Err(ErrorKind::ExecutionFailure)));
}

#[test]
fn test_get_policy_roundtrip() {
    let mut registry = Registry::new();
    let mut e = entry(1, vec![tool("convert")]);
    e.policy = Some(wassette::policy::PolicyDocument::empty());
    registry.load_commit("c".to_string(), e).unwrap();
    let p = registry.get_policy("c").unwrap();
    assert!(p.is_some());
    assert_eq!(p.unwrap().version, "1.0");
    assert!(matches!(registry.get_policy("nope"), Err(ErrorKind::NotFound)));
}

#[test]
fn test_list_tools_sorted_and_stable() {
    // The listing holds the built-in admin tools plus every component
    // tool, sorted by name; identical registry state lists identically.
    let mut registry = Registry::new();
    registry
        .load_commit("conv".to_string(), entry(1, vec![tool("convert"), tool("fetch")]))
        .unwrap();

    let listed = list_tools(&registry);
    let expected = vec![
        "convert".to_string(),
        "delete-secret".to_string(),
        "fetch".to_string(),
        "get-policy".to_string(),
        "grant-permission".to_string(),
        "list-components".to_string(),
        "load-component".to_string(),
        "revoke-permission".to_string(),
        "set-secret".to_string(),
        "unload-component".to_string(),
    ];
    assert_eq!(listed, expected);
    assert_eq!(list_tools(&registry), expected);
}

#[test]
fn test_sort_tool_names_orders_lexicographically() {
    let sorted = sort_tool_names(vec![
        "zeta".to_string(),
        "alpha".to_string(),
        "beta".to_string(),
        "alpha".to_string(),
    ]);
    assert_eq!(
        sorted,
        vec![
            "alpha".to_string(),
            "alpha".to_string(),
            "beta".to_string(),
            "zeta".to_string(),
        ]
    );
}
