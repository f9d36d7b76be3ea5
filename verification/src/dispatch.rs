//! The tool dispatcher's routing and screening logic.
//!
//! Every call passes the same gates in the same order — tool-name grammar,
//! argument hygiene, rate limit — and is then routed to a built-in admin
//! tool or to the owning component. Guest outcomes are translated into the
//! wire response shape here as well.

use vstd::multiset::Multiset;
use vstd::prelude::*;

use crate::errors::ErrorKind;
use crate::json::JsonValue;
use crate::security::{
    json_arguments_ok, spec_try_consume, valid_tool_name, validate_tool_input, validate_tool_name,
    RateLimitBucket, RateLimiter, ValidationConfig,
};
use crate::text::{
    lemma_str_le_antisym, lemma_str_le_total, lemma_str_le_trans, str_le, str_le_exec,
    str_to_chars,
};

verus! {

/// The fixed built-in admin tools.
#[derive(Clone, Copy, PartialEq, Eq, Structural, Debug)]
pub enum BuiltinTool {
    /// Load a component from a source URI.
    LoadComponent,
    /// Unload a component.
    UnloadComponent,
    /// List loaded components and their tools.
    ListComponents,
    /// Return a component's attached policy.
    GetPolicy,
    /// Grant a permission to a component.
    GrantPermission,
    /// Revoke a permission from a component.
    RevokePermission,
    /// Set a secret for a component.
    SetSecret,
    /// Delete a secret of a component.
    DeleteSecret,
}

/// The built-in tool a name denotes, if any.
pub open spec fn spec_builtin(s: Seq<char>) -> Option<BuiltinTool> {
    if s == "load-component"@ {
        Some(BuiltinTool::LoadComponent)
    } else if s == "unload-component"@ {
        Some(BuiltinTool::UnloadComponent)
    } else if s == "list-components"@ {
        Some(BuiltinTool::ListComponents)
    } else if s == "get-policy"@ {
        Some(BuiltinTool::GetPolicy)
    } else if s == "grant-permission"@ {
        Some(BuiltinTool::GrantPermission)
    } else if s == "revoke-permission"@ {
        Some(BuiltinTool::RevokePermission)
    } else if s == "set-secret"@ {
        Some(BuiltinTool::SetSecret)
    } else if s == "delete-secret"@ {
        Some(BuiltinTool::DeleteSecret)
    } else {
        None
    }
}

/// Classifies a tool name as a built-in admin tool, or not.
pub fn classify_builtin(name: &str) -> (r: Option<BuiltinTool>)
    ensures
        r == spec_builtin(name@),
{
    let owned = name.to_owned();
    if owned == "load-component".to_owned() {
        Some(BuiltinTool::LoadComponent)
    } else if owned == "unload-component".to_owned() {
        Some(BuiltinTool::UnloadComponent)
    } else if owned == "list-components".to_owned() {
        Some(BuiltinTool::ListComponents)
    } else if owned == "get-policy".to_owned() {
        Some(BuiltinTool::GetPolicy)
    } else if owned == "grant-permission".to_owned() {
        Some(BuiltinTool::GrantPermission)
    } else if owned == "revoke-permission".to_owned() {
        Some(BuiltinTool::RevokePermission)
    } else if owned == "set-secret".to_owned() {
        Some(BuiltinTool::SetSecret)
    } else if owned == "delete-secret".to_owned() {
        Some(BuiltinTool::DeleteSecret)
    } else {
        None
    }
}

/// Where a screened call goes.
#[derive(Clone, Copy, PartialEq, Eq, Structural, Debug)]
pub enum Route {
    /// A built-in admin tool executed by the host.
    Builtin(BuiltinTool),
    /// A component-exported tool resolved through the registry.
    Component,
}

/// Screens one tool call and decides its route.
///
/// The gates run in a fixed order: an invalid name or invalid arguments are
/// [`ErrorKind::InvalidInput`] and leave the rate limiter untouched; then
/// one token is taken for the client, and an empty bucket is
/// [`ErrorKind::RateLimited`]; what passes is routed to a built-in tool or
/// to the component path.
pub fn screen_tool_call(
    name: &str,
    args: &JsonValue,
    config: &ValidationConfig,
    limiter: &mut RateLimiter,
    client: &str,
) -> (r: Result<Route, ErrorKind>)
    requires
        old(limiter).wf(),
        config.max_input_size < usize::MAX,
    ensures
        final(limiter).wf(),
        !valid_tool_name(name@) ==> r == Err::<Route, ErrorKind>(ErrorKind::InvalidInput)
            && *final(limiter) == *old(limiter),
        valid_tool_name(name@) && !json_arguments_ok(*args, *config) ==> r == Err::<
            Route,
            ErrorKind,
        >(ErrorKind::InvalidInput) && *final(limiter) == *old(limiter),
        valid_tool_name(name@) && json_arguments_ok(*args, *config) ==> ({
            let start = match old(limiter).bucket_of(client@) {
                Some(b) => b,
                None => RateLimitBucket {
                    tokens: old(limiter).default_limit,
                    last_refill_ms: old(limiter).clock_ms,
                    max_tokens: old(limiter).default_limit,
                    refill_rate: old(limiter).refill_rate,
                },
            };
            let (ok, after) = spec_try_consume(start, 1, old(limiter).clock_ms);
            &&& final(limiter).bucket_of(client@) == Some(after)
            &&& ok ==> r == Ok::<Route, ErrorKind>(
                match spec_builtin(name@) {
                    Some(b) => Route::Builtin(b),
                    None => Route::Component,
                },
            )
            &&& !ok ==> r == Err::<Route, ErrorKind>(ErrorKind::RateLimited)
        }),
{
    if validate_tool_name(name).is_err() {
        return Err(ErrorKind::InvalidInput);
    }
    if validate_tool_input(args, config).is_err() {
        return Err(ErrorKind::InvalidInput);
    }
    let admitted = match limiter.allow_request(client, 1) {
        Ok(b) => b,
        Err(_) => false,
    };
    if !admitted {
        return Err(ErrorKind::RateLimited);
    }
    match classify_builtin(name) {
        Some(b) => Ok(Route::Builtin(b)),
        None => Ok(Route::Component),
    }
}

/// What one guest invocation came back with, as the embedding process
/// reports it.
pub enum GuestOutcome {
    /// The exported function returned a value, rendered as text.
    Success(String),
    /// The exported function returned an explicit error.
    GuestError(String),
    /// The guest trapped or the runtime refused the invocation.
    Trap(String),
}

/// Translates a guest outcome into the wire response shape: a returned
/// value becomes `{ok: ...}`, a guest-returned error `{error: ...}`, and a
/// trap is an [`ErrorKind::ExecutionFailure`] that fails the single call.
pub fn outcome_to_response(outcome: &GuestOutcome) -> (r: Result<JsonValue, ErrorKind>)
    ensures
        match *outcome {
            GuestOutcome::Success(s) => r matches Ok(v) && (v matches JsonValue::Obj(fields) && ({
                &&& fields@.len() == 1
                &&& fields@[0].0@ == "ok"@
                &&& fields@[0].1 matches JsonValue::Str(body) && body@ == s@
            })),
            GuestOutcome::GuestError(s) => r matches Ok(v) && (v matches JsonValue::Obj(fields)
                && ({
                &&& fields@.len() == 1
                &&& fields@[0].0@ == "error"@
                &&& fields@[0].1 matches JsonValue::Str(body) && body@ == s@
            })),
            GuestOutcome::Trap(_) => r == Err::<JsonValue, ErrorKind>(ErrorKind::ExecutionFailure),
        },
{
    match outcome {
        GuestOutcome::Success(s) => {
            let mut fields: Vec<(String, JsonValue)> = Vec::new();
            fields.push(("ok".to_owned(), JsonValue::Str(s.clone())));
            Ok(JsonValue::Obj(fields))
        },
        GuestOutcome::GuestError(s) => {
            let mut fields: Vec<(String, JsonValue)> = Vec::new();
            fields.push(("error".to_owned(), JsonValue::Str(s.clone())));
            Ok(JsonValue::Obj(fields))
        },
        GuestOutcome::Trap(_) => Err(ErrorKind::ExecutionFailure),
    }
}

/// How components found in the plugin directory are loaded at startup.
#[derive(Clone, Copy, PartialEq, Eq, Structural, Debug)]
pub enum AutoloadMode {
    /// Load every component before construction returns.
    Eager,
    /// Return at once and load in the background.
    Lazy,
    /// Load nothing; components appear only via explicit loads.
    Off,
}

/// The startup work an autoload mode implies.
pub struct LoadPlan {
    /// Artifacts to load before construction returns.
    pub immediate: Vec<String>,
    /// Artifacts a background task loads after construction returns.
    pub background: Vec<String>,
}

/// A component artifact file name: anything ending in `.wasm`.
pub open spec fn is_wasm_file(s: Seq<char>) -> bool {
    s.len() >= 5 && s.subrange(s.len() - 5, s.len() as int) == ".wasm"@
}

/// The artifact files among `files`, in order.
pub open spec fn wasm_files(files: Seq<Seq<char>>) -> Seq<Seq<char>>
    decreases files,
{
    if files.len() == 0 {
        Seq::empty()
    } else {
        let rest = wasm_files(files.drop_last());
        if is_wasm_file(files.last()) {
            rest.push(files.last())
        } else {
            rest
        }
    }
}

/// Whether a file name ends in `.wasm`.
fn check_wasm_file(name: &String) -> (r: bool)
    ensures
        r == is_wasm_file(name@),
{
    proof {
        reveal_strlit(".wasm");
    }
    let chars = str_to_chars(name.as_str());
    let n = chars.len();
    if n < 5 {
        return false;
    }
    let r = chars[n - 5] == '.' && chars[n - 4] == 'w' && chars[n - 3] == 'a' && chars[n - 2] == 's'
        && chars[n - 1] == 'm';
    proof {
        let tail = name@.subrange(name@.len() - 5, name@.len() as int);
        assert(tail[0] == name@[name@.len() - 5]);
        assert(tail[1] == name@[name@.len() - 4]);
        assert(tail[2] == name@[name@.len() - 3]);
        assert(tail[3] == name@[name@.len() - 2]);
        assert(tail[4] == name@[name@.len() - 1]);
        if r {
            assert(tail =~= ".wasm"@);
        } else {
            if tail == ".wasm"@ {
                assert(false);
            }
        }
    }
    r
}

/// Plans the startup loading for an autoload mode over the plugin
/// directory's files.
///
/// Eager puts every artifact in the immediate batch, so construction
/// returns only after they are processed; Lazy defers them all to the
/// background batch; Off loads nothing. Non-artifact files are never
/// loaded.
#[verifier::loop_isolation(false)]
pub fn autoload_plan(mode: AutoloadMode, files: &Vec<String>) -> (r: LoadPlan)
    ensures
        mode == AutoloadMode::Eager ==> r.immediate@.map_values(|s: String| s@) == wasm_files(
            files@.map_values(|s: String| s@),
        ) && r.background@.len() == 0,
        mode == AutoloadMode::Lazy ==> r.background@.map_values(|s: String| s@) == wasm_files(
            files@.map_values(|s: String| s@),
        ) && r.immediate@.len() == 0,
        mode == AutoloadMode::Off ==> r.immediate@.len() == 0 && r.background@.len() == 0,
{
    let ghost gfiles = files@.map_values(|s: String| s@);
    match mode {
        AutoloadMode::Off => LoadPlan { immediate: Vec::new(), background: Vec::new() },
        AutoloadMode::Eager => {
            let selected = select_wasm(files);
            LoadPlan { immediate: selected, background: Vec::new() }
        },
        AutoloadMode::Lazy => {
            let selected = select_wasm(files);
            LoadPlan { immediate: Vec::new(), background: selected }
        },
    }
}

/// Selects the artifact files.
#[verifier::loop_isolation(false)]
fn select_wasm(files: &Vec<String>) -> (r: Vec<String>)
    ensures
        r@.map_values(|s: String| s@) == wasm_files(files@.map_values(|s: String| s@)),
{
    let ghost gfiles = files@.map_values(|s: String| s@);
    let n = files.len();
    let mut r: Vec<String> = Vec::new();
    proof {
        assert(gfiles.subrange(0, 0) =~= Seq::<Seq<char>>::empty());
        assert(r@.map_values(|s: String| s@) =~= wasm_files(gfiles.subrange(0, 0)));
    }
    for i in 0..n
        invariant
            n == files@.len(),
            gfiles == files@.map_values(|s: String| s@),
            r@.map_values(|s: String| s@) == wasm_files(gfiles.subrange(0, i as int)),
    {
        proof {
            let pre = gfiles.subrange(0, i as int);
            let cur = gfiles.subrange(0, i + 1);
            assert(cur.drop_last() =~= pre);
            assert(cur.last() == gfiles[i as int]);
            assert(gfiles[i as int] == files@[i as int]@);
        }
        if check_wasm_file(&files[i]) {
            r.push(files[i].clone());
            proof {
                assert(r@.map_values(|s: String| s@) =~= wasm_files(gfiles.subrange(0, i + 1)));
            }
        } else {
            proof {
                assert(r@.map_values(|s: String| s@) =~= wasm_files(gfiles.subrange(0, i + 1)));
            }
        }
    }
    proof {
        assert(gfiles.subrange(0, n as int) =~= gfiles);
    }
    r
}

/// Sorts tool names into lexicographic order; the result holds exactly the
/// given names.
#[verifier::loop_isolation(false)]
#[verifier::rlimit(100)]
pub fn sort_tool_names(names: Vec<String>) -> (r: Vec<String>)
    ensures
        r@.to_multiset() == names@.to_multiset(),
        forall|i: int, j: int| 0 <= i < j < r@.len() ==> str_le(#[trigger] r@[i]@, #[trigger] r@[j]@),
{
    broadcast use vstd::seq_lib::group_to_multiset_ensures;
    broadcast use vstd::multiset::group_multiset_axioms;

    let mut remaining = names;
    let mut result: Vec<String> = Vec::new();
    proof {
        assert(result@.to_multiset().add(remaining@.to_multiset()) =~= names@.to_multiset());
    }
    while remaining.len() > 0
        invariant
            result@.to_multiset().add(remaining@.to_multiset()) == names@.to_multiset(),
            forall|i: int, j: int|
                0 <= i < j < result@.len() ==> str_le(
                    #[trigger] result@[i]@,
                    #[trigger] result@[j]@,
                ),
            forall|i: int, j: int|
                0 <= i < result@.len() && 0 <= j < remaining@.len() ==> str_le(
                    #[trigger] result@[i]@,
                    #[trigger] remaining@[j]@,
                ),
        decreases remaining@.len(),
    {
        let rlen = remaining.len();
        let mut m: usize = 0;
        proof {
            lemma_str_le_total(remaining@[0]@, remaining@[0]@);
        }
        for k in 1..rlen
            invariant
                rlen == remaining@.len(),
                m < rlen,
                forall|j: int| 0 <= j < k ==> str_le(remaining@[m as int]@, #[trigger] remaining@[j]@),
        {
            if str_le_exec(&remaining[k], &remaining[m]) {
                proof {
                    assert forall|j: int|
                        0 <= j < k + 1 implies str_le(
                        remaining@[k as int]@,
                        #[trigger] remaining@[j]@,
                    ) by {
                        if j < k {
                            lemma_str_le_trans(
                                remaining@[k as int]@,
                                remaining@[m as int]@,
                                remaining@[j]@,
                            );
                        } else {
                            lemma_str_le_total(remaining@[k as int]@, remaining@[k as int]@);
                        }
                    }
                }
                m = k;
            } else {
                proof {
                    lemma_str_le_total(remaining@[k as int]@, remaining@[m as int]@);
                }
            }
        }
        let ghost pre = remaining@;
        let chosen = remaining.remove(m);
        proof {
            pre.to_multiset_ensures();
            assert(remaining@.to_multiset() =~= pre.to_multiset().remove(chosen));
            assert(pre.to_multiset().count(chosen) > 0) by {
                assert(pre[m as int] == chosen);
                assert(pre.contains(chosen));
            }
        }
        let ghost res_pre = result@;
        result.push(chosen);
        proof {
            assert(result@ =~= res_pre.push(chosen));
            res_pre.to_multiset_ensures();
            assert(result@.to_multiset() =~= res_pre.to_multiset().insert(chosen));
            assert(result@.to_multiset().add(remaining@.to_multiset())
                =~= res_pre.to_multiset().add(pre.to_multiset()));
            assert forall|i: int, j: int|
                0 <= i < result@.len() && 0 <= j < remaining@.len() implies str_le(
                #[trigger] result@[i]@,
                #[trigger] remaining@[j]@,
            ) by {
                let pj: int = if j < m {
                    j
                } else {
                    j + 1
                };
                assert(remaining@[j] == pre[pj]);
                if i < res_pre.len() {
                    assert(result@[i] == res_pre[i]);
                    assert(str_le(res_pre[i]@, pre[pj]@));
                } else {
                    assert(result@[i] == chosen);
                    assert(str_le(pre[m as int]@, pre[pj]@));
                }
            }
            assert forall|i: int, j: int|
                0 <= i < j < result@.len() implies str_le(
                #[trigger] result@[i]@,
                #[trigger] result@[j]@,
            ) by {
                if j < res_pre.len() {
                } else {
                    assert(result@[j] == chosen);
                    assert(str_le(res_pre[i]@, pre[m as int]@));
                }
            }
        }
    }
    proof {
        assert(remaining@.to_multiset() =~= Multiset::<String>::empty());
        assert(result@.to_multiset().add(Multiset::<String>::empty()) =~= result@.to_multiset());
    }
    result
}

/// The built-in admin tools' names, one entry per tool.
pub fn builtin_tool_names() -> (r: Vec<String>)
    ensures
        r@.len() == 8,
        r@[0]@ == "load-component"@,
        r@[1]@ == "unload-component"@,
        r@[2]@ == "list-components"@,
        r@[3]@ == "get-policy"@,
        r@[4]@ == "grant-permission"@,
        r@[5]@ == "revoke-permission"@,
        r@[6]@ == "set-secret"@,
        r@[7]@ == "delete-secret"@,
{
    let mut r: Vec<String> = Vec::new();
    r.push("load-component".to_owned());
    r.push("unload-component".to_owned());
    r.push("list-components".to_owned());
    r.push("get-policy".to_owned());
    r.push("grant-permission".to_owned());
    r.push("revoke-permission".to_owned());
    r.push("set-secret".to_owned());
    r.push("delete-secret".to_owned());
    r
}

/// Lists the callable tools: the built-in admin tools plus every
/// component-exported tool, sorted by name.
///
/// The order is a function of the names alone, so two calls against
/// identical registry state list identically.
#[verifier::rlimit(100)]
pub fn list_tools(registry: &crate::registry::Registry) -> (r: Vec<String>)
    requires
        registry.wf(),
    ensures
        forall|i: int, j: int| 0 <= i < j < r@.len() ==> str_le(#[trigger] r@[i]@, #[trigger] r@[j]@),
        forall|i: int, j: int| 0 <= i < j < r@.len() ==> #[trigger] r@[i]@ != #[trigger] r@[j]@,
        r@.len() == 8 + crate::registry::all_tool_names(registry.entries@).len(),
        forall|k: int|
            #![trigger r@[k]]
            0 <= k < r@.len() ==> (spec_builtin(r@[k]@) is Some || crate::registry::all_tool_names(
                registry.entries@,
            ).contains(r@[k]@)),
        forall|t: Seq<char>|
            #[trigger] crate::registry::all_tool_names(registry.entries@).contains(t) ==> (exists|
                k: int,
            |
                0 <= k < r@.len() && #[trigger] r@[k]@ == t),
        forall|t: Seq<char>|
            #[trigger] spec_builtin(t) is Some ==> (exists|k: int|
                0 <= k < r@.len() && #[trigger] r@[k]@ == t),
        lists_the_tools(r@.map_values(|s: String| s@), registry.entries@),
{
    broadcast use vstd::seq_lib::group_to_multiset_ensures;
    broadcast use vstd::multiset::group_multiset_axioms;

    let ghost all = crate::registry::all_tool_names(registry.entries@);
    let mut combined = builtin_tool_names();
    let mut component_names = registry.tool_names();
    let ghost builtins = combined@;
    let ghost comps = component_names@;
    let cn = component_names.len();
    for i in 0..cn
        invariant
            cn == comps.len(),
            component_names@ == comps,
            combined@ == builtins + comps.subrange(0, i as int),
    {
        let name = component_names[i].clone();
        combined.push(name);
        proof {
            assert(combined@ =~= builtins + comps.subrange(0, i + 1));
        }
    }
    proof {
        assert(comps.subrange(0, cn as int) =~= comps);
        assert(combined@ =~= builtins + comps);
    }
    let r = sort_tool_names(combined);
    proof {
        let cseq = builtins + comps;
        assert(r@.to_multiset().len() == cseq.to_multiset().len());
        assert(r@.len() == cseq.len());
        assert(all.len() == comps.len());
        assert forall|k: int| #![trigger r@[k]] 0 <= k < r@.len() implies (spec_builtin(r@[k]@)
            is Some || all.contains(r@[k]@)) by {
            let x = r@[k];
            assert(r@.contains(x));
            assert(r@.to_multiset().count(x) > 0);
            assert(cseq.to_multiset().count(x) > 0);
            assert(cseq.contains(x));
            let i = choose|i: int| 0 <= i < cseq.len() && cseq[i] == x;
            if i < 8 {
                assert(cseq[i] == builtins[i]);
                assert(spec_builtin(x@) is Some);
            } else {
                assert(cseq[i] == comps[i - 8]);
                assert(comps[i - 8]@ == all[i - 8]);
                assert(all.contains(x@));
            }
        }
        assert forall|t: Seq<char>| #[trigger] all.contains(t) implies (exists|k: int|
            0 <= k < r@.len() && #[trigger] r@[k]@ == t) by {
            let j = choose|j: int| 0 <= j < all.len() && all[j] == t;
            assert(comps[j]@ == all[j]);
            let x = comps[j];
            assert(cseq[8 + j] == x);
            assert(cseq.contains(x));
            assert(cseq.to_multiset().count(x) > 0);
            assert(r@.to_multiset().count(x) > 0);
            assert(r@.contains(x));
            let k = choose|k: int| 0 <= k < r@.len() && r@[k] == x;
            assert(r@[k]@ == t);
        }
        assert forall|i: int, j: int|
            0 <= i < j < cseq.len() implies #[trigger] cseq[i]@ != #[trigger] cseq[j]@ by {
            reveal_strlit("load-component");
            reveal_strlit("unload-component");
            reveal_strlit("list-components");
            reveal_strlit("get-policy");
            reveal_strlit("grant-permission");
            reveal_strlit("revoke-permission");
            reveal_strlit("set-secret");
            reveal_strlit("delete-secret");
            crate::registry::lemma_all_tool_names_distinct(registry.entries@);
            if j < 8 {
                assert("load-component"@.len() == 14);
                assert("unload-component"@.len() == 16);
                assert("list-components"@.len() == 15);
                assert("get-policy"@.len() == 10);
                assert("grant-permission"@.len() == 16);
                assert("revoke-permission"@.len() == 17);
                assert("set-secret"@.len() == 10);
                assert("delete-secret"@.len() == 13);
                assert("unload-component"@[0] == 'u');
                assert("grant-permission"@[0] == 'g');
                assert("get-policy"@[0] == 'g');
                assert("get-policy"@[1] == 'e');
                assert("set-secret"@[0] == 's');
            } else if i >= 8 {
                assert(cseq[i]@ == all[i - 8]);
                assert(cseq[j]@ == all[j - 8]);
            } else {
                assert(cseq[j]@ == all[j - 8]);
                crate::registry::lemma_tool_index_consistent(registry.entries@, j - 8);
                let oi = crate::registry::tool_owner_index(registry.entries@, j - 8);
                assert(crate::registry::owns_tool_at(registry.entries@, oi, all[j - 8]));
                let a = choose|a: int|
                    0 <= a < registry.entries@[oi].1.schema@.len()
                        && #[trigger] registry.entries@[oi].1.schema@[a].name@ == all[j - 8];
                assert(!crate::registry::spec_schema_shadows_builtin(
                    registry.entries@[oi].1.schema@,
                ));
                assert(spec_builtin(registry.entries@[oi].1.schema@[a].name@) is None) by {
                    if spec_builtin(registry.entries@[oi].1.schema@[a].name@) is Some {
                        assert(crate::registry::spec_schema_shadows_builtin(
                            registry.entries@[oi].1.schema@,
                        ));
                    }
                }
                assert(spec_builtin(cseq[j]@) is None);
                assert(spec_builtin(cseq[i]@) is Some);
            }
        }
        assert(cseq.no_duplicates()) by {
            assert forall|i: int, j: int|
                0 <= i < cseq.len() && 0 <= j < cseq.len() && i != j implies cseq[i] != cseq[j] by {
                if cseq[i] == cseq[j] {
                    assert(cseq[i]@ == cseq[j]@);
                }
            }
        }
        cseq.lemma_multiset_has_no_duplicates();
        assert(forall|x: String|
            r@.to_multiset().contains(x) ==> #[trigger] r@.to_multiset().count(x) == 1);
        r@.lemma_multiset_has_no_duplicates_conv();
        assert forall|i: int, j: int|
            0 <= i < j < r@.len() implies #[trigger] r@[i]@ != #[trigger] r@[j]@ by {
            if r@[i]@ == r@[j]@ {
                let x1 = r@[i];
                let x2 = r@[j];
                assert(x1 != x2);
                assert(r@.contains(x1) && r@.contains(x2));
                assert(cseq.to_multiset().count(x1) > 0 && cseq.to_multiset().count(x2) > 0);
                assert(cseq.contains(x1) && cseq.contains(x2));
                let p1 = choose|p: int| 0 <= p < cseq.len() && cseq[p] == x1;
                let p2 = choose|p: int| 0 <= p < cseq.len() && cseq[p] == x2;
                assert(p1 != p2);
                assert(cseq[p1]@ == cseq[p2]@);
                if p1 < p2 {
                } else {
                    assert(cseq[p2]@ != cseq[p1]@);
                }
                assert(false);
            }
        }
        assert forall|t: Seq<char>| #[trigger] spec_builtin(t) is Some implies (exists|k: int|
            0 <= k < r@.len() && #[trigger] r@[k]@ == t) by {
            let bi: int = if t == "load-component"@ {
                0
            } else if t == "unload-component"@ {
                1
            } else if t == "list-components"@ {
                2
            } else if t == "get-policy"@ {
                3
            } else if t == "grant-permission"@ {
                4
            } else if t == "revoke-permission"@ {
                5
            } else if t == "set-secret"@ {
                6
            } else {
                7
            };
            assert(builtins[bi]@ == t);
            let x = builtins[bi];
            assert(cseq[bi] == x);
            assert(cseq.contains(x));
            assert(cseq.to_multiset().count(x) > 0);
            assert(r@.to_multiset().count(x) > 0);
            assert(r@.contains(x));
            let k = choose|k: int| 0 <= k < r@.len() && r@[k] == x;
            assert(r@[k]@ == t);
        }
        let rv = r@.map_values(|s: String| s@);
        assert(rv.len() == r@.len());
        assert(forall|k: int| 0 <= k < rv.len() ==> #[trigger] rv[k] == r@[k]@);
        assert(lists_the_tools(rv, registry.entries@)) by {
            assert forall|t: Seq<char>|
                #[trigger] crate::registry::all_tool_names(registry.entries@).contains(
                    t,
                ) implies rv.contains(t) by {
                let k = choose|k: int| 0 <= k < r@.len() && #[trigger] r@[k]@ == t;
                assert(rv[k] == t);
            }
            assert forall|t: Seq<char>| #[trigger] spec_builtin(t) is Some implies rv.contains(
                t,
            ) by {
                let k = choose|k: int| 0 <= k < r@.len() && #[trigger] r@[k]@ == t;
                assert(rv[k] == t);
            }
        }
    }
    r
}

/// What a correct tool listing holds, as a sequence of names: sorted,
/// duplicate-free, every name a built-in's or a loaded component's, and
/// every built-in and component tool present — the clauses
/// [`list_tools`] ensures of its result's views.
pub open spec fn lists_the_tools(
    v: Seq<Seq<char>>,
    entries: Seq<(String, crate::registry::ComponentEntry)>,
) -> bool {
    &&& forall|i: int, j: int| 0 <= i < j < v.len() ==> str_le(#[trigger] v[i], #[trigger] v[j])
    &&& forall|i: int, j: int| 0 <= i < j < v.len() ==> #[trigger] v[i] != #[trigger] v[j]
    &&& forall|k: int|
        0 <= k < v.len() ==> (spec_builtin(#[trigger] v[k]) is Some
            || crate::registry::all_tool_names(entries).contains(v[k]))
    &&& forall|t: Seq<char>|
        #[trigger] crate::registry::all_tool_names(entries).contains(t) ==> v.contains(t)
    &&& forall|t: Seq<char>| #[trigger] spec_builtin(t) is Some ==> v.contains(t)
}

/// Two sorted, duplicate-free name sequences with the same members are
/// identical.
proof fn lemma_sorted_distinct_same_members(v1: Seq<Seq<char>>, v2: Seq<Seq<char>>)
    requires
        forall|i: int, j: int| 0 <= i < j < v1.len() ==> str_le(#[trigger] v1[i], #[trigger] v1[j]),
        forall|i: int, j: int| 0 <= i < j < v2.len() ==> str_le(#[trigger] v2[i], #[trigger] v2[j]),
        forall|i: int, j: int| 0 <= i < j < v1.len() ==> #[trigger] v1[i] != #[trigger] v1[j],
        forall|i: int, j: int| 0 <= i < j < v2.len() ==> #[trigger] v2[i] != #[trigger] v2[j],
        forall|t: Seq<char>| v1.contains(t) <==> v2.contains(t),
    ensures
        v1 == v2,
    decreases v1.len(),
{
    if v1.len() == 0 {
        if v2.len() > 0 {
            assert(v2.contains(v2[0]));
            assert(v1.contains(v2[0]));
            assert(false);
        }
        assert(v1 =~= v2);
    } else {
        assert(v1.contains(v1[0]));
        assert(v2.contains(v1[0]));
        let j = choose|j: int| 0 <= j < v2.len() && v2[j] == v1[0];
        assert(str_le(v2[0], v1[0])) by {
            if j > 0 {
                assert(str_le(v2[0], v2[j]));
            } else {
                lemma_str_le_total(v2[0], v2[0]);
            }
        }
        assert(v2.contains(v2[0]));
        assert(v1.contains(v2[0]));
        let i = choose|i: int| 0 <= i < v1.len() && v1[i] == v2[0];
        assert(str_le(v1[0], v2[0])) by {
            if i > 0 {
                assert(str_le(v1[0], v1[i]));
            } else {
                lemma_str_le_total(v1[0], v1[0]);
            }
        }
        lemma_str_le_antisym(v1[0], v2[0]);
        let t1 = v1.drop_first();
        let t2 = v2.drop_first();
        assert(forall|i2: int| 0 <= i2 < t1.len() ==> #[trigger] t1[i2] == v1[i2 + 1]);
        assert(forall|i2: int| 0 <= i2 < t2.len() ==> #[trigger] t2[i2] == v2[i2 + 1]);
        assert forall|t: Seq<char>| t1.contains(t) <==> t2.contains(t) by {
            if t1.contains(t) {
                let k = choose|k: int| 0 <= k < t1.len() && t1[k] == t;
                assert(v1[k + 1] == t);
                assert(t != v1[0]);
                assert(v1.contains(t));
                assert(v2.contains(t));
                let k2 = choose|k2: int| 0 <= k2 < v2.len() && v2[k2] == t;
                assert(k2 != 0);
                assert(t2[k2 - 1] == t);
                assert(t2.contains(t));
            }
            if t2.contains(t) {
                let k = choose|k: int| 0 <= k < t2.len() && t2[k] == t;
                assert(v2[k + 1] == t);
                assert(t != v2[0]);
                assert(v2.contains(t));
                assert(v1.contains(t));
                let k2 = choose|k2: int| 0 <= k2 < v1.len() && v1[k2] == t;
                assert(k2 != 0);
                assert(t1[k2 - 1] == t);
                assert(t1.contains(t));
            }
        }
        lemma_sorted_distinct_same_members(t1, t2);
        assert forall|i2: int| 0 <= i2 < v1.len() implies v1[i2] == v2[i2] by {
            if i2 > 0 {
                assert(t1[i2 - 1] == v1[i2]);
                assert(t2[i2 - 1] == v2[i2]);
                assert(t1[i2 - 1] == t2[i2 - 1]);
            }
        }
        assert(v1 =~= v2);
    }
}

/// The listing is a function of the registry state: any two correct tool
/// listings against the same entries are identical, so repeated calls with
/// identical state list identically.
pub proof fn lemma_list_tools_deterministic(
    v1: Seq<Seq<char>>,
    v2: Seq<Seq<char>>,
    entries: Seq<(String, crate::registry::ComponentEntry)>,
)
    requires
        lists_the_tools(v1, entries),
        lists_the_tools(v2, entries),
    ensures
        v1 == v2,
{
    assert forall|t: Seq<char>| v1.contains(t) <==> v2.contains(t) by {
        if v1.contains(t) {
            let k = choose|k: int| 0 <= k < v1.len() && v1[k] == t;
            assert(spec_builtin(v1[k]) is Some || crate::registry::all_tool_names(
                entries,
            ).contains(v1[k]));
            assert(v2.contains(t));
        }
        if v2.contains(t) {
            let k = choose|k: int| 0 <= k < v2.len() && v2[k] == t;
            assert(spec_builtin(v2[k]) is Some || crate::registry::all_tool_names(
                entries,
            ).contains(v2[k]));
            assert(v1.contains(t));
        }
    }
    lemma_sorted_distinct_same_members(v1, v2);
}

} // verus!
