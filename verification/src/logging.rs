//! Structured log events for the wire protocol's logging channel.
//!
//! Events carry a severity from the standard set, a dotted logger name, a
//! message, a timestamp and structured data. The payload shaping —
//! guaranteed `message` and `timestamp` fields — is done here; the
//! embedding process supplies the clock and sends the notification.

use vstd::prelude::*;

use crate::json::{obj_get, JsonValue};

verus! {

/// The standard severity set of the protocol's logging channel.
#[derive(Clone, Copy, PartialEq, Eq, Structural, Debug)]
pub enum LogLevel {
    /// Detailed debugging information.
    Debug,
    /// Normal operational messages.
    Info,
    /// Normal but significant conditions.
    Notice,
    /// Warning conditions.
    Warning,
    /// Error conditions.
    Error,
    /// Critical conditions.
    Critical,
    /// Action must be taken immediately.
    Alert,
    /// The system is unusable.
    Emergency,
}

/// The wire name of each severity.
pub open spec fn spec_level_name(l: LogLevel) -> Seq<char> {
    match l {
        LogLevel::Debug => "debug"@,
        LogLevel::Info => "info"@,
        LogLevel::Notice => "notice"@,
        LogLevel::Warning => "warning"@,
        LogLevel::Error => "error"@,
        LogLevel::Critical => "critical"@,
        LogLevel::Alert => "alert"@,
        LogLevel::Emergency => "emergency"@,
    }
}

impl LogLevel {
    /// The severity's wire name.
    pub fn name(&self) -> (r: &'static str)
        ensures
            r@ == spec_level_name(*self),
    {
        match self {
            LogLevel::Debug => "debug",
            LogLevel::Info => "info",
            LogLevel::Notice => "notice",
            LogLevel::Warning => "warning",
            LogLevel::Error => "error",
            LogLevel::Critical => "critical",
            LogLevel::Alert => "alert",
            LogLevel::Emergency => "emergency",
        }
    }
}

/// One structured log event.
pub struct ActivityEvent {
    /// The severity.
    pub level: LogLevel,
    /// The dotted logger namespace.
    pub logger: String,
    /// The event's timestamp, an RFC 3339 string the embedding process
    /// supplies.
    pub timestamp: String,
    /// The human-readable message.
    pub message: String,
    /// Domain-specific structured data.
    pub data: JsonValue,
}

/// The decimal digit character of `d`.
pub open spec fn digit_char(d: nat) -> char {
    ((0x30 + d) as u32) as char
}

/// The decimal digits of `n`, most significant first.
pub open spec fn spec_dec_digits(n: nat) -> Seq<char>
    decreases n,
{
    if n < 10 {
        seq![digit_char(n)]
    } else {
        spec_dec_digits(n / 10).push(digit_char(n % 10))
    }
}

/// The decimal digits of `n` as characters.
fn u64_to_dec_chars(n: u64) -> (r: Vec<char>)
    ensures
        r@ == spec_dec_digits(n as nat),
    decreases n,
{
    if n < 10 {
        let b: u8 = 0x30 + (n as u8);
        let c: char = b as char;
        proof {
            assert((b as char) as u32 == b as u32);
            assert(c == digit_char(n as nat));
        }
        let mut r: Vec<char> = Vec::new();
        r.push(c);
        proof {
            assert(r@ =~= seq![digit_char(n as nat)]);
        }
        r
    } else {
        let mut r = u64_to_dec_chars(n / 10);
        let d = n % 10;
        let b: u8 = 0x30 + (d as u8);
        let c: char = b as char;
        proof {
            assert((b as char) as u32 == b as u32);
            assert(c == digit_char((n % 10) as nat));
        }
        r.push(c);
        r
    }
}

/// Renders an unsigned number in decimal.
pub fn u64_to_string(n: u64) -> (r: String)
    ensures
        r@ == spec_dec_digits(n as nat),
{
    let chars = u64_to_dec_chars(n);
    crate::text::chars_to_string(&chars)
}

/// Builds the payload of a log notification: the given structured data with
/// `message` and `timestamp` fields guaranteed.
///
/// An object keeps its fields and gains (or front-overrides) the two; any
/// other value is wrapped as `original_data` beside them.
pub fn build_log_payload(message: &str, timestamp: &str, data: JsonValue) -> (r: JsonValue)
    ensures
        r matches JsonValue::Obj(fields) && ({
            &&& obj_get(fields@, "message"@) matches Some(m) && m matches JsonValue::Str(s)
                && s@ == message@
            &&& obj_get(fields@, "timestamp"@) matches Some(t) && t matches JsonValue::Str(s)
                && s@ == timestamp@
        }),
        !(data matches JsonValue::Obj(_)) ==> (r matches JsonValue::Obj(fields) && (obj_get(
            fields@,
            "original_data"@,
        ) == Some(data))),
{
    proof {
        reveal_strlit("message");
        reveal_strlit("timestamp");
        reveal_strlit("original_data");
    }
    let mut fields: Vec<(String, JsonValue)> = Vec::new();
    fields.push(("message".to_owned(), JsonValue::Str(message.to_owned())));
    fields.push(("timestamp".to_owned(), JsonValue::Str(timestamp.to_owned())));
    let is_obj = match &data {
        JsonValue::Obj(_) => true,
        _ => false,
    };
    if !is_obj {
        fields.push(("original_data".to_owned(), data));
        proof {
            assert(fields@[0].0@ == "message"@);
            assert(fields@[1].0@ == "timestamp"@);
            assert(fields@[2].0@ == "original_data"@);
            lemma_front_get(fields@);
        }
        JsonValue::Obj(fields)
    } else {
        match data {
            JsonValue::Obj(extra) => {
                let mut extra = extra;
                while extra.len() > 0
                    invariant
                        fields@.len() >= 2,
                        fields@[0].0@ == "message"@,
                        fields@[0].1 matches JsonValue::Str(s) && s@ == message@,
                        fields@[1].0@ == "timestamp"@,
                        fields@[1].1 matches JsonValue::Str(s) && s@ == timestamp@,
                    decreases extra@.len(),
                {
                    let kv = extra.remove(0);
                    fields.push(kv);
                }
                proof {
                    lemma_front_get(fields@);
                }
                JsonValue::Obj(fields)
            },
            _ => {
                proof {
                    assert(false);
                }
                JsonValue::Obj(fields)
            },
        }
    }
}

/// Looking the first two fixed keys up in a field list that starts with
/// them finds them.
proof fn lemma_front_get(fields: Seq<(String, JsonValue)>)
    requires
        fields.len() >= 2,
        fields[0].0@ == "message"@,
        fields[1].0@ == "timestamp"@,
    ensures
        obj_get(fields, "message"@) == Some(fields[0].1),
        obj_get(fields, "timestamp"@) == Some(fields[1].1),
        fields.len() >= 3 && fields[2].0@ == "original_data"@ ==> obj_get(fields, "original_data"@)
            == Some(fields[2].1),
{
    reveal_strlit("message");
    reveal_strlit("timestamp");
    reveal_strlit("original_data");
    reveal_with_fuel(obj_get, 5);
    assert("message"@.len() == 7);
    assert("timestamp"@.len() == 9);
    assert("original_data"@.len() == 13);
    assert("message"@ != "timestamp"@);
    let d1 = fields.drop_first();
    assert(d1[0] == fields[1]);
    assert(obj_get(fields, "message"@) == Some(fields[0].1));
    assert(obj_get(d1, "timestamp"@) == Some(d1[0].1));
    assert(obj_get(fields, "timestamp"@) == obj_get(d1, "timestamp"@));
    if fields.len() >= 3 && fields[2].0@ == "original_data"@ {
        let d2 = d1.drop_first();
        assert(d2[0] == fields[2]);
        assert(obj_get(d2, "original_data"@) == Some(d2[0].1));
        assert(obj_get(d1, "original_data"@) == obj_get(d2, "original_data"@));
        assert(obj_get(fields, "original_data"@) == obj_get(d1, "original_data"@));
    }
}

/// Structured data for component loading events.
pub fn component_loading(component_path: &str, file_size: Option<u64>) -> (r: JsonValue)
    ensures
        r matches JsonValue::Obj(fields) && ({
            &&& obj_get(fields@, "component_path"@) matches Some(p) && p matches JsonValue::Str(s)
                && s@ == component_path@
            &&& file_size matches Some(n) ==> obj_get(fields@, "file_size_bytes"@) matches Some(v)
                && v matches JsonValue::Num(d) && d@ == spec_dec_digits(n as nat)
        }),
{
    proof {
        reveal_strlit("component_path");
        reveal_strlit("file_size_bytes");
    }
    let mut fields: Vec<(String, JsonValue)> = Vec::new();
    fields.push(("component_path".to_owned(), JsonValue::Str(component_path.to_owned())));
    match file_size {
        Some(n) => {
            fields.push(("file_size_bytes".to_owned(), JsonValue::Num(u64_to_string(n))));
            proof {
                reveal_with_fuel(obj_get, 5);
                assert("component_path"@.len() == 14);
                assert("file_size_bytes"@.len() == 15);
                let d1 = fields@.drop_first();
                assert(d1[0] == fields@[1]);
                assert(obj_get(fields@, "component_path"@) == Some(fields@[0].1));
                assert(obj_get(d1, "file_size_bytes"@) == Some(d1[0].1));
                assert(obj_get(fields@, "file_size_bytes"@) == obj_get(d1, "file_size_bytes"@));
            }
        },
        None => {
            proof {
                assert(obj_get(fields@, "component_path"@) == Some(fields@[0].1));
            }
        },
    }
    JsonValue::Obj(fields)
}

/// Structured data for error events.
pub fn error_details(error_type: &str, error_message: &str, recoverable: bool) -> (r: JsonValue)
    ensures
        r matches JsonValue::Obj(fields) && ({
            &&& obj_get(fields@, "error_type"@) matches Some(v) && v matches JsonValue::Str(s)
                && s@ == error_type@
            &&& obj_get(fields@, "error_message"@) matches Some(v) && v matches JsonValue::Str(s)
                && s@ == error_message@
            &&& obj_get(fields@, "recoverable"@) == Some(JsonValue::Bool(recoverable))
        }),
{
    proof {
        reveal_strlit("error_type");
        reveal_strlit("error_message");
        reveal_strlit("recoverable");
    }
    let mut fields: Vec<(String, JsonValue)> = Vec::new();
    fields.push(("error_type".to_owned(), JsonValue::Str(error_type.to_owned())));
    fields.push(("error_message".to_owned(), JsonValue::Str(error_message.to_owned())));
    fields.push(("recoverable".to_owned(), JsonValue::Bool(recoverable)));
    proof {
        reveal_with_fuel(obj_get, 5);
        assert("error_type"@.len() == 10);
        assert("error_message"@.len() == 13);
        assert("recoverable"@.len() == 11);
        let d1 = fields@.drop_first();
        let d2 = d1.drop_first();
        assert(d1[0] == fields@[1]);
        assert(d2[0] == fields@[2]);
        assert(obj_get(fields@, "error_type"@) == Some(fields@[0].1));
        assert(obj_get(d1, "error_message"@) == Some(d1[0].1));
        assert(obj_get(fields@, "error_message"@) == obj_get(d1, "error_message"@));
        assert(obj_get(d2, "recoverable"@) == Some(d2[0].1));
        assert(obj_get(d1, "recoverable"@) == obj_get(d2, "recoverable"@));
        assert(obj_get(fields@, "recoverable"@) == obj_get(d1, "recoverable"@));
    }
    JsonValue::Obj(fields)
}

/// Structured data for permission and security events.
pub fn security_violation(operation: &str, requested_resource: &str, policy_rule: &str) -> (r:
    JsonValue)
    ensures
        r matches JsonValue::Obj(fields) && ({
            &&& obj_get(fields@, "attempted_operation"@) matches Some(v) && v matches JsonValue::Str(
                s,
            ) && s@ == operation@
            &&& obj_get(fields@, "requested_resource"@) matches Some(v) && v matches JsonValue::Str(
                s,
            ) && s@ == requested_resource@
            &&& obj_get(fields@, "policy_violation"@) matches Some(v) && v matches JsonValue::Str(
                s,
            ) && s@ == policy_rule@
        }),
{
    proof {
        reveal_strlit("attempted_operation");
        reveal_strlit("requested_resource");
        reveal_strlit("policy_violation");
    }
    let mut fields: Vec<(String, JsonValue)> = Vec::new();
    fields.push(("attempted_operation".to_owned(), JsonValue::Str(operation.to_owned())));
    fields.push(("requested_resource".to_owned(), JsonValue::Str(requested_resource.to_owned())));
    fields.push(("policy_violation".to_owned(), JsonValue::Str(policy_rule.to_owned())));
    proof {
        reveal_with_fuel(obj_get, 5);
        assert("attempted_operation"@.len() == 19);
        assert("requested_resource"@.len() == 18);
        assert("policy_violation"@.len() == 16);
        let d1 = fields@.drop_first();
        let d2 = d1.drop_first();
        assert(d1[0] == fields@[1]);
        assert(d2[0] == fields@[2]);
        assert(obj_get(fields@, "attempted_operation"@) == Some(fields@[0].1));
        assert(obj_get(d1, "requested_resource"@) == Some(d1[0].1));
        assert(obj_get(fields@, "requested_resource"@) == obj_get(d1, "requested_resource"@));
        assert(obj_get(d2, "policy_violation"@) == Some(d2[0].1));
        assert(obj_get(d1, "policy_violation"@) == obj_get(d2, "policy_violation"@));
        assert(obj_get(fields@, "policy_violation"@) == obj_get(d1, "policy_violation"@));
    }
    JsonValue::Obj(fields)
}

/// Structured data for execution performance: each metric appears under
/// its own key, in decimal, exactly when it was measured.
pub fn execution_performance(
    memory_usage: Option<u64>,
    cpu_time_ms: Option<u64>,
    peak_memory: Option<u64>,
) -> (r: JsonValue)
    ensures
        r matches JsonValue::Obj(fields) && ({
            &&& match memory_usage {
                Some(n) => obj_get(fields@, "memory_usage_bytes"@) matches Some(v)
                    && v matches JsonValue::Num(d) && d@ == spec_dec_digits(n as nat),
                None => obj_get(fields@, "memory_usage_bytes"@) is None,
            }
            &&& match cpu_time_ms {
                Some(n) => obj_get(fields@, "cpu_time_ms"@) matches Some(v)
                    && v matches JsonValue::Num(d) && d@ == spec_dec_digits(n as nat),
                None => obj_get(fields@, "cpu_time_ms"@) is None,
            }
            &&& match peak_memory {
                Some(n) => obj_get(fields@, "peak_memory_bytes"@) matches Some(v)
                    && v matches JsonValue::Num(d) && d@ == spec_dec_digits(n as nat),
                None => obj_get(fields@, "peak_memory_bytes"@) is None,
            }
        }),
{
    proof {
        reveal_strlit("memory_usage_bytes");
        reveal_strlit("cpu_time_ms");
        reveal_strlit("peak_memory_bytes");
        reveal_with_fuel(obj_get, 5);
        assert("memory_usage_bytes"@.len() == 18);
        assert("cpu_time_ms"@.len() == 11);
        assert("peak_memory_bytes"@.len() == 17);
    }
    let mut fields: Vec<(String, JsonValue)> = Vec::new();
    match memory_usage {
        Some(n) => {
            fields.push(("memory_usage_bytes".to_owned(), JsonValue::Num(u64_to_string(n))));
        },
        None => {},
    }
    match cpu_time_ms {
        Some(n) => {
            fields.push(("cpu_time_ms".to_owned(), JsonValue::Num(u64_to_string(n))));
        },
        None => {},
    }
    match peak_memory {
        Some(n) => {
            fields.push(("peak_memory_bytes".to_owned(), JsonValue::Num(u64_to_string(n))));
        },
        None => {},
    }
    proof {
        lemma_metric_fields(fields@, memory_usage is Some, cpu_time_ms is Some, peak_memory is Some);
    }
    JsonValue::Obj(fields)
}

/// Field lookup facts for the metric payload: the fields present are the
/// measured metrics in the fixed order, so each key resolves to its own
/// entry and an unmeasured metric's key resolves to nothing.
proof fn lemma_metric_fields(
    fields: Seq<(String, JsonValue)>,
    has_mem: bool,
    has_cpu: bool,
    has_peak: bool,
)
    requires
        fields.len() == (if has_mem {
            1int
        } else {
            0int
        }) + (if has_cpu {
            1int
        } else {
            0int
        }) + (if has_peak {
            1int
        } else {
            0int
        }),
        has_mem ==> fields[0].0@ == "memory_usage_bytes"@,
        has_cpu ==> fields[if has_mem {
            1int
        } else {
            0int
        }].0@ == "cpu_time_ms"@,
        has_peak ==> fields[fields.len() - 1].0@ == "peak_memory_bytes"@,
    ensures
        has_mem ==> obj_get(fields, "memory_usage_bytes"@) == Some(fields[0].1),
        !has_mem ==> obj_get(fields, "memory_usage_bytes"@) is None,
        has_cpu ==> obj_get(fields, "cpu_time_ms"@) == Some(
            fields[if has_mem {
                1int
            } else {
                0int
            }].1,
        ),
        !has_cpu ==> obj_get(fields, "cpu_time_ms"@) is None,
        has_peak ==> obj_get(fields, "peak_memory_bytes"@) == Some(fields[fields.len() - 1].1),
        !has_peak ==> obj_get(fields, "peak_memory_bytes"@) is None,
{
    reveal_strlit("memory_usage_bytes");
    reveal_strlit("cpu_time_ms");
    reveal_strlit("peak_memory_bytes");
    reveal_with_fuel(obj_get, 5);
    assert("memory_usage_bytes"@.len() == 18);
    assert("cpu_time_ms"@.len() == 11);
    assert("peak_memory_bytes"@.len() == 17);
    if fields.len() > 0 {
        assert(fields.drop_first().len() == fields.len() - 1);
        if fields.len() > 1 {
            assert(fields.drop_first()[0] == fields[1]);
            if fields.len() > 2 {
                assert(fields.drop_first().drop_first()[0] == fields[2]);
            }
        }
    }
}

/// The log event of one tool execution: severity by success, the message
/// naming the tool, and the metrics payload.
pub fn tool_execution_event(
    tool_name: &str,
    component_id: &str,
    execution_time_ms: u64,
    success: bool,
    error: Option<&String>,
) -> (r: (LogLevel, String, JsonValue))
    ensures
        r.0 == if success {
            LogLevel::Info
        } else {
            LogLevel::Error
        },
        r.1@ == (if success {
            "Tool execution completed: "@
        } else {
            "Tool execution failed: "@
        }) + tool_name@,
        r.2 matches JsonValue::Obj(fields) && ({
            &&& obj_get(fields@, "tool_name"@) matches Some(v) && v matches JsonValue::Str(s)
                && s@ == tool_name@
            &&& obj_get(fields@, "component_id"@) matches Some(v) && v matches JsonValue::Str(s)
                && s@ == component_id@
            &&& obj_get(fields@, "execution_time_ms"@) matches Some(v) && v matches JsonValue::Num(
                d,
            ) && d@ == spec_dec_digits(execution_time_ms as nat)
            &&& obj_get(fields@, "success"@) == Some(JsonValue::Bool(success))
            &&& match error {
                Some(e) => obj_get(fields@, "error"@) matches Some(v) && v matches JsonValue::Str(
                    s,
                ) && s@ == e@,
                None => obj_get(fields@, "error"@) is None,
            }
        }),
{
    proof {
        reveal_strlit("tool_name");
        reveal_strlit("component_id");
        reveal_strlit("execution_time_ms");
        reveal_strlit("success");
        reveal_strlit("error");
        reveal_with_fuel(obj_get, 6);
        assert("tool_name"@.len() == 9);
        assert("component_id"@.len() == 12);
        assert("execution_time_ms"@.len() == 17);
        assert("success"@.len() == 7);
        assert("error"@.len() == 5);
    }
    let level = if success {
        LogLevel::Info
    } else {
        LogLevel::Error
    };
    let mut message = if success {
        "Tool execution completed: ".to_owned()
    } else {
        "Tool execution failed: ".to_owned()
    };
    message.append(tool_name);
    let mut fields: Vec<(String, JsonValue)> = Vec::new();
    fields.push(("tool_name".to_owned(), JsonValue::Str(tool_name.to_owned())));
    fields.push(("component_id".to_owned(), JsonValue::Str(component_id.to_owned())));
    fields.push(
        ("execution_time_ms".to_owned(), JsonValue::Num(u64_to_string(execution_time_ms))),
    );
    fields.push(("success".to_owned(), JsonValue::Bool(success)));
    match error {
        Some(e) => {
            fields.push(("error".to_owned(), JsonValue::Str(e.clone())));
        },
        None => {},
    }
    proof {
        let fs = fields@;
        let d1 = fs.drop_first();
        let d2 = d1.drop_first();
        let d3 = d2.drop_first();
        let d4 = d3.drop_first();
        assert(d1[0] == fs[1]);
        assert(d2[0] == fs[2]);
        assert(d3[0] == fs[3]);
        if error is Some {
            assert(d4[0] == fs[4]);
        } else {
            assert(d4.len() == 0);
        }
        assert(obj_get(fs, "tool_name"@) == Some(fs[0].1));
        assert(obj_get(fs, "component_id"@) == Some(fs[1].1));
        assert(obj_get(fs, "execution_time_ms"@) == Some(fs[2].1));
        assert(obj_get(fs, "success"@) == Some(fs[3].1));
        match error {
            Some(_) => {
                assert(obj_get(fs, "error"@) == Some(fs[4].1));
            },
            None => {
                assert(obj_get(fs, "error"@) is None);
            },
        }
    }
    (level, message, JsonValue::Obj(fields))
}

/// The payload of a component lifecycle event: the event word and the
/// component id, ahead of any caller-supplied fields.
pub fn component_event_payload(event: &str, component_id: &str, additional: JsonValue) -> (r:
    JsonValue)
    ensures
        r matches JsonValue::Obj(fields) && ({
            &&& obj_get(fields@, "event"@) matches Some(v) && v matches JsonValue::Str(s) && s@
                == event@
            &&& obj_get(fields@, "component_id"@) matches Some(v) && v matches JsonValue::Str(s)
                && s@ == component_id@
        }),
{
    proof {
        reveal_strlit("event");
        reveal_strlit("component_id");
        reveal_with_fuel(obj_get, 4);
        assert("event"@.len() == 5);
        assert("component_id"@.len() == 12);
    }
    let mut fields: Vec<(String, JsonValue)> = Vec::new();
    fields.push(("event".to_owned(), JsonValue::Str(event.to_owned())));
    fields.push(("component_id".to_owned(), JsonValue::Str(component_id.to_owned())));
    append_object_fields(&mut fields, additional);
    proof {
        let fs = fields@;
        assert(fs.drop_first()[0] == fs[1]);
        assert(obj_get(fs, "event"@) == Some(fs[0].1));
        assert(obj_get(fs, "component_id"@) == Some(fs[1].1));
    }
    JsonValue::Obj(fields)
}

/// The payload of a security event: the event type and the component id,
/// ahead of any caller-supplied detail fields.
pub fn security_event_payload(event_type: &str, component_id: &str, details: JsonValue) -> (r:
    JsonValue)
    ensures
        r matches JsonValue::Obj(fields) && ({
            &&& obj_get(fields@, "event_type"@) matches Some(v) && v matches JsonValue::Str(s)
                && s@ == event_type@
            &&& obj_get(fields@, "component_id"@) matches Some(v) && v matches JsonValue::Str(s)
                && s@ == component_id@
        }),
{
    proof {
        reveal_strlit("event_type");
        reveal_strlit("component_id");
        reveal_with_fuel(obj_get, 4);
        assert("event_type"@.len() == 10);
        assert("component_id"@.len() == 12);
    }
    let mut fields: Vec<(String, JsonValue)> = Vec::new();
    fields.push(("event_type".to_owned(), JsonValue::Str(event_type.to_owned())));
    fields.push(("component_id".to_owned(), JsonValue::Str(component_id.to_owned())));
    append_object_fields(&mut fields, details);
    proof {
        let fs = fields@;
        assert(fs.drop_first()[0] == fs[1]);
        assert(obj_get(fs, "event_type"@) == Some(fs[0].1));
        assert(obj_get(fs, "component_id"@) == Some(fs[1].1));
    }
    JsonValue::Obj(fields)
}

/// Appends the fields of an object value; any other value adds nothing.
fn append_object_fields(fields: &mut Vec<(String, JsonValue)>, extra: JsonValue)
    ensures
        final(fields)@.len() >= old(fields)@.len(),
        forall|i: int|
            0 <= i < old(fields)@.len() ==> #[trigger] final(fields)@[i] == old(fields)@[i],
{
    match extra {
        JsonValue::Obj(items) => {
            let mut items = items;
            while items.len() > 0
                invariant
                    fields@.len() >= old(fields)@.len(),
                    forall|i: int|
                        0 <= i < old(fields)@.len() ==> #[trigger] fields@[i] == old(fields)@[i],
                decreases items@.len(),
            {
                let kv = items.remove(0);
                fields.push(kv);
            }
        },
        _ => {},
    }
}

} // verus!
