//! A tagged representation of JSON argument values.
//!
//! Tool arguments arrive as schema-at-runtime JSON. The dispatcher reasons
//! about them through this tagged form: nesting depth, collection sizes and
//! the length of the compact serialized text are all defined here, so the
//! input hygiene limits are exact statements about a value rather than about
//! a library's private encoder.

use vstd::prelude::*;

verus! {

/// A JSON value as the dispatcher sees tool arguments.
pub enum JsonValue {
    /// `null`.
    Null,
    /// `true` or `false`.
    Bool(bool),
    /// A number, kept as its literal text.
    Num(String),
    /// A string.
    Str(String),
    /// An array.
    Arr(Vec<JsonValue>),
    /// An object as an ordered list of key/value pairs.
    Obj(Vec<(String, JsonValue)>),
}

/// The nesting depth of a value: scalars sit at depth zero, every array or
/// object level adds one.
pub open spec fn json_depth(v: JsonValue) -> nat
    decreases v,
{
    match v {
        JsonValue::Arr(a) => 1 + json_depth_seq(a@),
        JsonValue::Obj(o) => 1 + json_depth_fields(o@),
        _ => 0,
    }
}

/// The greatest depth among the values of `s`, zero when empty.
pub open spec fn json_depth_seq(s: Seq<JsonValue>) -> nat
    decreases s,
{
    if s.len() == 0 {
        0
    } else {
        let d0 = json_depth(s.last());
        let dr = json_depth_seq(s.drop_last());
        if d0 >= dr {
            d0
        } else {
            dr
        }
    }
}

/// The greatest depth among the values of the fields of `s`, zero when empty.
pub open spec fn json_depth_fields(s: Seq<(String, JsonValue)>) -> nat
    decreases s,
{
    if s.len() == 0 {
        0
    } else {
        let d0 = json_depth(s.last().1);
        let dr = json_depth_fields(s.drop_last());
        if d0 >= dr {
            d0
        } else {
            dr
        }
    }
}

/// The depth of a sequence exceeds `d` exactly when one of its values does.
pub proof fn lemma_depth_seq_gt(s: Seq<JsonValue>, d: int)
    requires
        d >= 0,
    ensures
        json_depth_seq(s) > d <==> exists|i: int|
            0 <= i < s.len() && json_depth(#[trigger] s[i]) > d,
    decreases s,
{
    if s.len() > 0 {
        lemma_depth_seq_gt(s.drop_last(), d);
        if json_depth(s.last()) > d {
            assert(json_depth(s[s.len() - 1]) > d);
            assert(json_depth_seq(s) > d);
        } else if exists|i: int| 0 <= i < s.drop_last().len() && json_depth(
            #[trigger] s.drop_last()[i],
        ) > d {
            let i = choose|i: int|
                0 <= i < s.drop_last().len() && json_depth(#[trigger] s.drop_last()[i]) > d;
            assert(json_depth(s[i]) > d) by {
                assert(s[i] == s.drop_last()[i]);
            }
            assert(json_depth_seq(s) > d);
        } else {
            assert(!(json_depth_seq(s) > d));
            assert forall|i: int| 0 <= i < s.len() implies !(json_depth(#[trigger] s[i]) > d) by {
                if i < s.len() - 1 {
                    assert(s.drop_last()[i] == s[i]);
                } else {
                    assert(s[i] == s.last());
                }
            }
        }
    }
}

/// The depth of a field sequence exceeds `d` exactly when one of its values
/// does.
pub proof fn lemma_depth_fields_gt(s: Seq<(String, JsonValue)>, d: int)
    requires
        d >= 0,
    ensures
        json_depth_fields(s) > d <==> exists|i: int|
            0 <= i < s.len() && json_depth(#[trigger] s[i].1) > d,
    decreases s,
{
    if s.len() > 0 {
        lemma_depth_fields_gt(s.drop_last(), d);
        if json_depth(s.last().1) > d {
            assert(json_depth(s[s.len() - 1].1) > d);
            assert(json_depth_fields(s) > d);
        } else if exists|i: int| 0 <= i < s.drop_last().len() && json_depth(
            #[trigger] s.drop_last()[i].1,
        ) > d {
            let i = choose|i: int|
                0 <= i < s.drop_last().len() && json_depth(#[trigger] s.drop_last()[i].1) > d;
            assert(json_depth(s[i].1) > d) by {
                assert(s[i] == s.drop_last()[i]);
            }
            assert(json_depth_fields(s) > d);
        } else {
            assert(!(json_depth_fields(s) > d));
            assert forall|i: int| 0 <= i < s.len() implies !(json_depth(#[trigger] s[i].1) > d) by {
                if i < s.len() - 1 {
                    assert(s.drop_last()[i] == s[i]);
                } else {
                    assert(s[i] == s.last());
                }
            }
        }
    }
}

/// Whether the depth of `v` exceeds `limit`.
#[verifier::loop_isolation(false)]
pub fn json_depth_gt(v: &JsonValue, limit: usize) -> (r: bool)
    ensures
        r == (json_depth(*v) > limit),
    decreases *v,
{
    match v {
        JsonValue::Arr(a) => {
            if limit == 0 {
                return true;
            }
            let n = a.len();
            for i in 0..n
                invariant
                    n == a@.len(),
                    limit >= 1,
                    forall|j: int| 0 <= j < i ==> !(json_depth(#[trigger] a@[j]) > limit - 1),
            {
                proof {
                    assert(*v == JsonValue::Arr(*a));
                    assert(decreases_to!(*v => v->Arr_0));
                    assert(decreases_to!(v->Arr_0 => v->Arr_0@));
                    assert(decreases_to!(v->Arr_0@ => v->Arr_0@[i as int]));
                    assert(v->Arr_0@[i as int] == a@[i as int]);
                    assert(decreases_to!(*v => a@[i as int]));
                }
                if json_depth_gt(&a[i], limit - 1) {
                    proof {
                        lemma_depth_seq_gt(a@, limit - 1);
                    }
                    return true;
                }
            }
            proof {
                lemma_depth_seq_gt(a@, limit - 1);
            }
            false
        },
        JsonValue::Obj(o) => {
            if limit == 0 {
                return true;
            }
            let n = o.len();
            for i in 0..n
                invariant
                    n == o@.len(),
                    limit >= 1,
                    forall|j: int| 0 <= j < i ==> !(json_depth(#[trigger] o@[j].1) > limit - 1),
            {
                proof {
                    assert(*v == JsonValue::Obj(*o));
                    assert(decreases_to!(*v => v->Obj_0));
                    assert(decreases_to!(v->Obj_0 => v->Obj_0@));
                    assert(decreases_to!(v->Obj_0@ => v->Obj_0@[i as int]));
                    assert(decreases_to!(v->Obj_0@[i as int] => v->Obj_0@[i as int].1));
                    assert(v->Obj_0@[i as int].1 == o@[i as int].1);
                    assert(decreases_to!(*v => o@[i as int].1));
                }
                if json_depth_gt(&o[i].1, limit - 1) {
                    proof {
                        lemma_depth_fields_gt(o@, limit - 1);
                    }
                    return true;
                }
            }
            proof {
                lemma_depth_fields_gt(o@, limit - 1);
            }
            false
        },
        _ => false,
    }
}

/// Every array and object in `v` holds at most `max` elements.
pub open spec fn json_sizes_ok(v: JsonValue, max: int) -> bool
    decreases v,
{
    match v {
        JsonValue::Arr(a) => a@.len() <= max && (forall|i: int|
            0 <= i < a@.len() ==> json_sizes_ok(#[trigger] a@[i], max)),
        JsonValue::Obj(o) => o@.len() <= max && (forall|i: int|
            0 <= i < o@.len() ==> json_sizes_ok(#[trigger] o@[i].1, max)),
        _ => true,
    }
}

/// Whether every collection in `v` respects the size cap.
#[verifier::loop_isolation(false)]
pub fn check_json_sizes(v: &JsonValue, max: usize) -> (r: bool)
    ensures
        r == json_sizes_ok(*v, max as int),
    decreases *v,
{
    match v {
        JsonValue::Arr(a) => {
            let n = a.len();
            if n > max {
                return false;
            }
            for i in 0..n
                invariant
                    n == a@.len(),
                    n <= max,
                    forall|j: int| 0 <= j < i ==> json_sizes_ok(#[trigger] a@[j], max as int),
            {
                proof {
                    assert(*v == JsonValue::Arr(*a));
                    assert(decreases_to!(*v => v->Arr_0));
                    assert(decreases_to!(v->Arr_0 => v->Arr_0@));
                    assert(decreases_to!(v->Arr_0@ => v->Arr_0@[i as int]));
                    assert(v->Arr_0@[i as int] == a@[i as int]);
                    assert(decreases_to!(*v => a@[i as int]));
                }
                if !check_json_sizes(&a[i], max) {
                    return false;
                }
            }
            true
        },
        JsonValue::Obj(o) => {
            let n = o.len();
            if n > max {
                return false;
            }
            for i in 0..n
                invariant
                    n == o@.len(),
                    n <= max,
                    forall|j: int| 0 <= j < i ==> json_sizes_ok(#[trigger] o@[j].1, max as int),
            {
                proof {
                    assert(*v == JsonValue::Obj(*o));
                    assert(decreases_to!(*v => v->Obj_0));
                    assert(decreases_to!(v->Obj_0 => v->Obj_0@));
                    assert(decreases_to!(v->Obj_0@ => v->Obj_0@[i as int]));
                    assert(decreases_to!(v->Obj_0@[i as int] => v->Obj_0@[i as int].1));
                    assert(v->Obj_0@[i as int].1 == o@[i as int].1);
                    assert(decreases_to!(*v => o@[i as int].1));
                }
                if !check_json_sizes(&o[i].1, max) {
                    return false;
                }
            }
            true
        },
        _ => true,
    }
}

/// The serialized length of one string character inside double quotes:
/// quote and backslash take an escape pair, the short-escape control
/// characters too, the remaining control characters a six-character escape,
/// and everything else its UTF-8 width.
pub open spec fn esc_len(c: char) -> nat {
    if c == '"' || c == '\\' {
        2
    } else if c == '\u{8}' || c == '\t' || c == '\n' || c == '\u{c}' || c == '\r' {
        2
    } else if (c as u32) < 0x20 {
        6
    } else if (c as u32) < 0x80 {
        1
    } else if (c as u32) < 0x800 {
        2
    } else if (c as u32) < 0x10000 {
        3
    } else {
        4
    }
}

/// The summed serialized length of a string body.
pub open spec fn esc_sum(s: Seq<char>) -> nat
    decreases s,
{
    if s.len() == 0 {
        0
    } else {
        esc_sum(s.drop_last()) + esc_len(s.last())
    }
}

/// The length in bytes of the compact JSON text of `v`.
pub open spec fn json_len(v: JsonValue) -> nat
    decreases v,
{
    match v {
        JsonValue::Null => 4,
        JsonValue::Bool(b) => if b {
            4
        } else {
            5
        },
        JsonValue::Num(s) => s@.len(),
        JsonValue::Str(s) => 2 + esc_sum(s@),
        JsonValue::Arr(a) => if a@.len() == 0 {
            2
        } else {
            1 + a@.len() + json_len_seq(a@)
        },
        JsonValue::Obj(o) => if o@.len() == 0 {
            2
        } else {
            1 + o@.len() + json_len_fields(o@)
        },
    }
}

/// The summed serialized length of array elements.
pub open spec fn json_len_seq(s: Seq<JsonValue>) -> nat
    decreases s,
{
    if s.len() == 0 {
        0
    } else {
        json_len_seq(s.drop_last()) + json_len(s.last())
    }
}

/// The summed serialized length of object fields, a quoted key, a colon and
/// a value each.
pub open spec fn json_len_fields(s: Seq<(String, JsonValue)>) -> nat
    decreases s,
{
    if s.len() == 0 {
        0
    } else {
        json_len_fields(s.drop_last()) + 3 + esc_sum(s.last().0@) + json_len(s.last().1)
    }
}

/// `min(a + b, cap)` on capped operands.
fn add_capped(a: u64, b: u64, cap: u64) -> (r: u64)
    requires
        a <= cap,
        b <= cap,
    ensures
        r == if a + b <= cap {
            a + b
        } else {
            cap as int
        },
{
    if b <= cap - a {
        a + b
    } else {
        cap
    }
}

/// `min(n, cap)`.
fn min_capped(n: u64, cap: u64) -> (r: u64)
    ensures
        r == if n <= cap {
            n as int
        } else {
            cap as int
        },
{
    if n <= cap {
        n
    } else {
        cap
    }
}

/// The serialized length of one character (executable form).
fn esc_len_exec(c: char) -> (r: u64)
    ensures
        r == esc_len(c),
{
    let u = c as u32;
    if c == '"' || c == '\\' {
        2
    } else if u == 0x8 || u == 0x9 || u == 0xa || u == 0xc || u == 0xd {
        proof {
            vstd::utf8::char_u32_cast(c, u);
        }
        2
    } else if u < 0x20 {
        6
    } else if u < 0x80 {
        1
    } else if u < 0x800 {
        2
    } else if u < 0x10000 {
        3
    } else {
        4
    }
}

/// The serialized length of the body of string `s`, capped at `cap`.
fn esc_sum_capped(s: &str, cap: u64) -> (r: u64)
    ensures
        r == if esc_sum(s@) <= cap {
            esc_sum(s@) as int
        } else {
            cap as int
        },
{
    let chars = crate::text::str_to_chars(s);
    let n = chars.len();
    let mut acc: u64 = 0;
    for i in 0..n
        invariant
            n == chars@.len(),
            chars@ == s@,
            acc == if esc_sum(s@.subrange(0, i as int)) <= cap {
                esc_sum(s@.subrange(0, i as int)) as int
            } else {
                cap as int
            },
    {
        let e = esc_len_exec(chars[i]);
        proof {
            let pre = s@.subrange(0, i as int);
            let cur = s@.subrange(0, i + 1);
            assert(cur.drop_last() =~= pre);
            assert(cur.last() == s@[i as int]);
        }
        let e_capped = min_capped(e, cap);
        acc = add_capped(acc, e_capped, cap);
    }
    proof {
        assert(s@.subrange(0, s@.len() as int) =~= s@);
    }
    acc
}

/// The length of the compact JSON text of `v`, capped at `cap`.
///
/// The cap makes the computation immune to overflow on adversarially deep or
/// wide values; callers compare against a limit below the cap.
#[verifier::rlimit(60)]
#[verifier::loop_isolation(false)]
pub fn json_len_capped(v: &JsonValue, cap: u64) -> (r: u64)
    ensures
        r == if json_len(*v) <= cap {
            json_len(*v) as int
        } else {
            cap as int
        },
    decreases *v,
{
    match v {
        JsonValue::Null => min_capped(4, cap),
        JsonValue::Bool(b) => if *b {
            min_capped(4, cap)
        } else {
            min_capped(5, cap)
        },
        JsonValue::Num(s) => {
            let n = s.as_str().unicode_len();
            min_capped(n as u64, cap)
        },
        JsonValue::Str(s) => {
            let body = esc_sum_capped(s.as_str(), cap);
            add_capped(min_capped(2, cap), body, cap)
        },
        JsonValue::Arr(a) => {
            let n = a.len();
            if n == 0 {
                return min_capped(2, cap);
            }
            let mut acc: u64 = add_capped(min_capped(1, cap), min_capped(n as u64, cap), cap);
            proof {
                assert(acc == if 1 + n <= cap {
                    1 + n as int
                } else {
                    cap as int
                });
            }
            for i in 0..n
                invariant
                    n == a@.len(),
                    1 <= n,
                    acc == if 1 + n + json_len_seq(a@.subrange(0, i as int)) <= cap {
                        1 + n + json_len_seq(a@.subrange(0, i as int))
                    } else {
                        cap as int
                    },
            {
                proof {
                    assert(*v == JsonValue::Arr(*a));
                    assert(decreases_to!(*v => v->Arr_0));
                    assert(decreases_to!(v->Arr_0 => v->Arr_0@));
                    assert(decreases_to!(v->Arr_0@ => v->Arr_0@[i as int]));
                    assert(v->Arr_0@[i as int] == a@[i as int]);
                    assert(decreases_to!(*v => a@[i as int]));
                }
                let c = json_len_capped(&a[i], cap);
                proof {
                    let pre = a@.subrange(0, i as int);
                    let cur = a@.subrange(0, i + 1);
                    assert(cur.drop_last() =~= pre);
                    assert(cur.last() == a@[i as int]);
                }
                acc = add_capped(acc, c, cap);
            }
            proof {
                assert(a@.subrange(0, a@.len() as int) =~= a@);
            }
            acc
        },
        JsonValue::Obj(o) => {
            let n = o.len();
            if n == 0 {
                return min_capped(2, cap);
            }
            let mut acc: u64 = add_capped(min_capped(1, cap), min_capped(n as u64, cap), cap);
            for i in 0..n
                invariant
                    n == o@.len(),
                    1 <= n,
                    acc == if 1 + n + json_len_fields(o@.subrange(0, i as int)) <= cap {
                        1 + n + json_len_fields(o@.subrange(0, i as int))
                    } else {
                        cap as int
                    },
            {
                let key_body = esc_sum_capped(o[i].0.as_str(), cap);
                proof {
                    assert(*v == JsonValue::Obj(*o));
                    assert(decreases_to!(*v => v->Obj_0));
                    assert(decreases_to!(v->Obj_0 => v->Obj_0@));
                    assert(decreases_to!(v->Obj_0@ => v->Obj_0@[i as int]));
                    assert(decreases_to!(v->Obj_0@[i as int] => v->Obj_0@[i as int].1));
                    assert(v->Obj_0@[i as int].1 == o@[i as int].1);
                    assert(decreases_to!(*v => o@[i as int].1));
                }
                let val_len = json_len_capped(&o[i].1, cap);
                let field = add_capped(add_capped(min_capped(3, cap), key_body, cap), val_len, cap);
                proof {
                    let pre = o@.subrange(0, i as int);
                    let cur = o@.subrange(0, i + 1);
                    assert(cur.drop_last() =~= pre);
                    assert(cur.last() == o@[i as int]);
                }
                acc = add_capped(acc, field, cap);
            }
            proof {
                assert(o@.subrange(0, o@.len() as int) =~= o@);
            }
            acc
        },
    }
}

/// The value of the first field named `key`, if any.
pub open spec fn obj_get(fields: Seq<(String, JsonValue)>, key: Seq<char>) -> Option<JsonValue>
    decreases fields,
{
    if fields.len() == 0 {
        None
    } else if fields[0].0@ == key {
        Some(fields[0].1)
    } else {
        obj_get(fields.drop_first(), key)
    }
}

impl JsonValue {
    /// Looks a field up by key on an object; `None` on other values and on
    /// missing keys.
    #[verifier::loop_isolation(false)]
    pub fn get(&self, key: &str) -> (r: Option<&JsonValue>)
        ensures
            match *self {
                JsonValue::Obj(o) => match r {
                    Some(v) => obj_get(o@, key@) == Some(*v),
                    None => obj_get(o@, key@) is None,
                },
                _ => r is None,
            },
    {
        match self {
            JsonValue::Obj(o) => {
                let key_owned = key.to_owned();
                let n = o.len();
                proof {
                    assert(o@.subrange(0, n as int) =~= o@);
                }
                for i in 0..n
                    invariant
                        n == o@.len(),
                        key_owned@ == key@,
                        forall|j: int| 0 <= j < i ==> #[trigger] o@[j].0@ != key@,
                        obj_get(o@, key@) == obj_get(o@.subrange(i as int, n as int), key@),
                {
                    proof {
                        let rest = o@.subrange(i as int, n as int);
                        assert(rest[0] == o@[i as int]);
                        assert(rest.drop_first() =~= o@.subrange(i + 1, n as int));
                    }
                    if o[i].0 == key_owned {
                        proof {
                            let rest = o@.subrange(i as int, n as int);
                            assert(rest[0].0@ == key@);
                            assert(obj_get(rest, key@) == Some(rest[0].1));
                            assert(rest[0].1 == o@[i as int].1);
                        }
                        return Some(&o[i].1);
                    }
                }
                proof {
                    assert(o@.subrange(n as int, n as int).len() == 0);
                    assert(obj_get(o@.subrange(n as int, n as int), key@) is None);
                }
                None
            },
            _ => None,
        }
    }

    /// The string content, when the value is a string.
    pub fn as_str(&self) -> (r: Option<&String>)
        ensures
            match *self {
                JsonValue::Str(s) => r == Some(&s),
                _ => r is None,
            },
    {
        match self {
            JsonValue::Str(s) => Some(s),
            _ => None,
        }
    }

    /// The literal text, when the value is a number.
    pub fn as_num(&self) -> (r: Option<&String>)
        ensures
            match *self {
                JsonValue::Num(s) => r == Some(&s),
                _ => r is None,
            },
    {
        match self {
            JsonValue::Num(s) => Some(s),
            _ => None,
        }
    }

    /// The boolean, when the value is one.
    pub fn as_bool(&self) -> (r: Option<bool>)
        ensures
            match *self {
                JsonValue::Bool(b) => r == Some(b),
                _ => r is None,
            },
    {
        match self {
            JsonValue::Bool(b) => Some(*b),
            _ => None,
        }
    }
}

} // verus!
