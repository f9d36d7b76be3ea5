//! Request hygiene and rate limiting for the tool dispatcher.
//!
//! Incoming tool calls pass three gates before they reach a component: the
//! tool name is checked against a conservative grammar, the argument value is
//! checked for size, nesting depth and suspicious content, and the caller's
//! token bucket is debited. Outputs are scrubbed of control characters before
//! they are returned to the client.

use vstd::prelude::*;

use vstd::string::StringSliceAdditionalSpecFns;

use crate::errors::ErrorKind;
use crate::json::{
    check_json_sizes, json_depth, json_depth_gt, json_len, json_len_capped, json_sizes_ok,
    JsonValue,
};
use crate::text::{
    ascii_alphanumeric, ascii_lower, chars_to_string, contains_seq, control_char, find_sub,
    is_ascii_digit, is_ascii_letter, is_control_char, is_kept_output_char, str_to_chars,
};

verus! {

/// Maximum serialized size of tool input parameters, in bytes.
pub const MAX_INPUT_SIZE: usize = 1048576;

/// Maximum size of tool output, in bytes.
pub const MAX_OUTPUT_SIZE: usize = 10485760;

/// Maximum nesting depth of argument values.
pub const MAX_JSON_DEPTH: usize = 32;

/// Maximum number of elements in one array or object.
pub const MAX_COLLECTION_SIZE: usize = 10000;

/// Default rate limit: requests per minute for one client.
pub const DEFAULT_RATE_LIMIT: u32 = 100;

/// Input validation configuration.
#[derive(Debug, Clone)]
pub struct ValidationConfig {
    /// Maximum serialized input size in bytes.
    pub max_input_size: usize,
    /// Maximum nesting depth of argument values.
    pub max_depth: usize,
    /// Maximum number of elements in one array or object.
    pub max_collection_size: usize,
    /// Whether string content is screened for suspicious patterns.
    pub strict_mode: bool,
}

impl Default for ValidationConfig {
    /// The default configuration: 1 MiB inputs, depth 32, collections of at
    /// most 10000 elements, strict screening on.
    fn default() -> (r: Self)
        ensures
            r.max_input_size == MAX_INPUT_SIZE,
            r.max_depth == MAX_JSON_DEPTH,
            r.max_collection_size == MAX_COLLECTION_SIZE,
            r.strict_mode,
    {
        ValidationConfig {
            max_input_size: MAX_INPUT_SIZE,
            max_depth: MAX_JSON_DEPTH,
            max_collection_size: MAX_COLLECTION_SIZE,
            strict_mode: true,
        }
    }
}

/// A character allowed in a tool name: ASCII letters, digits, hyphen,
/// underscore and dot.
pub open spec fn is_tool_name_char(c: char) -> bool {
    is_ascii_letter(c) || is_ascii_digit(c) || c == '-' || c == '_' || c == '.'
}

/// A safe tool name: non-empty, at most 256 characters, drawn from the tool
/// name alphabet, free of `..`, and not beginning with a dot or a slash.
pub open spec fn valid_tool_name(s: Seq<char>) -> bool {
    &&& 0 < s.len() <= 256
    &&& forall|i: int| 0 <= i < s.len() ==> is_tool_name_char(#[trigger] s[i])
    &&& !contains_seq(s, ".."@)
    &&& s[0] != '.'
    &&& s[0] != '/'
}

/// Validates that a tool name is safe to route on.
///
/// Every name the grammar of [`valid_tool_name`] accepts is accepted; every
/// other name is rejected as [`ErrorKind::InvalidInput`]. In particular a
/// name containing `..` or starting with `.` or `/` can never reach the
/// component path lookup.
pub fn validate_tool_name(name: &str) -> (r: Result<(), ErrorKind>)
    ensures
        r is Ok <==> valid_tool_name(name@),
        r is Err ==> r->Err_0 == ErrorKind::InvalidInput,
{
    let chars = str_to_chars(name);
    let n = chars.len();
    if n == 0 || n > 256 {
        return Err(ErrorKind::InvalidInput);
    }
    for i in 0..n
        invariant
            n == chars@.len(),
            chars@ == name@,
            forall|j: int| 0 <= j < i ==> is_tool_name_char(#[trigger] name@[j]),
    {
        let c = chars[i];
        if !(ascii_alphanumeric(c) || c == '-' || c == '_' || c == '.') {
            return Err(ErrorKind::InvalidInput);
        }
    }
    let dotdot = str_to_chars("..");
    proof {
        reveal_strlit("..");
    }
    if find_sub(&chars, &dotdot, false) {
        return Err(ErrorKind::InvalidInput);
    }
    let first = chars[0];
    if first == '.' || first == '/' {
        return Err(ErrorKind::InvalidInput);
    }
    Ok(())
}

/// What output sanitization keeps: the subsequence of characters that are not
/// control characters, newline, carriage return and tab excepted.
pub open spec fn scrubbed(s: Seq<char>) -> Seq<char>
    decreases s.len(),
{
    if s.len() == 0 {
        Seq::empty()
    } else if is_kept_output_char(s.last()) {
        scrubbed(s.drop_last()).push(s.last())
    } else {
        scrubbed(s.drop_last())
    }
}

/// Sanitizes tool output before it is returned to the client.
///
/// Output larger than [`MAX_OUTPUT_SIZE`] bytes is rejected as
/// [`ErrorKind::InvalidInput`]; otherwise the result is the input with the
/// NUL character and every other control character removed, newline,
/// carriage return and tab excepted.
pub fn sanitize_tool_output(output: &str) -> (r: Result<String, ErrorKind>)
    ensures
        r is Ok <==> output.spec_bytes().len() as usize <= MAX_OUTPUT_SIZE,
        r is Ok ==> r->Ok_0@ == scrubbed(output@),
        r is Err ==> r->Err_0 == ErrorKind::InvalidInput,
{
    if output.len() > MAX_OUTPUT_SIZE {
        return Err(ErrorKind::InvalidInput);
    }
    let chars = str_to_chars(output);
    let n = chars.len();
    let mut kept: Vec<char> = Vec::new();
    for i in 0..n
        invariant
            n == chars@.len(),
            chars@ == output@,
            kept@ == scrubbed(output@.subrange(0, i as int)),
    {
        let c = chars[i];
        proof {
            let pre = output@.subrange(0, i as int);
            let cur = output@.subrange(0, i + 1);
            assert(cur.drop_last() =~= pre);
            assert(cur.last() == output@[i as int]);
        }
        if !control_char(c) || c == '\n' || c == '\r' || c == '\t' {
            kept.push(c);
        }
    }
    proof {
        assert(output@.subrange(0, output@.len() as int) =~= output@);
    }
    Ok(chars_to_string(&kept))
}

/// The number of control characters in `s`.
pub open spec fn control_count(s: Seq<char>) -> nat
    decreases s.len(),
{
    if s.len() == 0 {
        0
    } else if is_control_char(s.last()) && s.last() != '\n' && s.last() != '\r' && s.last() != '\t' {
        control_count(s.drop_last()) + 1
    } else {
        control_count(s.drop_last())
    }
}

/// The fixed list of injection-suspicious substrings screened for in strict
/// mode, matched case-insensitively.
pub open spec fn dangerous_patterns() -> Seq<Seq<char>> {
    seq![
        "<script"@,
        "</script>"@,
        "javascript:"@,
        "data:text/html"@,
        "vbscript:"@,
        "onload="@,
        "onerror="@,
        "eval("@,
        "__proto__"@,
        "constructor"@,
        "prototype"@,
    ]
}

/// Whether the ASCII lowering of `s` contains one of the suspicious
/// substrings.
pub open spec fn has_dangerous_pattern(s: Seq<char>) -> bool {
    exists|i: int|
        0 <= i < dangerous_patterns().len() && contains_seq(
            ascii_lower(s),
            #[trigger] dangerous_patterns()[i],
        )
}

/// Acceptable string content under a configuration. NUL is rejected in
/// every mode; strict mode additionally caps control characters at a tenth
/// of the length and bans the suspicious substrings from the string's ASCII
/// lowering.
pub open spec fn string_content_ok(s: Seq<char>, strict: bool) -> bool {
    &&& !s.contains('\0')
    &&& strict ==> {
        &&& control_count(s) <= s.len() / 10
        &&& !has_dangerous_pattern(s)
    }
}

/// Validates string content against the injection screen.
///
/// Accepts exactly the strings [`string_content_ok`] accepts for the
/// configuration's strict flag; rejections are [`ErrorKind::InvalidInput`].
pub fn validate_string_content(s: &str, config: &ValidationConfig) -> (r: Result<(), ErrorKind>)
    ensures
        r is Ok <==> string_content_ok(s@, config.strict_mode),
        r is Err ==> r->Err_0 == ErrorKind::InvalidInput,
{
    let chars = str_to_chars(s);
    validate_string_chars(&chars, config.strict_mode)
}

/// Validates already-decoded string content.
pub fn validate_string_chars(chars: &Vec<char>, strict: bool) -> (r: Result<(), ErrorKind>)
    ensures
        r is Ok <==> string_content_ok(chars@, strict),
        r is Err ==> r->Err_0 == ErrorKind::InvalidInput,
{
    let n = chars.len();
    let mut controls: usize = 0;
    for i in 0..n
        invariant
            n == chars@.len(),
            controls == control_count(chars@.subrange(0, i as int)),
            controls <= i,
            forall|j: int| 0 <= j < i ==> chars@[j] != '\0',
    {
        let c = chars[i];
        proof {
            let pre = chars@.subrange(0, i as int);
            let cur = chars@.subrange(0, i + 1);
            assert(cur.drop_last() =~= pre);
            assert(cur.last() == chars@[i as int]);
        }
        if c == '\0' {
            proof {
                assert(chars@.contains('\0'));
            }
            return Err(ErrorKind::InvalidInput);
        }
        if control_char(c) && c != '\n' && c != '\r' && c != '\t' {
            controls = controls + 1;
        }
    }
    proof {
        assert(chars@.subrange(0, n as int) =~= chars@);
        assert(!chars@.contains('\0')) by {
            if chars@.contains('\0') {
                let j = choose|j: int| 0 <= j < chars@.len() && chars@[j] == '\0';
                assert(false);
            }
        }
    }
    if strict {
        if controls > n / 10 {
            return Err(ErrorKind::InvalidInput);
        }
        if scan_dangerous(chars) {
            return Err(ErrorKind::InvalidInput);
        }
    }
    Ok(())
}

/// Scans for the suspicious substrings, case-insensitively.
fn scan_dangerous(chars: &Vec<char>) -> (r: bool)
    ensures
        r == has_dangerous_pattern(chars@),
{
    proof {
        reveal_strlit("<script");
        reveal_strlit("</script>");
        reveal_strlit("javascript:");
        reveal_strlit("data:text/html");
        reveal_strlit("vbscript:");
        reveal_strlit("onload=");
        reveal_strlit("onerror=");
        reveal_strlit("eval(");
        reveal_strlit("__proto__");
        reveal_strlit("constructor");
        reveal_strlit("prototype");
    }
    let p0 = str_to_chars("<script");
    let p1 = str_to_chars("</script>");
    let p2 = str_to_chars("javascript:");
    let p3 = str_to_chars("data:text/html");
    let p4 = str_to_chars("vbscript:");
    let p5 = str_to_chars("onload=");
    let p6 = str_to_chars("onerror=");
    let p7 = str_to_chars("eval(");
    let p8 = str_to_chars("__proto__");
    let p9 = str_to_chars("constructor");
    let p10 = str_to_chars("prototype");
    let r = find_sub(chars, &p0, true) || find_sub(chars, &p1, true) || find_sub(chars, &p2, true)
        || find_sub(chars, &p3, true) || find_sub(chars, &p4, true) || find_sub(chars, &p5, true)
        || find_sub(chars, &p6, true) || find_sub(chars, &p7, true) || find_sub(chars, &p8, true)
        || find_sub(chars, &p9, true) || find_sub(chars, &p10, true);
    proof {
        if r {
            assert(has_dangerous_pattern(chars@)) by {
                if contains_seq(ascii_lower(chars@), "<script"@) {
                    assert(dangerous_patterns()[0] == "<script"@);
                } else if contains_seq(ascii_lower(chars@), "</script>"@) {
                    assert(dangerous_patterns()[1] == "</script>"@);
                } else if contains_seq(ascii_lower(chars@), "javascript:"@) {
                    assert(dangerous_patterns()[2] == "javascript:"@);
                } else if contains_seq(ascii_lower(chars@), "data:text/html"@) {
                    assert(dangerous_patterns()[3] == "data:text/html"@);
                } else if contains_seq(ascii_lower(chars@), "vbscript:"@) {
                    assert(dangerous_patterns()[4] == "vbscript:"@);
                } else if contains_seq(ascii_lower(chars@), "onload="@) {
                    assert(dangerous_patterns()[5] == "onload="@);
                } else if contains_seq(ascii_lower(chars@), "onerror="@) {
                    assert(dangerous_patterns()[6] == "onerror="@);
                } else if contains_seq(ascii_lower(chars@), "eval("@) {
                    assert(dangerous_patterns()[7] == "eval("@);
                } else if contains_seq(ascii_lower(chars@), "__proto__"@) {
                    assert(dangerous_patterns()[8] == "__proto__"@);
                } else if contains_seq(ascii_lower(chars@), "constructor"@) {
                    assert(dangerous_patterns()[9] == "constructor"@);
                } else {
                    assert(dangerous_patterns()[10] == "prototype"@);
                }
            }
        } else {
            assert(!has_dangerous_pattern(chars@)) by {
                assert forall|i: int|
                    0 <= i < dangerous_patterns().len() implies !contains_seq(
                    ascii_lower(chars@),
                    #[trigger] dangerous_patterns()[i],
                ) by {
                    if i == 0 {
                        assert(dangerous_patterns()[0] == "<script"@);
                    } else if i == 1 {
                        assert(dangerous_patterns()[1] == "</script>"@);
                    } else if i == 2 {
                        assert(dangerous_patterns()[2] == "javascript:"@);
                    } else if i == 3 {
                        assert(dangerous_patterns()[3] == "data:text/html"@);
                    } else if i == 4 {
                        assert(dangerous_patterns()[4] == "vbscript:"@);
                    } else if i == 5 {
                        assert(dangerous_patterns()[5] == "onload="@);
                    } else if i == 6 {
                        assert(dangerous_patterns()[6] == "onerror="@);
                    } else if i == 7 {
                        assert(dangerous_patterns()[7] == "eval("@);
                    } else if i == 8 {
                        assert(dangerous_patterns()[8] == "__proto__"@);
                    } else if i == 9 {
                        assert(dangerous_patterns()[9] == "constructor"@);
                    } else {
                        assert(dangerous_patterns()[10] == "prototype"@);
                    }
                }
            }
        }
    }
    r
}

/// One client's token bucket.
///
/// Time is a millisecond counter supplied by the embedding process through
/// [`RateLimiter::advance_clock`]; the bucket itself never reads a clock.
#[derive(Debug, Clone, Copy, PartialEq, Eq, Structural)]
pub struct RateLimitBucket {
    /// Tokens currently available.
    pub tokens: u32,
    /// The clock value at which the bucket last gained tokens.
    pub last_refill_ms: u64,
    /// The capacity of the bucket.
    pub max_tokens: u32,
    /// Tokens regained per minute.
    pub refill_rate: u32,
}

impl RateLimitBucket {
    /// A bucket never holds more than its capacity.
    pub open spec fn wf(&self) -> bool {
        self.tokens <= self.max_tokens
    }
}

/// The tokens a bucket regains after `elapsed` milliseconds at `rate`
/// tokens per minute: proportional to `rate / 60` per second, in exact
/// integer arithmetic.
pub open spec fn spec_tokens_gained(elapsed: int, rate: int) -> int {
    elapsed * rate / 60000
}

/// The bucket after a refill at clock value `now`.
pub open spec fn spec_refill(b: RateLimitBucket, now: u64) -> RateLimitBucket {
    let elapsed: int = if now >= b.last_refill_ms {
        now - b.last_refill_ms
    } else {
        0
    };
    let gained = spec_tokens_gained(elapsed, b.refill_rate as int);
    if gained > 0 {
        RateLimitBucket {
            tokens: if b.tokens + gained > b.max_tokens {
                b.max_tokens
            } else {
                (b.tokens + gained) as u32
            },
            last_refill_ms: now,
            ..b
        }
    } else {
        b
    }
}

/// The bucket after trying to take `tokens` at clock value `now`, and whether
/// the take succeeded.
pub open spec fn spec_try_consume(b: RateLimitBucket, tokens: u32, now: u64) -> (
    bool,
    RateLimitBucket,
) {
    let refilled = spec_refill(b, now);
    if refilled.tokens >= tokens {
        (true, RateLimitBucket { tokens: (refilled.tokens - tokens) as u32, ..refilled })
    } else {
        (false, refilled)
    }
}

impl RateLimitBucket {
    /// A full bucket created at clock value `now`.
    pub fn new(max_tokens: u32, refill_rate: u32, now: u64) -> (r: Self)
        ensures
            r == (RateLimitBucket {
                tokens: max_tokens,
                last_refill_ms: now,
                max_tokens,
                refill_rate,
            }),
            r.wf(),
    {
        RateLimitBucket { tokens: max_tokens, last_refill_ms: now, max_tokens, refill_rate }
    }

    /// Regains the tokens owed since the last refill, against clock value
    /// `now`.
    pub fn refill(&mut self, now: u64)
        ensures
            *final(self) == spec_refill(*old(self), now),
            old(self).wf() ==> final(self).wf(),
    {
        let elapsed: u64 = if now >= self.last_refill_ms {
            now - self.last_refill_ms
        } else {
            0
        };
        proof {
            assert((elapsed as u128) * (self.refill_rate as u128) <= u128::MAX) by (nonlinear_arith)
                requires
                    elapsed <= u64::MAX,
                    self.refill_rate <= u32::MAX,
            ;
        }
        let gained_wide: u128 = (elapsed as u128) * (self.refill_rate as u128) / 60000;
        proof {
            assert(gained_wide == spec_tokens_gained(elapsed as int, self.refill_rate as int));
        }
        if gained_wide > 0 {
            let total: u128 = (self.tokens as u128) + gained_wide;
            if total > (self.max_tokens as u128) {
                self.tokens = self.max_tokens;
            } else {
                self.tokens = total as u32;
            }
            self.last_refill_ms = now;
        }
    }

    /// Takes `tokens` from the bucket if, after the refill owed at clock
    /// value `now`, enough are available.
    pub fn try_consume(&mut self, tokens: u32, now: u64) -> (r: bool)
        ensures
            (r, *final(self)) == spec_try_consume(*old(self), tokens, now),
            old(self).wf() ==> final(self).wf(),
    {
        self.refill(now);
        if self.tokens >= tokens {
            self.tokens = self.tokens - tokens;
            true
        } else {
            false
        }
    }
}

impl Default for RateLimiter {
    /// A fresh limiter with the default per-minute limit.
    fn default() -> (r: Self)
        ensures
            r.wf(),
            r.buckets_view() == Seq::<(Seq<char>, RateLimitBucket)>::empty(),
            r.default_limit == DEFAULT_RATE_LIMIT,
            r.refill_rate == DEFAULT_RATE_LIMIT,
            r.clock_ms == 0,
    {
        RateLimiter::new(DEFAULT_RATE_LIMIT)
    }
}

/// Looks an entry up in an association sequence by key.
pub open spec fn assoc_find<V>(entries: Seq<(Seq<char>, V)>, key: Seq<char>) -> Option<V>
    decreases entries.len(),
{
    if entries.len() == 0 {
        None
    } else if entries.last().0 == key {
        Some(entries.last().1)
    } else {
        assoc_find(entries.drop_last(), key)
    }
}

/// Rate limiter for tool invocations: one token bucket per client key.
///
/// The embedding process owns the clock: it calls
/// [`RateLimiter::advance_clock`] with the milliseconds that passed since the
/// last call, and every bucket decision is taken against that counter, which
/// keeps the limiter's behaviour a function of its inputs.
#[derive(Debug)]
pub struct RateLimiter {
    /// One bucket per client key; keys are unique under [`RateLimiter::wf`].
    pub buckets: Vec<(String, RateLimitBucket)>,
    /// Bucket capacity handed to new clients.
    pub default_limit: u32,
    /// Tokens regained per minute, the per-minute limit itself.
    pub refill_rate: u32,
    /// The millisecond counter decisions are taken against.
    pub clock_ms: u64,
}

impl RateLimiter {
    /// The buckets as an association sequence from client key to bucket.
    pub open spec fn buckets_view(&self) -> Seq<(Seq<char>, RateLimitBucket)> {
        self.buckets@.map_values(|e: (String, RateLimitBucket)| (e.0@, e.1))
    }

    /// The bucket of client `key`, if one exists.
    pub open spec fn bucket_of(&self, key: Seq<char>) -> Option<RateLimitBucket> {
        assoc_find(self.buckets_view(), key)
    }

    /// Each client key appears at most once.
    pub open spec fn wf(&self) -> bool {
        forall|i: int, j: int|
            0 <= i < j < self.buckets_view().len() ==> #[trigger] self.buckets_view()[i].0
                != #[trigger] self.buckets_view()[j].0
    }

    /// A fresh limiter with the given per-minute limit and an idle clock.
    pub fn new(default_limit: u32) -> (r: Self)
        ensures
            r.wf(),
            r.buckets_view() =~= Seq::<(Seq<char>, RateLimitBucket)>::empty(),
            r.default_limit == default_limit,
            r.refill_rate == default_limit,
            r.clock_ms == 0,
    {
        RateLimiter { buckets: Vec::new(), default_limit, refill_rate: default_limit, clock_ms: 0 }
    }

    /// Moves the clock forward by `elapsed_ms` milliseconds, saturating at
    /// the end of the counter's range.
    pub fn advance_clock(&mut self, elapsed_ms: u64)
        ensures
            final(self).clock_ms == if old(self).clock_ms + elapsed_ms <= u64::MAX {
                old(self).clock_ms + elapsed_ms
            } else {
                u64::MAX as int
            },
            final(self).buckets_view() == old(self).buckets_view(),
            final(self).default_limit == old(self).default_limit,
            final(self).refill_rate == old(self).refill_rate,
    {
        if elapsed_ms <= u64::MAX - self.clock_ms {
            self.clock_ms = self.clock_ms + elapsed_ms;
        } else {
            self.clock_ms = u64::MAX;
        }
    }

    /// Finds the index of a client's bucket.
    fn find_bucket(&self, key: &String) -> (r: Option<usize>)
        ensures
            match r {
                Some(i) => {
                    &&& i < self.buckets_view().len()
                    &&& self.buckets_view()[i as int].0 == key@
                    &&& self.wf() ==> self.bucket_of(key@) == Some(
                        self.buckets_view()[i as int].1,
                    )
                },
                None => self.bucket_of(key@) is None,
            },
    {
        let n = self.buckets.len();
        let mut i: usize = 0;
        while i < n
            invariant
                n == self.buckets@.len(),
                i <= n,
                forall|j: int| 0 <= j < i ==> #[trigger] self.buckets_view()[j].0 != key@,
            decreases n - i,
        {
            if self.buckets[i].0 == *key {
                proof {
                    assert(self.buckets_view()[i as int].0 == key@);
                    if self.wf() {
                        lemma_assoc_find_unique(self.buckets_view(), key@, i as int);
                    }
                }
                return Some(i);
            }
            proof {
                assert(self.buckets_view()[i as int].0 != key@);
            }
            i = i + 1;
        }
        proof {
            lemma_assoc_find_absent(self.buckets_view(), key@);
        }
        None
    }

    /// Decides whether a request costing `tokens` is allowed for `key` at the
    /// current clock, debiting the client's bucket.
    ///
    /// A client seen for the first time starts with a full bucket of
    /// `default_limit` tokens. The call always succeeds; the boolean is the
    /// admission decision.
    pub fn allow_request(&mut self, key: &str, tokens: u32) -> (r: Result<bool, ErrorKind>)
        requires
            old(self).wf(),
        ensures
            final(self).wf(),
            r is Ok,
            ({
                let start = match old(self).bucket_of(key@) {
                    Some(b) => b,
                    None => RateLimitBucket {
                        tokens: old(self).default_limit,
                        last_refill_ms: old(self).clock_ms,
                        max_tokens: old(self).default_limit,
                        refill_rate: old(self).refill_rate,
                    },
                };
                let (ok, after) = spec_try_consume(start, tokens, old(self).clock_ms);
                &&& r == Ok::<bool, ErrorKind>(ok)
                &&& final(self).bucket_of(key@) == Some(after)
            }),
            forall|k2: Seq<char>|
                k2 != key@ ==> #[trigger] final(self).bucket_of(k2) == old(self).bucket_of(k2),
            final(self).default_limit == old(self).default_limit,
            final(self).refill_rate == old(self).refill_rate,
            final(self).clock_ms == old(self).clock_ms,
    {
        let now = self.clock_ms;
        let key_owned = key.to_owned();
        match self.find_bucket(&key_owned) {
            Some(i) => {
                let ghost pre = self.buckets_view();
                let mut b = self.buckets[i].1;
                let ok = b.try_consume(tokens, now);
                let k = self.buckets[i].0.clone();
                self.buckets.set(i, (k, b));
                proof {
                    assert(self.buckets_view() =~= pre.update(i as int, (key@, b)));
                    lemma_assoc_find_update(pre, key@, i as int, b);
                }
                Ok(ok)
            },
            None => {
                let ghost pre = self.buckets_view();
                let mut b = RateLimitBucket::new(self.default_limit, self.refill_rate, now);
                let ok = b.try_consume(tokens, now);
                self.buckets.push((key_owned, b));
                proof {
                    assert(self.buckets_view() =~= pre.push((key@, b)));
                    lemma_assoc_find_none_absent(pre, key@);
                    lemma_assoc_find_push(pre, key@, b);
                }
                Ok(ok)
            },
        }
    }

    /// Reports the tokens client `key` has left at the current clock,
    /// refilling the bucket first; a client not yet seen gets a full bucket.
    pub fn remaining_tokens(&mut self, key: &str) -> (r: Result<u32, ErrorKind>)
        requires
            old(self).wf(),
        ensures
            final(self).wf(),
            ({
                let start = match old(self).bucket_of(key@) {
                    Some(b) => b,
                    None => RateLimitBucket {
                        tokens: old(self).default_limit,
                        last_refill_ms: old(self).clock_ms,
                        max_tokens: old(self).default_limit,
                        refill_rate: old(self).refill_rate,
                    },
                };
                let after = spec_refill(start, old(self).clock_ms);
                &&& r == Ok::<u32, ErrorKind>(after.tokens)
                &&& final(self).bucket_of(key@) == Some(after)
            }),
            forall|k2: Seq<char>|
                k2 != key@ ==> #[trigger] final(self).bucket_of(k2) == old(self).bucket_of(k2),
            final(self).default_limit == old(self).default_limit,
            final(self).refill_rate == old(self).refill_rate,
            final(self).clock_ms == old(self).clock_ms,
    {
        let now = self.clock_ms;
        let key_owned = key.to_owned();
        match self.find_bucket(&key_owned) {
            Some(i) => {
                let ghost pre = self.buckets_view();
                let mut b = self.buckets[i].1;
                b.refill(now);
                let k = self.buckets[i].0.clone();
                self.buckets.set(i, (k, b));
                proof {
                    assert(self.buckets_view() =~= pre.update(i as int, (key@, b)));
                    lemma_assoc_find_update(pre, key@, i as int, b);
                }
                Ok(b.tokens)
            },
            None => {
                let ghost pre = self.buckets_view();
                let mut b = RateLimitBucket::new(self.default_limit, self.refill_rate, now);
                b.refill(now);
                self.buckets.push((key_owned, b));
                proof {
                    assert(self.buckets_view() =~= pre.push((key@, b)));
                    lemma_assoc_find_none_absent(pre, key@);
                    lemma_assoc_find_push(pre, key@, b);
                }
                Ok(b.tokens)
            },
        }
    }
}

/// Every string and every object key in `v` passes the content screen for
/// the given mode.
pub open spec fn json_strings_ok(v: JsonValue, strict: bool) -> bool
    decreases v,
{
    match v {
        JsonValue::Str(s) => string_content_ok(s@, strict),
        JsonValue::Arr(a) => forall|i: int|
            0 <= i < a@.len() ==> json_strings_ok(#[trigger] a@[i], strict),
        JsonValue::Obj(o) => forall|i: int|
            0 <= i < o@.len() ==> string_content_ok(#[trigger] o@[i].0@, strict)
                && json_strings_ok(o@[i].1, strict),
        _ => true,
    }
}

/// Whether every string in `v` passes the content screen for the mode.
#[verifier::rlimit(100)]
#[verifier::spinoff_prover]
#[verifier::loop_isolation(false)]
pub fn check_json_strings(v: &JsonValue, strict: bool) -> (r: bool)
    ensures
        r == json_strings_ok(*v, strict),
    decreases *v,
{
    match v {
        JsonValue::Str(s) => {
            proof {
                assert(*v == JsonValue::Str(*s));
            }
            let chars = str_to_chars(s.as_str());
            let ok = validate_string_chars(&chars, strict).is_ok();
            proof {
                assert(ok == string_content_ok(s@, strict));
                assert(json_strings_ok(*v, strict) == string_content_ok(s@, strict));
            }
            ok
        },
        JsonValue::Arr(a) => {
            let n = a.len();
            for i in 0..n
                invariant
                    n == a@.len(),
                    forall|j: int| 0 <= j < i ==> json_strings_ok(#[trigger] a@[j], strict),
            {
                proof {
                    assert(*v == JsonValue::Arr(*a));
                    assert(decreases_to!(*v => v->Arr_0));
                    assert(decreases_to!(v->Arr_0 => v->Arr_0@));
                    assert(decreases_to!(v->Arr_0@ => v->Arr_0@[i as int]));
                    assert(v->Arr_0@[i as int] == a@[i as int]);
                    assert(decreases_to!(*v => a@[i as int]));
                }
                if !check_json_strings(&a[i], strict) {
                    return false;
                }
            }
            true
        },
        JsonValue::Obj(o) => {
            let n = o.len();
            for i in 0..n
                invariant
                    n == o@.len(),
                    forall|j: int|
                        0 <= j < i ==> string_content_ok(#[trigger] o@[j].0@, strict)
                            && json_strings_ok(o@[j].1, strict),
            {
                let key_chars = str_to_chars(o[i].0.as_str());
                if validate_string_chars(&key_chars, strict).is_err() {
                    return false;
                }
                proof {
                    assert(*v == JsonValue::Obj(*o));
                    assert(decreases_to!(*v => v->Obj_0));
                    assert(decreases_to!(v->Obj_0 => v->Obj_0@));
                    assert(decreases_to!(v->Obj_0@ => v->Obj_0@[i as int]));
                    assert(decreases_to!(v->Obj_0@[i as int] => v->Obj_0@[i as int].1));
                    assert(v->Obj_0@[i as int].1 == o@[i as int].1);
                    assert(decreases_to!(*v => o@[i as int].1));
                }
                if !check_json_strings(&o[i].1, strict) {
                    return false;
                }
            }
            true
        },
        _ => {
            proof {
                assert(json_strings_ok(*v, strict));
            }
            true
        },
    }
}

/// Acceptable tool arguments under a configuration: the compact serialized
/// text fits the size limit, the nesting depth and the collection sizes fit
/// theirs, and every string passes the content screen — NUL-freedom in
/// every mode, the full injection screen in strict mode.
pub open spec fn json_arguments_ok(v: JsonValue, c: ValidationConfig) -> bool {
    &&& json_len(v) <= c.max_input_size
    &&& json_depth(v) <= c.max_depth
    &&& json_sizes_ok(v, c.max_collection_size as int)
    &&& json_strings_ok(v, c.strict_mode)
}

/// Validates tool arguments against the configured hygiene limits.
///
/// Accepts exactly the values [`json_arguments_ok`] accepts; every rejection
/// is [`ErrorKind::InvalidInput`]. A size limit of the full `usize` range is
/// excluded so that the size comparison is exact.
pub fn validate_tool_input(input: &JsonValue, config: &ValidationConfig) -> (r: Result<
    (),
    ErrorKind,
>)
    requires
        config.max_input_size < usize::MAX,
    ensures
        r is Ok <==> json_arguments_ok(*input, *config),
        r is Err ==> r->Err_0 == ErrorKind::InvalidInput,
{
    let len = json_len_capped(input, u64::MAX);
    if len > config.max_input_size as u64 {
        return Err(ErrorKind::InvalidInput);
    }
    if json_depth_gt(input, config.max_depth) {
        return Err(ErrorKind::InvalidInput);
    }
    if !check_json_sizes(input, config.max_collection_size) {
        return Err(ErrorKind::InvalidInput);
    }
    if !check_json_strings(input, config.strict_mode) {
        return Err(ErrorKind::InvalidInput);
    }
    Ok(())
}

/// No tokens are owed to `b` at clock value `now`: a refill leaves it
/// unchanged.
pub open spec fn no_refill(b: RateLimitBucket, now: u64) -> bool {
    spec_refill(b, now) == b
}

/// The bucket after `k` single-token requests at clock value `now`.
pub open spec fn spec_drain(b: RateLimitBucket, k: nat, now: u64) -> RateLimitBucket
    decreases k,
{
    if k == 0 {
        b
    } else {
        spec_try_consume(spec_drain(b, (k - 1) as nat, now), 1, now).1
    }
}

/// After `k` single-token requests against a bucket owed no refill, exactly
/// `k` tokens are gone and nothing else has changed.
proof fn lemma_drain_shape(b: RateLimitBucket, now: u64, k: nat)
    requires
        no_refill(b, now),
        k <= b.tokens,
    ensures
        spec_drain(b, k, now) == (RateLimitBucket { tokens: (b.tokens - k) as u32, ..b }),
    decreases k,
{
    if k > 0 {
        lemma_drain_shape(b, now, (k - 1) as nat);
        let prev = spec_drain(b, (k - 1) as nat, now);
        assert(no_refill(prev, now)) by {
            assert(spec_refill(prev, now) == prev);
        }
    }
}

/// The token-bucket capacity law: against a bucket holding `N` tokens that is
/// owed no refill, each of the first `N` consecutive single-token requests is
/// admitted, and the request after them is denied.
pub proof fn lemma_token_bucket_exhaustion(b: RateLimitBucket, now: u64, j: nat)
    requires
        no_refill(b, now),
        j < b.tokens,
    ensures
        spec_try_consume(spec_drain(b, j, now), 1, now).0,
        !spec_try_consume(spec_drain(b, b.tokens as nat, now), 1, now).0,
{
    lemma_drain_shape(b, now, j);
    lemma_drain_shape(b, now, b.tokens as nat);
    let at_j = spec_drain(b, j, now);
    let at_n = spec_drain(b, b.tokens as nat, now);
    assert(spec_refill(at_j, now) == at_j);
    assert(spec_refill(at_n, now) == at_n);
}

/// In a well-formed association sequence, finding by the key at index `i`
/// yields the value at index `i`.
proof fn lemma_assoc_find_unique(
    entries: Seq<(Seq<char>, RateLimitBucket)>,
    key: Seq<char>,
    i: int,
)
    requires
        0 <= i < entries.len(),
        entries[i].0 == key,
        forall|a: int, b: int|
            0 <= a < b < entries.len() ==> #[trigger] entries[a].0 != #[trigger] entries[b].0,
    ensures
        assoc_find(entries, key) == Some(entries[i].1),
    decreases entries.len(),
{
    if entries.len() > 0 {
        if i == entries.len() - 1 {
            assert(entries.last().0 == key);
        } else {
            assert(entries.last().0 != key) by {
                assert(entries[i].0 != entries[entries.len() - 1].0);
            }
            lemma_assoc_find_unique(entries.drop_last(), key, i);
        }
    }
}

/// A key that is not found matches no entry.
proof fn lemma_assoc_find_none_absent(entries: Seq<(Seq<char>, RateLimitBucket)>, key: Seq<char>)
    requires
        assoc_find(entries, key) is None,
    ensures
        forall|j: int| 0 <= j < entries.len() ==> #[trigger] entries[j].0 != key,
    decreases entries.len(),
{
    if entries.len() > 0 {
        lemma_assoc_find_none_absent(entries.drop_last(), key);
        assert(forall|j: int|
            0 <= j < entries.len() - 1 ==> #[trigger] entries[j].0 == entries.drop_last()[j].0);
    }
}

/// A key matching no entry is not found.
proof fn lemma_assoc_find_absent(entries: Seq<(Seq<char>, RateLimitBucket)>, key: Seq<char>)
    requires
        forall|j: int| 0 <= j < entries.len() ==> #[trigger] entries[j].0 != key,
    ensures
        assoc_find(entries, key) is None,
    decreases entries.len(),
{
    if entries.len() > 0 {
        lemma_assoc_find_absent(entries.drop_last(), key);
    }
}

/// Updating the entry at the key's own index updates what is found, and
/// leaves every other key's result alone.
proof fn lemma_assoc_find_update(
    entries: Seq<(Seq<char>, RateLimitBucket)>,
    key: Seq<char>,
    i: int,
    b: RateLimitBucket,
)
    requires
        0 <= i < entries.len(),
        entries[i].0 == key,
        forall|a: int, c: int|
            0 <= a < c < entries.len() ==> #[trigger] entries[a].0 != #[trigger] entries[c].0,
    ensures
        assoc_find(entries.update(i, (key, b)), key) == Some(b),
        forall|k2: Seq<char>|
            k2 != key ==> #[trigger] assoc_find(entries.update(i, (key, b)), k2) == assoc_find(
                entries,
                k2,
            ),
        forall|a: int, c: int|
            0 <= a < c < entries.update(i, (key, b)).len() ==> #[trigger] entries.update(
                i,
                (key, b),
            )[a].0 != #[trigger] entries.update(i, (key, b))[c].0,
    decreases entries.len(),
{
    let upd = entries.update(i, (key, b));
    assert(forall|a: int| 0 <= a < entries.len() && a != i ==> upd[a] == entries[a]);
    assert(upd[i] == (key, b));
    lemma_assoc_find_unique(upd, key, i);
    assert forall|k2: Seq<char>| k2 != key implies #[trigger] assoc_find(upd, k2) == assoc_find(
        entries,
        k2,
    ) by {
        lemma_assoc_find_skip_index(entries, upd, k2, entries.len() as int);
    }
}

/// Two association sequences that agree everywhere except at entries whose
/// key is not `k2`... helper: if the sequences have equal length and agree on
/// every index whose key equals `k2` as well as on which indices those are,
/// the find results agree. Specialized: they differ at most at indices whose
/// stored key differs from `k2` only in value.
proof fn lemma_assoc_find_skip_index(
    e1: Seq<(Seq<char>, RateLimitBucket)>,
    e2: Seq<(Seq<char>, RateLimitBucket)>,
    k2: Seq<char>,
    n: int,
)
    requires
        e1.len() == e2.len(),
        n == e1.len(),
        forall|a: int|
            0 <= a < e1.len() ==> (#[trigger] e1[a].0 == k2 <==> #[trigger] e2[a].0 == k2),
        forall|a: int| 0 <= a < e1.len() && #[trigger] e1[a].0 == k2 ==> e1[a] == e2[a],
    ensures
        assoc_find(e1, k2) == assoc_find(e2, k2),
    decreases e1.len(),
{
    if e1.len() > 0 {
        let m = e1.len() - 1;
        if e1[m].0 == k2 {
            assert(e1[m] == e2[m]);
        } else {
            assert(e2[m].0 != k2);
            lemma_assoc_find_skip_index(e1.drop_last(), e2.drop_last(), k2, m);
        }
    }
}

/// Pushing a new entry makes its key found and leaves other keys alone.
proof fn lemma_assoc_find_push(
    entries: Seq<(Seq<char>, RateLimitBucket)>,
    key: Seq<char>,
    b: RateLimitBucket,
)
    ensures
        assoc_find(entries.push((key, b)), key) == Some(b),
        forall|k2: Seq<char>|
            k2 != key ==> #[trigger] assoc_find(entries.push((key, b)), k2) == assoc_find(
                entries,
                k2,
            ),
{
    let pushed = entries.push((key, b));
    assert(pushed.last() == (key, b));
    assert forall|k2: Seq<char>| k2 != key implies #[trigger] assoc_find(pushed, k2) == assoc_find(
        entries,
        k2,
    ) by {
        assert(pushed.drop_last() =~= entries);
    }
}

} // verus!

