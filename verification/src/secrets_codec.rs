//! The on-disk encoding of a secret map.
//!
//! One line per secret, both key and value as double-quoted scalars with
//! quote and backslash escaped — a small, fixed subset of YAML that reads
//! back exactly: decoding an encoded map returns the map, for every map
//! (see [`lemma_secret_map_round_trip`]).

use vstd::prelude::*;

use crate::secrets::SecretMap;
use crate::text::{chars_to_string, str_to_chars};

verus! {

/// The encoding of one character inside a double-quoted scalar.
pub open spec fn esc_char(c: char) -> Seq<char> {
    if c == '\\' || c == '"' {
        seq!['\\', c]
    } else {
        seq![c]
    }
}

/// The encoding of a scalar's body.
pub open spec fn esc_str(s: Seq<char>) -> Seq<char>
    decreases s.len(),
{
    if s.len() == 0 {
        Seq::empty()
    } else {
        esc_char(s[0]) + esc_str(s.drop_first())
    }
}

/// The encoding of one key/value line.
pub open spec fn emit_pair(k: Seq<char>, v: Seq<char>) -> Seq<char> {
    seq!['"'] + esc_str(k) + seq!['"', ':', ' ', '"'] + esc_str(v) + seq!['"', '\n']
}

/// The encoding of a pair sequence: its lines, in order.
pub open spec fn spec_emit(pairs: Seq<(Seq<char>, Seq<char>)>) -> Seq<char>
    decreases pairs.len(),
{
    if pairs.len() == 0 {
        Seq::empty()
    } else {
        emit_pair(pairs[0].0, pairs[0].1) + spec_emit(pairs.drop_first())
    }
}

/// Decodes a double-quoted scalar's body up to its closing quote,
/// returning the content and the remainder after the quote.
pub open spec fn spec_parse_quoted(s: Seq<char>) -> Option<(Seq<char>, Seq<char>)>
    decreases s.len(),
{
    if s.len() == 0 {
        None
    } else if s[0] == '"' {
        Some((Seq::empty(), s.drop_first()))
    } else if s[0] == '\\' {
        if s.len() < 2 {
            None
        } else {
            match spec_parse_quoted(s.subrange(2, s.len() as int)) {
                Some(p) => Some((seq![s[1]] + p.0, p.1)),
                None => None,
            }
        }
    } else {
        match spec_parse_quoted(s.drop_first()) {
            Some(p) => Some((seq![s[0]] + p.0, p.1)),
            None => None,
        }
    }
}

/// Decoding a quoted body consumes at least its closing quote.
pub proof fn lemma_parse_quoted_shrinks(s: Seq<char>)
    ensures
        spec_parse_quoted(s) matches Some(p) ==> p.1.len() < s.len(),
    decreases s.len(),
{
    if s.len() > 0 {
        if s[0] == '"' {
        } else if s[0] == '\\' {
            if s.len() >= 2 {
                lemma_parse_quoted_shrinks(s.subrange(2, s.len() as int));
            }
        } else {
            lemma_parse_quoted_shrinks(s.drop_first());
        }
    }
}

/// Decodes a whole file: a sequence of quoted key/value lines.
pub open spec fn spec_parse_pairs(s: Seq<char>) -> Option<Seq<(Seq<char>, Seq<char>)>>
    decreases s.len(),
{
    if s.len() == 0 {
        Some(Seq::empty())
    } else if s[0] != '"' {
        None
    } else {
        match spec_parse_quoted(s.drop_first()) {
            None => None,
            Some(kp) => {
                let r1 = kp.1;
                if r1.len() >= 3 && r1[0] == ':' && r1[1] == ' ' && r1[2] == '"' {
                    match spec_parse_quoted(r1.subrange(3, r1.len() as int)) {
                        None => None,
                        Some(vp) => {
                            let r2 = vp.1;
                            if r2.len() >= 1 && r2[0] == '\n' {
                                proof {
                                    lemma_parse_quoted_shrinks(s.drop_first());
                                    lemma_parse_quoted_shrinks(r1.subrange(3, r1.len() as int));
                                }
                                match spec_parse_pairs(r2.drop_first()) {
                                    None => None,
                                    Some(rest) => Some(seq![(kp.0, vp.0)] + rest),
                                }
                            } else {
                                None
                            }
                        },
                    }
                } else {
                    None
                }
            },
        }
    }
}

/// Unique keys in a pair sequence.
pub open spec fn unique_keys(pairs: Seq<(Seq<char>, Seq<char>)>) -> bool {
    forall|i: int, j: int|
        0 <= i < j < pairs.len() ==> #[trigger] pairs[i].0 != #[trigger] pairs[j].0
}

/// Decoding an encoded scalar body returns the content and leaves exactly
/// what followed the closing quote.
pub proof fn lemma_quoted_round_trip(s: Seq<char>, rest: Seq<char>)
    ensures
        spec_parse_quoted(esc_str(s) + seq!['"'] + rest) == Some((s, rest)),
    decreases s.len(),
{
    let input = esc_str(s) + seq!['"'] + rest;
    if s.len() == 0 {
        assert(esc_str(s) =~= Seq::<char>::empty());
        assert(input[0] == '"');
        assert(input.drop_first() =~= rest);
    } else {
        let c = s[0];
        lemma_quoted_round_trip(s.drop_first(), rest);
        let tail_input = esc_str(s.drop_first()) + seq!['"'] + rest;
        if c == '\\' || c == '"' {
            assert(esc_str(s) =~= seq!['\\', c] + esc_str(s.drop_first()));
            assert(input[0] == '\\');
            assert(input[1] == c);
            assert(input.len() >= 2);
            assert(input.subrange(2, input.len() as int) =~= tail_input);
            assert(spec_parse_quoted(input) == Some((seq![c] + s.drop_first(), rest)));
            assert(seq![c] + s.drop_first() =~= s);
        } else {
            assert(esc_str(s) =~= seq![c] + esc_str(s.drop_first()));
            assert(input[0] == c);
            assert(input.drop_first() =~= tail_input);
            assert(spec_parse_quoted(input) == Some((seq![c] + s.drop_first(), rest)));
            assert(seq![c] + s.drop_first() =~= s);
        }
    }
}

/// Decoding an encoded pair sequence returns the pairs.
pub proof fn lemma_pairs_round_trip(pairs: Seq<(Seq<char>, Seq<char>)>)
    ensures
        spec_parse_pairs(spec_emit(pairs)) == Some(pairs),
    decreases pairs.len(),
{
    let input = spec_emit(pairs);
    if pairs.len() == 0 {
        assert(input =~= Seq::<char>::empty());
    } else {
        let k = pairs[0].0;
        let v = pairs[0].1;
        let tail = spec_emit(pairs.drop_first());
        lemma_pairs_round_trip(pairs.drop_first());
        assert(input =~= emit_pair(k, v) + tail);
        assert(input[0] == '"');
        let after_k = seq![':', ' ', '"'] + esc_str(v) + seq!['"', '\n'] + tail;
        assert(input.drop_first() =~= esc_str(k) + seq!['"'] + after_k);
        lemma_quoted_round_trip(k, after_k);
        assert(spec_parse_quoted(input.drop_first()) == Some((k, after_k)));
        assert(after_k.len() >= 3);
        assert(after_k[0] == ':');
        assert(after_k[1] == ' ');
        assert(after_k[2] == '"');
        let after_v = seq!['\n'] + tail;
        assert(after_k.subrange(3, after_k.len() as int) =~= esc_str(v) + seq!['"'] + after_v);
        lemma_quoted_round_trip(v, after_v);
        assert(after_v[0] == '\n');
        assert(after_v.drop_first() =~= tail);
        assert(spec_parse_pairs(input) == Some(seq![(k, v)] + pairs.drop_first()));
        assert(seq![(k, v)] + pairs.drop_first() =~= pairs);
    }
}

/// A secret map survives its file encoding: decoding the encoded map
/// returns exactly the map's pairs, and their keys are still unique.
pub proof fn lemma_secret_map_round_trip(m: SecretMap)
    requires
        m.wf(),
    ensures
        spec_parse_pairs(spec_emit(m.view_pairs())) == Some(m.view_pairs()),
        unique_keys(m.view_pairs()),
{
    lemma_pairs_round_trip(m.view_pairs());
}

/// Appending one character to a scalar appends its encoding.
proof fn lemma_esc_push(s: Seq<char>, c: char)
    ensures
        esc_str(s.push(c)) == esc_str(s) + esc_char(c),
    decreases s.len(),
{
    if s.len() == 0 {
        assert(s.push(c)[0] == c);
        assert(s.push(c).drop_first() =~= Seq::<char>::empty());
        assert(esc_str(s.push(c)) == esc_char(s.push(c)[0]) + esc_str(s.push(c).drop_first()));
        assert(esc_str(s.push(c)) =~= esc_char(c));
        assert(esc_str(s) + esc_char(c) =~= esc_char(c));
    } else {
        assert(s.push(c)[0] == s[0]);
        assert(s.push(c).drop_first() =~= s.drop_first().push(c));
        lemma_esc_push(s.drop_first(), c);
        assert(esc_str(s.push(c)) =~= esc_char(s[0]) + (esc_str(s.drop_first()) + esc_char(c)));
        assert(esc_char(s[0]) + (esc_str(s.drop_first()) + esc_char(c)) =~= (esc_char(s[0])
            + esc_str(s.drop_first())) + esc_char(c));
        assert(esc_str(s) + esc_char(c) =~= (esc_char(s[0]) + esc_str(s.drop_first())) + esc_char(
            c,
        ));
    }
}

/// Appending one pair appends its line.
proof fn lemma_emit_push(pairs: Seq<(Seq<char>, Seq<char>)>, p: (Seq<char>, Seq<char>))
    ensures
        spec_emit(pairs.push(p)) == spec_emit(pairs) + emit_pair(p.0, p.1),
    decreases pairs.len(),
{
    if pairs.len() == 0 {
        assert(pairs.push(p)[0] == p);
        assert(pairs.push(p).drop_first() =~= Seq::<(Seq<char>, Seq<char>)>::empty());
        assert(spec_emit(pairs.push(p)) == emit_pair(pairs.push(p)[0].0, pairs.push(p)[0].1)
            + spec_emit(pairs.push(p).drop_first()));
        assert(spec_emit(pairs.push(p)) =~= emit_pair(p.0, p.1));
        assert(spec_emit(pairs) + emit_pair(p.0, p.1) =~= emit_pair(p.0, p.1));
    } else {
        assert(pairs.push(p)[0] == pairs[0]);
        assert(pairs.push(p).drop_first() =~= pairs.drop_first().push(p));
        lemma_emit_push(pairs.drop_first(), p);
        let head = emit_pair(pairs[0].0, pairs[0].1);
        assert(spec_emit(pairs.push(p)) =~= head + (spec_emit(pairs.drop_first()) + emit_pair(
            p.0,
            p.1,
        )));
        assert(head + (spec_emit(pairs.drop_first()) + emit_pair(p.0, p.1)) =~= (head + spec_emit(
            pairs.drop_first(),
        )) + emit_pair(p.0, p.1));
        assert(spec_emit(pairs) + emit_pair(p.0, p.1) =~= (head + spec_emit(pairs.drop_first()))
            + emit_pair(p.0, p.1));
    }
}

/// Pushes the encoding of one scalar body onto `out`.
#[verifier::loop_isolation(false)]
pub(crate) fn push_escaped(out: &mut Vec<char>, s: &String)
    ensures
        final(out)@ == old(out)@ + esc_str(s@),
{
    let chars = str_to_chars(s.as_str());
    let n = chars.len();
    let ghost base = out@;
    proof {
        assert(esc_str(s@.subrange(0, 0)) =~= Seq::<char>::empty());
        assert(out@ =~= base + esc_str(s@.subrange(0, 0)));
    }
    for i in 0..n
        invariant
            n == chars@.len(),
            chars@ == s@,
            out@ == base + esc_str(s@.subrange(0, i as int)),
    {
        let c = chars[i];
        proof {
            let pre = s@.subrange(0, i as int);
            let cur = s@.subrange(0, i + 1);
            assert(cur =~= pre.push(s@[i as int]));
            lemma_esc_push(pre, s@[i as int]);
        }
        if c == '\\' || c == '"' {
            out.push('\\');
            out.push(c);
        } else {
            out.push(c);
        }
        proof {
            assert(out@ =~= base + esc_str(s@.subrange(0, i + 1)));
        }
    }
    proof {
        assert(s@.subrange(0, n as int) =~= s@);
    }
}

/// Encodes a secret map into its file text.
#[verifier::loop_isolation(false)]
pub fn emit_secret_map(m: &SecretMap) -> (r: String)
    ensures
        r@ == spec_emit(m.view_pairs()),
{
    let n = m.pairs.len();
    let mut out: Vec<char> = Vec::new();
    proof {
        assert(m.view_pairs().subrange(0, 0) =~= Seq::<(Seq<char>, Seq<char>)>::empty());
        assert(out@ =~= spec_emit(m.view_pairs().subrange(0, 0)));
    }
    for i in 0..n
        invariant
            n == m.pairs@.len(),
            out@ == spec_emit(m.view_pairs().subrange(0, i as int)),
    {
        proof {
            let pre = m.view_pairs().subrange(0, i as int);
            let cur = m.view_pairs().subrange(0, i + 1);
            assert(cur =~= pre.push(m.view_pairs()[i as int]));
            lemma_emit_push(pre, m.view_pairs()[i as int]);
        }
        out.push('"');
        push_escaped(&mut out, &m.pairs[i].0);
        out.push('"');
        out.push(':');
        out.push(' ');
        out.push('"');
        push_escaped(&mut out, &m.pairs[i].1);
        out.push('"');
        out.push('\n');
        proof {
            let pre = m.view_pairs().subrange(0, i as int);
            let p = m.view_pairs()[i as int];
            assert(out@ =~= spec_emit(pre) + emit_pair(p.0, p.1));
            assert(out@ =~= spec_emit(m.view_pairs().subrange(0, i + 1)));
        }
    }
    proof {
        assert(m.view_pairs().subrange(0, n as int) =~= m.view_pairs());
    }
    chars_to_string(&out)
}

/// Decodes one quoted scalar starting at `pos` (after the opening quote),
/// returning the content and the position after the closing quote.
#[verifier::loop_isolation(false)]
pub(crate) fn parse_quoted(chars: &Vec<char>, pos: usize) -> (r: Option<(Vec<char>, usize)>)
    requires
        pos <= chars@.len(),
    ensures
        match r {
            Some(p) => {
                &&& p.1 <= chars@.len()
                &&& spec_parse_quoted(chars@.subrange(pos as int, chars@.len() as int)) == Some(
                    (p.0@, chars@.subrange(p.1 as int, chars@.len() as int)),
                )
            },
            None => spec_parse_quoted(chars@.subrange(pos as int, chars@.len() as int)) is None,
        },
{
    let n = chars.len();
    let mut acc: Vec<char> = Vec::new();
    let mut i = pos;
    proof {
        assert(acc@ + spec_parse_quoted(chars@.subrange(pos as int, n as int))->Some_0.0
            =~= spec_parse_quoted(chars@.subrange(pos as int, n as int))->Some_0.0);
    }
    loop
        invariant
            pos <= i <= n,
            n == chars@.len(),
            match spec_parse_quoted(chars@.subrange(i as int, n as int)) {
                Some(p) => spec_parse_quoted(chars@.subrange(pos as int, n as int)) == Some(
                    (acc@ + p.0, p.1),
                ),
                None => spec_parse_quoted(chars@.subrange(pos as int, n as int)) is None,
            },
        decreases n - i,
    {
        let ghost suffix = chars@.subrange(i as int, n as int);
        if i >= n {
            proof {
                assert(suffix.len() == 0);
                assert(spec_parse_quoted(suffix) is None);
            }
            return None;
        }
        let c = chars[i];
        proof {
            assert(suffix[0] == chars@[i as int]);
        }
        if c == '"' {
            proof {
                assert(suffix.drop_first() =~= chars@.subrange(i + 1, n as int));
                assert(spec_parse_quoted(suffix) == Some(
                    (Seq::<char>::empty(), chars@.subrange(i + 1, n as int)),
                ));
                assert(acc@ + Seq::<char>::empty() =~= acc@);
            }
            return Some((acc, i + 1));
        } else if c == '\\' {
            if i + 1 >= n {
                proof {
                    assert(suffix.len() < 2);
                    assert(spec_parse_quoted(suffix) is None);
                }
                return None;
            }
            let e = chars[i + 1];
            let ghost acc_pre = acc@;
            acc.push(e);
            proof {
                assert(suffix.len() >= 2);
                assert(suffix[1] == chars@[i + 1]);
                assert(suffix.subrange(2, suffix.len() as int) =~= chars@.subrange(i + 2, n as int));
                match spec_parse_quoted(chars@.subrange(i + 2, n as int)) {
                    Some(p) => {
                        assert(spec_parse_quoted(suffix) == Some((seq![chars@[i + 1]] + p.0, p.1)));
                        assert(acc_pre + (seq![chars@[i + 1]] + p.0) =~= acc@ + p.0);
                    },
                    None => {
                        assert(spec_parse_quoted(suffix) is None);
                    },
                }
            }
            i = i + 2;
        } else {
            let ghost acc_pre = acc@;
            acc.push(c);
            proof {
                assert(suffix.drop_first() =~= chars@.subrange(i + 1, n as int));
                match spec_parse_quoted(chars@.subrange(i + 1, n as int)) {
                    Some(p) => {
                        assert(spec_parse_quoted(suffix) == Some(
                            (seq![chars@[i as int]] + p.0, p.1),
                        ));
                        assert(acc_pre + (seq![chars@[i as int]] + p.0) =~= acc@ + p.0);
                    },
                    None => {
                        assert(spec_parse_quoted(suffix) is None);
                    },
                }
            }
            i = i + 1;
        }
    }
}

/// Decodes a secret-map file.
///
/// Returns the map exactly when the text decodes as quoted key/value lines
/// with unique keys; text outside the encoding, or with a repeated key, is
/// rejected.
#[verifier::loop_isolation(false)]
pub fn parse_secret_map(text: &str) -> (r: Option<SecretMap>)
    ensures
        match r {
            Some(m) => {
                &&& m.wf()
                &&& spec_parse_pairs(text@) == Some(m.view_pairs())
            },
            None => spec_parse_pairs(text@) is None || (spec_parse_pairs(text@) matches Some(ps)
                && !unique_keys(ps)),
        },
{
    let chars = str_to_chars(text);
    let n = chars.len();
    let mut m = SecretMap::new();
    let mut dup = false;
    let mut i: usize = 0;
    proof {
        assert(chars@.subrange(0, n as int) =~= text@);
        match spec_parse_pairs(text@) {
            Some(ps) => {
                assert(m.view_pairs() + ps =~= ps);
            },
            None => {},
        }
    }
    loop
        invariant
            i <= n,
            n == chars@.len(),
            m.wf(),
            !dup ==> match spec_parse_pairs(chars@.subrange(i as int, n as int)) {
                Some(ps) => spec_parse_pairs(text@) == Some(m.view_pairs() + ps),
                None => spec_parse_pairs(text@) is None,
            },
            dup ==> (spec_parse_pairs(text@) is None || (spec_parse_pairs(text@) matches Some(ps)
                && !unique_keys(ps))),
        decreases n - i,
    {
        let ghost suffix = chars@.subrange(i as int, n as int);
        if i >= n {
            proof {
                assert(suffix.len() == 0);
                assert(spec_parse_pairs(suffix) == Some(Seq::<(Seq<char>, Seq<char>)>::empty()));
                if !dup {
                    assert(m.view_pairs() + Seq::<(Seq<char>, Seq<char>)>::empty()
                        =~= m.view_pairs());
                }
            }
            if dup {
                return None;
            }
            return Some(m);
        }
        let c = chars[i];
        proof {
            assert(suffix[0] == chars@[i as int]);
        }
        if c != '"' {
            proof {
                assert(spec_parse_pairs(suffix) is None);
            }
            return None;
        }
        proof {
            assert(suffix.drop_first() =~= chars@.subrange(i + 1, n as int));
        }
        let kq = parse_quoted(&chars, i + 1);
        match kq {
            None => {
                proof {
                    assert(spec_parse_pairs(suffix) is None);
                }
                return None;
            },
            Some((kv, p1)) => {
                proof {
                    lemma_parse_quoted_shrinks(suffix.drop_first());
                }
                if n - p1 < 3 || !(chars[p1] == ':' && chars[p1 + 1] == ' ' && chars[p1 + 2]
                    == '"') {
                    proof {
                        let r1 = chars@.subrange(p1 as int, n as int);
                        assert(spec_parse_quoted(suffix.drop_first()) == Some((kv@, r1)));
                        if r1.len() >= 3 {
                            assert(r1[0] == chars@[p1 as int]);
                            assert(r1[1] == chars@[p1 + 1]);
                            assert(r1[2] == chars@[p1 + 2]);
                        }
                        assert(spec_parse_pairs(suffix) is None);
                    }
                    return None;
                }
                proof {
                    let r1 = chars@.subrange(p1 as int, n as int);
                    assert(r1[0] == chars@[p1 as int]);
                    assert(r1[1] == chars@[p1 + 1]);
                    assert(r1[2] == chars@[p1 + 2]);
                    assert(r1.subrange(3, r1.len() as int) =~= chars@.subrange(p1 + 3, n as int));
                }
                let vq = parse_quoted(&chars, p1 + 3);
                match vq {
                    None => {
                        proof {
                            assert(spec_parse_pairs(suffix) is None);
                        }
                        return None;
                    },
                    Some((vv, p2)) => {
                        if p2 >= n || chars[p2] != '\n' {
                            proof {
                                let r2 = chars@.subrange(p2 as int, n as int);
                                assert(spec_parse_quoted(chars@.subrange(p1 + 3, n as int))
                                    == Some((vv@, r2)));
                                if r2.len() >= 1 {
                                    assert(r2[0] == chars@[p2 as int]);
                                }
                                assert(spec_parse_pairs(suffix) is None);
                            }
                            return None;
                        }
                        proof {
                            let r2 = chars@.subrange(p2 as int, n as int);
                            assert(r2[0] == chars@[p2 as int]);
                            assert(r2.drop_first() =~= chars@.subrange(p2 + 1, n as int));
                            lemma_parse_quoted_shrinks(chars@.subrange(p1 + 3, n as int));
                            assert(n - p2 < n - (p1 + 3));
                            assert(n - p1 < n - (i + 1));
                            assert(p2 + 1 > i);
                        }
                        let key = chars_to_string(&kv);
                        let val = chars_to_string(&vv);
                        let ghost old_pairs = m.view_pairs();
                        let ghost was_dup = dup;
                        let had = m.get(key.as_str()).is_some();
                        if had {
                            dup = true;
                        }
                        m.insert(key, val);
                        proof {
                            let tail = chars@.subrange(p2 + 1, n as int);
                            assert(spec_parse_pairs(suffix) == (match spec_parse_pairs(tail) {
                                None => None::<Seq<(Seq<char>, Seq<char>)>>,
                                Some(rest) => Some(seq![(kv@, vv@)] + rest),
                            }));
                            if !was_dup {
                                if !had {
                                    assert(m.view_pairs() =~= old_pairs.push((kv@, vv@)));
                                    match spec_parse_pairs(tail) {
                                        Some(ps) => {
                                            assert(spec_parse_pairs(suffix) == Some(
                                                seq![(kv@, vv@)] + ps,
                                            ));
                                            assert(old_pairs + (seq![(kv@, vv@)] + ps)
                                                =~= m.view_pairs() + ps);
                                        },
                                        None => {
                                            assert(spec_parse_pairs(suffix) is None);
                                        },
                                    }
                                } else {
                                    match spec_parse_pairs(text@) {
                                        Some(full) => {
                                            assert(!(spec_parse_pairs(suffix) is None));
                                            let rest = spec_parse_pairs(tail)->Some_0;
                                            assert(spec_parse_pairs(suffix) == Some(
                                                seq![(kv@, vv@)] + rest,
                                            ));
                                            assert(full =~= old_pairs + (seq![(kv@, vv@)] + rest));
                                            crate::secrets::lemma_sm_find_some_exists(
                                                old_pairs,
                                                kv@,
                                            );
                                            let ki = choose|ki: int|
                                                0 <= ki < old_pairs.len() && #[trigger] old_pairs[
                                                    ki].0 == kv@;
                                            assert(full[ki].0 == kv@);
                                            assert(full[old_pairs.len() as int].0 == kv@);
                                            assert(!unique_keys(full));
                                        },
                                        None => {},
                                    }
                                }
                            }
                        }
                        i = p2 + 1;
                    },
                }
            },
        }
    }
}

} // verus!
