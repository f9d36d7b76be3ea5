//! Character-level helpers shared by the validation and encoding modules.

use vstd::prelude::*;

use vstd::string::StringSliceAdditionalSpecFns;

verus! {

/// A control character in the Unicode sense: the C0 range, DEL, and the C1
/// range.
pub open spec fn is_control_char(c: char) -> bool {
    (c as u32) < 0x20 || (c as u32) == 0x7f || (0x80 <= (c as u32) && (c as u32) <= 0x9f)
}

/// The characters that survive output sanitization: everything that is not a
/// control character, plus newline, carriage return and tab.
pub open spec fn is_kept_output_char(c: char) -> bool {
    !is_control_char(c) || c == '\n' || c == '\r' || c == '\t'
}

/// An ASCII letter, in either case.
pub open spec fn is_ascii_letter(c: char) -> bool {
    (0x41 <= (c as u32) && (c as u32) <= 0x5a) || (0x61 <= (c as u32) && (c as u32) <= 0x7a)
}

/// An ASCII digit.
pub open spec fn is_ascii_digit(c: char) -> bool {
    0x30 <= (c as u32) && (c as u32) <= 0x39
}

/// The ASCII lowering of a single character: `A`..`Z` map to `a`..`z`,
/// everything else is left alone.
pub open spec fn ascii_lower_char(c: char) -> char {
    if 0x41 <= (c as u32) && (c as u32) <= 0x5a {
        (((c as u32) + 0x20) as u32) as char
    } else {
        c
    }
}

/// The ASCII lowering of a character sequence.
pub open spec fn ascii_lower(s: Seq<char>) -> Seq<char> {
    s.map_values(|c: char| ascii_lower_char(c))
}

/// Whether `c` is a control character (executable form).
pub fn control_char(c: char) -> (r: bool)
    ensures
        r == is_control_char(c),
{
    let u = c as u32;
    u < 0x20 || u == 0x7f || (0x80 <= u && u <= 0x9f)
}

/// Whether `c` is an ASCII letter or digit (executable form).
pub fn ascii_alphanumeric(c: char) -> (r: bool)
    ensures
        r == (is_ascii_letter(c) || is_ascii_digit(c)),
{
    let u = c as u32;
    (0x41 <= u && u <= 0x5a) || (0x61 <= u && u <= 0x7a) || (0x30 <= u && u <= 0x39)
}

/// Whether the ASCII lowering of `a` equals `b`, decided on scalar values.
fn folded_char_eq(a: char, b: char) -> (r: bool)
    ensures
        r == (ascii_lower_char(a) == b),
{
    let u = a as u32;
    let v = b as u32;
    proof {
        vstd::utf8::char_u32_cast(a, u);
        vstd::utf8::char_u32_cast(b, v);
        if 0x41 <= u && u <= 0x5a {
            let w: u32 = (u + 0x20) as u32;
            assert(ascii_lower_char(a) == w as char);
            assert((w as char) as u32 == w);
        }
    }
    if 0x41 <= u && u <= 0x5a {
        u + 0x20 == v
    } else {
        u == v
    }
}

/// Builds a `String` whose characters are exactly those of `v`.
///
/// Relies on `String`'s `FromIterator<char>` implementation: collecting a
/// sequence of characters yields the string of those characters in order.
#[verifier::external_body]
pub fn chars_to_string(v: &Vec<char>) -> (r: String)
    ensures
        r@ == v@,
{
    v.iter().collect()
}

/// The characters of `s` as a vector. ASCII text is decoded byte by byte
/// in one pass; anything else falls back to per-index access.
pub fn str_to_chars(s: &str) -> (r: Vec<char>)
    ensures
        r@ == s@,
{
    if s.is_ascii() {
        proof {
            vstd::string::is_ascii_spec_bytes(s);
        }
        let bytes = s.as_bytes();
        let n = bytes.len();
        let mut r: Vec<char> = Vec::new();
        for i in 0..n
            invariant
                n == s@.len(),
                bytes@ == s.spec_bytes(),
                s.spec_bytes() =~= Seq::new(s@.len(), |j: int| s@.index(j) as u8),
                vstd::utf8::is_ascii_chars(s@),
                r@ == s@.subrange(0, i as int),
        {
            let b = bytes[i];
            let c: char = b as char;
            proof {
                let orig = s@[i as int];
                assert('\0' <= orig <= '\u{7f}');
                assert(b == orig as u8);
                vstd::utf8::char_u32_cast(orig, orig as u32);
                assert((c as u32) == (b as u32));
                assert((b as u32) == (orig as u32)) by {
                    assert((orig as u32) < 128);
                }
                vstd::utf8::char_u32_cast(c, c as u32);
                assert(((c as u32) as char) == c);
                assert(((orig as u32) as char) == orig);
                assert(c == orig);
            }
            r.push(c);
            proof {
                assert(r@ =~= s@.subrange(0, i + 1));
            }
        }
        proof {
            assert(r@ =~= s@);
        }
        r
    } else {
        let n = s.unicode_len();
        let mut r: Vec<char> = Vec::new();
        for i in 0..n
            invariant
                n == s@.len(),
                r@ == s@.subrange(0, i as int),
        {
            r.push(s.get_char(i));
            proof {
                assert(r@ =~= s@.subrange(0, i + 1));
            }
        }
        proof {
            assert(r@ =~= s@);
        }
        r
    }
}

/// The first `n` characters of `v`.
pub fn chars_prefix(v: &Vec<char>, n: usize) -> (r: Vec<char>)
    requires
        n <= v@.len(),
    ensures
        r@ == v@.subrange(0, n as int),
{
    let mut r: Vec<char> = Vec::new();
    for i in 0..n
        invariant
            n <= v@.len(),
            r@ == v@.subrange(0, i as int),
    {
        r.push(v[i]);
        proof {
            assert(r@ =~= v@.subrange(0, i + 1));
        }
    }
    r
}

/// Whether `needle` occurs as a contiguous run inside `hay`.
pub open spec fn contains_seq(hay: Seq<char>, needle: Seq<char>) -> bool {
    exists|i: int| matches_at(hay, needle, i)
}

/// Whether `needle` occurs starting at position `i` of `hay`.
pub open spec fn matches_at(hay: Seq<char>, needle: Seq<char>, i: int) -> bool {
    0 <= i && i + needle.len() <= hay.len() && hay.subrange(i, i + needle.len()) == needle
}

/// Substring search. When `fold` is set the haystack is compared through its
/// ASCII lowering, so an all-lower-case needle is found case-insensitively.
pub fn find_sub(hay: &Vec<char>, needle: &Vec<char>, fold: bool) -> (r: bool)
    ensures
        r == contains_seq(if fold { ascii_lower(hay@) } else { hay@ }, needle@),
{
    proof {
        assert(ascii_lower(hay@).len() == hay@.len());
    }
    let ghost ghay: Seq<char> = if fold {
        ascii_lower(hay@)
    } else {
        hay@
    };
    let hn = hay.len();
    let nn = needle.len();
    if nn > hn {
        proof {
            assert(forall|i: int| !matches_at(ghay, needle@, i));
        }
        return false;
    }
    if nn == 0 {
        proof {
            assert(ghay.subrange(0, 0) =~= needle@);
            assert(matches_at(ghay, needle@, 0));
        }
        return true;
    }
    let mut i: usize = 0;
    while i <= hn - nn
        invariant
            1 <= nn <= hn,
            hn == hay@.len(),
            hn == ghay.len(),
            nn == needle@.len(),
            i <= hn - nn + 1,
            ghay == (if fold { ascii_lower(hay@) } else { hay@ }),
            forall|j: int| 0 <= j < i ==> !matches_at(ghay, needle@, j),
        decreases hn - nn - i + 1,
    {
        let mut k: usize = 0;
        let mut hit = true;
        while k < nn
            invariant
                nn <= hn,
                hn == hay@.len(),
                hn == ghay.len(),
                nn == needle@.len(),
                i + nn <= hn,
                k <= nn,
                ghay == (if fold { ascii_lower(hay@) } else { hay@ }),
                hit ==> ghay.subrange(i as int, i + k as int) =~= needle@.subrange(0, k as int),
                !hit ==> !matches_at(ghay, needle@, i as int),
            decreases nn - k,
        {
            let same = if fold {
                folded_char_eq(hay[i + k], needle[k])
            } else {
                hay[i + k] == needle[k]
            };
            proof {
                assert(ghay[i + k] == (if fold { ascii_lower_char(hay@[i + k]) } else { hay@[i + k] }));
            }
            if !same {
                proof {
                    if matches_at(ghay, needle@, i as int) {
                        assert(ghay.subrange(i as int, i + nn as int)[k as int] == needle@[k as int]);
                        assert(ghay[i + k] == needle@[k as int]);
                        assert(false);
                    }
                }
                hit = false;
                k = nn;
            } else {
                proof {
                    if hit {
                        assert(ghay.subrange(i as int, i + k + 1) =~= needle@.subrange(0, k + 1))
                            by {
                            assert(ghay.subrange(i as int, i + k as int) =~= needle@.subrange(
                                0,
                                k as int,
                            ));
                            assert(ghay[i + k] == needle@[k as int]);
                        }
                    }
                }
                k = k + 1;
            }
        }
        if hit {
            proof {
                assert(ghay.subrange(i as int, i + nn as int) =~= needle@.subrange(0, nn as int));
                assert(needle@.subrange(0, nn as int) =~= needle@);
                assert(matches_at(ghay, needle@, i as int));
            }
            return true;
        }
        i = i + 1;
    }
    proof {
        assert(forall|j: int| matches_at(ghay, needle@, j) ==> 0 <= j < i);
        assert(!contains_seq(ghay, needle@));
    }
    false
}

/// Lexicographic order on character sequences, by scalar value.
pub open spec fn str_le(a: Seq<char>, b: Seq<char>) -> bool
    decreases a.len(),
{
    if a.len() == 0 {
        true
    } else if b.len() == 0 {
        false
    } else if (a[0] as u32) < (b[0] as u32) {
        true
    } else if (a[0] as u32) > (b[0] as u32) {
        false
    } else {
        str_le(a.drop_first(), b.drop_first())
    }
}

/// The order is total: of any two sequences, one is less or equal.
pub proof fn lemma_str_le_total(a: Seq<char>, b: Seq<char>)
    ensures
        str_le(a, b) || str_le(b, a),
    decreases a.len(),
{
    if a.len() > 0 && b.len() > 0 && (a[0] as u32) == (b[0] as u32) {
        lemma_str_le_total(a.drop_first(), b.drop_first());
    }
}

/// The order is antisymmetric: mutual order is equality.
pub proof fn lemma_str_le_antisym(a: Seq<char>, b: Seq<char>)
    requires
        str_le(a, b),
        str_le(b, a),
    ensures
        a == b,
    decreases a.len(),
{
    if a.len() == 0 {
        assert(b.len() == 0);
        assert(a =~= b);
    } else {
        assert(b.len() > 0);
        assert((a[0] as u32) == (b[0] as u32));
        assert(a[0] == b[0]) by {
            vstd::utf8::char_u32_cast(a[0], a[0] as u32);
            vstd::utf8::char_u32_cast(b[0], b[0] as u32);
        }
        lemma_str_le_antisym(a.drop_first(), b.drop_first());
        assert(a =~= b) by {
            assert(forall|i: int|
                1 <= i < a.len() ==> #[trigger] a[i] == a.drop_first()[i - 1]);
            assert(forall|i: int|
                1 <= i < b.len() ==> #[trigger] b[i] == b.drop_first()[i - 1]);
        }
    }
}

/// The order is transitive.
pub proof fn lemma_str_le_trans(a: Seq<char>, b: Seq<char>, c: Seq<char>)
    requires
        str_le(a, b),
        str_le(b, c),
    ensures
        str_le(a, c),
    decreases a.len(),
{
    if a.len() > 0 {
        if b.len() > 0 && c.len() > 0 && (a[0] as u32) == (b[0] as u32) && (b[0] as u32) == (
        c[0] as u32) {
            lemma_str_le_trans(a.drop_first(), b.drop_first(), c.drop_first());
        }
    }
}

/// Decides the lexicographic order on strings.
#[verifier::loop_isolation(false)]
pub fn str_le_exec(a: &String, b: &String) -> (r: bool)
    ensures
        r == str_le(a@, b@),
{
    let ac = str_to_chars(a.as_str());
    let bc = str_to_chars(b.as_str());
    let an = ac.len();
    let bn = bc.len();
    let mut i: usize = 0;
    proof {
        assert(a@.subrange(0, an as int) =~= a@);
        assert(b@.subrange(0, bn as int) =~= b@);
    }
    loop
        invariant
            i <= an,
            i <= bn,
            an == a@.len(),
            bn == b@.len(),
            ac@ == a@,
            bc@ == b@,
            str_le(a@, b@) == str_le(
                a@.subrange(i as int, an as int),
                b@.subrange(i as int, bn as int),
            ),
        decreases an - i,
    {
        let ghost asuf = a@.subrange(i as int, an as int);
        let ghost bsuf = b@.subrange(i as int, bn as int);
        if i >= an {
            proof {
                assert(asuf.len() == 0);
            }
            return true;
        }
        if i >= bn {
            proof {
                assert(asuf.len() > 0 && bsuf.len() == 0);
            }
            return false;
        }
        let x = ac[i] as u32;
        let y = bc[i] as u32;
        proof {
            assert(asuf[0] == a@[i as int]);
            assert(bsuf[0] == b@[i as int]);
            assert(asuf.drop_first() =~= a@.subrange(i + 1, an as int));
            assert(bsuf.drop_first() =~= b@.subrange(i + 1, bn as int));
        }
        if x < y {
            return true;
        }
        if x > y {
            return false;
        }
        i = i + 1;
    }
}

} // verus!
