//! Per-component secret maps.
//!
//! Secrets are flat string-to-string maps, persisted one file per component
//! under a file name derived from the component id by a deterministic
//! sanitization. The embedding process does the reading and writing; the
//! map, the file-name derivation, the freshness rule of the cache and the
//! file encoding (see [`crate::secrets_codec`]) all live here.

use vstd::prelude::*;

use crate::text::{ascii_alphanumeric, chars_to_string, is_ascii_digit, is_ascii_letter,
    str_to_chars};

verus! {

/// Looks a key up in a pair sequence, last binding wins.
pub open spec fn sm_find(entries: Seq<(Seq<char>, Seq<char>)>, key: Seq<char>) -> Option<Seq<char>>
    decreases entries,
{
    if entries.len() == 0 {
        None
    } else if entries.last().0 == key {
        Some(entries.last().1)
    } else {
        sm_find(entries.drop_last(), key)
    }
}

/// A flat map of secret key-value pairs, keys unique.
#[derive(Debug)]
pub struct SecretMap {
    /// The pairs, in insertion order.
    pub pairs: Vec<(String, String)>,
}

impl SecretMap {
    /// The pairs as sequences of characters.
    pub open spec fn view_pairs(&self) -> Seq<(Seq<char>, Seq<char>)> {
        self.pairs@.map_values(|e: (String, String)| (e.0@, e.1@))
    }

    /// The value bound to a key.
    pub open spec fn spec_get(&self, key: Seq<char>) -> Option<Seq<char>> {
        sm_find(self.view_pairs(), key)
    }

    /// Keys are unique.
    pub open spec fn wf(&self) -> bool {
        forall|i: int, j: int|
            0 <= i < j < self.view_pairs().len() ==> #[trigger] self.view_pairs()[i].0
                != #[trigger] self.view_pairs()[j].0
    }

    /// An empty secret map.
    pub fn new() -> (r: Self)
        ensures
            r.wf(),
            r.view_pairs() =~= Seq::<(Seq<char>, Seq<char>)>::empty(),
    {
        SecretMap { pairs: Vec::new() }
    }

    /// Finds the index of a key.
    #[verifier::loop_isolation(false)]
    fn find_key(&self, key: &String) -> (r: Option<usize>)
        ensures
            match r {
                Some(i) => {
                    &&& i < self.view_pairs().len()
                    &&& self.view_pairs()[i as int].0 == key@
                    &&& self.wf() ==> self.spec_get(key@) == Some(self.view_pairs()[i as int].1)
                },
                None => self.spec_get(key@) is None,
            },
    {
        let n = self.pairs.len();
        for i in 0..n
            invariant
                n == self.pairs@.len(),
                forall|j: int| 0 <= j < i ==> #[trigger] self.view_pairs()[j].0 != key@,
        {
            if self.pairs[i].0 == *key {
                proof {
                    assert(self.view_pairs()[i as int].0 == key@);
                    if self.wf() {
                        lemma_sm_find_unique(self.view_pairs(), key@, i as int);
                    }
                }
                return Some(i);
            }
            proof {
                assert(self.view_pairs()[i as int].0 != key@);
            }
        }
        proof {
            lemma_sm_find_absent(self.view_pairs(), key@);
        }
        None
    }

    /// Binds `key` to `value`, replacing any previous binding.
    pub fn insert(&mut self, key: String, value: String)
        requires
            old(self).wf(),
        ensures
            final(self).wf(),
            final(self).spec_get(key@) == Some(value@),
            forall|k2: Seq<char>|
                k2 != key@ ==> #[trigger] final(self).spec_get(k2) == old(self).spec_get(k2),
            final(self).view_pairs().len() == if old(self).spec_get(key@) is Some {
                old(self).view_pairs().len()
            } else {
                old(self).view_pairs().len() + 1
            },
            old(self).spec_get(key@) is None ==> final(self).view_pairs() == old(
                self,
            ).view_pairs().push((key@, value@)),
    {
        let ghost pre = self.view_pairs();
        match self.find_key(&key) {
            Some(i) => {
                self.pairs.set(i, (key, value));
                proof {
                    let ghost kv = (self.pairs@[i as int].0@, self.pairs@[i as int].1@);
                    assert(self.view_pairs() =~= pre.update(i as int, kv));
                    lemma_sm_find_update(pre, kv.0, i as int, kv.1);
                }
            },
            None => {
                self.pairs.push((key, value));
                proof {
                    let ghost kv = (self.pairs@.last().0@, self.pairs@.last().1@);
                    assert(self.view_pairs() =~= pre.push(kv));
                    lemma_sm_find_push(pre, kv.0, kv.1);
                    lemma_sm_find_none_absent(pre, kv.0);
                }
            },
        }
    }

    /// Removes a key, returning the value it was bound to.
    pub fn remove(&mut self, key: &str) -> (r: Option<String>)
        requires
            old(self).wf(),
        ensures
            final(self).wf(),
            match r {
                Some(v) => old(self).spec_get(key@) == Some(v@),
                None => old(self).spec_get(key@) is None,
            },
            final(self).spec_get(key@) is None,
            forall|k2: Seq<char>|
                k2 != key@ ==> #[trigger] final(self).spec_get(k2) == old(self).spec_get(k2),
            final(self).view_pairs().len() == if old(self).spec_get(key@) is Some {
                old(self).view_pairs().len() - 1
            } else {
                old(self).view_pairs().len() as int
            },
    {
        let owned = key.to_owned();
        let ghost pre = self.view_pairs();
        match self.find_key(&owned) {
            Some(i) => {
                let pair = self.pairs.remove(i);
                proof {
                    assert(self.view_pairs() =~= pre.remove(i as int));
                    lemma_sm_find_remove(pre, key@, i as int);
                }
                Some(pair.1)
            },
            None => None,
        }
    }

    /// The value bound to a key.
    pub fn get(&self, key: &str) -> (r: Option<&String>)
        requires
            self.wf(),
        ensures
            match r {
                Some(v) => self.spec_get(key@) == Some(v@),
                None => self.spec_get(key@) is None,
            },
    {
        let owned = key.to_owned();
        match self.find_key(&owned) {
            Some(i) => Some(&self.pairs[i].1),
            None => None,
        }
    }

    /// The keys, in insertion order.
    #[verifier::loop_isolation(false)]
    pub fn keys(&self) -> (r: Vec<String>)
        ensures
            r@.len() == self.view_pairs().len(),
            forall|i: int| 0 <= i < r@.len() ==> #[trigger] r@[i]@ == self.view_pairs()[i].0,
    {
        let n = self.pairs.len();
        let mut r: Vec<String> = Vec::new();
        for i in 0..n
            invariant
                n == self.pairs@.len(),
                r@.len() == i,
                forall|j: int| 0 <= j < i ==> #[trigger] r@[j]@ == self.view_pairs()[j].0,
        {
            r.push(self.pairs[i].0.clone());
        }
        r
    }

    /// The key-value pairs, in insertion order.
    #[verifier::loop_isolation(false)]
    pub fn iter(&self) -> (r: Vec<(String, String)>)
        ensures
            r@.len() == self.view_pairs().len(),
            forall|i: int|
                #![trigger r@[i]]
                0 <= i < r@.len() ==> (r@[i].0@, r@[i].1@) == self.view_pairs()[i],
    {
        let n = self.pairs.len();
        let mut r: Vec<(String, String)> = Vec::new();
        for i in 0..n
            invariant
                n == self.pairs@.len(),
                r@.len() == i,
                forall|j: int|
                    #![trigger r@[j]]
                    0 <= j < i ==> (r@[j].0@, r@[j].1@) == self.view_pairs()[j],
        {
            r.push((self.pairs[i].0.clone(), self.pairs[i].1.clone()));
        }
        r
    }

    /// Whether the map holds no secrets.
    pub fn is_empty(&self) -> (r: bool)
        ensures
            r == (self.view_pairs().len() == 0),
    {
        self.pairs.len() == 0
    }

    /// The number of secrets.
    pub fn len(&self) -> (r: usize)
        ensures
            r == self.view_pairs().len(),
    {
        self.pairs.len()
    }

    /// Removes every named key, returning, in first-occurrence order, the
    /// names that were actually bound — the selection an admin's
    /// delete-secret request reports back.
    #[verifier::loop_isolation(false)]
    pub fn remove_keys(&mut self, keys: &Vec<String>) -> (deleted: Vec<String>)
        requires
            old(self).wf(),
        ensures
            final(self).wf(),
            forall|i: int|
                0 <= i < keys@.len() ==> final(self).spec_get(#[trigger] keys@[i]@) is None,
            forall|k: Seq<char>|
                !key_named(keys@, k) ==> #[trigger] final(self).spec_get(k) == old(
                    self,
                ).spec_get(k),
            forall|j: int|
                0 <= j < deleted@.len() ==> key_named(keys@, #[trigger] deleted@[j]@) && old(
                    self,
                ).spec_get(deleted@[j]@) is Some,
            forall|i: int|
                0 <= i < keys@.len() && old(self).spec_get(#[trigger] keys@[i]@) is Some ==> (
                exists|j: int| 0 <= j < deleted@.len() && #[trigger] deleted@[j]@ == keys@[i]@),
            forall|j1: int, j2: int|
                0 <= j1 < j2 < deleted@.len() ==> #[trigger] deleted@[j1]@ != #[trigger] deleted@[
                    j2]@,
    {
        let n = keys.len();
        let mut deleted: Vec<String> = Vec::new();
        for i in 0..n
            invariant
                n == keys@.len(),
                self.wf(),
                forall|i2: int|
                    0 <= i2 < i ==> self.spec_get(#[trigger] keys@[i2]@) is None,
                forall|k: Seq<char>|
                    !key_named(keys@.subrange(0, i as int), k) ==> #[trigger] self.spec_get(k)
                        == old(self).spec_get(k),
                forall|j: int|
                    0 <= j < deleted@.len() ==> key_named(
                        keys@.subrange(0, i as int),
                        #[trigger] deleted@[j]@,
                    ) && old(self).spec_get(deleted@[j]@) is Some,
                forall|i2: int|
                    0 <= i2 < i && old(self).spec_get(#[trigger] keys@[i2]@) is Some ==> (exists|
                        j: int,
                    |
                        0 <= j < deleted@.len() && #[trigger] deleted@[j]@ == keys@[i2]@),
                forall|j1: int, j2: int|
                    0 <= j1 < j2 < deleted@.len() ==> #[trigger] deleted@[j1]@
                        != #[trigger] deleted@[j2]@,
        {
            let ghost pre_get = self.spec_get(keys@[i as int]@);
            let ghost pre_deleted = deleted@;
            proof {
                assert forall|k: Seq<char>|
                    key_named(keys@.subrange(0, i + 1), k) implies (key_named(
                    keys@.subrange(0, i as int),
                    k,
                ) || k == keys@[i as int]@) by {
                    let i2 = choose|i2: int|
                        0 <= i2 < keys@.subrange(0, i + 1).len() && #[trigger] keys@.subrange(
                            0,
                            i + 1,
                        )[i2]@ == k;
                    if i2 < i {
                        assert(keys@.subrange(0, i as int)[i2]@ == k);
                    } else {
                        assert(keys@.subrange(0, i + 1)[i2] == keys@[i as int]);
                    }
                }
                assert forall|k: Seq<char>|
                    key_named(keys@.subrange(0, i as int), k) implies key_named(
                    keys@.subrange(0, i + 1),
                    k,
                ) by {
                    let i2 = choose|i2: int|
                        0 <= i2 < i && #[trigger] keys@.subrange(0, i as int)[i2]@ == k;
                    assert(keys@.subrange(0, i + 1)[i2]@ == k);
                }
                assert(key_named(keys@.subrange(0, i + 1), keys@[i as int]@)) by {
                    assert(keys@.subrange(0, i + 1)[i as int] == keys@[i as int]);
                }
            }
            match self.remove(keys[i].as_str()) {
                Some(_) => {
                    proof {
                        assert(pre_get is Some);
                        if key_named(keys@.subrange(0, i as int), keys@[i as int]@) {
                            assert(self.spec_get(keys@[i as int]@) is None);
                        }
                        assert(old(self).spec_get(keys@[i as int]@) is Some);
                        assert forall|j: int|
                            0 <= j < pre_deleted.len() implies #[trigger] pre_deleted[j]@
                            != keys@[i as int]@ by {
                            if pre_deleted[j]@ == keys@[i as int]@ {
                                assert(key_named(
                                    keys@.subrange(0, i as int),
                                    keys@[i as int]@,
                                ));
                            }
                        }
                    }
                    deleted.push(keys[i].clone());
                    proof {
                        assert(deleted@[pre_deleted.len() as int]@ == keys@[i as int]@);
                        assert forall|i2: int|
                            0 <= i2 < i + 1 && old(self).spec_get(#[trigger] keys@[i2]@)
                                is Some implies (exists|j: int|
                            0 <= j < deleted@.len() && #[trigger] deleted@[j]@ == keys@[i2]@) by {
                            if i2 < i {
                                let j = choose|j: int|
                                    0 <= j < pre_deleted.len() && #[trigger] pre_deleted[j]@
                                        == keys@[i2]@;
                                assert(deleted@[j]@ == keys@[i2]@);
                            } else {
                                assert(deleted@[pre_deleted.len() as int]@ == keys@[i2]@);
                            }
                        }
                    }
                },
                None => {
                    proof {
                        assert forall|i2: int|
                            0 <= i2 < i + 1 && old(self).spec_get(#[trigger] keys@[i2]@)
                                is Some implies (exists|j: int|
                            0 <= j < deleted@.len() && #[trigger] deleted@[j]@ == keys@[i2]@) by {
                            if i2 == i {
                                assert(key_named(keys@.subrange(0, i as int), keys@[i as int]@));
                                let ip = choose|ip: int|
                                    0 <= ip < i && #[trigger] keys@.subrange(0, i as int)[ip]@
                                        == keys@[i as int]@;
                                assert(keys@[ip]@ == keys@[i as int]@);
                                let j = choose|j: int|
                                    0 <= j < deleted@.len() && #[trigger] deleted@[j]@
                                        == keys@[ip]@;
                                assert(deleted@[j]@ == keys@[i2]@);
                            }
                        }
                    }
                },
            }
        }
        proof {
            assert forall|k: Seq<char>| key_named(keys@, k) implies key_named(
                keys@.subrange(0, n as int),
                k,
            ) by {
                assert(keys@.subrange(0, n as int) =~= keys@);
            }
            assert forall|k: Seq<char>| key_named(keys@.subrange(0, n as int), k) implies key_named(
                keys@,
                k,
            ) by {
                assert(keys@.subrange(0, n as int) =~= keys@);
            }
        }
        deleted
    }

    /// Consumes the map into pairs ready for environment injection.
    pub fn into_env_vars(self) -> (r: Vec<(String, String)>)
        ensures
            r@.map_values(|e: (String, String)| (e.0@, e.1@)) == self.view_pairs(),
    {
        let ghost v = self.view_pairs();
        let r = self.pairs;
        proof {
            assert(r@.map_values(|e: (String, String)| (e.0@, e.1@)) =~= v);
        }
        r
    }
}

/// Whether some entry of `keys` has the name `k`.
pub open spec fn key_named(keys: Seq<String>, k: Seq<char>) -> bool {
    exists|i: int| 0 <= i < keys.len() && #[trigger] keys[i]@ == k
}

/// A character kept as-is by component-id sanitization: ASCII letters and
/// digits, dot, underscore and hyphen.
pub open spec fn is_safe_id_char(c: char) -> bool {
    is_ascii_letter(c) || is_ascii_digit(c) || c == '.' || c == '_' || c == '-'
}

/// Component-id sanitization: every unsafe character becomes `_`,
/// consecutive `_` collapse to one, and the result is cut to 128
/// characters. Every kept character is ASCII, so 128 characters are at most
/// 128 bytes.
pub open spec fn spec_sanitize(s: Seq<char>) -> Seq<char> {
    let mapped = collapse_underscores(s.map_values(|c: char| replace_unsafe(c)));
    if mapped.len() > 128 {
        mapped.subrange(0, 128)
    } else {
        mapped
    }
}

/// One sanitization step: a safe character stands, everything else is `_`.
pub open spec fn replace_unsafe(c: char) -> char {
    if is_safe_id_char(c) {
        c
    } else {
        '_'
    }
}

/// Collapses runs of `_` to a single `_`.
pub open spec fn collapse_underscores(s: Seq<char>) -> Seq<char>
    decreases s,
{
    if s.len() == 0 {
        Seq::empty()
    } else {
        let rest = collapse_underscores(s.drop_last());
        if s.last() == '_' && rest.len() > 0 && rest.last() == '_' {
            rest
        } else {
            rest.push(s.last())
        }
    }
}

/// Sanitizes a component id into a safe file-name stem.
///
/// Characters outside ASCII letters, digits, `.`, `_` and `-` become `_`,
/// runs of `_` collapse to one, and the result is cut to 128 characters on
/// a character boundary.
#[verifier::loop_isolation(false)]
pub fn sanitize_component_id(component_id: &str) -> (r: String)
    ensures
        r@ == spec_sanitize(component_id@),
{
    let chars = str_to_chars(component_id);
    let n = chars.len();
    let mut out: Vec<char> = Vec::new();
    for i in 0..n
        invariant
            n == chars@.len(),
            chars@ == component_id@,
            out@ == collapse_underscores(
                component_id@.subrange(0, i as int).map_values(|c: char| replace_unsafe(c)),
            ),
    {
        let c = chars[i];
        let mapped: char = if ascii_alphanumeric(c) || c == '.' || c == '_' || c == '-' {
            c
        } else {
            '_'
        };
        proof {
            let pre = component_id@.subrange(0, i as int).map_values(|c: char| replace_unsafe(c));
            let cur = component_id@.subrange(0, i + 1).map_values(|c: char| replace_unsafe(c));
            assert(cur.drop_last() =~= pre);
            assert(cur.last() == replace_unsafe(component_id@[i as int]));
            assert(mapped == replace_unsafe(component_id@[i as int]));
        }
        if mapped == '_' && out.len() > 0 && out[out.len() - 1] == '_' {
        } else {
            out.push(mapped);
        }
    }
    proof {
        assert(component_id@.subrange(0, n as int) =~= component_id@);
    }
    let collapsed_len = out.len();
    let trimmed: Vec<char> = if collapsed_len > 128 {
        crate::text::chars_prefix(&out, 128)
    } else {
        out
    };
    chars_to_string(&trimmed)
}

/// The file name a component's secrets persist under: the sanitized id with
/// a `yaml` extension.
pub fn secret_file_name(component_id: &str) -> (r: String)
    ensures
        r@ == spec_sanitize(component_id@) + ".yaml"@,
{
    let mut out = sanitize_component_id(component_id);
    out.append(".yaml");
    out
}

/// The freshness rule of the secret cache: a cached copy may serve only
/// while the file's observed modification time has not moved past the one
/// the copy was read at.
pub fn cache_is_fresh(cached_mtime_ms: u64, current_mtime_ms: u64) -> (r: bool)
    ensures
        r == (cached_mtime_ms >= current_mtime_ms),
{
    cached_mtime_ms >= current_mtime_ms
}

/// In a well-formed pair sequence, finding by the key at index `i` yields
/// the value at index `i`.
proof fn lemma_sm_find_unique(entries: Seq<(Seq<char>, Seq<char>)>, key: Seq<char>, i: int)
    requires
        0 <= i < entries.len(),
        entries[i].0 == key,
        forall|a: int, b: int|
            0 <= a < b < entries.len() ==> #[trigger] entries[a].0 != #[trigger] entries[b].0,
    ensures
        sm_find(entries, key) == Some(entries[i].1),
    decreases entries.len(),
{
    if entries.len() > 0 {
        if i == entries.len() - 1 {
            assert(entries.last().0 == key);
        } else {
            assert(entries.last().0 != key) by {
                assert(entries[i].0 != entries[entries.len() - 1].0);
            }
            lemma_sm_find_unique(entries.drop_last(), key, i);
        }
    }
}

/// A key matching no entry is not found.
proof fn lemma_sm_find_absent(entries: Seq<(Seq<char>, Seq<char>)>, key: Seq<char>)
    requires
        forall|j: int| 0 <= j < entries.len() ==> #[trigger] entries[j].0 != key,
    ensures
        sm_find(entries, key) is None,
    decreases entries.len(),
{
    if entries.len() > 0 {
        lemma_sm_find_absent(entries.drop_last(), key);
    }
}

/// A found key matches some entry.
pub proof fn lemma_sm_find_some_exists(entries: Seq<(Seq<char>, Seq<char>)>, key: Seq<char>)
    requires
        sm_find(entries, key) is Some,
    ensures
        exists|i: int| 0 <= i < entries.len() && #[trigger] entries[i].0 == key,
    decreases entries.len(),
{
    if entries.len() > 0 {
        if entries.last().0 == key {
            assert(entries[entries.len() - 1].0 == key);
        } else {
            lemma_sm_find_some_exists(entries.drop_last(), key);
            let i = choose|i: int|
                0 <= i < entries.drop_last().len() && #[trigger] entries.drop_last()[i].0 == key;
            assert(entries[i].0 == key);
        }
    }
}

/// A key that is not found matches no entry.
proof fn lemma_sm_find_none_absent(entries: Seq<(Seq<char>, Seq<char>)>, key: Seq<char>)
    requires
        sm_find(entries, key) is None,
    ensures
        forall|j: int| 0 <= j < entries.len() ==> #[trigger] entries[j].0 != key,
    decreases entries.len(),
{
    if entries.len() > 0 {
        lemma_sm_find_none_absent(entries.drop_last(), key);
        assert(forall|j: int|
            0 <= j < entries.len() - 1 ==> #[trigger] entries[j].0 == entries.drop_last()[j].0);
    }
}

/// Updating the entry at the key's own index rebinds the key and leaves
/// every other key's result alone.
proof fn lemma_sm_find_update(
    entries: Seq<(Seq<char>, Seq<char>)>,
    key: Seq<char>,
    i: int,
    v: Seq<char>,
)
    requires
        0 <= i < entries.len(),
        entries[i].0 == key,
        forall|a: int, b: int|
            0 <= a < b < entries.len() ==> #[trigger] entries[a].0 != #[trigger] entries[b].0,
    ensures
        sm_find(entries.update(i, (key, v)), key) == Some(v),
        forall|k2: Seq<char>|
            k2 != key ==> #[trigger] sm_find(entries.update(i, (key, v)), k2) == sm_find(
                entries,
                k2,
            ),
        forall|a: int, b: int|
            0 <= a < b < entries.update(i, (key, v)).len() ==> #[trigger] entries.update(
                i,
                (key, v),
            )[a].0 != #[trigger] entries.update(i, (key, v))[b].0,
{
    let upd = entries.update(i, (key, v));
    assert(forall|a: int| 0 <= a < entries.len() && a != i ==> upd[a] == entries[a]);
    assert(upd[i] == (key, v));
    lemma_sm_find_unique(upd, key, i);
    assert forall|k2: Seq<char>| k2 != key implies #[trigger] sm_find(upd, k2) == sm_find(
        entries,
        k2,
    ) by {
        lemma_sm_find_agree(entries, upd, k2);
    }
}

/// Two pair sequences of one length that agree at every position whose key
/// is `k2`, and on which positions those are, are found alike at `k2`.
proof fn lemma_sm_find_agree(
    e1: Seq<(Seq<char>, Seq<char>)>,
    e2: Seq<(Seq<char>, Seq<char>)>,
    k2: Seq<char>,
)
    requires
        e1.len() == e2.len(),
        forall|a: int| 0 <= a < e1.len() ==> (#[trigger] e1[a].0 == k2 <==> #[trigger] e2[a].0 == k2),
        forall|a: int| 0 <= a < e1.len() && #[trigger] e1[a].0 == k2 ==> e1[a] == e2[a],
    ensures
        sm_find(e1, k2) == sm_find(e2, k2),
    decreases e1.len(),
{
    if e1.len() > 0 {
        let m = e1.len() - 1;
        if e1[m].0 == k2 {
            assert(e1[m] == e2[m]);
        } else {
            assert(e2[m].0 != k2);
            lemma_sm_find_agree(e1.drop_last(), e2.drop_last(), k2);
        }
    }
}

/// Pushing a fresh binding makes its key found and leaves other keys alone.
proof fn lemma_sm_find_push(entries: Seq<(Seq<char>, Seq<char>)>, key: Seq<char>, v: Seq<char>)
    ensures
        sm_find(entries.push((key, v)), key) == Some(v),
        forall|k2: Seq<char>|
            k2 != key ==> #[trigger] sm_find(entries.push((key, v)), k2) == sm_find(entries, k2),
{
    let pushed = entries.push((key, v));
    assert(pushed.last() == (key, v));
    assert forall|k2: Seq<char>| k2 != key implies #[trigger] sm_find(pushed, k2) == sm_find(
        entries,
        k2,
    ) by {
        assert(pushed.drop_last() =~= entries);
    }
}

/// Removing the key's entry unbinds it and leaves other keys alone.
proof fn lemma_sm_find_remove(entries: Seq<(Seq<char>, Seq<char>)>, key: Seq<char>, i: int)
    requires
        0 <= i < entries.len(),
        entries[i].0 == key,
        forall|a: int, b: int|
            0 <= a < b < entries.len() ==> #[trigger] entries[a].0 != #[trigger] entries[b].0,
    ensures
        sm_find(entries.remove(i), key) is None,
        forall|k2: Seq<char>|
            k2 != key ==> #[trigger] sm_find(entries.remove(i), k2) == sm_find(entries, k2),
        forall|a: int, b: int|
            0 <= a < b < entries.remove(i).len() ==> #[trigger] entries.remove(i)[a].0
                != #[trigger] entries.remove(i)[b].0,
    decreases entries.len(),
{
    let rem = entries.remove(i);
    assert forall|k: int|
        0 <= k < rem.len() implies #[trigger] rem[k] == (if k < i {
        entries[k]
    } else {
        entries[k + 1]
    }) by {
        if k < i {
            assert(rem[k] == entries[k]);
        } else {
            assert(rem[k] == entries[k + 1]);
        }
    }
    assert(sm_find(rem, key) is None) by {
        assert forall|k: int| 0 <= k < rem.len() implies #[trigger] rem[k].0 != key by {
            if k < i {
                assert(entries[k].0 != entries[i].0);
            } else {
                assert(entries[i].0 != entries[k + 1].0);
            }
        }
        lemma_sm_find_absent(rem, key);
    }
    assert forall|k2: Seq<char>| k2 != key implies #[trigger] sm_find(rem, k2) == sm_find(
        entries,
        k2,
    ) by {
        lemma_sm_find_remove_other(entries, k2, key, i);
    }
}

/// Removing the entry of a different key does not change what another key
/// finds.
proof fn lemma_sm_find_remove_other(
    entries: Seq<(Seq<char>, Seq<char>)>,
    k2: Seq<char>,
    key: Seq<char>,
    i: int,
)
    requires
        0 <= i < entries.len(),
        entries[i].0 == key,
        k2 != key,
    ensures
        sm_find(entries.remove(i), k2) == sm_find(entries, k2),
    decreases entries.len(),
{
    let rem = entries.remove(i);
    if entries.len() > 0 {
        if i == entries.len() - 1 {
            assert(rem =~= entries.drop_last());
            assert(entries.last().0 == key);
        } else {
            assert(rem.last() == entries.last());
            if entries.last().0 == k2 {
            } else {
                assert(rem.drop_last() =~= entries.drop_last().remove(i));
                assert(entries.drop_last()[i].0 == key);
                lemma_sm_find_remove_other(entries.drop_last(), k2, key, i);
            }
        }
    }
}

} // verus!
