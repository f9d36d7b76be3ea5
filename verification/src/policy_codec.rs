//! The canonical YAML encoding of a policy document.
//!
//! The emitter writes one fixed shape — two-space indentation, sections in
//! a fixed order, scalars double-quoted — and the decoder specification
//! reads exactly that shape back. The pair is exact: decoding an encoded
//! document returns the document, for every document (see
//! [`lemma_policy_round_trip`]), so a policy survives its trip through the
//! file system up to key order and whitespace.

use vstd::prelude::*;

use crate::policy::{
    AccessType, EnvEntry, HostEntry, PolicyDocument, StorageEntry,
};
use crate::sandbox::starts_with;
use crate::secrets_codec::{esc_str, lemma_parse_quoted_shrinks, lemma_quoted_round_trip,
    spec_parse_quoted};
use crate::text::{chars_to_string, str_to_chars};

verus! {

/// The view of a policy document: every string as its characters.
pub struct PolicyView {
    /// The format version.
    pub version: Seq<char>,
    /// The description, if present.
    pub description: Option<Seq<char>>,
    /// The network section: present or not, its allow list present or not,
    /// the granted hosts.
    pub network: Option<Option<Seq<Seq<char>>>>,
    /// The storage section: URI and access kinds per entry.
    pub storage: Option<Option<Seq<(Seq<char>, Seq<AccessType>)>>>,
    /// The environment section: the projected keys.
    pub environment: Option<Option<Seq<Seq<char>>>>,
    /// The resources section, if present.
    pub resources: Option<ResourcesView>,
}

/// The view of a resources section.
pub struct ResourcesView {
    /// The limits subsection: present or not, and its memory string.
    pub limits_memory: Option<Option<Seq<char>>>,
    /// The legacy numeric MiB field.
    pub legacy_memory: Option<nat>,
}

/// The view of the network section.
pub open spec fn network_view(n: Option<crate::policy::NetworkPolicy>) -> Option<
    Option<Seq<Seq<char>>>,
> {
    match n {
        None => None,
        Some(np) => Some(
            match np.allow {
                None => None,
                Some(items) => Some(items@.map_values(|e: HostEntry| e.host@)),
            },
        ),
    }
}

/// The view of the storage section.
pub open spec fn storage_view(st: Option<crate::policy::StoragePolicy>) -> Option<
    Option<Seq<(Seq<char>, Seq<AccessType>)>>,
> {
    match st {
        None => None,
        Some(sp) => Some(
            match sp.allow {
                None => None,
                Some(items) => Some(items@.map_values(|e: StorageEntry| (e.uri@, e.access@))),
            },
        ),
    }
}

/// The view of the environment section.
pub open spec fn environment_view(env: Option<crate::policy::EnvironmentPolicy>) -> Option<
    Option<Seq<Seq<char>>>,
> {
    match env {
        None => None,
        Some(ep) => Some(
            match ep.allow {
                None => None,
                Some(items) => Some(items@.map_values(|e: EnvEntry| e.key@)),
            },
        ),
    }
}

/// The view of the resources section.
pub open spec fn resources_view(res: Option<crate::policy::ResourcePolicy>) -> Option<
    ResourcesView,
> {
    match res {
        None => None,
        Some(rp) => Some(
            ResourcesView {
                limits_memory: match rp.limits {
                    None => None,
                    Some(l) => Some(
                        match l.memory {
                            None => None,
                            Some(m) => Some(m@),
                        },
                    ),
                },
                legacy_memory: match rp.memory {
                    None => None,
                    Some(n) => Some(n as nat),
                },
            },
        ),
    }
}

/// The view of a policy document.
pub open spec fn policy_view(d: PolicyDocument) -> PolicyView {
    PolicyView {
        version: d.version@,
        description: match d.description {
            None => None,
            Some(s) => Some(s@),
        },
        network: network_view(d.permissions.network),
        storage: storage_view(d.permissions.storage),
        environment: environment_view(d.permissions.environment),
        resources: resources_view(d.permissions.resources),
    }
}

/// A double-quoted scalar.
pub open spec fn q(s: Seq<char>) -> Seq<char> {
    seq!['"'] + esc_str(s) + seq!['"']
}

/// The canonical word of an access kind.
pub open spec fn access_word(a: AccessType) -> Seq<char> {
    match a {
        AccessType::Read => "read"@,
        AccessType::Write => "write"@,
    }
}

/// The flow-list body of an access list: quoted words joined by `, `.
pub open spec fn emit_access_body(access: Seq<AccessType>) -> Seq<char>
    decreases access,
{
    if access.len() == 0 {
        Seq::empty()
    } else if access.len() == 1 {
        q(access_word(access[0]))
    } else {
        q(access_word(access[0])) + ", "@ + emit_access_body(access.drop_first())
    }
}

/// The lines of the network allow items.
pub open spec fn emit_host_items(items: Seq<Seq<char>>) -> Seq<char>
    decreases items,
{
    if items.len() == 0 {
        Seq::empty()
    } else {
        "      - host: "@ + q(items[0]) + "\n"@ + emit_host_items(items.drop_first())
    }
}

/// The lines of the storage allow items.
pub open spec fn emit_storage_items(items: Seq<(Seq<char>, Seq<AccessType>)>) -> Seq<char>
    decreases items,
{
    if items.len() == 0 {
        Seq::empty()
    } else {
        "      - uri: "@ + q(items[0].0) + "\n"@ + "        access: ["@ + emit_access_body(
            items[0].1,
        ) + "]\n"@ + emit_storage_items(items.drop_first())
    }
}

/// The lines of the environment allow items.
pub open spec fn emit_env_items(items: Seq<Seq<char>>) -> Seq<char>
    decreases items,
{
    if items.len() == 0 {
        Seq::empty()
    } else {
        "      - key: "@ + q(items[0]) + "\n"@ + emit_env_items(items.drop_first())
    }
}

/// A section body: a bare `allow` key for a missing list, an empty flow
/// list, or one item per line.
pub open spec fn emit_allow_lines(items: Option<Seq<char>>, empty: bool) -> Seq<char> {
    match items {
        None => "    allow:\n"@,
        Some(lines) => if empty {
            "    allow: []\n"@
        } else {
            "    allow:\n"@ + lines
        },
    }
}

/// The network section's text.
pub open spec fn emit_network(n: Option<Option<Seq<Seq<char>>>>) -> Seq<char> {
    match n {
        None => Seq::empty(),
        Some(allow) => "  network:\n"@ + (match allow {
            None => emit_allow_lines(None, false),
            Some(items) => emit_allow_lines(Some(emit_host_items(items)), items.len() == 0),
        }),
    }
}

/// The storage section's text.
pub open spec fn emit_storage(st: Option<Option<Seq<(Seq<char>, Seq<AccessType>)>>>) -> Seq<char> {
    match st {
        None => Seq::empty(),
        Some(allow) => "  storage:\n"@ + (match allow {
            None => emit_allow_lines(None, false),
            Some(items) => emit_allow_lines(Some(emit_storage_items(items)), items.len() == 0),
        }),
    }
}

/// The environment section's text.
pub open spec fn emit_environment(env: Option<Option<Seq<Seq<char>>>>) -> Seq<char> {
    match env {
        None => Seq::empty(),
        Some(allow) => "  environment:\n"@ + (match allow {
            None => emit_allow_lines(None, false),
            Some(items) => emit_allow_lines(Some(emit_env_items(items)), items.len() == 0),
        }),
    }
}

/// The resources section's text.
pub open spec fn emit_resources(res: Option<ResourcesView>) -> Seq<char> {
    match res {
        None => Seq::empty(),
        Some(rv) => "  resources:\n"@ + (match rv.limits_memory {
            None => Seq::empty(),
            Some(mem) => "    limits:\n"@ + (match mem {
                None => Seq::empty(),
                Some(m) => "      memory: "@ + q(m) + "\n"@,
            }),
        }) + (match rv.legacy_memory {
            None => Seq::empty(),
            Some(n) => "    memory: "@ + q(crate::logging::spec_dec_digits(n)) + "\n"@,
        }),
    }
}

/// The canonical encoding of a policy view.
pub open spec fn spec_emit_policy(v: PolicyView) -> Seq<char> {
    "version: "@ + q(v.version) + "\n"@ + (match v.description {
        None => Seq::empty(),
        Some(desc) => "description: "@ + q(desc) + "\n"@,
    }) + "permissions:\n"@ + emit_network(v.network) + emit_storage(v.storage) + emit_environment(
        v.environment,
    ) + emit_resources(v.resources)
}

/// The remainder of `s` after a literal prefix, when it is one.
pub open spec fn after_lit(s: Seq<char>, lit: Seq<char>) -> Option<Seq<char>> {
    if starts_with(s, lit) {
        Some(s.subrange(lit.len() as int, s.len() as int))
    } else {
        None
    }
}

/// Decodes `prefix "content"` followed by a newline.
pub open spec fn parse_quoted_line(s: Seq<char>, prefix: Seq<char>) -> Option<
    (Seq<char>, Seq<char>),
> {
    match after_lit(s, prefix) {
        None => None,
        Some(r0) => if r0.len() >= 1 && r0[0] == '"' {
            match spec_parse_quoted(r0.drop_first()) {
                None => None,
                Some(p) => if p.1.len() >= 1 && p.1[0] == '\n' {
                    Some((p.0, p.1.drop_first()))
                } else {
                    None
                },
            }
        } else {
            None
        },
    }
}

/// Decoding a quoted line strictly shrinks the input.
pub proof fn lemma_quoted_line_shrinks(s: Seq<char>, prefix: Seq<char>)
    ensures
        parse_quoted_line(s, prefix) matches Some(p) ==> p.1.len() < s.len(),
{
    match after_lit(s, prefix) {
        None => {},
        Some(r0) => {
            if r0.len() >= 1 && r0[0] == '"' {
                lemma_parse_quoted_shrinks(r0.drop_first());
            }
        },
    }
}

/// Decoding an access flow-list body consumes at least its closing
/// bracket.
pub proof fn lemma_access_body_shrinks(s: Seq<char>, first: bool)
    ensures
        parse_access_body(s, first) matches Some(p) ==> p.1.len() < s.len(),
    decreases s.len(),
{
    if s.len() >= 1 && s[0] == ']' {
    } else {
        let sep: Option<Seq<char>> = if first {
            Some(s)
        } else {
            after_lit(s, ", "@)
        };
        match sep {
            None => {},
            Some(r0) => {
                if r0.len() >= 1 && r0[0] == '"' {
                    match spec_parse_quoted(r0.drop_first()) {
                        None => {},
                        Some(p) => {
                            lemma_parse_quoted_shrinks(r0.drop_first());
                            if p.1.len() < s.len() {
                                lemma_access_body_shrinks(p.1, false);
                            }
                        },
                    }
                }
            },
        }
    }
}

/// Decodes the body of an access flow list up to its closing bracket.
pub open spec fn parse_access_body(s: Seq<char>, first: bool) -> Option<
    (Seq<AccessType>, Seq<char>),
>
    decreases s.len(),
{
    if s.len() >= 1 && s[0] == ']' {
        Some((Seq::empty(), s.drop_first()))
    } else {
        let sep: Option<Seq<char>> = if first {
            Some(s)
        } else {
            after_lit(s, ", "@)
        };
        match sep {
            None => None,
            Some(r0) => if r0.len() >= 1 && r0[0] == '"' {
                match spec_parse_quoted(r0.drop_first()) {
                    None => None,
                    Some(p) => {
                        let word: Option<AccessType> = if p.0 == "read"@ {
                            Some(AccessType::Read)
                        } else if p.0 == "write"@ {
                            Some(AccessType::Write)
                        } else {
                            None
                        };
                        match word {
                            None => None,
                            Some(a) => {
                                proof {
                                    lemma_parse_quoted_shrinks(r0.drop_first());
                                }
                                if p.1.len() < s.len() {
                                    match parse_access_body(p.1, false) {
                                        None => None,
                                        Some(rest) => Some((seq![a] + rest.0, rest.1)),
                                    }
                                } else {
                                    None
                                }
                            },
                        }
                    },
                }
            } else {
                None
            },
        }
    }
}

/// Decodes a run of network allow items.
pub open spec fn parse_host_items(s: Seq<char>) -> Option<(Seq<Seq<char>>, Seq<char>)>
    decreases s.len(),
{
    if !starts_with(s, "      - host: "@) {
        Some((Seq::empty(), s))
    } else {
        match parse_quoted_line(s, "      - host: "@) {
            None => None,
            Some(p) => {
                proof {
                    lemma_quoted_line_shrinks(s, "      - host: "@);
                }
                if p.1.len() < s.len() {
                    match parse_host_items(p.1) {
                        None => None,
                        Some(rest) => Some((seq![p.0] + rest.0, rest.1)),
                    }
                } else {
                    None
                }
            },
        }
    }
}

/// Decodes a run of storage allow items.
pub open spec fn parse_storage_items(s: Seq<char>) -> Option<
    (Seq<(Seq<char>, Seq<AccessType>)>, Seq<char>),
>
    decreases s.len(),
{
    if !starts_with(s, "      - uri: "@) {
        Some((Seq::empty(), s))
    } else {
        match parse_quoted_line(s, "      - uri: "@) {
            None => None,
            Some(p) => {
                proof {
                    lemma_quoted_line_shrinks(s, "      - uri: "@);
                }
                match after_lit(p.1, "        access: ["@) {
                    None => None,
                    Some(r1) => match parse_access_body(r1, true) {
                        None => None,
                        Some(ab) => match after_lit(ab.1, "\n"@) {
                            None => None,
                            Some(r2) => {
                                if r2.len() < s.len() {
                                    match parse_storage_items(r2) {
                                        None => None,
                                        Some(rest) => Some(
                                            (seq![(p.0, ab.0)] + rest.0, rest.1),
                                        ),
                                    }
                                } else {
                                    None
                                }
                            },
                        },
                    },
                }
            },
        }
    }
}

/// Decodes a run of environment allow items.
pub open spec fn parse_env_items(s: Seq<char>) -> Option<(Seq<Seq<char>>, Seq<char>)>
    decreases s.len(),
{
    if !starts_with(s, "      - key: "@) {
        Some((Seq::empty(), s))
    } else {
        match parse_quoted_line(s, "      - key: "@) {
            None => None,
            Some(p) => {
                proof {
                    lemma_quoted_line_shrinks(s, "      - key: "@);
                }
                if p.1.len() < s.len() {
                    match parse_env_items(p.1) {
                        None => None,
                        Some(rest) => Some((seq![p.0] + rest.0, rest.1)),
                    }
                } else {
                    None
                }
            },
        }
    }
}

/// Decodes an `allow` block: an empty flow list, a bare key, or items —
/// the generic shape; `items` is the decoded item run of the right kind
/// handed in by the caller's section parser.
pub open spec fn allow_of<T>(items: Seq<T>) -> Option<Seq<T>> {
    if items.len() == 0 {
        None
    } else {
        Some(items)
    }
}

/// Decodes the network section when present.
pub open spec fn parse_network(s: Seq<char>) -> Option<
    (Option<Option<Seq<Seq<char>>>>, Seq<char>),
> {
    if !starts_with(s, "  network:\n"@) {
        Some((None, s))
    } else {
        let r0 = s.subrange("  network:\n"@.len() as int, s.len() as int);
        if starts_with(r0, "    allow: []\n"@) {
            Some(
                (
                    Some(Some(Seq::empty())),
                    r0.subrange("    allow: []\n"@.len() as int, r0.len() as int),
                ),
            )
        } else if starts_with(r0, "    allow:\n"@) {
            let r1 = r0.subrange("    allow:\n"@.len() as int, r0.len() as int);
            match parse_host_items(r1) {
                None => None,
                Some(p) => Some((Some(allow_of(p.0)), p.1)),
            }
        } else {
            None
        }
    }
}

/// Decodes the storage section when present.
pub open spec fn parse_storage(s: Seq<char>) -> Option<
    (Option<Option<Seq<(Seq<char>, Seq<AccessType>)>>>, Seq<char>),
> {
    if !starts_with(s, "  storage:\n"@) {
        Some((None, s))
    } else {
        let r0 = s.subrange("  storage:\n"@.len() as int, s.len() as int);
        if starts_with(r0, "    allow: []\n"@) {
            Some(
                (
                    Some(Some(Seq::empty())),
                    r0.subrange("    allow: []\n"@.len() as int, r0.len() as int),
                ),
            )
        } else if starts_with(r0, "    allow:\n"@) {
            let r1 = r0.subrange("    allow:\n"@.len() as int, r0.len() as int);
            match parse_storage_items(r1) {
                None => None,
                Some(p) => Some((Some(allow_of(p.0)), p.1)),
            }
        } else {
            None
        }
    }
}

/// Decodes the environment section when present.
pub open spec fn parse_environment(s: Seq<char>) -> Option<
    (Option<Option<Seq<Seq<char>>>>, Seq<char>),
> {
    if !starts_with(s, "  environment:\n"@) {
        Some((None, s))
    } else {
        let r0 = s.subrange("  environment:\n"@.len() as int, s.len() as int);
        if starts_with(r0, "    allow: []\n"@) {
            Some(
                (
                    Some(Some(Seq::empty())),
                    r0.subrange("    allow: []\n"@.len() as int, r0.len() as int),
                ),
            )
        } else if starts_with(r0, "    allow:\n"@) {
            let r1 = r0.subrange("    allow:\n"@.len() as int, r0.len() as int);
            match parse_env_items(r1) {
                None => None,
                Some(p) => Some((Some(allow_of(p.0)), p.1)),
            }
        } else {
            None
        }
    }
}

/// Decodes the resources section when present.
pub open spec fn parse_resources(s: Seq<char>) -> Option<(Option<ResourcesView>, Seq<char>)> {
    if !starts_with(s, "  resources:\n"@) {
        Some((None, s))
    } else {
        let r0 = s.subrange("  resources:\n"@.len() as int, s.len() as int);
        let limits_step: Option<(Option<Option<Seq<char>>>, Seq<char>)> = if starts_with(
            r0,
            "    limits:\n"@,
        ) {
            let r1 = r0.subrange("    limits:\n"@.len() as int, r0.len() as int);
            if starts_with(r1, "      memory: "@) {
                match parse_quoted_line(r1, "      memory: "@) {
                    None => None,
                    Some(p) => Some((Some(Some(p.0)), p.1)),
                }
            } else {
                Some((Some(None), r1))
            }
        } else {
            Some((None, r0))
        };
        match limits_step {
            None => None,
            Some(ls) => {
                let legacy_step: Option<(Option<nat>, Seq<char>)> = if starts_with(
                    ls.1,
                    "    memory: "@,
                ) {
                    match parse_quoted_line(ls.1, "    memory: "@) {
                        None => None,
                        Some(p) => if crate::sandbox::all_digits(p.0) && crate::sandbox::dec_val(
                            p.0,
                        ) <= u64::MAX && p.0 == crate::logging::spec_dec_digits(
                            crate::sandbox::dec_val(p.0),
                        ) {
                            Some((Some(crate::sandbox::dec_val(p.0)), p.1))
                        } else {
                            None
                        },
                    }
                } else {
                    Some((None, ls.1))
                };
                match legacy_step {
                    None => None,
                    Some(gs) => Some((Some(ResourcesView { limits_memory: ls.0, legacy_memory: gs.0 }), gs.1)),
                }
            },
        }
    }
}

/// Decodes a whole policy document; the input must be consumed exactly.
pub open spec fn spec_parse_policy(s: Seq<char>) -> Option<PolicyView> {
    match parse_quoted_line(s, "version: "@) {
        None => None,
        Some(vp) => {
            let desc_step: Option<(Option<Seq<char>>, Seq<char>)> = if starts_with(
                vp.1,
                "description: "@,
            ) {
                match parse_quoted_line(vp.1, "description: "@) {
                    None => None,
                    Some(p) => Some((Some(p.0), p.1)),
                }
            } else {
                Some((None, vp.1))
            };
            match desc_step {
                None => None,
                Some(ds) => match after_lit(ds.1, "permissions:\n"@) {
                    None => None,
                    Some(r0) => match parse_network(r0) {
                        None => None,
                        Some(np) => match parse_storage(np.1) {
                            None => None,
                            Some(sp) => match parse_environment(sp.1) {
                                None => None,
                                Some(ep) => match parse_resources(ep.1) {
                                    None => None,
                                    Some(rp) => if rp.1.len() == 0 {
                                        Some(
                                            PolicyView {
                                                version: vp.0,
                                                description: ds.0,
                                                network: np.0,
                                                storage: sp.0,
                                                environment: ep.0,
                                                resources: rp.0,
                                            },
                                        )
                                    } else {
                                        None
                                    },
                                },
                            },
                        },
                    },
                },
            }
        },
    }
}

/// Stripping a literal it was just prepended to yields the rest.
proof fn lemma_after_lit(lit: Seq<char>, rest: Seq<char>)
    ensures
        after_lit(lit + rest, lit) == Some(rest),
{
    let s = lit + rest;
    assert(s.subrange(0, lit.len() as int) =~= lit);
    assert(starts_with(s, lit));
    assert(s.subrange(lit.len() as int, s.len() as int) =~= rest);
}

/// A quoted line reads back its content and leaves what followed it.
proof fn lemma_quoted_line_rt(prefix: Seq<char>, content: Seq<char>, rest: Seq<char>)
    ensures
        parse_quoted_line(prefix + q(content) + "\n"@ + rest, prefix) == Some((content, rest)),
{
    let s = prefix + q(content) + "\n"@ + rest;
    let body = q(content) + "\n"@ + rest;
    assert(s =~= prefix + body);
    lemma_after_lit(prefix, body);
    assert(after_lit(s, prefix) == Some(body)) by {
        assert(starts_with(prefix + body, prefix));
        assert(s.subrange(prefix.len() as int, s.len() as int) =~= body);
    }
    assert(body[0] == '"');
    assert(body.drop_first() =~= esc_str(content) + seq!['"'] + ("\n"@ + rest));
    lemma_quoted_round_trip(content, "\n"@ + rest);
    assert(spec_parse_quoted(body.drop_first()) == Some((content, "\n"@ + rest)));
    assert(("\n"@ + rest)[0] == '\n') by {
        reveal_strlit("\n");
    }
    assert(("\n"@ + rest).len() >= 1) by {
        reveal_strlit("\n");
    }
    assert(("\n"@ + rest).drop_first() =~= rest) by {
        reveal_strlit("\n");
    }
}

/// An access flow-list body reads back its kinds and leaves what followed
/// the closing bracket.
proof fn lemma_access_body_rt(access: Seq<AccessType>, tail: Seq<char>, first: bool)
    requires
        !first ==> access.len() >= 1,
    ensures
        parse_access_body(
            (if first {
                emit_access_body(access)
            } else {
                ", "@ + emit_access_body(access)
            }) + seq![']'] + tail,
            first,
        ) == Some((access, tail)),
    decreases access.len(),
{
    reveal_strlit(", ");
    reveal_strlit("read");
    reveal_strlit("write");
    assert("read"@.len() == 4);
    assert("write"@.len() == 5);
    let body = if first {
        emit_access_body(access)
    } else {
        ", "@ + emit_access_body(access)
    };
    let s = body + seq![']'] + tail;
    if access.len() == 0 {
        assert(emit_access_body(access) =~= Seq::<char>::empty());
        assert(s =~= seq![']'] + tail);
        assert(s[0] == ']');
        assert(s.drop_first() =~= tail);
    } else {
        let a0 = access[0];
        let w = access_word(a0);
        let after_words: Seq<char> = if access.len() == 1 {
            seq![']'] + tail
        } else {
            ", "@ + emit_access_body(access.drop_first()) + seq![']'] + tail
        };
        assert(emit_access_body(access) =~= (if access.len() == 1 {
            q(w)
        } else {
            q(w) + ", "@ + emit_access_body(access.drop_first())
        }));
        if first {
            assert(s =~= q(w) + after_words);
        } else {
            assert(s =~= ", "@ + (q(w) + after_words));
        }
        let r0 = q(w) + after_words;
        assert(r0[0] == '"');
        assert(r0[0] != ']');
        if first {
            assert(s[0] == '"');
            assert(s[0] != ']');
        } else {
            assert(s[0] == ',');
            assert(s[0] != ']');
            lemma_after_lit(", "@, q(w) + after_words);
            assert(after_lit(s, ", "@) == Some(r0)) by {
                assert(s =~= ", "@ + (q(w) + after_words));
            }
        }
        assert(r0.drop_first() =~= esc_str(w) + seq!['"'] + after_words);
        lemma_quoted_round_trip(w, after_words);
        assert(spec_parse_quoted(r0.drop_first()) == Some((w, after_words)));
        match a0 {
            AccessType::Read => {
                assert(w == "read"@);
                assert(w != "write"@);
            },
            AccessType::Write => {
                assert(w == "write"@);
                assert(w != "read"@);
            },
        }
        assert(after_words.len() < s.len()) by {
            assert(q(w).len() >= 2);
        }
        if access.len() == 1 {
            assert(parse_access_body(after_words, false) == Some(
                (Seq::<AccessType>::empty(), tail),
            )) by {
                assert(after_words[0] == ']');
                assert(after_words.drop_first() =~= tail);
            }
            assert(seq![a0] + Seq::<AccessType>::empty() =~= access);
        } else {
            lemma_access_body_rt(access.drop_first(), tail, false);
            assert(after_words =~= ", "@ + emit_access_body(access.drop_first()) + seq![']']
                + tail);
            assert(parse_access_body(after_words, false) == Some((access.drop_first(), tail)));
            assert(seq![a0] + access.drop_first() =~= access);
        }
    }
}

/// A run of network items reads back, stopping exactly at what follows.
proof fn lemma_host_items_rt(items: Seq<Seq<char>>, rest: Seq<char>)
    requires
        !starts_with(rest, "      - host: "@),
    ensures
        parse_host_items(emit_host_items(items) + rest) == Some((items, rest)),
    decreases items.len(),
{
    let s = emit_host_items(items) + rest;
    if items.len() == 0 {
        assert(emit_host_items(items) =~= Seq::<char>::empty());
        assert(s =~= rest);
    } else {
        let pfx = "      - host: "@;
        let h0 = items[0];
        let tail = emit_host_items(items.drop_first()) + rest;
        assert(s =~= pfx + q(h0) + "\n"@ + tail);
        assert(starts_with(s, pfx)) by {
            assert(s.subrange(0, pfx.len() as int) =~= pfx);
        }
        lemma_quoted_line_rt(pfx, h0, tail);
        assert(parse_quoted_line(s, pfx) == Some((h0, tail)));
        assert(tail.len() < s.len()) by {
            assert(q(h0).len() >= 2);
            assert(pfx.len() > 0) by {
                reveal_strlit("      - host: ");
            }
        }
        lemma_host_items_rt(items.drop_first(), rest);
        assert(seq![h0] + items.drop_first() =~= items);
    }
}

/// A run of environment items reads back, stopping exactly at what
/// follows.
proof fn lemma_env_items_rt(items: Seq<Seq<char>>, rest: Seq<char>)
    requires
        !starts_with(rest, "      - key: "@),
    ensures
        parse_env_items(emit_env_items(items) + rest) == Some((items, rest)),
    decreases items.len(),
{
    let s = emit_env_items(items) + rest;
    if items.len() == 0 {
        assert(emit_env_items(items) =~= Seq::<char>::empty());
        assert(s =~= rest);
    } else {
        let pfx = "      - key: "@;
        let h0 = items[0];
        let tail = emit_env_items(items.drop_first()) + rest;
        assert(s =~= pfx + q(h0) + "\n"@ + tail);
        assert(starts_with(s, pfx)) by {
            assert(s.subrange(0, pfx.len() as int) =~= pfx);
        }
        lemma_quoted_line_rt(pfx, h0, tail);
        assert(parse_quoted_line(s, pfx) == Some((h0, tail)));
        assert(tail.len() < s.len()) by {
            assert(q(h0).len() >= 2);
            assert(pfx.len() > 0) by {
                reveal_strlit("      - key: ");
            }
        }
        lemma_env_items_rt(items.drop_first(), rest);
        assert(seq![h0] + items.drop_first() =~= items);
    }
}

/// A run of storage items reads back, stopping exactly at what follows.
#[verifier::rlimit(100)]
proof fn lemma_storage_items_rt(items: Seq<(Seq<char>, Seq<AccessType>)>, rest: Seq<char>)
    requires
        !starts_with(rest, "      - uri: "@),
    ensures
        parse_storage_items(emit_storage_items(items) + rest) == Some((items, rest)),
    decreases items.len(),
{
    let s = emit_storage_items(items) + rest;
    if items.len() == 0 {
        assert(emit_storage_items(items) =~= Seq::<char>::empty());
        assert(s =~= rest);
    } else {
        let pfx = "      - uri: "@;
        let apfx = "        access: ["@;
        let u0 = items[0].0;
        let a0 = items[0].1;
        let tail2 = emit_storage_items(items.drop_first()) + rest;
        let access_part = apfx + emit_access_body(a0) + "]\n"@ + tail2;
        assert(s =~= pfx + q(u0) + "\n"@ + access_part);
        assert(starts_with(s, pfx)) by {
            assert(s.subrange(0, pfx.len() as int) =~= pfx);
        }
        lemma_quoted_line_rt(pfx, u0, access_part);
        assert(parse_quoted_line(s, pfx) == Some((u0, access_part)));
        let after_a = emit_access_body(a0) + "]\n"@ + tail2;
        lemma_after_lit(apfx, after_a);
        assert(after_lit(access_part, apfx) == Some(after_a)) by {
            assert(access_part =~= apfx + after_a);
        }
        assert(after_a =~= emit_access_body(a0) + seq![']'] + ("\n"@ + tail2)) by {
            reveal_strlit("]\n");
            reveal_strlit("\n");
            assert("]\n"@.len() == 2);
            assert("\n"@.len() == 1);
            assert("]\n"@ =~= seq![']'] + "\n"@);
        }
        lemma_access_body_rt(a0, "\n"@ + tail2, true);
        assert(parse_access_body(after_a, true) == Some((a0, "\n"@ + tail2)));
        lemma_after_lit("\n"@, tail2);
        assert(after_lit("\n"@ + tail2, "\n"@) == Some(tail2));
        assert(tail2.len() < s.len()) by {
            assert(q(u0).len() >= 2);
            assert(pfx.len() > 0 && apfx.len() > 0) by {
                reveal_strlit("      - uri: ");
                reveal_strlit("        access: [");
            }
            assert("\n"@.len() == 1) by {
                reveal_strlit("\n");
            }
        }
        lemma_storage_items_rt(items.drop_first(), rest);
        assert(seq![(u0, a0)] + items.drop_first() =~= items);
    }
}

/// A sequence that starts with `h1` cannot start with an `h2` that differs
/// from `h1` inside the shared prefix.
proof fn lemma_starts_distinct(t: Seq<char>, h1: Seq<char>, h2: Seq<char>, i: int)
    requires
        starts_with(t, h1),
        0 <= i < h1.len(),
        i < h2.len(),
        h1[i] != h2[i],
    ensures
        !starts_with(t, h2),
{
    assert(t.subrange(0, h1.len() as int)[i] == h1[i]);
    assert(t[i] == h1[i]);
    if starts_with(t, h2) {
        assert(t.subrange(0, h2.len() as int)[i] == h2[i]);
        assert(t[i] == h2[i]);
        assert(false);
    }
}

/// A concatenation starts with its first part.
proof fn lemma_concat_starts(a: Seq<char>, b: Seq<char>)
    ensures
        starts_with(a + b, a),
        (a + b).subrange(a.len() as int, (a + b).len() as int) =~= b,
{
    assert((a + b).subrange(0, a.len() as int) =~= a);
}

/// Character facts of the fixed section headers and item prefixes.
proof fn lemma_header_chars()
    ensures
        "  network:\n"@.len() == 11 && "  network:\n"@[2] == 'n',
        "  storage:\n"@.len() == 11 && "  storage:\n"@[2] == 's',
        "  environment:\n"@.len() == 15 && "  environment:\n"@[2] == 'e',
        "  resources:\n"@.len() == 13 && "  resources:\n"@[2] == 'r',
        "      - host: "@.len() == 14 && "      - host: "@[2] == ' ',
        "      - uri: "@.len() == 13 && "      - uri: "@[2] == ' ',
        "      - key: "@.len() == 13 && "      - key: "@[2] == ' ',
        "    allow:\n"@.len() == 11 && "    allow:\n"@[10] == '\n',
        "    allow: []\n"@.len() == 14 && "    allow: []\n"@[10] == ' ',
        "    limits:\n"@.len() == 12 && "    limits:\n"@[4] == 'l',
        "    memory: "@.len() == 12 && "    memory: "@[4] == 'm',
        "      memory: "@.len() == 14 && "      memory: "@[4] == ' ',
        "description: "@.len() == 13 && "description: "@[0] == 'd',
        "permissions:\n"@.len() == 13 && "permissions:\n"@[0] == 'p',
{
    reveal_strlit("  network:\n");
    reveal_strlit("  storage:\n");
    reveal_strlit("  environment:\n");
    reveal_strlit("  resources:\n");
    reveal_strlit("      - host: ");
    reveal_strlit("      - uri: ");
    reveal_strlit("      - key: ");
    reveal_strlit("    allow:\n");
    reveal_strlit("    allow: []\n");
    reveal_strlit("    limits:\n");
    reveal_strlit("    memory: ");
    reveal_strlit("      memory: ");
    reveal_strlit("description: ");
    reveal_strlit("permissions:\n");
}

/// What the text after the network block can be, and what it therefore is
/// not.
proof fn lemma_tail3(
    st: Option<Option<Seq<(Seq<char>, Seq<AccessType>)>>>,
    e: Option<Option<Seq<Seq<char>>>>,
    r: Option<ResourcesView>,
)
    ensures
        !starts_with(
            emit_storage(st) + emit_environment(e) + emit_resources(r),
            "  network:\n"@,
        ),
        !starts_with(
            emit_storage(st) + emit_environment(e) + emit_resources(r),
            "      - host: "@,
        ),
{
    lemma_header_chars();
    let t = emit_storage(st) + emit_environment(e) + emit_resources(r);
    if st is Some {
        assert(t =~= "  storage:\n"@ + (emit_storage(st).subrange(
            11,
            emit_storage(st).len() as int,
        ) + emit_environment(e) + emit_resources(r))) by {
            assert(starts_with(emit_storage(st), "  storage:\n"@)) by {
                lemma_concat_starts("  storage:\n"@, emit_storage(st).subrange(11, emit_storage(st).len() as int));
                assert(emit_storage(st) =~= "  storage:\n"@ + emit_storage(st).subrange(11, emit_storage(st).len() as int));
            }
        }
        lemma_concat_starts("  storage:\n"@, t.subrange(11, t.len() as int));
        assert(starts_with(t, "  storage:\n"@)) by {
            assert(t.subrange(0, 11) =~= "  storage:\n"@);
        }
        lemma_starts_distinct(t, "  storage:\n"@, "  network:\n"@, 2);
        lemma_starts_distinct(t, "  storage:\n"@, "      - host: "@, 2);
    } else if e is Some {
        assert(emit_storage(st) =~= Seq::<char>::empty());
        assert(starts_with(t, "  environment:\n"@)) by {
            assert(t.subrange(0, 15) =~= "  environment:\n"@);
        }
        lemma_starts_distinct(t, "  environment:\n"@, "  network:\n"@, 2);
        lemma_starts_distinct(t, "  environment:\n"@, "      - host: "@, 2);
    } else if r is Some {
        assert(emit_storage(st) =~= Seq::<char>::empty());
        assert(emit_environment(e) =~= Seq::<char>::empty());
        assert(starts_with(t, "  resources:\n"@)) by {
            assert(t.subrange(0, 13) =~= "  resources:\n"@);
        }
        lemma_starts_distinct(t, "  resources:\n"@, "  network:\n"@, 2);
        lemma_starts_distinct(t, "  resources:\n"@, "      - host: "@, 2);
    } else {
        assert(t =~= Seq::<char>::empty());
    }
}

/// What the text after the storage block can be, and what it therefore is
/// not.
proof fn lemma_tail2(e: Option<Option<Seq<Seq<char>>>>, r: Option<ResourcesView>)
    ensures
        !starts_with(emit_environment(e) + emit_resources(r), "  storage:\n"@),
        !starts_with(emit_environment(e) + emit_resources(r), "      - uri: "@),
{
    lemma_header_chars();
    let t = emit_environment(e) + emit_resources(r);
    if e is Some {
        assert(starts_with(t, "  environment:\n"@)) by {
            assert(t.subrange(0, 15) =~= "  environment:\n"@);
        }
        lemma_starts_distinct(t, "  environment:\n"@, "  storage:\n"@, 2);
        lemma_starts_distinct(t, "  environment:\n"@, "      - uri: "@, 2);
    } else if r is Some {
        assert(emit_environment(e) =~= Seq::<char>::empty());
        assert(starts_with(t, "  resources:\n"@)) by {
            assert(t.subrange(0, 13) =~= "  resources:\n"@);
        }
        lemma_starts_distinct(t, "  resources:\n"@, "  storage:\n"@, 2);
        lemma_starts_distinct(t, "  resources:\n"@, "      - uri: "@, 2);
    } else {
        assert(t =~= Seq::<char>::empty());
    }
}

/// What the text after the environment block can be, and what it therefore
/// is not.
proof fn lemma_tail1(r: Option<ResourcesView>)
    ensures
        !starts_with(emit_resources(r), "  environment:\n"@),
        !starts_with(emit_resources(r), "      - key: "@),
{
    lemma_header_chars();
    let t = emit_resources(r);
    if r is Some {
        assert(starts_with(t, "  resources:\n"@)) by {
            assert(t.subrange(0, 13) =~= "  resources:\n"@);
        }
        lemma_starts_distinct(t, "  resources:\n"@, "  environment:\n"@, 2);
        lemma_starts_distinct(t, "  resources:\n"@, "      - key: "@, 2);
    } else {
        assert(t =~= Seq::<char>::empty());
    }
}

/// The network section reads back, given what follows cannot be confused
/// with it.
proof fn lemma_network_rt(n: Option<Option<Seq<Seq<char>>>>, rest: Seq<char>)
    requires
        !starts_with(rest, "  network:\n"@),
        !starts_with(rest, "      - host: "@),
    ensures
        parse_network(emit_network(n) + rest) == Some((n, rest)),
{
    lemma_header_chars();
    let s = emit_network(n) + rest;
    match n {
        None => {
            assert(emit_network(n) =~= Seq::<char>::empty());
            assert(s =~= rest);
        },
        Some(allow) => {
            let block = match allow {
                None => emit_allow_lines(None, false),
                Some(items) => emit_allow_lines(Some(emit_host_items(items)), items.len() == 0),
            };
            assert(s =~= "  network:\n"@ + (block + rest));
            lemma_concat_starts("  network:\n"@, block + rest);
            assert(starts_with(s, "  network:\n"@)) by {
                assert(s.subrange(0, 11) =~= "  network:\n"@);
            }
            let r0 = s.subrange(11, s.len() as int);
            assert(r0 =~= block + rest);
            match allow {
                None => {
                    assert(r0 =~= "    allow:\n"@ + rest);
                    assert(starts_with(r0, "    allow:\n"@)) by {
                        assert(r0.subrange(0, 11) =~= "    allow:\n"@);
                    }
                    lemma_starts_distinct(r0, "    allow:\n"@, "    allow: []\n"@, 10);
                    assert(r0.subrange(11, r0.len() as int) =~= rest);
                    assert(parse_host_items(rest) == Some((Seq::<Seq<char>>::empty(), rest)));
                },
                Some(items) => {
                    if items.len() == 0 {
                        assert(r0 =~= "    allow: []\n"@ + rest);
                        assert(starts_with(r0, "    allow: []\n"@)) by {
                            assert(r0.subrange(0, 14) =~= "    allow: []\n"@);
                        }
                        assert(r0.subrange(14, r0.len() as int) =~= rest);
                    } else {
                        assert(r0 =~= "    allow:\n"@ + (emit_host_items(items) + rest));
                        assert(starts_with(r0, "    allow:\n"@)) by {
                            assert(r0.subrange(0, 11) =~= "    allow:\n"@);
                        }
                        lemma_starts_distinct(r0, "    allow:\n"@, "    allow: []\n"@, 10);
                        assert(r0.subrange(11, r0.len() as int) =~= emit_host_items(items) + rest);
                        lemma_host_items_rt(items, rest);
                        assert(allow_of(items) == Some(items));
                    }
                },
            }
        },
    }
}

/// The storage section reads back.
proof fn lemma_storage_rt(st: Option<Option<Seq<(Seq<char>, Seq<AccessType>)>>>, rest: Seq<char>)
    requires
        !starts_with(rest, "  storage:\n"@),
        !starts_with(rest, "      - uri: "@),
    ensures
        parse_storage(emit_storage(st) + rest) == Some((st, rest)),
{
    lemma_header_chars();
    let s = emit_storage(st) + rest;
    match st {
        None => {
            assert(emit_storage(st) =~= Seq::<char>::empty());
            assert(s =~= rest);
        },
        Some(allow) => {
            let block = match allow {
                None => emit_allow_lines(None, false),
                Some(items) => emit_allow_lines(Some(emit_storage_items(items)), items.len() == 0),
            };
            assert(s =~= "  storage:\n"@ + (block + rest));
            assert(starts_with(s, "  storage:\n"@)) by {
                assert(s.subrange(0, 11) =~= "  storage:\n"@);
            }
            let r0 = s.subrange(11, s.len() as int);
            assert(r0 =~= block + rest);
            match allow {
                None => {
                    assert(r0 =~= "    allow:\n"@ + rest);
                    assert(starts_with(r0, "    allow:\n"@)) by {
                        assert(r0.subrange(0, 11) =~= "    allow:\n"@);
                    }
                    lemma_starts_distinct(r0, "    allow:\n"@, "    allow: []\n"@, 10);
                    assert(r0.subrange(11, r0.len() as int) =~= rest);
                    assert(parse_storage_items(rest) == Some(
                        (Seq::<(Seq<char>, Seq<AccessType>)>::empty(), rest),
                    ));
                },
                Some(items) => {
                    if items.len() == 0 {
                        assert(r0 =~= "    allow: []\n"@ + rest);
                        assert(starts_with(r0, "    allow: []\n"@)) by {
                            assert(r0.subrange(0, 14) =~= "    allow: []\n"@);
                        }
                        assert(r0.subrange(14, r0.len() as int) =~= rest);
                    } else {
                        assert(r0 =~= "    allow:\n"@ + (emit_storage_items(items) + rest));
                        assert(starts_with(r0, "    allow:\n"@)) by {
                            assert(r0.subrange(0, 11) =~= "    allow:\n"@);
                        }
                        lemma_starts_distinct(r0, "    allow:\n"@, "    allow: []\n"@, 10);
                        assert(r0.subrange(11, r0.len() as int) =~= emit_storage_items(items)
                            + rest);
                        lemma_storage_items_rt(items, rest);
                        assert(allow_of(items) == Some(items));
                    }
                },
            }
        },
    }
}

/// The environment section reads back.
proof fn lemma_environment_rt(env: Option<Option<Seq<Seq<char>>>>, rest: Seq<char>)
    requires
        !starts_with(rest, "  environment:\n"@),
        !starts_with(rest, "      - key: "@),
    ensures
        parse_environment(emit_environment(env) + rest) == Some((env, rest)),
{
    lemma_header_chars();
    let s = emit_environment(env) + rest;
    match env {
        None => {
            assert(emit_environment(env) =~= Seq::<char>::empty());
            assert(s =~= rest);
        },
        Some(allow) => {
            let block = match allow {
                None => emit_allow_lines(None, false),
                Some(items) => emit_allow_lines(Some(emit_env_items(items)), items.len() == 0),
            };
            assert(s =~= "  environment:\n"@ + (block + rest));
            assert(starts_with(s, "  environment:\n"@)) by {
                assert(s.subrange(0, 15) =~= "  environment:\n"@);
            }
            let r0 = s.subrange(15, s.len() as int);
            assert(r0 =~= block + rest);
            match allow {
                None => {
                    assert(r0 =~= "    allow:\n"@ + rest);
                    assert(starts_with(r0, "    allow:\n"@)) by {
                        assert(r0.subrange(0, 11) =~= "    allow:\n"@);
                    }
                    lemma_starts_distinct(r0, "    allow:\n"@, "    allow: []\n"@, 10);
                    assert(r0.subrange(11, r0.len() as int) =~= rest);
                    assert(parse_env_items(rest) == Some((Seq::<Seq<char>>::empty(), rest)));
                },
                Some(items) => {
                    if items.len() == 0 {
                        assert(r0 =~= "    allow: []\n"@ + rest);
                        assert(starts_with(r0, "    allow: []\n"@)) by {
                            assert(r0.subrange(0, 14) =~= "    allow: []\n"@);
                        }
                        assert(r0.subrange(14, r0.len() as int) =~= rest);
                    } else {
                        assert(r0 =~= "    allow:\n"@ + (emit_env_items(items) + rest));
                        assert(starts_with(r0, "    allow:\n"@)) by {
                            assert(r0.subrange(0, 11) =~= "    allow:\n"@);
                        }
                        lemma_starts_distinct(r0, "    allow:\n"@, "    allow: []\n"@, 10);
                        assert(r0.subrange(11, r0.len() as int) =~= emit_env_items(items) + rest);
                        lemma_env_items_rt(items, rest);
                        assert(allow_of(items) == Some(items));
                    }
                },
            }
        },
    }
}

/// The decimal digits of a number are digits and read back to the number.
proof fn lemma_dec_digits_val(n: nat)
    ensures
        crate::sandbox::all_digits(crate::logging::spec_dec_digits(n)),
        crate::sandbox::dec_val(crate::logging::spec_dec_digits(n)) == n,
        crate::logging::spec_dec_digits(n).len() >= 1,
    decreases n,
{
    let ds = crate::logging::spec_dec_digits(n);
    let c = crate::logging::digit_char(n % 10);
    assert((c as u32) == 0x30 + n % 10) by {
        assert(((0x30 + n % 10) as u32) < 0xd800);
    }
    if n < 10 {
        let c0 = crate::logging::digit_char(n);
        assert((c0 as u32) == 0x30 + n) by {
            assert(((0x30 + n) as u32) < 0xd800);
        }
        assert(ds =~= seq![c0]);
        assert(crate::text::is_ascii_digit(c0));
        assert(ds.drop_last() =~= Seq::<char>::empty());
        assert(ds.last() == c0);
        assert(crate::sandbox::dec_val(ds.drop_last()) == 0);
        assert(crate::sandbox::dec_val(ds) == crate::sandbox::dec_val(ds.drop_last()) * 10
            + crate::sandbox::digit_val(ds.last()));
        assert(crate::sandbox::dec_val(ds) == crate::sandbox::digit_val(c0));
        assert(crate::sandbox::digit_val(c0) == n);
    } else {
        lemma_dec_digits_val(n / 10);
        let pre = crate::logging::spec_dec_digits(n / 10);
        assert(ds == pre.push(c));
        assert(ds.drop_last() =~= pre);
        assert(ds.last() == c);
        assert(crate::sandbox::dec_val(ds) == crate::sandbox::dec_val(pre) * 10
            + crate::sandbox::digit_val(c));
        assert(crate::sandbox::digit_val(c) == n % 10);
        assert((n / 10) * 10 + n % 10 == n) by (nonlinear_arith);
        assert(crate::sandbox::all_digits(ds)) by {
            assert(crate::text::is_ascii_digit(c));
            assert(forall|i: int|
                0 <= i < pre.len() ==> crate::text::is_ascii_digit(#[trigger] pre[i]));
            assert(forall|i: int|
                0 <= i < ds.len() ==> crate::text::is_ascii_digit(#[trigger] ds[i])) by {
                assert(forall|i: int| 0 <= i < pre.len() ==> ds[i] == pre[i]);
                assert(ds[ds.len() - 1] == c);
            }
        }
    }
}

/// The resources section reads back; it is the document's last block.
#[verifier::rlimit(100)]
proof fn lemma_resources_rt(r: Option<ResourcesView>)
    requires
        r matches Some(rv) ==> (rv.legacy_memory matches Some(n) ==> n <= u64::MAX),
    ensures
        parse_resources(emit_resources(r)) == Some((r, Seq::<char>::empty())),
{
    lemma_header_chars();
    let s = emit_resources(r);
    match r {
        None => {
            assert(s =~= Seq::<char>::empty());
        },
        Some(rv) => {
            let limits_part = match rv.limits_memory {
                None => Seq::<char>::empty(),
                Some(mem) => "    limits:\n"@ + (match mem {
                    None => Seq::<char>::empty(),
                    Some(m) => "      memory: "@ + q(m) + "\n"@,
                }),
            };
            let legacy_part = match rv.legacy_memory {
                None => Seq::<char>::empty(),
                Some(n) => "    memory: "@ + q(crate::logging::spec_dec_digits(n)) + "\n"@,
            };
            assert(s =~= "  resources:\n"@ + (limits_part + legacy_part));
            assert(starts_with(s, "  resources:\n"@)) by {
                assert(s.subrange(0, 13) =~= "  resources:\n"@);
            }
            let r0 = s.subrange(13, s.len() as int);
            assert(r0 =~= limits_part + legacy_part);
            match rv.limits_memory {
                None => {
                    assert(r0 =~= legacy_part);
                    match rv.legacy_memory {
                        None => {
                            assert(r0 =~= Seq::<char>::empty());
                        },
                        Some(n) => {
                            assert(starts_with(r0, "    memory: "@)) by {
                                assert(r0.subrange(0, 12) =~= "    memory: "@);
                            }
                            lemma_starts_distinct(r0, "    memory: "@, "    limits:\n"@, 4);
                        },
                    }
                },
                Some(mem) => {
                    assert(starts_with(r0, "    limits:\n"@)) by {
                        assert(r0.subrange(0, 12) =~= "    limits:\n"@);
                    }
                    match mem {
                        None => {
                            let r1 = r0.subrange(12, r0.len() as int);
                            assert(r1 =~= legacy_part);
                            match rv.legacy_memory {
                                None => {
                                    assert(r1 =~= Seq::<char>::empty());
                                },
                                Some(n) => {
                                    assert(starts_with(r1, "    memory: "@)) by {
                                        assert(r1.subrange(0, 12) =~= "    memory: "@);
                                    }
                                    lemma_starts_distinct(
                                        r1,
                                        "    memory: "@,
                                        "      memory: "@,
                                        4,
                                    );
                                },
                            }
                        },
                        Some(m) => {
                            let mem_line = "      memory: "@ + q(m) + "\n"@;
                            assert(r0 =~= "    limits:\n"@ + (mem_line + legacy_part));
                            let r1 = r0.subrange(12, r0.len() as int);
                            assert(r1 =~= mem_line + legacy_part);
                            assert(r1 =~= "      memory: "@ + q(m) + "\n"@ + legacy_part);
                            assert(starts_with(r1, "      memory: "@)) by {
                                assert(r1.subrange(0, 14) =~= "      memory: "@);
                            }
                            lemma_quoted_line_rt("      memory: "@, m, legacy_part);
                        },
                    }
                },
            }
            // legacy step: the remainder handed to it is exactly legacy_part
            match rv.legacy_memory {
                None => {},
                Some(n) => {
                    assert(legacy_part =~= "    memory: "@ + q(
                        crate::logging::spec_dec_digits(n),
                    ) + "\n"@ + Seq::<char>::empty());
                    assert(starts_with(legacy_part, "    memory: "@)) by {
                        assert(legacy_part.subrange(0, 12) =~= "    memory: "@);
                    }
                    lemma_quoted_line_rt(
                        "    memory: "@,
                        crate::logging::spec_dec_digits(n),
                        Seq::<char>::empty(),
                    );
                    lemma_dec_digits_val(n);
                },
            }
        },
    }
}

/// The policy round trip: decoding the canonical encoding of any policy
/// document returns exactly the document's view — nothing of the policy is
/// lost in its file.
#[verifier::rlimit(100)]
#[verifier::spinoff_prover]
pub proof fn lemma_policy_round_trip(d: PolicyDocument)
    ensures
        spec_parse_policy(spec_emit_policy(policy_view(d))) == Some(policy_view(d)),
{
    lemma_header_chars();
    let v = policy_view(d);
    let t_all = emit_network(v.network) + emit_storage(v.storage) + emit_environment(
        v.environment,
    ) + emit_resources(v.resources);
    let desc_part = match v.description {
        None => Seq::<char>::empty(),
        Some(desc) => "description: "@ + q(desc) + "\n"@,
    };
    let s = spec_emit_policy(v);
    let rest0 = desc_part + ("permissions:\n"@ + t_all);
    assert(s =~= "version: "@ + q(v.version) + "\n"@ + rest0);
    lemma_quoted_line_rt("version: "@, v.version, rest0);
    assert(parse_quoted_line(s, "version: "@) == Some((v.version, rest0)));
    let rest1 = "permissions:\n"@ + t_all;
    match v.description {
        None => {
            assert(rest0 =~= rest1);
            assert(starts_with(rest0, "permissions:\n"@)) by {
                assert(rest0.subrange(0, 13) =~= "permissions:\n"@);
            }
            lemma_starts_distinct(rest0, "permissions:\n"@, "description: "@, 0);
        },
        Some(desc) => {
            assert(rest0 =~= "description: "@ + q(desc) + "\n"@ + rest1);
            assert(starts_with(rest0, "description: "@)) by {
                assert(rest0.subrange(0, 13) =~= "description: "@);
            }
            lemma_quoted_line_rt("description: "@, desc, rest1);
        },
    }
    lemma_after_lit("permissions:\n"@, t_all);
    assert(after_lit(rest1, "permissions:\n"@) == Some(t_all)) by {
        assert(rest1 =~= "permissions:\n"@ + t_all);
        assert(starts_with(rest1, "permissions:\n"@));
        assert(rest1.subrange(13, rest1.len() as int) =~= t_all);
    }
    let t1 = emit_storage(v.storage) + emit_environment(v.environment) + emit_resources(
        v.resources,
    );
    let t2 = emit_environment(v.environment) + emit_resources(v.resources);
    let t3 = emit_resources(v.resources);
    assert(t_all =~= emit_network(v.network) + t1);
    assert(t1 =~= emit_storage(v.storage) + t2);
    assert(t2 =~= emit_environment(v.environment) + t3);
    lemma_tail3(v.storage, v.environment, v.resources);
    lemma_network_rt(v.network, t1);
    assert(parse_network(t_all) == Some((v.network, t1)));
    lemma_tail2(v.environment, v.resources);
    lemma_storage_rt(v.storage, t2);
    assert(parse_storage(t1) == Some((v.storage, t2)));
    lemma_tail1(v.resources);
    lemma_environment_rt(v.environment, t3);
    assert(parse_environment(t2) == Some((v.environment, t3)));
    lemma_resources_rt(v.resources);
    assert(parse_resources(t3) == Some((v.resources, Seq::<char>::empty())));
}

/// Appends the characters of a literal.
#[verifier::loop_isolation(false)]
fn push_str_chars(out: &mut Vec<char>, s: &str)
    ensures
        final(out)@ == old(out)@ + s@,
{
    let chars = str_to_chars(s);
    let n = chars.len();
    let ghost base = out@;
    proof {
        assert(out@ =~= base + s@.subrange(0, 0));
    }
    for i in 0..n
        invariant
            n == chars@.len(),
            chars@ == s@,
            out@ == base + s@.subrange(0, i as int),
    {
        out.push(chars[i]);
        proof {
            assert(out@ =~= base + s@.subrange(0, i + 1));
        }
    }
    proof {
        assert(s@.subrange(0, n as int) =~= s@);
    }
}

/// Appends a double-quoted scalar.
fn push_quoted(out: &mut Vec<char>, s: &String)
    ensures
        final(out)@ == old(out)@ + q(s@),
{
    let ghost base = out@;
    out.push('"');
    crate::secrets_codec::push_escaped(out, s);
    out.push('"');
    proof {
        assert(out@ =~= base + q(s@));
    }
}

/// Appends a quoted line: prefix, scalar, newline.
fn push_quoted_line(out: &mut Vec<char>, prefix: &str, s: &String)
    ensures
        final(out)@ == old(out)@ + prefix@ + q(s@) + "\n"@,
{
    let ghost base = out@;
    push_str_chars(out, prefix);
    push_quoted(out, s);
    out.push('\n');
    proof {
        reveal_strlit("\n");
        assert("\n"@.len() == 1);
        assert(out@ =~= base + prefix@ + q(s@) + "\n"@);
    }
}

/// The text still to append once the first `i` access kinds are out: a
/// separator and the remaining body.
pub open spec fn emit_access_tail(access: Seq<AccessType>, i: int) -> Seq<char> {
    if i >= access.len() {
        Seq::empty()
    } else if i == 0 {
        emit_access_body(access)
    } else {
        ", "@ + emit_access_body(access.subrange(i, access.len() as int))
    }
}

/// Appends the flow-list body of an access list.
#[verifier::rlimit(100)]
#[verifier::spinoff_prover]
#[verifier::loop_isolation(false)]
fn push_access_body(out: &mut Vec<char>, access: &Vec<AccessType>)
    ensures
        final(out)@ == old(out)@ + emit_access_body(access@),
{
    let n = access.len();
    let ghost base = out@;
    let ghost target = base + emit_access_body(access@);
    proof {
        if n == 0 {
            assert(emit_access_body(access@) =~= Seq::<char>::empty());
            assert(out@ =~= target);
        } else {
            assert(emit_access_tail(access@, 0) == emit_access_body(access@));
        }
    }
    for i in 0..n
        invariant
            n == access@.len(),
            target == base + emit_access_body(access@),
            target == out@ + emit_access_tail(access@, i as int),
    {
        proof {
            let suf = access@.subrange(i as int, n as int);
            assert(suf[0] == access@[i as int]);
            assert(suf.drop_first() =~= access@.subrange(i + 1, n as int));
            if i == 0 {
                assert(access@.subrange(0, n as int) =~= access@);
            }
        }
        if i > 0 {
            push_str_chars(out, ", ");
        }
        let word: &str = match access[i] {
            AccessType::Read => "read",
            AccessType::Write => "write",
        };
        let word_string = word.to_owned();
        push_quoted(out, &word_string);
        proof {
            let suf = access@.subrange(i as int, n as int);
            assert(word_string@ == access_word(access@[i as int]));
            if i + 1 < n {
                assert(emit_access_body(suf) =~= q(access_word(suf[0])) + ", "@
                    + emit_access_body(suf.drop_first()));
                assert(emit_access_tail(access@, i + 1) =~= ", "@ + emit_access_body(
                    access@.subrange(i + 1, n as int),
                ));
            } else {
                assert(suf.len() == 1);
                assert(emit_access_body(suf) =~= q(access_word(suf[0])));
                assert(emit_access_tail(access@, i + 1) =~= Seq::<char>::empty());
            }
            if i == 0 {
                assert(emit_access_tail(access@, 0) == emit_access_body(access@));
                assert(emit_access_body(access@) == emit_access_body(suf));
            }
            assert(target =~= out@ + emit_access_tail(access@, i + 1));
        }
    }
    proof {
        assert(emit_access_tail(access@, n as int) =~= Seq::<char>::empty());
        assert(out@ =~= target);
    }
}

/// Appends the network section.
#[verifier::loop_isolation(false)]
fn push_network(out: &mut Vec<char>, n: &Option<crate::policy::NetworkPolicy>)
    ensures
        final(out)@ == old(out)@ + emit_network(network_view(*n)),
{
    let ghost head = out@;
    let ghost v = network_view(*n);
    match n {
        None => {
            proof {
                assert(emit_network(v) =~= Seq::<char>::empty());
                assert(out@ =~= head + emit_network(v));
            }
        },
        Some(np) => {
            push_str_chars(out, "  network:\n");
            match &np.allow {
                None => {
                    push_str_chars(out, "    allow:\n");
                },
                Some(items) => {
                    if items.len() == 0 {
                        push_str_chars(out, "    allow: []\n");
                        proof {
                            assert(emit_host_items(v->0->0) =~= Seq::<char>::empty());
                        }
                    } else {
                        push_str_chars(out, "    allow:\n");
                        let m = items.len();
                        let ghost hosts = v->0->0;
                        let ghost base2 = out@;
                        proof {
                            assert(hosts =~= items@.map_values(|e: HostEntry| e.host@));
                            assert(hosts.subrange(0, m as int) =~= hosts);
                        }
                        for i in 0..m
                            invariant
                                m == items@.len(),
                                hosts.len() == m,
                                forall|j: int| 0 <= j < m ==> #[trigger] hosts[j] == items@[j].host@,
                                base2 + emit_host_items(hosts) == out@ + emit_host_items(
                                    hosts.subrange(i as int, m as int),
                                ),
                        {
                            proof {
                                let suf = hosts.subrange(i as int, m as int);
                                assert(suf[0] == hosts[i as int]);
                                assert(suf.drop_first() =~= hosts.subrange(i + 1, m as int));
                                assert(emit_host_items(suf) =~= "      - host: "@ + q(suf[0])
                                    + "\n"@ + emit_host_items(suf.drop_first()));
                            }
                            push_quoted_line(out, "      - host: ", &items[i].host);
                        }
                        proof {
                            assert(emit_host_items(hosts.subrange(m as int, m as int))
                                =~= Seq::<char>::empty());
                            assert(out@ =~= base2 + emit_host_items(hosts));
                        }
                    }
                },
            }
            proof {
                assert(out@ =~= head + emit_network(v));
            }
        },
    }
}

/// Appends the storage section.
#[verifier::loop_isolation(false)]
fn push_storage(out: &mut Vec<char>, st: &Option<crate::policy::StoragePolicy>)
    ensures
        final(out)@ == old(out)@ + emit_storage(storage_view(*st)),
{
    let ghost head = out@;
    let ghost v = storage_view(*st);
    match st {
        None => {
            proof {
                assert(emit_storage(v) =~= Seq::<char>::empty());
                assert(out@ =~= head + emit_storage(v));
            }
        },
        Some(sp) => {
            push_str_chars(out, "  storage:\n");
            match &sp.allow {
                None => {
                    push_str_chars(out, "    allow:\n");
                },
                Some(items) => {
                    if items.len() == 0 {
                        push_str_chars(out, "    allow: []\n");
                        proof {
                            assert(emit_storage_items(v->0->0) =~= Seq::<char>::empty());
                        }
                    } else {
                        push_str_chars(out, "    allow:\n");
                        let m = items.len();
                        let ghost ents = v->0->0;
                        let ghost base2 = out@;
                        proof {
                            assert(ents =~= items@.map_values(
                                |e: StorageEntry| (e.uri@, e.access@),
                            ));
                            assert(ents.subrange(0, m as int) =~= ents);
                        }
                        for i in 0..m
                            invariant
                                m == items@.len(),
                                ents.len() == m,
                                forall|j: int|
                                    0 <= j < m ==> #[trigger] ents[j] == (
                                    items@[j].uri@,
                                    items@[j].access@,
                                ),
                                base2 + emit_storage_items(ents) == out@ + emit_storage_items(
                                    ents.subrange(i as int, m as int),
                                ),
                        {
                            proof {
                                let suf = ents.subrange(i as int, m as int);
                                assert(suf[0] == ents[i as int]);
                                assert(suf.drop_first() =~= ents.subrange(i + 1, m as int));
                                assert(emit_storage_items(suf) =~= "      - uri: "@ + q(suf[0].0)
                                    + "\n"@ + "        access: ["@ + emit_access_body(suf[0].1)
                                    + "]\n"@ + emit_storage_items(suf.drop_first()));
                            }
                            push_quoted_line(out, "      - uri: ", &items[i].uri);
                            push_str_chars(out, "        access: [");
                            push_access_body(out, &items[i].access);
                            push_str_chars(out, "]\n");
                        }
                        proof {
                            assert(emit_storage_items(ents.subrange(m as int, m as int))
                                =~= Seq::<char>::empty());
                            assert(out@ =~= base2 + emit_storage_items(ents));
                        }
                    }
                },
            }
            proof {
                assert(out@ =~= head + emit_storage(v));
            }
        },
    }
}

/// Appends the environment section.
#[verifier::loop_isolation(false)]
fn push_environment(out: &mut Vec<char>, env: &Option<crate::policy::EnvironmentPolicy>)
    ensures
        final(out)@ == old(out)@ + emit_environment(environment_view(*env)),
{
    let ghost head = out@;
    let ghost v = environment_view(*env);
    match env {
        None => {
            proof {
                assert(emit_environment(v) =~= Seq::<char>::empty());
                assert(out@ =~= head + emit_environment(v));
            }
        },
        Some(ep) => {
            push_str_chars(out, "  environment:\n");
            match &ep.allow {
                None => {
                    push_str_chars(out, "    allow:\n");
                },
                Some(items) => {
                    if items.len() == 0 {
                        push_str_chars(out, "    allow: []\n");
                        proof {
                            assert(emit_env_items(v->0->0) =~= Seq::<char>::empty());
                        }
                    } else {
                        push_str_chars(out, "    allow:\n");
                        let m = items.len();
                        let ghost keys = v->0->0;
                        let ghost base2 = out@;
                        proof {
                            assert(keys =~= items@.map_values(|e: EnvEntry| e.key@));
                            assert(keys.subrange(0, m as int) =~= keys);
                        }
                        for i in 0..m
                            invariant
                                m == items@.len(),
                                keys.len() == m,
                                forall|j: int| 0 <= j < m ==> #[trigger] keys[j] == items@[j].key@,
                                base2 + emit_env_items(keys) == out@ + emit_env_items(
                                    keys.subrange(i as int, m as int),
                                ),
                        {
                            proof {
                                let suf = keys.subrange(i as int, m as int);
                                assert(suf[0] == keys[i as int]);
                                assert(suf.drop_first() =~= keys.subrange(i + 1, m as int));
                                assert(emit_env_items(suf) =~= "      - key: "@ + q(suf[0])
                                    + "\n"@ + emit_env_items(suf.drop_first()));
                            }
                            push_quoted_line(out, "      - key: ", &items[i].key);
                        }
                        proof {
                            assert(emit_env_items(keys.subrange(m as int, m as int))
                                =~= Seq::<char>::empty());
                            assert(out@ =~= base2 + emit_env_items(keys));
                        }
                    }
                },
            }
            proof {
                assert(out@ =~= head + emit_environment(v));
            }
        },
    }
}

/// Appends the resources section.
fn push_resources(out: &mut Vec<char>, res: &Option<crate::policy::ResourcePolicy>)
    ensures
        final(out)@ == old(out)@ + emit_resources(resources_view(*res)),
{
    let ghost head = out@;
    let ghost v = resources_view(*res);
    match res {
        None => {
            proof {
                assert(emit_resources(v) =~= Seq::<char>::empty());
                assert(out@ =~= head + emit_resources(v));
            }
        },
        Some(rp) => {
            push_str_chars(out, "  resources:\n");
            match &rp.limits {
                None => {},
                Some(l) => {
                    push_str_chars(out, "    limits:\n");
                    match &l.memory {
                        None => {},
                        Some(m) => {
                            push_quoted_line(out, "      memory: ", m);
                        },
                    }
                },
            }
            match rp.memory {
                None => {},
                Some(n) => {
                    let digits = crate::logging::u64_to_string(n);
                    push_quoted_line(out, "    memory: ", &digits);
                },
            }
            proof {
                assert(out@ =~= head + emit_resources(v));
            }
        },
    }
}

/// Encodes a policy document into its canonical file text.
pub fn emit_policy_text(d: &PolicyDocument) -> (r: String)
    ensures
        r@ == spec_emit_policy(policy_view(*d)),
{
    let ghost v = policy_view(*d);
    let mut out: Vec<char> = Vec::new();
    push_quoted_line(&mut out, "version: ", &d.version);
    match &d.description {
        Some(desc) => {
            push_quoted_line(&mut out, "description: ", desc);
        },
        None => {},
    }
    push_str_chars(&mut out, "permissions:\n");
    push_network(&mut out, &d.permissions.network);
    push_storage(&mut out, &d.permissions.storage);
    push_environment(&mut out, &d.permissions.environment);
    push_resources(&mut out, &d.permissions.resources);
    proof {
        assert(out@ =~= spec_emit_policy(v));
    }
    chars_to_string(&out)
}

/// Matches a literal at `pos`, yielding the position after it.
#[verifier::loop_isolation(false)]
fn match_lit(chars: &Vec<char>, pos: usize, lit: &str) -> (r: Option<usize>)
    requires
        pos <= chars@.len(),
    ensures
        match r {
            Some(p) => {
                &&& pos <= p <= chars@.len()
                &&& p == pos + lit@.len()
                &&& after_lit(chars@.subrange(pos as int, chars@.len() as int), lit@) == Some(
                    chars@.subrange(p as int, chars@.len() as int),
                )
            },
            None => after_lit(chars@.subrange(pos as int, chars@.len() as int), lit@) is None,
        },
{
    let n = chars.len();
    let lit_chars = str_to_chars(lit);
    let m = lit_chars.len();
    let ghost suffix = chars@.subrange(pos as int, n as int);
    if n - pos < m {
        proof {
            assert(!starts_with(suffix, lit@));
        }
        return None;
    }
    for k in 0..m
        invariant
            m == lit@.len(),
            lit_chars@ == lit@,
            pos + m <= n,
            n == chars@.len(),
            forall|j: int| 0 <= j < k ==> #[trigger] chars@[pos + j] == lit@[j],
    {
        if chars[pos + k] != lit_chars[k] {
            proof {
                if starts_with(suffix, lit@) {
                    assert(suffix.subrange(0, m as int)[k as int] == lit@[k as int]);
                    assert(suffix[k as int] == chars@[pos + k]);
                    assert(false);
                }
            }
            return None;
        }
    }
    proof {
        assert forall|j: int| 0 <= j < m implies suffix.subrange(0, m as int)[j] == lit@[j] by {
            assert(suffix[j] == chars@[pos + j]);
        }
        assert(suffix.subrange(0, m as int) =~= lit@);
        assert(starts_with(suffix, lit@));
        assert(suffix.subrange(m as int, suffix.len() as int) =~= chars@.subrange(
            pos + m,
            n as int,
        ));
    }
    Some(pos + m)
}

/// Decodes a quoted line at `pos`: the prefix, a scalar, a newline.
fn parse_quoted_line_at(chars: &Vec<char>, pos: usize, prefix: &str) -> (r: Option<
    (Vec<char>, usize),
>)
    requires
        pos <= chars@.len(),
    ensures
        match r {
            Some(p) => {
                &&& p.1 <= chars@.len()
                &&& parse_quoted_line(
                    chars@.subrange(pos as int, chars@.len() as int),
                    prefix@,
                ) == Some((p.0@, chars@.subrange(p.1 as int, chars@.len() as int)))
            },
            None => parse_quoted_line(
                chars@.subrange(pos as int, chars@.len() as int),
                prefix@,
            ) is None,
        },
{
    let n = chars.len();
    let ghost suffix = chars@.subrange(pos as int, n as int);
    let p0 = match match_lit(chars, pos, prefix) {
        Some(p0) => p0,
        None => {
            return None;
        },
    };
    let ghost r0 = chars@.subrange(p0 as int, n as int);
    if p0 >= n || chars[p0] != '"' {
        proof {
            if r0.len() >= 1 {
                assert(r0[0] == chars@[p0 as int]);
            }
        }
        return None;
    }
    proof {
        assert(r0[0] == chars@[p0 as int]);
        assert(r0.drop_first() =~= chars@.subrange(p0 + 1, n as int));
    }
    let (content, p1) = match crate::secrets_codec::parse_quoted(chars, p0 + 1) {
        Some(p) => p,
        None => {
            return None;
        },
    };
    let ghost r1 = chars@.subrange(p1 as int, n as int);
    if p1 >= n || chars[p1] != '\n' {
        proof {
            if r1.len() >= 1 {
                assert(r1[0] == chars@[p1 as int]);
            }
        }
        return None;
    }
    proof {
        assert(r1[0] == chars@[p1 as int]);
        assert(r1.drop_first() =~= chars@.subrange(p1 + 1, n as int));
    }
    Some((content, p1 + 1))
}

/// Decodes an access flow-list body at `pos`.
#[verifier::loop_isolation(false)]
fn parse_access_body_at(chars: &Vec<char>, pos: usize) -> (r: Option<(Vec<AccessType>, usize)>)
    requires
        pos <= chars@.len(),
    ensures
        match r {
            Some(p) => {
                &&& p.1 <= chars@.len()
                &&& parse_access_body(
                    chars@.subrange(pos as int, chars@.len() as int),
                    true,
                ) == Some((p.0@, chars@.subrange(p.1 as int, chars@.len() as int)))
            },
            None => parse_access_body(chars@.subrange(pos as int, chars@.len() as int), true)
                is None,
        },
{
    proof {
        reveal_strlit("read");
        reveal_strlit("write");
        assert("read"@.len() == 4);
        assert("write"@.len() == 5);
    }
    let n = chars.len();
    let mut acc: Vec<AccessType> = Vec::new();
    let mut i = pos;
    let mut first = true;
    loop
        invariant
            pos <= i <= n,
            n == chars@.len(),
            match parse_access_body(chars@.subrange(i as int, n as int), first) {
                Some(p) => parse_access_body(chars@.subrange(pos as int, n as int), true) == Some(
                    (acc@ + p.0, p.1),
                ),
                None => parse_access_body(chars@.subrange(pos as int, n as int), true) is None,
            },
        decreases n - i,
    {
        let ghost suffix = chars@.subrange(i as int, n as int);
        if i < n && chars[i] == ']' {
            proof {
                assert(suffix[0] == chars@[i as int]);
                assert(suffix.drop_first() =~= chars@.subrange(i + 1, n as int));
                assert(acc@ + Seq::<AccessType>::empty() =~= acc@);
            }
            return Some((acc, i + 1));
        }
        let sep_pos: usize = if first {
            i
        } else {
            match match_lit(chars, i, ", ") {
                Some(p) => p,
                None => {
                    proof {
                        if suffix.len() >= 1 {
                            assert(suffix[0] == chars@[i as int]);
                        }
                        assert(parse_access_body(suffix, first) is None);
                    }
                    return None;
                },
            }
        };
        let ghost r0 = chars@.subrange(sep_pos as int, n as int);
        proof {
            if first {
                assert(r0 =~= suffix);
            }
            if suffix.len() >= 1 {
                assert(suffix[0] == chars@[i as int]);
            }
        }
        if sep_pos >= n || chars[sep_pos] != '"' {
            proof {
                if r0.len() >= 1 {
                    assert(r0[0] == chars@[sep_pos as int]);
                }
                assert(parse_access_body(suffix, first) is None);
            }
            return None;
        }
        proof {
            assert(r0[0] == chars@[sep_pos as int]);
            assert(r0.drop_first() =~= chars@.subrange(sep_pos + 1, n as int));
        }
        let (word, p1) = match crate::secrets_codec::parse_quoted(chars, sep_pos + 1) {
            Some(p) => p,
            None => {
                proof {
                    assert(parse_access_body(suffix, first) is None);
                }
                return None;
            },
        };
        let word_string = chars_to_string(&word);
        let kind: Option<AccessType> = if word_string == "read".to_owned() {
            Some(AccessType::Read)
        } else if word_string == "write".to_owned() {
            Some(AccessType::Write)
        } else {
            None
        };
        let a = match kind {
            Some(a) => a,
            None => {
                proof {
                    assert(parse_access_body(suffix, first) is None);
                }
                return None;
            },
        };
        let ghost acc_pre = acc@;
        acc.push(a);
        proof {
            crate::secrets_codec::lemma_parse_quoted_shrinks(r0.drop_first());
            assert(chars@.subrange(p1 as int, n as int).len() < suffix.len());
            match parse_access_body(chars@.subrange(p1 as int, n as int), false) {
                Some(p) => {
                    assert(parse_access_body(suffix, first) == Some((seq![a] + p.0, p.1)));
                    assert(acc_pre + (seq![a] + p.0) =~= acc@ + p.0);
                },
                None => {
                    assert(parse_access_body(suffix, first) is None);
                },
            }
        }
        i = p1;
        first = false;
    }
}

/// Decodes a run of network allow items at `pos`.
#[verifier::loop_isolation(false)]
fn parse_host_items_at(chars: &Vec<char>, pos: usize) -> (r: Option<(Vec<HostEntry>, usize)>)
    requires
        pos <= chars@.len(),
    ensures
        match r {
            Some(p) => {
                &&& p.1 <= chars@.len()
                &&& parse_host_items(chars@.subrange(pos as int, chars@.len() as int)) matches Some(
                    q,
                ) && q.1 == chars@.subrange(p.1 as int, chars@.len() as int) && q.0.len()
                    == p.0@.len() && (forall|j: int|
                    0 <= j < q.0.len() ==> #[trigger] q.0[j] == p.0@[j].host@)
            },
            None => parse_host_items(chars@.subrange(pos as int, chars@.len() as int)) is None,
        },
{
    let n = chars.len();
    let mut acc: Vec<HostEntry> = Vec::new();
    let ghost gacc: Seq<Seq<char>> = Seq::empty();
    let mut gacc = Ghost(gacc);
    let mut i = pos;
    loop
        invariant
            pos <= i <= n,
            n == chars@.len(),
            gacc@.len() == acc@.len(),
            forall|j: int| 0 <= j < gacc@.len() ==> #[trigger] gacc@[j] == acc@[j].host@,
            match parse_host_items(chars@.subrange(i as int, n as int)) {
                Some(p) => parse_host_items(chars@.subrange(pos as int, n as int)) == Some(
                    (gacc@ + p.0, p.1),
                ),
                None => parse_host_items(chars@.subrange(pos as int, n as int)) is None,
            },
        decreases n - i,
    {
        let ghost suffix = chars@.subrange(i as int, n as int);
        let hit = match_lit(chars, i, "      - host: ");
        if hit.is_none() {
            proof {
                assert(!starts_with(suffix, "      - host: "@));
                assert(parse_host_items(suffix) == Some((Seq::<Seq<char>>::empty(), suffix)));
                assert(gacc@ + Seq::<Seq<char>>::empty() =~~= gacc@);
            }
            return Some((acc, i));
        }
        proof {
            assert(starts_with(suffix, "      - host: "@));
        }
        match parse_quoted_line_at(chars, i, "      - host: ") {
            None => {
                proof {
                    assert(parse_host_items(suffix) is None);
                }
                return None;
            },
            Some((content, p1)) => {
                proof {
                    lemma_quoted_line_shrinks(suffix, "      - host: "@);
                    assert(chars@.subrange(p1 as int, n as int).len() < suffix.len());
                }
                let host = chars_to_string(&content);
                let ghost gpre = gacc@;
                acc.push(HostEntry { host });
                proof {
                    gacc@ = gpre.push(content@);
                    assert(gacc@.len() == acc@.len());
                    assert(forall|j: int|
                        0 <= j < gpre.len() ==> #[trigger] gacc@[j] == acc@[j].host@);
                    assert(gacc@[gpre.len() as int] == acc@[gpre.len() as int].host@);
                    match parse_host_items(chars@.subrange(p1 as int, n as int)) {
                        Some(p) => {
                            assert(parse_host_items(suffix) == Some((seq![content@] + p.0, p.1)));
                            assert(gpre + (seq![content@] + p.0) =~~= gacc@ + p.0);
                        },
                        None => {
                            assert(parse_host_items(suffix) is None);
                        },
                    }
                }
                i = p1;
            },
        }
    }
}

/// Decodes a run of environment allow items at `pos`.
#[verifier::loop_isolation(false)]
fn parse_env_items_at(chars: &Vec<char>, pos: usize) -> (r: Option<(Vec<EnvEntry>, usize)>)
    requires
        pos <= chars@.len(),
    ensures
        match r {
            Some(p) => {
                &&& p.1 <= chars@.len()
                &&& parse_env_items(chars@.subrange(pos as int, chars@.len() as int)) matches Some(
                    q,
                ) && q.1 == chars@.subrange(p.1 as int, chars@.len() as int) && q.0.len()
                    == p.0@.len() && (forall|j: int|
                    0 <= j < q.0.len() ==> #[trigger] q.0[j] == p.0@[j].key@)
            },
            None => parse_env_items(chars@.subrange(pos as int, chars@.len() as int)) is None,
        },
{
    let n = chars.len();
    let mut acc: Vec<EnvEntry> = Vec::new();
    let ghost gacc: Seq<Seq<char>> = Seq::empty();
    let mut gacc = Ghost(gacc);
    let mut i = pos;
    loop
        invariant
            pos <= i <= n,
            n == chars@.len(),
            gacc@.len() == acc@.len(),
            forall|j: int| 0 <= j < gacc@.len() ==> #[trigger] gacc@[j] == acc@[j].key@,
            match parse_env_items(chars@.subrange(i as int, n as int)) {
                Some(p) => parse_env_items(chars@.subrange(pos as int, n as int)) == Some(
                    (gacc@ + p.0, p.1),
                ),
                None => parse_env_items(chars@.subrange(pos as int, n as int)) is None,
            },
        decreases n - i,
    {
        let ghost suffix = chars@.subrange(i as int, n as int);
        let hit = match_lit(chars, i, "      - key: ");
        if hit.is_none() {
            proof {
                assert(!starts_with(suffix, "      - key: "@));
                assert(parse_env_items(suffix) == Some((Seq::<Seq<char>>::empty(), suffix)));
                assert(gacc@ + Seq::<Seq<char>>::empty() =~~= gacc@);
            }
            return Some((acc, i));
        }
        proof {
            assert(starts_with(suffix, "      - key: "@));
        }
        match parse_quoted_line_at(chars, i, "      - key: ") {
            None => {
                proof {
                    assert(parse_env_items(suffix) is None);
                }
                return None;
            },
            Some((content, p1)) => {
                proof {
                    lemma_quoted_line_shrinks(suffix, "      - key: "@);
                    assert(chars@.subrange(p1 as int, n as int).len() < suffix.len());
                }
                let key = chars_to_string(&content);
                let ghost gpre = gacc@;
                acc.push(EnvEntry { key });
                proof {
                    gacc@ = gpre.push(content@);
                    assert(gacc@.len() == acc@.len());
                    assert(forall|j: int|
                        0 <= j < gpre.len() ==> #[trigger] gacc@[j] == acc@[j].key@);
                    assert(gacc@[gpre.len() as int] == acc@[gpre.len() as int].key@);
                    match parse_env_items(chars@.subrange(p1 as int, n as int)) {
                        Some(p) => {
                            assert(parse_env_items(suffix) == Some((seq![content@] + p.0, p.1)));
                            assert(gpre + (seq![content@] + p.0) =~~= gacc@ + p.0);
                        },
                        None => {
                            assert(parse_env_items(suffix) is None);
                        },
                    }
                }
                i = p1;
            },
        }
    }
}

/// Decodes a run of storage allow items at `pos`.
#[verifier::loop_isolation(false)]
#[verifier::rlimit(100)]
fn parse_storage_items_at(chars: &Vec<char>, pos: usize) -> (r: Option<(Vec<StorageEntry>, usize)>)
    requires
        pos <= chars@.len(),
    ensures
        match r {
            Some(p) => {
                &&& p.1 <= chars@.len()
                &&& parse_storage_items(chars@.subrange(pos as int, chars@.len() as int)) matches Some(
                    q,
                ) && q.1 == chars@.subrange(p.1 as int, chars@.len() as int) && q.0.len()
                    == p.0@.len() && (forall|j: int|
                    0 <= j < q.0.len() ==> #[trigger] q.0[j] == (p.0@[j].uri@, p.0@[j].access@))
            },
            None => parse_storage_items(chars@.subrange(pos as int, chars@.len() as int)) is None,
        },
{
    let n = chars.len();
    let mut acc: Vec<StorageEntry> = Vec::new();
    let ghost gacc: Seq<(Seq<char>, Seq<AccessType>)> = Seq::empty();
    let mut gacc = Ghost(gacc);
    let mut i = pos;
    loop
        invariant
            pos <= i <= n,
            n == chars@.len(),
            gacc@.len() == acc@.len(),
            forall|j: int|
                0 <= j < gacc@.len() ==> #[trigger] gacc@[j] == (acc@[j].uri@, acc@[j].access@),
            match parse_storage_items(chars@.subrange(i as int, n as int)) {
                Some(p) => parse_storage_items(chars@.subrange(pos as int, n as int)) == Some(
                    (gacc@ + p.0, p.1),
                ),
                None => parse_storage_items(chars@.subrange(pos as int, n as int)) is None,
            },
        decreases n - i,
    {
        let ghost suffix = chars@.subrange(i as int, n as int);
        let hit = match_lit(chars, i, "      - uri: ");
        if hit.is_none() {
            proof {
                assert(!starts_with(suffix, "      - uri: "@));
                assert(parse_storage_items(suffix) == Some(
                    (Seq::<(Seq<char>, Seq<AccessType>)>::empty(), suffix),
                ));
                assert(gacc@ + Seq::<(Seq<char>, Seq<AccessType>)>::empty() =~~= gacc@);
            }
            return Some((acc, i));
        }
        proof {
            assert(starts_with(suffix, "      - uri: "@));
        }
        let (uri_chars, p1) = match parse_quoted_line_at(chars, i, "      - uri: ") {
            Some(p) => p,
            None => {
                proof {
                    assert(parse_storage_items(suffix) is None);
                }
                return None;
            },
        };
        let ghost r1 = chars@.subrange(p1 as int, n as int);
        let p2 = match match_lit(chars, p1, "        access: [") {
            Some(p) => p,
            None => {
                proof {
                    assert(parse_storage_items(suffix) is None);
                }
                return None;
            },
        };
        let (access, p3) = match parse_access_body_at(chars, p2) {
            Some(p) => p,
            None => {
                proof {
                    assert(parse_storage_items(suffix) is None);
                }
                return None;
            },
        };
        let ghost r3 = chars@.subrange(p3 as int, n as int);
        let p4 = match match_lit(chars, p3, "\n") {
            Some(p) => p,
            None => {
                proof {
                    assert(parse_storage_items(suffix) is None);
                }
                return None;
            },
        };
        proof {
            lemma_quoted_line_shrinks(suffix, "      - uri: "@);
            assert(n - p1 < n - i);
            lemma_access_body_shrinks(chars@.subrange(p2 as int, n as int), true);
            assert(n - p3 < n - p2);
            reveal_strlit("\n");
            assert("\n"@.len() == 1);
            assert(chars@.subrange(p4 as int, n as int).len() < suffix.len());
        }
        let uri = chars_to_string(&uri_chars);
        let ghost gpre = gacc@;
        let ghost access_view = access@;
        acc.push(StorageEntry { uri, access });
        proof {
            gacc@ = gpre.push((uri_chars@, access_view));
            assert(gacc@.len() == acc@.len());
            assert(forall|j: int|
                0 <= j < gpre.len() ==> #[trigger] gacc@[j] == (acc@[j].uri@, acc@[j].access@));
            assert(gacc@[gpre.len() as int] == (
                acc@[gpre.len() as int].uri@,
                acc@[gpre.len() as int].access@,
            ));
            match parse_storage_items(chars@.subrange(p4 as int, n as int)) {
                Some(p) => {
                    assert(parse_storage_items(suffix) == Some(
                        (seq![(uri_chars@, access_view)] + p.0, p.1),
                    ));
                    assert(gpre + (seq![(uri_chars@, access_view)] + p.0) =~~= gacc@ + p.0);
                },
                None => {
                    assert(parse_storage_items(suffix) is None);
                },
            }
        }
        i = p4;
    }
}

/// Decodes the network section at `pos`.
#[verifier::loop_isolation(false)]
fn parse_network_at(chars: &Vec<char>, pos: usize) -> (r: Option<
    (Option<crate::policy::NetworkPolicy>, usize),
>)
    requires
        pos <= chars@.len(),
    ensures
        match r {
            Some(p) => {
                &&& p.1 <= chars@.len()
                &&& parse_network(chars@.subrange(pos as int, chars@.len() as int)) == Some(
                    (network_view(p.0), chars@.subrange(p.1 as int, chars@.len() as int)),
                )
            },
            None => parse_network(chars@.subrange(pos as int, chars@.len() as int)) is None,
        },
{
    let n = chars.len();
    let ghost suffix = chars@.subrange(pos as int, n as int);
    let p0 = match match_lit(chars, pos, "  network:\n") {
        Some(p) => p,
        None => {
            proof {
                assert(!starts_with(suffix, "  network:\n"@));
            }
            return Some((None, pos));
        },
    };
    proof {
        assert(starts_with(suffix, "  network:\n"@));
        assert(suffix.subrange("  network:\n"@.len() as int, suffix.len() as int)
            =~= chars@.subrange(p0 as int, n as int));
    }
    let ghost r0 = chars@.subrange(p0 as int, n as int);
    match match_lit(chars, p0, "    allow: []\n") {
        Some(p1) => {
            let items: Vec<crate::policy::HostEntry> = Vec::new();
            proof {
                assert(r0.subrange("    allow: []\n"@.len() as int, r0.len() as int)
                    =~= chars@.subrange(p1 as int, n as int));
                assert(items@.map_values(|e: HostEntry| e.host@) =~= Seq::<Seq<char>>::empty());
            }
            Some((Some(crate::policy::NetworkPolicy { allow: Some(items) }), p1))
        },
        None => {
            proof {
                assert(!starts_with(r0, "    allow: []\n"@));
            }
            let p1 = match match_lit(chars, p0, "    allow:\n") {
                Some(p) => p,
                None => {
                    proof {
                        assert(!starts_with(r0, "    allow:\n"@));
                    }
                    return None;
                },
            };
            proof {
                assert(r0.subrange("    allow:\n"@.len() as int, r0.len() as int)
                    =~= chars@.subrange(p1 as int, n as int));
            }
            match parse_host_items_at(chars, p1) {
                None => None,
                Some((items, p2)) => {
                    if items.len() == 0 {
                        proof {
                            let q = parse_host_items(
                                chars@.subrange(p1 as int, n as int),
                            )->Some_0;
                            assert(q.0.len() == 0);
                            assert(allow_of(q.0) is None);
                        }
                        Some((Some(crate::policy::NetworkPolicy { allow: None }), p2))
                    } else {
                        proof {
                            let q = parse_host_items(
                                chars@.subrange(p1 as int, n as int),
                            )->Some_0;
                            assert(items@.map_values(|e: HostEntry| e.host@) =~~= q.0);
                            assert(allow_of(q.0) == Some(q.0));
                        }
                        Some((Some(crate::policy::NetworkPolicy { allow: Some(items) }), p2))
                    }
                },
            }
        },
    }
}

/// Decodes the storage section at `pos`.
#[verifier::loop_isolation(false)]
fn parse_storage_at(chars: &Vec<char>, pos: usize) -> (r: Option<
    (Option<crate::policy::StoragePolicy>, usize),
>)
    requires
        pos <= chars@.len(),
    ensures
        match r {
            Some(p) => {
                &&& p.1 <= chars@.len()
                &&& parse_storage(chars@.subrange(pos as int, chars@.len() as int)) == Some(
                    (storage_view(p.0), chars@.subrange(p.1 as int, chars@.len() as int)),
                )
            },
            None => parse_storage(chars@.subrange(pos as int, chars@.len() as int)) is None,
        },
{
    let n = chars.len();
    let ghost suffix = chars@.subrange(pos as int, n as int);
    let p0 = match match_lit(chars, pos, "  storage:\n") {
        Some(p) => p,
        None => {
            proof {
                assert(!starts_with(suffix, "  storage:\n"@));
            }
            return Some((None, pos));
        },
    };
    proof {
        assert(starts_with(suffix, "  storage:\n"@));
        assert(suffix.subrange("  storage:\n"@.len() as int, suffix.len() as int)
            =~= chars@.subrange(p0 as int, n as int));
    }
    let ghost r0 = chars@.subrange(p0 as int, n as int);
    match match_lit(chars, p0, "    allow: []\n") {
        Some(p1) => {
            let items: Vec<crate::policy::StorageEntry> = Vec::new();
            proof {
                assert(r0.subrange("    allow: []\n"@.len() as int, r0.len() as int)
                    =~= chars@.subrange(p1 as int, n as int));
                assert(items@.map_values(|e: StorageEntry| (e.uri@, e.access@)) =~= Seq::<
                    (Seq<char>, Seq<AccessType>),
                >::empty());
            }
            Some((Some(crate::policy::StoragePolicy { allow: Some(items) }), p1))
        },
        None => {
            proof {
                assert(!starts_with(r0, "    allow: []\n"@));
            }
            let p1 = match match_lit(chars, p0, "    allow:\n") {
                Some(p) => p,
                None => {
                    proof {
                        assert(!starts_with(r0, "    allow:\n"@));
                    }
                    return None;
                },
            };
            proof {
                assert(r0.subrange("    allow:\n"@.len() as int, r0.len() as int)
                    =~= chars@.subrange(p1 as int, n as int));
            }
            match parse_storage_items_at(chars, p1) {
                None => None,
                Some((items, p2)) => {
                    if items.len() == 0 {
                        proof {
                            let q = parse_storage_items(
                                chars@.subrange(p1 as int, n as int),
                            )->Some_0;
                            assert(q.0.len() == 0);
                            assert(allow_of(q.0) is None);
                        }
                        Some((Some(crate::policy::StoragePolicy { allow: None }), p2))
                    } else {
                        proof {
                            let q = parse_storage_items(
                                chars@.subrange(p1 as int, n as int),
                            )->Some_0;
                            assert(items@.map_values(|e: StorageEntry| (e.uri@, e.access@))
                                =~~= q.0);
                            assert(allow_of(q.0) == Some(q.0));
                        }
                        Some((Some(crate::policy::StoragePolicy { allow: Some(items) }), p2))
                    }
                },
            }
        },
    }
}

/// Decodes the environment section at `pos`.
#[verifier::loop_isolation(false)]
fn parse_environment_at(chars: &Vec<char>, pos: usize) -> (r: Option<
    (Option<crate::policy::EnvironmentPolicy>, usize),
>)
    requires
        pos <= chars@.len(),
    ensures
        match r {
            Some(p) => {
                &&& p.1 <= chars@.len()
                &&& parse_environment(chars@.subrange(pos as int, chars@.len() as int)) == Some(
                    (environment_view(p.0), chars@.subrange(p.1 as int, chars@.len() as int)),
                )
            },
            None => parse_environment(chars@.subrange(pos as int, chars@.len() as int)) is None,
        },
{
    let n = chars.len();
    let ghost suffix = chars@.subrange(pos as int, n as int);
    let p0 = match match_lit(chars, pos, "  environment:\n") {
        Some(p) => p,
        None => {
            proof {
                assert(!starts_with(suffix, "  environment:\n"@));
            }
            return Some((None, pos));
        },
    };
    proof {
        assert(starts_with(suffix, "  environment:\n"@));
        assert(suffix.subrange("  environment:\n"@.len() as int, suffix.len() as int)
            =~= chars@.subrange(p0 as int, n as int));
    }
    let ghost r0 = chars@.subrange(p0 as int, n as int);
    match match_lit(chars, p0, "    allow: []\n") {
        Some(p1) => {
            let items: Vec<crate::policy::EnvEntry> = Vec::new();
            proof {
                assert(r0.subrange("    allow: []\n"@.len() as int, r0.len() as int)
                    =~= chars@.subrange(p1 as int, n as int));
                assert(items@.map_values(|e: EnvEntry| e.key@) =~= Seq::<Seq<char>>::empty());
            }
            Some((Some(crate::policy::EnvironmentPolicy { allow: Some(items) }), p1))
        },
        None => {
            proof {
                assert(!starts_with(r0, "    allow: []\n"@));
            }
            let p1 = match match_lit(chars, p0, "    allow:\n") {
                Some(p) => p,
                None => {
                    proof {
                        assert(!starts_with(r0, "    allow:\n"@));
                    }
                    return None;
                },
            };
            proof {
                assert(r0.subrange("    allow:\n"@.len() as int, r0.len() as int)
                    =~= chars@.subrange(p1 as int, n as int));
            }
            match parse_env_items_at(chars, p1) {
                None => None,
                Some((items, p2)) => {
                    if items.len() == 0 {
                        proof {
                            let q = parse_env_items(
                                chars@.subrange(p1 as int, n as int),
                            )->Some_0;
                            assert(q.0.len() == 0);
                            assert(allow_of(q.0) is None);
                        }
                        Some((Some(crate::policy::EnvironmentPolicy { allow: None }), p2))
                    } else {
                        proof {
                            let q = parse_env_items(
                                chars@.subrange(p1 as int, n as int),
                            )->Some_0;
                            assert(items@.map_values(|e: EnvEntry| e.key@) =~~= q.0);
                            assert(allow_of(q.0) == Some(q.0));
                        }
                        Some((Some(crate::policy::EnvironmentPolicy { allow: Some(items) }), p2))
                    }
                },
            }
        },
    }
}

/// Decodes the resources section at `pos`.
#[verifier::loop_isolation(false)]
#[verifier::rlimit(100)]
fn parse_resources_at(chars: &Vec<char>, pos: usize) -> (r: Option<
    (Option<crate::policy::ResourcePolicy>, usize),
>)
    requires
        pos <= chars@.len(),
    ensures
        match r {
            Some(p) => {
                &&& p.1 <= chars@.len()
                &&& parse_resources(chars@.subrange(pos as int, chars@.len() as int)) == Some(
                    (resources_view(p.0), chars@.subrange(p.1 as int, chars@.len() as int)),
                )
            },
            None => parse_resources(chars@.subrange(pos as int, chars@.len() as int)) is None,
        },
{
    let n = chars.len();
    let ghost suffix = chars@.subrange(pos as int, n as int);
    let p0 = match match_lit(chars, pos, "  resources:\n") {
        Some(p) => p,
        None => {
            proof {
                assert(!starts_with(suffix, "  resources:\n"@));
            }
            return Some((None, pos));
        },
    };
    proof {
        assert(starts_with(suffix, "  resources:\n"@));
        assert(suffix.subrange("  resources:\n"@.len() as int, suffix.len() as int)
            =~= chars@.subrange(p0 as int, n as int));
    }
    let ghost r0 = chars@.subrange(p0 as int, n as int);
    let mut limits: Option<crate::policy::ResourceLimits> = None;
    let mut p1: usize = p0;
    match match_lit(chars, p0, "    limits:\n") {
        None => {
            proof {
                assert(!starts_with(r0, "    limits:\n"@));
            }
        },
        Some(p1a) => {
            proof {
                assert(starts_with(r0, "    limits:\n"@));
                assert(r0.subrange("    limits:\n"@.len() as int, r0.len() as int)
                    =~= chars@.subrange(p1a as int, n as int));
            }
            let ghost r1 = chars@.subrange(p1a as int, n as int);
            match match_lit(chars, p1a, "      memory: ") {
                None => {
                    proof {
                        assert(!starts_with(r1, "      memory: "@));
                    }
                    limits = Some(crate::policy::ResourceLimits { memory: None });
                    p1 = p1a;
                },
                Some(_) => {
                    proof {
                        assert(starts_with(r1, "      memory: "@));
                    }
                    match parse_quoted_line_at(chars, p1a, "      memory: ") {
                        None => {
                            return None;
                        },
                        Some((m, p1b)) => {
                            limits = Some(
                                crate::policy::ResourceLimits {
                                    memory: Some(chars_to_string(&m)),
                                },
                            );
                            p1 = p1b;
                        },
                    }
                },
            }
        },
    }
    let ghost r_legacy = chars@.subrange(p1 as int, n as int);
    let mut legacy: Option<u64> = None;
    let mut p2: usize = p1;
    match match_lit(chars, p1, "    memory: ") {
        None => {
            proof {
                assert(!starts_with(r_legacy, "    memory: "@));
            }
        },
        Some(_) => {
            proof {
                assert(starts_with(r_legacy, "    memory: "@));
            }
            match parse_quoted_line_at(chars, p1, "    memory: ") {
                None => {
                    return None;
                },
                Some((digits, p2a)) => {
                    let v = match crate::sandbox::parse_digits(&digits) {
                        Some(v) => v,
                        None => {
                            return None;
                        },
                    };
                    let canonical = crate::logging::u64_to_string(v);
                    let given = chars_to_string(&digits);
                    if !(given == canonical) {
                        proof {
                            assert(digits@ != crate::logging::spec_dec_digits(
                                crate::sandbox::dec_val(digits@),
                            ));
                        }
                        return None;
                    }
                    proof {
                        assert(digits@ == crate::logging::spec_dec_digits(
                            crate::sandbox::dec_val(digits@),
                        ));
                    }
                    legacy = Some(v);
                    p2 = p2a;
                },
            }
        },
    }
    Some((Some(crate::policy::ResourcePolicy { limits, memory: legacy }), p2))
}

/// Decodes a policy document from its canonical file text.
///
/// Returns exactly what the decoder specification accepts: the canonical
/// shape the emitter writes, and nothing else; see
/// [`lemma_policy_round_trip`] for the guarantee that every emitted
/// document decodes to itself.
#[verifier::loop_isolation(false)]
#[verifier::rlimit(100)]
pub fn parse_policy_text(text: &str) -> (r: Option<PolicyDocument>)
    ensures
        match r {
            Some(doc) => spec_parse_policy(text@) == Some(policy_view(doc)),
            None => spec_parse_policy(text@) is None,
        },
{
    let chars = str_to_chars(text);
    let n = chars.len();
    proof {
        assert(chars@.subrange(0, n as int) =~= text@);
    }
    let (ver, p0) = match parse_quoted_line_at(&chars, 0, "version: ") {
        Some(p) => p,
        None => {
            return None;
        },
    };
    let ghost rest0 = chars@.subrange(p0 as int, n as int);
    let mut description: Option<String> = None;
    let mut p1: usize = p0;
    match match_lit(&chars, p0, "description: ") {
        None => {
            proof {
                assert(!starts_with(rest0, "description: "@));
            }
        },
        Some(_) => {
            proof {
                assert(starts_with(rest0, "description: "@));
            }
            match parse_quoted_line_at(&chars, p0, "description: ") {
                None => {
                    return None;
                },
                Some((d, p1a)) => {
                    description = Some(chars_to_string(&d));
                    p1 = p1a;
                },
            }
        },
    }
    let p2 = match match_lit(&chars, p1, "permissions:\n") {
        Some(p) => p,
        None => {
            return None;
        },
    };
    let (network, p3) = match parse_network_at(&chars, p2) {
        Some(p) => p,
        None => {
            return None;
        },
    };
    let (storage, p4) = match parse_storage_at(&chars, p3) {
        Some(p) => p,
        None => {
            return None;
        },
    };
    let (environment, p5) = match parse_environment_at(&chars, p4) {
        Some(p) => p,
        None => {
            return None;
        },
    };
    let (resources, p6) = match parse_resources_at(&chars, p5) {
        Some(p) => p,
        None => {
            return None;
        },
    };
    if p6 != n {
        proof {
            assert(chars@.subrange(p6 as int, n as int).len() != 0);
        }
        return None;
    }
    proof {
        assert(chars@.subrange(p6 as int, n as int).len() == 0);
    }
    let doc = PolicyDocument {
        version: chars_to_string(&ver),
        description,
        permissions: crate::policy::Permissions { network, storage, environment, resources },
    };
    proof {
        assert(policy_view(doc).version == ver@);
        assert(spec_parse_policy(text@) == Some(policy_view(doc)));
    }
    Some(doc)
}

} // verus!
