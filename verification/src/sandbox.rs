//! The policy-to-sandbox compiler and the gates the sandbox enforces.
//!
//! A [`WasiStateTemplate`] is the fully resolved host surface for one
//! invocation: stdio flags, network permissions, preopened directories, the
//! environment projection and the memory ceiling. It is a pure function of
//! the policy document, the plugin directory and the process environment;
//! the embedding process turns it into a runtime store. The request-time
//! gates — the host allowlist check and the memory-growth check — live here
//! too.

use vstd::prelude::*;

use crate::errors::ErrorKind;
use crate::policy::{AccessType, PolicyDocument, StorageEntry};
use crate::text::str_to_chars;

verus! {

/// File permissions granted on a preopened subtree.
#[derive(Clone, Copy, PartialEq, Eq, Structural, Debug)]
pub struct FilePerms {
    /// Files may be read.
    pub read: bool,
    /// Files may be written, created and removed.
    pub write: bool,
}

/// Directory permissions granted on a preopened subtree.
#[derive(Clone, Copy, PartialEq, Eq, Structural, Debug)]
pub struct DirPerms {
    /// Directories may be listed and traversed.
    pub read: bool,
    /// Directory entries may be created and removed.
    pub mutate: bool,
}

/// The network capability flags handed to the runtime.
#[derive(Clone, Copy, PartialEq, Eq, Structural, Debug)]
pub struct NetworkPermissions {
    /// Outbound TCP connections.
    pub allow_tcp: bool,
    /// Outbound UDP.
    pub allow_udp: bool,
    /// Host name resolution.
    pub allow_ip_name_lookup: bool,
}

impl Default for NetworkPermissions {
    /// Deny-by-default: every flag off.
    fn default() -> (r: Self)
        ensures
            !r.allow_tcp,
            !r.allow_udp,
            !r.allow_ip_name_lookup,
    {
        NetworkPermissions { allow_tcp: false, allow_udp: false, allow_ip_name_lookup: false }
    }
}

/// One directory mounted into the guest's file system view.
pub struct PreopenedDir {
    /// The directory on the host.
    pub host_path: String,
    /// Where the guest sees it.
    pub guest_path: String,
    /// Directory permissions.
    pub dir_perms: DirPerms,
    /// File permissions.
    pub file_perms: FilePerms,
}

/// The fully resolved host surface for one invocation.
pub struct WasiStateTemplate {
    /// Whether guest stdout is inherited.
    pub allow_stdout: bool,
    /// Whether guest stderr is inherited.
    pub allow_stderr: bool,
    /// Whether the host's arguments are inherited.
    pub allow_args: bool,
    /// Network capability flags.
    pub network_perms: NetworkPermissions,
    /// The environment projection handed to the guest.
    pub config_vars: Vec<(String, String)>,
    /// Preopened directories.
    pub preopened_dirs: Vec<PreopenedDir>,
    /// Hosts the guest may send HTTP requests to.
    pub allowed_hosts: Vec<String>,
    /// The linear-memory growth ceiling in bytes, if any.
    pub memory_limit: Option<u64>,
}

impl Default for WasiStateTemplate {
    /// Stdio and argument inheritance on, everything else denied: the only
    /// defaults that are not deny-by-default are the diagnostic streams.
    fn default() -> (r: Self)
        ensures
            r.allow_stdout,
            r.allow_stderr,
            r.allow_args,
            !r.network_perms.allow_tcp,
            !r.network_perms.allow_udp,
            !r.network_perms.allow_ip_name_lookup,
            r.config_vars@.len() == 0,
            r.preopened_dirs@.len() == 0,
            r.allowed_hosts@.len() == 0,
            r.memory_limit is None,
    {
        WasiStateTemplate {
            allow_stdout: true,
            allow_stderr: true,
            allow_args: true,
            network_perms: NetworkPermissions::default(),
            config_vars: Vec::new(),
            preopened_dirs: Vec::new(),
            allowed_hosts: Vec::new(),
            memory_limit: None,
        }
    }
}

/// The file permissions an access list grants: each kind is granted exactly
/// when the list names it.
pub open spec fn spec_file_perms(access: Seq<AccessType>) -> FilePerms {
    FilePerms { read: access.contains(AccessType::Read), write: access.contains(AccessType::Write) }
}

/// The directory permissions an access list grants: read access lists and
/// traverses, write access additionally mutates, and a write grant implies
/// directory read.
pub open spec fn spec_dir_perms(access: Seq<AccessType>) -> DirPerms {
    DirPerms {
        read: access.contains(AccessType::Read) || access.contains(AccessType::Write),
        mutate: access.contains(AccessType::Write),
    }
}

/// Folds an access list into file and directory permission sets.
///
/// The result depends only on which access kinds the list contains, so the
/// function is insensitive to order and duplication; see
/// [`lemma_calculate_permissions_commutative`] and
/// [`lemma_calculate_permissions_idempotent`].
pub fn calculate_permissions(access_types: &Vec<AccessType>) -> (r: (FilePerms, DirPerms))
    ensures
        r.0 == spec_file_perms(access_types@),
        r.1 == spec_dir_perms(access_types@),
{
    let mut has_read = false;
    let mut has_write = false;
    let n = access_types.len();
    for i in 0..n
        invariant
            n == access_types@.len(),
            has_read == access_types@.subrange(0, i as int).contains(AccessType::Read),
            has_write == access_types@.subrange(0, i as int).contains(AccessType::Write),
    {
        proof {
            let pre = access_types@.subrange(0, i as int);
            let cur = access_types@.subrange(0, i + 1);
            assert(cur.drop_last() =~= pre);
            assert(cur.last() == access_types@[i as int]);
            assert forall|a: AccessType| #[trigger] cur.contains(a) == (pre.contains(a)
                || access_types@[i as int] == a) by {
                if pre.contains(a) {
                    let j = choose|j: int| 0 <= j < pre.len() && pre[j] == a;
                    assert(cur[j] == a);
                }
                if access_types@[i as int] == a {
                    assert(cur[cur.len() - 1] == a);
                }
                if cur.contains(a) {
                    let j = choose|j: int| 0 <= j < cur.len() && cur[j] == a;
                    if j < cur.len() - 1 {
                        assert(pre[j] == a);
                    }
                }
            }
        }
        match access_types[i] {
            AccessType::Read => {
                has_read = true;
            },
            AccessType::Write => {
                has_write = true;
            },
        }
    }
    proof {
        assert(access_types@.subrange(0, n as int) =~= access_types@);
    }
    (
        FilePerms { read: has_read, write: has_write },
        DirPerms { read: has_read || has_write, mutate: has_write },
    )
}

/// Permission folding is commutative: two access lists that contain the same
/// kinds — any permutation of one another in particular — grant the same
/// permissions.
pub proof fn lemma_calculate_permissions_commutative(a: Seq<AccessType>, b: Seq<AccessType>)
    requires
        a.to_multiset() == b.to_multiset(),
    ensures
        spec_file_perms(a) == spec_file_perms(b),
        spec_dir_perms(a) == spec_dir_perms(b),
{
    broadcast use vstd::seq_lib::group_seq_properties;

    assert forall|x: AccessType| a.contains(x) == b.contains(x) by {
        a.to_multiset_ensures();
        b.to_multiset_ensures();
        assert(a.contains(x) <==> a.to_multiset().count(x) > 0);
        assert(b.contains(x) <==> b.to_multiset().count(x) > 0);
    }
    assert(a.contains(AccessType::Read) == b.contains(AccessType::Read));
    assert(a.contains(AccessType::Write) == b.contains(AccessType::Write));
}

/// Permission folding is idempotent: a list concatenated with itself grants
/// exactly what the list grants.
pub proof fn lemma_calculate_permissions_idempotent(a: Seq<AccessType>)
    ensures
        spec_file_perms(a + a) == spec_file_perms(a),
        spec_dir_perms(a + a) == spec_dir_perms(a),
{
    assert forall|x: AccessType| (a + a).contains(x) == a.contains(x) by {
        if a.contains(x) {
            let j = choose|j: int| 0 <= j < a.len() && a[j] == x;
            assert((a + a)[j] == x);
        }
        if (a + a).contains(x) {
            let j = choose|j: int| 0 <= j < (a + a).len() && (a + a)[j] == x;
            if j < a.len() {
                assert(a[j] == x);
            } else {
                assert(a[j - a.len()] == x);
            }
        }
    }
    assert((a + a).contains(AccessType::Read) == a.contains(AccessType::Read));
    assert((a + a).contains(AccessType::Write) == a.contains(AccessType::Write));
}

/// Looks a key up in an environment given as key/value pairs, first match
/// wins.
pub open spec fn spec_env_lookup(env: Seq<(Seq<char>, Seq<char>)>, key: Seq<char>) -> Option<
    Seq<char>,
>
    decreases env,
{
    if env.len() == 0 {
        None
    } else if env[0].0 == key {
        Some(env[0].1)
    } else {
        spec_env_lookup(env.drop_first(), key)
    }
}

/// Looks a variable up in the host environment.
#[verifier::loop_isolation(false)]
pub fn env_lookup(env: &Vec<(String, String)>, key: &String) -> (r: Option<String>)
    ensures
        match r {
            Some(v) => spec_env_lookup(
                env@.map_values(|e: (String, String)| (e.0@, e.1@)),
                key@,
            ) == Some(v@),
            None => spec_env_lookup(env@.map_values(|e: (String, String)| (e.0@, e.1@)), key@)
                is None,
        },
{
    let ghost genv = env@.map_values(|e: (String, String)| (e.0@, e.1@));
    let n = env.len();
    proof {
        assert(genv.subrange(0, n as int) =~= genv);
    }
    for i in 0..n
        invariant
            n == env@.len(),
            forall|j: int| 0 <= j < i ==> #[trigger] genv[j].0 != key@,
            spec_env_lookup(genv, key@) == spec_env_lookup(
                genv.subrange(i as int, n as int),
                key@,
            ),
    {
        proof {
            let rest = genv.subrange(i as int, n as int);
            assert(rest[0] == genv[i as int]);
            assert(rest.drop_first() =~= genv.subrange(i + 1, n as int));
        }
        if env[i].0 == *key {
            proof {
                let rest = genv.subrange(i as int, n as int);
                assert(rest[0].0 == key@);
                assert(spec_env_lookup(rest, key@) == Some(rest[0].1));
            }
            return Some(env[i].1.clone());
        }
    }
    proof {
        assert(genv.subrange(n as int, n as int).len() == 0);
    }
    None
}

/// The keys of the policy's environment section that the host environment
/// defines, projected in document order with their host values.
pub open spec fn spec_env_projection(
    keys: Seq<Seq<char>>,
    env: Seq<(Seq<char>, Seq<char>)>,
) -> Seq<(Seq<char>, Seq<char>)>
    decreases keys,
{
    if keys.len() == 0 {
        Seq::empty()
    } else {
        let rest = spec_env_projection(keys.drop_last(), env);
        match spec_env_lookup(env, keys.last()) {
            Some(v) => rest.push((keys.last(), v)),
            None => rest,
        }
    }
}

/// Projects the host environment through the policy's environment section.
///
/// A key the host environment does not define is omitted without error; a
/// policy without an environment section projects nothing.
#[verifier::loop_isolation(false)]
pub fn extract_env_vars(policy: &PolicyDocument, environment_vars: &Vec<(String, String)>) -> (r:
    Vec<(String, String)>)
    ensures
        r@.map_values(|e: (String, String)| (e.0@, e.1@)) == spec_env_projection(
            crate::policy::spec_env_keys(*policy),
            environment_vars@.map_values(|e: (String, String)| (e.0@, e.1@)),
        ),
{
    let ghost genv = environment_vars@.map_values(|e: (String, String)| (e.0@, e.1@));
    let ghost keys = crate::policy::spec_env_keys(*policy);
    let mut r: Vec<(String, String)> = Vec::new();
    match &policy.permissions.environment {
        Some(env_perms) => match &env_perms.allow {
            Some(entries) => {
                let m = entries.len();
                proof {
                    assert(keys =~= entries@.map_values(|e: crate::policy::EnvEntry| e.key@));
                }
                for i in 0..m
                    invariant
                        m == entries@.len(),
                        r@.map_values(|e: (String, String)| (e.0@, e.1@)) =~= spec_env_projection(
                            keys.subrange(0, i as int),
                            genv,
                        ),
                {
                    proof {
                        let pre = keys.subrange(0, i as int);
                        let cur = keys.subrange(0, i + 1);
                        assert(cur.drop_last() =~= pre);
                        assert(cur.last() == keys[i as int]);
                        assert(keys[i as int] == entries@[i as int].key@);
                    }
                    match env_lookup(environment_vars, &entries[i].key) {
                        Some(v) => {
                            r.push((entries[i].key.clone(), v));
                            proof {
                                assert(r@.map_values(|e: (String, String)| (e.0@, e.1@))
                                    =~= spec_env_projection(keys.subrange(0, i + 1), genv));
                            }
                        },
                        None => {
                            proof {
                                assert(r@.map_values(|e: (String, String)| (e.0@, e.1@))
                                    =~= spec_env_projection(keys.subrange(0, i + 1), genv));
                            }
                        },
                    }
                }
                proof {
                    assert(keys.subrange(0, m as int) =~= keys);
                }
            },
            None => {
                proof {
                    assert(keys =~= Seq::<Seq<char>>::empty());
                }
            },
        },
        None => {
            proof {
                assert(keys =~= Seq::<Seq<char>>::empty());
            }
        },
    }
    r
}

/// Whether the policy grants any network host.
pub open spec fn spec_has_network(p: PolicyDocument) -> bool {
    crate::policy::spec_network_hosts(p).len() > 0
}

/// Derives the network capability flags: all three are granted exactly when
/// the policy names at least one host, and all three are denied otherwise.
pub fn extract_network_perms(policy: &PolicyDocument) -> (r: NetworkPermissions)
    ensures
        r.allow_tcp == spec_has_network(*policy),
        r.allow_udp == spec_has_network(*policy),
        r.allow_ip_name_lookup == spec_has_network(*policy),
{
    let has = match &policy.permissions.network {
        Some(n) => match &n.allow {
            Some(entries) => entries.len() > 0,
            None => false,
        },
        None => false,
    };
    NetworkPermissions { allow_tcp: has, allow_udp: has, allow_ip_name_lookup: has }
}

/// Collects the policy's allowed hosts, in document order.
///
/// Membership is what the request gate consumes: a host is in the result
/// exactly when some network entry names it.
#[verifier::loop_isolation(false)]
pub fn extract_allowed_hosts(policy: &PolicyDocument) -> (r: Vec<String>)
    ensures
        r@.len() == crate::policy::spec_network_hosts(*policy).len(),
        forall|j: int|
            0 <= j < r@.len() ==> #[trigger] r@[j]@ == crate::policy::spec_network_hosts(*policy)[j],
{
    let ghost hosts = crate::policy::spec_network_hosts(*policy);
    let mut r: Vec<String> = Vec::new();
    match &policy.permissions.network {
        Some(n) => match &n.allow {
            Some(entries) => {
                let m = entries.len();
                proof {
                    assert(hosts =~= entries@.map_values(|e: crate::policy::HostEntry| e.host@));
                }
                for i in 0..m
                    invariant
                        m == entries@.len(),
                        r@.len() == i,
                        forall|j: int| 0 <= j < i ==> #[trigger] r@[j]@ == entries@[j].host@,
                {
                    r.push(entries[i].host.clone());
                }
            },
            None => {},
        },
        None => {},
    }
    r
}

/// Whether `s` begins with `prefix`.
pub open spec fn starts_with(s: Seq<char>, prefix: Seq<char>) -> bool {
    prefix.len() <= s.len() && s.subrange(0, prefix.len() as int) == prefix
}

/// The host path a storage entry resolves to: an absolute remainder stands
/// alone, a relative one is joined under the plugin directory.
pub open spec fn spec_host_path(plugin_dir: Seq<char>, rel: Seq<char>) -> Seq<char> {
    if rel.len() > 0 && rel[0] == '/' {
        rel
    } else {
        plugin_dir + "/"@ + rel
    }
}

/// The preopened directories a policy grants: one per `fs://` storage
/// entry, in order; other URI schemes are ignored.
pub open spec fn spec_preopens(entries: Seq<StorageEntry>, plugin_dir: Seq<char>) -> Seq<
    (Seq<char>, Seq<char>, DirPerms, FilePerms),
>
    decreases entries,
{
    if entries.len() == 0 {
        Seq::empty()
    } else {
        let rest = spec_preopens(entries.drop_last(), plugin_dir);
        let e = entries.last();
        if starts_with(e.uri@, "fs://"@) {
            let rel = e.uri@.subrange(5, e.uri@.len() as int);
            rest.push(
                (
                    spec_host_path(plugin_dir, rel),
                    rel,
                    spec_dir_perms(e.access@),
                    spec_file_perms(e.access@),
                ),
            )
        } else {
            rest
        }
    }
}

/// The storage entries of a policy, or the empty sequence.
pub open spec fn spec_storage_entries(p: PolicyDocument) -> Seq<StorageEntry> {
    match p.permissions.storage {
        Some(st) => match st.allow {
            Some(entries) => entries@,
            None => Seq::empty(),
        },
        None => Seq::empty(),
    }
}

/// The view of a built preopen list.
pub open spec fn preopens_view(r: Seq<PreopenedDir>) -> Seq<
    (Seq<char>, Seq<char>, DirPerms, FilePerms),
> {
    r.map_values(|d: PreopenedDir| (d.host_path@, d.guest_path@, d.dir_perms, d.file_perms))
}

/// Resolves the policy's `fs://` storage grants against the plugin
/// directory.
#[verifier::loop_isolation(false)]
pub fn extract_storage_permissions(policy: &PolicyDocument, plugin_dir: &str) -> (r: Vec<
    PreopenedDir,
>)
    ensures
        preopens_view(r@) == spec_preopens(spec_storage_entries(*policy), plugin_dir@),
{
    proof {
        reveal_strlit("fs://");
    }
    let ghost sentries = spec_storage_entries(*policy);
    let mut r: Vec<PreopenedDir> = Vec::new();
    match &policy.permissions.storage {
        Some(st) => match &st.allow {
            Some(entries) => {
                let m = entries.len();
                proof {
                    assert(sentries =~= entries@);
                }
                for i in 0..m
                    invariant
                        m == entries@.len(),
                        preopens_view(r@) =~= spec_preopens(
                            entries@.subrange(0, i as int),
                            plugin_dir@,
                        ),
                {
                    proof {
                        let pre = entries@.subrange(0, i as int);
                        let cur = entries@.subrange(0, i + 1);
                        assert(cur.drop_last() =~= pre);
                        assert(cur.last() == entries@[i as int]);
                    }
                    let uri_chars = str_to_chars(entries[i].uri.as_str());
                    let is_fs = check_fs_prefix(&uri_chars);
                    if is_fs {
                        let rel = substring_chars(&uri_chars, 5, uri_chars.len());
                        let rel_string = crate::text::chars_to_string(&rel);
                        let host_path = join_path(plugin_dir, &rel_string);
                        let (file_perms, dir_perms) = calculate_permissions(&entries[i].access);
                        let guest_path = rel_string;
                        r.push(PreopenedDir { host_path, guest_path, dir_perms, file_perms });
                        proof {
                            assert(preopens_view(r@) =~= spec_preopens(
                                entries@.subrange(0, i + 1),
                                plugin_dir@,
                            ));
                        }
                    } else {
                        proof {
                            assert(preopens_view(r@) =~= spec_preopens(
                                entries@.subrange(0, i + 1),
                                plugin_dir@,
                            ));
                        }
                    }
                }
                proof {
                    assert(entries@.subrange(0, m as int) =~= entries@);
                }
            },
            None => {},
        },
        None => {},
    }
    r
}

/// Whether a URI begins with `fs://`.
fn check_fs_prefix(chars: &Vec<char>) -> (r: bool)
    ensures
        r == starts_with(chars@, "fs://"@),
{
    proof {
        reveal_strlit("fs://");
    }
    if chars.len() < 5 {
        return false;
    }
    let r = chars[0] == 'f' && chars[1] == 's' && chars[2] == ':' && chars[3] == '/' && chars[4]
        == '/';
    proof {
        if r {
            assert(chars@.subrange(0, 5) =~= "fs://"@);
        } else {
            if chars@.subrange(0, 5) == "fs://"@ {
                assert(chars@[0] == 'f' && chars@[1] == 's' && chars@[2] == ':' && chars@[3] == '/'
                    && chars@[4] == '/') by {
                    assert(chars@.subrange(0, 5)[0] == 'f');
                    assert(chars@.subrange(0, 5)[1] == 's');
                    assert(chars@.subrange(0, 5)[2] == ':');
                    assert(chars@.subrange(0, 5)[3] == '/');
                    assert(chars@.subrange(0, 5)[4] == '/');
                }
                assert(false);
            }
        }
    }
    r
}

/// Copies a character range out of a vector.
fn substring_chars(chars: &Vec<char>, from: usize, to: usize) -> (r: Vec<char>)
    requires
        from <= to <= chars@.len(),
    ensures
        r@ == chars@.subrange(from as int, to as int),
{
    let mut r: Vec<char> = Vec::new();
    let mut i = from;
    while i < to
        invariant
            from <= i <= to <= chars@.len(),
            r@ == chars@.subrange(from as int, i as int),
        decreases to - i,
    {
        r.push(chars[i]);
        proof {
            assert(r@ =~= chars@.subrange(from as int, i + 1));
        }
        i = i + 1;
    }
    r
}

/// Joins a relative path under the plugin directory; an absolute path
/// stands alone.
fn join_path(plugin_dir: &str, rel: &String) -> (r: String)
    ensures
        r@ == spec_host_path(plugin_dir@, rel@),
{
    let rel_chars = str_to_chars(rel.as_str());
    if rel_chars.len() > 0 && rel_chars[0] == '/' {
        return rel.clone();
    }
    let mut out = plugin_dir.to_owned();
    out.append("/");
    out.append(rel.as_str());
    out
}

/// The numeric value of a digit character, zero for anything else.
pub open spec fn digit_val(c: char) -> nat {
    if 0x30 <= (c as u32) && (c as u32) <= 0x39 {
        ((c as u32) - 0x30) as nat
    } else {
        0
    }
}

/// The decimal value of a digit string.
pub open spec fn dec_val(s: Seq<char>) -> nat
    decreases s,
{
    if s.len() == 0 {
        0
    } else {
        dec_val(s.drop_last()) * 10 + digit_val(s.last())
    }
}

/// A non-empty string of ASCII digits.
pub open spec fn all_digits(s: Seq<char>) -> bool {
    s.len() > 0 && forall|i: int| 0 <= i < s.len() ==> crate::text::is_ascii_digit(#[trigger] s[i])
}

/// The number part and multiplier of a size string: a trailing IEC suffix
/// `Ki`, `Mi` or `Gi` scales the number, anything else is taken as bytes.
pub open spec fn spec_size_parts(s: Seq<char>) -> (Seq<char>, int) {
    if s.len() >= 2 && s[s.len() - 1] == 'i' && s[s.len() - 2] == 'K' {
        (s.subrange(0, s.len() - 2), 1024)
    } else if s.len() >= 2 && s[s.len() - 1] == 'i' && s[s.len() - 2] == 'M' {
        (s.subrange(0, s.len() - 2), 1048576)
    } else if s.len() >= 2 && s[s.len() - 1] == 'i' && s[s.len() - 2] == 'G' {
        (s.subrange(0, s.len() - 2), 1073741824)
    } else {
        (s, 1)
    }
}

/// The byte value of a size string: a decimal number with an optional IEC
/// suffix, defined when the digits are well-formed and the value fits a
/// `u64`.
pub open spec fn spec_parse_memory(s: Seq<char>) -> Option<int> {
    let (num, mult) = spec_size_parts(s);
    if all_digits(num) && dec_val(num) * mult <= u64::MAX {
        Some(dec_val(num) * mult as int)
    } else {
        None
    }
}

/// Parses the decimal digits of `chars`; `None` when empty, not all digits,
/// or over the `u64` range.
#[verifier::loop_isolation(false)]
pub(crate) fn parse_digits(chars: &Vec<char>) -> (r: Option<u64>)
    ensures
        match r {
            Some(v) => all_digits(chars@) && v == dec_val(chars@),
            None => !all_digits(chars@) || dec_val(chars@) > u64::MAX,
        },
{
    let n = chars.len();
    if n == 0 {
        return None;
    }
    let mut acc: u64 = 0;
    let mut exceeded = false;
    for i in 0..n
        invariant
            n == chars@.len(),
            forall|j: int| 0 <= j < i ==> crate::text::is_ascii_digit(#[trigger] chars@[j]),
            !exceeded ==> acc == dec_val(chars@.subrange(0, i as int)),
            exceeded ==> dec_val(chars@.subrange(0, i as int)) > u64::MAX,
    {
        let c = chars[i];
        let u = c as u32;
        if !(0x30 <= u && u <= 0x39) {
            return None;
        }
        let d: u64 = (u - 0x30) as u64;
        proof {
            let pre = chars@.subrange(0, i as int);
            let cur = chars@.subrange(0, i + 1);
            assert(cur.drop_last() =~= pre);
            assert(cur.last() == chars@[i as int]);
            assert(digit_val(chars@[i as int]) == d);
        }
        if exceeded {
            proof {
                let pre = chars@.subrange(0, i as int);
                let cur = chars@.subrange(0, i + 1);
                assert(dec_val(cur) == dec_val(pre) * 10 + d);
                assert(dec_val(pre) * 10 >= dec_val(pre)) by (nonlinear_arith)
                    requires
                        dec_val(pre) >= 0,
                ;
            }
        } else {
            proof {
                assert((acc as u128) * 10 + 9 <= u128::MAX) by (nonlinear_arith)
                    requires
                        acc <= u64::MAX,
                ;
            }
            let wide: u128 = (acc as u128) * 10 + (d as u128);
            if wide > u64::MAX as u128 {
                exceeded = true;
            } else {
                acc = wide as u64;
            }
        }
    }
    proof {
        assert(chars@.subrange(0, n as int) =~= chars@);
    }
    if exceeded {
        None
    } else {
        Some(acc)
    }
}

/// Parses a size string such as `512Mi` into bytes.
///
/// Returns exactly [`spec_parse_memory`]: `None` on malformed digits and on
/// values over the `u64` range.
#[verifier::rlimit(60)]
#[verifier::spinoff_prover]
pub fn parse_memory_size(s: &str) -> (r: Option<u64>)
    ensures
        match r {
            Some(v) => spec_parse_memory(s@) == Some(v as int),
            None => spec_parse_memory(s@) is None,
        },
{
    let chars = str_to_chars(s);
    let n = chars.len();
    let mut mult: u64 = 1;
    let mut num_end: usize = n;
    if n >= 2 && chars[n - 1] == 'i' {
        let tag = chars[n - 2];
        if tag == 'K' {
            mult = 1024;
            num_end = n - 2;
        } else if tag == 'M' {
            mult = 1048576;
            num_end = n - 2;
        } else if tag == 'G' {
            mult = 1073741824;
            num_end = n - 2;
        }
    }
    proof {
        assert(spec_size_parts(s@) == (s@.subrange(0, num_end as int), mult as int));
    }
    let num = substring_chars(&chars, 0, num_end);
    match parse_digits(&num) {
        Some(v) => {
            proof {
                assert((v as u128) * (mult as u128) <= u128::MAX) by (nonlinear_arith)
                    requires
                        v <= u64::MAX,
                        mult <= 1073741824u64,
                ;
            }
            let wide: u128 = (v as u128) * (mult as u128);
            proof {
                assert(wide == (v as int) * (mult as int)) by (nonlinear_arith)
                    requires
                        v <= u64::MAX,
                        mult <= 1073741824u64,
                        wide == (v as u128) * (mult as u128),
                ;
            }
            proof {
                let parts = spec_size_parts(s@);
                assert(parts.0 == num@);
                assert(parts.1 == mult as int);
                assert(crate::sandbox::all_digits(num@));
                assert(dec_val(num@) == v as nat);
            }
            if wide > u64::MAX as u128 {
                proof {
                    assert(dec_val(num@) * (mult as int) > u64::MAX);
                    assert(spec_parse_memory(s@) is None);
                }
                None
            } else {
                proof {
                    assert(dec_val(num@) * (mult as int) == wide);
                    assert(spec_parse_memory(s@) == Some((v as int) * (mult as int)));
                }
                Some(wide as u64)
            }
        },
        None => None,
    }
}

/// The memory ceiling a policy asks for: the outer `None` means the policy
/// is malformed, the inner `None` that no ceiling is set. The suffixed
/// `limits.memory` string wins over the legacy numeric MiB field.
pub open spec fn spec_memory_limit(p: PolicyDocument) -> Option<Option<int>> {
    match p.permissions.resources {
        None => Some(None),
        Some(res) => {
            let from_limits = match res.limits {
                Some(l) => match l.memory {
                    Some(m) => Some(spec_parse_memory(m@)),
                    None => None,
                },
                None => None,
            };
            match from_limits {
                Some(parsed) => match parsed {
                    Some(v) => Some(Some(v)),
                    None => None,
                },
                None => match res.memory {
                    Some(mib) => if mib * 1048576 <= u64::MAX {
                        Some(Some(mib * 1048576))
                    } else {
                        None
                    },
                    None => Some(None),
                },
            }
        },
    }
}

/// Extracts the policy's memory ceiling in bytes.
///
/// A malformed size string, or a legacy MiB count whose byte value leaves
/// the `u64` range, is [`ErrorKind::InvalidInput`]; a policy without a
/// resources section has no ceiling.
pub fn extract_memory_limit(policy: &PolicyDocument) -> (r: Result<Option<u64>, ErrorKind>)
    ensures
        match r {
            Ok(v) => spec_memory_limit(*policy) == Some(
                match v {
                    Some(b) => Some(b as int),
                    None => None::<int>,
                },
            ),
            Err(e) => spec_memory_limit(*policy) is None && e == ErrorKind::InvalidInput,
        },
{
    match &policy.permissions.resources {
        None => Ok(None),
        Some(res) => {
            let parsed: Option<Option<u64>> = match &res.limits {
                Some(l) => match &l.memory {
                    Some(m) => Some(parse_memory_size(m.as_str())),
                    None => None,
                },
                None => None,
            };
            match parsed {
                Some(Some(v)) => Ok(Some(v)),
                Some(None) => Err(ErrorKind::InvalidInput),
                None => match res.memory {
                    Some(mib) => {
                        if mib <= u64::MAX / 1048576 {
                            proof {
                                assert(mib * 1048576 <= u64::MAX) by (nonlinear_arith)
                                    requires
                                        mib <= u64::MAX / 1048576,
                                ;
                            }
                            Ok(Some(mib * 1048576))
                        } else {
                            proof {
                                assert(mib * 1048576 > u64::MAX) by (nonlinear_arith)
                                    requires
                                        mib > u64::MAX / 1048576,
                                ;
                            }
                            Err(ErrorKind::InvalidInput)
                        }
                    },
                    None => Ok(None),
                },
            }
        },
    }
}

/// What it means for a built template to be the compilation of a policy
/// against a plugin directory and a host environment.
pub open spec fn template_matches(
    t: WasiStateTemplate,
    p: PolicyDocument,
    plugin_dir: Seq<char>,
    env: Seq<(Seq<char>, Seq<char>)>,
) -> bool {
    &&& t.allow_stdout
    &&& t.allow_stderr
    &&& t.allow_args
    &&& t.network_perms.allow_tcp == spec_has_network(p)
    &&& t.network_perms.allow_udp == spec_has_network(p)
    &&& t.network_perms.allow_ip_name_lookup == spec_has_network(p)
    &&& t.config_vars@.map_values(|e: (String, String)| (e.0@, e.1@)) == spec_env_projection(
        crate::policy::spec_env_keys(p),
        env,
    )
    &&& preopens_view(t.preopened_dirs@) == spec_preopens(spec_storage_entries(p), plugin_dir)
    &&& t.allowed_hosts@.len() == crate::policy::spec_network_hosts(p).len()
    &&& forall|j: int|
        0 <= j < t.allowed_hosts@.len() ==> #[trigger] t.allowed_hosts@[j]@
            == crate::policy::spec_network_hosts(p)[j]
    &&& spec_memory_limit(p) == Some(
        match t.memory_limit {
            Some(b) => Some(b as int),
            None => None::<int>,
        },
    )
}

/// Compiles a policy document into a sandbox template.
///
/// The function is pure: the template is determined by the policy, the
/// plugin directory and the environment handed in; see
/// [`lemma_policy_compiler_deterministic`]. It fails, with
/// [`ErrorKind::InvalidInput`], exactly when the policy's memory ceiling is
/// malformed.
pub fn create_wasi_state_template_from_policy(
    policy: &PolicyDocument,
    plugin_dir: &str,
    environment_vars: &Vec<(String, String)>,
) -> (r: Result<WasiStateTemplate, ErrorKind>)
    ensures
        r is Ok <==> spec_memory_limit(*policy) is Some,
        r matches Ok(t) ==> template_matches(
            t,
            *policy,
            plugin_dir@,
            environment_vars@.map_values(|e: (String, String)| (e.0@, e.1@)),
        ),
        r matches Err(e) ==> e == ErrorKind::InvalidInput,
{
    let memory_limit = match extract_memory_limit(policy) {
        Ok(v) => v,
        Err(e) => {
            return Err(e);
        },
    };
    let env_vars = extract_env_vars(policy, environment_vars);
    let network_perms = extract_network_perms(policy);
    let preopened_dirs = extract_storage_permissions(policy, plugin_dir);
    let allowed_hosts = extract_allowed_hosts(policy);
    Ok(
        WasiStateTemplate {
            allow_stdout: true,
            allow_stderr: true,
            allow_args: true,
            network_perms,
            config_vars: env_vars,
            preopened_dirs,
            allowed_hosts,
            memory_limit,
        },
    )
}

/// Equality of templates as capability surfaces: every field agrees up to
/// string views.
pub open spec fn template_eq(a: WasiStateTemplate, b: WasiStateTemplate) -> bool {
    &&& a.allow_stdout == b.allow_stdout
    &&& a.allow_stderr == b.allow_stderr
    &&& a.allow_args == b.allow_args
    &&& a.network_perms == b.network_perms
    &&& a.config_vars@.map_values(|e: (String, String)| (e.0@, e.1@)) == b.config_vars@.map_values(
        |e: (String, String)| (e.0@, e.1@),
    )
    &&& preopens_view(a.preopened_dirs@) == preopens_view(b.preopened_dirs@)
    &&& a.allowed_hosts@.map_values(|s: String| s@) == b.allowed_hosts@.map_values(
        |s: String| s@,
    )
    &&& a.memory_limit == b.memory_limit
}

/// The policy compiler is deterministic, idempotent in particular: two
/// compilations of the same policy against the same plugin directory and
/// environment yield equal templates.
pub proof fn lemma_policy_compiler_deterministic(
    t1: WasiStateTemplate,
    t2: WasiStateTemplate,
    p: PolicyDocument,
    plugin_dir: Seq<char>,
    env: Seq<(Seq<char>, Seq<char>)>,
)
    requires
        template_matches(t1, p, plugin_dir, env),
        template_matches(t2, p, plugin_dir, env),
    ensures
        template_eq(t1, t2),
{
    assert(t1.allowed_hosts@.map_values(|s: String| s@) =~= t2.allowed_hosts@.map_values(
        |s: String| s@,
    ));
    match t1.memory_limit {
        Some(b1) => match t2.memory_limit {
            Some(b2) => {
                assert(b1 as int == b2 as int);
            },
            None => {
                assert(false);
            },
        },
        None => match t2.memory_limit {
            Some(_) => {
                assert(false);
            },
            None => {},
        },
    }
}

/// Whether `authority` is one of the allowed hosts.
#[verifier::loop_isolation(false)]
pub fn host_allowed(allowed_hosts: &Vec<String>, authority: &str) -> (r: bool)
    ensures
        r == exists|j: int|
            0 <= j < allowed_hosts@.len() && #[trigger] allowed_hosts@[j]@ == authority@,
{
    let auth = authority.to_owned();
    let n = allowed_hosts.len();
    for k in 0..n
        invariant
            n == allowed_hosts@.len(),
            forall|j: int| 0 <= j < k ==> #[trigger] allowed_hosts@[j]@ != authority@,
    {
        if allowed_hosts[k] == auth {
            proof {
                assert(allowed_hosts@[k as int]@ == authority@);
            }
            return true;
        }
    }
    false
}

/// Gates an outbound HTTP request on the template's host allowlist.
///
/// Deny by default: the request passes exactly when its authority is one of
/// the allowed hosts, so an empty allowlist denies everything. A denial is
/// [`ErrorKind::PolicyViolation`]; the guest-visible message comes from
/// [`http_denied_message`].
pub fn check_http_request(t: &WasiStateTemplate, authority: &str) -> (r: Result<(), ErrorKind>)
    ensures
        r is Ok <==> exists|j: int|
            0 <= j < t.allowed_hosts@.len() && #[trigger] t.allowed_hosts@[j]@ == authority@,
        r matches Err(e) ==> e == ErrorKind::PolicyViolation,
{
    if host_allowed(&t.allowed_hosts, authority) {
        Ok(())
    } else {
        Err(ErrorKind::PolicyViolation)
    }
}

/// The guest-visible error body for a denied HTTP request.
pub fn http_denied_message(authority: &str) -> (r: String)
    ensures
        r@ == "HttpRequestDenied: "@ + authority@,
{
    let mut out = "HttpRequestDenied: ".to_owned();
    out.append(authority);
    out
}

/// Decides a linear-memory growth request against the template's ceiling:
/// growth to `desired` bytes is allowed exactly when no ceiling is set or
/// `desired` stays within it.
pub fn memory_grow_allowed(desired: u64, memory_limit: &Option<u64>) -> (r: bool)
    ensures
        r == match *memory_limit {
            Some(limit) => desired <= limit,
            None => true,
        },
{
    match memory_limit {
        Some(limit) => desired <= *limit,
        None => true,
    }
}

/// The environment projection with secrets laid over it: every projected
/// variable keeps its position, a secret under the same name replaces its
/// value, and secrets under fresh names follow.
pub open spec fn spec_merged_env(
    env: Seq<(Seq<char>, Seq<char>)>,
    secrets: Seq<(Seq<char>, Seq<char>)>,
) -> Seq<(Seq<char>, Seq<char>)> {
    spec_overridden(env, secrets) + spec_leftover_secrets(secrets, env)
}

/// The projected variables, secret values replacing same-named ones.
pub open spec fn spec_overridden(
    env: Seq<(Seq<char>, Seq<char>)>,
    secrets: Seq<(Seq<char>, Seq<char>)>,
) -> Seq<(Seq<char>, Seq<char>)> {
    env.map_values(
        |p: (Seq<char>, Seq<char>)|
            (
                p.0,
                match crate::secrets::sm_find(secrets, p.0) {
                    Some(v) => v,
                    None => p.1,
                },
            ),
    )
}

/// The secrets whose names the projection does not carry, in order.
pub open spec fn spec_leftover_secrets(
    secrets: Seq<(Seq<char>, Seq<char>)>,
    env: Seq<(Seq<char>, Seq<char>)>,
) -> Seq<(Seq<char>, Seq<char>)>
    decreases secrets,
{
    if secrets.len() == 0 {
        Seq::empty()
    } else if env_has_key(env, secrets[0].0) {
        spec_leftover_secrets(secrets.drop_first(), env)
    } else {
        seq![secrets[0]] + spec_leftover_secrets(secrets.drop_first(), env)
    }
}

/// Whether the projection carries a variable of this name.
pub open spec fn env_has_key(env: Seq<(Seq<char>, Seq<char>)>, k: Seq<char>) -> bool {
    exists|i: int| 0 <= i < env.len() && #[trigger] env[i].0 == k
}

/// Lays a component's secrets over its environment projection.
///
/// Exactly the just-in-time materialization step of an invocation: the
/// guest sees every projected variable and every secret, and where both
/// name the same variable the secret's value wins — see
/// [`lemma_secrets_override`].
#[verifier::loop_isolation(false)]
pub fn merge_secret_env(env: &Vec<(String, String)>, secrets: &crate::secrets::SecretMap) -> (r:
    Vec<(String, String)>)
    requires
        secrets.wf(),
    ensures
        r@.map_values(|e: (String, String)| (e.0@, e.1@)) == spec_merged_env(
            env@.map_values(|e: (String, String)| (e.0@, e.1@)),
            secrets.view_pairs(),
        ),
{
    let ghost genv = env@.map_values(|e: (String, String)| (e.0@, e.1@));
    let ghost gsec = secrets.view_pairs();
    let mut r: Vec<(String, String)> = Vec::new();
    let n = env.len();
    for i in 0..n
        invariant
            n == env@.len(),
            genv == env@.map_values(|e: (String, String)| (e.0@, e.1@)),
            gsec == secrets.view_pairs(),
            secrets.wf(),
            r@.len() == i,
            forall|j: int|
                #![trigger r@[j]]
                0 <= j < i ==> (r@[j].0@, r@[j].1@) == spec_overridden(genv, gsec)[j],
    {
        let key = env[i].0.clone();
        let value = match secrets.get(key.as_str()) {
            Some(sv) => sv.clone(),
            None => env[i].1.clone(),
        };
        r.push((key, value));
        proof {
            assert(genv[i as int] == (env@[i as int].0@, env@[i as int].1@));
            assert((r@[i as int].0@, r@[i as int].1@) == spec_overridden(genv, gsec)[i as int]);
        }
    }
    let pairs = secrets.iter();
    let m = pairs.len();
    let ghost base_len = r@.len();
    proof {
        assert(gsec.subrange(0, 0) =~= Seq::<(Seq<char>, Seq<char>)>::empty());
        assert(spec_leftover_secrets(gsec.subrange(0, 0), genv) =~= Seq::<
            (Seq<char>, Seq<char>),
        >::empty());
    }
    for j in 0..m
        invariant
            m == pairs@.len(),
            m == gsec.len(),
            genv == env@.map_values(|e: (String, String)| (e.0@, e.1@)),
            gsec == secrets.view_pairs(),
            n == env@.len(),
            forall|j2: int|
                #![trigger pairs@[j2]]
                0 <= j2 < m ==> (pairs@[j2].0@, pairs@[j2].1@) == gsec[j2],
            base_len == genv.len(),
            r@.len() == base_len + spec_leftover_secrets(gsec.subrange(0, j as int), genv).len(),
            forall|j2: int|
                #![trigger r@[j2]]
                0 <= j2 < base_len ==> (r@[j2].0@, r@[j2].1@) == spec_overridden(genv, gsec)[j2],
            forall|j2: int|
                #![trigger r@[base_len + j2]]
                0 <= j2 < r@.len() - base_len ==> (r@[base_len + j2].0@, r@[base_len + j2].1@)
                    == spec_leftover_secrets(gsec.subrange(0, j as int), genv)[j2],
    {
        proof {
            lemma_leftover_step(gsec, genv, j as int);
        }
        let present = env_contains_key(env, &pairs[j].0);
        proof {
            assert((pairs@[j as int].0@, pairs@[j as int].1@) == gsec[j as int]);
            assert(present == env_has_key(genv, gsec[j as int].0));
        }
        if !present {
            r.push((pairs[j].0.clone(), pairs[j].1.clone()));
            proof {
                let pre = spec_leftover_secrets(gsec.subrange(0, j as int), genv);
                let cur = spec_leftover_secrets(gsec.subrange(0, j + 1), genv);
                assert(cur == pre.push(gsec[j as int]));
                assert((r@[r@.len() - 1].0@, r@[r@.len() - 1].1@) == gsec[j as int]);
            }
        } else {
            proof {
                let pre = spec_leftover_secrets(gsec.subrange(0, j as int), genv);
                let cur = spec_leftover_secrets(gsec.subrange(0, j + 1), genv);
                assert(cur == pre);
            }
        }
    }
    proof {
        assert(gsec.subrange(0, m as int) =~= gsec);
        let merged = spec_merged_env(genv, gsec);
        let over = spec_overridden(genv, gsec);
        let left = spec_leftover_secrets(gsec, genv);
        assert(merged.len() == over.len() + left.len());
        let rv = r@.map_values(|e: (String, String)| (e.0@, e.1@));
        assert forall|j2: int| 0 <= j2 < r@.len() implies #[trigger] rv[j2] == merged[j2] by {
            if j2 < base_len {
                assert((r@[j2].0@, r@[j2].1@) == over[j2]);
                assert(merged[j2] == over[j2]);
            } else {
                assert((r@[base_len + (j2 - base_len)].0@, r@[base_len + (j2 - base_len)].1@)
                    == left[j2 - base_len]);
                assert(merged[j2] == left[j2 - base_len]);
            }
        }
        assert(rv =~~= merged);
    }
    r
}

/// Extending the decoded prefix by one secret extends the leftovers by the
/// secret exactly when the projection lacks its name.
proof fn lemma_leftover_step(
    gsec: Seq<(Seq<char>, Seq<char>)>,
    genv: Seq<(Seq<char>, Seq<char>)>,
    j: int,
)
    requires
        0 <= j < gsec.len(),
    ensures
        spec_leftover_secrets(gsec.subrange(0, j + 1), genv) == if env_has_key(genv, gsec[j].0) {
            spec_leftover_secrets(gsec.subrange(0, j), genv)
        } else {
            spec_leftover_secrets(gsec.subrange(0, j), genv).push(gsec[j])
        },
{
    lemma_leftover_snoc(gsec.subrange(0, j), gsec[j], genv);
    assert(gsec.subrange(0, j).push(gsec[j]) =~= gsec.subrange(0, j + 1));
}

/// Appending one secret to a sequence appends it to the leftovers exactly
/// when the projection lacks its name.
proof fn lemma_leftover_snoc(
    s: Seq<(Seq<char>, Seq<char>)>,
    p: (Seq<char>, Seq<char>),
    genv: Seq<(Seq<char>, Seq<char>)>,
)
    ensures
        spec_leftover_secrets(s.push(p), genv) == if env_has_key(genv, p.0) {
            spec_leftover_secrets(s, genv)
        } else {
            spec_leftover_secrets(s, genv).push(p)
        },
    decreases s.len(),
{
    if s.len() == 0 {
        assert(s.push(p)[0] == p);
        assert(s.push(p).drop_first() =~= Seq::<(Seq<char>, Seq<char>)>::empty());
        assert(spec_leftover_secrets(s.push(p), genv) == (if env_has_key(genv, s.push(p)[0].0) {
            spec_leftover_secrets(s.push(p).drop_first(), genv)
        } else {
            seq![s.push(p)[0]] + spec_leftover_secrets(s.push(p).drop_first(), genv)
        }));
        assert(spec_leftover_secrets(Seq::<(Seq<char>, Seq<char>)>::empty(), genv)
            =~= Seq::<(Seq<char>, Seq<char>)>::empty());
        if env_has_key(genv, p.0) {
            assert(spec_leftover_secrets(s.push(p), genv) =~= spec_leftover_secrets(s, genv));
        } else {
            assert(spec_leftover_secrets(s.push(p), genv) =~= seq![p]);
            assert(spec_leftover_secrets(s, genv).push(p) =~= seq![p]);
        }
    } else {
        assert(s.push(p)[0] == s[0]);
        assert(s.push(p).drop_first() =~= s.drop_first().push(p));
        lemma_leftover_snoc(s.drop_first(), p, genv);
        if env_has_key(genv, s[0].0) {
        } else {
            if env_has_key(genv, p.0) {
            } else {
                assert(seq![s[0]] + spec_leftover_secrets(s.drop_first(), genv).push(p) =~= (
                seq![s[0]] + spec_leftover_secrets(s.drop_first(), genv)).push(p));
            }
        }
    }
}

/// Whether the projection carries a variable of this name (executable
/// form).
#[verifier::loop_isolation(false)]
fn env_contains_key(env: &Vec<(String, String)>, key: &String) -> (r: bool)
    ensures
        r == env_has_key(env@.map_values(|e: (String, String)| (e.0@, e.1@)), key@),
{
    let ghost genv = env@.map_values(|e: (String, String)| (e.0@, e.1@));
    let n = env.len();
    for i in 0..n
        invariant
            n == env@.len(),
            forall|j: int| 0 <= j < i ==> #[trigger] genv[j].0 != key@,
    {
        if env[i].0 == *key {
            proof {
                assert(genv[i as int].0 == key@);
            }
            return true;
        }
        proof {
            assert(genv[i as int].0 != key@);
        }
    }
    false
}

/// The override law of secret materialization: in the merged environment a
/// name bound by the secret map resolves to the secret's value, and every
/// other name resolves exactly as in the plain projection.
pub proof fn lemma_secrets_override(
    env: Seq<(Seq<char>, Seq<char>)>,
    secrets: Seq<(Seq<char>, Seq<char>)>,
    k: Seq<char>,
)
    requires
        forall|i: int, j: int|
            0 <= i < j < secrets.len() ==> #[trigger] secrets[i].0 != #[trigger] secrets[j].0,
    ensures
        spec_env_lookup(spec_merged_env(env, secrets), k) == match crate::secrets::sm_find(
            secrets,
            k,
        ) {
            Some(v) => Some(v),
            None => spec_env_lookup(env, k),
        },
{
    let over = spec_overridden(env, secrets);
    let left = spec_leftover_secrets(secrets, env);
    if env_has_key(env, k) {
        lemma_lookup_in_overridden(env, secrets, k);
        lemma_lookup_prefix(over, left, k);
    } else {
        lemma_lookup_absent_overridden(env, secrets, k);
        lemma_lookup_skip_prefix(over, left, k);
        lemma_lookup_leftovers(secrets, env, k);
    }
}

/// A name the projection carries is found in the overridden part, with the
/// secret's value when one exists.
proof fn lemma_lookup_in_overridden(
    env: Seq<(Seq<char>, Seq<char>)>,
    secrets: Seq<(Seq<char>, Seq<char>)>,
    k: Seq<char>,
)
    requires
        env_has_key(env, k),
    ensures
        spec_env_lookup(spec_overridden(env, secrets), k) == Some(
            match crate::secrets::sm_find(secrets, k) {
                Some(v) => v,
                None => spec_env_lookup(env, k)->Some_0,
            },
        ),
        spec_env_lookup(env, k) is Some,
    decreases env.len(),
{
    let over = spec_overridden(env, secrets);
    assert(over.len() == env.len());
    assert(over[0] == (
        env[0].0,
        match crate::secrets::sm_find(secrets, env[0].0) {
            Some(v) => v,
            None => env[0].1,
        },
    ));
    if env[0].0 == k {
        assert(spec_env_lookup(env, k) == Some(env[0].1));
    } else {
        assert(env_has_key(env.drop_first(), k)) by {
            let i = choose|i: int| 0 <= i < env.len() && #[trigger] env[i].0 == k;
            assert(env.drop_first()[i - 1].0 == k);
        }
        lemma_lookup_in_overridden(env.drop_first(), secrets, k);
        assert(over.drop_first() =~= spec_overridden(env.drop_first(), secrets));
    }
}

/// A name the projection lacks is not found in the overridden part.
proof fn lemma_lookup_absent_overridden(
    env: Seq<(Seq<char>, Seq<char>)>,
    secrets: Seq<(Seq<char>, Seq<char>)>,
    k: Seq<char>,
)
    requires
        !env_has_key(env, k),
    ensures
        spec_env_lookup(spec_overridden(env, secrets), k) is None,
        spec_env_lookup(env, k) is None,
    decreases env.len(),
{
    let over = spec_overridden(env, secrets);
    if env.len() > 0 {
        assert(env[0].0 != k);
        assert(over[0].0 == env[0].0);
        assert(!env_has_key(env.drop_first(), k)) by {
            if env_has_key(env.drop_first(), k) {
                let i = choose|i: int|
                    0 <= i < env.drop_first().len() && #[trigger] env.drop_first()[i].0 == k;
                assert(env[i + 1].0 == k);
            }
        }
        lemma_lookup_absent_overridden(env.drop_first(), secrets, k);
        assert(over.drop_first() =~= spec_overridden(env.drop_first(), secrets));
    }
}

/// A name found in the first part of a concatenation is found in the whole.
proof fn lemma_lookup_prefix(a: Seq<(Seq<char>, Seq<char>)>, b: Seq<(Seq<char>, Seq<char>)>, k: Seq<char>)
    requires
        spec_env_lookup(a, k) is Some,
    ensures
        spec_env_lookup(a + b, k) == spec_env_lookup(a, k),
    decreases a.len(),
{
    assert(a.len() > 0);
    assert((a + b)[0] == a[0]);
    if a[0].0 == k {
    } else {
        lemma_lookup_prefix(a.drop_first(), b, k);
        assert((a + b).drop_first() =~= a.drop_first() + b);
    }
}

/// A name absent from the first part of a concatenation resolves in the
/// second.
proof fn lemma_lookup_skip_prefix(
    a: Seq<(Seq<char>, Seq<char>)>,
    b: Seq<(Seq<char>, Seq<char>)>,
    k: Seq<char>,
)
    requires
        spec_env_lookup(a, k) is None,
    ensures
        spec_env_lookup(a + b, k) == spec_env_lookup(b, k),
    decreases a.len(),
{
    if a.len() == 0 {
        assert(a + b =~= b);
    } else {
        assert((a + b)[0] == a[0]);
        assert(a[0].0 != k);
        lemma_lookup_skip_prefix(a.drop_first(), b, k);
        assert((a + b).drop_first() =~= a.drop_first() + b);
    }
}

/// In the leftover secrets, a name resolves to its secret value exactly
/// when the secret map binds it and the projection lacks it.
proof fn lemma_lookup_leftovers(
    secrets: Seq<(Seq<char>, Seq<char>)>,
    env: Seq<(Seq<char>, Seq<char>)>,
    k: Seq<char>,
)
    requires
        !env_has_key(env, k),
        forall|i: int, j: int|
            0 <= i < j < secrets.len() ==> #[trigger] secrets[i].0 != #[trigger] secrets[j].0,
    ensures
        spec_env_lookup(spec_leftover_secrets(secrets, env), k) == crate::secrets::sm_find(
            secrets,
            k,
        ),
    decreases secrets.len(),
{
    if secrets.len() > 0 {
        assert(forall|i: int, j: int|
            0 <= i < j < secrets.drop_first().len() ==> #[trigger] secrets.drop_first()[i].0
                != #[trigger] secrets.drop_first()[j].0) by {
            assert(forall|i: int|
                0 <= i < secrets.drop_first().len() ==> #[trigger] secrets.drop_first()[i]
                    == secrets[i + 1]);
        }
        lemma_lookup_leftovers(secrets.drop_first(), env, k);
        lemma_sm_find_first(secrets, k);
        if env_has_key(env, secrets[0].0) {
            if secrets[0].0 == k {
                assert(env_has_key(env, k));
                assert(false);
            }
        } else {
            let lf = spec_leftover_secrets(secrets, env);
            assert(lf == seq![secrets[0]] + spec_leftover_secrets(secrets.drop_first(), env));
            assert(lf[0] == secrets[0]);
            if secrets[0].0 == k {
                assert(spec_env_lookup(lf, k) == Some(secrets[0].1));
            } else {
                assert(lf.drop_first() =~= spec_leftover_secrets(secrets.drop_first(), env));
            }
        }
    }
}

/// With unique keys, the last-match secret lookup agrees with a first-match
/// reading: a sequence whose head binds `k` finds the head's value, and one
/// whose head does not defers to the tail.
proof fn lemma_sm_find_first(secrets: Seq<(Seq<char>, Seq<char>)>, k: Seq<char>)
    requires
        secrets.len() > 0,
        forall|i: int, j: int|
            0 <= i < j < secrets.len() ==> #[trigger] secrets[i].0 != #[trigger] secrets[j].0,
    ensures
        secrets[0].0 == k ==> crate::secrets::sm_find(secrets, k) == Some(secrets[0].1),
        secrets[0].0 != k ==> crate::secrets::sm_find(secrets, k) == crate::secrets::sm_find(
            secrets.drop_first(),
            k,
        ),
    decreases secrets.len(),
{
    if secrets.len() == 1 {
        assert(secrets.drop_last() =~= Seq::<(Seq<char>, Seq<char>)>::empty());
        assert(secrets.drop_first() =~= Seq::<(Seq<char>, Seq<char>)>::empty());
        assert(secrets.last() == secrets[0]);
    } else {
        assert(forall|i: int, j: int|
            0 <= i < j < secrets.drop_last().len() ==> #[trigger] secrets.drop_last()[i].0
                != #[trigger] secrets.drop_last()[j].0);
        lemma_sm_find_first(secrets.drop_last(), k);
        assert(secrets.drop_last()[0] == secrets[0]);
        assert(secrets.drop_last().drop_first() =~= secrets.drop_first().drop_last());
        if secrets.last().0 == k {
            assert(secrets[0].0 != k) by {
                assert(secrets[0].0 != secrets[secrets.len() - 1].0);
            }
            assert(secrets.drop_first().last() == secrets.last());
        } else {
            assert(secrets.drop_first().last() == secrets.last());
        }
    }
}

} // verus!
