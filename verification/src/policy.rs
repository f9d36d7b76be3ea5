//! The declarative permission policy attached to a component.
//!
//! A policy grants a component network hosts, file system paths, environment
//! variables and resource limits. The document here is the in-memory form
//! the sandbox compiler reads; its canonical YAML encoding lives in
//! [`crate::policy_codec`].

use vstd::prelude::*;

verus! {

/// File system access granted by one storage entry.
#[derive(Clone, Copy, PartialEq, Eq, Structural, Debug)]
pub enum AccessType {
    /// Reading files and listing directories.
    Read,
    /// Creating, writing and removing files.
    Write,
}

/// One granted network host, matched exactly against request authorities.
pub struct HostEntry {
    /// The exact host name.
    pub host: String,
}

/// The network section: a list of granted hosts, or nothing.
pub struct NetworkPolicy {
    /// The granted hosts; `None` and the empty list both grant nothing.
    pub allow: Option<Vec<HostEntry>>,
}

/// One granted file system subtree.
pub struct StorageEntry {
    /// A URI; only the `fs://` scheme grants anything.
    pub uri: String,
    /// The granted access kinds; duplicates carry no extra meaning.
    pub access: Vec<AccessType>,
}

/// The storage section.
pub struct StoragePolicy {
    /// The granted subtrees; `None` and the empty list both grant nothing.
    pub allow: Option<Vec<StorageEntry>>,
}

/// One projected environment variable.
pub struct EnvEntry {
    /// The variable's name.
    pub key: String,
}

/// The environment section.
pub struct EnvironmentPolicy {
    /// The variables to project; `None` and the empty list both project
    /// nothing.
    pub allow: Option<Vec<EnvEntry>>,
}

/// Resource ceilings in the style of container limits.
pub struct ResourceLimits {
    /// A memory ceiling as a size string with an optional IEC suffix,
    /// `512Mi` for instance.
    pub memory: Option<String>,
}

/// The resources section.
pub struct ResourcePolicy {
    /// The preferred, suffixed form of the limits.
    pub limits: Option<ResourceLimits>,
    /// The legacy numeric form: a memory ceiling in MiB.
    pub memory: Option<u64>,
}

/// The permission sections of a policy document.
pub struct Permissions {
    /// Network grants.
    pub network: Option<NetworkPolicy>,
    /// Storage grants.
    pub storage: Option<StoragePolicy>,
    /// Environment grants.
    pub environment: Option<EnvironmentPolicy>,
    /// Resource ceilings.
    pub resources: Option<ResourcePolicy>,
}

/// A versioned declarative permission grant for one component.
pub struct PolicyDocument {
    /// The document format version, `1.0` today.
    pub version: String,
    /// Free-form description.
    pub description: Option<String>,
    /// The granted permissions.
    pub permissions: Permissions,
}

impl PolicyDocument {
    /// A policy that grants nothing.
    pub fn empty() -> (r: Self)
        ensures
            r.version@ == "1.0"@,
            r.description is None,
            r.permissions.network is None,
            r.permissions.storage is None,
            r.permissions.environment is None,
            r.permissions.resources is None,
    {
        PolicyDocument {
            version: "1.0".to_owned(),
            description: None,
            permissions: Permissions {
                network: None,
                storage: None,
                environment: None,
                resources: None,
            },
        }
    }
}

/// A flat summary of a policy for display surfaces.
#[derive(Debug)]
pub struct PermissionInfo {
    /// The granted network hosts.
    pub network: Vec<String>,
    /// The granted storage URIs.
    pub storage: Vec<String>,
    /// The projected environment variable names.
    pub environment: Vec<String>,
}

impl Default for PermissionInfo {
    /// An empty summary.
    fn default() -> (r: Self)
        ensures
            r.network@.len() == 0,
            r.storage@.len() == 0,
            r.environment@.len() == 0,
    {
        PermissionInfo { network: Vec::new(), storage: Vec::new(), environment: Vec::new() }
    }
}

/// The host names of the network section, in order.
pub open spec fn spec_network_hosts(p: PolicyDocument) -> Seq<Seq<char>> {
    match p.permissions.network {
        Some(n) => match n.allow {
            Some(entries) => entries@.map_values(|e: HostEntry| e.host@),
            None => Seq::empty(),
        },
        None => Seq::empty(),
    }
}

/// The storage URIs, in order.
pub open spec fn spec_storage_uris(p: PolicyDocument) -> Seq<Seq<char>> {
    match p.permissions.storage {
        Some(st) => match st.allow {
            Some(entries) => entries@.map_values(|e: StorageEntry| e.uri@),
            None => Seq::empty(),
        },
        None => Seq::empty(),
    }
}

/// The projected environment variable names, in order.
pub open spec fn spec_env_keys(p: PolicyDocument) -> Seq<Seq<char>> {
    match p.permissions.environment {
        Some(env) => match env.allow {
            Some(entries) => entries@.map_values(|e: EnvEntry| e.key@),
            None => Seq::empty(),
        },
        None => Seq::empty(),
    }
}

/// Summarizes a policy document for display: its hosts, storage URIs and
/// environment keys, in document order.
pub fn summarize_policy(p: &PolicyDocument) -> (r: PermissionInfo)
    ensures
        r.network@.len() == spec_network_hosts(*p).len(),
        forall|j: int|
            0 <= j < r.network@.len() ==> #[trigger] r.network@[j]@ == spec_network_hosts(*p)[j],
        r.storage@.len() == spec_storage_uris(*p).len(),
        forall|j: int|
            0 <= j < r.storage@.len() ==> #[trigger] r.storage@[j]@ == spec_storage_uris(*p)[j],
        r.environment@.len() == spec_env_keys(*p).len(),
        forall|j: int|
            0 <= j < r.environment@.len() ==> #[trigger] r.environment@[j]@ == spec_env_keys(*p)[j],
{
    let mut network: Vec<String> = Vec::new();
    let mut storage: Vec<String> = Vec::new();
    let mut environment: Vec<String> = Vec::new();
    match &p.permissions.network {
        Some(n) => match &n.allow {
            Some(entries) => {
                let m = entries.len();
                for i in 0..m
                    invariant
                        m == entries@.len(),
                        network@.len() == i,
                        forall|j: int|
                            0 <= j < i ==> #[trigger] network@[j]@ == entries@[j].host@,
                {
                    network.push(entries[i].host.clone());
                }
            },
            None => {},
        },
        None => {},
    }
    match &p.permissions.storage {
        Some(st) => match &st.allow {
            Some(entries) => {
                let m = entries.len();
                for i in 0..m
                    invariant
                        m == entries@.len(),
                        storage@.len() == i,
                        forall|j: int| 0 <= j < i ==> #[trigger] storage@[j]@ == entries@[j].uri@,
                {
                    storage.push(entries[i].uri.clone());
                }
            },
            None => {},
        },
        None => {},
    }
    match &p.permissions.environment {
        Some(env) => match &env.allow {
            Some(entries) => {
                let m = entries.len();
                for i in 0..m
                    invariant
                        m == entries@.len(),
                        environment@.len() == i,
                        forall|j: int|
                            0 <= j < i ==> #[trigger] environment@[j]@ == entries@[j].key@,
                {
                    environment.push(entries[i].key.clone());
                }
            },
            None => {},
        },
        None => {},
    }
    PermissionInfo { network, storage, environment }
}

} // verus!
