//! The authoritative registry of loaded components and their tool schemas.
//!
//! Exactly one entry exists per component id, tool names are globally unique
//! across loaded components, and the tool index the dispatcher routes on is
//! derived from the schemas, so it can never point at a missing component.
//! Lifecycle operations commit atomically: a load that would break tool-name
//! uniqueness changes nothing.

use vstd::prelude::*;

use crate::errors::ErrorKind;
use crate::json::JsonValue;
use crate::policy::PolicyDocument;

verus! {

/// A tool surfaced by a loaded component.
pub struct ToolDescriptor {
    /// The tool's globally unique name.
    pub name: String,
    /// Human-readable description.
    pub description: String,
    /// The JSON schema of the tool's arguments.
    pub input_schema: JsonValue,
    /// The JSON schema of the tool's result.
    pub output_schema: JsonValue,
}

/// A loaded component: its artifact digest, the opaque handle of its
/// compiled module, its tool schema, and its attached policy.
pub struct ComponentEntry {
    /// The digest of the artifact's bytes.
    pub digest: Vec<u8>,
    /// The embedding process's handle for the compiled module.
    pub module_handle: u64,
    /// The tools the component exports.
    pub schema: Vec<ToolDescriptor>,
    /// The attached permission policy, if one is set.
    pub policy: Option<PolicyDocument>,
}

/// The component registry.
pub struct Registry {
    /// The loaded components, one entry per id.
    pub entries: Vec<(String, ComponentEntry)>,
}

/// Whether some entry carries the id.
pub open spec fn has_component(entries: Seq<(String, ComponentEntry)>, id: Seq<char>) -> bool {
    exists|i: int| 0 <= i < entries.len() && #[trigger] entries[i].0@ == id
}

/// Whether the entry at `i` owns a tool named `t`.
pub open spec fn owns_tool_at(
    entries: Seq<(String, ComponentEntry)>,
    i: int,
    t: Seq<char>,
) -> bool {
    exists|j: int|
        0 <= j < entries[i].1.schema@.len() && #[trigger] entries[i].1.schema@[j].name@ == t
}

/// Whether any loaded component owns a tool named `t`.
pub open spec fn has_tool(entries: Seq<(String, ComponentEntry)>, t: Seq<char>) -> bool {
    exists|i: int| 0 <= i < entries.len() && #[trigger] owns_tool_at(entries, i, t)
}

/// A new load conflicts when some entry under a different id already owns
/// one of the new schema's tool names.
pub open spec fn spec_conflict(
    entries: Seq<(String, ComponentEntry)>,
    id: Seq<char>,
    schema: Seq<ToolDescriptor>,
) -> bool {
    exists|i: int, a: int, b: int|
        0 <= i < entries.len() && 0 <= a < entries[i].1.schema@.len() && 0 <= b < schema.len()
            && entries[i].0@ != id && #[trigger] entries[i].1.schema@[a].name@ == #[trigger] schema[
            b].name@
}

/// A schema carries a duplicate tool name.
pub open spec fn spec_schema_dup(schema: Seq<ToolDescriptor>) -> bool {
    exists|a: int, b: int|
        0 <= a < b < schema.len() && #[trigger] schema[a].name@ == #[trigger] schema[b].name@
}

/// A schema claims the name of a built-in admin tool.
pub open spec fn spec_schema_shadows_builtin(schema: Seq<ToolDescriptor>) -> bool {
    exists|a: int|
        0 <= a < schema.len() && crate::dispatch::spec_builtin(#[trigger] schema[a].name@) is Some
}

impl Registry {
    /// The registry's invariant: one entry per component id, no duplicate
    /// tool names inside one schema, no schema claiming a built-in admin
    /// tool's name, and tool names disjoint across components. Together the
    /// clauses make the derived tool index a function: every tool name
    /// keyed in it resolves to exactly one loaded component or built-in,
    /// and that component's schema carries the tool.
    pub open spec fn wf(&self) -> bool {
        entries_wf(self.entries@)
    }

    /// An empty registry.
    pub fn new() -> (r: Self)
        ensures
            r.wf(),
            r.entries@.len() == 0,
    {
        Registry { entries: Vec::new() }
    }

    /// Finds the index of a component by id.
    #[verifier::loop_isolation(false)]
    fn find_index(&self, id: &String) -> (r: Option<usize>)
        ensures
            match r {
                Some(i) => i < self.entries@.len() && self.entries@[i as int].0@ == id@,
                None => !has_component(self.entries@, id@),
            },
    {
        let n = self.entries.len();
        for i in 0..n
            invariant
                n == self.entries@.len(),
                forall|j: int| 0 <= j < i ==> #[trigger] self.entries@[j].0@ != id@,
        {
            if self.entries[i].0 == *id {
                return Some(i);
            }
        }
        None
    }

    /// Whether a component with this id is loaded.
    pub fn contains(&self, id: &str) -> (r: bool)
        ensures
            r == has_component(self.entries@, id@),
    {
        let owned = id.to_owned();
        match self.find_index(&owned) {
            Some(i) => {
                proof {
                    assert(self.entries@[i as int].0@ == id@);
                }
                true
            },
            None => false,
        }
    }

    /// Looks the owning component of a tool up.
    ///
    /// The index the dispatcher routes on is sound by construction: a hit
    /// names a loaded component whose schema carries the tool, and a miss
    /// means no loaded component owns it.
    #[verifier::loop_isolation(false)]
    pub fn lookup_tool(&self, tool: &str) -> (r: Result<String, ErrorKind>)
        ensures
            match r {
                Ok(id) => exists|i: int|
                    0 <= i < self.entries@.len() && #[trigger] self.entries@[i].0@ == id@
                        && owns_tool_at(self.entries@, i, tool@),
                Err(e) => e == ErrorKind::NotFound && !has_tool(self.entries@, tool@),
            },
    {
        let n = self.entries.len();
        for i in 0..n
            invariant
                n == self.entries@.len(),
                forall|j: int| 0 <= j < i ==> !#[trigger] owns_tool_at(self.entries@, j, tool@),
        {
            if schema_contains(&self.entries[i].1.schema, tool) {
                let out = self.entries[i].0.clone();
                proof {
                    assert(owns_tool_at(self.entries@, i as int, tool@));
                    assert(self.entries@[i as int].0@ == out@);
                }
                return Ok(out);
            }
        }
        Err(ErrorKind::NotFound)
    }

    /// Commits a load: registers `entry` under `id`, replacing any previous
    /// entry with that id in place.
    ///
    /// The commit is atomic against tool-name uniqueness: when the new
    /// schema duplicates a name inside itself, claims a built-in admin
    /// tool's name, or a name a different component owns, the load fails
    /// with [`ErrorKind::ToolNameConflict`] and the registry is exactly as
    /// before. On success the id's entry is the new one and every other
    /// entry is untouched.
    #[verifier::loop_isolation(false)]
    pub fn load_commit(&mut self, id: String, entry: ComponentEntry) -> (r: Result<(), ErrorKind>)
        requires
            old(self).wf(),
        ensures
            final(self).wf(),
            r is Err <==> (spec_conflict(old(self).entries@, id@, entry.schema@)
                || spec_schema_dup(entry.schema@) || spec_schema_shadows_builtin(entry.schema@)),
            r matches Err(e) ==> e == ErrorKind::ToolNameConflict && final(self).entries@ == old(
                self,
            ).entries@,
            r is Ok && has_component(old(self).entries@, id@) ==> (exists|i: int|
                0 <= i < old(self).entries@.len() && #[trigger] old(self).entries@[i].0@ == id@
                    && final(self).entries@ == old(self).entries@.update(i, (id, entry))),
            r is Ok && !has_component(old(self).entries@, id@) ==> final(self).entries@ == old(
                self,
            ).entries@.push((id, entry)),
    {
        if has_schema_dup(&entry.schema) {
            return Err(ErrorKind::ToolNameConflict);
        }
        if has_builtin_name(&entry.schema) {
            return Err(ErrorKind::ToolNameConflict);
        }
        if self.check_conflict(&id, &entry.schema) {
            return Err(ErrorKind::ToolNameConflict);
        }
        let ghost pre = self.entries@;
        match self.find_index(&id) {
            Some(i) => {
                proof {
                    lemma_update_wf(pre, i as int, id@, (id, entry));
                }
                self.entries.set(i, (id, entry));
                proof {
                    assert(pre[i as int].0@ == id@);
                    assert(has_component(pre, id@));
                }
                Ok(())
            },
            None => {
                proof {
                    lemma_push_wf(pre, id@, (id, entry));
                }
                self.entries.push((id, entry));
                Ok(())
            },
        }
    }

    /// Checks the new schema against every other component's tool names.
    #[verifier::loop_isolation(false)]
    fn check_conflict(&self, id: &String, schema: &Vec<ToolDescriptor>) -> (r: bool)
        ensures
            r == spec_conflict(self.entries@, id@, schema@),
    {
        let n = self.entries.len();
        for i in 0..n
            invariant
                n == self.entries@.len(),
                forall|i2: int, a: int, b: int|
                    0 <= i2 < i && 0 <= a < self.entries@[i2].1.schema@.len() && 0 <= b
                        < schema@.len() && self.entries@[i2].0@ != id@
                        ==> #[trigger] self.entries@[i2].1.schema@[a].name@ != #[trigger] schema@[
                        b].name@,
        {
            if !(self.entries[i].0 == *id) {
                let m = schema.len();
                for b in 0..m
                    invariant
                        m == schema@.len(),
                        forall|a: int, b2: int|
                            0 <= a < self.entries@[i as int].1.schema@.len() && 0 <= b2 < b
                                ==> #[trigger] self.entries@[i as int].1.schema@[a].name@
                                != #[trigger] schema@[b2].name@,
                {
                    if schema_contains(&self.entries[i].1.schema, schema[b].name.as_str()) {
                        proof {
                            let a = choose|j: int|
                                0 <= j < self.entries@[i as int].1.schema@.len()
                                    && #[trigger] self.entries@[i as int].1.schema@[j].name@
                                    == schema@[b as int].name@;
                            assert(self.entries@[i as int].1.schema@[a].name@ == schema@[
                                b as int].name@);
                        }
                        return true;
                    }
                }
            }
        }
        false
    }

    /// Unloads a component.
    ///
    /// An id that is not loaded is [`ErrorKind::NotFound`] and changes
    /// nothing. On success the id's entry is removed and every other entry
    /// is carried over: the id no longer resolves, so no remaining
    /// component owns any of its tools.
    #[verifier::loop_isolation(false)]
    pub fn unload(&mut self, id: &str) -> (r: Result<(), ErrorKind>)
        requires
            old(self).wf(),
        ensures
            final(self).wf(),
            r is Ok <==> has_component(old(self).entries@, id@),
            r matches Err(e) ==> e == ErrorKind::NotFound && final(self).entries@ == old(
                self,
            ).entries@,
            r is Ok ==> (exists|i: int|
                0 <= i < old(self).entries@.len() && #[trigger] old(self).entries@[i].0@ == id@
                    && final(self).entries@ == old(self).entries@.remove(i)),
            r is Ok ==> !has_component(final(self).entries@, id@),
    {
        let owned = id.to_owned();
        let ghost pre = self.entries@;
        match self.find_index(&owned) {
            Some(i) => {
                self.entries.remove(i);
                proof {
                    let removed = pre.remove(i as int);
                    assert(!has_component(removed, id@)) by {
                        if has_component(removed, id@) {
                            let k = choose|k: int|
                                0 <= k < removed.len() && #[trigger] removed[k].0@ == id@;
                            if k < i {
                                assert(pre[k].0@ == id@ && pre[i as int].0@ == id@);
                                assert(false);
                            } else {
                                assert(pre[k + 1].0@ == id@ && pre[i as int].0@ == id@);
                                assert(false);
                            }
                        }
                    }
                    lemma_remove_wf_seq(pre, removed, i as int);
                }
                Ok(())
            },
            None => Err(ErrorKind::NotFound),
        }
    }

    /// The policy attached to a component, cloned for the caller, or
    /// [`ErrorKind::NotFound`].
    pub fn get_policy(&self, id: &str) -> (r: Result<Option<&PolicyDocument>, ErrorKind>)
        ensures
            r is Ok <==> has_component(self.entries@, id@),
            r matches Err(e) ==> e == ErrorKind::NotFound,
            r matches Ok(p) ==> exists|i: int|
                0 <= i < self.entries@.len() && #[trigger] self.entries@[i].0@ == id@ && (p
                    is Some <==> self.entries@[i].1.policy is Some) && (p matches Some(d)
                    ==> self.entries@[i].1.policy == Some(*d)),
    {
        let owned = id.to_owned();
        match self.find_index(&owned) {
            Some(i) => {
                proof {
                    assert(self.entries@[i as int].0@ == id@);
                }
                match &self.entries[i].1.policy {
                    Some(p) => Ok(Some(p)),
                    None => Ok(None),
                }
            },
            None => Err(ErrorKind::NotFound),
        }
    }

    /// The ids of the loaded components, in load order.
    #[verifier::loop_isolation(false)]
    pub fn list_components(&self) -> (r: Vec<String>)
        ensures
            r@.len() == self.entries@.len(),
            forall|i: int| 0 <= i < r@.len() ==> #[trigger] r@[i]@ == self.entries@[i].0@,
    {
        let n = self.entries.len();
        let mut r: Vec<String> = Vec::new();
        for i in 0..n
            invariant
                n == self.entries@.len(),
                r@.len() == i,
                forall|j: int| 0 <= j < i ==> #[trigger] r@[j]@ == self.entries@[j].0@,
        {
            r.push(self.entries[i].0.clone());
        }
        r
    }

    /// The names of all component-exported tools, in registry order.
    #[verifier::loop_isolation(false)]
    pub fn tool_names(&self) -> (r: Vec<String>)
        ensures
            r@.len() == all_tool_names(self.entries@).len(),
            forall|k: int|
                #![trigger r@[k]]
                0 <= k < r@.len() ==> r@[k]@ == all_tool_names(self.entries@)[k],
    {
        let n = self.entries.len();
        let mut r: Vec<String> = Vec::new();
        proof {
            assert(self.entries@.subrange(0, 0) =~= Seq::<(String, ComponentEntry)>::empty());
        }
        for i in 0..n
            invariant
                n == self.entries@.len(),
                r@.len() == all_tool_names(self.entries@.subrange(0, i as int)).len(),
                forall|k: int|
                    #![trigger r@[k]]
                    0 <= k < r@.len() ==> r@[k]@ == all_tool_names(
                        self.entries@.subrange(0, i as int),
                    )[k],
        {
            let ghost all_pre = all_tool_names(self.entries@.subrange(0, i as int));
            let schema = &self.entries[i].1.schema;
            let m = schema.len();
            for j in 0..m
                invariant
                    m == schema@.len(),
                    schema@ == self.entries@[i as int].1.schema@,
                    r@.len() == all_pre.len() + j,
                    forall|k: int| #![trigger r@[k]] 0 <= k < all_pre.len() ==> r@[k]@ == all_pre[k],
                    forall|k: int|
                        #![trigger schema@[k]]
                        0 <= k < j ==> r@[all_pre.len() + k]@ == schema@[k].name@,
            {
                r.push(schema[j].name.clone());
            }
            proof {
                let cur = self.entries@.subrange(0, i + 1);
                assert(cur.drop_last() =~= self.entries@.subrange(0, i as int));
                assert(cur.last() == self.entries@[i as int]);
                assert(all_tool_names(cur) == all_pre + schema_names(schema@));
                assert(all_tool_names(cur).len() == all_pre.len() + schema@.len());
                assert forall|k: int| #![trigger r@[k]] 0 <= k < r@.len() implies r@[k]@
                    == all_tool_names(cur)[k] by {
                    if k < all_pre.len() {
                        assert(all_tool_names(cur)[k] == all_pre[k]);
                    } else {
                        assert(all_tool_names(cur)[k] == schema_names(schema@)[k - all_pre.len()]);
                        assert(schema_names(schema@)[k - all_pre.len()] == schema@[k
                            - all_pre.len()].name@);
                    }
                }
            }
        }
        proof {
            assert(self.entries@.subrange(0, n as int) =~= self.entries@);
        }
        r
    }
}

/// The names of a schema's tools, in order.
pub open spec fn schema_names(schema: Seq<ToolDescriptor>) -> Seq<Seq<char>> {
    schema.map_values(|t: ToolDescriptor| t.name@)
}

/// The names of every component's tools, in registry order.
pub open spec fn all_tool_names(entries: Seq<(String, ComponentEntry)>) -> Seq<Seq<char>>
    decreases entries,
{
    if entries.len() == 0 {
        Seq::empty()
    } else {
        all_tool_names(entries.drop_last()) + schema_names(entries.last().1.schema@)
    }
}

/// Whether a schema holds a tool of this name.
#[verifier::loop_isolation(false)]
fn schema_contains(schema: &Vec<ToolDescriptor>, tool: &str) -> (r: bool)
    ensures
        r == exists|j: int| 0 <= j < schema@.len() && #[trigger] schema@[j].name@ == tool@,
{
    let owned = tool.to_owned();
    let m = schema.len();
    for j in 0..m
        invariant
            m == schema@.len(),
            forall|k: int| 0 <= k < j ==> #[trigger] schema@[k].name@ != tool@,
    {
        if schema[j].name == owned {
            proof {
                assert(schema@[j as int].name@ == tool@);
            }
            return true;
        }
    }
    false
}

/// Whether a schema repeats a tool name.
#[verifier::loop_isolation(false)]
fn has_schema_dup(schema: &Vec<ToolDescriptor>) -> (r: bool)
    ensures
        r == spec_schema_dup(schema@),
{
    let m = schema.len();
    for b in 0..m
        invariant
            m == schema@.len(),
            forall|a: int, b2: int|
                0 <= a < b2 < b ==> #[trigger] schema@[a].name@ != #[trigger] schema@[b2].name@,
    {
        for a in 0..b
            invariant
                m == schema@.len(),
                b < m,
                forall|a2: int, b2: int|
                    0 <= a2 < b2 < b ==> #[trigger] schema@[a2].name@ != #[trigger] schema@[
                        b2].name@,
                forall|a2: int| 0 <= a2 < a ==> #[trigger] schema@[a2].name@ != schema@[b as int].name@,
        {
            if schema[a].name == schema[b].name {
                proof {
                    assert(schema@[a as int].name@ == schema@[b as int].name@);
                }
                return true;
            }
        }
    }
    false
}

/// Whether a schema claims a built-in admin tool's name.
#[verifier::loop_isolation(false)]
fn has_builtin_name(schema: &Vec<ToolDescriptor>) -> (r: bool)
    ensures
        r == spec_schema_shadows_builtin(schema@),
{
    let m = schema.len();
    for a in 0..m
        invariant
            m == schema@.len(),
            forall|a2: int|
                0 <= a2 < a ==> crate::dispatch::spec_builtin(#[trigger] schema@[a2].name@)
                    is None,
    {
        if crate::dispatch::classify_builtin(schema[a].name.as_str()).is_some() {
            proof {
                assert(crate::dispatch::spec_builtin(schema@[a as int].name@) is Some);
            }
            return true;
        }
    }
    false
}

/// The invariant clauses, at the sequence level.
pub open spec fn entries_wf(entries: Seq<(String, ComponentEntry)>) -> bool {
    &&& forall|i: int, j: int|
        0 <= i < j < entries.len() ==> #[trigger] entries[i].0@ != #[trigger] entries[j].0@
    &&& forall|i: int| 0 <= i < entries.len() ==> !spec_schema_dup(#[trigger] entries[i].1.schema@)
    &&& forall|i: int| 0 <= i < entries.len() ==> !spec_schema_shadows_builtin(#[trigger] entries[i].1.schema@)
    &&& forall|i: int, j: int, a: int, b: int|
        0 <= i < entries.len() && 0 <= j < entries.len() && i != j && 0 <= a < entries[
            i].1.schema@.len() && 0 <= b < entries[j].1.schema@.len()
            ==> #[trigger] entries[i].1.schema@[a].name@ != #[trigger] entries[j].1.schema@[b].name@
}

/// Removing an entry preserves the invariant clauses.
proof fn lemma_remove_wf_seq(
    pre: Seq<(String, ComponentEntry)>,
    removed: Seq<(String, ComponentEntry)>,
    at: int,
)
    requires
        entries_wf(pre),
        0 <= at < pre.len(),
        removed == pre.remove(at),
    ensures
        entries_wf(removed),
{
    assert forall|i: int, j: int|
        0 <= i < j < removed.len() implies #[trigger] removed[i].0@ != #[trigger] removed[j].0@ by {
        let pi: int = if i < at {
            i
        } else {
            i + 1
        };
        let pj: int = if j < at {
            j
        } else {
            j + 1
        };
        assert(removed[i] == pre[pi]);
        assert(removed[j] == pre[pj]);
        assert(pre[pi].0@ != pre[pj].0@);
    }
    assert forall|i: int|
        0 <= i < removed.len() implies !spec_schema_dup(#[trigger] removed[i].1.schema@) by {
        let pi: int = if i < at {
            i
        } else {
            i + 1
        };
        assert(removed[i] == pre[pi]);
    }
    assert forall|i: int|
        0 <= i < removed.len() implies !spec_schema_shadows_builtin(
        #[trigger] removed[i].1.schema@,
    ) by {
        let pi: int = if i < at {
            i
        } else {
            i + 1
        };
        assert(removed[i] == pre[pi]);
    }
    assert forall|i: int, j: int, a: int, b: int|
        0 <= i < removed.len() && 0 <= j < removed.len() && i != j && 0 <= a < removed[
            i].1.schema@.len() && 0 <= b < removed[j].1.schema@.len()
        implies #[trigger] removed[i].1.schema@[a].name@ != #[trigger] removed[j].1.schema@[
        b].name@ by {
        let pi: int = if i < at {
            i
        } else {
            i + 1
        };
        let pj: int = if j < at {
            j
        } else {
            j + 1
        };
        assert(removed[i] == pre[pi]);
        assert(removed[j] == pre[pj]);
        assert(pi != pj);
    }
}

/// Replacing the id's own entry with a conflict-free schema preserves the
/// invariant clauses.
proof fn lemma_update_wf(
    pre: Seq<(String, ComponentEntry)>,
    at: int,
    id: Seq<char>,
    pair: (String, ComponentEntry),
)
    requires
        entries_wf(pre),
        0 <= at < pre.len(),
        pre[at].0@ == id,
        pair.0@ == id,
        !spec_conflict(pre, id, pair.1.schema@),
        !spec_schema_dup(pair.1.schema@),
        !spec_schema_shadows_builtin(pair.1.schema@),
    ensures
        entries_wf(pre.update(at, pair)),
{
    let post = pre.update(at, pair);
    assert forall|i: int, j: int|
        0 <= i < j < post.len() implies #[trigger] post[i].0@ != #[trigger] post[j].0@ by {
        if i != at && j != at {
            assert(post[i] == pre[i] && post[j] == pre[j]);
        } else if i == at {
            assert(post[j] == pre[j]);
            assert(pre[at].0@ != pre[j].0@);
        } else {
            assert(post[i] == pre[i]);
            assert(pre[i].0@ != pre[at].0@);
        }
    }
    assert forall|i: int|
        0 <= i < post.len() implies !spec_schema_dup(#[trigger] post[i].1.schema@) by {
        if i != at {
            assert(post[i] == pre[i]);
        } else {
            assert(post[i].1.schema@ == pair.1.schema@);
        }
    }
    assert forall|i: int|
        0 <= i < post.len() implies !spec_schema_shadows_builtin(#[trigger] post[i].1.schema@) by {
        if i != at {
            assert(post[i] == pre[i]);
        } else {
            assert(post[i].1.schema@ == pair.1.schema@);
        }
    }
    assert forall|i: int, j: int, a: int, b: int|
        0 <= i < post.len() && 0 <= j < post.len() && i != j && 0 <= a < post[i].1.schema@.len()
            && 0 <= b < post[j].1.schema@.len() implies #[trigger] post[i].1.schema@[a].name@
        != #[trigger] post[j].1.schema@[b].name@ by {
        if i != at && j != at {
            assert(post[i] == pre[i] && post[j] == pre[j]);
        } else if j == at {
            assert(post[i] == pre[i]);
            assert(pre[i].0@ != id) by {
                assert(pre[i].0@ != pre[at].0@);
            }
            assert(post[j].1.schema@ == pair.1.schema@);
            if pre[i].1.schema@[a].name@ == pair.1.schema@[b].name@ {
                assert(spec_conflict(pre, id, pair.1.schema@));
                assert(false);
            }
        } else {
            assert(post[j] == pre[j]);
            assert(pre[j].0@ != id) by {
                assert(pre[at].0@ != pre[j].0@);
            }
            assert(post[i].1.schema@ == pair.1.schema@);
            if pre[j].1.schema@[b].name@ == pair.1.schema@[a].name@ {
                assert(spec_conflict(pre, id, pair.1.schema@));
                assert(false);
            }
        }
    }
}

/// Appending a fresh id with a conflict-free schema preserves the invariant
/// clauses.
proof fn lemma_push_wf(
    pre: Seq<(String, ComponentEntry)>,
    id: Seq<char>,
    pair: (String, ComponentEntry),
)
    requires
        entries_wf(pre),
        !has_component(pre, id),
        pair.0@ == id,
        !spec_conflict(pre, id, pair.1.schema@),
        !spec_schema_dup(pair.1.schema@),
        !spec_schema_shadows_builtin(pair.1.schema@),
    ensures
        entries_wf(pre.push(pair)),
{
    let post = pre.push(pair);
    let last: int = post.len() - 1;
    assert forall|i: int, j: int|
        0 <= i < j < post.len() implies #[trigger] post[i].0@ != #[trigger] post[j].0@ by {
        if j < last {
            assert(post[i] == pre[i] && post[j] == pre[j]);
        } else {
            assert(post[i] == pre[i]);
            assert(post[j].0@ == id);
            if pre[i].0@ == id {
                assert(has_component(pre, id));
                assert(false);
            }
        }
    }
    assert forall|i: int|
        0 <= i < post.len() implies !spec_schema_dup(#[trigger] post[i].1.schema@) by {
        if i < last {
            assert(post[i] == pre[i]);
        } else {
            assert(post[i].1.schema@ == pair.1.schema@);
        }
    }
    assert forall|i: int|
        0 <= i < post.len() implies !spec_schema_shadows_builtin(#[trigger] post[i].1.schema@) by {
        if i < last {
            assert(post[i] == pre[i]);
        } else {
            assert(post[i].1.schema@ == pair.1.schema@);
        }
    }
    assert forall|i: int, j: int, a: int, b: int|
        0 <= i < post.len() && 0 <= j < post.len() && i != j && 0 <= a < post[i].1.schema@.len()
            && 0 <= b < post[j].1.schema@.len() implies #[trigger] post[i].1.schema@[a].name@
        != #[trigger] post[j].1.schema@[b].name@ by {
        if i < last && j < last {
            assert(post[i] == pre[i] && post[j] == pre[j]);
        } else if j == last {
            assert(post[i] == pre[i]);
            assert(pre[i].0@ != id) by {
                if pre[i].0@ == id {
                    assert(has_component(pre, id));
                }
            }
            assert(post[j].1.schema@ == pair.1.schema@);
            if pre[i].1.schema@[a].name@ == pair.1.schema@[b].name@ {
                assert(spec_conflict(pre, id, pair.1.schema@));
                assert(false);
            }
        } else {
            assert(post[j] == pre[j]);
            assert(pre[j].0@ != id) by {
                if pre[j].0@ == id {
                    assert(has_component(pre, id));
                }
            }
            assert(post[i].1.schema@ == pair.1.schema@);
            if pre[j].1.schema@[b].name@ == pair.1.schema@[a].name@ {
                assert(spec_conflict(pre, id, pair.1.schema@));
                assert(false);
            }
        }
    }
}

/// The entry owning the `k`-th name of the derived tool list.
pub open spec fn tool_owner_index(entries: Seq<(String, ComponentEntry)>, k: int) -> int
    decreases entries,
{
    if entries.len() == 0 {
        0
    } else if k < all_tool_names(entries.drop_last()).len() {
        tool_owner_index(entries.drop_last(), k)
    } else {
        entries.len() - 1
    }
}

/// The derived tool index is consistent: the `k`-th tool name of the
/// registry's tool list is owned by the live entry [`tool_owner_index`]
/// names, whose schema carries the tool — a routed name can never point at
/// a missing component.
pub proof fn lemma_tool_index_consistent(entries: Seq<(String, ComponentEntry)>, k: int)
    requires
        0 <= k < all_tool_names(entries).len(),
    ensures
        0 <= tool_owner_index(entries, k) < entries.len(),
        owns_tool_at(entries, tool_owner_index(entries, k), all_tool_names(entries)[k]),
    decreases entries,
{
    assert(entries.len() > 0) by {
        if entries.len() == 0 {
            assert(all_tool_names(entries) =~= Seq::<Seq<char>>::empty());
        }
    }
    let pre = entries.drop_last();
    let last_names = schema_names(entries.last().1.schema@);
    assert(all_tool_names(entries) == all_tool_names(pre) + last_names);
    if k < all_tool_names(pre).len() {
        lemma_tool_index_consistent(pre, k);
        assert(all_tool_names(entries)[k] == all_tool_names(pre)[k]);
        let i = tool_owner_index(pre, k);
        assert(tool_owner_index(entries, k) == i);
        assert(entries[i] == pre[i]);
        let j = choose|j: int|
            0 <= j < pre[i].1.schema@.len() && #[trigger] pre[i].1.schema@[j].name@
                == all_tool_names(pre)[k];
        assert(entries[i].1.schema@[j].name@ == all_tool_names(entries)[k]);
        assert(owns_tool_at(entries, i, all_tool_names(entries)[k]));
    } else {
        let j = k - all_tool_names(pre).len();
        assert(all_tool_names(entries)[k] == last_names[j]);
        assert(last_names[j] == entries.last().1.schema@[j].name@);
        let li: int = entries.len() - 1;
        assert(tool_owner_index(entries, k) == li);
        assert(entries[li] == entries.last());
        assert(entries[li].1.schema@[j].name@ == all_tool_names(entries)[k]);
        assert(owns_tool_at(entries, li, all_tool_names(entries)[k]));
    }
}

/// After a component is gone from the registry, no loaded component owns
/// any tool under its id: a post-unload tool listing holds nothing of it.
pub proof fn lemma_unload_disowns(reg: Registry, id: Seq<char>)
    requires
        !has_component(reg.entries@, id),
    ensures
        forall|t: Seq<char>, i: int|
            0 <= i < reg.entries@.len() && #[trigger] owns_tool_at(reg.entries@, i, t)
                ==> reg.entries@[i].0@ != id,
{
    assert forall|t: Seq<char>, i: int|
        0 <= i < reg.entries@.len() && #[trigger] owns_tool_at(reg.entries@, i, t)
        implies reg.entries@[i].0@ != id by {
        if reg.entries@[i].0@ == id {
            assert(has_component(reg.entries@, id));
        }
    }
}

/// The invariant restricts to any prefix of the entries.
proof fn lemma_entries_wf_drop_last(entries: Seq<(String, ComponentEntry)>)
    requires
        entries_wf(entries),
        entries.len() > 0,
    ensures
        entries_wf(entries.drop_last()),
{
    let pre = entries.drop_last();
    assert(forall|i: int| 0 <= i < pre.len() ==> #[trigger] pre[i] == entries[i]);
}

/// Under the registry invariant the derived tool list repeats no name:
/// schemas repeat nothing internally and are disjoint across components.
pub proof fn lemma_all_tool_names_distinct(entries: Seq<(String, ComponentEntry)>)
    requires
        entries_wf(entries),
    ensures
        forall|k1: int, k2: int|
            0 <= k1 < k2 < all_tool_names(entries).len() ==> #[trigger] all_tool_names(entries)[k1]
                != #[trigger] all_tool_names(entries)[k2],
    decreases entries,
{
    if entries.len() > 0 {
        let pre = entries.drop_last();
        let last_names = schema_names(entries.last().1.schema@);
        let all = all_tool_names(entries);
        lemma_entries_wf_drop_last(entries);
        lemma_all_tool_names_distinct(pre);
        assert(all == all_tool_names(pre) + last_names);
        let li: int = entries.len() - 1;
        assert(entries[li] == entries.last());
        assert forall|k1: int, k2: int|
            0 <= k1 < k2 < all.len() implies #[trigger] all[k1] != #[trigger] all[k2] by {
            if k2 < all_tool_names(pre).len() {
                assert(all[k1] == all_tool_names(pre)[k1]);
                assert(all[k2] == all_tool_names(pre)[k2]);
            } else if k1 >= all_tool_names(pre).len() {
                let a = k1 - all_tool_names(pre).len();
                let b = k2 - all_tool_names(pre).len();
                assert(all[k1] == entries[li].1.schema@[a].name@);
                assert(all[k2] == entries[li].1.schema@[b].name@);
                assert(!spec_schema_dup(entries[li].1.schema@));
                if all[k1] == all[k2] {
                    assert(spec_schema_dup(entries[li].1.schema@));
                }
            } else {
                assert(all[k1] == all_tool_names(pre)[k1]);
                lemma_tool_index_consistent(pre, k1);
                let i = tool_owner_index(pre, k1);
                assert(owns_tool_at(pre, i, all_tool_names(pre)[k1]));
                let a = choose|a: int|
                    0 <= a < pre[i].1.schema@.len() && #[trigger] pre[i].1.schema@[a].name@
                        == all_tool_names(pre)[k1];
                assert(entries[i] == pre[i]);
                let b = k2 - all_tool_names(pre).len();
                assert(all[k2] == entries[li].1.schema@[b].name@);
                assert(i != li);
                assert(entries[i].1.schema@[a].name@ != entries[li].1.schema@[b].name@);
            }
        }
    }
}

} // verus!
