//! Library parts and their ports.

use crate::schematic::SchematicError;
use vstd::pervasive::VecAdditionalExecFns;
use vstd::prelude::*;

verus! {

/// A single pin of a part: a physical terminal identifier (for example
/// `"1"`) and a logical signal name (for example `"VCC"`).
pub struct Port {
    pub terminal_identifier: String,
    pub signal: String,
}

impl Port {
    pub fn new(terminal_identifier: &str, signal: &str) -> (p: Port)
        ensures
            p.terminal_identifier@ == terminal_identifier@,
            p.signal@ == signal@,
    {
        Port {
            terminal_identifier: terminal_identifier.to_owned(),
            signal: signal.to_owned(),
        }
    }
}

impl Clone for Port {
    fn clone(&self) -> (r: Port)
        ensures
            r == *self,
    {
        let r = Port {
            terminal_identifier: self.terminal_identifier.clone(),
            signal: self.signal.clone(),
        };
        proof {
            assert(r == *self);
        }
        r
    }
}

/// Key of the part's port with the given terminal identifier, or `-1`.
pub open spec fn find_port_idx(ports: Seq<Port>, tid: Seq<char>) -> int
    decreases ports.len(),
{
    if ports.len() == 0 {
        -1
    } else if ports[0].terminal_identifier@ == tid {
        0
    } else {
        let r = find_port_idx(ports.drop_first(), tid);
        if r < 0 {
            -1
        } else {
            r + 1
        }
    }
}

/// A scan that misses everything before `n` pins down `find_port_idx`.
pub proof fn lemma_find_port_idx_of(ports: Seq<Port>, tid: Seq<char>, n: int)
    requires
        0 <= n <= ports.len(),
        forall|k: int| 0 <= k < n ==> (#[trigger] ports[k]).terminal_identifier@ != tid,
        n < ports.len() ==> ports[n].terminal_identifier@ == tid,
    ensures
        find_port_idx(ports, tid) == if n < ports.len() {
            n
        } else {
            -1
        },
    decreases n,
{
    if n == 0 {
        if ports.len() > 0 && ports[0].terminal_identifier@ != tid {
            lemma_find_port_idx_of(ports.drop_first(), tid, 0);
            hint_drop_first_index(ports);
        }
    } else {
        hint_drop_first_index(ports);
        lemma_find_port_idx_of(ports.drop_first(), tid, n - 1);
    }
}

proof fn hint_drop_first_index(ports: Seq<Port>)
    requires
        ports.len() > 0,
    ensures
        forall|k: int|
            0 <= k < ports.len() - 1 ==> #[trigger] ports.drop_first()[k] == ports[k + 1],
{
}

/// A found terminal identifier lies in range and matches.
pub proof fn lemma_find_port_idx_bounds(ports: Seq<Port>, tid: Seq<char>)
    ensures
        find_port_idx(ports, tid) >= 0 ==> find_port_idx(ports, tid) < ports.len()
            && ports[find_port_idx(ports, tid)].terminal_identifier@ == tid,
    decreases ports.len(),
{
    if ports.len() > 0 && ports[0].terminal_identifier@ != tid {
        hint_drop_first_index(ports);
        lemma_find_port_idx_bounds(ports.drop_first(), tid);
    }
}

pub open spec fn has_port(ports: Seq<Port>, tid: Seq<char>) -> bool {
    exists|k: int| 0 <= k < ports.len() && (#[trigger] ports[k]).terminal_identifier@ == tid
}

/// First value stored under `key`, if any.
pub open spec fn meta_idx(md: Seq<(String, String)>, key: Seq<char>) -> int
    decreases md.len(),
{
    if md.len() == 0 {
        -1
    } else if md[0].0@ == key {
        0
    } else {
        let r = meta_idx(md.drop_first(), key);
        if r < 0 {
            -1
        } else {
            r + 1
        }
    }
}

pub open spec fn meta_lookup(md: Seq<(String, String)>, key: Seq<char>) -> Option<Seq<char>> {
    let i = meta_idx(md, key);
    if i >= 0 {
        Some(md[i].1@)
    } else {
        None
    }
}

pub proof fn lemma_meta_idx_of(md: Seq<(String, String)>, key: Seq<char>, n: int)
    requires
        0 <= n <= md.len(),
        forall|k: int| 0 <= k < n ==> (#[trigger] md[k]).0@ != key,
        n < md.len() ==> md[n].0@ == key,
    ensures
        meta_idx(md, key) == if n < md.len() {
            n
        } else {
            -1
        },
    decreases n,
{
    if n == 0 {
        if md.len() > 0 && md[0].0@ != key {
            hint_meta_drop_first(md);
            lemma_meta_idx_of(md.drop_first(), key, 0);
        }
    } else {
        hint_meta_drop_first(md);
        lemma_meta_idx_of(md.drop_first(), key, n - 1);
    }
}

proof fn hint_meta_drop_first(md: Seq<(String, String)>)
    requires
        md.len() > 0,
    ensures
        forall|k: int| 0 <= k < md.len() - 1 ==> #[trigger] md.drop_first()[k] == md[k + 1],
{
}

/// Keys are pairwise distinct.
pub open spec fn meta_wf(md: Seq<(String, String)>) -> bool {
    forall|i: int, j: int|
        0 <= i < j < md.len() ==> (#[trigger] md[i]).0@ != (#[trigger] md[j]).0@
}

/// The new list stores `value` under `key`: the first entry with that key
/// is replaced, or a new entry is appended.
pub open spec fn meta_upserted(
    old_md: Seq<(String, String)>,
    new_md: Seq<(String, String)>,
    key: Seq<char>,
    value: Seq<char>,
) -> bool {
    let i = meta_idx(old_md, key);
    if i >= 0 {
        &&& new_md.len() == old_md.len()
        &&& new_md[i].0@ == key
        &&& new_md[i].1@ == value
        &&& forall|k: int| 0 <= k < old_md.len() && k != i ==> #[trigger] new_md[k] == old_md[k]
    } else {
        &&& new_md.len() == old_md.len() + 1
        &&& new_md[old_md.len() as int].0@ == key
        &&& new_md[old_md.len() as int].1@ == value
        &&& forall|k: int| 0 <= k < old_md.len() ==> #[trigger] new_md[k] == old_md[k]
    }
}

/// Looks a key up in a metadata list.
pub fn meta_get(md: &Vec<(String, String)>, key: &str) -> (r: Option<String>)
    ensures
        r is Some <==> meta_lookup(md@, key@) is Some,
        r matches Some(v) ==> meta_lookup(md@, key@) == Some(v@),
        r matches Some(v) ==> meta_idx(md@, key@) >= 0 && v == md@[meta_idx(md@, key@)].1,
{
    let mut i: usize = 0;
    while i < md.len()
        invariant
            i <= md@.len(),
            forall|k: int| 0 <= k < i ==> (#[trigger] md@[k]).0@ != key@,
        decreases md@.len() - i,
    {
        if crate::strutil::str_eq(md[i].0.as_str(), key) {
            proof {
                lemma_meta_idx_of(md@, key@, i as int);
            }
            return Some(md[i].1.clone());
        }
        i = i + 1;
    }
    proof {
        lemma_meta_idx_of(md@, key@, md@.len() as int);
    }
    None
}

/// Writes `value` under `key` in a metadata list.
#[verifier::loop_isolation(false)]
pub fn meta_set(md: &mut Vec<(String, String)>, key: &str, value: &str)
    ensures
        meta_upserted(old(md)@, final(md)@, key@, value@),
        meta_wf(old(md)@) ==> meta_wf(final(md)@),
{
    let key_string = key.to_owned();
    let value_string = value.to_owned();
    let mut i: usize = 0;
    while i < md.len()
        invariant
            i <= md@.len(),
            md@ == old(md)@,
            forall|k: int| 0 <= k < i ==> (#[trigger] md@[k]).0@ != key@,
        decreases md@.len() - i,
    {
        if crate::strutil::str_eq(md[i].0.as_str(), key) {
            proof {
                lemma_meta_idx_of(md@, key@, i as int);
                assert(md@[i as int].0@ == key@);
            }
            md.set(i, (key_string, value_string));
            proof {
                lemma_meta_set_wf(old(md)@, md@, i as int);
            }
            return ;
        }
        i = i + 1;
    }
    proof {
        lemma_meta_idx_of(md@, key@, md@.len() as int);
    }
    md.push((key_string, value_string));
    proof {
        lemma_meta_push_wf(old(md)@, md@);
    }
}

proof fn lemma_meta_set_wf(old_md: Seq<(String, String)>, new_md: Seq<(String, String)>, i: int)
    requires
        0 <= i < old_md.len(),
        new_md.len() == old_md.len(),
        forall|k: int| 0 <= k < old_md.len() && k != i ==> new_md[k] == old_md[k],
        new_md[i].0@ == old_md[i].0@,
    ensures
        meta_wf(old_md) ==> meta_wf(new_md),
{
}

proof fn lemma_meta_push_wf(old_md: Seq<(String, String)>, new_md: Seq<(String, String)>)
    requires
        new_md.len() == old_md.len() + 1,
        forall|k: int| 0 <= k < old_md.len() ==> new_md[k] == old_md[k],
        forall|k: int| 0 <= k < old_md.len() ==> (#[trigger] old_md[k]).0@ != new_md[old_md.len() as int].0@,
    ensures
        meta_wf(old_md) ==> meta_wf(new_md),
{
}

/// Shared handle to a part: a key into the schematic's part arena.
#[derive(Clone, Copy, Debug, PartialEq, Eq, Hash, Structural)]
pub struct PartRef {
    pub idx: usize,
}

/// Shared handle to a port: a key into its part's port list.
#[derive(Clone, Copy, Debug, PartialEq, Eq, Hash, Structural)]
pub struct PortRef {
    pub idx: usize,
}

/// A library part: an electronic component type and its pins.
pub struct Part {
    pub name: String,
    pub ports: Vec<Port>,
    pub metadata: Vec<(String, String)>,
    pub datasheet_url: Option<String>,
}

impl Part {
    /// Terminal identifiers are unique, and so are metadata keys.
    pub open spec fn wf(self) -> bool {
        &&& forall|i: int, j: int|
            0 <= i < j < self.ports@.len() ==> (#[trigger] self.ports@[i]).terminal_identifier@
                != (#[trigger] self.ports@[j]).terminal_identifier@
        &&& meta_wf(self.metadata@)
    }

    /// Returns the port with the given terminal identifier, if it exists.
    pub fn get_port(&self, terminal_identifier: &str) -> (r: Option<PortRef>)
        ensures
            r is Some <==> has_port(self.ports@, terminal_identifier@),
            r is None ==> find_port_idx(self.ports@, terminal_identifier@) == -1,
            r matches Some(p) ==> {
                &&& p.idx < self.ports@.len()
                &&& self.ports@[p.idx as int].terminal_identifier@ == terminal_identifier@
                &&& p.idx == find_port_idx(self.ports@, terminal_identifier@)
            },
    {
        let mut i: usize = 0;
        while i < self.ports.len()
            invariant
                i <= self.ports@.len(),
                forall|k: int|
                    0 <= k < i ==> (#[trigger] self.ports@[k]).terminal_identifier@
                        != terminal_identifier@,
            decreases self.ports@.len() - i,
        {
            if crate::strutil::str_eq(self.ports[i].terminal_identifier.as_str(), terminal_identifier) {
                proof {
                    lemma_find_port_idx_of(self.ports@, terminal_identifier@, i as int);
                }
                return Some(PortRef { idx: i });
            }
            i = i + 1;
        }
        proof {
            lemma_find_port_idx_of(self.ports@, terminal_identifier@, self.ports@.len() as int);
        }
        None
    }

    /// Looks up a metadata value by key.
    pub fn metadata_value(&self, key: &str) -> (r: Option<String>)
        ensures
            r is Some <==> meta_lookup(self.metadata@, key@) is Some,
            r matches Some(v) ==> meta_lookup(self.metadata@, key@) == Some(v@),
    {
        meta_get(&self.metadata, key)
    }
}

impl Clone for Part {
    fn clone(&self) -> (r: Part)
        ensures
            r.name == self.name,
            r.ports@ == self.ports@,
            r.metadata@ == self.metadata@,
            r.datasheet_url == self.datasheet_url,
    {
        let r = Part {
            name: self.name.clone(),
            ports: clone_ports(&self.ports),
            metadata: clone_metadata(&self.metadata),
            datasheet_url: match &self.datasheet_url {
                Some(u) => Some(u.clone()),
                None => None,
            },
        };
        r
    }
}

/// Copies a port list.
pub fn clone_ports(ports: &Vec<Port>) -> (r: Vec<Port>)
    ensures
        r@ == ports@,
{
    let mut out: Vec<Port> = Vec::new();
    let mut i: usize = 0;
    while i < ports.len()
        invariant
            i <= ports@.len(),
            out@ =~= ports@.take(i as int),
        decreases ports@.len() - i,
    {
        out.push(ports[i].clone());
        proof {
            assert(out@ =~= ports@.take(i + 1));
        }
        i = i + 1;
    }
    proof {
        assert(ports@.take(ports@.len() as int) =~= ports@);
    }
    out
}

/// Copies a metadata list.
pub fn clone_metadata(md: &Vec<(String, String)>) -> (r: Vec<(String, String)>)
    ensures
        r@ == md@,
{
    let mut out: Vec<(String, String)> = Vec::new();
    let mut i: usize = 0;
    while i < md.len()
        invariant
            i <= md@.len(),
            out@ =~= md@.take(i as int),
        decreases md@.len() - i,
    {
        out.push((md[i].0.clone(), md[i].1.clone()));
        proof {
            assert(out@ =~= md@.take(i + 1));
        }
        i = i + 1;
    }
    proof {
        assert(md@.take(md@.len() as int) =~= md@);
    }
    out
}

/// Builder for `Part`; the name is required, everything else optional.
pub struct PartBuilder {
    pub name: Option<String>,
    pub ports: Vec<Port>,
    pub metadata: Vec<(String, String)>,
    pub datasheet_url: Option<String>,
}

impl Default for PartBuilder {
    fn default() -> (r: PartBuilder)
        ensures
            r.name is None,
            r.ports@.len() == 0,
            r.metadata@.len() == 0,
            r.datasheet_url is None,
    {
        PartBuilder { name: None, ports: Vec::new(), metadata: Vec::new(), datasheet_url: None }
    }
}

impl PartBuilder {
    /// Ports and metadata collected so far stay key-unique.
    pub open spec fn wf(self) -> bool {
        &&& forall|i: int, j: int|
            0 <= i < j < self.ports@.len() ==> (#[trigger] self.ports@[i]).terminal_identifier@
                != (#[trigger] self.ports@[j]).terminal_identifier@
        &&& meta_wf(self.metadata@)
    }

    pub fn name(&mut self, value: String)
        ensures
            *final(self) == (PartBuilder { name: Some(value), ..*old(self) }),
    {
        self.name = Some(value);
    }

    /// Declares a port; a port with the same terminal identifier is
    /// replaced.
    pub fn port(&mut self, terminal_identifier: &str, signal: &str)
        ensures
            final(self).name == old(self).name,
            final(self).metadata == old(self).metadata,
            final(self).datasheet_url == old(self).datasheet_url,
            old(self).wf() ==> final(self).wf(),
            ({
                let j = find_port_idx(old(self).ports@, terminal_identifier@);
                if j >= 0 {
                    &&& final(self).ports@.len() == old(self).ports@.len()
                    &&& final(self).ports@[j].terminal_identifier@ == terminal_identifier@
                    &&& final(self).ports@[j].signal@ == signal@
                    &&& forall|k: int|
                        0 <= k < old(self).ports@.len() && k != j
                            ==> #[trigger] final(self).ports@[k] == old(self).ports@[k]
                } else {
                    &&& final(self).ports@.len() == old(self).ports@.len() + 1
                    &&& final(self).ports@.last().terminal_identifier@ == terminal_identifier@
                    &&& final(self).ports@.last().signal@ == signal@
                    &&& forall|k: int|
                        0 <= k < old(self).ports@.len()
                            ==> #[trigger] final(self).ports@[k] == old(self).ports@[k]
                }
            }),
    {
        let p = Port::new(terminal_identifier, signal);
        let mut i: usize = 0;
        while i < self.ports.len()
            invariant
                i <= self.ports@.len(),
                *self == *old(self),
                p.terminal_identifier@ == terminal_identifier@,
                p.signal@ == signal@,
                forall|k: int|
                    0 <= k < i ==> (#[trigger] self.ports@[k]).terminal_identifier@
                        != terminal_identifier@,
            decreases self.ports@.len() - i,
        {
            if crate::strutil::str_eq(self.ports[i].terminal_identifier.as_str(), terminal_identifier) {
                proof {
                    lemma_find_port_idx_of(self.ports@, terminal_identifier@, i as int);
                }
                self.ports.set(i, p);
                return ;
            }
            i = i + 1;
        }
        proof {
            lemma_find_port_idx_of(self.ports@, terminal_identifier@, self.ports@.len() as int);
        }
        self.ports.push(p);
    }

    /// Stores a metadata value; an entry with the same key is replaced.
    pub fn metadata(&mut self, key: &str, value: &str)
        ensures
            final(self).name == old(self).name,
            final(self).ports == old(self).ports,
            final(self).datasheet_url == old(self).datasheet_url,
            meta_upserted(old(self).metadata@, final(self).metadata@, key@, value@),
            meta_wf(old(self).metadata@) ==> meta_wf(final(self).metadata@),
    {
        meta_set(&mut self.metadata, key, value);
    }

    /// Finishes the part; fails if no name was given.
    pub fn build(self) -> (r: Result<Part, SchematicError>)
        ensures
            self.name is Some <==> r is Ok,
            r matches Ok(p) ==> p == (Part {
                name: self.name->Some_0,
                ports: self.ports,
                metadata: self.metadata,
                datasheet_url: self.datasheet_url,
            }),
            r matches Err(e) ==> e matches SchematicError::UninitializedField(f) && f@
                == "name"@,
    {
        match self.name {
            Some(name) => Ok(
                Part {
                    name,
                    ports: self.ports,
                    metadata: self.metadata,
                    datasheet_url: self.datasheet_url,
                },
            ),
            None => Err(SchematicError::UninitializedField("name".to_owned())),
        }
    }
}

} // verus!
