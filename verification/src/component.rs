//! Components: instantiations of library parts in a design.

use crate::part::{find_port_idx, has_port, meta_lookup, meta_upserted, meta_wf, meta_get, meta_set, Part, PartRef, PortRef};
use crate::schematic::SchematicError;
use vstd::prelude::*;

verus! {

/// Shared handle to a component: a key into the schematic's component
/// arena.
#[derive(Clone, Copy, Debug, PartialEq, Eq, Hash, Structural)]
pub struct ComponentRef {
    pub idx: usize,
}

/// An instantiation of a part, identified by a unique reference
/// designator.
pub struct Component {
    pub name: String,
    pub part: PartRef,
    pub metadata: Vec<(String, String)>,
}

impl Component {
    /// Resolves a terminal identifier on this component's part.
    pub fn get_port(&self, part: &Part, name: &str) -> (r: Option<PortRef>)
        ensures
            r is Some <==> has_port(part.ports@, name@),
            r matches Some(p) ==> p.idx == find_port_idx(part.ports@, name@) && p.idx
                < part.ports@.len() && part.ports@[p.idx as int].terminal_identifier@ == name@,
    {
        part.get_port(name)
    }

    /// Looks up a metadata value by key.
    pub fn metadata_value(&self, key: &str) -> (r: Option<String>)
        ensures
            r is Some <==> meta_lookup(self.metadata@, key@) is Some,
            r matches Some(v) ==> meta_lookup(self.metadata@, key@) == Some(v@),
    {
        meta_get(&self.metadata, key)
    }
}

/// Builder for `Component`; name and part are required.
pub struct ComponentBuilder {
    pub name: Option<String>,
    pub part: Option<PartRef>,
    pub metadata: Vec<(String, String)>,
}

impl Default for ComponentBuilder {
    fn default() -> (r: ComponentBuilder)
        ensures
            r.name is None,
            r.part is None,
            r.metadata@.len() == 0,
    {
        ComponentBuilder { name: None, part: None, metadata: Vec::new() }
    }
}

impl ComponentBuilder {
    pub fn name(&mut self, value: String)
        ensures
            final(self).name == Some(value),
            final(self).part == old(self).part,
            final(self).metadata == old(self).metadata,
    {
        self.name = Some(value);
    }

    pub fn part(&mut self, value: PartRef)
        ensures
            final(self).name == old(self).name,
            final(self).part == Some(value),
            final(self).metadata == old(self).metadata,
    {
        self.part = Some(value);
    }

    /// Stores a metadata value; an entry with the same key is replaced.
    pub fn metadata(&mut self, key: &str, value: &str)
        ensures
            final(self).name == old(self).name,
            final(self).part == old(self).part,
            meta_upserted(old(self).metadata@, final(self).metadata@, key@, value@),
            meta_wf(old(self).metadata@) ==> meta_wf(final(self).metadata@),
    {
        meta_set(&mut self.metadata, key, value);
    }

    /// Finishes the component; fails if the name or the part is missing.
    pub fn build(self) -> (r: Result<Component, SchematicError>)
        ensures
            (self.name is Some && self.part is Some) <==> r is Ok,
            r matches Ok(c) ==> c == (Component {
                name: self.name->Some_0,
                part: self.part->Some_0,
                metadata: self.metadata,
            }),
            self.name is None ==> (r matches Err(SchematicError::UninitializedField(f)) && f@
                == "name"@),
            self.name is Some && self.part is None ==> (r matches Err(
                SchematicError::UninitializedField(f),
            ) && f@ == "part"@),
    {
        match self.name {
            Some(name) => match self.part {
                Some(part) => Ok(Component { name, part, metadata: self.metadata }),
                None => Err(SchematicError::UninitializedField("part".to_owned())),
            },
            None => Err(SchematicError::UninitializedField("name".to_owned())),
        }
    }
}

} // verus!
