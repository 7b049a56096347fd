//! Nets: named sets of (component, port) connections.

use crate::component::ComponentRef;
use crate::part::PortRef;
use crate::schematic::SchematicError;
use vstd::prelude::*;

verus! {

/// Shared handle to a net: a key into the schematic's net arena.
#[derive(Clone, Copy, Debug, PartialEq, Eq, Hash, Structural)]
pub struct NetRef {
    pub idx: usize,
}

/// Electrical class of a net; informational only.
#[derive(Clone, Copy, Debug)]
pub enum NetType {
    Unknown,
    Power,
    Ground,
    Digital,
    Analog,
}

/// A named equipotential set of pin connections.
pub struct Net {
    pub name: String,
    pub net_type: NetType,
    pub connections: Vec<(ComponentRef, PortRef)>,
}

/// Whether the pair is already connected.
pub open spec fn conn_contains(conns: Seq<(ComponentRef, PortRef)>, c: (ComponentRef, PortRef))
    -> bool {
    exists|k: int| 0 <= k < conns.len() && #[trigger] conns[k] == c
}

impl Net {
    /// Inserts a (component, port) pair; inserting a present pair is a
    /// no-op.
    pub fn connect(&mut self, component: ComponentRef, port: PortRef)
        ensures
            final(self).name == old(self).name,
            final(self).net_type == old(self).net_type,
            final(self).connections@ == if conn_contains(
                old(self).connections@,
                (component, port),
            ) {
                old(self).connections@
            } else {
                old(self).connections@.push((component, port))
            },
    {
        let mut i: usize = 0;
        while i < self.connections.len()
            invariant
                i <= self.connections@.len(),
                *self == *old(self),
                forall|k: int| 0 <= k < i ==> #[trigger] self.connections@[k] != (component, port),
            decreases self.connections@.len() - i,
        {
            let (c, p) = self.connections[i];
            if c.idx == component.idx && p.idx == port.idx {
                proof {
                    assert(self.connections@[i as int] == (component, port));
                }
                return ;
            }
            i = i + 1;
        }
        proof {
            assert(!conn_contains(self.connections@, (component, port)));
        }
        self.connections.push((component, port));
    }
}

/// Builder for `Net`; the name is required, the type defaults to
/// `Unknown`, the connection set starts empty.
pub struct NetBuilder {
    pub name: Option<String>,
    pub net_type: NetType,
}

impl Default for NetBuilder {
    fn default() -> (r: NetBuilder)
        ensures
            r.name is None,
            r.net_type is Unknown,
    {
        NetBuilder { name: None, net_type: NetType::Unknown }
    }
}

impl NetBuilder {
    pub fn name(&mut self, value: String)
        ensures
            final(self).name == Some(value),
            final(self).net_type == old(self).net_type,
    {
        self.name = Some(value);
    }

    pub fn net_type(&mut self, value: NetType)
        ensures
            final(self).name == old(self).name,
            final(self).net_type == value,
    {
        self.net_type = value;
    }

    /// Finishes the net; fails if no name was given.
    pub fn build(self) -> (r: Result<Net, SchematicError>)
        ensures
            self.name is Some <==> r is Ok,
            r matches Ok(n) ==> {
                &&& n.name == self.name->Some_0
                &&& n.net_type == self.net_type
                &&& n.connections@.len() == 0
            },
            r matches Err(e) ==> e matches SchematicError::UninitializedField(f) && f@ == "name"@,
    {
        match self.name {
            Some(name) => Ok(Net { name, net_type: self.net_type, connections: Vec::new() }),
            None => Err(SchematicError::UninitializedField("name".to_owned())),
        }
    }
}

} // verus!
