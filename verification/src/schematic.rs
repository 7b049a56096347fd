//! The schematic intermediate representation: an arena of parts,
//! components and nets, each namespace keyed by unique names.

use crate::component::{Component, ComponentRef};
use crate::net::{conn_contains, Net, NetRef};
use crate::part::{find_port_idx, has_port, Part, PartRef, Port, PortRef};
use vstd::prelude::*;

verus! {

/// Errors of the schematic operations.
#[derive(Debug)]
pub enum SchematicError {
    NameAlreadyExists(String),
    NameNotFound(String),
    UninitializedField(String),
    NormalizationError(NormalizationError),
}

/// Errors of identifier normalization.
#[derive(Debug)]
pub enum NormalizationError {
    NameConflict(String),
    InvalidName(String),
    Other(String),
}

/// The rendered text of a normalization error.
pub open spec fn normalization_error_text(e: NormalizationError) -> Seq<char> {
    match e {
        NormalizationError::NameConflict(n) => "Name conflict: "@ + n@,
        NormalizationError::InvalidName(n) => "Invalid name: "@ + n@,
        NormalizationError::Other(n) => "Other error: "@ + n@,
    }
}

/// The rendered text of a schematic error.
pub open spec fn schematic_error_text(e: SchematicError) -> Seq<char> {
    match e {
        SchematicError::NameAlreadyExists(n) => "Name already exists: "@ + n@,
        SchematicError::NameNotFound(n) => "Name not found: "@ + n@,
        SchematicError::UninitializedField(n) => "Uninitialized field: "@ + n@,
        SchematicError::NormalizationError(inner) => "Normalization error: "@
            + normalization_error_text(inner),
    }
}

impl NormalizationError {
    /// The rendered error text.
    pub fn message(&self) -> (r: String)
        ensures
            r@ == normalization_error_text(*self),
    {
        let mut out = String::new();
        match self {
            NormalizationError::NameConflict(n) => {
                out.append("Name conflict: ");
                out.append(n.as_str());
            },
            NormalizationError::InvalidName(n) => {
                out.append("Invalid name: ");
                out.append(n.as_str());
            },
            NormalizationError::Other(n) => {
                out.append("Other error: ");
                out.append(n.as_str());
            },
        }
        out
    }
}

impl SchematicError {
    /// The rendered error text.
    pub fn message(&self) -> (r: String)
        ensures
            r@ == schematic_error_text(*self),
    {
        let mut out = String::new();
        match self {
            SchematicError::NameAlreadyExists(n) => {
                out.append("Name already exists: ");
                out.append(n.as_str());
            },
            SchematicError::NameNotFound(n) => {
                out.append("Name not found: ");
                out.append(n.as_str());
            },
            SchematicError::UninitializedField(n) => {
                out.append("Uninitialized field: ");
                out.append(n.as_str());
            },
            SchematicError::NormalizationError(e) => {
                out.append("Normalization error: ");
                let inner = e.message();
                out.append(inner.as_str());
            },
        }
        out
    }
}

/// Key of the part with the given name, or `-1`.
pub open spec fn find_part_idx(parts: Seq<Part>, name: Seq<char>) -> int
    decreases parts.len(),
{
    if parts.len() == 0 {
        -1
    } else if parts[0].name@ == name {
        0
    } else {
        let r = find_part_idx(parts.drop_first(), name);
        if r < 0 {
            -1
        } else {
            r + 1
        }
    }
}

pub open spec fn has_part(parts: Seq<Part>, name: Seq<char>) -> bool {
    exists|k: int| 0 <= k < parts.len() && (#[trigger] parts[k]).name@ == name
}

pub proof fn lemma_find_part_idx_of(parts: Seq<Part>, name: Seq<char>, n: int)
    requires
        0 <= n <= parts.len(),
        forall|k: int| 0 <= k < n ==> (#[trigger] parts[k]).name@ != name,
        n < parts.len() ==> parts[n].name@ == name,
    ensures
        find_part_idx(parts, name) == if n < parts.len() {
            n
        } else {
            -1
        },
    decreases n,
{
    if n == 0 {
        if parts.len() > 0 && parts[0].name@ != name {
            assert(forall|k: int|
                0 <= k < parts.len() - 1 ==> #[trigger] parts.drop_first()[k] == parts[k + 1]);
            lemma_find_part_idx_of(parts.drop_first(), name, 0);
        }
    } else {
        assert(forall|k: int|
            0 <= k < parts.len() - 1 ==> #[trigger] parts.drop_first()[k] == parts[k + 1]);
        lemma_find_part_idx_of(parts.drop_first(), name, n - 1);
    }
}

/// Key of the component with the given name, or `-1`.
pub open spec fn find_component_idx(components: Seq<Component>, name: Seq<char>) -> int
    decreases components.len(),
{
    if components.len() == 0 {
        -1
    } else if components[0].name@ == name {
        0
    } else {
        let r = find_component_idx(components.drop_first(), name);
        if r < 0 {
            -1
        } else {
            r + 1
        }
    }
}

pub open spec fn has_component(components: Seq<Component>, name: Seq<char>) -> bool {
    exists|k: int| 0 <= k < components.len() && (#[trigger] components[k]).name@ == name
}

pub proof fn lemma_find_component_idx_of(components: Seq<Component>, name: Seq<char>, n: int)
    requires
        0 <= n <= components.len(),
        forall|k: int| 0 <= k < n ==> (#[trigger] components[k]).name@ != name,
        n < components.len() ==> components[n].name@ == name,
    ensures
        find_component_idx(components, name) == if n < components.len() {
            n
        } else {
            -1
        },
    decreases n,
{
    if n == 0 {
        if components.len() > 0 && components[0].name@ != name {
            assert(forall|k: int|
                0 <= k < components.len() - 1 ==> #[trigger] components.drop_first()[k]
                    == components[k + 1]);
            lemma_find_component_idx_of(components.drop_first(), name, 0);
        }
    } else {
        assert(forall|k: int|
            0 <= k < components.len() - 1 ==> #[trigger] components.drop_first()[k] == components[k
                + 1]);
        lemma_find_component_idx_of(components.drop_first(), name, n - 1);
    }
}

/// Key of the net with the given name, or `-1`.
pub open spec fn find_net_idx(nets: Seq<Net>, name: Seq<char>) -> int
    decreases nets.len(),
{
    if nets.len() == 0 {
        -1
    } else if nets[0].name@ == name {
        0
    } else {
        let r = find_net_idx(nets.drop_first(), name);
        if r < 0 {
            -1
        } else {
            r + 1
        }
    }
}

pub open spec fn has_net(nets: Seq<Net>, name: Seq<char>) -> bool {
    exists|k: int| 0 <= k < nets.len() && (#[trigger] nets[k]).name@ == name
}

pub proof fn lemma_find_net_idx_of(nets: Seq<Net>, name: Seq<char>, n: int)
    requires
        0 <= n <= nets.len(),
        forall|k: int| 0 <= k < n ==> (#[trigger] nets[k]).name@ != name,
        n < nets.len() ==> nets[n].name@ == name,
    ensures
        find_net_idx(nets, name) == if n < nets.len() {
            n
        } else {
            -1
        },
    decreases n,
{
    if n == 0 {
        if nets.len() > 0 && nets[0].name@ != name {
            assert(forall|k: int|
                0 <= k < nets.len() - 1 ==> #[trigger] nets.drop_first()[k] == nets[k + 1]);
            lemma_find_net_idx_of(nets.drop_first(), name, 0);
        }
    } else {
        assert(forall|k: int|
            0 <= k < nets.len() - 1 ==> #[trigger] nets.drop_first()[k] == nets[k + 1]);
        lemma_find_net_idx_of(nets.drop_first(), name, n - 1);
    }
}

/// A found part name lies in range and matches.
pub proof fn lemma_find_part_idx_bounds_helper(parts: Seq<Part>, name: Seq<char>)
    ensures
        find_part_idx(parts, name) >= 0 ==> find_part_idx(parts, name) < parts.len()
            && parts[find_part_idx(parts, name)].name@ == name,
    decreases parts.len(),
{
    if parts.len() > 0 && parts[0].name@ != name {
        assert(forall|k: int|
            0 <= k < parts.len() - 1 ==> #[trigger] parts.drop_first()[k] == parts[k + 1]);
        lemma_find_part_idx_bounds_helper(parts.drop_first(), name);
    }
}

/// With unique names, the scan finds a named component exactly at its
/// key.
pub proof fn lemma_find_component_idx_of_unique(
    components: Seq<Component>,
    name: Seq<char>,
    c: int,
)
    requires
        0 <= c < components.len(),
        components[c].name@ == name,
        forall|i: int, j: int|
            0 <= i < j < components.len() ==> (#[trigger] components[i]).name@
                != (#[trigger] components[j]).name@,
    ensures
        find_component_idx(components, name) == c,
{
    assert forall|k: int| 0 <= k < c implies (#[trigger] components[k]).name@ != name by {
        assert(components[k].name@ != components[c].name@);
    }
    lemma_find_component_idx_of(components, name, c);
}

/// A name present at some key is found by the net scan.
pub proof fn lemma_find_net_idx_positive(nets: Seq<Net>, name: Seq<char>, w: int)
    requires
        0 <= w < nets.len(),
        nets[w].name@ == name,
    ensures
        find_net_idx(nets, name) >= 0,
    decreases w,
{
    if nets.len() > 0 && nets[0].name@ != name {
        assert(forall|k: int|
            0 <= k < nets.len() - 1 ==> #[trigger] nets.drop_first()[k] == nets[k + 1]);
        lemma_find_net_idx_positive(nets.drop_first(), name, w - 1);
    }
}

/// A pluggable naming strategy that maps raw names onto identifiers of
/// the output language. Each rule either produces an identifier or
/// rejects the name.
pub trait Normalizer {
    /// What the component rule produces, `None` when the name is invalid.
    spec fn spec_component_name(&self, name: Seq<char>) -> Option<Seq<char>>;

    /// What the net rule produces, `None` when the name is invalid.
    spec fn spec_net_name(&self, name: Seq<char>) -> Option<Seq<char>>;

    /// What the part rule produces, `None` when the name is invalid.
    spec fn spec_part_name(&self, name: Seq<char>) -> Option<Seq<char>>;

    /// What the port rule produces, `None` when the names are invalid.
    spec fn spec_port_name(&self, pin: Seq<char>, signal: Seq<char>) -> Option<Seq<char>>;

    fn normalize_component_name(&self, name: &str) -> (r: Result<String, NormalizationError>)
        ensures
            r is Ok <==> self.spec_component_name(name@) is Some,
            r matches Ok(v) ==> self.spec_component_name(name@) == Some(v@),
            r matches Err(e) ==> (e matches NormalizationError::InvalidName(n) && n@ == name@),
    ;

    fn normalize_net_name(&self, name: &str) -> (r: Result<String, NormalizationError>)
        ensures
            r is Ok <==> self.spec_net_name(name@) is Some,
            r matches Ok(v) ==> self.spec_net_name(name@) == Some(v@),
            r matches Err(e) ==> (e matches NormalizationError::InvalidName(n) && n@ == name@),
    ;

    fn normalize_part_name(&self, name: &str) -> (r: Result<String, NormalizationError>)
        ensures
            r is Ok <==> self.spec_part_name(name@) is Some,
            r matches Ok(v) ==> self.spec_part_name(name@) == Some(v@),
            r matches Err(e) ==> (e matches NormalizationError::InvalidName(n) && n@ == name@),
    ;

    fn normalize_port_name(&self, pin_name: &str, signal_name: &str) -> (r: Result<
        String,
        NormalizationError,
    >)
        ensures
            r is Ok <==> self.spec_port_name(pin_name@, signal_name@) is Some,
            r matches Ok(v) ==> self.spec_port_name(pin_name@, signal_name@) == Some(v@),
            r matches Err(e) ==> (e matches NormalizationError::InvalidName(n) && n@
                == signal_name@),
    ;
}

/// The logical representation of an electrical design: a library of parts,
/// the components instantiating them, and the nets wiring their pins
/// together.
pub struct Schematic {
    pub parts: Vec<Part>,
    pub components: Vec<Component>,
    pub nets: Vec<Net>,
}

impl Schematic {
    /// Names are unique in each namespace, every part is well formed, and
    /// every reference held by a component or net points into the arena.
    pub open spec fn wf(self) -> bool {
        &&& forall|i: int, j: int|
            0 <= i < j < self.parts@.len() ==> (#[trigger] self.parts@[i]).name@
                != (#[trigger] self.parts@[j]).name@
        &&& forall|i: int| 0 <= i < self.parts@.len() ==> (#[trigger] self.parts@[i]).wf()
        &&& forall|i: int, j: int|
            0 <= i < j < self.components@.len() ==> (#[trigger] self.components@[i]).name@
                != (#[trigger] self.components@[j]).name@
        &&& forall|i: int|
            0 <= i < self.components@.len() ==> (#[trigger] self.components@[i]).part.idx
                < self.parts@.len()
        &&& forall|i: int, j: int|
            0 <= i < j < self.nets@.len() ==> (#[trigger] self.nets@[i]).name@
                != (#[trigger] self.nets@[j]).name@
        &&& forall|i: int| 0 <= i < self.nets@.len() ==> self.net_wf(#[trigger] self.nets@[i])
    }

    /// Every connection of the net resolves to a component of the arena
    /// and a port of that component's part, and no pair repeats.
    pub open spec fn net_wf(self, net: Net) -> bool {
        &&& forall|k: int|
            0 <= k < net.connections@.len() ==> (#[trigger] net.connections@[k]).0.idx
                < self.components@.len() && net.connections@[k].1.idx < self.parts@[self.components@[net.connections@[k].0.idx as int].part.idx as int].ports@.len()
        &&& forall|k: int, l: int|
            0 <= k < l < net.connections@.len() ==> #[trigger] net.connections@[k]
                != #[trigger] net.connections@[l]
    }

    /// An empty schematic.
    pub fn new() -> (s: Schematic)
        ensures
            s.parts@.len() == 0,
            s.components@.len() == 0,
            s.nets@.len() == 0,
            s.wf(),
    {
        Schematic { parts: Vec::new(), components: Vec::new(), nets: Vec::new() }
    }

    /// Registers a part; fails without mutating anything if the name is
    /// taken.
    pub fn add_part(&mut self, part: Part) -> (r: Result<PartRef, SchematicError>)
        requires
            old(self).wf(),
            part.wf(),
        ensures
            final(self).wf(),
            has_part(old(self).parts@, part.name@) ==> {
                &&& r matches Err(SchematicError::NameAlreadyExists(n)) && n@ == part.name@
                &&& *final(self) == *old(self)
            },
            !has_part(old(self).parts@, part.name@) ==> {
                &&& r matches Ok(p) && p.idx == old(self).parts@.len()
                &&& final(self).parts@ == old(self).parts@.push(part)
                &&& final(self).components == old(self).components
                &&& final(self).nets == old(self).nets
            },
    {
        let mut i: usize = 0;
        while i < self.parts.len()
            invariant
                i <= self.parts@.len(),
                *self == *old(self),
                self.wf(),
                forall|k: int| 0 <= k < i ==> (#[trigger] self.parts@[k]).name@ != part.name@,
            decreases self.parts@.len() - i,
        {
            if crate::strutil::str_eq(self.parts[i].name.as_str(), part.name.as_str()) {
                return Err(SchematicError::NameAlreadyExists(part.name));
            }
            i = i + 1;
        }
        let idx = self.parts.len();
        self.parts.push(part);
        proof {
            assert forall|k: int| 0 <= k < self.nets@.len() implies self.net_wf(
                #[trigger] self.nets@[k],
            ) by {
                assert(old(self).net_wf(old(self).nets@[k]));
            }
        }
        Ok(PartRef { idx })
    }

    /// Registers a component; fails without mutating anything if the name
    /// is taken.
    pub fn add_component(&mut self, component: Component) -> (r: Result<
        ComponentRef,
        SchematicError,
    >)
        requires
            old(self).wf(),
            component.part.idx < old(self).parts@.len(),
        ensures
            final(self).wf(),
            has_component(old(self).components@, component.name@) ==> {
                &&& r matches Err(SchematicError::NameAlreadyExists(n)) && n@ == component.name@
                &&& *final(self) == *old(self)
            },
            !has_component(old(self).components@, component.name@) ==> {
                &&& r matches Ok(c) && c.idx == old(self).components@.len()
                &&& final(self).components@ == old(self).components@.push(component)
                &&& final(self).parts == old(self).parts
                &&& final(self).nets == old(self).nets
            },
    {
        let mut i: usize = 0;
        while i < self.components.len()
            invariant
                i <= self.components@.len(),
                *self == *old(self),
                self.wf(),
                forall|k: int|
                    0 <= k < i ==> (#[trigger] self.components@[k]).name@ != component.name@,
            decreases self.components@.len() - i,
        {
            if crate::strutil::str_eq(self.components[i].name.as_str(), component.name.as_str()) {
                return Err(SchematicError::NameAlreadyExists(component.name));
            }
            i = i + 1;
        }
        let idx = self.components.len();
        self.components.push(component);
        proof {
            assert forall|k: int| 0 <= k < self.nets@.len() implies self.net_wf(
                #[trigger] self.nets@[k],
            ) by {
                assert(old(self).net_wf(old(self).nets@[k]));
            }
        }
        Ok(ComponentRef { idx })
    }

    /// Registers a net; fails without mutating anything if the name is
    /// taken.
    pub fn add_net(&mut self, net: Net) -> (r: Result<NetRef, SchematicError>)
        requires
            old(self).wf(),
            old(self).net_wf(net),
        ensures
            final(self).wf(),
            has_net(old(self).nets@, net.name@) ==> {
                &&& r matches Err(SchematicError::NameAlreadyExists(n)) && n@ == net.name@
                &&& *final(self) == *old(self)
            },
            !has_net(old(self).nets@, net.name@) ==> {
                &&& r matches Ok(nref) && nref.idx == old(self).nets@.len()
                &&& final(self).nets@ == old(self).nets@.push(net)
                &&& final(self).parts == old(self).parts
                &&& final(self).components == old(self).components
            },
    {
        let mut i: usize = 0;
        while i < self.nets.len()
            invariant
                i <= self.nets@.len(),
                *self == *old(self),
                self.wf(),
                forall|k: int| 0 <= k < i ==> (#[trigger] self.nets@[k]).name@ != net.name@,
            decreases self.nets@.len() - i,
        {
            if crate::strutil::str_eq(self.nets[i].name.as_str(), net.name.as_str()) {
                return Err(SchematicError::NameAlreadyExists(net.name));
            }
            i = i + 1;
        }
        let idx = self.nets.len();
        self.nets.push(net);
        proof {
            assert forall|k: int| 0 <= k < self.nets@.len() implies self.net_wf(
                #[trigger] self.nets@[k],
            ) by {
                if k < old(self).nets@.len() {
                    assert(old(self).net_wf(old(self).nets@[k]));
                }
            }
        }
        Ok(NetRef { idx })
    }

    /// Looks a part up by name.
    pub fn get_part(&self, name: &str) -> (r: Option<PartRef>)
        ensures
            r is Some <==> has_part(self.parts@, name@),
            r is None ==> find_part_idx(self.parts@, name@) == -1,
            r matches Some(p) ==> p.idx == find_part_idx(self.parts@, name@)
                && p.idx < self.parts@.len() && self.parts@[p.idx as int].name@ == name@,
    {
        let mut i: usize = 0;
        while i < self.parts.len()
            invariant
                i <= self.parts@.len(),
                forall|k: int| 0 <= k < i ==> (#[trigger] self.parts@[k]).name@ != name@,
            decreases self.parts@.len() - i,
        {
            if crate::strutil::str_eq(self.parts[i].name.as_str(), name) {
                proof {
                    lemma_find_part_idx_of(self.parts@, name@, i as int);
                }
                return Some(PartRef { idx: i });
            }
            i = i + 1;
        }
        proof {
            lemma_find_part_idx_of(self.parts@, name@, self.parts@.len() as int);
        }
        None
    }

    /// Looks a component up by name.
    pub fn get_component(&self, name: &str) -> (r: Option<ComponentRef>)
        ensures
            r is Some <==> has_component(self.components@, name@),
            r is None ==> find_component_idx(self.components@, name@) == -1,
            r matches Some(c) ==> c.idx == find_component_idx(self.components@, name@)
                && c.idx < self.components@.len() && self.components@[c.idx as int].name@ == name@,
    {
        let mut i: usize = 0;
        while i < self.components.len()
            invariant
                i <= self.components@.len(),
                forall|k: int| 0 <= k < i ==> (#[trigger] self.components@[k]).name@ != name@,
            decreases self.components@.len() - i,
        {
            if crate::strutil::str_eq(self.components[i].name.as_str(), name) {
                proof {
                    lemma_find_component_idx_of(self.components@, name@, i as int);
                }
                return Some(ComponentRef { idx: i });
            }
            i = i + 1;
        }
        proof {
            lemma_find_component_idx_of(self.components@, name@, self.components@.len() as int);
        }
        None
    }

    /// Looks a net up by name.
    pub fn get_net(&self, name: &str) -> (r: Option<NetRef>)
        ensures
            r is Some <==> has_net(self.nets@, name@),
            r is None ==> find_net_idx(self.nets@, name@) == -1,
            r matches Some(n) ==> n.idx == find_net_idx(self.nets@, name@) && n.idx
                < self.nets@.len() && self.nets@[n.idx as int].name@ == name@,
    {
        let mut i: usize = 0;
        while i < self.nets.len()
            invariant
                i <= self.nets@.len(),
                forall|k: int| 0 <= k < i ==> (#[trigger] self.nets@[k]).name@ != name@,
            decreases self.nets@.len() - i,
        {
            if crate::strutil::str_eq(self.nets[i].name.as_str(), name) {
                proof {
                    lemma_find_net_idx_of(self.nets@, name@, i as int);
                }
                return Some(NetRef { idx: i });
            }
            i = i + 1;
        }
        proof {
            lemma_find_net_idx_of(self.nets@, name@, self.nets@.len() as int);
        }
        None
    }

    /// Reads the part behind a handle.
    pub fn part_at(&self, r: PartRef) -> (p: &Part)
        requires
            r.idx < self.parts@.len(),
        ensures
            *p == self.parts@[r.idx as int],
    {
        &self.parts[r.idx]
    }

    /// Reads the component behind a handle.
    pub fn component_at(&self, r: ComponentRef) -> (c: &Component)
        requires
            r.idx < self.components@.len(),
        ensures
            *c == self.components@[r.idx as int],
    {
        &self.components[r.idx]
    }

    /// Reads the net behind a handle.
    pub fn net_at(&self, r: NetRef) -> (n: &Net)
        requires
            r.idx < self.nets@.len(),
        ensures
            *n == self.nets@[r.idx as int],
    {
        &self.nets[r.idx]
    }

    /// Handles to all parts, in registration order.
    pub fn parts_iter(&self) -> (r: Vec<PartRef>)
        ensures
            r@.len() == self.parts@.len(),
            forall|i: int| 0 <= i < r@.len() ==> (#[trigger] r@[i]).idx == i,
    {
        let mut out: Vec<PartRef> = Vec::new();
        let mut i: usize = 0;
        while i < self.parts.len()
            invariant
                i <= self.parts@.len(),
                out@.len() == i,
                forall|k: int| 0 <= k < i ==> (#[trigger] out@[k]).idx == k,
            decreases self.parts@.len() - i,
        {
            out.push(PartRef { idx: i });
            i = i + 1;
        }
        out
    }

    /// Handles to all components, in registration order.
    pub fn components_iter(&self) -> (r: Vec<ComponentRef>)
        ensures
            r@.len() == self.components@.len(),
            forall|i: int| 0 <= i < r@.len() ==> (#[trigger] r@[i]).idx == i,
    {
        let mut out: Vec<ComponentRef> = Vec::new();
        let mut i: usize = 0;
        while i < self.components.len()
            invariant
                i <= self.components@.len(),
                out@.len() == i,
                forall|k: int| 0 <= k < i ==> (#[trigger] out@[k]).idx == k,
            decreases self.components@.len() - i,
        {
            out.push(ComponentRef { idx: i });
            i = i + 1;
        }
        out
    }

    /// Handles to all nets, in registration order.
    pub fn nets_iter(&self) -> (r: Vec<NetRef>)
        ensures
            r@.len() == self.nets@.len(),
            forall|i: int| 0 <= i < r@.len() ==> (#[trigger] r@[i]).idx == i,
    {
        let mut out: Vec<NetRef> = Vec::new();
        let mut i: usize = 0;
        while i < self.nets.len()
            invariant
                i <= self.nets@.len(),
                out@.len() == i,
                forall|k: int| 0 <= k < i ==> (#[trigger] out@[k]).idx == k,
            decreases self.nets@.len() - i,
        {
            out.push(NetRef { idx: i });
            i = i + 1;
        }
        out
    }

    /// Connects a component's pin to a net. Fails with `NameNotFound` if
    /// the component, the terminal identifier on its part, or the net does
    /// not resolve; re-connecting an already present pair is a no-op.
    pub fn connect(&mut self, net_name: &str, component_name: &str, terminal_identifier: &str)
        -> (r: Result<(), SchematicError>)
        requires
            old(self).wf(),
        ensures
            final(self).wf(),
            ({
                let comps = old(self).components@;
                let ci = find_component_idx(comps, component_name@);
                if ci < 0 {
                    &&& r matches Err(SchematicError::NameNotFound(n)) && n@ == component_name@
                    &&& *final(self) == *old(self)
                } else {
                    let part = old(self).parts@[comps[ci].part.idx as int];
                    let pi = find_port_idx(part.ports@, terminal_identifier@);
                    if pi < 0 {
                        &&& r matches Err(SchematicError::NameNotFound(n)) && n@
                            == terminal_identifier@
                        &&& *final(self) == *old(self)
                    } else {
                        let ni = find_net_idx(old(self).nets@, net_name@);
                        if ni < 0 {
                            &&& r matches Err(SchematicError::NameNotFound(n)) && n@ == net_name@
                            &&& *final(self) == *old(self)
                        } else {
                            let conn = (ComponentRef { idx: ci as usize }, PortRef {
                                idx: pi as usize,
                            });
                            let net = old(self).nets@[ni];
                            &&& r is Ok
                            &&& final(self).parts == old(self).parts
                            &&& final(self).components == old(self).components
                            &&& final(self).nets@.len() == old(self).nets@.len()
                            &&& forall|k: int|
                                0 <= k < old(self).nets@.len() && k != ni
                                    ==> #[trigger] final(self).nets@[k] == old(self).nets@[k]
                            &&& final(self).nets@[ni].name == net.name
                            &&& final(self).nets@[ni].net_type == net.net_type
                            &&& final(self).nets@[ni].connections@ == if conn_contains(
                                net.connections@,
                                conn,
                            ) {
                                net.connections@
                            } else {
                                net.connections@.push(conn)
                            }
                        }
                    }
                }
            }),
    {
        let component = match self.get_component(component_name) {
            Some(c) => c,
            None => {
                return Err(SchematicError::NameNotFound(component_name.to_owned()));
            },
        };
        let part_ref = self.components[component.idx].part;
        let port = match self.parts[part_ref.idx].get_port(terminal_identifier) {
            Some(p) => p,
            None => {
                return Err(SchematicError::NameNotFound(terminal_identifier.to_owned()));
            },
        };
        let net = match self.get_net(net_name) {
            Some(n) => n,
            None => {
                return Err(SchematicError::NameNotFound(net_name.to_owned()));
            },
        };
        let mut taken = self.nets.remove(net.idx);
        taken.connect(component, port);
        self.nets.insert(net.idx, taken);
        proof {
            assert(self.nets@ =~= old(self).nets@.update(
                net.idx as int,
                self.nets@[net.idx as int],
            ));
            assert forall|k: int| 0 <= k < self.nets@.len() implies self.net_wf(
                #[trigger] self.nets@[k],
            ) by {
                if k != net.idx {
                    assert(old(self).net_wf(old(self).nets@[k]));
                } else {
                    assert(old(self).net_wf(old(self).nets@[k]));
                }
            }
        }
        Ok(())
    }
}

/// One part after normalization: name and port signals rewritten,
/// terminal identifiers and everything else untouched.
pub open spec fn part_normalized<N: Normalizer>(op: Part, np: Part, n: N) -> bool {
    &&& Some(np.name@) == n.spec_part_name(op.name@)
    &&& np.ports@.len() == op.ports@.len()
    &&& forall|k: int|
        0 <= k < op.ports@.len() ==> (#[trigger] np.ports@[k]).terminal_identifier@
            == op.ports@[k].terminal_identifier@ && Some(np.ports@[k].signal@)
            == n.spec_port_name(op.ports@[k].terminal_identifier@, op.ports@[k].signal@)
    &&& np.metadata@ == op.metadata@
    &&& np.datasheet_url == op.datasheet_url
}

/// One component after normalization: only the name is rewritten.
pub open spec fn component_normalized<N: Normalizer>(oc: Component, nc: Component, n: N) -> bool {
    &&& Some(nc.name@) == n.spec_component_name(oc.name@)
    &&& nc.part == oc.part
    &&& nc.metadata@ == oc.metadata@
}

/// One net after normalization: only the name is rewritten.
pub open spec fn net_normalized<N: Normalizer>(on: Net, nn: Net, n: N) -> bool {
    &&& Some(nn.name@) == n.spec_net_name(on.name@)
    &&& nn.net_type == on.net_type
    &&& nn.connections@ == on.connections@
}

impl Schematic {
    /// Every name of the schematic normalizes, and no two distinct names
    /// of one namespace collide after normalization.
    pub open spec fn normalizable<N: Normalizer>(self, n: N) -> bool {
        &&& forall|i: int|
            0 <= i < self.components@.len() ==> n.spec_component_name(
                (#[trigger] self.components@[i]).name@,
            ) is Some
        &&& forall|i: int, j: int|
            0 <= i < j < self.components@.len() ==> n.spec_component_name(
                (#[trigger] self.components@[i]).name@,
            ) != n.spec_component_name((#[trigger] self.components@[j]).name@)
        &&& forall|i: int|
            0 <= i < self.nets@.len() ==> n.spec_net_name((#[trigger] self.nets@[i]).name@) is Some
        &&& forall|i: int, j: int|
            0 <= i < j < self.nets@.len() ==> n.spec_net_name((#[trigger] self.nets@[i]).name@)
                != n.spec_net_name((#[trigger] self.nets@[j]).name@)
        &&& forall|i: int|
            0 <= i < self.parts@.len() ==> n.spec_part_name(
                (#[trigger] self.parts@[i]).name@,
            ) is Some
        &&& forall|i: int, j: int|
            0 <= i < j < self.parts@.len() ==> n.spec_part_name((#[trigger] self.parts@[i]).name@)
                != n.spec_part_name((#[trigger] self.parts@[j]).name@)
        &&& forall|i: int, k: int|
            0 <= i < self.parts@.len() && 0 <= k < (#[trigger] self.parts@[i]).ports@.len()
                ==> n.spec_port_name(
                (#[trigger] self.parts@[i].ports@[k]).terminal_identifier@,
                self.parts@[i].ports@[k].signal@,
            ) is Some
    }

    /// Two distinct names of one namespace normalize to the same
    /// identifier `n`.
    pub open spec fn normalize_conflict_on<N: Normalizer>(self, nz: N, n: Seq<char>) -> bool {
        ||| exists|i: int, j: int|
            0 <= i < j < self.components@.len() && nz.spec_component_name(
                (#[trigger] self.components@[i]).name@,
            ) == Some(n) && nz.spec_component_name((#[trigger] self.components@[j]).name@)
                == Some(n)
        ||| exists|i: int, j: int|
            0 <= i < j < self.nets@.len() && nz.spec_net_name((#[trigger] self.nets@[i]).name@)
                == Some(n) && nz.spec_net_name((#[trigger] self.nets@[j]).name@) == Some(n)
        ||| exists|i: int, j: int|
            0 <= i < j < self.parts@.len() && nz.spec_part_name(
                (#[trigger] self.parts@[i]).name@,
            ) == Some(n) && nz.spec_part_name((#[trigger] self.parts@[j]).name@) == Some(n)
    }

    /// Some raw name of the schematic is rejected by the normalizer; `n`
    /// is the rejected component, net or part name, or the signal of the
    /// rejected port.
    pub open spec fn normalize_invalid_on<N: Normalizer>(self, nz: N, n: Seq<char>) -> bool {
        ||| exists|i: int|
            0 <= i < self.components@.len() && (#[trigger] self.components@[i]).name@ == n
                && nz.spec_component_name(self.components@[i].name@) is None
        ||| exists|i: int|
            0 <= i < self.nets@.len() && (#[trigger] self.nets@[i]).name@ == n && nz.spec_net_name(
                self.nets@[i].name@,
            ) is None
        ||| exists|i: int|
            0 <= i < self.parts@.len() && (#[trigger] self.parts@[i]).name@ == n
                && nz.spec_part_name(self.parts@[i].name@) is None
        ||| exists|i: int, k: int|
            0 <= i < self.parts@.len() && 0 <= k < (#[trigger] self.parts@[i]).ports@.len() && (
            #[trigger] self.parts@[i].ports@[k]).signal@ == n && nz.spec_port_name(
                self.parts@[i].ports@[k].terminal_identifier@,
                self.parts@[i].ports@[k].signal@,
            ) is None
    }

    /// The whole schematic after normalization.
    pub open spec fn normalized_from<N: Normalizer>(self, pre: Schematic, n: N) -> bool {
        &&& self.parts@.len() == pre.parts@.len()
        &&& forall|i: int|
            0 <= i < pre.parts@.len() ==> part_normalized(
                #[trigger] pre.parts@[i],
                #[trigger] self.parts@[i],
                n,
            )
        &&& self.components@.len() == pre.components@.len()
        &&& forall|i: int|
            0 <= i < pre.components@.len() ==> component_normalized(
                #[trigger] pre.components@[i],
                #[trigger] self.components@[i],
                n,
            )
        &&& self.nets@.len() == pre.nets@.len()
        &&& forall|i: int|
            0 <= i < pre.nets@.len() ==> net_normalized(
                #[trigger] pre.nets@[i],
                #[trigger] self.nets@[i],
                n,
            )
    }

    /// Applies a normalizer atomically across the whole graph: either
    /// every part, component, net and port signal is renamed, or nothing
    /// changes at all.
    #[verifier::loop_isolation(false)]
    #[verifier::rlimit(60)]
    pub fn normalize<N: Normalizer>(&mut self, normalizer: N) -> (r: Result<(), SchematicError>)
        requires
            old(self).wf(),
        ensures
            final(self).wf(),
            r is Ok <==> old(self).normalizable(normalizer),
            r is Err ==> *final(self) == *old(self),
            r matches Err(e) ==> (e matches SchematicError::NormalizationError(inner) && (inner
                is NameConflict || inner is InvalidName)),
            r matches Err(SchematicError::NormalizationError(NormalizationError::NameConflict(n)))
                ==> old(self).normalize_conflict_on(normalizer, n@),
            r matches Err(SchematicError::NormalizationError(NormalizationError::InvalidName(n)))
                ==> old(self).normalize_invalid_on(normalizer, n@),
            r is Ok ==> final(self).normalized_from(*old(self), normalizer),
    {
        // Map every component name first; a failing name or a collision
        // aborts before anything is mutated.
        let mut new_component_names: Vec<String> = Vec::new();
        let mut i: usize = 0;
        while i < self.components.len()
            invariant
                i <= self.components@.len(),
                *self == *old(self),
                new_component_names@.len() == i,
                forall|k: int|
                    0 <= k < i ==> Some((#[trigger] new_component_names@[k])@)
                        == normalizer.spec_component_name(self.components@[k].name@),
                forall|k: int, l: int|
                    0 <= k < l < i ==> (#[trigger] new_component_names@[k])@
                        != (#[trigger] new_component_names@[l])@,
            decreases self.components@.len() - i,
        {
            let name = match normalizer.normalize_component_name(self.components[i].name.as_str()) {
                Ok(v) => v,
                Err(e) => {
                    return Err(SchematicError::NormalizationError(e));
                },
            };
            if let Some(k) = find_string(&new_component_names, name.as_str()) {
                proof {
                    assert(normalizer.spec_component_name(self.components@[k as int].name@)
                        == normalizer.spec_component_name(self.components@[i as int].name@));
                }
                return Err(
                    SchematicError::NormalizationError(NormalizationError::NameConflict(name)),
                );
            }
            new_component_names.push(name);
            i = i + 1;
        }
        // Then every net name.
        let mut new_net_names: Vec<String> = Vec::new();
        let mut i: usize = 0;
        while i < self.nets.len()
            invariant
                i <= self.nets@.len(),
                *self == *old(self),
                new_net_names@.len() == i,
                forall|k: int|
                    0 <= k < i ==> Some((#[trigger] new_net_names@[k])@)
                        == normalizer.spec_net_name(self.nets@[k].name@),
                forall|k: int, l: int|
                    0 <= k < l < i ==> (#[trigger] new_net_names@[k])@
                        != (#[trigger] new_net_names@[l])@,
            decreases self.nets@.len() - i,
        {
            let name = match normalizer.normalize_net_name(self.nets[i].name.as_str()) {
                Ok(v) => v,
                Err(e) => {
                    return Err(SchematicError::NormalizationError(e));
                },
            };
            if let Some(k) = find_string(&new_net_names, name.as_str()) {
                proof {
                    assert(normalizer.spec_net_name(self.nets@[k as int].name@)
                        == normalizer.spec_net_name(self.nets@[i as int].name@));
                }
                return Err(
                    SchematicError::NormalizationError(NormalizationError::NameConflict(name)),
                );
            }
            new_net_names.push(name);
            i = i + 1;
        }
        // Then every part name.
        let mut new_part_names: Vec<String> = Vec::new();
        let mut i: usize = 0;
        while i < self.parts.len()
            invariant
                i <= self.parts@.len(),
                *self == *old(self),
                new_part_names@.len() == i,
                forall|k: int|
                    0 <= k < i ==> Some((#[trigger] new_part_names@[k])@)
                        == normalizer.spec_part_name(self.parts@[k].name@),
                forall|k: int, l: int|
                    0 <= k < l < i ==> (#[trigger] new_part_names@[k])@
                        != (#[trigger] new_part_names@[l])@,
            decreases self.parts@.len() - i,
        {
            let name = match normalizer.normalize_part_name(self.parts[i].name.as_str()) {
                Ok(v) => v,
                Err(e) => {
                    return Err(SchematicError::NormalizationError(e));
                },
            };
            if let Some(k) = find_string(&new_part_names, name.as_str()) {
                proof {
                    assert(normalizer.spec_part_name(self.parts@[k as int].name@)
                        == normalizer.spec_part_name(self.parts@[i as int].name@));
                }
                return Err(
                    SchematicError::NormalizationError(NormalizationError::NameConflict(name)),
                );
            }
            new_part_names.push(name);
            i = i + 1;
        }
        // Then every port signal of every part.
        let mut new_signals: Vec<Vec<String>> = Vec::new();
        let mut i: usize = 0;
        while i < self.parts.len()
            invariant
                i <= self.parts@.len(),
                *self == *old(self),
                new_signals@.len() == i,
                forall|k: int|
                    0 <= k < i ==> (#[trigger] new_signals@[k])@.len()
                        == self.parts@[k].ports@.len(),
                forall|k: int, l: int|
                    0 <= k < i && 0 <= l < self.parts@[k].ports@.len() ==> Some(
                        (#[trigger] new_signals@[k]@[l])@,
                    ) == normalizer.spec_port_name(
                        self.parts@[k].ports@[l].terminal_identifier@,
                        self.parts@[k].ports@[l].signal@,
                    ),
            decreases self.parts@.len() - i,
        {
            let part = &self.parts[i];
            let mut signals: Vec<String> = Vec::new();
            let mut k: usize = 0;
            while k < part.ports.len()
                invariant
                    k <= part.ports@.len(),
                    signals@.len() == k,
                    forall|l: int|
                        0 <= l < k ==> Some((#[trigger] signals@[l])@)
                            == normalizer.spec_port_name(
                            part.ports@[l].terminal_identifier@,
                            part.ports@[l].signal@,
                        ),
                decreases part.ports@.len() - k,
            {
                let name = match normalizer.normalize_port_name(
                    part.ports[k].terminal_identifier.as_str(),
                    part.ports[k].signal.as_str(),
                ) {
                    Ok(v) => v,
                    Err(e) => {
                        return Err(SchematicError::NormalizationError(e));
                    },
                };
                signals.push(name);
                k = k + 1;
            }
            new_signals.push(signals);
            i = i + 1;
        }
        // All maps are complete: apply the renaming.
        proof {
            assert forall|a: int|
                0 <= a < self.components@.len() implies normalizer.spec_component_name(
                (#[trigger] self.components@[a]).name@,
            ) is Some by {
                assert(Some(new_component_names@[a]@) == normalizer.spec_component_name(
                    self.components@[a].name@,
                ));
            }
            assert forall|a: int, b: int|
                0 <= a < b < self.components@.len() implies normalizer.spec_component_name(
                (#[trigger] self.components@[a]).name@,
            ) != normalizer.spec_component_name((#[trigger] self.components@[b]).name@) by {
                assert(Some(new_component_names@[a]@) == normalizer.spec_component_name(
                    self.components@[a].name@,
                ));
                assert(Some(new_component_names@[b]@) == normalizer.spec_component_name(
                    self.components@[b].name@,
                ));
                assert(new_component_names@[a]@ != new_component_names@[b]@);
            }
            assert forall|a: int|
                0 <= a < self.nets@.len() implies normalizer.spec_net_name(
                (#[trigger] self.nets@[a]).name@,
            ) is Some by {
                assert(Some(new_net_names@[a]@) == normalizer.spec_net_name(
                    self.nets@[a].name@,
                ));
            }
            assert forall|a: int, b: int|
                0 <= a < b < self.nets@.len() implies normalizer.spec_net_name(
                (#[trigger] self.nets@[a]).name@,
            ) != normalizer.spec_net_name((#[trigger] self.nets@[b]).name@) by {
                assert(Some(new_net_names@[a]@) == normalizer.spec_net_name(self.nets@[a].name@));
                assert(Some(new_net_names@[b]@) == normalizer.spec_net_name(self.nets@[b].name@));
                assert(new_net_names@[a]@ != new_net_names@[b]@);
            }
            assert forall|a: int|
                0 <= a < self.parts@.len() implies normalizer.spec_part_name(
                (#[trigger] self.parts@[a]).name@,
            ) is Some by {
                assert(Some(new_part_names@[a]@) == normalizer.spec_part_name(
                    self.parts@[a].name@,
                ));
            }
            assert forall|a: int, b: int|
                0 <= a < b < self.parts@.len() implies normalizer.spec_part_name(
                (#[trigger] self.parts@[a]).name@,
            ) != normalizer.spec_part_name((#[trigger] self.parts@[b]).name@) by {
                assert(Some(new_part_names@[a]@) == normalizer.spec_part_name(
                    self.parts@[a].name@,
                ));
                assert(Some(new_part_names@[b]@) == normalizer.spec_part_name(
                    self.parts@[b].name@,
                ));
                assert(new_part_names@[a]@ != new_part_names@[b]@);
            }
            assert forall|a: int, b: int|
                0 <= a < self.parts@.len() && 0 <= b < (#[trigger] self.parts@[a]).ports@.len()
                implies normalizer.spec_port_name(
                (#[trigger] self.parts@[a].ports@[b]).terminal_identifier@,
                self.parts@[a].ports@[b].signal@,
            ) is Some by {
                assert(Some(new_signals@[a]@[b]@) == normalizer.spec_port_name(
                    self.parts@[a].ports@[b].terminal_identifier@,
                    self.parts@[a].ports@[b].signal@,
                ));
            }
            assert(old(self).normalizable(normalizer));
        }
        let mut rebuilt_components: Vec<Component> = Vec::new();
        let mut i: usize = 0;
        while i < self.components.len()
            invariant
                i <= self.components@.len(),
                *self == *old(self),
                rebuilt_components@.len() == i,
                new_component_names@.len() == self.components@.len(),
                forall|k: int|
                    0 <= k < i ==> component_normalized(
                        #[trigger] self.components@[k],
                        #[trigger] rebuilt_components@[k],
                        normalizer,
                    ),
            decreases self.components@.len() - i,
        {
            let c = &self.components[i];
            rebuilt_components.push(
                Component {
                    name: new_component_names[i].clone(),
                    part: c.part,
                    metadata: crate::part::clone_metadata(&c.metadata),
                },
            );
            i = i + 1;
        }
        let mut rebuilt_nets: Vec<Net> = Vec::new();
        let mut i: usize = 0;
        while i < self.nets.len()
            invariant
                i <= self.nets@.len(),
                *self == *old(self),
                rebuilt_nets@.len() == i,
                new_net_names@.len() == self.nets@.len(),
                forall|k: int|
                    0 <= k < i ==> net_normalized(
                        #[trigger] self.nets@[k],
                        #[trigger] rebuilt_nets@[k],
                        normalizer,
                    ),
            decreases self.nets@.len() - i,
        {
            let net = &self.nets[i];
            let mut connections: Vec<(ComponentRef, PortRef)> = Vec::new();
            let mut k: usize = 0;
            while k < net.connections.len()
                invariant
                    k <= net.connections@.len(),
                    connections@ =~= net.connections@.take(k as int),
                decreases net.connections@.len() - k,
            {
                connections.push(net.connections[k]);
                proof {
                    assert(connections@ =~= net.connections@.take(k + 1));
                }
                k = k + 1;
            }
            proof {
                assert(net.connections@.take(net.connections@.len() as int) =~= net.connections@);
            }
            rebuilt_nets.push(
                Net { name: new_net_names[i].clone(), net_type: net.net_type, connections },
            );
            i = i + 1;
        }
        let mut rebuilt_parts: Vec<Part> = Vec::new();
        let mut i: usize = 0;
        while i < self.parts.len()
            invariant
                i <= self.parts@.len(),
                *self == *old(self),
                rebuilt_parts@.len() == i,
                new_part_names@.len() == self.parts@.len(),
                new_signals@.len() == self.parts@.len(),
                forall|k: int|
                    0 <= k < self.parts@.len() ==> (#[trigger] new_signals@[k])@.len()
                        == self.parts@[k].ports@.len(),
                forall|k: int, l: int|
                    0 <= k < self.parts@.len() && 0 <= l < self.parts@[k].ports@.len() ==> Some(
                        (#[trigger] new_signals@[k]@[l])@,
                    ) == normalizer.spec_port_name(
                        self.parts@[k].ports@[l].terminal_identifier@,
                        self.parts@[k].ports@[l].signal@,
                    ),
                forall|k: int|
                    0 <= k < i ==> part_normalized(
                        #[trigger] self.parts@[k],
                        #[trigger] rebuilt_parts@[k],
                        normalizer,
                    ),
            decreases self.parts@.len() - i,
        {
            let part = &self.parts[i];
            let signal_names = &new_signals[i];
            let mut ports: Vec<Port> = Vec::new();
            let mut k: usize = 0;
            while k < part.ports.len()
                invariant
                    k <= part.ports@.len(),
                    ports@.len() == k,
                    signal_names@.len() == part.ports@.len(),
                    forall|l: int|
                        0 <= l < k ==> (#[trigger] ports@[l]).terminal_identifier@
                            == part.ports@[l].terminal_identifier@ && ports@[l].signal
                            == signal_names@[l],
                decreases part.ports@.len() - k,
            {
                ports.push(
                    Port {
                        terminal_identifier: part.ports[k].terminal_identifier.clone(),
                        signal: signal_names[k].clone(),
                    },
                );
                k = k + 1;
            }
            rebuilt_parts.push(
                Part {
                    name: new_part_names[i].clone(),
                    ports,
                    metadata: crate::part::clone_metadata(&part.metadata),
                    datasheet_url: match &part.datasheet_url {
                        Some(u) => Some(u.clone()),
                        None => None,
                    },
                },
            );
            proof {
                assert(part_normalized(
                    self.parts@[i as int],
                    rebuilt_parts@[i as int],
                    normalizer,
                ));
            }
            i = i + 1;
        }
        self.parts = rebuilt_parts;
        self.components = rebuilt_components;
        self.nets = rebuilt_nets;
        proof {
            lemma_normalize_preserves_wf(*old(self), *self, normalizer);
        }
        Ok(())
    }
}

/// A renaming that keeps each namespace injective preserves
/// well-formedness.
proof fn lemma_normalize_preserves_wf<N: Normalizer>(pre: Schematic, post: Schematic, n: N)
    requires
        pre.wf(),
        pre.normalizable(n),
        post.normalized_from(pre, n),
    ensures
        post.wf(),
{
    assert forall|i: int, j: int| 0 <= i < j < post.parts@.len() implies (
    #[trigger] post.parts@[i]).name@ != (#[trigger] post.parts@[j]).name@ by {
        assert(part_normalized(pre.parts@[i], post.parts@[i], n));
        assert(part_normalized(pre.parts@[j], post.parts@[j], n));
    }
    assert forall|i: int| 0 <= i < post.parts@.len() implies (#[trigger] post.parts@[i]).wf() by {
        assert(part_normalized(pre.parts@[i], post.parts@[i], n));
        assert(pre.parts@[i].wf());
        assert(forall|k: int, l: int|
            0 <= k < l < post.parts@[i].ports@.len()
                ==> (#[trigger] post.parts@[i].ports@[k]).terminal_identifier@
                != (#[trigger] post.parts@[i].ports@[l]).terminal_identifier@);
    }
    assert forall|i: int, j: int| 0 <= i < j < post.components@.len() implies (
    #[trigger] post.components@[i]).name@ != (#[trigger] post.components@[j]).name@ by {
        assert(component_normalized(pre.components@[i], post.components@[i], n));
        assert(component_normalized(pre.components@[j], post.components@[j], n));
    }
    assert forall|i: int|
        0 <= i < post.components@.len() implies (#[trigger] post.components@[i]).part.idx
        < post.parts@.len() by {
        assert(component_normalized(pre.components@[i], post.components@[i], n));
    }
    assert forall|i: int, j: int| 0 <= i < j < post.nets@.len() implies (
    #[trigger] post.nets@[i]).name@ != (#[trigger] post.nets@[j]).name@ by {
        assert(net_normalized(pre.nets@[i], post.nets@[i], n));
        assert(net_normalized(pre.nets@[j], post.nets@[j], n));
    }
    assert forall|i: int| 0 <= i < post.nets@.len() implies post.net_wf(
        #[trigger] post.nets@[i],
    ) by {
        assert(net_normalized(pre.nets@[i], post.nets@[i], n));
        assert(pre.net_wf(pre.nets@[i]));
        assert forall|k: int|
            0 <= k < post.nets@[i].connections@.len() implies (
        #[trigger] post.nets@[i].connections@[k]).0.idx < post.components@.len()
            && post.nets@[i].connections@[k].1.idx
            < post.parts@[post.components@[post.nets@[i].connections@[k].0.idx as int].part.idx as int].ports@.len() by {
            let conn = post.nets@[i].connections@[k];
            assert(pre.nets@[i].connections@[k] == conn);
            assert(conn.0.idx < pre.components@.len());
            assert(component_normalized(
                pre.components@[conn.0.idx as int],
                post.components@[conn.0.idx as int],
                n,
            ));
            let pidx = pre.components@[conn.0.idx as int].part.idx;
            assert(part_normalized(pre.parts@[pidx as int], post.parts@[pidx as int], n));
        }
    }
}

/// Position of the first string equal to `s`, if any.
fn find_string(v: &Vec<String>, s: &str) -> (r: Option<usize>)
    ensures
        r matches Some(k) ==> k < v@.len() && (v@[k as int])@ == s@,
        r is None ==> forall|k: int| 0 <= k < v@.len() ==> (#[trigger] v@[k])@ != s@,
{
    let mut i: usize = 0;
    while i < v.len()
        invariant
            i <= v@.len(),
            forall|k: int| 0 <= k < i ==> (#[trigger] v@[k])@ != s@,
        decreases v@.len() - i,
    {
        if crate::strutil::str_eq(v[i].as_str(), s) {
            return Some(i);
        }
        i = i + 1;
    }
    None
}

} // verus!
