//! Building a schematic from the raw records that an external netlist
//! parser hands over: library parts, component instantiations, and nets.

use crate::component::ComponentBuilder;
use crate::net::NetBuilder;
use crate::part::PartBuilder;
use crate::schematic::{Schematic, SchematicError};
use vstd::prelude::*;

verus! {

/// A library part record: its name, its (pin number, pin name) pairs in
/// order, and free-form string fields.
pub struct RawPart {
    pub name: String,
    pub pins: Vec<(String, String)>,
    pub fields: Vec<(String, String)>,
}

/// A component record: its reference designator, the library part it
/// instantiates, and free-form properties.
pub struct RawComponent {
    pub reference: String,
    pub part: String,
    pub properties: Vec<(String, String)>,
}

/// A net record: its name and its (component reference, pin number)
/// nodes.
pub struct RawNet {
    pub name: String,
    pub nodes: Vec<(String, String)>,
}

/// Errors of schematic ingestion.
#[derive(Debug)]
pub enum SchematicImportError {
    SchematicError(SchematicError),
    InterpretationError(String),
}

/// The rendered text of an ingestion error.
pub open spec fn import_error_text(e: SchematicImportError) -> Seq<char> {
    match e {
        SchematicImportError::SchematicError(inner) => "Failed to build the schematic: "@
            + crate::schematic::schematic_error_text(inner),
        SchematicImportError::InterpretationError(m) => "Failed to interpret the netlist: "@
            + m@,
    }
}

impl SchematicImportError {
    /// The rendered error text.
    pub fn message(&self) -> (r: String)
        ensures
            r@ == import_error_text(*self),
    {
        let mut out = String::new();
        match self {
            SchematicImportError::SchematicError(e) => {
                out.append("Failed to build the schematic: ");
                let inner = e.message();
                out.append(inner.as_str());
            },
            SchematicImportError::InterpretationError(m) => {
                out.append("Failed to interpret the netlist: ");
                out.append(m.as_str());
            },
        }
        out
    }
}

/// `what` followed by the name that did not resolve.
fn not_found_message(what: &str, name: &str) -> (r: String)
    ensures
        r@ == what@ + name@ + " not found"@,
{
    let mut out = String::new();
    out.append(what);
    out.append(name);
    out.append(" not found");
    proof {
        assert(out@ =~= what@ + name@ + " not found"@);
    }
    out
}

/// A name the standard library already takes.
pub open spec fn stdlib_name(n: Seq<char>) -> bool {
    n == "Resistor"@ || n == "Capacitor"@
}

/// The part record's name collides with nothing registered before it.
pub open spec fn part_fresh(parts: Seq<RawPart>, i: int) -> bool {
    &&& !stdlib_name(parts[i].name@)
    &&& forall|k: int| 0 <= k < i ==> (#[trigger] parts[k]).name@ != parts[i].name@
}

/// The name resolves to a registered part: a seeded one or a record.
pub open spec fn known_part(parts: Seq<RawPart>, name: Seq<char>) -> bool {
    ||| stdlib_name(name)
    ||| exists|k: int| 0 <= k < parts.len() && (#[trigger] parts[k]).name@ == name
}

/// Some pin of the record carries this pin number.
pub open spec fn pin_of_record(p: RawPart, pin: Seq<char>) -> bool {
    exists|t: int| 0 <= t < p.pins@.len() && (#[trigger] p.pins@[t]).0@ == pin
}

/// The pin number resolves on the named part.
pub open spec fn pin_known(parts: Seq<RawPart>, name: Seq<char>, pin: Seq<char>) -> bool {
    if stdlib_name(name) {
        pin == "1"@ || pin == "2"@
    } else {
        exists|k: int|
            0 <= k < parts.len() && (#[trigger] parts[k]).name@ == name && pin_of_record(
                parts[k],
                pin,
            )
    }
}

/// The component record names a registered part and a fresh reference.
pub open spec fn comp_ok(parts: Seq<RawPart>, components: Seq<RawComponent>, i: int) -> bool {
    &&& known_part(parts, components[i].part@)
    &&& forall|k: int|
        0 <= k < i ==> (#[trigger] components[k]).reference@ != components[i].reference@
}

/// The node names a registered component and a pin of its part.
pub open spec fn node_ok(
    parts: Seq<RawPart>,
    components: Seq<RawComponent>,
    node: (String, String),
) -> bool {
    exists|c: int|
        0 <= c < components.len() && (#[trigger] components[c]).reference@ == node.0@
            && pin_known(parts, components[c].part@, node.1@)
}

/// The net record's name is fresh and all its nodes resolve.
pub open spec fn net_ok(
    parts: Seq<RawPart>,
    components: Seq<RawComponent>,
    nets: Seq<RawNet>,
    i: int,
) -> bool {
    &&& forall|k: int| 0 <= k < i ==> (#[trigger] nets[k]).name@ != nets[i].name@
    &&& forall|q: int|
        0 <= q < nets[i].nodes@.len() ==> node_ok(parts, components, nets[i].nodes@[q])
}

/// Every record resolves and no name collides: exactly the runs that
/// build a schematic.
pub open spec fn records_ok(
    parts: Seq<RawPart>,
    components: Seq<RawComponent>,
    nets: Seq<RawNet>,
) -> bool {
    &&& forall|i: int| 0 <= i < parts.len() ==> part_fresh(parts, i)
    &&& forall|i: int| 0 <= i < components.len() ==> comp_ok(parts, components, i)
    &&& forall|i: int| 0 <= i < nets.len() ==> net_ok(parts, components, nets, i)
}

/// The name `n` is rejected as a duplicate: it belongs to a part,
/// component or net record that collides with something registered
/// before it.
pub open spec fn duplicate_name(
    parts: Seq<RawPart>,
    components: Seq<RawComponent>,
    nets: Seq<RawNet>,
    n: Seq<char>,
) -> bool {
    ||| exists|i: int|
        0 <= i < parts.len() && (#[trigger] parts[i]).name@ == n && !part_fresh(parts, i)
    ||| exists|i: int|
        0 <= i < components.len() && (#[trigger] components[i]).reference@ == n && !comp_ok(
            parts,
            components,
            i,
        )
    ||| exists|i: int|
        0 <= i < nets.len() && (#[trigger] nets[i]).name@ == n && !net_ok(
            parts,
            components,
            nets,
            i,
        )
}

/// The message `m` names a reference that does not resolve: an unknown
/// part of some component record, or an unknown component or pin of some
/// net node.
pub open spec fn missing_reference_text(
    parts: Seq<RawPart>,
    components: Seq<RawComponent>,
    nets: Seq<RawNet>,
    m: Seq<char>,
) -> bool {
    ||| exists|i: int|
        0 <= i < components.len() && m == "Part "@ + (#[trigger] components[i]).part@
            + " not found"@ && !known_part(parts, components[i].part@)
    ||| exists|i: int, q: int|
        #![trigger nets[i].nodes@[q]]
        0 <= i < nets.len() && 0 <= q < nets[i].nodes@.len() && m == "Component "@
            + nets[i].nodes@[q].0@ + " not found"@ && !node_ok(
            parts,
            components,
            nets[i].nodes@[q],
        )
    ||| exists|i: int, q: int|
        #![trigger nets[i].nodes@[q]]
        0 <= i < nets.len() && 0 <= q < nets[i].nodes@.len() && m == "Port "@
            + nets[i].nodes@[q].1@ + " not found"@ && !node_ok(
            parts,
            components,
            nets[i].nodes@[q],
        )
}

/// What one net node resolves to inside the built schematic: the keys of
/// the named component and of the pin on its part.
pub open spec fn node_resolves_to(s: Schematic, node: (String, String), conn: (
    crate::component::ComponentRef,
    crate::part::PortRef,
)) -> bool {
    let ci = crate::schematic::find_component_idx(s.components@, node.0@);
    let pi = crate::part::find_port_idx(
        s.parts@[s.components@[ci].part.idx as int].ports@,
        node.1@,
    );
    &&& ci >= 0
    &&& pi >= 0
    &&& conn == (
        crate::component::ComponentRef { idx: ci as usize },
        crate::part::PortRef { idx: pi as usize },
    )
}

/// Builds a schematic from raw netlist records: registers the standard
/// library, one part per part record, one component per component record,
/// then one net per net record with all of its connections. Succeeds
/// exactly when no name collides and every reference resolves; fails with
/// a "not found" interpretation error when a component names an unknown
/// part, or a net node an unknown component or pin.
#[verifier::rlimit(100)]
pub fn schematic_from_records(
    parts: &Vec<RawPart>,
    components: &Vec<RawComponent>,
    nets: &Vec<RawNet>,
) -> (r: Result<Schematic, SchematicImportError>)
    ensures
        (r is Ok) == records_ok(parts@, components@, nets@),
        r matches Err(SchematicImportError::SchematicError(e)) ==> (e matches
            SchematicError::NameAlreadyExists(n) && duplicate_name(
            parts@,
            components@,
            nets@,
            n@,
        )),
        r matches Err(SchematicImportError::InterpretationError(m)) ==> missing_reference_text(
            parts@,
            components@,
            nets@,
            m@,
        ),
        r matches Ok(s) ==> {
            &&& s.wf()
            &&& s.parts@.len() == parts@.len() + 2
            &&& s.parts@[0].name@ == "Resistor"@
            &&& s.parts@[1].name@ == "Capacitor"@
            &&& forall|i: int|
                0 <= i < parts@.len() ==> (#[trigger] s.parts@[i + 2]).name@
                    == parts@[i].name@
            &&& forall|i: int, t: Seq<char>|
                #![trigger crate::part::has_port(s.parts@[i + 2].ports@, t)]
                0 <= i < parts@.len() ==> crate::part::has_port(s.parts@[i + 2].ports@, t)
                    == pin_of_record(parts@[i], t)
            &&& s.components@.len() == components@.len()
            &&& forall|i: int|
                0 <= i < components@.len() ==> (#[trigger] s.components@[i]).name@
                    == components@[i].reference@
            &&& forall|i: int|
                0 <= i < components@.len() ==> (#[trigger] s.components@[i]).part.idx
                    == crate::schematic::find_part_idx(s.parts@, components@[i].part@)
            &&& s.nets@.len() == nets@.len()
            &&& forall|i: int|
                0 <= i < nets@.len() ==> (#[trigger] s.nets@[i]).name@ == nets@[i].name@
            &&& forall|i: int,
                conn: (crate::component::ComponentRef, crate::part::PortRef)|
                #![trigger crate::net::conn_contains(s.nets@[i].connections@, conn)]
                0 <= i < nets@.len() ==> crate::net::conn_contains(
                    s.nets@[i].connections@,
                    conn,
                ) == exists|q: int|
                    0 <= q < nets@[i].nodes@.len() && node_resolves_to(
                        s,
                        #[trigger] nets@[i].nodes@[q],
                        conn,
                    )
        },
{
    let mut schematic = Schematic::new();
    match schematic.register_standard_library() {
        Ok(()) => (),
        Err(_) => {
            proof {
                assert(false);
            }
            return vstd::pervasive::unreached();
        },
    }
    proof {
        assert(schematic.parts@.len() == 2);
        reveal_strlit("Resistor");
        reveal_strlit("Capacitor");
        assert("Resistor"@ != "Capacitor"@) by {
            assert("Resistor"@.len() == 8);
            assert("Capacitor"@.len() == 9);
        }
        reveal_strlit("1");
        reveal_strlit("2");
        assert("1"@ != "2"@) by {
            assert("1"@[0] == '1');
            assert("2"@[0] == '2');
            assert('1' as u32 == 49);
            assert('2' as u32 == 50);
            if "1"@ == "2"@ {
                assert("1"@[0] == "2"@[0]);
            }
        }
    }
    // One part for each library part record.
    let mut i: usize = 0;
    while i < parts.len()
        invariant
            i <= parts@.len(),
            schematic.wf(),
            schematic.parts@.len() == i + 2,
            crate::standard_library::seeded_part(schematic.parts@[0], "Resistor"@),
            crate::standard_library::seeded_part(schematic.parts@[1], "Capacitor"@),
            "Resistor"@ != "Capacitor"@,
            "1"@ != "2"@,
            forall|k: int|
                0 <= k < i ==> (#[trigger] schematic.parts@[k + 2]).name@ == parts@[k].name@,
            forall|k: int| 0 <= k < i ==> part_fresh(parts@, k),
            forall|k: int, t: Seq<char>|
                #![trigger crate::part::has_port(schematic.parts@[k + 2].ports@, t)]
                0 <= k < i ==> crate::part::has_port(schematic.parts@[k + 2].ports@, t)
                    == pin_of_record(parts@[k], t),
            schematic.components@.len() == 0,
            schematic.nets@.len() == 0,
        decreases parts@.len() - i,
    {
        let raw = &parts[i];
        let mut builder = PartBuilder::default();
        builder.name(raw.name.clone());
        let mut kp: usize = 0;
        while kp < raw.pins.len()
            invariant
                kp <= raw.pins@.len(),
                builder.name == Some(raw.name),
                builder.wf(),
                builder.metadata@.len() == 0,
                builder.datasheet_url is None,
                forall|t: Seq<char>|
                    crate::part::has_port(builder.ports@, t) == exists|tq: int|
                        0 <= tq < kp && (#[trigger] raw.pins@[tq]).0@ == t,
            decreases raw.pins@.len() - kp,
        {
            let ghost before = builder.ports@;
            builder.port(raw.pins[kp].0.as_str(), raw.pins[kp].1.as_str());
            proof {
                let tid = raw.pins@[kp as int].0@;
                crate::part::lemma_find_port_idx_bounds(before, tid);
                assert forall|t: Seq<char>|
                    crate::part::has_port(builder.ports@, t) == exists|tq: int|
                        0 <= tq < kp + 1 && (#[trigger] raw.pins@[tq]).0@ == t by {
                    let j = crate::part::find_port_idx(before, tid);
                    if crate::part::has_port(builder.ports@, t) {
                        let w = choose|w: int|
                            0 <= w < builder.ports@.len() && (#[trigger] builder.ports@[w]).terminal_identifier@
                                == t;
                        if j >= 0 {
                            if w == j {
                                assert(raw.pins@[kp as int].0@ == t);
                            } else {
                                assert(builder.ports@[w] == before[w]);
                                assert(crate::part::has_port(before, t));
                            }
                        } else {
                            if w == before.len() {
                                assert(raw.pins@[kp as int].0@ == t);
                            } else {
                                assert(builder.ports@[w] == before[w]);
                                assert(crate::part::has_port(before, t));
                            }
                        }
                    }
                    if exists|tq: int| 0 <= tq < kp + 1 && (#[trigger] raw.pins@[tq]).0@ == t {
                        let tq = choose|tq: int|
                            0 <= tq < kp + 1 && (#[trigger] raw.pins@[tq]).0@ == t;
                        if tq < kp {
                            assert(crate::part::has_port(before, t));
                            let w = choose|w: int|
                                0 <= w < before.len() && (#[trigger] before[w]).terminal_identifier@
                                    == t;
                            if j >= 0 && w == j {
                                assert(builder.ports@[j].terminal_identifier@ == tid);
                                assert(tid == t);
                                assert(crate::part::has_port(builder.ports@, t));
                            } else {
                                assert(builder.ports@[w] == before[w]);
                                assert(crate::part::has_port(builder.ports@, t));
                            }
                        } else {
                            if j >= 0 {
                                assert(builder.ports@[j].terminal_identifier@ == t);
                                assert(crate::part::has_port(builder.ports@, t));
                            } else {
                                assert(builder.ports@.last().terminal_identifier@ == t);
                                assert(builder.ports@[builder.ports@.len()
                                    - 1].terminal_identifier@ == t);
                                assert(crate::part::has_port(builder.ports@, t));
                            }
                        }
                    }
                }
            }
            kp = kp + 1;
        }
        let mut kf: usize = 0;
        while kf < raw.fields.len()
            invariant
                builder.name == Some(raw.name),
                builder.wf(),
                builder.datasheet_url is None,
                forall|t: Seq<char>|
                    crate::part::has_port(builder.ports@, t) == pin_of_record(
                        parts@[i as int],
                        t,
                    ),
            decreases raw.fields@.len() - kf,
        {
            builder.metadata(raw.fields[kf].0.as_str(), raw.fields[kf].1.as_str());
            kf = kf + 1;
        }
        let part = match builder.build() {
            Ok(p) => p,
            Err(_) => {
                proof {
                    assert(false);
                }
                return vstd::pervasive::unreached();
            },
        };
        let ghost pre = schematic;
        match schematic.add_part(part) {
            Ok(_) => (),
            Err(_) => {
                proof {
                    assert(crate::schematic::has_part(pre.parts@, parts@[i as int].name@));
                    let w = choose|w: int|
                        0 <= w < pre.parts@.len() && (#[trigger] pre.parts@[w]).name@
                            == parts@[i as int].name@;
                    if w >= 2 {
                        assert(pre.parts@[w] == pre.parts@[w - 2 + 2]);
                        assert(pre.parts@[w].name@ == parts@[w - 2].name@);
                    }
                    assert(!part_fresh(parts@, i as int));
                }
                return Err(
                    SchematicImportError::SchematicError(
                        SchematicError::NameAlreadyExists(raw.name.clone()),
                    ),
                );
            },
        }
        proof {
            assert(part_fresh(parts@, i as int)) by {
                assert(!crate::schematic::has_part(pre.parts@, parts@[i as int].name@));
                if stdlib_name(parts@[i as int].name@) {
                    assert(pre.parts@[0].name@ == "Resistor"@);
                    assert(pre.parts@[1].name@ == "Capacitor"@);
                    assert(crate::schematic::has_part(pre.parts@, parts@[i as int].name@));
                }
                assert forall|k: int|
                    0 <= k < i implies (#[trigger] parts@[k]).name@ != parts@[i as int].name@ by {
                    if parts@[k].name@ == parts@[i as int].name@ {
                        assert(pre.parts@[k + 2].name@ == parts@[k].name@);
                        assert(crate::schematic::has_part(pre.parts@, parts@[i as int].name@));
                    }
                }
            }
        }
        i = i + 1;
    }
    // One component for each component record.
    let mut i: usize = 0;
    while i < components.len()
        invariant
            i <= components@.len(),
            schematic.wf(),
            schematic.parts@.len() == parts@.len() + 2,
            crate::standard_library::seeded_part(schematic.parts@[0], "Resistor"@),
            crate::standard_library::seeded_part(schematic.parts@[1], "Capacitor"@),
            "Resistor"@ != "Capacitor"@,
            "1"@ != "2"@,
            forall|k: int|
                0 <= k < parts@.len() ==> (#[trigger] schematic.parts@[k + 2]).name@
                    == parts@[k].name@,
            forall|k: int| 0 <= k < parts@.len() ==> part_fresh(parts@, k),
            forall|k: int, t: Seq<char>|
                #![trigger crate::part::has_port(schematic.parts@[k + 2].ports@, t)]
                0 <= k < parts@.len() ==> crate::part::has_port(
                    schematic.parts@[k + 2].ports@,
                    t,
                ) == pin_of_record(parts@[k], t),
            schematic.components@.len() == i,
            forall|k: int|
                0 <= k < i ==> (#[trigger] schematic.components@[k]).name@
                    == components@[k].reference@,
            forall|k: int|
                0 <= k < i ==> (#[trigger] schematic.components@[k]).part.idx
                    == crate::schematic::find_part_idx(schematic.parts@, components@[k].part@),
            forall|k: int| 0 <= k < i ==> comp_ok(parts@, components@, k),
            schematic.nets@.len() == 0,
        decreases components@.len() - i,
    {
        let raw = &components[i];
        let part_ref = match schematic.get_part(raw.part.as_str()) {
            Some(p) => p,
            None => {
                proof {
                    assert(!known_part(parts@, components@[i as int].part@)) by {
                        if stdlib_name(components@[i as int].part@) {
                            assert(crate::schematic::has_part(
                                schematic.parts@,
                                components@[i as int].part@,
                            ));
                        }
                        if exists|k: int|
                            0 <= k < parts@.len() && (#[trigger] parts@[k]).name@
                                == components@[i as int].part@ {
                            let k = choose|k: int|
                                0 <= k < parts@.len() && (#[trigger] parts@[k]).name@
                                    == components@[i as int].part@;
                            assert(schematic.parts@[k + 2].name@ == components@[i as int].part@);
                            assert(crate::schematic::has_part(
                                schematic.parts@,
                                components@[i as int].part@,
                            ));
                        }
                    }
                    assert(!comp_ok(parts@, components@, i as int));
                }
                return Err(
                    SchematicImportError::InterpretationError(
                        not_found_message("Part ", raw.part.as_str()),
                    ),
                );
            },
        };
        let mut builder = ComponentBuilder::default();
        builder.name(raw.reference.clone());
        builder.part(part_ref);
        let mut kf: usize = 0;
        while kf < raw.properties.len()
            invariant
                builder.name == Some(raw.reference),
                builder.part == Some(part_ref),
                part_ref.idx < schematic.parts@.len(),
            decreases raw.properties@.len() - kf,
        {
            builder.metadata(raw.properties[kf].0.as_str(), raw.properties[kf].1.as_str());
            kf = kf + 1;
        }
        let component = match builder.build() {
            Ok(c) => c,
            Err(_) => {
                proof {
                    assert(false);
                }
                return vstd::pervasive::unreached();
            },
        };
        let ghost pre = schematic;
        match schematic.add_component(component) {
            Ok(_) => (),
            Err(_) => {
                proof {
                    assert(crate::schematic::has_component(
                        pre.components@,
                        components@[i as int].reference@,
                    ));
                    let w = choose|w: int|
                        0 <= w < pre.components@.len() && (#[trigger] pre.components@[w]).name@
                            == components@[i as int].reference@;
                    assert(components@[w].reference@ == components@[i as int].reference@);
                    assert(!comp_ok(parts@, components@, i as int));
                }
                return Err(
                    SchematicImportError::SchematicError(
                        SchematicError::NameAlreadyExists(raw.reference.clone()),
                    ),
                );
            },
        }
        proof {
            assert(known_part(parts@, components@[i as int].part@)) by {
                let w = crate::schematic::find_part_idx(pre.parts@, components@[i as int].part@);
                crate::schematic::lemma_find_part_idx_bounds_helper(
                    pre.parts@,
                    components@[i as int].part@,
                );
                if w >= 2 {
                    assert(pre.parts@[w] == pre.parts@[w - 2 + 2]);
                    assert(pre.parts@[w].name@ == parts@[w - 2].name@);
                }
            }
            assert(comp_ok(parts@, components@, i as int)) by {
                assert forall|k: int|
                    0 <= k < i implies (#[trigger] components@[k]).reference@
                    != components@[i as int].reference@ by {
                    if components@[k].reference@ == components@[i as int].reference@ {
                        assert(pre.components@[k].name@ == components@[k].reference@);
                        assert(crate::schematic::has_component(
                            pre.components@,
                            components@[i as int].reference@,
                        ));
                    }
                }
            }
        }
        i = i + 1;
    }
    // One net for each net record, then its connections.
    let mut i: usize = 0;
    while i < nets.len()
        invariant
            i <= nets@.len(),
            schematic.wf(),
            schematic.parts@.len() == parts@.len() + 2,
            crate::standard_library::seeded_part(schematic.parts@[0], "Resistor"@),
            crate::standard_library::seeded_part(schematic.parts@[1], "Capacitor"@),
            "Resistor"@ != "Capacitor"@,
            "1"@ != "2"@,
            forall|k: int|
                0 <= k < parts@.len() ==> (#[trigger] schematic.parts@[k + 2]).name@
                    == parts@[k].name@,
            forall|k: int| 0 <= k < parts@.len() ==> part_fresh(parts@, k),
            forall|k: int, t: Seq<char>|
                #![trigger crate::part::has_port(schematic.parts@[k + 2].ports@, t)]
                0 <= k < parts@.len() ==> crate::part::has_port(
                    schematic.parts@[k + 2].ports@,
                    t,
                ) == pin_of_record(parts@[k], t),
            schematic.components@.len() == components@.len(),
            forall|k: int|
                0 <= k < components@.len() ==> (#[trigger] schematic.components@[k]).name@
                    == components@[k].reference@,
            forall|k: int|
                0 <= k < components@.len() ==> (#[trigger] schematic.components@[k]).part.idx
                    == crate::schematic::find_part_idx(schematic.parts@, components@[k].part@),
            forall|k: int| 0 <= k < components@.len() ==> comp_ok(parts@, components@, k),
            schematic.nets@.len() == i,
            forall|k: int| 0 <= k < i ==> (#[trigger] schematic.nets@[k]).name@ == nets@[k].name@,
            forall|k: int| 0 <= k < i ==> net_ok(parts@, components@, nets@, k),
            forall|k: int, conn: (crate::component::ComponentRef, crate::part::PortRef)|
                #![trigger crate::net::conn_contains(schematic.nets@[k].connections@, conn)]
                0 <= k < i ==> crate::net::conn_contains(
                    schematic.nets@[k].connections@,
                    conn,
                ) == exists|q: int|
                    0 <= q < nets@[k].nodes@.len() && node_resolves_to(
                        schematic,
                        #[trigger] nets@[k].nodes@[q],
                        conn,
                    ),
        decreases nets@.len() - i,
    {
        let raw = &nets[i];
        let mut nb = NetBuilder::default();
        nb.name(raw.name.clone());
        let net = match nb.build() {
            Ok(n) => n,
            Err(_) => {
                proof {
                    assert(false);
                }
                return vstd::pervasive::unreached();
            },
        };
        let ghost pre = schematic;
        match schematic.add_net(net) {
            Ok(_) => (),
            Err(_) => {
                proof {
                    assert(crate::schematic::has_net(pre.nets@, nets@[i as int].name@));
                    let w = choose|w: int|
                        0 <= w < pre.nets@.len() && (#[trigger] pre.nets@[w]).name@
                            == nets@[i as int].name@;
                    assert(nets@[w].name@ == nets@[i as int].name@);
                    assert(!net_ok(parts@, components@, nets@, i as int));
                }
                return Err(
                    SchematicImportError::SchematicError(
                        SchematicError::NameAlreadyExists(raw.name.clone()),
                    ),
                );
            },
        }
        proof {
            assert forall|k: int|
                0 <= k < i implies (#[trigger] nets@[k]).name@ != nets@[i as int].name@ by {
                if nets@[k].name@ == nets@[i as int].name@ {
                    assert(pre.nets@[k].name@ == nets@[k].name@);
                    assert(crate::schematic::has_net(pre.nets@, nets@[i as int].name@));
                }
            }
        }
        let mut q: usize = 0;
        while q < raw.nodes.len()
            invariant
                q <= raw.nodes@.len(),
                i < nets@.len(),
                raw.nodes@ == nets@[i as int].nodes@,
                raw.name@ == nets@[i as int].name@,
                raw.name == nets@[i as int].name,
                schematic.wf(),
                schematic.parts@.len() == parts@.len() + 2,
                crate::standard_library::seeded_part(schematic.parts@[0], "Resistor"@),
                crate::standard_library::seeded_part(schematic.parts@[1], "Capacitor"@),
                "Resistor"@ != "Capacitor"@,
                "1"@ != "2"@,
                forall|l: int|
                    0 <= l < parts@.len() ==> (#[trigger] schematic.parts@[l + 2]).name@
                        == parts@[l].name@,
                forall|l: int| 0 <= l < parts@.len() ==> part_fresh(parts@, l),
                forall|l: int, t: Seq<char>|
                    #![trigger crate::part::has_port(schematic.parts@[l + 2].ports@, t)]
                    0 <= l < parts@.len() ==> crate::part::has_port(
                        schematic.parts@[l + 2].ports@,
                        t,
                    ) == pin_of_record(parts@[l], t),
                schematic.components@.len() == components@.len(),
                forall|l: int|
                    0 <= l < components@.len() ==> (#[trigger] schematic.components@[l]).name@
                        == components@[l].reference@,
                forall|l: int|
                    0 <= l < components@.len() ==> (#[trigger] schematic.components@[l]).part.idx
                        == crate::schematic::find_part_idx(
                        schematic.parts@,
                        components@[l].part@,
                    ),
                forall|l: int| 0 <= l < components@.len() ==> comp_ok(parts@, components@, l),
                forall|l: int| 0 <= l < i ==> (#[trigger] nets@[l]).name@ != nets@[i as int].name@,
                schematic.nets@.len() == i + 1,
                forall|l: int|
                    0 <= l < i + 1 ==> (#[trigger] schematic.nets@[l]).name@ == (if l < i {
                        nets@[l].name@
                    } else {
                        nets@[i as int].name@
                    }),
                forall|l: int, conn: (crate::component::ComponentRef, crate::part::PortRef)|
                    #![trigger crate::net::conn_contains(schematic.nets@[l].connections@, conn)]
                    0 <= l < i ==> crate::net::conn_contains(
                        schematic.nets@[l].connections@,
                        conn,
                    ) == exists|q2: int|
                        0 <= q2 < nets@[l].nodes@.len() && node_resolves_to(
                            schematic,
                            #[trigger] nets@[l].nodes@[q2],
                            conn,
                        ),
                forall|q2: int| 0 <= q2 < q ==> node_ok(parts@, components@, raw.nodes@[q2]),
                forall|conn: (crate::component::ComponentRef, crate::part::PortRef)|
                    #![trigger crate::net::conn_contains(
                        schematic.nets@[i as int].connections@,
                        conn,
                    )]
                    crate::net::conn_contains(
                        schematic.nets@[i as int].connections@,
                        conn,
                    ) == exists|q2: int|
                        0 <= q2 < q && node_resolves_to(
                            schematic,
                            #[trigger] nets@[i as int].nodes@[q2],
                            conn,
                        ),
            decreases raw.nodes@.len() - q,
        {
            let node_ref = raw.nodes[q].0.as_str();
            let node_pin = raw.nodes[q].1.as_str();
            let component = match schematic.get_component(node_ref) {
                Some(c) => c,
                None => {
                    proof {
                        let node = nets@[i as int].nodes@[q as int];
                        assert(node_ref@ == node.0@);
                        assert forall|c: int|
                            0 <= c < components@.len() implies (
                        #[trigger] components@[c]).reference@ != node.0@ by {
                            if components@[c].reference@ == node.0@ {
                                assert(schematic.components@[c].name@
                                    == components@[c].reference@);
                                assert(crate::schematic::has_component(
                                    schematic.components@,
                                    node.0@,
                                ));
                            }
                        }
                        assert(!node_ok(parts@, components@, node));
                        assert(!net_ok(parts@, components@, nets@, i as int));
                    }
                    return Err(
                        SchematicImportError::InterpretationError(
                            not_found_message("Component ", node_ref),
                        ),
                    );
                },
            };
            let part_idx = schematic.component_at(component).part;
            let port = match schematic.part_at(part_idx).get_port(node_pin) {
                Some(p) => p,
                None => {
                    proof {
                        let node = nets@[i as int].nodes@[q as int];
                        assert(node_ref@ == node.0@);
                        assert(node_pin@ == node.1@);
                        lemma_pin_unknown(
                            schematic,
                            parts@,
                            components@,
                            component.idx as int,
                            node.1@,
                        );
                        assert forall|c: int|
                            0 <= c < components@.len() implies !((
                        #[trigger] components@[c]).reference@ == node.0@ && pin_known(
                            parts@,
                            components@[c].part@,
                            node.1@,
                        )) by {
                            if components@[c].reference@ == node.0@ {
                                assert(schematic.components@[c].name@
                                    == components@[c].reference@);
                                crate::schematic::lemma_find_component_idx_of_unique(
                                    schematic.components@,
                                    node.0@,
                                    c,
                                );
                                assert(c == component.idx as int);
                            }
                        }
                        assert(!node_ok(parts@, components@, node));
                        assert(!net_ok(parts@, components@, nets@, i as int));
                    }
                    return Err(
                        SchematicImportError::InterpretationError(
                            not_found_message("Port ", node_pin),
                        ),
                    );
                },
            };
            let ghost mid = schematic;
            match schematic.connect(raw.name.as_str(), node_ref, node_pin) {
                Ok(()) => (),
                Err(_) => {
                    proof {
                        crate::schematic::lemma_find_net_idx_positive(
                            mid.nets@,
                            nets@[i as int].name@,
                            i as int,
                        );
                        assert(false);
                    }
                    return vstd::pervasive::unreached();
                },
            }
            proof {
                let node = nets@[i as int].nodes@[q as int];
                assert forall|l: int|
                    0 <= l < i implies (#[trigger] mid.nets@[l]).name@ != nets@[i as int].name@
                    by {
                    assert(mid.nets@[l].name@ == nets@[l].name@);
                }
                crate::schematic::lemma_find_net_idx_of(
                    mid.nets@,
                    nets@[i as int].name@,
                    i as int,
                );
                let ci = crate::schematic::find_component_idx(mid.components@, node.0@);
                assert(ci == component.idx as int);
                assert forall|l: int, conn: (
                    crate::component::ComponentRef,
                    crate::part::PortRef,
                )|
                    #![trigger crate::net::conn_contains(schematic.nets@[l].connections@, conn)]
                    0 <= l < i implies crate::net::conn_contains(
                    schematic.nets@[l].connections@,
                    conn,
                ) == exists|q2: int|
                    0 <= q2 < nets@[l].nodes@.len() && node_resolves_to(
                        schematic,
                        #[trigger] nets@[l].nodes@[q2],
                        conn,
                    ) by {
                    assert(schematic.nets@[l] == mid.nets@[l]);
                    if crate::net::conn_contains(mid.nets@[l].connections@, conn) {
                        let q2 = choose|q2: int|
                            0 <= q2 < nets@[l].nodes@.len() && node_resolves_to(
                                mid,
                                #[trigger] nets@[l].nodes@[q2],
                                conn,
                            );
                        assert(node_resolves_to(schematic, nets@[l].nodes@[q2], conn));
                    }
                    if exists|q2: int|
                        0 <= q2 < nets@[l].nodes@.len() && node_resolves_to(
                            schematic,
                            #[trigger] nets@[l].nodes@[q2],
                            conn,
                        ) {
                        let q2 = choose|q2: int|
                            0 <= q2 < nets@[l].nodes@.len() && node_resolves_to(
                                schematic,
                                #[trigger] nets@[l].nodes@[q2],
                                conn,
                            );
                        assert(node_resolves_to(mid, nets@[l].nodes@[q2], conn));
                        assert(crate::net::conn_contains(mid.nets@[l].connections@, conn));
                    }
                }
                assert(node_ok(parts@, components@, node)) by {
                    lemma_pin_known(
                        schematic,
                        parts@,
                        components@,
                        component.idx as int,
                        node.1@,
                    );
                }
                assert forall|conn: (crate::component::ComponentRef, crate::part::PortRef)|
                    crate::net::conn_contains(
                        schematic.nets@[i as int].connections@,
                        conn,
                    ) == exists|q2: int|
                        0 <= q2 < q + 1 && node_resolves_to(
                            schematic,
                            #[trigger] nets@[i as int].nodes@[q2],
                            conn,
                        ) by {
                    let pi = crate::part::find_port_idx(
                        mid.parts@[mid.components@[ci].part.idx as int].ports@,
                        node.1@,
                    );
                    let new_conn = (
                        crate::component::ComponentRef { idx: ci as usize },
                        crate::part::PortRef { idx: pi as usize },
                    );
                    assert(node_resolves_to(schematic, node, new_conn));
                    if crate::net::conn_contains(
                        schematic.nets@[i as int].connections@,
                        conn,
                    ) {
                        if crate::net::conn_contains(mid.nets@[i as int].connections@, conn) {
                            let q2 = choose|q2: int|
                                0 <= q2 < q && node_resolves_to(
                                    mid,
                                    #[trigger] nets@[i as int].nodes@[q2],
                                    conn,
                                );
                            assert(node_resolves_to(schematic, nets@[i as int].nodes@[q2], conn));
                        } else {
                            assert(conn == new_conn);
                        }
                    }
                    if exists|q2: int|
                        0 <= q2 < q + 1 && node_resolves_to(
                            schematic,
                            #[trigger] nets@[i as int].nodes@[q2],
                            conn,
                        ) {
                        let q2 = choose|q2: int|
                            0 <= q2 < q + 1 && node_resolves_to(
                                schematic,
                                #[trigger] nets@[i as int].nodes@[q2],
                                conn,
                            );
                        if q2 < q {
                            assert(node_resolves_to(mid, nets@[i as int].nodes@[q2], conn));
                            assert(crate::net::conn_contains(
                                mid.nets@[i as int].connections@,
                                conn,
                            ));
                            let w = choose|w: int|
                                0 <= w < mid.nets@[i as int].connections@.len()
                                    && #[trigger] mid.nets@[i as int].connections@[w] == conn;
                            assert(schematic.nets@[i as int].connections@[w] == conn);
                            assert(crate::net::conn_contains(
                                schematic.nets@[i as int].connections@,
                                conn,
                            ));
                        } else {
                            assert(conn == new_conn);
                            if crate::net::conn_contains(
                                mid.nets@[i as int].connections@,
                                new_conn,
                            ) {
                                let w = choose|w: int|
                                    0 <= w < mid.nets@[i as int].connections@.len()
                                        && #[trigger] mid.nets@[i as int].connections@[w]
                                        == new_conn;
                                assert(schematic.nets@[i as int].connections@[w] == new_conn);
                            } else {
                                assert(schematic.nets@[i as int].connections@.last()
                                    == new_conn);
                                assert(schematic.nets@[i as int].connections@[schematic.nets@[i as int].connections@.len()
                                    - 1] == new_conn);
                            }
                            assert(crate::net::conn_contains(
                                schematic.nets@[i as int].connections@,
                                conn,
                            ));
                        }
                    }
                }
            }
            q = q + 1;
        }
        proof {
            assert(net_ok(parts@, components@, nets@, i as int));
        }
        i = i + 1;
    }
    proof {
        assert(records_ok(parts@, components@, nets@));
    }
    Ok(schematic)
}

/// A pin that the part scan misses is on no record of that part's name.
proof fn lemma_pin_unknown(
    s: Schematic,
    parts: Seq<RawPart>,
    components: Seq<RawComponent>,
    ci: int,
    pin: Seq<char>,
)
    requires
        s.wf(),
        s.parts@.len() == parts.len() + 2,
        crate::standard_library::seeded_part(s.parts@[0], "Resistor"@),
        crate::standard_library::seeded_part(s.parts@[1], "Capacitor"@),
        "Resistor"@ != "Capacitor"@,
        "1"@ != "2"@,
        forall|k: int| 0 <= k < parts.len() ==> (#[trigger] s.parts@[k + 2]).name@ == parts[k].name@,
        forall|k: int| 0 <= k < parts.len() ==> part_fresh(parts, k),
        forall|k: int, t: Seq<char>|
            #![trigger crate::part::has_port(s.parts@[k + 2].ports@, t)]
            0 <= k < parts.len() ==> crate::part::has_port(s.parts@[k + 2].ports@, t)
                == pin_of_record(parts[k], t),
        s.components@.len() == components.len(),
        0 <= ci < components.len(),
        s.components@[ci].part.idx == crate::schematic::find_part_idx(
            s.parts@,
            components[ci].part@,
        ),
        !crate::part::has_port(s.parts@[s.components@[ci].part.idx as int].ports@, pin),
    ensures
        !pin_known(parts, components[ci].part@, pin),
{
    lemma_pin_resolution(s, parts, components, ci, pin);
}

/// A pin that the part scan finds is on a record of that part's name.
proof fn lemma_pin_known(
    s: Schematic,
    parts: Seq<RawPart>,
    components: Seq<RawComponent>,
    ci: int,
    pin: Seq<char>,
)
    requires
        s.wf(),
        s.parts@.len() == parts.len() + 2,
        crate::standard_library::seeded_part(s.parts@[0], "Resistor"@),
        crate::standard_library::seeded_part(s.parts@[1], "Capacitor"@),
        "Resistor"@ != "Capacitor"@,
        "1"@ != "2"@,
        forall|k: int| 0 <= k < parts.len() ==> (#[trigger] s.parts@[k + 2]).name@ == parts[k].name@,
        forall|k: int| 0 <= k < parts.len() ==> part_fresh(parts, k),
        forall|k: int, t: Seq<char>|
            #![trigger crate::part::has_port(s.parts@[k + 2].ports@, t)]
            0 <= k < parts.len() ==> crate::part::has_port(s.parts@[k + 2].ports@, t)
                == pin_of_record(parts[k], t),
        s.components@.len() == components.len(),
        0 <= ci < components.len(),
        s.components@[ci].part.idx == crate::schematic::find_part_idx(
            s.parts@,
            components[ci].part@,
        ),
        crate::part::has_port(s.parts@[s.components@[ci].part.idx as int].ports@, pin),
    ensures
        pin_known(parts, components[ci].part@, pin),
{
    lemma_pin_resolution(s, parts, components, ci, pin);
}

/// Pin resolution on the built part agrees with `pin_known` over the
/// records.
proof fn lemma_pin_resolution(
    s: Schematic,
    parts: Seq<RawPart>,
    components: Seq<RawComponent>,
    ci: int,
    pin: Seq<char>,
)
    requires
        s.wf(),
        s.parts@.len() == parts.len() + 2,
        crate::standard_library::seeded_part(s.parts@[0], "Resistor"@),
        crate::standard_library::seeded_part(s.parts@[1], "Capacitor"@),
        "Resistor"@ != "Capacitor"@,
        "1"@ != "2"@,
        forall|k: int| 0 <= k < parts.len() ==> (#[trigger] s.parts@[k + 2]).name@ == parts[k].name@,
        forall|k: int| 0 <= k < parts.len() ==> part_fresh(parts, k),
        forall|k: int, t: Seq<char>|
            #![trigger crate::part::has_port(s.parts@[k + 2].ports@, t)]
            0 <= k < parts.len() ==> crate::part::has_port(s.parts@[k + 2].ports@, t)
                == pin_of_record(parts[k], t),
        s.components@.len() == components.len(),
        0 <= ci < components.len(),
        s.components@[ci].part.idx == crate::schematic::find_part_idx(
            s.parts@,
            components[ci].part@,
        ),
    ensures
        crate::part::has_port(s.parts@[s.components@[ci].part.idx as int].ports@, pin)
            == pin_known(parts, components[ci].part@, pin),
{
    let name = components[ci].part@;
    let w = s.components@[ci].part.idx as int;
    crate::schematic::lemma_find_part_idx_bounds_helper(s.parts@, name);
    assert(s.parts@[w].name@ == name);
    if stdlib_name(name) {
        let p = s.parts@[w];
        assert(w == 0 || w == 1) by {
            if w >= 2 {
                assert(parts[w - 2].name@ == name);
                assert(!stdlib_name(parts[w - 2].name@));
            }
        }
        assert(crate::part::has_port(p.ports@, pin) == (pin == "1"@ || pin == "2"@)) by {
            if crate::part::has_port(p.ports@, pin) {
                let x = choose|x: int|
                    0 <= x < p.ports@.len() && (#[trigger] p.ports@[x]).terminal_identifier@
                        == pin;
                assert(x == 0 || x == 1);
            }
            if pin == "1"@ {
                assert(p.ports@[0].terminal_identifier@ == pin);
            }
            if pin == "2"@ {
                assert(p.ports@[1].terminal_identifier@ == pin);
            }
        }
    } else {
        assert(w >= 2) by {
            if w == 0 {
                assert(name == "Resistor"@);
            }
            if w == 1 {
                assert(name == "Capacitor"@);
            }
        }
        assert(s.parts@[w] == s.parts@[w - 2 + 2]);
        assert(parts[w - 2].name@ == name);
        assert(crate::part::has_port(s.parts@[w - 2 + 2].ports@, pin) == pin_of_record(
            parts[w - 2],
            pin,
        ));
        assert(crate::part::has_port(s.parts@[w].ports@, pin) == pin_of_record(
            parts[w - 2],
            pin,
        ));
        if pin_known(parts, name, pin) {
            let k = choose|k: int|
                0 <= k < parts.len() && (#[trigger] parts[k]).name@ == name && pin_of_record(
                    parts[k],
                    pin,
                );
            assert(k == w - 2) by {
                if k < w - 2 {
                    assert(part_fresh(parts, w - 2));
                    assert(parts[k].name@ != parts[w - 2].name@);
                } else if k > w - 2 {
                    assert(part_fresh(parts, k));
                    assert(parts[w - 2].name@ != parts[k].name@);
                }
            }
        }
        if pin_of_record(parts[w - 2], pin) {
            assert(pin_known(parts, name, pin));
        }
    }
}

} // verus!
