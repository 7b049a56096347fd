use diode::ingest::{schematic_from_records, RawComponent, RawNet, RawPart, SchematicImportError};
use diode::schematic::SchematicError;

fn pairs(items: &[(&str, &str)]) -> Vec<(String, String)> {
    items.iter().map(|(a, b)| (a.to_string(), b.to_string())).collect()
}

#[test]
fn records_become_a_schematic() {
    let parts = vec![RawPart {
        name: "R0402".to_string(),
        pins: pairs(&[("1", "P1"), ("2", "P2")]),
        fields: pairs(&[("Sheetname", "Power")]),
    }];
    let components = vec![RawComponent {
        reference: "r1".to_string(),
        part: "R0402".to_string(),
        properties: pairs(&[("Sheetname", "Power")]),
    }];
    let nets = vec![RawNet {
        name: "vdd".to_string(),
        nodes: pairs(&[("r1", "1")]),
    }];
    let schematic = schematic_from_records(&parts, &components, &nets).unwrap();
    // The standard library is seeded first, then the records follow.
    assert!(schematic.get_part("Resistor").is_some());
    assert!(schematic.get_part("Capacitor").is_some());
    let r = schematic.get_part("R0402").unwrap();
    assert_eq!(schematic.part_at(r).ports.len(), 2);
    let c = schematic.get_component("r1").unwrap();
    assert_eq!(schematic.component_at(c).metadata_value("Sheetname"), Some("Power".to_string()));
    let n = schematic.get_net("vdd").unwrap();
    assert_eq!(schematic.net_at(n).connections.len(), 1);
}

#[test]
fn unknown_part_is_reported() {
    let components = vec![RawComponent {
        reference: "r1".to_string(),
        part: "Missing".to_string(),
        properties: Vec::new(),
    }];
    let result = schematic_from_records(&Vec::new(), &components, &Vec::new());
    assert!(matches!(
        result,
        Err(SchematicImportError::InterpretationError(m)) if m == "Part Missing not found"
    ));
}

#[test]
fn unknown_component_and_pin_are_reported() {
    let parts = vec![RawPart {
        name: "R".to_string(),
        pins: pairs(&[("1", "a")]),
        fields: Vec::new(),
    }];
    let components = vec![RawComponent {
        reference: "r1".to_string(),
        part: "R".to_string(),
        properties: Vec::new(),
    }];
    let nets = vec![RawNet { name: "n".to_string(), nodes: pairs(&[("ghost", "1")]) }];
    assert!(matches!(
        schematic_from_records(&parts, &components, &nets),
        Err(SchematicImportError::InterpretationError(m)) if m == "Component ghost not found"
    ));
    let nets = vec![RawNet { name: "n".to_string(), nodes: pairs(&[("r1", "9")]) }];
    assert!(matches!(
        schematic_from_records(&parts, &components, &nets),
        Err(SchematicImportError::InterpretationError(m)) if m == "Port 9 not found"
    ));
}

#[test]
fn colliding_names_are_rejected() {
    // A record may not reuse a seeded library name.
    let parts = vec![RawPart {
        name: "Resistor".to_string(),
        pins: pairs(&[("1", "a")]),
        fields: Vec::new(),
    }];
    assert!(matches!(
        schematic_from_records(&parts, &Vec::new(), &Vec::new()),
        Err(SchematicImportError::SchematicError(SchematicError::NameAlreadyExists(n))) if n == "Resistor"
    ));

    // Nor may two net records share a name.
    let nets = vec![
        RawNet { name: "n".to_string(), nodes: Vec::new() },
        RawNet { name: "n".to_string(), nodes: Vec::new() },
    ];
    assert!(matches!(
        schematic_from_records(&Vec::new(), &Vec::new(), &nets),
        Err(SchematicImportError::SchematicError(SchematicError::NameAlreadyExists(n))) if n == "n"
    ));
}
