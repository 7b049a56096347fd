use diode::component::ComponentBuilder;
use diode::net::NetBuilder;
use diode::part::PartBuilder;
use diode::schematic::{Schematic, SchematicError};

fn two_pin_part(name: &str) -> diode::part::Part {
    let mut builder = PartBuilder::default();
    builder.name(name.to_string());
    builder.port("1", "a");
    builder.port("2", "b");
    builder.build().unwrap()
}

#[test]
fn test_stl() {
    let mut schematic = Schematic::new();
    schematic.register_standard_library().unwrap();
}

#[test]
fn standard_library_parts_are_registered() {
    let mut schematic = Schematic::new();
    schematic.register_standard_library().unwrap();
    assert!(schematic.get_part("Resistor").is_some());
    assert!(schematic.get_part("Capacitor").is_some());
    assert!(schematic.get_part("Inductor").is_none());
    // Registering a second time collides with the existing names.
    assert!(matches!(
        schematic.register_standard_library(),
        Err(SchematicError::NameAlreadyExists(_))
    ));
}

#[test]
fn add_part_rejects_duplicates_without_mutating() {
    let mut schematic = Schematic::new();
    schematic.add_part(two_pin_part("R")).unwrap();
    assert_eq!(schematic.parts_iter().len(), 1);
    let result = schematic.add_part(two_pin_part("R"));
    match result {
        Err(SchematicError::NameAlreadyExists(name)) => assert_eq!(name, "R"),
        _ => panic!("expected a name collision"),
    }
    assert_eq!(schematic.parts_iter().len(), 1);
    let part = schematic.part_at(schematic.get_part("R").unwrap());
    assert_eq!(part.name, "R");
    assert_eq!(part.ports.len(), 2);
    assert_eq!(part.ports[0].terminal_identifier, "1");
    assert_eq!(part.ports[0].signal, "a");
}

#[test]
fn add_component_and_net_reject_duplicates() {
    let mut schematic = Schematic::new();
    let part = schematic.add_part(two_pin_part("R")).unwrap();

    let mut cb = ComponentBuilder::default();
    cb.name("r1".to_string());
    cb.part(part);
    schematic.add_component(cb.build().unwrap()).unwrap();

    let mut cb = ComponentBuilder::default();
    cb.name("r1".to_string());
    cb.part(part);
    assert!(matches!(
        schematic.add_component(cb.build().unwrap()),
        Err(SchematicError::NameAlreadyExists(_))
    ));
    assert_eq!(schematic.components_iter().len(), 1);

    let mut nb = NetBuilder::default();
    nb.name("vdd".to_string());
    schematic.add_net(nb.build().unwrap()).unwrap();
    let mut nb = NetBuilder::default();
    nb.name("vdd".to_string());
    assert!(matches!(
        schematic.add_net(nb.build().unwrap()),
        Err(SchematicError::NameAlreadyExists(_))
    ));
    assert_eq!(schematic.nets_iter().len(), 1);
}

#[test]
fn connect_is_idempotent_and_checks_names() {
    let mut schematic = Schematic::new();
    let part = schematic.add_part(two_pin_part("R")).unwrap();
    let mut cb = ComponentBuilder::default();
    cb.name("r1".to_string());
    cb.part(part);
    schematic.add_component(cb.build().unwrap()).unwrap();
    let mut nb = NetBuilder::default();
    nb.name("vdd".to_string());
    let net = schematic.add_net(nb.build().unwrap()).unwrap();

    schematic.connect("vdd", "r1", "1").unwrap();
    assert_eq!(schematic.net_at(net).connections.len(), 1);
    // Re-connecting the same pair is a no-op.
    schematic.connect("vdd", "r1", "1").unwrap();
    assert_eq!(schematic.net_at(net).connections.len(), 1);
    // A second pin joins the same net.
    schematic.connect("vdd", "r1", "2").unwrap();
    assert_eq!(schematic.net_at(net).connections.len(), 2);

    // Unknown component, terminal and net each fail without corrupting
    // the schematic.
    assert!(matches!(
        schematic.connect("vdd", "r9", "1"),
        Err(SchematicError::NameNotFound(n)) if n == "r9"
    ));
    assert!(matches!(
        schematic.connect("vdd", "r1", "9"),
        Err(SchematicError::NameNotFound(n)) if n == "9"
    ));
    assert!(matches!(
        schematic.connect("gnd", "r1", "1"),
        Err(SchematicError::NameNotFound(n)) if n == "gnd"
    ));
    assert_eq!(schematic.net_at(net).connections.len(), 2);
    assert_eq!(schematic.parts_iter().len(), 1);
    assert_eq!(schematic.components_iter().len(), 1);
    assert_eq!(schematic.nets_iter().len(), 1);
}

#[test]
fn builders_report_missing_fields() {
    let builder = PartBuilder::default();
    assert!(matches!(
        builder.build(),
        Err(SchematicError::UninitializedField(f)) if f == "name"
    ));

    let cb = ComponentBuilder::default();
    assert!(matches!(
        cb.build(),
        Err(SchematicError::UninitializedField(f)) if f == "name"
    ));
    let mut cb = ComponentBuilder::default();
    cb.name("r1".to_string());
    assert!(matches!(
        cb.build(),
        Err(SchematicError::UninitializedField(f)) if f == "part"
    ));

    let nb = NetBuilder::default();
    assert!(matches!(
        nb.build(),
        Err(SchematicError::UninitializedField(f)) if f == "name"
    ));
}

#[test]
fn builder_port_replaces_same_terminal() {
    let mut builder = PartBuilder::default();
    builder.name("R".to_string());
    builder.port("1", "a");
    builder.port("1", "b");
    let part = builder.build().unwrap();
    assert_eq!(part.ports.len(), 1);
    assert_eq!(part.ports[0].signal, "b");
}

#[test]
fn metadata_is_stored_and_replaced() {
    let mut builder = PartBuilder::default();
    builder.name("R".to_string());
    builder.metadata("MPN", "X-1");
    builder.metadata("MPN", "X-2");
    builder.metadata("Footprint", "0402");
    let part = builder.build().unwrap();
    assert_eq!(part.metadata_value("MPN"), Some("X-2".to_string()));
    assert_eq!(part.metadata_value("Footprint"), Some("0402".to_string()));
    assert_eq!(part.metadata_value("Sheetname"), None);
}

#[test]
fn error_messages_name_the_offender() {
    let err = SchematicError::NameAlreadyExists("R".to_string());
    assert_eq!(err.message(), "Name already exists: R");
    let err = SchematicError::NameNotFound("gnd".to_string());
    assert_eq!(err.message(), "Name not found: gnd");
    let err = SchematicError::UninitializedField("name".to_string());
    assert_eq!(err.message(), "Uninitialized field: name");
    let err = SchematicError::NormalizationError(
        diode::schematic::NormalizationError::InvalidName("!!".to_string()),
    );
    assert_eq!(err.message(), "Normalization error: Invalid name: !!");
    let err = diode::schematic::NormalizationError::NameConflict("xPy".to_string());
    assert_eq!(err.message(), "Name conflict: xPy");
    let err = diode::atopile::AtopileError::NameCollisionError("Top".to_string());
    assert_eq!(err.message(), "Name collision: Top");
}
