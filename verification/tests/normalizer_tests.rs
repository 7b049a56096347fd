use diode::net::NetBuilder;
use diode::normalizer::AtopileNormalizer;
use diode::part::PartBuilder;
use diode::schematic::{NormalizationError, Normalizer, Schematic, SchematicError};

#[test]
fn net_rule_rewrites_special_characters() {
    let normalizer = AtopileNormalizer::default();
    assert_eq!(normalizer.normalize_net_name("~RESET").unwrap(), "nRESET");
    assert_eq!(normalizer.normalize_net_name("V+").unwrap(), "VP");
    assert_eq!(normalizer.normalize_net_name("A-B").unwrap(), "A_B");
    assert_eq!(normalizer.normalize_net_name("GND").unwrap(), "GND");
    // A leading tilde is only special in first position.
    assert_eq!(normalizer.normalize_net_name("A~B").unwrap(), "AB");
    // A non-letter start gets an S prepended.
    assert_eq!(normalizer.normalize_net_name("3V3").unwrap(), "S3V3");
    assert!(matches!(
        normalizer.normalize_net_name("!!!"),
        Err(NormalizationError::InvalidName(n)) if n == "!!!"
    ));
}

#[test]
fn part_rule_keeps_alphanumerics_only() {
    let normalizer = AtopileNormalizer::default();
    assert_eq!(normalizer.normalize_part_name("123X").unwrap(), "S123X");
    assert_eq!(normalizer.normalize_part_name("NRF52-840").unwrap(), "NRF52840");
    assert_eq!(normalizer.normalize_component_name("r1").unwrap(), "r1");
    assert!(matches!(
        normalizer.normalize_part_name("+-+"),
        Err(NormalizationError::InvalidName(_))
    ));
}

#[test]
fn port_rule_prefers_the_signal_name() {
    let normalizer = AtopileNormalizer::default();
    assert_eq!(normalizer.normalize_port_name("1", "VCC").unwrap(), "VCC");
    assert_eq!(normalizer.normalize_port_name("2", "").unwrap(), "S2");
    assert_eq!(normalizer.normalize_port_name("3", "~WR").unwrap(), "nWR");
}

#[test]
fn normalize_renames_the_whole_graph() {
    let mut schematic = Schematic::new();
    let mut pb = PartBuilder::default();
    pb.name("re sistor".to_string());
    pb.port("1", "V+");
    schematic.add_part(pb.build().unwrap()).unwrap();
    let mut nb = NetBuilder::default();
    nb.name("~RESET".to_string());
    schematic.add_net(nb.build().unwrap()).unwrap();

    schematic.normalize(AtopileNormalizer::default()).unwrap();

    let part_ref = schematic.get_part("resistor").unwrap();
    let part = schematic.part_at(part_ref);
    assert_eq!(part.ports[0].terminal_identifier, "1");
    assert_eq!(part.ports[0].signal, "VP");
    assert!(schematic.get_net("nRESET").is_some());
    assert!(schematic.get_net("~RESET").is_none());
}

#[test]
fn normalize_is_atomic_on_collision() {
    let mut schematic = Schematic::new();
    // "x+y" and "xPy" both normalize to "xPy"; "fine" normalizes cleanly.
    let mut nb = NetBuilder::default();
    nb.name("fine".to_string());
    schematic.add_net(nb.build().unwrap()).unwrap();
    let mut nb = NetBuilder::default();
    nb.name("x+y".to_string());
    schematic.add_net(nb.build().unwrap()).unwrap();
    let mut nb = NetBuilder::default();
    nb.name("xPy".to_string());
    schematic.add_net(nb.build().unwrap()).unwrap();

    let result = schematic.normalize(AtopileNormalizer::default());
    assert!(matches!(
        result,
        Err(SchematicError::NormalizationError(NormalizationError::NameConflict(n))) if n == "xPy"
    ));
    // Nothing anywhere in the schematic changed, not even the clean name.
    assert!(schematic.get_net("fine").is_some());
    assert!(schematic.get_net("x+y").is_some());
    assert!(schematic.get_net("xPy").is_some());
    assert_eq!(schematic.nets_iter().len(), 3);
}

#[test]
fn normalize_is_atomic_on_invalid_name() {
    let mut schematic = Schematic::new();
    let mut pb = PartBuilder::default();
    pb.name("good".to_string());
    schematic.add_part(pb.build().unwrap()).unwrap();
    let mut pb = PartBuilder::default();
    pb.name("???".to_string());
    schematic.add_part(pb.build().unwrap()).unwrap();

    let result = schematic.normalize(AtopileNormalizer::default());
    assert!(matches!(
        result,
        Err(SchematicError::NormalizationError(NormalizationError::InvalidName(_)))
    ));
    assert!(schematic.get_part("good").is_some());
    assert!(schematic.get_part("???").is_some());
}
