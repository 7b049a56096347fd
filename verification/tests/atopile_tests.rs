use diode::atopile::{AtopileError, AtopileProject};
use diode::component::ComponentBuilder;
use diode::net::NetBuilder;
use diode::part::PartBuilder;
use diode::schematic::Schematic;
use diode::writer::AtopileWriter;

fn named_part(name: &str, pins: &[(&str, &str)]) -> diode::part::Part {
    let mut builder = PartBuilder::default();
    builder.name(name.to_string());
    for (num, signal) in pins {
        builder.port(num, signal);
    }
    builder.build().unwrap()
}

fn add_component(schematic: &mut Schematic, name: &str, part: &str, sheet: Option<&str>) {
    let part_ref = schematic.get_part(part).unwrap();
    let mut cb = ComponentBuilder::default();
    cb.name(name.to_string());
    cb.part(part_ref);
    if let Some(sheet_name) = sheet {
        cb.metadata("Sheetname", sheet_name);
    }
    schematic.add_component(cb.build().unwrap()).unwrap();
}

fn add_net(schematic: &mut Schematic, name: &str) {
    let mut nb = NetBuilder::default();
    nb.name(name.to_string());
    schematic.add_net(nb.build().unwrap()).unwrap();
}

fn file_content<'a>(files: &'a [(String, String)], name: &str) -> &'a str {
    for (filename, content) in files {
        if filename == name {
            return content;
        }
    }
    panic!("no file named {}", name);
}

#[test]
fn writer_tracks_indentation_and_blank_lines() {
    let mut writer = AtopileWriter::new();
    writer.start_block("module M:");
    writer.write_line("a = new A");
    writer.ensure_break();
    // A second break inserts nothing: blank lines never double up.
    writer.ensure_break();
    writer.write_line("b = new B");
    writer.end_block();
    writer.write_line("done");
    let text = writer.into_string();
    assert_eq!(text, "module M:\n    a = new A\n\n    b = new B\ndone\n");
}

#[test]
fn end_to_end_single_resistor() {
    let mut schematic = Schematic::new();
    schematic
        .add_part(named_part("resistor", &[("1", "P1"), ("2", "P2")]))
        .unwrap();
    add_component(&mut schematic, "r1", "resistor", Some("Main"));
    add_net(&mut schematic, "vdd");
    add_net(&mut schematic, "gnd");
    schematic.connect("vdd", "r1", "1").unwrap();
    schematic.connect("gnd", "r1", "2").unwrap();

    let project = AtopileProject::from_schematic("schematic".to_string(), &schematic).unwrap();
    let files = project.render_files();
    assert_eq!(files.len(), 3);

    let library = file_content(&files, "library/resistor.ato");
    assert_eq!(
        library,
        "component resistor:\n    signal P1\n    P1 ~ pin 1\n\n    signal P2\n    P2 ~ pin 2\n\n"
    );

    // Both nets touch a single pin each, so they carry no information and
    // are omitted from the sheet module's body.
    let sheet = file_content(&files, "Main.ato");
    assert_eq!(
        sheet,
        "from \"library/resistor.ato\" import resistor\n\nmodule Main:\n    r1 = new resistor\n    r1.designator = \"r1\"\n\n"
    );

    // The root wires the sheet in.
    let root = file_content(&files, "schematic.ato");
    assert_eq!(
        root,
        "from \"Main.ato\" import Main\n\nmodule Schematic:\n    Main = new Main\n\n"
    );
}

#[test]
fn sheet_named_like_the_root_collides() {
    // A component without a sheet falls back to the project name; its
    // sheet then collides with the root module instead of merging.
    let mut schematic = Schematic::new();
    schematic.add_part(named_part("R", &[("1", "a")])).unwrap();
    add_component(&mut schematic, "c1", "R", None);
    let result = AtopileProject::from_schematic("top".to_string(), &schematic);
    assert!(matches!(
        result,
        Err(AtopileError::NameCollisionError(n)) if n == "Top"
    ));

    // The same collision by an explicit sheet name.
    let mut schematic = Schematic::new();
    schematic.add_part(named_part("R", &[("1", "a")])).unwrap();
    add_component(&mut schematic, "c1", "R", Some("Top"));
    assert!(matches!(
        AtopileProject::from_schematic("top".to_string(), &schematic),
        Err(AtopileError::NameCollisionError(n)) if n == "Top"
    ));
}

#[test]
fn end_to_end_two_pin_net() {
    let mut schematic = Schematic::new();
    schematic
        .add_part(named_part("resistor", &[("1", "P1"), ("2", "P2")]))
        .unwrap();
    add_component(&mut schematic, "r1", "resistor", Some("Main"));
    add_component(&mut schematic, "r2", "resistor", Some("Main"));
    add_net(&mut schematic, "vdd");
    schematic.connect("vdd", "r1", "1").unwrap();
    schematic.connect("vdd", "r2", "1").unwrap();

    let project = AtopileProject::from_schematic("board".to_string(), &schematic).unwrap();
    let files = project.render_files();
    // The net joins two pins on one sheet, so it is declared there.
    let sheet = file_content(&files, "Main.ato");
    assert_eq!(
        sheet,
        "from \"library/resistor.ato\" import resistor\n\nmodule Main:\n    r1 = new resistor\n    r1.designator = \"r1\"\n\n    r2 = new resistor\n    r2.designator = \"r2\"\n\n    signal vdd\n    vdd ~ r1.P1\n    vdd ~ r2.P1\n\n"
    );
    let root = file_content(&files, "board.ato");
    assert_eq!(
        root,
        "from \"Main.ato\" import Main\n\nmodule Board:\n    Main = new Main\n\n"
    );
}

#[test]
fn net_scoping_separates_local_and_spanning_nets() {
    let mut schematic = Schematic::new();
    schematic.add_part(named_part("R", &[("1", "a")])).unwrap();
    add_component(&mut schematic, "c1", "R", Some("S1"));
    add_component(&mut schematic, "c2", "R", Some("S2"));
    add_component(&mut schematic, "c3", "R", Some("S1"));
    add_net(&mut schematic, "local");
    add_net(&mut schematic, "span");
    schematic.connect("local", "c1", "1").unwrap();
    schematic.connect("local", "c3", "1").unwrap();
    schematic.connect("span", "c1", "1").unwrap();
    schematic.connect("span", "c2", "1").unwrap();

    let project = AtopileProject::from_schematic("proj".to_string(), &schematic).unwrap();
    let files = project.render_files();
    assert_eq!(files.len(), 4);

    // The net shared inside one sheet stays in that sheet's module with
    // unqualified references.
    let sheet1 = file_content(&files, "S1.ato");
    assert_eq!(
        sheet1,
        "from \"library/R.ato\" import R\n\nmodule S1:\n    c1 = new R\n    c1.designator = \"c1\"\n\n    c3 = new R\n    c3.designator = \"c3\"\n\n    signal local\n    local ~ c1.a\n    local ~ c3.a\n\n"
    );

    // The net spanning two sheets lands in the root module with fully
    // qualified references, and the root wires the sheets in.
    let root = file_content(&files, "proj.ato");
    assert_eq!(
        root,
        "from \"S1.ato\" import S1\nfrom \"S2.ato\" import S2\n\nmodule Proj:\n    S1 = new S1\n\n    S2 = new S2\n\n    signal span\n    span ~ S1.c1.a\n    span ~ S2.c2.a\n\n"
    );
}

#[test]
fn imports_are_deduplicated_and_naturally_sorted() {
    let mut schematic = Schematic::new();
    schematic.add_part(named_part("R2", &[("1", "a")])).unwrap();
    schematic.add_part(named_part("R10", &[("1", "a")])).unwrap();
    add_component(&mut schematic, "u1", "R2", Some("Sub"));
    add_component(&mut schematic, "u2", "R2", Some("Sub"));
    add_component(&mut schematic, "u3", "R10", Some("Sub"));

    let project = AtopileProject::from_schematic("top".to_string(), &schematic).unwrap();
    let files = project.render_files();
    let sheet = file_content(&files, "Sub.ato");
    // R2 is instantiated twice but imported once; R2 sorts before R10 in
    // natural order even though it is lexicographically larger.
    let imports = "from \"library/R2.ato\" import R2\nfrom \"library/R10.ato\" import R10\n\n";
    assert!(sheet.starts_with(imports), "unexpected imports in: {}", sheet);
    assert_eq!(sheet.matches("import R2").count(), 1);
}

#[test]
fn part_metadata_is_emitted() {
    let mut schematic = Schematic::new();
    let mut pb = PartBuilder::default();
    pb.name("chip".to_string());
    pb.port("1", "VCC");
    pb.metadata("MPN", "ACME-1");
    pb.metadata("Footprint", "QFN-16");
    schematic.add_part(pb.build().unwrap()).unwrap();

    let project = AtopileProject::from_schematic("meta".to_string(), &schematic).unwrap();
    let files = project.render_files();
    let library = file_content(&files, "library/chip.ato");
    assert_eq!(
        library,
        "component chip:\n    signal VCC\n    VCC ~ pin 1\n\n    mpn = \"ACME-1\"\n    footprint = \"QFN-16\"\n"
    );
}

#[test]
fn ganged_pins_share_one_signal() {
    let mut schematic = Schematic::new();
    schematic
        .add_part(named_part("conn", &[("1", "GND"), ("2", "GND"), ("10", "IO"), ("3", "IO")]))
        .unwrap();
    let project = AtopileProject::from_schematic("g".to_string(), &schematic).unwrap();
    let files = project.render_files();
    let library = file_content(&files, "library/conn.ato");
    // Signals sort naturally, and each signal lists its pins naturally.
    assert_eq!(
        library,
        "component conn:\n    signal GND\n    GND ~ pin 1\n    GND ~ pin 2\n\n    signal IO\n    IO ~ pin 3\n    IO ~ pin 10\n\n"
    );
}

#[test]
fn part_named_like_the_root_collides() {
    let mut schematic = Schematic::new();
    schematic.add_part(named_part("Top", &[("1", "a")])).unwrap();
    let result = AtopileProject::from_schematic("top".to_string(), &schematic);
    assert!(matches!(
        result,
        Err(AtopileError::NameCollisionError(n)) if n == "Top"
    ));
}

#[test]
fn sheet_named_like_a_part_collides() {
    let mut schematic = Schematic::new();
    schematic.add_part(named_part("R", &[("1", "a")])).unwrap();
    add_component(&mut schematic, "c1", "R", Some("R"));
    let result = AtopileProject::from_schematic("proj".to_string(), &schematic);
    assert!(matches!(result, Err(AtopileError::NameCollisionError(_))));
}

#[test]
fn duplicate_references_collapse_to_one_line() {
    let mut schematic = Schematic::new();
    schematic
        .add_part(named_part("conn", &[("1", "s"), ("2", "s")]))
        .unwrap();
    add_component(&mut schematic, "j1", "conn", Some("S"));
    add_component(&mut schematic, "j2", "conn", Some("S"));
    add_net(&mut schematic, "n");
    // Two different pins of j1 carry the same signal name, so their
    // references collapse after deduplication; j2 keeps the net alive.
    schematic.connect("n", "j1", "1").unwrap();
    schematic.connect("n", "j1", "2").unwrap();
    schematic.connect("n", "j2", "1").unwrap();

    let project = AtopileProject::from_schematic("dd".to_string(), &schematic).unwrap();
    let files = project.render_files();
    let sheet = file_content(&files, "S.ato");
    assert_eq!(sheet.matches("n ~ j1.s").count(), 1);
    assert_eq!(sheet.matches("n ~ j2.s").count(), 1);
}

#[test]
fn writer_raw_text_and_margin_floor() {
    let mut writer = AtopileWriter::new();
    // Dropping below the margin stays at the margin.
    writer.end_block();
    writer.write_raw("raw");
    writer.write_line("line");
    assert_eq!(writer.into_string(), "rawline\n");
}

#[test]
fn sheet_modules_import_their_parts_once() {
    let mut schematic = Schematic::new();
    schematic.add_part(named_part("R", &[("1", "a")])).unwrap();
    add_component(&mut schematic, "c1", "R", Some("Sub"));
    add_component(&mut schematic, "c2", "R", Some("Sub"));
    let project = AtopileProject::from_schematic("main".to_string(), &schematic).unwrap();
    let files = project.render_files();
    let sheet = file_content(&files, "Sub.ato");
    assert_eq!(sheet.matches("from \"library/R.ato\" import R").count(), 1);
}

#[test]
fn symbols_defined_in_the_same_file_are_not_imported() {
    // A sheet named like the lower-cased project name shares its file
    // with the root module; the root's reference to it needs no import.
    let mut schematic = Schematic::new();
    schematic.add_part(named_part("R", &[("1", "a")])).unwrap();
    add_component(&mut schematic, "c1", "R", Some("main"));
    let project = AtopileProject::from_schematic("main".to_string(), &schematic).unwrap();
    let files = project.render_files();
    let shared = file_content(&files, "main.ato");
    assert_eq!(
        shared,
        "from \"library/R.ato\" import R\n\nmodule Main:\n    main = new main\n\nmodule main:\n    c1 = new R\n    c1.designator = \"c1\"\n\n"
    );
    assert!(!shared.contains("import main"));
}
