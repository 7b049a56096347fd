//! Rendering of a project into deterministic source text.

use crate::atopile::{
    collect_imports_spec, entry_idx, find_file_idx, find_symbol_idx, sym_name, AtopileComponent,
    AtopileModule, AtopileProject, AtopileSymbol,
};
use crate::part::meta_lookup;
use crate::sorting::{
    dedup_spec, sort_imports_spec, sort_strings_lex_spec, sort_strings_nat_spec, sorted_imports,
    sorted_strings_lex, sorted_strings_natural, dedup_strings,
};
use crate::writer::{indent_prefix, is_blank_line, AtopileWriter};
use vstd::prelude::*;

verus! {

/// One non-blank line at the margin.
pub open spec fn line0(line: Seq<char>) -> Seq<char> {
    line + seq!['\n']
}

/// One non-blank line, one level deep.
pub open spec fn line1(line: Seq<char>) -> Seq<char> {
    indent_prefix(1) + line + seq!['\n']
}

/// A blank separator line.
pub open spec fn blank_line() -> Seq<char> {
    seq!['\n']
}

/// The `<signal> ~ pin <terminal>` lines of one signal, in pin order.
pub open spec fn pin_lines(signal: Seq<char>, pins: Seq<String>, i: int) -> Seq<char>
    decreases pins.len() - i,
{
    if i < 0 || i >= pins.len() {
        Seq::empty()
    } else {
        line1(signal + " ~ pin "@ + pins[i]@) + pin_lines(signal, pins, i + 1)
    }
}

/// One signal block: declaration, pin bindings, a blank separator.
pub open spec fn signal_block(signals: Seq<(String, Vec<String>)>, name: Seq<char>) -> Seq<char> {
    let j = entry_idx(signals, name);
    let pins = sort_strings_nat_spec(signals[j].1@);
    line1("signal "@ + name) + pin_lines(name, pins, 0) + blank_line()
}

/// All signal blocks, in the given name order.
pub open spec fn signal_blocks(
    signals: Seq<(String, Vec<String>)>,
    names: Seq<String>,
    i: int,
) -> Seq<char>
    decreases names.len() - i,
{
    if i < 0 || i >= names.len() {
        Seq::empty()
    } else {
        signal_block(signals, names[i]@) + signal_blocks(signals, names, i + 1)
    }
}

/// An optional `<key> = "<value>"` metadata line.
pub open spec fn meta_line(key: Seq<char>, value: Option<Seq<char>>) -> Seq<char> {
    match value {
        Some(v) => line1(key + " = \""@ + v + "\""@),
        None => Seq::empty(),
    }
}

/// The keys of a signal table, in table order.
pub open spec fn signal_names(signals: Seq<(String, Vec<String>)>) -> Seq<String> {
    signals.map_values(|e: (String, Vec<String>)| e.0)
}

/// The full text of one component declaration.
pub open spec fn component_text(c: AtopileComponent) -> Seq<char> {
    line0("component "@ + c.name@ + ":"@) + signal_blocks(
        c.signals@,
        sort_strings_nat_spec(signal_names(c.signals@)),
        0,
    ) + meta_line("mpn"@, meta_lookup(c.part.metadata@, "MPN"@)) + meta_line(
        "footprint"@,
        meta_lookup(c.part.metadata@, "Footprint"@),
    )
}

/// Builds `signal <name>`.
fn signal_line(name: &str) -> (r: String)
    ensures
        r@ == "signal "@ + name@,
        !is_blank_line(r@),
{
    let mut out = String::new();
    out.append("signal ");
    out.append(name);
    proof {
        assert(out@ =~= "signal "@ + name@);
        reveal_strlit("signal ");
        assert(out@[0] == 's');
        assert('s' as u32 == 115);
    }
    out
}

/// Builds `<signal> ~ pin <terminal>`.
fn pin_line(signal: &str, pin: &str) -> (r: String)
    ensures
        r@ == signal@ + " ~ pin "@ + pin@,
        !is_blank_line(r@),
{
    let mut out = String::new();
    out.append(signal);
    out.append(" ~ pin ");
    out.append(pin);
    proof {
        assert(out@ =~= signal@ + " ~ pin "@ + pin@);
        reveal_strlit(" ~ pin ");
        assert(out@[signal@.len() as int + 1] == '~');
        assert('~' as u32 == 126);
    }
    out
}

/// Builds `<key> = "<value>"`.
fn quoted_assignment(key: &str, value: &str) -> (r: String)
    ensures
        r@ == key@ + " = \""@ + value@ + "\""@,
        !is_blank_line(r@),
{
    let mut out = String::new();
    out.append(key);
    out.append(" = \"");
    out.append(value);
    out.append("\"");
    proof {
        assert(out@ =~= key@ + " = \""@ + value@ + "\""@);
        reveal_strlit(" = \"");
        assert(out@[key@.len() as int + 1] == '=');
        assert('=' as u32 == 61);
    }
    out
}

/// Builds `component <name>:` or `module <name>:`.
fn block_header(kind: &str, name: &str) -> (r: String)
    requires
        kind@ == "component "@ || kind@ == "module "@,
    ensures
        r@ == kind@ + name@ + ":"@,
        !is_blank_line(r@),
{
    let mut out = String::new();
    out.append(kind);
    out.append(name);
    out.append(":");
    proof {
        assert(out@ =~= kind@ + name@ + ":"@);
        reveal_strlit("component ");
        reveal_strlit("module ");
        if kind@ == "component "@ {
            assert(out@[0] == 'c');
            assert('c' as u32 == 99);
        } else {
            assert(out@[0] == 'm');
            assert('m' as u32 == 109);
        }
    }
    out
}

impl AtopileProject {
    /// Renders one component declaration into the writer, at the margin.
    pub fn write_component(&self, component: &AtopileComponent, writer: &mut AtopileWriter)
        requires
            old(writer).indent_level == 0,
        ensures
            final(writer).out@ == old(writer).out@ + component_text(*component),
            final(writer).indent_level == 0,
    {
        let header = block_header("component ", component.name.as_str());
        writer.start_block(header.as_str());
        let ghost base = writer.out@;
        let mut names: Vec<String> = Vec::new();
        let mut k: usize = 0;
        while k < component.signals.len()
            invariant
                k <= component.signals@.len(),
                names@ =~= signal_names(component.signals@).take(k as int),
            decreases component.signals@.len() - k,
        {
            names.push(component.signals[k].0.clone());
            proof {
                assert(names@ =~= signal_names(component.signals@).take(k + 1));
            }
            k = k + 1;
        }
        proof {
            assert(signal_names(component.signals@).take(
                signal_names(component.signals@).len() as int,
            ) =~= signal_names(component.signals@));
        }
        let sorted_names = sorted_strings_natural(&names);
        let ghost sorted_seq = sort_strings_nat_spec(signal_names(component.signals@));
        let mut i: usize = 0;
        proof {
            assert(base + signal_blocks(component.signals@, sorted_seq, 0) =~= writer.out@
                + signal_blocks(component.signals@, sorted_seq, 0));
        }
        while i < sorted_names.len()
            invariant
                i <= sorted_names@.len(),
                sorted_names@ == sorted_seq,
                sorted_seq == sort_strings_nat_spec(signal_names(component.signals@)),
                writer.indent_level == 1,
                base + signal_blocks(component.signals@, sorted_seq, 0) == writer.out@
                    + signal_blocks(component.signals@, sorted_seq, i as int),
            decreases sorted_names@.len() - i,
        {
            let ghost out0 = writer.out@;
            let name = &sorted_names[i];
            proof {
                broadcast use vstd::seq_lib::group_to_multiset_ensures;

                crate::sorting::lemma_sort_strings_nat_permutes(
                    signal_names(component.signals@),
                );
                assert(sorted_seq.contains(sorted_seq[i as int]));
                assert(sorted_seq.to_multiset().count(sorted_seq[i as int]) > 0);
                assert(signal_names(component.signals@).to_multiset().count(
                    sorted_seq[i as int],
                ) > 0);
                assert(signal_names(component.signals@).contains(sorted_seq[i as int]));
                let w = choose|w: int|
                    0 <= w < signal_names(component.signals@).len() && signal_names(
                        component.signals@,
                    )[w] == sorted_seq[i as int];
                assert(component.signals@[w].0 == sorted_seq[i as int]);
                crate::atopile::lemma_entry_idx_positive(component.signals@, name@, w);
            }
            let sig_line = signal_line(name.as_str());
            writer.write_line(sig_line.as_str());
            let pins = match crate::atopile::entry_pos(&component.signals, name.as_str()) {
                Some(j) => &component.signals[j].1,
                None => {
                    proof {
                        assert(false);
                    }
                    vstd::pervasive::unreached()
                },
            };
            let sorted_pins = sorted_strings_natural(pins);
            let ghost pins_seq = sort_strings_nat_spec(
                component.signals@[entry_idx(component.signals@, name@)].1@,
            );
            proof {
                assert(sorted_pins@ == pins_seq);
            }
            let mut p: usize = 0;
            while p < sorted_pins.len()
                invariant
                    p <= sorted_pins@.len(),
                    sorted_pins@ == pins_seq,
                    i < sorted_seq.len() && name@ == sorted_seq[i as int]@,
                    writer.indent_level == 1,
                    out0 + line1("signal "@ + name@) + pin_lines(name@, pins_seq, 0)
                        == writer.out@ + pin_lines(name@, pins_seq, p as int),
                decreases sorted_pins@.len() - p,
            {
                let ghost prev = writer.out@;
                let pl = pin_line(name.as_str(), sorted_pins[p].as_str());
                writer.write_line(pl.as_str());
                proof {
                    assert(pin_lines(name@, pins_seq, p as int) =~= line1(
                        name@ + " ~ pin "@ + pins_seq[p as int]@,
                    ) + pin_lines(name@, pins_seq, p + 1));
                    assert(prev + pin_lines(name@, pins_seq, p as int) =~= writer.out@
                        + pin_lines(name@, pins_seq, p + 1));
                }
                p = p + 1;
            }
            let ghost before_blank = writer.out@;
            writer.write_line("");
            proof {
                reveal_strlit("");
                assert(is_blank_line(""@));
                assert(writer.out@ =~= before_blank + blank_line());
                assert(pin_lines(name@, pins_seq, sorted_pins@.len() as int)
                    =~= Seq::<char>::empty());
                assert(writer.out@ =~= out0 + signal_block(component.signals@, name@));
                assert(signal_blocks(component.signals@, sorted_seq, i as int) =~= signal_block(
                    component.signals@,
                    name@,
                ) + signal_blocks(component.signals@, sorted_seq, i + 1));
                assert(out0 + signal_blocks(component.signals@, sorted_seq, i as int)
                    =~= writer.out@ + signal_blocks(component.signals@, sorted_seq, i + 1));
            }
            i = i + 1;
        }
        proof {
            assert(signal_blocks(component.signals@, sorted_seq, sorted_seq.len() as int)
                =~= Seq::<char>::empty());
            assert(writer.out@ =~= base + signal_blocks(component.signals@, sorted_seq, 0));
        }
        let mpn = component.part.metadata_value("MPN");
        match mpn {
            Some(v) => {
                let ghost prev = writer.out@;
                let line = quoted_assignment("mpn", v.as_str());
                writer.write_line(line.as_str());
                proof {
                    assert(writer.out@ =~= prev + meta_line(
                        "mpn"@,
                        meta_lookup(component.part.metadata@, "MPN"@),
                    ));
                }
            },
            None => (),
        }
        let footprint = component.part.metadata_value("Footprint");
        match footprint {
            Some(v) => {
                let ghost prev = writer.out@;
                let line = quoted_assignment("footprint", v.as_str());
                writer.write_line(line.as_str());
                proof {
                    assert(writer.out@ =~= prev + meta_line(
                        "footprint"@,
                        meta_lookup(component.part.metadata@, "Footprint"@),
                    ));
                }
            },
            None => (),
        }
        writer.end_block();
        proof {
            assert(writer.out@ =~= old(writer).out@ + component_text(*component));
        }
    }
}


/// Strict natural order on definitions, by instance name.
pub open spec fn def_lt(a: crate::atopile::AtopileDefinition, b: crate::atopile::AtopileDefinition) -> bool {
    crate::order::nat_cmp(a.name@, b.name@) == crate::order::StrOrder::Less
}

/// The definitions sorted naturally by instance name.
pub open spec fn sort_defs_spec(defs: Seq<crate::atopile::AtopileDefinition>) -> Seq<
    crate::atopile::AtopileDefinition,
> {
    crate::sorting::sort_by_spec(
        |a: crate::atopile::AtopileDefinition, b: crate::atopile::AtopileDefinition| def_lt(a, b),
        defs,
    )
}

/// The instantiation lines of a module, one blank-separated block per
/// definition; a designator line only for real components.
pub open spec fn def_lines(defs: Seq<crate::atopile::AtopileDefinition>, i: int) -> Seq<char>
    decreases defs.len() - i,
{
    if i < 0 || i >= defs.len() {
        Seq::empty()
    } else {
        line1(defs[i].name@ + " = new "@ + defs[i].symbol_name@) + (if defs[i].component is Some {
            line1(defs[i].name@ + ".designator = \""@ + defs[i].name@ + "\""@)
        } else {
            Seq::empty()
        }) + blank_line() + def_lines(defs, i + 1)
    }
}

/// The `<net> ~ <reference>` lines of one net.
pub open spec fn ref_lines(net: Seq<char>, refs: Seq<String>, i: int) -> Seq<char>
    decreases refs.len() - i,
{
    if i < 0 || i >= refs.len() {
        Seq::empty()
    } else {
        line1(net + " ~ "@ + refs[i]@) + ref_lines(net, refs, i + 1)
    }
}

/// One net block: nets with fewer than two distinct references are
/// omitted entirely.
pub open spec fn net_block(nets: Seq<(String, Vec<String>)>, name: Seq<char>) -> Seq<char> {
    let j = entry_idx(nets, name);
    let refs = dedup_spec(sort_strings_lex_spec(nets[j].1@));
    if refs.len() < 2 {
        Seq::empty()
    } else {
        line1("signal "@ + name) + ref_lines(name, refs, 0) + blank_line()
    }
}

pub open spec fn net_blocks(
    nets: Seq<(String, Vec<String>)>,
    names: Seq<String>,
    i: int,
) -> Seq<char>
    decreases names.len() - i,
{
    if i < 0 || i >= names.len() {
        Seq::empty()
    } else {
        net_block(nets, names[i]@) + net_blocks(nets, names, i + 1)
    }
}

/// The full text of one module.
pub open spec fn module_text(m: AtopileModule) -> Seq<char> {
    line0("module "@ + m.name@ + ":"@) + def_lines(sort_defs_spec(m.definitions@), 0)
        + net_blocks(m.nets@, sort_strings_nat_spec(signal_names(m.nets@)), 0)
}

/// One `from "<file>" import <symbol>` line per import pair.
pub open spec fn import_lines(imports: Seq<(String, String)>, i: int) -> Seq<char>
    decreases imports.len() - i,
{
    if i < 0 || i >= imports.len() {
        Seq::empty()
    } else {
        line0("from \""@ + imports[i].0@ + "\" import "@ + imports[i].1@) + import_lines(
            imports,
            i + 1,
        )
    }
}

/// The symbols of a file, in the given order.
pub open spec fn symbols_text(p: AtopileProject, names: Seq<String>, i: int) -> Seq<char>
    decreases names.len() - i,
{
    if i < 0 || i >= names.len() {
        Seq::empty()
    } else {
        let si = find_symbol_idx(p.symbols_by_name@, names[i]@);
        let text = if si >= 0 {
            match p.symbols_by_name@[si] {
                AtopileSymbol::Component(c) => component_text(c),
                AtopileSymbol::Module(m) => module_text(m),
            }
        } else {
            Seq::empty()
        };
        text + symbols_text(p, names, i + 1)
    }
}

/// The full text of one file: sorted, deduplicated imports, a blank line
/// when there are any, then the file's symbols in name order.
pub open spec fn file_text(p: AtopileProject, filename: Seq<char>) -> Seq<char> {
    let imports = sort_imports_spec(collect_imports_spec(p, filename));
    let fi = find_file_idx(p.files_by_name@, filename);
    import_lines(imports, 0) + (if imports.len() > 0 {
        blank_line()
    } else {
        Seq::<char>::empty()
    }) + symbols_text(p, sort_strings_lex_spec(p.files_by_name@[fi].symbol_names@), 0)
}

/// Builds `<a> ~ <b>`.
fn binding_line(a: &str, b: &str) -> (r: String)
    ensures
        r@ == a@ + " ~ "@ + b@,
        !is_blank_line(r@),
{
    let mut out = String::new();
    out.append(a);
    out.append(" ~ ");
    out.append(b);
    proof {
        assert(out@ =~= a@ + " ~ "@ + b@);
        reveal_strlit(" ~ ");
        assert(out@[a@.len() as int + 1] == '~');
        assert('~' as u32 == 126);
    }
    out
}

/// Builds `<name> = new <symbol>`.
fn new_def_line(name: &str, symbol: &str) -> (r: String)
    ensures
        r@ == name@ + " = new "@ + symbol@,
        !is_blank_line(r@),
{
    let mut out = String::new();
    out.append(name);
    out.append(" = new ");
    out.append(symbol);
    proof {
        assert(out@ =~= name@ + " = new "@ + symbol@);
        reveal_strlit(" = new ");
        assert(out@[name@.len() as int + 1] == '=');
        assert('=' as u32 == 61);
    }
    out
}

/// Builds `<name>.designator = "<name>"`.
fn designator_line(name: &str) -> (r: String)
    ensures
        r@ == name@ + ".designator = \""@ + name@ + "\""@,
        !is_blank_line(r@),
{
    let mut out = String::new();
    out.append(name);
    out.append(".designator = \"");
    out.append(name);
    out.append("\"");
    proof {
        assert(out@ =~= name@ + ".designator = \""@ + name@ + "\""@);
        reveal_strlit(".designator = \"");
        assert(out@[name@.len() as int] == '.');
        assert('.' as u32 == 46);
    }
    out
}

/// Builds `from "<file>" import <symbol>`.
fn import_line(file: &str, symbol: &str) -> (r: String)
    ensures
        r@ == "from \""@ + file@ + "\" import "@ + symbol@,
        !is_blank_line(r@),
{
    let mut out = String::new();
    out.append("from \"");
    out.append(file);
    out.append("\" import ");
    out.append(symbol);
    proof {
        assert(out@ =~= "from \""@ + file@ + "\" import "@ + symbol@);
        reveal_strlit("from \"");
        assert(out@[0] == 'f');
        assert('f' as u32 == 102);
    }
    out
}

/// Position in front of the first definition that `x` is naturally below.
fn def_insert_pos(
    out: &Vec<crate::atopile::AtopileDefinition>,
    x: &crate::atopile::AtopileDefinition,
) -> (p: usize)
    ensures
        p <= out@.len(),
        forall|k: int| 0 <= k < p ==> !def_lt(*x, #[trigger] out@[k]),
        p < out@.len() ==> def_lt(*x, out@[p as int]),
{
    let mut p: usize = 0;
    while p < out.len()
        invariant
            p <= out@.len(),
            forall|k: int| 0 <= k < p ==> !def_lt(*x, #[trigger] out@[k]),
        decreases out@.len() - p,
    {
        let c = crate::order::natural_compare(x.name.as_str(), out[p].name.as_str());
        if c == crate::order::StrOrder::Less {
            return p;
        }
        p = p + 1;
    }
    p
}

/// Sorts definitions naturally by instance name.
#[verifier::loop_isolation(false)]
fn sorted_definitions(v: &Vec<crate::atopile::AtopileDefinition>) -> (r: Vec<
    crate::atopile::AtopileDefinition,
>)
    ensures
        r@ == sort_defs_spec(v@),
{
    let ghost lt =
        |a: crate::atopile::AtopileDefinition, b: crate::atopile::AtopileDefinition| def_lt(a, b);
    let mut out: Vec<crate::atopile::AtopileDefinition> = Vec::new();
    let mut idx: usize = 0;
    proof {
        assert(v@.take(0) =~= Seq::<crate::atopile::AtopileDefinition>::empty());
    }
    while idx < v.len()
        invariant
            idx <= v@.len(),
            out@ == crate::sorting::sort_by_spec(lt, v@.take(idx as int)),
        decreases v@.len() - idx,
    {
        let x = v[idx].clone();
        let p = def_insert_pos(&out, &x);
        proof {
            assert(forall|k: int| 0 <= k < p ==> !lt(x, #[trigger] out@[k]));
            crate::sorting::lemma_insert_position(lt, x, out@, p as int);
            crate::sorting::lemma_sort_step(lt, v@, idx as int);
        }
        out.insert(p, x);
        idx = idx + 1;
    }
    proof {
        assert(v@.take(v@.len() as int) =~= v@);
    }
    out
}

impl AtopileProject {
    /// Renders one module into the writer, at the margin.
    pub fn write_module(&self, module: &AtopileModule, writer: &mut AtopileWriter)
        requires
            old(writer).indent_level == 0,
        ensures
            final(writer).out@ == old(writer).out@ + module_text(*module),
            final(writer).indent_level == 0,
    {
        let header = block_header("module ", module.name.as_str());
        writer.start_block(header.as_str());
        let sorted_defs = sorted_definitions(&module.definitions);
        let ghost defs_seq = sort_defs_spec(module.definitions@);
        let ghost base = writer.out@;
        let mut i: usize = 0;
        proof {
            assert(base + def_lines(defs_seq, 0) =~= writer.out@ + def_lines(defs_seq, 0));
        }
        while i < sorted_defs.len()
            invariant
                i <= sorted_defs@.len(),
                sorted_defs@ == defs_seq,
                writer.indent_level == 1,
                base + def_lines(defs_seq, 0) == writer.out@ + def_lines(defs_seq, i as int),
            decreases sorted_defs@.len() - i,
        {
            let ghost out0 = writer.out@;
            let def = &sorted_defs[i];
            let dline = new_def_line(def.name.as_str(), def.symbol_name.as_str());
            writer.write_line(dline.as_str());
            match &def.component {
                Some(_) => {
                    let desig = designator_line(def.name.as_str());
                    writer.write_line(desig.as_str());
                },
                None => (),
            }
            writer.ensure_break();
            proof {
                assert(def_lines(defs_seq, i as int) =~= line1(
                    defs_seq[i as int].name@ + " = new "@ + defs_seq[i as int].symbol_name@,
                ) + (if defs_seq[i as int].component is Some {
                    line1(
                        defs_seq[i as int].name@ + ".designator = \""@ + defs_seq[i as int].name@
                            + "\""@,
                    )
                } else {
                    Seq::<char>::empty()
                }) + blank_line() + def_lines(defs_seq, i + 1));
                assert(out0 + def_lines(defs_seq, i as int) =~= writer.out@ + def_lines(
                    defs_seq,
                    i + 1,
                ));
            }
            i = i + 1;
        }
        proof {
            assert(def_lines(defs_seq, defs_seq.len() as int) =~= Seq::<char>::empty());
            assert(writer.out@ =~= base + def_lines(defs_seq, 0));
        }
        let mut names: Vec<String> = Vec::new();
        let mut k: usize = 0;
        while k < module.nets.len()
            invariant
                k <= module.nets@.len(),
                names@ =~= signal_names(module.nets@).take(k as int),
            decreases module.nets@.len() - k,
        {
            names.push(module.nets[k].0.clone());
            proof {
                assert(names@ =~= signal_names(module.nets@).take(k + 1));
            }
            k = k + 1;
        }
        proof {
            assert(signal_names(module.nets@).take(signal_names(module.nets@).len() as int)
                =~= signal_names(module.nets@));
        }
        let sorted_names = sorted_strings_natural(&names);
        let ghost names_seq = sort_strings_nat_spec(signal_names(module.nets@));
        let ghost base2 = writer.out@;
        let mut i: usize = 0;
        proof {
            assert(base2 + net_blocks(module.nets@, names_seq, 0) =~= writer.out@ + net_blocks(
                module.nets@,
                names_seq,
                0,
            ));
        }
        while i < sorted_names.len()
            invariant
                i <= sorted_names@.len(),
                sorted_names@ == names_seq,
                names_seq == sort_strings_nat_spec(signal_names(module.nets@)),
                writer.indent_level == 1,
                base2 + net_blocks(module.nets@, names_seq, 0) == writer.out@ + net_blocks(
                    module.nets@,
                    names_seq,
                    i as int,
                ),
            decreases sorted_names@.len() - i,
        {
            let ghost out0 = writer.out@;
            let name = &sorted_names[i];
            proof {
                broadcast use vstd::seq_lib::group_to_multiset_ensures;

                crate::sorting::lemma_sort_strings_nat_permutes(signal_names(module.nets@));
                assert(names_seq.contains(names_seq[i as int]));
                assert(names_seq.to_multiset().count(names_seq[i as int]) > 0);
                assert(signal_names(module.nets@).to_multiset().count(names_seq[i as int]) > 0);
                assert(signal_names(module.nets@).contains(names_seq[i as int]));
                let w = choose|w: int|
                    0 <= w < signal_names(module.nets@).len() && signal_names(module.nets@)[w]
                        == names_seq[i as int];
                assert(module.nets@[w].0 == names_seq[i as int]);
                crate::atopile::lemma_entry_idx_positive(module.nets@, name@, w);
            }
            let refs_raw = match crate::atopile::entry_pos(&module.nets, name.as_str()) {
                Some(j) => &module.nets[j].1,
                None => {
                    proof {
                        assert(false);
                    }
                    vstd::pervasive::unreached()
                },
            };
            let sorted_refs = sorted_strings_lex(refs_raw);
            let refs = dedup_strings(&sorted_refs);
            let ghost refs_seq = dedup_spec(
                sort_strings_lex_spec(
                    module.nets@[entry_idx(module.nets@, name@)].1@,
                ),
            );
            proof {
                assert(refs@ == refs_seq);
            }
            if refs.len() < 2 {
                proof {
                    assert(net_block(module.nets@, name@) =~= Seq::<char>::empty());
                    assert(net_blocks(module.nets@, names_seq, i as int) =~= net_block(
                        module.nets@,
                        name@,
                    ) + net_blocks(module.nets@, names_seq, i + 1));
                    assert(out0 + net_blocks(module.nets@, names_seq, i as int) =~= writer.out@
                        + net_blocks(module.nets@, names_seq, i + 1));
                }
                i = i + 1;
                continue;
            }
            let sig_line = signal_line(name.as_str());
            writer.write_line(sig_line.as_str());
            let mut p: usize = 0;
            while p < refs.len()
                invariant
                    p <= refs@.len(),
                    refs@ == refs_seq,
                    i < names_seq.len() && name@ == names_seq[i as int]@,
                    writer.indent_level == 1,
                    out0 + line1("signal "@ + name@) + ref_lines(name@, refs_seq, 0)
                        == writer.out@ + ref_lines(name@, refs_seq, p as int),
                decreases refs@.len() - p,
            {
                let ghost prev = writer.out@;
                let rl = binding_line(name.as_str(), refs[p].as_str());
                writer.write_line(rl.as_str());
                proof {
                    assert(ref_lines(name@, refs_seq, p as int) =~= line1(
                        name@ + " ~ "@ + refs_seq[p as int]@,
                    ) + ref_lines(name@, refs_seq, p + 1));
                    assert(prev + ref_lines(name@, refs_seq, p as int) =~= writer.out@
                        + ref_lines(name@, refs_seq, p + 1));
                }
                p = p + 1;
            }
            let ghost before_blank = writer.out@;
            writer.write_line("");
            proof {
                reveal_strlit("");
                assert(is_blank_line(""@));
                assert(writer.out@ =~= before_blank + blank_line());
                assert(ref_lines(name@, refs_seq, refs@.len() as int) =~= Seq::<char>::empty());
                assert(writer.out@ =~= out0 + net_block(module.nets@, name@));
                assert(net_blocks(module.nets@, names_seq, i as int) =~= net_block(
                    module.nets@,
                    name@,
                ) + net_blocks(module.nets@, names_seq, i + 1));
                assert(out0 + net_blocks(module.nets@, names_seq, i as int) =~= writer.out@
                    + net_blocks(module.nets@, names_seq, i + 1));
            }
            i = i + 1;
        }
        proof {
            assert(net_blocks(module.nets@, names_seq, names_seq.len() as int)
                =~= Seq::<char>::empty());
            assert(writer.out@ =~= base2 + net_blocks(module.nets@, names_seq, 0));
        }
        writer.end_block();
        proof {
            assert(writer.out@ =~= old(writer).out@ + module_text(*module));
        }
    }

    /// Renders one file: its imports, then its symbols sorted by name.
    pub fn write_file(&self, file_idx: usize, writer: &mut AtopileWriter)
        requires
            self.wf(),
            file_idx < self.files_by_name@.len(),
            old(writer).indent_level == 0,
        ensures
            final(writer).out@ == old(writer).out@ + file_text(
                *self,
                self.files_by_name@[file_idx as int].filename@,
            ),
            final(writer).indent_level == 0,
    {
        let file = &self.files_by_name[file_idx];
        let ghost filename = file.filename@;
        proof {
            crate::atopile::lemma_find_file_positive(
                self.files_by_name@,
                filename,
                file_idx as int,
            );
        }
        let raw_imports = self.collect_imports(file.filename.as_str());
        let imports = sorted_imports(&raw_imports);
        let ghost imports_seq = sort_imports_spec(collect_imports_spec(*self, filename));
        let ghost base = writer.out@;
        let mut i: usize = 0;
        proof {
            assert(base + import_lines(imports_seq, 0) =~= writer.out@ + import_lines(
                imports_seq,
                0,
            ));
        }
        while i < imports.len()
            invariant
                i <= imports@.len(),
                imports@ == imports_seq,
                writer.indent_level == 0,
                base + import_lines(imports_seq, 0) == writer.out@ + import_lines(
                    imports_seq,
                    i as int,
                ),
            decreases imports@.len() - i,
        {
            let ghost prev = writer.out@;
            let line = import_line(imports[i].0.as_str(), imports[i].1.as_str());
            writer.write_line(line.as_str());
            proof {
                assert(import_lines(imports_seq, i as int) =~= line0(
                    "from \""@ + imports_seq[i as int].0@ + "\" import "@
                        + imports_seq[i as int].1@,
                ) + import_lines(imports_seq, i + 1));
                assert(prev + import_lines(imports_seq, i as int) =~= writer.out@ + import_lines(
                    imports_seq,
                    i + 1,
                ));
            }
            i = i + 1;
        }
        proof {
            assert(import_lines(imports_seq, imports_seq.len() as int) =~= Seq::<char>::empty());
            assert(writer.out@ =~= base + import_lines(imports_seq, 0));
        }
        if imports.len() > 0 {
            let ghost before_blank = writer.out@;
            writer.write_line("");
            proof {
                reveal_strlit("");
                assert(is_blank_line(""@));
                assert(writer.out@ =~= before_blank + blank_line());
            }
        }
        let sorted_names = sorted_strings_lex(&file.symbol_names);
        let ghost names_seq = sort_strings_lex_spec(file.symbol_names@);
        let ghost base2 = writer.out@;
        let mut i: usize = 0;
        proof {
            assert(base2 + symbols_text(*self, names_seq, 0) =~= writer.out@ + symbols_text(
                *self,
                names_seq,
                0,
            ));
        }
        while i < sorted_names.len()
            invariant
                i <= sorted_names@.len(),
                sorted_names@ == names_seq,
                names_seq == sort_strings_lex_spec(
                    self.files_by_name@[file_idx as int].symbol_names@,
                ),
                file_idx < self.files_by_name@.len(),
                self.wf(),
                writer.indent_level == 0,
                base2 + symbols_text(*self, names_seq, 0) == writer.out@ + symbols_text(
                    *self,
                    names_seq,
                    i as int,
                ),
            decreases sorted_names@.len() - i,
        {
            let ghost out0 = writer.out@;
            let name = &sorted_names[i];
            proof {
                broadcast use vstd::seq_lib::group_to_multiset_ensures;

                crate::sorting::lemma_sort_strings_lex_permutes(
                    self.files_by_name@[file_idx as int].symbol_names@,
                );
                assert(names_seq.contains(names_seq[i as int]));
                assert(names_seq.to_multiset().count(names_seq[i as int]) > 0);
                assert(self.files_by_name@[file_idx as int].symbol_names@.to_multiset().count(
                    names_seq[i as int],
                ) > 0);
                assert(self.files_by_name@[file_idx as int].symbol_names@.contains(
                    names_seq[i as int],
                ));
                let w = choose|w: int|
                    0 <= w < self.files_by_name@[file_idx as int].symbol_names@.len()
                        && self.files_by_name@[file_idx as int].symbol_names@[w]
                        == names_seq[i as int];
                assert(crate::atopile::has_symbol(
                    self.symbols_by_name@,
                    self.files_by_name@[file_idx as int].symbol_names@[w]@,
                ));
                let ws = choose|ws: int|
                    0 <= ws < self.symbols_by_name@.len() && sym_name(
                        #[trigger] self.symbols_by_name@[ws],
                    ) == name@;
                crate::atopile::lemma_find_symbol_positive(self.symbols_by_name@, name@, ws);
                crate::atopile::lemma_find_symbol_bounds(self.symbols_by_name@, name@);
            }
            let symbol_idx = match self.find_symbol(name.as_str()) {
                Some(si) => si,
                None => {
                    proof {
                        assert(false);
                    }
                    vstd::pervasive::unreached()
                },
            };
            match &self.symbols_by_name[symbol_idx] {
                AtopileSymbol::Component(c) => {
                    self.write_component(c, writer);
                },
                AtopileSymbol::Module(m) => {
                    self.write_module(m, writer);
                },
            }
            proof {
                assert(symbols_text(*self, names_seq, i as int) =~= (match self.symbols_by_name@[
                    symbol_idx as int
                ] {
                    AtopileSymbol::Component(c) => component_text(c),
                    AtopileSymbol::Module(m) => module_text(m),
                }) + symbols_text(*self, names_seq, i + 1));
                assert(out0 + symbols_text(*self, names_seq, i as int) =~= writer.out@
                    + symbols_text(*self, names_seq, i + 1));
            }
            i = i + 1;
        }
        proof {
            assert(symbols_text(*self, names_seq, names_seq.len() as int)
                =~= Seq::<char>::empty());
            assert(writer.out@ =~= base2 + symbols_text(*self, names_seq, 0));
            crate::atopile::lemma_find_file_bounds(self.files_by_name@, filename);
            let fi = crate::atopile::find_file_idx(self.files_by_name@, filename);
            assert(fi == file_idx as int) by {
                if fi != file_idx as int {
                    assert(self.files_by_name@[fi].filename@
                        == self.files_by_name@[file_idx as int].filename@);
                    if fi < file_idx as int {
                        assert(self.files_by_name@[fi].filename@
                            != self.files_by_name@[file_idx as int].filename@);
                    } else {
                        assert(self.files_by_name@[file_idx as int].filename@
                            != self.files_by_name@[fi].filename@);
                    }
                }
            }
            assert(base2 =~= old(writer).out@ + (import_lines(imports_seq, 0) + (if imports_seq.len()
                > 0 {
                blank_line()
            } else {
                Seq::<char>::empty()
            })));
            assert(writer.out@ =~= old(writer).out@ + file_text(*self, filename));
        }
    }

    /// Renders every file of the project to its text.
    pub fn render_files(&self) -> (r: Vec<(String, String)>)
        requires
            self.wf(),
        ensures
            r@.len() == self.files_by_name@.len(),
            forall|i: int|
                0 <= i < r@.len() ==> (#[trigger] r@[i]).0 == self.files_by_name@[i].filename
                    && r@[i].1@ == file_text(*self, self.files_by_name@[i].filename@),
    {
        let mut out: Vec<(String, String)> = Vec::new();
        let mut i: usize = 0;
        while i < self.files_by_name.len()
            invariant
                i <= self.files_by_name@.len(),
                self.wf(),
                out@.len() == i,
                forall|k: int|
                    0 <= k < i ==> (#[trigger] out@[k]).0 == self.files_by_name@[k].filename
                        && out@[k].1@ == file_text(*self, self.files_by_name@[k].filename@),
            decreases self.files_by_name@.len() - i,
        {
            let mut writer = AtopileWriter::new();
            self.write_file(i, &mut writer);
            let filename = self.files_by_name[i].filename.clone();
            let text = writer.into_string();
            proof {
                assert(text@ =~= file_text(*self, self.files_by_name@[i as int].filename@));
            }
            out.push((filename, text));
            i = i + 1;
        }
        out
    }
}

} // verus!
