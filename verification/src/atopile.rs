//! The hierarchical project model: one compilation unit per part and per
//! schematic sheet, a root module, and a single global symbol namespace.

use crate::component::{Component, ComponentRef};
use crate::normalizer::{part_name_spec, AtopileNormalizer};
use crate::part::{meta_idx, meta_lookup, meta_wf, Part, Port};
use crate::schematic::{Normalizer, Schematic, SchematicError};
use crate::strutil::{lower_str, push_char, upper_char};
use vstd::prelude::*;

verus! {

/// Errors of project construction.
#[derive(Debug)]
pub enum AtopileError {
    SchematicError(SchematicError),
    NameCollisionError(String),
}

/// The rendered text of a project construction error.
pub open spec fn atopile_error_text(e: AtopileError) -> Seq<char> {
    match e {
        AtopileError::SchematicError(inner) => "Schematic error: "@
            + crate::schematic::schematic_error_text(inner),
        AtopileError::NameCollisionError(n) => "Name collision: "@ + n@,
    }
}

impl AtopileError {
    /// The rendered error text.
    pub fn message(&self) -> (r: String)
        ensures
            r@ == atopile_error_text(*self),
    {
        let mut out = String::new();
        match self {
            AtopileError::SchematicError(e) => {
                out.append("Schematic error: ");
                let inner = e.message();
                out.append(inner.as_str());
            },
            AtopileError::NameCollisionError(n) => {
                out.append("Name collision: ");
                out.append(n.as_str());
            },
        }
        out
    }
}

/// One output file and the symbols it defines, in definition order.
pub struct AtopileFile {
    pub filename: String,
    pub symbol_names: Vec<String>,
}

/// A symbol of the project: a component declaration or a module.
pub enum AtopileSymbol {
    Component(AtopileComponent),
    Module(AtopileModule),
}

/// A component declaration: its signals, each mapping to the pin terminal
/// identifiers it covers, and a snapshot of the originating part for
/// metadata lookups at emission time.
pub struct AtopileComponent {
    pub name: String,
    pub signals: Vec<(String, Vec<String>)>,
    pub part: Part,
}

/// One instantiation line of a module.
pub struct AtopileDefinition {
    pub name: String,
    pub symbol_name: String,
    pub component: Option<ComponentRef>,
}

impl Clone for AtopileDefinition {
    fn clone(&self) -> (r: AtopileDefinition)
        ensures
            r == *self,
    {
        let r = AtopileDefinition {
            name: self.name.clone(),
            symbol_name: self.symbol_name.clone(),
            component: self.component,
        };
        proof {
            assert(r == *self);
        }
        r
    }
}

/// A module: its instantiations and the nets it declares, each net a list
/// of port reference strings.
pub struct AtopileModule {
    pub name: String,
    pub definitions: Vec<AtopileDefinition>,
    pub nets: Vec<(String, Vec<String>)>,
}

/// The name a symbol defines.
pub open spec fn sym_name(s: AtopileSymbol) -> Seq<char> {
    match s {
        AtopileSymbol::Component(c) => c.name@,
        AtopileSymbol::Module(m) => m.name@,
    }
}

impl AtopileSymbol {
    /// The name this symbol defines.
    pub fn name(&self) -> (r: &str)
        ensures
            r@ == sym_name(*self),
    {
        match self {
            AtopileSymbol::Component(c) => c.name.as_str(),
            AtopileSymbol::Module(m) => m.name.as_str(),
        }
    }
}

/// Key of the symbol with the given name, or `-1`.
pub open spec fn find_symbol_idx(symbols: Seq<AtopileSymbol>, name: Seq<char>) -> int
    decreases symbols.len(),
{
    if symbols.len() == 0 {
        -1
    } else if sym_name(symbols[0]) == name {
        0
    } else {
        let r = find_symbol_idx(symbols.drop_first(), name);
        if r < 0 {
            -1
        } else {
            r + 1
        }
    }
}

pub open spec fn has_symbol(symbols: Seq<AtopileSymbol>, name: Seq<char>) -> bool {
    exists|k: int| 0 <= k < symbols.len() && sym_name(#[trigger] symbols[k]) == name
}

pub proof fn lemma_find_symbol_idx_of(symbols: Seq<AtopileSymbol>, name: Seq<char>, n: int)
    requires
        0 <= n <= symbols.len(),
        forall|k: int| 0 <= k < n ==> sym_name(#[trigger] symbols[k]) != name,
        n < symbols.len() ==> sym_name(symbols[n]) == name,
    ensures
        find_symbol_idx(symbols, name) == if n < symbols.len() {
            n
        } else {
            -1
        },
    decreases n,
{
    if n == 0 {
        if symbols.len() > 0 && sym_name(symbols[0]) != name {
            assert(forall|k: int|
                0 <= k < symbols.len() - 1 ==> #[trigger] symbols.drop_first()[k] == symbols[k
                    + 1]);
            lemma_find_symbol_idx_of(symbols.drop_first(), name, 0);
        }
    } else {
        assert(forall|k: int|
            0 <= k < symbols.len() - 1 ==> #[trigger] symbols.drop_first()[k] == symbols[k + 1]);
        lemma_find_symbol_idx_of(symbols.drop_first(), name, n - 1);
    }
}

/// Key of the file with the given filename, or `-1`.
pub open spec fn find_file_idx(files: Seq<AtopileFile>, filename: Seq<char>) -> int
    decreases files.len(),
{
    if files.len() == 0 {
        -1
    } else if files[0].filename@ == filename {
        0
    } else {
        let r = find_file_idx(files.drop_first(), filename);
        if r < 0 {
            -1
        } else {
            r + 1
        }
    }
}

pub open spec fn has_file(files: Seq<AtopileFile>, filename: Seq<char>) -> bool {
    exists|k: int| 0 <= k < files.len() && (#[trigger] files[k]).filename@ == filename
}

pub proof fn lemma_find_file_idx_of(files: Seq<AtopileFile>, filename: Seq<char>, n: int)
    requires
        0 <= n <= files.len(),
        forall|k: int| 0 <= k < n ==> (#[trigger] files[k]).filename@ != filename,
        n < files.len() ==> files[n].filename@ == filename,
    ensures
        find_file_idx(files, filename) == if n < files.len() {
            n
        } else {
            -1
        },
    decreases n,
{
    if n == 0 {
        if files.len() > 0 && files[0].filename@ != filename {
            assert(forall|k: int|
                0 <= k < files.len() - 1 ==> #[trigger] files.drop_first()[k] == files[k + 1]);
            lemma_find_file_idx_of(files.drop_first(), filename, 0);
        }
    } else {
        assert(forall|k: int|
            0 <= k < files.len() - 1 ==> #[trigger] files.drop_first()[k] == files[k + 1]);
        lemma_find_file_idx_of(files.drop_first(), filename, n - 1);
    }
}

/// Signal keys (or net keys) are pairwise distinct.
pub open spec fn keys_unique(entries: Seq<(String, Vec<String>)>) -> bool {
    forall|i: int, j: int|
        0 <= i < j < entries.len() ==> (#[trigger] entries[i]).0@ != (#[trigger] entries[j]).0@
}

/// Internal consistency of one symbol.
pub open spec fn sym_wf(s: AtopileSymbol) -> bool {
    match s {
        AtopileSymbol::Component(c) => keys_unique(c.signals@),
        AtopileSymbol::Module(m) => keys_unique(m.nets@),
    }
}

/// A project: its files, its symbols, and the mapping from each symbol to
/// the file defining it.
pub struct AtopileProject {
    pub name: String,
    pub files_by_name: Vec<AtopileFile>,
    pub symbols_by_name: Vec<AtopileSymbol>,
    pub symbol_name_to_file_name: Vec<(String, String)>,
}

impl AtopileProject {
    /// Filenames and symbol names are unique, every name listed in a file
    /// is a defined symbol, and every symbol is mapped to its file.
    pub open spec fn wf(self) -> bool {
        &&& forall|i: int, j: int|
            0 <= i < j < self.files_by_name@.len() ==> (#[trigger] self.files_by_name@[i]).filename@
                != (#[trigger] self.files_by_name@[j]).filename@
        &&& forall|i: int, j: int|
            0 <= i < j < self.symbols_by_name@.len() ==> sym_name(#[trigger] self.symbols_by_name@[i])
                != sym_name(#[trigger] self.symbols_by_name@[j])
        &&& forall|i: int|
            0 <= i < self.symbols_by_name@.len() ==> sym_wf(#[trigger] self.symbols_by_name@[i])
        &&& meta_wf(self.symbol_name_to_file_name@)
        &&& forall|fi: int, si: int|
            0 <= fi < self.files_by_name@.len() && 0 <= si
                < (#[trigger] self.files_by_name@[fi]).symbol_names@.len() ==> has_symbol(
                self.symbols_by_name@,
                (#[trigger] self.files_by_name@[fi].symbol_names@[si])@,
            )
        &&& forall|i: int|
            0 <= i < self.symbols_by_name@.len() ==> meta_idx(
                self.symbol_name_to_file_name@,
                sym_name(#[trigger] self.symbols_by_name@[i]),
            ) >= 0
        &&& forall|k: int|
            0 <= k < self.symbol_name_to_file_name@.len() ==> has_symbol(
                self.symbols_by_name@,
                (#[trigger] self.symbol_name_to_file_name@[k]).0@,
            )
    }

    /// Key of an existing file with that name, or of a fresh empty file
    /// appended under it.
    #[verifier::loop_isolation(false)]
    pub fn find_or_create_file(&mut self, filename: &str) -> (fi: usize)
        requires
            old(self).wf(),
        ensures
            final(self).wf(),
            final(self).name == old(self).name,
            final(self).symbols_by_name == old(self).symbols_by_name,
            final(self).symbol_name_to_file_name == old(self).symbol_name_to_file_name,
            fi < final(self).files_by_name@.len(),
            final(self).files_by_name@[fi as int].filename@ == filename@,
            ({
                let j = find_file_idx(old(self).files_by_name@, filename@);
                if j >= 0 {
                    final(self).files_by_name == old(self).files_by_name && fi == j
                } else {
                    &&& fi == old(self).files_by_name@.len()
                    &&& final(self).files_by_name@.len() == old(self).files_by_name@.len() + 1
                    &&& forall|k: int|
                        0 <= k < old(self).files_by_name@.len()
                            ==> #[trigger] final(self).files_by_name@[k]
                            == old(self).files_by_name@[k]
                    &&& final(self).files_by_name@.last().symbol_names@.len() == 0
                }
            }),
    {
        let mut i: usize = 0;
        while i < self.files_by_name.len()
            invariant
                i <= self.files_by_name@.len(),
                *self == *old(self),
                forall|k: int|
                    0 <= k < i ==> (#[trigger] self.files_by_name@[k]).filename@ != filename@,
            decreases self.files_by_name@.len() - i,
        {
            if crate::strutil::str_eq(self.files_by_name[i].filename.as_str(), filename) {
                proof {
                    lemma_find_file_idx_of(self.files_by_name@, filename@, i as int);
                }
                return i;
            }
            i = i + 1;
        }
        proof {
            lemma_find_file_idx_of(self.files_by_name@, filename@, self.files_by_name@.len() as int);
        }
        let fi = self.files_by_name.len();
        self.files_by_name.push(
            AtopileFile { filename: filename.to_owned(), symbol_names: Vec::new() },
        );
        fi
    }

    /// Key of the module with that name, if a module defines it.
    pub fn find_module(&self, module_name: &str) -> (r: Option<usize>)
        ensures
            ({
                let i = find_symbol_idx(self.symbols_by_name@, module_name@);
                if i >= 0 && (self.symbols_by_name@[i] is Module) {
                    r == Some(i as usize)
                } else {
                    r is None
                }
            }),
            r matches Some(mi) ==> mi < self.symbols_by_name@.len()
                && self.symbols_by_name@[mi as int] is Module && sym_name(
                self.symbols_by_name@[mi as int],
            ) == module_name@,
    {
        let mut i: usize = 0;
        while i < self.symbols_by_name.len()
            invariant
                i <= self.symbols_by_name@.len(),
                forall|k: int|
                    0 <= k < i ==> sym_name(#[trigger] self.symbols_by_name@[k]) != module_name@,
            decreases self.symbols_by_name@.len() - i,
        {
            if crate::strutil::str_eq(self.symbols_by_name[i].name(), module_name) {
                proof {
                    lemma_find_symbol_idx_of(self.symbols_by_name@, module_name@, i as int);
                }
                match &self.symbols_by_name[i] {
                    AtopileSymbol::Module(_) => {
                        return Some(i);
                    },
                    AtopileSymbol::Component(_) => {
                        return None;
                    },
                }
            }
            i = i + 1;
        }
        proof {
            lemma_find_symbol_idx_of(
                self.symbols_by_name@,
                module_name@,
                self.symbols_by_name@.len() as int,
            );
        }
        None
    }

    /// Registers a symbol under a file; fails without mutating anything
    /// when the symbol name is already defined anywhere in the project.
    #[verifier::loop_isolation(false)]
    pub fn define_symbol(&mut self, filename: &str, symbol: AtopileSymbol) -> (r: Result<
        (),
        AtopileError,
    >)
        requires
            old(self).wf(),
            sym_wf(symbol),
        ensures
            final(self).wf(),
            final(self).name == old(self).name,
            has_symbol(old(self).symbols_by_name@, sym_name(symbol)) ==> (r matches Err(
                AtopileError::NameCollisionError(n),
            ) && n@ == sym_name(symbol) && *final(self) == *old(self)),
            !has_symbol(old(self).symbols_by_name@, sym_name(symbol)) ==> {
                &&& r is Ok
                &&& final(self).symbols_by_name@ == old(self).symbols_by_name@.push(symbol)
                &&& final(self).symbol_name_to_file_name@.len() == old(
                    self,
                ).symbol_name_to_file_name@.len() + 1
                &&& forall|k: int|
                    0 <= k < old(self).symbol_name_to_file_name@.len()
                        ==> #[trigger] final(self).symbol_name_to_file_name@[k]
                        == old(self).symbol_name_to_file_name@[k]
                &&& final(self).symbol_name_to_file_name@.last().0@ == sym_name(symbol)
                &&& final(self).symbol_name_to_file_name@.last().1@ == filename@
                &&& ({
                    let j = find_file_idx(old(self).files_by_name@, filename@);
                    if j >= 0 {
                        &&& final(self).files_by_name@.len() == old(self).files_by_name@.len()
                        &&& forall|k: int|
                            0 <= k < old(self).files_by_name@.len() && k != j
                                ==> #[trigger] final(self).files_by_name@[k]
                                == old(self).files_by_name@[k]
                        &&& final(self).files_by_name@[j].filename
                            == old(self).files_by_name@[j].filename
                        &&& final(self).files_by_name@[j].symbol_names@.len() == old(
                            self,
                        ).files_by_name@[j].symbol_names@.len() + 1
                        &&& forall|k: int|
                            0 <= k < old(self).files_by_name@[j].symbol_names@.len()
                                ==> #[trigger] final(self).files_by_name@[j].symbol_names@[k]
                                == old(self).files_by_name@[j].symbol_names@[k]
                        &&& final(self).files_by_name@[j].symbol_names@.last()@ == sym_name(symbol)
                    } else {
                        &&& final(self).files_by_name@.len() == old(self).files_by_name@.len() + 1
                        &&& forall|k: int|
                            0 <= k < old(self).files_by_name@.len()
                                ==> #[trigger] final(self).files_by_name@[k]
                                == old(self).files_by_name@[k]
                        &&& final(self).files_by_name@.last().filename@ == filename@
                        &&& final(self).files_by_name@.last().symbol_names@.len() == 1
                        &&& final(self).files_by_name@.last().symbol_names@[0]@ == sym_name(symbol)
                    }
                })
            },
    {
        let symbol_name = symbol.name().to_owned();
        let mut i: usize = 0;
        while i < self.symbols_by_name.len()
            invariant
                i <= self.symbols_by_name@.len(),
                *self == *old(self),
                symbol_name@ == sym_name(symbol),
                forall|k: int|
                    0 <= k < i ==> sym_name(#[trigger] self.symbols_by_name@[k])
                        != symbol_name@,
            decreases self.symbols_by_name@.len() - i,
        {
            if crate::strutil::str_eq(self.symbols_by_name[i].name(), symbol_name.as_str()) {
                return Err(AtopileError::NameCollisionError(symbol_name));
            }
            i = i + 1;
        }
        let fi = self.find_or_create_file(filename);
        let ghost mid = *self;
        let mut file_taken = self.files_by_name.remove(fi);
        file_taken.symbol_names.push(symbol_name.clone());
        self.files_by_name.insert(fi, file_taken);
        proof {
            assert(self.files_by_name@ =~= mid.files_by_name@.update(
                fi as int,
                self.files_by_name@[fi as int],
            ));
        }
        self.symbol_name_to_file_name.push((symbol_name, filename.to_owned()));
        self.symbols_by_name.push(symbol);
        proof {
            let post = *self;
            assert(post.symbols_by_name@ == old(self).symbols_by_name@.push(symbol));
            assert forall|a: int, b: int|
                0 <= a < b < post.symbols_by_name@.len() implies sym_name(
                #[trigger] post.symbols_by_name@[a],
            ) != sym_name(#[trigger] post.symbols_by_name@[b]) by {
                if b < post.symbols_by_name@.len() - 1 {
                    assert(old(self).wf());
                }
            }
            assert forall|a: int|
                0 <= a < post.symbols_by_name@.len() implies meta_idx(
                post.symbol_name_to_file_name@,
                sym_name(#[trigger] post.symbols_by_name@[a]),
            ) >= 0 by {
                lemma_meta_idx_extend(
                    mid.symbol_name_to_file_name@,
                    post.symbol_name_to_file_name@,
                    sym_name(post.symbols_by_name@[a]),
                );
                if a < post.symbols_by_name@.len() - 1 {
                    assert(meta_idx(
                        mid.symbol_name_to_file_name@,
                        sym_name(old(self).symbols_by_name@[a]),
                    ) >= 0);
                }
            }
            assert(meta_wf(post.symbol_name_to_file_name@)) by {
                assert forall|a: int, b: int|
                    0 <= a < b < post.symbol_name_to_file_name@.len() implies (
                #[trigger] post.symbol_name_to_file_name@[a]).0@ != (
                #[trigger] post.symbol_name_to_file_name@[b]).0@ by {
                    if b == post.symbol_name_to_file_name@.len() - 1 {
                        assert(has_symbol(
                            old(self).symbols_by_name@,
                            mid.symbol_name_to_file_name@[a].0@,
                        ));
                        let w = choose|w: int|
                            0 <= w < old(self).symbols_by_name@.len() && sym_name(
                                #[trigger] old(self).symbols_by_name@[w],
                            ) == mid.symbol_name_to_file_name@[a].0@;
                        assert(sym_name(old(self).symbols_by_name@[w]) != symbol_name@);
                    }
                }
            }
            assert forall|k: int|
                0 <= k < post.symbol_name_to_file_name@.len() implies has_symbol(
                post.symbols_by_name@,
                (#[trigger] post.symbol_name_to_file_name@[k]).0@,
            ) by {
                if k < post.symbol_name_to_file_name@.len() - 1 {
                    assert(has_symbol(
                        old(self).symbols_by_name@,
                        mid.symbol_name_to_file_name@[k].0@,
                    ));
                    let w = choose|w: int|
                        0 <= w < old(self).symbols_by_name@.len() && sym_name(
                            #[trigger] old(self).symbols_by_name@[w],
                        ) == mid.symbol_name_to_file_name@[k].0@;
                    assert(sym_name(post.symbols_by_name@[w])
                        == mid.symbol_name_to_file_name@[k].0@);
                } else {
                    assert(sym_name(post.symbols_by_name@.last()) == symbol_name@);
                }
            }
            assert forall|fi2: int, si: int|
                0 <= fi2 < post.files_by_name@.len() && 0 <= si < (
            #[trigger] post.files_by_name@[fi2]).symbol_names@.len() implies has_symbol(
                post.symbols_by_name@,
                (#[trigger] post.files_by_name@[fi2].symbol_names@[si])@,
            ) by {
                if fi2 == fi && si == post.files_by_name@[fi2].symbol_names@.len() - 1 {
                    assert(sym_name(post.symbols_by_name@.last()) == symbol_name@);
                } else {
                    assert(mid.files_by_name@[fi2].symbol_names@[si]
                        == post.files_by_name@[fi2].symbol_names@[si]);
                    assert(has_symbol(
                        mid.symbols_by_name@,
                        mid.files_by_name@[fi2].symbol_names@[si]@,
                    ));
                    let w = choose|w: int|
                        0 <= w < mid.symbols_by_name@.len() && sym_name(
                            #[trigger] mid.symbols_by_name@[w],
                        ) == mid.files_by_name@[fi2].symbol_names@[si]@;
                    assert(sym_name(post.symbols_by_name@[w])
                        == mid.files_by_name@[fi2].symbol_names@[si]@);
                }
            }
        }
        Ok(())
    }
}

/// The definitions of a module symbol; a component symbol has none.
pub open spec fn module_defs(s: AtopileSymbol) -> Seq<AtopileDefinition> {
    match s {
        AtopileSymbol::Module(m) => m.definitions@,
        AtopileSymbol::Component(_) => Seq::empty(),
    }
}

/// The net entries of a module symbol; a component symbol has none.
pub open spec fn module_nets(s: AtopileSymbol) -> Seq<(String, Vec<String>)> {
    match s {
        AtopileSymbol::Module(m) => m.nets@,
        AtopileSymbol::Component(_) => Seq::empty(),
    }
}

/// Key of the entry stored under `key`, or `-1`.
pub open spec fn entry_idx(entries: Seq<(String, Vec<String>)>, key: Seq<char>) -> int
    decreases entries.len(),
{
    if entries.len() == 0 {
        -1
    } else if entries[0].0@ == key {
        0
    } else {
        let r = entry_idx(entries.drop_first(), key);
        if r < 0 {
            -1
        } else {
            r + 1
        }
    }
}

pub proof fn lemma_entry_idx_of(entries: Seq<(String, Vec<String>)>, key: Seq<char>, n: int)
    requires
        0 <= n <= entries.len(),
        forall|k: int| 0 <= k < n ==> (#[trigger] entries[k]).0@ != key,
        n < entries.len() ==> entries[n].0@ == key,
    ensures
        entry_idx(entries, key) == if n < entries.len() {
            n
        } else {
            -1
        },
    decreases n,
{
    if n == 0 {
        if entries.len() > 0 && entries[0].0@ != key {
            assert(forall|k: int|
                0 <= k < entries.len() - 1 ==> #[trigger] entries.drop_first()[k] == entries[k
                    + 1]);
            lemma_entry_idx_of(entries.drop_first(), key, 0);
        }
    } else {
        assert(forall|k: int|
            0 <= k < entries.len() - 1 ==> #[trigger] entries.drop_first()[k] == entries[k + 1]);
        lemma_entry_idx_of(entries.drop_first(), key, n - 1);
    }
}

/// Position of the entry stored under `key`, if any.
pub fn entry_pos(entries: &Vec<(String, Vec<String>)>, key: &str) -> (r: Option<usize>)
    ensures
        r matches Some(j) ==> j == entry_idx(entries@, key@) && j < entries@.len()
            && entries@[j as int].0@ == key@,
        r matches Some(j) ==> forall|k: int| 0 <= k < j ==> (#[trigger] entries@[k]).0@ != key@,
        r is None ==> entry_idx(entries@, key@) == -1,
        r is None ==> forall|k: int| 0 <= k < entries@.len() ==> (#[trigger] entries@[k]).0@
            != key@,
{
    let mut i: usize = 0;
    while i < entries.len()
        invariant
            i <= entries@.len(),
            forall|k: int| 0 <= k < i ==> (#[trigger] entries@[k]).0@ != key@,
        decreases entries@.len() - i,
    {
        if crate::strutil::str_eq(entries[i].0.as_str(), key) {
            proof {
                lemma_entry_idx_of(entries@, key@, i as int);
            }
            return Some(i);
        }
        i = i + 1;
    }
    proof {
        lemma_entry_idx_of(entries@, key@, entries@.len() as int);
    }
    None
}

/// A key present at some index is found by the entry scan.
pub proof fn lemma_entry_idx_positive(entries: Seq<(String, Vec<String>)>, key: Seq<char>, w: int)
    requires
        0 <= w < entries.len(),
        entries[w].0@ == key,
    ensures
        entry_idx(entries, key) >= 0,
    decreases w,
{
    if entries.len() > 0 && entries[0].0@ != key {
        assert(forall|k: int|
            0 <= k < entries.len() - 1 ==> #[trigger] entries.drop_first()[k] == entries[k + 1]);
        lemma_entry_idx_positive(entries.drop_first(), key, w - 1);
    }
}

impl AtopileProject {
    /// Appends one instantiation to a module.
    pub fn push_definition(&mut self, module_idx: usize, def: AtopileDefinition)
        requires
            old(self).wf(),
            module_idx < old(self).symbols_by_name@.len(),
            old(self).symbols_by_name@[module_idx as int] is Module,
        ensures
            final(self).wf(),
            final(self).name == old(self).name,
            final(self).files_by_name == old(self).files_by_name,
            final(self).symbol_name_to_file_name == old(self).symbol_name_to_file_name,
            final(self).symbols_by_name@.len() == old(self).symbols_by_name@.len(),
            forall|k: int|
                0 <= k < old(self).symbols_by_name@.len() && k != module_idx
                    ==> #[trigger] final(self).symbols_by_name@[k]
                    == old(self).symbols_by_name@[k],
            final(self).symbols_by_name@[module_idx as int] is Module,
            sym_name(final(self).symbols_by_name@[module_idx as int]) == sym_name(
                old(self).symbols_by_name@[module_idx as int],
            ),
            module_defs(final(self).symbols_by_name@[module_idx as int]) == module_defs(
                old(self).symbols_by_name@[module_idx as int],
            ).push(def),
            module_nets(final(self).symbols_by_name@[module_idx as int]) == module_nets(
                old(self).symbols_by_name@[module_idx as int],
            ),
    {
        let mut taken = self.symbols_by_name.remove(module_idx);
        match &mut taken {
            AtopileSymbol::Module(m) => {
                m.definitions.push(def);
            },
            AtopileSymbol::Component(_) => {
                proof {
                    assert(false);
                }
            },
        }
        self.symbols_by_name.insert(module_idx, taken);
        proof {
            assert(self.symbols_by_name@ =~= old(self).symbols_by_name@.update(
                module_idx as int,
                self.symbols_by_name@[module_idx as int],
            ));
            lemma_project_symbol_update_wf(*old(self), *self, module_idx as int);
        }
    }

    /// Appends one port reference to a module's net entry, creating the
    /// entry when the net is new to the module.
    pub fn append_net_ref(&mut self, module_idx: usize, net_name: &str, reference: String)
        requires
            old(self).wf(),
            module_idx < old(self).symbols_by_name@.len(),
            old(self).symbols_by_name@[module_idx as int] is Module,
        ensures
            final(self).wf(),
            final(self).name == old(self).name,
            final(self).files_by_name == old(self).files_by_name,
            final(self).symbol_name_to_file_name == old(self).symbol_name_to_file_name,
            final(self).symbols_by_name@.len() == old(self).symbols_by_name@.len(),
            forall|k: int|
                0 <= k < old(self).symbols_by_name@.len() && k != module_idx
                    ==> #[trigger] final(self).symbols_by_name@[k]
                    == old(self).symbols_by_name@[k],
            final(self).symbols_by_name@[module_idx as int] is Module,
            sym_name(final(self).symbols_by_name@[module_idx as int]) == sym_name(
                old(self).symbols_by_name@[module_idx as int],
            ),
            module_defs(final(self).symbols_by_name@[module_idx as int]) == module_defs(
                old(self).symbols_by_name@[module_idx as int],
            ),
            ({
                let old_nets = module_nets(old(self).symbols_by_name@[module_idx as int]);
                let new_nets = module_nets(final(self).symbols_by_name@[module_idx as int]);
                let j = entry_idx(old_nets, net_name@);
                if j >= 0 {
                    &&& new_nets.len() == old_nets.len()
                    &&& forall|k: int|
                        0 <= k < old_nets.len() && k != j ==> #[trigger] new_nets[k]
                            == old_nets[k]
                    &&& new_nets[j].0 == old_nets[j].0
                    &&& new_nets[j].1@ == old_nets[j].1@.push(reference)
                } else {
                    &&& new_nets.len() == old_nets.len() + 1
                    &&& forall|k: int|
                        0 <= k < old_nets.len() ==> #[trigger] new_nets[k] == old_nets[k]
                    &&& new_nets.last().0@ == net_name@
                    &&& new_nets.last().1@ == seq![reference]
                }
            }),
    {
        let mut taken = self.symbols_by_name.remove(module_idx);
        match &mut taken {
            AtopileSymbol::Module(m) => {
                match entry_pos(&m.nets, net_name) {
                    Some(j) => {
                        let mut entry = m.nets.remove(j);
                        entry.1.push(reference);
                        m.nets.insert(j, entry);
                        proof {
                            assert(m.nets@ =~= module_nets(
                                old(self).symbols_by_name@[module_idx as int],
                            ).update(j as int, m.nets@[j as int]));
                        }
                    },
                    None => {
                        let mut refs: Vec<String> = Vec::new();
                        refs.push(reference);
                        proof {
                            assert(refs@ =~= seq![reference]);
                        }
                        m.nets.push((net_name.to_owned(), refs));
                    },
                }
            },
            AtopileSymbol::Component(_) => {
                proof {
                    assert(false);
                }
            },
        }
        self.symbols_by_name.insert(module_idx, taken);
        proof {
            assert(self.symbols_by_name@ =~= old(self).symbols_by_name@.update(
                module_idx as int,
                self.symbols_by_name@[module_idx as int],
            ));
            let old_nets = module_nets(old(self).symbols_by_name@[module_idx as int]);
            let new_nets = module_nets(self.symbols_by_name@[module_idx as int]);
            let j = entry_idx(old_nets, net_name@);
            assert(sym_wf(old(self).symbols_by_name@[module_idx as int]));
            assert(keys_unique(old_nets));
            assert(keys_unique(new_nets)) by {
                assert forall|a: int, b: int|
                    0 <= a < b < new_nets.len() implies (#[trigger] new_nets[a]).0@ != (
                #[trigger] new_nets[b]).0@ by {
                    if j >= 0 {
                        assert(old_nets[a].0@ != old_nets[b].0@);
                        assert(new_nets[a].0@ == old_nets[a].0@);
                        assert(new_nets[b].0@ == old_nets[b].0@);
                    } else {
                        if b == new_nets.len() - 1 {
                            assert(new_nets[a].0@ == old_nets[a].0@);
                            assert(new_nets[b].0@ == net_name@);
                        } else {
                            assert(old_nets[a].0@ != old_nets[b].0@);
                        }
                    }
                }
            }
            lemma_project_symbol_update_wf(*old(self), *self, module_idx as int);
        }
    }
}

/// Replacing one symbol with a module of the same name and unique net
/// keys keeps the project well formed.
proof fn lemma_project_symbol_update_wf(pre: AtopileProject, post: AtopileProject, idx: int)
    requires
        pre.wf(),
        post.name == pre.name,
        post.files_by_name == pre.files_by_name,
        post.symbol_name_to_file_name == pre.symbol_name_to_file_name,
        post.symbols_by_name@.len() == pre.symbols_by_name@.len(),
        0 <= idx < pre.symbols_by_name@.len(),
        forall|k: int|
            0 <= k < pre.symbols_by_name@.len() && k != idx
                ==> #[trigger] post.symbols_by_name@[k] == pre.symbols_by_name@[k],
        sym_name(post.symbols_by_name@[idx]) == sym_name(pre.symbols_by_name@[idx]),
        sym_wf(post.symbols_by_name@[idx]),
    ensures
        post.wf(),
{
    assert forall|a: int, b: int|
        0 <= a < b < post.symbols_by_name@.len() implies sym_name(
        #[trigger] post.symbols_by_name@[a],
    ) != sym_name(#[trigger] post.symbols_by_name@[b]) by {
        assert(sym_name(pre.symbols_by_name@[a]) != sym_name(pre.symbols_by_name@[b]));
    }
    assert forall|fi: int, si: int|
        0 <= fi < post.files_by_name@.len() && 0 <= si < (
    #[trigger] post.files_by_name@[fi]).symbol_names@.len() implies has_symbol(
        post.symbols_by_name@,
        (#[trigger] post.files_by_name@[fi].symbol_names@[si])@,
    ) by {
        assert(has_symbol(pre.symbols_by_name@, pre.files_by_name@[fi].symbol_names@[si]@));
        let w = choose|w: int|
            0 <= w < pre.symbols_by_name@.len() && sym_name(#[trigger] pre.symbols_by_name@[w])
                == pre.files_by_name@[fi].symbol_names@[si]@;
        assert(sym_name(post.symbols_by_name@[w]) == pre.files_by_name@[fi].symbol_names@[si]@);
    }
    assert forall|i: int|
        0 <= i < post.symbols_by_name@.len() implies meta_idx(
        post.symbol_name_to_file_name@,
        sym_name(#[trigger] post.symbols_by_name@[i]),
    ) >= 0 by {
        assert(meta_idx(pre.symbol_name_to_file_name@, sym_name(pre.symbols_by_name@[i])) >= 0);
    }
    assert forall|k: int|
        0 <= k < post.symbol_name_to_file_name@.len() implies has_symbol(
        post.symbols_by_name@,
        (#[trigger] post.symbol_name_to_file_name@[k]).0@,
    ) by {
        assert(has_symbol(pre.symbols_by_name@, pre.symbol_name_to_file_name@[k].0@));
        let w = choose|w: int|
            0 <= w < pre.symbols_by_name@.len() && sym_name(#[trigger] pre.symbols_by_name@[w])
                == pre.symbol_name_to_file_name@[k].0@;
        assert(sym_name(post.symbols_by_name@[w]) == pre.symbol_name_to_file_name@[k].0@);
    }
}

/// Whether an import pair with these views is already collected.
pub open spec fn imports_contain(acc: Seq<(String, String)>, f: Seq<char>, s: Seq<char>) -> bool {
    exists|k: int| 0 <= k < acc.len() && (#[trigger] acc[k]).0@ == f && acc[k].1@ == s
}

/// Set-insertion of one import pair.
pub open spec fn insert_import(acc: Seq<(String, String)>, p: (String, String)) -> Seq<
    (String, String),
> {
    if imports_contain(acc, p.0@, p.1@) {
        acc
    } else {
        acc.push(p)
    }
}

/// The import one definition asks for: the file defining the referenced
/// symbol, when the symbol is known and lives in a different file than
/// the one being collected for.
pub open spec fn def_import(
    acc: Seq<(String, String)>,
    map: Seq<(String, String)>,
    current: Seq<char>,
    d: AtopileDefinition,
) -> Seq<(String, String)> {
    let j = meta_idx(map, d.symbol_name@);
    if j >= 0 && map[j].1@ != current {
        insert_import(acc, (map[j].1, d.symbol_name))
    } else {
        acc
    }
}

/// Folds `def_import` over a list of definitions.
pub open spec fn defs_imports(
    acc: Seq<(String, String)>,
    map: Seq<(String, String)>,
    current: Seq<char>,
    defs: Seq<AtopileDefinition>,
) -> Seq<(String, String)>
    decreases defs.len(),
{
    if defs.len() == 0 {
        acc
    } else {
        defs_imports(def_import(acc, map, current, defs[0]), map, current, defs.drop_first())
    }
}

/// Folds the imports of every module symbol named by a file.
pub open spec fn syms_imports(
    acc: Seq<(String, String)>,
    symbols: Seq<AtopileSymbol>,
    map: Seq<(String, String)>,
    current: Seq<char>,
    names: Seq<String>,
) -> Seq<(String, String)>
    decreases names.len(),
{
    if names.len() == 0 {
        acc
    } else {
        let si = find_symbol_idx(symbols, names[0]@);
        let step = if si >= 0 && symbols[si] is Module {
            defs_imports(acc, map, current, module_defs(symbols[si]))
        } else {
            acc
        };
        syms_imports(step, symbols, map, current, names.drop_first())
    }
}

/// The deduplicated imports of one file, in first-seen order; symbols
/// defined in the file itself need no import and contribute nothing.
pub open spec fn collect_imports_spec(p: AtopileProject, filename: Seq<char>) -> Seq<
    (String, String),
> {
    let fi = find_file_idx(p.files_by_name@, filename);
    syms_imports(
        Seq::empty(),
        p.symbols_by_name@,
        p.symbol_name_to_file_name@,
        filename,
        p.files_by_name@[fi].symbol_names@,
    )
}

pub proof fn lemma_defs_imports_snoc(
    acc: Seq<(String, String)>,
    map: Seq<(String, String)>,
    current: Seq<char>,
    defs: Seq<AtopileDefinition>,
    d: AtopileDefinition,
)
    ensures
        defs_imports(acc, map, current, defs.push(d)) == def_import(
            defs_imports(acc, map, current, defs),
            map,
            current,
            d,
        ),
    decreases defs.len(),
{
    if defs.len() == 0 {
        assert(defs.push(d)[0] == d);
        assert(defs.push(d).drop_first() =~= Seq::<AtopileDefinition>::empty());
        assert(defs_imports(
            def_import(acc, map, current, d),
            map,
            current,
            Seq::<AtopileDefinition>::empty(),
        ) == def_import(acc, map, current, d));
        assert(defs_imports(acc, map, current, Seq::<AtopileDefinition>::empty()) == acc);
    } else {
        assert(defs.push(d)[0] == defs[0]);
        assert(defs.push(d).drop_first() =~= defs.drop_first().push(d));
        lemma_defs_imports_snoc(
            def_import(acc, map, current, defs[0]),
            map,
            current,
            defs.drop_first(),
            d,
        );
    }
}

pub proof fn lemma_syms_imports_snoc(
    acc: Seq<(String, String)>,
    symbols: Seq<AtopileSymbol>,
    map: Seq<(String, String)>,
    current: Seq<char>,
    names: Seq<String>,
    n: String,
)
    ensures
        syms_imports(acc, symbols, map, current, names.push(n)) == ({
            let prev = syms_imports(acc, symbols, map, current, names);
            let si = find_symbol_idx(symbols, n@);
            if si >= 0 && symbols[si] is Module {
                defs_imports(prev, map, current, module_defs(symbols[si]))
            } else {
                prev
            }
        }),
    decreases names.len(),
{
    if names.len() == 0 {
        assert(names.push(n)[0] == n);
        assert(names.push(n).drop_first() =~= Seq::<String>::empty());
        let si = find_symbol_idx(symbols, n@);
        assert(syms_imports(acc, symbols, map, current, Seq::<String>::empty()) == acc);
        if si >= 0 && symbols[si] is Module {
            assert(syms_imports(
                defs_imports(acc, map, current, module_defs(symbols[si])),
                symbols,
                map,
                current,
                Seq::<String>::empty(),
            ) == defs_imports(acc, map, current, module_defs(symbols[si])));
        } else {
            assert(syms_imports(acc, symbols, map, current, Seq::<String>::empty()) == acc);
        }
    } else {
        assert(names.push(n)[0] == names[0]);
        assert(names.push(n).drop_first() =~= names.drop_first().push(n));
        let si0 = find_symbol_idx(symbols, names[0]@);
        let step = if si0 >= 0 && symbols[si0] is Module {
            defs_imports(acc, map, current, module_defs(symbols[si0]))
        } else {
            acc
        };
        lemma_syms_imports_snoc(step, symbols, map, current, names.drop_first(), n);
    }
}

impl AtopileProject {
    /// Key of the symbol with that name, if any.
    pub fn find_symbol(&self, name: &str) -> (r: Option<usize>)
        ensures
            r matches Some(i) ==> i == find_symbol_idx(self.symbols_by_name@, name@) && i
                < self.symbols_by_name@.len() && sym_name(self.symbols_by_name@[i as int])
                == name@,
            r is None ==> find_symbol_idx(self.symbols_by_name@, name@) == -1,
    {
        let mut i: usize = 0;
        while i < self.symbols_by_name.len()
            invariant
                i <= self.symbols_by_name@.len(),
                forall|k: int|
                    0 <= k < i ==> sym_name(#[trigger] self.symbols_by_name@[k]) != name@,
            decreases self.symbols_by_name@.len() - i,
        {
            if crate::strutil::str_eq(self.symbols_by_name[i].name(), name) {
                proof {
                    lemma_find_symbol_idx_of(self.symbols_by_name@, name@, i as int);
                }
                return Some(i);
            }
            i = i + 1;
        }
        proof {
            lemma_find_symbol_idx_of(
                self.symbols_by_name@,
                name@,
                self.symbols_by_name@.len() as int,
            );
        }
        None
    }

    /// Collects every import one file needs: for each definition of each
    /// module the file holds, the file defining the referenced symbol,
    /// deduplicated, in first-seen order. Symbols defined in this very
    /// file need no import and are skipped.
    #[verifier::loop_isolation(false)]
    pub fn collect_imports(&self, filename: &str) -> (r: Vec<(String, String)>)
        requires
            self.wf(),
            has_file(self.files_by_name@, filename@),
        ensures
            r@ == collect_imports_spec(*self, filename@),
    {
        let fi = match self.find_file(filename) {
            Some(fi) => fi,
            None => {
                proof {
                    assert(false);
                }
                vstd::pervasive::unreached()
            },
        };
        let file = &self.files_by_name[fi];
        let mut out: Vec<(String, String)> = Vec::new();
        let ghost symbols = self.symbols_by_name@;
        let ghost map = self.symbol_name_to_file_name@;
        let mut i: usize = 0;
        proof {
            assert(file.symbol_names@.take(0) =~= Seq::<String>::empty());
        }
        while i < file.symbol_names.len()
            invariant
                i <= file.symbol_names@.len(),
                out@ == syms_imports(
                    Seq::empty(),
                    symbols,
                    map,
                    filename@,
                    file.symbol_names@.take(i as int),
                ),
            decreases file.symbol_names@.len() - i,
        {
            proof {
                assert(file.symbol_names@.take(i + 1) =~= file.symbol_names@.take(
                    i as int,
                ).push(file.symbol_names@[i as int]));
                lemma_syms_imports_snoc(
                    Seq::empty(),
                    symbols,
                    map,
                    filename@,
                    file.symbol_names@.take(i as int),
                    file.symbol_names@[i as int],
                );
            }
            let sym_idx = match self.find_symbol(file.symbol_names[i].as_str()) {
                Some(si) => si,
                None => {
                    proof {
                        assert(has_symbol(symbols, file.symbol_names@[i as int]@));
                        let w = choose|w: int|
                            0 <= w < symbols.len() && sym_name(#[trigger] symbols[w])
                                == file.symbol_names@[i as int]@;
                        lemma_find_symbol_positive(symbols, file.symbol_names@[i as int]@, w);
                        assert(false);
                    }
                    vstd::pervasive::unreached()
                },
            };
            match &self.symbols_by_name[sym_idx] {
                AtopileSymbol::Module(m) => {
                    let ghost acc0 = out@;
                    let mut k: usize = 0;
                    proof {
                        assert(m.definitions@.take(0) =~= Seq::<AtopileDefinition>::empty());
                    }
                    while k < m.definitions.len()
                        invariant
                            k <= m.definitions@.len(),
                            out@ == defs_imports(
                                acc0,
                                map,
                                filename@,
                                m.definitions@.take(k as int),
                            ),
                        decreases m.definitions@.len() - k,
                    {
                        proof {
                            assert(m.definitions@.take(k + 1) =~= m.definitions@.take(
                                k as int,
                            ).push(m.definitions@[k as int]));
                            lemma_defs_imports_snoc(
                                acc0,
                                map,
                                filename@,
                                m.definitions@.take(k as int),
                                m.definitions@[k as int],
                            );
                        }
                        let def = &m.definitions[k];
                        match crate::part::meta_get(
                            &self.symbol_name_to_file_name,
                            def.symbol_name.as_str(),
                        ) {
                            Some(file_name) => {
                                if crate::strutil::str_eq(file_name.as_str(), filename) {
                                    // Defined right here: no import needed.
                                    k = k + 1;
                                    continue;
                                }
                                let mut seen = false;
                                let mut q: usize = 0;
                                while q < out.len()
                                    invariant
                                        q <= out@.len(),
                                        seen ==> imports_contain(
                                            out@,
                                            file_name@,
                                            def.symbol_name@,
                                        ),
                                        !seen ==> forall|c: int|
                                            0 <= c < q ==> !((#[trigger] out@[c]).0@ == file_name@
                                                && out@[c].1@ == def.symbol_name@),
                                    decreases out@.len() - q,
                                {
                                    if crate::strutil::str_eq(
                                        out[q].0.as_str(),
                                        file_name.as_str(),
                                    ) && crate::strutil::str_eq(
                                        out[q].1.as_str(),
                                        def.symbol_name.as_str(),
                                    ) {
                                        seen = true;
                                        proof {
                                            assert(imports_contain(
                                                out@,
                                                file_name@,
                                                def.symbol_name@,
                                            ));
                                        }
                                        break;
                                    }
                                    q = q + 1;
                                }
                                if !seen {
                                    out.push((file_name, def.symbol_name.clone()));
                                }
                            },
                            None => {},
                        }
                        k = k + 1;
                    }
                    proof {
                        assert(m.definitions@.take(m.definitions@.len() as int)
                            =~= m.definitions@);
                    }
                },
                AtopileSymbol::Component(_) => {},
            }
            i = i + 1;
        }
        proof {
            assert(file.symbol_names@.take(file.symbol_names@.len() as int)
                =~= file.symbol_names@);
        }
        out
    }

    /// Key of the file with that name, if any.
    pub fn find_file(&self, filename: &str) -> (r: Option<usize>)
        ensures
            r matches Some(i) ==> i == find_file_idx(self.files_by_name@, filename@) && i
                < self.files_by_name@.len() && self.files_by_name@[i as int].filename@
                == filename@,
            r is None ==> !has_file(self.files_by_name@, filename@),
    {
        let mut i: usize = 0;
        while i < self.files_by_name.len()
            invariant
                i <= self.files_by_name@.len(),
                forall|k: int|
                    0 <= k < i ==> (#[trigger] self.files_by_name@[k]).filename@ != filename@,
            decreases self.files_by_name@.len() - i,
        {
            if crate::strutil::str_eq(self.files_by_name[i].filename.as_str(), filename) {
                proof {
                    lemma_find_file_idx_of(self.files_by_name@, filename@, i as int);
                }
                return Some(i);
            }
            i = i + 1;
        }
        None
    }
}

/// A filename present at some key is found by the file scan.
pub proof fn lemma_find_file_positive(files: Seq<AtopileFile>, filename: Seq<char>, w: int)
    requires
        0 <= w < files.len(),
        files[w].filename@ == filename,
    ensures
        find_file_idx(files, filename) >= 0,
    decreases w,
{
    if files.len() > 0 && files[0].filename@ != filename {
        assert(forall|k: int|
            0 <= k < files.len() - 1 ==> #[trigger] files.drop_first()[k] == files[k + 1]);
        lemma_find_file_positive(files.drop_first(), filename, w - 1);
    }
}

/// A found filename lies in range and matches.
pub proof fn lemma_find_file_bounds(files: Seq<AtopileFile>, filename: Seq<char>)
    ensures
        find_file_idx(files, filename) >= 0 ==> find_file_idx(files, filename) < files.len()
            && files[find_file_idx(files, filename)].filename@ == filename,
    decreases files.len(),
{
    if files.len() > 0 && files[0].filename@ != filename {
        assert(forall|k: int|
            0 <= k < files.len() - 1 ==> #[trigger] files.drop_first()[k] == files[k + 1]);
        lemma_find_file_bounds(files.drop_first(), filename);
    }
}

/// A name seen at some key is found by the symbol scan.
pub proof fn lemma_find_symbol_positive(symbols: Seq<AtopileSymbol>, name: Seq<char>, w: int)
    requires
        0 <= w < symbols.len(),
        sym_name(symbols[w]) == name,
    ensures
        find_symbol_idx(symbols, name) >= 0,
    decreases w,
{
    if symbols.len() > 0 && sym_name(symbols[0]) != name {
        assert(forall|k: int|
            0 <= k < symbols.len() - 1 ==> #[trigger] symbols.drop_first()[k] == symbols[k + 1]);
        lemma_find_symbol_positive(symbols.drop_first(), name, w - 1);
    }
}

/// The project name with its first character ASCII upper-cased.
pub open spec fn capitalized(name: Seq<char>) -> Seq<char>
    recommends
        name.len() > 0,
{
    seq![upper_char(name[0])] + name.drop_first()
}

/// The raw sheet name of a component: its `Sheetname` metadata value, or
/// the project name.
pub open spec fn sheet_raw(c: Component, project_name: Seq<char>) -> Seq<char> {
    match meta_lookup(c.metadata@, "Sheetname"@) {
        Some(v) => v,
        None => project_name,
    }
}

/// Whether the component's sheet name survives part-name normalization.
pub open spec fn sheet_ok(c: Component, project_name: Seq<char>) -> bool {
    part_name_spec(sheet_raw(c, project_name)) is Some
}

/// The normalized sheet name of a component.
pub open spec fn sheet_of(c: Component, project_name: Seq<char>) -> Seq<char>
    recommends
        sheet_ok(c, project_name),
{
    part_name_spec(sheet_raw(c, project_name)).unwrap()
}

/// No part or sheet may be named like the root module, and no sheet
/// like a part: those are the symbol collisions project construction
/// rejects, never silently merged.
pub open spec fn names_ok(s: Schematic, cap: Seq<char>) -> bool {
    &&& forall|i: int| 0 <= i < s.parts@.len() ==> (#[trigger] s.parts@[i]).name@ != cap
    &&& forall|ci: int, pi: int|
        0 <= ci < s.components@.len() && 0 <= pi < s.parts@.len() ==> sheet_of(
            #[trigger] s.components@[ci],
            cap,
        ) != (#[trigger] s.parts@[pi]).name@
    &&& forall|ci: int|
        0 <= ci < s.components@.len() ==> sheet_of(#[trigger] s.components@[ci], cap) != cap
}

/// A net goes to the root module when it has no connection at all or its
/// connections span more than one sheet.
pub open spec fn net_in_root(s: Schematic, cap: Seq<char>, net: crate::net::Net) -> bool {
    ||| net.connections@.len() == 0
    ||| exists|k: int|
        0 <= k < net.connections@.len() && sheet_of(
            s.components@[(#[trigger] net.connections@[k]).0.idx as int],
            cap,
        ) != sheet_of(s.components@[net.connections@[0].0.idx as int], cap)
}

/// The name of the module that owns net `c` under the scope rule.
pub open spec fn net_owner(s: Schematic, cap: Seq<char>, c: int) -> Seq<char> {
    if net_in_root(s, cap, s.nets@[c]) {
        cap
    } else {
        sheet_of(s.components@[s.nets@[c].connections@[0].0.idx as int], cap)
    }
}

/// The net entry at key `q` of module symbol `si` belongs to net `c`:
/// same name, at least one connection, and the scope rule assigns the
/// net to exactly that module. Quantified over all entries, this rules
/// out stray declarations: a net never shows up in any module but its
/// owner, and a connection-less net shows up nowhere.
pub open spec fn entry_owner_is(
    p: AtopileProject,
    s: Schematic,
    cap: Seq<char>,
    si: int,
    q: int,
    c: int,
) -> bool {
    &&& module_nets(p.symbols_by_name@[si])[q].0@ == s.nets@[c].name@
    &&& s.nets@[c].connections@.len() > 0
    &&& si == find_symbol_idx(p.symbols_by_name@, net_owner(s, cap, c))
}

/// The net entry at key `q` of module symbol `si` belongs to one of the
/// first `upto` nets.
pub open spec fn entry_owned(
    p: AtopileProject,
    s: Schematic,
    cap: Seq<char>,
    si: int,
    q: int,
    upto: int,
) -> bool {
    exists|c: int|
        #![trigger entry_owner_is(p, s, cap, si, q, c)]
        0 <= c < upto && entry_owner_is(p, s, cap, si, q, c)
}

/// Every net entry of every module, over the first `upto` nets, belongs
/// to the net of its name, recorded in the one module the scope rule
/// assigns it to.
pub open spec fn nets_exclusive(p: AtopileProject, s: Schematic, cap: Seq<char>, upto: int) -> bool {
    forall|si: int, q: int|
        #![trigger entry_owned(p, s, cap, si, q, upto)]
        0 <= si < p.symbols_by_name@.len() && 0 <= q < module_nets(p.symbols_by_name@[si]).len()
            ==> entry_owned(p, s, cap, si, q, upto)
}

/// Exclusiveness over fewer nets implies it over more.
proof fn lemma_nets_exclusive_mono(p: AtopileProject, s: Schematic, cap: Seq<char>, a: int, b: int)
    requires
        a <= b,
        nets_exclusive(p, s, cap, a),
    ensures
        nets_exclusive(p, s, cap, b),
{
    assert forall|si: int, q: int|
        #![trigger entry_owned(p, s, cap, si, q, b)]
        0 <= si < p.symbols_by_name@.len() && 0 <= q < module_nets(
            p.symbols_by_name@[si],
        ).len() implies entry_owned(p, s, cap, si, q, b) by {
        assert(entry_owned(p, s, cap, si, q, a));
        let c = choose|c: int|
            #![trigger entry_owner_is(p, s, cap, si, q, c)]
            0 <= c < a && entry_owner_is(p, s, cap, si, q, c);
        assert(0 <= c < b && entry_owner_is(p, s, cap, si, q, c));
    }
}

/// One appended reference keeps every entry owned: the touched entry
/// belongs to the net being recorded, in its owner module; every other
/// entry is unchanged.
proof fn lemma_nets_exclusive_step(
    mid: AtopileProject,
    post: AtopileProject,
    s: Schematic,
    cap: Seq<char>,
    ni: int,
    mi: int,
)
    requires
        s.wf(),
        forall|ci: int|
            0 <= ci < s.components@.len() ==> sheet_ok(#[trigger] s.components@[ci], cap),
        0 <= ni < s.nets@.len(),
        s.nets@[ni].connections@.len() > 0,
        nets_exclusive(mid, s, cap, ni + 1),
        0 <= mi < mid.symbols_by_name@.len(),
        post.symbols_by_name@.len() == mid.symbols_by_name@.len(),
        forall|k: int|
            0 <= k < mid.symbols_by_name@.len() && k != mi
                ==> #[trigger] post.symbols_by_name@[k] == mid.symbols_by_name@[k],
        sym_name(post.symbols_by_name@[mi]) == sym_name(mid.symbols_by_name@[mi]),
        find_symbol_idx(post.symbols_by_name@, net_owner(s, cap, ni)) == mi,
        ({
            let old_e = module_nets(mid.symbols_by_name@[mi]);
            let new_e = module_nets(post.symbols_by_name@[mi]);
            let j = entry_idx(old_e, s.nets@[ni].name@);
            if j >= 0 {
                &&& new_e.len() == old_e.len()
                &&& forall|k: int| 0 <= k < old_e.len() && k != j ==> #[trigger] new_e[k] == old_e[k]
                &&& new_e[j].0@ == old_e[j].0@
            } else {
                &&& new_e.len() == old_e.len() + 1
                &&& forall|k: int| 0 <= k < old_e.len() ==> #[trigger] new_e[k] == old_e[k]
                &&& new_e.last().0@ == s.nets@[ni].name@
            }
        }),
    ensures
        nets_exclusive(post, s, cap, ni + 1),
{
    let old_e = module_nets(mid.symbols_by_name@[mi]);
    let new_e = module_nets(post.symbols_by_name@[mi]);
    let j = entry_idx(old_e, s.nets@[ni].name@);
    if j >= 0 {
        lemma_entry_idx_bounds(old_e, s.nets@[ni].name@);
    }
    assert forall|si: int, q: int|
        #![trigger entry_owned(post, s, cap, si, q, ni + 1)]
        0 <= si < post.symbols_by_name@.len() && 0 <= q < module_nets(
            post.symbols_by_name@[si],
        ).len() implies entry_owned(post, s, cap, si, q, ni + 1) by {
        if si != mi || q < old_e.len() {
            if si != mi {
                assert(post.symbols_by_name@[si] == mid.symbols_by_name@[si]);
            } else {
                assert(module_nets(post.symbols_by_name@[si])[q].0@ == module_nets(
                    mid.symbols_by_name@[si],
                )[q].0@);
            }
            assert(0 <= q < module_nets(mid.symbols_by_name@[si]).len());
            assert(entry_owned(mid, s, cap, si, q, ni + 1));
            let c = choose|c: int|
                #![trigger entry_owner_is(mid, s, cap, si, q, c)]
                0 <= c < ni + 1 && entry_owner_is(mid, s, cap, si, q, c);
            assert(s.net_wf(s.nets@[c]));
            lemma_find_symbol_same_names(
                mid.symbols_by_name@,
                post.symbols_by_name@,
                net_owner(s, cap, c),
            );
            assert(entry_owner_is(post, s, cap, si, q, c));
        } else {
            assert(new_e[q].0@ == s.nets@[ni].name@);
            assert(entry_owner_is(post, s, cap, si, q, ni));
        }
    }
}

/// Changes that keep every symbol's name and every module's net table
/// keep every entry owned.
proof fn lemma_nets_exclusive_same(
    mid: AtopileProject,
    post: AtopileProject,
    s: Schematic,
    cap: Seq<char>,
    upto: int,
)
    requires
        s.wf(),
        forall|ci: int|
            0 <= ci < s.components@.len() ==> sheet_ok(#[trigger] s.components@[ci], cap),
        upto <= s.nets@.len(),
        nets_exclusive(mid, s, cap, upto),
        post.symbols_by_name@.len() == mid.symbols_by_name@.len(),
        forall|k: int|
            0 <= k < mid.symbols_by_name@.len() ==> sym_name(#[trigger] post.symbols_by_name@[k])
                == sym_name(mid.symbols_by_name@[k]),
        forall|k: int|
            0 <= k < mid.symbols_by_name@.len() ==> module_nets(
                #[trigger] post.symbols_by_name@[k],
            ) == module_nets(mid.symbols_by_name@[k]),
    ensures
        nets_exclusive(post, s, cap, upto),
{
    assert forall|si: int, q: int|
        #![trigger entry_owned(post, s, cap, si, q, upto)]
        0 <= si < post.symbols_by_name@.len() && 0 <= q < module_nets(
            post.symbols_by_name@[si],
        ).len() implies entry_owned(post, s, cap, si, q, upto) by {
        assert(0 <= q < module_nets(mid.symbols_by_name@[si]).len());
        assert(entry_owned(mid, s, cap, si, q, upto));
        let c = choose|c: int|
            #![trigger entry_owner_is(mid, s, cap, si, q, c)]
            0 <= c < upto && entry_owner_is(mid, s, cap, si, q, c);
        assert(s.net_wf(s.nets@[c]));
        lemma_find_symbol_same_names(
            mid.symbols_by_name@,
            post.symbols_by_name@,
            net_owner(s, cap, c),
        );
        assert(entry_owner_is(post, s, cap, si, q, c));
    }
}

/// The component payload of a symbol.
pub open spec fn as_component(s: AtopileSymbol) -> AtopileComponent
    recommends
        s is Component,
{
    match s {
        AtopileSymbol::Component(c) => c,
        AtopileSymbol::Module(_) => arbitrary(),
    }
}

/// View of a signal table: names and pin lists as plain sequences.
pub open spec fn signals_view(signals: Seq<(String, Vec<String>)>) -> Seq<
    (Seq<char>, Seq<Seq<char>>),
> {
    signals.map_values(|e: (String, Vec<String>)| (e.0@, e.1.deep_view()))
}

/// Key of the signal with this name in a view-level signal table.
pub open spec fn sig_idx(acc: Seq<(Seq<char>, Seq<Seq<char>>)>, signal: Seq<char>) -> int
    decreases acc.len(),
{
    if acc.len() == 0 {
        -1
    } else if acc[0].0 == signal {
        0
    } else {
        let r = sig_idx(acc.drop_first(), signal);
        if r < 0 {
            -1
        } else {
            r + 1
        }
    }
}

pub proof fn lemma_sig_idx_of(acc: Seq<(Seq<char>, Seq<Seq<char>>)>, signal: Seq<char>, n: int)
    requires
        0 <= n <= acc.len(),
        forall|k: int| 0 <= k < n ==> (#[trigger] acc[k]).0 != signal,
        n < acc.len() ==> acc[n].0 == signal,
    ensures
        sig_idx(acc, signal) == if n < acc.len() {
            n
        } else {
            -1
        },
    decreases n,
{
    if n == 0 {
        if acc.len() > 0 && acc[0].0 != signal {
            assert(forall|k: int|
                0 <= k < acc.len() - 1 ==> #[trigger] acc.drop_first()[k] == acc[k + 1]);
            lemma_sig_idx_of(acc.drop_first(), signal, 0);
        }
    } else {
        assert(forall|k: int|
            0 <= k < acc.len() - 1 ==> #[trigger] acc.drop_first()[k] == acc[k + 1]);
        lemma_sig_idx_of(acc.drop_first(), signal, n - 1);
    }
}

/// Files one pin under its signal: appends the terminal identifier to the
/// signal's pin list, or opens a new signal entry.
pub open spec fn group_step(
    acc: Seq<(Seq<char>, Seq<Seq<char>>)>,
    signal: Seq<char>,
    tid: Seq<char>,
) -> Seq<(Seq<char>, Seq<Seq<char>>)> {
    let j = sig_idx(acc, signal);
    if j >= 0 {
        acc.update(j, (acc[j].0, acc[j].1.push(tid)))
    } else {
        acc.push((signal, seq![tid]))
    }
}

/// The signal table of a part: every port filed under its signal, in port
/// order.
pub open spec fn group_signals(ports: Seq<Port>) -> Seq<(Seq<char>, Seq<Seq<char>>)>
    decreases ports.len(),
{
    if ports.len() == 0 {
        Seq::empty()
    } else {
        group_step(
            group_signals(ports.drop_last()),
            ports.last().signal@,
            ports.last().terminal_identifier@,
        )
    }
}

/// The part symbol the builder owes for one part.
pub open spec fn part_symbol_ok(p: AtopileProject, part: Part) -> bool {
    let si = find_symbol_idx(p.symbols_by_name@, part.name@);
    &&& si >= 0
    &&& p.symbols_by_name@[si] is Component
    &&& ({
        let c = as_component(p.symbols_by_name@[si]);
        &&& c.name@ == part.name@
        &&& signals_view(c.signals@) == group_signals(part.ports@)
        &&& c.part.name == part.name
        &&& c.part.ports@ == part.ports@
        &&& c.part.metadata@ == part.metadata@
        &&& c.part.datasheet_url == part.datasheet_url
    })
    &&& meta_lookup(p.symbol_name_to_file_name@, part.name@) == Some(
        "library/"@ + part.name@ + ".ato"@,
    )
}

/// The module definition the builder owes for one component.
pub open spec fn comp_def_ok(p: AtopileProject, s: Schematic, ci: int, cap: Seq<char>) -> bool {
    let comp = s.components@[ci];
    let sheet = sheet_of(comp, cap);
    let mi = find_symbol_idx(p.symbols_by_name@, sheet);
    &&& mi >= 0
    &&& p.symbols_by_name@[mi] is Module
    &&& sheet != cap ==> meta_lookup(p.symbol_name_to_file_name@, sheet) == Some(
        sheet + ".ato"@,
    )
    &&& exists|k: int|
        0 <= k < module_defs(p.symbols_by_name@[mi]).len() && (#[trigger] module_defs(
            p.symbols_by_name@[mi],
        )[k]).name@ == comp.name@ && module_defs(p.symbols_by_name@[mi])[k].symbol_name@
            == s.parts@[comp.part.idx as int].name@ && module_defs(p.symbols_by_name@[mi])[k].component
            == Some(ComponentRef { idx: ci as usize })
}

/// Appending a symbol moves no existing symbol and finds old names at
/// their old keys.
pub proof fn lemma_find_symbol_push(symbols: Seq<AtopileSymbol>, s: AtopileSymbol, name: Seq<char>)
    ensures
        find_symbol_idx(symbols, name) >= 0 ==> find_symbol_idx(symbols.push(s), name)
            == find_symbol_idx(symbols, name),
        find_symbol_idx(symbols, name) < 0 && sym_name(s) == name ==> find_symbol_idx(
            symbols.push(s),
            name,
        ) == symbols.len(),
        find_symbol_idx(symbols, name) < 0 && sym_name(s) != name ==> find_symbol_idx(
            symbols.push(s),
            name,
        ) < 0,
    decreases symbols.len(),
{
    if symbols.len() == 0 {
        assert(symbols.push(s)[0] == s);
        assert(symbols.push(s).drop_first() =~= Seq::<AtopileSymbol>::empty());
        assert(find_symbol_idx(Seq::<AtopileSymbol>::empty(), name) == -1);
    } else {
        assert(symbols.push(s)[0] == symbols[0]);
        assert(symbols.push(s).drop_first() =~= symbols.drop_first().push(s));
        lemma_find_symbol_push(symbols.drop_first(), s, name);
    }
}

/// Two symbol lists with the same names in the same order find every name
/// at the same key.
pub proof fn lemma_find_symbol_same_names(
    s1: Seq<AtopileSymbol>,
    s2: Seq<AtopileSymbol>,
    name: Seq<char>,
)
    requires
        s1.len() == s2.len(),
        forall|k: int| 0 <= k < s1.len() ==> sym_name(#[trigger] s1[k]) == sym_name(s2[k]),
    ensures
        find_symbol_idx(s1, name) == find_symbol_idx(s2, name),
    decreases s1.len(),
{
    if s1.len() > 0 {
        assert(forall|k: int|
            0 <= k < s1.len() - 1 ==> #[trigger] s1.drop_first()[k] == s1[k + 1]);
        assert(forall|k: int|
            0 <= k < s2.len() - 1 ==> #[trigger] s2.drop_first()[k] == s2[k + 1]);
        lemma_find_symbol_same_names(s1.drop_first(), s2.drop_first(), name);
        assert(sym_name(s1[0]) == sym_name(s2[0]));
    }
}

/// Builds `library/<name>.ato`.
fn lib_filename_of(name: &str) -> (r: String)
    ensures
        r@ == "library/"@ + name@ + ".ato"@,
{
    let mut out = String::new();
    out.append("library/");
    out.append(name);
    out.append(".ato");
    proof {
        assert(out@ =~= "library/"@ + name@ + ".ato"@);
    }
    out
}

/// Builds `<name>.ato`.
fn ato_filename_of(name: &str) -> (r: String)
    ensures
        r@ == name@ + ".ato"@,
{
    let mut out = String::new();
    out.append(name);
    out.append(".ato");
    proof {
        assert(out@ =~= name@ + ".ato"@);
    }
    out
}

/// Upper-cases the first character.
fn capitalize_first(name: &str) -> (r: String)
    requires
        name@.len() > 0,
    ensures
        r@ == capitalized(name@),
{
    let len = name.unicode_len();
    let mut out = String::new();
    push_char(&mut out, crate::strutil::to_upper_char(name.get_char(0)));
    let mut i: usize = 1;
    while i < len
        invariant
            1 <= i <= len,
            len == name@.len(),
            out@ == seq![upper_char(name@[0])] + name@.subrange(1, i as int),
        decreases len - i,
    {
        push_char(&mut out, name.get_char(i));
        proof {
            assert(out@ =~= seq![upper_char(name@[0])] + name@.subrange(1, i + 1));
        }
        i = i + 1;
    }
    proof {
        assert(out@ =~= capitalized(name@));
    }
    out
}

/// A found name lies in range and matches.
pub proof fn lemma_find_symbol_bounds(symbols: Seq<AtopileSymbol>, name: Seq<char>)
    ensures
        find_symbol_idx(symbols, name) >= 0 ==> find_symbol_idx(symbols, name) < symbols.len()
            && sym_name(symbols[find_symbol_idx(symbols, name)]) == name,
    decreases symbols.len(),
{
    if symbols.len() > 0 && sym_name(symbols[0]) != name {
        assert(forall|k: int|
            0 <= k < symbols.len() - 1 ==> #[trigger] symbols.drop_first()[k] == symbols[k + 1]);
        lemma_find_symbol_bounds(symbols.drop_first(), name);
    }
}

/// A found key lies in range and matches.
pub proof fn lemma_meta_idx_bounds(md: Seq<(String, String)>, key: Seq<char>)
    ensures
        meta_idx(md, key) >= 0 ==> meta_idx(md, key) < md.len() && md[meta_idx(md, key)].0@
            == key,
    decreases md.len(),
{
    if md.len() > 0 && md[0].0@ != key {
        assert(forall|k: int|
            0 <= k < md.len() - 1 ==> #[trigger] md.drop_first()[k] == md[k + 1]);
        lemma_meta_idx_bounds(md.drop_first(), key);
    }
}

/// The shape the builder keeps: the root module first, one component
/// symbol per already handled part, and modules after that.
pub open spec fn builder_shape(
    p: AtopileProject,
    s: Schematic,
    cap: Seq<char>,
    nparts: int,
) -> bool {
    &&& p.wf()
    &&& p.name@ == cap
    &&& p.symbols_by_name@.len() >= 1 + nparts
    &&& p.symbols_by_name@[0] is Module
    &&& sym_name(p.symbols_by_name@[0]) == cap
    &&& forall|si: int|
        1 <= si <= nparts ==> (#[trigger] p.symbols_by_name@[si]) is Component && sym_name(
            p.symbols_by_name@[si],
        ) == s.parts@[si - 1].name@
    &&& forall|si: int|
        1 + nparts <= si < p.symbols_by_name@.len() ==> (#[trigger] p.symbols_by_name@[si])
            is Module
}

/// The sheet a component belongs to: the value of its `Sheetname`
/// metadata, or the project name, put through the part name rule.
pub fn sheet_name_of(component: &Component, project_name: &String) -> (r: String)
    requires
        sheet_ok(*component, project_name@),
    ensures
        r@ == sheet_of(*component, project_name@),
{
    let raw = match component.metadata_value("Sheetname") {
        Some(v) => v,
        None => project_name.clone(),
    };
    let normalizer = AtopileNormalizer::default();
    match normalizer.normalize_part_name(raw.as_str()) {
        Ok(v) => v,
        Err(_) => {
            proof {
                assert(false);
            }
            vstd::pervasive::unreached()
        },
    }
}

/// The scope rule for one net: it belongs to the root module exactly when
/// it has no connection at all, or its connections touch more than one
/// distinct sheet; otherwise it belongs to the single sheet its
/// connections share.
#[verifier::loop_isolation(false)]
pub fn net_placed_in_root(schematic: &Schematic, project_name: &String, net_idx: usize) -> (r:
    bool)
    requires
        schematic.wf(),
        net_idx < schematic.nets@.len(),
        forall|ci: int|
            0 <= ci < schematic.components@.len() ==> sheet_ok(
                #[trigger] schematic.components@[ci],
                project_name@,
            ),
    ensures
        r == net_in_root(*schematic, project_name@, schematic.nets@[net_idx as int]),
{
    proof {
        assert(schematic.net_wf(schematic.nets@[net_idx as int]));
    }
    let conn_count = schematic.nets[net_idx].connections.len();
    if conn_count == 0 {
        return true;
    }
    let first_conn = schematic.nets[net_idx].connections[0];
    let first_sheet = sheet_name_of(&schematic.components[first_conn.0.idx], project_name);
    let mut k: usize = 1;
    while k < conn_count
        invariant
            1 <= k <= conn_count,
            forall|q: int|
                0 <= q < k ==> sheet_of(
                    schematic.components@[(#[trigger] schematic.nets@[net_idx as int].connections@[q]).0.idx as int],
                    project_name@,
                ) == sheet_of(
                    schematic.components@[schematic.nets@[net_idx as int].connections@[0].0.idx as int],
                    project_name@,
                ),
        decreases conn_count - k,
    {
        let conn = schematic.nets[net_idx].connections[k];
        let conn_sheet = sheet_name_of(&schematic.components[conn.0.idx], project_name);
        if !crate::strutil::str_eq(conn_sheet.as_str(), first_sheet.as_str()) {
            return true;
        }
        k = k + 1;
    }
    false
}

/// The reference string recorded for connection `q` of a net: qualified
/// with the component's sheet for a root-scoped net, bare
/// `component.signal` otherwise.
pub open spec fn conn_ref(s: Schematic, cap: Seq<char>, net: crate::net::Net, q: int) -> Seq<
    char,
> {
    let comp = s.components@[net.connections@[q].0.idx as int];
    let signal =
        s.parts@[comp.part.idx as int].ports@[net.connections@[q].1.idx as int].signal@;
    if net_in_root(s, cap, net) {
        sheet_of(comp, cap) + "."@ + comp.name@ + "."@ + signal
    } else {
        comp.name@ + "."@ + signal
    }
}

/// The module that owns a net under the scope rule, and, when the net
/// has any connection at all, the net entry declared inside it: one
/// reference per connection, in connection order, qualified exactly when
/// the net is root-scoped.
pub open spec fn net_declared(p: AtopileProject, s: Schematic, ni: int, cap: Seq<char>) -> bool {
    let net = s.nets@[ni];
    let owner = if net_in_root(s, cap, net) {
        cap
    } else {
        sheet_of(s.components@[net.connections@[0].0.idx as int], cap)
    };
    let mi = find_symbol_idx(p.symbols_by_name@, owner);
    &&& mi >= 0
    &&& p.symbols_by_name@[mi] is Module
    &&& net.connections@.len() > 0 ==> ({
        let entries = module_nets(p.symbols_by_name@[mi]);
        let j = entry_idx(entries, net.name@);
        &&& j >= 0
        &&& entries[j].1@.len() == net.connections@.len()
        &&& forall|q: int|
            #![trigger net.connections@[q]]
            0 <= q < net.connections@.len() ==> entries[j].1@[q]@ == conn_ref(s, cap, net, q)
    })
}

/// The root module wires a sheet in: an instantiation whose instance
/// and symbol are both the sheet's name, with no originating component.
pub open spec fn sheet_wired(p: AtopileProject, sheet: Seq<char>, cap: Seq<char>) -> bool {
    let ri = find_symbol_idx(p.symbols_by_name@, cap);
    exists|k: int|
        0 <= k < module_defs(p.symbols_by_name@[ri]).len() && (#[trigger] module_defs(
            p.symbols_by_name@[ri],
        )[k]).name@ == sheet && module_defs(p.symbols_by_name@[ri])[k].symbol_name@ == sheet
            && module_defs(p.symbols_by_name@[ri])[k].component is None
}

/// Reads one recorded reference out of `net_declared`.
pub proof fn lemma_net_declared_ref(
    p: AtopileProject,
    s: Schematic,
    ni: int,
    cap: Seq<char>,
    q: int,
)
    requires
        net_declared(p, s, ni, cap),
        0 <= ni < s.nets@.len(),
        s.nets@[ni].connections@.len() > 0,
        0 <= q < s.nets@[ni].connections@.len(),
    ensures
        ({
            let net = s.nets@[ni];
            let owner = if net_in_root(s, cap, net) {
                cap
            } else {
                sheet_of(s.components@[net.connections@[0].0.idx as int], cap)
            };
            let mi = find_symbol_idx(p.symbols_by_name@, owner);
            let entries = module_nets(p.symbols_by_name@[mi]);
            let j = entry_idx(entries, net.name@);
            entries[j].1@[q]@ == conn_ref(s, cap, net, q)
        }),
{
    let net = s.nets@[ni];
    let owner = if net_in_root(s, cap, net) {
        cap
    } else {
        sheet_of(s.components@[net.connections@[0].0.idx as int], cap)
    };
    let mi = find_symbol_idx(p.symbols_by_name@, owner);
    let entries = module_nets(p.symbols_by_name@[mi]);
    let j = entry_idx(entries, net.name@);
    assert(j >= 0);
    assert(entries[j].1@.len() == net.connections@.len());
    let conn = net.connections@[q];
    assert(entries[j].1@[q]@ == conn_ref(s, cap, net, q));
}

/// Entry scans agree on lists of equal length with equal keys.
pub proof fn lemma_entry_idx_same_keys(
    e1: Seq<(String, Vec<String>)>,
    e2: Seq<(String, Vec<String>)>,
    key: Seq<char>,
)
    requires
        e1.len() == e2.len(),
        forall|k: int| 0 <= k < e1.len() ==> (#[trigger] e1[k]).0@ == e2[k].0@,
    ensures
        entry_idx(e1, key) == entry_idx(e2, key),
    decreases e1.len(),
{
    if e1.len() > 0 {
        assert(forall|k: int|
            0 <= k < e1.len() - 1 ==> #[trigger] e1.drop_first()[k] == e1[k + 1]);
        assert(forall|k: int|
            0 <= k < e2.len() - 1 ==> #[trigger] e2.drop_first()[k] == e2[k + 1]);
        lemma_entry_idx_same_keys(e1.drop_first(), e2.drop_first(), key);
        assert(e1[0].0@ == e2[0].0@);
    }
}

/// An entry scan that fails finds no key anywhere.
pub proof fn lemma_entry_idx_none(entries: Seq<(String, Vec<String>)>, key: Seq<char>)
    ensures
        entry_idx(entries, key) < 0 ==> forall|q: int|
            0 <= q < entries.len() ==> (#[trigger] entries[q]).0@ != key,
    decreases entries.len(),
{
    if entries.len() > 0 && entries[0].0@ != key {
        lemma_entry_idx_none(entries.drop_first(), key);
        if entry_idx(entries, key) < 0 {
            assert forall|q: int|
                0 <= q < entries.len() implies (#[trigger] entries[q]).0@ != key by {
                if q >= 1 {
                    assert(entries.drop_first()[q - 1] == entries[q]);
                }
            }
        }
    }
}

/// Everything before a found entry misses the key.
pub proof fn lemma_entry_idx_prefix(entries: Seq<(String, Vec<String>)>, key: Seq<char>)
    ensures
        entry_idx(entries, key) >= 0 ==> forall|q: int|
            0 <= q < entry_idx(entries, key) ==> (#[trigger] entries[q]).0@ != key,
    decreases entries.len(),
{
    if entries.len() > 0 && entries[0].0@ != key {
        lemma_entry_idx_prefix(entries.drop_first(), key);
        lemma_entry_idx_bounds(entries, key);
        if entry_idx(entries, key) >= 0 {
            assert forall|q: int|
                0 <= q < entry_idx(entries, key) implies (#[trigger] entries[q]).0@ != key by {
                if q >= 1 {
                    assert(entries.drop_first()[q - 1] == entries[q]);
                }
            }
        }
    }
}

/// A found key lies in range and matches.
pub proof fn lemma_entry_idx_bounds(entries: Seq<(String, Vec<String>)>, key: Seq<char>)
    ensures
        entry_idx(entries, key) >= 0 ==> entry_idx(entries, key) < entries.len()
            && entries[entry_idx(entries, key)].0@ == key,
    decreases entries.len(),
{
    if entries.len() > 0 && entries[0].0@ != key {
        assert(forall|k: int|
            0 <= k < entries.len() - 1 ==> #[trigger] entries.drop_first()[k] == entries[k + 1]);
        lemma_entry_idx_bounds(entries.drop_first(), key);
    }
}

impl AtopileProject {
    /// The module a component's definition belongs to: the value of its
    /// `Sheetname` metadata, or the project name, put through the part
    /// name rule.
    pub fn sheet_for_component(&self, component: &Component) -> (r: String)
        requires
            sheet_ok(*component, self.name@),
        ensures
            r@ == sheet_of(*component, self.name@),
    {
        sheet_name_of(component, &self.name)
    }

    /// Builds the project from a normalized schematic: one library file
    /// per part, one module per sheet, a root module named after the
    /// project, with every component instantiated in its sheet's module
    /// and every net declared in the single sheet its connections share,
    /// or in the root module when they span several sheets. Fails with a
    /// name collision when a part is named like the root module or a
    /// sheet is named like a part.
    #[verifier::rlimit(100)]
    pub fn from_schematic(name: String, schematic: &Schematic) -> (r: Result<
        AtopileProject,
        AtopileError,
    >)
        requires
            schematic.wf(),
            name@.len() > 0,
            forall|ci: int|
                0 <= ci < schematic.components@.len() ==> sheet_ok(
                    #[trigger] schematic.components@[ci],
                    capitalized(name@),
                ),
        ensures
            (r is Ok) == names_ok(*schematic, capitalized(name@)),
            r matches Err(e) ==> (e matches AtopileError::NameCollisionError(_)),
            r matches Ok(p) ==> {
                let cap = capitalized(name@);
                &&& p.wf()
                &&& p.name@ == cap
                &&& forall|i: int|
                    0 <= i < schematic.parts@.len() ==> part_symbol_ok(
                        p,
                        #[trigger] schematic.parts@[i],
                    )
                &&& ({
                    let ri = find_symbol_idx(p.symbols_by_name@, cap);
                    ri >= 0 && p.symbols_by_name@[ri] is Module
                })
                &&& meta_lookup(p.symbol_name_to_file_name@, cap) == Some(
                    lower_str(cap) + ".ato"@,
                )
                &&& forall|ci: int|
                    0 <= ci < schematic.components@.len() ==> comp_def_ok(p, *schematic, ci, cap)
                &&& forall|ni: int|
                    0 <= ni < schematic.nets@.len() ==> net_declared(p, *schematic, ni, cap)
                &&& forall|ci: int|
                    0 <= ci < schematic.components@.len() ==> sheet_wired(
                        p,
                        sheet_of(#[trigger] schematic.components@[ci], cap),
                        cap,
                    )
                &&& nets_exclusive(p, *schematic, cap, schematic.nets@.len() as int)
            },
    {
        let cap_string = capitalize_first(name.as_str());
        let ghost cap = capitalized(name@);
        let lowered = crate::strutil::to_lower_string(cap_string.as_str());
        let root_file = ato_filename_of(lowered.as_str());
        let mut project = AtopileProject {
            name: cap_string.clone(),
            files_by_name: Vec::new(),
            symbols_by_name: Vec::new(),
            symbol_name_to_file_name: Vec::new(),
        };
        let root_module = AtopileSymbol::Module(
            AtopileModule { name: cap_string.clone(), definitions: Vec::new(), nets: Vec::new() },
        );
        match project.define_symbol(root_file.as_str(), root_module) {
            Ok(()) => (),
            Err(_) => {
                proof {
                    assert(false);
                }
                return vstd::pervasive::unreached();
            },
        }
        proof {
            assert(project.symbols_by_name@.len() == 1);
            assert(meta_idx(project.symbol_name_to_file_name@, cap) == 0) by {
                crate::part::lemma_meta_idx_of(project.symbol_name_to_file_name@, cap, 0);
            }
            assert(meta_lookup(project.symbol_name_to_file_name@, cap) == Some(
                lower_str(cap) + ".ato"@,
            ));
            assert(builder_shape(project, *schematic, cap, 0));
        }
        let ghost nparts = schematic.parts@.len() as int;
        // One library file per part.
        let mut i: usize = 0;
        while i < schematic.parts.len()
            invariant
                i <= schematic.parts@.len(),
                schematic.wf(),
                builder_shape(project, *schematic, cap, i as int),
                cap == capitalized(name@),
                forall|si: int|
                    0 <= si < project.symbols_by_name@.len() ==> module_nets(
                        #[trigger] project.symbols_by_name@[si],
                    ).len() == 0,
                project.symbols_by_name@.len() == i + 1,
                forall|k: int| 0 <= k < i ==> (#[trigger] schematic.parts@[k]).name@ != cap,
                forall|k: int|
                    0 <= k < i ==> part_symbol_ok(project, #[trigger] schematic.parts@[k]),
                project.symbol_name_to_file_name@.len() == i + 1,
                project.symbol_name_to_file_name@[0].0@ == cap,
                forall|q: int|
                    1 <= q <= i ==> (#[trigger] project.symbol_name_to_file_name@[q]).0@
                        == schematic.parts@[q - 1].name@,
                meta_lookup(project.symbol_name_to_file_name@, cap) == Some(
                    lower_str(cap) + ".ato"@,
                ),
                meta_idx(project.symbol_name_to_file_name@, cap) == 0,
            decreases schematic.parts@.len() - i,
        {
            let ghost pre = project;
            let part = &schematic.parts[i];
            let mut signals: Vec<(String, Vec<String>)> = Vec::new();
            let mut k: usize = 0;
            proof {
                assert(part.ports@.take(0) =~= Seq::<Port>::empty());
                assert(signals_view(signals@) =~= group_signals(part.ports@.take(0)));
            }
            while k < part.ports.len()
                invariant
                    k <= part.ports@.len(),
                    signals_view(signals@) == group_signals(part.ports@.take(k as int)),
                    keys_unique(signals@),
                decreases part.ports@.len() - k,
            {
                let port = &part.ports[k];
                let ghost before = signals@;
                proof {
                    assert(part.ports@.take(k + 1).drop_last() =~= part.ports@.take(k as int));
                    assert(part.ports@.take(k + 1).last() == part.ports@[k as int]);
                    assert(forall|q: int|
                        0 <= q < before.len() ==> (#[trigger] signals_view(before)[q]) == (
                        before[q].0@,
                        before[q].1.deep_view(),
                        ));
                }
                match entry_pos(&signals, port.signal.as_str()) {
                    Some(j) => {
                        proof {
                            lemma_sig_idx_of(signals_view(before), port.signal@, j as int);
                        }
                        let mut entry = signals.remove(j);
                        entry.1.push(port.terminal_identifier.clone());
                        signals.insert(j, entry);
                        proof {
                            assert(signals@ =~= before.update(j as int, signals@[j as int]));
                            assert(signals@[j as int].1.deep_view() =~= before[j as int].1.deep_view().push(
                                port.terminal_identifier@,
                            ));
                            assert(signals_view(signals@) =~= group_signals(
                                part.ports@.take(k + 1),
                            ));
                        }
                    },
                    None => {
                        proof {
                            lemma_sig_idx_of(
                                signals_view(before),
                                port.signal@,
                                before.len() as int,
                            );
                        }
                        let mut pins: Vec<String> = Vec::new();
                        pins.push(port.terminal_identifier.clone());
                        signals.push((port.signal.clone(), pins));
                        proof {
                            assert(signals@.last().1.deep_view() =~= seq![
                                port.terminal_identifier@,
                            ]);
                            assert(signals_view(signals@) =~= group_signals(
                                part.ports@.take(k + 1),
                            ));
                        }
                    },
                }
                k = k + 1;
            }
            proof {
                assert(part.ports@.take(part.ports@.len() as int) =~= part.ports@);
            }
            let symbol = AtopileSymbol::Component(
                AtopileComponent {
                    name: part.name.clone(),
                    signals,
                    part: part.clone(),
                },
            );
            let lib_file = lib_filename_of(part.name.as_str());
            match project.define_symbol(lib_file.as_str(), symbol) {
                Ok(()) => (),
                Err(e) => {
                    proof {
                        assert(has_symbol(pre.symbols_by_name@, part.name@));
                        let w = choose|w: int|
                            0 <= w < pre.symbols_by_name@.len() && sym_name(
                                #[trigger] pre.symbols_by_name@[w],
                            ) == part.name@;
                        if w == 0 {
                            assert(part.name@ == cap);
                            assert(!names_ok(*schematic, cap));
                        } else {
                            assert(sym_name(pre.symbols_by_name@[w])
                                == schematic.parts@[w - 1].name@);
                            assert(schematic.parts@[w - 1].name@ == schematic.parts@[i as int].name@);
                            assert(false);
                        }
                    }
                    return Err(e);
                },
            }
            proof {
                let post = project;
                assert(find_symbol_idx(pre.symbols_by_name@, part.name@) < 0) by {
                    lemma_find_symbol_bounds(pre.symbols_by_name@, part.name@);
                }
                lemma_find_symbol_push(pre.symbols_by_name@, symbol, part.name@);
                assert(part.name@ != cap) by {
                    if part.name@ == cap {
                        assert(sym_name(pre.symbols_by_name@[0]) == part.name@);
                        assert(has_symbol(pre.symbols_by_name@, part.name@));
                    }
                }
                lemma_meta_idx_extend(
                    pre.symbol_name_to_file_name@,
                    post.symbol_name_to_file_name@,
                    cap,
                );
                assert(post.symbol_name_to_file_name@[0] == pre.symbol_name_to_file_name@[0]);
                assert(meta_idx(pre.symbol_name_to_file_name@, part.name@) == -1) by {
                    crate::part::lemma_meta_idx_of(
                        pre.symbol_name_to_file_name@,
                        part.name@,
                        pre.symbol_name_to_file_name@.len() as int,
                    );
                }
                lemma_meta_idx_extend(
                    pre.symbol_name_to_file_name@,
                    post.symbol_name_to_file_name@,
                    part.name@,
                );
                assert(part_symbol_ok(post, schematic.parts@[i as int])) by {
                    assert(post.symbols_by_name@[i + 1] == symbol);
                    assert(as_component(symbol).part.ports@ == part.ports@);
                }
                assert forall|c: int|
                    0 <= c < i implies part_symbol_ok(
                    post,
                    #[trigger] schematic.parts@[c],
                ) by {
                    assert(part_symbol_ok(pre, schematic.parts@[c]));
                    lemma_find_symbol_bounds(pre.symbols_by_name@, schematic.parts@[c].name@);
                    lemma_find_symbol_push(
                        pre.symbols_by_name@,
                        symbol,
                        schematic.parts@[c].name@,
                    );
                    lemma_meta_idx_extend(
                        pre.symbol_name_to_file_name@,
                        post.symbol_name_to_file_name@,
                        schematic.parts@[c].name@,
                    );
                    let si = find_symbol_idx(pre.symbols_by_name@, schematic.parts@[c].name@);
                    assert(post.symbols_by_name@[si] == pre.symbols_by_name@[si]);
                    let mj = meta_idx(pre.symbol_name_to_file_name@, schematic.parts@[c].name@);
                    lemma_meta_idx_bounds(
                        pre.symbol_name_to_file_name@,
                        schematic.parts@[c].name@,
                    );
                    assert(post.symbol_name_to_file_name@[mj]
                        == pre.symbol_name_to_file_name@[mj]);
                }
                assert(builder_shape(post, *schematic, cap, i + 1));
            }
            i = i + 1;
        }
        // One module per sheet, with a definition per component; a sheet
        // named like the root shares the root module.
        let mut sheet_names: Vec<String> = Vec::new();
        let mut ci: usize = 0;
        while ci < schematic.components.len()
            invariant
                ci <= schematic.components@.len(),
                schematic.wf(),
                nparts == schematic.parts@.len(),
                cap == capitalized(name@),
                forall|si: int|
                    0 <= si < project.symbols_by_name@.len() ==> module_nets(
                        #[trigger] project.symbols_by_name@[si],
                    ).len() == 0,
                forall|c2: int|
                    0 <= c2 < schematic.components@.len() ==> sheet_ok(
                        #[trigger] schematic.components@[c2],
                        cap,
                    ),
                builder_shape(project, *schematic, cap, nparts),
                forall|k: int| 0 <= k < nparts ==> (#[trigger] schematic.parts@[k]).name@ != cap,
                forall|k: int|
                    0 <= k < nparts ==> part_symbol_ok(project, #[trigger] schematic.parts@[k]),
                meta_lookup(project.symbol_name_to_file_name@, cap) == Some(
                    lower_str(cap) + ".ato"@,
                ),
                forall|si: int|
                    1 + nparts <= si < project.symbols_by_name@.len() ==> meta_lookup(
                        project.symbol_name_to_file_name@,
                        sym_name(#[trigger] project.symbols_by_name@[si]),
                    ) == Some(sym_name(project.symbols_by_name@[si]) + ".ato"@),
                forall|k: int| 0 <= k < ci ==> comp_def_ok(project, *schematic, k, cap),
                forall|k: int, pi: int|
                    0 <= k < ci && 0 <= pi < nparts ==> sheet_of(
                        #[trigger] schematic.components@[k],
                        cap,
                    ) != (#[trigger] schematic.parts@[pi]).name@,
                forall|k: int|
                    0 <= k < ci ==> sheet_of(#[trigger] schematic.components@[k], cap) != cap,
                forall|k: int|
                    0 <= k < ci ==> exists|qn: int|
                        #![trigger sheet_names@[qn]]
                        0 <= qn < sheet_names@.len() && sheet_names@[qn]@ == sheet_of(
                            #[trigger] schematic.components@[k],
                            cap,
                        ),
            decreases schematic.components@.len() - ci,
        {
            let component = &schematic.components[ci];
            let sheet = project.sheet_for_component(component);
            if crate::strutil::str_eq(sheet.as_str(), project.name.as_str()) {
                // A sheet named like the root module collides with it.
                proof {
                    assert(sheet_of(schematic.components@[ci as int], cap) == cap);
                    assert(!names_ok(*schematic, cap));
                }
                return Err(AtopileError::NameCollisionError(sheet));
            }
            let ghost names_before = sheet_names@;
            if !crate::strutil::contains_string(&sheet_names, sheet.as_str()) {
                sheet_names.push(sheet.clone());
            }
            proof {
                assert forall|k: int|
                    0 <= k < ci + 1 implies exists|qn: int|
                    #![trigger sheet_names@[qn]]
                    0 <= qn < sheet_names@.len() && sheet_names@[qn]@ == sheet_of(
                        #[trigger] schematic.components@[k],
                        cap,
                    ) by {
                    if k < ci {
                        let qo = choose|qn: int|
                            #![trigger names_before[qn]]
                            0 <= qn < names_before.len() && names_before[qn]@ == sheet_of(
                                schematic.components@[k],
                                cap,
                            );
                        assert(sheet_names@[qo] == names_before[qo]);
                    } else {
                        if sheet_names@ == names_before {
                            let qo = choose|qn: int|
                                0 <= qn < names_before.len() && (#[trigger] names_before[qn])@
                                    == sheet@;
                            assert(sheet_names@[qo]@ == sheet_of(
                                schematic.components@[ci as int],
                                cap,
                            ));
                        } else {
                            assert(sheet_names@.last()@ == sheet_of(
                                schematic.components@[ci as int],
                                cap,
                            ));
                        }
                    }
                }
            }
            let ghost pre = project;
            let mi: usize = match project.find_module(sheet.as_str()) {
                Some(mi) => {
                    proof {
                        assert forall|pi: int| 0 <= pi < nparts implies sheet_of(
                            schematic.components@[ci as int],
                            cap,
                        ) != (#[trigger] schematic.parts@[pi]).name@ by {
                            if sheet_of(schematic.components@[ci as int], cap)
                                == schematic.parts@[pi].name@ {
                                let w = find_symbol_idx(pre.symbols_by_name@, sheet@);
                                assert(pre.symbols_by_name@[pi + 1] is Component);
                                assert(sym_name(pre.symbols_by_name@[pi + 1]) == sheet@);
                                assert(pre.symbols_by_name@[w] is Module);
                                assert(sym_name(pre.symbols_by_name@[w]) == sheet@);
                                assert(w != pi + 1);
                                if w < pi + 1 {
                                    assert(sym_name(pre.symbols_by_name@[w]) != sym_name(
                                        pre.symbols_by_name@[pi + 1],
                                    ));
                                } else {
                                    assert(sym_name(pre.symbols_by_name@[pi + 1]) != sym_name(
                                        pre.symbols_by_name@[w],
                                    ));
                                }
                            }
                        }
                    }
                    mi
                },
                None => {
                    let sheet_file = ato_filename_of(sheet.as_str());
                    let module = AtopileSymbol::Module(
                        AtopileModule {
                            name: sheet.clone(),
                            definitions: Vec::new(),
                            nets: Vec::new(),
                        },
                    );
                    match project.define_symbol(sheet_file.as_str(), module) {
                        Ok(()) => (),
                        Err(e) => {
                            proof {
                                assert(has_symbol(pre.symbols_by_name@, sheet@));
                                let w = choose|w: int|
                                    0 <= w < pre.symbols_by_name@.len() && sym_name(
                                        #[trigger] pre.symbols_by_name@[w],
                                    ) == sheet@;
                                lemma_find_symbol_positive(pre.symbols_by_name@, sheet@, w);
                                lemma_find_symbol_bounds(pre.symbols_by_name@, sheet@);
                                let f = find_symbol_idx(pre.symbols_by_name@, sheet@);
                                assert(!(pre.symbols_by_name@[f] is Module));
                                assert(1 <= f <= nparts);
                                assert(sheet@ == schematic.parts@[f - 1].name@);
                                assert(!names_ok(*schematic, cap));
                            }
                            return Err(e);
                        },
                    }
                    proof {
                        assert(find_symbol_idx(pre.symbols_by_name@, sheet@) < 0) by {
                            lemma_find_symbol_bounds(pre.symbols_by_name@, sheet@);
                        }
                        lemma_find_symbol_push(pre.symbols_by_name@, module, sheet@);
                        assert forall|pi: int| 0 <= pi < nparts implies sheet_of(
                            schematic.components@[ci as int],
                            cap,
                        ) != (#[trigger] schematic.parts@[pi]).name@ by {
                            if sheet@ == schematic.parts@[pi].name@ {
                                assert(sym_name(pre.symbols_by_name@[pi + 1]) == sheet@);
                                assert(has_symbol(pre.symbols_by_name@, sheet@));
                            }
                        }
                        assert forall|c: int|
                            0 <= c < nparts implies part_symbol_ok(
                            project,
                            #[trigger] schematic.parts@[c],
                        ) by {
                            assert(part_symbol_ok(pre, schematic.parts@[c]));
                            lemma_find_symbol_bounds(
                                pre.symbols_by_name@,
                                schematic.parts@[c].name@,
                            );
                            lemma_find_symbol_push(
                                pre.symbols_by_name@,
                                module,
                                schematic.parts@[c].name@,
                            );
                            lemma_meta_idx_extend(
                                pre.symbol_name_to_file_name@,
                                project.symbol_name_to_file_name@,
                                schematic.parts@[c].name@,
                            );
                            let si = find_symbol_idx(
                                pre.symbols_by_name@,
                                schematic.parts@[c].name@,
                            );
                            assert(project.symbols_by_name@[si] == pre.symbols_by_name@[si]);
                            let mj = meta_idx(
                                pre.symbol_name_to_file_name@,
                                schematic.parts@[c].name@,
                            );
                            lemma_meta_idx_bounds(
                                pre.symbol_name_to_file_name@,
                                schematic.parts@[c].name@,
                            );
                            assert(project.symbol_name_to_file_name@[mj]
                                == pre.symbol_name_to_file_name@[mj]);
                        }
                        assert forall|c: int|
                            0 <= c < ci implies comp_def_ok(
                            project,
                            *schematic,
                            c,
                            cap,
                        ) by {
                            assert(comp_def_ok(pre, *schematic, c, cap));
                            lemma_find_symbol_bounds(
                                pre.symbols_by_name@,
                                sheet_of(schematic.components@[c], cap),
                            );
                            lemma_find_symbol_push(
                                pre.symbols_by_name@,
                                module,
                                sheet_of(schematic.components@[c], cap),
                            );
                            let cmi = find_symbol_idx(
                                pre.symbols_by_name@,
                                sheet_of(schematic.components@[c], cap),
                            );
                            assert(project.symbols_by_name@[cmi] == pre.symbols_by_name@[cmi]);
                            if sheet_of(schematic.components@[c], cap) != cap {
                                lemma_meta_idx_bounds(
                                    pre.symbol_name_to_file_name@,
                                    sheet_of(schematic.components@[c], cap),
                                );
                                lemma_meta_idx_extend(
                                    pre.symbol_name_to_file_name@,
                                    project.symbol_name_to_file_name@,
                                    sheet_of(schematic.components@[c], cap),
                                );
                                let mk = meta_idx(
                                    pre.symbol_name_to_file_name@,
                                    sheet_of(schematic.components@[c], cap),
                                );
                                assert(project.symbol_name_to_file_name@[mk]
                                    == pre.symbol_name_to_file_name@[mk]);
                            }
                        }
                        lemma_meta_idx_extend(
                            pre.symbol_name_to_file_name@,
                            project.symbol_name_to_file_name@,
                            cap,
                        );
                        lemma_meta_idx_bounds(pre.symbol_name_to_file_name@, cap);
                        assert(project.symbol_name_to_file_name@[meta_idx(
                            pre.symbol_name_to_file_name@,
                            cap,
                        )] == pre.symbol_name_to_file_name@[meta_idx(
                            pre.symbol_name_to_file_name@,
                            cap,
                        )]);
                        assert(meta_idx(pre.symbol_name_to_file_name@, sheet@) == -1) by {
                            if meta_idx(pre.symbol_name_to_file_name@, sheet@) >= 0 {
                                lemma_meta_idx_bounds(pre.symbol_name_to_file_name@, sheet@);
                                let mk = meta_idx(pre.symbol_name_to_file_name@, sheet@);
                                assert(has_symbol(
                                    pre.symbols_by_name@,
                                    pre.symbol_name_to_file_name@[mk].0@,
                                ));
                            }
                        }
                        lemma_meta_idx_extend(
                            pre.symbol_name_to_file_name@,
                            project.symbol_name_to_file_name@,
                            sheet@,
                        );
                        assert(meta_lookup(project.symbol_name_to_file_name@, sheet@) == Some(
                            sheet@ + ".ato"@,
                        ));
                        assert forall|si: int|
                            1 + nparts <= si < project.symbols_by_name@.len() implies meta_lookup(
                            project.symbol_name_to_file_name@,
                            sym_name(#[trigger] project.symbols_by_name@[si]),
                        ) == Some(sym_name(project.symbols_by_name@[si]) + ".ato"@) by {
                            if si < pre.symbols_by_name@.len() {
                                assert(project.symbols_by_name@[si] == pre.symbols_by_name@[si]);
                                lemma_meta_idx_bounds(
                                    pre.symbol_name_to_file_name@,
                                    sym_name(pre.symbols_by_name@[si]),
                                );
                                lemma_meta_idx_extend(
                                    pre.symbol_name_to_file_name@,
                                    project.symbol_name_to_file_name@,
                                    sym_name(pre.symbols_by_name@[si]),
                                );
                                let mk = meta_idx(
                                    pre.symbol_name_to_file_name@,
                                    sym_name(pre.symbols_by_name@[si]),
                                );
                                assert(project.symbol_name_to_file_name@[mk]
                                    == pre.symbol_name_to_file_name@[mk]);
                            } else {
                                assert(sym_name(project.symbols_by_name@[si]) == sheet@);
                            }
                        }
                    }
                    project.symbols_by_name.len() - 1
                },
            };
            let ghost mid = project;
            proof {
                assert(mid.symbols_by_name@[mi as int] is Module);
                assert(sym_name(mid.symbols_by_name@[mi as int]) == sheet@);
            }
            let part_name = schematic.parts[component.part.idx].name.clone();
            let def = AtopileDefinition {
                name: component.name.clone(),
                symbol_name: part_name,
                component: Some(ComponentRef { idx: ci }),
            };
            project.push_definition(mi, def);
            proof {
                let post = project;
                assert forall|c: int|
                    0 <= c < nparts implies part_symbol_ok(
                    post,
                    #[trigger] schematic.parts@[c],
                ) by {
                    assert(part_symbol_ok(mid, schematic.parts@[c]));
                    lemma_find_symbol_bounds(mid.symbols_by_name@, schematic.parts@[c].name@);
                    lemma_find_symbol_same_names(
                        mid.symbols_by_name@,
                        post.symbols_by_name@,
                        schematic.parts@[c].name@,
                    );
                    let si = find_symbol_idx(mid.symbols_by_name@, schematic.parts@[c].name@);
                    assert(si != mi as int);
                    assert(post.symbols_by_name@[si] == mid.symbols_by_name@[si]);
                }
                assert forall|c: int|
                    0 <= c <= ci implies comp_def_ok(post, *schematic, c, cap) by {
                    if c < ci {
                        assert(comp_def_ok(mid, *schematic, c, cap));
                        lemma_find_symbol_bounds(
                            mid.symbols_by_name@,
                            sheet_of(schematic.components@[c], cap),
                        );
                    }
                    lemma_find_symbol_same_names(
                        mid.symbols_by_name@,
                        post.symbols_by_name@,
                        sheet_of(schematic.components@[c], cap),
                    );
                    if c < ci {
                        let cmi = find_symbol_idx(
                            mid.symbols_by_name@,
                            sheet_of(schematic.components@[c], cap),
                        );
                        let wd = choose|k: int|
                            0 <= k < module_defs(mid.symbols_by_name@[cmi]).len() && (
                            #[trigger] module_defs(mid.symbols_by_name@[cmi])[k]).name@
                                == schematic.components@[c].name@ && module_defs(
                                mid.symbols_by_name@[cmi],
                            )[k].symbol_name@
                                == schematic.parts@[schematic.components@[c].part.idx as int].name@
                                && module_defs(mid.symbols_by_name@[cmi])[k].component == Some(
                                ComponentRef { idx: c as usize },
                            );
                        if cmi == mi as int {
                            assert(module_defs(post.symbols_by_name@[cmi]) == module_defs(
                                mid.symbols_by_name@[cmi],
                            ).push(def));
                            assert(module_defs(post.symbols_by_name@[cmi])[wd] == module_defs(
                                mid.symbols_by_name@[cmi],
                            )[wd]);
                        } else {
                            assert(post.symbols_by_name@[cmi] == mid.symbols_by_name@[cmi]);
                        }
                    } else {
                        assert(find_symbol_idx(mid.symbols_by_name@, sheet@) == mi as int) by {
                            lemma_find_symbol_bounds(mid.symbols_by_name@, sheet@);
                            let f = find_symbol_idx(mid.symbols_by_name@, sheet@);
                            if f != mi as int {
                                assert(sym_name(mid.symbols_by_name@[f]) == sym_name(
                                    mid.symbols_by_name@[mi as int],
                                ));
                                if f < mi as int {
                                    assert(sym_name(mid.symbols_by_name@[f]) != sym_name(
                                        mid.symbols_by_name@[mi as int],
                                    ));
                                } else {
                                    assert(sym_name(mid.symbols_by_name@[mi as int]) != sym_name(
                                        mid.symbols_by_name@[f],
                                    ));
                                }
                            }
                        }
                        assert(module_defs(post.symbols_by_name@[mi as int]).last() == def);
                        assert(module_defs(post.symbols_by_name@[mi as int])[module_defs(
                            post.symbols_by_name@[mi as int],
                        ).len() - 1] == def);
                    }
                }
                assert(builder_shape(post, *schematic, cap, nparts));
            }
            ci = ci + 1;
        }
        // Nets: a net whose connections all lie on one sheet is declared
        // there; one that spans sheets (or touches nothing) is declared
        // in the root module, with fully qualified references.
        let mut ni: usize = 0;
        while ni < schematic.nets.len()
            invariant
                ni <= schematic.nets@.len(),
                schematic.wf(),
                nparts == schematic.parts@.len(),
                cap == capitalized(name@),
                forall|c2: int|
                    0 <= c2 < schematic.components@.len() ==> sheet_ok(
                        #[trigger] schematic.components@[c2],
                        cap,
                    ),
                builder_shape(project, *schematic, cap, nparts),
                names_ok(*schematic, cap),
                forall|k: int|
                    0 <= k < nparts ==> part_symbol_ok(project, #[trigger] schematic.parts@[k]),
                meta_lookup(project.symbol_name_to_file_name@, cap) == Some(
                    lower_str(cap) + ".ato"@,
                ),
                forall|si: int|
                    1 + nparts <= si < project.symbols_by_name@.len() ==> meta_lookup(
                        project.symbol_name_to_file_name@,
                        sym_name(#[trigger] project.symbols_by_name@[si]),
                    ) == Some(sym_name(project.symbols_by_name@[si]) + ".ato"@),
                forall|k: int|
                    0 <= k < schematic.components@.len() ==> comp_def_ok(
                        project,
                        *schematic,
                        k,
                        cap,
                    ),
                forall|k: int| 0 <= k < ni ==> net_declared(project, *schematic, k, cap),
                nets_exclusive(project, *schematic, cap, ni as int),
            decreases schematic.nets@.len() - ni,
        {
            proof {
                assert(schematic.net_wf(schematic.nets@[ni as int]));
            }
            let conn_count = schematic.nets[ni].connections.len();
            let place_in_root = net_placed_in_root(schematic, &project.name, ni);
            let ghost owner: Seq<char> = if place_in_root {
                cap
            } else {
                sheet_of(
                    schematic.components@[schematic.nets@[ni as int].connections@[0].0.idx as int],
                    cap,
                )
            };
            let mi: usize = if place_in_root {
                let root_mi = match project.find_module(project.name.as_str()) {
                    Some(mi) => mi,
                    None => {
                        proof {
                            assert(false);
                        }
                        vstd::pervasive::unreached()
                    },
                };
                proof {
                    lemma_find_symbol_bounds(project.symbols_by_name@, project.name@);
                    assert(find_symbol_idx(project.symbols_by_name@, owner) == root_mi as int);
                }
                root_mi
            } else {
                let first_conn = schematic.nets[ni].connections[0];
                let first_sheet = project.sheet_for_component(
                    &schematic.components[first_conn.0.idx],
                );
                proof {
                    let fci = schematic.nets@[ni as int].connections@[0].0.idx as int;
                    assert(comp_def_ok(project, *schematic, fci, cap));
                }
                let sheet_mi = match project.find_module(first_sheet.as_str()) {
                    Some(mi) => mi,
                    None => {
                        proof {
                            assert(false);
                        }
                        vstd::pervasive::unreached()
                    },
                };
                proof {
                    assert(first_sheet@ == owner);
                    lemma_find_symbol_bounds(project.symbols_by_name@, owner);
                    assert(find_symbol_idx(project.symbols_by_name@, owner) == sheet_mi as int);
                }
                sheet_mi
            };
            proof {
                // The net's own name cannot be a key of the owner module
                // yet: every recorded key belongs to an earlier net, and
                // net names are unique.
                let entries = module_nets(project.symbols_by_name@[mi as int]);
                let net_name = schematic.nets@[ni as int].name@;
                if entry_idx(entries, net_name) >= 0 {
                    lemma_entry_idx_bounds(entries, net_name);
                    let qx = entry_idx(entries, net_name);
                    assert(module_nets(project.symbols_by_name@[mi as int])[qx].0@ == net_name);
                    assert(entry_owned(project, *schematic, cap, mi as int, qx, ni as int));
                    let c = choose|c: int|
                        #![trigger entry_owner_is(project, *schematic, cap, mi as int, qx, c)]
                        0 <= c < ni && entry_owner_is(
                            project,
                            *schematic,
                            cap,
                            mi as int,
                            qx,
                            c,
                        );
                    assert(schematic.nets@[c].name@ == schematic.nets@[ni as int].name@);
                    assert(false);
                }
                lemma_nets_exclusive_mono(project, *schematic, cap, ni as int, ni + 1);
            }
            let mut k: usize = 0;
            while k < conn_count
                invariant
                    k <= conn_count,
                    ni < schematic.nets@.len(),
                    schematic.wf(),
                    nparts == schematic.parts@.len(),
                    forall|c2: int|
                        0 <= c2 < schematic.components@.len() ==> sheet_ok(
                            #[trigger] schematic.components@[c2],
                            cap,
                        ),
                    conn_count == schematic.nets@[ni as int].connections@.len(),
                    mi < project.symbols_by_name@.len(),
                    project.symbols_by_name@[mi as int] is Module,
                    cap == capitalized(name@),
                    place_in_root == net_in_root(
                        *schematic,
                        cap,
                        schematic.nets@[ni as int],
                    ),
                    owner == (if place_in_root {
                        cap
                    } else {
                        sheet_of(
                            schematic.components@[schematic.nets@[ni as int].connections@[0].0.idx as int],
                            cap,
                        )
                    }),
                    find_symbol_idx(project.symbols_by_name@, owner) == mi as int,
                    k == 0 ==> entry_idx(
                        module_nets(project.symbols_by_name@[mi as int]),
                        schematic.nets@[ni as int].name@,
                    ) < 0,
                    k > 0 ==> ({
                        let entries = module_nets(project.symbols_by_name@[mi as int]);
                        let j = entry_idx(entries, schematic.nets@[ni as int].name@);
                        &&& j >= 0
                        &&& entries[j].1@.len() == k
                        &&& forall|q2: int|
                            0 <= q2 < k ==> (#[trigger] entries[j].1@[q2])@ == conn_ref(
                                *schematic,
                                cap,
                                schematic.nets@[ni as int],
                                q2,
                            )
                    }),
                    forall|c: int| 0 <= c < ni ==> net_declared(project, *schematic, c, cap),
                    owner == net_owner(*schematic, cap, ni as int),
                    nets_exclusive(project, *schematic, cap, ni + 1),
                    builder_shape(project, *schematic, cap, nparts),
                    forall|c: int|
                        0 <= c < nparts ==> part_symbol_ok(
                            project,
                            #[trigger] schematic.parts@[c],
                        ),
                    meta_lookup(project.symbol_name_to_file_name@, cap) == Some(
                        lower_str(cap) + ".ato"@,
                    ),
                    forall|si: int|
                        1 + nparts <= si < project.symbols_by_name@.len() ==> meta_lookup(
                            project.symbol_name_to_file_name@,
                            sym_name(#[trigger] project.symbols_by_name@[si]),
                        ) == Some(sym_name(project.symbols_by_name@[si]) + ".ato"@),
                    forall|c: int|
                        0 <= c < schematic.components@.len() ==> comp_def_ok(
                            project,
                            *schematic,
                            c,
                            cap,
                        ),
                decreases conn_count - k,
            {
                let conn = schematic.nets[ni].connections[k];
                let component = &schematic.components[conn.0.idx];
                let part = &schematic.parts[component.part.idx];
                let signal = &part.ports[conn.1.idx].signal;
                let reference = if place_in_root {
                    let conn_sheet = project.sheet_for_component(component);
                    qualified_ref(
                        conn_sheet.as_str(),
                        component.name.as_str(),
                        signal.as_str(),
                    )
                } else {
                    local_ref(component.name.as_str(), signal.as_str())
                };
                proof {
                    assert(schematic.nets@[ni as int].connections@[k as int] == conn);
                    assert(schematic.components@[conn.0.idx as int] == *component);
                    assert(schematic.parts@[component.part.idx as int] == *part);
                    assert(reference@ == conn_ref(
                        *schematic,
                        cap,
                        schematic.nets@[ni as int],
                        k as int,
                    ));
                }
                let ghost mid = project;
                let net_name_owned = schematic.nets[ni].name.clone();
                project.append_net_ref(mi, net_name_owned.as_str(), reference);
                proof {
                    let post = project;
                    assert forall|k2: int|
                        0 <= k2 < mid.symbols_by_name@.len() implies sym_name(
                        #[trigger] mid.symbols_by_name@[k2],
                    ) == sym_name(post.symbols_by_name@[k2]) by {
                        if k2 != mi as int {
                            assert(post.symbols_by_name@[k2] == mid.symbols_by_name@[k2]);
                        }
                    }
                    assert forall|c: int|
                        0 <= c < nparts implies part_symbol_ok(
                        post,
                        #[trigger] schematic.parts@[c],
                    ) by {
                        assert(part_symbol_ok(mid, schematic.parts@[c]));
                        lemma_find_symbol_bounds(mid.symbols_by_name@, schematic.parts@[c].name@);
                        lemma_find_symbol_same_names(
                            mid.symbols_by_name@,
                            post.symbols_by_name@,
                            schematic.parts@[c].name@,
                        );
                        let si = find_symbol_idx(mid.symbols_by_name@, schematic.parts@[c].name@);
                        assert(si != mi as int);
                        assert(post.symbols_by_name@[si] == mid.symbols_by_name@[si]);
                    }
                    assert forall|c: int|
                        0 <= c < schematic.components@.len() implies comp_def_ok(
                        post,
                        *schematic,
                        c,
                        cap,
                    ) by {
                        assert(comp_def_ok(mid, *schematic, c, cap));
                        lemma_find_symbol_bounds(
                            mid.symbols_by_name@,
                            sheet_of(schematic.components@[c], cap),
                        );
                        lemma_find_symbol_same_names(
                            mid.symbols_by_name@,
                            post.symbols_by_name@,
                            sheet_of(schematic.components@[c], cap),
                        );
                        let cmi = find_symbol_idx(
                            mid.symbols_by_name@,
                            sheet_of(schematic.components@[c], cap),
                        );
                        assert(module_defs(post.symbols_by_name@[cmi]) == module_defs(
                            mid.symbols_by_name@[cmi],
                        ));
                        let wd = choose|w: int|
                            0 <= w < module_defs(mid.symbols_by_name@[cmi]).len() && (
                            #[trigger] module_defs(mid.symbols_by_name@[cmi])[w]).name@
                                == schematic.components@[c].name@ && module_defs(
                                mid.symbols_by_name@[cmi],
                            )[w].symbol_name@
                                == schematic.parts@[schematic.components@[c].part.idx as int].name@
                                && module_defs(mid.symbols_by_name@[cmi])[w].component == Some(
                                ComponentRef { idx: c as usize },
                            );
                        assert(module_defs(post.symbols_by_name@[cmi])[wd] == module_defs(
                            mid.symbols_by_name@[cmi],
                        )[wd]);
                    }
                    lemma_find_symbol_same_names(
                        mid.symbols_by_name@,
                        post.symbols_by_name@,
                        owner,
                    );
                    let old_entries = module_nets(mid.symbols_by_name@[mi as int]);
                    let new_entries = module_nets(post.symbols_by_name@[mi as int]);
                    let net_name = schematic.nets@[ni as int].name@;
                    let ghost net_v = schematic.nets@[ni as int];
                    let j_old = entry_idx(old_entries, net_name);
                    // The appended reference lands as entry slot number k.
                    if k == 0 {
                        assert(j_old < 0);
                        lemma_entry_idx_none(old_entries, net_name);
                        assert forall|q2: int|
                            0 <= q2 < new_entries.len() - 1 implies (
                        #[trigger] new_entries[q2]).0@ != net_name by {
                            assert(new_entries[q2] == old_entries[q2]);
                        }
                        lemma_entry_idx_of(new_entries, net_name, new_entries.len() - 1);
                        assert(entry_idx(new_entries, net_name) == new_entries.len() - 1);
                        assert(new_entries.last().1@ =~= seq![reference]);
                        assert(new_entries[new_entries.len() - 1].1@[0] == reference);
                    } else {
                        lemma_entry_idx_bounds(old_entries, net_name);
                        assert forall|q2: int|
                            0 <= q2 < new_entries.len() implies (#[trigger] new_entries[q2]).0@
                            == old_entries[q2].0@ by {
                            if q2 != j_old {
                                assert(new_entries[q2] == old_entries[q2]);
                            }
                        }
                        lemma_entry_idx_same_keys(old_entries, new_entries, net_name);
                        assert(new_entries[j_old].1@ == old_entries[j_old].1@.push(reference));
                        assert forall|q2: int|
                            0 <= q2 < k + 1 implies (#[trigger] new_entries[j_old].1@[q2])@
                            == conn_ref(*schematic, cap, net_v, q2) by {
                            if q2 < k {
                                assert(new_entries[j_old].1@[q2] == old_entries[j_old].1@[q2]);
                            } else {
                                assert(new_entries[j_old].1@[q2] == reference);
                            }
                        }
                    }
                    // Entries of earlier nets keep their place and their
                    // references.
                    assert forall|c: int|
                        0 <= c < ni implies net_declared(post, *schematic, c, cap) by {
                        assert(net_declared(mid, *schematic, c, cap));
                        assert(schematic.net_wf(schematic.nets@[c]));
                        let net_c = schematic.nets@[c];
                        let owner_c = if net_in_root(*schematic, cap, net_c) {
                            cap
                        } else {
                            sheet_of(
                                schematic.components@[net_c.connections@[0].0.idx as int],
                                cap,
                            )
                        };
                        lemma_find_symbol_bounds(mid.symbols_by_name@, owner_c);
                        lemma_find_symbol_same_names(
                            mid.symbols_by_name@,
                            post.symbols_by_name@,
                            owner_c,
                        );
                        let omi = find_symbol_idx(mid.symbols_by_name@, owner_c);
                        if omi == mi as int {
                            if net_c.connections@.len() > 0 {
                                let jc = entry_idx(old_entries, net_c.name@);
                                lemma_entry_idx_bounds(old_entries, net_c.name@);
                                lemma_entry_idx_prefix(old_entries, net_c.name@);
                                assert(net_c.name@ != net_name);
                                assert forall|q2: int|
                                    0 <= q2 < jc implies (#[trigger] new_entries[q2]).0@
                                    != net_c.name@ by {
                                    if j_old >= 0 && q2 == j_old {
                                        assert(new_entries[q2].0@ == old_entries[q2].0@);
                                    } else {
                                        assert(new_entries[q2] == old_entries[q2]);
                                    }
                                }
                                assert(jc != j_old) by {
                                    if jc == j_old {
                                        assert(old_entries[jc].0@ == net_name);
                                    }
                                }
                                assert(new_entries[jc] == old_entries[jc]);
                                lemma_entry_idx_of(new_entries, net_c.name@, jc);
                                assert(entry_idx(new_entries, net_c.name@) == jc);
                                assert forall|q3: int|
                                    0 <= q3 < net_c.connections@.len() implies (
                                #[trigger] new_entries[jc].1@[q3])@ == conn_ref(
                                    *schematic,
                                    cap,
                                    net_c,
                                    q3,
                                ) by {
                                    lemma_net_declared_ref(mid, *schematic, c, cap, q3);
                                }
                            }
                        } else {
                            assert(post.symbols_by_name@[omi] == mid.symbols_by_name@[omi]);
                            if net_c.connections@.len() > 0 {
                                let entries_mid = module_nets(mid.symbols_by_name@[omi]);
                                let entries_post = module_nets(post.symbols_by_name@[omi]);
                                assert(entries_post == entries_mid);
                                let jc = entry_idx(entries_mid, net_c.name@);
                                assert forall|q3: int|
                                    0 <= q3 < net_c.connections@.len() implies (
                                #[trigger] entries_post[jc].1@[q3])@ == conn_ref(
                                    *schematic,
                                    cap,
                                    net_c,
                                    q3,
                                ) by {
                                    lemma_net_declared_ref(mid, *schematic, c, cap, q3);
                                }
                            }
                        }
                    }
                    // Every key still belongs to this or an earlier net,
                    // recorded in the module the scope rule assigns it to.
                    lemma_find_symbol_same_names(
                        mid.symbols_by_name@,
                        post.symbols_by_name@,
                        owner,
                    );
                    lemma_nets_exclusive_step(
                        mid,
                        post,
                        *schematic,
                        cap,
                        ni as int,
                        mi as int,
                    );
                    assert(nets_exclusive(post, *schematic, cap, ni + 1));
                }
                k = k + 1;
            }
            proof {
                assert(net_declared(project, *schematic, ni as int, cap));
                assert(nets_exclusive(project, *schematic, cap, ni + 1));
            }
            ni = ni + 1;
        }
        // Finally, wire each sheet into the root module. A sheet named
        // like the root was rejected above, so every entry gets a line.
        let mut q: usize = 0;
        while q < sheet_names.len()
            invariant
                q <= sheet_names@.len(),
                schematic.wf(),
                nparts == schematic.parts@.len(),
                cap == capitalized(name@),
                forall|c2: int|
                    0 <= c2 < schematic.components@.len() ==> sheet_ok(
                        #[trigger] schematic.components@[c2],
                        cap,
                    ),
                builder_shape(project, *schematic, cap, nparts),
                names_ok(*schematic, cap),
                forall|k: int|
                    0 <= k < nparts ==> part_symbol_ok(project, #[trigger] schematic.parts@[k]),
                meta_lookup(project.symbol_name_to_file_name@, cap) == Some(
                    lower_str(cap) + ".ato"@,
                ),
                forall|si: int|
                    1 + nparts <= si < project.symbols_by_name@.len() ==> meta_lookup(
                        project.symbol_name_to_file_name@,
                        sym_name(#[trigger] project.symbols_by_name@[si]),
                    ) == Some(sym_name(project.symbols_by_name@[si]) + ".ato"@),
                forall|k: int|
                    0 <= k < schematic.components@.len() ==> comp_def_ok(
                        project,
                        *schematic,
                        k,
                        cap,
                    ),
                forall|k: int|
                    0 <= k < schematic.nets@.len() ==> net_declared(project, *schematic, k, cap),
                nets_exclusive(project, *schematic, cap, schematic.nets@.len() as int),
                forall|q2: int|
                    0 <= q2 < q && (#[trigger] sheet_names@[q2])@ != cap ==> sheet_wired(
                        project,
                        sheet_names@[q2]@,
                        cap,
                    ),
            decreases sheet_names@.len() - q,
        {
            let sheet = &sheet_names[q];
            if !crate::strutil::str_eq(sheet.as_str(), project.name.as_str()) {
                let root_mi: usize = match project.find_module(project.name.as_str()) {
                    Some(mi) => mi,
                    None => {
                        proof {
                            assert(find_symbol_idx(project.symbols_by_name@, cap) == 0);
                            assert(false);
                        }
                        vstd::pervasive::unreached()
                    },
                };
                proof {
                    lemma_find_symbol_bounds(project.symbols_by_name@, project.name@);
                    assert(find_symbol_idx(project.symbols_by_name@, cap) == root_mi as int);
                }
                let def = AtopileDefinition {
                    name: sheet.clone(),
                    symbol_name: sheet.clone(),
                    component: None,
                };
                let ghost mid = project;
                project.push_definition(root_mi, def);
                proof {
                    let post = project;
                    assert forall|c: int|
                        0 <= c < nparts implies part_symbol_ok(
                        post,
                        #[trigger] schematic.parts@[c],
                    ) by {
                        assert(part_symbol_ok(mid, schematic.parts@[c]));
                        lemma_find_symbol_bounds(mid.symbols_by_name@, schematic.parts@[c].name@);
                        lemma_find_symbol_same_names(
                            mid.symbols_by_name@,
                            post.symbols_by_name@,
                            schematic.parts@[c].name@,
                        );
                        let si = find_symbol_idx(mid.symbols_by_name@, schematic.parts@[c].name@);
                        assert(si != root_mi as int);
                        assert(post.symbols_by_name@[si] == mid.symbols_by_name@[si]);
                    }
                    assert forall|c: int|
                        0 <= c < schematic.components@.len() implies comp_def_ok(
                        post,
                        *schematic,
                        c,
                        cap,
                    ) by {
                        assert(comp_def_ok(mid, *schematic, c, cap));
                        lemma_find_symbol_bounds(
                            mid.symbols_by_name@,
                            sheet_of(schematic.components@[c], cap),
                        );
                        lemma_find_symbol_same_names(
                            mid.symbols_by_name@,
                            post.symbols_by_name@,
                            sheet_of(schematic.components@[c], cap),
                        );
                        let cmi = find_symbol_idx(
                            mid.symbols_by_name@,
                            sheet_of(schematic.components@[c], cap),
                        );
                        let wd = choose|w: int|
                            0 <= w < module_defs(mid.symbols_by_name@[cmi]).len() && (
                            #[trigger] module_defs(mid.symbols_by_name@[cmi])[w]).name@
                                == schematic.components@[c].name@ && module_defs(
                                mid.symbols_by_name@[cmi],
                            )[w].symbol_name@
                                == schematic.parts@[schematic.components@[c].part.idx as int].name@
                                && module_defs(mid.symbols_by_name@[cmi])[w].component == Some(
                                ComponentRef { idx: c as usize },
                            );
                        if cmi == root_mi as int {
                            assert(module_defs(post.symbols_by_name@[cmi]) == module_defs(
                                mid.symbols_by_name@[cmi],
                            ).push(def));
                            assert(module_defs(post.symbols_by_name@[cmi])[wd] == module_defs(
                                mid.symbols_by_name@[cmi],
                            )[wd]);
                        } else {
                            assert(post.symbols_by_name@[cmi] == mid.symbols_by_name@[cmi]);
                        }
                    }
                    assert forall|c: int|
                        0 <= c < schematic.nets@.len() implies net_declared(
                        post,
                        *schematic,
                        c,
                        cap,
                    ) by {
                        assert(net_declared(mid, *schematic, c, cap));
                        assert(schematic.net_wf(schematic.nets@[c]));
                        let net_c = schematic.nets@[c];
                        let owner_c = if net_in_root(*schematic, cap, net_c) {
                            cap
                        } else {
                            sheet_of(
                                schematic.components@[net_c.connections@[0].0.idx as int],
                                cap,
                            )
                        };
                        lemma_find_symbol_bounds(mid.symbols_by_name@, owner_c);
                        lemma_find_symbol_same_names(
                            mid.symbols_by_name@,
                            post.symbols_by_name@,
                            owner_c,
                        );
                        let omi = find_symbol_idx(mid.symbols_by_name@, owner_c);
                        if omi == root_mi as int {
                            assert(module_nets(post.symbols_by_name@[omi]) == module_nets(
                                mid.symbols_by_name@[omi],
                            ));
                        } else {
                            assert(post.symbols_by_name@[omi] == mid.symbols_by_name@[omi]);
                        }
                        if net_c.connections@.len() > 0 {
                            let entries_mid = module_nets(mid.symbols_by_name@[omi]);
                            let entries_post = module_nets(post.symbols_by_name@[omi]);
                            assert(entries_post == entries_mid);
                            let jc = entry_idx(entries_mid, net_c.name@);
                            assert forall|q3: int|
                                0 <= q3 < net_c.connections@.len() implies (
                            #[trigger] entries_post[jc].1@[q3])@ == conn_ref(
                                *schematic,
                                cap,
                                net_c,
                                q3,
                            ) by {
                                lemma_net_declared_ref(mid, *schematic, c, cap, q3);
                            }
                        }
                    }
                    lemma_find_symbol_same_names(mid.symbols_by_name@, post.symbols_by_name@, cap);
                    assert(find_symbol_idx(post.symbols_by_name@, cap) == root_mi as int);
                    assert forall|k2: int|
                        0 <= k2 < mid.symbols_by_name@.len() implies module_nets(
                        #[trigger] post.symbols_by_name@[k2],
                    ) == module_nets(mid.symbols_by_name@[k2]) by {
                        if k2 != root_mi as int {
                            assert(post.symbols_by_name@[k2] == mid.symbols_by_name@[k2]);
                        }
                    }
                    lemma_nets_exclusive_same(
                        mid,
                        post,
                        *schematic,
                        cap,
                        schematic.nets@.len() as int,
                    );
                    assert forall|q2: int|
                        0 <= q2 < q + 1 && (#[trigger] sheet_names@[q2])@ != cap implies
                        sheet_wired(post, sheet_names@[q2]@, cap) by {
                        if q2 < q {
                            assert(sheet_wired(mid, sheet_names@[q2]@, cap));
                            let wk = choose|k2: int|
                                0 <= k2 < module_defs(mid.symbols_by_name@[root_mi as int]).len()
                                    && (#[trigger] module_defs(
                                    mid.symbols_by_name@[root_mi as int],
                                )[k2]).name@ == sheet_names@[q2]@ && module_defs(
                                    mid.symbols_by_name@[root_mi as int],
                                )[k2].symbol_name@ == sheet_names@[q2]@ && module_defs(
                                    mid.symbols_by_name@[root_mi as int],
                                )[k2].component is None;
                            assert(module_defs(post.symbols_by_name@[root_mi as int])[wk]
                                == module_defs(mid.symbols_by_name@[root_mi as int])[wk]);
                        } else {
                            assert(module_defs(post.symbols_by_name@[root_mi as int]).last()
                                == def);
                        }
                    }
                }
            }
            q = q + 1;
        }
        proof {
            assert forall|ci: int|
                0 <= ci < schematic.components@.len() implies sheet_wired(
                project,
                sheet_of(#[trigger] schematic.components@[ci], cap),
                cap,
            ) by {
                assert(sheet_of(schematic.components@[ci], cap) != cap);
                let qn = choose|qn: int|
                    #![trigger sheet_names@[qn]]
                    0 <= qn < sheet_names@.len() && sheet_names@[qn]@ == sheet_of(
                        schematic.components@[ci],
                        cap,
                    );
                assert(sheet_wired(project, sheet_names@[qn]@, cap));
            }
        }
        Ok(project)
    }
}

/// Builds `<sheet>.<component>.<signal>`.
fn qualified_ref(sheet: &str, component: &str, signal: &str) -> (r: String)
    ensures
        r@ == sheet@ + "."@ + component@ + "."@ + signal@,
{
    let mut out = String::new();
    out.append(sheet);
    out.append(".");
    out.append(component);
    out.append(".");
    out.append(signal);
    proof {
        assert(out@ =~= sheet@ + "."@ + component@ + "."@ + signal@);
    }
    out
}

/// Builds `<component>.<signal>`.
fn local_ref(component: &str, signal: &str) -> (r: String)
    ensures
        r@ == component@ + "."@ + signal@,
{
    let mut out = String::new();
    out.append(component);
    out.append(".");
    out.append(signal);
    proof {
        assert(out@ =~= component@ + "."@ + signal@);
    }
    out
}


/// A lookup that succeeds keeps succeeding when the list grows by one
/// entry at the end, and the new entry's key is found too.
proof fn lemma_meta_idx_extend(
    old_md: Seq<(String, String)>,
    new_md: Seq<(String, String)>,
    key: Seq<char>,
)
    requires
        new_md.len() == old_md.len() + 1,
        forall|k: int| 0 <= k < old_md.len() ==> #[trigger] new_md[k] == old_md[k],
    ensures
        meta_idx(old_md, key) >= 0 ==> meta_idx(new_md, key) == meta_idx(old_md, key),
        meta_idx(old_md, key) < 0 && new_md.last().0@ == key ==> meta_idx(new_md, key)
            == old_md.len(),
        meta_idx(old_md, key) < 0 && new_md.last().0@ != key ==> meta_idx(new_md, key) < 0,
    decreases old_md.len(),
{
    if old_md.len() == 0 {
        assert(new_md.drop_first() =~= Seq::<(String, String)>::empty());
        assert(meta_idx(Seq::<(String, String)>::empty(), key) == -1);
        if new_md.last().0@ == key {
            assert(new_md[0].0@ == key);
        }
    } else {
        assert(forall|k: int|
            0 <= k < old_md.len() - 1 ==> #[trigger] old_md.drop_first()[k] == old_md[k + 1]);
        assert(forall|k: int|
            0 <= k < new_md.len() - 1 ==> #[trigger] new_md.drop_first()[k] == new_md[k + 1]);
        lemma_meta_idx_extend(old_md.drop_first(), new_md.drop_first(), key);
        assert(new_md.drop_first().last() == new_md.last());
        assert(new_md[0] == old_md[0]);
    }
}

} // verus!
