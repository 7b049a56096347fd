//! Built-in generic parts registered into a fresh schematic.

use crate::schematic::{has_part, Schematic, SchematicError};
use vstd::prelude::*;

pub mod capacitor;
pub mod resistor;

verus! {

/// The shape of a seeded generic part: two ports, `"1"` carrying `"p1"`
/// and `"2"` carrying `"p2"`, no metadata, no datasheet.
pub open spec fn seeded_part(p: crate::part::Part, name: Seq<char>) -> bool {
    &&& p.name@ == name
    &&& p.ports@.len() == 2
    &&& p.ports@[0].terminal_identifier@ == "1"@
    &&& p.ports@[0].signal@ == "p1"@
    &&& p.ports@[1].terminal_identifier@ == "2"@
    &&& p.ports@[1].signal@ == "p2"@
    &&& p.metadata@.len() == 0
    &&& p.datasheet_url is None
}

impl Schematic {
    /// Registers the built-in generic parts.
    pub fn register_standard_library(&mut self) -> (r: Result<(), SchematicError>)
        requires
            old(self).wf(),
        ensures
            final(self).wf(),
            !has_part(old(self).parts@, "Resistor"@) && !has_part(old(self).parts@, "Capacitor"@)
                ==> {
                &&& r is Ok
                &&& final(self).parts@.len() == old(self).parts@.len() + 2
                &&& forall|k: int|
                    0 <= k < old(self).parts@.len() ==> #[trigger] final(self).parts@[k]
                        == old(self).parts@[k]
                &&& seeded_part(
                    final(self).parts@[old(self).parts@.len() as int],
                    "Resistor"@,
                )
                &&& seeded_part(
                    final(self).parts@[old(self).parts@.len() as int + 1],
                    "Capacitor"@,
                )
                &&& final(self).components == old(self).components
                &&& final(self).nets == old(self).nets
            },
            has_part(old(self).parts@, "Resistor"@) ==> (r matches Err(
                SchematicError::NameAlreadyExists(n),
            ) && n@ == "Resistor"@ && *final(self) == *old(self)),
            (!has_part(old(self).parts@, "Resistor"@) && has_part(
                old(self).parts@,
                "Capacitor"@,
            )) ==> {
                &&& r matches Err(SchematicError::NameAlreadyExists(n)) && n@ == "Capacitor"@
                &&& final(self).parts@.len() == old(self).parts@.len() + 1
                &&& forall|k: int|
                    0 <= k < old(self).parts@.len() ==> #[trigger] final(self).parts@[k]
                        == old(self).parts@[k]
                &&& seeded_part(
                    final(self).parts@[old(self).parts@.len() as int],
                    "Resistor"@,
                )
                &&& final(self).components == old(self).components
                &&& final(self).nets == old(self).nets
            },
    {
        proof {
            reveal_strlit("Resistor");
            reveal_strlit("Capacitor");
        }
        let ghost pre = *self;
        match resistor::register(self) {
            Ok(()) => (),
            Err(e) => {
                return Err(e);
            },
        }
        proof {
            assert("Resistor"@ != "Capacitor"@) by {
                assert("Resistor"@.len() == 8);
                assert("Capacitor"@.len() == 9);
            }
            if !has_part(pre.parts@, "Resistor"@) && !has_part(pre.parts@, "Capacitor"@) {
                assert forall|k: int|
                    0 <= k < self.parts@.len() implies (#[trigger] self.parts@[k]).name@
                    != "Capacitor"@ by {
                    if k < pre.parts@.len() {
                        assert(self.parts@[k] == pre.parts@[k]);
                    }
                }
                assert(!has_part(self.parts@, "Capacitor"@));
            }
            if !has_part(pre.parts@, "Resistor"@) && has_part(pre.parts@, "Capacitor"@) {
                let w = choose|w: int|
                    0 <= w < pre.parts@.len() && (#[trigger] pre.parts@[w]).name@ == "Capacitor"@;
                assert(self.parts@[w] == pre.parts@[w]);
                assert(has_part(self.parts@, "Capacitor"@));
            }
        }
        match capacitor::register(self) {
            Ok(()) => (),
            Err(e) => {
                return Err(e);
            },
        }
        Ok(())
    }
}

} // verus!
