//! The generic capacitor part.

use crate::part::PartBuilder;
use crate::schematic::{has_part, Schematic, SchematicError};
use vstd::prelude::*;

verus! {

/// Registers the generic two-pin capacitor.
pub fn register(schematic: &mut Schematic) -> (r: Result<(), SchematicError>)
    requires
        old(schematic).wf(),
    ensures
        final(schematic).wf(),
        !has_part(old(schematic).parts@, "Capacitor"@) ==> {
            &&& r is Ok
            &&& final(schematic).parts@.len() == old(schematic).parts@.len() + 1
            &&& forall|k: int|
                0 <= k < old(schematic).parts@.len() ==> #[trigger] final(schematic).parts@[k]
                    == old(schematic).parts@[k]
            &&& final(schematic).parts@.last().name@ == "Capacitor"@
            &&& final(schematic).parts@.last().ports@.len() == 2
            &&& final(schematic).parts@.last().ports@[0].terminal_identifier@ == "1"@
            &&& final(schematic).parts@.last().ports@[0].signal@ == "p1"@
            &&& final(schematic).parts@.last().ports@[1].terminal_identifier@ == "2"@
            &&& final(schematic).parts@.last().ports@[1].signal@ == "p2"@
            &&& final(schematic).parts@.last().metadata@.len() == 0
            &&& final(schematic).parts@.last().datasheet_url is None
            &&& final(schematic).components == old(schematic).components
            &&& final(schematic).nets == old(schematic).nets
        },
        has_part(old(schematic).parts@, "Capacitor"@) ==> (r matches Err(
            SchematicError::NameAlreadyExists(n),
        ) && n@ == "Capacitor"@ && *final(schematic) == *old(schematic)),
{
    let mut builder = PartBuilder::default();
    builder.name("Capacitor".to_owned());
    builder.port("1", "p1");
    let ghost mid = builder;
    proof {
        reveal_strlit("1");
        reveal_strlit("2");
        assert(mid.ports@.len() == 1);
        assert(mid.ports@[0].terminal_identifier@ == "1"@);
        assert("1"@ != "2"@) by {
            assert("1"@[0] == '1');
            assert("2"@[0] == '2');
            assert('1' as u32 == 49);
            assert('2' as u32 == 50);
            if "1"@ == "2"@ {
                assert("1"@[0] == "2"@[0]);
            }
        }
        crate::part::lemma_find_port_idx_of(mid.ports@, "2"@, 1);
    }
    builder.port("2", "p2");
    proof {
        assert(builder.ports@.len() == 2);
        assert(builder.ports@[0] == mid.ports@[0]);
        assert(builder.ports@[1].terminal_identifier@ == "2"@);
        assert(builder.ports@[1].signal@ == "p2"@);
    }
    let part = match builder.build() {
        Ok(p) => p,
        Err(e) => {
            return Err(e);
        },
    };
    match schematic.add_part(part) {
        Ok(_) => Ok(()),
        Err(e) => Err(e),
    }
}

} // verus!
