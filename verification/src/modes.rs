//! The modes of travel and their shares of all trips.

use vstd::prelude::*;

use crate::trips::Transport;

verus! {

/// A mode of travel. `index` is its position in the mode table; `share` is
/// its weight among all modes, in thousandths for the built-in table.
#[derive(Clone, Copy, Debug)]
pub struct Mode {
    pub index: usize,
    pub name: &'static str,
    pub share: u32,
    pub transport: Transport,
}

/// Number of modes in the built-in table.
pub const COUNT: usize = 5;

/// The weights of the modes, in table order.
pub open spec fn shares(table: Seq<Mode>) -> Seq<nat> {
    Seq::new(table.len(), |i: int| table[i].share as nat)
}

/// There is a mode, the modes are numbered by position, and some mode has a
/// share.
pub open spec fn table_valid(table: Seq<Mode>) -> bool {
    &&& table.len() >= 1
    &&& forall|i: int| 0 <= i < table.len() ==> (#[trigger] table[i]).index == i
    &&& exists|i: int| 0 <= i < table.len() && (#[trigger] table[i]).share > 0
}

/// The built-in mode table: walking, cycling, public transport, driving a
/// car and riding in one, with their shares in thousandths.
pub fn modes() -> (table: Vec<Mode>)
    ensures
        table.len() == COUNT,
        table_valid(table@),
        shares(table@) == seq![298nat, 110, 130, 336, 126],
        table[0].name@ == "Feet"@,
        table[1].name@ == "Bike"@,
        table[2].name@ == "Pt"@,
        table[3].name@ == "CarDriver"@,
        table[4].name@ == "CarPassenger"@,
        forall|i: int|
            0 <= i < 5 ==> (#[trigger] table[i]).transport == if i == 2 {
                Transport::Public
            } else {
                Transport::Individual
            },
{
    let mut table: Vec<Mode> = Vec::new();
    table.push(Mode { index: 0, name: "Feet", share: 298, transport: Transport::Individual });
    table.push(Mode { index: 1, name: "Bike", share: 110, transport: Transport::Individual });
    table.push(Mode { index: 2, name: "Pt", share: 130, transport: Transport::Public });
    table.push(Mode { index: 3, name: "CarDriver", share: 336, transport: Transport::Individual });
    table.push(
        Mode { index: 4, name: "CarPassenger", share: 126, transport: Transport::Individual },
    );
    proof {
        assert(table@[0].share > 0);
        assert(shares(table@) =~= seq![298nat, 110, 130, 336, 126]);
    }
    table
}

/// Whether a mode table is valid.
pub fn check(table: &Vec<Mode>) -> (valid: bool)
    ensures
        valid == table_valid(table@),
{
    if table.len() == 0 {
        return false;
    }
    let mut some_share = false;
    let mut i: usize = 0;
    while i < table.len()
        invariant
            i <= table.len(),
            forall|k: int| 0 <= k < i ==> (#[trigger] table[k]).index == k,
            some_share <==> exists|k: int| 0 <= k < i && (#[trigger] table[k]).share > 0,
        decreases table.len() - i,
    {
        if table[i].index != i {
            return false;
        }
        if table[i].share > 0 {
            some_share = true;
        }
        i = i + 1;
    }
    some_share
}

} // verus!
