//! The districts between which trips are made.

use std::collections::HashSet;
use vstd::prelude::*;
use vstd::string::StringExecFns;

use crate::reference::ReferenceDataError;

verus! {

/// Identifier of a district in the survey data.
#[derive(Debug, PartialEq, Eq, Hash, Clone, Copy, Structural)]
pub struct Id(pub u16);

impl View for Id {
    type V = u16;

    open spec fn view(&self) -> u16 {
        self.0
    }
}

impl Id {
    /// The number behind the identifier.
    pub fn value(&self) -> (v: u16)
        ensures
            v == self@,
    {
        self.0
    }
}

/// A district as it is read from the survey data.
pub struct DistrictRow {
    pub id: u16,
    pub info: String,
}

/// A district of the reference tables. `index` is its position in the table.
#[derive(Debug)]
pub struct District {
    pub index: usize,
    pub id: Id,
    pub info: String,
}

/// Districts are the same if they carry the same identifier.
impl PartialEq for District {
    fn eq(&self, other: &Self) -> (same: bool) {
        self.id.0 == other.id.0
    }
}

impl Eq for District {

}

impl vstd::std_specs::cmp::PartialEqSpecImpl for District {
    open spec fn obeys_eq_spec() -> bool {
        true
    }

    open spec fn eq_spec(&self, other: &Self) -> bool {
        self.id == other.id
    }
}

/// No two rows carry the same identifier.
pub open spec fn rows_distinct(rows: Seq<DistrictRow>) -> bool {
    forall|i: int, j: int| 0 <= i < j < rows.len() ==> rows[i].id != rows[j].id
}

/// The table that lists `rows` in order, each at its own index.
pub open spec fn table_from(rows: Seq<DistrictRow>) -> Seq<District> {
    Seq::new(
        rows.len(),
        |i: int| District { index: i as usize, id: Id(rows[i].id), info: rows[i].info },
    )
}

/// The districts are numbered by position and no identifier occurs twice.
pub open spec fn table_valid(table: Seq<District>) -> bool {
    &&& forall|i: int| 0 <= i < table.len() ==> (#[trigger] table[i]).index == i
    &&& forall|i: int, j: int| 0 <= i < j < table.len() ==> table[i].id != table[j].id
}

/// Position of the first district with identifier `id`, or the length of the
/// table if there is none.
pub open spec fn position_of(table: Seq<District>, id: u16) -> int
    decreases table.len(),
{
    if table.len() == 0 {
        0
    } else if table[0].id@ == id {
        0
    } else {
        1 + position_of(table.drop_first(), id)
    }
}

/// `position_of` finds the first district with the identifier, if any.
pub proof fn lemma_position_of(table: Seq<District>, id: u16)
    ensures
        0 <= position_of(table, id) <= table.len(),
        position_of(table, id) < table.len() ==> table[position_of(table, id)].id@ == id,
        forall|i: int| 0 <= i < position_of(table, id) ==> (#[trigger] table[i]).id@ != id,
    decreases table.len(),
{
    if table.len() > 0 && table[0].id@ != id {
        let rest = table.drop_first();
        lemma_position_of(rest, id);
        assert forall|i: int| 0 <= i < position_of(table, id) implies (#[trigger] table[i]).id@
            != id by {
            if i > 0 {
                assert(table[i] == rest[i - 1]);
            }
        }
    }
}

/// Builds the district table from the rows of the survey data. Fails if an
/// identifier occurs twice.
pub fn load(rows: &Vec<DistrictRow>) -> (loaded: Result<Vec<District>, ReferenceDataError>)
    ensures
        rows_distinct(rows@) ==> loaded.is_ok() && loaded.unwrap()@ == table_from(rows@)
            && table_valid(loaded.unwrap()@),
        !rows_distinct(rows@) ==> loaded == Err::<Vec<District>, ReferenceDataError>(
            ReferenceDataError::DuplicateDistrict,
        ),
{
    broadcast use vstd::std_specs::hash::group_hash_axioms;

    let mut table: Vec<District> = Vec::new();
    let mut seen: HashSet<u16> = HashSet::new();
    let mut i: usize = 0;
    while i < rows.len()
        invariant
            i <= rows.len(),
            table@ == table_from(rows@.take(i as int)),
            rows_distinct(rows@.take(i as int)),
            forall|id: u16|
                seen@.contains(id) <==> exists|j: int| 0 <= j < i && (#[trigger] rows[j]).id == id,
        decreases rows.len() - i,
    {
        let row = &rows[i];
        if !seen.insert(row.id) {
            proof {
                let j = choose|j: int| 0 <= j < i && (#[trigger] rows[j]).id == row.id;
                assert(rows[j].id == rows[i as int].id);
            }
            return Err(ReferenceDataError::DuplicateDistrict);
        }
        table.push(District { index: i, id: Id(row.id), info: row.info.clone() });
        proof {
            let before = rows@.take(i as int);
            let after = rows@.take(i + 1);
            assert forall|a: int, b: int| 0 <= a < b < after.len() implies after[a].id
                != after[b].id by {
                if b < i {
                    assert(before[a].id != before[b].id);
                } else {
                    assert(rows[a].id == after[a].id);
                }
            }
            assert(table@ =~= table_from(after)) by {
                assert forall|k: int| 0 <= k < after.len() implies table@[k] == table_from(
                    after,
                )[k] by {
                    if k < i {
                        assert(before[k] == after[k]);
                        assert(table@[k] == table_from(before)[k]);
                    }
                }
            }
        }
        i = i + 1;
    }
    proof {
        assert(rows@.take(i as int) =~= rows@);
        assert forall|a: int, b: int| 0 <= a < b < table@.len() implies table@[a].id
            != table@[b].id by {
            assert(rows[a].id != rows[b].id);
        }
        assert(rows@.len() <= usize::MAX);
    }
    Ok(table)
}

/// Position of the first district with identifier `id`, if there is one.
pub fn find_position(table: &Vec<District>, id: u16) -> (found: Option<usize>)
    ensures
        position_of(table@, id) < table.len() ==> found == Some(position_of(table@, id) as usize),
        position_of(table@, id) >= table.len() ==> found.is_none(),
{
    proof {
        lemma_position_of(table@, id);
    }
    let mut i: usize = 0;
    while i < table.len()
        invariant
            i <= table.len(),
            i <= position_of(table@, id),
            forall|k: int| 0 <= k < position_of(table@, id) ==> (#[trigger] table[k]).id@ != id,
            position_of(table@, id) < table.len() ==> table[position_of(table@, id)].id@ == id,
        decreases table.len() - i,
    {
        if table[i].id.0 == id {
            return Some(i);
        }
        i = i + 1;
    }
    None
}

/// The first district with identifier `id`, if there is one.
pub fn parse_id(table: &Vec<District>, id: u16) -> (found: Option<&District>)
    ensures
        position_of(table@, id) < table.len() ==> found == Some(&table[position_of(table@, id)]),
        position_of(table@, id) >= table.len() ==> found.is_none(),
{
    proof {
        lemma_position_of(table@, id);
    }
    match find_position(table, id) {
        Some(i) => Some(&table[i]),
        None => None,
    }
}

/// The label of a district: its name, followed in brackets by the name of
/// the group it belongs to where that differs.
pub fn compose_info(name: &str, group: &str) -> (info: String)
    ensures
        info@ == if name@ == group@ {
            name@
        } else {
            name@ + " ("@ + group@ + ")"@
        },
{
    let name_owned = String::from_str(name);
    let group_owned = String::from_str(group);
    if name_owned == group_owned {
        name_owned
    } else {
        name_owned.concat(" (").concat(group).concat(")")
    }
}

} // verus!
