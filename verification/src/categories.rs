//! Trip categories: from which purpose to which purpose a trip leads.

use std::collections::HashSet;
use vstd::prelude::*;

use crate::purposes::Purpose;
use crate::reference::ReferenceDataError;

verus! {

/// Identifier of a category in the survey data.
#[derive(Debug, PartialEq, Eq, Hash, Clone, Copy, Structural)]
pub struct Id(pub u8);

impl View for Id {
    type V = u8;

    open spec fn view(&self) -> u8 {
        self.0
    }
}

impl Id {
    /// The number behind the identifier.
    pub fn value(&self) -> (v: u8)
        ensures
            v == self@,
    {
        self.0
    }
}

/// A category as it is read from the survey data.
#[derive(Debug, Clone, Copy)]
pub struct CategoryRow {
    pub id: u8,
    pub origin: Purpose,
    pub destination: Purpose,
}

/// A category of the reference tables. `index` is its position in the table.
#[derive(Debug, Clone, Copy)]
pub struct Category {
    pub index: usize,
    pub id: Id,
    pub origin: Purpose,
    pub destination: Purpose,
}

/// Categories are the same if they carry the same identifier.
impl PartialEq for Category {
    fn eq(&self, other: &Self) -> (same: bool) {
        self.id.0 == other.id.0
    }
}

impl Eq for Category {

}

impl vstd::std_specs::cmp::PartialEqSpecImpl for Category {
    open spec fn obeys_eq_spec() -> bool {
        true
    }

    open spec fn eq_spec(&self, other: &Self) -> bool {
        self.id == other.id
    }
}

/// No two rows carry the same identifier.
pub open spec fn rows_distinct(rows: Seq<CategoryRow>) -> bool {
    forall|i: int, j: int| 0 <= i < j < rows.len() ==> rows[i].id != rows[j].id
}

/// The table that lists `rows` in order, each at its own index.
pub open spec fn table_from(rows: Seq<CategoryRow>) -> Seq<Category> {
    Seq::new(
        rows.len(),
        |i: int|
            Category {
                index: i as usize,
                id: Id(rows[i].id),
                origin: rows[i].origin,
                destination: rows[i].destination,
            },
    )
}

/// The categories are numbered by position and no identifier occurs twice.
pub open spec fn table_valid(table: Seq<Category>) -> bool {
    &&& forall|i: int| 0 <= i < table.len() ==> (#[trigger] table[i]).index == i
    &&& forall|i: int, j: int| 0 <= i < j < table.len() ==> table[i].id != table[j].id
}

/// Position of the first category with identifier `id`, or the length of the
/// table if there is none.
pub open spec fn position_of(table: Seq<Category>, id: u8) -> int
    decreases table.len(),
{
    if table.len() == 0 {
        0
    } else if table[0].id@ == id {
        0
    } else {
        1 + position_of(table.drop_first(), id)
    }
}

/// `position_of` finds the first category with the identifier, if any.
pub proof fn lemma_position_of(table: Seq<Category>, id: u8)
    ensures
        0 <= position_of(table, id) <= table.len(),
        position_of(table, id) < table.len() ==> table[position_of(table, id)].id@ == id,
        forall|i: int| 0 <= i < position_of(table, id) ==> (#[trigger] table[i]).id@ != id,
    decreases table.len(),
{
    if table.len() > 0 && table[0].id@ != id {
        let rest = table.drop_first();
        lemma_position_of(rest, id);
        assert forall|i: int| 0 <= i < position_of(table, id) implies (#[trigger] table[i]).id@
            != id by {
            if i > 0 {
                assert(table[i] == rest[i - 1]);
            }
        }
    }
}

/// A table without repeated identifiers has at most 256 categories.
pub proof fn lemma_table_is_small(table: Seq<Category>)
    requires
        table_valid(table),
    ensures
        table.len() <= 256,
{
    let ids = Set::new(|id: int| 0 <= id < 256);
    let used = Set::new(|id: int| exists|i: int| 0 <= i < table.len() && table[i].id@ == id);
    vstd::set_lib::lemma_int_range(0, 256);
    assert(ids =~= vstd::set_lib::set_int_range(0, 256));
    assert(used.subset_of(ids));
    vstd::set_lib::lemma_len_subset(used, ids);
    lemma_used_ids_count(table, table.len() as int);
    let prefix_ids = Set::new(
        |id: int| exists|i: int| 0 <= i < table.len() && table[i].id@ == id,
    );
    assert(prefix_ids =~= used);
}

proof fn lemma_used_ids_count(table: Seq<Category>, n: int)
    requires
        table_valid(table),
        0 <= n <= table.len(),
    ensures
        Set::new(|id: int| exists|i: int| 0 <= i < n && table[i].id@ == id).finite(),
        Set::new(|id: int| exists|i: int| 0 <= i < n && table[i].id@ == id).len() == n,
    decreases n,
{
    let now = Set::new(|id: int| exists|i: int| 0 <= i < n && table[i].id@ == id);
    if n == 0 {
        assert(now =~= Set::<int>::empty());
    } else {
        lemma_used_ids_count(table, n - 1);
        let before = Set::new(|id: int| exists|i: int| 0 <= i < n - 1 && table[i].id@ == id);
        let fresh = table[n - 1].id@ as int;
        assert(!before.contains(fresh)) by {
            if before.contains(fresh) {
                let i = choose|i: int| 0 <= i < n - 1 && table[i].id@ == fresh;
                assert(table[i].id != table[n - 1].id);
            }
        }
        assert(now =~= before.insert(fresh)) by {
            assert forall|id: int| now.contains(id) implies before.insert(fresh).contains(id) by {
                let i = choose|i: int| 0 <= i < n && table[i].id@ == id;
                if i < n - 1 {
                    assert(before.contains(id));
                }
            }
            assert forall|id: int| before.insert(fresh).contains(id) implies now.contains(id) by {
                if id == fresh {
                    assert(table[n - 1].id@ == id);
                } else {
                    let i = choose|i: int| 0 <= i < n - 1 && table[i].id@ == id;
                    assert(0 <= i < n && table[i].id@ == id);
                }
            }
        }
    }
}

/// Builds the category table from the rows of the survey data. Fails if an
/// identifier occurs twice.
pub fn load(rows: &Vec<CategoryRow>) -> (loaded: Result<Vec<Category>, ReferenceDataError>)
    ensures
        rows_distinct(rows@) ==> loaded.is_ok() && loaded.unwrap()@ == table_from(rows@)
            && table_valid(loaded.unwrap()@),
        !rows_distinct(rows@) ==> loaded == Err::<Vec<Category>, ReferenceDataError>(
            ReferenceDataError::DuplicateCategory,
        ),
{
    broadcast use vstd::std_specs::hash::group_hash_axioms;

    let mut table: Vec<Category> = Vec::new();
    let mut seen: HashSet<u8> = HashSet::new();
    let mut i: usize = 0;
    while i < rows.len()
        invariant
            i <= rows.len(),
            table@ == table_from(rows@.take(i as int)),
            rows_distinct(rows@.take(i as int)),
            forall|id: u8|
                seen@.contains(id) <==> exists|j: int| 0 <= j < i && (#[trigger] rows[j]).id == id,
        decreases rows.len() - i,
    {
        let row = &rows[i];
        if !seen.insert(row.id) {
            proof {
                let j = choose|j: int| 0 <= j < i && (#[trigger] rows[j]).id == row.id;
                assert(rows[j].id == rows[i as int].id);
            }
            return Err(ReferenceDataError::DuplicateCategory);
        }
        table.push(
            Category { index: i, id: Id(row.id), origin: row.origin, destination: row.destination },
        );
        proof {
            let before = rows@.take(i as int);
            let after = rows@.take(i + 1);
            assert forall|a: int, b: int| 0 <= a < b < after.len() implies after[a].id
                != after[b].id by {
                if b < i {
                    assert(before[a].id != before[b].id);
                } else {
                    assert(rows[a].id == after[a].id);
                }
            }
            assert(table@ =~= table_from(after)) by {
                assert forall|k: int| 0 <= k < after.len() implies table@[k] == table_from(
                    after,
                )[k] by {
                    if k < i {
                        assert(before[k] == after[k]);
                        assert(table@[k] == table_from(before)[k]);
                    }
                }
            }
        }
        i = i + 1;
    }
    proof {
        assert(rows@.take(i as int) =~= rows@);
        assert forall|a: int, b: int| 0 <= a < b < table@.len() implies table@[a].id
            != table@[b].id by {
            assert(rows[a].id != rows[b].id);
        }
    }
    Ok(table)
}

/// Position of the first category with identifier `id`, if there is one.
pub fn find_position(table: &Vec<Category>, id: u8) -> (found: Option<usize>)
    ensures
        position_of(table@, id) < table.len() ==> found == Some(position_of(table@, id) as usize),
        position_of(table@, id) >= table.len() ==> found.is_none(),
{
    proof {
        lemma_position_of(table@, id);
    }
    let mut i: usize = 0;
    while i < table.len()
        invariant
            i <= table.len(),
            i <= position_of(table@, id),
            forall|k: int| 0 <= k < position_of(table@, id) ==> (#[trigger] table[k]).id@ != id,
            position_of(table@, id) < table.len() ==> table[position_of(table@, id)].id@ == id,
        decreases table.len() - i,
    {
        if table[i].id.0 == id {
            return Some(i);
        }
        i = i + 1;
    }
    None
}

/// The first category with identifier `id`, if there is one.
pub fn parse_id(table: &Vec<Category>, id: u8) -> (found: Option<&Category>)
    ensures
        position_of(table@, id) < table.len() ==> found == Some(&table[position_of(table@, id)]),
        position_of(table@, id) >= table.len() ==> found.is_none(),
{
    proof {
        lemma_position_of(table@, id);
    }
    match find_position(table, id) {
        Some(i) => Some(&table[i]),
        None => None,
    }
}

} // verus!
