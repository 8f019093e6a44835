//! The measured trips: how many people travel between two districts in a
//! category and by a class of transport.

use std::collections::HashSet;
use vstd::prelude::*;

use crate::categories;
use crate::categories::Category;
use crate::districts;
use crate::districts::District;
use crate::reference::ReferenceDataError;

verus! {

/// The class of transport a trip count was measured for.
#[derive(Clone, Copy, Debug, PartialEq, Eq, Structural)]
pub enum Transport {
    Public,
    Individual,
}

impl Transport {
    /// The abbreviation under which the survey data files the class.
    pub fn to_str(&self) -> (code: &'static str)
        ensures
            code@ == match *self {
                Transport::Public => "OV"@,
                Transport::Individual => "IV"@,
            },
    {
        match self {
            Transport::Public => "OV",
            Transport::Individual => "IV",
        }
    }

    /// A number for the class: 0 for public, 1 for individual transport.
    pub open spec fn spec_code(self) -> nat {
        match self {
            Transport::Public => 0,
            Transport::Individual => 1,
        }
    }

    fn code(&self) -> (c: u64)
        ensures
            c == self.spec_code(),
    {
        match self {
            Transport::Public => 0,
            Transport::Individual => 1,
        }
    }
}

/// A trip count as it is read from the survey data, with the identifiers of
/// its category and districts.
#[derive(Clone, Copy, Debug)]
pub struct TripRow {
    pub transport: Transport,
    pub category: u8,
    pub origin: u16,
    pub destination: u16,
    pub count: usize,
}

/// A trip of the reference tables. `index` is its position in the trip
/// table; `category`, `origin` and `destination` are positions in the
/// category and district tables. `count` is at least 1.
#[derive(Clone, Copy, Debug)]
pub struct Trip {
    pub index: usize,
    pub transport: Transport,
    pub category: usize,
    pub origin: usize,
    pub destination: usize,
    pub count: usize,
}

/// Trips are the same if they stand at the same position of the table.
impl PartialEq for Trip {
    fn eq(&self, other: &Self) -> (same: bool) {
        self.index == other.index
    }
}

impl Eq for Trip {

}

impl vstd::std_specs::cmp::PartialEqSpecImpl for Trip {
    open spec fn obeys_eq_spec() -> bool {
        true
    }

    open spec fn eq_spec(&self, other: &Self) -> bool {
        self.index == other.index
    }
}

/// The rows that count at least one trip, in order.
pub open spec fn kept_rows(rows: Seq<TripRow>) -> Seq<TripRow>
    decreases rows.len(),
{
    if rows.len() == 0 {
        Seq::empty()
    } else if rows.last().count > 0 {
        kept_rows(rows.drop_last()).push(rows.last())
    } else {
        kept_rows(rows.drop_last())
    }
}

/// Two rows measure the same thing.
pub open spec fn same_key(a: TripRow, b: TripRow) -> bool {
    &&& a.transport == b.transport
    &&& a.category == b.category
    &&& a.origin == b.origin
    &&& a.destination == b.destination
}

/// What is wrong with row `k` of `kept`, if anything: its category or one of
/// its districts is unknown, or an earlier row measures the same thing.
pub open spec fn row_fault(
    districts: Seq<District>,
    categories: Seq<Category>,
    kept: Seq<TripRow>,
    k: int,
) -> Option<ReferenceDataError> {
    let row = kept[k];
    if categories::position_of(categories, row.category) >= categories.len() {
        Some(ReferenceDataError::UnknownCategory)
    } else if districts::position_of(districts, row.origin) >= districts.len()
        || districts::position_of(districts, row.destination) >= districts.len() {
        Some(ReferenceDataError::UnknownDistrict)
    } else if exists|j: int| 0 <= j < k && same_key(kept[j], row) {
        Some(ReferenceDataError::DuplicateTrip)
    } else {
        None
    }
}

/// The trip that row `row` becomes at position `index` of the trip table.
pub open spec fn resolved(
    districts: Seq<District>,
    categories: Seq<Category>,
    row: TripRow,
    index: int,
) -> Trip {
    Trip {
        index: index as usize,
        transport: row.transport,
        category: categories::position_of(categories, row.category) as usize,
        origin: districts::position_of(districts, row.origin) as usize,
        destination: districts::position_of(districts, row.destination) as usize,
        count: row.count,
    }
}

/// The fault of the first faulty row among rows `from` and later of `kept`.
pub open spec fn first_fault(
    districts: Seq<District>,
    categories: Seq<Category>,
    kept: Seq<TripRow>,
    from: int,
) -> Option<ReferenceDataError>
    decreases kept.len() - from,
{
    if from < 0 || from >= kept.len() {
        None
    } else if row_fault(districts, categories, kept, from).is_some() {
        row_fault(districts, categories, kept, from)
    } else {
        first_fault(districts, categories, kept, from + 1)
    }
}

/// The trip table of rows without fault: each row that counts a trip, in
/// order, with its category and districts looked up.
pub open spec fn table_from(
    districts: Seq<District>,
    categories: Seq<Category>,
    rows: Seq<TripRow>,
) -> Seq<Trip> {
    Seq::new(
        kept_rows(rows).len(),
        |k: int| resolved(districts, categories, kept_rows(rows)[k], k),
    )
}

/// `first_fault` is the fault of the first row that has one.
pub proof fn lemma_first_fault(
    districts: Seq<District>,
    categories: Seq<Category>,
    kept: Seq<TripRow>,
    from: int,
)
    requires
        0 <= from <= kept.len(),
    ensures
        match first_fault(districts, categories, kept, from) {
            None => forall|k: int|
                from <= k < kept.len() ==> (#[trigger] row_fault(
                    districts,
                    categories,
                    kept,
                    k,
                )).is_none(),
            Some(fault) => exists|k: int|
                from <= k < kept.len() && #[trigger] row_fault(districts, categories, kept, k)
                    == Some(fault) && forall|j: int|
                    from <= j < k ==> (#[trigger] row_fault(
                        districts,
                        categories,
                        kept,
                        j,
                    )).is_none(),
        },
    decreases kept.len() - from,
{
    if from < kept.len() && row_fault(districts, categories, kept, from).is_none() {
        lemma_first_fault(districts, categories, kept, from + 1);
        match first_fault(districts, categories, kept, from) {
            None => {},
            Some(fault) => {
                let k = choose|k: int|
                    from + 1 <= k < kept.len() && #[trigger] row_fault(
                        districts,
                        categories,
                        kept,
                        k,
                    ) == Some(fault) && forall|j: int|
                        from + 1 <= j < k ==> (#[trigger] row_fault(
                            districts,
                            categories,
                            kept,
                            j,
                        )).is_none();
                assert(from <= k < kept.len() && row_fault(districts, categories, kept, k) == Some(
                    fault,
                ) && forall|j: int|
                    from <= j < k ==> (#[trigger] row_fault(
                        districts,
                        categories,
                        kept,
                        j,
                    )).is_none());
            },
        }
    } else if from < kept.len() {
        let fault = row_fault(districts, categories, kept, from).unwrap();
        assert(row_fault(districts, categories, kept, from) == Some(fault));
    }
}

/// Two trips agree in transport, category, origin and destination.
pub open spec fn same_trip_key(a: Trip, b: Trip) -> bool {
    &&& a.transport == b.transport
    &&& a.category == b.category
    &&& a.origin == b.origin
    &&& a.destination == b.destination
}

/// The trips are numbered by position, refer to rows of the category and
/// district tables, count at least one trip each, and no two of them measure
/// the same thing.
pub open spec fn table_valid(table: Seq<Trip>, districts: int, categories: int) -> bool {
    &&& forall|i: int|
        0 <= i < table.len() ==> {
            &&& (#[trigger] table[i]).index == i
            &&& table[i].category < categories
            &&& table[i].origin < districts
            &&& table[i].destination < districts
            &&& table[i].count >= 1
        }
    &&& forall|i: int, j: int| 0 <= i < j < table.len() ==> !same_trip_key(table[i], table[j])
}

/// The number of trips that the table counts in all.
pub open spec fn total_count(table: Seq<Trip>) -> nat
    decreases table.len(),
{
    if table.len() == 0 {
        0
    } else {
        total_count(table.drop_last()) + table.last().count as nat
    }
}

/// The number of trips that the table counts in one category.
pub open spec fn category_count(table: Seq<Trip>, category: int) -> nat
    decreases table.len(),
{
    if table.len() == 0 {
        0
    } else if table.last().category == category {
        category_count(table.drop_last(), category) + table.last().count as nat
    } else {
        category_count(table.drop_last(), category)
    }
}

/// A category counts no more trips than the whole table, and a part of the
/// table no more than the whole.
pub proof fn lemma_counts_bounded(table: Seq<Trip>, category: int, n: int)
    requires
        0 <= n <= table.len(),
    ensures
        category_count(table, category) <= total_count(table),
        total_count(table.take(n)) <= total_count(table),
        category_count(table.take(n), category) <= category_count(table, category),
    decreases table.len(),
{
    if table.len() == 0 {
        assert(table.take(n) =~= table);
    } else if n == table.len() {
        assert(table.take(n) =~= table);
        lemma_counts_bounded(table.drop_last(), category, 0);
    } else {
        lemma_counts_bounded(table.drop_last(), category, n);
        assert(table.drop_last().take(n) =~= table.take(n));
    }
}

/// The number under which a row's key is remembered while loading.
pub open spec fn key_code(row: TripRow) -> int {
    ((row.transport.spec_code() * 256 + row.category) * 65536 + row.origin) * 65536
        + row.destination
}

proof fn lemma_key_code_injective(a: TripRow, b: TripRow)
    requires
        key_code(a) == key_code(b),
    ensures
        same_key(a, b),
{
}

proof fn lemma_kept_rows_step(rows: Seq<TripRow>, i: int)
    requires
        0 <= i < rows.len(),
    ensures
        kept_rows(rows.take(i + 1)) == if rows[i].count > 0 {
            kept_rows(rows.take(i)).push(rows[i])
        } else {
            kept_rows(rows.take(i))
        },
{
    assert(rows.take(i + 1).drop_last() =~= rows.take(i));
}

/// No row counting zero trips is kept, and every kept row is one of the rows.
pub proof fn lemma_kept_rows_positive(rows: Seq<TripRow>)
    ensures
        kept_rows(rows).len() <= rows.len(),
        forall|k: int|
            0 <= k < kept_rows(rows).len() ==> (#[trigger] kept_rows(rows)[k]).count > 0
                && rows.contains(kept_rows(rows)[k]),
    decreases rows.len(),
{
    if rows.len() > 0 {
        let front = rows.drop_last();
        lemma_kept_rows_positive(front);
        assert forall|k: int| 0 <= k < kept_rows(rows).len() implies (#[trigger] kept_rows(
            rows,
        )[k]).count > 0 && rows.contains(kept_rows(rows)[k]) by {
            if k < kept_rows(front).len() {
                let row = kept_rows(front)[k];
                let at = choose|at: int| 0 <= at < front.len() && front[at] == row;
                assert(rows[at] == row);
            } else {
                assert(rows[rows.len() - 1] == rows.last());
            }
        }
    }
}

/// A table resolved from rows without fault is valid.
pub proof fn lemma_resolved_table_valid(
    districts: Seq<District>,
    categories: Seq<Category>,
    kept: Seq<TripRow>,
    table: Seq<Trip>,
)
    requires
        table.len() == kept.len(),
        table.len() <= usize::MAX,
        districts.len() <= usize::MAX,
        categories.len() <= usize::MAX,
        forall|k: int| 0 <= k < kept.len() ==> kept[k].count > 0,
        forall|k: int|
            0 <= k < kept.len() ==> (#[trigger] row_fault(districts, categories, kept, k)).is_none(),
        forall|k: int|
            0 <= k < kept.len() ==> #[trigger] table[k] == resolved(districts, categories, kept[k], k),
    ensures
        table_valid(table, districts.len() as int, categories.len() as int),
{
    assert forall|i: int| 0 <= i < table.len() implies {
        &&& (#[trigger] table[i]).index == i
        &&& table[i].category < categories.len()
        &&& table[i].origin < districts.len()
        &&& table[i].destination < districts.len()
        &&& table[i].count >= 1
    } by {
        assert(row_fault(districts, categories, kept, i).is_none());
        categories::lemma_position_of(categories, kept[i].category);
        districts::lemma_position_of(districts, kept[i].origin);
        districts::lemma_position_of(districts, kept[i].destination);
    }
    assert forall|i: int, j: int| 0 <= i < j < table.len() implies !same_trip_key(
        table[i],
        table[j],
    ) by {
        assert(row_fault(districts, categories, kept, i).is_none());
        assert(row_fault(districts, categories, kept, j).is_none());
        categories::lemma_position_of(categories, kept[i].category);
        categories::lemma_position_of(categories, kept[j].category);
        districts::lemma_position_of(districts, kept[i].origin);
        districts::lemma_position_of(districts, kept[j].origin);
        districts::lemma_position_of(districts, kept[i].destination);
        districts::lemma_position_of(districts, kept[j].destination);
        if same_trip_key(table[i], table[j]) {
            assert(same_key(kept[i], kept[j]));
        }
    }
}

fn row_code(row: &TripRow) -> (code: u64)
    ensures
        code == key_code(*row),
{
    ((row.transport.code() * 256 + row.category as u64) * 65536 + row.origin as u64) * 65536
        + row.destination as u64
}

/// Builds the trip table from the rows of the survey data. Rows that count
/// no trip are dropped before anything else is looked at. Of the others the
/// first one with a fault decides the error; without a fault every kept row
/// becomes a trip, in order.
pub fn load(districts: &Vec<District>, categories: &Vec<Category>, rows: &Vec<TripRow>) -> (loaded:
    Result<Vec<Trip>, ReferenceDataError>)
    ensures
        match first_fault(districts@, categories@, kept_rows(rows@), 0) {
            Some(fault) => loaded == Err::<Vec<Trip>, ReferenceDataError>(fault),
            None => {
                &&& loaded.is_ok()
                &&& loaded.unwrap()@ == table_from(districts@, categories@, rows@)
                &&& table_valid(loaded.unwrap()@, districts.len() as int, categories.len() as int)
            },
        },
{
    let loaded = load_rows(districts, categories, rows);
    proof {
        lemma_first_fault(districts@, categories@, kept_rows(rows@), 0);
        if first_fault(districts@, categories@, kept_rows(rows@), 0).is_none() {
            assert(loaded.unwrap()@ =~= table_from(districts@, categories@, rows@));
        }
    }
    loaded
}

fn load_rows(districts: &Vec<District>, categories: &Vec<Category>, rows: &Vec<TripRow>) -> (loaded:
    Result<Vec<Trip>, ReferenceDataError>)
    ensures
        (forall|k: int|
            0 <= k < kept_rows(rows@).len() ==> (#[trigger] row_fault(
                districts@,
                categories@,
                kept_rows(rows@),
                k,
            )).is_none()) ==> {
            &&& loaded.is_ok()
            &&& loaded.unwrap().len() == kept_rows(rows@).len()
            &&& forall|k: int|
                0 <= k < kept_rows(rows@).len() ==> #[trigger] loaded.unwrap()[k] == resolved(
                    districts@,
                    categories@,
                    kept_rows(rows@)[k],
                    k,
                )
            &&& table_valid(loaded.unwrap()@, districts.len() as int, categories.len() as int)
        },
        forall|k: int|
            0 <= k < kept_rows(rows@).len() && (#[trigger] row_fault(
                districts@,
                categories@,
                kept_rows(rows@),
                k,
            )).is_some() && (forall|j: int|
                0 <= j < k ==> (#[trigger] row_fault(
                    districts@,
                    categories@,
                    kept_rows(rows@),
                    j,
                )).is_none()) ==> loaded == Err::<Vec<Trip>, ReferenceDataError>(
                row_fault(districts@, categories@, kept_rows(rows@), k).unwrap(),
            ),
{
    broadcast use vstd::std_specs::hash::group_hash_axioms;

    let mut table: Vec<Trip> = Vec::new();
    let mut seen: HashSet<u64> = HashSet::new();
    let mut i: usize = 0;
    proof {
        assert(rows@.take(0) =~= Seq::<TripRow>::empty());
    }
    while i < rows.len()
        invariant
            i <= rows.len(),
            table.len() == kept_rows(rows@.take(i as int)).len(),
            forall|k: int|
                0 <= k < table.len() ==> (#[trigger] row_fault(
                    districts@,
                    categories@,
                    kept_rows(rows@.take(i as int)),
                    k,
                )).is_none(),
            forall|k: int|
                0 <= k < table.len() ==> #[trigger] table[k] == resolved(
                    districts@,
                    categories@,
                    kept_rows(rows@.take(i as int))[k],
                    k,
                ),
            forall|k: int|
                0 <= k < table.len() ==> (#[trigger] kept_rows(rows@.take(i as int))[k]).count > 0,
            forall|code: u64|
                seen@.contains(code) <==> exists|j: int|
                    0 <= j < table.len() && key_code(
                        #[trigger] kept_rows(rows@.take(i as int))[j],
                    ) == code,
        decreases rows.len() - i,
    {
        let row = rows[i];
        let ghost before = kept_rows(rows@.take(i as int));
        proof {
            lemma_kept_rows_step(rows@, i as int);
        }
        if row.count > 0 {
            let ghost after = before.push(row);
            let ghost k = before.len() as int;
            proof {
                assert(after == kept_rows(rows@.take(i + 1)));
                assert forall|j: int| 0 <= j < k implies #[trigger] row_fault(
                    districts@,
                    categories@,
                    after,
                    j,
                ) == row_fault(districts@, categories@, before, j) by {
                    assert(after[j] == before[j]);
                    if exists|a: int| 0 <= a < j && same_key(after[a], after[j]) {
                        let a = choose|a: int| 0 <= a < j && same_key(after[a], after[j]);
                        assert(same_key(before[a], before[j]));
                    }
                    if exists|a: int| 0 <= a < j && same_key(before[a], before[j]) {
                        let a = choose|a: int| 0 <= a < j && same_key(before[a], before[j]);
                        assert(same_key(after[a], after[j]));
                    }
                }
                lemma_kept_rows_suffix(rows@, i as int + 1);
                assert(after[k] == row);
            }
            let category = match categories::find_position(categories, row.category) {
                Some(category) => category,
                None => {
                    proof {
                        lemma_fault_found(districts@, categories@, rows@, i as int + 1, k);
                    }
                    return Err(ReferenceDataError::UnknownCategory);
                },
            };
            let origin = match districts::find_position(districts, row.origin) {
                Some(origin) => origin,
                None => {
                    proof {
                        lemma_fault_found(districts@, categories@, rows@, i as int + 1, k);
                    }
                    return Err(ReferenceDataError::UnknownDistrict);
                },
            };
            let destination = match districts::find_position(districts, row.destination) {
                Some(destination) => destination,
                None => {
                    proof {
                        lemma_fault_found(districts@, categories@, rows@, i as int + 1, k);
                    }
                    return Err(ReferenceDataError::UnknownDistrict);
                },
            };
            let code = row_code(&row);
            if !seen.insert(code) {
                proof {
                    let j = choose|j: int|
                        0 <= j < table.len() && key_code(#[trigger] before[j]) == code;
                    lemma_key_code_injective(before[j], row);
                    assert(same_key(after[j], after[k]));
                    lemma_fault_found(districts@, categories@, rows@, i as int + 1, k);
                }
                return Err(ReferenceDataError::DuplicateTrip);
            }
            proof {
                assert(row_fault(districts@, categories@, after, k).is_none()) by {
                    if exists|j: int| 0 <= j < k && same_key(after[j], after[k]) {
                        let j = choose|j: int| 0 <= j < k && same_key(after[j], after[k]);
                        assert(key_code(before[j]) == code);
                    }
                }
            }
            table.push(
                Trip {
                    index: table.len(),
                    transport: row.transport,
                    category,
                    origin,
                    destination,
                    count: row.count,
                },
            );
            proof {
                assert forall|c: u64| seen@.contains(c) <==> exists|j: int|
                    0 <= j < table.len() && key_code(#[trigger] after[j]) == c by {
                    if seen@.contains(c) {
                        if c == code {
                            assert(key_code(after[k]) == c);
                        } else {
                            let j = choose|j: int|
                                0 <= j < k && key_code(#[trigger] before[j]) == c;
                            assert(key_code(after[j]) == c);
                        }
                    }
                    if exists|j: int| 0 <= j < table.len() && key_code(#[trigger] after[j]) == c {
                        let j = choose|j: int|
                            0 <= j < table.len() && key_code(#[trigger] after[j]) == c;
                        if j < k {
                            assert(key_code(before[j]) == c);
                        }
                    }
                }
                assert forall|j: int| 0 <= j < table.len() implies #[trigger] table[j] == resolved(
                    districts@,
                    categories@,
                    after[j],
                    j,
                ) by {
                    if j < k {
                        assert(after[j] == before[j]);
                    }
                }
            }
        }
        i = i + 1;
    }
    proof {
        assert(rows@.take(i as int) =~= rows@);
        assert(districts@.len() == districts.len());
        assert(categories@.len() == categories.len());
        lemma_resolved_table_valid(districts@, categories@, kept_rows(rows@), table@);
    }
    Ok(table)
}

/// Whether the trips of the table can be counted in a machine word.
pub fn counts_fit(table: &Vec<Trip>) -> (fit: bool)
    ensures
        fit == (total_count(table@) <= usize::MAX),
{
    let mut total: usize = 0;
    let mut i: usize = 0;
    proof {
        assert(table@.take(0) =~= Seq::<Trip>::empty());
    }
    while i < table.len()
        invariant
            i <= table.len(),
            total == total_count(table@.take(i as int)),
        decreases table.len() - i,
    {
        proof {
            assert(table@.take(i + 1).drop_last() =~= table@.take(i as int));
            lemma_counts_bounded(table@, 0, i + 1);
        }
        total = match total.checked_add(table[i].count) {
            Some(sum) => sum,
            None => {
                return false;
            },
        };
        i = i + 1;
    }
    proof {
        assert(table@.take(i as int) =~= table@);
    }
    true
}

/// The rows kept of a prefix are a prefix of the rows kept.
proof fn lemma_kept_rows_suffix(rows: Seq<TripRow>, n: int)
    requires
        0 <= n <= rows.len(),
    ensures
        kept_rows(rows.take(n)).len() <= kept_rows(rows).len(),
        forall|k: int|
            0 <= k < kept_rows(rows.take(n)).len() ==> #[trigger] kept_rows(rows.take(n))[k]
                == kept_rows(rows)[k],
    decreases rows.len() - n,
{
    if n == rows.len() {
        assert(rows.take(n) =~= rows);
    } else {
        lemma_kept_rows_suffix(rows, n + 1);
        lemma_kept_rows_step(rows, n);
        let short = kept_rows(rows.take(n));
        let long = kept_rows(rows.take(n + 1));
        assert forall|k: int| 0 <= k < short.len() implies #[trigger] short[k] == kept_rows(
            rows,
        )[k] by {
            assert(short[k] == long[k]);
        }
    }
}

/// When the rows kept of a prefix are without fault but for the last, that
/// fault is the first among all kept rows.
proof fn lemma_fault_found(
    districts: Seq<District>,
    categories: Seq<Category>,
    rows: Seq<TripRow>,
    n: int,
    k: int,
)
    requires
        0 <= n <= rows.len(),
        k + 1 == kept_rows(rows.take(n)).len(),
        0 <= k,
        forall|j: int|
            0 <= j < k ==> (#[trigger] row_fault(
                districts,
                categories,
                kept_rows(rows.take(n)),
                j,
            )).is_none(),
        row_fault(districts, categories, kept_rows(rows.take(n)), k).is_some(),
    ensures
        k < kept_rows(rows).len(),
        row_fault(districts, categories, kept_rows(rows), k) == row_fault(
            districts,
            categories,
            kept_rows(rows.take(n)),
            k,
        ),
        forall|j: int|
            0 <= j < kept_rows(rows).len() && (#[trigger] row_fault(
                districts,
                categories,
                kept_rows(rows),
                j,
            )).is_some() && (forall|a: int|
                0 <= a < j ==> (#[trigger] row_fault(
                    districts,
                    categories,
                    kept_rows(rows),
                    a,
                )).is_none()) ==> j == k,
{
    lemma_first_fault_decides(districts, categories, rows, n, k);
    assert forall|j: int|
        0 <= j < kept_rows(rows).len() && (#[trigger] row_fault(
            districts,
            categories,
            kept_rows(rows),
            j,
        )).is_some() && (forall|a: int|
            0 <= a < j ==> (#[trigger] row_fault(
                districts,
                categories,
                kept_rows(rows),
                a,
            )).is_none()) implies j == k by {
        if j < k {
            lemma_first_fault_decides(districts, categories, rows, n, j);
            assert(row_fault(districts, categories, kept_rows(rows.take(n)), j).is_none());
        } else if j > k {
            assert(row_fault(districts, categories, kept_rows(rows), k).is_none());
        }
    }
}

/// A fault found in row `k` of the rows kept of a prefix is the fault of row
/// `k` of all kept rows.
proof fn lemma_first_fault_decides(
    districts: Seq<District>,
    categories: Seq<Category>,
    rows: Seq<TripRow>,
    n: int,
    k: int,
)
    requires
        0 <= n <= rows.len(),
        0 <= k < kept_rows(rows.take(n)).len(),
    ensures
        k < kept_rows(rows).len(),
        row_fault(districts, categories, kept_rows(rows), k) == row_fault(
            districts,
            categories,
            kept_rows(rows.take(n)),
            k,
        ),
{
    lemma_kept_rows_suffix(rows, n);
    let part = kept_rows(rows.take(n));
    let all = kept_rows(rows);
    assert(part[k] == all[k]);
    if exists|j: int| 0 <= j < k && same_key(part[j], part[k]) {
        let j = choose|j: int| 0 <= j < k && same_key(part[j], part[k]);
        assert(same_key(all[j], all[k]));
    }
    if exists|j: int| 0 <= j < k && same_key(all[j], all[k]) {
        let j = choose|j: int| 0 <= j < k && same_key(all[j], all[k]);
        assert(part[j] == all[j]);
        assert(same_key(part[j], part[k]));
    }
}

} // verus!
