//! The level curves: how the trips of a category spread over the day.

use vstd::prelude::*;

use crate::categories::Category;
use crate::reference::ReferenceDataError;
use crate::time_bins;

verus! {

/// The level curve of one category: a weight for each time bin. The share of
/// a bin is its weight over the sum of the weights.
pub type Levels = Vec<u32>;

/// A curve has a weight for each bin of the day and some weight is positive.
pub open spec fn curve_valid(curve: Seq<u32>) -> bool {
    &&& curve.len() == 48
    &&& exists|i: int| 0 <= i < 48 && #[trigger] curve[i] > 0
}

/// There is a valid curve for each category.
pub open spec fn table_valid(table: Seq<Levels>, categories: int) -> bool {
    &&& table.len() == categories
    &&& forall|c: int| 0 <= c < table.len() ==> curve_valid((#[trigger] table[c])@)
}

/// The first 48 weights of a row, with zeros where the row is shorter.
pub open spec fn day_of(row: Seq<u32>) -> Seq<u32> {
    Seq::new(
        48,
        |i: int|
            if i < row.len() {
                row[i]
            } else {
                0u32
            },
    )
}

/// The level curve of a category.
pub fn get_levels<'a>(table: &'a Vec<Levels>, category: &Category) -> (curve: &'a Levels)
    requires
        category.index < table.len(),
    ensures
        curve == &table[category.index as int],
{
    &table[category.index]
}

fn day_from_row(row: &Vec<u32>) -> (curve: Levels)
    ensures
        curve@ == day_of(row@),
{
    let mut curve: Vec<u32> = Vec::new();
    let mut i: usize = 0;
    while i < time_bins::COUNT
        invariant
            i <= 48,
            curve.len() == i,
            forall|k: int| 0 <= k < i ==> #[trigger] curve[k] == day_of(row@)[k],
        decreases 48 - i,
    {
        if i < row.len() {
            curve.push(row[i]);
        } else {
            curve.push(0);
        }
        i = i + 1;
    }
    proof {
        assert(curve@ =~= day_of(row@));
    }
    curve
}

fn has_weight(curve: &Levels) -> (some: bool)
    requires
        curve.len() == 48,
    ensures
        some == curve_valid(curve@),
{
    let mut i: usize = 0;
    while i < 48
        invariant
            i <= 48,
            curve.len() == 48,
            forall|k: int| 0 <= k < i ==> #[trigger] curve[k] == 0,
        decreases 48 - i,
    {
        if curve[i] > 0 {
            return true;
        }
        i = i + 1;
    }
    false
}

/// The rows can serve as level curves of `categories` many categories: there
/// is one for each, and each has a positive weight among its first 48.
pub open spec fn rows_valid(rows: Seq<Vec<u32>>, categories: int) -> bool {
    &&& rows.len() == categories
    &&& forall|c: int| 0 <= c < rows.len() ==> curve_valid(day_of((#[trigger] rows[c])@))
}

/// Builds the level curves from rows of weights, one row for each category
/// in table order. Of each row the first 48 weights count, and a shorter row
/// is filled up with zeros.
pub fn load(categories: &Vec<Category>, rows: &Vec<Vec<u32>>) -> (loaded: Result<
    Vec<Levels>,
    ReferenceDataError,
>)
    ensures
        rows_valid(rows@, categories.len() as int) ==> {
            &&& loaded.is_ok()
            &&& table_valid(loaded.unwrap()@, categories.len() as int)
            &&& forall|c: int|
                0 <= c < rows.len() ==> (#[trigger] loaded.unwrap()[c])@ == day_of(rows[c]@)
        },
        !rows_valid(rows@, categories.len() as int) ==> loaded == Err::<
            Vec<Levels>,
            ReferenceDataError,
        >(ReferenceDataError::MalformedLevels),
{
    if rows.len() != categories.len() {
        return Err(ReferenceDataError::MalformedLevels);
    }
    let mut table: Vec<Levels> = Vec::new();
    let mut c: usize = 0;
    while c < rows.len()
        invariant
            c <= rows.len(),
            table.len() == c,
            forall|k: int| 0 <= k < c ==> (#[trigger] table[k])@ == day_of(rows[k]@),
            forall|k: int| 0 <= k < c ==> curve_valid(day_of((#[trigger] rows[k])@)),
        decreases rows.len() - c,
    {
        let curve = day_from_row(&rows[c]);
        if !has_weight(&curve) {
            return Err(ReferenceDataError::MalformedLevels);
        }
        table.push(curve);
        c = c + 1;
    }
    Ok(table)
}

} // verus!
