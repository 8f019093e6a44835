//! The reference tables as a whole, and what can be wrong with them.

use vstd::prelude::*;

use crate::categories;
use crate::categories::Category;
use crate::categories::CategoryRow;
use crate::districts;
use crate::districts::District;
use crate::districts::DistrictRow;
use crate::levels;
use crate::levels::Levels;
use crate::modes;
use crate::modes::Mode;
use crate::trips;
use crate::trips::Trip;
use crate::trips::TripRow;

verus! {

/// What makes reference data unusable. Any of these is fatal: no ledger and
/// no graph is built from such data.
#[derive(Debug, Clone, Copy, PartialEq, Eq, Structural)]
pub enum ReferenceDataError {
    /// Two districts carry the same identifier.
    DuplicateDistrict,
    /// Two categories carry the same identifier.
    DuplicateCategory,
    /// A trip names a district that the district table lacks.
    UnknownDistrict,
    /// A trip names a category that the category table lacks.
    UnknownCategory,
    /// Two trips agree in transport, category, origin and destination.
    DuplicateTrip,
    /// The level curves do not match the categories, a curve has not 48
    /// shares, or its shares are all zero.
    MalformedLevels,
    /// There is no mode, a mode is misnumbered, or the mode shares are all zero.
    MalformedModes,
    /// The tables are too large for the counters of this machine.
    TooLarge,
}

} // verus!

verus! {

/// The reference tables that the ledger, the graph and the search are built
/// from. They are read once and never changed.
#[derive(Debug)]
pub struct ReferenceData {
    pub districts: Vec<District>,
    pub categories: Vec<Category>,
    pub trips: Vec<Trip>,
    pub levels: Vec<Levels>,
    pub modes: Vec<Mode>,
}

/// What is wrong with the rows of the survey data, if anything. The tables
/// are looked at in the order districts, categories, trips, level curves,
/// modes; the first fault decides.
pub open spec fn load_fault(
    district_rows: Seq<DistrictRow>,
    category_rows: Seq<CategoryRow>,
    trip_rows: Seq<TripRow>,
    level_rows: Seq<Vec<u32>>,
    modes: Seq<Mode>,
) -> Option<ReferenceDataError> {
    let district_table = districts::table_from(district_rows);
    let category_table = categories::table_from(category_rows);
    let trip_fault = trips::first_fault(
        district_table,
        category_table,
        trips::kept_rows(trip_rows),
        0,
    );
    if !districts::rows_distinct(district_rows) {
        Some(ReferenceDataError::DuplicateDistrict)
    } else if !categories::rows_distinct(category_rows) {
        Some(ReferenceDataError::DuplicateCategory)
    } else if trip_fault.is_some() {
        trip_fault
    } else if !levels::rows_valid(level_rows, category_rows.len() as int) {
        Some(ReferenceDataError::MalformedLevels)
    } else if !modes::table_valid(modes) {
        Some(ReferenceDataError::MalformedModes)
    } else if trips::total_count(trips::table_from(district_table, category_table, trip_rows))
        > usize::MAX {
        Some(ReferenceDataError::TooLarge)
    } else {
        None
    }
}

impl ReferenceData {
    /// The tables are valid each for itself and fit together, and the trips
    /// can be counted in a machine word.
    pub open spec fn wf(&self) -> bool {
        &&& districts::table_valid(self.districts@)
        &&& categories::table_valid(self.categories@)
        &&& trips::table_valid(
            self.trips@,
            self.districts.len() as int,
            self.categories.len() as int,
        )
        &&& levels::table_valid(self.levels@, self.categories.len() as int)
        &&& modes::table_valid(self.modes@)
        &&& trips::total_count(self.trips@) <= usize::MAX
    }

    /// Builds the reference tables from the rows of the survey data and
    /// checks them. Trip rows that count no trip are dropped.
    pub fn load(
        district_rows: &Vec<DistrictRow>,
        category_rows: &Vec<CategoryRow>,
        trip_rows: &Vec<TripRow>,
        level_rows: &Vec<Vec<u32>>,
        modes: Vec<Mode>,
    ) -> (loaded: Result<ReferenceData, ReferenceDataError>)
        ensures
            match load_fault(district_rows@, category_rows@, trip_rows@, level_rows@, modes@) {
                Some(fault) => loaded.is_err() && loaded.unwrap_err() == fault,
                None => {
                    &&& loaded.is_ok()
                    &&& loaded.unwrap().wf()
                    &&& loaded.unwrap().districts@ == districts::table_from(district_rows@)
                    &&& loaded.unwrap().categories@ == categories::table_from(category_rows@)
                    &&& loaded.unwrap().trips@ == trips::table_from(
                        districts::table_from(district_rows@),
                        categories::table_from(category_rows@),
                        trip_rows@,
                    )
                    &&& forall|c: int|
                        0 <= c < level_rows.len() ==> (#[trigger] loaded.unwrap().levels[c])@
                            == levels::day_of(level_rows[c]@)
                    &&& loaded.unwrap().modes@ == modes@
                },
            },
    {
        let district_table = match districts::load(district_rows) {
            Ok(table) => table,
            Err(fault) => {
                return Err(fault);
            },
        };
        let category_table = match categories::load(category_rows) {
            Ok(table) => table,
            Err(fault) => {
                return Err(fault);
            },
        };
        let trip_table = match trips::load(&district_table, &category_table, trip_rows) {
            Ok(table) => table,
            Err(fault) => {
                return Err(fault);
            },
        };
        let level_table = match levels::load(&category_table, level_rows) {
            Ok(table) => table,
            Err(fault) => {
                return Err(fault);
            },
        };
        if !modes::check(&modes) {
            return Err(ReferenceDataError::MalformedModes);
        }
        if !trips::counts_fit(&trip_table) {
            return Err(ReferenceDataError::TooLarge);
        }
        Ok(
            ReferenceData {
                districts: district_table,
                categories: category_table,
                trips: trip_table,
                levels: level_table,
                modes,
            },
        )
    }
}

} // verus!
