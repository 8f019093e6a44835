//! Synthesis of daily activity plans from measured trip demand.
//!
//! A plan is a chain of trips between (district, purpose, time bin) states.
//! The crate builds the graph of those states, derives the capacity ledger
//! from the reference tables, searches the graph depth first under a chain of
//! admission filters, and commits admissible chains against the ledger.

pub mod apportion;
pub mod capacities;
pub mod categories;
pub mod districts;
pub mod extraction;
pub mod filters;
pub mod graph;
pub mod levels;
pub mod modes;
pub mod pruning;
pub mod purposes;
pub mod reference;
pub mod search;
pub mod time_bins;
pub mod trips;
pub mod usage;
pub mod walks;
