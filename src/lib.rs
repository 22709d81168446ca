//! A multi-day ledger of per-wallet metrics. Each run merges the values
//! fetched for the current day into the table kept from earlier runs: columns
//! are only appended, rows follow the tracked wallet list, and row, column and
//! aggregate totals are recomputed. Amounts are fixed-point integers in
//! ten-thousandths.
//!
//! - `snapshot`: the prior table and how it is decoded from a sheet.
//! - `ledger`: the merge and what it guarantees.
//! - `sheet`: the layout a merged table is written in, and re-running a day.
//! - `label`: column labels, substring tests and address shortening.

use vstd::prelude::*;

pub mod label;
pub mod ledger;
pub mod sheet;
pub mod snapshot;

verus! {

} // verus!
