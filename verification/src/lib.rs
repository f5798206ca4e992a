//! A personal-finance ledger library: a budget period with daily expense
//! entries is loaded from a structured text document and summarized into
//! running totals, per-category subtotals, daily averages, shared/owed
//! splits, and budget-runway projections.
//!
//! Money is held exactly, as an integer count of fixed sub-units fine enough
//! that every split the engine performs stays exact; averages and runway
//! figures, which involve genuine division, are extended rationals that make
//! a division by zero an explicit non-finite value.

use vstd::prelude::*;

pub mod date;
pub mod money;
pub mod ratio;
pub mod tally;
pub mod model;
pub mod engine;
pub mod parse;

verus! {

pub use crate::date::Date;
pub use crate::money::Money;
pub use crate::ratio::Ratio;
pub use crate::tally::Tally;
pub use crate::model::Account;
pub use crate::model::Day;
pub use crate::model::Expense;
pub use crate::engine::Calculated;
pub use crate::engine::calculate;
pub use crate::parse::FormatError;
pub use crate::parse::FormatReason;
pub use crate::parse::IoKind;
pub use crate::parse::ParseError;
pub use crate::parse::parse_account;

} // verus!
