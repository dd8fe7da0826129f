//! The integer side of the RealValue EMI engine: calendar months, the checks
//! on the requested tenure, and everything the engine does to a simulated
//! schedule once the floating-point arithmetic has produced its rows.
pub mod engine;
pub mod model;
pub mod summary;

pub use engine::{fill_remaining, group_by_year, required_months};
pub use model::{
    EmiMode, EmiMonth, EmiTotals, EmiYear, EmiYearMonth, YearMonth, MAX_LOAN_MONTHS,
};
