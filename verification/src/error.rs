//! The error type the engines return.
use vstd::prelude::*;

verus! {

/// What can go wrong while running an engine. Engines never panic on bad
/// input; they return one of these instead.
#[derive(Debug, Clone, PartialEq, Eq)]
pub enum XfingineError {
    /// An input field was missing, out of range, or contradictory.
    InvalidInput(String),
    /// The requested tenure is longer than the engine will simulate.
    TenureTooLong {
        /// The tenure that was asked for.
        months: u64,
        /// The ceiling the engine enforces.
        max: u32,
    },
}

} // verus!
