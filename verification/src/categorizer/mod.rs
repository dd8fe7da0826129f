//! Transaction auto-categorizer.
//!
//! Maps raw transaction descriptions to configured category and merchant
//! paths, and derives new rules from transactions that were mapped by hand.
pub mod engine;
pub mod model;
pub mod tokens;

pub use engine::{categorize_transactions, derive_rules};
pub use model::{
    CategorizeRequest, CategorizeResponse, CategoryRule, DeriveInput, DeriveRulesRequest,
    DeriveRulesResponse, MapInput, MapOutput,
};
