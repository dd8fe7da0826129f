//! Xfingine: the computation layer behind a set of personal-finance tools.
//!
//! Data in, arithmetic, data out: no I/O, no clock, no network. This crate holds
//! the verified part of that logic:
//!
//! - [`categorizer`]: maps bank narrations to categories by rules, and derives
//!   new rules from transactions that were mapped by hand.
//! - [`emi`]: calendar months, tenure checks and the year-by-year summary of a
//!   loan schedule.
//! - [`release`]: version bumps in manifests and changelog headers.
//! - [`numbers`]: decimal digits read and written.
//! - [`text`]: the character-level helpers the engines share.
//! - [`error`]: the error type the engines return.
use vstd::prelude::*;

pub mod categorizer;
pub mod emi;
pub mod error;
pub mod numbers;
pub mod release;
pub mod text;

verus! {

} // verus!
