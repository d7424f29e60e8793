//! Conditional moves and swaps, the oblivious option type and small utilities.
pub mod indexable;
pub mod ooption;
pub mod traits;
pub mod utils;
