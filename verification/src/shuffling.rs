//! Shuffling algorithms.
pub mod basic_shuffle;
