//! Oblivious sorting networks, compaction, rotation and shuffling.
pub mod compaction;
pub mod rotate;
pub mod utils;
pub mod order;
pub mod shapes;
pub mod bitonic;
pub mod odd_even;
pub mod batcher;
pub mod bose_nelson;
pub mod shuffle;
