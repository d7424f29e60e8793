//! Oblivious data structures and algorithms: constant-trace conditional moves,
//! sorting networks, compaction, ORAMs and the containers built on them.
pub mod primitives;
pub mod sort;
pub mod random;
pub mod shuffling;
pub mod oram;
pub mod datastructures;
pub mod storage;
