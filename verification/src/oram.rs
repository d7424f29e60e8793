//! Oblivious RAMs: the heap tree they are laid out in, linear-scan ORAM, Circuit ORAM and
//! the recursive position map.
pub mod heap_tree;
pub mod prelude;
pub mod linear_oram;
pub mod circuit_oram;
pub mod block_sets;
pub mod recursive_oram;
