//! Oblivious containers: arrays, vectors, stacks, queues, heaps and maps.
pub mod array;
pub mod queue;
pub mod stack;
pub mod vector;
pub mod map;
pub mod heap;
pub mod heap_meta;
pub mod sharded_map;
