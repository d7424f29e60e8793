use std::cmp::Reverse;
use std::collections::BinaryHeap;

use rand::Rng;
use rostl::datastructures::array::{DynamicArray, FixedArray, LongArray, MultiWayArray, ShortArray};
use rostl::datastructures::heap::Heap;
use rostl::datastructures::map::{OHash, UnsortedMap};
use rostl::datastructures::queue::ShortQueue;
use rostl::datastructures::sharded_map::{finish_get_batch, plan_get_batch, plan_insert_batch, GetBatchPlan, KeyWithPart, ShardedMap, P};
use rostl::datastructures::stack::Stack;
use rostl::datastructures::vector::Vector;
use rostl::primitives::indexable::Length;
use rostl::primitives::traits::Cmov;
use rostl::primitives::ooption::OOption;

fn check_short_array<T: Cmov + Copy + Default + PartialEq + std::fmt::Debug, const N: usize>(conv: fn(usize) -> T) {
    println!("Testing ShortArray with size {}", N);
    let mut arr = ShortArray::<T, N>::new();
    assert_eq!(arr.len(), N);
    for i in 0..N {
        let mut value = Default::default();
        arr.read(i, &mut value);
        assert_eq!(value, T::default());
    }
    assert_eq!(arr.len(), N);
    for i in 0..N {
        arr.write(i, conv(i));
    }
    assert_eq!(arr.len(), N);
    for i in 0..N {
        let mut value = Default::default();
        arr.read(i, &mut value);
        assert_eq!(value, conv(i));
    }
    assert_eq!(arr.len(), N);
}

fn check_long_array<T: Cmov + Copy + Default + PartialEq + std::fmt::Debug, const N: usize>(conv: fn(usize) -> T) {
    println!("Testing LongArray with size {}", N);
    let mut arr = LongArray::<T, N>::new();
    assert_eq!(arr.len(), N);
    for i in 0..N {
        let mut value = Default::default();
        arr.read(i, &mut value);
        assert_eq!(value, T::default());
    }
    assert_eq!(arr.len(), N);
    for i in 0..N {
        arr.write(i, conv(i));
    }
    assert_eq!(arr.len(), N);
    for i in 0..N {
        let mut value = Default::default();
        arr.read(i, &mut value);
        assert_eq!(value, conv(i));
    }
    assert_eq!(arr.len(), N);
}

fn check_fixed_array<T: Cmov + Copy + Default + PartialEq + std::fmt::Debug, const N: usize>(conv: fn(usize) -> T) {
    println!("Testing FixedArray with size {}", N);
    let mut arr = FixedArray::<T, N>::new();
    assert_eq!(arr.len(), N);
    for i in 0..N {
        let mut value = Default::default();
        arr.read(i, &mut value);
        assert_eq!(value, T::default());
    }
    assert_eq!(arr.len(), N);
    for i in 0..N {
        arr.write(i, conv(i));
    }
    assert_eq!(arr.len(), N);
    for i in 0..N {
        let mut value = Default::default();
        arr.read(i, &mut value);
        assert_eq!(value, conv(i));
    }
    assert_eq!(arr.len(), N);
}

#[test]
fn test_fixed_arrays() {
    check_short_array::<u32, 1>(|i| i as u32);
    check_short_array::<u32, 2>(|i| i as u32);
    check_short_array::<u32, 3>(|i| i as u32);
    check_short_array::<u64, 15>(|i| i as u64);
    check_short_array::<u8, 33>(|i| i as u8);
    check_short_array::<u64, 200>(|i| i as u64);

    check_long_array::<u32, 2>(|i| i as u32);
    check_long_array::<u32, 3>(|i| i as u32);
    check_long_array::<u64, 15>(|i| i as u64);
    check_long_array::<u8, 33>(|i| i as u8);

    check_fixed_array::<u32, 1>(|i| i as u32);
    check_fixed_array::<u32, 2>(|i| i as u32);
    check_fixed_array::<u32, 3>(|i| i as u32);
    check_fixed_array::<u64, 15>(|i| i as u64);
    check_fixed_array::<u8, 33>(|i| i as u8);
    check_fixed_array::<u64, 200>(|i| i as u64);
}

fn check_multiway_array<T: Cmov + Copy + Default + PartialEq + std::fmt::Debug, const W: usize>(size: usize, conv: fn(usize) -> T) {
    println!("Testing MultiWayArray with size {}", size);
    let mut arr = MultiWayArray::<T, W>::new(size);
    assert_eq!(arr.len(), size);
    for w in 0..W {
        for i in 0..size {
            let mut value = Default::default();
            arr.read(w, i, &mut value);
            assert_eq!(value, T::default());
        }
    }
    assert_eq!(arr.len(), size);
    for w in 0..W {
        for i in 0..(size / W) {
            arr.write(w, i, conv(i + w));
        }
    }
    assert_eq!(arr.len(), size);
    for w in 0..W {
        for i in 0..(size / W) {
            let mut value = Default::default();
            arr.read(w, i, &mut value);
            assert_eq!(value, conv(i + w));
        }
    }
    assert_eq!(arr.len(), size);
}

#[test]
fn test_multiway_array() {
    check_multiway_array::<u32, 1>(2, |i| i as u32);
    check_multiway_array::<u32, 1>(3, |i| i as u32);
    check_multiway_array::<u64, 1>(15, |i| i as u64);
    check_multiway_array::<u8, 1>(33, |i| i as u8);
    check_multiway_array::<u64, 1>(200, |i| i as u64);

    check_multiway_array::<u32, 2>(2, |i| i as u32);
    check_multiway_array::<u32, 2>(3, |i| i as u32);
    check_multiway_array::<u64, 2>(15, |i| i as u64);
    check_multiway_array::<u8, 2>(33, |i| i as u8);
    check_multiway_array::<u64, 2>(200, |i| i as u64);

    check_multiway_array::<u32, 4>(2, |i| i as u32);
    check_multiway_array::<u32, 4>(3, |i| i as u32);
    check_multiway_array::<u64, 4>(15, |i| i as u64);
    check_multiway_array::<u8, 4>(33, |i| i as u8);
    check_multiway_array::<u64, 4>(200, |i| i as u64);
}

fn check_dynamic_array<T: Cmov + Copy + Default + PartialEq + std::fmt::Debug>(size: usize, conv: fn(usize) -> T) {
    println!("Testing DynamicArray with size {}", size);
    let mut arr = DynamicArray::<T>::new(size);
    assert_eq!(arr.len(), size);
    for i in 0..size {
        let mut value = Default::default();
        arr.read(i, &mut value);
        assert_eq!(value, T::default());
    }
    assert_eq!(arr.len(), size);
    for i in 0..size {
        arr.write(i, conv(i));
    }
    assert_eq!(arr.len(), size);
    for i in 0..size {
        let mut value = Default::default();
        arr.read(i, &mut value);
        assert_eq!(value, conv(i));
    }
    assert_eq!(arr.len(), size);
    arr.resize(size + 1);
    assert_eq!(arr.len(), size + 1);
    for i in 0..size {
        let mut value = Default::default();
        arr.read(i, &mut value);
        assert_eq!(value, conv(i));
    }
    assert_eq!(arr.len(), size + 1);
    for i in size..(size + 1) {
        let mut value = Default::default();
        arr.read(i, &mut value);
        assert_eq!(value, T::default());
    }
    assert_eq!(arr.len(), size + 1);
    arr.resize(2 * size);
    assert_eq!(arr.len(), 2 * size);
    for i in 0..size {
        let mut value = Default::default();
        arr.read(i, &mut value);
        assert_eq!(value, conv(i));
    }
    assert_eq!(arr.len(), 2 * size);
    for i in size..(2 * size) {
        let mut value = Default::default();
        arr.read(i, &mut value);
        assert_eq!(value, T::default());
    }
    assert_eq!(arr.len(), 2 * size);
}

#[test]
fn test_dynamic_array() {
    check_dynamic_array::<u32>(2, |i| i as u32);
    check_dynamic_array::<u32>(3, |i| i as u32);
    check_dynamic_array::<u64>(15, |i| i as u64);
    check_dynamic_array::<u8>(33, |i| i as u8);
    check_dynamic_array::<u64>(200, |i| i as u64);
}

#[test]
fn dynamic_array_update() {
    let mut arr = DynamicArray::<u64>::new(8);
    arr.write(3, 30);
    let (found, old) = arr.update(3, |v| {
        let o = *v;
        *v += 1;
        o
    });
    assert!(found);
    assert_eq!(old, 30);
    let mut out = 0;
    arr.read(3, &mut out);
    assert_eq!(out, 31);
}

#[test]
fn test_insert_and_find_min() {
    let mut heap = Heap::new(4);

    heap.insert(10, 100);
    heap.insert(5, 50);
    heap.insert(20, 200);

    let min_element = heap.find_min();

    assert_eq!(min_element.value.key, 5);
    assert_eq!(min_element.value.value, 50);
}

#[test]
fn test_insert_and_extract_min() {
    let mut heap = Heap::new(4);

    heap.insert(30, 300);
    heap.insert(10, 100);
    heap.insert(20, 200);

    let min_element = heap.find_min();
    assert_eq!(min_element.value.key, 10);
    assert_eq!(min_element.value.value, 100);

    heap.extract_min();

    let new_min_element = heap.find_min();
    assert_eq!(new_min_element.value.key, 20);
    assert_eq!(new_min_element.value.value, 200);
}

#[test]
fn test_delete() {
    let mut heap = Heap::new(4);

    let _location = heap.insert(15, 150);

    let min_element = heap.find_min();

    heap.delete(min_element.pos, min_element.key);

    let min_element_after_delete = heap.find_min();
    assert!(min_element_after_delete.is_empty())
}

#[test]
fn heap_empty_min_is_empty_with_max_priority() {
    let mut heap: Heap<u64> = Heap::new(4);
    let min_element = heap.find_min();
    assert!(min_element.is_empty());
    assert_eq!(min_element.value.key, usize::MAX);
    heap.extract_min();
    assert!(heap.find_min().is_empty());
    heap.insert(7, 70);
    let m = heap.find_min();
    assert!(!m.is_empty());
    assert_eq!(m.value.key, 7);
    assert_eq!(m.value.value, 70);
}

#[test]
fn heap_min_after_insert_is_at_most_inserted() {
    let mut heap: Heap<u64> = Heap::new(16);
    for (k, v) in [(9usize, 1u64), (4, 2), (12, 3), (4, 4), (1, 5)] {
        heap.insert(k, v);
        assert!(heap.find_min().value.key <= k);
    }
    assert_eq!(heap.find_min().value.key, 1);
}

#[test]
fn test_multiple_inserts_and_extracts() {
    let mut heap = Heap::new(8);

    for i in (1..=8).rev() {
        heap.insert(i, (i * 10) as u64);
    }

    let mut last_key = 0;
    for _i in 0..8 {
        let min_element = heap.find_min();
        assert!(!min_element.is_empty());
        assert!(min_element.value.key >= last_key);
        last_key = min_element.value.key;
        heap.extract_min();
    }
}

#[test]
fn test_stress_with_many_operations() {
    let mut heap = Heap::new(32);
    let mut reference_heap = BinaryHeap::new();
    let operations = 100;

    let mut inserted = Vec::new();

    for _ in 0..operations {
        let op = rand::rng().random_range(0..2);
        match op {
            0 => {
                let key = rand::rng().random_range(0..1000);
                let value = key as u64 * 10;
                let _inserted_location = heap.insert(key, value);
                let min_element = heap.find_min();
                inserted.push(min_element);
                reference_heap.push(Reverse((key, value)));
            }
            1 => {
                if !reference_heap.is_empty() {
                    let min_element = heap.find_min();
                    heap.extract_min();

                    if let Some(Reverse((reference_min_key, reference_min_val))) = reference_heap.pop() {
                        assert_eq!(min_element.value.key, reference_min_key, "Extract min returned incorrect key");
                        assert_eq!(min_element.value.value, reference_min_val, "Extract min returned incorrect value");
                    }
                }
            }
            _ => unreachable!(),
        }

        if !inserted.is_empty() {
            let min_element = heap.find_min();
            if let Some(Reverse((reference_min_key, _))) = reference_heap.peek() {
                assert_eq!(min_element.value.key, *reference_min_key, "Heap minimum doesn't match reference after operation");
            }
        }
    }
}

#[test]
fn test_unsorted_map() {
    let mut map: UnsortedMap<u32, u32> = UnsortedMap::new(2);
    assert_eq!(map.len(), 0);
    let mut value = 0;
    assert!(!map.get(1, &mut value));
    map.insert(1, 2);
    assert_eq!(map.len(), 1);
    assert!(map.get(1, &mut value));
    assert_eq!(value, 2);
    map.write(1, 3);
    assert!(map.get(1, &mut value));
    assert_eq!(value, 3);
}

#[test]
fn test_full_map() {
    const SZ: usize = 1024;
    let mut map: UnsortedMap<u32, u32> = UnsortedMap::new(SZ);
    assert_eq!(map.len(), 0);
    for i in 0..SZ as u32 {
        map.insert(i, i * 2);
        let mut value = 0;
        assert!(map.get(i, &mut value));
        assert_eq!(value, i * 2);
        assert_eq!(map.len(), (i + 1) as usize);
        map.write(i, i * 3);
        assert!(map.get(i, &mut value));
        assert_eq!(value, i * 3);
        assert_eq!(map.len(), (i + 1) as usize);
    }
}

#[test]
fn test_insert_cond() {
    let mut map: UnsortedMap<u32, u32> = UnsortedMap::new(8);
    assert_eq!(map.len(), 0);

    map.insert_cond(10, 100, false);
    assert_eq!(map.len(), 0);
    let mut value = 0;
    assert!(!map.get(10, &mut value));

    map.insert_cond(10, 200, true);
    assert_eq!(map.len(), 1);
    assert!(map.get(10, &mut value));
    assert_eq!(value, 200);

    map.insert_cond(10, 300, false);
    assert_eq!(map.len(), 1);
    assert!(map.get(10, &mut value));
    assert_eq!(value, 200);
}

fn test_map_subtypes<K: OHash + Default + std::fmt::Debug, V: Cmov + Copy + Default + std::fmt::Debug>() {
    const SZ: usize = 1024;
    let mut map: UnsortedMap<K, V> = UnsortedMap::new(SZ);
    assert_eq!(map.len(), 0);
    let mut value = V::default();
    assert!(!map.get(K::default(), &mut value));
    map.insert(K::default(), V::default());
    assert_eq!(map.len(), 1);
    assert!(map.get(K::default(), &mut value));
}

#[test]
fn test_map_multiple_types() {
    test_map_subtypes::<u32, u32>();
    test_map_subtypes::<u64, u64>();
    test_map_subtypes::<u128, u128>();
    test_map_subtypes::<i32, i32>();
    test_map_subtypes::<i64, i64>();
    test_map_subtypes::<i128, i128>();
}

#[test]
fn map_write_reports_missing_keys() {
    let mut map: UnsortedMap<u64, u64> = UnsortedMap::new(16);
    assert!(!map.write(5, 1));
    assert!(map.insert(5, 50));
    assert!(map.write(5, 51));
    let mut v = 0;
    assert!(map.get(5, &mut v));
    assert_eq!(v, 51);
}

#[test]
fn map_many_keys_roundtrip() {
    let mut map: UnsortedMap<u64, u64> = UnsortedMap::new(64);
    for k in 0..50u64 {
        assert!(map.insert(k * 7 + 1, k));
    }
    for k in 0..50u64 {
        let mut v = 0;
        assert!(map.get(k * 7 + 1, &mut v));
        assert_eq!(v, k);
    }
    let mut v = 99;
    assert!(!map.get(2, &mut v));
    assert_eq!(v, 99);
}

#[test]
fn new_map_rounds_capacity_and_starts_empty() {
    let requested = 100;
    let map: ShardedMap<u64, u64> = ShardedMap::new(requested);

    let per_part = requested.div_ceil(P);
    assert_eq!(map.capacity(), per_part * P);
    assert_eq!(map.size(), 0);
}

const N: usize = 4;

#[test]
fn insert_batch_then_get_batch_returns_expected_values() {
    let mut map: ShardedMap<u64, u64> = ShardedMap::new(32);

    let keys: [u64; N] = [1, 2, 3, 4];
    let values: [u64; N] = [10, 20, 30, 40];

    map.insert_batch_distinct(&keys, &values, N);

    let results = map.get_batch_distinct(&keys, N).unwrap();
    for i in 0..N {
        assert!(results[i].is_some(), "key {} missing", keys[i]);
        assert_eq!(results[i].unwrap(), values[i]);
    }

    let results = map.get_batch_leaky(&keys);
    for i in 0..N {
        assert!(results[i].is_some(), "key {} missing", keys[i]);
        assert_eq!(results[i].unwrap(), values[i]);
    }

    let results = map.get_batch(&keys, N).unwrap();
    for i in 0..N {
        assert!(results[i].is_some(), "key {} missing", keys[i]);
        assert_eq!(results[i].unwrap(), values[i]);
    }
}

#[test]
fn querying_absent_keys_returns_none() {
    let mut map: ShardedMap<u64, u64> = ShardedMap::new(16);

    let absent: [u64; N] = [100, 200, 300, 400];
    let results = map.get_batch_distinct(&absent, N).unwrap();

    for r in &results {
        assert!(!r.is_some());
    }

    let results = map.get_batch_leaky(&absent);
    for r in &results {
        assert!(!r.is_some());
    }

    let absent: [u64; N] = [100, 200, 300, 400];
    let results = map.get_batch(&absent, N).unwrap();

    for r in &results {
        assert!(!r.is_some());
    }
}

#[test]
fn size_updates_after_insert() {
    let mut map: ShardedMap<u64, u64> = ShardedMap::new(16);

    let keys: [u64; N] = [11, 22, 33, 44];
    let values: [u64; N] = [111, 222, 333, 444];

    map.insert_batch_distinct(&keys, &values, N);
    assert_eq!(map.size(), N);

    let mut map: ShardedMap<u64, u64> = ShardedMap::new(16);
    map.insert_batch(&keys, &values, N);
    assert_eq!(map.size(), N);
}

#[test]
fn compute_safe_batch_size_works() {
    let map: ShardedMap<u64, u64> = ShardedMap::new(16);

    assert_eq!(P, 15);

    let n = 100;
    let b = map.compute_safe_batch_size(n);
    assert!(b >= n.div_ceil(P));
    assert_eq!(b, 32);

    let n = 1000;
    let b = map.compute_safe_batch_size(n);
    assert!(b >= n.div_ceil(P));
    assert_eq!(b, 103);

    let n = 4096;
    let b = map.compute_safe_batch_size(n);
    assert!(b >= n.div_ceil(P));
    assert_eq!(b, 327);

    let n = 8192;
    let b = map.compute_safe_batch_size(n);
    assert!(b >= n.div_ceil(P));
    assert_eq!(b, 613);

    for i in 1..100 {
        for j in 1..100 {
            let n = i * j * P;
            let b = map.compute_safe_batch_size(n);
            assert!(b >= n.div_ceil(P));
            assert!(b <= n);
        }
    }
}

#[test]
fn insert_batch_keeps_first_occurrence() {
    let mut map: ShardedMap<u64, u64> = ShardedMap::new(64);
    let keys = [7u64, 8, 7, 9];
    let values = [70u64, 80, 71, 90];
    assert!(map.insert_batch(&keys, &values, 4));
    assert_eq!(map.size(), 3);
    let results = map.get_batch(&keys, 4).unwrap();
    assert_eq!(results[0].unwrap(), 70);
    assert_eq!(results[1].unwrap(), 80);
    assert_eq!(results[2].unwrap(), 70);
    assert_eq!(results[3].unwrap(), 90);
}

#[test]
fn get_batch_with_repeated_keys() {
    let mut map: ShardedMap<u64, u64> = ShardedMap::new(32);
    let keys = [5u64, 6];
    let values = [50u64, 60];
    assert!(map.insert_batch_distinct(&keys, &values, 2));
    let query = [6u64, 5, 6, 1000, 5];
    let results = map.get_batch(&query, 5).unwrap();
    assert_eq!(results.len(), 5);
    assert_eq!(results[0].unwrap(), 60);
    assert_eq!(results[1].unwrap(), 50);
    assert_eq!(results[2].unwrap(), 60);
    assert!(!results[3].is_some());
    assert_eq!(results[4].unwrap(), 50);
}

#[test]
fn batch_overflow_is_reported() {
    let mut map: ShardedMap<u64, u64> = ShardedMap::new(64);
    let keys: Vec<u64> = (0..40).collect();
    assert!(map.get_batch_distinct(&keys, 0).is_none());
}

#[test]
fn test_stack() {
    let mut stack = Stack::<u32>::new(10);
    let mut out = 0;
    stack.maybe_push(true, 100);
    assert_eq!(stack.len(), 1);
    stack.maybe_push(true, 222);
    assert_eq!(stack.len(), 2);
    stack.maybe_push(true, 3333);
    assert_eq!(stack.len(), 3);
    stack.maybe_push(false, 123214);
    assert_eq!(stack.len(), 3);
    stack.maybe_pop(true, &mut out);
    assert_eq!(stack.len(), 2);
    assert_eq!(out, 3333);
    stack.maybe_pop(true, &mut out);
    assert_eq!(stack.len(), 1);
    assert_eq!(out, 222);
    out = 123;
    stack.maybe_pop(false, &mut out);
    assert_eq!(stack.len(), 1);
    assert_eq!(out, 123);
    stack.maybe_pop(true, &mut out);
    assert_eq!(stack.len(), 0);
    assert_eq!(out, 100);
}

#[test]
fn stack_dummy_ops_keep_order() {
    let mut stack = Stack::<u32>::new(16);
    for v in 1..=8u32 {
        stack.maybe_push(true, v);
        for _ in 0..5 {
            let mut out = 777;
            stack.maybe_pop(false, &mut out);
            assert_eq!(out, 777);
            stack.maybe_push(false, 999);
        }
    }
    for v in (1..=8u32).rev() {
        let mut out = 0;
        stack.maybe_pop(true, &mut out);
        assert_eq!(out, v);
        stack.maybe_push(true, 100 + v);
        stack.maybe_pop(true, &mut out);
        assert_eq!(out, 100 + v);
    }
    assert_eq!(stack.len(), 0);
}

#[test]
fn test_vector() {
    let mut v: Vector<u64> = Vector::new();
    assert_eq!(v.len(), 0);
    assert_eq!(v.capacity(), 2);

    v.push_back(1);
    assert_eq!(v.len(), 1);
    assert_eq!(v.capacity(), 2);
    assert_eq!(v.pop_back(), 1);
    assert_eq!(v.len(), 0);
    assert_eq!(v.capacity(), 2);

    v.push_back(1);
    v.push_back(2);
    v.push_back(3);
    assert_eq!(v.len(), 3);
    assert_eq!(v.capacity(), 4);
    assert_eq!(v.pop_back(), 3);
    assert_eq!(v.pop_back(), 2);
    assert_eq!(v.pop_back(), 1);
    assert_eq!(v.len(), 0);
    assert_eq!(v.capacity(), 4);
}

#[test]
fn vector_read_write() {
    let mut v: Vector<u32> = Vector::new();
    for i in 0..5 {
        v.push_back(i * 10);
    }
    assert_eq!(v.capacity(), 8);
    v.write(2, 99);
    let mut out = 0;
    v.read(2, &mut out);
    assert_eq!(out, 99);
    v.read(4, &mut out);
    assert_eq!(out, 40);
}

#[test]
fn short_queue_is_fifo() {
    let mut q = ShortQueue::<u32, 4>::new();
    q.maybe_push(true, 1);
    q.maybe_push(true, 2);
    q.maybe_push(false, 9);
    q.maybe_push(true, 3);
    assert_eq!(q.len(), 3);
    let mut out = 0;
    q.maybe_pop(true, &mut out);
    assert_eq!(out, 1);
    q.maybe_push(true, 4);
    q.maybe_pop(false, &mut out);
    assert_eq!(out, 1);
    q.maybe_pop(true, &mut out);
    assert_eq!(out, 2);
    q.maybe_pop(true, &mut out);
    assert_eq!(out, 3);
    q.maybe_pop(true, &mut out);
    assert_eq!(out, 4);
    assert_eq!(q.len(), 0);
}

#[test]
fn plan_get_batch_refuses_overfull_partition() {
    // Two distinct keys go to partition 0; a repetition does not count.
    let keys = [1u64, 1, 2];
    let targets = [0usize, 0, 0];
    assert!(plan_get_batch(&keys, &targets, 1).is_none());
    assert!(plan_get_batch(&keys, &targets, 2).is_some());
    assert!(plan_get_batch(&keys, &targets, 3).is_some());
}

#[test]
fn plan_insert_batch_refuses_overfull_partition() {
    let keys = [5u64, 7, 5];
    let values = [1u64, 2, 3];
    let targets = [3usize, 3, 3];
    assert!(plan_insert_batch(&keys, &values, &targets, 1).is_none());
    let plan = plan_insert_batch(&keys, &values, &targets, 2).unwrap();
    assert_eq!(plan.added, 2);
}

#[test]
fn stack_is_last_in_first_out() {
    let mut stack = Stack::<u64>::new(64);
    for v in 0..40u64 {
        stack.maybe_push(true, v * 3);
    }
    for v in (20..40u64).rev() {
        let mut out = 0;
        stack.maybe_pop(true, &mut out);
        assert_eq!(out, v * 3);
    }
    stack.maybe_push(true, 1000);
    let mut out = 0;
    stack.maybe_pop(true, &mut out);
    assert_eq!(out, 1000);
    for v in (0..20u64).rev() {
        let mut out = 0;
        stack.maybe_pop(true, &mut out);
        assert_eq!(out, v * 3);
    }
    assert_eq!(stack.len(), 0);
}

#[test]
fn short_queue_takes_several_pushes() {
    let mut q = ShortQueue::<u32, 4>::new();
    q.maybe_push(true, 1);
    q.maybe_push(true, 2);
    q.maybe_push(true, 3);
    let mut out = 0;
    q.maybe_pop(true, &mut out);
    assert_eq!(out, 1);
    q.maybe_pop(true, &mut out);
    assert_eq!(out, 2);
    assert!(q.can_push());
}

#[test]
fn finish_get_batch_puts_answers_back() {
    // Sorted by partition the batch reads [7, 7, 9]; they sat at positions 2, 0 and 1.
    // The plan gave key 7 slot 4 and key 9 slot 9 of the partitions' answers.
    let b = 1;
    let slots = P * b;
    let mut prefix_sum_2 = vec![0usize; slots + 1];
    for i in 0..slots {
        prefix_sum_2[i + 1] = prefix_sum_2[i] + usize::from(i == 4 || i == 9);
    }
    let plan = GetBatchPlan {
        n: 3,
        b,
        keyinfo: vec![KeyWithPart { partition: P, key: 0u64 }; slots],
        index_map: vec![2, 0, 1],
        prefix_sum_1: vec![0, 1, 1, 2],
        prefix_sum_2,
    };
    let mut res = vec![OOption::new(0u64, false); slots];
    res[4] = OOption::new(40, true);
    res[9] = OOption::new(90, true);
    let r = finish_get_batch(plan, res);
    assert_eq!(r.len(), 3);
    assert!(r[2].is_some() && r[2].unwrap() == 40);
    assert!(r[0].is_some() && r[0].unwrap() == 40);
    assert!(r[1].is_some() && r[1].unwrap() == 90);
}
