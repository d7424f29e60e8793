use rand::{rng, Rng};
use rostl::oram::circuit_oram::{remove_element, reverse_bits, write_block_to_empty_slot, Block, CircuitORAM, S};
use rostl::oram::heap_tree::HeapTree;
use rostl::oram::linear_oram::{oblivious_memcpy, oblivious_read_index, oblivious_read_update_index, oblivious_write_index, LinearORAM};
use rostl::oram::prelude::{PositionType, DUMMY_POS, K};
use rostl::oram::recursive_oram::{RecursivePositionMap, FAN_OUT, LINEAR_MAP_SIZE};

fn assert_empty_stash(oram: &CircuitORAM<u64>) {
    for elem in &oram.stash[..S] {
        assert!(elem.is_empty());
    }
}

fn print_oram(oram: &CircuitORAM<u64>) {
    println!("self.h: {}", oram.h);
    println!("Stash: {:?}", oram.stash);
    for i in 0..oram.h {
        let mut line = format!("Level {}: ", i);
        for j in 0..(1usize << i) {
            let w_j = reverse_bits(j, i);
            line += &format!(
                "{:?} ",
                oram.tree.get_path_at_depth(i, reverse_bits(w_j * (1 << (oram.h - 1 - i)), oram.h - 1) as PositionType)
            );
        }
        println!("{}", line);
    }
}

#[test]
fn test_print_for_debug() {
    let mut oram = CircuitORAM::<u64>::new(4);
    oram.perform_deterministic_evictions();
    assert_empty_stash(&oram);
    print_oram(&oram);
    oram.write_or_insert(0, 0, 0, 0);
    print_oram(&oram);
    oram.write_or_insert(0, 1, 1, 1);
    print_oram(&oram);
    oram.write_or_insert(0, 2, 2, 2);
    print_oram(&oram);
    oram.write_or_insert(0, 3, 3, 3);
    print_oram(&oram);
    oram.perform_deterministic_evictions();
    print_oram(&oram);
    oram.write_or_insert(0, 0, 4, 0);
    print_oram(&oram);
    oram.write_or_insert(0, 1, 5, 1);
    print_oram(&oram);
    oram.write_or_insert(0, 2, 6, 2);
    print_oram(&oram);
    oram.write_or_insert(0, 3, 7, 3);
    print_oram(&oram);
    oram.perform_deterministic_evictions();
    print_oram(&oram);
    oram.write_or_insert(0, 0, 10, 0);
    print_oram(&oram);
    oram.write_or_insert(0, 1, 11, 1);
    print_oram(&oram);
    oram.write_or_insert(0, 2, 12, 2);
    print_oram(&oram);
    oram.write_or_insert(0, 3, 13, 3);
    print_oram(&oram);
    oram.perform_deterministic_evictions();
    print_oram(&oram);
    oram.write_or_insert(0, 0, 20, 0);
    print_oram(&oram);
    oram.write_or_insert(0, 1, 21, 1);
    print_oram(&oram);
    oram.write_or_insert(0, 2, 22, 2);
    print_oram(&oram);
    oram.write_or_insert(0, 3, 23, 3);
    print_oram(&oram);
    oram.perform_deterministic_evictions();
    oram.perform_deterministic_evictions();
    oram.perform_deterministic_evictions();
    oram.perform_deterministic_evictions();
    oram.perform_deterministic_evictions();
    print_oram(&oram);
}

#[test]
fn test_circuitoram_simple() {
    let mut oram = CircuitORAM::<u64>::new(16);
    oram.perform_deterministic_evictions();
    assert_empty_stash(&oram);

    oram.write_or_insert(0, 0, 1, 1);
    assert_empty_stash(&oram);

    let mut v = 0;
    let found = oram.read(0, 0, 1, &mut v);
    assert!(found);
    assert_eq!(v, 1);
    assert_empty_stash(&oram);
    print_oram(&oram);

    oram.write_or_insert(0, 0, 2, 2);
    assert_empty_stash(&oram);
    let found = oram.read(0, 0, 2, &mut v);
    assert!(found);
    assert_eq!(v, 2);
    assert_empty_stash(&oram);
    print_oram(&oram);

    let found = oram.read(0, 0, 3, &mut v);
    assert!(!found);
    assert_empty_stash(&oram);
    print_oram(&oram);

    oram.write_or_insert(0, 0, 1, 3);
    let found = oram.read(0, 0, 1, &mut v);
    assert!(found);
    assert_eq!(v, 3);
}

#[test]
fn test_circuitoram_simple_2() {
    const TOTAL_KEYS: usize = 8;
    let mut oram = CircuitORAM::<u64>::new(TOTAL_KEYS);
    let mut val = 0;
    let found = oram.write_or_insert(0, 4, 0, 123);
    print_oram(&oram);
    assert!(!found);
    let found = oram.read(4, 7, 0, &mut val);
    print_oram(&oram);
    assert!(found);
    assert_eq!(val, 123);
}

fn test_circuitoram_repetitive_generic<const TOTAL_KEYS: PositionType>() {
    let mut oram = CircuitORAM::<u64>::new(TOTAL_KEYS as usize);
    let mut pmap = vec![0; TOTAL_KEYS as usize];
    let mut vals = vec![0; TOTAL_KEYS as usize];
    let mut used = vec![false; TOTAL_KEYS as usize];
    let mut rng = rng();

    for _ in 0..2_000 {
        let new_pos = rng.random_range(0..TOTAL_KEYS);
        let key = 0;
        rng.random_range(0..TOTAL_KEYS);
        let val = rng.random::<u64>();
        let op = rng.random_range(0..3);
        if op == 0 {
            let mut v = 0;
            let found = oram.read(pmap[key], new_pos, key as K, &mut v);
            assert_eq!(found, used[key]);
            if used[key] {
                assert_eq!(v, vals[key]);
            }
        } else if op == 1 {
            let found = oram.write(pmap[key], new_pos, key as K, val);
            assert_eq!(found, used[key]);
            vals[key] = val;
        } else if op == 2 {
            let found = oram.write_or_insert(pmap[key], new_pos, key as K, val);
            assert_eq!(found, used[key]);
            used[key] = true;
            vals[key] = val;
        } else if op == 3 {
            let found = oram.update(pmap[key], new_pos, key as K, |v| {
                *v = val;
                *v
            });
            assert_eq!(found.0, used[key]);
            if used[key] {
                assert_eq!(found.1, vals[key]);
            }
            used[key] = true;
            vals[key] = val;
        }

        pmap[key] = new_pos;
    }
}

#[test]
fn test_circuitoram_repetitive() {
    test_circuitoram_repetitive_generic::<8>();
    test_circuitoram_repetitive_generic::<16>();
    test_circuitoram_repetitive_generic::<1024>();
}

fn print_depth_pos_index(height: usize, depth: usize, path: PositionType) {
    assert!(depth < height);
    let level_offset = (1 << depth) - 1;
    let mask = level_offset as PositionType;
    let _ret = level_offset + (path & mask) as usize;
}

#[test]
fn print_heap_tree_info() {
    for depth in 0..3 {
        for path in 0..4 {
            print_depth_pos_index(3, depth, path);
        }
    }
}

#[test]
fn test_read() {
    let default = 0;
    let index = 3;
    let oram = LinearORAM::<u32>::new(10);
    let mut ret = 0;
    oram.read(index, &mut ret);
    assert_eq!(ret, default);
}

#[test]
fn test_write() {
    let default = 0;
    let new_value = 25;
    let index = 3;
    let mut oram = LinearORAM::<u32>::new(10);
    oram.write(index, new_value);
    let mut ret = default;
    oram.read(index, &mut ret);
    assert_eq!(ret, new_value);
}

#[test]
fn test_oblivious_memcpy() {
    let src = vec![1u8, 2, 3, 4, 5, 6, 7, 8, 9, 10];
    let mut dst = vec![0u8; 5];

    oblivious_memcpy(&mut dst, &src, 0);
    assert_eq!(dst, vec![1, 2, 3, 4, 5]);
    oblivious_memcpy(&mut dst, &src, 1);
    assert_eq!(dst, vec![2, 3, 4, 5, 6]);
    oblivious_memcpy(&mut dst, &src, 2);
    assert_eq!(dst, vec![3, 4, 5, 6, 7]);
    oblivious_memcpy(&mut dst, &src, 3);
    assert_eq!(dst, vec![4, 5, 6, 7, 8]);
    oblivious_memcpy(&mut dst, &src, 4);
    assert_eq!(dst, vec![5, 6, 7, 8, 9]);
    oblivious_memcpy(&mut dst, &src, 5);
    assert_eq!(dst, vec![6, 7, 8, 9, 10]);
    oblivious_memcpy(&mut dst, &src, 6);
    assert_eq!(dst[..4], vec![7, 8, 9, 10]);
    oblivious_memcpy(&mut dst, &src, 7);
    assert_eq!(dst[..3], vec![8, 9, 10]);
    oblivious_memcpy(&mut dst, &src, 8);
    assert_eq!(dst[..2], vec![9, 10]);
    oblivious_memcpy(&mut dst, &src, 9);
    assert_eq!(dst[..1], vec![10]);
    oblivious_memcpy(&mut dst, &src, 10);
}

fn print_position_map(pos_map: &RecursivePositionMap) {
    println!("Linear ORAM:");
    println!("{:?}", pos_map.linear_oram.data);
    for i in 0..pos_map.h {
        println!("Level {} ORAM:", i);
        println!("{:?}", pos_map.recursive_orams[i].stash);
    }
}

#[test]
fn test_recursive_position_map_small() {
    let n = LINEAR_MAP_SIZE / 2 + 1;
    let mut pos_map = RecursivePositionMap::new(n);
    assert_eq!(pos_map.h, 0);
    assert_eq!(pos_map.linear_oram.data.len(), n);
    for i in 0..n {
        pos_map.access_position(i, i as PositionType);
    }
    for i in 0..n {
        assert_eq!(pos_map.access_position(i, i as PositionType), i);
    }
}

#[test]
fn test_recursive_position_map_onelevel() {
    let n = LINEAR_MAP_SIZE * FAN_OUT;
    let mut pos_map = RecursivePositionMap::new(n);
    assert_eq!(pos_map.h, 1);
    assert_eq!(pos_map.linear_oram.data.len(), LINEAR_MAP_SIZE);
    print_position_map(&pos_map);
    for i in 0..n {
        pos_map.access_position(i, i as PositionType);
    }
    for i in 0..n {
        assert_eq!(pos_map.access_position(i, i as PositionType), i);
    }
}

fn test_recursive_position_generic<const TOTAL_KEYS: usize>() {
    let mut pos_map = RecursivePositionMap::new(TOTAL_KEYS);
    let mut rng = rng();
    let mut pmap = vec![0; TOTAL_KEYS];
    let mut used = vec![false; TOTAL_KEYS];

    for _i in 0..2_000 {
        let k = rng.random_range(0..TOTAL_KEYS);
        let new_pos = rng.random_range(0..TOTAL_KEYS as PositionType);
        let old_pos = pos_map.access_position(k, new_pos);
        if used[k] {
            assert_eq!(pmap[k], old_pos);
        }
        pmap[k] = new_pos;
        used[k] = true;
    }
}

#[test]
fn test_recursive_position_map() {
    const TOTAL_KEYS_0: usize = LINEAR_MAP_SIZE / 2 + 1;
    test_recursive_position_generic::<TOTAL_KEYS_0>();
    test_recursive_position_generic::<LINEAR_MAP_SIZE>();
    const TOTAL_KEYS_1: usize = LINEAR_MAP_SIZE * FAN_OUT;
    test_recursive_position_generic::<TOTAL_KEYS_1>();
    const TOTAL_KEYS_2: usize = LINEAR_MAP_SIZE * FAN_OUT * FAN_OUT;
    test_recursive_position_generic::<TOTAL_KEYS_2>();
}

#[test]
fn oram_rounds_capacity_to_power_of_two() {
    let oram = CircuitORAM::<u64>::new(5);
    assert_eq!(oram.max_n, 8);
    assert_eq!(oram.h, 4);
    let oram = CircuitORAM::<u64>::new(8);
    assert_eq!(oram.max_n, 8);
    assert_eq!(oram.stash.len(), S + 4 * 2);
}

#[test]
fn oram_write_only_updates_present_keys() {
    let mut oram = CircuitORAM::<u64>::new(16);
    assert!(!oram.write(3, 5, 7, 70));
    let mut v = 1;
    assert!(!oram.read(5, 5, 7, &mut v));
    assert_eq!(v, 1);
    assert!(!oram.write_or_insert(3, 5, 7, 70));
    assert!(oram.write(5, 9, 7, 71));
    assert!(oram.read(9, 2, 7, &mut v));
    assert_eq!(v, 71);
    let r = oram.update(2, 4, 7, |x| {
        *x += 1;
        *x
    });
    assert_eq!(r, (true, 72));
}

#[test]
fn oram_with_initial_values() {
    let keys = [0usize, 1, 2];
    let values = [10u64, 11, 12];
    let positions = [1usize, 2, 3];
    let mut oram = CircuitORAM::new_with_positions_and_values(4, &keys, &values, &positions);
    for i in 0..3 {
        let mut v = 0;
        assert!(oram.read(positions[i], 0, keys[i], &mut v));
        assert_eq!(v, values[i]);
    }
}

#[test]
fn block_helpers() {
    let mut arr = [Block::<u64>::default(); 4];
    assert!(arr.iter().all(|b| b.is_empty() && b.pos == DUMMY_POS));
    let b = Block { pos: 2, key: 9, value: 90u64 };
    assert!(write_block_to_empty_slot(&mut arr, &b));
    assert_eq!(arr[0].key, 9);
    assert!(remove_element(&mut arr, 9));
    assert!(arr[0].is_empty());
    assert!(!remove_element(&mut arr, 9));
    assert_eq!(reverse_bits(0b0011, 4), 0b1100);
    assert_eq!(reverse_bits(1, 1), 1);
}

#[test]
fn heap_tree_layout() {
    let mut t = HeapTree::<u32>::new(3);
    assert_eq!(t.tree.len(), 7);
    assert_eq!(t.get_index(0, 5), 0);
    assert_eq!(t.get_index(1, 0), 1);
    assert_eq!(t.get_index(1, 1), 2);
    assert_eq!(t.get_index(2, 2), 5);
    assert_eq!(t.get_index(2, 1), 4);
    *t.get_path_at_depth_mut(2, 3) = 33;
    assert_eq!(*t.get_node_by_index(6), 33);
    assert_eq!(*t.get_the_other_child(1, 1), 33);
    assert!(t.is_leaf(3));
    assert!(!t.is_leaf(2));
}

#[test]
fn linear_scans() {
    let mut data = [5u32, 6, 7];
    let mut out = 0;
    oblivious_read_index(&data, 1, &mut out);
    assert_eq!(out, 6);
    oblivious_write_index(&mut data, 2, 70);
    assert_eq!(data, [5, 6, 70]);
    oblivious_read_update_index(&mut data, 0, &mut out, 50);
    assert_eq!(out, 5);
    assert_eq!(data, [50, 6, 70]);
    let mut l = LinearORAM::<u64>::new(4);
    let mut r = 0;
    l.read_update(1, 8, &mut r);
    assert_eq!(r, 0);
    l.read(1, &mut r);
    assert_eq!(r, 8);
}

#[test]
fn reverse_bits_of_a_full_word() {
    assert_eq!(reverse_bits(1, usize::BITS as usize), 1usize << (usize::BITS - 1));
    assert_eq!(reverse_bits(usize::MAX, usize::BITS as usize), usize::MAX);
}

#[test]
fn evict_once_fast_moves_a_stash_block_down() {
    let mut oram = CircuitORAM::<u64>::new(4);
    let pos: PositionType = 1;
    oram.read_path_and_get_nodes(pos);
    // A block in the stash proper mapped to the path being evicted.
    oram.stash[3] = Block { pos, key: 9, value: 99 };
    let live_before = oram.stash.iter().filter(|b| !b.is_empty()).count();
    oram.evict_once_fast(pos);
    assert!(oram.stash[3].is_empty());
    assert!(oram.stash[..S].iter().all(|b| b.is_empty()));
    let live_after = oram.stash.iter().filter(|b| !b.is_empty()).count();
    assert_eq!(live_before, live_after);
    let moved = oram.stash[S..].iter().filter(|b| !b.is_empty() && b.key == 9 && b.value == 99).count();
    assert_eq!(moved, 1);
}
