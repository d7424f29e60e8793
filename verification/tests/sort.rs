use rand::Rng;
use rostl::primitives::traits::Cmov;
use rostl::sort::batcher::batcher_sort;
use rostl::sort::bitonic::{bitonic_payload_sort, bitonic_sort};
use rostl::sort::bose_nelson::bose_nelson_sort;
use rostl::sort::compaction::{compact, compact_goodrich, compact_payload, compute_prefix_sum, distribute_payload};
use rostl::sort::rotate::rotate_left;
use rostl::sort::shuffle::shuffle;

#[test]
fn test_batcher_sort() {
    for sz in 0..42 {
        let mut arr: Vec<u32> = (0..sz as u32).collect();
        for i in 0..sz {
            let j = rand::random::<u64>() as usize % sz;
            arr.swap(i, j);
        }
        batcher_sort(&mut arr);
        assert_eq!(arr.len(), sz);
        for (i, v) in arr.iter().enumerate() {
            assert_eq!(*v, i as u32);
        }
    }
}

#[test]
fn test_batcher_sort_large() {
    let mut arr: Vec<u32> = (0..1000).rev().collect();
    batcher_sort(&mut arr);
    assert_eq!(arr.len(), 1000);
    for (i, v) in arr.iter().enumerate() {
        assert_eq!(*v, i as u32);
    }

    let sz = rand::random::<u64>() as usize % 1000;
    let mut arr: Vec<u32> = (0..sz as u32).rev().collect();
    for i in 0..sz {
        let j = rand::random::<u64>() as usize % sz;
        arr.swap(i, j);
    }
    batcher_sort(&mut arr);
    assert_eq!(arr.len(), sz);
    for (i, v) in arr.iter().enumerate() {
        assert_eq!(*v, i as u32);
    }
}

#[test]
fn test_bitonic_sort() {
    for sz in 0..42 {
        let mut arr: Vec<u32> = (0..sz as u32).collect();
        for i in 0..sz {
            let j = rand::rng().random_range(0..sz);
            arr.swap(i, j);
        }
        bitonic_sort(&mut arr);
        assert_eq!(arr.len(), sz);
        for (i, v) in arr.iter().enumerate() {
            assert_eq!(*v, i as u32);
        }
    }
}

#[test]
fn test_bitonic_sort_large() {
    let mut arr: Vec<u32> = (0..1000).rev().collect();
    bitonic_sort(&mut arr);
    assert_eq!(arr.len(), 1000);
    for (i, v) in arr.iter().enumerate() {
        assert_eq!(*v, i as u32);
    }

    let sz = rand::rng().random_range(0..1000);
    let mut arr: Vec<u32> = (0..sz as u32).rev().collect();
    for i in 0..sz {
        let j = rand::rng().random_range(0..sz);
        arr.swap(i, j);
    }
    bitonic_sort(&mut arr);
    assert_eq!(arr.len(), sz);
    for (i, v) in arr.iter().enumerate() {
        assert_eq!(*v, i as u32);
    }
}

#[test]
fn test_bitonic_payload_sort() {
    for sz in 0..42 {
        let mut arr: Vec<u32> = (0..sz as u32).collect();
        let mut payload: Vec<u32> = (1000..1000 + sz as u32).collect();

        for i in 0..sz {
            let j = rand::rng().random_range(0..sz);
            arr.swap(i, j);
            payload.swap(i, j);
        }

        bitonic_payload_sort(&mut arr, &mut payload);

        assert_eq!(arr.len(), sz);
        assert_eq!(payload.len(), sz);
        for (i, v) in arr.iter().enumerate() {
            assert_eq!(*v, i as u32);
            assert_eq!(payload[i], 1000 + i as u32);
        }
    }
}

#[test]
fn test_bose_nelson_sort() {
    for sz in 0..42 {
        let mut arr: Vec<u32> = (0..sz as u32).collect();
        for i in 0..sz {
            let j = rand::random::<u64>() as usize % sz;
            arr.swap(i, j);
        }
        bose_nelson_sort(&mut arr);
        assert_eq!(arr.len(), sz);
        for (i, v) in arr.iter().enumerate() {
            assert_eq!(*v, i as u32);
        }
    }
}

#[test]
fn test_bose_nelson_sort_large() {
    let mut arr: Vec<u32> = (0..1000).rev().collect();
    bose_nelson_sort(&mut arr);
    assert_eq!(arr.len(), 1000);
    for (i, v) in arr.iter().enumerate() {
        assert_eq!(*v, i as u32);
    }

    let sz = rand::random::<u64>() as usize % 1000;
    let mut arr: Vec<u32> = (0..sz as u32).rev().collect();
    for i in 0..sz {
        let j = rand::random::<u64>() as usize % sz;
        arr.swap(i, j);
    }
    bose_nelson_sort(&mut arr);
    assert_eq!(arr.len(), sz);
    for (i, v) in arr.iter().enumerate() {
        assert_eq!(*v, i as u32);
    }
}

#[test]
fn test_compact() {
    let mut arr = [1, 2, 3, 4, 5];
    let new_len = compact(&mut arr, |x| *x % 2 == 0);
    assert_eq!(new_len, 3);
    assert_eq!(&arr[..new_len], &[1, 3, 5]);

    let mut arr = [1, 2, 3, 4, 5];
    compact_goodrich(&mut arr, |x| *x % 2 == 0);
    assert_eq!(&arr[..3], &[1, 3, 5]);
}

#[test]
fn test_small() {
    let mut arr: Vec<i32> = vec![1];
    let new_len = compact(&mut arr, |x| *x % 2 == 0);
    assert_eq!(new_len, 1);
    assert_eq!(&arr[..new_len], &[1]);
    let mut arr: Vec<i32> = vec![1];
    compact_goodrich(&mut arr, |x| *x % 2 == 0);
    assert_eq!(&arr[..1], &[1]);

    let mut arr: Vec<i32> = vec![2];
    let new_len = compact(&mut arr, |x| *x % 2 == 0);
    assert_eq!(new_len, 0);
    let empty: [i32; 0] = [];
    assert_eq!(&arr[..new_len], &empty);

    let mut arr: Vec<i32> = vec![1, 2];
    let new_len = compact(&mut arr, |x| *x % 2 == 0);
    assert_eq!(new_len, 1);
    assert_eq!(&arr[..new_len], &[1]);
    let mut arr: Vec<i32> = vec![1, 2];
    compact_goodrich(&mut arr, |x| *x % 2 == 0);
    assert_eq!(&arr[..1], &[1]);

    let mut arr: Vec<i32> = vec![];
    let new_len = compact(&mut arr, |x| *x % 2 == 0);
    assert_eq!(new_len, 0);
    assert_eq!(&arr[..new_len], &empty);
    let mut arr: Vec<i32> = vec![];
    compact_goodrich(&mut arr, |x| *x % 2 == 0);
    assert_eq!(&arr[..0], &empty);
}

#[test]
fn test_many_sizes() {
    let mut rng = rand::rng();
    for _i in 0..100 {
        let size = rng.random_range(0..2050);
        let arr: Vec<i32> = (0..size).map(|_| rng.random_range(0..100)).collect();
        let mut arr1 = arr.clone();
        let new_len = compact(&mut arr1, |x| *x % 2 == 0);
        for itm in arr1.iter().take(new_len) {
            assert!(itm % 2 != 0);
        }
        for itm in arr1.iter().skip(new_len) {
            assert!(itm % 2 == 0);
        }
        let mut arr2 = arr.clone();
        compact_goodrich(&mut arr2, |x| *x % 2 == 0);
        for itm in arr2.iter().take(new_len) {
            assert!(itm % 2 != 0);
        }
        for itm in arr2.iter().skip(new_len) {
            assert!(itm % 2 == 0);
        }
    }
}

#[test]
fn test_distribute() {
    let mut arr = [1, 3, 5, 0, 2, 4];
    let payload = [0, 1, 2, 3, 3, 4, 5];
    distribute_payload(&mut arr, &payload);
    assert_eq!(&arr, &[1, 3, 5, 4, 0, 2]);

    let mut arr = [1, 2, 3, 4, 5];
    let payload = [0, 1, 1, 2, 2, 3];
    compact_payload(&mut arr, &payload);
    assert_eq!(&arr[..3], &[1, 3, 5]);
    distribute_payload(&mut arr, &payload);
    assert_eq!(&arr, &[1, 2, 3, 4, 5]);
}

#[test]
fn test_distribute_after_compact_rands() {
    let mut rng = rand::rng();
    for _i in 0..100 {
        let size = rng.random_range(0..2050);
        let arr: Vec<i32> = (0..size).map(|_| rng.random_range(0..100)).collect();
        let mut arr1 = arr.clone();
        let mut payload = vec![0; size + 1];
        for i in 0..size {
            let mut adder = 1usize;
            adder.cmov(&0, arr[i] % 2 == 0);
            payload[i + 1] = payload[i] + adder;
        }
        compact_payload(&mut arr1, &payload);
        distribute_payload(&mut arr1, &payload);
        assert_eq!(&arr1, &arr);
    }
}

#[test]
fn test_rotate_left_basic() {
    let mut arr = [1, 2, 3, 4, 5];
    rotate_left(&mut arr, 2);
    assert_eq!(&arr, &[3, 4, 5, 1, 2]);

    let mut arr = [1, 2, 3, 4, 5];
    rotate_left(&mut arr, 5);
    assert_eq!(&arr, &[1, 2, 3, 4, 5]);

    let mut arr = [1];
    rotate_left(&mut arr, 1);
    assert_eq!(&arr, &[1]);
}

#[test]
fn test_rotate_left_edge() {
    let mut arr: [u8; 0] = [];
    rotate_left(&mut arr, 0);
    let empty: [u8; 0] = [];
    assert_eq!(&arr, &empty);

    let mut arr = [42];
    rotate_left(&mut arr, 0);
    assert_eq!(&arr, &[42]);
    rotate_left(&mut arr, 1);
    assert_eq!(&arr, &[42]);

    let mut arr = [1, 2];
    rotate_left(&mut arr, 0);
    assert_eq!(&arr, &[1, 2]);
    rotate_left(&mut arr, 1);
    assert_eq!(&arr, &[2, 1]);
    rotate_left(&mut arr, 2);
    assert_eq!(&arr, &[2, 1]);

    let mut arr = [1, 2, 3];
    rotate_left(&mut arr, 0);
    assert_eq!(&arr, &[1, 2, 3]);
    rotate_left(&mut arr, 1);
    assert_eq!(&arr, &[2, 3, 1]);
    rotate_left(&mut arr, 2);
    assert_eq!(&arr, &[1, 2, 3]);
    rotate_left(&mut arr, 3);
    assert_eq!(&arr, &[1, 2, 3]);
}

#[test]
fn test_rotate_left_random() {
    let mut rng = rand::rng();
    for _ in 0..100 {
        let size = rng.random_range(0..2050);
        let arr: Vec<i32> = (0..size).map(|_| rng.random_range(0..100)).collect();
        let mut arr1 = arr.clone();
        let k = if size == 0 { 0 } else { rng.random_range(0..size) };
        rotate_left(&mut arr1, k);
        let mut expected = Vec::with_capacity(size);
        if size > 0 {
            expected.extend_from_slice(&arr[k..]);
            expected.extend_from_slice(&arr[..k]);
        }
        assert_eq!(arr1, expected);
    }
}

#[test]
fn test_shuffle() {
    for sz in [100, 1000, 10000] {
        let mut arr: Vec<u32> = (0..sz as u32).collect();
        let mut mark = 0;
        println!("arr: {:?}", arr);
        shuffle(&mut arr);
        println!("arr: {:?}", arr);
        assert_eq!(arr.len(), sz);
        arr.sort();
        for (i, v) in arr.iter().enumerate() {
            if *v != i as u32 {
                mark = 1;
            }
            assert_eq!(mark, 0);
        }
    }
}

#[test]
fn prefix_sum_counts_real_elements() {
    let arr = [4, 7, 9, 10, 3, 8];
    let ps = compute_prefix_sum(&arr, |x: &i32| *x % 2 == 0);
    assert_eq!(ps, vec![0, 0, 1, 2, 2, 3, 3]);
}

#[test]
fn compaction_is_stable() {
    let mut arr = [10, 1, 20, 2, 30, 3, 40];
    let n = compact(&mut arr, |x: &i32| *x >= 10);
    assert_eq!(n, 3);
    assert_eq!(&arr[..3], &[1, 2, 3]);
    let mut sorted = arr.to_vec();
    sorted.sort();
    assert_eq!(sorted, vec![1, 2, 3, 10, 20, 30, 40]);
}

#[test]
fn rotate_then_rotate_back() {
    let orig: Vec<u64> = (0..37).collect();
    let mut arr = orig.clone();
    rotate_left(&mut arr, 11);
    assert_eq!(arr[0], 11);
    rotate_left(&mut arr, 37 - 11);
    assert_eq!(arr, orig);
}

#[test]
fn sorts_keep_duplicates() {
    let mut a = vec![3u32, 1, 3, 2, 1, 3];
    let mut b = a.clone();
    let mut c = a.clone();
    bitonic_sort(&mut a);
    batcher_sort(&mut b);
    bose_nelson_sort(&mut c);
    assert_eq!(a, vec![1, 1, 2, 3, 3, 3]);
    assert_eq!(b, a);
    assert_eq!(c, a);
}
