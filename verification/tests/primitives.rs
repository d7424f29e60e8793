use rostl::primitives::indexable::Length;
use rostl::primitives::ooption::OOption;
use rostl::primitives::traits::{cswap, Cmov, CswapIndex};
use rostl::primitives::utils::{
    get_smaller_or_equal_power_of_two, get_strictly_bigger_power_of_two, get_strictly_bigger_power_of_two_clz,
    get_strictly_bigger_power_of_two_loop, log2_of_pow2, max, min,
};
use rostl::shuffling::basic_shuffle::basic_shuffle;

#[test]
fn test_cmov() {
    for choice in &[false, true] {
        let mut a = 0u64;
        let b = 0x12345678u64;
        a.cmov(&b, *choice);
        assert_eq!(a, if *choice { b } else { 0 });

        let mut a = 0u32;
        let b = 0x12345678u32;
        a.cmov(&b, *choice);
        assert_eq!(a, if *choice { b } else { 0 });

        let mut a = 0u16;
        let b = 0x1234u16;
        a.cmov(&b, *choice);
        assert_eq!(a, if *choice { b } else { 0 });

        let mut a = 0u8;
        let b = 0x12u8;
        a.cmov(&b, *choice);
        assert_eq!(a, if *choice { b } else { 0 });
    }
}

#[test]
fn test_np2() {
    assert_eq!(get_strictly_bigger_power_of_two(0), 1);
    assert_eq!(get_strictly_bigger_power_of_two(1), 2);
    assert_eq!(get_strictly_bigger_power_of_two(2), 4);
    assert_eq!(get_strictly_bigger_power_of_two(3), 4);
    assert_eq!(get_strictly_bigger_power_of_two(4), 8);
    assert_eq!(get_strictly_bigger_power_of_two(5), 8);
    assert_eq!(get_strictly_bigger_power_of_two(6), 8);
    assert_eq!(get_strictly_bigger_power_of_two(7), 8);
    assert_eq!(get_strictly_bigger_power_of_two(8), 16);
    assert_eq!(get_strictly_bigger_power_of_two(9), 16);
    assert_eq!(get_strictly_bigger_power_of_two(15), 16);
    assert_eq!(get_strictly_bigger_power_of_two(16), 32);
}

#[test]
fn test_basic_shuffle() {
    for sz in [100, 1000, 10000] {
        let mut arr: Vec<u32> = (0..sz as u32).collect();
        let mut mark = 0;
        println!("arr: {:?}", arr);
        basic_shuffle(&mut arr);
        println!("arr: {:?}", arr);
        assert_eq!(arr.len(), sz);
        for (i, v) in arr.iter().enumerate() {
            if *v != i as u32 {
                mark = 1;
            }
            assert_eq!(mark, 1);
        }
    }
}

#[test]
fn cmov_on_signed_and_wide_types() {
    let mut a = -5i64;
    a.cmov(&7, true);
    assert_eq!(a, 7);
    a.cmov(&9, false);
    assert_eq!(a, 7);
    let mut b = 1u128 << 100;
    b.cmov(&3, true);
    assert_eq!(b, 3);
    let mut c = -1i8;
    c.cmov(&100, true);
    assert_eq!(c, 100);
    let mut d = false;
    d.cmov(&true, true);
    assert!(d);
}

#[test]
fn cxchg_and_cset() {
    let mut a = 1u32;
    let mut b = 2u32;
    a.cxchg(&mut b, false);
    assert_eq!((a, b), (1, 2));
    a.cxchg(&mut b, true);
    assert_eq!((a, b), (2, 1));
    let mut c = 0usize;
    c.cset(&10, &20, true);
    assert_eq!(c, 20);
    c.cset(&10, &20, false);
    assert_eq!(c, 10);
    let mut x = 4i32;
    let mut y = 5i32;
    cswap(&mut x, &mut y, true);
    assert_eq!((x, y), (5, 4));
    cswap(&mut x, &mut y, false);
    assert_eq!((x, y), (5, 4));
}

#[test]
fn cswap_index_on_slices_and_vecs() {
    let mut v = vec![1u8, 2, 3];
    v.cswap(0, 2, true);
    assert_eq!(v, vec![3, 2, 1]);
    v.cswap(0, 1, false);
    assert_eq!(v, vec![3, 2, 1]);
    assert_eq!(Length::len(&v), 3);
}

#[test]
fn ooption_behaviour() {
    let some = OOption::new(5u64, true);
    let none = OOption::new(9u64, false);
    assert!(some.is_some());
    assert!(!none.is_some());
    assert_eq!(some.unwrap(), 5);
    assert_eq!(some.unwrap_or_default(), 5);
    assert_eq!(none.unwrap_or_default(), 0);
    let mut o = none;
    o.cmov(&some, true);
    assert_eq!(o, some);
}

#[test]
fn power_of_two_helpers() {
    for n in 0..200usize {
        let a = get_strictly_bigger_power_of_two(n);
        assert_eq!(get_strictly_bigger_power_of_two_clz(n), a);
        assert_eq!(get_strictly_bigger_power_of_two_loop(n), a);
        assert!(a > n && a.is_power_of_two() && a / 2 <= n);
    }
    assert_eq!(get_strictly_bigger_power_of_two(usize::MAX), usize::MAX);
    assert_eq!(get_smaller_or_equal_power_of_two(1), 1);
    assert_eq!(get_smaller_or_equal_power_of_two(12), 8);
    assert_eq!(get_smaller_or_equal_power_of_two(16), 16);
    assert_eq!(get_smaller_or_equal_power_of_two(17), 16);
    assert_eq!(log2_of_pow2(1), 0);
    assert_eq!(log2_of_pow2(64), 6);
    assert_eq!(max(3, 7), 7);
    assert_eq!(min(3, 7), 3);
}
