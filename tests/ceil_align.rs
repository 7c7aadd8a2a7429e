use vm_arena::ceil_align;

#[test]
fn correct_8() {
    assert_eq!(ceil_align(0, 8), 0);
    assert_eq!(ceil_align(1, 8), 8);
    assert_eq!(ceil_align(2, 8), 8);
    assert_eq!(ceil_align(3, 8), 8);
    assert_eq!(ceil_align(4, 8), 8);
    assert_eq!(ceil_align(5, 8), 8);
    assert_eq!(ceil_align(6, 8), 8);
    assert_eq!(ceil_align(7, 8), 8);
    assert_eq!(ceil_align(8, 8), 8);
    assert_eq!(ceil_align(9, 8), 16);
}

#[test]
fn correct_16() {
    assert_eq!(ceil_align(0, 16), 0);
    assert_eq!(ceil_align(1, 16), 16);
    assert_eq!(ceil_align(2, 16), 16);
    assert_eq!(ceil_align(3, 16), 16);
    assert_eq!(ceil_align(4, 16), 16);
    assert_eq!(ceil_align(5, 16), 16);
    assert_eq!(ceil_align(15, 16), 16);
    assert_eq!(ceil_align(16, 16), 16);
    assert_eq!(ceil_align(17, 16), 32);
    assert_eq!(ceil_align(18, 16), 32);
    assert_eq!(ceil_align(19, 16), 32);
}

#[test]
fn rounding_bounds_hold() {
    for a in [1usize, 2, 4, 8, 64, 4096] {
        for v in 0usize..300 {
            let r = ceil_align(v, a);
            assert!(r >= v);
            assert_eq!(r % a, 0);
            assert!(r - a < v || (r < a && v == 0));
            assert!(r < v + a);
        }
    }
}

#[test]
fn alignment_one_keeps_value() {
    assert_eq!(ceil_align(12345, 1), 12345);
    assert_eq!(ceil_align(4095, 4096), 4096);
    assert_eq!(ceil_align(4097, 4096), 8192);
}
