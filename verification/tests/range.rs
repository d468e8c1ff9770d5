use ecfft_group::group_polynomial::smallest_range;

#[test]
#[should_panic]
fn smallest_range_neg() {
    smallest_range(-1);
}

#[test]
fn smallest_range_0() {
    assert_eq!(Vec::<i32>::new(), smallest_range(0))
}

#[test]
fn smallest_range_1() {
    assert_eq!(vec![0], smallest_range(1))
}

#[test]
fn smallest_range_2() {
    assert_eq!(vec![0, 1], smallest_range(2))
}

#[test]
fn smallest_range_3() {
    assert_eq!(vec![-1, 0, 1], smallest_range(3))
}

#[test]
fn smallest_range_8() {
    assert_eq!(vec![-3, -2, -1, 0, 1, 2, 3, 4], smallest_range(8))
}
