use analytic::interval::traits::{Coalesce, CoalesceIntervals};
use analytic::set::contiguous_integer_set::ContiguousIntegerSet;
use analytic::set::ordered_integer_set::OrderedIntegerSet;
use analytic::set::traits::{Intersect, Refineable};
use analytic::traits::{Collecting, Slicing, ToIterator};

fn cis(a: i64, b: i64) -> ContiguousIntegerSet {
    ContiguousIntegerSet::new(a, b)
}

fn ois(slice: &[[i64; 2]]) -> OrderedIntegerSet {
    OrderedIntegerSet::from_slice(slice)
}

#[test]
fn test_ord() {
    fn expect_le(a: i64, b: i64, c: i64, d: i64) {
        assert!(cis(a, b) < cis(c, d));
    }
    fn expect_ge(a: i64, b: i64, c: i64, d: i64) {
        assert!(cis(a, b) > cis(c, d));
    }
    expect_le(2, 5, 3, 4);
    expect_le(2, 5, 3, 5);
    expect_le(2, 5, 3, 8);
    expect_le(2, 3, 4, 5);
    expect_le(2, 5, 2, 8);
    expect_ge(2, 5, 2, 4);
    expect_ge(2, 5, 1, 8);
    expect_ge(2, 5, 1, 5);
    expect_ge(2, 5, 1, 3);
    assert_eq!(cis(2, 2), cis(2, 2));
}

#[test]
fn test_intersect() {
    let s1 = cis(2, 5);
    let s2 = cis(2, 2);
    let s3 = cis(4, 8);
    let s4 = cis(-3, -1);
    assert_eq!(s1.intersect(&s2), Some(cis(2, 2)));
    assert_eq!(s1.intersect(&s3), Some(cis(4, 5)));
    assert_eq!(s1.intersect(&s4), None);
    assert!(s1.has_non_empty_intersection_with(&s2));
    assert!(s1.has_non_empty_intersection_with(&s3));
    assert!(!s1.has_non_empty_intersection_with(&s4));
}

#[test]
fn test_is_subset_of() {
    fn check(a: i64, b: i64, c: i64, d: i64, is_subset: bool, is_strict_subset: bool) {
        let s1 = cis(a, b);
        let s2 = cis(c, d);
        assert_eq!(s1.is_subset_of(&s2), is_subset);
        assert_eq!(s1.is_strict_subset_of(&s2), is_strict_subset);
    }
    // signs - - - -
    check(-10, -5, -20, -25, false, false);
    check(-10, -5, -25, -20, false, false);
    check(-10, -5, -25, -10, false, false);
    check(-10, -5, -25, -7, false, false);
    check(-10, -5, -10, -10, false, false);
    check(-10, -5, -10, -7, false, false);
    check(-10, -5, -8, -7, false, false);
    check(-10, -5, -8, -5, false, false);
    check(-10, -5, -8, -1, false, false);
    check(-10, -5, -5, -1, false, false);
    check(-10, -5, -2, -1, false, false);
    check(-10, -5, -25, -5, true, true);
    check(-10, -5, -25, -1, true, true);
    check(-10, -5, -10, -5, true, false);
    check(-10, -5, -10, -2, true, true);
    // the empty set is a subset of any set
    check(-5, -10, -20, -25, true, false);
    check(-5, -10, -25, -20, true, true);
    check(-5, -10, -25, -2, true, true);
    check(-5, -10, -10, -2, true, true);
    check(-5, -10, -2, -1, true, true);
    // signs - - - +
    check(-15, -5, -10, 0, false, false);
    check(-15, -5, -5, 0, false, false);
    check(-15, -5, -2, 0, false, false);
    check(-15, -5, 0, 0, false, false);
    check(-15, -5, -10, 1, false, false);
    check(-15, -5, -5, 1, false, false);
    check(-15, -5, -2, 1, false, false);
    check(-15, -5, 0, 1, false, false);
    check(-15, -5, -20, 0, true, true);
    check(-15, -5, -15, 0, true, true);
    check(-15, -5, -20, 4, true, true);
    check(-15, -5, -15, 4, true, true);
    check(-10, -15, -20, 0, true, true);
    check(-10, -20, -20, 0, true, true);
    check(-10, -25, -20, 0, true, true);
    check(-20, -30, -20, 0, true, true);
    check(-25, -30, -20, 0, true, true);
    // signs - - + -
    check(-20, -10, 1, -1, false, false);
    check(-20, -10, 1, -15, false, false);
    check(-20, -10, 1, -10, false, false);
    check(-20, -10, 1, -20, false, false);
    check(-20, -10, 1, -25, false, false);
    check(-20, -10, 0, -1, false, false);
    check(-20, -10, 0, -15, false, false);
    check(-20, -10, 0, -10, false, false);
    check(-20, -10, 0, -20, false, false);
    check(-20, -10, 0, -25, false, false);
    check(-10, -20, 1, -1, true, false);
    check(-10, -20, 1, -15, true, false);
    check(-10, -20, 1, -10, true, false);
    check(-10, -20, 1, -20, true, false);
    check(-10, -20, 1, -25, true, false);
    check(-10, -20, 0, -1, true, false);
    check(-10, -20, 0, -15, true, false);
    check(-10, -20, 0, -10, true, false);
    check(-10, -20, 0, -20, true, false);
    check(-10, -20, 0, -25, true, false);
    // signs - - + +
    check(-20, -10, 0, 0, false, false);
    check(-20, -10, 0, 1, false, false);
    check(-20, -10, 1, 1, false, false);
    check(-20, -10, 3, 5, false, false);
    check(-10, -20, 1, 1, true, true);
    check(-10, -20, 1, 2, true, true);
    check(-10, -20, 2, 1, true, false);
    // signs - + - -
    check(-20, 0, -40, -30, false, false);
    check(-20, 0, -40, -20, false, false);
    check(-20, 0, -40, -10, false, false);
    check(-20, 0, -20, -20, false, false);
    check(-20, 0, -20, -10, false, false);
    check(-20, 0, -11, -10, false, false);
    check(-20, 0, -10, -10, false, false);
    check(-20, 3, -40, -30, false, false);
    check(-20, 2, -40, -20, false, false);
    check(-20, 1, -40, -10, false, false);
    check(-20, 3, -20, -20, false, false);
    check(-20, 2, -20, -10, false, false);
    check(-20, 1, -11, -10, false, false);
    check(-20, 3, -10, -10, false, false);
    check(-20, 3, -10, -12, false, false);
    check(-20, 0, -10, -20, false, false);
    check(-20, 2, -10, -25, false, false);
    check(-20, 0, -20, -25, false, false);
    check(-20, 1, -21, -25, false, false);
    // signs - + - +
    check(-20, 0, -19, 0, false, false);
    check(-20, 0, -19, 1, false, false);
    check(-20, 1, -19, 0, false, false);
    check(-20, 1, -19, 1, false, false);
    check(-20, 1, -20, 0, false, false);
    check(-20, 2, -20, 1, false, false);
    check(-20, 1, -21, 0, false, false);
    check(-20, 2, -22, 1, false, false);
    check(-20, 0, -20, 0, true, false);
    check(-20, 0, -20, 1, true, true);
    check(-20, 1, -20, 1, true, false);
    check(-20, 0, -100, 0, true, true);
    check(-20, 0, -100, 1, true, true);
    check(-20, 1, -100, 1, true, true);
    // signs - + + -
    check(-20, 10, 10, -20, false, false);
    check(-20, 10, 10, -22, false, false);
    check(-20, 10, 10, -18, false, false);
    check(-20, 10, 8, -20, false, false);
    check(-20, 10, 8, -22, false, false);
    check(-20, 10, 8, -18, false, false);
    check(-20, 10, 12, -20, false, false);
    check(-20, 10, 12, -22, false, false);
    check(-20, 10, 12, -18, false, false);
    // signs - + + +
    check(-20, 0, 10, 20, false, false);
    check(-20, 0, 15, 20, false, false);
    check(-20, 0, 0, 20, false, false);
    check(-20, 10, 10, 20, false, false);
    check(-20, 10, 15, 20, false, false);
    check(-20, 10, 0, 20, false, false);
    // signs + - - -
    check(10, -20, -10, -10, true, true);
    check(0, -20, -20, -10, true, true);
    check(10, -20, -20, -20, true, true);
    check(0, -20, -30, -20, true, true);
    check(10, -20, -30, -30, true, true);
    // signs + - - +
    check(10, -20, -18, 10, true, true);
    check(10, -20, -20, 10, true, true);
    check(10, -20, -22, 10, true, true);
    check(10, -20, -18, 12, true, true);
    check(10, -20, -20, 12, true, true);
    check(10, -20, -22, 12, true, true);
    check(10, -20, -18, 8, true, true);
    check(10, -20, -20, 8, true, true);
    check(10, -20, -22, 8, true, true);
    // signs + - + -
    check(10, -20, 10, -18, true, false);
    check(10, -20, 10, -20, true, false);
    check(10, -20, 10, -22, true, false);
    check(10, -20, 12, -18, true, false);
    check(10, -20, 12, -20, true, false);
    check(10, -20, 12, -22, true, false);
    check(10, -20, 8, -18, true, false);
    check(10, -20, 8, -20, true, false);
    check(10, -20, 8, -22, true, false);
    // signs + - + +
    check(10, -20, 0, 8, true, true);
    check(10, -20, 0, 10, true, true);
    check(10, -20, 0, 12, true, true);
    check(10, -20, 4, 8, true, true);
    check(10, -20, 4, 10, true, true);
    check(10, -20, 4, 12, true, true);
    // signs + + - -
    check(0, 20, -10, -20, false, false);
    check(10, 20, -10, -20, false, false);
    check(20, 10, -20, -10, true, true);
    check(20, 10, -10, -20, true, false);
    // signs + + - +
    check(10, 20, -10, 0, false, false);
    check(10, 20, -10, 5, false, false);
    check(10, 20, -10, 10, false, false);
    check(0, 20, -10, 0, false, false);
    check(0, 20, -10, 5, false, false);
    check(0, 20, -10, 10, false, false);
    check(10, 20, -10, 20, true, true);
    check(10, 20, -10, 25, true, true);
    check(0, 20, -10, 20, true, true);
    check(0, 20, -10, 25, true, true);
    check(20, 10, -10, 0, true, true);
    check(20, 10, -10, 25, true, true);
    // signs + + + -
    check(10, 20, 0, -10, false, false);
    check(10, 20, 5, -10, false, false);
    check(10, 20, 10, -10, false, false);
    check(10, 20, 20, -10, false, false);
    check(10, 20, 25, -10, false, false);
    check(0, 20, 0, -10, false, false);
    check(0, 20, 5, -10, false, false);
    check(0, 20, 10, -10, false, false);
    check(0, 20, 20, -10, false, false);
    check(0, 20, 25, -10, false, false);
    // signs + + + +
    check(0, 10, 0, 0, false, false);
    check(0, 10, 0, 5, false, false);
    check(0, 10, 0, 10, true, false);
    check(0, 10, 0, 15, true, true);
    check(0, 10, 5, 5, false, false);
    check(0, 10, 5, 10, false, false);
    check(0, 10, 5, 15, false, false);
    check(0, 10, 10, 10, false, false);
    check(0, 10, 10, 11, false, false);
    check(0, 10, 15, 15, false, false);
    check(0, 10, 15, 20, false, false);
    check(5, 10, 0, 0, false, false);
    check(5, 10, 0, 2, false, false);
    check(5, 10, 0, 5, false, false);
    check(5, 10, 0, 7, false, false);
    check(5, 10, 0, 10, true, true);
    check(5, 10, 0, 15, true, true);
    check(5, 10, 2, 2, false, false);
    check(5, 10, 2, 5, false, false);
    check(5, 10, 2, 7, false, false);
    check(5, 10, 2, 10, true, true);
    check(5, 10, 2, 15, true, true);
    check(5, 10, 5, 5, false, false);
    check(5, 10, 5, 7, false, false);
    check(5, 10, 5, 10, true, false);
    check(5, 10, 5, 15, true, true);
    check(5, 10, 8, 8, false, false);
    check(5, 10, 8, 9, false, false);
    check(5, 10, 8, 10, false, false);
    check(5, 10, 8, 12, false, false);
    check(5, 10, 10, 10, false, false);
    check(5, 10, 10, 15, false, false);
    check(5, 10, 15, 15, false, false);
    check(5, 10, 15, 16, false, false);
    check(10, 0, 0, 8, true, true);
    check(10, 0, 0, 10, true, true);
    check(10, 0, 0, 12, true, true);
    check(10, 0, 1, 8, true, true);
    check(10, 0, 1, 10, true, true);
    check(10, 0, 1, 12, true, true);
    check(10, 2, 0, 8, true, true);
    check(10, 2, 0, 10, true, true);
    check(10, 2, 0, 12, true, true);
    check(10, 2, 1, 8, true, true);
    check(10, 2, 1, 10, true, true);
    check(10, 2, 1, 12, true, true);
    check(10, 0, 10, 0, true, false);
    check(10, 0, 10, 2, true, false);
    check(10, 2, 10, 0, true, false);
    check(10, 2, 10, 2, true, false);
    check(10, 2, 10, 4, true, false);
}

#[test]
fn test_to_coalesced_intervals() {
    let intervals = vec![cis(2, 4), cis(1, 1), cis(-10, -5), cis(4, 5), cis(9, 10), cis(-1, 3)];
    let sorted_intervals = intervals.to_coalesced_intervals();
    assert_eq!(sorted_intervals, vec![cis(-10, -5), cis(-1, 5), cis(9, 10)]);
}

#[test]
fn test_integer_set_collect() {
    let mut set = OrderedIntegerSet::new();
    set.collect(1);
    set.collect(4);
    set.collect(5);
    set.collect(7);
    set.collect(8);
    set.collect(9);
    assert_eq!(set.into_intervals(), vec![cis(1, 1), cis(4, 5), cis(7, 9)]);

    let mut set = ois(&[[1, 3], [5, 7], [15, 20]]);
    set.collect(-5);
    set.collect(-1);
    set.collect(0);
    set.collect(-10);
    set.collect(4);
    set.collect(10);
    set.collect(12);
    set.collect(13);
    assert_eq!(
        set.intervals,
        vec![cis(-10, -10), cis(-5, -5), cis(-1, 7), cis(10, 10), cis(12, 13), cis(15, 20)]
    );
}

#[test]
fn test_coalesce_with() {
    fn check(a: i64, b: i64, c: i64, d: i64, expected: Option<ContiguousIntegerSet>) {
        let i1 = cis(a, b);
        let i2 = cis(c, d);
        let m1 = i1.coalesce_with(&i2);
        let m2 = i2.coalesce_with(&i1);
        assert_eq!(m1, m2);
        assert_eq!(m1, expected);
    }
    check(1, 3, 4, 5, Some(cis(1, 5)));
    check(2, 3, 0, 5, Some(cis(0, 5)));
    check(2, 5, 1, 3, Some(cis(1, 5)));
    check(-3, -1, -1, 2, Some(cis(-3, 2)));
    check(3, 5, 7, 9, None);
    check(9, 5, 5, 7, Some(cis(5, 7)));
}

#[test]
fn test_sub_contiguous_integer_set() {
    fn check(a: &[i64; 2], b: &[i64; 2], expected: &[[i64; 2]]) {
        let s1 = cis(a[0], a[1]);
        let s2 = cis(b[0], b[1]);
        assert_eq!(s1.difference(&s2), ois(expected));
    }
    check(&[6, 5], &[-1, 3], &[]);
    check(&[6, 5], &[1, 3], &[]);
    check(&[5, 10], &[3, 1], &[[5, 10]]);
    check(&[5, 8], &[-1, 3], &[[5, 8]]);
    check(&[2, 10], &[4, 9], &[[2, 3], [10, 10]]);
    check(&[2, 10], &[1, 8], &[[9, 10]]);
    check(&[2, 10], &[6, 8], &[[2, 5], [9, 10]]);
    check(&[2, 10], &[2, 10], &[]);
    check(&[2, 10], &[0, 12], &[]);
    check(&[3, 4], &[3, 4], &[]);
    check(&[3, 5], &[3, 3], &[[4, 5]]);
    check(&[3, 4], &[3, 3], &[[4, 4]]);
    check(&[-2, 5], &[-1, 3], &[[-2, -2], [4, 5]]);
    check(&[0, 5], &[0, 0], &[[1, 5]]);
    check(&[0, 5], &[0, 2], &[[3, 5]]);
    check(&[0, 5], &[0, 5], &[]);
}

#[test]
fn test_integer_set_minus_contiguous_integer_set() {
    fn check(a: &[[i64; 2]], b: &[i64; 2], expected: &[[i64; 2]]) {
        let diff = ois(a).difference_contiguous(&cis(b[0], b[1]));
        assert_eq!(diff, ois(expected));
    }
    check(&[[1, 5], [8, 12], [-4, -2]], &[100, -100], &[[-4, -2], [1, 5], [8, 12]]);
    check(&[[1, 5], [108, 12], [-4, -2]], &[-3, 8], &[[-4, -4]]);
    check(&[[1, 5], [8, 12], [-4, -2]], &[-3, 8], &[[-4, -4], [9, 12]]);
    check(&[[1, 5], [8, 12], [-4, -2]], &[-5, 8], &[[9, 12]]);
    check(&[[1, 5], [8, 12], [-4, -2]], &[-5, -5], &[[-4, -2], [1, 5], [8, 12]]);
    check(&[[1, 5], [8, 12], [-4, -2]], &[-5, 0], &[[1, 5], [8, 12]]);
    check(&[[1, 5], [8, 12]], &[6, 7], &[[1, 5], [8, 12]]);
    check(&[[1, 5], [8, 12], [25, 100]], &[13, 20], &[[1, 5], [8, 12], [25, 100]]);
}

#[test]
fn test_contiguous_integer_set_minus_integer_set() {
    fn check(a: &[i64; 2], b: &[[i64; 2]], expected: &[[i64; 2]]) {
        let diff = cis(a[0], a[1]).difference_set(&ois(b));
        assert_eq!(diff, ois(expected));
    }
    check(&[1, 12], &[], &[[1, 12]]);
    check(&[1, 12], &[[12, 1]], &[[1, 12]]);
    check(&[1, 12], &[[2, 3], [5, 6]], &[[1, 1], [4, 4], [7, 12]]);
    check(&[1, 12], &[[-1, 3], [10, 13]], &[[4, 9]]);
}

#[test]
fn test_sub_integer_set() {
    fn check(a: &[[i64; 2]], b: &[[i64; 2]], expected: &[[i64; 2]]) {
        let mut diff = ois(a).difference(&ois(b));
        diff.coalesce_intervals_inplace();
        assert_eq!(diff, ois(expected));
    }
    check(&[[1, 10]], &[[1, 3], [5, 7]], &[[4, 4], [8, 10]]);
    check(&[[0, 10]], &[[1, 3], [5, 7]], &[[0, 0], [4, 4], [8, 10]]);
    check(&[[0, 10], [15, 20]], &[[-1, 2], [5, 7]], &[[3, 4], [8, 10], [15, 20]]);
    check(&[[0, 10], [15, 20]], &[[-1, 2], [18, 22], [5, 7]], &[[3, 4], [8, 10], [15, 17]]);
    check(
        &[[0, 10], [15, 20], [-10, -5]],
        &[[-1, 2], [18, 22], [5, 7], [-12, -3]],
        &[[3, 4], [8, 10], [15, 17]],
    );
}

#[test]
fn test_contiguous_ordered_integer_set_intersect() {
    fn check(a: &[i64; 2], b: &[[i64; 2]], expected: &[[i64; 2]]) {
        let s1 = cis(a[0], a[1]);
        let s2 = ois(b);
        assert_eq!(s1.intersect(&s2), ois(expected));
        assert_eq!(s2.intersect(&s1), ois(expected));
    }
    check(&[0, 10], &[[2, 5]], &[[2, 5]]);
    check(&[-3, 10], &[[-5, 12]], &[[-3, 10]]);
    check(&[-5, 12], &[[-3, 10]], &[[-3, 10]]);
    check(&[5, 10], &[[3, 6]], &[[5, 6]]);
    check(&[3, 6], &[[5, 10]], &[[5, 6]]);
    check(&[0, 10], &[[0, 2], [8, 9]], &[[0, 2], [8, 9]]);
    check(&[0, 10], &[[0, 12]], &[[0, 10]]);
    check(&[0, 10], &[[12, 13], [15, 20]], &[]);
    check(&[3, 10], &[[0, 3], [9, 12]], &[[3, 3], [9, 10]]);
}

#[test]
fn test_intersect_integer_set() {
    fn check(a: &[[i64; 2]], b: &[[i64; 2]], expected: &[[i64; 2]]) {
        assert_eq!(ois(a).difference(&ois(b)), ois(expected));
    }
    check(&[[0, 5], [10, 15]], &[[0, 4]], &[[5, 5], [10, 15]]);
    check(&[[0, 5], [10, 15]], &[[0, 12]], &[[13, 15]]);
    check(&[[0, 10]], &[[0, 8]], &[[9, 10]]);
}

#[test]
fn test_get_common_refinement_contiguous_integer_set() {
    fn check(a: &[i64; 2], b: &[i64; 2], expected: &[[i64; 2]]) {
        let s1 = cis(a[0], a[1]);
        let s2 = cis(b[0], b[1]);
        let expected: Vec<ContiguousIntegerSet> =
            expected.iter().map(|[a, b]| cis(*a, *b)).collect();
        assert_eq!(s1.get_common_refinement(&s2), expected);
        assert_eq!(s2.get_common_refinement(&s1), expected);
    }
    check(&[0, 3], &[4, 5], &[[0, 3], [4, 5]]);
    check(&[0, 3], &[3, 5], &[[0, 2], [3, 3], [4, 5]]);
    check(&[0, 4], &[2, 5], &[[0, 1], [2, 4], [5, 5]]);
    check(&[0, 4], &[2, 10], &[[0, 1], [2, 4], [5, 10]]);
    check(&[0, 4], &[0, 3], &[[0, 3], [4, 4]]);
    check(&[0, 4], &[0, 8], &[[0, 4], [5, 8]]);
    check(&[0, 6], &[2, 3], &[[0, 1], [2, 3], [4, 6]]);
    check(&[0, 8], &[0, 8], &[[0, 8]]);
    check(&[-2, 4], &[0, 3], &[[-2, -1], [0, 3], [4, 4]]);
}

#[test]
fn test_contiguous_sub_contiguous() {
    fn check(a: i64, b: i64, c: i64, d: i64, expected: &[[i64; 2]]) {
        assert_eq!(cis(a, b).difference(&cis(c, d)), ois(expected));
    }
    check(2, 4, 5, 6, &[[2, 4]]);
    check(2, 4, 4, 6, &[[2, 3]]);
    check(2, 4, 4, 4, &[[2, 3]]);
    check(2, 4, 2, 2, &[[3, 4]]);
    check(2, 4, 3, 6, &[[2, 2]]);
    check(2, 5, 3, 4, &[[2, 2], [5, 5]]);
    check(2, 10, 4, 7, &[[2, 3], [8, 10]]);
    check(2, 10, 2, 2, &[[3, 10]]);
    check(2, 10, 2, 3, &[[4, 10]]);
    check(2, 10, -1, 2, &[[3, 10]]);
    check(2, 10, -1, 9, &[[10, 10]]);
    check(5, 10, 1, 8, &[[9, 10]]);
    check(5, 10, 1, 4, &[[5, 10]]);
    check(2, 5, 2, 5, &[]);
    check(2, 5, 0, 8, &[]);
}

#[test]
fn test_ordered_sub_contiguous() {
    fn check(ordered: &[[i64; 2]], a: i64, b: i64, expected: &[[i64; 2]]) {
        assert_eq!(ois(ordered).difference_contiguous(&cis(a, b)), ois(expected));
    }
    check(&[], 2, 3, &[]);
    check(&[[4, 10]], 2, 3, &[[4, 10]]);
    check(&[[4, 10]], -2, 3, &[[4, 10]]);
    check(&[[4, 10]], 12, 13, &[[4, 10]]);
    check(&[[4, 10]], 3, 4, &[[5, 10]]);
    check(&[[4, 10]], 4, 4, &[[5, 10]]);
    check(&[[4, 10]], 10, 10, &[[4, 9]]);
    check(&[[4, 10]], 10, 12, &[[4, 9]]);
    check(&[[0, 10]], 3, 5, &[[0, 2], [6, 10]]);
    check(&[[0, 10]], 0, 10, &[]);
    check(&[[0, 10]], -1, 11, &[]);
    check(&[[0, 3], [6, 10]], 0, 11, &[]);
    check(&[[0, 3], [6, 10]], 0, 2, &[[3, 3], [6, 10]]);
    check(&[[0, 3], [6, 10]], 0, 3, &[[6, 10]]);
    check(&[[0, 3], [6, 10]], 0, 5, &[[6, 10]]);
    check(&[[0, 3], [6, 10]], 0, 6, &[[7, 10]]);
    check(&[[0, 3], [6, 10]], 0, 9, &[[10, 10]]);
    check(&[[0, 3], [6, 10]], 1, 1, &[[0, 0], [2, 3], [6, 10]]);
    check(&[[0, 3], [6, 10]], 1, 2, &[[0, 0], [3, 3], [6, 10]]);
    check(&[[0, 3], [6, 10]], 2, 3, &[[0, 1], [6, 10]]);
    check(&[[0, 3], [6, 10]], 2, 6, &[[0, 1], [7, 10]]);
    check(&[[0, 3], [6, 10]], 2, 9, &[[0, 1], [10, 10]]);
    check(&[[0, 3], [6, 10]], 3, 9, &[[0, 2], [10, 10]]);
    check(&[[0, 3], [6, 10]], 5, 9, &[[0, 3], [10, 10]]);
    check(&[[0, 3], [6, 10]], 8, 8, &[[0, 3], [6, 7], [9, 10]]);
    check(&[[0, 3], [6, 9], [12, 15]], 0, 14, &[[15, 15]]);
    check(&[[0, 3], [6, 9], [12, 15]], 0, 15, &[]);
    check(&[[0, 3], [6, 9], [12, 15]], 2, 7, &[[0, 1], [8, 9], [12, 15]]);
    check(&[[0, 3], [6, 9], [12, 15]], 3, 12, &[[0, 2], [13, 15]]);
    check(&[[0, 3], [6, 9], [12, 15]], 3, 15, &[[0, 2]]);
    check(&[[0, 3], [6, 9], [12, 15]], 9, 12, &[[0, 3], [6, 8], [13, 15]]);
}

#[test]
fn construction_is_order_independent_on_scrambled_input() {
    let a = ois(&[[5, 9], [-3, -1], [12, 12], [7, 14]]);
    let b = ois(&[[12, 12], [7, 14], [5, 9], [-3, -1]]);
    assert_eq!(a, b);
    assert_eq!(a.intervals, vec![cis(-3, -1), cis(5, 14)]);
}

#[test]
fn incremental_insertion_matches_bulk_construction() {
    let elements: [i64; 7] = [4, -2, 9, 5, 6, -1, 4];
    let mut incremental = OrderedIntegerSet::new();
    for e in elements {
        incremental.collect(e);
    }
    let bulk = ois(&[[4, 4], [-2, -2], [9, 9], [5, 5], [6, 6], [-1, -1], [4, 4]]);
    assert_eq!(incremental, bulk);
    assert_eq!(incremental.intervals, vec![cis(-2, -1), cis(4, 6), cis(9, 9)]);
}

#[test]
fn intersection_and_difference_partition_the_minuend() {
    let a = cis(-4, 9);
    let b = cis(2, 5);
    let inter = a.intersect(&b).unwrap();
    let diff = a.difference(&b);
    for x in -10i64..15 {
        let in_a = x >= a.start && x <= a.end;
        let in_inter = x >= inter.start && x <= inter.end;
        let in_diff = diff.intervals.iter().any(|c| x >= c.start && x <= c.end);
        assert_eq!(in_inter || in_diff, in_a);
        assert!(!(in_inter && in_diff));
    }
}

#[test]
fn positional_slice_selects_members_by_ordinal_index() {
    let set = ois(&[[2, 4], [6, 7], [10, 14]]);
    // members: 2 3 4 6 7 10 11 12 13 14
    assert_eq!(set.slice(0, 3), ois(&[[2, 4]]));
    assert_eq!(set.slice(2, 6), ois(&[[4, 4], [6, 7], [10, 10]]));
    assert_eq!((4..8).slice(&set), ois(&[[7, 7], [10, 12]]));
    assert_eq!(set.slice(3, 3), ois(&[]));
    let single = cis(5, 9);
    assert_eq!((1..4).slice(&single), Some(cis(6, 8)));
    assert_eq!((2..2).slice(&single), None);
}

#[test]
fn first_last_and_emptiness_queries() {
    let set = ois(&[[3, 5], [9, 12]]);
    assert_eq!(set.first(), Some(3));
    assert_eq!(set.last(), Some(12));
    assert_eq!(set.first_and_last(), Some((3, 12)));
    assert!(!set.is_empty());
    let empty = OrderedIntegerSet::new();
    assert_eq!(empty.first(), None);
    assert_eq!(empty.last(), None);
    assert_eq!(empty.first_and_last(), None);
    assert!(empty.is_empty());
}

#[test]
fn test_ordered_integer_set_iter() {
    let set = ois(&[[2, 4], [6, 7]]);
    let mut iter = set.to_iter();
    assert_eq!(iter.next(), Some(2));
    assert_eq!(iter.next(), Some(3));
    assert_eq!(iter.next(), Some(4));
    assert_eq!(iter.next(), Some(6));
    assert_eq!(iter.next(), Some(7));
    assert_eq!(iter.next(), None);
}

#[test]
fn contiguous_set_iterates_its_members() {
    let set = cis(3, 6);
    let mut iter = set.to_iter();
    assert_eq!(iter.next(), Some(3));
    assert_eq!(iter.next(), Some(4));
    assert_eq!(iter.next(), Some(5));
    assert_eq!(iter.next(), Some(6));
    assert_eq!(iter.next(), None);
    assert_eq!(cis(9, 2).slice(0..1), None);
    assert_eq!(cis(2, 9).slice(1..3), Some(cis(3, 4)));
}
