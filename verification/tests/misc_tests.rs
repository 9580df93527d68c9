use std::collections::HashSet;

use analytic::set::traits::{Intersect, SetLike};
use analytic::stats::n_choose_2;
use analytic::traits::HasDuplicate;

#[test]
fn test_set() {
    let mut s: HashSet<i64> = HashSet::new();
    assert_eq!(SetLike::<i64>::is_empty(&s), true);
    s.insert(3);
    assert_eq!(SetLike::<i64>::is_empty(&s), false);
    assert_eq!(SetLike::<i64>::contains(&s, &3), true);
    assert_eq!(SetLike::<i64>::contains(&s, &4), false);
    assert_eq!(SetLike::<i64>::contains(&s, &2), false);
}

#[test]
fn test_hashset_intersect() {
    let s1: HashSet<i64> = [1, 2, 3, 4].iter().cloned().collect();
    let s2: HashSet<i64> = [2, 3, 7].iter().cloned().collect();
    let e1: HashSet<i64> = [2, 3].iter().cloned().collect();
    assert_eq!(s1.intersect(&s2), e1);
    let s3 = HashSet::<i64>::new();
    assert_eq!(s1.intersect(&s3), s3);

    assert!(s1.has_non_empty_intersection_with(&s2));
    assert!(!s1.has_non_empty_intersection_with(&s3));
}

#[test]
fn test_has_duplciate() {
    let mut v: Vec<i64> = vec![6, 2, 3, 9, 1, 10, 23];
    assert_eq!(v.has_duplicate(), false);
    v.push(3);
    assert_eq!(v.has_duplicate(), true);

    let v = vec!["hi", "ab", "cde", "abc"];
    assert_eq!(v.has_duplicate(), false);
    let v = vec!["hi", "ab", "cde", "ab", "abc"];
    assert_eq!(v.has_duplicate(), true);
}

#[test]
fn pair_counts() {
    assert_eq!(n_choose_2(0), 0);
    assert_eq!(n_choose_2(1), 0);
    assert_eq!(n_choose_2(2), 1);
    assert_eq!(n_choose_2(5), 10);
}
