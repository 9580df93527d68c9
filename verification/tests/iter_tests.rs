use std::collections::BTreeMap;
use std::collections::HashMap;

use analytic::interval::I64Interval;
use analytic::iter::binned_interval_iter::{AggregateOp, BinnedIntervalIter};
use analytic::iter::common_refinement_zip::{CommonRefinementZip, CommonRefinementZipped};
use analytic::iter::concatenated_iter::{ConcatenatedIter, IntoConcatIter};
use analytic::iter::flat_zip::IntoFlatZipIter;
use analytic::iter::union_zip::{IntoUnionZip, UnionZip};
use analytic::iter::weighted_sum::WeightedSum;
use analytic::partition::integer_interval_map::IntegerIntervalMap;
use analytic::set::contiguous_integer_set::ContiguousIntegerSet;

fn drain_zip(mut zip: CommonRefinementZipped) -> Vec<(I64Interval, Vec<Option<i64>>)> {
    let mut out = Vec::new();
    while let Some(item) = zip.next() {
        out.push(item);
    }
    out
}

fn drain_bins(mut bins: BinnedIntervalIter) -> Vec<(I64Interval, i64)> {
    let mut out = Vec::new();
    while let Some(item) = bins.next() {
        out.push(item);
    }
    out
}

#[test]
fn test_common_refinement_zip_integer_interval_map() {
    let mut map1 = IntegerIntervalMap::new();
    map1.aggregate(I64Interval::new(1, 5), 1);
    let mut map2 = IntegerIntervalMap::new();
    map2.aggregate(I64Interval::new(3, 6), 2);

    let refined = drain_zip(map1.iter().common_refinement_zip(map2.iter()));

    let expected = vec![
        (I64Interval::new(1, 2), vec![Some(1), None]),
        (I64Interval::new(3, 5), vec![Some(1), Some(2)]),
        (I64Interval::new(6, 6), vec![None, Some(2)]),
    ];
    assert_eq!(refined, expected);
}

#[test]
fn zip_emits_per_boundary_value_tuples() {
    let m1 = vec![(I64Interval::new(0, 5), 5), (I64Interval::new(8, 10), 2)];
    let m2 = vec![(I64Interval::new(2, 4), 8), (I64Interval::new(12, 13), 9)];
    let mut iter = m1.common_refinement_zip(m2);
    assert_eq!(Some((I64Interval::new(0, 1), vec![Some(5), None])), iter.next());
    assert_eq!(Some((I64Interval::new(2, 4), vec![Some(5), Some(8)])), iter.next());
    assert_eq!(Some((I64Interval::new(5, 5), vec![Some(5), None])), iter.next());
    assert_eq!(Some((I64Interval::new(8, 10), vec![Some(2), None])), iter.next());
    assert_eq!(Some((I64Interval::new(12, 13), vec![None, Some(9)])), iter.next());
    assert_eq!(None, iter.next());
}

#[test]
fn test_common_refinement_flat_zip() {
    let m1 = vec![(I64Interval::new(0, 10), 5), (I64Interval::new(16, 17), 21)];
    let m2 = vec![(I64Interval::new(2, 3), 8), (I64Interval::new(12, 20), 9)];
    let m3 = vec![
        (I64Interval::new(2, 4), 7),
        (I64Interval::new(9, 10), -1),
        (I64Interval::new(15, 20), 0),
    ];
    let iter = m1.common_refinement_zip(m2).common_refinement_flat_zip(m3);
    let refined = drain_zip(iter);
    let expected = vec![
        (I64Interval::new(0, 1), vec![Some(5), None, None]),
        (I64Interval::new(2, 3), vec![Some(5), Some(8), Some(7)]),
        (I64Interval::new(4, 4), vec![Some(5), None, Some(7)]),
        (I64Interval::new(5, 8), vec![Some(5), None, None]),
        (I64Interval::new(9, 10), vec![Some(5), None, Some(-1)]),
        (I64Interval::new(12, 14), vec![None, Some(9), None]),
        (I64Interval::new(15, 15), vec![None, Some(9), Some(0)]),
        (I64Interval::new(16, 17), vec![Some(21), Some(9), Some(0)]),
        (I64Interval::new(18, 20), vec![None, Some(9), Some(0)]),
    ];
    assert_eq!(refined, expected);
}

#[test]
fn test_binned_interval_iter() {
    let bin_size = 3;
    let mut interval_map = IntegerIntervalMap::new();
    interval_map.aggregate(I64Interval::new(-1, 4), 2);
    interval_map.aggregate(I64Interval::new(6, 8), 4);
    interval_map.aggregate(I64Interval::new(4, 7), 1);

    fn get_actual(map: &IntegerIntervalMap, bin_size: i64, op: AggregateOp) -> Vec<(I64Interval, i64)> {
        drain_bins(BinnedIntervalIter::new(map.iter(), bin_size, op))
    }

    assert_eq!(
        get_actual(&interval_map, bin_size, AggregateOp::Sum),
        vec![
            (I64Interval::new(-3, -1), 2),
            (I64Interval::new(0, 2), 6),
            (I64Interval::new(3, 5), 6),
            (I64Interval::new(6, 8), 14),
        ]
    );
    assert_eq!(
        get_actual(&interval_map, bin_size, AggregateOp::Max),
        vec![
            (I64Interval::new(-3, -1), 2),
            (I64Interval::new(0, 2), 2),
            (I64Interval::new(3, 5), 3),
            (I64Interval::new(6, 8), 5),
        ]
    );
    assert_eq!(
        get_actual(&interval_map, bin_size, AggregateOp::Min),
        vec![
            (I64Interval::new(-3, -1), 2),
            (I64Interval::new(0, 2), 2),
            (I64Interval::new(3, 5), 1),
            (I64Interval::new(6, 8), 4),
        ]
    );

    interval_map.aggregate(I64Interval::new(2, 4), -3);
    interval_map.aggregate(I64Interval::new(14, 16), -2);

    assert_eq!(
        get_actual(&interval_map, bin_size, AggregateOp::Sum),
        vec![
            (I64Interval::new(-3, -1), 2),
            (I64Interval::new(0, 2), 3),
            (I64Interval::new(3, 5), 0),
            (I64Interval::new(6, 8), 14),
            (I64Interval::new(12, 14), -2),
            (I64Interval::new(15, 17), -4),
        ]
    );
    assert_eq!(
        get_actual(&interval_map, bin_size, AggregateOp::Max),
        vec![
            (I64Interval::new(-3, -1), 2),
            (I64Interval::new(0, 2), 2),
            (I64Interval::new(3, 5), 1),
            (I64Interval::new(6, 8), 5),
            (I64Interval::new(12, 14), -2),
            (I64Interval::new(15, 17), -2),
        ]
    );
    assert_eq!(
        get_actual(&interval_map, bin_size, AggregateOp::Min),
        vec![
            (I64Interval::new(-3, -1), 2),
            (I64Interval::new(0, 2), -1),
            (I64Interval::new(3, 5), -1),
            (I64Interval::new(6, 8), 4),
            (I64Interval::new(12, 14), -2),
            (I64Interval::new(15, 17), -2),
        ]
    );
}

#[test]
fn binned_checked_new_rejects_non_positive_bin_size() {
    let source = vec![(ContiguousIntegerSet::new(0, 4), 2i64)];
    match BinnedIntervalIter::checked_new(source.clone(), 0, AggregateOp::Sum) {
        Ok(_) => panic!("a non-positive bin size must be rejected"),
        Err(msg) => assert_eq!(msg, "bin_size must be at least 1"),
    }
    match BinnedIntervalIter::checked_new(source.clone(), -3, AggregateOp::Sum) {
        Ok(_) => panic!("a non-positive bin size must be rejected"),
        Err(msg) => assert_eq!(msg, "bin_size must be at least 1"),
    }
    let mut it = BinnedIntervalIter::checked_new(source, 5, AggregateOp::Sum)
        .expect("a positive bin size must be accepted");
    assert_eq!(it.next(), Some((ContiguousIntegerSet::new(0, 4), 10)));
    assert_eq!(it.next(), None);
}

#[test]
fn test_common_refinement_zip() {
    let bin_size = 3;
    let mut map1 = IntegerIntervalMap::new();
    map1.aggregate(I64Interval::new(-1, 4), 2);
    map1.aggregate(I64Interval::new(6, 8), 4);
    map1.aggregate(I64Interval::new(4, 7), 1);

    let mut map2 = IntegerIntervalMap::new();
    map2.aggregate(I64Interval::new(1, 2), -2);
    map2.aggregate(I64Interval::new(6, 8), 9);

    assert_eq!(
        drain_bins(BinnedIntervalIter::new(map2.iter(), bin_size, AggregateOp::Sum)),
        vec![(I64Interval::new(0, 2), -4), (I64Interval::new(6, 8), 27)]
    );

    let bins1 = drain_bins(BinnedIntervalIter::new(map1.iter(), bin_size, AggregateOp::Sum));
    let bins2 = drain_bins(BinnedIntervalIter::new(map2.iter(), bin_size, AggregateOp::Sum));
    let actual = drain_zip(bins1.common_refinement_zip(bins2));

    let expected = vec![
        (I64Interval::new(-3, -1), vec![Some(2), None]),
        (I64Interval::new(0, 2), vec![Some(6), Some(-4)]),
        (I64Interval::new(3, 5), vec![Some(6), None]),
        (I64Interval::new(6, 8), vec![Some(14), Some(27)]),
    ];
    assert_eq!(actual, expected);
}

#[test]
fn binning_weights_sums_by_overlap_length() {
    let mut interval_map = IntegerIntervalMap::new();
    interval_map.aggregate(I64Interval::new(-1, 1), 2);
    interval_map.aggregate(I64Interval::new(14, 17), -1);
    assert_eq!(
        drain_bins(BinnedIntervalIter::new(interval_map.iter(), 5, AggregateOp::Sum)),
        vec![
            (I64Interval::new(-5, -1), 2),
            (I64Interval::new(0, 4), 4),
            (I64Interval::new(10, 14), -1),
            (I64Interval::new(15, 19), -3),
        ]
    );
}

#[test]
fn test_from_iters() {
    let arr1: Vec<i64> = vec![0, 1, 2];
    let arr2: Vec<i64> = vec![3, 4];
    let arr3: Vec<i64> = vec![5, 6];
    let mut concat_iter = ConcatenatedIter::from(vec![arr1, arr2, arr3]);
    assert_eq!(concat_iter.next(), Some(0));
    assert_eq!(concat_iter.next(), Some(1));
    assert_eq!(concat_iter.next(), Some(2));
    assert_eq!(concat_iter.next(), Some(3));
    assert_eq!(concat_iter.next(), Some(4));
    assert_eq!(concat_iter.next(), Some(5));
    assert_eq!(concat_iter.next(), Some(6));
    assert_eq!(concat_iter.next(), None);
}

#[test]
fn test_concat_vec_iter() {
    let arr1: Vec<i64> = vec![0, 1, 2];
    let arr2: Vec<i64> = vec![3, 4];
    let arr3: Vec<i64> = vec![6, 7, 8];
    {
        let mut concat_1_2 = arr1.clone().into_concat_iter(arr2.clone());
        assert_eq!(concat_1_2.next(), Some(0));
        assert_eq!(concat_1_2.next(), Some(1));
        assert_eq!(concat_1_2.next(), Some(2));
        assert_eq!(concat_1_2.next(), Some(3));
        assert_eq!(concat_1_2.next(), Some(4));
        assert_eq!(concat_1_2.next(), None);
    }
    {
        let mut concat_1_2 = arr1.clone().into_concat_iter(arr2.clone());
        assert_eq!(concat_1_2.next(), Some(0));
        assert_eq!(concat_1_2.next(), Some(1));
        let mut concat_1_2 = concat_1_2.concat_iter(arr3.clone());
        assert_eq!(concat_1_2.next(), Some(2));
        assert_eq!(concat_1_2.next(), Some(3));
        assert_eq!(concat_1_2.next(), Some(4));
        assert_eq!(concat_1_2.next(), Some(6));
        assert_eq!(concat_1_2.next(), Some(7));
        let mut concat_1_2 = concat_1_2.concat_iter(arr3.clone());
        assert_eq!(concat_1_2.next(), Some(8));
        assert_eq!(concat_1_2.next(), Some(6));
        assert_eq!(concat_1_2.next(), Some(7));
        assert_eq!(concat_1_2.next(), Some(8));
        let mut concat_1_2 = concat_1_2.concat_iter(arr1.clone());
        assert_eq!(concat_1_2.next(), Some(0));
        assert_eq!(concat_1_2.next(), Some(1));
        assert_eq!(concat_1_2.next(), Some(2));
        assert_eq!(concat_1_2.next(), None);
    }
}

#[test]
fn test_concat_btreemap_iter() {
    let m1: BTreeMap<i64, i64> = vec![(1, 2), (3, 4)].into_iter().collect();
    let m2: BTreeMap<i64, i64> = vec![(11, 12), (13, 14), (15, 16)].into_iter().collect();
    let entries1: Vec<(i64, i64)> = m1.iter().map(|(k, v)| (*k, *v)).collect();
    let entries2: Vec<(i64, i64)> = m2.iter().map(|(k, v)| (*k, *v)).collect();
    let mut iter = entries1.into_concat_iter(entries2);
    assert_eq!(iter.next(), Some((1, 2)));
    assert_eq!(iter.next(), Some((3, 4)));
    assert_eq!(iter.next(), Some((11, 12)));
    assert_eq!(iter.next(), Some((13, 14)));
    assert_eq!(iter.next(), Some((15, 16)));
}

#[test]
fn test_flat_zip() {
    let arr1: Vec<i64> = vec![1, 2, 3];
    let arr2: Vec<i64> = vec![4, 5, 6];
    let arr3: Vec<i64> = vec![7, 8, 9];
    let expected_1 = vec![vec![1, 4, 7], vec![2, 5, 8], vec![3, 6, 9]];
    let mut zipped = arr1.clone().flat_zip(arr2.clone()).flat_zip(arr3.clone());
    for expected in expected_1 {
        assert_eq!(zipped.next(), Some(expected));
    }
    assert_eq!(zipped.next(), None);

    let expected_2 = vec![vec![1, 4, 7, 10], vec![2, 5, 8, 11], vec![3, 6, 9, 12]];
    let arr4: Vec<i64> = vec![10, 11, 12, 13];
    let mut zipped = arr1.flat_zip(arr2).flat_zip(arr3).flat_zip(arr4);
    for expected in expected_2 {
        assert_eq!(zipped.next(), Some(expected));
    }
    assert_eq!(zipped.next(), None);
}

#[test]
fn test_union_zip_iter_hashmap() {
    let m1: HashMap<i64, i64> = vec![(1, 10), (3, 23), (4, 20), (12, 6)].into_iter().collect();
    let m2: HashMap<i64, i64> = vec![(0, 4), (1, 20), (4, 20), (9, 29)].into_iter().collect();

    let mut iter = m1.union_zip(&m2).into_iter();
    assert_eq!(Some((0, vec![None, Some(4)])), iter.next());
    assert_eq!(Some((1, vec![Some(10), Some(20)])), iter.next());
    assert_eq!(Some((3, vec![Some(23), None])), iter.next());
    assert_eq!(Some((4, vec![Some(20), Some(20)])), iter.next());
    assert_eq!(Some((9, vec![None, Some(29)])), iter.next());
    assert_eq!(Some((12, vec![Some(6), None])), iter.next());
    assert_eq!(None, iter.next());

    let m3: HashMap<i64, i64> = vec![(0, 9), (3, 43), (4, 8), (14, 68)].into_iter().collect();

    let mut iter2 = m1.union_zip(&m2).into_union_zip(&m3).into_iter();
    assert_eq!(Some((0, vec![None, Some(4), Some(9)])), iter2.next());
    assert_eq!(Some((1, vec![Some(10), Some(20), None])), iter2.next());
    assert_eq!(Some((3, vec![Some(23), None, Some(43)])), iter2.next());
    assert_eq!(Some((4, vec![Some(20), Some(20), Some(8)])), iter2.next());
    assert_eq!(Some((9, vec![None, Some(29), None])), iter2.next());
    assert_eq!(Some((12, vec![Some(6), None, None])), iter2.next());
    assert_eq!(Some((14, vec![None, None, Some(68)])), iter2.next());
    assert_eq!(None, iter2.next());

    let m4: HashMap<i64, i64> = vec![(4, 73), (14, 64)].into_iter().collect();

    let mut iter3 = m1.union_zip(&m2).into_union_zip(&m3).into_union_zip(&m4).into_iter();
    assert_eq!(Some((0, vec![None, Some(4), Some(9), None])), iter3.next());
    assert_eq!(Some((1, vec![Some(10), Some(20), None, None])), iter3.next());
    assert_eq!(Some((3, vec![Some(23), None, Some(43), None])), iter3.next());
    assert_eq!(Some((4, vec![Some(20), Some(20), Some(8), Some(73)])), iter3.next());
    assert_eq!(Some((9, vec![None, Some(29), None, None])), iter3.next());
    assert_eq!(Some((12, vec![Some(6), None, None, None])), iter3.next());
    assert_eq!(Some((14, vec![None, None, Some(68), Some(64)])), iter3.next());
    assert_eq!(None, iter3.next());
}

#[test]
fn integer_weighted_sum_over_intervals() {
    let arr = vec![
        (ContiguousIntegerSet::new(2, 5), 2),
        (ContiguousIntegerSet::new(10, 25), 1),
        (ContiguousIntegerSet::new(1, 5), 3),
    ];
    // 4 * 2 + 16 * 1 + 5 * 3
    assert_eq!(arr.weighted_sum(), 39);
}
