use analytic::interval::I64Interval;
use analytic::partition::integer_interval_map::IntegerIntervalMap;
use analytic::partition::integer_partitions::{IntegerPartitions, Partition};
use analytic::partition::ordered_interval_partitions::OrderedIntervalPartitions;
use analytic::set::contiguous_integer_set::ContiguousIntegerSet;
use analytic::set::traits::{Finite, Refineable};

#[test]
fn test_ordered_interval_partitions_common_refinement() {
    fn check(a: &[[i64; 2]], b: &[[i64; 2]], expected: &[[i64; 2]]) {
        let s1 = OrderedIntervalPartitions::from_slice(a);
        let s2 = OrderedIntervalPartitions::from_slice(b);
        let expected: Vec<ContiguousIntegerSet> = expected
            .iter()
            .map(|[a, b]| ContiguousIntegerSet::new(*a, *b))
            .collect();
        assert_eq!(s1.get_common_refinement(&s2).into_vec(), expected);
        assert_eq!(s2.get_common_refinement(&s1).into_vec(), expected);
    }
    check(&[], &[], &[]);
    check(
        &[[0, 4], [6, 10]],
        &[[1, 2], [4, 6]],
        &[[0, 0], [1, 2], [3, 3], [4, 4], [5, 5], [6, 6], [7, 10]],
    );
    check(&[[0, 5], [8, 10]], &[[6, 7], [11, 13]], &[[0, 5], [6, 7], [8, 10], [11, 13]]);
    check(&[[-1, 5]], &[[-2, 0]], &[[-2, -2], [-1, 0], [1, 5]]);
    check(
        &[[0, 10], [15, 23]],
        &[[3, 5], [20, 23]],
        &[[0, 2], [3, 5], [6, 10], [15, 19], [20, 23]],
    );
    check(&[[0, 10], [15, 23]], &[[3, 5], [15, 23]], &[[0, 2], [3, 5], [6, 10], [15, 23]]);
    check(
        &[[0, 10], [15, 23]],
        &[[3, 5], [15, 20]],
        &[[0, 2], [3, 5], [6, 10], [15, 20], [21, 23]],
    );
    check(&[[1, 100]], &[[3, 5], [23, 30]], &[[1, 2], [3, 5], [6, 22], [23, 30], [31, 100]]);
    check(
        &[[2, 6], [8, 12]],
        &[[0, 3], [5, 13]],
        &[[0, 1], [2, 3], [4, 4], [5, 6], [7, 7], [8, 12], [13, 13]],
    );
    check(&[[0, 3], [4, 8]], &[[2, 4]], &[[0, 1], [2, 3], [4, 4], [5, 8]]);
    check(&[[0, 4], [5, 7]], &[], &[[0, 4], [5, 7]]);
}

#[test]
fn common_refinement_of_two_partitions() {
    // the two-partition overlay splits exactly at both partitions' bounds
    let p1 = OrderedIntervalPartitions::from_slice(&[[-1, 4], [8, 10]]);
    let p2 = OrderedIntervalPartitions::from_slice(&[[3, 7]]);
    assert_eq!(
        p1.get_common_refinement(&p2).into_vec(),
        [[-1, 2], [3, 4], [5, 7], [8, 10]]
            .iter()
            .map(|[a, b]| ContiguousIntegerSet::new(*a, *b))
            .collect::<Vec<ContiguousIntegerSet>>()
    );
}

#[test]
fn test_num_overlapped_partitions_by() {
    fn check(a: &[[i64; 2]], b: &[[i64; 2]], expected: usize) {
        let s1 = OrderedIntervalPartitions::from_slice(a);
        let s2 = OrderedIntervalPartitions::from_slice(b);
        assert_eq!(s1.num_partitions_overlapped_by(&s2), expected);
    }
    check(&[], &[], 0);
    check(&[[0, 4]], &[], 0);
    check(&[[0, 4], [7, 9]], &[], 0);
    check(&[[0, 4]], &[[0, 0]], 1);
    check(&[[0, 4]], &[[0, 4]], 1);
    check(&[[0, 4]], &[[3, 4]], 1);
    check(&[[0, 4]], &[[4, 4]], 1);
    check(&[[0, 4]], &[[0, 0], [3, 4]], 1);
    check(&[[0, 4], [7, 10]], &[[0, 10]], 2);
    check(&[[0, 4], [7, 10]], &[[0, 3], [5, 10]], 2);
    check(&[[0, 4], [7, 10]], &[[0, 5], [8, 10]], 2);
    check(&[[0, 4], [7, 10]], &[[0, 12]], 2);
    check(&[[0, 4], [7, 10], [15, 30]], &[[6, 15]], 2);
    check(&[[0, 4], [7, 10], [15, 30]], &[[0, 15]], 3);
    check(&[[0, 4], [7, 10], [15, 30]], &[[0, 4], [7, 10], [15, 30]], 3);
    check(&[[0, 4], [7, 10], [15, 30]], &[[0, 8], [15, 30]], 3);
    check(&[[0, 4], [7, 10], [15, 30]], &[[0, 8]], 2);
    check(&[[0, 4], [7, 10], [15, 30]], &[[5, 6]], 0);
    check(&[[0, 4], [7, 10], [15, 30]], &[[12, 14]], 0);
    check(&[[0, 4], [7, 10], [15, 30]], &[], 0);
}

#[test]
fn test_num_partitions() {
    assert_eq!(IntegerPartitions::new(vec![]).num_partitions(), 0);
    assert_eq!(
        IntegerPartitions::new(vec![
            Partition::from_slice(&[[0, 2]]),
            Partition::from_slice(&[[4, 8], [15, 21]]),
        ])
        .num_partitions(),
        2
    );
    assert_eq!(
        IntegerPartitions::new(vec![Partition::from_slice(&[[2, 4], [5, 6], [10, 11]])])
            .num_partitions(),
        1
    );
}

#[test]
fn test_partitions_union() {
    let partitions = IntegerPartitions::new(vec![
        Partition::from_slice(&[[1, 3], [8, 9]]),
        Partition::from_slice(&[[4, 5], [10, 14]]),
        Partition::from_slice(&[[21, 24]]),
    ]);
    assert_eq!(
        partitions.union(),
        Partition::from_slice(&[[1, 3], [4, 5], [8, 9], [10, 14], [21, 24]])
    );
}

#[test]
fn test_partitions_iter() {
    let partition_list =
        vec![Partition::from_slice(&[[0, 2], [9, 11]]), Partition::from_slice(&[[4, 8], [15, 21]])];
    let partitions = IntegerPartitions::new(partition_list.clone());
    let mut iter = partitions.iter();
    for expected in partition_list.iter() {
        let actual = iter.next().unwrap();
        assert_eq!(&actual, expected);
    }
    assert_eq!(iter.next(), None);
}

#[test]
fn test_partitions_next_back() {
    let partitions = IntegerPartitions::new(vec![
        Partition::from_slice(&[[1, 3], [6, 9]]),
        Partition::from_slice(&[[4, 5], [10, 14]]),
        Partition::from_slice(&[[15, 20], [25, 26]]),
        Partition::from_slice(&[[21, 24]]),
    ]);
    let mut iter = partitions.iter();
    iter.next_back();
    iter.next_back();
    assert_eq!(iter.next_back().unwrap(), Partition::from_slice(&[[4, 5], [10, 14]]));
}

#[test]
fn test_integer_partition_exact_size_iter() {
    assert_eq!(IntegerPartitions::new(vec![]).iter().len(), 0);
    assert_eq!(
        IntegerPartitions::new(vec![Partition::from_slice(&[[-10, 20], [30, 40]])]).iter().len(),
        1
    );
    assert_eq!(
        IntegerPartitions::new(vec![
            Partition::from_slice(&[[-1, 2], [6, 9]]),
            Partition::from_slice(&[[10, 14]]),
            Partition::from_slice(&[[15, 20], [25, 26]]),
            Partition::from_slice(&[[21, 24]]),
        ])
        .iter()
        .len(),
        4
    );
}

#[test]
fn aggregate_superposes_values_over_overlaps() {
    // three aggregations split the line into exact-keyed fragments
    let mut interval_map = IntegerIntervalMap::new();
    interval_map.aggregate(I64Interval::new(-1, 4), 2);
    interval_map.aggregate(I64Interval::new(6, 8), 4);
    interval_map.aggregate(I64Interval::new(4, 7), 1);

    assert_eq!(interval_map.get(&I64Interval::new(-1, 3)), Some(2));
    assert_eq!(interval_map.get(&I64Interval::new(4, 4)), Some(3));
    assert_eq!(interval_map.get(&I64Interval::new(5, 5)), Some(1));
    assert_eq!(interval_map.get(&I64Interval::new(6, 7)), Some(5));
    assert_eq!(interval_map.get(&I64Interval::new(8, 8)), Some(4));
    assert_eq!(interval_map.get(&I64Interval::new(-1, 4)), None);
    assert_eq!(interval_map.get(&I64Interval::new(6, 8)), None);
    assert_eq!(interval_map.get(&I64Interval::new(4, 7)), None);
}

#[test]
fn aggregation_map_get_is_exact_key_lookup() {
    let mut interval_map = IntegerIntervalMap::new();
    interval_map.aggregate(I64Interval::new(2, 5), 1);
    assert_eq!(interval_map.get(&I64Interval::new(2, 5)), Some(1));
    assert_eq!(interval_map.get(&I64Interval::new(2, 4)), None);
    assert_eq!(interval_map.get(&I64Interval::new(2, 6)), None);
}

#[test]
fn aggregation_map_iterates_in_ascending_key_order() {
    let mut interval_map = IntegerIntervalMap::new();
    interval_map.aggregate(I64Interval::new(-1, 4), 2);
    interval_map.aggregate(I64Interval::new(6, 8), 4);
    interval_map.aggregate(I64Interval::new(4, 7), 1);
    let expected = vec![
        (I64Interval::new(-1, 3), 2),
        (I64Interval::new(4, 4), 3),
        (I64Interval::new(5, 5), 1),
        (I64Interval::new(6, 7), 5),
        (I64Interval::new(8, 8), 4),
    ];
    assert_eq!(interval_map.iter(), expected);
}

#[test]
fn aggregate_keeps_disjoint_entries_verbatim() {
    // a key that meets no stored entry neither splits nor merges them, even
    // when two stored entries are adjacent
    let mut interval_map = IntegerIntervalMap::new();
    interval_map.aggregate(I64Interval::new(0, 5), 3);
    interval_map.aggregate(I64Interval::new(6, 9), 7);
    interval_map.aggregate(I64Interval::new(20, 25), 1);
    let expected = vec![
        (I64Interval::new(0, 5), 3),
        (I64Interval::new(6, 9), 7),
        (I64Interval::new(20, 25), 1),
    ];
    assert_eq!(interval_map.iter(), expected);
}

#[test]
fn test_sampling_without_replacement_support() {
    // positional material the samplers rely on: sizes of sets built from
    // interval slices
    let set = Partition::from_slice(&[[-89, -23], [-2, 100], [300, 345]]);
    assert_eq!(set.size(), 67 + 103 + 46);
}
