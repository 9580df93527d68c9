use analytic::search::binary_search::binary_search_with_cmp;

#[test]
fn test_vec_binary_search() {
    let v: Vec<i64> = vec![1, 2, 3, 6, 29, 43, 69, 100, 340];
    let cmp = |x: &i64, y: &i64| x.cmp(y);
    assert_eq!(binary_search_with_cmp(&v, 0, v.len(), &30, cmp), Err(Some(5)));
    assert_eq!(binary_search_with_cmp(&v, 0, v.len(), &-10, cmp), Err(Some(0)));
    assert_eq!(binary_search_with_cmp(&v, 0, v.len(), &0, cmp), Err(Some(0)));
    assert_eq!(binary_search_with_cmp(&v, 0, v.len(), &341, cmp), Err(Some(v.len())));
    assert_eq!(binary_search_with_cmp(&v, 0, v.len(), &1000, cmp), Err(Some(v.len())));
    assert_eq!(binary_search_with_cmp(&v, 0, v.len(), &1, cmp), Ok(0));
    assert_eq!(binary_search_with_cmp(&v, 0, v.len(), &2, cmp), Ok(1));
    assert_eq!(binary_search_with_cmp(&v, 0, v.len(), &3, cmp), Ok(2));
    assert_eq!(binary_search_with_cmp(&v, 0, v.len(), &6, cmp), Ok(3));
    assert_eq!(binary_search_with_cmp(&v, 0, v.len(), &29, cmp), Ok(4));
    assert_eq!(binary_search_with_cmp(&v, 0, v.len(), &43, cmp), Ok(5));
    assert_eq!(binary_search_with_cmp(&v, 0, v.len(), &69, cmp), Ok(6));
    assert_eq!(binary_search_with_cmp(&v, 0, v.len(), &100, cmp), Ok(7));
    assert_eq!(binary_search_with_cmp(&v, 0, v.len(), &340, cmp), Ok(8));
    assert_eq!(binary_search_with_cmp(&v, 3, 6, &6, cmp), Ok(3));
    assert_eq!(binary_search_with_cmp(&v, 3, 6, &29, cmp), Ok(4));
    assert_eq!(binary_search_with_cmp(&v, 3, 6, &43, cmp), Ok(5));
    assert_eq!(binary_search_with_cmp(&v, 3, 6, &340, cmp), Err(Some(6)));
    assert_eq!(binary_search_with_cmp(&v, 3, 6, &2, cmp), Err(Some(3)));
    assert_eq!(binary_search_with_cmp(&v, 3, 6, &3, cmp), Err(Some(3)));
    assert_eq!(binary_search_with_cmp(&v, 3, 6, &69, cmp), Err(Some(6)));
    let v: Vec<i64> = vec![-10];
    assert_eq!(binary_search_with_cmp(&v, 0, v.len(), &9, cmp), Err(Some(1)));
    assert_eq!(binary_search_with_cmp(&v, 0, v.len(), &-10, cmp), Ok(0));
    let v: Vec<i64> = vec![-10, 1];
    assert_eq!(binary_search_with_cmp(&v, 0, v.len(), &1, cmp), Ok(1));
    assert_eq!(binary_search_with_cmp(&v, 0, v.len(), &-10, cmp), Ok(0));
}

#[test]
fn binary_search_on_empty_range_reports_no_insertion_point() {
    let v: Vec<i64> = vec![1, 2, 3];
    let cmp = |x: &i64, y: &i64| x.cmp(y);
    assert_eq!(binary_search_with_cmp(&v, 2, 2, &2, cmp), Err(None));
}
