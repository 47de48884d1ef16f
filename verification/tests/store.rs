use agnes::store::{is_hm_homogeneous, max_len, store_is_homogeneous, store_nrows};

#[test]
fn group_lengths() {
    assert_eq!(max_len(&vec![3, 7, 2]), 7);
    assert_eq!(max_len(&vec![]), 0);
    assert_eq!(is_hm_homogeneous(&vec![4, 4, 4]), Some(4));
    assert_eq!(is_hm_homogeneous(&vec![4, 5]), None);
    assert_eq!(is_hm_homogeneous(&vec![]), Some(0));
}

#[test]
fn store_rows_and_homogeneity() {
    assert!(store_is_homogeneous(&vec![vec![3, 3], vec![], vec![3], vec![], vec![]]));
    assert!(!store_is_homogeneous(&vec![vec![3, 3], vec![2], vec![], vec![], vec![]]));
    assert!(!store_is_homogeneous(&vec![vec![3, 1], vec![], vec![], vec![], vec![]]));
    assert!(store_is_homogeneous(&vec![vec![], vec![], vec![], vec![], vec![]]));
    // a column of length 0 beside a column of length 3: not homogeneous
    assert!(!store_is_homogeneous(&vec![vec![3], vec![0], vec![], vec![], vec![]]));
    assert!(store_is_homogeneous(&vec![vec![0, 0], vec![], vec![0], vec![], vec![]]));
    assert_eq!(store_nrows(&vec![vec![3, 1], vec![], vec![5], vec![], vec![2]]), 5);
    assert_eq!(store_nrows(&vec![vec![], vec![]]), 0);
}
