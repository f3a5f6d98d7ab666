use bfcrs::utils::iter_utils::IterUtils;
use bfcrs::utils::vec_utils::VecUtils;

#[test]
fn neighbours_are_fused_where_the_fuser_joins_them() {
    let sum_of_equal_signs = |a: &i32, b: &i32| {
        if (*a >= 0) == (*b >= 0) {
            Some(a + b)
        } else {
            None
        }
    };
    assert_eq!(
        vec![1, 2, -3, -4, 5, -6, -1, -1].fuse_to_vec(sum_of_equal_signs),
        vec![3, -7, 5, -8]
    );
    assert_eq!(Vec::<i32>::new().fuse_to_vec(sum_of_equal_signs), vec![]);
    assert_eq!(vec![4].fuse_to_vec(sum_of_equal_signs), vec![4]);
    assert_eq!(
        vec![1, 2, 3].fuse_to_vec(|_: &i32, _: &i32| None),
        vec![1, 2, 3]
    );
    assert_eq!(
        vec!["a".to_string(), "b".to_string(), "c".to_string()]
            .fuse_to_vec(|a: &String, b: &String| Some(format!("{}{}", a, b))),
        vec!["abc".to_string()]
    );
}

#[test]
fn searches_find_the_nearest_match() {
    let items = vec![5, 7, 5, 9, 7];
    assert_eq!(items.find_index(&7, 0), Some(1));
    assert_eq!(items.find_index(&7, 1), Some(1));
    assert_eq!(items.find_index(&7, 2), Some(4));
    assert_eq!(items.find_index(&7, 5), None);
    assert_eq!(items.find_index(&7, 50), None);
    assert_eq!(items.find_index(&1, 0), None);

    assert_eq!(items.find_index_backwards(&7, 5), Some(4));
    assert_eq!(items.find_index_backwards(&7, 4), Some(1));
    assert_eq!(items.find_index_backwards(&7, 1), None);
    assert_eq!(items.find_index_backwards(&5, 0), None);
    assert_eq!(items.find_index_backwards(&5, 6), None);
    assert_eq!(items.find_index_backwards(&1, 5), None);

    assert_eq!(items.find_within_indices(&5, &[1, 3, 2, 0]), Some(2));
    assert_eq!(items.find_within_indices(&5, &[1, 3, 9, 0]), None);
    assert_eq!(items.find_within_indices(&5, &[]), None);
    assert_eq!(items.find_within_indices(&9, &[4, 4, 3]), Some(3));
}
