use sorting::algorithms::{
    bubble_sort, insertion_sort, merge, merge_sort, partition, quick_sort, selection_sort,
};

fn all_sorts() -> Vec<fn(&mut Vec<i32>)> {
    vec![selection_sort, bubble_sort, insertion_sort, quick_sort, merge_sort]
}

#[test]
fn every_sort_yields_the_sorted_permutation() {
    for func in all_sorts() {
        let mut arr: Vec<i32> = vec![9, -3, 0, 9, 7, -3];
        func(&mut arr);
        assert_eq!(arr, vec![-3, -3, 0, 7, 9, 9]);
    }
}

#[test]
fn every_sort_handles_a_longer_list_with_duplicates() {
    for func in all_sorts() {
        let mut arr: Vec<i32> = vec![3, 1, 4, 1, 5, 9, 2, 6, 5, 3, 5];
        func(&mut arr);
        assert_eq!(arr, vec![1, 1, 2, 3, 3, 4, 5, 5, 5, 6, 9]);
    }
}

#[test]
fn every_sort_is_idempotent() {
    for func in all_sorts() {
        let mut arr: Vec<i32> = vec![8, 6, 7, 5, 3, 0, 9];
        func(&mut arr);
        let once = arr.clone();
        func(&mut arr);
        assert_eq!(arr, once);
    }
}

#[test]
fn partition_full_range_splits_around_last_element() {
    let mut arr: Vec<i32> = vec![3, 1, 4, 1, 5, 9, 2, 6, 5, 3, 5];
    let p = partition(&mut arr, 0, 10);
    assert!(p <= 10);
    assert_eq!(arr[p], 5, "the pivot must come to rest at the returned index");
    for k in 0..p {
        assert!(arr[k] < 5, "everything left of the pivot is strictly below it");
    }
    for k in p..11 {
        assert!(arr[k] >= 5, "everything at or right of the pivot is at least it");
    }
    let mut remaining = arr.clone();
    quick_sort(&mut remaining);
    assert_eq!(remaining, vec![1, 1, 2, 3, 3, 4, 5, 5, 5, 6, 9], "partition keeps the elements");
}

#[test]
fn partition_of_an_inner_range_leaves_the_rest_alone() {
    let mut arr: Vec<i32> = vec![7, 9, 2, 8, 3, 1];
    let p = partition(&mut arr, 1, 4);
    assert!(1 <= p && p <= 4);
    assert_eq!(arr[p], 3, "the pivot of the range 1..=4 is its last element");
    assert_eq!(arr[0], 7);
    assert_eq!(arr[5], 1);
}

#[test]
fn merge_interleaves_two_sorted_runs() {
    let left_arr: Vec<i32> = vec![1, 3, 5];
    let right_arr: Vec<i32> = vec![2, 4, 6];
    let mut arr: Vec<i32> = vec![0; 6];
    merge(&mut arr, &left_arr, &right_arr);
    assert_eq!(arr, vec![1, 2, 3, 4, 5, 6]);
}

#[test]
fn merge_empties_one_run_then_copies_the_other() {
    let left_arr: Vec<i32> = vec![4, 5, 6];
    let right_arr: Vec<i32> = vec![1, 2, 3];
    let mut arr: Vec<i32> = vec![0; 6];
    merge(&mut arr, &left_arr, &right_arr);
    assert_eq!(arr, vec![1, 2, 3, 4, 5, 6]);
}

#[test]
fn merge_with_an_empty_run() {
    let left_arr: Vec<i32> = vec![];
    let right_arr: Vec<i32> = vec![2, 4];
    let mut arr: Vec<i32> = vec![0, 0];
    merge(&mut arr, &left_arr, &right_arr);
    assert_eq!(arr, vec![2, 4]);
}

#[test]
fn every_sort_handles_a_descending_list() {
    for func in all_sorts() {
        let mut arr: Vec<i32> = vec![10, 9, 8, 7, 6, 5, 4, 3, 2, 1];
        func(&mut arr);
        assert_eq!(arr, vec![1, 2, 3, 4, 5, 6, 7, 8, 9, 10]);
    }
}

#[test]
fn every_sort_handles_all_equal_elements() {
    for func in all_sorts() {
        let mut arr: Vec<i32> = vec![5, 5, 5, 5];
        func(&mut arr);
        assert_eq!(arr, vec![5, 5, 5, 5]);
    }
}
