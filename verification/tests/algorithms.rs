use sorting::algorithms::{bubble_sort, insertion_sort, merge_sort, quick_sort, selection_sort};

fn reverse_list_test(func: fn(&mut Vec<i32>)) {
    let mut arr: Vec<i32> = vec![5, 3, 2, 4, 1];
    func(&mut arr);
    assert_eq!(arr, vec![1, 2, 3, 4, 5], "reverse_list_test failed");
}

fn duplicates_list_test(func: fn(&mut Vec<i32>)) {
    let mut arr: Vec<i32> = vec![4, 2, 3, 2, 1, 4];
    func(&mut arr);
    assert_eq!(arr, vec![1, 2, 2, 3, 4, 4], "duplicates_list_test failed");
}

fn already_sorted_list_test(func: fn(&mut Vec<i32>)) {
    let mut arr: Vec<i32> = vec![1, 2, 3, 4, 5];
    func(&mut arr);
    assert_eq!(arr, vec![1, 2, 3, 4, 5], "already_sorted_list_test failed");
}

fn singleton_list_test(func: fn(&mut Vec<i32>)) {
    let mut arr: Vec<i32> = vec![42];
    func(&mut arr);
    assert_eq!(arr, vec![42], "singleton_list_test failed");
}

fn empty_list_test(func: fn(&mut Vec<i32>)) {
    let mut arr: Vec<i32> = vec![];
    func(&mut arr);
    assert_eq!(arr, vec![], "empty_list_test failed");
}

#[test]
fn test_selection_sort() {
    reverse_list_test(selection_sort);
    duplicates_list_test(selection_sort);
    already_sorted_list_test(selection_sort);
    singleton_list_test(selection_sort);
    empty_list_test(selection_sort);
}

#[test]
fn test_bubble_sort() {
    reverse_list_test(bubble_sort);
    duplicates_list_test(bubble_sort);
    already_sorted_list_test(bubble_sort);
    singleton_list_test(bubble_sort);
    empty_list_test(bubble_sort);
}

#[test]
fn test_insertion_sort() {
    reverse_list_test(insertion_sort);
    duplicates_list_test(insertion_sort);
    already_sorted_list_test(insertion_sort);
    singleton_list_test(insertion_sort);
    empty_list_test(insertion_sort);
}

#[test]
fn test_quick_sort() {
    reverse_list_test(quick_sort);
    duplicates_list_test(quick_sort);
    already_sorted_list_test(quick_sort);
    singleton_list_test(quick_sort);
    empty_list_test(quick_sort);
}

#[test]
fn test_merge_sort() {
    reverse_list_test(merge_sort);
    duplicates_list_test(merge_sort);
    already_sorted_list_test(merge_sort);
    singleton_list_test(merge_sort);
    empty_list_test(merge_sort);
}
