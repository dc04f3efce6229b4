use dataplane::select::QuickSelect;

#[test]
fn test_partition_empty_slice() {
    let mut data: Vec<i64> = vec![];
    // Can't partition empty slice meaningfully - just verify no panic
    // Don't call partition with invalid indices
    let _ = QuickSelect::partition(&mut data, 0, 0, 0);
}

#[test]
fn test_partition_one_element() {
    let mut data: Vec<i64> = vec![42];
    let pivot_pos = QuickSelect::partition(&mut data, 0, 0, 0);
    assert_eq!(pivot_pos, 0);
    assert_eq!(data, vec![42]);
}

#[test]
fn test_partition_two_elements_sorted() {
    let mut data: Vec<i64> = vec![1, 2];
    let pivot_pos = QuickSelect::partition(&mut data, 0, 1, 1); // pivot=2
    assert_eq!(pivot_pos, 1);
    assert!(data[0] <= data[1]);
}

#[test]
fn test_partition_two_elements_unsorted() {
    let mut data: Vec<i64> = vec![2, 1];
    let pivot_pos = QuickSelect::partition(&mut data, 0, 1, 1); // pivot=1
    assert_eq!(pivot_pos, 0);
    assert_eq!(data, vec![1, 2]);
}

#[test]
fn test_partition_already_sorted() {
    let mut data: Vec<i64> = vec![1, 2, 3, 4, 5, 6, 7, 8, 9, 10];
    let pivot_pos = QuickSelect::partition(&mut data, 0, 9, 4); // pivot value=5

    // Everything before pivot_pos should be <= 5
    for i in 0..pivot_pos {
        assert!(data[i] <= data[pivot_pos]);
    }
    // Everything after pivot_pos should be > 5
    for i in pivot_pos + 1..data.len() {
        assert!(data[i] > data[pivot_pos]);
    }
}

#[test]
fn test_partition_reverse_sorted() {
    let mut data: Vec<i64> = vec![10, 9, 8, 7, 6, 5, 4, 3, 2, 1];
    let pivot_pos = QuickSelect::partition(&mut data, 0, 9, 4); // pivot value=6

    for i in 0..pivot_pos {
        assert!(data[i] <= data[pivot_pos]);
    }
    for i in pivot_pos + 1..data.len() {
        assert!(data[i] > data[pivot_pos]);
    }
}

#[test]
fn test_partition_all_equal() {
    let mut data: Vec<i64> = vec![5, 5, 5, 5, 5];
    let pivot_pos = QuickSelect::partition(&mut data, 0, 4, 2);
    // Should not infinite loop, pivot goes somewhere valid
    assert!(pivot_pos <= 4);
}

#[test]
fn test_partition_subarray() {
    let mut data: Vec<i64> = vec![100, 5, 3, 8, 2, 7, 100];
    // Only partition indices 1..5, leave 0 and 6 untouched
    let pivot_pos = QuickSelect::partition(&mut data, 1, 5, 3); // pivot value=8

    assert_eq!(data[0], 100); // Untouched
    assert_eq!(data[6], 100); // Untouched

    for i in 1..pivot_pos {
        assert!(data[i] <= data[pivot_pos]);
    }
    for i in pivot_pos + 1..6 {
        assert!(data[i] > data[pivot_pos]);
    }
}

#[test]
fn test_select_1() {
    let mut data: Vec<i64> = vec![7, 2, 5, 1, 8, 3];
    // left = 0
    // right = 5
    // 3-rd smallest is "index = 2"
    let elem = QuickSelect::select(&mut data, 0, 5, 2);
    assert_eq!(elem, 3);
}

#[test]
fn select_median_of_shuffled_range() {
    let mut data: Vec<i64> = vec![9, 1, 8, 2, 7, 3, 6, 4, 5, 0];
    let elem = QuickSelect::select(&mut data, 0, 9, 5);
    assert_eq!(elem, 5);
    let mut sorted = data.clone();
    sorted.sort();
    assert_eq!(sorted, (0..10).collect::<Vec<i64>>());
}
