use dataplane::EytzingerTree;

#[test]
fn test_eytzinger_layout() {
    {
        let sorted: Vec<i64> = vec![1, 2, 3, 4, 5, 6, 7];
        // Expected layout:
        //
        //       4
        //      / \
        //     2   6
        //    / \ / \
        //   1  3 5  7
        //
        // Position: [0,  1,  2,  3,  4,  5,  6,  7]
        // Value:    [4,  2,  6,  1,  3,  5,  7]
        let eytz = EytzingerTree::new(&sorted);
        assert_eq!(eytz.as_ref(), vec![4, 2, 6, 1, 3, 5, 7]);
    }

    {
        let sorted: Vec<i64> = vec![0, 1, 2, 3, 4, 5, 6, 7, 8, 9];
        let expected: Vec<i64> = vec![6, 3, 8, 1, 5, 7, 9, 0, 2, 4];
        assert_eq!(EytzingerTree::new(&sorted).as_ref(), expected);
    }
}

#[test]
fn test_search() {
    let sorted: Vec<i64> = vec![0, 1, 2, 3, 4, 5, 6, 7, 8, 9];
    let tree = EytzingerTree::new(&sorted);

    // Should find all elements
    for i in 0..10 {
        assert!(tree.search(i).is_some());
        assert!(tree.search_optimized(i).is_some());
    }
    println!("{:?}", tree.as_ref());

    // Should not find these
    assert!(tree.search(10).is_none());
    assert!(tree.search(-1).is_none());
    assert!(tree.search_optimized(10).is_none());
    assert!(tree.search_optimized(-1).is_none());
}

#[test]
fn search_returns_matching_index() {
    let sorted: Vec<i64> = vec![2, 4, 6, 8, 10, 12, 14];
    let tree = EytzingerTree::new(&sorted);
    for v in [2i64, 4, 6, 8, 10, 12, 14] {
        let i = tree.search(v).expect("present value");
        assert_eq!(tree.as_ref()[i], v);
        let j = tree.search_optimized(v).expect("present value");
        assert_eq!(tree.as_ref()[j], v);
    }
    for v in [1i64, 3, 5, 7, 9, 11, 13, 15] {
        assert!(tree.search(v).is_none());
        assert!(tree.search_optimized(v).is_none());
    }
}
