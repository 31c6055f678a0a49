use quantile_filter::block::Block;

#[test]
fn test_block_1() {
    //                    0, 1, 2, 3, 4, 5, 6, 7
    let values = [2, 8, 5, 9, 1, 3, 4, 10];
    let mut scratch = vec![];
    let prev = vec![];
    let next = vec![];
    let mut b = Block::new(&values, &mut scratch, prev, next);

    // Unwind to get temporal window
    b.unwind();

    // Insert window in the right order
    b.undelete_set_median(0);
    // [[2]]
    assert_eq!(b.peek(), Some(2));
    b.undelete_set_median(1);
    // [2, [8]]
    assert_eq!(b.peek(), Some(8));
    b.undelete_set_median(2);
    // [2, [5], 8]
    assert_eq!(b.peek(), Some(5));
    b.undelete_set_median(3);
    // [2, 5, [8], 9]
    assert_eq!(b.peek(), Some(8));
    b.undelete_set_median(4);
    // [1, 2, [5], 8, 9]
    assert_eq!(b.peek(), Some(5));
    b.undelete_set_median(5);
    // [1, 2, 3, [5], 8, 9]
    assert_eq!(b.peek(), Some(5));
    b.undelete_set_median(6);
    // [1, 2, 3, [4], 5, 8, 9]
    assert_eq!(b.peek(), Some(4));
    b.undelete_set_median(7);
    // [1, 2, 3, 4, [5], 8, 9, 10]
    assert_eq!(b.peek(), Some(5));

    // Now we will delete as the block will leave the window.
    b.delete_set_median(0);
    // [1, 3, 4, [5], 8, 9, 10]
    assert_eq!(b.peek(), Some(5));
    b.delete_set_median(1);
    // [1, 3, 4, [5], 9, 10]
    assert_eq!(b.peek(), Some(5));
    b.delete_set_median(2);
    // [1, 3, [4],  9, 10]
    assert_eq!(b.peek(), Some(4));
    b.delete_set_median(3);
    // [1, 3, [4], 10]
    assert_eq!(b.peek(), Some(4));
    b.delete_set_median(4);
    // [3, [4], 10]
    assert_eq!(b.peek(), Some(4));
    b.delete_set_median(5);
    // [4, [10]]
    assert_eq!(b.peek(), Some(10));
    b.delete_set_median(6);
    // [[10]]
    assert_eq!(b.peek(), Some(10));
}

#[test]
fn quantile_filter_test_block_2() {
    let values = [9, 1, 2];
    let mut scratch = vec![];
    let prev = vec![];
    let next = vec![];
    let mut b = Block::new(&values, &mut scratch, prev, next);

    b.unwind();
    b.undelete_set_median(0);
    assert_eq!(b.peek(), Some(9));
    b.undelete_set_median(1);
    assert_eq!(b.peek(), Some(9));
    b.undelete_set_median(2);
    assert_eq!(b.peek(), Some(2));
}
