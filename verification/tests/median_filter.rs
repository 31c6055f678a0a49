use quantile_filter::block::Block;
use quantile_filter::merge::BlockUnion;
use quantile_filter::select::LenGet;

#[test]
fn test_block() {
    //                    0, 1, 2, 3, 4, 5, 6, 7
    let values = [2, 8, 5, 9, 1, 3, 4, 10];
    let mut scratch = vec![];
    let prev = vec![];
    let next = vec![];
    let mut b = Block::new(&values, &mut scratch, prev, next);

    // Unwind to get temporal window
    b.unwind();

    // Insert window in the right order
    b.undelete_set_median(0);
    // [[2]]
    assert_eq!(b.peek(), Some(2));
    b.undelete_set_median(1);
    // [2, [8]]
    assert_eq!(b.peek(), Some(8));
    b.undelete_set_median(2);
    // [2, [5], 8]
    assert_eq!(b.peek(), Some(5));
    b.undelete_set_median(3);
    // [2, 5, [8], 9]
    assert_eq!(b.peek(), Some(8));
    b.undelete_set_median(4);
    // [1, 2, [5], 8, 9]
    assert_eq!(b.peek(), Some(5));
    b.undelete_set_median(5);
    // [1, 2, 3, [5], 8, 9]
    assert_eq!(b.peek(), Some(5));
    b.undelete_set_median(6);
    // [1, 2, 3, [4], 5, 8, 9]
    assert_eq!(b.peek(), Some(4));
    b.undelete_set_median(7);
    // [1, 2, 3, 4, [5], 8, 9, 10]
    assert_eq!(b.peek(), Some(5));

    // Now we will delete as the block will leave the window.
    b.delete_set_median(0);
    // [1, 3, 4, [5], 8, 9, 10]
    assert_eq!(b.peek(), Some(5));
    b.delete_set_median(1);
    // [1, 3, 4, [5], 9, 10]
    assert_eq!(b.peek(), Some(5));
    b.delete_set_median(2);
    // [1, 3, [4],  9, 10]
    assert_eq!(b.peek(), Some(4));
    b.delete_set_median(3);
    // [1, 3, [4], 10]
    assert_eq!(b.peek(), Some(4));
    b.delete_set_median(4);
    // [3, [4], 10]
    assert_eq!(b.peek(), Some(4));
    b.delete_set_median(5);
    // [4, [10]]
    assert_eq!(b.peek(), Some(10));
    b.delete_set_median(6);
    // [[10]]
    assert_eq!(b.peek(), Some(10));
}

#[test]
fn median_filter_test_block_2() {
    let values = [9, 1, 2];
    let mut scratch = vec![];
    let prev = vec![];
    let next = vec![];
    let mut b = Block::new(&values, &mut scratch, prev, next);

    b.unwind();
    b.undelete_set_median(0);
    assert_eq!(b.peek(), Some(9));
    b.undelete_set_median(1);
    assert_eq!(b.peek(), Some(9));
    b.undelete_set_median(2);
    assert_eq!(b.peek(), Some(2));
}

#[test]
fn test_block_union() {
    let alpha_a = [10, 4, 2];
    let alpha_b = [3, 4, 1];

    let mut scratch = vec![];
    let prev = vec![];
    let next = vec![];
    let a = Block::new(&alpha_a, &mut scratch, prev, next);

    let mut scratch = vec![];
    let prev = vec![];
    let next = vec![];
    let mut b = Block::new(&alpha_b, &mut scratch, prev, next);

    b.unwind();
    let mut aub = BlockUnion::new(a, b, alpha_a.len());
    assert_eq!(aub.len(), 3);
    // STEP 0
    // block 1:
    // i:  10, 4, 2
    // s:  2, 4, 10
    // block 2: empty
    assert_eq!(aub.get(0), 2);
    assert_eq!(aub.get(1), 4);
    assert_eq!(aub.get(2), 10);

    // STEP 1
    aub.block_left.reset();
    aub.block_left.delete(0);
    aub.block_right.undelete(0);
    assert_eq!(aub.len(), 3);
    // block 1:
    // i:  4, 2
    // s:  2, 4
    // block 2:
    // i:  3
    // s:  3
    // union s: [2, 3, 4]
    assert_eq!(aub.get(0), 2);
    assert_eq!(aub.get(1), 3);
    assert_eq!(aub.get(0), 2);
    assert_eq!(aub.len(), 3);
}
