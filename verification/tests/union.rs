use quantile_filter::block::Block;
use quantile_filter::merge::BlockUnion;
use quantile_filter::select::LenGet;

#[test]
fn test_block_union_1() {
    let alpha_a = [10, 4, 2];
    let alpha_b = [3, 4, 1];

    let mut scratch = vec![];
    let prev = vec![];
    let next = vec![];
    let a = Block::new(&alpha_a, &mut scratch, prev, next);

    let mut scratch = vec![];
    let prev = vec![];
    let next = vec![];
    let mut b = Block::new(&alpha_b, &mut scratch, prev, next);

    b.unwind();
    let mut aub = BlockUnion::new(a, b, alpha_a.len());
    assert_eq!(aub.len(), 3);
    // STEP 0
    // block 1:
    // i:  10, 4, 2
    // s:  2, 4, 10
    // block 2: empty
    assert_eq!(aub.get(0), 2);
    assert_eq!(aub.get(1), 4);
    assert_eq!(aub.get(2), 10);

    // STEP 1
    aub.block_left.reset();
    aub.set_state(0);
    assert_eq!(aub.len(), 3);
    // block 1:
    // i:  4, 2
    // s:  2, 4
    // block 2:
    // i:  3
    // s:  3
    // union s: [2, 3, 4]
    assert_eq!(aub.get(0), 2);
    assert_eq!(aub.get(1), 3);
    assert_eq!(aub.get(2), 4);

    // STEP 2
    // i:  2
    // s:  2
    // block 2:
    // i:  3, 4
    // s:  3, 4
    // union s: [2, 3, 4]
    aub.set_state(1);
    assert_eq!(aub.get(0), 2);
    assert_eq!(aub.get(1), 3);
    assert_eq!(aub.get(2), 4);
}

#[test]
fn test_block_union_2() {
    let alpha_a = [3, 4, 5, 7, 3, 9, 2, 6, 9, 8];
    let alpha_b = [2, 2, 1, 7, 5, 3, 2, 6, 1, 7];

    let mut scratch = vec![];
    let prev = vec![];
    let next = vec![];
    let a = Block::new(&alpha_a, &mut scratch, prev, next);

    let mut scratch = vec![];
    let prev = vec![];
    let next = vec![];
    let mut b = Block::new(&alpha_b, &mut scratch, prev, next);

    b.unwind();
    let mut aub = BlockUnion::new(a, b, alpha_a.len());
    assert_eq!(aub.len(), 10);
    // STEP 0
    // block 1:
    // i:  3, 4, 5, 7, 3, 9, 2, 6, 9, 8
    // s:  2, 3, 3, 4, 5, 6, 7, 8, 9, 9
    // block 2: empty
    assert_eq!(aub.get(0), 2);
    assert_eq!(aub.get(1), 3);
    assert_eq!(aub.get(2), 3);
    // skip a step
    assert_eq!(aub.get(4), 5);
    // skip to end
    assert_eq!(aub.get(9), 9);

    // get median
    assert_eq!(aub.get(5), 6);

    // STEP 1
    aub.set_state(0);
    assert_eq!(aub.len(), 10);
    // block 1:
    // i:  4, 5, 7, 3, 9, 2, 6, 9, 8
    // s:  2, 3, 4, 5, 6, 7, 8, 9, 9
    // block 2:
    // i:  2
    // s:  2
    // union s: 2, 2, 3, 4, 5, [6], 7, 8, 9, 9
    assert_eq!(aub.get(5), 6);
    assert_eq!(aub.get(7), 8);

    // STEP 2
    aub.set_state(1);

    // Back to index 4
    aub.block_left.reset();
    aub.block_right.reset();
    assert_eq!(aub.get(4), 5);
    // block 1:
    // i:  5, 7, 3, 9, 2, 6, 9, 8
    // s:  2, 3, 5, 6, 7, 8, 9, 9
    // block 2:
    // i:  2, 2
    // s:  2, 2
    // union s: 2, 2, 3, 4, 5, [6], 7, 8, 9, 9
    assert_eq!(aub.get(5), 6);

    // STEP 3
    aub.set_state(2);
    // block 1:
    // i:  7, 3, 9, 2, 6, 9, 8
    // s:  2, 3, 6, 7, 8, 9, 9
    // block 2:
    // i:  2, 2, 1
    // s:  1, 2, 2
    // union s: 1, 2, 2, 3, 4, [6], 7, 8, 9, 9
    assert_eq!(aub.get(5), 6);

    // STEP 4
    aub.set_state(3);
    // block 1:
    // i:  3, 9, 2, 6, 9, 8
    // s:  2, 3, 6, 8, 9, 9
    // block 2:
    // i:  2, 2, 1, 7
    // s:  1, 2, 2, 7
    // union s: 1, 2, 2, 3, 4, [6], 7, 8, 9, 9
    assert_eq!(aub.get(5), 6);

    // STEP 5
    aub.set_state(4);
    // block 1:
    // i:  9, 2, 6, 9, 8
    // s:  2, 6, 8, 9, 9
    // block 2:
    // i:  2, 2, 1, 7, 5
    // s:  1, 2, 2, 5, 7
    // union s: 1, 2, 2, 2, 5, [6], 7, 8, 9, 9
    assert_eq!(aub.get(5), 6);
    assert_eq!(aub.len(), 10);

    // STEP 6
    aub.set_state(5);
    // LEFT IS phasing out
    // block 1:
    // i:  2, 6, 9, 8
    // s:  2, 6, 8, 9
    // block 2:
    // i:  2, 2, 1, 7, 5, 3
    // s:  1, 2, 2, 3, 5, 7
    // union s: 1, 2, 2, 2, 4, [5], 6, 7, 8, 9
    assert_eq!(aub.len(), 10);
    assert_eq!(aub.get(5), 5);

    // STEP 7
    aub.set_state(6);
    // block 1:
    // i:  6, 9, 8
    // s:  6, 8, 9
    // block 2:
    // i:  2, 2, 1, 7, 5, 3, 2
    // s:  1, 2, 2, 2, 3, 5, 7
    // union s: 1, 2, 2, 2, 3, [5], 6, 7, 8, 9
    assert_eq!(aub.len(), 10);
    assert_eq!(aub.get(5), 5);

    // STEP 8
    aub.set_state(7);
    // block 1:
    // i:  9, 8
    // s:  8, 9
    // block 2:
    // i:  2, 2, 1, 7, 5, 3, 2, 6
    // s:  1, 2, 2, 2, 3, 5, 6, 7
    // union s: 1, 2, 2, 2, 3, [5], 6, 7, 8, 9
    assert_eq!(aub.len(), 10);
    assert_eq!(aub.get(5), 5);

    // STEP 9
    aub.set_state(8);
    // block 1:
    // i:  8
    // s:  8
    // block 2:
    // i:  2, 2, 1, 7, 5, 3, 2, 6, 1
    // s:  1, 1, 2, 2, 2, 3, 5, 6, 7
    // union s: 1, 1, 2, 2, 2, [3], 5, 6, 7, 8
    assert_eq!(aub.len(), 10);
    assert_eq!(aub.get(5), 3);

    // STEP 10
    aub.set_state(9);
    // block 1: empty
    // block 2:
    // i:  2, 2, 1, 7, 5, 3, 2, 6, 1, 7
    // s:  1, 1, 2, 2, 2, 3, 5, 6, 7
    // union s: 1, 1, 2, 2, 2, [3], 5, 6, 7, 7
    assert_eq!(aub.len(), 10);
    assert_eq!(aub.get(5), 3);
}

