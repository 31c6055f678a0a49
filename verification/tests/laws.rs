use quantile_filter::block::Block;
use quantile_filter::merge::BlockUnion;
use quantile_filter::select::{LenGet, MedianUpdate, QuantileUpdate, Ranks};

fn sorted(values: &[i64]) -> Vec<i64> {
    let mut v = values.to_vec();
    v.sort();
    v
}

#[test]
fn fresh_block_holds_all_values_in_order() {
    let values = [2, 8, 5, 9, 1, 3, 4, 10];
    let mut scratch = vec![];
    let b = Block::new(&values, &mut scratch, vec![], vec![]);
    assert_eq!(b.capacity(), 8);
    assert_eq!(b.len(), 8);
    assert!(!b.is_empty());
    assert!(!b.at_end());
    assert_eq!(b.values(), [1, 2, 3, 4, 5, 8, 9, 10]);
    // the cursor starts on the middle rank
    assert_eq!(b.current_rank(), 4);
    assert_eq!(b.peek(), Some(5));
    assert_eq!(b.peek_previous(), Some(4));
}

#[test]
fn equal_values_are_ordered_by_position() {
    let values = [7, 7, 7];
    let mut scratch = vec![];
    let mut b = Block::new(&values, &mut scratch, vec![], vec![]);
    // position 1 is the middle one of three equal values
    assert!(b.is_small(0));
    assert!(!b.is_small(1));
    assert!(!b.is_small(2));
    b.delete(1);
    // the cursor went on to position 2
    assert!(b.is_small(0));
    assert!(!b.is_small(2));
    assert_eq!(b.values(), [7, 7]);
}

#[test]
fn cursor_steps_are_clamped() {
    let values = [3, 1, 2];
    let mut scratch = vec![];
    let mut b = Block::new(&values, &mut scratch, vec![], vec![]);
    b.reset();
    assert_eq!(b.current_rank(), 0);
    assert_eq!(b.peek(), Some(1));
    assert_eq!(b.peek_previous(), None);
    b.reverse();
    assert_eq!(b.current_rank(), 0);
    b.advance();
    b.advance();
    assert_eq!(b.peek(), Some(3));
    b.advance();
    assert!(b.at_end());
    assert_eq!(b.peek(), None);
    assert_eq!(b.peek_previous(), Some(3));
    b.advance();
    assert_eq!(b.current_rank(), 3);
    b.traverse_to_index(1);
    assert_eq!(b.peek(), Some(2));
    b.traverse_to_index(3);
    assert!(b.at_end());
    b.traverse_to_index(0);
    assert_eq!(b.peek(), Some(1));
}

#[test]
fn unwound_block_is_empty() {
    let values = [3, 1, 2];
    let mut scratch = vec![];
    let mut b = Block::new(&values, &mut scratch, vec![], vec![]);
    b.unwind();
    assert_eq!(b.capacity(), 3);
    assert_eq!(b.len(), 0);
    assert!(b.is_empty());
    assert!(b.at_end());
    assert_eq!(b.peek(), None);
    assert_eq!(b.peek_previous(), None);
    assert_eq!(b.current_rank(), 0);
    assert_eq!(b.values(), Vec::<i64>::new());
}

#[test]
fn unwind_and_undelete_restore_the_block() {
    let values = [2, 8, 5, 9, 1, 3, 4, 10, 5, 5];
    let mut scratch = vec![];
    let mut b = Block::new(&values, &mut scratch, vec![], vec![]);
    let rank = b.current_rank();
    let under = b.peek();
    b.unwind();
    for i in 0..values.len() {
        b.undelete(i);
        // after each step the list is the sorted prefix
        assert_eq!(b.values(), sorted(&values[..i + 1]));
        assert_eq!(b.len(), i + 1);
        // the cursor stays on the first position
        assert_eq!(b.peek(), Some(2));
    }
    assert_eq!(b.values(), sorted(&values));
    b.traverse_to_index(rank);
    assert_eq!(b.peek(), under);
}

#[test]
fn delete_in_any_order_and_undelete_in_reverse_restore_the_block() {
    let values = [4, 4, 1, 9, 7, 1, 3];
    let orders: [[usize; 7]; 4] = [
        [0, 1, 2, 3, 4, 5, 6],
        [6, 5, 4, 3, 2, 1, 0],
        [3, 0, 6, 2, 5, 1, 4],
        [2, 5, 0, 1, 6, 4, 3],
    ];
    for order in orders {
        let mut scratch = vec![];
        let mut b = Block::new(&values, &mut scratch, vec![], vec![]);
        let rank = b.current_rank();
        let under = b.peek();
        let mut left = values.to_vec();
        let mut out: Vec<usize> = Vec::new();
        for i in order {
            b.delete(i);
            out.push(i);
            let mut rest: Vec<i64> = Vec::new();
            for (p, v) in left.iter().enumerate() {
                if !out.contains(&p) {
                    rest.push(*v);
                }
            }
            assert_eq!(b.values(), sorted(&rest));
            assert_eq!(b.len(), values.len() - out.len());
        }
        assert!(b.is_empty());
        for i in order.iter().rev() {
            b.undelete(*i);
        }
        left.sort();
        assert_eq!(b.values(), left);
        // the cursor stands on the position that went out last
        assert_eq!(b.peek(), Some(values[order[6]]));
        b.traverse_to_index(rank);
        assert_eq!(b.peek(), under);
    }
}

#[test]
fn delete_keeps_the_cursor_on_its_position() {
    let values = [10, 20, 30, 40, 50];
    let mut scratch = vec![];
    let mut b = Block::new(&values, &mut scratch, vec![], vec![]);
    assert_eq!(b.peek(), Some(30));
    // before the cursor: the rank drops, the value stays
    b.delete(0);
    assert_eq!((b.current_rank(), b.peek()), (1, Some(30)));
    // after the cursor: nothing moves
    b.delete(4);
    assert_eq!((b.current_rank(), b.peek()), (1, Some(30)));
    // under the cursor: the cursor goes to the next value
    b.delete(2);
    assert_eq!((b.current_rank(), b.peek()), (1, Some(40)));
    // under the cursor and last: the cursor goes to the value before
    b.delete(3);
    assert_eq!((b.current_rank(), b.peek()), (0, Some(20)));
    // the last value of all: the cursor is past the end of an empty list
    b.delete(1);
    assert_eq!((b.current_rank(), b.peek()), (0, None));
    assert!(b.is_empty());
}

#[test]
fn delete_with_the_cursor_past_the_end() {
    let values = [10, 20, 30];
    let mut scratch = vec![];
    let mut b = Block::new(&values, &mut scratch, vec![], vec![]);
    b.traverse_to_index(3);
    assert!(b.at_end());
    b.delete(0);
    // the cursor stepped back onto the last value first
    assert_eq!((b.current_rank(), b.peek()), (1, Some(30)));
}

#[test]
fn buffers_are_used_again() {
    let first = [5, 3, 9, 1];
    let second = [2, 8];
    let mut scratch = vec![];
    let a = Block::new(&first, &mut scratch, vec![], vec![]);
    let (prev, next) = a.into_buffers();
    assert_eq!(prev.len(), 5);
    assert_eq!(next.len(), 5);
    // what the buffers hold does not matter to the next block
    let b = Block::new(&second, &mut scratch, prev, next);
    assert_eq!(b.values(), [2, 8]);
    assert_eq!(b.capacity(), 2);
}

#[test]
fn union_reads_by_rank_in_any_order() {
    let alpha_a = [3, 4, 5, 7, 3, 9, 2, 6, 9, 8];
    let alpha_b = [2, 2, 1, 7, 5, 3, 2, 6, 1, 7];
    let mut scratch = vec![];
    let a = Block::new(&alpha_a, &mut scratch, vec![], vec![]);
    let mut b = Block::new(&alpha_b, &mut scratch, vec![], vec![]);
    b.unwind();
    let mut aub = BlockUnion::new(a, b, 10);
    for i in 0..10 {
        aub.set_state(i);
        let mut window: Vec<i64> = alpha_a[i + 1..].to_vec();
        window.extend_from_slice(&alpha_b[..i + 1]);
        window.sort();
        assert_eq!(aub.len(), 10);
        // ranks are read downwards and upwards, without setting the cursors back
        for rank in [9, 0, 5, 4, 7, 2, 8, 1, 3, 6] {
            assert_eq!(aub.get(rank), window[rank]);
        }
    }
    let (left, right) = aub.into_blocks();
    assert!(left.is_empty());
    assert_eq!(right.len(), 10);
}

#[test]
fn union_steps_the_leading_cursor_back() {
    let alpha_a = [1, 5];
    let alpha_b = [3, 7];
    let mut scratch = vec![];
    let a = Block::new(&alpha_a, &mut scratch, vec![], vec![]);
    let b = Block::new(&alpha_b, &mut scratch, vec![], vec![]);
    let mut aub = BlockUnion { block_left: a, block_right: b };
    aub.block_left.traverse_to_index(2);
    aub.block_right.traverse_to_index(1);
    // the values before the cursors are 5 and 3: the left cursor leads
    aub.reverse();
    assert_eq!(aub.block_left.peek(), Some(5));
    assert_eq!(aub.block_right.peek(), Some(7));
    // now 1 and 3: the right cursor leads
    aub.reverse();
    assert_eq!(aub.block_left.peek(), Some(5));
    assert_eq!(aub.block_right.peek(), Some(3));
    aub.reverse();
    assert_eq!(aub.block_left.peek(), Some(1));
    // nothing is left to step back
    aub.reverse();
    assert_eq!(aub.block_left.current_rank() + aub.block_right.current_rank(), 0);
}

#[test]
fn block_hands_out_values_by_rank() {
    let values = [9, 1, 2];
    let mut scratch = vec![];
    let mut b = Block::new(&values, &mut scratch, vec![], vec![]);
    assert_eq!(LenGet::len(&b), 3);
    assert_eq!(b.get(2), 9);
    assert_eq!(b.get(0), 1);
    assert_eq!(b.get(1), 2);
    // as a bag of values, a block has no cursor to correct
    LenGet::reverse(&mut b);
    assert_eq!(b.peek(), Some(2));
}

#[test]
fn median_of_the_whole_numbers_is_the_lower_middle() {
    let values = [9, 1, 2, 4];
    let mut scratch = vec![];
    let b = Block::new(&values, &mut scratch, vec![], vec![]);
    let mut m = MedianUpdate::new(b);
    assert_eq!(m.median(), 2);
    let mut b = m.into_inner();
    b.delete(3);
    let mut m = MedianUpdate::new(b);
    assert_eq!(m.median(), 2);
}

#[test]
fn quantile_reads_the_two_bounds() {
    let values = [9, 1, 2, 4];
    let mut scratch = vec![];
    let b = Block::new(&values, &mut scratch, vec![], vec![]);
    let mut q = QuantileUpdate::new(Ranks { lower: 2, upper: 3 }, b);
    assert_eq!(q.bounds(), (4, 9));
    assert_eq!(q.quantile(), 4);
    let b = q.into_inner();
    let mut q = QuantileUpdate::new(Ranks { lower: 0, upper: 0 }, b);
    assert_eq!(q.bounds(), (1, 1));
}

#[test]
fn ranks_of_the_median() {
    let r = Ranks::median(1);
    assert_eq!((r.lower, r.upper), (0, 0));
    let r = Ranks::median(4);
    assert_eq!((r.lower, r.upper), (1, 2));
    let r = Ranks::median(7);
    assert_eq!((r.lower, r.upper), (3, 3));
}

#[test]
fn undelete_out_of_turn() {
    let values = [1, 2, 3, 4];
    let mut scratch = vec![];
    let mut b = Block::new(&values, &mut scratch, vec![], vec![]);
    b.delete(0);
    b.delete(3);
    assert_eq!(b.values(), [2, 3]);
    // position 0 went out first; its neighbours, the start of the list and
    // position 1, are neighbours still
    b.undelete(0);
    assert_eq!(b.values(), [1, 2, 3]);
    assert_eq!(b.len(), 3);
    b.undelete(3);
    assert_eq!(b.values(), [1, 2, 3, 4]);
    b.reset();
    assert_eq!(b.peek(), Some(1));
    b.traverse_to_index(3);
    assert_eq!(b.peek(), Some(4));
    assert_eq!(b.peek_previous(), Some(3));
}

#[test]
fn undelete_out_of_turn_keeps_the_cursor() {
    let values = [10, 20, 30, 40, 50];
    let mut scratch = vec![];
    let mut b = Block::new(&values, &mut scratch, vec![], vec![]);
    assert_eq!((b.current_rank(), b.peek()), (2, Some(30)));
    b.delete(0);
    b.delete(4);
    assert_eq!((b.current_rank(), b.peek()), (1, Some(30)));
    // before the cursor: the rank goes up, the value stays
    b.undelete(0);
    assert_eq!((b.current_rank(), b.peek()), (2, Some(30)));
    // after the cursor: nothing moves
    b.undelete(4);
    assert_eq!((b.current_rank(), b.peek()), (2, Some(30)));
    assert_eq!(b.values(), [10, 20, 30, 40, 50]);
}

#[test]
fn undelete_set_median_out_of_turn() {
    let values = [1, 2, 3, 4];
    let mut scratch = vec![];
    let mut b = Block::new(&values, &mut scratch, vec![], vec![]);
    b.delete(0);
    b.delete(3);
    b.undelete_set_median(0);
    // of three values the middle one
    assert_eq!((b.len(), b.current_rank(), b.peek()), (3, 1, Some(2)));
    b.undelete_set_median(3);
    // of four values the upper one of the two in the middle
    assert_eq!((b.len(), b.current_rank(), b.peek()), (4, 2, Some(3)));
}

#[test]
fn union_takes_the_left_value_first_among_equals() {
    let alpha_a = [5, 7];
    let alpha_b = [5, 9];
    let mut scratch = vec![];
    let mut a = Block::new(&alpha_a, &mut scratch, vec![], vec![]);
    let mut b = Block::new(&alpha_b, &mut scratch, vec![], vec![]);
    a.reset();
    b.reset();
    let mut aub = BlockUnion::new(a, b, 4);
    // the left 5 is passed first; the answer is read off the right cursor
    assert_eq!(aub.get(1), 5);
    assert_eq!(aub.block_left.current_rank(), 1);
    assert_eq!(aub.block_right.current_rank(), 0);
    assert_eq!(aub.get(0), 5);
    assert_eq!(aub.block_left.current_rank(), 0);
    assert_eq!(aub.block_right.current_rank(), 0);
    assert_eq!(aub.get(3), 9);
    assert_eq!(aub.block_left.current_rank(), 2);
    assert_eq!(aub.block_right.current_rank(), 1);
}

#[test]
fn set_state_out_of_turn() {
    let alpha_a = [4, 1, 3];
    let alpha_b = [2, 6, 5];
    let mut scratch = vec![];
    let a = Block::new(&alpha_a, &mut scratch, vec![], vec![]);
    let mut b = Block::new(&alpha_b, &mut scratch, vec![], vec![]);
    // positions 0 and 1 of the right block are out, 0 went first
    b.delete(0);
    b.delete(1);
    let mut aub = BlockUnion { block_left: a, block_right: b };
    aub.set_state(0);
    assert_eq!(aub.len(), 4);
    assert_eq!(aub.block_left.values(), [1, 3]);
    assert_eq!(aub.block_right.values(), [2, 5]);
    assert_eq!(aub.get(0), 1);
    assert_eq!(aub.get(3), 5);
}
