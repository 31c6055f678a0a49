//! Two blocks read as one sorted sequence: the merge of their two lists, walked by
//! the two cursors together.

use vstd::prelude::*;
use crate::block::{Block, BlockModel};
use crate::links::Links;
use crate::rank::{ascending, is_order_statistic, law_order_statistic_sorted};
use crate::select::LenGet;

verus! {

/// The two cursors split the merged sequence: no value before either cursor is
/// greater than a value under or after the other cursor.
pub open spec fn anchored(l: BlockModel, r: BlockModel) -> bool {
    &&& l.rank > 0 && r.rank < r.len() ==> l.values()[l.rank - 1] <= r.values()[r.rank]
    &&& r.rank > 0 && l.rank < l.len() ==> r.values()[r.rank - 1] <= l.values()[l.rank]
}

/// Whether the left cursor is the one to step back: it has a value before it, and
/// that value is greater than the one before the right cursor, if there is one.
pub open spec fn left_leads(l: BlockModel, r: BlockModel) -> bool {
    l.rank > 0 && (r.rank == 0 || l.values()[l.rank - 1] > r.values()[r.rank - 1])
}

/// Whether the left cursor is the one to step on: it stands on a value, and that
/// value is not greater than the one under the right cursor, if there is one.
pub open spec fn left_next(l: BlockModel, r: BlockModel) -> bool {
    l.rank < l.len() && (r.rank == r.len() || l.values()[l.rank] <= r.values()[r.rank])
}

/// The two blocks with the leading cursor stepped back once.
pub open spec fn step_back(l: BlockModel, r: BlockModel) -> (BlockModel, BlockModel) {
    if left_leads(l, r) {
        (l.reverse(), r)
    } else {
        (l, r.reverse())
    }
}

/// The two blocks with the cursor on the smaller value stepped on once; on equal
/// values the left cursor.
pub open spec fn step_on(l: BlockModel, r: BlockModel) -> (BlockModel, BlockModel) {
    if left_next(l, r) {
        (l.advance(), r)
    } else {
        (l, r.advance())
    }
}

/// The two blocks with the leading cursor stepped back for as long as the cursors
/// are not anchored or stand beyond rank `i` of the merge.
pub open spec fn set_back(l: BlockModel, r: BlockModel, i: int) -> (BlockModel, BlockModel)
    decreases l.rank + r.rank,
{
    if l.rank >= 0 && r.rank >= 0 && l.rank + r.rank > 0 && (!anchored(l, r) || l.rank + r.rank
        > i) {
        set_back(step_back(l, r).0, step_back(l, r).1, i)
    } else {
        (l, r)
    }
}

/// The two blocks with the cursors stepped on, the smaller value first, until
/// their ranks add up to `i`.
pub open spec fn walk_on(l: BlockModel, r: BlockModel, i: int) -> (BlockModel, BlockModel)
    decreases i - (l.rank + r.rank),
{
    if 0 <= l.rank <= l.len() && 0 <= r.rank <= r.len() && l.rank + r.rank < i && (l.rank
        < l.len() || r.rank < r.len()) {
        walk_on(step_on(l, r).0, step_on(l, r).1, i)
    } else {
        (l, r)
    }
}

/// Where reading rank `i` of the merge leaves the two blocks. With one block empty
/// the other one goes to rank `i`. Else the leading cursor steps back once, and on
/// until the cursors are anchored at or before rank `i`; from there the cursors
/// step on until their ranks add up to `i`.
pub open spec fn read_at(l: BlockModel, r: BlockModel, i: int) -> (BlockModel, BlockModel) {
    if r.len() == 0 {
        (l.seek(i), r)
    } else if l.len() == 0 {
        (l, r.seek(i))
    } else {
        walk_on(
            set_back(step_back(l, r).0, step_back(l, r).1, i).0,
            set_back(step_back(l, r).0, step_back(l, r).1, i).1,
            i,
        )
    }
}

/// Stepping the leading cursor back keeps the cursors anchored.
pub proof fn lemma_step_back(l: BlockModel, r: BlockModel)
    requires
        l.wf(),
        r.wf(),
        anchored(l, r),
    ensures
        left_leads(l, r) ==> anchored(l.reverse(), r),
        !left_leads(l, r) ==> anchored(l, r.reverse()),
{
    l.links.lemma_values_ascending();
    r.links.lemma_values_ascending();
    if left_leads(l, r) {
        if l.rank > 1 && r.rank < r.len() {
            assert(l.values()[l.rank - 2] <= l.values()[l.rank - 1]);
        }
    } else if r.rank > 0 {
        if r.rank > 1 && l.rank < l.len() {
            assert(r.values()[r.rank - 2] <= r.values()[r.rank - 1]);
        }
    }
}

/// Stepping on the cursor with the smaller value keeps the cursors anchored.
pub proof fn lemma_step_on(l: BlockModel, r: BlockModel)
    requires
        l.wf(),
        r.wf(),
        anchored(l, r),
        l.rank + r.rank < l.len() + r.len(),
    ensures
        left_next(l, r) ==> anchored(l.advance(), r),
        !left_next(l, r) ==> anchored(l, r.advance()),
{
    l.links.lemma_values_ascending();
    r.links.lemma_values_ascending();
    if left_next(l, r) {
        if l.rank + 1 < l.len() {
            assert(l.values()[l.rank] <= l.values()[l.rank + 1]);
        }
    } else {
        if r.rank + 1 < r.len() {
            assert(r.values()[r.rank] <= r.values()[r.rank + 1]);
        }
    }
}

/// With anchored cursors, the smaller of the two values under them has the rank
/// that the two cursor ranks add up to.
pub proof fn lemma_candidate(l: BlockModel, r: BlockModel, v: i64)
    requires
        l.wf(),
        r.wf(),
        anchored(l, r),
        l.rank + r.rank < l.len() + r.len(),
        v == (if left_next(l, r) {
            l.values()[l.rank]
        } else {
            r.values()[r.rank]
        }),
    ensures
        is_order_statistic(l.values() + r.values(), l.rank + r.rank, v),
{
    let lv: Seq<i64> = l.values();
    let rv: Seq<i64> = r.values();
    l.links.lemma_values_ascending();
    r.links.lemma_values_ascending();
    assert(ascending(lv) && ascending(rv));
    crate::rank::lemma_count_concat(lv, rv, v);
    assert forall|j: int| l.rank <= j < lv.len() implies lv[j] >= v by {
        assert(lv[l.rank] <= lv[j]);
    }
    assert forall|j: int| r.rank <= j < rv.len() implies rv[j] >= v by {
        assert(rv[r.rank] <= rv[j]);
    }
    crate::rank::lemma_count_lt_upper(lv, v, l.rank);
    crate::rank::lemma_count_lt_upper(rv, v, r.rank);
    if left_next(l, r) {
        assert forall|j: int| 0 <= j < l.rank + 1 implies lv[j] <= v by {
            assert(lv[j] <= lv[l.rank]);
        }
        assert forall|j: int| 0 <= j < r.rank implies rv[j] <= v by {
            assert(rv[j] <= rv[r.rank - 1]);
        }
        crate::rank::lemma_count_le_lower(lv, v, l.rank + 1);
        crate::rank::lemma_count_le_lower(rv, v, r.rank);
    } else {
        assert forall|j: int| 0 <= j < r.rank + 1 implies rv[j] <= v by {
            assert(rv[j] <= rv[r.rank]);
        }
        assert forall|j: int| 0 <= j < l.rank implies lv[j] <= v by {
            assert(lv[j] <= lv[l.rank - 1]);
        }
        crate::rank::lemma_count_le_lower(rv, v, r.rank + 1);
        crate::rank::lemma_count_le_lower(lv, v, l.rank);
    }
}

/// The window while it moves from one block into the next: the left block holds
/// what has not left the window yet, the right block what has entered it.
pub struct BlockUnion<'a> {
    pub block_left: Block<'a>,
    pub block_right: Block<'a>,
}

impl<'a> BlockUnion<'a> {
    /// Both blocks are well-formed.
    pub open spec fn wf(&self) -> bool {
        &&& self.block_left.wf()
        &&& self.block_right.wf()
    }

    /// The values of both blocks: the left block's, ascending, then the right block's.
    pub open spec fn values(&self) -> Seq<i64> {
        self.block_left@.values() + self.block_right@.values()
    }

    /// The union of two blocks that hold `k` values together.
    pub fn new(block_left: Block<'a>, block_right: Block<'a>, k: usize) -> (u: BlockUnion<'a>)
        requires
            block_left.wf(),
            block_right.wf(),
            block_left@.len() + block_right@.len() == k,
        ensures
            u.block_left == block_left,
            u.block_right == block_right,
            u.wf(),
    {
        BlockUnion { block_left, block_right }
    }

    /// Gives the two blocks back, the left one first.
    pub fn into_blocks(self) -> (blocks: (Block<'a>, Block<'a>))
        ensures
            blocks.0 == self.block_left,
            blocks.1 == self.block_right,
    {
        (self.block_left, self.block_right)
    }

    /// Moves position `i` from the left block to the right block. In the right
    /// block the position has to be out of the list, between two positions that are
    /// neighbours in the list.
    pub fn set_state(&mut self, i: usize)
        requires
            old(self).wf(),
            old(self).block_left@.links.is_active(i as int),
            i < old(self).block_right@.capacity(),
            !old(self).block_right@.links.is_active(i as int),
            old(self).block_right@.links.restorable(i as int),
        ensures
            final(self).wf(),
            final(self).block_left@ == old(self).block_left@.delete(i as int),
            final(self).block_right@ == old(self).block_right@.undelete(i as int),
            final(self).block_left@.len() == old(self).block_left@.len() - 1,
            final(self).block_right@.len() == old(self).block_right@.len() + 1,
            !final(self).block_left@.links.is_active(i as int),
            final(self).block_right@.links.is_active(i as int),
            old(self).block_right@.links.stacked() && old(self).block_right@.links.removed.len()
                > 0 && old(self).block_right@.links.removed.last() == i
                ==> final(self).block_right@.links.stacked(),
    {
        self.block_left.delete(i);
        self.block_right.undelete(i);
    }

    /// Whether the two cursors split the merged sequence.
    fn is_anchored(&self) -> (b: bool)
        requires
            self.wf(),
        ensures
            b == anchored(self.block_left@, self.block_right@),
    {
        let left_ok: bool = match (self.block_left.peek_previous(), self.block_right.peek()) {
            (Some(before), Some(under)) => before <= under,
            _ => true,
        };
        let right_ok: bool = match (self.block_right.peek_previous(), self.block_left.peek()) {
            (Some(before), Some(under)) => before <= under,
            _ => true,
        };
        left_ok && right_ok
    }
}


impl<'a> LenGet for BlockUnion<'a> {
    open spec fn ready(&self) -> bool {
        self.wf()
    }

    open spec fn contents(&self) -> Seq<i64> {
        self.values()
    }

    type Items = (Links, Links);

    open spec fn items(&self) -> (Links, Links) {
        (self.block_left@.links, self.block_right@.links)
    }

    proof fn lemma_items(&self, other: &Self) {
    }

    fn len(&self) -> (n: usize) {
        proof {
            self.block_left.lemma_capacity();
            self.block_right.lemma_capacity();
        }
        self.block_left.len() + self.block_right.len()
    }

    /// The value of rank `i` in the merge of the two lists. The cursors are stepped
    /// back until they split the merge at a rank not above `i`, and walk on from there.
    fn get(&mut self, i: usize) -> (v: i64)
        ensures
            (final(self).block_left@, final(self).block_right@) == read_at(
                old(self).block_left@,
                old(self).block_right@,
                i as int,
            ),
            final(self).block_left@.rank + final(self).block_right@.rank == i,
            anchored(final(self).block_left@, final(self).block_right@),
    {
        proof {
            self.block_left.lemma_capacity();
            self.block_right.lemma_capacity();
        }
        // Simple case, all elements are left.
        if self.block_right.is_empty() {
            proof {
                assert(self.values() =~= self.block_left@.values());
            }
            return self.block_left.get(i);
        } else if self.block_left.is_empty() {
            proof {
                assert(self.values() =~= self.block_right@.values());
            }
            return self.block_right.get(i);
        }
        let ghost back: (BlockModel, BlockModel) = step_back(
            self.block_left@,
            self.block_right@,
        );
        // One of the blocks can point too far, depending on what was taken out of it
        // or put into the other block.
        self.reverse();
        while !self.is_anchored() || self.block_left.current_rank()
            + self.block_right.current_rank() > i
            invariant
                self.wf(),
                self.items() == old(self).items(),
                self.block_left@.len() + self.block_right@.len() <= usize::MAX,
                set_back(self.block_left@, self.block_right@, i as int) == set_back(
                    back.0,
                    back.1,
                    i as int,
                ),
            decreases self.block_left@.rank + self.block_right@.rank,
        {
            self.reverse();
        }
        let ghost from: (BlockModel, BlockModel) = (self.block_left@, self.block_right@);
        proof {
            assert(from == set_back(back.0, back.1, i as int));
        }
        loop
            invariant
                self.wf(),
                self.items() == old(self).items(),
                anchored(self.block_left@, self.block_right@),
                self.block_left@.rank + self.block_right@.rank <= i,
                i < self.block_left@.len() + self.block_right@.len(),
                self.block_left@.len() + self.block_right@.len() <= usize::MAX,
                old(self).block_left@.len() > 0,
                old(self).block_right@.len() > 0,
                from == set_back(back.0, back.1, i as int),
                back == step_back(old(self).block_left@, old(self).block_right@),
                walk_on(self.block_left@, self.block_right@, i as int) == walk_on(
                    from.0,
                    from.1,
                    i as int,
                ),
            decreases i - (self.block_left@.rank + self.block_right@.rank),
        {
            // Current index position of the merge
            let s: usize = self.block_left.current_rank() + self.block_right.current_rank();
            let left: Option<i64> = self.block_left.peek();
            let right: Option<i64> = self.block_right.peek();
            proof {
                lemma_step_on(self.block_left@, self.block_right@);
                if s == i {
                    let v: i64 = if left_next(self.block_left@, self.block_right@) {
                        self.block_left@.values()[self.block_left@.rank]
                    } else {
                        self.block_right@.values()[self.block_right@.rank]
                    };
                    lemma_candidate(self.block_left@, self.block_right@, v);
                    law_order_statistic_sorted(self.values(), i as int, v);
                }
            }
            match (left, right) {
                (Some(left), None) => {
                    if s == i {
                        return left;
                    }
                    self.block_left.advance();
                },
                (None, Some(right)) => {
                    if s == i {
                        return right;
                    }
                    self.block_right.advance();
                },
                (Some(left), Some(right)) => {
                    // On equality, take the left as that one was first.
                    if left <= right {
                        if s == i {
                            return left;
                        }
                        self.block_left.advance();
                    } else {
                        if s == i {
                            return right;
                        }
                        self.block_right.advance();
                    }
                },
                (None, None) => {
                    proof {
                        assert(false);
                    }
                    return 0;
                },
            }
        }
    }

    /// Steps back the cursor whose previous value is the greater one; on equal
    /// values the right cursor.
    fn reverse(&mut self)
        ensures
            left_leads(old(self).block_left@, old(self).block_right@) ==> final(self).block_left@
                == old(self).block_left@.reverse() && final(self).block_right@ == old(
                self,
            ).block_right@,
            !left_leads(old(self).block_left@, old(self).block_right@) ==> final(self).block_left@
                == old(self).block_left@ && final(self).block_right@ == old(
                self,
            ).block_right@.reverse(),
            anchored(old(self).block_left@, old(self).block_right@) ==> anchored(
                final(self).block_left@,
                final(self).block_right@,
            ),
    {
        proof {
            if anchored(self.block_left@, self.block_right@) {
                lemma_step_back(self.block_left@, self.block_right@);
            }
        }
        let left: Option<i64> = self.block_left.peek_previous();
        let right: Option<i64> = self.block_right.peek_previous();
        match (left, right) {
            (Some(_), None) => {
                self.block_left.reverse();
            },
            (None, Some(_)) => {
                self.block_right.reverse();
            },
            (Some(left), Some(right)) => {
                if left <= right {
                    self.block_right.reverse();
                } else {
                    self.block_left.reverse();
                }
            },
            (None, None) => {},
        }
    }
}

} // verus!
