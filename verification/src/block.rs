//! A block: the values of one window-wide slice, threaded as a sorted doubly-linked
//! list, with a cursor that walks the list.

use vstd::prelude::*;
use crate::argsort::{arg_sort, is_stable_ascending, sortable, sortable_len};
use crate::links::{key_lt, Links};

verus! {

/// The link entries as mathematical integers.
pub open spec fn ints(s: Seq<u32>) -> Seq<int> {
    Seq::new(s.len(), |a: int| s[a] as int)
}

/// What a block is: its links and list, and where its cursor stands.
pub struct BlockModel {
    /// The link arrays and the list of active positions.
    pub links: Links,
    /// The position under the cursor; the sentinel when the cursor is past the end.
    pub cursor: int,
    /// The rank of the cursor in the list; the length of the list when past the end.
    pub rank: int,
}

impl BlockModel {
    /// The number of active positions.
    pub open spec fn len(self) -> int {
        self.links.order.len() as int
    }

    /// The number of positions, active or not.
    pub open spec fn capacity(self) -> int {
        self.links.alpha.len() as int
    }

    /// The values of the active positions in ascending order.
    pub open spec fn values(self) -> Seq<i64> {
        self.links.values()
    }

    /// The links are well-formed, and the cursor stands on the position of its rank.
    pub open spec fn wf(self) -> bool {
        &&& self.links.wf()
        &&& 0 <= self.rank <= self.len()
        &&& self.cursor == self.links.at(self.rank)
    }

    /// The block with the cursor on rank `target`.
    pub open spec fn seek(self, target: int) -> BlockModel {
        BlockModel { links: self.links, cursor: self.links.at(target), rank: target }
    }

    /// One step towards the end; none when the cursor is past the end.
    pub open spec fn advance(self) -> BlockModel {
        if self.rank < self.len() {
            self.seek(self.rank + 1)
        } else {
            self
        }
    }

    /// One step towards the start; none when the cursor is at rank 0.
    pub open spec fn reverse(self) -> BlockModel {
        if self.rank > 0 {
            self.seek(self.rank - 1)
        } else {
            self
        }
    }

    /// The cursor stepped back onto the list if it stood past the end.
    pub open spec fn settle(self) -> BlockModel {
        if self.rank == self.len() {
            self.reverse()
        } else {
            self
        }
    }

    /// The block after the active position `i` is taken out. The cursor stays on its
    /// position; if that is `i` itself, it moves to the position after `i`, or, where
    /// `i` was the last of several, to the position before it.
    pub open spec fn delete(self, i: int) -> BlockModel {
        let s: BlockModel = self.settle();
        let idx: int = s.links.slot(i);
        let links: Links = s.links.unlink(i);
        let rank: int = if idx < s.rank || (idx == s.rank && idx == links.order.len() && idx
            > 0) {
            s.rank - 1
        } else {
            s.rank
        };
        BlockModel { links, cursor: links.at(rank), rank }
    }

    /// The block after the removed position `i` is put back between the two
    /// positions that its links name. The cursor stays on its position; in an empty
    /// block it goes to `i`.
    pub open spec fn undelete(self, i: int) -> BlockModel {
        let s: BlockModel = self.settle();
        let idx: int = s.links.slot(s.links.next[i]);
        let links: Links = s.links.relink(i);
        let rank: int = if s.len() > 0 && idx <= s.rank {
            s.rank + 1
        } else {
            s.rank
        };
        BlockModel { links, cursor: links.at(rank), rank }
    }

    /// The block after all its positions are taken out, the last position first.
    pub open spec fn unwind(self) -> BlockModel {
        BlockModel { links: self.links.unlink_down(0), cursor: self.links.tail(), rank: 0 }
    }

    /// Where the cursor of a block stands, by rank, once position `i` is taken out.
    pub proof fn lemma_delete_cursor(self, i: int)
        requires
            self.wf(),
            self.rank < self.len(),
            self.links.is_active(i),
        ensures
            ({
                let idx: int = self.links.slot(i);
                let out: Links = self.links.unlink(i);
                &&& 0 <= idx < self.len()
                &&& 0 <= i < self.capacity()
                &&& 0 <= self.cursor < self.capacity()
                &&& out.order.len() == self.len() - 1
                &&& key_lt(self.links.alpha, i, self.cursor) <==> idx < self.rank
                &&& i == self.cursor <==> idx == self.rank
                &&& idx < self.rank ==> out.at(self.rank - 1) == self.cursor
                &&& idx > self.rank ==> out.at(self.rank) == self.cursor
                &&& idx == self.rank ==> out.at(self.rank) == self.links.next[i]
                &&& idx == self.rank && self.rank > 0 ==> out.at(self.rank - 1)
                    == self.links.prev[i]
                &&& idx == self.rank ==> (self.links.next[i] == self.links.tail() <==> self.rank
                    == self.len() - 1)
            }),
    {
        let idx: int = self.links.slot(i);
        let out: Links = self.links.unlink(i);
        self.links.lemma_slot_of_active(i);
        self.links.lemma_rank_order(idx, self.rank);
        self.links.lemma_slot(self.rank);
        self.links.lemma_neighbours(idx);
        self.links.lemma_remove_shape(idx);
        if self.rank > 0 {
            assert(out.order[self.rank - 1] == self.links.order[crate::links::skip(
                self.rank - 1,
                idx,
            )]);
        }
        if self.rank < out.order.len() {
            assert(out.order[self.rank] == self.links.order[crate::links::skip(self.rank, idx)]);
        }
    }

    /// Where the cursor of a block stands, by rank, once position `i` is put back.
    pub proof fn lemma_undelete_cursor(self, i: int)
        requires
            self.wf(),
            self.len() == 0 || self.rank < self.len(),
            self.links.restorable(i),
            !self.links.is_active(i),
        ensures
            ({
                let idx: int = self.links.slot(self.links.next[i]);
                let back: Links = self.links.relink(i);
                &&& back.wf()
                &&& back.is_active(i)
                &&& back.order.len() == self.len() + 1
                &&& back.order.len() <= self.capacity()
                &&& back.prev[i] == self.links.prev[i]
                &&& back.next[i] == self.links.next[i]
                &&& self.len() == 0 ==> back.at(0) == i && back.prev[self.links.tail()] == i
                &&& self.len() > 0 ==> 0 <= self.cursor < self.capacity()
                &&& self.len() > 0 ==> (key_lt(self.links.alpha, i, self.cursor) <==> idx
                    <= self.rank)
                &&& self.len() > 0 && idx <= self.rank ==> back.at(self.rank + 1) == self.cursor
                &&& self.len() > 0 && idx > self.rank ==> back.at(self.rank) == self.cursor
            }),
    {
        let idx: int = self.links.slot(self.links.next[i]);
        let back: Links = self.links.relink(i);
        self.links.lemma_relink_wf(i);
        self.links.lemma_step(self.rank);
        self.links.lemma_step(idx - 1);
        self.links.lemma_step(idx);
        if self.len() > 0 {
            if idx <= self.rank {
                assert(back.order[self.rank + 1] == self.links.order[crate::links::unskip(
                    self.rank + 1,
                    idx,
                )]);
                back.lemma_rank_order(idx, self.rank + 1);
            } else {
                assert(back.order[self.rank] == self.links.order[crate::links::unskip(
                    self.rank,
                    idx,
                )]);
                back.lemma_rank_order(idx, self.rank);
            }
        } else {
            back.lemma_step(0);
        }
    }
}

/// A block over a slice of values. Its positions are the indices of the slice.
pub struct Block<'a> {
    alpha: &'a [i64],
    prev: Vec<u32>,
    next: Vec<u32>,
    tail: usize,
    n_element: usize,
    m: usize,
    current_index: usize,
    order: Ghost<Seq<int>>,
    removed: Ghost<Seq<int>>,
}

impl<'a> View for Block<'a> {
    type V = BlockModel;

    closed spec fn view(&self) -> BlockModel {
        BlockModel {
            links: Links {
                alpha: self.alpha@,
                prev: ints(self.prev@),
                next: ints(self.next@),
                order: self.order@,
                removed: self.removed@,
            },
            cursor: self.m as int,
            rank: self.current_index as int,
        }
    }
}

impl<'a> Block<'a> {
    /// The fields that are kept beside the model agree with it.
    pub closed spec fn inv(&self) -> bool {
        &&& self.tail == self.alpha@.len()
        &&& sortable_len(self.alpha@.len())
        &&& self.n_element == self.order@.len()
    }

    /// The block is a well-formed list with a cursor.
    pub open spec fn wf(&self) -> bool {
        &&& self.inv()
        &&& self@.wf()
    }

    /// Threads the two arrays in the order of `pi`.
    fn init_links(&mut self, pi: &Vec<u32>)
        requires
            old(self).tail == old(self).alpha@.len(),
            old(self).tail >= 1,
            sortable_len(old(self).alpha@.len()),
            old(self).prev@.len() == old(self).tail + 1,
            old(self).next@.len() == old(self).tail + 1,
            is_stable_ascending(old(self).alpha@, pi@),
        ensures
            final(self).alpha == old(self).alpha,
            final(self).tail == old(self).tail,
            final(self).n_element == old(self).n_element,
            final(self).m == old(self).m,
            final(self).current_index == old(self).current_index,
            final(self).order == old(self).order,
            final(self).removed == old(self).removed,
            final(self).prev@.len() == old(self).tail + 1,
            final(self).next@.len() == old(self).tail + 1,
            final(self).next@[final(self).tail as int] == pi@[0],
            final(self).prev@[final(self).tail as int] == pi@[pi@.len() - 1],
            final(self).prev@[pi@[0] as int] == final(self).tail,
            final(self).next@[pi@[pi@.len() - 1] as int] == final(self).tail,
            forall|a: int, b: int|
                0 <= a && b == a + 1 && b < pi@.len() ==> final(self).next@[#[trigger] pi@[a] as int]
                    == #[trigger] pi@[b],
            forall|a: int, b: int|
                0 <= a && b == a + 1 && b < pi@.len() ==> final(self).prev@[#[trigger] pi@[b] as int]
                    == #[trigger] pi@[a],
    {
        let k: usize = self.tail;
        let mut p: usize = self.tail;
        let mut j: usize = 0;
        while j < k
            invariant
                0 <= j <= k,
                k == self.tail,
                k == pi@.len(),
                k <= u32::MAX,
                self.alpha == old(self).alpha,
                self.tail == old(self).tail,
                self.n_element == old(self).n_element,
                self.m == old(self).m,
                self.current_index == old(self).current_index,
                self.order == old(self).order,
                self.removed == old(self).removed,
                self.prev@.len() == k + 1,
                self.next@.len() == k + 1,
                is_stable_ascending(self.alpha@, pi@),
                p == (if j == 0 {
                    k as int
                } else {
                    pi@[j - 1] as int
                }),
                j > 0 ==> self.next@[k as int] == pi@[0],
                j > 0 ==> self.prev@[pi@[0] as int] == k,
                forall|a: int, b: int|
                    0 <= a && b == a + 1 && b < j ==> self.next@[#[trigger] pi@[a] as int]
                        == #[trigger] pi@[b],
                forall|a: int, b: int|
                    0 <= a && b == a + 1 && b < j ==> self.prev@[#[trigger] pi@[b] as int]
                        == #[trigger] pi@[a],
            decreases k - j,
        {
            let q: u32 = pi[j];
            proof {
                assert forall|a: int| 0 <= a < j implies #[trigger] pi@[a] != q by {
                    assert(key_lt(self.alpha@, pi@[a] as int, pi@[j as int] as int));
                }
            }
            self.next[p] = q;
            self.prev[q as usize] = p as u32;
            p = q as usize;
            j = j + 1;
        }
        proof {
            assert forall|a: int| 0 <= a < k - 1 implies #[trigger] pi@[a] != pi@[k - 1] by {
                assert(key_lt(self.alpha@, pi@[a] as int, pi@[k - 1] as int));
            }
        }
        self.next[p] = self.tail as u32;
        self.prev[self.tail] = p as u32;
    }

    /// A block over `alpha` with every position active and the cursor on the middle
    /// rank. The sort works in the spare capacity of `scratch`; `prev` and `next` are
    /// buffers to thread, whatever they hold.
    pub fn new(alpha: &'a [i64], scratch: &mut Vec<u8>, prev: Vec<u32>, next: Vec<u32>) -> (b:
        Block<'a>)
        requires
            alpha@.len() >= 1,
            sortable(alpha@.len(), old(scratch)@.len()),
        ensures
            b.wf(),
            b@.links.stacked(),
            final(scratch)@ == old(scratch)@,
            b@.links.alpha == alpha@,
            b@.links.removed == Seq::<int>::empty(),
            b@.len() == alpha@.len(),
            b@.rank == alpha@.len() / 2,
            b@.values() == crate::rank::sorted(alpha@),
    {
        let k: usize = alpha.len();
        let pi: Vec<u32> = arg_sort(alpha, scratch);
        let m_index: usize = k / 2;
        let m: usize = pi[m_index] as usize;
        let mut prev = prev;
        let mut next = next;
        prev.resize(k + 1, 0u32);
        next.resize(k + 1, 0u32);
        let mut b = Block {
            alpha,
            prev,
            next,
            tail: k,
            n_element: k,
            m,
            current_index: m_index,
            order: Ghost(ints(pi@)),
            removed: Ghost(Seq::empty()),
        };
        b.init_links(&pi);
        proof {
            lemma_threaded_consistent(b@.links, pi@);
            crate::laws::law_full_values(b@.links);
        }
        b
    }

    /// The number of positions of the block, active or not.
    pub fn capacity(&self) -> (k: usize)
        requires
            self.wf(),
        ensures
            k == self@.capacity(),
    {
        self.alpha.len()
    }

    /// The number of active positions.
    pub fn len(&self) -> (n: usize)
        requires
            self.wf(),
        ensures
            n == self@.len(),
    {
        self.n_element
    }

    /// The rank of the cursor; the number of active positions when it is past the end.
    pub fn current_rank(&self) -> (r: usize)
        requires
            self.wf(),
        ensures
            r == self@.rank,
    {
        self.current_index
    }

    /// The position under the cursor; the number of positions when the cursor is
    /// past the end.
    pub fn cursor(&self) -> (m: usize)
        requires
            self.wf(),
        ensures
            m == self@.cursor,
    {
        self.m
    }

    /// Whether no position is active.
    pub fn is_empty(&self) -> (e: bool)
        requires
            self.wf(),
        ensures
            e == (self@.len() == 0),
    {
        self.n_element == 0
    }

    /// Whether the cursor is past the end of the list.
    pub fn at_end(&self) -> (e: bool)
        requires
            self.wf(),
        ensures
            e == (self@.rank == self@.len()),
            e == (self@.cursor == self@.links.tail()),
    {
        proof {
            self@.links.lemma_step(self@.rank);
        }
        self.m == self.tail
    }

    /// The value under the cursor; `None` past the end.
    pub fn peek(&self) -> (v: Option<i64>)
        requires
            self.wf(),
        ensures
            v == (if self@.rank < self@.len() {
                Some(self@.values()[self@.rank])
            } else {
                None
            }),
    {
        if self.at_end() {
            None
        } else {
            Some(self.alpha[self.m])
        }
    }

    /// The value one rank before the cursor; `None` when the cursor is at rank 0.
    pub fn peek_previous(&self) -> (v: Option<i64>)
        requires
            self.wf(),
        ensures
            v == (if self@.rank > 0 {
                Some(self@.values()[self@.rank - 1])
            } else {
                None
            }),
    {
        proof {
            self@.links.lemma_step(self@.rank);
            self@.links.lemma_step(self@.rank - 1);
        }
        let m: u32 = self.prev[self.m];
        if m == self.tail as u32 {
            None
        } else {
            Some(self.alpha[m as usize])
        }
    }

    /// Moves the cursor one rank back, unless it is at rank 0.
    pub fn reverse(&mut self)
        requires
            old(self).wf(),
        ensures
            final(self).wf(),
            final(self)@ == old(self)@.reverse(),
    {
        if self.current_index > 0 {
            proof {
                self@.links.lemma_step(self@.rank);
                self@.links.lemma_step(self@.rank - 1);
            }
            self.current_index -= 1;
            self.m = self.prev[self.m] as usize;
        }
    }

    /// Moves the cursor one rank on, unless it is past the end.
    pub fn advance(&mut self)
        requires
            old(self).wf(),
        ensures
            final(self).wf(),
            final(self)@ == old(self)@.advance(),
    {
        if self.current_index < self.n_element {
            proof {
                self@.links.lemma_step(self@.rank);
                self@.links.lemma_step(self@.rank + 1);
            }
            self.current_index += 1;
            self.m = self.next[self.m] as usize;
        }
    }

    /// Puts the cursor on the smallest active position.
    pub fn reset(&mut self)
        requires
            old(self).wf(),
        ensures
            final(self).wf(),
            final(self)@ == old(self)@.seek(0),
    {
        proof {
            self@.links.lemma_step(-1);
            self@.links.lemma_step(0);
        }
        self.current_index = 0;
        self.m = self.next[self.tail] as usize;
    }

    /// Walks the cursor along the links to rank `i`.
    pub fn traverse_to_index(&mut self, i: usize)
        requires
            old(self).wf(),
            i <= old(self)@.len(),
        ensures
            final(self).wf(),
            final(self)@ == old(self)@.seek(i as int),
    {
        if i == self.current_index {
        } else if i < self.current_index {
            if self.current_index - i == 1 {
                self.reverse();
            } else {
                let mut c: usize = self.current_index;
                while c > i
                    invariant
                        i <= c <= self.n_element,
                        self.inv(),
                        self@.links == old(self)@.links,
                        self@.links.wf(),
                        self.alpha == old(self).alpha,
                        self.m == self@.links.at(c as int),
                    decreases c,
                {
                    proof {
                        self@.links.lemma_step(c as int);
                        self@.links.lemma_step(c - 1);
                    }
                    self.m = self.prev[self.m] as usize;
                    c = c - 1;
                }
                self.current_index = i;
            }
        } else {
            if i - self.current_index == 1 {
                self.advance();
            } else {
                let mut c: usize = self.current_index;
                while c < i
                    invariant
                        c <= i <= self.n_element,
                        self.inv(),
                        self@.links == old(self)@.links,
                        self@.links.wf(),
                        self.alpha == old(self).alpha,
                        self.m == self@.links.at(c as int),
                    decreases i - c,
                {
                    proof {
                        self@.links.lemma_step(c as int);
                        self@.links.lemma_step(c + 1);
                    }
                    self.m = self.next[self.m] as usize;
                    c = c + 1;
                }
                self.current_index = i;
            }
        }
    }

    /// Takes position `i` out of the list. The two links of `i` itself stay.
    fn delete_link(&mut self, i: usize)
        requires
            old(self).tail == old(self).alpha@.len(),
            sortable_len(old(self).alpha@.len()),
            old(self)@.links.wf(),
            old(self)@.links.is_active(i as int),
        ensures
            final(self)@.links == old(self)@.links.unlink(i as int),
            final(self)@.links.wf(),
            final(self)@.links.restorable(i as int),
            !final(self)@.links.is_active(i as int),
            old(self)@.links.stacked() ==> final(self)@.links.stacked(),
            final(self).alpha == old(self).alpha,
            final(self).tail == old(self).tail,
            final(self).n_element == old(self).n_element,
            final(self).m == old(self).m,
            final(self).current_index == old(self).current_index,
    {
        proof {
            self@.links.lemma_slot_of_active(i as int);
            self@.links.lemma_unlink_wf(i as int);
            assert(0 <= self@.links.prev[i as int] <= self.tail);
            assert(0 <= self@.links.next[i as int] <= self.tail);
        }
        let p: u32 = self.prev[i];
        let q: u32 = self.next[i];
        self.next[p as usize] = q;
        self.prev[q as usize] = p;
        self.order = Ghost(old(self)@.links.order.remove(old(self)@.links.slot(i as int)));
        self.removed = Ghost(old(self)@.links.removed.push(i as int));
        proof {
            assert(self@.links.prev =~= old(self)@.links.unlink(i as int).prev);
            assert(self@.links.next =~= old(self)@.links.unlink(i as int).next);
        }
    }

    /// Puts position `i` back between the two positions that its own links name.
    fn undelete_link(&mut self, i: usize)
        requires
            old(self).tail == old(self).alpha@.len(),
            sortable_len(old(self).alpha@.len()),
            old(self)@.links.wf(),
            old(self)@.links.restorable(i as int),
            !old(self)@.links.is_active(i as int),
        ensures
            final(self)@.links == old(self)@.links.relink(i as int),
            final(self)@.links.wf(),
            final(self).alpha == old(self).alpha,
            final(self).tail == old(self).tail,
            final(self).n_element == old(self).n_element,
            final(self).m == old(self).m,
            final(self).current_index == old(self).current_index,
    {
        proof {
            self@.links.lemma_relink_wf(i as int);
            assert(0 <= self@.links.prev[i as int] <= self.tail);
            assert(0 <= self@.links.next[i as int] <= self.tail);
        }
        let p: u32 = self.prev[i];
        let q: u32 = self.next[i];
        self.next[p as usize] = i as u32;
        self.prev[q as usize] = i as u32;
        self.order = Ghost(
            old(self)@.links.order.insert(
                old(self)@.links.slot(old(self)@.links.next[i as int]),
                i as int,
            ),
        );
        self.removed = Ghost(
            old(self)@.links.removed.remove(old(self)@.links.removed.index_of(i as int)),
        );
        proof {
            assert(self@.links.prev =~= old(self)@.links.relink(i as int).prev);
            assert(self@.links.next =~= old(self)@.links.relink(i as int).next);
        }
    }

    /// Takes every position out of a full block, the last position first, so that
    /// the positions can be put back from the first on.
    pub fn unwind(&mut self)
        requires
            old(self).wf(),
            old(self)@.links.removed.len() == 0,
        ensures
            final(self).wf(),
            final(self)@ == old(self)@.unwind(),
            final(self)@.len() == 0,
            final(self)@.links.alpha == old(self)@.links.alpha,
            final(self)@.links.stacked(),
            final(self)@.links.removed == Seq::new(
                old(self)@.capacity() as nat,
                |t: int| old(self)@.capacity() - 1 - t,
            ),
    {
        let k: usize = self.tail;
        let mut j: usize = k;
        while j > 0
            invariant
                0 <= j <= k,
                k == self.tail,
                self.tail == self.alpha@.len(),
                sortable_len(self.alpha@.len()),
                self.alpha == old(self).alpha,
                self@.links.wf(),
                self@.links.stacked(),
                self@.links == old(self)@.links.unlink_down(j as int),
                self@.links.removed == Seq::new((k - j) as nat, |t: int| k - 1 - t),
            decreases j,
        {
            j = j - 1;
            proof {
                if self@.links.removed.contains(j as int) {
                    let t: int = self@.links.removed.index_of(j as int);
                    assert(0 <= t < self@.links.removed.len() && self@.links.removed[t] == j);
                }
                assert(self@.links.order.contains(j as int));
            }
            self.delete_link(j);
            proof {
                assert(self@.links.removed =~= Seq::new((k - j) as nat, |t: int| k - 1 - t));
            }
        }
        self.m = self.tail;
        self.n_element = 0;
        self.current_index = 0;
    }

    /// Takes the active position `i` out of the block.
    pub fn delete(&mut self, i: usize)
        requires
            old(self).wf(),
            old(self)@.links.is_active(i as int),
        ensures
            final(self).wf(),
            final(self)@ == old(self)@.delete(i as int),
            final(self)@.len() == old(self)@.len() - 1,
            final(self)@.links.restorable(i as int),
            !final(self)@.links.is_active(i as int),
            old(self)@.links.stacked() ==> final(self)@.links.stacked(),
            forall|p: int|
                #[trigger] old(self)@.links.restorable(p) && !old(self)@.links.is_active(p) && i
                    != old(self)@.links.prev[p] && i != old(self)@.links.next[p]
                    ==> final(self)@.links.restorable(p) && !final(self)@.links.is_active(p),
    {
        if self.at_end() {
            self.reverse()
        }
        let ghost s: BlockModel = self@;
        proof {
            s.lemma_delete_cursor(i as int);
            s.links.lemma_step(s.rank);
            assert forall|p: int|
                #[trigger] s.links.restorable(p) && !s.links.is_active(p) && i
                    != s.links.prev[p] && i != s.links.next[p] implies s.links.unlink(
                i as int,
            ).restorable(p) && !s.links.unlink(i as int).is_active(p) by {
                crate::laws::law_restorable_kept_by_unlink(s.links, p, i as int);
            }
        }
        let value: i64 = self.alpha[i];
        let current: i64 = self.alpha[self.m];
        let at_cursor: bool = i == self.m;
        let before_cursor: bool = value < current || (value == current && i < self.m);
        self.delete_link(i);
        self.n_element -= 1;
        proof {
            assert(self@.links.prev[i as int] == s.links.prev[i as int]);
            assert(self@.links.next[i as int] == s.links.next[i as int]);
        }
        if before_cursor {
            self.current_index -= 1
        } else if at_cursor {
            // The link under the cursor went out: the cursor goes on to the next
            // position, or back to the one before where no next one is left.
            let next_m: usize = self.next[self.m] as usize;
            if next_m == self.tail && self.n_element > 0 {
                self.current_index -= 1;
                self.m = self.prev[self.m] as usize
            } else {
                self.m = next_m;
            }
        }
    }

    /// Puts the position `i` back into the block, between the two positions that
    /// its own links name. The position has to be out of the list, and the two
    /// have to be neighbours in the list still.
    pub fn undelete(&mut self, i: usize)
        requires
            old(self).wf(),
            i < old(self)@.capacity(),
            !old(self)@.links.is_active(i as int),
            old(self)@.links.restorable(i as int),
        ensures
            final(self).wf(),
            final(self)@ == old(self)@.undelete(i as int),
            final(self)@.links.is_active(i as int),
            final(self)@.len() == old(self)@.len() + 1,
            final(self)@.rank < final(self)@.len(),
            old(self)@.len() == 0 ==> final(self)@.cursor == i,
            old(self)@.len() > 0 ==> final(self)@.cursor == old(self)@.settle().cursor,
            old(self)@.links.stacked() && old(self)@.links.removed.len() > 0 && old(
                self,
            )@.links.removed.last() == i ==> final(self)@.links.stacked(),
            forall|p: int|
                #[trigger] old(self)@.links.restorable(p) && !old(self)@.links.is_active(p) && p
                    != i && old(self)@.links.next[p] != old(self)@.links.next[i as int]
                    ==> final(self)@.links.restorable(p) && !final(self)@.links.is_active(p),
    {
        if !self.is_empty() && self.at_end() {
            self.reverse()
        }
        let ghost s: BlockModel = self@;
        proof {
            assert(s == old(self)@.settle());
            s.lemma_undelete_cursor(i as int);
            assert forall|p: int|
                #[trigger] s.links.restorable(p) && !s.links.is_active(p) && p != i
                    && s.links.next[p] != s.links.next[i as int] implies s.links.relink(
                i as int,
            ).restorable(p) && !s.links.relink(i as int).is_active(p) by {
                crate::laws::law_restorable_kept_by_relink(s.links, p, i as int);
            }
            if s.links.stacked() && s.links.removed.len() > 0 && s.links.removed.last() == i {
                s.links.lemma_stacked_top();
            }
            s.links.lemma_step(s.rank);
        }
        self.undelete_link(i);
        if self.n_element == 0 {
            self.m = self.prev[self.m] as usize;
            self.n_element = 1;
            self.current_index = 0;
            return ;
        }
        let value: i64 = self.alpha[i];
        let current: i64 = self.alpha[self.m];
        self.n_element += 1;
        if value < current || (value == current && i < self.m) {
            self.current_index += 1
        }
    }

    /// Takes position `i` out and puts the cursor on the middle rank.
    pub fn delete_set_median(&mut self, i: usize)
        requires
            old(self).wf(),
            old(self)@.links.is_active(i as int),
        ensures
            final(self).wf(),
            final(self)@ == old(self)@.delete(i as int).seek((old(self)@.len() - 1) / 2),
            final(self)@.links.restorable(i as int),
            !final(self)@.links.is_active(i as int),
            old(self)@.links.stacked() ==> final(self)@.links.stacked(),
    {
        self.delete(i);
        self.set_median()
    }

    /// Puts position `i` back and puts the cursor on the middle rank.
    pub fn undelete_set_median(&mut self, i: usize)
        requires
            old(self).wf(),
            i < old(self)@.capacity(),
            !old(self)@.links.is_active(i as int),
            old(self)@.links.restorable(i as int),
        ensures
            final(self).wf(),
            final(self)@ == old(self)@.undelete(i as int).seek((old(self)@.len() + 1) / 2),
            final(self)@.links.is_active(i as int),
            old(self)@.links.stacked() && old(self)@.links.removed.len() > 0 && old(
                self,
            )@.links.removed.last() == i ==> final(self)@.links.stacked(),
    {
        self.undelete(i);
        self.set_median()
    }

    /// The values of the active positions in ascending order, read off the links.
    pub fn values(&self) -> (v: Vec<i64>)
        requires
            self.wf(),
        ensures
            v@ == self@.values(),
    {
        let mut out: Vec<i64> = Vec::with_capacity(self.n_element);
        proof {
            self@.links.lemma_step(-1);
        }
        let mut p: usize = self.next[self.tail] as usize;
        let mut j: usize = 0;
        while j < self.n_element
            invariant
                self.wf(),
                j <= self.n_element,
                p == self@.links.at(j as int),
                out@ == self@.values().subrange(0, j as int),
            decreases self.n_element - j,
        {
            proof {
                self@.links.lemma_step(j as int);
            }
            out.push(self.alpha[p]);
            p = self.next[p] as usize;
            j = j + 1;
            proof {
                assert(out@ =~= self@.values().subrange(0, j as int));
            }
        }
        proof {
            assert(out@ =~= self@.values());
        }
        out
    }

    /// Whether position `i` comes before the cursor in the order of the list. Every
    /// position comes before a cursor that is past the end.
    pub fn is_small(&self, i: usize) -> (s: bool)
        requires
            self.wf(),
            i < self@.capacity(),
        ensures
            s == (self@.rank == self@.len() || key_lt(self@.links.alpha, i as int, self@.cursor)),
    {
        if self.at_end() {
            true
        } else {
            let value: i64 = self.alpha[i];
            let current: i64 = self.alpha[self.m];
            value < current || (value == current && i < self.m)
        }
    }

    /// Gives back the two link buffers, for the next block to thread.
    pub fn into_buffers(self) -> (buffers: (Vec<u32>, Vec<u32>))
        ensures
            ints(buffers.0@) == self@.links.prev,
            ints(buffers.1@) == self@.links.next,
    {
        (self.prev, self.next)
    }

    /// A block is never wider than what can be sorted by index.
    pub proof fn lemma_capacity(&self)
        requires
            self.wf(),
        ensures
            sortable_len(self@.capacity() as nat),
            0 <= self@.len() <= self@.capacity(),
    {
    }

    /// Puts the cursor on the middle rank.
    fn set_median(&mut self)
        requires
            old(self).wf(),
        ensures
            final(self).wf(),
            final(self)@ == old(self)@.seek(old(self)@.len() / 2),
    {
        let new_index: usize = self.n_element / 2;
        self.traverse_to_index(new_index)
    }
}

/// Arrays that are threaded along a stable ascending index permutation, with nothing
/// removed, make a consistent link state.
proof fn lemma_threaded_consistent(links: Links, pi: Seq<u32>)
    requires
        1 <= links.alpha.len() <= u32::MAX,
        is_stable_ascending(links.alpha, pi),
        links.order == ints(pi),
        links.removed == Seq::<int>::empty(),
        links.prev.len() == links.alpha.len() + 1,
        links.next.len() == links.alpha.len() + 1,
        links.next[links.tail()] == pi[0],
        links.prev[links.tail()] == pi[pi.len() - 1],
        links.prev[pi[0] as int] == links.tail(),
        links.next[pi[pi.len() - 1] as int] == links.tail(),
        forall|a: int, b: int|
            0 <= a && b == a + 1 && b < pi.len() ==> links.next[#[trigger] pi[a] as int]
                == #[trigger] pi[b],
        forall|a: int, b: int|
            0 <= a && b == a + 1 && b < pi.len() ==> links.prev[#[trigger] pi[b] as int]
                == #[trigger] pi[a],
    ensures
        links.wf(),
{
    let k: int = links.tail();
    assert forall|a: int| 0 <= a < links.order.len() implies 0 <= #[trigger] links.order[a]
        < k by {
        assert(pi[a] < k);
    }
    assert forall|p: int| 0 <= p <= k implies 0 <= #[trigger] links.prev[p] <= k by {
        if p < k {
            assert(pi.contains(p as u32));
            let a: int = pi.index_of(p as u32);
            assert(0 <= a < pi.len() && pi[a] == p);
            if a > 0 {
                assert(links.prev[pi[a] as int] == pi[a - 1]);
                assert(pi[a - 1] < k);
            }
        } else {
            assert(pi[k - 1] < k);
        }
    }
    assert forall|p: int| 0 <= p <= k implies 0 <= #[trigger] links.next[p] <= k by {
        if p < k {
            assert(pi.contains(p as u32));
            let a: int = pi.index_of(p as u32);
            assert(0 <= a < pi.len() && pi[a] == p);
            if a + 1 < k {
                assert(links.next[pi[a] as int] == pi[a + 1]);
                assert(pi[a + 1] < k);
            }
        } else {
            assert(pi[0] < k);
        }
    }
    assert(links.shaped());
    assert(links.sorted()) by {
        assert forall|a: int, b: int| 0 <= a < b < links.order.len() implies key_lt(
            links.alpha,
            #[trigger] links.order[a],
            #[trigger] links.order[b],
        ) by {
            assert(key_lt(links.alpha, pi[a] as int, pi[b] as int));
        }
    }
    assert(links.threaded()) by {
        assert forall|a: int, b: int| 0 <= a && b == a + 1 && b < k implies links.next[#[trigger] links.order[a]]
            == #[trigger] links.order[b] by {
            assert(links.next[pi[a] as int] == pi[b]);
        }
        assert forall|a: int, b: int| 0 <= a && b == a + 1 && b < k implies links.prev[#[trigger] links.order[b]]
            == #[trigger] links.order[a] by {
            assert(links.prev[pi[b] as int] == pi[a]);
        }
    }
    assert(links.covered()) by {
        assert forall|p: int| 0 <= p < k implies #[trigger] links.order.contains(p) by {
            assert(pi.contains(p as u32));
            let a: int = pi.index_of(p as u32);
            assert(0 <= a < pi.len() && pi[a] == p);
            assert(links.order[a] == p);
        }
    }
}

} // verus!
