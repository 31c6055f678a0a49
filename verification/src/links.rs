//! The mathematical model of a block's doubly-linked list: two index arrays over the
//! positions `0..k` and the sentinel `k`, the list they thread, and the positions
//! that were unlinked, in the order in which they went.

use vstd::prelude::*;

verus! {

/// Position `p` comes strictly before position `q`: by value, equal values by position.
pub open spec fn key_lt(alpha: Seq<i64>, p: int, q: int) -> bool {
    alpha[p] < alpha[q] || (alpha[p] == alpha[q] && p < q)
}

/// The index in a list from which one entry was dropped, seen from the shorter list.
pub open spec fn skip(a: int, idx: int) -> int {
    if a < idx {
        a
    } else {
        a + 1
    }
}

/// The index in a list into which one entry was put at `idx`, seen from the shorter list.
pub open spec fn unskip(a: int, idx: int) -> int {
    if a < idx {
        a
    } else {
        a - 1
    }
}

/// The link arrays of a block together with the list that they thread.
pub struct Links {
    /// The values of the block, by position.
    pub alpha: Seq<i64>,
    /// `prev[p]` is the position linked before `p`; index `k` is the sentinel.
    pub prev: Seq<int>,
    /// `next[p]` is the position linked after `p`; index `k` is the sentinel.
    pub next: Seq<int>,
    /// The active positions in list order, which is ascending `key_lt` order.
    pub order: Seq<int>,
    /// The unlinked positions, in the order in which they went.
    pub removed: Seq<int>,
}

impl Links {
    /// The sentinel index, one past the last position.
    pub open spec fn tail(self) -> int {
        self.alpha.len() as int
    }

    /// The position at rank `a` of the list; the sentinel on either side of it.
    pub open spec fn at(self, a: int) -> int {
        if 0 <= a < self.order.len() {
            self.order[a]
        } else {
            self.tail()
        }
    }

    /// Position `p` is linked into the list.
    pub open spec fn is_active(self, p: int) -> bool {
        self.order.contains(p)
    }

    /// The rank of `p` in the list; the sentinel closes the list.
    pub open spec fn slot(self, p: int) -> int {
        if p == self.tail() {
            self.order.len() as int
        } else {
            self.order.index_of(p)
        }
    }

    /// The values of the active positions in list order.
    pub open spec fn values(self) -> Seq<i64> {
        Seq::new(self.order.len(), |a: int| self.alpha[self.order[a]])
    }

    /// The arrays have one entry per position and one for the sentinel, and all
    /// entries are positions or the sentinel.
    pub open spec fn shaped(self) -> bool {
        let k: int = self.alpha.len() as int;
        &&& k >= 1
        &&& self.prev.len() == k + 1
        &&& self.next.len() == k + 1
        &&& self.order.len() + self.removed.len() == k
        &&& forall|p: int| 0 <= p <= k ==> 0 <= #[trigger] self.prev[p] <= k
        &&& forall|p: int| 0 <= p <= k ==> 0 <= #[trigger] self.next[p] <= k
        &&& forall|a: int| 0 <= a < self.order.len() ==> 0 <= #[trigger] self.order[a] < k
        &&& forall|t: int| 0 <= t < self.removed.len() ==> 0 <= #[trigger] self.removed[t] < k
    }

    /// The list ascends strictly in `key_lt` order.
    pub open spec fn sorted(self) -> bool {
        forall|a: int, b: int|
            0 <= a < b < self.order.len() ==> key_lt(
                self.alpha,
                #[trigger] self.order[a],
                #[trigger] self.order[b],
            )
    }

    /// Following `next` from the sentinel runs through the list and back to the
    /// sentinel, and `prev` runs the same cycle backwards.
    pub open spec fn threaded(self) -> bool {
        let k: int = self.alpha.len() as int;
        let n: int = self.order.len() as int;
        &&& n == 0 ==> self.next[k] == k && self.prev[k] == k
        &&& n > 0 ==> {
            &&& self.next[k] == self.order[0]
            &&& self.prev[k] == self.order[n - 1]
            &&& self.prev[self.order[0]] == k
            &&& self.next[self.order[n - 1]] == k
        }
        &&& forall|a: int, b: int|
            0 <= a && b == a + 1 && b < n ==> self.next[#[trigger] self.order[a]]
                == #[trigger] self.order[b]
        &&& forall|a: int, b: int|
            0 <= a && b == a + 1 && b < n ==> self.prev[#[trigger] self.order[b]]
                == #[trigger] self.order[a]
    }

    /// Every position is active or among the removed positions.
    pub open spec fn covered(self) -> bool {
        forall|p: int|
            0 <= p < self.alpha.len() ==> #[trigger] self.order.contains(p)
                || self.removed.contains(p)
    }

    /// No position is removed twice, and none is both active and removed.
    pub open spec fn parted(self) -> bool {
        &&& self.removed.no_duplicates()
        &&& forall|a: int, t: int|
            0 <= a < self.order.len() && 0 <= t < self.removed.len() ==> #[trigger] self.order[a]
                != #[trigger] self.removed[t]
    }

    /// The list is sorted, the arrays thread exactly the list, and every position is
    /// either active or removed.
    pub open spec fn consistent(self) -> bool {
        &&& self.shaped()
        &&& self.sorted()
        &&& self.threaded()
        &&& self.covered()
        &&& self.parted()
    }

    /// Position `i` is out of the list, and the two positions that its own links
    /// name are neighbours in the list, with `i` between them in `key_lt` order.
    pub open spec fn restorable(self, i: int) -> bool {
        let k: int = self.alpha.len() as int;
        let s: int = self.slot(self.next[i]);
        &&& 0 <= i < k
        &&& 0 <= s <= self.order.len()
        &&& self.next[i] == self.at(s)
        &&& self.prev[i] == self.at(s - 1)
        &&& self.prev[i] == k || key_lt(self.alpha, self.prev[i], i)
        &&& self.next[i] == k || key_lt(self.alpha, i, self.next[i])
    }

    /// The link state after position `i` is taken out of the list. Its own two links
    /// stay as they are.
    pub open spec fn unlink(self, i: int) -> Links {
        Links {
            alpha: self.alpha,
            prev: self.prev.update(self.next[i], self.prev[i]),
            next: self.next.update(self.prev[i], self.next[i]),
            order: self.order.remove(self.slot(i)),
            removed: self.removed.push(i),
        }
    }

    /// The link state after position `i` is put back between the two positions that
    /// its own links name.
    pub open spec fn relink(self, i: int) -> Links {
        Links {
            alpha: self.alpha,
            prev: self.prev.update(self.next[i], i),
            next: self.next.update(self.prev[i], i),
            order: self.order.insert(self.slot(self.next[i]), i),
            removed: self.removed.remove(self.removed.index_of(i)),
        }
    }

    /// The link state after the most recently removed position is put back.
    pub open spec fn relink_top(self) -> Links {
        Links {
            alpha: self.alpha,
            prev: self.prev.update(self.next[self.removed.last()], self.removed.last()),
            next: self.next.update(self.prev[self.removed.last()], self.removed.last()),
            order: self.order.insert(
                self.slot(self.next[self.removed.last()]),
                self.removed.last(),
            ),
            removed: self.removed.drop_last(),
        }
    }

    /// The links are well-formed: the list is sorted, the arrays thread it, and every
    /// position is either active or removed.
    pub open spec fn wf(self) -> bool {
        self.consistent()
    }

    /// The removed positions can be put back in the reverse of the order in which
    /// they went: the one that went last can be put back, and once it is back the
    /// same holds of the rest.
    pub open spec fn stacked(self) -> bool
        decreases self.removed.len(),
    {
        &&& self.consistent()
        &&& self.removed.len() > 0 ==> {
            &&& self.restorable(self.removed.last())
            &&& self.relink_top().stacked()
        }
    }

    /// The link state after the positions `k - 1, k - 2, .., j` are taken out, in this order.
    pub open spec fn unlink_down(self, j: int) -> Links
        decreases self.alpha.len() - j,
    {
        if j >= self.alpha.len() {
            self
        } else {
            self.unlink_down(j + 1).unlink(j)
        }
    }

    /// A position occurs in the list at one rank only.
    pub proof fn lemma_slot(self, a: int)
        requires
            self.shaped(),
            self.sorted(),
            0 <= a < self.order.len(),
        ensures
            self.slot(self.order[a]) == a,
            self.is_active(self.order[a]),
    {
        let p: int = self.order[a];
        let b: int = self.order.index_of(p);
        assert(0 <= b < self.order.len() && self.order[b] == p);
        if b < a {
            assert(key_lt(self.alpha, self.order[b], self.order[a]));
        }
        if a < b {
            assert(key_lt(self.alpha, self.order[a], self.order[b]));
        }
    }

    /// The rank of an active position lies in the list and names it.
    pub proof fn lemma_slot_of_active(self, p: int)
        requires
            self.shaped(),
            self.is_active(p),
        ensures
            0 <= self.slot(p) < self.order.len(),
            self.order[self.slot(p)] == p,
            0 <= p < self.tail(),
    {
        let b: int = self.order.index_of(p);
        assert(0 <= b < self.order.len() && self.order[b] == p);
    }

    /// In a sorted list the `key_lt` order of two active positions is the order of
    /// their ranks.
    pub proof fn lemma_rank_order(self, a: int, b: int)
        requires
            self.sorted(),
            0 <= a < self.order.len(),
            0 <= b < self.order.len(),
        ensures
            key_lt(self.alpha, self.order[a], self.order[b]) <==> a < b,
    {
        if a < b {
            assert(key_lt(self.alpha, self.order[a], self.order[b]));
        }
        if b < a {
            assert(key_lt(self.alpha, self.order[b], self.order[a]));
        }
    }

    /// The two links of an active position name its neighbours in the list.
    pub proof fn lemma_neighbours(self, a: int)
        requires
            self.shaped(),
            self.threaded(),
            0 <= a < self.order.len(),
        ensures
            self.prev[self.order[a]] == self.at(a - 1),
            self.next[self.order[a]] == self.at(a + 1),
            self.next[self.at(a - 1)] == self.order[a],
            self.prev[self.at(a + 1)] == self.order[a],
    {
        let n: int = self.order.len() as int;
        if a > 0 {
            assert(self.next[self.order[a - 1]] == self.order[a]);
            assert(self.prev[self.order[a]] == self.order[a - 1]);
        }
        if a + 1 < n {
            assert(self.next[self.order[a]] == self.order[a + 1]);
            assert(self.prev[self.order[a + 1]] == self.order[a]);
        }
    }

    /// The links run along the list, the sentinel standing on either side of it.
    pub proof fn lemma_step(self, a: int)
        requires
            self.shaped(),
            self.threaded(),
            -1 <= a <= self.order.len(),
        ensures
            0 <= self.at(a) <= self.tail(),
            a < self.order.len() ==> self.next[self.at(a)] == self.at(a + 1),
            0 <= a ==> self.prev[self.at(a)] == self.at(a - 1),
    {
        if 0 <= a < self.order.len() {
            self.lemma_neighbours(a);
        }
    }

    /// The list without the entry at rank `idx`.
    pub proof fn lemma_remove_shape(self, idx: int)
        requires
            0 <= idx < self.order.len(),
        ensures
            self.order.remove(idx).len() == self.order.len() - 1,
            forall|a: int|
                0 <= a < self.order.len() - 1 ==> #[trigger] self.order.remove(idx)[a]
                    == self.order[skip(a, idx)],
    {
    }

    proof fn lemma_unlink_shaped(self, i: int)
        requires
            self.shaped(),
            self.is_active(i),
        ensures
            self.unlink(i).shaped(),
    {
        self.lemma_slot_of_active(i);
        let out: Links = self.unlink(i);
        let idx: int = self.slot(i);
        self.lemma_remove_shape(idx);
        assert forall|a: int| 0 <= a < out.order.len() implies 0 <= #[trigger] out.order[a]
            < self.tail() by {
            assert(out.order[a] == self.order[skip(a, idx)]);
        }
        assert forall|t: int| 0 <= t < out.removed.len() implies 0 <= #[trigger] out.removed[t]
            < self.tail() by {
            if t < self.removed.len() {
                assert(out.removed[t] == self.removed[t]);
            }
        }
        assert(0 <= self.prev[i] <= self.tail());
        assert(0 <= self.next[i] <= self.tail());
        assert forall|p: int| 0 <= p <= self.tail() implies 0 <= #[trigger] out.prev[p]
            <= self.tail() by {
            assert(0 <= self.prev[p] <= self.tail());
        }
        assert forall|p: int| 0 <= p <= self.tail() implies 0 <= #[trigger] out.next[p]
            <= self.tail() by {
            assert(0 <= self.next[p] <= self.tail());
        }
    }

    proof fn lemma_unlink_sorted(self, i: int)
        requires
            self.shaped(),
            self.sorted(),
            self.is_active(i),
        ensures
            self.unlink(i).sorted(),
    {
        self.lemma_slot_of_active(i);
        let out: Links = self.unlink(i);
        let idx: int = self.slot(i);
        self.lemma_remove_shape(idx);
        assert forall|a: int, b: int| 0 <= a < b < out.order.len() implies key_lt(
            out.alpha,
            #[trigger] out.order[a],
            #[trigger] out.order[b],
        ) by {
            assert(key_lt(self.alpha, self.order[skip(a, idx)], self.order[skip(b, idx)]));
        }
    }

    proof fn lemma_unlink_parted(self, i: int)
        requires
            self.shaped(),
            self.sorted(),
            self.parted(),
            self.is_active(i),
        ensures
            self.unlink(i).parted(),
            !self.removed.contains(i),
            !self.unlink(i).is_active(i),
    {
        self.lemma_slot_of_active(i);
        let out: Links = self.unlink(i);
        let idx: int = self.slot(i);
        self.lemma_remove_shape(idx);
        if self.removed.contains(i) {
            let t: int = self.removed.index_of(i);
            assert(0 <= t < self.removed.len() && self.removed[t] == i);
            assert(self.order[idx] != self.removed[t]);
        }
        assert forall|a: int| 0 <= a < out.order.len() implies #[trigger] out.order[a] != i by {
            assert(out.order[a] == self.order[skip(a, idx)]);
            self.lemma_rank_order(skip(a, idx), idx);
        }
        if out.order.contains(i) {
            let a: int = out.order.index_of(i);
            assert(0 <= a < out.order.len() && out.order[a] == i);
        }
        assert forall|a: int, t: int|
            0 <= a < out.order.len() && 0 <= t < out.removed.len() implies #[trigger] out.order[a]
            != #[trigger] out.removed[t] by {
            assert(out.order[a] == self.order[skip(a, idx)]);
            if t < self.removed.len() {
                assert(out.removed[t] == self.removed[t]);
            }
        }
        assert forall|t: int, u: int|
            0 <= t < out.removed.len() && 0 <= u < out.removed.len() && t != u implies out.removed[t]
            != out.removed[u] by {
            if t < self.removed.len() && u < self.removed.len() {
                assert(self.removed[t] != self.removed[u]);
            } else if t < self.removed.len() {
                assert(self.removed.contains(self.removed[t]));
            } else {
                assert(self.removed.contains(self.removed[u]));
            }
        }
    }

    proof fn lemma_unlink_covered(self, i: int)
        requires
            self.shaped(),
            self.covered(),
            self.is_active(i),
        ensures
            self.unlink(i).covered(),
    {
        self.lemma_slot_of_active(i);
        let out: Links = self.unlink(i);
        let idx: int = self.slot(i);
        self.lemma_remove_shape(idx);
        assert forall|x: int| 0 <= x < out.alpha.len() implies #[trigger] out.order.contains(x)
            || out.removed.contains(x) by {
            if x == i {
                assert(out.removed[self.removed.len() as int] == i);
            } else if self.order.contains(x) {
                self.lemma_slot_of_active(x);
                let a0: int = self.slot(x);
                if a0 < idx {
                    assert(out.order[a0] == self.order[skip(a0, idx)]);
                } else {
                    assert(out.order[a0 - 1] == self.order[skip(a0 - 1, idx)]);
                }
            } else {
                assert(self.removed.contains(x));
                let t: int = self.removed.index_of(x);
                assert(0 <= t < self.removed.len() && self.removed[t] == x);
                assert(out.removed[t] == x);
            }
        }
    }

    proof fn lemma_unlink_threaded(self, i: int)
        requires
            self.shaped(),
            self.sorted(),
            self.threaded(),
            self.is_active(i),
        ensures
            self.unlink(i).threaded(),
    {
        self.lemma_slot_of_active(i);
        let k: int = self.tail();
        let n: int = self.order.len() as int;
        let idx: int = self.slot(i);
        let p: int = self.prev[i];
        let q: int = self.next[i];
        let out: Links = self.unlink(i);
        self.lemma_remove_shape(idx);
        self.lemma_neighbours(idx);
        assert(out.next == self.next.update(p, q));
        assert(out.prev == self.prev.update(q, p));
        assert(0 <= p <= k && 0 <= q <= k);
        assert forall|a: int, b: int| 0 <= a && b == a + 1 && b < n - 1 implies out.next[#[trigger] out.order[a]]
            == #[trigger] out.order[b] by {
            let a0: int = skip(a, idx);
            let b0: int = skip(b, idx);
            assert(out.order[a] == self.order[a0]);
            assert(out.order[b] == self.order[b0]);
            self.lemma_neighbours(a0);
            if a0 == idx - 1 {
            } else {
                self.lemma_rank_order(a0, idx);
                if idx > 0 {
                    self.lemma_rank_order(a0, idx - 1);
                }
            }
        }
        assert forall|a: int, b: int| 0 <= a && b == a + 1 && b < n - 1 implies out.prev[#[trigger] out.order[b]]
            == #[trigger] out.order[a] by {
            let a0: int = skip(a, idx);
            let b0: int = skip(b, idx);
            assert(out.order[a] == self.order[a0]);
            assert(out.order[b] == self.order[b0]);
            self.lemma_neighbours(b0);
            if b0 == idx + 1 {
            } else {
                self.lemma_rank_order(b0, idx);
                if idx + 1 < n {
                    self.lemma_rank_order(b0, idx + 1);
                }
            }
        }
        if n - 1 > 0 {
            assert(out.order[0] == self.order[skip(0, idx)]);
            assert(out.order[n - 2] == self.order[skip(n - 2, idx)]);
            self.lemma_neighbours(skip(0, idx));
            self.lemma_neighbours(skip(n - 2, idx));
            self.lemma_rank_order(skip(0, idx), idx);
            self.lemma_rank_order(skip(n - 2, idx), idx);
            if idx > 0 {
                self.lemma_rank_order(skip(n - 2, idx), idx - 1);
            }
            if idx + 1 < n {
                self.lemma_rank_order(skip(0, idx), idx + 1);
            }
        }
    }

    /// Taking an active position out leaves a consistent state.
    pub proof fn lemma_unlink_consistent(self, i: int)
        requires
            self.consistent(),
            self.is_active(i),
        ensures
            self.unlink(i).consistent(),
    {
        self.lemma_unlink_shaped(i);
        self.lemma_unlink_sorted(i);
        self.lemma_unlink_covered(i);
        self.lemma_unlink_threaded(i);
        self.lemma_unlink_parted(i);
    }

    /// Putting back what was just taken out restores the state exactly.
    pub proof fn lemma_unlink_relink(self, i: int)
        requires
            self.consistent(),
            self.is_active(i),
        ensures
            self.unlink(i).restorable(i),
            !self.unlink(i).is_active(i),
            self.unlink(i).removed.last() == i,
            self.unlink(i).relink(i) == self,
            self.unlink(i).relink_top() == self,
    {
        self.lemma_slot_of_active(i);
        self.lemma_unlink_parted(i);
        let k: int = self.tail();
        let n: int = self.order.len() as int;
        let idx: int = self.slot(i);
        let p: int = self.prev[i];
        let q: int = self.next[i];
        let out: Links = self.unlink(i);
        self.lemma_remove_shape(idx);
        self.lemma_neighbours(idx);
        self.lemma_unlink_shaped(i);
        self.lemma_unlink_sorted(i);
        if idx > 0 {
            self.lemma_rank_order(idx - 1, idx);
        }
        if idx + 1 < n {
            self.lemma_rank_order(idx, idx + 1);
            assert(out.order[idx] == self.order[skip(idx, idx)]);
            out.lemma_slot(idx);
        }
        assert(p != i && q != i);
        assert(out.prev[i] == p);
        assert(out.next[i] == q);
        assert(out.slot(q) == idx);
        if idx > 0 {
            assert(out.order[idx - 1] == self.order[skip(idx - 1, idx)]);
        }
        assert(out.restorable(i));
        assert(out.removed.last() == i);
        assert(out.removed.index_of(i) == self.removed.len()) by {
            let t: int = out.removed.index_of(i);
            assert(out.removed[self.removed.len() as int] == i);
            assert(0 <= t < out.removed.len() && out.removed[t] == i);
        }
        let back: Links = out.relink(i);
        assert(back.prev =~= self.prev);
        assert(back.next =~= self.next);
        assert(back.order =~= self.order);
        assert(back.removed =~= self.removed);
        let top: Links = out.relink_top();
        assert(top.prev =~= self.prev);
        assert(top.next =~= self.next);
        assert(top.order =~= self.order);
        assert(top.removed =~= self.removed);
    }

    /// Taking an active position out keeps the state well-formed, and the position
    /// can be put back. Where the removed positions could be put back in reverse
    /// order before, they can after.
    pub proof fn lemma_unlink_wf(self, i: int)
        requires
            self.wf(),
            self.is_active(i),
        ensures
            self.unlink(i).wf(),
            self.unlink(i).removed.last() == i,
            self.unlink(i).restorable(i),
            !self.unlink(i).is_active(i),
            self.stacked() ==> self.unlink(i).stacked(),
    {
        self.lemma_unlink_consistent(i);
        self.lemma_unlink_relink(i);
    }

    /// The values along the list ascend.
    pub proof fn lemma_values_ascending(self)
        requires
            self.shaped(),
            self.sorted(),
        ensures
            crate::rank::ascending(self.values()),
            self.values().len() == self.order.len(),
    {
        assert forall|a: int, b: int| 0 <= a <= b < self.values().len() implies self.values()[a]
            <= self.values()[b] by {
            if a < b {
                assert(key_lt(self.alpha, self.order[a], self.order[b]));
            }
        }
    }

    /// Taking position `i` out takes its value out of the values along the list.
    pub proof fn lemma_unlink_values(self, i: int)
        requires
            self.shaped(),
            self.is_active(i),
        ensures
            0 <= self.slot(i) < self.values().len(),
            self.values()[self.slot(i)] == self.alpha[i],
            self.unlink(i).values() == self.values().remove(self.slot(i)),
    {
        self.lemma_slot_of_active(i);
        let idx: int = self.slot(i);
        self.lemma_remove_shape(idx);
        assert(self.unlink(i).values() =~= self.values().remove(idx));
    }

    /// Putting position `i` back puts its value into the values along the list.
    pub proof fn lemma_relink_values(self, i: int)
        requires
            self.restorable(i),
        ensures
            0 <= self.slot(self.next[i]) <= self.values().len(),
            self.relink(i).values() == self.values().insert(self.slot(self.next[i]), self.alpha[i]),
    {
        assert(self.relink(i).values() =~= self.values().insert(
            self.slot(self.next[i]),
            self.alpha[i],
        ));
    }

    /// The list with position `i` put back at the rank of the position that its
    /// `next` link names.
    pub proof fn lemma_insert_shape(self, i: int)
        requires
            0 <= self.slot(self.next[i]) <= self.order.len(),
        ensures
            self.relink(i).order.len() == self.order.len() + 1,
            self.relink(i).order[self.slot(self.next[i])] == i,
            forall|a: int|
                0 <= a < self.order.len() + 1 && a != self.slot(self.next[i])
                    ==> #[trigger] self.relink(i).order[a] == self.order[unskip(
                    a,
                    self.slot(self.next[i]),
                )],
    {
    }

    /// A removed position stands among the removed positions at one index only.
    pub proof fn lemma_removed_index(self, t: int)
        requires
            self.parted(),
            0 <= t < self.removed.len(),
        ensures
            self.removed.index_of(self.removed[t]) == t,
    {
        let u: int = self.removed.index_of(self.removed[t]);
        assert(0 <= u < self.removed.len() && self.removed[u] == self.removed[t]);
    }

    /// A position that is not active is among the removed positions.
    pub proof fn lemma_removed_of_inactive(self, i: int)
        requires
            self.consistent(),
            0 <= i < self.tail(),
            !self.is_active(i),
        ensures
            self.removed.contains(i),
            0 <= self.removed.index_of(i) < self.removed.len(),
            self.removed[self.removed.index_of(i)] == i,
    {
        assert(self.order.contains(i) || self.removed.contains(i));
        let t: int = self.removed.index_of(i);
        assert(0 <= t < self.removed.len() && self.removed[t] == i);
    }

    proof fn lemma_relink_shaped(self, i: int)
        requires
            self.consistent(),
            self.restorable(i),
            !self.is_active(i),
        ensures
            self.relink(i).shaped(),
    {
        let k: int = self.tail();
        let back: Links = self.relink(i);
        let s: int = self.slot(self.next[i]);
        self.lemma_insert_shape(i);
        self.lemma_removed_of_inactive(i);
        let r: int = self.removed.index_of(i);
        assert(0 <= self.prev[i] <= k);
        assert(0 <= self.next[i] <= k);
        assert forall|a: int| 0 <= a < back.order.len() implies 0 <= #[trigger] back.order[a]
            < k by {
            if a != s {
                assert(back.order[a] == self.order[unskip(a, s)]);
            }
        }
        assert forall|t: int| 0 <= t < back.removed.len() implies 0 <= #[trigger] back.removed[t]
            < k by {
            assert(back.removed[t] == self.removed[skip(t, r)]);
        }
        assert forall|p: int| 0 <= p <= k implies 0 <= #[trigger] back.prev[p] <= k by {
            assert(0 <= self.prev[p] <= k);
        }
        assert forall|p: int| 0 <= p <= k implies 0 <= #[trigger] back.next[p] <= k by {
            assert(0 <= self.next[p] <= k);
        }
    }

    proof fn lemma_relink_sorted(self, i: int)
        requires
            self.consistent(),
            self.restorable(i),
        ensures
            self.relink(i).sorted(),
    {
        let back: Links = self.relink(i);
        let s: int = self.slot(self.next[i]);
        let n: int = self.order.len() as int;
        self.lemma_insert_shape(i);
        assert forall|a: int, b: int| 0 <= a < b < back.order.len() implies key_lt(
            back.alpha,
            #[trigger] back.order[a],
            #[trigger] back.order[b],
        ) by {
            if a == s {
                assert(back.order[b] == self.order[unskip(b, s)]);
                assert(self.next[i] == self.order[s]);
                if b - 1 > s {
                    assert(key_lt(self.alpha, self.order[s], self.order[b - 1]));
                }
            } else if b == s {
                assert(back.order[a] == self.order[unskip(a, s)]);
                assert(self.prev[i] == self.order[s - 1]);
                if a < s - 1 {
                    assert(key_lt(self.alpha, self.order[a], self.order[s - 1]));
                }
            } else {
                assert(back.order[a] == self.order[unskip(a, s)]);
                assert(back.order[b] == self.order[unskip(b, s)]);
                assert(key_lt(self.alpha, self.order[unskip(a, s)], self.order[unskip(b, s)]));
            }
        }
    }

    proof fn lemma_relink_threaded(self, i: int)
        requires
            self.consistent(),
            self.restorable(i),
        ensures
            self.relink(i).threaded(),
    {
        let k: int = self.tail();
        let n: int = self.order.len() as int;
        let s: int = self.slot(self.next[i]);
        let p: int = self.prev[i];
        let q: int = self.next[i];
        let back: Links = self.relink(i);
        self.lemma_insert_shape(i);
        self.lemma_step(s - 1);
        self.lemma_step(s);
        assert(p != i && q != i);
        assert(back.next == self.next.update(p, i));
        assert(back.prev == self.prev.update(q, i));
        assert forall|a: int, b: int| 0 <= a && b == a + 1 && b < n + 1 implies back.next[#[trigger] back.order[a]]
            == #[trigger] back.order[b] by {
            if a == s {
                assert(back.order[b] == self.order[unskip(b, s)]);
            } else if b == s {
                assert(back.order[a] == self.order[unskip(a, s)]);
            } else {
                let a0: int = unskip(a, s);
                let b0: int = unskip(b, s);
                assert(back.order[a] == self.order[a0]);
                assert(back.order[b] == self.order[b0]);
                self.lemma_neighbours(a0);
                if s > 0 {
                    self.lemma_rank_order(a0, s - 1);
                }
            }
        }
        assert forall|a: int, b: int| 0 <= a && b == a + 1 && b < n + 1 implies back.prev[#[trigger] back.order[b]]
            == #[trigger] back.order[a] by {
            if a == s {
                assert(back.order[b] == self.order[unskip(b, s)]);
            } else if b == s {
                assert(back.order[a] == self.order[unskip(a, s)]);
            } else {
                let a0: int = unskip(a, s);
                let b0: int = unskip(b, s);
                assert(back.order[a] == self.order[a0]);
                assert(back.order[b] == self.order[b0]);
                self.lemma_neighbours(b0);
                if s < n {
                    self.lemma_rank_order(b0, s);
                }
            }
        }
        if s > 0 {
            assert(back.order[0] == self.order[unskip(0, s)]);
            self.lemma_neighbours(0);
            if s < n {
                self.lemma_rank_order(0, s);
            }
        }
        if s < n {
            assert(back.order[n] == self.order[unskip(n, s)]);
            self.lemma_neighbours(n - 1);
            if s > 0 {
                self.lemma_rank_order(n - 1, s - 1);
            }
        }
    }

    proof fn lemma_relink_parted(self, i: int)
        requires
            self.consistent(),
            self.restorable(i),
            !self.is_active(i),
        ensures
            self.relink(i).covered(),
            self.relink(i).parted(),
            self.relink(i).is_active(i),
    {
        let back: Links = self.relink(i);
        let s: int = self.slot(self.next[i]);
        self.lemma_insert_shape(i);
        self.lemma_removed_of_inactive(i);
        let r: int = self.removed.index_of(i);
        assert(back.order[s] == i);
        assert forall|t: int| 0 <= t < back.removed.len() implies #[trigger] back.removed[t]
            == self.removed[skip(t, r)] && back.removed[t] != i by {
            assert(self.removed[skip(t, r)] != self.removed[r]);
        }
        assert forall|x: int| 0 <= x < back.alpha.len() implies #[trigger] back.order.contains(x)
            || back.removed.contains(x) by {
            if x == i {
            } else if self.order.contains(x) {
                self.lemma_slot_of_active(x);
                let a0: int = self.slot(x);
                if a0 < s {
                    assert(back.order[a0] == self.order[unskip(a0, s)]);
                } else {
                    assert(back.order[a0 + 1] == self.order[unskip(a0 + 1, s)]);
                }
            } else {
                assert(self.removed.contains(x));
                let t: int = self.removed.index_of(x);
                assert(0 <= t < self.removed.len() && self.removed[t] == x);
                if t < r {
                    assert(back.removed[t] == self.removed[skip(t, r)]);
                } else {
                    assert(back.removed[t - 1] == self.removed[skip(t - 1, r)]);
                }
            }
        }
        assert forall|a: int, t: int|
            0 <= a < back.order.len() && 0 <= t < back.removed.len() implies #[trigger] back.order[a]
            != #[trigger] back.removed[t] by {
            assert(back.removed[t] == self.removed[skip(t, r)]);
            if a != s {
                assert(back.order[a] == self.order[unskip(a, s)]);
            }
        }
        assert forall|t: int, u: int|
            0 <= t < back.removed.len() && 0 <= u < back.removed.len() && t != u implies back.removed[t]
            != back.removed[u] by {
            assert(back.removed[t] == self.removed[skip(t, r)]);
            assert(back.removed[u] == self.removed[skip(u, r)]);
        }
    }

    /// Putting back a position whose two links name neighbours in the list leaves
    /// a well-formed state, with the position in the list between the two.
    pub proof fn lemma_relink_wf(self, i: int)
        requires
            self.wf(),
            self.restorable(i),
            !self.is_active(i),
        ensures
            self.relink(i).wf(),
            self.relink(i).is_active(i),
            self.relink(i).order.len() == self.order.len() + 1,
            self.relink(i).order[self.slot(self.next[i])] == i,
            forall|a: int|
                0 <= a < self.order.len() + 1 && a != self.slot(self.next[i])
                    ==> #[trigger] self.relink(i).order[a] == self.order[unskip(
                    a,
                    self.slot(self.next[i]),
                )],
    {
        self.lemma_insert_shape(i);
        self.lemma_relink_shaped(i);
        self.lemma_relink_sorted(i);
        self.lemma_relink_threaded(i);
        self.lemma_relink_parted(i);
    }

    /// Of positions that can be put back in reverse order, the one that went last
    /// can be put back, and the rest can be put back in reverse order after.
    pub proof fn lemma_stacked_top(self)
        requires
            self.stacked(),
            self.removed.len() > 0,
        ensures
            self.wf(),
            self.restorable(self.removed.last()),
            !self.is_active(self.removed.last()),
            self.relink(self.removed.last()) == self.relink_top(),
            self.relink(self.removed.last()).stacked(),
    {
        let i: int = self.removed.last();
        let r: int = self.removed.len() - 1;
        self.lemma_removed_index(r);
        if self.order.contains(i) {
            let a: int = self.order.index_of(i);
            assert(0 <= a < self.order.len() && self.order[a] == i);
            assert(self.order[a] != self.removed[r]);
        }
        assert(self.relink(i).removed =~= self.relink_top().removed);
    }
}

} // verus!
