//! Selecting a quantile from anything that hands out its values by rank.

use vstd::prelude::*;
use crate::block::Block;
use crate::links::Links;
use crate::rank::{law_order_statistic_sorted, sorted};

verus! {

/// A bag of values that hands out the value of a given rank.
pub trait LenGet: Sized {
    /// The bag is well-formed.
    spec fn ready(&self) -> bool;

    /// The values in the bag, in some order.
    spec fn contents(&self) -> Seq<i64>;

    /// What the bag is made of, the places of its cursors aside.
    type Items;

    /// What the bag is made of. Reading the bag moves cursors and leaves this as it is.
    spec fn items(&self) -> Self::Items;

    /// The values in a bag are given by what it is made of.
    proof fn lemma_items(&self, other: &Self)
        requires
            self.items() == other.items(),
        ensures
            self.contents() == other.contents(),
    ;

    /// The number of values in the bag.
    fn len(&self) -> (n: usize)
        requires
            self.ready(),
        ensures
            n == self.contents().len(),
    ;

    /// The value of rank `i` in ascending order.
    fn get(&mut self, i: usize) -> (v: i64)
        requires
            old(self).ready(),
            i < old(self).contents().len(),
        ensures
            final(self).ready(),
            final(self).items() == old(self).items(),
            v == sorted(old(self).contents())[i as int],
    ;

    /// Steps the cursor that leads one rank back, where the bag has one to correct.
    fn reverse(&mut self)
        requires
            old(self).ready(),
        ensures
            final(self).ready(),
            final(self).items() == old(self).items(),
    ;
}

impl<'a> LenGet for Block<'a> {
    open spec fn ready(&self) -> bool {
        self.wf()
    }

    open spec fn contents(&self) -> Seq<i64> {
        self@.values()
    }

    type Items = Links;

    open spec fn items(&self) -> Links {
        self@.links
    }

    proof fn lemma_items(&self, other: &Self) {
    }

    fn len(&self) -> (n: usize) {
        Block::len(self)
    }

    fn get(&mut self, i: usize) -> (v: i64)
        ensures
            final(self)@ == old(self)@.seek(i as int),
            v == old(self)@.values()[i as int],
    {
        proof {
            self@.links.lemma_values_ascending();
            crate::rank::lemma_ascending_rank(self@.values(), i as int);
            law_order_statistic_sorted(self@.values(), i as int, self@.values()[i as int]);
        }
        self.traverse_to_index(i);
        self.peek().unwrap()
    }

    /// A block alone has no second cursor to fall behind: nothing moves.
    fn reverse(&mut self)
        ensures
            final(self)@ == old(self)@,
    {
    }
}

/// The two ranks between which a quantile of a window lies: the position of the
/// quantile among the sorted values, rounded down and rounded up.
#[derive(Clone, Copy, Debug)]
pub struct Ranks {
    pub lower: usize,
    pub upper: usize,
}

impl Ranks {
    /// Both ranks lie in a window of `len` values, the lower one not above the upper.
    pub open spec fn fits(self, len: int) -> bool {
        self.lower <= self.upper < len
    }

    /// The ranks of the median of `len` values.
    pub open spec fn median_of(len: int) -> Ranks {
        Ranks { lower: ((len - 1) / 2) as usize, upper: (len / 2) as usize }
    }

    /// The ranks of the median of `len` values: the middle rank, or the two ranks
    /// around the middle where `len` is even.
    pub fn median(len: usize) -> (r: Ranks)
        requires
            len > 0,
        ensures
            r == Ranks::median_of(len as int),
            r.fits(len as int),
            r.upper <= r.lower + 1,
    {
        Ranks { lower: (len - 1) / 2, upper: len / 2 }
    }
}

/// Reads a quantile off a bag of values.
pub struct QuantileUpdate<M: LenGet> {
    pub inner: M,
    pub ranks: Ranks,
}

impl<M: LenGet> QuantileUpdate<M> {
    /// A reader of the quantile that lies between the two `ranks` of `inner`.
    pub fn new(ranks: Ranks, inner: M) -> (q: Self)
        ensures
            q.inner == inner,
            q.ranks == ranks,
    {
        QuantileUpdate { inner, ranks }
    }

    /// Gives the bag back.
    pub fn into_inner(self) -> (inner: M)
        ensures
            inner == self.inner,
    {
        self.inner
    }

    /// The values at the lower and at the upper rank. A quantile is interpolated
    /// between the two.
    pub fn bounds(&mut self) -> (b: (i64, i64))
        requires
            old(self).inner.ready(),
            old(self).ranks.fits(old(self).inner.contents().len() as int),
        ensures
            final(self).inner.ready(),
            final(self).inner.items() == old(self).inner.items(),
            final(self).ranks == old(self).ranks,
            b.0 == sorted(old(self).inner.contents())[old(self).ranks.lower as int],
            b.1 == sorted(old(self).inner.contents())[old(self).ranks.upper as int],
    {
        let idx: usize = self.ranks.lower;
        let top_idx: usize = self.ranks.upper;
        if idx == top_idx {
            let v: i64 = self.inner.get(idx);
            (v, v)
        } else {
            let ghost before: M = self.inner;
            let vi: i64 = self.inner.get(idx);
            proof {
                self.inner.lemma_items(&before);
            }
            let vj: i64 = self.inner.get(top_idx);
            (vi, vj)
        }
    }

    /// The quantile in whole numbers: the weight of the upper value is cut to zero,
    /// which leaves the value at the lower rank.
    pub fn quantile(&mut self) -> (v: i64)
        requires
            old(self).inner.ready(),
            old(self).ranks.fits(old(self).inner.contents().len() as int),
        ensures
            final(self).inner.ready(),
            final(self).inner.items() == old(self).inner.items(),
            final(self).ranks == old(self).ranks,
            v == sorted(old(self).inner.contents())[old(self).ranks.lower as int],
    {
        let b: (i64, i64) = self.bounds();
        b.0
    }
}

/// Reads the median off a bag of values.
pub struct MedianUpdate<M: LenGet> {
    pub inner: M,
}

impl<M: LenGet> MedianUpdate<M> {
    /// A reader of the median of `inner`.
    pub fn new(inner: M) -> (m: Self)
        ensures
            m.inner == inner,
    {
        MedianUpdate { inner }
    }

    /// Gives the bag back.
    pub fn into_inner(self) -> (inner: M)
        ensures
            inner == self.inner,
    {
        self.inner
    }

    /// The median in whole numbers: the middle value, and of two middle values the
    /// lower one.
    pub fn median(&mut self) -> (v: i64)
        requires
            old(self).inner.ready(),
            old(self).inner.contents().len() > 0,
        ensures
            final(self).inner.ready(),
            final(self).inner.items() == old(self).inner.items(),
            v == sorted(old(self).inner.contents())[(old(self).inner.contents().len() - 1) / 2],
    {
        let length: usize = self.inner.len();
        let r: Ranks = Ranks::median(length);
        if r.lower == r.upper {
            self.inner.get(r.lower)
        } else {
            let ghost before: M = self.inner;
            let vi: i64 = self.inner.get(r.lower);
            proof {
                self.inner.lemma_items(&before);
            }
            let _vj: i64 = self.inner.get(r.upper);
            vi
        }
    }
}

} // verus!
