//! The rolling filter: one quantile per input value, taken over the window of the
//! last `k` values, with the window kept in a pair of blocks.

use vstd::prelude::*;
use crate::argsort::sortable_len;
use crate::block::Block;
use crate::links::Links;
use crate::merge::BlockUnion;
use crate::rank::{is_order_statistic, law_order_statistic_sorted, same_counts, sorted};
use crate::select::{QuantileUpdate, Ranks};

verus! {

/// Why a rolling filter was not computed.
#[derive(Clone, Copy, Debug)]
pub enum FilterError {
    /// The window is empty, the input is empty, or a pair of ranks is missing or
    /// lies outside the window that it is for.
    InvalidArgument,
}

/// The width of the window once it is full: `k`, but no more than there are values.
pub open spec fn width(k: int, n: int) -> int {
    if k < n {
        k
    } else {
        n
    }
}

/// The window that ends with `x[i]`: the last `k` values up to and with `x[i]`, or
/// all of them where there are fewer.
pub open spec fn window(x: Seq<i64>, k: int, i: int) -> Seq<i64> {
    x.subrange(
        if i + 1 > k {
            i + 1 - k
        } else {
            0
        },
        i + 1,
    )
}

/// The filter can run: there is a window, there are values, and for each length
/// that the window takes, `ranks` holds a pair of ranks within that length.
pub open spec fn valid_args(k: int, n: int, ranks: Seq<Ranks>) -> bool {
    &&& k >= 1
    &&& n >= 1
    &&& ranks.len() >= width(k, n)
    &&& forall|j: int| 0 <= j < width(k, n) ==> (#[trigger] ranks[j]).fits(j + 1)
}

/// `b` holds the order statistics at the two ranks of the window that ends with `x[i]`.
spec fn is_bounds_at(x: Seq<i64>, k: int, ranks: Seq<Ranks>, i: int, b: (i64, i64)) -> bool {
    let w: Seq<i64> = window(x, k, i);
    &&& is_order_statistic(w, ranks[w.len() - 1].lower as int, b.0)
    &&& is_order_statistic(w, ranks[w.len() - 1].upper as int, b.1)
}

/// `out` holds, for each value of `x`, the values at the two ranks of its window
/// in ascending order.
pub open spec fn is_rolling_bounds(x: Seq<i64>, k: int, ranks: Seq<Ranks>, out: Seq<(i64, i64)>) -> bool {
    &&& out.len() == x.len()
    &&& forall|i: int|
        0 <= i < x.len() ==> {
            &&& (#[trigger] out[i]).0 == sorted(window(x, k, i))[ranks[window(x, k, i).len()
                - 1].lower as int]
            &&& out[i].1 == sorted(window(x, k, i))[ranks[window(x, k, i).len() - 1].upper as int]
        }
}

/// `out` holds, for each value of `x`, the value at the lower rank of its window
/// in ascending order.
pub open spec fn is_rolling_quantile(x: Seq<i64>, k: int, ranks: Seq<Ranks>, out: Seq<i64>) -> bool {
    &&& out.len() == x.len()
    &&& forall|i: int|
        0 <= i < x.len() ==> #[trigger] out[i] == sorted(window(x, k, i))[ranks[window(
            x,
            k,
            i,
        ).len() - 1].lower as int]
}

/// `out` holds, for each value of `x`, the median of its window: the middle value
/// of the window in ascending order, and of two middle values the lower one.
pub open spec fn is_rolling_median(x: Seq<i64>, k: int, out: Seq<i64>) -> bool {
    &&& out.len() == x.len()
    &&& forall|i: int|
        0 <= i < x.len() ==> #[trigger] out[i] == sorted(window(x, k, i))[(window(x, k, i).len()
            - 1) / 2]
}

/// When the value at the low end of a range leaves a block, the block goes on
/// holding the rest of the range.
proof fn lemma_leave(links: Links, j: int, x: Seq<i64>, lo: int, hi: int)
    requires
        links.wf(),
        links.is_active(j),
        0 <= lo < hi <= x.len(),
        links.alpha[j] == x[lo],
        same_counts(links.values(), x.subrange(lo, hi)),
    ensures
        same_counts(links.unlink(j).values(), x.subrange(lo + 1, hi)),
{
    links.lemma_unlink_values(j);
    let idx: int = links.slot(j);
    let range: Seq<i64> = x.subrange(lo, hi);
    assert(range.remove(0) =~= x.subrange(lo + 1, hi));
    assert forall|v: i64|
        #![trigger crate::rank::count_lt(links.unlink(j).values(), v)]
        #![trigger crate::rank::count_le(links.unlink(j).values(), v)]
        #![trigger crate::rank::count_lt(x.subrange(lo + 1, hi), v)]
        #![trigger crate::rank::count_le(x.subrange(lo + 1, hi), v)]
        crate::rank::count_lt(links.unlink(j).values(), v) == crate::rank::count_lt(
            x.subrange(lo + 1, hi),
            v,
        ) && crate::rank::count_le(links.unlink(j).values(), v) == crate::rank::count_le(
            x.subrange(lo + 1, hi),
            v,
        ) by {
        crate::rank::lemma_count_remove(links.values(), idx, v);
        crate::rank::lemma_count_remove(range, 0, v);
        assert(crate::rank::count_lt(links.values(), v) == crate::rank::count_lt(range, v));
        assert(crate::rank::count_le(links.values(), v) == crate::rank::count_le(range, v));
    }
}

/// When the value after the high end of a range enters a block, the block holds
/// the range with that value.
pub proof fn lemma_enter(links: Links, j: int, x: Seq<i64>, lo: int, hi: int)
    requires
        links.restorable(j),
        0 <= lo <= hi < x.len(),
        links.alpha[j] == x[hi],
        same_counts(links.values(), x.subrange(lo, hi)),
    ensures
        same_counts(links.relink(j).values(), x.subrange(lo, hi + 1)),
{
    links.lemma_relink_values(j);
    let idx: int = links.slot(links.next[j]);
    let range: Seq<i64> = x.subrange(lo, hi);
    assert(range.push(x[hi]) =~= x.subrange(lo, hi + 1));
    assert forall|v: i64|
        #![trigger crate::rank::count_lt(links.relink(j).values(), v)]
        #![trigger crate::rank::count_le(links.relink(j).values(), v)]
        #![trigger crate::rank::count_lt(x.subrange(lo, hi + 1), v)]
        #![trigger crate::rank::count_le(x.subrange(lo, hi + 1), v)]
        crate::rank::count_lt(links.relink(j).values(), v) == crate::rank::count_lt(
            x.subrange(lo, hi + 1),
            v,
        ) && crate::rank::count_le(links.relink(j).values(), v) == crate::rank::count_le(
            x.subrange(lo, hi + 1),
            v,
        ) by {
        crate::rank::lemma_count_insert(links.values(), idx, x[hi], v);
        crate::rank::lemma_count_push(range, x[hi], v);
        assert(crate::rank::count_lt(links.values(), v) == crate::rank::count_lt(range, v));
        assert(crate::rank::count_le(links.values(), v) == crate::rank::count_le(range, v));
    }
}

/// Two blocks that hold two adjoining ranges hold, together, the joined range.
proof fn lemma_joined(left: Seq<i64>, right: Seq<i64>, x: Seq<i64>, lo: int, mid: int, hi: int)
    requires
        0 <= lo <= mid <= hi <= x.len(),
        same_counts(left, x.subrange(lo, mid)),
        same_counts(right, x.subrange(mid, hi)),
    ensures
        same_counts(left + right, x.subrange(lo, hi)),
{
    assert(x.subrange(lo, mid) + x.subrange(mid, hi) =~= x.subrange(lo, hi));
    assert forall|v: i64|
        #![trigger crate::rank::count_lt(left + right, v)]
        #![trigger crate::rank::count_le(left + right, v)]
        #![trigger crate::rank::count_lt(x.subrange(lo, hi), v)]
        #![trigger crate::rank::count_le(x.subrange(lo, hi), v)]
        crate::rank::count_lt(left + right, v) == crate::rank::count_lt(x.subrange(lo, hi), v)
            && crate::rank::count_le(left + right, v) == crate::rank::count_le(
            x.subrange(lo, hi),
            v,
        ) by {
        crate::rank::lemma_count_concat(left, right, v);
        crate::rank::lemma_count_concat(x.subrange(lo, mid), x.subrange(mid, hi), v);
        assert(crate::rank::count_lt(left, v) == crate::rank::count_lt(x.subrange(lo, mid), v));
        assert(crate::rank::count_le(left, v) == crate::rank::count_le(x.subrange(lo, mid), v));
        assert(crate::rank::count_lt(right, v) == crate::rank::count_lt(x.subrange(mid, hi), v));
        assert(crate::rank::count_le(right, v) == crate::rank::count_le(x.subrange(mid, hi), v));
    }
}

/// Whether `ranks` holds a fitting pair of ranks for each window length up to `w`.
fn ranks_fit(w: usize, ranks: &[Ranks]) -> (ok: bool)
    ensures
        ok == (ranks@.len() >= w && forall|j: int|
            0 <= j < w ==> (#[trigger] ranks@[j]).fits(j + 1)),
{
    if ranks.len() < w {
        return false;
    }
    let mut j: usize = 0;
    while j < w
        invariant
            j <= w <= ranks@.len(),
            forall|t: int| 0 <= t < j ==> (#[trigger] ranks@[t]).fits(t + 1),
        decreases w - j,
    {
        let r: Ranks = ranks[j];
        if !(r.lower <= r.upper && r.upper <= j) {
            proof {
                assert(!ranks@[j as int].fits(j + 1));
            }
            return false;
        }
        j = j + 1;
    }
    true
}


/// Fills the first window: builds the block over the first `w` values, empties
/// it, and lets the values enter one by one, reading the two bounds after each.
fn warm_up<'a>(
    slice: &'a [i64],
    w: usize,
    ranks: &[Ranks],
    scratch: &mut Vec<u8>,
    out: &mut Vec<(i64, i64)>,
) -> (block: Block<'a>)
    requires
        1 <= w <= slice@.len(),
        sortable_len(w as nat),
        ranks@.len() >= w,
        forall|j: int| 0 <= j < w ==> (#[trigger] ranks@[j]).fits(j + 1),
        old(out)@.len() == 0,
        old(scratch)@.len() == 0,
    ensures
        final(scratch)@.len() == 0,
        block.wf(),
        block@.links.alpha == slice@.subrange(0, w as int),
        block@.links.removed.len() == 0,
        same_counts(block@.values(), slice@.subrange(0, w as int)),
        final(out)@.len() == w,
        forall|i: int| 0 <= i < w ==> is_bounds_at(slice@, w as int, ranks@, i, #[trigger] final(out)@[i]),
{
    let ghost x: Seq<i64> = slice@;
    let alpha: &[i64] = &slice[0..w];
    let mut block_left: Block<'a> = Block::new(alpha, scratch, Vec::new(), Vec::new());
    block_left.unwind();
    let mut i: usize = 0;
    while i < w
        invariant
            i <= w <= x.len(),
            x == slice@,
            ranks@.len() >= w,
            forall|j: int| 0 <= j < w ==> (#[trigger] ranks@[j]).fits(j + 1),
            block_left.wf(),
            block_left@.links.stacked(),
            block_left@.links.alpha == x.subrange(0, w as int),
            block_left@.links.removed == Seq::new((w - i) as nat, |t: int| w - 1 - t),
            same_counts(block_left@.values(), x.subrange(0, i as int)),
            out@.len() == i,
            forall|t: int| 0 <= t < i ==> is_bounds_at(x, w as int, ranks@, t, #[trigger] out@[t]),
        decreases w - i,
    {
        let ghost before: Links = block_left@.links;
        proof {
            before.lemma_stacked_top();
            lemma_enter(before, i as int, x, 0, i as int);
        }
        block_left.undelete(i);
        proof {
            assert(block_left@.links == before.relink(i as int));
            assert(before.relink_top().removed =~= Seq::new(
                (w - i - 1) as nat,
                |t: int| w - 1 - t,
            ));
            assert(block_left@.values().len() == i + 1);
        }
        let mut q: QuantileUpdate<Block<'a>> = QuantileUpdate::new(ranks[i], block_left);
        let ghost held: Seq<i64> = q.inner@.values();
        let b: (i64, i64) = q.bounds();
        block_left = q.into_inner();
        proof {
            assert(window(x, w as int, i as int) == x.subrange(0, i + 1));
            law_order_statistic_sorted(held, ranks@[i as int].lower as int, b.0);
            law_order_statistic_sorted(held, ranks@[i as int].upper as int, b.1);
            crate::rank::lemma_order_statistic_same_counts(
                held,
                x.subrange(0, i + 1),
                ranks@[i as int].lower as int,
                b.0,
            );
            crate::rank::lemma_order_statistic_same_counts(
                held,
                x.subrange(0, i + 1),
                ranks@[i as int].upper as int,
                b.1,
            );
            assert(is_bounds_at(x, w as int, ranks@, i as int, b));
        }
        out.push(b);
        i = i + 1;
    }
    block_left
}

/// The two blocks hold the window over `x` while it moves from the block that
/// starts at `start - w` into the block that starts at `start` and has `c`
/// positions, of which `j` have moved.
spec fn holds_window(
    left: Links,
    right: Links,
    x: Seq<i64>,
    w: int,
    start: int,
    c: int,
    j: int,
) -> bool {
    &&& 0 <= j <= c <= w <= start
    &&& start + c <= x.len()
    &&& left.wf()
    &&& right.stacked()
    &&& left.alpha == x.subrange(start - w, start)
    &&& right.alpha == x.subrange(start, start + c)
    &&& left.removed == Seq::new(j as nat, |t: int| t)
    &&& right.removed == Seq::new((c - j) as nat, |t: int| c - 1 - t)
    &&& same_counts(left.values(), x.subrange(start - w + j, start))
    &&& same_counts(right.values(), x.subrange(start, start + j))
}

/// Moving position `j` from the left block to the right block moves the window on
/// by one value.
proof fn lemma_move(left: Links, right: Links, x: Seq<i64>, w: int, start: int, c: int, j: int)
    requires
        holds_window(left, right, x, w, start, c, j),
        j < c,
    ensures
        left.is_active(j),
        right.removed.len() > 0,
        right.removed.last() == j,
        right.restorable(j),
        !right.is_active(j),
        holds_window(left.unlink(j), right.relink(j), x, w, start, c, j + 1),
        same_counts(
            left.unlink(j).values() + right.relink(j).values(),
            window(x, w, start + j),
        ),
        (left.unlink(j).values() + right.relink(j).values()).len() == w,
{
    if left.removed.contains(j) {
        let t: int = left.removed.index_of(j);
        assert(0 <= t < left.removed.len() && left.removed[t] == j);
    }
    assert(left.order.contains(j));
    right.lemma_stacked_top();
    right.lemma_relink_wf(j);
    lemma_leave(left, j, x, start - w + j, start);
    lemma_enter(right, j, x, start, start + j);
    left.lemma_unlink_wf(j);
    assert(left.unlink(j).removed =~= Seq::new((j + 1) as nat, |t: int| t));
    assert(right.relink_top().removed =~= Seq::new((c - j - 1) as nat, |t: int| c - 1 - t));
    lemma_joined(
        left.unlink(j).values(),
        right.relink(j).values(),
        x,
        start - w + j + 1,
        start,
        start + j + 1,
    );
    assert(window(x, w, start + j) == x.subrange(start - w + j + 1, start + j + 1));
    left.unlink(j).lemma_values_ascending();
    right.relink(j).lemma_values_ascending();
}

/// Moves the window over one more block of values: builds the block over
/// `slice[start..end]`, empties it, and moves the positions one by one from the
/// left block into it, reading the two bounds after each move. Gives back the new
/// block, which is full, and the link buffers of the left block, which is empty.
fn slide<'a>(
    slice: &'a [i64],
    w: usize,
    start: usize,
    end: usize,
    ranks: &[Ranks],
    scratch: &mut Vec<u8>,
    block_left: Block<'a>,
    spare: (Vec<u32>, Vec<u32>),
    out: &mut Vec<(i64, i64)>,
) -> (res: (Block<'a>, (Vec<u32>, Vec<u32>)))
    requires
        1 <= w <= start < end <= slice@.len(),
        end - start <= w,
        sortable_len(w as nat),
        ranks@.len() >= w,
        ranks@[w - 1].fits(w as int),
        block_left.wf(),
        block_left@.links.alpha == slice@.subrange(start - w, start as int),
        block_left@.links.removed.len() == 0,
        same_counts(block_left@.values(), slice@.subrange(start - w, start as int)),
        old(out)@.len() == start,
        old(scratch)@.len() == 0,
    ensures
        final(scratch)@.len() == 0,
        res.0.wf(),
        res.0@.links.alpha == slice@.subrange(start as int, end as int),
        res.0@.links.removed.len() == 0,
        same_counts(res.0@.values(), slice@.subrange(start as int, end as int)),
        final(out)@.len() == end,
        forall|i: int| 0 <= i < start ==> final(out)@[i] == old(out)@[i],
        forall|i: int|
            start <= i < end ==> is_bounds_at(slice@, w as int, ranks@, i, #[trigger] final(out)@[i]),
{
    let ghost x: Seq<i64> = slice@;
    let c: usize = end - start;
    let alpha: &[i64] = &slice[start..end];
    let mut block_right: Block<'a> = Block::new(alpha, scratch, spare.0, spare.1);
    // Time reverse the block so that the positions can enter in their order.
    block_right.unwind();
    let full: Ranks = ranks[w - 1];
    let mut union: BlockUnion<'a> = BlockUnion::new(block_left, block_right, w);
    proof {
        assert(union.block_left@.links.removed =~= Seq::new(0nat, |t: int| t));
    }
    let mut j: usize = 0;
    while j < c
        invariant
            j <= c,
            c == end - start,
            w <= start,
            x == slice@,
            full == ranks@[w - 1],
            full.fits(w as int),
            union.block_left.wf(),
            union.block_right.wf(),
            holds_window(
                union.block_left@.links,
                union.block_right@.links,
                x,
                w as int,
                start as int,
                c as int,
                j as int,
            ),
            out@.len() == start + j,
            forall|i: int| 0 <= i < start ==> out@[i] == old(out)@[i],
            forall|i: int|
                start <= i < start + j ==> is_bounds_at(x, w as int, ranks@, i, #[trigger] out@[i]),
        decreases c - j,
    {
        proof {
            lemma_move(
                union.block_left@.links,
                union.block_right@.links,
                x,
                w as int,
                start as int,
                c as int,
                j as int,
            );
        }
        union.set_state(j);
        let mut q: QuantileUpdate<BlockUnion<'a>> = QuantileUpdate::new(full, union);
        let ghost held: Seq<i64> = q.inner.values();
        let b: (i64, i64) = q.bounds();
        union = q.into_inner();
        proof {
            law_order_statistic_sorted(held, full.lower as int, b.0);
            law_order_statistic_sorted(held, full.upper as int, b.1);
            crate::rank::lemma_order_statistic_same_counts(
                held,
                window(x, w as int, start + j),
                full.lower as int,
                b.0,
            );
            crate::rank::lemma_order_statistic_same_counts(
                held,
                window(x, w as int, start + j),
                full.upper as int,
                b.1,
            );
            assert(window(x, w as int, start + j).len() == w);
            assert(is_bounds_at(x, w as int, ranks@, start + j, b));
        }
        out.push(b);
        j = j + 1;
    }
    let blocks: (Block<'a>, Block<'a>) = union.into_blocks();
    (blocks.1, blocks.0.into_buffers())
}

/// For each value of `slice`, the values at the two ranks of the window that ends
/// with it. `ranks[l - 1]` gives the two ranks for a window of `l` values; the
/// window grows from one value to `k` values, or to all values where there are
/// fewer, and keeps that width.
pub fn rolling_bounds(k: usize, slice: &[i64], ranks: &[Ranks]) -> (r: Result<
    Vec<(i64, i64)>,
    FilterError,
>)
    requires
        sortable_len(width(k as int, slice@.len() as int) as nat),
    ensures
        valid_args(k as int, slice@.len() as int, ranks@) ==> r is Ok && is_rolling_bounds(
            slice@,
            width(k as int, slice@.len() as int),
            ranks@,
            r->Ok_0@,
        ),
        !valid_args(k as int, slice@.len() as int, ranks@) ==> r is Err,
{
    let n: usize = slice.len();
    if k == 0 || n == 0 {
        return Err(FilterError::InvalidArgument);
    }
    let w: usize = if k < n { k } else { n };
    if !ranks_fit(w, ranks) {
        return Err(FilterError::InvalidArgument);
    }
    let ghost x: Seq<i64> = slice@;
    let mut scratch: Vec<u8> = Vec::new();
    let mut out: Vec<(i64, i64)> = Vec::with_capacity(n);
    let mut block_left = warm_up(slice, w, ranks, &mut scratch, &mut out);
    let mut spare: (Vec<u32>, Vec<u32>) = (Vec::new(), Vec::new());
    let mut start: usize = w;
    while start < n
        invariant
            1 <= w <= start <= n,
            n == x.len(),
            x == slice@,
            sortable_len(w as nat),
            ranks@.len() >= w,
            forall|j: int| 0 <= j < w ==> (#[trigger] ranks@[j]).fits(j + 1),
            scratch@.len() == 0,
            out@.len() == start,
            forall|i: int|
                0 <= i < start ==> is_bounds_at(x, w as int, ranks@, i, #[trigger] out@[i]),
            start < n ==> {
                &&& block_left.wf()
                &&& block_left@.links.alpha == x.subrange(start - w, start as int)
                &&& block_left@.links.removed.len() == 0
                &&& same_counts(block_left@.values(), x.subrange(start - w, start as int))
            },
        decreases n - start,
    {
        let end: usize = if n - start > w { start + w } else { n };
        let ghost done: Seq<(i64, i64)> = out@;
        let res = slide(slice, w, start, end, ranks, &mut scratch, block_left, spare, &mut out);
        block_left = res.0;
        spare = res.1;
        proof {
            assert forall|i: int| 0 <= i < end implies is_bounds_at(
                x,
                w as int,
                ranks@,
                i,
                #[trigger] out@[i],
            ) by {
                if i < start {
                    assert(out@[i] == done[i]);
                }
            }
        }
        start = end;
    }
    proof {
        assert forall|i: int| 0 <= i < x.len() implies {
            &&& (#[trigger] out@[i]).0 == sorted(window(x, w as int, i))[ranks@[window(
                x,
                w as int,
                i,
            ).len() - 1].lower as int]
            &&& out@[i].1 == sorted(window(x, w as int, i))[ranks@[window(x, w as int, i).len()
                - 1].upper as int]
        } by {
            let win: Seq<i64> = window(x, w as int, i);
            let r: Ranks = ranks@[win.len() - 1];
            assert(is_bounds_at(x, w as int, ranks@, i, out@[i]));
            assert(r.fits(win.len() as int));
            law_order_statistic_sorted(win, r.lower as int, out@[i].0);
            law_order_statistic_sorted(win, r.upper as int, out@[i].1);
        }
    }
    Ok(out)
}


/// The rolling quantile in whole numbers. `ranks[l - 1]` gives the two ranks
/// between which the quantile of a window of `l` values lies; the weight of the
/// upper value is cut to zero, so each result is the value at the lower rank.
pub fn rolling_quantile(k: usize, slice: &[i64], ranks: &[Ranks]) -> (r: Result<
    Vec<i64>,
    FilterError,
>)
    requires
        sortable_len(width(k as int, slice@.len() as int) as nat),
    ensures
        valid_args(k as int, slice@.len() as int, ranks@) ==> r is Ok && is_rolling_quantile(
            slice@,
            width(k as int, slice@.len() as int),
            ranks@,
            r->Ok_0@,
        ),
        !valid_args(k as int, slice@.len() as int, ranks@) ==> r is Err,
{
    match rolling_bounds(k, slice, ranks) {
        Ok(bounds) => {
            let mut out: Vec<i64> = Vec::with_capacity(bounds.len());
            let mut i: usize = 0;
            while i < bounds.len()
                invariant
                    i <= bounds@.len(),
                    out@.len() == i,
                    forall|t: int| 0 <= t < i ==> #[trigger] out@[t] == bounds@[t].0,
                decreases bounds@.len() - i,
            {
                out.push(bounds[i].0);
                i = i + 1;
            }
            Ok(out)
        },
        Err(e) => Err(e),
    }
}

/// The rolling median in whole numbers: for each value, the median of the window
/// of the last `k` values that ends with it.
pub fn rolling_median(k: usize, slice: &[i64]) -> (r: Result<Vec<i64>, FilterError>)
    requires
        sortable_len(width(k as int, slice@.len() as int) as nat),
    ensures
        k >= 1 && slice@.len() >= 1 ==> r is Ok && is_rolling_median(
            slice@,
            width(k as int, slice@.len() as int),
            r->Ok_0@,
        ),
        k == 0 || slice@.len() == 0 ==> r is Err,
{
    let n: usize = slice.len();
    let w: usize = if k < n { k } else { n };
    let mut ranks: Vec<Ranks> = Vec::with_capacity(w);
    let mut l: usize = 0;
    while l < w
        invariant
            l <= w,
            ranks@.len() == l,
            forall|j: int| 0 <= j < l ==> #[trigger] ranks@[j] == Ranks::median_of(j + 1),
        decreases w - l,
    {
        l = l + 1;
        ranks.push(Ranks::median(l));
    }
    proof {
        assert forall|j: int| 0 <= j < w implies (#[trigger] ranks@[j]).fits(j + 1) by {
            assert(ranks@[j] == Ranks::median_of(j + 1));
        }
    }
    let r = rolling_quantile(k, slice, ranks.as_slice());
    proof {
        if k >= 1 && n >= 1 {
            let out: Seq<i64> = r->Ok_0@;
            assert forall|i: int| 0 <= i < slice@.len() implies #[trigger] out[i] == sorted(
                window(slice@, w as int, i),
            )[(window(slice@, w as int, i).len() - 1) / 2] by {
                let len: int = window(slice@, w as int, i).len() as int;
                assert(ranks@[len - 1] == Ranks::median_of(len));
            }
        }
    }
    r
}

} // verus!
