//! What holds of every block, and of sequences of operations on a block.

use vstd::prelude::*;
use crate::block::BlockModel;
use crate::links::{key_lt, Links};
use crate::rank::{lemma_ascending_is_sorted, same_counts, sorted};
use crate::rolling::lemma_enter;

verus! {

/// The index reached from `from` by following `next` for `steps` steps.
pub open spec fn walk(next: Seq<int>, from: int, steps: nat) -> int
    decreases steps,
{
    if steps == 0 {
        from
    } else {
        next[walk(next, from, (steps - 1) as nat)]
    }
}

/// The block after the positions of `s` are taken out, the first of `s` first.
pub open spec fn delete_all(m: BlockModel, s: Seq<int>) -> BlockModel
    decreases s.len(),
{
    if s.len() == 0 {
        m
    } else {
        delete_all(m, s.drop_last()).delete(s.last())
    }
}

/// The block after the positions of `s` are put back, the last of `s` first.
pub open spec fn undelete_all(m: BlockModel, s: Seq<int>) -> BlockModel
    decreases s.len(),
{
    if s.len() == 0 {
        m
    } else {
        undelete_all(m.undelete(s.last()), s.drop_last())
    }
}

/// The block after the positions `0, 1, .., j - 1` are put back, in this order.
pub open spec fn undelete_up(m: BlockModel, j: int) -> BlockModel
    decreases j,
{
    if j <= 0 {
        m
    } else {
        undelete_up(m, j - 1).undelete(j - 1)
    }
}

/// `s` lists positions of a block of `k` positions, none of them twice.
pub open spec fn is_distinct(s: Seq<int>, k: int) -> bool {
    &&& forall|a: int| 0 <= a < s.len() ==> 0 <= #[trigger] s[a] < k
    &&& forall|a: int, b: int| 0 <= a < b < s.len() ==> #[trigger] s[a] != #[trigger] s[b]
}

/// `s` lists each position of a block of `k` positions once.
pub open spec fn is_permutation(s: Seq<int>, k: int) -> bool {
    &&& s.len() == k
    &&& is_distinct(s, k)
}

/// Following `next` from the sentinel for `j` steps leads to the position at rank
/// `j - 1` of the list, and after one step more than the list is long, back to the
/// sentinel.
pub proof fn lemma_walk(links: Links, j: int)
    requires
        links.consistent(),
        0 <= j <= links.order.len() + 1,
    ensures
        walk(links.next, links.tail(), j as nat) == links.at(j - 1),
    decreases j,
{
    if j > 0 {
        lemma_walk(links, j - 1);
        links.lemma_step(j - 2);
    }
}

/// Order: following `next` from the sentinel visits the active positions, each
/// after all positions of smaller value, and among equal values after those of
/// smaller index.
pub proof fn law_order(links: Links, a: int, b: int)
    requires
        links.wf(),
        0 <= a < b < links.order.len(),
    ensures
        links.is_active(walk(links.next, links.tail(), (a + 1) as nat)),
        links.is_active(walk(links.next, links.tail(), (b + 1) as nat)),
        key_lt(
            links.alpha,
            walk(links.next, links.tail(), (a + 1) as nat),
            walk(links.next, links.tail(), (b + 1) as nat),
        ),
{
    lemma_walk(links, a + 1);
    lemma_walk(links, b + 1);
    links.lemma_slot(a);
    links.lemma_slot(b);
    links.lemma_rank_order(a, b);
}

/// Cardinality: the cycle through the sentinel closes after one step more than
/// there are active positions, and no index occurs twice on it.
pub proof fn law_cardinality(links: Links, a: int, b: int)
    requires
        links.wf(),
        0 <= a < b <= links.order.len(),
    ensures
        walk(links.next, links.tail(), (links.order.len() + 1) as nat) == links.tail(),
        walk(links.next, links.tail(), a as nat) != walk(links.next, links.tail(), b as nat),
{
    lemma_walk(links, links.order.len() as int + 1);
    lemma_walk(links, a);
    lemma_walk(links, b);
    if a > 0 {
        links.lemma_rank_order(a - 1, b - 1);
    }
}

/// Cursor rank: where the cursor stands on a position, that position is reached
/// from the sentinel in one step more than the rank of the cursor, and the active
/// positions before it in the order are exactly those at the ranks below.
pub proof fn law_cursor_rank(m: BlockModel, j: int)
    requires
        m.wf(),
        m.len() > 0,
        m.cursor != m.links.tail(),
        0 <= j < m.len(),
    ensures
        0 <= m.rank < m.len(),
        walk(m.links.next, m.links.tail(), (m.rank + 1) as nat) == m.cursor,
        key_lt(m.links.alpha, m.links.order[j], m.cursor) <==> j < m.rank,
{
    lemma_walk(m.links, m.rank + 1);
    m.links.lemma_rank_order(j, m.rank);
}

/// Reversible links: putting a position back right after it was taken out
/// restores the links, the list and the removed positions exactly.
pub proof fn law_reversible_links(links: Links, i: int)
    requires
        links.wf(),
        links.is_active(i),
    ensures
        links.unlink(i).wf(),
        links.unlink(i).restorable(i),
        !links.unlink(i).is_active(i),
        links.unlink(i).relink(i) == links,
{
    links.lemma_unlink_wf(i);
    links.lemma_unlink_relink(i);
}

/// Reversible links, with other positions moved in between: where the two slots
/// that taking `i` out wrote, and the two links of `i` itself, hold in `now` what
/// they held right after `i` went out of `before`, putting `i` back gives the two
/// slots what they held in `before`, and writes nothing else.
pub proof fn law_reversible_slots(before: Links, i: int, now: Links)
    requires
        before.wf(),
        before.is_active(i),
        now.prev.len() == before.prev.len(),
        now.next.len() == before.next.len(),
        now.prev[i] == before.prev[i],
        now.next[i] == before.next[i],
        now.next[before.prev[i]] == before.unlink(i).next[before.prev[i]],
        now.prev[before.next[i]] == before.unlink(i).prev[before.next[i]],
    ensures
        now.relink(i).next[before.prev[i]] == before.next[before.prev[i]],
        now.relink(i).prev[before.next[i]] == before.prev[before.next[i]],
        now.relink(i).next == now.next.update(before.prev[i], i),
        now.relink(i).prev == now.prev.update(before.next[i], i),
        now.next[before.prev[i]] == before.next[i],
        now.prev[before.next[i]] == before.prev[i],
{
    before.lemma_slot_of_active(i);
    before.lemma_neighbours(before.slot(i));
    before.lemma_step(before.slot(i) - 1);
    before.lemma_step(before.slot(i) + 1);
}

/// A removed position that can be put back can still be put back after another
/// position is taken out, unless that one is one of the two that its links name.
pub proof fn law_restorable_kept_by_unlink(links: Links, i: int, j: int)
    requires
        links.wf(),
        links.restorable(i),
        !links.is_active(i),
        links.is_active(j),
        j != links.prev[i],
        j != links.next[i],
    ensures
        links.unlink(j).restorable(i),
        !links.unlink(j).is_active(i),
        links.unlink(j).prev[i] == links.prev[i],
        links.unlink(j).next[i] == links.next[i],
{
    let k: int = links.tail();
    let n: int = links.order.len() as int;
    let out: Links = links.unlink(j);
    let q: int = links.next[i];
    let sq: int = links.slot(q);
    links.lemma_slot_of_active(j);
    let jdx: int = links.slot(j);
    links.lemma_unlink_consistent(j);
    links.lemma_remove_shape(jdx);
    links.lemma_neighbours(jdx);
    links.lemma_step(jdx - 1);
    links.lemma_step(jdx + 1);
    // the two slots that go with j are not links of i
    assert(links.prev[j] != i) by {
        if jdx > 0 {
            assert(links.order[jdx - 1] == links.prev[j]);
        }
    }
    assert(links.next[j] != i) by {
        if jdx + 1 < n {
            assert(links.order[jdx + 1] == links.next[j]);
        }
    }
    assert(out.prev[i] == links.prev[i]);
    assert(out.next[i] == q);
    if out.order.contains(i) {
        let a: int = out.order.index_of(i);
        assert(0 <= a < out.order.len() && out.order[a] == i);
        assert(out.order[a] == links.order[crate::links::skip(a, jdx)]);
    }
    if q == k {
        assert(sq == n);
        assert(jdx != n - 1);
        if n >= 2 {
            assert(out.order[n - 2] == links.order[crate::links::skip(n - 2, jdx)]);
        }
        assert(out.slot(q) == n - 1);
    } else {
        assert(links.order[sq] == q);
        assert(jdx != sq);
        let tq: int = crate::links::unskip(sq, jdx + 1);
        assert(out.order[tq] == links.order[crate::links::skip(tq, jdx)]);
        out.lemma_slot(tq);
        if sq > 0 {
            assert(links.order[sq - 1] == links.prev[i]);
            assert(jdx != sq - 1);
            assert(out.order[tq - 1] == links.order[crate::links::skip(tq - 1, jdx)]);
        }
    }
}

/// A removed position that can be put back can still be put back after another
/// removed position is put back, unless that one goes between the two positions
/// that its links name.
pub proof fn law_restorable_kept_by_relink(links: Links, i: int, j: int)
    requires
        links.wf(),
        links.restorable(i),
        !links.is_active(i),
        links.restorable(j),
        !links.is_active(j),
        i != j,
        links.next[j] != links.next[i],
    ensures
        links.relink(j).restorable(i),
        !links.relink(j).is_active(i),
        links.relink(j).prev[i] == links.prev[i],
        links.relink(j).next[i] == links.next[i],
{
    let k: int = links.tail();
    let n: int = links.order.len() as int;
    let back: Links = links.relink(j);
    let q: int = links.next[i];
    let sq: int = links.slot(q);
    let sj: int = links.slot(links.next[j]);
    links.lemma_relink_wf(j);
    links.lemma_step(sj - 1);
    links.lemma_step(sj);
    assert(links.prev[j] != i) by {
        if sj > 0 {
            assert(links.order[sj - 1] == links.prev[j]);
        }
    }
    assert(links.next[j] != i) by {
        if sj < n {
            assert(links.order[sj] == links.next[j]);
        }
    }
    assert(back.prev[i] == links.prev[i]);
    assert(back.next[i] == q);
    assert(sj != sq);
    if back.order.contains(i) {
        let a: int = back.order.index_of(i);
        assert(0 <= a < back.order.len() && back.order[a] == i);
        if a != sj {
            assert(back.order[a] == links.order[crate::links::unskip(a, sj)]);
        }
    }
    if q == k {
        assert(sq == n);
        assert(back.order[n] == links.order[crate::links::unskip(n, sj)]);
        assert(back.slot(q) == n + 1);
    } else {
        assert(links.order[sq] == q);
        let tq: int = crate::links::skip(sq, sj);
        assert(back.order[tq] == links.order[crate::links::unskip(tq, sj)]);
        back.lemma_slot(tq);
        if sq > 0 {
            assert(links.order[sq - 1] == links.prev[i]);
            if tq - 1 != sj {
                assert(back.order[tq - 1] == links.order[crate::links::unskip(tq - 1, sj)]);
            }
        }
    }
}

/// Taking an active position out of a well-formed block leaves a well-formed
/// block, into which the position can be put back.
pub proof fn lemma_delete_wf(m: BlockModel, i: int)
    requires
        m.wf(),
        m.links.is_active(i),
    ensures
        m.delete(i).wf(),
        m.delete(i).links == m.links.unlink(i),
        m.delete(i).links.restorable(i),
        !m.delete(i).links.is_active(i),
        m.links.stacked() ==> m.delete(i).links.stacked(),
{
    m.links.lemma_slot_of_active(i);
    m.links.lemma_unlink_wf(i);
    m.settle().lemma_delete_cursor(i);
}

/// Putting a removed position back between two neighbours of the list leaves a
/// well-formed block. The cursor stays on its position; in an empty block it goes
/// to the position that was put back.
pub proof fn lemma_undelete_wf(m: BlockModel, i: int)
    requires
        m.wf(),
        m.links.restorable(i),
        !m.links.is_active(i),
    ensures
        m.undelete(i).wf(),
        m.undelete(i).links == m.links.relink(i),
        m.undelete(i).links.is_active(i),
        m.undelete(i).len() == m.len() + 1,
        m.len() == 0 ==> m.undelete(i).cursor == i,
        m.len() > 0 ==> m.undelete(i).cursor == m.settle().cursor && m.undelete(i).rank
            < m.undelete(i).len(),
{
    m.links.lemma_relink_wf(i);
    let s: BlockModel = m.settle();
    let idx: int = s.links.slot(s.links.next[i]);
    let back: Links = m.links.relink(i);
    if m.len() > 0 {
        if idx <= s.rank {
            assert(back.order[s.rank + 1] == m.links.order[crate::links::unskip(
                s.rank + 1,
                idx,
            )]);
        } else {
            assert(back.order[s.rank] == m.links.order[crate::links::unskip(s.rank, idx)]);
        }
    }
}

/// What the links of a full block are once the positions from `j` on are taken
/// out, the last position first.
pub proof fn lemma_unlink_down(links: Links, j: int)
    requires
        links.wf(),
        links.removed.len() == 0,
        0 <= j <= links.tail(),
    ensures
        links.unlink_down(j).wf(),
        links.unlink_down(j).stacked(),
        links.unlink_down(j).alpha == links.alpha,
        links.unlink_down(j).removed == Seq::new(
            (links.tail() - j) as nat,
            |t: int| links.tail() - 1 - t,
        ),
        j < links.tail() ==> links.unlink_down(j).relink(j) == links.unlink_down(j + 1),
    decreases links.tail() - j,
{
    let k: int = links.tail();
    if j < k {
        lemma_unlink_down(links, j + 1);
        let above: Links = links.unlink_down(j + 1);
        if above.removed.contains(j) {
            let t: int = above.removed.index_of(j);
            assert(0 <= t < above.removed.len() && above.removed[t] == j);
        }
        assert(above.order.contains(j));
        above.lemma_unlink_wf(j);
        above.lemma_unlink_relink(j);
        assert(above.unlink(j).removed =~= Seq::new((k - j) as nat, |t: int| k - 1 - t));
    } else {
        assert(links.removed =~= Seq::new(0nat, |t: int| k - 1 - t));
    }
}

/// The block while the positions of an unwound block are put back from the first on.
proof fn lemma_undelete_up(m: BlockModel, j: int)
    requires
        m.wf(),
        m.links.removed.len() == 0,
        0 <= j <= m.capacity(),
    ensures
        undelete_up(m.unwind(), j).wf(),
        undelete_up(m.unwind(), j).links == m.links.unlink_down(j),
        j > 0 ==> undelete_up(m.unwind(), j).cursor == 0,
    decreases j,
{
    lemma_unlink_down(m.links, 0);
    lemma_unlink_down(m.links, j);
    if j > 0 {
        lemma_undelete_up(m, j - 1);
        lemma_unlink_down(m.links, j - 1);
        let before: BlockModel = undelete_up(m.unwind(), j - 1);
        assert(before.links.removed.last() == j - 1);
        before.links.lemma_stacked_top();
        lemma_undelete_wf(before, j - 1);
        if j > 1 {
            // the cursor stands on position 0, which is on the list
            assert(before.len() > 0) by {
                if before.len() == 0 {
                    assert(before.cursor == before.links.tail());
                }
            }
            assert(before.rank < before.len()) by {
                if before.rank == before.len() {
                    assert(before.cursor == before.links.tail());
                }
            }
        } else {
            assert(before.len() == 0);
        }
    }
}

/// Round trip: unwinding a full block and putting the positions back from the
/// first on restores the links and the list. The cursor then stands on position
/// 0; taken back to its rank, the block is what it was.
pub proof fn law_unwind_round_trip(m: BlockModel)
    requires
        m.wf(),
        m.links.removed.len() == 0,
    ensures
        undelete_up(m.unwind(), m.capacity()).wf(),
        undelete_up(m.unwind(), m.capacity()).links == m.links,
        undelete_up(m.unwind(), m.capacity()).cursor == 0,
        undelete_up(m.unwind(), m.capacity()).seek(m.rank) == m,
{
    lemma_undelete_up(m, m.capacity());
}


/// What a full block is once the positions of `s` are taken out.
pub proof fn lemma_delete_all(m: BlockModel, s: Seq<int>)
    requires
        m.wf(),
        m.links.removed.len() == 0,
        is_distinct(s, m.capacity()),
    ensures
        delete_all(m, s).wf(),
        delete_all(m, s).links.stacked(),
        delete_all(m, s).links.removed == s,
        delete_all(m, s).len() == m.len() - s.len(),
        s.len() > 0 ==> {
            &&& delete_all(m, s.drop_last()).links.is_active(s.last())
            &&& delete_all(m, s).links == delete_all(m, s.drop_last()).links.unlink(s.last())
        },
    decreases s.len(),
{
    if s.len() > 0 {
        let head: Seq<int> = s.drop_last();
        let i: int = s.last();
        assert(is_distinct(head, m.capacity())) by {
            assert forall|a: int| 0 <= a < head.len() implies 0 <= #[trigger] head[a]
                < m.capacity() by {
                assert(head[a] == s[a]);
            }
            assert forall|a: int, b: int| 0 <= a < b < head.len() implies #[trigger] head[a]
                != #[trigger] head[b] by {
                assert(head[a] == s[a] && head[b] == s[b]);
            }
        }
        lemma_delete_all(m, head);
        let before: BlockModel = delete_all(m, head);
        assert(0 <= s[s.len() - 1] < m.capacity());
        lemma_alpha_kept(m, head);
        if before.links.removed.contains(i) {
            let t: int = before.links.removed.index_of(i);
            assert(0 <= t < head.len() && head[t] == i);
            assert(s[t] == i);
            assert(false);
        }
        assert(before.links.order.contains(i));
        lemma_delete_wf(before, i);
        assert(head.push(i) =~= s);
        before.links.lemma_slot_of_active(i);
        before.links.lemma_remove_shape(before.links.slot(i));
    } else {
        assert(m.links.removed =~= s);
    }
}

/// Taking positions out of a block changes none of its values.
proof fn lemma_alpha_kept(m: BlockModel, s: Seq<int>)
    ensures
        delete_all(m, s).links.alpha == m.links.alpha,
    decreases s.len(),
{
    if s.len() > 0 {
        lemma_alpha_kept(m, s.drop_last());
    }
}

/// Putting the positions of `s` back, the last first, into a block with the links
/// that taking them out of `m` left, gives the links of `m`.
proof fn lemma_undelete_all(m: BlockModel, s: Seq<int>, x: BlockModel)
    requires
        m.wf(),
        m.links.removed.len() == 0,
        is_distinct(s, m.capacity()),
        x.wf(),
        x.links == delete_all(m, s).links,
    ensures
        undelete_all(x, s).wf(),
        undelete_all(x, s).links == m.links,
        x.len() > 0 && x.rank < x.len() ==> undelete_all(x, s).cursor == x.cursor,
        x.len() == 0 && s.len() > 0 ==> undelete_all(x, s).cursor == s.last(),
    decreases s.len(),
{
    lemma_delete_all(m, s);
    if s.len() > 0 {
        let head: Seq<int> = s.drop_last();
        let i: int = s.last();
        assert(is_distinct(head, m.capacity())) by {
            assert forall|a: int| 0 <= a < head.len() implies 0 <= #[trigger] head[a]
                < m.capacity() by {
                assert(head[a] == s[a]);
            }
            assert forall|a: int, b: int| 0 <= a < b < head.len() implies #[trigger] head[a]
                != #[trigger] head[b] by {
                assert(head[a] == s[a] && head[b] == s[b]);
            }
        }
        lemma_delete_all(m, head);
        let before: Links = delete_all(m, head).links;
        before.lemma_unlink_relink(i);
        assert(x.links.removed.last() == i);
        x.links.lemma_stacked_top();
        lemma_undelete_wf(x, i);
        let y: BlockModel = x.undelete(i);
        assert(y.links == before);
        lemma_undelete_all(m, head, y);
        if x.len() > 0 && x.rank < x.len() {
            assert(x.settle() == x);
        }
    }
}

/// Round trip: taking all positions of a full block out in any order and putting
/// them back in the reverse order restores the links and the list. The cursor
/// then stands on the position that went out last and came back first; taken back
/// to its rank, the block is what it was.
pub proof fn law_delete_round_trip(m: BlockModel, s: Seq<int>)
    requires
        m.wf(),
        m.links.removed.len() == 0,
        is_permutation(s, m.capacity()),
    ensures
        undelete_all(delete_all(m, s), s).wf(),
        undelete_all(delete_all(m, s), s).links == m.links,
        undelete_all(delete_all(m, s), s).cursor == s.last(),
        undelete_all(delete_all(m, s), s).seek(m.rank) == m,
{
    lemma_delete_all(m, s);
    lemma_undelete_all(m, s, delete_all(m, s));
}


/// Along the cycle `prev` undoes `next` and `next` undoes `prev`, at every active
/// position and at the sentinel.
pub proof fn law_inverse_links(links: Links, p: int)
    requires
        links.wf(),
        p == links.tail() || links.is_active(p),
    ensures
        links.prev[links.next[p]] == p,
        links.next[links.prev[p]] == p,
{
    let n: int = links.order.len() as int;
    if p == links.tail() {
        links.lemma_step(-1);
        links.lemma_step(0);
        links.lemma_step(n);
        links.lemma_step(n - 1);
    } else {
        links.lemma_slot_of_active(p);
        let a: int = links.slot(p);
        links.lemma_step(a);
        links.lemma_step(a + 1);
        links.lemma_step(a - 1);
    }
}

/// Every active position is met on the way from the sentinel along `next`, after
/// as many steps as its rank and one.
pub proof fn law_walk_meets(links: Links, p: int)
    requires
        links.wf(),
        links.is_active(p),
    ensures
        0 <= links.slot(p) < links.order.len(),
        walk(links.next, links.tail(), (links.slot(p) + 1) as nat) == p,
{
    links.lemma_slot_of_active(p);
    lemma_walk(links, links.slot(p) + 1);
}

/// The values on the list of a block while the positions of an unwound block go
/// back in are the first values of the block.
proof fn lemma_values_up(links: Links, j: int)
    requires
        links.wf(),
        links.removed.len() == 0,
        0 <= j <= links.tail(),
    ensures
        same_counts(links.unlink_down(j).values(), links.alpha.subrange(0, j)),
    decreases j,
{
    lemma_unlink_down(links, j);
    if j > 0 {
        lemma_values_up(links, j - 1);
        lemma_unlink_down(links, j - 1);
        let below: Links = links.unlink_down(j - 1);
        below.lemma_stacked_top();
        lemma_enter(below, j - 1, links.alpha, 0, j - 1);
    } else {
        assert(links.unlink_down(0).values().len() == 0);
    }
}

/// With no position removed, the values along the list are the values of the
/// block in ascending order.
pub proof fn law_full_values(links: Links)
    requires
        links.wf(),
        links.removed.len() == 0,
    ensures
        links.values() == sorted(links.alpha),
{
    lemma_values_up(links, links.tail());
    assert(links.alpha.subrange(0, links.tail()) =~= links.alpha);
    links.lemma_values_ascending();
    lemma_ascending_is_sorted(links.values(), links.alpha);
}

} // verus!
