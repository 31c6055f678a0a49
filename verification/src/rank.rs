//! Order statistics of a sequence of values, stated by counting.

use vstd::prelude::*;
use vstd::relations::{sorted_by, total_ordering};
use vstd::seq_lib::{to_multiset_build, to_multiset_contains, to_multiset_len, to_multiset_remove};

verus! {

/// The number of entries of `s` that are smaller than `v`.
pub open spec fn count_lt(s: Seq<i64>, v: i64) -> nat
    decreases s.len(),
{
    if s.len() == 0 {
        0
    } else {
        count_lt(s.drop_last(), v) + if s.last() < v {
            1nat
        } else {
            0nat
        }
    }
}

/// The number of entries of `s` that are not greater than `v`.
pub open spec fn count_le(s: Seq<i64>, v: i64) -> nat
    decreases s.len(),
{
    if s.len() == 0 {
        0
    } else {
        count_le(s.drop_last(), v) + if s.last() <= v {
            1nat
        } else {
            0nat
        }
    }
}

/// `v` is the value at rank `r` of `s` in ascending order: at most `r` entries are
/// smaller than `v`, and more than `r` entries are not greater.
pub open spec fn is_order_statistic(s: Seq<i64>, r: int, v: i64) -> bool {
    count_lt(s, v) <= r < count_le(s, v)
}

/// `a` and `b` hold the same values the same number of times, as far as counting
/// below a bound can tell.
pub open spec fn same_counts(a: Seq<i64>, b: Seq<i64>) -> bool {
    forall|v: i64|
        #![trigger count_lt(a, v)]
        #![trigger count_le(a, v)]
        #![trigger count_lt(b, v)]
        #![trigger count_le(b, v)]
        count_lt(a, v) == count_lt(b, v) && count_le(a, v) == count_le(b, v)
}

/// The entries of `s` ascend.
pub open spec fn ascending(s: Seq<i64>) -> bool {
    forall|a: int, b: int| 0 <= a <= b < s.len() ==> s[a] <= s[b]
}

/// Counting is monotone in the bound and bounded by the length.
pub proof fn lemma_count_bounds(s: Seq<i64>, v: i64)
    ensures
        count_lt(s, v) <= count_le(s, v) <= s.len(),
    decreases s.len(),
{
    if s.len() > 0 {
        lemma_count_bounds(s.drop_last(), v);
    }
}

/// A larger bound counts no fewer entries, and a strictly larger bound counts as
/// smaller what the smaller bound counted as not greater.
pub proof fn lemma_count_monotone(s: Seq<i64>, v: i64, w: i64)
    requires
        v < w,
    ensures
        count_le(s, v) <= count_lt(s, w),
    decreases s.len(),
{
    if s.len() > 0 {
        lemma_count_monotone(s.drop_last(), v, w);
    }
}

/// Counting over a concatenation adds up.
pub proof fn lemma_count_concat(a: Seq<i64>, b: Seq<i64>, v: i64)
    ensures
        count_lt(a + b, v) == count_lt(a, v) + count_lt(b, v),
        count_le(a + b, v) == count_le(a, v) + count_le(b, v),
    decreases b.len(),
{
    if b.len() == 0 {
        assert(a + b =~= a);
    } else {
        assert((a + b).drop_last() =~= a + b.drop_last());
        lemma_count_concat(a, b.drop_last(), v);
    }
}

/// Counting over a sequence with one more entry.
pub proof fn lemma_count_push(s: Seq<i64>, x: i64, v: i64)
    ensures
        count_lt(s.push(x), v) == count_lt(s, v) + if x < v {
            1nat
        } else {
            0nat
        },
        count_le(s.push(x), v) == count_le(s, v) + if x <= v {
            1nat
        } else {
            0nat
        },
{
    assert(s.push(x).drop_last() =~= s);
}

/// Counting over a sequence into which `x` was inserted.
pub proof fn lemma_count_insert(s: Seq<i64>, idx: int, x: i64, v: i64)
    requires
        0 <= idx <= s.len(),
    ensures
        count_lt(s.insert(idx, x), v) == count_lt(s, v) + if x < v {
            1nat
        } else {
            0nat
        },
        count_le(s.insert(idx, x), v) == count_le(s, v) + if x <= v {
            1nat
        } else {
            0nat
        },
{
    let head: Seq<i64> = s.subrange(0, idx);
    let rest: Seq<i64> = s.subrange(idx, s.len() as int);
    assert(s =~= head + rest);
    lemma_count_concat(head, rest, v);
    lemma_count_push(head, x, v);
    lemma_count_concat(head.push(x), rest, v);
}

/// Counting over a sequence from which the entry at `idx` was removed.
pub proof fn lemma_count_remove(s: Seq<i64>, idx: int, v: i64)
    requires
        0 <= idx < s.len(),
    ensures
        count_lt(s, v) == count_lt(s.remove(idx), v) + if s[idx] < v {
            1nat
        } else {
            0nat
        },
        count_le(s, v) == count_le(s.remove(idx), v) + if s[idx] <= v {
            1nat
        } else {
            0nat
        },
{
    let head: Seq<i64> = s.subrange(0, idx);
    let rest: Seq<i64> = s.subrange(idx + 1, s.len() as int);
    assert(s =~= head.push(s[idx]) + rest);
    lemma_count_concat(head, rest, v);
    lemma_count_push(head, s[idx], v);
    lemma_count_concat(head.push(s[idx]), rest, v);
}

/// If no entry from index `a` on is smaller than `v`, at most `a` entries are.
pub proof fn lemma_count_lt_upper(s: Seq<i64>, v: i64, a: int)
    requires
        0 <= a <= s.len(),
        forall|j: int| a <= j < s.len() ==> s[j] >= v,
    ensures
        count_lt(s, v) <= a,
    decreases s.len(),
{
    if s.len() > 0 {
        if a == s.len() {
            lemma_count_bounds(s, v);
        } else {
            lemma_count_lt_upper(s.drop_last(), v, a);
        }
    }
}

/// If no entry before index `a` is greater than `v`, at least `a` entries are not.
pub proof fn lemma_count_le_lower(s: Seq<i64>, v: i64, a: int)
    requires
        0 <= a <= s.len(),
        forall|j: int| 0 <= j < a ==> s[j] <= v,
    ensures
        count_le(s, v) >= a,
    decreases s.len(),
{
    if s.len() > 0 {
        if a == s.len() {
            lemma_count_le_lower(s.drop_last(), v, a - 1);
        } else {
            lemma_count_le_lower(s.drop_last(), v, a);
        }
    }
}

/// In an ascending sequence the entry at index `r` is the order statistic of rank `r`.
pub proof fn lemma_ascending_rank(s: Seq<i64>, r: int)
    requires
        ascending(s),
        0 <= r < s.len(),
    ensures
        is_order_statistic(s, r, s[r]),
{
    lemma_count_lt_upper(s, s[r], r);
    lemma_count_le_lower(s, s[r], r + 1);
}

/// A sequence has one order statistic of each rank at most.
pub proof fn lemma_order_statistic_unique(s: Seq<i64>, r: int, v: i64, w: i64)
    requires
        is_order_statistic(s, r, v),
        is_order_statistic(s, r, w),
    ensures
        v == w,
{
    if v < w {
        lemma_count_monotone(s, v, w);
    }
    if w < v {
        lemma_count_monotone(s, w, v);
    }
}

/// The order statistics of a sequence are those of any rearrangement of it.
pub proof fn lemma_order_statistic_same_counts(a: Seq<i64>, b: Seq<i64>, r: int, v: i64)
    requires
        same_counts(a, b),
        is_order_statistic(a, r, v),
    ensures
        is_order_statistic(b, r, v),
{
}


/// The entries of `s` rearranged into ascending order.
pub open spec fn sorted(s: Seq<i64>) -> Seq<i64> {
    s.sort_by(|a: i64, b: i64| a <= b)
}

/// Two sequences that hold the same values the same number of times count alike.
pub proof fn lemma_rearranged_counts(a: Seq<i64>, b: Seq<i64>)
    requires
        a.to_multiset() == b.to_multiset(),
    ensures
        same_counts(a, b),
    decreases a.len(),
{
    to_multiset_len(a);
    to_multiset_len(b);
    if a.len() > 0 {
        let x: i64 = a.last();
        let head: Seq<i64> = a.drop_last();
        assert(head.push(x) =~= a);
        to_multiset_build(head, x);
        to_multiset_contains(a, x);
        to_multiset_contains(b, x);
        assert(a.contains(x)) by {
            assert(a[a.len() - 1] == x);
        }
        let i: int = b.index_of(x);
        assert(0 <= i < b.len() && b[i] == x);
        let rest: Seq<i64> = b.remove(i);
        to_multiset_remove(b, i);
        assert(rest.to_multiset() =~= head.to_multiset());
        lemma_rearranged_counts(head, rest);
        assert forall|v: i64|
            #![trigger count_lt(a, v)]
            #![trigger count_le(a, v)]
            #![trigger count_lt(b, v)]
            #![trigger count_le(b, v)]
            count_lt(a, v) == count_lt(b, v) && count_le(a, v) == count_le(b, v) by {
            lemma_count_remove(b, i, v);
            assert(count_lt(head, v) == count_lt(rest, v));
            assert(count_le(head, v) == count_le(rest, v));
        }
    } else {
        assert(b.len() == 0);
    }
}

/// The order statistic of rank `r` is the entry at index `r` of the sequence in
/// ascending order, and nothing else.
pub proof fn law_order_statistic_sorted(s: Seq<i64>, r: int, v: i64)
    requires
        0 <= r < s.len(),
    ensures
        sorted(s).len() == s.len(),
        is_order_statistic(s, r, v) <==> v == sorted(s)[r],
{
    let leq = |a: i64, b: i64| a <= b;
    assert(total_ordering(leq));
    s.lemma_sort_by_ensures(leq);
    let t: Seq<i64> = s.sort_by(leq);
    to_multiset_len(s);
    to_multiset_len(t);
    assert(ascending(t)) by {
        assert(sorted_by(t, leq));
        assert forall|a: int, b: int| 0 <= a <= b < t.len() implies t[a] <= t[b] by {
            if a < b {
                assert(leq(t[a], t[b]));
            }
        }
    }
    lemma_ascending_rank(t, r);
    lemma_rearranged_counts(t, s);
    lemma_order_statistic_same_counts(t, s, r, t[r]);
    if is_order_statistic(s, r, v) {
        lemma_order_statistic_unique(s, r, v, t[r]);
    }
}


/// An ascending sequence is the ascending order of any rearrangement of it.
pub proof fn lemma_ascending_is_sorted(v: Seq<i64>, s: Seq<i64>)
    requires
        ascending(v),
        same_counts(v, s),
    ensures
        v == sorted(s),
{
    lemma_count_le_lower(v, i64::MAX, v.len() as int);
    lemma_count_le_lower(s, i64::MAX, s.len() as int);
    lemma_count_bounds(v, i64::MAX);
    lemma_count_bounds(s, i64::MAX);
    assert(count_le(v, i64::MAX) == count_le(s, i64::MAX));
    assert(v.len() == s.len());
    if s.len() > 0 {
        law_order_statistic_sorted(s, 0, s[0]);
    } else {
        assert(sorted(s).len() == 0) by {
            let leq = |a: i64, b: i64| a <= b;
            assert(total_ordering(leq));
            s.lemma_sort_by_ensures(leq);
            to_multiset_len(s);
            to_multiset_len(s.sort_by(leq));
        }
    }
    assert forall|r: int| 0 <= r < v.len() implies v[r] == sorted(s)[r] by {
        lemma_ascending_rank(v, r);
        lemma_order_statistic_same_counts(v, s, r, v[r]);
        law_order_statistic_sorted(s, r, v[r]);
    }
    assert(v =~= sorted(s));
}

} // verus!
