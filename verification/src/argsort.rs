//! Index sorting, done by `polars_utils`.

use vstd::prelude::*;
use crate::links::key_lt;

verus! {

/// `pi` lists every index of `alpha` exactly once, in ascending order of value, and
/// indices of equal values in ascending order.
pub open spec fn is_stable_ascending(alpha: Seq<i64>, pi: Seq<u32>) -> bool {
    &&& pi.len() == alpha.len()
    &&& forall|a: int| 0 <= a < pi.len() ==> (#[trigger] pi[a]) < alpha.len()
    &&& forall|p: u32| p < alpha.len() ==> #[trigger] pi.contains(p)
    &&& forall|a: int, b: int|
        0 <= a < b < pi.len() ==> key_lt(alpha, #[trigger] pi[a] as int, #[trigger] pi[b] as int)
}

/// Whether `n` values can be sorted by index with working memory that already
/// holds `used` bytes: every index has to fit the index type, and the working
/// memory, 16 bytes for each value and 16 to align them, has to stay within what
/// can be allocated.
pub open spec fn sortable(n: nat, used: nat) -> bool {
    &&& n <= u32::MAX
    &&& used + 16 * n + 16 <= isize::MAX
    &&& used + 16 * n + 16 <= usize::MAX
}

/// Whether `n` values can be sorted by index with fresh working memory.
pub open spec fn sortable_len(n: nat) -> bool {
    sortable(n, 0)
}

/// Calls `polars_utils::sort::arg_sort_ascending`, which pairs each value with its
/// index in the spare capacity of `scratch`, sorts the pairs by value with the
/// stable sort of the standard library, and hands out the indices in the resulting
/// order. The contract states that outcome: the result is the stable ascending
/// index permutation of `alpha`, and the bytes that `scratch` held are untouched.
#[verifier::external_body]
pub(crate) fn arg_sort(alpha: &[i64], scratch: &mut Vec<u8>) -> (pi: Vec<u32>)
    requires
        sortable(alpha@.len(), old(scratch)@.len()),
    ensures
        is_stable_ascending(alpha@, pi@),
        final(scratch)@ == old(scratch)@,
{
    polars_utils::sort::arg_sort_ascending::<i64, u32, _>(
        alpha.iter().copied(),
        scratch,
        alpha.len(),
    ).to_vec()
}

} // verus!
