use vstd::prelude::*;
use crate::tile::{has_neighbor, TileType};

verus! {

/// The table of tile counts as a table of natural numbers.
pub open spec fn counts_of(t: Seq<TileType>) -> Seq<nat> {
    Seq::new(t.len(), |k: int| t[k] as nat)
}

/// Entry of `s` for the kind `off` ranks away from `k`, and 0 where there is no
/// such kind.
pub open spec fn beside(s: Seq<nat>, k: int, off: int) -> nat {
    if has_neighbor(k, off) {
        s[k + off]
    } else {
        0
    }
}

/// Whether no tile is held of the kinds one or two ranks away from `k`.
pub open spec fn isolated(c: Seq<nat>, k: int) -> bool {
    &&& beside(c, k, -2) == 0
    &&& beside(c, k, -1) == 0
    &&& beside(c, k, 1) == 0
    &&& beside(c, k, 2) == 0
}

/// Sum of the first `n` entries of `s`.
pub open spec fn sum_to(s: Seq<nat>, n: int) -> nat
    decreases n,
{
    if n <= 0 {
        0
    } else {
        sum_to(s, n - 1) + s[n - 1]
    }
}

/// Sum of all entries of `s`.
pub open spec fn total(s: Seq<nat>) -> nat {
    sum_to(s, s.len() as int)
}

/// Changing one entry changes a prefix sum by the difference, if the prefix
/// reaches the entry.
pub proof fn lemma_sum_update(s: Seq<nat>, i: int, v: nat, n: int)
    requires
        0 <= i < s.len(),
        0 <= n <= s.len(),
    ensures
        sum_to(s.update(i, v), n) == if i < n {
            sum_to(s, n) - s[i] + v
        } else {
            sum_to(s, n) as int
        },
    decreases n,
{
    if n > 0 {
        lemma_sum_update(s, i, v, n - 1);
    }
}

/// Changing one entry changes the total by the difference.
pub proof fn lemma_total_update(s: Seq<nat>, i: int, v: nat)
    requires
        0 <= i < s.len(),
    ensures
        total(s.update(i, v)) == total(s) - s[i] + v,
{
    lemma_sum_update(s, i, v, s.len() as int);
}

/// Prefix sums respect the pointwise order.
pub proof fn lemma_sum_le(a: Seq<nat>, b: Seq<nat>, n: int)
    requires
        0 <= n <= a.len(),
        n <= b.len(),
        forall|k: int| 0 <= k < n ==> a[k] <= b[k],
    ensures
        sum_to(a, n) <= sum_to(b, n),
    decreases n,
{
    if n > 0 {
        lemma_sum_le(a, b, n - 1);
    }
}

/// A table of zeros sums to zero.
pub proof fn lemma_sum_zero(s: Seq<nat>, n: int)
    requires
        0 <= n <= s.len(),
        forall|k: int| 0 <= k < n ==> s[k] == 0,
    ensures
        sum_to(s, n) == 0,
    decreases n,
{
    if n > 0 {
        lemma_sum_zero(s, n - 1);
    }
}

/// No entry is more than the sum.
pub proof fn lemma_sum_bounds_entry(s: Seq<nat>, n: int, i: int)
    requires
        0 <= i < n <= s.len(),
    ensures
        sum_to(s, n) >= s[i],
    decreases n,
{
    if i < n - 1 {
        lemma_sum_bounds_entry(s, n - 1, i);
    }
}

/// A longer prefix sums to no less.
pub proof fn lemma_sum_monotone(s: Seq<nat>, m: int, n: int)
    requires
        m <= n,
    ensures
        sum_to(s, m) <= sum_to(s, n),
    decreases n - m,
{
    if m < n {
        lemma_sum_monotone(s, m, n - 1);
    }
}

} // verus!
