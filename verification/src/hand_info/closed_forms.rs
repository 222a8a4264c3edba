use vstd::prelude::*;
use crate::tile::{is_number, rank};

verus! {

/// Number of kinds below `n` of which the table holds at least `least` tiles.
pub open spec fn kinds_with(c: Seq<nat>, least: nat, n: int) -> nat
    decreases n,
{
    if n <= 0 {
        0
    } else {
        kinds_with(c, least, n - 1) + if c[n - 1] >= least { 1nat } else { 0 }
    }
}

/// Shanten number of the table `c` towards seven pairs: a pair is missing
/// for each kind short of seven held twice, and a kind for each kind short of
/// seven held at all. A kind held three or four times is one pair.
pub open spec fn seven_pairs_shanten(c: Seq<nat>) -> int {
    let pair = kinds_with(c, 2, 34);
    let kind = kinds_with(c, 1, 34);
    7 - pair + (if kind < 7 { 7 - kind } else { 0 }) - 1
}

/// Whether `k` is a terminal or an honor: rank 1 or 9 of a number suit, or
/// one of the seven honors.
pub open spec fn is_orphan(k: int) -> bool {
    0 <= k < 34 && (!is_number(k) || rank(k) == 1 || rank(k) == 9)
}

/// Number of terminal and honor kinds below `n` of which the table holds at
/// least `least` tiles.
pub open spec fn orphans_with(c: Seq<nat>, least: nat, n: int) -> nat
    decreases n,
{
    if n <= 0 {
        0
    } else {
        orphans_with(c, least, n - 1) + if is_orphan(n - 1) && c[n - 1] >= least { 1nat } else { 0 }
    }
}

/// Shanten number of the table `c` towards thirteen orphans: one tile is
/// missing for each terminal or honor kind not held, and one more unless one
/// of them is held twice.
pub open spec fn thirteen_orphans_shanten(c: Seq<nat>) -> int {
    let kind = orphans_with(c, 1, 34);
    let pair = orphans_with(c, 2, 34);
    14 - kind - (if pair > 0 { 1int } else { 0 }) - 1
}

/// Fewer kinds are held twice than once, and fewer once than there are kinds.
pub proof fn lemma_kinds_with_bounds(c: Seq<nat>, n: int)
    requires
        0 <= n,
    ensures
        kinds_with(c, 2, n) <= kinds_with(c, 1, n) <= n,
    decreases n,
{
    if n > 0 {
        lemma_kinds_with_bounds(c, n - 1);
    }
}

/// Changing the count of one kind changes the number of kinds held at least
/// `least` times only by that kind.
pub proof fn lemma_kinds_with_update(c: Seq<nat>, k: int, v: nat, least: nat, n: int)
    requires
        0 <= k < c.len(),
        0 <= n <= c.len(),
    ensures
        kinds_with(c.update(k, v), least, n) + (if k < n && c[k] >= least { 1int } else { 0 }) == kinds_with(
            c,
            least,
            n,
        ) + (if k < n && v >= least { 1int } else { 0 }),
    decreases n,
{
    if n > 0 {
        lemma_kinds_with_update(c, k, v, least, n - 1);
    }
}

/// A hand is complete towards seven pairs exactly when seven kinds are held
/// at least twice.
pub proof fn lemma_seven_pairs_complete(c: Seq<nat>)
    requires
        c.len() == 34,
    ensures
        seven_pairs_shanten(c) == -1 <==> kinds_with(c, 2, 34) == 7,
{
    lemma_kinds_with_bounds(c, 34);
}

/// A kind held three or four times is one pair, never two: once a kind is
/// held twice, more tiles of it change neither the number of pairs nor the
/// shanten number towards seven pairs.
pub proof fn lemma_one_pair_per_kind(c: Seq<nat>, k: int, held: nat)
    requires
        c.len() == 34,
        0 <= k < 34,
        c[k] >= 2,
        held >= 2,
    ensures
        kinds_with(c.update(k, held), 2, 34) == kinds_with(c, 2, 34),
        seven_pairs_shanten(c.update(k, held)) == seven_pairs_shanten(c),
{
    lemma_kinds_with_update(c, k, held, 2, 34);
    lemma_kinds_with_update(c, k, held, 1, 34);
}

/// A first tile of a kind not held before never makes the shanten number
/// towards seven pairs worse.
pub proof fn lemma_seven_pairs_new_kind(c: Seq<nat>, k: int)
    requires
        c.len() == 34,
        0 <= k < 34,
        c[k] == 0,
    ensures
        seven_pairs_shanten(c.update(k, 1)) <= seven_pairs_shanten(c),
{
    lemma_kinds_with_update(c, k, 1, 2, 34);
    lemma_kinds_with_update(c, k, 1, 1, 34);
}

/// Giving up a single tile for a second tile of a kind held once never makes
/// the shanten number towards seven pairs worse.
pub proof fn lemma_seven_pairs_second_copy(c: Seq<nat>, single: int, k: int)
    requires
        c.len() == 34,
        0 <= single < 34,
        0 <= k < 34,
        single != k,
        c[single] == 1,
        c[k] == 1,
    ensures
        seven_pairs_shanten(c.update(single, 0).update(k, 2)) <= seven_pairs_shanten(c),
{
    let c1 = c.update(single, 0);
    lemma_kinds_with_update(c, single, 0, 2, 34);
    lemma_kinds_with_update(c, single, 0, 1, 34);
    lemma_kinds_with_update(c1, k, 2, 2, 34);
    lemma_kinds_with_update(c1, k, 2, 1, 34);
}

/// Of the terminal and honor kinds below `n`, those held at least `least`
/// times are all of them exactly when none is held less often, and there
/// is one of them exactly when one is held that often.
pub proof fn lemma_orphans_with(c: Seq<nat>, least: nat, n: int)
    requires
        0 <= n <= 34,
    ensures
        orphans_with(c, least, n) <= orphans_with(c, 0, n),
        orphans_with(c, least, n) == orphans_with(c, 0, n) <==> forall|k: int|
            0 <= k < n && is_orphan(k) ==> c[k] >= least,
        orphans_with(c, least, n) > 0 <==> exists|k: int| 0 <= k < n && is_orphan(k) && c[k] >= least,
    decreases n,
{
    if n > 0 {
        lemma_orphans_with(c, least, n - 1);
        if orphans_with(c, least, n) > 0 {
            if is_orphan(n - 1) && c[n - 1] >= least {
                assert(0 <= n - 1 < n && is_orphan(n - 1) && c[n - 1] >= least);
            } else {
                let k = choose|k: int| 0 <= k < n - 1 && is_orphan(k) && c[k] >= least;
                assert(0 <= k < n && is_orphan(k) && c[k] >= least);
            }
        }
    }
}

/// There are 13 terminal and honor kinds.
pub proof fn lemma_thirteen_kinds(c: Seq<nat>)
    ensures
        orphans_with(c, 0, 34) == 13,
{
    assert(orphans_with(c, 0, 0) == 0);
    assert(orphans_with(c, 0, 9) == 2) by {
        reveal_with_fuel(orphans_with, 10);
    }
    assert(orphans_with(c, 0, 18) == 4) by {
        reveal_with_fuel(orphans_with, 10);
    }
    assert(orphans_with(c, 0, 27) == 6) by {
        reveal_with_fuel(orphans_with, 10);
    }
    assert(orphans_with(c, 0, 34) == 13) by {
        reveal_with_fuel(orphans_with, 8);
    }
}

/// A hand is complete towards thirteen orphans exactly when it holds every
/// terminal and honor kind, and one of them twice.
pub proof fn lemma_thirteen_orphans_complete(c: Seq<nat>)
    requires
        c.len() == 34,
    ensures
        thirteen_orphans_shanten(c) == -1 <==> (forall|k: int| is_orphan(k) ==> c[k] >= 1) && (exists|k: int|
            is_orphan(k) && c[k] >= 2),
{
    lemma_orphans_with(c, 1, 34);
    lemma_orphans_with(c, 2, 34);
    lemma_thirteen_kinds(c);
    if exists|k: int| is_orphan(k) && c[k] >= 2 {
        let k = choose|k: int| is_orphan(k) && c[k] >= 2;
        assert(0 <= k < 34 && is_orphan(k) && c[k] >= 2);
    }
}

} // verus!
