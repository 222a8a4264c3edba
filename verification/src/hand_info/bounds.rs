use vstd::prelude::*;
use crate::hand_info::decomposition::{
    is_normal_shanten, lemma_none, lemma_normal_shanten_unique, normal_shanten, Decomposition,
};
use crate::counts::{lemma_sum_le, sum_to, total};
use crate::tile::has_neighbor;

verus! {

/// For each kind, the number of tiles that the choice `d` takes of it.
pub open spec fn used(d: Decomposition) -> Seq<nat> {
    Seq::new(34, |k: int| d.uses(k))
}

/// The tiles taken of the first `n` kinds, told apart by the shape and the
/// place of the block that takes them.
proof fn lemma_used_to(d: Decomposition, n: int)
    requires
        d.wf(),
        0 <= n <= 34,
    ensures
        sum_to(used(d), n) == 3 * sum_to(d.triplets, n) + 2 * sum_to(d.pairs, n) + sum_to(d.runs, n) + sum_to(
            d.runs,
            n - 1,
        ) + sum_to(d.runs, n - 2) + sum_to(d.adjacents, n) + sum_to(d.adjacents, n - 1) + sum_to(d.gaps, n)
            + sum_to(d.gaps, n - 2),
    decreases n,
{
    if n > 0 {
        lemma_used_to(d, n - 1);
        let k = n - 1;
        assert(used(d)[k] == d.uses(k));
        if k >= 1 {
            assert(d.runs[k - 1] == 0 || has_neighbor(k, -1));
            assert(d.adjacents[k - 1] == 0 || has_neighbor(k, -1));
        }
        if k >= 2 {
            assert(d.runs[k - 2] == 0 || has_neighbor(k, -2));
            assert(d.gaps[k - 2] == 0 || has_neighbor(k, -2));
        }
    }
}

/// A choice of blocks takes three tiles for each block of three and two for
/// each block of two, and a table that it fits holds at least as many.
pub proof fn lemma_tiles_taken(d: Decomposition, c: Seq<nat>)
    requires
        d.fits(c),
    ensures
        total(used(d)) == 3 * d.blocks3() + 2 * d.blocks2(),
        3 * d.blocks3() + 2 * d.blocks2() <= total(c),
        d.worth() <= total(c),
{
    lemma_used_to(d, 34);
    assert(d.runs[33] == 0 && d.runs[32] == 0);
    assert(d.adjacents[33] == 0);
    assert(d.gaps[33] == 0 && d.gaps[32] == 0);
    assert(sum_to(d.runs, 34) == sum_to(d.runs, 33) + d.runs[33]);
    assert(sum_to(d.runs, 33) == sum_to(d.runs, 32) + d.runs[32]);
    assert(sum_to(d.adjacents, 34) == sum_to(d.adjacents, 33) + d.adjacents[33]);
    assert(sum_to(d.gaps, 34) == sum_to(d.gaps, 33) + d.gaps[33]);
    assert(sum_to(d.gaps, 33) == sum_to(d.gaps, 32) + d.gaps[32]);
    assert forall|k: int| 0 <= k < 34 implies used(d)[k] <= c[k] by {
        assert(d.uses(k) <= c[k]);
    }
    lemma_sum_le(used(d), c, 34);
}

/// Among the choices that fit the table, one worth at least as much as `d`
/// is worth the most.
proof fn lemma_best_above(c: Seq<nat>, d: Decomposition)
    requires
        d.fits(c),
    ensures
        exists|v: int| is_normal_shanten(c, v),
    decreases total(c) - d.worth(),
{
    lemma_tiles_taken(d, c);
    if exists|e: Decomposition| #[trigger] e.fits(c) && e.worth() > d.worth() {
        let e = choose|e: Decomposition| #[trigger] e.fits(c) && e.worth() > d.worth();
        lemma_tiles_taken(e, c);
        lemma_best_above(c, e);
    } else {
        assert forall|e: Decomposition| #[trigger] e.fits(c) implies d.shanten() <= e.shanten() by {
            assert(!(e.fits(c) && e.worth() > d.worth()));
        }
        assert(is_normal_shanten(c, d.shanten()));
    }
}

/// Every table of 34 counts has a shanten number towards the normal shape:
/// some choice of blocks attains it and none goes below it.
pub proof fn lemma_normal_shanten_exists(c: Seq<nat>)
    requires
        c.len() == 34,
    ensures
        is_normal_shanten(c, normal_shanten(c)),
        8 - total(c) <= normal_shanten(c) <= 8,
{
    lemma_none();
    let none = Decomposition::none();
    assert(none.fits(c));
    lemma_best_above(c, none);
    let v = choose|v: int| is_normal_shanten(c, v);
    lemma_normal_shanten_unique(c, v);
    let d = choose|d: Decomposition| #[trigger] d.fits(c) && d.shanten() == v;
    lemma_tiles_taken(d, c);
    assert(v <= none.shanten());
}

/// A complete hand of the normal shape has shanten number -1: where the 14
/// tiles of the table hold four blocks of three and a pair, no choice of
/// blocks does better, and that one attains -1.
pub proof fn lemma_complete_hand(c: Seq<nat>, d: Decomposition)
    requires
        c.len() == 34,
        total(c) == 14,
        d.fits(c),
        d.blocks3() == 4,
        total(d.pairs) == 1,
        d.blocks2() == 1,
    ensures
        normal_shanten(c) == -1,
{
    assert(d.fits(c) && d.shanten() == -1);
    assert forall|e: Decomposition| #[trigger] e.fits(c) implies -1 <= e.shanten() by {
        lemma_tiles_taken(e, c);
    }
    lemma_normal_shanten_unique(c, -1);
}

/// With 14 tiles, the shanten number towards the normal shape is -1 exactly
/// when the tiles hold four blocks of three and one block of two.
pub proof fn lemma_complete_exactly(c: Seq<nat>)
    requires
        c.len() == 34,
        total(c) == 14,
    ensures
        normal_shanten(c) == -1 <==> exists|d: Decomposition|
            #[trigger] d.fits(c) && d.blocks3() == 4 && d.blocks2() == 1,
{
    lemma_normal_shanten_exists(c);
    if normal_shanten(c) == -1 {
        let d = choose|d: Decomposition| #[trigger] d.fits(c) && d.shanten() == -1;
        lemma_tiles_taken(d, c);
        assert(d.fits(c) && d.blocks3() == 4 && d.blocks2() == 1);
    }
    if exists|d: Decomposition| #[trigger] d.fits(c) && d.blocks3() == 4 && d.blocks2() == 1 {
        let d = choose|d: Decomposition| #[trigger] d.fits(c) && d.blocks3() == 4 && d.blocks2() == 1;
        assert(d.fits(c) && d.shanten() == -1);
        assert forall|e: Decomposition| #[trigger] e.fits(c) implies -1 <= e.shanten() by {
            lemma_tiles_taken(e, c);
        }
        lemma_normal_shanten_unique(c, -1);
    }
}

} // verus!
