use vstd::prelude::*;
use crate::hand_info::decomposition::{lemma_minus, lemma_plus, Block, Decomposition};
use crate::counts::{beside, isolated, lemma_total_update, total};
use crate::tile::has_neighbor;

verus! {

/// Whether kind `k` holds a triplet that stands alone: at least three tiles,
/// and none of the kinds one or two ranks away.
pub open spec fn lone_triplet(c: Seq<nat>, k: int) -> bool {
    c[k] >= 3 && isolated(c, k)
}

/// Whether kind `k` holds a single tile that stands alone: exactly one tile,
/// and none of the kinds one or two ranks away.
pub open spec fn lone_single(c: Seq<nat>, k: int) -> bool {
    c[k] == 1 && isolated(c, k)
}

/// Whether `n` runs that start at kind `l` stand alone: each of the three
/// kinds holds exactly `n` tiles, and the two kinds below and the two kinds
/// above them in the suit hold none.
pub open spec fn lone_run(c: Seq<nat>, l: int, n: nat) -> bool {
    &&& has_neighbor(l, 2)
    &&& c[l] == n
    &&& c[l + 1] == n
    &&& c[l + 2] == n
    &&& beside(c, l, -2) == 0
    &&& beside(c, l, -1) == 0
    &&& beside(c, l, 3) == 0
    &&& beside(c, l, 4) == 0
}

/// Nothing is lost between the tables `c` and `c1` beyond `gain`: every
/// choice for `c` has one for `c1` that is worth at most `gain` less.
#[verifier::opaque]
pub open spec fn keeps_worth(c: Seq<nat>, c1: Seq<nat>, gain: int) -> bool {
    forall|d: Decomposition| #[trigger]
        d.fits(c) ==> exists|e: Decomposition| #[trigger] e.fits(c1) && e.worth() + gain >= d.worth()
}

/// The table `c` makes good what `c1` lacks: every choice for `c1` has one
/// for `c` that is worth `gain` more.
#[verifier::opaque]
pub open spec fn gives_worth(c: Seq<nat>, c1: Seq<nat>, gain: int) -> bool {
    forall|e: Decomposition| #[trigger]
        e.fits(c1) ==> exists|d: Decomposition| #[trigger] d.fits(c) && d.worth() == e.worth() + gain
}

/// The table `c1` can make blocks worth exactly `gain` less than the table
/// `c` can.
pub open spec fn reduced(c: Seq<nat>, c1: Seq<nat>, gain: int) -> bool {
    &&& c.len() == 34
    &&& c1.len() == 34
    &&& keeps_worth(c, c1, gain)
    &&& gives_worth(c, c1, gain)
}

/// A table is reduced to itself with nothing gained.
pub proof fn lemma_reduced_same(c: Seq<nat>)
    requires
        c.len() == 34,
    ensures
        reduced(c, c, 0),
{
    assert(keeps_worth(c, c, 0)) by {
        reveal(keeps_worth);
    }
    assert(gives_worth(c, c, 0)) by {
        reveal(gives_worth);
    }
}

/// Losses follow one another, and their bounds add up.
pub proof fn lemma_keeps_chain(c: Seq<nat>, c1: Seq<nat>, c2: Seq<nat>, g1: int, g2: int)
    requires
        keeps_worth(c, c1, g1),
        keeps_worth(c1, c2, g2),
    ensures
        keeps_worth(c, c2, g1 + g2),
{
    reveal(keeps_worth);
    assert forall|d: Decomposition| #[trigger] d.fits(c) implies exists|e: Decomposition| #[trigger]
        e.fits(c2) && e.worth() + (g1 + g2) >= d.worth() by {
        let e1 = choose|e: Decomposition| #[trigger] e.fits(c1) && e.worth() + g1 >= d.worth();
        let e2 = choose|e: Decomposition| #[trigger] e.fits(c2) && e.worth() + g2 >= e1.worth();
        assert(e2.fits(c2) && e2.worth() + (g1 + g2) >= d.worth());
    }
}

/// Gains follow one another and add up.
pub proof fn lemma_gives_chain(c: Seq<nat>, c1: Seq<nat>, c2: Seq<nat>, g1: int, g2: int)
    requires
        gives_worth(c, c1, g1),
        gives_worth(c1, c2, g2),
    ensures
        gives_worth(c, c2, g1 + g2),
{
    reveal(gives_worth);
    assert forall|e: Decomposition| #[trigger] e.fits(c2) implies exists|d: Decomposition| #[trigger]
        d.fits(c) && d.worth() == e.worth() + (g1 + g2) by {
        let d1 = choose|d: Decomposition| #[trigger] d.fits(c1) && d.worth() == e.worth() + g2;
        let d0 = choose|d: Decomposition| #[trigger] d.fits(c) && d.worth() == d1.worth() + g1;
        assert(d0.fits(c) && d0.worth() == e.worth() + (g1 + g2));
    }
}

/// Reductions follow one another, and their gains add up.
pub proof fn lemma_reduced_chain(c: Seq<nat>, c1: Seq<nat>, c2: Seq<nat>, g1: int, g2: int)
    requires
        reduced(c, c1, g1),
        reduced(c1, c2, g2),
    ensures
        reduced(c, c2, g1 + g2),
{
    lemma_keeps_chain(c, c1, c2, g1, g2);
    lemma_gives_chain(c, c1, c2, g1, g2);
}

/// Around a kind with no tiles one or two ranks away, a fitting choice takes
/// no sequence: the tiles of that kind go to its triplets and pairs alone.
pub proof fn lemma_isolated_blocks(d: Decomposition, c: Seq<nat>, k: int)
    requires
        d.fits(c),
        0 <= k < 34,
        isolated(c, k),
    ensures
        d.runs[k] == 0,
        beside(d.runs, k, -1) == 0,
        beside(d.runs, k, -2) == 0,
        d.adjacents[k] == 0,
        beside(d.adjacents, k, -1) == 0,
        d.gaps[k] == 0,
        beside(d.gaps, k, -2) == 0,
        d.uses(k) == 3 * d.triplets[k] + 2 * d.pairs[k],
{
    if has_neighbor(k, -2) {
        assert(d.uses(k - 2) <= c[k - 2]);
    }
    if has_neighbor(k, -1) {
        assert(d.uses(k - 1) <= c[k - 1]);
    }
    if has_neighbor(k, 1) {
        assert(d.uses(k + 1) <= c[k + 1]);
    }
    if has_neighbor(k, 2) {
        assert(d.uses(k + 2) <= c[k + 2]);
    }
}

/// Setting a triplet that stands alone aside costs nothing: what is left can
/// make blocks worth exactly 2 less.
pub proof fn lemma_lone_triplet(c: Seq<nat>, k: int)
    requires
        c.len() == 34,
        0 <= k < 34,
        lone_triplet(c, k),
    ensures
        reduced(c, c.update(k, (c[k] - 3) as nat), 2),
{
    let c1 = c.update(k, (c[k] - 3) as nat);
    let t = Block::Triplet(k);
    let p = Block::Pair(k);
    reveal(keeps_worth);
    reveal(gives_worth);
    assert forall|d: Decomposition| #[trigger] d.fits(c) implies exists|e: Decomposition| #[trigger]
        e.fits(c1) && e.worth() + 2 >= d.worth() by {
        lemma_isolated_blocks(d, c, k);
        assert(d.uses(k) <= c[k]);
        let e = if d.triplets[k] > 0 {
            d.minus(t)
        } else if d.pairs[k] >= 2 {
            d.minus(p).minus(p)
        } else if d.pairs[k] == 1 {
            d.minus(p)
        } else {
            d
        };
        if d.triplets[k] > 0 {
            lemma_minus(d, t);
        } else if d.pairs[k] >= 2 {
            lemma_minus(d, p);
            lemma_minus(d.minus(p), p);
        } else if d.pairs[k] == 1 {
            lemma_minus(d, p);
        }
        assert forall|j: int| 0 <= j < 34 implies #[trigger] e.uses(j) <= c1[j] by {
            assert(d.uses(j) <= c[j]);
            if d.triplets[k] > 0 {
                assert(d.minus(t).uses(j) == d.uses(j) - t.tiles(j));
            } else if d.pairs[k] >= 2 {
                assert(d.minus(p).uses(j) == d.uses(j) - p.tiles(j));
                assert(d.minus(p).minus(p).uses(j) == d.minus(p).uses(j) - p.tiles(j));
            } else if d.pairs[k] == 1 {
                assert(d.minus(p).uses(j) == d.uses(j) - p.tiles(j));
            }
        }
        assert(e.fits(c1) && e.worth() + 2 >= d.worth());
    }
    assert forall|e: Decomposition| #[trigger] e.fits(c1) implies exists|d: Decomposition| #[trigger]
        d.fits(c) && d.worth() == e.worth() + 2 by {
        lemma_plus(e, t);
        let d = e.plus(t);
        assert forall|j: int| 0 <= j < 34 implies #[trigger] d.uses(j) <= c[j] by {
            assert(e.uses(j) <= c1[j]);
        }
        assert(d.fits(c) && d.worth() == e.worth() + 2);
    }
}

/// Setting a single tile that stands alone aside costs nothing and gains
/// nothing: no block can hold it.
pub proof fn lemma_lone_single(c: Seq<nat>, k: int)
    requires
        c.len() == 34,
        0 <= k < 34,
        lone_single(c, k),
    ensures
        reduced(c, c.update(k, 0), 0),
{
    let c1 = c.update(k, 0);
    reveal(keeps_worth);
    reveal(gives_worth);
    assert forall|d: Decomposition| #[trigger] d.fits(c) implies exists|e: Decomposition| #[trigger]
        e.fits(c1) && e.worth() + 0 >= d.worth() by {
        lemma_isolated_blocks(d, c, k);
        assert(d.uses(k) <= c[k]);
        assert forall|j: int| 0 <= j < 34 implies #[trigger] d.uses(j) <= c1[j] by {
            assert(d.uses(j) <= c[j]);
        }
        assert(d.fits(c1) && d.worth() + 0 >= d.worth());
    }
    assert forall|e: Decomposition| #[trigger] e.fits(c1) implies exists|d: Decomposition| #[trigger]
        d.fits(c) && d.worth() == e.worth() + 0 by {
        assert forall|j: int| 0 <= j < 34 implies #[trigger] e.uses(j) <= c[j] by {
            assert(e.uses(j) <= c1[j]);
        }
        assert(e.fits(c) && e.worth() == e.worth() + 0);
    }
}

/// The table `c` with the three kinds of the run that starts at `l` emptied.
pub open spec fn without_run_kinds(c: Seq<nat>, l: int) -> Seq<nat> {
    c.update(l, 0).update(l + 1, 0).update(l + 2, 0)
}

/// A fitting choice with every block dropped that touches the three kinds of
/// a lone run at `l`.
pub open spec fn clear_of_run(d: Decomposition, l: int) -> Decomposition {
    Decomposition {
        triplets: d.triplets,
        runs: d.runs.update(l, 0),
        pairs: d.pairs.update(l, 0).update(l + 1, 0).update(l + 2, 0),
        adjacents: d.adjacents.update(l, 0).update(l + 1, 0),
        gaps: d.gaps.update(l, 0),
    }
}

/// Where `n` runs stand alone, the blocks that a fitting choice makes of
/// their tiles are worth at most `2 * n`, and without them the choice fits
/// what is left.
pub proof fn lemma_clear_of_run(d: Decomposition, c: Seq<nat>, l: int, n: nat)
    requires
        d.fits(c),
        0 <= l < 34,
        1 <= n <= 2,
        lone_run(c, l, n),
    ensures
        clear_of_run(d, l).fits(without_run_kinds(c, l)),
        clear_of_run(d, l).worth() + 2 * n >= d.worth(),
{
    let e = clear_of_run(d, l);
    let c1 = without_run_kinds(c, l);
    if has_neighbor(l, -2) {
        assert(d.uses(l - 2) <= c[l - 2]);
    }
    if has_neighbor(l, -1) {
        assert(d.uses(l - 1) <= c[l - 1]);
    }
    assert(d.uses(l) <= c[l]);
    assert(d.uses(l + 1) <= c[l + 1]);
    assert(d.uses(l + 2) <= c[l + 2]);
    if has_neighbor(l, 3) {
        assert(d.uses(l + 3) <= c[l + 3]);
    }
    if has_neighbor(l, 4) {
        assert(d.uses(l + 4) <= c[l + 4]);
    }
    assert(d.triplets[l] == 0 && d.triplets[l + 1] == 0 && d.triplets[l + 2] == 0);
    assert(d.runs[l + 1] == 0 && d.runs[l + 2] == 0);
    assert(d.adjacents[l + 2] == 0);
    assert(d.gaps[l + 1] == 0 && d.gaps[l + 2] == 0);
    assert(beside(d.runs, l, -1) == 0 && beside(d.runs, l, -2) == 0);
    assert(beside(d.adjacents, l, -1) == 0);
    assert(beside(d.gaps, l, -2) == 0 && beside(d.gaps, l + 1, -2) == 0);
    assert(e.wf());
    assert forall|j: int| 0 <= j < 34 implies #[trigger] e.uses(j) <= c1[j] by {
        assert(d.uses(j) <= c[j]);
        if l <= j <= l + 2 {
            assert(e.uses(j) == 0);
        } else {
            assert(e.triplets[j] == d.triplets[j]);
            assert(e.pairs[j] == d.pairs[j]);
            assert(e.runs[j] == d.runs[j]);
            assert(e.adjacents[j] == d.adjacents[j]);
            assert(e.gaps[j] == d.gaps[j]);
            assert(beside(e.runs, j, -1) <= beside(d.runs, j, -1));
            assert(beside(e.runs, j, -2) <= beside(d.runs, j, -2));
            assert(beside(e.adjacents, j, -1) <= beside(d.adjacents, j, -1));
            assert(beside(e.gaps, j, -2) <= beside(d.gaps, j, -2));
        }
    }
    lemma_total_update(d.runs, l, 0);
    let p1 = d.pairs.update(l, 0);
    let p2 = p1.update(l + 1, 0);
    lemma_total_update(d.pairs, l, 0);
    lemma_total_update(p1, l + 1, 0);
    lemma_total_update(p2, l + 2, 0);
    let a1 = d.adjacents.update(l, 0);
    lemma_total_update(d.adjacents, l, 0);
    lemma_total_update(a1, l + 1, 0);
    lemma_total_update(d.gaps, l, 0);
}

/// Setting runs that stand alone aside costs nothing: what is left can make
/// blocks worth exactly 2 less for each of them.
pub proof fn lemma_lone_run(c: Seq<nat>, l: int, n: nat)
    requires
        c.len() == 34,
        0 <= l < 34,
        1 <= n <= 2,
        lone_run(c, l, n),
    ensures
        reduced(c, without_run_kinds(c, l), 2 * (n as int)),
{
    let c1 = without_run_kinds(c, l);
    let r = Block::Run(l);
    reveal(keeps_worth);
    reveal(gives_worth);
    assert forall|d: Decomposition| #[trigger] d.fits(c) implies exists|e: Decomposition| #[trigger]
        e.fits(c1) && e.worth() + 2 * n >= d.worth() by {
        lemma_clear_of_run(d, c, l, n);
        let e = clear_of_run(d, l);
        assert(e.fits(c1) && e.worth() + 2 * n >= d.worth());
    }
    assert forall|e: Decomposition| #[trigger] e.fits(c1) implies exists|d: Decomposition| #[trigger]
        d.fits(c) && d.worth() == e.worth() + 2 * n by {
        lemma_plus(e, r);
        let d1 = e.plus(r);
        let d = if n == 1 { d1 } else { d1.plus(r) };
        if n == 2 {
            lemma_plus(d1, r);
        }
        assert forall|j: int| 0 <= j < 34 implies #[trigger] d.uses(j) <= c[j] by {
            assert(e.uses(j) <= c1[j]);
            assert(d1.uses(j) == e.uses(j) + r.tiles(j));
            if n == 2 {
                assert(d1.plus(r).uses(j) == d1.uses(j) + r.tiles(j));
            }
        }
        assert(d.fits(c) && d.worth() == e.worth() + 2 * n);
    }
}

/// Number of kinds below `n` that hold a lone triplet.
pub open spec fn lone_triplets(c: Seq<nat>, n: int) -> nat
    decreases n,
{
    if n <= 0 {
        0
    } else {
        lone_triplets(c, n - 1) + if lone_triplet(c, n - 1) { 1nat } else { 0 }
    }
}

/// The table `c` with one triplet taken from every kind that holds a lone
/// triplet.
pub open spec fn without_lone_triplets(c: Seq<nat>) -> Seq<nat> {
    Seq::new(34, |k: int| if lone_triplet(c, k) { (c[k] - 3) as nat } else { c[k] })
}

/// Number of kinds below `n` that hold a lone single tile.
pub open spec fn lone_singles(c: Seq<nat>, n: int) -> nat
    decreases n,
{
    if n <= 0 {
        0
    } else {
        lone_singles(c, n - 1) + if lone_single(c, n - 1) { 1nat } else { 0 }
    }
}

/// The table `c` with every lone single tile taken out.
pub open spec fn without_lone_singles(c: Seq<nat>) -> Seq<nat> {
    Seq::new(34, |k: int| if lone_single(c, k) { 0 } else { c[k] })
}

/// Number of kinds below `upto` at which `n` lone runs start.
pub open spec fn lone_runs(c: Seq<nat>, n: nat, upto: int) -> nat
    decreases upto,
{
    if upto <= 0 {
        0
    } else {
        lone_runs(c, n, upto - 1) + if lone_run(c, upto - 1, n) { 1nat } else { 0 }
    }
}

/// Whether kind `k` is one of the three kinds of `n` lone runs that start
/// below `upto`.
pub open spec fn in_lone_run(c: Seq<nat>, k: int, n: nat, upto: int) -> bool {
    ||| k < upto && lone_run(c, k, n)
    ||| has_neighbor(k, -1) && k - 1 < upto && lone_run(c, k - 1, n)
    ||| has_neighbor(k, -2) && k - 2 < upto && lone_run(c, k - 2, n)
}

/// The table `c` with the kinds emptied that `n` lone runs take up.
pub open spec fn without_lone_runs(c: Seq<nat>, n: nat) -> Seq<nat> {
    Seq::new(34, |k: int| if in_lone_run(c, k, n, 34) { 0 } else { c[k] })
}

/// Emptying the three kinds of `n` lone runs takes `3 * n` tiles off the
/// total.
pub proof fn lemma_total_without_run_kinds(c: Seq<nat>, l: int, n: nat)
    requires
        c.len() == 34,
        0 <= l < 34,
        lone_run(c, l, n),
    ensures
        total(without_run_kinds(c, l)) + 3 * n == total(c),
{
    let c1 = c.update(l, 0);
    let c2 = c1.update(l + 1, 0);
    lemma_total_update(c, l, 0);
    lemma_total_update(c1, l + 1, 0);
    lemma_total_update(c2, l + 2, 0);
}

/// The state of a scan for `n` lone runs that has come to kind `l`: the
/// table `cur` is the table `c0` with the kinds emptied whose runs started
/// below `l`.
pub open spec fn scanned(c0: Seq<nat>, cur: Seq<nat>, n: nat, l: int) -> bool {
    &&& c0.len() == 34
    &&& cur.len() == 34
    &&& forall|k: int| 0 <= k < 34 ==> #[trigger] cur[k] == if in_lone_run(c0, k, n, l) { 0 } else { c0[k] }
}

/// Lone runs do not touch: what the scan has emptied so far neither hides
/// nor makes a lone run at the kind it has come to.
pub proof fn lemma_scan_agrees(c0: Seq<nat>, cur: Seq<nat>, n: nat, l: int)
    requires
        scanned(c0, cur, n, l),
        1 <= n <= 2,
        0 <= l < 34,
    ensures
        lone_run(cur, l, n) == lone_run(c0, l, n),
{
    if has_neighbor(l, 2) {
        let a = cur[l];
        let b = cur[l + 1];
        let c = cur[l + 2];
        if has_neighbor(l, -2) {
            let x = cur[l - 2];
        }
        if has_neighbor(l, -1) {
            let x = cur[l - 1];
        }
        if has_neighbor(l, 3) {
            let x = cur[l + 3];
        }
        if has_neighbor(l, 4) {
            let x = cur[l + 4];
        }
        if lone_run(c0, l, n) {
            assert(!in_lone_run(c0, l, n, l));
            assert(!in_lone_run(c0, l + 1, n, l));
            assert(!in_lone_run(c0, l + 2, n, l));
            assert(lone_run(cur, l, n));
        }
        if lone_run(cur, l, n) {
            assert(!in_lone_run(c0, l, n, l));
            assert(!in_lone_run(c0, l + 1, n, l));
            assert(!in_lone_run(c0, l + 2, n, l));
            assert(c0[l] == n && c0[l + 1] == n && c0[l + 2] == n);
            if has_neighbor(l, -2) {
                assert(!in_lone_run(c0, l - 2, n, l));
            }
            if has_neighbor(l, -1) {
                assert(!in_lone_run(c0, l - 1, n, l));
            }
            if has_neighbor(l, 3) {
                assert(!in_lone_run(c0, l + 3, n, l));
            }
            if has_neighbor(l, 4) {
                assert(!in_lone_run(c0, l + 4, n, l));
            }
            assert(lone_run(c0, l, n));
        }
    }
}

/// One step of the scan for `n` lone runs: with the run at `l` emptied, if
/// there is one, the scan has come to `l + 1`.
pub proof fn lemma_scan_step(c0: Seq<nat>, cur: Seq<nat>, next: Seq<nat>, n: nat, l: int)
    requires
        scanned(c0, cur, n, l),
        1 <= n <= 2,
        0 <= l < 34,
        next == if lone_run(c0, l, n) { without_run_kinds(cur, l) } else { cur },
    ensures
        scanned(c0, next, n, l + 1),
{
    assert forall|k: int| 0 <= k < 34 implies #[trigger] next[k] == if in_lone_run(c0, k, n, l + 1) {
        0
    } else {
        c0[k]
    } by {
        let x = cur[k];
        if lone_run(c0, l, n) {
            if l <= k <= l + 2 {
                assert(in_lone_run(c0, k, n, l + 1));
            } else {
                assert(in_lone_run(c0, k, n, l + 1) == in_lone_run(c0, k, n, l));
            }
        } else {
            assert(in_lone_run(c0, k, n, l + 1) == in_lone_run(c0, k, n, l));
        }
    }
}

/// The table `c` with the kinds emptied that lone runs take up, be it once
/// or twice.
pub open spec fn without_all_lone_runs(c: Seq<nat>) -> Seq<nat> {
    Seq::new(34, |k: int| if in_lone_run(c, k, 1, 34) || in_lone_run(c, k, 2, 34) { 0 } else { c[k] })
}

/// Lone runs do not touch: with the lone runs taken out that stand twice,
/// those that stand once are where they were, and there are no others.
pub proof fn lemma_single_run_kept(c: Seq<nat>, l: int)
    requires
        c.len() == 34,
        0 <= l < 34,
    ensures
        lone_run(without_lone_runs(c, 2), l, 1) == lone_run(c, l, 1),
{
    let c1 = without_lone_runs(c, 2);
    if has_neighbor(l, 2) {
        let a = c1[l];
        let b = c1[l + 1];
        let d = c1[l + 2];
        if has_neighbor(l, -2) {
            let x = c1[l - 2];
        }
        if has_neighbor(l, -1) {
            let x = c1[l - 1];
        }
        if has_neighbor(l, 3) {
            let x = c1[l + 3];
        }
        if has_neighbor(l, 4) {
            let x = c1[l + 4];
        }
        if lone_run(c, l, 1) {
            assert(!in_lone_run(c, l, 2, 34));
            assert(!in_lone_run(c, l + 1, 2, 34));
            assert(!in_lone_run(c, l + 2, 2, 34));
            assert(lone_run(c1, l, 1));
        }
        if lone_run(c1, l, 1) {
            assert(!in_lone_run(c, l, 2, 34));
            assert(!in_lone_run(c, l + 1, 2, 34));
            assert(!in_lone_run(c, l + 2, 2, 34));
            assert(c[l] == 1 && c[l + 1] == 1 && c[l + 2] == 1);
            if has_neighbor(l, -2) {
                assert(!in_lone_run(c, l - 2, 2, 34));
            }
            if has_neighbor(l, -1) {
                assert(!in_lone_run(c, l - 1, 2, 34));
            }
            if has_neighbor(l, 3) {
                assert(!in_lone_run(c, l + 3, 2, 34));
            }
            if has_neighbor(l, 4) {
                assert(!in_lone_run(c, l + 4, 2, 34));
            }
            assert(lone_run(c, l, 1));
        }
    }
}

/// As many lone runs stand once below `upto` after those that stand twice
/// were taken out as before.
pub proof fn lemma_single_runs_counted(c: Seq<nat>, upto: int)
    requires
        c.len() == 34,
        0 <= upto <= 34,
    ensures
        lone_runs(without_lone_runs(c, 2), 1, upto) == lone_runs(c, 1, upto),
    decreases upto,
{
    if upto > 0 {
        lemma_single_runs_counted(c, upto - 1);
        lemma_single_run_kept(c, upto - 1);
    }
}

/// Taking out the lone runs that stand twice and then, from what is left,
/// those that stand once, takes out all lone runs of the table.
pub proof fn lemma_lone_runs_apart(c: Seq<nat>)
    requires
        c.len() == 34,
    ensures
        without_lone_runs(without_lone_runs(c, 2), 1) == without_all_lone_runs(c),
        lone_runs(without_lone_runs(c, 2), 1, 34) == lone_runs(c, 1, 34),
{
    let c1 = without_lone_runs(c, 2);
    lemma_single_runs_counted(c, 34);
    assert forall|k: int| 0 <= k < 34 implies #[trigger] without_lone_runs(c1, 1)[k] == without_all_lone_runs(
        c,
    )[k] by {
        lemma_single_run_kept(c, k);
        if has_neighbor(k, -1) {
            lemma_single_run_kept(c, k - 1);
        }
        if has_neighbor(k, -2) {
            lemma_single_run_kept(c, k - 2);
        }
        assert(in_lone_run(c1, k, 1, 34) == in_lone_run(c, k, 1, 34));
    }
    assert(without_lone_runs(c1, 1) =~= without_all_lone_runs(c));
}

} // verus!
