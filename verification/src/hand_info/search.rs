use vstd::prelude::*;
use crate::hand_info::decomposition::{
    holds, is_normal_shanten, lemma_fits_minus, lemma_fits_plus, lemma_none, lemma_nothing_from,
    lemma_normal_shanten_unique, normal_shanten, without, Block, Decomposition,
};
use crate::hand_info::independent::{gives_worth, keeps_worth, reduced};

verus! {

/// The choices among which the search for two-tile blocks moves: they fit the
/// table `c`, take no three-tile block, and no two-tile block below `idx`.
pub open spec fn two_choice(d: Decomposition, idx: int, c: Seq<nat>) -> bool {
    d.fits(c) && d.threes_from(34) && d.twos_from(idx)
}

/// The choices among which the full search moves: they fit the table `c` and
/// take no three-tile block below `idx`.
pub open spec fn choice_from(d: Decomposition, idx: int, c: Seq<nat>) -> bool {
    d.fits(c) && d.threes_from(idx)
}

/// `r` is the least of `acc` and of `leaf - d.worth()` over the choices `d` of
/// two-tile blocks from `idx` on.
#[verifier::opaque]
pub open spec fn least_of_twos(c: Seq<nat>, idx: int, leaf: int, acc: int, r: int) -> bool {
    &&& r <= acc
    &&& forall|d: Decomposition| #[trigger] two_choice(d, idx, c) ==> r <= leaf - d.worth()
    &&& (r == acc || exists|d: Decomposition| #[trigger] two_choice(d, idx, c) && r == leaf - d.worth())
}

/// `r` is the least of `acc` and of `leaf - d.worth()` over the choices `d`
/// whose three-tile blocks start at `idx` or later.
#[verifier::opaque]
pub open spec fn least_from(c: Seq<nat>, idx: int, leaf: int, acc: int, r: int) -> bool {
    &&& r <= acc
    &&& forall|d: Decomposition| #[trigger] choice_from(d, idx, c) ==> r <= leaf - d.worth()
    &&& (r == acc || exists|d: Decomposition| #[trigger] choice_from(d, idx, c) && r == leaf - d.worth())
}

/// `r` is the least of `acc` and of `leaf - d.worth()` over the choices `d`
/// that take at least one three-tile block, and none below `idx`.
#[verifier::opaque]
pub open spec fn least_with_three(c: Seq<nat>, idx: int, leaf: int, acc: int, r: int) -> bool {
    &&& r <= acc
    &&& forall|d: Decomposition|
        #[trigger] choice_from(d, idx, c) && !d.threes_from(34) ==> r <= leaf - d.worth()
    &&& (r == acc || exists|d: Decomposition| #[trigger] choice_from(d, idx, c) && r == leaf - d.worth())
}

/// The scan for two-tile blocks has come to kind `i`: `m` is at most what
/// any choice comes to that has a two-tile block below `i`.
#[verifier::opaque]
pub open spec fn twos_covered(c: Seq<nat>, idx: int, i: int, leaf: int, m: int) -> bool {
    forall|d: Decomposition| #[trigger] two_choice(d, idx, c) && !d.twos_from(i) ==> m <= leaf - d.worth()
}

/// `m` is `acc`, or less and what some choice of two-tile blocks comes to.
#[verifier::opaque]
pub open spec fn twos_attained(c: Seq<nat>, idx: int, leaf: int, acc: int, m: int) -> bool {
    &&& m <= acc
    &&& (m == acc || exists|d: Decomposition| #[trigger] two_choice(d, idx, c) && m == leaf - d.worth())
}

/// `m` is at most what any choice of two-tile blocks comes to that takes the
/// block `b` and nothing below its kind.
#[verifier::opaque]
pub open spec fn two_tried(c: Seq<nat>, b: Block, leaf: int, m: int) -> bool {
    forall|d: Decomposition| #[trigger] two_choice(d, b.at(), c) && d.count(b) > 0 ==> m <= leaf - d.worth()
}

/// The scan for three-tile blocks has come to kind `i`: `m` is at most what
/// any choice comes to that has a three-tile block below `i`.
#[verifier::opaque]
pub open spec fn threes_covered(c: Seq<nat>, idx: int, i: int, leaf: int, m: int) -> bool {
    forall|d: Decomposition| #[trigger] choice_from(d, idx, c) && !d.threes_from(i) ==> m <= leaf - d.worth()
}

/// `m` is `acc`, or less and what some choice of blocks comes to.
#[verifier::opaque]
pub open spec fn threes_attained(c: Seq<nat>, idx: int, leaf: int, acc: int, m: int) -> bool {
    &&& m <= acc
    &&& (m == acc || exists|d: Decomposition| #[trigger] choice_from(d, idx, c) && m == leaf - d.worth())
}

/// `m` is at most what any choice comes to that takes the three-tile block
/// `b` and no three-tile block below its kind.
#[verifier::opaque]
pub open spec fn three_tried(c: Seq<nat>, b: Block, leaf: int, m: int) -> bool {
    forall|d: Decomposition| #[trigger] choice_from(d, b.at(), c) && d.count(b) > 0 ==> m <= leaf - d.worth()
}

/// The choice of no block fits every table and is worth nothing.
pub proof fn lemma_leaf_attained(c: Seq<nat>, idx: int)
    requires
        c.len() == 34,
    ensures
        two_choice(Decomposition::none(), idx, c),
        choice_from(Decomposition::none(), idx, c),
        Decomposition::none().worth() == 0,
{
    lemma_none();
    let d = Decomposition::none();
    assert(d.threes_from(34));
    assert(d.twos_from(idx));
    assert(d.threes_from(idx));
}

/// The start of the scan for two-tile blocks: the leaf, at which no further
/// block is taken, is evaluated, and nothing else is accounted for yet.
pub proof fn lemma_two_start(c: Seq<nat>, idx: int, leaf: int, acc: int, m: int)
    requires
        c.len() == 34,
        m == if leaf < acc { leaf } else { acc },
    ensures
        twos_covered(c, idx, idx, leaf, m),
        twos_attained(c, idx, leaf, acc, m),
{
    reveal(twos_covered);
    reveal(twos_attained);
    lemma_leaf_attained(c, idx);
}

/// What one branch of the search for two-tile blocks contributes: after block
/// `b` was taken and the rest searched from the block's kind on, every choice
/// that takes `b` is accounted for, and the result is attained.
pub proof fn lemma_two_branch(c: Seq<nat>, b: Block, idx: int, leaf: int, acc: int, m_in: int, m_out: int)
    requires
        holds(c, b),
        !b.is_three(),
        idx <= b.at(),
        twos_attained(c, idx, leaf, acc, m_in),
        least_of_twos(without(c, b), b.at(), leaf - 1, m_in, m_out),
    ensures
        m_out <= m_in,
        two_tried(c, b, leaf, m_out),
        twos_attained(c, idx, leaf, acc, m_out),
{
    reveal(least_of_twos);
    reveal(two_tried);
    reveal(twos_attained);
    let c1 = without(c, b);
    assert forall|d: Decomposition| #[trigger] two_choice(d, b.at(), c) && d.count(b) > 0 implies m_out <= leaf
        - d.worth() by {
        lemma_fits_minus(d, b, c);
        assert(two_choice(d.minus(b), b.at(), c1));
    }
    if m_out != m_in {
        let e = choose|e: Decomposition| #[trigger] two_choice(e, b.at(), c1) && m_out == leaf - 1 - e.worth();
        lemma_fits_plus(e, b, c);
        assert(e.twos_from(idx));
        assert(two_choice(e.plus(b), idx, c));
    }
}

/// No choice takes a two-tile block that the table does not hold.
pub proof fn lemma_two_absent(c: Seq<nat>, b: Block, leaf: int, m: int)
    requires
        c.len() == 34,
        0 <= b.at() < 34,
        !holds(c, b),
    ensures
        two_tried(c, b, leaf, m),
{
    reveal(two_tried);
    assert forall|d: Decomposition| #[trigger] two_choice(d, b.at(), c) && d.count(b) > 0 implies m <= leaf
        - d.worth() by {
        if b.valid() {
            lemma_fits_minus(d, b, c);
        }
    }
}

/// One step of the scan for two-tile blocks: once the three shapes at kind `i`
/// have been tried, every choice with a two-tile block at or below `i` is
/// accounted for.
pub proof fn lemma_two_step(c: Seq<nat>, idx: int, i: int, leaf: int, m0: int, m1: int, m2: int, m3: int)
    requires
        c.len() == 34,
        0 <= idx <= i < 34,
        m3 <= m2 <= m1 <= m0,
        twos_covered(c, idx, i, leaf, m0),
        two_tried(c, Block::Pair(i), leaf, m1),
        two_tried(c, Block::Adjacent(i), leaf, m2),
        two_tried(c, Block::Gap(i), leaf, m3),
    ensures
        twos_covered(c, idx, i + 1, leaf, m3),
{
    reveal(twos_covered);
    reveal(two_tried);
    assert forall|d: Decomposition| #[trigger] two_choice(d, idx, c) && !d.twos_from(i + 1) implies m3 <= leaf
        - d.worth() by {
        if d.twos_from(i) {
            assert(two_choice(d, i, c));
            assert(two_choice(d, Block::Pair(i).at(), c));
            assert(two_choice(d, Block::Adjacent(i).at(), c));
            assert(two_choice(d, Block::Gap(i).at(), c));
            assert(d.pairs[i] > 0 || d.adjacents[i] > 0 || d.gaps[i] > 0);
        }
    }
}

/// The end of the scan for two-tile blocks: the result is the least over all
/// choices of two-tile blocks from `idx` on.
pub proof fn lemma_two_done(c: Seq<nat>, idx: int, leaf: int, acc: int, m: int)
    requires
        c.len() == 34,
        0 <= idx <= 34,
        m <= leaf,
        twos_covered(c, idx, 34, leaf, m),
        twos_attained(c, idx, leaf, acc, m),
    ensures
        least_of_twos(c, idx, leaf, acc, m),
{
    reveal(twos_covered);
    reveal(twos_attained);
    reveal(least_of_twos);
    assert forall|d: Decomposition| #[trigger] two_choice(d, idx, c) implies m <= leaf - d.worth() by {
        if d.twos_from(34) {
            lemma_nothing_from(d);
        }
    }
}

/// The start of the scan for three-tile blocks: nothing is accounted for yet.
pub proof fn lemma_three_start(c: Seq<nat>, idx: int, leaf: int, acc: int)
    ensures
        threes_covered(c, idx, idx, leaf, acc),
        threes_attained(c, idx, leaf, acc, acc),
{
    reveal(threes_covered);
    reveal(threes_attained);
}

/// What one branch of the search for three-tile blocks contributes: after
/// block `b` was taken and the rest searched from the block's kind on, every
/// choice that takes `b` is accounted for, and the result is attained.
pub proof fn lemma_three_branch(c: Seq<nat>, b: Block, idx: int, leaf: int, acc: int, m_in: int, m_out: int)
    requires
        holds(c, b),
        b.is_three(),
        idx <= b.at(),
        threes_attained(c, idx, leaf, acc, m_in),
        least_from(without(c, b), b.at(), leaf - 2, m_in, m_out),
    ensures
        m_out <= m_in,
        three_tried(c, b, leaf, m_out),
        threes_attained(c, idx, leaf, acc, m_out),
{
    reveal(least_from);
    reveal(three_tried);
    reveal(threes_attained);
    let c1 = without(c, b);
    assert forall|d: Decomposition| #[trigger] choice_from(d, b.at(), c) && d.count(b) > 0 implies m_out <= leaf
        - d.worth() by {
        lemma_fits_minus(d, b, c);
        assert(choice_from(d.minus(b), b.at(), c1));
    }
    if m_out != m_in {
        let e = choose|e: Decomposition| #[trigger] choice_from(e, b.at(), c1) && m_out == leaf - 2 - e.worth();
        lemma_fits_plus(e, b, c);
        assert(e.threes_from(idx));
        assert(choice_from(e.plus(b), idx, c));
    }
}

/// No choice takes a three-tile block that the table does not hold.
pub proof fn lemma_three_absent(c: Seq<nat>, b: Block, leaf: int, m: int)
    requires
        c.len() == 34,
        0 <= b.at() < 34,
        !holds(c, b),
    ensures
        three_tried(c, b, leaf, m),
{
    reveal(three_tried);
    assert forall|d: Decomposition| #[trigger] choice_from(d, b.at(), c) && d.count(b) > 0 implies m <= leaf
        - d.worth() by {
        if b.valid() {
            lemma_fits_minus(d, b, c);
        }
    }
}

/// One step of the scan for three-tile blocks: once the two shapes at kind `i`
/// have been tried, every choice with a three-tile block at or below `i` is
/// accounted for.
pub proof fn lemma_three_step(c: Seq<nat>, idx: int, i: int, leaf: int, m0: int, m1: int, m2: int)
    requires
        c.len() == 34,
        0 <= idx <= i < 34,
        m2 <= m1 <= m0,
        threes_covered(c, idx, i, leaf, m0),
        three_tried(c, Block::Triplet(i), leaf, m1),
        three_tried(c, Block::Run(i), leaf, m2),
    ensures
        threes_covered(c, idx, i + 1, leaf, m2),
{
    reveal(threes_covered);
    reveal(three_tried);
    assert forall|d: Decomposition| #[trigger] choice_from(d, idx, c) && !d.threes_from(i + 1) implies m2 <= leaf
        - d.worth() by {
        if d.threes_from(i) {
            assert(choice_from(d, i, c));
            assert(choice_from(d, Block::Triplet(i).at(), c));
            assert(choice_from(d, Block::Run(i).at(), c));
            assert(d.triplets[i] > 0 || d.runs[i] > 0);
        }
    }
}

/// The end of the scan for three-tile blocks: the result is the least over
/// all choices with a three-tile block, and none below `idx`.
pub proof fn lemma_three_done(c: Seq<nat>, idx: int, leaf: int, acc: int, m: int)
    requires
        threes_covered(c, idx, 34, leaf, m),
        threes_attained(c, idx, leaf, acc, m),
    ensures
        least_with_three(c, idx, leaf, acc, m),
{
    reveal(threes_covered);
    reveal(threes_attained);
    reveal(least_with_three);
}

/// The two halves of the full search together: the choices with a three-tile
/// block, and the choices of two-tile blocks alone.
pub proof fn lemma_search_joined(c: Seq<nat>, idx: int, leaf: int, acc: int, m3: int, m: int)
    requires
        c.len() == 34,
        0 <= idx <= 34,
        least_with_three(c, idx, leaf, acc, m3),
        least_of_twos(c, 0, leaf, m3, m),
    ensures
        least_from(c, idx, leaf, acc, m),
{
    reveal(least_with_three);
    reveal(least_of_twos);
    reveal(least_from);
    assert forall|d: Decomposition| #[trigger] choice_from(d, idx, c) implies m <= leaf - d.worth() by {
        if d.threes_from(34) {
            assert(d.twos_from(0));
            assert(two_choice(d, 0, c));
        }
    }
    if m != acc {
        if m == m3 {
        } else {
            let e = choose|e: Decomposition| #[trigger] two_choice(e, 0, c) && m == leaf - e.worth();
            assert(e.threes_from(idx));
            assert(choice_from(e, idx, c));
        }
    }
}

/// What the search contributes that starts with a pair set aside as the
/// head: its result is attained by a choice of blocks for the whole table.
pub proof fn lemma_head_branch(c: Seq<nat>, b: Block, leaf: int, acc: int, m_in: int, m_out: int)
    requires
        holds(c, b),
        b is Pair,
        threes_attained(c, 0, leaf, acc, m_in),
        least_from(without(c, b), 0, leaf - 1, m_in, m_out),
    ensures
        m_out <= m_in,
        threes_attained(c, 0, leaf, acc, m_out),
{
    reveal(least_from);
    reveal(threes_attained);
    let c1 = without(c, b);
    if m_out != m_in {
        let e = choose|e: Decomposition| #[trigger] choice_from(e, 0, c1) && m_out == leaf - 1 - e.worth();
        lemma_fits_plus(e, b, c);
        assert(e.plus(b).threes_from(0));
        assert(choice_from(e.plus(b), 0, c));
    }
}

/// The search as a whole: after the lone blocks, worth `gain` together, were
/// set aside from the table `c0`, and the search on what is left, `c1`, came
/// to `r`, with or without a head, `r` is the shanten number of `c0`.
pub proof fn lemma_normal_form(c0: Seq<nat>, c1: Seq<nat>, gain: int, m_head: int, r: int)
    requires
        reduced(c0, c1, gain),
        0 <= gain,
        threes_attained(c1, 0, 8 - gain, 100, m_head),
        least_from(c1, 0, 8 - gain, m_head, r),
    ensures
        is_normal_shanten(c0, r),
        normal_shanten(c0) == r,
{
    reveal(least_from);
    reveal(threes_attained);
    lemma_leaf_attained(c1, 0);
    let none = Decomposition::none();
    assert(choice_from(none, 0, c1));
    assert(r <= 8 - gain - none.worth());
    let e = choose|e: Decomposition| #[trigger] choice_from(e, 0, c1) && r == 8 - gain - e.worth();
    assert(choice_from(e, 0, c1) && r == 8 - gain - e.worth());
    assert(exists|d: Decomposition| #[trigger] d.fits(c0) && d.shanten() == r) by {
        reveal(gives_worth);
        assert(e.fits(c1));
        let d = choose|d: Decomposition| #[trigger] d.fits(c0) && d.worth() == e.worth() + gain;
        assert(d.fits(c0) && d.shanten() == r);
    }
    assert forall|d: Decomposition| #[trigger] d.fits(c0) implies r <= d.shanten() by {
        reveal(keeps_worth);
        let f = choose|f: Decomposition| #[trigger] f.fits(c1) && f.worth() + gain >= d.worth();
        assert(f.threes_from(0));
        assert(choice_from(f, 0, c1));
    }
    lemma_normal_shanten_unique(c0, r);
}

} // verus!
