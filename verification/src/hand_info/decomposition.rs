use vstd::prelude::*;
use crate::counts::{beside, lemma_sum_zero, lemma_total_update, total};
use crate::tile::has_neighbor;

verus! {

/// A group of two or three tiles, named by its shape and its lowest kind.
pub enum Block {
    /// Three tiles of one kind.
    Triplet(int),
    /// Three tiles of consecutive ranks in one suit.
    Run(int),
    /// Two tiles of one kind.
    Pair(int),
    /// Two tiles of consecutive ranks in one suit.
    Adjacent(int),
    /// Two tiles of one suit whose ranks differ by two.
    Gap(int),
}

impl Block {
    /// The lowest kind of the block.
    pub open spec fn at(self) -> int {
        match self {
            Block::Triplet(k) => k,
            Block::Run(k) => k,
            Block::Pair(k) => k,
            Block::Adjacent(k) => k,
            Block::Gap(k) => k,
        }
    }

    /// Whether the block has three tiles.
    pub open spec fn is_three(self) -> bool {
        self is Triplet || self is Run
    }

    /// Whether the block exists among the 34 kinds: sequences stay inside one
    /// number suit.
    pub open spec fn valid(self) -> bool {
        &&& 0 <= self.at() < 34
        &&& match self {
            Block::Triplet(_) => true,
            Block::Run(k) => has_neighbor(k, 2),
            Block::Pair(_) => true,
            Block::Adjacent(k) => has_neighbor(k, 1),
            Block::Gap(k) => has_neighbor(k, 2),
        }
    }

    /// Number of tiles of kind `k` in the block.
    pub open spec fn tiles(self, k: int) -> nat {
        match self {
            Block::Triplet(a) => if k == a { 3 } else { 0 },
            Block::Run(a) => if a <= k <= a + 2 { 1 } else { 0 },
            Block::Pair(a) => if k == a { 2 } else { 0 },
            Block::Adjacent(a) => if a <= k <= a + 1 { 1 } else { 0 },
            Block::Gap(a) => if k == a || k == a + 2 { 1 } else { 0 },
        }
    }

    /// What the block takes off the shanten number: 2 for three tiles, 1 for two.
    pub open spec fn worth(self) -> nat {
        if self.is_three() { 2 } else { 1 }
    }

    /// Number of tiles in the block.
    pub open spec fn size(self) -> nat {
        if self.is_three() { 3 } else { 2 }
    }
}

/// Whether the table `c` holds the tiles of block `b`.
pub open spec fn holds(c: Seq<nat>, b: Block) -> bool {
    &&& c.len() == 34
    &&& b.valid()
    &&& forall|k: int| 0 <= k < 34 ==> c[k] >= #[trigger] b.tiles(k)
}

/// The table `c` after the tiles of block `b` have been taken out.
pub open spec fn without(c: Seq<nat>, b: Block) -> Seq<nat> {
    Seq::new(34, |k: int| (c[k] - b.tiles(k)) as nat)
}

/// A choice of blocks: for each shape and each lowest kind, how many such
/// blocks are taken.
pub struct Decomposition {
    pub triplets: Seq<nat>,
    pub runs: Seq<nat>,
    pub pairs: Seq<nat>,
    pub adjacents: Seq<nat>,
    pub gaps: Seq<nat>,
}

impl Decomposition {
    /// Every shape has an entry for each of the 34 kinds, and only blocks that
    /// exist are taken.
    pub open spec fn wf(self) -> bool {
        &&& self.triplets.len() == 34
        &&& self.runs.len() == 34
        &&& self.pairs.len() == 34
        &&& self.adjacents.len() == 34
        &&& self.gaps.len() == 34
        &&& forall|k: int| 0 <= k < 34 && !has_neighbor(k, 2) ==> #[trigger] self.runs[k] == 0
        &&& forall|k: int| 0 <= k < 34 && !has_neighbor(k, 1) ==> #[trigger] self.adjacents[k] == 0
        &&& forall|k: int| 0 <= k < 34 && !has_neighbor(k, 2) ==> #[trigger] self.gaps[k] == 0
    }

    /// The choice that takes no block.
    pub open spec fn none() -> Decomposition {
        Decomposition {
            triplets: Seq::new(34, |k: int| 0nat),
            runs: Seq::new(34, |k: int| 0nat),
            pairs: Seq::new(34, |k: int| 0nat),
            adjacents: Seq::new(34, |k: int| 0nat),
            gaps: Seq::new(34, |k: int| 0nat),
        }
    }

    /// Number of tiles of kind `k` that the chosen blocks take together.
    pub open spec fn uses(self, k: int) -> nat {
        3 * self.triplets[k] + 2 * self.pairs[k]
            + self.runs[k] + beside(self.runs, k, -1) + beside(self.runs, k, -2)
            + self.adjacents[k] + beside(self.adjacents, k, -1)
            + self.gaps[k] + beside(self.gaps, k, -2)
    }

    /// Whether the chosen blocks can be taken from the table `c` together.
    pub open spec fn fits(self, c: Seq<nat>) -> bool {
        &&& self.wf()
        &&& c.len() == 34
        &&& forall|k: int| 0 <= k < 34 ==> #[trigger] self.uses(k) <= c[k]
    }

    /// Number of chosen blocks of three tiles.
    pub open spec fn blocks3(self) -> nat {
        total(self.triplets) + total(self.runs)
    }

    /// Number of chosen blocks of two tiles.
    pub open spec fn blocks2(self) -> nat {
        total(self.pairs) + total(self.adjacents) + total(self.gaps)
    }

    /// What the chosen blocks take off the shanten number.
    pub open spec fn worth(self) -> nat {
        2 * self.blocks3() + self.blocks2()
    }

    /// Shanten number of the choice.
    pub open spec fn shanten(self) -> int {
        8 - 2 * self.blocks3() - self.blocks2()
    }

    /// How many times block `b` is taken.
    pub open spec fn count(self, b: Block) -> nat {
        match b {
            Block::Triplet(k) => self.triplets[k],
            Block::Run(k) => self.runs[k],
            Block::Pair(k) => self.pairs[k],
            Block::Adjacent(k) => self.adjacents[k],
            Block::Gap(k) => self.gaps[k],
        }
    }

    /// The choice in which block `b` is taken `n` times and all else is as in
    /// `self`.
    pub open spec fn with_count(self, b: Block, n: nat) -> Decomposition {
        match b {
            Block::Triplet(k) => Decomposition { triplets: self.triplets.update(k, n), ..self },
            Block::Run(k) => Decomposition { runs: self.runs.update(k, n), ..self },
            Block::Pair(k) => Decomposition { pairs: self.pairs.update(k, n), ..self },
            Block::Adjacent(k) => Decomposition { adjacents: self.adjacents.update(k, n), ..self },
            Block::Gap(k) => Decomposition { gaps: self.gaps.update(k, n), ..self },
        }
    }

    /// The choice with block `b` taken once more.
    pub open spec fn plus(self, b: Block) -> Decomposition {
        self.with_count(b, self.count(b) + 1)
    }

    /// The choice with block `b` taken once less.
    pub open spec fn minus(self, b: Block) -> Decomposition {
        self.with_count(b, (self.count(b) - 1) as nat)
    }

    /// No three-tile block has its lowest kind below `idx`.
    pub open spec fn threes_from(self, idx: int) -> bool {
        forall|k: int|
            #![trigger self.triplets[k]]
            #![trigger self.runs[k]]
            0 <= k < idx && k < 34 ==> self.triplets[k] == 0 && self.runs[k] == 0
    }

    /// No two-tile block has its lowest kind below `idx`.
    pub open spec fn twos_from(self, idx: int) -> bool {
        forall|k: int|
            #![trigger self.pairs[k]]
            #![trigger self.adjacents[k]]
            #![trigger self.gaps[k]]
            0 <= k < idx && k < 34 ==> self.pairs[k] == 0 && self.adjacents[k] == 0 && self.gaps[k] == 0
    }
}

/// Taking a block once more adds its tiles and its worth.
pub proof fn lemma_plus(d: Decomposition, b: Block)
    requires
        d.wf(),
        b.valid(),
    ensures
        d.plus(b).wf(),
        d.plus(b).count(b) == d.count(b) + 1,
        forall|k: int| 0 <= k < 34 ==> #[trigger] d.plus(b).uses(k) == d.uses(k) + b.tiles(k),
        d.plus(b).worth() == d.worth() + b.worth(),
        d.plus(b).blocks3() == d.blocks3() + if b.is_three() { 1int } else { 0 },
        d.plus(b).blocks2() == d.blocks2() + if b.is_three() { 0int } else { 1 },
{
    lemma_total_update(d.triplets, b.at(), d.triplets[b.at()] + 1);
    lemma_total_update(d.runs, b.at(), d.runs[b.at()] + 1);
    lemma_total_update(d.pairs, b.at(), d.pairs[b.at()] + 1);
    lemma_total_update(d.adjacents, b.at(), d.adjacents[b.at()] + 1);
    lemma_total_update(d.gaps, b.at(), d.gaps[b.at()] + 1);
}

/// Taking a block once less gives back its tiles and its worth.
pub proof fn lemma_minus(d: Decomposition, b: Block)
    requires
        d.wf(),
        b.valid(),
        d.count(b) > 0,
    ensures
        d.minus(b).wf(),
        d.minus(b).count(b) == d.count(b) - 1,
        forall|k: int| 0 <= k < 34 ==> #[trigger] d.minus(b).uses(k) == d.uses(k) - b.tiles(k),
        d.minus(b).worth() == d.worth() - b.worth(),
        d.minus(b).blocks3() == d.blocks3() - if b.is_three() { 1int } else { 0 },
        d.minus(b).blocks2() == d.blocks2() - if b.is_three() { 0int } else { 1 },
{
    lemma_total_update(d.triplets, b.at(), (d.triplets[b.at()] - 1) as nat);
    lemma_total_update(d.runs, b.at(), (d.runs[b.at()] - 1) as nat);
    lemma_total_update(d.pairs, b.at(), (d.pairs[b.at()] - 1) as nat);
    lemma_total_update(d.adjacents, b.at(), (d.adjacents[b.at()] - 1) as nat);
    lemma_total_update(d.gaps, b.at(), (d.gaps[b.at()] - 1) as nat);
}

/// The choice of no block is well formed, takes no tile and is worth nothing.
pub proof fn lemma_none()
    ensures
        Decomposition::none().wf(),
        forall|k: int| 0 <= k < 34 ==> #[trigger] Decomposition::none().uses(k) == 0,
        Decomposition::none().blocks3() == 0,
        Decomposition::none().blocks2() == 0,
        Decomposition::none().worth() == 0,
        forall|idx: int| #[trigger] Decomposition::none().threes_from(idx),
        forall|idx: int| #[trigger] Decomposition::none().twos_from(idx),
{
    let d = Decomposition::none();
    lemma_sum_zero(d.triplets, 34);
    lemma_sum_zero(d.runs, 34);
    lemma_sum_zero(d.pairs, 34);
    lemma_sum_zero(d.adjacents, 34);
    lemma_sum_zero(d.gaps, 34);
}

/// A choice that takes no three-tile block has none to count, and one that
/// takes no two-tile block has none either.
pub proof fn lemma_nothing_from(d: Decomposition)
    requires
        d.wf(),
    ensures
        d.threes_from(34) ==> d.blocks3() == 0,
        d.twos_from(34) ==> d.blocks2() == 0,
{
    if d.threes_from(34) {
        assert forall|k: int| 0 <= k < 34 implies d.triplets[k] == 0 by {}
        assert forall|k: int| 0 <= k < 34 implies d.runs[k] == 0 by {}
        lemma_sum_zero(d.triplets, 34);
        lemma_sum_zero(d.runs, 34);
    }
    if d.twos_from(34) {
        assert forall|k: int| 0 <= k < 34 implies d.pairs[k] == 0 by {}
        assert forall|k: int| 0 <= k < 34 implies d.adjacents[k] == 0 by {}
        assert forall|k: int| 0 <= k < 34 implies d.gaps[k] == 0 by {}
        lemma_sum_zero(d.pairs, 34);
        lemma_sum_zero(d.adjacents, 34);
        lemma_sum_zero(d.gaps, 34);
    }
}

/// Taking a block out of a table takes as many tiles off its total as the
/// block has.
pub proof fn lemma_total_without(c: Seq<nat>, b: Block)
    requires
        holds(c, b),
    ensures
        total(without(c, b)) + b.size() == total(c),
        without(c, b).len() == 34,
{
    let a = b.at();
    assert(c[a] >= b.tiles(a));
    match b {
        Block::Triplet(_) => {
            lemma_total_update(c, a, (c[a] - 3) as nat);
            assert(without(c, b) =~= c.update(a, (c[a] - 3) as nat));
        },
        Block::Pair(_) => {
            lemma_total_update(c, a, (c[a] - 2) as nat);
            assert(without(c, b) =~= c.update(a, (c[a] - 2) as nat));
        },
        Block::Adjacent(_) => {
            assert(c[a + 1] >= b.tiles(a + 1));
            let c1 = c.update(a, (c[a] - 1) as nat);
            lemma_total_update(c, a, (c[a] - 1) as nat);
            lemma_total_update(c1, a + 1, (c[a + 1] - 1) as nat);
            assert(without(c, b) =~= c1.update(a + 1, (c[a + 1] - 1) as nat));
        },
        Block::Gap(_) => {
            assert(c[a + 2] >= b.tiles(a + 2));
            let c1 = c.update(a, (c[a] - 1) as nat);
            lemma_total_update(c, a, (c[a] - 1) as nat);
            lemma_total_update(c1, a + 2, (c[a + 2] - 1) as nat);
            assert(without(c, b) =~= c1.update(a + 2, (c[a + 2] - 1) as nat));
        },
        Block::Run(_) => {
            assert(c[a + 1] >= b.tiles(a + 1));
            assert(c[a + 2] >= b.tiles(a + 2));
            let c1 = c.update(a, (c[a] - 1) as nat);
            let c2 = c1.update(a + 1, (c[a + 1] - 1) as nat);
            lemma_total_update(c, a, (c[a] - 1) as nat);
            lemma_total_update(c1, a + 1, (c[a + 1] - 1) as nat);
            lemma_total_update(c2, a + 2, (c[a + 2] - 1) as nat);
            assert(without(c, b) =~= c2.update(a + 2, (c[a + 2] - 1) as nat));
        },
    }
}

/// A block that a fitting choice takes is held by the table, and the choice
/// with that block taken once less fits the table without the block.
pub proof fn lemma_fits_minus(d: Decomposition, b: Block, c: Seq<nat>)
    requires
        d.fits(c),
        b.valid(),
        d.count(b) > 0,
    ensures
        holds(c, b),
        d.minus(b).fits(without(c, b)),
        d.minus(b).worth() + b.worth() == d.worth(),
        forall|idx: int| d.threes_from(idx) ==> #[trigger] d.minus(b).threes_from(idx),
        forall|idx: int| d.twos_from(idx) ==> #[trigger] d.minus(b).twos_from(idx),
{
    lemma_minus(d, b);
    assert forall|k: int| 0 <= k < 34 implies c[k] >= #[trigger] b.tiles(k) by {
        assert(d.uses(k) <= c[k]);
        assert(d.minus(b).uses(k) == d.uses(k) - b.tiles(k));
    }
    assert forall|k: int| 0 <= k < 34 implies #[trigger] d.minus(b).uses(k) <= without(c, b)[k] by {
        assert(d.uses(k) <= c[k]);
    }
    assert forall|idx: int| d.threes_from(idx) implies #[trigger] d.minus(b).threes_from(idx) by {
        let n = d.minus(b);
        assert forall|k: int|
            #![trigger n.triplets[k]]
            #![trigger n.runs[k]]
            0 <= k < idx && k < 34 implies n.triplets[k] == 0 && n.runs[k] == 0 by {
            assert(d.triplets[k] == 0 && d.runs[k] == 0);
        }
    }
    assert forall|idx: int| d.twos_from(idx) implies #[trigger] d.minus(b).twos_from(idx) by {
        let n = d.minus(b);
        assert forall|k: int|
            #![trigger n.pairs[k]]
            #![trigger n.adjacents[k]]
            #![trigger n.gaps[k]]
            0 <= k < idx && k < 34 implies n.pairs[k] == 0 && n.adjacents[k] == 0 && n.gaps[k] == 0 by {
            assert(d.pairs[k] == 0 && d.adjacents[k] == 0 && d.gaps[k] == 0);
        }
    }
}

/// A choice that fits the table without a block fits the whole table when the
/// block is taken once more.
pub proof fn lemma_fits_plus(e: Decomposition, b: Block, c: Seq<nat>)
    requires
        holds(c, b),
        e.fits(without(c, b)),
    ensures
        e.plus(b).fits(c),
        e.plus(b).count(b) > 0,
        e.plus(b).worth() == e.worth() + b.worth(),
        forall|idx: int|
            e.threes_from(idx) && (b.is_three() ==> idx <= b.at()) ==> #[trigger] e.plus(b).threes_from(idx),
        forall|idx: int|
            e.twos_from(idx) && (!b.is_three() ==> idx <= b.at()) ==> #[trigger] e.plus(b).twos_from(idx),
{
    lemma_plus(e, b);
    assert forall|k: int| 0 <= k < 34 implies #[trigger] e.plus(b).uses(k) <= c[k] by {
        assert(e.uses(k) <= without(c, b)[k]);
        assert(c[k] >= b.tiles(k));
    }
    assert forall|idx: int|
        e.threes_from(idx) && (b.is_three() ==> idx <= b.at()) implies #[trigger] e.plus(b).threes_from(idx) by {
        let n = e.plus(b);
        assert forall|k: int|
            #![trigger n.triplets[k]]
            #![trigger n.runs[k]]
            0 <= k < idx && k < 34 implies n.triplets[k] == 0 && n.runs[k] == 0 by {
            assert(e.triplets[k] == 0 && e.runs[k] == 0);
        }
    }
    assert forall|idx: int|
        e.twos_from(idx) && (!b.is_three() ==> idx <= b.at()) implies #[trigger] e.plus(b).twos_from(idx) by {
        let n = e.plus(b);
        assert forall|k: int|
            #![trigger n.pairs[k]]
            #![trigger n.adjacents[k]]
            #![trigger n.gaps[k]]
            0 <= k < idx && k < 34 implies n.pairs[k] == 0 && n.adjacents[k] == 0 && n.gaps[k] == 0 by {
            assert(e.pairs[k] == 0 && e.adjacents[k] == 0 && e.gaps[k] == 0);
        }
    }
}

/// Whether `v` is the least shanten number over the choices of blocks that fit
/// the table `c`.
pub open spec fn is_normal_shanten(c: Seq<nat>, v: int) -> bool {
    &&& exists|d: Decomposition| #[trigger] d.fits(c) && d.shanten() == v
    &&& forall|d: Decomposition| #[trigger] d.fits(c) ==> v <= d.shanten()
}

/// The shanten number of the table `c` towards four blocks of three and a
/// pair: the least over all choices of blocks that fit `c`.
pub open spec fn normal_shanten(c: Seq<nat>) -> int {
    choose|v: int| is_normal_shanten(c, v)
}

/// There is only one least shanten number.
pub proof fn lemma_normal_shanten_unique(c: Seq<nat>, v: int)
    requires
        is_normal_shanten(c, v),
    ensures
        normal_shanten(c) == v,
{
    let w = normal_shanten(c);
    assert(is_normal_shanten(c, w));
    let dv = choose|d: Decomposition| #[trigger] d.fits(c) && d.shanten() == v;
    let dw = choose|d: Decomposition| #[trigger] d.fits(c) && d.shanten() == w;
    assert(v <= dw.shanten());
    assert(w <= dv.shanten());
}

} // verus!
