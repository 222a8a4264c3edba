use vstd::prelude::*;
use core::cmp::Ordering;
use crate::hand::Hand;
use crate::hand_info::closed_forms::{
    is_orphan, kinds_with, orphans_with, seven_pairs_shanten, thirteen_orphans_shanten,
};
use crate::hand_info::decomposition::{holds, lemma_total_without, normal_shanten, without, Block};
use crate::hand_info::search::{
    least_from, least_of_twos, least_with_three, lemma_head_branch, lemma_normal_form,
    lemma_search_joined, lemma_three_absent, lemma_three_branch, lemma_three_done,
    lemma_three_start, lemma_three_step, lemma_two_absent, lemma_two_branch, lemma_two_done,
    lemma_two_start, lemma_two_step, threes_attained, threes_covered, twos_attained,
    twos_covered,
};
use crate::hand_info::independent::{
    lemma_lone_run, lemma_lone_runs_apart, lemma_lone_single, lemma_lone_triplet, lemma_reduced_chain,
    lemma_reduced_same, lemma_scan_agrees, lemma_scan_step, lemma_total_without_run_kinds,
    lone_run, lone_runs, lone_single, lone_singles, lone_triplet, lone_triplets, reduced,
    scanned, without_all_lone_runs, without_lone_runs, without_lone_singles,
    without_lone_triplets, without_run_kinds,
};
use crate::hand_info::winning_hand::WinningHandForm;
use crate::counts::{counts_of, isolated, lemma_total_update, total};
use crate::tile::{has_neighbor, Tile};

verus! {

/// The shanten number of a hand, and the winning shape it was counted towards.
#[derive(Debug)]
pub struct HandAnalyzer {
    /// The least number of tiles to exchange before the hand is ready: 0 for a
    /// ready hand, -1 for a complete one.
    pub shanten: i32,
    /// The winning shape that `shanten` is counted towards.
    pub form: WinningHandForm,
}

impl Eq for HandAnalyzer {

}

impl PartialEq for HandAnalyzer {
    /// Two results are equal when the shanten numbers are, whatever the shape.
    fn eq(&self, other: &Self) -> (equal: bool) {
        self.shanten == other.shanten
    }
}

impl vstd::std_specs::cmp::PartialEqSpecImpl for HandAnalyzer {
    open spec fn obeys_eq_spec() -> bool {
        true
    }

    open spec fn eq_spec(&self, other: &Self) -> bool {
        self.shanten == other.shanten
    }
}

impl PartialOrd for HandAnalyzer {
    /// Results are ordered by the shanten number, whatever the shape.
    fn partial_cmp(&self, other: &Self) -> (order: Option<Ordering>) {
        if self.shanten < other.shanten {
            Some(Ordering::Less)
        } else if self.shanten > other.shanten {
            Some(Ordering::Greater)
        } else {
            Some(Ordering::Equal)
        }
    }
}

impl vstd::std_specs::cmp::PartialOrdSpecImpl for HandAnalyzer {
    open spec fn obeys_partial_cmp_spec() -> bool {
        true
    }

    open spec fn partial_cmp_spec(&self, other: &Self) -> Option<Ordering> {
        if self.shanten < other.shanten {
            Some(Ordering::Less)
        } else if self.shanten > other.shanten {
            Some(Ordering::Greater)
        } else {
            Some(Ordering::Equal)
        }
    }
}

/// Shanten number of the table `c` towards the given winning shape.
pub open spec fn shanten_by_form(c: Seq<nat>, form: WinningHandForm) -> int {
    match form {
        WinningHandForm::SevenPairs => seven_pairs_shanten(c),
        WinningHandForm::ThirteenOrphens => thirteen_orphans_shanten(c),
        WinningHandForm::Normal => normal_shanten(c),
    }
}

/// The least of the three shanten numbers of the table `c`.
pub open spec fn least_shanten(c: Seq<nat>) -> int {
    let sp = seven_pairs_shanten(c);
    let to = thirteen_orphans_shanten(c);
    let normal = normal_shanten(c);
    if sp <= to && sp <= normal {
        sp
    } else if to <= normal {
        to
    } else {
        normal
    }
}

/// The least of the three shanten numbers is one of them, and none of them
/// is less.
pub proof fn lemma_least_shanten(c: Seq<nat>)
    ensures
        least_shanten(c) <= seven_pairs_shanten(c),
        least_shanten(c) <= thirteen_orphans_shanten(c),
        least_shanten(c) <= normal_shanten(c),
        least_shanten(c) == seven_pairs_shanten(c) || least_shanten(c) == thirteen_orphans_shanten(c)
            || least_shanten(c) == normal_shanten(c),
        least_shanten(c) == shanten_by_form(c, nearest_form(c)),
{
}

/// The winning shape that the table `c` is nearest to. Of shapes equally
/// near, seven pairs comes before thirteen orphans, and both before the
/// normal shape.
pub open spec fn nearest_form(c: Seq<nat>) -> WinningHandForm {
    let sp = seven_pairs_shanten(c);
    let to = thirteen_orphans_shanten(c);
    let normal = normal_shanten(c);
    if sp <= to && sp <= normal {
        WinningHandForm::SevenPairs
    } else if to <= normal {
        WinningHandForm::ThirteenOrphens
    } else {
        WinningHandForm::Normal
    }
}

impl HandAnalyzer {
    /// The shanten number of the hand: the least of those towards seven
    /// pairs, thirteen orphans and the normal shape, with the shape it
    /// belongs to.
    pub fn calc(hand: &Hand) -> (result: HandAnalyzer)
        ensures
            result.shanten == least_shanten(hand.counts()),
            result.form == nearest_form(hand.counts()),
            result.shanten == shanten_by_form(hand.counts(), result.form),
    {
        let sp = HandAnalyzer::calc_by_form(hand, WinningHandForm::SevenPairs);
        let to = HandAnalyzer::calc_by_form(hand, WinningHandForm::ThirteenOrphens);
        let normal = HandAnalyzer::calc_by_form(hand, WinningHandForm::Normal);
        let first = if sp.shanten <= to.shanten { sp } else { to };
        if first.shanten <= normal.shanten { first } else { normal }
    }

    /// The shanten number of the hand towards the given winning shape.
    pub fn calc_by_form(hand: &Hand, form: WinningHandForm) -> (result: HandAnalyzer)
        ensures
            result.form == form,
            result.shanten == shanten_by_form(hand.counts(), form),
    {
        match form {
            WinningHandForm::SevenPairs => HandAnalyzer {
                shanten: HandAnalyzer::calc_seven_pairs(hand),
                form: WinningHandForm::SevenPairs,
            },
            WinningHandForm::ThirteenOrphens => HandAnalyzer {
                shanten: HandAnalyzer::calc_thirteen_orphens(hand),
                form: WinningHandForm::ThirteenOrphens,
            },
            WinningHandForm::Normal => HandAnalyzer {
                shanten: HandAnalyzer::calc_normal_form(hand),
                form: WinningHandForm::Normal,
            },
        }
    }

    /// The shanten number of the hand towards seven pairs.
    pub(crate) fn calc_seven_pairs(hand: &Hand) -> (shanten: i32)
        ensures
            shanten == seven_pairs_shanten(hand.counts()),
    {
        let mut pair: u32 = 0;
        let mut kind: u32 = 0;
        let t = hand.summarize_tiles();
        let mut i: usize = 0;
        while i < Tile::LEN
            invariant
                i <= 34,
                t@.len() == 34,
                pair == kinds_with(counts_of(t@), 2, i as int),
                kind == kinds_with(counts_of(t@), 1, i as int),
                pair <= i,
                kind <= i,
            decreases 34 - i,
        {
            if t[i] > 0 {
                kind += 1;
                if t[i] >= 2 {
                    pair += 1;
                }
            }
            i += 1;
        }
        let num_to_win: i32 = 7 - pair as i32 + if kind < 7 { 7 - kind as i32 } else { 0 };
        num_to_win - 1
    }

    /// The shanten number of the hand towards thirteen orphans.
    pub(crate) fn calc_thirteen_orphens(hand: &Hand) -> (shanten: i32)
        ensures
            shanten == thirteen_orphans_shanten(hand.counts()),
    {
        let mut pair: u32 = 0;
        let mut kind: u32 = 0;
        let t = hand.summarize_tiles();
        let mut i: u32 = 0;
        while i < 34
            invariant
                i <= 34,
                t@.len() == 34,
                pair == orphans_with(counts_of(t@), 2, i as int),
                kind == orphans_with(counts_of(t@), 1, i as int),
                pair <= i,
                kind <= i,
            decreases 34 - i,
        {
            if is_terminal_or_honor(i) && t[i as usize] > 0 {
                kind = kind + 1;
                if t[i as usize] >= 2 {
                    pair += 1;
                }
            }
            i += 1;
        }
        let num_to_win: i32 = 14 - kind as i32 - if pair > 0 { 1 } else { 0 };
        num_to_win - 1
    }

    /// The shanten number of the hand towards four blocks of three and a
    /// pair: the least over all ways to choose blocks from its tiles.
    pub(crate) fn calc_normal_form(hand: &Hand) -> (shanten: i32)
        ensures
            shanten == normal_shanten(hand.counts()),
    {
        let mut t = hand.summarize_tiles();
        let ghost c0 = counts_of(t@);
        let mut shanten: i32 = 100;

        // what stands alone is set aside first
        let independent_same3 = HandAnalyzer::count_independent_same_3(&mut t);
        let ghost c1 = counts_of(t@);
        let independent_sequential3 = HandAnalyzer::count_independent_sequential_3(&mut t);
        let ghost c2 = counts_of(t@);
        HandAnalyzer::count_independent_single(&mut t);
        let ghost c = counts_of(t@);
        let ghost gain = 2 * (independent_same3 + independent_sequential3);
        let ghost leaf = 8 - gain;
        proof {
            lemma_reduced_chain(c0, c1, c2, 2 * independent_same3, 2 * independent_sequential3);
            lemma_reduced_chain(c0, c2, c, gain, 0);
        }

        // with a pair set aside as the head
        let mut i: u32 = 0;
        proof {
            lemma_three_start(c, 0, leaf, 100);
        }
        while i < 34
            invariant
                i <= 34,
                t@.len() == 34,
                c == counts_of(t@),
                gain == 2 * (independent_same3 + independent_sequential3),
                leaf == 8 - gain,
                gain + total(c) <= 14 + 4 * Hand::MAX_MELDS,
                threes_attained(c, 0, leaf, 100, shanten as int),
            decreases 34 - i,
        {
            if t[i as usize] >= 2 {
                let ghost head = Block::Pair(i as int);
                let ghost entered = shanten as int;
                let ghost kept = t@;
                proof {
                    assert(holds(c, head));
                    lemma_total_without(c, head);
                }
                t[i as usize] -= 2;
                assert(counts_of(t@) =~= without(c, head));
                shanten = count_normal_shanten_by_recursive(
                    0,
                    independent_same3,
                    independent_sequential3,
                    0,
                    0,
                    1,
                    0,
                    &mut t,
                    shanten,
                );
                t[i as usize] += 2;
                proof {
                    assert(t@ =~= kept);
                    lemma_head_branch(c, head, leaf, 100, entered, shanten as int);
                }
            }
            i += 1;
        }

        // without a head
        let ghost with_head = shanten as int;
        shanten = count_normal_shanten_by_recursive(
            0,
            independent_same3,
            independent_sequential3,
            0,
            0,
            0,
            0,
            &mut t,
            shanten,
        );
        proof {
            lemma_normal_form(c0, c, gain, with_head, shanten as int);
        }
        shanten
    }

    /// Takes one triplet from every kind that holds a lone triplet, and returns
    /// how many were taken. What is left can make blocks worth 2 less for each.
    fn count_independent_same_3(summarized_hand: &mut Vec<u32>) -> (result: u32)
        requires
            old(summarized_hand).len() == 34,
        ensures
            final(summarized_hand).len() == 34,
            counts_of(final(summarized_hand)@) == without_lone_triplets(counts_of(old(summarized_hand)@)),
            result == lone_triplets(counts_of(old(summarized_hand)@), 34),
            reduced(counts_of(old(summarized_hand)@), counts_of(final(summarized_hand)@), 2 * result),
            total(counts_of(final(summarized_hand)@)) + 3 * result == total(counts_of(old(summarized_hand)@)),
    {
        let ghost c0 = counts_of(summarized_hand@);
        let mut result: u32 = 0;
        let mut i: u32 = 0;
        proof {
            lemma_reduced_same(c0);
        }
        while i < 34
            invariant
                i <= 34,
                result <= i,
                summarized_hand.len() == 34,
                c0 == counts_of(old(summarized_hand)@),
                forall|k: int|
                    0 <= k < 34 ==> #[trigger] summarized_hand@[k] as nat == if k < i && lone_triplet(c0, k) {
                        (c0[k] - 3) as nat
                    } else {
                        c0[k]
                    },
                result == lone_triplets(c0, i as int),
                reduced(c0, counts_of(summarized_hand@), 2 * result),
                total(counts_of(summarized_hand@)) + 3 * result == total(c0),
            decreases 34 - i,
        {
            let ghost cur = counts_of(summarized_hand@);
            let alone = stands_alone(summarized_hand, i);
            proof {
                if has_neighbor(i as int, -2) {
                    assert(summarized_hand@[i - 2] as nat == cur[i - 2]);
                }
                if has_neighbor(i as int, -1) {
                    assert(summarized_hand@[i - 1] as nat == cur[i - 1]);
                }
                assert((cur[i as int] >= 3 && alone) == lone_triplet(c0, i as int));
            }
            if summarized_hand[i as usize] >= 3 && alone {
                proof {
                    lemma_lone_triplet(cur, i as int);
                    lemma_total_update(cur, i as int, (cur[i as int] - 3) as nat);
                }
                summarized_hand[i as usize] -= 3;
                result += 1;
                proof {
                    let next = counts_of(summarized_hand@);
                    assert(next =~= cur.update(i as int, (cur[i as int] - 3) as nat));
                    lemma_reduced_chain(c0, cur, next, 2 * (result - 1), 2);
                }
            }
            i += 1;
        }
        assert(counts_of(summarized_hand@) =~= without_lone_triplets(c0));
        result
    }

    /// Takes out the runs that stand alone, once or twice on the same three
    /// kinds: first those that stand twice, then those that stand once.
    /// Returns how many runs were taken. What is left can make blocks worth 2
    /// less for each.
    fn count_independent_sequential_3(summarized_hand: &mut Vec<u32>) -> (result: u32)
        requires
            old(summarized_hand).len() == 34,
        ensures
            final(summarized_hand).len() == 34,
            counts_of(final(summarized_hand)@) == without_all_lone_runs(counts_of(old(summarized_hand)@)),
            result == 2 * lone_runs(counts_of(old(summarized_hand)@), 2, 34) + lone_runs(
                counts_of(old(summarized_hand)@),
                1,
                34,
            ),
            reduced(counts_of(old(summarized_hand)@), counts_of(final(summarized_hand)@), 2 * result),
            total(counts_of(final(summarized_hand)@)) + 3 * result == total(counts_of(old(summarized_hand)@)),
    {
        let ghost c0 = counts_of(summarized_hand@);
        let mut result: u32 = 0;
        let mut i: u32 = 2;
        proof {
            lemma_reduced_same(c0);
        }
        while i >= 1
            invariant
                i <= 2,
                summarized_hand.len() == 34,
                c0 == counts_of(old(summarized_hand)@),
                result <= 68 * (2 - i),
                i == 2 ==> result == 0 && counts_of(summarized_hand@) == c0,
                i == 1 ==> result == 2 * lone_runs(c0, 2, 34) && counts_of(summarized_hand@)
                    == without_lone_runs(c0, 2),
                i == 0 ==> result == 2 * lone_runs(c0, 2, 34) + lone_runs(without_lone_runs(c0, 2), 1, 34)
                    && counts_of(summarized_hand@) == without_lone_runs(without_lone_runs(c0, 2), 1),
                reduced(c0, counts_of(summarized_hand@), 2 * result),
                total(counts_of(summarized_hand@)) + 3 * result == total(c0),
            decreases i,
        {
            let ghost cur = counts_of(summarized_hand@);
            let taken = take_lone_runs(summarized_hand, i);
            proof {
                lemma_reduced_chain(c0, cur, counts_of(summarized_hand@), 2 * result, 2 * taken);
            }
            result += taken;
            i -= 1;
        }
        proof {
            lemma_lone_runs_apart(c0);
        }
        result
    }

    /// Takes every lone single tile out of the table, and returns how many were
    /// taken. What is left can make blocks worth as much as before.
    fn count_independent_single(summarized_hand: &mut Vec<u32>) -> (result: u32)
        requires
            old(summarized_hand).len() == 34,
        ensures
            final(summarized_hand).len() == 34,
            counts_of(final(summarized_hand)@) == without_lone_singles(counts_of(old(summarized_hand)@)),
            result == lone_singles(counts_of(old(summarized_hand)@), 34),
            reduced(counts_of(old(summarized_hand)@), counts_of(final(summarized_hand)@), 0),
            total(counts_of(final(summarized_hand)@)) + result == total(counts_of(old(summarized_hand)@)),
    {
        let ghost c0 = counts_of(summarized_hand@);
        let mut result: u32 = 0;
        let mut i: u32 = 0;
        proof {
            lemma_reduced_same(c0);
        }
        while i < 34
            invariant
                i <= 34,
                result <= i,
                summarized_hand.len() == 34,
                c0 == counts_of(old(summarized_hand)@),
                forall|k: int|
                    0 <= k < 34 ==> #[trigger] summarized_hand@[k] as nat == if k < i && lone_single(c0, k) {
                        0
                    } else {
                        c0[k]
                    },
                result == lone_singles(c0, i as int),
                reduced(c0, counts_of(summarized_hand@), 0),
                total(counts_of(summarized_hand@)) + result == total(c0),
            decreases 34 - i,
        {
            let ghost cur = counts_of(summarized_hand@);
            let alone = stands_alone(summarized_hand, i);
            proof {
                if has_neighbor(i as int, -2) {
                    assert(summarized_hand@[i - 2] as nat == cur[i - 2]);
                }
                if has_neighbor(i as int, -1) {
                    assert(summarized_hand@[i - 1] as nat == cur[i - 1]);
                }
                assert((cur[i as int] == 1 && alone) == lone_single(c0, i as int));
            }
            if summarized_hand[i as usize] == 1 && alone {
                proof {
                    lemma_lone_single(cur, i as int);
                    lemma_total_update(cur, i as int, 0);
                }
                summarized_hand[i as usize] -= 1;
                result += 1;
                proof {
                    let next = counts_of(summarized_hand@);
                    assert(next =~= cur.update(i as int, 0));
                    lemma_reduced_chain(c0, cur, next, 0, 0);
                }
            }
            i += 1;
        }
        assert(counts_of(summarized_hand@) =~= without_lone_singles(c0));
        result
    }
}

/// Whether kind `i` is a terminal or an honor.
fn is_terminal_or_honor(i: u32) -> (b: bool)
    ensures
        b == is_orphan(i as int),
{
    i == Tile::M1 || i == Tile::M9 || i == Tile::P1 || i == Tile::P9 || i == Tile::S1 || i == Tile::S9 || (
    Tile::Z1 <= i && i <= Tile::Z7)
}

/// Shanten number of a hand in which the given numbers of blocks have been
/// found: 8, less 2 for each block of three tiles, less 1 for each block of two.
pub open spec fn leaf_shanten(
    independent_same3: u32,
    independent_sequential3: u32,
    same3: u32,
    sequential3: u32,
    same2: u32,
    sequential2: u32,
) -> int {
    8 - 2 * (independent_same3 + independent_sequential3 + same3 + sequential3) - (same2 + sequential2)
}

/// The blocks found so far, and those that the tiles left in `c` could still
/// make, keep the shanten number inside `i32`.
pub open spec fn within_budget(
    independent_same3: u32,
    independent_sequential3: u32,
    same3: u32,
    sequential3: u32,
    same2: u32,
    sequential2: u32,
    c: Seq<nat>,
) -> bool {
    2 * (independent_same3 + independent_sequential3 + same3 + sequential3) + same2 + sequential2 + total(c)
        <= i32::MAX
}

/// Whether kind `i` is a number kind whose suit also has the kind `off` ranks
/// above it.
fn reaches(i: u32, off: u32) -> (b: bool)
    requires
        off <= 2,
    ensures
        b == has_neighbor(i as int, off as int),
{
    i < 27 && i % 9 + off <= 8
}

/// The shanten number of a hand in which the given numbers of blocks have
/// been found.
fn calc_normal_shanten(
    independent_same3: u32,
    independent_sequential3: u32,
    same3: u32,
    sequential3: u32,
    same2: u32,
    sequential2: u32,
) -> (shanten: i32)
    requires
        2 * (independent_same3 + independent_sequential3 + same3 + sequential3) + same2 + sequential2
            <= i32::MAX,
    ensures
        shanten == leaf_shanten(
            independent_same3,
            independent_sequential3,
            same3,
            sequential3,
            same2,
            sequential2,
        ),
{
    let block3: u32 = independent_same3 + independent_sequential3 + same3 + sequential3;
    let block2: u32 = same2 + sequential2;
    8 - (block3 * 2 + block2) as i32
}

/// Tries every way to go on with pairs, adjacent pairs and gapped pairs whose
/// lowest kind is `idx` or later, the leaf at which none is taken included,
/// and returns the least shanten number met, or `shanten_min` if that is less.
fn count_2(
    idx: u32,
    independent_same3: u32,
    independent_sequential3: u32,
    same3: u32,
    sequential3: u32,
    same2: u32,
    sequential2: u32,
    summarized_hand: &mut Vec<u32>,
    shanten_min: i32,
) -> (result: i32)
    requires
        idx <= 34,
        old(summarized_hand).len() == 34,
        within_budget(
            independent_same3,
            independent_sequential3,
            same3,
            sequential3,
            same2,
            sequential2,
            counts_of(old(summarized_hand)@),
        ),
    ensures
        final(summarized_hand)@ == old(summarized_hand)@,
        least_of_twos(
            counts_of(old(summarized_hand)@),
            idx as int,
            leaf_shanten(independent_same3, independent_sequential3, same3, sequential3, same2, sequential2),
            shanten_min as int,
            result as int,
        ),
    decreases total(counts_of(old(summarized_hand)@)),
{
    let ghost c = counts_of(summarized_hand@);
    let ghost leaf = leaf_shanten(
        independent_same3,
        independent_sequential3,
        same3,
        sequential3,
        same2,
        sequential2,
    );
    let here = calc_normal_shanten(
        independent_same3,
        independent_sequential3,
        same3,
        sequential3,
        same2,
        sequential2,
    );
    let mut shanten: i32 = if here < shanten_min { here } else { shanten_min };
    proof {
        lemma_two_start(c, idx as int, leaf, shanten_min as int, shanten as int);
    }
    let mut i: u32 = idx;
    while i < 34
        invariant
            idx <= i <= 34,
            summarized_hand@ == old(summarized_hand)@,
            c == counts_of(summarized_hand@),
            c.len() == 34,
            leaf == leaf_shanten(
                independent_same3,
                independent_sequential3,
                same3,
                sequential3,
                same2,
                sequential2,
            ),
            within_budget(
                independent_same3,
                independent_sequential3,
                same3,
                sequential3,
                same2,
                sequential2,
                c,
            ),
            shanten <= leaf,
            twos_covered(c, idx as int, i as int, leaf, shanten as int),
            twos_attained(c, idx as int, leaf, shanten_min as int, shanten as int),
        decreases 34 - i,
    {
        let ghost pair = Block::Pair(i as int);
        let ghost adjacent = Block::Adjacent(i as int);
        let ghost gap = Block::Gap(i as int);
        let ghost before = shanten as int;
        if summarized_hand[i as usize] >= 2 {
            proof {
                assert(holds(c, pair));
                lemma_total_without(c, pair);
            }
            summarized_hand[i as usize] -= 2;
            assert(counts_of(summarized_hand@) =~= without(c, pair));
            let ghost entered = shanten as int;
            shanten = count_2(
                i,
                independent_same3,
                independent_sequential3,
                same3,
                sequential3,
                same2 + 1,
                sequential2,
                summarized_hand,
                shanten,
            );
            summarized_hand[i as usize] += 2;
            proof {
                assert(summarized_hand@ =~= old(summarized_hand)@);
                lemma_two_branch(c, pair, idx as int, leaf, shanten_min as int, entered, shanten as int);
            }
        } else {
            proof {
                assert(pair.tiles(i as int) == 2);
                lemma_two_absent(c, pair, leaf, shanten as int);
            }
        }
        let ghost after_pair = shanten as int;
        if reaches(i, 1) && summarized_hand[i as usize] >= 1 && summarized_hand[i as usize + 1] >= 1 {
            proof {
                assert(holds(c, adjacent));
                lemma_total_without(c, adjacent);
            }
            summarized_hand[i as usize] -= 1;
            summarized_hand[i as usize + 1] -= 1;
            assert(counts_of(summarized_hand@) =~= without(c, adjacent));
            let ghost entered = shanten as int;
            shanten = count_2(
                i,
                independent_same3,
                independent_sequential3,
                same3,
                sequential3,
                same2,
                sequential2 + 1,
                summarized_hand,
                shanten,
            );
            summarized_hand[i as usize] += 1;
            summarized_hand[i as usize + 1] += 1;
            proof {
                assert(summarized_hand@ =~= old(summarized_hand)@);
                lemma_two_branch(c, adjacent, idx as int, leaf, shanten_min as int, entered, shanten as int);
            }
        } else {
            proof {
                assert(adjacent.tiles(i as int) == 1 && adjacent.tiles(i + 1) == 1);
                lemma_two_absent(c, adjacent, leaf, shanten as int);
            }
        }
        let ghost after_adjacent = shanten as int;
        if reaches(i, 2) && summarized_hand[i as usize] >= 1 && summarized_hand[i as usize + 2] >= 1 {
            proof {
                assert(holds(c, gap));
                lemma_total_without(c, gap);
            }
            summarized_hand[i as usize] -= 1;
            summarized_hand[i as usize + 2] -= 1;
            assert(counts_of(summarized_hand@) =~= without(c, gap));
            let ghost entered = shanten as int;
            shanten = count_2(
                i,
                independent_same3,
                independent_sequential3,
                same3,
                sequential3,
                same2,
                sequential2 + 1,
                summarized_hand,
                shanten,
            );
            summarized_hand[i as usize] += 1;
            summarized_hand[i as usize + 2] += 1;
            proof {
                assert(summarized_hand@ =~= old(summarized_hand)@);
                lemma_two_branch(c, gap, idx as int, leaf, shanten_min as int, entered, shanten as int);
            }
        } else {
            proof {
                assert(gap.tiles(i as int) == 1 && gap.tiles(i + 2) == 1);
                lemma_two_absent(c, gap, leaf, shanten as int);
            }
        }
        proof {
            lemma_two_step(c, idx as int, i as int, leaf, before, after_pair, after_adjacent, shanten as int);
        }
        i += 1;
    }
    proof {
        lemma_two_done(c, idx as int, leaf, shanten_min as int, shanten as int);
    }
    shanten
}

/// Tries every way to go on from here: with triplets and runs whose lowest
/// kind is `idx` or later, and then with blocks of two tiles of any kind.
/// Returns the least shanten number met, or `shanten_min` if that is less, and
/// leaves the table as it found it.
fn count_normal_shanten_by_recursive(
    idx: u32,
    independent_same3: u32,
    independent_sequential3: u32,
    same3: u32,
    sequential3: u32,
    same2: u32,
    sequential2: u32,
    summarized_hand: &mut Vec<u32>,
    shanten_min: i32,
) -> (result: i32)
    requires
        idx <= 34,
        old(summarized_hand).len() == 34,
        within_budget(
            independent_same3,
            independent_sequential3,
            same3,
            sequential3,
            same2,
            sequential2,
            counts_of(old(summarized_hand)@),
        ),
    ensures
        final(summarized_hand)@ == old(summarized_hand)@,
        least_from(
            counts_of(old(summarized_hand)@),
            idx as int,
            leaf_shanten(independent_same3, independent_sequential3, same3, sequential3, same2, sequential2),
            shanten_min as int,
            result as int,
        ),
    decreases total(counts_of(old(summarized_hand)@)), 1int,
{
    let with_three = count_same_or_sequential_3(
        idx,
        independent_same3,
        independent_sequential3,
        same3,
        sequential3,
        same2,
        sequential2,
        summarized_hand,
        shanten_min,
    );
    let shanten = count_2(
        0,
        independent_same3,
        independent_sequential3,
        same3,
        sequential3,
        same2,
        sequential2,
        summarized_hand,
        with_three,
    );
    proof {
        lemma_search_joined(
            counts_of(summarized_hand@),
            idx as int,
            leaf_shanten(independent_same3, independent_sequential3, same3, sequential3, same2, sequential2),
            shanten_min as int,
            with_three as int,
            shanten as int,
        );
    }
    shanten
}

/// Tries every triplet and every run whose lowest kind is `idx` or later, and
/// after each goes on with the full search from that kind. Returns the least
/// shanten number met, or `shanten_min` if that is less, and leaves the table
/// as it found it.
fn count_same_or_sequential_3(
    idx: u32,
    independent_same3: u32,
    independent_sequential3: u32,
    same3: u32,
    sequential3: u32,
    same2: u32,
    sequential2: u32,
    summarized_hand: &mut Vec<u32>,
    shanten_min: i32,
) -> (result: i32)
    requires
        idx <= 34,
        old(summarized_hand).len() == 34,
        within_budget(
            independent_same3,
            independent_sequential3,
            same3,
            sequential3,
            same2,
            sequential2,
            counts_of(old(summarized_hand)@),
        ),
    ensures
        final(summarized_hand)@ == old(summarized_hand)@,
        least_with_three(
            counts_of(old(summarized_hand)@),
            idx as int,
            leaf_shanten(independent_same3, independent_sequential3, same3, sequential3, same2, sequential2),
            shanten_min as int,
            result as int,
        ),
    decreases total(counts_of(old(summarized_hand)@)), 0int,
{
    let ghost c = counts_of(summarized_hand@);
    let ghost leaf = leaf_shanten(
        independent_same3,
        independent_sequential3,
        same3,
        sequential3,
        same2,
        sequential2,
    );
    let mut shanten: i32 = shanten_min;
    let mut i: u32 = idx;
    proof {
        lemma_three_start(c, idx as int, leaf, shanten_min as int);
    }
    while i < 34
        invariant
            idx <= i <= 34,
            summarized_hand@ == old(summarized_hand)@,
            c == counts_of(summarized_hand@),
            c.len() == 34,
            leaf == leaf_shanten(
                independent_same3,
                independent_sequential3,
                same3,
                sequential3,
                same2,
                sequential2,
            ),
            within_budget(
                independent_same3,
                independent_sequential3,
                same3,
                sequential3,
                same2,
                sequential2,
                c,
            ),
            threes_covered(c, idx as int, i as int, leaf, shanten as int),
            threes_attained(c, idx as int, leaf, shanten_min as int, shanten as int),
        decreases 34 - i,
    {
        let ghost triplet = Block::Triplet(i as int);
        let ghost run = Block::Run(i as int);
        let ghost before = shanten as int;
        if summarized_hand[i as usize] >= 3 {
            proof {
                assert(holds(c, triplet));
                lemma_total_without(c, triplet);
            }
            summarized_hand[i as usize] -= 3;
            assert(counts_of(summarized_hand@) =~= without(c, triplet));
            let ghost entered = shanten as int;
            shanten = count_normal_shanten_by_recursive(
                i,
                independent_same3,
                independent_sequential3,
                same3 + 1,
                sequential3,
                same2,
                sequential2,
                summarized_hand,
                shanten,
            );
            summarized_hand[i as usize] += 3;
            proof {
                assert(summarized_hand@ =~= old(summarized_hand)@);
                lemma_three_branch(c, triplet, idx as int, leaf, shanten_min as int, entered, shanten as int);
            }
        } else {
            proof {
                assert(triplet.tiles(i as int) == 3);
                lemma_three_absent(c, triplet, leaf, shanten as int);
            }
        }
        let ghost after_triplet = shanten as int;
        if reaches(i, 2) && summarized_hand[i as usize] >= 1 && summarized_hand[i as usize + 1] >= 1
            && summarized_hand[i as usize + 2] >= 1 {
            proof {
                assert(holds(c, run));
                lemma_total_without(c, run);
            }
            summarized_hand[i as usize] -= 1;
            summarized_hand[i as usize + 1] -= 1;
            summarized_hand[i as usize + 2] -= 1;
            assert(counts_of(summarized_hand@) =~= without(c, run));
            let ghost entered = shanten as int;
            shanten = count_normal_shanten_by_recursive(
                i,
                independent_same3,
                independent_sequential3,
                same3,
                sequential3 + 1,
                same2,
                sequential2,
                summarized_hand,
                shanten,
            );
            summarized_hand[i as usize] += 1;
            summarized_hand[i as usize + 1] += 1;
            summarized_hand[i as usize + 2] += 1;
            proof {
                assert(summarized_hand@ =~= old(summarized_hand)@);
                lemma_three_branch(c, run, idx as int, leaf, shanten_min as int, entered, shanten as int);
            }
        } else {
            proof {
                assert(run.tiles(i as int) == 1 && run.tiles(i + 1) == 1 && run.tiles(i + 2) == 1);
                lemma_three_absent(c, run, leaf, shanten as int);
            }
        }
        proof {
            lemma_three_step(c, idx as int, i as int, leaf, before, after_triplet, shanten as int);
        }
        i += 1;
    }
    proof {
        lemma_three_done(c, idx as int, leaf, shanten_min as int, shanten as int);
    }
    shanten
}

/// Whether the table holds no tile of the kinds one or two ranks away from
/// kind `i`.
fn stands_alone(summarized_hand: &Vec<u32>, i: u32) -> (b: bool)
    requires
        summarized_hand.len() == 34,
        i < 34,
    ensures
        b == isolated(counts_of(summarized_hand@), i as int),
{
    if i >= 27 {
        return true;
    }
    let rank: u32 = i % 9;
    (rank < 2 || summarized_hand[i as usize - 2] == 0) && (rank < 1 || summarized_hand[i as usize - 1]
        == 0) && (rank > 7 || summarized_hand[i as usize + 1] == 0) && (rank > 6
        || summarized_hand[i as usize + 2] == 0)
}

/// Whether `n` lone runs start at kind `l`.
fn is_lone_run(summarized_hand: &Vec<u32>, l: u32, n: u32) -> (b: bool)
    requires
        summarized_hand.len() == 34,
        l < 34,
    ensures
        b == lone_run(counts_of(summarized_hand@), l as int, n as nat),
{
    if !reaches(l, 2) {
        return false;
    }
    let rank: u32 = l % 9;
    summarized_hand[l as usize] == n && summarized_hand[l as usize + 1] == n && summarized_hand[l as usize
        + 2] == n && (rank < 2 || summarized_hand[l as usize - 2] == 0) && (rank < 1
        || summarized_hand[l as usize - 1] == 0) && (rank > 5 || summarized_hand[l as usize + 3] == 0)
        && (rank > 4 || summarized_hand[l as usize + 4] == 0)
}

/// Takes out the lone runs that stand `n` times on the same three kinds, and
/// returns how many runs were taken. What is left can make blocks worth 2
/// less for each.
fn take_lone_runs(summarized_hand: &mut Vec<u32>, n: u32) -> (result: u32)
    requires
        old(summarized_hand).len() == 34,
        1 <= n <= 2,
    ensures
        final(summarized_hand).len() == 34,
        counts_of(final(summarized_hand)@) == without_lone_runs(counts_of(old(summarized_hand)@), n as nat),
        result == n * lone_runs(counts_of(old(summarized_hand)@), n as nat, 34),
        result <= 68,
        reduced(counts_of(old(summarized_hand)@), counts_of(final(summarized_hand)@), 2 * result),
        total(counts_of(final(summarized_hand)@)) + 3 * result == total(counts_of(old(summarized_hand)@)),
{
    let ghost c0 = counts_of(summarized_hand@);
    let mut result: u32 = 0;
    let mut l: u32 = 0;
    proof {
        lemma_reduced_same(c0);
    }
    while l < 34
        invariant
            l <= 34,
            1 <= n <= 2,
            result <= 2 * l,
            summarized_hand.len() == 34,
            c0 == counts_of(old(summarized_hand)@),
            scanned(c0, counts_of(summarized_hand@), n as nat, l as int),
            n == 1 ==> result == lone_runs(c0, 1, l as int),
            n == 2 ==> result == 2 * lone_runs(c0, 2, l as int),
            reduced(c0, counts_of(summarized_hand@), 2 * result),
            total(counts_of(summarized_hand@)) + 3 * result == total(c0),
        decreases 34 - l,
    {
        let ghost cur = counts_of(summarized_hand@);
        let found = is_lone_run(summarized_hand, l, n);
        proof {
            lemma_scan_agrees(c0, cur, n as nat, l as int);
        }
        if found {
            proof {
                lemma_lone_run(cur, l as int, n as nat);
                lemma_total_without_run_kinds(cur, l as int, n as nat);
            }
            summarized_hand[l as usize] -= n;
            summarized_hand[l as usize + 1] -= n;
            summarized_hand[l as usize + 2] -= n;
            result += n;
            proof {
                let next = counts_of(summarized_hand@);
                assert(next =~= without_run_kinds(cur, l as int));
                lemma_reduced_chain(c0, cur, next, 2 * (result - n), 2 * n);
            }
        }
        proof {
            lemma_scan_step(c0, cur, counts_of(summarized_hand@), n as nat, l as int);
        }
        l += 1;
    }
    assert(counts_of(summarized_hand@) =~= without_lone_runs(c0, n as nat));
    result
}

} // verus!
