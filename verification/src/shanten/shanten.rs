use vstd::prelude::*;
use core::cmp::Ordering;
use crate::hand::Hand;
use crate::hand_info::hand_analyzer::{least_shanten, nearest_form, shanten_by_form, HandAnalyzer};
use crate::hand_info::closed_forms::{seven_pairs_shanten, thirteen_orphans_shanten};
use crate::hand_info::decomposition::normal_shanten;
use crate::hand_info::winning_hand::WinningHandForm;

verus! {

/// A shanten number, and the winning shape it was counted towards.
#[derive(Debug)]
pub struct Shanten {
    /// The least number of tiles to exchange before the hand is ready: 0 for a
    /// ready hand, -1 for a complete one.
    pub num: i32,
    /// The winning shape that `num` is counted towards.
    pub form: WinningHandForm,
}

impl Eq for Shanten {

}

impl PartialEq for Shanten {
    /// Two shanten numbers are equal when the numbers are, whatever the shape.
    fn eq(&self, other: &Self) -> (equal: bool) {
        self.num == other.num
    }
}

impl vstd::std_specs::cmp::PartialEqSpecImpl for Shanten {
    open spec fn obeys_eq_spec() -> bool {
        true
    }

    open spec fn eq_spec(&self, other: &Self) -> bool {
        self.num == other.num
    }
}

impl PartialOrd for Shanten {
    /// Shanten numbers are ordered by the number, whatever the shape.
    fn partial_cmp(&self, other: &Self) -> (order: Option<Ordering>) {
        if self.num < other.num {
            Some(Ordering::Less)
        } else if self.num > other.num {
            Some(Ordering::Greater)
        } else {
            Some(Ordering::Equal)
        }
    }
}

impl vstd::std_specs::cmp::PartialOrdSpecImpl for Shanten {
    open spec fn obeys_partial_cmp_spec() -> bool {
        true
    }

    open spec fn partial_cmp_spec(&self, other: &Self) -> Option<Ordering> {
        if self.num < other.num {
            Some(Ordering::Less)
        } else if self.num > other.num {
            Some(Ordering::Greater)
        } else {
            Some(Ordering::Equal)
        }
    }
}

impl Shanten {
    /// The shanten number of the hand: the least of those towards seven
    /// pairs, thirteen orphans and the normal shape, with the shape it
    /// belongs to.
    pub fn calc(hand: &Hand) -> (result: Shanten)
        ensures
            result.num == least_shanten(hand.counts()),
            result.form == nearest_form(hand.counts()),
            result.num == shanten_by_form(hand.counts(), result.form),
    {
        let sp = Shanten::calc_by_form(hand, WinningHandForm::SevenPairs);
        let to = Shanten::calc_by_form(hand, WinningHandForm::ThirteenOrphens);
        let normal = Shanten::calc_by_form(hand, WinningHandForm::Normal);
        let first = if sp.num <= to.num { sp } else { to };
        if first.num <= normal.num { first } else { normal }
    }

    /// The shanten number of the hand towards the given winning shape.
    pub fn calc_by_form(hand: &Hand, form: WinningHandForm) -> (result: Shanten)
        ensures
            result.form == form,
            result.num == shanten_by_form(hand.counts(), form),
    {
        match form {
            WinningHandForm::SevenPairs => Shanten {
                num: Shanten::calc_seven_pairs(hand),
                form: WinningHandForm::SevenPairs,
            },
            WinningHandForm::ThirteenOrphens => Shanten {
                num: Shanten::calc_thirteen_orphens(hand),
                form: WinningHandForm::ThirteenOrphens,
            },
            WinningHandForm::Normal => Shanten {
                num: Shanten::calc_normal_form(hand),
                form: WinningHandForm::Normal,
            },
        }
    }

    /// The shanten number of the hand towards seven pairs.
    fn calc_seven_pairs(hand: &Hand) -> (num: i32)
        ensures
            num == seven_pairs_shanten(hand.counts()),
    {
        HandAnalyzer::calc_seven_pairs(hand)
    }

    /// The shanten number of the hand towards thirteen orphans.
    fn calc_thirteen_orphens(hand: &Hand) -> (num: i32)
        ensures
            num == thirteen_orphans_shanten(hand.counts()),
    {
        HandAnalyzer::calc_thirteen_orphens(hand)
    }

    /// The shanten number of the hand towards four blocks of three and a
    /// pair.
    fn calc_normal_form(hand: &Hand) -> (num: i32)
        ensures
            num == normal_shanten(hand.counts()),
    {
        HandAnalyzer::calc_normal_form(hand)
    }
}

} // verus!
