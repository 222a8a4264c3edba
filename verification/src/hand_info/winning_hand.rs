use vstd::prelude::*;

verus! {

/// The three shapes of a winning hand.
#[derive(Clone, Copy, Debug, PartialEq, Eq, Structural)]
pub enum WinningHandForm {
    /// Seven pairs of seven different kinds.
    SevenPairs,
    /// One tile of each terminal and honor kind, and a second of one of them.
    ThirteenOrphens,
    /// Four blocks of three tiles and a pair.
    Normal,
}

} // verus!
