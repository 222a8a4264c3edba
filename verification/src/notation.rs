use vstd::prelude::*;
use vstd::string::StrSliceExecFns;
use crate::tile::Tile;

verus! {

/// The first kind of the suit that a letter names: `m`, `p` and `s` are the
/// number suits, `z` the honors.
pub open spec fn suit_of_letter(ch: char) -> Option<int> {
    if ch == 'm' {
        Some(0int)
    } else if ch == 'p' {
        Some(9int)
    } else if ch == 's' {
        Some(18int)
    } else if ch == 'z' {
        Some(27int)
    } else {
        None
    }
}

/// The rank that a digit names, 1 to 9; 0 for every other character.
pub open spec fn digit_rank(ch: char) -> int {
    if '1' <= ch <= '9' {
        ch as int - '0' as int
    } else {
        0
    }
}

/// Whether rank `rank` exists in the suit that starts at kind `suit`: a
/// number suit has nine ranks, the honors have seven.
pub open spec fn rank_in_suit(suit: int, rank: int) -> bool {
    1 <= rank && (if suit < 27 { rank <= 9 } else { rank <= 7 })
}

/// The tiles that the text `s` names, in its order. Every digit names a tile
/// of the suit whose letter comes next after it; `suit` is the suit of the
/// digits that no letter in `s` follows. There are no tiles to name if `s`
/// holds another character, a digit without a suit, or a rank that its suit
/// does not have.
pub open spec fn tiles_named(s: Seq<char>, suit: Option<int>) -> Option<Seq<Tile>>
    decreases s.len(),
{
    if s.len() == 0 {
        Some(Seq::empty())
    } else {
        let ch = s.last();
        let rest = s.drop_last();
        if suit_of_letter(ch).is_some() {
            tiles_named(rest, suit_of_letter(ch))
        } else if suit.is_some() && rank_in_suit(suit.unwrap(), digit_rank(ch)) {
            match tiles_named(rest, suit) {
                Some(tiles) => Some(tiles.push(Tile::of(suit.unwrap() + digit_rank(ch) - 1))),
                None => None,
            }
        } else {
            None
        }
    }
}

/// The tiles `front`, if there are any, with the tiles `back` after them.
pub open spec fn followed_by(front: Option<Seq<Tile>>, back: Seq<Tile>) -> Option<Seq<Tile>> {
    match front {
        Some(tiles) => Some(tiles + back),
        None => None,
    }
}

/// Place of the first space in `s`, or the length of `s` if it holds none.
pub open spec fn first_space(s: Seq<char>) -> int
    decreases s.len(),
{
    if s.len() == 0 || s[0] == ' ' {
        0
    } else {
        1 + first_space(s.skip(1))
    }
}

/// The first space stands inside the text or at its end, and no space stands
/// before it.
pub proof fn lemma_first_space(s: Seq<char>)
    ensures
        0 <= first_space(s) <= s.len(),
        first_space(s) < s.len() ==> s[first_space(s)] == ' ',
        forall|j: int| 0 <= j < first_space(s) ==> s[j] != ' ',
    decreases s.len(),
{
    if !(s.len() == 0 || s[0] == ' ') {
        lemma_first_space(s.skip(1));
        assert forall|j: int| 0 <= j < first_space(s) implies s[j] != ' ' by {
            if j > 0 {
                assert(s.skip(1)[j - 1] == s[j]);
            }
        }
    }
}

/// The first space is the only place that is a space, or the end, with no
/// space before it.
pub proof fn lemma_first_space_is(s: Seq<char>, p: int)
    requires
        0 <= p <= s.len(),
        p < s.len() ==> s[p] == ' ',
        forall|j: int| 0 <= j < p ==> s[j] != ' ',
    ensures
        first_space(s) == p,
{
    lemma_first_space(s);
    let q = first_space(s);
    if q < p {
        assert(s[q] != ' ');
    }
    if p < q {
        assert(s[p] != ' ');
    }
}

/// The suit that the letter names, by its first kind.
fn read_suit(ch: char) -> (suit: Option<u32>)
    ensures
        suit.is_some() == suit_of_letter(ch).is_some(),
        suit.is_some() ==> suit.unwrap() == suit_of_letter(ch).unwrap(),
{
    if ch == 'm' {
        Some(0)
    } else if ch == 'p' {
        Some(9)
    } else if ch == 's' {
        Some(18)
    } else if ch == 'z' {
        Some(27)
    } else {
        None
    }
}

/// The rank that the digit names, or 0.
fn read_rank(ch: char) -> (rank: u32)
    ensures
        rank == digit_rank(ch),
        rank <= 9,
{
    if ch >= '1' && ch <= '9' {
        ch as u32 - '0' as u32
    } else {
        0
    }
}

/// Reads the tiles that the text names.
pub(crate) fn read_tiles(s: &str) -> (tiles: Option<Vec<Tile>>)
    ensures
        tiles.is_some() == tiles_named(s@, None).is_some(),
        tiles.is_some() ==> tiles.unwrap()@ == tiles_named(s@, None).unwrap(),
{
    let n = s.unicode_len();
    let mut out: Vec<Tile> = Vec::new();
    let mut suit: Option<u32> = None;
    let mut i: usize = n;
    proof {
        assert(s@.take(n as int) =~= s@);
        match tiles_named(s@, None) {
            Some(tiles) => {
                assert(tiles + out@ =~= tiles);
            },
            None => {},
        }
    }
    while i > 0
        invariant
            i <= n,
            n == s@.len(),
            suit.is_some() ==> suit.unwrap() == 0 || suit.unwrap() == 9 || suit.unwrap() == 18 || suit.unwrap()
                == 27,
            tiles_named(s@, None) == followed_by(
                tiles_named(
                    s@.take(i as int),
                    match suit {
                        Some(first) => Some(first as int),
                        None => None,
                    },
                ),
                out@,
            ),
        decreases i,
    {
        i -= 1;
        let ch = s.get_char(i);
        let ghost before = s@.take(i + 1);
        let ghost spec_suit = match suit {
            Some(first) => Some(first as int),
            None => None,
        };
        proof {
            assert(before.last() == ch);
            assert(before.drop_last() =~= s@.take(i as int));
        }
        match read_suit(ch) {
            Some(first) => {
                suit = Some(first);
            },
            None => {
                let rank = read_rank(ch);
                match suit {
                    Some(first) => {
                        if rank >= 1 && (first < 27 || rank <= 7) {
                            match Tile::new(first + rank - 1) {
                                Some(tile) => {
                                    let ghost tail = out@;
                                    out.insert(0, tile);
                                    proof {
                                        let front = tiles_named(s@.take(i as int), spec_suit);
                                        match front {
                                            Some(tiles) => {
                                                assert(tiles.push(tile) + tail =~= tiles + out@);
                                            },
                                            None => {},
                                        }
                                    }
                                },
                                None => {
                                    return None;
                                },
                            }
                        } else {
                            return None;
                        }
                    },
                    None => {
                        return None;
                    },
                }
            },
        }
    }
    proof {
        assert(s@.take(0) =~= Seq::<char>::empty());
        assert(Seq::<Tile>::empty() + out@ =~= out@);
    }
    Some(out)
}

} // verus!
