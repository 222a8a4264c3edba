use vstd::prelude::*;
use core::cmp::Ordering;

verus! {

/// Integer type in which tile indices and tile counts are held.
pub type TileType = u32;

/// One tile, known by its kind. The 34 kinds are numbered in their order: the
/// three number suits, nine ranks each, and after them the seven honors.
#[derive(Clone, Copy, Debug, PartialEq, Eq, Structural, Hash, Ord)]
pub struct Tile {
    index: TileType,
}

impl PartialOrd for Tile {
    /// Tiles are ordered by the number of their kind.
    fn partial_cmp(&self, other: &Self) -> (order: Option<Ordering>) {
        if self.index < other.index {
            Some(Ordering::Less)
        } else if self.index > other.index {
            Some(Ordering::Greater)
        } else {
            Some(Ordering::Equal)
        }
    }
}

impl vstd::std_specs::cmp::PartialOrdSpecImpl for Tile {
    open spec fn obeys_partial_cmp_spec() -> bool {
        true
    }

    open spec fn partial_cmp_spec(&self, other: &Self) -> Option<Ordering> {
        if self.kind() < other.kind() {
            Some(Ordering::Less)
        } else if self.kind() > other.kind() {
            Some(Ordering::Greater)
        } else {
            Some(Ordering::Equal)
        }
    }
}

impl Tile {
    pub const M1: TileType = 0;
    pub const M2: TileType = 1;
    pub const M3: TileType = 2;
    pub const M4: TileType = 3;
    pub const M5: TileType = 4;
    pub const M6: TileType = 5;
    pub const M7: TileType = 6;
    pub const M8: TileType = 7;
    pub const M9: TileType = 8;
    pub const P1: TileType = 9;
    pub const P2: TileType = 10;
    pub const P3: TileType = 11;
    pub const P4: TileType = 12;
    pub const P5: TileType = 13;
    pub const P6: TileType = 14;
    pub const P7: TileType = 15;
    pub const P8: TileType = 16;
    pub const P9: TileType = 17;
    pub const S1: TileType = 18;
    pub const S2: TileType = 19;
    pub const S3: TileType = 20;
    pub const S4: TileType = 21;
    pub const S5: TileType = 22;
    pub const S6: TileType = 23;
    pub const S7: TileType = 24;
    pub const S8: TileType = 25;
    pub const S9: TileType = 26;
    pub const Z1: TileType = 27;
    pub const Z2: TileType = 28;
    pub const Z3: TileType = 29;
    pub const Z4: TileType = 30;
    pub const Z5: TileType = 31;
    pub const Z6: TileType = 32;
    pub const Z7: TileType = 33;
    /// Number of tile kinds.
    pub const LEN: usize = 34;

    #[verifier::type_invariant]
    spec fn in_range(self) -> bool {
        self.index < 34
    }

    /// The number of the tile's kind.
    pub closed spec fn kind(self) -> int {
        self.index as int
    }

    /// The tile of kind `k`.
    pub closed spec fn of(k: int) -> Tile {
        Tile { index: k as TileType }
    }

    /// The tile of a kind is of that kind.
    pub proof fn lemma_of_kind(k: int)
        requires
            0 <= k < 34,
        ensures
            Tile::of(k).kind() == k,
    {
    }

    /// The tile of kind `index`, if there is such a kind.
    pub fn new(index: TileType) -> (tile: Option<Tile>)
        ensures
            tile.is_some() == (index < 34),
            tile.is_some() ==> tile.unwrap() == Tile::of(index as int) && tile.unwrap().kind() == index,
    {
        if index < 34 {
            Some(Tile { index })
        } else {
            None
        }
    }

    /// The number of the tile's kind.
    pub fn get(&self) -> (index: TileType)
        ensures
            index == self.kind(),
            index < 34,
    {
        proof {
            use_type_invariant(self);
        }
        self.index
    }

    /// The picture of the tile.
    pub fn to_char(&self) -> (c: char)
        ensures
            c == emoji_of(self.kind()),
    {
        let i = self.get();
        if i < 9 {
            if i == 0 {
                '\u{1F007}'
            } else if i == 1 {
                '\u{1F008}'
            } else if i == 2 {
                '\u{1F009}'
            } else if i == 3 {
                '\u{1F00A}'
            } else if i == 4 {
                '\u{1F00B}'
            } else if i == 5 {
                '\u{1F00C}'
            } else if i == 6 {
                '\u{1F00D}'
            } else if i == 7 {
                '\u{1F00E}'
            } else {
                '\u{1F00F}'
            }
        } else if i < 18 {
            if i == 9 {
                '\u{1F019}'
            } else if i == 10 {
                '\u{1F01A}'
            } else if i == 11 {
                '\u{1F01B}'
            } else if i == 12 {
                '\u{1F01C}'
            } else if i == 13 {
                '\u{1F01D}'
            } else if i == 14 {
                '\u{1F01E}'
            } else if i == 15 {
                '\u{1F01F}'
            } else if i == 16 {
                '\u{1F020}'
            } else {
                '\u{1F021}'
            }
        } else if i < 27 {
            if i == 18 {
                '\u{1F010}'
            } else if i == 19 {
                '\u{1F011}'
            } else if i == 20 {
                '\u{1F012}'
            } else if i == 21 {
                '\u{1F013}'
            } else if i == 22 {
                '\u{1F014}'
            } else if i == 23 {
                '\u{1F015}'
            } else if i == 24 {
                '\u{1F016}'
            } else if i == 25 {
                '\u{1F017}'
            } else {
                '\u{1F018}'
            }
        } else {
            if i == 27 {
                '\u{1F000}'
            } else if i == 28 {
                '\u{1F001}'
            } else if i == 29 {
                '\u{1F002}'
            } else if i == 30 {
                '\u{1F003}'
            } else if i == 31 {
                '\u{1F006}'
            } else if i == 32 {
                '\u{1F005}'
            } else {
                '\u{1F004}'
            }
        }
    }

    /// The tile in writing: the digit of its rank, then the letter of its
    /// suit.
    pub fn to_string(&self) -> (text: String)
        ensures
            text@ == tile_text(self.kind()),
    {
        let i = self.get();
        let rank: u32 = if i < 27 { i % 9 } else { i - 27 };
        let digit: char = if rank == 0 {
            '1'
        } else if rank == 1 {
            '2'
        } else if rank == 2 {
            '3'
        } else if rank == 3 {
            '4'
        } else if rank == 4 {
            '5'
        } else if rank == 5 {
            '6'
        } else if rank == 6 {
            '7'
        } else if rank == 7 {
            '8'
        } else {
            '9'
        };
        let suit: char = if i < 9 {
            'm'
        } else if i < 18 {
            'p'
        } else if i < 27 {
            's'
        } else {
            'z'
        };
        let mut text = String::new();
        push_char(&mut text, digit);
        push_char(&mut text, suit);
        proof {
            assert(text@ =~= tile_text(self.kind()));
        }
        text
    }
}

/// `String::push` of the standard library: the character is appended to the
/// text, and nothing else of the text changes.
#[verifier::external_body]
pub(crate) fn push_char(text: &mut String, c: char)
    ensures
        final(text)@ == old(text)@.push(c),
{
    text.push(c)
}

/// The picture of the tile of kind `k` among the Unicode mahjong tiles: the
/// pictures of a suit follow one another by rank, the four winds stand in
/// the order east, south, west and north, and the dragons white, green and
/// red have their pictures in the opposite order.
pub open spec fn emoji_of(k: int) -> char {
    if k < 9 {
        (0x1F007 + k) as char
    } else if k < 18 {
        (0x1F019 + (k - 9)) as char
    } else if k < 27 {
        (0x1F010 + (k - 18)) as char
    } else if k < 31 {
        (0x1F000 + (k - 27)) as char
    } else {
        (0x1F006 - (k - 31)) as char
    }
}

/// The letter of the suit of kind `k`: `m`, `p` and `s` for the number suits
/// and `z` for the honors.
pub open spec fn suit_letter(k: int) -> char {
    if k < 9 {
        'm'
    } else if k < 18 {
        'p'
    } else if k < 27 {
        's'
    } else {
        'z'
    }
}

/// The digit of the rank of kind `k`, `1` to `9`; honors count from `1` too.
pub open spec fn rank_digit(k: int) -> char {
    ('0' as int + (k - suit_start(k) + 1)) as char
}

/// Kind `k` in writing: the digit of its rank, then the letter of its suit.
pub open spec fn tile_text(k: int) -> Seq<char> {
    seq![rank_digit(k), suit_letter(k)]
}

/// Number of tiles of kind `k` among `tiles`.
pub open spec fn tally(tiles: Seq<Tile>, k: int) -> nat
    decreases tiles.len(),
{
    if tiles.len() == 0 {
        0
    } else {
        tally(tiles.drop_last(), k) + if tiles.last().kind() == k { 1nat } else { 0 }
    }
}

/// Whether the tiles stand in the order of their kinds.
pub open spec fn ordered(tiles: Seq<Tile>) -> bool {
    forall|i: int, j: int| 0 <= i < j < tiles.len() ==> tiles[i].kind() <= tiles[j].kind()
}

/// Replacing one tile moves one from the tally of the old kind to that of
/// the new.
pub proof fn lemma_tally_update(tiles: Seq<Tile>, i: int, t: Tile, k: int)
    requires
        0 <= i < tiles.len(),
    ensures
        tally(tiles.update(i, t), k) + (if tiles[i].kind() == k { 1nat } else { 0 }) == tally(tiles, k) + (if t.kind()
            == k { 1nat } else { 0 }),
    decreases tiles.len(),
{
    if i == tiles.len() - 1 {
        assert(tiles.update(i, t).drop_last() =~= tiles.drop_last());
    } else {
        assert(tiles.update(i, t).drop_last() =~= tiles.drop_last().update(i, t));
        lemma_tally_update(tiles.drop_last(), i, t, k);
    }
}

/// Index of the first kind of the suit that kind `k` belongs to. The three
/// number suits start at 0, 9 and 18; the honors start at 27.
pub open spec fn suit_start(k: int) -> int {
    if k < 9 {
        0
    } else if k < 18 {
        9
    } else if k < 27 {
        18
    } else {
        27
    }
}

/// Whether `k` is a kind of one of the three number suits.
pub open spec fn is_number(k: int) -> bool {
    0 <= k < 27
}

/// Rank of kind `k` within its suit, counted from 1.
pub open spec fn rank(k: int) -> int {
    k - suit_start(k) + 1
}

/// Whether the kind `off` ranks away from `k` exists: `k` is a number kind and
/// the rank reached lies between 1 and 9. Honors have no neighbor.
pub open spec fn has_neighbor(k: int, off: int) -> bool {
    is_number(k) && 1 <= rank(k) + off <= 9
}

} // verus!
