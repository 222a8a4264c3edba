use vstd::prelude::*;
use vstd::string::{StrSliceExecFns, StringExecFns};
use crate::notation::{first_space, lemma_first_space_is, read_tiles, tiles_named};
use crate::counts::{
    counts_of, lemma_sum_bounds_entry, lemma_sum_monotone, lemma_sum_zero, lemma_total_update,
    sum_to, total,
};
use crate::tile::{
    emoji_of, lemma_tally_update, ordered, push_char, tally, tile_text, Tile, TileType,
};

verus! {

/// How a meld was made.
#[derive(Clone, Copy, Debug, PartialEq, Eq, Structural)]
pub enum MeldType {
    /// A run of three, completed with a discarded tile.
    Chi,
    /// A triplet, completed with a discarded tile.
    Pon,
    /// Four tiles of one kind.
    Kan,
}

/// From whom the tile came that completed a meld.
#[derive(Clone, Copy, Debug, PartialEq, Eq, Structural)]
pub enum MeldFrom {
    /// The player to the left.
    Previous,
    /// The player's own draw.
    Myself,
    /// The player to the right.
    Folloing,
    /// The player across the table.
    Opposite,
}

/// Why a hand could not be made.
#[derive(Clone, Copy, Debug, PartialEq, Eq, Structural)]
pub enum HandError {
    /// The concealed tiles are not 13.
    InvalidHandSize,
    /// The text does not name tiles, or names more or less than one drawn
    /// tile after the space.
    InvalidNotation,
}

/// A declared group of tiles: three for a run or a triplet, four for a quad.
#[derive(Debug)]
pub struct Meld {
    tiles: Vec<Tile>,
    kind: MeldType,
    from: MeldFrom,
}

/// Number of tiles in a meld of the given type.
pub open spec fn meld_size(kind: MeldType) -> nat {
    if kind is Kan {
        4
    } else {
        3
    }
}

impl Meld {
    #[verifier::type_invariant]
    spec fn sized(self) -> bool {
        self.tiles@.len() == meld_size(self.kind)
    }

    /// The tiles of the meld.
    pub closed spec fn tiles(self) -> Seq<Tile> {
        self.tiles@
    }

    /// How the meld was made.
    pub closed spec fn meld_type(self) -> MeldType {
        self.kind
    }

    /// From whom the completing tile came.
    pub closed spec fn source(self) -> MeldFrom {
        self.from
    }

    /// The meld of the given tiles, if they are as many as its type asks for.
    /// Whether the tiles make a run, a triplet or a quad is not looked at.
    pub fn new(tiles: Vec<Tile>, kind: MeldType, from: MeldFrom) -> (meld: Option<Meld>)
        ensures
            meld.is_some() == (tiles@.len() == meld_size(kind)),
            meld.is_some() ==> meld.unwrap().tiles() == tiles@ && meld.unwrap().meld_type() == kind
                && meld.unwrap().source() == from,
    {
        let size: usize = match kind {
            MeldType::Kan => 4,
            _ => 3,
        };
        if tiles.len() == size {
            Some(Meld { tiles, kind, from })
        } else {
            None
        }
    }
}

/// Number of tiles of kind `k` in the melds.
pub open spec fn meld_tally(melds: Seq<Meld>, k: int) -> nat
    decreases melds.len(),
{
    if melds.len() == 0 {
        0
    } else {
        meld_tally(melds.drop_last(), k) + tally(melds.last().tiles(), k)
    }
}

/// Number of tiles in the melds.
pub open spec fn meld_sizes(melds: Seq<Meld>) -> nat
    decreases melds.len(),
{
    if melds.len() == 0 {
        0
    } else {
        meld_sizes(melds.drop_last()) + melds.last().tiles().len()
    }
}

/// The tiles in writing, one after another.
pub open spec fn tiles_text(tiles: Seq<Tile>) -> Seq<char>
    decreases tiles.len(),
{
    if tiles.len() == 0 {
        Seq::empty()
    } else {
        tiles_text(tiles.drop_last()) + tile_text(tiles.last().kind())
    }
}

/// The pictures of the tiles, one after another.
pub open spec fn tiles_emoji(tiles: Seq<Tile>) -> Seq<char> {
    Seq::new(tiles.len(), |i: int| emoji_of(tiles[i].kind()))
}

/// The concealed tiles and the drawn tile that a hand in writing names. The
/// text is the concealed tiles, as digits with the letter of their suit after
/// them, and, where a tile was drawn, a space and that tile, as in
/// `123m456p789s1112z 2z`. The concealed tiles come in the order of the text.
pub open spec fn hand_named(s: Seq<char>) -> Result<(Seq<Tile>, Option<Tile>), HandError> {
    let space = first_space(s);
    let concealed = tiles_named(s.subrange(0, space), None);
    let after = if space < s.len() {
        tiles_named(s.subrange(space + 1, s.len() as int), None)
    } else {
        None
    };
    if concealed.is_none() {
        Err(HandError::InvalidNotation)
    } else if space < s.len() && (after.is_none() || after.unwrap().len() != 1) {
        Err(HandError::InvalidNotation)
    } else if concealed.unwrap().len() != 13 {
        Err(HandError::InvalidHandSize)
    } else if space < s.len() {
        Ok((concealed.unwrap(), Some(after.unwrap()[0])))
    } else {
        Ok((concealed.unwrap(), None))
    }
}

/// A player's tiles: 13 concealed tiles in the order of their kinds, the tile
/// just drawn, if any, and the melds in the order in which they were declared.
#[derive(Debug)]
pub struct Hand {
    tiles: Vec<Tile>,
    drawn: Option<Tile>,
    meld: Vec<Meld>,
}

impl Hand {
    /// The most melds a hand can be made with: with so many, the number of its
    /// tiles, and with it the shanten number, still fits in `i32`.
    pub const MAX_MELDS: usize = 500_000_000;

    #[verifier::type_invariant]
    spec fn valid(self) -> bool {
        &&& self.tiles@.len() == 13
        &&& ordered(self.tiles@)
        &&& self.meld@.len() <= Hand::MAX_MELDS
    }

    /// The concealed tiles, in the order of their kinds.
    pub closed spec fn concealed(self) -> Seq<Tile> {
        self.tiles@
    }

    /// The tile just drawn.
    pub closed spec fn drawn_tile(self) -> Option<Tile> {
        self.drawn
    }

    /// The melds, in the order in which they were declared.
    pub closed spec fn melds(self) -> Seq<Meld> {
        self.meld@
    }

    /// Number of tiles of kind `k` in the hand: concealed, in melds, or drawn.
    pub open spec fn count(self, k: int) -> nat {
        tally(self.concealed(), k) + meld_tally(self.melds(), k) + match self.drawn_tile() {
            Some(t) => if t.kind() == k { 1nat } else { 0 },
            None => 0,
        }
    }

    /// For each of the 34 kinds, the number of tiles of that kind in the hand.
    pub open spec fn counts(self) -> Seq<nat> {
        Seq::new(34, |k: int| self.count(k))
    }

    /// Number of tiles in the hand: concealed, in melds, or drawn.
    pub open spec fn size(self) -> nat {
        self.concealed().len() + meld_sizes(self.melds()) + if self.drawn_tile().is_some() { 1nat } else { 0 }
    }

    /// The hand in writing: the concealed tiles in their order, each as the
    /// digit of its rank and the letter of its suit, then, if a tile was
    /// drawn, a space and that tile.
    pub open spec fn text(self) -> Seq<char> {
        tiles_text(self.concealed()) + match self.drawn_tile() {
            Some(t) => seq![' '] + tile_text(t.kind()),
            None => Seq::empty(),
        }
    }

    /// The hand in pictures: the concealed tiles in their order, then, if a
    /// tile was drawn, a space and that tile.
    pub open spec fn emoji(self) -> Seq<char> {
        tiles_emoji(self.concealed()) + match self.drawn_tile() {
            Some(t) => seq![' ', emoji_of(t.kind())],
            None => Seq::empty(),
        }
    }

    /// The hand of the 13 concealed tiles and the drawn tile, without melds.
    pub fn new(tiles: Vec<Tile>, drawn: Option<Tile>) -> (hand: Hand)
        requires
            tiles.len() == 13,
        ensures
            hand.concealed().len() == 13,
            ordered(hand.concealed()),
            forall|k: int| tally(hand.concealed(), k) == tally(tiles@, k),
            hand.drawn_tile() == drawn,
            hand.melds() == Seq::<Meld>::empty(),
    {
        let mut tiles = tiles;
        Hand::sort(&mut tiles);
        Hand { tiles, drawn, meld: Vec::new() }
    }

    /// The hand of the 13 concealed tiles, the drawn tile and the melds. It is
    /// refused if the concealed tiles are not 13.
    pub fn with_melds(tiles: Vec<Tile>, drawn: Option<Tile>, melds: Vec<Meld>) -> (hand: Result<Hand, HandError>)
        requires
            melds.len() <= Hand::MAX_MELDS,
        ensures
            tiles.len() != 13 ==> hand == Err::<Hand, HandError>(HandError::InvalidHandSize),
            tiles.len() == 13 ==> hand.is_ok() && {
                let h = hand.unwrap();
                &&& h.concealed().len() == 13
                &&& ordered(h.concealed())
                &&& forall|k: int| tally(h.concealed(), k) == tally(tiles@, k)
                &&& h.drawn_tile() == drawn
                &&& h.melds() == melds@
            },
    {
        if tiles.len() != 13 {
            return Err(HandError::InvalidHandSize);
        }
        let mut tiles = tiles;
        Hand::sort(&mut tiles);
        Ok(Hand { tiles, drawn, meld: melds })
    }

    /// The hand that the text names, without melds. The text is refused as
    /// `InvalidNotation` where it does not name tiles, and else as
    /// `InvalidHandSize` where the concealed tiles it names are not 13.
    pub fn parse(s: &str) -> (hand: Result<Hand, HandError>)
        ensures
            match hand_named(s@) {
                Err(e) => hand == Err::<Hand, HandError>(e),
                Ok((tiles, drawn)) => hand.is_ok() && {
                    let h = hand.unwrap();
                    &&& h.concealed().len() == 13
                    &&& ordered(h.concealed())
                    &&& forall|k: int| tally(h.concealed(), k) == tally(tiles, k)
                    &&& h.drawn_tile() == drawn
                    &&& h.melds() == Seq::<Meld>::empty()
                },
            },
    {
        let n = s.unicode_len();
        let mut space: usize = 0;
        while space < n && s.get_char(space) != ' '
            invariant
                space <= n,
                n == s@.len(),
                forall|j: int| 0 <= j < space ==> s@[j] != ' ',
            decreases n - space,
        {
            space += 1;
        }
        proof {
            lemma_first_space_is(s@, space as int);
        }
        let concealed = match read_tiles(s.substring_char(0, space)) {
            Some(tiles) => tiles,
            None => {
                return Err(HandError::InvalidNotation);
            },
        };
        let drawn: Option<Tile> = if space < n {
            match read_tiles(s.substring_char(space + 1, n)) {
                Some(tiles) => {
                    if tiles.len() != 1 {
                        return Err(HandError::InvalidNotation);
                    }
                    Some(tiles[0])
                },
                None => {
                    return Err(HandError::InvalidNotation);
                },
            }
        } else {
            None
        };
        if concealed.len() != 13 {
            return Err(HandError::InvalidHandSize);
        }
        Ok(Hand::new(concealed, drawn))
    }

    /// The tiles in the hand's own order: the concealed tiles in the order of
    /// their kinds, then the drawn tile, if there is one.
    pub fn ordered_tiles(&self) -> (tiles: Vec<Tile>)
        ensures
            tiles@ == self.concealed() + match self.drawn_tile() {
                Some(t) => seq![t],
                None => Seq::empty(),
            },
            self.concealed().len() == 13,
            ordered(self.concealed()),
    {
        proof {
            use_type_invariant(self);
        }
        let mut tiles: Vec<Tile> = Vec::new();
        let mut i: usize = 0;
        while i < self.tiles.len()
            invariant
                i <= self.tiles@.len(),
                tiles@ == self.tiles@.take(i as int),
            decreases self.tiles@.len() - i,
        {
            tiles.push(self.tiles[i]);
            proof {
                assert(tiles@ =~= self.tiles@.take(i + 1));
            }
            i += 1;
        }
        proof {
            assert(self.tiles@.take(i as int) =~= self.tiles@);
        }
        if let Some(tsumo) = self.drawn {
            tiles.push(tsumo);
        }
        proof {
            assert(tiles@ =~= self.concealed() + match self.drawn_tile() {
                Some(t) => seq![t],
                None => Seq::empty(),
            });
        }
        tiles
    }

    /// Number of tiles in the hand: concealed, in melds, or drawn. It is the
    /// sum of the counts of all kinds.
    pub fn tile_count(&self) -> (n: u32)
        ensures
            n == self.size(),
            n == total(self.counts()),
    {
        let counts = self.summarize_tiles();
        let mut n: u32 = 0;
        let mut k: usize = 0;
        while k < Tile::LEN
            invariant
                k <= 34,
                counts@.len() == 34,
                n == sum_to(counts_of(counts@), k as int),
                total(counts_of(counts@)) <= 14 + 4 * Hand::MAX_MELDS,
            decreases 34 - k,
        {
            proof {
                lemma_sum_monotone(counts_of(counts@), k + 1, 34);
            }
            n += counts[k];
            k += 1;
        }
        n
    }

    /// The hand in pictures.
    pub fn to_emoji(&self) -> (result: String)
        ensures
            result@ == self.emoji(),
    {
        let mut result = String::new();
        let mut i: usize = 0;
        while i < self.tiles.len()
            invariant
                i <= self.tiles@.len(),
                result@ == tiles_emoji(self.tiles@.take(i as int)),
            decreases self.tiles@.len() - i,
        {
            push_char(&mut result, self.tiles[i].to_char());
            proof {
                assert(result@ =~= tiles_emoji(self.tiles@.take(i + 1)));
            }
            i += 1;
        }
        proof {
            assert(self.tiles@.take(i as int) =~= self.tiles@);
        }
        if let Some(tsumo) = self.drawn {
            push_char(&mut result, ' ');
            push_char(&mut result, tsumo.to_char());
        }
        proof {
            assert(result@ =~= self.emoji());
        }
        result
    }

    /// The hand in writing.
    pub fn to_string(&self) -> (result: String)
        ensures
            result@ == self.text(),
    {
        let mut result = String::new();
        let mut i: usize = 0;
        while i < self.tiles.len()
            invariant
                i <= self.tiles@.len(),
                result@ == tiles_text(self.tiles@.take(i as int)),
            decreases self.tiles@.len() - i,
        {
            let text = self.tiles[i].to_string();
            result.append(text.as_str());
            proof {
                assert(self.tiles@.take(i + 1).drop_last() =~= self.tiles@.take(i as int));
            }
            i += 1;
        }
        proof {
            assert(self.tiles@.take(i as int) =~= self.tiles@);
        }
        if let Some(tsumo) = self.drawn {
            push_char(&mut result, ' ');
            let text = tsumo.to_string();
            result.append(text.as_str());
        }
        proof {
            assert(result@ =~= self.text());
        }
        result
    }

    /// Puts the tiles in the order of their kinds.
    fn sort(tiles: &mut Vec<Tile>)
        ensures
            final(tiles)@.len() == old(tiles)@.len(),
            ordered(final(tiles)@),
            forall|k: int| tally(final(tiles)@, k) == tally(old(tiles)@, k),
    {
        let n = tiles.len();
        let mut i: usize = 1;
        while i < n
            invariant
                tiles@.len() == n,
                n == old(tiles)@.len(),
                1 <= i,
                forall|a: int, b: int| 0 <= a < b < i && b < n ==> tiles@[a].kind() <= tiles@[b].kind(),
                forall|k: int| tally(tiles@, k) == tally(old(tiles)@, k),
            decreases n - i,
        {
            let mut j: usize = i;
            while j > 0 && tiles[j - 1].get() > tiles[j].get()
                invariant
                    tiles@.len() == n,
                    n == old(tiles)@.len(),
                    0 <= j <= i < n,
                    forall|a: int, b: int| 0 <= a < b <= i && b != j ==> tiles@[a].kind() <= tiles@[b].kind(),
                    forall|k: int| tally(tiles@, k) == tally(old(tiles)@, k),
                decreases j,
            {
                let ghost before = tiles@;
                let low = tiles[j];
                let high = tiles[j - 1];
                tiles[j - 1] = low;
                tiles[j] = high;
                proof {
                    let mid = before.update(j - 1, low);
                    assert(tiles@ =~= mid.update(j as int, high));
                    assert forall|k: int| tally(tiles@, k) == tally(old(tiles)@, k) by {
                        lemma_tally_update(before, j - 1, low, k);
                        lemma_tally_update(mid, j as int, high, k);
                    }
                }
                j -= 1;
            }
            i += 1;
        }
    }

    /// Counts the tiles of the hand by kind: the concealed tiles, the tiles of
    /// the melds and the drawn tile, each tile once.
    pub(crate) fn summarize_tiles(&self) -> (result: Vec<TileType>)
        ensures
            result@.len() == 34,
            counts_of(result@) == self.counts(),
            total(self.counts()) == self.size(),
            total(self.counts()) <= 14 + 4 * Hand::MAX_MELDS,
    {
        proof {
            use_type_invariant(self);
        }
        let mut result: Vec<TileType> = Vec::new();
        let mut k: usize = 0;
        while k < Tile::LEN
            invariant
                k <= 34,
                result@.len() == k,
                forall|j: int| 0 <= j < k ==> result@[j] == 0,
            decreases 34 - k,
        {
            result.push(0);
            k += 1;
        }
        proof {
            lemma_sum_zero(counts_of(result@), 34);
        }
        count_tiles(&mut result, &self.tiles);
        let mut i: usize = 0;
        while i < self.meld.len()
            invariant
                i <= self.meld@.len() <= Hand::MAX_MELDS,
                self.tiles@.len() == 13,
                result@.len() == 34,
                total(counts_of(result@)) == 13 + meld_sizes(self.meld@.take(i as int)),
                forall|k: int|
                    0 <= k < 34 ==> #[trigger] result@[k] == tally(self.tiles@, k) + meld_tally(
                        self.meld@.take(i as int),
                        k,
                    ),
                total(counts_of(result@)) <= 13 + 4 * i,
            decreases self.meld@.len() - i,
        {
            let meld = &self.meld[i];
            proof {
                use_type_invariant(meld);
                assert(self.meld@.take(i + 1).drop_last() =~= self.meld@.take(i as int));
            }
            count_tiles(&mut result, &meld.tiles);
            i += 1;
        }
        proof {
            assert(self.meld@.take(i as int) =~= self.meld@);
        }
        if let Some(t) = self.drawn {
            let ghost before = counts_of(result@);
            let at = t.get() as usize;
            proof {
                lemma_sum_bounds_entry(before, 34, t.kind());
                lemma_total_update(before, t.kind(), before[t.kind()] + 1);
            }
            result[at] += 1;
            proof {
                assert(counts_of(result@) =~= before.update(t.kind(), before[t.kind()] + 1));
            }
        }
        proof {
            assert(counts_of(result@) =~= self.counts());
        }
        result
    }
}

/// Adds the tiles to the table of counts, each tile once under its kind.
fn count_tiles(result: &mut Vec<TileType>, tiles: &Vec<Tile>)
    requires
        old(result)@.len() == 34,
        total(counts_of(old(result)@)) + tiles@.len() <= u32::MAX,
    ensures
        final(result)@.len() == 34,
        forall|k: int| 0 <= k < 34 ==> #[trigger] final(result)@[k] == old(result)@[k] + tally(tiles@, k),
        total(counts_of(final(result)@)) == total(counts_of(old(result)@)) + tiles@.len(),
{
    let mut i: usize = 0;
    while i < tiles.len()
        invariant
            i <= tiles@.len(),
            result@.len() == 34,
            old(result)@.len() == 34,
            total(counts_of(old(result)@)) + tiles@.len() <= u32::MAX,
            forall|k: int|
                0 <= k < 34 ==> #[trigger] result@[k] == old(result)@[k] + tally(tiles@.take(i as int), k),
            total(counts_of(result@)) == total(counts_of(old(result)@)) + i,
        decreases tiles@.len() - i,
    {
        let t = tiles[i];
        let ghost before = counts_of(result@);
        let at = t.get() as usize;
        proof {
            lemma_sum_bounds_entry(before, 34, t.kind());
            lemma_total_update(before, t.kind(), before[t.kind()] + 1);
            assert(tiles@.take(i + 1).drop_last() =~= tiles@.take(i as int));
        }
        result[at] += 1;
        proof {
            assert(counts_of(result@) =~= before.update(t.kind(), before[t.kind()] + 1));
        }
        i += 1;
    }
    proof {
        assert(tiles@.take(i as int) =~= tiles@);
    }
}

} // verus!
