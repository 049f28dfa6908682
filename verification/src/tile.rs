//! The grid: 25 tiles in five rows of five, and sets of tiles.

use vstd::prelude::*;
use crate::bits::{
    bit, lemma_bit_and_not, lemma_bit_clear, lemma_bit_set, lemma_bit_test, lemma_bit_zero,
};

verus! {

/// Number of tiles in a row of the grid.
pub const BOARD_WIDTH: usize = 5;

/// Number of rows of the grid.
pub const BOARD_HEIGHT: usize = 5;

/// One position of the grid. Tiles are numbered row by row: the letter is the
/// column (`A` to `E`, left to right) and the digit is the row (0 to 4).
#[derive(Debug, Clone, Copy, PartialEq, Eq, Structural, Hash)]
pub enum Tile {
    A0, B0, C0, D0, E0,
    A1, B1, C1, D1, E1,
    A2, B2, C2, D2, E2,
    A3, B3, C3, D3, E3,
    A4, B4, C4, D4, E4,
}

impl Tile {
    /// Number of tiles of the grid.
    pub const NUM: usize = 25;

    /// Row-major number of the tile, from 0 to 24.
    pub open spec fn ord(self) -> int {
        match self {
            Tile::A0 => 0, Tile::B0 => 1, Tile::C0 => 2, Tile::D0 => 3, Tile::E0 => 4,
            Tile::A1 => 5, Tile::B1 => 6, Tile::C1 => 7, Tile::D1 => 8, Tile::E1 => 9,
            Tile::A2 => 10, Tile::B2 => 11, Tile::C2 => 12, Tile::D2 => 13, Tile::E2 => 14,
            Tile::A3 => 15, Tile::B3 => 16, Tile::C3 => 17, Tile::D3 => 18, Tile::E3 => 19,
            Tile::A4 => 20, Tile::B4 => 21, Tile::C4 => 22, Tile::D4 => 23, Tile::E4 => 24,
        }
    }

    /// The tile with a row-major number; numbers past 24 give the last tile.
    pub open spec fn at(i: int) -> Tile {
        if i <= 0 { Tile::A0 }
        else if i == 1 { Tile::B0 }
        else if i == 2 { Tile::C0 }
        else if i == 3 { Tile::D0 }
        else if i == 4 { Tile::E0 }
        else if i == 5 { Tile::A1 }
        else if i == 6 { Tile::B1 }
        else if i == 7 { Tile::C1 }
        else if i == 8 { Tile::D1 }
        else if i == 9 { Tile::E1 }
        else if i == 10 { Tile::A2 }
        else if i == 11 { Tile::B2 }
        else if i == 12 { Tile::C2 }
        else if i == 13 { Tile::D2 }
        else if i == 14 { Tile::E2 }
        else if i == 15 { Tile::A3 }
        else if i == 16 { Tile::B3 }
        else if i == 17 { Tile::C3 }
        else if i == 18 { Tile::D3 }
        else if i == 19 { Tile::E3 }
        else if i == 20 { Tile::A4 }
        else if i == 21 { Tile::B4 }
        else if i == 22 { Tile::C4 }
        else if i == 23 { Tile::D4 }
        else { Tile::E4 }
    }

    /// Column of the tile, from 0 to 4.
    pub open spec fn col(self) -> int {
        self.ord() % 5
    }

    /// Row of the tile, from 0 to 4.
    pub open spec fn row(self) -> int {
        self.ord() / 5
    }

    /// Two tiles are adjacent when they differ and lie at most one column and
    /// one row apart: each tile has up to eight neighbours.
    pub open spec fn adjacent(self, other: Tile) -> bool {
        &&& self != other
        &&& -1 <= self.col() - other.col() <= 1
        &&& -1 <= self.row() - other.row() <= 1
    }

    /// `ord` and `at` are inverse to each other on `0..25`.
    pub proof fn lemma_ord_at()
        ensures
            forall|t: Tile| 0 <= #[trigger] t.ord() < 25 && Tile::at(t.ord()) == t,
            forall|i: int| 0 <= i < 25 ==> (#[trigger] Tile::at(i)).ord() == i,
    {
    }

    /// Row-major number of the tile.
    pub fn ordinal(self) -> (i: u8)
        ensures
            i == self.ord(),
            i < 25,
    {
        match self {
            Tile::A0 => 0, Tile::B0 => 1, Tile::C0 => 2, Tile::D0 => 3, Tile::E0 => 4,
            Tile::A1 => 5, Tile::B1 => 6, Tile::C1 => 7, Tile::D1 => 8, Tile::E1 => 9,
            Tile::A2 => 10, Tile::B2 => 11, Tile::C2 => 12, Tile::D2 => 13, Tile::E2 => 14,
            Tile::A3 => 15, Tile::B3 => 16, Tile::C3 => 17, Tile::D3 => 18, Tile::E3 => 19,
            Tile::A4 => 20, Tile::B4 => 21, Tile::C4 => 22, Tile::D4 => 23, Tile::E4 => 24,
        }
    }

    /// The tile with row-major number `i`, if `i` is below 25.
    pub fn index(i: u8) -> (r: Option<Tile>)
        ensures
            r == (if i < 25 { Some(Tile::at(i as int)) } else { None }),
    {
        match i {
            0 => Some(Tile::A0), 1 => Some(Tile::B0), 2 => Some(Tile::C0),
            3 => Some(Tile::D0), 4 => Some(Tile::E0),
            5 => Some(Tile::A1), 6 => Some(Tile::B1), 7 => Some(Tile::C1),
            8 => Some(Tile::D1), 9 => Some(Tile::E1),
            10 => Some(Tile::A2), 11 => Some(Tile::B2), 12 => Some(Tile::C2),
            13 => Some(Tile::D2), 14 => Some(Tile::E2),
            15 => Some(Tile::A3), 16 => Some(Tile::B3), 17 => Some(Tile::C3),
            18 => Some(Tile::D3), 19 => Some(Tile::E3),
            20 => Some(Tile::A4), 21 => Some(Tile::B4), 22 => Some(Tile::C4),
            23 => Some(Tile::D4), 24 => Some(Tile::E4),
            _ => None,
        }
    }

    /// The tile in column `x` and row `y`, if both lie on the grid.
    pub fn new(x: i8, y: i8) -> (r: Option<Tile>)
        ensures
            r == (if 0 <= x < 5 && 0 <= y < 5 { Some(Tile::at(y * 5 + x)) } else { None }),
            r matches Some(t) ==> t.col() == x && t.row() == y,
    {
        if x < 0 || x >= 5 || y < 0 || y >= 5 {
            return None;
        }
        proof {
            Tile::lemma_ord_at();
        }
        Tile::index((y * 5 + x) as u8)
    }

    /// A tile is fixed by its column and row.
    pub proof fn lemma_coords_unique(a: Tile, b: Tile)
        ensures
            (a.col() == b.col() && a.row() == b.row()) == (a == b),
            0 <= a.col() < 5,
            0 <= a.row() < 5,
    {
        Tile::lemma_ord_at();
    }

    /// The tiles adjacent to this one.
    pub fn neighbours(&self) -> (r: TileSet)
        ensures
            forall|t: Tile| #[trigger] r@.contains(t) == self.adjacent(t),
    {
        let i: u8 = self.ordinal();
        let x: i8 = (i % 5) as i8;
        let y: i8 = (i / 5) as i8;
        let r = TileSet::empty()
            .with_cell(x - 1, y - 1).with_cell(x, y - 1).with_cell(x + 1, y - 1)
            .with_cell(x - 1, y).with_cell(x + 1, y)
            .with_cell(x - 1, y + 1).with_cell(x, y + 1).with_cell(x + 1, y + 1);
        proof {
            assert forall|t: Tile| r@.contains(t) == self.adjacent(t) by {
                Tile::lemma_coords_unique(*self, t);
                lemma_ring(x as int, y as int, t.col(), t.row());
            }
        }
        r
    }
}

/// The eight cells around `(x, y)` are those at most one column and one row
/// away, `(x, y)` itself left out.
proof fn lemma_ring(x: int, y: int, c: int, r: int)
    ensures
        ((c == x - 1 && r == y - 1) || (c == x && r == y - 1) || (c == x + 1 && r == y - 1)
            || (c == x - 1 && r == y) || (c == x + 1 && r == y)
            || (c == x - 1 && r == y + 1) || (c == x && r == y + 1) || (c == x + 1 && r == y + 1))
            == (!(c == x && r == y) && -1 <= x - c <= 1 && -1 <= y - r <= 1),
{
}

/// A set of tiles, one bit per tile.
#[derive(Debug, Clone, Copy, PartialEq, Eq, Hash)]
pub struct TileSet {
    bits: u32,
}

impl View for TileSet {
    type V = Set<Tile>;

    closed spec fn view(&self) -> Set<Tile> {
        Set::new(|t: Tile| bit(self.bits, t.ord()))
    }
}

impl TileSet {
    /// The set without tiles.
    pub fn empty() -> (r: TileSet)
        ensures
            r@ == Set::<Tile>::empty(),
    {
        let r = TileSet { bits: 0 };
        proof {
            assert forall|t: Tile| !r@.contains(t) by {
                lemma_bit_zero(t.ord());
            }
            assert(r@ =~= Set::<Tile>::empty());
        }
        r
    }

    /// The set of all 25 tiles.
    pub fn all() -> (r: TileSet)
        ensures
            r@ == Set::<Tile>::full(),
    {
        let r = TileSet { bits: 0x1ff_ffff };
        proof {
            assert forall|t: Tile| r@.contains(t) by {
                let k = t.ord() as u32;
                assert((0x1ff_ffffu32 >> k) & 1 == 1) by (bit_vector)
                    requires k < 25;
            }
            assert(r@ =~= Set::<Tile>::full());
        }
        r
    }

    /// Whether `tile` is in the set.
    pub fn contains(&self, tile: Tile) -> (r: bool)
        ensures
            r == self@.contains(tile),
    {
        let i: u8 = tile.ordinal();
        proof {
            lemma_bit_test(self.bits, i as u32);
        }
        self.bits & (1u32 << (i as u32)) != 0
    }

    /// Adds `tile` to the set.
    pub fn insert(&mut self, tile: Tile)
        ensures
            final(self)@ == old(self)@.insert(tile),
    {
        let i: u8 = tile.ordinal();
        self.bits = self.bits | (1u32 << (i as u32));
        proof {
            assert forall|t: Tile| final(self)@.contains(t) == old(self)@.insert(tile).contains(t) by {
                lemma_bit_set(old(self).bits, i as u32, t.ord());
            }
            assert(final(self)@ =~= old(self)@.insert(tile));
        }
    }

    /// Takes `tile` out of the set.
    pub fn remove(&mut self, tile: Tile)
        ensures
            final(self)@ == old(self)@.remove(tile),
    {
        let i: u8 = tile.ordinal();
        self.bits = self.bits & !(1u32 << (i as u32));
        proof {
            assert forall|t: Tile| final(self)@.contains(t) == old(self)@.remove(tile).contains(t) by {
                lemma_bit_clear(old(self).bits, i as u32, t.ord());
            }
            assert(final(self)@ =~= old(self)@.remove(tile));
        }
    }

    /// The set with `tile` added, where there is one.
    pub fn with(self, tile: Option<Tile>) -> (r: TileSet)
        ensures
            r@ == (match tile {
                Some(t) => self@.insert(t),
                None => self@,
            }),
    {
        let mut r = self;
        if let Some(t) = tile {
            r.insert(t);
        }
        r
    }

    /// The set with the tile in column `x` and row `y` added, where the grid
    /// has such a tile.
    pub fn with_cell(self, x: i8, y: i8) -> (r: TileSet)
        ensures
            forall|t: Tile|
                #[trigger] r@.contains(t) == (self@.contains(t) || (t.col() == x && t.row() == y)),
    {
        let cell = Tile::new(x, y);
        let r = self.with(cell);
        proof {
            assert forall|t: Tile| r@.contains(t) == (self@.contains(t) || (t.col() == x && t.row()
                == y)) by {
                match cell {
                    Some(c) => {
                        Tile::lemma_coords_unique(c, t);
                    },
                    None => {
                        Tile::lemma_coords_unique(t, t);
                    },
                }
            }
        }
        r
    }

    /// The tiles of this set that are not in `other`.
    pub fn difference(self, other: TileSet) -> (r: TileSet)
        ensures
            r@ == self@.difference(other@),
    {
        let r = TileSet { bits: self.bits & !other.bits };
        proof {
            assert forall|t: Tile| r@.contains(t) == self@.difference(other@).contains(t) by {
                lemma_bit_and_not(self.bits, other.bits, t.ord());
            }
            assert(r@ =~= self@.difference(other@));
        }
        r
    }
}

} // verus!
