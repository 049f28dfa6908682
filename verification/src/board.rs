//! The board: a letter on every tile, and up to two bonus tiles.

use vstd::prelude::*;
use crate::letter::Letter;
use crate::tile::Tile;

verus! {

/// A letter on each of the 25 tiles, with at most one tile that doubles the
/// letter placed on it and at most one tile that doubles the whole word.
#[derive(Debug, Clone, Copy)]
pub struct Board {
    /// The letters, in the tiles' row-major order.
    pub grid: [Letter; 25],
    /// The tile that doubles a word passing over it, if there is one.
    pub double_word: Option<Tile>,
    /// The tile that doubles the letter placed on it, if there is one.
    pub double_letter: Option<Tile>,
}

impl Board {
    /// The letter that the board holds on `tile`.
    pub open spec fn spec_letter_at(&self, tile: Tile) -> Letter {
        self.grid@[tile.ord()]
    }

    /// The letter that the board holds on `tile`.
    pub fn letter_at(&self, tile: Tile) -> (l: Letter)
        ensures
            l == self.spec_letter_at(tile),
    {
        let i: u8 = tile.ordinal();
        self.grid[i as usize]
    }
}

} // verus!
