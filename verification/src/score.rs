//! The value of letters and the score of a path.

use vstd::prelude::*;
use crate::board::Board;
use crate::letter::Letter;
use crate::path::Step;
use crate::tile::Tile;

verus! {

/// The value of a letter: rare letters are worth more.
pub open spec fn letter_value(letter: Letter) -> int {
    match letter {
        Letter::A | Letter::E | Letter::I | Letter::O => 1,
        Letter::N | Letter::R | Letter::S | Letter::T => 2,
        Letter::D | Letter::G | Letter::L => 3,
        Letter::B | Letter::H | Letter::M | Letter::P | Letter::U | Letter::Y => 4,
        Letter::C | Letter::F | Letter::V | Letter::W => 5,
        Letter::K => 6,
        Letter::J | Letter::X => 7,
        Letter::Q | Letter::Z => 8,
    }
}

/// The bonus for a word of `length` letters: 10 from six letters on.
pub open spec fn length_bonus(length: int) -> int {
    if length >= 6 { 10 } else { 0 }
}

/// What one step adds to a word: the value of its letter, doubled on the
/// board's double-letter tile.
pub open spec fn step_value(board: &Board, step: Step) -> int {
    if board.double_letter == Some(step.0) {
        2 * letter_value(step.1)
    } else {
        letter_value(step.1)
    }
}

/// The sum of what the steps of `path` add.
pub open spec fn steps_value(board: &Board, path: Seq<Step>) -> int
    decreases path.len(),
{
    if path.len() == 0 {
        0
    } else {
        steps_value(board, path.drop_last()) + step_value(board, path.last())
    }
}

/// Whether some step of `path` lands on the board's double-word tile.
pub open spec fn crosses_double_word(board: &Board, path: Seq<Step>) -> bool {
    exists|i: int| 0 <= i < path.len() && board.double_word == Some((#[trigger] path[i]).0)
}

/// The score of a path: the sum over its steps, doubled once if the path
/// crosses the double-word tile, plus the bonus for its length.
pub open spec fn path_score(board: &Board, path: Seq<Step>) -> int {
    steps_value(board, path) * (if crosses_double_word(board, path) { 2int } else { 1int })
        + length_bonus(path.len() as int)
}

/// The sum over the steps is at least their number and at most 16 times it.
pub proof fn lemma_steps_value_bounds(board: &Board, path: Seq<Step>)
    ensures
        path.len() <= steps_value(board, path) <= 16 * path.len(),
        path.len() <= path_score(board, path) <= 32 * path.len() + 10,
    decreases path.len(),
{
    if path.len() > 0 {
        lemma_steps_value_bounds(board, path.drop_last());
    }
}

/// The value of a letter, from 1 to 8.
pub fn letter_score(letter: Letter) -> (value: u16)
    ensures
        value == letter_value(letter),
        1 <= value <= 8,
{
    match letter {
        Letter::A | Letter::E | Letter::I | Letter::O => 1,
        Letter::N | Letter::R | Letter::S | Letter::T => 2,
        Letter::D | Letter::G | Letter::L => 3,
        Letter::B | Letter::H | Letter::M | Letter::P | Letter::U | Letter::Y => 4,
        Letter::C | Letter::F | Letter::V | Letter::W => 5,
        Letter::K => 6,
        Letter::J | Letter::X => 7,
        Letter::Q | Letter::Z => 8,
    }
}

/// The bonus for a word of `length` letters: 10 from six letters on, else 0.
pub fn long_word_bonus(length: usize) -> (bonus: u16)
    ensures
        bonus == length_bonus(length as int),
{
    if length >= 6 { 10 } else { 0 }
}

/// The score of `path` on `board`. The path may hold up to 2047 steps, so
/// that the score fits the result.
pub fn score(board: &Board, path: &[Step]) -> (total: u16)
    requires
        path@.len() <= 2047,
    ensures
        total == path_score(board, path@),
{
    let mut word_score: u16 = 0;
    let mut word_multiplier: u16 = 1;
    let mut i: usize = 0;
    while i < path.len()
        invariant
            i <= path@.len() <= 2047,
            word_score == steps_value(board, path@.take(i as int)),
            word_multiplier == (if crosses_double_word(board, path@.take(i as int)) { 2int } else { 1int }),
        decreases path@.len() - i,
    {
        let (tile, letter) = path[i];
        let mut value: u16 = letter_score(letter);
        if same_tile(board.double_letter, tile) {
            value = value * 2;
        }
        proof {
            let before = path@.take(i as int);
            let after = path@.take(i + 1);
            assert(after.drop_last() == before);
            assert(after.last() == path@[i as int]);
            lemma_steps_value_bounds(board, before);
            if crosses_double_word(board, before) {
                let k = choose|k: int| 0 <= k < before.len() && board.double_word == Some((#[trigger] before[k]).0);
                assert(board.double_word == Some(after[k].0));
            }
            if board.double_word == Some(tile) {
                assert(board.double_word == Some(after[i as int].0));
            }
            if crosses_double_word(board, after) && board.double_word != Some(tile) {
                let k = choose|k: int| 0 <= k < after.len() && board.double_word == Some((#[trigger] after[k]).0);
                assert(board.double_word == Some(before[k].0));
            }
        }
        if same_tile(board.double_word, tile) {
            word_multiplier = 2;
        }
        word_score = word_score + value;
        i = i + 1;
    }
    proof {
        assert(path@.take(i as int) == path@);
        lemma_steps_value_bounds(board, path@);
    }
    word_score * word_multiplier + long_word_bonus(path.len())
}

/// Whether `bonus` is the tile `tile`.
fn same_tile(bonus: Option<Tile>, tile: Tile) -> (same: bool)
    ensures
        same == (bonus == Some(tile)),
{
    match bonus {
        Some(t) => t == tile,
        None => false,
    }
}

} // verus!
