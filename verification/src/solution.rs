//! Solutions: legal paths over the board that spell a word of the dictionary.

use vstd::prelude::*;
use crate::board::Board;
use crate::letter::Letter;
use crate::path::{Path, Step, steps, legal_path, path_clone};
use crate::score::path_score;
use crate::trie::arena::TrieArena;

verus! {

/// A word found on the board: the path that spells it, and its score.
#[derive(Debug, PartialEq, Eq)]
pub struct Solution {
    pub path: Path,
    pub score: u16,
}

impl Clone for Solution {
    fn clone(&self) -> (copy: Solution)
        ensures
            steps(copy.path) == steps(self.path),
            copy.score == self.score,
    {
        Solution { path: path_clone(&self.path), score: self.score }
    }
}

/// The word that a path spells: the letters of its steps.
pub open spec fn spelled_by(path: Seq<Step>) -> Seq<Letter> {
    path.map_values(|step: Step| step.1)
}

/// Number of swaps that a path makes: the steps whose letter is not the one
/// that the board holds on their tile.
pub open spec fn swaps_used(board: &Board, path: Seq<Step>) -> int
    decreases path.len(),
{
    if path.len() == 0 {
        0
    } else {
        swaps_used(board, path.drop_last()) + if path.last().1 != board.spec_letter_at(path.last().0) {
            1int
        } else {
            0int
        }
    }
}

/// Whether `path` is a solution: a legal path that spells a word of the
/// dictionary and makes at most `budget` swaps.
pub open spec fn is_solution(arena: &TrieArena, board: &Board, budget: int, path: Seq<Step>) -> bool {
    &&& legal_path(path)
    &&& arena@.contains(spelled_by(path))
    &&& swaps_used(board, path) <= budget
}

/// Whether `solution` holds a solution together with its score.
pub open spec fn is_scored_solution(
    arena: &TrieArena,
    board: &Board,
    budget: int,
    solution: Solution,
) -> bool {
    &&& is_solution(arena, board, budget, steps(solution.path))
    &&& solution.score == path_score(board, steps(solution.path))
}

/// A path makes no fewer swaps than any path that it starts with, and none
/// where it is empty.
pub proof fn lemma_swaps_used_prefix(board: &Board, prefix: Seq<Step>, path: Seq<Step>)
    requires
        prefix.is_prefix_of(path),
    ensures
        0 <= swaps_used(board, prefix) <= swaps_used(board, path),
    decreases path.len(),
{
    if prefix.len() == path.len() {
        assert(prefix =~= path);
        if path.len() > 0 {
            assert(path.drop_last().is_prefix_of(path));
            lemma_swaps_used_prefix(board, path.drop_last(), path.drop_last());
        }
    } else {
        assert(prefix.is_prefix_of(path.drop_last())) by {
            assert(prefix =~= path.drop_last().subrange(0, prefix.len() as int));
        }
        lemma_swaps_used_prefix(board, prefix, path.drop_last());
    }
}

} // verus!
