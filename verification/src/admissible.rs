//! Why the bounds may prune a search: no solution below a node scores more
//! than the node's bound.

use vstd::prelude::*;
use crate::board::Board;
use crate::bounds::{
    ceiling, deficit, is_bounds_table, reachable_word, shortfall, tally, top_value, word_value,
    lemma_ceiling_bounds, lemma_tally,
};
use crate::letter::Letter;
use crate::path::{Step, legal_path, lemma_legal_pop};
use crate::score::{path_score, steps_value, lemma_steps_value_bounds};
use crate::solution::{is_solution, spelled_by, swaps_used};
use crate::tile::Tile;
use crate::trie::arena::TrieArena;

verus! {

/// How often each letter occurs on the first `n` tiles of the board, the
/// tiles of `excluded` left out.
pub open spec fn grid_tally(board: &Board, excluded: Set<Tile>, n: int) -> Seq<int>
    decreases n,
{
    if n <= 0 {
        Seq::new(26, |i: int| 0int)
    } else {
        let rest = grid_tally(board, excluded, n - 1);
        if excluded.contains(Tile::at(n - 1)) {
            rest
        } else {
            rest.update(board.grid@[n - 1].ord(), rest[board.grid@[n - 1].ord()] + 1)
        }
    }
}

/// The tally of the grid holds 26 counts, none negative.
proof fn lemma_grid_tally(board: &Board, excluded: Set<Tile>, n: int)
    ensures
        grid_tally(board, excluded, n).len() == 26,
        forall|i: int| 0 <= i < 26 ==> 0 <= #[trigger] grid_tally(board, excluded, n)[i],
    decreases n,
{
    if n > 0 {
        lemma_grid_tally(board, excluded, n - 1);
        Letter::lemma_ord_at();
    }
}

/// With no tile left out, the tally of the grid is the tally of its letters.
proof fn lemma_grid_tally_all(board: &Board, n: int)
    requires
        0 <= n <= 25,
    ensures
        grid_tally(board, Set::<Tile>::empty(), n) == tally(board.grid@.take(n)),
    decreases n,
{
    if n > 0 {
        lemma_grid_tally_all(board, n - 1);
        assert(board.grid@.take(n).drop_last() =~= board.grid@.take(n - 1));
        assert(board.grid@.take(n).last() == board.grid@[n - 1]);
    } else {
        assert(board.grid@.take(n) =~= Seq::<Letter>::empty());
    }
}

/// Leaving one more tile out takes one from the count of its letter.
proof fn lemma_grid_tally_exclude(board: &Board, excluded: Set<Tile>, tile: Tile, n: int)
    requires
        !excluded.contains(tile),
        0 <= n <= 25,
    ensures
        grid_tally(board, excluded, n) == (if tile.ord() < n {
            let less = grid_tally(board, excluded.insert(tile), n);
            less.update(
                board.spec_letter_at(tile).ord(),
                less[board.spec_letter_at(tile).ord()] + 1,
            )
        } else {
            grid_tally(board, excluded.insert(tile), n)
        }),
    decreases n,
{
    Tile::lemma_ord_at();
    Letter::lemma_ord_at();
    if n > 0 {
        lemma_grid_tally_exclude(board, excluded, tile, n - 1);
        lemma_grid_tally(board, excluded.insert(tile), n - 1);
        lemma_grid_tally(board, excluded.insert(tile), n);
        lemma_grid_tally(board, excluded, n - 1);
        let here = Tile::at(n - 1);
        let b = board.spec_letter_at(tile).ord();
        let less = grid_tally(board, excluded.insert(tile), n);
        if here == tile {
            assert(grid_tally(board, excluded, n) =~= less.update(b, less[b] + 1));
        } else if tile.ord() < n {
            assert(grid_tally(board, excluded, n) =~= less.update(b, less[b] + 1));
        } else {
            assert(grid_tally(board, excluded, n) =~= less);
        }
    }
}

/// Where nothing is asked for beyond what is to be had, the shortfall is 0.
proof fn lemma_shortfall_none(required: Seq<int>, available: Seq<int>, n: int)
    requires
        forall|i: int| 0 <= i < n ==> #[trigger] required[i] <= available[i],
    ensures
        shortfall(required, available, n) == 0,
    decreases n,
{
    if n > 0 {
        lemma_shortfall_none(required, available, n - 1);
        assert(required[n - 1] <= available[n - 1]);
    }
}

/// Asking for one more of a letter while one more of a letter is to be had
/// leaves the shortfall as it is where the two letters are the same, and
/// raises it by at most one where they differ.
proof fn lemma_shortfall_step(required: Seq<int>, available: Seq<int>, asked: int, had: int, n: int)
    requires
        required.len() == 26,
        available.len() == 26,
        0 <= asked < 26,
        0 <= had < 26,
        0 <= n <= 26,
    ensures
        shortfall(
            required.update(asked, required[asked] + 1),
            available.update(had, available[had] + 1),
            n,
        ) <= shortfall(required, available, n) + if asked == had || n <= asked {
            0int
        } else {
            1int
        },
    decreases n,
{
    if n > 0 {
        lemma_shortfall_step(required, available, asked, had, n - 1);
    }
}

/// A path with no tile twice makes at least as many swaps as its word needs
/// letters beyond those on the tiles that are not in `excluded`, where the
/// path keeps off the tiles in `excluded`.
proof fn lemma_swaps_cover(board: &Board, path: Seq<Step>, excluded: Set<Tile>)
    requires
        legal_path(path),
        forall|i: int| 0 <= i < path.len() ==> !excluded.contains((#[trigger] path[i]).0),
    ensures
        shortfall(tally(spelled_by(path)), grid_tally(board, excluded, 25), 26) <= swaps_used(
            board,
            path,
        ),
    decreases path.len(),
{
    let word = spelled_by(path);
    lemma_grid_tally(board, excluded, 25);
    if path.len() == 0 {
        assert(word =~= Seq::<Letter>::empty());
        lemma_shortfall_none(tally(word), grid_tally(board, excluded, 25), 26);
    } else {
        let rest = path.drop_last();
        let (tile, letter) = path.last();
        let more = excluded.insert(tile);
        assert(legal_path(rest)) by {
            lemma_legal_pop(path);
        }
        assert forall|i: int| 0 <= i < rest.len() implies !more.contains((#[trigger] rest[i]).0) by {
            assert(rest[i] == path[i]);
            assert(path[i].0 != path[path.len() - 1].0);
        }
        lemma_swaps_cover(board, rest, more);
        assert(word.drop_last() =~= spelled_by(rest));
        assert(word.last() == letter);
        assert(!excluded.contains(path[path.len() - 1].0));
        lemma_grid_tally_exclude(board, excluded, tile, 25);
        lemma_grid_tally(board, more, 25);
        lemma_tally(spelled_by(rest));
        Letter::lemma_ord_at();
        Tile::lemma_ord_at();
        let had = board.spec_letter_at(tile);
        lemma_shortfall_step(tally(spelled_by(rest)), grid_tally(board, more, 25), letter.ord(), had.ord(), 26);
        assert(letter.ord() == had.ord() ==> letter == had);
    }
}

/// A legal path makes at least as many swaps as its word needs letters that
/// the board lacks.
pub proof fn lemma_swaps_cover_deficit(board: &Board, path: Seq<Step>)
    requires
        legal_path(path),
    ensures
        deficit(board, spelled_by(path)) <= swaps_used(board, path),
{
    lemma_swaps_cover(board, path, Set::<Tile>::empty());
    lemma_grid_tally_all(board, 25);
    assert(board.grid@.take(25) =~= board.grid@);
}

/// Where a path keeps off the double-letter tile, its steps add up to the
/// value of its word.
proof fn lemma_plain_value(board: &Board, path: Seq<Step>)
    requires
        forall|i: int| 0 <= i < path.len() ==> board.double_letter != Some((#[trigger] path[i]).0),
    ensures
        steps_value(board, path) == word_value(spelled_by(path)),
    decreases path.len(),
{
    if path.len() > 0 {
        let rest = path.drop_last();
        assert forall|i: int| 0 <= i < rest.len() implies board.double_letter != Some(
            (#[trigger] rest[i]).0,
        ) by {
            assert(rest[i] == path[i]);
        }
        lemma_plain_value(board, rest);
        assert(spelled_by(path).drop_last() =~= spelled_by(rest));
        assert(board.double_letter != Some(path[path.len() - 1].0));
    }
}

/// The steps of a legal path add up to at most the value of its word and of
/// its most valuable letter: at most one step lands on the double-letter tile.
proof fn lemma_steps_value_ceiling(board: &Board, path: Seq<Step>)
    requires
        legal_path(path),
    ensures
        steps_value(board, path) <= word_value(spelled_by(path)) + top_value(spelled_by(path)),
    decreases path.len(),
{
    let word = spelled_by(path);
    lemma_ceiling_bounds(word);
    if path.len() > 0 {
        let rest = path.drop_last();
        lemma_legal_pop(path);
        assert(word.drop_last() =~= spelled_by(rest));
        assert(word.last() == path.last().1);
        lemma_ceiling_bounds(spelled_by(rest));
        if board.double_letter == Some(path.last().0) {
            assert forall|i: int| 0 <= i < rest.len() implies board.double_letter != Some(
                (#[trigger] rest[i]).0,
            ) by {
                assert(rest[i] == path[i]);
                assert(path[i].0 != path[path.len() - 1].0);
            }
            lemma_plain_value(board, rest);
        } else {
            lemma_steps_value_ceiling(board, rest);
        }
    }
}

/// A legal path scores at most the ceiling of the word that it spells.
pub proof fn lemma_score_below_ceiling(board: &Board, path: Seq<Step>)
    requires
        legal_path(path),
    ensures
        path_score(board, path) <= ceiling(spelled_by(path)),
{
    lemma_steps_value_ceiling(board, path);
    lemma_steps_value_bounds(board, path);
    assert(spelled_by(path).len() == path.len());
}

/// The bounds are admissible: a solution scores at most the bound of each
/// node that the walk along its word passes through. A search may therefore
/// leave out what lies below a node whose bound is no more than what it needs.
pub proof fn lemma_bound_admissible(
    arena: &TrieArena,
    board: &Board,
    swaps: int,
    table: Seq<u16>,
    prefix: Seq<Letter>,
    path: Seq<Step>,
)
    requires
        arena.wf(),
        is_bounds_table(arena, board, swaps, table),
        is_solution(arena, board, swaps, path),
        prefix.is_prefix_of(spelled_by(path)),
    ensures
        arena.node_of(prefix) matches Some(j) && 0 <= j < table.len() && path_score(board, path)
            <= table[j],
{
    let word = spelled_by(path);
    arena.lemma_node_of(word);
    assert(word.take(prefix.len() as int) =~= prefix);
    arena.lemma_node_of_take(word, prefix.len() as int);
    lemma_swaps_cover_deficit(board, path);
    lemma_score_below_ceiling(board, path);
    assert(reachable_word(arena, board, swaps, prefix, word));
}

} // verus!
