//! What holds of the best lists of one board for different limits.

use vstd::prelude::*;
use vstd::set_lib::{set_int_range, lemma_int_range, lemma_len_subset};
use crate::board::Board;
use crate::path::{Step, steps};
use crate::shortlist::descending;
use crate::solution::{Solution, is_scored_solution};
use crate::solve::{absorbed, all_scored, distinct_paths, holds_path, is_best_list, outscored};
use crate::trie::arena::TrieArena;

verus! {

/// Numbers that differ from one another and lie in `0..n` are at most `n`.
proof fn lemma_pigeonhole(numbers: Seq<int>, n: int)
    requires
        0 <= n,
        forall|i: int| 0 <= i < numbers.len() ==> 0 <= #[trigger] numbers[i] < n,
        forall|i: int, j: int|
            0 <= i < j < numbers.len() ==> #[trigger] numbers[i] != #[trigger] numbers[j],
    ensures
        numbers.len() <= n,
{
    let range = set_int_range(0, n);
    assert forall|x: int| numbers.to_set().contains(x) implies range.contains(x) by {}
    assert(numbers.no_duplicates());
    numbers.unique_seq_to_set();
    lemma_int_range(0, n);
    lemma_len_subset(numbers.to_set(), range);
}

/// The place in `list` of the solution that walks along `path`.
spec fn place_of(list: Seq<Solution>, path: Seq<Step>) -> int {
    choose|e: int| 0 <= e < list.len() && steps((#[trigger] list[e]).path) == path
}

/// Where each of the first `n` solutions of one list is held by another
/// list, before place `m` there, `n` is at most `m`.
proof fn lemma_held_before(one: Seq<Solution>, other: Seq<Solution>, n: int, m: int)
    requires
        0 <= n <= one.len(),
        0 <= m,
        distinct_paths(one),
        forall|j: int|
            0 <= j < n ==> holds_path(other, steps((#[trigger] one[j]).path)) && place_of(
                other,
                steps(one[j].path),
            ) < m,
    ensures
        n <= m,
{
    let places = Seq::new(n as nat, |j: int| place_of(other, steps(one[j].path)));
    assert forall|j: int| 0 <= j < places.len() implies 0 <= #[trigger] places[j] < m by {
        assert(holds_path(other, steps(one[j].path)));
    }
    assert forall|i: int, j: int| 0 <= i < j < places.len() implies #[trigger] places[i]
        != #[trigger] places[j] by {
        assert(holds_path(other, steps(one[i].path)));
        assert(holds_path(other, steps(one[j].path)));
        assert(steps(one[i].path) != steps(one[j].path));
    }
    lemma_pigeonhole(places, m);
}

/// Of two best lists of one board, the second scores at each place that both
/// have at least what the first scores there.
proof fn lemma_scores_dominate(
    one: Seq<Solution>,
    other: Seq<Solution>,
    limit: int,
    arena: &TrieArena,
    board: &Board,
    budget: int,
    i: int,
)
    requires
        0 <= i < one.len(),
        i < other.len(),
        descending(one),
        distinct_paths(one),
        all_scored(one, arena, board, budget),
        descending(other),
        all_scored(other, arena, board, budget),
        forall|j: int| 0 <= j < one.len() ==> absorbed(other, limit, board, steps((#[trigger] one[j]).path)),
    ensures
        other[i].score >= one[i].score,
{
    if other[i].score < one[i].score {
        assert forall|j: int| 0 <= j < i + 1 implies holds_path(
            other,
            steps((#[trigger] one[j]).path),
        ) && place_of(other, steps(one[j].path)) < i by {
            let path = steps(one[j].path);
            assert(absorbed(other, limit, board, path));
            assert(is_scored_solution(arena, board, budget, one[j]));
            assert(one[j].score >= one[i].score);
            if !holds_path(other, path) {
                assert(outscored(other, board, path));
                assert(other[i].score >= one[j].score);
            }
            let e = place_of(other, path);
            assert(is_scored_solution(arena, board, budget, other[e]));
            if e >= i {
                assert(other[i].score >= other[e].score);
            }
        }
        lemma_held_before(one, other, i + 1, i);
    }
}

/// Asking for more results takes no result away, but for ties at the end of
/// the list. Of the best lists of one board for two limits, the list for the
/// greater limit is no shorter; at each place of the shorter list the two
/// hold the same score; and a solution of the shorter list is missing from
/// the longer one only where the longer one is full and ends with that very
/// score.
pub proof fn lemma_more_results(
    small: Seq<Solution>,
    small_limit: int,
    large: Seq<Solution>,
    large_limit: int,
    arena: &TrieArena,
    board: &Board,
    budget: int,
)
    requires
        is_best_list(small, small_limit, arena, board, budget),
        is_best_list(large, large_limit, arena, board, budget),
        small_limit <= large_limit,
    ensures
        small.len() <= large.len(),
        forall|i: int| 0 <= i < small.len() ==> (#[trigger] small[i]).score == large[i].score,
        forall|i: int|
            0 <= i < small.len() ==> holds_path(large, steps((#[trigger] small[i]).path)) || (
            large.len() == large_limit && large.last().score == small[i].score),
{
    assert forall|j: int| 0 <= j < small.len() implies absorbed(
        large,
        large_limit,
        board,
        steps((#[trigger] small[j]).path),
    ) by {
        assert(is_scored_solution(arena, board, budget, small[j]));
    }
    assert forall|j: int| 0 <= j < large.len() implies absorbed(
        small,
        small_limit,
        board,
        steps((#[trigger] large[j]).path),
    ) by {
        assert(is_scored_solution(arena, board, budget, large[j]));
    }
    if large.len() < small.len() {
        assert forall|j: int| 0 <= j < small.len() implies holds_path(
            large,
            steps((#[trigger] small[j]).path),
        ) && place_of(large, steps(small[j].path)) < large.len() by {
            assert(absorbed(large, large_limit, board, steps(small[j].path)));
        }
        lemma_held_before(small, large, small.len() as int, large.len() as int);
    }
    assert forall|i: int| 0 <= i < small.len() implies (#[trigger] small[i]).score
        == large[i].score by {
        lemma_scores_dominate(small, large, large_limit, arena, board, budget, i);
        lemma_scores_dominate(large, small, small_limit, arena, board, budget, i);
    }
    assert forall|i: int| 0 <= i < small.len() implies holds_path(
        large,
        steps((#[trigger] small[i]).path),
    ) || (large.len() == large_limit && large.last().score == small[i].score) by {
        let path = steps(small[i].path);
        assert(absorbed(large, large_limit, board, path));
        assert(is_scored_solution(arena, board, budget, small[i]));
        if !holds_path(large, path) {
            assert(small[i].score == large[i].score);
            assert(large[i].score >= large[large.len() - 1].score);
            assert(large[large.len() - 1].score >= small[i].score);
        }
    }
}

} // verus!
