//! The search: a walk over the board and the dictionary at once, cut short
//! by the bounds, that keeps the best solutions.

use vstd::prelude::*;
use crate::admissible::lemma_bound_admissible;
use crate::board::Board;
use crate::bounds::{calculate_upper_bounds, is_bounds_table};
use crate::letter::Letter;
use crate::path::{
    PathState, Step, can_step, legal_path, lemma_legal_push, path_as_slice, path_clone, steps,
    visits,
};
use crate::score::{path_score, score};
use crate::shortlist::{Shortlist, descending, offered, place_for, lemma_offered, lemma_place_for};
use crate::solution::{
    Solution, is_scored_solution, is_solution, spelled_by, swaps_used, lemma_swaps_used_prefix,
};
use crate::tile::Tile;
use crate::trie::arena::{TrieArena, TrieRef};
use crate::word::{lemma_prefix_push, lemma_prefix_same_len};

verus! {

/// Whether one of the solutions of `list` walks along `path`.
pub open spec fn holds_path(list: Seq<Solution>, path: Seq<Step>) -> bool {
    exists|i: int| 0 <= i < list.len() && steps((#[trigger] list[i]).path) == path
}

/// Whether every solution of `list` scores as much as `path` or more.
pub open spec fn outscored(list: Seq<Solution>, board: &Board, path: Seq<Step>) -> bool {
    forall|i: int| 0 <= i < list.len() ==> (#[trigger] list[i]).score >= path_score(board, path)
}

/// Whether a list of at most `limit` solutions accounts for `path`: it holds
/// the path, or it is full of solutions that score as much or more.
pub open spec fn absorbed(list: Seq<Solution>, limit: int, board: &Board, path: Seq<Step>) -> bool {
    holds_path(list, path) || (list.len() == limit && outscored(list, board, path))
}

/// Whether every entry of `list` is a solution with its score.
pub open spec fn all_scored(list: Seq<Solution>, arena: &TrieArena, board: &Board, budget: int) -> bool {
    forall|i: int| 0 <= i < list.len() ==> is_scored_solution(arena, board, budget, #[trigger] list[i])
}

/// Whether no two entries of `list` walk along the same path.
pub open spec fn distinct_paths(list: Seq<Solution>) -> bool {
    forall|i: int, j: int|
        0 <= i < j < list.len() ==> steps((#[trigger] list[i]).path) != steps(
            (#[trigger] list[j]).path,
        )
}

/// Whether `list` holds the best of the solutions on `board`: at most `limit`
/// of them, each once and with its score, highest first; and every solution
/// that it does not hold scores no more than any that it holds, the list
/// being full.
pub open spec fn is_best_list(
    list: Seq<Solution>,
    limit: int,
    arena: &TrieArena,
    board: &Board,
    budget: int,
) -> bool {
    &&& list.len() <= limit
    &&& descending(list)
    &&& all_scored(list, arena, board, budget)
    &&& distinct_paths(list)
    &&& forall|path: Seq<Step>| #[trigger]
        is_solution(arena, board, budget, path) ==> absorbed(list, limit, board, path)
}

/// Whether `list` holds the best of the solutions in `seen`.
pub open spec fn covers(
    list: Seq<Solution>,
    limit: int,
    arena: &TrieArena,
    board: &Board,
    budget: int,
    seen: Set<Seq<Step>>,
) -> bool {
    &&& all_scored(list, arena, board, budget)
    &&& distinct_paths(list)
    &&& forall|i: int| 0 <= i < list.len() ==> seen.contains(steps((#[trigger] list[i]).path))
    &&& forall|path: Seq<Step>| #[trigger]
        seen.contains(path) ==> is_solution(arena, board, budget, path) && absorbed(
            list,
            limit,
            board,
            path,
        )
}

/// The solutions that start with `path`.
pub open spec fn below(arena: &TrieArena, board: &Board, budget: int, path: Seq<Step>) -> Set<
    Seq<Step>,
> {
    Set::new(|p: Seq<Step>| is_solution(arena, board, budget, p) && path.is_prefix_of(p))
}

/// The solutions in `seen`, and those that start with `path` and end there
/// or go on with a step of `done`.
pub open spec fn stage(
    arena: &TrieArena,
    board: &Board,
    budget: int,
    seen: Set<Seq<Step>>,
    path: Seq<Step>,
    done: Set<Step>,
) -> Set<Seq<Step>> {
    Set::new(
        |p: Seq<Step>|
            seen.contains(p) || (is_solution(arena, board, budget, p) && path.is_prefix_of(p) && (
            p.len() == path.len() || done.contains(p[path.len() as int]))),
    )
}

/// Whether a solution may go on after `path` with `step`: the step is legal,
/// the dictionary has words that go on so, and the swaps suffice.
pub open spec fn viable(
    arena: &TrieArena,
    board: &Board,
    budget: int,
    path: Seq<Step>,
    step: Step,
) -> bool {
    &&& can_step(path, step.0)
    &&& arena.node_of(spelled_by(path).push(step.1)) is Some
    &&& swaps_used(board, path.push(step)) <= budget
}

/// A path that starts with another spells a word that starts with the word
/// of the other.
pub proof fn lemma_spelled_prefix(prefix: Seq<Step>, path: Seq<Step>)
    requires
        prefix.is_prefix_of(path),
    ensures
        spelled_by(prefix).is_prefix_of(spelled_by(path)),
{
    assert(prefix =~= path.subrange(0, prefix.len() as int));
    assert(spelled_by(prefix) =~= spelled_by(path).subrange(0, prefix.len() as int));
}

/// The path that starts a legal path is legal.
pub proof fn lemma_legal_prefix(prefix: Seq<Step>, path: Seq<Step>)
    requires
        legal_path(path),
        prefix.is_prefix_of(path),
    ensures
        legal_path(prefix),
{
    assert(prefix =~= path.subrange(0, prefix.len() as int));
    assert forall|i: int, j: int| 0 <= i < j < prefix.len() implies (#[trigger] prefix[i]).0 != (
    #[trigger] prefix[j]).0 by {
        assert(path[i].0 != path[j].0);
    }
    assert forall|i: int| 0 <= i < prefix.len() - 1 implies (#[trigger] prefix[i]).0.adjacent(
        prefix[i + 1].0,
    ) by {
        assert(path[i].0.adjacent(path[i + 1].0));
    }
}

/// A solution that goes on after `path` does so with a viable step.
pub proof fn lemma_next_step_viable(
    arena: &TrieArena,
    board: &Board,
    budget: int,
    path: Seq<Step>,
    solution: Seq<Step>,
)
    requires
        arena.wf(),
        is_solution(arena, board, budget, solution),
        path.is_prefix_of(solution),
        solution.len() > path.len(),
    ensures
        viable(arena, board, budget, path, solution[path.len() as int]),
{
    let n = path.len() as int;
    let step = solution[n];
    let longer = path.push(step);
    lemma_prefix_push(path, step, solution);
    lemma_legal_prefix(longer, solution);
    assert(!visits(path, step.0)) by {
        if visits(path, step.0) {
            let i = choose|i: int| 0 <= i < path.len() && (#[trigger] path[i]).0 == step.0;
            assert(longer[i].0 != longer[n].0);
        }
    }
    if n > 0 {
        assert(longer[n - 1].0.adjacent(longer[n - 1 + 1].0));
    }
    lemma_spelled_prefix(longer, solution);
    assert(spelled_by(longer) =~= spelled_by(path).push(step.1));
    let word = spelled_by(solution);
    arena.lemma_node_of(word);
    arena.lemma_node_of_take(word, n + 1);
    assert(word.take(n + 1) =~= spelled_by(longer)) by {
        assert(spelled_by(longer) =~= word.subrange(0, n + 1));
    }
    lemma_swaps_used_prefix(board, longer, solution);
}

/// Steps that are not viable add nothing to a stage.
pub proof fn lemma_stage_widen(
    arena: &TrieArena,
    board: &Board,
    budget: int,
    seen: Set<Seq<Step>>,
    path: Seq<Step>,
    done: Set<Step>,
    more: Set<Step>,
)
    requires
        arena.wf(),
        forall|s: Step| done.contains(s) ==> more.contains(s),
        forall|s: Step| more.contains(s) && !done.contains(s) ==> !viable(arena, board, budget, path, s),
    ensures
        stage(arena, board, budget, seen, path, more) == stage(arena, board, budget, seen, path, done),
{
    let a = stage(arena, board, budget, seen, path, more);
    let b = stage(arena, board, budget, seen, path, done);
    assert forall|p: Seq<Step>| a.contains(p) == b.contains(p) by {
        if is_solution(arena, board, budget, p) && path.is_prefix_of(p) && p.len() > path.len() {
            lemma_next_step_viable(arena, board, budget, path, p);
        }
    }
    assert(a =~= b);
}

/// One more step done adds to a stage the solutions that go on with it.
pub proof fn lemma_stage_take(
    arena: &TrieArena,
    board: &Board,
    budget: int,
    seen: Set<Seq<Step>>,
    path: Seq<Step>,
    done: Set<Step>,
    step: Step,
)
    ensures
        stage(arena, board, budget, seen, path, done.insert(step)) == stage(
            arena,
            board,
            budget,
            seen,
            path,
            done,
        ).union(below(arena, board, budget, path.push(step))),
{
    let a = stage(arena, board, budget, seen, path, done.insert(step));
    let b = stage(arena, board, budget, seen, path, done).union(
        below(arena, board, budget, path.push(step)),
    );
    assert forall|p: Seq<Step>| a.contains(p) == b.contains(p) by {
        lemma_prefix_push(path, step, p);
    }
    assert(a =~= b);
}

/// With every step done, a stage holds all the solutions that start with
/// the path.
pub proof fn lemma_stage_full(
    arena: &TrieArena,
    board: &Board,
    budget: int,
    seen: Set<Seq<Step>>,
    path: Seq<Step>,
)
    ensures
        stage(arena, board, budget, seen, path, Set::<Step>::full()) == seen.union(
            below(arena, board, budget, path),
        ),
{
    let a = stage(arena, board, budget, seen, path, Set::<Step>::full());
    let b = seen.union(below(arena, board, budget, path));
    assert forall|p: Seq<Step>| a.contains(p) == b.contains(p) by {
        if path.is_prefix_of(p) {
            assert(p.len() >= path.len());
        }
    }
    assert(a =~= b);
}

/// With no step done, a stage holds, beside what was seen, the path itself
/// where it is a solution.
pub proof fn lemma_stage_start(
    arena: &TrieArena,
    board: &Board,
    budget: int,
    seen: Set<Seq<Step>>,
    path: Seq<Step>,
)
    ensures
        stage(arena, board, budget, seen, path, Set::<Step>::empty()) == (if is_solution(
            arena,
            board,
            budget,
            path,
        ) {
            seen.insert(path)
        } else {
            seen
        }),
{
    let a = stage(arena, board, budget, seen, path, Set::<Step>::empty());
    let b = if is_solution(arena, board, budget, path) {
        seen.insert(path)
    } else {
        seen
    };
    assert forall|p: Seq<Step>| a.contains(p) == b.contains(p) by {
        if path.is_prefix_of(p) && p.len() == path.len() {
            lemma_prefix_same_len(path, p);
        }
        if p == path {
            assert(path.is_prefix_of(path));
        }
    }
    assert(a =~= b);
}

/// Where nothing seen starts with a path, nothing of a stage of that path
/// goes on with a step that is not done.
pub proof fn lemma_stage_fresh(
    arena: &TrieArena,
    board: &Board,
    budget: int,
    seen: Set<Seq<Step>>,
    path: Seq<Step>,
    done: Set<Step>,
    step: Step,
)
    requires
        forall|p: Seq<Step>| #[trigger] seen.contains(p) ==> !path.is_prefix_of(p),
        !done.contains(step),
    ensures
        forall|p: Seq<Step>| #[trigger]
            stage(arena, board, budget, seen, path, done).contains(p) ==> !path.push(
                step,
            ).is_prefix_of(p),
{
    assert forall|p: Seq<Step>| #[trigger]
        stage(arena, board, budget, seen, path, done).contains(p) implies !path.push(
        step,
    ).is_prefix_of(p) by {
        lemma_prefix_push(path, step, p);
    }
}

/// An offer keeps a list the best of what was seen, the offered solution
/// now among it.
pub proof fn lemma_offer_covers(
    list: Seq<Solution>,
    limit: int,
    arena: &TrieArena,
    board: &Board,
    budget: int,
    seen: Set<Seq<Step>>,
    solution: Solution,
)
    requires
        covers(list, limit, arena, board, budget, seen),
        descending(list),
        list.len() <= limit,
        is_scored_solution(arena, board, budget, solution),
        !seen.contains(steps(solution.path)),
    ensures
        covers(
            offered(list, limit, solution),
            limit,
            arena,
            board,
            budget,
            seen.insert(steps(solution.path)),
        ),
{
    let next = offered(list, limit, solution);
    let at = place_for(list, solution.score);
    let own = steps(solution.path);
    let wider = seen.insert(own);
    lemma_offered(list, limit, solution);
    lemma_place_for(list, solution.score);
    assert forall|i: int| 0 <= i < next.len() implies is_scored_solution(
        arena,
        board,
        budget,
        #[trigger] next[i],
    ) && wider.contains(steps(next[i].path)) by {
        if i < at {
            assert(next[i] == list[i]);
        } else if i > at {
            assert(next[i] == list[i - 1]);
        }
    }
    assert forall|i: int, j: int| 0 <= i < j < next.len() implies steps((#[trigger] next[i]).path)
        != steps((#[trigger] next[j]).path) by {
        let fi = if i < at { i } else { i - 1 };
        let fj = if j < at { j } else { j - 1 };
        if i == at {
            assert(next[j] == list[fj]);
            assert(seen.contains(steps(list[fj].path)));
        } else if j == at {
            assert(next[i] == list[fi]);
            assert(seen.contains(steps(list[fi].path)));
        } else {
            assert(next[i] == list[fi]);
            assert(next[j] == list[fj]);
        }
    }
    assert forall|path: Seq<Step>| #[trigger] wider.contains(path) implies is_solution(
        arena,
        board,
        budget,
        path,
    ) && absorbed(next, limit, board, path) by {
        if path == own {
            if at < next.len() {
                assert(next[at] == solution);
            } else {
                assert(next.len() == limit == list.len());
                assert forall|i: int| 0 <= i < next.len() implies (#[trigger] next[i]).score
                    >= path_score(board, path) by {
                    assert(next[i] == list[i]);
                }
            }
        } else {
            assert(seen.contains(path));
            if holds_path(list, path) {
                let i = choose|i: int| 0 <= i < list.len() && steps((#[trigger] list[i]).path) == path;
                assert(is_scored_solution(arena, board, budget, list[i]));
                if i < at {
                    assert(next[i] == list[i]);
                } else if i + 1 < next.len() {
                    assert(next[i + 1] == list[i]);
                } else {
                    assert(next.len() == limit);
                    assert forall|e: int| 0 <= e < next.len() implies (#[trigger] next[e]).score
                        >= path_score(board, path) by {
                        if e < at {
                            assert(next[e] == list[e]);
                            assert(list[e].score >= list[i].score);
                        } else if e == at {
                            assert(list[i].score < solution.score);
                        } else {
                            assert(next[e] == list[e - 1]);
                            assert(list[e - 1].score >= list[i].score);
                        }
                    }
                }
            } else {
                assert(list.len() == limit && outscored(list, board, path));
                assert forall|e: int| 0 <= e < next.len() implies (#[trigger] next[e]).score
                    >= path_score(board, path) by {
                    if e < at {
                        assert(next[e] == list[e]);
                    } else if e == at {
                        assert(list[at].score < solution.score);
                    } else {
                        assert(next[e] == list[e - 1]);
                    }
                }
            }
        }
    }
}

/// A full list whose lowest score is no less than the bound of a node
/// accounts for every solution below that node.
pub proof fn lemma_prune(
    list: Seq<Solution>,
    limit: int,
    arena: &TrieArena,
    board: &Board,
    budget: int,
    seen: Set<Seq<Step>>,
    table: Seq<u16>,
    path: Seq<Step>,
    node: int,
)
    requires
        arena.wf(),
        covers(list, limit, arena, board, budget, seen),
        descending(list),
        is_bounds_table(arena, board, budget, table),
        arena.node_of(spelled_by(path)) == Some(node),
        0 < list.len() == limit,
        table[node] <= list.last().score,
    ensures
        covers(list, limit, arena, board, budget, seen.union(below(arena, board, budget, path))),
{
    let wider = seen.union(below(arena, board, budget, path));
    assert forall|p: Seq<Step>| #[trigger] wider.contains(p) implies is_solution(
        arena,
        board,
        budget,
        p,
    ) && absorbed(list, limit, board, p) by {
        if !seen.contains(p) {
            lemma_spelled_prefix(path, p);
            lemma_bound_admissible(arena, board, budget, table, spelled_by(path), p);
            assert forall|i: int| 0 <= i < list.len() implies (#[trigger] list[i]).score
                >= path_score(board, p) by {
                assert(list[i].score >= list[list.len() - 1].score);
            }
        }
    }
}

/// Whether one of the first `k` of `kids` stands under `letter`.
pub open spec fn listed_letter(kids: Seq<(Letter, TrieRef<'_>)>, k: int, letter: Letter) -> bool {
    exists|e: int| 0 <= e < k && e < kids.len() && (#[trigger] kids[e]).0 == letter
}

/// The steps without a swap onto the tiles before the `i`-th.
pub open spec fn plain_done(board: &Board, i: int) -> Set<Step> {
    Set::new(|s: Step| s.1 == board.spec_letter_at(s.0) && s.0.ord() < i)
}

/// The steps without a swap, the steps with a swap onto the tiles before the
/// `i`-th, and those onto the `i`-th tile with a letter of the first `k`
/// of `kids`.
pub open spec fn swap_done(board: &Board, kids: Seq<(Letter, TrieRef<'_>)>, i: int, k: int) -> Set<
    Step,
> {
    Set::new(
        |s: Step|
            s.1 == board.spec_letter_at(s.0) || s.0.ord() < i || (s.0.ord() == i && listed_letter(
                kids,
                k,
                s.1,
            )),
    )
}

/// Walks on from the path `current`, which has come to the node `trie` of
/// the dictionary and has `swaps` swaps left, and offers every solution on
/// the way to `solutions`; what lies below a node whose bound is no more than
/// the lowest score of a full list is left out.
fn search(
    board: &Board,
    upper_bounds: &Vec<u16>,
    solutions: &mut Shortlist,
    current: &mut PathState,
    trie: TrieRef<'_>,
    swaps: u8,
    Ghost(budget): Ghost<int>,
    Ghost(seen): Ghost<Set<Seq<Step>>>,
)
    requires
        trie.wf(),
        is_bounds_table(trie.arena(), board, budget, upper_bounds@),
        old(solutions).wf(),
        old(current).wf(),
        spelled_by(old(current)@) == trie.prefix(),
        swaps_used(board, old(current)@) + swaps == budget,
        covers(old(solutions)@, old(solutions).limit(), trie.arena(), board, budget, seen),
        forall|p: Seq<Step>| #[trigger] seen.contains(p) ==> !old(current)@.is_prefix_of(p),
    ensures
        final(solutions).wf(),
        final(solutions).limit() == old(solutions).limit(),
        final(current).wf(),
        final(current)@ == old(current)@,
        covers(
            final(solutions)@,
            old(solutions).limit(),
            trie.arena(),
            board,
            budget,
            seen.union(below(trie.arena(), board, budget, old(current)@)),
        ),
    decreases 25 - old(current)@.len(),
{
    let ghost arena = trie.arena();
    let ghost base = current@;
    let ghost limit = solutions.limit();
    proof {
        trie.lemma_wf();
        current.lemma_wf();
        solutions.lemma_wf();
    }
    let max_score = upper_bounds[trie.index()];
    if solutions.is_full() {
        if let Some(lowest) = solutions.lowest() {
            if max_score <= lowest {
                proof {
                    lemma_prune(
                        solutions@,
                        limit,
                        arena,
                        board,
                        budget,
                        seen,
                        upper_bounds@,
                        base,
                        trie.place(),
                    );
                }
                return ;
            }
        }
    }
    proof {
        lemma_stage_start(arena, board, budget, seen, base);
        arena.lemma_node_of(trie.prefix());
        assert(base.is_prefix_of(base));
    }
    if trie.is_end_of_word() {
        let path = current.path();
        let found = Solution { path: path_clone(path), score: score(board, path_as_slice(path)) };
        proof {
            lemma_offer_covers(solutions@, limit, arena, board, budget, seen, found);
        }
        solutions.offer(found);
    }
    let next = current.neighbours();
    proof {
        assert(plain_done(board, 0) =~= Set::<Step>::empty());
    }
    let mut i: u8 = 0;
    while i < 25
        invariant
            i <= 25,
            trie.wf(),
            arena == trie.arena(),
            arena.wf(),
            is_bounds_table(arena, board, budget, upper_bounds@),
            solutions.wf(),
            solutions.limit() == limit,
            current.wf(),
            current@ == base,
            base == old(current)@,
            legal_path(base),
            base.len() <= 25,
            spelled_by(base) == trie.prefix(),
            swaps_used(board, base) + swaps == budget,
            forall|t: Tile| next@.contains(t) == can_step(base, t),
            forall|p: Seq<Step>| #[trigger] seen.contains(p) ==> !base.is_prefix_of(p),
            covers(
                solutions@,
                limit,
                arena,
                board,
                budget,
                stage(arena, board, budget, seen, base, plain_done(board, i as int)),
            ),
        decreases 25 - i,
    {
        let tile = Tile::index(i).unwrap();
        let existing = board.letter_at(tile);
        let ghost step = (tile, existing);
        let ghost done = plain_done(board, i as int);
        proof {
            Tile::lemma_ord_at();
            assert(plain_done(board, i + 1) =~= done.insert(step));
        }
        let mut walked = false;
        if next.contains(tile) {
            if let Some(child) = trie.child(existing) {
                proof {
                    lemma_stage_fresh(arena, board, budget, seen, base, done, step);
                    lemma_legal_push(base, step);
                    assert(spelled_by(base.push(step)) =~= spelled_by(base).push(existing));
                    assert(base.push(step).drop_last() =~= base);
                    lemma_stage_take(arena, board, budget, seen, base, done, step);
                }
                current.push(tile, existing);
                search(
                    board,
                    upper_bounds,
                    solutions,
                    current,
                    child,
                    swaps,
                    Ghost(budget),
                    Ghost(stage(arena, board, budget, seen, base, done)),
                );
                current.pop();
                walked = true;
            }
        }
        proof {
            if !walked {
                assert(!viable(arena, board, budget, base, step));
                lemma_stage_widen(arena, board, budget, seen, base, done, done.insert(step));
            }
        }
        i = i + 1;
    }
    if swaps > 0 {
        let kids = trie.children();
        proof {
            Tile::lemma_ord_at();
            assert(swap_done(board, kids@, 0, 0) =~= plain_done(board, 25));
        }
        let mut i: u8 = 0;
        while i < 25
            invariant
                i <= 25,
                swaps > 0,
                trie.wf(),
                arena == trie.arena(),
                arena.wf(),
                is_bounds_table(arena, board, budget, upper_bounds@),
                solutions.wf(),
                solutions.limit() == limit,
                current.wf(),
                current@ == base,
                base == old(current)@,
                legal_path(base),
                base.len() <= 25,
                spelled_by(base) == trie.prefix(),
                swaps_used(board, base) + swaps == budget,
                forall|t: Tile| next@.contains(t) == can_step(base, t),
                forall|p: Seq<Step>| #[trigger] seen.contains(p) ==> !base.is_prefix_of(p),
                forall|e: int|
                    0 <= e < kids@.len() ==> {
                        let c = (#[trigger] kids@[e]).1;
                        c.wf() && c.arena() == arena && c.prefix() == trie.prefix().push(kids@[e].0)
                    },
                forall|a: int, b: int|
                    0 <= a < b < kids@.len() ==> (#[trigger] kids@[a]).0.ord() < (
                    #[trigger] kids@[b]).0.ord(),
                forall|l: Letter|
                    arena.node_of(trie.prefix().push(l)) is Some ==> exists|e: int|
                        0 <= e < kids@.len() && (#[trigger] kids@[e]).0 == l,
                covers(
                    solutions@,
                    limit,
                    arena,
                    board,
                    budget,
                    stage(arena, board, budget, seen, base, swap_done(board, kids@, i as int, 0)),
                ),
            decreases 25 - i,
        {
            let tile = Tile::index(i).unwrap();
            proof {
                Tile::lemma_ord_at();
            }
            if next.contains(tile) {
                let existing = board.letter_at(tile);
                let mut k: usize = 0;
                while k < kids.len()
                    invariant
                        k <= kids@.len(),
                        i < 25,
                        swaps > 0,
                        tile == Tile::at(i as int),
                        existing == board.spec_letter_at(tile),
                        can_step(base, tile),
                        trie.wf(),
                        arena == trie.arena(),
                        arena.wf(),
                        is_bounds_table(arena, board, budget, upper_bounds@),
                        solutions.wf(),
                        solutions.limit() == limit,
                        current.wf(),
                        current@ == base,
                        base == old(current)@,
                        legal_path(base),
                        base.len() <= 25,
                        spelled_by(base) == trie.prefix(),
                        swaps_used(board, base) + swaps == budget,
                        forall|p: Seq<Step>| #[trigger] seen.contains(p) ==> !base.is_prefix_of(p),
                        forall|e: int|
                            0 <= e < kids@.len() ==> {
                                let c = (#[trigger] kids@[e]).1;
                                c.wf() && c.arena() == arena && c.prefix() == trie.prefix().push(
                                    kids@[e].0,
                                )
                            },
                        forall|a: int, b: int|
                            0 <= a < b < kids@.len() ==> (#[trigger] kids@[a]).0.ord() < (
                            #[trigger] kids@[b]).0.ord(),
                        covers(
                            solutions@,
                            limit,
                            arena,
                            board,
                            budget,
                            stage(
                                arena,
                                board,
                                budget,
                                seen,
                                base,
                                swap_done(board, kids@, i as int, k as int),
                            ),
                        ),
                    decreases kids@.len() - k,
                {
                    let (letter, child) = kids[k];
                    let ghost step = (tile, letter);
                    let ghost done = swap_done(board, kids@, i as int, k as int);
                    proof {
                        Tile::lemma_ord_at();
                        Letter::lemma_ord_at();
                        lemma_swap_done_next(board, kids@, i as int, k as int);
                    }
                    if letter != existing {
                        proof {
                            lemma_stage_fresh(arena, board, budget, seen, base, done, step);
                            lemma_legal_push(base, step);
                            assert(spelled_by(base.push(step)) =~= spelled_by(base).push(letter));
                            assert(base.push(step).drop_last() =~= base);
                            lemma_stage_take(arena, board, budget, seen, base, done, step);
                        }
                        current.push(tile, letter);
                        search(
                            board,
                            upper_bounds,
                            solutions,
                            current,
                            child,
                            swaps - 1,
                            Ghost(budget),
                            Ghost(stage(arena, board, budget, seen, base, done)),
                        );
                        current.pop();
                    }
                    k = k + 1;
                }
            }
            proof {
                let reached = if next@.contains(tile) {
                    swap_done(board, kids@, i as int, kids@.len() as int)
                } else {
                    swap_done(board, kids@, i as int, 0)
                };
                let wider = swap_done(board, kids@, i + 1, 0);
                assert forall|s: Step| wider.contains(s) && !reached.contains(s) implies !viable(
                    arena,
                    board,
                    budget,
                    base,
                    s,
                ) by {
                    assert(s.0 == tile);
                    if next@.contains(tile) {
                        if arena.node_of(spelled_by(base).push(s.1)) is Some {
                            let e = choose|e: int| 0 <= e < kids@.len() && (#[trigger] kids@[e]).0 == s.1;
                            assert(listed_letter(kids@, kids@.len() as int, s.1));
                        }
                    }
                }
                assert forall|s: Step| reached.contains(s) implies wider.contains(s) by {}
                lemma_stage_widen(arena, board, budget, seen, base, reached, wider);
            }
            i = i + 1;
        }
        proof {
            Tile::lemma_ord_at();
            assert(swap_done(board, kids@, 25, 0) =~= Set::<Step>::full());
        }
    } else {
        proof {
            let done = plain_done(board, 25);
            assert forall|s: Step| !done.contains(s) implies !viable(arena, board, budget, base, s) by {
                Tile::lemma_ord_at();
                assert(base.push(s).drop_last() =~= base);
            }
            lemma_stage_widen(arena, board, budget, seen, base, done, Set::<Step>::full());
        }
    }
    proof {
        lemma_stage_full(arena, board, budget, seen, base);
    }
}

/// What one more of the `kids` adds to the steps that are done: the step
/// onto the `i`-th tile with its letter.
proof fn lemma_swap_done_next(board: &Board, kids: Seq<(Letter, TrieRef<'_>)>, i: int, k: int)
    requires
        0 <= i < 25,
        0 <= k < kids.len(),
        forall|a: int, b: int|
            0 <= a < b < kids.len() ==> (#[trigger] kids[a]).0.ord() < (#[trigger] kids[b]).0.ord(),
    ensures
        swap_done(board, kids, i, k + 1) == swap_done(board, kids, i, k).insert(
            (Tile::at(i), kids[k].0),
        ),
        kids[k].0 != board.spec_letter_at(Tile::at(i)) ==> !swap_done(board, kids, i, k).contains(
            (Tile::at(i), kids[k].0),
        ),
        kids[k].0 == board.spec_letter_at(Tile::at(i)) ==> swap_done(board, kids, i, k + 1)
            == swap_done(board, kids, i, k),
{
    Tile::lemma_ord_at();
    Letter::lemma_ord_at();
    let step = (Tile::at(i), kids[k].0);
    let a = swap_done(board, kids, i, k + 1);
    let b = swap_done(board, kids, i, k).insert(step);
    assert forall|s: Step| a.contains(s) == b.contains(s) by {
        if listed_letter(kids, k + 1, s.1) {
            let e = choose|e: int| 0 <= e < k + 1 && e < kids.len() && (#[trigger] kids[e]).0 == s.1;
            if e < k {
                assert(listed_letter(kids, k, s.1));
            }
        }
        if listed_letter(kids, k, s.1) {
            let e = choose|e: int| 0 <= e < k && e < kids.len() && (#[trigger] kids[e]).0 == s.1;
            assert(0 <= e < k + 1 && kids[e].0 == s.1);
        }
        if s == step {
            assert(0 <= k < k + 1 && kids[k].0 == s.1);
        }
    }
    assert(a =~= b);
    if listed_letter(kids, k, kids[k].0) {
        let e = choose|e: int| 0 <= e < k && e < kids.len() && (#[trigger] kids[e]).0 == kids[k].0;
        assert(kids[e].0.ord() < kids[k].0.ord());
    }
    if kids[k].0 == board.spec_letter_at(Tile::at(i)) {
        assert(swap_done(board, kids, i, k).contains(step));
        assert(b =~= swap_done(board, kids, i, k));
    }
}

/// Finds the best solutions on `board`: the paths that step from tile to
/// neighbouring tile, over no tile twice, that spell a word of the dictionary
/// `trie`, with the letter of the board on each tile or, on at most `swaps`
/// of them, another letter. At most `max_solutions` are returned, the highest
/// score first; among equal scores, which ones are kept is for the search to
/// choose.
pub fn solve(board: &Board, trie: &TrieArena, swaps: u8, max_solutions: usize) -> (best: Vec<Solution>)
    requires
        trie.wf(),
    ensures
        is_best_list(best@, max_solutions as int, trie, board, swaps as int),
        forall|i: int|
            0 <= i < best@.len() ==> legal_path(steps((#[trigger] best@[i]).path)) && trie@.contains(
                spelled_by(steps(best@[i].path)),
            ),
        forall|i: int|
            0 <= i < best@.len() ==> swaps_used(board, steps((#[trigger] best@[i]).path)) <= swaps,
{
    let mut solutions = Shortlist::new(max_solutions);
    let upper_bounds = calculate_upper_bounds(trie, board, swaps);
    let mut current = PathState::new();
    let ghost seen = Set::<Seq<Step>>::empty();
    proof {
        assert(spelled_by(current@) =~= Seq::<Letter>::empty());
    }
    search(
        board,
        &upper_bounds,
        &mut solutions,
        &mut current,
        trie.root(),
        swaps,
        Ghost(swaps as int),
        Ghost(seen),
    );
    proof {
        solutions.lemma_wf();
        assert forall|path: Seq<Step>| #[trigger]
            is_solution(trie, board, swaps as int, path) implies absorbed(
            solutions@,
            max_solutions as int,
            board,
            path,
        ) by {
            assert(Seq::<Step>::empty().is_prefix_of(path));
            assert(seen.union(below(trie, board, swaps as int, Seq::<Step>::empty())).contains(path));
        }
    }
    let best = solutions.into_sorted_vec();
    proof {
        assert forall|i: int| 0 <= i < best@.len() implies is_solution(
            trie,
            board,
            swaps as int,
            steps((#[trigger] best@[i]).path),
        ) by {
            assert(is_scored_solution(trie, board, swaps as int, best@[i]));
        }
    }
    best
}

} // verus!
