//! Upper bounds on the score of the words below each node of the dictionary,
//! for one board and one number of swaps.

use vstd::prelude::*;
use crate::board::Board;
use crate::letter::Letter;
use crate::score::{letter_score, letter_value, length_bonus, long_word_bonus};
use crate::trie::arena::{TrieArena, TrieRef};
use crate::word::{lemma_prefix_push, lemma_prefix_transitive};

verus! {

/// How often each letter of the alphabet occurs in `word`: 26 numbers.
pub open spec fn tally(word: Seq<Letter>) -> Seq<int>
    decreases word.len(),
{
    if word.len() == 0 {
        Seq::new(26, |i: int| 0int)
    } else {
        let rest = tally(word.drop_last());
        rest.update(word.last().ord(), rest[word.last().ord()] + 1)
    }
}

/// How many letters are asked for beyond those to be had, summed over the
/// first `n` letters of the alphabet.
pub open spec fn shortfall(required: Seq<int>, available: Seq<int>, n: int) -> int
    decreases n,
{
    if n <= 0 {
        0
    } else {
        shortfall(required, available, n - 1) + if required[n - 1] > available[n - 1] {
            required[n - 1] - available[n - 1]
        } else {
            0
        }
    }
}

/// The numbers of an array of counts, as integers.
pub open spec fn as_ints(counts: Seq<usize>) -> Seq<int> {
    counts.map_values(|c: usize| c as int)
}

/// How many letters `word` needs that the board does not hold: for each
/// letter, the number of its occurrences in the word beyond those on the
/// board, summed over the alphabet.
pub open spec fn deficit(board: &Board, word: Seq<Letter>) -> int {
    shortfall(tally(word), tally(board.grid@), 26)
}

/// Whether the board could spell `word` with at most `swaps` letters changed,
/// as far as the count of letters tells.
pub open spec fn feasible(board: &Board, swaps: int, word: Seq<Letter>) -> bool {
    deficit(board, word) <= swaps
}

/// The sum of the values of the letters of `word`.
pub open spec fn word_value(word: Seq<Letter>) -> int
    decreases word.len(),
{
    if word.len() == 0 {
        0
    } else {
        word_value(word.drop_last()) + letter_value(word.last())
    }
}

/// The value of the most valuable letter of `word`, 0 for the empty word.
pub open spec fn top_value(word: Seq<Letter>) -> int
    decreases word.len(),
{
    if word.len() == 0 {
        0
    } else if top_value(word.drop_last()) >= letter_value(word.last()) {
        top_value(word.drop_last())
    } else {
        letter_value(word.last())
    }
}

/// The most that `word` can score on any board: its most valuable letter on
/// a double-letter tile, the word across a double-word tile, and the bonus
/// for its length.
pub open spec fn ceiling(word: Seq<Letter>) -> int {
    (word_value(word) + top_value(word)) * 2 + length_bonus(word.len() as int)
}

/// The tally holds 26 counts, none negative, and they add up to the length
/// of the word.
pub proof fn lemma_tally(word: Seq<Letter>)
    ensures
        tally(word).len() == 26,
        forall|i: int| 0 <= i < 26 ==> 0 <= #[trigger] tally(word)[i] <= word.len(),
    decreases word.len(),
{
    if word.len() > 0 {
        lemma_tally(word.drop_last());
        Letter::lemma_ord_at();
    }
}

/// The value of a word is at most 8 for each letter, and its top value at
/// most 8.
pub proof fn lemma_ceiling_bounds(word: Seq<Letter>)
    ensures
        0 <= word_value(word) <= 8 * word.len(),
        0 <= top_value(word) <= 8,
        top_value(word) <= word_value(word),
        0 <= ceiling(word) <= 16 * word.len() + 26,
    decreases word.len(),
{
    if word.len() > 0 {
        lemma_ceiling_bounds(word.drop_last());
    }
}

/// Counts how often each letter occurs in `letters`.
pub fn counts(letters: &[Letter]) -> (r: [usize; 26])
    ensures
        as_ints(r@) == tally(letters@),
{
    let mut counts: [usize; 26] = [0; 26];
    let mut i: usize = 0;
    proof {
        assert(letters@.take(0) =~= Seq::<Letter>::empty());
        assert(as_ints(counts@) =~= tally(letters@.take(0)));
    }
    while i < letters.len()
        invariant
            i <= letters@.len(),
            as_ints(counts@) == tally(letters@.take(i as int)),
        decreases letters@.len() - i,
    {
        let at: usize = letters[i].ordinal() as usize;
        proof {
            let done = letters@.take(i as int);
            let next = letters@.take(i + 1);
            assert(next.drop_last() =~= done);
            assert(next.last() == letters@[i as int]);
            lemma_tally(done);
            assert(as_ints(counts@)[at as int] == counts@[at as int]);
        }
        let ghost before = counts@;
        counts[at] = counts[at] + 1;
        proof {
            assert(as_ints(counts@) =~= as_ints(before).update(at as int, as_ints(before)[at as int] + 1));
        }
        i = i + 1;
    }
    proof {
        assert(letters@.take(i as int) =~= letters@);
    }
    counts
}

/// Whether at most `swaps` letters are asked for beyond those to be had.
pub fn satisfied(required: &[usize; 26], exists: &[usize; 26], swaps: u8) -> (r: bool)
    ensures
        r == (shortfall(as_ints(required@), as_ints(exists@), 26) <= swaps),
{
    let mut left: usize = swaps as usize;
    let mut i: usize = 0;
    while i < 26
        invariant
            i <= 26,
            left <= swaps,
            shortfall(as_ints(required@), as_ints(exists@), i as int) == swaps - left,
        decreases 26 - i,
    {
        if required[i] > exists[i] {
            let missing: usize = required[i] - exists[i];
            if missing > left {
                proof {
                    lemma_shortfall_grows(as_ints(required@), as_ints(exists@), i + 1, 26);
                }
                return false;
            }
            left = left - missing;
        }
        i = i + 1;
    }
    true
}

/// The shortfall over more letters is no smaller.
pub proof fn lemma_shortfall_grows(required: Seq<int>, available: Seq<int>, m: int, n: int)
    requires
        m <= n,
    ensures
        shortfall(required, available, m) <= shortfall(required, available, n),
        0 <= shortfall(required, available, m),
    decreases n,
{
    if n <= 0 {
    } else if m < n {
        lemma_shortfall_grows(required, available, m, n - 1);
    } else {
        lemma_shortfall_grows(required, available, m - 1, n - 1);
    }
}

/// The most that the letters of `word` can score on any board. The word may
/// hold up to 4094 letters, so that the result fits.
pub fn calculate_max_score(word: &[Letter]) -> (r: u16)
    requires
        word@.len() <= 4094,
    ensures
        r == ceiling(word@),
{
    let mut word_score: u16 = 0;
    let mut max_letter_score: u16 = 0;
    let mut i: usize = 0;
    while i < word.len()
        invariant
            i <= word@.len() <= 4094,
            word_score == word_value(word@.take(i as int)),
            max_letter_score == top_value(word@.take(i as int)),
        decreases word@.len() - i,
    {
        proof {
            let done = word@.take(i as int);
            let next = word@.take(i + 1);
            assert(next.drop_last() =~= done);
            assert(next.last() == word@[i as int]);
            lemma_ceiling_bounds(done);
        }
        let value: u16 = letter_score(word[i]);
        word_score = word_score + value;
        if value > max_letter_score {
            max_letter_score = value;
        }
        i = i + 1;
    }
    proof {
        assert(word@.take(i as int) =~= word@);
        lemma_ceiling_bounds(word@);
    }
    word_score = word_score + max_letter_score;
    word_score * 2 + long_word_bonus(word.len())
}

/// The sum of the first `n` numbers of `counts`.
pub open spec fn total(counts: Seq<int>, n: int) -> int
    decreases n,
{
    if n <= 0 {
        0
    } else {
        total(counts, n - 1) + counts[n - 1]
    }
}

/// Adding one to one of the first `n` numbers adds one to their sum.
proof fn lemma_total_update(counts: Seq<int>, at: int, n: int)
    requires
        0 <= at < counts.len(),
        0 <= n <= counts.len(),
    ensures
        total(counts.update(at, counts[at] + 1), n) == total(counts, n) + if at < n { 1int } else { 0int },
    decreases n,
{
    if n > 0 {
        lemma_total_update(counts, at, n - 1);
    }
}

/// The counts of a word add up to its length.
proof fn lemma_tally_total(word: Seq<Letter>)
    ensures
        total(tally(word), 26) == word.len(),
    decreases word.len(),
{
    if word.len() == 0 {
        lemma_total_zero(tally(word), 26);
    } else {
        lemma_tally_total(word.drop_last());
        lemma_tally(word.drop_last());
        Letter::lemma_ord_at();
        lemma_total_update(tally(word.drop_last()), word.last().ord(), 26);
    }
}

/// Numbers that are all 0 add up to 0.
proof fn lemma_total_zero(counts: Seq<int>, n: int)
    requires
        forall|i: int| 0 <= i < n ==> #[trigger] counts[i] == 0,
    ensures
        total(counts, n) == 0,
    decreases n,
{
    if n > 0 {
        lemma_total_zero(counts, n - 1);
    }
}

/// The shortfall is at least what is asked for less what is to be had.
proof fn lemma_shortfall_total(required: Seq<int>, available: Seq<int>, n: int)
    ensures
        shortfall(required, available, n) >= total(required, n) - total(available, n),
    decreases n,
{
    if n > 0 {
        lemma_shortfall_total(required, available, n - 1);
    }
}

/// Asking for no less of any letter gives no smaller a shortfall.
proof fn lemma_shortfall_monotone(small: Seq<int>, large: Seq<int>, available: Seq<int>, n: int)
    requires
        forall|i: int| 0 <= i < n ==> #[trigger] small[i] <= large[i],
    ensures
        shortfall(small, available, n) <= shortfall(large, available, n),
    decreases n,
{
    if n > 0 {
        lemma_shortfall_monotone(small, large, available, n - 1);
        assert(small[n - 1] <= large[n - 1]);
    }
}

/// A word holds each letter at least as often as any of its prefixes does.
proof fn lemma_tally_prefix(word: Seq<Letter>, n: int)
    requires
        0 <= n <= word.len(),
    ensures
        forall|i: int| 0 <= i < 26 ==> #[trigger] tally(word.take(n))[i] <= tally(word)[i],
    decreases word.len() - n,
{
    if n < word.len() {
        lemma_tally_prefix(word.drop_last(), n);
        assert(word.drop_last().take(n) =~= word.take(n));
        lemma_tally(word.drop_last());
        Letter::lemma_ord_at();
    } else {
        assert(word.take(n) =~= word);
    }
}

/// A word needs no fewer letters that the board lacks than any of its
/// prefixes does.
pub proof fn lemma_deficit_prefix(board: &Board, prefix: Seq<Letter>, word: Seq<Letter>)
    requires
        prefix.is_prefix_of(word),
    ensures
        deficit(board, prefix) <= deficit(board, word),
{
    assert(word.take(prefix.len() as int) =~= prefix);
    lemma_tally_prefix(word, prefix.len() as int);
    lemma_tally(prefix);
    lemma_tally(word);
    lemma_shortfall_monotone(tally(prefix), tally(word), tally(board.grid@), 26);
}

/// A word needs at least as many letters that the board lacks as it has
/// letters beyond the 25 of the board.
pub proof fn lemma_deficit_length(board: &Board, word: Seq<Letter>)
    ensures
        deficit(board, word) >= word.len() - 25,
        deficit(board, word) >= 0,
{
    lemma_tally_total(word);
    lemma_tally_total(board.grid@);
    lemma_shortfall_total(tally(word), tally(board.grid@), 26);
    lemma_shortfall_grows(tally(word), tally(board.grid@), 26, 26);
}

/// Whether `word` is a word of the dictionary that starts with `prefix` and
/// that the board could spell with at most `swaps` letters changed, as far as
/// the count of letters tells.
pub open spec fn reachable_word(
    arena: &TrieArena,
    board: &Board,
    swaps: int,
    prefix: Seq<Letter>,
    word: Seq<Letter>,
) -> bool {
    arena@.contains(word) && prefix.is_prefix_of(word) && feasible(board, swaps, word)
}

/// Whether `bound` is the bound of `prefix`: the greatest ceiling of the words
/// that `reachable_word` admits for it, and 0 where it admits none.
pub open spec fn is_bound(
    arena: &TrieArena,
    board: &Board,
    swaps: int,
    prefix: Seq<Letter>,
    bound: int,
) -> bool {
    &&& forall|word: Seq<Letter>| #[trigger]
        reachable_word(arena, board, swaps, prefix, word) ==> ceiling(word) <= bound
    &&& bound == 0 || exists|word: Seq<Letter>| #[trigger]
        reachable_word(arena, board, swaps, prefix, word) && ceiling(word) == bound
}

/// Whether `table` holds, for each node of the dictionary, the bound of the
/// prefix that the node stands for.
pub open spec fn is_bounds_table(arena: &TrieArena, board: &Board, swaps: int, table: Seq<u16>) -> bool {
    &&& table.len() == arena.size()
    &&& forall|prefix: Seq<Letter>|
        (#[trigger] arena.node_of(prefix)) matches Some(j) ==> 0 <= j < table.len() && is_bound(
            arena,
            board,
            swaps,
            prefix,
            table[j] as int,
        )
}

/// Whether `word` goes on after `prefix` with the letter of one of the first
/// `k` of `kids`.
pub open spec fn under<T>(prefix: Seq<Letter>, kids: Seq<(Letter, T)>, k: int, word: Seq<Letter>) -> bool {
    &&& prefix.is_prefix_of(word)
    &&& word.len() > prefix.len()
    &&& exists|e: int| 0 <= e < k && e < kids.len() && (#[trigger] kids[e]).0 == word[prefix.len() as int]
}

/// Where the board cannot spell a prefix, it can spell no word that starts
/// with it, so 0 is the bound of the prefix and of all that start with it.
proof fn lemma_infeasible_prefix(
    arena: &TrieArena,
    board: &Board,
    swaps: int,
    prefix: Seq<Letter>,
    longer: Seq<Letter>,
)
    requires
        !feasible(board, swaps, prefix),
        prefix.is_prefix_of(longer),
    ensures
        is_bound(arena, board, swaps, longer, 0),
{
    assert forall|word: Seq<Letter>| #[trigger]
        reachable_word(arena, board, swaps, longer, word) implies ceiling(word) <= 0 by {
        lemma_prefix_transitive(prefix, longer, word);
        lemma_deficit_prefix(board, prefix, word);
    }
}

/// How far the bounds below a node have been computed: the table `now`
/// differs from the table `old` only below the node of `prefix`; below the
/// first `k` of its children `kids` it holds the bounds, elsewhere below the
/// node it still holds 0; and `best` is the greatest of the ceilings of the
/// words below those children, or 0.
pub open spec fn progress(
    arena: &TrieArena,
    board: &Board,
    swaps: int,
    prefix: Seq<Letter>,
    kids: Seq<(Letter, TrieRef<'_>)>,
    k: int,
    old: Seq<u16>,
    now: Seq<u16>,
    best: int,
) -> bool {
    &&& now.len() == old.len() == arena.size()
    &&& forall|j: int|
        0 <= j < arena.size() && !prefix.is_prefix_of(#[trigger] arena.spelled(j)) ==> now[j]
            == old[j]
    &&& forall|j: int|
        0 <= j < arena.size() && prefix.is_prefix_of(#[trigger] arena.spelled(j)) && !under(
            prefix,
            kids,
            k,
            arena.spelled(j),
        ) ==> now[j] == 0
    &&& forall|q: Seq<Letter>|
        under(prefix, kids, k, q) ==> ((#[trigger] arena.node_of(q)) matches Some(j) ==> is_bound(
            arena,
            board,
            swaps,
            q,
            now[j] as int,
        ))
    &&& forall|d: Seq<Letter>| #[trigger]
        reachable_word(arena, board, swaps, prefix, d) && under(prefix, kids, k, d) ==> ceiling(d)
            <= best
    &&& best == 0 || exists|d: Seq<Letter>| #[trigger]
        reachable_word(arena, board, swaps, prefix, d) && ceiling(d) == best
    &&& best >= 0
}

/// What the bounds below one more child add to the progress.
proof fn lemma_progress_step(
    arena: &TrieArena,
    board: &Board,
    swaps: int,
    prefix: Seq<Letter>,
    kids: Seq<(Letter, TrieRef<'_>)>,
    k: int,
    old: Seq<u16>,
    before: Seq<u16>,
    after: Seq<u16>,
    best: int,
    found: int,
)
    requires
        arena.wf(),
        0 <= k < kids.len(),
        forall|a: int, b: int|
            0 <= a < b < kids.len() ==> (#[trigger] kids[a]).0.ord() < (#[trigger] kids[b]).0.ord(),
        progress(arena, board, swaps, prefix, kids, k, old, before, best),
        after.len() == before.len(),
        forall|j: int|
            0 <= j < arena.size() && !prefix.push(kids[k].0).is_prefix_of(
                #[trigger] arena.spelled(j),
            ) ==> after[j] == before[j],
        forall|q: Seq<Letter>|
            prefix.push(kids[k].0).is_prefix_of(q) ==> ((#[trigger] arena.node_of(q)) matches Some(
                j,
            ) ==> is_bound(arena, board, swaps, q, after[j] as int)),
        is_bound(arena, board, swaps, prefix.push(kids[k].0), found),
    ensures
        progress(
            arena,
            board,
            swaps,
            prefix,
            kids,
            k + 1,
            old,
            after,
            if found > best { found } else { best },
        ),
{
    let letter = kids[k].0;
    let longer = prefix.push(letter);
    let more = if found > best { found } else { best };
    Letter::lemma_ord_at();
    assert forall|j: int|
        0 <= j < arena.size() && !prefix.is_prefix_of(#[trigger] arena.spelled(j)) implies after[j]
        == old[j] by {
        lemma_prefix_push(prefix, letter, arena.spelled(j));
    }
    assert forall|j: int|
        0 <= j < arena.size() && prefix.is_prefix_of(#[trigger] arena.spelled(j)) && !under(
            prefix,
            kids,
            k + 1,
            arena.spelled(j),
        ) implies after[j] == 0 by {
        let w = arena.spelled(j);
        lemma_prefix_push(prefix, letter, w);
        if longer.is_prefix_of(w) {
            assert(kids[k].0 == w[prefix.len() as int]);
            assert(under(prefix, kids, k + 1, w));
        }
        if under(prefix, kids, k, w) {
            let e = choose|e: int|
                0 <= e < k && e < kids.len() && (#[trigger] kids[e]).0 == w[prefix.len() as int];
            assert(0 <= e < k + 1 && kids[e].0 == w[prefix.len() as int]);
        }
    }
    assert forall|q: Seq<Letter>| under(prefix, kids, k + 1, q) implies ((
    #[trigger] arena.node_of(q)) matches Some(j) ==> is_bound(
        arena,
        board,
        swaps,
        q,
        after[j] as int,
    )) by {
        if arena.node_of(q) is Some {
            let j = arena.node_of(q).unwrap();
            arena.lemma_node_of(q);
            lemma_prefix_push(prefix, letter, q);
            if !longer.is_prefix_of(q) {
                let e = choose|e: int|
                    0 <= e < k + 1 && e < kids.len() && (#[trigger] kids[e]).0 == q[prefix.len() as int];
                assert(e < k);
                assert(under(prefix, kids, k, q));
                assert(after[j] == before[j]);
            }
        }
    }
    assert forall|d: Seq<Letter>| #[trigger]
        reachable_word(arena, board, swaps, prefix, d) && under(
            prefix,
            kids,
            k + 1,
            d,
        ) implies ceiling(d) <= more by {
        lemma_prefix_push(prefix, letter, d);
        if longer.is_prefix_of(d) {
            assert(reachable_word(arena, board, swaps, longer, d));
        } else {
            let e = choose|e: int|
                0 <= e < k + 1 && e < kids.len() && (#[trigger] kids[e]).0 == d[prefix.len() as int];
            assert(e < k);
            assert(under(prefix, kids, k, d));
        }
    }
    if found > best {
        let d = choose|d: Seq<Letter>| #[trigger]
            reachable_word(arena, board, swaps, longer, d) && ceiling(d) == found;
        lemma_prefix_push(prefix, letter, d);
        assert(reachable_word(arena, board, swaps, prefix, d));
    }
}

/// What the progress over all the children of a node, and the word that may
/// end at the node itself, say of the node's own bound.
proof fn lemma_progress_finish(
    arena: &TrieArena,
    board: &Board,
    swaps: int,
    prefix: Seq<Letter>,
    kids: Seq<(Letter, TrieRef<'_>)>,
    node: int,
    old: Seq<u16>,
    before: Seq<u16>,
    after: Seq<u16>,
    best: int,
)
    requires
        arena.wf(),
        arena.node_of(prefix) == Some(node),
        feasible(board, swaps, prefix),
        forall|l: Letter|
            arena.node_of(prefix.push(l)) is Some ==> exists|k: int|
                0 <= k < kids.len() && (#[trigger] kids[k]).0 == l,
        progress(arena, board, swaps, prefix, kids, kids.len() as int, old, before, best),
        after.len() == before.len(),
        forall|j: int| 0 <= j < after.len() && j != node ==> #[trigger] after[j] == before[j],
        after[node] == (if arena@.contains(prefix) && ceiling(prefix) > best {
            ceiling(prefix)
        } else {
            best
        }),
    ensures
        forall|j: int|
            0 <= j < arena.size() && !prefix.is_prefix_of(#[trigger] arena.spelled(j)) ==> after[j]
                == old[j],
        forall|q: Seq<Letter>|
            prefix.is_prefix_of(q) ==> ((#[trigger] arena.node_of(q)) matches Some(j) ==> is_bound(
                arena,
                board,
                swaps,
                q,
                after[j] as int,
            )),
        is_bound(arena, board, swaps, prefix, after[node] as int),
{
    let n = prefix.len() as int;
    let all = kids.len() as int;
    arena.lemma_node_of(prefix);
    assert(prefix.is_prefix_of(prefix));
    assert forall|q: Seq<Letter>|
        prefix.is_prefix_of(q) && q.len() > n && arena.node_of(q) is Some implies under(
        prefix,
        kids,
        all,
        q,
    ) by {
        arena.lemma_node_of_take(q, n + 1);
        assert(q.take(n + 1) =~= prefix.push(q[n])) by {
            assert(prefix =~= q.subrange(0, n));
        }
        let k = choose|k: int| 0 <= k < kids.len() && (#[trigger] kids[k]).0 == q[n];
        assert(0 <= k < all && kids[k].0 == q[n]);
    }
    assert forall|q: Seq<Letter>| prefix.is_prefix_of(q) implies ((
    #[trigger] arena.node_of(q)) matches Some(j) ==> is_bound(
        arena,
        board,
        swaps,
        q,
        after[j] as int,
    )) by {
        if arena.node_of(q) is Some {
            let j = arena.node_of(q).unwrap();
            arena.lemma_node_of(q);
            if q.len() > n {
                assert(under(prefix, kids, all, q));
                assert(j != node);
            } else {
                assert(q =~= prefix) by {
                    assert(prefix =~= q.subrange(0, n));
                }
                lemma_own_bound(arena, board, swaps, prefix, kids, old, before, best);
            }
        }
    }
    lemma_own_bound(arena, board, swaps, prefix, kids, old, before, best);
}

/// The bound of a node: the greatest of the bounds below its children and of
/// the ceiling of the word that ends at the node, if one does.
proof fn lemma_own_bound(
    arena: &TrieArena,
    board: &Board,
    swaps: int,
    prefix: Seq<Letter>,
    kids: Seq<(Letter, TrieRef<'_>)>,
    old: Seq<u16>,
    before: Seq<u16>,
    best: int,
)
    requires
        arena.wf(),
        feasible(board, swaps, prefix),
        forall|l: Letter|
            arena.node_of(prefix.push(l)) is Some ==> exists|k: int|
                0 <= k < kids.len() && (#[trigger] kids[k]).0 == l,
        progress(arena, board, swaps, prefix, kids, kids.len() as int, old, before, best),
    ensures
        is_bound(
            arena,
            board,
            swaps,
            prefix,
            if arena@.contains(prefix) && ceiling(prefix) > best {
                ceiling(prefix)
            } else {
                best
            },
        ),
{
    let n = prefix.len() as int;
    let all = kids.len() as int;
    let own = if arena@.contains(prefix) && ceiling(prefix) > best { ceiling(prefix) } else { best };
    assert(prefix.is_prefix_of(prefix));
    assert forall|d: Seq<Letter>| #[trigger]
        reachable_word(arena, board, swaps, prefix, d) implies ceiling(d) <= own by {
        if d.len() > n {
            arena.lemma_node_of(d);
            arena.lemma_node_of_take(d, n + 1);
            assert(d.take(n + 1) =~= prefix.push(d[n])) by {
                assert(prefix =~= d.subrange(0, n));
            }
            let k = choose|k: int| 0 <= k < kids.len() && (#[trigger] kids[k]).0 == d[n];
            assert(0 <= k < all && kids[k].0 == d[n]);
            assert(under(prefix, kids, all, d));
        } else {
            assert(d =~= prefix) by {
                assert(prefix =~= d.subrange(0, n));
            }
        }
    }
    if own != 0 {
        if arena@.contains(prefix) && ceiling(prefix) > best {
            assert(reachable_word(arena, board, swaps, prefix, prefix));
        }
    }
}

/// Computes the bound of `node` and of every node below it into `bounds`,
/// and returns the bound of `node`. `word` holds the prefix of `node`, and
/// `available` the count of each letter on the board.
fn collect_bounds(
    bounds: &mut Vec<u16>,
    word: &mut Vec<Letter>,
    board: &Board,
    available: &[usize; 26],
    swaps: u8,
    node: TrieRef<'_>,
) -> (best: u16)
    requires
        node.wf(),
        old(word)@ == node.prefix(),
        old(bounds)@.len() == node.arena().size(),
        as_ints(available@) == tally(board.grid@),
        forall|j: int|
            0 <= j < node.arena().size() && node.prefix().is_prefix_of(
                #[trigger] node.arena().spelled(j),
            ) ==> old(bounds)@[j] == 0,
    ensures
        final(word)@ == old(word)@,
        final(bounds)@.len() == old(bounds)@.len(),
        forall|j: int|
            0 <= j < node.arena().size() && !node.prefix().is_prefix_of(
                #[trigger] node.arena().spelled(j),
            ) ==> final(bounds)@[j] == old(bounds)@[j],
        forall|q: Seq<Letter>|
            node.prefix().is_prefix_of(q) ==> ((#[trigger] node.arena().node_of(q)) matches Some(j)
                ==> is_bound(node.arena(), board, swaps as int, q, final(bounds)@[j] as int)),
        is_bound(node.arena(), board, swaps as int, node.prefix(), best as int),
    decreases node.arena().size() - node.place(),
{
    let ghost arena = node.arena();
    let ghost prefix = node.prefix();
    proof {
        node.lemma_wf();
    }
    let required = counts(word.as_slice());
    if !satisfied(&required, available, swaps) {
        proof {
            assert(prefix.is_prefix_of(prefix));
            lemma_infeasible_prefix(arena, board, swaps as int, prefix, prefix);
            assert forall|q: Seq<Letter>| prefix.is_prefix_of(q) implies ((
            #[trigger] arena.node_of(q)) matches Some(j) ==> is_bound(
                arena,
                board,
                swaps as int,
                q,
                bounds@[j] as int,
            )) by {
                arena.lemma_node_of(q);
                lemma_infeasible_prefix(arena, board, swaps as int, prefix, q);
            }
        }
        return 0;
    }
    let kids = node.children();
    let mut best: u16 = 0;
    let mut k: usize = 0;
    while k < kids.len()
        invariant
            k <= kids@.len(),
            node.wf(),
            arena == node.arena(),
            prefix == node.prefix(),
            arena.wf(),
            word@ == prefix,
            as_ints(available@) == tally(board.grid@),
            forall|e: int|
                0 <= e < kids@.len() ==> {
                    let c = (#[trigger] kids@[e]).1;
                    c.wf() && c.arena() == arena && c.prefix() == prefix.push(kids@[e].0)
                        && node.place() < c.place()
                },
            forall|a: int, b: int|
                0 <= a < b < kids@.len() ==> (#[trigger] kids@[a]).0.ord() < (
                #[trigger] kids@[b]).0.ord(),
            progress(arena, board, swaps as int, prefix, kids@, k as int, old(bounds)@, bounds@, best as int),
        decreases kids@.len() - k,
    {
        let (letter, child) = kids[k];
        let ghost before = bounds@;
        proof {
            child.lemma_wf();
            assert forall|j: int|
                0 <= j < arena.size() && prefix.push(letter).is_prefix_of(
                    #[trigger] arena.spelled(j),
                ) implies bounds@[j] == 0 by {
                let w = arena.spelled(j);
                lemma_prefix_push(prefix, letter, w);
                if under(prefix, kids@, k as int, w) {
                    let e = choose|e: int|
                        0 <= e < k && e < kids@.len() && (#[trigger] kids@[e]).0 == w[prefix.len() as int];
                    assert(kids@[e].0.ord() < kids@[k as int].0.ord());
                }
            }
        }
        word.push(letter);
        let found = collect_bounds(bounds, word, board, available, swaps, child);
        word.pop();
        proof {
            assert(word@ =~= prefix);
            lemma_progress_step(
                arena,
                board,
                swaps as int,
                prefix,
                kids@,
                k as int,
                old(bounds)@,
                before,
                bounds@,
                best as int,
                found as int,
            );
        }
        if found > best {
            best = found;
        }
        k = k + 1;
    }
    let ghost below = best as int;
    if node.is_end_of_word() {
        proof {
            lemma_deficit_length(board, prefix);
            lemma_ceiling_bounds(prefix);
        }
        let own = calculate_max_score(word.as_slice());
        if own > best {
            best = own;
        }
    }
    let ghost before = bounds@;
    let at = node.index();
    bounds[at] = best;
    proof {
        lemma_progress_finish(
            arena,
            board,
            swaps as int,
            prefix,
            kids@,
            at as int,
            old(bounds)@,
            before,
            bounds@,
            below,
        );
    }
    best
}

/// Computes, for a dictionary, a board and a number of swaps, the bound of
/// every node: the greatest ceiling of the words below the node that the
/// board could spell with at most `swaps` letters changed, as far as the count
/// of letters tells, and 0 where there is no such word.
pub fn calculate_upper_bounds(arena: &TrieArena, board: &Board, swaps: u8) -> (bounds: Vec<u16>)
    requires
        arena.wf(),
    ensures
        is_bounds_table(arena, board, swaps as int, bounds@),
{
    let size = arena.len();
    let mut bounds: Vec<u16> = Vec::new();
    while bounds.len() < size
        invariant
            bounds@.len() <= size,
            forall|j: int| 0 <= j < bounds@.len() ==> #[trigger] bounds@[j] == 0,
        decreases size - bounds@.len(),
    {
        bounds.push(0);
    }
    let available = counts(board.grid.as_slice());
    let mut word: Vec<Letter> = Vec::new();
    let root = arena.root();
    collect_bounds(&mut bounds, &mut word, board, &available, swaps, root);
    proof {
        assert forall|prefix: Seq<Letter>| (#[trigger] arena.node_of(prefix)) matches Some(j)
            ==> 0 <= j < bounds@.len() && is_bound(
            arena,
            board,
            swaps as int,
            prefix,
            bounds@[j] as int,
        ) by {
            assert(Seq::<Letter>::empty().is_prefix_of(prefix));
            arena.lemma_node_of(prefix);
        }
    }
    bounds
}

} // verus!
