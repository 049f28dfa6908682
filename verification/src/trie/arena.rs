//! The dictionary packed into one arena of nodes.

use vstd::prelude::*;
use crate::letter::Letter;
use crate::letter_set::LetterSet;
use crate::trie::large::{LargeTrieNode, among, ascending, leads, leads_to};
use crate::word::{is_word, letters_of, first_non_letter};

verus! {

/// A node of the packed dictionary. Its children stand side by side in the
/// arena, in the order of the alphabet, from place `children` on.
#[derive(Debug, Clone, Copy)]
struct TrieNode {
    children: usize,
    letters: LetterSet,
    is_end_of_word: bool,
}

/// The place in the arena of the child of node `i` under `letter`: the first
/// child's place plus the rank of the letter among the node's letters.
spec fn child_index(nodes: Seq<TrieNode>, i: int, letter: Letter) -> int {
    nodes[i].children + nodes[i].letters.rank(letter)
}

/// The node reached from node `from` along the letters of `word`, if the
/// arena has a child for each letter on the way.
spec fn walk(nodes: Seq<TrieNode>, from: int, word: Seq<Letter>) -> Option<int>
    decreases word.len(),
{
    if word.len() == 0 {
        Some(from)
    } else if 0 <= from < nodes.len() && nodes[from].letters@.contains(word[0]) {
        walk(nodes, child_index(nodes, from, word[0]), word.drop_first())
    } else {
        None
    }
}

/// Whether the walk from node `from` along `word` ends where a word ends.
spec fn ends_at(nodes: Seq<TrieNode>, from: int, word: Seq<Letter>) -> bool {
    match walk(nodes, from, word) {
        Some(j) => 0 <= j < nodes.len() && nodes[j].is_end_of_word,
        None => false,
    }
}

/// Whether the children of node `j` stand after it and within `lo..hi`.
spec fn node_closed(nodes: Seq<TrieNode>, j: int, lo: int, hi: int) -> bool {
    forall|l: Letter|
        nodes[j].letters@.contains(l) ==> j < #[trigger] child_index(nodes, j, l) && lo
            <= child_index(nodes, j, l) < hi
}

/// Whether each child of node `j` is spelled as `j` is, with its letter added.
spec fn node_spelled(nodes: Seq<TrieNode>, spelling: Seq<Seq<Letter>>, j: int) -> bool {
    forall|l: Letter|
        nodes[j].letters@.contains(l) ==> spelling[#[trigger] child_index(nodes, j, l)]
            == spelling[j].push(l)
}

/// A walk from `from` stays the same when the arena changes only outside of
/// `from` and of a range `lo..hi` that holds all the children of its nodes.
proof fn lemma_walk_frame(
    a: Seq<TrieNode>,
    b: Seq<TrieNode>,
    from: int,
    lo: int,
    hi: int,
    word: Seq<Letter>,
)
    requires
        0 <= from < a.len(),
        0 <= lo <= hi <= a.len() <= b.len(),
        node_closed(a, from, lo, hi),
        forall|j: int| lo <= j < hi ==> #[trigger] node_closed(a, j, lo, hi),
        b[from] == a[from],
        forall|j: int| lo <= j < hi ==> #[trigger] b[j] == a[j],
    ensures
        walk(a, from, word) == walk(b, from, word),
        ends_at(a, from, word) == ends_at(b, from, word),
        walk(a, from, word) matches Some(j) ==> j == from || lo <= j < hi,
    decreases word.len(),
{
    if word.len() > 0 && a[from].letters@.contains(word[0]) {
        let next = child_index(a, from, word[0]);
        assert(next == child_index(b, from, word[0]));
        lemma_walk_frame(a, b, next, lo, hi, word.drop_first());
    }
}

/// A walk along a word with one more letter is the walk along the word,
/// followed by the step to the child under that letter.
proof fn lemma_walk_push(nodes: Seq<TrieNode>, from: int, word: Seq<Letter>, letter: Letter)
    ensures
        walk(nodes, from, word.push(letter)) == (match walk(nodes, from, word) {
            Some(j) => if 0 <= j < nodes.len() && nodes[j].letters@.contains(letter) {
                Some(child_index(nodes, j, letter))
            } else {
                None
            },
            None => None,
        }),
    decreases word.len(),
{
    let longer = word.push(letter);
    if word.len() == 0 {
        assert(longer[0] == letter);
        assert(longer.drop_first().len() == 0);
        if 0 <= from < nodes.len() && nodes[from].letters@.contains(letter) {
            assert(walk(nodes, child_index(nodes, from, letter), longer.drop_first()) == Some(
                child_index(nodes, from, letter),
            ));
        }
    } else {
        assert(longer[0] == word[0]);
        assert(longer.drop_first() =~= word.drop_first().push(letter));
        if 0 <= from < nodes.len() && nodes[from].letters@.contains(word[0]) {
            lemma_walk_push(nodes, child_index(nodes, from, word[0]), word.drop_first(), letter);
        }
    }
}

/// Where every node is closed and spelled, the node that a walk reaches is
/// spelled as its start is, with the word added.
proof fn lemma_walk_spelling(
    nodes: Seq<TrieNode>,
    spelling: Seq<Seq<Letter>>,
    from: int,
    word: Seq<Letter>,
)
    requires
        0 <= from < nodes.len(),
        spelling.len() == nodes.len(),
        forall|j: int| 0 <= j < nodes.len() ==> #[trigger] node_closed(nodes, j, 0, nodes.len() as int),
        forall|j: int| 0 <= j < nodes.len() ==> #[trigger] node_spelled(nodes, spelling, j),
    ensures
        walk(nodes, from, word) matches Some(j) ==> 0 <= j < nodes.len() && spelling[j]
            == spelling[from] + word,
    decreases word.len(),
{
    if word.len() == 0 {
        assert(spelling[from] + word =~= spelling[from]);
    } else if nodes[from].letters@.contains(word[0]) {
        let next = child_index(nodes, from, word[0]);
        assert(node_closed(nodes, from, 0, nodes.len() as int));
        assert(node_spelled(nodes, spelling, from));
        lemma_walk_spelling(nodes, spelling, next, word.drop_first());
        assert(spelling[from].push(word[0]) + word.drop_first() =~= spelling[from] + word);
    }
}

/// A node that keeps its children within a range keeps them within every
/// wider range, in every arena that holds the same node at its place.
proof fn lemma_closed_widen(
    a: Seq<TrieNode>,
    b: Seq<TrieNode>,
    j: int,
    lo: int,
    hi: int,
    lo2: int,
    hi2: int,
)
    requires
        node_closed(a, j, lo, hi),
        b[j] == a[j],
        lo2 <= lo,
        hi <= hi2,
    ensures
        node_closed(b, j, lo2, hi2),
{
    assert forall|l: Letter| b[j].letters@.contains(l) implies j < #[trigger] child_index(b, j, l)
        && lo2 <= child_index(b, j, l) < hi2 by {
        assert(child_index(b, j, l) == child_index(a, j, l));
    }
}

/// A node stays spelled when the node, its own spelling and that of the
/// range that holds its children stay as they are.
proof fn lemma_spelled_keep(
    a: Seq<TrieNode>,
    b: Seq<TrieNode>,
    sa: Seq<Seq<Letter>>,
    sb: Seq<Seq<Letter>>,
    j: int,
    lo: int,
    hi: int,
)
    requires
        node_spelled(a, sa, j),
        node_closed(a, j, lo, hi),
        b[j] == a[j],
        sb[j] == sa[j],
        forall|i: int| lo <= i < hi ==> #[trigger] sb[i] == sa[i],
    ensures
        node_spelled(b, sb, j),
{
    assert forall|l: Letter| b[j].letters@.contains(l) implies sb[#[trigger] child_index(b, j, l)]
        == sb[j].push(l) by {
        assert(child_index(b, j, l) == child_index(a, j, l));
    }
}

/// A node without letters is closed and spelled, whatever stands around it.
proof fn lemma_leaf_closed(nodes: Seq<TrieNode>, spelling: Seq<Seq<Letter>>, j: int, lo: int, hi: int)
    requires
        nodes[j].letters@ == Set::<Letter>::empty(),
    ensures
        node_closed(nodes, j, lo, hi),
        node_spelled(nodes, spelling, j),
{
}

impl TrieNode {
    /// A node without children at which no word ends.
    fn leaf() -> (node: TrieNode)
        ensures
            node.letters@ == Set::<Letter>::empty(),
            !node.is_end_of_word,
    {
        TrieNode { children: 0, letters: LetterSet::empty(), is_end_of_word: false }
    }
}

/// Packs the tree `large` into the arena, its root at place `index`, which
/// the arena already has. The children of each node are appended to the
/// arena side by side, in the order of the alphabet. Returns the spelling of
/// the arena's nodes, given that of the nodes it had.
fn build_arena(
    nodes: &mut Vec<TrieNode>,
    Ghost(spelled): Ghost<Seq<Seq<Letter>>>,
    index: usize,
    large: LargeTrieNode,
) -> (spelling: Ghost<Seq<Seq<Letter>>>)
    requires
        index < old(nodes)@.len(),
        spelled.len() == old(nodes)@.len(),
        large.wf(),
    ensures
        old(nodes)@.len() <= final(nodes)@.len() == spelling@.len(),
        forall|j: int|
            0 <= j < old(nodes)@.len() && j != index ==> #[trigger] final(nodes)@[j] == old(nodes)@[j],
        forall|j: int| 0 <= j < old(nodes)@.len() ==> #[trigger] spelling@[j] == spelled[j],
        forall|j: int|
            j == index || old(nodes)@.len() <= j < final(nodes)@.len() ==> #[trigger] node_closed(
                final(nodes)@,
                j,
                old(nodes)@.len() as int,
                final(nodes)@.len() as int,
            ),
        forall|j: int|
            j == index || old(nodes)@.len() <= j < final(nodes)@.len() ==> #[trigger] node_spelled(
                final(nodes)@,
                spelling@,
                j,
            ),
        forall|w: Seq<Letter>| large.contains(w) == #[trigger] ends_at(final(nodes)@, index as int, w),
    decreases large,
{
    let first = nodes.len();
    let letters = large.letters();
    let count = letters.len();
    let here = TrieNode { children: first, letters, is_end_of_word: large.is_end_of_word() };
    nodes[index] = here;
    let mut made: usize = 0;
    while made < count
        invariant
            made <= count,
            nodes@.len() == first + made,
            index < first,
            nodes@[index as int] == here,
            forall|j: int| 0 <= j < first && j != index ==> #[trigger] nodes@[j] == old(nodes)@[j],
            forall|j: int| first <= j < nodes@.len() ==> (#[trigger] nodes@[j]).letters@ == Set::<
                Letter,
            >::empty(),
        decreases count - made,
    {
        nodes.push(TrieNode::leaf());
        made = made + 1;
    }
    let base = nodes.len();
    let ghost branches = large.branches();
    let ghost prefix = spelled[index as int];
    let ghost mut spelling = spelled + Seq::new(count as nat, |i: int| Seq::<Letter>::empty());
    let kids = large.into_children();
    proof {
        assert forall|j: int| first <= j < nodes@.len() implies #[trigger] node_closed(
            nodes@,
            j,
            base as int,
            nodes@.len() as int,
        ) && node_spelled(nodes@, spelling, j) by {
            lemma_leaf_closed(nodes@, spelling, j, base as int, nodes@.len() as int);
        }
        assert forall|k: int| 0 <= k < kids@.len() implies (#[trigger] nodes@[first + letters.rank(
            kids@[k].0,
        )]).letters@ == Set::<Letter>::empty() by {
            lemma_kid_slot(large, letters, kids@, k);
        }
    }
    for kid in it: kids.into_iter()
        invariant
            it.seq() == kids@,
            index < first <= base <= nodes@.len() == spelling.len(),
            base == first + count,
            count == letters.count(),
            here == (TrieNode { children: first, letters, is_end_of_word: large.ends_word() }),
            branches == large.branches(),
            large.wf(),
            prefix == spelled[index as int],
            first == old(nodes)@.len() == spelled.len(),
            forall|l: Letter| letters@.contains(l) == leads(branches, l),
            forall|k: int| 0 <= k < kids@.len() ==> among(branches, 0, #[trigger] kids@[k]),
            forall|i: int| 0 <= i < branches.len() ==> kids@.contains(#[trigger] branches[i]),
            ascending(kids@),
            nodes@[index as int] == here,
            forall|j: int| 0 <= j < first && j != index ==> #[trigger] nodes@[j] == old(nodes)@[j],
            forall|j: int| 0 <= j < first ==> #[trigger] spelling[j] == spelled[j],
            forall|j: int|
                first <= j < nodes@.len() ==> #[trigger] node_closed(
                    nodes@,
                    j,
                    base as int,
                    nodes@.len() as int,
                ),
            forall|j: int| first <= j < nodes@.len() ==> #[trigger] node_spelled(nodes@, spelling, j),
            forall|k: int|
                0 <= k < it.index() ==> spelling[first + letters.rank((#[trigger] kids@[k]).0)]
                    == prefix.push(kids@[k].0),
            forall|k: int, w: Seq<Letter>|
                0 <= k < it.index() ==> (#[trigger] kids@[k]).1.contains(w) == #[trigger] ends_at(
                    nodes@,
                    first + letters.rank(kids@[k].0),
                    w,
                ),
            forall|k: int|
                it.index() <= k < kids@.len() ==> (#[trigger] nodes@[first + letters.rank(
                    kids@[k].0,
                )]).letters@ == Set::<Letter>::empty(),
        decreases kids@.len() - it.index(),
    {
        let (letter, child) = kid;
        let ghost k = it.index();
        let ghost origin = choose|i: int| 0 <= i < branches.len() && #[trigger] branches[i] == kid;
        proof {
            assert(kid == kids@[k]);
            assert(among(branches, 0, kids@[k]));
            lemma_kid_slot(large, letters, kids@, k);
            large.lemma_branch_wf(origin);
            large.lemma_branch_decreases(origin);
        }
        let slot = first + letters.rank_of(letter);
        let ghost before = nodes@;
        let ghost spelling_was = spelling;
        proof {
            spelling = spelling.update(slot as int, prefix.push(letter));
            assert(before[slot as int].letters@ == Set::<Letter>::empty());
            assert forall|j: int| first <= j < before.len() implies #[trigger] node_spelled(
                before,
                spelling,
                j,
            ) by {
                if j == slot {
                    lemma_leaf_closed(before, spelling, j, 0, 0);
                } else {
                    assert(node_closed(before, j, base as int, before.len() as int));
                    assert(node_spelled(before, spelling_was, j));
                    lemma_spelled_keep(
                        before,
                        before,
                        spelling_was,
                        spelling,
                        j,
                        base as int,
                        before.len() as int,
                    );
                }
            }
        }
        let ghost spelling_before = spelling;
        let Ghost(after) = build_arena(nodes, Ghost(spelling), slot, child);
        proof {
            spelling = after;
            let now = nodes@;
            assert forall|j: int| first <= j < now.len() implies #[trigger] node_closed(
                now,
                j,
                base as int,
                now.len() as int,
            ) by {
                if j == slot || j >= before.len() {
                    assert(node_closed(now, j, before.len() as int, now.len() as int));
                    lemma_closed_widen(
                        now,
                        now,
                        j,
                        before.len() as int,
                        now.len() as int,
                        base as int,
                        now.len() as int,
                    );
                } else {
                    assert(node_closed(before, j, base as int, before.len() as int));
                    assert(now[j] == before[j]);
                    lemma_closed_widen(
                        before,
                        now,
                        j,
                        base as int,
                        before.len() as int,
                        base as int,
                        now.len() as int,
                    );
                }
            }
            assert forall|j: int| first <= j < now.len() implies #[trigger] node_spelled(
                now,
                spelling,
                j,
            ) by {
                if j == slot || j >= before.len() {
                    assert(node_spelled(now, spelling, j));
                } else {
                    assert(node_spelled(before, spelling_before, j));
                    assert(node_closed(before, j, base as int, before.len() as int));
                    assert(now[j] == before[j]);
                    assert(spelling[j] == spelling_before[j]);
                    lemma_spelled_keep(
                        before,
                        now,
                        spelling_before,
                        spelling,
                        j,
                        base as int,
                        before.len() as int,
                    );
                }
            }
            assert forall|e: int| 0 <= e < k + 1 implies spelling[first + letters.rank(
                (#[trigger] kids@[e]).0,
            )] == prefix.push(kids@[e].0) by {
                lemma_kid_slot(large, letters, kids@, e);
                let other = first + letters.rank(kids@[e].0);
                if e < k {
                    lemma_other_slot(large, letters, kids@, e, k);
                    assert(spelling_was[other] == prefix.push(kids@[e].0));
                    assert(spelling_before[other] == spelling_was[other]);
                }
                assert(spelling[other] == spelling_before[other]);
            }
            assert forall|e: int, w: Seq<Letter>| 0 <= e < k + 1 implies (
            #[trigger] kids@[e]).1.contains(w) == #[trigger] ends_at(
                now,
                first + letters.rank(kids@[e].0),
                w,
            ) by {
                if e < k {
                    lemma_other_slot(large, letters, kids@, e, k);
                    lemma_kid_slot(large, letters, kids@, e);
                    let other = first + letters.rank(kids@[e].0);
                    assert(node_closed(before, other, base as int, before.len() as int));
                    assert(now[other] == before[other]);
                    lemma_walk_frame(before, now, other, base as int, before.len() as int, w);
                    assert(kids@[e].1.contains(w) == ends_at(before, other, w));
                }
            }
            assert forall|e: int| k + 1 <= e < kids@.len() implies (#[trigger] now[first
                + letters.rank(kids@[e].0)]).letters@ == Set::<Letter>::empty() by {
                lemma_other_slot(large, letters, kids@, k, e);
                lemma_kid_slot(large, letters, kids@, e);
                let other = first + letters.rank(kids@[e].0);
                assert(now[other] == before[other]);
            }
        }
    }
    proof {
        let now = nodes@;
        assert forall|j: int| j == index || first <= j < now.len() implies #[trigger] node_closed(
            now,
            j,
            first as int,
            now.len() as int,
        ) by {
            if j == index {
                assert forall|l: Letter| now[j].letters@.contains(l) implies j < #[trigger] child_index(
                    now,
                    j,
                    l,
                ) && first <= child_index(now, j, l) < now.len() by {
                    letters.lemma_rank_below_count(l);
                }
            } else {
                assert(node_closed(now, j, base as int, now.len() as int));
            }
        }
        assert forall|l: Letter| letters@.contains(l) implies spelling[first + letters.rank(l)]
            == prefix.push(l) && forall|w: Seq<Letter>|
            #[trigger] ends_at(now, first + letters.rank(l), w) == leads_to(branches, l, w) by {
            assert(leads(branches, l));
            let i = choose|i: int| 0 <= i < branches.len() && (#[trigger] branches[i]).0 == l;
            assert(kids@.contains(branches[i]));
            let k = choose|k: int| 0 <= k < kids@.len() && kids@[k] == branches[i];
            assert(kids@[k].0 == l);
            assert forall|w: Seq<Letter>| #[trigger]
                ends_at(now, first + letters.rank(l), w) == leads_to(branches, l, w) by {
                assert(kids@[k].1.contains(w) == ends_at(now, first + letters.rank(kids@[k].0), w));
                if leads_to(branches, l, w) {
                    let i2 = choose|i2: int|
                        0 <= i2 < branches.len() && (#[trigger] branches[i2]).0 == l
                            && branches[i2].1.contains(w);
                    if i2 < i {
                        assert(branches[i2].0 != branches[i].0);
                    } else if i < i2 {
                        assert(branches[i].0 != branches[i2].0);
                    }
                }
                if kids@[k].1.contains(w) {
                    assert(branches[i].0 == l && branches[i].1.contains(w));
                }
            }
        }
        assert(node_spelled(now, spelling, index as int));
        assert forall|w: Seq<Letter>| large.contains(w) == #[trigger] ends_at(
            now,
            index as int,
            w,
        ) by {
            if w.len() > 0 {
                let l = w[0];
                assert(large.contains(w) == leads_to(branches, l, w.drop_first()));
                if letters@.contains(l) {
                    assert(ends_at(now, first + letters.rank(l), w.drop_first()) == leads_to(
                        branches,
                        l,
                        w.drop_first(),
                    ));
                } else {
                    assert(!leads(branches, l));
                    if leads_to(branches, l, w.drop_first()) {
                        let i = choose|i: int|
                            0 <= i < branches.len() && (#[trigger] branches[i]).0 == l
                                && branches[i].1.contains(w.drop_first());
                        assert(branches[i].0 == l);
                    }
                }
            }
        }
    }
    Ghost(spelling)
}

/// What is wrong with a word list that is no dictionary: it holds, at place
/// `word`, a text whose character at place `position` is no letter.
#[derive(Debug, Clone, Copy, PartialEq, Eq, Structural)]
pub struct BadWord {
    pub word: usize,
    pub position: usize,
}

/// Whether `word` is spelled by one of the texts of `list`.
pub open spec fn listed(list: Seq<&str>, word: Seq<Letter>) -> bool {
    exists|i: int| 0 <= i < list.len() && letters_of((#[trigger] list[i])@) == word
}

/// The dictionary: a prefix tree of words, its nodes packed into one arena
/// with the root at place 0.
pub struct TrieArena {
    nodes: Vec<TrieNode>,
    spelling: Ghost<Seq<Seq<Letter>>>,
}

impl View for TrieArena {
    type V = Set<Seq<Letter>>;

    /// The words of the dictionary.
    closed spec fn view(&self) -> Set<Seq<Letter>> {
        Set::new(|word: Seq<Letter>| ends_at(self.nodes@, 0, word))
    }
}

impl TrieArena {
    /// Number of nodes of the arena.
    pub closed spec fn size(&self) -> nat {
        self.nodes@.len()
    }

    /// The place of the node that stands for the prefix `word`: the node that
    /// the walk from the root along its letters comes to, if the tree has a
    /// child for each letter on the way.
    pub closed spec fn node_of(&self, word: Seq<Letter>) -> Option<int> {
        walk(self.nodes@, 0, word)
    }

    /// The prefix that the node at place `j` stands for.
    pub closed spec fn spelled(&self, j: int) -> Seq<Letter> {
        self.spelling@[j]
    }

    /// The place of the first child of the node at place `j`.
    pub closed spec fn first_child(&self, j: int) -> int {
        self.nodes@[j].children as int
    }

    /// The letters under which the node at place `j` has a child.
    pub closed spec fn letters_at(&self, j: int) -> LetterSet {
        self.nodes@[j].letters
    }

    /// Whether the node at place `j` has a child under `letter`.
    pub open spec fn has_child(&self, j: int, letter: Letter) -> bool {
        self.letters_at(j)@.contains(letter)
    }

    /// The place of the child of the node at place `j` under `letter`: the
    /// children of a node stand side by side in the order of the alphabet, so
    /// it is the place of the first child plus the rank of the letter.
    pub open spec fn child_of(&self, j: int, letter: Letter) -> int {
        self.first_child(j) + self.letters_at(j).rank(letter)
    }

    /// Whether a word ends at the node at place `j`.
    pub closed spec fn ends_word(&self, j: int) -> bool {
        self.nodes@[j].is_end_of_word
    }

    /// The arena holds a tree: the root stands for the empty prefix, and the
    /// children of each node stand after it, inside the arena, each for the
    /// prefix of its parent with its own letter added.
    pub closed spec fn wf(&self) -> bool {
        &&& self.nodes@.len() >= 1
        &&& self.spelling@.len() == self.nodes@.len()
        &&& self.spelling@[0] == Seq::<Letter>::empty()
        &&& forall|j: int|
            0 <= j < self.nodes@.len() ==> #[trigger] node_closed(
                self.nodes@,
                j,
                0,
                self.nodes@.len() as int,
            )
        &&& forall|j: int|
            0 <= j < self.nodes@.len() ==> #[trigger] node_spelled(self.nodes@, self.spelling@, j)
    }

    /// The node of a prefix is inside the arena and stands for that prefix.
    pub proof fn lemma_node_of(&self, word: Seq<Letter>)
        requires
            self.wf(),
        ensures
            self.node_of(word) matches Some(j) ==> 0 <= j < self.size() && self.spelled(j) == word,
            self@.contains(word) == (self.node_of(word) matches Some(j) && self.ends_word(j)),
    {
        lemma_walk_spelling(self.nodes@, self.spelling@, 0, word);
        assert(Seq::<Letter>::empty() + word =~= word);
    }

    /// The node of a prefix with one more letter is the child, under that
    /// letter, of the node of the prefix.
    pub proof fn lemma_node_of_push(&self, word: Seq<Letter>, letter: Letter)
        requires
            self.wf(),
        ensures
            self.node_of(word.push(letter)) == (match self.node_of(word) {
                Some(j) => if self.has_child(j, letter) {
                    Some(self.child_of(j, letter))
                } else {
                    None
                },
                None => None,
            }),
    {
        lemma_walk_push(self.nodes@, 0, word, letter);
        self.lemma_node_of(word);
    }

    /// A dictionary that has a node for a prefix has one for each shorter
    /// prefix of it.
    pub proof fn lemma_node_of_take(&self, word: Seq<Letter>, n: int)
        requires
            self.wf(),
            0 <= n <= word.len(),
            self.node_of(word) is Some,
        ensures
            self.node_of(word.take(n)) is Some,
        decreases word.len() - n,
    {
        if n < word.len() {
            assert(word.drop_last().push(word.last()) =~= word);
            self.lemma_node_of_push(word.drop_last(), word.last());
            self.lemma_node_of_take(word.drop_last(), n);
            assert(word.drop_last().take(n) =~= word.take(n));
        } else {
            assert(word.take(n) =~= word);
        }
    }

    /// Builds the dictionary of the words of `list`, read without regard to
    /// case. A text with a character outside the alphabet makes the list
    /// unfit: no dictionary is built, and the error names the first such text
    /// and the place of its first such character.
    pub fn new(list: &[&str]) -> (r: Result<TrieArena, BadWord>)
        ensures
            match r {
                Ok(arena) => {
                    &&& arena.wf()
                    &&& forall|i: int| 0 <= i < list@.len() ==> is_word((#[trigger] list@[i])@)
                    &&& forall|word: Seq<Letter>| arena@.contains(word) == listed(list@, word)
                },
                Err(e) => {
                    &&& e.word < list@.len()
                    &&& forall|i: int| 0 <= i < e.word ==> is_word((#[trigger] list@[i])@)
                    &&& !is_word(list@[e.word as int]@)
                    &&& e.position == first_non_letter(list@[e.word as int]@)
                },
            },
    {
        let mut root = LargeTrieNode::new();
        let mut n: usize = 0;
        while n < list.len()
            invariant
                n <= list@.len(),
                root.wf(),
                forall|i: int| 0 <= i < n ==> is_word((#[trigger] list@[i])@),
                forall|word: Seq<Letter>| root.contains(word) == listed(list@.take(n as int), word),
            decreases list@.len() - n,
        {
            let ghost before = root;
            match root.insert_word(list[n]) {
                Ok(_) => {},
                Err(e) => {
                    return Err(BadWord { word: n, position: e.position });
                },
            }
            proof {
                let done = list@.take(n as int);
                let next = list@.take(n + 1);
                assert forall|word: Seq<Letter>| root.contains(word) == listed(next, word) by {
                    if listed(done, word) {
                        let i = choose|i: int|
                            0 <= i < done.len() && letters_of((#[trigger] done[i])@) == word;
                        assert(letters_of(next[i]@) == word);
                    }
                    if word == letters_of(list@[n as int]@) {
                        assert(letters_of(next[n as int]@) == word);
                    }
                    if listed(next, word) {
                        let i = choose|i: int|
                            0 <= i < next.len() && letters_of((#[trigger] next[i])@) == word;
                        if i < n {
                            assert(letters_of(done[i]@) == word);
                        }
                    }
                }
            }
            n = n + 1;
        }
        let mut nodes: Vec<TrieNode> = Vec::new();
        nodes.push(TrieNode::leaf());
        let ghost root_spelling = Seq::<Seq<Letter>>::empty().push(Seq::<Letter>::empty());
        let spelling = build_arena(&mut nodes, Ghost(root_spelling), 0, root);
        let arena = TrieArena { nodes, spelling };
        proof {
            assert(list@.take(n as int) =~= list@);
            assert forall|j: int| 0 <= j < arena.nodes@.len() implies #[trigger] node_closed(
                arena.nodes@,
                j,
                0,
                arena.nodes@.len() as int,
            ) by {
                assert(node_closed(arena.nodes@, j, 1, arena.nodes@.len() as int));
                lemma_closed_widen(
                    arena.nodes@,
                    arena.nodes@,
                    j,
                    1,
                    arena.nodes@.len() as int,
                    0,
                    arena.nodes@.len() as int,
                );
            }
            assert forall|word: Seq<Letter>| arena@.contains(word) == listed(list@, word) by {
                assert(root.contains(word) == ends_at(arena.nodes@, 0, word));
            }
        }
        Ok(arena)
    }

    /// Number of nodes of the arena.
    pub fn len(&self) -> (n: usize)
        ensures
            n == self.size(),
    {
        self.nodes.len()
    }

    /// The root of the tree: the node of the empty prefix.
    pub fn root(&self) -> (root: TrieRef<'_>)
        requires
            self.wf(),
        ensures
            root.wf(),
            root.arena() == self,
            root.prefix() == Seq::<Letter>::empty(),
    {
        TrieRef { arena: self, index: 0 }
    }
}

/// A node of a dictionary: the place where the walk along a prefix has come.
#[derive(Clone, Copy)]
pub struct TrieRef<'a> {
    arena: &'a TrieArena,
    index: usize,
}

impl<'a> TrieRef<'a> {
    /// The dictionary that the node belongs to.
    pub closed spec fn arena(&self) -> &TrieArena {
        self.arena
    }

    /// The place of the node in the arena.
    pub closed spec fn place(&self) -> int {
        self.index as int
    }

    /// The prefix that the node stands for.
    pub closed spec fn prefix(&self) -> Seq<Letter> {
        self.arena.spelling@[self.index as int]
    }

    /// The node belongs to a well-formed dictionary and is the node of its
    /// own prefix there.
    pub closed spec fn wf(&self) -> bool {
        &&& self.arena.wf()
        &&& self.index < self.arena.nodes@.len()
        &&& walk(self.arena.nodes@, 0, self.prefix()) == Some(self.index as int)
    }

    /// What a well-formed node promises.
    pub proof fn lemma_wf(&self)
        requires
            self.wf(),
        ensures
            self.arena().wf(),
            self.arena().node_of(self.prefix()) == Some(self.place()),
            0 <= self.place() < self.arena().size(),
            self.arena().spelled(self.place()) == self.prefix(),
    {
    }

    /// The place of the node in the arena.
    pub fn index(&self) -> (i: usize)
        ensures
            i == self.place(),
    {
        self.index
    }

    /// The child under `letter`: the node of this node's prefix with `letter`
    /// added. There is one exactly where the dictionary has a node for that
    /// longer prefix.
    pub fn child(&self, letter: Letter) -> (r: Option<TrieRef<'a>>)
        requires
            self.wf(),
        ensures
            r is Some == self.arena().node_of(self.prefix().push(letter)) is Some,
            r matches Some(c) ==> c.wf() && c.arena() == self.arena() && c.prefix()
                == self.prefix().push(letter) && self.place() < c.place() && c.place()
                == self.arena().child_of(self.place(), letter),
    {
        let node = &self.arena.nodes[self.index];
        proof {
            lemma_walk_push(self.arena.nodes@, 0, self.prefix(), letter);
            assert(node_closed(self.arena.nodes@, self.index as int, 0, self.arena.nodes@.len() as int));
            assert(node_spelled(self.arena.nodes@, self.arena.spelling@, self.index as int));
        }
        if node.letters.contains(letter) {
            let rank = node.letters.rank_of(letter);
            assert(node.children + rank == child_index(
                self.arena.nodes@,
                self.index as int,
                letter,
            ) < self.arena.nodes.len());
            let index = node.children + rank;
            Some(TrieRef { arena: self.arena, index })
        } else {
            None
        }
    }

    /// The children of the node, each with the letter that leads to it, in
    /// the order of the alphabet.
    pub fn children(&self) -> (r: Vec<(Letter, TrieRef<'a>)>)
        requires
            self.wf(),
        ensures
            r@.len() == self.arena().letters_at(self.place()).count(),
            forall|k: int|
                0 <= k < r@.len() ==> {
                    let c = (#[trigger] r@[k]).1;
                    c.wf() && c.arena() == self.arena() && c.prefix() == self.prefix().push(r@[k].0)
                        && self.place() < c.place() && c.place() == self.arena().first_child(
                        self.place(),
                    ) + k
                },
            forall|a: int, b: int|
                0 <= a < b < r@.len() ==> (#[trigger] r@[a]).0.ord() < (#[trigger] r@[b]).0.ord(),
            forall|l: Letter|
                self.arena().node_of(self.prefix().push(l)) is Some ==> exists|k: int|
                    0 <= k < r@.len() && (#[trigger] r@[k]).0 == l,
    {
        let mut r: Vec<(Letter, TrieRef<'a>)> = Vec::new();
        let mut n: u8 = 0;
        let ghost letters = self.arena.nodes@[self.index as int].letters;
        proof {
            letters.lemma_rank_step(0);
        }
        while n < 26
            invariant
                n <= 26,
                self.wf(),
                letters == self.arena().letters_at(self.place()),
                r@.len() == (if n < 26 {
                    letters.rank(Letter::at(n as int))
                } else {
                    letters.count()
                }),
                forall|k: int|
                    0 <= k < r@.len() ==> (#[trigger] r@[k]).1.place() == self.arena().first_child(
                        self.place(),
                    ) + k,
                forall|k: int|
                    0 <= k < r@.len() ==> {
                        let c = (#[trigger] r@[k]).1;
                        c.wf() && c.arena() == self.arena() && c.prefix() == self.prefix().push(
                            r@[k].0,
                        ) && self.place() < c.place() && r@[k].0.ord() < n
                    },
                forall|a: int, b: int|
                    0 <= a < b < r@.len() ==> (#[trigger] r@[a]).0.ord() < (#[trigger] r@[b]).0.ord(),
                forall|l: Letter|
                    l.ord() < n && self.arena().node_of(self.prefix().push(l)) is Some
                        ==> exists|k: int| 0 <= k < r@.len() && (#[trigger] r@[k]).0 == l,
            decreases 26 - n,
        {
            let letter = Letter::from_ordinal(n).unwrap();
            proof {
                Letter::lemma_ord_at();
                letters.lemma_rank_step(n as int);
                self.arena.lemma_node_of_push(self.prefix(), letter);
            }
            let ghost before = r@;
            match self.child(letter) {
                Some(c) => {
                    r.push((letter, c));
                    proof {
                        assert forall|l: Letter|
                            l.ord() < n + 1 && self.arena().node_of(self.prefix().push(l)) is Some
                            implies exists|k: int| 0 <= k < r@.len() && (#[trigger] r@[k]).0 == l by {
                            if l.ord() < n {
                                let k = choose|k: int|
                                    0 <= k < before.len() && (#[trigger] before[k]).0 == l;
                                assert(r@[k].0 == l);
                            } else {
                                assert(l == letter);
                                assert(r@[before.len() as int].0 == l);
                            }
                        }
                    }
                },
                None => {
                    proof {
                        assert forall|l: Letter|
                            l.ord() < n + 1 && self.arena().node_of(self.prefix().push(l)) is Some
                            implies exists|k: int| 0 <= k < r@.len() && (#[trigger] r@[k]).0 == l by {
                            if l.ord() < n {
                                let k = choose|k: int|
                                    0 <= k < before.len() && (#[trigger] before[k]).0 == l;
                                assert(r@[k].0 == l);
                            } else {
                                assert(l == letter);
                            }
                        }
                    }
                },
            }
            n = n + 1;
        }
        proof {
            Letter::lemma_ord_at();
            assert forall|l: Letter|
                self.arena().node_of(self.prefix().push(l)) is Some implies exists|k: int|
                0 <= k < r@.len() && (#[trigger] r@[k]).0 == l by {
                assert(l.ord() < n);
            }
        }
        r
    }

    /// Whether a word ends at the node: whether its prefix is a word of the
    /// dictionary.
    pub fn is_end_of_word(&self) -> (r: bool)
        requires
            self.wf(),
        ensures
            r == self.arena()@.contains(self.prefix()),
    {
        self.arena.nodes[self.index].is_end_of_word
    }
}

/// A child from the sorted list stands under a letter of the node's set, so
/// its rank is below the number of the set's letters.
proof fn lemma_kid_slot(
    large: LargeTrieNode,
    letters: LetterSet,
    kids: Seq<(Letter, LargeTrieNode)>,
    k: int,
)
    requires
        0 <= k < kids.len(),
        forall|l: Letter| letters@.contains(l) == leads(large.branches(), l),
        forall|k: int| 0 <= k < kids.len() ==> among(large.branches(), 0, #[trigger] kids[k]),
    ensures
        letters@.contains(kids[k].0),
        letters.rank(kids[k].0) < letters.count(),
{
    assert(among(large.branches(), 0, kids[k]));
    let i = choose|i: int| 0 <= i < large.branches().len() && #[trigger] large.branches()[i] == kids[k];
    assert(large.branches()[i].0 == kids[k].0);
    assert(leads(large.branches(), kids[k].0));
    letters.lemma_rank_below_count(kids[k].0);
}

/// Two children of a node, taken from different places of the sorted list,
/// stand under different letters of the node's set, so their ranks differ.
proof fn lemma_other_slot(
    large: LargeTrieNode,
    letters: LetterSet,
    kids: Seq<(Letter, LargeTrieNode)>,
    a: int,
    b: int,
)
    requires
        0 <= a < b < kids.len(),
        ascending(kids),
        forall|l: Letter| letters@.contains(l) == leads(large.branches(), l),
        forall|k: int| 0 <= k < kids.len() ==> among(large.branches(), 0, #[trigger] kids[k]),
    ensures
        letters.rank(kids[a].0) < letters.rank(kids[b].0),
{
    assert(among(large.branches(), 0, kids[a]));
    let i = choose|i: int| 0 <= i < large.branches().len() && #[trigger] large.branches()[i] == kids[a];
    assert(large.branches()[i].0 == kids[a].0);
    assert(leads(large.branches(), kids[a].0));
    assert(kids[a].0.ord() < kids[b].0.ord());
    letters.lemma_rank_ordered(kids[a].0, kids[b].0);
}

} // verus!
