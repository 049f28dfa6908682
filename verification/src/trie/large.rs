//! The prefix tree that words are inserted into.

use vstd::prelude::*;
use crate::letter::Letter;
use crate::letter_set::LetterSet;
use crate::word::{
    is_word, letters_of, first_non_letter, parse_word, lemma_same_head_and_rest, NotALetter,
};

verus! {

/// A node of the growing prefix tree. Its children are kept in the order in
/// which their letters first occurred.
#[derive(Debug)]
pub struct LargeTrieNode {
    children: Vec<(Letter, LargeTrieNode)>,
    is_end_of_word: bool,
}

impl Default for LargeTrieNode {
    /// The tree that holds no word.
    fn default() -> (node: LargeTrieNode)
        ensures
            node.wf(),
            !node.ends_word(),
            forall|word: Seq<Letter>| !node.contains(word),
    {
        LargeTrieNode::new()
    }
}

impl LargeTrieNode {
    /// The children of the node, each with the letter that leads to it.
    pub closed spec fn branches(&self) -> Seq<(Letter, LargeTrieNode)> {
        self.children@
    }

    /// Whether a word ends at this node.
    pub closed spec fn ends_word(&self) -> bool {
        self.is_end_of_word
    }

    /// No two children of a node stand under the same letter, here and below.
    pub open spec fn wf(&self) -> bool
        decreases self,
    {
        &&& distinct_letters(self.branches())
        &&& forall|i: int|
            0 <= i < self.branches().len() ==> (#[trigger] self.branches()[i]).1.wf()
    }

    /// Whether the tree under this node holds `word`: the walk along its
    /// letters stays in the tree and ends at a node where a word ends.
    pub open spec fn contains(&self, word: Seq<Letter>) -> bool
        decreases word.len(),
    {
        if word.len() == 0 {
            self.ends_word()
        } else {
            exists|i: int|
                0 <= i < self.branches().len() && (#[trigger] self.branches()[i]).0 == word[0]
                    && self.branches()[i].1.contains(word.drop_first())
        }
    }

    /// The tree that holds no word.
    pub fn new() -> (node: LargeTrieNode)
        ensures
            node.wf(),
            node.branches().len() == 0,
            !node.ends_word(),
            forall|word: Seq<Letter>| !node.contains(word),
    {
        let node = LargeTrieNode { children: Vec::new(), is_end_of_word: false };
        assert(node.wf());
        node
    }

    /// Whether a word ends at this node.
    pub fn is_end_of_word(&self) -> (r: bool)
        ensures
            r == self.ends_word(),
    {
        self.is_end_of_word
    }

    /// A child is smaller than its parent, which lets a recursion over the
    /// tree end.
    pub proof fn lemma_branch_decreases(&self, i: int)
        requires
            0 <= i < self.branches().len(),
        ensures
            decreases_to!(*self => self.branches()[i].1),
    {
    }

    /// In a well-formed tree the children are well-formed.
    pub proof fn lemma_branch_wf(&self, i: int)
        requires
            self.wf(),
            0 <= i < self.branches().len(),
        ensures
            self.branches()[i].1.wf(),
    {
    }

    /// Adds `word` to the tree. A text with a character outside the alphabet
    /// is not added: the tree stays as it was, and the error names the place
    /// of the first such character.
    pub fn insert_word(&mut self, word: &str) -> (r: Result<(), NotALetter>)
        requires
            old(self).wf(),
        ensures
            final(self).wf(),
            match r {
                Ok(_) => is_word(word@) && forall|w: Seq<Letter>|
                    final(self).contains(w) == (old(self).contains(w) || w == letters_of(word@)),
                Err(e) => !is_word(word@) && e.position == first_non_letter(word@) && *final(self)
                    == *old(self),
            },
    {
        match parse_word(word) {
            Ok(letters) => {
                self.insert_letters(&letters, 0);
                proof {
                    assert(letters@.skip(0) =~= letters@);
                }
                Ok(())
            },
            Err(e) => Err(e),
        }
    }

    /// The letters under which the node has a child.
    pub fn letters(&self) -> (set: LetterSet)
        ensures
            forall|l: Letter| set@.contains(l) == leads(self.branches(), l),
    {
        let mut set = LetterSet::empty();
        let mut i: usize = 0;
        while i < self.children.len()
            invariant
                i <= self.children@.len(),
                forall|l: Letter| set@.contains(l) == leads(self.children@.take(i as int), l),
            decreases self.children@.len() - i,
        {
            let ghost before = set;
            set.insert(self.children[i].0);
            proof {
                let done = self.children@.take(i as int);
                let next = self.children@.take(i + 1);
                let added = self.children@[i as int].0;
                assert forall|l: Letter| set@.contains(l) == leads(next, l) by {
                    if leads(done, l) {
                        let k = choose|k: int| 0 <= k < done.len() && (#[trigger] done[k]).0 == l;
                        assert(next[k].0 == l);
                    }
                    if l == added {
                        assert(next[i as int].0 == l);
                    }
                    if leads(next, l) && l != added {
                        let k = choose|k: int| 0 <= k < next.len() && (#[trigger] next[k]).0 == l;
                        assert(done[k].0 == l);
                    }
                }
            }
            i = i + 1;
        }
        proof {
            assert(self.children@.take(i as int) =~= self.children@);
        }
        set
    }

    /// Takes the node apart into its children, in the order of the alphabet.
    pub fn into_children(self) -> (sorted: Vec<(Letter, LargeTrieNode)>)
        requires
            self.wf(),
        ensures
            sorted@.len() == self.branches().len(),
            forall|k: int| 0 <= k < sorted@.len() ==> among(self.branches(), 0, #[trigger] sorted@[k]),
            forall|i: int|
                0 <= i < self.branches().len() ==> sorted@.contains(#[trigger] self.branches()[i]),
            ascending(sorted@),
    {
        let ghost all = self.children@;
        let mut rest = self.children;
        let mut sorted: Vec<(Letter, LargeTrieNode)> = Vec::new();
        while rest.len() > 0
            invariant
                distinct_letters(all),
                rest@.len() <= all.len(),
                rest@ == all.take(rest@.len() as int),
                rest@.len() + sorted@.len() == all.len(),
                forall|k: int|
                    0 <= k < sorted@.len() ==> among(all, rest@.len() as int, #[trigger] sorted@[k]),
                forall|i: int| rest@.len() <= i < all.len() ==> sorted@.contains(#[trigger] all[i]),
                ascending(sorted@),
            decreases rest@.len(),
        {
            let ghost m = rest@.len() as int;
            let child = rest.pop().unwrap();
            let key: u8 = child.0.ordinal();
            let mut at: usize = 0;
            while at < sorted.len() && sorted[at].0.ordinal() < key
                invariant
                    at <= sorted@.len(),
                    key == child.0.ord(),
                    forall|k: int| 0 <= k < at ==> (#[trigger] sorted@[k]).0.ord() < key,
                decreases sorted@.len() - at,
            {
                at = at + 1;
            }
            proof {
                assert(child == all[m - 1]);
                lemma_insert_sorted(all, m, sorted@, at as int);
                assert(rest@ =~= all.take(m - 1));
            }
            sorted.insert(at, child);
        }
        sorted
    }

    /// The place of the child under `letter`, if there is one.
    fn position(&self, letter: Letter) -> (r: Option<usize>)
        ensures
            match r {
                Some(i) => i < self.branches().len() && self.branches()[i as int].0 == letter,
                None => forall|i: int|
                    0 <= i < self.branches().len() ==> (#[trigger] self.branches()[i]).0 != letter,
            },
    {
        find_letter(&self.children, letter)
    }

    /// Adds the word made of the letters of `word` from place `from` on.
    fn insert_letters(&mut self, word: &Vec<Letter>, from: usize)
        requires
            old(self).wf(),
            from <= word@.len(),
        ensures
            final(self).wf(),
            forall|w: Seq<Letter>|
                final(self).contains(w) == (old(self).contains(w) || w == word@.skip(from as int)),
        decreases word@.len() - from,
    {
        if from == word.len() {
            self.is_end_of_word = true;
            proof {
                assert(word@.skip(from as int) =~= Seq::<Letter>::empty());
                assert(self.branches() == old(self).branches());
                assert(self.wf());
                let post = *self;
                assert forall|w: Seq<Letter>| post.contains(w) == (old(self).contains(w) || w
                    == word@.skip(from as int)) by {
                    if w.len() == 0 {
                        assert(w =~= Seq::<Letter>::empty());
                    }
                }
            }
            return ;
        }
        let letter = word[from];
        let at = match self.position(letter) {
            Some(i) => i,
            None => {
                self.children.push((letter, LargeTrieNode::new()));
                self.children.len() - 1
            },
        };
        let ghost mid = *self;
        proof {
            assert(mid.wf());
            assert forall|w: Seq<Letter>| mid.contains(w) == old(self).contains(w) by {
                if w.len() > 0 {
                    if mid.contains(w) {
                        let i = choose|i: int|
                            0 <= i < mid.branches().len() && (#[trigger] mid.branches()[i]).0 == w[0]
                                && mid.branches()[i].1.contains(w.drop_first());
                        assert(i < old(self).branches().len());
                        assert(old(self).branches()[i] == mid.branches()[i]);
                    }
                    let pre = *old(self);
                    if pre.contains(w) {
                        let i = choose|i: int|
                            0 <= i < pre.branches().len() && (#[trigger] pre.branches()[i]).0 == w[0]
                                && pre.branches()[i].1.contains(w.drop_first());
                        assert(pre.branches()[i] == mid.branches()[i]);
                    }
                }
            }
        }
        self.children[at].1.insert_letters(word, from + 1);
        proof {
            let post = *self;
            let rest = word@.skip(from as int);
            assert(rest.drop_first() =~= word@.skip(from + 1));
            assert(rest[0] == letter);
            assert(post.branches().len() == mid.branches().len());
            assert forall|i: int| 0 <= i < mid.branches().len() && i != at implies
                #[trigger] post.branches()[i] == mid.branches()[i] by {}
            assert(post.branches()[at as int].0 == letter);
            assert(post.wf());
            assert forall|w: Seq<Letter>| post.contains(w) == (mid.contains(w) || w == rest) by {
                if w.len() > 0 {
                    if post.contains(w) {
                        let i = choose|i: int|
                            0 <= i < post.branches().len() && (#[trigger] post.branches()[i]).0
                                == w[0] && post.branches()[i].1.contains(w.drop_first());
                        if i == at {
                            if !mid.branches()[i].1.contains(w.drop_first()) {
                                assert(w.drop_first() == rest.drop_first());
                                lemma_same_head_and_rest(w, rest);
                            } else {
                                assert(mid.branches()[i].0 == w[0]);
                            }
                        } else {
                            assert(mid.branches()[i] == post.branches()[i]);
                        }
                    }
                    if mid.contains(w) {
                        let i = choose|i: int|
                            0 <= i < mid.branches().len() && (#[trigger] mid.branches()[i]).0 == w[0]
                                && mid.branches()[i].1.contains(w.drop_first());
                        if i != at {
                            assert(mid.branches()[i] == post.branches()[i]);
                        }
                        assert(post.branches()[i].0 == w[0]);
                    }
                    if w == rest {
                        assert(post.branches()[at as int].1.contains(w.drop_first()));
                    }
                }
            }
        }
    }
}

/// Whether one of `children` stands under `letter`.
pub open spec fn leads(children: Seq<(Letter, LargeTrieNode)>, letter: Letter) -> bool {
    exists|i: int| 0 <= i < children.len() && (#[trigger] children[i]).0 == letter
}

/// Whether one of `children` stands under `letter` and holds `word`.
pub open spec fn leads_to(
    children: Seq<(Letter, LargeTrieNode)>,
    letter: Letter,
    word: Seq<Letter>,
) -> bool {
    exists|i: int|
        0 <= i < children.len() && (#[trigger] children[i]).0 == letter && children[i].1.contains(
            word,
        )
}

/// Whether `x` stands in `all` at place `from` or later.
pub open spec fn among(
    all: Seq<(Letter, LargeTrieNode)>,
    from: int,
    x: (Letter, LargeTrieNode),
) -> bool {
    exists|i: int| from <= i < all.len() && 0 <= i && #[trigger] all[i] == x
}

/// Whether no two of `children` stand under the same letter.
pub open spec fn distinct_letters(children: Seq<(Letter, LargeTrieNode)>) -> bool {
    forall|i: int, j: int|
        0 <= i < j < children.len() ==> (#[trigger] children[i]).0 != (#[trigger] children[j]).0
}

/// Whether `children` stand in the order of the alphabet, no letter twice.
pub open spec fn ascending(children: Seq<(Letter, LargeTrieNode)>) -> bool {
    forall|a: int, b: int|
        0 <= a < b < children.len() ==> (#[trigger] children[a]).0.ord() < (
        #[trigger] children[b]).0.ord()
}

/// One step of sorting by insertion: `sorted` holds the children of `all`
/// from place `m` on, in order, and takes in the child at place `m - 1`.
proof fn lemma_insert_sorted(
    all: Seq<(Letter, LargeTrieNode)>,
    m: int,
    sorted: Seq<(Letter, LargeTrieNode)>,
    at: int,
)
    requires
        0 < m <= all.len(),
        distinct_letters(all),
        forall|k: int| 0 <= k < sorted.len() ==> among(all, m, #[trigger] sorted[k]),
        forall|i: int| m <= i < all.len() ==> sorted.contains(#[trigger] all[i]),
        ascending(sorted),
        0 <= at <= sorted.len(),
        forall|k: int| 0 <= k < at ==> (#[trigger] sorted[k]).0.ord() < all[m - 1].0.ord(),
        at < sorted.len() ==> sorted[at].0.ord() >= all[m - 1].0.ord(),
    ensures
        forall|k: int|
            0 <= k < sorted.len() + 1 ==> among(
                all,
                m - 1,
                #[trigger] sorted.insert(at, all[m - 1])[k],
            ),
        forall|i: int|
            m - 1 <= i < all.len() ==> sorted.insert(at, all[m - 1]).contains(#[trigger] all[i]),
        ascending(sorted.insert(at, all[m - 1])),
{
    let child = all[m - 1];
    let next = sorted.insert(at, child);
    Letter::lemma_ord_at();
    assert forall|k: int| 0 <= k < next.len() implies among(all, m - 1, #[trigger] next[k]) by {
        if k == at {
            assert(all[m - 1] == next[k]);
        } else {
            let from = if k < at { k } else { k - 1 };
            assert(next[k] == sorted[from]);
            assert(among(all, m, sorted[from]));
            let i = choose|i: int| m <= i < all.len() && 0 <= i && #[trigger] all[i] == sorted[from];
            assert(all[i] == next[k]);
        }
    }
    assert forall|i: int| m - 1 <= i < all.len() implies next.contains(#[trigger] all[i]) by {
        if i == m - 1 {
            assert(next[at] == all[i]);
        } else {
            assert(sorted.contains(all[i]));
            let k = choose|k: int| 0 <= k < sorted.len() && sorted[k] == all[i];
            if k < at {
                assert(next[k] == all[i]);
            } else {
                assert(next[k + 1] == all[i]);
            }
        }
    }
    assert forall|k: int| at <= k < sorted.len() implies (#[trigger] sorted[k]).0.ord()
        > child.0.ord() by {
        assert(among(all, m, sorted[k]));
        let i = choose|i: int| m <= i < all.len() && 0 <= i && #[trigger] all[i] == sorted[k];
        assert(all[m - 1].0 != all[i].0);
        if k > at {
            assert(sorted[at].0.ord() < sorted[k].0.ord());
        }
    }
    assert forall|a: int, b: int| 0 <= a < b < next.len() implies (#[trigger] next[a]).0.ord() < (
    #[trigger] next[b]).0.ord() by {
        let fa = if a < at { a } else { a - 1 };
        let fb = if b < at { b } else { b - 1 };
        if a == at {
            assert(next[b] == sorted[fb]);
        } else if b == at {
            assert(next[a] == sorted[fa]);
        } else {
            assert(next[a] == sorted[fa]);
            assert(next[b] == sorted[fb]);
        }
    }
}

/// The place of the first child under `letter` among `children`, if there
/// is one.
fn find_letter(children: &Vec<(Letter, LargeTrieNode)>, letter: Letter) -> (r: Option<usize>)
    ensures
        match r {
            Some(i) => i < children@.len() && children@[i as int].0 == letter,
            None => forall|i: int| 0 <= i < children@.len() ==> (#[trigger] children@[i]).0 != letter,
        },
{
    let mut i: usize = 0;
    while i < children.len()
        invariant
            i <= children@.len(),
            forall|k: int| 0 <= k < i ==> (#[trigger] children@[k]).0 != letter,
        decreases children@.len() - i,
    {
        if children[i].0 == letter {
            return Some(i);
        }
        i = i + 1;
    }
    None
}

} // verus!
