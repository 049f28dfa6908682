//! Words: strings read as sequences of letters.

use vstd::prelude::*;
use crate::letter::Letter;

verus! {

/// Whether every character of `text` stands for a letter.
pub open spec fn is_word(text: Seq<char>) -> bool {
    forall|i: int| 0 <= i < text.len() ==> (#[trigger] Letter::spec_from_char(text[i])) is Some
}

/// The letters that the characters of `text` stand for.
pub open spec fn letters_of(text: Seq<char>) -> Seq<Letter> {
    Seq::new(text.len(), |i: int| Letter::spec_from_char(text[i]).unwrap())
}

/// The place of the first character of `text` that is no letter, or the
/// length of `text` where every character is one.
pub open spec fn first_non_letter(text: Seq<char>) -> int
    decreases text.len(),
{
    if text.len() == 0 {
        0
    } else if Letter::spec_from_char(text[0]) is None {
        0
    } else {
        1 + first_non_letter(text.drop_first())
    }
}

/// `first_non_letter` is the place before which all are letters and at
/// which, if it is inside the text, stands a character that is none.
pub proof fn lemma_first_non_letter(text: Seq<char>)
    ensures
        0 <= first_non_letter(text) <= text.len(),
        is_word(text.take(first_non_letter(text))),
        first_non_letter(text) < text.len() ==> Letter::spec_from_char(
            text[first_non_letter(text)],
        ) is None,
        is_word(text) == (first_non_letter(text) == text.len()),
    decreases text.len(),
{
    if text.len() > 0 && Letter::spec_from_char(text[0]) is Some {
        let rest = text.drop_first();
        lemma_first_non_letter(rest);
        let n = first_non_letter(rest);
        let head = text.take(n + 1);
        assert forall|i: int| 0 <= i < head.len() implies (#[trigger] Letter::spec_from_char(
            head[i],
        )) is Some by {
            if i > 0 {
                assert(head[i] == rest.take(n)[i - 1]);
            }
        }
        if is_word(text) {
            assert forall|i: int| 0 <= i < rest.len() implies (#[trigger] Letter::spec_from_char(
                rest[i],
            )) is Some by {
                assert(rest[i] == text[i + 1]);
            }
        }
        if n == rest.len() {
            assert(text.take(n + 1) == text);
        }
    } else if text.len() > 0 {
        assert(!is_word(text));
    }
}

/// Two words are the same when they start with the same letter and go on
/// alike.
pub proof fn lemma_same_head_and_rest<A>(a: Seq<A>, b: Seq<A>)
    requires
        a.len() > 0,
        b.len() > 0,
        a[0] == b[0],
        a.drop_first() == b.drop_first(),
    ensures
        a == b,
{
    assert(a.len() == b.len()) by {
        assert(a.drop_first().len() == a.len() - 1);
        assert(b.drop_first().len() == b.len() - 1);
    }
    assert forall|i: int| 0 <= i < a.len() implies a[i] == b[i] by {
        if i > 0 {
            assert(a[i] == a.drop_first()[i - 1]);
            assert(b[i] == b.drop_first()[i - 1]);
        }
    }
    assert(a =~= b);
}

/// What is wrong with a text that is no word: the place of its first
/// character that is no letter.
#[derive(Debug, Clone, Copy, PartialEq, Eq, Structural)]
pub struct NotALetter {
    pub position: usize,
}

/// A sequence starts with a prefix and one more element exactly when it
/// starts with the prefix and goes on with that element.
pub proof fn lemma_prefix_push<A>(prefix: Seq<A>, next: A, whole: Seq<A>)
    ensures
        prefix.push(next).is_prefix_of(whole) == (prefix.is_prefix_of(whole) && whole.len()
            > prefix.len() && whole[prefix.len() as int] == next),
{
    let longer = prefix.push(next);
    if longer.is_prefix_of(whole) {
        assert(whole.subrange(0, longer.len() as int) =~= longer);
        assert(whole[prefix.len() as int] == longer[prefix.len() as int]);
        assert(prefix =~= whole.subrange(0, prefix.len() as int)) by {
            assert forall|i: int| 0 <= i < prefix.len() implies prefix[i] == whole[i] by {
                assert(longer[i] == whole.subrange(0, longer.len() as int)[i]);
            }
        }
    }
    if prefix.is_prefix_of(whole) && whole.len() > prefix.len() && whole[prefix.len() as int] == next {
        assert(prefix =~= whole.subrange(0, prefix.len() as int));
        assert forall|i: int| 0 <= i < longer.len() implies longer[i] == whole[i] by {
            if i < prefix.len() {
                assert(prefix[i] == whole.subrange(0, prefix.len() as int)[i]);
            }
        }
        assert(longer =~= whole.subrange(0, longer.len() as int));
    }
}

/// A prefix of a prefix of a sequence is a prefix of the sequence.
pub proof fn lemma_prefix_transitive<A>(a: Seq<A>, b: Seq<A>, c: Seq<A>)
    requires
        a.is_prefix_of(b),
        b.is_prefix_of(c),
    ensures
        a.is_prefix_of(c),
{
    assert(a =~= b.subrange(0, a.len() as int));
    assert(b =~= c.subrange(0, b.len() as int));
    assert forall|i: int| 0 <= i < a.len() implies a[i] == c[i] by {
        assert(a[i] == b.subrange(0, a.len() as int)[i]);
        assert(b[i] == c.subrange(0, b.len() as int)[i]);
    }
    assert(a =~= c.subrange(0, a.len() as int));
}

/// A sequence that starts with a prefix of its own length is that prefix.
pub proof fn lemma_prefix_same_len<A>(prefix: Seq<A>, whole: Seq<A>)
    requires
        prefix.is_prefix_of(whole),
        prefix.len() == whole.len(),
    ensures
        prefix == whole,
{
    assert(prefix =~= whole.subrange(0, prefix.len() as int));
    assert(whole.subrange(0, prefix.len() as int) =~= whole);
}

/// Reads `text` as a word. A text with a character that is no letter is no
/// word, and the error names the place of the first such character.
pub fn parse_word(text: &str) -> (r: Result<Vec<Letter>, NotALetter>)
    ensures
        match r {
            Ok(word) => is_word(text@) && word@ == letters_of(text@),
            Err(e) => !is_word(text@) && e.position == first_non_letter(text@),
        },
{
    let mut word: Vec<Letter> = Vec::new();
    for c in it: text.chars()
        invariant
            it.index() == word@.len(),
            it.seq() == text@,
            forall|i: int| 0 <= i < word@.len() ==> Letter::spec_from_char(#[trigger] text@[i]) == Some(word@[i]),
    {
        match Letter::from_char(c) {
            Some(letter) => {
                word.push(letter);
            },
            None => {
                let at = word.len();
                proof {
                    lemma_first_non_letter(text@);
                    let n = first_non_letter(text@);
                    if n < at {
                        assert(Letter::spec_from_char(text@[n]) is Some);
                    }
                    if n > at {
                        assert(text@.take(n)[at as int] == text@[at as int]);
                        assert(Letter::spec_from_char(text@.take(n)[at as int]) is Some);
                    }
                }
                return Err(NotALetter { position: at });
            },
        }
    }
    proof {
        assert(word@ =~= letters_of(text@));
    }
    Ok(word)
}

} // verus!
