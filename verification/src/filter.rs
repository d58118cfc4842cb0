//! The candidate filter: the words of a list that stay usable once some
//! letters are taken, and once a word has been chosen.

use crate::letters::LetterSet;
use crate::word::{word_lt, Word};
use vstd::prelude::*;

verus! {

/// Whether `word` uses none of `letters`.
pub open spec fn avoids(word: Seq<char>, letters: Set<char>) -> bool {
    word.to_set().disjoint(letters)
}

/// The test that a word uses none of `letters`.
pub open spec fn avoiding(letters: Set<char>) -> spec_fn(Word) -> bool {
    |w: Word| avoids(w@, letters)
}

/// The test that a word comes strictly after `pivot` in dictionary order.
pub open spec fn following(pivot: Seq<char>) -> spec_fn(Word) -> bool {
    |w: Word| word_lt(pivot, w@)
}

/// The words of `words` that use none of `letters`, in their order.
pub open spec fn words_without(words: Seq<Word>, letters: Set<char>) -> Seq<Word> {
    words.filter(avoiding(letters))
}

/// The words of `words` that come strictly after `pivot`, in their order.
pub open spec fn words_following(words: Seq<Word>, pivot: Seq<char>) -> Seq<Word> {
    words.filter(following(pivot))
}

/// A word avoids `letters` exactly when none of its positions holds one of
/// them.
pub proof fn lemma_avoids_by_position(word: Seq<char>, letters: Set<char>)
    ensures
        avoids(word, letters) <==> forall|i: int|
            0 <= i < word.len() ==> !letters.contains(#[trigger] word[i]),
{
    if avoids(word, letters) {
        assert forall|i: int| 0 <= i < word.len() implies !letters.contains(
            #[trigger] word[i],
        ) by {
            assert(word.to_set().contains(word[i]));
        }
    }
}

/// A copy of `words`.
pub(crate) fn copy_of(words: &Vec<Word>) -> (r: Vec<Word>)
    ensures
        r@ == words@,
{
    let mut r: Vec<Word> = Vec::new();
    let mut k: usize = 0;
    while k < words.len()
        invariant
            k <= words@.len(),
            r@ == words@.take(k as int),
        decreases words@.len() - k,
    {
        r.push(words[k]);
        assert(words@.take(k + 1) =~= words@.take(k as int).push(words@[k as int]));
        k += 1;
    }
    assert(words@.take(k as int) =~= words@);
    r
}

/// Whether `word` uses a letter of `letters`.
pub fn word_contains(word: Word, letters: LetterSet) -> (b: bool)
    ensures
        b == !avoids(word@, letters@),
{
    let spelled = word.chars();
    proof {
        lemma_avoids_by_position(word@, letters@);
    }
    let mut k: usize = 0;
    while k < spelled.len()
        invariant
            k <= spelled@.len(),
            spelled@ == word@,
            forall|j: int| 0 <= j < k ==> !letters@.contains(#[trigger] spelled@[j]),
        decreases spelled@.len() - k,
    {
        if letters.contains(spelled[k]) {
            return true;
        }
        k += 1;
    }
    false
}

/// The words of `words` that use none of `letters`, in their order.
pub fn words_without_from(words: &[Word], letters: LetterSet) -> (r: Vec<Word>)
    ensures
        r@ == words_without(words@, letters@),
        forall|i: int| 0 <= i < r@.len() ==> (#[trigger] r@[i])@.to_set().disjoint(letters@),
{
    let mut r: Vec<Word> = Vec::new();
    let mut k: usize = 0;
    while k < words.len()
        invariant
            k <= words@.len(),
            r@ == words_without(words@.take(k as int), letters@),
        decreases words@.len() - k,
    {
        let word = words[k];
        proof {
            assert(words@.take(k + 1) =~= words@.take(k as int).push(word));
            words@.take(k as int).lemma_filter_push(word, avoiding(letters@));
        }
        if !word_contains(word, letters) {
            r.push(word);
        }
        k += 1;
    }
    proof {
        assert(words@.take(k as int) =~= words@);
        assert forall|i: int| 0 <= i < r@.len() implies (#[trigger] r@[i])@.to_set().disjoint(
            letters@,
        ) by {
            words@.lemma_filter_pred(avoiding(letters@), i);
        }
    }
    r
}

/// The words of `words` that come strictly after `pivot` in dictionary
/// order, in their order in `words`.
pub fn words_after(words: &[Word], pivot: Word) -> (r: Vec<Word>)
    ensures
        r@ == words_following(words@, pivot@),
        forall|i: int| 0 <= i < r@.len() ==> word_lt(pivot@, (#[trigger] r@[i])@),
{
    let mut r: Vec<Word> = Vec::new();
    let mut k: usize = 0;
    while k < words.len()
        invariant
            k <= words@.len(),
            r@ == words_following(words@.take(k as int), pivot@),
        decreases words@.len() - k,
    {
        let word = words[k];
        proof {
            assert(words@.take(k + 1) =~= words@.take(k as int).push(word));
            words@.take(k as int).lemma_filter_push(word, following(pivot@));
        }
        if pivot.less_than(&word) {
            r.push(word);
        }
        k += 1;
    }
    proof {
        assert(words@.take(k as int) =~= words@);
        assert forall|i: int| 0 <= i < r@.len() implies word_lt(pivot@, (#[trigger] r@[i])@) by {
            words@.lemma_filter_pred(following(pivot@), i);
        }
    }
    r
}

} // verus!
