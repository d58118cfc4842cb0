//! What a solution is: five words, no letter twice, in dictionary order.

use crate::word::{
    lemma_word_has_five_letters, lemma_word_lt_total, lemma_word_lt_transitive, word_lt, Word,
};
use vstd::prelude::*;

verus! {

/// Whether `a` and `b` share no letter.
pub open spec fn disjoint_words(a: Word, b: Word) -> bool {
    a@.to_set().disjoint(b@.to_set())
}

/// Whether `a` comes strictly before `b` in dictionary order.
pub open spec fn precedes(a: Word, b: Word) -> bool {
    word_lt(a@, b@)
}

/// Whether no two of `words` share a letter.
pub open spec fn pairwise_disjoint(words: Seq<Word>) -> bool {
    forall|k: int, l: int|
        0 <= k < l < words.len() ==> #[trigger] disjoint_words(words[k], words[l])
}

/// Whether each of `words` comes strictly before all that follow it.
pub open spec fn strictly_increasing(words: Seq<Word>) -> bool {
    forall|k: int, l: int| 0 <= k < l < words.len() ==> #[trigger] precedes(words[k], words[l])
}

/// Whether each of `words` spells five letters, no letter twice.
pub open spec fn distinct_letters(words: Seq<Word>) -> bool {
    forall|k: int|
        0 <= k < words.len() ==> (#[trigger] words[k])@.len() == 5 && words[k]@.no_duplicates()
}

/// Whether every one of `words` occurs in `dictionary`.
pub open spec fn drawn_from(words: Seq<Word>, dictionary: Seq<Word>) -> bool {
    forall|k: int| 0 <= k < words.len() ==> dictionary.contains(#[trigger] words[k])
}

/// The letters that `words` use between them.
pub open spec fn letters_used(words: Seq<Word>) -> Set<char>
    decreases words.len(),
{
    if words.len() == 0 {
        Set::empty()
    } else {
        letters_used(words.drop_last()).union(words.last()@.to_set())
    }
}

/// Five words, no two of which share a letter, in any order.
pub open spec fn five_disjoint(words: Seq<Word>) -> bool {
    words.len() == 5 && pairwise_disjoint(words)
}

/// A solution: five words, no two of which share a letter, in strictly
/// increasing dictionary order.
pub open spec fn is_solution(words: Seq<Word>) -> bool {
    &&& words.len() == 5
    &&& pairwise_disjoint(words)
    &&& strictly_increasing(words)
}

/// A letter is used by `words` exactly when one of them holds it.
pub proof fn lemma_letters_used_member(words: Seq<Word>, c: char)
    ensures
        letters_used(words).contains(c) <==> exists|k: int|
            0 <= k < words.len() && (#[trigger] words[k])@.contains(c),
    decreases words.len(),
{
    if words.len() > 0 {
        let init = words.drop_last();
        lemma_letters_used_member(init, c);
        if letters_used(words).contains(c) {
            if words.last()@.to_set().contains(c) {
                assert(words[words.len() - 1]@.contains(c));
            } else {
                let k = choose|k: int| 0 <= k < init.len() && (#[trigger] init[k])@.contains(c);
                assert(words[k]@.contains(c));
            }
        }
        if exists|k: int| 0 <= k < words.len() && (#[trigger] words[k])@.contains(c) {
            let k = choose|k: int| 0 <= k < words.len() && (#[trigger] words[k])@.contains(c);
            if k < init.len() {
                assert(init[k]@.contains(c));
            }
        }
    }
}

/// Every word's letters are among the letters used.
pub proof fn lemma_letters_used_covers(words: Seq<Word>, k: int)
    requires
        0 <= k < words.len(),
    ensures
        words[k]@.to_set().subset_of(letters_used(words)),
{
    assert forall|c: char| words[k]@.to_set().contains(c) implies letters_used(words).contains(
        c,
    ) by {
        lemma_letters_used_member(words, c);
    }
}

/// Words that share no letter and repeat none use five letters each: five
/// such words use twenty-five.
pub proof fn lemma_letters_used_count(words: Seq<Word>)
    requires
        pairwise_disjoint(words),
        distinct_letters(words),
    ensures
        letters_used(words).finite(),
        letters_used(words).len() == 5 * words.len(),
    decreases words.len(),
{
    if words.len() > 0 {
        let init = words.drop_last();
        let last = words.last();
        assert forall|k: int, l: int| 0 <= k < l < init.len() implies #[trigger] disjoint_words(
            init[k],
            init[l],
        ) by {
            assert(disjoint_words(words[k], words[l]));
        }
        assert forall|k: int| 0 <= k < init.len() implies (#[trigger] init[k])@.len() == 5
            && init[k]@.no_duplicates() by {
            assert(words[k]@.len() == 5);
        }
        lemma_letters_used_count(init);
        assert(last@.len() == 5 && last@.no_duplicates()) by {
            assert(words[words.len() - 1]@.len() == 5);
        }
        last@.unique_seq_to_set();
        vstd::seq_lib::seq_to_set_is_finite(last@);
        assert(letters_used(init).disjoint(last@.to_set())) by {
            assert forall|c: char|
                !(letters_used(init).contains(c) && last@.to_set().contains(c)) by {
                lemma_letters_used_member(init, c);
                if letters_used(init).contains(c) && last@.to_set().contains(c) {
                    let k = choose|k: int| 0 <= k < init.len() && (#[trigger] init[k])@.contains(c);
                    assert(disjoint_words(words[k], words[words.len() - 1]));
                    assert(words[k]@.to_set().contains(c));
                }
            }
        }
        vstd::set_lib::lemma_set_disjoint_lens(letters_used(init), last@.to_set());
    }
}

/// Words that share no letter are spelled differently.
pub proof fn lemma_disjoint_words_differ(a: Word, b: Word)
    requires
        disjoint_words(a, b),
    ensures
        a@ != b@,
{
    lemma_word_has_five_letters(a);
    assert(a@.to_set().contains(a@[0]));
}

/// The place of `w` among words in strictly increasing order, none of
/// which is spelled as `w` is: the words before it precede `w`, the words
/// from it on follow `w`.
proof fn lemma_place_in_order(ordered: Seq<Word>, w: Word) -> (at: int)
    requires
        strictly_increasing(ordered),
        forall|j: int| 0 <= j < ordered.len() ==> (#[trigger] ordered[j])@ != w@,
    ensures
        0 <= at <= ordered.len(),
        forall|j: int| 0 <= j < at ==> precedes(#[trigger] ordered[j], w),
        forall|j: int| at <= j < ordered.len() ==> precedes(w, #[trigger] ordered[j]),
    decreases ordered.len(),
{
    if ordered.len() == 0 {
        0
    } else {
        let last = ordered.last();
        if precedes(last, w) {
            assert forall|j: int| 0 <= j < ordered.len() implies precedes(
                #[trigger] ordered[j],
                w,
            ) by {
                if j < ordered.len() - 1 {
                    assert(precedes(ordered[j], ordered[ordered.len() - 1]));
                    lemma_word_lt_transitive(ordered[j]@, last@, w@);
                }
            }
            ordered.len() as int
        } else {
            lemma_word_has_five_letters(last);
            lemma_word_has_five_letters(w);
            assert(ordered[ordered.len() - 1]@ != w@);
            lemma_word_lt_total(last@, w@);
            let init = ordered.drop_last();
            assert forall|k: int, l: int| 0 <= k < l < init.len() implies #[trigger] precedes(
                init[k],
                init[l],
            ) by {
                assert(precedes(ordered[k], ordered[l]));
            }
            assert forall|j: int| 0 <= j < init.len() implies (#[trigger] init[j])@ != w@ by {
                assert(ordered[j]@ != w@);
            }
            let at = lemma_place_in_order(init, w);
            assert forall|j: int| 0 <= j < at implies precedes(#[trigger] ordered[j], w) by {
                assert(precedes(init[j], w));
            }
            assert forall|j: int| at <= j < ordered.len() implies precedes(
                w,
                #[trigger] ordered[j],
            ) by {
                if j < init.len() {
                    assert(precedes(w, init[j]));
                }
            }
            at
        }
    }
}

/// Words that share no letter can be put in strictly increasing dictionary
/// order: the result holds words of `words`, as many, and is in order.
pub proof fn lemma_disjoint_words_in_order(words: Seq<Word>) -> (ordered: Seq<Word>)
    requires
        pairwise_disjoint(words),
    ensures
        ordered.len() == words.len(),
        pairwise_disjoint(ordered),
        strictly_increasing(ordered),
        drawn_from(ordered, words),
    decreases words.len(),
{
    if words.len() == 0 {
        words
    } else {
        let init = words.drop_last();
        let last = words.last();
        assert forall|k: int, l: int| 0 <= k < l < init.len() implies #[trigger] disjoint_words(
            init[k],
            init[l],
        ) by {
            assert(disjoint_words(words[k], words[l]));
        }
        let before = lemma_disjoint_words_in_order(init);
        assert forall|j: int| 0 <= j < before.len() implies disjoint_words(
            #[trigger] before[j],
            last,
        ) && before[j]@ != last@ && words.contains(before[j]) by {
            assert(init.contains(before[j]));
            let m = choose|m: int| 0 <= m < init.len() && init[m] == before[j];
            assert(words[m] == before[j]);
            assert(disjoint_words(words[m], words[words.len() - 1]));
            lemma_disjoint_words_differ(before[j], last);
        }
        let at = lemma_place_in_order(before, last);
        let ordered = before.insert(at, last);
        before.insert_ensures(at, last);
        assert forall|k: int| 0 <= k < ordered.len() implies words.contains(
            #[trigger] ordered[k],
        ) by {
            if k < at {
                assert(ordered[k] == before[k]);
            } else if k == at {
                assert(words[words.len() - 1] == last);
            } else {
                assert(ordered[k - 1 + 1] == before[k - 1]);
            }
        }
        assert forall|k: int, l: int| 0 <= k < l < ordered.len() implies #[trigger] disjoint_words(
            ordered[k],
            ordered[l],
        ) && #[trigger] precedes(ordered[k], ordered[l]) by {
            let a = if k < at {
                k
            } else {
                k - 1
            };
            let b = if l < at {
                l
            } else {
                l - 1
            };
            if k != at {
                assert(ordered[k] == before[a]) by {
                    if k > at {
                        assert(ordered[a + 1] == before[a]);
                    }
                }
            }
            if l != at {
                assert(ordered[l] == before[b]) by {
                    if l > at {
                        assert(ordered[b + 1] == before[b]);
                    }
                }
            }
            if k != at && l != at {
                assert(disjoint_words(before[a], before[b]));
                assert(precedes(before[a], before[b]));
            } else if k == at {
                assert(disjoint_words(before[b], last));
                assert(precedes(last, before[b]));
            } else {
                assert(disjoint_words(before[a], last));
                assert(precedes(before[a], last));
            }
        }
        ordered
    }
}

} // verus!
