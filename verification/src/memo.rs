//! A candidate filter that remembers its answers.

use crate::filter::{
    avoiding, avoids, copy_of, following, words_after, words_following, words_without,
    words_without_from,
};
use crate::letters::{members, LetterSet};
use crate::search::{
    first_solution, first_solution_from, lemma_next_candidates_fewer, lemma_search_from_nothing,
    next_candidates,
};
use crate::solution::{distinct_letters, drawn_from, five_disjoint, is_solution, letters_used};
use crate::word::{lemma_word_lt_transitive, word_lt, Word};
use std::collections::HashMap;
use vstd::prelude::*;

verus! {

/// A list of words together with the answers that the candidate filter has
/// given on it so far, by set of letters. An answer, once known, is handed
/// out again without another pass over the list.
pub struct FilterCache {
    words: Vec<Word>,
    known: HashMap<u32, Vec<Word>>,
}

impl FilterCache {
    /// The list that the cache filters.
    pub closed spec fn words(&self) -> Seq<Word> {
        self.words@
    }

    /// Every answer kept is what the filter gives for its set of letters.
    pub closed spec fn wf(&self) -> bool {
        forall|bits: u32| #[trigger]
            self.known@.contains_key(bits) ==> self.known@[bits]@ == words_without(
                self.words@,
                members(bits),
            )
    }

    /// A cache over `words` with no answer known yet.
    pub fn new(words: Vec<Word>) -> (cache: Self)
        ensures
            cache.wf(),
            cache.words() == words@,
    {
        FilterCache { words, known: HashMap::new() }
    }

    /// The words of the list that use none of `letters`, in their order:
    /// what [`words_without_from`] returns on the list, whether or not the
    /// answer was known.
    pub fn words_without(&mut self, letters: LetterSet) -> (r: Vec<Word>)
        requires
            old(self).wf(),
        ensures
            final(self).wf(),
            r@ == words_without(old(self).words(), letters@),
            forall|i: int| 0 <= i < r@.len() ==> (#[trigger] r@[i])@.to_set().disjoint(letters@),
            final(self).words() == old(self).words(),
    {
        broadcast use vstd::std_specs::hash::group_hash_axioms;

        let key = letters.bits();
        let r = match self.known.get(&key) {
            Some(answer) => copy_of(answer),
            None => {
                let answer = words_without_from(self.words.as_slice(), letters);
                let r = copy_of(&answer);
                self.known.insert(key, answer);
                r
            },
        };
        proof {
            assert forall|i: int| 0 <= i < r@.len() implies (#[trigger] r@[i])@.to_set().disjoint(
                letters@,
            ) by {
                old(self).words().lemma_filter_pred(crate::filter::avoiding(letters@), i);
            }
        }
        r
    }
}

/// The test that both `p` and `q` hold.
pub open spec fn both<A>(p: spec_fn(A) -> bool, q: spec_fn(A) -> bool) -> spec_fn(A) -> bool {
    |x: A| p(x) && q(x)
}

/// Filtering twice is filtering once by both tests.
proof fn lemma_filter_twice<A>(s: Seq<A>, p: spec_fn(A) -> bool, q: spec_fn(A) -> bool)
    ensures
        s.filter(p).filter(q) == s.filter(both(p, q)),
    decreases s.len(),
{
    reveal(Seq::filter);
    if s.len() > 0 {
        let init = s.drop_last();
        let last = s.last();
        lemma_filter_twice(init, p, q);
        assert(init.push(last) =~= s);
        init.lemma_filter_push(last, p);
        init.lemma_filter_push(last, both(p, q));
        init.filter(p).lemma_filter_push(last, q);
    }
}

/// Two tests that agree on every item of a sequence filter it alike.
proof fn lemma_filter_alike<A>(s: Seq<A>, p: spec_fn(A) -> bool, q: spec_fn(A) -> bool)
    requires
        forall|i: int| 0 <= i < s.len() ==> p(#[trigger] s[i]) == q(s[i]),
    ensures
        s.filter(p) == s.filter(q),
    decreases s.len(),
{
    reveal(Seq::filter);
    if s.len() > 0 {
        let init = s.drop_last();
        assert forall|i: int| 0 <= i < init.len() implies p(#[trigger] init[i]) == q(init[i]) by {
            assert(init[i] == s[i]);
        }
        lemma_filter_alike(init, p, q);
        assert(p(s[s.len() - 1]) == q(s[s.len() - 1]));
    }
}

/// The candidates at a node of the search over `dictionary`: the words
/// that use none of the letters `used` and, where a word was chosen last,
/// come after it.
pub open spec fn candidates_at(dictionary: Seq<Word>, used: Set<char>, last: Option<Word>) -> Seq<
    Word,
> {
    match last {
        Some(w) => words_following(words_without(dictionary, used), w@),
        None => words_without(dictionary, used),
    }
}

/// The candidates that remain when one of the candidates at a node is
/// chosen are the candidates at the node below, taken from the whole
/// dictionary.
pub proof fn lemma_next_candidates_from_dictionary(
    dictionary: Seq<Word>,
    used: Set<char>,
    last: Option<Word>,
    w: Word,
)
    requires
        candidates_at(dictionary, used, last).contains(w),
    ensures
        next_candidates(candidates_at(dictionary, used, last), used, w) == candidates_at(
            dictionary,
            used.union(w@.to_set()),
            Some(w),
        ),
{
    let taken = used.union(w@.to_set());
    let a = avoiding(used);
    let a2 = avoiding(taken);
    let f = following(w@);
    lemma_filter_twice(dictionary, a2, f);
    assert forall|x: Word| #[trigger] avoids(x@, taken) implies avoids(x@, used) by {
        assert(x@.to_set().disjoint(used));
    }
    match last {
        Some(l) => {
            let fl = following(l@);
            let here = dictionary.filter(a).filter(fl);
            let i = choose|i: int| 0 <= i < here.len() && here[i] == w;
            dictionary.filter(a).lemma_filter_pred(fl, i);
            assert(word_lt(l@, w@));
            lemma_filter_twice(dictionary, a, fl);
            lemma_filter_twice(dictionary, both(a, fl), a2);
            lemma_filter_twice(dictionary, both(both(a, fl), a2), f);
            assert forall|i: int| 0 <= i < dictionary.len() implies both(both(both(a, fl), a2), f)(
                #[trigger] dictionary[i],
            ) == both(a2, f)(dictionary[i]) by {
                let x = dictionary[i];
                if word_lt(w@, x@) {
                    lemma_word_lt_transitive(l@, w@, x@);
                }
            }
            lemma_filter_alike(dictionary, both(both(both(a, fl), a2), f), both(a2, f));
        },
        None => {
            lemma_filter_twice(dictionary, a, a2);
            lemma_filter_twice(dictionary, both(a, a2), f);
            assert forall|i: int| 0 <= i < dictionary.len() implies both(both(a, a2), f)(
                #[trigger] dictionary[i],
            ) == both(a2, f)(dictionary[i]) by {}
            lemma_filter_alike(dictionary, both(both(a, a2), f), both(a2, f));
        },
    }
}

/// With no letter taken and no word chosen every word is a candidate.
pub proof fn lemma_candidates_at_the_root(dictionary: Seq<Word>)
    ensures
        candidates_at(dictionary, Set::empty(), None) == dictionary,
    decreases dictionary.len(),
{
    reveal(Seq::filter);
    if dictionary.len() > 0 {
        let init = dictionary.drop_last();
        lemma_candidates_at_the_root(init);
        assert(avoids(dictionary.last()@, Set::empty()));
        assert(init.push(dictionary.last()) =~= dictionary);
    }
}

/// The word chosen last: the last of `chosen`, if there is any.
pub open spec fn last_chosen(chosen: Seq<Word>) -> Option<Word> {
    if chosen.len() > 0 {
        Some(chosen.last())
    } else {
        None
    }
}

/// Searches below a node as [`crate::search::search`] does, with the
/// candidates below it taken from the answers that `cache` keeps for the
/// whole dictionary.
fn search_cached(
    words: &mut Vec<Word>,
    available_words: &Vec<Word>,
    avoid_letters: LetterSet,
    cache: &mut FilterCache,
) -> (r: Option<Vec<Word>>)
    requires
        old(cache).wf(),
        available_words@ == candidates_at(
            old(cache).words(),
            avoid_letters@,
            last_chosen(old(words)@),
        ),
    ensures
        final(cache).wf(),
        final(cache).words() == old(cache).words(),
        match r {
            Some(solution) => first_solution(old(words)@, available_words@, avoid_letters@) == Some(
                solution@,
            ) && final(words)@ == solution@,
            None => first_solution(old(words)@, available_words@, avoid_letters@) is None
                && final(words)@ == old(words)@,
        },
    decreases available_words@.len(),
{
    if words.len() == 5 {
        return Some(copy_of(words));
    }
    let ghost chosen = words@;
    let ghost dictionary = cache.words();
    let mut i: usize = 0;
    while i < available_words.len()
        invariant
            i <= available_words@.len(),
            words@ == chosen,
            chosen == old(words)@,
            chosen.len() != 5,
            cache.wf(),
            cache.words() == dictionary,
            dictionary == old(cache).words(),
            available_words@ == candidates_at(dictionary, avoid_letters@, last_chosen(chosen)),
            first_solution(chosen, available_words@, avoid_letters@) == first_solution_from(
                chosen,
                available_words@,
                avoid_letters@,
                i as int,
            ),
        decreases available_words@.len() - i,
    {
        let word = available_words[i];
        words.push(word);

        let letters = word.chars();
        let avoid_next = LetterSet::from_iter(letters.as_slice());
        let avoid = avoid_letters.add(avoid_next);

        let without = cache.words_without(avoid);
        let next = words_after(without.as_slice(), word);
        proof {
            assert(available_words@.contains(word));
            lemma_next_candidates_from_dictionary(
                dictionary,
                avoid_letters@,
                last_chosen(chosen),
                word,
            );
            lemma_next_candidates_fewer(available_words@, avoid_letters@, i as int);
            assert(last_chosen(words@) == Some(word));
        }
        if let Some(solution) = search_cached(words, &next, avoid, cache) {
            return Some(solution);
        }
        words.pop();
        assert(words@ =~= chosen);
        i += 1;
    }
    None
}

/// Searches `dictionary` for five words that share no letter, as
/// [`crate::search::solve`] does and with the same result, with the
/// candidate filter's answers remembered by set of letters: where the
/// search comes to the same letters by another way it takes the answer
/// known.
pub fn solve_cached(dictionary: &Vec<Word>) -> (r: Option<Vec<Word>>)
    ensures
        r matches Some(solution) ==> {
            &&& first_solution(Seq::empty(), dictionary@, Set::empty()) == Some(solution@)
            &&& is_solution(solution@)
            &&& drawn_from(solution@, dictionary@)
            &&& distinct_letters(dictionary@) ==> letters_used(solution@).len() == 25
        },
        r is None ==> {
            &&& first_solution(Seq::empty(), dictionary@, Set::empty()) is None
            &&& forall|five: Seq<Word>| #[trigger]
                five_disjoint(five) ==> !drawn_from(five, dictionary@)
        },
{
    let mut cache = FilterCache::new(copy_of(dictionary));
    let mut chosen: Vec<Word> = Vec::new();
    proof {
        lemma_candidates_at_the_root(dictionary@);
        lemma_search_from_nothing(dictionary@);
    }
    search_cached(&mut chosen, dictionary, LetterSet::default(), &mut cache)
}

} // verus!
