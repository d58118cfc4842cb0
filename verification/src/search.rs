//! The search engine: a depth-first search, five levels deep, for words that
//! share no letter.

use crate::filter::{
    avoiding, avoids, copy_of, following, words_after, words_following, words_without,
    words_without_from,
};
use crate::letters::LetterSet;
use crate::solution::{
    disjoint_words, distinct_letters, drawn_from, five_disjoint, is_solution,
    lemma_disjoint_words_in_order, lemma_letters_used_count, lemma_letters_used_covers,
    letters_used, pairwise_disjoint, precedes, strictly_increasing,
};
use crate::word::{word_lt, Word};
use vstd::prelude::*;

verus! {

/// The candidates that remain when `w` is chosen from `candidates` with the
/// letters `used` already taken: those that share no letter with `used` or
/// with `w` and that come strictly after `w` in dictionary order.
pub open spec fn next_candidates(candidates: Seq<Word>, used: Set<char>, w: Word) -> Seq<Word> {
    words_following(words_without(candidates, used.union(w@.to_set())), w@)
}

/// What the search returns at the node (`chosen`, `candidates`, `used`) when
/// the candidates before position `i` have been tried without success.
///
/// A node with five chosen words is the solution. Otherwise each candidate
/// in turn is appended to `chosen` and the search goes on below it, among
/// [`next_candidates`]; the first success is the result, and there is none
/// when the candidates run out.
pub open spec fn first_solution_from(
    chosen: Seq<Word>,
    candidates: Seq<Word>,
    used: Set<char>,
    i: int,
) -> Option<Seq<Word>>
    decreases candidates.len(), candidates.len() - i,
{
    if chosen.len() == 5 {
        Some(chosen)
    } else if i < 0 || i >= candidates.len() {
        None
    } else {
        let w = candidates[i];
        proof {
            lemma_next_candidates_fewer(candidates, used, i);
        }
        match first_solution_from(
            chosen.push(w),
            next_candidates(candidates, used, w),
            used.union(w@.to_set()),
            0,
        ) {
            Some(solution) => Some(solution),
            None => first_solution_from(chosen, candidates, used, i + 1),
        }
    }
}

/// What the search returns at the node (`chosen`, `candidates`, `used`).
pub open spec fn first_solution(chosen: Seq<Word>, candidates: Seq<Word>, used: Set<char>) -> Option<
    Seq<Word>,
> {
    first_solution_from(chosen, candidates, used, 0)
}

/// A filter that rejects one of the items returns fewer items than it got.
proof fn lemma_filter_rejecting<A>(s: Seq<A>, pred: spec_fn(A) -> bool, i: int)
    requires
        0 <= i < s.len(),
        !pred(s[i]),
    ensures
        s.filter(pred).len() < s.len(),
    decreases s.len(),
{
    reveal(Seq::filter);
    let init = s.drop_last();
    init.lemma_filter_len(pred);
    if i < s.len() - 1 {
        assert(init[i] == s[i]);
        lemma_filter_rejecting(init, pred, i);
    }
}

/// Every choice leaves fewer candidates than there were: the chosen word
/// does not come after itself.
pub proof fn lemma_next_candidates_fewer(candidates: Seq<Word>, used: Set<char>, i: int)
    requires
        0 <= i < candidates.len(),
    ensures
        next_candidates(candidates, used, candidates[i]).len() < candidates.len(),
{
    let w = candidates[i];
    let taken = used.union(w@.to_set());
    let without = words_without(candidates, taken);
    candidates.lemma_filter_len(avoiding(taken));
    without.lemma_filter_len(following(w@));
    assert(!word_lt(w@, w@));
    if avoids(w@, taken) {
        candidates.lemma_filter_contains(avoiding(taken), i);
        let j = choose|j: int| 0 <= j < without.len() && without[j] == w;
        lemma_filter_rejecting(without, following(w@), j);
    } else {
        lemma_filter_rejecting(candidates, avoiding(taken), i);
    }
}

/// A node of the search tree: at most five words chosen so far, no two of
/// which share a letter, in strictly increasing order; `used` the letters
/// they use; and every candidate free of those letters and after every
/// chosen word.
pub open spec fn is_node(chosen: Seq<Word>, candidates: Seq<Word>, used: Set<char>) -> bool {
    &&& chosen.len() <= 5
    &&& pairwise_disjoint(chosen)
    &&& strictly_increasing(chosen)
    &&& used == letters_used(chosen)
    &&& forall|j: int| 0 <= j < candidates.len() ==> avoids((#[trigger] candidates[j])@, used)
    &&& forall|k: int, j: int|
        0 <= k < chosen.len() && 0 <= j < candidates.len() ==> #[trigger] precedes(
            chosen[k],
            candidates[j],
        )
}

/// Whether `rest` completes the node (`chosen`, `candidates`, `used`) to
/// five words: its words are candidates free of the letters `used`, share
/// no letter with each other and stand in strictly increasing order.
pub open spec fn is_completion(
    chosen: Seq<Word>,
    candidates: Seq<Word>,
    used: Set<char>,
    rest: Seq<Word>,
) -> bool {
    &&& chosen.len() + rest.len() == 5
    &&& pairwise_disjoint(rest)
    &&& strictly_increasing(rest)
    &&& drawn_from(rest, candidates)
    &&& forall|k: int| 0 <= k < rest.len() ==> avoids((#[trigger] rest[k])@, used)
}

/// The candidates that remain after `w` is chosen are exactly the
/// candidates that avoid the letters taken, those of `w` among them, and
/// that come after `w`.
pub proof fn lemma_next_candidates_member(
    candidates: Seq<Word>,
    used: Set<char>,
    w: Word,
    x: Word,
)
    ensures
        next_candidates(candidates, used, w).contains(x) <==> candidates.contains(x) && avoids(
            x@,
            used.union(w@.to_set()),
        ) && word_lt(w@, x@),
{
    let taken = used.union(w@.to_set());
    let without = words_without(candidates, taken);
    let next = next_candidates(candidates, used, w);
    if next.contains(x) {
        let j = choose|j: int| 0 <= j < next.len() && next[j] == x;
        without.lemma_filter_pred(following(w@), j);
        without.lemma_filter_contains_rev(following(w@), x);
        let m = choose|m: int| 0 <= m < without.len() && without[m] == x;
        candidates.lemma_filter_pred(avoiding(taken), m);
        candidates.lemma_filter_contains_rev(avoiding(taken), x);
    }
    if candidates.contains(x) && avoids(x@, taken) && word_lt(w@, x@) {
        let m = choose|m: int| 0 <= m < candidates.len() && candidates[m] == x;
        candidates.lemma_filter_contains(avoiding(taken), m);
        let j = choose|j: int| 0 <= j < without.len() && without[j] == x;
        without.lemma_filter_contains(following(w@), j);
    }
}

/// Choosing a candidate at a node leads to a node.
pub proof fn lemma_child_is_node(
    chosen: Seq<Word>,
    candidates: Seq<Word>,
    used: Set<char>,
    i: int,
)
    requires
        is_node(chosen, candidates, used),
        chosen.len() < 5,
        0 <= i < candidates.len(),
    ensures
        is_node(
            chosen.push(candidates[i]),
            next_candidates(candidates, used, candidates[i]),
            used.union(candidates[i]@.to_set()),
        ),
{
    let w = candidates[i];
    let longer = chosen.push(w);
    let next = next_candidates(candidates, used, w);
    let taken = used.union(w@.to_set());
    assert(avoids(w@, used));
    assert forall|k: int, l: int| 0 <= k < l < longer.len() implies #[trigger] disjoint_words(
        longer[k],
        longer[l],
    ) by {
        if l < chosen.len() {
            assert(disjoint_words(chosen[k], chosen[l]));
        } else {
            lemma_letters_used_covers(chosen, k);
        }
    }
    assert forall|k: int, l: int| 0 <= k < l < longer.len() implies #[trigger] precedes(
        longer[k],
        longer[l],
    ) by {
        if l < chosen.len() {
            assert(precedes(chosen[k], chosen[l]));
        } else {
            assert(precedes(chosen[k], candidates[i]));
        }
    }
    assert(longer.drop_last() =~= chosen);
    assert(taken == letters_used(longer));
    assert forall|j: int| 0 <= j < next.len() implies avoids((#[trigger] next[j])@, taken) by {
        lemma_next_candidates_member(candidates, used, w, next[j]);
    }
    assert forall|k: int, j: int| 0 <= k < longer.len() && 0 <= j < next.len() implies #[trigger] precedes(
        longer[k],
        next[j],
    ) by {
        lemma_next_candidates_member(candidates, used, w, next[j]);
        if k < chosen.len() {
            let m = choose|m: int| 0 <= m < candidates.len() && candidates[m] == next[j];
            assert(precedes(chosen[k], candidates[m]));
        }
    }
}

/// What the search finds at a node is a solution: five words, no two of
/// which share a letter, in strictly increasing dictionary order. It begins
/// with the words already chosen, and the others are candidates.
pub proof fn lemma_found_is_solution(
    chosen: Seq<Word>,
    candidates: Seq<Word>,
    used: Set<char>,
    i: int,
)
    requires
        is_node(chosen, candidates, used),
        0 <= i,
    ensures
        first_solution_from(chosen, candidates, used, i) matches Some(solution) ==> {
            &&& is_solution(solution)
            &&& solution.take(chosen.len() as int) == chosen
            &&& drawn_from(solution.skip(chosen.len() as int), candidates)
        },
    decreases candidates.len(), candidates.len() - i,
{
    if chosen.len() == 5 {
        assert(chosen.take(5) =~= chosen);
    } else if i < candidates.len() {
        let w = candidates[i];
        let next = next_candidates(candidates, used, w);
        let taken = used.union(w@.to_set());
        lemma_next_candidates_fewer(candidates, used, i);
        lemma_child_is_node(chosen, candidates, used, i);
        lemma_found_is_solution(chosen.push(w), next, taken, 0);
        lemma_found_is_solution(chosen, candidates, used, i + 1);
        if let Some(solution) = first_solution_from(chosen.push(w), next, taken, 0) {
            let n = chosen.len() as int;
            assert(solution.take(n) =~= solution.take(n + 1).take(n));
            assert(solution.take(n) =~= chosen);
            assert(solution[n] == chosen.push(w)[n]);
            let tail = solution.skip(n);
            let deeper = solution.skip(n + 1);
            assert forall|k: int| 0 <= k < tail.len() implies candidates.contains(
                #[trigger] tail[k],
            ) by {
                if k > 0 {
                    assert(tail[k] == deeper[k - 1]);
                    assert(next.contains(deeper[k - 1]));
                    lemma_next_candidates_member(candidates, used, w, tail[k]);
                }
            }
        }
    }
}

/// Where something completes a node the search finds a solution there: it
/// does so from position `i` on whenever the completion begins with a
/// candidate at or after that position.
pub proof fn lemma_completion_is_found(
    chosen: Seq<Word>,
    candidates: Seq<Word>,
    used: Set<char>,
    i: int,
    rest: Seq<Word>,
)
    requires
        0 <= i,
        is_completion(chosen, candidates, used, rest),
        rest.len() > 0 ==> exists|j: int| i <= j < candidates.len() && candidates[j] == rest[0],
    ensures
        first_solution_from(chosen, candidates, used, i) is Some,
    decreases candidates.len(), candidates.len() - i,
{
    if chosen.len() != 5 {
        let j = choose|j: int| i <= j < candidates.len() && candidates[j] == rest[0];
        let w = candidates[i];
        let next = next_candidates(candidates, used, w);
        let taken = used.union(w@.to_set());
        lemma_next_candidates_fewer(candidates, used, i);
        if rest[0] == w {
            let tail = rest.drop_first();
            assert forall|k: int, l: int| 0 <= k < l < tail.len() implies #[trigger] disjoint_words(
                tail[k],
                tail[l],
            ) by {
                assert(disjoint_words(rest[k + 1], rest[l + 1]));
            }
            assert forall|k: int, l: int| 0 <= k < l < tail.len() implies #[trigger] precedes(
                tail[k],
                tail[l],
            ) by {
                assert(precedes(rest[k + 1], rest[l + 1]));
            }
            assert forall|k: int| 0 <= k < tail.len() implies next.contains(#[trigger] tail[k])
                && avoids(tail[k]@, taken) by {
                assert(tail[k] == rest[k + 1]);
                assert(candidates.contains(rest[k + 1]));
                assert(avoids(rest[k + 1]@, used));
                assert(disjoint_words(rest[0], rest[k + 1]));
                assert(precedes(rest[0], rest[k + 1]));
                lemma_next_candidates_member(candidates, used, w, tail[k]);
            }
            if tail.len() > 0 {
                let m = choose|m: int| 0 <= m < next.len() && next[m] == tail[0];
                assert(0 <= m < next.len() && next[m] == tail[0]);
            }
            lemma_completion_is_found(chosen.push(w), next, taken, 0, tail);
        } else {
            assert(i + 1 <= j);
            lemma_completion_is_found(chosen, candidates, used, i + 1, rest);
        }
    }
}

/// Searches below the node (`words`, `available_words`, `avoid_letters`):
/// `words` holds the words chosen so far, `available_words` the candidates
/// for the next one, `avoid_letters` the letters already taken.
///
/// Returns the first solution that the depth-first search meets, and then
/// leaves it in `words` too; returns `None` when there is none, with `words`
/// as it was.
pub fn search(words: &mut Vec<Word>, available_words: &Vec<Word>, avoid_letters: LetterSet) -> (r:
    Option<Vec<Word>>)
    ensures
        match r {
            Some(solution) => first_solution(old(words)@, available_words@, avoid_letters@) == Some(
                solution@,
            ) && final(words)@ == solution@,
            None => first_solution(old(words)@, available_words@, avoid_letters@) is None
                && final(words)@ == old(words)@,
        },
    decreases available_words@.len(),
{
    if words.len() == 5 {
        return Some(copy_of(words));
    }
    let ghost chosen = words@;
    let mut i: usize = 0;
    while i < available_words.len()
        invariant
            i <= available_words@.len(),
            words@ == chosen,
            chosen == old(words)@,
            chosen.len() != 5,
            first_solution(chosen, available_words@, avoid_letters@) == first_solution_from(
                chosen,
                available_words@,
                avoid_letters@,
                i as int,
            ),
        decreases available_words@.len() - i,
    {
        let word = available_words[i];
        words.push(word);

        let letters = word.chars();
        let avoid_next = LetterSet::from_iter(letters.as_slice());
        let avoid = avoid_letters.add(avoid_next);

        let without = words_without_from(available_words.as_slice(), avoid);
        let next = words_after(without.as_slice(), word);
        proof {
            lemma_next_candidates_fewer(available_words@, avoid_letters@, i as int);
        }
        if let Some(solution) = search(words, &next, avoid) {
            return Some(solution);
        }
        words.pop();
        assert(words@ =~= chosen);
        i += 1;
    }
    None
}

/// Searches `dictionary` for five words that share no letter.
///
/// Returns the first solution that the depth-first search meets when it
/// starts with nothing chosen, every word of `dictionary` a candidate and no
/// letter taken.
///
/// What comes back is a solution made of words of `dictionary`; where every
/// word of `dictionary` spells five different letters, it uses twenty-five
/// letters. Nothing comes back only where no five words of `dictionary`,
/// in whatever order, are free of a shared letter.
pub fn solve(dictionary: &Vec<Word>) -> (r: Option<Vec<Word>>)
    ensures
        r matches Some(solution) ==> {
            &&& first_solution(Seq::empty(), dictionary@, Set::empty()) == Some(solution@)
            &&& is_solution(solution@)
            &&& drawn_from(solution@, dictionary@)
            &&& distinct_letters(dictionary@) ==> letters_used(solution@).len() == 25
        },
        r is None ==> {
            &&& first_solution(Seq::empty(), dictionary@, Set::empty()) is None
            &&& forall|five: Seq<Word>| #[trigger]
                five_disjoint(five) ==> !drawn_from(five, dictionary@)
        },
{
    let mut chosen: Vec<Word> = Vec::new();
    let r = search(&mut chosen, dictionary, LetterSet::default());
    proof {
        lemma_search_from_nothing(dictionary@);
    }
    r
}

/// The search over a whole dictionary, with nothing chosen and no letter
/// taken: what it finds is a solution made of words of the dictionary, of
/// twenty-five letters where every word of the dictionary spells five
/// different ones; and it finds one wherever five words of the dictionary,
/// in whatever order, share no letter.
pub proof fn lemma_search_from_nothing(dictionary: Seq<Word>)
    ensures
        first_solution(Seq::empty(), dictionary, Set::empty()) matches Some(solution) ==> {
            &&& is_solution(solution)
            &&& drawn_from(solution, dictionary)
            &&& distinct_letters(dictionary) ==> letters_used(solution).len() == 25
        },
        first_solution(Seq::empty(), dictionary, Set::empty()) is None ==> forall|
            five: Seq<Word>,
        | #[trigger] five_disjoint(five) ==> !drawn_from(five, dictionary),
{
    let nothing = Seq::<Word>::empty();
    let no_letter = Set::<char>::empty();
    assert(is_node(nothing, dictionary, no_letter));
    lemma_found_is_solution(nothing, dictionary, no_letter, 0);
    if let Some(solution) = first_solution(nothing, dictionary, no_letter) {
        assert(solution.skip(0) =~= solution);
        if distinct_letters(dictionary) {
            assert forall|k: int| 0 <= k < solution.len() implies (#[trigger] solution[k])@.len()
                == 5 && solution[k]@.no_duplicates() by {
                let m = choose|m: int| 0 <= m < dictionary.len() && dictionary[m] == solution[k];
                assert(dictionary[m]@.len() == 5);
            }
            lemma_letters_used_count(solution);
        }
    } else {
        assert forall|five: Seq<Word>| #[trigger] five_disjoint(five) implies !drawn_from(
            five,
            dictionary,
        ) by {
            if drawn_from(five, dictionary) {
                let words = lemma_disjoint_words_in_order(five);
                assert forall|k: int| 0 <= k < words.len() implies dictionary.contains(
                    #[trigger] words[k],
                ) by {
                    let m = choose|m: int| 0 <= m < five.len() && five[m] == words[k];
                    assert(dictionary.contains(five[m]));
                }
                assert(dictionary.contains(words[0]));
                let j = choose|j: int| 0 <= j < dictionary.len() && dictionary[j] == words[0];
                assert(0 <= j < dictionary.len() && dictionary[j] == words[0]);
                lemma_completion_is_found(nothing, dictionary, no_letter, 0, words);
            }
        }
    }
}

} // verus!
