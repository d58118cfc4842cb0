//! The frequency ranker: words made of rare letters come first.

use crate::dictionary::{is_dictionary, same_letters, spellings};
use crate::letters::{is_letter, letter_at, letter_index, LetterSet};
use crate::word::{is_word, Word};
use vstd::prelude::*;
use vstd::seq_lib::group_to_multiset_ensures;

verus! {

/// The test that an entry holds the letter `c`.
pub open spec fn holding(c: char) -> spec_fn(Seq<char>) -> bool {
    |entry: Seq<char>| entry.contains(c)
}

/// In how many of `entries` the letter `c` occurs.
pub open spec fn letter_frequency(entries: Seq<Seq<char>>, c: char) -> nat {
    entries.filter(holding(c)).len()
}

/// The weight of `entry` among `entries`: the frequencies of its letters,
/// added up.
pub open spec fn weight(entries: Seq<Seq<char>>, entry: Seq<char>) -> nat
    decreases entry.len(),
{
    if entry.len() == 0 {
        0
    } else {
        weight(entries, entry.drop_last()) + letter_frequency(entries, entry.last())
    }
}

/// Where `entry` goes into `ranked`: behind the last entry that weighs no
/// more than it does.
pub open spec fn rank_position(
    ranked: Seq<Seq<char>>,
    entries: Seq<Seq<char>>,
    entry: Seq<char>,
) -> int
    decreases ranked.len(),
{
    if ranked.len() == 0 {
        0
    } else if weight(entries, ranked.last()) <= weight(entries, entry) {
        ranked.len() as int
    } else {
        rank_position(ranked.drop_last(), entries, entry)
    }
}

/// The first `n` of `entries` in ascending order of their weight among all
/// of `entries`; entries of one weight stay in their order.
pub open spec fn ranked_prefix(entries: Seq<Seq<char>>, n: int) -> Seq<Seq<char>>
    decreases n,
{
    if n <= 0 {
        Seq::empty()
    } else {
        let before = ranked_prefix(entries, n - 1);
        before.insert(rank_position(before, entries, entries[n - 1]), entries[n - 1])
    }
}

/// `entries` in ascending order of weight; entries of one weight stay in
/// their order.
pub open spec fn ranked(entries: Seq<Seq<char>>) -> Seq<Seq<char>> {
    ranked_prefix(entries, entries.len() as int)
}

/// Whether `entry` is one of the first `n` of `entries`.
pub open spec fn is_early_entry(entries: Seq<Seq<char>>, n: int, entry: Seq<char>) -> bool {
    exists|m: int| 0 <= m < n && #[trigger] entries[m] == entry
}

/// Whether `x` stands somewhere in `words` and `y` somewhere behind it.
pub open spec fn comes_before(words: Seq<Word>, x: Word, y: Word) -> bool {
    exists|a: int, b: int|
        0 <= a < b < words.len() && #[trigger] words[a] == x && #[trigger] words[b] == y
}

/// Whether `frequencies` holds, letter by letter, the frequency of the
/// letter in `entries`.
pub open spec fn tallies(frequencies: Seq<usize>, entries: Seq<Seq<char>>) -> bool {
    &&& frequencies.len() == 26
    &&& forall|i: int|
        0 <= i < 26 ==> #[trigger] frequencies[i] == letter_frequency(entries, letter_at(i))
}

/// A dictionary stays one when an entry goes into it that is a word
/// without a repeated letter and differs in its letters from all that are
/// there.
proof fn lemma_insert_into_dictionary(ranked: Seq<Seq<char>>, at: int, entry: Seq<char>)
    requires
        is_dictionary(ranked),
        0 <= at <= ranked.len(),
        is_word(entry),
        entry.no_duplicates(),
        forall|k: int| 0 <= k < ranked.len() ==> !same_letters(#[trigger] ranked[k], entry),
    ensures
        is_dictionary(ranked.insert(at, entry)),
{
    let longer = ranked.insert(at, entry);
    ranked.insert_ensures(at, entry);
    assert forall|k: int| 0 <= k < longer.len() implies is_word(#[trigger] longer[k])
        && longer[k].no_duplicates() by {
        if k < at {
            assert(longer[k] == ranked[k]);
        } else if k > at {
            assert(longer[k - 1 + 1] == ranked[k - 1]);
        }
    }
    assert forall|k: int, l: int| 0 <= k < l < longer.len() implies !same_letters(
        #[trigger] longer[k],
        #[trigger] longer[l],
    ) by {
        let a = if k < at {
            k
        } else {
            k - 1
        };
        let b = if l < at {
            l
        } else {
            l - 1
        };
        if k != at {
            assert(longer[k] == ranked[a]) by {
                if k > at {
                    assert(longer[a + 1] == ranked[a]);
                }
            }
        }
        if l != at {
            assert(longer[l] == ranked[b]) by {
                if l > at {
                    assert(longer[b + 1] == ranked[b]);
                }
            }
        }
        if k != at && l != at {
            assert(!same_letters(ranked[a], ranked[b]));
        }
    }
}

/// For each letter the number of `words` in which it occurs.
fn letter_frequencies(words: &Vec<Word>) -> (r: [usize; 26])
    ensures
        tallies(r@, spellings(words@)),
{
    let mut r = [0usize; 26];
    let mut k: usize = 0;
    assert forall|i: int| 0 <= i < 26 implies #[trigger] r@[i] == letter_frequency(
        spellings(words@.take(0)),
        letter_at(i),
    ) by {
        assert(spellings(words@.take(0)) =~= Seq::<Seq<char>>::empty());
    }
    while k < words.len()
        invariant
            k <= words@.len(),
            tallies(r@, spellings(words@.take(k as int))),
        decreases words@.len() - k,
    {
        let word = words[k];
        let spelled = word.chars();
        let letters = LetterSet::from_iter(spelled.as_slice());
        let ghost before = spellings(words@.take(k as int));
        let ghost after = spellings(words@.take(k + 1));
        let ghost old_r = r@;
        assert(after =~= before.push(word@)) by {
            assert(words@.take(k + 1) =~= words@.take(k as int).push(word));
        }
        let mut i: u8 = 0;
        while i < 26
            invariant
                i <= 26,
                k < usize::MAX,
                r@.len() == 26,
                old_r.len() == 26,
                after == before.push(word@),
                before.len() == k,
                letters@ == word@.to_set(),
                forall|j: int| 0 <= j < i ==> #[trigger] r@[j] == letter_frequency(after, letter_at(j)),
                forall|j: int| i <= j < 26 ==> #[trigger] r@[j] == old_r[j],
                forall|j: int|
                    0 <= j < 26 ==> #[trigger] old_r[j] == letter_frequency(before, letter_at(j)),
            decreases 26 - i,
        {
            let c = (97u8 + i) as char;
            assert(c == letter_at(i as int));
            proof {
                before.lemma_filter_push(word@, holding(c));
                before.lemma_filter_len(holding(c));
                assert(r@[i as int] == old_r[i as int]);
            }
            if letters.contains(c) {
                r[i as usize] = r[i as usize] + 1;
            }
            i += 1;
        }
        k += 1;
    }
    assert(words@.take(k as int) =~= words@);
    r
}

/// The weight of `word` among `entries`, read off their tally.
fn weigh(word: Word, frequencies: &[usize; 26], Ghost(entries): Ghost<Seq<Seq<char>>>) -> (r: u128)
    requires
        tallies(frequencies@, entries),
    ensures
        r == weight(entries, word@),
{
    let spelled = word.chars();
    let mut total: u128 = 0;
    let mut j: usize = 0;
    while j < 5
        invariant
            j <= 5,
            spelled@ == word@,
            is_word(spelled@),
            tallies(frequencies@, entries),
            total == weight(entries, spelled@.take(j as int)),
            total <= j * 0xffff_ffff_ffff_ffff,
        decreases 5 - j,
    {
        let c = spelled[j];
        assert(is_letter(spelled@[j as int]));
        let i = (c as u32 - 'a' as u32) as usize;
        assert(c == letter_at(i as int));
        assert(spelled@.take(j + 1).drop_last() =~= spelled@.take(j as int));
        total = total + frequencies[i] as u128;
        j += 1;
    }
    assert(spelled@.take(5) =~= spelled@);
    total
}

/// Puts `word`, of weight `heavy`, in its place among the ranked words:
/// behind the last that weighs no more.
fn insert_ranked(
    out: &mut Vec<Word>,
    weights: &mut Vec<u128>,
    word: Word,
    heavy: u128,
    Ghost(entries): Ghost<Seq<Seq<char>>>,
) -> (at: Ghost<int>)
    requires
        old(out)@.len() == old(weights)@.len(),
        forall|j: int|
            0 <= j < old(out)@.len() ==> #[trigger] old(weights)@[j] == weight(
                entries,
                old(out)@[j]@,
            ),
        forall|a: int, b: int|
            0 <= a <= b < old(weights)@.len() ==> old(weights)@[a] <= old(weights)@[b],
        heavy == weight(entries, word@),
    ensures
        at@ == rank_position(spellings(old(out)@), entries, word@),
        0 <= at@ <= old(out)@.len(),
        final(out)@ == old(out)@.insert(at@, word),
        final(weights)@ == old(weights)@.insert(at@, heavy),
        forall|j: int| at@ <= j < old(weights)@.len() ==> old(weights)@[j] > heavy,
        forall|j: int|
            0 <= j < final(out)@.len() ==> #[trigger] final(weights)@[j] == weight(
                entries,
                final(out)@[j]@,
            ),
        forall|a: int, b: int|
            0 <= a <= b < final(weights)@.len() ==> final(weights)@[a] <= final(weights)@[b],
{
    let ghost ranked = spellings(out@);
    let mut at: usize = out.len();
    assert(ranked.take(at as int) =~= ranked);
    while at > 0 && weights[at - 1] > heavy
        invariant
            at <= out@.len(),
            out@.len() == weights@.len(),
            ranked == spellings(out@),
            heavy == weight(entries, word@),
            forall|j: int| 0 <= j < out@.len() ==> #[trigger] weights@[j] == weight(entries, out@[j]@),
            forall|j: int| at <= j < weights@.len() ==> weights@[j] > heavy,
            rank_position(ranked, entries, word@) == rank_position(
                ranked.take(at as int),
                entries,
                word@,
            ),
        decreases at,
    {
        assert(ranked.take(at as int).drop_last() =~= ranked.take(at - 1));
        assert(ranked.take(at as int).last() == out@[at - 1]@);
        at -= 1;
    }
    proof {
        if at > 0 {
            assert(ranked.take(at as int).last() == out@[at - 1]@);
        }
        out@.insert_ensures(at as int, word);
        weights@.insert_ensures(at as int, heavy);
    }
    let ghost old_out = out@;
    let ghost old_weights = weights@;
    out.insert(at, word);
    weights.insert(at, heavy);
    proof {
        assert forall|j: int| 0 <= j < out@.len() implies #[trigger] weights@[j] == weight(
            entries,
            out@[j]@,
        ) by {
            if j < at {
            } else if j > at {
                assert(out@[j - 1 + 1] == old_out[j - 1]);
                assert(weights@[j - 1 + 1] == old_weights[j - 1]);
            }
        }
        assert forall|a: int, b: int| 0 <= a <= b < weights@.len() implies weights@[a]
            <= weights@[b] by {
            let x = if a < at {
                a
            } else {
                a - 1
            };
            let y = if b < at {
                b
            } else {
                b - 1
            };
            if a > at {
                assert(weights@[x + 1] == old_weights[x]);
            }
            if b > at {
                assert(weights@[y + 1] == old_weights[y]);
            }
            if a != at && b != at {
                assert(old_weights[x] <= old_weights[y]);
            }
        }
    }
    Ghost(at as int)
}

/// Orders `words` by weight, lightest first: the weight of a word is the
/// sum, over its letters, of the number of `words` in which the letter
/// occurs. Words of one weight stay in their order.
pub fn rank(words: &Vec<Word>) -> (r: Vec<Word>)
    ensures
        spellings(r@) == ranked(spellings(words@)),
        r@.to_multiset() == words@.to_multiset(),
        forall|a: int, b: int|
            0 <= a <= b < r@.len() ==> weight(spellings(words@), r@[a]@) <= weight(
                spellings(words@),
                r@[b]@,
            ),
        forall|i: int, j: int|
            0 <= i < j < words@.len() && weight(spellings(words@), words@[i]@) <= weight(
                spellings(words@),
                words@[j]@,
            ) ==> #[trigger] comes_before(r@, words@[i], words@[j]),
        is_dictionary(spellings(words@)) ==> is_dictionary(spellings(r@)),
{
    broadcast use group_to_multiset_ensures;

    let ghost entries = spellings(words@);
    let frequencies = letter_frequencies(words);
    let mut out: Vec<Word> = Vec::new();
    let mut weights: Vec<u128> = Vec::new();
    let mut k: usize = 0;
    assert(words@.take(0) =~= Seq::<Word>::empty());
    while k < words.len()
        invariant
            k <= words@.len(),
            entries == spellings(words@),
            tallies(frequencies@, entries),
            out@.len() == k,
            weights@.len() == k,
            spellings(out@) == ranked_prefix(entries, k as int),
            out@.to_multiset() == words@.take(k as int).to_multiset(),
            forall|j: int| 0 <= j < k ==> #[trigger] weights@[j] == weight(entries, out@[j]@),
            forall|a: int, b: int| 0 <= a <= b < k ==> weights@[a] <= weights@[b],
            forall|j: int| 0 <= j < k ==> is_early_entry(entries, k as int, #[trigger] out@[j]@),
            forall|i: int| 0 <= i < k ==> out@.contains(#[trigger] words@[i]),
            forall|i: int, j: int|
                0 <= i < j < k && weight(entries, words@[i]@) <= weight(entries, words@[j]@)
                    ==> #[trigger] comes_before(out@, words@[i], words@[j]),
            is_dictionary(entries) ==> is_dictionary(spellings(out@)),
        decreases words@.len() - k,
    {
        let word = words[k];
        let heavy = weigh(word, &frequencies, Ghost(entries));
        let ghost old_out = out@;
        let ghost old_weights = weights@;
        let at = insert_ranked(&mut out, &mut weights, word, heavy, Ghost(entries));
        proof {
            old_out.insert_ensures(at@, word);
            assert forall|i: int| 0 <= i < k + 1 implies out@.contains(#[trigger] words@[i]) by {
                if i < k {
                    let a = choose|a: int| 0 <= a < old_out.len() && old_out[a] == words@[i];
                    if a < at@ {
                        assert(out@[a] == words@[i]);
                    } else {
                        assert(out@[a + 1] == words@[i]);
                    }
                } else {
                    assert(out@[at@] == words@[i]);
                }
            }
            assert forall|i: int, j: int|
                0 <= i < j < k + 1 && weight(entries, words@[i]@) <= weight(
                    entries,
                    words@[j]@,
                ) implies #[trigger] comes_before(out@, words@[i], words@[j]) by {
                if j < k {
                    assert(comes_before(old_out, words@[i], words@[j]));
                    let (a, b) = choose|a: int, b: int|
                        0 <= a < b < old_out.len() && #[trigger] old_out[a] == words@[i]
                            && #[trigger] old_out[b] == words@[j];
                    let a2 = if a < at@ {
                        a
                    } else {
                        a + 1
                    };
                    let b2 = if b < at@ {
                        b
                    } else {
                        b + 1
                    };
                    assert(out@[a2] == words@[i] && out@[b2] == words@[j]);
                } else {
                    assert(old_out.contains(words@[i]));
                    let a = choose|a: int| 0 <= a < old_out.len() && old_out[a] == words@[i];
                    assert(old_weights[a] == weight(entries, old_out[a]@));
                    assert(a < at@);
                    assert(out@[a] == words@[i] && out@[at@] == words@[j]);
                }
            }
            assert(entries[k as int] == word@);
            assert(spellings(out@) =~= spellings(old_out).insert(at@, word@));
            assert(words@.take(k + 1) =~= words@.take(k as int).push(word));
            vstd::seq_lib::to_multiset_insert(old_out, at@, word);
            vstd::seq_lib::to_multiset_build(words@.take(k as int), word);
            assert forall|j: int| 0 <= j < k + 1 implies is_early_entry(
                entries,
                k + 1,
                #[trigger] out@[j]@,
            ) by {
                if j == at@ {
                    assert(entries[k as int] == out@[j]@);
                } else {
                    let i = if j < at@ {
                        j
                    } else {
                        j - 1
                    };
                    assert(out@[j] == old_out[i]) by {
                        if j > at@ {
                            assert(out@[i + 1] == old_out[i]);
                        }
                    }
                    assert(is_early_entry(entries, k as int, old_out[i]@));
                    let m = choose|m: int| 0 <= m < k && #[trigger] entries[m] == old_out[i]@;
                    assert(entries[m] == out@[j]@);
                }
            }
            if is_dictionary(entries) {
                assert forall|j: int| 0 <= j < old_out.len() implies !same_letters(
                    #[trigger] spellings(old_out)[j],
                    word@,
                ) by {
                    assert(is_early_entry(entries, k as int, old_out[j]@));
                    let m = choose|m: int| 0 <= m < k && #[trigger] entries[m] == old_out[j]@;
                    assert(!same_letters(entries[m], entries[k as int]));
                }
                lemma_insert_into_dictionary(spellings(old_out), at@, word@);
            }
        }
        k += 1;
    }
    assert(words@.take(k as int) =~= words@);
    assert forall|a: int, b: int| 0 <= a <= b < out@.len() implies weight(entries, out@[a]@)
        <= weight(entries, out@[b]@) by {
        assert(weights@[a] <= weights@[b]);
    }
    out
}

} // verus!
