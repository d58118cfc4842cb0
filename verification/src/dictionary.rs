//! The dictionary: raw lines made into words, one word for each set of
//! letters, the words of rare letters first.

use crate::ranking::{rank, ranked};
use crate::trusted::{all_unique, is_first_occurrence, sorted, unique_by};
use crate::word::{is_word, Word, WordError};
use vstd::prelude::*;
use vstd::relations::{sorted_by, total_ordering};
use vstd::seq_lib::{group_to_multiset_ensures, lemma_sorted_unique};

verus! {

/// The spelling of each word.
pub open spec fn spellings(words: Seq<Word>) -> Seq<Seq<char>> {
    words.map_values(|w: Word| w@)
}

/// The characters of each line.
pub open spec fn texts(lines: Seq<&str>) -> Seq<Seq<char>> {
    lines.map_values(|line: &str| line@)
}

/// A line is admitted when no character stands in it twice. Other lines
/// are passed over: a word that repeats a letter is of no use to the search.
pub open spec fn admitted(line: Seq<char>) -> bool {
    line.no_duplicates()
}

/// Whether `a` and `b` are made of the same letters.
pub open spec fn same_letters(a: Seq<char>, b: Seq<char>) -> bool {
    a.to_set() == b.to_set()
}

/// Whether line `i` stands for its set of letters: it is admitted, and no
/// admitted line before it is made of the same letters.
pub open spec fn is_representative(lines: Seq<Seq<char>>, i: int) -> bool {
    &&& admitted(lines[i])
    &&& forall|j: int|
        0 <= j < i && admitted(#[trigger] lines[j]) ==> !same_letters(lines[j], lines[i])
}

/// Whether line `i` is admitted and yet spells no word.
pub open spec fn is_malformed(lines: Seq<Seq<char>>, i: int) -> bool {
    admitted(lines[i]) && !is_word(lines[i])
}

/// The representatives among the first `n` lines, in their order.
pub open spec fn collapsed(lines: Seq<Seq<char>>, n: int) -> Seq<Seq<char>>
    decreases n,
{
    if n <= 0 {
        Seq::empty()
    } else if is_representative(lines, n - 1) {
        collapsed(lines, n - 1).push(lines[n - 1])
    } else {
        collapsed(lines, n - 1)
    }
}

/// A dictionary: every entry spells a word without a repeated letter, and
/// no two entries are made of the same letters.
pub open spec fn is_dictionary(entries: Seq<Seq<char>>) -> bool {
    &&& forall|k: int|
        0 <= k < entries.len() ==> is_word(#[trigger] entries[k]) && entries[k].no_duplicates()
    &&& forall|k: int, l: int|
        0 <= k < l < entries.len() ==> !same_letters(#[trigger] entries[k], #[trigger] entries[l])
}

/// A line that cannot be taken into the dictionary.
#[derive(Clone, Copy, Debug, PartialEq, Eq, Structural)]
pub struct DictionaryError {
    /// Position of the line, the first line being 0.
    pub line: usize,
    /// Why the line spells no word.
    pub reason: WordError,
}

/// Whether `key` holds the characters of `line` in ascending order.
pub open spec fn is_key_of(key: Seq<char>, line: Seq<char>) -> bool {
    &&& key.to_multiset() == line.to_multiset()
    &&& forall|i: int, j: int| 0 <= i <= j < key.len() ==> key[i] <= key[j]
}

/// Lines without a repeated character that are made of the same letters
/// hold the same characters, each once.
proof fn lemma_same_letters_same_multiset(a: Seq<char>, b: Seq<char>)
    requires
        a.no_duplicates(),
        b.no_duplicates(),
        same_letters(a, b),
    ensures
        a.to_multiset() == b.to_multiset(),
{
    broadcast use group_to_multiset_ensures;

    a.lemma_multiset_has_no_duplicates();
    b.lemma_multiset_has_no_duplicates();
    assert forall|c: char| a.to_multiset().count(c) == b.to_multiset().count(c) by {
        assert(a.to_set().contains(c) == b.to_set().contains(c));
        assert(a.contains(c) == b.contains(c));
        if a.contains(c) {
            assert(a.to_multiset().contains(c));
            assert(b.to_multiset().contains(c));
        }
    }
    assert(a.to_multiset() =~= b.to_multiset());
}

/// Two admitted lines have the same sorted key exactly when they are made
/// of the same letters.
proof fn lemma_keys_agree(a: Seq<char>, b: Seq<char>, key_a: Seq<char>, key_b: Seq<char>)
    requires
        a.no_duplicates(),
        b.no_duplicates(),
        is_key_of(key_a, a),
        is_key_of(key_b, b),
    ensures
        key_a == key_b <==> same_letters(a, b),
{
    broadcast use group_to_multiset_ensures;

    if key_a == key_b {
        assert forall|c: char| a.to_set().contains(c) == b.to_set().contains(c) by {
            assert(a.contains(c) == (a.to_multiset().count(c) > 0));
            assert(b.contains(c) == (b.to_multiset().count(c) > 0));
        }
        assert(a.to_set() =~= b.to_set());
    }
    if same_letters(a, b) {
        lemma_same_letters_same_multiset(a, b);
        let leq = |x: char, y: char| x <= y;
        assert(total_ordering(leq));
        assert(sorted_by(key_a, leq));
        assert(sorted_by(key_b, leq));
        lemma_sorted_unique(key_a, key_b, leq);
    }
}

/// An admitted line made of the letters of a word spells a word.
proof fn lemma_same_letters_word(a: Seq<char>, b: Seq<char>)
    requires
        a.no_duplicates(),
        b.no_duplicates(),
        same_letters(a, b),
        is_word(a),
    ensures
        is_word(b),
{
    a.unique_seq_to_set();
    b.unique_seq_to_set();
    assert forall|i: int| 0 <= i < b.len() implies crate::letters::is_letter(#[trigger] b[i]) by {
        assert(b.to_set().contains(b[i]));
        assert(a.contains(b[i]));
    }
}

/// Over a stretch of lines without a representative the collapsed
/// dictionary stays as it is, and where no line before the stretch is
/// malformed none in it is.
proof fn lemma_stretch_without_representative(lines: Seq<Seq<char>>, from: int, to: int)
    requires
        0 <= from <= to <= lines.len(),
        forall|i: int| from <= i < to ==> !is_representative(lines, i),
        forall|j: int| 0 <= j < from ==> !is_malformed(lines, j),
    ensures
        collapsed(lines, to) == collapsed(lines, from),
        forall|j: int| 0 <= j < to ==> !is_malformed(lines, j),
    decreases to - from,
{
    if from < to {
        lemma_stretch_without_representative(lines, from, to - 1);
        let last = to - 1;
        assert(!is_representative(lines, last));
        if admitted(lines[last]) {
            let j = choose|j: int|
                0 <= j < last && admitted(#[trigger] lines[j]) && same_letters(
                    lines[j],
                    lines[last],
                );
            assert(!is_malformed(lines, j));
            lemma_same_letters_word(lines[j], lines[last]);
        }
    }
}

/// Whether `entry` is one of the admitted lines among the first `n`.
pub open spec fn is_admitted_line(lines: Seq<Seq<char>>, n: int, entry: Seq<char>) -> bool {
    exists|i: int| 0 <= i < n && admitted(#[trigger] lines[i]) && lines[i] == entry
}

/// Where no line is malformed the representatives form a dictionary, and
/// each of them is one of the admitted lines.
pub proof fn lemma_collapsed_is_dictionary(lines: Seq<Seq<char>>, n: int)
    requires
        0 <= n <= lines.len(),
        forall|j: int| 0 <= j < n ==> !is_malformed(lines, j),
    ensures
        is_dictionary(collapsed(lines, n)),
        forall|k: int|
            0 <= k < collapsed(lines, n).len() ==> is_admitted_line(
                lines,
                n,
                #[trigger] collapsed(lines, n)[k],
            ),
    decreases n,
{
    if n > 0 {
        lemma_collapsed_is_dictionary(lines, n - 1);
        let before = collapsed(lines, n - 1);
        let entries = collapsed(lines, n);
        assert forall|k: int| 0 <= k < before.len() implies is_admitted_line(
            lines,
            n,
            #[trigger] before[k],
        ) by {
            assert(is_admitted_line(lines, n - 1, before[k]));
            let i = choose|i: int| 0 <= i < n - 1 && admitted(#[trigger] lines[i]) && lines[i] == before[k];
            assert(0 <= i < n && admitted(lines[i]) && lines[i] == before[k]);
        }
        if is_representative(lines, n - 1) {
            assert(!is_malformed(lines, n - 1));
            assert(admitted(lines[n - 1]));
            assert forall|k: int| 0 <= k < entries.len() implies is_admitted_line(
                lines,
                n,
                #[trigger] entries[k],
            ) by {
                if k < before.len() {
                    assert(entries[k] == before[k]);
                } else {
                    assert(entries[k] == lines[n - 1]);
                }
            }
            assert forall|k: int, l: int| 0 <= k < l < entries.len() implies !same_letters(
                #[trigger] entries[k],
                #[trigger] entries[l],
            ) by {
                if l < before.len() {
                    assert(!same_letters(before[k], before[l]));
                } else {
                    assert(is_admitted_line(lines, n - 1, before[k]));
                    let i = choose|i: int|
                        0 <= i < n - 1 && admitted(#[trigger] lines[i]) && lines[i] == before[k];
                    assert(!same_letters(lines[i], lines[n - 1]));
                }
            }
        }
    }
}

/// What the first pass over the lines gathers: for each admitted line, in
/// order, its position in `origin` and its sorted key in `keys`.
pub open spec fn gathered(
    lines: Seq<Seq<char>>,
    n: int,
    keys: Seq<Vec<char>>,
    origin: Seq<usize>,
) -> bool {
    &&& keys.len() == origin.len()
    &&& forall|k: int|
        0 <= k < origin.len() ==> {
            &&& (#[trigger] origin[k]) < n
            &&& admitted(lines[origin[k] as int])
            &&& is_key_of(keys[k]@, lines[origin[k] as int])
        }
    &&& forall|k: int, l: int|
        0 <= k < l < origin.len() ==> (#[trigger] origin[k]) < (#[trigger] origin[l])
    &&& forall|j: int|
        0 <= j < n && admitted(#[trigger] lines[j]) ==> exists|k: int|
            0 <= k < origin.len() && #[trigger] origin[k] == j
}

/// The positions that `firsts` picks out of `origin` are the
/// representatives, in ascending order.
proof fn lemma_firsts_are_representatives(
    lines: Seq<Seq<char>>,
    keys: Seq<Vec<char>>,
    origin: Seq<usize>,
    firsts: Seq<usize>,
)
    requires
        keys.len() <= usize::MAX,
        gathered(lines, lines.len() as int, keys, origin),
        forall|k: int|
            0 <= k < firsts.len() ==> firsts[k] < keys.len() && is_first_occurrence(
                keys,
                #[trigger] firsts[k] as int,
            ),
        forall|k: int, l: int| 0 <= k < l < firsts.len() ==> firsts[k] < firsts[l],
        forall|i: int|
            0 <= i < keys.len() && #[trigger] is_first_occurrence(keys, i) ==> firsts.contains(
                i as usize,
            ),
    ensures
        forall|k: int|
            0 <= k < firsts.len() ==> is_representative(
                lines,
                origin[#[trigger] firsts[k] as int] as int,
            ),
        forall|i: int|
            0 <= i < lines.len() && #[trigger] is_representative(lines, i) ==> exists|k: int|
                0 <= k < firsts.len() && origin[#[trigger] firsts[k] as int] == i,
{
    assert forall|k: int| 0 <= k < firsts.len() implies is_representative(
        lines,
        origin[#[trigger] firsts[k] as int] as int,
    ) by {
        let m = firsts[k] as int;
        let i = origin[m] as int;
        assert forall|j: int| 0 <= j < i && admitted(#[trigger] lines[j]) implies !same_letters(
            lines[j],
            lines[i],
        ) by {
            let m0 = choose|m0: int| 0 <= m0 < origin.len() && #[trigger] origin[m0] == j;
            assert(m0 < m) by {
                if m0 > m {
                    assert(origin[m] < origin[m0]);
                }
            }
            assert(keys[m0]@ != keys[m]@);
            lemma_keys_agree(lines[j], lines[i], keys[m0]@, keys[m]@);
        }
    }
    assert forall|i: int| 0 <= i < lines.len() && #[trigger] is_representative(
        lines,
        i,
    ) implies exists|k: int| 0 <= k < firsts.len() && origin[#[trigger] firsts[k] as int] == i by {
        let m = choose|m: int| 0 <= m < origin.len() && #[trigger] origin[m] == i;
        assert forall|m0: int| 0 <= m0 < m implies keys[m0]@ != keys[m]@ by {
            let j = origin[m0] as int;
            assert(origin[m0] < origin[m]);
            assert(admitted(lines[j]));
            lemma_keys_agree(lines[j], lines[i], keys[m0]@, keys[m]@);
        }
        assert(is_first_occurrence(keys, m));
        assert(firsts.contains(m as usize));
        let k = choose|k: int| 0 <= k < firsts.len() && firsts[k] == m as usize;
        assert(origin[firsts[k] as int] == i);
    }
}

/// Makes the lines into words, one for each set of letters.
///
/// A line in which a character stands twice is passed over. Of the others,
/// each must spell a word, five lowercase letters: the first that does not
/// is reported. From lines made of the same letters the first is kept. The
/// words come out in the order of their lines.
#[verifier::loop_isolation(false)]
pub fn normalize(lines: &[&str]) -> (r: Result<Vec<Word>, DictionaryError>)
    ensures
        match r {
            Ok(words) => {
                &&& forall|j: int| 0 <= j < lines@.len() ==> !is_malformed(texts(lines@), j)
                &&& spellings(words@) == collapsed(texts(lines@), lines@.len() as int)
                &&& is_dictionary(spellings(words@))
            },
            Err(e) => {
                &&& e.line < lines@.len()
                &&& is_malformed(texts(lines@), e.line as int)
                &&& forall|j: int| 0 <= j < e.line ==> !is_malformed(texts(lines@), j)
                &&& e.reason == WordError::WrongLength <==> lines@[e.line as int]@.len() != 5
            },
        },
{
    let ghost all = texts(lines@);
    let n = lines.len();
    let mut keys: Vec<Vec<char>> = Vec::new();
    let mut origin: Vec<usize> = Vec::new();
    let mut i: usize = 0;
    while i < n
        invariant
            i <= n,
            gathered(all, i as int, keys@, origin@),
        decreases n - i,
    {
        let line = lines[i];
        assert(all[i as int] == line@);
        if all_unique(line) {
            let key = sorted(line);
            let ghost before = origin@;
            keys.push(key);
            origin.push(i);
            assert forall|j: int| 0 <= j < i + 1 && admitted(#[trigger] all[j]) implies exists|
                k: int,
            | 0 <= k < origin@.len() && #[trigger] origin@[k] == j by {
                if j < i {
                    let k = choose|k: int| 0 <= k < before.len() && #[trigger] before[k] == j;
                    assert(origin@[k] == j);
                } else {
                    assert(origin@[origin@.len() - 1] == j);
                }
            }
        }
        i += 1;
    }
    let firsts = unique_by(&keys);
    proof {
        assert(keys@.len() == keys.len());
        lemma_firsts_are_representatives(all, keys@, origin@, firsts@);
    }
    let mut words: Vec<Word> = Vec::new();
    let ghost mut done: int = 0;
    let mut k: usize = 0;
    while k < firsts.len()
        invariant
            k <= firsts@.len(),
            0 <= done <= n,
            spellings(words@) == collapsed(all, done),
            forall|j: int| 0 <= j < done ==> !is_malformed(all, j),
            forall|l: int| 0 <= l < k ==> origin@[#[trigger] firsts@[l] as int] < done,
            forall|l: int| k <= l < firsts@.len() ==> origin@[#[trigger] firsts@[l] as int] >= done,
        decreases firsts@.len() - k,
    {
        let at = origin[firsts[k]];
        proof {
            assert forall|l: int| k < l < firsts@.len() implies origin@[#[trigger] firsts@[l] as int]
                > at by {
                assert(firsts@[k as int] < firsts@[l]);
            }
            assert forall|j: int| done <= j < at implies !is_representative(all, j) by {
                if is_representative(all, j) {
                    let l = choose|l: int|
                        0 <= l < firsts@.len() && origin@[#[trigger] firsts@[l] as int] == j;
                    assert(false);
                }
            }
            lemma_stretch_without_representative(all, done, at as int);
            assert(is_representative(all, at as int));
        }
        let line = lines[at];
        assert(all[at as int] == line@);
        match Word::parse(line) {
            Ok(word) => {
                proof {
                    assert(spellings(words@.push(word)) =~= spellings(words@).push(word@));
                    done = at + 1;
                }
                words.push(word);
            },
            Err(reason) => {
                return Err(DictionaryError { line: at, reason });
            },
        }
        k += 1;
    }
    proof {
        assert forall|j: int| done <= j < n implies !is_representative(all, j) by {
            if is_representative(all, j) {
                let l = choose|l: int|
                    0 <= l < firsts@.len() && origin@[#[trigger] firsts@[l] as int] == j;
                assert(false);
            }
        }
        lemma_stretch_without_representative(all, done, n as int);
        lemma_collapsed_is_dictionary(all, n as int);
    }
    Ok(words)
}

/// The dictionary made from `lines`: the lines made into words, one for
/// each set of letters, then ordered by weight, the words of rare letters
/// first.
///
/// Fails as [`normalize`] does, on the first line without a repeated
/// character that spells no word.
pub fn words(lines: &[&str]) -> (r: Result<Vec<Word>, DictionaryError>)
    ensures
        match r {
            Ok(dictionary) => {
                &&& forall|j: int| 0 <= j < lines@.len() ==> !is_malformed(texts(lines@), j)
                &&& spellings(dictionary@) == ranked(
                    collapsed(texts(lines@), lines@.len() as int),
                )
                &&& is_dictionary(spellings(dictionary@))
            },
            Err(e) => {
                &&& e.line < lines@.len()
                &&& is_malformed(texts(lines@), e.line as int)
                &&& forall|j: int| 0 <= j < e.line ==> !is_malformed(texts(lines@), j)
                &&& e.reason == WordError::WrongLength <==> lines@[e.line as int]@.len() != 5
            },
        },
{
    match normalize(lines) {
        Ok(unranked) => Ok(rank(&unranked)),
        Err(e) => Err(e),
    }
}

} // verus!
