use five_words::{normalize, rank, words, DictionaryError, Word, WordError};

fn texts(words: &[Word]) -> Vec<String> {
    words.iter().map(|w| w.to_text()).collect()
}

fn list(spellings: &[&str]) -> Vec<Word> {
    spellings.iter().map(|s| Word::new(s)).collect()
}

#[test]
fn normalize_keeps_lines_in_order() {
    let dictionary = normalize(&["fjord", "abcde", "nymph"]).unwrap();
    assert_eq!(texts(&dictionary), ["fjord", "abcde", "nymph"]);
}

#[test]
fn normalize_passes_over_a_repeated_letter() {
    let dictionary = normalize(&["aabbc", "fjord", "hello", "zzzzz"]).unwrap();
    assert_eq!(texts(&dictionary), ["fjord"]);
}

#[test]
fn normalize_keeps_the_first_of_each_letter_set() {
    let dictionary = normalize(&["abcde", "fjord", "edcba", "dfjor", "bacde", "nymph"]).unwrap();
    assert_eq!(texts(&dictionary), ["abcde", "fjord", "nymph"]);
}

#[test]
fn normalize_keeps_the_first_even_when_it_is_not_sorted() {
    let dictionary = normalize(&["edcba", "abcde"]).unwrap();
    assert_eq!(texts(&dictionary), ["edcba"]);
}

#[test]
fn normalize_keeps_words_that_share_only_some_letters() {
    let dictionary = normalize(&["abcde", "abcdf", "bcdef"]).unwrap();
    assert_eq!(texts(&dictionary), ["abcde", "abcdf", "bcdef"]);
}

#[test]
fn normalize_of_nothing_is_empty() {
    assert_eq!(normalize(&[]), Ok(vec![]));
}

#[test]
fn normalize_reports_a_wrong_length() {
    assert_eq!(
        normalize(&["abcde", "xyz", "fjord"]),
        Err(DictionaryError { line: 1, reason: WordError::WrongLength })
    );
    assert_eq!(
        normalize(&["abcdef"]),
        Err(DictionaryError { line: 0, reason: WordError::WrongLength })
    );
}

#[test]
fn normalize_reports_an_empty_line() {
    assert_eq!(
        normalize(&["abcde", "", "fjord"]),
        Err(DictionaryError { line: 1, reason: WordError::WrongLength })
    );
}

#[test]
fn normalize_reports_what_is_no_lowercase_letter() {
    assert_eq!(
        normalize(&["abcde", "fjord", "Nymph"]),
        Err(DictionaryError { line: 2, reason: WordError::NotLowercase })
    );
    assert_eq!(
        normalize(&["abc-e"]),
        Err(DictionaryError { line: 0, reason: WordError::NotLowercase })
    );
}

#[test]
fn normalize_reports_the_first_malformed_line() {
    assert_eq!(
        normalize(&["abcde", "aab", "ABCDE", "xyz"]),
        Err(DictionaryError { line: 2, reason: WordError::NotLowercase })
    );
}

#[test]
fn normalize_passes_over_a_repeated_character_whatever_else_is_wrong() {
    // A character stands twice in each of these, so none is looked at further.
    assert_eq!(normalize(&["aa", "AbcdA", "abcdefa", "fjord"]), Ok(list(&["fjord"])));
}

#[test]
fn rank_puts_rare_letters_first() {
    // a, b, c and d occur in two words, every other letter in one:
    // abcde and abcdf weigh 2+2+2+2+1 = 9, ghijk weighs 5.
    let ranked = rank(&list(&["abcde", "abcdf", "ghijk"]));
    assert_eq!(texts(&ranked), ["ghijk", "abcde", "abcdf"]);
}

#[test]
fn rank_keeps_the_order_of_equal_weights() {
    let ranked = rank(&list(&["uvwxy", "pqrst", "abcde", "klmno", "fghij"]));
    assert_eq!(texts(&ranked), ["uvwxy", "pqrst", "abcde", "klmno", "fghij"]);
}

#[test]
fn rank_orders_by_the_sum_of_letter_frequencies() {
    // Frequencies: a 4, b 3, c 2, d 2, e 2, f 2, g 1, h 1, i 1, j 1, k 1.
    // abcde 13, abfgh 11, abijk 10, acdef 12.
    let ranked = rank(&list(&["abcde", "abfgh", "abijk", "acdef"]));
    assert_eq!(texts(&ranked), ["abijk", "abfgh", "acdef", "abcde"]);
}

#[test]
fn rank_counts_a_word_once_for_a_letter_it_repeats() {
    // a occurs in two words, b in two, c in one, x in one:
    // aabbc weighs 2+2+2+2+1 = 9, abxxx weighs 2+2+1+1+1 = 7.
    let ranked = rank(&list(&["aabbc", "abxxx"]));
    assert_eq!(texts(&ranked), ["abxxx", "aabbc"]);
}

#[test]
fn rank_keeps_every_word() {
    let given = list(&["fjord", "abcde", "vibex", "nymph", "waltz", "gucks", "crane"]);
    let mut ranked = rank(&given);
    assert_eq!(ranked.len(), given.len());
    let mut sorted = given.clone();
    sorted.sort();
    ranked.sort();
    assert_eq!(ranked, sorted);
}

#[test]
fn rank_of_nothing_is_empty() {
    assert_eq!(rank(&vec![]), vec![]);
}

#[test]
fn words_normalizes_then_ranks() {
    let dictionary = words(&["abcde", "edcba", "abcdf", "aabbc", "ghijk"]).unwrap();
    assert_eq!(texts(&dictionary), ["ghijk", "abcde", "abcdf"]);
}

#[test]
fn words_reports_what_normalize_reports() {
    assert_eq!(
        words(&["abcde", "fjord", "nymp"]),
        Err(DictionaryError { line: 2, reason: WordError::WrongLength })
    );
}

#[test]
fn words_are_five_distinct_lowercase_letters() {
    let lines = ["fjord", "gucks", "nymph", "vibex", "waltz", "hello", "aabbc", "crane", "nacre"];
    let dictionary = words(&lines).unwrap();
    assert_eq!(dictionary.len(), 6);
    for word in &dictionary {
        let letters = word.chars();
        assert_eq!(letters.len(), 5);
        assert!(letters.iter().all(|c| ('a'..='z').contains(c)));
        for (i, c) in letters.iter().enumerate() {
            assert!(!letters[..i].contains(c));
        }
    }
}

#[test]
fn no_two_words_share_a_letter_set() {
    let lines = ["crane", "nacre", "caner", "fjord", "dfjor", "nymph", "crane"];
    let dictionary = words(&lines).unwrap();
    assert_eq!(dictionary.len(), 3);
    for (i, a) in dictionary.iter().enumerate() {
        for b in &dictionary[..i] {
            let mut x = a.chars();
            let mut y = b.chars();
            x.sort();
            y.sort();
            assert_ne!(x, y);
        }
    }
}
