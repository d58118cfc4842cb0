use five_words::{search, solve, words, LetterSet, Word};

fn list(spellings: &[&str]) -> Vec<Word> {
    spellings.iter().map(|s| Word::new(s)).collect()
}

fn texts(words: &[Word]) -> Vec<String> {
    words.iter().map(|w| w.to_text()).collect()
}

fn set_of(letters: &str) -> LetterSet {
    let letters: Vec<char> = letters.chars().collect();
    LetterSet::from_iter(&letters)
}

fn assert_is_solution(solution: &[Word]) {
    assert_eq!(solution.len(), 5);
    let mut seen = Vec::new();
    for word in solution {
        for c in word.chars() {
            assert!(!seen.contains(&c), "letter {} twice", c);
            seen.push(c);
        }
    }
    assert_eq!(seen.len(), 25);
    for pair in solution.windows(2) {
        assert!(pair[0].less_than(&pair[1]));
        assert!(pair[0] < pair[1]);
    }
}

#[test]
fn five_disjoint_words_are_found() {
    let lines = ["abcde", "fghij", "klmno", "pqrst", "uvwxy", "edcba", "aabbc"];
    let dictionary = words(&lines).unwrap();
    assert_eq!(texts(&dictionary), ["abcde", "fghij", "klmno", "pqrst", "uvwxy"]);
    let solution = solve(&dictionary).unwrap();
    assert_eq!(texts(&solution), ["abcde", "fghij", "klmno", "pqrst", "uvwxy"]);
    assert_is_solution(&solution);
}

#[test]
fn no_solution_when_every_word_shares_a_letter() {
    let lines = ["abcde", "efghi", "jklme", "nopqe", "rstue", "vwxye", "zebra"];
    let dictionary = words(&lines).unwrap();
    assert_eq!(dictionary.len(), 7);
    assert_eq!(solve(&dictionary), None);
}

#[test]
fn no_solution_among_four_words() {
    assert_eq!(solve(&list(&["abcde", "fghij", "klmno", "pqrst"])), None);
}

#[test]
fn no_solution_in_an_empty_dictionary() {
    assert_eq!(solve(&vec![]), None);
}

#[test]
fn the_solution_comes_out_in_dictionary_order() {
    let dictionary = list(&["uvwxy", "pqrst", "klmno", "fghij", "abcde"]);
    let solution = solve(&dictionary).unwrap();
    assert_eq!(texts(&solution), ["abcde", "fghij", "klmno", "pqrst", "uvwxy"]);
}

#[test]
fn the_first_solution_in_search_order_is_returned() {
    // Two solutions: one with fghij, one with fghiz. The dictionary lists
    // fghiz first, and abcde, with which both begin, is tried with it first.
    let dictionary = list(&["abcde", "fghiz", "fghij", "klmno", "pqrst", "uvwxy"]);
    let solution = solve(&dictionary).unwrap();
    assert_eq!(texts(&solution), ["abcde", "fghiz", "klmno", "pqrst", "uvwxy"]);
    let dictionary = list(&["abcde", "fghij", "fghiz", "klmno", "pqrst", "uvwxy"]);
    let solution = solve(&dictionary).unwrap();
    assert_eq!(texts(&solution), ["abcde", "fghij", "klmno", "pqrst", "uvwxy"]);
}

#[test]
fn the_search_backtracks() {
    // abcdf is tried first and shuts out fghij, which leaves three words to
    // go with it; the search has to give it up for abcde.
    let dictionary = list(&["abcdf", "abcde", "fghij", "klmno", "pqrst", "uvwxy"]);
    let solution = solve(&dictionary).unwrap();
    assert_is_solution(&solution);
    assert_eq!(texts(&solution), ["abcde", "fghij", "klmno", "pqrst", "uvwxy"]);
}

#[test]
fn searching_twice_gives_the_same() {
    let lines = [
        "fjord", "gucks", "nymph", "vibex", "waltz", "crane", "sloth", "abcde", "quick", "brown",
        "jumpy", "vexed", "glyph", "dwarf", "stock",
    ];
    let dictionary = words(&lines).unwrap();
    let first = solve(&dictionary);
    let second = solve(&dictionary);
    assert_eq!(first, second);
    let solution = first.unwrap();
    assert_is_solution(&solution);
    assert_eq!(texts(&solution), ["fjord", "gucks", "nymph", "vibex", "waltz"]);
}

#[test]
fn search_leaves_the_solution_in_the_chosen_words() {
    let dictionary = list(&["abcde", "fghij", "klmno", "pqrst", "uvwxy"]);
    let mut chosen = Vec::new();
    let found = search(&mut chosen, &dictionary, LetterSet::default()).unwrap();
    assert_eq!(texts(&found), ["abcde", "fghij", "klmno", "pqrst", "uvwxy"]);
    assert_eq!(chosen, found);
}

#[test]
fn search_restores_the_chosen_words_on_failure() {
    let dictionary = list(&["fghij", "klmno", "pqrst"]);
    let mut chosen = list(&["abcde"]);
    let found = search(&mut chosen, &dictionary, set_of("abcde"));
    assert_eq!(found, None);
    assert_eq!(chosen, list(&["abcde"]));
}

#[test]
fn search_goes_on_from_a_partial_solution() {
    let candidates = list(&["klmno", "pqrst", "uvwxy", "klmnz"]);
    let mut chosen = list(&["abcde", "fghij"]);
    let found = search(&mut chosen, &candidates, set_of("abcdefghij")).unwrap();
    assert_eq!(texts(&found), ["abcde", "fghij", "klmno", "pqrst", "uvwxy"]);
}

#[test]
fn search_returns_five_chosen_words_as_they_are() {
    let mut chosen = list(&["abcde", "fghij", "klmno", "pqrst", "uvwxy"]);
    let found = search(&mut chosen, &vec![], set_of("abcdefghijklmnopqrstuvwxy"));
    assert_eq!(found, Some(chosen.clone()));
}

#[test]
fn search_finds_nothing_below_more_than_five_words() {
    let mut chosen = list(&["abcde", "fghij", "klmno", "pqrst", "uvwxy", "zabcd"]);
    let before = chosen.clone();
    let candidates = list(&["fjord", "nymph"]);
    assert_eq!(search(&mut chosen, &candidates, LetterSet::default()), None);
    assert_eq!(chosen, before);
}

#[test]
fn search_tries_the_candidates_as_they_are_given() {
    // The first candidate is taken whatever letters are to be avoided: only
    // the candidates below it are filtered.
    let candidates = list(&["klmno", "pqrst", "uvwxy"]);
    let mut chosen = list(&["abcde", "fghij"]);
    let found = search(&mut chosen, &candidates, set_of("k")).unwrap();
    assert_eq!(texts(&found), ["abcde", "fghij", "klmno", "pqrst", "uvwxy"]);
}

#[test]
fn absence_means_no_five_disjoint_words_in_any_order() {
    // Every five of these six words share a letter somewhere.
    let spellings = ["abcde", "fghij", "klmno", "pqrsa", "uvwxa", "yzbcd"];
    let dictionary = list(&spellings);
    assert_eq!(solve(&dictionary), None);
    for skipped in 0..spellings.len() {
        let five: Vec<&str> =
            spellings.iter().enumerate().filter(|(i, _)| *i != skipped).map(|(_, s)| *s).collect();
        let mut letters: Vec<char> = five.iter().flat_map(|s| s.chars()).collect();
        letters.sort();
        letters.dedup();
        assert!(letters.len() < 25);
    }
}
