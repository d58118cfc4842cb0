use five_words::{words_without_from, FilterCache, LetterSet, Word};

fn set_of(letters: &str) -> LetterSet {
    let letters: Vec<char> = letters.chars().collect();
    LetterSet::from_iter(&letters)
}

fn list(spellings: &[&str]) -> Vec<Word> {
    spellings.iter().map(|s| Word::new(s)).collect()
}

fn texts(words: &[Word]) -> Vec<String> {
    words.iter().map(|w| w.to_text()).collect()
}

#[test]
fn cache_filters_its_list() {
    let mut cache = FilterCache::new(list(&["fjord", "abcde", "vibex", "nymph", "waltz"]));
    assert_eq!(texts(&cache.words_without(set_of("ab"))), ["fjord", "nymph"]);
    assert_eq!(texts(&cache.words_without(set_of("xyz"))), ["fjord", "abcde"]);
}

#[test]
fn cache_gives_a_known_answer_again() {
    let mut cache = FilterCache::new(list(&["fjord", "abcde", "vibex", "nymph", "waltz"]));
    let first = cache.words_without(set_of("ab"));
    let other = cache.words_without(set_of("n"));
    let again = cache.words_without(set_of("ba"));
    assert_eq!(first, again);
    assert_eq!(texts(&again), ["fjord", "nymph"]);
    assert_eq!(texts(&other), ["fjord", "abcde", "vibex", "waltz"]);
}

#[test]
fn cache_agrees_with_the_plain_filter() {
    let lists: [&[&str]; 4] = [
        &[],
        &["fjord"],
        &["fjord", "abcde", "vibex", "nymph", "waltz", "gucks", "crane", "sloth", "fjord"],
        &["abcde", "fghij", "klmno", "pqrst", "uvwxy", "zabcd"],
    ];
    let letter_sets =
        ["", "a", "e", "z", "ab", "xyz", "fjord", "aeiou", "abcdefghijklmnopqrstuvwxyz", "a", "xyz"];
    for spellings in lists {
        let words = list(spellings);
        let mut cache = FilterCache::new(words.clone());
        for round in 0..2 {
            for letters in letter_sets {
                let avoid = set_of(letters);
                assert_eq!(
                    cache.words_without(avoid),
                    words_without_from(&words, avoid),
                    "round {}, letters {:?}",
                    round,
                    letters
                );
            }
        }
    }
}

#[test]
fn cache_tells_letter_sets_apart() {
    let mut cache = FilterCache::new(list(&["abcde", "bcdef", "cdefg"]));
    assert_eq!(texts(&cache.words_without(set_of("a"))), ["bcdef", "cdefg"]);
    assert_eq!(texts(&cache.words_without(set_of("b"))), ["cdefg"]);
    assert_eq!(texts(&cache.words_without(set_of("g"))), ["abcde", "bcdef"]);
    assert_eq!(texts(&cache.words_without(set_of("ag"))), ["bcdef"]);
    assert_eq!(texts(&cache.words_without(set_of(""))), ["abcde", "bcdef", "cdefg"]);
    assert_eq!(texts(&cache.words_without(set_of("a"))), ["bcdef", "cdefg"]);
}

#[test]
fn cached_search_finds_what_the_plain_search_finds() {
    let dictionaries: [&[&str]; 6] = [
        &[],
        &["abcde", "fghij", "klmno", "pqrst"],
        &["abcde", "fghij", "klmno", "pqrst", "uvwxy"],
        &["uvwxy", "pqrst", "klmno", "fghij", "abcde"],
        &["abcdf", "abcde", "fghiz", "fghij", "klmno", "pqrst", "uvwxy", "zabcd"],
        &["abcde", "efghi", "jklme", "nopqe", "rstue", "vwxye", "zebra"],
    ];
    for spellings in dictionaries {
        let dictionary = list(spellings);
        assert_eq!(five_words::solve_cached(&dictionary), five_words::solve(&dictionary));
    }
}

#[test]
fn cached_search_finds_five_disjoint_words() {
    let lines = [
        "fjord", "gucks", "nymph", "vibex", "waltz", "crane", "sloth", "abcde", "quick", "brown",
        "jumpy", "vexed", "glyph", "dwarf", "stock",
    ];
    let dictionary = five_words::words(&lines).unwrap();
    let solution = five_words::solve_cached(&dictionary).unwrap();
    assert_eq!(texts(&solution), ["fjord", "gucks", "nymph", "vibex", "waltz"]);
}
