use five_words::{word_contains, words_after, words_without_from, LetterSet, Word};

fn set_of(letters: &str) -> LetterSet {
    let letters: Vec<char> = letters.chars().collect();
    LetterSet::from_iter(&letters)
}

fn list(spellings: &[&str]) -> Vec<Word> {
    spellings.iter().map(|s| Word::new(s)).collect()
}

fn texts(words: &[Word]) -> Vec<String> {
    words.iter().map(|w| w.to_text()).collect()
}

#[test]
fn word_contains_finds_a_shared_letter() {
    let word = Word::new("crane");
    assert!(word_contains(word, set_of("e")));
    assert!(word_contains(word, set_of("c")));
    assert!(word_contains(word, set_of("xyzn")));
    assert!(word_contains(word, set_of("crane")));
}

#[test]
fn word_contains_is_false_without_a_shared_letter() {
    let word = Word::new("crane");
    assert!(!word_contains(word, LetterSet::default()));
    assert!(!word_contains(word, set_of("bdfghijklmopqstuvwxyz")));
}

#[test]
fn words_without_from_keeps_the_disjoint_words_in_order() {
    let words = list(&["fjord", "abcde", "vibex", "nymph", "waltz", "gucks"]);
    let kept = words_without_from(&words, set_of("ab"));
    assert_eq!(texts(&kept), ["fjord", "nymph", "gucks"]);
}

#[test]
fn words_without_from_returns_words_disjoint_from_the_letters() {
    let words = list(&["fjord", "abcde", "vibex", "nymph", "waltz", "gucks", "crane", "sloth"]);
    for letters in ["", "a", "e", "xyz", "fjord", "aeiou", "abcdefghijklmnopqrstuvwxyz"] {
        let avoid = set_of(letters);
        let kept = words_without_from(&words, avoid);
        for word in &kept {
            assert!(!word_contains(*word, avoid));
            assert!(word.chars().iter().all(|c| !letters.contains(*c)));
        }
        let expected: Vec<Word> =
            words.iter().copied().filter(|w| !word_contains(*w, avoid)).collect();
        assert_eq!(kept, expected);
    }
}

#[test]
fn words_without_from_with_no_letter_keeps_all() {
    let words = list(&["fjord", "abcde", "fjord"]);
    assert_eq!(words_without_from(&words, LetterSet::default()), words);
}

#[test]
fn words_without_from_on_nothing_is_nothing() {
    assert_eq!(words_without_from(&[], set_of("abc")), Vec::<Word>::new());
}

#[test]
fn words_without_from_drops_a_word_given_its_own_letters() {
    let words = list(&["fjord", "nymph"]);
    let kept = words_without_from(&words, set_of("fjord"));
    assert_eq!(texts(&kept), ["nymph"]);
}

#[test]
fn words_after_keeps_the_later_words_in_order() {
    let words = list(&["waltz", "abcde", "nymph", "fjord", "gucks", "nymph"]);
    let kept = words_after(&words, Word::new("fjord"));
    assert_eq!(texts(&kept), ["waltz", "nymph", "gucks", "nymph"]);
}

#[test]
fn words_after_drops_the_pivot_itself() {
    let words = list(&["fjord", "fjord"]);
    assert_eq!(words_after(&words, Word::new("fjord")), Vec::<Word>::new());
}
