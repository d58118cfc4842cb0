use five_words::{LetterSet, Word, WordError};

fn set_of(letters: &str) -> LetterSet {
    let letters: Vec<char> = letters.chars().collect();
    LetterSet::from_iter(&letters)
}

#[test]
fn default_letter_set_is_empty() {
    let empty = LetterSet::default();
    for c in 'a'..='z' {
        assert!(!empty.contains(c));
    }
    assert_eq!(empty, set_of(""));
}

#[test]
fn from_iter_holds_exactly_the_letters_given() {
    let set = set_of("hello");
    for c in 'a'..='z' {
        assert_eq!(set.contains(c), "hello".contains(c), "letter {}", c);
    }
}

#[test]
fn from_iter_reaches_both_ends_of_the_alphabet() {
    let set = set_of("az");
    assert!(set.contains('a'));
    assert!(set.contains('z'));
    assert!(!set.contains('b'));
    assert!(!set.contains('y'));
}

#[test]
fn contains_is_false_outside_the_alphabet() {
    let all = set_of("abcdefghijklmnopqrstuvwxyz");
    for c in ['A', 'Z', '`', '{', '0', ' ', '\n', 'é', '\u{10FFFF}'] {
        assert!(!all.contains(c), "character {:?}", c);
    }
    for c in 'a'..='z' {
        assert!(all.contains(c));
    }
}

#[test]
fn add_is_union() {
    let left = set_of("abc");
    let right = set_of("cde");
    let both = left.add(right);
    for c in 'a'..='z' {
        assert_eq!(both.contains(c), "abcde".contains(c), "letter {}", c);
    }
    assert_eq!(both, set_of("abcde"));
}

#[test]
fn add_with_empty_changes_nothing() {
    let set = set_of("qwert");
    assert_eq!(set.add(LetterSet::default()), set);
    assert_eq!(LetterSet::default().add(set), set);
}

#[test]
fn add_is_commutative_and_idempotent() {
    let left = set_of("abcxy");
    let right = set_of("xyzab");
    assert_eq!(left.add(right), right.add(left));
    assert_eq!(left.add(left), left);
}

#[test]
fn sets_with_the_same_members_are_equal() {
    assert_eq!(set_of("ab"), set_of("baa"));
    assert_ne!(set_of("ab"), set_of("abc"));
}

#[test]
fn new_keeps_the_spelling() {
    let word = Word::new("fjord");
    assert_eq!(word.chars(), vec!['f', 'j', 'o', 'r', 'd']);
    assert_eq!(word.to_text(), "fjord");
}

#[test]
fn new_accepts_a_word_with_a_repeated_letter() {
    let word = Word::new("aabbc");
    assert_eq!(word.to_text(), "aabbc");
}

#[test]
fn parse_accepts_what_new_builds() {
    assert_eq!(Word::parse("abcde"), Ok(Word::new("abcde")));
    assert_eq!(Word::parse("zzzzz"), Ok(Word::new("zzzzz")));
}

#[test]
fn parse_rejects_a_wrong_length() {
    assert_eq!(Word::parse(""), Err(WordError::WrongLength));
    assert_eq!(Word::parse("abcd"), Err(WordError::WrongLength));
    assert_eq!(Word::parse("abcdef"), Err(WordError::WrongLength));
    assert_eq!(Word::parse("ABCD"), Err(WordError::WrongLength));
}

#[test]
fn parse_rejects_what_is_no_lowercase_letter() {
    assert_eq!(Word::parse("abcdE"), Err(WordError::NotLowercase));
    assert_eq!(Word::parse("Abcde"), Err(WordError::NotLowercase));
    assert_eq!(Word::parse("abc1e"), Err(WordError::NotLowercase));
    assert_eq!(Word::parse("ab de"), Err(WordError::NotLowercase));
    assert_eq!(Word::parse("abcd`"), Err(WordError::NotLowercase));
    assert_eq!(Word::parse("abcd{"), Err(WordError::NotLowercase));
}

#[test]
fn parse_counts_characters_not_bytes() {
    // Five characters, seven bytes.
    assert_eq!(Word::parse("ábcdé"), Err(WordError::NotLowercase));
    // Four characters, five bytes.
    assert_eq!(Word::parse("ábcd"), Err(WordError::WrongLength));
}

#[test]
fn less_than_is_dictionary_order() {
    let abcde = Word::new("abcde");
    let abcdf = Word::new("abcdf");
    let bacde = Word::new("bacde");
    assert!(abcde.less_than(&abcdf));
    assert!(!abcdf.less_than(&abcde));
    assert!(abcdf.less_than(&bacde));
    assert!(abcde.less_than(&bacde));
    assert!(!bacde.less_than(&abcde));
    assert!(!abcde.less_than(&abcde));
}

#[test]
fn less_than_agrees_with_the_derived_order() {
    let spellings = ["abcde", "abcdf", "zyxwv", "fghij", "aaaaa", "zzzzz", "azaza", "zazaz"];
    for a in spellings {
        for b in spellings {
            let (x, y) = (Word::new(a), Word::new(b));
            assert_eq!(x.less_than(&y), x < y, "{} < {}", a, b);
            assert_eq!(x.less_than(&y), a < b, "{} < {}", a, b);
            assert_eq!(x == y, a == b);
        }
    }
}
