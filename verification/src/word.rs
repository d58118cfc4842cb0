//! Five-letter lowercase words and their order.

use crate::letters::is_letter;
use crate::trusted::{collect_string, collect_vec};
use vstd::prelude::*;

verus! {

/// Whether `s` spells a word: exactly five characters, each a lowercase
/// letter.
pub open spec fn is_word(s: Seq<char>) -> bool {
    s.len() == 5 && forall|i: int| 0 <= i < s.len() ==> is_letter(#[trigger] s[i])
}

/// Dictionary order on spellings of one length: at the first place where
/// `a` and `b` differ, `a` has the smaller letter.
pub open spec fn word_lt(a: Seq<char>, b: Seq<char>) -> bool {
    exists|k: int|
        #![trigger a[k]]
        0 <= k < a.len() && k < b.len() && a[k] < b[k] && forall|j: int|
            0 <= j < k ==> a[j] == b[j]
}

/// Why a string is not a word.
#[derive(Clone, Copy, Debug, PartialEq, Eq, Structural)]
pub enum WordError {
    /// The string does not have exactly five characters.
    WrongLength,
    /// The string has five characters, one of them no lowercase letter.
    NotLowercase,
}

/// A word of exactly five lowercase letters.
#[derive(Clone, Copy, Debug, Hash, PartialEq, Eq, PartialOrd, Ord)]
pub struct Word {
    word: [u8; 5],
}

impl View for Word {
    type V = Seq<char>;

    closed spec fn view(&self) -> Seq<char> {
        Seq::new(5, |i: int| self.word[i] as char)
    }
}

impl Word {
    /// Every word spells five lowercase letters.
    #[verifier::type_invariant]
    pub open spec fn inv(self) -> bool {
        is_word(self@)
    }

    /// The word spelled by `letters`.
    fn build(letters: &Vec<char>) -> (w: Word)
        requires
            is_word(letters@),
        ensures
            w@ == letters@,
    {
        let mut word = [0u8; 5];
        let mut k: usize = 0;
        while k < 5
            invariant
                k <= 5,
                is_word(letters@),
                forall|j: int| 0 <= j < k ==> word[j] as char == letters@[j],
            decreases 5 - k,
        {
            let letter = letters[k];
            assert(is_letter(letters@[k as int]));
            word[k] = letter as u8;
            k += 1;
        }
        proof {
            let spelled = Seq::new(5, |i: int| word[i] as char);
            assert(spelled =~= letters@);
        }
        let w = Word { word };
        assert(w@ =~= letters@);
        w
    }

    /// The word spelled by `c`, which must spell one.
    pub fn new(c: &str) -> (w: Word)
        requires
            is_word(c@),
        ensures
            w@ == c@,
    {
        let letters = collect_vec(c);
        Word::build(&letters)
    }

    /// The word spelled by `c`, or the reason why `c` spells none.
    pub fn parse(c: &str) -> (r: Result<Word, WordError>)
        ensures
            match r {
                Ok(w) => is_word(c@) && w@ == c@,
                Err(WordError::WrongLength) => c@.len() != 5,
                Err(WordError::NotLowercase) => c@.len() == 5 && !is_word(c@),
            },
    {
        let letters = collect_vec(c);
        if letters.len() != 5 {
            return Err(WordError::WrongLength);
        }
        let mut k: usize = 0;
        while k < 5
            invariant
                k <= 5,
                letters@ == c@,
                letters@.len() == 5,
                forall|j: int| 0 <= j < k ==> is_letter(#[trigger] letters@[j]),
            decreases 5 - k,
        {
            let letter = letters[k];
            if !('a' <= letter && letter <= 'z') {
                assert(!is_letter(letters@[k as int]));
                return Err(WordError::NotLowercase);
            }
            k += 1;
        }
        Ok(Word::build(&letters))
    }

    /// The letters of the word, first to last.
    pub fn chars(&self) -> (r: Vec<char>)
        ensures
            r@ == self@,
            is_word(r@),
    {
        proof {
            use_type_invariant(self);
        }
        let mut r: Vec<char> = Vec::new();
        let mut k: usize = 0;
        while k < 5
            invariant
                k <= 5,
                r@.len() == k,
                forall|j: int| 0 <= j < k ==> r@[j] == self@[j],
            decreases 5 - k,
        {
            r.push(self.word[k] as char);
            k += 1;
        }
        assert(r@ =~= self@);
        r
    }

    /// The word as a string of its five letters.
    pub fn to_text(&self) -> (s: String)
        ensures
            s@ == self@,
    {
        let letters = self.chars();
        collect_string(&letters)
    }

    /// Whether this word comes strictly before `other` in dictionary order.
    pub fn less_than(&self, other: &Word) -> (b: bool)
        ensures
            b == word_lt(self@, other@),
    {
        let mut k: usize = 0;
        while k < 5
            invariant
                k <= 5,
                forall|j: int| 0 <= j < k ==> self@[j] == other@[j],
            decreases 5 - k,
        {
            if self.word[k] < other.word[k] {
                assert(self@[k as int] < other@[k as int]);
                return true;
            }
            if self.word[k] > other.word[k] {
                assert(self@[k as int] > other@[k as int]);
                return false;
            }
            assert(self@[k as int] == other@[k as int]);
            k += 1;
        }
        false
    }
}

/// Every word spells five characters.
pub proof fn lemma_word_has_five_letters(w: Word)
    ensures
        w@.len() == 5,
{
}

/// The spelling tells the word: two words spelled alike are the same word.
pub proof fn lemma_spelling_determines_word(a: Word, b: Word)
    requires
        a@ == b@,
    ensures
        a == b,
{
    assert forall|i: int| 0 <= i < 5 implies a.word[i] == b.word[i] by {
        assert(a@[i] == b@[i]);
        assert(a@[i] as int == a.word[i] as int);
        assert(b@[i] as int == b.word[i] as int);
    }
    assert(a.word =~= b.word);
}

/// No spelling comes before itself.
pub proof fn lemma_word_lt_irreflexive(a: Seq<char>)
    ensures
        !word_lt(a, a),
{
}

/// Dictionary order is transitive.
pub proof fn lemma_word_lt_transitive(a: Seq<char>, b: Seq<char>, c: Seq<char>)
    requires
        word_lt(a, b),
        word_lt(b, c),
    ensures
        word_lt(a, c),
{
    let k1 = choose|k: int|
        #![trigger a[k]]
        0 <= k < a.len() && k < b.len() && a[k] < b[k] && forall|j: int|
            0 <= j < k ==> a[j] == b[j];
    let k2 = choose|k: int|
        #![trigger b[k]]
        0 <= k < b.len() && k < c.len() && b[k] < c[k] && forall|j: int|
            0 <= j < k ==> b[j] == c[j];
    let k = if k1 <= k2 {
        k1
    } else {
        k2
    };
    assert(0 <= k < a.len() && k < c.len() && a[k] < c[k] && forall|j: int|
        0 <= j < k ==> a[j] == c[j]);
}

/// Two spellings of one length that agree before position `n` and are not
/// the same are in order one way or the other.
proof fn lemma_word_lt_total_from(a: Seq<char>, b: Seq<char>, n: int)
    requires
        a.len() == b.len(),
        0 <= n <= a.len(),
        forall|j: int| 0 <= j < n ==> a[j] == b[j],
        a != b,
    ensures
        word_lt(a, b) || word_lt(b, a),
    decreases a.len() - n,
{
    if n == a.len() {
        assert(a =~= b);
    } else if a[n] < b[n] {
        assert(0 <= n < a.len() && n < b.len() && a[n] < b[n] && forall|j: int|
            0 <= j < n ==> a[j] == b[j]);
    } else if b[n] < a[n] {
        assert(0 <= n < b.len() && n < a.len() && b[n] < a[n] && forall|j: int|
            0 <= j < n ==> b[j] == a[j]);
    } else {
        lemma_word_lt_total_from(a, b, n + 1);
    }
}

/// Dictionary order is total on spellings of one length: of two different
/// ones, one comes before the other.
pub proof fn lemma_word_lt_total(a: Seq<char>, b: Seq<char>)
    requires
        a.len() == b.len(),
        a != b,
    ensures
        word_lt(a, b) || word_lt(b, a),
{
    lemma_word_lt_total_from(a, b, 0);
}

} // verus!
