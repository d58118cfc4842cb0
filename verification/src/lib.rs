//! Search for five five-letter words that together use twenty-five distinct
//! letters.
//!
//! [`words`] makes a word list into a dictionary and [`solve`] searches the
//! dictionary: it returns five of its words that share no letter, in
//! dictionary order, or `None` where the dictionary holds no such five.
//!
//! The modules, leaves first:
//!
//! * [`letters`]: a set of lowercase letters packed into a bitmask;
//! * [`word`]: a word of five lowercase letters, and the order of words;
//! * [`dictionary`]: lines made into words, one word for each set of
//!   letters;
//! * [`ranking`]: the words of a dictionary ordered by how common their
//!   letters are;
//! * [`filter`]: the words of a list that avoid given letters, or come
//!   after a given word;
//! * [`solution`]: what a solution is;
//! * [`search`]: the depth-first search, and what is proved of its result;
//! * [`memo`]: the filter with its answers remembered, and the search run
//!   on it.
//!
//! The contracts of the functions are checked by Verus. The calls into the
//! `itertools` crate stand in one private module, whose contracts are
//! taken on trust.

pub mod dictionary;
pub mod filter;
pub mod letters;
pub mod memo;
pub mod ranking;
pub mod search;
pub mod solution;
mod trusted;
pub mod word;

pub use dictionary::{normalize, words, DictionaryError};
pub use filter::{word_contains, words_after, words_without_from};
pub use letters::LetterSet;
pub use memo::{solve_cached, FilterCache};
pub use ranking::rank;
pub use search::{search, solve};
pub use word::{Word, WordError};
