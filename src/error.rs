use vstd::prelude::*;

verus! {

/// Failures of parsing, of word lists and of strategies.
#[derive(Debug)]
pub enum Error {
    /// A word or clue string does not have the expected length.
    IncorrectStringLength,
    /// A word string holds a character outside `A`-`Z` / `a`-`z`.
    InvalidString(String),
    /// No word list was named.
    NoDictionaryFile,
    /// A word list could not be read; the message says why.
    WordListReadError(String),
    /// A strategy was asked to guess with no candidate left.
    NoWordsRemaining,
    /// A clue string holds a character other than `G`, `Y` or `_`.
    NotTileChar(char),
    /// A multi-game operation received the wrong number of words.
    IncorrectNumberOfWords,
    /// Two words of different lengths were compared.
    UnequalWordLength,
    /// A strategy made a guess that could not narrow the candidates.
    NoProgress,
}

} // verus!
