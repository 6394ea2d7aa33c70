use crate::clue::{Clue, Tile, Word};
use crate::error::Error;
use vstd::prelude::*;
use vstd::utf8::char_u32_cast;

verus! {

/// `c` is one of the characters that stand for a tile.
pub open spec fn is_tile_char(c: char) -> bool {
    c == 'G' || c == 'Y' || c == '_'
}

/// The tile that a tile character stands for.
pub open spec fn char_tile(c: char) -> Tile {
    if c == 'G' {
        Tile::Correct
    } else if c == 'Y' {
        Tile::WrongPosition
    } else {
        Tile::NotPresentInWord
    }
}

/// The character written for a tile.
pub open spec fn tile_char(t: Tile) -> char {
    match t {
        Tile::Correct => 'G',
        Tile::WrongPosition => 'Y',
        Tile::NotPresentInWord => '_',
    }
}

pub open spec fn is_upper(c: char) -> bool {
    65 <= c as u32 && c as u32 <= 90
}

pub open spec fn is_lower(c: char) -> bool {
    97 <= c as u32 && c as u32 <= 122
}

/// `c` is an ASCII letter.
pub open spec fn is_alpha(c: char) -> bool {
    is_upper(c) || is_lower(c)
}

/// The letter value (`0` for `A`, `25` for `Z`) of an ASCII letter, either case.
pub open spec fn letter_value(c: char) -> u8 {
    if is_lower(c) {
        (c as u32 - 97) as u8
    } else {
        (c as u32 - 65) as u8
    }
}

/// The upper-case character of a letter value; `?` for a value past `Z`.
pub open spec fn letter_char(l: u8) -> char {
    if l < 26 {
        ((l + 65) as u32) as char
    } else {
        '?'
    }
}

/// The upper-case form of an ASCII letter.
pub open spec fn to_upper(c: char) -> char {
    letter_char(letter_value(c))
}

/// The first position of `s` that is not a tile character, if any.
pub open spec fn first_non_tile(s: Seq<char>, i: int) -> bool {
    0 <= i < s.len() && !is_tile_char(s[i]) && forall|j: int| 0 <= j < i ==> is_tile_char(s[j])
}

/// The text of a clue, one character per tile.
pub open spec fn clue_text(t: Seq<Tile>) -> Seq<char> {
    t.map_values(|x: Tile| tile_char(x))
}

/// The text of a word, one upper-case character per letter.
pub open spec fn word_text(l: Seq<u8>) -> Seq<char> {
    l.map_values(|x: u8| letter_char(x))
}

/// The characters of `s`.
pub(crate) fn chars_of(s: &str) -> (r: Vec<char>)
    ensures
        r@ == s@,
{
    let mut r: Vec<char> = Vec::new();
    for c in it: s.chars()
        invariant
            it.seq() == s@,
            r@ == it.seq().take(it.index() as int),
    {
        proof {
            assert(it.seq().take(it.index() + 1) =~= r@.push(c));
        }
        r.push(c);
    }
    assert(r@ =~= s@);
    r
}

/// Relies on `String`'s `FromIterator<&char>`: the string holds the characters in order.
#[verifier::external_body]
pub(crate) fn string_of_chars(v: &Vec<char>) -> (r: String)
    ensures
        r@ == v@,
{
    v.iter().collect()
}

impl Tile {
    /// The tile that a character stands for: `G`, `Y` or `_`.
    pub fn from_char(c: char) -> (r: Result<Tile, Error>)
        ensures
            is_tile_char(c) ==> r == Ok::<Tile, Error>(char_tile(c)),
            !is_tile_char(c) ==> r == Err::<Tile, Error>(Error::NotTileChar(c)),
    {
        if c == 'G' {
            Ok(Tile::Correct)
        } else if c == 'Y' {
            Ok(Tile::WrongPosition)
        } else if c == '_' {
            Ok(Tile::NotPresentInWord)
        } else {
            Err(Error::NotTileChar(c))
        }
    }

    /// The character written for this tile.
    pub fn to_char(&self) -> (r: char)
        ensures
            r == tile_char(*self),
    {
        match self {
            Tile::Correct => 'G',
            Tile::WrongPosition => 'Y',
            Tile::NotPresentInWord => '_',
        }
    }
}

impl<const N: usize> Clue<N> {
    /// Reads a clue written as `G`, `Y` and `_`. The first character that is
    /// none of these is reported; otherwise a length other than `N` is.
    pub fn parse(s: &str) -> (r: Result<Clue<N>, Error>)
        ensures
            (forall|i: int| 0 <= i < s@.len() ==> is_tile_char(#[trigger] s@[i])) && s@.len()
                == N ==> (r matches Ok(c) && c.tiles@ == s@.map_values(|x: char| char_tile(x))),
            (forall|i: int| 0 <= i < s@.len() ==> is_tile_char(#[trigger] s@[i])) && s@.len()
                != N ==> r matches Err(Error::IncorrectStringLength),
            forall|i: int| first_non_tile(s@, i) ==> (r matches Err(Error::NotTileChar(c)) && c == s@[i]),
    {
        let chars = chars_of(s);
        let mut i: usize = 0;
        while i < chars.len()
            invariant
                chars@ == s@,
                forall|j: int| 0 <= j < i ==> is_tile_char(#[trigger] s@[j]),
            decreases chars.len() - i,
        {
            if let Err(e) = Tile::from_char(chars[i]) {
                assert(first_non_tile(s@, i as int));
                return Err(e);
            }
            i = i + 1;
        }
        if chars.len() != N {
            return Err(Error::IncorrectStringLength);
        }
        let mut tiles = [Tile::NotPresentInWord;N];
        let mut i: usize = 0;
        while i < N
            invariant
                chars@ == s@,
                s@.len() == N,
                tiles@.len() == N,
                forall|j: int| 0 <= j < s@.len() ==> is_tile_char(#[trigger] s@[j]),
                forall|j: int| 0 <= j < i ==> tiles@[j] == char_tile(s@[j]),
            decreases N - i,
        {
            let c = chars[i];
            tiles[i] = if c == 'G' {
                Tile::Correct
            } else if c == 'Y' {
                Tile::WrongPosition
            } else {
                Tile::NotPresentInWord
            };
            i = i + 1;
        }
        assert(tiles@ =~= s@.map_values(|x: char| char_tile(x)));
        Ok(Clue { tiles })
    }

    /// The clue written as `G`, `Y` and `_`.
    pub fn to_string(&self) -> (r: String)
        ensures
            r@ == clue_text(self.tiles@),
    {
        let mut v: Vec<char> = Vec::new();
        let mut i: usize = 0;
        while i < N
            invariant
                self.tiles@.len() == N,
                i <= N,
                v@ == clue_text(self.tiles@.take(i as int)),
            decreases N - i,
        {
            v.push(self.tiles[i].to_char());
            i = i + 1;
            assert(v@ =~= clue_text(self.tiles@.take(i as int)));
        }
        assert(self.tiles@.take(N as int) =~= self.tiles@);
        string_of_chars(&v)
    }
}

impl<const N: usize> Word<N> {
    /// Reads a word of `N` ASCII letters of either case. A string with any
    /// other character is refused first; then a length other than `N`.
    pub fn parse(s: &str) -> (r: Result<Word<N>, Error>)
        ensures
            (forall|i: int| 0 <= i < s@.len() ==> is_alpha(#[trigger] s@[i])) && s@.len() == N
                ==> (r matches Ok(w) && w.letters@ == s@.map_values(|x: char| letter_value(x))),
            (forall|i: int| 0 <= i < s@.len() ==> is_alpha(#[trigger] s@[i])) && s@.len() != N
                ==> r matches Err(Error::IncorrectStringLength),
            !(forall|i: int| 0 <= i < s@.len() ==> is_alpha(#[trigger] s@[i])) ==> (r matches Err(
                Error::InvalidString(t),
            ) && t@ == s@),
    {
        let chars = chars_of(s);
        let mut i: usize = 0;
        while i < chars.len()
            invariant
                chars@ == s@,
                forall|j: int| 0 <= j < i ==> is_alpha(#[trigger] s@[j]),
            decreases chars.len() - i,
        {
            let c = chars[i];
            let code = c as u32;
            if !((65 <= code && code <= 90) || (97 <= code && code <= 122)) {
                assert(!is_alpha(s@[i as int]));
                return Err(Error::InvalidString(string_of_chars(&chars)));
            }
            i = i + 1;
        }
        if chars.len() != N {
            return Err(Error::IncorrectStringLength);
        }
        let mut letters = [0u8;N];
        let mut i: usize = 0;
        while i < N
            invariant
                chars@ == s@,
                s@.len() == N,
                letters@.len() == N,
                forall|j: int| 0 <= j < s@.len() ==> is_alpha(#[trigger] s@[j]),
                forall|j: int| 0 <= j < i ==> letters@[j] == letter_value(s@[j]),
            decreases N - i,
        {
            let code = chars[i] as u32;
            assert(is_alpha(s@[i as int]));
            letters[i] = if 97 <= code {
                (code - 97) as u8
            } else {
                (code - 65) as u8
            };
            i = i + 1;
        }
        assert(letters@ =~= s@.map_values(|x: char| letter_value(x)));
        Ok(Word { letters })
    }

    /// The word in upper-case letters.
    pub fn to_string(&self) -> (r: String)
        ensures
            r@ == word_text(self.letters@),
    {
        let mut v: Vec<char> = Vec::new();
        let mut i: usize = 0;
        while i < N
            invariant
                self.letters@.len() == N,
                i <= N,
                v@ == word_text(self.letters@.take(i as int)),
            decreases N - i,
        {
            let l = self.letters[i];
            let c = if l < 26 {
                (l + 65) as char
            } else {
                '?'
            };
            v.push(c);
            i = i + 1;
            assert(v@ =~= word_text(self.letters@.take(i as int)));
        }
        assert(self.letters@.take(N as int) =~= self.letters@);
        string_of_chars(&v)
    }
}

impl<const N: usize> core::str::FromStr for Word<N> {
    type Err = Error;

    fn from_str(s: &str) -> Result<Word<N>, Error> {
        Word::parse(s)
    }
}

impl<const N: usize> core::str::FromStr for Clue<N> {
    type Err = Error;

    fn from_str(s: &str) -> Result<Clue<N>, Error> {
        Clue::parse(s)
    }
}

/// Writing out a parsed clue gives back the text it was read from.
pub proof fn lemma_clue_text_round_trip(s: Seq<char>)
    requires
        forall|i: int| 0 <= i < s.len() ==> is_tile_char(#[trigger] s[i]),
    ensures
        clue_text(s.map_values(|x: char| char_tile(x))) == s,
{
    assert(clue_text(s.map_values(|x: char| char_tile(x))) =~= s);
}

/// Writing out a parsed word gives back its text in upper case.
pub proof fn lemma_word_text_round_trip(s: Seq<char>)
    requires
        forall|i: int| 0 <= i < s.len() ==> is_alpha(#[trigger] s[i]),
    ensures
        word_text(s.map_values(|x: char| letter_value(x))) == s.map_values(|x: char| to_upper(x)),
{
    assert(word_text(s.map_values(|x: char| letter_value(x))) =~= s.map_values(
        |x: char| to_upper(x),
    ));
}

/// An upper-case letter is unchanged by `to_upper`, so upper-case word text
/// reads back unchanged.
pub proof fn lemma_upper_word_text_round_trip(s: Seq<char>)
    requires
        forall|i: int| 0 <= i < s.len() ==> is_upper(#[trigger] s[i]),
    ensures
        word_text(s.map_values(|x: char| letter_value(x))) == s,
{
    assert forall|i: int| 0 <= i < s.len() implies to_upper(#[trigger] s[i]) == s[i] by {
        let c = s[i];
        let v = (c as u32 - 65) as u8;
        assert(v < 26);
        assert((v + 65) as u32 == c as u32);
        char_u32_cast(c, c as u32);
    }
    lemma_word_text_round_trip(s);
    assert(s.map_values(|x: char| to_upper(x)) =~= s);
}

} // verus!
