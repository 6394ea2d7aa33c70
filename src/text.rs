//! Clues and narrowing on words held as strings of any characters.
use crate::clue::{clue_tiles, tile_at, unmatched_in_guess, unmatched_in_secret, Tile};
use crate::error::Error;
use crate::notation::chars_of;
use itertools::Itertools;
use std::collections::HashMap;
use vstd::prelude::*;
use vstd::utf8::char_u32_cast;

verus! {

broadcast use vstd::std_specs::hash::group_hash_axioms;

/// What is left of the secret's unmatched copies of `c` once the guess's
/// unmatched copies before position `i` have used their share.
pub open spec fn remaining_budget<T>(secret: Seq<T>, guess: Seq<T>, i: int, c: T) -> nat {
    let have = unmatched_in_secret(secret, guess, secret.len() as int, c);
    let used = unmatched_in_guess(secret, guess, i, c);
    if used < have {
        (have - used) as nat
    } else {
        0
    }
}

/// Number of times `k` occurs in `s`.
pub open spec fn occurrences(s: Seq<u32>, k: u32) -> nat
    decreases s.len(),
{
    if s.len() == 0 {
        0
    } else {
        occurrences(s.drop_last(), k) + if s.last() == k {
            1nat
        } else {
            0nat
        }
    }
}

/// Relies on itertools' `Itertools::counts`: a map from each value of
/// `codes` to the number of times it occurs there, and no other keys.
#[verifier::external_body]
fn count_codes(codes: &Vec<u32>) -> (r: HashMap<u32, usize>)
    ensures
        forall|k: u32| #[trigger] budget_of(r@, k) == occurrences(codes@, k),
{
    codes.iter().copied().counts()
}

/// The count a budget map holds for key `k`, zero when absent.
pub open spec fn budget_of(m: Map<u32, usize>, k: u32) -> nat {
    if m.contains_key(k) {
        m[k] as nat
    } else {
        0
    }
}

/// The count a budget map holds for key `k`.
fn budget(m: &HashMap<u32, usize>, k: u32) -> (r: usize)
    ensures
        r == budget_of(m@, k),
{
    match m.get(&k) {
        Some(v) => *v,
        None => 0,
    }
}

/// Distinct characters have distinct code points.
proof fn lemma_char_code_injective(a: char, b: char)
    requires
        a as u32 == b as u32,
    ensures
        a == b,
{
    char_u32_cast(a, a as u32);
    char_u32_cast(b, b as u32);
}

/// The clue for `guess` against `secret`, both strings of the same number of
/// characters; strings of different lengths are refused. Like
/// `Word::compare_with_guess`, it counts the unmatched characters of the
/// secret first (with itertools' `counts`) and hands them out from left to
/// right in a second pass.
pub fn compare_words(secret_word: &str, guess: &str) -> (r: Result<Vec<Tile>, Error>)
    ensures
        secret_word@.len() != guess@.len() ==> r matches Err(Error::UnequalWordLength),
        secret_word@.len() == guess@.len() ==> (r matches Ok(t) && t@ == clue_tiles(
            secret_word@,
            guess@,
        )),
{
    let s = chars_of(secret_word);
    let g = chars_of(guess);
    if s.len() != g.len() {
        return Err(Error::UnequalWordLength);
    }
    let n = s.len();
    let mut codes: Vec<u32> = Vec::new();
    let mut i: usize = 0;
    while i < n
        invariant
            s@ == secret_word@,
            g@ == guess@,
            n == s@.len(),
            n == g@.len(),
            i <= n,
            forall|c: char|
                occurrences(codes@, c as u32) == #[trigger] unmatched_in_secret(
                    s@,
                    g@,
                    i as int,
                    c,
                ),
        decreases n - i,
    {
        let ghost old_codes = codes@;
        if g[i] != s[i] {
            let c0 = s[i];
            codes.push(c0 as u32);
            proof {
                assert(codes@.drop_last() == old_codes);
                assert forall|c: char|
                    occurrences(codes@, c as u32) == #[trigger] unmatched_in_secret(
                        s@,
                        g@,
                        i + 1,
                        c,
                    ) by {
                    assert(occurrences(old_codes, c as u32) == unmatched_in_secret(
                        s@,
                        g@,
                        i as int,
                        c,
                    ));
                    if c as u32 == c0 as u32 {
                        lemma_char_code_injective(c, c0);
                    }
                }
            }
        } else {
            proof {
                assert forall|c: char|
                    occurrences(codes@, c as u32) == #[trigger] unmatched_in_secret(
                        s@,
                        g@,
                        i + 1,
                        c,
                    ) by {
                    assert(occurrences(codes@, c as u32) == unmatched_in_secret(
                        s@,
                        g@,
                        i as int,
                        c,
                    ));
                }
            }
        }
        i = i + 1;
    }
    let mut counts = count_codes(&codes);
    proof {
        assert forall|c: char|
            #![trigger unmatched_in_guess(s@, g@, 0, c)]
            budget_of(counts@, c as u32) == remaining_budget(s@, g@, 0, c) by {
            assert(unmatched_in_secret(s@, g@, n as int, c) >= 0);
        }
    }
    let mut result: Vec<Tile> = Vec::new();
    let mut i: usize = 0;
    while i < n
        invariant
            s@ == secret_word@,
            g@ == guess@,
            n == s@.len(),
            n == g@.len(),
            i <= n,
            result@ == clue_tiles(s@, g@).take(i as int),
            forall|c: char|
                #![trigger unmatched_in_guess(s@, g@, i as int, c)]
                budget_of(counts@, c as u32) == remaining_budget(s@, g@, i as int, c),
        decreases n - i,
    {
        let c0 = g[i];
        let tile = if c0 == s[i] {
            proof {
                assert forall|c: char|
                    #![trigger unmatched_in_guess(s@, g@, i + 1, c)]
                    budget_of(counts@, c as u32) == remaining_budget(s@, g@, i + 1, c) by {
                    assert(unmatched_in_guess(s@, g@, i as int, c) >= 0);
                }
            }
            Tile::Correct
        } else {
            let k = c0 as u32;
            let b = budget(&counts, k);
            assert(unmatched_in_guess(s@, g@, i as int, c0) >= 0);
            let ghost old_counts = counts@;
            if b > 0 {
                counts.insert(k, b - 1);
                proof {
                    assert forall|c: char|
                        #![trigger unmatched_in_guess(s@, g@, i + 1, c)]
                        budget_of(counts@, c as u32) == remaining_budget(s@, g@, i + 1, c) by {
                        assert(unmatched_in_guess(s@, g@, i as int, c) >= 0);
                        if c as u32 == k {
                            lemma_char_code_injective(c, c0);
                        }
                    }
                }
                Tile::WrongPosition
            } else {
                proof {
                    assert forall|c: char|
                        #![trigger unmatched_in_guess(s@, g@, i + 1, c)]
                        budget_of(counts@, c as u32) == remaining_budget(s@, g@, i + 1, c) by {
                        assert(unmatched_in_guess(s@, g@, i as int, c) >= 0);
                    }
                }
                Tile::NotPresentInWord
            }
        };
        assert(tile == tile_at(s@, g@, i as int));
        result.push(tile);
        i = i + 1;
        assert(result@ =~= clue_tiles(s@, g@).take(i as int));
    }
    assert(clue_tiles(s@, g@).take(n as int) =~= clue_tiles(s@, g@));
    Ok(result)
}

/// The words of `words` that have `n` characters.
pub open spec fn words_of_length(words: Seq<String>, n: nat) -> Seq<String> {
    words.filter(|w: String| w@.len() == n)
}

/// The secrets of `secrets` that give `clue` for `guess`.
pub open spec fn consistent_words(secrets: Seq<String>, guess: Seq<char>, clue: Seq<Tile>) -> Seq<
    String,
> {
    secrets.filter(|w: String| clue_tiles(w@, guess) == clue)
}

/// A game over words held as strings: the dictionary of allowed guesses and
/// the secrets still possible.
pub struct GameState {
    pub dictionary: Vec<String>,
    pub secret: Vec<String>,
}

impl GameState {
    /// A game whose dictionary and secrets are the words of `num_letters`
    /// characters, in order.
    pub fn new(words: &Vec<String>, num_letters: usize) -> (r: GameState)
        ensures
            r.dictionary@ == words_of_length(words@, num_letters as nat),
            r.secret@ == r.dictionary@,
    {
        let ghost pred = |w: String| w@.len() == num_letters as nat;
        let mut dictionary: Vec<String> = Vec::new();
        let mut secret: Vec<String> = Vec::new();
        let mut i: usize = 0;
        while i < words.len()
            invariant
                i <= words@.len(),
                pred == (|w: String| w@.len() == num_letters as nat),
                dictionary@ == words@.take(i as int).filter(pred),
                secret@ == dictionary@,
            decreases words.len() - i,
        {
            proof {
                reveal(Seq::filter);
                assert(words@.take(i + 1).drop_last() =~= words@.take(i as int));
            }
            let w = &words[i];
            if chars_of(w.as_str()).len() == num_letters {
                dictionary.push(w.clone());
                secret.push(w.clone());
            }
            i = i + 1;
        }
        assert(words@.take(words.len() as int) =~= words@);
        GameState { dictionary, secret }
    }

    /// The state after `guess` received `observed_result`. Fails when a
    /// secret's length differs from the guess's.
    pub fn after_guess(&self, guess: &str, observed_result: &Vec<Tile>) -> (r: Result<
        GameState,
        Error,
    >)
        ensures
            (forall|i: int|
                0 <= i < self.secret@.len() ==> (#[trigger] self.secret@[i])@.len() == guess@.len())
                ==> (r matches Ok(st) && st.dictionary@ == self.dictionary@ && st.secret@
                == consistent_words(self.secret@, guess@, observed_result@)),
            !(forall|i: int|
                0 <= i < self.secret@.len() ==> (#[trigger] self.secret@[i])@.len() == guess@.len())
                ==> r matches Err(Error::UnequalWordLength),
    {
        let ghost pred = |w: String| clue_tiles(w@, guess@) == observed_result@;
        let mut secret: Vec<String> = Vec::new();
        let mut i: usize = 0;
        while i < self.secret.len()
            invariant
                i <= self.secret@.len(),
                pred == (|w: String| clue_tiles(w@, guess@) == observed_result@),
                secret@ == self.secret@.take(i as int).filter(pred),
                forall|j: int| 0 <= j < i ==> (#[trigger] self.secret@[j])@.len() == guess@.len(),
            decreases self.secret.len() - i,
        {
            proof {
                reveal(Seq::filter);
                assert(self.secret@.take(i + 1).drop_last() =~= self.secret@.take(i as int));
            }
            let w = &self.secret[i];
            match compare_words(w.as_str(), guess) {
                Ok(tiles) => {
                    if tiles_equal(&tiles, observed_result) {
                        secret.push(w.clone());
                    }
                },
                Err(e) => {
                    return Err(e);
                },
            }
            i = i + 1;
        }
        assert(self.secret@.take(self.secret.len() as int) =~= self.secret@);
        let mut dictionary: Vec<String> = Vec::new();
        let mut k: usize = 0;
        while k < self.dictionary.len()
            invariant
                k <= self.dictionary@.len(),
                dictionary@ == self.dictionary@.take(k as int),
            decreases self.dictionary.len() - k,
        {
            dictionary.push(self.dictionary[k].clone());
            k = k + 1;
            assert(dictionary@ =~= self.dictionary@.take(k as int));
        }
        assert(self.dictionary@.take(self.dictionary.len() as int) =~= self.dictionary@);
        Ok(GameState { dictionary, secret })
    }
}

/// Whether two tile lists are equal.
fn tiles_equal(a: &Vec<Tile>, b: &Vec<Tile>) -> (r: bool)
    ensures
        r == (a@ == b@),
{
    if a.len() != b.len() {
        return false;
    }
    let mut i: usize = 0;
    while i < a.len()
        invariant
            i <= a@.len(),
            a@.len() == b@.len(),
            forall|j: int| 0 <= j < i ==> a@[j] == b@[j],
        decreases a.len() - i,
    {
        if a[i] != b[i] {
            return false;
        }
        i = i + 1;
    }
    assert(a@ =~= b@);
    true
}

} // verus!
