use crate::clue::{all_correct_tiles, clue_tiles, Clue, Tile, Word};
use vstd::prelude::*;

verus! {

/// The clue that `guess` receives when `secret` is the secret word.
pub open spec fn word_clue<const N: usize>(secret: Word<N>, guess: Word<N>) -> Seq<Tile> {
    clue_tiles(secret.letters@, guess.letters@)
}

/// The candidates of `secrets` that would have given `clue` for `guess`, in order.
pub open spec fn narrowed<const N: usize>(
    secrets: Seq<Word<N>>,
    guess: Word<N>,
    clue: Seq<Tile>,
) -> Seq<Word<N>> {
    secrets.filter(|s: Word<N>| word_clue(s, guess) == clue)
}

/// One puzzle in progress: the guesses that may be made, the secrets still
/// consistent with every clue seen, and whether a guess has been confirmed.
#[derive(Debug, Clone)]
pub struct GameState<const N: usize> {
    pub made_correct_guess: bool,
    pub allowed_guesses: Vec<Word<N>>,
    pub possible_secrets: Vec<Word<N>>,
}

/// What a game state holds, as mathematical values.
pub struct GameView<const N: usize> {
    pub made_correct_guess: bool,
    pub allowed_guesses: Seq<Word<N>>,
    pub possible_secrets: Seq<Word<N>>,
}

impl<const N: usize> View for GameState<N> {
    type V = GameView<N>;

    open spec fn view(&self) -> GameView<N> {
        GameView {
            made_correct_guess: self.made_correct_guess,
            allowed_guesses: self.allowed_guesses@,
            possible_secrets: self.possible_secrets@,
        }
    }
}

/// A copy of a list of words.
pub fn copy_words<const N: usize>(v: &Vec<Word<N>>) -> (r: Vec<Word<N>>)
    ensures
        r@ == v@,
{
    let mut r: Vec<Word<N>> = Vec::new();
    let mut i: usize = 0;
    while i < v.len()
        invariant
            i <= v.len(),
            r@ == v@.take(i as int),
        decreases v.len() - i,
    {
        r.push(v[i]);
        i = i + 1;
        assert(r@ =~= v@.take(i as int));
    }
    assert(v@.take(v.len() as int) =~= v@);
    r
}

/// The words of `secrets` that give `clue` for `guess`, in order.
pub fn narrow_words<const N: usize>(secrets: &Vec<Word<N>>, guess: Word<N>, clue: Clue<N>) -> (r: Vec<
    Word<N>,
>)
    ensures
        r@ == narrowed(secrets@, guess, clue.tiles@),
{
    let ghost pred = |s: Word<N>| word_clue(s, guess) == clue.tiles@;
    let mut r: Vec<Word<N>> = Vec::new();
    let mut i: usize = 0;
    while i < secrets.len()
        invariant
            i <= secrets.len(),
            pred == (|s: Word<N>| word_clue(s, guess) == clue.tiles@),
            r@ == secrets@.take(i as int).filter(pred),
        decreases secrets.len() - i,
    {
        let s = secrets[i];
        let c = s.compare_with_guess(guess);
        proof {
            reveal(Seq::filter);
            assert(secrets@.take(i + 1).drop_last() =~= secrets@.take(i as int));
        }
        if c == clue {
            r.push(s);
        }
        i = i + 1;
    }
    assert(secrets@.take(secrets.len() as int) =~= secrets@);
    r
}

impl<const N: usize> GameState<N> {
    /// A copy of this state.
    pub fn duplicate(&self) -> (r: GameState<N>)
        ensures
            r.made_correct_guess == self.made_correct_guess,
            r.allowed_guesses@ == self.allowed_guesses@,
            r.possible_secrets@ == self.possible_secrets@,
    {
        GameState {
            made_correct_guess: self.made_correct_guess,
            allowed_guesses: copy_words(&self.allowed_guesses),
            possible_secrets: copy_words(&self.possible_secrets),
        }
    }

    /// True once a guess in this game has received the all-`Correct` clue.
    pub fn is_finished(&self) -> (r: bool)
        ensures
            r == self.made_correct_guess,
    {
        self.made_correct_guess
    }

    /// The state after `guess` received `observed_result`: only the secrets
    /// that would have given that clue remain; the allowed guesses stay.
    pub fn after_guess(&self, guess: Word<N>, observed_result: Clue<N>) -> (r: Self)
        ensures
            r.allowed_guesses@ == self.allowed_guesses@,
            r.possible_secrets@ == narrowed(
                self.possible_secrets@,
                guess,
                observed_result.tiles@,
            ),
            r.made_correct_guess == (self.made_correct_guess || all_correct_tiles(
                observed_result.tiles@,
            )),
    {
        let possible_secrets = narrow_words(&self.possible_secrets, guess, observed_result);
        let made_correct_guess = self.made_correct_guess || observed_result.all_correct();
        GameState {
            made_correct_guess,
            allowed_guesses: copy_words(&self.allowed_guesses),
            possible_secrets,
        }
    }
}

/// Narrowing never adds a candidate: what remains after a guess was a
/// candidate before it.
pub proof fn lemma_narrowing_keeps_subset<const N: usize>(
    secrets: Seq<Word<N>>,
    guess: Word<N>,
    clue: Seq<Tile>,
    w: Word<N>,
)
    ensures
        narrowed(secrets, guess, clue).len() <= secrets.len(),
        narrowed(secrets, guess, clue).contains(w) ==> secrets.contains(w),
{
    let pred = |s: Word<N>| word_clue(s, guess) == clue;
    secrets.lemma_filter_len(pred);
    if narrowed(secrets, guess, clue).contains(w) {
        secrets.lemma_filter_contains_rev(pred, w);
    }
}

/// A candidate stays after a guess exactly when the observed clue is the
/// one it would have given; in particular the true secret always stays.
pub proof fn lemma_narrowing_keeps_consistent<const N: usize>(
    secrets: Seq<Word<N>>,
    guess: Word<N>,
    clue: Seq<Tile>,
    w: Word<N>,
)
    ensures
        narrowed(secrets, guess, clue).contains(w) <==> (secrets.contains(w) && word_clue(w, guess)
            == clue),
        secrets.contains(w) ==> narrowed(secrets, guess, word_clue(w, guess)).contains(w),
{
    let pred = |s: Word<N>| word_clue(s, guess) == clue;
    let pred2 = |s: Word<N>| word_clue(s, guess) == word_clue(w, guess);
    if narrowed(secrets, guess, clue).contains(w) {
        secrets.lemma_filter_contains_rev(pred, w);
    }
    if secrets.contains(w) {
        let i = choose|i: int| 0 <= i < secrets.len() && secrets[i] == w;
        secrets.lemma_filter_contains(pred2, i);
        if word_clue(w, guess) == clue {
            secrets.lemma_filter_contains(pred, i);
        }
    }
}

} // verus!
