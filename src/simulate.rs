use crate::clue::{all_correct_tiles, ids_fit, Clue, Tile, Word};
use crate::error::Error;
use crate::game::{lemma_narrowing_keeps_subset, narrowed, word_clue, GameState};
use crate::multi::MultiGameState;
use crate::multi_strategy::MultiStrategy;
use crate::strategy::Strategy;
use vstd::prelude::*;

verus! {

/// One round of a simulated game: the guess and clue, if a round was
/// played, and the state that followed.
pub type Round<const N: usize> = Result<(Option<(Word<N>, Clue<N>)>, GameState<N>), Error>;

/// One round of simulated games: the guess and the clue of each game, if a
/// round was played, and the state that followed.
pub type MultiRound<const N: usize, const GAMES: usize> = Result<
    (Option<(Word<N>, [Clue<N>; GAMES])>, MultiGameState<N, GAMES>),
    Error,
>;

/// `next` is `prev` after `guess` received `clue`.
pub open spec fn follows<const N: usize>(
    prev: GameState<N>,
    guess: Word<N>,
    clue: Seq<Tile>,
    next: GameState<N>,
) -> bool {
    &&& next.allowed_guesses@ == prev.allowed_guesses@
    &&& next.possible_secrets@ == narrowed(prev.possible_secrets@, guess, clue)
    &&& next.made_correct_guess == (prev.made_correct_guess || all_correct_tiles(clue))
}

/// The round that follows state `prev` when `strategy` plays against
/// `secret`: the strategy's error, the guess with its clue and the next
/// state, or `NoProgress` when the guess neither finishes the game nor
/// removes a candidate.
#[verifier::opaque]
pub open spec fn round_after<S: Strategy<N>, const N: usize>(
    strategy: &S,
    secret: Word<N>,
    prev: GameState<N>,
    round: Round<N>,
) -> bool {
    match strategy.choice(prev@) {
        Err(e) => round == Err::<(Option<(Word<N>, Clue<N>)>, GameState<N>), Error>(e),
        Ok(g) => {
            let c = word_clue(secret, g);
            if !(prev.made_correct_guess || all_correct_tiles(c)) && narrowed(
                prev.possible_secrets@,
                g,
                c,
            ).len() == prev.possible_secrets@.len() {
                round == Err::<(Option<(Word<N>, Clue<N>)>, GameState<N>), Error>(
                    Error::NoProgress,
                )
            } else {
                round matches Ok((Some((g2, c2)), next)) && g2 == g && c2.tiles@ == c && follows(
                    prev,
                    g,
                    c,
                    next,
                )
            }
        },
    }
}

/// Round `b` follows round `a`: `a` holds an unfinished state and `b` is
/// the round after it.
#[verifier::opaque]
pub open spec fn link<S: Strategy<N>, const N: usize>(
    strategy: &S,
    secret: Word<N>,
    a: Round<N>,
    b: Round<N>,
) -> bool {
    a matches Ok((_, prev)) && !prev.made_correct_guess && round_after(strategy, secret, prev, b)
}

/// Each round after the first follows the one before it.
pub open spec fn chained<S: Strategy<N>, const N: usize>(
    strategy: &S,
    secret: Word<N>,
    rounds: Seq<Round<N>>,
) -> bool {
    forall|k: int| 1 <= k < rounds.len() ==> link(strategy, secret, rounds[k - 1], #[trigger] rounds[k])
}

proof fn lemma_chained_push<S: Strategy<N>, const N: usize>(
    strategy: &S,
    secret: Word<N>,
    rounds: Seq<Round<N>>,
    next: Round<N>,
)
    requires
        rounds.len() >= 1,
        chained(strategy, secret, rounds),
        link(strategy, secret, rounds.last(), next),
    ensures
        chained(strategy, secret, rounds.push(next)),
{
    let r2 = rounds.push(next);
    assert forall|k: int| 1 <= k < r2.len() implies link(strategy, secret, r2[k - 1], #[trigger] r2[k]) by {
        if k < r2.len() - 1 {
            assert(r2[k] == rounds[k]);
            assert(r2[k - 1] == rounds[k - 1]);
        } else {
            assert(r2[k - 1] == rounds.last());
        }
    }
}

impl<const N: usize> GameState<N> {
    /// Plays `strategy` against `secret_word` from this state. The first
    /// round holds this state; each further round follows the previous one
    /// (see `round_after`). The rounds end with an error or a finished state.
    pub fn simulate_strategy<S: Strategy<N>>(&self, secret_word: Word<N>, strategy: &S) -> (r: Vec<
        Round<N>,
    >)
        requires
            ids_fit(N),
        ensures
            r@.len() >= 1,
            r@[0] matches Ok((None, st)) && st.made_correct_guess == self.made_correct_guess
                && st.allowed_guesses@ == self.allowed_guesses@ && st.possible_secrets@
                == self.possible_secrets@,
            chained(strategy, secret_word, r@),
            r@.last() matches Ok((_, st)) ==> st.made_correct_guess,
    {
        let mut rounds: Vec<Round<N>> = Vec::new();
        rounds.push(Ok((None, self.duplicate())));
        let mut remaining: usize = self.possible_secrets.len();
        loop
            invariant
                ids_fit(N),
                rounds@.len() >= 1,
                rounds@[0] matches Ok((None, st)) && st.made_correct_guess
                    == self.made_correct_guess && st.allowed_guesses@ == self.allowed_guesses@
                    && st.possible_secrets@ == self.possible_secrets@,
                rounds@.last() matches Ok((_, st)) && st.possible_secrets@.len() == remaining,
                chained(strategy, secret_word, rounds@),
            decreases remaining,
        {
            let ghost pre = rounds@;
            let last = rounds.len() - 1;
            let state: &GameState<N> = match &rounds[last] {
                Ok((_, st)) => st,
                Err(_) => {
                    return rounds;
                },
            };
            if state.made_correct_guess {
                return rounds;
            }
            let next: Round<N> = match strategy.make_guess(state) {
                Err(e) => Err(e),
                Ok(guess) => {
                    let clue = secret_word.compare_with_guess(guess);
                    let after = state.after_guess(guess, clue);
                    if !after.made_correct_guess && after.possible_secrets.len()
                        == state.possible_secrets.len() {
                        Err(Error::NoProgress)
                    } else {
                        proof {
                            lemma_narrowing_keeps_subset(
                                state.possible_secrets@,
                                guess,
                                clue.tiles@,
                                guess,
                            );
                        }
                        Ok((Some((guess, clue)), after))
                    }
                },
            };
            proof {
                reveal(round_after);
                reveal(link);
                assert(round_after(strategy, secret_word, *state, next));
                assert(link(strategy, secret_word, pre.last(), next));
                lemma_chained_push(strategy, secret_word, pre, next);
            }
            match next {
                Ok((g, st)) => {
                    let finished = st.made_correct_guess;
                    let left = st.possible_secrets.len();
                    rounds.push(Ok((g, st)));
                    if finished {
                        return rounds;
                    }
                    assert(left < remaining);
                    remaining = left;
                },
                Err(e) => {
                    rounds.push(Err(e));
                    return rounds;
                },
            }
        }
    }
}

/// What is left to do in a set of games: every candidate, and one more for
/// each unfinished game.
pub open spec fn work_left<const N: usize>(games: Seq<GameState<N>>) -> nat
    decreases games.len(),
{
    if games.len() == 0 {
        0
    } else {
        work_left(games.drop_last()) + games.last().possible_secrets@.len() + if games.last().made_correct_guess {
            0nat
        } else {
            1nat
        }
    }
}

/// The work left in one game.
pub open spec fn game_work<const N: usize>(g: GameState<N>) -> nat {
    g.possible_secrets@.len() + if g.made_correct_guess {
        0nat
    } else {
        1nat
    }
}

proof fn lemma_work_left_decreases<const N: usize>(a: Seq<GameState<N>>, b: Seq<GameState<N>>, n: int)
    requires
        0 <= n <= a.len(),
        a.len() == b.len(),
        forall|j: int| 0 <= j < a.len() ==> game_work(#[trigger] b[j]) <= game_work(a[j]),
    ensures
        work_left(b.take(n)) <= work_left(a.take(n)),
        (exists|j: int| 0 <= j < n && game_work(#[trigger] b[j]) < game_work(a[j])) ==> work_left(
            b.take(n),
        ) < work_left(a.take(n)),
    decreases n,
{
    if n > 0 {
        lemma_work_left_decreases(a, b, n - 1);
        assert(a.take(n).drop_last() =~= a.take(n - 1));
        assert(b.take(n).drop_last() =~= b.take(n - 1));
        assert(game_work(b[n - 1]) <= game_work(a[n - 1]));
    }
}

/// The clue each game gives for `guess`.
pub open spec fn clues_for<const N: usize>(secrets: Seq<Word<N>>, guess: Word<N>) -> Seq<Seq<Tile>> {
    secrets.map_values(|s: Word<N>| word_clue(s, guess))
}

/// Playing `guess` changes nothing in any game of `prev`.
pub open spec fn changes_nothing<const N: usize>(
    prev: Seq<GameState<N>>,
    guess: Word<N>,
    clues: Seq<Seq<Tile>>,
) -> bool {
    forall|j: int|
        0 <= j < prev.len() ==> {
            &&& ((#[trigger] prev[j]).made_correct_guess || all_correct_tiles(clues[j]))
                == prev[j].made_correct_guess
            &&& narrowed(prev[j].possible_secrets@, guess, clues[j]).len()
                == prev[j].possible_secrets@.len()
        }
}

/// The round that follows `prev` when `strategy` plays against `secrets`:
/// the strategy's error, the guess with every game's clue and the next
/// state, or `NoProgress` when the guess changes nothing in any game.
#[verifier::opaque]
pub open spec fn multi_round_after<S: MultiStrategy<N, GAMES>, const N: usize, const GAMES: usize>(
    strategy: &S,
    secrets: Seq<Word<N>>,
    prev: MultiGameState<N, GAMES>,
    round: MultiRound<N, GAMES>,
) -> bool {
    match strategy.multi_choice(prev) {
        Err(e) => round == Err::<
            (Option<(Word<N>, [Clue<N>; GAMES])>, MultiGameState<N, GAMES>),
            Error,
        >(e),
        Ok(g) => {
            let cs = clues_for(secrets, g);
            if changes_nothing(prev.games@, g, cs) {
                round == Err::<
                    (Option<(Word<N>, [Clue<N>; GAMES])>, MultiGameState<N, GAMES>),
                    Error,
                >(Error::NoProgress)
            } else {
                round matches Ok((Some((g2, c2)), next)) && g2 == g && next.games@.len() == GAMES
                    && forall|j: int|
                    0 <= j < GAMES ==> {
                        &&& (#[trigger] c2@[j]).tiles@ == cs[j]
                        &&& follows(prev.games@[j], g, cs[j], next.games@[j])
                    }
            }
        },
    }
}

/// Every game is finished.
pub open spec fn all_finished<const N: usize>(games: Seq<GameState<N>>) -> bool {
    forall|j: int| 0 <= j < games.len() ==> (#[trigger] games[j]).made_correct_guess
}

/// Round `b` follows round `a`: `a` holds a state of unfinished games and
/// `b` is the round after it.
#[verifier::opaque]
pub open spec fn multi_link<S: MultiStrategy<N, GAMES>, const N: usize, const GAMES: usize>(
    strategy: &S,
    secrets: Seq<Word<N>>,
    a: MultiRound<N, GAMES>,
    b: MultiRound<N, GAMES>,
) -> bool {
    a matches Ok((_, prev)) && prev.games@.len() == GAMES && !all_finished(prev.games@)
        && multi_round_after(strategy, secrets, prev, b)
}

/// Each round after the first follows the one before it.
pub open spec fn multi_chained<S: MultiStrategy<N, GAMES>, const N: usize, const GAMES: usize>(
    strategy: &S,
    secrets: Seq<Word<N>>,
    rounds: Seq<MultiRound<N, GAMES>>,
) -> bool {
    forall|k: int|
        1 <= k < rounds.len() ==> multi_link(strategy, secrets, rounds[k - 1], #[trigger] rounds[k])
}

proof fn lemma_multi_chained_push<S: MultiStrategy<N, GAMES>, const N: usize, const GAMES: usize>(
    strategy: &S,
    secrets: Seq<Word<N>>,
    rounds: Seq<MultiRound<N, GAMES>>,
    next: MultiRound<N, GAMES>,
)
    requires
        rounds.len() >= 1,
        multi_chained(strategy, secrets, rounds),
        multi_link(strategy, secrets, rounds.last(), next),
    ensures
        multi_chained(strategy, secrets, rounds.push(next)),
{
    let r2 = rounds.push(next);
    assert forall|k: int| 1 <= k < r2.len() implies multi_link(
        strategy,
        secrets,
        r2[k - 1],
        #[trigger] r2[k],
    ) by {
        if k < r2.len() - 1 {
            assert(r2[k] == rounds[k]);
            assert(r2[k - 1] == rounds[k - 1]);
        } else {
            assert(r2[k - 1] == rounds.last());
        }
    }
}

impl<const N: usize, const GAMES: usize> MultiGameState<N, GAMES> {
    /// Plays `strategy` against `secret_words`, game `j` having secret
    /// `secret_words[j]`. The first round holds this state; each further
    /// round follows the previous one (see `multi_round_after`). The rounds
    /// end with an error or with every game finished.
    pub fn simulate_strategy<S: MultiStrategy<N, GAMES>>(
        &self,
        secret_words: [Word<N>; GAMES],
        strategy: &S,
    ) -> (r: Vec<MultiRound<N, GAMES>>)
        requires
            ids_fit(N),
            self.wf(),
        ensures
            r@.len() >= 1,
            r@[0] matches Ok((None, st)) && st.games@.len() == GAMES && forall|j: int|
                0 <= j < GAMES ==> {
                    &&& (#[trigger] st.games@[j]).made_correct_guess
                        == self.games@[j].made_correct_guess
                    &&& st.games@[j].allowed_guesses@ == self.games@[j].allowed_guesses@
                    &&& st.games@[j].possible_secrets@ == self.games@[j].possible_secrets@
                },
            multi_chained(strategy, secret_words@, r@),
            r@.last() matches Ok((_, st)) ==> all_finished(st.games@),
    {
        let mut rounds: Vec<MultiRound<N, GAMES>> = Vec::new();
        let first = self.after_nothing();
        let ghost remaining = work_left(first.games@);
        rounds.push(Ok((None, first)));
        loop
            invariant
                ids_fit(N),
                rounds@.len() >= 1,
                rounds@[0] matches Ok((None, st)) && st.games@.len() == GAMES && forall|j: int|
                    0 <= j < GAMES ==> {
                        &&& (#[trigger] st.games@[j]).made_correct_guess
                            == self.games@[j].made_correct_guess
                        &&& st.games@[j].allowed_guesses@ == self.games@[j].allowed_guesses@
                        &&& st.games@[j].possible_secrets@ == self.games@[j].possible_secrets@
                    },
                rounds@.last() matches Ok((_, st)) && st.games@.len() == GAMES && work_left(
                    st.games@,
                ) == remaining,
                multi_chained(strategy, secret_words@, rounds@),
            decreases remaining,
        {
            let ghost pre = rounds@;
            let last = rounds.len() - 1;
            let state: &MultiGameState<N, GAMES> = match &rounds[last] {
                Ok((_, st)) => st,
                Err(_) => {
                    return rounds;
                },
            };
            if state.is_finished() {
                return rounds;
            }
            let next: MultiRound<N, GAMES> = match strategy.make_guess(state) {
                Err(e) => Err(e),
                Ok(guess) => {
                    let mut clues = [Clue { tiles: [Tile::Correct;N] };GAMES];
                    let mut j: usize = 0;
                    while j < GAMES
                        invariant
                            j <= GAMES,
                            clues@.len() == GAMES,
                            secret_words@.len() == GAMES,
                            forall|jj: int|
                                0 <= jj < j ==> (#[trigger] clues@[jj]).tiles@ == word_clue(
                                    secret_words@[jj],
                                    guess,
                                ),
                        decreases GAMES - j,
                    {
                        clues[j] = secret_words[j].compare_with_guess(guess);
                        j = j + 1;
                    }
                    let after = state.after_guess(guess, clues);
                    let ghost cs = clues_for(secret_words@, guess);
                    let mut changed = false;
                    let ghost mut witness: int = 0;
                    let mut j: usize = 0;
                    while j < GAMES
                        invariant
                            j <= GAMES,
                            state.games@.len() == GAMES,
                            after.games@.len() == GAMES,
                            !changed ==> forall|jj: int|
                                0 <= jj < j ==> {
                                    &&& (#[trigger] after.games@[jj]).made_correct_guess
                                        == state.games@[jj].made_correct_guess
                                    &&& after.games@[jj].possible_secrets@.len()
                                        == state.games@[jj].possible_secrets@.len()
                                },
                            changed ==> 0 <= witness < GAMES && (
                            after.games@[witness].made_correct_guess
                                != state.games@[witness].made_correct_guess
                                || after.games@[witness].possible_secrets@.len()
                                != state.games@[witness].possible_secrets@.len()),
                        decreases GAMES - j,
                    {
                        if after.games[j].made_correct_guess != state.games[j].made_correct_guess
                            || after.games[j].possible_secrets.len()
                            != state.games[j].possible_secrets.len() {
                            changed = true;
                            proof {
                                witness = j as int;
                            }
                        }
                        j = j + 1;
                    }
                    proof {
                        assert forall|jj: int| 0 <= jj < GAMES implies clues@[jj].tiles@
                            == cs[jj] by {}
                        assert forall|jj: int| 0 <= jj < GAMES implies game_work(
                            #[trigger] after.games@[jj],
                        ) <= game_work(state.games@[jj]) by {
                            lemma_narrowing_keeps_subset(
                                state.games@[jj].possible_secrets@,
                                guess,
                                cs[jj],
                                guess,
                            );
                        }
                        if changed {
                            let jj = witness;
                            lemma_narrowing_keeps_subset(
                                state.games@[jj].possible_secrets@,
                                guess,
                                cs[jj],
                                guess,
                            );
                            assert(game_work(after.games@[jj]) < game_work(state.games@[jj]));
                        }
                        lemma_work_left_decreases(state.games@, after.games@, GAMES as int);
                        assert(state.games@.take(GAMES as int) =~= state.games@);
                        assert(after.games@.take(GAMES as int) =~= after.games@);
                    }
                    proof {
                        if !changed {
                            assert forall|jj: int| 0 <= jj < state.games@.len() implies {
                                &&& ((#[trigger] state.games@[jj]).made_correct_guess
                                    || all_correct_tiles(cs[jj])) == state.games@[jj].made_correct_guess
                                &&& narrowed(state.games@[jj].possible_secrets@, guess, cs[jj]).len()
                                    == state.games@[jj].possible_secrets@.len()
                            } by {
                                assert(after.games@[jj].made_correct_guess
                                    == state.games@[jj].made_correct_guess);
                            }
                            assert(changes_nothing(state.games@, guess, cs));
                        } else {
                            let jj = witness;
                            assert(!changes_nothing(state.games@, guess, cs)) by {
                                assert(clues@[jj].tiles@ == cs[jj]);
                                let g = state.games@[jj];
                                assert(g == state.games@[jj]);
                            }
                        }
                    }
                    if !changed {
                        Err(Error::NoProgress)
                    } else {
                        Ok((Some((guess, clues)), after))
                    }
                },
            };
            proof {
                reveal(multi_round_after);
                reveal(multi_link);
                assert(multi_round_after(strategy, secret_words@, *state, next));
                assert(multi_link(strategy, secret_words@, pre.last(), next));
                lemma_multi_chained_push(strategy, secret_words@, pre, next);
            }
            match next {
                Ok((g, st)) => {
                    let finished = st.is_finished();
                    let ghost left = work_left(st.games@);
                    rounds.push(Ok((g, st)));
                    if finished {
                        return rounds;
                    }
                    assert(left < remaining);
                    proof {
                        remaining = left;
                    }
                },
                Err(e) => {
                    rounds.push(Err(e));
                    return rounds;
                },
            }
        }
    }

    /// A copy of this state.
    pub fn after_nothing(&self) -> (r: Self)
        requires
            self.wf(),
        ensures
            r.wf(),
            forall|j: int|
                0 <= j < GAMES ==> {
                    &&& (#[trigger] r.games@[j]).made_correct_guess
                        == self.games@[j].made_correct_guess
                    &&& r.games@[j].allowed_guesses@ == self.games@[j].allowed_guesses@
                    &&& r.games@[j].possible_secrets@ == self.games@[j].possible_secrets@
                },
    {
        let mut games: Vec<GameState<N>> = Vec::new();
        let mut j: usize = 0;
        while j < GAMES
            invariant
                j <= GAMES,
                self.games@.len() == GAMES,
                games@.len() == j,
                forall|k: int|
                    0 <= k < j ==> {
                        &&& (#[trigger] games@[k]).made_correct_guess
                            == self.games@[k].made_correct_guess
                        &&& games@[k].allowed_guesses@ == self.games@[k].allowed_guesses@
                        &&& games@[k].possible_secrets@ == self.games@[k].possible_secrets@
                    },
            decreases GAMES - j,
        {
            games.push(self.games[j].duplicate());
            j = j + 1;
        }
        MultiGameState { games }
    }
}

} // verus!
