use crate::clue::{all_correct_tiles, ids_fit, Word};
use crate::error::Error;
use crate::game::{word_clue, GameState};
use crate::multi::MultiGameState;
use crate::strategy::{first_min_index, lex_lt, score_less, HeuristicStrategy, Strategy};
use vstd::prelude::*;

verus! {

/// A strategy for several games at once: one guess for all of them.
pub trait MultiStrategy<const N: usize, const GAMES: usize> {
    /// The guess this strategy makes in `state`.
    spec fn multi_choice(&self, state: MultiGameState<N, GAMES>) -> Result<Word<N>, Error>;

    fn make_guess(&self, state: &MultiGameState<N, GAMES>) -> (r: Result<Word<N>, Error>)
        requires
            ids_fit(N),
            state.wf(),
        ensures
            r == self.multi_choice(*state),
    ;
}

/// The position of the first unfinished game, or the number of games when
/// all are finished.
pub open spec fn first_unfinished<const N: usize>(games: Seq<GameState<N>>) -> int
    decreases games.len(),
{
    if games.len() == 0 {
        0
    } else if !games[0].made_correct_guess {
        0
    } else {
        1 + first_unfinished(games.drop_first())
    }
}

proof fn lemma_first_unfinished<const N: usize>(games: Seq<GameState<N>>)
    ensures
        0 <= first_unfinished(games) <= games.len(),
        first_unfinished(games) < games.len() ==> !games[first_unfinished(games)].made_correct_guess,
        forall|j: int| 0 <= j < first_unfinished(games) ==> (#[trigger] games[j]).made_correct_guess,
    decreases games.len(),
{
    if games.len() > 0 && games[0].made_correct_guess {
        lemma_first_unfinished(games.drop_first());
        assert forall|j: int| 0 <= j < first_unfinished(games) implies (#[trigger] games[j]).made_correct_guess by {
            if j > 0 {
                assert(games[j] == games.drop_first()[j - 1]);
            }
        }
    }
}

/// `w` is a concluding guess: a candidate common to every unfinished game,
/// checked by playing it against every candidate of each of them, all of
/// which must give the all-`Correct` clue, so that it finishes them all for
/// certain.
pub open spec fn is_concluding<const N: usize>(games: Seq<GameState<N>>, w: Word<N>) -> bool {
    forall|j: int|
        0 <= j < games.len() && !(#[trigger] games[j]).made_correct_guess ==> {
            &&& games[j].possible_secrets@.contains(w)
            &&& forall|k: int|
                0 <= k < games[j].possible_secrets@.len() ==> all_correct_tiles(
                    word_clue(#[trigger] games[j].possible_secrets@[k], w),
                )
        }
}

/// The position of the first candidate of `pool` that is concluding, or
/// the length of `pool` when none is.
pub open spec fn first_concluding<const N: usize>(
    games: Seq<GameState<N>>,
    pool: Seq<Word<N>>,
) -> int
    decreases pool.len(),
{
    if pool.len() == 0 {
        0
    } else if is_concluding(games, pool[0]) {
        0
    } else {
        1 + first_concluding(games, pool.drop_first())
    }
}

/// The concluding guess: the first candidate of the first unfinished game
/// that finishes every unfinished game; none when all games are finished.
pub open spec fn concluding_guess<const N: usize>(games: Seq<GameState<N>>) -> Option<Word<N>> {
    let k = first_unfinished(games);
    if k >= games.len() {
        None
    } else {
        let pool = games[k].possible_secrets@;
        let i = first_concluding(games, pool);
        if i < pool.len() {
            Some(pool[i])
        } else {
            None
        }
    }
}

proof fn lemma_first_concluding<const N: usize>(games: Seq<GameState<N>>, pool: Seq<Word<N>>)
    ensures
        0 <= first_concluding(games, pool) <= pool.len(),
        first_concluding(games, pool) < pool.len() ==> is_concluding(
            games,
            pool[first_concluding(games, pool)],
        ),
        forall|i: int|
            0 <= i < first_concluding(games, pool) ==> !is_concluding(games, #[trigger] pool[i]),
    decreases pool.len(),
{
    if pool.len() > 0 && !is_concluding(games, pool[0]) {
        lemma_first_concluding(games, pool.drop_first());
        assert forall|i: int| 0 <= i < first_concluding(games, pool) implies !is_concluding(
            games,
            #[trigger] pool[i],
        ) by {
            if i > 0 {
                assert(pool[i] == pool.drop_first()[i - 1]);
            }
        }
    }
}

/// Whether `w` finishes every unfinished game for certain.
fn check_concluding<const N: usize, const GAMES: usize>(
    state: &MultiGameState<N, GAMES>,
    w: Word<N>,
) -> (r: bool)
    ensures
        r == is_concluding(state.games@, w),
{
    let games = &state.games;
    let mut j: usize = 0;
    while j < games.len()
        invariant
            j <= games@.len(),
            games == &state.games,
            forall|jj: int|
                0 <= jj < j && !(#[trigger] games@[jj]).made_correct_guess ==> {
                    &&& games@[jj].possible_secrets@.contains(w)
                    &&& forall|k: int|
                        0 <= k < games@[jj].possible_secrets@.len() ==> all_correct_tiles(
                            word_clue(#[trigger] games@[jj].possible_secrets@[k], w),
                        )
                },
        decreases games.len() - j,
    {
        let game = &games[j];
        if !game.made_correct_guess {
            let secrets = &game.possible_secrets;
            let mut found = false;
            let mut k: usize = 0;
            while k < secrets.len()
                invariant
                    k <= secrets@.len(),
                    secrets == &games@[j as int].possible_secrets,
                    games == &state.games,
                    !games@[j as int].made_correct_guess,
                    j < games@.len(),
                    found ==> secrets@.contains(w),
                    !found ==> forall|kk: int|
                        0 <= kk < k ==> (#[trigger] secrets@[kk]).letters@ != w.letters@,
                    forall|kk: int|
                        0 <= kk < k ==> all_correct_tiles(word_clue(#[trigger] secrets@[kk], w)),
                decreases secrets.len() - k,
            {
                let s = secrets[k];
                if !s.compare_with_guess(w).all_correct() {
                    proof {
                        assert(!all_correct_tiles(word_clue(secrets@[k as int], w)));
                        let g = state.games@[j as int];
                        assert(!g.made_correct_guess);
                        assert(g.possible_secrets@[k as int] == secrets@[k as int]);
                        assert(!is_concluding(state.games@, w));
                    }
                    return false;
                }
                if s == w {
                    proof {
                        crate::clue::lemma_word_ext(s, w);
                    }
                    found = true;
                }
                k = k + 1;
            }
            if !found {
                proof {
                    assert forall|kk: int| 0 <= kk < secrets@.len() implies secrets@[kk] != w by {
                        assert(secrets@[kk].letters@ != w.letters@);
                    }
                    assert(!secrets@.contains(w));
                    assert(!is_concluding(state.games@, w)) by {
                        assert(!games@[j as int].made_correct_guess);
                    }
                }
                return false;
            }
        }
        j = j + 1;
    }
    true
}

impl<const N: usize, const GAMES: usize> MultiGameState<N, GAMES> {
    /// A guess that finishes every unfinished game for certain, if there is
    /// one: see `concluding_guess`.
    pub fn find_concluding_guess(&self) -> (r: Option<Word<N>>)
        ensures
            r == concluding_guess(self.games@),
            r matches Some(w) ==> is_concluding(self.games@, w),
    {
        let mut k: usize = 0;
        while k < self.games.len() && self.games[k].made_correct_guess
            invariant
                k <= self.games@.len(),
                forall|j: int| 0 <= j < k ==> (#[trigger] self.games@[j]).made_correct_guess,
            decreases self.games.len() - k,
        {
            k = k + 1;
        }
        proof {
            lemma_first_unfinished(self.games@);
        }
        if k == self.games.len() {
            assert(k as int == first_unfinished(self.games@));
            return None;
        }
        assert(k as int == first_unfinished(self.games@)) by {
            let fu = first_unfinished(self.games@);
            if fu < k {
                assert(self.games@[fu].made_correct_guess);
            }
            if fu > k {
                assert(self.games@[k as int].made_correct_guess);
            }
        }
        let pool = &self.games[k].possible_secrets;
        proof {
            lemma_first_concluding(self.games@, pool@);
        }
        let mut i: usize = 0;
        while i < pool.len()
            invariant
                i <= pool@.len(),
                k < self.games@.len(),
                k as int == first_unfinished(self.games@),
                pool == &self.games@[k as int].possible_secrets,
                forall|ii: int| 0 <= ii < i ==> !is_concluding(self.games@, #[trigger] pool@[ii]),
            decreases pool.len() - i,
        {
            if check_concluding(self, pool[i]) {
                assert(i as int == first_concluding(self.games@, pool@)) by {
                    lemma_first_concluding(self.games@, pool@);
                    let fc = first_concluding(self.games@, pool@);
                    if fc < i {
                        assert(!is_concluding(self.games@, pool@[fc]));
                    }
                    if fc > i {
                        assert(!is_concluding(self.games@, pool@[i as int]));
                    }
                }
                return Some(pool[i]);
            }
            i = i + 1;
        }
        assert(first_concluding(self.games@, pool@) == pool@.len()) by {
            lemma_first_concluding(self.games@, pool@);
            let fc = first_concluding(self.games@, pool@);
            if fc < pool@.len() {
                assert(!is_concluding(self.games@, pool@[fc]));
            }
        }
        None
    }
}

/// The last unfinished game among the first `n` with the most candidates,
/// or `-1` when all of them are finished.
pub open spec fn worst_game<const N: usize>(games: Seq<GameState<N>>, n: int) -> int
    decreases n,
{
    if n <= 0 {
        -1
    } else {
        let k = worst_game(games, n - 1);
        if games[n - 1].made_correct_guess {
            k
        } else if k < 0 || games[k].possible_secrets@.len() <= games[n
            - 1].possible_secrets@.len() {
            n - 1
        } else {
            k
        }
    }
}

/// The worst score of `guess` over the first `n` games: the largest of their
/// scores, the earliest on ties.
pub open spec fn worst_score<H: HeuristicStrategy<N>, const N: usize>(
    h: &H,
    games: Seq<GameState<N>>,
    guess: Word<N>,
    n: int,
) -> Seq<u128>
    decreases n,
{
    if n <= 1 {
        h.score(games[0]@, guess)
    } else {
        let m = worst_score(h, games, guess, n - 1);
        let x = h.score(games[n - 1]@, guess);
        if lex_lt(m, x) {
            x
        } else {
            m
        }
    }
}

/// The allowed guesses of the first `n` games, one list after the other.
pub open spec fn all_allowed<const N: usize>(games: Seq<GameState<N>>, n: int) -> Seq<Word<N>>
    decreases n,
{
    if n <= 0 {
        Seq::empty()
    } else {
        all_allowed(games, n - 1) + games[n - 1].allowed_guesses@
    }
}

/// `w` is still a candidate of some game.
pub open spec fn in_any_secrets<const N: usize>(games: Seq<GameState<N>>, w: Word<N>) -> bool {
    exists|j: int| 0 <= j < games.len() && (#[trigger] games[j]).possible_secrets@.contains(w)
}

/// The score of `w` across all games: its worst score, then `0` when it is
/// still a candidate somewhere and `1` when not.
pub open spec fn combined_score<H: HeuristicStrategy<N>, const N: usize>(
    h: &H,
    games: Seq<GameState<N>>,
    w: Word<N>,
) -> Seq<u128> {
    worst_score(h, games, w, games.len() as int) + seq![
        if in_any_secrets(games, w) {
            0u128
        } else {
            1u128
        },
    ]
}

/// Plays the first unfinished game with the single-game strategy.
pub struct MultiSequential<S: Strategy<N>, const N: usize> {
    pub single: S,
}

/// Plays a concluding guess when there is one; otherwise plays the
/// unfinished game with the most candidates with the single-game strategy.
pub struct WorkOnWorst<S: Strategy<N>, const N: usize> {
    pub single: S,
}

/// Plays a concluding guess when there is one; otherwise the allowed guess
/// of any game whose worst score over the games is smallest, preferring a
/// word that is still a candidate somewhere.
pub struct MinimizeWorstHeuristic<S: HeuristicStrategy<N>, const N: usize> {
    pub single: S,
}

impl<S: Strategy<N>, const N: usize> MultiSequential<S, N> {
    pub fn new(single: S) -> (r: Self)
        ensures
            r.single == single,
    {
        MultiSequential { single }
    }
}

impl<S: Strategy<N>, const N: usize> WorkOnWorst<S, N> {
    pub fn new(single: S) -> (r: Self)
        ensures
            r.single == single,
    {
        WorkOnWorst { single }
    }
}

impl<S: HeuristicStrategy<N>, const N: usize> MinimizeWorstHeuristic<S, N> {
    pub fn new(single: S) -> (r: Self)
        ensures
            r.single == single,
    {
        MinimizeWorstHeuristic { single }
    }

    /// The worst score of `guess` over all the games.
    pub fn multi_heuristic<const GAMES: usize>(
        &self,
        state: &MultiGameState<N, GAMES>,
        guess: &Word<N>,
    ) -> (r: Vec<u128>)
        requires
            ids_fit(N),
            state.games@.len() > 0,
        ensures
            r@ == worst_score(&self.single, state.games@, *guess, state.games@.len() as int),
    {
        let games = &state.games;
        let mut worst = self.single.heuristic(&games[0], guess);
        let mut j: usize = 1;
        while j < games.len()
            invariant
                ids_fit(N),
                1 <= j <= games@.len(),
                worst@ == worst_score(&self.single, games@, *guess, j as int),
            decreases games.len() - j,
        {
            let x = self.single.heuristic(&games[j], guess);
            if score_less(&worst, &x) {
                worst = x;
            }
            j = j + 1;
        }
        worst
    }
}

/// Whether `w` is still a candidate of some game.
fn candidate_anywhere<const N: usize>(games: &Vec<GameState<N>>, w: &Word<N>) -> (r: bool)
    ensures
        r == in_any_secrets(games@, *w),
{
    let mut j: usize = 0;
    while j < games.len()
        invariant
            j <= games@.len(),
            forall|jj: int| 0 <= jj < j ==> !(#[trigger] games@[jj]).possible_secrets@.contains(*w),
        decreases games.len() - j,
    {
        let secrets = &games[j].possible_secrets;
        let mut k: usize = 0;
        while k < secrets.len()
            invariant
                k <= secrets@.len(),
                j < games@.len(),
                secrets == &games@[j as int].possible_secrets,
                forall|kk: int| 0 <= kk < k ==> (#[trigger] secrets@[kk]).letters@ != w.letters@,
            decreases secrets.len() - k,
        {
            if secrets[k] == *w {
                proof {
                    crate::clue::lemma_word_ext(secrets@[k as int], *w);
                    assert(games@[j as int].possible_secrets@.contains(*w));
                }
                return true;
            }
            k = k + 1;
        }
        assert(!secrets@.contains(*w)) by {
            if secrets@.contains(*w) {
                let kk = choose|kk: int| 0 <= kk < secrets@.len() && secrets@[kk] == *w;
                assert(secrets@[kk].letters@ != w.letters@);
            }
        }
        j = j + 1;
    }
    false
}

/// The allowed guesses of every game, one list after the other.
fn gather_allowed<const N: usize>(games: &Vec<GameState<N>>) -> (r: Vec<Word<N>>)
    ensures
        r@ == all_allowed(games@, games@.len() as int),
{
    let mut pool: Vec<Word<N>> = Vec::new();
    let mut j: usize = 0;
    while j < games.len()
        invariant
            j <= games@.len(),
            pool@ == all_allowed(games@, j as int),
        decreases games.len() - j,
    {
        let allowed = &games[j].allowed_guesses;
        let mut k: usize = 0;
        while k < allowed.len()
            invariant
                k <= allowed@.len(),
                allowed == &games@[j as int].allowed_guesses,
                pool@ == all_allowed(games@, j as int) + allowed@.take(k as int),
            decreases allowed.len() - k,
        {
            pool.push(allowed[k]);
            k = k + 1;
            assert(pool@ =~= all_allowed(games@, j as int) + allowed@.take(k as int));
        }
        assert(allowed@.take(allowed@.len() as int) =~= allowed@);
        j = j + 1;
    }
    pool
}

impl<S: Strategy<N>, const N: usize, const GAMES: usize> MultiStrategy<N, GAMES> for MultiSequential<
    S,
    N,
> {
    open spec fn multi_choice(&self, state: MultiGameState<N, GAMES>) -> Result<Word<N>, Error> {
        let k = first_unfinished(state.games@);
        if k >= state.games@.len() {
            Err(Error::NoWordsRemaining)
        } else {
            self.single.choice(state.games@[k]@)
        }
    }

    fn make_guess(&self, state: &MultiGameState<N, GAMES>) -> (r: Result<Word<N>, Error>) {
        let mut k: usize = 0;
        while k < state.games.len() && state.games[k].made_correct_guess
            invariant
                k <= state.games@.len(),
                forall|j: int| 0 <= j < k ==> (#[trigger] state.games@[j]).made_correct_guess,
            decreases state.games.len() - k,
        {
            k = k + 1;
        }
        proof {
            lemma_first_unfinished(state.games@);
            let fu = first_unfinished(state.games@);
            if fu < k {
                assert(state.games@[fu].made_correct_guess);
            }
            if fu > k && k < state.games@.len() {
                assert(state.games@[k as int].made_correct_guess);
            }
        }
        if k == state.games.len() {
            return Err(Error::NoWordsRemaining);
        }
        self.single.make_guess(&state.games[k])
    }
}

impl<S: Strategy<N>, const N: usize, const GAMES: usize> MultiStrategy<N, GAMES> for WorkOnWorst<
    S,
    N,
> {
    open spec fn multi_choice(&self, state: MultiGameState<N, GAMES>) -> Result<Word<N>, Error> {
        match concluding_guess(state.games@) {
            Some(w) => Ok(w),
            None => {
                let k = worst_game(state.games@, state.games@.len() as int);
                if k < 0 {
                    Err(Error::NoWordsRemaining)
                } else {
                    self.single.choice(state.games@[k]@)
                }
            },
        }
    }

    fn make_guess(&self, state: &MultiGameState<N, GAMES>) -> (r: Result<Word<N>, Error>) {
        if let Some(w) = state.find_concluding_guess() {
            return Ok(w);
        }
        let games = &state.games;
        let mut found = false;
        let mut best: usize = 0;
        let mut j: usize = 0;
        while j < games.len()
            invariant
                j <= games@.len(),
                found ==> best < j,
                worst_game(games@, j as int) == if found {
                    best as int
                } else {
                    -1
                },
            decreases games.len() - j,
        {
            if !games[j].made_correct_guess {
                if !found || games[best].possible_secrets.len() <= games[j].possible_secrets.len() {
                    best = j;
                    found = true;
                }
            }
            j = j + 1;
        }
        if !found {
            return Err(Error::NoWordsRemaining);
        }
        self.single.make_guess(&games[best])
    }
}

impl<S: HeuristicStrategy<N>, const N: usize, const GAMES: usize> MultiStrategy<
    N,
    GAMES,
> for MinimizeWorstHeuristic<S, N> {
    open spec fn multi_choice(&self, state: MultiGameState<N, GAMES>) -> Result<Word<N>, Error> {
        match concluding_guess(state.games@) {
            Some(w) => Ok(w),
            None => {
                let pool = all_allowed(state.games@, state.games@.len() as int);
                if pool.len() == 0 {
                    Err(Error::NoWordsRemaining)
                } else {
                    Ok(
                        pool[first_min_index(
                            pool.map_values(
                                |w: Word<N>| combined_score(&self.single, state.games@, w),
                            ),
                        )],
                    )
                }
            },
        }
    }

    fn make_guess(&self, state: &MultiGameState<N, GAMES>) -> (r: Result<Word<N>, Error>) {
        if let Some(w) = state.find_concluding_guess() {
            return Ok(w);
        }
        let pool = gather_allowed(&state.games);
        if pool.len() == 0 {
            return Err(Error::NoWordsRemaining);
        }
        assert(state.games@.len() > 0) by {
            if state.games@.len() == 0 {
                assert(all_allowed(state.games@, 0).len() == 0);
            }
        }
        let ghost scores = pool@.map_values(
            |w: Word<N>| combined_score(&self.single, state.games@, w),
        );
        let mut best: usize = 0;
        let mut best_score = self.multi_heuristic(state, &pool[0]);
        best_score.push(if candidate_anywhere(&state.games, &pool[0]) {
            0u128
        } else {
            1u128
        });
        assert(best_score@ =~= scores[0]);
        let mut i: usize = 1;
        while i < pool.len()
            invariant
                ids_fit(N),
                state.games@.len() > 0,
                1 <= i <= pool@.len(),
                scores == pool@.map_values(
                    |w: Word<N>| combined_score(&self.single, state.games@, w),
                ),
                best < i,
                best == first_min_index(scores.take(i as int)),
                best_score@ == scores[best as int],
            decreases pool.len() - i,
        {
            let mut s = self.multi_heuristic(state, &pool[i]);
            s.push(if candidate_anywhere(&state.games, &pool[i]) {
                0u128
            } else {
                1u128
            });
            proof {
                assert(scores.take(i + 1).drop_last() =~= scores.take(i as int));
                assert(s@ =~= scores[i as int]);
            }
            if score_less(&s, &best_score) {
                best = i;
                best_score = s;
            }
            i = i + 1;
        }
        assert(scores.take(pool.len() as int) =~= scores);
        Ok(pool[best])
    }
}

} // verus!
