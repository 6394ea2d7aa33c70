use crate::clue::{all_correct_tiles, Clue, Word};
use crate::game::{narrow_words, narrowed, word_clue, GameState};
use crate::partition::seq_max;
use vstd::prelude::*;
use vstd::seq_lib::{commutative_foldl, lemma_fold_left_permutation, to_multiset_len};

verus! {

/// `GAMES` puzzles played together: every guess goes to all of them, and
/// each answers with its own clue.
#[derive(Debug, Clone)]
pub struct MultiGameState<const N: usize, const GAMES: usize> {
    pub games: Vec<GameState<N>>,
}

/// Product of the numbers.
pub open spec fn nat_product(s: Seq<nat>) -> nat
    decreases s.len(),
{
    if s.len() == 0 {
        1
    } else {
        nat_product(s.drop_last()) * s.last()
    }
}

/// Product of the numbers, a zero counting as one.
pub open spec fn nonzero_product(s: Seq<nat>) -> nat
    decreases s.len(),
{
    if s.len() == 0 {
        1
    } else {
        nonzero_product(s.drop_last()) * if s.last() == 0 {
            1
        } else {
            s.last()
        }
    }
}

/// The number of candidates of each game.
pub open spec fn candidate_counts<const N: usize>(games: Seq<GameState<N>>) -> Seq<nat> {
    games.map_values(|g: GameState<N>| g.possible_secrets@.len())
}

/// The number of candidates each game keeps when `guess` is played and game
/// `j` has secret `secrets[j]`.
pub open spec fn remaining_counts<const N: usize>(
    games: Seq<GameState<N>>,
    secrets: Seq<Word<N>>,
    guess: Word<N>,
) -> Seq<nat> {
    Seq::new(
        games.len(),
        |j: int| narrowed(games[j].possible_secrets@, guess, word_clue(secrets[j], guess)).len(),
    )
}

/// How hard the secrets are: for each secret played as the first guess, the
/// product of the candidates left in every game; the largest such product.
pub open spec fn difficulty<const N: usize>(games: Seq<GameState<N>>, secrets: Seq<Word<N>>) -> nat {
    seq_max(
        Seq::new(
            secrets.len(),
            |i: int| nat_product(remaining_counts(games, secrets, secrets[i])),
        ),
    )
}

proof fn lemma_nonzero_product_prefix(s: Seq<nat>, k: int)
    requires
        0 <= k <= s.len(),
    ensures
        nonzero_product(s.take(k)) <= nonzero_product(s),
        nonzero_product(s.take(k)) >= 1,
    decreases s.len() - k,
{
    if k < s.len() {
        lemma_nonzero_product_prefix(s, k + 1);
        let t = s.take(k + 1);
        assert(t.drop_last() =~= s.take(k));
        let p = nonzero_product(s.take(k));
        let f: nat = if t.last() == 0 {
            1
        } else {
            t.last()
        };
        assert(p <= p * f) by (nonlinear_arith)
            requires
                f >= 1,
        ;
    } else {
        assert(s.take(k) =~= s);
        lemma_nonzero_product_positive(s);
    }
}

proof fn lemma_nonzero_product_positive(s: Seq<nat>)
    ensures
        nonzero_product(s) >= 1,
    decreases s.len(),
{
    if s.len() > 0 {
        lemma_nonzero_product_positive(s.drop_last());
        let p = nonzero_product(s.drop_last());
        let f: nat = if s.last() == 0 {
            1
        } else {
            s.last()
        };
        assert(p * f >= 1) by (nonlinear_arith)
            requires
                p >= 1,
                f >= 1,
        ;
    }
}


/// How many of `candidates` remain when `guess` is played against `secret`.
pub open spec fn left_after<const N: usize>(
    candidates: Seq<Word<N>>,
    guess: Word<N>,
    secret: Word<N>,
) -> nat {
    narrowed(candidates, guess, word_clue(secret, guess)).len()
}

/// One factor of the product of the candidates left by `guess`.
pub open spec fn product_step<const N: usize>(candidates: Seq<Word<N>>, guess: Word<N>) -> spec_fn(
    nat,
    Word<N>,
) -> nat {
    |acc: nat, t: Word<N>| acc * left_after(candidates, guess, t)
}

/// The product of the candidates left in games holding `candidates` with
/// secrets `secrets` when `guess` is played.
pub open spec fn left_product<const N: usize>(
    candidates: Seq<Word<N>>,
    secrets: Seq<Word<N>>,
    guess: Word<N>,
) -> nat {
    secrets.fold_left(1, product_step(candidates, guess))
}

/// One step of the largest product over the guesses.
pub open spec fn max_step<const N: usize>(candidates: Seq<Word<N>>, secrets: Seq<Word<N>>) -> spec_fn(
    nat,
    Word<N>,
) -> nat {
    |acc: nat, g: Word<N>|
        if acc < left_product(candidates, secrets, g) {
            left_product(candidates, secrets, g)
        } else {
            acc
        }
}

proof fn lemma_product_fold<const N: usize>(
    games: Seq<GameState<N>>,
    secrets: Seq<Word<N>>,
    candidates: Seq<Word<N>>,
    guess: Word<N>,
    k: int,
)
    requires
        games.len() == secrets.len(),
        0 <= k <= secrets.len(),
        forall|j: int| 0 <= j < games.len() ==> (#[trigger] games[j]).possible_secrets@ == candidates,
    ensures
        nat_product(remaining_counts(games, secrets, guess).take(k)) == secrets.take(k).fold_left(
            1,
            product_step(candidates, guess),
        ),
    decreases k,
{
    let rc = remaining_counts(games, secrets, guess);
    if k == 0 {
        assert(rc.take(0).len() == 0);
        assert(secrets.take(0).len() == 0);
    } else {
        lemma_product_fold(games, secrets, candidates, guess, k - 1);
        assert(rc.take(k).drop_last() =~= rc.take(k - 1));
        assert(secrets.take(k).drop_last() =~= secrets.take(k - 1));
        assert(games[k - 1].possible_secrets@ == candidates);
    }
}

proof fn lemma_difficulty_fold<const N: usize>(
    games: Seq<GameState<N>>,
    secrets: Seq<Word<N>>,
    candidates: Seq<Word<N>>,
    k: int,
)
    requires
        games.len() == secrets.len(),
        0 <= k <= secrets.len(),
        forall|j: int| 0 <= j < games.len() ==> (#[trigger] games[j]).possible_secrets@ == candidates,
    ensures
        seq_max(
            Seq::new(
                secrets.len(),
                |i: int| nat_product(remaining_counts(games, secrets, secrets[i])),
            ).take(k),
        ) == secrets.take(k).fold_left(0, max_step(candidates, secrets)),
    decreases k,
{
    let all = Seq::new(
        secrets.len(),
        |i: int| nat_product(remaining_counts(games, secrets, secrets[i])),
    );
    if k == 0 {
        assert(all.take(0).len() == 0);
        assert(secrets.take(0).len() == 0);
    } else {
        lemma_difficulty_fold(games, secrets, candidates, k - 1);
        assert(all.take(k).drop_last() =~= all.take(k - 1));
        assert(secrets.take(k).drop_last() =~= secrets.take(k - 1));
        let g = secrets[k - 1];
        lemma_product_fold(games, secrets, candidates, g, secrets.len() as int);
        assert(remaining_counts(games, secrets, g).take(secrets.len() as int) =~= remaining_counts(
            games,
            secrets,
            g,
        ));
        assert(secrets.take(secrets.len() as int) =~= secrets);
    }
}

/// With every game holding the same candidates, the difficulty of a set of
/// secrets does not depend on the order in which they are given.
pub proof fn lemma_difficulty_order_free<const N: usize>(
    games: Seq<GameState<N>>,
    secrets: Seq<Word<N>>,
    reordered: Seq<Word<N>>,
)
    requires
        games.len() == secrets.len(),
        reordered.to_multiset() == secrets.to_multiset(),
        forall|j: int, k: int|
            0 <= j < games.len() && 0 <= k < games.len() ==> (#[trigger] games[j]).possible_secrets@
                == (#[trigger] games[k]).possible_secrets@,
    ensures
        difficulty(games, secrets) == difficulty(games, reordered),
{
    to_multiset_len(secrets);
    to_multiset_len(reordered);
    if games.len() == 0 {
        assert(Seq::new(0, |i: int| nat_product(remaining_counts(games, secrets, secrets[i])))
            =~= Seq::<nat>::empty());
        assert(Seq::new(0, |i: int| nat_product(remaining_counts(games, reordered, reordered[i])))
            =~= Seq::<nat>::empty());
    } else {
        let c = games[0].possible_secrets@;
        assert forall|j: int| 0 <= j < games.len() implies (#[trigger] games[j]).possible_secrets@
            == c by {
            assert(games[j].possible_secrets@ == games[0].possible_secrets@);
        }
        let n = secrets.len() as int;
        lemma_difficulty_fold(games, secrets, c, n);
        lemma_difficulty_fold(games, reordered, c, n);
        assert(secrets.take(n) =~= secrets);
        assert(reordered.take(n) =~= reordered);
        let a = Seq::new(
            secrets.len(),
            |i: int| nat_product(remaining_counts(games, secrets, secrets[i])),
        );
        let b = Seq::new(
            reordered.len(),
            |i: int| nat_product(remaining_counts(games, reordered, reordered[i])),
        );
        assert(a.take(n) =~= a);
        assert(b.take(n) =~= b);
        assert forall|g: Word<N>| #[trigger] left_product(c, secrets, g) == left_product(
            c,
            reordered,
            g,
        ) by {
            let f = product_step(c, g);
            assert forall|x: Word<N>, y: Word<N>, v: nat| #[trigger] f(f(v, x), y) == f(f(v, y), x) by {
                let p = left_after(c, g, x);
                let q = left_after(c, g, y);
                assert((v * p) * q == (v * q) * p) by (nonlinear_arith);
            }
            assert(commutative_foldl(f));
            lemma_fold_left_permutation(secrets, reordered, f, 1);
        }
        let m1 = max_step(c, secrets);
        let m2 = max_step(c, reordered);
        assert(m1 =~= m2);
        assert forall|x: Word<N>, y: Word<N>, v: nat| #[trigger] m1(m1(v, x), y) == m1(m1(v, y), x) by {}
        assert(commutative_foldl(m1));
        lemma_fold_left_permutation(secrets, reordered, m1, 0);
    }
}

impl<const N: usize, const GAMES: usize> MultiGameState<N, GAMES> {
    /// Well-formed: there is one state for each of the `GAMES` games.
    pub open spec fn wf(&self) -> bool {
        self.games@.len() == GAMES
    }

    /// `GAMES` copies of `single`.
    pub fn new(single: GameState<N>) -> (r: Self)
        ensures
            r.wf(),
            forall|j: int|
                0 <= j < GAMES ==> {
                    &&& (#[trigger] r.games@[j]).made_correct_guess == single.made_correct_guess
                    &&& r.games@[j].allowed_guesses@ == single.allowed_guesses@
                    &&& r.games@[j].possible_secrets@ == single.possible_secrets@
                },
    {
        let mut games: Vec<GameState<N>> = Vec::new();
        let mut j: usize = 0;
        while j < GAMES
            invariant
                j <= GAMES,
                games@.len() == j,
                forall|k: int|
                    0 <= k < j ==> {
                        &&& (#[trigger] games@[k]).made_correct_guess == single.made_correct_guess
                        &&& games@[k].allowed_guesses@ == single.allowed_guesses@
                        &&& games@[k].possible_secrets@ == single.possible_secrets@
                    },
            decreases GAMES - j,
        {
            games.push(single.duplicate());
            j = j + 1;
        }
        MultiGameState { games }
    }

    /// True when every game is finished.
    pub fn is_finished(&self) -> (r: bool)
        ensures
            r == forall|j: int|
                0 <= j < self.games@.len() ==> (#[trigger] self.games@[j]).made_correct_guess,
    {
        let mut j: usize = 0;
        while j < self.games.len()
            invariant
                j <= self.games@.len(),
                forall|k: int| 0 <= k < j ==> (#[trigger] self.games@[k]).made_correct_guess,
            decreases self.games.len() - j,
        {
            if !self.games[j].is_finished() {
                return false;
            }
            j = j + 1;
        }
        true
    }

    /// The state after `guess` was played and game `j` answered `clues[j]`.
    pub fn after_guess(&self, guess: Word<N>, clues: [Clue<N>; GAMES]) -> (r: Self)
        requires
            self.wf(),
        ensures
            r.wf(),
            forall|j: int|
                0 <= j < GAMES ==> {
                    &&& (#[trigger] r.games@[j]).allowed_guesses@
                        == self.games@[j].allowed_guesses@
                    &&& r.games@[j].possible_secrets@ == narrowed(
                        self.games@[j].possible_secrets@,
                        guess,
                        clues@[j].tiles@,
                    )
                    &&& r.games@[j].made_correct_guess == (self.games@[j].made_correct_guess
                        || all_correct_tiles(clues@[j].tiles@))
                },
    {
        let mut games: Vec<GameState<N>> = Vec::new();
        let mut j: usize = 0;
        while j < GAMES
            invariant
                j <= GAMES,
                self.games@.len() == GAMES,
                games@.len() == j,
                forall|k: int|
                    0 <= k < j ==> {
                        &&& (#[trigger] games@[k]).allowed_guesses@
                            == self.games@[k].allowed_guesses@
                        &&& games@[k].possible_secrets@ == narrowed(
                            self.games@[k].possible_secrets@,
                            guess,
                            clues@[k].tiles@,
                        )
                        &&& games@[k].made_correct_guess == (self.games@[k].made_correct_guess
                            || all_correct_tiles(clues@[k].tiles@))
                    },
            decreases GAMES - j,
        {
            games.push(self.games[j].after_guess(guess, clues[j]));
            j = j + 1;
        }
        MultiGameState { games }
    }

    /// For each of the secrets played as the guess, the product over the
    /// games of the candidates left; returns the largest product.
    pub fn estimate_difficulty(&self, secret_words: [Word<N>; GAMES]) -> (r: usize)
        requires
            self.wf(),
            nonzero_product(candidate_counts(self.games@)) <= usize::MAX,
        ensures
            r == difficulty(self.games@, secret_words@),
    {
        let ghost full = candidate_counts(self.games@);
        let ghost all = Seq::new(
            GAMES as nat,
            |i: int| nat_product(remaining_counts(self.games@, secret_words@, secret_words@[i])),
        );
        let mut best: usize = 0;
        let mut i: usize = 0;
        while i < GAMES
            invariant
                i <= GAMES,
                self.games@.len() == GAMES,
                secret_words@.len() == GAMES,
                full == candidate_counts(self.games@),
                nonzero_product(full) <= usize::MAX,
                all == Seq::new(
                    GAMES as nat,
                    |i: int|
                        nat_product(remaining_counts(self.games@, secret_words@, secret_words@[i])),
                ),
                best == seq_max(all.take(i as int)),
            decreases GAMES - i,
        {
            let guess = secret_words[i];
            let ghost rem = remaining_counts(self.games@, secret_words@, guess);
            let mut product: usize = 1;
            let mut j: usize = 0;
            while j < GAMES
                invariant
                    j <= GAMES,
                    self.games@.len() == GAMES,
                    secret_words@.len() == GAMES,
                    full == candidate_counts(self.games@),
                    nonzero_product(full) <= usize::MAX,
                    rem == remaining_counts(self.games@, secret_words@, guess),
                    product == nat_product(rem.take(j as int)),
                    product <= nonzero_product(full.take(j as int)),
                decreases GAMES - j,
            {
                let clue = secret_words[j].compare_with_guess(guess);
                let left = narrow_words(&self.games[j].possible_secrets, guess, clue);
                proof {
                    assert(rem.take(j + 1).drop_last() =~= rem.take(j as int));
                    assert(full.take(j + 1).drop_last() =~= full.take(j as int));
                    lemma_nonzero_product_prefix(full, j + 1);
                    crate::game::lemma_narrowing_keeps_subset(
                        self.games@[j as int].possible_secrets@,
                        guess,
                        clue.tiles@,
                        guess,
                    );
                    let p = product as nat;
                    let x = left@.len();
                    let q = nonzero_product(full.take(j as int));
                    let f: nat = if full[j as int] == 0 {
                        1
                    } else {
                        full[j as int]
                    };
                    assert(x <= f);
                    assert(p * x <= q * f) by (nonlinear_arith)
                        requires
                            p <= q,
                            x <= f,
                    ;
                }
                product = product * left.len();
                j = j + 1;
            }
            proof {
                assert(rem.take(GAMES as int) =~= rem);
                assert(all.take(i + 1).drop_last() =~= all.take(i as int));
            }
            if best < product {
                best = product;
            }
            i = i + 1;
        }
        assert(all.take(GAMES as int) =~= all);
        best
    }
}

} // verus!
