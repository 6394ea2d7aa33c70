use crate::clue::{all_correct_tiles, ids_fit, lemma_clue_tiles_round_trip, pow3, Clue, Tile, Word};
use crate::error::Error;
use crate::game::{copy_words, narrowed, word_clue, GameState, GameView};
use crate::partition::{
    clue_counts, clue_id, count_clues, count_nonzero, count_ones, lemma_count_witness,
    lemma_counts_sum, lemma_filter_no_duplicates, lemma_member_clue, lemma_narrowed_len,
    lemma_solved_group_single, max_count, nonzero_count, ones_count,
    seq_max, seq_sum, squares_sum, sum_squares,
};
use vstd::prelude::*;

verus! {

/// Lexicographic order on scores: `a` comes strictly before `b`.
pub open spec fn lex_lt(a: Seq<u128>, b: Seq<u128>) -> bool
    decreases a.len(),
{
    if a.len() == 0 {
        b.len() > 0
    } else if b.len() == 0 {
        false
    } else if a[0] != b[0] {
        a[0] < b[0]
    } else {
        lex_lt(a.drop_first(), b.drop_first())
    }
}

/// Compares two scores lexicographically.
pub fn score_less(a: &Vec<u128>, b: &Vec<u128>) -> (r: bool)
    ensures
        r == lex_lt(a@, b@),
{
    let mut i: usize = 0;
    assert(a@.skip(0) =~= a@ && b@.skip(0) =~= b@);
    while i < a.len() && i < b.len()
        invariant
            i <= a.len(),
            i <= b.len(),
            lex_lt(a@, b@) == lex_lt(a@.skip(i as int), b@.skip(i as int)),
        decreases a.len() - i,
    {
        if a[i] != b[i] {
            return a[i] < b[i];
        }
        assert(a@.skip(i as int).drop_first() =~= a@.skip(i + 1));
        assert(b@.skip(i as int).drop_first() =~= b@.skip(i + 1));
        i = i + 1;
    }
    i == a.len() && i < b.len()
}

/// The position of the first smallest score (`0` for none).
pub open spec fn first_min_index(scores: Seq<Seq<u128>>) -> int
    decreases scores.len(),
{
    if scores.len() <= 1 {
        0
    } else {
        let k = first_min_index(scores.drop_last());
        if lex_lt(scores.last(), scores[k]) {
            scores.len() - 1
        } else {
            k
        }
    }
}

/// A strategy: picks the next guess for a single game.
pub trait Strategy<const N: usize> {
    /// The guess this strategy makes in `state`.
    spec fn choice(&self, state: GameView<N>) -> Result<Word<N>, Error>;

    /// Picks a guess. With no candidate left it fails; with one left it
    /// guesses that candidate.
    fn make_guess(&self, state: &GameState<N>) -> (r: Result<Word<N>, Error>)
        requires
            ids_fit(N),
        ensures
            r == self.choice(state@),
            state.possible_secrets@.len() == 0 ==> r == Err::<Word<N>, Error>(
                Error::NoWordsRemaining,
            ),
            state.possible_secrets@.len() == 1 ==> r == Ok::<Word<N>, Error>(
                state.possible_secrets@[0],
            ),
    ;
}

/// The view of a game after `guess` received `clue`.
pub open spec fn after_view<const N: usize>(v: GameView<N>, guess: Word<N>, clue: Seq<Tile>) -> GameView<N> {
    GameView {
        made_correct_guess: v.made_correct_guess || all_correct_tiles(clue),
        allowed_guesses: v.allowed_guesses,
        possible_secrets: narrowed(v.possible_secrets, guess, clue),
    }
}

/// The guesses `strategy` makes from game `v` when `secret` is the secret,
/// up to and including the one that gets the all-`Correct` clue. It fails
/// with the strategy's error, or with `NoProgress` when a guess neither
/// solves the game nor removes a candidate.
pub open spec fn run_from<S: Strategy<N>, const N: usize>(
    strategy: &S,
    v: GameView<N>,
    secret: Word<N>,
) -> Result<Seq<Word<N>>, Error>
    decreases v.possible_secrets.len(),
{
    match strategy.choice(v) {
        Err(e) => Err(e),
        Ok(g) => {
            let c = word_clue(secret, g);
            if all_correct_tiles(c) {
                Ok(seq![g])
            } else if after_view(v, g, c).possible_secrets.len() < v.possible_secrets.len() {
                with_prefix(seq![g], run_from(strategy, after_view(v, g, c), secret))
            } else {
                Err(Error::NoProgress)
            }
        },
    }
}

/// `r` with the guesses `p` put in front of it.
pub open spec fn with_prefix<const N: usize>(p: Seq<Word<N>>, r: Result<Seq<Word<N>>, Error>) -> Result<
    Seq<Word<N>>,
    Error,
> {
    match r {
        Ok(q) => Ok(p + q),
        Err(e) => Err(e),
    }
}

/// A pending search state: it holds candidates, all of them candidates of
/// `init`, and for each its run from `init` is `path` followed by its run
/// from the state.
pub open spec fn pending<S: Strategy<N>, const N: usize>(
    strategy: &S,
    init: GameView<N>,
    path: Seq<Word<N>>,
    st: GameView<N>,
) -> bool {
    &&& st.possible_secrets.len() > 0
    &&& forall|w: Word<N>| #[trigger]
        st.possible_secrets.contains(w) ==> init.possible_secrets.contains(w) && run_from(
            strategy,
            init,
            w,
        ) == with_prefix(path, run_from(strategy, st, w))
}

/// Some path is the run from `init` against `w`.
pub open spec fn run_listed<S: Strategy<N>, const N: usize>(
    strategy: &S,
    init: GameView<N>,
    paths: Seq<Vec<Word<N>>>,
    w: Word<N>,
) -> bool {
    exists|p: int|
        0 <= p < paths.len() && run_from(strategy, init, w) == Ok::<Seq<Word<N>>, Error>(
            (#[trigger] paths[p])@,
        )
}

/// Every path is the run from `init` against one of its candidates.
pub open spec fn paths_are_runs<S: Strategy<N>, const N: usize>(
    strategy: &S,
    init: GameView<N>,
    paths: Seq<Vec<Word<N>>>,
) -> bool {
    forall|p: int|
        0 <= p < paths.len() ==> exists|w: Word<N>|
            init.possible_secrets.contains(w) && run_from(strategy, init, w) == Ok::<
                Seq<Word<N>>,
                Error,
            >((#[trigger] paths[p])@)
}

proof fn lemma_run_listed_push<S: Strategy<N>, const N: usize>(
    strategy: &S,
    init: GameView<N>,
    paths: Seq<Vec<Word<N>>>,
    x: Vec<Word<N>>,
    w: Word<N>,
)
    requires
        run_listed(strategy, init, paths, w) || run_from(strategy, init, w) == Ok::<
            Seq<Word<N>>,
            Error,
        >(x@),
    ensures
        run_listed(strategy, init, paths.push(x), w),
{
    let p2 = paths.push(x);
    if run_listed(strategy, init, paths, w) {
        let p = choose|p: int|
            0 <= p < paths.len() && run_from(strategy, init, w) == Ok::<Seq<Word<N>>, Error>(
                (#[trigger] paths[p])@,
            );
        assert(p2[p] == paths[p]);
    } else {
        assert(p2[paths.len() as int] == x);
    }
}

/// Follows `strategy` from `initial_state` along every distinct clue that
/// the candidates can give, and returns the guesses of each path that ends
/// in the all-`Correct` clue: exactly the runs of the strategy against the
/// candidates (see `run_from`), one path per candidate when no candidate is
/// listed twice. The search keeps its pending states on an explicit stack.
/// It succeeds when the run against every candidate does, and otherwise
/// fails with the error of a failing run.
pub fn deterministic_strategy_results<S: Strategy<N>, const N: usize>(
    strategy: &S,
    initial_state: GameState<N>,
) -> (r: Result<Vec<Vec<Word<N>>>, Error>)
    requires
        ids_fit(N),
    ensures
        initial_state.possible_secrets@.len() == 0 ==> r == Err::<Vec<Vec<Word<N>>>, Error>(
            Error::NoWordsRemaining,
        ),
        initial_state.possible_secrets@.len() > 0 && (forall|w: Word<N>|
            #[trigger] initial_state.possible_secrets@.contains(w) ==> run_from(
                strategy,
                initial_state@,
                w,
            ) is Ok) ==> r is Ok,
        r matches Err(e) ==> initial_state.possible_secrets@.len() == 0 || exists|w: Word<N>|
            #[trigger] initial_state.possible_secrets@.contains(w) && run_from(
                strategy,
                initial_state@,
                w,
            ) == Err::<Seq<Word<N>>, Error>(e),
        r matches Ok(paths) ==> forall|w: Word<N>| #[trigger]
            initial_state.possible_secrets@.contains(w) ==> run_listed(
                strategy,
                initial_state@,
                paths@,
                w,
            ),
        r matches Ok(paths) ==> paths_are_runs(strategy, initial_state@, paths@),
        initial_state.possible_secrets@.no_duplicates() ==> (r matches Ok(paths) ==> paths@.len()
            == initial_state.possible_secrets@.len()),
{
    let ghost init = initial_state@;
    if initial_state.possible_secrets.len() == 0 {
        return Err(Error::NoWordsRemaining);
    }
    let mut final_paths: Vec<Vec<Word<N>>> = Vec::new();
    let mut stack: Vec<(Vec<Word<N>>, GameState<N>)> = Vec::new();
    let first_path: Vec<Word<N>> = Vec::new();
    proof {
        assert forall|w: Word<N>| #[trigger] init.possible_secrets.contains(w) implies run_from(
            strategy,
            init,
            w,
        ) == with_prefix(first_path@, run_from(strategy, init, w)) by {
            match run_from(strategy, init, w) {
                Ok(q) => {
                    assert(first_path@ + q =~= q);
                },
                Err(_) => {},
            }
        }
    }
    stack.push((first_path, initial_state));
    proof {
        assert forall|w: Word<N>| #[trigger] init.possible_secrets.contains(w) implies in_some_state(
            stack@,
            w,
        ) || run_listed(strategy, init, final_paths@, w) by {
            assert(stack@[0].1.possible_secrets@.contains(w));
        }
        assert(stack@.drop_last() =~= Seq::<(Vec<Word<N>>, GameState<N>)>::empty());
        assert(stack_total(Seq::<(Vec<Word<N>>, GameState<N>)>::empty()) == 0);
        assert(stack@.last().1.possible_secrets@ == init.possible_secrets);
        assert(stack_total(stack@) == init.possible_secrets.len());
    }
    while stack.len() > 0
        invariant
            ids_fit(N),
            init == initial_state@,
            forall|k: int|
                0 <= k < stack@.len() ==> pending(
                    strategy,
                    init,
                    (#[trigger] stack@[k]).0@,
                    stack@[k].1@,
                ),
            paths_are_runs(strategy, init, final_paths@),
            forall|w: Word<N>| #[trigger]
                init.possible_secrets.contains(w) ==> in_some_state(stack@, w) || run_listed(
                    strategy,
                    init,
                    final_paths@,
                    w,
                ),
            init.possible_secrets.no_duplicates() ==> final_paths@.len() + stack_total(stack@)
                == init.possible_secrets.len() && stack_no_duplicates(stack@),
        decreases stack_weight(stack@),
    {
        let ghost before = stack_weight(stack@);
        let ghost old_stack = stack@;
        let (mut path, state) = stack.pop().unwrap();
        let ghost path_before = path@;
        proof {
            assert(stack@ =~= old_stack.drop_last());
            assert(old_stack[old_stack.len() - 1] == (path, state));
            assert(pending(strategy, init, path_before, state@));
            if init.possible_secrets.no_duplicates() {
                assert(state.possible_secrets@.no_duplicates());
                assert forall|k: int| 0 <= k < stack@.len() implies (#[trigger] stack@[k]).1.possible_secrets@.no_duplicates() by {
                    assert(stack@[k] == old_stack[k]);
                }
            }
            assert forall|k: int| 0 <= k < stack@.len() implies pending(
                strategy,
                init,
                (#[trigger] stack@[k]).0@,
                stack@[k].1@,
            ) by {
                assert(stack@[k] == old_stack[k]);
            }
            assert forall|w: Word<N>| #[trigger] init.possible_secrets.contains(w) implies in_some_state(
                stack@,
                w,
            ) || run_listed(strategy, init, final_paths@, w) || state.possible_secrets@.contains(
                w,
            ) by {
                if in_some_state(old_stack, w) {
                    lemma_in_some_state_pop(old_stack, w);
                }
            }
        }
        let ghost rest = stack_weight(stack@);
        let ghost base = final_paths@.len() + stack_total(stack@);
        let guess = match strategy.make_guess(&state) {
            Ok(g) => g,
            Err(e) => {
                proof {
                    let w = state.possible_secrets@[0];
                    assert(state.possible_secrets@.contains(w));
                    assert(run_from(strategy, state@, w) == Err::<Seq<Word<N>>, Error>(e));
                }
                return Err(e);
            },
        };
        path.push(guess);
        let secrets_left = state.possible_secrets.len();
        let counts = count_clues(&state.possible_secrets, &guess);
        let ghost cn = clue_counts(state.possible_secrets@, guess);
        proof {
            lemma_counts_sum(state.possible_secrets@, guess);
            assert(counts@.map_values(|x: usize| x as nat) =~= cn);
        }
        let mut c: usize = 0;
        while c < counts.len()
            invariant
                ids_fit(N),
                init == initial_state@,
                counts@.len() == pow3(N as nat),
                cn == clue_counts(state.possible_secrets@, guess),
                forall|j: int| 0 <= j < counts@.len() ==> counts@[j] == cn[j],
                seq_sum(cn) == secrets_left,
                secrets_left == state.possible_secrets@.len(),
                secrets_left >= 1,
                strategy.choice(state@) == Ok::<Word<N>, Error>(guess),
                pending(strategy, init, path_before, state@),
                path@ == path_before.push(guess),
                c <= counts.len(),
                stack_weight(stack@) <= rest + (secrets_left - 1) * seq_sum(cn.take(c as int)),
                rest + secrets_left * secrets_left == before,
                forall|k: int|
                    0 <= k < stack@.len() ==> pending(
                        strategy,
                        init,
                        (#[trigger] stack@[k]).0@,
                        stack@[k].1@,
                    ),
                paths_are_runs(strategy, init, final_paths@),
                forall|w: Word<N>| #[trigger]
                    init.possible_secrets.contains(w) ==> in_some_state(stack@, w) || run_listed(
                        strategy,
                        init,
                        final_paths@,
                        w,
                    ) || (state.possible_secrets@.contains(w) && clue_id(w, guess) >= c),
                init.possible_secrets.no_duplicates() ==> base + secrets_left
                    == init.possible_secrets.len() && state.possible_secrets@.no_duplicates()
                    && final_paths@.len() + stack_total(stack@) == base + seq_sum(
                    cn.take(c as int),
                ) && stack_no_duplicates(stack@),
            decreases counts.len() - c,
        {
            let ghost sum_before = seq_sum(cn.take(c as int));
            proof {
                assert(cn.take(c + 1).drop_last() =~= cn.take(c as int));
                assert(seq_sum(cn.take(c + 1)) == sum_before + cn[c as int]);
                let m = (secrets_left - 1) as nat;
                let x = cn[c as int];
                assert(m * sum_before <= m * (sum_before + x)) by (nonlinear_arith);
            }
            if counts[c] > 0 {
                let clue = Clue::<N>::from_id(c);
                if clue.all_correct() {
                    let ghost pre_paths = final_paths@;
                    let copied = copy_words(&path);
                    final_paths.push(copied);
                    proof {
                        assert(final_paths@ == pre_paths.push(copied));
                        // Every candidate in this group is the guess, whose run ends here.
                        assert forall|w: Word<N>|
                            #[trigger] state.possible_secrets@.contains(w) && clue_id(w, guess)
                                == c implies init.possible_secrets.contains(w) && run_from(
                            strategy,
                            init,
                            w,
                        ) == Ok::<Seq<Word<N>>, Error>(copied@) by {
                            lemma_member_clue(state.possible_secrets@, guess, w, c as nat);
                            assert(run_from(strategy, state@, w) == Ok::<Seq<Word<N>>, Error>(
                                seq![guess],
                            ));
                            assert(path_before + seq![guess] =~= copied@);
                        }
                        lemma_count_witness(state.possible_secrets@, guess, c as int);
                        let i = choose|i: int|
                            0 <= i < state.possible_secrets@.len() && clue_id(
                                state.possible_secrets@[i],
                                guess,
                            ) == c;
                        let sw = state.possible_secrets@[i];
                        assert(state.possible_secrets@.contains(sw));
                        assert forall|p: int| 0 <= p < final_paths@.len() implies exists|w: Word<N>|
                            init.possible_secrets.contains(w) && run_from(strategy, init, w)
                                == Ok::<Seq<Word<N>>, Error>((#[trigger] final_paths@[p])@) by {
                            if p < pre_paths.len() {
                                assert(final_paths@[p] == pre_paths[p]);
                            } else {
                                assert(final_paths@[p] == copied);
                                assert(init.possible_secrets.contains(sw) && run_from(
                                    strategy,
                                    init,
                                    sw,
                                ) == Ok::<Seq<Word<N>>, Error>(copied@));
                            }
                        }
                        assert forall|w: Word<N>| #[trigger]
                            init.possible_secrets.contains(w) implies in_some_state(stack@, w)
                            || run_listed(strategy, init, final_paths@, w) || (
                        state.possible_secrets@.contains(w) && clue_id(w, guess) >= c + 1) by {
                            if state.possible_secrets@.contains(w) && clue_id(w, guess) == c {
                                lemma_run_listed_push(strategy, init, pre_paths, copied, w);
                            } else if run_listed(strategy, init, pre_paths, w) {
                                lemma_run_listed_push(strategy, init, pre_paths, copied, w);
                            }
                        }
                        if init.possible_secrets.no_duplicates() {
                            lemma_solved_group_single(state.possible_secrets@, guess, c as nat);
                        }
                    }
                } else {
                    if counts[c] == secrets_left {
                        proof {
                            lemma_count_witness(state.possible_secrets@, guess, c as int);
                            let i = choose|i: int|
                                0 <= i < state.possible_secrets@.len() && clue_id(
                                    state.possible_secrets@[i],
                                    guess,
                                ) == c;
                            let sw = state.possible_secrets@[i];
                            assert(state.possible_secrets@.contains(sw));
                            lemma_member_clue(state.possible_secrets@, guess, sw, c as nat);
                            lemma_narrowed_len(state.possible_secrets@, guess, c as nat);
                            assert(run_from(strategy, state@, sw) == Err::<Seq<Word<N>>, Error>(
                                Error::NoProgress,
                            ));
                            assert(init.possible_secrets.contains(sw));
                        }
                        return Err(Error::NoProgress);
                    }
                    let child = state.after_guess(guess, clue);
                    proof {
                        lemma_narrowed_len(state.possible_secrets@, guess, c as nat);
                        assert(child@ == after_view(state@, guess, clue.tiles@));
                        assert forall|w: Word<N>| #[trigger]
                            child.possible_secrets@.contains(w) implies init.possible_secrets.contains(
                            w,
                        ) && run_from(strategy, init, w) == with_prefix(
                            path@,
                            run_from(strategy, child@, w),
                        ) by {
                            crate::game::lemma_narrowing_keeps_consistent(
                                state.possible_secrets@,
                                guess,
                                clue.tiles@,
                                w,
                            );
                            assert(run_from(strategy, state@, w) == with_prefix(
                                seq![guess],
                                run_from(strategy, child@, w),
                            ));
                            match run_from(strategy, child@, w) {
                                Ok(q) => {
                                    assert(path_before + (seq![guess] + q) =~= path@ + q);
                                },
                                Err(_) => {},
                            }
                        }
                        assert(pending(strategy, init, path@, child@));
                        if init.possible_secrets.no_duplicates() {
                            lemma_filter_no_duplicates(
                                state.possible_secrets@,
                                |s: Word<N>| word_clue(s, guess) == clue.tiles@,
                            );
                        }
                        let m = (secrets_left - 1) as nat;
                        let x = cn[c as int];
                        assert(x <= m);
                        assert(x * x <= m * x) by (nonlinear_arith)
                            requires
                                x <= m,
                        ;
                        assert(m * (sum_before + x) == m * sum_before + m * x) by (nonlinear_arith);
                    }
                    let ghost pre = stack@;
                    let copied = copy_words(&path);
                    let entry = (copied, child);
                    let ghost entry_view = entry;
                    stack.push(entry);
                    proof {
                        assert(stack@ == pre.push(entry_view));
                        assert forall|k: int| 0 <= k < stack@.len() implies pending(
                            strategy,
                            init,
                            (#[trigger] stack@[k]).0@,
                            stack@[k].1@,
                        ) by {
                            if k < pre.len() {
                                assert(stack@[k] == pre[k]);
                            }
                        }
                        assert forall|w: Word<N>| #[trigger]
                            init.possible_secrets.contains(w) implies in_some_state(stack@, w)
                            || run_listed(strategy, init, final_paths@, w) || (
                        state.possible_secrets@.contains(w) && clue_id(w, guess) >= c + 1) by {
                            if state.possible_secrets@.contains(w) && clue_id(w, guess) == c {
                                lemma_member_clue(state.possible_secrets@, guess, w, c as nat);
                                crate::game::lemma_narrowing_keeps_consistent(
                                    state.possible_secrets@,
                                    guess,
                                    clue.tiles@,
                                    w,
                                );
                                lemma_in_some_state_push(pre, entry_view, w);
                            } else if in_some_state(pre, w) {
                                lemma_in_some_state_push(pre, entry_view, w);
                            }
                        }
                        assert(stack@.drop_last() =~= pre);
                        if init.possible_secrets.no_duplicates() {
                            assert forall|k: int| 0 <= k < stack@.len() implies (#[trigger] stack@[k]).1.possible_secrets@.no_duplicates() by {
                                if k < pre.len() {
                                    assert(stack@[k] == pre[k]);
                                }
                            }
                        }
                    }
                }
            } else {
                proof {
                    assert forall|w: Word<N>| #[trigger]
                        init.possible_secrets.contains(w) implies in_some_state(stack@, w)
                        || run_listed(strategy, init, final_paths@, w) || (
                    state.possible_secrets@.contains(w) && clue_id(w, guess) >= c + 1) by {
                        if state.possible_secrets@.contains(w) && clue_id(w, guess) == c {
                            lemma_member_clue(state.possible_secrets@, guess, w, c as nat);
                        }
                    }
                }
            }
            c = c + 1;
        }
        proof {
            assert forall|w: Word<N>| #[trigger] init.possible_secrets.contains(w) implies in_some_state(
                stack@,
                w,
            ) || run_listed(strategy, init, final_paths@, w) by {
                if state.possible_secrets@.contains(w) {
                    lemma_clue_tiles_round_trip(word_clue(w, guess));
                }
            }
            assert(cn.take(counts.len() as int) =~= cn);
            let m = (secrets_left - 1) as nat;
            let s = secrets_left as nat;
            assert(m * s < s * s) by (nonlinear_arith)
                requires
                    m + 1 == s,
            ;
        }
    }
    Ok(final_paths)
}

/// The number of candidates held by the states of the stack, all together.
pub open spec fn stack_total<const N: usize>(stack: Seq<(Vec<Word<N>>, GameState<N>)>) -> nat
    decreases stack.len(),
{
    if stack.len() == 0 {
        0
    } else {
        stack_total(stack.drop_last()) + stack.last().1.possible_secrets@.len()
    }
}

/// No state of the stack holds a candidate twice.
pub open spec fn stack_no_duplicates<const N: usize>(stack: Seq<(Vec<Word<N>>, GameState<N>)>) -> bool {
    forall|k: int| 0 <= k < stack.len() ==> (#[trigger] stack[k]).1.possible_secrets@.no_duplicates()
}

/// `w` is a candidate of some state on the stack.
pub open spec fn in_some_state<const N: usize>(
    stack: Seq<(Vec<Word<N>>, GameState<N>)>,
    w: Word<N>,
) -> bool {
    exists|k: int| 0 <= k < stack.len() && (#[trigger] stack[k]).1.possible_secrets@.contains(w)
}

proof fn lemma_in_some_state_push<const N: usize>(
    stack: Seq<(Vec<Word<N>>, GameState<N>)>,
    x: (Vec<Word<N>>, GameState<N>),
    w: Word<N>,
)
    requires
        in_some_state(stack, w) || x.1.possible_secrets@.contains(w),
    ensures
        in_some_state(stack.push(x), w),
{
    let s2 = stack.push(x);
    if in_some_state(stack, w) {
        let k = choose|k: int| 0 <= k < stack.len() && (#[trigger] stack[k]).1.possible_secrets@.contains(w);
        assert(s2[k] == stack[k]);
    } else {
        assert(s2[stack.len() as int] == x);
    }
}

proof fn lemma_in_some_state_pop<const N: usize>(stack: Seq<(Vec<Word<N>>, GameState<N>)>, w: Word<N>)
    requires
        stack.len() > 0,
        in_some_state(stack, w),
    ensures
        in_some_state(stack.drop_last(), w) || stack.last().1.possible_secrets@.contains(w),
{
    let k = choose|k: int| 0 <= k < stack.len() && (#[trigger] stack[k]).1.possible_secrets@.contains(w);
    if k < stack.len() - 1 {
        assert(stack.drop_last()[k] == stack[k]);
    }
}

/// The square of a number.
pub open spec fn sq(x: nat) -> nat {
    x * x
}

/// The weight of a search stack: the sum of the squared candidate counts of
/// its states. Each step replaces a state of `s` candidates by states of
/// fewer candidates that together hold at most `s`, which lowers it.
pub open spec fn stack_weight<const N: usize>(stack: Seq<(Vec<Word<N>>, GameState<N>)>) -> nat
    decreases stack.len(),
{
    if stack.len() == 0 {
        0
    } else {
        stack_weight(stack.drop_last()) + sq(stack.last().1.possible_secrets@.len())
    }
}

/// A strategy that scores each word of a pool and guesses the first word
/// with the smallest score.
pub trait HeuristicStrategy<const N: usize> {
    /// The score of `guess` in `state`; smaller is better.
    spec fn score(&self, state: GameView<N>, guess: Word<N>) -> Seq<u128>;

    /// The words that are scored in `state`.
    spec fn options(&self, state: GameView<N>) -> Seq<Word<N>>;

    fn heuristic(&self, state: &GameState<N>, guess: &Word<N>) -> (r: Vec<u128>)
        requires
            ids_fit(N),
        ensures
            r@ == self.score(state@, *guess),
    ;

    fn word_options<'a>(&self, state: &'a GameState<N>) -> (r: &'a Vec<Word<N>>)
        ensures
            r@ == self.options(state@),
    ;
}

/// The scores of the words of `pool`.
pub open spec fn pool_scores<H: HeuristicStrategy<N>, const N: usize>(
    h: &H,
    state: GameView<N>,
    pool: Seq<Word<N>>,
) -> Seq<Seq<u128>> {
    pool.map_values(|w: Word<N>| h.score(state, w))
}

/// The guess of a heuristic strategy: the single candidate when one is
/// left, else the first word of the pool with the smallest score.
pub open spec fn heuristic_choice<H: HeuristicStrategy<N>, const N: usize>(
    h: &H,
    state: GameView<N>,
) -> Result<Word<N>, Error> {
    let secrets = state.possible_secrets;
    let pool = h.options(state);
    if secrets.len() == 0 {
        Err(Error::NoWordsRemaining)
    } else if secrets.len() == 1 {
        Ok(secrets[0])
    } else if pool.len() == 0 {
        Err(Error::NoWordsRemaining)
    } else {
        Ok(pool[first_min_index(pool_scores(h, state, pool))])
    }
}

/// With a single candidate left, every heuristic strategy guesses it,
/// whatever its pool and scores.
pub proof fn lemma_single_candidate<H: HeuristicStrategy<N>, const N: usize>(h: &H, state: GameView<N>)
    requires
        state.possible_secrets.len() == 1,
    ensures
        heuristic_choice(h, state) == Ok::<Word<N>, Error>(state.possible_secrets[0]),
{
}

/// Guesses as a heuristic strategy does: see `heuristic_choice`.
pub fn guess_by_heuristic<H: HeuristicStrategy<N>, const N: usize>(
    h: &H,
    state: &GameState<N>,
) -> (r: Result<Word<N>, Error>)
    requires
        ids_fit(N),
    ensures
        r == heuristic_choice(h, state@),
{
    if state.possible_secrets.len() == 0 {
        return Err(Error::NoWordsRemaining);
    }
    if state.possible_secrets.len() == 1 {
        return Ok(state.possible_secrets[0]);
    }
    let pool = h.word_options(state);
    if pool.len() == 0 {
        return Err(Error::NoWordsRemaining);
    }
    let ghost scores = pool_scores(h, state@, pool@);
    let mut best: usize = 0;
    let mut best_score = h.heuristic(state, &pool[0]);
    let mut i: usize = 1;
    while i < pool.len()
        invariant
            ids_fit(N),
            1 <= i <= pool.len(),
            scores == pool_scores(h, state@, pool@),
            best < i,
            best == first_min_index(scores.take(i as int)),
            best_score@ == scores[best as int],
        decreases pool.len() - i,
    {
        let s = h.heuristic(state, &pool[i]);
        proof {
            assert(scores.take(i + 1).drop_last() =~= scores.take(i as int));
        }
        if score_less(&s, &best_score) {
            best = i;
            best_score = s;
        }
        i = i + 1;
    }
    assert(scores.take(pool.len() as int) =~= scores);
    Ok(pool[best])
}

impl<H: HeuristicStrategy<N>, const N: usize> Strategy<N> for H {
    open spec fn choice(&self, state: GameView<N>) -> Result<Word<N>, Error> {
        heuristic_choice(self, state)
    }

    fn make_guess(&self, state: &GameState<N>) -> (r: Result<Word<N>, Error>) {
        guess_by_heuristic(self, state)
    }
}

/// A score made of one number.
fn single_score(x: u128) -> (r: Vec<u128>)
    ensures
        r@ == seq![x],
{
    let mut r: Vec<u128> = Vec::new();
    r.push(x);
    assert(r@ =~= seq![x]);
    r
}

/// Guesses the word whose worst clue leaves the fewest candidates.
pub struct MiniMax;

/// Guesses the word that can get the most distinct clues.
pub struct MinimizeMean;

/// Guesses the word with the smallest sum of squared group sizes, which is
/// proportional to the expected number of candidates left.
pub struct MinimizeSumSquares;

/// Guesses the word that leaves the most candidates alone in their group,
/// each of which could then be guessed at once.
pub struct EarlyGuesses;

/// Guesses the first remaining candidate in alphabetical order.
pub struct AlphabeticalOrder;

impl<const N: usize> HeuristicStrategy<N> for MiniMax {
    open spec fn score(&self, state: GameView<N>, guess: Word<N>) -> Seq<u128> {
        seq![seq_max(clue_counts(state.possible_secrets, guess)) as u128]
    }

    open spec fn options(&self, state: GameView<N>) -> Seq<Word<N>> {
        state.allowed_guesses
    }

    fn heuristic(&self, state: &GameState<N>, guess: &Word<N>) -> (r: Vec<u128>) {
        let counts = count_clues(&state.possible_secrets, guess);
        assert(counts@.map_values(|x: usize| x as nat) =~= clue_counts(
            state.possible_secrets@,
            *guess,
        ));
        single_score(max_count(&counts) as u128)
    }

    fn word_options<'a>(&self, state: &'a GameState<N>) -> (r: &'a Vec<Word<N>>) {
        &state.allowed_guesses
    }
}

impl<const N: usize> HeuristicStrategy<N> for MinimizeMean {
    open spec fn score(&self, state: GameView<N>, guess: Word<N>) -> Seq<u128> {
        seq![(u128::MAX - count_nonzero(clue_counts(state.possible_secrets, guess))) as u128]
    }

    open spec fn options(&self, state: GameView<N>) -> Seq<Word<N>> {
        state.allowed_guesses
    }

    fn heuristic(&self, state: &GameState<N>, guess: &Word<N>) -> (r: Vec<u128>) {
        let counts = count_clues(&state.possible_secrets, guess);
        assert(counts@.map_values(|x: usize| x as nat) =~= clue_counts(
            state.possible_secrets@,
            *guess,
        ));
        single_score(u128::MAX - nonzero_count(&counts) as u128)
    }

    fn word_options<'a>(&self, state: &'a GameState<N>) -> (r: &'a Vec<Word<N>>) {
        &state.allowed_guesses
    }
}

impl<const N: usize> HeuristicStrategy<N> for MinimizeSumSquares {
    open spec fn score(&self, state: GameView<N>, guess: Word<N>) -> Seq<u128> {
        seq![sum_squares(clue_counts(state.possible_secrets, guess)) as u128]
    }

    open spec fn options(&self, state: GameView<N>) -> Seq<Word<N>> {
        state.allowed_guesses
    }

    fn heuristic(&self, state: &GameState<N>, guess: &Word<N>) -> (r: Vec<u128>) {
        let counts = count_clues(&state.possible_secrets, guess);
        assert(counts@.map_values(|x: usize| x as nat) =~= clue_counts(
            state.possible_secrets@,
            *guess,
        ));
        proof {
            lemma_counts_sum(state.possible_secrets@, *guess);
            assert(state.possible_secrets@.len() == state.possible_secrets.len());
        }
        single_score(squares_sum(&counts))
    }

    fn word_options<'a>(&self, state: &'a GameState<N>) -> (r: &'a Vec<Word<N>>) {
        &state.allowed_guesses
    }
}

impl<const N: usize> HeuristicStrategy<N> for EarlyGuesses {
    open spec fn score(&self, state: GameView<N>, guess: Word<N>) -> Seq<u128> {
        seq![(u128::MAX - count_ones(clue_counts(state.possible_secrets, guess))) as u128]
    }

    open spec fn options(&self, state: GameView<N>) -> Seq<Word<N>> {
        state.allowed_guesses
    }

    fn heuristic(&self, state: &GameState<N>, guess: &Word<N>) -> (r: Vec<u128>) {
        let counts = count_clues(&state.possible_secrets, guess);
        assert(counts@.map_values(|x: usize| x as nat) =~= clue_counts(
            state.possible_secrets@,
            *guess,
        ));
        single_score(u128::MAX - ones_count(&counts) as u128)
    }

    fn word_options<'a>(&self, state: &'a GameState<N>) -> (r: &'a Vec<Word<N>>) {
        &state.allowed_guesses
    }
}

/// The letters of a word as a score, so that scores order words alphabetically.
pub open spec fn word_key<const N: usize>(w: Word<N>) -> Seq<u128> {
    w.letters@.map_values(|l: u8| l as u128)
}

impl<const N: usize> HeuristicStrategy<N> for AlphabeticalOrder {
    open spec fn score(&self, state: GameView<N>, guess: Word<N>) -> Seq<u128> {
        word_key(guess)
    }

    open spec fn options(&self, state: GameView<N>) -> Seq<Word<N>> {
        state.possible_secrets
    }

    fn heuristic(&self, state: &GameState<N>, guess: &Word<N>) -> (r: Vec<u128>) {
        let mut r: Vec<u128> = Vec::new();
        let mut i: usize = 0;
        while i < N
            invariant
                guess.letters@.len() == N,
                i <= N,
                r@ == word_key(*guess).take(i as int),
            decreases N - i,
        {
            r.push(guess.letters[i] as u128);
            i = i + 1;
            assert(r@ =~= word_key(*guess).take(i as int));
        }
        assert(word_key(*guess).take(N as int) =~= word_key(*guess));
        r
    }

    fn word_options<'a>(&self, state: &'a GameState<N>) -> (r: &'a Vec<Word<N>>) {
        &state.possible_secrets
    }
}

} // verus!
