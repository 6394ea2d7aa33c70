use crate::clue::Word;
use crate::game::{GameState, GameView};
use crate::multi::MultiGameState;
use crate::multi_strategy::{MinimizeWorstHeuristic, MultiSequential, MultiStrategy, WorkOnWorst};
use crate::notation::{chars_of, string_of_chars};
use crate::strategy::{
    AlphabeticalOrder, EarlyGuesses, HeuristicStrategy, MiniMax, MinimizeMean, MinimizeSumSquares,
};
use crate::error::Error;
use vstd::prelude::*;

verus! {

/// One of the single-game strategies, chosen by name.
#[derive(Debug, Clone, Copy, PartialEq, Eq, Structural)]
pub enum NamedStrategy {
    MiniMax,
    MinimizeMean,
    MinimizeSumSquares,
    EarlyGuesses,
    AlphabeticalOrder,
}

/// The name of a single-game strategy.
pub open spec fn strategy_name(s: NamedStrategy) -> Seq<char> {
    match s {
        NamedStrategy::MiniMax => "MiniMax"@,
        NamedStrategy::MinimizeMean => "MinimizeMean"@,
        NamedStrategy::MinimizeSumSquares => "MinimizeSumSquares"@,
        NamedStrategy::EarlyGuesses => "EarlyGuesses"@,
        NamedStrategy::AlphabeticalOrder => "AlphabeticalOrder"@,
    }
}

/// The single-game strategies in registry order.
pub open spec fn strategy_at(k: int) -> NamedStrategy {
    if k == 0 {
        NamedStrategy::MiniMax
    } else if k == 1 {
        NamedStrategy::MinimizeMean
    } else if k == 2 {
        NamedStrategy::MinimizeSumSquares
    } else if k == 3 {
        NamedStrategy::EarlyGuesses
    } else {
        NamedStrategy::AlphabeticalOrder
    }
}

impl NamedStrategy {
    /// The name of this strategy.
    pub fn name(&self) -> (r: String)
        ensures
            r@ == strategy_name(*self),
    {
        match self {
            NamedStrategy::MiniMax => "MiniMax".to_owned(),
            NamedStrategy::MinimizeMean => "MinimizeMean".to_owned(),
            NamedStrategy::MinimizeSumSquares => "MinimizeSumSquares".to_owned(),
            NamedStrategy::EarlyGuesses => "EarlyGuesses".to_owned(),
            NamedStrategy::AlphabeticalOrder => "AlphabeticalOrder".to_owned(),
        }
    }
}

impl<const N: usize> HeuristicStrategy<N> for NamedStrategy {
    open spec fn score(&self, state: GameView<N>, guess: Word<N>) -> Seq<u128> {
        match self {
            NamedStrategy::MiniMax => <MiniMax as HeuristicStrategy<N>>::score(&MiniMax, state, guess),
            NamedStrategy::MinimizeMean => <MinimizeMean as HeuristicStrategy<N>>::score(
                &MinimizeMean,
                state,
                guess,
            ),
            NamedStrategy::MinimizeSumSquares => <MinimizeSumSquares as HeuristicStrategy<
                N,
            >>::score(&MinimizeSumSquares, state, guess),
            NamedStrategy::EarlyGuesses => <EarlyGuesses as HeuristicStrategy<N>>::score(
                &EarlyGuesses,
                state,
                guess,
            ),
            NamedStrategy::AlphabeticalOrder => <AlphabeticalOrder as HeuristicStrategy<
                N,
            >>::score(&AlphabeticalOrder, state, guess),
        }
    }

    open spec fn options(&self, state: GameView<N>) -> Seq<Word<N>> {
        match self {
            NamedStrategy::AlphabeticalOrder => state.possible_secrets,
            _ => state.allowed_guesses,
        }
    }

    fn heuristic(&self, state: &GameState<N>, guess: &Word<N>) -> (r: Vec<u128>) {
        match self {
            NamedStrategy::MiniMax => <MiniMax as HeuristicStrategy<N>>::heuristic(
                &MiniMax,
                state,
                guess,
            ),
            NamedStrategy::MinimizeMean => <MinimizeMean as HeuristicStrategy<N>>::heuristic(
                &MinimizeMean,
                state,
                guess,
            ),
            NamedStrategy::MinimizeSumSquares => <MinimizeSumSquares as HeuristicStrategy<
                N,
            >>::heuristic(&MinimizeSumSquares, state, guess),
            NamedStrategy::EarlyGuesses => <EarlyGuesses as HeuristicStrategy<N>>::heuristic(
                &EarlyGuesses,
                state,
                guess,
            ),
            NamedStrategy::AlphabeticalOrder => <AlphabeticalOrder as HeuristicStrategy<
                N,
            >>::heuristic(&AlphabeticalOrder, state, guess),
        }
    }

    fn word_options<'a>(&self, state: &'a GameState<N>) -> (r: &'a Vec<Word<N>>) {
        match self {
            NamedStrategy::AlphabeticalOrder => &state.possible_secrets,
            _ => &state.allowed_guesses,
        }
    }
}

impl NamedStrategy {
    /// The single-game strategy called `name`, if there is one.
    pub fn by_name(name: &str) -> (r: Option<NamedStrategy>)
        ensures
            r matches Some(s) ==> strategy_name(s) == name@,
            r is None ==> forall|k: int| 0 <= k < 5 ==> strategy_name(strategy_at(k)) != name@,
    {
        let wanted = name.to_owned();
        let all = all_strategies();
        let mut k: usize = 0;
        while k < all.len()
            invariant
                all@.len() == 5,
                k <= 5,
                wanted@ == name@,
                forall|i: int|
                    0 <= i < 5 ==> (#[trigger] all@[i]).1 == strategy_at(i) && all@[i].0@
                        == strategy_name(strategy_at(i)),
                forall|i: int| 0 <= i < k ==> strategy_name(strategy_at(i)) != name@,
            decreases 5 - k,
        {
            if all[k].0 == wanted {
                return Some(all[k].1);
            }
            k = k + 1;
        }
        None
    }
}

/// Every single-game strategy with its name, in a fixed order.
pub fn all_strategies() -> (r: Vec<(String, NamedStrategy)>)
    ensures
        r@.len() == 5,
        forall|k: int|
            0 <= k < 5 ==> (#[trigger] r@[k]).1 == strategy_at(k) && r@[k].0@ == strategy_name(
                strategy_at(k),
            ),
{
    let all = [
        NamedStrategy::MiniMax,
        NamedStrategy::MinimizeMean,
        NamedStrategy::MinimizeSumSquares,
        NamedStrategy::EarlyGuesses,
        NamedStrategy::AlphabeticalOrder,
    ];
    let mut r: Vec<(String, NamedStrategy)> = Vec::new();
    let mut k: usize = 0;
    while k < 5
        invariant
            k <= 5,
            r@.len() == k,
            forall|i: int| 0 <= i < 5 ==> #[trigger] all@[i] == strategy_at(i),
            forall|i: int|
                0 <= i < k ==> (#[trigger] r@[i]).1 == strategy_at(i) && r@[i].0@ == strategy_name(
                    strategy_at(i),
                ),
        decreases 5 - k,
    {
        let s = all[k];
        r.push((s.name(), s));
        k = k + 1;
    }
    r
}

/// How a multi-game strategy uses its single-game strategy.
#[derive(Debug, Clone, Copy, PartialEq, Eq, Structural)]
pub enum Composition {
    MultiSequential,
    WorkOnWorst,
    MinimizeWorstHeuristic,
}

/// The name of a composition.
pub open spec fn composition_name(c: Composition) -> Seq<char> {
    match c {
        Composition::MultiSequential => "MultiSequential"@,
        Composition::WorkOnWorst => "WorkOnWorst"@,
        Composition::MinimizeWorstHeuristic => "MinimizeWorstHeuristic"@,
    }
}

/// The compositions in registry order.
pub open spec fn composition_at(k: int) -> Composition {
    if k == 0 {
        Composition::MultiSequential
    } else if k == 1 {
        Composition::WorkOnWorst
    } else {
        Composition::MinimizeWorstHeuristic
    }
}

/// A multi-game strategy built from a composition and a single-game strategy.
pub enum NamedMultiStrategy<const N: usize> {
    MultiSequential(MultiSequential<NamedStrategy, N>),
    WorkOnWorst(WorkOnWorst<NamedStrategy, N>),
    MinimizeWorstHeuristic(MinimizeWorstHeuristic<NamedStrategy, N>),
}

impl<const N: usize> NamedMultiStrategy<N> {
    /// The composition `c` of `single`.
    pub fn compose(c: Composition, single: NamedStrategy) -> (r: Self)
        ensures
            r.composition() == c,
            r.single() == single,
    {
        match c {
            Composition::MultiSequential => NamedMultiStrategy::MultiSequential(
                MultiSequential::new(single),
            ),
            Composition::WorkOnWorst => NamedMultiStrategy::WorkOnWorst(WorkOnWorst::new(single)),
            Composition::MinimizeWorstHeuristic => NamedMultiStrategy::MinimizeWorstHeuristic(
                MinimizeWorstHeuristic::new(single),
            ),
        }
    }

    pub open spec fn composition(&self) -> Composition {
        match self {
            NamedMultiStrategy::MultiSequential(_) => Composition::MultiSequential,
            NamedMultiStrategy::WorkOnWorst(_) => Composition::WorkOnWorst,
            NamedMultiStrategy::MinimizeWorstHeuristic(_) => Composition::MinimizeWorstHeuristic,
        }
    }

    pub open spec fn single(&self) -> NamedStrategy {
        match self {
            NamedMultiStrategy::MultiSequential(m) => m.single,
            NamedMultiStrategy::WorkOnWorst(m) => m.single,
            NamedMultiStrategy::MinimizeWorstHeuristic(m) => m.single,
        }
    }
}

impl<const N: usize, const GAMES: usize> MultiStrategy<N, GAMES> for NamedMultiStrategy<N> {
    open spec fn multi_choice(&self, state: MultiGameState<N, GAMES>) -> Result<Word<N>, Error> {
        match self {
            NamedMultiStrategy::MultiSequential(m) => <MultiSequential<
                NamedStrategy,
                N,
            > as MultiStrategy<N, GAMES>>::multi_choice(m, state),
            NamedMultiStrategy::WorkOnWorst(m) => <WorkOnWorst<
                NamedStrategy,
                N,
            > as MultiStrategy<N, GAMES>>::multi_choice(m, state),
            NamedMultiStrategy::MinimizeWorstHeuristic(m) => <MinimizeWorstHeuristic<
                NamedStrategy,
                N,
            > as MultiStrategy<N, GAMES>>::multi_choice(m, state),
        }
    }

    fn make_guess(&self, state: &MultiGameState<N, GAMES>) -> (r: Result<Word<N>, Error>) {
        match self {
            NamedMultiStrategy::MultiSequential(m) => <MultiSequential<
                NamedStrategy,
                N,
            > as MultiStrategy<N, GAMES>>::make_guess(m, state),
            NamedMultiStrategy::WorkOnWorst(m) => <WorkOnWorst<
                NamedStrategy,
                N,
            > as MultiStrategy<N, GAMES>>::make_guess(m, state),
            NamedMultiStrategy::MinimizeWorstHeuristic(m) => <MinimizeWorstHeuristic<
                NamedStrategy,
                N,
            > as MultiStrategy<N, GAMES>>::make_guess(m, state),
        }
    }
}

/// The multi-game strategy called `name` (`<composition>-<strategy>`), if
/// there is one.
pub fn multi_strategy_by_name<const N: usize>(name: &str) -> (r: Option<NamedMultiStrategy<N>>)
    ensures
        r matches Some(m) ==> composition_name(m.composition()) + "-"@ + strategy_name(m.single())
            == name@,
        r is None ==> forall|k: int|
            #![trigger composition_at(k / 5), strategy_at(k % 5)]
            0 <= k < 15 ==> composition_name(composition_at(k / 5)) + "-"@ + strategy_name(
                strategy_at(k % 5),
            ) != name@,
{
    let wanted = name.to_owned();
    let mut all = all_multi_strategies::<N>();
    let mut k: usize = 0;
    while k < all.len()
        invariant
            all@.len() == 15,
            k <= 15,
            wanted@ == name@,
            forall|i: int|
                0 <= i < 15 ==> {
                    &&& (#[trigger] all@[i]).1.composition() == composition_at(i / 5)
                    &&& all@[i].1.single() == strategy_at(i % 5)
                    &&& all@[i].0@ == composition_name(composition_at(i / 5)) + "-"@
                        + strategy_name(strategy_at(i % 5))
                },
            forall|i: int|
                #![trigger composition_at(i / 5), strategy_at(i % 5)]
                0 <= i < k ==> composition_name(composition_at(i / 5)) + "-"@ + strategy_name(
                    strategy_at(i % 5),
                ) != name@,
        decreases 15 - k,
    {
        if all[k].0 == wanted {
            let (_, m) = all.remove(k);
            return Some(m);
        }
        k = k + 1;
    }
    None
}

/// Every composition of every single-game strategy, named
/// `<composition>-<strategy>`, compositions in order and strategies in
/// order within each.
pub fn all_multi_strategies<const N: usize>() -> (r: Vec<(String, NamedMultiStrategy<N>)>)
    ensures
        r@.len() == 15,
        forall|k: int|
            0 <= k < 15 ==> {
                &&& (#[trigger] r@[k]).1.composition() == composition_at(k / 5)
                &&& r@[k].1.single() == strategy_at(k % 5)
                &&& r@[k].0@ == composition_name(composition_at(k / 5)) + "-"@ + strategy_name(
                    strategy_at(k % 5),
                )
            },
{
    let comps = [
        Composition::MultiSequential,
        Composition::WorkOnWorst,
        Composition::MinimizeWorstHeuristic,
    ];
    let comp_names = ["MultiSequential", "WorkOnWorst", "MinimizeWorstHeuristic"];
    let singles = all_strategies();
    let dash = chars_of("-");
    proof {
        reveal_strlit("-");
    }
    assert(dash@.len() == 1);
    let mut r: Vec<(String, NamedMultiStrategy<N>)> = Vec::new();
    let mut c: usize = 0;
    while c < 3
        invariant
            c <= 3,
            r@.len() == 5 * c,
            singles@.len() == 5,
            dash@ == "-"@,
            dash@.len() == 1,
            forall|i: int|
                0 <= i < 5 ==> (#[trigger] singles@[i]).1 == strategy_at(i) && singles@[i].0@
                    == strategy_name(strategy_at(i)),
            forall|i: int| 0 <= i < 3 ==> #[trigger] comps@[i] == composition_at(i),
            forall|i: int| 0 <= i < 3 ==> (#[trigger] comp_names@[i])@ == composition_name(composition_at(i)),
            forall|k: int|
                0 <= k < 5 * c ==> {
                    &&& (#[trigger] r@[k]).1.composition() == composition_at(k / 5)
                    &&& r@[k].1.single() == strategy_at(k % 5)
                    &&& r@[k].0@ == composition_name(composition_at(k / 5)) + "-"@
                        + strategy_name(strategy_at(k % 5))
                },
        decreases 3 - c,
    {
        proof {
            reveal_strlit("-");
            reveal_strlit("MultiSequential");
            reveal_strlit("WorkOnWorst");
            reveal_strlit("MinimizeWorstHeuristic");
        }
        let prefix = chars_of(comp_names[c]);
        let mut b: usize = 0;
        while b < 5
            invariant
                c < 3,
                b <= 5,
                r@.len() == 5 * c + b,
                singles@.len() == 5,
                dash@ == "-"@,
                dash@.len() == 1,
                prefix@ == composition_name(composition_at(c as int)),
                forall|i: int|
                    0 <= i < 5 ==> (#[trigger] singles@[i]).1 == strategy_at(i) && singles@[i].0@
                        == strategy_name(strategy_at(i)),
                forall|i: int| 0 <= i < 3 ==> #[trigger] comps@[i] == composition_at(i),
                forall|i: int| 0 <= i < 3 ==> (#[trigger] comp_names@[i])@ == composition_name(composition_at(i)),
                forall|k: int|
                    0 <= k < 5 * c + b ==> {
                        &&& (#[trigger] r@[k]).1.composition() == composition_at(k / 5)
                        &&& r@[k].1.single() == strategy_at(k % 5)
                        &&& r@[k].0@ == composition_name(composition_at(k / 5)) + "-"@
                            + strategy_name(strategy_at(k % 5))
                    },
            decreases 5 - b,
        {
            let base = singles[b].1;
            let base_name = chars_of(singles[b].0.as_str());
            let mut name = Vec::new();
            let mut i: usize = 0;
            while i < prefix.len()
                invariant
                    i <= prefix@.len(),
                    name@ == prefix@.take(i as int),
                decreases prefix.len() - i,
            {
                name.push(prefix[i]);
                i = i + 1;
                assert(name@ =~= prefix@.take(i as int));
            }
            assert(prefix@.take(prefix@.len() as int) =~= prefix@);
            name.push(dash[0]);
            assert(name@ =~= prefix@ + dash@ + base_name@.take(0));
            let mut i: usize = 0;
            while i < base_name.len()
                invariant
                    i <= base_name@.len(),
                    name@ == prefix@ + dash@ + base_name@.take(i as int),
                    dash@.len() == 1,
                decreases base_name.len() - i,
            {
                name.push(base_name[i]);
                i = i + 1;
                assert(name@ =~= prefix@ + dash@ + base_name@.take(i as int));
            }
            assert(base_name@.take(base_name@.len() as int) =~= base_name@);
            let entry = NamedMultiStrategy::compose(comps[c], base);
            r.push((string_of_chars(&name), entry));
            proof {
                let k = 5 * c + b;
                assert(k / 5 == c as int && k % 5 == b as int);
            }
            b = b + 1;
        }
        c = c + 1;
    }
    r
}

} // verus!
