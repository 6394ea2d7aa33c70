use std::collections::HashSet;

use rand_chacha::rand_core::SeedableRng;
use rand_chacha::ChaCha8Rng;
use wordle::multi_strategy::{MinimizeWorstHeuristic, MultiSequential, MultiStrategy, WorkOnWorst};
use wordle::partition::count_clues;
use wordle::strategy::{
    deterministic_strategy_results, AlphabeticalOrder, EarlyGuesses, HeuristicStrategy, MiniMax,
    MinimizeMean, MinimizeSumSquares, Strategy,
};
use wordle::{Clue, Error, GameState, MultiGameState, Tile, Word};

fn word(s: &str) -> Word<5> {
    s.parse().unwrap()
}

fn clue(s: &str) -> Clue<5> {
    s.parse().unwrap()
}

fn words(list: &[&str]) -> Vec<Word<5>> {
    list.iter().map(|s| word(s)).collect()
}

fn state(list: &[&str]) -> GameState<5> {
    GameState {
        made_correct_guess: false,
        allowed_guesses: words(list),
        possible_secrets: words(list),
    }
}

#[test]
fn test_compare_apple_table() {
    let secret: Word<5> = "apple".parse().unwrap();
    let guess: Word<5> = "table".parse().unwrap();
    assert_eq!(secret.compare_with_guess(guess), clue("_Y_GG"));
}

#[test]
fn test_compare_farts_ghost() {
    let secret: Word<5> = "farts".parse().unwrap();
    let guess: Word<5> = "ghost".parse().unwrap();
    assert_eq!(secret.compare_with_guess(guess), clue("___YY"));
}

#[test]
fn gameplay_test_after_guess() {
    let secret: Vec<Word<5>> = ["apple", "table", "farts", "ghost"]
        .iter()
        .map(|s| s.parse())
        .collect::<Result<_, _>>()
        .unwrap();
    let before = GameState {
        made_correct_guess: false,
        allowed_guesses: secret.clone(),
        possible_secrets: secret,
    };
    let after = before.after_guess("chart".parse().unwrap(), "_G__G".parse().unwrap());

    assert_eq!(after.possible_secrets, vec!["ghost".parse::<Word<5>>().unwrap()]);
}

#[test]
fn test_clue_id() {
    let mut all_clues = HashSet::new();
    for id in 0..243 {
        let clue: Clue<5> = Clue::from_id(id);
        let roundtrip_id = clue.id();
        assert_eq!(id, roundtrip_id);
        all_clues.insert(clue);
    }

    assert_eq!(all_clues.len(), 243);
}

#[test]
fn repeated_letters_use_the_budget_left_to_right() {
    let res = word("APPLE").compare_with_guess(word("PAPER"));
    assert_eq!(res.to_string(), "YYGY_");
    let res = word("ABBEY").compare_with_guess(word("BUBBA"));
    assert_eq!(res.to_string(), "Y_G_Y");
}

#[test]
fn a_word_against_itself_is_all_correct() {
    for s in ["APPLE", "ZZZZZ", "ABCDE"] {
        let c = word(s).compare_with_guess(word(s));
        assert!(c.all_correct());
        assert_eq!(c, word(s).compare_with_guess(word(s)));
    }
    assert!(!word("APPLE").compare_with_guess(word("APPLY")).all_correct());
}

#[test]
fn clue_ids_are_base_three_digits() {
    assert_eq!(Clue::<5>::num_clues(), 243);
    assert_eq!(clue("GGGGG").id(), 0);
    assert_eq!(clue("____Y").id(), 2 * 81 + 2 * 27 + 2 * 9 + 2 * 3 + 1);
    assert_eq!(clue("Y____").id(), 81 + 2 * 27 + 2 * 9 + 2 * 3 + 2);
    assert_eq!(clue("_____").id(), 242);
    assert_eq!(Clue::<5>::from_id(242), clue("_____"));
    assert_eq!(Clue::<5>::from_id(1), clue("GGGGY"));
}

#[test]
fn text_round_trips() {
    for s in ["GY_GY", "_____", "GGGGG"] {
        assert_eq!(clue(s).to_string(), s);
    }
    assert_eq!(word("crane").to_string(), "CRANE");
    assert_eq!(word("CrAnE").to_string(), "CRANE");
    assert_eq!(word("CRANE").letters, [2, 17, 0, 13, 4]);
}

#[test]
fn parse_errors() {
    assert!(matches!("crane1".parse::<Word<5>>(), Err(Error::InvalidString(s)) if s == "crane1"));
    assert!(matches!("cran".parse::<Word<5>>(), Err(Error::IncorrectStringLength)));
    assert!(matches!("GGGG".parse::<Clue<5>>(), Err(Error::IncorrectStringLength)));
    assert!(matches!("GGXGGG".parse::<Clue<5>>(), Err(Error::NotTileChar('X'))));
    assert!(matches!(Tile::from_char('Y'), Ok(Tile::WrongPosition)));
    assert!(matches!(Tile::from_char('y'), Err(Error::NotTileChar('y'))));
}

#[test]
fn narrowing_keeps_a_subset() {
    let s = state(&["apple", "table", "farts", "ghost", "cable"]);
    let guess = word("table");
    for secret in s.possible_secrets.clone() {
        let c = secret.compare_with_guess(guess);
        let after = s.after_guess(guess, c);
        assert!(after.possible_secrets.contains(&secret));
        assert!(after.possible_secrets.iter().all(|w| s.possible_secrets.contains(w)));
        assert_eq!(after.allowed_guesses, s.allowed_guesses);
        assert_eq!(after.is_finished(), secret == guess);
    }
}

#[test]
fn minimax_with_one_candidate_guesses_it() {
    let s = GameState {
        made_correct_guess: false,
        allowed_guesses: words(&["apple", "table"]),
        possible_secrets: words(&["ghost"]),
    };
    assert_eq!(MiniMax.make_guess(&s).unwrap(), word("ghost"));
    assert_eq!(MinimizeMean.make_guess(&s).unwrap(), word("ghost"));
}

#[test]
fn strategies_fail_without_candidates() {
    let s = GameState {
        made_correct_guess: false,
        allowed_guesses: words(&["apple"]),
        possible_secrets: vec![],
    };
    assert!(matches!(MiniMax.make_guess(&s), Err(Error::NoWordsRemaining)));
    assert!(matches!(AlphabeticalOrder.make_guess(&s), Err(Error::NoWordsRemaining)));
}

#[test]
fn heuristic_scores() {
    let s = state(&["apple", "table", "farts", "ghost", "cable"]);
    let guess = word("table");
    let counts = count_clues(&s.possible_secrets, &guess);
    assert_eq!(counts.len(), 243);
    assert_eq!(counts.iter().sum::<usize>(), 5);
    let groups: Vec<usize> = counts.iter().copied().filter(|&c| c > 0).collect();
    let max = *groups.iter().max().unwrap();
    assert_eq!(MiniMax.heuristic(&s, &guess), vec![max as u128]);
    assert_eq!(
        MinimizeMean.heuristic(&s, &guess),
        vec![u128::MAX - groups.len() as u128]
    );
    assert_eq!(
        MinimizeSumSquares.heuristic(&s, &guess),
        vec![groups.iter().map(|&c| (c * c) as u128).sum::<u128>()]
    );
    let ones = groups.iter().filter(|&&c| c == 1).count();
    assert_eq!(EarlyGuesses.heuristic(&s, &guess), vec![u128::MAX - ones as u128]);
    assert_eq!(AlphabeticalOrder.heuristic(&s, &guess), vec![19, 0, 1, 11, 4]);
}

#[test]
fn minimax_prefers_the_first_best_guess() {
    let s = state(&["bbbbb", "aaaaa", "ccccc"]);
    // Every guess splits the three candidates into one hit and two misses,
    // except that the misses share a clue: the first word wins.
    assert_eq!(MiniMax.make_guess(&s).unwrap(), word("bbbbb"));
    assert_eq!(AlphabeticalOrder.make_guess(&s).unwrap(), word("aaaaa"));
}

#[test]
fn exhaustive_paths_end_in_secrets() {
    let s = state(&["apple", "table", "farts", "ghost", "cable"]);
    let paths = deterministic_strategy_results(&MiniMax, s.clone()).unwrap();
    assert_eq!(paths.len(), 5);
    let mut ends: Vec<Word<5>> = paths.iter().map(|p| *p.last().unwrap()).collect();
    ends.sort();
    let mut expected = s.possible_secrets.clone();
    expected.sort();
    assert_eq!(ends, expected);
    let empty = GameState::<5> {
        made_correct_guess: false,
        allowed_guesses: vec![],
        possible_secrets: vec![],
    };
    assert!(matches!(
        deterministic_strategy_results(&MiniMax, empty),
        Err(Error::NoWordsRemaining)
    ));
}

#[test]
fn exhaustive_paths_stop_when_no_guess_helps() {
    let s = GameState {
        made_correct_guess: false,
        allowed_guesses: words(&["zzzzz"]),
        possible_secrets: words(&["apple", "apple"]),
    };
    assert!(matches!(
        deterministic_strategy_results(&MiniMax, s),
        Err(Error::NoProgress)
    ));
}

#[test]
fn simulation_ends_when_solved() {
    let s = state(&["apple", "table", "farts", "ghost", "cable"]);
    let rounds = s.simulate_strategy(word("ghost"), &MiniMax);
    assert!(rounds.len() >= 2);
    assert!(matches!(&rounds[0], Ok((None, _))));
    match rounds.last().unwrap() {
        Ok((Some((g, c)), st)) => {
            assert_eq!(*g, word("ghost"));
            assert!(c.all_correct());
            assert!(st.is_finished());
        }
        _ => panic!("the last round should be a finished game"),
    }
}

#[test]
fn multi_game_finishes_when_every_game_does() {
    let s = state(&["apple", "table", "farts", "ghost"]);
    let m: MultiGameState<5, 2> = MultiGameState::new(s);
    assert!(!m.is_finished());
    let guess = word("apple");
    let after = m.after_guess(guess, [clue("GGGGG"), clue("_Y_GG")]);
    assert!(after.games[0].is_finished());
    assert!(!after.is_finished());
    let done = after.after_guess(word("table"), [clue("_Y_GG"), clue("GGGGG")]);
    assert!(done.is_finished());
}

#[test]
fn difficulty_ignores_the_order_of_secrets() {
    let s = state(&["apple", "table", "farts", "ghost", "cable"]);
    let m: MultiGameState<5, 3> = MultiGameState::new(s);
    let a = [word("apple"), word("ghost"), word("cable")];
    let b = [word("cable"), word("apple"), word("ghost")];
    let da = m.estimate_difficulty(a);
    assert_eq!(da, m.estimate_difficulty(b));
    // Guessing "ghost" leaves {apple, cable}, {ghost} and {apple, cable}.
    assert_eq!(da, 4);
}

#[test]
fn multi_strategies_guess() {
    let s = state(&["apple", "table", "farts", "ghost"]);
    let m: MultiGameState<5, 2> = MultiGameState::new(s);
    let g1 = MultiSequential::new(MiniMax).make_guess(&m).unwrap();
    assert_eq!(g1, MiniMax.make_guess(&m.games[0]).unwrap());
    let g2 = WorkOnWorst::new(MiniMax).make_guess(&m).unwrap();
    assert_eq!(g2, MiniMax.make_guess(&m.games[1]).unwrap());
    let g3 = MinimizeWorstHeuristic::new(MiniMax).make_guess(&m).unwrap();
    assert!(m.games[0].allowed_guesses.contains(&g3));

    let narrowed = m.after_guess(word("chart"), [clue("_G__G"), clue("_G__G")]);
    assert_eq!(narrowed.find_concluding_guess(), Some(word("ghost")));
    assert_eq!(WorkOnWorst::new(MiniMax).make_guess(&narrowed).unwrap(), word("ghost"));
    assert_eq!(
        MinimizeWorstHeuristic::new(EarlyGuesses).make_guess(&narrowed).unwrap(),
        word("ghost")
    );
    assert_eq!(m.find_concluding_guess(), None);
}

#[test]
fn multi_strategies_fail_when_all_finished() {
    let mut s = state(&["apple"]);
    s.made_correct_guess = true;
    let m: MultiGameState<5, 2> = MultiGameState::new(s);
    assert!(m.is_finished());
    assert!(matches!(
        MultiSequential::new(MiniMax).make_guess(&m),
        Err(Error::NoWordsRemaining)
    ));
}

#[test]
fn multi_simulation_solves_both() {
    let s = state(&["apple", "table", "farts", "ghost"]);
    let m: MultiGameState<5, 2> = MultiGameState::new(s);
    let rounds = m.simulate_strategy([word("farts"), word("table")], &WorkOnWorst::new(MiniMax));
    match rounds.last().unwrap() {
        Ok((_, st)) => assert!(st.is_finished()),
        Err(e) => panic!("unexpected error {:?}", e),
    }
}

#[test]
fn random_secret_is_a_candidate() {
    let s = state(&["apple", "table", "farts", "ghost", "cable"]);
    let mut rng = ChaCha8Rng::seed_from_u64(7);
    for _ in 0..20 {
        let w = s.random_secret(&mut rng);
        assert!(s.possible_secrets.contains(&w));
    }
    let m: MultiGameState<5, 4> = MultiGameState::new(s.clone());
    let ws = m.random_secret(&mut rng);
    assert!(ws.iter().all(|w| s.possible_secrets.contains(w)));
}

#[test]
fn simulation_reports_a_guess_that_cannot_help() {
    let s = GameState {
        made_correct_guess: false,
        allowed_guesses: words(&["zzzzz"]),
        possible_secrets: words(&["apple", "apply"]),
    };
    let rounds = s.simulate_strategy(word("apple"), &MiniMax);
    assert_eq!(rounds.len(), 2);
    assert!(matches!(rounds[1], Err(Error::NoProgress)));
}

#[test]
fn simulation_reports_strategy_errors() {
    let s = GameState::<5> {
        made_correct_guess: false,
        allowed_guesses: words(&["apple"]),
        possible_secrets: vec![],
    };
    let rounds = s.simulate_strategy(word("apple"), &MiniMax);
    assert_eq!(rounds.len(), 2);
    assert!(matches!(rounds[1], Err(Error::NoWordsRemaining)));
}

#[test]
fn clue_iterates_over_tiles() {
    let c = clue("GY_GY");
    let tiles: Vec<Tile> = c.iter().copied().collect();
    assert_eq!(tiles, vec![Tile::Correct, Tile::WrongPosition, Tile::NotPresentInWord, Tile::Correct, Tile::WrongPosition]);
    let bad: Word<3> = "BAD".parse().unwrap();
    let letters: Vec<u8> = bad.iter().copied().collect();
    assert_eq!(letters, vec![1, 0, 3]);
}

#[test]
fn exhaustive_paths_follow_the_strategy() {
    let s = state(&["table", "apple"]);
    let mut paths = deterministic_strategy_results(&AlphabeticalOrder, s).unwrap();
    paths.sort();
    assert_eq!(paths, vec![words(&["apple"]), words(&["apple", "table"])]);
}

#[test]
fn exhaustive_paths_match_simulations() {
    let s = state(&["apple", "table", "farts", "ghost", "cable", "chart"]);
    let paths = deterministic_strategy_results(&MinimizeSumSquares, s.clone()).unwrap();
    assert_eq!(paths.len(), s.possible_secrets.len());
    for secret in &s.possible_secrets {
        let guesses: Vec<Word<5>> = s
            .simulate_strategy(*secret, &MinimizeSumSquares)
            .into_iter()
            .filter_map(|r| match r {
                Ok((Some((g, _)), _)) => Some(g),
                _ => None,
            })
            .collect();
        assert!(paths.contains(&guesses));
        assert_eq!(guesses.last(), Some(secret));
    }
}
