use wordle::registry::{all_multi_strategies, all_strategies, NamedStrategy};
use wordle::strategy::Strategy;
use wordle::word_list::collect_words;
use wordle::{Error, GameState, Word};

#[test]
fn registry_names() {
    let names: Vec<String> = all_strategies().into_iter().map(|(n, _)| n).collect();
    assert_eq!(
        names,
        vec!["MiniMax", "MinimizeMean", "MinimizeSumSquares", "EarlyGuesses", "AlphabeticalOrder"]
    );
    let multi = all_multi_strategies::<5>();
    assert_eq!(multi.len(), 15);
    assert_eq!(multi[0].0, "MultiSequential-MiniMax");
    assert_eq!(multi[14].0, "MinimizeWorstHeuristic-AlphabeticalOrder");
}

#[test]
fn named_strategy_guesses_like_its_strategy() {
    let list: Vec<String> = ["apple", "table", "farts", "ghost"].iter().map(|s| s.to_string()).collect();
    let s: GameState<5> = GameState::from_iter(&list).unwrap();
    let w = NamedStrategy::AlphabeticalOrder.make_guess(&s).unwrap();
    assert_eq!(w, "apple".parse::<Word<5>>().unwrap());
}

#[test]
fn word_lists_skip_other_lengths_and_refuse_bad_words() {
    let list: Vec<String> = ["apple", "be", "GHOST", "banana"].iter().map(|s| s.to_string()).collect();
    let ws = collect_words::<5>(&list).unwrap();
    assert_eq!(ws.len(), 2);
    assert_eq!(ws[1].to_string(), "GHOST");
    let bad: Vec<String> = ["app1e"].iter().map(|s| s.to_string()).collect();
    assert!(matches!(collect_words::<5>(&bad), Err(Error::InvalidString(_))));
    let s = GameState::<5>::from_iter(&list).unwrap();
    assert_eq!(s.possible_secrets.len(), 2);
    assert!(matches!(GameState::<5>::from_iter(&bad), Err(Error::InvalidString(_))));
}

#[test]
fn word_lists_from_bytes() {
    let ws = GameState::<5>::words_from_bytes(b"apple\nbe\nGhost\n\nbanana\ncrane").unwrap();
    let text: Vec<String> = ws.iter().map(|w| w.to_string()).collect();
    assert_eq!(text, vec!["APPLE", "GHOST", "CRANE"]);
    assert!(matches!(
        GameState::<5>::words_from_bytes(b"apple\nap-le\n"),
        Err(Error::InvalidString(s)) if s == "ap-le"
    ));
    assert!(GameState::<5>::words_from_bytes(b"").unwrap().is_empty());
}

#[test]
fn strategies_by_name() {
    assert_eq!(NamedStrategy::by_name("EarlyGuesses"), Some(NamedStrategy::EarlyGuesses));
    assert_eq!(NamedStrategy::by_name("earlyguesses"), None);
    let m = wordle::registry::multi_strategy_by_name::<5>("WorkOnWorst-MinimizeMean");
    assert!(matches!(
        m,
        Some(wordle::registry::NamedMultiStrategy::WorkOnWorst(ref w)) if w.single == NamedStrategy::MinimizeMean
    ));
    assert!(wordle::registry::multi_strategy_by_name::<5>("WorkOnWorst").is_none());
}
