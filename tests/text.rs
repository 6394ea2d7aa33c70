use wordle::text::{compare_words, GameState};
use wordle::{Error, Tile};

fn shorthand(s: &str) -> Vec<Tile> {
    s.chars()
        .map(|c| match c {
            '_' => Tile::NotPresentInWord,
            'Y' => Tile::WrongPosition,
            'G' => Tile::Correct,
            _ => panic!("Incorrect shorthand format"),
        })
        .collect()
}

#[test]
fn test_compare_unequal() {
    let res = compare_words("apple", "banana");
    assert!(matches!(res, Err(Error::UnequalWordLength)));
}

#[test]
fn test_compare_text() {
    assert_eq!(compare_words("apple", "table").unwrap(), shorthand("_Y_GG"));
    assert_eq!(compare_words("farts", "ghost").unwrap(), shorthand("___YY"));
}

#[test]
fn wordle_test_after_guess() {
    let secret: Vec<_> = ["apple", "table", "farts", "ghost"]
        .iter()
        .map(|s| s.to_string())
        .collect();
    let before = GameState {
        dictionary: secret.clone(),
        secret,
    };
    let after = before.after_guess("chart", &shorthand("_G__G")).unwrap();

    assert_eq!(after.secret, vec!["ghost".to_string()]);
}

#[test]
fn text_game_keeps_words_of_the_length() {
    let words: Vec<String> = ["apple", "be", "ghost", "banana"].iter().map(|s| s.to_string()).collect();
    let g = GameState::new(&words, 5);
    assert_eq!(g.dictionary, vec!["apple".to_string(), "ghost".to_string()]);
    assert_eq!(g.secret, g.dictionary);
    assert!(matches!(g.after_guess("toolong", &shorthand("_______")), Err(Error::UnequalWordLength)));
}

#[test]
fn text_compare_counts_repeated_letters() {
    assert_eq!(compare_words("apple", "paper").unwrap(), shorthand("YYGY_"));
    assert_eq!(compare_words("", "").unwrap(), vec![]);
}
