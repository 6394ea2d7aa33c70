//! Analysis of word-guessing games of the Wordle family: clue computation,
//! narrowing of candidate sets and heuristic guess selection.
//!
//! Words and clues carry their length `N` as a const generic. Clue ids are
//! base-3 numbers below `3^N`; the functions that use them require
//! `ids_fit(N)`, that is `3^N` fits in a `usize`.
//!
//! - `clue`: tiles, words, clues, the clue of a guess and clue ids.
//! - `notation`: reading and writing words and clues as text.
//! - `game`: one game and its narrowing by a clue.
//! - `partition`: how a guess splits the candidates by clue id.
//! - `strategy`: single-game strategies and the exhaustive search of paths.
//! - `multi`, `multi_strategy`: several games that share each guess.
//! - `simulate`: strategies played against known secrets.
//! - `registry`: the strategies by name.
//! - `word_list`: word lists read from text.
//! - `random`: secrets drawn at random.
//! - `text`: clues and narrowing on words held as plain strings.

pub mod clue;
pub mod error;
pub mod game;
pub mod multi;
pub mod multi_strategy;
pub mod notation;
pub mod partition;
pub mod random;
pub mod registry;
pub mod simulate;
pub mod strategy;
pub mod text;
pub mod word_list;

pub use clue::{Clue, Tile, Word};
pub use error::Error;
pub use game::GameState;
pub use multi::MultiGameState;
pub use multi_strategy::MultiStrategy;
pub use strategy::{HeuristicStrategy, Strategy};
