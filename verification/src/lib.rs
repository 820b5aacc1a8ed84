//! A constraint-based adaptive guessing engine. A hidden value is drawn
//! from a finite universe; an oracle scores each guess against it; the engine
//! keeps the candidates that agree with every score so far and picks the
//! guess that narrows them best.
//!
//! Two puzzles are built on it. In the numeric puzzle (bulls and cows) the
//! values are digit sequences: `game_params` and `number` describe them,
//! `generator` lists their universe, `oracle` scores them, `strategy` holds
//! the guessers and `evaluator` plays them against every hidden value. In the
//! word puzzle the values are words: `word_feedback` is the oracle and
//! `words_chooser` the guesser; `db_reader`, `input_getter` and
//! `colored_string` serve the dialogue with the player.
//!
//! The remaining modules hold what the others share: `comb_utils` steps
//! through permutations, odometer readings and combinations; `counting`,
//! `universe`, `arrangements`, `histogram` and `selection` hold the
//! mathematics of the contracts; `text` handles texts.

pub mod counting;
pub mod comb_utils;
pub mod number;
pub mod oracle;
pub mod game_params;
pub mod universe;
pub mod arrangements;
pub mod generator;
pub mod word_feedback;
pub mod text;
pub mod selection;
pub mod histogram;
pub mod strategy;
pub mod words_chooser;
pub mod evaluator;
pub mod db_reader;
pub mod colored_string;
pub mod input_getter;
