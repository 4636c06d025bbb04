//! Wordle hints, partitions of word lists by hint, and the two game strategies
//! (a solver and an adversary) built on them.

pub mod hint;
pub mod partition;
pub mod strategy;
pub mod word;

pub use hint::{generate_hint, Hint, LetterHint};
pub use partition::partition;

pub use strategy::{
    adversary_choice, adversary_round, best_guess, game_status, next_candidates, partition_cost,
    partition_score, GameStatus, ScoringPolicy, StrategyError,
};
pub use word::{process_words, ParseError, Word};
