//! A Wordle-style guessing game core: the feedback matcher, the filter that
//! feedback induces on candidate words, and solvers that pick the next guess.
mod text;
mod tally;
mod pairs;

pub mod types;
pub mod matcher;
pub mod filters;
pub mod scoring;
pub mod positional;
pub mod entropy;
pub mod game;

pub use types::{CharAlignment, CharMatch, WordMatch};
pub use matcher::match_word;
pub use filters::PosFilterCriteria;
pub use positional::PositionalSolver;
pub use entropy::{EntropySolver, GlobalFilteredEntropySolver, GlobalShrinkingEntropySolver};
pub use game::{GameEndTriggers, GuessResult, InvalidationReason, NoopMutator, WordValidation};
