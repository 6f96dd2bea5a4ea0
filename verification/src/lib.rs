//! A solver core for Wordle-family guessing puzzles: feedback scoring,
//! histogram-based candidate pruning, minimax guess selection, and a
//! simulation harness, over caller-supplied word corpora.
pub mod filter;
pub mod histogram;
pub mod laws;
pub mod scorer;
pub mod selector;
pub mod sim;
pub mod words;

pub use filter::{maybe_prune, AnswerIterator};
pub use histogram::{histo, make_histos};
pub use scorer::score;
pub use selector::best_guess;
pub use sim::{fullsim, pair_cases, sim_one, single_cases, SimStats};
pub use words::{parse_guess, parse_result, word_eq, Color};
