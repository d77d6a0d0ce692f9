//! Keyword-category scoring for multi-round contests, with a ranked
//! per-author leaderboard.
//!
//! A contest has categories, each a list of keywords, and rounds of entries.
//! An entry's contents are split into tokens at whitespace; a category
//! matches an entry when one of its keywords equals one of those tokens,
//! exactly and case-sensitively. An entry scores one point per category it
//! matches. Scores are summed per author within each round, the round totals
//! are summed across rounds, and the authors are ranked by total, highest
//! first, ties broken by author in ascending order.
//!
//! - [`index`]: the keyword-to-categories table and text matching.
//! - [`scoring`]: one entry's matched categories and score.
//! - [`totals`]: per-author totals.
//! - [`contest`]: rounds, the manifest, and the scoring of a whole contest.
//! - [`leaderboard`]: leaderboard rows and their order.
//! - [`laws`]: properties of the scoring that span several calls.
//! - [`text`]: whitespace, character order and key search.
use vstd::prelude::*;

pub mod contest;
pub mod index;
pub mod laws;
pub mod leaderboard;
pub mod scoring;
pub mod text;
pub mod totals;

pub use contest::{aggregate_round, score_contest, Manifest, Round};
pub use index::{build_index, Category, CategoryIndex};
pub use leaderboard::Standing;
pub use scoring::{score_entry, Entry, EntryScore};
pub use totals::AuthorTotals;

verus! {

/// Why a contest could not be scored.
#[derive(Debug, Clone, Copy, PartialEq, Eq, Structural)]
pub enum ScoringError {
    /// The category at this position has no keywords.
    InvalidCategory { category: usize },
    /// The entry at this position of this round has an empty author.
    InvalidEntry { round: usize, entry: usize },
}

} // verus!
