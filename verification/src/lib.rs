//! A geographic-location search engine core.
//!
//! The crate ingests a corpus of location records (states, subdivisions,
//! UN/LOCODEs, airports) and answers free-text queries with a ranked list of
//! matching locations, tolerating misspellings, word-order variation and
//! embedded context words.
//!
//! The query pipeline: a raw query is normalized and classified
//! ([`search::SearchTerm`]), candidate locations are gathered through the word
//! index and a fuzzy vocabulary automaton, each candidate is scored
//! ([`location::Location::search`]), scores are boosted along the
//! administrative hierarchy ([`graph::ResultsGraph`]), and the result list is
//! sorted and truncated ([`locations_db::LocationsDb::search`]).
use vstd::prelude::*;

pub mod arena;
pub mod coordinates;
pub mod fuzzy;
pub mod graph;
pub mod location;
pub mod locations_db;
pub mod interner;
pub mod norm;
pub mod search;
pub mod sorting;
pub mod word_index;
pub mod text;

verus! {

/// Base score of a full exact hit; fuzzy similarities are scaled into
/// `[0, SCORE_SOFT_MAX]`, and exact or prefix hits exceed it.
pub const SCORE_SOFT_MAX: i64 = 1000;

/// Subtracted from a subject's score when the subject is a stop word of the
/// query.
pub const STOP_WORDS_PENALTY: i64 = 2000;

/// A location is returned only with a score strictly above this.
pub const SEARCH_INCLUSION_THRESHOLD: i64 = 500;

/// A hierarchy edge is added only when both endpoint scores are strictly
/// above this.
pub const GRAPH_EDGE_THRESHOLD: i64 = 600;

/// Tokens at least this many characters long are never fuzzy-matched
/// (prevents automaton blow-up on long noise tokens).
pub const LEV_LENGTH_MAX: usize = 16;

/// Tokens shorter than this may use the full requested edit distance.
pub const LEV_3_LENGTH_MAX: usize = 8;

/// Tokens shorter than this (but at least `LEV_3_LENGTH_MAX`) are capped at
/// edit distance 2; longer ones at 1.
pub const LEV_2_LENGTH_MAX: usize = 12;

/// A term's length contributes to scores only up to this cap, so that score
/// arithmetic stays far from `i64` overflow whatever the input length.
pub const TERM_LEN_CAP: usize = 1000000;

} // verus!
