//! A fuzzy word-matching index and vote coordinator for a turn-based
//! word-chain game.
//!
//! The index is a metric tree: every child is stored under the exact edit
//! distance between its word and its parent's word, which allows range
//! queries to prune whole subtrees by the triangle inequality.  On top of
//! the index sits a per-session state machine that tracks a proposed word,
//! per-participant ballots, and a turn queue, and decides acceptance by
//! majority.

pub mod bits;
pub mod codec;
pub mod distance;
pub mod fuzzy_index;
pub mod message;
pub mod room;
pub mod text;
