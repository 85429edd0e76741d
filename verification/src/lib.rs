//! An in-memory index over football-player records: players, user ratings
//! and tags, stored in hand-built data structures (a bucket-list hash table,
//! a ternary search trie and a B-tree) and queried through a small typed
//! query language.

use vstd::prelude::*;

pub mod knowledge;
pub mod models;
pub mod parser;
pub mod structures;
pub mod text;

verus! {

/// Errors surfaced by the index.
///
/// `NotFound` covers every lookup on a key that was never inserted: an
/// unknown user id, a position that was never ranked, an unknown tag, or a
/// rating or tag addressed to a player id that was never ingested.
///
/// `InvariantViolation` marks an internal-structure defect (a freshly
/// inserted entry that a re-lookup cannot see). The verified operations
/// never produce it; the variant exists so that callers layered on top can
/// treat such a defect as fatal if they ever construct it themselves.
#[derive(Debug, Clone, Copy, PartialEq, Eq, Structural)]
pub enum DbError {
    NotFound,
    InvariantViolation,
}

} // verus!
