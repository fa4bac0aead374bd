//! A small similarity-search service: a brute-force nearest-neighbor engine
//! over fixed-point embedding vectors, a key-value store scanned by substring,
//! and the line-protocol state machine that serves both to network clients.

pub mod cosine;
pub mod engine;
pub mod pooling;
pub mod protocol;
pub mod store;


use vstd::prelude::*;

verus! {

/// Largest magnitude accepted for a single embedding component.
pub const VALUE_LIMIT: i64 = 1000;

/// Largest embedding dimension accepted.
pub const DIM_LIMIT: usize = 1000;

/// An embedding the engine agrees to work on: short enough and with small
/// enough components that every intermediate product stays within `i64`.
pub open spec fn bounded_embedding(s: Seq<i64>) -> bool {
    &&& s.len() <= DIM_LIMIT
    &&& forall|i: int| 0 <= i < s.len() ==> -VALUE_LIMIT <= #[trigger] s[i] <= VALUE_LIMIT
}

} // verus!
