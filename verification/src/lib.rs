//! Transposition cache for an alpha-beta chess engine.
//!
//! Search results are memoized under two independent hashes: an exact 64-bit
//! Zobrist key that verifies a position, and a 128-bit monotonic hash that
//! identifies an equivalence class of positions sharing material and pawn
//! structure. The monotonic hash never increases along a game, so whole
//! classes of unreachable cached data can be evicted by one comparison.
//!
//! The outer map is keyed by a 32-bit digest of the monotonic hash; each
//! class holds an inner transposition table of four-entry buckets with
//! depth-preferred replacement, growable under a global byte budget.

pub mod defs;
pub mod data;
pub mod budget;
pub mod bucket;
pub mod table;
pub mod bits;
pub mod board;
pub mod monotonic_hash;
pub mod tree;
pub mod blockatt;
