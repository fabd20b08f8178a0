//! Shared constants and plain type aliases of the cache subsystem.

use vstd::prelude::*;

verus! {

/// A set of squares, one bit per square, a1 = bit 0 .. h8 = bit 63.
pub type Bitboard = u64;

/// The exact 64-bit position hash used to verify a table entry.
pub type ZobristKey = u64;

pub type Piece = usize;

pub type Side = usize;

pub const MEGABYTE: usize = 1024 * 1024;

pub const ENTRIES_PER_BUCKET: usize = 4;

/// Bucket counts at or above this already cover a 32-bit index space, so
/// entries only need the low 32 bits of the Zobrist key as verification.
pub const BUCKETS_FOR_PARTIAL_HASH: u64 = 0x1_0000_0000;

pub const MIN_BUCKETS_PER_TABLE: usize = 1;

/// A table that fails to store an entry grows by this factor before retrying.
pub const EXPANSION_FACTOR: usize = 2;

/// Scores beyond this magnitude encode a forced mate and carry a ply count.
pub const CHECKMATE_THRESHOLD: i16 = 24_000;

pub const KING: Piece = 0;

pub const QUEEN: Piece = 1;

pub const ROOK: Piece = 2;

pub const BISHOP: Piece = 3;

pub const KNIGHT: Piece = 4;

pub const PAWN: Piece = 5;

/// Marker for "no piece on this square".
pub const PNONE: Piece = 6;

pub const WHITE: Side = 0;

pub const BLACK: Side = 1;

} // verus!
