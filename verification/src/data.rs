//! Payload types stored in the transposition table.
//!
//! A payload only has to expose an unused state and a search depth; the
//! bucket replacement policy evicts the entry of lowest depth first.

use vstd::prelude::*;
use crate::defs::CHECKMATE_THRESHOLD;

verus! {

/// Capability required of every payload kept in a transposition table.
pub trait IHashData: Sized {
    /// The search depth this payload was computed at.
    spec fn spec_depth(&self) -> int;

    /// The zero/unused payload, as written into empty slots.
    fn new() -> (r: Self)
        ensures
            r.spec_depth() == 0,
    ;

    fn depth(&self) -> (r: i8)
        ensures
            r as int == self.spec_depth(),
    ;
}

/// A compact 16-bit encoding of a move.
#[derive(Copy, Clone, PartialEq, Eq, Structural, Debug)]
pub struct ShortMove {
    pub data: u16,
}

impl ShortMove {
    pub fn new(data: u16) -> (r: Self)
        ensures
            r.data == data,
    {
        Self { data }
    }
}

/// Payload of a perft (move-path counting) run.
#[derive(Copy, Clone, PartialEq, Eq, Structural, Debug)]
pub struct PerftData {
    pub depth: i8,
    pub leaf_nodes: u64,
}

impl IHashData for PerftData {
    open spec fn spec_depth(&self) -> int {
        self.depth as int
    }

    fn new() -> (r: Self) {
        Self { depth: 0, leaf_nodes: 0 }
    }

    fn depth(&self) -> (r: i8) {
        self.depth
    }
}

impl PerftData {
    pub fn create(depth: i8, leaf_nodes: u64) -> (r: Self)
        ensures
            r.spec_depth() == depth as int,
            r == (PerftData { depth, leaf_nodes }),
    {
        Self { depth, leaf_nodes }
    }

    /// The stored leaf count, but only when it was computed at exactly the
    /// requested depth.
    pub fn get(&self, depth: i8) -> (r: Option<u64>)
        ensures
            r == if self.depth == depth {
                Some(self.leaf_nodes)
            } else {
                None::<u64>
            },
    {
        if self.depth == depth {
            Some(self.leaf_nodes)
        } else {
            None
        }
    }
}

/// How the stored value of a search payload bounds the true score.
#[derive(Copy, Clone, PartialEq, Eq, Structural, Debug)]
pub enum HashFlag {
    Nothing,
    Exact,
    Alpha,
    Beta,
}

/// Payload of an alpha-beta search: depth, bound flag, score and best move.
///
/// Mate scores are normalized to the root on write and re-adjusted to the
/// probing ply on read, so a mate distance stays correct wherever the
/// position recurs in the tree.
#[derive(Copy, Clone, PartialEq, Eq, Structural, Debug)]
pub struct SearchData {
    pub depth: i8,
    pub flag: HashFlag,
    pub value: i16,
    pub best_move: ShortMove,
}

impl IHashData for SearchData {
    open spec fn spec_depth(&self) -> int {
        self.depth as int
    }

    fn new() -> (r: Self) {
        Self { depth: 0, flag: HashFlag::Nothing, value: 0, best_move: ShortMove { data: 0 } }
    }

    fn depth(&self) -> (r: i8) {
        self.depth
    }
}

/// The ply-normalized value that `create` stores for a raw score `value`
/// found at ply `ply`: only mate scores — beyond the threshold on either
/// side — carry the ply; ordinary scores are stored unchanged.
pub open spec fn normalized_value(value: i16, ply: i8) -> int {
    if value > CHECKMATE_THRESHOLD {
        value + ply
    } else if value < -CHECKMATE_THRESHOLD {
        value - ply
    } else {
        value as int
    }
}

impl SearchData {
    /// Build a payload for storage, normalizing mate distances by `ply`.
    pub fn create(depth: i8, ply: i8, flag: HashFlag, value: i16, best_move: ShortMove) -> (r:
        Self)
        requires
            0 <= ply,
            i16::MIN <= normalized_value(value, ply) <= i16::MAX,
        ensures
            r.depth == depth,
            r.flag == flag,
            r.value as int == normalized_value(value, ply),
            r.best_move == best_move,
            r.spec_depth() == depth as int,
    {
        let mut v = value;

        if v > CHECKMATE_THRESHOLD {
            v = v + (ply as i16);
        } else if v < -CHECKMATE_THRESHOLD {
            v = v - (ply as i16);
        }

        Self { depth, flag, value: v, best_move }
    }

    /// The value `get` reports at ply `ply` for a stored value `stored`:
    /// the reverse of the normalization applied by `create`.
    pub open spec fn readjusted_value(stored: i16, ply: i8) -> int {
        if stored > CHECKMATE_THRESHOLD {
            stored - ply
        } else if stored < -CHECKMATE_THRESHOLD {
            stored + ply
        } else {
            stored as int
        }
    }

    /// What `get` returns: a usable score if the entry is deep enough and its
    /// bound allows a cutoff at the probing window, plus the stored move.
    pub open spec fn spec_get(&self, depth: i8, ply: i8, alpha: i16, beta: i16) -> Option<i16> {
        if self.depth < depth {
            None
        } else {
            match self.flag {
                HashFlag::Exact => Some(Self::readjusted_value(self.value, ply) as i16),
                HashFlag::Alpha => if self.value <= alpha {
                    Some(alpha)
                } else {
                    None
                },
                HashFlag::Beta => if self.value >= beta {
                    Some(beta)
                } else {
                    None
                },
                HashFlag::Nothing => None,
            }
        }
    }

    /// Probe this payload at the given depth, ply and window.
    pub fn get(&self, depth: i8, ply: i8, alpha: i16, beta: i16) -> (r: (Option<i16>, ShortMove))
        requires
            0 <= ply,
            i16::MIN <= Self::readjusted_value(self.value, ply) <= i16::MAX,
        ensures
            r.0 == self.spec_get(depth, ply, alpha, beta),
            r.1 == self.best_move,
    {
        let mut value: Option<i16> = None;

        if self.depth >= depth {
            match self.flag {
                HashFlag::Exact => {
                    let mut v = self.value;

                    if v > CHECKMATE_THRESHOLD {
                        v = v - (ply as i16);
                    } else if v < -CHECKMATE_THRESHOLD {
                        v = v + (ply as i16);
                    }

                    value = Some(v);
                },
                HashFlag::Alpha => {
                    if self.value <= alpha {
                        value = Some(alpha);
                    }
                },
                HashFlag::Beta => {
                    if self.value >= beta {
                        value = Some(beta);
                    }
                },
                HashFlag::Nothing => {},
            };
        }
        (value, self.best_move)
    }
}

/// Normalization and readjustment at the same ply cancel exactly, so a score
/// written by `create` is read back unchanged by `get`.
pub proof fn lemma_value_round_trip(value: i16, ply: i8)
    requires
        0 <= ply,
        i16::MIN <= normalized_value(value, ply) <= i16::MAX,
    ensures
        SearchData::readjusted_value(normalized_value(value, ply) as i16, ply) == value as int,
{
}

} // verus!
