//! Blocker and attack board generation for the sliding pieces.
//!
//! For a movement mask, every subset of its squares is a possible blocker
//! arrangement; the carry-rippler walk enumerates all of them in increasing
//! order. For each arrangement the attack board marks the squares a slider
//! reaches before (and including) the first blocker on each ray.

use vstd::prelude::*;
use crate::defs::Bitboard;

verus! {

/// One carry-rippler step: over the bits of `d`, the successor of subset `n`
/// is `(n - d) & d` — the smallest subset of `d` greater than `n`.
proof fn lemma_ripple_step(n: u64, d: u64, w: u64)
    by (bit_vector)
    requires
        n & d == n,
        n != d,
        n >= d ==> w == n - d,
        n < d ==> w == n - d + 0x1_0000_0000_0000_0000,
    ensures
        (w & d) & d == (w & d),
        (w & d) > n,
        (w & d) <= d,
        forall|m: u64| m & d == m && m > n ==> m >= (w & d),
{
}

/// A subset of the mask, as a bit set, is at most the mask.
proof fn lemma_subset_le(d: u64)
    by (bit_vector)
    ensures
        forall|m: u64| m & d == m ==> m <= d,
        forall|m: u64| m & 0u64 == m ==> m == 0u64,
        0u64 & d == 0u64,
{
}

/// All blocker arrangements of a movement mask: exactly the subsets of the
/// mask's bits, listed in increasing order starting from the empty board.
pub fn create_blocker_boards(mask: Bitboard) -> (r: Vec<Bitboard>)
    ensures
        r@.len() >= 1,
        r@[0] == 0,
        r@[r@.len() - 1] == mask,
        forall|k: int| 0 <= k < r@.len() ==> (#[trigger] r@[k]) & mask == r@[k],
        forall|k: int, l: int| 0 <= k < l < r@.len() ==> r@[k] < r@[l],
        forall|m: u64| m & mask == m ==> r@.contains(m),
{
    proof {
        lemma_subset_le(mask);
    }
    let mut v: Vec<u64> = Vec::new();
    v.push(0);
    if mask == 0 {
        proof {
            assert forall|m: u64| m & 0u64 == m implies v@.contains(m) by {
                assert(m == 0);
                assert(v@[0] == 0);
            }
        }
        return v;
    }
    let w0 = 0u64.wrapping_sub(mask);
    proof {
        lemma_ripple_step(0, mask, w0);
    }
    let mut n: u64 = w0 & mask;
    while n != 0
        invariant
            mask != 0,
            v@.len() >= 1,
            v@[0] == 0,
            forall|k: int| 0 <= k < v@.len() ==> (#[trigger] v@[k]) & mask == v@[k],
            forall|k: int, l: int| 0 <= k < l < v@.len() ==> v@[k] < v@[l],
            forall|m: u64| m & mask == m && m <= v@[v@.len() - 1] ==> v@.contains(m),
            n != 0 ==> n & mask == n && n <= mask && v@[v@.len() - 1] < n && (forall|m: u64|
                m & mask == m && m > v@[v@.len() - 1] ==> m >= n),
            n == 0 ==> v@[v@.len() - 1] == mask,
        decreases (if n == 0 {
                0int
            } else {
                mask - n + 1
            }),
    {
        let ghost pre = v@;
        v.push(n);
        proof {
            assert(v@[v@.len() - 1] == n);
            assert forall|m: u64| m & mask == m && m <= n implies v@.contains(m) by {
                if m <= pre[pre.len() - 1] {
                    assert(pre.contains(m));
                    let k = choose|k: int| 0 <= k < pre.len() && pre[k] == m;
                    assert(v@[k] == m);
                } else {
                    assert(m >= n);
                    assert(m == n);
                }
            }
        }
        let w = n.wrapping_sub(mask);
        if n == mask {
            n = 0;
            proof {
                assert(v@[v@.len() - 1] == mask);
            }
        } else {
            proof {
                lemma_ripple_step(n, mask, w);
            }
            n = w & mask;
        }
    }
    proof {
        assert forall|m: u64| m & mask == m implies v@.contains(m) by {
            assert(m <= mask);
            assert(v@[v@.len() - 1] == mask);
        }
    }
    v
}

/// A compass direction a sliding piece moves along.
#[derive(Copy, Clone, PartialEq, Eq, Structural, Debug)]
pub enum Direction {
    Up,
    Right,
    Down,
    Left,
    UpLeft,
    UpRight,
    DownRight,
    DownLeft,
}

pub open spec fn file_delta(dir: Direction) -> int {
    match dir {
        Direction::Up => 0,
        Direction::Right => 1,
        Direction::Down => 0,
        Direction::Left => -1,
        Direction::UpLeft => -1,
        Direction::UpRight => 1,
        Direction::DownRight => 1,
        Direction::DownLeft => -1,
    }
}

pub open spec fn rank_delta(dir: Direction) -> int {
    match dir {
        Direction::Up => 1,
        Direction::Right => 0,
        Direction::Down => -1,
        Direction::Left => 0,
        Direction::UpLeft => 1,
        Direction::UpRight => 1,
        Direction::DownRight => -1,
        Direction::DownLeft => -1,
    }
}

/// The squares a ray reaches from `(f, r)` onwards: every square up to and
/// including the first occupied one, stopping at the board edge.
pub open spec fn ray_squares(bb_in: u64, f: int, r: int, df: int, dr: int, fuel: nat) -> u64
    decreases fuel,
{
    if fuel == 0 || f < 0 || f > 7 || r < 0 || r > 7 {
        0
    } else {
        let bit = 1u64 << ((r * 8 + f) as u64);
        if bb_in & bit != 0 {
            bit
        } else {
            bit | ray_squares(bb_in, f + df, r + dr, df, dr, (fuel - 1) as nat)
        }
    }
}

/// The ray from `square` along `direction`, blocked by the boards in
/// `bb_in`: the first blocker square is included, squares behind it are not.
pub fn create_bb_ray(bb_in: Bitboard, square: u8, direction: Direction) -> (r: Bitboard)
    requires
        square < 64,
    ensures
        r == ray_squares(
            bb_in,
            square as int % 8 + file_delta(direction),
            square as int / 8 + rank_delta(direction),
            file_delta(direction),
            rank_delta(direction),
            8,
        ),
{
    let df: i32 = match direction {
        Direction::Up => 0,
        Direction::Right => 1,
        Direction::Down => 0,
        Direction::Left => -1,
        Direction::UpLeft => -1,
        Direction::UpRight => 1,
        Direction::DownRight => 1,
        Direction::DownLeft => -1,
    };
    let dr: i32 = match direction {
        Direction::Up => 1,
        Direction::Right => 0,
        Direction::Down => -1,
        Direction::Left => 0,
        Direction::UpLeft => 1,
        Direction::UpRight => 1,
        Direction::DownRight => -1,
        Direction::DownLeft => -1,
    };
    let mut f: i32 = (square as i32) % 8 + df;
    let mut r: i32 = (square as i32) / 8 + dr;
    proof {
        lemma_or_facts();
    }
    let mut acc: u64 = 0;
    let mut fuel: u8 = 8;
    while fuel > 0 && f >= 0 && f <= 7 && r >= 0 && r <= 7
        invariant
            -9 <= f <= 16,
            -9 <= r <= 16,
            -1 <= df <= 1,
            -1 <= dr <= 1,
            df == file_delta(direction),
            dr == rank_delta(direction),
            fuel <= 8,
            acc | ray_squares(bb_in, f as int, r as int, df as int, dr as int, fuel as nat)
                == ray_squares(
                bb_in,
                square as int % 8 + file_delta(direction),
                square as int / 8 + rank_delta(direction),
                file_delta(direction),
                rank_delta(direction),
                8,
            ),
        decreases fuel,
    {
        let sq: u64 = ((r * 8 + f) as u64);
        let bit: u64 = 1u64 << sq;
        proof {
            lemma_or_facts();
            assert(sq == (r as int * 8 + f as int) as u64);
        }
        acc = acc | bit;
        if bb_in & bit != 0 {
            proof {
                lemma_or_facts();
            }
            return acc;
        }
        f = f + df;
        r = r + dr;
        fuel = fuel - 1;
    }
    proof {
        lemma_or_facts();
    }
    acc
}

/// Folding a ray square by square: oring with the empty board changes
/// nothing, and the or of boards associates.
proof fn lemma_or_facts()
    by (bit_vector)
    ensures
        forall|x: u64| #[trigger] (x | 0u64) == x,
        forall|x: u64| #[trigger] (0u64 | x) == x,
        forall|a: u64, b: u64, c: u64| #[trigger] ((a | b) | c) == a | (b | c),
{
}

/// The rook attack board for each blocker arrangement.
pub fn create_rook_attack_boards(sq: u8, blockers: &[Bitboard]) -> (r: Vec<Bitboard>)
    requires
        sq < 64,
    ensures
        r@.len() == blockers@.len(),
        forall|i: int|
            0 <= i < blockers@.len() ==> r@[i] == (rook_attacks(blockers@[i], sq)),
{
    let mut out: Vec<Bitboard> = Vec::new();
    let mut i: usize = 0;
    while i < blockers.len()
        invariant
            sq < 64,
            i <= blockers@.len(),
            out@.len() == i,
            forall|k: int| 0 <= k < i ==> out@[k] == (rook_attacks(blockers@[k], sq)),
        decreases blockers@.len() - i,
    {
        let b = blockers[i];
        let bb_attacks = create_bb_ray(b, sq, Direction::Up) | create_bb_ray(b, sq, Direction::Right)
            | create_bb_ray(b, sq, Direction::Down) | create_bb_ray(b, sq, Direction::Left);
        out.push(bb_attacks);
        i = i + 1;
    }
    out
}

/// The bishop attack board for each blocker arrangement.
pub fn create_bishop_attack_boards(sq: u8, blockers: &[Bitboard]) -> (r: Vec<Bitboard>)
    requires
        sq < 64,
    ensures
        r@.len() == blockers@.len(),
        forall|i: int|
            0 <= i < blockers@.len() ==> r@[i] == (bishop_attacks(blockers@[i], sq)),
{
    let mut out: Vec<Bitboard> = Vec::new();
    let mut i: usize = 0;
    while i < blockers.len()
        invariant
            sq < 64,
            i <= blockers@.len(),
            out@.len() == i,
            forall|k: int| 0 <= k < i ==> out@[k] == (bishop_attacks(blockers@[k], sq)),
        decreases blockers@.len() - i,
    {
        let b = blockers[i];
        let bb_attacks = create_bb_ray(b, sq, Direction::UpLeft) | create_bb_ray(
            b,
            sq,
            Direction::UpRight,
        ) | create_bb_ray(b, sq, Direction::DownRight) | create_bb_ray(b, sq, Direction::DownLeft);
        out.push(bb_attacks);
        i = i + 1;
    }
    out
}

/// The four straight rays from a square under a blocker board.
pub open spec fn ray_of(b: u64, sq: u8, dir: Direction) -> u64 {
    ray_squares(
        b,
        sq as int % 8 + file_delta(dir),
        sq as int / 8 + rank_delta(dir),
        file_delta(dir),
        rank_delta(dir),
        8,
    )
}

pub open spec fn rook_attacks(b: u64, sq: u8) -> u64 {
    ray_of(b, sq, Direction::Up) | ray_of(b, sq, Direction::Right) | ray_of(b, sq, Direction::Down)
        | ray_of(b, sq, Direction::Left)
}

pub open spec fn bishop_attacks(b: u64, sq: u8) -> u64 {
    ray_of(b, sq, Direction::UpLeft) | ray_of(b, sq, Direction::UpRight) | ray_of(
        b,
        sq,
        Direction::DownRight,
    ) | ray_of(b, sq, Direction::DownLeft)
}

} // verus!
