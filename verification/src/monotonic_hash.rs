//! The 128-bit monotonic hash.
//!
//! Every chess move leaves this hash less than or equal to its value before
//! the move: material can only be captured, castling rights only lost, an
//! en-passant right only consumed, and pawns only advance. The hash packs
//! four fields, LSB first: a weighted material key per side (17 bits each),
//! the castling rights (4 bits), the en-passant square plus one (7 bits),
//! and a combinatorial ranking of both pawn sets (58 bits), each encoded to
//! decrease on the corresponding irreversible event.

use vstd::prelude::*;
use vstd::arithmetic::power2::{pow2, lemma2_to64_rest, lemma_pow2_strictly_increases, lemma_pow2_unfold, lemma_pow2_pos};
use crate::bits::{ones, popcount};
use crate::board::Board;
use crate::defs::{BISHOP, BLACK, KNIGHT, PAWN, QUEEN, ROOK, WHITE};

verus! {

pub const DARK_SQUARES: u64 = 0xAA55_AA55_AA55_AA55;

pub const LIGHT_SQUARES: u64 = !0xAA55_AA55_AA55_AA55u64;

/// The weighted material key of one side: each piece kind gets a weight one
/// order above the previous, so losing any piece strictly lowers the key.
/// Pawns are handled by the placement ranking and omitted here.
pub open spec fn piece_key(b: Board, side: usize) -> int {
    let knights = ones(b.spec_pieces(KNIGHT, side)) as int;
    let bishops = b.spec_pieces(BISHOP, side);
    let light_bishops = ones(bishops & LIGHT_SQUARES) as int;
    let dark_bishops = ones(bishops & DARK_SQUARES) as int;
    let rooks = ones(b.spec_pieces(ROOK, side)) as int;
    let queens = ones(b.spec_pieces(QUEEN, side)) as int;
    rooks + 11 * knights + 121 * light_bishops + 1210 * dark_bishops + 12100 * queens
}

/// Binomial coefficient by Pascal's rule.
pub open spec fn binomial(n: nat, k: nat) -> nat
    decreases n, k,
{
    if k == 0 {
        1
    } else if n == 0 {
        0
    } else {
        binomial((n - 1) as nat, (k - 1) as nat) + binomial((n - 1) as nat, k)
    }
}

pub proof fn lemma_binomial_le_pow2(n: nat, k: nat)
    ensures
        binomial(n, k) <= pow2(n),
    decreases n, k,
{
    lemma_pow2_pos(n);
    if k == 0 {
    } else if n == 0 {
    } else {
        lemma_binomial_le_pow2((n - 1) as nat, (k - 1) as nat);
        lemma_binomial_le_pow2((n - 1) as nat, k);
        lemma_pow2_unfold(n);
    }
}

/// Sum of `binomial(48, j)` for `j` from `k` to 8: the tail of the subset
/// count used to rank pawn sets of fewer than the maximum pawns.
pub open spec fn tail_sum(k: int) -> int
    decreases 9 - k,
{
    if k > 8 || k < 0 {
        0
    } else {
        binomial(48, k as nat) as int + tail_sum(k + 1)
    }
}

/// Total number of subsets of at most 8 of the 48 non-promotion squares.
pub open spec fn total_combos() -> int {
    tail_sum(0)
}

/// The square scanned at step `t`: white walks from its promotion side
/// (square 55 down), black from its own (square 8 up), so advancement moves
/// a pawn to an earlier scan position and raises the raw rank.
pub open spec fn scan_square(white: bool, t: int) -> int {
    if white {
        55 - t
    } else {
        8 + t
    }
}

/// Combinatorial rank of the pawn set, walked from scan position `t` with
/// `remaining` pawns still to place.
pub open spec fn raw_walk(pawns: u64, white: bool, t: int, remaining: int) -> int
    decreases 48 - t,
{
    if t < 0 || t >= 48 {
        0
    } else {
        let sq = scan_square(white, t);
        if (pawns >> (sq as u64)) & 1 == 1 && remaining >= 1 {
            (if remaining <= 8 {
                binomial((47 - t) as nat, remaining as nat) as int
            } else {
                0
            }) + raw_walk(pawns, white, t + 1, remaining - 1)
        } else {
            raw_walk(pawns, white, t + 1, remaining)
        }
    }
}

/// The raw rank of a side's pawn set: a missing-pawn prefix plus the walk.
pub open spec fn pawn_raw(pawns: u64, white: bool) -> int {
    tail_sum(ones(pawns) as int + 1) + raw_walk(pawns, white, 0, ones(pawns) as int)
}

/// The reversed rank: larger raw rank (more progress) gives a smaller
/// value. The raw rank never exceeds the subset total
/// ([`lemma_pawn_raw_le_total`]), so this never goes negative.
pub open spec fn pawn_rev(pawns: u64, white: bool) -> int {
    total_combos() - pawn_raw(pawns, white)
}

/// Both sides' reversed ranks packed radix-`total_combos`: a decrease of
/// either side's rank decreases the whole field.
pub open spec fn pawn_field(b: Board) -> int {
    total_combos() * pawn_rev(b.spec_pieces(PAWN, BLACK), false) + pawn_rev(
        b.spec_pieces(PAWN, WHITE),
        true,
    )
}

/// The en-passant field: target square index plus one, or zero for none.
pub open spec fn ep_field(b: Board) -> int {
    match b.en_passant {
        Some(sq) => sq as int + 1,
        None => 0,
    }
}

/// The packed 128-bit monotonic hash of a board.
pub open spec fn spec_monotonic_hash(b: Board) -> u128 {
    (piece_key(b, WHITE) as u128) | (piece_key(b, BLACK) as u128) << 17 | (b.castling as u128)
        << 34 | (ep_field(b) as u128) << 38 | (pawn_field(b) as u128) << 45
}

/// Pascal's triangle up to `binomial(48, 8)`, for the executable ranking.
fn binomial_table() -> (t: Vec<Vec<u64>>)
    ensures
        t@.len() == 49,
        forall|n: int| 0 <= n < 49 ==> (#[trigger] t@[n])@.len() == 9,
        forall|n: int, k: int|
            0 <= n < 49 && 0 <= k < 9 ==> (#[trigger] t@[n]@[k]) as int == binomial(
                n as nat,
                k as nat,
            ),
        forall|n: int, k: int|
            0 <= n < 49 && 0 <= k < 9 ==> (#[trigger] t@[n]@[k]) <= 0x1_0000_0000_0000u64,
{
    proof {
        lemma2_to64_rest();
    }
    let mut t: Vec<Vec<u64>> = Vec::new();
    let mut row0: Vec<u64> = Vec::new();
    row0.push(1);
    let mut k: usize = 1;
    while k < 9
        invariant
            1 <= k <= 9,
            row0@.len() == k,
            row0@[0] == 1,
            forall|k2: int| 1 <= k2 < k ==> row0@[k2] == 0,
        decreases 9 - k,
    {
        row0.push(0);
        k = k + 1;
    }
    t.push(row0);
    let mut n: usize = 1;
    while n < 49
        invariant
            1 <= n <= 49,
            t@.len() == n,
            forall|n2: int| 0 <= n2 < n ==> (#[trigger] t@[n2])@.len() == 9,
            forall|n2: int, k2: int|
                0 <= n2 < n && 0 <= k2 < 9 ==> (#[trigger] t@[n2]@[k2]) as int == binomial(
                    n2 as nat,
                    k2 as nat,
                ),
            forall|n2: int, k2: int|
                0 <= n2 < n && 0 <= k2 < 9 ==> (#[trigger] t@[n2]@[k2]) <= 0x1_0000_0000_0000u64,
        decreases 49 - n,
    {
        let mut row: Vec<u64> = Vec::new();
        row.push(1);
        let mut k: usize = 1;
        while k < 9
            invariant
                1 <= k <= 9,
                1 <= n < 49,
                row@.len() == k,
                t@.len() == n,
                forall|n2: int| 0 <= n2 < n ==> (#[trigger] t@[n2])@.len() == 9,
                forall|n2: int, k2: int|
                    0 <= n2 < n && 0 <= k2 < 9 ==> (#[trigger] t@[n2]@[k2]) as int == binomial(
                        n2 as nat,
                        k2 as nat,
                    ),
                forall|n2: int, k2: int|
                    0 <= n2 < n && 0 <= k2 < 9 ==> (#[trigger] t@[n2]@[k2])
                        <= 0x1_0000_0000_0000u64,
                forall|k2: int|
                    0 <= k2 < k ==> (#[trigger] row@[k2]) as int == binomial(n as nat, k2 as nat),
                forall|k2: int| 0 <= k2 < k ==> (#[trigger] row@[k2]) <= 0x1_0000_0000_0000u64,
            decreases 9 - k,
        {
            let prev = &t[n - 1];
            let value = prev[k - 1] + prev[k];
            proof {
                lemma_binomial_le_pow2(n as nat, k as nat);
                assert(pow2(48) == 0x1_0000_0000_0000) by {
                    lemma2_to64_rest();
                }
                if n < 48 {
                    lemma_pow2_strictly_increases(n as nat, 48);
                }
            }
            row.push(value);
            k = k + 1;
        }
        t.push(row);
        n = n + 1;
    }
    t
}

/// Sum of `binomial(48, j)` for `j` from `lo` to 8, from the table.
fn tail_sum_exec(t: &Vec<Vec<u64>>, lo: usize) -> (r: u64)
    requires
        t@.len() == 49,
        forall|n: int| 0 <= n < 49 ==> (#[trigger] t@[n])@.len() == 9,
        forall|n: int, k: int|
            0 <= n < 49 && 0 <= k < 9 ==> (#[trigger] t@[n]@[k]) as int == binomial(
                n as nat,
                k as nat,
            ),
        forall|n: int, k: int|
            0 <= n < 49 && 0 <= k < 9 ==> (#[trigger] t@[n]@[k]) <= 0x1_0000_0000_0000u64,
    ensures
        r as int == tail_sum(lo as int),
        r <= 9 * 0x1_0000_0000_0000u64,
{
    let mut r: u64 = 0;
    let mut k: usize = 9;
    while k > lo
        invariant
            lo <= k <= 9 || (lo > 9 && k == 9),
            t@.len() == 49,
            forall|n: int| 0 <= n < 49 ==> (#[trigger] t@[n])@.len() == 9,
            forall|n: int, k2: int|
                0 <= n < 49 && 0 <= k2 < 9 ==> (#[trigger] t@[n]@[k2]) as int == binomial(
                    n as nat,
                    k2 as nat,
                ),
            forall|n: int, k2: int|
                0 <= n < 49 && 0 <= k2 < 9 ==> (#[trigger] t@[n]@[k2]) <= 0x1_0000_0000_0000u64,
            r as int == tail_sum(k as int),
            r <= (9 - k) * 0x1_0000_0000_0000u64,
        decreases k,
    {
        k = k - 1;
        r = r + t[48][k];
    }
    proof {
        if lo > 9 {
            assert(tail_sum(lo as int) == 0);
            assert(tail_sum(9) == 0);
        }
    }
    r
}

impl Board {
    /// Compute the monotonic hash of this board.
    pub fn monotonic_hash(&self) -> (r: u128)
        ensures
            r == spec_monotonic_hash(*self),
    {
        let mut key: u128 = 0;

        let wk = self.piece_key_exec(WHITE);
        let bk = self.piece_key_exec(BLACK);
        key = key | (wk as u128) | ((bk as u128) << 17);
        key = key | ((self.castling as u128) << 34);
        key = key | (match self.en_passant {
            Some(ep) => ((ep as u128) + 1) << 38,
            None => 0,
        });

        let table = binomial_table();
        let white_pawns = self.get_pieces(PAWN, WHITE);
        let black_pawns = self.get_pieces(PAWN, BLACK);
        let s = tail_sum_exec(&table, 0);
        let wraw = pawn_raw_exec(white_pawns, true, &table);
        let braw = pawn_raw_exec(black_pawns, false, &table);
        proof {
            lemma_pawn_raw_le_total(white_pawns, true);
            lemma_pawn_raw_le_total(black_pawns, false);
        }
        let wrev: u64 = s - wraw;
        let brev: u64 = s - braw;
        proof {
            let si = s as int;
            let bi = brev as int;
            assert(si * bi <= 0x9_0000_0000_0000int * 0x9_0000_0000_0000int) by (nonlinear_arith)
                requires
                    0 <= si <= 0x9_0000_0000_0000int,
                    0 <= bi <= 0x9_0000_0000_0000int,
            ;
        }
        let field: u128 = (s as u128) * (brev as u128) + (wrev as u128);
        key = key | (field << 45);
        proof {
            assert(field == pawn_field(*self) as u128);
            assert(wk as u128 == piece_key(*self, WHITE) as u128);
            assert(bk as u128 == piece_key(*self, BLACK) as u128);
            assert(match self.en_passant {
                Some(ep) => ((ep as u128) + 1) == ep_field(*self) as u128,
                None => ep_field(*self) == 0,
            });
            let a = wk as u128;
            let b = bk as u128;
            let c = self.castling as u128;
            let d = ep_field(*self) as u128;
            let f = field;
            assert(0u128 << 38 == 0u128) by (bit_vector);
            assert((((((0u128 | a | (b << 17))) | (c << 34)) | (d << 38)) | (f << 45)) == (a | b
                << 17 | c << 34 | d << 38 | f << 45)) by (bit_vector);
        }
        key
    }

    /// The weighted material key of one side.
    fn piece_key_exec(&self, side: usize) -> (r: u32)
        requires
            side == WHITE || side == BLACK,
        ensures
            r as int == piece_key(*self, side),
            r < 0x10_0000,
    {
        let knights = popcount(self.get_pieces(KNIGHT, side));
        let bishops = self.get_pieces(BISHOP, side);
        let light_bishops = popcount(bishops & LIGHT_SQUARES);
        let dark_bishops = popcount(bishops & DARK_SQUARES);
        let rooks = popcount(self.get_pieces(ROOK, side));
        let queens = popcount(self.get_pieces(QUEEN, side));
        rooks + 11 * knights + 121 * light_bishops + 1210 * dark_bishops + 12100 * queens
    }
}

/// The raw rank of one pawn set, from the precomputed table.
fn pawn_raw_exec(pawns: u64, white: bool, t: &Vec<Vec<u64>>) -> (r: u64)
    requires
        t@.len() == 49,
        forall|n: int| 0 <= n < 49 ==> (#[trigger] t@[n])@.len() == 9,
        forall|n: int, k: int|
            0 <= n < 49 && 0 <= k < 9 ==> (#[trigger] t@[n]@[k]) as int == binomial(
                n as nat,
                k as nat,
            ),
        forall|n: int, k: int|
            0 <= n < 49 && 0 <= k < 9 ==> (#[trigger] t@[n]@[k]) <= 0x1_0000_0000_0000u64,
    ensures
        r as int == pawn_raw(pawns, white),
{
    let p = popcount(pawns);
    let mut raw: u64 = tail_sum_exec(t, (p + 1) as usize);
    let mut remaining: u32 = p;
    let mut step: usize = 0;
    while step < 48
        invariant
            0 <= step <= 48,
            t@.len() == 49,
            forall|n: int| 0 <= n < 49 ==> (#[trigger] t@[n])@.len() == 9,
            forall|n: int, k: int|
                0 <= n < 49 && 0 <= k < 9 ==> (#[trigger] t@[n]@[k]) as int == binomial(
                    n as nat,
                    k as nat,
                ),
            forall|n: int, k: int|
                0 <= n < 49 && 0 <= k < 9 ==> (#[trigger] t@[n]@[k]) <= 0x1_0000_0000_0000u64,
            raw as int + raw_walk(pawns, white, step as int, remaining as int) == pawn_raw(
                pawns,
                white,
            ),
            raw <= (9 + step) * 0x1_0000_0000_0000u64,
            remaining <= 64,
        decreases 48 - step,
    {
        let sq: u64 = if white {
            55 - (step as u64)
        } else {
            8 + (step as u64)
        };
        if (pawns >> sq) & 1 == 1 && remaining >= 1 {
            if remaining <= 8 {
                raw = raw + t[47 - step][remaining as usize];
            }
            remaining = remaining - 1;
        }
        step = step + 1;
    }
    raw
}

/// The packed hash orders by its fields: when every field of one board is
/// at most the corresponding field of another, and each field fits its bit
/// range, the whole hash compares the same way. A capture lowers the piece
/// key, lost castling rights lower the castling field, a consumed en-passant
/// right zeroes its field, and pawn progress lowers the pawn field — each
/// therefore lowers the hash.
pub proof fn lemma_hash_monotone_in_fields(b1: Board, b2: Board)
    requires
        0 <= piece_key(b1, WHITE) <= piece_key(b2, WHITE) < 0x20000,
        0 <= piece_key(b1, BLACK) <= piece_key(b2, BLACK) < 0x20000,
        b1.castling <= b2.castling < 16,
        0 <= ep_field(b1) <= ep_field(b2) < 128,
        0 <= pawn_field(b1) <= pawn_field(b2) < 0x400_0000_0000_0000,
    ensures
        spec_monotonic_hash(b1) <= spec_monotonic_hash(b2),
{
    let a1 = piece_key(b1, WHITE) as u128;
    let a2 = piece_key(b2, WHITE) as u128;
    let k1 = piece_key(b1, BLACK) as u128;
    let k2 = piece_key(b2, BLACK) as u128;
    let c1 = b1.castling as u128;
    let c2 = b2.castling as u128;
    let e1 = ep_field(b1) as u128;
    let e2 = ep_field(b2) as u128;
    let p1 = pawn_field(b1) as u128;
    let p2 = pawn_field(b2) as u128;
    lemma_packed_fields_ordered(a1, a2, k1, k2, c1, c2, e1, e2, p1, p2);
}

/// Five fields packed into disjoint bit ranges compare componentwise.
proof fn lemma_packed_fields_ordered(
    a1: u128,
    a2: u128,
    k1: u128,
    k2: u128,
    c1: u128,
    c2: u128,
    e1: u128,
    e2: u128,
    p1: u128,
    p2: u128,
)
    by (bit_vector)
    requires
        a1 <= a2 < 0x20000,
        k1 <= k2 < 0x20000,
        c1 <= c2 < 16,
        e1 <= e2 < 128,
        p1 <= p2 < 0x400_0000_0000_0000,
    ensures
        (a1 | k1 << 17 | c1 << 34 | e1 << 38 | p1 << 45) <= (a2 | k2 << 17 | c2 << 34 | e2 << 38
            | p2 << 45),
{
}

/// Losing any single piece strictly lowers that side's material key: each
/// weight exceeds anything the lighter pieces can contribute together.
pub proof fn lemma_piece_key_strictly_monotone(
    rooks: int,
    knights: int,
    light_bishops: int,
    dark_bishops: int,
    queens: int,
    rooks2: int,
    knights2: int,
    light_bishops2: int,
    dark_bishops2: int,
    queens2: int,
)
    requires
        0 <= rooks2 <= rooks,
        0 <= knights2 <= knights,
        0 <= light_bishops2 <= light_bishops,
        0 <= dark_bishops2 <= dark_bishops,
        0 <= queens2 <= queens,
        rooks2 < rooks || knights2 < knights || light_bishops2 < light_bishops || dark_bishops2
            < dark_bishops || queens2 < queens,
    ensures
        rooks2 + 11 * knights2 + 121 * light_bishops2 + 1210 * dark_bishops2 + 12100 * queens2
            < rooks + 11 * knights + 121 * light_bishops + 1210 * dark_bishops + 12100 * queens,
{
}

/// The strict form: with every field in range and at most its counterpart,
/// one strictly smaller field makes the whole hash strictly smaller. This is
/// why a capture, a lost castling right, a consumed en-passant right or any
/// pawn progress strictly lowers the hash.
pub proof fn lemma_hash_strictly_monotone_in_fields(b1: Board, b2: Board)
    requires
        0 <= piece_key(b1, WHITE) <= piece_key(b2, WHITE) < 0x20000,
        0 <= piece_key(b1, BLACK) <= piece_key(b2, BLACK) < 0x20000,
        b1.castling <= b2.castling < 16,
        0 <= ep_field(b1) <= ep_field(b2) < 128,
        0 <= pawn_field(b1) <= pawn_field(b2) < 0x400_0000_0000_0000,
        piece_key(b1, WHITE) < piece_key(b2, WHITE) || piece_key(b1, BLACK) < piece_key(b2, BLACK)
            || b1.castling < b2.castling || ep_field(b1) < ep_field(b2) || pawn_field(b1)
            < pawn_field(b2),
    ensures
        spec_monotonic_hash(b1) < spec_monotonic_hash(b2),
{
    let a1 = piece_key(b1, WHITE) as u128;
    let a2 = piece_key(b2, WHITE) as u128;
    let k1 = piece_key(b1, BLACK) as u128;
    let k2 = piece_key(b2, BLACK) as u128;
    let c1 = b1.castling as u128;
    let c2 = b2.castling as u128;
    let e1 = ep_field(b1) as u128;
    let e2 = ep_field(b2) as u128;
    let p1 = pawn_field(b1) as u128;
    let p2 = pawn_field(b2) as u128;
    lemma_packed_fields_strictly_ordered(a1, a2, k1, k2, c1, c2, e1, e2, p1, p2);
}

proof fn lemma_packed_fields_strictly_ordered(
    a1: u128,
    a2: u128,
    k1: u128,
    k2: u128,
    c1: u128,
    c2: u128,
    e1: u128,
    e2: u128,
    p1: u128,
    p2: u128,
)
    by (bit_vector)
    requires
        a1 <= a2 < 0x20000,
        k1 <= k2 < 0x20000,
        c1 <= c2 < 16,
        e1 <= e2 < 128,
        p1 <= p2 < 0x400_0000_0000_0000,
        a1 < a2 || k1 < k2 || c1 < c2 || e1 < e2 || p1 < p2,
    ensures
        (a1 | k1 << 17 | c1 << 34 | e1 << 38 | p1 << 45) < (a2 | k2 << 17 | c2 << 34 | e2 << 38
            | p2 << 45),
{
}

/// With legal piece counts the material key fits its 17-bit field.
pub proof fn lemma_piece_key_fits(b: Board, side: usize)
    requires
        ones(b.spec_pieces(KNIGHT, side)) <= 10,
        ones(b.spec_pieces(BISHOP, side) & LIGHT_SQUARES) <= 10,
        ones(b.spec_pieces(BISHOP, side) & DARK_SQUARES) <= 10,
        ones(b.spec_pieces(ROOK, side)) <= 10,
        ones(b.spec_pieces(QUEEN, side)) <= 9,
    ensures
        0 <= piece_key(b, side) < 0x20000,
{
}

/// Adding a square to pick from cannot shrink a binomial coefficient.
proof fn lemma_binomial_n_monotone(n: nat, k: nat)
    ensures
        binomial(n, k) <= binomial(n + 1, k),
{
    if k == 0 {
    } else {
        assert(binomial(n + 1, k) == binomial(n, (k - 1) as nat) + binomial(n, k));
    }
}

/// A binomial is positive exactly while there are enough squares to pick
/// from.
proof fn lemma_binomial_pos(n: nat, k: nat)
    ensures
        k <= n ==> binomial(n, k) >= 1,
        k > n ==> binomial(n, k) == 0,
    decreases n, k,
{
    if k > 0 && n > 0 {
        lemma_binomial_pos((n - 1) as nat, (k - 1) as nat);
        lemma_binomial_pos((n - 1) as nat, k);
    }
}

/// The walk from scan position `t` with `r` pawns left stays below one
/// binomial of the remaining squares: the combinadic rank of any placement
/// is strictly below the count of all placements.
proof fn lemma_raw_walk_le(pawns: u64, white: bool, t: int, r: int)
    requires
        0 <= t <= 48,
        0 <= r,
    ensures
        raw_walk(pawns, white, t, r) <= binomial(
            (48 - t) as nat,
            (if r < 8 {
                r
            } else {
                8
            }) as nat,
        ) as int,
        binomial(
            (48 - t) as nat,
            (if r < 8 {
                r
            } else {
                8
            }) as nat,
        ) >= 1 ==> raw_walk(pawns, white, t, r) < binomial(
            (48 - t) as nat,
            (if r < 8 {
                r
            } else {
                8
            }) as nat,
        ) as int,
    decreases 48 - t,
{
    let m = (if r < 8 {
        r
    } else {
        8
    }) as nat;
    lemma_binomial_pos((48 - t) as nat, m);
    if t < 48 {
        lemma_binomial_pos((47 - t) as nat, m);
        let sq = scan_square(white, t);
        if (pawns >> (sq as u64)) & 1 == 1 && r >= 1 {
            lemma_raw_walk_le(pawns, white, t + 1, r - 1);
            lemma_binomial_pos((47 - t) as nat, (if r - 1 < 8 {
                r - 1
            } else {
                8
            }) as nat);
            if r <= 8 {
                assert(binomial((48 - t) as nat, r as nat) == binomial(
                    (47 - t) as nat,
                    (r - 1) as nat,
                ) + binomial((47 - t) as nat, r as nat));
            } else {
                lemma_binomial_n_monotone((47 - t) as nat, 8);
            }
        } else {
            lemma_raw_walk_le(pawns, white, t + 1, r);
            lemma_binomial_n_monotone((47 - t) as nat, m);
        }
    }
}

/// Tail sums of binomials shrink as the start index grows.
proof fn lemma_tail_sum_le(a: int, b: int)
    requires
        0 <= a <= b,
    ensures
        tail_sum(b) <= tail_sum(a),
    decreases b - a,
{
    if a < b {
        lemma_tail_sum_le(a + 1, b);
    }
}

/// No pawn set ranks past the total number of pawn placements: the raw rank
/// always fits under the subset count, so the reversed rank is non-negative.
pub proof fn lemma_pawn_raw_le_total(pawns: u64, white: bool)
    ensures
        0 <= pawn_raw(pawns, white) <= total_combos(),
{
    let p = ones(pawns) as int;
    lemma_raw_walk_le(pawns, white, 0, p);
    lemma_raw_walk_nonneg(pawns, white, 0, p);
    lemma_tail_sum_nonneg(p + 1);
    if p <= 8 {
        assert(tail_sum(p) == binomial(48, p as nat) as int + tail_sum(p + 1));
        lemma_tail_sum_le(0, p);
    } else {
        assert(tail_sum(p + 1) == 0);
        assert(tail_sum(8) == binomial(48, 8) as int + tail_sum(9));
        lemma_tail_sum_le(0, 8);
    }
}

proof fn lemma_raw_walk_nonneg(pawns: u64, white: bool, t: int, r: int)
    ensures
        0 <= raw_walk(pawns, white, t, r),
    decreases 48 - t,
{
    if 0 <= t < 48 {
        lemma_raw_walk_nonneg(pawns, white, t + 1, r - 1);
        lemma_raw_walk_nonneg(pawns, white, t + 1, r);
    }
}

proof fn lemma_tail_sum_nonneg(k: int)
    ensures
        0 <= tail_sum(k),
    decreases 9 - k,
{
    if 0 <= k <= 8 {
        lemma_tail_sum_nonneg(k + 1);
    }
}

/// The binomial coefficients of up to eight of 48 squares, row by row of
/// Pascal's triangle; each row follows from the one before it.
proof fn lemma_binomial_values()
    ensures
        binomial(48, 0) == 1,
        binomial(48, 1) == 48,
        binomial(48, 2) == 1128,
        binomial(48, 3) == 17296,
        binomial(48, 4) == 194580,
        binomial(48, 5) == 1712304,
        binomial(48, 6) == 12271512,
        binomial(48, 7) == 73629072,
        binomial(48, 8) == 377348994,
{
    assert(binomial(0, 0) == 1 && binomial(0, 1) == 0 && binomial(0, 2) == 0 && binomial(0, 3) == 0 && binomial(0, 4) == 0 && binomial(0, 5) == 0 && binomial(0, 6) == 0 && binomial(0, 7) == 0 && binomial(0, 8) == 0);
    assert(binomial(1, 0) == 1 && binomial(1, 1) == 1 && binomial(1, 2) == 0 && binomial(1, 3) == 0 && binomial(1, 4) == 0 && binomial(1, 5) == 0 && binomial(1, 6) == 0 && binomial(1, 7) == 0 && binomial(1, 8) == 0);
    assert(binomial(2, 0) == 1 && binomial(2, 1) == 2 && binomial(2, 2) == 1 && binomial(2, 3) == 0 && binomial(2, 4) == 0 && binomial(2, 5) == 0 && binomial(2, 6) == 0 && binomial(2, 7) == 0 && binomial(2, 8) == 0);
    assert(binomial(3, 0) == 1 && binomial(3, 1) == 3 && binomial(3, 2) == 3 && binomial(3, 3) == 1 && binomial(3, 4) == 0 && binomial(3, 5) == 0 && binomial(3, 6) == 0 && binomial(3, 7) == 0 && binomial(3, 8) == 0);
    assert(binomial(4, 0) == 1 && binomial(4, 1) == 4 && binomial(4, 2) == 6 && binomial(4, 3) == 4 && binomial(4, 4) == 1 && binomial(4, 5) == 0 && binomial(4, 6) == 0 && binomial(4, 7) == 0 && binomial(4, 8) == 0);
    assert(binomial(5, 0) == 1 && binomial(5, 1) == 5 && binomial(5, 2) == 10 && binomial(5, 3) == 10 && binomial(5, 4) == 5 && binomial(5, 5) == 1 && binomial(5, 6) == 0 && binomial(5, 7) == 0 && binomial(5, 8) == 0);
    assert(binomial(6, 0) == 1 && binomial(6, 1) == 6 && binomial(6, 2) == 15 && binomial(6, 3) == 20 && binomial(6, 4) == 15 && binomial(6, 5) == 6 && binomial(6, 6) == 1 && binomial(6, 7) == 0 && binomial(6, 8) == 0);
    assert(binomial(7, 0) == 1 && binomial(7, 1) == 7 && binomial(7, 2) == 21 && binomial(7, 3) == 35 && binomial(7, 4) == 35 && binomial(7, 5) == 21 && binomial(7, 6) == 7 && binomial(7, 7) == 1 && binomial(7, 8) == 0);
    assert(binomial(8, 0) == 1 && binomial(8, 1) == 8 && binomial(8, 2) == 28 && binomial(8, 3) == 56 && binomial(8, 4) == 70 && binomial(8, 5) == 56 && binomial(8, 6) == 28 && binomial(8, 7) == 8 && binomial(8, 8) == 1);
    assert(binomial(9, 0) == 1 && binomial(9, 1) == 9 && binomial(9, 2) == 36 && binomial(9, 3) == 84 && binomial(9, 4) == 126 && binomial(9, 5) == 126 && binomial(9, 6) == 84 && binomial(9, 7) == 36 && binomial(9, 8) == 9);
    assert(binomial(10, 0) == 1 && binomial(10, 1) == 10 && binomial(10, 2) == 45 && binomial(10, 3) == 120 && binomial(10, 4) == 210 && binomial(10, 5) == 252 && binomial(10, 6) == 210 && binomial(10, 7) == 120 && binomial(10, 8) == 45);
    assert(binomial(11, 0) == 1 && binomial(11, 1) == 11 && binomial(11, 2) == 55 && binomial(11, 3) == 165 && binomial(11, 4) == 330 && binomial(11, 5) == 462 && binomial(11, 6) == 462 && binomial(11, 7) == 330 && binomial(11, 8) == 165);
    assert(binomial(12, 0) == 1 && binomial(12, 1) == 12 && binomial(12, 2) == 66 && binomial(12, 3) == 220 && binomial(12, 4) == 495 && binomial(12, 5) == 792 && binomial(12, 6) == 924 && binomial(12, 7) == 792 && binomial(12, 8) == 495);
    assert(binomial(13, 0) == 1 && binomial(13, 1) == 13 && binomial(13, 2) == 78 && binomial(13, 3) == 286 && binomial(13, 4) == 715 && binomial(13, 5) == 1287 && binomial(13, 6) == 1716 && binomial(13, 7) == 1716 && binomial(13, 8) == 1287);
    assert(binomial(14, 0) == 1 && binomial(14, 1) == 14 && binomial(14, 2) == 91 && binomial(14, 3) == 364 && binomial(14, 4) == 1001 && binomial(14, 5) == 2002 && binomial(14, 6) == 3003 && binomial(14, 7) == 3432 && binomial(14, 8) == 3003);
    assert(binomial(15, 0) == 1 && binomial(15, 1) == 15 && binomial(15, 2) == 105 && binomial(15, 3) == 455 && binomial(15, 4) == 1365 && binomial(15, 5) == 3003 && binomial(15, 6) == 5005 && binomial(15, 7) == 6435 && binomial(15, 8) == 6435);
    assert(binomial(16, 0) == 1 && binomial(16, 1) == 16 && binomial(16, 2) == 120 && binomial(16, 3) == 560 && binomial(16, 4) == 1820 && binomial(16, 5) == 4368 && binomial(16, 6) == 8008 && binomial(16, 7) == 11440 && binomial(16, 8) == 12870);
    assert(binomial(17, 0) == 1 && binomial(17, 1) == 17 && binomial(17, 2) == 136 && binomial(17, 3) == 680 && binomial(17, 4) == 2380 && binomial(17, 5) == 6188 && binomial(17, 6) == 12376 && binomial(17, 7) == 19448 && binomial(17, 8) == 24310);
    assert(binomial(18, 0) == 1 && binomial(18, 1) == 18 && binomial(18, 2) == 153 && binomial(18, 3) == 816 && binomial(18, 4) == 3060 && binomial(18, 5) == 8568 && binomial(18, 6) == 18564 && binomial(18, 7) == 31824 && binomial(18, 8) == 43758);
    assert(binomial(19, 0) == 1 && binomial(19, 1) == 19 && binomial(19, 2) == 171 && binomial(19, 3) == 969 && binomial(19, 4) == 3876 && binomial(19, 5) == 11628 && binomial(19, 6) == 27132 && binomial(19, 7) == 50388 && binomial(19, 8) == 75582);
    assert(binomial(20, 0) == 1 && binomial(20, 1) == 20 && binomial(20, 2) == 190 && binomial(20, 3) == 1140 && binomial(20, 4) == 4845 && binomial(20, 5) == 15504 && binomial(20, 6) == 38760 && binomial(20, 7) == 77520 && binomial(20, 8) == 125970);
    assert(binomial(21, 0) == 1 && binomial(21, 1) == 21 && binomial(21, 2) == 210 && binomial(21, 3) == 1330 && binomial(21, 4) == 5985 && binomial(21, 5) == 20349 && binomial(21, 6) == 54264 && binomial(21, 7) == 116280 && binomial(21, 8) == 203490);
    assert(binomial(22, 0) == 1 && binomial(22, 1) == 22 && binomial(22, 2) == 231 && binomial(22, 3) == 1540 && binomial(22, 4) == 7315 && binomial(22, 5) == 26334 && binomial(22, 6) == 74613 && binomial(22, 7) == 170544 && binomial(22, 8) == 319770);
    assert(binomial(23, 0) == 1 && binomial(23, 1) == 23 && binomial(23, 2) == 253 && binomial(23, 3) == 1771 && binomial(23, 4) == 8855 && binomial(23, 5) == 33649 && binomial(23, 6) == 100947 && binomial(23, 7) == 245157 && binomial(23, 8) == 490314);
    assert(binomial(24, 0) == 1 && binomial(24, 1) == 24 && binomial(24, 2) == 276 && binomial(24, 3) == 2024 && binomial(24, 4) == 10626 && binomial(24, 5) == 42504 && binomial(24, 6) == 134596 && binomial(24, 7) == 346104 && binomial(24, 8) == 735471);
    assert(binomial(25, 0) == 1 && binomial(25, 1) == 25 && binomial(25, 2) == 300 && binomial(25, 3) == 2300 && binomial(25, 4) == 12650 && binomial(25, 5) == 53130 && binomial(25, 6) == 177100 && binomial(25, 7) == 480700 && binomial(25, 8) == 1081575);
    assert(binomial(26, 0) == 1 && binomial(26, 1) == 26 && binomial(26, 2) == 325 && binomial(26, 3) == 2600 && binomial(26, 4) == 14950 && binomial(26, 5) == 65780 && binomial(26, 6) == 230230 && binomial(26, 7) == 657800 && binomial(26, 8) == 1562275);
    assert(binomial(27, 0) == 1 && binomial(27, 1) == 27 && binomial(27, 2) == 351 && binomial(27, 3) == 2925 && binomial(27, 4) == 17550 && binomial(27, 5) == 80730 && binomial(27, 6) == 296010 && binomial(27, 7) == 888030 && binomial(27, 8) == 2220075);
    assert(binomial(28, 0) == 1 && binomial(28, 1) == 28 && binomial(28, 2) == 378 && binomial(28, 3) == 3276 && binomial(28, 4) == 20475 && binomial(28, 5) == 98280 && binomial(28, 6) == 376740 && binomial(28, 7) == 1184040 && binomial(28, 8) == 3108105);
    assert(binomial(29, 0) == 1 && binomial(29, 1) == 29 && binomial(29, 2) == 406 && binomial(29, 3) == 3654 && binomial(29, 4) == 23751 && binomial(29, 5) == 118755 && binomial(29, 6) == 475020 && binomial(29, 7) == 1560780 && binomial(29, 8) == 4292145);
    assert(binomial(30, 0) == 1 && binomial(30, 1) == 30 && binomial(30, 2) == 435 && binomial(30, 3) == 4060 && binomial(30, 4) == 27405 && binomial(30, 5) == 142506 && binomial(30, 6) == 593775 && binomial(30, 7) == 2035800 && binomial(30, 8) == 5852925);
    assert(binomial(31, 0) == 1 && binomial(31, 1) == 31 && binomial(31, 2) == 465 && binomial(31, 3) == 4495 && binomial(31, 4) == 31465 && binomial(31, 5) == 169911 && binomial(31, 6) == 736281 && binomial(31, 7) == 2629575 && binomial(31, 8) == 7888725);
    assert(binomial(32, 0) == 1 && binomial(32, 1) == 32 && binomial(32, 2) == 496 && binomial(32, 3) == 4960 && binomial(32, 4) == 35960 && binomial(32, 5) == 201376 && binomial(32, 6) == 906192 && binomial(32, 7) == 3365856 && binomial(32, 8) == 10518300);
    assert(binomial(33, 0) == 1 && binomial(33, 1) == 33 && binomial(33, 2) == 528 && binomial(33, 3) == 5456 && binomial(33, 4) == 40920 && binomial(33, 5) == 237336 && binomial(33, 6) == 1107568 && binomial(33, 7) == 4272048 && binomial(33, 8) == 13884156);
    assert(binomial(34, 0) == 1 && binomial(34, 1) == 34 && binomial(34, 2) == 561 && binomial(34, 3) == 5984 && binomial(34, 4) == 46376 && binomial(34, 5) == 278256 && binomial(34, 6) == 1344904 && binomial(34, 7) == 5379616 && binomial(34, 8) == 18156204);
    assert(binomial(35, 0) == 1 && binomial(35, 1) == 35 && binomial(35, 2) == 595 && binomial(35, 3) == 6545 && binomial(35, 4) == 52360 && binomial(35, 5) == 324632 && binomial(35, 6) == 1623160 && binomial(35, 7) == 6724520 && binomial(35, 8) == 23535820);
    assert(binomial(36, 0) == 1 && binomial(36, 1) == 36 && binomial(36, 2) == 630 && binomial(36, 3) == 7140 && binomial(36, 4) == 58905 && binomial(36, 5) == 376992 && binomial(36, 6) == 1947792 && binomial(36, 7) == 8347680 && binomial(36, 8) == 30260340);
    assert(binomial(37, 0) == 1 && binomial(37, 1) == 37 && binomial(37, 2) == 666 && binomial(37, 3) == 7770 && binomial(37, 4) == 66045 && binomial(37, 5) == 435897 && binomial(37, 6) == 2324784 && binomial(37, 7) == 10295472 && binomial(37, 8) == 38608020);
    assert(binomial(38, 0) == 1 && binomial(38, 1) == 38 && binomial(38, 2) == 703 && binomial(38, 3) == 8436 && binomial(38, 4) == 73815 && binomial(38, 5) == 501942 && binomial(38, 6) == 2760681 && binomial(38, 7) == 12620256 && binomial(38, 8) == 48903492);
    assert(binomial(39, 0) == 1 && binomial(39, 1) == 39 && binomial(39, 2) == 741 && binomial(39, 3) == 9139 && binomial(39, 4) == 82251 && binomial(39, 5) == 575757 && binomial(39, 6) == 3262623 && binomial(39, 7) == 15380937 && binomial(39, 8) == 61523748);
    assert(binomial(40, 0) == 1 && binomial(40, 1) == 40 && binomial(40, 2) == 780 && binomial(40, 3) == 9880 && binomial(40, 4) == 91390 && binomial(40, 5) == 658008 && binomial(40, 6) == 3838380 && binomial(40, 7) == 18643560 && binomial(40, 8) == 76904685);
    assert(binomial(41, 0) == 1 && binomial(41, 1) == 41 && binomial(41, 2) == 820 && binomial(41, 3) == 10660 && binomial(41, 4) == 101270 && binomial(41, 5) == 749398 && binomial(41, 6) == 4496388 && binomial(41, 7) == 22481940 && binomial(41, 8) == 95548245);
    assert(binomial(42, 0) == 1 && binomial(42, 1) == 42 && binomial(42, 2) == 861 && binomial(42, 3) == 11480 && binomial(42, 4) == 111930 && binomial(42, 5) == 850668 && binomial(42, 6) == 5245786 && binomial(42, 7) == 26978328 && binomial(42, 8) == 118030185);
    assert(binomial(43, 0) == 1 && binomial(43, 1) == 43 && binomial(43, 2) == 903 && binomial(43, 3) == 12341 && binomial(43, 4) == 123410 && binomial(43, 5) == 962598 && binomial(43, 6) == 6096454 && binomial(43, 7) == 32224114 && binomial(43, 8) == 145008513);
    assert(binomial(44, 0) == 1 && binomial(44, 1) == 44 && binomial(44, 2) == 946 && binomial(44, 3) == 13244 && binomial(44, 4) == 135751 && binomial(44, 5) == 1086008 && binomial(44, 6) == 7059052 && binomial(44, 7) == 38320568 && binomial(44, 8) == 177232627);
    assert(binomial(45, 0) == 1 && binomial(45, 1) == 45 && binomial(45, 2) == 990 && binomial(45, 3) == 14190 && binomial(45, 4) == 148995 && binomial(45, 5) == 1221759 && binomial(45, 6) == 8145060 && binomial(45, 7) == 45379620 && binomial(45, 8) == 215553195);
    assert(binomial(46, 0) == 1 && binomial(46, 1) == 46 && binomial(46, 2) == 1035 && binomial(46, 3) == 15180 && binomial(46, 4) == 163185 && binomial(46, 5) == 1370754 && binomial(46, 6) == 9366819 && binomial(46, 7) == 53524680 && binomial(46, 8) == 260932815);
    assert(binomial(47, 0) == 1 && binomial(47, 1) == 47 && binomial(47, 2) == 1081 && binomial(47, 3) == 16215 && binomial(47, 4) == 178365 && binomial(47, 5) == 1533939 && binomial(47, 6) == 10737573 && binomial(47, 7) == 62891499 && binomial(47, 8) == 314457495);
    assert(binomial(48, 0) == 1 && binomial(48, 1) == 48 && binomial(48, 2) == 1128 && binomial(48, 3) == 17296 && binomial(48, 4) == 194580 && binomial(48, 5) == 1712304 && binomial(48, 6) == 12271512 && binomial(48, 7) == 73629072 && binomial(48, 8) == 377348994);
}

/// The subset total written out: there are 465174935 pawn sets of at most
/// eight of the 48 non-promotion squares.
pub proof fn lemma_total_combos_value()
    ensures
        total_combos() == 465174935,
{
    lemma_binomial_values();
    assert(tail_sum(9) == 0);
    assert(tail_sum(8) == 377348994);
    assert(tail_sum(7) == 450978066);
    assert(tail_sum(6) == 463249578);
    assert(tail_sum(5) == 464961882);
    assert(tail_sum(4) == 465156462);
    assert(tail_sum(3) == 465173758);
    assert(tail_sum(2) == 465174886);
    assert(tail_sum(1) == 465174934);
    assert(tail_sum(0) == 465174935);
}

/// The packed pawn field always fits its 58-bit range.
pub proof fn lemma_pawn_field_fits(b: Board)
    ensures
        0 <= pawn_field(b) < 0x400_0000_0000_0000,
{
    lemma_total_combos_value();
    lemma_pawn_raw_le_total(b.spec_pieces(PAWN, WHITE), true);
    lemma_pawn_raw_le_total(b.spec_pieces(PAWN, BLACK), false);
    let s = total_combos();
    let rb = pawn_rev(b.spec_pieces(PAWN, BLACK), false);
    let rw = pawn_rev(b.spec_pieces(PAWN, WHITE), true);
    assert(0 <= s * rb <= s * s) by (nonlinear_arith)
        requires
            0 <= rb <= s,
    ;
}

/// Products against the subset total order by their factor.
proof fn lemma_scaled_rev_monotone(s: int, r1: int, r2: int)
    requires
        0 <= r1 <= r2,
        0 <= s,
    ensures
        s * r1 <= s * r2,
{
    vstd::arithmetic::mul::lemma_mul_inequality(r1, r2, s);
}

/// The board-level monotonicity of the hash: a board whose material keys,
/// castling rights, en-passant field and reversed pawn ranks are all at most
/// another's — as after any sequence of captures, pawn moves, castling or
/// en-passant events — hashes at most as high, and strictly lower as soon as
/// one of those fields strictly dropped.
pub proof fn lemma_monotonic_hash_ordered(b1: Board, b2: Board)
    requires
        b1.wf(),
        b2.wf(),
        0 <= piece_key(b1, WHITE) <= piece_key(b2, WHITE) < 0x20000,
        0 <= piece_key(b1, BLACK) <= piece_key(b2, BLACK) < 0x20000,
        b1.castling <= b2.castling,
        ep_field(b1) <= ep_field(b2),
        pawn_rev(b1.spec_pieces(PAWN, WHITE), true) <= pawn_rev(b2.spec_pieces(PAWN, WHITE), true),
        pawn_rev(b1.spec_pieces(PAWN, BLACK), false) <= pawn_rev(
            b2.spec_pieces(PAWN, BLACK),
            false,
        ),
    ensures
        spec_monotonic_hash(b1) <= spec_monotonic_hash(b2),
        (piece_key(b1, WHITE) < piece_key(b2, WHITE) || piece_key(b1, BLACK) < piece_key(
            b2,
            BLACK,
        ) || b1.castling < b2.castling || ep_field(b1) < ep_field(b2) || pawn_field(b1)
            < pawn_field(b2)) ==> spec_monotonic_hash(b1) < spec_monotonic_hash(b2),
{
    lemma_pawn_field_fits(b1);
    lemma_pawn_field_fits(b2);
    lemma_total_combos_value();
    lemma_pawn_raw_le_total(b1.spec_pieces(PAWN, WHITE), true);
    lemma_pawn_raw_le_total(b1.spec_pieces(PAWN, BLACK), false);
    lemma_pawn_raw_le_total(b2.spec_pieces(PAWN, WHITE), true);
    lemma_pawn_raw_le_total(b2.spec_pieces(PAWN, BLACK), false);
    lemma_scaled_rev_monotone(
        total_combos(),
        pawn_rev(b1.spec_pieces(PAWN, BLACK), false),
        pawn_rev(b2.spec_pieces(PAWN, BLACK), false),
    );
    lemma_hash_monotone_in_fields(b1, b2);
    if piece_key(b1, WHITE) < piece_key(b2, WHITE) || piece_key(b1, BLACK) < piece_key(b2, BLACK)
        || b1.castling < b2.castling || ep_field(b1) < ep_field(b2) || pawn_field(b1)
        < pawn_field(b2) {
        lemma_hash_strictly_monotone_in_fields(b1, b2);
    }
}

/// Prefixing the tail sum with more binomials only grows it.
proof fn lemma_tail_sum_ge(a: int, b: int)
    requires
        0 <= a <= b <= 8,
    ensures
        tail_sum(a) >= binomial(48, b as nat) as int + tail_sum(b + 1),
    decreases b - a,
{
    lemma_binomial_pos(48, a as nat);
    if a < b {
        lemma_tail_sum_ge(a + 1, b);
    }
}

/// Capturing a pawn strictly raises the raw rank — and so strictly lowers
/// the reversed rank: every set of fewer pawns ranks past every set of more,
/// wherever either stands.
pub proof fn lemma_fewer_pawns_rank_later(pawns1: u64, pawns2: u64, white: bool)
    requires
        ones(pawns2) < ones(pawns1) <= 8,
    ensures
        pawn_raw(pawns2, white) > pawn_raw(pawns1, white),
        pawn_rev(pawns2, white) < pawn_rev(pawns1, white),
{
    let p1 = ones(pawns1) as int;
    let p2 = ones(pawns2) as int;
    lemma_raw_walk_le(pawns1, white, 0, p1);
    lemma_raw_walk_nonneg(pawns2, white, 0, p2);
    lemma_binomial_pos(48, p1 as nat);
    lemma_tail_sum_ge(p2 + 1, p1);
    lemma_pawn_raw_le_total(pawns1, white);
    lemma_pawn_raw_le_total(pawns2, white);
}

/// The scan's occupancy test at step `t`, as `raw_walk` evaluates it.
pub open spec fn scan_bit(pawns: u64, white: bool, t: int) -> bool {
    (pawns >> (scan_square(white, t) as u64)) & 1 == 1
}

/// Pawns still to place after walking scan positions `t` up to `stop`.
pub open spec fn rem_after(pawns: u64, white: bool, t: int, stop: int, r: int) -> int
    decreases stop - t,
{
    if t >= stop {
        r
    } else if scan_bit(pawns, white, t) && r >= 1 {
        rem_after(pawns, white, t + 1, stop, r - 1)
    } else {
        rem_after(pawns, white, t + 1, stop, r)
    }
}

proof fn lemma_rem_after_bounds(pawns: u64, white: bool, t: int, stop: int, r: int)
    requires
        t <= stop,
        0 <= r,
    ensures
        0 <= rem_after(pawns, white, t, stop, r) <= r,
    decreases stop - t,
{
    if t < stop {
        if scan_bit(pawns, white, t) && r >= 1 {
            lemma_rem_after_bounds(pawns, white, t + 1, stop, r - 1);
        } else {
            lemma_rem_after_bounds(pawns, white, t + 1, stop, r);
        }
    }
}

/// Over a stretch where two pawn sets agree, their walks differ by exactly
/// what the walks from the end of the stretch differ, with the same count of
/// pawns left.
proof fn lemma_walk_agree(p1: u64, p2: u64, white: bool, t: int, stop: int, r: int)
    requires
        0 <= t <= stop <= 48,
        0 <= r,
        forall|u: int| t <= u < stop ==> scan_bit(p1, white, u) == scan_bit(p2, white, u),
    ensures
        raw_walk(p2, white, t, r) - raw_walk(p1, white, t, r) == raw_walk(
            p2,
            white,
            stop,
            rem_after(p1, white, t, stop, r),
        ) - raw_walk(p1, white, stop, rem_after(p1, white, t, stop, r)),
    decreases stop - t,
{
    if t < stop {
        if scan_bit(p1, white, t) && r >= 1 {
            lemma_walk_agree(p1, p2, white, t + 1, stop, r - 1);
        } else {
            lemma_walk_agree(p1, p2, white, t + 1, stop, r);
        }
    }
}

/// At the advanced square itself the occupied walk overtakes the empty one:
/// its leading binomial already exceeds everything the other walk can gather.
proof fn lemma_walk_advance_at(p1: u64, p2: u64, white: bool, t1: int, r: int)
    requires
        0 <= t1 < 48,
        1 <= r <= 8,
        r <= 47 - t1,
        scan_bit(p2, white, t1),
        !scan_bit(p1, white, t1),
    ensures
        raw_walk(p2, white, t1, r) > raw_walk(p1, white, t1, r),
{
    lemma_raw_walk_le(p1, white, t1 + 1, r);
    lemma_raw_walk_nonneg(p2, white, t1 + 1, r - 1);
    lemma_binomial_pos((47 - t1) as nat, r as nat);
    assert(raw_walk(p2, white, t1, r) == binomial((47 - t1) as nat, r as nat) as int + raw_walk(
        p2,
        white,
        t1 + 1,
        r - 1,
    ));
    assert(raw_walk(p1, white, t1, r) == raw_walk(p1, white, t1 + 1, r));
}

/// Advancing one pawn strictly raises the raw rank — and so strictly lowers
/// the reversed rank: the pawn moves to an earlier scan position (closer to
/// its promotion rank), every other pawn stands still, and at least one pawn
/// is still to be placed when the scan reaches the advanced square, with the
/// remaining pawns fitting the remaining squares (both hold of any position
/// whose pawns all stand on ranks two to seven).
pub proof fn lemma_pawn_advance_raises_raw(p1: u64, p2: u64, white: bool, t1: int, t2: int)
    requires
        0 <= t1 < t2 < 48,
        forall|u: int| 0 <= u < 48 && u != t1 && u != t2 ==> scan_bit(p1, white, u) == scan_bit(
            p2,
            white,
            u,
        ),
        scan_bit(p2, white, t1) && !scan_bit(p1, white, t1),
        scan_bit(p1, white, t2) && !scan_bit(p2, white, t2),
        ones(p1) == ones(p2) <= 8,
        1 <= rem_after(p1, white, 0, t1, ones(p1) as int),
        rem_after(p1, white, 0, t1, ones(p1) as int) <= 47 - t1,
    ensures
        pawn_raw(p2, white) > pawn_raw(p1, white),
        pawn_rev(p2, white) < pawn_rev(p1, white),
{
    let p = ones(p1) as int;
    let r = rem_after(p1, white, 0, t1, p);
    lemma_rem_after_bounds(p1, white, 0, t1, p);
    lemma_walk_agree(p1, p2, white, 0, t1, p);
    lemma_walk_advance_at(p1, p2, white, t1, r);
    lemma_pawn_raw_le_total(p1, white);
    lemma_pawn_raw_le_total(p2, white);
}

/// The full chain for a pawn advance: with all material, castling rights and
/// the en-passant state unchanged, advancing one pawn of either side strictly
/// lowers the monotonic hash.
pub proof fn lemma_pawn_advance_lowers_hash(
    before: Board,
    after: Board,
    side: usize,
    t1: int,
    t2: int,
)
    requires
        side == WHITE || side == BLACK,
        before.wf(),
        after.wf(),
        after.castling == before.castling,
        after.en_passant == before.en_passant,
        piece_key(after, WHITE) == piece_key(before, WHITE),
        piece_key(after, BLACK) == piece_key(before, BLACK),
        0 <= piece_key(before, WHITE) < 0x20000,
        0 <= piece_key(before, BLACK) < 0x20000,
        side == WHITE ==> after.spec_pieces(PAWN, BLACK) == before.spec_pieces(PAWN, BLACK),
        side == BLACK ==> after.spec_pieces(PAWN, WHITE) == before.spec_pieces(PAWN, WHITE),
        ({
            let w = side == WHITE;
            let p1 = before.spec_pieces(PAWN, side);
            let p2 = after.spec_pieces(PAWN, side);
            &&& 0 <= t1 < t2 < 48
            &&& (forall|u: int|
                0 <= u < 48 && u != t1 && u != t2 ==> scan_bit(p1, w, u) == scan_bit(p2, w, u))
            &&& scan_bit(p2, w, t1) && !scan_bit(p1, w, t1)
            &&& scan_bit(p1, w, t2) && !scan_bit(p2, w, t2)
            &&& ones(p1) == ones(p2) <= 8
            &&& 1 <= rem_after(p1, w, 0, t1, ones(p1) as int) <= 47 - t1
        }),
    ensures
        spec_monotonic_hash(after) < spec_monotonic_hash(before),
{
    let w = side == WHITE;
    let p1 = before.spec_pieces(PAWN, side);
    let p2 = after.spec_pieces(PAWN, side);
    lemma_pawn_advance_raises_raw(p1, p2, w, t1, t2);
    lemma_pawn_field_fits(before);
    lemma_pawn_field_fits(after);
    lemma_total_combos_value();
    lemma_pawn_raw_le_total(before.spec_pieces(PAWN, WHITE), true);
    lemma_pawn_raw_le_total(before.spec_pieces(PAWN, BLACK), false);
    lemma_pawn_raw_le_total(after.spec_pieces(PAWN, WHITE), true);
    lemma_pawn_raw_le_total(after.spec_pieces(PAWN, BLACK), false);
    if side == WHITE {
        assert(pawn_field(after) < pawn_field(before));
    } else {
        let ra = pawn_rev(after.spec_pieces(PAWN, BLACK), false);
        let rb = pawn_rev(before.spec_pieces(PAWN, BLACK), false);
        vstd::arithmetic::mul::lemma_mul_strict_inequality(ra, rb, total_combos());
        vstd::arithmetic::mul::lemma_mul_is_commutative(ra, total_combos());
        vstd::arithmetic::mul::lemma_mul_is_commutative(rb, total_combos());
        assert(pawn_field(after) < pawn_field(before));
    }
    lemma_hash_strictly_monotone_in_fields(after, before);
}

} // verus!
