//! The board view the cache consumes: piece bitboards per side, game state
//! and the exact Zobrist key. The cache never generates moves; it only reads
//! this state to compute its hashes.

use vstd::prelude::*;
use crate::defs::{Bitboard, BLACK, PAWN, PNONE, Piece, QUEEN, ROOK, Side, WHITE};

verus! {

pub struct Board {
    pub bb_w: [Bitboard; 6],
    pub bb_b: [Bitboard; 6],
    pub bb_pieces: [Bitboard; 2],
    pub bb_files: [Bitboard; 8],
    pub bb_ranks: [Bitboard; 8],
    pub active_color: u8,
    pub castling: u8,
    pub en_passant: Option<u8>,
    pub halfmove_clock: u8,
    pub fullmove_number: u16,
    pub zobrist_key: u64,
}

impl Default for Board {
    /// The empty board with White to move, as `reset` leaves it.
    fn default() -> (r: Board)
        ensures
            r.wf(),
            forall|p: int| 0 <= p < 6 ==> r.bb_w@[p] == 0 && r.bb_b@[p] == 0,
            r.castling == 0,
            r.en_passant is None,
            r.zobrist_key == 0,
    {
        Board {
            bb_w: [0, 0, 0, 0, 0, 0],
            bb_b: [0, 0, 0, 0, 0, 0],
            bb_pieces: [0, 0],
            bb_files: [0, 0, 0, 0, 0, 0, 0, 0],
            bb_ranks: [0, 0, 0, 0, 0, 0, 0, 0],
            active_color: 0,
            castling: 0,
            en_passant: None,
            halfmove_clock: 0,
            fullmove_number: 0,
            zobrist_key: 0,
        }
    }
}

impl Board {
    /// The bitboard of one piece type of one side, as spec code reads it.
    pub open spec fn spec_pieces(&self, piece: Piece, side: Side) -> Bitboard {
        if side == WHITE {
            self.bb_w@[piece as int]
        } else if side == BLACK {
            self.bb_b@[piece as int]
        } else {
            0
        }
    }

    /// A board the cache can hash: the castling byte uses only its low four
    /// bits and an en-passant square is a square index.
    pub open spec fn wf(&self) -> bool {
        &&& self.castling < 16
        &&& (self.en_passant matches Some(sq) ==> sq < 64)
    }

    /// An empty board with White to move. The file and rank mask boards are
    /// constants of the board, not position state, and are left untouched.
    pub fn reset(&mut self)
        ensures
            final(self).wf(),
            forall|p: int| 0 <= p < 6 ==> final(self).bb_w@[p] == 0 && final(self).bb_b@[p] == 0,
            forall|p: int| 0 <= p < 2 ==> final(self).bb_pieces@[p] == 0,
            final(self).bb_files == old(self).bb_files,
            final(self).bb_ranks == old(self).bb_ranks,
            final(self).castling == 0,
            final(self).en_passant is None,
            final(self).active_color == WHITE as u8,
            final(self).halfmove_clock == 0,
            final(self).fullmove_number == 0,
            final(self).zobrist_key == 0,
    {
        self.bb_w = [0, 0, 0, 0, 0, 0];
        self.bb_b = [0, 0, 0, 0, 0, 0];
        self.bb_pieces = [0, 0];
        self.active_color = 0;
        self.castling = 0;
        self.en_passant = None;
        self.halfmove_clock = 0;
        self.fullmove_number = 0;
        self.zobrist_key = 0;
    }

    /// Set up the initial chess position, with full castling rights, and
    /// rebuild the constant file and rank mask boards.
    pub fn create_start_position(&mut self)
        ensures
            final(self).wf(),
            final(self).bb_w@ == seq![
                0x0000_0000_0000_0010u64,
                0x0000_0000_0000_0008u64,
                0x0000_0000_0000_0081u64,
                0x0000_0000_0000_0024u64,
                0x0000_0000_0000_0042u64,
                0x0000_0000_0000_FF00u64,
            ],
            final(self).bb_b@ == seq![
                0x1000_0000_0000_0000u64,
                0x0800_0000_0000_0000u64,
                0x8100_0000_0000_0000u64,
                0x2400_0000_0000_0000u64,
                0x4200_0000_0000_0000u64,
                0x00FF_0000_0000_0000u64,
            ],
            final(self).bb_pieces@[0] == 0x0000_0000_0000_FFFFu64,
            final(self).bb_pieces@[1] == 0xFFFF_0000_0000_0000u64,
            forall|i: int| 0 <= i < 8 ==> final(self).bb_files@[i] == 72_340_172_838_076_673u64
                << i,
            forall|i: int| 0 <= i < 8 ==> final(self).bb_ranks@[i] == 0xFFu64 << (8 * i),
            final(self).active_color == WHITE as u8,
            final(self).castling == 15,
            final(self).en_passant is None,
            final(self).halfmove_clock == 0,
            final(self).fullmove_number == 1,
            final(self).zobrist_key == 0,
    {
        self.reset();
        // bb_w and bb_b are indexed KING, QUEEN, ROOK, BISHOP, KNIGHT, PAWN
        self.bb_w = [
            0x0000_0000_0000_0010u64,
            0x0000_0000_0000_0008u64,
            0x0000_0000_0000_0081u64,
            0x0000_0000_0000_0024u64,
            0x0000_0000_0000_0042u64,
            0x0000_0000_0000_FF00u64,
        ];
        self.bb_b = [
            0x1000_0000_0000_0000u64,
            0x0800_0000_0000_0000u64,
            0x8100_0000_0000_0000u64,
            0x2400_0000_0000_0000u64,
            0x4200_0000_0000_0000u64,
            0x00FF_0000_0000_0000u64,
        ];
        self.castling = 15;
        self.fullmove_number = 1;
        self.create_piece_bitboards();
        self.create_file_bitboards();
        self.create_rank_bitboards();
        proof {
            assert(0u64 | 0x0000_0000_0000_0010u64 | 0x0000_0000_0000_0008u64
                | 0x0000_0000_0000_0081u64 | 0x0000_0000_0000_0024u64 | 0x0000_0000_0000_0042u64
                | 0x0000_0000_0000_FF00u64 == 0x0000_0000_0000_FFFFu64) by (bit_vector);
            assert(0u64 | 0x1000_0000_0000_0000u64 | 0x0800_0000_0000_0000u64
                | 0x8100_0000_0000_0000u64 | 0x2400_0000_0000_0000u64 | 0x4200_0000_0000_0000u64
                | 0x00FF_0000_0000_0000u64 == 0xFFFF_0000_0000_0000u64) by (bit_vector);
            assert(self.bb_w@ =~= seq![
                0x0000_0000_0000_0010u64,
                0x0000_0000_0000_0008u64,
                0x0000_0000_0000_0081u64,
                0x0000_0000_0000_0024u64,
                0x0000_0000_0000_0042u64,
                0x0000_0000_0000_FF00u64,
            ]);
            assert(self.bb_b@ =~= seq![
                0x1000_0000_0000_0000u64,
                0x0800_0000_0000_0000u64,
                0x8100_0000_0000_0000u64,
                0x2400_0000_0000_0000u64,
                0x4200_0000_0000_0000u64,
                0x00FF_0000_0000_0000u64,
            ]);
        }
    }

    /// The pieces of one type for one side.
    pub fn get_pieces(&self, piece: Piece, side: Side) -> (r: Bitboard)
        requires
            piece <= 5,
        ensures
            r == self.spec_pieces(piece, side),
    {
        if side == WHITE {
            self.bb_w[piece]
        } else if side == BLACK {
            self.bb_b[piece]
        } else {
            0
        }
    }

    /// Which piece type stands on the square, or `PNONE`.
    pub fn which_piece(&self, square: u8) -> (r: Piece)
        requires
            square < 64,
        ensures
            r <= PNONE,
            r < PNONE ==> (self.bb_w@[r as int] | self.bb_b@[r as int]) & (1u64 << square) != 0,
            // the result is the least matching piece index
            r < PNONE ==> forall|p: int|
                0 <= p < r ==> ((#[trigger] self.bb_w@[p]) | self.bb_b@[p]) & (1u64 << square)
                    == 0,
            r == PNONE ==> forall|p: int|
                0 <= p < 6 ==> ((#[trigger] self.bb_w@[p]) | self.bb_b@[p]) & (1u64 << square)
                    == 0,
    {
        let inspect: u64 = 1u64 << square;
        let mut piece: usize = 0;
        while piece < 6
            invariant
                piece <= 6,
                inspect == 1u64 << square,
                forall|p: int|
                    0 <= p < piece ==> ((#[trigger] self.bb_w@[p]) | self.bb_b@[p]) & inspect
                        == 0,
            decreases 6 - piece,
        {
            if (self.bb_w[piece] & inspect) != 0 || (self.bb_b[piece] & inspect) != 0 {
                proof {
                    let w = self.bb_w@[piece as int];
                    let b = self.bb_b@[piece as int];
                    let m = inspect;
                    assert((w & m != 0 || b & m != 0) ==> (w | b) & m != 0) by (bit_vector);
                }
                return piece;
            }
            proof {
                let w = self.bb_w@[piece as int];
                let b = self.bb_b@[piece as int];
                let m = inspect;
                assert((w & m == 0 && b & m == 0) ==> (w | b) & m == 0) by (bit_vector);
            }
            piece = piece + 1;
        }
        PNONE
    }

    /// All occupied squares.
    pub fn occupancy(&self) -> (r: Bitboard)
        ensures
            r == self.bb_pieces@[WHITE as int] ^ self.bb_pieces@[BLACK as int],
    {
        self.bb_pieces[WHITE] ^ self.bb_pieces[BLACK]
    }

    /// Rebuild the per-side occupancy boards from the piece boards.
    fn create_piece_bitboards(&mut self)
        ensures
            final(self).bb_pieces@[0] == (old(self).bb_pieces@[0] | old(self).bb_w@[0] | old(
                self,
            ).bb_w@[1] | old(self).bb_w@[2] | old(self).bb_w@[3] | old(self).bb_w@[4] | old(
                self,
            ).bb_w@[5]),
            final(self).bb_pieces@[1] == (old(self).bb_pieces@[1] | old(self).bb_b@[0] | old(
                self,
            ).bb_b@[1] | old(self).bb_b@[2] | old(self).bb_b@[3] | old(self).bb_b@[4] | old(
                self,
            ).bb_b@[5]),
            final(self).bb_w == old(self).bb_w,
            final(self).bb_b == old(self).bb_b,
            final(self).castling == old(self).castling,
            final(self).en_passant == old(self).en_passant,
            final(self).zobrist_key == old(self).zobrist_key,
            final(self).fullmove_number == old(self).fullmove_number,
            final(self).bb_files == old(self).bb_files,
            final(self).bb_ranks == old(self).bb_ranks,
            final(self).active_color == old(self).active_color,
            final(self).halfmove_clock == old(self).halfmove_clock,
    {
        let mut i: usize = 0;
        while i < 6
            invariant
                i <= 6,
                self.bb_w == old(self).bb_w,
                self.bb_b == old(self).bb_b,
                self.castling == old(self).castling,
                self.en_passant == old(self).en_passant,
                self.zobrist_key == old(self).zobrist_key,
                self.fullmove_number == old(self).fullmove_number,
                self.bb_files == old(self).bb_files,
                self.bb_ranks == old(self).bb_ranks,
                self.active_color == old(self).active_color,
                self.halfmove_clock == old(self).halfmove_clock,
                self.bb_pieces@[0] == fold_or(old(self).bb_pieces@[0], old(self).bb_w@, i as int),
                self.bb_pieces@[1] == fold_or(old(self).bb_pieces@[1], old(self).bb_b@, i as int),
            decreases 6 - i,
    {
            self.bb_pieces[0] = self.bb_pieces[0] | self.bb_w[i];
            self.bb_pieces[1] = self.bb_pieces[1] | self.bb_b[i];
            i = i + 1;
        }
        proof {
            lemma_fold_or_unfolds(old(self).bb_pieces@[0], old(self).bb_w@);
            lemma_fold_or_unfolds(old(self).bb_pieces@[1], old(self).bb_b@);
        }
    }

    /// One bitboard per file.
    fn create_file_bitboards(&mut self)
        ensures
            forall|i: int| 0 <= i < 8 ==> final(self).bb_files@[i] == 72_340_172_838_076_673u64
                << i,
            final(self).bb_w == old(self).bb_w,
            final(self).bb_b == old(self).bb_b,
            final(self).bb_pieces == old(self).bb_pieces,
            final(self).castling == old(self).castling,
            final(self).en_passant == old(self).en_passant,
            final(self).zobrist_key == old(self).zobrist_key,
            final(self).fullmove_number == old(self).fullmove_number,
            final(self).active_color == old(self).active_color,
            final(self).bb_ranks == old(self).bb_ranks,
            final(self).halfmove_clock == old(self).halfmove_clock,
    {
        let file: u64 = 72_340_172_838_076_673;
        let mut i: usize = 0;
        while i < 8
            invariant
                i <= 8,
                file == 72_340_172_838_076_673u64,
                self.bb_w == old(self).bb_w,
                self.bb_b == old(self).bb_b,
                self.bb_pieces == old(self).bb_pieces,
                self.castling == old(self).castling,
                self.en_passant == old(self).en_passant,
                self.zobrist_key == old(self).zobrist_key,
                self.fullmove_number == old(self).fullmove_number,
                self.active_color == old(self).active_color,
                self.bb_ranks == old(self).bb_ranks,
                self.halfmove_clock == old(self).halfmove_clock,
                forall|k: int| 0 <= k < i ==> self.bb_files@[k] == 72_340_172_838_076_673u64 << k,
            decreases 8 - i,
        {
            self.bb_files[i] = file << i;
            i = i + 1;
        }
    }

    /// One bitboard per rank.
    fn create_rank_bitboards(&mut self)
        ensures
            forall|i: int| 0 <= i < 8 ==> final(self).bb_ranks@[i] == 0xFFu64 << (8 * i),
            final(self).bb_w == old(self).bb_w,
            final(self).bb_b == old(self).bb_b,
            final(self).bb_pieces == old(self).bb_pieces,
            final(self).castling == old(self).castling,
            final(self).en_passant == old(self).en_passant,
            final(self).zobrist_key == old(self).zobrist_key,
            final(self).fullmove_number == old(self).fullmove_number,
            final(self).active_color == old(self).active_color,
            final(self).bb_files == old(self).bb_files,
            final(self).halfmove_clock == old(self).halfmove_clock,
    {
        let rank: u64 = 0xFF;
        let mut i: usize = 0;
        while i < 8
            invariant
                i <= 8,
                rank == 0xFFu64,
                self.bb_w == old(self).bb_w,
                self.bb_b == old(self).bb_b,
                self.bb_pieces == old(self).bb_pieces,
                self.castling == old(self).castling,
                self.en_passant == old(self).en_passant,
                self.zobrist_key == old(self).zobrist_key,
                self.fullmove_number == old(self).fullmove_number,
                self.active_color == old(self).active_color,
                self.bb_files == old(self).bb_files,
                self.halfmove_clock == old(self).halfmove_clock,
                forall|k: int| 0 <= k < i ==> self.bb_ranks@[k] == 0xFFu64 << (8 * k),
            decreases 8 - i,
        {
            self.bb_ranks[i] = rank << (8 * (i as u64));
            i = i + 1;
        }
    }
}

/// The running `or` of the first `j` boards over a base value.
pub open spec fn fold_or(base: u64, bs: Seq<u64>, j: int) -> u64
    decreases j,
{
    if j <= 0 {
        base
    } else {
        fold_or(base, bs, j - 1) | bs[j - 1]
    }
}

/// `fold_or` over all six boards is the chain of six ors.
pub proof fn lemma_fold_or_unfolds(base: u64, bs: Seq<u64>)
    requires
        bs.len() == 6,
    ensures
        fold_or(base, bs, 6) == (base | bs[0] | bs[1] | bs[2] | bs[3] | bs[4] | bs[5]),
{
    assert(fold_or(base, bs, 0) == base);
    assert(fold_or(base, bs, 1) == (base | bs[0]));
    assert(fold_or(base, bs, 2) == (base | bs[0] | bs[1]));
    assert(fold_or(base, bs, 3) == (base | bs[0] | bs[1] | bs[2]));
    assert(fold_or(base, bs, 4) == (base | bs[0] | bs[1] | bs[2] | bs[3]));
    assert(fold_or(base, bs, 5) == (base | bs[0] | bs[1] | bs[2] | bs[3] | bs[4]));
}

} // verus!
