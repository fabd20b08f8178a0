use ttcache::blockatt::{
    create_bishop_attack_boards, create_blocker_boards, create_rook_attack_boards,
};
use ttcache::board::Board;
use ttcache::defs::{BISHOP, BLACK, KING, KNIGHT, PAWN, PNONE, QUEEN, ROOK, WHITE};

fn empty_board() -> Board {
    Board::default()
}

#[test]
fn start_position_board_accessors() {
    let mut b = empty_board();
    b.create_start_position();
    assert_eq!(b.get_pieces(PAWN, WHITE), 0x0000_0000_0000_FF00);
    assert_eq!(b.get_pieces(PAWN, BLACK), 0x00FF_0000_0000_0000);
    assert_eq!(b.get_pieces(ROOK, WHITE), 0x0000_0000_0000_0081);
    assert_eq!(b.get_pieces(KING, BLACK), 0x1000_0000_0000_0000);
    assert_eq!(b.occupancy(), 0xFFFF_0000_0000_FFFF);
    assert_eq!(b.which_piece(0), ROOK);
    assert_eq!(b.which_piece(4), KING);
    assert_eq!(b.which_piece(12), PAWN);
    assert_eq!(b.which_piece(36), PNONE);
    assert_eq!(b.which_piece(57), KNIGHT);
    assert_eq!(b.castling, 15);
    assert_eq!(b.fullmove_number, 1);
    // the constant mask boards are built alongside the position
    assert_eq!(b.bb_files[0], 0x0101_0101_0101_0101);
    assert_eq!(b.bb_ranks[1], 0xFF00);
}

#[test]
fn reset_preserves_the_mask_boards() {
    let mut b = empty_board();
    b.create_start_position();
    b.reset();
    assert_eq!(b.bb_files[7], 0x8080_8080_8080_8080);
    assert_eq!(b.bb_ranks[7], 0xFF00_0000_0000_0000);
    assert_eq!(b.get_pieces(PAWN, WHITE), 0);
}

#[test]
fn reset_clears_everything() {
    let mut b = empty_board();
    b.create_start_position();
    b.reset();
    assert_eq!(b.get_pieces(QUEEN, WHITE), 0);
    assert_eq!(b.get_pieces(PAWN, BLACK), 0);
    assert_eq!(b.castling, 0);
    assert_eq!(b.en_passant, None);
}

#[test]
fn monotonic_hash_of_the_bare_board_is_lowest_of_material() {
    // an empty board ranks below any board with material or rights
    let bare = empty_board();
    let mut with_rook = empty_board();
    with_rook.bb_w[ROOK] = 1;
    let mut with_rights = empty_board();
    with_rights.castling = 1;
    assert!(bare.monotonic_hash() < with_rook.monotonic_hash());
    assert!(bare.monotonic_hash() < with_rights.monotonic_hash());
}

#[test]
fn piece_values_weigh_heavier_pieces_higher() {
    let mut queen = empty_board();
    queen.bb_w[QUEEN] = 1;
    let mut rooks = empty_board();
    rooks.bb_w[ROOK] = 0x3FF; // ten rooks weigh less than one queen
    assert!(rooks.monotonic_hash() < queen.monotonic_hash());

    let mut bishop = empty_board();
    bishop.bb_w[BISHOP] = 1; // a1 is a dark square
    let mut knights = empty_board();
    knights.bb_w[KNIGHT] = 0x3; // two knights weigh less than a dark bishop
    assert!(knights.monotonic_hash() < bishop.monotonic_hash());
}

#[test]
fn pawn_capture_lowers_the_hash_more_than_advance() {
    let mut eight = empty_board();
    eight.bb_w[PAWN] = 0xFF00;
    let mut seven = empty_board();
    seven.bb_w[PAWN] = 0xFE00;
    let mut advanced = empty_board();
    advanced.bb_w[PAWN] = 0xFE00 | (1 << 16);
    // losing a pawn and advancing it both rank strictly below the full set
    assert!(seven.monotonic_hash() < eight.monotonic_hash());
    assert!(advanced.monotonic_hash() < eight.monotonic_hash());
    // and a captured pawn ranks below the advanced one
    assert!(seven.monotonic_hash() < advanced.monotonic_hash());
}

#[test]
fn black_pawn_advance_lowers_the_hash() {
    let mut home = empty_board();
    home.bb_b[PAWN] = 0x00FF_0000_0000_0000;
    let mut pushed = empty_board();
    pushed.bb_b[PAWN] = (home.bb_b[PAWN] & !(1u64 << 52)) | (1u64 << 44);
    assert!(pushed.monotonic_hash() < home.monotonic_hash());
}

#[test]
fn blocker_boards_enumerate_every_subset_in_order() {
    let mask: u64 = 0b1010_0100;
    let boards = create_blocker_boards(mask);
    assert_eq!(boards.len(), 8);
    assert_eq!(boards[0], 0);
    assert_eq!(*boards.last().unwrap(), mask);
    for w in boards.windows(2) {
        assert!(w[0] < w[1]);
    }
    for b in &boards {
        assert_eq!(b & mask, *b);
    }
    assert!(boards.contains(&0b0010_0000));
    assert!(boards.contains(&0b1000_0100));
}

#[test]
fn blocker_boards_of_empty_mask() {
    let boards = create_blocker_boards(0);
    assert_eq!(boards, vec![0]);
}

#[test]
fn rook_attacks_from_a1() {
    let boards = create_rook_attack_boards(0, &[0u64]);
    // open board: the whole a-file above a1 plus the whole first rank
    assert_eq!(boards[0], 0x0101_0101_0101_0100 | 0xFE);
}

#[test]
fn rook_attacks_stop_at_blockers() {
    // blockers on a3 and c1: the rook on a1 sees a2, a3, b1, c1
    let blocker: u64 = (1 << 16) | (1 << 2);
    let boards = create_rook_attack_boards(0, &[blocker]);
    assert_eq!(boards[0], (1u64 << 8) | (1 << 16) | (1 << 1) | (1 << 2));
}

#[test]
fn bishop_attacks_from_d4() {
    // bishop on d4 (square 27), blocker on f6 (square 45)
    let blocker: u64 = 1 << 45;
    let boards = create_bishop_attack_boards(27, &[blocker]);
    let up_right = (1u64 << 36) | (1 << 45);
    let up_left = (1u64 << 34) | (1 << 41) | (1 << 48);
    let down_right = (1u64 << 20) | (1 << 13) | (1 << 6);
    let down_left = (1u64 << 18) | (1 << 9) | (1 << 0);
    assert_eq!(boards[0], up_right | up_left | down_right | down_left);
}
