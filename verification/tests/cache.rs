use ttcache::board::Board;
use ttcache::budget::Budget;
use ttcache::data::{HashFlag, IHashData, PerftData, SearchData, ShortMove};
use ttcache::defs::{BLACK, KNIGHT, PAWN, QUEEN, ROOK, WHITE};
use ttcache::table::TT;
use ttcache::tree::TTree;

fn empty_board() -> Board {
    Board::default()
}

fn start_board(zobrist: u64) -> Board {
    let mut b = empty_board();
    b.create_start_position();
    b.zobrist_key = zobrist;
    b
}

fn search_payload(depth: i8, value: i16) -> SearchData {
    SearchData::create(depth, 0, HashFlag::Exact, value, ShortMove::new(0))
}

#[test]
fn start_position_insert_then_probe_hits() {
    let mut cache = TTree::new(1);
    let board = start_board(0x1234_5678_9ABC_DEF0);
    let payload = search_payload(5, 30);
    cache.insert(&board, payload);
    assert_eq!(cache.probe(&board), Some(payload));
}

#[test]
fn probe_after_later_position_still_hits_start() {
    let mut cache = TTree::new(1);
    let start = start_board(0x1111_2222_3333_4444);

    // the same position after the king's pawn advanced two squares
    let mut after = start_board(0x5555_6666_7777_8888);
    after.bb_w[PAWN] = (after.bb_w[PAWN] & !(1u64 << 12)) | (1u64 << 28);

    cache.insert(&start, search_payload(5, 30));
    cache.insert(&after, search_payload(4, -12));

    assert_eq!(cache.probe(&start), Some(search_payload(5, 30)));
    assert_eq!(cache.probe(&after), Some(search_payload(4, -12)));
    assert!(after.monotonic_hash() < start.monotonic_hash());
}

#[test]
fn pawn_advance_capture_castling_and_en_passant_lower_the_hash() {
    let start = start_board(1);

    let mut pawn_moved = start_board(1);
    pawn_moved.bb_w[PAWN] = (pawn_moved.bb_w[PAWN] & !(1u64 << 12)) | (1u64 << 28);
    assert!(pawn_moved.monotonic_hash() < start.monotonic_hash());

    let mut captured = start_board(1);
    captured.bb_b[KNIGHT] &= captured.bb_b[KNIGHT] - 1; // drop one knight
    assert!(captured.monotonic_hash() < start.monotonic_hash());

    let mut castled = start_board(1);
    castled.castling = 0b1100; // white lost both rights
    assert!(castled.monotonic_hash() < start.monotonic_hash());

    let mut with_ep = start_board(1);
    with_ep.en_passant = Some(20);
    assert!(start.monotonic_hash() < with_ep.monotonic_hash());
}

#[test]
fn deeper_entry_survives_same_key_reinserts() {
    // two writes under one Zobrist key: the deeper payload wins, whichever
    // order they arrive in
    let mut tt: TT<SearchData> = TT::new(1);
    let mut budget = Budget::new(1 << 20);
    let z = 42u64;
    tt.insert(z, search_payload(5, 100), &mut budget);
    tt.insert(z, search_payload(3, 50), &mut budget);
    assert_eq!(tt.probe(z), Some(&search_payload(5, 100)));

    let z2 = 43u64;
    tt.insert(z2, search_payload(3, 50), &mut budget);
    tt.insert(z2, search_payload(5, 100), &mut budget);
    assert_eq!(tt.probe(z2), Some(&search_payload(5, 100)));
}

#[test]
fn shallow_collision_does_not_evict_deep_entry() {
    let mut tt: TT<SearchData> = TT::new(1);
    let mut budget = Budget::new(0); // no room to grow: collisions must evict
    let n = tt.bucket_count() as u64;
    let z1 = 7u64;
    let z2 = 7 + n;
    let z3 = 7 + 2 * n;
    let z4 = 7 + 3 * n;
    let z5 = 7 + 4 * n; // fifth key in the same bucket forces a replacement
    tt.insert(z1, search_payload(10, 1), &mut budget);
    tt.insert(z2, search_payload(9, 2), &mut budget);
    tt.insert(z3, search_payload(8, 3), &mut budget);
    tt.insert(z4, search_payload(7, 4), &mut budget);
    tt.insert(z5, search_payload(1, 5), &mut budget);
    // the shallowest entry was displaced, never the depth-10 one
    assert_eq!(tt.probe(z1), Some(&search_payload(10, 1)));
    assert_eq!(tt.probe(z5), Some(&search_payload(1, 5)));
    assert_eq!(tt.probe(z4), None);
}

#[test]
fn growing_table_keeps_every_entry() {
    // one equivalence class, many positions: the inner table must grow and
    // rehash without losing a single payload
    let mut cache = TTree::new(4);
    let boards: Vec<Board> = (0..64u64)
        .map(|i| start_board(0x9000_0000_0000_0000 | (i * 0x10_0001 + 1)))
        .collect();
    for (i, b) in boards.iter().enumerate() {
        cache.insert(b, search_payload(1 + (i % 7) as i8, i as i16));
    }
    for (i, b) in boards.iter().enumerate() {
        assert_eq!(cache.probe(b), Some(search_payload(1 + (i % 7) as i8, i as i16)));
    }
}

#[test]
fn hash_full_is_monotone_between_rehashes() {
    let mut tt: TT<SearchData> = TT::new(1);
    let mut budget = Budget::new(0); // freeze the size: no rehash can happen
    let buckets = tt.bucket_count() as u64;
    let mut last = tt.hash_full();
    assert_eq!(last, 0);
    for i in 0..200u64 {
        tt.insert(i * 37 + 1, search_payload(2, i as i16), &mut budget);
        assert_eq!(tt.bucket_count() as u64, buckets);
        let now = tt.hash_full();
        assert!(now >= last);
        last = now;
    }
    assert!(last > 0);
}

#[test]
fn budget_exhaustion_drops_inserts_and_keeps_size_bounded() {
    let mut cache = TTree::new(1);
    let max_bytes = 1usize << 20;
    // thousands of distinct material configurations: each gets its own
    // equivalence class until the byte budget refuses
    let mut boards: Vec<Board> = Vec::new();
    for r in 0..11u32 {
        for k in 0..11u32 {
            for q in 0..11u32 {
                let mut b = empty_board();
                b.bb_w[ROOK] = (1u64 << r) - 1;
                b.bb_w[KNIGHT] = ((1u64 << k) - 1) << 16;
                b.bb_w[QUEEN] = ((1u64 << q) - 1) << 32;
                b.zobrist_key = ((r * 400 + k * 20 + q) as u64) + 1;
                boards.push(b);
            }
        }
    }
    for rb in 0..8u32 {
        for kb in 0..11u32 {
            for q in 0..11u32 {
                let mut b = empty_board();
                b.bb_b[ROOK] = (1u64 << rb) - 1;
                b.bb_b[KNIGHT] = ((1u64 << kb) - 1) << 16;
                b.bb_w[QUEEN] = ((1u64 << q) - 1) << 32;
                b.castling = 3;
                b.zobrist_key = ((rb * 400 + kb * 20 + q) as u64) + 90_000;
                boards.push(b);
            }
        }
    }
    assert!(boards.len() >= 2000);
    for b in boards.iter() {
        cache.insert(b, search_payload(3, 7));
    }
    assert!(cache.size_bytes() <= max_bytes);
    assert!(cache.room_to_grow.room >= 0);
}

#[test]
fn prune_keeps_low_digests_and_drops_high_ones() {
    let mut cache = TTree::new(1);
    let b1 = start_board(101); // has castling rights and full material
    let mut b2 = empty_board();
    b2.zobrist_key = 202;
    let d1 = b1.monotonic_hash() as u32;
    let d2 = b2.monotonic_hash() as u32;
    assert!(d2 < d1);

    cache.insert(&b1, search_payload(6, 11));
    cache.insert(&b2, search_payload(2, 22));
    assert!(cache.probe(&b1).is_some());
    assert!(cache.probe(&b2).is_some());

    // prune to the lower digest: the rich position's class must go
    cache.remove_unreachable(d2);
    assert_eq!(cache.probe(&b1), None);
    assert_eq!(cache.probe(&b2), Some(search_payload(2, 22)));
}

#[test]
fn clear_empties_the_cache_and_restores_the_budget() {
    let mut cache = TTree::new(1);
    let b = start_board(77);
    cache.insert(&b, search_payload(4, 9));
    assert!(cache.probe(&b).is_some());
    cache.clear();
    assert_eq!(cache.probe(&b), None);
    assert_eq!(cache.room_to_grow.room, 1 << 20);
    assert_eq!(cache.size_bytes(), 0);
}

#[test]
fn resize_down_halves_tables_until_the_cache_fits() {
    let mut cache = TTree::new(8);
    for i in 0..64u64 {
        let b = start_board(i * 977 + 5);
        cache.insert(&b, search_payload(3, i as i16));
    }
    cache.resize(0);
    // degraded but stable: tables were halved to single buckets
    assert!(cache.size_bytes() <= 64 * 4 * 64);
    let mut grown = TTree::new(2);
    grown.resize(16);
    assert_eq!(grown.room_to_grow.room, 16 << 20);
}

#[test]
fn tree_hash_full_reports_permille_of_cap() {
    let mut cache = TTree::new(1);
    assert_eq!(cache.hash_full(), 0);
    // enough distinct material classes that the permille becomes nonzero
    let mut classes: usize = 0;
    for r in 0..11u32 {
        for k in 0..6u32 {
            let mut b = empty_board();
            b.bb_w[ROOK] = (1u64 << r) - 1;
            b.bb_w[KNIGHT] = ((1u64 << k) - 1) << 16;
            b.zobrist_key = (r * 10 + k) as u64 + 1;
            cache.insert(&b, search_payload(5, 1));
            classes += 1;
        }
    }
    // each class reports 4 key bytes plus one live entry
    let entry = std::mem::size_of::<ttcache::bucket::Entry<SearchData>>();
    let expected = ((classes * (4 + entry) * 1000 + 500) / (1 << 20)) as u16;
    assert!(expected > 0);
    assert_eq!(cache.hash_full(), expected);
}

#[test]
fn perft_payload_round_trip() {
    let p = PerftData::create(4, 197_281);
    assert_eq!(p.depth(), 4);
    assert_eq!(p.get(4), Some(197_281));
    assert_eq!(p.get(5), None);
}

#[test]
fn mate_scores_are_ply_adjusted_on_write_and_read() {
    let mv = ShortMove::new(0x1234);
    // a winning mate score found at ply 3 is normalized on write
    let sd = SearchData::create(7, 3, HashFlag::Exact, 24_500, mv);
    assert_eq!(sd.value, 24_503);
    // reading it back at the same ply restores the raw score
    let (value, best) = sd.get(7, 3, -30_000, 30_000);
    assert_eq!(value, Some(24_500));
    assert_eq!(best, mv);
    // a losing mate score is normalized the other way
    let losing = SearchData::create(7, 3, HashFlag::Exact, -24_500, mv);
    assert_eq!(losing.value, -24_503);
    assert_eq!(losing.get(7, 3, -30_000, 30_000).0, Some(-24_500));
    // a too-shallow entry yields no value, only the move
    let (none_value, _) = sd.get(8, 3, -30_000, 30_000);
    assert_eq!(none_value, None);
}

#[test]
fn ordinary_scores_are_stored_and_read_unchanged() {
    let mv = ShortMove::new(7);
    let sd = SearchData::create(6, 3, HashFlag::Exact, 100, mv);
    assert_eq!(sd.value, 100);
    // an ordinary score carries no ply and reads the same at any other ply
    assert_eq!(sd.get(6, 9, -30_000, 30_000).0, Some(100));
    let negative = SearchData::create(6, 3, HashFlag::Exact, -100, mv);
    assert_eq!(negative.value, -100);
    assert_eq!(negative.get(6, 1, -30_000, 30_000).0, Some(-100));
}

#[test]
fn bound_flags_gate_the_returned_score() {
    let mv = ShortMove::new(9);
    let alpha_entry = SearchData::create(5, 0, HashFlag::Alpha, 40, mv);
    assert_eq!(alpha_entry.get(5, 0, 50, 90).0, Some(50));
    assert_eq!(alpha_entry.get(5, 0, 30, 90).0, None);
    let beta_entry = SearchData::create(5, 0, HashFlag::Beta, 80, mv);
    assert_eq!(beta_entry.get(5, 0, 10, 60).0, Some(60));
    assert_eq!(beta_entry.get(5, 0, 10, 90).0, None);
}

#[test]
fn distinct_keys_never_satisfy_each_other() {
    let mut tt: TT<SearchData> = TT::new(1);
    let mut budget = Budget::new(1 << 16);
    let n = tt.bucket_count() as u64;
    let z1 = 9u64;
    let z2 = 9 + n; // same bucket, different key
    tt.insert(z1, search_payload(4, 123), &mut budget);
    assert_eq!(tt.probe(z2), None);
    tt.insert(z2, search_payload(3, 456), &mut budget);
    assert_eq!(tt.probe(z1), Some(&search_payload(4, 123)));
    assert_eq!(tt.probe(z2), Some(&search_payload(3, 456)));
}

#[test]
fn table_resize_grows_within_budget_and_refuses_without() {
    let bucket_bytes = std::mem::size_of::<ttcache::bucket::Bucket<SearchData>>();
    let mut tt: TT<SearchData> = TT::new(1);
    let before = tt.bucket_count();
    assert_eq!(before, (1 << 20) / bucket_bytes);
    let mut broke = Budget::new(0);
    tt.resize(2, &mut broke); // no room: the table must stay as it is
    assert_eq!(tt.bucket_count(), before);
    let mut rich = Budget::new(8 << 20);
    tt.resize(2, &mut rich);
    let after = (2 << 20) / bucket_bytes;
    assert_eq!(tt.bucket_count(), after);
    assert_eq!(rich.room_left(), (8 << 20) - ((after - before) * bucket_bytes) as isize);
}

#[test]
fn budget_reserve_and_release() {
    let mut budget = Budget::new(100);
    assert!(budget.reserve(60));
    assert_eq!(budget.room_left(), 40);
    assert!(!budget.reserve(41));
    assert_eq!(budget.room_left(), 40);
    assert!(budget.reserve(40));
    assert_eq!(budget.room_left(), 0);
    budget.release(25);
    assert_eq!(budget.room_left(), 25);
}
