use puissance_4::api::engine::{Perft, Zobrist};

fn fixed_table() -> Vec<u64> {
    let mut t = Vec::new();
    let mut x: u64 = 0x0F0E_0D0C_0B0A_0908;
    for _ in 0..84 {
        x = x.wrapping_add(0x9E37_79B9_7F4A_7C15);
        let mut z = x;
        z = (z ^ (z >> 30)).wrapping_mul(0xBF58_476D_1CE4_E5B9);
        z = (z ^ (z >> 27)).wrapping_mul(0x94D0_49BB_1331_11EB);
        t.push(z ^ (z >> 31));
    }
    t
}

fn new_perft() -> Perft {
    Perft::new(Zobrist::new(fixed_table()))
}

#[test]
fn memoized_run_equals_plain_run_to_depth_nine() {
    let mut perft = new_perft();
    for depth in 1..=9 {
        let plain = perft.run(depth);
        let memoized = perft.run_tt(depth);
        assert_eq!(plain, memoized, "perft mismatch at depth {}", depth);
    }
}

#[test]
fn shallow_counts_are_powers_of_seven() {
    // No column can fill and no game can be won within five plies, so every
    // position of those levels offers all seven columns.
    let mut perft = new_perft();
    assert_eq!(perft.run(1), 7);
    assert_eq!(perft.run(2), 49);
    assert_eq!(perft.run(3), 343);
    assert_eq!(perft.run(4), 2401);
    assert_eq!(perft.run(5), 16807);
}

#[test]
fn wins_prune_the_tree_at_depth_eight() {
    // From ply seven on, finished games stop contributing moves, so the
    // count falls below the full-width power of seven.
    let mut perft = new_perft();
    assert_eq!(perft.run(6), 117649);
    assert_eq!(perft.run(7), 823536);
    assert!(perft.run(8) < 5764801);
}

#[test]
fn run_leaves_the_position_unchanged() {
    let mut perft = new_perft();
    perft.game.make_push_bulk("334");
    let bitboard = perft.game.board.bitboard;
    let key = perft.game.zobrist_key;
    perft.run(5);
    perft.run_tt(5);
    assert_eq!(perft.game.board.bitboard, bitboard);
    assert_eq!(perft.game.zobrist_key, key);
}

#[test]
fn memoized_run_answers_from_the_cache() {
    let mut perft = new_perft();
    let first = perft.run_tt(6);
    let second = perft.run_tt(6);
    assert_eq!(first, second);
    assert_eq!(first, 117649);
}

#[test]
fn reset_clears_cache_and_position() {
    let mut perft = new_perft();
    perft.game.make_push_bulk("123");
    perft.run_tt(4);
    perft.reset();
    assert_eq!(perft.game.board.bitboard, 0);
    assert_eq!(perft.game.zobrist_key, 0);
    assert_eq!(perft.run_tt(1), 7);
}
