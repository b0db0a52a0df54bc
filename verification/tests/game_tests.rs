use puissance_4::api::engine::{Color, File, Game, PushError, Zobrist};

fn fixed_table() -> Vec<u64> {
    let mut t = Vec::new();
    let mut x: u64 = 0x9E37_79B9_7F4A_7C15;
    for _ in 0..84 {
        x = x.wrapping_add(0x9E37_79B9_7F4A_7C15);
        let mut z = x;
        z = (z ^ (z >> 30)).wrapping_mul(0xBF58_476D_1CE4_E5B9);
        z = (z ^ (z >> 27)).wrapping_mul(0x94D0_49BB_1331_11EB);
        t.push(z ^ (z >> 31));
    }
    t
}

fn new_game() -> Game {
    Game::new(Zobrist::new(fixed_table()))
}

fn winner_after(history: &str) -> Option<Color> {
    let mut game = new_game();
    game.make_push_bulk(history);
    game.winner
}

#[test]
fn alignment_vertical_red() {
    assert_eq!(winner_after("50500101010"), Some(Color::Red));
}

#[test]
fn alignment_bottom_row_red() {
    assert_eq!(winner_after("6655443"), Some(Color::Red));
}

#[test]
fn alignment_horizontal_yellow() {
    assert_eq!(winner_after("111522234443"), Some(Color::Yellow));
}

#[test]
fn alignment_centre_red() {
    assert_eq!(winner_after("3334344433655"), Some(Color::Red));
}

#[test]
fn alignment_none_short() {
    assert_eq!(winner_after("6140166111015"), None);
}

#[test]
fn alignment_none_long() {
    assert_eq!(winner_after("23365636636535655531210112221140"), None);
}

#[test]
fn alignment_none_spread() {
    assert_eq!(winner_after("112263364400"), None);
}

#[test]
fn alignment_none_dense() {
    assert_eq!(winner_after("45441432344223333210220550606"), None);
}

#[test]
fn alignment_top_row_red() {
    assert_eq!(winner_after("3333544454344223066666611111105"), Some(Color::Red));
}

#[test]
fn fresh_game_offers_all_columns_descending() {
    let game = new_game();
    assert_eq!(game.get_possible_moves(), vec![6, 5, 4, 3, 2, 1, 0]);
}

#[test]
fn full_column_is_not_offered() {
    let mut game = new_game();
    for _ in 0..6 {
        game.make_push(0);
    }
    let moves = game.get_possible_moves();
    assert!(!moves.contains(&0));
    assert_eq!(moves, vec![6, 5, 4, 3, 2, 1]);
}

#[test]
fn won_game_offers_no_moves() {
    let mut game = new_game();
    game.make_push_bulk("50500101010");
    assert!(game.winner.is_some());
    assert!(game.get_possible_moves().is_empty());
}

#[test]
fn try_push_rejects_out_of_range_column() {
    let mut game = new_game();
    assert_eq!(game.try_push(7), Err(PushError::IllegalMove));
    assert_eq!(game.try_push(-1), Err(PushError::IllegalMove));
    assert_eq!(game.board.history.len(), 0);
}

#[test]
fn try_push_rejects_full_column() {
    let mut game = new_game();
    for _ in 0..6 {
        assert_eq!(game.try_push(2), Ok(()));
    }
    assert_eq!(game.try_push(2), Err(PushError::IllegalMove));
    assert_eq!(game.board.history.len(), 6);
}

#[test]
fn try_push_rejects_moves_after_a_win() {
    let mut game = new_game();
    game.make_push_bulk("50500101010");
    assert_eq!(game.try_push(3), Err(PushError::IllegalMove));
}

#[test]
fn reset_clears_the_position() {
    let mut game = new_game();
    game.make_push_bulk("334455");
    game.reset();
    assert_eq!(game.board.bitboard, 0);
    assert_eq!(game.board.color_bitboard, 0);
    assert_eq!(game.zobrist_key, 0);
    assert_eq!(game.board.history.len(), 0);
    assert_eq!(game.turn_color, Color::Red);
    assert_eq!(game.winner, None);
}

#[test]
fn turn_alternates_starting_red() {
    let mut game = new_game();
    assert_eq!(game.turn_color, Color::Red);
    game.make_push(3);
    assert_eq!(game.turn_color, Color::Yellow);
    game.make_push(3);
    assert_eq!(game.turn_color, Color::Red);
}

#[test]
fn color_signed_encoding() {
    assert_eq!(Color::Red.to_int(), 1);
    assert_eq!(Color::Yellow.to_int(), -1);
}

#[test]
fn color_from_table_offset() {
    assert_eq!(Color::from_int(0), Some(Color::Red));
    assert_eq!(Color::from_int(1), Some(Color::Yellow));
    assert_eq!(Color::from_int(2), None);
}

#[test]
fn color_toggle_swaps() {
    assert_eq!(Color::Red.toggle(), Color::Yellow);
    assert_eq!(Color::Yellow.toggle(), Color::Red);
}

#[test]
fn file_masks_hold_one_column_each() {
    assert_eq!(File::A.mask(), 0x810204081);
    assert_eq!(File::B.mask(), 0x1020408102);
    assert_eq!(File::C.mask(), 0x2040810204);
    assert_eq!(File::D.mask(), 0x4081020408);
    assert_eq!(File::E.mask(), 0x8102040810);
    assert_eq!(File::F.mask(), 0x10204081020);
    assert_eq!(File::G.mask(), 0x20408102040);
    for c in 0..7 {
        assert_eq!(File::mask_unchecked(c), 0x810204081u64 << c);
    }
}

#[test]
fn pushes_fill_squares_bottom_up() {
    let mut game = new_game();
    game.make_push(3);
    assert_eq!(game.board.bitboard, 1 << 3);
    game.make_push(3);
    assert_eq!(game.board.bitboard, (1 << 3) | (1 << 10));
    game.make_push(0);
    assert_eq!(game.board.bitboard, (1 << 3) | (1 << 10) | 1);
}

#[test]
fn bulk_push_equals_single_pushes() {
    let mut bulk = new_game();
    bulk.make_push_bulk("334455");
    let mut single = new_game();
    for col in [3, 3, 4, 4, 5, 5] {
        single.make_push(col);
    }
    assert_eq!(bulk.board.bitboard, single.board.bitboard);
    assert_eq!(bulk.board.color_bitboard, single.board.color_bitboard);
    assert_eq!(bulk.zobrist_key, single.zobrist_key);
    assert_eq!(bulk.turn_color, single.turn_color);
    assert_eq!(bulk.winner, single.winner);
}

#[test]
fn check_win_agrees_with_the_recorded_winner() {
    let mut game = new_game();
    assert_eq!(game.check_win(), None);
    game.make_push_bulk("50500101010");
    assert_eq!(game.check_win(), Some(Color::Red));
    assert_eq!(game.check_win(), game.winner);
}
