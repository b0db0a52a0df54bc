use puissance_4::api::engine::{Game, Zobrist};

fn fixed_table() -> Vec<u64> {
    let mut t = Vec::new();
    let mut x: u64 = 0x1234_5678_9ABC_DEF0;
    for _ in 0..84 {
        x = x.wrapping_add(0x9E37_79B9_7F4A_7C15);
        let mut z = x;
        z = (z ^ (z >> 30)).wrapping_mul(0xBF58_476D_1CE4_E5B9);
        z = (z ^ (z >> 27)).wrapping_mul(0x94D0_49BB_1331_11EB);
        t.push(z ^ (z >> 31));
    }
    t
}

fn new_game() -> Game {
    Game::new(Zobrist::new(fixed_table()))
}

#[derive(PartialEq, Debug)]
struct Snapshot {
    bitboard: u64,
    color_bitboard: u64,
    heights_top: Vec<i32>,
    history_len: usize,
    key: u64,
    turn: i32,
    winner: Option<puissance_4::api::engine::Color>,
}

fn snap(game: &Game) -> Snapshot {
    Snapshot {
        bitboard: game.board.bitboard,
        color_bitboard: game.board.color_bitboard,
        heights_top: (0..7).map(|c| game.board.heights[c]).collect(),
        history_len: game.board.history.len(),
        key: game.zobrist_key,
        turn: game.turn_color.to_int(),
        winner: game.winner,
    }
}

#[test]
fn push_then_undo_is_the_identity() {
    let mut game = new_game();
    game.make_push_bulk("334455");
    for col in [0, 3, 6, 2] {
        let before = snap(&game);
        game.make_push(col);
        game.unmake_push();
        assert_eq!(snap(&game), before);
    }
}

#[test]
fn undo_unwinds_a_whole_game_exactly() {
    let mut game = new_game();
    let history = "23365636636535655531210112221140";
    let mut snaps = vec![snap(&game)];
    for ch in history.chars() {
        game.make_push(ch.to_digit(10).unwrap() as i32);
        snaps.push(snap(&game));
    }
    for i in (0..history.len()).rev() {
        game.unmake_push();
        assert_eq!(snap(&game), snaps[i]);
    }
}

#[test]
fn replaying_the_same_moves_reproduces_the_key() {
    let mut g1 = new_game();
    let mut g2 = new_game();
    g1.make_push_bulk("112263364400");
    g2.make_push_bulk("112263364400");
    assert_eq!(g1.zobrist_key, g2.zobrist_key);
}

#[test]
fn key_does_not_drift_over_many_push_undo_cycles() {
    let mut game = new_game();
    game.make_push_bulk("3142");
    let key = game.zobrist_key;
    for _ in 0..1000 {
        game.make_push(5);
        game.make_push(6);
        game.unmake_push();
        game.unmake_push();
        assert_eq!(game.zobrist_key, key);
    }
}

#[test]
fn key_depends_on_the_move_order_colours() {
    // The same squares filled by the other colour give a different key:
    // 0 then 1 versus 1 then 0 swap which colour sits on each square.
    let mut g1 = new_game();
    let mut g2 = new_game();
    g1.make_push_bulk("01");
    g2.make_push_bulk("10");
    assert_eq!(g1.board.bitboard, g2.board.bitboard);
    assert_ne!(g1.zobrist_key, g2.zobrist_key);
}

#[test]
fn empty_position_has_key_zero() {
    let game = new_game();
    assert_eq!(game.zobrist_key, 0);
    let mut game2 = new_game();
    game2.make_push(4);
    game2.unmake_push();
    assert_eq!(game2.zobrist_key, 0);
}

#[test]
fn fresh_tables_hold_84_constants() {
    let z = Zobrist::fresh();
    assert_eq!(z.token_square.len(), 84);
}
