use puissance_4::api::engine::{Game, Zobrist};
use puissance_4::api::search::{Evaluation, NodeType, Search, TTEntry};

fn fixed_table() -> Vec<u64> {
    let mut t = Vec::new();
    let mut x: u64 = 0xDEAD_BEEF_CAFE_F00D;
    for _ in 0..84 {
        x = x.wrapping_add(0x9E37_79B9_7F4A_7C15);
        let mut z = x;
        z = (z ^ (z >> 30)).wrapping_mul(0xBF58_476D_1CE4_E5B9);
        z = (z ^ (z >> 27)).wrapping_mul(0x94D0_49BB_1331_11EB);
        t.push(z ^ (z >> 31));
    }
    t
}

fn new_game() -> Game {
    Game::new(Zobrist::new(fixed_table()))
}

/// Full-width minimax without pruning or a table, mirroring the engine's
/// conventions exactly: the perspective sign is the side to move, positions
/// with no legal move score `i32::MIN`.
fn minimax_ref(game: &mut Game, depth: i32) -> i32 {
    if depth == 0 || game.winner.is_some() {
        return game.turn_color.to_int() * Evaluation::evaluate(&game.board);
    }
    let moves = game.get_possible_moves();
    let mut best = i32::MIN;
    for m in moves {
        game.make_push(m);
        let v = minimax_ref(game, depth - 1).saturating_neg();
        game.unmake_push();
        if v > best {
            best = v;
        }
    }
    best
}

fn assert_negamax_matches_minimax(history: &str, depth: i32) {
    let mut game = new_game();
    game.make_push_bulk(history);
    let mut reference_game = new_game();
    reference_game.make_push_bulk(history);

    let mut search = Search::new(depth);
    let color = game.turn_color.to_int();
    let value = search.negamax(&mut game, depth, i32::MIN, i32::MAX, color);
    let reference = minimax_ref(&mut reference_game, depth);
    assert_eq!(value, reference, "at history {:?} depth {}", history, depth);
}

#[test]
fn unbounded_negamax_equals_minimax_from_the_empty_board() {
    for depth in 1..=3 {
        assert_negamax_matches_minimax("", depth);
    }
}

#[test]
fn unbounded_negamax_equals_minimax_on_small_positions() {
    for history in ["3", "33", "334", "3344", "012345", "661100"] {
        for depth in 1..=3 {
            assert_negamax_matches_minimax(history, depth);
        }
    }
}

#[test]
fn evaluation_of_the_empty_board_is_zero() {
    let game = new_game();
    assert_eq!(Evaluation::evaluate(&game.board), 0);
}

#[test]
fn evaluation_of_one_red_centre_token() {
    // One red token on the bottom centre square sits in seven windows
    // (4 horizontal, 1 vertical, 2 diagonal), each scoring 1; the centre
    // bonus counts the colour-parity board, which is empty after one move.
    let mut game = new_game();
    game.make_push(3);
    assert_eq!(Evaluation::evaluate(&game.board), 7);
}

#[test]
fn evaluation_of_a_stacked_centre_pair() {
    // Red on (0,3) and yellow on (1,3): the window scores sum to -3 (yellow
    // gets one more open vertical window than red), and the parity board is
    // red's with one centre token, earning +3.
    let mut game = new_game();
    game.make_push_bulk("33");
    assert_eq!(Evaluation::evaluate(&game.board), 0);
}

#[test]
fn evaluation_rises_with_a_red_pair() {
    let mut game = new_game();
    game.make_push_bulk("3040");
    let eval = Evaluation::evaluate(&game.board);
    assert!(eval > 0, "red pair with yellow replies scored {}", eval);
}

#[test]
fn think_returns_no_move_once_the_game_is_won() {
    let mut game = new_game();
    game.make_push_bulk("50500101010");
    let mut search = Search::new(3);
    assert_eq!(search.think(&mut game), None);
}

#[test]
fn think_returns_a_legal_move_from_the_start() {
    let mut game = new_game();
    let mut search = Search::new(2);
    let chosen = search.think(&mut game).expect("a legal move exists");
    assert!((0..7).contains(&chosen));
    assert_eq!(game.board.history.len(), 0);
}

#[test]
fn think_completes_an_open_four() {
    // Red holds columns 3, 4 and 5 on the bottom row; either 2 or 6 wins.
    let mut game = new_game();
    game.make_push_bulk("334455");
    let mut search = Search::new(2);
    let chosen = search.think(&mut game).expect("moves remain");
    assert!(chosen == 2 || chosen == 6, "search chose {}", chosen);
    game.make_push(chosen);
    assert!(game.winner.is_some());
}

#[test]
fn fresh_tt_entry_is_unset() {
    let entry = TTEntry::new();
    assert!(matches!(entry.flag, NodeType::Unset));
    assert_eq!(entry.depth, 0);
    assert_eq!(entry.value, 0);
}

#[test]
fn search_is_built_with_its_depth() {
    let search = Search::new(9);
    assert_eq!(search.depth, 9);
    assert!(search.tt.is_empty());
}

#[test]
fn negamax_records_its_result_under_the_position_key() {
    let mut game = new_game();
    game.make_push_bulk("34");
    let mut search = Search::new(3);
    let color = game.turn_color.to_int();
    let value = search.negamax(&mut game, 3, i32::MIN, i32::MAX, color);
    let entry = search
        .tt
        .get(&game.zobrist_key)
        .expect("a searched position is recorded");
    assert_eq!(entry.depth, 3);
    assert_eq!(entry.value, value);
    assert!(matches!(entry.flag, NodeType::Exact));
}

#[test]
fn negamax_answers_from_a_stored_exact_entry() {
    let mut game = new_game();
    game.make_push_bulk("05");
    let mut search = Search::new(2);
    let planted = TTEntry {
        flag: NodeType::Exact,
        depth: 9,
        value: 424_242,
    };
    search.tt.insert(game.zobrist_key, planted);
    let color = game.turn_color.to_int();
    let value = search.negamax(&mut game, 2, i32::MIN, i32::MAX, color);
    assert_eq!(value, 424_242);
}
