//! The board, the game orchestration, the position hasher and the perft
//! harness: a 7x6 connect-four engine over a 42-bit board held in a `u64`.

use std::collections::HashMap;
use vstd::prelude::*;
use vstd::string::StrSliceExecFns;
use crate::api::alignment::{has_alignment, lemma_winner_alignment};
use crate::api::model::{
    bit_at, bulk_ok, cell, col_mask, col_ok, count_col, cpar_of, digit_cols, hist_of, key_of,
    last_board, legal_cols, legal_desc, lemma_count_col_bounds, lemma_count_col_push,
    lemma_hist_len, lemma_legal_cols_props, lemma_mask_test, lemma_occ_structure,
    lemma_perft_bounds, lemma_perft_sum_bounds, lemma_pow7_22, lemma_pow7_mono, lemma_push_state,
    lemma_single_bit_injective, lemma_tz_single_bit, lemma_vec_cols_push, lemma_wf_count_le,
    lemma_xor_cancel, move_color, occ_of, perft_of, perft_sum, sq_bit, tt_key, turn_of, vec_cols,
    wf_cols, winner_of, z_index,
};

verus! {

broadcast use vstd::std_specs::hash::group_hash_axioms;

/// A token colour.  Red moves first.
#[derive(Clone, Copy, PartialEq, Eq, Structural, Debug)]
pub enum Color {
    Red,
    Yellow,
}

impl Color {
    /// The signed encoding of the colour: +1 for red, -1 for yellow.
    pub fn to_int(self) -> (r: i32)
        ensures
            r == if self is Red {
                1int
            } else {
                -1int
            },
    {
        match self {
            Color::Red => 1,
            Color::Yellow => -1,
        }
    }

    /// Decodes the hash-table colour offset: 0 is red, 1 is yellow.
    pub fn from_int(value: u64) -> (r: Option<Self>)
        ensures
            r == match value {
                0u64 => Some(Color::Red),
                1u64 => Some(Color::Yellow),
                _ => None::<Color>,
            },
    {
        match value {
            0 => Some(Color::Red),
            1 => Some(Color::Yellow),
            _ => None,
        }
    }

    /// The other colour.
    pub fn toggle(&self) -> (r: Self)
        ensures
            r == if self is Red {
                Color::Yellow
            } else {
                Color::Red
            },
    {
        match self {
            Color::Red => Color::Yellow,
            Color::Yellow => Color::Red,
        }
    }
}

/// One of the seven files (columns) of the board.
#[derive(Clone, Copy)]
pub enum File {
    A,
    B,
    C,
    D,
    E,
    F,
    G,
}

impl File {
    /// The column number of the file.
    pub open spec fn col(self) -> int {
        match self {
            File::A => 0int,
            File::B => 1int,
            File::C => 2int,
            File::D => 3int,
            File::E => 4int,
            File::F => 5int,
            File::G => 6int,
        }
    }

    /// The bitmask of every square of this file.
    pub fn mask(self) -> (r: u64)
        ensures
            r == col_mask(self.col()),
    {
        let c: u64 = match self {
            File::A => 0,
            File::B => 1,
            File::C => 2,
            File::D => 3,
            File::E => 4,
            File::F => 5,
            File::G => 6,
        };
        0x810204081u64 << c
    }

    /// The bitmask of the file holding column `col`; the column must be valid.
    pub fn mask_unchecked(col: i32) -> (r: u64)
        requires
            col_ok(col as int),
        ensures
            r == col_mask(col as int),
    {
        0x810204081u64 << (col as u64)
    }
}

/// Relies on `rand::random::<u64>()`: one value from the thread-local
/// generator.  Nothing is assumed of the value drawn.
#[verifier::external_body]
fn random_u64() -> u64 {
    rand::random::<u64>()
}

/// The table of 84 fixed 64-bit constants, one per (square, colour) pair,
/// that the incremental position key is XOR-accumulated from.  The table is
/// an explicit dependency handed to [`Game`], so deterministic tables can be
/// substituted for tests.
pub struct Zobrist {
    pub token_square: Vec<u64>,
}

impl Zobrist {
    /// Well-formed: one constant per (square, colour) pair.
    pub open spec fn wf(&self) -> bool {
        self.token_square@.len() == 84
    }

    /// A table of process-random constants.
    pub fn fresh() -> (r: Self)
        ensures
            r.wf(),
    {
        let mut t: Vec<u64> = Vec::new();
        let mut i: usize = 0;
        while i < 84
            invariant
                t@.len() == i,
                i <= 84,
            decreases 84 - i,
        {
            t.push(random_u64());
            i = i + 1;
        }
        Zobrist { token_square: t }
    }

    /// A table of caller-chosen constants, for deterministic runs.
    pub fn new(table: Vec<u64>) -> (r: Self)
        requires
            table@.len() == 84,
        ensures
            r.wf(),
            r.token_square@ == table@,
    {
        Zobrist { token_square: table }
    }

    /// The table index of a history entry: the trailing-zero count of the
    /// placed bit, offset by 42 for yellow.
    fn get_index(play: (u64, Color)) -> (r: u64)
        requires
            exists|c: int, rr: int| col_ok(c) && 0 <= rr < 6 && play.0 == #[trigger] sq_bit(c, rr),
        ensures
            forall|c: int, rr: int|
                col_ok(c) && 0 <= rr < 6 && play.0 == #[trigger] sq_bit(c, rr) ==> r as int
                    == z_index(c, rr, play.1),
            r < 84,
    {
        let raw: u64 = play.0;
        let offset: u64 = match play.1 {
            Color::Red => 0,
            Color::Yellow => 1,
        };
        let tz: u32 = raw.trailing_zeros();
        proof {
            let (c, rr) = choose|c: int, rr: int|
                col_ok(c) && 0 <= rr < 6 && play.0 == #[trigger] sq_bit(c, rr);
            lemma_tz_single_bit((c + 7 * rr) as u64);
            assert(tz as u64 == (c + 7 * rr) as u64);
            assert forall|c2: int, r2: int|
                col_ok(c2) && 0 <= r2 < 6 && play.0 == #[trigger] sq_bit(c2, r2) implies (offset
                * 42 + tz as u64) as int == z_index(c2, r2, play.1) by {
                lemma_single_bit_injective((c + 7 * rr) as u64, (c2 + 7 * r2) as u64);
            }
        }
        offset * 42 + tz as u64
    }
}

/// The positional data: the occupancy bitset, the colour-parity bitset, the
/// move history and the per-column heights.  All interaction logic is in
/// [`Game`].
#[derive(Clone)]
pub struct Board {
    pub bitboard: u64,
    pub color_bitboard: u64,
    pub history: Vec<(u64, Color)>,
    pub heights: Vec<i32>,
    pub cols: Ghost<Seq<int>>,
}

impl Board {
    /// The move sequence this board arose from.
    pub open spec fn moves(&self) -> Seq<int> {
        self.cols@
    }

    /// Well-formed: the moves are a legal history and every component holds
    /// its model value.
    pub open spec fn wf(&self) -> bool {
        &&& wf_cols(self.cols@)
        &&& self.bitboard == occ_of(self.cols@)
        &&& self.color_bitboard == cpar_of(self.cols@)
        &&& self.heights@.len() == 7
        &&& (forall|c: int|
            0 <= c < 7 ==> (#[trigger] self.heights@[c]) as int == count_col(self.cols@, c))
        &&& self.history@ == hist_of(self.cols@)
    }

    /// The empty board.
    pub fn new() -> (r: Self)
        ensures
            r.wf(),
            r.moves() == Seq::<int>::empty(),
    {
        Board {
            bitboard: 0,
            color_bitboard: 0,
            history: Vec::new(),
            heights: vec![0, 0, 0, 0, 0, 0, 0],
            cols: Ghost(Seq::empty()),
        }
    }
}

/// The error of a rejected move: the column is out of range or full, or the
/// game is already won.
#[derive(Clone, Copy, PartialEq, Eq, Structural, Debug)]
pub enum PushError {
    IllegalMove,
}

/// The playable game: the board together with the side to move, the recorded
/// winner, and the incrementally maintained position key.
pub struct Game {
    pub board: Board,
    pub turn_color: Color,
    pub winner: Option<Color>,
    pub zobrist_key: u64,
    pub zobrist: Zobrist,
}

impl Game {
    /// The move sequence played so far.
    pub open spec fn moves(&self) -> Seq<int> {
        self.board.cols@
    }

    /// The hash-constant table in use.
    pub open spec fn table(&self) -> Seq<u64> {
        self.zobrist.token_square@
    }

    /// Well-formed: the board is well-formed and turn, winner and key hold
    /// their model values.
    pub open spec fn wf(&self) -> bool {
        &&& self.board.wf()
        &&& self.turn_color == turn_of(self.moves())
        &&& self.winner == winner_of(self.moves())
        &&& self.zobrist.wf()
        &&& self.zobrist_key == key_of(self.moves(), self.table())
    }

    /// A fresh game over the given hash table.  Red is to move.
    pub fn new(zobrist: Zobrist) -> (r: Self)
        requires
            zobrist.wf(),
        ensures
            r.wf(),
            r.moves() == Seq::<int>::empty(),
            r.table() == zobrist.token_square@,
    {
        Game {
            board: Board::new(),
            turn_color: Color::Red,
            winner: None,
            zobrist_key: 0,
            zobrist,
        }
    }

    /// Clears the position back to the empty board, keeping the hash table.
    pub fn reset(&mut self)
        requires
            old(self).zobrist.wf(),
        ensures
            final(self).wf(),
            final(self).moves() == Seq::<int>::empty(),
            final(self).table() == old(self).table(),
    {
        self.board = Board::new();
        self.turn_color = Color::Red;
        self.winner = None;
        self.zobrist_key = 0;
    }

    /// The columns that may be played now: every valid non-full column, in
    /// descending order, and none at all once a winner is recorded.
    pub fn get_possible_moves(&self) -> (r: Vec<i32>)
        requires
            self.wf(),
        ensures
            vec_cols(r@) == legal_cols(self.moves()),
    {
        let ghost s = self.moves();
        let mut result: Vec<i32> = Vec::new();
        if self.winner.is_some() {
            proof {
                assert(vec_cols(result@) =~= legal_cols(s));
            }
            return result;
        }
        let mut i: i32 = 6;
        proof {
            lemma_occ_structure(s);
            assert(vec_cols(result@) + legal_desc(s, 6) =~= legal_desc(s, 6));
        }
        while i >= 0
            invariant
                -1 <= i <= 6,
                self.wf(),
                self.winner is None,
                s == self.moves(),
                vec_cols(result@) + legal_desc(s, i as int) == legal_desc(s, 6),
                forall|c: int, r: int|
                    col_ok(c) && 0 <= r < 6 ==> (#[trigger] cell(occ_of(s), c, r) <==> r
                        < count_col(s, c)),
            decreases i + 1,
        {
            let sh: u64 = (35 + i) as u64;
            let top: u64 = 1u64 << sh;
            proof {
                lemma_mask_test(self.board.bitboard, sh);
                assert(cell(occ_of(s), i as int, 5) == bit_at(occ_of(s), sh));
                lemma_wf_count_le(s, i as int);
            }
            if top & self.board.bitboard == 0 {
                proof {
                    assert(count_col(s, i as int) < 6);
                    lemma_vec_cols_push(result@, i);
                    assert(legal_desc(s, i as int) =~= seq![i as int] + legal_desc(s, i as int - 1));
                    assert((vec_cols(result@).push(i as int)) + legal_desc(s, i as int - 1)
                        =~= vec_cols(result@) + legal_desc(s, i as int));
                }
                result.push(i);
            } else {
                proof {
                    assert(count_col(s, i as int) == 6);
                    assert(legal_desc(s, i as int) == legal_desc(s, i as int - 1));
                }
            }
            i = i - 1;
        }
        proof {
            assert(legal_desc(s, -1) =~= Seq::<int>::empty());
            assert(vec_cols(result@) + legal_desc(s, -1) =~= vec_cols(result@));
        }
        result
    }

    /// Places one token for `token_color` in `col`: updates both bitsets, the
    /// height, the history and the position key.
    fn push_token(
        board: &mut Board,
        col: i32,
        token_color: Color,
        zobrist_key: &mut u64,
        zobrist: &Zobrist,
    )
        requires
            old(board).wf(),
            col_ok(col as int),
            count_col(old(board).moves(), col as int) < 6,
            winner_of(old(board).moves()) is None,
            token_color == turn_of(old(board).moves()),
            zobrist.wf(),
            *old(zobrist_key) == key_of(old(board).moves(), zobrist.token_square@),
        ensures
            final(board).wf(),
            final(board).moves() == old(board).moves().push(col as int),
            *final(zobrist_key) == key_of(final(board).moves(), zobrist.token_square@),
    {
        let ghost s = old(board).cols@;
        let ghost c = col as int;
        let ghost h0 = count_col(s, c);
        let h: i32 = board.heights[col as usize];
        proof {
            lemma_count_col_bounds(s, c);
            assert(h as int == h0);
        }
        let new_bit: u64 = 1u64 << ((col + h * 7) as u64);
        board.heights[col as usize] = h + 1;
        board.color_bitboard = board.color_bitboard ^ board.bitboard;
        board.bitboard = board.bitboard ^ new_bit;
        board.history.push((new_bit, token_color));
        proof {
            assert(new_bit == sq_bit(c, h0));
            lemma_push_state(s, c);
        }
        let idx = Zobrist::get_index((new_bit, token_color));
        *zobrist_key = *zobrist_key ^ zobrist.token_square[idx as usize];
        board.cols = Ghost(s.push(c));
        proof {
            assert(token_color == move_color(s.len() as int));
            assert(idx as int == z_index(c, h0, token_color));
            assert forall|d: int| 0 <= d < 7 implies (#[trigger] board.heights@[d]) as int
                == count_col(s.push(c), d) by {
                lemma_count_col_push(s, c, d);
            }
        }
    }

    /// Plays `col` for the side to move, records any win the move completes,
    /// and passes the turn.  The column must be valid and playable; callers
    /// establish that through [`Self::get_possible_moves`] or use
    /// [`Self::try_push`].
    pub fn make_push(&mut self, col: i32)
        requires
            old(self).wf(),
            col_ok(col as int),
            count_col(old(self).moves(), col as int) < 6,
            old(self).winner is None,
        ensures
            final(self).wf(),
            final(self).moves() == old(self).moves().push(col as int),
            final(self).table() == old(self).table(),
    {
        proof {
            lemma_push_state(old(self).moves(), col as int);
        }
        Self::push_token(
            &mut self.board,
            col,
            self.turn_color,
            &mut self.zobrist_key,
            &self.zobrist,
        );
        self.winner = self.check_win();
        self.turn_color = self.turn_color.toggle();
    }

    /// Plays every ASCII digit of `history` as a column, oldest first.  The
    /// whole sequence must be legal from the current position.
    pub fn make_push_bulk(&mut self, history: &str)
        requires
            old(self).wf(),
            bulk_ok(old(self).moves(), digit_cols(history@)),
        ensures
            final(self).wf(),
            final(self).moves() == old(self).moves() + digit_cols(history@),
            final(self).table() == old(self).table(),
    {
        let ghost ds = digit_cols(history@);
        let n: usize = history.unicode_len();
        let mut j: usize = 0;
        proof {
            assert(self.moves() =~= old(self).moves() + ds.take(0));
            assert(ds.skip(0) =~= ds);
        }
        while j < n
            invariant
                j <= n,
                n == ds.len(),
                ds == digit_cols(history@),
                n == history@.len(),
                self.wf(),
                self.table() == old(self).table(),
                self.moves() == old(self).moves() + ds.take(j as int),
                bulk_ok(self.moves(), ds.skip(j as int)),
            decreases n - j,
        {
            let ch: char = history.get_char(j);
            proof {
                let rest = ds.skip(j as int);
                assert(rest[0] == ds[j as int]);
                assert(ds[j as int] == history@[j as int] as int - 48);
                assert(rest.drop_first() =~= ds.skip(j as int + 1));
            }
            let col: i32 = ((ch as u32) - 48) as i32;
            self.make_push(col);
            j = j + 1;
            proof {
                assert(old(self).moves() + ds.take(j as int) =~= (old(self).moves() + ds.take(
                    j as int - 1,
                )).push(ds[j as int - 1]));
            }
        }
        proof {
            assert(ds.take(n as int) =~= ds);
        }
    }

    /// Plays `col` if it is a legal move now, and reports the illegal-move
    /// error otherwise, leaving the position unchanged.
    pub fn try_push(&mut self, col: i32) -> (r: Result<(), PushError>)
        requires
            old(self).wf(),
        ensures
            final(self).wf(),
            final(self).table() == old(self).table(),
            if col_ok(col as int) && count_col(old(self).moves(), col as int) < 6 && winner_of(
                old(self).moves(),
            ) is None {
                r == Ok::<(), PushError>(()) && final(self).moves() == old(self).moves().push(
                    col as int,
                )
            } else {
                r == Err::<(), PushError>(PushError::IllegalMove) && final(self).moves() == old(
                    self,
                ).moves()
            },
    {
        if col < 0 || col >= 7 {
            return Err(PushError::IllegalMove);
        }
        if self.winner.is_some() {
            return Err(PushError::IllegalMove);
        }
        if self.board.heights[col as usize] >= 6 {
            proof {
                lemma_count_col_bounds(self.moves(), col as int);
            }
            return Err(PushError::IllegalMove);
        }
        self.make_push(col);
        Ok(())
    }

    /// Takes back the most recent move: restores both bitsets, the height,
    /// the history, the position key and the turn, and clears the winner.
    pub fn unmake_push(&mut self)
        requires
            old(self).wf(),
            old(self).moves().len() > 0,
        ensures
            final(self).wf(),
            final(self).moves() == old(self).moves().drop_last(),
            final(self).table() == old(self).table(),
    {
        let ghost s = old(self).moves();
        let ghost s0 = s.drop_last();
        let ghost c0 = s.last();
        let ghost h0 = count_col(s0, c0);
        proof {
            lemma_hist_len(s);
            assert(s0.push(c0) =~= s);
            lemma_push_state(s0, c0);
            lemma_count_col_bounds(s0, c0);
        }
        self.turn_color = self.turn_color.toggle();
        let last_play = self.board.history.pop().unwrap();
        proof {
            assert(last_play == hist_of(s).last());
            assert(last_play.0 == sq_bit(c0, h0));
            assert(self.board.history@ =~= hist_of(s0));
        }
        let idx = Zobrist::get_index(last_play);
        proof {
            assert(idx as int == z_index(c0, h0, move_color(s.len() - 1)));
            lemma_xor_cancel(key_of(s0, self.table()), self.table()[idx as int]);
        }
        self.zobrist_key = self.zobrist_key ^ self.zobrist.token_square[idx as usize];
        proof {
            lemma_xor_cancel(occ_of(s0), sq_bit(c0, h0));
        }
        self.board.bitboard = self.board.bitboard ^ last_play.0;
        proof {
            lemma_xor_cancel(cpar_of(s0), occ_of(s0));
        }
        self.board.color_bitboard = self.board.color_bitboard ^ self.board.bitboard;
        let tz: u32 = last_play.0.trailing_zeros();
        proof {
            lemma_tz_single_bit((c0 + 7 * h0) as u64);
            assert((c0 + 7 * h0) % 7 == c0) by (nonlinear_arith)
                requires
                    0 <= c0 < 7,
                    0 <= h0,
            ;
        }
        let colu: usize = (tz % 7) as usize;
        let hh: i32 = self.board.heights[colu];
        proof {
            lemma_count_col_push(s0, c0, c0);
        }
        self.board.heights[colu] = hh - 1;
        self.winner = None;
        self.board.cols = Ghost(s0);
        proof {
            assert forall|d: int| 0 <= d < 7 implies (#[trigger] self.board.heights@[d]) as int
                == count_col(s0, d) by {
                lemma_count_col_push(s0, c0, d);
            }
        }
    }

    /// Whether the most recent move completed a four-in-a-row, and for which
    /// colour: the bit-parallel doubling check over the last mover's board,
    /// which recognises exactly the boards with four aligned squares.
    pub fn check_win(&self) -> (r: Option<Color>)
        requires
            self.board.wf(),
        ensures
            r == winner_of(self.board.moves()),
            r is Some <==> (self.board.moves().len() > 0 && has_alignment(
                last_board(self.board.moves()),
            )),
    {
        let ghost s = self.board.moves();
        proof {
            lemma_hist_len(s);
            lemma_winner_alignment(s);
        }
        let hlen = self.board.history.len();
        if hlen == 0 {
            return None;
        }
        let last_color = self.board.history[hlen - 1].1;
        proof {
            assert(s.drop_last().push(s.last()) =~= s);
            lemma_push_state(s.drop_last(), s.last());
            assert(hist_of(s).last() == self.board.history@[hlen - 1]);
            assert(last_color == move_color(s.len() - 1));
        }
        let cb: u64 = self.board.color_bitboard ^ self.board.bitboard;
        proof {
            assert(cb == last_board(s));
        }
        let na: u64 = !File::A.mask();
        let ng: u64 = !File::G.mask();

        // vertical
        let mv = cb & (cb >> 7u64);
        if mv & (mv >> 14u64) != 0 {
            return Some(last_color);
        }
        // horizontal, both scan directions, outer files masked
        let h1 = cb & (cb >> 1u64) & na & ng;
        let h2 = cb & (cb << 1u64) & na & ng;
        if h1 & (h1 >> 2u64) != 0 || h2 & (h2 << 2u64) != 0 {
            return Some(last_color);
        }
        // diagonal up-right, both scan directions
        let d1 = cb & (cb >> 8u64) & na & ng;
        let d2 = cb & (cb << 8u64) & na & ng;
        if d1 & (d1 >> 16u64) != 0 || d2 & (d2 << 16u64) != 0 {
            return Some(last_color);
        }
        // diagonal up-left, both scan directions
        let e1 = cb & (cb >> 6u64) & na & ng;
        let e2 = cb & (cb << 6u64) & na & ng;
        if e1 & (e1 >> 12u64) != 0 || e2 & (e2 << 12u64) != 0 {
            return Some(last_color);
        }
        None
    }
}

/// The move-count verification harness: exhaustive and memoized counting of
/// the legal-move tree, used to validate move generation and caching.
pub struct Perft {
    pub game: Game,
    pub tt: HashMap<u128, u64>,
}

impl Perft {
    /// The memo table: counts keyed by (position key, depth), packed by
    /// [`tt_key`].
    pub open spec fn cache(&self) -> Map<u128, u64> {
        self.tt@
    }

    /// A fresh harness over the given hash table.
    pub fn new(zobrist: Zobrist) -> (r: Self)
        requires
            zobrist.wf(),
        ensures
            r.game.wf(),
            r.game.moves() == Seq::<int>::empty(),
            r.game.table() == zobrist.token_square@,
            r.cache() == Map::<u128, u64>::empty(),
    {
        Perft { game: Game::new(zobrist), tt: HashMap::new() }
    }

    /// Counts, over the move tree explored to `depth`, the number of legal
    /// moves at each position of the deepest level reached.
    pub fn run(&mut self, depth: i32) -> (r: u64)
        requires
            old(self).game.wf(),
            1 <= depth <= 22,
        ensures
            final(self).game.wf(),
            final(self).game.moves() == old(self).game.moves(),
            final(self).game.table() == old(self).game.table(),
            final(self).cache() == old(self).cache(),
            r as int == perft_of(old(self).game.moves(), depth as int),
        decreases depth,
    {
        let ghost s = old(self).game.moves();
        let possible_moves = self.game.get_possible_moves();
        proof {
            lemma_legal_cols_props(s);
        }
        if depth == 1 {
            return possible_moves.len() as u64;
        }
        let ghost ll = legal_cols(s);
        let mut nodes: u64 = 0;
        let mut j: usize = 0;
        proof {
            assert(ll.skip(0) =~= ll);
            lemma_perft_bounds(s, depth as int);
        }
        while j < possible_moves.len()
            invariant
                self.game.wf(),
                self.game.moves() == s,
                self.game.table() == old(self).game.table(),
                self.cache() == old(self).cache(),
                2 <= depth <= 22,
                j <= possible_moves.len(),
                vec_cols(possible_moves@) == ll,
                ll == legal_cols(s),
                nodes as int + perft_sum(s, ll.skip(j as int), depth as int) == perft_of(
                    s,
                    depth as int,
                ),
                nodes as int <= perft_of(s, depth as int),
            decreases possible_moves.len() - j,
        {
            let m = possible_moves[j];
            proof {
                lemma_legal_cols_props(s);
                assert(vec_cols(possible_moves@)[j as int] == m as int);
                assert(ll.contains(m as int));
            }
            self.game.make_push(m);
            let sub = self.run(depth - 1);
            self.game.unmake_push();
            proof {
                assert(self.game.moves() =~= s);
                let rest = ll.skip(j as int);
                assert(rest[0] == ll[j as int]);
                assert(rest.drop_first() =~= ll.skip(j as int + 1));
                lemma_perft_sum_bounds(s, ll.skip(j as int + 1), depth as int);
                lemma_perft_bounds(s, depth as int);
                lemma_pow7_mono(depth as int, 22);
                lemma_pow7_22();
            }
            nodes = nodes + sub;
            j = j + 1;
        }
        proof {
            assert(ll.skip(possible_moves@.len() as int) =~= Seq::<int>::empty());
        }
        nodes
    }

    /// The memoized counterpart of [`Self::run`]: answers from the cache when
    /// the (position key, depth) pair was seen, and otherwise counts as `run`
    /// does and records the result.
    pub fn run_tt(&mut self, depth: i32) -> (r: u64)
        requires
            old(self).game.wf(),
            1 <= depth <= 22,
        ensures
            final(self).game.wf(),
            final(self).game.moves() == old(self).game.moves(),
            final(self).game.table() == old(self).game.table(),
            ({
                let k = tt_key(
                    key_of(old(self).game.moves(), old(self).game.table()),
                    depth as int,
                );
                if old(self).cache().contains_key(k) {
                    r == old(self).cache()[k] && final(self).cache() == old(self).cache()
                } else {
                    r as int == perft_of(old(self).game.moves(), depth as int)
                        && final(self).cache() == old(self).cache().insert(k, r)
                }
            }),
    {
        let ghost s = old(self).game.moves();
        let ghost key = tt_key(key_of(s, old(self).game.table()), depth as int);
        let k: u128 = (self.game.zobrist_key as u128) * 0x100000000u128 + (depth as u128);
        proof {
            assert(k == key);
        }
        match self.tt.get(&k) {
            Some(cached) => {
                return *cached;
            },
            None => {},
        }
        let possible_moves = self.game.get_possible_moves();
        proof {
            lemma_legal_cols_props(s);
        }
        if depth == 1 {
            let count: u64 = possible_moves.len() as u64;
            self.tt.insert(k, count);
            return count;
        }
        let ghost ll = legal_cols(s);
        let mut nodes: u64 = 0;
        let mut j: usize = 0;
        proof {
            assert(ll.skip(0) =~= ll);
            lemma_perft_bounds(s, depth as int);
        }
        while j < possible_moves.len()
            invariant
                self.game.wf(),
                self.game.moves() == s,
                self.game.table() == old(self).game.table(),
                self.cache() == old(self).cache(),
                !old(self).cache().contains_key(key),
                key == tt_key(key_of(s, old(self).game.table()), depth as int),
                k == key,
                2 <= depth <= 22,
                j <= possible_moves.len(),
                vec_cols(possible_moves@) == ll,
                ll == legal_cols(s),
                nodes as int + perft_sum(s, ll.skip(j as int), depth as int) == perft_of(
                    s,
                    depth as int,
                ),
                nodes as int <= perft_of(s, depth as int),
            decreases possible_moves.len() - j,
        {
            let m = possible_moves[j];
            proof {
                lemma_legal_cols_props(s);
                assert(vec_cols(possible_moves@)[j as int] == m as int);
                assert(ll.contains(m as int));
            }
            self.game.make_push(m);
            let sub = self.run(depth - 1);
            self.game.unmake_push();
            proof {
                assert(self.game.moves() =~= s);
                let rest = ll.skip(j as int);
                assert(rest[0] == ll[j as int]);
                assert(rest.drop_first() =~= ll.skip(j as int + 1));
                lemma_perft_sum_bounds(s, ll.skip(j as int + 1), depth as int);
                lemma_perft_bounds(s, depth as int);
                lemma_pow7_mono(depth as int, 22);
                lemma_pow7_22();
            }
            nodes = nodes + sub;
            j = j + 1;
        }
        proof {
            assert(ll.skip(possible_moves@.len() as int) =~= Seq::<int>::empty());
        }
        self.tt.insert(k, nodes);
        nodes
    }

    /// Clears both the cache and the position, keeping the hash table.
    pub fn reset(&mut self)
        requires
            old(self).game.zobrist.wf(),
        ensures
            final(self).game.wf(),
            final(self).game.moves() == Seq::<int>::empty(),
            final(self).game.table() == old(self).game.table(),
            final(self).cache() == Map::<u128, u64>::empty(),
    {
        self.tt.clear();
        self.game.reset();
    }
}

/// Round trip: undoing a just-pushed move restores every component of the
/// game state exactly — occupancy, colour-parity bitset, heights, history,
/// position key, turn and winner.  `g1` is `g0` after pushing the move `c`
/// and `g2` is `g1` after one undo, as the contracts of
/// [`Game::make_push`] and [`Game::unmake_push`] describe them.
pub proof fn lemma_push_undo_round_trip(g0: Game, g1: Game, g2: Game, c: int)
    requires
        g0.wf(),
        g1.wf(),
        g2.wf(),
        g1.table() == g0.table(),
        g2.table() == g1.table(),
        g1.moves() == g0.moves().push(c),
        g2.moves() == g1.moves().drop_last(),
    ensures
        g2.board.bitboard == g0.board.bitboard,
        g2.board.color_bitboard == g0.board.color_bitboard,
        g2.board.heights@ == g0.board.heights@,
        g2.board.history@ == g0.board.history@,
        g2.turn_color == g0.turn_color,
        g2.winner == g0.winner,
        g2.zobrist_key == g0.zobrist_key,
{
    assert(g2.moves() =~= g0.moves());
    assert(g2.board.heights@ =~= g0.board.heights@);
}

/// Hash self-consistency: the position key is a function of the move
/// sequence and the constant table alone, so replaying one move sequence
/// always reproduces one key, and no drift can accumulate over push/undo
/// cycles.
pub proof fn lemma_key_replay(g1: Game, g2: Game)
    requires
        g1.wf(),
        g2.wf(),
        g1.moves() == g2.moves(),
        g1.table() == g2.table(),
    ensures
        g1.zobrist_key == g2.zobrist_key,
{
}

} // verus!
