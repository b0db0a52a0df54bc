//! The heuristic evaluator and the negamax/alpha-beta search with its
//! transposition table.

use std::collections::HashMap;
use vstd::prelude::*;
use crate::api::engine::{Board, Game};
use crate::api::minimax::{
    child_val, classify, entry_ok, lemma_child_case, lemma_children_ge, lemma_children_le,
    lemma_nega_ref_bounds, lemma_nega_ref_pos_eq, lemma_pos_eq_core, lemma_sign_push, nega_ref,
    pos_eq, probe_result, sat_neg_spec, sign_of, table_injective, think_score, tt_ok, win_ok,
};
use crate::api::model::{
    center_count, count_col, eval_of, eval_windows, key_of, legal_cols, lemma_eval_of_bounds,
    lemma_eval_windows_bounds, lemma_hist_len, lemma_legal_cols_props, lemma_window_in_range,
    lemma_wscore_bounds, red_of, vec_cols, wcount, win_base, win_step, winner_of, wscore, yel_of,
};

verus! {

broadcast use vstd::std_specs::hash::group_hash_axioms;

/// The kind of bound a transposition-table entry records.
#[derive(Clone, Copy, Debug)]
pub enum NodeType {
    Exact,
    LowerBound,
    UpperBound,
    Unset,
}

/// One transposition-table entry: a score for a position, valid to `depth`,
/// qualified by the kind of bound it is.
pub struct TTEntry {
    pub flag: NodeType,
    pub depth: i32,
    pub value: i32,
}

impl TTEntry {
    /// A fresh, unset entry.
    pub fn new() -> (r: Self)
        ensures
            r.flag is Unset,
            r.depth == 0,
            r.value == 0,
    {
        TTEntry { flag: NodeType::Unset, depth: 0, value: 0 }
    }
}

/// The pure heuristic scoring function over a board snapshot.
pub struct Evaluation;

impl Evaluation {
    /// The score of window number `win`, whose cells start at square `base`
    /// and are `step` apart: blocked windows score 0, single-colour windows
    /// score by occupancy count, positive for red.
    fn evaluate_window(red: u64, yel: u64, base: usize, step: usize, win: Ghost<int>) -> (r: i32)
        requires
            0 <= win@ < 69,
            base as int == win_base(win@),
            step as int == win_step(win@),
        ensures
            r as int == wscore(red, yel, win@),
    {
        proof {
            lemma_window_in_range(win@);
        }
        let mut rc: i32 = 0;
        let mut yc: i32 = 0;
        let k0: u64 = base as u64;
        let k1: u64 = (base + step) as u64;
        let k2: u64 = (base + 2 * step) as u64;
        let k3: u64 = (base + 3 * step) as u64;
        if (red >> k0) & 1 == 1 {
            rc = rc + 1;
        }
        if (red >> k1) & 1 == 1 {
            rc = rc + 1;
        }
        if (red >> k2) & 1 == 1 {
            rc = rc + 1;
        }
        if (red >> k3) & 1 == 1 {
            rc = rc + 1;
        }
        if (yel >> k0) & 1 == 1 {
            yc = yc + 1;
        }
        if (yel >> k1) & 1 == 1 {
            yc = yc + 1;
        }
        if (yel >> k2) & 1 == 1 {
            yc = yc + 1;
        }
        if (yel >> k3) & 1 == 1 {
            yc = yc + 1;
        }
        proof {
            assert(rc as int == wcount(red, win@));
            assert(yc as int == wcount(yel, win@));
        }
        if rc > 0 && yc > 0 {
            0
        } else if rc == 4 {
            100000
        } else if rc == 3 {
            100
        } else if rc == 2 {
            10
        } else if rc == 1 {
            1
        } else if yc == 4 {
            -100000
        } else if yc == 3 {
            -100
        } else if yc == 2 {
            -10
        } else if yc == 1 {
            -1
        } else {
            0
        }
    }

    /// The sum of the scores of all 69 length-4 windows of the board.
    fn evaluation_window(red: u64, yel: u64) -> (r: i32)
        ensures
            r as int == eval_windows(red, yel, 69),
    {
        let mut score: i32 = 0;
        let mut i: usize = 0;
        while i < 69
            invariant
                i <= 69,
                score as int == eval_windows(red, yel, i as int),
                -100000 * i <= (score as int) <= 100000 * i,
            decreases 69 - i,
        {
            let base: usize = if i < 24 {
                7 * (i / 4) + i % 4
            } else if i < 45 {
                7 * ((i - 24) % 3) + (i - 24) / 3
            } else if i < 57 {
                7 * ((i - 45) / 4) + (i - 45) % 4
            } else {
                7 * ((i - 57) / 4) + (i - 57) % 4 + 3
            };
            let step: usize = if i < 24 {
                1
            } else if i < 45 {
                7
            } else if i < 57 {
                8
            } else {
                6
            };
            let w = Self::evaluate_window(red, yel, base, step, Ghost(i as int));
            proof {
                lemma_wscore_bounds(red, yel, i as int);
            }
            score = score + w;
            i = i + 1;
        }
        score
    }

    /// The heuristic score of the board: the window sum plus three points per
    /// colour-parity token in the centre file.
    pub fn evaluate(board: &Board) -> (r: i32)
        requires
            board.wf(),
        ensures
            r as int == eval_of(board.moves()),
    {
        proof {
            lemma_hist_len(board.moves());
        }
        let (red, yellow): (u64, u64) = if board.history.len() % 2 == 0 {
            (board.color_bitboard, board.color_bitboard ^ board.bitboard)
        } else {
            (board.color_bitboard ^ board.bitboard, board.color_bitboard)
        };
        proof {
            assert(red == red_of(board.moves()));
            assert(yellow == yel_of(board.moves()));
            lemma_eval_windows_bounds(red, yellow, 69);
        }
        let score = Self::evaluation_window(red, yellow);

        let mut center_pieces: i32 = 0;
        let mut rr: usize = 0;
        while rr < 6
            invariant
                rr <= 6,
                center_pieces as int == center_count(board.color_bitboard, rr as int),
                0 <= center_pieces <= rr,
            decreases 6 - rr,
        {
            let k: u64 = (3 + 7 * rr) as u64;
            if (board.color_bitboard >> k) & 1 == 1 {
                center_pieces = center_pieces + 1;
            }
            rr = rr + 1;
        }
        score + center_pieces * 3
    }
}

/// Negation that saturates instead of wrapping at the extreme of `i32`.
fn saturating_neg(x: i32) -> (r: i32)
    ensures
        r as int == if x == i32::MIN {
            i32::MAX as int
        } else {
            -(x as int)
        },
{
    if x == i32::MIN {
        i32::MAX
    } else {
        -x
    }
}

/// The centre-out column order the search explores in: ties in the distance
/// from the centre file are broken as a stable sort of the descending
/// legal-move list breaks them.
spec fn center_order(k: int) -> int {
    if k == 0 {
        3int
    } else if k == 1 {
        4int
    } else if k == 2 {
        2int
    } else if k == 3 {
        5int
    } else if k == 4 {
        1int
    } else if k == 5 {
        6int
    } else {
        0int
    }
}

/// Appending a fresh element keeps a sequence duplicate-free.
proof fn lemma_push_keeps_distinct(v: Seq<i32>, x: i32)
    requires
        v.no_duplicates(),
        !v.contains(x),
    ensures
        v.push(x).no_duplicates(),
{
    let w = v.push(x);
    assert forall|i: int, j: int| 0 <= i < w.len() && 0 <= j < w.len() && i != j implies w[i]
        != w[j] by {
        if i < v.len() && j < v.len() {
        } else if i < v.len() {
            assert(v.contains(v[i]));
        } else {
            assert(v.contains(v[j]));
        }
    }
}

/// The legal moves ordered by ascending distance from the centre column: each
/// legal column exactly once, in the stable by-distance ordering of the
/// descending legal-move list.
fn ordered_moves(game: &Game) -> (r: Vec<i32>)
    requires
        game.wf(),
    ensures
        forall|j: int|
            0 <= j < r@.len() ==> legal_cols(game.moves()).contains((#[trigger] r@[j]) as int),
        forall|d: i32| #[trigger]
            r@.contains(d) <==> legal_cols(game.moves()).contains(d as int),
        r@.no_duplicates(),
{
    let ghost s = game.moves();
    let mut result: Vec<i32> = Vec::new();
    if game.winner.is_some() {
        proof {
            lemma_legal_cols_props(s);
        }
        return result;
    }
    let mut k: usize = 0;
    while k < 7
        invariant
            k <= 7,
            game.wf(),
            game.winner is None,
            s == game.moves(),
            result@.no_duplicates(),
            forall|d: i32| #[trigger]
                result@.contains(d) <==> (legal_cols(s).contains(d as int) && exists|kk: int|
                    0 <= kk < k && #[trigger] center_order(kk) == d as int),
        decreases 7 - k,
    {
        let col: i32 = match k {
            0 => 3,
            1 => 4,
            2 => 2,
            3 => 5,
            4 => 1,
            5 => 6,
            _ => 0,
        };
        proof {
            assert(col as int == center_order(k as int));
            lemma_legal_cols_props(s);
        }
        if game.board.heights[col as usize] < 6 {
            proof {
                assert(legal_cols(s).contains(col as int));
                assert(!result@.contains(col)) by {
                    if result@.contains(col) {
                        let kk = choose|kk: int|
                            0 <= kk < k && #[trigger] center_order(kk) == col as int;
                        assert(center_order(kk) == center_order(k as int));
                    }
                };
                lemma_push_keeps_distinct(result@, col);
                assert forall|d: i32| #[trigger]
                    result@.push(col).contains(d) <==> (legal_cols(s).contains(d as int) && exists|
                        kk: int,
                    | 0 <= kk < k + 1 && #[trigger] center_order(kk) == d as int) by {
                    vstd::seq_lib::lemma_seq_contains_after_push(result@, col, d);
                    if d == col {
                        assert(center_order(k as int) == d as int);
                    }
                }
            }
            result.push(col);
        } else {
            proof {
                assert(count_col(s, col as int) >= 6);
                assert(!legal_cols(s).contains(col as int));
                assert forall|d: i32| #[trigger]
                    result@.contains(d) <==> (legal_cols(s).contains(d as int) && exists|kk: int|
                        0 <= kk < k + 1 && #[trigger] center_order(kk) == d as int) by {
                    if legal_cols(s).contains(d as int) && exists|kk: int|
                        0 <= kk < k + 1 && #[trigger] center_order(kk) == d as int {
                        let kk = choose|kk: int|
                            0 <= kk < k + 1 && #[trigger] center_order(kk) == d as int;
                        if kk == k {
                            assert(d == col);
                        }
                    }
                }
            }
        }
        k = k + 1;
    }
    proof {
        lemma_legal_cols_props(s);
        assert forall|d: i32| legal_cols(s).contains(d as int) implies #[trigger] result@.contains(
            d,
        ) by {
            if d as int == 0 {
                assert(center_order(6) == 0);
            } else if d as int == 1 {
                assert(center_order(4) == 1);
            } else if d as int == 2 {
                assert(center_order(2) == 2);
            } else if d as int == 3 {
                assert(center_order(0) == 3);
            } else if d as int == 4 {
                assert(center_order(1) == 4);
            } else if d as int == 5 {
                assert(center_order(3) == 5);
            } else {
                assert(center_order(5) == 6);
            }
        }
        assert forall|j: int| 0 <= j < result@.len() implies legal_cols(s).contains(
            (#[trigger] result@[j]) as int,
        ) by {
            assert(result@.contains(result@[j]));
        }
    }
    result
}

/// The negamax move-selection engine with alpha-beta pruning and a
/// transposition table, exploring to a fixed depth.
pub struct Search {
    pub depth: i32,
    pub tt: HashMap<u64, TTEntry>,
}

impl Search {
    /// A search engine that explores to the given depth, with an empty table.
    pub fn new(depth: i32) -> (r: Self)
        ensures
            r.depth == depth,
            r.tt@ == Map::<u64, TTEntry>::empty(),
    {
        Search { depth, tt: HashMap::new() }
    }

    /// The transposition-table probe: answers the stored score when an entry
    /// of sufficient depth licenses a cutoff for the window, and nothing
    /// otherwise.
    fn probe(&self, key: u64, depth: i32, alpha: i32, beta: i32) -> (r: Option<i32>)
        ensures
            r == probe_result(self.tt@, key, depth as int, alpha as int, beta as int),
    {
        match self.tt.get(&key) {
            Some(tt_entry) => {
                if tt_entry.depth >= depth {
                    match tt_entry.flag {
                        NodeType::Exact => Some(tt_entry.value),
                        NodeType::LowerBound => if tt_entry.value >= beta {
                            Some(tt_entry.value)
                        } else {
                            None
                        },
                        NodeType::UpperBound => if tt_entry.value <= alpha {
                            Some(tt_entry.value)
                        } else {
                            None
                        },
                        NodeType::Unset => None,
                    }
                } else {
                    None
                }
            },
            None => None,
        }
    }

    /// Negamax with alpha-beta pruning over the transposition table: probes
    /// the table for a usable bound and returns it untouched on a hit; scores
    /// the position at depth 0 or a recorded win; and otherwise searches the
    /// ordered legal moves with negated, swapped bounds, storing the result
    /// under the position key with the requested depth, classified as exact,
    /// a lower bound (fail-high) or an upper bound (fail-low) against the
    /// entry window.  Every push is undone: the game is returned exactly as
    /// it was handed in.  Over a collision-free table and a sound cache the
    /// result brackets the full-width reference value `nega_ref`: exact
    /// inside the window, an upper bound on it at or below alpha, a lower
    /// bound at or above beta — so an unbounded window returns `nega_ref`
    /// itself, pruning and caching notwithstanding.
    pub fn negamax(&mut self, game: &mut Game, depth: i32, alpha: i32, beta: i32, color: i32) -> (r:
        i32)
        requires
            old(game).wf(),
            depth >= 0,
            color == 1 || color == -1,
        ensures
            final(game).wf(),
            final(game).moves() == old(game).moves(),
            final(game).table() == old(game).table(),
            final(self).depth == old(self).depth,
            ({
                let k = key_of(old(game).moves(), old(game).table());
                match probe_result(old(self).tt@, k, depth as int, alpha as int, beta as int) {
                    Some(v) => r == v && final(self).tt@ == old(self).tt@,
                    None => if depth == 0 || winner_of(old(game).moves()) is Some {
                        r as int == color * eval_of(old(game).moves()) && final(self).tt@ == old(
                            self,
                        ).tt@
                    } else {
                        final(self).tt@.contains_key(k) && final(self).tt@[k] == (TTEntry {
                            flag: classify(r as int, alpha as int, beta as int),
                            depth,
                            value: r,
                        })
                    },
                }
            }),
            ({
                let s = old(game).moves();
                let tbl = old(game).table();
                let dd = depth as int + s.len();
                (table_injective(tbl) && tt_ok(old(self).tt@, tbl, dd) && color as int == sign_of(s)
                    && win_ok(alpha as int, beta as int)) ==> {
                    &&& tt_ok(final(self).tt@, tbl, dd)
                    &&& (alpha < r < beta ==> r as int == nega_ref(s, depth as int, color as int))
                    &&& (r <= alpha ==> nega_ref(s, depth as int, color as int) <= r)
                    &&& (r >= beta ==> nega_ref(s, depth as int, color as int) >= r)
                }
            }),
            ({
                let s = old(game).moves();
                let tbl = old(game).table();
                (table_injective(tbl) && tt_ok(old(self).tt@, tbl, depth as int + s.len())
                    && color as int == sign_of(s) && alpha == i32::MIN && beta == i32::MAX) ==> r
                    as int == nega_ref(s, depth as int, color as int)
            }),
        decreases depth,
    {
        let ghost s = old(game).moves();
        let ghost tbl = old(game).table();
        let ghost kk = key_of(s, tbl);
        let ghost dd = depth as int + s.len();
        let ghost a0 = alpha as int;
        let ghost b0 = beta as int;
        let ghost cc = color as int;
        let ghost di = depth as int;
        let ghost vref = nega_ref(s, di, cc);
        let ghost hyp = table_injective(tbl) && tt_ok(old(self).tt@, tbl, dd) && cc == sign_of(s)
            && win_ok(a0, b0);

        let mut alpha = alpha;
        let alpha_orig = alpha;

        match self.probe(game.zobrist_key, depth, alpha, beta) {
            Some(v) => {
                proof {
                    if hyp {
                        lemma_nega_ref_bounds(s, di, cc);
                        let e = self.tt@[kk];
                        assert(entry_ok(e, kk, tbl, dd));
                        assert(key_of(s, tbl) == kk);
                        assert(e.depth as int == dd - s.len());
                        match e.flag {
                            NodeType::Exact => {
                                assert(v as int == vref);
                            },
                            NodeType::LowerBound => {
                                assert(vref >= v as int && v as int >= b0);
                            },
                            NodeType::UpperBound => {
                                assert(vref <= v as int && (v as int) <= a0);
                            },
                            NodeType::Unset => {},
                        }
                    }
                }
                return v;
            },
            None => {},
        }

        if depth == 0 || game.winner.is_some() {
            let e = Evaluation::evaluate(&game.board);
            proof {
                lemma_eval_of_bounds(game.moves());
            }
            return color * e;
        }

        let child_nodes = ordered_moves(game);
        let ghost cn = child_nodes@;
        let mut best_score: i32 = i32::MIN;
        let mut j: usize = 0;
        while j < child_nodes.len()
            invariant_except_break
                hyp ==> (alpha as int) < b0,
                hyp ==> (j == 0 ==> best_score == i32::MIN),
                hyp ==> (forall|i: int|
                    0 <= i < j ==> child_val(s, (#[trigger] cn[i]) as int, di, cc)
                        <= best_score as int),
                hyp ==> (best_score as int > a0 ==> exists|i: int|
                    0 <= i < j && child_val(s, (#[trigger] cn[i]) as int, di, cc)
                        == best_score as int),
            invariant
                game.wf(),
                game.moves() == s,
                game.table() == tbl,
                self.depth == old(self).depth,
                depth >= 1,
                color == 1 || color == -1,
                s == old(game).moves(),
                tbl == old(game).table(),
                kk == key_of(s, tbl),
                dd == depth as int + s.len(),
                a0 == alpha_orig as int,
                b0 == beta as int,
                cc == color as int,
                di == depth as int,
                vref == nega_ref(s, di, cc),
                winner_of(s) is None,
                (alpha_orig as int) <= alpha as int,
                cn == child_nodes@,
                j <= cn.len(),
                forall|jj: int|
                    0 <= jj < cn.len() ==> legal_cols(s).contains((#[trigger] cn[jj]) as int),
                forall|d2: i32| #[trigger] cn.contains(d2) <==> legal_cols(s).contains(d2 as int),
                hyp == (table_injective(tbl) && tt_ok(old(self).tt@, tbl, dd) && cc == sign_of(s)
                    && win_ok(a0, b0)),
                hyp ==> tt_ok(self.tt@, tbl, dd),
                hyp ==> alpha as int == (if best_score as int > a0 {
                    best_score as int
                } else {
                    a0
                }),
                hyp ==> (j > 0 ==> best_score as int > i32::MIN as int),
            ensures
                game.wf(),
                game.moves() == s,
                game.table() == tbl,
                self.depth == old(self).depth,
                hyp ==> tt_ok(self.tt@, tbl, dd),
                hyp ==> alpha as int == (if best_score as int > a0 {
                    best_score as int
                } else {
                    a0
                }),
                hyp ==> ({
                    ||| (best_score as int >= b0 && (exists|i: int|
                        0 <= i < cn.len() && child_val(s, (#[trigger] cn[i]) as int, di, cc)
                            >= best_score as int))
                    ||| ({
                        &&& (best_score as int) < b0
                        &&& j == cn.len()
                        &&& (forall|i: int|
                            0 <= i < cn.len() ==> child_val(s, (#[trigger] cn[i]) as int, di, cc)
                                <= best_score as int)
                        &&& (best_score as int > a0 ==> (exists|i: int|
                            0 <= i < cn.len() && child_val(s, (#[trigger] cn[i]) as int, di, cc)
                                == best_score as int))
                        &&& (cn.len() == 0 ==> best_score == i32::MIN)
                        &&& (cn.len() > 0 ==> best_score as int > i32::MIN as int)
                    })
                }),
            decreases child_nodes.len() - j,
        {
            let child = child_nodes[j];
            proof {
                lemma_legal_cols_props(s);
                assert(legal_cols(s).contains(cn[j as int] as int));
            }
            let ghost alpha_pre = alpha as int;
            let ghost best_pre = best_score as int;
            game.make_push(child);
            proof {
                if hyp {
                    lemma_sign_push(s, child as int);
                }
            }
            let sub = self.negamax(
                game,
                depth - 1,
                saturating_neg(beta),
                saturating_neg(alpha),
                -color,
            );
            let nsub = saturating_neg(sub);
            game.unmake_push();
            proof {
                assert(game.moves() =~= s);
                if hyp {
                    let tc = nega_ref(s.push(child as int), di - 1, -cc);
                    lemma_nega_ref_bounds(s.push(child as int), di - 1, -cc);
                    lemma_child_case(sub as int, tc, alpha_pre, b0);
                    assert(nsub as int == sat_neg_spec(sub as int));
                    assert(child_val(s, child as int, di, cc) == sat_neg_spec(tc));
                }
            }
            if nsub > best_score {
                best_score = nsub;
            }
            if best_score > alpha {
                alpha = best_score;
            }
            if alpha >= beta {
                proof {
                    if hyp {
                        assert(best_score as int >= b0);
                        assert(best_score == nsub);
                        assert(child_val(s, cn[j as int] as int, di, cc) >= best_score as int);
                    }
                }
                break;
            }
            proof {
                if hyp {
                    assert((best_score as int) < b0);
                    assert(child_val(s, cn[j as int] as int, di, cc) <= best_score as int);
                }
            }
            j = j + 1;
        }

        let mut tt_entry = TTEntry::new();
        if best_score <= alpha_orig {
            tt_entry.flag = NodeType::UpperBound;
        } else if best_score >= beta {
            tt_entry.flag = NodeType::LowerBound;
        } else {
            tt_entry.flag = NodeType::Exact;
        }
        tt_entry.depth = depth;
        tt_entry.value = best_score;
        proof {
            assert(tt_entry == (TTEntry {
                flag: classify(best_score as int, a0, b0),
                depth,
                value: best_score,
            }));
            if hyp {
                lemma_nega_ref_bounds(s, di, cc);
                lemma_legal_cols_props(s);
                let ll = legal_cols(s);
                let bi = best_score as int;
                if bi >= b0 {
                    let i = choose|i: int|
                        0 <= i < cn.len() && child_val(s, (#[trigger] cn[i]) as int, di, cc) >= bi;
                    let m = cn[i] as int;
                    assert(ll.contains(m));
                    let li = choose|li: int| 0 <= li < ll.len() && #[trigger] ll[li] == m;
                    lemma_children_ge(s, ll, di, cc, li);
                    assert(vref >= bi);
                } else {
                    assert forall|i: int| 0 <= i < ll.len() implies child_val(
                        s,
                        #[trigger] ll[i],
                        di,
                        cc,
                    ) <= bi by {
                        assert(ll.contains(ll[i]));
                        let d2: i32 = ll[i] as i32;
                        assert(d2 as int == ll[i]);
                        assert(cn.contains(d2));
                        let ci = choose|ci: int| 0 <= ci < cn.len() && #[trigger] cn[ci] == d2;
                        assert(child_val(s, cn[ci] as int, di, cc) <= bi);
                    }
                    lemma_children_le(s, ll, di, cc, bi);
                    assert(vref <= bi);
                    if bi > a0 {
                        let i = choose|i: int|
                            0 <= i < cn.len() && child_val(s, (#[trigger] cn[i]) as int, di, cc)
                                == bi;
                        let m = cn[i] as int;
                        assert(ll.contains(m));
                        let li = choose|li: int| 0 <= li < ll.len() && #[trigger] ll[li] == m;
                        lemma_children_ge(s, ll, di, cc, li);
                        assert(vref == bi);
                    }
                    if cn.len() == 0 {
                        if ll.len() > 0 {
                            assert(ll.contains(ll[0]));
                            let d2: i32 = ll[0] as i32;
                            assert(d2 as int == ll[0]);
                            assert(cn.contains(d2));
                        }
                        assert(ll.len() == 0);
                        assert(vref == i32::MIN as int);
                    }
                }
                assert forall|s2: Seq<int>|
                    crate::api::model::wf_cols(s2) && #[trigger] key_of(s2, tbl) == kk implies ({
                    &&& tt_entry.depth as int == dd - s2.len()
                    &&& match tt_entry.flag {
                        NodeType::Exact => tt_entry.value as int == nega_ref(
                            s2,
                            tt_entry.depth as int,
                            sign_of(s2),
                        ),
                        NodeType::LowerBound => nega_ref(s2, tt_entry.depth as int, sign_of(s2))
                            >= tt_entry.value as int,
                        NodeType::UpperBound => nega_ref(s2, tt_entry.depth as int, sign_of(s2))
                            <= tt_entry.value as int,
                        NodeType::Unset => false,
                    }
                }) by {
                    assert(key_of(s, tbl) == key_of(s2, tbl));
                    assert(pos_eq(s, s2));
                    lemma_pos_eq_core(s, s2);
                    lemma_nega_ref_pos_eq(s, s2, di, cc);
                }
                assert(entry_ok(tt_entry, kk, tbl, dd));
            }
        }
        let ghost tt_loop = self.tt@;
        self.tt.insert(game.zobrist_key, tt_entry);
        proof {
            if hyp {
                assert forall|k2: u64| #[trigger] self.tt@.contains_key(k2) implies entry_ok(
                    self.tt@[k2],
                    k2,
                    tbl,
                    dd,
                ) by {
                    if k2 != kk {
                        assert(tt_loop.contains_key(k2));
                        assert(self.tt@[k2] == tt_loop[k2]);
                    }
                }
            }
        }

        best_score
    }

    /// Picks the legal move whose negamax score from the mover's perspective
    /// is best, keeping the earliest such move in generation order; returns
    /// nothing exactly when no legal move remains.  The game is returned
    /// exactly as it was handed in.  Over a collision-free table and a fresh
    /// (empty) transposition table the chosen move provably maximizes the
    /// full-width reference score [`think_score`] over the legal moves.
    pub fn think(&mut self, game: &mut Game) -> (r: Option<i32>)
        requires
            old(game).wf(),
            old(self).depth >= 0,
        ensures
            final(game).wf(),
            final(game).moves() == old(game).moves(),
            final(game).table() == old(game).table(),
            match r {
                Some(m) => legal_cols(old(game).moves()).contains(m as int),
                None => legal_cols(old(game).moves()).len() == 0,
            },
            ({
                let s = old(game).moves();
                let ll = legal_cols(s);
                let dth = old(self).depth as int;
                (table_injective(old(game).table()) && old(self).tt@ == Map::<
                    u64,
                    TTEntry,
                >::empty() && ll.len() > 0) ==> match r {
                    Some(m) => exists|jj: int|
                        0 <= jj < ll.len() && #[trigger] ll[jj] == m as int && (forall|i: int|
                            0 <= i < ll.len() ==> think_score(s, #[trigger] ll[i], dth)
                                <= think_score(s, m as int, dth)) && (forall|i: int|
                            0 <= i < jj ==> think_score(s, #[trigger] ll[i], dth) < think_score(
                                s,
                                m as int,
                                dth,
                            )),
                    None => false,
                }
            }),
    {
        let ghost s = old(game).moves();
        let ghost tbl = old(game).table();
        let ghost ll = legal_cols(s);
        let ghost dth = old(self).depth as int;
        let ghost hyp = table_injective(tbl) && old(self).tt@ == Map::<u64, TTEntry>::empty();
        let all_moves = game.get_possible_moves();
        let ghost am = all_moves@;
        let mut best_move: Option<i32> = None;
        let mut best_score: i32 = i32::MIN;
        let mut j: usize = 0;
        while j < all_moves.len()
            invariant
                game.wf(),
                game.moves() == s,
                game.table() == tbl,
                self.depth == old(self).depth,
                old(self).depth >= 0,
                s == old(game).moves(),
                tbl == old(game).table(),
                ll == legal_cols(s),
                dth == old(self).depth as int,
                am == all_moves@,
                j <= am.len(),
                vec_cols(am) == ll,
                hyp == (table_injective(tbl) && old(self).tt@ == Map::<u64, TTEntry>::empty()),
                hyp ==> tt_ok(self.tt@, tbl, dth + s.len() + 1),
                j > 0 ==> best_move is Some,
                best_move is None ==> best_score == i32::MIN,
                match best_move {
                    Some(m) => legal_cols(s).contains(m as int),
                    None => true,
                },
                hyp ==> match best_move {
                    Some(bm) => exists|jj: int|
                        0 <= jj < j && #[trigger] am[jj] == bm && best_score as int == think_score(
                            s,
                            bm as int,
                            dth,
                        ) && (forall|i: int|
                            0 <= i < j ==> think_score(s, (#[trigger] am[i]) as int, dth)
                                <= best_score as int) && (forall|i: int|
                            0 <= i < jj ==> think_score(s, (#[trigger] am[i]) as int, dth)
                                < best_score as int),
                    None => j == 0,
                },
            decreases all_moves.len() - j,
        {
            let mv = all_moves[j];
            proof {
                assert(vec_cols(am)[j as int] == mv as int);
                assert(legal_cols(s).contains(mv as int));
                lemma_legal_cols_props(s);
                if hyp {
                    lemma_sign_push(s, mv as int);
                }
            }
            game.make_push(mv);
            let color = game.turn_color.to_int();
            proof {
                if hyp {
                    assert(color as int == sign_of(s.push(mv as int)));
                    assert(win_ok(i32::MIN as int, i32::MAX as int));
                    assert(self.depth as int + game.moves().len() == dth + s.len() + 1);
                }
            }
            let sc = self.negamax(game, self.depth, i32::MIN, i32::MAX, color);
            let move_score = saturating_neg(sc);
            game.unmake_push();
            proof {
                assert(game.moves() =~= s);
                if hyp {
                    let child = s.push(mv as int);
                    lemma_nega_ref_bounds(child, dth, sign_of(child));
                    assert(sc as int == nega_ref(child, dth, sign_of(child)));
                    assert(move_score as int == think_score(s, mv as int, dth));
                }
            }
            if move_score > best_score {
                best_move = Some(mv);
                best_score = move_score;
            }
            j = j + 1;
        }
        proof {
            if am.len() == 0 {
                assert(legal_cols(s).len() == 0);
            }
            if hyp && ll.len() > 0 {
                assert(am.len() == ll.len());
                assert(j == am.len() && j > 0);
                let bm = best_move.unwrap();
                let jj = choose|jj: int|
                    0 <= jj < j && #[trigger] am[jj] == bm && best_score as int == think_score(
                        s,
                        bm as int,
                        dth,
                    ) && (forall|i: int|
                        0 <= i < j ==> think_score(s, (#[trigger] am[i]) as int, dth)
                            <= best_score as int) && (forall|i: int|
                        0 <= i < jj ==> think_score(s, (#[trigger] am[i]) as int, dth)
                            < best_score as int);
                assert(ll[jj] == bm as int);
                assert forall|i: int| 0 <= i < ll.len() implies think_score(s, #[trigger] ll[i], dth)
                    <= think_score(s, bm as int, dth) by {
                    assert(ll[i] == am[i] as int);
                }
                assert forall|i: int| 0 <= i < jj implies think_score(s, #[trigger] ll[i], dth)
                    < think_score(s, bm as int, dth) by {
                    assert(ll[i] == am[i] as int);
                }
            }
        }
        best_move
    }
}

} // verus!
