//! The full-width minimax reference for the search: the unpruned negamax
//! value of a position, and the table-soundness invariant under which the
//! alpha-beta search with its transposition table provably returns exactly
//! that value.

use vstd::prelude::*;
use crate::api::search::{NodeType, TTEntry};
use crate::api::model::{
    col_ok, count_col, cpar_of, eval_of, key_of, legal_cols, legal_desc, lemma_eval_of_bounds,
    lemma_legal_cols_props, lemma_occ_structure, lemma_push_state, lemma_wf_count_le, occ_of,
    red_of, wf_cols, winner_of, yel_of,
};

verus! {

/// Negation with the saturation the engine uses: exact everywhere except at
/// the minimum of `i32`, which negates to the maximum.
pub open spec fn sat_neg_spec(x: int) -> int {
    if x == i32::MIN as int {
        i32::MAX as int
    } else {
        -x
    }
}

/// The perspective sign of the side to move after the moves `s`: +1 when red
/// is to move, -1 for yellow.
pub open spec fn sign_of(s: Seq<int>) -> int {
    if s.len() % 2 == 0 {
        1int
    } else {
        -1int
    }
}

/// The unpruned, full-width negamax value of the position `s` explored to
/// `d`, from the perspective `color`: the signed heuristic score at depth 0
/// or once a winner is recorded, and otherwise the maximum over every legal
/// move of the saturating negation of the child's value.
pub open spec fn nega_ref(s: Seq<int>, d: int, color: int) -> int
    decreases d, legal_cols(s).len() + 1,
{
    if d <= 0 || winner_of(s) is Some {
        color * eval_of(s)
    } else {
        nega_children(s, legal_cols(s), d, color)
    }
}

/// The running maximum, over the moves `list`, of the saturating negation of
/// the child's value; `i32::MIN` when no move remains.
pub open spec fn nega_children(s: Seq<int>, list: Seq<int>, d: int, color: int) -> int
    decreases d, list.len(),
{
    if list.len() == 0 || d <= 0 {
        i32::MIN as int
    } else {
        let first = sat_neg_spec(nega_ref(s.push(list[0]), d - 1, -color));
        let rest = nega_children(s, list.drop_first(), d, color);
        if first >= rest {
            first
        } else {
            rest
        }
    }
}

/// What one searched move is worth to the mover: the saturating negation of
/// the child position's value.
pub open spec fn child_val(s: Seq<int>, m: int, d: int, color: int) -> int {
    sat_neg_spec(nega_ref(s.push(m), d - 1, -color))
}

/// The value `think` ranks the move `m` by: the search value of the position
/// after `m`, negated back to the mover's perspective.
pub open spec fn think_score(s: Seq<int>, m: int, d: int) -> int {
    sat_neg_spec(nega_ref(s.push(m), d, sign_of(s.push(m))))
}

/// A sane alpha-beta window, as every window reached from an unbounded root
/// window is: open, and touching the minimum only together with an unbounded
/// upper end.
pub open spec fn win_ok(alpha: int, beta: int) -> bool {
    &&& alpha < beta
    &&& ((i32::MIN as int) < alpha || beta == i32::MAX as int)
}

/// How a finished search is recorded: a score at most the entry alpha is an
/// upper bound (fail-low), one at least beta a lower bound (fail-high), and
/// anything between is exact.
pub open spec fn classify(best: int, alpha: int, beta: int) -> NodeType {
    if best <= alpha {
        NodeType::UpperBound
    } else if best >= beta {
        NodeType::LowerBound
    } else {
        NodeType::Exact
    }
}

/// What the transposition-table probe answers: the stored score when an
/// entry of sufficient depth licenses a cutoff for the window, and nothing
/// otherwise.
pub open spec fn probe_result(
    tt: Map<u64, TTEntry>,
    k: u64,
    depth: int,
    alpha: int,
    beta: int,
) -> Option<i32> {
    if tt.contains_key(k) && tt[k].depth >= depth {
        match tt[k].flag {
            NodeType::Exact => Some(tt[k].value),
            NodeType::LowerBound => if tt[k].value >= beta {
                Some(tt[k].value)
            } else {
                None::<i32>
            },
            NodeType::UpperBound => if tt[k].value <= alpha {
                Some(tt[k].value)
            } else {
                None::<i32>
            },
            NodeType::Unset => None::<i32>,
        }
    } else {
        None::<i32>
    }
}

/// Two histories reach the same position: each colour holds the same squares.
pub open spec fn pos_eq(s1: Seq<int>, s2: Seq<int>) -> bool {
    red_of(s1) == red_of(s2) && yel_of(s1) == yel_of(s2)
}

/// A collision-free constant table: equal position keys only ever arise from
/// equal positions.  Transpositions of one position always share a key; this
/// says no two distinct positions do.  It is the hypothesis under which the
/// cached search is exact: a colliding table (the all-zero table is an
/// extreme case) can make a transposition probe answer for a different
/// position, which the engine accepts as a risk and never detects.
pub open spec fn table_injective(table: Seq<u64>) -> bool {
    forall|s1: Seq<int>, s2: Seq<int>|
        #![trigger key_of(s1, table), key_of(s2, table)]
        wf_cols(s1) && wf_cols(s2) && key_of(s1, table) == key_of(s2, table) ==> pos_eq(s1, s2)
}

/// A sound transposition-table entry for key `k`: for every history with
/// that key it records the depth the search frontier has there (`dd` is the
/// constant depth-plus-moves sum of one search), and its score is exact, a
/// lower bound or an upper bound on the reference value as its kind claims.
pub open spec fn entry_ok(e: TTEntry, k: u64, table: Seq<u64>, dd: int) -> bool {
    forall|s: Seq<int>|
        wf_cols(s) && #[trigger] key_of(s, table) == k ==> {
            &&& e.depth == dd - s.len()
            &&& match e.flag {
                NodeType::Exact => e.value == nega_ref(s, e.depth as int, sign_of(s)),
                NodeType::LowerBound => nega_ref(s, e.depth as int, sign_of(s)) >= e.value,
                NodeType::UpperBound => nega_ref(s, e.depth as int, sign_of(s)) <= e.value,
                NodeType::Unset => false,
            }
        }
}

/// A sound transposition table: every entry is sound for its key.
pub open spec fn tt_ok(tt: Map<u64, TTEntry>, table: Seq<u64>, dd: int) -> bool {
    forall|k: u64| #[trigger] tt.contains_key(k) ==> entry_ok(tt[k], k, table, dd)
}

// ---------------------------------------------------------------------------
// Bounds
// ---------------------------------------------------------------------------

/// The reference value of any position fits in `i32`.
pub proof fn lemma_nega_ref_bounds(s: Seq<int>, d: int, color: int)
    requires
        color == 1 || color == -1,
    ensures
        i32::MIN <= nega_ref(s, d, color) <= i32::MAX,
    decreases d, legal_cols(s).len() + 1,
{
    if d <= 0 || winner_of(s) is Some {
        lemma_eval_of_bounds(s);
    } else {
        lemma_nega_children_bounds(s, legal_cols(s), d, color);
    }
}

/// A children maximum fits in `i32`.
pub proof fn lemma_nega_children_bounds(s: Seq<int>, list: Seq<int>, d: int, color: int)
    requires
        color == 1 || color == -1,
    ensures
        i32::MIN <= nega_children(s, list, d, color) <= i32::MAX,
    decreases d, list.len(),
{
    if list.len() == 0 || d <= 0 {
    } else {
        lemma_nega_ref_bounds(s.push(list[0]), d - 1, -color);
        lemma_nega_children_bounds(s, list.drop_first(), d, color);
    }
}

/// The children maximum dominates every listed move's value.
pub proof fn lemma_children_ge(s: Seq<int>, list: Seq<int>, d: int, color: int, i: int)
    requires
        d >= 1,
        0 <= i < list.len(),
    ensures
        nega_children(s, list, d, color) >= child_val(s, list[i], d, color),
    decreases list.len(),
{
    if i == 0 {
    } else {
        lemma_children_ge(s, list.drop_first(), d, color, i - 1);
        assert(list.drop_first()[i - 1] == list[i]);
    }
}

/// A bound on every listed move's value bounds the children maximum.
pub proof fn lemma_children_le(s: Seq<int>, list: Seq<int>, d: int, color: int, x: int)
    requires
        d >= 1,
        x >= i32::MIN as int,
        forall|i: int| 0 <= i < list.len() ==> child_val(s, #[trigger] list[i], d, color) <= x,
    ensures
        nega_children(s, list, d, color) <= x,
    decreases list.len(),
{
    if list.len() == 0 {
    } else {
        assert forall|i: int| 0 <= i < list.drop_first().len() implies child_val(
            s,
            #[trigger] list.drop_first()[i],
            d,
            color,
        ) <= x by {
            assert(list.drop_first()[i] == list[i + 1]);
        }
        lemma_children_le(s, list.drop_first(), d, color, x);
        assert(child_val(s, list[0], d, color) <= x);
    }
}

/// Appending a move flips the perspective sign.
pub proof fn lemma_sign_push(s: Seq<int>, m: int)
    ensures
        sign_of(s.push(m)) == -sign_of(s),
{
    if s.len() % 2 == 0 {
        assert((s.len() + 1) % 2 == 1) by (nonlinear_arith)
            requires
                s.len() % 2 == 0,
        ;
    } else {
        assert((s.len() + 1) % 2 == 0) by (nonlinear_arith)
            requires
                s.len() % 2 == 1,
        ;
    }
}

/// What one searched child tells the parent: translating the child's
/// window-relative answer `rc` about its true value `tc` through the
/// saturating negation, the move is scored exactly, or proves the parent at
/// least `beta` (a coming cutoff), or is dominated by the running alpha.
pub proof fn lemma_child_case(rc: int, tc: int, alpha_cur: int, beta: int)
    requires
        i32::MIN as int <= alpha_cur < beta <= i32::MAX as int,
        (i32::MIN as int) < alpha_cur || beta == i32::MAX as int,
        i32::MIN as int <= rc <= i32::MAX as int,
        i32::MIN as int <= tc <= i32::MAX as int,
        sat_neg_spec(beta) < rc < sat_neg_spec(alpha_cur) ==> rc == tc,
        rc <= sat_neg_spec(beta) ==> tc <= rc,
        rc >= sat_neg_spec(alpha_cur) ==> tc >= rc,
    ensures
        sat_neg_spec(rc) == sat_neg_spec(tc) || (sat_neg_spec(rc) >= beta && sat_neg_spec(tc)
            >= sat_neg_spec(rc)) || ((i32::MIN as int) < alpha_cur && sat_neg_spec(rc) <= alpha_cur
            && sat_neg_spec(tc) <= sat_neg_spec(rc)),
{
    if rc <= sat_neg_spec(beta) {
        assert(tc <= rc);
        assert(sat_neg_spec(rc) >= beta);
        assert(sat_neg_spec(tc) >= sat_neg_spec(rc));
    } else if rc >= sat_neg_spec(alpha_cur) {
        assert(tc >= rc);
        if alpha_cur == i32::MIN as int {
            assert(rc == i32::MAX as int && tc == i32::MAX as int);
        } else {
            assert(sat_neg_spec(rc) <= alpha_cur);
            assert(sat_neg_spec(tc) <= sat_neg_spec(rc));
        }
    } else {
        assert(rc == tc);
    }
}

// ---------------------------------------------------------------------------
// Position equivalence
// ---------------------------------------------------------------------------

/// XOR identities used to recover the occupancy and the pushed boards.
proof fn lemma_xor_mix(a: u64, b: u64, c: u64)
    by (bit_vector)
    ensures
        a ^ (a ^ b) == b,
        (a ^ b) ^ a == b,
        (a ^ b) ^ (b ^ c) == a ^ c,
{
}

/// The two colour boards together are the occupancy.
proof fn lemma_red_xor_yel(s: Seq<int>)
    ensures
        red_of(s) ^ yel_of(s) == occ_of(s),
{
    lemma_xor_mix(cpar_of(s), occ_of(s), 0);
}

/// The number of moves is the sum of the column counts.
proof fn lemma_len_is_sum(s: Seq<int>)
    requires
        wf_cols(s),
    ensures
        s.len() == count_col(s, 0) + count_col(s, 1) + count_col(s, 2) + count_col(s, 3)
            + count_col(s, 4) + count_col(s, 5) + count_col(s, 6),
    decreases s.len(),
{
    if s.len() > 0 {
        lemma_len_is_sum(s.drop_last());
    }
}

/// Everything the engine computes from a history is determined by the
/// position it reaches: occupancy, length, counts, parity board, winner,
/// perspective sign, heuristic score and legal moves.
pub proof fn lemma_pos_eq_core(s1: Seq<int>, s2: Seq<int>)
    requires
        wf_cols(s1),
        wf_cols(s2),
        pos_eq(s1, s2),
    ensures
        occ_of(s1) == occ_of(s2),
        s1.len() == s2.len(),
        forall|c: int| col_ok(c) ==> #[trigger] count_col(s1, c) == count_col(s2, c),
        cpar_of(s1) == cpar_of(s2),
        winner_of(s1) == winner_of(s2),
        sign_of(s1) == sign_of(s2),
        eval_of(s1) == eval_of(s2),
        legal_cols(s1) == legal_cols(s2),
{
    lemma_red_xor_yel(s1);
    lemma_red_xor_yel(s2);
    assert(occ_of(s1) == occ_of(s2));
    lemma_occ_structure(s1);
    lemma_occ_structure(s2);
    assert forall|c: int| col_ok(c) implies #[trigger] count_col(s1, c) == count_col(s2, c) by {
        lemma_wf_count_le(s1, c);
        lemma_wf_count_le(s2, c);
        crate::api::model::lemma_count_col_bounds(s1, c);
        crate::api::model::lemma_count_col_bounds(s2, c);
        if count_col(s1, c) < count_col(s2, c) {
            assert(crate::api::model::cell(occ_of(s2), c, count_col(s1, c)));
            assert(!crate::api::model::cell(occ_of(s1), c, count_col(s1, c)));
        }
        if count_col(s2, c) < count_col(s1, c) {
            assert(crate::api::model::cell(occ_of(s1), c, count_col(s2, c)));
            assert(!crate::api::model::cell(occ_of(s2), c, count_col(s2, c)));
        }
    }
    lemma_len_is_sum(s1);
    lemma_len_is_sum(s2);
    assert(s1.len() == s2.len());
    if s1.len() % 2 == 0 {
        assert(cpar_of(s1) == red_of(s1));
        assert(cpar_of(s2) == red_of(s2));
    } else {
        assert(cpar_of(s1) == yel_of(s1));
        assert(cpar_of(s2) == yel_of(s2));
    }
    lemma_legal_desc_eq(s1, s2, 6);
}

/// Equal column counts give equal non-full-column lists.
proof fn lemma_legal_desc_eq(s1: Seq<int>, s2: Seq<int>, c: int)
    requires
        forall|d: int| col_ok(d) ==> #[trigger] count_col(s1, d) == count_col(s2, d),
        c <= 6,
    ensures
        legal_desc(s1, c) == legal_desc(s2, c),
    decreases c + 1,
{
    if c >= 0 {
        lemma_legal_desc_eq(s1, s2, c - 1);
    }
}

/// Pushing the same legal move on two histories of one position reaches one
/// position again.
pub proof fn lemma_pos_eq_push(s1: Seq<int>, s2: Seq<int>, m: int)
    requires
        wf_cols(s1),
        wf_cols(s2),
        pos_eq(s1, s2),
        col_ok(m),
        count_col(s1, m) < 6,
        winner_of(s1) is None,
    ensures
        pos_eq(s1.push(m), s2.push(m)),
        wf_cols(s1.push(m)),
        wf_cols(s2.push(m)),
        s1.push(m).len() == s2.push(m).len(),
{
    lemma_pos_eq_core(s1, s2);
    lemma_push_state(s1, m);
    lemma_push_state(s2, m);
    let bit = crate::api::model::sq_bit(m, count_col(s1, m));
    lemma_xor_mix(cpar_of(s1), occ_of(s1), bit);
    lemma_xor_mix(cpar_of(s2), occ_of(s2), bit);
    if s1.len() % 2 == 0 {
        assert(red_of(s1.push(m)) == (cpar_of(s1) ^ occ_of(s1)) ^ (occ_of(s1) ^ bit));
        assert(red_of(s2.push(m)) == (cpar_of(s2) ^ occ_of(s2)) ^ (occ_of(s2) ^ bit));
        assert(yel_of(s1.push(m)) == cpar_of(s1) ^ occ_of(s1));
        assert(yel_of(s2.push(m)) == cpar_of(s2) ^ occ_of(s2));
    } else {
        assert(yel_of(s1.push(m)) == (cpar_of(s1) ^ occ_of(s1)) ^ (occ_of(s1) ^ bit));
        assert(yel_of(s2.push(m)) == (cpar_of(s2) ^ occ_of(s2)) ^ (occ_of(s2) ^ bit));
        assert(red_of(s1.push(m)) == cpar_of(s1) ^ occ_of(s1));
        assert(red_of(s2.push(m)) == cpar_of(s2) ^ occ_of(s2));
    }
}

/// The reference value is a function of the position alone.
pub proof fn lemma_nega_ref_pos_eq(s1: Seq<int>, s2: Seq<int>, d: int, color: int)
    requires
        wf_cols(s1),
        wf_cols(s2),
        pos_eq(s1, s2),
    ensures
        nega_ref(s1, d, color) == nega_ref(s2, d, color),
    decreases d, legal_cols(s1).len() + 1,
{
    lemma_pos_eq_core(s1, s2);
    if d <= 0 || winner_of(s1) is Some {
    } else {
        lemma_legal_cols_props(s1);
        assert forall|i: int| 0 <= i < legal_cols(s1).len() implies col_ok(
            #[trigger] legal_cols(s1)[i],
        ) && count_col(s1, legal_cols(s1)[i]) < 6 by {
            assert(legal_cols(s1).contains(legal_cols(s1)[i]));
        }
        lemma_nega_children_pos_eq(s1, s2, legal_cols(s1), d, color);
    }
}

/// The children maximum is a function of the position alone.
proof fn lemma_nega_children_pos_eq(s1: Seq<int>, s2: Seq<int>, list: Seq<int>, d: int, color: int)
    requires
        wf_cols(s1),
        wf_cols(s2),
        pos_eq(s1, s2),
        winner_of(s1) is None,
        forall|i: int|
            0 <= i < list.len() ==> col_ok(#[trigger] list[i]) && count_col(s1, list[i]) < 6,
    ensures
        nega_children(s1, list, d, color) == nega_children(s2, list, d, color),
    decreases d, list.len(),
{
    if list.len() == 0 || d <= 0 {
    } else {
        lemma_pos_eq_push(s1, s2, list[0]);
        lemma_nega_ref_pos_eq(s1.push(list[0]), s2.push(list[0]), d - 1, -color);
        assert forall|i: int|
            0 <= i < list.drop_first().len() implies col_ok(#[trigger] list.drop_first()[i])
            && count_col(s1, list.drop_first()[i]) < 6 by {
            assert(list.drop_first()[i] == list[i + 1]);
        }
        lemma_nega_children_pos_eq(s1, s2, list.drop_first(), d, color);
    }
}

} // verus!
