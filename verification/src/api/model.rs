//! The mathematical model of the engine: every component of the game state
//! (occupancy, colour-parity board, heights, history, hash key, turn, winner)
//! is a function of the sequence of columns played so far.  The executable
//! code in `engine` and `search` is specified against these functions.

use vstd::prelude::*;
use crate::api::engine::Color;

verus! {

/// A column index is valid when it names one of the seven files.
pub open spec fn col_ok(c: int) -> bool {
    0 <= c < 7
}

/// How many tokens column `c` holds after the moves `s`.
pub open spec fn count_col(s: Seq<int>, c: int) -> int
    decreases s.len(),
{
    if s.len() == 0 {
        0
    } else {
        count_col(s.drop_last(), c) + if s.last() == c {
            1int
        } else {
            0int
        }
    }
}

/// The single-bit mask of the square in column `c`, row `r`
/// (row 0 is the bottom row; the square index is `c + 7 * r`).
pub open spec fn sq_bit(c: int, r: int) -> u64 {
    1u64 << ((c + 7 * r) as u64)
}

/// Whether bit `k` of `x` is set.
pub open spec fn bit_at(x: u64, k: u64) -> bool {
    (x >> k) & 1u64 == 1u64
}

/// Whether the square in column `c`, row `r` is set in the bitset `b`.
pub open spec fn cell(b: u64, c: int, r: int) -> bool {
    bit_at(b, (c + 7 * r) as u64)
}

/// The colour that makes move number `i` (moves are numbered from 0; red starts).
pub open spec fn move_color(i: int) -> Color {
    if i % 2 == 0 {
        Color::Red
    } else {
        Color::Yellow
    }
}

/// The colour to move after the moves `s`.
pub open spec fn turn_of(s: Seq<int>) -> Color {
    move_color(s.len() as int)
}

/// The occupancy bitset after the moves `s`: one bit per placed token.
pub open spec fn occ_of(s: Seq<int>) -> u64
    decreases s.len(),
{
    if s.len() == 0 {
        0u64
    } else {
        occ_of(s.drop_last()) ^ sq_bit(s.last(), count_col(s.drop_last(), s.last()))
    }
}

/// The colour-parity bitset after the moves `s`: the running XOR of the
/// occupancy taken before each push.  After an even number of moves it equals
/// red's board, after an odd number yellow's.
pub open spec fn cpar_of(s: Seq<int>) -> u64
    decreases s.len(),
{
    if s.len() == 0 {
        0u64
    } else {
        cpar_of(s.drop_last()) ^ occ_of(s.drop_last())
    }
}

/// Red's occupancy after the moves `s`, reconstructed from the parity trick.
pub open spec fn red_of(s: Seq<int>) -> u64 {
    if s.len() % 2 == 0 {
        cpar_of(s)
    } else {
        cpar_of(s) ^ occ_of(s)
    }
}

/// Yellow's occupancy after the moves `s`, reconstructed from the parity trick.
pub open spec fn yel_of(s: Seq<int>) -> u64 {
    if s.len() % 2 == 0 {
        cpar_of(s) ^ occ_of(s)
    } else {
        cpar_of(s)
    }
}

/// The board of the player who made the last of the moves `s`.
pub open spec fn last_board(s: Seq<int>) -> u64 {
    cpar_of(s) ^ occ_of(s)
}

/// The full-column bitmask of file `c` (bits `c`, `c+7`, ..., `c+35`).
pub open spec fn col_mask(c: int) -> u64 {
    0x810204081u64 << (c as u64)
}

/// The bit-parallel four-in-a-row test on one colour's bitset `b`:
/// one doubling family per direction, with the two outer files masked away
/// from the horizontal and diagonal shifts to prevent wraparound, and both
/// scan directions tested for those three families.
pub open spec fn wins(b: u64) -> bool {
    let na = !col_mask(0);
    let ng = !col_mask(6);
    let mv = b & (b >> 7u64);
    let h1 = b & (b >> 1u64) & na & ng;
    let h2 = b & (b << 1u64) & na & ng;
    let d1 = b & (b >> 8u64) & na & ng;
    let d2 = b & (b << 8u64) & na & ng;
    let e1 = b & (b >> 6u64) & na & ng;
    let e2 = b & (b << 6u64) & na & ng;
    ||| mv & (mv >> 14u64) != 0
    ||| h1 & (h1 >> 2u64) != 0
    ||| h2 & (h2 << 2u64) != 0
    ||| d1 & (d1 >> 16u64) != 0
    ||| d2 & (d2 << 16u64) != 0
    ||| e1 & (e1 >> 12u64) != 0
    ||| e2 & (e2 << 12u64) != 0
}

/// The recorded winner after the moves `s`: the colour of the last mover when
/// that move completed an alignment, and nothing otherwise.
pub open spec fn winner_of(s: Seq<int>) -> Option<Color> {
    if s.len() > 0 && wins(last_board(s)) {
        Some(move_color(s.len() - 1))
    } else {
        None
    }
}

/// A well-formed move sequence: every move names a valid, non-full column,
/// and no move is played once a winner is recorded.
pub open spec fn wf_cols(s: Seq<int>) -> bool
    decreases s.len(),
{
    if s.len() == 0 {
        true
    } else {
        &&& wf_cols(s.drop_last())
        &&& col_ok(s.last())
        &&& count_col(s.drop_last(), s.last()) < 6
        &&& winner_of(s.drop_last()) is None
    }
}

/// The history stack after the moves `s`: one (placed bit, mover colour)
/// entry per move, oldest first.
pub open spec fn hist_of(s: Seq<int>) -> Seq<(u64, Color)>
    decreases s.len(),
{
    if s.len() == 0 {
        Seq::empty()
    } else {
        hist_of(s.drop_last()).push(
            (sq_bit(s.last(), count_col(s.drop_last(), s.last())), move_color(s.len() - 1)),
        )
    }
}

/// The index of the hash-table constant for a token of colour `col` on the
/// square in column `c`, row `r`: red constants first, then yellow's.
pub open spec fn z_index(c: int, r: int, col: Color) -> int {
    (if col is Red {
        0int
    } else {
        42int
    }) + c + 7 * r
}

/// The position key after the moves `s`, with the constant table `table`:
/// the XOR of one table entry per placed token.
pub open spec fn key_of(s: Seq<int>, table: Seq<u64>) -> u64
    decreases s.len(),
{
    if s.len() == 0 {
        0u64
    } else {
        key_of(s.drop_last(), table) ^ table[z_index(
            s.last(),
            count_col(s.drop_last(), s.last()),
            move_color(s.len() - 1),
        )]
    }
}

/// The non-full columns among `c`, `c-1`, ..., `0`, in that order.
pub open spec fn legal_desc(s: Seq<int>, c: int) -> Seq<int>
    decreases c + 1,
{
    if c < 0 {
        Seq::empty()
    } else if count_col(s, c) >= 6 {
        legal_desc(s, c - 1)
    } else {
        seq![c] + legal_desc(s, c - 1)
    }
}

/// The ordered set of playable columns after the moves `s`: empty once a
/// winner is recorded, and otherwise the non-full columns from 6 down to 0.
pub open spec fn legal_cols(s: Seq<int>) -> Seq<int> {
    if winner_of(s) is Some {
        Seq::empty()
    } else {
        legal_desc(s, 6)
    }
}

/// The column sequence denoted by a vector of column numbers.
pub open spec fn vec_cols(v: Seq<i32>) -> Seq<int> {
    v.map_values(|x: i32| x as int)
}

/// The column sequence denoted by a string of ASCII digits.
pub open spec fn digit_cols(sd: Seq<char>) -> Seq<int> {
    sd.map_values(|ch: char| ch as int - 48)
}

/// Whether the moves `digits`, played in order from the position `m`, are all
/// legal: each names a valid non-full column and none follows a win.
pub open spec fn bulk_ok(m: Seq<int>, digits: Seq<int>) -> bool
    decreases digits.len(),
{
    if digits.len() == 0 {
        true
    } else {
        &&& col_ok(digits[0])
        &&& count_col(m, digits[0]) < 6
        &&& winner_of(m) is None
        &&& bulk_ok(m.push(digits[0]), digits.drop_first())
    }
}

/// The transposition key of the perft cache: the position key paired with the
/// remaining depth, packed into one value.
pub open spec fn tt_key(key: u64, depth: int) -> u128 {
    (key as int * 0x100000000 + depth) as u128
}

/// Seven to the power `d`.
pub open spec fn pow7(d: int) -> int
    decreases d,
{
    if d <= 0 {
        1int
    } else {
        7 * pow7(d - 1)
    }
}

/// The perft count from the position `s` at depth `d`: the number of legal
/// moves summed over every position of the tree explored to depth `d`
/// (at depth 1 it is the immediate legal-move count).
pub open spec fn perft_of(s: Seq<int>, d: int) -> int
    decreases d, legal_cols(s).len() + 1,
{
    if d <= 1 {
        legal_cols(s).len() as int
    } else {
        perft_sum(s, legal_cols(s), d)
    }
}

/// The sum of the depth `d - 1` perft counts of the children of `s` reached
/// by the moves `list`.
pub open spec fn perft_sum(s: Seq<int>, list: Seq<int>, d: int) -> int
    decreases d, list.len(),
{
    if list.len() == 0 || d <= 1 {
        0int
    } else {
        perft_of(s.push(list[0]), d - 1) + perft_sum(s, list.drop_first(), d)
    }
}

// ---------------------------------------------------------------------------
// The evaluation function
// ---------------------------------------------------------------------------

/// The bottom-left square index of window number `i` of the 69 length-4
/// windows: 24 horizontal, then 21 vertical, then 12 up-right diagonal,
/// then 12 up-left diagonal windows.
pub open spec fn win_base(i: int) -> int {
    if i < 24 {
        7 * (i / 4) + i % 4
    } else if i < 45 {
        7 * ((i - 24) % 3) + (i - 24) / 3
    } else if i < 57 {
        7 * ((i - 45) / 4) + (i - 45) % 4
    } else {
        7 * ((i - 57) / 4) + (i - 57) % 4 + 3
    }
}

/// The square-index stride between consecutive cells of window number `i`.
pub open spec fn win_step(i: int) -> int {
    if i < 24 {
        1int
    } else if i < 45 {
        7int
    } else if i < 57 {
        8int
    } else {
        6int
    }
}

/// How many of the four cells of window `i` are set in the bitset `b`.
pub open spec fn wcount(b: u64, i: int) -> int {
    let base = win_base(i);
    let st = win_step(i);
    (if bit_at(b, base as u64) {
        1int
    } else {
        0int
    }) + (if bit_at(b, (base + st) as u64) {
        1int
    } else {
        0int
    }) + (if bit_at(b, (base + 2 * st) as u64) {
        1int
    } else {
        0int
    }) + (if bit_at(b, (base + 3 * st) as u64) {
        1int
    } else {
        0int
    })
}

/// The score of window `i`: 0 when both colours appear in it, and otherwise
/// the single-colour occupancy scored 4 -> 100000, 3 -> 100, 2 -> 10, 1 -> 1,
/// positive for red and negated for yellow.
pub open spec fn wscore(red: u64, yel: u64, i: int) -> int {
    let rc = wcount(red, i);
    let yc = wcount(yel, i);
    if rc > 0 && yc > 0 {
        0int
    } else if rc == 4 {
        100000int
    } else if rc == 3 {
        100int
    } else if rc == 2 {
        10int
    } else if rc == 1 {
        1int
    } else if yc == 4 {
        -100000int
    } else if yc == 3 {
        -100int
    } else if yc == 2 {
        -10int
    } else if yc == 1 {
        -1int
    } else {
        0int
    }
}

/// The sum of the scores of the first `n` windows.
pub open spec fn eval_windows(red: u64, yel: u64, n: int) -> int
    decreases n,
{
    if n <= 0 {
        0int
    } else {
        eval_windows(red, yel, n - 1) + wscore(red, yel, n - 1)
    }
}

/// How many of the bottom `n` squares of the centre column are set in `b`.
pub open spec fn center_count(b: u64, n: int) -> int
    decreases n,
{
    if n <= 0 {
        0int
    } else {
        center_count(b, n - 1) + if bit_at(b, (3 + 7 * (n - 1)) as u64) {
            1int
        } else {
            0int
        }
    }
}

/// The heuristic score of the position `s`: the sum over all 69 windows,
/// plus three points per token of the colour-parity board in the centre file.
pub open spec fn eval_of(s: Seq<int>) -> int {
    eval_windows(red_of(s), yel_of(s), 69) + 3 * center_count(cpar_of(s), 6)
}

// ---------------------------------------------------------------------------
// Bit-level lemmas
// ---------------------------------------------------------------------------

/// XOR-ing a single bit flips exactly that bit.
pub proof fn lemma_bit_xor_single(x: u64, k: u64, j: u64)
    by (bit_vector)
    requires
        k < 64,
        j < 64,
    ensures
        bit_at(x ^ (1u64 << k), j) == if j == k {
            !bit_at(x, j)
        } else {
            bit_at(x, j)
        },
{
}

/// XOR with the same value twice is the identity.
pub proof fn lemma_xor_cancel(a: u64, b: u64)
    by (bit_vector)
    ensures
        (a ^ b) ^ b == a,
{
}

/// The zero bitset has no bit set.
pub proof fn lemma_bit_zero(j: u64)
    by (bit_vector)
    ensures
        !bit_at(0u64, j),
{
}

/// XOR-ing in a bit below bit 42 keeps the upper bits clear.
pub proof fn lemma_xor_keeps_high_clear(x: u64, k: u64)
    by (bit_vector)
    requires
        x >> 42u64 == 0,
        k < 42,
    ensures
        (x ^ (1u64 << k)) >> 42u64 == 0,
{
}

/// Testing a bit with a single-bit mask is the same as shifting it down.
pub proof fn lemma_mask_test(x: u64, k: u64)
    by (bit_vector)
    requires
        k < 64,
    ensures
        ((1u64 << k) & x == 0) <==> !bit_at(x, k),
{
}

/// Two equal single-bit masks have equal bit positions.
pub proof fn lemma_single_bit_injective(a: u64, b: u64)
    by (bit_vector)
    requires
        a < 64,
        b < 64,
        1u64 << a == 1u64 << b,
    ensures
        a == b,
{
}

// ---------------------------------------------------------------------------
// Counting lemmas
// ---------------------------------------------------------------------------

/// Appending a move raises exactly that column's count by one.
pub proof fn lemma_count_col_push(s: Seq<int>, c: int, d: int)
    ensures
        count_col(s.push(c), d) == count_col(s, d) + if c == d {
            1int
        } else {
            0int
        },
{
    assert(s.push(c).drop_last() =~= s);
}

/// A column's count lies between 0 and the number of moves.
pub proof fn lemma_count_col_bounds(s: Seq<int>, c: int)
    ensures
        0 <= count_col(s, c) <= s.len(),
    decreases s.len(),
{
    if s.len() > 0 {
        lemma_count_col_bounds(s.drop_last(), c);
    }
}

/// In a well-formed game no column ever holds more than six tokens.
pub proof fn lemma_wf_count_le(s: Seq<int>, c: int)
    requires
        wf_cols(s),
    ensures
        count_col(s, c) <= 6,
    decreases s.len(),
{
    lemma_count_col_bounds(s, c);
    if s.len() > 0 {
        lemma_wf_count_le(s.drop_last(), c);
    }
}

// ---------------------------------------------------------------------------
// The structure of the occupancy bitset
// ---------------------------------------------------------------------------

/// In a well-formed game, the occupancy bitset holds exactly the squares
/// below each column's height, and nothing above bit 41.
pub proof fn lemma_occ_structure(s: Seq<int>)
    requires
        wf_cols(s),
    ensures
        forall|c: int, r: int|
            col_ok(c) && 0 <= r < 6 ==> (#[trigger] cell(occ_of(s), c, r) <==> r < count_col(
                s,
                c,
            )),
        occ_of(s) >> 42u64 == 0,
    decreases s.len(),
{
    if s.len() == 0 {
        assert forall|c: int, r: int| col_ok(c) && 0 <= r < 6 implies (#[trigger] cell(
            occ_of(s),
            c,
            r,
        ) <==> r < count_col(s, c)) by {
            lemma_bit_zero((c + 7 * r) as u64);
        }
        assert(0u64 >> 42u64 == 0) by (bit_vector);
    } else {
        let s0 = s.drop_last();
        let c0 = s.last();
        let h0 = count_col(s0, c0);
        let k0: u64 = (c0 + 7 * h0) as u64;
        lemma_occ_structure(s0);
        lemma_count_col_bounds(s0, c0);
        assert(occ_of(s) == occ_of(s0) ^ (1u64 << k0));
        lemma_xor_keeps_high_clear(occ_of(s0), k0);
        assert forall|c: int, r: int| col_ok(c) && 0 <= r < 6 implies (#[trigger] cell(
            occ_of(s),
            c,
            r,
        ) <==> r < count_col(s, c)) by {
            let k: u64 = (c + 7 * r) as u64;
            lemma_bit_xor_single(occ_of(s0), k0, k);
            assert(cell(occ_of(s0), c, r) <==> r < count_col(s0, c));
            if c == c0 && r == h0 {
                assert(!cell(occ_of(s0), c0, h0));
            } else {
                assert(k != k0) by {
                    if c + 7 * r == c0 + 7 * h0 {
                        assert(7 * (r - h0) == c0 - c);
                        assert(-7 < c0 - c < 7);
                        assert(r == h0 && c == c0);
                    }
                };
            }
            assert(count_col(s, c) == count_col(s0, c) + if c0 == c {
                1int
            } else {
                0int
            });
        }
    }
}

// ---------------------------------------------------------------------------
// Legal-move lemmas
// ---------------------------------------------------------------------------

/// What `legal_desc` contains: the non-full columns up to `c`.
pub proof fn lemma_legal_desc_props(s: Seq<int>, c: int)
    ensures
        forall|d: int| #[trigger]
            legal_desc(s, c).contains(d) <==> (0 <= d <= c && count_col(s, d) < 6),
        c >= 0 ==> legal_desc(s, c).len() <= c + 1,
        c < 0 ==> legal_desc(s, c).len() == 0,
    decreases c + 1,
{
    if c >= 0 {
        lemma_legal_desc_props(s, c - 1);
        if count_col(s, c) < 6 {
            assert forall|d: int| #[trigger] legal_desc(s, c).contains(d) implies (0 <= d <= c
                && count_col(s, d) < 6) by {
                if d != c {
                    assert(legal_desc(s, c - 1).contains(d));
                }
            }
            assert forall|d: int| (0 <= d <= c && count_col(s, d) < 6) implies #[trigger] legal_desc(
                s,
                c,
            ).contains(d) by {
                if d == c {
                    assert(legal_desc(s, c)[0] == c);
                } else {
                    assert(legal_desc(s, c - 1).contains(d));
                    let i = choose|i: int|
                        0 <= i < legal_desc(s, c - 1).len() && #[trigger] legal_desc(s, c - 1)[i]
                            == d;
                    assert(legal_desc(s, c)[i + 1] == d);
                }
            }
        }
    }
}

/// What the legal-move set contains: every valid non-full column, unless a
/// winner is already recorded.
pub proof fn lemma_legal_cols_props(s: Seq<int>)
    ensures
        forall|d: int| #[trigger]
            legal_cols(s).contains(d) <==> (col_ok(d) && count_col(s, d) < 6 && winner_of(
                s,
            ) is None),
        legal_cols(s).len() <= 7,
{
    lemma_legal_desc_props(s, 6);
}

/// Column capacity: once a column holds six tokens it is never offered as a
/// legal move.
pub proof fn lemma_full_column_not_legal(s: Seq<int>, c: int)
    requires
        count_col(s, c) >= 6,
    ensures
        !legal_cols(s).contains(c),
{
    lemma_legal_cols_props(s);
}

/// A recorded winner empties the legal-move set.
pub proof fn lemma_winner_stops_play(s: Seq<int>)
    requires
        winner_of(s) is Some,
    ensures
        legal_cols(s).len() == 0,
{
}

// ---------------------------------------------------------------------------
// How one push changes the model
// ---------------------------------------------------------------------------

/// How every model component changes when the move `c` is appended to `s`.
pub proof fn lemma_push_state(s: Seq<int>, c: int)
    ensures
        occ_of(s.push(c)) == occ_of(s) ^ sq_bit(c, count_col(s, c)),
        cpar_of(s.push(c)) == cpar_of(s) ^ occ_of(s),
        hist_of(s.push(c)) == hist_of(s).push(
            (sq_bit(c, count_col(s, c)), move_color(s.len() as int)),
        ),
        turn_of(s.push(c)) == (if turn_of(s) is Red {
            Color::Yellow
        } else {
            Color::Red
        }),
        wf_cols(s.push(c)) <==> (wf_cols(s) && col_ok(c) && count_col(s, c) < 6 && winner_of(
            s,
        ) is None),
        forall|table: Seq<u64>| #[trigger]
            key_of(s.push(c), table) == key_of(s, table) ^ table[z_index(
                c,
                count_col(s, c),
                move_color(s.len() as int),
            )],
{
    assert(s.push(c).drop_last() =~= s);
}

/// The history stack holds one entry per move.
pub proof fn lemma_hist_len(s: Seq<int>)
    ensures
        hist_of(s).len() == s.len(),
    decreases s.len(),
{
    if s.len() > 0 {
        lemma_hist_len(s.drop_last());
    }
}

/// Casting a vector of columns commutes with appending.
pub proof fn lemma_vec_cols_push(v: Seq<i32>, x: i32)
    ensures
        vec_cols(v.push(x)) == vec_cols(v).push(x as int),
{
    assert(vec_cols(v.push(x)) =~= vec_cols(v).push(x as int));
}

/// The number of trailing zeros of a single-bit value is its bit position.
pub proof fn lemma_tz_single_bit(k: u64)
    requires
        k < 64,
    ensures
        vstd::std_specs::bits::u64_trailing_zeros(1u64 << k) as u64 == k,
{
    let i: u64 = 1u64 << k;
    vstd::std_specs::bits::axiom_u64_trailing_zeros(i);
    assert(i != 0) by (bit_vector)
        requires
            i == 1u64 << k,
            k < 64,
    ;
    let tu: u64 = vstd::std_specs::bits::u64_trailing_zeros(i) as u64;
    assert((i >> tu) & 1u64 == 1u64);
    assert(tu == k) by (bit_vector)
        requires
            i == 1u64 << k,
            k < 64,
            tu < 64,
            (i >> tu) & 1u64 == 1u64,
    ;
}

// ---------------------------------------------------------------------------
// Perft bounds
// ---------------------------------------------------------------------------

/// Seven to any power is at least one.
pub proof fn lemma_pow7_pos(d: int)
    ensures
        pow7(d) >= 1,
    decreases d,
{
    if d > 0 {
        lemma_pow7_pos(d - 1);
    }
}

/// A perft count is non-negative and at most seven to the depth.
pub proof fn lemma_perft_bounds(s: Seq<int>, d: int)
    requires
        d >= 1,
    ensures
        0 <= perft_of(s, d) <= pow7(d),
    decreases d, legal_cols(s).len() + 1,
{
    lemma_legal_cols_props(s);
    lemma_pow7_pos(d - 1);
    if d <= 1 {
    } else {
        lemma_perft_sum_bounds(s, legal_cols(s), d);
        assert(legal_cols(s).len() * pow7(d - 1) <= 7 * pow7(d - 1)) by (nonlinear_arith)
            requires
                legal_cols(s).len() <= 7,
                pow7(d - 1) >= 0,
        ;
    }
}

/// A partial perft sum is non-negative and at most one full subtree bound per
/// listed move.
pub proof fn lemma_perft_sum_bounds(s: Seq<int>, list: Seq<int>, d: int)
    requires
        d >= 2,
    ensures
        0 <= perft_sum(s, list, d) <= list.len() * pow7(d - 1),
    decreases d, list.len(),
{
    if list.len() == 0 {
    } else {
        lemma_perft_bounds(s.push(list[0]), d - 1);
        lemma_perft_sum_bounds(s, list.drop_first(), d);
        assert((list.len() - 1) * pow7(d - 1) + pow7(d - 1) == list.len() * pow7(d - 1))
            by (nonlinear_arith);
    }
}

/// Seven to the 22nd still fits comfortably in 64 bits.
pub proof fn lemma_pow7_22()
    ensures
        pow7(22) < 0x8000000000000000,
{
    reveal_with_fuel(pow7, 23);
}

/// Seven to the power is monotone in the exponent.
pub proof fn lemma_pow7_mono(a: int, b: int)
    requires
        a <= b,
    ensures
        pow7(a) <= pow7(b),
    decreases b - a,
{
    if a < b {
        lemma_pow7_mono(a, b - 1);
        lemma_pow7_pos(b - 1);
    }
}

// ---------------------------------------------------------------------------
// Evaluation bounds
// ---------------------------------------------------------------------------

/// Every cell of a valid window lies on the board.
pub proof fn lemma_window_in_range(i: int)
    requires
        0 <= i < 69,
    ensures
        0 <= win_base(i),
        win_base(i) + 3 * win_step(i) < 42,
        1 <= win_step(i),
{
}

/// Any window's score lies between -100000 and 100000.
pub proof fn lemma_wscore_bounds(red: u64, yel: u64, i: int)
    ensures
        -100000 <= wscore(red, yel, i) <= 100000,
{
}

/// The sum of the first `n` window scores is bounded by 100000 per window.
pub proof fn lemma_eval_windows_bounds(red: u64, yel: u64, n: int)
    requires
        n >= 0,
    ensures
        -100000 * n <= eval_windows(red, yel, n) <= 100000 * n,
    decreases n,
{
    if n > 0 {
        lemma_eval_windows_bounds(red, yel, n - 1);
        lemma_wscore_bounds(red, yel, n - 1);
    }
}

/// At most `n` of the bottom `n` centre squares are occupied.
pub proof fn lemma_center_count_bounds(b: u64, n: int)
    requires
        n >= 0,
    ensures
        0 <= center_count(b, n) <= n,
    decreases n,
{
    if n > 0 {
        lemma_center_count_bounds(b, n - 1);
    }
}

/// The heuristic score of any position is bounded well inside `i32`.
pub proof fn lemma_eval_of_bounds(s: Seq<int>)
    ensures
        -6900000 <= eval_of(s) <= 6900018,
{
    lemma_eval_windows_bounds(red_of(s), yel_of(s), 69);
    lemma_center_count_bounds(cpar_of(s), 6);
}

} // verus!
