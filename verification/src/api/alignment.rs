//! The geometric meaning of the win detector: the bit-parallel doubling
//! formula [`wins`] holds exactly when four squares in a row — horizontally,
//! vertically or along either diagonal — are set on the board.

use vstd::prelude::*;
use vstd::arithmetic::div_mod::{lemma_fundamental_div_mod, lemma_fundamental_div_mod_converse};
use crate::api::model::{
    bit_at, col_mask, cpar_of, last_board, lemma_occ_structure, move_color, occ_of, wf_cols,
    winner_of, wins,
};

verus! {

/// Whether the four squares from index `k`, spaced `st` apart, are all set.
pub open spec fn run4(b: u64, k: int, st: int) -> bool {
    &&& bit_at(b, k as u64)
    &&& bit_at(b, (k + st) as u64)
    &&& bit_at(b, (k + 2 * st) as u64)
    &&& bit_at(b, (k + 3 * st) as u64)
}

/// A horizontal four-in-a-row whose left square is column `c`, row `r`.
pub open spec fn horiz_win(b: u64, c: int, r: int) -> bool {
    0 <= c <= 3 && 0 <= r <= 5 && run4(b, c + 7 * r, 1)
}

/// A vertical four-in-a-row whose bottom square is column `c`, row `r`.
pub open spec fn vert_win(b: u64, c: int, r: int) -> bool {
    0 <= c <= 6 && 0 <= r <= 2 && run4(b, c + 7 * r, 7)
}

/// An up-right diagonal four-in-a-row from its bottom-left square.
pub open spec fn diag_ne_win(b: u64, c: int, r: int) -> bool {
    0 <= c <= 3 && 0 <= r <= 2 && run4(b, c + 7 * r, 8)
}

/// An up-left diagonal four-in-a-row from its bottom-right square.
pub open spec fn diag_nw_win(b: u64, c: int, r: int) -> bool {
    3 <= c <= 6 && 0 <= r <= 2 && run4(b, c + 7 * r, 6)
}

/// Four aligned squares anywhere on the 7x6 board.
pub open spec fn has_alignment(b: u64) -> bool {
    exists|c: int, r: int|
        #![trigger horiz_win(b, c, r)]
        #![trigger vert_win(b, c, r)]
        #![trigger diag_ne_win(b, c, r)]
        #![trigger diag_nw_win(b, c, r)]
        horiz_win(b, c, r) || vert_win(b, c, r) || diag_ne_win(b, c, r) || diag_nw_win(b, c, r)
}

// ---------------------------------------------------------------------------
// Single-bit reasoning
// ---------------------------------------------------------------------------

/// A bit of an AND is the AND of the bits.
proof fn lemma_bit_and(x: u64, y: u64, k: u64)
    by (bit_vector)
    requires
        k < 64,
    ensures
        bit_at(x & y, k) == (bit_at(x, k) && bit_at(y, k)),
{
}

/// A bit of a complement is the negated bit.
proof fn lemma_bit_not(x: u64, k: u64)
    by (bit_vector)
    requires
        k < 64,
    ensures
        bit_at(!x, k) == !bit_at(x, k),
{
}

/// A bit of a right shift is a higher bit of the operand.
proof fn lemma_bit_shr(x: u64, s: u64, k: u64)
    by (bit_vector)
    requires
        k < 64,
        s < 64,
    ensures
        bit_at(x >> s, k) == (k + s < 64 && bit_at(x, (k + s) as u64)),
{
}

/// A bit of a left shift is a lower bit of the operand.
proof fn lemma_bit_shl(x: u64, s: u64, k: u64)
    by (bit_vector)
    requires
        k < 64,
        s < 64,
    ensures
        bit_at(x << s, k) == (k >= s && bit_at(x, (k - s) as u64)),
{
}

/// A value with a set bit is not zero.
proof fn lemma_bit_nonzero(x: u64, k: u64)
    by (bit_vector)
    requires
        k < 64,
        bit_at(x, k),
    ensures
        x != 0,
{
}

/// The bits of a file mask are the squares whose index is the file's column
/// modulo 7.
proof fn lemma_file_mask_bit(c: u64, k: u64)
    by (bit_vector)
    requires
        c < 7,
        k < 64,
    ensures
        bit_at(0x810204081u64 << c, k) == (k < 42 && k % 7 == c),
{
}

/// A 42-bit value has no bit at or above index 42.
proof fn lemma_high_clear_bit(b: u64, k: u64)
    by (bit_vector)
    requires
        b >> 42u64 == 0,
        k < 64,
        bit_at(b, k),
    ensures
        k < 42,
{
}

/// The XOR of two 42-bit values is a 42-bit value.
proof fn lemma_xor_high_clear(x: u64, y: u64)
    by (bit_vector)
    requires
        x >> 42u64 == 0,
        y >> 42u64 == 0,
    ensures
        (x ^ y) >> 42u64 == 0,
{
}

/// Every nonzero value has a set bit: its lowest one.
proof fn lemma_nonzero_bit(x: u64) -> (k: u64)
    requires
        x != 0,
    ensures
        k < 64,
        bit_at(x, k),
{
    vstd::std_specs::bits::axiom_u64_trailing_zeros(x);
    vstd::std_specs::bits::u64_trailing_zeros(x) as u64
}

/// The quotient and residue of `7 * q + rem` by 7.
proof fn lemma_mod7_of(q: int, rem: int)
    requires
        0 <= rem < 7,
    ensures
        (7 * q + rem) % 7 == rem,
        (7 * q + rem) / 7 == q,
{
    lemma_fundamental_div_mod_converse(7 * q + rem, 7, q, rem);
}

// ---------------------------------------------------------------------------
// The masked pair terms of the doubling formula
// ---------------------------------------------------------------------------

/// What a set bit of `b & (b >> s) & !A & !G` means: squares `k` and `k + s`
/// are both set and `k` avoids the outer files.
proof fn lemma_pair_elim_shr(b: u64, s: u64, k: u64)
    requires
        k < 64,
        0 < s < 64,
        b >> 42u64 == 0,
        bit_at(b & (b >> s) & !col_mask(0) & !col_mask(6), k),
    ensures
        bit_at(b, k),
        k < 42,
        k % 7 != 0,
        k % 7 != 6,
        k + s < 42,
        bit_at(b, (k + s) as u64),
{
    lemma_bit_and(b & (b >> s) & !col_mask(0), !col_mask(6), k);
    lemma_bit_and(b & (b >> s), !col_mask(0), k);
    lemma_bit_and(b, b >> s, k);
    lemma_bit_not(col_mask(0), k);
    lemma_bit_not(col_mask(6), k);
    lemma_file_mask_bit(0, k);
    lemma_file_mask_bit(6, k);
    lemma_bit_shr(b, s, k);
    lemma_high_clear_bit(b, k);
    lemma_high_clear_bit(b, (k + s) as u64);
}

/// The converse: both squares set and `k` off the outer files puts a bit at
/// `k` in the masked pair term.
proof fn lemma_pair_intro_shr(b: u64, s: u64, k: u64)
    requires
        k < 42,
        0 < s < 64,
        k + s < 42,
        bit_at(b, k),
        bit_at(b, (k + s) as u64),
        k % 7 != 0,
        k % 7 != 6,
    ensures
        bit_at(b & (b >> s) & !col_mask(0) & !col_mask(6), k),
{
    lemma_bit_and(b & (b >> s) & !col_mask(0), !col_mask(6), k);
    lemma_bit_and(b & (b >> s), !col_mask(0), k);
    lemma_bit_and(b, b >> s, k);
    lemma_bit_not(col_mask(0), k);
    lemma_bit_not(col_mask(6), k);
    lemma_file_mask_bit(0, k);
    lemma_file_mask_bit(6, k);
    lemma_bit_shr(b, s, k);
}

/// What a set bit of `b & (b << s) & !A & !G` means: squares `k` and `k - s`
/// are both set and `k` avoids the outer files.
proof fn lemma_pair_elim_shl(b: u64, s: u64, k: u64)
    requires
        k < 64,
        0 < s < 64,
        b >> 42u64 == 0,
        bit_at(b & (b << s) & !col_mask(0) & !col_mask(6), k),
    ensures
        bit_at(b, k),
        k < 42,
        k % 7 != 0,
        k % 7 != 6,
        k >= s,
        bit_at(b, (k - s) as u64),
{
    lemma_bit_and(b & (b << s) & !col_mask(0), !col_mask(6), k);
    lemma_bit_and(b & (b << s), !col_mask(0), k);
    lemma_bit_and(b, b << s, k);
    lemma_bit_not(col_mask(0), k);
    lemma_bit_not(col_mask(6), k);
    lemma_file_mask_bit(0, k);
    lemma_file_mask_bit(6, k);
    lemma_bit_shl(b, s, k);
    lemma_high_clear_bit(b, k);
}

/// The converse: both squares set and `k` off the outer files puts a bit at
/// `k` in the masked left-shift pair term.
proof fn lemma_pair_intro_shl(b: u64, s: u64, k: u64)
    requires
        k < 42,
        0 < s < 64,
        k >= s,
        bit_at(b, k),
        bit_at(b, (k - s) as u64),
        k % 7 != 0,
        k % 7 != 6,
    ensures
        bit_at(b & (b << s) & !col_mask(0) & !col_mask(6), k),
{
    lemma_bit_and(b & (b << s) & !col_mask(0), !col_mask(6), k);
    lemma_bit_and(b & (b << s), !col_mask(0), k);
    lemma_bit_and(b, b << s, k);
    lemma_bit_not(col_mask(0), k);
    lemma_bit_not(col_mask(6), k);
    lemma_file_mask_bit(0, k);
    lemma_file_mask_bit(6, k);
    lemma_bit_shl(b, s, k);
}

/// Extracts, from a fired doubling test `x & (x >> t) != 0`, a bit position
/// set in `x` together with `x`'s bit `t` higher.
proof fn lemma_double_elim_shr(x: u64, t: u64) -> (k: u64)
    requires
        0 < t < 64,
        x & (x >> t) != 0,
    ensures
        k < 64,
        bit_at(x, k),
        k + t < 64,
        bit_at(x, (k + t) as u64),
{
    let k = lemma_nonzero_bit(x & (x >> t));
    lemma_bit_and(x, x >> t, k);
    lemma_bit_shr(x, t, k);
    k
}

/// Extracts, from a fired doubling test `x & (x << t) != 0`, a bit position
/// set in `x` together with `x`'s bit `t` lower.
proof fn lemma_double_elim_shl(x: u64, t: u64) -> (k: u64)
    requires
        0 < t < 64,
        x & (x << t) != 0,
    ensures
        k < 64,
        bit_at(x, k),
        k >= t,
        bit_at(x, (k - t) as u64),
{
    let k = lemma_nonzero_bit(x & (x << t));
    lemma_bit_and(x, x << t, k);
    lemma_bit_shl(x, t, k);
    k
}

/// Two set bits `t` apart fire the right-shift doubling test.
proof fn lemma_double_intro_shr(x: u64, t: u64, k: u64)
    requires
        k < 64,
        k + t < 64,
        0 < t < 64,
        bit_at(x, k),
        bit_at(x, (k + t) as u64),
    ensures
        x & (x >> t) != 0,
{
    lemma_bit_shr(x, t, k);
    lemma_bit_and(x, x >> t, k);
    lemma_bit_nonzero(x & (x >> t), k);
}

/// Two set bits `t` apart fire the left-shift doubling test.
proof fn lemma_double_intro_shl(x: u64, t: u64, k: u64)
    requires
        k < 64,
        k >= t,
        0 < t < 64,
        bit_at(x, k),
        bit_at(x, (k - t) as u64),
    ensures
        x & (x << t) != 0,
{
    lemma_bit_shl(x, t, k);
    lemma_bit_and(x, x << t, k);
    lemma_bit_nonzero(x & (x << t), k);
}

// ---------------------------------------------------------------------------
// Soundness: a fired formula exhibits four aligned squares
// ---------------------------------------------------------------------------

/// Whenever the doubling formula fires on a 42-bit board, four aligned
/// squares are set.
proof fn lemma_formula_alignment(b: u64)
    requires
        b >> 42u64 == 0,
        wins(b),
    ensures
        has_alignment(b),
{
    let na = !col_mask(0);
    let ng = !col_mask(6);
    let mv = b & (b >> 7u64);
    let h1 = b & (b >> 1u64) & na & ng;
    let h2 = b & (b << 1u64) & na & ng;
    let d1 = b & (b >> 8u64) & na & ng;
    let d2 = b & (b << 8u64) & na & ng;
    let e1 = b & (b >> 6u64) & na & ng;
    let e2 = b & (b << 6u64) & na & ng;
    if mv & (mv >> 14u64) != 0 {
        let k = lemma_double_elim_shr(mv, 14);
        lemma_bit_and(b, b >> 7u64, k);
        lemma_bit_shr(b, 7, k);
        lemma_bit_and(b, b >> 7u64, (k + 14) as u64);
        lemma_bit_shr(b, 7, (k + 14) as u64);
        lemma_high_clear_bit(b, (k + 21) as u64);
        let ki = k as int;
        lemma_fundamental_div_mod(ki, 7);
        let r = ki / 7;
        let c = ki % 7;
        lemma_mod7_of(r, c);
        assert(vert_win(b, c, r));
    } else if h1 & (h1 >> 2u64) != 0 {
        let k = lemma_double_elim_shr(h1, 2);
        lemma_pair_elim_shr(b, 1, k);
        lemma_pair_elim_shr(b, 1, (k + 2) as u64);
        let ki = k as int;
        lemma_fundamental_div_mod(ki, 7);
        let r = ki / 7;
        let c = ki % 7;
        lemma_mod7_of(r, c);
        if c + 2 < 7 {
            lemma_mod7_of(r, c + 2);
        } else {
            lemma_mod7_of(r + 1, c - 5);
        }
        assert(1 <= c <= 3);
        assert(horiz_win(b, c, r));
    } else if h2 & (h2 << 2u64) != 0 {
        let k = lemma_double_elim_shl(h2, 2);
        lemma_pair_elim_shl(b, 1, k);
        lemma_pair_elim_shl(b, 1, (k - 2) as u64);
        let ki = k as int;
        lemma_fundamental_div_mod(ki, 7);
        let r = ki / 7;
        let c = ki % 7;
        lemma_mod7_of(r, c);
        if c - 2 >= 0 {
            lemma_mod7_of(r, c - 2);
        } else {
            lemma_mod7_of(r - 1, c + 5);
        }
        assert(3 <= c <= 5);
        assert(horiz_win(b, c - 3, r));
    } else if d1 & (d1 >> 16u64) != 0 {
        let k = lemma_double_elim_shr(d1, 16);
        lemma_pair_elim_shr(b, 8, k);
        lemma_pair_elim_shr(b, 8, (k + 16) as u64);
        let ki = k as int;
        lemma_fundamental_div_mod(ki, 7);
        let r = ki / 7;
        let c = ki % 7;
        lemma_mod7_of(r, c);
        if c + 2 < 7 {
            lemma_mod7_of(r + 2, c + 2);
        } else {
            lemma_mod7_of(r + 3, c - 5);
        }
        assert(1 <= c <= 3);
        assert(diag_ne_win(b, c, r));
    } else if d2 & (d2 << 16u64) != 0 {
        let k = lemma_double_elim_shl(d2, 16);
        lemma_pair_elim_shl(b, 8, k);
        lemma_pair_elim_shl(b, 8, (k - 16) as u64);
        let ki = k as int;
        lemma_fundamental_div_mod(ki, 7);
        let r = ki / 7;
        let c = ki % 7;
        lemma_mod7_of(r, c);
        if c - 2 >= 0 {
            lemma_mod7_of(r - 2, c - 2);
        } else {
            lemma_mod7_of(r - 3, c + 5);
        }
        assert(3 <= c <= 5);
        assert(diag_ne_win(b, c - 3, r - 3));
    } else if e1 & (e1 >> 12u64) != 0 {
        let k = lemma_double_elim_shr(e1, 12);
        lemma_pair_elim_shr(b, 6, k);
        lemma_pair_elim_shr(b, 6, (k + 12) as u64);
        let ki = k as int;
        lemma_fundamental_div_mod(ki, 7);
        let r = ki / 7;
        let c = ki % 7;
        lemma_mod7_of(r, c);
        if c - 2 >= 0 {
            lemma_mod7_of(r + 2, c - 2);
        } else {
            lemma_mod7_of(r + 1, c + 5);
        }
        assert(3 <= c <= 5);
        assert(diag_nw_win(b, c, r));
    } else {
        let k = lemma_double_elim_shl(e2, 12);
        lemma_pair_elim_shl(b, 6, k);
        lemma_pair_elim_shl(b, 6, (k - 12) as u64);
        let ki = k as int;
        lemma_fundamental_div_mod(ki, 7);
        let r = ki / 7;
        let c = ki % 7;
        lemma_mod7_of(r, c);
        if c + 2 < 7 {
            lemma_mod7_of(r - 2, c + 2);
        } else {
            lemma_mod7_of(r - 1, c - 5);
        }
        assert(1 <= c <= 3);
        assert(diag_nw_win(b, c + 3, r - 3));
    }
}

// ---------------------------------------------------------------------------
// Completeness: four aligned squares fire the formula
// ---------------------------------------------------------------------------

/// A horizontal four-in-a-row fires the horizontal doubling family.
proof fn lemma_horiz_win_formula(b: u64, c: int, r: int)
    requires
        horiz_win(b, c, r),
    ensures
        wins(b),
{
    let k0i = c + 7 * r;
    let k0 = k0i as u64;
    if c >= 1 {
        lemma_mod7_of(r, c);
        lemma_mod7_of(r, c + 2);
        lemma_pair_intro_shr(b, 1, k0);
        lemma_pair_intro_shr(b, 1, (k0 + 2) as u64);
        let h1 = b & (b >> 1u64) & !col_mask(0) & !col_mask(6);
        lemma_double_intro_shr(h1, 2, k0);
    } else {
        lemma_mod7_of(r, 1);
        lemma_mod7_of(r, 3);
        lemma_pair_intro_shl(b, 1, (k0 + 1) as u64);
        lemma_pair_intro_shl(b, 1, (k0 + 3) as u64);
        let h2 = b & (b << 1u64) & !col_mask(0) & !col_mask(6);
        lemma_double_intro_shl(h2, 2, (k0 + 3) as u64);
    }
}

/// A vertical four-in-a-row fires the vertical doubling family.
proof fn lemma_vert_win_formula(b: u64, c: int, r: int)
    requires
        vert_win(b, c, r),
    ensures
        wins(b),
{
    let k0 = (c + 7 * r) as u64;
    let mv = b & (b >> 7u64);
    lemma_bit_shr(b, 7, k0);
    lemma_bit_and(b, b >> 7u64, k0);
    lemma_bit_shr(b, 7, (k0 + 14) as u64);
    lemma_bit_and(b, b >> 7u64, (k0 + 14) as u64);
    lemma_double_intro_shr(mv, 14, k0);
}

/// An up-right diagonal four-in-a-row fires its doubling family.
proof fn lemma_diag_ne_win_formula(b: u64, c: int, r: int)
    requires
        diag_ne_win(b, c, r),
    ensures
        wins(b),
{
    let k0i = c + 7 * r;
    let k0 = k0i as u64;
    if c >= 1 {
        lemma_mod7_of(r, c);
        lemma_mod7_of(r + 2, c + 2);
        lemma_pair_intro_shr(b, 8, k0);
        lemma_pair_intro_shr(b, 8, (k0 + 16) as u64);
        let d1 = b & (b >> 8u64) & !col_mask(0) & !col_mask(6);
        lemma_double_intro_shr(d1, 16, k0);
    } else {
        lemma_mod7_of(r + 1, 1);
        lemma_mod7_of(r + 3, 3);
        lemma_pair_intro_shl(b, 8, (k0 + 8) as u64);
        lemma_pair_intro_shl(b, 8, (k0 + 24) as u64);
        let d2 = b & (b << 8u64) & !col_mask(0) & !col_mask(6);
        lemma_double_intro_shl(d2, 16, (k0 + 24) as u64);
    }
}

/// An up-left diagonal four-in-a-row fires its doubling family.
proof fn lemma_diag_nw_win_formula(b: u64, c: int, r: int)
    requires
        diag_nw_win(b, c, r),
    ensures
        wins(b),
{
    let k0i = c + 7 * r;
    let k0 = k0i as u64;
    if c <= 5 {
        lemma_mod7_of(r, c);
        lemma_mod7_of(r + 2, c - 2);
        lemma_pair_intro_shr(b, 6, k0);
        lemma_pair_intro_shr(b, 6, (k0 + 12) as u64);
        let e1 = b & (b >> 6u64) & !col_mask(0) & !col_mask(6);
        lemma_double_intro_shr(e1, 12, k0);
    } else {
        lemma_mod7_of(r + 1, 5);
        lemma_mod7_of(r + 3, 3);
        lemma_pair_intro_shl(b, 6, (k0 + 6) as u64);
        lemma_pair_intro_shl(b, 6, (k0 + 18) as u64);
        let e2 = b & (b << 6u64) & !col_mask(0) & !col_mask(6);
        lemma_double_intro_shl(e2, 12, (k0 + 18) as u64);
    }
}

// ---------------------------------------------------------------------------
// The equivalence
// ---------------------------------------------------------------------------

/// The bit-parallel doubling test recognises exactly the boards with four
/// aligned squares, for any 42-bit board.
pub proof fn lemma_wins_iff_alignment(b: u64)
    requires
        b >> 42u64 == 0,
    ensures
        wins(b) <==> has_alignment(b),
{
    if wins(b) {
        lemma_formula_alignment(b);
    }
    if has_alignment(b) {
        let (c, r) = choose|c: int, r: int|
            #![trigger horiz_win(b, c, r)]
            #![trigger vert_win(b, c, r)]
            #![trigger diag_ne_win(b, c, r)]
            #![trigger diag_nw_win(b, c, r)]
            horiz_win(b, c, r) || vert_win(b, c, r) || diag_ne_win(b, c, r) || diag_nw_win(b, c, r);
        if horiz_win(b, c, r) {
            lemma_horiz_win_formula(b, c, r);
        } else if vert_win(b, c, r) {
            lemma_vert_win_formula(b, c, r);
        } else if diag_ne_win(b, c, r) {
            lemma_diag_ne_win_formula(b, c, r);
        } else {
            lemma_diag_nw_win_formula(b, c, r);
        }
    }
}

/// What the recorded winner means geometrically: in a well-formed game a
/// winner is recorded exactly when the last move left four aligned squares
/// on the last mover's board, and the winner is then the last mover.
pub proof fn lemma_winner_alignment(s: Seq<int>)
    requires
        wf_cols(s),
    ensures
        winner_of(s) is Some <==> (s.len() > 0 && has_alignment(last_board(s))),
        winner_of(s) is Some ==> winner_of(s) == Some(move_color(s.len() - 1)),
{
    lemma_cpar_high_clear(s);
    lemma_occ_structure(s);
    lemma_xor_high_clear(cpar_of(s), occ_of(s));
    lemma_wins_iff_alignment(cpar_of(s) ^ occ_of(s));
}

/// The colour-parity bitset of a well-formed game is a 42-bit value.
pub proof fn lemma_cpar_high_clear(s: Seq<int>)
    requires
        wf_cols(s),
    ensures
        cpar_of(s) >> 42u64 == 0,
    decreases s.len(),
{
    if s.len() == 0 {
        assert(0u64 >> 42u64 == 0) by (bit_vector);
    } else {
        lemma_cpar_high_clear(s.drop_last());
        lemma_occ_structure(s.drop_last());
        lemma_xor_high_clear(cpar_of(s.drop_last()), occ_of(s.drop_last()));
    }
}

} // verus!
