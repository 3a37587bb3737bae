//! Brute-force expectimax over the 21 distinct dice pairs. Values are
//! exact integers scaled by 36 per ply: a depth-`n` value is the true
//! expectation multiplied by 36^n, so no rounding ever occurs. Light
//! (turn == false) maximizes, Dark minimizes, and depth 0 scores a
//! position by its net pip differential.
//!
//! The search value is specified one depth layer at a time — `eval1` in
//! terms of `eval0` and so on — and the supported depth is capped at 4:
//! plenty for the search's combinatorial cost, which makes even 3 plies
//! expensive, and it keeps every layer's "best successor value" a plain
//! first-order definition that a caller's witness can discharge.

use vstd::prelude::*;
use crate::board::Board;
use crate::board::GameState;
use crate::board::lemma_sum_dist_bound;
use crate::board::lemma_sum_own_nonneg;
use crate::generator::MoveBuffer;
use crate::generator::TurnRec;
use crate::generator::cand;
use crate::generator::gen_post;
use crate::generator::has_state;
use crate::generator::lemma_seq_wf;
use crate::generator::seq_result;
use crate::generator::seq_waste;
use crate::rules::MoveError;

verus! {

/// Some candidate for the roll uses exactly `k` dice.
pub open spec fn has_len(b: Board, turn: bool, d0: u8, d1: u8, k: int) -> bool {
    exists|ms: Seq<(u8, u8)>| #[trigger] cand(b, turn, d0, d1, ms) && ms.len() == k
}

/// The largest number of dice any candidate for the roll can use.
pub open spec fn max_len(b: Board, turn: bool, d0: u8, d1: u8) -> int {
    if has_len(b, turn, d0, d1, 4) {
        4
    } else if has_len(b, turn, d0, d1, 3) {
        3
    } else if has_len(b, turn, d0, d1, 2) {
        2
    } else if has_len(b, turn, d0, d1, 1) {
        1
    } else {
        0
    }
}

/// Some candidate uses exactly `k` dice, `w` of them wastefully.
pub open spec fn has_lw(b: Board, turn: bool, d0: u8, d1: u8, k: int, w: int) -> bool {
    exists|ms: Seq<(u8, u8)>|
        #[trigger] cand(b, turn, d0, d1, ms) && ms.len() == k && seq_waste(b, turn, ms) == w
}

/// The fewest wasteful moves among candidates of maximal length.
pub open spec fn min_waste(b: Board, turn: bool, d0: u8, d1: u8) -> int {
    let lm = max_len(b, turn, d0, d1);
    if has_lw(b, turn, d0, d1, lm, 0) {
        0
    } else if has_lw(b, turn, d0, d1, lm, 1) {
        1
    } else if has_lw(b, turn, d0, d1, lm, 2) {
        2
    } else if has_lw(b, turn, d0, d1, lm, 3) {
        3
    } else {
        4
    }
}

/// The set of positions the generator returns for a sorted roll
/// `(d0, d1)`: those reached by a candidate of maximal dice usage and,
/// within that, minimal waste. Empty exactly when no move is possible.
#[verifier::opaque]
pub open spec fn out_set(b: Board, turn: bool, d0: u8, d1: u8) -> Set<Board> {
    Set::new(
        |s: Board|
            exists|ms: Seq<(u8, u8)>|
                #[trigger] cand(b, turn, d0, d1, ms) && ms.len() == max_len(b, turn, d0, d1)
                    && ms.len() >= 1 && seq_waste(b, turn, ms) == min_waste(b, turn, d0, d1)
                    && seq_result(b, turn, ms) == s,
    )
}

/// What `gen_post` pins down, restated against the roll's own quantities:
/// the generator's `used` and `waste` are the maximal length and minimal
/// waste, and its records hold exactly the output set.
pub proof fn lemma_gen_exact(
    rs: Seq<TurnRec>,
    b0: Board,
    turn: bool,
    d0: u8,
    d1: u8,
    used: int,
    waste: int,
)
    requires
        gen_post(rs, b0, turn, d0, d1, used, waste),
    ensures
        used == max_len(b0, turn, d0, d1),
        used > 0 ==> waste == min_waste(b0, turn, d0, d1),
        forall|s: Board| has_state(rs, s) <==> out_set(b0, turn, d0, d1).contains(s),
    decreases 0int,
{
    reveal(out_set);
    if used > 0 {
        assert(rs.len() > 0);
        let r0 = rs[0];
        let ms0 = crate::movelist::move_atoms(r0.moves);
        assert(cand(b0, turn, d0, d1, ms0) && ms0.len() == used && seq_waste(b0, turn, ms0)
            == waste);
        assert(has_len(b0, turn, d0, d1, used));
        assert(has_lw(b0, turn, d0, d1, used, waste));
        assert forall|k: int| has_len(b0, turn, d0, d1, k) implies k <= used by {
            let ms = choose|ms: Seq<(u8, u8)>|
                #[trigger] cand(b0, turn, d0, d1, ms) && ms.len() == k;
        }
        assert(max_len(b0, turn, d0, d1) == used);
        assert forall|w: int| has_lw(b0, turn, d0, d1, used, w) implies w >= waste by {
            let ms = choose|ms: Seq<(u8, u8)>|
                #[trigger] cand(b0, turn, d0, d1, ms) && ms.len() == used && seq_waste(
                    b0,
                    turn,
                    ms,
                ) == w;
        }
        crate::generator::lemma_seq_waste_bounds(b0, turn, ms0);
        assert(min_waste(b0, turn, d0, d1) == waste);
        assert forall|s: Board| has_state(rs, s) implies out_set(b0, turn, d0, d1).contains(
            s,
        ) by {
            let k = choose|k: int| 0 <= k < rs.len() && (#[trigger] rs[k]).state@ == s;
            let ms = crate::movelist::move_atoms(rs[k].moves);
            assert(cand(b0, turn, d0, d1, ms) && ms.len() == used && seq_waste(b0, turn, ms)
                == waste && seq_result(b0, turn, ms) == s);
        }
        assert forall|s: Board| out_set(b0, turn, d0, d1).contains(s) implies has_state(
            rs,
            s,
        ) by {
            let ms = choose|ms: Seq<(u8, u8)>|
                #[trigger] cand(b0, turn, d0, d1, ms) && ms.len() == max_len(b0, turn, d0, d1)
                    && ms.len() >= 1 && seq_waste(b0, turn, ms) == min_waste(b0, turn, d0, d1)
                    && seq_result(b0, turn, ms) == s;
        }
    } else {
        assert(rs.len() == 0);
        assert forall|k: int| has_len(b0, turn, d0, d1, k) implies k <= 0 by {
            let ms = choose|ms: Seq<(u8, u8)>|
                #[trigger] cand(b0, turn, d0, d1, ms) && ms.len() == k;
        }
        assert(max_len(b0, turn, d0, d1) == 0);
        assert forall|s: Board| !out_set(b0, turn, d0, d1).contains(s) by {
            if out_set(b0, turn, d0, d1).contains(s) {
                let ms = choose|ms: Seq<(u8, u8)>|
                    #[trigger] cand(b0, turn, d0, d1, ms) && ms.len() == max_len(
                        b0,
                        turn,
                        d0,
                        d1,
                    ) && ms.len() >= 1 && seq_waste(b0, turn, ms) == min_waste(b0, turn, d0, d1)
                        && seq_result(b0, turn, ms) == s;
            }
        }
        assert forall|s: Board| has_state(rs, s) implies out_set(b0, turn, d0, d1).contains(
            s,
        ) by {
            let k = choose|k: int| 0 <= k < rs.len() && (#[trigger] rs[k]).state@ == s;
        }
    }
}

/// Members of the output set are well-formed positions.
pub proof fn lemma_out_set_wf(b: Board, turn: bool, d0: u8, d1: u8)
    requires
        b.wf(),
    ensures
        forall|s: Board| #[trigger] out_set(b, turn, d0, d1).contains(s) ==> s.wf(),
{
    reveal(out_set);
    assert forall|s: Board| #[trigger] out_set(b, turn, d0, d1).contains(s) implies s.wf() by {
        let ms = choose|ms: Seq<(u8, u8)>|
            #[trigger] cand(b, turn, d0, d1, ms) && ms.len() == max_len(b, turn, d0, d1)
                && ms.len() >= 1 && seq_waste(b, turn, ms) == min_waste(b, turn, d0, d1)
                && seq_result(b, turn, ms) == s;
        lemma_seq_wf(b, turn, ms);
    }
}

/// Weight of a dice pair among the 36 equally likely ordered rolls.
pub open spec fn w_of(d1: int, d2: int) -> int {
    if d1 == d2 {
        1
    } else {
        2
    }
}

/// Total weight of the dice pairs from `(d1, d2)` onward in the order
/// (1,1), (1,2), ..., (1,6), (2,2), ..., (6,6); 36 from the start.
pub open spec fn wsum(d1: int, d2: int) -> int
    decreases 7 - d1, 7 - d2,
{
    if 1 <= d1 <= 6 && d1 <= d2 <= 6 {
        w_of(d1, d2) + (if d2 < 6 {
            wsum(d1, d2 + 1)
        } else {
            wsum(d1 + 1, d1 + 1)
        })
    } else {
        0
    }
}

/// The 21 pair weights total 36.
pub proof fn lemma_wsum_total()
    ensures
        wsum(1, 1) == 36,
{
    reveal_with_fuel(wsum, 25);
}

pub proof fn lemma_wsum_nonneg(d1: int, d2: int)
    ensures
        0 <= wsum(d1, d2) <= 36,
{
    reveal_with_fuel(wsum, 30);
}

/// Depth-0 value: the net pip differential.
pub open spec fn eval0(b: Board, turn: bool) -> int {
    b.net_dist()
}

/// At depth 0 the search never consults the dice; it cannot get stuck.
pub open spec fn ok0(b: Board, turn: bool) -> bool {
    true
}

/// Depth-0 values of well-formed positions are bounded by 375.
pub proof fn lemma_eval0_bound(b: Board, turn: bool)
    requires
        b.wf(),
    ensures
        -375 <= eval0(b, turn) <= 375,
{
    lemma_sum_dist_bound(b.pts, false);
    lemma_sum_dist_bound(b.pts, true);
    lemma_sum_own_nonneg(b.pts, false);
    lemma_sum_own_nonneg(b.pts, true);
}

/// `v` is the best successor value of the roll `(da, db)` at search depth
/// 1: attained by some output position, and matched or beaten by all
/// (Light maximizes, Dark minimizes).
pub open spec fn is_best1(b: Board, turn: bool, da: u8, db: u8, v: int) -> bool {
    &&& (exists|s: Board|
        #[trigger] out_set(b, turn, da, db).contains(s) && v == eval0(s, !turn))
    &&& (forall|s: Board|
        #[trigger] out_set(b, turn, da, db).contains(s) ==> (if turn {
            eval0(s, !turn) >= v
        } else {
            eval0(s, !turn) <= v
        }))
}

/// The best successor value at depth 1, when one exists.
pub open spec fn best_val1(b: Board, turn: bool, da: u8, db: u8) -> int {
    if exists|v: int| is_best1(b, turn, da, db, v) {
        choose|v: int| is_best1(b, turn, da, db, v)
    } else {
        0
    }
}

/// Weighted sum of depth-1 best values over the dice pairs from
/// `(d1, d2)` onward.
#[verifier::opaque]
pub open spec fn ps1(b: Board, turn: bool, d1: int, d2: int) -> int
    decreases 7 - d1, 7 - d2,
{
    if 1 <= d1 <= 6 && d1 <= d2 <= 6 {
        w_of(d1, d2) * best_val1(b, turn, d1 as u8, d2 as u8) + (if d2 < 6 {
            ps1(b, turn, d1, d2 + 1)
        } else {
            ps1(b, turn, d1 + 1, d1 + 1)
        })
    } else {
        0
    }
}

/// Depth-1 expectimax value, scaled by 36 per ply below.
pub open spec fn eval1(b: Board, turn: bool) -> int {
    ps1(b, turn, 1, 1)
}

/// The rolls from `(d1, d2)` onward admit a move, and no successor is
/// stuck at depth 0.
#[verifier::opaque]
pub open spec fn okps1(b: Board, turn: bool, d1: int, d2: int) -> bool
    decreases 7 - d1, 7 - d2,
{
    if 1 <= d1 <= 6 && d1 <= d2 <= 6 {
        &&& (exists|s: Board| #[trigger] out_set(b, turn, d1 as u8, d2 as u8).contains(s))
        &&& (forall|s: Board|
            #[trigger] out_set(b, turn, d1 as u8, d2 as u8).contains(s) ==> ok0(s, !turn))
        &&& (if d2 < 6 {
            okps1(b, turn, d1, d2 + 1)
        } else {
            okps1(b, turn, d1 + 1, d1 + 1)
        })
    } else {
        true
    }
}

/// The depth-1 search is never stuck: every roll of every reachable
/// position down to depth 0 admits a move.
pub open spec fn ok1(b: Board, turn: bool) -> bool {
    okps1(b, turn, 1, 1)
}

/// Two depth-1 best values of one roll coincide.
pub proof fn lemma_is_best1_unique(b: Board, turn: bool, da: u8, db: u8, v1: int, v2: int)
    requires
        is_best1(b, turn, da, db, v1),
        is_best1(b, turn, da, db, v2),
    ensures
        v1 == v2,
{
}

/// A witnessed depth-1 best value is the best value.
pub proof fn lemma_best_val1_eq(b: Board, turn: bool, da: u8, db: u8, v: int)
    requires
        is_best1(b, turn, da, db, v),
    ensures
        best_val1(b, turn, da, db) == v,
{
    assert(exists|c: int| is_best1(b, turn, da, db, c));
    assert(is_best1(b, turn, da, db, best_val1(b, turn, da, db)));
    lemma_is_best1_unique(b, turn, da, db, best_val1(b, turn, da, db), v);
}

/// Depth-1 partial sums stay within the weighted magnitude bound.
pub proof fn lemma_ps1_bound(b: Board, turn: bool, d1: int, d2: int)
    requires
        b.wf(),
    ensures
        -wsum(d1, d2) * 375 <= ps1(b, turn, d1, d2) <= wsum(d1, d2) * 375,
    decreases 7 - d1, 7 - d2,
{
    reveal(ps1);
    if 1 <= d1 <= 6 && d1 <= d2 <= 6 {
        let bv = best_val1(b, turn, d1 as u8, d2 as u8);
        if exists|v: int| #[trigger] is_best1(b, turn, d1 as u8, d2 as u8, v) {
            assert(is_best1(b, turn, d1 as u8, d2 as u8, bv));
            let s = choose|s: Board|
                #[trigger] out_set(b, turn, d1 as u8, d2 as u8).contains(s) && bv == eval0(
                    s,
                    !turn,
                );
            lemma_out_set_wf(b, turn, d1 as u8, d2 as u8);
            lemma_eval0_bound(s, !turn);
            assert(-375 <= bv <= 375);
        } else {
            assert(bv == 0);
        }
        let wrest = if d2 < 6 {
            wsum(d1, d2 + 1)
        } else {
            wsum(d1 + 1, d1 + 1)
        };
        if d2 < 6 {
            lemma_ps1_bound(b, turn, d1, d2 + 1);
        } else {
            lemma_ps1_bound(b, turn, d1 + 1, d1 + 1);
        }
        lemma_wsum_nonneg(d1, d2 + 1);
        lemma_wsum_nonneg(d1 + 1, d1 + 1);
        assert(-(w_of(d1, d2) * 375) <= w_of(d1, d2) * bv <= w_of(d1, d2) * 375)
            by (nonlinear_arith)
            requires
                -375 <= bv <= 375,
                w_of(d1, d2) == 1 || w_of(d1, d2) == 2,
        ;
        assert((w_of(d1, d2) + wrest) * 375 == w_of(d1, d2) * 375 + wrest * 375)
            by (nonlinear_arith);
    }
}

/// Depth-1 values of well-formed positions are bounded by 13500.
pub proof fn lemma_eval1_bound(b: Board, turn: bool)
    requires
        b.wf(),
    ensures
        -13500 <= eval1(b, turn) <= 13500,
{
    lemma_ps1_bound(b, turn, 1, 1);
    lemma_wsum_total();
}

/// `v` is the best successor value of the roll `(da, db)` at search depth
/// 2: attained by some output position, and matched or beaten by all
/// (Light maximizes, Dark minimizes).
pub open spec fn is_best2(b: Board, turn: bool, da: u8, db: u8, v: int) -> bool {
    &&& (exists|s: Board|
        #[trigger] out_set(b, turn, da, db).contains(s) && v == eval1(s, !turn))
    &&& (forall|s: Board|
        #[trigger] out_set(b, turn, da, db).contains(s) ==> (if turn {
            eval1(s, !turn) >= v
        } else {
            eval1(s, !turn) <= v
        }))
}

/// The best successor value at depth 2, when one exists.
pub open spec fn best_val2(b: Board, turn: bool, da: u8, db: u8) -> int {
    if exists|v: int| is_best2(b, turn, da, db, v) {
        choose|v: int| is_best2(b, turn, da, db, v)
    } else {
        0
    }
}

/// Weighted sum of depth-2 best values over the dice pairs from
/// `(d1, d2)` onward.
#[verifier::opaque]
pub open spec fn ps2(b: Board, turn: bool, d1: int, d2: int) -> int
    decreases 7 - d1, 7 - d2,
{
    if 1 <= d1 <= 6 && d1 <= d2 <= 6 {
        w_of(d1, d2) * best_val2(b, turn, d1 as u8, d2 as u8) + (if d2 < 6 {
            ps2(b, turn, d1, d2 + 1)
        } else {
            ps2(b, turn, d1 + 1, d1 + 1)
        })
    } else {
        0
    }
}

/// Depth-2 expectimax value, scaled by 36 per ply below.
pub open spec fn eval2(b: Board, turn: bool) -> int {
    ps2(b, turn, 1, 1)
}

/// The rolls from `(d1, d2)` onward admit a move, and no successor is
/// stuck at depth 1.
#[verifier::opaque]
pub open spec fn okps2(b: Board, turn: bool, d1: int, d2: int) -> bool
    decreases 7 - d1, 7 - d2,
{
    if 1 <= d1 <= 6 && d1 <= d2 <= 6 {
        &&& (exists|s: Board| #[trigger] out_set(b, turn, d1 as u8, d2 as u8).contains(s))
        &&& (forall|s: Board|
            #[trigger] out_set(b, turn, d1 as u8, d2 as u8).contains(s) ==> ok1(s, !turn))
        &&& (if d2 < 6 {
            okps2(b, turn, d1, d2 + 1)
        } else {
            okps2(b, turn, d1 + 1, d1 + 1)
        })
    } else {
        true
    }
}

/// The depth-2 search is never stuck: every roll of every reachable
/// position down to depth 0 admits a move.
pub open spec fn ok2(b: Board, turn: bool) -> bool {
    okps2(b, turn, 1, 1)
}

/// Two depth-2 best values of one roll coincide.
pub proof fn lemma_is_best2_unique(b: Board, turn: bool, da: u8, db: u8, v1: int, v2: int)
    requires
        is_best2(b, turn, da, db, v1),
        is_best2(b, turn, da, db, v2),
    ensures
        v1 == v2,
{
}

/// A witnessed depth-2 best value is the best value.
pub proof fn lemma_best_val2_eq(b: Board, turn: bool, da: u8, db: u8, v: int)
    requires
        is_best2(b, turn, da, db, v),
    ensures
        best_val2(b, turn, da, db) == v,
{
    assert(exists|c: int| is_best2(b, turn, da, db, c));
    assert(is_best2(b, turn, da, db, best_val2(b, turn, da, db)));
    lemma_is_best2_unique(b, turn, da, db, best_val2(b, turn, da, db), v);
}

/// Depth-2 partial sums stay within the weighted magnitude bound.
pub proof fn lemma_ps2_bound(b: Board, turn: bool, d1: int, d2: int)
    requires
        b.wf(),
    ensures
        -wsum(d1, d2) * 13500 <= ps2(b, turn, d1, d2) <= wsum(d1, d2) * 13500,
    decreases 7 - d1, 7 - d2,
{
    reveal(ps2);
    if 1 <= d1 <= 6 && d1 <= d2 <= 6 {
        let bv = best_val2(b, turn, d1 as u8, d2 as u8);
        if exists|v: int| #[trigger] is_best2(b, turn, d1 as u8, d2 as u8, v) {
            assert(is_best2(b, turn, d1 as u8, d2 as u8, bv));
            let s = choose|s: Board|
                #[trigger] out_set(b, turn, d1 as u8, d2 as u8).contains(s) && bv == eval1(
                    s,
                    !turn,
                );
            lemma_out_set_wf(b, turn, d1 as u8, d2 as u8);
            lemma_eval1_bound(s, !turn);
            assert(-13500 <= bv <= 13500);
        } else {
            assert(bv == 0);
        }
        let wrest = if d2 < 6 {
            wsum(d1, d2 + 1)
        } else {
            wsum(d1 + 1, d1 + 1)
        };
        if d2 < 6 {
            lemma_ps2_bound(b, turn, d1, d2 + 1);
        } else {
            lemma_ps2_bound(b, turn, d1 + 1, d1 + 1);
        }
        lemma_wsum_nonneg(d1, d2 + 1);
        lemma_wsum_nonneg(d1 + 1, d1 + 1);
        assert(-(w_of(d1, d2) * 13500) <= w_of(d1, d2) * bv <= w_of(d1, d2) * 13500)
            by (nonlinear_arith)
            requires
                -13500 <= bv <= 13500,
                w_of(d1, d2) == 1 || w_of(d1, d2) == 2,
        ;
        assert((w_of(d1, d2) + wrest) * 13500 == w_of(d1, d2) * 13500 + wrest * 13500)
            by (nonlinear_arith);
    }
}

/// Depth-2 values of well-formed positions are bounded by 486000.
pub proof fn lemma_eval2_bound(b: Board, turn: bool)
    requires
        b.wf(),
    ensures
        -486000 <= eval2(b, turn) <= 486000,
{
    lemma_ps2_bound(b, turn, 1, 1);
    lemma_wsum_total();
}

/// `v` is the best successor value of the roll `(da, db)` at search depth
/// 3: attained by some output position, and matched or beaten by all
/// (Light maximizes, Dark minimizes).
pub open spec fn is_best3(b: Board, turn: bool, da: u8, db: u8, v: int) -> bool {
    &&& (exists|s: Board|
        #[trigger] out_set(b, turn, da, db).contains(s) && v == eval2(s, !turn))
    &&& (forall|s: Board|
        #[trigger] out_set(b, turn, da, db).contains(s) ==> (if turn {
            eval2(s, !turn) >= v
        } else {
            eval2(s, !turn) <= v
        }))
}

/// The best successor value at depth 3, when one exists.
pub open spec fn best_val3(b: Board, turn: bool, da: u8, db: u8) -> int {
    if exists|v: int| is_best3(b, turn, da, db, v) {
        choose|v: int| is_best3(b, turn, da, db, v)
    } else {
        0
    }
}

/// Weighted sum of depth-3 best values over the dice pairs from
/// `(d1, d2)` onward.
#[verifier::opaque]
pub open spec fn ps3(b: Board, turn: bool, d1: int, d2: int) -> int
    decreases 7 - d1, 7 - d2,
{
    if 1 <= d1 <= 6 && d1 <= d2 <= 6 {
        w_of(d1, d2) * best_val3(b, turn, d1 as u8, d2 as u8) + (if d2 < 6 {
            ps3(b, turn, d1, d2 + 1)
        } else {
            ps3(b, turn, d1 + 1, d1 + 1)
        })
    } else {
        0
    }
}

/// Depth-3 expectimax value, scaled by 36 per ply below.
pub open spec fn eval3(b: Board, turn: bool) -> int {
    ps3(b, turn, 1, 1)
}

/// The rolls from `(d1, d2)` onward admit a move, and no successor is
/// stuck at depth 2.
#[verifier::opaque]
pub open spec fn okps3(b: Board, turn: bool, d1: int, d2: int) -> bool
    decreases 7 - d1, 7 - d2,
{
    if 1 <= d1 <= 6 && d1 <= d2 <= 6 {
        &&& (exists|s: Board| #[trigger] out_set(b, turn, d1 as u8, d2 as u8).contains(s))
        &&& (forall|s: Board|
            #[trigger] out_set(b, turn, d1 as u8, d2 as u8).contains(s) ==> ok2(s, !turn))
        &&& (if d2 < 6 {
            okps3(b, turn, d1, d2 + 1)
        } else {
            okps3(b, turn, d1 + 1, d1 + 1)
        })
    } else {
        true
    }
}

/// The depth-3 search is never stuck: every roll of every reachable
/// position down to depth 0 admits a move.
pub open spec fn ok3(b: Board, turn: bool) -> bool {
    okps3(b, turn, 1, 1)
}

/// Two depth-3 best values of one roll coincide.
pub proof fn lemma_is_best3_unique(b: Board, turn: bool, da: u8, db: u8, v1: int, v2: int)
    requires
        is_best3(b, turn, da, db, v1),
        is_best3(b, turn, da, db, v2),
    ensures
        v1 == v2,
{
}

/// A witnessed depth-3 best value is the best value.
pub proof fn lemma_best_val3_eq(b: Board, turn: bool, da: u8, db: u8, v: int)
    requires
        is_best3(b, turn, da, db, v),
    ensures
        best_val3(b, turn, da, db) == v,
{
    assert(exists|c: int| is_best3(b, turn, da, db, c));
    assert(is_best3(b, turn, da, db, best_val3(b, turn, da, db)));
    lemma_is_best3_unique(b, turn, da, db, best_val3(b, turn, da, db), v);
}

/// Depth-3 partial sums stay within the weighted magnitude bound.
pub proof fn lemma_ps3_bound(b: Board, turn: bool, d1: int, d2: int)
    requires
        b.wf(),
    ensures
        -wsum(d1, d2) * 486000 <= ps3(b, turn, d1, d2) <= wsum(d1, d2) * 486000,
    decreases 7 - d1, 7 - d2,
{
    reveal(ps3);
    if 1 <= d1 <= 6 && d1 <= d2 <= 6 {
        let bv = best_val3(b, turn, d1 as u8, d2 as u8);
        if exists|v: int| #[trigger] is_best3(b, turn, d1 as u8, d2 as u8, v) {
            assert(is_best3(b, turn, d1 as u8, d2 as u8, bv));
            let s = choose|s: Board|
                #[trigger] out_set(b, turn, d1 as u8, d2 as u8).contains(s) && bv == eval2(
                    s,
                    !turn,
                );
            lemma_out_set_wf(b, turn, d1 as u8, d2 as u8);
            lemma_eval2_bound(s, !turn);
            assert(-486000 <= bv <= 486000);
        } else {
            assert(bv == 0);
        }
        let wrest = if d2 < 6 {
            wsum(d1, d2 + 1)
        } else {
            wsum(d1 + 1, d1 + 1)
        };
        if d2 < 6 {
            lemma_ps3_bound(b, turn, d1, d2 + 1);
        } else {
            lemma_ps3_bound(b, turn, d1 + 1, d1 + 1);
        }
        lemma_wsum_nonneg(d1, d2 + 1);
        lemma_wsum_nonneg(d1 + 1, d1 + 1);
        assert(-(w_of(d1, d2) * 486000) <= w_of(d1, d2) * bv <= w_of(d1, d2) * 486000)
            by (nonlinear_arith)
            requires
                -486000 <= bv <= 486000,
                w_of(d1, d2) == 1 || w_of(d1, d2) == 2,
        ;
        assert((w_of(d1, d2) + wrest) * 486000 == w_of(d1, d2) * 486000 + wrest * 486000)
            by (nonlinear_arith);
    }
}

/// Depth-3 values of well-formed positions are bounded by 17496000.
pub proof fn lemma_eval3_bound(b: Board, turn: bool)
    requires
        b.wf(),
    ensures
        -17496000 <= eval3(b, turn) <= 17496000,
{
    lemma_ps3_bound(b, turn, 1, 1);
    lemma_wsum_total();
}

/// `v` is the best successor value of the roll `(da, db)` at search depth
/// 4: attained by some output position, and matched or beaten by all
/// (Light maximizes, Dark minimizes).
pub open spec fn is_best4(b: Board, turn: bool, da: u8, db: u8, v: int) -> bool {
    &&& (exists|s: Board|
        #[trigger] out_set(b, turn, da, db).contains(s) && v == eval3(s, !turn))
    &&& (forall|s: Board|
        #[trigger] out_set(b, turn, da, db).contains(s) ==> (if turn {
            eval3(s, !turn) >= v
        } else {
            eval3(s, !turn) <= v
        }))
}

/// The best successor value at depth 4, when one exists.
pub open spec fn best_val4(b: Board, turn: bool, da: u8, db: u8) -> int {
    if exists|v: int| is_best4(b, turn, da, db, v) {
        choose|v: int| is_best4(b, turn, da, db, v)
    } else {
        0
    }
}

/// Weighted sum of depth-4 best values over the dice pairs from
/// `(d1, d2)` onward.
#[verifier::opaque]
pub open spec fn ps4(b: Board, turn: bool, d1: int, d2: int) -> int
    decreases 7 - d1, 7 - d2,
{
    if 1 <= d1 <= 6 && d1 <= d2 <= 6 {
        w_of(d1, d2) * best_val4(b, turn, d1 as u8, d2 as u8) + (if d2 < 6 {
            ps4(b, turn, d1, d2 + 1)
        } else {
            ps4(b, turn, d1 + 1, d1 + 1)
        })
    } else {
        0
    }
}

/// Depth-4 expectimax value, scaled by 36 per ply below.
pub open spec fn eval4(b: Board, turn: bool) -> int {
    ps4(b, turn, 1, 1)
}

/// The rolls from `(d1, d2)` onward admit a move, and no successor is
/// stuck at depth 3.
#[verifier::opaque]
pub open spec fn okps4(b: Board, turn: bool, d1: int, d2: int) -> bool
    decreases 7 - d1, 7 - d2,
{
    if 1 <= d1 <= 6 && d1 <= d2 <= 6 {
        &&& (exists|s: Board| #[trigger] out_set(b, turn, d1 as u8, d2 as u8).contains(s))
        &&& (forall|s: Board|
            #[trigger] out_set(b, turn, d1 as u8, d2 as u8).contains(s) ==> ok3(s, !turn))
        &&& (if d2 < 6 {
            okps4(b, turn, d1, d2 + 1)
        } else {
            okps4(b, turn, d1 + 1, d1 + 1)
        })
    } else {
        true
    }
}

/// The depth-4 search is never stuck: every roll of every reachable
/// position down to depth 0 admits a move.
pub open spec fn ok4(b: Board, turn: bool) -> bool {
    okps4(b, turn, 1, 1)
}

/// Two depth-4 best values of one roll coincide.
pub proof fn lemma_is_best4_unique(b: Board, turn: bool, da: u8, db: u8, v1: int, v2: int)
    requires
        is_best4(b, turn, da, db, v1),
        is_best4(b, turn, da, db, v2),
    ensures
        v1 == v2,
{
}

/// A witnessed depth-4 best value is the best value.
pub proof fn lemma_best_val4_eq(b: Board, turn: bool, da: u8, db: u8, v: int)
    requires
        is_best4(b, turn, da, db, v),
    ensures
        best_val4(b, turn, da, db) == v,
{
    assert(exists|c: int| is_best4(b, turn, da, db, c));
    assert(is_best4(b, turn, da, db, best_val4(b, turn, da, db)));
    lemma_is_best4_unique(b, turn, da, db, best_val4(b, turn, da, db), v);
}

/// Depth-4 partial sums stay within the weighted magnitude bound.
pub proof fn lemma_ps4_bound(b: Board, turn: bool, d1: int, d2: int)
    requires
        b.wf(),
    ensures
        -wsum(d1, d2) * 17496000 <= ps4(b, turn, d1, d2) <= wsum(d1, d2) * 17496000,
    decreases 7 - d1, 7 - d2,
{
    reveal(ps4);
    if 1 <= d1 <= 6 && d1 <= d2 <= 6 {
        let bv = best_val4(b, turn, d1 as u8, d2 as u8);
        if exists|v: int| #[trigger] is_best4(b, turn, d1 as u8, d2 as u8, v) {
            assert(is_best4(b, turn, d1 as u8, d2 as u8, bv));
            let s = choose|s: Board|
                #[trigger] out_set(b, turn, d1 as u8, d2 as u8).contains(s) && bv == eval3(
                    s,
                    !turn,
                );
            lemma_out_set_wf(b, turn, d1 as u8, d2 as u8);
            lemma_eval3_bound(s, !turn);
            assert(-17496000 <= bv <= 17496000);
        } else {
            assert(bv == 0);
        }
        let wrest = if d2 < 6 {
            wsum(d1, d2 + 1)
        } else {
            wsum(d1 + 1, d1 + 1)
        };
        if d2 < 6 {
            lemma_ps4_bound(b, turn, d1, d2 + 1);
        } else {
            lemma_ps4_bound(b, turn, d1 + 1, d1 + 1);
        }
        lemma_wsum_nonneg(d1, d2 + 1);
        lemma_wsum_nonneg(d1 + 1, d1 + 1);
        assert(-(w_of(d1, d2) * 17496000) <= w_of(d1, d2) * bv <= w_of(d1, d2) * 17496000)
            by (nonlinear_arith)
            requires
                -17496000 <= bv <= 17496000,
                w_of(d1, d2) == 1 || w_of(d1, d2) == 2,
        ;
        assert((w_of(d1, d2) + wrest) * 17496000 == w_of(d1, d2) * 17496000 + wrest * 17496000)
            by (nonlinear_arith);
    }
}

/// Depth-4 values of well-formed positions are bounded by 629856000.
pub proof fn lemma_eval4_bound(b: Board, turn: bool)
    requires
        b.wf(),
    ensures
        -629856000 <= eval4(b, turn) <= 629856000,
{
    lemma_ps4_bound(b, turn, 1, 1);
    lemma_wsum_total();
}

/// The smaller die of a roll.
pub open spec fn lo_die(dice: [u8; 2]) -> u8 {
    if dice[0] <= dice[1] {
        dice[0]
    } else {
        dice[1]
    }
}

/// The larger die of a roll.
pub open spec fn hi_die(dice: [u8; 2]) -> u8 {
    if dice[0] <= dice[1] {
        dice[1]
    } else {
        dice[0]
    }
}

/// Scaled expectimax value at depth `d` (capped at 4).
pub open spec fn eval_at(b: Board, turn: bool, d: int) -> int {
    if d <= 0 {
        eval0(b, turn)
    } else if d == 1 {
        eval1(b, turn)
    } else if d == 2 {
        eval2(b, turn)
    } else if d == 3 {
        eval3(b, turn)
    } else {
        eval4(b, turn)
    }
}

/// Whether the depth-`d` search can run to completion.
pub open spec fn ok_at(b: Board, turn: bool, d: int) -> bool {
    if d <= 0 {
        ok0(b, turn)
    } else if d == 1 {
        ok1(b, turn)
    } else if d == 2 {
        ok2(b, turn)
    } else if d == 3 {
        ok3(b, turn)
    } else {
        ok4(b, turn)
    }
}

/// The best-value predicate at depth `d`.
pub open spec fn is_best_at(b: Board, turn: bool, da: u8, db: u8, d: int, v: int) -> bool {
    if d <= 1 {
        is_best1(b, turn, da, db, v)
    } else if d == 2 {
        is_best2(b, turn, da, db, v)
    } else if d == 3 {
        is_best3(b, turn, da, db, v)
    } else {
        is_best4(b, turn, da, db, v)
    }
}

/// The best successor value at depth `d`.
pub open spec fn best_val_at(b: Board, turn: bool, da: u8, db: u8, d: int) -> int {
    if d <= 1 {
        best_val1(b, turn, da, db)
    } else if d == 2 {
        best_val2(b, turn, da, db)
    } else if d == 3 {
        best_val3(b, turn, da, db)
    } else {
        best_val4(b, turn, da, db)
    }
}

/// The depth-`d` pair sum from `(d1, d2)` onward.
pub open spec fn ps_at(b: Board, turn: bool, d: int, d1: int, d2: int) -> int {
    if d <= 1 {
        ps1(b, turn, d1, d2)
    } else if d == 2 {
        ps2(b, turn, d1, d2)
    } else if d == 3 {
        ps3(b, turn, d1, d2)
    } else {
        ps4(b, turn, d1, d2)
    }
}

/// The depth-`d` stuck-freedom from `(d1, d2)` onward.
pub open spec fn okps_at(b: Board, turn: bool, d: int, d1: int, d2: int) -> bool {
    if d <= 1 {
        okps1(b, turn, d1, d2)
    } else if d == 2 {
        okps2(b, turn, d1, d2)
    } else if d == 3 {
        okps3(b, turn, d1, d2)
    } else {
        okps4(b, turn, d1, d2)
    }
}

/// One unfolding step of the depth-`d` pair sum.
pub proof fn lemma_ps_at_step(b: Board, turn: bool, d: int, d1: int, d2: int)
    requires
        1 <= d <= 4,
        1 <= d1 <= 6,
        d1 <= d2 <= 6,
    ensures
        ps_at(b, turn, d, d1, d2) == w_of(d1, d2) * best_val_at(b, turn, d1 as u8, d2 as u8, d) + (
        if d2 < 6 {
            ps_at(b, turn, d, d1, d2 + 1)
        } else {
            ps_at(b, turn, d, d1 + 1, d1 + 1)
        }),
{
    reveal(ps1);
    reveal(ps2);
    reveal(ps3);
    reveal(ps4);
}

/// One unfolding step of the depth-`d` stuck-freedom scan.
pub proof fn lemma_okps_at_step(b: Board, turn: bool, d: int, d1: int, d2: int)
    requires
        1 <= d <= 4,
        1 <= d1 <= 6,
        d1 <= d2 <= 6,
    ensures
        okps_at(b, turn, d, d1, d2) <==> ((exists|s: Board|
            #[trigger] out_set(b, turn, d1 as u8, d2 as u8).contains(s)) && (forall|s: Board|
            #[trigger] out_set(b, turn, d1 as u8, d2 as u8).contains(s) ==> ok_at(s, !turn, d - 1))
            && (if d2 < 6 {
            okps_at(b, turn, d, d1, d2 + 1)
        } else {
            okps_at(b, turn, d, d1 + 1, d1 + 1)
        })),
{
    reveal(okps1);
    reveal(okps2);
    reveal(okps3);
    reveal(okps4);
}

/// Past the last pair, the sum is zero and the scan holds.
pub proof fn lemma_at_end(b: Board, turn: bool, d: int)
    ensures
        ps_at(b, turn, d, 7, 7) == 0,
        okps_at(b, turn, d, 7, 7),
{
    reveal(ps1);
    reveal(ps2);
    reveal(ps3);
    reveal(ps4);
    reveal(okps1);
    reveal(okps2);
    reveal(okps3);
    reveal(okps4);
}

/// The depth-`d` best value a witness pins down.
pub proof fn lemma_best_val_at_eq(b: Board, turn: bool, da: u8, db: u8, d: int, v: int)
    requires
        1 <= d <= 4,
        is_best_at(b, turn, da, db, d, v),
    ensures
        best_val_at(b, turn, da, db, d) == v,
{
    if d == 1 {
        lemma_best_val1_eq(b, turn, da, db, v);
    } else if d == 2 {
        lemma_best_val2_eq(b, turn, da, db, v);
    } else if d == 3 {
        lemma_best_val3_eq(b, turn, da, db, v);
    } else {
        lemma_best_val4_eq(b, turn, da, db, v);
    }
}

/// Magnitude bound for any depth up to 4.
pub proof fn lemma_eval_at_bound(b: Board, turn: bool, d: int)
    requires
        b.wf(),
        0 <= d <= 4,
    ensures
        -629856000 <= eval_at(b, turn, d) <= 629856000,
{
    if d == 0 {
        lemma_eval0_bound(b, turn);
    } else if d == 1 {
        lemma_eval1_bound(b, turn);
    } else if d == 2 {
        lemma_eval2_bound(b, turn);
    } else if d == 3 {
        lemma_eval3_bound(b, turn);
    } else {
        lemma_eval4_bound(b, turn);
    }
}

/// Magnitude bound on any depth-`d` pair sum.
pub proof fn lemma_ps_at_bound(b: Board, turn: bool, d: int, d1: int, d2: int)
    requires
        b.wf(),
        1 <= d <= 4,
    ensures
        -629856000 <= ps_at(b, turn, d, d1, d2) <= 629856000,
{
    lemma_wsum_nonneg(d1, d2);
    let w = wsum(d1, d2);
    if d == 1 {
        lemma_ps1_bound(b, turn, d1, d2);
        assert(-w * 375 >= -629856000 && w * 375 <= 629856000) by (nonlinear_arith)
            requires
                0 <= w <= 36,
        ;
    } else if d == 2 {
        lemma_ps2_bound(b, turn, d1, d2);
        assert(-w * 13500 >= -629856000 && w * 13500 <= 629856000) by (nonlinear_arith)
            requires
                0 <= w <= 36,
        ;
    } else if d == 3 {
        lemma_ps3_bound(b, turn, d1, d2);
        assert(-w * 486000 >= -629856000 && w * 486000 <= 629856000) by (nonlinear_arith)
            requires
                0 <= w <= 36,
        ;
    } else {
        lemma_ps4_bound(b, turn, d1, d2);
        assert(-w * 17496000 >= -629856000 && w * 17496000 <= 629856000) by (nonlinear_arith)
            requires
                0 <= w <= 36,
        ;
    }
}

/// The expectimax search driver. It holds no state of its own: each call
/// works from its arguments alone.
pub struct Evaluator {
}

impl Evaluator {
    /// A fresh evaluator.
    pub fn new() -> (r: Evaluator) {
        Evaluator {  }
    }

    /// Exact scaled expectimax evaluation: at depth 0 the net pip
    /// differential, otherwise the weighted sum over all 21 dice pairs of
    /// the best continuation, each ply scaling the value by 36. Fails with
    /// `NoLegalMoves` exactly when some roll of some reachable position
    /// admits no move within the searched depth.
    pub fn get_brute_force_eval(&mut self, state: GameState, turn: bool, depth: u32) -> (r: Result<
        i64,
        MoveError,
    >)
        requires
            state.wf(),
            depth <= 4,
        ensures
            r is Ok <==> ok_at(state@, turn, depth as int),
            r is Ok ==> r->Ok_0 as int == eval_at(state@, turn, depth as int),
            r is Err ==> r->Err_0 == MoveError::NoLegalMoves,
        decreases depth, 1int,
    {
        let ghost b = state@;
        if depth == 0 {
            let nd = state.get_net_dist();
            return Ok(nd as i64);
        }
        let ghost di = depth as int;
        let mut acc: i64 = 0;
        let mut d1: u8 = 1;
        let mut d2: u8 = 1;
        while d1 <= 6
            invariant
                state.wf(),
                b == state@,
                1 <= depth <= 4,
                di == depth as int,
                1 <= d1 <= 7,
                d1 <= 6 ==> d1 <= d2 && d2 <= 6,
                d1 == 7 ==> d2 == 7,
                acc as int == ps_at(b, turn, di, 1, 1) - ps_at(b, turn, di, d1 as int, d2 as int),
                okps_at(b, turn, di, 1, 1) <==> okps_at(b, turn, di, d1 as int, d2 as int),
            decreases 7 - d1, 7 - d2,
        {
            proof {
                lemma_ps_at_step(b, turn, di, d1 as int, d2 as int);
                lemma_okps_at_step(b, turn, di, d1 as int, d2 as int);
            }
            let mut roll: [u8; 2] = [1; 2];
            roll[0] = d1;
            roll[1] = d2;
            match self.get_best_move(state, turn, roll, depth) {
                Ok(bm) => {
                    let v = bm.1;
                    proof {
                        lemma_best_val_at_eq(b, turn, d1, d2, di, v as int);
                        lemma_ps_at_bound(b, turn, di, 1, 1);
                        lemma_ps_at_bound(b, turn, di, d1 as int, d2 as int);
                        if d2 < 6 {
                            lemma_ps_at_bound(b, turn, di, d1 as int, d2 as int + 1);
                        } else {
                            lemma_ps_at_bound(b, turn, di, d1 as int + 1, d1 as int + 1);
                        }
                        lemma_eval_at_bound(bm.0@, !turn, di - 1);
                    }
                    let w: i64 = if d1 == d2 {
                        1
                    } else {
                        2
                    };
                    acc = acc + w * v;
                },
                Err(_) => {
                    proof {
                        assert(lo_die(roll) == d1 && hi_die(roll) == d2);
                        assert(!((exists|s: Board|
                            #[trigger] out_set(b, turn, d1, d2).contains(s)) && (forall|s: Board|
                            #[trigger] out_set(b, turn, d1, d2).contains(s) ==> ok_at(
                                s,
                                !turn,
                                di - 1,
                            ))));
                        assert(!okps_at(b, turn, di, d1 as int, d2 as int));
                        assert(!okps_at(b, turn, di, 1, 1));
                        assert(!ok_at(b, turn, di));
                    }
                    return Err(MoveError::NoLegalMoves);
                },
            }
            if d2 < 6 {
                d2 = d2 + 1;
            } else {
                d1 = d1 + 1;
                d2 = d1;
            }
        }
        proof {
            lemma_at_end(b, turn, di);
            assert(acc as int == eval_at(b, turn, di));
            assert(ok_at(b, turn, di));
        }
        Ok(acc)
    }

    /// The best continuation of one roll: generates the best-class turns
    /// and picks the one whose recursive evaluation is extremal for the
    /// side to move (ties keep the first candidate found). Fails with
    /// `NoLegalMoves` when the roll admits no move, or a deeper search
    /// gets stuck.
    #[verifier::rlimit(100)]
    pub fn get_best_move(
        &mut self,
        state: GameState,
        turn: bool,
        dice: [u8; 2],
        depth: u32,
    ) -> (r: Result<(GameState, i64), MoveError>)
        requires
            state.wf(),
            1 <= depth <= 4,
            1 <= dice[0] <= 6,
            1 <= dice[1] <= 6,
        ensures
            r is Ok <==> ((exists|s: Board|
                #[trigger] out_set(state@, turn, lo_die(dice), hi_die(dice)).contains(s)) && (
            forall|s: Board|
                #[trigger] out_set(state@, turn, lo_die(dice), hi_die(dice)).contains(s)
                    ==> ok_at(s, !turn, depth as int - 1))),
            r is Ok ==> is_best_at(
                state@,
                turn,
                lo_die(dice),
                hi_die(dice),
                depth as int,
                (r->Ok_0).1 as int,
            ),
            r is Ok ==> out_set(state@, turn, lo_die(dice), hi_die(dice)).contains((r->Ok_0).0@)
                && (r->Ok_0).0.wf() && (r->Ok_0).1 as int == eval_at(
                (r->Ok_0).0@,
                !turn,
                depth as int - 1,
            ),
            r is Err ==> r->Err_0 == MoveError::NoLegalMoves,
        decreases depth, 0int,
    {
        let ghost b = state@;
        let ghost lo = lo_die(dice);
        let ghost hi = hi_die(dice);
        let mut mb = MoveBuffer::new();
        mb.generate(turn, state, dice);
        proof {
            lemma_gen_exact(mb.results@, b, turn, lo, hi, mb.used as int, mb.waste as int);
        }
        let n = mb.results.len();
        if n == 0 {
            proof {
                assert forall|s: Board| !(#[trigger] out_set(b, turn, lo, hi).contains(s)) by {
                    if out_set(b, turn, lo, hi).contains(s) {
                        assert(has_state(mb.results@, s));
                        let k = choose|k: int|
                            0 <= k < mb.results@.len() && (#[trigger] mb.results@[k]).state@ == s;
                    }
                }
            }
            return Err(MoveError::NoLegalMoves);
        }
        let first = mb.results[0].state;
        proof {
            assert(has_state(mb.results@, mb.results@[0].state@));
        }
        let mut best_s: GameState = first;
        let mut best_v: i64;
        match self.get_brute_force_eval(first, !turn, depth - 1) {
            Ok(v) => {
                best_v = v;
            },
            Err(_) => {
                proof {
                    assert(out_set(b, turn, lo, hi).contains(first@));
                    assert(!ok_at(first@, !turn, depth as int - 1));
                }
                return Err(MoveError::NoLegalMoves);
            },
        }
        let mut i: usize = 1;
        while i < n
            invariant
                state.wf(),
                b == state@,
                1 <= depth <= 4,
                lo == lo_die(dice),
                hi == hi_die(dice),
                n == mb.results@.len(),
                n > 0,
                1 <= i <= n,
                forall|k: int|
                    0 <= k < n ==> (#[trigger] mb.results@[k]).state.wf() && out_set(
                        b,
                        turn,
                        lo,
                        hi,
                    ).contains(mb.results@[k].state@),
                forall|s: Board|
                    #[trigger] out_set(b, turn, lo, hi).contains(s) ==> has_state(mb.results@, s),
                exists|k: int| 0 <= k < n && best_s == (#[trigger] mb.results@[k]).state,
                best_s.wf(),
                best_v as int == eval_at(best_s@, !turn, depth as int - 1),
                forall|k: int|
                    0 <= k < i ==> ok_at((#[trigger] mb.results@[k]).state@, !turn, depth as int - 1),
                forall|k: int|
                    0 <= k < i ==> (if turn {
                        eval_at((#[trigger] mb.results@[k]).state@, !turn, depth as int - 1)
                            >= best_v as int
                    } else {
                        eval_at((#[trigger] mb.results@[k]).state@, !turn, depth as int - 1)
                            <= best_v as int
                    }),
            decreases n - i,
        {
            let cs = mb.results[i].state;
            match self.get_brute_force_eval(cs, !turn, depth - 1) {
                Ok(v) => {
                    let better = if turn {
                        v < best_v
                    } else {
                        v > best_v
                    };
                    if better {
                        best_s = cs;
                        best_v = v;
                        proof {
                            assert(best_s == mb.results@[i as int].state);
                        }
                    }
                },
                Err(_) => {
                    proof {
                        assert(out_set(b, turn, lo, hi).contains(mb.results@[i as int].state@));
                        assert(!ok_at(mb.results@[i as int].state@, !turn, depth as int - 1));
                    }
                    return Err(MoveError::NoLegalMoves);
                },
            }
            i += 1;
        }
        proof {
            assert(out_set(b, turn, lo, hi).contains(mb.results@[0].state@));
            assert forall|s: Board| #[trigger] out_set(b, turn, lo, hi).contains(s) implies ok_at(
                s,
                !turn,
                depth as int - 1,
            ) by {
                assert(has_state(mb.results@, s));
                let k = choose|k: int|
                    0 <= k < mb.results@.len() && (#[trigger] mb.results@[k]).state@ == s;
            }
            assert forall|s: Board| #[trigger] out_set(b, turn, lo, hi).contains(s) implies (
            if turn {
                eval_at(s, !turn, depth as int - 1) >= best_v as int
            } else {
                eval_at(s, !turn, depth as int - 1) <= best_v as int
            }) by {
                assert(has_state(mb.results@, s));
                let k = choose|k: int|
                    0 <= k < mb.results@.len() && (#[trigger] mb.results@[k]).state@ == s;
            }
            assert(out_set(b, turn, lo, hi).contains(best_s@) && best_v as int == eval_at(
                best_s@,
                !turn,
                depth as int - 1,
            ));
            assert(is_best_at(b, turn, lo, hi, depth as int, best_v as int));
        }
        Ok((best_s, best_v))
    }
}

} // verus!
