//! Mirror symmetry of the whole engine: swapping the sides and reflecting
//! the board commutes with single moves, compound turns, the generator's
//! output set, and the evaluator — whose value is exactly negated.

use vstd::prelude::*;
use crate::board::Board;
use crate::board::home_point;
use crate::board::mirror;
use crate::board::own_count;
use crate::rules::SPECIAL_MOVE;
use crate::rules::bear_off_result;
use crate::rules::blocked;
use crate::rules::dist_of;
use crate::rules::enter_result;
use crate::rules::entry_point;
use crate::rules::gen_ok;
use crate::rules::move_ok;
use crate::rules::move_result;
use crate::rules::move_wasteful;
use crate::rules::piece_behind;
use crate::rules::slide_result;
use crate::rules::target_of;
use crate::evaluator::best_val1;
use crate::evaluator::best_val2;
use crate::evaluator::best_val3;
use crate::evaluator::best_val4;
use crate::evaluator::eval0;
use crate::evaluator::eval1;
use crate::evaluator::eval2;
use crate::evaluator::eval3;
use crate::evaluator::eval4;
use crate::evaluator::eval_at;
use crate::evaluator::has_len;
use crate::evaluator::is_best1;
use crate::evaluator::is_best2;
use crate::evaluator::is_best3;
use crate::evaluator::is_best4;
use crate::evaluator::lemma_best_val1_eq;
use crate::evaluator::lemma_best_val2_eq;
use crate::evaluator::lemma_best_val3_eq;
use crate::evaluator::lemma_best_val4_eq;
use crate::evaluator::lemma_out_set_wf;
use crate::evaluator::ok0;
use crate::evaluator::ok1;
use crate::evaluator::ok2;
use crate::evaluator::ok3;
use crate::evaluator::ok4;
use crate::evaluator::ok_at;
use crate::evaluator::okps1;
use crate::evaluator::okps2;
use crate::evaluator::okps3;
use crate::evaluator::okps4;
use crate::evaluator::out_set;
use crate::evaluator::ps1;
use crate::evaluator::ps2;
use crate::evaluator::ps3;
use crate::evaluator::ps4;
use crate::evaluator::has_lw;
use crate::evaluator::max_len;
use crate::evaluator::min_waste;
use crate::generator::cand;
use crate::generator::seq_ok;
use crate::generator::seq_result;
use crate::generator::seq_waste;

verus! {

/// The origin a move uses on the mirrored board: points reflect, the bar
/// sentinel and ill-formed origins stay themselves.
pub open spec fn mirror_from(f: u8) -> u8 {
    if f < 24 {
        (23 - f) as u8
    } else {
        f
    }
}

/// Mirroring is an involution on boards (up to extensional equality).
pub proof fn lemma_mirror_involutive(b: Board)
    requires
        b.pts.len() == 24,
    ensures
        mirror(mirror(b)) == b,
{
    assert(mirror(mirror(b)).pts =~= b.pts);
    assert(mirror(mirror(b)) =~= b);
}

/// Mirroring swaps the two sides' home tests.
pub proof fn lemma_mirror_all_home(b: Board, turn: bool)
    requires
        b.pts.len() == 24,
    ensures
        mirror(b).all_home(!turn) == b.all_home(turn),
{
    let m = mirror(b);
    if b.all_home(turn) {
        assert forall|i: int|
            0 <= i < 24 && !home_point(i, !turn) implies own_count(
            #[trigger] m.pts[i],
            !turn,
        ) == 0 by {
            assert(m.pts[i] == -b.pts[23 - i]);
            assert(!home_point(23 - i, turn));
            assert(own_count(b.pts[23 - i], turn) == 0);
        }
        assert(m.all_home(!turn));
    }
    if m.all_home(!turn) {
        assert forall|i: int|
            0 <= i < 24 && !home_point(i, turn) implies own_count(
            #[trigger] b.pts[i],
            turn,
        ) == 0 by {
            assert(m.pts[23 - i] == -b.pts[i]);
            assert(!home_point(23 - i, !turn));
            assert(own_count(m.pts[23 - i], !turn) == 0);
        }
        assert(b.all_home(turn));
    }
}

/// Mirroring swaps the blocked-behind tests.
pub proof fn lemma_mirror_behind(b: Board, turn: bool, f: u8)
    requires
        b.pts.len() == 24,
        f < 24,
    ensures
        piece_behind(mirror(b), !turn, mirror_from(f)) == piece_behind(b, turn, f),
{
    let m = mirror(b);
    let g = mirror_from(f);
    if piece_behind(b, turn, f) {
        if turn {
            let i = choose|i: int| f < i < 6 && own_count(#[trigger] b.pts[i], true) > 0;
            assert(m.pts[23 - i] == -b.pts[i]);
            assert(18 <= 23 - i < g && own_count(m.pts[23 - i], false) > 0);
        } else {
            let i = choose|i: int| 18 <= i < f && own_count(#[trigger] b.pts[i], false) > 0;
            assert(m.pts[23 - i] == -b.pts[i]);
            assert(g < 23 - i < 6 && own_count(m.pts[23 - i], true) > 0);
        }
    }
    if piece_behind(m, !turn, g) {
        if !turn {
            let i = choose|i: int| g < i < 6 && own_count(#[trigger] m.pts[i], true) > 0;
            assert(m.pts[i] == -b.pts[23 - i]);
            assert(18 <= 23 - i < f && own_count(b.pts[23 - i], false) > 0);
        } else {
            let i = choose|i: int| 18 <= i < g && own_count(#[trigger] m.pts[i], false) > 0;
            assert(m.pts[i] == -b.pts[23 - i]);
            assert(f < 23 - i < 6 && own_count(b.pts[23 - i], true) > 0);
        }
    }
}

/// A single move commutes with mirroring: the mirrored move is legal on
/// the mirrored board exactly when the move is, equally wasteful, and
/// produces the mirrored result.
pub proof fn lemma_move_mirror(b: Board, turn: bool, f: u8, d: u8)
    requires
        b.wf(),
        1 <= d <= 6,
    ensures
        move_ok(mirror(b), !turn, mirror_from(f), d) == move_ok(b, turn, f, d),
        move_ok(b, turn, f, d) ==> move_result(mirror(b), !turn, mirror_from(f), d) == mirror(
            move_result(b, turn, f, d),
        ),
        move_wasteful(mirror(b), !turn, mirror_from(f), d) == move_wasteful(b, turn, f, d),
        gen_ok(mirror(b), !turn, mirror_from(f), d) == gen_ok(b, turn, f, d),
{
    let m = mirror(b);
    let g = mirror_from(f);
    assert(m.cap(!turn) == b.cap(turn));
    if f == SPECIAL_MOVE {
        if b.cap(turn) != 0 {
            let e = entry_point(turn, d);
            let e2 = entry_point(!turn, d);
            assert(e2 == 23 - e);
            assert(m.pts[e2] == -b.pts[e]);
            assert(blocked(m, !turn, e2) == blocked(b, turn, e));
            if !blocked(b, turn, e) {
                let r = enter_result(b, turn, e);
                let r2 = enter_result(m, !turn, e2);
                assert forall|i: int| 0 <= i < 24 implies r2.pts[i] == -r.pts[23 - i] by {
                    if i != e2 {
                        assert(r2.pts[i] == m.pts[i]);
                        assert(r.pts[23 - i] == b.pts[23 - i]);
                    }
                }
                assert(r2.pts =~= mirror(r).pts);
                assert(r2 =~= mirror(r));
            }
        }
    } else if f < 24 {
        assert(m.pts[g as int] == -b.pts[f as int]);
        assert(own_count(m.pts[g as int], !turn) == own_count(b.pts[f as int], turn));
        if own_count(b.pts[f as int], turn) != 0 {
            let t = target_of(turn, f, d);
            let t2 = target_of(!turn, g, d);
            assert(t2 == 23 - t);
            if 0 <= t < 24 {
                assert(m.pts[t2] == -b.pts[t]);
                assert(blocked(m, !turn, t2) == blocked(b, turn, t));
                if !blocked(b, turn, t) {
                    let r = slide_result(b, turn, f as int, t);
                    let r2 = slide_result(m, !turn, g as int, t2);
                    assert forall|i: int| 0 <= i < 24 implies r2.pts[i] == -r.pts[23 - i] by {
                        if i != t2 && i != g {
                            assert(r2.pts[i] == m.pts[i]);
                            assert(r.pts[23 - i] == b.pts[23 - i]);
                        }
                    }
                    assert(r2.pts =~= mirror(r).pts);
                    assert(r2 =~= mirror(r));
                }
            } else {
                lemma_mirror_all_home(b, turn);
                assert(dist_of(!turn, g) == dist_of(turn, f));
                if b.all_home(turn) {
                    lemma_mirror_behind(b, turn, f);
                    if dist_of(turn, f) == d || !piece_behind(b, turn, f) {
                        let r = bear_off_result(b, turn, f as int);
                        let r2 = bear_off_result(m, !turn, g as int);
                        assert forall|i: int| 0 <= i < 24 implies r2.pts[i] == -r.pts[23
                            - i] by {
                            if i != g {
                                assert(r2.pts[i] == m.pts[i]);
                                assert(r.pts[23 - i] == b.pts[23 - i]);
                            }
                        }
                        assert(r2.pts =~= mirror(r).pts);
                        assert(r2 =~= mirror(r));
                    }
                }
            }
        }
    }
}

/// The mirrored image of a recorded turn: each origin reflects, each die
/// stays.
pub open spec fn mirror_ms(ms: Seq<(u8, u8)>) -> Seq<(u8, u8)> {
    ms.map_values(|m: (u8, u8)| (mirror_from(m.0), m.1))
}

/// Mirroring is well-formedness preserving.
pub proof fn lemma_mirror_wf(b: Board)
    requires
        b.wf(),
    ensures
        mirror(b).wf(),
{
    crate::board::lemma_mirror_net_dist(b);
}

/// A legal turn mirrors to a legal turn with the mirrored result and the
/// same wasteful count.
pub proof fn lemma_seq_mirror(b: Board, turn: bool, ms: Seq<(u8, u8)>)
    requires
        b.wf(),
        seq_ok(b, turn, ms),
    ensures
        seq_ok(mirror(b), !turn, mirror_ms(ms)),
        seq_result(mirror(b), !turn, mirror_ms(ms)) == mirror(seq_result(b, turn, ms)),
        seq_waste(mirror(b), !turn, mirror_ms(ms)) == seq_waste(b, turn, ms),
    decreases ms.len(),
{
    let m = mirror(b);
    let mm = mirror_ms(ms);
    if ms.len() == 0 {
        assert(mm =~= Seq::<(u8, u8)>::empty());
    } else {
        let m0 = ms[0];
        lemma_move_mirror(b, turn, m0.0, m0.1);
        crate::rules::lemma_move_preserves(b, turn, m0.0, m0.1);
        let b1 = move_result(b, turn, m0.0, m0.1);
        let rest = ms.subrange(1, ms.len() as int);
        lemma_seq_mirror(b1, turn, rest);
        assert(mm[0] == (mirror_from(m0.0), m0.1));
        assert(mm.subrange(1, mm.len() as int) =~= mirror_ms(rest));
        assert(move_result(m, !turn, mm[0].0, mm[0].1) == mirror(b1));
    }
}

/// Maximal dice usage and minimal waste are mirror-invariant.
pub proof fn lemma_lens_mirror(b: Board, turn: bool, d0: u8, d1: u8)
    requires
        b.wf(),
    ensures
        max_len(mirror(b), !turn, d0, d1) == max_len(b, turn, d0, d1),
        min_waste(mirror(b), !turn, d0, d1) == min_waste(b, turn, d0, d1),
{
    let m = mirror(b);
    let nt = !turn;
    lemma_mirror_wf(b);
    lemma_mirror_involutive(b);
    assert forall|k: int| has_len(b, turn, d0, d1, k) implies has_len(m, nt, d0, d1, k) by {
        let ms = choose|ms: Seq<(u8, u8)>| #[trigger] cand(b, turn, d0, d1, ms) && ms.len() == k;
        lemma_seq_mirror(b, turn, ms);
        assert(forall|j: int|
            0 <= j < ms.len() ==> (#[trigger] mirror_ms(ms)[j]).1 == ms[j].1);
        assert(cand(m, nt, d0, d1, mirror_ms(ms)) && mirror_ms(ms).len() == k);
    }
    assert forall|k: int| has_len(m, nt, d0, d1, k) implies has_len(b, turn, d0, d1, k) by {
        let ms = choose|ms: Seq<(u8, u8)>| #[trigger] cand(m, nt, d0, d1, ms) && ms.len() == k;
        lemma_seq_mirror(m, nt, ms);
        assert(forall|j: int|
            0 <= j < ms.len() ==> (#[trigger] mirror_ms(ms)[j]).1 == ms[j].1);
        assert(cand(b, turn, d0, d1, mirror_ms(ms)) && mirror_ms(ms).len() == k);
    }
    assert forall|k: int, w: int| has_lw(b, turn, d0, d1, k, w) implies has_lw(
        m,
        nt,
        d0,
        d1,
        k,
        w,
    ) by {
        let ms = choose|ms: Seq<(u8, u8)>|
            #[trigger] cand(b, turn, d0, d1, ms) && ms.len() == k && seq_waste(b, turn, ms) == w;
        lemma_seq_mirror(b, turn, ms);
        assert(forall|j: int|
            0 <= j < ms.len() ==> (#[trigger] mirror_ms(ms)[j]).1 == ms[j].1);
        assert(cand(m, nt, d0, d1, mirror_ms(ms)) && mirror_ms(ms).len() == k && seq_waste(
            m,
            nt,
            mirror_ms(ms),
        ) == w);
    }
    assert forall|k: int, w: int| has_lw(m, nt, d0, d1, k, w) implies has_lw(
        b,
        turn,
        d0,
        d1,
        k,
        w,
    ) by {
        let ms = choose|ms: Seq<(u8, u8)>|
            #[trigger] cand(m, nt, d0, d1, ms) && ms.len() == k && seq_waste(m, nt, ms) == w;
        lemma_seq_mirror(m, nt, ms);
        assert(forall|j: int|
            0 <= j < ms.len() ==> (#[trigger] mirror_ms(ms)[j]).1 == ms[j].1);
        assert(cand(b, turn, d0, d1, mirror_ms(ms)) && mirror_ms(ms).len() == k && seq_waste(
            b,
            turn,
            mirror_ms(ms),
        ) == w);
    }
}

/// The generator's output set mirrors pointwise: `m` and `nt` name the
/// mirrored board and the opposite side.
pub proof fn lemma_out_mirror(b: Board, m: Board, turn: bool, nt: bool, d0: u8, d1: u8)
    requires
        b.wf(),
        m == mirror(b),
        nt == !turn,
    ensures
        forall|s: Board|
            #[trigger] out_set(b, turn, d0, d1).contains(s) ==> out_set(m, nt, d0, d1).contains(
                mirror(s),
            ),
        forall|s: Board|
            #[trigger] out_set(m, nt, d0, d1).contains(s) ==> out_set(b, turn, d0, d1).contains(
                mirror(s),
            ) && mirror(mirror(s)) == s,
{
    reveal(out_set);
    lemma_mirror_wf(b);
    lemma_mirror_involutive(b);
    lemma_lens_mirror(b, turn, d0, d1);
    assert forall|s: Board| #[trigger] out_set(b, turn, d0, d1).contains(s) implies out_set(
        m,
        nt,
        d0,
        d1,
    ).contains(mirror(s)) by {
        let ms = choose|ms: Seq<(u8, u8)>|
            #[trigger] cand(b, turn, d0, d1, ms) && ms.len() == max_len(b, turn, d0, d1)
                && ms.len() >= 1 && seq_waste(b, turn, ms) == min_waste(b, turn, d0, d1)
                && seq_result(b, turn, ms) == s;
        lemma_seq_mirror(b, turn, ms);
        assert(forall|j: int|
            0 <= j < ms.len() ==> (#[trigger] mirror_ms(ms)[j]).1 == ms[j].1);
        assert(cand(m, nt, d0, d1, mirror_ms(ms)));
        assert(seq_result(m, nt, mirror_ms(ms)) == mirror(s));
    }
    assert forall|s: Board| #[trigger] out_set(m, nt, d0, d1).contains(s) implies out_set(
        b,
        turn,
        d0,
        d1,
    ).contains(mirror(s)) && mirror(mirror(s)) == s by {
        let ms = choose|ms: Seq<(u8, u8)>|
            #[trigger] cand(m, nt, d0, d1, ms) && ms.len() == max_len(m, nt, d0, d1)
                && ms.len() >= 1 && seq_waste(m, nt, ms) == min_waste(m, nt, d0, d1)
                && seq_result(m, nt, ms) == s;
        lemma_seq_mirror(m, nt, ms);
        assert(forall|j: int|
            0 <= j < ms.len() ==> (#[trigger] mirror_ms(ms)[j]).1 == ms[j].1);
        assert(cand(b, turn, d0, d1, mirror_ms(ms)));
        assert(seq_result(b, turn, mirror_ms(ms)) == mirror(s));
        crate::generator::lemma_seq_wf(m, nt, ms);
        lemma_mirror_involutive(s);
    }
}

/// Depth-0 mirror antisymmetry: the net pip differential negates.
pub proof fn lemma_eval0_mirror(b: Board, m: Board, turn: bool, nt: bool)
    requires
        b.wf(),
        m == mirror(b),
        nt == !turn,
    ensures
        eval0(m, nt) == -eval0(b, turn),
        ok0(m, nt) == ok0(b, turn),
{
    crate::board::lemma_mirror_net_dist(b);
}

/// A depth-1 best value of a roll negates on the mirrored board.
pub proof fn lemma_is_best1_mirror(
    b: Board,
    m: Board,
    turn: bool,
    nt: bool,
    du: u8,
    dv: u8,
    v: int,
)
    requires
        b.wf(),
        m == mirror(b),
        nt == !turn,
        is_best1(b, turn, du, dv, v),
    ensures
        is_best1(m, nt, du, dv, -v),
{
    lemma_mirror_wf(b);
    lemma_out_mirror(b, m, turn, nt, du, dv);
    lemma_out_set_wf(b, turn, du, dv);
    let s0 = choose|s: Board|
        #[trigger] out_set(b, turn, du, dv).contains(s) && v == eval0(s, !turn);
    assert(out_set(m, nt, du, dv).contains(mirror(s0)));
    lemma_eval0_mirror(s0, mirror(s0), !turn, turn);
    assert(eval0(mirror(s0), !nt) == -v);
    assert forall|s: Board| #[trigger] out_set(m, nt, du, dv).contains(s) implies (if nt {
        eval0(s, !nt) >= -v
    } else {
        eval0(s, !nt) <= -v
    }) by {
        assert(out_set(b, turn, du, dv).contains(mirror(s)) && mirror(mirror(s)) == s);
        lemma_eval0_mirror(mirror(s), s, !turn, turn);
        assert(eval0(s, !nt) == -eval0(mirror(s), !turn));
    }
}

/// Depth-1 pair sums negate and the stuck-freedom scan is invariant on
/// the mirrored board.
pub proof fn lemma_ps1_mirror(b: Board, m: Board, turn: bool, nt: bool, d1: int, d2: int)
    requires
        b.wf(),
        m == mirror(b),
        nt == !turn,
    ensures
        ps1(m, nt, d1, d2) == -ps1(b, turn, d1, d2),
        okps1(m, nt, d1, d2) == okps1(b, turn, d1, d2),
    decreases 7 - d1, 7 - d2,
{
    reveal(ps1);
    reveal(okps1);
    lemma_mirror_wf(b);
    lemma_mirror_involutive(b);
    if 1 <= d1 <= 6 && d1 <= d2 <= 6 {
        let du = d1 as u8;
        let dv = d2 as u8;
        lemma_out_mirror(b, m, turn, nt, du, dv);
        lemma_out_set_wf(b, turn, du, dv);
        lemma_out_set_wf(m, nt, du, dv);
        // The best values negate.
        if exists|v: int| #[trigger] is_best1(b, turn, du, dv, v) {
            let bv = best_val1(b, turn, du, dv);
            assert(is_best1(b, turn, du, dv, bv));
            lemma_is_best1_mirror(b, m, turn, nt, du, dv, bv);
            lemma_best_val1_eq(m, nt, du, dv, -bv);
        } else {
            if exists|v: int| #[trigger] is_best1(m, nt, du, dv, v) {
                let v2 = choose|v: int| #[trigger] is_best1(m, nt, du, dv, v);
                lemma_is_best1_mirror(m, b, nt, turn, du, dv, v2);
                assert(false);
            }
            assert(best_val1(b, turn, du, dv) == 0 && best_val1(m, nt, du, dv) == 0);
        }
        // The per-roll stuck-freedom facts transfer both ways.
        if exists|s: Board| #[trigger] out_set(b, turn, du, dv).contains(s) {
            let s0 = choose|s: Board| #[trigger] out_set(b, turn, du, dv).contains(s);
            assert(out_set(m, nt, du, dv).contains(mirror(s0)));
        }
        if exists|s: Board| #[trigger] out_set(m, nt, du, dv).contains(s) {
            let s0 = choose|s: Board| #[trigger] out_set(m, nt, du, dv).contains(s);
            assert(out_set(b, turn, du, dv).contains(mirror(s0)));
        }
        assert forall|s: Board| #[trigger] out_set(m, nt, du, dv).contains(s) implies (ok0(
            s,
            !nt,
        ) == ok0(mirror(s), !turn)) by {
            lemma_eval0_mirror(mirror(s), s, !turn, turn);
        }
        assert forall|s: Board| #[trigger] out_set(b, turn, du, dv).contains(s) implies (ok0(
            s,
            !turn,
        ) == ok0(mirror(s), !nt)) by {
            lemma_eval0_mirror(s, mirror(s), !turn, turn);
        }
        if d2 < 6 {
            lemma_ps1_mirror(b, m, turn, nt, d1, d2 + 1);
        } else {
            lemma_ps1_mirror(b, m, turn, nt, d1 + 1, d1 + 1);
        }
    }
}

/// Depth-1 mirror antisymmetry: the scaled expectimax value negates and
/// stuck-freedom is preserved.
pub proof fn lemma_eval1_mirror(b: Board, m: Board, turn: bool, nt: bool)
    requires
        b.wf(),
        m == mirror(b),
        nt == !turn,
    ensures
        eval1(m, nt) == -eval1(b, turn),
        ok1(m, nt) == ok1(b, turn),
{
    lemma_ps1_mirror(b, m, turn, nt, 1, 1);
}

/// A depth-2 best value of a roll negates on the mirrored board.
pub proof fn lemma_is_best2_mirror(
    b: Board,
    m: Board,
    turn: bool,
    nt: bool,
    du: u8,
    dv: u8,
    v: int,
)
    requires
        b.wf(),
        m == mirror(b),
        nt == !turn,
        is_best2(b, turn, du, dv, v),
    ensures
        is_best2(m, nt, du, dv, -v),
{
    lemma_mirror_wf(b);
    lemma_out_mirror(b, m, turn, nt, du, dv);
    lemma_out_set_wf(b, turn, du, dv);
    let s0 = choose|s: Board|
        #[trigger] out_set(b, turn, du, dv).contains(s) && v == eval1(s, !turn);
    assert(out_set(m, nt, du, dv).contains(mirror(s0)));
    lemma_eval1_mirror(s0, mirror(s0), !turn, turn);
    assert(eval1(mirror(s0), !nt) == -v);
    assert forall|s: Board| #[trigger] out_set(m, nt, du, dv).contains(s) implies (if nt {
        eval1(s, !nt) >= -v
    } else {
        eval1(s, !nt) <= -v
    }) by {
        assert(out_set(b, turn, du, dv).contains(mirror(s)) && mirror(mirror(s)) == s);
        lemma_eval1_mirror(mirror(s), s, !turn, turn);
        assert(eval1(s, !nt) == -eval1(mirror(s), !turn));
    }
}

/// Depth-2 pair sums negate and the stuck-freedom scan is invariant on
/// the mirrored board.
pub proof fn lemma_ps2_mirror(b: Board, m: Board, turn: bool, nt: bool, d1: int, d2: int)
    requires
        b.wf(),
        m == mirror(b),
        nt == !turn,
    ensures
        ps2(m, nt, d1, d2) == -ps2(b, turn, d1, d2),
        okps2(m, nt, d1, d2) == okps2(b, turn, d1, d2),
    decreases 7 - d1, 7 - d2,
{
    reveal(ps2);
    reveal(okps2);
    lemma_mirror_wf(b);
    lemma_mirror_involutive(b);
    if 1 <= d1 <= 6 && d1 <= d2 <= 6 {
        let du = d1 as u8;
        let dv = d2 as u8;
        lemma_out_mirror(b, m, turn, nt, du, dv);
        lemma_out_set_wf(b, turn, du, dv);
        lemma_out_set_wf(m, nt, du, dv);
        // The best values negate.
        if exists|v: int| #[trigger] is_best2(b, turn, du, dv, v) {
            let bv = best_val2(b, turn, du, dv);
            assert(is_best2(b, turn, du, dv, bv));
            lemma_is_best2_mirror(b, m, turn, nt, du, dv, bv);
            lemma_best_val2_eq(m, nt, du, dv, -bv);
        } else {
            if exists|v: int| #[trigger] is_best2(m, nt, du, dv, v) {
                let v2 = choose|v: int| #[trigger] is_best2(m, nt, du, dv, v);
                lemma_is_best2_mirror(m, b, nt, turn, du, dv, v2);
                assert(false);
            }
            assert(best_val2(b, turn, du, dv) == 0 && best_val2(m, nt, du, dv) == 0);
        }
        // The per-roll stuck-freedom facts transfer both ways.
        if exists|s: Board| #[trigger] out_set(b, turn, du, dv).contains(s) {
            let s0 = choose|s: Board| #[trigger] out_set(b, turn, du, dv).contains(s);
            assert(out_set(m, nt, du, dv).contains(mirror(s0)));
        }
        if exists|s: Board| #[trigger] out_set(m, nt, du, dv).contains(s) {
            let s0 = choose|s: Board| #[trigger] out_set(m, nt, du, dv).contains(s);
            assert(out_set(b, turn, du, dv).contains(mirror(s0)));
        }
        assert forall|s: Board| #[trigger] out_set(m, nt, du, dv).contains(s) implies (ok1(
            s,
            !nt,
        ) == ok1(mirror(s), !turn)) by {
            lemma_eval1_mirror(mirror(s), s, !turn, turn);
        }
        assert forall|s: Board| #[trigger] out_set(b, turn, du, dv).contains(s) implies (ok1(
            s,
            !turn,
        ) == ok1(mirror(s), !nt)) by {
            lemma_eval1_mirror(s, mirror(s), !turn, turn);
        }
        if d2 < 6 {
            lemma_ps2_mirror(b, m, turn, nt, d1, d2 + 1);
        } else {
            lemma_ps2_mirror(b, m, turn, nt, d1 + 1, d1 + 1);
        }
    }
}

/// Depth-2 mirror antisymmetry: the scaled expectimax value negates and
/// stuck-freedom is preserved.
pub proof fn lemma_eval2_mirror(b: Board, m: Board, turn: bool, nt: bool)
    requires
        b.wf(),
        m == mirror(b),
        nt == !turn,
    ensures
        eval2(m, nt) == -eval2(b, turn),
        ok2(m, nt) == ok2(b, turn),
{
    lemma_ps2_mirror(b, m, turn, nt, 1, 1);
}

/// A depth-3 best value of a roll negates on the mirrored board.
pub proof fn lemma_is_best3_mirror(
    b: Board,
    m: Board,
    turn: bool,
    nt: bool,
    du: u8,
    dv: u8,
    v: int,
)
    requires
        b.wf(),
        m == mirror(b),
        nt == !turn,
        is_best3(b, turn, du, dv, v),
    ensures
        is_best3(m, nt, du, dv, -v),
{
    lemma_mirror_wf(b);
    lemma_out_mirror(b, m, turn, nt, du, dv);
    lemma_out_set_wf(b, turn, du, dv);
    let s0 = choose|s: Board|
        #[trigger] out_set(b, turn, du, dv).contains(s) && v == eval2(s, !turn);
    assert(out_set(m, nt, du, dv).contains(mirror(s0)));
    lemma_eval2_mirror(s0, mirror(s0), !turn, turn);
    assert(eval2(mirror(s0), !nt) == -v);
    assert forall|s: Board| #[trigger] out_set(m, nt, du, dv).contains(s) implies (if nt {
        eval2(s, !nt) >= -v
    } else {
        eval2(s, !nt) <= -v
    }) by {
        assert(out_set(b, turn, du, dv).contains(mirror(s)) && mirror(mirror(s)) == s);
        lemma_eval2_mirror(mirror(s), s, !turn, turn);
        assert(eval2(s, !nt) == -eval2(mirror(s), !turn));
    }
}

/// Depth-3 pair sums negate and the stuck-freedom scan is invariant on
/// the mirrored board.
pub proof fn lemma_ps3_mirror(b: Board, m: Board, turn: bool, nt: bool, d1: int, d2: int)
    requires
        b.wf(),
        m == mirror(b),
        nt == !turn,
    ensures
        ps3(m, nt, d1, d2) == -ps3(b, turn, d1, d2),
        okps3(m, nt, d1, d2) == okps3(b, turn, d1, d2),
    decreases 7 - d1, 7 - d2,
{
    reveal(ps3);
    reveal(okps3);
    lemma_mirror_wf(b);
    lemma_mirror_involutive(b);
    if 1 <= d1 <= 6 && d1 <= d2 <= 6 {
        let du = d1 as u8;
        let dv = d2 as u8;
        lemma_out_mirror(b, m, turn, nt, du, dv);
        lemma_out_set_wf(b, turn, du, dv);
        lemma_out_set_wf(m, nt, du, dv);
        // The best values negate.
        if exists|v: int| #[trigger] is_best3(b, turn, du, dv, v) {
            let bv = best_val3(b, turn, du, dv);
            assert(is_best3(b, turn, du, dv, bv));
            lemma_is_best3_mirror(b, m, turn, nt, du, dv, bv);
            lemma_best_val3_eq(m, nt, du, dv, -bv);
        } else {
            if exists|v: int| #[trigger] is_best3(m, nt, du, dv, v) {
                let v2 = choose|v: int| #[trigger] is_best3(m, nt, du, dv, v);
                lemma_is_best3_mirror(m, b, nt, turn, du, dv, v2);
                assert(false);
            }
            assert(best_val3(b, turn, du, dv) == 0 && best_val3(m, nt, du, dv) == 0);
        }
        // The per-roll stuck-freedom facts transfer both ways.
        if exists|s: Board| #[trigger] out_set(b, turn, du, dv).contains(s) {
            let s0 = choose|s: Board| #[trigger] out_set(b, turn, du, dv).contains(s);
            assert(out_set(m, nt, du, dv).contains(mirror(s0)));
        }
        if exists|s: Board| #[trigger] out_set(m, nt, du, dv).contains(s) {
            let s0 = choose|s: Board| #[trigger] out_set(m, nt, du, dv).contains(s);
            assert(out_set(b, turn, du, dv).contains(mirror(s0)));
        }
        assert forall|s: Board| #[trigger] out_set(m, nt, du, dv).contains(s) implies (ok2(
            s,
            !nt,
        ) == ok2(mirror(s), !turn)) by {
            lemma_eval2_mirror(mirror(s), s, !turn, turn);
        }
        assert forall|s: Board| #[trigger] out_set(b, turn, du, dv).contains(s) implies (ok2(
            s,
            !turn,
        ) == ok2(mirror(s), !nt)) by {
            lemma_eval2_mirror(s, mirror(s), !turn, turn);
        }
        if d2 < 6 {
            lemma_ps3_mirror(b, m, turn, nt, d1, d2 + 1);
        } else {
            lemma_ps3_mirror(b, m, turn, nt, d1 + 1, d1 + 1);
        }
    }
}

/// Depth-3 mirror antisymmetry: the scaled expectimax value negates and
/// stuck-freedom is preserved.
pub proof fn lemma_eval3_mirror(b: Board, m: Board, turn: bool, nt: bool)
    requires
        b.wf(),
        m == mirror(b),
        nt == !turn,
    ensures
        eval3(m, nt) == -eval3(b, turn),
        ok3(m, nt) == ok3(b, turn),
{
    lemma_ps3_mirror(b, m, turn, nt, 1, 1);
}

/// A depth-4 best value of a roll negates on the mirrored board.
pub proof fn lemma_is_best4_mirror(
    b: Board,
    m: Board,
    turn: bool,
    nt: bool,
    du: u8,
    dv: u8,
    v: int,
)
    requires
        b.wf(),
        m == mirror(b),
        nt == !turn,
        is_best4(b, turn, du, dv, v),
    ensures
        is_best4(m, nt, du, dv, -v),
{
    lemma_mirror_wf(b);
    lemma_out_mirror(b, m, turn, nt, du, dv);
    lemma_out_set_wf(b, turn, du, dv);
    let s0 = choose|s: Board|
        #[trigger] out_set(b, turn, du, dv).contains(s) && v == eval3(s, !turn);
    assert(out_set(m, nt, du, dv).contains(mirror(s0)));
    lemma_eval3_mirror(s0, mirror(s0), !turn, turn);
    assert(eval3(mirror(s0), !nt) == -v);
    assert forall|s: Board| #[trigger] out_set(m, nt, du, dv).contains(s) implies (if nt {
        eval3(s, !nt) >= -v
    } else {
        eval3(s, !nt) <= -v
    }) by {
        assert(out_set(b, turn, du, dv).contains(mirror(s)) && mirror(mirror(s)) == s);
        lemma_eval3_mirror(mirror(s), s, !turn, turn);
        assert(eval3(s, !nt) == -eval3(mirror(s), !turn));
    }
}

/// Depth-4 pair sums negate and the stuck-freedom scan is invariant on
/// the mirrored board.
pub proof fn lemma_ps4_mirror(b: Board, m: Board, turn: bool, nt: bool, d1: int, d2: int)
    requires
        b.wf(),
        m == mirror(b),
        nt == !turn,
    ensures
        ps4(m, nt, d1, d2) == -ps4(b, turn, d1, d2),
        okps4(m, nt, d1, d2) == okps4(b, turn, d1, d2),
    decreases 7 - d1, 7 - d2,
{
    reveal(ps4);
    reveal(okps4);
    lemma_mirror_wf(b);
    lemma_mirror_involutive(b);
    if 1 <= d1 <= 6 && d1 <= d2 <= 6 {
        let du = d1 as u8;
        let dv = d2 as u8;
        lemma_out_mirror(b, m, turn, nt, du, dv);
        lemma_out_set_wf(b, turn, du, dv);
        lemma_out_set_wf(m, nt, du, dv);
        // The best values negate.
        if exists|v: int| #[trigger] is_best4(b, turn, du, dv, v) {
            let bv = best_val4(b, turn, du, dv);
            assert(is_best4(b, turn, du, dv, bv));
            lemma_is_best4_mirror(b, m, turn, nt, du, dv, bv);
            lemma_best_val4_eq(m, nt, du, dv, -bv);
        } else {
            if exists|v: int| #[trigger] is_best4(m, nt, du, dv, v) {
                let v2 = choose|v: int| #[trigger] is_best4(m, nt, du, dv, v);
                lemma_is_best4_mirror(m, b, nt, turn, du, dv, v2);
                assert(false);
            }
            assert(best_val4(b, turn, du, dv) == 0 && best_val4(m, nt, du, dv) == 0);
        }
        // The per-roll stuck-freedom facts transfer both ways.
        if exists|s: Board| #[trigger] out_set(b, turn, du, dv).contains(s) {
            let s0 = choose|s: Board| #[trigger] out_set(b, turn, du, dv).contains(s);
            assert(out_set(m, nt, du, dv).contains(mirror(s0)));
        }
        if exists|s: Board| #[trigger] out_set(m, nt, du, dv).contains(s) {
            let s0 = choose|s: Board| #[trigger] out_set(m, nt, du, dv).contains(s);
            assert(out_set(b, turn, du, dv).contains(mirror(s0)));
        }
        assert forall|s: Board| #[trigger] out_set(m, nt, du, dv).contains(s) implies (ok3(
            s,
            !nt,
        ) == ok3(mirror(s), !turn)) by {
            lemma_eval3_mirror(mirror(s), s, !turn, turn);
        }
        assert forall|s: Board| #[trigger] out_set(b, turn, du, dv).contains(s) implies (ok3(
            s,
            !turn,
        ) == ok3(mirror(s), !nt)) by {
            lemma_eval3_mirror(s, mirror(s), !turn, turn);
        }
        if d2 < 6 {
            lemma_ps4_mirror(b, m, turn, nt, d1, d2 + 1);
        } else {
            lemma_ps4_mirror(b, m, turn, nt, d1 + 1, d1 + 1);
        }
    }
}

/// Depth-4 mirror antisymmetry: the scaled expectimax value negates and
/// stuck-freedom is preserved.
pub proof fn lemma_eval4_mirror(b: Board, m: Board, turn: bool, nt: bool)
    requires
        b.wf(),
        m == mirror(b),
        nt == !turn,
    ensures
        eval4(m, nt) == -eval4(b, turn),
        ok4(m, nt) == ok4(b, turn),
{
    lemma_ps4_mirror(b, m, turn, nt, 1, 1);
}

/// Mirror symmetry of the whole search: evaluating a position and its
/// side-swapped mirror yields negated values at every supported depth,
/// and the mirrored search gets stuck exactly when the original does.
pub proof fn lemma_mirror_eval(b: Board, turn: bool, d: int)
    requires
        b.wf(),
        0 <= d <= 4,
    ensures
        eval_at(mirror(b), !turn, d) == -eval_at(b, turn, d),
        ok_at(mirror(b), !turn, d) == ok_at(b, turn, d),
{
    let m = mirror(b);
    let nt = !turn;
    if d <= 0 {
        lemma_eval0_mirror(b, m, turn, nt);
    } else if d == 1 {
        lemma_eval1_mirror(b, m, turn, nt);
    } else if d == 2 {
        lemma_eval2_mirror(b, m, turn, nt);
    } else if d == 3 {
        lemma_eval3_mirror(b, m, turn, nt);
    } else {
        lemma_eval4_mirror(b, m, turn, nt);
    }
}

} // verus!
