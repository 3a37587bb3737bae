//! Single-die move listing: all generator-legal moves of one die from a
//! position, with the "wasteful" classification used by the compound-turn
//! generator. A wasteful move is an overshooting bear-off; it is legal only
//! when it is the sole legal move of that die, which `lemma_wasteful_unique`
//! proves.

use vstd::prelude::*;
use crate::board::Board;
use crate::board::GameState;
use crate::board::own_count;
use crate::rules::SPECIAL_MOVE;
use crate::rules::dist_of;
use crate::rules::entry_point;
use crate::rules::gen_ok;
use crate::rules::move_ok;
use crate::rules::move_wasteful;
use crate::rules::piece_behind;
use crate::rules::target_of;

verus! {

/// The target recorded for a listed move: the entry point for a bar entry,
/// the landing point for a slide, the sentinel for a bear-off.
pub open spec fn listed_to(turn: bool, from: u8, die: u8) -> u8 {
    if from == SPECIAL_MOVE {
        entry_point(turn, die) as u8
    } else if 0 <= target_of(turn, from, die) < 24 {
        target_of(turn, from, die) as u8
    } else {
        SPECIAL_MOVE
    }
}

/// A legal overshooting bear-off is the only legal move of its die: every
/// checker then sits at or past the bear-off point with too few pips left,
/// so any other origin is empty, outside home, or blocked by this one.
pub proof fn lemma_wasteful_unique(b: Board, turn: bool, f: u8, g: u8, die: u8)
    requires
        b.wf(),
        1 <= die <= 6,
        move_wasteful(b, turn, f, die),
        move_ok(b, turn, g, die),
    ensures
        g == f,
{
    assert(b.all_home(turn));
    assert(own_count(b.pts[f as int], turn) > 0);
    if g != f {
        assert(g != SPECIAL_MOVE);
        assert(g < 24);
        assert(own_count(b.pts[g as int], turn) > 0);
        if turn {
            // Dark: home is 0..6, exit past 0; farther from exit = higher index.
            assert(crate::board::home_point(g as int, true));
            assert(f < 6);
            if g > f {
                assert(f < g as int && (g as int) < 6 && own_count(b.pts[g as int], true) > 0);
                assert(piece_behind(b, turn, f));
                assert(false);
            } else {
                assert(g < f);
                assert(dist_of(true, g) < die);
                assert(!(0 <= target_of(true, g, die) < 24));
                assert((g as int) < f as int && (f as int) < 6 && own_count(
                    b.pts[f as int],
                    true,
                ) > 0);
                assert(piece_behind(b, turn, g));
                assert(false);
            }
        } else {
            // Light: home is 18..24, exit past 23; farther from exit = lower index.
            assert(crate::board::home_point(g as int, false));
            assert(f >= 18);
            if g < f {
                assert(18 <= g as int && (g as int) < f as int && own_count(
                    b.pts[g as int],
                    false,
                ) > 0);
                assert(piece_behind(b, turn, f));
                assert(false);
            } else {
                assert(g > f);
                assert(dist_of(false, g) < die);
                assert(!(0 <= target_of(false, g, die) < 24));
                assert(18 <= f as int && (f as int) < g as int && own_count(
                    b.pts[f as int],
                    false,
                ) > 0);
                assert(piece_behind(b, turn, g));
                assert(false);
            }
        }
    }
}

impl GameState {
    /// List every generator-legal move of one die: each entry is
    /// `(origin, target)` with the bar/bear-off sentinel, the list is
    /// complete, and the returned flag says whether the listed moves are
    /// wasteful (overshooting bear-offs) — equivalently, whether any
    /// generator-legal move of this die is.
    pub fn get_possible_moves(&self, turn: bool, die: u8, moves: &mut Vec<(u8, u8)>) -> (wasteful:
        bool)
        requires
            self.wf(),
            1 <= die <= 6,
        ensures
            forall|k: int|
                0 <= k < final(moves)@.len() ==> gen_ok(
                    self@,
                    turn,
                    (#[trigger] final(moves)@[k]).0,
                    die,
                ) && final(moves)@[k].1 == listed_to(turn, final(moves)@[k].0, die),
            forall|f: u8|
                gen_ok(self@, turn, f, die) ==> final(moves)@.contains(
                    (f, listed_to(turn, f, die)),
                ),
            forall|f: u8|
                gen_ok(self@, turn, f, die) ==> (move_wasteful(self@, turn, f, die) <==> wasteful),
            wasteful ==> final(moves)@.len() > 0,
    {
        moves.clear();
        let ghost b = self@;
        if self.captured_count(turn) > 0 {
            match self.do_move(turn, SPECIAL_MOVE, die) {
                Ok(_) => {
                    let to: u8 = if turn {
                        24 - die
                    } else {
                        die - 1
                    };
                    moves.push((SPECIAL_MOVE, to));
                    proof {
                        assert(moves@[0] == (SPECIAL_MOVE, to));
                        assert(moves@.contains((SPECIAL_MOVE, to)));
                    }
                },
                Err(_) => {},
            }
            proof {
                assert forall|f: u8| gen_ok(b, turn, f, die) implies moves@.contains(
                    (f, listed_to(turn, f, die)),
                ) by {
                    assert(f == SPECIAL_MOVE);
                }
            }
            false
        } else {
            let mut wasteful = false;
            let mut from: u8 = 0;
            while from < 24
                invariant
                    self.wf(),
                    b == self@,
                    b.cap(turn) == 0,
                    1 <= die <= 6,
                    0 <= from <= 24,
                    forall|k: int|
                        0 <= k < moves@.len() ==> gen_ok(b, turn, (#[trigger] moves@[k]).0, die)
                            && moves@[k].1 == listed_to(turn, moves@[k].0, die),
                    forall|f: u8|
                        f < from && gen_ok(b, turn, f, die) ==> moves@.contains(
                            (f, listed_to(turn, f, die)),
                        ),
                    wasteful <==> (exists|f: u8|
                        f < from && gen_ok(b, turn, f, die) && move_wasteful(b, turn, f, die)),
                    wasteful ==> moves@.len() > 0,
                decreases 24 - from,
            {
                let ghost pre = moves@;
                match self.do_move(turn, from, die) {
                    Ok(_) => {
                        let ti: i32 = if turn {
                            from as i32 - die as i32
                        } else {
                            from as i32 + die as i32
                        };
                        let to: u8 = if ti >= 0 && ti < 24 {
                            ti as u8
                        } else {
                            SPECIAL_MOVE
                        };
                        let exact = if turn {
                            from + 1 == die
                        } else {
                            24 - from == die
                        };
                        moves.push((from, to));
                        proof {
                            assert(to == listed_to(turn, from, die));
                            assert(moves@ == pre.push((from, to)));
                            assert(moves@[pre.len() as int] == (from, to));
                            assert(moves@.contains((from, to)));
                            assert forall|m: (u8, u8)| pre.contains(m) implies moves@.contains(
                                m,
                            ) by {
                                let k = choose|k: int| 0 <= k < pre.len() && pre[k] == m;
                                assert(moves@[k] == m);
                            }
                        }
                        if to == SPECIAL_MOVE && !exact {
                            wasteful = true;
                            proof {
                                assert(move_wasteful(b, turn, from, die));
                            }
                        }
                    },
                    Err(_) => {},
                }
                from += 1;
            }
            proof {
                if wasteful {
                    let m0 = choose|f: u8|
                        f < 24 && gen_ok(b, turn, f, die) && move_wasteful(b, turn, f, die);
                    assert forall|f: u8| gen_ok(b, turn, f, die) implies (move_wasteful(
                        b,
                        turn,
                        f,
                        die,
                    ) <==> true) by {
                        lemma_wasteful_unique(b, turn, m0, f, die);
                    }
                } else {
                    assert forall|f: u8| gen_ok(b, turn, f, die) implies !move_wasteful(
                        b,
                        turn,
                        f,
                        die,
                    ) by {
                        if f < 24 {
                            assert(!(f < 24 && gen_ok(b, turn, f, die) && move_wasteful(
                                b,
                                turn,
                                f,
                                die,
                            )));
                        } else {
                            assert(!move_ok(b, turn, f, die) || f == SPECIAL_MOVE);
                        }
                    }
                }
            }
            wasteful
        }
    }
}

} // verus!
