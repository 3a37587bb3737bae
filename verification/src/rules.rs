//! The rules engine: legality and effect of a single-die move, with the
//! exact error taxonomy, and preservation of the checker-count invariant.

use vstd::prelude::*;
use crate::board::Board;
use crate::board::GameState;
use crate::board::Tile;
use crate::board::lemma_sum_own_nonneg;
use crate::board::lemma_sum_own_point_bound;
use crate::board::lemma_sum_own_two_points;
use crate::board::lemma_sum_own_update;
use crate::board::own_count;
use crate::board::signed_of;
use crate::board::tile_ok;

verus! {

/// Sentinel origin meaning "enter from the bar"; as a listed target it
/// means "bear off". Any other origin outside 0..24 is rejected.
pub const SPECIAL_MOVE: u8 = 99;

/// Why a move is illegal. `do_move` produces the first five;
/// `NoLegalMoves` is the search-level error for a position in which some
/// dice pair admits no move at all.
#[derive(Clone, Copy, PartialEq, Eq, Structural, Debug)]
pub enum MoveError {
    NoPieceToMove,
    TargetOccupiedByOpponent,
    BearOffNotAllowed,
    BearOffBlocked,
    IllegalOrigin,
    NoLegalMoves,
}

/// Point where a captured checker of `turn` re-enters with die `die`.
pub open spec fn entry_point(turn: bool, die: u8) -> int {
    if turn {
        24 - die
    } else {
        die - 1
    }
}

/// Landing point of a checker of `turn` moved from `from` by `die` pips;
/// may fall outside 0..24, which means bearing off.
pub open spec fn target_of(turn: bool, from: u8, die: u8) -> int {
    if turn {
        from - die
    } else {
        from + die
    }
}

/// Pips left for a checker of `turn` standing on `from` to leave the board.
pub open spec fn dist_of(turn: bool, from: u8) -> int {
    if turn {
        from + 1
    } else {
        24 - from
    }
}

/// A made point of the opponent: two or more opposing checkers.
pub open spec fn blocked(b: Board, turn: bool, i: int) -> bool {
    own_count(b.pts[i], !turn) >= 2
}

/// A lone opposing checker that would be hit by landing on `i`.
pub open spec fn hits(b: Board, turn: bool, i: int) -> bool {
    own_count(b.pts[i], !turn) == 1
}

/// The signed count of a single checker of `turn`.
pub open spec fn signed_one(turn: bool) -> int {
    if turn {
        -1
    } else {
        1
    }
}

/// A checker of `turn` stands strictly farther from the exit than `from`
/// within the home region, so an overshooting bear-off from `from` is
/// illegal.
pub open spec fn piece_behind(b: Board, turn: bool, from: u8) -> bool {
    if turn {
        exists|i: int| from < i < 6 && own_count(#[trigger] b.pts[i], true) > 0
    } else {
        exists|i: int| 18 <= i < from && own_count(#[trigger] b.pts[i], false) > 0
    }
}

/// Board after a captured checker of `turn` enters on point `t`
/// (not blocked), hitting a lone opposing checker if one is there.
pub open spec fn enter_result(b: Board, turn: bool, t: int) -> Board {
    let hit = hits(b, turn, t);
    let newv = if hit {
        signed_one(turn)
    } else {
        b.pts[t] + signed_one(turn)
    };
    Board {
        pts: b.pts.update(t, newv),
        cap_light: b.cap_light + (if turn {
            if hit {
                1int
            } else {
                0int
            }
        } else {
            -1int
        }),
        cap_dark: b.cap_dark + (if turn {
            -1int
        } else {
            if hit {
                1int
            } else {
                0int
            }
        }),
        fin_light: b.fin_light,
        fin_dark: b.fin_dark,
    }
}

/// Board after a checker of `turn` slides from `f` to `t` (both on the
/// board, `t` not blocked), hitting a lone opposing checker on `t`.
pub open spec fn slide_result(b: Board, turn: bool, f: int, t: int) -> Board {
    let hit = hits(b, turn, t);
    let newv = if hit {
        signed_one(turn)
    } else {
        b.pts[t] + signed_one(turn)
    };
    Board {
        pts: b.pts.update(f, b.pts[f] - signed_one(turn)).update(t, newv),
        cap_light: b.cap_light + (if turn && hit {
            1int
        } else {
            0int
        }),
        cap_dark: b.cap_dark + (if !turn && hit {
            1int
        } else {
            0int
        }),
        fin_light: b.fin_light,
        fin_dark: b.fin_dark,
    }
}

/// Board after a checker of `turn` bears off from `f`.
pub open spec fn bear_off_result(b: Board, turn: bool, f: int) -> Board {
    Board {
        pts: b.pts.update(f, b.pts[f] - signed_one(turn)),
        cap_light: b.cap_light,
        cap_dark: b.cap_dark,
        fin_light: b.fin_light + (if turn {
            0int
        } else {
            1int
        }),
        fin_dark: b.fin_dark + (if turn {
            1int
        } else {
            0int
        }),
    }
}

/// The exact outcome of applying die `die` to a checker of `turn`
/// originating at `from` (or the bar, for the sentinel origin): either the
/// new board or the reason the move is illegal.
pub open spec fn move_outcome(b: Board, turn: bool, from: u8, die: u8) -> Result<
    Board,
    MoveError,
> {
    if from == SPECIAL_MOVE {
        if b.cap(turn) == 0 {
            Err(MoveError::NoPieceToMove)
        } else {
            let t = entry_point(turn, die);
            if blocked(b, turn, t) {
                Err(MoveError::TargetOccupiedByOpponent)
            } else {
                Ok(enter_result(b, turn, t))
            }
        }
    } else if from < 24 {
        if own_count(b.pts[from as int], turn) == 0 {
            Err(MoveError::NoPieceToMove)
        } else {
            let t = target_of(turn, from, die);
            if 0 <= t < 24 {
                if blocked(b, turn, t) {
                    Err(MoveError::TargetOccupiedByOpponent)
                } else {
                    Ok(slide_result(b, turn, from as int, t))
                }
            } else if !b.all_home(turn) {
                Err(MoveError::BearOffNotAllowed)
            } else if dist_of(turn, from) == die {
                Ok(bear_off_result(b, turn, from as int))
            } else if piece_behind(b, turn, from) {
                Err(MoveError::BearOffBlocked)
            } else {
                Ok(bear_off_result(b, turn, from as int))
            }
        }
    } else {
        Err(MoveError::IllegalOrigin)
    }
}

/// The move is legal.
pub open spec fn move_ok(b: Board, turn: bool, from: u8, die: u8) -> bool {
    move_outcome(b, turn, from, die) is Ok
}

/// The board the move produces (meaningful only when legal).
pub open spec fn move_result(b: Board, turn: bool, from: u8, die: u8) -> Board {
    move_outcome(b, turn, from, die)->Ok_0
}

/// A wasteful move: a bear-off that overshoots, spending more pips than
/// the checker had left. Legal only when forced.
pub open spec fn move_wasteful(b: Board, turn: bool, from: u8, die: u8) -> bool {
    &&& move_ok(b, turn, from, die)
    &&& from != SPECIAL_MOVE
    &&& !(0 <= target_of(turn, from, die) < 24)
    &&& dist_of(turn, from) != die
}

/// Generator-legal move: legal for the rules engine, and entering from
/// the bar first whenever a checker waits there.
pub open spec fn gen_ok(b: Board, turn: bool, from: u8, die: u8) -> bool {
    &&& move_ok(b, turn, from, die)
    &&& 1 <= die <= 6
    &&& b.cap(turn) > 0 ==> from == SPECIAL_MOVE
}

/// A legal move preserves well-formedness and, per side, the total number
/// of checkers (board + bar + borne off) — the conservation invariant.
pub proof fn lemma_move_preserves(b: Board, turn: bool, from: u8, die: u8)
    requires
        b.wf(),
        1 <= die <= 6,
        move_ok(b, turn, from, die),
    ensures
        move_result(b, turn, from, die).wf(),
        move_result(b, turn, from, die).total(false) == b.total(false),
        move_result(b, turn, from, die).total(true) == b.total(true),
{
    let r = move_result(b, turn, from, die);
    lemma_sum_own_nonneg(b.pts, turn);
    lemma_sum_own_nonneg(b.pts, !turn);
    if from == SPECIAL_MOVE {
        let t = entry_point(turn, die);
        let hit = hits(b, turn, t);
        lemma_sum_own_point_bound(b.pts, t, turn);
        lemma_sum_own_update(b.pts, t, r.pts[t], turn);
        lemma_sum_own_update(b.pts, t, r.pts[t], !turn);
        assert(own_count(r.pts[t], turn) == own_count(b.pts[t], turn) + 1);
        assert(own_count(r.pts[t], !turn) == if hit {
            0int
        } else {
            own_count(b.pts[t], !turn)
        });
        assert(sum_own_same(b, r, turn, t));
        assert(sum_own_same(b, r, !turn, t));
    } else {
        let f = from as int;
        let t = target_of(turn, from, die);
        lemma_sum_own_point_bound(b.pts, f, turn);
        if 0 <= t < 24 {
            let hit = hits(b, turn, t);
            let mid = b.pts.update(f, b.pts[f] - signed_one(turn));
            lemma_sum_own_two_points(b.pts, f, t, turn);
            lemma_sum_own_two_points(b.pts, f, t, !turn);
            lemma_sum_own_update(b.pts, f, b.pts[f] - signed_one(turn), turn);
            lemma_sum_own_update(b.pts, f, b.pts[f] - signed_one(turn), !turn);
            lemma_sum_own_update(mid, t, r.pts[t], turn);
            lemma_sum_own_update(mid, t, r.pts[t], !turn);
            assert(own_count(b.pts[f] - signed_one(turn), turn) == own_count(b.pts[f], turn)
                - 1);
            assert(own_count(b.pts[f] - signed_one(turn), !turn) == own_count(
                b.pts[f],
                !turn,
            ));
            assert(own_count(r.pts[t], turn) == own_count(b.pts[t], turn) + 1);
            assert(own_count(r.pts[t], !turn) == if hit {
                0int
            } else {
                own_count(b.pts[t], !turn)
            });
        } else {
            lemma_sum_own_update(b.pts, f, b.pts[f] - signed_one(turn), turn);
            lemma_sum_own_update(b.pts, f, b.pts[f] - signed_one(turn), !turn);
            assert(own_count(b.pts[f] - signed_one(turn), turn) == own_count(b.pts[f], turn)
                - 1);
            assert(own_count(b.pts[f] - signed_one(turn), !turn) == own_count(
                b.pts[f],
                !turn,
            ));
        }
    }
}

/// Helper statement for `lemma_move_preserves`: the side's board count
/// changed exactly as the updated point did.
pub open spec fn sum_own_same(b: Board, r: Board, side: bool, t: int) -> bool {
    crate::board::sum_own(r.pts, side) == crate::board::sum_own(b.pts, side) - own_count(
        b.pts[t],
        side,
    ) + own_count(r.pts[t], side)
}

impl GameState {
    /// How many checkers of `turn` stand on point `i`.
    pub fn own_at(&self, turn: bool, i: usize) -> (r: u8)
        requires
            i < 24,
            self.wf(),
        ensures
            r as int == own_count(self@.pts[i as int], turn),
    {
        proof {
            assert(tile_ok(self.tiles@[i as int]));
            assert(self@.pts[i as int] == signed_of(self.tiles@[i as int]));
        }
        match (self.tiles[i], turn) {
            (Tile::Light(k), false) => k,
            (Tile::Dark(k), true) => k,
            _ => 0,
        }
    }

    /// Whether a checker of `turn` stands strictly farther from the exit
    /// than `from`, inside the home region.
    fn behind(&self, turn: bool, from: u8) -> (r: bool)
        requires
            self.wf(),
            from < 24,
        ensures
            r == piece_behind(self@, turn, from),
    {
        if turn {
            let mut i: usize = from as usize + 1;
            while i < 6
                invariant
                    turn,
                    self.wf(),
                    from < 24,
                    from as usize + 1 <= i,
                    forall|j: int|
                        from < j < i ==> own_count(#[trigger] self@.pts[j], true) == 0,
                decreases 6 - i,
            {
                if self.own_at(true, i) > 0 {
                    proof {
                        assert(exists|j: int|
                            from < j < 6 && own_count(#[trigger] self@.pts[j], true) > 0) by {
                            assert(from < (i as int) < 6 && own_count(
                                self@.pts[i as int],
                                true,
                            ) > 0);
                        }
                        assert(piece_behind(self@, turn, from));
                    }
                    return true;
                }
                i += 1;
            }
            false
        } else {
            let mut i: usize = 18;
            while i < 24 && (i as u8) < from
                invariant
                    !turn,
                    self.wf(),
                    from < 24,
                    18 <= i <= 24,
                    forall|j: int|
                        18 <= j < i && j < from ==> own_count(#[trigger] self@.pts[j], false)
                            == 0,
                decreases 24 - i,
            {
                if self.own_at(false, i) > 0 {
                    proof {
                        assert(exists|j: int|
                            18 <= j < from && own_count(#[trigger] self@.pts[j], false) > 0) by {
                            assert(18 <= (i as int) < from && own_count(
                                self@.pts[i as int],
                                false,
                            ) > 0);
                        }
                        assert(piece_behind(self@, turn, from));
                    }
                    return true;
                }
                i += 1;
            }
            false
        }
    }

    /// Place one checker of `turn` on point `i`, which holds no opposing
    /// checker and at most 14 own checkers.
    fn incr_own(&mut self, turn: bool, i: usize)
        requires
            i < 24,
            forall|j: int| 0 <= j < 24 ==> tile_ok(#[trigger] old(self).tiles@[j]),
            own_count(old(self)@.pts[i as int], !turn) == 0,
            own_count(old(self)@.pts[i as int], turn) <= 14,
        ensures
            forall|j: int| 0 <= j < 24 ==> tile_ok(#[trigger] final(self).tiles@[j]),
            final(self)@.pts =~= old(self)@.pts.update(
                i as int,
                old(self)@.pts[i as int] + signed_one(turn),
            ),
            final(self).captured == old(self).captured,
            final(self).finished == old(self).finished,
    {
        proof {
            assert(tile_ok(self.tiles@[i as int]));
        }
        let newt = if turn {
            match self.tiles[i] {
                Tile::Empty => Tile::Dark(1),
                Tile::Dark(k) => Tile::Dark(k + 1),
                Tile::Light(_) => {
                    proof {
                        assert(false);
                    }
                    Tile::Empty
                },
            }
        } else {
            match self.tiles[i] {
                Tile::Empty => Tile::Light(1),
                Tile::Light(k) => Tile::Light(k + 1),
                Tile::Dark(_) => {
                    proof {
                        assert(false);
                    }
                    Tile::Empty
                },
            }
        };
        self.tiles[i] = newt;
    }

    /// Remove one checker of `turn` from point `i`, which holds at least
    /// one.
    fn decr_own(&mut self, turn: bool, i: usize)
        requires
            i < 24,
            forall|j: int| 0 <= j < 24 ==> tile_ok(#[trigger] old(self).tiles@[j]),
            own_count(old(self)@.pts[i as int], turn) >= 1,
        ensures
            forall|j: int| 0 <= j < 24 ==> tile_ok(#[trigger] final(self).tiles@[j]),
            final(self)@.pts =~= old(self)@.pts.update(
                i as int,
                old(self)@.pts[i as int] - signed_one(turn),
            ),
            final(self).captured == old(self).captured,
            final(self).finished == old(self).finished,
    {
        proof {
            assert(tile_ok(self.tiles@[i as int]));
        }
        let newt = if turn {
            match self.tiles[i] {
                Tile::Dark(k) => if k == 1 {
                    Tile::Empty
                } else {
                    Tile::Dark(k - 1)
                },
                _ => {
                    proof {
                        assert(false);
                    }
                    Tile::Empty
                },
            }
        } else {
            match self.tiles[i] {
                Tile::Light(k) => if k == 1 {
                    Tile::Empty
                } else {
                    Tile::Light(k - 1)
                },
                _ => {
                    proof {
                        assert(false);
                    }
                    Tile::Empty
                },
            }
        };
        self.tiles[i] = newt;
    }

    /// Land one checker of `turn` on point `i`, hitting a lone opposing
    /// checker (which goes to the opponent's bar). `self` may be a
    /// mid-move scratch state; only the tiles and captured counters are
    /// touched.
    fn land_on(&mut self, turn: bool, i: usize)
        requires
            i < 24,
            forall|j: int| 0 <= j < 24 ==> tile_ok(#[trigger] old(self).tiles@[j]),
            own_count(old(self)@.pts[i as int], !turn) <= 1,
            own_count(old(self)@.pts[i as int], turn) <= 14,
            own_count(old(self)@.pts[i as int], !turn) == 1 ==> old(self)@.cap(!turn) <= 14,
        ensures
            forall|j: int| 0 <= j < 24 ==> tile_ok(#[trigger] final(self).tiles@[j]),
            final(self)@.pts =~= old(self)@.pts.update(
                i as int,
                if own_count(old(self)@.pts[i as int], !turn) == 1 {
                    signed_one(turn)
                } else {
                    old(self)@.pts[i as int] + signed_one(turn)
                },
            ),
            final(self)@.cap(turn) == old(self)@.cap(turn),
            final(self)@.cap(!turn) == old(self)@.cap(!turn) + (
            if own_count(old(self)@.pts[i as int], !turn) == 1 {
                1int
            } else {
                0int
            }),
            final(self).finished == old(self).finished,
    {
        let opp = self.own_at_raw(!turn, i);
        if opp == 1 {
            self.tiles[i] = if turn {
                Tile::Dark(1)
            } else {
                Tile::Light(1)
            };
            if turn {
                self.captured[0] = self.captured[0] + 1;
            } else {
                self.captured[1] = self.captured[1] + 1;
            }
        } else {
            self.incr_own(turn, i);
        }
    }

    /// `own_at` without the full well-formedness requirement; used on
    /// mid-move scratch states.
    fn own_at_raw(&self, turn: bool, i: usize) -> (r: u8)
        requires
            i < 24,
            forall|j: int| 0 <= j < 24 ==> tile_ok(#[trigger] self.tiles@[j]),
        ensures
            r as int == own_count(self@.pts[i as int], turn),
    {
        proof {
            assert(tile_ok(self.tiles@[i as int]));
            assert(self@.pts[i as int] == signed_of(self.tiles@[i as int]));
        }
        match (self.tiles[i], turn) {
            (Tile::Light(k), false) => k,
            (Tile::Dark(k), true) => k,
            _ => 0,
        }
    }

    /// Apply die `n` to a checker of `turn` originating at `from` (or the
    /// bar, for the sentinel origin). Returns the new position, or exactly
    /// the error `move_outcome` prescribes. A legal move preserves each
    /// side's total checker count.
    pub fn do_move(&self, turn: bool, from: u8, n: u8) -> (r: Result<GameState, MoveError>)
        requires
            self.wf(),
            1 <= n <= 6,
        ensures
            r is Ok <==> move_ok(self@, turn, from, n),
            r is Ok ==> (r->Ok_0)@ == move_result(self@, turn, from, n),
            r is Ok ==> (r->Ok_0).wf() && (r->Ok_0)@.total(false) == self@.total(false) && (
            r->Ok_0)@.total(true) == self@.total(true),
            r is Err ==> Err::<Board, MoveError>(r->Err_0) == move_outcome(self@, turn, from, n),
    {
        let ghost b = self@;
        proof {
            lemma_sum_own_nonneg(b.pts, turn);
            lemma_sum_own_nonneg(b.pts, !turn);
        }
        if from == SPECIAL_MOVE {
            if self.captured_count(turn) == 0 {
                return Err(MoveError::NoPieceToMove);
            }
            let t: usize = if turn {
                24 - n as usize
            } else {
                n as usize - 1
            };
            proof {
                assert(t as int == entry_point(turn, n));
            }
            let opp = self.own_at(!turn, t);
            if opp >= 2 {
                return Err(MoveError::TargetOccupiedByOpponent);
            }
            let mut s = *self;
            if turn {
                s.captured[1] = s.captured[1] - 1;
            } else {
                s.captured[0] = s.captured[0] - 1;
            }
            proof {
                lemma_sum_own_point_bound(b.pts, t as int, turn);
                lemma_sum_own_point_bound(b.pts, t as int, !turn);
            }
            s.land_on(turn, t);
            proof {
                assert(s@ =~= enter_result(b, turn, t as int));
                lemma_move_preserves(b, turn, from, n);
            }
            Ok(s)
        } else if from < 24 {
            let f = from as usize;
            let mine = self.own_at(turn, f);
            if mine == 0 {
                return Err(MoveError::NoPieceToMove);
            }
            let ti: i32 = if turn {
                from as i32 - n as i32
            } else {
                from as i32 + n as i32
            };
            proof {
                assert(ti as int == target_of(turn, from, n));
            }
            if ti >= 0 && ti < 24 {
                let t = ti as usize;
                let opp = self.own_at(!turn, t);
                if opp >= 2 {
                    return Err(MoveError::TargetOccupiedByOpponent);
                }
                let mut s = *self;
                proof {
                    lemma_sum_own_two_points(b.pts, f as int, t as int, turn);
                    lemma_sum_own_point_bound(b.pts, t as int, !turn);
                }
                s.decr_own(turn, f);
                s.land_on(turn, t);
                proof {
                    assert(s@ =~= slide_result(b, turn, f as int, t as int));
                    lemma_move_preserves(b, turn, from, n);
                }
                Ok(s)
            } else {
                if !self.is_all_home(turn) {
                    return Err(MoveError::BearOffNotAllowed);
                }
                let exact = if turn {
                    from + 1 == n
                } else {
                    24 - from == n
                };
                if !exact {
                    if self.behind(turn, from) {
                        return Err(MoveError::BearOffBlocked);
                    }
                }
                let mut s = *self;
                s.decr_own(turn, f);
                if turn {
                    s.finished[1] = s.finished[1] + 1;
                } else {
                    s.finished[0] = s.finished[0] + 1;
                }
                proof {
                    lemma_sum_own_point_bound(b.pts, f as int, turn);
                    assert(s@ =~= bear_off_result(b, turn, f as int));
                    lemma_move_preserves(b, turn, from, n);
                }
                Ok(s)
            }
        } else {
            Err(MoveError::IllegalOrigin)
        }
    }
}

} // verus!
