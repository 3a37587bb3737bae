//! Board state: 24 points, captured and finished counters per side, with a
//! mathematical model (`Board`) of signed occupancy counts, total pip
//! distances and the all-home predicate.
//!
//! Side convention throughout the crate: `turn == false` is Light, which
//! moves toward higher point indices and bears off past index 23;
//! `turn == true` is Dark, which moves toward lower indices and bears off
//! past index 0. Light's home is indices 18..24, Dark's is 0..6.

use vstd::prelude::*;

verus! {

/// One of the 24 points: empty, or a stack of checkers owned by one side.
#[derive(Clone, Copy, PartialEq, Eq, Structural, Debug)]
pub enum Tile {
    Empty,
    Light(u8),
    Dark(u8),
}

/// Mathematical model of a position: a signed occupancy count per point
/// (positive magnitude = Light checkers, negative magnitude = Dark), plus
/// captured checkers waiting on the bar and checkers already borne off.
#[verifier::ext_equal]
pub struct Board {
    pub pts: Seq<int>,
    pub cap_light: int,
    pub cap_dark: int,
    pub fin_light: int,
    pub fin_dark: int,
}

/// Signed occupancy described by a single tile.
pub open spec fn signed_of(t: Tile) -> int {
    match t {
        Tile::Empty => 0,
        Tile::Light(n) => n as int,
        Tile::Dark(n) => -(n as int),
    }
}

/// A stored tile is canonical: a stack is never empty and never exceeds 15.
pub open spec fn tile_ok(t: Tile) -> bool {
    match t {
        Tile::Empty => true,
        Tile::Light(n) => 1 <= n <= 15,
        Tile::Dark(n) => 1 <= n <= 15,
    }
}

/// The positive part of a signed count.
pub open spec fn pos(x: int) -> int {
    if x > 0 {
        x
    } else {
        0
    }
}

/// How many of `turn`'s checkers sit on a point with signed count `p`.
pub open spec fn own_count(p: int, turn: bool) -> int {
    if turn {
        pos(-p)
    } else {
        pos(p)
    }
}

/// Number of `turn`'s checkers on the board.
pub open spec fn sum_own(pts: Seq<int>, turn: bool) -> int
    decreases pts.len(),
{
    if pts.len() == 0 {
        0
    } else {
        sum_own(pts.drop_last(), turn) + own_count(pts.last(), turn)
    }
}

/// Pip distance contributed by a point with signed count `p` at index `i`:
/// each Light checker there is 24 - i points from its exit, each Dark
/// checker i + 1 points from its exit.
pub open spec fn dist_at(p: int, i: int, turn: bool) -> int {
    own_count(p, turn) * (if turn {
        i + 1
    } else {
        24 - i
    })
}

/// Sum of pip distances of `turn`'s checkers over a prefix of the board.
pub open spec fn sum_dist(pts: Seq<int>, turn: bool) -> int
    decreases pts.len(),
{
    if pts.len() == 0 {
        0
    } else {
        sum_dist(pts.drop_last(), turn) + dist_at(pts.last(), pts.len() - 1, turn)
    }
}

/// Whether point `i` lies in `turn`'s home region.
pub open spec fn home_point(i: int, turn: bool) -> bool {
    if turn {
        0 <= i < 6
    } else {
        18 <= i < 24
    }
}

impl Board {
    /// Checkers of `turn` on the bar.
    pub open spec fn cap(self, turn: bool) -> int {
        if turn {
            self.cap_dark
        } else {
            self.cap_light
        }
    }

    /// Checkers of `turn` borne off.
    pub open spec fn fin(self, turn: bool) -> int {
        if turn {
            self.fin_dark
        } else {
            self.fin_light
        }
    }

    /// All checkers of `turn`, wherever they are.
    pub open spec fn total(self, turn: bool) -> int {
        sum_own(self.pts, turn) + self.cap(turn) + self.fin(turn)
    }

    /// Well-formed position: 24 points, every count in range, and at most
    /// 15 checkers per side in all.
    pub open spec fn wf(self) -> bool {
        &&& self.pts.len() == 24
        &&& (forall|i: int| 0 <= i < 24 ==> -15 <= #[trigger] self.pts[i] <= 15)
        &&& 0 <= self.cap_light && 0 <= self.cap_dark
        &&& 0 <= self.fin_light && 0 <= self.fin_dark
        &&& self.total(false) <= 15
        &&& self.total(true) <= 15
    }

    /// True iff `turn` has no captured checker and no checker outside its
    /// own home region, so bearing off is allowed.
    pub open spec fn all_home(self, turn: bool) -> bool {
        self.cap(turn) == 0 && (forall|i: int|
            0 <= i < 24 && !home_point(i, turn) ==> own_count(#[trigger] self.pts[i], turn) == 0)
    }

    /// Total pip distance still to travel for `turn`: checkers on the bar
    /// count as the maximum distance 25.
    pub open spec fn tot_dist(self, turn: bool) -> int {
        sum_dist(self.pts, turn) + 25 * self.cap(turn)
    }

    /// Net pip differential: positive when Light trails.
    pub open spec fn net_dist(self) -> int {
        self.tot_dist(false) - self.tot_dist(true)
    }
}

/// The standard starting layout as signed counts.
pub open spec fn standard_pts() -> Seq<int> {
    seq![
        2, 0, 0, 0, 0, -5,
        0, -3, 0, 0, 0, 5,
        -5, 0, 0, 0, 3, 0,
        5, 0, 0, 0, 0, -2,
    ]
}

/// Game position as stored: tiles per point, plus per-side counters
/// indexed 0 = Light, 1 = Dark.
#[derive(Clone, Copy, PartialEq, Eq, Debug)]
pub struct GameState {
    pub tiles: [Tile; 24],
    pub captured: [u8; 2],
    pub finished: [u8; 2],
}

impl View for GameState {
    type V = Board;

    open spec fn view(&self) -> Board {
        Board {
            pts: Seq::new(24 as nat, |i: int| signed_of(self.tiles@[i])),
            cap_light: self.captured@[0] as int,
            cap_dark: self.captured@[1] as int,
            fin_light: self.finished@[0] as int,
            fin_dark: self.finished@[1] as int,
        }
    }
}

pub proof fn lemma_sum_own_nonneg(pts: Seq<int>, turn: bool)
    ensures
        sum_own(pts, turn) >= 0,
    decreases pts.len(),
{
    if pts.len() > 0 {
        lemma_sum_own_nonneg(pts.drop_last(), turn);
    }
}

pub proof fn lemma_sum_own_update(pts: Seq<int>, i: int, v: int, turn: bool)
    requires
        0 <= i < pts.len(),
    ensures
        sum_own(pts.update(i, v), turn) == sum_own(pts, turn) - own_count(pts[i], turn)
            + own_count(v, turn),
    decreases pts.len(),
{
    let upd = pts.update(i, v);
    if i == pts.len() - 1 {
        assert(upd.drop_last() =~= pts.drop_last());
    } else {
        assert(upd.drop_last() =~= pts.drop_last().update(i, v));
        lemma_sum_own_update(pts.drop_last(), i, v, turn);
    }
}

/// A single point never holds more of one side's checkers than that side
/// has on the whole board.
pub proof fn lemma_sum_own_point_bound(pts: Seq<int>, i: int, turn: bool)
    requires
        0 <= i < pts.len(),
    ensures
        own_count(pts[i], turn) <= sum_own(pts, turn),
    decreases pts.len(),
{
    lemma_sum_own_nonneg(pts.drop_last(), turn);
    if i < pts.len() - 1 {
        lemma_sum_own_point_bound(pts.drop_last(), i, turn);
    }
}

/// Two distinct points together never hold more than the board total.
pub proof fn lemma_sum_own_two_points(pts: Seq<int>, i: int, j: int, turn: bool)
    requires
        0 <= i < pts.len(),
        0 <= j < pts.len(),
        i != j,
    ensures
        own_count(pts[i], turn) + own_count(pts[j], turn) <= sum_own(pts, turn),
    decreases pts.len(),
{
    if i == pts.len() - 1 {
        lemma_sum_own_point_bound(pts.drop_last(), j, turn);
    } else if j == pts.len() - 1 {
        lemma_sum_own_point_bound(pts.drop_last(), i, turn);
    } else {
        lemma_sum_own_two_points(pts.drop_last(), i, j, turn);
    }
}

impl GameState {
    /// Canonically stored tiles and a well-formed model.
    pub open spec fn wf(self) -> bool {
        (forall|i: int| 0 <= i < 24 ==> tile_ok(#[trigger] self.tiles@[i])) && self@.wf()
    }

    /// An empty board: no checkers anywhere.
    pub fn new() -> (r: GameState)
        ensures
            r.wf(),
            r@.pts =~= Seq::new(24 as nat, |i: int| 0int),
            r@.cap_light == 0 && r@.cap_dark == 0,
            r@.fin_light == 0 && r@.fin_dark == 0,
            r@.total(false) == 0 && r@.total(true) == 0,
    {
        let r = GameState { tiles: [Tile::Empty; 24], captured: [0, 0], finished: [0, 0] };
        proof {
            assert forall|i: int| 0 <= i < 24 implies r@.pts[i] == 0 by {
                assert(r.tiles@[i] == Tile::Empty);
            }
            lemma_sum_own_all_zero(r@.pts, false);
            lemma_sum_own_all_zero(r@.pts, true);
        }
        r
    }

    fn place(&mut self, i: usize, t: Tile)
        requires
            i < 24,
            old(self)@.pts[i as int] == 0,
            tile_ok(t),
        ensures
            final(self).tiles@ == old(self).tiles@.update(i as int, t),
            final(self)@.pts =~= old(self)@.pts.update(i as int, signed_of(t)),
            final(self).captured == old(self).captured,
            final(self).finished == old(self).finished,
            final(self)@.cap_light == old(self)@.cap_light,
            final(self)@.cap_dark == old(self)@.cap_dark,
            final(self)@.fin_light == old(self)@.fin_light,
            final(self)@.fin_dark == old(self)@.fin_dark,
            sum_own(final(self)@.pts, false) == sum_own(old(self)@.pts, false) + own_count(
                signed_of(t),
                false,
            ),
            sum_own(final(self)@.pts, true) == sum_own(old(self)@.pts, true) + own_count(
                signed_of(t),
                true,
            ),
    {
        let ghost pre = self@.pts;
        self.tiles[i] = t;
        proof {
            assert(self@.pts =~= pre.update(i as int, signed_of(t)));
            lemma_sum_own_update(pre, i as int, signed_of(t), false);
            lemma_sum_own_update(pre, i as int, signed_of(t), true);
        }
    }

    /// The standard starting layout: per side two checkers 24 points from
    /// exit, then stacks of 5, 3 and 5 along the way, 15 in all.
    pub fn new_with_default_setup() -> (r: GameState)
        ensures
            r.wf(),
            r@.pts =~= standard_pts(),
            r@.cap_light == 0 && r@.cap_dark == 0,
            r@.fin_light == 0 && r@.fin_dark == 0,
            r@.total(false) == 15 && r@.total(true) == 15,
    {
        let mut r = GameState::new();
        r.place(0, Tile::Light(2));
        r.place(5, Tile::Dark(5));
        r.place(7, Tile::Dark(3));
        r.place(11, Tile::Light(5));
        r.place(12, Tile::Dark(5));
        r.place(16, Tile::Light(3));
        r.place(18, Tile::Light(5));
        r.place(23, Tile::Dark(2));
        proof {
            assert(r@.pts =~= standard_pts());
        }
        r
    }

    /// Read one tile; the renderer's window into the position.
    pub fn tile_at(&self, i: usize) -> (r: Tile)
        requires
            i < 24,
        ensures
            r == self.tiles@[i as int],
            signed_of(r) == self@.pts[i as int],
    {
        self.tiles[i]
    }

    /// Checkers of `turn` on the bar.
    pub fn captured_count(&self, turn: bool) -> (r: u8)
        ensures
            r as int == self@.cap(turn),
    {
        if turn {
            self.captured[1]
        } else {
            self.captured[0]
        }
    }

    /// Checkers of `turn` borne off.
    pub fn finished_count(&self, turn: bool) -> (r: u8)
        ensures
            r as int == self@.fin(turn),
    {
        if turn {
            self.finished[1]
        } else {
            self.finished[0]
        }
    }

    /// True iff `turn` may bear off: nothing on the bar and every checker
    /// inside its own home region.
    pub fn is_all_home(&self, turn: bool) -> (r: bool)
        requires
            self.wf(),
        ensures
            r == self@.all_home(turn),
    {
        if self.captured_count(turn) != 0 {
            return false;
        }
        let (lo, hi): (usize, usize) = if turn {
            (6, 24)
        } else {
            (0, 18)
        };
        let mut i = lo;
        while i < hi
            invariant
                lo <= i <= hi,
                (lo == 6 && hi == 24 && turn) || (lo == 0 && hi == 18 && !turn),
                self.wf(),
                forall|j: int|
                    lo <= j < i ==> own_count(#[trigger] self@.pts[j], turn) == 0,
            decreases hi - i,
        {
            let outside = match (self.tiles[i], turn) {
                (Tile::Light(_), false) => true,
                (Tile::Dark(_), true) => true,
                _ => false,
            };
            if outside {
                proof {
                    let ii = i as int;
                    assert(tile_ok(self.tiles@[ii]));
                    assert(self@.pts[ii] == signed_of(self.tiles@[ii]));
                    assert(own_count(self@.pts[ii], turn) != 0);
                    assert(!home_point(ii, turn));
                }
                return false;
            }
            i += 1;
        }
        true
    }

    /// Per-side total pip distance, Light first; a captured checker counts
    /// as the maximum distance 25.
    pub fn get_tot_dist(&self) -> (r: (u32, u32))
        requires
            self.wf(),
        ensures
            r.0 as int == self@.tot_dist(false),
            r.1 as int == self@.tot_dist(true),
    {
        proof {
            lemma_sum_own_nonneg(self@.pts, false);
            lemma_sum_own_nonneg(self@.pts, true);
        }
        let mut light: u32 = 25 * (self.captured[0] as u32);
        let mut dark: u32 = 25 * (self.captured[1] as u32);
        let ghost pts = self@.pts;
        let mut i: usize = 0;
        while i < 24
            invariant
                0 <= i <= 24,
                self.wf(),
                pts == self@.pts,
                light as int == sum_dist(pts.take(i as int), false) + 25 * self@.cap_light,
                dark as int == sum_dist(pts.take(i as int), true) + 25 * self@.cap_dark,
                light <= 25 * 15 + 360 * i,
                dark <= 25 * 15 + 360 * i,
            decreases 24 - i,
        {
            proof {
                lemma_sum_dist_take_step(pts, i as int, false);
                lemma_sum_dist_take_step(pts, i as int, true);
                assert(own_count(pts[i as int], false) * (24 - i as int) <= 360) by (nonlinear_arith)
                    requires
                        0 <= own_count(pts[i as int], false) <= 15,
                        0 <= i < 24,
                ;
                assert(own_count(pts[i as int], true) * (i as int + 1) <= 360) by (nonlinear_arith)
                    requires
                        0 <= own_count(pts[i as int], true) <= 15,
                        0 <= i < 24,
                ;
                assert(own_count(pts[i as int], false) * (24 - i as int) >= 0) by (nonlinear_arith)
                    requires
                        0 <= own_count(pts[i as int], false),
                        0 <= i < 24,
                ;
                assert(own_count(pts[i as int], true) * (i as int + 1) >= 0) by (nonlinear_arith)
                    requires
                        0 <= own_count(pts[i as int], true),
                        0 <= i < 24,
                ;
            }
            match self.tiles[i] {
                Tile::Empty => {},
                Tile::Light(n) => {
                    light = light + (n as u32) * (24 - i as u32);
                },
                Tile::Dark(n) => {
                    dark = dark + (n as u32) * (i as u32 + 1);
                },
            }
            i += 1;
        }
        proof {
            assert(pts.take(24) =~= pts);
        }
        (light, dark)
    }

    /// Whether two positions are the same game position (same model).
    pub fn same_position(&self, other: &GameState) -> (r: bool)
        requires
            self.wf(),
            other.wf(),
        ensures
            r == (self@ == other@),
    {
        let mut i: usize = 0;
        while i < 24
            invariant
                0 <= i <= 24,
                self.wf(),
                other.wf(),
                forall|j: int| 0 <= j < i ==> self@.pts[j] == other@.pts[j],
            decreases 24 - i,
        {
            let a = self.tiles[i];
            let b = other.tiles[i];
            if !(a == b) {
                proof {
                    assert(tile_ok(self.tiles@[i as int]));
                    assert(tile_ok(other.tiles@[i as int]));
                    assert(signed_of(a) != signed_of(b));
                    assert(self@.pts[i as int] != other@.pts[i as int]);
                }
                return false;
            }
            i += 1;
        }
        if self.captured[0] != other.captured[0] || self.captured[1] != other.captured[1]
            || self.finished[0] != other.finished[0] || self.finished[1] != other.finished[1] {
            return false;
        }
        proof {
            assert(self@.pts =~= other@.pts);
            assert(self@ =~= other@);
        }
        true
    }

    /// Net pip differential, Light's distance minus Dark's.
    pub fn get_net_dist(&self) -> (r: i32)
        requires
            self.wf(),
        ensures
            r as int == self@.net_dist(),
    {
        let (light, dark) = self.get_tot_dist();
        proof {
            lemma_sum_dist_bound(self@.pts, false);
            lemma_sum_dist_bound(self@.pts, true);
        }
        (light as i32) - (dark as i32)
    }
}

/// A board with no checkers has zero checkers in every sum.
pub proof fn lemma_sum_own_all_zero(pts: Seq<int>, turn: bool)
    requires
        forall|i: int| 0 <= i < pts.len() ==> #[trigger] pts[i] == 0,
    ensures
        sum_own(pts, turn) == 0,
    decreases pts.len(),
{
    if pts.len() > 0 {
        lemma_sum_own_all_zero(pts.drop_last(), turn);
    }
}

pub proof fn lemma_sum_dist_take_step(pts: Seq<int>, i: int, turn: bool)
    requires
        0 <= i < pts.len(),
    ensures
        sum_dist(pts.take(i + 1), turn) == sum_dist(pts.take(i), turn) + dist_at(
            pts[i],
            i,
            turn,
        ),
{
    assert(pts.take(i + 1).drop_last() =~= pts.take(i));
    assert(pts.take(i + 1).last() == pts[i]);
}

/// Pip distance is bounded by 25 per checker on the board.
pub proof fn lemma_sum_dist_bound(pts: Seq<int>, turn: bool)
    requires
        forall|i: int| 0 <= i < pts.len() ==> -15 <= #[trigger] pts[i] <= 15,
        pts.len() <= 24,
    ensures
        0 <= sum_dist(pts, turn) <= 25 * sum_own(pts, turn),
    decreases pts.len(),
{
    if pts.len() > 0 {
        lemma_sum_dist_bound(pts.drop_last(), turn);
        let p = pts.last();
        let w = if turn {
            pts.len() - 1 + 1
        } else {
            24 - (pts.len() - 1)
        };
        assert(0 <= own_count(p, turn) * w <= 25 * own_count(p, turn)) by (nonlinear_arith)
            requires
                0 <= own_count(p, turn),
                0 < w <= 25,
        ;
        lemma_sum_own_nonneg(pts.drop_last(), turn);
    }
}

} // verus!

verus! {

/// The side-swapped mirror of a position: point `i` takes the negated
/// count of point `23 - i`, and the per-side counters trade places.
pub open spec fn mirror(b: Board) -> Board {
    Board {
        pts: Seq::new(24 as nat, |i: int| -b.pts[23 - i]),
        cap_light: b.cap_dark,
        cap_dark: b.cap_light,
        fin_light: b.fin_dark,
        fin_dark: b.fin_light,
    }
}

pub proof fn lemma_sum_own_take_step(pts: Seq<int>, i: int, turn: bool)
    requires
        0 <= i < pts.len(),
    ensures
        sum_own(pts.take(i + 1), turn) == sum_own(pts.take(i), turn) + own_count(pts[i], turn),
{
    assert(pts.take(i + 1).drop_last() =~= pts.take(i));
    assert(pts.take(i + 1).last() == pts[i]);
}

/// Prefixes of a mirrored board account for the matching suffix of the
/// original, with the sides exchanged.
pub proof fn lemma_sum_own_mirror_prefix(p: Seq<int>, q: Seq<int>, turn: bool, k: int)
    requires
        p.len() == 24,
        q.len() == 24,
        forall|i: int| 0 <= i < 24 ==> q[i] == -p[23 - i],
        0 <= k <= 24,
    ensures
        sum_own(q.take(k), turn) == sum_own(p, !turn) - sum_own(p.take(24 - k), !turn),
    decreases k,
{
    if k == 0 {
        assert(p.take(24) =~= p);
        assert(sum_own(q.take(0), turn) == 0);
    } else {
        lemma_sum_own_mirror_prefix(p, q, turn, k - 1);
        lemma_sum_own_take_step(q, k - 1, turn);
        lemma_sum_own_take_step(p, 24 - k, !turn);
        assert(q[k - 1] == -p[24 - k]);
        assert(own_count(q[k - 1], turn) == own_count(p[24 - k], !turn));
    }
}

pub proof fn lemma_sum_dist_mirror_prefix(p: Seq<int>, q: Seq<int>, turn: bool, k: int)
    requires
        p.len() == 24,
        q.len() == 24,
        forall|i: int| 0 <= i < 24 ==> q[i] == -p[23 - i],
        0 <= k <= 24,
    ensures
        sum_dist(q.take(k), turn) == sum_dist(p, !turn) - sum_dist(p.take(24 - k), !turn),
    decreases k,
{
    if k == 0 {
        assert(p.take(24) =~= p);
        assert(sum_dist(q.take(0), turn) == 0);
    } else {
        lemma_sum_dist_mirror_prefix(p, q, turn, k - 1);
        lemma_sum_dist_take_step(q, k - 1, turn);
        lemma_sum_dist_take_step(p, 24 - k, !turn);
        assert(q[k - 1] == -p[24 - k]);
        assert(own_count(q[k - 1], turn) == own_count(p[24 - k], !turn));
        assert(dist_at(q[k - 1], k - 1, turn) == dist_at(p[24 - k], 24 - k, !turn));
    }
}

/// Mirroring exchanges the two sides' board counts and pip distances.
pub proof fn lemma_mirror_sums(b: Board, turn: bool)
    requires
        b.pts.len() == 24,
    ensures
        sum_own(mirror(b).pts, turn) == sum_own(b.pts, !turn),
        sum_dist(mirror(b).pts, turn) == sum_dist(b.pts, !turn),
{
    let q = mirror(b).pts;
    lemma_sum_own_mirror_prefix(b.pts, q, turn, 24);
    lemma_sum_dist_mirror_prefix(b.pts, q, turn, 24);
    assert(q.take(24) =~= q);
    assert(b.pts.take(0) =~= Seq::<int>::empty());
}

/// Mirroring preserves well-formedness and negates the net pip
/// differential: evaluating a position and its side-swapped mirror at
/// depth zero yields opposite values.
pub proof fn lemma_mirror_net_dist(b: Board)
    requires
        b.wf(),
    ensures
        mirror(b).wf(),
        mirror(b).net_dist() == -b.net_dist(),
        mirror(b).total(false) == b.total(true),
        mirror(b).total(true) == b.total(false),
{
    lemma_mirror_sums(b, false);
    lemma_mirror_sums(b, true);
}

/// The standard starting layout is its own side-swapped mirror, so its
/// net pip differential is zero: the depth-0 evaluation of the opening
/// position is exactly balanced.
pub proof fn lemma_standard_net_zero(b: Board)
    requires
        b.pts == standard_pts(),
        b.cap_light == 0,
        b.cap_dark == 0,
    ensures
        b.net_dist() == 0,
{
    let m = mirror(b);
    assert(m.pts =~= b.pts);
    lemma_mirror_sums(b, false);
    lemma_mirror_sums(b, true);
    assert(sum_dist(b.pts, false) == sum_dist(b.pts, true));
}

impl GameState {
    /// The side-swapped mirror image: Light and Dark exchange roles and
    /// the points are reflected end to end.
    pub fn mirrored(&self) -> (r: GameState)
        requires
            self.wf(),
        ensures
            r.wf(),
            r@ == mirror(self@),
    {
        let ghost b = self@;
        let mut r = GameState::new();
        let mut i: usize = 0;
        while i < 24
            invariant
                self.wf(),
                b == self@,
                0 <= i <= 24,
                forall|j: int| 0 <= j < 24 ==> tile_ok(#[trigger] r.tiles@[j]),
                forall|j: int| 0 <= j < i ==> r@.pts[j] == -b.pts[23 - j],
                r.captured@[0] == 0 && r.captured@[1] == 0,
                r.finished@[0] == 0 && r.finished@[1] == 0,
            decreases 24 - i,
        {
            let src = self.tiles[23 - i];
            proof {
                assert(tile_ok(self.tiles@[23 - i as int]));
            }
            let flipped = match src {
                Tile::Empty => Tile::Empty,
                Tile::Light(n) => Tile::Dark(n),
                Tile::Dark(n) => Tile::Light(n),
            };
            let ghost rt = r.tiles@;
            let ghost rv0 = r@;
            r.tiles[i] = flipped;
            proof {
                assert(r.tiles@ == rt.update(i as int, flipped));
                assert(signed_of(flipped) == -signed_of(src));
                assert(r.tiles@[i as int] == flipped);
                assert(r@.pts[i as int] == signed_of(flipped));
                assert(src == self.tiles@[23 - i as int]);
                assert(b.pts[23 - i as int] == signed_of(self.tiles@[23 - i as int]));
                assert(r@.pts[i as int] == -b.pts[23 - i as int]);
                assert forall|j: int| 0 <= j < i + 1 implies r@.pts[j] == -b.pts[23 - j] by {
                    if j < i {
                        assert(r.tiles@[j] == rt[j]);
                        assert(r@.pts[j] == signed_of(r.tiles@[j]));
                        assert(rv0.pts[j] == signed_of(rt[j]));
                        assert(rv0.pts[j] == -b.pts[23 - j]);
                    }
                }
            }
            i += 1;
        }
        let ghost rt = r.tiles@;
        let ghost rv = r@;
        r.captured[0] = self.captured[1];
        r.captured[1] = self.captured[0];
        r.finished[0] = self.finished[1];
        r.finished[1] = self.finished[0];
        proof {
            assert(r.tiles@ == rt);
            assert forall|j: int| 0 <= j < 24 implies r@.pts[j] == mirror(b).pts[j] by {
                assert(r@.pts[j] == signed_of(r.tiles@[j]));
                assert(rv.pts[j] == signed_of(rt[j]));
                assert(rv.pts[j] == -b.pts[23 - j]);
            }
            assert(r@.pts =~= mirror(b).pts);
            assert(r@ =~= mirror(b));
            lemma_mirror_net_dist(b);
        }
        r
    }
}

} // verus!
