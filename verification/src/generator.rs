//! Compound turns: sequences of one to four atomic moves, their legality,
//! result and wasteful count, and the deduplicated record type the
//! generator produces.

use vstd::prelude::*;
use crate::board::Board;
use crate::board::GameState;
use crate::movelist::move_atoms;
use crate::rules::gen_ok;
use crate::rules::lemma_move_preserves;
use crate::rules::move_result;
use crate::rules::move_wasteful;

verus! {

/// Every atom of the sequence is generator-legal in play order.
pub open spec fn seq_ok(b: Board, turn: bool, ms: Seq<(u8, u8)>) -> bool
    decreases ms.len(),
{
    ms.len() == 0 || (gen_ok(b, turn, ms[0].0, ms[0].1) && seq_ok(
        move_result(b, turn, ms[0].0, ms[0].1),
        turn,
        ms.subrange(1, ms.len() as int),
    ))
}

/// The board a legal sequence of atoms produces.
pub open spec fn seq_result(b: Board, turn: bool, ms: Seq<(u8, u8)>) -> Board
    decreases ms.len(),
{
    if ms.len() == 0 {
        b
    } else {
        seq_result(move_result(b, turn, ms[0].0, ms[0].1), turn, ms.subrange(1, ms.len() as int))
    }
}

/// How many atoms of the sequence are wasteful (overshooting bear-offs).
pub open spec fn seq_waste(b: Board, turn: bool, ms: Seq<(u8, u8)>) -> int
    decreases ms.len(),
{
    if ms.len() == 0 {
        0
    } else {
        (if move_wasteful(b, turn, ms[0].0, ms[0].1) {
            1int
        } else {
            0int
        }) + seq_waste(move_result(b, turn, ms[0].0, ms[0].1), turn, ms.subrange(1, ms.len() as int))
    }
}

/// The dice a sequence may use, for a sorted roll `d0 <= d1`: with doubles,
/// up to four atoms of that die; otherwise up to one atom of each die, in
/// either order.
pub open spec fn dice_ok(ms: Seq<(u8, u8)>, d0: u8, d1: u8) -> bool {
    if d0 == d1 {
        ms.len() <= 4 && (forall|k: int| 0 <= k < ms.len() ==> (#[trigger] ms[k]).1 == d0)
    } else {
        ||| ms.len() == 0
        ||| (ms.len() == 1 && (ms[0].1 == d0 || ms[0].1 == d1))
        ||| (ms.len() == 2 && ((ms[0].1 == d0 && ms[1].1 == d1) || (ms[0].1 == d1 && ms[1].1
            == d0)))
    }
}

/// A candidate turn for the roll: a legal sequence that uses dice the roll
/// offers.
pub open spec fn cand(b: Board, turn: bool, d0: u8, d1: u8, ms: Seq<(u8, u8)>) -> bool {
    seq_ok(b, turn, ms) && dice_ok(ms, d0, d1)
}

pub proof fn lemma_seq_empty(b: Board, turn: bool)
    ensures
        seq_ok(b, turn, Seq::<(u8, u8)>::empty()),
        seq_result(b, turn, Seq::<(u8, u8)>::empty()) == b,
        seq_waste(b, turn, Seq::<(u8, u8)>::empty()) == 0,
{
}

/// Appending a legal atom to a legal sequence keeps it legal, moves the
/// result one step, and adds the atom's wastefulness.
pub proof fn lemma_seq_push(b: Board, turn: bool, ms: Seq<(u8, u8)>, m: (u8, u8))
    requires
        seq_ok(b, turn, ms),
        gen_ok(seq_result(b, turn, ms), turn, m.0, m.1),
    ensures
        seq_ok(b, turn, ms.push(m)),
        seq_result(b, turn, ms.push(m)) == move_result(seq_result(b, turn, ms), turn, m.0, m.1),
        seq_waste(b, turn, ms.push(m)) == seq_waste(b, turn, ms) + (if move_wasteful(
            seq_result(b, turn, ms),
            turn,
            m.0,
            m.1,
        ) {
            1int
        } else {
            0int
        }),
    decreases ms.len(),
{
    if ms.len() == 0 {
        let one = ms.push(m);
        let b1 = move_result(b, turn, m.0, m.1);
        assert(one[0] == m);
        assert(one.subrange(1, 1) =~= Seq::<(u8, u8)>::empty());
        assert(seq_ok(b1, turn, Seq::<(u8, u8)>::empty()));
        assert(seq_result(b1, turn, Seq::<(u8, u8)>::empty()) == b1);
        assert(seq_waste(b1, turn, Seq::<(u8, u8)>::empty()) == 0);
    } else {
        let b1 = move_result(b, turn, ms[0].0, ms[0].1);
        let rest = ms.subrange(1, ms.len() as int);
        assert(ms.push(m)[0] == ms[0]);
        assert(ms.push(m).subrange(1, ms.push(m).len() as int) =~= rest.push(m));
        lemma_seq_push(b1, turn, rest, m);
    }
}

/// A legal sequence from a well-formed board yields a well-formed board
/// and preserves each side's total checker count.
pub proof fn lemma_seq_wf(b: Board, turn: bool, ms: Seq<(u8, u8)>)
    requires
        b.wf(),
        seq_ok(b, turn, ms),
    ensures
        seq_result(b, turn, ms).wf(),
        seq_result(b, turn, ms).total(false) == b.total(false),
        seq_result(b, turn, ms).total(true) == b.total(true),
    decreases ms.len(),
{
    if ms.len() > 0 {
        lemma_move_preserves(b, turn, ms[0].0, ms[0].1);
        lemma_seq_wf(move_result(b, turn, ms[0].0, ms[0].1), turn, ms.subrange(1, ms.len() as int));
    }
}

/// A sequence wastes at most one move per atom.
pub proof fn lemma_seq_waste_bounds(b: Board, turn: bool, ms: Seq<(u8, u8)>)
    ensures
        0 <= seq_waste(b, turn, ms) <= ms.len(),
    decreases ms.len(),
{
    if ms.len() > 0 {
        lemma_seq_waste_bounds(
            move_result(b, turn, ms[0].0, ms[0].1),
            turn,
            ms.subrange(1, ms.len() as int),
        );
    }
}

/// One deduplicated result of the generator: the position reached and the
/// recorded `(origin, die)` atoms, in play order, that reach it.
pub struct TurnRec {
    pub state: GameState,
    pub moves: arrayvec::ArrayVec<(u8, u8), 4>,
}

/// A record is a correct witness for bucket `(len, w)` of the roll.
pub open spec fn rec_ok(
    r: TurnRec,
    b0: Board,
    turn: bool,
    d0: u8,
    d1: u8,
    len: int,
    w: int,
) -> bool {
    &&& cand(b0, turn, d0, d1, move_atoms(r.moves))
    &&& move_atoms(r.moves).len() == len
    &&& seq_waste(b0, turn, move_atoms(r.moves)) == w
    &&& r.state@ == seq_result(b0, turn, move_atoms(r.moves))
    &&& r.state.wf()
}

/// Every record of the bucket is a correct witness.
pub open spec fn entries_ok(
    v: Seq<TurnRec>,
    b0: Board,
    turn: bool,
    d0: u8,
    d1: u8,
    len: int,
    w: int,
) -> bool {
    forall|k: int| 0 <= k < v.len() ==> rec_ok(#[trigger] v[k], b0, turn, d0, d1, len, w)
}

/// No two records of the bucket reach the same position.
pub open spec fn distinct_states(v: Seq<TurnRec>) -> bool {
    forall|i: int, j: int| 0 <= i < j < v.len() ==> (#[trigger] v[i]).state@ != (#[trigger] v[j]).state@
}

/// Some record of the bucket reaches position `s`.
pub open spec fn has_state(v: Seq<TurnRec>, s: Board) -> bool {
    exists|k: int| 0 <= k < v.len() && (#[trigger] v[k]).state@ == s
}

/// Insert a record unless its position is already present: the bucket's
/// positions afterwards are exactly the old ones plus the record's.
pub(crate) fn insert_dedup(v: &mut Vec<TurnRec>, rec: TurnRec, Ghost(b0): Ghost<Board>, Ghost(turn): Ghost<
    bool,
>, Ghost(d0): Ghost<u8>, Ghost(d1): Ghost<u8>, Ghost(len): Ghost<int>, Ghost(w): Ghost<int>)
    requires
        entries_ok(old(v)@, b0, turn, d0, d1, len, w),
        distinct_states(old(v)@),
        rec_ok(rec, b0, turn, d0, d1, len, w),
    ensures
        entries_ok(final(v)@, b0, turn, d0, d1, len, w),
        distinct_states(final(v)@),
        forall|s: Board| has_state(final(v)@, s) <==> (has_state(old(v)@, s) || s == rec.state@),
{
    let ghost pre = v@;
    let n = v.len();
    let mut i: usize = 0;
    while i < n
        invariant
            n == v@.len(),
            v@ == pre,
            pre == old(v)@,
            0 <= i <= n,
            entries_ok(pre, b0, turn, d0, d1, len, w),
            distinct_states(pre),
            rec_ok(rec, b0, turn, d0, d1, len, w),
            forall|k: int| 0 <= k < i ==> (#[trigger] pre[k]).state@ != rec.state@,
        decreases n - i,
    {
        let same = v[i].state.same_position(&rec.state);
        if same {
            proof {
                assert(pre[i as int].state@ == rec.state@);
                assert(has_state(pre, rec.state@));
                assert forall|s: Board| has_state(v@, s) <==> (has_state(pre, s) || s
                    == rec.state@) by {
                    if s == rec.state@ {
                        assert(pre[i as int].state@ == s);
                    }
                }
            }
            return ;
        }
        i += 1;
    }
    v.push(rec);
    proof {
        assert(v@ == pre.push(rec));
        assert(v@[pre.len() as int] == rec);
        assert forall|k: int| 0 <= k < v@.len() implies rec_ok(
            #[trigger] v@[k],
            b0,
            turn,
            d0,
            d1,
            len,
            w,
        ) by {
            if k < pre.len() {
                assert(v@[k] == pre[k]);
            }
        }
        assert forall|s: Board| has_state(v@, s) implies (has_state(pre, s) || s
            == rec.state@) by {
            let k = choose|k: int| 0 <= k < v@.len() && (#[trigger] v@[k]).state@ == s;
            if k < pre.len() {
                assert(pre[k].state@ == s);
            }
        }
        assert forall|s: Board| (has_state(pre, s) || s == rec.state@) implies has_state(
            v@,
            s,
        ) by {
            if has_state(pre, s) {
                let k = choose|k: int| 0 <= k < pre.len() && (#[trigger] pre[k]).state@ == s;
                assert(v@[k].state@ == s);
            } else {
                assert(v@[pre.len() as int].state@ == s);
            }
        }
    }
}

} // verus!

use vstd::prelude::*;

verus! {

/// The generator's priority buckets, one per (dice used, wasteful count)
/// class a compound turn can fall into.
pub struct Buckets {
    pub v1w0: Vec<TurnRec>,
    pub v1w1: Vec<TurnRec>,
    pub v2w0: Vec<TurnRec>,
    pub v2w1: Vec<TurnRec>,
    pub v2w2: Vec<TurnRec>,
    pub v3w0: Vec<TurnRec>,
    pub v3w1: Vec<TurnRec>,
    pub v3w2: Vec<TurnRec>,
    pub v3w3: Vec<TurnRec>,
    pub v4w0: Vec<TurnRec>,
    pub v4w1: Vec<TurnRec>,
    pub v4w2: Vec<TurnRec>,
    pub v4w3: Vec<TurnRec>,
    pub v4w4: Vec<TurnRec>,
}

impl Buckets {
    /// The records collected for turns that use `l` dice, `w` of them
    /// wastefully.
    pub open spec fn bucket(self, l: int, w: int) -> Seq<TurnRec> {
        if l == 1 && w == 0 {
            self.v1w0@
        } else if l == 1 && w == 1 {
            self.v1w1@
        } else if l == 2 && w == 0 {
            self.v2w0@
        } else if l == 2 && w == 1 {
            self.v2w1@
        } else if l == 2 && w == 2 {
            self.v2w2@
        } else if l == 3 && w == 0 {
            self.v3w0@
        } else if l == 3 && w == 1 {
            self.v3w1@
        } else if l == 3 && w == 2 {
            self.v3w2@
        } else if l == 3 && w == 3 {
            self.v3w3@
        } else if l == 4 && w == 0 {
            self.v4w0@
        } else if l == 4 && w == 1 {
            self.v4w1@
        } else if l == 4 && w == 2 {
            self.v4w2@
        } else if l == 4 && w == 3 {
            self.v4w3@
        } else if l == 4 && w == 4 {
            self.v4w4@
        } else {
            Seq::<TurnRec>::empty()
        }
    }

    /// Every bucket holds only correct, pairwise-distinct witnesses of its
    /// own class.
    pub open spec fn inv(self, b0: Board, turn: bool, d0: u8, d1: u8) -> bool {
        forall|l: int, w: int|
            entries_ok(#[trigger] self.bucket(l, w), b0, turn, d0, d1, l, w) && distinct_states(
                self.bucket(l, w),
            )
    }

    /// Bucket `(l, w)` holds a record reaching position `s`.
    pub open spec fn covers(self, l: int, w: int, s: Board) -> bool {
        has_state(self.bucket(l, w), s)
    }

    /// Everything `pre` covers, `post` covers.
    pub open spec fn mono(pre: Buckets, post: Buckets) -> bool {
        forall|l: int, w: int, s: Board|
            #![trigger pre.covers(l, w, s)]
            #![trigger post.covers(l, w, s)]
            pre.covers(l, w, s) ==> post.covers(l, w, s)
    }

    /// Fresh, empty buckets.
    pub fn new() -> (r: Buckets)
        ensures
            forall|l: int, w: int| (#[trigger] r.bucket(l, w)).len() == 0,
    {
        Buckets {
            v1w0: Vec::new(),
            v1w1: Vec::new(),
            v2w0: Vec::new(),
            v2w1: Vec::new(),
            v2w2: Vec::new(),
            v3w0: Vec::new(),
            v3w1: Vec::new(),
            v3w2: Vec::new(),
            v3w3: Vec::new(),
            v4w0: Vec::new(),
            v4w1: Vec::new(),
            v4w2: Vec::new(),
            v4w3: Vec::new(),
            v4w4: Vec::new(),
        }
    }
}

pub proof fn lemma_mono_trans(a: Buckets, b: Buckets, c: Buckets)
    requires
        Buckets::mono(a, b),
        Buckets::mono(b, c),
    ensures
        Buckets::mono(a, c),
{
    assert forall|l: int, w: int, s: Board| a.covers(l, w, s) implies c.covers(l, w, s) by {
        assert(b.covers(l, w, s));
    }
}

/// Insert a record into its class bucket, deduplicating by position: the
/// class's positions gain exactly the record's position, everything else
/// is untouched.
pub(crate) fn insert_bucket(
    bk: &mut Buckets,
    l: usize,
    w: usize,
    rec: TurnRec,
    Ghost(b0): Ghost<Board>,
    Ghost(turn): Ghost<bool>,
    Ghost(d0): Ghost<u8>,
    Ghost(d1): Ghost<u8>,
)
    requires
        1 <= l <= 4,
        w <= l,
        old(bk).inv(b0, turn, d0, d1),
        rec_ok(rec, b0, turn, d0, d1, l as int, w as int),
    ensures
        final(bk).inv(b0, turn, d0, d1),
        Buckets::mono(*old(bk), *final(bk)),
        final(bk).covers(l as int, w as int, rec.state@),
        forall|l2: int, w2: int, s: Board|
            #[trigger] final(bk).covers(l2, w2, s) ==> old(bk).covers(l2, w2, s) || (l2 == l as int
                && w2 == w as int && s == rec.state@),
{
    let ghost pre = *bk;
    proof {
        assert(entries_ok(pre.bucket(l as int, w as int), b0, turn, d0, d1, l as int, w as int));
        assert(distinct_states(pre.bucket(l as int, w as int)));
    }
    if l == 1 && w == 0 {
        insert_dedup(&mut bk.v1w0, rec, Ghost(b0), Ghost(turn), Ghost(d0), Ghost(d1), Ghost(1), Ghost(0));
    } else if l == 1 && w == 1 {
        insert_dedup(&mut bk.v1w1, rec, Ghost(b0), Ghost(turn), Ghost(d0), Ghost(d1), Ghost(1), Ghost(1));
    } else if l == 2 && w == 0 {
        insert_dedup(&mut bk.v2w0, rec, Ghost(b0), Ghost(turn), Ghost(d0), Ghost(d1), Ghost(2), Ghost(0));
    } else if l == 2 && w == 1 {
        insert_dedup(&mut bk.v2w1, rec, Ghost(b0), Ghost(turn), Ghost(d0), Ghost(d1), Ghost(2), Ghost(1));
    } else if l == 2 && w == 2 {
        insert_dedup(&mut bk.v2w2, rec, Ghost(b0), Ghost(turn), Ghost(d0), Ghost(d1), Ghost(2), Ghost(2));
    } else if l == 3 && w == 0 {
        insert_dedup(&mut bk.v3w0, rec, Ghost(b0), Ghost(turn), Ghost(d0), Ghost(d1), Ghost(3), Ghost(0));
    } else if l == 3 && w == 1 {
        insert_dedup(&mut bk.v3w1, rec, Ghost(b0), Ghost(turn), Ghost(d0), Ghost(d1), Ghost(3), Ghost(1));
    } else if l == 3 && w == 2 {
        insert_dedup(&mut bk.v3w2, rec, Ghost(b0), Ghost(turn), Ghost(d0), Ghost(d1), Ghost(3), Ghost(2));
    } else if l == 3 && w == 3 {
        insert_dedup(&mut bk.v3w3, rec, Ghost(b0), Ghost(turn), Ghost(d0), Ghost(d1), Ghost(3), Ghost(3));
    } else if l == 4 && w == 0 {
        insert_dedup(&mut bk.v4w0, rec, Ghost(b0), Ghost(turn), Ghost(d0), Ghost(d1), Ghost(4), Ghost(0));
    } else if l == 4 && w == 1 {
        insert_dedup(&mut bk.v4w1, rec, Ghost(b0), Ghost(turn), Ghost(d0), Ghost(d1), Ghost(4), Ghost(1));
    } else if l == 4 && w == 2 {
        insert_dedup(&mut bk.v4w2, rec, Ghost(b0), Ghost(turn), Ghost(d0), Ghost(d1), Ghost(4), Ghost(2));
    } else if l == 4 && w == 3 {
        insert_dedup(&mut bk.v4w3, rec, Ghost(b0), Ghost(turn), Ghost(d0), Ghost(d1), Ghost(4), Ghost(3));
    } else {
        insert_dedup(&mut bk.v4w4, rec, Ghost(b0), Ghost(turn), Ghost(d0), Ghost(d1), Ghost(4), Ghost(4));
    }
    proof {
        let li = l as int;
        let wi = w as int;
        assert forall|l2: int, w2: int|
            entries_ok(#[trigger] bk.bucket(l2, w2), b0, turn, d0, d1, l2, w2) && distinct_states(
                bk.bucket(l2, w2),
            ) by {
            assert(entries_ok(pre.bucket(l2, w2), b0, turn, d0, d1, l2, w2));
            assert(distinct_states(pre.bucket(l2, w2)));
            if !(l2 == li && w2 == wi) {
                assert(bk.bucket(l2, w2) == pre.bucket(l2, w2));
            }
        }
    }
}

} // verus!

verus! {

/// No generator-legal move of `die` exists from `b`.
pub open spec fn stuck(b: Board, turn: bool, die: u8) -> bool {
    forall|f: u8| !gen_ok(b, turn, f, die)
}

/// The two-atom sequence playing `f1` with `da`, then `f2` with `db`.
pub open spec fn pair_ms(f1: u8, da: u8, f2: u8, db: u8) -> Seq<(u8, u8)> {
    seq![(f1, da), (f2, db)]
}

/// Bucket coverage of the specific pair `(f1, da), (f2, db)`.
pub open spec fn pair_covered(
    bk: Buckets,
    b0: Board,
    turn: bool,
    da: u8,
    db: u8,
    f1: u8,
    f2: u8,
) -> bool {
    bk.covers(
        2,
        seq_waste(b0, turn, pair_ms(f1, da, f2, db)),
        seq_result(b0, turn, pair_ms(f1, da, f2, db)),
    )
}

/// Every candidate starting with `(f1, da)` — a full pair continuing with
/// `db`, or the dead-ended single atom — is covered.
pub open spec fn starts_covered(
    bk: Buckets,
    b0: Board,
    turn: bool,
    da: u8,
    db: u8,
    f1: u8,
) -> bool {
    &&& (forall|ms: Seq<(u8, u8)>|
        #![trigger seq_ok(b0, turn, ms)]
        seq_ok(b0, turn, ms) && ms.len() == 2 && ms[0].0 == f1 && ms[0].1 == da && ms[1].1 == db
            ==> bk.covers(2, seq_waste(b0, turn, ms), seq_result(b0, turn, ms)))
    &&& (forall|ms: Seq<(u8, u8)>|
        #![trigger seq_ok(b0, turn, ms)]
        seq_ok(b0, turn, ms) && ms.len() == 1 && ms[0].0 == f1 && ms[0].1 == da && stuck(
            seq_result(b0, turn, ms),
            turn,
            db,
        ) ==> bk.covers(1, seq_waste(b0, turn, ms), seq_result(b0, turn, ms)))
}

pub proof fn lemma_starts_covered_mono(
    pre: Buckets,
    post: Buckets,
    b0: Board,
    turn: bool,
    da: u8,
    db: u8,
    f1: u8,
)
    requires
        starts_covered(pre, b0, turn, da, db, f1),
        Buckets::mono(pre, post),
    ensures
        starts_covered(post, b0, turn, da, db, f1),
{
    assert forall|ms: Seq<(u8, u8)>|
        seq_ok(b0, turn, ms) && ms.len() == 2 && ms[0].0 == f1 && ms[0].1 == da && ms[1].1
            == db implies post.covers(2, seq_waste(b0, turn, ms), seq_result(b0, turn, ms)) by {
        assert(pre.covers(2, seq_waste(b0, turn, ms), seq_result(b0, turn, ms)));
    }
    assert forall|ms: Seq<(u8, u8)>|
        seq_ok(b0, turn, ms) && ms.len() == 1 && ms[0].0 == f1 && ms[0].1 == da && stuck(
            seq_result(b0, turn, ms),
            turn,
            db,
        ) implies post.covers(1, seq_waste(b0, turn, ms), seq_result(b0, turn, ms)) by {
        assert(pre.covers(1, seq_waste(b0, turn, ms), seq_result(b0, turn, ms)));
    }
}

/// One ordered pass for a non-doubles roll `{d0, d1}`: play `da` first and
/// `db` second. Afterwards every full pair in this order and every
/// dead-ended single `da` atom is covered by its class bucket.
pub(crate) fn generate_double(
    state: &GameState,
    turn: bool,
    da: u8,
    db: u8,
    bk: &mut Buckets,
    Ghost(d0): Ghost<u8>,
    Ghost(d1): Ghost<u8>,
)
    requires
        state.wf(),
        1 <= da <= 6,
        1 <= db <= 6,
        d0 != d1,
        (da == d0 && db == d1) || (da == d1 && db == d0),
        old(bk).inv(state@, turn, d0, d1),
    ensures
        final(bk).inv(state@, turn, d0, d1),
        Buckets::mono(*old(bk), *final(bk)),
        forall|ms: Seq<(u8, u8)>|
            #![trigger seq_ok(state@, turn, ms)]
            seq_ok(state@, turn, ms) && ms.len() == 2 && ms[0].1 == da && ms[1].1 == db
                ==> final(bk).covers(2, seq_waste(state@, turn, ms), seq_result(state@, turn, ms)),
        forall|ms: Seq<(u8, u8)>|
            #![trigger seq_ok(state@, turn, ms)]
            seq_ok(state@, turn, ms) && ms.len() == 1 && ms[0].1 == da && stuck(
                seq_result(state@, turn, ms),
                turn,
                db,
            ) ==> final(bk).covers(1, seq_waste(state@, turn, ms), seq_result(state@, turn, ms)),
{
    let ghost b0 = state@;
    let ghost bk0 = *bk;
    let mut list1: Vec<(u8, u8)> = Vec::new();
    let w1 = state.get_possible_moves(turn, da, &mut list1);
    let ghost l1 = list1@;
    let n1 = list1.len();
    let mut i: usize = 0;
    while i < n1
        invariant
            state.wf(),
            b0 == state@,
            1 <= da <= 6 && 1 <= db <= 6 && d0 != d1,
            (da == d0 && db == d1) || (da == d1 && db == d0),
            n1 == l1.len(),
            list1@ == l1,
            0 <= i <= n1,
            forall|k: int|
                0 <= k < l1.len() ==> gen_ok(b0, turn, (#[trigger] l1[k]).0, da) && (move_wasteful(
                    b0,
                    turn,
                    l1[k].0,
                    da,
                ) <==> w1),
            forall|f: u8|
                gen_ok(b0, turn, f, da) ==> l1.contains((f, crate::moves::listed_to(turn, f, da))),
            bk.inv(b0, turn, d0, d1),
            Buckets::mono(bk0, *bk),
            forall|k: int|
                0 <= k < i ==> starts_covered(*bk, b0, turn, da, db, (#[trigger] l1[k]).0),
        decreases n1 - i,
    {
        let ghost bk_outer = *bk;
        let (f1, _t1) = list1[i];
        let s1 = match state.do_move(turn, f1, da) {
            Ok(s) => s,
            Err(_) => {
                proof {
                    assert(false);
                }
                *state
            },
        };
        let ghost m1 = (f1, da);
        let ghost ms1 = Seq::<(u8, u8)>::empty().push(m1);
        let ghost w1n: int = if w1 {
            1int
        } else {
            0int
        };
        proof {
            lemma_seq_empty(b0, turn);
            lemma_seq_push(b0, turn, Seq::<(u8, u8)>::empty(), m1);
            assert(seq_ok(b0, turn, ms1));
            assert(seq_result(b0, turn, ms1) == s1@);
            assert(seq_waste(b0, turn, ms1) == w1n);
        }
        let mut list2: Vec<(u8, u8)> = Vec::new();
        let w2 = s1.get_possible_moves(turn, db, &mut list2);
        let ghost l2 = list2@;
        if list2.len() == 0 {
            let mut av = crate::movelist::av_new();
            crate::movelist::av_push(&mut av, (f1, da));
            let rec = TurnRec { state: s1, moves: av };
            proof {
                assert(crate::movelist::move_atoms(rec.moves) =~= ms1);
                assert(rec_ok(rec, b0, turn, d0, d1, 1, w1n));
            }
            let wexec: usize = if w1 {
                1
            } else {
                0
            };
            insert_bucket(bk, 1, wexec, rec, Ghost(b0), Ghost(turn), Ghost(d0), Ghost(d1));
            proof {
                assert forall|ms: Seq<(u8, u8)>|
                    seq_ok(b0, turn, ms) && ms.len() == 1 && ms[0].0 == f1 && ms[0].1 == da
                        && stuck(seq_result(b0, turn, ms), turn, db) implies bk.covers(
                    1,
                    seq_waste(b0, turn, ms),
                    seq_result(b0, turn, ms),
                ) by {
                    assert(ms =~= ms1);
                }
                assert forall|ms: Seq<(u8, u8)>|
                    seq_ok(b0, turn, ms) && ms.len() == 2 && ms[0].0 == f1 && ms[0].1 == da
                        && ms[1].1 == db implies bk.covers(
                    2,
                    seq_waste(b0, turn, ms),
                    seq_result(b0, turn, ms),
                ) by {
                    assert(seq_ok(move_result(b0, turn, ms[0].0, ms[0].1), turn, ms.subrange(1, 2)));
                    assert(move_result(b0, turn, ms[0].0, ms[0].1) == s1@);
                    assert(gen_ok(s1@, turn, ms.subrange(1, 2)[0].0, db));
                    assert(l2.contains(
                        (ms[1].0, crate::moves::listed_to(turn, ms[1].0, db)),
                    ));
                    assert(false);
                }
                assert(starts_covered(*bk, b0, turn, da, db, f1));
            }
        } else {
            let n2 = list2.len();
            let ghost bk_mid = *bk;
            let mut j: usize = 0;
            while j < n2
                invariant
                    state.wf(),
                    b0 == state@,
                    1 <= da <= 6 && 1 <= db <= 6 && d0 != d1,
                    (da == d0 && db == d1) || (da == d1 && db == d0),
                    s1.wf(),
                    s1@ == move_result(b0, turn, f1, da),
                    gen_ok(b0, turn, f1, da),
                    m1 == (f1, da),
                    ms1 == Seq::<(u8, u8)>::empty().push(m1),
                    seq_ok(b0, turn, ms1),
                    seq_result(b0, turn, ms1) == s1@,
                    seq_waste(b0, turn, ms1) == w1n,
                    w1n == if w1 { 1int } else { 0int },
                    (move_wasteful(b0, turn, f1, da) <==> w1),
                    n2 == l2.len(),
                    list2@ == l2,
                    0 <= j <= n2,
                    forall|k: int|
                        0 <= k < l2.len() ==> gen_ok(s1@, turn, (#[trigger] l2[k]).0, db) && (
                        move_wasteful(s1@, turn, l2[k].0, db) <==> w2),
                    forall|f: u8|
                        gen_ok(s1@, turn, f, db) ==> l2.contains(
                            (f, crate::moves::listed_to(turn, f, db)),
                        ),
                    bk.inv(b0, turn, d0, d1),
                    Buckets::mono(bk_mid, *bk),
                    forall|k: int|
                        0 <= k < j ==> pair_covered(*bk, b0, turn, da, db, f1, (#[trigger] l2[k]).0),
                decreases n2 - j,
            {
                let ghost bk_inner = *bk;
                let (f2, _t2) = list2[j];
                let s2 = match s1.do_move(turn, f2, db) {
                    Ok(s) => s,
                    Err(_) => {
                        proof {
                            assert(false);
                        }
                        s1
                    },
                };
                let mut av = crate::movelist::av_new();
                crate::movelist::av_push(&mut av, (f1, da));
                crate::movelist::av_push(&mut av, (f2, db));
                let ghost ms2 = ms1.push((f2, db));
                let ghost w2n: int = if w2 {
                    1int
                } else {
                    0int
                };
                proof {
                    lemma_seq_push(b0, turn, ms1, (f2, db));
                    assert(crate::movelist::move_atoms(av) =~= ms2);
                    assert(seq_result(b0, turn, ms2) == s2@);
                    assert(seq_waste(b0, turn, ms2) == w1n + w2n);
                    assert(ms2 =~= pair_ms(f1, da, f2, db));
                }
                let wexec: usize = (if w1 {
                    1
                } else {
                    0
                }) + (if w2 {
                    1
                } else {
                    0
                });
                let rec = TurnRec { state: s2, moves: av };
                proof {
                    assert(rec_ok(rec, b0, turn, d0, d1, 2, w1n + w2n));
                }
                insert_bucket(bk, 2, wexec, rec, Ghost(b0), Ghost(turn), Ghost(d0), Ghost(d1));
                proof {
                    assert(pair_covered(*bk, b0, turn, da, db, f1, f2));
                    assert forall|k: int| 0 <= k < j + 1 implies pair_covered(
                        *bk,
                        b0,
                        turn,
                        da,
                        db,
                        f1,
                        (#[trigger] l2[k]).0,
                    ) by {
                        if k < j {
                            assert(pair_covered(bk_inner, b0, turn, da, db, f1, l2[k].0));
                            assert(bk_inner.covers(
                                2,
                                seq_waste(b0, turn, pair_ms(f1, da, l2[k].0, db)),
                                seq_result(b0, turn, pair_ms(f1, da, l2[k].0, db)),
                            ));
                        }
                    }
                    lemma_mono_trans(bk_mid, bk_inner, *bk);
                }
                j += 1;
            }
            proof {
                // All pairs starting with (f1, da) are covered; no dead end here.
                assert forall|ms: Seq<(u8, u8)>|
                    seq_ok(b0, turn, ms) && ms.len() == 2 && ms[0].0 == f1 && ms[0].1 == da
                        && ms[1].1 == db implies bk.covers(
                    2,
                    seq_waste(b0, turn, ms),
                    seq_result(b0, turn, ms),
                ) by {
                    assert(seq_ok(move_result(b0, turn, ms[0].0, ms[0].1), turn, ms.subrange(1, 2)));
                    assert(move_result(b0, turn, ms[0].0, ms[0].1) == s1@);
                    assert(ms.subrange(1, 2)[0] == ms[1]);
                    assert(gen_ok(s1@, turn, ms[1].0, db));
                    assert(l2.contains((ms[1].0, crate::moves::listed_to(turn, ms[1].0, db))));
                    let k = choose|k: int|
                        0 <= k < l2.len() && l2[k] == (
                        ms[1].0,
                        crate::moves::listed_to(turn, ms[1].0, db),
                        );
                    assert(pair_covered(*bk, b0, turn, da, db, f1, ms[1].0));
                    assert(ms =~= pair_ms(f1, da, ms[1].0, db));
                }
                assert forall|ms: Seq<(u8, u8)>|
                    seq_ok(b0, turn, ms) && ms.len() == 1 && ms[0].0 == f1 && ms[0].1 == da
                        && stuck(seq_result(b0, turn, ms), turn, db) implies bk.covers(
                    1,
                    seq_waste(b0, turn, ms),
                    seq_result(b0, turn, ms),
                ) by {
                    assert(ms =~= ms1);
                    assert(seq_result(b0, turn, ms) == s1@);
                    assert(gen_ok(s1@, turn, l2[0].0, db));
                    assert(!stuck(s1@, turn, db));
                }
                assert(starts_covered(*bk, b0, turn, da, db, f1));
            }
        }
        proof {
            lemma_mono_trans(bk0, bk_outer, *bk);
            assert forall|k: int| 0 <= k < i + 1 implies starts_covered(
                *bk,
                b0,
                turn,
                da,
                db,
                (#[trigger] l1[k]).0,
            ) by {
                if k < i {
                    lemma_starts_covered_mono(bk_outer, *bk, b0, turn, da, db, l1[k].0);
                }
            }
        }
        i += 1;
    }
    proof {
        assert forall|ms: Seq<(u8, u8)>|
            seq_ok(b0, turn, ms) && ms.len() == 2 && ms[0].1 == da && ms[1].1 == db implies bk
            .covers(2, seq_waste(b0, turn, ms), seq_result(b0, turn, ms)) by {
            assert(gen_ok(b0, turn, ms[0].0, da));
            assert(l1.contains((ms[0].0, crate::moves::listed_to(turn, ms[0].0, da))));
            let k = choose|k: int|
                0 <= k < l1.len() && l1[k] == (
                ms[0].0,
                crate::moves::listed_to(turn, ms[0].0, da),
                );
            assert(starts_covered(*bk, b0, turn, da, db, ms[0].0));
        }
        assert forall|ms: Seq<(u8, u8)>|
            seq_ok(b0, turn, ms) && ms.len() == 1 && ms[0].1 == da && stuck(
                seq_result(b0, turn, ms),
                turn,
                db,
            ) implies bk.covers(1, seq_waste(b0, turn, ms), seq_result(b0, turn, ms)) by {
            assert(gen_ok(b0, turn, ms[0].0, da));
            assert(l1.contains((ms[0].0, crate::moves::listed_to(turn, ms[0].0, da))));
            let k = choose|k: int|
                0 <= k < l1.len() && l1[k] == (
                ms[0].0,
                crate::moves::listed_to(turn, ms[0].0, da),
                );
            assert(starts_covered(*bk, b0, turn, da, db, ms[0].0));
        }
    }
}

} // verus!

verus! {

/// Every continuation of the prefix `ms` that starts by playing `(f, d)`
/// and ends the turn (four atoms in all, or no further move) is covered.
pub open spec fn ext_covered(
    bk: Buckets,
    b0: Board,
    turn: bool,
    d: u8,
    ms: Seq<(u8, u8)>,
    f: u8,
) -> bool {
    forall|suf: Seq<(u8, u8)>|
        #![trigger seq_ok(seq_result(b0, turn, ms), turn, suf)]
        seq_ok(seq_result(b0, turn, ms), turn, suf) && suf.len() >= 1 && suf[0].0 == f
            && (forall|k: int| 0 <= k < suf.len() ==> (#[trigger] suf[k]).1 == d) && ms.len()
            + suf.len() <= 4 && (ms.len() + suf.len() == 4 || stuck(
            seq_result(b0, turn, ms + suf),
            turn,
            d,
        )) ==> bk.covers(
            ms.len() + suf.len() as int,
            seq_waste(b0, turn, ms + suf),
            seq_result(b0, turn, ms + suf),
        )
}

pub proof fn lemma_ext_covered_mono(
    pre: Buckets,
    post: Buckets,
    b0: Board,
    turn: bool,
    d: u8,
    ms: Seq<(u8, u8)>,
    f: u8,
)
    requires
        ext_covered(pre, b0, turn, d, ms, f),
        Buckets::mono(pre, post),
    ensures
        ext_covered(post, b0, turn, d, ms, f),
{
    assert forall|suf: Seq<(u8, u8)>|
        seq_ok(seq_result(b0, turn, ms), turn, suf) && suf.len() >= 1 && suf[0].0 == f
            && (forall|k: int| 0 <= k < suf.len() ==> (#[trigger] suf[k]).1 == d) && ms.len()
            + suf.len() <= 4 && (ms.len() + suf.len() == 4 || stuck(
            seq_result(b0, turn, ms + suf),
            turn,
            d,
        )) implies post.covers(
        ms.len() + suf.len() as int,
        seq_waste(b0, turn, ms + suf),
        seq_result(b0, turn, ms + suf),
    ) by {
        assert(pre.covers(
            ms.len() + suf.len() as int,
            seq_waste(b0, turn, ms + suf),
            seq_result(b0, turn, ms + suf),
        ));
    }
}

/// Depth-first extension of a doubles prefix: afterwards, every
/// continuation of `ms` by atoms of `d` that completes a turn — reaching
/// four atoms, or ending where no move of `d` remains — is covered by its
/// class bucket.
pub(crate) fn generate_quadruple(
    cur: &GameState,
    turn: bool,
    d: u8,
    av: arrayvec::ArrayVec<(u8, u8), 4>,
    used: usize,
    w: usize,
    bk: &mut Buckets,
    Ghost(b0): Ghost<Board>,
    Ghost(ms): Ghost<Seq<(u8, u8)>>,
)
    requires
        b0.wf(),
        cur.wf(),
        1 <= d <= 6,
        seq_ok(b0, turn, ms),
        cur@ == seq_result(b0, turn, ms),
        crate::movelist::move_atoms(av) == ms,
        used == ms.len(),
        used <= 4,
        w as int == seq_waste(b0, turn, ms),
        forall|k: int| 0 <= k < ms.len() ==> (#[trigger] ms[k]).1 == d,
        old(bk).inv(b0, turn, d, d),
    ensures
        final(bk).inv(b0, turn, d, d),
        Buckets::mono(*old(bk), *final(bk)),
        forall|suf: Seq<(u8, u8)>|
            #![trigger seq_ok(seq_result(b0, turn, ms), turn, suf)]
            seq_ok(seq_result(b0, turn, ms), turn, suf) && (forall|k: int|
                0 <= k < suf.len() ==> (#[trigger] suf[k]).1 == d) && 1 <= ms.len() + suf.len() <= 4
                && (ms.len() + suf.len() == 4 || stuck(seq_result(b0, turn, ms + suf), turn, d))
                ==> final(bk).covers(
                ms.len() + suf.len() as int,
                seq_waste(b0, turn, ms + suf),
                seq_result(b0, turn, ms + suf),
            ),
    decreases 4 - used,
{
    let ghost bk0 = *bk;
    proof {
        lemma_seq_waste_bounds(b0, turn, ms);
    }
    if used == 4 {
        let rec = TurnRec { state: *cur, moves: av };
        proof {
            assert(rec_ok(rec, b0, turn, d, d, 4, w as int));
        }
        insert_bucket(bk, 4, w, rec, Ghost(b0), Ghost(turn), Ghost(d), Ghost(d));
        proof {
            assert forall|suf: Seq<(u8, u8)>|
                seq_ok(seq_result(b0, turn, ms), turn, suf) && (forall|k: int|
                    0 <= k < suf.len() ==> (#[trigger] suf[k]).1 == d) && 1 <= ms.len() + suf.len()
                    <= 4 && (ms.len() + suf.len() == 4 || stuck(
                    seq_result(b0, turn, ms + suf),
                    turn,
                    d,
                )) implies bk.covers(
                ms.len() + suf.len() as int,
                seq_waste(b0, turn, ms + suf),
                seq_result(b0, turn, ms + suf),
            ) by {
                assert(suf.len() == 0);
                assert(ms + suf =~= ms);
            }
        }
        return ;
    }
    let mut list: Vec<(u8, u8)> = Vec::new();
    let wl = cur.get_possible_moves(turn, d, &mut list);
    let ghost lv = list@;
    if list.len() == 0 {
        if used >= 1 {
            let rec = TurnRec { state: *cur, moves: av };
            proof {
                assert(rec_ok(rec, b0, turn, d, d, used as int, w as int));
            }
            insert_bucket(bk, used, w, rec, Ghost(b0), Ghost(turn), Ghost(d), Ghost(d));
        }
        proof {
            assert forall|suf: Seq<(u8, u8)>|
                seq_ok(seq_result(b0, turn, ms), turn, suf) && (forall|k: int|
                    0 <= k < suf.len() ==> (#[trigger] suf[k]).1 == d) && 1 <= ms.len() + suf.len()
                    <= 4 && (ms.len() + suf.len() == 4 || stuck(
                    seq_result(b0, turn, ms + suf),
                    turn,
                    d,
                )) implies bk.covers(
                ms.len() + suf.len() as int,
                seq_waste(b0, turn, ms + suf),
                seq_result(b0, turn, ms + suf),
            ) by {
                if suf.len() >= 1 {
                    assert(gen_ok(cur@, turn, suf[0].0, suf[0].1));
                    assert(suf[0].1 == d);
                    assert(lv.contains(
                        (suf[0].0, crate::moves::listed_to(turn, suf[0].0, d)),
                    ));
                    assert(false);
                } else {
                    assert(ms + suf =~= ms);
                }
            }
        }
        return ;
    }
    let n = list.len();
    let mut i: usize = 0;
    while i < n
        invariant
            b0.wf(),
            cur.wf(),
            1 <= d <= 6,
            seq_ok(b0, turn, ms),
            cur@ == seq_result(b0, turn, ms),
            crate::movelist::move_atoms(av) == ms,
            used == ms.len(),
            used < 4,
            w as int == seq_waste(b0, turn, ms),
            0 <= w <= used,
            forall|k: int| 0 <= k < ms.len() ==> (#[trigger] ms[k]).1 == d,
            n == lv.len(),
            list@ == lv,
            n > 0,
            0 <= i <= n,
            forall|k: int|
                0 <= k < lv.len() ==> gen_ok(cur@, turn, (#[trigger] lv[k]).0, d) && (move_wasteful(
                    cur@,
                    turn,
                    lv[k].0,
                    d,
                ) <==> wl),
            forall|f: u8|
                gen_ok(cur@, turn, f, d) ==> lv.contains((f, crate::moves::listed_to(turn, f, d))),
            bk.inv(b0, turn, d, d),
            Buckets::mono(bk0, *bk),
            forall|k: int| 0 <= k < i ==> ext_covered(*bk, b0, turn, d, ms, (#[trigger] lv[k]).0),
        decreases n - i,
    {
        let ghost bk_pre = *bk;
        let (f, _t) = list[i];
        let snext = match cur.do_move(turn, f, d) {
            Ok(s) => s,
            Err(_) => {
                proof {
                    assert(false);
                }
                *cur
            },
        };
        let mut av2 = crate::movelist::av_clone(&av);
        crate::movelist::av_push(&mut av2, (f, d));
        let ghost ms2 = ms.push((f, d));
        let wn: usize = if wl {
            w + 1
        } else {
            w
        };
        proof {
            lemma_seq_push(b0, turn, ms, (f, d));
            assert(seq_ok(b0, turn, ms2));
            assert(seq_result(b0, turn, ms2) == snext@);
            assert(wn as int == seq_waste(b0, turn, ms2));
            assert(forall|k: int| 0 <= k < ms2.len() ==> (#[trigger] ms2[k]).1 == d);
        }
        generate_quadruple(&snext, turn, d, av2, used + 1, wn, bk, Ghost(b0), Ghost(ms2));
        proof {
            // the child's coverage gives ext_covered for this first atom
            assert forall|suf: Seq<(u8, u8)>|
                seq_ok(seq_result(b0, turn, ms), turn, suf) && suf.len() >= 1 && suf[0].0 == f && (
                forall|k: int| 0 <= k < suf.len() ==> (#[trigger] suf[k]).1 == d) && ms.len()
                + suf.len() <= 4 && (ms.len() + suf.len() == 4 || stuck(
                seq_result(b0, turn, ms + suf),
                turn,
                d,
            )) implies bk.covers(
                ms.len() + suf.len() as int,
                seq_waste(b0, turn, ms + suf),
                seq_result(b0, turn, ms + suf),
            ) by {
                let suf2 = suf.subrange(1, suf.len() as int);
                assert(suf[0] == (f, d));
                assert(move_result(cur@, turn, suf[0].0, suf[0].1) == snext@);
                assert(seq_ok(seq_result(b0, turn, ms2), turn, suf2));
                assert(forall|k: int| 0 <= k < suf2.len() ==> (#[trigger] suf2[k]).1 == d);
                assert(ms2 + suf2 =~= ms + suf);
                assert(1 <= ms2.len() + suf2.len() <= 4);
                assert(ms2.len() + suf2.len() == ms.len() + suf.len());
            }
            assert(ext_covered(*bk, b0, turn, d, ms, f));
            lemma_mono_trans(bk0, bk_pre, *bk);
            assert forall|k: int| 0 <= k < i + 1 implies ext_covered(
                *bk,
                b0,
                turn,
                d,
                ms,
                (#[trigger] lv[k]).0,
            ) by {
                if k < i {
                    lemma_ext_covered_mono(bk_pre, *bk, b0, turn, d, ms, lv[k].0);
                }
            }
        }
        i += 1;
    }
    proof {
        assert forall|suf: Seq<(u8, u8)>|
            seq_ok(seq_result(b0, turn, ms), turn, suf) && (forall|k: int|
                0 <= k < suf.len() ==> (#[trigger] suf[k]).1 == d) && 1 <= ms.len() + suf.len() <= 4
                && (ms.len() + suf.len() == 4 || stuck(seq_result(b0, turn, ms + suf), turn, d))
                implies bk.covers(
            ms.len() + suf.len() as int,
            seq_waste(b0, turn, ms + suf),
            seq_result(b0, turn, ms + suf),
        ) by {
            if suf.len() == 0 {
                // the turn cannot end here: a move of `d` exists
                assert(ms + suf =~= ms);
                assert(gen_ok(cur@, turn, lv[0].0, d));
                assert(!stuck(seq_result(b0, turn, ms + suf), turn, d));
                assert(ms.len() + suf.len() < 4);
                assert(false);
            } else {
                assert(gen_ok(cur@, turn, suf[0].0, d));
                assert(lv.contains((suf[0].0, crate::moves::listed_to(turn, suf[0].0, d))));
                let k = choose|k: int|
                    0 <= k < lv.len() && lv[k] == (
                    suf[0].0,
                    crate::moves::listed_to(turn, suf[0].0, d),
                    );
                assert(ext_covered(*bk, b0, turn, d, ms, suf[0].0));
            }
        }
    }
}

} // verus!

verus! {

/// Every doubles turn that ends (four atoms, or no move of `d` left) is
/// covered by its class bucket.
pub open spec fn quad_complete(bk: Buckets, b0: Board, turn: bool, d: u8) -> bool {
    forall|ms: Seq<(u8, u8)>|
        #![trigger seq_ok(b0, turn, ms)]
        seq_ok(b0, turn, ms) && (forall|k: int| 0 <= k < ms.len() ==> (#[trigger] ms[k]).1 == d)
            && 1 <= ms.len() <= 4 && (ms.len() == 4 || stuck(seq_result(b0, turn, ms), turn, d))
            ==> bk.covers(ms.len() as int, seq_waste(b0, turn, ms), seq_result(b0, turn, ms))
}

/// Any doubles candidate extends to one that the buckets hold, at its
/// length or longer.
pub proof fn lemma_extend_to_covered(bk: Buckets, b0: Board, turn: bool, d: u8, ms: Seq<(u8, u8)>)
    requires
        quad_complete(bk, b0, turn, d),
        seq_ok(b0, turn, ms),
        forall|k: int| 0 <= k < ms.len() ==> (#[trigger] ms[k]).1 == d,
        1 <= ms.len() <= 4,
    ensures
        exists|l: int, w: int|
            ms.len() <= l <= 4 && 0 <= w <= l && (#[trigger] bk.bucket(l, w)).len() > 0,
    decreases 4 - ms.len(),
{
    if ms.len() == 4 || stuck(seq_result(b0, turn, ms), turn, d) {
        lemma_seq_waste_bounds(b0, turn, ms);
        let wv = seq_waste(b0, turn, ms);
        assert(bk.covers(ms.len() as int, wv, seq_result(b0, turn, ms)));
        let k = choose|k: int|
            0 <= k < bk.bucket(ms.len() as int, wv).len() && (#[trigger] bk.bucket(
                ms.len() as int,
                wv,
            )[k]).state@ == seq_result(b0, turn, ms);
        assert(ms.len() <= ms.len() as int <= 4 && 0 <= wv <= ms.len() as int && bk.bucket(
            ms.len() as int,
            wv,
        ).len() > 0);
    } else {
        let f = choose|f: u8| gen_ok(seq_result(b0, turn, ms), turn, f, d);
        lemma_seq_push(b0, turn, ms, (f, d));
        assert(forall|k: int|
            0 <= k < ms.push((f, d)).len() ==> (#[trigger] ms.push((f, d))[k]).1 == d);
        lemma_extend_to_covered(bk, b0, turn, d, ms.push((f, d)));
        let (l, w) = choose|l: int, w: int|
            ms.push((f, d)).len() <= l <= 4 && 0 <= w <= l && (#[trigger] bk.bucket(l, w)).len()
                > 0;
        assert(ms.len() <= l <= 4 && 0 <= w <= l && bk.bucket(l, w).len() > 0);
    }
}

/// Everything the generator promises about its output: each record replays
/// to its position using `used` dice, `waste` of them wastefully; positions
/// are pairwise distinct; no candidate uses more dice than `used`; none of
/// the same length wastes fewer moves; and every candidate of the chosen
/// class is represented.
pub open spec fn gen_post(
    rs: Seq<TurnRec>,
    b0: Board,
    turn: bool,
    d0: u8,
    d1: u8,
    used: int,
    waste: int,
) -> bool {
    &&& forall|k: int| 0 <= k < rs.len() ==> rec_ok(#[trigger] rs[k], b0, turn, d0, d1, used, waste)
    &&& distinct_states(rs)
    &&& forall|ms: Seq<(u8, u8)>|
        #![trigger cand(b0, turn, d0, d1, ms)]
        cand(b0, turn, d0, d1, ms) ==> ms.len() <= used
    &&& forall|ms: Seq<(u8, u8)>|
        #![trigger cand(b0, turn, d0, d1, ms)]
        cand(b0, turn, d0, d1, ms) && ms.len() == used ==> seq_waste(b0, turn, ms) >= waste
    &&& forall|ms: Seq<(u8, u8)>|
        #![trigger cand(b0, turn, d0, d1, ms)]
        cand(b0, turn, d0, d1, ms) && ms.len() == used && used > 0 && seq_waste(b0, turn, ms)
            == waste ==> has_state(rs, seq_result(b0, turn, ms))
    &&& used > 0 ==> rs.len() > 0
    &&& used == 0 ==> rs.len() == 0 && waste == 0
    &&& 0 <= waste <= used <= 4
}

/// The compound-move generator: one `generate` call fills `results` with
/// every distinct position reachable by a best-class turn for the roll.
pub struct MoveBuffer {
    pub dice: [u8; 2],
    pub turn: bool,
    pub state: GameState,
    pub results: Vec<TurnRec>,
    pub used: u8,
    pub waste: u8,
}

impl MoveBuffer {
    /// An empty buffer; `generate` fills it.
    pub fn new() -> (r: MoveBuffer)
        ensures
            r.results@.len() == 0,
            r.used == 0,
            r.waste == 0,
    {
        MoveBuffer {
            dice: [0, 0],
            turn: false,
            state: GameState::new(),
            results: Vec::new(),
            used: 0,
            waste: 0,
        }
    }
}

} // verus!

verus! {

impl MoveBuffer {
    /// Generate every best-class compound turn for `state`, `turn` and the
    /// roll `dice`: the highest number of usable dice, and among turns of
    /// that length the fewest wasteful moves, deduplicated by resulting
    /// position (`gen_post` states this exactly).
    pub fn generate(&mut self, turn: bool, state: GameState, dice: [u8; 2])
        requires
            state.wf(),
            1 <= dice[0] <= 6,
            1 <= dice[1] <= 6,
        ensures
            final(self).turn == turn,
            final(self).state == state,
            final(self).dice[0] == if dice[0] <= dice[1] {
                dice[0]
            } else {
                dice[1]
            },
            final(self).dice[1] == if dice[0] <= dice[1] {
                dice[1]
            } else {
                dice[0]
            },
            gen_post(
                final(self).results@,
                state@,
                turn,
                final(self).dice[0],
                final(self).dice[1],
                final(self).used as int,
                final(self).waste as int,
            ),
    {
        let (d0, d1): (u8, u8) = if dice[0] <= dice[1] {
            (dice[0], dice[1])
        } else {
            (dice[1], dice[0])
        };
        let ghost b0 = state@;
        let mut bk = Buckets::new();
        proof {
            assert forall|l: int, w: int|
                entries_ok(#[trigger] bk.bucket(l, w), b0, turn, d0, d1, l, w) && distinct_states(
                    bk.bucket(l, w),
                ) by {}
        }
        let ghost bk_start = bk;
        let ghost bk_a = bk;
        if d0 != d1 {
            generate_double(&state, turn, d0, d1, &mut bk, Ghost(d0), Ghost(d1));
            proof {
                bk_a = bk;
            }
            generate_double(&state, turn, d1, d0, &mut bk, Ghost(d0), Ghost(d1));
        } else {
            let av = crate::movelist::av_new();
            proof {
                lemma_seq_empty(b0, turn);
            }
            generate_quadruple(&state, turn, d0, av, 0, 0, &mut bk, Ghost(b0), Ghost(Seq::<(u8, u8)>::empty()));
        }
        let ghost bkf = bk;
        let mut out: Vec<TurnRec> = Vec::new();
        let (used, waste): (u8, u8) = if bk.v4w0.len() > 0 {
            core::mem::swap(&mut out, &mut bk.v4w0);
            (4, 0)
        } else if bk.v4w1.len() > 0 {
            core::mem::swap(&mut out, &mut bk.v4w1);
            (4, 1)
        } else if bk.v4w2.len() > 0 {
            core::mem::swap(&mut out, &mut bk.v4w2);
            (4, 2)
        } else if bk.v4w3.len() > 0 {
            core::mem::swap(&mut out, &mut bk.v4w3);
            (4, 3)
        } else if bk.v4w4.len() > 0 {
            core::mem::swap(&mut out, &mut bk.v4w4);
            (4, 4)
        } else if bk.v3w0.len() > 0 {
            core::mem::swap(&mut out, &mut bk.v3w0);
            (3, 0)
        } else if bk.v3w1.len() > 0 {
            core::mem::swap(&mut out, &mut bk.v3w1);
            (3, 1)
        } else if bk.v3w2.len() > 0 {
            core::mem::swap(&mut out, &mut bk.v3w2);
            (3, 2)
        } else if bk.v3w3.len() > 0 {
            core::mem::swap(&mut out, &mut bk.v3w3);
            (3, 3)
        } else if bk.v2w0.len() > 0 {
            core::mem::swap(&mut out, &mut bk.v2w0);
            (2, 0)
        } else if bk.v2w1.len() > 0 {
            core::mem::swap(&mut out, &mut bk.v2w1);
            (2, 1)
        } else if bk.v2w2.len() > 0 {
            core::mem::swap(&mut out, &mut bk.v2w2);
            (2, 2)
        } else if bk.v1w0.len() > 0 {
            core::mem::swap(&mut out, &mut bk.v1w0);
            (1, 0)
        } else if bk.v1w1.len() > 0 {
            core::mem::swap(&mut out, &mut bk.v1w1);
            (1, 1)
        } else {
            (0, 0)
        };
        proof {
            let li = used as int;
            let wi = waste as int;
            assert(0 <= wi <= li <= 4);
            assert(li > 0 ==> out@ == bkf.bucket(li, wi) && out@.len() > 0);
            assert(li == 0 ==> out@.len() == 0);
            assert(forall|l: int, w: int|
                1 <= l <= 4 && 0 <= w <= l && (l > li || (l == li && w < wi)) ==> (
                #[trigger] bkf.bucket(l, w)).len() == 0);
        }
        self.dice[0] = d0;
        self.dice[1] = d1;
        self.turn = turn;
        self.state = state;
        self.results = out;
        self.used = used;
        self.waste = waste;
        proof {
            let li = used as int;
            let wi = waste as int;
            let rs = self.results@;
            // Candidates of full length are covered by the passes.
            if d0 != d1 {
                assert forall|ms: Seq<(u8, u8)>|
                    cand(b0, turn, d0, d1, ms) && ms.len() == 2 implies bkf.covers(
                    2,
                    seq_waste(b0, turn, ms),
                    seq_result(b0, turn, ms),
                ) by {
                    if ms[0].1 == d0 && ms[1].1 == d1 {
                        assert(bk_a.covers(2, seq_waste(b0, turn, ms), seq_result(b0, turn, ms)));
                    } else {
                        assert(ms[0].1 == d1 && ms[1].1 == d0);
                    }
                }
            } else {
                assert forall|ms: Seq<(u8, u8)>|
                    seq_ok(b0, turn, ms) && (forall|k: int|
                        0 <= k < ms.len() ==> (#[trigger] ms[k]).1 == d0) && 1 <= ms.len() <= 4 && (
                    ms.len() == 4 || stuck(seq_result(b0, turn, ms), turn, d0)) implies bkf.covers(
                    ms.len() as int,
                    seq_waste(b0, turn, ms),
                    seq_result(b0, turn, ms),
                ) by {
                    let empty = Seq::<(u8, u8)>::empty();
                    assert(seq_result(b0, turn, empty) == b0);
                    assert(seq_ok(seq_result(b0, turn, empty), turn, ms));
                    assert(empty + ms =~= ms);
                }
                assert(quad_complete(bkf, b0, turn, d0));
            }
            // Maximality: no candidate uses more dice than the selection.
            assert forall|ms: Seq<(u8, u8)>| cand(b0, turn, d0, d1, ms) implies ms.len()
                <= li by {
                if ms.len() > li {
                    if d0 != d1 {
                        if ms.len() == 2 {
                            lemma_seq_waste_bounds(b0, turn, ms);
                            let wv = seq_waste(b0, turn, ms);
                            assert(bkf.covers(2, wv, seq_result(b0, turn, ms)));
                            let k = choose|k: int|
                                0 <= k < bkf.bucket(2, wv).len() && (#[trigger] bkf.bucket(
                                    2,
                                    wv,
                                )[k]).state@ == seq_result(b0, turn, ms);
                            assert(bkf.bucket(2, wv).len() > 0);
                            assert(false);
                        } else {
                            assert(ms.len() == 1 && li == 0);
                            let da = ms[0].1;
                            let db: u8 = if da == d0 {
                                d1
                            } else {
                                d0
                            };
                            let rb = seq_result(b0, turn, ms);
                            if stuck(rb, turn, db) {
                                lemma_seq_waste_bounds(b0, turn, ms);
                                let wv = seq_waste(b0, turn, ms);
                                assert(bkf.covers(1, wv, rb));
                                let k = choose|k: int|
                                    0 <= k < bkf.bucket(1, wv).len() && (#[trigger] bkf.bucket(
                                        1,
                                        wv,
                                    )[k]).state@ == rb;
                                assert(bkf.bucket(1, wv).len() > 0);
                                assert(false);
                            } else {
                                let f2 = choose|f: u8| gen_ok(rb, turn, f, db);
                                lemma_seq_push(b0, turn, ms, (f2, db));
                                let ms2 = ms.push((f2, db));
                                lemma_seq_waste_bounds(b0, turn, ms2);
                                assert(ms2[0] == ms[0]);
                                assert(cand(b0, turn, d0, d1, ms2));
                                let wv = seq_waste(b0, turn, ms2);
                                assert(bkf.covers(2, wv, seq_result(b0, turn, ms2)));
                                let k = choose|k: int|
                                    0 <= k < bkf.bucket(2, wv).len() && (#[trigger] bkf.bucket(
                                        2,
                                        wv,
                                    )[k]).state@ == seq_result(b0, turn, ms2);
                                assert(bkf.bucket(2, wv).len() > 0);
                                assert(false);
                            }
                        }
                    } else {
                        lemma_extend_to_covered(bkf, b0, turn, d0, ms);
                        let (l, w) = choose|l: int, w: int|
                            ms.len() <= l <= 4 && 0 <= w <= l && (#[trigger] bkf.bucket(
                                l,
                                w,
                            )).len() > 0;
                        assert(false);
                    }
                }
            }
            // Any candidate of the selected length is covered by its waste
            // class.
            assert forall|ms: Seq<(u8, u8)>|
                cand(b0, turn, d0, d1, ms) && ms.len() == li && li > 0 implies bkf.covers(
                li,
                seq_waste(b0, turn, ms),
                seq_result(b0, turn, ms),
            ) by {
                if d0 != d1 {
                    if li == 2 {
                    } else {
                        assert(li == 1);
                        let da = ms[0].1;
                        let db: u8 = if da == d0 {
                            d1
                        } else {
                            d0
                        };
                        let rb = seq_result(b0, turn, ms);
                        if !stuck(rb, turn, db) {
                            let f2 = choose|f: u8| gen_ok(rb, turn, f, db);
                            lemma_seq_push(b0, turn, ms, (f2, db));
                            let ms2 = ms.push((f2, db));
                            assert(ms2[0] == ms[0]);
                            assert(cand(b0, turn, d0, d1, ms2));
                            assert(ms2.len() <= li);
                            assert(false);
                        }
                    }
                } else {
                    if li == 4 {
                    } else {
                        let rb = seq_result(b0, turn, ms);
                        if !stuck(rb, turn, d0) {
                            let f2 = choose|f: u8| gen_ok(rb, turn, f, d0);
                            lemma_seq_push(b0, turn, ms, (f2, d0));
                            let ms2 = ms.push((f2, d0));
                            assert(forall|k: int|
                                0 <= k < ms2.len() ==> (#[trigger] ms2[k]).1 == d0);
                            assert(cand(b0, turn, d0, d1, ms2));
                            assert(ms2.len() <= li);
                            assert(false);
                        }
                    }
                }
            }
            // Minimal waste among candidates of the selected length.
            assert forall|ms: Seq<(u8, u8)>|
                cand(b0, turn, d0, d1, ms) && ms.len() == li implies seq_waste(b0, turn, ms)
                >= wi by {
                if li > 0 {
                    lemma_seq_waste_bounds(b0, turn, ms);
                    let wv = seq_waste(b0, turn, ms);
                    if wv < wi {
                        assert(bkf.covers(li, wv, seq_result(b0, turn, ms)));
                        let k = choose|k: int|
                            0 <= k < bkf.bucket(li, wv).len() && (#[trigger] bkf.bucket(
                                li,
                                wv,
                            )[k]).state@ == seq_result(b0, turn, ms);
                        assert(bkf.bucket(li, wv).len() > 0);
                        assert(false);
                    }
                }
            }
            // Exactness: every candidate of the selected class appears.
            assert forall|ms: Seq<(u8, u8)>|
                cand(b0, turn, d0, d1, ms) && ms.len() == li && li > 0 && seq_waste(b0, turn, ms)
                    == wi implies has_state(rs, seq_result(b0, turn, ms)) by {
                assert(bkf.covers(li, wi, seq_result(b0, turn, ms)));
            }
            assert(gen_post(rs, b0, turn, d0, d1, li, wi));
        }
    }
}

} // verus!

verus! {

/// Cursor over the generated resulting positions, in buffer order.
pub struct StateIterator {
    pub states: Vec<GameState>,
    pub at: usize,
}

impl StateIterator {
    /// The next resulting position, if any.
    pub fn next(&mut self) -> (r: Option<GameState>)
        ensures
            old(self).at < old(self).states@.len() ==> r == Some(
                old(self).states@[old(self).at as int],
            ) && final(self).at == old(self).at + 1,
            old(self).at >= old(self).states@.len() ==> r is None && final(self).at == old(
                self,
            ).at,
            final(self).states == old(self).states,
    {
        if self.at < self.states.len() {
            let s = self.states[self.at];
            self.at = self.at + 1;
            Some(s)
        } else {
            None
        }
    }
}

impl MoveBuffer {
    /// Iterate over the generated resulting positions.
    pub fn state_iterator(&self) -> (r: StateIterator)
        ensures
            r.at == 0,
            r.states@.len() == self.results@.len(),
            forall|k: int|
                0 <= k < self.results@.len() ==> r.states@[k] == (#[trigger] self.results@[k]).state,
    {
        let mut states: Vec<GameState> = Vec::new();
        let n = self.results.len();
        let mut i: usize = 0;
        while i < n
            invariant
                n == self.results@.len(),
                0 <= i <= n,
                states@.len() == i,
                forall|k: int|
                    0 <= k < i ==> states@[k] == (#[trigger] self.results@[k]).state,
            decreases n - i,
        {
            states.push(self.results[i].state);
            i += 1;
        }
        StateIterator { states, at: 0 }
    }
}

} // verus!
