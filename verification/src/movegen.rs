//! Fully legal move generation.
//!
//! Nothing pseudo-legal escapes this module: pins, check evasions and the
//! en-passant discovered-check case are resolved during generation, so the
//! search never makes a move it has to take back.

use vstd::prelude::*;
use crate::bb;
use crate::bb::{
    between, bishop_attacks, bit, east, king_attacks, knight_attacks, line, lsb, more_than_one,
    pawn_attacks, pop_lsb, push, queen_attacks, rook_attacks, west, Bb, RANK_1, RANK_8,
};
use crate::bits;
use crate::checks;
use crate::geom;
use crate::legal;
use crate::make::back;
use crate::moves;
use crate::moves::{Move, F_CAPTURE, F_DOUBLE, F_EP, F_KCASTLE, F_PROMO, F_QCASTLE, F_QUIET};
use crate::pos;
use crate::pos::{
    Position, BISHOP_P, BK, BQ, KNIGHT_P, PAWN_P, QUEEN_P, ROOK_P, WHITE, WK, WQ,
};
use crate::rules;
use crate::tables::Tables;

verus! {

broadcast use {crate::bits::group_mem, crate::geom::group_geom};

pub const RANK_A3: Bb = RANK_1 << 16;

pub const RANK_A6: Bb = RANK_1 << 40;

// ---------------------------------------------------------------------------
// Lists
// ---------------------------------------------------------------------------

/// Moves with an ordering score each; `n` is their number.
pub struct MoveList {
    pub mv: Vec<Move>,
    pub sc: Vec<i32>,
    pub n: usize,
}

/// The moves already tried at a node, kept only so that a cutoff can penalise
/// them in the history tables afterwards.
pub struct Tried {
    mv: Vec<Move>,
}

impl Tried {
    pub closed spec fn view(&self) -> Seq<Move> {
        self.mv@
    }

    pub fn new() -> (t: Tried)
        ensures
            t@ == Seq::<Move>::empty(),
    {
        Tried { mv: Vec::new() }
    }

    #[inline(always)]
    pub fn push(&mut self, m: Move)
        ensures
            final(self)@ == old(self)@.push(m),
    {
        self.mv.push(m);
    }

    #[inline(always)]
    pub fn clear(&mut self)
        ensures
            final(self)@ == Seq::<Move>::empty(),
    {
        self.mv.clear();
    }

    #[inline(always)]
    pub fn len(&self) -> (n: usize)
        ensures
            n == self@.len(),
    {
        self.mv.len()
    }

    /// Caller must stay below `len`.
    #[inline(always)]
    pub fn get(&self, i: usize) -> (m: Move)
        requires
            i < self@.len(),
        ensures
            m == self@[i as int],
    {
        self.mv[i]
    }
}

/// `best` is the first of the largest scores from `idx` on.
pub open spec fn first_max(sc: Seq<i32>, idx: int, best: int) -> bool {
    &&& idx <= best < sc.len()
    &&& forall|j: int| idx <= j < sc.len() ==> #[trigger] sc[j] <= sc[best]
    &&& forall|j: int| idx <= j < best ==> #[trigger] sc[j] < sc[best]
}

/// The first of the largest scores from `idx` up to `n`.
pub open spec fn best_upto(sc: Seq<i32>, idx: int, n: int) -> int
    decreases n - idx,
{
    if n <= idx + 1 {
        idx
    } else {
        let b = best_upto(sc, idx, n - 1);
        if sc[n - 1] > sc[b] {
            n - 1
        } else {
            b
        }
    }
}

pub proof fn lemma_best_upto(sc: Seq<i32>, idx: int, n: int)
    requires
        idx < n,
    ensures
        idx <= best_upto(sc, idx, n) < n,
    decreases n - idx,
{
    if n > idx + 1 {
        lemma_best_upto(sc, idx, n - 1);
    }
}

/// `s` with two elements exchanged.
pub open spec fn swapped<T>(s: Seq<T>, i: int, j: int) -> Seq<T> {
    s.update(i, s[j]).update(j, s[i])
}

impl MoveList {
    pub open spec fn view(&self) -> Seq<Move> {
        self.mv@
    }

    pub open spec fn wf(&self) -> bool {
        self.mv@.len() == self.n && self.sc@.len() == self.n
    }

    /// No move has a score yet.
    pub open spec fn unranked(&self) -> bool {
        self.wf() && forall|i: int| 0 <= i < self.sc@.len() ==> #[trigger] self.sc@[i] == 0
    }

    pub fn new() -> (l: MoveList)
        ensures
            l.unranked(),
            l@ == Seq::<Move>::empty(),
    {
        MoveList { mv: Vec::new(), sc: Vec::new(), n: 0 }
    }

    #[inline(always)]
    pub fn push(&mut self, m: Move)
        requires
            old(self).wf(),
        ensures
            final(self).wf(),
            final(self)@ == old(self)@.push(m),
            final(self).sc@ == old(self).sc@.push(0),
            old(self).unranked() ==> final(self).unranked(),
    {
        self.mv.push(m);
        self.sc.push(0);
        self.n = self.mv.len();
    }

    #[inline(always)]
    pub fn clear(&mut self)
        ensures
            final(self).unranked(),
            final(self)@ == Seq::<Move>::empty(),
    {
        self.mv.clear();
        self.sc.clear();
        self.n = 0;
    }

    /// Selection sort one slot at a time: the search usually gets a cutoff
    /// after a handful of moves, so sorting the whole list up front is wasted.
    #[inline(always)]
    pub fn pick(&mut self, idx: usize) -> (m: Move)
        requires
            old(self).wf(),
            idx < old(self).n,
        ensures
            final(self).wf(),
            final(self).n == old(self).n,
            m == final(self)@[idx as int],
            ({
                let best = best_upto(old(self).sc@, idx as int, old(self).n as int);
                &&& first_max(old(self).sc@, idx as int, best)
                &&& final(self)@ == swapped(old(self)@, idx as int, best)
                &&& final(self).sc@ == swapped(old(self).sc@, idx as int, best)
            }),
    {
        let mut best = idx;
        let mut i = idx + 1;
        while i < self.n
            invariant
                self.wf(),
                idx <= best < i <= self.n,
                best == best_upto(self.sc@, idx as int, i as int),
                forall|j: int| idx <= j < i ==> #[trigger] self.sc@[j] <= self.sc@[best as int],
                forall|j: int| idx <= j < best ==> #[trigger] self.sc@[j] < self.sc@[best as int],
            decreases self.n - i,
        {
            if self.sc[i] > self.sc[best] {
                best = i;
            }
            i = i + 1;
        }
        assert(first_max(self.sc@, idx as int, best as int));
        let (a, b) = (self.mv[idx], self.mv[best]);
        self.mv.set(idx, b);
        self.mv.set(best, a);
        let (x, y) = (self.sc[idx], self.sc[best]);
        self.sc.set(idx, y);
        self.sc.set(best, x);
        proof {
            assert(self.mv@ =~= swapped(old(self)@, idx as int, best as int));
            assert(self.sc@ =~= swapped(old(self).sc@, idx as int, best as int));
        }
        self.mv[idx]
    }
}

#[derive(Clone, Copy, PartialEq, Eq, Structural)]
pub enum GenKind {
    All,
    /// Captures, en passant and queen promotions: the quiescence set.
    Noisy,
}

// ---------------------------------------------------------------------------
// The moves of a position, in generation order
// ---------------------------------------------------------------------------

/// `f` of every square of `b`, lowest square first.
pub open spec fn each(b: u64, f: spec_fn(int) -> Seq<Move>) -> Seq<Move>
    decreases b,
{
    if b == 0 {
        Seq::empty()
    } else {
        proof {
            bits::lemma_rest_smaller(b);
        }
        f(bits::low(b)) + each(bits::rest(b), f)
    }
}

/// A move of a piece other than a pawn: a capture where an enemy stands.
pub open spec fn plain(p: Position, from: int, to: int) -> Move {
    moves::mv(
        from,
        to,
        if bits::mem(p.color@[1 - p.stm], to) {
            4int
        } else {
            0
        },
    )
}

/// Where a non-capturing move may land: anywhere empty, or between king and
/// checker when in check.
pub open spec fn land_bb(p: Position) -> u64 {
    if p.checkers != 0 {
        geom::between_bb(p.king(p.stm as int), bits::low(p.checkers)) & !p.occ_bb()
    } else {
        !p.occ_bb()
    }
}

/// What a capture may take: any enemy, or the checker when in check.
pub open spec fn take_bb(p: Position) -> u64 {
    if p.checkers != 0 {
        p.checkers
    } else {
        p.color@[1 - p.stm]
    }
}

/// Where a quiet move may land.
pub open spec fn quiet_bb(p: Position, kind: GenKind) -> u64 {
    if kind == GenKind::Noisy {
        0
    } else {
        land_bb(p)
    }
}

/// Destinations a pinned piece may still use: along the pin ray only.
pub open spec fn pin_ok(p: Position, from: int, to: int) -> bool {
    let us = p.stm as int;
    !bits::mem(p.pinned_bb(us), from) || geom::on_line(p.king(us), from, to)
}

pub open spec fn king_fn(p: Position) -> spec_fn(int) -> Seq<Move> {
    let us = p.stm as int;
    let k = p.king(us);
    |to: int|
        if p.struck(1 - us, to, p.occ_bb() ^ bits::one(k), p.color@[1 - us]) {
            Seq::empty()
        } else {
            seq![plain(p, k, to)]
        }
}

pub open spec fn king_list(p: Position, kind: GenKind) -> Seq<Move> {
    let us = p.stm as int;
    let t = geom::king_bb(p.king(us)) & !p.color@[us];
    each(
        if kind == GenKind::Noisy {
            t & p.color@[1 - us]
        } else {
            t
        },
        king_fn(p),
    )
}

/// The promotions of one pawn move, queen first.
pub open spec fn promos(from: int, to: int, cap: bool, kind: GenKind) -> Seq<Move> {
    let base = if cap {
        12int
    } else {
        8
    };
    if kind == GenKind::All {
        seq![
            moves::mv(from, to, base + 3),
            moves::mv(from, to, base + 2),
            moves::mv(from, to, base + 1),
            moves::mv(from, to, base),
        ]
    } else {
        seq![moves::mv(from, to, base + 3)]
    }
}

pub open spec fn last_rank(us: int) -> u64 {
    if us == 0 {
        RANK_8
    } else {
        RANK_1
    }
}

/// Squares one push ahead of a pawn, if empty.
pub open spec fn push_one(p: Position) -> u64 {
    let us = p.stm as int;
    bb::push_bb(p.of(us, 0), us) & !p.occ_bb()
}

/// Squares two pushes ahead of an unmoved pawn, if both are empty.
pub open spec fn push_two(p: Position) -> u64 {
    let us = p.stm as int;
    bb::push_bb(
        push_one(p) & if us == 0 {
            RANK_A3
        } else {
            RANK_A6
        },
        us,
    ) & !p.occ_bb()
}

pub open spec fn push_promo_fn(p: Position, kind: GenKind) -> spec_fn(int) -> Seq<Move> {
    |to: int|
        {
            let from = rules::back(p.stm as int, to);
            if pin_ok(p, from, to) {
                promos(from, to, false, kind)
            } else {
                Seq::empty()
            }
        }
}

pub open spec fn push_fn(p: Position) -> spec_fn(int) -> Seq<Move> {
    |to: int|
        {
            let from = rules::back(p.stm as int, to);
            if pin_ok(p, from, to) {
                seq![moves::mv(from, to, 0)]
            } else {
                Seq::empty()
            }
        }
}

pub open spec fn double_fn(p: Position) -> spec_fn(int) -> Seq<Move> {
    |to: int|
        {
            let us = p.stm as int;
            let from = rules::back(us, rules::back(us, to));
            if pin_ok(p, from, to) {
                seq![moves::mv(from, to, 1)]
            } else {
                Seq::empty()
            }
        }
}

pub open spec fn push_list(p: Position, kind: GenKind) -> Seq<Move> {
    let us = p.stm as int;
    let one = push_one(p);
    each(one & last_rank(us) & land_bb(p), push_promo_fn(p, kind)) + each(
        one & !last_rank(us) & quiet_bb(p, kind),
        push_fn(p),
    ) + each(push_two(p) & quiet_bb(p, kind), double_fn(p))
}

pub open spec fn take_fn(p: Position, kind: GenKind, shift_e: bool) -> spec_fn(int) -> Seq<Move> {
    |to: int|
        {
            let us = p.stm as int;
            let from = rules::back(us, to) + if shift_e {
                -1int
            } else {
                1
            };
            if !pin_ok(p, from, to) {
                Seq::empty()
            } else if bits::mem(last_rank(us), to) {
                promos(from, to, true, kind)
            } else {
                seq![moves::mv(from, to, 4)]
            }
        }
}

pub open spec fn take_list(p: Position, kind: GenKind, shift_e: bool) -> Seq<Move> {
    let us = p.stm as int;
    let pawns = p.of(us, 0);
    each(
        bb::push_bb(
            if shift_e {
                bb::east_bb(pawns)
            } else {
                bb::west_bb(pawns)
            },
            us,
        ) & take_bb(p),
        take_fn(p, kind, shift_e),
    )
}

/// En passant with the king left unattacked once both pawns have gone.
pub open spec fn ep_fn(p: Position) -> spec_fn(int) -> Seq<Move> {
    |from: int|
        {
            let us = p.stm as int;
            let (e, c) = (p.ep as int, rules::back(us, p.ep as int));
            let after = (p.occ_bb() ^ bits::one(from) ^ bits::one(c)) | bits::one(e);
            if p.struck(1 - us, p.king(us), after, p.color@[1 - us] ^ bits::one(c)) {
                Seq::empty()
            } else {
                seq![moves::mv(from, e, 5)]
            }
        }
}

pub open spec fn ep_list(p: Position) -> Seq<Move> {
    let us = p.stm as int;
    if p.ep == 64 {
        Seq::empty()
    } else {
        each(geom::pawn_bb(1 - us, p.ep as int) & p.of(us, 0), ep_fn(p))
    }
}

pub open spec fn plain_fn(p: Position, from: int) -> spec_fn(int) -> Seq<Move> {
    |to: int| seq![plain(p, from, to)]
}

pub open spec fn knight_fn(p: Position, kind: GenKind) -> spec_fn(int) -> Seq<Move> {
    |from: int|
        each(geom::knight_bb(from) & (quiet_bb(p, kind) | take_bb(p)), plain_fn(p, from))
}

/// A pinned knight never moves.
pub open spec fn knight_list(p: Position, kind: GenKind) -> Seq<Move> {
    let us = p.stm as int;
    each(p.of(us, 1) & !p.pinned_bb(us), knight_fn(p, kind))
}

/// What a slider of type `pt` attacks.
pub open spec fn slider_bb(pt: int, s: int, occ: u64) -> u64 {
    if pt == 2 {
        geom::bishop_bb(s, occ)
    } else if pt == 3 {
        geom::rook_bb(s, occ)
    } else {
        geom::queen_bb(s, occ)
    }
}

pub open spec fn slider_fn(p: Position, kind: GenKind, pt: int) -> spec_fn(int) -> Seq<Move> {
    |from: int|
        {
            let us = p.stm as int;
            let t = slider_bb(pt, from, p.occ_bb()) & (quiet_bb(p, kind) | take_bb(p));
            each(
                if bits::mem(p.pinned_bb(us), from) {
                    t & geom::line_bb(p.king(us), from)
                } else {
                    t
                },
                plain_fn(p, from),
            )
        }
}

pub open spec fn slider_list(p: Position, kind: GenKind, pt: int) -> Seq<Move> {
    each(p.of(p.stm as int, pt), slider_fn(p, kind, pt))
}

/// Castling to the king's side is open: the right is held, the squares between
/// are empty, and the king neither passes nor reaches an attacked square.
pub open spec fn castle_k_ok(p: Position) -> bool {
    let us = p.stm as int;
    let (e, occ, them) = (rules::home(us), p.occ_bb(), p.color@[1 - us]);
    &&& p.castle & (if us == 0 { 1u8 } else { 4u8 }) != 0
    &&& occ & (bits::one(e + 1) | bits::one(e + 2)) == 0
    &&& !p.struck(1 - us, e + 1, occ, them)
    &&& !p.struck(1 - us, e + 2, occ, them)
}

/// The same to the queen's side.
pub open spec fn castle_q_ok(p: Position) -> bool {
    let us = p.stm as int;
    let (e, occ, them) = (rules::home(us), p.occ_bb(), p.color@[1 - us]);
    &&& p.castle & (if us == 0 { 2u8 } else { 8u8 }) != 0
    &&& occ & (bits::one(e - 1) | bits::one(e - 2) | bits::one(e - 3)) == 0
    &&& !p.struck(1 - us, e - 1, occ, them)
    &&& !p.struck(1 - us, e - 2, occ, them)
}

pub open spec fn castle_list(p: Position) -> Seq<Move> {
    let e = rules::home(p.stm as int);
    (if castle_k_ok(p) {
        seq![moves::mv(e, e + 2, 2)]
    } else {
        Seq::empty()
    }) + if castle_q_ok(p) {
        seq![moves::mv(e, e - 2, 3)]
    } else {
        Seq::empty()
    }
}

/// Every generated move, in order. In double check only the king moves.
pub open spec fn move_list(p: Position, kind: GenKind) -> Seq<Move> {
    if bits::card(p.checkers) > 1 {
        king_list(p, kind)
    } else {
        king_list(p, kind) + push_list(p, kind) + take_list(p, kind, true) + take_list(
            p,
            kind,
            false,
        ) + ep_list(p) + knight_list(p, kind) + slider_list(p, kind, 2) + slider_list(p, kind, 3)
            + slider_list(p, kind, 4) + if kind == GenKind::All && p.checkers == 0 {
            castle_list(p)
        } else {
            Seq::empty()
        }
    }
}

// ---------------------------------------------------------------------------
// Generation
// ---------------------------------------------------------------------------

/// One more square of `each`.
proof fn lemma_each_step(done: Seq<Move>, b: u64, f: spec_fn(int) -> Seq<Move>)
    requires
        b != 0,
    ensures
        done + each(b, f) == (done + f(bits::low(b))) + each(bits::rest(b), f),
{
    assert(done + (f(bits::low(b)) + each(bits::rest(b), f)) =~= (done + f(bits::low(b))) + each(
        bits::rest(b),
        f,
    ));
}

proof fn lemma_each_done(done: Seq<Move>, f: spec_fn(int) -> Seq<Move>)
    ensures
        done + each(0, f) == done,
{
    assert(done + each(0, f) =~= done);
}

fn king_moves(pos: &Position, t: &Tables, list: &mut MoveList, kind: GenKind)
    requires
        pos.stm < 2,
        pos.king(pos.stm as int) < 64,
        old(list).unranked(),
    ensures
        final(list).unranked(),
        final(list)@ == old(list)@ + king_list(*pos, kind),
{
    let us = pos.stm;
    let them = 1 - us;
    let enemy = pos.color[them];
    let ksq = pos.king_sq(us);
    let occ_no_king = pos.occ() ^ bit(ksq);
    let mut b = king_attacks(&t.bb, ksq) & !pos.color[us];
    if kind == GenKind::Noisy {
        b = b & enemy;
    }
    let ghost f = king_fn(*pos);
    let ghost all = list@ + each(b, f);
    while b != 0
        invariant
            list.unranked(),
            us < 2,
            us == pos.stm,
            them == 1 - us,
            enemy == pos.color@[1 - us],
            ksq < 64,
            ksq == pos.king(us as int),
            occ_no_king == pos.occ_bb() ^ bits::one(ksq as int),
            f == king_fn(*pos),
            list@ + each(b, f) == all,
        decreases b,
    {
        let ghost (l0, b0) = (list@, b);
        let to = pop_lsb(&mut b);
        if !pos.attacked_by(t, them, to, occ_no_king) {
            list.push(
                Move::new(
                    ksq,
                    to,
                    if enemy & bit(to) != 0 {
                        F_CAPTURE
                    } else {
                        F_QUIET
                    },
                ),
            );
        }
        proof {
            lemma_each_step(l0, b0, f);
            assert(list@ =~= l0 + f(to as int));
        }
    }
    proof {
        lemma_each_done(list@, f);
    }
}

/// `pin_ok`, on the sets at hand.
#[inline(always)]
fn pin_allows(t: &Tables, pinned: Bb, ksq: usize, from: usize, to: usize) -> (r: bool)
    requires
        ksq < 64,
        from < 64,
        to < 64,
    ensures
        r == (!bits::mem(pinned, from as int) || geom::on_line(
            ksq as int,
            from as int,
            to as int,
        )),
{
    pinned & bit(from) == 0 || line(&t.bb, ksq, from) & bit(to) != 0
}

#[inline(always)]
fn push_promos(list: &mut MoveList, from: usize, to: usize, cap: bool, kind: GenKind)
    requires
        from < 64,
        to < 64,
        old(list).unranked(),
    ensures
        final(list).unranked(),
        final(list)@ == old(list)@ + promos(from as int, to as int, cap, kind),
{
    let base = F_PROMO + if cap {
        F_CAPTURE
    } else {
        0
    };
    // Queen first; it is right often enough that the rest are searched late.
    list.push(Move::new(from, to, base + 3));
    if kind == GenKind::All {
        list.push(Move::new(from, to, base + 2));
        list.push(Move::new(from, to, base + 1));
        list.push(Move::new(from, to, base));
    }
    proof {
        assert(list@ =~= old(list)@ + promos(from as int, to as int, cap, kind));
    }
}

/// Pawn pushes, by what happens on arrival.
#[derive(Clone, Copy, PartialEq, Eq, Structural)]
enum PushKind {
    Promo,
    Single,
    Double,
}

spec fn push_kind_fn(p: Position, kind: GenKind, pk: PushKind) -> spec_fn(int) -> Seq<Move> {
    match pk {
        PushKind::Promo => push_promo_fn(p, kind),
        PushKind::Single => push_fn(p),
        PushKind::Double => double_fn(p),
    }
}

/// The pushes of one kind that land on the squares of `targets`.
fn pushes(
    pos: &Position,
    t: &Tables,
    list: &mut MoveList,
    kind: GenKind,
    pk: PushKind,
    targets: Bb,
    pinned: Bb,
)
    requires
        pos.stm < 2,
        pos.king(pos.stm as int) < 64,
        pinned == pos.pinned_bb(pos.stm as int),
        old(list).unranked(),
        forall|to: int| #[trigger]
            bits::mem(targets, to) ==> geom::is_sq(rules::back(pos.stm as int, to)) && (pk
                == PushKind::Double ==> geom::is_sq(
                rules::back(pos.stm as int, rules::back(pos.stm as int, to)),
            )),
    ensures
        final(list).unranked(),
        final(list)@ == old(list)@ + each(targets, push_kind_fn(*pos, kind, pk)),
{
    let us = pos.stm;
    let ksq = pos.king_sq(us);
    let mut b = targets;
    let ghost f = push_kind_fn(*pos, kind, pk);
    let ghost all = list@ + each(b, f);
    while b != 0
        invariant
            list.unranked(),
            us < 2,
            us == pos.stm,
            ksq < 64,
            ksq == pos.king(us as int),
            pinned == pos.pinned_bb(us as int),
            f == push_kind_fn(*pos, kind, pk),
            list@ + each(b, f) == all,
            forall|to: int| #[trigger]
                bits::mem(b, to) ==> geom::is_sq(rules::back(us as int, to)) && (pk
                    == PushKind::Double ==> geom::is_sq(
                    rules::back(us as int, rules::back(us as int, to)),
                )),
        decreases b,
    {
        let ghost (l0, b0) = (list@, b);
        let to = pop_lsb(&mut b);
        let mut from = back(us, to);
        if pk == PushKind::Double {
            from = back(us, from);
        }
        if pin_allows(t, pinned, ksq, from, to) {
            match pk {
                PushKind::Promo => push_promos(list, from, to, false, kind),
                PushKind::Single => list.push(Move::new(from, to, F_QUIET)),
                PushKind::Double => list.push(Move::new(from, to, F_DOUBLE)),
            }
        }
        proof {
            lemma_each_step(l0, b0, f);
            assert(list@ =~= l0 + f(to as int));
        }
    }
    proof {
        lemma_each_done(list@, f);
    }
}

/// Single and double pushes.
fn pawn_pushes(
    pos: &Position,
    t: &Tables,
    list: &mut MoveList,
    kind: GenKind,
    land_t: Bb,
    quiet_t: Bb,
    pinned: Bb,
)
    requires
        pos.stm < 2,
        pos.king(pos.stm as int) < 64,
        pinned == pos.pinned_bb(pos.stm as int),
        land_t == land_bb(*pos),
        quiet_t == quiet_bb(*pos, kind),
        old(list).unranked(),
    ensures
        final(list).unranked(),
        final(list)@ == old(list)@ + push_list(*pos, kind),
{
    let us = pos.stm;
    let occ = pos.occ();
    let pawns = pos.pieces(us, PAWN_P);
    let promo_rank = if us == WHITE {
        RANK_8
    } else {
        RANK_1
    };
    let one = push(pawns, us) & !occ;
    let two = push(
        one & if us == WHITE {
            RANK_A3
        } else {
            RANK_A6
        },
        us,
    ) & !occ;
    let ghost l0 = list@;
    pushes(pos, t, list, kind, PushKind::Promo, one & promo_rank & land_t, pinned);
    pushes(pos, t, list, kind, PushKind::Single, one & !promo_rank & quiet_t, pinned);
    pushes(pos, t, list, kind, PushKind::Double, two & quiet_t, pinned);
    proof {
        assert(list@ =~= l0 + push_list(*pos, kind));
    }
}

/// Pawn captures towards one side.
fn pawn_takes(
    pos: &Position,
    t: &Tables,
    list: &mut MoveList,
    kind: GenKind,
    shift_e: bool,
    cap_t: Bb,
    pinned: Bb,
)
    requires
        pos.stm < 2,
        pos.king(pos.stm as int) < 64,
        pinned == pos.pinned_bb(pos.stm as int),
        cap_t == take_bb(*pos),
        old(list).unranked(),
    ensures
        final(list).unranked(),
        final(list)@ == old(list)@ + take_list(*pos, kind, shift_e),
{
    let us = pos.stm;
    let ksq = pos.king_sq(us);
    let pawns = pos.pieces(us, PAWN_P);
    let promo_rank = if us == WHITE {
        RANK_8
    } else {
        RANK_1
    };
    let side = if shift_e {
        east(pawns)
    } else {
        west(pawns)
    };
    let ahead = push(side, us);
    let mut b = ahead & cap_t;
    let ghost f = take_fn(*pos, kind, shift_e);
    let ghost all = list@ + each(b, f);
    while b != 0
        invariant
            list.unranked(),
            us < 2,
            us == pos.stm,
            ksq < 64,
            ksq == pos.king(us as int),
            pinned == pos.pinned_bb(us as int),
            promo_rank == last_rank(us as int),
            f == take_fn(*pos, kind, shift_e),
            list@ + each(b, f) == all,
            forall|to: int| #[trigger]
                bits::mem(b, to) ==> geom::is_sq(rules::back(us as int, to)) && if shift_e {
                    geom::fl(to) > 0
                } else {
                    geom::fl(to) < 7
                },
        decreases b,
    {
        let ghost (l0, b0) = (list@, b);
        let to = pop_lsb(&mut b);
        let bk = back(us, to);
        let from = if shift_e {
            bk - 1
        } else {
            bk + 1
        };
        if pin_allows(t, pinned, ksq, from, to) {
            if bit(to) & promo_rank != 0 {
                push_promos(list, from, to, true, kind);
            } else {
                list.push(Move::new(from, to, F_CAPTURE));
            }
        }
        proof {
            lemma_each_step(l0, b0, f);
            bits::lemma_and_sym(bits::one(to as int), promo_rank);
            assert(list@ =~= l0 + f(to as int));
        }
    }
    proof {
        lemma_each_done(list@, f);
    }
}

/// En passant: rare and full of edge cases, so it gets an explicit occupancy
/// simulation instead of the pin shortcut. Two pawns leave the board on the
/// same rank, which can expose the king sideways.
fn ep_moves(pos: &Position, t: &Tables, list: &mut MoveList)
    requires
        pos.stm < 2,
        pos.king(pos.stm as int) < 64,
        pos.ep == 64 || (pos.ep < 64 && geom::is_sq(
            rules::back(pos.stm as int, pos.ep as int),
        )),
        old(list).unranked(),
    ensures
        final(list).unranked(),
        final(list)@ == old(list)@ + ep_list(*pos),
{
    let us = pos.stm;
    let them = 1 - us;
    if pos.ep == 64 {
        proof {
            assert(list@ =~= old(list)@ + ep_list(*pos));
        }
        return ;
    }
    let occ = pos.occ();
    let enemy = pos.color[them];
    let ksq = pos.king_sq(us);
    let epsq = pos.ep as usize;
    let cap_sq = back(us, epsq);
    let mut b = pawn_attacks(&t.bb, them, epsq) & pos.pieces(us, PAWN_P);
    let ghost f = ep_fn(*pos);
    let ghost all = list@ + each(b, f);
    while b != 0
        invariant
            list.unranked(),
            us < 2,
            us == pos.stm,
            them == 1 - us,
            occ == pos.occ_bb(),
            enemy == pos.color@[1 - us],
            ksq < 64,
            ksq == pos.king(us as int),
            epsq == pos.ep,
            epsq < 64,
            cap_sq < 64,
            cap_sq == rules::back(us as int, epsq as int),
            f == ep_fn(*pos),
            list@ + each(b, f) == all,
        decreases b,
    {
        let ghost (l0, b0) = (list@, b);
        let from = pop_lsb(&mut b);
        let after = (occ ^ bit(from) ^ bit(cap_sq)) | bit(epsq);
        let enemy_after = enemy ^ bit(cap_sq);
        if !pos.attacked_with(t, them, ksq, after, enemy_after) {
            list.push(Move::new(from, epsq, F_EP));
        }
        proof {
            lemma_each_step(l0, b0, f);
            assert(list@ =~= l0 + f(from as int));
        }
    }
    proof {
        lemma_each_done(list@, f);
    }
}

/// The moves of the piece on `from` to the squares of `targets`.
fn piece_moves(pos: &Position, list: &mut MoveList, from: usize, targets: Bb)
    requires
        pos.stm < 2,
        from < 64,
        old(list).unranked(),
    ensures
        final(list).unranked(),
        final(list)@ == old(list)@ + each(targets, plain_fn(*pos, from as int)),
{
    let enemy = pos.color[1 - pos.stm];
    let mut b = targets;
    let ghost f = plain_fn(*pos, from as int);
    let ghost all = list@ + each(b, f);
    while b != 0
        invariant
            list.unranked(),
            pos.stm < 2,
            from < 64,
            enemy == pos.color@[1 - pos.stm],
            f == plain_fn(*pos, from as int),
            list@ + each(b, f) == all,
        decreases b,
    {
        let ghost (l0, b0) = (list@, b);
        let to = pop_lsb(&mut b);
        list.push(
            Move::new(
                from,
                to,
                if enemy & bit(to) != 0 {
                    F_CAPTURE
                } else {
                    F_QUIET
                },
            ),
        );
        proof {
            lemma_each_step(l0, b0, f);
            assert(list@ =~= l0 + f(to as int));
        }
    }
    proof {
        lemma_each_done(list@, f);
    }
}

fn knight_moves(
    pos: &Position,
    t: &Tables,
    list: &mut MoveList,
    kind: GenKind,
    quiet_t: Bb,
    cap_t: Bb,
    pinned: Bb,
)
    requires
        pos.stm < 2,
        pinned == pos.pinned_bb(pos.stm as int),
        quiet_t == quiet_bb(*pos, kind),
        cap_t == take_bb(*pos),
        old(list).unranked(),
    ensures
        final(list).unranked(),
        final(list)@ == old(list)@ + knight_list(*pos, kind),
{
    let mut b = pos.pieces(pos.stm, KNIGHT_P) & !pinned;  // a pinned knight never moves
    let ghost f = knight_fn(*pos, kind);
    let ghost all = list@ + each(b, f);
    while b != 0
        invariant
            list.unranked(),
            pos.stm < 2,
            quiet_t == quiet_bb(*pos, kind),
            cap_t == take_bb(*pos),
            f == knight_fn(*pos, kind),
            list@ + each(b, f) == all,
        decreases b,
    {
        let ghost (l0, b0) = (list@, b);
        let from = pop_lsb(&mut b);
        piece_moves(pos, list, from, knight_attacks(&t.bb, from) & (quiet_t | cap_t));
        proof {
            lemma_each_step(l0, b0, f);
            assert(list@ =~= l0 + f(from as int));
        }
    }
    proof {
        lemma_each_done(list@, f);
    }
}

fn slider_moves(
    pos: &Position,
    t: &Tables,
    list: &mut MoveList,
    kind: GenKind,
    pt: usize,
    quiet_t: Bb,
    cap_t: Bb,
    pinned: Bb,
)
    requires
        pos.stm < 2,
        2 <= pt <= 4,
        pos.king(pos.stm as int) < 64,
        pinned == pos.pinned_bb(pos.stm as int),
        quiet_t == quiet_bb(*pos, kind),
        cap_t == take_bb(*pos),
        old(list).unranked(),
    ensures
        final(list).unranked(),
        final(list)@ == old(list)@ + slider_list(*pos, kind, pt as int),
{
    let us = pos.stm;
    let ksq = pos.king_sq(us);
    let occ = pos.occ();
    let mut b = pos.pieces(us, pt);
    let ghost f = slider_fn(*pos, kind, pt as int);
    let ghost all = list@ + each(b, f);
    while b != 0
        invariant
            list.unranked(),
            us < 2,
            us == pos.stm,
            2 <= pt <= 4,
            occ == pos.occ_bb(),
            ksq < 64,
            ksq == pos.king(us as int),
            pinned == pos.pinned_bb(us as int),
            quiet_t == quiet_bb(*pos, kind),
            cap_t == take_bb(*pos),
            f == slider_fn(*pos, kind, pt as int),
            list@ + each(b, f) == all,
        decreases b,
    {
        let ghost (l0, b0) = (list@, b);
        let from = pop_lsb(&mut b);
        let att = if pt == BISHOP_P {
            bishop_attacks(&t.bb, from, occ)
        } else if pt == ROOK_P {
            rook_attacks(&t.bb, from, occ)
        } else {
            queen_attacks(&t.bb, from, occ)
        };
        let mut to = att & (quiet_t | cap_t);
        if pinned & bit(from) != 0 {
            to = to & line(&t.bb, ksq, from);
        }
        piece_moves(pos, list, from, to);
        proof {
            lemma_each_step(l0, b0, f);
            assert(list@ =~= l0 + f(from as int));
        }
    }
    proof {
        lemma_each_done(list@, f);
    }
}

fn castle_moves(pos: &Position, t: &Tables, list: &mut MoveList)
    requires
        pos.stm < 2,
        old(list).unranked(),
    ensures
        final(list).unranked(),
        final(list)@ == old(list)@ + castle_list(*pos),
{
    let us = pos.stm;
    let them = 1 - us;
    let occ = pos.occ();
    let (kc, qc, e) = if us == WHITE {
        (WK, WQ, 4usize)
    } else {
        (BK, BQ, 60usize)
    };
    if pos.castle & kc != 0 && occ & (bit(e + 1) | bit(e + 2)) == 0 && !pos.attacked_by(
        t,
        them,
        e + 1,
        occ,
    ) && !pos.attacked_by(t, them, e + 2, occ) {
        list.push(Move::new(e, e + 2, F_KCASTLE));
    }
    if pos.castle & qc != 0 && occ & (bit(e - 1) | bit(e - 2) | bit(e - 3)) == 0
        && !pos.attacked_by(t, them, e - 1, occ) && !pos.attacked_by(t, them, e - 2, occ) {
        list.push(Move::new(e, e - 2, F_QCASTLE));
    }
    proof {
        assert(list@ =~= old(list)@ + castle_list(*pos));
    }
}

/// Fill `list` with the legal moves of `pos`.
pub fn generate(pos: &Position, t: &Tables, list: &mut MoveList, kind: GenKind)
    requires
        pos.sound(),
    ensures
        final(list).wf(),
        final(list)@ == move_list(*pos, kind),
        final(list).sc@ == Seq::new(move_list(*pos, kind).len(), |i: int| 0i32),
{
    list.clear();
    let us = pos.stm;
    let them = 1 - us;
    let occ = pos.occ();
    let enemy = pos.color[them];
    let ksq = pos.king_sq(us);
    let checkers = pos.checkers;

    // King moves; always generated, always the only option in double check.
    king_moves(pos, t, list, kind);
    proof {
        assert(list@ =~= king_list(*pos, kind));
    }
    if more_than_one(checkers) {
        assert(list.sc@ =~= Seq::new(move_list(*pos, kind).len(), |i: int| 0i32));
        return ;
    }
    // Target masks. `land_t` is where a non-capturing move may land regardless
    // of generation kind: promotions are noisy but still land on empty squares.

    let (land_t, cap_t) = if checkers != 0 {
        let csq = lsb(checkers);
        (between(&t.bb, ksq, csq) & !occ, checkers)
    } else {
        (!occ, enemy)
    };
    let quiet_t = if kind == GenKind::Noisy {
        0
    } else {
        land_t
    };
    let pinned = pos.pinned(t, us);
    pawn_pushes(pos, t, list, kind, land_t, quiet_t, pinned);
    pawn_takes(pos, t, list, kind, true, cap_t, pinned);
    pawn_takes(pos, t, list, kind, false, cap_t, pinned);
    ep_moves(pos, t, list);
    knight_moves(pos, t, list, kind, quiet_t, cap_t, pinned);
    slider_moves(pos, t, list, kind, BISHOP_P, quiet_t, cap_t, pinned);
    slider_moves(pos, t, list, kind, ROOK_P, quiet_t, cap_t, pinned);
    slider_moves(pos, t, list, kind, QUEEN_P, quiet_t, cap_t, pinned);
    if kind == GenKind::All && checkers == 0 {
        castle_moves(pos, t, list);
    }
    proof {
        assert(list@ =~= move_list(*pos, kind));
        assert(list.sc@ =~= Seq::new(move_list(*pos, kind).len(), |i: int| 0i32));
    }
}

/// Does `m` give check? Computed before the move is made, without touching the
/// position, so the search can extend on checks for free.
pub fn gives_check(pos: &Position, t: &Tables, m: Move) -> (r: bool)
    requires
        pos.wf(),
        rules::legal(*pos, m),
    ensures
        r == checks::checking(*pos, m),
{
    let us = pos.stm;
    let them = 1 - us;
    let ksq = pos.king_sq(them);
    let from = m.from();
    let to = m.to();
    proof {
        legal::law_legal_is_playable(*pos, m);
        pos::lemma_cells(*pos, from as int);
        pos::lemma_cells(*pos, to as int);
    }
    let mut occ = (pos.occ() ^ bit(from)) | bit(to);
    if m.is_castle() {
        let (rf, rt): (usize, usize) = if m.flag() == F_KCASTLE {
            if us == WHITE {
                (7, 5)
            } else {
                (63, 61)
            }
        } else {
            if us == WHITE {
                (0, 3)
            } else {
                (56, 59)
            }
        };
        occ = occ ^ (bit(rf) | bit(rt));
        proof {
            checks::lemma_castle_checking(*pos, m);
        }
        return rook_attacks(&t.bb, rt, occ) & bit(ksq) != 0;
    }
    if m.is_ep() {
        occ = occ ^ bit(back(us, to));
    }
    proof {
        checks::lemma_checking(*pos, m);
    }
    // Direct check.
    let pt = if m.is_promo() {
        m.promo()
    } else {
        pos.piece_at(from) as usize
    };
    let direct = if pt == PAWN_P {
        pawn_attacks(&t.bb, us, to) & bit(ksq) != 0
    } else if pt == KNIGHT_P {
        knight_attacks(&t.bb, to) & bit(ksq) != 0
    } else if pt == BISHOP_P {
        bishop_attacks(&t.bb, to, occ) & bit(ksq) != 0
    } else if pt == ROOK_P {
        rook_attacks(&t.bb, to, occ) & bit(ksq) != 0
    } else if pt == QUEEN_P {
        queen_attacks(&t.bb, to, occ) & bit(ksq) != 0
    } else {
        false
    };
    if direct {
        return true;
    }
    // Discovered check: the mover vacated a line to the enemy king.
    let ours = pos.color[us] & !bit(from);
    bishop_attacks(&t.bb, ksq, occ) & (pos.piece[BISHOP_P] | pos.piece[QUEEN_P]) & ours != 0
        || rook_attacks(&t.bb, ksq, occ) & (pos.piece[ROOK_P] | pos.piece[QUEEN_P]) & ours != 0
}

} // verus!
