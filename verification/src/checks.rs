//! When a move gives check.

use vstd::prelude::*;
use crate::bits;
use crate::geom;
use crate::legal;
use crate::moves::Move;
use crate::pos;
use crate::pos::Position;
use crate::rules;

verus! {

broadcast use {crate::bits::group_mem, crate::geom::group_geom};

/// `m` gives check: once it is made, the side that did not move stands in
/// check.
#[verifier::opaque]
pub open spec fn checking(p: Position, m: Move) -> bool {
    let us = p.stm as int;
    let next = rules::moved(p.cells(), us, m);
    pos::attacked(next, us, p.king(1 - us), pos::occ_of(next))
}

/// The occupied squares once `m` is made.
pub open spec fn occ_after(p: Position, m: Move) -> u64 {
    let us = p.stm as int;
    let o = (p.occ_bb() ^ bits::one(m.f())) | bits::one(m.t());
    if m.k() == 5 {
        o ^ bits::one(rules::back(us, m.t()))
    } else if m.k() == 2 || m.k() == 3 {
        let (rf, rt) = rules::rook_path(us, m.k());
        o ^ (bits::one(rf) | bits::one(rt))
    } else {
        o
    }
}

pub proof fn lemma_occ_after(p: Position, m: Move)
    requires
        p.sound(),
        rules::playable(p.cells(), p.stm as int, m),
    ensures
        occ_after(p, m) == pos::occ_of(rules::moved(p.cells(), p.stm as int, m)),
{
    let us = p.stm as int;
    let next = rules::moved(p.cells(), us, m);
    let (a, b) = (occ_after(p, m), pos::occ_of(next));
    assert forall|s: int| 0 <= s < 64 implies bits::mem(a, s) == bits::mem(b, s) by {
        pos::lemma_occ_of(next, s);
        pos::lemma_cells(p, s);
        pos::lemma_cells(p, m.f());
        pos::lemma_cells(p, m.t());
    }
    bits::lemma_ext(a, b);
}

/// The piece that stands on the target square once `m` is made.
pub open spec fn lands(p: Position, m: Move) -> int {
    rules::moved(p.cells(), p.stm as int, m)[m.t()]
}

/// A slider of the mover that stays where it is attacks the enemy king once
/// `m` is made.
pub open spec fn uncovers(p: Position, m: Move) -> bool {
    let us = p.stm as int;
    let k = p.king(1 - us);
    let (occ, ours) = (occ_after(p, m), p.color@[us] & !bits::one(m.f()));
    ||| geom::bishop_bb(k, occ) & (p.piece@[2] | p.piece@[4]) & ours != 0
    ||| geom::rook_bb(k, occ) & (p.piece@[3] | p.piece@[4]) & ours != 0
}

/// What `uncovers` computes, on the cells.
proof fn lemma_uncovers(p: Position, m: Move)
    requires
        p.sound(),
    ensures
        uncovers(p, m) <==> exists|e: int|
            #![trigger p.cells()[e]]
            geom::is_sq(e) && e != m.f() && pos::owned(p.cells()[e], p.stm as int) && 2
                <= p.cells()[e] % 6 <= 4 && pos::hits(
                p.cells()[e],
                e,
                p.king(1 - p.stm),
                occ_after(p, m),
            ),
{
    let us = p.stm as int;
    let k = p.king(1 - us);
    let cells = p.cells();
    let (occ, ours) = (occ_after(p, m), p.color@[us] & !bits::one(m.f()));
    let x = geom::bishop_bb(k, occ) & (p.piece@[2] | p.piece@[4]) & ours;
    let y = geom::rook_bb(k, occ) & (p.piece@[3] | p.piece@[4]) & ours;
    bits::lemma_low(x);
    bits::lemma_low(y);
    bits::lemma_empty(x);
    bits::lemma_empty(y);
    if uncovers(p, m) {
        let e = if x != 0 {
            bits::low(x)
        } else {
            bits::low(y)
        };
        pos::lemma_cells(p, e);
        geom::lemma_sees_sym(k, e, occ);
        geom::lemma_sees_sym(e, k, occ);
        assert(pos::owned(cells[e], us));
    }
    assert forall|e: int|
        #![trigger cells[e]]
        geom::is_sq(e) && e != m.f() && pos::owned(cells[e], us) && 2 <= cells[e] % 6 <= 4
            && pos::hits(cells[e], e, k, occ) implies uncovers(p, m) by {
        pos::lemma_cells(p, e);
        geom::lemma_sees_sym(k, e, occ);
        geom::lemma_sees_sym(e, k, occ);
        assert(bits::mem(x, e) || bits::mem(y, e));
    }
}

/// A move that is not a castling changes no cells but its own two and the
/// square of a pawn taken in passing.
proof fn lemma_others_stay(p: Position, m: Move, e: int)
    requires
        p.sound(),
        rules::playable(p.cells(), p.stm as int, m),
        m.k() != 2 && m.k() != 3,
        geom::is_sq(e),
        e != m.t(),
    ensures
        ({
            let us = p.stm as int;
            let next = rules::moved(p.cells(), us, m);
            &&& pos::owned(next[e], us) <==> e != m.f() && pos::owned(p.cells()[e], us)
            &&& pos::owned(next[e], us) ==> next[e] == p.cells()[e]
            &&& p.cells()[e] == (1 - us) * 6 + 5 ==> next[e] == p.cells()[e]
        }),
{
}

/// The king of the mover never ends up beside the enemy king.
proof fn lemma_kings_apart(p: Position, m: Move)
    requires
        p.wf(),
        rules::legal(p, m),
        m.f() == p.king(p.stm as int),
        rules::moved(p.cells(), p.stm as int, m)[p.king(1 - p.stm)] == (1 - p.stm) * 6 + 5,
    ensures
        !geom::king_sees(m.t(), p.king(1 - p.stm)),
{
    let us = p.stm as int;
    let k = p.king(1 - us);
    let next = rules::moved(p.cells(), us, m);
    let t = m.t();
    if geom::king_sees(t, k) {
        assert(geom::king_sees(k, t));
        assert(pos::owned(next[k], 1 - us) && pos::hits(next[k], k, t, pos::occ_of(next)));
    }
}

/// A legal move that is not a castling gives check exactly when the moved piece
/// attacks the king from its new square or uncovers a slider.
#[verifier::rlimit(40)]
pub proof fn lemma_checking(p: Position, m: Move)
    requires
        p.wf(),
        rules::legal(p, m),
        m.k() != 2 && m.k() != 3,
    ensures
        checking(p, m) <==> (lands(p, m) % 6 != 5 && pos::hits(
            lands(p, m),
            m.t(),
            p.king(1 - p.stm),
            occ_after(p, m),
        )) || uncovers(p, m),
{
    reveal(checking);
    let us = p.stm as int;
    let k = p.king(1 - us);
    let cells = p.cells();
    let next = rules::moved(cells, us, m);
    let occ = pos::occ_of(next);
    let (f, t) = (m.f(), m.t());
    legal::law_legal_is_playable(p, m);
    lemma_occ_after(p, m);
    lemma_uncovers(p, m);
    pos::lemma_occ(p);
    assert(pos::owned(next[t], us));
    if checking(p, m) {
        let e = choose|e: int|
            #![trigger next[e]]
            geom::is_sq(e) && pos::owned(next[e], us) && pos::hits(next[e], e, k, occ);
        if e != t {
            lemma_others_stay(p, m, e);
            assert(pos::owned(cells[e], us));
            if !(2 <= cells[e] % 6 <= 4) {
                assert(pos::hits(cells[e], e, k, pos::occ_of(cells)));
                assert(false);
            }
        } else if next[t] % 6 == 5 {
            assert(next[t] == us * 6 + 5);
            assert(f == p.king(us));
            lemma_others_stay(p, m, k);
            lemma_kings_apart(p, m);
            assert(false);
        }
    }
    if uncovers(p, m) {
        let e = choose|e: int|
            #![trigger cells[e]]
            geom::is_sq(e) && e != f && pos::owned(cells[e], us) && 2 <= cells[e] % 6 <= 4
                && pos::hits(cells[e], e, k, occ);
        assert(e != t);
        lemma_others_stay(p, m, e);
        assert(pos::owned(next[e], us));
    }
}

/// A piece that castling leaves alone attacks the enemy king afterwards only if
/// it did before.
proof fn lemma_castle_uncovers_nothing(p: Position, m: Move, e: int)
    requires
        p.wf(),
        m.k() == 2 || m.k() == 3,
        rules::pseudo(p, m),
        rules::playable(p.cells(), p.stm as int, m),
        geom::is_sq(e),
        e != m.t(),
        e != rules::rook_path(p.stm as int, m.k()).1,
        ({
            let next = rules::moved(p.cells(), p.stm as int, m);
            pos::owned(next[e], p.stm as int) && pos::hits(
                next[e],
                e,
                p.king(1 - p.stm),
                pos::occ_of(next),
            )
        }),
    ensures
        rules::moved(p.cells(), p.stm as int, m)[e] == p.cells()[e],
        pos::hits(p.cells()[e], e, p.king(1 - p.stm), pos::occ_of(p.cells())),
{
    let us = p.stm as int;
    let k = p.king(1 - us);
    let cells = p.cells();
    let next = rules::moved(cells, us, m);
    let before = pos::occ_of(cells);
    let occ = pos::occ_of(next);
    let (f, t) = (m.f(), m.t());
    let (rf, rt) = rules::rook_path(us, m.k());
    assert(e != f && e != rf);
    assert(k != f && k != rf && k != t && k != rt);
    assert(next[e] == cells[e]);
    if geom::clear(e, k, occ) {
        pos::lemma_occ_of(next, rt);
        pos::lemma_occ_of(next, t);
        assert(!geom::btw(e, rt, k) && !geom::btw(e, t, k));
        assert(m.k() == 3 ==> e != f - 3 && k != f - 3);
        assert(!geom::btw(e, f, k) && !geom::btw(e, rf, k));
        assert forall|s: int|
            #![trigger geom::btw(e, s, k)]
            #![trigger bits::mem(before, s)]
            geom::btw(e, s, k) implies !bits::mem(before, s) by {
            assert(!bits::mem(occ, s));
            pos::lemma_occ_of(next, s);
            pos::lemma_occ_of(cells, s);
            assert(s != f && s != rf && s != t && s != rt);
        }
        assert(geom::clear(e, k, before));
    }
}

/// Castling gives check exactly when the rook does.
pub proof fn lemma_castle_checking(p: Position, m: Move)
    requires
        p.wf(),
        rules::legal(p, m),
        m.k() == 2 || m.k() == 3,
    ensures
        checking(p, m) <==> geom::rook_sees(
            rules::rook_path(p.stm as int, m.k()).1,
            p.king(1 - p.stm),
            occ_after(p, m),
        ),
{
    reveal(checking);
    let us = p.stm as int;
    let k = p.king(1 - us);
    let cells = p.cells();
    let next = rules::moved(cells, us, m);
    let before = pos::occ_of(cells);
    let occ = pos::occ_of(next);
    let (f, t) = (m.f(), m.t());
    let (rf, rt) = rules::rook_path(us, m.k());
    legal::law_legal_is_playable(p, m);
    lemma_occ_after(p, m);
    assert(next[rt] == us * 6 + 3 && next[t] == us * 6 + 5 && next[k] == cells[k]);
    if checking(p, m) {
        let e = choose|e: int|
            #![trigger next[e]]
            geom::is_sq(e) && pos::owned(next[e], us) && pos::hits(next[e], e, k, occ);
        if e == t {
            lemma_kings_apart(p, m);
            assert(false);
        } else if e != rt {
            lemma_castle_uncovers_nothing(p, m, e);
            assert(pos::owned(cells[e], us));
            assert(false);
        }
    }
}

} // verus!
