//! What a capture sequence is worth.

use vstd::prelude::*;
use crate::bits;
use crate::eval;
use crate::geom;
use crate::moves::Move;
use crate::pos;
use crate::pos::Position;
use crate::see;

verus! {

broadcast use {crate::bits::group_mem, crate::geom::group_geom};

/// What a piece costs in an exchange; an empty square costs nothing.
pub open spec fn cost(pt: int) -> int {
    if pt == 0 {
        100
    } else if pt == 1 {
        325
    } else if pt == 2 {
        335
    } else if pt == 3 {
        500
    } else if pt == 4 {
        975
    } else if pt == 5 {
        10_000
    } else {
        0
    }
}

/// What stands on a square: its piece type, or 6.
pub open spec fn kind_on(p: Position, s: int) -> int {
    if p.cells()[s] == 12 {
        6
    } else {
        p.cells()[s] % 6
    }
}

/// What `m` wins at once: the piece it takes, a pawn en passant, and what a pawn
/// becomes for the pawn.
pub open spec fn booty(p: Position, m: Move) -> int {
    (if m.k() == 5 {
        100
    } else {
        cost(kind_on(p, m.t()))
    }) + if m.k() >= 8 {
        cost(m.k() % 4 + 1) - 100
    } else {
        0
    }
}

/// What `m` puts at risk: the piece that arrives.
pub open spec fn stake(p: Position, m: Move) -> int {
    if m.k() >= 8 {
        cost(m.k() % 4 + 1)
    } else {
        cost(kind_on(p, m.f()))
    }
}

proof fn lemma_costs(pt: int)
    requires
        0 <= pt <= 6,
    ensures
        eval::SEE_VAL@[pt] == cost(pt),
        0 <= cost(pt) <= 10_000,
{
}

proof fn lemma_least_range(p: Position, b: u64, pt: int)
    requires
        0 <= pt < 6,
    ensures
        pt <= see::least(p, b, pt) < 6,
        forall|t: int| pt <= t < see::least(p, b, pt) ==> b & (#[trigger] p.piece@[t]) == 0,
    decreases 6 - pt,
{
    if pt < 5 && b & p.piece@[pt] == 0 {
        lemma_least_range(p, b, pt + 1);
    }
}

/// What side `s` takes with, of all its pieces that attack the square.
pub open spec fn force(p: Position, occ: u64, att: u64, s: int) -> u64 {
    att & p.color@[s] & occ
}

/// Both sides take with their least valuable attacker.
pub proof fn law_the_least_attacker_takes(p: Position, b: u64, sq: int)
    requires
        p.board_ok(),
        bits::mem(b, sq),
        p.cells()[sq] != 12,
    ensures
        see::least(p, b, 0) <= kind_on(p, sq),
        exists|t: int|
            #![trigger bits::mem(b, t)]
            bits::mem(b, t) && kind_on(p, t) == see::least(p, b, 0) && p.cells()[t] != 12,
{
    lemma_least_range(p, b, 0);
    pos::lemma_cells(p, sq);
    let k = kind_on(p, sq);
    let pt = see::least(p, b, 0);
    assert(bits::mem(b & p.piece@[k], sq));
    bits::lemma_empty(b & p.piece@[k]);
    assert(b & p.piece@[k] != 0);
    lemma_least_hit(p, b, 0, k);
    let t = bits::low(b & p.piece@[pt]);
    bits::lemma_low(b & p.piece@[pt]);
    assert(bits::mem(b & p.piece@[pt], t));
    pos::lemma_cells(p, t);
    assert(bits::mem(b, t) && kind_on(p, t) == pt);
}

proof fn lemma_least_hit(p: Position, b: u64, pt: int, k: int)
    requires
        0 <= pt <= k < 6,
        b & p.piece@[k] != 0,
    ensures
        see::least(p, b, pt) <= k,
        b & p.piece@[see::least(p, b, pt)] != 0,
    decreases 6 - pt,
{
    if pt < 5 && b & p.piece@[pt] == 0 {
        lemma_least_hit(p, b, pt + 1, k);
    }
}

/// A side never loses by an exchange it may stop, and never wins more than there
/// is to take. Without an attacker it wins nothing. With one it wins at least the
/// difference between what it takes and what it takes with; and everything, if
/// nothing can take back.
pub proof fn law_an_exchange_may_be_stopped(p: Position, to: int, occ: u64, att: u64, s: int, v: int)
    requires
        v >= 0,
        0 <= s < 2,
    ensures
        0 <= see::exchange(p, to, occ, att, s, v) <= v,
        force(p, occ, att, s) == 0 ==> see::exchange(p, to, occ, att, s, v) == 0,
        ({
            let mine = force(p, occ, att, s);
            let pt = see::least(p, mine, 0);
            mine & p.piece@[pt] != 0 ==> {
                let gone = occ ^ bits::one(bits::low(mine & p.piece@[pt]));
                let rest = see::uncovered(p, to, gone, att, pt);
                &&& see::exchange(p, to, occ, att, s, v) >= v - cost(pt)
                &&& force(p, gone, rest, 1 - s) == 0 ==> see::exchange(p, to, occ, att, s, v) == v
            }
        }),
    decreases bits::card(occ),
{
    let mine = force(p, occ, att, s);
    lemma_least_range(p, mine, 0);
    let pt = see::least(p, mine, 0);
    let b = mine & p.piece@[pt];
    lemma_costs(pt);
    if mine == 0 {
        assert(0u64 & p.piece@[pt] == 0) by {
            bits::lemma_ext(0u64 & p.piece@[pt], 0);
        }
    }
    if b != 0 {
        bits::lemma_low(b);
        let sq = bits::low(b);
        see::lemma_leaves(occ, sq);
        let gone = occ ^ bits::one(sq);
        law_an_exchange_may_be_stopped(
            p,
            to,
            gone,
            see::uncovered(p, to, gone, att, pt),
            1 - s,
            cost(pt),
        );
    }
}

/// The more there is to take, the more an exchange wins, and never more than
/// what was added.
pub proof fn law_richer_exchanges_win_more(
    p: Position,
    to: int,
    occ: u64,
    att: u64,
    s: int,
    v: int,
    w: int,
)
    requires
        v <= w,
    ensures
        see::exchange(p, to, occ, att, s, v) <= see::exchange(p, to, occ, att, s, w),
        see::exchange(p, to, occ, att, s, w) <= see::exchange(p, to, occ, att, s, v) + (w - v),
{
}

/// The worth of a move lies between what it wins at once and that less what it
/// puts at risk. If nothing of the other side bears on the square it goes to, it
/// is all that it wins; and castling wins and risks nothing.
pub proof fn law_a_move_risks_what_arrives(p: Position, m: Move)
    requires
        p.board_ok(),
        p.stm < 2,
        m.k() == 2 || m.k() == 3 || p.cells()[m.f()] != 12,
    ensures
        m.k() == 2 || m.k() == 3 ==> see::see(p, m) == 0,
        m.k() != 2 && m.k() != 3 ==> {
            &&& see::gain(p, m) == booty(p, m)
            &&& booty(p, m) - stake(p, m) <= see::see(p, m) <= booty(p, m)
            &&& (forall|s: int| #[trigger]
                bits::mem(see::arena(p, m), s) && pos::owned(p.cells()[s], 1 - p.stm)
                    ==> !pos::hits(p.cells()[s], s, m.t(), see::arena(p, m))) ==> see::see(p, m)
                == booty(p, m)
        },
{
    if m.k() != 2 && m.k() != 3 {
        pos::lemma_cells(p, m.t());
        pos::lemma_cells(p, m.f());
        lemma_costs(see::taken(p, m));
        lemma_costs(see::arrives(p, m));
        lemma_costs(0);
        lemma_costs(m.k() % 4 + 1);
        let occ = see::arena(p, m);
        let att = p.attackers(m.t(), occ) & occ;
        law_an_exchange_may_be_stopped(p, m.t(), occ, att, 1 - p.stm, stake(p, m));
        let them = force(p, occ, att, 1 - p.stm);
        if forall|s: int| #[trigger]
            bits::mem(occ, s) && pos::owned(p.cells()[s], 1 - p.stm) ==> !pos::hits(
                p.cells()[s],
                s,
                m.t(),
                occ,
            ) {
            assert forall|s: int| 0 <= s < 64 implies bits::mem(them, s) == bits::mem(0, s) by {
                pos::lemma_attackers(p, m.t(), occ, s);
                pos::lemma_cells(p, s);
                assert(bits::mem(occ, s) && pos::owned(p.cells()[s], 1 - p.stm) ==> !pos::hits(
                    p.cells()[s],
                    s,
                    m.t(),
                    occ,
                ));
            }
            bits::lemma_ext(them, 0);
        }
    }
}

/// A piece that leaves uncovers whatever stands behind it: of all pieces but a
/// king, once one has taken, those that attack the square are found.
pub proof fn law_pieces_behind_are_found(p: Position, to: int, occ: u64, sq: int)
    requires
        p.board_ok(),
        geom::is_sq(to),
        geom::is_sq(sq),
        bits::mem(occ, sq),
        p.cells()[sq] != 12,
        pos::hits(p.cells()[sq], sq, to, occ),
        kind_on(p, sq) != 5,
    ensures
        ({
            let gone = occ ^ bits::one(sq);
            see::uncovered(p, to, gone, p.attackers(to, occ) & occ, kind_on(p, sq)) == p.attackers(
                to,
                gone,
            ) & gone
        }),
{
    let gone = occ ^ bits::one(sq);
    let att = p.attackers(to, occ) & occ;
    let a = see::uncovered(p, to, gone, att, kind_on(p, sq));
    let b = p.attackers(to, gone) & gone;
    pos::lemma_cells(p, sq);
    assert forall|s: int| 0 <= s < 64 implies bits::mem(a, s) == bits::mem(b, s) by {
        lemma_behind(p, to, occ, sq, s);
    }
    bits::lemma_ext(a, b);
}

proof fn lemma_clears(to: int, occ: u64, sq: int, s: int)
    requires
        geom::is_sq(to),
        geom::is_sq(sq),
        geom::is_sq(s),
    ensures
        geom::clear(to, s, occ) ==> geom::clear(to, s, occ ^ bits::one(sq)) || !bits::mem(occ, sq),
        geom::clear(to, s, occ ^ bits::one(sq)) && !geom::clear(to, s, occ) ==> geom::btw(
            to,
            sq,
            s,
        ),
{
    let gone = occ ^ bits::one(sq);
    if geom::clear(to, s, occ) && bits::mem(occ, sq) {
        assert forall|x: int|
            #![trigger geom::btw(to, x, s)]
            #![trigger bits::mem(gone, x)]
            geom::btw(to, x, s) implies !bits::mem(gone, x) by {
            assert(!bits::mem(occ, x));
        }
    }
    if geom::clear(to, s, gone) && !geom::clear(to, s, occ) {
        let x = choose|x: int| #[trigger] geom::btw(to, x, s) && bits::mem(occ, x);
        assert(!bits::mem(gone, x));
        assert(x == sq);
    }
}

proof fn lemma_behind(p: Position, to: int, occ: u64, sq: int, s: int)
    requires
        p.board_ok(),
        geom::is_sq(to),
        geom::is_sq(sq),
        geom::is_sq(s),
        bits::mem(occ, sq),
        p.cells()[sq] != 12,
        pos::hits(p.cells()[sq], sq, to, occ),
        kind_on(p, sq) != 5,
    ensures
        ({
            let gone = occ ^ bits::one(sq);
            bits::mem(
                see::uncovered(p, to, gone, p.attackers(to, occ) & occ, kind_on(p, sq)),
                s,
            ) == bits::mem(p.attackers(to, gone) & gone, s)
        }),
{
    let gone = occ ^ bits::one(sq);
    pos::lemma_cells(p, sq);
    pos::lemma_cells(p, s);
    pos::lemma_attackers(p, to, occ, s);
    pos::lemma_attackers(p, to, gone, s);
    lemma_clears(to, occ, sq, s);
    geom::lemma_sees_sym(to, s, occ);
    geom::lemma_sees_sym(to, s, gone);
    geom::lemma_sees_sym(to, sq, occ);
}

} // verus!
