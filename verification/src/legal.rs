//! The generated moves are exactly the legal ones.

use vstd::prelude::*;
use crate::bb;
use crate::bits;
use crate::geom;
use crate::movegen;
use crate::movegen::GenKind;
use crate::moves;
use crate::moves::Move;
use crate::pos;
use crate::pos::Position;
use crate::rules;

verus! {

broadcast use {crate::bits::group_mem, crate::geom::group_geom, crate::moves::lemma_mv_parts};

// ---------------------------------------------------------------------------
// Membership in the generated lists
// ---------------------------------------------------------------------------

/// What `each` holds comes from one of the squares.
proof fn lemma_each_from(b: u64, f: spec_fn(int) -> Seq<Move>, m: Move) -> (s: int)
    requires
        movegen::each(b, f).contains(m),
    ensures
        bits::mem(b, s),
        f(s).contains(m),
    decreases b,
{
    if b == 0 {
        assert(false);
        0
    } else {
        bits::lemma_rest_smaller(b);
        bits::lemma_rest(b);
        bits::lemma_low(b);
        let (x, y) = (f(bits::low(b)), movegen::each(bits::rest(b), f));
        lemma_in_sum(x, y, m);
        if x.contains(m) {
            bits::low(b)
        } else {
            lemma_each_from(bits::rest(b), f, m)
        }
    }
}

/// What comes from a square is in `each`.
proof fn lemma_each_into(b: u64, f: spec_fn(int) -> Seq<Move>, s: int, m: Move)
    requires
        bits::mem(b, s),
        f(s).contains(m),
    ensures
        movegen::each(b, f).contains(m),
    decreases b,
{
    bits::lemma_empty(b);
    bits::lemma_rest_smaller(b);
    bits::lemma_rest(b);
    bits::lemma_low(b);
    let (x, y) = (f(bits::low(b)), movegen::each(bits::rest(b), f));
    lemma_in_sum(x, y, m);
    if s != bits::low(b) {
        lemma_each_into(bits::rest(b), f, s, m);
    }
}

proof fn lemma_in_sum(x: Seq<Move>, y: Seq<Move>, m: Move)
    ensures
        (x + y).contains(m) <==> x.contains(m) || y.contains(m),
{
    let z = x + y;
    if x.contains(m) {
        let i = choose|i: int| 0 <= i < x.len() && x[i] == m;
        assert(z[i] == m);
    }
    if y.contains(m) {
        let i = choose|i: int| 0 <= i < y.len() && y[i] == m;
        assert(z[x.len() + i] == m);
    }
    if z.contains(m) {
        let i = choose|i: int| 0 <= i < z.len() && z[i] == m;
        if i < x.len() {
            assert(x[i] == m);
        } else {
            assert(y[i - x.len()] == m);
        }
    }
}

/// A one-element list.
proof fn lemma_in_one(x: Move, m: Move)
    ensures
        seq![x].contains(m) <==> x == m,
{
    assert(seq![x][0] == x);
}

proof fn lemma_in_promos(f: int, t: int, cap: bool, kind: GenKind, m: Move)
    requires
        geom::is_sq(f),
        geom::is_sq(t),
    ensures
        movegen::promos(f, t, cap, kind).contains(m) <==> {
            let base = if cap {
                12int
            } else {
                8
            };
            m.f() == f && m.t() == t && base <= m.k() < base + 4 && (kind == GenKind::All || m.k()
                == base + 3)
        },
{
    let base = if cap {
        12int
    } else {
        8
    };
    let l = movegen::promos(f, t, cap, kind);
    moves::law_move_round_trip(f, t, base, m);
    if kind == GenKind::All {
        assert(l[0] == moves::mv(f, t, base + 3));
        assert(l[1] == moves::mv(f, t, base + 2));
        assert(l[2] == moves::mv(f, t, base + 1));
        assert(l[3] == moves::mv(f, t, base));
    } else {
        assert(l[0] == moves::mv(f, t, base + 3));
    }
}

spec fn in_king(p: Position, kind: GenKind, m: Move) -> bool {
    let us = p.stm as int;
    let (k, t) = (p.king(us), m.t());
    &&& m.f() == k
    &&& m.k() == if bits::mem(p.color@[1 - us], t) {
        4int
    } else {
        0
    }
    &&& geom::king_sees(k, t)
    &&& !bits::mem(p.color@[us], t)
    &&& kind == GenKind::Noisy ==> bits::mem(p.color@[1 - us], t)
    &&& !p.struck(1 - us, t, p.occ_bb() ^ bits::one(k), p.color@[1 - us])
}

proof fn lemma_in_king(p: Position, kind: GenKind, m: Move)
    requires
        p.stm < 2,
        geom::is_sq(p.king(p.stm as int)),
    ensures
        movegen::king_list(p, kind).contains(m) <==> in_king(p, kind, m),
{
    let us = p.stm as int;
    let k = p.king(us);
    let f = movegen::king_fn(p);
    let b0 = geom::king_bb(k) & !p.color@[us];
    let b = if kind == GenKind::Noisy {
        b0 & p.color@[1 - us]
    } else {
        b0
    };
    moves::law_move_round_trip(0, 0, 0, m);
    if movegen::king_list(p, kind).contains(m) {
        let s = lemma_each_from(b, f, m);
        lemma_in_one(movegen::plain(p, k, s), m);
    }
    if in_king(p, kind, m) {
        lemma_in_one(movegen::plain(p, k, m.t()), m);
        lemma_each_into(b, f, m.t(), m);
    }
}

spec fn in_pushes(p: Position, kind: GenKind, m: Move) -> bool {
    let us = p.stm as int;
    let (f, t, k) = (m.f(), m.t(), m.k());
    let one = movegen::push_one(p);
    &&& movegen::pin_ok(p, f, t)
    &&& {
        ||| f == rules::back(us, t) && 8 <= k < 12 && bits::mem(
            one & movegen::last_rank(us) & movegen::land_bb(p),
            t,
        ) && (kind == GenKind::All || k == 11)
        ||| f == rules::back(us, t) && k == 0 && bits::mem(
            one & !movegen::last_rank(us) & movegen::quiet_bb(p, kind),
            t,
        )
        ||| f == rules::back(us, rules::back(us, t)) && k == 1 && bits::mem(
            movegen::push_two(p) & movegen::quiet_bb(p, kind),
            t,
        )
    }
}

/// The squares ahead of the pawns.
proof fn lemma_push_sets(p: Position, t: int)
    requires
        p.stm < 2,
        geom::is_sq(t),
    ensures
        ({
            let us = p.stm as int;
            &&& bits::mem(movegen::push_one(p), t) <==> bits::mem(
                p.of(us, 0),
                rules::back(us, t),
            ) && !bits::mem(p.occ_bb(), t)
            &&& bits::mem(movegen::push_two(p), t) <==> {
                let u = rules::back(us, t);
                &&& geom::is_sq(u)
                &&& geom::rk(u) == if us == 0 {
                    2int
                } else {
                    5
                }
                &&& bits::mem(movegen::push_one(p), u)
                &&& !bits::mem(p.occ_bb(), t)
            }
            &&& bits::mem(movegen::last_rank(us), t) <==> geom::rk(t) == rules::goal(us)
        }),
{
    let us = p.stm as int;
    let third = if us == 0 {
        movegen::RANK_A3
    } else {
        movegen::RANK_A6
    };
    let u = rules::back(us, t);
    bb::lemma_steps(p.of(us, 0), t);
    bb::lemma_steps(movegen::push_one(p) & third, t);
    bb::lemma_edges(t);
    if geom::is_sq(u) {
        bits::lemma_mem_shl(bb::RANK_1, 16, u);
        bits::lemma_mem_shl(bb::RANK_1, 40, u);
        bb::lemma_rank_1(u - 16);
        bb::lemma_rank_1(u - 40);
    }
    assert(bb::push_bb(p.of(us, 0), us) == bb::push_bb(p.of(us, 0), if us == 0 { 0 } else { 1 }));
}

proof fn lemma_in_pushes(p: Position, kind: GenKind, m: Move)
    requires
        p.stm < 2,
    ensures
        movegen::push_list(p, kind).contains(m) <==> in_pushes(p, kind, m),
{
    let us = p.stm as int;
    let one = movegen::push_one(p);
    let (q, l) = (movegen::quiet_bb(p, kind), movegen::last_rank(us));
    let (b1, b2, b3) = (one & l & movegen::land_bb(p), one & !l & q, movegen::push_two(p) & q);
    let (f1, f2, f3) = (
        movegen::push_promo_fn(p, kind),
        movegen::push_fn(p),
        movegen::double_fn(p),
    );
    let (l1, l2, l3) = (movegen::each(b1, f1), movegen::each(b2, f2), movegen::each(b3, f3));
    lemma_in_sum(l1, l2, m);
    lemma_in_sum(l1 + l2, l3, m);
    moves::law_move_round_trip(0, 0, 0, m);
    let (f, t, k) = (m.f(), m.t(), m.k());
    if l1.contains(m) {
        let s = lemma_each_from(b1, f1, m);
        lemma_push_sets(p, s);
        lemma_in_promos(rules::back(us, s), s, false, kind, m);
    }
    if l2.contains(m) {
        let s = lemma_each_from(b2, f2, m);
        lemma_push_sets(p, s);
        lemma_in_one(moves::mv(rules::back(us, s), s, 0), m);
    }
    if l3.contains(m) {
        let s = lemma_each_from(b3, f3, m);
        lemma_push_sets(p, s);
        lemma_push_sets(p, rules::back(us, s));
        lemma_in_one(moves::mv(rules::back(us, rules::back(us, s)), s, 1), m);
    }
    if in_pushes(p, kind, m) {
        lemma_push_sets(p, t);
        if 8 <= k {
            lemma_in_promos(f, t, false, kind, m);
            lemma_each_into(b1, f1, t, m);
        } else if k == 0 {
            lemma_in_one(moves::mv(f, t, 0), m);
            lemma_each_into(b2, f2, t, m);
        } else {
            lemma_in_one(moves::mv(f, t, 1), m);
            lemma_each_into(b3, f3, t, m);
        }
    }
}

spec fn in_takes(p: Position, kind: GenKind, shift_e: bool, m: Move) -> bool {
    let us = p.stm as int;
    let (f, t, k) = (m.f(), m.t(), m.k());
    &&& f == rules::back(us, t) + if shift_e {
        -1int
    } else {
        1
    }
    &&& geom::pawn_sees(us, f, t)
    &&& bits::mem(p.of(us, 0), f)
    &&& bits::mem(movegen::take_bb(p), t)
    &&& movegen::pin_ok(p, f, t)
    &&& if geom::rk(t) == rules::goal(us) {
        12 <= k < 16 && (kind == GenKind::All || k == 15)
    } else {
        k == 4
    }
}

proof fn lemma_in_takes(p: Position, kind: GenKind, shift_e: bool, m: Move)
    requires
        p.stm < 2,
    ensures
        movegen::take_list(p, kind, shift_e).contains(m) <==> in_takes(p, kind, shift_e, m),
{
    let us = p.stm as int;
    let pawns = p.of(us, 0);
    let side = if shift_e {
        bb::east_bb(pawns)
    } else {
        bb::west_bb(pawns)
    };
    let ahead = bb::push_bb(side, us);
    let b = ahead & movegen::take_bb(p);
    let fun = movegen::take_fn(p, kind, shift_e);
    let d = if shift_e {
        -1int
    } else {
        1
    };
    moves::law_move_round_trip(0, 0, 0, m);
    assert(ahead == bb::push_bb(side, if us == 0 { 0 } else { 1 }));
    assert forall|s: int| geom::is_sq(s) implies (#[trigger] bits::mem(ahead, s) <==> bits::mem(
        pawns,
        rules::back(us, s) + d,
    ) && geom::pawn_sees(us, rules::back(us, s) + d, s)) by {
        bb::lemma_steps(side, s);
        bb::lemma_steps(pawns, rules::back(us, s));
    }
    if movegen::take_list(p, kind, shift_e).contains(m) {
        let s = lemma_each_from(b, fun, m);
        let f = rules::back(us, s) + d;
        lemma_push_sets(p, s);
        lemma_in_promos(f, s, true, kind, m);
        lemma_in_one(moves::mv(f, s, 4), m);
    }
    if in_takes(p, kind, shift_e, m) {
        let (f, t) = (m.f(), m.t());
        lemma_push_sets(p, t);
        lemma_in_promos(f, t, true, kind, m);
        lemma_in_one(moves::mv(f, t, 4), m);
        assert(bits::mem(ahead, t));
        lemma_each_into(b, fun, t, m);
    }
}

spec fn in_ep(p: Position, m: Move) -> bool {
    let us = p.stm as int;
    let (f, e, c) = (m.f(), p.ep as int, rules::back(p.stm as int, p.ep as int));
    &&& p.ep != 64
    &&& m.k() == 5
    &&& m.t() == e
    &&& bits::mem(p.of(us, 0), f)
    &&& geom::pawn_sees(us, f, e)
    &&& !p.struck(
        1 - us,
        p.king(us),
        (p.occ_bb() ^ bits::one(f) ^ bits::one(c)) | bits::one(e),
        p.color@[1 - us] ^ bits::one(c),
    )
}

proof fn lemma_in_ep(p: Position, m: Move)
    requires
        p.stm < 2,
        p.ep <= 64,
    ensures
        movegen::ep_list(p).contains(m) <==> in_ep(p, m),
{
    let us = p.stm as int;
    moves::law_move_round_trip(0, 0, 0, m);
    if p.ep != 64 {
        let e = p.ep as int;
        let b = geom::pawn_bb(1 - us, e) & p.of(us, 0);
        let fun = movegen::ep_fn(p);
        if movegen::ep_list(p).contains(m) {
            let s = lemma_each_from(b, fun, m);
            geom::lemma_sees_sym(s, e, 0);
            geom::lemma_sees_sym(e, s, 0);
            lemma_in_one(moves::mv(s, e, 5), m);
        }
        if in_ep(p, m) {
            let s = m.f();
            geom::lemma_sees_sym(s, e, 0);
            geom::lemma_sees_sym(e, s, 0);
            lemma_in_one(moves::mv(s, e, 5), m);
            lemma_each_into(b, fun, s, m);
        }
    } else {
        assert(!movegen::ep_list(p).contains(m));
    }
}

/// Moves of a knight or slider on `m.f()` whose targets are `att`.
spec fn in_piece(p: Position, kind: GenKind, pt: int, att: u64, m: Move) -> bool {
    let us = p.stm as int;
    let (f, t) = (m.f(), m.t());
    &&& bits::mem(p.of(us, pt), f)
    &&& bits::mem(att, t)
    &&& bits::mem(movegen::quiet_bb(p, kind) | movegen::take_bb(p), t)
    &&& m.k() == if bits::mem(p.color@[1 - us], t) {
        4int
    } else {
        0
    }
}

spec fn in_knights(p: Position, kind: GenKind, m: Move) -> bool {
    in_piece(p, kind, 1, geom::knight_bb(m.f()), m) && !bits::mem(
        p.pinned_bb(p.stm as int),
        m.f(),
    )
}

proof fn lemma_in_knights(p: Position, kind: GenKind, m: Move)
    requires
        p.stm < 2,
    ensures
        movegen::knight_list(p, kind).contains(m) <==> in_knights(p, kind, m),
{
    let us = p.stm as int;
    let b = p.of(us, 1) & !p.pinned_bb(us);
    let fun = movegen::knight_fn(p, kind);
    let tq = movegen::quiet_bb(p, kind) | movegen::take_bb(p);
    moves::law_move_round_trip(0, 0, 0, m);
    if movegen::knight_list(p, kind).contains(m) {
        let f = lemma_each_from(b, fun, m);
        let t = lemma_each_from(geom::knight_bb(f) & tq, movegen::plain_fn(p, f), m);
        lemma_in_one(movegen::plain(p, f, t), m);
    }
    if in_knights(p, kind, m) {
        let (f, t) = (m.f(), m.t());
        lemma_in_one(movegen::plain(p, f, t), m);
        lemma_each_into(geom::knight_bb(f) & tq, movegen::plain_fn(p, f), t, m);
        lemma_each_into(b, fun, f, m);
    }
}

spec fn in_sliders(p: Position, kind: GenKind, pt: int, m: Move) -> bool {
    in_piece(p, kind, pt, movegen::slider_bb(pt, m.f(), p.occ_bb()), m) && movegen::pin_ok(
        p,
        m.f(),
        m.t(),
    )
}

proof fn lemma_in_sliders(p: Position, kind: GenKind, pt: int, m: Move)
    requires
        p.stm < 2,
    ensures
        movegen::slider_list(p, kind, pt).contains(m) <==> in_sliders(p, kind, pt, m),
{
    let us = p.stm as int;
    let b = p.of(us, pt);
    let fun = movegen::slider_fn(p, kind, pt);
    moves::law_move_round_trip(0, 0, 0, m);
    if movegen::slider_list(p, kind, pt).contains(m) {
        let f = lemma_each_from(b, fun, m);
        let t0 = movegen::slider_bb(pt, f, p.occ_bb()) & (movegen::quiet_bb(p, kind)
            | movegen::take_bb(p));
        let tt = if bits::mem(p.pinned_bb(us), f) {
            t0 & geom::line_bb(p.king(us), f)
        } else {
            t0
        };
        let t = lemma_each_from(tt, movegen::plain_fn(p, f), m);
        lemma_in_one(movegen::plain(p, f, t), m);
    }
    if in_sliders(p, kind, pt, m) {
        let (f, t) = (m.f(), m.t());
        let t0 = movegen::slider_bb(pt, f, p.occ_bb()) & (movegen::quiet_bb(p, kind)
            | movegen::take_bb(p));
        let tt = if bits::mem(p.pinned_bb(us), f) {
            t0 & geom::line_bb(p.king(us), f)
        } else {
            t0
        };
        lemma_in_one(movegen::plain(p, f, t), m);
        lemma_each_into(tt, movegen::plain_fn(p, f), t, m);
        lemma_each_into(b, fun, f, m);
    }
}

spec fn in_castles(p: Position, m: Move) -> bool {
    let e = rules::home(p.stm as int);
    &&& m.f() == e
    &&& (m.k() == 2 && m.t() == e + 2 && movegen::castle_k_ok(p)) || (m.k() == 3 && m.t() == e - 2
        && movegen::castle_q_ok(p))
}

proof fn lemma_in_castles(p: Position, m: Move)
    requires
        p.stm < 2,
    ensures
        movegen::castle_list(p).contains(m) <==> in_castles(p, m),
{
    let e = rules::home(p.stm as int);
    moves::law_move_round_trip(0, 0, 0, m);
    let a = if movegen::castle_k_ok(p) {
        seq![moves::mv(e, e + 2, 2)]
    } else {
        Seq::empty()
    };
    let b = if movegen::castle_q_ok(p) {
        seq![moves::mv(e, e - 2, 3)]
    } else {
        Seq::empty()
    };
    lemma_in_sum(a, b, m);
    lemma_in_one(moves::mv(e, e + 2, 2), m);
    lemma_in_one(moves::mv(e, e - 2, 3), m);
}

/// The condition under which a move is generated.
spec fn generated(p: Position, kind: GenKind, m: Move) -> bool {
    in_king(p, kind, m) || (bits::card(p.checkers) <= 1 && {
        ||| in_pushes(p, kind, m)
        ||| in_takes(p, kind, true, m)
        ||| in_takes(p, kind, false, m)
        ||| in_ep(p, m)
        ||| in_knights(p, kind, m)
        ||| in_sliders(p, kind, 2, m)
        ||| in_sliders(p, kind, 3, m)
        ||| in_sliders(p, kind, 4, m)
        ||| kind == GenKind::All && p.checkers == 0 && in_castles(p, m)
    })
}

proof fn lemma_generated(p: Position, kind: GenKind, m: Move)
    requires
        p.sound(),
    ensures
        movegen::move_list(p, kind).contains(m) <==> generated(p, kind, m),
{
    lemma_in_king(p, kind, m);
    if bits::card(p.checkers) <= 1 {
        lemma_in_pushes(p, kind, m);
        lemma_in_takes(p, kind, true, m);
        lemma_in_takes(p, kind, false, m);
        lemma_in_ep(p, m);
        lemma_in_knights(p, kind, m);
        lemma_in_sliders(p, kind, 2, m);
        lemma_in_sliders(p, kind, 3, m);
        lemma_in_sliders(p, kind, 4, m);
        lemma_in_castles(p, m);
        let l1 = movegen::king_list(p, kind);
        let l2 = l1 + movegen::push_list(p, kind);
        let l3 = l2 + movegen::take_list(p, kind, true);
        let l4 = l3 + movegen::take_list(p, kind, false);
        let l5 = l4 + movegen::ep_list(p);
        let l6 = l5 + movegen::knight_list(p, kind);
        let l7 = l6 + movegen::slider_list(p, kind, 2);
        let l8 = l7 + movegen::slider_list(p, kind, 3);
        let l9 = l8 + movegen::slider_list(p, kind, 4);
        let c = if kind == GenKind::All && p.checkers == 0 {
            movegen::castle_list(p)
        } else {
            Seq::empty()
        };
        lemma_in_sum(l1, movegen::push_list(p, kind), m);
        lemma_in_sum(l2, movegen::take_list(p, kind, true), m);
        lemma_in_sum(l3, movegen::take_list(p, kind, false), m);
        lemma_in_sum(l4, movegen::ep_list(p), m);
        lemma_in_sum(l5, movegen::knight_list(p, kind), m);
        lemma_in_sum(l6, movegen::slider_list(p, kind, 2), m);
        lemma_in_sum(l7, movegen::slider_list(p, kind, 3), m);
        lemma_in_sum(l8, movegen::slider_list(p, kind, 4), m);
        lemma_in_sum(l9, c, m);
    }
}

// ---------------------------------------------------------------------------
// Checks, pins and the king's safety
// ---------------------------------------------------------------------------

/// The enemy piece on `c` attacks the king of the side to move.
spec fn gives(p: Position, c: int) -> bool {
    let us = p.stm as int;
    geom::is_sq(c) && pos::owned(p.cells()[c], 1 - us) && pos::hits(
        p.cells()[c],
        c,
        p.king(us),
        p.occ_bb(),
    )
}

/// Landing on `t` takes or blocks every checker.
spec fn answers(p: Position, t: int) -> bool {
    forall|c: int| #[trigger]
        bits::mem(p.checkers, c) ==> t == c || geom::btw(p.king(p.stm as int), t, c)
}

proof fn lemma_checkers(p: Position, c: int)
    requires
        p.sound(),
    ensures
        bits::mem(p.checkers, c) <==> gives(p, c),
{
    let us = p.stm as int;
    let k = p.king(us);
    if geom::is_sq(c) {
        pos::lemma_attackers(p, k, p.occ_bb(), c);
        pos::lemma_cells(p, c);
    }
}

/// The pieces that pin, read from the cells.
proof fn lemma_pins(p: Position, e: int, s: int)
    requires
        p.sound(),
    ensures
        p.pins(p.stm as int, e, s) <==> {
            let us = p.stm as int;
            let (k, code) = (p.king(us), p.cells()[e]);
            &&& geom::is_sq(e)
            &&& pos::owned(code, 1 - us)
            &&& ((code % 6 == 3 || code % 6 == 4) && geom::orth(k, e)) || ((code % 6 == 2 || code
                % 6 == 4) && geom::diag(k, e))
            &&& geom::btw(k, s, e)
            &&& pos::owned(p.cells()[s], us)
            &&& forall|x: int| #[trigger]
                geom::btw(k, x, e) && bits::mem(p.occ_bb(), x) ==> x == s
        },
{
    if geom::is_sq(e) {
        pos::lemma_cells(p, e);
    }
    if geom::is_sq(s) {
        pos::lemma_cells(p, s);
    }
}

proof fn lemma_pinned(p: Position, s: int)
    ensures
        bits::mem(p.pinned_bb(p.stm as int), s) <==> geom::is_sq(s) && p.is_pinned(p.stm as int, s),
{
    let us = p.stm as int;
    geom::lemma_set_of(|x: int| p.is_pinned(us, x), s);
}

/// The moves that lift one piece and put it down elsewhere.
spec fn is_lift(m: Move) -> bool {
    m.k() < 2 || m.k() == 4 || m.k() >= 8
}

/// The board after a lift.
proof fn lemma_lifted(p: Position, m: Move)
    requires
        p.sound(),
        is_lift(m),
        pos::owned(p.cells()[m.f()], p.stm as int),
        m.f() != m.t(),
    ensures
        ({
            let us = p.stm as int;
            let next = rules::moved(p.cells(), us, m);
            &&& next.len() == 64
            &&& next[m.f()] == 12
            &&& pos::owned(next[m.t()], us)
            &&& forall|s: int|
                geom::is_sq(s) && s != m.f() && s != m.t() ==> #[trigger] next[s] == p.cells()[s]
            &&& forall|s: int|
                geom::is_sq(s) ==> (#[trigger] bits::mem(pos::occ_of(next), s) <==> s == m.t() || (
                s != m.f() && bits::mem(p.occ_bb(), s)))
        }),
{
    let us = p.stm as int;
    let next = rules::moved(p.cells(), us, m);
    assert forall|s: int| geom::is_sq(s) implies (#[trigger] bits::mem(pos::occ_of(next), s) <==> s
        == m.t() || (s != m.f() && bits::mem(p.occ_bb(), s))) by {
        pos::lemma_occ_of(next, s);
        pos::lemma_cells(p, s);
    }
}

/// A piece other than the king that answers every check, and that stays on the
/// pin line if pinned, leaves the king safe.
proof fn lemma_lift_safe(p: Position, m: Move)
    requires
        p.sound(),
        is_lift(m),
        pos::owned(p.cells()[m.f()], p.stm as int),
        m.f() != p.king(p.stm as int),
        m.t() != p.king(p.stm as int),
        m.f() != m.t(),
        answers(p, m.t()),
        !bits::mem(p.pinned_bb(p.stm as int), m.f()) || (geom::on_line(
            p.king(p.stm as int),
            m.f(),
            m.t(),
        ) && geom::clear(m.f(), m.t(), p.occ_bb())),
    ensures
        rules::king_safe(p, m),
{
    let us = p.stm as int;
    let (k, f, t, occ) = (p.king(us), m.f(), m.t(), p.occ_bb());
    let cells = p.cells();
    let next = rules::moved(cells, us, m);
    let after = pos::occ_of(next);
    lemma_lifted(p, m);
    if !rules::king_safe(p, m) {
        let e = choose|e: int|
            #![trigger next[e]]
            geom::is_sq(e) && pos::owned(next[e], 1 - us) && pos::hits(next[e], e, k, after);
        assert(e != f && e != t);
        let code = cells[e];
        assert(next[e] == code);
        lemma_checkers(p, e);
        pos::lemma_cells(p, e);
        pos::lemma_cells(p, k);
        if code % 6 == 0 || code % 6 == 1 || code % 6 == 5 {
            assert(bits::mem(p.checkers, e));
            assert(false);
        } else if !geom::btw(k, f, e) {
            assert forall|s: int|
                #![trigger geom::btw(e, s, k)]
                #![trigger bits::mem(occ, s)]
                geom::btw(e, s, k) implies !bits::mem(occ, s) by {
                geom::lemma_btw_sym(e, s, k);
                assert(!bits::mem(after, s));
            }
            assert(bits::mem(p.checkers, e));
            geom::lemma_btw_sym(k, t, e);
            assert(bits::mem(after, t));
            assert(false);
        } else {
            assert forall|x: int| #[trigger] geom::btw(k, x, e) && bits::mem(occ, x) implies x == f by {
                geom::lemma_btw_sym(k, x, e);
                assert(geom::btw(e, x, k));
                assert(bits::mem(after, x) <==> x == t || (x != f && bits::mem(occ, x)));
            }
            lemma_pins(p, e, f);
            assert(p.pins(us, e, f));
            lemma_pinned(p, f);
            assert(bits::mem(after, t));
            geom::lemma_btw_sym(k, t, e);
            assert(!geom::btw(e, t, k));
            assert(geom::btw(f, e, t) || geom::btw(f, k, t));
            assert(false);
        }
    }
}

/// A piece other than the king that leaves the king safe answers every check
/// and stays on the pin line if pinned.
proof fn lemma_lift_must(p: Position, m: Move)
    requires
        p.sound(),
        is_lift(m),
        pos::owned(p.cells()[m.f()], p.stm as int),
        m.f() != p.king(p.stm as int),
        m.t() != p.king(p.stm as int),
        m.f() != m.t(),
        rules::king_safe(p, m),
    ensures
        answers(p, m.t()),
        movegen::pin_ok(p, m.f(), m.t()),
{
    let us = p.stm as int;
    let (k, f, t, occ) = (p.king(us), m.f(), m.t(), p.occ_bb());
    let cells = p.cells();
    let next = rules::moved(cells, us, m);
    let after = pos::occ_of(next);
    lemma_lifted(p, m);
    assert forall|c: int| #[trigger] bits::mem(p.checkers, c) implies t == c || geom::btw(k, t, c) by {
        lemma_checkers(p, c);
        if t != c && !geom::btw(k, t, c) {
            assert(next[c] == cells[c]);
            assert forall|s: int|
                #![trigger geom::btw(c, s, k)]
                #![trigger bits::mem(after, s)]
                geom::btw(c, s, k) && geom::clear(c, k, occ) implies !bits::mem(after, s) by {
                geom::lemma_btw_sym(c, s, k);
                assert(!bits::mem(occ, s));
            }
            assert(geom::clear(c, k, occ) ==> geom::clear(c, k, after));
            assert(pos::hits(next[c], c, k, after));
            assert(false);
        }
    }
    if bits::mem(p.pinned_bb(us), f) && !geom::on_line(k, f, t) {
        lemma_pinned(p, f);
        let e = choose|e: int| #[trigger] p.pins(us, e, f);
        lemma_pins(p, e, f);
        assert(geom::on_line(k, f, e));
        assert(next[e] == cells[e]);
        assert forall|s: int|
            #![trigger geom::btw(e, s, k)]
            #![trigger bits::mem(after, s)]
            geom::btw(e, s, k) implies !bits::mem(after, s) by {
            geom::lemma_btw_sym(e, s, k);
            assert(geom::btw(k, s, e));
            assert(geom::on_line(k, f, s));
        }
        assert(geom::clear(e, k, after));
        assert(pos::hits(next[e], e, k, after));
        assert(false);
    }
}

/// A king move is safe when its target is not attacked with the king lifted.
proof fn lemma_king_step(p: Position, m: Move)
    requires
        p.sound(),
        m.k() == 0 || m.k() == 4,
        m.f() == p.king(p.stm as int),
        m.f() != m.t(),
    ensures
        rules::king_safe(p, m) <==> !p.struck(
            1 - p.stm,
            m.t(),
            p.occ_bb() ^ bits::one(m.f()),
            p.color@[1 - p.stm],
        ),
{
    let us = p.stm as int;
    let them = 1 - us;
    let (k, t) = (m.f(), m.t());
    let occ = p.occ_bb() ^ bits::one(k);
    let cells = p.cells();
    let next = rules::moved(cells, us, m);
    let after = pos::occ_of(next);
    lemma_lifted(p, m);
    pos::lemma_attacked(p, them, t, occ);
    pos::lemma_cells(p, k);
    assert forall|e: int| #[trigger] geom::is_sq(e) && e != t && e != k implies (pos::hits(
        cells[e],
        e,
        t,
        occ,
    ) <==> pos::hits(next[e], e, t, after)) by {
        assert(next[e] == cells[e]);
        assert forall|s: int| #[trigger] geom::btw(e, s, t) implies (bits::mem(occ, s) <==> bits::mem(
            after,
            s,
        )) by {
            assert(s != t);
        }
        assert(geom::clear(e, t, occ) <==> geom::clear(e, t, after));
    }
    if pos::attacked(cells, them, t, occ) {
        let e = choose|e: int|
            #![trigger cells[e]]
            geom::is_sq(e) && pos::owned(cells[e], them) && pos::hits(cells[e], e, t, occ);
        assert(e != t && e != k);
        assert(pos::owned(next[e], them) && pos::hits(next[e], e, t, after));
    }
    if pos::attacked(next, them, t, after) {
        let e = choose|e: int|
            #![trigger next[e]]
            geom::is_sq(e) && pos::owned(next[e], them) && pos::hits(next[e], e, t, after);
        assert(e != t && e != k);
        assert(pos::owned(cells[e], them) && pos::hits(cells[e], e, t, occ));
    }
}

/// An en-passant capture is safe when the king is not attacked with both pawns
/// gone.
proof fn lemma_ep_step(p: Position, m: Move)
    requires
        p.sound(),
        m.k() == 5,
        p.ep != 64,
        m.t() == p.ep,
        p.cells()[m.f()] == p.stm * 6,
        geom::pawn_sees(p.stm as int, m.f(), m.t()),
    ensures
        ({
            let us = p.stm as int;
            let c = rules::back(us, m.t());
            rules::king_safe(p, m) <==> !p.struck(
                1 - us,
                p.king(us),
                (p.occ_bb() ^ bits::one(m.f()) ^ bits::one(c)) | bits::one(m.t()),
                p.color@[1 - us] ^ bits::one(c),
            )
        }),
{
    let us = p.stm as int;
    let them = 1 - us;
    let (k, f, t) = (p.king(us), m.f(), m.t());
    let c = rules::back(us, t);
    let cells = p.cells();
    let next = rules::moved(cells, us, m);
    let after = pos::occ_of(next);
    let occ = (p.occ_bb() ^ bits::one(f) ^ bits::one(c)) | bits::one(t);
    let enemy = p.color@[them] ^ bits::one(c);
    pos::lemma_cells(p, c);
    pos::lemma_cells(p, f);
    pos::lemma_cells(p, t);
    assert forall|s: int| 0 <= s < 64 implies bits::mem(occ, s) == bits::mem(after, s) by {
        pos::lemma_occ_of(next, s);
        pos::lemma_cells(p, s);
    }
    bits::lemma_ext(occ, after);
    pos::lemma_struck(p, them, k, occ, enemy);
    if p.struck(them, k, occ, enemy) {
        let e = choose|e: int|
            #![trigger cells[e]]
            bits::mem(enemy, e) && pos::owned(cells[e], them) && pos::hits(cells[e], e, k, occ);
        assert(e != f && e != t && e != c);
        assert(next[e] == cells[e]);
    }
    if pos::attacked(next, them, k, after) {
        let e = choose|e: int|
            #![trigger next[e]]
            geom::is_sq(e) && pos::owned(next[e], them) && pos::hits(next[e], e, k, after);
        assert(e != f && e != t && e != c);
        assert(next[e] == cells[e]);
        pos::lemma_cells(p, e);
        assert(bits::mem(enemy, e));
    }
}

/// With no checker the king is not attacked, and the other way round.
proof fn lemma_no_check(p: Position)
    requires
        p.sound(),
    ensures
        p.checkers == 0 <==> !pos::attacked(
            p.cells(),
            1 - p.stm,
            p.king(p.stm as int),
            pos::occ_of(p.cells()),
        ),
{
    let us = p.stm as int;
    let cells = p.cells();
    pos::lemma_occ(p);
    bits::lemma_empty(p.checkers);
    bits::lemma_low(p.checkers);
    if p.checkers != 0 {
        let c = bits::low(p.checkers);
        lemma_checkers(p, c);
        assert(pos::owned(cells[c], 1 - us));
    }
    if pos::attacked(cells, 1 - us, p.king(us), pos::occ_of(cells)) {
        let c = choose|c: int|
            #![trigger cells[c]]
            geom::is_sq(c) && pos::owned(cells[c], 1 - us) && pos::hits(
                cells[c],
                c,
                p.king(us),
                pos::occ_of(cells),
            );
        lemma_checkers(p, c);
    }
}

/// The generator's castling conditions are those of the rules.
proof fn lemma_castle_rules(p: Position, m: Move)
    requires
        p.sound(),
    ensures
        p.checkers == 0 && in_castles(p, m) <==> (m.k() == 2 || m.k() == 3) && rules::pseudo(p, m),
{
    let us = p.stm as int;
    let them = 1 - us;
    let e = rules::home(us);
    let (cells, occ) = (p.cells(), p.occ_bb());
    pos::lemma_occ(p);
    lemma_no_check(p);
    pos::lemma_attacked(p, them, e + 1, occ);
    pos::lemma_attacked(p, them, e + 2, occ);
    pos::lemma_attacked(p, them, e - 1, occ);
    pos::lemma_attacked(p, them, e - 2, occ);
    pos::lemma_cells(p, e + 1);
    pos::lemma_cells(p, e + 2);
    pos::lemma_cells(p, e - 1);
    pos::lemma_cells(p, e - 2);
    pos::lemma_cells(p, e - 3);
    let a = occ & (bits::one(e + 1) | bits::one(e + 2));
    let b = occ & (bits::one(e - 1) | bits::one(e - 2) | bits::one(e - 3));
    bits::lemma_empty(a);
    bits::lemma_empty(b);
    bits::lemma_low(a);
    bits::lemma_low(b);
    assert(bits::mem(a, e + 1) <==> cells[e + 1] != 12);
    assert(bits::mem(a, e + 2) <==> cells[e + 2] != 12);
    assert(bits::mem(b, e - 1) <==> cells[e - 1] != 12);
    assert(bits::mem(b, e - 2) <==> cells[e - 2] != 12);
    assert(bits::mem(b, e - 3) <==> cells[e - 3] != 12);
    assert(a == 0 <==> cells[e + 1] == 12 && cells[e + 2] == 12);
    assert(b == 0 <==> cells[e - 1] == 12 && cells[e - 2] == 12 && cells[e - 3] == 12);
    if (m.k() == 2 && movegen::castle_k_ok(p)) || (m.k() == 3 && movegen::castle_q_ok(p)) || (
    rules::castle_open(p, m.k())) {
        assert(cells[e] == us * 6 + 5);
        assert(p.king(us) == e);
    }
}

/// Castling leaves the king safe: nothing attacks its target now, and the rook
/// beside it shuts the rank.
proof fn lemma_castle_safe(p: Position, m: Move)
    requires
        p.sound(),
        m.k() == 2 || m.k() == 3,
        rules::pseudo(p, m),
    ensures
        rules::king_safe(p, m),
{
    let us = p.stm as int;
    let them = 1 - us;
    let cells = p.cells();
    let occ = pos::occ_of(cells);
    let next = rules::moved(cells, us, m);
    let after = pos::occ_of(next);
    let (f, t) = (m.f(), m.t());
    let (rf, rt) = rules::rook_path(us, m.k());
    assert(cells[f] == us * 6 + 5 && cells[rf] == us * 6 + 3);
    assert(p.king(us) == f);
    if pos::attacked(next, them, t, after) {
        let e = choose|e: int|
            #![trigger next[e]]
            geom::is_sq(e) && pos::owned(next[e], them) && pos::hits(next[e], e, t, after);
        assert(e != f && e != t && e != rf && e != rt);
        assert(next[e] == cells[e]);
        pos::lemma_occ_of(next, rt);
        if geom::clear(e, t, after) {
            if geom::rk(e) == geom::rk(t) {
                geom::lemma_btw_sym(e, rt, t);
                assert(geom::btw(e, rt, t) ==> !bits::mem(after, rt));
                // On the rook's side of the king nothing is left but its corner.
                assert(m.k() == 2 ==> geom::fl(e) > geom::fl(t));
                assert(m.k() == 3 ==> geom::fl(e) < geom::fl(t));
                assert(m.k() == 2 ==> e == rf);
                assert(m.k() == 3 ==> e == t - 1);
                assert(false);
            }
            assert forall|s: int|
                #![trigger geom::btw(e, s, t)]
                #![trigger bits::mem(occ, s)]
                geom::btw(e, s, t) implies !bits::mem(occ, s) by {
                assert(!bits::mem(after, s));
                pos::lemma_occ_of(next, s);
                pos::lemma_occ_of(cells, s);
            }
            assert(geom::clear(e, t, occ));
        }
        assert(pos::hits(cells[e], e, t, occ));
        assert(false);
    }
}

/// The two sides of a target mask: landing on an empty square or on an enemy
/// answers the checks exactly when the mask holds the square.
proof fn lemma_masks(p: Position, t: int)
    requires
        p.sound(),
        bits::card(p.checkers) <= 1,
        geom::is_sq(t),
    ensures
        p.cells()[t] == 12 ==> (bits::mem(movegen::land_bb(p), t) <==> answers(p, t)),
        pos::owned(p.cells()[t], 1 - p.stm) ==> (bits::mem(movegen::take_bb(p), t) <==> answers(
            p,
            t,
        )),
        bits::mem(movegen::land_bb(p), t) ==> p.cells()[t] == 12,
        bits::mem(movegen::take_bb(p), t) ==> pos::owned(p.cells()[t], 1 - p.stm),
{
    let us = p.stm as int;
    let k = p.king(us);
    pos::lemma_cells(p, t);
    lemma_checkers(p, t);
    if p.checkers != 0 {
        let c = bits::low(p.checkers);
        bits::lemma_low(p.checkers);
        bits::lemma_card_one(p.checkers);
        lemma_checkers(p, c);
        assert forall|x: int| #[trigger] bits::mem(p.checkers, x) implies x == c by {}
        assert(answers(p, t) <==> t == c || geom::btw(k, t, c));
        geom::lemma_btw_sym(k, t, c);
        pos::lemma_cells(p, c);
        if geom::btw(k, t, c) && pos::owned(p.cells()[t], 1 - us) {
            assert(geom::btw(c, t, k));
            assert(bits::mem(p.occ_bb(), t));
            assert(false);
        }
    }
}

/// Nothing answers two checks at once but the king.
proof fn lemma_double_check(p: Position, t: int)
    requires
        p.sound(),
        bits::card(p.checkers) > 1,
        t != p.king(p.stm as int),
    ensures
        !answers(p, t),
{
    let us = p.stm as int;
    let k = p.king(us);
    let c = bits::low(p.checkers);
    let r = bits::rest(p.checkers);
    bits::lemma_low(p.checkers);
    bits::lemma_rest(p.checkers);
    bits::lemma_low(r);
    let d = bits::low(r);
    assert(r != 0) by {
        reveal_with_fuel(bits::card, 2);
    }
    if answers(p, t) {
        lemma_checkers(p, c);
        lemma_checkers(p, d);
        assert(bits::mem(p.checkers, c) && bits::mem(p.checkers, d) && c != d);
        pos::lemma_cells(p, c);
        pos::lemma_cells(p, d);
        assert(geom::btw(k, c, d) || geom::btw(k, d, c));
        geom::lemma_btw_sym(k, c, d);
        geom::lemma_btw_sym(k, d, c);
        assert(false);
    }
}

// ---------------------------------------------------------------------------
// The laws
// ---------------------------------------------------------------------------

/// A piece that is not a pawn or king generates what it attacks.
proof fn lemma_officer(p: Position, m: Move, pt: int)
    requires
        p.sound(),
        2 <= pt < 5,
        p.cells()[m.f()] == p.stm * 6 + pt,
    ensures
        bits::mem(movegen::slider_bb(pt, m.f(), p.occ_bb()), m.t()) <==> pos::hits(
            p.cells()[m.f()],
            m.f(),
            m.t(),
            p.occ_bb(),
        ),
{
}

/// Every legal move can be made: it never takes the enemy king.
pub proof fn law_legal_is_playable(p: Position, m: Move)
    requires
        p.wf(),
        rules::legal(p, m),
    ensures
        rules::playable(p.cells(), p.stm as int, m),
{
    let us = p.stm as int;
    let cells = p.cells();
    if m.cap() && m.k() != 5 {
        assert(pos::hits(cells[m.f()], m.f(), m.t(), pos::occ_of(cells)));
        assert(cells[m.t()] != (1 - us) * 6 + 5);
    }
    if m.k() == 2 || m.k() == 3 {
        lemma_castle_rules(p, m);
    }
}

/// What follows a legal move is again a position of the game.
pub proof fn law_legal_keeps_wf(p: Position, m: Move, q: Position)
    requires
        p.wf(),
        rules::legal(p, m),
        q.sound(),
        q.stm == 1 - p.stm,
        q.cells() == rules::moved(p.cells(), p.stm as int, m),
    ensures
        q.wf(),
{
    let us = p.stm as int;
    law_legal_is_playable(p, m);
    crate::make::lemma_kings_kept(p.cells(), us, m, us, p.king(us));
    pos::lemma_king(q, us, rules::king_after(p, m));
}

/// Only legal moves are generated.
pub proof fn law_generated_is_legal(p: Position, m: Move)
    requires
        p.wf(),
        movegen::move_list(p, GenKind::All).contains(m),
    ensures
        rules::legal(p, m),
{
    let us = p.stm as int;
    let (f, t) = (m.f(), m.t());
    let k = p.king(us);
    lemma_generated(p, GenKind::All, m);
    pos::lemma_cells(p, f);
    pos::lemma_cells(p, t);
    pos::lemma_cells(p, k);
    pos::lemma_occ(p);
    if in_king(p, GenKind::All, m) {
        lemma_king_step(p, m);
    } else {
        lemma_masks(p, t);
        lemma_push_sets(p, t);
        if in_pushes(p, GenKind::All, m) {
            if m.k() == 1 {
                lemma_push_sets(p, rules::back(us, t));
                pos::lemma_cells(p, rules::back(us, t));
            }
            assert(geom::clear(f, t, p.occ_bb()));
            lemma_lift_safe(p, m);
        } else if in_takes(p, GenKind::All, true, m) || in_takes(p, GenKind::All, false, m) {
            assert(geom::clear(f, t, p.occ_bb()));
            lemma_lift_safe(p, m);
        } else if in_ep(p, m) {
            lemma_ep_step(p, m);
        } else if in_knights(p, GenKind::All, m) {
            lemma_lift_safe(p, m);
        } else if in_sliders(p, GenKind::All, 2, m) {
            lemma_officer(p, m, 2);
            lemma_lift_safe(p, m);
        } else if in_sliders(p, GenKind::All, 3, m) {
            lemma_officer(p, m, 3);
            lemma_lift_safe(p, m);
        } else if in_sliders(p, GenKind::All, 4, m) {
            lemma_officer(p, m, 4);
            lemma_lift_safe(p, m);
        } else {
            lemma_castle_rules(p, m);
            lemma_castle_safe(p, m);
        }
    }
}

/// Every legal move is generated. En passant out of a double check is left out:
/// no game reaches a position that allows it.
pub proof fn law_legal_is_generated(p: Position, m: Move)
    requires
        p.wf(),
        rules::legal(p, m),
        m.k() == 5 ==> bits::card(p.checkers) <= 1,
    ensures
        movegen::move_list(p, GenKind::All).contains(m),
{
    let us = p.stm as int;
    let (f, t) = (m.f(), m.t());
    let k = p.king(us);
    let cells = p.cells();
    lemma_generated(p, GenKind::All, m);
    pos::lemma_cells(p, f);
    pos::lemma_cells(p, t);
    pos::lemma_cells(p, k);
    pos::lemma_occ(p);
    lemma_push_sets(p, t);
    if m.k() == 2 || m.k() == 3 {
        lemma_castle_rules(p, m);
        assert(bits::card(p.checkers) == 0);
    } else if m.k() == 5 {
        lemma_ep_step(p, m);
    } else if f == k {
        lemma_king_step(p, m);
        assert(in_king(p, GenKind::All, m));
    } else {
        assert(f != t && t != k);
        lemma_lift_must(p, m);
        if bits::card(p.checkers) > 1 {
            lemma_double_check(p, t);
        }
        lemma_masks(p, t);
        let pt = cells[f] % 6;
        assert(cells[f] == us * 6 + pt);
        if pt == 0 {
            if m.k() == 1 {
                let u = rules::back(us, t);
                lemma_push_sets(p, u);
                pos::lemma_cells(p, u);
                assert(in_pushes(p, GenKind::All, m));
            } else if m.k() == 0 || 8 <= m.k() < 12 {
                assert(in_pushes(p, GenKind::All, m));
            } else {
                assert(f == rules::back(us, t) - 1 || f == rules::back(us, t) + 1);
                assert(in_takes(p, GenKind::All, true, m) || in_takes(p, GenKind::All, false, m));
            }
        } else if pt == 1 {
            lemma_pinned(p, f);
            assert(!geom::on_line(k, f, t) || !bits::mem(p.pinned_bb(us), f)) by {
                if p.is_pinned(us, f) {
                    let e = choose|e: int| #[trigger] p.pins(us, e, f);
                    assert(geom::btw(k, f, e));
                }
            }
            assert(in_knights(p, GenKind::All, m));
        } else {
            lemma_officer(p, m, pt);
            assert(in_sliders(p, GenKind::All, pt, m));
        }
    }
}

/// The quiescence list is the tactical part of the full list.
pub proof fn law_noisy_is_tactical(p: Position, m: Move)
    requires
        p.sound(),
    ensures
        movegen::move_list(p, GenKind::Noisy).contains(m) <==> movegen::move_list(
            p,
            GenKind::All,
        ).contains(m) && rules::tactical(m),
{
    let us = p.stm as int;
    lemma_generated(p, GenKind::All, m);
    lemma_generated(p, GenKind::Noisy, m);
    pos::lemma_cells(p, m.t());
    if bits::card(p.checkers) <= 1 {
        lemma_masks(p, m.t());
    }
}

// ---------------------------------------------------------------------------
// No move is generated twice
// ---------------------------------------------------------------------------

proof fn lemma_sum_distinct(x: Seq<Move>, y: Seq<Move>)
    requires
        x.no_duplicates(),
        y.no_duplicates(),
        forall|m: Move| #[trigger] x.contains(m) ==> !y.contains(m),
    ensures
        (x + y).no_duplicates(),
{
    let z = x + y;
    assert forall|i: int, j: int| 0 <= i < z.len() && 0 <= j < z.len() && i != j implies z[i]
        != z[j] by {
        if i < x.len() && j >= x.len() {
            assert(x.contains(x[i]));
            assert(y[j - x.len()] == z[j]);
        } else if j < x.len() && i >= x.len() {
            assert(x.contains(x[j]));
            assert(y[i - x.len()] == z[i]);
        }
    }
}

/// `each` repeats nothing when the squares yield disjoint lists.
proof fn lemma_each_distinct(b: u64, f: spec_fn(int) -> Seq<Move>)
    requires
        forall|s: int| bits::mem(b, s) ==> (#[trigger] f(s)).no_duplicates(),
        forall|s: int, u: int, m: Move|
            bits::mem(b, s) && bits::mem(b, u) && #[trigger] f(s).contains(m)
                && #[trigger] f(u).contains(m) ==> s == u,
    ensures
        movegen::each(b, f).no_duplicates(),
    decreases b,
{
    if b != 0 {
        bits::lemma_rest_smaller(b);
        bits::lemma_rest(b);
        bits::lemma_low(b);
        let r = bits::rest(b);
        lemma_each_distinct(r, f);
        let (x, y) = (f(bits::low(b)), movegen::each(r, f));
        assert forall|m: Move| #[trigger] x.contains(m) implies !y.contains(m) by {
            if y.contains(m) {
                let s = lemma_each_from(r, f, m);
                assert(bits::mem(b, s));
            }
        }
        lemma_sum_distinct(x, y);
    }
}

proof fn lemma_king_distinct(p: Position, kind: GenKind)
    requires
        p.sound(),
    ensures
        movegen::king_list(p, kind).no_duplicates(),
{
    let us = p.stm as int;
    let k = p.king(us);
    let f = movegen::king_fn(p);
    let b0 = geom::king_bb(k) & !p.color@[us];
    let b = if kind == GenKind::Noisy {
        b0 & p.color@[1 - us]
    } else {
        b0
    };
    assert forall|s: int, m: Move|
        bits::mem(b, s) && #[trigger] f(s).contains(m) implies m.t() == s by {
        lemma_in_one(movegen::plain(p, k, s), m);
    }
    lemma_each_distinct(b, f);
}

proof fn lemma_promos_distinct(f: int, t: int, cap: bool, kind: GenKind)
    requires
        geom::is_sq(f),
        geom::is_sq(t),
    ensures
        movegen::promos(f, t, cap, kind).no_duplicates(),
{
    let l = movegen::promos(f, t, cap, kind);
    let base = if cap {
        12int
    } else {
        8
    };
    assert forall|i: int| 0 <= i < l.len() implies (#[trigger] l[i]).k() == base + 3 - i by {
        assert(i == 0 || i == 1 || i == 2 || i == 3);
    }
}

proof fn lemma_pushes_distinct(p: Position, kind: GenKind)
    requires
        p.sound(),
    ensures
        movegen::push_list(p, kind).no_duplicates(),
{
    let us = p.stm as int;
    let one = movegen::push_one(p);
    let (q, l) = (movegen::quiet_bb(p, kind), movegen::last_rank(us));
    let (b1, b2, b3) = (one & l & movegen::land_bb(p), one & !l & q, movegen::push_two(p) & q);
    let (f1, f2, f3) = (
        movegen::push_promo_fn(p, kind),
        movegen::push_fn(p),
        movegen::double_fn(p),
    );
    let (l1, l2, l3) = (movegen::each(b1, f1), movegen::each(b2, f2), movegen::each(b3, f3));
    assert forall|s: int, m: Move| bits::mem(b1, s) && #[trigger] f1(s).contains(m) implies m.t()
        == s && m.k() >= 8 by {
        lemma_push_sets(p, s);
        lemma_in_promos(rules::back(us, s), s, false, kind, m);
    }
    assert forall|s: int| bits::mem(b1, s) implies (#[trigger] f1(s)).no_duplicates() by {
        lemma_push_sets(p, s);
        lemma_promos_distinct(rules::back(us, s), s, false, kind);
    }
    lemma_each_distinct(b1, f1);
    assert forall|s: int, m: Move| bits::mem(b2, s) && #[trigger] f2(s).contains(m) implies m.t()
        == s && m.k() == 0 by {
        lemma_push_sets(p, s);
        lemma_in_one(moves::mv(rules::back(us, s), s, 0), m);
    }
    lemma_each_distinct(b2, f2);
    assert forall|s: int, m: Move| bits::mem(b3, s) && #[trigger] f3(s).contains(m) implies m.t()
        == s && m.k() == 1 by {
        lemma_push_sets(p, s);
        lemma_push_sets(p, rules::back(us, s));
        lemma_in_one(moves::mv(rules::back(us, rules::back(us, s)), s, 1), m);
    }
    lemma_each_distinct(b3, f3);
    assert forall|m: Move| #[trigger] l1.contains(m) implies !l2.contains(m) by {
        let s = lemma_each_from(b1, f1, m);
        if l2.contains(m) {
            let u = lemma_each_from(b2, f2, m);
        }
    }
    lemma_sum_distinct(l1, l2);
    assert forall|m: Move| #[trigger] (l1 + l2).contains(m) implies !l3.contains(m) by {
        lemma_in_sum(l1, l2, m);
        if l3.contains(m) {
            let u = lemma_each_from(b3, f3, m);
            if l1.contains(m) {
                let s = lemma_each_from(b1, f1, m);
            } else {
                let s = lemma_each_from(b2, f2, m);
            }
        }
    }
    lemma_sum_distinct(l1 + l2, l3);
}

proof fn lemma_takes_distinct(p: Position, kind: GenKind, shift_e: bool)
    requires
        p.sound(),
    ensures
        movegen::take_list(p, kind, shift_e).no_duplicates(),
{
    let us = p.stm as int;
    let pawns = p.of(us, 0);
    let side = if shift_e {
        bb::east_bb(pawns)
    } else {
        bb::west_bb(pawns)
    };
    let ahead = bb::push_bb(side, us);
    let b = ahead & movegen::take_bb(p);
    let fun = movegen::take_fn(p, kind, shift_e);
    let d = if shift_e {
        -1int
    } else {
        1
    };
    assert(ahead == bb::push_bb(side, if us == 0 { 0 } else { 1 }));
    assert forall|s: int| #[trigger] bits::mem(b, s) implies geom::is_sq(rules::back(us, s) + d) by {
        bb::lemma_steps(side, s);
        bb::lemma_steps(pawns, rules::back(us, s));
    }
    assert forall|s: int, m: Move| bits::mem(b, s) && #[trigger] fun(s).contains(m) implies m.t()
        == s by {
        let f = rules::back(us, s) + d;
        lemma_push_sets(p, s);
        lemma_in_promos(f, s, true, kind, m);
        lemma_in_one(moves::mv(f, s, 4), m);
    }
    assert forall|s: int| bits::mem(b, s) implies (#[trigger] fun(s)).no_duplicates() by {
        lemma_promos_distinct(rules::back(us, s) + d, s, true, kind);
    }
    lemma_each_distinct(b, fun);
}

proof fn lemma_ep_distinct(p: Position)
    requires
        p.sound(),
    ensures
        movegen::ep_list(p).no_duplicates(),
{
    if p.ep != 64 {
        let us = p.stm as int;
        let e = p.ep as int;
        let b = geom::pawn_bb(1 - us, e) & p.of(us, 0);
        let fun = movegen::ep_fn(p);
        assert forall|s: int, m: Move|
            bits::mem(b, s) && #[trigger] fun(s).contains(m) implies m.f() == s by {
            lemma_in_one(moves::mv(s, e, 5), m);
        }
        lemma_each_distinct(b, fun);
    }
}

/// The moves of one piece, whatever its targets.
proof fn lemma_plain_distinct(p: Position, f: int, b: u64)
    requires
        geom::is_sq(f),
    ensures
        movegen::each(b, movegen::plain_fn(p, f)).no_duplicates(),
        forall|m: Move| #[trigger]
            movegen::each(b, movegen::plain_fn(p, f)).contains(m) ==> m.f() == f,
{
    let fun = movegen::plain_fn(p, f);
    assert forall|s: int, m: Move| bits::mem(b, s) && #[trigger] fun(s).contains(m) implies m.t()
        == s && m.f() == f by {
        lemma_in_one(movegen::plain(p, f, s), m);
    }
    lemma_each_distinct(b, fun);
    assert forall|m: Move| #[trigger] movegen::each(b, fun).contains(m) implies m.f() == f by {
        let s = lemma_each_from(b, fun, m);
    }
}

proof fn lemma_officers_distinct(p: Position, kind: GenKind, pt: int)
    requires
        p.sound(),
    ensures
        movegen::knight_list(p, kind).no_duplicates(),
        movegen::slider_list(p, kind, pt).no_duplicates(),
{
    let us = p.stm as int;
    let tq = movegen::quiet_bb(p, kind) | movegen::take_bb(p);
    let b = p.of(us, 1) & !p.pinned_bb(us);
    let fun = movegen::knight_fn(p, kind);
    assert forall|s: int| bits::mem(b, s) implies {
        &&& (#[trigger] fun(s)).no_duplicates()
        &&& forall|m: Move| #[trigger] fun(s).contains(m) ==> m.f() == s
    } by {
        lemma_plain_distinct(p, s, geom::knight_bb(s) & tq);
    }
    lemma_each_distinct(b, fun);
    let b2 = p.of(us, pt);
    let fun2 = movegen::slider_fn(p, kind, pt);
    assert forall|s: int| bits::mem(b2, s) implies {
        &&& (#[trigger] fun2(s)).no_duplicates()
        &&& forall|m: Move| #[trigger] fun2(s).contains(m) ==> m.f() == s
    } by {
        let t0 = movegen::slider_bb(pt, s, p.occ_bb()) & tq;
        lemma_plain_distinct(p, s, t0);
        lemma_plain_distinct(p, s, t0 & geom::line_bb(p.king(us), s));
    }
    lemma_each_distinct(b2, fun2);
}

/// Which part of the list a move comes from, told by the piece it moves and
/// its flag.
#[verifier::opaque]
spec fn part(p: Position, m: Move) -> int {
    let us = p.stm as int;
    let code = p.cells()[m.f()];
    if m.k() == 2 || m.k() == 3 {
        9
    } else if m.k() == 5 {
        4
    } else if code == us * 6 + 5 {
        0
    } else if code == us * 6 {
        if !m.cap() {
            1
        } else if m.f() == rules::back(us, m.t()) - 1 {
            2
        } else {
            3
        }
    } else {
        code - us * 6 + 4
    }
}

/// All moves of `l` come from one part.
spec fn all_from(p: Position, l: Seq<Move>, i: int) -> bool {
    forall|m: Move| #[trigger] l.contains(m) ==> part(p, m) == i
}

/// All moves of `l` come from parts up to `i`.
spec fn all_upto(p: Position, l: Seq<Move>, i: int) -> bool {
    forall|m: Move| #[trigger] l.contains(m) ==> part(p, m) <= i
}

proof fn lemma_pawn_parts(p: Position, kind: GenKind)
    requires
        p.sound(),
    ensures
        all_from(p, movegen::push_list(p, kind), 1),
        all_from(p, movegen::take_list(p, kind, true), 2),
        all_from(p, movegen::take_list(p, kind, false), 3),
        all_from(p, movegen::ep_list(p), 4),
{
    reveal(part);
    let us = p.stm as int;
    assert forall|m: Move| #[trigger] movegen::push_list(p, kind).contains(m) implies part(p, m)
        == 1 by {
        lemma_in_pushes(p, kind, m);
        lemma_push_sets(p, m.t());
        lemma_push_sets(p, rules::back(us, m.t()));
        pos::lemma_cells(p, m.f());
    }
    assert forall|m: Move| #[trigger] movegen::take_list(p, kind, true).contains(m) implies part(
        p,
        m,
    ) == 2 by {
        lemma_in_takes(p, kind, true, m);
        pos::lemma_cells(p, m.f());
    }
    assert forall|m: Move| #[trigger] movegen::take_list(p, kind, false).contains(m) implies part(
        p,
        m,
    ) == 3 by {
        lemma_in_takes(p, kind, false, m);
        pos::lemma_cells(p, m.f());
    }
    assert forall|m: Move| #[trigger] movegen::ep_list(p).contains(m) implies part(p, m) == 4 by {
        lemma_in_ep(p, m);
    }
}

proof fn lemma_officer_parts(p: Position, kind: GenKind)
    requires
        p.sound(),
    ensures
        all_from(p, movegen::king_list(p, kind), 0),
        all_from(p, movegen::knight_list(p, kind), 5),
        all_from(p, movegen::slider_list(p, kind, 2), 6),
        all_from(p, movegen::slider_list(p, kind, 3), 7),
        all_from(p, movegen::slider_list(p, kind, 4), 8),
        all_from(p, movegen::castle_list(p), 9),
{
    reveal(part);
    assert forall|m: Move| #[trigger] movegen::king_list(p, kind).contains(m) implies part(p, m)
        == 0 by {
        lemma_in_king(p, kind, m);
    }
    assert forall|m: Move| #[trigger] movegen::knight_list(p, kind).contains(m) implies part(p, m)
        == 5 by {
        lemma_in_knights(p, kind, m);
        pos::lemma_cells(p, m.f());
    }
    assert forall|pt: int, m: Move|
        2 <= pt < 5 && #[trigger] movegen::slider_list(p, kind, pt).contains(m) implies part(p, m)
        == pt + 4 by {
        lemma_in_sliders(p, kind, pt, m);
        pos::lemma_cells(p, m.f());
    }
    assert forall|m: Move| #[trigger] movegen::castle_list(p).contains(m) implies part(p, m)
        == 9 by {
        lemma_in_castles(p, m);
    }
}

/// Appending the list of the next part.
proof fn lemma_join(p: Position, x: Seq<Move>, y: Seq<Move>, i: int)
    requires
        x.no_duplicates(),
        y.no_duplicates(),
        all_upto(p, x, i - 1),
        all_from(p, y, i),
    ensures
        (x + y).no_duplicates(),
        all_upto(p, x + y, i),
{
    lemma_sum_distinct(x, y);
    assert forall|m: Move| #[trigger] (x + y).contains(m) implies part(p, m) <= i by {
        lemma_in_sum(x, y, m);
    }
}

/// No move is generated twice.
pub proof fn law_no_duplicates(p: Position, kind: GenKind)
    requires
        p.sound(),
    ensures
        movegen::move_list(p, kind).no_duplicates(),
{
    let us = p.stm as int;
    lemma_king_distinct(p, kind);
    if bits::card(p.checkers) <= 1 {
        lemma_pushes_distinct(p, kind);
        lemma_takes_distinct(p, kind, true);
        lemma_takes_distinct(p, kind, false);
        lemma_ep_distinct(p);
        lemma_officers_distinct(p, kind, 2);
        lemma_officers_distinct(p, kind, 3);
        lemma_officers_distinct(p, kind, 4);
        lemma_pawn_parts(p, kind);
        lemma_officer_parts(p, kind);
        let c = if kind == GenKind::All && p.checkers == 0 {
            movegen::castle_list(p)
        } else {
            Seq::empty()
        };
        assert(c.no_duplicates()) by {
            let e = rules::home(us);
            assert(moves::mv(e, e + 2, 2).k() == 2 && moves::mv(e, e - 2, 3).k() == 3);
        }
        let l0 = movegen::king_list(p, kind);
        let l1 = l0 + movegen::push_list(p, kind);
        lemma_join(p, l0, movegen::push_list(p, kind), 1);
        let l2 = l1 + movegen::take_list(p, kind, true);
        lemma_join(p, l1, movegen::take_list(p, kind, true), 2);
        let l3 = l2 + movegen::take_list(p, kind, false);
        lemma_join(p, l2, movegen::take_list(p, kind, false), 3);
        let l4 = l3 + movegen::ep_list(p);
        lemma_join(p, l3, movegen::ep_list(p), 4);
        let l5 = l4 + movegen::knight_list(p, kind);
        lemma_join(p, l4, movegen::knight_list(p, kind), 5);
        let l6 = l5 + movegen::slider_list(p, kind, 2);
        lemma_join(p, l5, movegen::slider_list(p, kind, 2), 6);
        let l7 = l6 + movegen::slider_list(p, kind, 3);
        lemma_join(p, l6, movegen::slider_list(p, kind, 3), 7);
        let l8 = l7 + movegen::slider_list(p, kind, 4);
        lemma_join(p, l7, movegen::slider_list(p, kind, 4), 8);
        lemma_join(p, l8, c, 9);
    }
}

} // verus!
