//! What the network's features and answers promise.

use vstd::prelude::*;
use crate::bits;
use crate::eval;
use crate::geom;
use crate::infer::Brain;
use crate::mirror;
use crate::net;
use crate::net::Fact;
use crate::pos;
use crate::pos::Position;

verus! {

broadcast use {crate::bits::group_mem, crate::geom::group_geom};

// ---------------------------------------------------------------------------
// Weighing lists of facts
// ---------------------------------------------------------------------------

/// The sum of `w` over a list of facts.
pub open spec fn weigh(l: Seq<Fact>, w: spec_fn(Fact) -> int) -> int
    decreases l.len(),
{
    if l.len() == 0 {
        0
    } else {
        weigh(l.drop_last(), w) + w(l.last())
    }
}

proof fn lemma_weigh_sum(a: Seq<Fact>, b: Seq<Fact>, w: spec_fn(Fact) -> int)
    ensures
        weigh(a + b, w) == weigh(a, w) + weigh(b, w),
    decreases b.len(),
{
    if b.len() == 0 {
        assert(a + b =~= a);
    } else {
        lemma_weigh_sum(a, b.drop_last(), w);
        assert((a + b).drop_last() =~= a + b.drop_last());
        assert((a + b).last() == b.last());
    }
}

proof fn lemma_weigh_one(f: Fact, w: spec_fn(Fact) -> int)
    ensures
        weigh(seq![f], w) == w(f),
{
    assert(seq![f].drop_last() =~= Seq::<Fact>::empty());
    reveal_with_fuel(weigh, 2);
}

proof fn lemma_weigh_over(b: u64, f: spec_fn(int) -> Fact, w: spec_fn(Fact) -> int)
    ensures
        weigh(net::list_over(b, f), w) == eval::sum_over(b, |s: int| w(f(s))),
    decreases b,
{
    if b != 0 {
        bits::lemma_rest_smaller(b);
        let r = bits::rest(b);
        lemma_weigh_over(r, f, w);
        lemma_weigh_sum(seq![f(bits::low(b))], net::list_over(r, f), w);
        lemma_weigh_one(f(bits::low(b)), w);
    }
}

/// A fact as the exchanged sides see it.
pub open spec fn turn(f: Fact) -> Fact {
    Fact { color: 1 - f.color, white: f.black, black: f.white, ..f }
}

/// `v` gives a turned fact the weight that `w` gives the fact.
pub open spec fn agree(w: spec_fn(Fact) -> int, v: spec_fn(Fact) -> int) -> bool {
    forall|f: Fact| 0 <= f.color < 2 ==> v(turn(f)) == #[trigger] w(f)
}

// ---------------------------------------------------------------------------
// Facts on the turned board
// ---------------------------------------------------------------------------

/// One list over a set of squares, on the turned board.
proof fn lemma_turn_over(
    a: u64,
    f: spec_fn(int) -> Fact,
    b: u64,
    g: spec_fn(int) -> Fact,
    w: spec_fn(Fact) -> int,
    v: spec_fn(Fact) -> int,
)
    requires
        agree(w, v),
        forall|s: int|
            geom::is_sq(s) ==> (#[trigger] bits::mem(b, s) <==> bits::mem(a, eval::flipped(s))),
        forall|s: int|
            bits::mem(b, s) ==> #[trigger] g(s) == turn(f(eval::flipped(s))) && 0 <= f(
                eval::flipped(s),
            ).color < 2,
    ensures
        weigh(net::list_over(a, f), w) == weigh(net::list_over(b, g), v),
{
    lemma_weigh_over(a, f, w);
    lemma_weigh_over(b, g, v);
    let (x, y) = (|s: int| w(f(s)), |s: int| v(g(s)));
    assert forall|s: int| bits::mem(b, s) implies #[trigger] y(s) == x(eval::flipped(s)) by {
        assert(g(s) == turn(f(eval::flipped(s))));
        assert(v(turn(f(eval::flipped(s)))) == w(f(eval::flipped(s))));
    }
    mirror::lemma_sum_flip(a, x, b, y);
}

proof fn lemma_turn_placed(
    p: Position,
    q: Position,
    c: int,
    pt: int,
    w: spec_fn(Fact) -> int,
    v: spec_fn(Fact) -> int,
)
    requires
        mirror::mirrors(p, q),
        0 <= c < 2,
        0 <= pt <= 6,
        agree(w, v),
    ensures
        weigh(net::placed_from(p, 1 - c, pt), w) == weigh(net::placed_from(q, c, pt), v),
    decreases 6 - pt,
{
    if pt < 6 {
        let d = 1 - c;
        lemma_turn_placed(p, q, c, pt + 1, w, v);
        let (a, b) = (p.of(d, pt), q.of(c, pt));
        let (f, g) = (net::placed_fn(d, pt), net::placed_fn(c, pt));
        assert forall|s: int| geom::is_sq(s) implies (#[trigger] bits::mem(b, s) <==> bits::mem(
            a,
            eval::flipped(s),
        )) by {
            mirror::lemma_flip_sets(p, q, s);
        }
        assert forall|s: int| bits::mem(b, s) implies #[trigger] g(s) == turn(f(eval::flipped(s)))
            && 0 <= f(eval::flipped(s)).color < 2 by {
            mirror::lemma_flip(s);
        }
        lemma_turn_over(a, f, b, g, w, v);
        lemma_weigh_sum(net::list_over(a, f), net::placed_from(p, d, pt + 1), w);
        lemma_weigh_sum(net::list_over(b, g), net::placed_from(q, c, pt + 1), v);
    }
}

proof fn lemma_turn_freedom(a: Seq<int>, b: Seq<int>, s: int)
    requires
        mirror::turned(a, b),
        mirror::filled(a),
        geom::is_sq(s),
        pos::is_piece(b[s]),
    ensures
        net::freedom(b, s) == net::freedom(a, eval::flipped(s)),
{
    let s2 = eval::flipped(s);
    mirror::lemma_flip(s);
    assert(b[s] == mirror::swap(a[s2]));
    let (x, y) = (b[s], a[s2]);
    assert(x / 6 == 1 - y / 6 && x == mirror::swap(y));
    let (ob, oa) = (pos::occ_of(b), pos::occ_of(a));
    let fa = |t: int| pos::hits(y, s2, t, oa) && !pos::owned(a[t], y / 6);
    let fb = |t: int| pos::hits(x, s, t, ob) && !pos::owned(b[t], x / 6);
    assert forall|t: int| geom::is_sq(t) implies (#[trigger] fb(t) <==> fa(eval::flipped(t))) by {
        mirror::lemma_flip(t);
        mirror::lemma_flip_hits(a, b, y, s, t);
        assert(b[t] == mirror::swap(a[eval::flipped(t)]));
    }
    mirror::lemma_count_flip(fa, fb);
}

proof fn lemma_turn_mob(
    p: Position,
    q: Position,
    c: int,
    pt: int,
    w: spec_fn(Fact) -> int,
    v: spec_fn(Fact) -> int,
)
    requires
        mirror::mirrors(p, q),
        0 <= c < 2,
        1 <= pt <= 5,
        agree(w, v),
    ensures
        weigh(net::mob_from(p, 1 - c, pt), w) == weigh(net::mob_from(q, c, pt), v),
    decreases 5 - pt,
{
    if pt < 5 {
        let d = 1 - c;
        lemma_turn_mob(p, q, c, pt + 1, w, v);
        let (a, b) = (p.of(d, pt), q.of(c, pt));
        let (f, g) = (net::mob_fn(p.cells(), d, pt), net::mob_fn(q.cells(), c, pt));
        assert forall|s: int| geom::is_sq(s) implies (#[trigger] bits::mem(b, s) <==> bits::mem(
            a,
            eval::flipped(s),
        )) by {
            mirror::lemma_flip_sets(p, q, s);
        }
        assert forall|s: int| bits::mem(b, s) implies #[trigger] g(s) == turn(f(eval::flipped(s)))
            && 0 <= f(eval::flipped(s)).color < 2 by {
            mirror::lemma_flip_sets(p, q, s);
            pos::lemma_cells(q, s);
            assert(q.of(c, pt) == b);
            lemma_turn_freedom(p.cells(), q.cells(), s);
        }
        lemma_turn_over(a, f, b, g, w, v);
        lemma_weigh_sum(net::list_over(a, f), net::mob_from(p, d, pt + 1), w);
        lemma_weigh_sum(net::list_over(b, g), net::mob_from(q, c, pt + 1), v);
    }
}

proof fn lemma_turn_bearing(p: Position, q: Position, c: int, pt: int, k: int)
    requires
        mirror::mirrors(p, q),
        0 <= c < 2,
        1 <= pt <= 5,
        geom::is_sq(k),
    ensures
        net::bearing_from(q, c, pt, k) == net::bearing_from(p, 1 - c, pt, eval::flipped(k)),
    decreases 5 - pt,
{
    if pt < 5 {
        let d = 1 - c;
        let k2 = eval::flipped(k);
        lemma_turn_bearing(p, q, c, pt + 1, k);
        let (a, b) = (p.of(d, pt), q.of(c, pt));
        let (f, g) = (net::attacker_fn(p.cells(), k2), net::attacker_fn(q.cells(), k));
        assert forall|s: int| geom::is_sq(s) implies (#[trigger] bits::mem(b, s) <==> bits::mem(
            a,
            eval::flipped(s),
        )) by {
            mirror::lemma_flip_sets(p, q, s);
        }
        assert forall|s: int| bits::mem(b, s) implies #[trigger] g(s) == f(eval::flipped(s)) by {
            mirror::lemma_flip_sets(p, q, s);
            pos::lemma_cells(q, s);
            assert(q.of(c, pt) == b);
            mirror::lemma_flip_terms(p.cells(), q.cells(), s, k);
        }
        mirror::lemma_sum_flip(a, f, b, g);
    }
}

proof fn lemma_turn_passed(
    p: Position,
    q: Position,
    c: int,
    w: spec_fn(Fact) -> int,
    v: spec_fn(Fact) -> int,
)
    requires
        mirror::mirrors(p, q),
        0 <= c < 2,
        agree(w, v),
    ensures
        weigh(net::list_over(net::passed_set(p, 1 - c), net::passed_fn(1 - c)), w) == weigh(
            net::list_over(net::passed_set(q, c), net::passed_fn(c)),
            v,
        ),
{
    let d = 1 - c;
    let (x, y) = (p.cells(), q.cells());
    let (a, b) = (net::passed_set(p, d), net::passed_set(q, c));
    let (f, g) = (net::passed_fn(d), net::passed_fn(c));
    let (ha, hb) = (
        |s: int| x[s] == d * 6 && eval::passed(x, s),
        |s: int| y[s] == c * 6 && eval::passed(y, s),
    );
    assert forall|s: int| geom::is_sq(s) implies (#[trigger] bits::mem(b, s) <==> bits::mem(
        a,
        eval::flipped(s),
    )) by {
        mirror::lemma_flip_sets(p, q, s);
        mirror::lemma_flip(s);
        geom::lemma_set_of(ha, eval::flipped(s));
        geom::lemma_set_of(hb, s);
        assert(y[s] == mirror::swap(x[eval::flipped(s)]));
        assert(x[eval::flipped(s)] == 12 || pos::is_piece(x[eval::flipped(s)]));
        if y[s] == c * 6 {
            mirror::lemma_flip_pawn_terms(x, y, s);
        }
    }
    assert forall|s: int| bits::mem(b, s) implies #[trigger] g(s) == turn(f(eval::flipped(s))) && 0
        <= f(eval::flipped(s)).color < 2 by {
        mirror::lemma_flip(s);
    }
    lemma_turn_over(a, f, b, g, w, v);
}

/// Counts of pawns and rooks on the turned board.
proof fn lemma_turn_counts(p: Position, q: Position, c: int, k: int)
    requires
        mirror::mirrors(p, q),
        0 <= c < 2,
        geom::is_sq(k),
    ensures
        net::isolated_count(q.cells(), c) == net::isolated_count(p.cells(), 1 - c),
        net::doubled_count(q.cells(), c) == net::doubled_count(p.cells(), 1 - c),
        net::rook_count(q.cells(), c, 0) == net::rook_count(p.cells(), 1 - c, 0),
        net::rook_count(q.cells(), c, 1) == net::rook_count(p.cells(), 1 - c, 1),
        net::shelter_count(q.cells(), c, k) == net::shelter_count(
            p.cells(),
            1 - c,
            eval::flipped(k),
        ),
{
    let d = 1 - c;
    let k2 = eval::flipped(k);
    let (x, y) = (p.cells(), q.cells());
    let (f1, g1) = (
        |s: int| x[s] == d * 6 && eval::isolated(x, s),
        |s: int| y[s] == c * 6 && eval::isolated(y, s),
    );
    let (f2, g2) = (
        |s: int| x[s] == d * 6 && eval::doubled(x, s),
        |s: int| y[s] == c * 6 && eval::doubled(y, s),
    );
    let (f3, g3) = (
        |s: int| x[s] == d * 6 + 3 && eval::rook_file(x, s) == 0,
        |s: int| y[s] == c * 6 + 3 && eval::rook_file(y, s) == 0,
    );
    let (f4, g4) = (
        |s: int| x[s] == d * 6 + 3 && eval::rook_file(x, s) == 1,
        |s: int| y[s] == c * 6 + 3 && eval::rook_file(y, s) == 1,
    );
    let (f5, g5) = (
        |s: int| x[s] == d * 6 && eval::zone(k2, s),
        |s: int| y[s] == c * 6 && eval::zone(k, s),
    );
    assert forall|s: int| geom::is_sq(s) implies ((g1(s) <==> f1(eval::flipped(s))) && (g2(s)
        <==> f2(eval::flipped(s))) && (g3(s) <==> f3(eval::flipped(s))) && (g4(s) <==> f4(
        eval::flipped(s),
    )) && (g5(s) <==> f5(#[trigger] eval::flipped(s)))) by {
        mirror::lemma_flip_sets(p, q, s);
        mirror::lemma_flip(s);
        mirror::lemma_flip_king_steps(c, k, s);
        assert(y[s] == mirror::swap(x[eval::flipped(s)]));
        assert(x[eval::flipped(s)] == 12 || pos::is_piece(x[eval::flipped(s)]));
        if pos::is_piece(y[s]) {
            mirror::lemma_flip_pawn_terms(x, y, s);
        }
    }
    assert forall|s: int| geom::is_sq(s) implies (#[trigger] g1(s) <==> f1(eval::flipped(s))) by {}
    assert forall|s: int| geom::is_sq(s) implies (#[trigger] g2(s) <==> f2(eval::flipped(s))) by {}
    assert forall|s: int| geom::is_sq(s) implies (#[trigger] g3(s) <==> f3(eval::flipped(s))) by {}
    assert forall|s: int| geom::is_sq(s) implies (#[trigger] g4(s) <==> f4(eval::flipped(s))) by {}
    assert forall|s: int| geom::is_sq(s) implies (#[trigger] g5(s) <==> f5(eval::flipped(s))) by {}
    mirror::lemma_count_flip(f1, g1);
    mirror::lemma_count_flip(f2, g2);
    mirror::lemma_count_flip(f3, g3);
    mirror::lemma_count_flip(f4, g4);
    mirror::lemma_count_flip(f5, g5);
}

/// A list of one or more plain facts.
proof fn lemma_weigh_two(a: Fact, b: Fact, w: spec_fn(Fact) -> int)
    ensures
        weigh(seq![a, b], w) == w(a) + w(b),
{
    assert(seq![a, b] =~= seq![a] + seq![b]);
    lemma_weigh_sum(seq![a], seq![b], w);
    lemma_weigh_one(a, w);
    lemma_weigh_one(b, w);
}

proof fn lemma_turn_side(
    p: Position,
    q: Position,
    c: int,
    w: spec_fn(Fact) -> int,
    v: spec_fn(Fact) -> int,
)
    requires
        mirror::mirrors(p, q),
        0 <= c < 2,
        agree(w, v),
    ensures
        weigh(net::side_facts(p, 1 - c), w) == weigh(net::side_facts(q, c), v),
{
    let d = 1 - c;
    lemma_turn_placed(p, q, c, 0, w, v);
    lemma_turn_mob(p, q, c, 1, w, v);
    lemma_turn_passed(p, q, c, w, v);
    lemma_turn_counts(p, q, c, 0);
    mirror::lemma_flip_pair(p, q, c);
    let (sp, sq) = (net::structure(p, d), net::structure(q, c));
    assert(sp =~= seq![sp[0], sp[1]] + seq![sp[2], sp[3]]);
    assert(sq =~= seq![sq[0], sq[1]] + seq![sq[2], sq[3]]);
    lemma_weigh_sum(seq![sp[0], sp[1]], seq![sp[2], sp[3]], w);
    lemma_weigh_sum(seq![sq[0], sq[1]], seq![sq[2], sq[3]], v);
    lemma_weigh_two(sp[0], sp[1], w);
    lemma_weigh_two(sp[2], sp[3], w);
    lemma_weigh_two(sq[0], sq[1], v);
    lemma_weigh_two(sq[2], sq[3], v);
    assert(sq[0] == turn(sp[0]) && sq[1] == turn(sp[1]) && sq[2] == turn(sp[2]) && sq[3] == turn(
        sp[3],
    ));
    assert(v(turn(sp[0])) == w(sp[0]) && v(turn(sp[1])) == w(sp[1]) && v(turn(sp[2])) == w(sp[2])
        && v(turn(sp[3])) == w(sp[3]));
    assert(weigh(sp, w) == weigh(sq, v));
    let (a1, b1) = (net::placed_from(p, d, 0), net::placed_from(q, c, 0));
    let (a2, b2) = (net::mob_from(p, d, 1), net::mob_from(q, c, 1));
    let (a3, b3) = (
        net::list_over(net::passed_set(p, d), net::passed_fn(d)),
        net::list_over(net::passed_set(q, c), net::passed_fn(c)),
    );
    let (a5, b5) = (net::pair_fact(p, d), net::pair_fact(q, c));
    assert(weigh(a5, w) == weigh(b5, v)) by {
        let f = net::plain(908, 1, d, 0);
        lemma_weigh_one(f, w);
        lemma_weigh_one(turn(f), v);
        assert(v(turn(f)) == w(f));
        assert(turn(f) == net::plain(908, 1, c, 0));
    }
    lemma_weigh_sum(a1, a2, w);
    lemma_weigh_sum(a1 + a2, a3, w);
    lemma_weigh_sum(a1 + a2 + a3, sp, w);
    lemma_weigh_sum(a1 + a2 + a3 + sp, a5, w);
    lemma_weigh_sum(b1, b2, v);
    lemma_weigh_sum(b1 + b2, b3, v);
    lemma_weigh_sum(b1 + b2 + b3, sq, v);
    lemma_weigh_sum(b1 + b2 + b3 + sq, b5, v);
}

proof fn lemma_turn_king(
    p: Position,
    q: Position,
    c: int,
    w: spec_fn(Fact) -> int,
    v: spec_fn(Fact) -> int,
)
    requires
        mirror::mirrors(p, q),
        0 <= c < 2,
        agree(w, v),
    ensures
        weigh(net::king_facts(p, 1 - c), w) == weigh(net::king_facts(q, c), v),
{
    let d = 1 - c;
    mirror::lemma_flip_kings(p, q);
    mirror::lemma_flip(p.king(d));
    let k = q.king(c);
    assert(eval::flipped(k) == p.king(d));
    lemma_turn_bearing(p, q, d, 1, k);
    lemma_turn_counts(p, q, c, k);
    let (kp, kq) = (net::king_facts(p, d), net::king_facts(q, c));
    assert(kp =~= seq![kp[0], kp[1]]);
    assert(kq =~= seq![kq[0], kq[1]]);
    lemma_weigh_two(kp[0], kp[1], w);
    lemma_weigh_two(kq[0], kq[1], v);
    assert(kq[0] == turn(kp[0]) && kq[1] == turn(kp[1]));
    assert(v(turn(kp[0])) == w(kp[0]) && v(turn(kp[1])) == w(kp[1]));
}

/// The facts of the turned board weigh the same.
proof fn lemma_turn_facts(
    p: Position,
    q: Position,
    w: spec_fn(Fact) -> int,
    v: spec_fn(Fact) -> int,
)
    requires
        mirror::mirrors(p, q),
        agree(w, v),
    ensures
        weigh(net::facts(p), w) == weigh(net::facts(q), v),
{
    lemma_turn_side(p, q, 0, w, v);
    lemma_turn_side(p, q, 1, w, v);
    lemma_turn_king(p, q, 0, w, v);
    lemma_turn_king(p, q, 1, w, v);
    let (a0, a1, a2, a3) = (
        net::side_facts(p, 0),
        net::side_facts(p, 1),
        net::king_facts(p, 0),
        net::king_facts(p, 1),
    );
    let (b0, b1, b2, b3) = (
        net::side_facts(q, 0),
        net::side_facts(q, 1),
        net::king_facts(q, 0),
        net::king_facts(q, 1),
    );
    lemma_weigh_sum(a0, a1, w);
    lemma_weigh_sum(a0 + a1, a2, w);
    lemma_weigh_sum(a0 + a1 + a2, a3, w);
    lemma_weigh_sum(b0, b1, v);
    lemma_weigh_sum(b0 + b1, b2, v);
    lemma_weigh_sum(b0 + b1 + b2, b3, v);
}

// ---------------------------------------------------------------------------
// The laws
// ---------------------------------------------------------------------------

/// How often `x` occurs in `l`.
pub open spec fn times(l: Seq<int>, x: int) -> int
    decreases l.len(),
{
    if l.len() == 0 {
        0
    } else {
        times(l.drop_last(), x) + if l.last() == x {
            1int
        } else {
            0
        }
    }
}

spec fn is_row(persp: int, x: int) -> spec_fn(Fact) -> int {
    |f: Fact|
        if net::index(f, persp) == x {
            1int
        } else {
            0
        }
}

/// The rows of a list of facts.
spec fn rows_of(l: Seq<Fact>, persp: int) -> Seq<int> {
    Seq::new(l.len(), |i: int| net::index(l[i], persp))
}

proof fn lemma_times(l: Seq<Fact>, persp: int, x: int)
    ensures
        times(rows_of(l, persp), x) == weigh(l, is_row(persp, x)),
    decreases l.len(),
{
    if l.len() > 0 {
        lemma_times(l.drop_last(), persp, x);
        assert(rows_of(l, persp).drop_last() =~= rows_of(l.drop_last(), persp));
    }
}

proof fn lemma_weigh_len(l: Seq<Fact>)
    ensures
        weigh(l, |f: Fact| 1int) == l.len(),
    decreases l.len(),
{
    if l.len() > 0 {
        lemma_weigh_len(l.drop_last());
    }
}

proof fn lemma_same_length(p: Position, q: Position)
    requires
        mirror::mirrors(p, q),
    ensures
        net::facts(p).len() == net::facts(q).len(),
{
    let one = |f: Fact| 1int;
    assert(agree(one, one));
    lemma_turn_facts(p, q, one, one);
    lemma_weigh_len(net::facts(p));
    lemma_weigh_len(net::facts(q));
}

/// The features do not care which colour is which: exchanging the sides leaves
/// the same rows active for the side to move, and the same for its opponent.
/// Positions with more facts than the lists hold are left out, since what is
/// dropped depends on the order.
pub proof fn law_features_are_colour_symmetric(p: Position, q: Position, persp: int, x: int)
    requires
        mirror::mirrors(p, q),
        net::facts(p).len() <= 96,
        0 <= persp < 2,
    ensures
        times(net::rows(p, persp), x) == times(net::rows(q, 1 - persp), x),
        net::rows(p, persp).len() == net::rows(q, 1 - persp).len(),
{
    lemma_same_length(p, q);
    let (w, v) = (is_row(persp, x), is_row(1 - persp, x));
    assert(agree(w, v)) by {
        assert forall|f: Fact| 0 <= f.color < 2 implies v(turn(f)) == #[trigger] w(f) by {
            assert(net::index(turn(f), 1 - persp) == net::index(f, persp));
        }
    }
    lemma_turn_facts(p, q, w, v);
    lemma_times(net::facts(p), persp, x);
    lemma_times(net::facts(q), 1 - persp, x);
    assert(net::rows(p, persp) =~= rows_of(net::facts(p), persp));
    assert(net::rows(q, 1 - persp) =~= rows_of(net::facts(q), 1 - persp));
}

spec fn weight_at(n: Brain, persp: int, j: int) -> spec_fn(Fact) -> int {
    |f: Fact| n.ft_w[net::index(f, persp) * 64 + j] as int
}

proof fn lemma_row_sum(n: Brain, l: Seq<Fact>, persp: int, j: int)
    ensures
        n.row_sum(rows_of(l, persp), j, l.len()) == weigh(l, weight_at(n, persp, j)),
    decreases l.len(),
{
    if l.len() > 0 {
        let m = l.drop_last();
        lemma_row_sum(n, m, persp, j);
        lemma_row_prefix(n, rows_of(l, persp), rows_of(m, persp), j, m.len());
    }
}

proof fn lemma_row_prefix(n: Brain, a: Seq<int>, b: Seq<int>, j: int, k: nat)
    requires
        k <= a.len(),
        k <= b.len(),
        forall|i: int| 0 <= i < k ==> a[i] == b[i],
    ensures
        n.row_sum(a, j, k) == n.row_sum(b, j, k),
    decreases k,
{
    if k > 0 {
        lemma_row_prefix(n, a, b, j, (k - 1) as nat);
    }
}

/// A neuron does not care which colour is which.
proof fn lemma_neuron(n: Brain, p: Position, q: Position, persp: int, j: int)
    requires
        mirror::mirrors(p, q),
        net::facts(p).len() <= 96,
        0 <= persp < 2,
    ensures
        n.neuron(net::rows(p, persp), j) == n.neuron(net::rows(q, 1 - persp), j),
{
    lemma_same_length(p, q);
    let (w, v) = (weight_at(n, persp, j), weight_at(n, 1 - persp, j));
    assert(agree(w, v)) by {
        assert forall|f: Fact| 0 <= f.color < 2 implies v(turn(f)) == #[trigger] w(f) by {
            assert(net::index(turn(f), 1 - persp) == net::index(f, persp));
        }
    }
    lemma_turn_facts(p, q, w, v);
    lemma_row_sum(n, net::facts(p), persp, j);
    lemma_row_sum(n, net::facts(q), 1 - persp, j);
    assert(net::rows(p, persp) =~= rows_of(net::facts(p), persp));
    assert(net::rows(q, 1 - persp) =~= rows_of(net::facts(q), 1 - persp));
}

proof fn lemma_dot(n: Brain, p: Position, q: Position, persp: int, w: int, k: nat)
    requires
        mirror::mirrors(p, q),
        net::facts(p).len() <= 96,
        0 <= persp < 2,
    ensures
        n.dot(net::rows(p, persp), w, k) == n.dot(net::rows(q, 1 - persp), w, k),
    decreases k,
{
    if k > 0 {
        lemma_dot(n, p, q, persp, w, (k - 1) as nat);
        lemma_neuron(n, p, q, persp, k - 1);
    }
}

/// The network does not care which colour is which.
pub proof fn law_network_is_colour_symmetric(n: Brain, p: Position, q: Position)
    requires
        mirror::mirrors(p, q),
        net::facts(p).len() <= 96,
    ensures
        n.answer(p) == n.answer(q),
{
    let us = p.stm as int;
    let (a, b) = (p.occ_bb(), q.occ_bb());
    assert forall|s: int| geom::is_sq(s) implies (#[trigger] bits::mem(b, s) <==> bits::mem(
        a,
        eval::flipped(s),
    )) by {
        mirror::lemma_flip_sets(p, q, s);
        assert(bits::mem(q.color@[0], s) == bits::mem(p.color@[1], eval::flipped(s)));
        assert(bits::mem(q.color@[1], s) == bits::mem(p.color@[0], eval::flipped(s)));
    }
    mirror::lemma_card_flip(a, b);
    let k = net::bucket(bits::card(a) as int);
    lemma_dot(n, p, q, us, k * 128, 64);
    lemma_dot(n, p, q, 1 - us, k * 128 + 64, 64);
}

/// More material never selects an earlier bucket.
pub proof fn law_buckets_are_monotonic(a: int, b: int)
    requires
        0 <= a <= b,
    ensures
        0 <= net::bucket(a) <= net::bucket(b) < 8,
{
}

/// Every output bucket is reached by some number of pieces a game can hold.
pub proof fn law_buckets_are_all_reached(b: int) -> (pieces: int)
    requires
        0 <= b < 8,
    ensures
        2 <= pieces <= 32,
        net::bucket(pieces) == b,
{
    b * 4 + 2
}

// ---------------------------------------------------------------------------
// What the network computes
// ---------------------------------------------------------------------------

/// The sum of a list of numbers.
pub open spec fn total(s: Seq<int>) -> int
    decreases s.len(),
{
    if s.len() == 0 {
        0
    } else {
        s[0] + total(s.skip(1))
    }
}

proof fn lemma_total_push(s: Seq<int>, x: int)
    ensures
        total(s.push(x)) == total(s) + x,
    decreases s.len(),
{
    reveal_with_fuel(total, 2);
    if s.len() > 0 {
        assert(s.push(x).skip(1) =~= s.skip(1).push(x));
        lemma_total_push(s.skip(1), x);
    } else {
        assert(s.push(x).skip(1) =~= Seq::<int>::empty());
    }
}

proof fn lemma_total_concat(a: Seq<int>, b: Seq<int>)
    ensures
        total(a + b) == total(a) + total(b),
    decreases a.len(),
{
    if a.len() == 0 {
        assert(a + b =~= b);
    } else {
        assert((a + b).skip(1) =~= a.skip(1) + b);
        lemma_total_concat(a.skip(1), b);
    }
}

/// The weights that a position puts on neuron `j` of one side's half: one for
/// each of its active rows.
pub open spec fn stimuli(n: Brain, p: Position, persp: int, j: int) -> Seq<int> {
    let l = net::rows(p, persp);
    Seq::new(l.len(), |i: int| n.ft_w[l[i] * 64 + j] as int)
}

/// Neuron `j` as one side sees the position: the bias and the weights of the
/// active rows, clipped between nothing and 127.
pub open spec fn activation(n: Brain, p: Position, persp: int, j: int) -> int {
    let x = n.ft_b[j] + total(stimuli(n, p, persp, j));
    if x <= 0 {
        0
    } else if x >= 127 {
        127
    } else {
        x
    }
}

/// No neuron overflows sixteen bits.
pub open spec fn within_bounds(n: Brain, p: Position, persp: int) -> bool {
    forall|j: int|
        0 <= j < 64 ==> -32_768 <= n.ft_b[j] + total(#[trigger] stimuli(n, p, persp, j)) <= 32_767
}

/// The 128 products that make up the output: the neurons of the side to move
/// with the first half of the output weights of bucket `k`, then those of the
/// opponent with the second.
pub open spec fn products(n: Brain, p: Position, k: int) -> Seq<int> {
    Seq::new(
        128,
        |i: int|
            n.out_w[k * 128 + i] * if i < 64 {
                activation(n, p, p.stm as int, i)
            } else {
                activation(n, p, 1 - p.stm, i - 64)
            },
    )
}

/// `r` is the output `x` in centipawns: four hundred to every 8128 units, cut
/// off toward zero, and never more than twenty thousand either way.
pub open spec fn in_centipawns(x: int, r: int) -> bool {
    let y = x * 400;
    if y >= 20_000 * 8_128 {
        r == 20_000
    } else if y <= -20_000 * 8_128 {
        r == -20_000
    } else if y >= 0 {
        r * 8_128 <= y < (r + 1) * 8_128
    } else {
        (r - 1) * 8_128 < y <= r * 8_128
    }
}

proof fn lemma_stimuli(n: Brain, p: Position, persp: int, j: int, k: nat)
    requires
        k <= net::rows(p, persp).len(),
    ensures
        n.row_sum(net::rows(p, persp), j, k) == total(stimuli(n, p, persp, j).take(k as int)),
    decreases k,
{
    let s = stimuli(n, p, persp, j);
    if k > 0 {
        lemma_stimuli(n, p, persp, j, (k - 1) as nat);
        assert(s.take(k as int) =~= s.take(k - 1).push(s[k - 1]));
        lemma_total_push(s.take(k - 1), s[k - 1]);
    } else {
        assert(s.take(0) =~= Seq::<int>::empty());
    }
}

/// One side's half of the products.
spec fn half(n: Brain, p: Position, persp: int, w: int) -> Seq<int> {
    Seq::new(64, |j: int| n.out_w[w + j] * activation(n, p, persp, j))
}

proof fn lemma_half(n: Brain, p: Position, persp: int, w: int, k: nat)
    requires
        within_bounds(n, p, persp),
        k <= 64,
    ensures
        n.dot(net::rows(p, persp), w, k) == total(half(n, p, persp, w).take(k as int)),
    decreases k,
{
    let s = half(n, p, persp, w);
    if k > 0 {
        let j = k - 1;
        let l = net::rows(p, persp);
        lemma_half(n, p, persp, w, j as nat);
        lemma_stimuli(n, p, persp, j, l.len());
        let t = stimuli(n, p, persp, j);
        assert(t.take(l.len() as int) =~= t);
        assert(s.take(k as int) =~= s.take(j).push(s[j]));
        lemma_total_push(s.take(j), s[j]);
        let (x, y) = (activation(n, p, persp, j), n.out_w[w + j] as int);
        assert(x * y == y * x) by (nonlinear_arith);
    } else {
        assert(s.take(0) =~= Seq::<int>::empty());
    }
}

proof fn lemma_rounding(y: int)
    ensures
        ({
            let r = eval::quot(y, 8128);
            if y >= 0 {
                r * 8_128 <= y < (r + 1) * 8_128
            } else {
                (r - 1) * 8_128 < y <= r * 8_128
            }
        }),
{
}

/// The network's answer is the sum over all 128 neurons, 64 for either side,
/// each times its own output weight, and the bias of the bucket. Left out are
/// networks in which a sum overflows.
pub proof fn law_both_sides_are_summed(n: Brain, p: Position)
    requires
        p.stm < 2,
        within_bounds(n, p, 0),
        within_bounds(n, p, 1),
        ({
            let k = net::bucket(bits::card(p.occ_bb()) as int);
            -5_000_000 <= total(products(n, p, k)) + n.out_b[k] <= 5_000_000
        }),
    ensures
        ({
            let k = net::bucket(bits::card(p.occ_bb()) as int);
            in_centipawns(total(products(n, p, k)) + n.out_b[k], n.answer(p))
        }),
{
    let us = p.stm as int;
    let k = net::bucket(bits::card(p.occ_bb()) as int);
    let (a, b) = (half(n, p, us, k * 128), half(n, p, 1 - us, k * 128 + 64));
    lemma_half(n, p, us, k * 128, 64);
    lemma_half(n, p, 1 - us, k * 128 + 64, 64);
    assert(a.take(64) =~= a && b.take(64) =~= b);
    lemma_total_concat(a, b);
    assert(products(n, p, k) =~= a + b);
    let x = total(products(n, p, k)) + n.out_b[k];
    lemma_rounding(x * 400);
}

proof fn lemma_total_update(s: Seq<int>, i: int, x: int)
    requires
        0 <= i < s.len(),
    ensures
        total(s.update(i, x)) == total(s) - s[i] + x,
    decreases s.len(),
{
    let t = s.update(i, x);
    if i == 0 {
        assert(t.skip(1) =~= s.skip(1));
    } else {
        assert(t.skip(1) =~= s.skip(1).update(i - 1, x));
        lemma_total_update(s.skip(1), i - 1, x);
    }
}

/// Every output weight counts, in either half: raising one of the position's
/// bucket by `d` raises the output by `d` times the neuron it belongs to, which
/// is the side to move's in the first half and the opponent's in the second.
pub proof fn law_every_output_weight_counts(a: Brain, b: Brain, p: Position, i: int, d: int)
    requires
        p.stm < 2,
        0 <= i < 128,
        b.ft_w == a.ft_w,
        b.ft_b == a.ft_b,
        b.out_b == a.out_b,
        a.out_w.len() == 1_024,
        b.out_w.len() == 1_024,
        within_bounds(a, p, 0),
        within_bounds(a, p, 1),
        ({
            let k = net::bucket(bits::card(p.occ_bb()) as int);
            &&& b.out_w[k * 128 + i] == a.out_w[k * 128 + i] + d
            &&& forall|x: int|
                0 <= x < 1_024 && x != k * 128 + i ==> #[trigger] b.out_w[x] == a.out_w[x]
            &&& -2_000_000 <= total(products(a, p, k)) + a.out_b[k] <= 2_000_000
            &&& -10_000 <= d <= 10_000
        }),
    ensures
        ({
            let k = net::bucket(bits::card(p.occ_bb()) as int);
            let x = total(products(a, p, k)) + a.out_b[k];
            let neuron = if i < 64 {
                activation(a, p, p.stm as int, i)
            } else {
                activation(a, p, 1 - p.stm, i - 64)
            };
            &&& in_centipawns(x, a.answer(p))
            &&& in_centipawns(x + d * neuron, b.answer(p))
        }),
{
    let k = net::bucket(bits::card(p.occ_bb()) as int);
    let (s, t) = (products(a, p, k), products(b, p, k));
    assert forall|persp: int, j: int| #[trigger] stimuli(b, p, persp, j) == stimuli(
        a,
        p,
        persp,
        j,
    ) by {
        assert(stimuli(b, p, persp, j) =~= stimuli(a, p, persp, j));
    }
    assert(within_bounds(b, p, 0) && within_bounds(b, p, 1));
    let neuron = if i < 64 {
        activation(a, p, p.stm as int, i)
    } else {
        activation(a, p, 1 - p.stm, i - 64)
    };
    assert(0 <= neuron <= 127);
    assert(t[i] == s[i] + d * neuron) by {
        let y = a.out_w[k * 128 + i] as int;
        assert((y + d) * neuron == y * neuron + d * neuron) by (nonlinear_arith);
    }
    assert(t =~= s.update(i, t[i]));
    lemma_total_update(s, i, t[i]);
    assert(-1_270_000 <= d * neuron <= 1_270_000) by (nonlinear_arith)
        requires
            -10_000 <= d <= 10_000,
            0 <= neuron <= 127,
    ;
    law_both_sides_are_summed(a, p);
    law_both_sides_are_summed(b, p);
}

proof fn lemma_listed(b: u64, f: spec_fn(int) -> Fact, s: int)
    requires
        bits::mem(b, s),
    ensures
        net::list_over(b, f).contains(f(s)),
    decreases b,
{
    bits::lemma_low(b);
    bits::lemma_rest_smaller(b);
    bits::lemma_rest(b);
    let l = net::list_over(b, f);
    let rest = net::list_over(bits::rest(b), f);
    if s == bits::low(b) {
        assert(l[0] == f(s));
    } else {
        assert(bits::mem(bits::rest(b), s));
        lemma_listed(bits::rest(b), f, s);
        let i = choose|i: int| 0 <= i < rest.len() && rest[i] == f(s);
        assert(l[i + 1] == f(s));
    }
}

proof fn lemma_contains_sum<T>(a: Seq<T>, b: Seq<T>, x: T)
    ensures
        a.contains(x) || b.contains(x) ==> (a + b).contains(x),
{
    if a.contains(x) {
        let i = choose|i: int| 0 <= i < a.len() && a[i] == x;
        assert((a + b)[i] == x);
    } else if b.contains(x) {
        let i = choose|i: int| 0 <= i < b.len() && b[i] == x;
        assert((a + b)[a.len() + i] == x);
    }
}

proof fn lemma_placed(p: Position, c: int, from: int, pt: int, s: int)
    requires
        0 <= from <= pt < 6,
        bits::mem(p.of(c, pt), s),
    ensures
        net::placed_from(p, c, from).contains(net::placed(c, pt, s)),
    decreases pt - from,
{
    let a = net::list_over(p.of(c, from), net::placed_fn(c, from));
    let b = net::placed_from(p, c, from + 1);
    if from == pt {
        lemma_listed(p.of(c, pt), net::placed_fn(c, pt), s);
    } else {
        lemma_placed(p, c, from + 1, pt, s);
    }
    lemma_contains_sum(a, b, net::placed(c, pt, s));
}

/// Every piece on the board lights up its own row, on either side: a row for
/// each kind of piece and square, one's own pieces before the opponent's, and
/// black sees the board upside down.
pub proof fn law_every_piece_has_its_row(p: Position, persp: int, s: int)
    requires
        p.board_ok(),
        geom::is_sq(s),
        p.cells()[s] != 12,
        0 <= persp < 2,
        net::facts(p).len() <= 96,
    ensures
        ({
            let (c, pt) = (p.cells()[s] / 6, p.cells()[s] % 6);
            net::rows(p, persp).contains(
                (if c == persp {
                    0int
                } else {
                    384
                }) + pt * 64 + if persp == 0 {
                    s
                } else {
                    (7 - s / 8) * 8 + s % 8
                },
            )
        }),
{
    pos::lemma_cells(p, s);
    let (c, pt) = (p.cells()[s] / 6, p.cells()[s] % 6);
    let f = net::placed(c, pt, s);
    assert(p.cells()[s] == c * 6 + pt);
    assert(bits::mem(p.of(c, pt), s));
    lemma_placed(p, c, 0, pt, s);
    let x = net::placed_from(p, c, 0);
    lemma_contains_sum(x, net::mob_from(p, c, 1), f);
    lemma_contains_sum(
        x + net::mob_from(p, c, 1),
        net::list_over(net::passed_set(p, c), net::passed_fn(c)),
        f,
    );
    lemma_contains_sum(
        x + net::mob_from(p, c, 1) + net::list_over(net::passed_set(p, c), net::passed_fn(c)),
        net::structure(p, c),
        f,
    );
    lemma_contains_sum(
        x + net::mob_from(p, c, 1) + net::list_over(net::passed_set(p, c), net::passed_fn(c))
            + net::structure(p, c),
        net::pair_fact(p, c),
        f,
    );
    assert(net::side_facts(p, c).contains(f));
    let (a, b) = (net::side_facts(p, 0), net::side_facts(p, 1));
    lemma_contains_sum(a, b, f);
    lemma_contains_sum(a + b, net::king_facts(p, 0), f);
    lemma_contains_sum(a + b + net::king_facts(p, 0), net::king_facts(p, 1), f);
    let l = net::facts(p);
    let i = choose|i: int| 0 <= i < l.len() && l[i] == f;
    let r = net::rows(p, persp);
    assert(r[i] == net::index(f, persp));
}

/// Whatever is a fact of one side lights up its row.
proof fn lemma_side_row(p: Position, c: int, persp: int, f: Fact)
    requires
        0 <= c < 2,
        net::facts(p).len() <= 96,
        net::side_facts(p, c).contains(f) || net::king_facts(p, c).contains(f),
    ensures
        net::rows(p, persp).contains(net::index(f, persp)),
{
    let (a, b) = (net::side_facts(p, 0), net::side_facts(p, 1));
    lemma_contains_sum(a, b, f);
    lemma_contains_sum(a + b, net::king_facts(p, 0), f);
    lemma_contains_sum(a + b + net::king_facts(p, 0), net::king_facts(p, 1), f);
    let l = net::facts(p);
    let i = choose|i: int| 0 <= i < l.len() && l[i] == f;
    assert(net::rows(p, persp)[i] == net::index(f, persp));
}

/// The parts of a side's facts.
proof fn lemma_parts(p: Position, c: int, f: Fact)
    requires
        net::mob_from(p, c, 1).contains(f) || net::list_over(
            net::passed_set(p, c),
            net::passed_fn(c),
        ).contains(f) || net::structure(p, c).contains(f) || net::pair_fact(p, c).contains(f),
    ensures
        net::side_facts(p, c).contains(f),
{
    let x = net::placed_from(p, c, 0);
    let y = x + net::mob_from(p, c, 1);
    let z = y + net::list_over(net::passed_set(p, c), net::passed_fn(c));
    lemma_contains_sum(x, net::mob_from(p, c, 1), f);
    lemma_contains_sum(y, net::list_over(net::passed_set(p, c), net::passed_fn(c)), f);
    lemma_contains_sum(z, net::structure(p, c), f);
    lemma_contains_sum(z + net::structure(p, c), net::pair_fact(p, c), f);
}

proof fn lemma_mobile(p: Position, c: int, from: int, pt: int, s: int)
    requires
        1 <= from <= pt < 5,
        bits::mem(p.of(c, pt), s),
    ensures
        net::mob_from(p, c, from).contains(net::mob_fn(p.cells(), c, pt)(s)),
    decreases pt - from,
{
    let a = net::list_over(p.of(c, from), net::mob_fn(p.cells(), c, from));
    let b = net::mob_from(p, c, from + 1);
    if from == pt {
        lemma_listed(p.of(c, pt), net::mob_fn(p.cells(), c, pt), s);
    } else {
        lemma_mobile(p, c, from + 1, pt, s);
    }
    lemma_contains_sum(a, b, net::mob_fn(p.cells(), c, pt)(s));
}

/// How far into its block a fact of colour `c` lies: one's own come first.
pub open spec fn whose(c: int, persp: int, stride: int) -> int {
    if c == persp {
        0
    } else {
        stride
    }
}

/// At most `n`.
pub open spec fn capped(x: int, n: int) -> int {
    if x > n {
        n
    } else {
        x
    }
}

/// Every officer lights up a row for its kind and the squares it is free to go
/// to, and every passed pawn one for how far it has come, on either side.
pub proof fn law_mobility_and_passed_pawns_have_their_rows(p: Position, persp: int, s: int)
    requires
        p.board_ok(),
        geom::is_sq(s),
        p.cells()[s] != 12,
        0 <= persp < 2,
        net::facts(p).len() <= 96,
    ensures
        ({
            let (c, pt) = (p.cells()[s] / 6, p.cells()[s] % 6);
            &&& 1 <= pt <= 4 ==> net::rows(p, persp).contains(
                768 + whose(c, persp, 48) + (pt - 1) * 12 + capped(net::freedom(p.cells(), s), 11),
            )
            &&& pt == 0 && eval::passed(p.cells(), s) ==> net::rows(p, persp).contains(
                864 + whose(c, persp, 8) + if c == 0 {
                    s / 8
                } else {
                    7 - s / 8
                },
            )
        }),
{
    pos::lemma_cells(p, s);
    let (c, pt) = (p.cells()[s] / 6, p.cells()[s] % 6);
    assert(p.cells()[s] == c * 6 + pt);
    assert(bits::mem(p.of(c, pt), s));
    if 1 <= pt <= 4 {
        let f = net::mob_fn(p.cells(), c, pt)(s);
        lemma_mobile(p, c, 1, pt, s);
        lemma_parts(p, c, f);
        lemma_side_row(p, c, persp, f);
    }
    if pt == 0 && eval::passed(p.cells(), s) {
        let cells = p.cells();
        let f = net::passed_fn(c)(s);
        let g = |s: int| cells[s] == c * 6 && eval::passed(cells, s);
        geom::lemma_set_of(g, s);
        lemma_listed(net::passed_set(p, c), net::passed_fn(c), s);
        lemma_parts(p, c, f);
        lemma_side_row(p, c, persp, f);
    }
}

/// Each side lights up a row for the number of its isolated pawns, of its
/// doubled pawns, of its rooks on open and on half open files, one for a pair of
/// bishops, and two for its king: the enemies that bear on it and the pawns
/// around it.
pub proof fn law_structure_has_its_rows(p: Position, persp: int, c: int)
    requires
        0 <= c < 2,
        0 <= persp < 2,
        net::facts(p).len() <= 96,
    ensures
        ({
            let (r, cells, k) = (net::rows(p, persp), p.cells(), p.king(c));
            &&& r.contains(880 + whose(c, persp, 4) + capped(net::isolated_count(cells, c), 3))
            &&& r.contains(888 + whose(c, persp, 4) + capped(net::doubled_count(cells, c), 3))
            &&& r.contains(896 + whose(c, persp, 3) + capped(net::rook_count(cells, c, 0), 2))
            &&& r.contains(902 + whose(c, persp, 3) + capped(net::rook_count(cells, c, 1), 2))
            &&& p.has_pair(c) ==> r.contains(908 + whose(c, persp, 1))
            &&& r.contains(910 + whose(c, persp, 8) + capped(net::bearing_from(p, 1 - c, 1, k), 7))
            &&& r.contains(926 + whose(c, persp, 4) + capped(net::shelter_count(cells, c, k), 3))
        }),
{
    let x = net::structure(p, c);
    lemma_parts(p, c, x[0]);
    lemma_parts(p, c, x[1]);
    lemma_parts(p, c, x[2]);
    lemma_parts(p, c, x[3]);
    lemma_side_row(p, c, persp, x[0]);
    lemma_side_row(p, c, persp, x[1]);
    lemma_side_row(p, c, persp, x[2]);
    lemma_side_row(p, c, persp, x[3]);
    if p.has_pair(c) {
        let y = net::pair_fact(p, c);
        assert(y.contains(y[0]));
        lemma_parts(p, c, y[0]);
        lemma_side_row(p, c, persp, y[0]);
    }
    let z = net::king_facts(p, c);
    assert(z.contains(z[0]) && z.contains(z[1]));
    lemma_side_row(p, c, persp, z[0]);
    lemma_side_row(p, c, persp, z[1]);
}

} // verus!
