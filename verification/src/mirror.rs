//! Colour symmetry: turning the board round and exchanging the colours changes
//! nothing that an evaluation may depend on.

use vstd::prelude::*;
use crate::bits;
use crate::eval;
use crate::geom;
use crate::pos;
use crate::pos::Position;
use crate::rules;

verus! {

broadcast use {crate::bits::group_mem, crate::geom::group_geom};

/// A piece with its colour exchanged.
pub open spec fn swap(code: int) -> int {
    if code == 12 {
        12
    } else if code < 6 {
        code + 6
    } else {
        code - 6
    }
}

/// `b` is the board `a` turned round, with the colours exchanged.
pub open spec fn turned(a: Seq<int>, b: Seq<int>) -> bool {
    forall|s: int| geom::is_sq(s) ==> #[trigger] b[s] == swap(a[eval::flipped(s)])
}

/// Every cell is empty or holds a piece.
pub open spec fn filled(a: Seq<int>) -> bool {
    forall|s: int| geom::is_sq(s) ==> (#[trigger] a[s] == 12 || pos::is_piece(a[s]))
}

/// `q` is the position `p` with the sides exchanged.
pub open spec fn mirrors(p: Position, q: Position) -> bool {
    &&& p.board_ok()
    &&& q.board_ok()
    &&& p.kings_ok()
    &&& p.stm < 2
    &&& q.stm == 1 - p.stm
    &&& turned(p.cells(), q.cells())
}

// ---------------------------------------------------------------------------
// Sums and counts
// ---------------------------------------------------------------------------

spec fn total(g: spec_fn(int) -> int, n: nat) -> int
    decreases n,
{
    if n == 0 {
        0
    } else {
        total(g, (n - 1) as nat) + g(n - 1)
    }
}

spec fn within(b: u64, f: spec_fn(int) -> int) -> spec_fn(int) -> int {
    |s: int|
        if bits::mem(b, s) {
            f(s)
        } else {
            0
        }
}

/// Two sums that differ in one place.
proof fn lemma_total_point(g: spec_fn(int) -> int, h: spec_fn(int) -> int, t: int, n: nat)
    requires
        forall|s: int| 0 <= s < n && s != t ==> #[trigger] g(s) == h(s),
    ensures
        total(g, n) == total(h, n) + if 0 <= t < n {
            g(t) - h(t)
        } else {
            0
        },
    decreases n,
{
    if n > 0 {
        lemma_total_point(g, h, t, (n - 1) as nat);
        assert(n - 1 != t ==> g(n - 1) == h(n - 1));
    }
}

proof fn lemma_sum_total(b: u64, f: spec_fn(int) -> int)
    ensures
        eval::sum_over(b, f) == total(within(b, f), 64),
    decreases b,
{
    let g = within(b, f);
    if b == 0 {
        lemma_total_zero(g, 64);
    } else {
        bits::lemma_low(b);
        bits::lemma_rest(b);
        bits::lemma_rest_smaller(b);
        let r = bits::rest(b);
        lemma_sum_total(r, f);
        let h = within(r, f);
        let t = bits::low(b);
        assert forall|s: int| 0 <= s < 64 && s != t implies #[trigger] g(s) == h(s) by {
            assert(bits::mem(b, s) <==> bits::mem(r, s));
        }
        lemma_total_point(g, h, t, 64);
        assert(g(t) == f(t) && h(t) == 0);
    }
}

proof fn lemma_total_zero(g: spec_fn(int) -> int, n: nat)
    requires
        forall|s: int| 0 <= s < n ==> #[trigger] g(s) == 0,
    ensures
        total(g, n) == 0,
    decreases n,
{
    if n > 0 {
        lemma_total_zero(g, (n - 1) as nat);
        assert(g(n - 1) == 0);
    }
}

/// One rank of a sum.
proof fn lemma_total_rank(g: spec_fn(int) -> int, r: int)
    requires
        r >= 0,
    ensures
        total(g, (r * 8 + 8) as nat) == total(g, (r * 8) as nat) + g(r * 8 + 0) + g(r * 8 + 1) + g(r * 8 + 2) + g(
            r * 8 + 3,
        ) + g(r * 8 + 4) + g(r * 8 + 5) + g(r * 8 + 6) + g(r * 8 + 7),
{
    reveal_with_fuel(total, 9);
}

/// Turning the board round permutes a sum.
proof fn lemma_total_flip(g: spec_fn(int) -> int, h: spec_fn(int) -> int)
    requires
        forall|s: int| geom::is_sq(s) ==> #[trigger] h(s) == g(eval::flipped(s)),
    ensures
        total(g, 64) == total(h, 64),
{
    lemma_total_rank(g, 0);
    lemma_total_rank(g, 1);
    lemma_total_rank(g, 2);
    lemma_total_rank(g, 3);
    lemma_total_rank(g, 4);
    lemma_total_rank(g, 5);
    lemma_total_rank(g, 6);
    lemma_total_rank(g, 7);
    lemma_total_rank(h, 0);
    lemma_total_rank(h, 1);
    lemma_total_rank(h, 2);
    lemma_total_rank(h, 3);
    lemma_total_rank(h, 4);
    lemma_total_rank(h, 5);
    lemma_total_rank(h, 6);
    lemma_total_rank(h, 7);
}

/// Turning the board round permutes a sum over a set.
pub proof fn lemma_sum_flip(a: u64, f: spec_fn(int) -> int, b: u64, g: spec_fn(int) -> int)
    requires
        forall|s: int|
            geom::is_sq(s) ==> (#[trigger] bits::mem(b, s) <==> bits::mem(a, eval::flipped(s))),
        forall|s: int| bits::mem(b, s) ==> #[trigger] g(s) == f(eval::flipped(s)),
    ensures
        eval::sum_over(a, f) == eval::sum_over(b, g),
{
    lemma_sum_total(a, f);
    lemma_sum_total(b, g);
    let (x, y) = (within(a, f), within(b, g));
    assert forall|s: int| geom::is_sq(s) implies #[trigger] y(s) == x(eval::flipped(s)) by {
        assert(bits::mem(b, s) <==> bits::mem(a, eval::flipped(s)));
    }
    lemma_total_flip(x, y);
}

proof fn lemma_card_sum(b: u64)
    ensures
        bits::card(b) == eval::sum_over(b, |s: int| 1int),
    decreases b,
{
    if b != 0 {
        bits::lemma_rest_smaller(b);
        lemma_card_sum(bits::rest(b));
    }
}

/// Turning the board round keeps the size of a set.
pub proof fn lemma_card_flip(a: u64, b: u64)
    requires
        forall|s: int|
            geom::is_sq(s) ==> (#[trigger] bits::mem(b, s) <==> bits::mem(a, eval::flipped(s))),
    ensures
        bits::card(a) == bits::card(b),
{
    lemma_card_sum(a);
    lemma_card_sum(b);
    lemma_sum_flip(a, |s: int| 1int, b, |s: int| 1int);
}

pub proof fn lemma_count_flip(f: spec_fn(int) -> bool, g: spec_fn(int) -> bool)
    requires
        forall|s: int| geom::is_sq(s) ==> (#[trigger] g(s) <==> f(eval::flipped(s))),
    ensures
        eval::count(f) == eval::count(g),
{
    let (a, b) = (geom::set_of(f), geom::set_of(g));
    assert forall|s: int| geom::is_sq(s) implies (#[trigger] bits::mem(b, s) <==> bits::mem(
        a,
        eval::flipped(s),
    )) by {
        geom::lemma_set_of(f, eval::flipped(s));
        geom::lemma_set_of(g, s);
    }
    lemma_card_flip(a, b);
}

// ---------------------------------------------------------------------------
// Geometry
// ---------------------------------------------------------------------------

pub proof fn lemma_flip(s: int)
    requires
        geom::is_sq(s),
    ensures
        geom::is_sq(eval::flipped(s)),
        eval::flipped(eval::flipped(s)) == s,
        geom::fl(eval::flipped(s)) == geom::fl(s),
        geom::rk(eval::flipped(s)) == 7 - geom::rk(s),
{
}

pub proof fn lemma_flip_btw(a: int, s: int, b: int)
    requires
        geom::is_sq(a),
        geom::is_sq(s),
        geom::is_sq(b),
    ensures
        geom::btw(eval::flipped(a), eval::flipped(s), eval::flipped(b)) <==> geom::btw(a, s, b),
{
    lemma_flip(a);
    lemma_flip(s);
    lemma_flip(b);
}

/// What a king on `k` reaches, and the square behind, on the turned board.
pub proof fn lemma_flip_king_steps(c: int, k: int, t: int)
    requires
        0 <= c < 2,
        geom::is_sq(k),
        geom::is_sq(t),
    ensures
        geom::king_sees(eval::flipped(k), eval::flipped(t)) <==> geom::king_sees(k, t),
        eval::zone(eval::flipped(k), eval::flipped(t)) <==> eval::zone(k, t),
        geom::is_sq(rules::back(c, t)) <==> geom::is_sq(rules::back(1 - c, eval::flipped(t))),
        geom::is_sq(rules::back(c, t)) ==> eval::flipped(rules::back(c, t)) == rules::back(
            1 - c,
            eval::flipped(t),
        ),
{
    lemma_flip(k);
    lemma_flip(t);
}

/// Pieces see the same on the turned board.
pub proof fn lemma_flip_hits(a: Seq<int>, b: Seq<int>, code: int, s: int, t: int)
    requires
        turned(a, b),
        filled(a),
        geom::is_sq(s),
        geom::is_sq(t),
        pos::is_piece(code),
    ensures
        pos::hits(swap(code), s, t, pos::occ_of(b)) <==> pos::hits(
            code,
            eval::flipped(s),
            eval::flipped(t),
            pos::occ_of(a),
        ),
{
    let (s2, t2) = (eval::flipped(s), eval::flipped(t));
    let (oa, ob) = (pos::occ_of(a), pos::occ_of(b));
    lemma_flip(s);
    lemma_flip(t);
    assert(swap(code) % 6 == code % 6 && swap(code) / 6 == 1 - code / 6);
    if geom::clear(s, t, ob) {
        assert forall|x: int|
            #![trigger geom::btw(s2, x, t2)]
            #![trigger bits::mem(oa, x)]
            geom::btw(s2, x, t2) implies !bits::mem(oa, x) by {
            let y = eval::flipped(x);
            lemma_flip(x);
            lemma_flip_btw(s, y, t);
            assert(!bits::mem(ob, y));
            pos::lemma_occ_of(b, y);
            pos::lemma_occ_of(a, x);
            assert(b[y] == swap(a[x]));
        }
    }
    if geom::clear(s2, t2, oa) {
        assert forall|x: int|
            #![trigger geom::btw(s, x, t)]
            #![trigger bits::mem(ob, x)]
            geom::btw(s, x, t) implies !bits::mem(ob, x) by {
            let y = eval::flipped(x);
            lemma_flip(x);
            lemma_flip_btw(s, x, t);
            assert(!bits::mem(oa, y));
            pos::lemma_occ_of(b, x);
            pos::lemma_occ_of(a, y);
            assert(b[x] == swap(a[y]));
        }
    }
}

// ---------------------------------------------------------------------------
// The evaluation
// ---------------------------------------------------------------------------

proof fn lemma_turned_back(a: Seq<int>, b: Seq<int>, s: int)
    requires
        turned(a, b),
        geom::is_sq(s),
        a[s] == 12 || pos::is_piece(a[s]),
    ensures
        b[eval::flipped(s)] == swap(a[s]),
{
    lemma_flip(s);
    assert(b[eval::flipped(s)] == swap(a[eval::flipped(eval::flipped(s))]));
}

/// A pawn of the other colour on the turned board.
proof fn lemma_flip_pawns(a: Seq<int>, b: Seq<int>, c: int, t: int, f: int)
    requires
        turned(a, b),
        filled(a),
        0 <= c < 2,
        geom::is_sq(t),
    ensures
        eval::pawn_guards(b, c, t) <==> eval::pawn_guards(a, 1 - c, eval::flipped(t)),
        eval::pawn_on(b, c, f) <==> eval::pawn_on(a, 1 - c, f),
{
    let t2 = eval::flipped(t);
    let d = 1 - c;
    lemma_flip(t);
    if eval::pawn_guards(b, c, t) {
        let q = choose|q: int|
            geom::is_sq(q) && #[trigger] b[q] == c * 6 && geom::pawn_sees(c, q, t);
        lemma_flip(q);
        assert(b[q] == swap(a[eval::flipped(q)]));
        assert(a[eval::flipped(q)] == d * 6);
    }
    if eval::pawn_guards(a, d, t2) {
        let q = choose|q: int|
            geom::is_sq(q) && #[trigger] a[q] == d * 6 && geom::pawn_sees(d, q, t2);
        lemma_flip(q);
        lemma_turned_back(a, b, q);
        assert(b[eval::flipped(q)] == c * 6);
    }
    if eval::pawn_on(b, c, f) {
        let q = choose|q: int| geom::is_sq(q) && #[trigger] b[q] == c * 6 && geom::fl(q) == f;
        lemma_flip(q);
        assert(b[q] == swap(a[eval::flipped(q)]));
        assert(a[eval::flipped(q)] == d * 6);
    }
    if eval::pawn_on(a, d, f) {
        let q = choose|q: int| geom::is_sq(q) && #[trigger] a[q] == d * 6 && geom::fl(q) == f;
        lemma_flip(q);
        lemma_turned_back(a, b, q);
        assert(b[eval::flipped(q)] == c * 6);
    }
}

proof fn lemma_flip_mobility(a: Seq<int>, b: Seq<int>, s: int, k: int)
    requires
        turned(a, b),
        filled(a),
        geom::is_sq(s),
        geom::is_sq(k),
        pos::is_piece(b[s]),
    ensures
        eval::mobility(b, s) == eval::mobility(a, eval::flipped(s)),
        eval::pressure(b, s, k) == eval::pressure(a, eval::flipped(s), eval::flipped(k)),
{
    reveal(eval::mobility);
    reveal(eval::pressure);
    let (s2, k2) = (eval::flipped(s), eval::flipped(k));
    lemma_flip(s);
    lemma_flip(k);
    assert(b[s] == swap(a[s2]));
    let (x, y) = (b[s], a[s2]);
    assert(x / 6 == 1 - y / 6 && x == swap(y));
    let (ob, oa) = (pos::occ_of(b), pos::occ_of(a));
    let fa = |t: int|
        pos::hits(y, s2, t, oa) && !pos::owned(a[t], y / 6) && !eval::pawn_guards(a, 1 - y / 6, t);
    let fb = |t: int|
        pos::hits(x, s, t, ob) && !pos::owned(b[t], x / 6) && !eval::pawn_guards(b, 1 - x / 6, t);
    assert forall|t: int| geom::is_sq(t) implies (#[trigger] fb(t) <==> fa(eval::flipped(t))) by {
        lemma_flip(t);
        lemma_flip_hits(a, b, y, s, t);
        lemma_flip_pawns(a, b, 1 - x / 6, t, 0);
        assert(b[t] == swap(a[eval::flipped(t)]));
    }
    lemma_count_flip(fa, fb);
    let ga = |t: int| pos::hits(y, s2, t, oa) && eval::zone(k2, t);
    let gb = |t: int| pos::hits(x, s, t, ob) && eval::zone(k, t);
    assert forall|t: int| geom::is_sq(t) implies (#[trigger] gb(t) <==> ga(eval::flipped(t))) by {
        lemma_flip_king_steps(0, k, t);
        lemma_flip_hits(a, b, y, s, t);
    }
    lemma_count_flip(ga, gb);
}

pub proof fn lemma_flip_pawn_terms(a: Seq<int>, b: Seq<int>, s: int)
    requires
        turned(a, b),
        filled(a),
        geom::is_sq(s),
        pos::is_piece(b[s]),
    ensures
        eval::isolated(b, s) <==> eval::isolated(a, eval::flipped(s)),
        eval::doubled(b, s) <==> eval::doubled(a, eval::flipped(s)),
        eval::passed(b, s) <==> eval::passed(a, eval::flipped(s)),
        eval::rook_file(b, s) == eval::rook_file(a, eval::flipped(s)),
{
    reveal(eval::isolated);
    reveal(eval::doubled);
    reveal(eval::passed);
    reveal(eval::rook_file);
    let s2 = eval::flipped(s);
    lemma_flip(s);
    assert(b[s] == swap(a[s2]));
    let (c, d) = (b[s] / 6, a[s2] / 6);
    assert(c == 1 - d);
    lemma_flip_pawns(a, b, c, s, geom::fl(s) - 1);
    lemma_flip_pawns(a, b, c, s, geom::fl(s) + 1);
    lemma_flip_pawns(a, b, c, s, geom::fl(s));
    lemma_flip_pawns(a, b, 1 - c, s, geom::fl(s));
    if eval::doubled(b, s) {
        let q = choose|q: int|
            geom::is_sq(q) && q != s && #[trigger] b[q] == b[s] && geom::fl(q) == geom::fl(s);
        lemma_flip(q);
        assert(b[q] == swap(a[eval::flipped(q)]));
        assert(a[eval::flipped(q)] == a[s2]);
    }
    if eval::doubled(a, s2) {
        let q = choose|q: int|
            geom::is_sq(q) && q != s2 && #[trigger] a[q] == a[s2] && geom::fl(q) == geom::fl(s2);
        lemma_flip(q);
        lemma_turned_back(a, b, q);
        assert(b[eval::flipped(q)] == b[s]);
    }
    if eval::passed(a, s2) {
        assert forall|q: int|
            geom::is_sq(q) && #[trigger] b[q] == (1 - c) * 6 && geom::abs(
                geom::fl(q) - geom::fl(s),
            ) <= 1 implies !eval::in_front(c, s, q) by {
            lemma_flip(q);
            assert(b[q] == swap(a[eval::flipped(q)]));
            assert(a[eval::flipped(q)] == (1 - d) * 6);
        }
    }
    if eval::passed(b, s) {
        assert forall|q: int|
            geom::is_sq(q) && #[trigger] a[q] == (1 - d) * 6 && geom::abs(
                geom::fl(q) - geom::fl(s2),
            ) <= 1 implies !eval::in_front(d, s2, q) by {
            lemma_flip(q);
            lemma_turned_back(a, b, q);
            assert(b[eval::flipped(q)] == (1 - c) * 6);
        }
    }
}

/// Every term of a piece is the same on the turned board.
pub proof fn lemma_flip_terms(a: Seq<int>, b: Seq<int>, s: int, k: int)
    requires
        turned(a, b),
        filled(a),
        geom::is_sq(s),
        geom::is_sq(k),
        pos::is_piece(b[s]),
    ensures
        eval::mg_term(b, s) == eval::mg_term(a, eval::flipped(s)),
        eval::eg_term(b, s) == eval::eg_term(a, eval::flipped(s)),
        eval::danger_term(b, s, k) == eval::danger_term(a, eval::flipped(s), eval::flipped(k)),
        eval::attacker_term(b, s, k) == eval::attacker_term(a, eval::flipped(s), eval::flipped(k)),
{
    reveal(eval::mg_term);
    reveal(eval::eg_term);
    let s2 = eval::flipped(s);
    lemma_flip(s);
    assert(b[s] == swap(a[s2]));
    assert(b[s] % 6 == a[s2] % 6);
    assert(eval::rel(b[s] / 6, s) == eval::rel(a[s2] / 6, s2));
    lemma_flip_mobility(a, b, s, k);
    lemma_flip_pawn_terms(a, b, s);
}

proof fn lemma_flip_shelter(a: Seq<int>, b: Seq<int>, c: int, k: int)
    requires
        turned(a, b),
        filled(a),
        0 <= c < 2,
        geom::is_sq(k),
    ensures
        eval::shelter(b, c, k) == eval::shelter(a, 1 - c, eval::flipped(k)),
{
    reveal(eval::shelter);
    let d = 1 - c;
    let k2 = eval::flipped(k);
    let fa = |t: int|
        a[t] == d * 6 && geom::king_sees(k2, t) && geom::is_sq(rules::back(d, t)) && eval::zone(
            k2,
            rules::back(d, t),
        );
    let fb = |t: int|
        b[t] == c * 6 && geom::king_sees(k, t) && geom::is_sq(rules::back(c, t)) && eval::zone(
            k,
            rules::back(c, t),
        );
    lemma_flip(k);
    assert forall|t: int| geom::is_sq(t) implies (#[trigger] fb(t) <==> fa(eval::flipped(t))) by {
        lemma_flip(t);
        assert(b[t] == swap(a[eval::flipped(t)]));
        lemma_flip_king_steps(c, k, t);
        if geom::is_sq(rules::back(c, t)) {
            lemma_flip_king_steps(c, k, rules::back(c, t));
        }
    }
    lemma_count_flip(fa, fb);
}

pub proof fn lemma_flip_sets(p: Position, q: Position, s: int)
    requires
        mirrors(p, q),
        geom::is_sq(s),
    ensures
        filled(p.cells()),
        filled(q.cells()),
        forall|c: int|
            0 <= c < 2 ==> (bits::mem(#[trigger] q.color@[c], s) <==> bits::mem(
                p.color@[1 - c],
                eval::flipped(s),
            )),
        forall|c: int, t: int|
            0 <= c < 2 && 0 <= t < 6 ==> (bits::mem(#[trigger] q.of(c, t), s) <==> bits::mem(
                p.of(1 - c, t),
                eval::flipped(s),
            )),
        forall|t: int|
            0 <= t < 6 ==> (bits::mem(#[trigger] q.piece@[t], s) <==> bits::mem(
                p.piece@[t],
                eval::flipped(s),
            )),
{
    let s2 = eval::flipped(s);
    lemma_flip(s);
    assert forall|x: int| geom::is_sq(x) implies (#[trigger] p.cells()[x] == 12 || pos::is_piece(
        p.cells()[x],
    )) by {
        pos::lemma_cells(p, x);
    }
    assert forall|x: int| geom::is_sq(x) implies (#[trigger] q.cells()[x] == 12 || pos::is_piece(
        q.cells()[x],
    )) by {
        pos::lemma_cells(q, x);
    }
    pos::lemma_cells(q, s);
    pos::lemma_cells(p, s2);
    assert(q.cells()[s] == swap(p.cells()[s2]));
    assert forall|c: int| 0 <= c < 2 implies (bits::mem(#[trigger] q.color@[c], s) <==> bits::mem(
        p.color@[1 - c],
        s2,
    )) by {
        assert(c == 0 || c == 1);
    }
    assert forall|c: int, t: int| 0 <= c < 2 && 0 <= t < 6 implies (bits::mem(
        #[trigger] q.of(c, t),
        s,
    ) <==> bits::mem(p.of(1 - c, t), s2)) by {
        assert(p.of(1 - c, t) == p.of(1 - c, t));
        assert(c == 0 || c == 1);
    }
    assert forall|t: int| 0 <= t < 6 implies (bits::mem(#[trigger] q.piece@[t], s) <==> bits::mem(
        p.piece@[t],
        s2,
    )) by {
        assert(p.piece@[t] == p.piece@[t]);
    }
}

/// The kings stand on turned squares.
pub proof fn lemma_flip_kings(p: Position, q: Position)
    requires
        mirrors(p, q),
    ensures
        q.kings_ok(),
        q.king(0) == eval::flipped(p.king(1)),
        q.king(1) == eval::flipped(p.king(0)),
{
    assert forall|c: int| 0 <= c < 2 implies pos::king_at(
        q.cells(),
        c,
        eval::flipped(#[trigger] p.king(1 - c)),
    ) by {
        let (a, b) = (p.cells(), q.cells());
        let d = 1 - c;
        let k = p.king(d);
        assert(pos::king_at(a, d, k));
        lemma_flip(k);
        lemma_turned_back(a, b, k);
        assert forall|s: int| geom::is_sq(s) && #[trigger] b[s] == c * 6 + 5 implies s
            == eval::flipped(k) by {
            lemma_flip(s);
            assert(b[s] == swap(a[eval::flipped(s)]));
            pos::lemma_cells(p, eval::flipped(s));
            assert(a[eval::flipped(s)] == d * 6 + 5);
        }
    }
    assert(pos::king_at(q.cells(), 0, eval::flipped(p.king(1 - 0))));
    assert(pos::king_at(q.cells(), 1, eval::flipped(p.king(1 - 1))));
    pos::lemma_king(q, 0, eval::flipped(p.king(1)));
    pos::lemma_king(q, 1, eval::flipped(p.king(0)));
}

/// One sum over the pieces of a side, on the turned board.
proof fn lemma_flip_sum(
    p: Position,
    q: Position,
    c: int,
    f: spec_fn(int) -> int,
    g: spec_fn(int) -> int,
)
    requires
        mirrors(p, q),
        0 <= c < 2,
        forall|s: int|
            geom::is_sq(s) && pos::is_piece(q.cells()[s]) ==> #[trigger] g(s) == f(
                eval::flipped(s),
            ),
    ensures
        eval::sum_over(p.color@[1 - c], f) == eval::sum_over(q.color@[c], g),
{
    let (x, y) = (p.color@[1 - c], q.color@[c]);
    assert forall|s: int| geom::is_sq(s) implies (#[trigger] bits::mem(y, s) <==> bits::mem(
        x,
        eval::flipped(s),
    )) by {
        lemma_flip_sets(p, q, s);
    }
    assert forall|s: int| bits::mem(y, s) implies #[trigger] g(s) == f(eval::flipped(s)) by {
        pos::lemma_cells(q, s);
    }
    lemma_sum_flip(x, f, y, g);
}

proof fn lemma_flip_attack(p: Position, q: Position, c: int)
    requires
        mirrors(p, q),
        0 <= c < 2,
    ensures
        q.attack(c) == p.attack(1 - c),
{
    reveal(Position::attack);
    let d = 1 - c;
    let (a, b) = (p.cells(), q.cells());
    lemma_flip_kings(p, q);
    let (kp, kq) = (p.king(1 - d), q.king(1 - c));
    assert(kq == eval::flipped(kp));
    lemma_flip(kp);
    lemma_flip_sets(p, q, 0);
    let (f4, g4) = (|s: int| eval::danger_term(a, s, kp), |s: int| eval::danger_term(b, s, kq));
    let (f5, g5) = (|s: int| eval::attacker_term(a, s, kp), |s: int| eval::attacker_term(b, s, kq));
    assert forall|s: int| geom::is_sq(s) && pos::is_piece(b[s]) implies #[trigger] g4(s) == f4(
        eval::flipped(s),
    ) by {
        lemma_flip_terms(a, b, s, kq);
    }
    assert forall|s: int| geom::is_sq(s) && pos::is_piece(b[s]) implies #[trigger] g5(s) == f5(
        eval::flipped(s),
    ) by {
        lemma_flip_terms(a, b, s, kq);
    }
    lemma_flip_sum(p, q, c, f4, g4);
    lemma_flip_sum(p, q, c, f5, g5);
}

pub proof fn lemma_flip_pair(p: Position, q: Position, c: int)
    requires
        mirrors(p, q),
        0 <= c < 2,
    ensures
        q.has_pair(c) == p.has_pair(1 - c),
        q.has_pawn(c) == p.has_pawn(1 - c),
{
    reveal(Position::has_pair);
    let d = 1 - c;
    let (h1, h2) = (|s: int| p.cells()[s] == d * 6 + 2, |s: int| q.cells()[s] == c * 6 + 2);
    assert forall|s: int| geom::is_sq(s) implies (#[trigger] h2(s) <==> h1(eval::flipped(s))) by {
        lemma_flip_sets(p, q, s);
        lemma_flip(s);
        assert(q.cells()[s] == swap(p.cells()[eval::flipped(s)]));
        pos::lemma_cells(p, eval::flipped(s));
    }
    lemma_count_flip(h1, h2);
    let (u, v) = (p.of(d, 0), q.of(c, 0));
    assert forall|s: int| geom::is_sq(s) implies (#[trigger] bits::mem(v, s) <==> bits::mem(
        u,
        eval::flipped(s),
    )) by {
        lemma_flip_sets(p, q, s);
    }
    lemma_card_flip(u, v);
    bits::lemma_card_one(u);
    bits::lemma_card_one(v);
}

/// The sums of one side are those of the other side on the turned board.
proof fn lemma_flip_side(p: Position, q: Position, c: int)
    requires
        mirrors(p, q),
        0 <= c < 2,
    ensures
        q.mg_side(c) == p.mg_side(1 - c),
        q.eg_side(c) == p.eg_side(1 - c),
{
    reveal(Position::mg_side);
    reveal(Position::eg_side);
    let d = 1 - c;
    let (a, b) = (p.cells(), q.cells());
    lemma_flip_kings(p, q);
    lemma_flip(p.king(d));
    lemma_flip_sets(p, q, 0);
    let (f1, g1) = (|s: int| eval::mg_term(a, s), |s: int| eval::mg_term(b, s));
    let (f2, g2) = (|s: int| eval::eg_term(a, s), |s: int| eval::eg_term(b, s));
    assert forall|s: int| geom::is_sq(s) && pos::is_piece(b[s]) implies #[trigger] g1(s) == f1(
        eval::flipped(s),
    ) by {
        lemma_flip_terms(a, b, s, 0);
    }
    assert forall|s: int| geom::is_sq(s) && pos::is_piece(b[s]) implies #[trigger] g2(s) == f2(
        eval::flipped(s),
    ) by {
        lemma_flip_terms(a, b, s, 0);
    }
    lemma_flip_sum(p, q, c, f1, g1);
    lemma_flip_sum(p, q, c, f2, g2);
    lemma_flip_shelter(a, b, c, q.king(c));
    lemma_flip_attack(p, q, c);
    lemma_flip_pair(p, q, c);
}

proof fn lemma_flip_counts(p: Position, q: Position, c: int)
    requires
        mirrors(p, q),
        0 <= c < 2,
    ensures
        q.phase_side(c) == p.phase_side(1 - c),
        q.material(c) == p.material(1 - c),
{
    reveal(Position::phase_side);
    reveal(Position::material);
    let (a, b) = (p.cells(), q.cells());
    let (f3, g3) = (
        |s: int| eval::PHASE_W@[a[s] % 6] as int,
        |s: int| eval::PHASE_W@[b[s] % 6] as int,
    );
    let (f6, g6) = (
        |s: int|
            if eval::is_officer(a[s]) {
                eval::EG_VAL@[a[s] % 6] as int
            } else {
                0
            },
        |s: int|
            if eval::is_officer(b[s]) {
                eval::EG_VAL@[b[s] % 6] as int
            } else {
                0
            },
    );
    assert forall|s: int| geom::is_sq(s) && pos::is_piece(b[s]) implies b[s] % 6 == #[trigger] a[eval::flipped(
        s,
    )] % 6 by {
        lemma_flip_sets(p, q, s);
        lemma_flip(s);
        assert(b[s] == swap(a[eval::flipped(s)]));
    }
    assert forall|s: int| geom::is_sq(s) && pos::is_piece(b[s]) implies #[trigger] g3(s) == f3(
        eval::flipped(s),
    ) by {
        assert(b[s] % 6 == a[eval::flipped(s)] % 6);
    }
    assert forall|s: int| geom::is_sq(s) && pos::is_piece(b[s]) implies #[trigger] g6(s) == f6(
        eval::flipped(s),
    ) by {
        assert(b[s] % 6 == a[eval::flipped(s)] % 6);
    }
    lemma_flip_sum(p, q, c, f3, g3);
    lemma_flip_sum(p, q, c, f6, g6);
}

pub proof fn lemma_flip_bare(p: Position, q: Position)
    requires
        mirrors(p, q),
    ensures
        q.bare() == p.bare(),
{
    let (h1, h2) = (
        p.piece@[0] | p.piece@[3] | p.piece@[4],
        q.piece@[0] | q.piece@[3] | q.piece@[4],
    );
    let (m1, m2) = (p.piece@[1] | p.piece@[2], q.piece@[1] | q.piece@[2]);
    assert forall|s: int| geom::is_sq(s) implies (#[trigger] bits::mem(h2, s) <==> bits::mem(
        h1,
        eval::flipped(s),
    )) by {
        lemma_flip_sets(p, q, s);
        assert(bits::mem(q.piece@[0], s) == bits::mem(p.piece@[0], eval::flipped(s)));
        assert(bits::mem(q.piece@[3], s) == bits::mem(p.piece@[3], eval::flipped(s)));
        assert(bits::mem(q.piece@[4], s) == bits::mem(p.piece@[4], eval::flipped(s)));
    }
    lemma_card_flip(h1, h2);
    bits::lemma_card_one(h1);
    bits::lemma_card_one(h2);
    assert forall|s: int| geom::is_sq(s) implies (#[trigger] bits::mem(m2, s) <==> bits::mem(
        m1,
        eval::flipped(s),
    )) by {
        lemma_flip_sets(p, q, s);
        assert(bits::mem(q.piece@[1], s) == bits::mem(p.piece@[1], eval::flipped(s)));
        assert(bits::mem(q.piece@[2], s) == bits::mem(p.piece@[2], eval::flipped(s)));
    }
    lemma_card_flip(m1, m2);
}

/// The evaluation does not care which colour is which: a position and the same
/// position with the sides exchanged are worth the same to the side to move.
pub proof fn law_evaluation_is_colour_symmetric(p: Position, q: Position)
    requires
        mirrors(p, q),
    ensures
        q.worth() == p.worth(),
{
    lemma_flip_side(p, q, 0);
    lemma_flip_side(p, q, 1);
    lemma_flip_counts(p, q, 0);
    lemma_flip_counts(p, q, 1);
    lemma_flip_pair(p, q, 0);
    lemma_flip_pair(p, q, 1);
    lemma_flip_bare(p, q);
    assert(q.tapered() == -p.tapered()) by {
        reveal(Position::tapered);
        let phase = eval::min(p.phase_side(0) + p.phase_side(1), 24);
        let (mg, eg) = (p.mg_side(0) - p.mg_side(1), p.eg_side(0) - p.eg_side(1));
        assert((-mg) * phase + (-eg) * (24 - phase) == -(mg * phase + eg * (24 - phase)))
            by (nonlinear_arith);
    }
}

} // verus!
