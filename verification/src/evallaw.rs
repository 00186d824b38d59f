//! What the evaluation promises: material counts in every phase, and each term
//! pulls the way it should.

use vstd::prelude::*;
use crate::bits;
use crate::eval;
use crate::geom;
use crate::pos;
use crate::pos::Position;

verus! {

broadcast use {crate::bits::group_mem, crate::geom::group_geom};

// ---------------------------------------------------------------------------
// Sums over the board
// ---------------------------------------------------------------------------

/// The sum of `f` over the squares from `n` on that hold a piece of colour `c`.
pub open spec fn board_sum(cells: Seq<int>, c: int, f: spec_fn(int) -> int, n: int) -> int
    decreases 64 - n,
{
    if n >= 64 {
        0
    } else {
        (if pos::owned(cells[n], c) {
            f(n)
        } else {
            0
        }) + board_sum(cells, c, f, n + 1)
    }
}

/// How many of the squares from `n` on hold the piece `code`.
pub open spec fn men_from(cells: Seq<int>, code: int, n: int) -> int
    decreases 64 - n,
{
    if n >= 64 {
        0
    } else {
        (if cells[n] == code {
            1int
        } else {
            0
        }) + men_from(cells, code, n + 1)
    }
}

/// How many pieces of type `pt` colour `c` has.
pub open spec fn men(p: Position, c: int, pt: int) -> int {
    men_from(p.cells(), c * 6 + pt, 0)
}

/// The pieces of colour `c`, each type at its own price.
pub open spec fn priced(
    p: Position,
    c: int,
    pawn: int,
    knight: int,
    bishop: int,
    rook: int,
    queen: int,
    king: int,
) -> int {
    pawn * men(p, c, 0) + knight * men(p, c, 1) + bishop * men(p, c, 2) + rook * men(p, c, 3)
        + queen * men(p, c, 4) + king * men(p, c, 5)
}

proof fn lemma_sum_over(b: u64, cells: Seq<int>, c: int, f: spec_fn(int) -> int, n: int)
    requires
        0 <= n <= 64,
        forall|s: int| n <= s < 64 ==> (#[trigger] bits::mem(b, s) <==> pos::owned(cells[s], c)),
        forall|s: int| #[trigger] bits::mem(b, s) ==> s >= n,
    ensures
        eval::sum_over(b, f) == board_sum(cells, c, f, n),
    decreases 64 - n,
{
    bits::lemma_empty(b);
    if n == 64 {
        if b != 0 {
            bits::lemma_low(b);
            assert(bits::mem(b, bits::low(b)));
        }
    } else if bits::mem(b, n) {
        bits::lemma_low(b);
        bits::lemma_rest(b);
        assert(bits::low(b) == n);
        assert forall|s: int| n + 1 <= s < 64 implies (#[trigger] bits::mem(bits::rest(b), s)
            <==> pos::owned(cells[s], c)) by {
            assert(bits::mem(b, s) <==> pos::owned(cells[s], c));
        }
        lemma_sum_over(bits::rest(b), cells, c, f, n + 1);
    } else {
        lemma_sum_over(b, cells, c, f, n + 1);
    }
}

proof fn lemma_side_sum(p: Position, c: int, f: spec_fn(int) -> int)
    requires
        p.board_ok(),
        0 <= c < 2,
    ensures
        eval::sum_over(p.color@[c], f) == board_sum(p.cells(), c, f, 0),
{
    assert forall|s: int| 0 <= s < 64 implies (#[trigger] bits::mem(p.color@[c], s) <==> pos::owned(
        p.cells()[s],
        c,
    )) by {
        pos::lemma_cells(p, s);
    }
    lemma_sum_over(p.color@[c], p.cells(), c, f, 0);
}

proof fn lemma_one_more(v: int, m: int)
    ensures
        v * (1 + m) == v + v * m,
        v * (0 + m) == v * m,
{
    assert(v * (1 + m) == v + v * m) by (nonlinear_arith);
}

/// The price of a piece by its type.
pub open spec fn price(
    pt: int,
    pawn: int,
    knight: int,
    bishop: int,
    rook: int,
    queen: int,
    king: int,
) -> int {
    if pt == 0 {
        pawn
    } else if pt == 1 {
        knight
    } else if pt == 2 {
        bishop
    } else if pt == 3 {
        rook
    } else if pt == 4 {
        queen
    } else {
        king
    }
}

spec fn priced_from(
    cells: Seq<int>,
    c: int,
    n: int,
    pawn: int,
    knight: int,
    bishop: int,
    rook: int,
    queen: int,
    king: int,
) -> int {
    pawn * men_from(cells, c * 6, n) + knight * men_from(cells, c * 6 + 1, n) + bishop * men_from(
        cells,
        c * 6 + 2,
        n,
    ) + rook * men_from(cells, c * 6 + 3, n) + queen * men_from(cells, c * 6 + 4, n) + king
        * men_from(cells, c * 6 + 5, n)
}

proof fn lemma_priced_step(
    cells: Seq<int>,
    c: int,
    n: int,
    pawn: int,
    knight: int,
    bishop: int,
    rook: int,
    queen: int,
    king: int,
)
    requires
        0 <= n < 64,
        0 <= c < 2,
    ensures
        priced_from(cells, c, n, pawn, knight, bishop, rook, queen, king) == (if pos::owned(
            cells[n],
            c,
        ) {
            price(cells[n] % 6, pawn, knight, bishop, rook, queen, king)
        } else {
            0
        }) + priced_from(cells, c, n + 1, pawn, knight, bishop, rook, queen, king),
{
    lemma_one_more(pawn, men_from(cells, c * 6, n + 1));
    lemma_one_more(knight, men_from(cells, c * 6 + 1, n + 1));
    lemma_one_more(bishop, men_from(cells, c * 6 + 2, n + 1));
    lemma_one_more(rook, men_from(cells, c * 6 + 3, n + 1));
    lemma_one_more(queen, men_from(cells, c * 6 + 4, n + 1));
    lemma_one_more(king, men_from(cells, c * 6 + 5, n + 1));
}

/// Where every piece is worth at least its price, so is the side.
proof fn lemma_at_least(
    cells: Seq<int>,
    c: int,
    f: spec_fn(int) -> int,
    n: int,
    pawn: int,
    knight: int,
    bishop: int,
    rook: int,
    queen: int,
    king: int,
)
    requires
        0 <= n <= 64,
        0 <= c < 2,
        forall|s: int|
            0 <= s < 64 && pos::owned(cells[s], c) ==> #[trigger] f(s) >= price(
                cells[s] % 6,
                pawn,
                knight,
                bishop,
                rook,
                queen,
                king,
            ),
    ensures
        board_sum(cells, c, f, n) >= priced_from(
            cells,
            c,
            n,
            pawn,
            knight,
            bishop,
            rook,
            queen,
            king,
        ),
    decreases 64 - n,
{
    if n < 64 {
        lemma_at_least(cells, c, f, n + 1, pawn, knight, bishop, rook, queen, king);
        lemma_priced_step(cells, c, n, pawn, knight, bishop, rook, queen, king);
        assert(pos::owned(cells[n], c) ==> f(n) >= price(
            cells[n] % 6,
            pawn,
            knight,
            bishop,
            rook,
            queen,
            king,
        ));
    }
}

/// Where every piece is worth at most its price, so is the side.
proof fn lemma_at_most(
    cells: Seq<int>,
    c: int,
    f: spec_fn(int) -> int,
    n: int,
    pawn: int,
    knight: int,
    bishop: int,
    rook: int,
    queen: int,
    king: int,
)
    requires
        0 <= n <= 64,
        0 <= c < 2,
        forall|s: int|
            0 <= s < 64 && pos::owned(cells[s], c) ==> #[trigger] f(s) <= price(
                cells[s] % 6,
                pawn,
                knight,
                bishop,
                rook,
                queen,
                king,
            ),
    ensures
        board_sum(cells, c, f, n) <= priced_from(
            cells,
            c,
            n,
            pawn,
            knight,
            bishop,
            rook,
            queen,
            king,
        ),
    decreases 64 - n,
{
    if n < 64 {
        lemma_at_most(cells, c, f, n + 1, pawn, knight, bishop, rook, queen, king);
        lemma_priced_step(cells, c, n, pawn, knight, bishop, rook, queen, king);
        assert(pos::owned(cells[n], c) ==> f(n) <= price(
            cells[n] % 6,
            pawn,
            knight,
            bishop,
            rook,
            queen,
            king,
        ));
    }
}

// ---------------------------------------------------------------------------
// One piece
// ---------------------------------------------------------------------------

proof fn lemma_mg_places(i: int)
    requires
        0 <= i < 64,
    ensures
        -35 <= eval::MG_PST@[0]@[i] <= 134,
        -167 <= eval::MG_PST@[1]@[i] <= 129,
        -82 <= eval::MG_PST@[2]@[i] <= 59,
{
}

proof fn lemma_mg_places_too(i: int)
    requires
        0 <= i < 64,
    ensures
        -71 <= eval::MG_PST@[3]@[i] <= 80,
        -50 <= eval::MG_PST@[4]@[i] <= 59,
        -65 <= eval::MG_PST@[5]@[i] <= 36,
{
}

proof fn lemma_eg_places(i: int)
    requires
        0 <= i < 64,
    ensures
        -8 <= eval::EG_PST@[0]@[i] <= 187,
        -99 <= eval::EG_PST@[1]@[i] <= 25,
        -27 <= eval::EG_PST@[2]@[i] <= 19,
{
}

proof fn lemma_eg_places_too(i: int)
    requires
        0 <= i < 64,
    ensures
        -20 <= eval::EG_PST@[3]@[i] <= 18,
        -43 <= eval::EG_PST@[4]@[i] <= 58,
        -74 <= eval::EG_PST@[5]@[i] <= 45,
{
}

/// How many squares an officer can attack at most.
pub open spec fn reach(pt: int) -> int {
    if pt == 1 {
        8
    } else if pt == 2 {
        13
    } else if pt == 3 {
        14
    } else {
        27
    }
}

proof fn lemma_mobility(cells: Seq<int>, s: int)
    requires
        geom::is_sq(s),
        pos::is_piece(cells[s]),
        eval::is_officer(cells[s]),
    ensures
        0 <= eval::mobility(cells, s) <= reach(cells[s] % 6),
{
    reveal(eval::mobility);
    let (code, occ) = (cells[s], pos::occ_of(cells));
    let f = |t: int|
        pos::hits(code, s, t, occ) && !pos::owned(cells[t], code / 6) && !eval::pawn_guards(
            cells,
            1 - code / 6,
            t,
        );
    let b = geom::set_of(f);
    assert forall|t: int| #[trigger] bits::mem(b, t) implies pos::hits(code, s, t, occ) by {
        geom::lemma_set_of(f, t);
    }
    eval::lemma_reach(b, code, s, occ);
    if code % 6 == 1 {
        eval::lemma_knight_reach(b, s);
    } else if code % 6 == 2 {
        eval::lemma_bishop_reach(b, s);
    } else if code % 6 == 3 {
        eval::lemma_rook_reach(b, s);
    }
}

proof fn lemma_mob_tables(i: int)
    ensures
        0 <= i <= 8 ==> -25 <= eval::MOB_MG@[0]@[i] <= 23 && -32 <= eval::MOB_EG@[0]@[i] <= 25,
        0 <= i <= 13 ==> -30 <= eval::MOB_MG@[1]@[i] <= 29 && -40 <= eval::MOB_EG@[1]@[i] <= 37,
        0 <= i <= 14 ==> -24 <= eval::MOB_MG@[2]@[i] <= 23 && -36 <= eval::MOB_EG@[2]@[i] <= 50,
        0 <= i <= 27 ==> -15 <= eval::MOB_MG@[3]@[i] <= 28 && -20 <= eval::MOB_EG@[3]@[i] <= 66,
{
}

proof fn lemma_passed_tables(i: int)
    requires
        0 <= i < 8,
    ensures
        0 <= eval::PASSED_MG@[i] <= 96,
        0 <= eval::PASSED_EG@[i] <= 150,
{
}

/// Whatever its place, in the middlegame a queen is worth more than a rook, a
/// rook more than a pawn, and every piece lies within its own range.
pub proof fn law_a_piece_is_worth_its_kind(cells: Seq<int>, s: int)
    requires
        geom::is_sq(s),
        pos::is_piece(cells[s]),
    ensures
        price(cells[s] % 6, 27, 145, 253, 382, 960, -65) <= eval::mg_term(cells, s) <= price(
            cells[s] % 6,
            312,
            489,
            453,
            606,
            1112,
            36,
        ),
        price(cells[s] % 6, 50, 150, 230, 456, 873, -74) <= eval::eg_term(cells, s) <= price(
            cells[s] % 6,
            431,
            331,
            353,
            592,
            1060,
            45,
        ),
{
    reveal(eval::mg_term);
    reveal(eval::eg_term);
    let r = eval::rel(cells[s] / 6, s);
    assert(0 <= r < 64);
    lemma_mg_places(r);
    lemma_mg_places_too(r);
    lemma_eg_places(r);
    lemma_eg_places_too(r);
    lemma_passed_tables(geom::rk(r));
    if eval::is_officer(cells[s]) {
        lemma_mobility(cells, s);
        lemma_mob_tables(eval::mobility(cells, s));
    }
}

// ---------------------------------------------------------------------------
// One term
// ---------------------------------------------------------------------------

/// An officer and another of its kind on the same square, as their own sides see
/// it.
pub open spec fn alike(a: Seq<int>, s: int, b: Seq<int>, t: int) -> bool {
    &&& geom::is_sq(s)
    &&& geom::is_sq(t)
    &&& pos::is_piece(a[s])
    &&& pos::is_piece(b[t])
    &&& a[s] % 6 == b[t] % 6
    &&& eval::rel(a[s] / 6, s) == eval::rel(b[t] / 6, t)
}

proof fn lemma_mob_rises(i: int, j: int)
    requires
        0 <= i < j,
    ensures
        j <= 8 ==> eval::MOB_MG@[0]@[i] < eval::MOB_MG@[0]@[j] && eval::MOB_EG@[0]@[i]
            < eval::MOB_EG@[0]@[j],
        j <= 13 ==> eval::MOB_MG@[1]@[i] < eval::MOB_MG@[1]@[j] && eval::MOB_EG@[1]@[i]
            < eval::MOB_EG@[1]@[j],
    decreases j - i,
{
    if i + 1 < j {
        lemma_mob_rises(i + 1, j);
    }
}

proof fn lemma_mob_rises_too(i: int, j: int)
    requires
        0 <= i < j,
    ensures
        j <= 14 ==> eval::MOB_MG@[2]@[i] < eval::MOB_MG@[2]@[j] && eval::MOB_EG@[2]@[i]
            < eval::MOB_EG@[2]@[j],
        j <= 27 ==> eval::MOB_MG@[3]@[i] < eval::MOB_MG@[3]@[j] && eval::MOB_EG@[3]@[i]
            < eval::MOB_EG@[3]@[j],
    decreases j - i,
{
    if i + 1 < j {
        lemma_mob_rises_too(i + 1, j);
    }
}

/// Of two officers that are otherwise alike, the one with more squares to go to
/// is worth more, in the middlegame and in the endgame.
pub proof fn law_mobility_is_rewarded(a: Seq<int>, s: int, b: Seq<int>, t: int)
    requires
        alike(a, s, b, t),
        eval::is_officer(a[s]),
        eval::rook_file(a, s) == eval::rook_file(b, t),
        eval::mobility(a, s) < eval::mobility(b, t),
    ensures
        eval::mg_term(a, s) < eval::mg_term(b, t),
        eval::eg_term(a, s) < eval::eg_term(b, t),
{
    reveal(eval::mg_term);
    reveal(eval::eg_term);
    lemma_mobility(a, s);
    lemma_mobility(b, t);
    lemma_mob_rises(eval::mobility(a, s), eval::mobility(b, t));
    lemma_mob_rises_too(eval::mobility(a, s), eval::mobility(b, t));
}

/// Of two rooks that are otherwise alike, one on an open file is worth more than
/// one on a half open file, and that more than one behind a pawn of its own.
pub proof fn law_rooks_belong_on_open_files(a: Seq<int>, s: int, b: Seq<int>, t: int)
    requires
        alike(a, s, b, t),
        a[s] % 6 == 3,
        eval::mobility(a, s) == eval::mobility(b, t),
        eval::rook_file(a, s) < eval::rook_file(b, t),
    ensures
        eval::mg_term(a, s) - eval::mg_term(b, t) == if eval::rook_file(a, s) == 1 {
            12int
        } else if eval::rook_file(b, t) == 1 {
            14
        } else {
            26
        },
        eval::eg_term(a, s) - eval::eg_term(b, t) == if eval::rook_file(a, s) == 1
            || eval::rook_file(b, t) == 1 {
            6int
        } else {
            12
        },
{
    reveal(eval::mg_term);
    reveal(eval::eg_term);
    reveal(eval::rook_file);
}

/// Of two pawns that are otherwise alike, an isolated one is worth less than one
/// with a neighbour, a doubled one less than a single one, and a passed one more
/// than one that can be stopped.
pub proof fn law_pawn_structure_counts(a: Seq<int>, s: int, b: Seq<int>, t: int)
    requires
        alike(a, s, b, t),
        a[s] % 6 == 0,
    ensures
        eval::isolated(a, s) && !eval::isolated(b, t) && eval::doubled(a, s) == eval::doubled(b, t)
            && eval::passed(a, s) == eval::passed(b, t) ==> {
            &&& eval::mg_term(a, s) == eval::mg_term(b, t) - 12
            &&& eval::eg_term(a, s) == eval::eg_term(b, t) - 14
        },
        eval::isolated(a, s) == eval::isolated(b, t) && eval::doubled(a, s) && !eval::doubled(b, t)
            && eval::passed(a, s) == eval::passed(b, t) ==> {
            &&& eval::mg_term(a, s) == eval::mg_term(b, t) - 8
            &&& eval::eg_term(a, s) == eval::eg_term(b, t) - 22
        },
        eval::isolated(a, s) == eval::isolated(b, t) && eval::doubled(a, s) == eval::doubled(b, t)
            && eval::passed(a, s) && !eval::passed(b, t) && 0 < geom::rk(s) < 7 ==> {
            &&& eval::mg_term(a, s) > eval::mg_term(b, t)
            &&& eval::eg_term(a, s) > eval::eg_term(b, t)
        },
        eval::isolated(a, s) == eval::isolated(b, t) && eval::doubled(a, s) == eval::doubled(b, t)
            && eval::passed(a, s) == eval::passed(b, t) ==> {
            &&& eval::mg_term(a, s) == eval::mg_term(b, t)
            &&& eval::eg_term(a, s) == eval::eg_term(b, t)
        },
{
    reveal(eval::mg_term);
    reveal(eval::eg_term);
}

/// The nearer a passed pawn is to its last rank, the more it gains by being
/// passed: `a` and `b` are alike but for that, and so are `c` and `d`, farther
/// on.
pub proof fn law_passed_pawns_grow(
    a: Seq<int>,
    s: int,
    b: Seq<int>,
    t: int,
    c: Seq<int>,
    u: int,
    d: Seq<int>,
    v: int,
)
    requires
        alike(a, s, b, t),
        alike(c, u, d, v),
        a[s] % 6 == 0,
        c[u] % 6 == 0,
        eval::isolated(a, s) == eval::isolated(b, t),
        eval::doubled(a, s) == eval::doubled(b, t),
        eval::passed(a, s) && !eval::passed(b, t),
        eval::isolated(c, u) == eval::isolated(d, v),
        eval::doubled(c, u) == eval::doubled(d, v),
        eval::passed(c, u) && !eval::passed(d, v),
        0 < geom::rk(eval::rel(a[s] / 6, s)) < geom::rk(eval::rel(c[u] / 6, u)) < 7,
    ensures
        eval::mg_term(a, s) - eval::mg_term(b, t) < eval::mg_term(c, u) - eval::mg_term(d, v),
        eval::eg_term(a, s) - eval::eg_term(b, t) < eval::eg_term(c, u) - eval::eg_term(d, v),
{
    reveal(eval::mg_term);
    reveal(eval::eg_term);
}

proof fn lemma_counted(b: u64, f: spec_fn(int) -> bool)
    requires
        forall|t: int| geom::is_sq(t) ==> (#[trigger] bits::mem(b, t) <==> f(t)),
    ensures
        eval::count(f) == bits::card(b),
{
    let c = geom::set_of(f);
    assert forall|t: int| 0 <= t < 64 implies bits::mem(b, t) == bits::mem(c, t) by {
        geom::lemma_set_of(f, t);
    }
    bits::lemma_ext(b, c);
}

/// A pawn of colour `c` attacks `t`.
pub open spec fn guarded(cells: Seq<int>, c: int, t: int) -> bool {
    exists|q: int|
        #![trigger cells[q]]
        geom::is_sq(q) && cells[q] == c * 6 && geom::abs(q % 8 - t % 8) == 1 && t / 8 == q / 8 + if c
            == 0 {
            1int
        } else {
            -1
        }
}

/// Mobility is the number of squares that an officer attacks, less those of its
/// own side and those that enemy pawns attack.
pub proof fn law_mobility_is_safe_squares(cells: Seq<int>, s: int, b: u64)
    requires
        geom::is_sq(s),
        pos::is_piece(cells[s]),
        forall|t: int|
            geom::is_sq(t) ==> (#[trigger] bits::mem(b, t) <==> pos::hits(
                cells[s],
                s,
                t,
                pos::occ_of(cells),
            ) && !pos::owned(cells[t], cells[s] / 6) && !guarded(cells, 1 - cells[s] / 6, t)),
    ensures
        eval::mobility(cells, s) == bits::card(b),
{
    reveal(eval::mobility);
    let (code, occ) = (cells[s], pos::occ_of(cells));
    let f = |t: int|
        pos::hits(code, s, t, occ) && !pos::owned(cells[t], code / 6) && !eval::pawn_guards(
            cells,
            1 - code / 6,
            t,
        );
    assert forall|t: int| geom::is_sq(t) implies (#[trigger] bits::mem(b, t) <==> f(t)) by {
        let c = 1 - code / 6;
        if guarded(cells, c, t) {
            let q = choose|q: int|
                #![trigger cells[q]]
                geom::is_sq(q) && cells[q] == c * 6 && geom::abs(q % 8 - t % 8) == 1 && t / 8 == q
                    / 8 + if c == 0 {
                    1int
                } else {
                    -1
                };
            assert(cells[q] == c * 6 && geom::pawn_sees(c, q, t));
        }
        if eval::pawn_guards(cells, c, t) {
            let q = choose|q: int|
                geom::is_sq(q) && #[trigger] cells[q] == c * 6 && geom::pawn_sees(c, q, t);
            assert(cells[q] == c * 6);
        }
    }
    lemma_counted(b, f);
}

/// Pressure is the number of squares on and around a king that an officer
/// attacks; shelter is the number of pawns beside a king or a rank ahead of it,
/// with a square of the king's behind them.
pub proof fn law_pressure_and_shelter_are_counts(cells: Seq<int>, s: int, c: int, k: int, b: u64)
    requires
        geom::is_sq(k),
    ensures
        (forall|t: int|
            geom::is_sq(t) ==> (#[trigger] bits::mem(b, t) <==> pos::hits(
                cells[s],
                s,
                t,
                pos::occ_of(cells),
            ) && geom::dist(k, t) <= 1)) ==> eval::pressure(cells, s, k) == bits::card(b),
        (forall|t: int|
            geom::is_sq(t) ==> (#[trigger] bits::mem(b, t) <==> cells[t] == c * 6 && geom::dist(k, t)
                == 1 && {
                let u = if c == 0 {
                    t - 8
                } else {
                    t + 8
                };
                geom::is_sq(u) && geom::dist(k, u) <= 1
            })) ==> eval::shelter(cells, c, k) == bits::card(b),
{
    reveal(eval::pressure);
    reveal(eval::shelter);
    let (code, occ) = (cells[s], pos::occ_of(cells));
    let f = |t: int| pos::hits(code, s, t, occ) && eval::zone(k, t);
    let g = |t: int|
        cells[t] == c * 6 && geom::king_sees(k, t) && geom::is_sq(crate::rules::back(c, t))
            && eval::zone(k, crate::rules::back(c, t));
    if forall|t: int|
        geom::is_sq(t) ==> (#[trigger] bits::mem(b, t) <==> pos::hits(cells[s], s, t, occ)
            && geom::dist(k, t) <= 1) {
        assert forall|t: int| geom::is_sq(t) implies (#[trigger] bits::mem(b, t) <==> f(t)) by {
            assert(geom::dist(k, t) <= 1 <==> eval::zone(k, t));
        }
        lemma_counted(b, f);
    }
    if forall|t: int|
        geom::is_sq(t) ==> (#[trigger] bits::mem(b, t) <==> cells[t] == c * 6 && geom::dist(k, t)
            == 1 && {
            let u = if c == 0 {
                t - 8
            } else {
                t + 8
            };
            geom::is_sq(u) && geom::dist(k, u) <= 1
        }) {
        assert forall|t: int| geom::is_sq(t) implies (#[trigger] bits::mem(b, t) <==> g(t)) by {
            let u = crate::rules::back(c, t);
            assert(geom::is_sq(u) ==> (geom::dist(k, u) <= 1 <==> eval::zone(k, u)));
        }
        lemma_counted(b, g);
    }
}

/// One pawn tells: a friend on a neighbouring file ends isolation, another pawn
/// of its own on the file doubles it, and an enemy ahead on its own or a
/// neighbouring file stops it. Without any such pawn a pawn is isolated, single
/// and passed; and a rook's file is closed by a pawn of its own, half open with
/// one of the enemy's, and open without.
pub proof fn law_one_pawn_tells(cells: Seq<int>, s: int, q: int)
    requires
        geom::is_sq(s),
        geom::is_sq(q),
        s != q,
        pos::is_piece(cells[s]),
    ensures
        ({
            let c = cells[s] / 6;
            let files = geom::abs(q % 8 - s % 8);
            let before = if c == 0 {
                q / 8 > s / 8
            } else {
                q / 8 < s / 8
            };
            &&& cells[q] == c * 6 && files == 1 ==> !eval::isolated(cells, s)
            &&& cells[q] == cells[s] && files == 0 ==> eval::doubled(cells, s)
            &&& cells[q] == (1 - c) * 6 && files <= 1 && before ==> !eval::passed(cells, s)
            &&& cells[q] == c * 6 && files == 0 ==> eval::rook_file(cells, s) == 2
            &&& cells[q] == (1 - c) * 6 && files == 0 ==> eval::rook_file(cells, s) >= 1
            &&& (forall|x: int|
                geom::is_sq(x) && x != s && #[trigger] cells[x] == c * 6 ==> geom::abs(x % 8 - s % 8)
                    != 1) ==> eval::isolated(cells, s)
            &&& (forall|x: int|
                geom::is_sq(x) && x != s && #[trigger] cells[x] == cells[s] ==> x % 8 != s % 8)
                ==> !eval::doubled(cells, s)
            &&& (forall|x: int|
                geom::is_sq(x) && #[trigger] cells[x] == (1 - c) * 6 ==> geom::abs(x % 8 - s % 8) > 1
                    || (if c == 0 {
                    x / 8 <= s / 8
                } else {
                    x / 8 >= s / 8
                })) ==> eval::passed(cells, s)
            &&& cells[s] % 6 == 3 && (forall|x: int|
                geom::is_sq(x) && #[trigger] cells[x] % 6 == 0 && cells[x] < 12 ==> x % 8 != s % 8)
                ==> eval::rook_file(cells, s) == 0
        }),
{
    reveal(eval::isolated);
    reveal(eval::doubled);
    reveal(eval::passed);
    reveal(eval::rook_file);
    let c = cells[s] / 6;
    assert(cells[s] == cells[s] && cells[q] == cells[q]);
    assert(c == 0 || c == 1);
    if eval::pawn_on(cells, c, geom::fl(s) - 1) {
        let x = choose|x: int|
            geom::is_sq(x) && #[trigger] cells[x] == c * 6 && geom::fl(x) == geom::fl(s) - 1;
        assert(cells[x] == c * 6);
    }
    if eval::pawn_on(cells, c, geom::fl(s) + 1) {
        let x = choose|x: int|
            geom::is_sq(x) && #[trigger] cells[x] == c * 6 && geom::fl(x) == geom::fl(s) + 1;
        assert(cells[x] == c * 6);
    }
}

// ---------------------------------------------------------------------------
// One side
// ---------------------------------------------------------------------------

proof fn lemma_card_is_men(b: u64, cells: Seq<int>, code: int, n: int)
    requires
        0 <= n <= 64,
        forall|s: int| n <= s < 64 ==> (#[trigger] bits::mem(b, s) <==> cells[s] == code),
        forall|s: int| #[trigger] bits::mem(b, s) ==> s >= n,
    ensures
        bits::card(b) == men_from(cells, code, n),
    decreases 64 - n,
{
    bits::lemma_empty(b);
    if n == 64 {
        if b != 0 {
            bits::lemma_low(b);
            assert(bits::mem(b, bits::low(b)));
        }
    } else if bits::mem(b, n) {
        bits::lemma_low(b);
        bits::lemma_rest(b);
        assert(bits::low(b) == n);
        assert forall|s: int| n + 1 <= s < 64 implies (#[trigger] bits::mem(bits::rest(b), s)
            <==> cells[s] == code) by {
            assert(bits::mem(b, s) <==> cells[s] == code);
        }
        lemma_card_is_men(bits::rest(b), cells, code, n + 1);
    } else {
        lemma_card_is_men(b, cells, code, n + 1);
    }
}

proof fn lemma_pair(p: Position, c: int)
    ensures
        p.has_pair(c) <==> men(p, c, 2) >= 2,
{
    reveal(Position::has_pair);
    let f = |s: int| p.cells()[s] == c * 6 + 2;
    let b = geom::set_of(f);
    assert forall|s: int| 0 <= s < 64 implies (#[trigger] bits::mem(b, s) <==> p.cells()[s] == c * 6
        + 2) by {
        geom::lemma_set_of(f, s);
    }
    lemma_card_is_men(b, p.cells(), c * 6 + 2, 0);
}

proof fn lemma_zone(b: u64, k: int)
    requires
        geom::is_sq(k),
        forall|t: int| #[trigger] bits::mem(b, t) ==> eval::zone(k, t),
    ensures
        bits::card(b) <= 9,
{
    let q = seq![k, k + 1, k - 1, k + 7, k + 8, k + 9, k - 7, k - 8, k - 9];
    assert forall|t: int| #[trigger] bits::mem(b, t) implies q.contains(t) by {
        assert(eval::zone(k, t));
        assert(q[0] == k && q[1] == k + 1 && q[2] == k - 1 && q[3] == k + 7 && q[4] == k + 8 && q[5]
            == k + 9 && q[6] == k - 7 && q[7] == k - 8 && q[8] == k - 9);
        assert(t == k || t == k + 1 || t == k - 1 || t == k + 7 || t == k + 8 || t == k + 9 || t == k
            - 7 || t == k - 8 || t == k - 9);
    }
    bits::lemma_card_cover(b, q);
}

proof fn lemma_pressure(cells: Seq<int>, s: int, k: int)
    requires
        geom::is_sq(k),
    ensures
        0 <= eval::pressure(cells, s, k) <= 9,
{
    reveal(eval::pressure);
    let (code, occ) = (cells[s], pos::occ_of(cells));
    let f = |t: int| pos::hits(code, s, t, occ) && eval::zone(k, t);
    let b = geom::set_of(f);
    assert forall|t: int| #[trigger] bits::mem(b, t) implies eval::zone(k, t) by {
        geom::lemma_set_of(f, t);
    }
    lemma_zone(b, k);
}

proof fn lemma_shelter(cells: Seq<int>, c: int, k: int)
    requires
        geom::is_sq(k),
    ensures
        0 <= eval::shelter(cells, c, k) <= 9,
{
    reveal(eval::shelter);
    let f = |t: int|
        cells[t] == c * 6 && geom::king_sees(k, t) && geom::is_sq(crate::rules::back(c, t))
            && eval::zone(k, crate::rules::back(c, t));
    let b = geom::set_of(f);
    assert forall|t: int| #[trigger] bits::mem(b, t) implies eval::zone(k, t) by {
        geom::lemma_set_of(f, t);
    }
    lemma_zone(b, k);
}

/// How many officers of colour `c` bear on the enemy king.
pub open spec fn attackers(p: Position, c: int) -> int {
    let (cells, k) = (p.cells(), p.king(1 - c));
    board_sum(
        cells,
        c,
        |s: int|
            if 1 <= cells[s] % 6 <= 4 && eval::pressure(cells, s, k) >= 1 {
                1int
            } else {
                0
            },
        0,
    )
}

/// How heavily: every square of the king's that a knight or bishop attacks
/// counts 20, a rook's 40 and a queen's 80.
pub open spec fn danger(p: Position, c: int) -> int {
    let (cells, k) = (p.cells(), p.king(1 - c));
    board_sum(
        cells,
        c,
        |s: int| price(cells[s] % 6, 0, 20, 20, 40, 80, 0) * eval::pressure(cells, s, k),
        0,
    )
}

proof fn lemma_board_sum_same(
    cells: Seq<int>,
    c: int,
    f: spec_fn(int) -> int,
    g: spec_fn(int) -> int,
    n: int,
)
    requires
        0 <= n <= 64,
        forall|s: int|
            0 <= s < 64 && pos::owned(cells[s], c) ==> #[trigger] f(s) == #[trigger] g(s),
    ensures
        board_sum(cells, c, f, n) == board_sum(cells, c, g, n),
    decreases 64 - n,
{
    if n < 64 {
        lemma_board_sum_same(cells, c, f, g, n + 1);
        assert(pos::owned(cells[n], c) ==> f(n) == g(n));
    }
}

/// A lone attacker is noise. Two or more count together, up to six of them: the
/// danger, as many times as there are attackers, in sixteenths and rounded down.
pub proof fn law_an_attack_takes_two(p: Position, c: int)
    requires
        p.board_ok(),
        0 <= c < 2,
    ensures
        attackers(p, c) < 2 ==> p.attack(c) == 0,
        2 <= attackers(p, c) <= 6 ==> 16 * p.attack(c) <= danger(p, c) * attackers(p, c) < 16
            * p.attack(c) + 16,
        attackers(p, c) > 6 ==> 16 * p.attack(c) <= danger(p, c) * 6 < 16 * p.attack(c) + 16,
{
    reveal(Position::attack);
    let (cells, k) = (p.cells(), p.king(1 - c));
    let f = |s: int| eval::attacker_term(cells, s, k);
    let g = |s: int| eval::danger_term(cells, s, k);
    let x = |s: int|
        if 1 <= cells[s] % 6 <= 4 && eval::pressure(cells, s, k) >= 1 {
            1int
        } else {
            0
        };
    let y = |s: int| price(cells[s] % 6, 0, 20, 20, 40, 80, 0) * eval::pressure(cells, s, k);
    lemma_side_sum(p, c, f);
    lemma_side_sum(p, c, g);
    assert forall|s: int| 0 <= s < 64 && pos::owned(cells[s], c) implies #[trigger] g(s)
        == #[trigger] y(s) by {
        assert(0 * eval::pressure(cells, s, k) == 0);
    }
    lemma_board_sum_same(cells, c, f, x, 0);
    lemma_board_sum_same(cells, c, g, y, 0);
}

/// No side is threatened by its own attack, and the more officers it has the
/// harder it can press.
pub proof fn law_attacks_are_bounded(p: Position, c: int)
    requires
        p.sound(),
        0 <= c < 2,
    ensures
        0 <= p.attack(c) <= priced(p, c, 0, 68, 68, 135, 270, 0),
{
    let (cells, k) = (p.cells(), p.king(1 - c));
    assert(geom::is_sq(k));
    let y = |s: int| price(cells[s] % 6, 0, 20, 20, 40, 80, 0) * eval::pressure(cells, s, k);
    assert forall|s: int| 0 <= s < 64 && pos::owned(cells[s], c) implies 0 <= #[trigger] y(s)
        <= price(cells[s] % 6, 0, 180, 180, 360, 720, 0) by {
        lemma_pressure(cells, s, k);
        assert(0 * eval::pressure(cells, s, k) == 0);
    }
    lemma_at_least(cells, c, y, 0, 0, 0, 0, 0, 0, 0);
    lemma_at_most(cells, c, y, 0, 0, 180, 180, 360, 720, 0);
    law_an_attack_takes_two(p, c);
    let (d, n) = (danger(p, c), attackers(p, c));
    assert(d >= 0);
    if 2 <= n <= 6 {
        assert(0 <= d * n <= d * 6) by (nonlinear_arith)
            requires
                d >= 0,
                2 <= n <= 6,
        ;
    }
    lemma_men(cells, c * 6 + 1, 0);
    lemma_men(cells, c * 6 + 2, 0);
    lemma_men(cells, c * 6 + 3, 0);
    lemma_men(cells, c * 6 + 4, 0);
}

proof fn lemma_men(cells: Seq<int>, code: int, n: int)
    requires
        0 <= n <= 64,
    ensures
        0 <= men_from(cells, code, n) <= 64 - n,
    decreases 64 - n,
{
    if n < 64 {
        lemma_men(cells, code, n + 1);
    }
}

/// The score of a side is the worth of its pieces, and what they do together: a
/// pair of bishops, the attack on the enemy king and the pawns around its own.
pub proof fn law_a_side_is_the_sum_of_its_pieces(p: Position, c: int)
    requires
        p.board_ok(),
        0 <= c < 2,
    ensures
        p.mg_side(c) == board_sum(p.cells(), c, |s: int| eval::mg_term(p.cells(), s), 0) + (if men(
            p,
            c,
            2,
        ) >= 2 {
            24int
        } else {
            0
        }) + p.attack(c) + 6 * eval::shelter(p.cells(), c, p.king(c)),
        p.eg_side(c) == board_sum(p.cells(), c, |s: int| eval::eg_term(p.cells(), s), 0) + (if men(
            p,
            c,
            2,
        ) >= 2 {
            48int
        } else {
            0
        }),
{
    reveal(Position::mg_side);
    reveal(Position::eg_side);
    let cells = p.cells();
    lemma_side_sum(p, c, |s: int| eval::mg_term(cells, s));
    lemma_side_sum(p, c, |s: int| eval::eg_term(cells, s));
    lemma_pair(p, c);
}

/// Material counts in the middlegame: every pawn, knight, bishop, rook and queen
/// raises the score of its side by what it is worth, up to what its place, the
/// king's safety and a pair of bishops make of it.
pub proof fn law_material_counts_in_the_middlegame(p: Position, c: int)
    requires
        p.sound(),
        0 <= c < 2,
    ensures
        p.mg_side(c) >= priced(p, c, 82, 337, 365, 477, 1025, 0) - priced(
            p,
            c,
            55,
            192,
            112,
            95,
            65,
            65,
        ),
        p.mg_side(c) <= priced(p, c, 82, 337, 365, 477, 1025, 0) + priced(
            p,
            c,
            230,
            220,
            156,
            264,
            357,
            36,
        ) + 78,
{
    let cells = p.cells();
    let f = |s: int| eval::mg_term(cells, s);
    law_a_side_is_the_sum_of_its_pieces(p, c);
    law_attacks_are_bounded(p, c);
    assert(geom::is_sq(p.king(c)));
    lemma_shelter(cells, c, p.king(c));
    assert forall|s: int| 0 <= s < 64 && pos::owned(cells[s], c) implies price(
        cells[s] % 6,
        27,
        145,
        253,
        382,
        960,
        -65,
    ) <= #[trigger] f(s) <= price(cells[s] % 6, 312, 489, 453, 606, 1112, 36) by {
        law_a_piece_is_worth_its_kind(cells, s);
    }
    lemma_at_least(cells, c, f, 0, 27, 145, 253, 382, 960, -65);
    lemma_at_most(cells, c, f, 0, 312, 489, 453, 606, 1112, 36);
}

/// Material counts in the endgame just so.
pub proof fn law_material_counts_in_the_endgame(p: Position, c: int)
    requires
        p.board_ok(),
        0 <= c < 2,
    ensures
        p.eg_side(c) >= priced(p, c, 94, 281, 297, 512, 936, 0) - priced(
            p,
            c,
            44,
            131,
            67,
            56,
            63,
            74,
        ),
        p.eg_side(c) <= priced(p, c, 94, 281, 297, 512, 936, 0) + priced(
            p,
            c,
            337,
            50,
            56,
            80,
            124,
            45,
        ) + 48,
{
    let cells = p.cells();
    let f = |s: int| eval::eg_term(cells, s);
    law_a_side_is_the_sum_of_its_pieces(p, c);
    assert forall|s: int| 0 <= s < 64 && pos::owned(cells[s], c) implies price(
        cells[s] % 6,
        50,
        150,
        230,
        456,
        873,
        -74,
    ) <= #[trigger] f(s) <= price(cells[s] % 6, 431, 331, 353, 592, 1060, 45) by {
        law_a_piece_is_worth_its_kind(cells, s);
    }
    lemma_at_least(cells, c, f, 0, 50, 150, 230, 456, 873, -74);
    lemma_at_most(cells, c, f, 0, 431, 331, 353, 592, 1060, 45);
}

/// The phase counts a knight or bishop once, a rook twice and a queen four
/// times; material counts them at their endgame values.
pub proof fn law_officers_make_the_phase(p: Position, c: int)
    requires
        p.board_ok(),
        0 <= c < 2,
    ensures
        p.phase_side(c) == priced(p, c, 0, 1, 1, 2, 4, 0),
        p.material(c) == priced(p, c, 0, 281, 297, 512, 936, 0),
{
    reveal(Position::phase_side);
    reveal(Position::material);
    let cells = p.cells();
    let f = |s: int| eval::PHASE_W@[cells[s] % 6] as int;
    let g = |s: int|
        if eval::is_officer(cells[s]) {
            eval::EG_VAL@[cells[s] % 6] as int
        } else {
            0
        };
    lemma_side_sum(p, c, f);
    lemma_side_sum(p, c, g);
    lemma_at_least(cells, c, f, 0, 0, 1, 1, 2, 4, 0);
    lemma_at_most(cells, c, f, 0, 0, 1, 1, 2, 4, 0);
    lemma_at_least(cells, c, g, 0, 0, 281, 297, 512, 936, 0);
    lemma_at_most(cells, c, g, 0, 0, 281, 297, 512, 936, 0);
}

// ---------------------------------------------------------------------------
// Both sides
// ---------------------------------------------------------------------------

/// White's lead in the middlegame and in the endgame.
pub open spec fn mg_lead(p: Position) -> int {
    p.mg_side(0) - p.mg_side(1)
}

pub open spec fn eg_lead(p: Position) -> int {
    p.eg_side(0) - p.eg_side(1)
}

pub open spec fn phase(p: Position) -> int {
    p.phase_side(0) + p.phase_side(1)
}

/// A full board is scored as a middlegame, a board without officers as an
/// endgame, and what lies between lies between.
pub proof fn law_the_score_tapers(p: Position)
    requires
        p.board_ok(),
    ensures
        phase(p) >= 24 ==> p.tapered() == mg_lead(p),
        phase(p) == 0 ==> p.tapered() == eg_lead(p),
        mg_lead(p) <= p.tapered() <= eg_lead(p) || eg_lead(p) <= p.tapered() <= mg_lead(p),
{
    reveal(Position::tapered);
    law_officers_make_the_phase(p, 0);
    law_officers_make_the_phase(p, 1);
    lemma_men(p.cells(), 1, 0);
    lemma_men(p.cells(), 2, 0);
    lemma_men(p.cells(), 3, 0);
    lemma_men(p.cells(), 4, 0);
    lemma_men(p.cells(), 7, 0);
    lemma_men(p.cells(), 8, 0);
    lemma_men(p.cells(), 9, 0);
    lemma_men(p.cells(), 10, 0);
    let (d, e, t) = (mg_lead(p), eg_lead(p), eval::min(phase(p), 24));
    assert(0 <= t <= 24);
    let x = d * t + e * (24 - t);
    assert(24 * d <= x <= 24 * e || 24 * e <= x <= 24 * d) by (nonlinear_arith)
        requires
            0 <= t <= 24,
            x == d * t + e * (24 - t),
    ;
    assert(t == 24 ==> x == 24 * d) by (nonlinear_arith)
        requires
            x == d * t + e * (24 - t),
    ;
    assert(t == 0 ==> x == 24 * e) by (nonlinear_arith)
        requires
            x == d * t + e * (24 - t),
    ;
}

/// With the same leads, more officers on the board bring the score nearer to the
/// middlegame.
pub proof fn law_officers_pull_toward_the_middlegame(p: Position, q: Position)
    requires
        mg_lead(p) == mg_lead(q),
        eg_lead(p) == eg_lead(q),
        phase(p) <= phase(q),
    ensures
        mg_lead(p) >= eg_lead(p) ==> p.tapered() <= q.tapered(),
        mg_lead(p) <= eg_lead(p) ==> p.tapered() >= q.tapered(),
{
    reveal(Position::tapered);
    let (d, e) = (mg_lead(p), eg_lead(p));
    let (s, t) = (eval::min(phase(p), 24), eval::min(phase(q), 24));
    let (x, y) = (d * s + e * (24 - s), d * t + e * (24 - t));
    assert(d >= e ==> x <= y) by (nonlinear_arith)
        requires
            s <= t,
            x == d * s + e * (24 - s),
            y == d * t + e * (24 - t),
    ;
    assert(d <= e ==> x >= y) by (nonlinear_arith)
        requires
            s <= t,
            x == d * s + e * (24 - s),
            y == d * t + e * (24 - t),
    ;
}

/// The least that the pieces of a side are worth, and the most, in either phase.
pub open spec fn mg_least(p: Position, c: int) -> int {
    priced(p, c, 27, 145, 253, 382, 960, -65)
}

pub open spec fn mg_most(p: Position, c: int) -> int {
    priced(p, c, 312, 557, 521, 741, 1382, 36) + 78
}

pub open spec fn eg_least(p: Position, c: int) -> int {
    priced(p, c, 50, 150, 230, 456, 873, -74)
}

pub open spec fn eg_most(p: Position, c: int) -> int {
    priced(p, c, 431, 331, 353, 592, 1060, 45) + 48
}

/// A side that is ahead in material by more than place can make up for has the
/// better score.
pub proof fn law_material_decides(p: Position, x: int)
    requires
        p.sound(),
    ensures
        mg_least(p, 0) - mg_most(p, 1) >= x && eg_least(p, 0) - eg_most(p, 1) >= x ==> p.tapered()
            >= x,
        mg_least(p, 1) - mg_most(p, 0) >= x && eg_least(p, 1) - eg_most(p, 0) >= x ==> p.tapered()
            <= -x,
{
    law_the_score_tapers(p);
    law_material_counts_in_the_middlegame(p, 0);
    law_material_counts_in_the_middlegame(p, 1);
    law_material_counts_in_the_endgame(p, 0);
    law_material_counts_in_the_endgame(p, 1);
}

/// The score is the side to move's: white's lead is good for white and bad for
/// black, and to be on the move is worth a little. A side that has no pawn and is
/// not a rook ahead gets a quarter of it, rounded toward a draw.
pub proof fn law_the_score_is_the_movers(p: Position)
    requires
        p.sound(),
        !p.bare(),
    ensures
        ({
            let us = p.stm as int;
            let lead = 12 + if us == 0 {
                p.tapered()
            } else {
                -p.tapered()
            };
            let strong = if lead > 0 {
                us
            } else {
                1 - us
            };
            let ahead = p.material(strong) - p.material(1 - strong);
            &&& p.of(strong, 0) != 0 || ahead >= 512 ==> p.worth() == lead
            &&& p.of(strong, 0) == 0 && ahead < 512 ==> {
                &&& lead >= 0 ==> 4 * p.worth() <= lead < 4 * p.worth() + 4
                &&& lead <= 0 ==> 4 * p.worth() - 4 < lead <= 4 * p.worth()
            }
        }),
{
}

} // verus!
