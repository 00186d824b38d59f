//! Board geometry: what each piece sees, stated on squares.
//!
//! Squares are numbered from a1 = 0 to h8 = 63, so a square is a file and a
//! rank. Every attack set of the engine is defined here as the set of squares
//! that satisfy a plain condition on files and ranks.

use vstd::prelude::*;
use crate::bits;

verus! {

pub open spec fn fl(s: int) -> int {
    s % 8
}

pub open spec fn rk(s: int) -> int {
    s / 8
}

pub open spec fn is_sq(s: int) -> bool {
    0 <= s < 64
}

pub open spec fn abs(x: int) -> int {
    if x < 0 {
        -x
    } else {
        x
    }
}

/// Number of king steps from `a` to `b`.
pub open spec fn dist(a: int, b: int) -> int {
    let x = abs(fl(a) - fl(b));
    let y = abs(rk(a) - rk(b));
    if x < y {
        y
    } else {
        x
    }
}

/// `y` lies strictly between `x` and `z`.
pub open spec fn inside(x: int, y: int, z: int) -> bool {
    x < y < z || z < y < x
}

/// Two different squares on one rank or file.
pub open spec fn orth(a: int, b: int) -> bool {
    a != b && (fl(a) == fl(b) || rk(a) == rk(b))
}

/// Two different squares on one diagonal.
pub open spec fn diag(a: int, b: int) -> bool {
    a != b && abs(fl(a) - fl(b)) == abs(rk(a) - rk(b))
}

/// `s` lies strictly between `a` and `b` on the rank, file or diagonal they
/// share; never true of squares that share none.
pub open spec fn btw(a: int, s: int, b: int) -> bool {
    is_sq(s) && {
        ||| rk(a) == rk(b) && rk(s) == rk(a) && inside(fl(a), fl(s), fl(b))
        ||| fl(a) == fl(b) && fl(s) == fl(a) && inside(rk(a), rk(s), rk(b))
        ||| fl(b) - fl(a) == rk(b) - rk(a) && fl(s) - fl(a) == rk(s) - rk(a) && inside(
            fl(a),
            fl(s),
            fl(b),
        )
        ||| fl(b) - fl(a) == rk(a) - rk(b) && fl(s) - fl(a) == rk(a) - rk(s) && inside(
            fl(a),
            fl(s),
            fl(b),
        )
    }
}

/// `s` lies on the full rank, file or diagonal through `a` and `b`.
pub open spec fn on_line(a: int, b: int, s: int) -> bool {
    is_sq(s) && a != b && {
        ||| rk(a) == rk(b) && rk(s) == rk(a)
        ||| fl(a) == fl(b) && fl(s) == fl(a)
        ||| fl(b) - fl(a) == rk(b) - rk(a) && fl(s) - fl(a) == rk(s) - rk(a)
        ||| fl(b) - fl(a) == rk(a) - rk(b) && fl(s) - fl(a) == rk(a) - rk(s)
    }
}

/// Nothing of `occ` stands between `a` and `b`.
pub open spec fn clear(a: int, b: int, occ: u64) -> bool {
    forall|s: int| #![trigger btw(a, s, b)] #![trigger bits::mem(occ, s)] btw(a, s, b) ==> !bits::mem(occ, s)
}

pub open spec fn rook_sees(a: int, b: int, occ: u64) -> bool {
    orth(a, b) && clear(a, b, occ)
}

pub open spec fn bishop_sees(a: int, b: int, occ: u64) -> bool {
    diag(a, b) && clear(a, b, occ)
}

pub open spec fn knight_sees(a: int, b: int) -> bool {
    let x = abs(fl(a) - fl(b));
    let y = abs(rk(a) - rk(b));
    x == 1 && y == 2 || x == 2 && y == 1
}

pub open spec fn king_sees(a: int, b: int) -> bool {
    dist(a, b) == 1
}

/// A pawn of `side` (0 = white) on `a` attacks `b`.
pub open spec fn pawn_sees(side: int, a: int, b: int) -> bool {
    abs(fl(a) - fl(b)) == 1 && rk(b) - rk(a) == if side == 0 {
        1int
    } else {
        -1int
    }
}

// ---------------------------------------------------------------------------
// Sets of squares
// ---------------------------------------------------------------------------

/// The squares below `n` that satisfy `p`.
pub open spec fn build(p: spec_fn(int) -> bool, n: nat) -> u64
    decreases n,
{
    if n == 0 {
        0
    } else if p(n - 1) {
        build(p, (n - 1) as nat) | bits::one(n - 1)
    } else {
        build(p, (n - 1) as nat)
    }
}

/// The squares of the board that satisfy `p`.
pub open spec fn set_of(p: spec_fn(int) -> bool) -> u64 {
    build(p, 64)
}

proof fn lemma_build(p: spec_fn(int) -> bool, n: nat, s: int)
    requires
        n <= 64,
    ensures
        bits::mem(build(p, n), s) <==> 0 <= s < n && p(s),
    decreases n,
{
    broadcast use bits::group_mem;
    if n > 0 {
        lemma_build(p, (n - 1) as nat, s);
    }
}

pub broadcast proof fn lemma_set_of(p: spec_fn(int) -> bool, s: int)
    ensures
        #[trigger] bits::mem(set_of(p), s) <==> is_sq(s) && p(s),
{
    lemma_build(p, 64, s);
}

/// A set is told by its members.
pub proof fn lemma_is_set(b: u64, p: spec_fn(int) -> bool)
    requires
        forall|s: int| is_sq(s) ==> (#[trigger] bits::mem(b, s) <==> p(s)),
    ensures
        b == set_of(p),
{
    assert forall|s: int| 0 <= s < 64 implies bits::mem(b, s) == bits::mem(set_of(p), s) by {
        lemma_set_of(p, s);
    }
    bits::lemma_ext(b, set_of(p));
}

pub closed spec fn rook_bb(a: int, occ: u64) -> u64 {
    set_of(|b: int| rook_sees(a, b, occ))
}

pub closed spec fn bishop_bb(a: int, occ: u64) -> u64 {
    set_of(|b: int| bishop_sees(a, b, occ))
}

pub open spec fn queen_bb(a: int, occ: u64) -> u64 {
    rook_bb(a, occ) | bishop_bb(a, occ)
}

pub closed spec fn knight_bb(a: int) -> u64 {
    set_of(|b: int| knight_sees(a, b))
}

pub closed spec fn king_bb(a: int) -> u64 {
    set_of(|b: int| king_sees(a, b))
}

pub closed spec fn pawn_bb(side: int, a: int) -> u64 {
    set_of(|b: int| pawn_sees(side, a, b))
}

pub closed spec fn between_bb(a: int, b: int) -> u64 {
    set_of(|s: int| btw(a, s, b))
}

pub closed spec fn line_bb(a: int, b: int) -> u64 {
    set_of(|s: int| on_line(a, b, s))
}

pub broadcast proof fn lemma_rook_bb(a: int, occ: u64, s: int)
    ensures
        #[trigger] bits::mem(rook_bb(a, occ), s) <==> is_sq(s) && rook_sees(a, s, occ),
{
    lemma_set_of(|b: int| rook_sees(a, b, occ), s);
}

pub broadcast proof fn lemma_bishop_bb(a: int, occ: u64, s: int)
    ensures
        #[trigger] bits::mem(bishop_bb(a, occ), s) <==> is_sq(s) && bishop_sees(a, s, occ),
{
    lemma_set_of(|b: int| bishop_sees(a, b, occ), s);
}

pub broadcast proof fn lemma_knight_bb(a: int, s: int)
    ensures
        #[trigger] bits::mem(knight_bb(a), s) <==> is_sq(s) && knight_sees(a, s),
{
    lemma_set_of(|b: int| knight_sees(a, b), s);
}

pub broadcast proof fn lemma_king_bb(a: int, s: int)
    ensures
        #[trigger] bits::mem(king_bb(a), s) <==> is_sq(s) && king_sees(a, s),
{
    lemma_set_of(|b: int| king_sees(a, b), s);
}

pub broadcast proof fn lemma_pawn_bb(side: int, a: int, s: int)
    ensures
        #[trigger] bits::mem(pawn_bb(side, a), s) <==> is_sq(s) && pawn_sees(side, a, s),
{
    lemma_set_of(|b: int| pawn_sees(side, a, b), s);
}

pub broadcast proof fn lemma_between_bb(a: int, b: int, s: int)
    ensures
        #[trigger] bits::mem(between_bb(a, b), s) <==> btw(a, s, b),
{
    lemma_set_of(|x: int| btw(a, x, b), s);
}

pub broadcast proof fn lemma_line_bb(a: int, b: int, s: int)
    ensures
        #[trigger] bits::mem(line_bb(a, b), s) <==> on_line(a, b, s),
{
    lemma_set_of(|x: int| on_line(a, b, x), s);
}

pub broadcast group group_geom {
    lemma_rook_bb,
    lemma_bishop_bb,
    lemma_knight_bb,
    lemma_king_bb,
    lemma_pawn_bb,
    lemma_between_bb,
    lemma_line_bb,
}

// ---------------------------------------------------------------------------
// Rays
// ---------------------------------------------------------------------------

/// A compass direction: one step in file, rank or both.
pub open spec fn is_dir(df: int, dr: int) -> bool {
    -1 <= df <= 1 && -1 <= dr <= 1 && !(df == 0 && dr == 0)
}

/// `b` is reached from `a` by one or more steps `(df, dr)`.
pub open spec fn ahead(a: int, df: int, dr: int, b: int) -> bool {
    let x = fl(b) - fl(a);
    let y = rk(b) - rk(a);
    &&& if df == 0 {
        x == 0
    } else if df > 0 {
        x > 0
    } else {
        x < 0
    }
    &&& if dr == 0 {
        y == 0
    } else if dr > 0 {
        y > 0
    } else {
        y < 0
    }
    &&& df != 0 && dr != 0 ==> abs(x) == abs(y)
}

/// `b` is the first or a later square of the ray, up to its first blocker.
pub open spec fn ray_sees(a: int, df: int, dr: int, b: int, occ: u64) -> bool {
    ahead(a, df, dr, b) && clear(a, b, occ)
}

/// Between, seen along a ray: nearer squares of the same ray.
pub proof fn lemma_ahead_btw(a: int, df: int, dr: int, b: int, s: int)
    requires
        is_sq(a),
        is_sq(b),
        is_sq(s),
        is_dir(df, dr),
        ahead(a, df, dr, b),
    ensures
        btw(a, s, b) <==> ahead(a, df, dr, s) && dist(a, s) < dist(a, b),
{
}

/// Equal distance along a ray means the same square.
pub proof fn lemma_ahead_unique(a: int, df: int, dr: int, b: int, s: int)
    requires
        is_sq(a),
        is_sq(b),
        is_sq(s),
        is_dir(df, dr),
        ahead(a, df, dr, b),
        ahead(a, df, dr, s),
        dist(a, s) == dist(a, b),
    ensures
        s == b,
{
}

/// The four rook rays are the squares on one rank or file.
pub proof fn lemma_orth_rays(a: int, b: int)
    requires
        is_sq(a),
        is_sq(b),
    ensures
        orth(a, b) <==> (ahead(a, 0, 1, b) || ahead(a, 0, -1, b) || ahead(a, 1, 0, b) || ahead(
            a,
            -1,
            0,
            b,
        )),
{
}

/// The four bishop rays are the squares on one diagonal.
pub proof fn lemma_diag_rays(a: int, b: int)
    requires
        is_sq(a),
        is_sq(b),
    ensures
        diag(a, b) <==> (ahead(a, 1, 1, b) || ahead(a, 1, -1, b) || ahead(a, -1, 1, b) || ahead(
            a,
            -1,
            -1,
            b,
        )),
{
}

pub proof fn lemma_btw_sym(a: int, s: int, b: int)
    ensures
        btw(a, s, b) == btw(b, s, a),
{
}

/// Seeing along a line is mutual.
pub proof fn lemma_sees_sym(a: int, b: int, occ: u64)
    ensures
        rook_sees(a, b, occ) == rook_sees(b, a, occ),
        bishop_sees(a, b, occ) == bishop_sees(b, a, occ),
        knight_sees(a, b) == knight_sees(b, a),
        king_sees(a, b) == king_sees(b, a),
        pawn_sees(0, a, b) == pawn_sees(1, b, a),
{
    assert forall|s: int| btw(a, s, b) == btw(b, s, a) by {
        lemma_btw_sym(a, s, b);
    }
    assert(clear(a, b, occ) == clear(b, a, occ));
}

} // verus!
