//! The evaluation network.
//!
//! This is the whole evaluation. There is no hand-crafted term underneath it.
//!
//! Alongside the 768 piece-square planes sit 166 rows encoding mobility, passed
//! pawns, pawn structure, rook files, the bishop pair, king attackers and king
//! shelter, computed from the board and looked up in the same embedding table.
//!
//! This file is the single source of truth for feature extraction. The trainer
//! never computes features itself; it asks the engine for indices.

use vstd::prelude::*;
use crate::bb::{east, file_of, more_than_one, pop_lsb, popcount, rank_of, west, Bb};
use crate::bits;
use crate::eval;
use crate::eval::{king_zone, officer_attacks, on_file};
use crate::geom;
use crate::pos;
use crate::pos::{Position, BISHOP_P, PAWN_P, ROOK_P, WHITE};
use crate::tables::Tables;

verus! {

broadcast use {crate::bits::group_mem, crate::geom::group_geom};

/// "SBL3", little-endian.
pub const MAGIC: u32 = 0x334C_4253;

/// Hidden neurons per perspective.
pub const H: usize = 64;

/// Output-layer sets, indexed by remaining material.
pub const BUCKETS: usize = 8;

// Feature-space layout; each constant is the first row of its block.
pub const PSQ: usize = 0;

pub const MOB: usize = 768;

pub const PASSED: usize = 864;

pub const ISOLATED: usize = 880;

pub const DOUBLED: usize = 888;

pub const ROOK_OPEN: usize = 896;

pub const ROOK_SEMI: usize = 902;

pub const PAIR: usize = 908;

pub const KING_ATT: usize = 910;

pub const SHELTER: usize = 926;

pub const IN: usize = 934;

/// Upper bound on simultaneously active features. A normal position reaches
/// roughly 80; the slack absorbs promotion-heavy positions.
pub const MAX_F: usize = 96;

// Quantisation scales; the trainer applies the same ones.
/// Feature-transformer and activation range.
pub const QA: i32 = 127;

/// Output weights.
pub const QB: i32 = 64;

/// Network units to centipawns.
pub const SCALE: i32 = 400;

// ---------------------------------------------------------------------------
// Features
// ---------------------------------------------------------------------------

/// One active feature, as either side sees it: which block it lies in, whose
/// fact it is, and the offset within the block for white and for black.
pub struct Fact {
    pub base: int,
    pub stride: int,
    pub color: int,
    pub white: int,
    pub black: int,
}

/// The row of a fact from one perspective. Colours are relative: the first half
/// of a block is always "mine", the second always "theirs".
pub open spec fn index(f: Fact, persp: int) -> int {
    f.base + (if f.color == persp {
        0
    } else {
        f.stride
    }) + if persp == 0 {
        f.white
    } else {
        f.black
    }
}

/// A fact whose index depends only on relative colour.
pub open spec fn plain(base: int, stride: int, c: int, v: int) -> Fact {
    Fact { base, stride, color: c, white: v, black: v }
}

/// A piece on a square; squares are mirrored for black.
pub open spec fn placed(c: int, pt: int, s: int) -> Fact {
    Fact {
        base: 0,
        stride: 384,
        color: c,
        white: pt * 64 + s,
        black: pt * 64 + eval::flipped(s),
    }
}

/// `f` of every square of `b`, lowest square first.
pub open spec fn list_over(b: u64, f: spec_fn(int) -> Fact) -> Seq<Fact>
    decreases b,
{
    if b == 0 {
        Seq::empty()
    } else {
        proof {
            bits::lemma_rest_smaller(b);
        }
        seq![f(bits::low(b))] + list_over(bits::rest(b), f)
    }
}

pub open spec fn placed_fn(c: int, pt: int) -> spec_fn(int) -> Fact {
    |s: int| placed(c, pt, s)
}

/// The pieces of colour `c` from type `pt` on.
pub open spec fn placed_from(p: Position, c: int, pt: int) -> Seq<Fact>
    decreases 6 - pt,
{
    if pt >= 6 {
        Seq::empty()
    } else {
        list_over(p.of(c, pt), placed_fn(c, pt)) + placed_from(p, c, pt + 1)
    }
}

/// The squares that the officer on `s` attacks and that are not its own side's.
pub open spec fn freedom(cells: Seq<int>, s: int) -> int {
    let (code, occ) = (cells[s], pos::occ_of(cells));
    eval::count(|t: int| pos::hits(code, s, t, occ) && !pos::owned(cells[t], code / 6))
}

pub open spec fn mob_fn(cells: Seq<int>, c: int, pt: int) -> spec_fn(int) -> Fact {
    |s: int| plain(768, 48, c, (pt - 1) * 12 + eval::min(freedom(cells, s), 11))
}

/// Mobility, one fact per officer, from type `pt` on.
pub open spec fn mob_from(p: Position, c: int, pt: int) -> Seq<Fact>
    decreases 5 - pt,
{
    if pt >= 5 {
        Seq::empty()
    } else {
        list_over(p.of(c, pt), mob_fn(p.cells(), c, pt)) + mob_from(p, c, pt + 1)
    }
}

pub open spec fn attacker_fn(cells: Seq<int>, k: int) -> spec_fn(int) -> int {
    |s: int| eval::attacker_term(cells, s, k)
}

/// The officers of colour `c`, from type `pt` on, that bear on the king on `k`.
pub open spec fn bearing_from(p: Position, c: int, pt: int, k: int) -> int
    decreases 5 - pt,
{
    if pt >= 5 {
        0
    } else {
        eval::sum_over(p.of(c, pt), attacker_fn(p.cells(), k)) + bearing_from(p, c, pt + 1, k)
    }
}

pub open spec fn passed_set(p: Position, c: int) -> u64 {
    let cells = p.cells();
    geom::set_of(|s: int| cells[s] == c * 6 && eval::passed(cells, s))
}

pub open spec fn passed_fn(c: int) -> spec_fn(int) -> Fact {
    |s: int| plain(864, 8, c, geom::rk(eval::rel(c, s)))
}

pub open spec fn isolated_count(cells: Seq<int>, c: int) -> int {
    eval::count(|s: int| cells[s] == c * 6 && eval::isolated(cells, s))
}

pub open spec fn doubled_count(cells: Seq<int>, c: int) -> int {
    eval::count(|s: int| cells[s] == c * 6 && eval::doubled(cells, s))
}

/// The rooks of `c` whose file is of kind `kind`: 0 open, 1 half open.
pub open spec fn rook_count(cells: Seq<int>, c: int, kind: int) -> int {
    eval::count(|s: int| cells[s] == c * 6 + 3 && eval::rook_file(cells, s) == kind)
}

/// The pawns of `c` around its king on `k`.
pub open spec fn shelter_count(cells: Seq<int>, c: int, k: int) -> int {
    eval::count(|s: int| cells[s] == c * 6 && eval::zone(k, s))
}

/// The pawn-structure and rook-file facts of colour `c`.
pub open spec fn structure(p: Position, c: int) -> Seq<Fact> {
    let cells = p.cells();
    seq![
        plain(880, 4, c, eval::min(isolated_count(cells, c), 3)),
        plain(888, 4, c, eval::min(doubled_count(cells, c), 3)),
        plain(896, 3, c, eval::min(rook_count(cells, c, 0), 2)),
        plain(902, 3, c, eval::min(rook_count(cells, c, 1), 2)),
    ]
}

pub open spec fn pair_fact(p: Position, c: int) -> Seq<Fact> {
    if p.has_pair(c) {
        seq![plain(908, 1, c, 0)]
    } else {
        Seq::empty()
    }
}

/// The facts of one side, but for its king.
pub open spec fn side_facts(p: Position, c: int) -> Seq<Fact> {
    placed_from(p, c, 0) + mob_from(p, c, 1) + list_over(passed_set(p, c), passed_fn(c))
        + structure(p, c) + pair_fact(p, c)
}

/// The facts about one king.
pub open spec fn king_facts(p: Position, c: int) -> Seq<Fact> {
    let (cells, k) = (p.cells(), p.king(c));
    seq![
        plain(910, 8, c, eval::min(bearing_from(p, 1 - c, 1, k), 7)),
        plain(926, 4, c, eval::min(shelter_count(cells, c, k), 3)),
    ]
}

/// Every fact of a position, in the order in which they are listed.
pub open spec fn facts(p: Position) -> Seq<Fact> {
    side_facts(p, 0) + side_facts(p, 1) + king_facts(p, 0) + king_facts(p, 1)
}

/// The active rows from one perspective. What exceeds the limit is dropped.
pub open spec fn rows(p: Position, persp: int) -> Seq<int> {
    let l = facts(p);
    Seq::new(
        if l.len() < 96 {
            l.len()
        } else {
            96
        },
        |i: int| index(l[i], persp),
    )
}

/// A fact that lies within its block.
pub open spec fn in_block(f: Fact) -> bool {
    &&& 0 <= f.color < 2
    &&& 0 <= index(f, 0) < 934
    &&& 0 <= index(f, 1) < 934
}

// ---------------------------------------------------------------------------
// Extraction
// ---------------------------------------------------------------------------

/// The first facts of `l` stand in the two lists; the rest of the lists is as
/// it was.
spec fn listed(
    l: Seq<Fact>,
    persp: int,
    n: int,
    a: Seq<u16>,
    b: Seq<u16>,
    a0: Seq<u16>,
    b0: Seq<u16>,
) -> bool {
    &&& n == if l.len() < 96 {
        l.len() as int
    } else {
        96
    }
    &&& a.len() == 96 && b.len() == 96 && a0.len() == 96 && b0.len() == 96
    &&& forall|i: int| 0 <= i < n ==> #[trigger] a[i] == index(l[i], persp)
    &&& forall|i: int| 0 <= i < n ==> #[trigger] b[i] == index(l[i], 1 - persp)
    &&& forall|i: int| n <= i < 96 ==> #[trigger] a[i] == a0[i]
    &&& forall|i: int| n <= i < 96 ==> #[trigger] b[i] == b0[i]
    &&& forall|i: int| 0 <= i < l.len() ==> in_block(#[trigger] l[i])
}

/// Two feature lists being filled, one per perspective.
struct Lists {
    a: [u16; 96],
    b: [u16; 96],
    n: usize,
    persp: usize,
}

impl Lists {
    spec fn holds(self, l: Seq<Fact>, a0: Seq<u16>, b0: Seq<u16>) -> bool {
        &&& self.persp < 2
        &&& listed(l, self.persp as int, self.n as int, self.a@, self.b@, a0, b0)
    }

    /// Append a fact, given its offsets for white and for black.
    fn put(
        &mut self,
        base: usize,
        stride: usize,
        c: usize,
        white: usize,
        black: usize,
        Ghost(l): Ghost<Seq<Fact>>,
        Ghost(a0): Ghost<Seq<u16>>,
        Ghost(b0): Ghost<Seq<u16>>,
    )
        requires
            old(self).holds(l, a0, b0),
            c < 2,
            base + stride + white < 934,
            base + stride + black < 934,
        ensures
            final(self).holds(
                l.push(
                    Fact {
                        base: base as int,
                        stride: stride as int,
                        color: c as int,
                        white: white as int,
                        black: black as int,
                    },
                ),
                a0,
                b0,
            ),
            final(self).persp == old(self).persp,
    {
        if self.n < MAX_F {
            let (ra, rb): (usize, usize) = if c == self.persp {
                (0, stride)
            } else {
                (stride, 0)
            };
            let (va, vb) = if self.persp == WHITE {
                (white, black)
            } else {
                (black, white)
            };
            self.a[self.n] = (base + ra + va) as u16;
            self.b[self.n] = (base + rb + vb) as u16;
            self.n = self.n + 1;
        }
    }
}

fn min_usize(a: usize, b: usize) -> (r: usize)
    ensures
        r == eval::min(a as int, b as int),
{
    if a < b {
        a
    } else {
        b
    }
}

proof fn lemma_list_step(done: Seq<Fact>, b: u64, f: spec_fn(int) -> Fact)
    requires
        b != 0,
    ensures
        done + list_over(b, f) == done.push(f(bits::low(b))) + list_over(bits::rest(b), f),
{
    assert(done + (seq![f(bits::low(b))] + list_over(bits::rest(b), f)) =~= done.push(
        f(bits::low(b)),
    ) + list_over(bits::rest(b), f));
}

proof fn lemma_list_done(done: Seq<Fact>, f: spec_fn(int) -> Fact)
    ensures
        done + list_over(0, f) == done,
{
    assert(done + list_over(0, f) =~= done);
}

/// The piece-square facts of colour `c`.
fn put_pieces(
    pos: &Position,
    c: usize,
    out: &mut Lists,
    Ghost(l): Ghost<Seq<Fact>>,
    Ghost(a0): Ghost<Seq<u16>>,
    Ghost(b0): Ghost<Seq<u16>>,
)
    requires
        c < 2,
        old(out).holds(l, a0, b0),
    ensures
        final(out).holds(l + placed_from(*pos, c as int, 0), a0, b0),
        final(out).persp == old(out).persp,
{
    let ghost all = l + placed_from(*pos, c as int, 0);
    let ghost mut cur = l;
    let mut pt: usize = 0;
    while pt < 6
        invariant
            pt <= 6,
            c < 2,
            out.holds(cur, a0, b0),
            out.persp == old(out).persp,
            cur + placed_from(*pos, c as int, pt as int) == all,
        decreases 6 - pt,
    {
        let ghost f = placed_fn(c as int, pt as int);
        let mut b = pos.pieces(c, pt);
        let ghost rest = placed_from(*pos, c as int, pt + 1);
        let ghost part = cur + list_over(b, f);
        proof {
            assert(cur + (list_over(b, f) + rest) =~= part + rest);
        }
        while b != 0
            invariant
                pt < 6,
                c < 2,
                f == placed_fn(c as int, pt as int),
                out.holds(cur, a0, b0),
                out.persp == old(out).persp,
                cur + list_over(b, f) == part,
            decreases b,
        {
            proof {
                lemma_list_step(cur, b, f);
            }
            let sq = pop_lsb(&mut b);
            let back = (7 - sq / 8) * 8 + sq % 8;
            out.put(
                PSQ,
                384,
                c,
                pt * 64 + sq,
                pt * 64 + back,
                Ghost(cur),
                Ghost(a0),
                Ghost(b0),
            );
            proof {
                cur = cur.push(f(sq as int));
            }
        }
        proof {
            lemma_list_done(cur, f);
        }
        pt = pt + 1;
    }
    proof {
        assert(cur + placed_from(*pos, c as int, 6) =~= cur);
    }
}

/// What the officer on `sq` reaches: how many free squares, and whether any
/// square around the king on `k`.
fn officer_reach(pos: &Position, t: &Tables, c: usize, pt: usize, sq: usize, zone_bb: Bb, Ghost(k): Ghost<
    int,
>) -> (r: (usize, bool))
    requires
        pos.board_ok(),
        c < 2,
        1 <= pt <= 4,
        sq < 64,
        pos.cells()[sq as int] == c * 6 + pt,
        forall|x: int| #[trigger] bits::mem(zone_bb, x) <==> geom::is_sq(x) && eval::zone(k, x),
    ensures
        r.0 == freedom(pos.cells(), sq as int),
        r.1 == (eval::attacker_term(pos.cells(), sq as int, k) == 1),
{
    let ghost cells = pos.cells();
    let ghost (code, s) = (c * 6 + pt, sq as int);
    let occ = pos.occ();
    let att = officer_attacks(t, pt, sq, occ);
    let free = att & !pos.color[c];
    let near = att & zone_bb;
    proof {
        reveal(eval::pressure);
        pos::lemma_occ(*pos);
        assert(code / 6 == c && code % 6 == pt);
        let f = |x: int| pos::hits(code, s, x, occ) && !pos::owned(cells[x], code / 6);
        assert forall|x: int| geom::is_sq(x) implies (#[trigger] bits::mem(free, x) <==> f(x)) by {
            pos::lemma_cells(*pos, x);
            assert(bits::mem(att, x) <==> pos::hits(c * 6 + pt, s, x, occ));
        }
        geom::lemma_is_set(free, f);
        let g = |x: int| pos::hits(code, s, x, occ) && eval::zone(k, x);
        assert forall|x: int| geom::is_sq(x) implies (#[trigger] bits::mem(near, x) <==> g(x)) by {
            assert(bits::mem(att, x) <==> pos::hits(c * 6 + pt, s, x, occ));
        }
        geom::lemma_is_set(near, g);
        bits::lemma_card_one(near);
    }
    (popcount(free) as usize, near != 0)
}

/// The mobility facts of colour `c`. Every officer is asked for its attack set
/// exactly once: mobility wants it for the piece's own colour and king safety
/// wants the same board from the other side. Returns the number of officers
/// that bear on the king on `k`.
fn put_mobility(
    pos: &Position,
    t: &Tables,
    c: usize,
    zone_bb: Bb,
    out: &mut Lists,
    Ghost(k): Ghost<int>,
    Ghost(l): Ghost<Seq<Fact>>,
    Ghost(a0): Ghost<Seq<u16>>,
    Ghost(b0): Ghost<Seq<u16>>,
) -> (r: usize)
    requires
        pos.board_ok(),
        c < 2,
        old(out).holds(l, a0, b0),
        forall|x: int| #[trigger] bits::mem(zone_bb, x) <==> geom::is_sq(x) && eval::zone(k, x),
    ensures
        final(out).holds(l + mob_from(*pos, c as int, 1), a0, b0),
        final(out).persp == old(out).persp,
        r == bearing_from(*pos, c as int, 1, k),
        r <= 256,
{
    let ghost all = l + mob_from(*pos, c as int, 1);
    let ghost total = bearing_from(*pos, c as int, 1, k);
    let ghost cells = pos.cells();
    let ghost g = attacker_fn(cells, k);
    let ghost mut cur = l;
    let mut n: usize = 0;
    let mut pt: usize = 1;
    while pt < 5
        invariant
            1 <= pt <= 5,
            c < 2,
            pos.board_ok(),
            cells == pos.cells(),
            g == attacker_fn(cells, k),
            forall|x: int| #[trigger] bits::mem(zone_bb, x) <==> geom::is_sq(x) && eval::zone(k, x),
            out.holds(cur, a0, b0),
            out.persp == old(out).persp,
            cur + mob_from(*pos, c as int, pt as int) == all,
            n + bearing_from(*pos, c as int, pt as int, k) == total,
            n <= 64 * (pt - 1),
        decreases 5 - pt,
    {
        let ghost f = mob_fn(cells, c as int, pt as int);
        let all_b = pos.pieces(c, pt);
        let mut b = all_b;
        let ghost rest = mob_from(*pos, c as int, pt + 1);
        let ghost part = cur + list_over(b, f);
        let ghost goal = n + eval::sum_over(b, g);
        let ghost n0 = n as int;
        proof {
            assert(cur + (list_over(b, f) + rest) =~= part + rest);
            bits::lemma_card_64(b);
        }
        while b != 0
            invariant
                1 <= pt < 5,
                c < 2,
                pos.board_ok(),
                cells == pos.cells(),
                g == attacker_fn(cells, k),
                forall|x: int| #[trigger]
                    bits::mem(zone_bb, x) <==> geom::is_sq(x) && eval::zone(k, x),
                f == mob_fn(cells, c as int, pt as int),
                out.holds(cur, a0, b0),
                out.persp == old(out).persp,
                cur + list_over(b, f) == part,
                all_b == pos.of(c as int, pt as int),
                forall|x: int| #[trigger] bits::mem(b, x) ==> bits::mem(all_b, x),
                n + eval::sum_over(b, g) == goal,
                n + bits::card(b) <= n0 + 64,
                n0 <= 64 * (pt - 1),
            decreases b,
        {
            proof {
                lemma_list_step(cur, b, f);
                bits::lemma_rest(b);
                bits::lemma_low(b);
                bits::lemma_rest_smaller(b);
            }
            let sq = pop_lsb(&mut b);
            proof {
                pos::lemma_cells(*pos, sq as int);
                assert(bits::mem(all_b, sq as int));
                assert(pos.of(c as int, pt as int) == all_b);
            }
            let (m, near) = officer_reach(pos, t, c, pt, sq, zone_bb, Ghost(k));
            let v = (pt - 1) * 12 + min_usize(m, 11);
            out.put(MOB, 48, c, v, v, Ghost(cur), Ghost(a0), Ghost(b0));
            if near {
                n = n + 1;
            }
            proof {
                cur = cur.push(f(sq as int));
                assert(g(sq as int) == if near {
                    1int
                } else {
                    0
                });
            }
        }
        proof {
            lemma_list_done(cur, f);
        }
        pt = pt + 1;
    }
    proof {
        assert(cur + mob_from(*pos, c as int, 5) =~= cur);
    }
    n
}

// ---------------------------------------------------------------------------
// Pawn structure, asked of the whole board instead of pawn by pawn
// ---------------------------------------------------------------------------

/// `b` smeared towards rank 8.
fn nfill(b: Bb) -> (r: Bb)
    ensures
        forall|s: int| #[trigger]
            bits::mem(r, s) <==> geom::is_sq(s) && exists|q: int| #[trigger]
                bits::mem(b, q) && geom::fl(q) == geom::fl(s) && geom::rk(q) <= geom::rk(s),
{
    let r1 = b | (b << 8);
    let r2 = r1 | (r1 << 16);
    let r3 = r2 | (r2 << 32);
    proof {
        assert forall|s: int| #[trigger] bits::mem(r3, s) <==> geom::is_sq(s) && exists|q: int|
            #[trigger] bits::mem(b, q) && geom::fl(q) == geom::fl(s) && geom::rk(q) <= geom::rk(s) by {
            if geom::is_sq(s) {
                lemma_up(b, r1, r2, r3, s);
            }
        }
    }
    r3
}

/// Each member of the smeared set comes from a member at most so many ranks
/// below.
proof fn lemma_up(b: u64, r1: u64, r2: u64, r3: u64, s: int)
    requires
        geom::is_sq(s),
        r1 == b | (b << 8),
        r2 == r1 | (r1 << 16),
        r3 == r2 | (r2 << 32),
    ensures
        bits::mem(r3, s) <==> exists|q: int| #[trigger]
            bits::mem(b, q) && geom::fl(q) == geom::fl(s) && geom::rk(q) <= geom::rk(s),
{
    assert forall|x: int| geom::is_sq(x) implies (#[trigger] bits::mem(r1, x) <==> bits::mem(b, x)
        || bits::mem(b, x - 8)) by {
        bits::lemma_mem_shl(b, 8, x);
    }
    assert forall|x: int| geom::is_sq(x) implies (#[trigger] bits::mem(r2, x) <==> bits::mem(r1, x)
        || bits::mem(r1, x - 16)) by {
        bits::lemma_mem_shl(r1, 16, x);
    }
    bits::lemma_mem_shl(r2, 32, s);
    let d = |k: int| bits::mem(b, s - 8 * k);
    assert(bits::mem(r3, s) <==> d(0) || d(1) || d(2) || d(3) || d(4) || d(5) || d(6) || d(7));
    if exists|q: int| #[trigger]
        bits::mem(b, q) && geom::fl(q) == geom::fl(s) && geom::rk(q) <= geom::rk(s) {
        let q = choose|q: int| #[trigger]
            bits::mem(b, q) && geom::fl(q) == geom::fl(s) && geom::rk(q) <= geom::rk(s);
        let k = geom::rk(s) - geom::rk(q);
        assert(q == s - 8 * k);
        assert(d(k));
        assert(k == 0 || k == 1 || k == 2 || k == 3 || k == 4 || k == 5 || k == 6 || k == 7);
    }
    assert forall|k: int| 0 <= k < 8 && #[trigger] d(k) implies exists|q: int| #[trigger]
        bits::mem(b, q) && geom::fl(q) == geom::fl(s) && geom::rk(q) <= geom::rk(s) by {
        assert(bits::mem(b, s - 8 * k));
    }
}

/// `b` smeared towards rank 1.
fn sfill(b: Bb) -> (r: Bb)
    ensures
        forall|s: int| #[trigger]
            bits::mem(r, s) <==> geom::is_sq(s) && exists|q: int| #[trigger]
                bits::mem(b, q) && geom::fl(q) == geom::fl(s) && geom::rk(q) >= geom::rk(s),
{
    let r1 = b | (b >> 8);
    let r2 = r1 | (r1 >> 16);
    let r3 = r2 | (r2 >> 32);
    proof {
        assert forall|s: int| #[trigger] bits::mem(r3, s) <==> geom::is_sq(s) && exists|q: int|
            #[trigger] bits::mem(b, q) && geom::fl(q) == geom::fl(s) && geom::rk(q) >= geom::rk(s) by {
            if geom::is_sq(s) {
                lemma_down(b, r1, r2, r3, s);
            }
        }
    }
    r3
}

proof fn lemma_down(b: u64, r1: u64, r2: u64, r3: u64, s: int)
    requires
        geom::is_sq(s),
        r1 == b | (b >> 8),
        r2 == r1 | (r1 >> 16),
        r3 == r2 | (r2 >> 32),
    ensures
        bits::mem(r3, s) <==> exists|q: int| #[trigger]
            bits::mem(b, q) && geom::fl(q) == geom::fl(s) && geom::rk(q) >= geom::rk(s),
{
    assert forall|x: int| geom::is_sq(x) implies (#[trigger] bits::mem(r1, x) <==> bits::mem(b, x)
        || bits::mem(b, x + 8)) by {
        bits::lemma_mem_shr(b, 8, x);
    }
    assert forall|x: int| geom::is_sq(x) implies (#[trigger] bits::mem(r2, x) <==> bits::mem(r1, x)
        || bits::mem(r1, x + 16)) by {
        bits::lemma_mem_shr(r1, 16, x);
    }
    bits::lemma_mem_shr(r2, 32, s);
    let d = |k: int| bits::mem(b, s + 8 * k);
    assert(bits::mem(r3, s) <==> d(0) || d(1) || d(2) || d(3) || d(4) || d(5) || d(6) || d(7));
    if exists|q: int| #[trigger]
        bits::mem(b, q) && geom::fl(q) == geom::fl(s) && geom::rk(q) >= geom::rk(s) {
        let q = choose|q: int| #[trigger]
            bits::mem(b, q) && geom::fl(q) == geom::fl(s) && geom::rk(q) >= geom::rk(s);
        let k = geom::rk(q) - geom::rk(s);
        assert(q == s + 8 * k);
        assert(d(k));
        assert(k == 0 || k == 1 || k == 2 || k == 3 || k == 4 || k == 5 || k == 6 || k == 7);
    }
    assert forall|k: int| 0 <= k < 8 && #[trigger] d(k) implies exists|q: int| #[trigger]
        bits::mem(b, q) && geom::fl(q) == geom::fl(s) && geom::rk(q) >= geom::rk(s) by {
        assert(bits::mem(b, s + 8 * k));
    }
}

/// Every square of the files that `b` stands on.
fn file_fill(b: Bb) -> (r: Bb)
    ensures
        forall|s: int| #[trigger]
            bits::mem(r, s) <==> geom::is_sq(s) && exists|q: int| #[trigger]
                bits::mem(b, q) && geom::fl(q) == geom::fl(s),
{
    let (n, s0) = (nfill(b), sfill(b));
    proof {
        assert forall|s: int| #[trigger] bits::mem(n | s0, s) <==> geom::is_sq(s) && exists|q: int|
            #[trigger] bits::mem(b, q) && geom::fl(q) == geom::fl(s) by {
            if geom::is_sq(s) && exists|q: int| #[trigger]
                bits::mem(b, q) && geom::fl(q) == geom::fl(s) {
                let q = choose|q: int| #[trigger] bits::mem(b, q) && geom::fl(q) == geom::fl(s);
                assert(bits::mem(b, q));
            }
        }
    }
    n | s0
}

/// The pawns of colour `c` are exactly the set `pawns`.
spec fn are_pawns(p: Position, c: int, pawns: u64) -> bool {
    forall|s: int| #[trigger] bits::mem(pawns, s) <==> geom::is_sq(s) && p.cells()[s] == c * 6
}

fn pawns_of(pos: &Position, c: usize) -> (r: Bb)
    requires
        pos.board_ok(),
        c < 2,
    ensures
        r == pos.of(c as int, 0),
        are_pawns(*pos, c as int, r),
{
    let r = pos.pieces(c, PAWN_P);
    proof {
        assert forall|s: int| #[trigger] bits::mem(r, s) <==> geom::is_sq(s) && pos.cells()[s] == c
            * 6 by {
            if geom::is_sq(s) {
                pos::lemma_cells(*pos, s);
                assert(pos.of(c as int, 0) == r);
            }
        }
    }
    r
}

/// Isolated: no friendly pawn on either neighbouring file. The sideways steps
/// clip at the edge files.
fn isolated_pawns(pos: &Position, c: usize, pawns: Bb) -> (r: usize)
    requires
        c < 2,
        are_pawns(*pos, c as int, pawns),
    ensures
        r == isolated_count(pos.cells(), c as int),
        r <= 64,
{
    let files = file_fill(pawns);
    let (w, e) = (west(files), east(files));
    let b = pawns & !(w | e);
    proof {
        reveal(eval::isolated);
        let cells = pos.cells();
        let f = |s: int| cells[s] == c * 6 && eval::isolated(cells, s);
        assert forall|s: int| geom::is_sq(s) implies (#[trigger] bits::mem(b, s) <==> f(s)) by {
            if bits::mem(pawns, s) {
                assert(cells[s] / 6 == c);
                if bits::mem(w, s) {
                    let q = choose|q: int| #[trigger]
                        bits::mem(pawns, q) && geom::fl(q) == geom::fl(s + 1);
                    assert(cells[q] == c * 6);
                    assert(eval::pawn_on(cells, c as int, geom::fl(s) + 1));
                }
                if bits::mem(e, s) {
                    let q = choose|q: int| #[trigger]
                        bits::mem(pawns, q) && geom::fl(q) == geom::fl(s - 1);
                    assert(cells[q] == c * 6);
                    assert(eval::pawn_on(cells, c as int, geom::fl(s) - 1));
                }
                if eval::pawn_on(cells, c as int, geom::fl(s) - 1) {
                    let q = choose|q: int|
                        geom::is_sq(q) && #[trigger] cells[q] == c * 6 && geom::fl(q) == geom::fl(s)
                            - 1;
                    assert(bits::mem(pawns, q));
                    assert(bits::mem(files, s - 1));
                }
                if eval::pawn_on(cells, c as int, geom::fl(s) + 1) {
                    let q = choose|q: int|
                        geom::is_sq(q) && #[trigger] cells[q] == c * 6 && geom::fl(q) == geom::fl(s)
                            + 1;
                    assert(bits::mem(pawns, q));
                    assert(bits::mem(files, s + 1));
                }
            }
        }
        geom::lemma_is_set(b, f);
    }
    popcount(b) as usize
}

/// Doubled: a friendly pawn strictly above or strictly below on the same file.
/// Counts every pawn on a shared file, not the number of surplus pawns.
fn doubled_pawns(pos: &Position, c: usize, pawns: Bb) -> (r: usize)
    requires
        c < 2,
        are_pawns(*pos, c as int, pawns),
    ensures
        r == doubled_count(pos.cells(), c as int),
        r <= 64,
{
    let (u, d) = (pawns << 8, pawns >> 8);
    let (n, s0) = (nfill(u), sfill(d));
    let b = pawns & (n | s0);
    proof {
        reveal(eval::doubled);
        let cells = pos.cells();
        assert forall|x: int| geom::is_sq(x) implies (#[trigger] bits::mem(u, x) <==> bits::mem(
            pawns,
            x - 8,
        )) by {
            bits::lemma_mem_shl(pawns, 8, x);
        }
        assert forall|x: int| geom::is_sq(x) implies (#[trigger] bits::mem(d, x) <==> bits::mem(
            pawns,
            x + 8,
        )) by {
            bits::lemma_mem_shr(pawns, 8, x);
        }
        let f = |s: int| cells[s] == c * 6 && eval::doubled(cells, s);
        assert forall|s: int| geom::is_sq(s) implies (#[trigger] bits::mem(b, s) <==> f(s)) by {
            if bits::mem(pawns, s) {
                if bits::mem(n, s) {
                    let q = choose|q: int| #[trigger]
                        bits::mem(u, q) && geom::fl(q) == geom::fl(s) && geom::rk(q) <= geom::rk(s);
                    assert(bits::mem(pawns, q - 8));
                    assert(cells[q - 8] == cells[s]);
                }
                if bits::mem(s0, s) {
                    let q = choose|q: int| #[trigger]
                        bits::mem(d, q) && geom::fl(q) == geom::fl(s) && geom::rk(q) >= geom::rk(s);
                    assert(bits::mem(pawns, q + 8));
                    assert(cells[q + 8] == cells[s]);
                }
                if eval::doubled(cells, s) {
                    let q = choose|q: int|
                        geom::is_sq(q) && q != s && #[trigger] cells[q] == cells[s] && geom::fl(q)
                            == geom::fl(s);
                    assert(bits::mem(pawns, q));
                    if geom::rk(q) < geom::rk(s) {
                        assert(bits::mem(u, q + 8));
                    } else {
                        assert(bits::mem(d, q - 8));
                    }
                }
            }
        }
        geom::lemma_is_set(b, f);
    }
    popcount(b) as usize
}

/// Passed: no enemy pawn ahead on this file or either neighbour. Smearing the
/// enemy pawns sideways first puts a bit on file `f` at rank `r` whenever an
/// enemy pawn stands on `f - 1`, `f` or `f + 1` at that rank, so one fill then
/// covers all three files.
fn passed_pawns(pos: &Position, c: usize, ours: Bb, theirs: Bb) -> (r: Bb)
    requires
        c < 2,
        are_pawns(*pos, c as int, ours),
        are_pawns(*pos, 1 - c, theirs),
    ensures
        r == passed_set(*pos, c as int),
{
    let (w, e) = (west(theirs), east(theirs));
    let blockers = theirs | w | e;
    proof {
        assert forall|y: int| geom::is_sq(y) implies (#[trigger] bits::mem(blockers, y)
            <==> beside(theirs, y)) by {
            lemma_blocker(theirs, w, e, y);
        }
    }
    let stopped = if c == WHITE {
        stopped_white(theirs, blockers)
    } else {
        stopped_black(theirs, blockers)
    };
    let r = ours & !stopped;
    proof {
        reveal(eval::passed);
        let cells = pos.cells();
        let d = 1 - c;
        let f = |s: int| cells[s] == c * 6 && eval::passed(cells, s);
        assert forall|s: int| geom::is_sq(s) implies (#[trigger] bits::mem(r, s) <==> f(s)) by {
            if bits::mem(ours, s) {
                assert(cells[s] / 6 == c);
                if bits::mem(stopped, s) {
                    let x = choose|x: int| #[trigger] bits::mem(theirs, x) && stops(c as int, s, x);
                    assert(cells[x] == d * 6);
                }
                if !eval::passed(cells, s) {
                    let x = choose|x: int|
                        geom::is_sq(x) && #[trigger] cells[x] == d * 6 && geom::abs(
                            geom::fl(x) - geom::fl(s),
                        ) <= 1 && eval::in_front(c as int, s, x);
                    assert(bits::mem(theirs, x) && stops(c as int, s, x));
                }
            }
        }
        geom::lemma_is_set(r, f);
    }
    r
}

/// An enemy pawn on `x` stops a pawn of `c` on `s`.
spec fn stops(c: int, s: int, x: int) -> bool {
    geom::abs(geom::fl(x) - geom::fl(s)) <= 1 && eval::in_front(c, s, x)
}

/// Some member of `b` is on the rank of `y`, on the same or a neighbouring
/// file.
spec fn beside(b: u64, y: int) -> bool {
    exists|x: int| #[trigger]
        bits::mem(b, x) && geom::rk(x) == geom::rk(y) && geom::abs(geom::fl(x) - geom::fl(y)) <= 1
}

/// A blocker on `y`, on the file of `s` and ahead of it, comes from a pawn that
/// stops `s`.
proof fn lemma_stops_from(theirs: u64, c: int, s: int, y: int)
    requires
        geom::is_sq(s),
        geom::is_sq(y),
        geom::fl(y) == geom::fl(s),
        eval::in_front(c, s, y),
        beside(theirs, y),
    ensures
        exists|x: int| #[trigger] bits::mem(theirs, x) && stops(c, s, x),
{
    let x = choose|x: int| #[trigger]
        bits::mem(theirs, x) && geom::rk(x) == geom::rk(y) && geom::abs(geom::fl(x) - geom::fl(y))
            <= 1;
    assert(stops(c, s, x));
}

/// A pawn on `x` that stops `s` makes a blocker on the file of `s`.
proof fn lemma_stops_into(theirs: u64, c: int, s: int, x: int) -> (y: int)
    requires
        geom::is_sq(s),
        bits::mem(theirs, x),
        stops(c, s, x),
    ensures
        geom::is_sq(y),
        geom::fl(y) == geom::fl(s),
        geom::rk(y) == geom::rk(x),
        eval::in_front(c, s, y),
        beside(theirs, y),
{
    let y = geom::rk(x) * 8 + geom::fl(s);
    assert(geom::rk(y) == geom::rk(x) && geom::fl(y) == geom::fl(s));
    y
}

fn stopped_white(theirs: Bb, blockers: Bb) -> (r: Bb)
    requires
        forall|y: int| geom::is_sq(y) ==> (#[trigger] bits::mem(blockers, y) <==> beside(theirs, y)),
    ensures
        forall|s: int| #[trigger]
            bits::mem(r, s) <==> geom::is_sq(s) && exists|x: int| #[trigger]
                bits::mem(theirs, x) && stops(0, s, x),
{
    let d = blockers >> 8;
    let r = sfill(d);
    proof {
        assert forall|s: int| #[trigger] bits::mem(r, s) <==> geom::is_sq(s) && exists|x: int|
            #[trigger] bits::mem(theirs, x) && stops(0, s, x) by {
            if bits::mem(r, s) {
                let q = choose|q: int| #[trigger]
                    bits::mem(d, q) && geom::fl(q) == geom::fl(s) && geom::rk(q) >= geom::rk(s);
                bits::lemma_mem_shr(blockers, 8, q);
                assert(bits::mem(blockers, q + 8));
                lemma_stops_from(theirs, 0, s, q + 8);
            }
            if geom::is_sq(s) && exists|x: int| #[trigger] bits::mem(theirs, x) && stops(0, s, x) {
                let x = choose|x: int| #[trigger] bits::mem(theirs, x) && stops(0, s, x);
                let y = lemma_stops_into(theirs, 0, s, x);
                assert(bits::mem(blockers, y));
                bits::lemma_mem_shr(blockers, 8, y - 8);
                assert(bits::mem(d, y - 8));
            }
        }
    }
    r
}

fn stopped_black(theirs: Bb, blockers: Bb) -> (r: Bb)
    requires
        forall|y: int| geom::is_sq(y) ==> (#[trigger] bits::mem(blockers, y) <==> beside(theirs, y)),
    ensures
        forall|s: int| #[trigger]
            bits::mem(r, s) <==> geom::is_sq(s) && exists|x: int| #[trigger]
                bits::mem(theirs, x) && stops(1, s, x),
{
    let u = blockers << 8;
    let r = nfill(u);
    proof {
        assert forall|s: int| #[trigger] bits::mem(r, s) <==> geom::is_sq(s) && exists|x: int|
            #[trigger] bits::mem(theirs, x) && stops(1, s, x) by {
            if bits::mem(r, s) {
                let q = choose|q: int| #[trigger]
                    bits::mem(u, q) && geom::fl(q) == geom::fl(s) && geom::rk(q) <= geom::rk(s);
                bits::lemma_mem_shl(blockers, 8, q);
                assert(bits::mem(blockers, q - 8));
                lemma_stops_from(theirs, 1, s, q - 8);
            }
            if geom::is_sq(s) && exists|x: int| #[trigger] bits::mem(theirs, x) && stops(1, s, x) {
                let x = choose|x: int| #[trigger] bits::mem(theirs, x) && stops(1, s, x);
                let y = lemma_stops_into(theirs, 1, s, x);
                assert(bits::mem(blockers, y));
                bits::lemma_mem_shl(blockers, 8, y + 8);
                assert(bits::mem(u, y + 8));
            }
        }
    }
    r
}

/// A smeared set holds the members and their neighbours on the rank.
proof fn lemma_blocker(b: u64, w: u64, e: u64, s: int)
    requires
        forall|x: int| #[trigger]
            bits::mem(w, x) <==> geom::is_sq(x) && geom::fl(x) < 7 && bits::mem(b, x + 1),
        forall|x: int| #[trigger]
            bits::mem(e, x) <==> geom::is_sq(x) && geom::fl(x) > 0 && bits::mem(b, x - 1),
        geom::is_sq(s),
    ensures
        bits::mem(b | w | e, s) <==> beside(b, s),
{
    if beside(b, s) {
        let x = choose|x: int| #[trigger]
            bits::mem(b, x) && geom::rk(x) == geom::rk(s) && geom::abs(geom::fl(x) - geom::fl(s))
                <= 1;
        assert(x == s || x == s + 1 || x == s - 1);
        assert(bits::mem(w, s) || !bits::mem(w, s));
        assert(bits::mem(e, s) || !bits::mem(e, s));
    }
    if bits::mem(b | w | e, s) {
        assert(bits::mem(b, s) || bits::mem(b, s + 1) || bits::mem(b, s - 1));
    }
}

/// Rooks on open and half-open files.
fn rook_files(pos: &Position, c: usize, ours: Bb, theirs: Bb) -> (r: (usize, usize))
    requires
        pos.board_ok(),
        c < 2,
        ours == pos.of(c as int, 0),
        theirs == pos.of(1 - c, 0),
    ensures
        r.0 == rook_count(pos.cells(), c as int, 0),
        r.1 == rook_count(pos.cells(), c as int, 1),
        r.0 <= 64,
        r.1 <= 64,
{
    let ghost cells = pos.cells();
    let all = pos.pieces(c, ROOK_P);
    let mut b = all;
    let (mut open, mut semi): (Bb, Bb) = (0, 0);
    while b != 0
        invariant
            pos.board_ok(),
            c < 2,
            cells == pos.cells(),
            ours == pos.of(c as int, 0),
            theirs == pos.of(1 - c, 0),
            all == pos.of(c as int, 3),
            forall|x: int| #[trigger] bits::mem(b, x) ==> bits::mem(all, x),
            forall|x: int| #[trigger]
                bits::mem(open, x) <==> bits::mem(all, x) && !bits::mem(b, x) && eval::rook_file(
                    cells,
                    x,
                ) == 0,
            forall|x: int| #[trigger]
                bits::mem(semi, x) <==> bits::mem(all, x) && !bits::mem(b, x) && eval::rook_file(
                    cells,
                    x,
                ) == 1,
        decreases b,
    {
        proof {
            bits::lemma_rest(b);
            bits::lemma_low(b);
            bits::lemma_rest_smaller(b);
        }
        let sq = pop_lsb(&mut b);
        proof {
            reveal(eval::rook_file);
            pos::lemma_cells(*pos, sq as int);
            assert(pos.of(c as int, 3) == all);
            assert(cells[sq as int] / 6 == c);
        }
        let f = file_of(sq);
        if !on_file(pos, ours, Ghost(c as int), f) {
            if !on_file(pos, theirs, Ghost(1 - c), f) {
                open = open | crate::bb::bit(sq);
            } else {
                semi = semi | crate::bb::bit(sq);
            }
        }
    }
    proof {
        let f = |s: int| cells[s] == c * 6 + 3 && eval::rook_file(cells, s) == 0;
        let g = |s: int| cells[s] == c * 6 + 3 && eval::rook_file(cells, s) == 1;
        assert forall|s: int| geom::is_sq(s) implies (#[trigger] bits::mem(open, s) <==> f(s)) by {
            pos::lemma_cells(*pos, s);
            assert(pos.of(c as int, 3) == all);
        }
        assert forall|s: int| geom::is_sq(s) implies (#[trigger] bits::mem(semi, s) <==> g(s)) by {
            pos::lemma_cells(*pos, s);
            assert(pos.of(c as int, 3) == all);
        }
        geom::lemma_is_set(open, f);
        geom::lemma_is_set(semi, g);
    }
    (popcount(open) as usize, popcount(semi) as usize)
}

/// The passed-pawn facts of colour `c`.
fn put_passed(
    c: usize,
    set: Bb,
    out: &mut Lists,
    Ghost(l): Ghost<Seq<Fact>>,
    Ghost(a0): Ghost<Seq<u16>>,
    Ghost(b0): Ghost<Seq<u16>>,
)
    requires
        c < 2,
        old(out).holds(l, a0, b0),
    ensures
        final(out).holds(l + list_over(set, passed_fn(c as int)), a0, b0),
        final(out).persp == old(out).persp,
{
    let ghost f = passed_fn(c as int);
    let ghost all = l + list_over(set, f);
    let ghost mut cur = l;
    let mut b = set;
    while b != 0
        invariant
            c < 2,
            f == passed_fn(c as int),
            out.holds(cur, a0, b0),
            out.persp == old(out).persp,
            cur + list_over(b, f) == all,
        decreases b,
    {
        proof {
            lemma_list_step(cur, b, f);
        }
        let sq = pop_lsb(&mut b);
        let r = if c == WHITE {
            rank_of(sq)
        } else {
            7 - rank_of(sq)
        };
        out.put(PASSED, 8, c, r, r, Ghost(cur), Ghost(a0), Ghost(b0));
        proof {
            cur = cur.push(f(sq as int));
        }
    }
    proof {
        lemma_list_done(cur, f);
    }
}

/// The facts of one side. Returns the number of its officers that bear on the
/// enemy king.
fn put_side(
    pos: &Position,
    t: &Tables,
    c: usize,
    out: &mut Lists,
    Ghost(l): Ghost<Seq<Fact>>,
    Ghost(a0): Ghost<Seq<u16>>,
    Ghost(b0): Ghost<Seq<u16>>,
) -> (r: usize)
    requires
        pos.board_ok(),
        c < 2,
        geom::is_sq(pos.king(1 - c)),
        old(out).holds(l, a0, b0),
    ensures
        final(out).holds(l + side_facts(*pos, c as int), a0, b0),
        final(out).persp == old(out).persp,
        r == bearing_from(*pos, c as int, 1, pos.king(1 - c)),
        r <= 256,
{
    let ghost cells = pos.cells();
    let zone_bb = king_zone(t, pos.king_sq(1 - c));
    put_pieces(pos, c, out, Ghost(l), Ghost(a0), Ghost(b0));
    let ghost l1 = l + placed_from(*pos, c as int, 0);
    let n = put_mobility(
        pos,
        t,
        c,
        zone_bb,
        out,
        Ghost(pos.king(1 - c)),
        Ghost(l1),
        Ghost(a0),
        Ghost(b0),
    );
    let ghost l2 = l1 + mob_from(*pos, c as int, 1);
    let ours = pawns_of(pos, c);
    let theirs = pawns_of(pos, 1 - c);
    let set = passed_pawns(pos, c, ours, theirs);
    put_passed(c, set, out, Ghost(l2), Ghost(a0), Ghost(b0));
    let ghost l3 = l2 + list_over(passed_set(*pos, c as int), passed_fn(c as int));
    let v = min_usize(isolated_pawns(pos, c, ours), 3);
    out.put(ISOLATED, 4, c, v, v, Ghost(l3), Ghost(a0), Ghost(b0));
    let ghost l4 = l3.push(structure(*pos, c as int)[0]);
    let v = min_usize(doubled_pawns(pos, c, ours), 3);
    out.put(DOUBLED, 4, c, v, v, Ghost(l4), Ghost(a0), Ghost(b0));
    let ghost l5 = l4.push(structure(*pos, c as int)[1]);
    let (open, semi) = rook_files(pos, c, ours, theirs);
    let v = min_usize(open, 2);
    out.put(ROOK_OPEN, 3, c, v, v, Ghost(l5), Ghost(a0), Ghost(b0));
    let ghost l6 = l5.push(structure(*pos, c as int)[2]);
    let v = min_usize(semi, 2);
    out.put(ROOK_SEMI, 3, c, v, v, Ghost(l6), Ghost(a0), Ghost(b0));
    let ghost l7 = l6.push(structure(*pos, c as int)[3]);
    proof {
        assert(l7 =~= l3 + structure(*pos, c as int));
    }
    let pair = pos.pieces(c, BISHOP_P);
    proof {
        reveal(Position::has_pair);
        let f = |s: int| pos.cells()[s] == c * 6 + 2;
        assert forall|x: int| geom::is_sq(x) implies (#[trigger] bits::mem(pair, x) <==> f(x)) by {
            pos::lemma_cells(*pos, x);
            assert(pos.of(c as int, 2) == pair);
        }
        geom::lemma_is_set(pair, f);
    }
    if more_than_one(pair) {
        out.put(PAIR, 1, c, 0, 0, Ghost(l7), Ghost(a0), Ghost(b0));
        proof {
            assert(l7.push(plain(908, 1, c as int, 0)) =~= l7 + pair_fact(*pos, c as int));
        }
    } else {
        proof {
            assert(l7 =~= l7 + pair_fact(*pos, c as int));
        }
    }
    proof {
        assert(l + side_facts(*pos, c as int) =~= l7 + pair_fact(*pos, c as int));
    }
    n
}

/// The facts about one king.
fn put_king(
    pos: &Position,
    t: &Tables,
    c: usize,
    bearing: usize,
    out: &mut Lists,
    Ghost(l): Ghost<Seq<Fact>>,
    Ghost(a0): Ghost<Seq<u16>>,
    Ghost(b0): Ghost<Seq<u16>>,
)
    requires
        pos.board_ok(),
        c < 2,
        geom::is_sq(pos.king(c as int)),
        bearing == bearing_from(*pos, 1 - c, 1, pos.king(c as int)),
        old(out).holds(l, a0, b0),
    ensures
        final(out).holds(l + king_facts(*pos, c as int), a0, b0),
        final(out).persp == old(out).persp,
{
    let ghost cells = pos.cells();
    let ghost k = pos.king(c as int);
    let v = min_usize(bearing, 7);
    out.put(KING_ATT, 8, c, v, v, Ghost(l), Ghost(a0), Ghost(b0));
    let ghost l1 = l.push(king_facts(*pos, c as int)[0]);
    let ours = pawns_of(pos, c);
    let near = king_zone(t, pos.king_sq(c)) & ours;
    proof {
        let f = |s: int| cells[s] == c * 6 && eval::zone(k, s);
        assert forall|s: int| geom::is_sq(s) implies (#[trigger] bits::mem(near, s) <==> f(s)) by {}
        geom::lemma_is_set(near, f);
    }
    let v = min_usize(popcount(near) as usize, 3);
    out.put(SHELTER, 4, c, v, v, Ghost(l1), Ghost(a0), Ghost(b0));
    proof {
        assert(l1.push(king_facts(*pos, c as int)[1]) =~= l + king_facts(*pos, c as int));
    }
}

/// The active feature indices for a position, from both perspectives at once.
/// `a` receives `persp`'s view, `b` receives the opponent's. Returns their
/// number; the rest of the lists keeps what it held.
pub fn features_both(pos: &Position, t: &Tables, persp: usize, a: &mut [u16; 96], b: &mut [u16; 96]) -> (n:
    usize)
    requires
        pos.board_ok(),
        persp < 2,
        geom::is_sq(pos.king(0)),
        geom::is_sq(pos.king(1)),
    ensures
        n <= MAX_F,
        n == rows(*pos, persp as int).len(),
        forall|i: int|
            0 <= i < n ==> #[trigger] final(a)@[i] == rows(*pos, persp as int)[i] && final(a)@[i]
                < IN,
        forall|i: int|
            0 <= i < n ==> #[trigger] final(b)@[i] == rows(*pos, 1 - persp)[i] && final(b)@[i] < IN,
        forall|i: int| n <= i < 96 ==> #[trigger] final(a)@[i] == old(a)@[i],
        forall|i: int| n <= i < 96 ==> #[trigger] final(b)@[i] == old(b)@[i],
{
    let ghost (a0, b0) = (a@, b@);
    let mut out = Lists { a: *a, b: *b, n: 0, persp };
    let ghost l0 = Seq::<Fact>::empty();
    let w = put_side(pos, t, 0, &mut out, Ghost(l0), Ghost(a0), Ghost(b0));
    let ghost l1 = l0 + side_facts(*pos, 0);
    let k = put_side(pos, t, 1, &mut out, Ghost(l1), Ghost(a0), Ghost(b0));
    let ghost l2 = l1 + side_facts(*pos, 1);
    put_king(pos, t, 0, k, &mut out, Ghost(l2), Ghost(a0), Ghost(b0));
    let ghost l3 = l2 + king_facts(*pos, 0);
    put_king(pos, t, 1, w, &mut out, Ghost(l3), Ghost(a0), Ghost(b0));
    proof {
        assert(l0 + side_facts(*pos, 0) =~= side_facts(*pos, 0));
        let l = facts(*pos);
        assert(l3 + king_facts(*pos, 1) =~= l);
        assert(forall|i: int| 0 <= i < l.len() ==> in_block(#[trigger] l[i]));
    }
    *a = out.a;
    *b = out.b;
    out.n
}

/// Single-perspective view, for the training-data dump.
pub fn features(pos: &Position, t: &Tables, persp: usize, out: &mut [u16; 96]) -> (n: usize)
    requires
        pos.board_ok(),
        persp < 2,
        geom::is_sq(pos.king(0)),
        geom::is_sq(pos.king(1)),
    ensures
        n <= MAX_F,
        n == rows(*pos, persp as int).len(),
        forall|i: int|
            0 <= i < n ==> #[trigger] final(out)@[i] == rows(*pos, persp as int)[i]
                && final(out)@[i] < IN,
        forall|i: int| n <= i < 96 ==> #[trigger] final(out)@[i] == old(out)@[i],
{
    let mut other: [u16; 96] = [0;96];
    features_both(pos, t, persp, out, &mut other)
}

/// The output bucket for a number of pieces: eight equal steps.
pub open spec fn bucket(pieces: int) -> int {
    if pieces <= 1 {
        0
    } else {
        eval::min((pieces - 1) * 8 / 32, 7)
    }
}

/// Output bucket, from the number of pieces left. Must match the trainer.
#[inline(always)]
pub fn bucket_of(pieces: usize) -> (r: usize)
    ensures
        r == bucket(pieces as int),
        r < BUCKETS,
{
    let n = if pieces > 32 {
        32
    } else {
        pieces
    };
    if n == 0 {
        0
    } else {
        min_usize((n - 1) * BUCKETS / 32, BUCKETS - 1)
    }
}

} // verus!
