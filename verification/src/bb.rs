//! Bitboard primitives and magic sliding-attack tables.
//!
//! Magics are *searched* at construction rather than written down as
//! constants: the search accepts a candidate only after checking it against
//! the plain ray walk on every relevant occupancy.

use vstd::prelude::*;
use crate::bits;
use crate::geom;

verus! {

broadcast use {crate::bits::group_mem, crate::geom::group_geom};

pub type Bb = u64;

pub const FILE_A: Bb = 0x0101_0101_0101_0101;

pub const FILE_H: Bb = FILE_A << 7;

pub const RANK_1: Bb = 0xFF;

pub const RANK_8: Bb = RANK_1 << 56;

// ---------------------------------------------------------------------------
// Primitives
// ---------------------------------------------------------------------------

#[inline(always)]
pub fn bit(sq: usize) -> (r: Bb)
    requires
        sq < 64,
    ensures
        r == bits::one(sq as int),
{
    1u64 << sq
}

#[inline(always)]
pub fn file_of(sq: usize) -> (r: usize)
    ensures
        r == geom::fl(sq as int),
        r < 8,
{
    sq % 8
}

#[inline(always)]
pub fn rank_of(sq: usize) -> (r: usize)
    ensures
        r == geom::rk(sq as int),
{
    sq / 8
}

/// Lowest set bit index; 64 for the empty set.
#[inline(always)]
pub fn lsb(b: Bb) -> (r: usize)
    ensures
        r == bits::low(b),
        r <= 64,
        r == 64 <==> b == 0,
        b != 0 ==> bits::mem(b, r as int),
        forall|s: int| #[trigger] bits::mem(b, s) ==> s >= r,
{
    proof {
        bits::lemma_low(b);
    }
    b.trailing_zeros() as usize
}

/// Pop the lowest set bit and return its index.
#[inline(always)]
pub fn pop_lsb(b: &mut Bb) -> (s: usize)
    requires
        *old(b) != 0,
    ensures
        s == bits::low(*old(b)),
        s < 64,
        bits::mem(*old(b), s as int),
        *final(b) == bits::rest(*old(b)),
        *final(b) < *old(b),
        forall|x: int| #[trigger]
            bits::mem(*final(b), x) == (bits::mem(*old(b), x) && x != s as int),
{
    let s = lsb(*b);
    proof {
        bits::lemma_rest(*b);
        bits::lemma_rest_smaller(*b);
    }
    *b = *b & (*b - 1);
    s
}

/// Number of squares in the set.
#[inline(always)]
pub fn popcount(b: Bb) -> (r: u32)
    ensures
        r == bits::card(b),
        r <= 64,
{
    let mut x = b;
    let mut n: u32 = 0;
    proof {
        bits::lemma_card_64(b);
    }
    while x != 0
        invariant
            n + bits::card(x) == bits::card(b),
            bits::card(b) <= 64,
        decreases x,
    {
        proof {
            bits::lemma_rest_smaller(x);
        }
        x = x & (x - 1);
        n = n + 1;
    }
    n
}

#[inline(always)]
pub fn more_than_one(b: Bb) -> (r: bool)
    ensures
        r == (bits::card(b) > 1),
{
    proof {
        reveal_with_fuel(bits::card, 3);
        if b != 0 {
            bits::lemma_card_one(bits::rest(b));
        } else {
            assert(0u64 & 0xFFFF_FFFF_FFFF_FFFFu64 == 0) by (bit_vector);
        }
    }
    b & b.wrapping_sub(1) != 0
}

/// The squares of file `f`.
pub proof fn lemma_file_a(s: int)
    ensures
        bits::mem(FILE_A, s) <==> 0 <= s < 64 && geom::fl(s) == 0,
{
    reveal(bits::mem);
    let k = s as u64;
    assert(k < 64 ==> ((0x0101_0101_0101_0101u64 >> k) & 1u64 == 1u64 <==> k % 8 == 0))
        by (bit_vector);
}

pub proof fn lemma_rank_1(s: int)
    ensures
        bits::mem(RANK_1, s) <==> 0 <= s < 8,
{
    reveal(bits::mem);
    let k = s as u64;
    assert(k < 64 ==> ((0xFFu64 >> k) & 1u64 == 1u64 <==> k < 8)) by (bit_vector);
}

/// Membership of the edge files and ranks.
pub broadcast proof fn lemma_edges(s: int)
    ensures
        #[trigger] bits::mem(FILE_A, s) <==> 0 <= s < 64 && geom::fl(s) == 0,
        #[trigger] bits::mem(FILE_H, s) <==> 0 <= s < 64 && geom::fl(s) == 7,
        #[trigger] bits::mem(RANK_1, s) <==> 0 <= s < 64 && geom::rk(s) == 0,
        #[trigger] bits::mem(RANK_8, s) <==> 0 <= s < 64 && geom::rk(s) == 7,
{
    lemma_file_a(s);
    lemma_file_a(s - 7);
    lemma_rank_1(s);
    lemma_rank_1(s - 56);
    if 0 <= s < 64 {
        bits::lemma_mem_shl(FILE_A, 7, s);
        bits::lemma_mem_shl(RANK_1, 56, s);
    }
}

/// What stepping a set sideways or forward does to membership.
pub proof fn lemma_steps(b: u64, s: int)
    ensures
        bits::mem(east_bb(b), s) <==> geom::is_sq(s) && geom::fl(s) > 0 && bits::mem(b, s - 1),
        bits::mem(west_bb(b), s) <==> geom::is_sq(s) && geom::fl(s) < 7 && bits::mem(b, s + 1),
        bits::mem(push_bb(b, 0), s) <==> geom::is_sq(s) && bits::mem(b, s - 8),
        bits::mem(push_bb(b, 1), s) <==> geom::is_sq(s) && bits::mem(b, s + 8),
{
    if geom::is_sq(s) {
        bits::lemma_mem_shl(b & !FILE_H, 1, s);
        lemma_edges(s - 1);
        bits::lemma_mem_and(b, !FILE_H, s - 1);
        if s > 0 {
            bits::lemma_mem_not(FILE_H, s - 1);
        }
        bits::lemma_mem_shr(b & !FILE_A, 1, s);
        lemma_edges(s + 1);
        bits::lemma_mem_and(b, !FILE_A, s + 1);
        if s < 63 {
            bits::lemma_mem_not(FILE_A, s + 1);
        }
        bits::lemma_mem_shl(b, 8, s);
        bits::lemma_mem_shr(b, 8, s);
    }
}

pub open spec fn east_bb(b: u64) -> u64 {
    (b & !FILE_H) << 1
}

pub open spec fn west_bb(b: u64) -> u64 {
    (b & !FILE_A) >> 1
}

pub open spec fn push_bb(b: u64, side: int) -> u64 {
    if side == 0 {
        b << 8
    } else {
        b >> 8
    }
}

#[inline(always)]
pub fn east(b: Bb) -> (r: Bb)
    ensures
        r == east_bb(b),
        forall|s: int| #[trigger]
            bits::mem(r, s) <==> geom::is_sq(s) && geom::fl(s) > 0 && bits::mem(b, s - 1),
{
    let r = (b & !FILE_H) << 1;
    proof {
        assert forall|s: int| #[trigger] bits::mem(r, s) <==> geom::is_sq(s) && geom::fl(s) > 0
            && bits::mem(b, s - 1) by {
            lemma_steps(b, s);
        }
    }
    r
}

#[inline(always)]
pub fn west(b: Bb) -> (r: Bb)
    ensures
        r == west_bb(b),
        forall|s: int| #[trigger]
            bits::mem(r, s) <==> geom::is_sq(s) && geom::fl(s) < 7 && bits::mem(b, s + 1),
{
    let r = (b & !FILE_A) >> 1;
    proof {
        assert forall|s: int| #[trigger] bits::mem(r, s) <==> geom::is_sq(s) && geom::fl(s) < 7
            && bits::mem(b, s + 1) by {
            lemma_steps(b, s);
        }
    }
    r
}

/// Forward by one rank from `side`'s point of view (0 = white).
#[inline(always)]
pub fn push(b: Bb, side: usize) -> (r: Bb)
    ensures
        r == push_bb(b, side as int),
        forall|s: int| #[trigger]
            bits::mem(r, s) <==> geom::is_sq(s) && bits::mem(
                b,
                if side == 0 {
                    s - 8
                } else {
                    s + 8
                },
            ),
{
    let r = if side == 0 {
        b << 8
    } else {
        b >> 8
    };
    proof {
        assert forall|s: int| #[trigger] bits::mem(r, s) <==> geom::is_sq(s) && bits::mem(
            b,
            if side == 0 {
                s - 8
            } else {
                s + 8
            },
        ) by {
            lemma_steps(b, s);
            assert(r == push_bb(b, if side == 0 { 0 } else { 1 }));
        }
    }
    r
}

#[inline(always)]
pub fn file_bb(f: usize) -> (r: Bb)
    requires
        f < 8,
    ensures
        forall|s: int| #[trigger] bits::mem(r, s) <==> geom::is_sq(s) && geom::fl(s) == f,
{
    let r = FILE_A << f;
    proof {
        assert forall|s: int| #[trigger] bits::mem(r, s) <==> geom::is_sq(s) && geom::fl(s) == f by {
            if geom::is_sq(s) {
                bits::lemma_mem_shl(FILE_A, f as u64, s);
                lemma_file_a(s - f);
            }
        }
    }
    r
}

#[inline(always)]
pub fn rank_bb(r: usize) -> (b: Bb)
    requires
        r < 8,
    ensures
        forall|s: int| #[trigger] bits::mem(b, s) <==> geom::is_sq(s) && geom::rk(s) == r,
{
    let b = RANK_1 << (r * 8);
    proof {
        assert forall|s: int| #[trigger] bits::mem(b, s) <==> geom::is_sq(s) && geom::rk(s) == r by {
            if geom::is_sq(s) {
                bits::lemma_mem_shl(RANK_1, (r * 8) as u64, s);
                lemma_rank_1(s - r * 8);
            }
        }
    }
    b
}

// ---------------------------------------------------------------------------
// Rays
// ---------------------------------------------------------------------------

/// One ray from `sq`, up to and including its first blocker.
fn ray(sq: usize, occ: Bb, df: i32, dr: i32) -> (out: Bb)
    requires
        sq < 64,
        geom::is_dir(df as int, dr as int),
    ensures
        forall|s: int| #[trigger]
            bits::mem(out, s) <==> geom::is_sq(s) && geom::ray_sees(
                sq as int,
                df as int,
                dr as int,
                s,
                occ,
            ),
{
    let ghost a = sq as int;
    let ghost (x, y) = (df as int, dr as int);
    let mut f: i32 = file_of(sq) as i32 + df;
    let mut r: i32 = rank_of(sq) as i32 + dr;
    let mut out: u64 = 0;
    let ghost mut k: int = 1;
    while 0 <= f && f < 8 && 0 <= r && r < 8
        invariant
            sq < 64,
            a == sq,
            x == df,
            y == dr,
            geom::is_dir(x, y),
            1 <= k <= 8,
            -1 <= f <= 8,
            -1 <= r <= 8,
            f == geom::fl(a) + (if df == 0 {
                0int
            } else if df == 1 {
                k
            } else {
                -k
            }),
            r == geom::rk(a) + (if dr == 0 {
                0int
            } else if dr == 1 {
                k
            } else {
                -k
            }),
            forall|s: int| #[trigger]
                bits::mem(out, s) <==> geom::is_sq(s) && geom::ahead(a, x, y, s) && geom::dist(a, s)
                    < k,
            forall|s: int|
                geom::is_sq(s) && geom::ahead(a, x, y, s) && geom::dist(a, s) < k
                    ==> !#[trigger] bits::mem(occ, s),
        decreases 9 - k,
    {
        let s = (r * 8 + f) as usize;
        let ghost out0 = out;
        out = out | bit(s);
        proof {
            assert(geom::fl(s as int) == f && geom::rk(s as int) == r);
            assert(geom::ahead(a, x, y, s as int) && geom::dist(a, s as int) == k);
            assert forall|t: int| #[trigger] bits::mem(out, t) <==> geom::is_sq(t) && geom::ahead(
                a,
                x,
                y,
                t,
            ) && geom::dist(a, t) < k + 1 by {
                if geom::is_sq(t) && geom::ahead(a, x, y, t) && geom::dist(a, t) == k {
                    geom::lemma_ahead_unique(a, x, y, s as int, t);
                }
            }
        }
        if occ & bit(s) != 0 {
            proof {
                assert forall|t: int| #[trigger]
                    bits::mem(out, t) <==> geom::is_sq(t) && geom::ray_sees(a, x, y, t, occ) by {
                    if geom::is_sq(t) && geom::ahead(a, x, y, t) {
                        if geom::dist(a, t) <= k {
                            assert forall|u: int| geom::btw(a, u, t) implies !bits::mem(occ, u) by {
                                geom::lemma_ahead_btw(a, x, y, t, u);
                            }
                        } else {
                            geom::lemma_ahead_btw(a, x, y, t, s as int);
                            assert(bits::mem(occ, s as int));
                        }
                    }
                }
            }
            return out;
        }
        proof {
            assert forall|t: int|
                geom::is_sq(t) && geom::ahead(a, x, y, t) && geom::dist(a, t) < k + 1
                implies !#[trigger] bits::mem(occ, t) by {
                if geom::dist(a, t) == k {
                    geom::lemma_ahead_unique(a, x, y, s as int, t);
                }
            }
            k = k + 1;
        }
        f = f + df;
        r = r + dr;
    }
    proof {
        assert forall|t: int| #[trigger]
            bits::mem(out, t) <==> geom::is_sq(t) && geom::ray_sees(a, x, y, t, occ) by {
            if geom::is_sq(t) && geom::ahead(a, x, y, t) {
                assert(geom::dist(a, t) < k);
                assert forall|u: int| geom::btw(a, u, t) implies !bits::mem(occ, u) by {
                    geom::lemma_ahead_btw(a, x, y, t, u);
                }
            }
        }
    }
    out
}

/// Ray attacks computed the slow, obviously-correct way: the oracle the magic
/// search is validated against.
fn slide(sq: usize, occ: Bb, rook: bool) -> (out: Bb)
    requires
        sq < 64,
    ensures
        out == if rook {
            geom::rook_bb(sq as int, occ)
        } else {
            geom::bishop_bb(sq as int, occ)
        },
{
    let out = if rook {
        ray(sq, occ, 0, 1) | ray(sq, occ, 0, -1) | ray(sq, occ, 1, 0) | ray(sq, occ, -1, 0)
    } else {
        ray(sq, occ, 1, 1) | ray(sq, occ, 1, -1) | ray(sq, occ, -1, 1) | ray(sq, occ, -1, -1)
    };
    proof {
        let a = sq as int;
        let want = if rook {
            geom::rook_bb(a, occ)
        } else {
            geom::bishop_bb(a, occ)
        };
        assert forall|s: int| 0 <= s < 64 implies bits::mem(out, s) == bits::mem(want, s) by {
            geom::lemma_orth_rays(a, s);
            geom::lemma_diag_rays(a, s);
        }
        bits::lemma_ext(out, want);
    }
    out
}


/// What a rook (or bishop) on `a` attacks.
pub open spec fn slide_bb(rook: bool, a: int, occ: u64) -> u64 {
    if rook {
        geom::rook_bb(a, occ)
    } else {
        geom::bishop_bb(a, occ)
    }
}

/// The squares whose occupancy can change what a slider on `a` attacks.
pub open spec fn relevant(rook: bool, a: int, s: int) -> bool {
    &&& if rook {
        geom::orth(a, s)
    } else {
        geom::diag(a, s)
    }
    &&& 0 < geom::fl(s) < 7 || geom::fl(s) == geom::fl(a)
    &&& 0 < geom::rk(s) < 7 || geom::rk(s) == geom::rk(a)
}

pub open spec fn mask_bb(rook: bool, a: int) -> u64 {
    geom::set_of(|s: int| relevant(rook, a, s))
}

proof fn lemma_mask_bb(rook: bool, a: int, s: int)
    ensures
        bits::mem(mask_bb(rook, a), s) <==> geom::is_sq(s) && relevant(rook, a, s),
{
    geom::lemma_set_of(|x: int| relevant(rook, a, x), s);
}

/// At most twelve squares are relevant, and at least one is.
proof fn lemma_mask_size(rook: bool, a: int)
    requires
        geom::is_sq(a),
    ensures
        1 <= bits::card(mask_bb(rook, a)) <= 12,
{
    let m = mask_bb(rook, a);
    let (f, r) = (geom::fl(a), geom::rk(a));
    let q: Seq<int> = if rook {
        Seq::new(12, |i: int| if i < 6 { (i + 1) * 8 + f } else { r * 8 + (i - 5) })
    } else {
        Seq::new(
            12,
            |i: int| if i < 6 { (r + (i + 1 - f)) * 8 + i + 1 } else { (r - (i - 5 - f)) * 8 + i - 5 },
        )
    };
    assert forall|s: int| #[trigger] bits::mem(m, s) implies q.contains(s) by {
        lemma_mask_bb(rook, a, s);
        let i = if rook {
            if geom::fl(s) == f {
                geom::rk(s) - 1
            } else {
                geom::fl(s) + 5
            }
        } else if geom::fl(s) - f == geom::rk(s) - r {
            geom::fl(s) - 1
        } else {
            geom::fl(s) + 5
        };
        assert(q[i] == s);
    }
    bits::lemma_card_cover(m, q);
    let r2 = if r <= 3 {
        r + 1
    } else {
        r - 1
    };
    let f2 = if rook {
        f
    } else if f <= 3 {
        f + 1
    } else {
        f - 1
    };
    let w = r2 * 8 + f2;
    assert(geom::fl(w) == f2 && geom::rk(w) == r2);
    lemma_mask_bb(rook, a, w);
    bits::lemma_card_one(m);
}

/// A blocker on the rim cannot change what is attacked beyond it.
proof fn lemma_mask_enough(rook: bool, a: int, occ: u64)
    requires
        geom::is_sq(a),
    ensures
        slide_bb(rook, a, occ & mask_bb(rook, a)) == slide_bb(rook, a, occ),
{
    let o2 = occ & mask_bb(rook, a);
    let (x, y) = (slide_bb(rook, a, occ), slide_bb(rook, a, o2));
    assert forall|b: int| 0 <= b < 64 implies bits::mem(x, b) == bits::mem(y, b) by {
        if (rook && geom::orth(a, b)) || (!rook && geom::diag(a, b)) {
            assert forall|s: int| geom::btw(a, s, b) implies (bits::mem(occ, s) == bits::mem(
                o2,
                s,
            )) by {
                lemma_mask_bb(rook, a, s);
                assert(relevant(rook, a, s));
            }
            assert(geom::clear(a, b, occ) == geom::clear(a, b, o2));
        }
    }
    bits::lemma_ext(x, y);
}

/// Relevant-occupancy mask: the ray squares minus the board edge. A blocker
/// sitting on the edge cannot change what is attacked beyond it, so those bits
/// carry no information and dropping them shrinks the table.
fn mask(sq: usize, rook: bool) -> (m: Bb)
    requires
        sq < 64,
    ensures
        m == mask_bb(rook, sq as int),
        1 <= bits::card(m) <= 12,
{
    let edges = ((FILE_A | FILE_H) & !file_bb(file_of(sq))) | ((RANK_1 | RANK_8) & !rank_bb(
        rank_of(sq),
    ));
    let m = slide(sq, 0, rook) & !edges;
    proof {
        let a = sq as int;
        let want = mask_bb(rook, a);
        assert forall|s: int| 0 <= s < 64 implies bits::mem(m, s) == bits::mem(want, s) by {
            lemma_edges(s);
            lemma_mask_bb(rook, a, s);
            assert(geom::clear(a, s, 0));
        }
        bits::lemma_ext(m, want);
        lemma_mask_size(rook, a);
    }
    m
}

/// The bits of `idx`, dealt to the squares of `m` from low to high.
pub open spec fn deal(idx: nat, m: u64) -> u64
    decreases m,
{
    if m == 0 {
        0
    } else {
        proof {
            bits::lemma_rest_smaller(m);
        }
        if idx % 2 == 1 {
            bits::one(bits::low(m)) | deal(idx / 2, bits::rest(m))
        } else {
            deal(idx / 2, bits::rest(m))
        }
    }
}

/// The index that deals exactly the squares of `x` inside `m`.
pub open spec fn undeal(x: u64, m: u64) -> nat
    decreases m,
{
    if m == 0 {
        0
    } else {
        proof {
            bits::lemma_rest_smaller(m);
        }
        2 * undeal(x, bits::rest(m)) + if bits::mem(x, bits::low(m)) {
            1nat
        } else {
            0nat
        }
    }
}

/// Every subset of `m` is dealt by some index below `2^card(m)`.
proof fn lemma_deal(x: u64, m: u64)
    ensures
        deal(undeal(x, m), m) == x & m,
        undeal(x, m) < vstd::arithmetic::power2::pow2(bits::card(m)),
    decreases m,
{
    if m == 0 {
        bits::lemma_ext(0, x & m);
        vstd::arithmetic::power2::lemma2_to64();
    } else {
        let r = bits::rest(m);
        let t = bits::low(m);
        bits::lemma_rest_smaller(m);
        bits::lemma_rest(m);
        bits::lemma_low(m);
        lemma_deal(x, r);
        vstd::arithmetic::power2::lemma_pow2_unfold(bits::card(m));
        let d = deal(undeal(x, m), m);
        assert forall|s: int| 0 <= s < 64 implies bits::mem(d, s) == bits::mem(x & m, s) by {
            assert(undeal(x, m) / 2 == undeal(x, r));
        }
        bits::lemma_ext(d, x & m);
    }
}

/// Deposit the bits of `idx` into the set bits of `m`, low to high.
fn scatter(idx: usize, m: Bb) -> (out: Bb)
    ensures
        out == deal(idx as nat, m),
{
    let mut m2 = m;
    let mut i = idx;
    let mut out: u64 = 0;
    proof {
        bits::lemma_ext(deal(idx as nat, m), 0u64 | deal(idx as nat, m));
    }
    while m2 != 0
        invariant
            deal(idx as nat, m) == out | deal(i as nat, m2),
        decreases m2,
    {
        let ghost (o1, i1, m1) = (out, i as nat, m2);
        let s = pop_lsb(&mut m2);
        if i % 2 != 0 {
            out = out | bit(s);
        }
        i = i / 2;
        proof {
            bits::lemma_ext(o1 | deal(i1, m1), out | deal(i as nat, m2));
        }
    }
    proof {
        bits::lemma_ext(out, out | 0u64);
    }
    out
}

/// xorshift64*, fixed seed. Determinism matters: the same seed must produce
/// the same tables on every run.
struct Rng(u64);

spec fn rng_state(x0: u64) -> u64 {
    let x1 = x0 ^ (x0 >> 12);
    let x2 = x1 ^ (x1 << 25);
    x2 ^ (x2 >> 27)
}

spec fn rng_value(x: u64) -> u64 {
    vstd::wrapping::u64_specs::wrapping_mul(x, 0x2545_F491_4F6C_DD1D)
}

impl Rng {
    fn next(&mut self) -> (r: u64)
        ensures
            final(self).0 == rng_state(old(self).0),
            r == rng_value(final(self).0),
    {
        let mut x = self.0;
        x = x ^ (x >> 12);
        x = x ^ (x << 25);
        x = x ^ (x >> 27);
        self.0 = x;
        x.wrapping_mul(0x2545_F491_4F6C_DD1D)
    }

    /// Sparse candidate: good magics have few set bits.
    fn sparse(&mut self) -> (r: u64)
        ensures
            ({
                let a = rng_state(old(self).0);
                let b = rng_state(a);
                let c = rng_state(b);
                final(self).0 == c && r == rng_value(a) & rng_value(b) & rng_value(c)
            }),
    {
        let a = self.next();
        let b = self.next();
        let c = self.next();
        a & b & c
    }
}

// ---------------------------------------------------------------------------
// Magics
// ---------------------------------------------------------------------------

/// Where a square's attack sets live in the shared table. `shift` is zero for a
/// square that has no entries there; such a square is answered by the ray walk.
#[derive(Clone, Copy)]
pub struct Magic {
    pub mask: Bb,
    pub magic: u64,
    pub shift: u32,
    pub offset: u32,
}

/// The hash of one relevant occupancy.
pub open spec fn hash(x: u64, magic: u64, shift: u32) -> u64 {
    vstd::wrapping::u64_specs::wrapping_mul(x, magic) >> shift
}

impl Magic {
    pub open spec fn slot(self, occ: Bb) -> int {
        hash(occ & self.mask, self.magic, self.shift) + self.offset
    }

    /// Looking `occ` up in `att` gives the attacks of a slider on `a`.
    pub open spec fn answers(self, rook: bool, a: int, att: Seq<u64>) -> bool {
        self.shift == 0 || {
            &&& self.shift < 64
            &&& forall|occ: u64|
                0 <= #[trigger] self.slot(occ) < att.len() && att[self.slot(occ)]
                    == slide_bb(rook, a, occ)
        }
    }

    #[inline(always)]
    fn index(&self, occ: Bb) -> (r: usize)
        requires
            0 < self.shift < 64,
            self.slot(occ) <= u32::MAX,
        ensures
            r == self.slot(occ),
    {
        ((occ & self.mask).wrapping_mul(self.magic) >> self.shift) as usize + self.offset as usize
    }
}

/// No two occupancies of the list that hash alike have different attacks.
spec fn perfect(occs: Seq<u64>, refs: Seq<u64>, magic: u64, shift: u32) -> bool {
    forall|i: int, j: int|
        0 <= i < occs.len() && 0 <= j < occs.len() && #[trigger] hash(occs[i], magic, shift)
            == #[trigger] hash(occs[j], magic, shift) ==> refs[i] == refs[j]
}

/// Search for a multiplier that separates every pair of occupancies whose
/// attacks differ. `None` only if the whole budget of candidates fails.
fn find_magic(
    rng: &mut Rng,
    msk: Bb,
    bits: u32,
    occs: &Vec<u64>,
    refs: &Vec<u64>,
    used: &mut Vec<u64>,
    epoch: &mut Vec<u32>,
    cur_epoch: &mut u32,
) -> (r: Option<u64>)
    requires
        1 <= bits <= 12,
        occs@.len() == refs@.len(),
        old(used)@.len() == 4096,
        old(epoch)@.len() == 4096,
        forall|j: int| 0 <= j < 4096 ==> #[trigger] old(epoch)@[j] <= *old(cur_epoch),
    ensures
        r matches Some(magic) ==> perfect(occs@, refs@, magic, (64 - bits) as u32),
        final(used)@.len() == 4096,
        final(epoch)@.len() == 4096,
        forall|j: int| 0 <= j < 4096 ==> #[trigger] final(epoch)@[j] <= *final(cur_epoch),
{
    let shift = 64 - bits;
    let mut budget: u32 = 0xFFFF_FFFF;
    while budget > 0 && *cur_epoch < 0xFFFF_FFFF
        invariant
            1 <= bits <= 12,
            shift == 64 - bits,
            occs@.len() == refs@.len(),
            used@.len() == 4096,
            epoch@.len() == 4096,
            forall|j: int| 0 <= j < 4096 ==> #[trigger] epoch@[j] <= *cur_epoch,
        decreases budget,
    {
        budget = budget - 1;
        let magic = rng.sparse();
        // Cheap rejection: the top byte of mask*magic should be well spread.
        if popcount(msk.wrapping_mul(magic) >> 56) >= 6 {
            *cur_epoch = *cur_epoch + 1;
            let cur = *cur_epoch;
            let mut ok = true;
            let mut i: usize = 0;
            while i < occs.len() && ok
                invariant
                    1 <= bits <= 12,
                    shift == 64 - bits,
                    occs@.len() == refs@.len(),
                    i <= occs@.len(),
                    used@.len() == 4096,
                    epoch@.len() == 4096,
                    forall|j: int| 0 <= j < 4096 ==> #[trigger] epoch@[j] <= cur,
                    ok ==> forall|k: int|
                        0 <= k < i ==> {
                            let j = #[trigger] hash(occs@[k], magic, shift) as int;
                            j < 4096 && epoch@[j] == cur && used@[j] == refs@[k]
                        },
                decreases occs@.len() - i, (if ok { 1int } else { 0int }),
            {
                let h = occs[i].wrapping_mul(magic) >> shift;
                proof {
                    let w = vstd::wrapping::u64_specs::wrapping_mul(occs@[i as int], magic);
                    assert((w >> shift) < 4096) by (bit_vector)
                        requires
                            52 <= shift < 64,
                    ;
                }
                let j = h as usize;
                if epoch[j] != cur {
                    epoch.set(j, cur);
                    used.set(j, refs[i]);
                    i = i + 1;
                } else if used[j] != refs[i] {
                    ok = false;
                } else {
                    i = i + 1;
                }
            }
            if ok {
                return Some(magic);
            }
        }
    }
    None
}

/// Build the magic tables of one slider, appending its attack sets to `att`.
fn init_magics(rook: bool, att: &mut Vec<u64>) -> (ms: [Magic; 64])
    requires
        old(att)@.len() <= 64 * 4096,
    ensures
        old(att)@.len() <= final(att)@.len() <= old(att)@.len() + 64 * 4096,
        final(att)@.take(old(att)@.len() as int) == old(att)@,
        forall|a: int| 0 <= a < 64 ==> (#[trigger] ms@[a]).answers(rook, a, final(att)@),
{
    let mut ms = [Magic { mask: 0, magic: 0, shift: 0, offset: 0 };64];
    let mut rng = Rng(0x9E37_79B9_7F4A_7C15);
    let mut used: Vec<u64> = vec![0u64; 4096];
    let mut epoch: Vec<u32> = vec![0u32; 4096];
    let mut cur_epoch: u32 = 0;
    let ghost base = att@;
    let mut sq: usize = 0;
    while sq < 64
        invariant
            sq <= 64,
            base.len() <= 64 * 4096,
            base.len() <= att@.len() <= base.len() + sq * 4096,
            att@.take(base.len() as int) == base,
            used@.len() == 4096,
            epoch@.len() == 4096,
            forall|j: int| 0 <= j < 4096 ==> #[trigger] epoch@[j] <= cur_epoch,
            forall|a: int| 0 <= a < sq ==> (#[trigger] ms@[a]).answers(rook, a, att@),
            forall|a: int| sq <= a < 64 ==> (#[trigger] ms@[a]).shift == 0,
        decreases 64 - sq,
    {
        let ghost a = sq as int;
        let msk = mask(sq, rook);
        let bits = popcount(msk);
        let size = 1usize << bits;
        proof {
            vstd::arithmetic::power2::lemma2_to64();
            assert(size <= 4096 && size == 1u64 << bits) by (bit_vector)
                requires
                    1 <= bits <= 12,
                    size == 1usize << bits,
            ;
            vstd::arithmetic::power2::lemma_pow2_strictly_increases(bits as nat, 13);
            vstd::bits::lemma_u64_shl_is_mul(1, bits as u64);
        }
        let mut occs: Vec<u64> = Vec::new();
        let mut refs: Vec<u64> = Vec::new();
        let mut i: usize = 0;
        while i < size
            invariant
                sq < 64,
                i <= size,
                occs@.len() == i,
                refs@.len() == i,
                forall|k: int|
                    0 <= k < i ==> #[trigger] occs@[k] == deal(k as nat, msk) && refs@[k]
                        == slide_bb(rook, sq as int, occs@[k]),
            decreases size - i,
        {
            let o = scatter(i, msk);
            occs.push(o);
            refs.push(slide(sq, o, rook));
            i = i + 1;
        }
        let found = find_magic(
            &mut rng,
            msk,
            bits,
            &occs,
            &refs,
            &mut used,
            &mut epoch,
            &mut cur_epoch,
        );
        if let Some(magic) = found {
            let shift = 64 - bits;
            let off = att.len();
            let ghost att0 = att@;
            let mut i: usize = 0;
            while i < size
                invariant
                    i <= size,
                    att@.len() == off + i,
                    off == att0.len(),
                    att@.take(off as int) == att0,
                decreases size - i,
            {
                att.push(0);
                i = i + 1;
                assert(att@.take(off as int) =~= att0);
            }
            let mut i: usize = 0;
            while i < size
                invariant
                    i <= size,
                    1 <= bits <= 12,
                    shift == 64 - bits,
                    size == 1u64 << bits,
                    size <= 4096,
                    off <= 128 * 4096,
                    occs@.len() == size,
                    refs@.len() == size,
                    perfect(occs@, refs@, magic, shift),
                    att@.len() == off + size,
                    off == att0.len(),
                    att@.take(off as int) == att0,
                    forall|k: int|
                        0 <= k < i ==> att@[off + #[trigger] hash(occs@[k], magic, shift)] == refs@[k],
                decreases size - i,
            {
                let h = occs[i].wrapping_mul(magic) >> shift;
                proof {
                    lemma_hash_small(occs@[i as int], magic, bits);
                    assert forall|k: int| 0 <= k < i implies #[trigger] hash(
                        occs@[k],
                        magic,
                        shift,
                    ) < size by {
                        lemma_hash_small(occs@[k], magic, bits);
                    }
                }
                att.set(off + h as usize, refs[i]);
                i = i + 1;
                assert(att@.take(off as int) =~= att0);
            }
            let m = Magic { mask: msk, magic, shift, offset: off as u32 };
            proof {
                assert forall|occ: u64|
                    0 <= #[trigger] m.slot(occ) < att@.len() && att@[m.slot(occ)]
                        == slide_bb(rook, a, occ) by {
                    let k = undeal(occ, msk);
                    lemma_deal(occ, msk);
                    lemma_mask_enough(rook, a, occ);
                    assert(occs@[k as int] == occ & msk);
                    lemma_hash_small(occ & msk, magic, bits);
                }
                assert(m.answers(rook, a, att@));
                assert forall|b: int| 0 <= b < sq implies (#[trigger] ms@[b]).answers(
                    rook,
                    b,
                    att@,
                ) by {
                    lemma_answers_extend(ms@[b], rook, b, att0, att@);
                }
                assert(att@.take(base.len() as int) =~= att0.take(base.len() as int));
            }
            ms[sq] = m;
        }
        sq = sq + 1;
    }
    ms
}

/// A hash keeps only as many bits as the mask has squares.
proof fn lemma_hash_small(x: u64, magic: u64, bits: u32)
    requires
        1 <= bits <= 12,
    ensures
        hash(x, magic, (64 - bits) as u32) < 1u64 << bits,
{
    let w = vstd::wrapping::u64_specs::wrapping_mul(x, magic);
    assert((w >> ((64 - bits) as u32)) < 1u64 << bits) by (bit_vector)
        requires
            1 <= bits <= 12,
    ;
}

/// Appending to the table leaves earlier answers in place.
proof fn lemma_answers_extend(m: Magic, rook: bool, a: int, att0: Seq<u64>, att: Seq<u64>)
    requires
        m.answers(rook, a, att0),
        att0.len() <= att.len(),
        att.take(att0.len() as int) == att0,
    ensures
        m.answers(rook, a, att),
{
    if m.shift != 0 {
        assert forall|occ: u64|
            0 <= #[trigger] m.slot(occ) < att.len() && att[m.slot(occ)] == slide_bb(
                rook,
                a,
                occ,
            ) by {
            assert(att0[m.slot(occ)] == att.take(att0.len() as int)[m.slot(occ)]);
        }
    }
}


// ---------------------------------------------------------------------------
// The tables
// ---------------------------------------------------------------------------

/// Every attack table of the engine. A value of this type can only be made by
/// `init`, and its entries are the attack sets of `geom`.
pub struct Attacks {
    knight: [Bb; 64],
    king: [Bb; 64],
    pawn: [[Bb; 64]; 2],
    /// Squares strictly between two aligned squares; 0 when not aligned.
    between: Vec<Bb>,
    /// Full line through two aligned squares (both endpoints included); 0 otherwise.
    line: Vec<Bb>,
    attacks: Vec<Bb>,
    rook_m: [Magic; 64],
    bishop_m: [Magic; 64],
}

impl Attacks {
    /// Every entry is the attack set it stands for.
    #[verifier::type_invariant]
    pub closed spec fn filled(self) -> bool {
        &&& self.between@.len() == 4096
        &&& self.line@.len() == 4096
        &&& self.attacks@.len() <= 128 * 4096
        &&& forall|a: int| 0 <= a < 64 ==> #[trigger] self.knight@[a] == geom::knight_bb(a)
        &&& forall|a: int| 0 <= a < 64 ==> #[trigger] self.king@[a] == geom::king_bb(a)
        &&& forall|a: int| 0 <= a < 64 ==> #[trigger] self.pawn@[0]@[a] == geom::pawn_bb(0, a)
        &&& forall|a: int| 0 <= a < 64 ==> #[trigger] self.pawn@[1]@[a] == geom::pawn_bb(1, a)
        &&& forall|i: int|
            0 <= i < 4096 ==> #[trigger] self.between@[i] == geom::between_bb(i / 64, i % 64)
        &&& forall|i: int|
            0 <= i < 4096 ==> #[trigger] self.line@[i] == geom::line_bb(i / 64, i % 64)
        &&& forall|a: int|
            0 <= a < 64 ==> (#[trigger] self.rook_m@[a]).answers(true, a, self.attacks@)
        &&& forall|a: int|
            0 <= a < 64 ==> (#[trigger] self.bishop_m@[a]).answers(false, a, self.attacks@)
    }
}

#[inline(always)]
pub fn knight_attacks(t: &Attacks, sq: usize) -> (r: Bb)
    requires
        sq < 64,
    ensures
        r == geom::knight_bb(sq as int),
{
    proof {
        use_type_invariant(t);
    }
    t.knight[sq]
}

#[inline(always)]
pub fn king_attacks(t: &Attacks, sq: usize) -> (r: Bb)
    requires
        sq < 64,
    ensures
        r == geom::king_bb(sq as int),
{
    proof {
        use_type_invariant(t);
    }
    t.king[sq]
}

#[inline(always)]
pub fn pawn_attacks(t: &Attacks, side: usize, sq: usize) -> (r: Bb)
    requires
        side < 2,
        sq < 64,
    ensures
        r == geom::pawn_bb(side as int, sq as int),
{
    proof {
        use_type_invariant(t);
    }
    assert(t.pawn@[0]@[sq as int] == geom::pawn_bb(0, sq as int));
    assert(t.pawn@[1]@[sq as int] == geom::pawn_bb(1, sq as int));
    t.pawn[side][sq]
}

#[inline(always)]
pub fn between(t: &Attacks, a: usize, b: usize) -> (r: Bb)
    requires
        a < 64,
        b < 64,
    ensures
        r == geom::between_bb(a as int, b as int),
{
    proof {
        use_type_invariant(t);
    }
    t.between[a * 64 + b]
}

#[inline(always)]
pub fn line(t: &Attacks, a: usize, b: usize) -> (r: Bb)
    requires
        a < 64,
        b < 64,
    ensures
        r == geom::line_bb(a as int, b as int),
{
    proof {
        use_type_invariant(t);
    }
    t.line[a * 64 + b]
}

#[inline(always)]
pub fn rook_attacks(t: &Attacks, sq: usize, occ: Bb) -> (r: Bb)
    requires
        sq < 64,
    ensures
        r == geom::rook_bb(sq as int, occ),
{
    proof {
        use_type_invariant(t);
    }
    let m = &t.rook_m[sq];
    if m.shift == 0 {
        return slide(sq, occ, true);
    }
    proof {
        assert(t.rook_m@[sq as int].answers(true, sq as int, t.attacks@));
        assert(0 <= m.slot(occ) < t.attacks@.len());
    }
    t.attacks[m.index(occ)]
}

#[inline(always)]
pub fn bishop_attacks(t: &Attacks, sq: usize, occ: Bb) -> (r: Bb)
    requires
        sq < 64,
    ensures
        r == geom::bishop_bb(sq as int, occ),
{
    proof {
        use_type_invariant(t);
    }
    let m = &t.bishop_m[sq];
    if m.shift == 0 {
        return slide(sq, occ, false);
    }
    proof {
        assert(t.bishop_m@[sq as int].answers(false, sq as int, t.attacks@));
        assert(0 <= m.slot(occ) < t.attacks@.len());
    }
    t.attacks[m.index(occ)]
}

#[inline(always)]
pub fn queen_attacks(t: &Attacks, sq: usize, occ: Bb) -> (r: Bb)
    requires
        sq < 64,
    ensures
        r == geom::queen_bb(sq as int, occ),
{
    rook_attacks(t, sq, occ) | bishop_attacks(t, sq, occ)
}

// ---------------------------------------------------------------------------
// Init
// ---------------------------------------------------------------------------

/// The square one step `(df, dr)` away, if it is on the board.
fn hop(sq: usize, df: i32, dr: i32) -> (b: Bb)
    requires
        sq < 64,
        -2 <= df <= 2,
        -2 <= dr <= 2,
    ensures
        forall|s: int| #[trigger]
            bits::mem(b, s) <==> geom::is_sq(s) && geom::fl(s) == geom::fl(sq as int) + df
                && geom::rk(s) == geom::rk(sq as int) + dr,
{
    let nf = file_of(sq) as i32 + df;
    let nr = rank_of(sq) as i32 + dr;
    if 0 <= nf && nf < 8 && 0 <= nr && nr < 8 {
        bit((nr * 8 + nf) as usize)
    } else {
        0
    }
}

/// The tables of the leapers, for one square.
fn leaper_sets(sq: usize) -> (r: (Bb, Bb, Bb, Bb))
    requires
        sq < 64,
    ensures
        r.0 == geom::knight_bb(sq as int),
        r.1 == geom::king_bb(sq as int),
        r.2 == geom::pawn_bb(0, sq as int),
        r.3 == geom::pawn_bb(1, sq as int),
{
    let n = hop(sq, 1, 2) | hop(sq, 2, 1) | hop(sq, 2, -1) | hop(sq, 1, -2) | hop(sq, -1, -2) | hop(
        sq,
        -2,
        -1,
    ) | hop(sq, -2, 1) | hop(sq, -1, 2);
    let k = hop(sq, -1, -1) | hop(sq, -1, 0) | hop(sq, -1, 1) | hop(sq, 0, -1) | hop(sq, 0, 1)
        | hop(sq, 1, -1) | hop(sq, 1, 0) | hop(sq, 1, 1);
    let b = bit(sq);
    let (e, w) = (east(b), west(b));
    let w0 = push(e, 0) | push(w, 0);
    let w1 = push(e, 1) | push(w, 1);
    proof {
        let a = sq as int;
        assert forall|s: int| 0 <= s < 64 implies bits::mem(n, s) == bits::mem(
            geom::knight_bb(a),
            s,
        ) by {}
        bits::lemma_ext(n, geom::knight_bb(a));
        assert forall|s: int| 0 <= s < 64 implies bits::mem(k, s) == bits::mem(
            geom::king_bb(a),
            s,
        ) by {}
        bits::lemma_ext(k, geom::king_bb(a));
        assert forall|s: int| 0 <= s < 64 implies bits::mem(w0, s) == bits::mem(
            geom::pawn_bb(0, a),
            s,
        ) by {}
        bits::lemma_ext(w0, geom::pawn_bb(0, a));
        assert forall|s: int| 0 <= s < 64 implies bits::mem(w1, s) == bits::mem(
            geom::pawn_bb(1, a),
            s,
        ) by {}
        bits::lemma_ext(w1, geom::pawn_bb(1, a));
    }
    (n, k, w0, w1)
}

/// The squares between `a` and `b`, and the line through them.
fn span_sets(a: usize, b: usize) -> (r: (Bb, Bb))
    requires
        a < 64,
        b < 64,
    ensures
        r.0 == geom::between_bb(a as int, b as int),
        r.1 == geom::line_bb(a as int, b as int),
{
    let ghost (x, y) = (a as int, b as int);
    let fr = slide(a, 0, true);
    let fb = slide(a, 0, false);
    let mut bt: u64 = 0;
    let mut ln: u64 = 0;
    // Squares between = both rays restricted by the other endpoint.
    if fr & bit(b) != 0 {
        bt = slide(a, bit(b), true) & slide(b, bit(a), true);
        ln = (fr & slide(b, 0, true)) | bit(a) | bit(b);
    } else if fb & bit(b) != 0 {
        bt = slide(a, bit(b), false) & slide(b, bit(a), false);
        ln = (fb & slide(b, 0, false)) | bit(a) | bit(b);
    }
    proof {
        assert(geom::clear(x, y, 0));
        assert forall|s: int| 0 <= s < 64 implies bits::mem(bt, s) == bits::mem(
            geom::between_bb(x, y),
            s,
        ) by {
            lemma_span(x, y, s);
        }
        bits::lemma_ext(bt, geom::between_bb(x, y));
        assert forall|s: int| 0 <= s < 64 implies bits::mem(ln, s) == bits::mem(
            geom::line_bb(x, y),
            s,
        ) by {
            assert(geom::clear(x, s, 0));
            assert(geom::clear(y, s, 0));
        }
        bits::lemma_ext(ln, geom::line_bb(x, y));
    }
    (bt, ln)
}

/// With only the other endpoint in the way, both endpoints of a line see
/// exactly the squares between them in common.
proof fn lemma_span(a: int, b: int, s: int)
    requires
        geom::is_sq(a),
        geom::is_sq(b),
        geom::is_sq(s),
    ensures
        geom::orth(a, b) ==> (geom::btw(a, s, b) <==> geom::rook_sees(a, s, bits::one(b))
            && geom::rook_sees(b, s, bits::one(a))),
        geom::diag(a, b) ==> (geom::btw(a, s, b) <==> geom::bishop_sees(a, s, bits::one(b))
            && geom::bishop_sees(b, s, bits::one(a))),
{
    if geom::btw(a, s, b) {
        assert forall|u: int| geom::btw(a, u, s) implies !bits::mem(bits::one(b), u) by {}
        assert forall|u: int| geom::btw(b, u, s) implies !bits::mem(bits::one(a), u) by {}
    } else {
        if geom::btw(a, b, s) {
            assert(bits::mem(bits::one(b), b));
        }
        if geom::btw(b, a, s) {
            assert(bits::mem(bits::one(a), a));
        }
    }
}

/// Fill every table.
pub fn init() -> (t: Attacks)
    ensures
        t.filled(),
{
    let mut knight = [0u64; 64];
    let mut king = [0u64; 64];
    let mut pw = [0u64; 64];
    let mut pb = [0u64; 64];
    let mut sq: usize = 0;
    while sq < 64
        invariant
            sq <= 64,
            forall|a: int| 0 <= a < sq ==> #[trigger] knight@[a] == geom::knight_bb(a),
            forall|a: int| 0 <= a < sq ==> #[trigger] king@[a] == geom::king_bb(a),
            forall|a: int| 0 <= a < sq ==> #[trigger] pw@[a] == geom::pawn_bb(0, a),
            forall|a: int| 0 <= a < sq ==> #[trigger] pb@[a] == geom::pawn_bb(1, a),
        decreases 64 - sq,
    {
        let (n, k, w0, w1) = leaper_sets(sq);
        knight[sq] = n;
        king[sq] = k;
        pw[sq] = w0;
        pb[sq] = w1;
        sq = sq + 1;
    }
    let mut attacks: Vec<u64> = Vec::new();
    let rook_m = init_magics(true, &mut attacks);
    let ghost after_rooks = attacks@;
    let bishop_m = init_magics(false, &mut attacks);
    proof {
        assert forall|a: int| 0 <= a < 64 implies (#[trigger] rook_m@[a]).answers(
            true,
            a,
            attacks@,
        ) by {
            lemma_answers_extend(rook_m@[a], true, a, after_rooks, attacks@);
        }
    }
    let mut between: Vec<u64> = Vec::new();
    let mut line: Vec<u64> = Vec::new();
    let mut i: usize = 0;
    while i < 4096
        invariant
            i <= 4096,
            between@.len() == i,
            line@.len() == i,
            forall|k: int| 0 <= k < i ==> #[trigger] between@[k] == geom::between_bb(k / 64, k % 64),
            forall|k: int| 0 <= k < i ==> #[trigger] line@[k] == geom::line_bb(k / 64, k % 64),
        decreases 4096 - i,
    {
        let (bt, ln) = span_sets(i / 64, i % 64);
        between.push(bt);
        line.push(ln);
        i = i + 1;
    }
    Attacks { knight, king, pawn: [pw, pb], between, line, attacks, rook_m, bishop_m }
}

} // verus!
