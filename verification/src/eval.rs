//! Hand-crafted evaluation.
//!
//! Tapered between a middlegame and an endgame score by remaining material.
//! This is the fallback evaluator and, more importantly, the teacher the
//! network is distilled against, so it is written to be stable and cheap
//! rather than clever.

use vstd::prelude::*;
use crate::bb::{
    bishop_attacks, bit, east, file_bb, file_of, king_attacks, knight_attacks, more_than_one, pop_lsb,
    popcount, push, queen_attacks, rank_of, rook_attacks, west, Bb, };
use crate::bits;
use crate::geom;
use crate::infer;
use crate::infer::{Brain, Net};
use crate::pos;
use crate::pos::{
    Position, BISHOP_P, KING_P, KNIGHT_P, MAX_PLY, PAWN_P, ROOK_P, WHITE,
};
use crate::rules;
use crate::tables::Tables;

verus! {

broadcast use {crate::bits::group_mem, crate::geom::group_geom};

pub const MATE: i32 = 32_000;

pub const MATE_IN_MAX: i32 = MATE - MAX_PLY as i32;

pub const INF: i32 = 32_500;

// Middlegame and endgame piece values. Index by piece type.
pub const MG_VAL: [i32; 6] = [82, 337, 365, 477, 1025, 0];

pub const EG_VAL: [i32; 6] = [94, 281, 297, 512, 936, 0];

/// Used by static exchange evaluation and by capture ordering, where a single
/// scale is enough.
pub const SEE_VAL: [i32; 7] = [100, 325, 335, 500, 975, 10_000, 0];

/// Game-phase weight per piece; 24 = full board.
pub const PHASE_W: [i32; 6] = [0, 1, 1, 2, 4, 0];

pub const MAX_PHASE: i32 = 24;

// Piece-square tables, white's point of view, a1 = 0.
pub const MG_PST: [[i16; 64]; 6] = [
    // Pawn
    [
        0, 0, 0, 0, 0, 0, 0, 0,
        -35, -1, -20, -23, -15, 24, 38, -22,
        -26, -4, -4, -10, 3, 3, 33, -12,
        -27, -2, -5, 12, 17, 6, 10, -25,
        -14, 13, 6, 21, 23, 12, 17, -23,
        -6, 7, 26, 31, 65, 56, 25, -20,
        98, 134, 61, 95, 68, 126, 34, -11,
        0, 0, 0, 0, 0, 0, 0, 0,
    ],
    // Knight
    [
        -105, -21, -58, -33, -17, -28, -19, -23,
        -29, -53, -12, -3, -1, 18, -14, -19,
        -23, -9, 12, 10, 19, 17, 25, -16,
        -13, 4, 16, 13, 28, 19, 21, -8,
        -9, 17, 19, 53, 37, 69, 18, 22,
        -47, 60, 37, 65, 84, 129, 73, 44,
        -73, -41, 72, 36, 23, 62, 7, -17,
        -167, -89, -34, -49, 61, -97, -15, -107,
    ],
    // Bishop
    [
        -33, -3, -14, -21, -13, -12, -39, -21,
        4, 15, 16, 0, 7, 21, 33, 1,
        0, 15, 15, 15, 14, 27, 18, 10,
        -6, 13, 13, 26, 34, 12, 10, 4,
        -4, 5, 19, 50, 37, 37, 7, -2,
        -16, 37, 43, 40, 35, 50, 37, -2,
        -26, 16, -18, -13, 30, 59, 18, -47,
        -29, 4, -82, -37, -25, -42, 7, -8,
    ],
    // Rook
    [
        -19, -13, 1, 17, 16, 7, -37, -26,
        -44, -16, -20, -9, -1, 11, -6, -71,
        -45, -25, -16, -17, 3, 0, -5, -33,
        -36, -26, -12, -1, 9, -7, 6, -23,
        -24, -11, 7, 26, 24, 35, -8, -20,
        -5, 19, 26, 36, 17, 45, 61, 16,
        27, 32, 58, 62, 80, 67, 26, 44,
        32, 42, 32, 51, 63, 9, 31, 43,
    ],
    // Queen
    [
        -1, -18, -9, 10, -15, -25, -31, -50,
        -35, -8, 11, 2, 8, 15, -3, 1,
        -14, 2, -11, -2, -5, 2, 14, 5,
        -9, -26, -9, -10, -2, -4, 3, -3,
        -27, -27, -16, -16, -1, 17, -2, 1,
        -13, -17, 7, 8, 29, 56, 47, 57,
        -24, -39, -5, 1, -16, 57, 28, 54,
        -28, 0, 29, 12, 59, 44, 43, 45,
    ],
    // King
    [
        -15, 36, 12, -54, 8, -28, 24, 14,
        1, 7, -8, -64, -43, -16, 9, 8,
        -14, -14, -22, -46, -44, -30, -15, -27,
        -49, -1, -27, -39, -46, -44, -33, -51,
        -17, -20, -12, -27, -30, -25, -14, -36,
        -9, 24, 2, -16, -20, 6, 22, -22,
        29, -1, -20, -7, -8, -4, -38, -29,
        -65, 23, 16, -15, -56, -34, 2, 13,
    ],
];

pub const EG_PST: [[i16; 64]; 6] = [
    // Pawn
    [
        0, 0, 0, 0, 0, 0, 0, 0,
        13, 8, 8, 10, 13, 0, 2, -7,
        4, 7, -6, 1, 0, -5, -1, -8,
        13, 9, -3, -7, -7, -8, 3, -1,
        32, 24, 13, 5, -2, 4, 17, 17,
        94, 100, 85, 67, 56, 53, 82, 84,
        178, 173, 158, 134, 147, 132, 165, 187,
        0, 0, 0, 0, 0, 0, 0, 0,
    ],
    // Knight
    [
        -29, -51, -23, -15, -22, -18, -50, -64,
        -42, -20, -10, -5, -2, -20, -23, -44,
        -23, -3, -1, 15, 10, -3, -20, -22,
        -18, -6, 16, 25, 16, 17, 4, -18,
        -17, 3, 22, 22, 22, 11, 8, -18,
        -24, -20, 10, 9, -1, -9, -19, -41,
        -25, -8, -25, -2, -9, -25, -24, -52,
        -58, -38, -13, -28, -31, -27, -63, -99,
    ],
    // Bishop
    [
        -23, -9, -23, -5, -9, -16, -5, -17,
        -14, -18, -7, -1, 4, -9, -15, -27,
        -12, -3, 8, 10, 13, 3, -7, -15,
        -6, 3, 13, 19, 7, 10, -3, -9,
        -3, 9, 12, 9, 14, 10, 3, 2,
        2, -8, 0, -1, -2, 6, 0, 4,
        -8, -4, 7, -12, -3, -13, -4, -14,
        -14, -21, -11, -8, -7, -9, -17, -24,
    ],
    // Rook
    [
        -9, 2, 3, -1, -5, -13, 4, -20,
        -6, -6, 0, 2, -9, -9, -11, -3,
        -4, 0, -5, -1, -7, -12, -8, -16,
        3, 5, 8, 4, -5, -6, -8, -11,
        4, 3, 13, 1, 2, 1, -1, 2,
        7, 7, 7, 5, 4, -3, -5, -3,
        11, 13, 13, 11, -3, 3, 8, 3,
        13, 10, 18, 15, 12, 12, 8, 5,
    ],
    // Queen
    [
        -33, -28, -22, -43, -5, -32, -20, -41,
        -22, -23, -30, -16, -16, -23, -36, -32,
        -16, -27, 15, 6, 9, 17, 10, 5,
        -18, 28, 19, 47, 31, 34, 39, 23,
        3, 22, 24, 45, 57, 40, 57, 36,
        -20, 6, 9, 49, 47, 35, 19, 9,
        -17, 20, 32, 41, 58, 25, 30, 0,
        -9, 22, 22, 27, 27, 19, 10, 20,
    ],
    // King
    [
        -53, -34, -21, -11, -28, -14, -24, -43,
        -27, -11, 4, 13, 14, 4, -5, -17,
        -19, -3, 11, 21, 23, 16, 7, -9,
        -18, -4, 21, 24, 27, 23, 9, -11,
        -8, 22, 24, 27, 26, 33, 26, 3,
        10, 17, 23, 15, 20, 45, 44, 13,
        -12, 17, 14, 17, 17, 38, 23, 11,
        -74, -35, -18, -18, -11, 15, 4, -17,
    ],
];

// Mobility bonuses, indexed by piece then by attacked-square count.
pub const MOB_MG: [[i16; 28]; 4] = [
    // Knight
    [
        -25, -11, -2, 4, 9, 13, 17, 20, 23, 0, 0, 0, 0, 0,
        0, 0, 0, 0, 0, 0, 0, 0, 0, 0, 0, 0, 0, 0,
    ],
    // Bishop
    [
        -30, -16, -6, 0, 6, 11, 14, 17, 19, 21, 23, 25, 27, 29,
        0, 0, 0, 0, 0, 0, 0, 0, 0, 0, 0, 0, 0, 0,
    ],
    // Rook
    [
        -24, -12, -6, -2, 1, 4, 8, 11, 14, 16, 18, 20, 21, 22,
        23, 0, 0, 0, 0, 0, 0, 0, 0, 0, 0, 0, 0, 0,
    ],
    // Queen
    [
        -15, -9, -5, -2, 0, 2, 4, 6, 8, 10, 11, 12, 13, 14,
        15, 16, 17, 18, 19, 20, 21, 22, 23, 24, 25, 26, 27, 28,
    ],
];

pub const MOB_EG: [[i16; 28]; 4] = [
    // Knight
    [
        -32, -16, -4, 4, 10, 15, 19, 22, 25, 0, 0, 0, 0, 0,
        0, 0, 0, 0, 0, 0, 0, 0, 0, 0, 0, 0, 0, 0,
    ],
    // Bishop
    [
        -40, -20, -8, 0, 8, 14, 19, 23, 26, 29, 31, 33, 35, 37,
        0, 0, 0, 0, 0, 0, 0, 0, 0, 0, 0, 0, 0, 0,
    ],
    // Rook
    [
        -36, -18, -6, 4, 12, 19, 25, 30, 34, 38, 41, 44, 46, 48,
        50, 0, 0, 0, 0, 0, 0, 0, 0, 0, 0, 0, 0, 0,
    ],
    // Queen
    [
        -20, -12, -6, 0, 6, 11, 16, 20, 24, 28, 31, 34, 36, 38,
        40, 42, 44, 46, 48, 50, 52, 54, 56, 58, 60, 62, 64, 66,
    ],
];

pub const ISOLATED: [i32; 2] = [-12, -14];

pub const DOUBLED: [i32; 2] = [-8, -22];

pub const PASSED_MG: [i32; 8] = [0, 2, 6, 14, 30, 58, 96, 0];

pub const PASSED_EG: [i32; 8] = [0, 8, 16, 32, 60, 100, 150, 0];

pub const BISHOP_PAIR: [i32; 2] = [24, 48];

pub const ROOK_OPEN: [i32; 2] = [26, 12];

pub const ROOK_SEMI: [i32; 2] = [12, 6];

pub const TEMPO: i32 = 12;

/// Danger weight per attacker type against the enemy king zone.
pub const KING_ATT_W: [i32; 6] = [0, 20, 20, 40, 80, 0];

// ---------------------------------------------------------------------------
// What is summed
// ---------------------------------------------------------------------------

/// The sum of `f` over the squares of `b`.
pub open spec fn sum_over(b: u64, f: spec_fn(int) -> int) -> int
    decreases b,
{
    if b == 0 {
        0
    } else {
        proof {
            bits::lemma_rest_smaller(b);
        }
        f(bits::low(b)) + sum_over(bits::rest(b), f)
    }
}

/// The number of squares that satisfy `f`.
pub open spec fn count(f: spec_fn(int) -> bool) -> int {
    bits::card(geom::set_of(f)) as int
}

/// A square seen from the other side of the board.
pub open spec fn flipped(s: int) -> int {
    (7 - geom::rk(s)) * 8 + geom::fl(s)
}

/// A square as colour `c` sees it.
pub open spec fn rel(c: int, s: int) -> int {
    if c == 0 {
        s
    } else {
        flipped(s)
    }
}

/// A pawn of colour `c` attacks `t`.
pub open spec fn pawn_guards(cells: Seq<int>, c: int, t: int) -> bool {
    exists|q: int| geom::is_sq(q) && #[trigger] cells[q] == c * 6 && geom::pawn_sees(c, q, t)
}

/// Some pawn of colour `c` stands on file `f`.
pub open spec fn pawn_on(cells: Seq<int>, c: int, f: int) -> bool {
    exists|q: int| geom::is_sq(q) && #[trigger] cells[q] == c * 6 && geom::fl(q) == f
}

/// The king on `k` and the squares around it.
pub open spec fn zone(k: int, t: int) -> bool {
    t == k || geom::king_sees(k, t)
}

/// A knight, bishop, rook or queen.
pub open spec fn is_officer(code: int) -> bool {
    1 <= code % 6 <= 4
}

/// The squares that the officer on `s` attacks, other than those of its own
/// side and those that enemy pawns control.
#[verifier::opaque]
pub open spec fn mobility(cells: Seq<int>, s: int) -> int {
    let (code, occ) = (cells[s], pos::occ_of(cells));
    count(
        |t: int|
            pos::hits(code, s, t, occ) && !pos::owned(cells[t], code / 6) && !pawn_guards(
                cells,
                1 - code / 6,
                t,
            ),
    )
}

/// The squares around the king on `k` that the officer on `s` attacks.
#[verifier::opaque]
pub open spec fn pressure(cells: Seq<int>, s: int, k: int) -> int {
    let (code, occ) = (cells[s], pos::occ_of(cells));
    count(|t: int| pos::hits(code, s, t, occ) && zone(k, t))
}

/// No pawn of the same colour stands on a neighbouring file.
#[verifier::opaque]
pub open spec fn isolated(cells: Seq<int>, s: int) -> bool {
    let c = cells[s] / 6;
    !pawn_on(cells, c, geom::fl(s) - 1) && !pawn_on(cells, c, geom::fl(s) + 1)
}

/// Another pawn of the same colour stands on the same file.
#[verifier::opaque]
pub open spec fn doubled(cells: Seq<int>, s: int) -> bool {
    exists|q: int|
        geom::is_sq(q) && q != s && #[trigger] cells[q] == cells[s] && geom::fl(q) == geom::fl(s)
}

/// `q` lies ahead of `s` for colour `c`.
pub open spec fn in_front(c: int, s: int, q: int) -> bool {
    if c == 0 {
        geom::rk(q) > geom::rk(s)
    } else {
        geom::rk(q) < geom::rk(s)
    }
}

/// No enemy pawn stands ahead on the same or a neighbouring file.
#[verifier::opaque]
pub open spec fn passed(cells: Seq<int>, s: int) -> bool {
    let c = cells[s] / 6;
    forall|q: int|
        geom::is_sq(q) && #[trigger] cells[q] == (1 - c) * 6 && geom::abs(geom::fl(q) - geom::fl(s))
            <= 1 ==> !in_front(c, s, q)
}

/// A rook's file: 0 open, 1 half open, 2 closed by a pawn of its own.
#[verifier::opaque]
pub open spec fn rook_file(cells: Seq<int>, s: int) -> int {
    let c = cells[s] / 6;
    if pawn_on(cells, c, geom::fl(s)) {
        2
    } else if pawn_on(cells, 1 - c, geom::fl(s)) {
        1
    } else {
        0
    }
}

/// The pawns of colour `c` on the squares before and beside its king on `k`.
#[verifier::opaque]
pub open spec fn shelter(cells: Seq<int>, c: int, k: int) -> int {
    count(
        |t: int|
            cells[t] == c * 6 && geom::king_sees(k, t) && geom::is_sq(rules::back(c, t)) && zone(
                k,
                rules::back(c, t),
            ),
    )
}

/// The middlegame worth of the piece on `s`.
#[verifier::opaque]
pub open spec fn mg_term(cells: Seq<int>, s: int) -> int {
    let (c, pt) = (cells[s] / 6, cells[s] % 6);
    MG_VAL@[pt] + MG_PST@[pt]@[rel(c, s)] + if is_officer(cells[s]) {
        MOB_MG@[pt - 1]@[mobility(cells, s)] + if pt == 3 && rook_file(cells, s) == 0 {
            ROOK_OPEN@[0] as int
        } else if pt == 3 && rook_file(cells, s) == 1 {
            ROOK_SEMI@[0] as int
        } else {
            0
        }
    } else if pt == 0 {
        (if isolated(cells, s) {
            ISOLATED@[0] as int
        } else {
            0
        }) + (if doubled(cells, s) {
            DOUBLED@[0] as int
        } else {
            0
        }) + if passed(cells, s) {
            PASSED_MG@[geom::rk(rel(c, s))] as int
        } else {
            0
        }
    } else {
        0
    }
}

/// The endgame worth of the piece on `s`.
#[verifier::opaque]
pub open spec fn eg_term(cells: Seq<int>, s: int) -> int {
    let (c, pt) = (cells[s] / 6, cells[s] % 6);
    EG_VAL@[pt] + EG_PST@[pt]@[rel(c, s)] + if is_officer(cells[s]) {
        MOB_EG@[pt - 1]@[mobility(cells, s)] + if pt == 3 && rook_file(cells, s) == 0 {
            ROOK_OPEN@[1] as int
        } else if pt == 3 && rook_file(cells, s) == 1 {
            ROOK_SEMI@[1] as int
        } else {
            0
        }
    } else if pt == 0 {
        (if isolated(cells, s) {
            ISOLATED@[1] as int
        } else {
            0
        }) + (if doubled(cells, s) {
            DOUBLED@[1] as int
        } else {
            0
        }) + if passed(cells, s) {
            PASSED_EG@[geom::rk(rel(c, s))] as int
        } else {
            0
        }
    } else {
        0
    }
}

/// The weight with which the piece on `s` bears on the king on `k`.
pub open spec fn danger_term(cells: Seq<int>, s: int, k: int) -> int {
    if is_officer(cells[s]) {
        KING_ATT_W@[cells[s] % 6] * pressure(cells, s, k)
    } else {
        0
    }
}

/// 1 if the piece on `s` is an officer that bears on the king on `k`.
pub open spec fn attacker_term(cells: Seq<int>, s: int, k: int) -> int {
    if is_officer(cells[s]) && pressure(cells, s, k) > 0 {
        1
    } else {
        0
    }
}

pub open spec fn min(a: int, b: int) -> int {
    if a < b {
        a
    } else {
        b
    }
}

/// Division that rounds toward zero.
pub open spec fn quot(a: int, b: int) -> int {
    if a >= 0 {
        a / b
    } else {
        -((-a) / b)
    }
}

impl Position {
    #[verifier::opaque]
    pub open spec fn has_pair(self, c: int) -> bool {
        count(|s: int| self.cells()[s] == c * 6 + 2) > 1
    }

    /// Coordinated pressure of `c` on the enemy king. A lone attacker is noise.
    #[verifier::opaque]
    pub open spec fn attack(self, c: int) -> int {
        let (cells, k) = (self.cells(), self.king(1 - c));
        let n = sum_over(self.color@[c], |s: int| attacker_term(cells, s, k));
        if n >= 2 {
            sum_over(self.color@[c], |s: int| danger_term(cells, s, k)) * min(n, 6) / 16
        } else {
            0
        }
    }

    /// The middlegame score of colour `c`.
    #[verifier::opaque]
    pub open spec fn mg_side(self, c: int) -> int {
        let cells = self.cells();
        sum_over(self.color@[c], |s: int| mg_term(cells, s)) + (if self.has_pair(c) {
            BISHOP_PAIR@[0] as int
        } else {
            0
        }) + self.attack(c) + 6 * shelter(cells, c, self.king(c))
    }

    /// The endgame score of colour `c`.
    #[verifier::opaque]
    pub open spec fn eg_side(self, c: int) -> int {
        let cells = self.cells();
        sum_over(self.color@[c], |s: int| eg_term(cells, s)) + if self.has_pair(c) {
            BISHOP_PAIR@[1] as int
        } else {
            0
        }
    }

    /// The game phase that the pieces of `c` stand for.
    #[verifier::opaque]
    pub open spec fn phase_side(self, c: int) -> int {
        let cells = self.cells();
        sum_over(self.color@[c], |s: int| PHASE_W@[cells[s] % 6] as int)
    }

    /// The officers of `c`, at endgame values.
    #[verifier::opaque]
    pub open spec fn material(self, c: int) -> int {
        let cells = self.cells();
        sum_over(
            self.color@[c],
            |s: int|
                if is_officer(cells[s]) {
                    EG_VAL@[cells[s] % 6] as int
                } else {
                    0
                },
        )
    }

    pub open spec fn has_pawn(self, c: int) -> bool {
        self.of(c, 0) != 0
    }

    /// The tapered score, from white's point of view.
    #[verifier::opaque]
    pub open spec fn tapered(self) -> int {
        let phase = min(self.phase_side(0) + self.phase_side(1), 24);
        quot(
            (self.mg_side(0) - self.mg_side(1)) * phase + (self.eg_side(0) - self.eg_side(1)) * (24
                - phase),
            24,
        )
    }

    /// A score pulled toward zero when the stronger side has no pawns to
    /// convert with and is not a rook ahead.
    pub open spec fn scaled(self, score: int) -> int {
        let us = self.stm as int;
        let strong = if score > 0 {
            us
        } else {
            1 - us
        };
        if !self.has_pawn(strong) && self.material(strong) - self.material(1 - strong)
            < EG_VAL@[3] {
            quot(score, 4)
        } else {
            score
        }
    }

    /// The hand-crafted score, from the point of view of the side to move.
    pub open spec fn worth(self) -> int {
        if self.bare() {
            0
        } else {
            self.scaled(
                (if self.stm == 0 {
                    self.tapered()
                } else {
                    -self.tapered()
                }) + TEMPO,
            )
        }
    }
}

// ---------------------------------------------------------------------------
// Bounds
// ---------------------------------------------------------------------------

/// A rook attacks at most 14 squares.
pub proof fn lemma_rook_reach(b: u64, s: int)
    requires
        geom::is_sq(s),
        forall|t: int| #[trigger] bits::mem(b, t) ==> geom::orth(s, t),
    ensures
        bits::card(b) <= 14,
{
    let (f, r) = (geom::fl(s), geom::rk(s));
    let q = Seq::new(
        14,
        |i: int|
            if i < 7 {
                r * 8 + if i < f {
                    i
                } else {
                    i + 1
                }
            } else {
                (if i - 7 < r {
                    i - 7
                } else {
                    i - 6
                }) * 8 + f
            },
    );
    assert forall|t: int| #[trigger] bits::mem(b, t) implies q.contains(t) by {
        assert(geom::orth(s, t));
        if geom::rk(t) == r {
            let i = if geom::fl(t) < f {
                geom::fl(t)
            } else {
                geom::fl(t) - 1
            };
            assert(q[i] == t);
        } else {
            let i = if geom::rk(t) < r {
                geom::rk(t) + 7
            } else {
                geom::rk(t) + 6
            };
            assert(q[i] == t);
        }
    }
    bits::lemma_card_cover(b, q);
}

/// A bishop attacks at most 13 squares: on the farther edge file the two
/// diagonals never both reach the board.
pub proof fn lemma_bishop_reach(b: u64, s: int)
    requires
        geom::is_sq(s),
        forall|t: int| #[trigger] bits::mem(b, t) ==> geom::diag(s, t),
    ensures
        bits::card(b) <= 13,
{
    let (f, r) = (geom::fl(s), geom::rk(s));
    // The far file, last in the list of the other seven files.
    let far = if f >= 4 {
        0int
    } else {
        7
    };
    let file = |i: int|
        if f >= 4 {
            if i < 7 - f {
                7 - i
            } else {
                6 - i
            }
        } else {
            if i < f {
                i
            } else {
                i + 1
            }
        };
    let q = Seq::new(
        13,
        |i: int|
            if i < 7 {
                // Rising with the distance, except that the far file takes
                // whichever of its two squares is on the board.
                if i == 6 {
                    if r < 4 {
                        (r + geom::abs(far - f)) * 8 + far
                    } else {
                        (r - geom::abs(far - f)) * 8 + far
                    }
                } else {
                    (r + geom::abs(file(i) - f)) * 8 + file(i)
                }
            } else {
                (r - geom::abs(file(i - 7) - f)) * 8 + file(i - 7)
            },
    );
    assert forall|t: int| #[trigger] bits::mem(b, t) implies q.contains(t) by {
        assert(geom::diag(s, t));
        let g = geom::fl(t);
        let i = if f >= 4 {
            if g > f {
                7 - g
            } else {
                6 - g
            }
        } else {
            if g < f {
                g
            } else {
                g - 1
            }
        };
        assert(0 <= i < 7);
        assert(file(i) == g);
        assert(i == 6 ==> g == far);
        if i == 6 {
            assert(q[6] == t);
        } else if geom::rk(t) > r {
            assert(q[i] == t);
        } else {
            assert(q[i + 7] == t);
        }
    }
    bits::lemma_card_cover(b, q);
}

pub proof fn lemma_knight_reach(b: u64, s: int)
    requires
        geom::is_sq(s),
        forall|t: int| #[trigger] bits::mem(b, t) ==> geom::knight_sees(s, t),
    ensures
        bits::card(b) <= 8,
{
    let q = seq![s + 17, s + 15, s + 10, s + 6, s - 6, s - 10, s - 15, s - 17];
    assert forall|t: int| #[trigger] bits::mem(b, t) implies q.contains(t) by {
        assert(geom::knight_sees(s, t));
        assert(q[0] == s + 17 && q[1] == s + 15 && q[2] == s + 10 && q[3] == s + 6 && q[4] == s - 6
            && q[5] == s - 10 && q[6] == s - 15 && q[7] == s - 17);
        assert(t == s + 17 || t == s + 15 || t == s + 10 || t == s + 6 || t == s - 6 || t == s - 10
            || t == s - 15 || t == s - 17);
    }
    bits::lemma_card_cover(b, q);
}

/// No officer attacks more squares than the mobility tables hold.
pub proof fn lemma_reach(b: u64, code: int, s: int, occ: u64)
    requires
        geom::is_sq(s),
        pos::is_piece(code),
        is_officer(code),
        forall|t: int| #[trigger] bits::mem(b, t) ==> pos::hits(code, s, t, occ),
    ensures
        bits::card(b) <= 27,
{
    if code % 6 == 1 {
        lemma_knight_reach(b, s);
    } else if code % 6 == 2 {
        lemma_bishop_reach(b, s);
    } else if code % 6 == 3 {
        lemma_rook_reach(b, s);
    } else {
        let (x, y) = (b & geom::set_of(|t: int| geom::orth(s, t)), b & geom::set_of(
            |t: int| geom::diag(s, t),
        ));
        assert forall|t: int| #[trigger] bits::mem(x, t) implies geom::orth(s, t) by {
            geom::lemma_set_of(|t: int| geom::orth(s, t), t);
        }
        assert forall|t: int| #[trigger] bits::mem(y, t) implies geom::diag(s, t) by {
            geom::lemma_set_of(|t: int| geom::diag(s, t), t);
        }
        assert forall|t: int| 0 <= t < 64 implies bits::mem(b, t) == bits::mem(x | y, t) by {
            geom::lemma_set_of(|t: int| geom::orth(s, t), t);
            geom::lemma_set_of(|t: int| geom::diag(s, t), t);
        }
        bits::lemma_ext(b, x | y);
        lemma_rook_reach(x, s);
        lemma_bishop_reach(y, s);
        bits::lemma_card_or(x, y);
    }
}

// ---------------------------------------------------------------------------
// The evaluator
// ---------------------------------------------------------------------------

/// Flip a square to the other side's perspective.
#[inline(always)]
fn flip(sq: usize) -> (r: usize)
    requires
        sq < 64,
    ensures
        r == flipped(sq as int),
        r < 64,
{
    (7 - sq / 8) * 8 + sq % 8
}

/// Squares attacked by `side`'s pawn set.
#[inline(always)]
fn pawn_shield_attacks(pawns: Bb, side: usize) -> (r: Bb)
    requires
        side < 2,
    ensures
        forall|t: int| #[trigger]
            bits::mem(r, t) <==> geom::is_sq(t) && exists|q: int| #[trigger]
                bits::mem(pawns, q) && geom::pawn_sees(side as int, q, t),
{
    let (e, w) = (east(pawns), west(pawns));
    let (x, y) = (push(e, side), push(w, side));
    proof {
        assert forall|t: int| #[trigger] bits::mem(x | y, t) <==> geom::is_sq(t) && exists|q: int|
            #[trigger] bits::mem(pawns, q) && geom::pawn_sees(side as int, q, t) by {
            let u = rules::back(side as int, t);
            assert(bits::mem(e, u) <==> geom::is_sq(u) && geom::fl(u) > 0 && bits::mem(
                pawns,
                u - 1,
            ));
            assert(bits::mem(w, u) <==> geom::is_sq(u) && geom::fl(u) < 7 && bits::mem(
                pawns,
                u + 1,
            ));
            if geom::is_sq(t) && exists|q: int| #[trigger]
                bits::mem(pawns, q) && geom::pawn_sees(side as int, q, t) {
                let q = choose|q: int| #[trigger]
                    bits::mem(pawns, q) && geom::pawn_sees(side as int, q, t);
                assert(q == u - 1 || q == u + 1);
            }
            if bits::mem(x, t) {
                assert(bits::mem(pawns, u - 1) && geom::pawn_sees(side as int, u - 1, t));
            }
            if bits::mem(y, t) {
                assert(bits::mem(pawns, u + 1) && geom::pawn_sees(side as int, u + 1, t));
            }
        }
    }
    x | y
}

/// The files on either side of file `f`.
#[inline(always)]
fn adjacent_files(f: usize) -> (r: Bb)
    requires
        f < 8,
    ensures
        forall|q: int| #[trigger]
            bits::mem(r, q) <==> geom::is_sq(q) && (geom::fl(q) == f - 1 || geom::fl(q) == f + 1),
{
    let fb = file_bb(f);
    let (w, e) = (west(fb), east(fb));
    w | e
}

/// The ranks ahead of `sq`, from `c`'s view.
#[inline(always)]
fn ranks_ahead(c: usize, sq: usize) -> (r: Bb)
    requires
        sq < 64,
        c < 2,
    ensures
        forall|q: int| #[trigger]
            bits::mem(r, q) <==> geom::is_sq(q) && in_front(c as int, sq as int, q),
{
    let all: Bb = !0u64;
    let rank = rank_of(sq);
    if c == WHITE {
        if rank == 7 {
            return 0;
        }
        let n = ((rank + 1) * 8) as u64;
        let r = all << n;
        proof {
            assert forall|q: int| #[trigger] bits::mem(r, q) <==> geom::is_sq(q) && in_front(
                0,
                sq as int,
                q,
            ) by {
                if geom::is_sq(q) {
                    bits::lemma_mem_shl(all, n, q);
                    lemma_all(q - n);
                }
            }
        }
        r
    } else {
        if rank == 0 {
            return 0;
        }
        let n = (64 - rank * 8) as u64;
        let r = all >> n;
        proof {
            assert forall|q: int| #[trigger] bits::mem(r, q) <==> geom::is_sq(q) && in_front(
                1,
                sq as int,
                q,
            ) by {
                if geom::is_sq(q) {
                    bits::lemma_mem_shr(all, n, q);
                    lemma_all(q + n);
                }
            }
        }
        r
    }
}

pub proof fn lemma_all(s: int)
    ensures
        bits::mem(!0u64, s) <==> geom::is_sq(s),
{
    if geom::is_sq(s) {
        bits::lemma_mem_not(0, s);
    }
}

/// Squares ahead of `sq` on its own and adjacent files, from `c`'s view.
fn passed_mask(c: usize, sq: usize) -> (r: Bb)
    requires
        sq < 64,
        c < 2,
    ensures
        forall|q: int| #[trigger]
            bits::mem(r, q) <==> geom::is_sq(q) && geom::abs(geom::fl(q) - geom::fl(sq as int))
                <= 1 && in_front(c as int, sq as int, q),
{
    let f = file_of(sq);
    (file_bb(f) | adjacent_files(f)) & ranks_ahead(c, sq)
}

/// What the pawns of a position say, once per side.
struct Pawns {
    ours: Bb,
    theirs: Bb,
    /// Squares that the other side's pawns control.
    guarded: Bb,
}

spec fn pawns_of(p: Position, c: int, w: Pawns) -> bool {
    &&& w.ours == p.of(c, 0)
    &&& w.theirs == p.of(1 - c, 0)
    &&& forall|t: int| #[trigger]
        bits::mem(w.guarded, t) <==> geom::is_sq(t) && pawn_guards(p.cells(), 1 - c, t)
}

fn read_pawns(pos: &Position, c: usize) -> (w: Pawns)
    requires
        pos.board_ok(),
        c < 2,
    ensures
        pawns_of(*pos, c as int, w),
{
    let ours = pos.pieces(c, PAWN_P);
    let theirs = pos.pieces(1 - c, PAWN_P);
    let guarded = pawn_shield_attacks(theirs, 1 - c);
    proof {
        let cells = pos.cells();
        let d = 1 - c;
        assert forall|t: int| #[trigger] bits::mem(guarded, t) <==> geom::is_sq(t) && pawn_guards(
            cells,
            d,
            t,
        ) by {
            if bits::mem(guarded, t) {
                let q = choose|q: int| #[trigger]
                    bits::mem(theirs, q) && geom::pawn_sees(d, q, t);
                pos::lemma_cells(*pos, q);
                assert(cells[q] == d * 6);
            }
            if geom::is_sq(t) && pawn_guards(cells, d, t) {
                let q = choose|q: int|
                    geom::is_sq(q) && #[trigger] cells[q] == d * 6 && geom::pawn_sees(d, q, t);
                pos::lemma_cells(*pos, q);
                assert(bits::mem(theirs, q));
            }
        }
    }
    Pawns { ours, theirs, guarded }
}

/// Whether a pawn of `c` stands on file `f`.
pub(crate) fn on_file(pos: &Position, pawns: Bb, Ghost(c): Ghost<int>, f: usize) -> (r: bool)
    requires
        pos.board_ok(),
        0 <= c < 2,
        pawns == pos.of(c, 0),
        f < 8,
    ensures
        r == pawn_on(pos.cells(), c, f as int),
{
    let b = pawns & file_bb(f);
    proof {
        let cells = pos.cells();
        bits::lemma_low(b);
        bits::lemma_empty(b);
        if b != 0 {
            pos::lemma_cells(*pos, bits::low(b));
            assert(cells[bits::low(b)] == c * 6);
        }
        assert forall|q: int|
            geom::is_sq(q) && #[trigger] cells[q] == c * 6 && geom::fl(q) == f implies b != 0 by {
            pos::lemma_cells(*pos, q);
            assert(bits::mem(b, q));
        }
    }
    b != 0
}

/// The pawn terms of the pawn on `sq`.
fn pawn_terms(pos: &Position, w: &Pawns, c: usize, sq: usize) -> (r: (i32, i32))
    requires
        pos.board_ok(),
        c < 2,
        sq < 64,
        pawns_of(*pos, c as int, *w),
        pos.cells()[sq as int] == c * 6,
    ensures
        r.0 == mg_term(pos.cells(), sq as int) - MG_VAL@[0] - MG_PST@[0]@[rel(c as int, sq as int)],
        r.1 == eg_term(pos.cells(), sq as int) - EG_VAL@[0] - EG_PST@[0]@[rel(c as int, sq as int)],
        -1000 <= r.0 <= 1000,
        -1000 <= r.1 <= 1000,
{
    proof {
        reveal(mg_term);
        reveal(eg_term);
        reveal(isolated);
        reveal(doubled);
        reveal(passed);
    }
    let ghost cells = pos.cells();
    let (mut mg, mut eg): (i32, i32) = (0, 0);
    let f = file_of(sq);
    let beside = w.ours & adjacent_files(f);
    proof {
        bits::lemma_low(beside);
        bits::lemma_empty(beside);
        if beside != 0 {
            pos::lemma_cells(*pos, bits::low(beside));
            assert(cells[bits::low(beside)] == c * 6);
        }
        assert forall|q: int|
            geom::is_sq(q) && #[trigger] cells[q] == c * 6 && (geom::fl(q) == f - 1 || geom::fl(q)
                == f + 1) implies beside != 0 by {
            pos::lemma_cells(*pos, q);
            assert(bits::mem(beside, q));
        }
        assert(isolated(cells, sq as int) <==> beside == 0);
    }
    if beside == 0 {
        mg = mg + ISOLATED[0];
        eg = eg + ISOLATED[1];
    }
    let mates = w.ours & file_bb(f);
    proof {
        bits::lemma_card_one(mates);
        pos::lemma_cells(*pos, sq as int);
        assert(bits::mem(mates, sq as int));
        if doubled(cells, sq as int) {
            let q = choose|q: int|
                geom::is_sq(q) && q != sq && #[trigger] cells[q] == cells[sq as int] && geom::fl(q)
                    == geom::fl(sq as int);
            pos::lemma_cells(*pos, q);
            assert(bits::mem(mates, q));
        }
        assert forall|q: int| #[trigger] bits::mem(mates, q) && q != sq implies doubled(
            cells,
            sq as int,
        ) by {
            pos::lemma_cells(*pos, q);
            assert(cells[q] == cells[sq as int]);
        }
        assert(doubled(cells, sq as int) <==> bits::card(mates) > 1);
    }
    if popcount(mates) > 1 {
        mg = mg + DOUBLED[0];
        eg = eg + DOUBLED[1];
    }
    let stoppers = w.theirs & passed_mask(c, sq);
    proof {
        bits::lemma_low(stoppers);
        bits::lemma_empty(stoppers);
        let d = 1 - c;
        if stoppers != 0 {
            pos::lemma_cells(*pos, bits::low(stoppers));
            assert(cells[bits::low(stoppers)] == d * 6);
        }
        assert forall|q: int|
            geom::is_sq(q) && #[trigger] cells[q] == d * 6 && geom::abs(
                geom::fl(q) - geom::fl(sq as int),
            ) <= 1 && in_front(c as int, sq as int, q) implies stoppers != 0 by {
            pos::lemma_cells(*pos, q);
            assert(bits::mem(stoppers, q));
        }
        assert(passed(cells, sq as int) <==> stoppers == 0);
    }
    if stoppers == 0 {
        let r = if c == WHITE {
            rank_of(sq)
        } else {
            7 - rank_of(sq)
        };
        mg = mg + PASSED_MG[r];
        eg = eg + PASSED_EG[r];
    }
    (mg, eg)
}

/// What one officer contributes.
struct Officer {
    mg: i32,
    eg: i32,
    danger: i32,
    hit: bool,
}

pub(crate) fn officer_attacks(t: &Tables, pt: usize, sq: usize, occ: Bb) -> (r: Bb)
    requires
        1 <= pt <= 4,
        sq < 64,
    ensures
        forall|c: int, x: int|
            #![trigger bits::mem(r, x), pos::hits(c * 6 + pt, sq as int, x, occ)]
            0 <= c < 2 ==> (bits::mem(r, x) <==> geom::is_sq(x) && pos::hits(
                c * 6 + pt,
                sq as int,
                x,
                occ,
            )),
{
    let bb = t.attacks();
    if pt == KNIGHT_P {
        knight_attacks(bb, sq)
    } else if pt == BISHOP_P {
        bishop_attacks(bb, sq, occ)
    } else if pt == ROOK_P {
        rook_attacks(bb, sq, occ)
    } else {
        queen_attacks(bb, sq, occ)
    }
}

fn officer_terms(pos: &Position, t: &Tables, w: &Pawns, zone_bb: Bb, c: usize, pt: usize, sq: usize) -> (r:
    Officer)
    requires
        pos.board_ok(),
        c < 2,
        1 <= pt <= 4,
        sq < 64,
        pawns_of(*pos, c as int, *w),
        pos.cells()[sq as int] == c * 6 + pt,
        geom::is_sq(pos.king(1 - c)),
        forall|x: int| #[trigger]
            bits::mem(zone_bb, x) <==> geom::is_sq(x) && zone(pos.king(1 - c), x),
    ensures
        ({
            let (cells, s, k) = (pos.cells(), sq as int, pos.king(1 - c));
            &&& r.mg == mg_term(cells, s) - MG_VAL@[pt as int] - MG_PST@[pt as int]@[rel(
                c as int,
                s,
            )]
            &&& r.eg == eg_term(cells, s) - EG_VAL@[pt as int] - EG_PST@[pt as int]@[rel(
                c as int,
                s,
            )]
            &&& r.danger == danger_term(cells, s, k)
            &&& r.hit == (attacker_term(cells, s, k) == 1)
            &&& -33000 <= r.mg <= 33000
            &&& -33000 <= r.eg <= 33000
            &&& 0 <= r.danger <= 5120
        }),
{
    proof {
        reveal(mg_term);
        reveal(eg_term);
        reveal(mobility);
        reveal(pressure);
        reveal(rook_file);
    }
    let ghost cells = pos.cells();
    let ghost (code, s, k) = (c * 6 + pt, sq as int, pos.king(1 - c));
    let occ = pos.occ();
    let att = officer_attacks(t, pt, sq, occ);
    // Squares controlled by enemy pawns are not real mobility.
    let safe = att & !pos.color[c] & !w.guarded;
    let near = att & zone_bb;
    proof {
        pos::lemma_occ(*pos);
        let free = |x: int|
            pos::hits(code, s, x, occ) && !pos::owned(cells[x], code / 6) && !pawn_guards(
                cells,
                1 - code / 6,
                x,
            );
        assert(code / 6 == c && code % 6 == pt);
        assert forall|x: int| geom::is_sq(x) implies (#[trigger] bits::mem(safe, x) <==> free(x)) by {
            pos::lemma_cells(*pos, x);
            assert(bits::mem(att, x) <==> pos::hits(c * 6 + pt, s, x, occ));
        }
        geom::lemma_is_set(safe, free);
        let close = |x: int| pos::hits(code, s, x, occ) && zone(k, x);
        assert forall|x: int| geom::is_sq(x) implies (#[trigger] bits::mem(near, x) <==> close(x)) by {
            assert(bits::mem(att, x) <==> pos::hits(c * 6 + pt, s, x, occ));
        }
        geom::lemma_is_set(near, close);
        assert(bits::card(safe) == mobility(cells, s));
        assert(bits::card(near) == pressure(cells, s, k));
        assert forall|x: int| #[trigger] bits::mem(safe, x) implies pos::hits(code, s, x, occ) by {
            assert(bits::mem(att, x) <==> geom::is_sq(x) && pos::hits(c * 6 + pt, s, x, occ));
        }
        lemma_reach(safe, code, s, occ);
        bits::lemma_card_64(near);
        bits::lemma_card_one(near);
    }
    let n = popcount(safe) as usize;
    let mut mg = MOB_MG[pt - 1][n] as i32;
    let mut eg = MOB_EG[pt - 1][n] as i32;
    let (mut danger, mut hit): (i32, bool) = (0, false);
    if near != 0 {
        let x = popcount(near) as i32;
        assert(0 <= KING_ATT_W@[pt as int] <= 80);
        assert(0 <= KING_ATT_W@[pt as int] * x <= 5120) by (nonlinear_arith)
            requires
                0 <= KING_ATT_W@[pt as int] <= 80,
                0 <= x <= 64,
        ;
        danger = KING_ATT_W[pt] * x;
        hit = true;
    } else {
        assert(KING_ATT_W@[pt as int] * 0 == 0);
    }
    if pt == ROOK_P {
        let f = file_of(sq);
        if !on_file(pos, w.ours, Ghost(c as int), f) {
            if !on_file(pos, w.theirs, Ghost(1 - c), f) {
                mg = mg + ROOK_OPEN[0];
                eg = eg + ROOK_OPEN[1];
            } else {
                mg = mg + ROOK_SEMI[0];
                eg = eg + ROOK_SEMI[1];
            }
        }
    }
    Officer { mg, eg, danger, hit }
}

/// The sums over the pieces of one side.
struct Acc {
    mg: i32,
    eg: i32,
    phase: i32,
    danger: i32,
    attackers: i32,
}

/// One piece, whatever it is.
fn piece_terms(pos: &Position, t: &Tables, w: &Pawns, zone_bb: Bb, c: usize, sq: usize) -> (r: Officer)
    requires
        pos.board_ok(),
        c < 2,
        sq < 64,
        pawns_of(*pos, c as int, *w),
        pos::owned(pos.cells()[sq as int], c as int),
        geom::is_sq(pos.king(1 - c)),
        forall|x: int| #[trigger]
            bits::mem(zone_bb, x) <==> geom::is_sq(x) && zone(pos.king(1 - c), x),
    ensures
        ({
            let (cells, s, k) = (pos.cells(), sq as int, pos.king(1 - c));
            &&& r.mg == mg_term(cells, s)
            &&& r.eg == eg_term(cells, s)
            &&& r.danger == danger_term(cells, s, k)
            &&& r.hit == (attacker_term(cells, s, k) == 1)
            &&& -70000 <= r.mg <= 70000
            &&& -70000 <= r.eg <= 70000
            &&& 0 <= r.danger <= 5120
        }),
{
    proof {
        pos::lemma_cells(*pos, sq as int);
        if pos.cells()[sq as int] % 6 == 5 {
            reveal(mg_term);
            reveal(eg_term);
        }
    }
    let pt = pos.piece_at(sq) as usize;
    let at = if c == WHITE {
        sq
    } else {
        flip(sq)
    };
    assert(-1025 <= MG_VAL@[pt as int] <= 1025 && -1025 <= EG_VAL@[pt as int] <= 1025);
    let mg = MG_VAL[pt] + MG_PST[pt][at] as i32;
    let eg = EG_VAL[pt] + EG_PST[pt][at] as i32;
    if pt == PAWN_P {
        let r = pawn_terms(pos, w, c, sq);
        Officer { mg: mg + r.0, eg: eg + r.1, danger: 0, hit: false }
    } else if pt == KING_P {
        Officer { mg, eg, danger: 0, hit: false }
    } else {
        let r = officer_terms(pos, t, w, zone_bb, c, pt, sq);
        Officer { mg: mg + r.mg, eg: eg + r.eg, danger: r.danger, hit: r.hit }
    }
}

spec fn mg_fn(cells: Seq<int>) -> spec_fn(int) -> int {
    |s: int| mg_term(cells, s)
}

spec fn eg_fn(cells: Seq<int>) -> spec_fn(int) -> int {
    |s: int| eg_term(cells, s)
}

spec fn phase_fn(cells: Seq<int>) -> spec_fn(int) -> int {
    |s: int| PHASE_W@[cells[s] % 6] as int
}

spec fn danger_fn(cells: Seq<int>, k: int) -> spec_fn(int) -> int {
    |s: int| danger_term(cells, s, k)
}

spec fn attacker_fn(cells: Seq<int>, k: int) -> spec_fn(int) -> int {
    |s: int| attacker_term(cells, s, k)
}

pub(crate) fn king_zone(t: &Tables, k: usize) -> (r: Bb)
    requires
        k < 64,
    ensures
        forall|x: int| #[trigger] bits::mem(r, x) <==> geom::is_sq(x) && zone(k as int, x),
{
    king_attacks(t.attacks(), k) | bit(k)
}

fn sum_side(pos: &Position, t: &Tables, c: usize) -> (a: Acc)
    requires
        pos.board_ok(),
        c < 2,
        geom::is_sq(pos.king(1 - c)),
    ensures
        ({
            let (cells, b, k) = (pos.cells(), pos.color@[c as int], pos.king(1 - c));
            &&& a.mg == sum_over(b, mg_fn(cells))
            &&& a.eg == sum_over(b, eg_fn(cells))
            &&& a.phase == sum_over(b, phase_fn(cells))
            &&& a.danger == sum_over(b, danger_fn(cells, k))
            &&& a.attackers == sum_over(b, attacker_fn(cells, k))
            &&& -4_480_000 <= a.mg <= 4_480_000
            &&& -4_480_000 <= a.eg <= 4_480_000
            &&& 0 <= a.phase <= 256
            &&& 0 <= a.danger <= 327_680
            &&& 0 <= a.attackers <= 64
        }),
{
    let ghost cells = pos.cells();
    let ghost k = pos.king(1 - c);
    let w = read_pawns(pos, c);
    let zone_bb = king_zone(t, pos.king_sq(1 - c));
    let all = pos.color[c];
    let mut b = all;
    let mut a = Acc { mg: 0, eg: 0, phase: 0, danger: 0, attackers: 0 };
    let ghost mut n: int = 0;
    proof {
        bits::lemma_card_64(b);
    }
    while b != 0
        invariant
            pos.board_ok(),
            c < 2,
            cells == pos.cells(),
            k == pos.king(1 - c),
            geom::is_sq(k),
            all == pos.color@[c as int],
            pawns_of(*pos, c as int, w),
            forall|x: int| #[trigger] bits::mem(zone_bb, x) <==> geom::is_sq(x) && zone(k, x),
            forall|x: int| #[trigger] bits::mem(b, x) ==> bits::mem(all, x),
            0 <= n,
            n + bits::card(b) <= 64,
            -70000 * n <= a.mg <= 70000 * n,
            -70000 * n <= a.eg <= 70000 * n,
            0 <= a.phase <= 4 * n,
            0 <= a.danger <= 5120 * n,
            0 <= a.attackers <= n,
            a.mg + sum_over(b, mg_fn(cells)) == sum_over(all, mg_fn(cells)),
            a.eg + sum_over(b, eg_fn(cells)) == sum_over(all, eg_fn(cells)),
            a.phase + sum_over(b, phase_fn(cells)) == sum_over(all, phase_fn(cells)),
            a.danger + sum_over(b, danger_fn(cells, k)) == sum_over(all, danger_fn(cells, k)),
            a.attackers + sum_over(b, attacker_fn(cells, k)) == sum_over(all, attacker_fn(cells, k)),
        decreases b,
    {
        let ghost b0 = b;
        proof {
            bits::lemma_rest(b0);
            bits::lemma_low(b0);
            bits::lemma_rest_smaller(b0);
        }
        let sq = pop_lsb(&mut b);
        proof {
            pos::lemma_cells(*pos, sq as int);
            assert(bits::mem(all, sq as int));
            n = n + 1;
        }
        let r = piece_terms(pos, t, &w, zone_bb, c, sq);
        let pt = pos.piece_at(sq) as usize;
        assert(0 <= PHASE_W@[pt as int] <= 4);
        a.mg = a.mg + r.mg;
        a.eg = a.eg + r.eg;
        a.phase = a.phase + PHASE_W[pt];
        a.danger = a.danger + r.danger;
        if r.hit {
            a.attackers = a.attackers + 1;
        }
        assert(attacker_term(cells, sq as int, k) == if r.hit {
            1int
        } else {
            0
        });
    }
    a
}

/// The whole middlegame, endgame and phase contribution of one side.
fn score_side(pos: &Position, t: &Tables, c: usize) -> (r: (i32, i32, i32))
    requires
        pos.board_ok(),
        c < 2,
        geom::is_sq(pos.king(1 - c)),
        geom::is_sq(pos.king(c as int)),
    ensures
        r.0 == pos.mg_side(c as int),
        r.1 == pos.eg_side(c as int),
        r.2 == pos.phase_side(c as int),
        -4_700_000 <= r.0 <= 4_700_000,
        -4_700_000 <= r.1 <= 4_700_000,
        0 <= r.2 <= 256,
{
    proof {
        reveal(Position::mg_side);
        reveal(Position::eg_side);
        reveal(Position::phase_side);
        reveal(Position::attack);
        reveal(Position::has_pair);
        reveal(shelter);
    }
    let ghost cells = pos.cells();
    let a = sum_side(pos, t, c);
    let (mut mg, mut eg) = (a.mg, a.eg);
    let pair = pos.pieces(c, BISHOP_P);
    proof {
        let f = |s: int| cells[s] == c * 6 + 2;
        assert forall|x: int| geom::is_sq(x) implies (#[trigger] bits::mem(pair, x) <==> f(x)) by {
            pos::lemma_cells(*pos, x);
        }
        geom::lemma_is_set(pair, f);
        let g = |s: int| pos.cells()[s] == c * 6 + 2;
        geom::lemma_is_set(pair, g);
    }
    if more_than_one(pair) {
        mg = mg + BISHOP_PAIR[0];
        eg = eg + BISHOP_PAIR[1];
    }
    // A lone attacker is noise; pressure only counts when it is coordinated.
    if a.attackers >= 2 {
        let m = if a.attackers < 6 {
            a.attackers
        } else {
            6
        };
        assert(0 <= a.danger * m <= 327_680 * 6) by (nonlinear_arith)
            requires
                0 <= a.danger <= 327_680,
                0 <= m <= 6,
        ;
        mg = mg + (a.danger * m) / 16;
    }
    // Pawn shelter in front of our own king.
    let ksq = pos.king_sq(c);
    let around = king_attacks(t.attacks(), ksq);
    let before = push(bit(ksq) | around, c);
    let cover = around & before & pos.pieces(c, PAWN_P);
    proof {
        let k = ksq as int;
        let f = |x: int|
            cells[x] == c * 6 && geom::king_sees(k, x) && geom::is_sq(rules::back(c as int, x)) && zone(
                k,
                rules::back(c as int, x),
            );
        assert forall|x: int| geom::is_sq(x) implies (#[trigger] bits::mem(cover, x) <==> f(x)) by {
            pos::lemma_cells(*pos, x);
            assert(bits::mem(before, x) <==> bits::mem(
                bits::one(k) | geom::king_bb(k),
                rules::back(c as int, x),
            ));
        }
        geom::lemma_is_set(cover, f);
        assert(bits::card(cover) == shelter(cells, c as int, k));
    }
    mg = mg + 6 * popcount(cover) as i32;
    (mg, eg, a.phase)
}

/// The officers of `c`, at endgame values.
fn officers(pos: &Position, c: usize) -> (r: i32)
    requires
        pos.board_ok(),
        c < 2,
    ensures
        r == pos.material(c as int),
        0 <= r <= 64 * 936,
{
    proof {
        reveal(Position::material);
    }
    let ghost cells = pos.cells();
    let ghost f = |s: int|
        if is_officer(cells[s]) {
            EG_VAL@[cells[s] % 6] as int
        } else {
            0
        };
    let all = pos.color[c];
    let mut b = all;
    let mut r: i32 = 0;
    let ghost mut n: int = 0;
    proof {
        bits::lemma_card_64(b);
    }
    while b != 0
        invariant
            pos.board_ok(),
            c < 2,
            cells == pos.cells(),
            all == pos.color@[c as int],
            f == (|s: int|
                if is_officer(cells[s]) {
                    EG_VAL@[cells[s] % 6] as int
                } else {
                    0
                }),
            forall|x: int| #[trigger] bits::mem(b, x) ==> bits::mem(all, x),
            0 <= n,
            n + bits::card(b) <= 64,
            0 <= r <= 936 * n,
            r + sum_over(b, f) == sum_over(all, f),
        decreases b,
    {
        proof {
            bits::lemma_rest(b);
            bits::lemma_low(b);
            bits::lemma_rest_smaller(b);
        }
        let sq = pop_lsb(&mut b);
        proof {
            pos::lemma_cells(*pos, sq as int);
            assert(bits::mem(all, sq as int));
            n = n + 1;
        }
        let pt = pos.piece_at(sq) as usize;
        if pt != PAWN_P && pt != KING_P {
            r = r + EG_VAL[pt];
        }
    }
    r
}

/// Pull scores toward zero when the stronger side has no pawns to convert with.
/// The score is the side to move's.
fn scale_drawish(pos: &Position, score: i32) -> (r: i32)
    requires
        pos.board_ok(),
        pos.stm < 2,
        score > i32::MIN,
    ensures
        r == pos.scaled(score as int),
{
    let strong = if score > 0 {
        pos.stm
    } else {
        1 - pos.stm
    };
    if pos.pieces(strong, PAWN_P) == 0 {
        let mat = officers(pos, strong);
        let their = officers(pos, 1 - strong);
        if mat - their < EG_VAL[ROOK_P] {
            return score / 4;
        }
    }
    score
}

pub fn hand_crafted(pos: &Position, t: &Tables) -> (r: i32)
    requires
        pos.board_ok(),
        pos.stm < 2,
        geom::is_sq(pos.king(0)),
        geom::is_sq(pos.king(1)),
    ensures
        r == pos.worth(),
        -10_000_000 <= r <= 10_000_000,
{
    if pos.is_material_draw() {
        return 0;
    }
    let w = score_side(pos, t, 0);
    let b = score_side(pos, t, 1);
    let phase = if w.2 + b.2 < MAX_PHASE {
        w.2 + b.2
    } else {
        MAX_PHASE
    };
    let (mg, eg) = (w.0 - b.0, w.1 - b.1);
    let rest = MAX_PHASE - phase;
    proof {
        assert(-225_600_000 <= mg * phase <= 225_600_000) by (nonlinear_arith)
            requires
                -9_400_000 <= mg <= 9_400_000,
                0 <= phase <= 24,
        ;
        assert(-225_600_000 <= eg * rest <= 225_600_000) by (nonlinear_arith)
            requires
                -9_400_000 <= eg <= 9_400_000,
                0 <= rest <= 24,
        ;
        assert(-9_400_000 * 24 <= mg * phase + eg * rest <= 9_400_000 * 24) by (nonlinear_arith)
            requires
                -9_400_000 <= mg <= 9_400_000,
                -9_400_000 <= eg <= 9_400_000,
                0 <= phase <= 24,
                rest == 24 - phase,
        ;
    }
    let score = (mg * phase + eg * rest) / MAX_PHASE;
    proof {
        reveal(Position::tapered);
        assert(score == pos.tapered());
    }
    let score = if pos.stm == WHITE {
        score + TEMPO
    } else {
        -score + TEMPO
    };
    scale_drawish(pos, score)
}

/// The full evaluation of `p` with the network `n`.
pub open spec fn score(n: Brain, p: Position) -> int {
    if p.bare() {
        0
    } else if n.loaded {
        n.reply(p)
    } else {
        p.worth()
    }
}

/// The network after `p` was evaluated with it.
pub open spec fn after(n: Brain, p: Position) -> Brain {
    if !p.bare() && n.loaded {
        n.told(p)
    } else {
        n
    }
}

/// Full evaluation, from the side to move's point of view. Insufficient
/// material is a draw by rule, whatever anything has learned; otherwise the
/// network is the whole evaluation, and the hand-crafted terms stand in for it
/// where none is loaded.
pub fn evaluate(pos: &Position, t: &Tables, n: &mut Net) -> (r: i32)
    requires
        old(n).wf(),
        pos.board_ok(),
        pos.stm < 2,
        geom::is_sq(pos.king(0)),
        geom::is_sq(pos.king(1)),
    ensures
        final(n).wf(),
        r == score(old(n)@, *pos),
        final(n)@ == after(old(n)@, *pos),
        -10_000_000 <= r <= 10_000_000,
{
    if pos.is_material_draw() {
        return 0;
    }
    if infer::is_loaded(n) {
        infer::evaluate(n, t, pos)
    } else {
        hand_crafted(pos, t)
    }
}

} // verus!
