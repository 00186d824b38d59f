//! Static exchange evaluation.

use vstd::prelude::*;
use crate::bb::{bishop_attacks, bit, lsb, rook_attacks, Bb};
use crate::bits;
use crate::eval::SEE_VAL;
use crate::geom;
use crate::make::back;
use crate::moves::Move;
use crate::pos;
use crate::pos::{Position, BISHOP_P, KING_P, PAWN_P, QUEEN_P, ROOK_P};
use crate::rules;
use crate::tables::Tables;

verus! {

broadcast use {crate::bits::group_mem, crate::geom::group_geom};

/// The least valuable piece type among the squares of `b`, from `pt` on.
pub open spec fn least(p: Position, b: u64, pt: int) -> int
    decreases 6 - pt,
{
    if pt >= 5 || b & p.piece@[pt] != 0 {
        pt
    } else {
        least(p, b, pt + 1)
    }
}

/// The attackers left once the piece of type `pt` has gone from `occ`: a
/// departing pawn or slider can uncover a slider behind it.
pub open spec fn uncovered(p: Position, to: int, occ: u64, att: u64, pt: int) -> u64 {
    let diag = if pt == 0 || pt == 2 || pt == 4 {
        geom::bishop_bb(to, occ) & (p.piece@[2] | p.piece@[4])
    } else {
        0
    };
    let orth = if pt == 3 || pt == 4 {
        geom::rook_bb(to, occ) & (p.piece@[3] | p.piece@[4])
    } else {
        0
    };
    (att | diag | orth) & occ
}

/// What side `s` can win by capturing a piece worth `v` on `to`, when both
/// sides always recapture with their least valuable attacker and may stop at
/// any time.
pub open spec fn exchange(p: Position, to: int, occ: u64, att: u64, s: int, v: int) -> int
    decreases bits::card(occ),
{
    let mine = att & p.color@[s] & occ;
    let pt = least(p, mine, 0);
    let sq = bits::low(mine & p.piece@[pt]);
    if mine & p.piece@[pt] == 0 {
        0
    } else {
        proof {
            bits::lemma_low(mine & p.piece@[pt]);
            lemma_leaves(occ, sq);
        }
        let occ2 = occ ^ bits::one(sq);
        let back = exchange(p, to, occ2, uncovered(p, to, occ2, att, pt), 1 - s, SEE_VAL@[pt] as int);
        if v > back {
            v - back
        } else {
            0
        }
    }
}

pub proof fn lemma_leaves(occ: u64, sq: int)
    requires
        bits::mem(occ, sq),
    ensures
        bits::card(occ ^ bits::one(sq)) < bits::card(occ),
{
    let r = occ ^ bits::one(sq);
    bits::lemma_card_or_one(r, sq);
    bits::lemma_ext(occ, r | bits::one(sq));
}

/// The piece type that `m` captures; 6 if none.
pub open spec fn taken(p: Position, m: Move) -> int {
    if m.k() == 5 {
        0
    } else {
        p.mailbox@[m.t()] as int
    }
}

/// What `m` wins at once.
pub open spec fn gain(p: Position, m: Move) -> int {
    SEE_VAL@[taken(p, m)] + if m.pro() {
        SEE_VAL@[m.promo_spec()] - SEE_VAL@[0]
    } else {
        0
    }
}

/// The piece type that stands on the target square after `m`.
pub open spec fn arrives(p: Position, m: Move) -> int {
    if m.pro() {
        m.promo_spec()
    } else {
        p.mailbox@[m.f()] as int
    }
}

/// The occupied squares of the exchange that `m` starts.
pub open spec fn arena(p: Position, m: Move) -> u64 {
    let o = p.occ_bb() ^ bits::one(m.f()) ^ bits::one(m.t());
    if m.k() == 5 {
        o ^ bits::one(rules::back(p.stm as int, m.t()))
    } else {
        o
    }
}

/// The material outcome of the capture sequence that `m` starts.
pub open spec fn see(p: Position, m: Move) -> int {
    if m.is_castle_spec() {
        0
    } else {
        let occ = arena(p, m);
        gain(p, m) - exchange(
            p,
            m.t(),
            occ,
            p.attackers(m.t(), occ) & occ,
            1 - p.stm,
            SEE_VAL@[arrives(p, m)] as int,
        )
    }
}

/// A capture never wins more than it takes.
proof fn lemma_exchange(p: Position, to: int, occ: u64, att: u64, s: int, v: int)
    requires
        v >= 0,
        0 <= s < 2,
    ensures
        0 <= exchange(p, to, occ, att, s, v) <= v,
    decreases bits::card(occ),
{
    let mine = att & p.color@[s] & occ;
    lemma_least(p, mine, 0);
    let pt = least(p, mine, 0);
    let b = mine & p.piece@[pt];
    if b != 0 {
        bits::lemma_low(b);
        let sq = bits::low(b);
        lemma_leaves(occ, sq);
        let occ2 = occ ^ bits::one(sq);
        lemma_exchange(
            p,
            to,
            occ2,
            uncovered(p, to, occ2, att, pt),
            1 - s,
            SEE_VAL@[pt] as int,
        );
    }
}

proof fn lemma_least(p: Position, b: u64, pt: int)
    requires
        0 <= pt < 6,
    ensures
        pt <= least(p, b, pt) < 6,
    decreases 6 - pt,
{
    if pt < 5 && b & p.piece@[pt] == 0 {
        lemma_least(p, b, pt + 1);
    }
}

/// Least valuable attacker first; anything else loses material.
fn least_of(pos: &Position, b: Bb) -> (pt: usize)
    ensures
        pt == least(*pos, b, 0),
        pt < 6,
{
    let mut pt: usize = PAWN_P;
    while pt < KING_P && b & pos.piece[pt] == 0
        invariant
            pt <= 5,
            least(*pos, b, pt as int) == least(*pos, b, 0),
        decreases 5 - pt,
    {
        pt = pt + 1;
    }
    pt
}

/// Static exchange evaluation, as a threshold test: is the material outcome of
/// this capture sequence at least `threshold`?
///
/// Answering a yes/no question instead of computing the exact swap value lets
/// the loop exit as soon as the sign is decided, which is most of the time.
pub fn see_ge(pos: &Position, t: &Tables, m: Move, threshold: i32) -> (r: bool)
    requires
        pos.board_ok(),
        pos.stm < 2,
        m.is_ep_spec() ==> geom::is_sq(rules::back(pos.stm as int, m.t())),
    ensures
        r == (see(*pos, m) >= threshold),
{
    if m.is_castle() {
        return 0 >= threshold;
    }
    let from = m.from();
    let to = m.to();
    let us = pos.stm;
    proof {
        pos::lemma_cells(*pos, from as int);
        pos::lemma_cells(*pos, to as int);
    }
    let captured = if m.is_ep() {
        PAWN_P
    } else {
        pos.piece_at(to) as usize
    };
    assert(0 <= SEE_VAL@[captured as int] <= 10_000);
    let mut balance = SEE_VAL[captured] as i64 - threshold as i64;
    if m.is_promo() {
        let q = m.promo();
        assert(0 <= SEE_VAL@[q as int] <= 10_000);
        balance = balance + (SEE_VAL[q] - SEE_VAL[PAWN_P]) as i64;
    }
    let next = if m.is_promo() {
        m.promo()
    } else {
        pos.piece_at(from) as usize
    };
    assert(0 <= SEE_VAL@[next as int] <= 10_000);
    let mut occ = pos.occ() ^ bit(from) ^ bit(to);
    if m.is_ep() {
        occ = occ ^ bit(back(us, to));
    }
    let mut att = pos.attackers_to(t, to, occ) & occ;
    let ghost want = gain(*pos, m) - exchange(
        *pos,
        to as int,
        occ,
        att,
        1 - us,
        SEE_VAL@[next as int] as int,
    ) >= threshold;
    proof {
        lemma_exchange(*pos, to as int, occ, att, 1 - us, SEE_VAL@[next as int] as int);
        assert(want == (see(*pos, m) >= threshold));
    }
    if balance < 0 {
        return false;
    }
    balance = balance - SEE_VAL[next] as i64;
    if balance >= 0 {
        return true;
    }
    let diag = pos.piece[BISHOP_P] | pos.piece[QUEEN_P];
    let orth = pos.piece[ROOK_P] | pos.piece[QUEEN_P];
    let mut stm = 1 - us;
    let ghost mut v: int = SEE_VAL@[next as int] as int;
    loop
        invariant
            pos.board_ok(),
            us < 2,
            us == pos.stm,
            to < 64,
            stm < 2,
            diag == pos.piece@[2] | pos.piece@[4],
            orth == pos.piece@[3] | pos.piece@[4],
            0 <= v <= 10_000,
            -v <= balance < 0,
            want == (see(*pos, m) >= threshold),
            want == ((exchange(*pos, to as int, occ, att, stm as int, v) <= v + balance) == (stm
                != us)),
        decreases bits::card(occ),
    {
        let mine = att & pos.color[stm] & occ;
        let pt = least_of(pos, mine);
        let b = mine & pos.piece[pt];
        if b == 0 {
            return stm != us;
        }
        let sq = lsb(b);
        proof {
            bits::lemma_low(b);
            lemma_leaves(occ, sq as int);
        }
        let ghost (occ0, att0) = (occ, att);
        occ = occ ^ bit(sq);
        let d = if pt == PAWN_P || pt == BISHOP_P || pt == QUEEN_P {
            bishop_attacks(t.attacks(), to, occ) & diag
        } else {
            0
        };
        let o = if pt == ROOK_P || pt == QUEEN_P {
            rook_attacks(t.attacks(), to, occ) & orth
        } else {
            0
        };
        att = (att | d | o) & occ;
        assert(att == uncovered(*pos, to as int, occ, att0, pt as int));
        assert(0 <= SEE_VAL@[pt as int] <= 10_000);
        proof {
            lemma_exchange(*pos, to as int, occ, att, 1 - stm, SEE_VAL@[pt as int] as int);
        }
        stm = 1 - stm;
        balance = -balance - 1 - SEE_VAL[pt] as i64;
        proof {
            v = SEE_VAL@[pt as int] as int;
        }
        // A king is worth more than all it could win, so an exchange it enters
        // is never decided before the answer.
        if balance >= 0 {
            return stm != us;
        }
    }
}

} // verus!
