//! Deciding whether a position is one of the game.
//!
//! Text can describe anything. What the rest of the engine requires of a
//! position is tested here, part by part.

use vstd::prelude::*;
use crate::bb::{bit, file_of, pawn_attacks, Bb};
use crate::bits;
use crate::geom;
use crate::pos;
use crate::pos::{Position, BISHOP_P, BLACK, KING_P, KNIGHT_P, NONE, PAWN_P, QUEEN_P, ROOK_P, WHITE};
use crate::rules;
use crate::tables::Tables;
use crate::zobrist;

verus! {

broadcast use {crate::bits::group_mem, crate::geom::group_geom};

/// The board part of one square.
spec fn square_ok(p: Position, s: int) -> bool {
    let x = p.mailbox@[s] as int;
    &&& x <= 6
    &&& bits::mem(p.piece@[0], s) <==> x == 0
    &&& bits::mem(p.piece@[1], s) <==> x == 1
    &&& bits::mem(p.piece@[2], s) <==> x == 2
    &&& bits::mem(p.piece@[3], s) <==> x == 3
    &&& bits::mem(p.piece@[4], s) <==> x == 4
    &&& bits::mem(p.piece@[5], s) <==> x == 5
    &&& x < 6 <==> bits::mem(p.color@[0], s) || bits::mem(p.color@[1], s)
    &&& !(bits::mem(p.color@[0], s) && bits::mem(p.color@[1], s))
}

proof fn lemma_squares(p: Position)
    ensures
        p.board_ok() <==> forall|s: int| geom::is_sq(s) ==> #[trigger] square_ok(p, s),
{
    if p.board_ok() {
        assert forall|s: int| geom::is_sq(s) implies #[trigger] square_ok(p, s) by {
            assert(p.mailbox@[s] <= 6);
            assert(bits::mem(p.color@[0], s) || !bits::mem(p.color@[0], s));
        }
    }
    if forall|s: int| geom::is_sq(s) ==> #[trigger] square_ok(p, s) {
        assert forall|s: int| geom::is_sq(s) implies #[trigger] p.mailbox@[s] <= 6 by {
            assert(square_ok(p, s));
        }
        assert forall|t: int, s: int|
            #![trigger bits::mem(p.piece@[t], s)]
            0 <= t < 6 && geom::is_sq(s) implies (bits::mem(p.piece@[t], s) <==> p.mailbox@[s]
            == t) by {
            assert(square_ok(p, s));
        }
        assert forall|s: int|
            #![trigger bits::mem(p.color@[0], s)]
            #![trigger bits::mem(p.color@[1], s)]
            geom::is_sq(s) implies {
            &&& p.mailbox@[s] < 6 <==> bits::mem(p.color@[0], s) || bits::mem(p.color@[1], s)
            &&& !(bits::mem(p.color@[0], s) && bits::mem(p.color@[1], s))
        } by {
            assert(square_ok(p, s));
        }
    }
}

impl Position {
    /// The code of a square: colour and type, or 12.
    fn code_at(&self, sq: usize) -> (r: u8)
        requires
            self.board_ok(),
            sq < 64,
        ensures
            r == self.cells()[sq as int],
    {
        proof {
            pos::lemma_cells(*self, sq as int);
        }
        let x = self.piece_at(sq);
        if x == NONE {
            12
        } else if self.color_at(sq) == BLACK {
            6 + x
        } else {
            x
        }
    }

    pub(crate) fn is_board_ok(&self) -> (r: bool)
        ensures
            r == self.board_ok(),
    {
        proof {
            lemma_squares(*self);
        }
        let mut s: usize = 0;
        while s < 64
            invariant
                s <= 64,
                self.board_ok() <==> forall|q: int| geom::is_sq(q) ==> #[trigger] square_ok(
                    *self,
                    q,
                ),
                forall|q: int| 0 <= q < s ==> #[trigger] square_ok(*self, q),
            decreases 64 - s,
        {
            let x = self.mailbox[s] as usize;
            let b = bit(s);
            let (w, k) = (self.color[WHITE] & b != 0, self.color[BLACK] & b != 0);
            let ok = x <= 6 && (self.piece[PAWN_P] & b != 0) == (x == PAWN_P) && (
            self.piece[KNIGHT_P] & b != 0) == (x == KNIGHT_P) && (self.piece[BISHOP_P] & b != 0)
                == (x == BISHOP_P) && (self.piece[ROOK_P] & b != 0) == (x == ROOK_P) && (
            self.piece[QUEEN_P] & b != 0) == (x == QUEEN_P) && (self.piece[KING_P] & b != 0) == (x
                == KING_P) && (x < 6) == (w || k) && !(w && k);
            assert(ok == square_ok(*self, s as int));
            if !ok {
                return false;
            }
            s = s + 1;
        }
        true
    }

    fn is_king_ok(&self, c: usize) -> (r: bool)
        requires
            self.board_ok(),
            c < 2,
        ensures
            r == pos::king_at(self.cells(), c as int, self.king(c as int)),
    {
        let k = self.king_sq(c);
        if k >= 64 {
            return false;
        }
        let ghost cells = self.cells();
        proof {
            let b = self.of(c as int, 5);
            bits::lemma_low(b);
            pos::lemma_cells(*self, k as int);
        }
        let mut s: usize = 0;
        while s < 64
            invariant
                s <= 64,
                c < 2,
                k < 64,
                self.board_ok(),
                cells == self.cells(),
                k == self.king(c as int),
                cells[k as int] == c * 6 + 5,
                forall|q: int| 0 <= q < s && #[trigger] cells[q] == c * 6 + 5 ==> q == k,
            decreases 64 - s,
        {
            if self.code_at(s) as usize == c * 6 + 5 && s != k {
                return false;
            }
            s = s + 1;
        }
        true
    }

    fn is_rights_ok(&self) -> (r: bool)
        requires
            self.board_ok(),
        ensures
            r == rules::rights_ok(self.castle, self.cells()),
    {
        let wk = self.code_at(4) == 5;
        let bk = self.code_at(60) == 11;
        let c = self.castle;
        c < 16 && (c & 1 == 0 || (wk && self.code_at(7) == 3)) && (c & 2 == 0 || (wk
            && self.code_at(0) == 3)) && (c & 4 == 0 || (bk && self.code_at(63) == 9)) && (c & 8
            == 0 || (bk && self.code_at(56) == 9))
    }

    fn is_ep_ok(&self, t: &Tables) -> (r: bool)
        requires
            self.board_ok(),
            self.stm < 2,
        ensures
            r == rules::ep_ok(self.ep as int, self.stm as int, self.cells()),
    {
        if self.ep == 64 {
            return true;
        }
        let e = self.ep as usize;
        let us = self.stm;
        let (rank, captured): (usize, usize) = if us == WHITE {
            (5, 6)
        } else {
            (2, 0)
        };
        if e >= 64 || e / 8 != rank {
            return false;
        }
        let c = if us == WHITE {
            e - 8
        } else {
            e + 8
        };
        if self.code_at(e) != 12 || self.code_at(c) as usize != captured {
            return false;
        }
        let b = pawn_attacks(t.attacks(), 1 - us, e) & self.pieces(us, PAWN_P);
        proof {
            let cells = self.cells();
            bits::lemma_low(b);
            bits::lemma_empty(b);
            if b != 0 {
                let f = bits::low(b);
                pos::lemma_cells(*self, f);
                geom::lemma_sees_sym(e as int, f, 0);
                geom::lemma_sees_sym(f, e as int, 0);
                assert(cells[f] == us * 6);
            }
            assert forall|f: int|
                geom::is_sq(f) && #[trigger] cells[f] == us * 6 && geom::pawn_sees(
                    us as int,
                    f,
                    e as int,
                ) implies b != 0 by {
                pos::lemma_cells(*self, f);
                geom::lemma_sees_sym(e as int, f, 0);
                geom::lemma_sees_sym(f, e as int, 0);
                assert(bits::mem(b, f));
            }
        }
        b != 0
    }

    fn is_keys_ok(&self, t: &Tables) -> (r: bool)
        requires
            self.board_ok(),
            self.stm < 2,
            self.castle < 16,
            self.ep <= 64,
        ensures
            r == self.keys_ok(),
    {
        let ghost cells = self.cells();
        let (mut all, mut pawns, mut others): (u64, u64, u64) = (0, 0, 0);
        let mut s: usize = 0;
        while s < 64
            invariant
                s <= 64,
                self.board_ok(),
                cells == self.cells(),
                all == zobrist::board_key(zobrist::Cover::All, cells, s as nat),
                pawns == zobrist::board_key(zobrist::Cover::Pawns, cells, s as nat),
                others == zobrist::board_key(zobrist::Cover::Others, cells, s as nat),
            decreases 64 - s,
        {
            let code = self.code_at(s) as usize;
            proof {
                pos::lemma_cells(*self, s as int);
                bits::lemma_xor(all, 0, 0);
                bits::lemma_xor(pawns, 0, 0);
                bits::lemma_xor(others, 0, 0);
            }
            if code < 12 {
                let k = t.psq(code / 6, code % 6, s);
                all = all ^ k;
                if code % 6 == PAWN_P {
                    pawns = pawns ^ k;
                } else {
                    others = others ^ k;
                }
            }
            s = s + 1;
        }
        let mut e: u64 = 0;
        if self.ep != 64 {
            e = t.ep_key(file_of(self.ep as usize));
        }
        let mut z: u64 = 0;
        if self.stm == BLACK {
            z = t.side_key();
        }
        let k = t.castle_key(self.castle) ^ e ^ z;
        self.key == k ^ all && self.pawn_key == pawns && self.np_key == others
    }

    /// Is this a position of the game? Everything else here takes that for
    /// granted, so a position read from text is tested once.
    pub fn is_wf(&self, t: &Tables) -> (r: bool)
        ensures
            r == self.wf(),
    {
        if self.stm >= 2 || !self.is_board_ok() {
            return false;
        }
        if !self.is_king_ok(WHITE) || !self.is_king_ok(BLACK) {
            return false;
        }
        if !self.is_rights_ok() || !self.is_ep_ok(t) || !self.is_keys_ok(t) {
            return false;
        }
        let us = self.stm;
        let (ours, theirs) = (self.king_sq(us), self.king_sq(1 - us));
        let occ = self.occ();
        let checkers: Bb = self.attackers_to(t, ours, occ) & self.color[1 - us];
        proof {
            pos::lemma_occ(*self);
            pos::lemma_attacked(*self, us as int, theirs as int, occ);
        }
        self.checkers == checkers && !self.attacked_by(t, us, theirs, occ)
    }
}

} // verus!
