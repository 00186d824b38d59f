//! The rules of the game, stated on the cells of a board.
//!
//! Nothing here is about bitboards: a move rewrites cells, and a move is legal
//! when it is of a shape the pieces allow and leaves its own king unattacked.

use vstd::prelude::*;
use crate::bits;
use crate::geom;
use crate::moves::Move;
use crate::pos;
use crate::pos::Position;
use crate::zobrist;

verus! {

broadcast use {crate::bits::group_mem, crate::geom::group_geom};

/// Where the rook of a castling move starts and ends.
pub open spec fn rook_path(us: int, k: int) -> (int, int) {
    if k == 2 {
        if us == 0 {
            (7, 5)
        } else {
            (63, 61)
        }
    } else if us == 0 {
        (0, 3)
    } else {
        (56, 59)
    }
}

/// One rank back from `s`, as `us` sees it.
pub open spec fn back(us: int, s: int) -> int {
    if us == 0 {
        s - 8
    } else {
        s + 8
    }
}

/// The square of the king of `us` at the start of the game.
pub open spec fn home(us: int) -> int {
    if us == 0 {
        4
    } else {
        60
    }
}

/// The board after `m`.
pub open spec fn moved(cells: Seq<int>, us: int, m: Move) -> Seq<int> {
    let (f, t, k) = (m.f(), m.t(), m.k());
    let code = cells[f];
    if k == 2 || k == 3 {
        let (rf, rt) = rook_path(us, k);
        cells.update(f, 12).update(t, code).update(rf, 12).update(rt, us * 6 + 3)
    } else if k == 5 {
        cells.update(back(us, t), 12).update(f, 12).update(t, code)
    } else if k >= 8 {
        cells.update(f, 12).update(t, us * 6 + m.promo_spec())
    } else {
        cells.update(f, 12).update(t, code)
    }
}

/// The type of the piece that `m` takes; 6 if it takes none.
pub open spec fn victim(cells: Seq<int>, m: Move) -> int {
    if m.k() == 5 {
        0
    } else if m.cap() {
        cells[m.t()] % 6
    } else {
        6
    }
}

/// The board before `m`, which took a piece of type `cap`.
pub open spec fn unmoved(cells: Seq<int>, us: int, m: Move, cap: int) -> Seq<int> {
    let (f, t, k) = (m.f(), m.t(), m.k());
    let code = cells[t];
    if k == 2 || k == 3 {
        let (rf, rt) = rook_path(us, k);
        cells.update(t, 12).update(f, us * 6 + 5).update(rt, 12).update(rf, us * 6 + 3)
    } else if k == 5 {
        cells.update(t, 12).update(f, us * 6).update(back(us, t), (1 - us) * 6)
    } else {
        let home_code = if k >= 8 {
            us * 6
        } else {
            code
        };
        cells.update(f, home_code).update(
            t,
            if cap >= 6 {
                12
            } else {
                (1 - us) * 6 + cap
            },
        )
    }
}

/// `m` describes a rewrite the board can take: the right pieces stand on the
/// squares it names. How pieces move is not part of it.
pub open spec fn playable(cells: Seq<int>, us: int, m: Move) -> bool {
    let (f, t, k) = (m.f(), m.t(), m.k());
    let them = 1 - us;
    &&& f != t
    &&& pos::owned(cells[f], us)
    &&& if k == 2 || k == 3 {
        let (rf, rt) = rook_path(us, k);
        &&& f == home(us)
        &&& t == if k == 2 {
            f + 2
        } else {
            f - 2
        }
        &&& cells[f] == us * 6 + 5
        &&& cells[t] == 12
        &&& cells[rf] == us * 6 + 3
        &&& cells[rt] == 12
    } else if k == 5 {
        &&& cells[f] == us * 6
        &&& cells[t] == 12
        &&& geom::is_sq(back(us, t))
        &&& cells[back(us, t)] == them * 6
    } else if k == 1 {
        &&& cells[f] == us * 6
        &&& f == back(us, back(us, t))
        &&& geom::is_sq(back(us, t))
        &&& geom::rk(f) == if us == 0 {
            1int
        } else {
            6
        }
        &&& cells[t] == 12
        &&& cells[back(us, t)] == 12
    } else {
        &&& k == 0 || k == 4 || k >= 8
        &&& k >= 8 ==> cells[f] == us * 6
        &&& if m.cap() {
            pos::owned(cells[t], them) && cells[t] != them * 6 + 5
        } else {
            cells[t] == 12
        }
    }
}

/// A playable move can be taken back, and taking it back restores the board.
pub proof fn lemma_unmoved(cells: Seq<int>, us: int, m: Move)
    requires
        cells.len() == 64,
        0 <= us < 2,
        playable(cells, us, m),
    ensures
        unmoved(moved(cells, us, m), us, m, victim(cells, m)) == cells,
{
    assert(unmoved(moved(cells, us, m), us, m, victim(cells, m)) =~= cells);
}

/// `m`, which took a piece of type `cap`, can be taken back from this board.
pub open spec fn takeable(cells: Seq<int>, us: int, m: Move, cap: int) -> bool {
    let (f, t, k) = (m.f(), m.t(), m.k());
    &&& f != t
    &&& cells[f] == 12
    &&& pos::owned(cells[t], us)
    &&& 0 <= cap <= 6
    &&& if k == 2 || k == 3 {
        let (rf, rt) = rook_path(us, k);
        &&& f == home(us)
        &&& t == if k == 2 {
            f + 2
        } else {
            f - 2
        }
        &&& cells[t] == us * 6 + 5
        &&& cells[rt] == us * 6 + 3
        &&& cells[rf] == 12
    } else if k == 5 {
        &&& cells[t] == us * 6
        &&& geom::is_sq(back(us, t))
        &&& back(us, t) != f
        &&& cells[back(us, t)] == 12
    } else {
        k >= 8 ==> cells[t] == us * 6 + m.promo_spec()
    }
}

/// What was played can be taken back.
pub proof fn lemma_takeable(cells: Seq<int>, us: int, m: Move)
    requires
        cells.len() == 64,
        0 <= us < 2,
        playable(cells, us, m),
    ensures
        takeable(moved(cells, us, m), us, m, victim(cells, m)),
{
}

// ---------------------------------------------------------------------------
// State besides the board
// ---------------------------------------------------------------------------

/// The rights that survive a move touching `s`: what a king or rook leaving
/// its home square, or a rook taken there, does not cost.
pub open spec fn rights_mask(s: int) -> u8 {
    if s == 0 {
        13
    } else if s == 4 {
        12
    } else if s == 7 {
        14
    } else if s == 56 {
        7
    } else if s == 60 {
        3
    } else if s == 63 {
        11
    } else {
        15
    }
}

/// The castling rights after a move.
pub open spec fn rights_after(castle: u8, m: Move) -> u8 {
    castle & rights_mask(m.f()) & rights_mask(m.t())
}

/// Castling rights are only held with king and rook at home.
pub open spec fn rights_ok(castle: u8, cells: Seq<int>) -> bool {
    &&& castle < 16
    &&& castle & 1 != 0 ==> cells[4] == 5 && cells[7] == 3
    &&& castle & 2 != 0 ==> cells[4] == 5 && cells[0] == 3
    &&& castle & 4 != 0 ==> cells[60] == 11 && cells[63] == 9
    &&& castle & 8 != 0 ==> cells[60] == 11 && cells[56] == 9
}

/// The en-passant square is one that a pawn of the other side just skipped, and
/// that some pawn attacks.
pub open spec fn ep_ok(ep: int, stm: int, cells: Seq<int>) -> bool {
    ep == 64 || {
        &&& geom::is_sq(ep)
        &&& geom::rk(ep) == if stm == 0 {
            5int
        } else {
            2
        }
        &&& cells[ep] == 12
        &&& cells[back(stm, ep)] == (1 - stm) * 6
        &&& ep_open(ep, stm, cells)
    }
}

/// Some pawn of the side to move attacks the en-passant square.
pub open spec fn ep_open(ep: int, stm: int, cells: Seq<int>) -> bool {
    exists|f: int| geom::is_sq(f) && #[trigger] cells[f] == stm * 6 && geom::pawn_sees(stm, f, ep)
}

/// The en-passant square after `m`: the square a double push skipped, kept only
/// when an enemy pawn could capture there.
pub open spec fn ep_after(p: Position, m: Move) -> int {
    let us = p.stm as int;
    let e = back(us, m.t());
    if m.k() == 1 && geom::pawn_bb(us, e) & p.of(1 - us, 0) != 0 {
        e
    } else {
        64
    }
}

/// The half-move clock after `m`.
pub open spec fn clock_after(p: Position, m: Move) -> int {
    if m.cap() || m.pro() || p.cells()[m.f()] % 6 == 0 {
        0
    } else {
        (p.halfmove + 1) % 65536
    }
}

pub open spec fn ep_part(ep: int) -> u64 {
    if ep == 64 {
        0
    } else {
        zobrist::zep(geom::fl(ep))
    }
}

pub open spec fn side_part(stm: int) -> u64 {
    if stm == 1 {
        zobrist::zside()
    } else {
        0
    }
}

/// What the position key holds besides the pieces.
pub open spec fn extra_key(castle: int, ep: int, stm: int) -> u64 {
    zobrist::zcastle(castle) ^ ep_part(ep) ^ side_part(stm)
}

/// The position key of a board and its state, computed from nothing.
pub open spec fn full_key(cells: Seq<int>, castle: int, ep: int, stm: int) -> u64 {
    extra_key(castle, ep, stm) ^ zobrist::board_key(zobrist::Cover::All, cells, 64)
}

/// The rank on which pawns of `us` promote.
pub open spec fn goal(us: int) -> int {
    if us == 0 {
        7
    } else {
        0
    }
}

/// Castling is open: the right is held, the squares between king and rook are
/// empty, and the king is not in check and neither passes nor reaches an
/// attacked square.
pub open spec fn castle_open(p: Position, k: int) -> bool {
    let us = p.stm as int;
    let (e, cells) = (home(us), p.cells());
    let occ = pos::occ_of(cells);
    if k == 2 {
        &&& p.castle & (if us == 0 { 1u8 } else { 4u8 }) != 0
        &&& cells[e + 1] == 12 && cells[e + 2] == 12
        &&& !pos::attacked(cells, 1 - us, e, occ)
        &&& !pos::attacked(cells, 1 - us, e + 1, occ)
        &&& !pos::attacked(cells, 1 - us, e + 2, occ)
    } else {
        &&& p.castle & (if us == 0 { 2u8 } else { 8u8 }) != 0
        &&& cells[e - 1] == 12 && cells[e - 2] == 12 && cells[e - 3] == 12
        &&& !pos::attacked(cells, 1 - us, e, occ)
        &&& !pos::attacked(cells, 1 - us, e - 1, occ)
        &&& !pos::attacked(cells, 1 - us, e - 2, occ)
    }
}

/// `m` is a move the pieces of the side to move can make, whether or not it
/// leaves their king attacked.
pub open spec fn pseudo(p: Position, m: Move) -> bool {
    let us = p.stm as int;
    let them = 1 - us;
    let (cells, f, t, k) = (p.cells(), m.f(), m.t(), m.k());
    let occ = pos::occ_of(cells);
    let pawn = cells[f] == us * 6;
    &&& pos::owned(cells[f], us)
    &&& if k == 0 {
        &&& cells[t] == 12
        &&& if pawn {
            f == back(us, t) && geom::rk(t) != goal(us)
        } else {
            pos::hits(cells[f], f, t, occ)
        }
    } else if k == 1 {
        &&& pawn
        &&& f == back(us, back(us, t))
        &&& geom::rk(f) == if us == 0 {
            1int
        } else {
            6
        }
        &&& cells[t] == 12
        &&& cells[back(us, t)] == 12
    } else if k == 2 || k == 3 {
        &&& f == home(us)
        &&& t == if k == 2 {
            f + 2
        } else {
            f - 2
        }
        &&& castle_open(p, k)
    } else if k == 4 {
        &&& pos::owned(cells[t], them)
        &&& if pawn {
            geom::pawn_sees(us, f, t) && geom::rk(t) != goal(us)
        } else {
            pos::hits(cells[f], f, t, occ)
        }
    } else if k == 5 {
        pawn && p.ep != 64 && t == p.ep && geom::pawn_sees(us, f, t)
    } else if 8 <= k < 12 {
        pawn && f == back(us, t) && geom::rk(t) == goal(us) && cells[t] == 12
    } else if 12 <= k < 16 {
        pawn && geom::pawn_sees(us, f, t) && geom::rk(t) == goal(us) && pos::owned(cells[t], them)
    } else {
        false
    }
}

/// The square of the king of the side to move once `m` is made.
pub open spec fn king_after(p: Position, m: Move) -> int {
    let k = p.king(p.stm as int);
    if m.f() == k {
        m.t()
    } else {
        k
    }
}

/// `m` does not leave the king of the side to move attacked.
pub open spec fn king_safe(p: Position, m: Move) -> bool {
    let us = p.stm as int;
    let next = moved(p.cells(), us, m);
    !pos::attacked(next, 1 - us, king_after(p, m), pos::occ_of(next))
}

/// The legal moves of a position.
pub open spec fn legal(p: Position, m: Move) -> bool {
    pseudo(p, m) && king_safe(p, m)
}

/// Captures, en passant and queen promotions: what quiescence looks at.
pub open spec fn tactical(m: Move) -> bool {
    m.k() == 4 || m.k() == 5 || m.k() == 11 || m.k() == 15
}

impl Position {
    /// The three incremental keys are those of the board.
    pub open spec fn keys_ok(self) -> bool {
        &&& self.key == full_key(self.cells(), self.castle as int, self.ep as int, self.stm as int)
        &&& self.pawn_key == zobrist::board_key(zobrist::Cover::Pawns, self.cells(), 64)
        &&& self.np_key == zobrist::board_key(zobrist::Cover::Others, self.cells(), 64)
    }

    /// One king each.
    pub open spec fn kings_ok(self) -> bool {
        pos::king_at(self.cells(), 0, self.king(0)) && pos::king_at(self.cells(), 1, self.king(1))
    }

    /// A position whose parts agree with each other. The side to move may still
    /// be able to take the enemy king.
    pub open spec fn sound(self) -> bool {
        &&& self.stm < 2
        &&& self.board_ok()
        &&& self.kings_ok()
        &&& rights_ok(self.castle, self.cells())
        &&& ep_ok(self.ep as int, self.stm as int, self.cells())
        &&& self.checkers == self.checkers_bb()
        &&& self.keys_ok()
    }

    /// The side that is not to move is not in check.
    pub open spec fn quiet_enemy(self) -> bool {
        !pos::attacked(
            self.cells(),
            self.stm as int,
            self.king(1 - self.stm),
            pos::occ_of(self.cells()),
        )
    }

    /// A position of the game.
    pub open spec fn wf(self) -> bool {
        self.sound() && self.quiet_enemy()
    }

    /// There is room to make `n` more moves.
    pub open spec fn room(self, n: int) -> bool {
        &&& self.ply + n <= 136
        &&& self.hist_len + n <= 4232
    }

    /// `o` is this position in everything a game depends on: only storage above
    /// the current ply and beyond the current history may differ.
    pub open spec fn same_game(self, o: Position) -> bool {
        &&& self.piece@ == o.piece@
        &&& self.color@ == o.color@
        &&& self.mailbox@ == o.mailbox@
        &&& self.stm == o.stm
        &&& self.castle == o.castle
        &&& self.ep == o.ep
        &&& self.halfmove == o.halfmove
        &&& self.ply == o.ply
        &&& self.key == o.key
        &&& self.pawn_key == o.pawn_key
        &&& self.np_key == o.np_key
        &&& self.checkers == o.checkers
        &&& self.hist_len == o.hist_len
        &&& self.root_ply == o.root_ply
        &&& forall|i: int| 0 <= i < self.ply && i < 136 ==> self.stack@[i] == #[trigger] o.stack@[i]
        &&& forall|i: int|
            0 <= i < self.hist_len && i < 4232 ==> self.hist@[i] == #[trigger] o.hist@[i]
    }
}

/// Boards with the same cells have the same bitboards.
pub proof fn lemma_same_board(p: Position, q: Position)
    requires
        p.board_ok(),
        q.board_ok(),
        p.cells() == q.cells(),
    ensures
        p.piece@ == q.piece@,
        p.color@ == q.color@,
        p.mailbox@ == q.mailbox@,
{
    assert forall|t: int| 0 <= t < 6 implies p.piece@[t] == #[trigger] q.piece@[t] by {
        assert forall|s: int| 0 <= s < 64 implies bits::mem(p.piece@[t], s) == bits::mem(
            q.piece@[t],
            s,
        ) by {
            pos::lemma_cells(p, s);
            pos::lemma_cells(q, s);
        }
        bits::lemma_ext(p.piece@[t], q.piece@[t]);
    }
    assert forall|c: int| 0 <= c < 2 implies p.color@[c] == #[trigger] q.color@[c] by {
        assert forall|s: int| 0 <= s < 64 implies bits::mem(p.color@[c], s) == bits::mem(
            q.color@[c],
            s,
        ) by {
            pos::lemma_cells(p, s);
            pos::lemma_cells(q, s);
        }
        bits::lemma_ext(p.color@[c], q.color@[c]);
    }
    assert forall|s: int| 0 <= s < 64 implies p.mailbox@[s] == #[trigger] q.mailbox@[s] by {
        pos::lemma_cells(p, s);
        pos::lemma_cells(q, s);
    }
    assert(p.piece@ =~= q.piece@);
    assert(p.color@ =~= q.color@);
    assert(p.mailbox@ =~= q.mailbox@);
}

} // verus!
