//! Position: bitboards + mailbox, incremental Zobrist.

use vstd::prelude::*;
use crate::bb::{
    between, bishop_attacks, bit, king_attacks, knight_attacks, lsb, more_than_one, pawn_attacks,
    pop_lsb, popcount, rook_attacks, Bb,
};
use crate::bits;
use crate::geom;
use crate::tables::Tables;
use crate::zobrist;

verus! {

broadcast use {crate::bits::group_mem, crate::geom::group_geom};

pub const PAWN_P: usize = 0;

pub const KNIGHT_P: usize = 1;

pub const BISHOP_P: usize = 2;

pub const ROOK_P: usize = 3;

pub const QUEEN_P: usize = 4;

pub const KING_P: usize = 5;

pub const NONE: u8 = 6;

pub const WHITE: usize = 0;

pub const BLACK: usize = 1;

// Castle-rights bits.
pub const WK: u8 = 1;

pub const WQ: u8 = 2;

pub const BK: u8 = 4;

pub const BQ: u8 = 8;

pub const MAX_PLY: usize = 128;

/// Undo records: `MAX_PLY` and some slack.
pub const STACK: usize = 136;

/// Position keys of a whole game, 4096 of them, and of the moves on the stack.
pub const HIST: usize = 4232;

#[derive(Clone, Copy)]
pub struct Undo {
    pub castle: u8,
    pub ep: u8,  // 64 = none
    pub halfmove: u16,
    pub captured: u8,
    pub key: u64,
    pub pawn_key: u64,
    pub np_key: u64,
    pub checkers: Bb,
}

pub struct Position {
    pub piece: [Bb; 6],
    pub color: [Bb; 2],
    pub mailbox: [u8; 64],
    pub stm: usize,
    pub castle: u8,
    pub ep: u8,
    pub halfmove: u16,
    pub ply: usize,
    pub key: u64,
    pub pawn_key: u64,
    /// Key of everything on the board but the pawns.
    pub np_key: u64,
    pub checkers: Bb,
    pub stack: [Undo; 136],
    /// Position keys of the whole game, for repetition detection.
    pub hist: [u64; 4232],
    pub hist_len: usize,
    /// Index in `hist` of the last irreversible move.
    pub root_ply: usize,
}

// ---------------------------------------------------------------------------
// The board as a row of cells
// ---------------------------------------------------------------------------

/// A cell holds `colour * 6 + type`, or 12 when empty.
pub open spec fn is_piece(code: int) -> bool {
    0 <= code < 12
}

/// The piece `code` belongs to colour `c`.
pub open spec fn owned(code: int, c: int) -> bool {
    c * 6 <= code < c * 6 + 6
}

/// The occupied squares of a board.
pub open spec fn occ_of(cells: Seq<int>) -> u64 {
    geom::set_of(|s: int| cells[s] != 12)
}

/// A piece `code` on `s` attacks `t` when `occ` is occupied.
pub open spec fn hits(code: int, s: int, t: int, occ: u64) -> bool {
    let p = code % 6;
    if p == 0 {
        geom::pawn_sees(code / 6, s, t)
    } else if p == 1 {
        geom::knight_sees(s, t)
    } else if p == 2 {
        geom::bishop_sees(s, t, occ)
    } else if p == 3 {
        geom::rook_sees(s, t, occ)
    } else if p == 4 {
        geom::rook_sees(s, t, occ) || geom::bishop_sees(s, t, occ)
    } else {
        geom::king_sees(s, t)
    }
}

/// Some piece of colour `c` attacks `t`.
pub open spec fn attacked(cells: Seq<int>, c: int, t: int, occ: u64) -> bool {
    exists|s: int|
        #![trigger cells[s]]
        geom::is_sq(s) && owned(cells[s], c) && hits(cells[s], s, t, occ)
}

/// Exactly one king of colour `c`, on `k`.
pub open spec fn king_at(cells: Seq<int>, c: int, k: int) -> bool {
    &&& geom::is_sq(k)
    &&& cells[k] == c * 6 + 5
    &&& forall|s: int| geom::is_sq(s) && #[trigger] cells[s] == c * 6 + 5 ==> s == k
}

impl Position {
    pub open spec fn cell(self, s: int) -> int {
        if self.mailbox@[s] >= 6 {
            12
        } else if bits::mem(self.color@[1], s) {
            6 + self.mailbox@[s]
        } else {
            self.mailbox@[s] as int
        }
    }

    /// The board.
    pub open spec fn cells(self) -> Seq<int> {
        Seq::new(64, |s: int| self.cell(s))
    }

    /// Bitboards and mailbox describe the same board.
    pub open spec fn board_ok(self) -> bool {
        &&& forall|s: int| geom::is_sq(s) ==> #[trigger] self.mailbox@[s] <= 6
        &&& forall|p: int, s: int|
            #![trigger bits::mem(self.piece@[p], s)]
            0 <= p < 6 && geom::is_sq(s) ==> (bits::mem(self.piece@[p], s) <==> self.mailbox@[s]
                == p)
        &&& forall|s: int|
            #![trigger bits::mem(self.color@[0], s)]
            #![trigger bits::mem(self.color@[1], s)]
            geom::is_sq(s) ==> {
                &&& self.mailbox@[s] < 6 <==> bits::mem(self.color@[0], s) || bits::mem(
                    self.color@[1],
                    s,
                )
                &&& !(bits::mem(self.color@[0], s) && bits::mem(self.color@[1], s))
            }
    }

    pub open spec fn occ_bb(self) -> u64 {
        self.color@[0] | self.color@[1]
    }

    pub open spec fn of(self, c: int, p: int) -> u64 {
        self.piece@[p] & self.color@[c]
    }

    /// The king of colour `c`; 64 if it has none.
    pub open spec fn king(self, c: int) -> int {
        bits::low(self.of(c, 5))
    }

    /// Every piece that attacks `sq` when `occ` is occupied.
    pub open spec fn attackers(self, sq: int, occ: u64) -> u64 {
        (geom::pawn_bb(0, sq) & self.of(1, 0)) | (geom::pawn_bb(1, sq) & self.of(0, 0)) | (
        geom::knight_bb(sq) & self.piece@[1]) | (geom::king_bb(sq) & self.piece@[5]) | (
        geom::bishop_bb(sq, occ) & (self.piece@[2] | self.piece@[4])) | (geom::rook_bb(sq, occ) & (
        self.piece@[3] | self.piece@[4]))
    }

    /// Some piece of `them`, taken as colour `c`, attacks `sq` when `occ` is
    /// occupied.
    pub open spec fn struck(self, c: int, sq: int, occ: u64, them: u64) -> bool {
        ||| geom::pawn_bb(1 - c, sq) & self.piece@[0] & them != 0
        ||| geom::knight_bb(sq) & self.piece@[1] & them != 0
        ||| geom::king_bb(sq) & self.piece@[5] & them != 0
        ||| geom::bishop_bb(sq, occ) & (self.piece@[2] | self.piece@[4]) & them != 0
        ||| geom::rook_bb(sq, occ) & (self.piece@[3] | self.piece@[4]) & them != 0
    }

    /// The enemy pieces that attack the king of the side to move.
    pub open spec fn checkers_bb(self) -> u64 {
        let k = self.king(self.stm as int);
        if k < 64 {
            self.attackers(k, self.occ_bb()) & self.color@[1 - self.stm]
        } else {
            0
        }
    }

    /// A slider of the other side on `e` would attack the king of `c` but for
    /// the single piece on `s`, which belongs to `c`.
    pub open spec fn pins(self, c: int, e: int, s: int) -> bool {
        let k = self.king(c);
        &&& geom::is_sq(e)
        &&& bits::mem(self.color@[1 - c], e)
        &&& (bits::mem(self.piece@[3] | self.piece@[4], e) && geom::orth(k, e)) || (bits::mem(
            self.piece@[2] | self.piece@[4],
            e,
        ) && geom::diag(k, e))
        &&& geom::btw(k, s, e)
        &&& bits::mem(self.color@[c], s)
        &&& forall|x: int| #[trigger] geom::btw(k, x, e) && bits::mem(self.occ_bb(), x) ==> x == s
    }

    pub open spec fn is_pinned(self, c: int, s: int) -> bool {
        exists|e: int| #[trigger] self.pins(c, e, s)
    }

    /// The absolutely pinned pieces of colour `c`.
    pub open spec fn pinned_bb(self, c: int) -> u64 {
        geom::set_of(|s: int| self.is_pinned(c, s))
    }

    /// The key of the pieces a cover takes in.
    pub open spec fn part_key(self, k: zobrist::Cover) -> u64 {
        match k {
            zobrist::Cover::All => self.key,
            zobrist::Cover::Pawns => self.pawn_key,
            zobrist::Cover::Others => self.np_key,
        }
    }

    /// What a key holds besides the pieces on the board.
    pub open spec fn residue(self, k: zobrist::Cover) -> u64 {
        self.part_key(k) ^ zobrist::board_key(k, self.cells(), 64)
    }

    /// All three keys keep what they hold besides pieces.
    pub open spec fn same_residue(self, o: Position) -> bool {
        &&& self.residue(zobrist::Cover::All) == o.residue(zobrist::Cover::All)
        &&& self.residue(zobrist::Cover::Pawns) == o.residue(zobrist::Cover::Pawns)
        &&& self.residue(zobrist::Cover::Others) == o.residue(zobrist::Cover::Others)
    }
}

/// Reading the bitboards of a consistent board.
pub proof fn lemma_cells(p: Position, s: int)
    requires
        p.board_ok(),
        geom::is_sq(s),
    ensures
        p.cells()[s] == p.cell(s),
        p.cells()[s] == 12 || is_piece(p.cells()[s]),
        bits::mem(p.occ_bb(), s) <==> p.cells()[s] != 12,
        bits::mem(p.color@[0], s) <==> owned(p.cells()[s], 0),
        bits::mem(p.color@[1], s) <==> owned(p.cells()[s], 1),
        forall|c: int, t: int|
            #![trigger p.of(c, t)]
            0 <= c < 2 && 0 <= t < 6 ==> (bits::mem(p.of(c, t), s) <==> p.cells()[s] == c * 6 + t),
        forall|t: int|
            0 <= t < 6 ==> (bits::mem(#[trigger] p.piece@[t], s) <==> p.cells()[s] == t
                || p.cells()[s] == 6 + t),
        p.mailbox@[s] == if p.cells()[s] == 12 {
            6int
        } else {
            p.cells()[s] % 6
        },
{
    assert(bits::mem(p.color@[0], s) || !bits::mem(p.color@[0], s));
    assert forall|c: int, t: int|
        #![trigger p.of(c, t)]
        0 <= c < 2 && 0 <= t < 6 implies (bits::mem(p.of(c, t), s) <==> p.cells()[s] == c * 6 + t) by {
        assert(c == 0 || c == 1);
        assert(bits::mem(p.piece@[t], s) <==> p.mailbox@[s] == t);
    }
    assert forall|t: int| 0 <= t < 6 implies (bits::mem(#[trigger] p.piece@[t], s) <==> p.cells()[s]
        == t || p.cells()[s] == 6 + t) by {
        assert(bits::mem(p.piece@[t], s) <==> p.mailbox@[s] == t);
    }
}

/// The occupied squares, read from either side.
pub proof fn lemma_occ(p: Position)
    requires
        p.board_ok(),
    ensures
        p.occ_bb() == occ_of(p.cells()),
{
    assert forall|s: int| 0 <= s < 64 implies bits::mem(p.occ_bb(), s) == bits::mem(
        occ_of(p.cells()),
        s,
    ) by {
        lemma_cells(p, s);
        lemma_occ_of(p.cells(), s);
    }
    bits::lemma_ext(p.occ_bb(), occ_of(p.cells()));
}

pub broadcast proof fn lemma_occ_of(cells: Seq<int>, s: int)
    ensures
        #[trigger] bits::mem(occ_of(cells), s) <==> geom::is_sq(s) && cells[s] != 12,
{
    geom::lemma_set_of(|x: int| cells[x] != 12, s);
}

/// `struck` in terms of the cells that belong to `them`.
pub proof fn lemma_struck(p: Position, c: int, sq: int, occ: u64, them: u64)
    requires
        p.board_ok(),
        geom::is_sq(sq),
        0 <= c < 2,
        forall|s: int| #[trigger] bits::mem(them, s) ==> bits::mem(p.color@[c], s),
    ensures
        p.struck(c, sq, occ, them) <==> (exists|s: int|
            #![trigger p.cells()[s]]
            bits::mem(them, s) && owned(p.cells()[s], c) && hits(p.cells()[s], s, sq, occ)),
{
    let cells = p.cells();
    let e1 = geom::pawn_bb(1 - c, sq) & p.piece@[0] & them;
    let e2 = geom::knight_bb(sq) & p.piece@[1] & them;
    let e3 = geom::king_bb(sq) & p.piece@[5] & them;
    let e4 = geom::bishop_bb(sq, occ) & (p.piece@[2] | p.piece@[4]) & them;
    let e5 = geom::rook_bb(sq, occ) & (p.piece@[3] | p.piece@[4]) & them;
    bits::lemma_low(e1);
    bits::lemma_low(e2);
    bits::lemma_low(e3);
    bits::lemma_low(e4);
    bits::lemma_low(e5);
    let w = if e1 != 0 {
        bits::low(e1)
    } else if e2 != 0 {
        bits::low(e2)
    } else if e3 != 0 {
        bits::low(e3)
    } else if e4 != 0 {
        bits::low(e4)
    } else {
        bits::low(e5)
    };
    if p.struck(c, sq, occ, them) {
        lemma_cells(p, w);
        geom::lemma_sees_sym(sq, w, occ);
        geom::lemma_sees_sym(w, sq, occ);
        assert(bits::mem(them, w) && owned(cells[w], c) && hits(cells[w], w, sq, occ));
    }
    assert forall|s: int|
        #![trigger cells[s]]
        bits::mem(them, s) && owned(cells[s], c) && hits(cells[s], s, sq, occ) implies p.struck(
        c,
        sq,
        occ,
        them,
    ) by {
        lemma_cells(p, s);
        geom::lemma_sees_sym(sq, s, occ);
        geom::lemma_sees_sym(s, sq, occ);
        bits::lemma_empty(e1);
        bits::lemma_empty(e2);
        bits::lemma_empty(e3);
        bits::lemma_empty(e4);
        bits::lemma_empty(e5);
        assert(bits::mem(e1, s) || bits::mem(e2, s) || bits::mem(e3, s) || bits::mem(e4, s)
            || bits::mem(e5, s));
    }
}

/// `struck` by a whole colour is `attacked`.
pub proof fn lemma_attacked(p: Position, c: int, sq: int, occ: u64)
    requires
        p.board_ok(),
        geom::is_sq(sq),
        0 <= c < 2,
    ensures
        p.struck(c, sq, occ, p.color@[c]) <==> attacked(p.cells(), c, sq, occ),
{
    lemma_struck(p, c, sq, occ, p.color@[c]);
    assert forall|s: int| geom::is_sq(s) implies (bits::mem(p.color@[c], s) <==> owned(
        #[trigger] p.cells()[s],
        c,
    )) by {
        lemma_cells(p, s);
    }
}

/// `attackers` holds the squares of the pieces that attack.
pub proof fn lemma_attackers(p: Position, sq: int, occ: u64, s: int)
    requires
        p.board_ok(),
        geom::is_sq(sq),
        geom::is_sq(s),
    ensures
        bits::mem(p.attackers(sq, occ), s) <==> p.cells()[s] != 12 && hits(
            p.cells()[s],
            s,
            sq,
            occ,
        ),
{
    lemma_cells(p, s);
    geom::lemma_sees_sym(sq, s, occ);
    geom::lemma_sees_sym(s, sq, occ);
    assert(p.of(0, 0) == p.of(0, 0) && p.of(1, 0) == p.of(1, 0));
}

/// The king square of a board with exactly one.
pub proof fn lemma_king(p: Position, c: int, k: int)
    requires
        p.board_ok(),
        0 <= c < 2,
        king_at(p.cells(), c, k),
    ensures
        p.king(c) == k,
        p.of(c, 5) == bits::one(k),
{
    let b = p.of(c, 5);
    lemma_cells(p, k);
    bits::lemma_low(b);
    lemma_cells(p, bits::low(b));
    assert forall|s: int| 0 <= s < 64 implies bits::mem(b, s) == bits::mem(bits::one(k), s) by {
        lemma_cells(p, s);
    }
    bits::lemma_ext(b, bits::one(k));
}

impl Position {
    /// The position `i` plies ago had the same key.
    pub open spec fn repeats(self, i: int) -> bool {
        4 <= i <= self.halfmove && i < self.hist_len && i % 2 == 0 && self.hist@[self.hist_len - 1
            - i] == self.key
    }

    /// Draw by the fifty-move rule, by a repetition nearer than `ply`, or by two
    /// repetitions.
    pub open spec fn drawn(self, ply: int) -> bool {
        ||| self.halfmove >= 100
        ||| exists|i: int| #[trigger] self.repeats(i) && i < ply
        ||| exists|i: int, j: int| #[trigger]
            self.repeats(i) && #[trigger] self.repeats(j) && i < j
    }

    /// No pawn, rook or queen, and at most one knight or bishop.
    pub open spec fn bare(self) -> bool {
        &&& self.piece@[0] | self.piece@[3] | self.piece@[4] == 0
        &&& bits::card(self.piece@[1] | self.piece@[2]) <= 1
    }
}

/// What an undo record above the current ply holds.
pub open spec fn no_undo() -> Undo {
    Undo {
        castle: 0,
        ep: 64,
        halfmove: 0,
        captured: 6,
        key: 0,
        pawn_key: 0,
        np_key: 0,
        checkers: 0,
    }
}

impl Position {
    /// Nothing is left over above the current ply or past the game's history.
    pub open spec fn clean(self) -> bool {
        &&& forall|i: int| self.ply <= i < 136 ==> #[trigger] self.stack@[i] == no_undo()
        &&& forall|i: int| self.hist_len <= i < 4232 ==> #[trigger] self.hist@[i] == 0
    }
}

/// An unused undo record.
pub(crate) fn blank() -> (u: Undo)
    ensures
        u == no_undo(),
{
    Undo {
        castle: 0,
        ep: 64,
        halfmove: 0,
        captured: NONE,
        key: 0,
        pawn_key: 0,
        np_key: 0,
        checkers: 0,
    }
}

impl Clone for Position {
    fn clone(&self) -> (r: Position)
        ensures
            r == *self,
    {
        Position {
            piece: self.piece,
            color: self.color,
            mailbox: self.mailbox,
            stm: self.stm,
            castle: self.castle,
            ep: self.ep,
            halfmove: self.halfmove,
            ply: self.ply,
            key: self.key,
            pawn_key: self.pawn_key,
            np_key: self.np_key,
            checkers: self.checkers,
            stack: self.stack,
            hist: self.hist,
            hist_len: self.hist_len,
            root_ply: self.root_ply,
        }
    }
}

impl Position {
    pub fn empty() -> (p: Position)
        ensures
            p.board_ok(),
            p.cells() == Seq::new(64, |s: int| 12int),
            p.stm == WHITE,
            p.castle == 0,
            p.ep == 64,
            p.halfmove == 0,
            p.ply == 0,
            p.key == 0,
            p.pawn_key == 0,
            p.np_key == 0,
            p.checkers == 0,
            p.hist_len == 0,
            p.root_ply == 0,
            p.clean(),
    {
        let none = blank();
        Position {
            piece: [0;6],
            color: [0;2],
            mailbox: [NONE;64],
            stm: WHITE,
            castle: 0,
            ep: 64,
            halfmove: 0,
            ply: 0,
            key: 0,
            pawn_key: 0,
            np_key: 0,
            checkers: 0,
            stack: [none;136],
            hist: [0;4232],
            hist_len: 0,
            root_ply: 0,
        }
    }

    #[inline(always)]
    pub fn occ(&self) -> (r: Bb)
        ensures
            r == self.occ_bb(),
    {
        self.color[0] | self.color[1]
    }

    #[inline(always)]
    pub fn pieces(&self, c: usize, p: usize) -> (r: Bb)
        requires
            c < 2,
            p < 6,
        ensures
            r == self.of(c as int, p as int),
    {
        self.piece[p] & self.color[c]
    }

    #[inline(always)]
    pub fn king_sq(&self, c: usize) -> (r: usize)
        requires
            c < 2,
        ensures
            r == self.king(c as int),
            r <= 64,
    {
        lsb(self.piece[KING_P] & self.color[c])
    }

    #[inline(always)]
    pub fn piece_at(&self, sq: usize) -> (r: u8)
        requires
            sq < 64,
        ensures
            r == self.mailbox@[sq as int],
    {
        self.mailbox[sq]
    }

    #[inline(always)]
    pub fn color_at(&self, sq: usize) -> (r: usize)
        requires
            sq < 64,
        ensures
            r == if bits::mem(self.color@[1], sq as int) {
                1int
            } else {
                0
            },
    {
        if self.color[BLACK] & bit(sq) != 0 {
            1
        } else {
            0
        }
    }

    /// Non-pawn material present for `c`; gates null-move pruning.
    #[inline(always)]
    pub fn has_big_pieces(&self, c: usize) -> (r: bool)
        requires
            c < 2,
        ensures
            r == (self.color@[c as int] & !(self.piece@[0] | self.piece@[5]) != 0),
    {
        self.color[c] & !(self.piece[PAWN_P] | self.piece[KING_P]) != 0
    }

    #[inline(always)]
    pub(crate) fn put(&mut self, t: &Tables, c: usize, p: usize, sq: usize)
        requires
            c < 2,
            p < 6,
            sq < 64,
        ensures
            *final(self) == (Position {
                piece: final(self).piece,
                color: final(self).color,
                mailbox: final(self).mailbox,
                ..toggled(*old(self), c as int, p as int, sq as int)
            }),
            final(self).piece@ == old(self).piece@.update(
                p as int,
                old(self).piece@[p as int] | bits::one(sq as int),
            ),
            final(self).color@ == old(self).color@.update(
                c as int,
                old(self).color@[c as int] | bits::one(sq as int),
            ),
            final(self).mailbox@ == old(self).mailbox@.update(sq as int, p as u8),
            old(self).board_ok() && old(self).cells()[sq as int] == 12 ==> {
                &&& final(self).board_ok()
                &&& final(self).cells() == old(self).cells().update(sq as int, c * 6 + p)
                &&& final(self).same_residue(*old(self))
            },
    {
        let b = bit(sq);
        self.piece[p] = self.piece[p] | b;
        self.color[c] = self.color[c] | b;
        self.mailbox[sq] = p as u8;
        self.toggle(t, c, p, sq);
        proof {
            if old(self).board_ok() && old(self).cells()[sq as int] == 12 {
                let cells = old(self).cells().update(sq as int, c * 6 + p);
                assert forall|q: int| geom::is_sq(q) implies shows(*self, q, #[trigger] cells[q]) by {
                    lemma_cells(*old(self), q);
                }
                lemma_shown(*self, cells);
                assert forall|k: zobrist::Cover| #[trigger]
                    self.part_key(k) == old(self).part_key(k) ^ zobrist::term(k, 12, sq as int)
                        ^ zobrist::term(k, c * 6 + p, sq as int) by {
                    bits::lemma_xor(old(self).part_key(k), 0, 0);
                }
                lemma_rewrite(*old(self), *self, sq as int, c * 6 + p);
            }
        }
    }

    #[inline(always)]
    pub(crate) fn remove(&mut self, t: &Tables, c: usize, p: usize, sq: usize)
        requires
            c < 2,
            p < 6,
            sq < 64,
            old(self).board_ok(),
            old(self).cells()[sq as int] == c * 6 + p,
        ensures
            *final(self) == (Position {
                piece: final(self).piece,
                color: final(self).color,
                mailbox: final(self).mailbox,
                ..toggled(*old(self), c as int, p as int, sq as int)
            }),
            final(self).board_ok(),
            final(self).cells() == old(self).cells().update(sq as int, 12),
            final(self).same_residue(*old(self)),
    {
        let b = bit(sq);
        self.piece[p] = self.piece[p] ^ b;
        self.color[c] = self.color[c] ^ b;
        self.mailbox[sq] = NONE;
        self.toggle(t, c, p, sq);
        proof {
            let cells = old(self).cells().update(sq as int, 12);
            assert forall|q: int| geom::is_sq(q) implies shows(*self, q, #[trigger] cells[q]) by {
                lemma_cells(*old(self), q);
            }
            lemma_shown(*self, cells);
            assert forall|k: zobrist::Cover| #[trigger]
                self.part_key(k) == old(self).part_key(k) ^ zobrist::term(k, c * 6 + p, sq as int)
                    ^ zobrist::term(k, 12, sq as int) by {
                let z = zobrist::term(k, c * 6 + p, sq as int);
                bits::lemma_xor(old(self).part_key(k), 0, 0);
                bits::lemma_xor(old(self).part_key(k) ^ z, 0, 0);
            }
            lemma_rewrite(*old(self), *self, sq as int, 12);
        }
    }

    #[inline(always)]
    pub(crate) fn shift(&mut self, t: &Tables, c: usize, p: usize, from: usize, to: usize)
        requires
            c < 2,
            p < 6,
            from < 64,
            to < 64,
            old(self).board_ok(),
            old(self).cells()[from as int] == c * 6 + p,
            old(self).cells()[to as int] == 12,
        ensures
            *final(self) == (Position {
                piece: final(self).piece,
                color: final(self).color,
                mailbox: final(self).mailbox,
                ..toggled(
                    toggled(*old(self), c as int, p as int, from as int),
                    c as int,
                    p as int,
                    to as int,
                )
            }),
            final(self).board_ok(),
            final(self).cells() == old(self).cells().update(from as int, 12).update(
                to as int,
                c * 6 + p,
            ),
            final(self).same_residue(*old(self)),
    {
        self.remove(t, c, p, from);
        self.put(t, c, p, to);
    }

    /// Add or take out one piece from the keys.
    #[inline(always)]
    fn toggle(&mut self, t: &Tables, c: usize, p: usize, sq: usize)
        requires
            c < 2,
            p < 6,
            sq < 64,
        ensures
            *final(self) == toggled(*old(self), c as int, p as int, sq as int),
    {
        let k = t.psq(c, p, sq);
        self.key = self.key ^ k;
        if p == PAWN_P {
            self.pawn_key = self.pawn_key ^ k;
        } else {
            self.np_key = self.np_key ^ k;
        }
    }

    /// Every piece that attacks `sq`, given `occ`.
    #[inline(always)]
    pub fn attackers_to(&self, t: &Tables, sq: usize, occ: Bb) -> (r: Bb)
        requires
            sq < 64,
        ensures
            r == self.attackers(sq as int, occ),
    {
        (pawn_attacks(&t.bb, WHITE, sq) & self.pieces(BLACK, PAWN_P)) | (pawn_attacks(
            &t.bb,
            BLACK,
            sq,
        ) & self.pieces(WHITE, PAWN_P)) | (knight_attacks(&t.bb, sq) & self.piece[KNIGHT_P]) | (
        king_attacks(&t.bb, sq) & self.piece[KING_P]) | (bishop_attacks(&t.bb, sq, occ) & (
        self.piece[BISHOP_P] | self.piece[QUEEN_P])) | (rook_attacks(&t.bb, sq, occ) & (
        self.piece[ROOK_P] | self.piece[QUEEN_P]))
    }

    /// Some piece of `c` attacks `sq`, given `occ`.
    #[inline(always)]
    pub fn attacked_by(&self, t: &Tables, c: usize, sq: usize, occ: Bb) -> (r: bool)
        requires
            c < 2,
            sq < 64,
        ensures
            r == self.struck(c as int, sq as int, occ, self.color@[c as int]),
    {
        self.attacked_with(t, c, sq, occ, self.color[c])
    }

    /// `attacked_by` against a hypothetical occupancy *and* a hypothetical enemy
    /// set, which the en-passant test needs since the captured pawn vanishes.
    pub(crate) fn attacked_with(&self, t: &Tables, c: usize, sq: usize, occ: Bb, them: Bb) -> (r:
        bool)
        requires
            c < 2,
            sq < 64,
        ensures
            r == self.struck(c as int, sq as int, occ, them),
    {
        if pawn_attacks(&t.bb, 1 - c, sq) & self.piece[PAWN_P] & them != 0 {
            return true;
        }
        if knight_attacks(&t.bb, sq) & self.piece[KNIGHT_P] & them != 0 {
            return true;
        }
        if king_attacks(&t.bb, sq) & self.piece[KING_P] & them != 0 {
            return true;
        }
        if bishop_attacks(&t.bb, sq, occ) & (self.piece[BISHOP_P] | self.piece[QUEEN_P]) & them
            != 0 {
            return true;
        }
        rook_attacks(&t.bb, sq, occ) & (self.piece[ROOK_P] | self.piece[QUEEN_P]) & them != 0
    }

    #[inline(always)]
    pub fn in_check(&self) -> (r: bool)
        ensures
            r == (self.checkers != 0),
    {
        self.checkers != 0
    }

    pub fn compute_checkers(&mut self, t: &Tables)
        requires
            old(self).stm < 2,
        ensures
            *final(self) == (Position { checkers: old(self).checkers_bb(), ..*old(self) }),
    {
        let ksq = self.king_sq(self.stm);
        self.checkers = if ksq < 64 {
            self.attackers_to(t, ksq, self.occ()) & self.color[1 - self.stm]
        } else {
            0
        };
    }

    /// Absolutely pinned pieces of `c`.
    pub fn pinned(&self, t: &Tables, c: usize) -> (r: Bb)
        requires
            c < 2,
            self.king(c as int) < 64,
            self.board_ok(),
        ensures
            r == self.pinned_bb(c as int),
    {
        let ksq = self.king_sq(c);
        let them = self.color[1 - c];
        let occ = self.occ();
        let mut pinners = (rook_attacks(&t.bb, ksq, them) & (self.piece[ROOK_P]
            | self.piece[QUEEN_P]) & them) | (bishop_attacks(&t.bb, ksq, them) & (
        self.piece[BISHOP_P] | self.piece[QUEEN_P]) & them);
        let mut pin: u64 = 0;
        let ghost all = pinners;
        let ghost k = ksq as int;
        let ghost ci = c as int;
        proof {
            assert forall|e: int, s: int| #[trigger] self.pins(ci, e, s) implies bits::mem(
                all,
                e,
            ) by {
                assert forall|x: int| geom::btw(k, x, e) implies !bits::mem(them, x) by {
                    lemma_cells(*self, x);
                    lemma_cells(*self, s);
                }
                assert(geom::clear(k, e, them));
            }
        }
        while pinners != 0
            invariant
                c < 2,
                ci == c,
                ksq < 64,
                k == ksq,
                k == self.king(ci),
                occ == self.occ_bb(),
                forall|s: int| #[trigger] bits::mem(pinners, s) ==> bits::mem(all, s),
                forall|e: int, s: int| #[trigger] self.pins(ci, e, s) ==> bits::mem(all, e),
                forall|e: int| #[trigger]
                    bits::mem(all, e) ==> self.may_pin(ci, e),
                forall|s: int| #[trigger]
                    bits::mem(pin, s) <==> exists|e: int| #[trigger]
                        self.pins(ci, e, s) && !bits::mem(pinners, e),
            decreases pinners,
        {
            let ghost before = pinners;
            let ghost pin0 = pin;
            let s = pop_lsb(&mut pinners);
            let b = between(&t.bb, ksq, s) & occ;
            if b != 0 && !more_than_one(b) {
                pin = pin | (b & self.color[c]);
            }
            proof {
                let e = s as int;
                bits::lemma_card_one(b);
                bits::lemma_empty(b);
                assert forall|x: int| #[trigger] self.pins(ci, e, x) <==> (b != 0 && bits::card(b)
                    <= 1 && bits::mem(b, x) && bits::mem(self.color@[ci], x)) by {
                    assert(self.may_pin(ci, e));
                    if self.pins(ci, e, x) {
                        assert(bits::mem(b, x));
                        assert forall|p: int, q: int|
                            #![trigger bits::mem(b, p), bits::mem(b, q)]
                            bits::mem(b, p) && bits::mem(b, q) implies p == q by {
                            assert(geom::btw(k, p, e) && geom::btw(k, q, e));
                        }
                    } else if b != 0 && bits::card(b) <= 1 && bits::mem(b, x) && bits::mem(
                        self.color@[ci],
                        x,
                    ) {
                        assert forall|y: int| #[trigger]
                            geom::btw(k, y, e) && bits::mem(self.occ_bb(), y) implies y == x by {
                            assert(bits::mem(b, y));
                        }
                    }
                }
                assert forall|x: int| #[trigger] bits::mem(pin, x) <==> exists|f: int| #[trigger]
                    self.pins(ci, f, x) && !bits::mem(pinners, f) by {
                    if bits::mem(pin0, x) {
                        let f = choose|f: int| #[trigger]
                            self.pins(ci, f, x) && !bits::mem(before, f);
                        assert(self.pins(ci, f, x) && !bits::mem(pinners, f));
                    }
                    if self.pins(ci, e, x) {
                        assert(!bits::mem(pinners, e));
                    }
                }
            }
        }
        proof {
            assert forall|s: int| 0 <= s < 64 implies bits::mem(pin, s) == bits::mem(
                self.pinned_bb(ci),
                s,
            ) by {
                geom::lemma_set_of(|x: int| self.is_pinned(ci, x), s);
            }
            bits::lemma_ext(pin, self.pinned_bb(ci));
        }
        pin
    }

    /// A slider on `e` aligned with the king of `c`.
    spec fn may_pin(self, c: int, e: int) -> bool {
        let k = self.king(c);
        &&& geom::is_sq(e)
        &&& bits::mem(self.color@[1 - c], e)
        &&& (bits::mem(self.piece@[3] | self.piece@[4], e) && geom::orth(k, e)) || (bits::mem(
            self.piece@[2] | self.piece@[4],
            e,
        ) && geom::diag(k, e))
    }
}

/// The keys of `p` after adding or taking out one piece.
pub open spec fn toggled(p: Position, c: int, t: int, s: int) -> Position {
    let k = zobrist::zpsq(c * 6 + t, s);
    Position {
        key: p.key ^ k,
        pawn_key: if t == 0 {
            p.pawn_key ^ k
        } else {
            p.pawn_key
        },
        np_key: if t == 0 {
            p.np_key
        } else {
            p.np_key ^ k
        },
        ..p
    }
}

/// Bitboards and mailbox of `p` agree that `q` holds `code`.
pub open spec fn shows(p: Position, q: int, code: int) -> bool {
    &&& code == 12 || is_piece(code)
    &&& p.mailbox@[q] == if code == 12 {
        6int
    } else {
        code % 6
    }
    &&& forall|t: int|
        0 <= t < 6 ==> (bits::mem(#[trigger] p.piece@[t], q) <==> code != 12 && t == code % 6)
    &&& bits::mem(p.color@[0], q) <==> owned(code, 0)
    &&& bits::mem(p.color@[1], q) <==> owned(code, 1)
}

/// A board that shows `cells` everywhere is that board.
pub proof fn lemma_shown(p: Position, cells: Seq<int>)
    requires
        cells.len() == 64,
        forall|q: int| geom::is_sq(q) ==> shows(p, q, #[trigger] cells[q]),
    ensures
        p.board_ok(),
        p.cells() == cells,
{
    assert forall|q: int| geom::is_sq(q) implies p.cell(q) == #[trigger] cells[q] by {
        assert(shows(p, q, cells[q]));
    }
    assert(p.cells() =~= cells);
    assert forall|s: int| geom::is_sq(s) implies #[trigger] p.mailbox@[s] <= 6 by {
        assert(shows(p, s, cells[s]));
    }
    assert forall|t: int, s: int|
        #![trigger bits::mem(p.piece@[t], s)]
        0 <= t < 6 && geom::is_sq(s) implies (bits::mem(p.piece@[t], s) <==> p.mailbox@[s] == t) by {
        assert(shows(p, s, cells[s]));
    }
    assert forall|s: int|
        #![trigger bits::mem(p.color@[0], s)]
        #![trigger bits::mem(p.color@[1], s)]
        geom::is_sq(s) implies {
        &&& p.mailbox@[s] < 6 <==> bits::mem(p.color@[0], s) || bits::mem(p.color@[1], s)
        &&& !(bits::mem(p.color@[0], s) && bits::mem(p.color@[1], s))
    } by {
        assert(shows(p, s, cells[s]));
    }
}

/// Keys follow a rewritten cell.
proof fn lemma_rewrite(pre: Position, post: Position, s: int, code: int)
    requires
        geom::is_sq(s),
        post.cells() == pre.cells().update(s, code),
        forall|k: zobrist::Cover| #[trigger]
            post.part_key(k) == pre.part_key(k) ^ zobrist::term(k, pre.cells()[s], s)
                ^ zobrist::term(k, code, s),
    ensures
        post.same_residue(pre),
{
    assert forall|k: zobrist::Cover| #[trigger] post.residue(k) == pre.residue(k) by {
        zobrist::lemma_board_key_update(k, pre.cells(), s, code, 64);
        let h = zobrist::board_key(k, pre.cells(), 64);
        let (a, b) = (zobrist::term(k, pre.cells()[s], s), zobrist::term(k, code, s));
        assert(post.part_key(k) == pre.part_key(k) ^ a ^ b);
        bits::lemma_xor_pair(pre.part_key(k), h, a, b);
    }
}

impl Position {
    /// Make this position the root of a search: the undo stack starts again,
    /// and only the game's keys are kept.
    pub fn settle(&mut self)
        requires
            old(self).hist_len <= HIST,
        ensures
            final(self).clean(),
            *final(self) == (Position {
                ply: 0,
                stack: final(self).stack,
                hist: final(self).hist,
                ..*old(self)
            }),
            forall|i: int|
                0 <= i < old(self).hist_len ==> #[trigger] final(self).hist@[i] == old(self).hist@[i],
    {
        self.ply = 0;
        self.stack = [blank();136];
        let mut i = self.hist_len;
        while i < HIST
            invariant
                old(self).hist_len <= i <= 4232,
                *self == (Position { ply: 0, stack: self.stack, hist: self.hist, ..*old(self) }),
                forall|j: int| 0 <= j < 136 ==> #[trigger] self.stack@[j] == no_undo(),
                forall|j: int|
                    0 <= j < old(self).hist_len ==> #[trigger] self.hist@[j] == old(self).hist@[j],
                forall|j: int| old(self).hist_len <= j < i ==> #[trigger] self.hist@[j] == 0,
            decreases 4232 - i,
        {
            self.hist[i] = 0;
            i = i + 1;
        }
    }

    /// Draw by repetition or the fifty-move rule.
    ///
    /// A single repetition inside the search tree is treated as a draw: the
    /// side that can force it once can force it again, so searching further is
    /// wasted work. Repetitions before the root need two hits.
    pub fn is_draw(&self, ply: usize) -> (r: bool)
        requires
            self.hist_len <= HIST,
        ensures
            r == self.drawn(ply as int),
    {
        if self.halfmove >= 100 {
            return true;
        }
        if self.halfmove < 4 || self.hist_len < 5 {
            return false;
        }
        let end = self.hist_len - 1;
        let limit = if (self.halfmove as usize) < end {
            self.halfmove as usize
        } else {
            end
        };
        let mut seen = false;
        let mut i: usize = 4;
        let ghost mut at: int = 0;
        while i <= limit
            invariant
                end == self.hist_len - 1,
                limit <= end,
                limit <= self.halfmove,
                limit == end || limit == self.halfmove,
                self.halfmove < 100,
                5 <= self.hist_len <= 4232,
                4 <= i <= limit + 2,
                i % 2 == 0,
                seen ==> self.repeats(at) && at < i,
                forall|j: int| #[trigger] self.repeats(j) && j < i ==> j >= ply && seen && j == at,
            decreases limit + 2 - i,
        {
            assert(i % 2 == 0);
            if self.hist[end - i] == self.key {
                assert(self.repeats(i as int));
                // A repetition inside the current search tree counts once.
                if i < ply {
                    return true;
                }
                if seen {
                    assert(self.repeats(at) && self.repeats(i as int) && at < i);
                    return true;
                }
                seen = true;
                proof {
                    at = i as int;
                }
            }
            i = i + 2;
        }
        false
    }

    /// Insufficient material: K vs K, K+minor vs K.
    pub fn is_material_draw(&self) -> (r: bool)
        ensures
            r == self.bare(),
    {
        if self.piece[PAWN_P] | self.piece[ROOK_P] | self.piece[QUEEN_P] != 0 {
            return false;
        }
        let minors = self.piece[KNIGHT_P] | self.piece[BISHOP_P];
        popcount(minors) <= 1
    }
}

} // verus!
