//! Making moves and taking them back.

use vstd::prelude::*;
use crate::bb::{bit, file_of, pawn_attacks};
use crate::bits;
use crate::geom;
use crate::moves::{Move, F_DOUBLE, F_EP, F_KCASTLE, F_QCASTLE};
use crate::pos;
use crate::pos::{blank, Position, Undo, KING_P, NONE, PAWN_P, ROOK_P, WHITE};
use crate::rules;
use crate::tables::Tables;
use crate::zobrist;

verus! {

broadcast use {crate::bits::group_mem, crate::geom::group_geom};

/// Where the rook of a castling move starts and ends.
fn rook_path(us: usize, flag: u16) -> (r: (usize, usize))
    requires
        us < 2,
        flag == 2 || flag == 3,
    ensures
        r.0 == rules::rook_path(us as int, flag as int).0,
        r.1 == rules::rook_path(us as int, flag as int).1,
        r.0 < 64,
        r.1 < 64,
{
    if flag == F_KCASTLE {
        if us == WHITE {
            (7, 5)
        } else {
            (63, 61)
        }
    } else if us == WHITE {
        (0, 3)
    } else {
        (56, 59)
    }
}

/// One rank back from `sq`, as `us` sees it.
#[inline(always)]
pub(crate) fn back(us: usize, sq: usize) -> (r: usize)
    requires
        us < 2,
        sq < 64,
        geom::is_sq(rules::back(us as int, sq as int)),
    ensures
        r == rules::back(us as int, sq as int),
        r < 64,
{
    if us == WHITE {
        sq - 8
    } else {
        sq + 8
    }
}

/// `castle & castle_mask(sq)` clears exactly the rights that a move touching
/// `sq` invalidates.
#[inline(always)]
fn castle_mask(sq: usize) -> (r: u8)
    ensures
        r == rules::rights_mask(sq as int),
{
    if sq == 0 {
        13
    } else if sq == 4 {
        12
    } else if sq == 7 {
        14
    } else if sq == 56 {
        7
    } else if sq == 60 {
        3
    } else if sq == 63 {
        11
    } else {
        15
    }
}

proof fn lemma_rights(c: u8, a: u8, b: u8, k: u8)
    ensures
        (c & a & b) & k != 0 ==> c & k != 0 && a & k != 0 && b & k != 0,
        c & a & b <= c,
{
    assert(((c & a & b) & k != 0 ==> c & k != 0 && a & k != 0 && b & k != 0) && c & a & b <= c)
        by (bit_vector);
}

proof fn lemma_masks()
    ensures
        13u8 & 2 == 0,
        12u8 & 1 == 0,
        12u8 & 2 == 0,
        14u8 & 1 == 0,
        7u8 & 8 == 0,
        3u8 & 4 == 0,
        3u8 & 8 == 0,
        11u8 & 4 == 0,
{
    assert(13u8 & 2 == 0 && 12u8 & 1 == 0 && 12u8 & 2 == 0 && 14u8 & 1 == 0 && 7u8 & 8 == 0 && 3u8
        & 4 == 0 && 3u8 & 8 == 0 && 11u8 & 4 == 0) by (bit_vector);
}

/// Rights are lost as soon as a king or rook they need is gone.
proof fn lemma_rights_kept(castle: u8, cells: Seq<int>, us: int, m: Move)
    requires
        cells.len() == 64,
        0 <= us < 2,
        rules::playable(cells, us, m),
        rules::rights_ok(castle, cells),
    ensures
        rules::rights_ok(rules::rights_after(castle, m), rules::moved(cells, us, m)),
{
    let (a, b) = (rules::rights_mask(m.f()), rules::rights_mask(m.t()));
    lemma_rights(castle, a, b, 1);
    lemma_rights(castle, a, b, 2);
    lemma_rights(castle, a, b, 4);
    lemma_rights(castle, a, b, 8);
    lemma_masks();
}

/// The en-passant square is kept only where the rules allow it.
proof fn lemma_ep_kept(p: Position, m: Move)
    requires
        p.sound(),
        rules::playable(p.cells(), p.stm as int, m),
    ensures
        rules::ep_ok(
            rules::ep_after(p, m),
            1 - p.stm,
            rules::moved(p.cells(), p.stm as int, m),
        ),
{
    let us = p.stm as int;
    let e = rules::back(us, m.t());
    let b = geom::pawn_bb(us, e) & p.of(1 - us, 0);
    let next = rules::moved(p.cells(), us, m);
    if m.k() == 1 && b != 0 {
        let f = bits::low(b);
        bits::lemma_low(b);
        pos::lemma_cells(p, f);
        geom::lemma_sees_sym(e, f, 0);
        geom::lemma_sees_sym(f, e, 0);
        assert(next[f] == (1 - us) * 6);
        assert(geom::pawn_sees(1 - us, f, e));
    }
}

/// A king stays on the board, alone of its colour.
pub proof fn lemma_kings_kept(cells: Seq<int>, us: int, m: Move, c: int, k: int)
    requires
        cells.len() == 64,
        0 <= us < 2,
        0 <= c < 2,
        rules::playable(cells, us, m),
        pos::king_at(cells, c, k),
    ensures
        pos::king_at(
            rules::moved(cells, us, m),
            c,
            if k == m.f() {
                m.t()
            } else {
                k
            },
        ),
{
    let next = rules::moved(cells, us, m);
    let k2 = if k == m.f() {
        m.t()
    } else {
        k
    };
    assert(next[k2] == c * 6 + 5);
    assert forall|s: int| geom::is_sq(s) && #[trigger] next[s] == c * 6 + 5 implies s == k2 by {
        if s != m.t() {
            assert(cells[s] == c * 6 + 5);
        }
    }
}

/// The position key of the next position, from that of this one.
proof fn lemma_next_key(c0: u64, e0: u64, s0: u64, c1: u64, e1: u64, z: u64)
    ensures
        (c0 ^ e0 ^ s0) ^ (e0 ^ c0 ^ e1 ^ c1 ^ z) == c1 ^ e1 ^ (s0 ^ z),
        z ^ z == 0,
        0 ^ z == z,
{
    assert((c0 ^ e0 ^ s0) ^ (e0 ^ c0 ^ e1 ^ c1 ^ z) == c1 ^ e1 ^ (s0 ^ z) && z ^ z == 0 && 0 ^ z
        == z) by (bit_vector);
}

/// A key split into pieces and the rest.
proof fn lemma_key_split(key: u64, b: u64, x: u64)
    ensures
        (key ^ b) ^ x == (key ^ x) ^ b,
        (key ^ b) == x <==> key == x ^ b,
{
    assert((key ^ b) ^ x == (key ^ x) ^ b && ((key ^ b) == x <==> key == x ^ b)) by (bit_vector);
}

impl Position {
    /// The residues of a position whose keys are right.
    proof fn lemma_residues(self)
        ensures
            self.keys_ok() <==> {
                &&& self.residue(zobrist::Cover::All) == rules::extra_key(
                    self.castle as int,
                    self.ep as int,
                    self.stm as int,
                )
                &&& self.residue(zobrist::Cover::Pawns) == 0
                &&& self.residue(zobrist::Cover::Others) == 0
            },
    {
        let cells = self.cells();
        lemma_key_split(
            self.key,
            zobrist::board_key(zobrist::Cover::All, cells, 64),
            rules::extra_key(self.castle as int, self.ep as int, self.stm as int),
        );
        let bp = zobrist::board_key(zobrist::Cover::Pawns, cells, 64);
        let bo = zobrist::board_key(zobrist::Cover::Others, cells, 64);
        lemma_key_split(self.pawn_key, bp, 0);
        lemma_key_split(self.np_key, bo, 0);
        bits::lemma_xor(bp, 0, 0);
        bits::lemma_xor(bo, 0, 0);
        bits::lemma_xor(0, bp, 0);
        bits::lemma_xor(0, bo, 0);
    }

    /// The piece motion of `m`, keys of the pieces included.
    fn move_pieces(&mut self, t: &Tables, m: Move)
        requires
            old(self).stm < 2,
            old(self).board_ok(),
            rules::playable(old(self).cells(), old(self).stm as int, m),
        ensures
            final(self).board_ok(),
            final(self).cells() == rules::moved(old(self).cells(), old(self).stm as int, m),
            final(self).same_residue(*old(self)),
            *final(self) == (Position {
                piece: final(self).piece,
                color: final(self).color,
                mailbox: final(self).mailbox,
                key: final(self).key,
                pawn_key: final(self).pawn_key,
                np_key: final(self).np_key,
                ..*old(self)
            }),
    {
        let us = self.stm;
        let them = 1 - us;
        let from = m.from();
        let to = m.to();
        let flag = m.flag();
        let ghost cells = self.cells();
        proof {
            pos::lemma_cells(*self, from as int);
            pos::lemma_cells(*self, to as int);
        }
        let pt = self.piece_at(from) as usize;
        if flag == F_KCASTLE || flag == F_QCASTLE {
            let (rf, rt) = rook_path(us, flag);
            self.shift(t, us, KING_P, from, to);
            self.shift(t, us, ROOK_P, rf, rt);
        } else if flag == F_EP {
            let cap = back(us, to);
            self.remove(t, them, PAWN_P, cap);
            self.shift(t, us, PAWN_P, from, to);
        } else {
            if m.is_capture() {
                let cp = self.piece_at(to) as usize;
                self.remove(t, them, cp, to);
            }
            if m.is_promo() {
                self.remove(t, us, PAWN_P, from);
                self.put(t, us, m.promo(), to);
            } else {
                self.shift(t, us, pt, from, to);
            }
            proof {
                assert(self.cells() =~= rules::moved(cells, us as int, m));
            }
        }
    }

    pub fn make(&mut self, t: &Tables, m: Move)
        requires
            old(self).sound(),
            old(self).room(1),
            rules::playable(old(self).cells(), old(self).stm as int, m),
        ensures
            final(self).sound(),
            made(*old(self), m, *final(self)),
    {
        let us = self.stm;
        let them = 1 - us;
        let from = m.from();
        let to = m.to();
        let flag = m.flag();
        let ghost pre = *self;
        proof {
            pos::lemma_cells(pre, from as int);
            pos::lemma_cells(pre, to as int);
            pre.lemma_residues();
        }
        let pawn = self.piece_at(from) as usize == PAWN_P;
        let captured = if flag == F_EP {
            PAWN_P as u8
        } else if m.is_capture() {
            self.piece_at(to)
        } else {
            NONE
        };
        let ply = self.ply;
        self.stack[ply] = Undo {
            castle: self.castle,
            ep: self.ep,
            halfmove: self.halfmove,
            captured,
            key: self.key,
            pawn_key: self.pawn_key,
            np_key: self.np_key,
            checkers: self.checkers,
        };

        // Everything the key holds besides the pieces, old and new.
        let mut k: u64 = 0;
        if self.ep != 64 {
            k = t.ep_key(file_of(self.ep as usize));
        }
        k = k ^ t.castle_key(self.castle);
        self.ep = 64;
        self.halfmove = if m.is_capture() || m.is_promo() || pawn {
            0
        } else {
            self.halfmove.wrapping_add(1)
        };
        let ghost mid = *self;
        proof {
            assert(mid.cells() =~= pre.cells());
            assert(mid.board_ok());
        }
        self.move_pieces(t, m);
        let ghost after = *self;
        let mut ek: u64 = 0;
        if flag == F_DOUBLE {
            // Only record the ep square if a capture is actually available;
            // otherwise identical positions would get different keys and
            // repetition detection would miss.
            let epsq = back(us, to);
            if pawn_attacks(&t.bb, us, epsq) & self.pieces(them, PAWN_P) != 0 {
                self.ep = epsq as u8;
                ek = t.ep_key(file_of(epsq));
            }
            proof {
                let (x, y) = (after.of(1 - us, 0), pre.of(1 - us, 0));
                assert forall|s: int| 0 <= s < 64 implies bits::mem(x, s) == bits::mem(y, s) by {
                    pos::lemma_cells(after, s);
                    pos::lemma_cells(pre, s);
                }
                bits::lemma_ext(x, y);
            }
        }
        // Castling rights die when a king or rook leaves, or a rook is captured.
        self.castle = self.castle & castle_mask(from) & castle_mask(to);
        proof {
            lemma_rights_kept(pre.castle, pre.cells(), us as int, m);
            lemma_ep_kept(pre, m);
            assert(self.ep == rules::ep_after(pre, m));
        }
        self.key = self.key ^ (k ^ ek ^ t.castle_key(self.castle) ^ t.side_key());
        self.stm = them;
        self.ply = self.ply + 1;
        proof {
            let cells = rules::moved(pre.cells(), us as int, m);
            assert(self.cells() =~= cells);
            assert(self.board_ok());
            lemma_kings_kept(pre.cells(), us as int, m, 0, pre.king(0));
            lemma_kings_kept(pre.cells(), us as int, m, 1, pre.king(1));
            pos::lemma_king(*self, 0, if pre.king(0) == from { to as int } else { pre.king(0) });
            pos::lemma_king(*self, 1, if pre.king(1) == from { to as int } else { pre.king(1) });
            let c0 = zobrist::zcastle(pre.castle as int);
            let c1 = zobrist::zcastle(self.castle as int);
            let e0 = rules::ep_part(pre.ep as int);
            let e1 = rules::ep_part(self.ep as int);
            let s0 = rules::side_part(us as int);
            let z = zobrist::zside();
            lemma_next_key(c0, e0, s0, c1, e1, z);
            bits::lemma_xor(0, c0, 0);
            let x = e0 ^ c0 ^ e1 ^ c1 ^ z;
            assert(self.key == after.key ^ x);
            lemma_key_split(
                after.key,
                zobrist::board_key(zobrist::Cover::All, cells, 64),
                x,
            );
            self.lemma_residues();
            assert(self.keys_ok());
        }
        self.compute_checkers(t);
        proof {
            assert(self.cells() =~= rules::moved(pre.cells(), us as int, m));
            assert(self.king(0) == self.king(0));
        }
        let n = self.hist_len;
        self.hist[n] = self.key;
        self.hist_len = n + 1;
        proof {
            assert(self.cells() =~= rules::moved(pre.cells(), us as int, m));
        }
    }
}

/// `q` is the position `p` becomes when `m` is made.
pub open spec fn made(p: Position, m: Move, q: Position) -> bool {
    &&& q.cells() == rules::moved(p.cells(), p.stm as int, m)
    &&& q.stm == 1 - p.stm
    &&& q.castle == rules::rights_after(p.castle, m)
    &&& q.ep == rules::ep_after(p, m)
    &&& q.halfmove == rules::clock_after(p, m)
    &&& q.ply == p.ply + 1
    &&& q.stack@ == p.stack@.update(
        p.ply as int,
        Undo {
            castle: p.castle,
            ep: p.ep,
            halfmove: p.halfmove,
            captured: rules::victim(p.cells(), m) as u8,
            key: p.key,
            pawn_key: p.pawn_key,
            np_key: p.np_key,
            checkers: p.checkers,
        },
    )
    &&& q.hist@ == p.hist@.update(p.hist_len as int, q.key)
    &&& q.hist_len == p.hist_len + 1
    &&& q.root_ply == p.root_ply
}


impl Position {
    /// Board-only piece motion. Hash keys are restored wholesale in `unmake`,
    /// so the incremental xor is deliberately skipped here.
    #[inline(always)]
    fn move_back(&mut self, c: usize, p: usize, from: usize, to: usize)
        requires
            c < 2,
            p < 6,
            from < 64,
            to < 64,
            old(self).board_ok(),
            old(self).cells()[from as int] == c * 6 + p,
            old(self).cells()[to as int] == 12,
        ensures
            final(self).board_ok(),
            final(self).cells() == old(self).cells().update(from as int, 12).update(
                to as int,
                c * 6 + p,
            ),
            *final(self) == (Position {
                piece: final(self).piece,
                color: final(self).color,
                mailbox: final(self).mailbox,
                ..*old(self)
            }),
    {
        let b = bit(from) | bit(to);
        self.piece[p] = self.piece[p] ^ b;
        self.color[c] = self.color[c] ^ b;
        self.mailbox[from] = NONE;
        self.mailbox[to] = p as u8;
        proof {
            let cells = old(self).cells().update(from as int, 12).update(to as int, c * 6 + p);
            assert forall|q: int| geom::is_sq(q) implies pos::shows(*self, q, #[trigger] cells[q]) by {
                pos::lemma_cells(*old(self), q);
                pos::lemma_cells(*old(self), from as int);
            }
            pos::lemma_shown(*self, cells);
        }
    }

    /// Put a piece on an empty square of the board, leaving the keys alone.
    #[inline(always)]
    fn put_back(&mut self, c: usize, p: usize, sq: usize)
        requires
            c < 2,
            p < 6,
            sq < 64,
            old(self).board_ok(),
            old(self).cells()[sq as int] == 12,
        ensures
            final(self).board_ok(),
            final(self).cells() == old(self).cells().update(sq as int, c * 6 + p),
            *final(self) == (Position {
                piece: final(self).piece,
                color: final(self).color,
                mailbox: final(self).mailbox,
                ..*old(self)
            }),
    {
        let b = bit(sq);
        self.piece[p] = self.piece[p] | b;
        self.color[c] = self.color[c] | b;
        self.mailbox[sq] = p as u8;
        proof {
            let cells = old(self).cells().update(sq as int, c * 6 + p);
            assert forall|q: int| geom::is_sq(q) implies pos::shows(*self, q, #[trigger] cells[q]) by {
                pos::lemma_cells(*old(self), q);
            }
            pos::lemma_shown(*self, cells);
        }
    }

    /// Take a piece off the board, leaving the keys alone.
    #[inline(always)]
    fn take_off(&mut self, c: usize, p: usize, sq: usize)
        requires
            c < 2,
            p < 6,
            sq < 64,
            old(self).board_ok(),
            old(self).cells()[sq as int] == c * 6 + p,
        ensures
            final(self).board_ok(),
            final(self).cells() == old(self).cells().update(sq as int, 12),
            *final(self) == (Position {
                piece: final(self).piece,
                color: final(self).color,
                mailbox: final(self).mailbox,
                ..*old(self)
            }),
    {
        let b = bit(sq);
        self.piece[p] = self.piece[p] ^ b;
        self.color[c] = self.color[c] ^ b;
        self.mailbox[sq] = NONE;
        proof {
            let cells = old(self).cells().update(sq as int, 12);
            assert forall|q: int| geom::is_sq(q) implies pos::shows(*self, q, #[trigger] cells[q]) by {
                pos::lemma_cells(*old(self), q);
            }
            pos::lemma_shown(*self, cells);
        }
    }

    /// Take `m` back.
    pub fn unmake(&mut self, m: Move)
        requires
            old(self).stm < 2,
            old(self).board_ok(),
            1 <= old(self).ply <= 136,
            1 <= old(self).hist_len <= 4232,
            rules::takeable(
                old(self).cells(),
                1 - old(self).stm,
                m,
                old(self).stack@[old(self).ply - 1].captured as int,
            ),
        ensures
            unmade(*old(self), m, *final(self)),
    {
        let ghost pre = *self;
        self.hist_len = self.hist_len - 1;
        self.ply = self.ply - 1;
        let them = self.stm;
        let us = 1 - them;
        self.stm = us;
        let from = m.from();
        let to = m.to();
        let flag = m.flag();
        let u = self.stack[self.ply];
        let (ply, n) = (self.ply, self.hist_len);
        self.stack[ply] = blank();
        self.hist[n] = 0;
        let ghost cells = pre.cells();
        proof {
            assert(self.cells() =~= cells);
            assert(self.board_ok());
            pos::lemma_cells(*self, to as int);
        }
        if flag == F_KCASTLE || flag == F_QCASTLE {
            let (rf, rt) = rook_path(us, flag);
            self.move_back(us, KING_P, to, from);
            self.move_back(us, ROOK_P, rt, rf);
        } else if flag == F_EP {
            self.move_back(us, PAWN_P, to, from);
            self.put_back(them, PAWN_P, back(us, to));
        } else {
            if m.is_promo() {
                self.take_off(us, m.promo(), to);
                self.put_back(us, PAWN_P, from);
            } else {
                let p = self.piece_at(to) as usize;
                self.move_back(us, p, to, from);
            }
            if u.captured != NONE {
                self.put_back(them, u.captured as usize, to);
            }
        }
        proof {
            assert(self.cells() =~= rules::unmoved(cells, us as int, m, u.captured as int));
        }
        let ghost board = *self;
        self.castle = u.castle;
        self.ep = u.ep;
        self.halfmove = u.halfmove;
        self.key = u.key;
        self.pawn_key = u.pawn_key;
        self.np_key = u.np_key;
        self.checkers = u.checkers;
        proof {
            assert(self.cells() =~= board.cells());
        }
    }

    /// Pass the turn without moving.
    pub fn make_null(&mut self, t: &Tables)
        requires
            old(self).sound(),
            old(self).room(1),
            old(self).checkers == 0,
            old(self).quiet_enemy(),
        ensures
            final(self).wf(),
            made_null(*old(self), *final(self)),
    {
        let ghost pre = *self;
        let ply = self.ply;
        self.stack[ply] = Undo {
            castle: self.castle,
            ep: self.ep,
            halfmove: self.halfmove,
            captured: NONE,
            key: self.key,
            pawn_key: self.pawn_key,
            np_key: self.np_key,
            checkers: self.checkers,
        };
        let mut k = t.side_key();
        if self.ep != 64 {
            k = k ^ t.ep_key(file_of(self.ep as usize));
            self.ep = 64;
        }
        self.stm = 1 - self.stm;
        self.key = self.key ^ k;
        self.halfmove = self.halfmove.wrapping_add(1);
        self.ply = self.ply + 1;
        self.checkers = 0;
        let n = self.hist_len;
        self.hist[n] = self.key;
        self.hist_len = n + 1;
        proof {
            let cells = pre.cells();
            assert(self.cells() =~= cells);
            pre.lemma_residues();
            let c0 = zobrist::zcastle(pre.castle as int);
            let e0 = rules::ep_part(pre.ep as int);
            let s0 = rules::side_part(pre.stm as int);
            let z = zobrist::zside();
            lemma_null_key(c0, e0, s0, z);
            lemma_key_split(pre.key, zobrist::board_key(zobrist::Cover::All, cells, 64), k);
            bits::lemma_xor(z, 0, 0);
            assert(k == z ^ e0);
            self.lemma_residues();
            assert(self.keys_ok());
            lemma_null_checks(pre, *self);
        }
    }

    pub fn unmake_null(&mut self)
        requires
            old(self).stm < 2,
            1 <= old(self).ply <= 136,
            1 <= old(self).hist_len <= 4232,
        ensures
            unmade_null(*old(self), *final(self)),
    {
        self.hist_len = self.hist_len - 1;
        self.ply = self.ply - 1;
        self.stm = 1 - self.stm;
        let u = self.stack[self.ply];
        let (ply, n) = (self.ply, self.hist_len);
        self.stack[ply] = blank();
        self.hist[n] = 0;
        self.ep = u.ep;
        self.halfmove = u.halfmove;
        self.key = u.key;
        self.checkers = u.checkers;
        proof {
            assert(self.cells() =~= old(self).cells());
        }
    }
}

proof fn lemma_null_key(c0: u64, e0: u64, s0: u64, z: u64)
    ensures
        (c0 ^ e0 ^ s0) ^ (z ^ e0) == c0 ^ 0 ^ (s0 ^ z),
        z ^ z == 0,
        0 ^ z == z,
{
    assert((c0 ^ e0 ^ s0) ^ (z ^ e0) == c0 ^ 0 ^ (s0 ^ z) && z ^ z == 0 && 0 ^ z == z)
        by (bit_vector);
}

/// With neither king in check, passing the turn leaves neither in check.
proof fn lemma_null_checks(p: Position, q: Position)
    requires
        p.sound(),
        p.checkers == 0,
        p.quiet_enemy(),
        q.stm == 1 - p.stm,
        q.piece == p.piece,
        q.color == p.color,
        q.mailbox == p.mailbox,
    ensures
        q.checkers_bb() == 0,
        q.quiet_enemy(),
{
    assert(q.cells() =~= p.cells());
    let cells = p.cells();
    let occ = pos::occ_of(cells);
    pos::lemma_occ(p);
    let (us, them) = (p.stm as int, 1 - p.stm);
    let (ku, kt) = (p.king(us), p.king(them));
    bits::lemma_empty(p.checkers_bb());
    bits::lemma_empty(q.checkers_bb());
    assert forall|s: int| !bits::mem(q.checkers_bb(), s) by {
        if bits::mem(q.checkers_bb(), s) {
            pos::lemma_attackers(p, kt, occ, s);
            pos::lemma_cells(p, s);
            assert(pos::owned(cells[s], us) && pos::hits(cells[s], s, kt, occ));
        }
    }
    assert(q.quiet_enemy()) by {
        if pos::attacked(cells, them, ku, occ) {
            let s = choose|s: int|
                #![trigger cells[s]]
                geom::is_sq(s) && pos::owned(cells[s], them) && pos::hits(cells[s], s, ku, occ);
            pos::lemma_attackers(p, ku, occ, s);
            pos::lemma_cells(p, s);
            assert(bits::mem(p.checkers_bb(), s));
        }
    }
}

/// `q` is what `p` becomes when `m` is taken back.
pub open spec fn unmade(p: Position, m: Move, q: Position) -> bool {
    let u = p.stack@[p.ply - 1];
    &&& q.board_ok()
    &&& q.cells() == rules::unmoved(p.cells(), 1 - p.stm, m, u.captured as int)
    &&& q.stm == 1 - p.stm
    &&& q.castle == u.castle
    &&& q.ep == u.ep
    &&& q.halfmove == u.halfmove
    &&& q.key == u.key
    &&& q.pawn_key == u.pawn_key
    &&& q.np_key == u.np_key
    &&& q.checkers == u.checkers
    &&& q.ply == p.ply - 1
    &&& q.hist_len == p.hist_len - 1
    &&& q.stack@ == p.stack@.update(p.ply - 1, pos::no_undo())
    &&& q.hist@ == p.hist@.update(p.hist_len - 1, 0)
    &&& q.root_ply == p.root_ply
}

/// `q` is what `p` becomes when the turn is passed.
pub open spec fn made_null(p: Position, q: Position) -> bool {
    &&& q.piece == p.piece
    &&& q.color == p.color
    &&& q.mailbox == p.mailbox
    &&& q.stm == 1 - p.stm
    &&& q.castle == p.castle
    &&& q.ep == 64
    &&& q.halfmove == (p.halfmove + 1) % 65536
    &&& q.ply == p.ply + 1
    &&& q.pawn_key == p.pawn_key
    &&& q.np_key == p.np_key
    &&& q.checkers == 0
    &&& q.stack@ == p.stack@.update(
        p.ply as int,
        Undo {
            castle: p.castle,
            ep: p.ep,
            halfmove: p.halfmove,
            captured: 6,
            key: p.key,
            pawn_key: p.pawn_key,
            np_key: p.np_key,
            checkers: p.checkers,
        },
    )
    &&& q.hist@ == p.hist@.update(p.hist_len as int, q.key)
    &&& q.hist_len == p.hist_len + 1
    &&& q.root_ply == p.root_ply
}

/// `q` is what `p` becomes when a passed turn is taken back.
pub open spec fn unmade_null(p: Position, q: Position) -> bool {
    let u = p.stack@[p.ply - 1];
    &&& q == (Position {
        stm: (1 - p.stm) as usize,
        ep: u.ep,
        halfmove: u.halfmove,
        key: u.key,
        checkers: u.checkers,
        ply: (p.ply - 1) as usize,
        hist_len: (p.hist_len - 1) as usize,
        stack: q.stack,
        hist: q.hist,
        ..p
    })
    &&& q.stack@ == p.stack@.update(p.ply - 1, pos::no_undo())
    &&& q.hist@ == p.hist@.update(p.hist_len - 1, 0)
}

/// Equal in every field, arrays compared by what they hold.
pub proof fn lemma_equal(p: Position, q: Position)
    requires
        p.same_game(q),
        p.stack@ == q.stack@,
        p.hist@ == q.hist@,
    ensures
        p == q,
{
    assert(p.piece =~= q.piece);
    assert(p.color =~= q.color);
    assert(p.mailbox =~= q.mailbox);
    assert(p.stack =~= q.stack);
    assert(p.hist =~= q.hist);
}

/// A move leads to exactly one position.
pub proof fn law_make_is_deterministic(p: Position, m: Move, q: Position, r: Position)
    requires
        q.sound(),
        r.sound(),
        made(p, m, q),
        made(p, m, r),
    ensures
        q == r,
{
    rules::lemma_same_board(q, r);
    assert(q.stack@ =~= r.stack@);
    assert(q.hist@ =~= r.hist@);
    lemma_equal(q, r);
}

/// Making a move and taking it back restores the position exactly: every
/// bitboard, the mailbox, all three keys, castling rights, the en-passant
/// square, the clock and the checkers.
pub proof fn law_unmake_restores(p: Position, m: Move, q: Position, r: Position)
    requires
        p.sound(),
        p.room(1),
        rules::playable(p.cells(), p.stm as int, m),
        q.sound(),
        made(p, m, q),
        unmade(q, m, r),
    ensures
        r.same_game(p),
        p.clean() ==> r == p && q.clean(),
        rules::takeable(q.cells(), 1 - q.stm, m, q.stack@[q.ply - 1].captured as int),
{
    let us = p.stm as int;
    rules::lemma_unmoved(p.cells(), us, m);
    rules::lemma_takeable(p.cells(), us, m);
    pos::lemma_cells(p, m.t());
    assert(q.stack@[q.ply - 1].captured as int == rules::victim(p.cells(), m));
    rules::lemma_same_board(r, p);
    if p.clean() {
        assert(r.stack@ =~= p.stack@);
        assert(r.hist@ =~= p.hist@);
        lemma_equal(r, p);
    }
}

/// Passing the turn and taking that back restores the position exactly.
pub proof fn law_null_round_trip(p: Position, q: Position, r: Position)
    requires
        p.sound(),
        p.room(1),
        made_null(p, q),
        unmade_null(q, r),
    ensures
        r.same_game(p),
        p.clean() ==> r == p && q.clean(),
        q.stm == 1 - p.stm,
{
    if p.clean() {
        assert(r.stack@ =~= p.stack@);
        assert(r.hist@ =~= p.hist@);
        lemma_equal(r, p);
    }
}

/// Passing the turn changes the key.
pub proof fn law_passing_changes_the_key(p: Position, q: Position)
    requires
        p.sound(),
        q.sound(),
        made_null(p, q),
    ensures
        q.key != p.key,
{
    assert(p.cells() =~= q.cells());
    let f = if p.ep == 64 {
        0
    } else {
        geom::fl(p.ep as int)
    };
    zobrist::law_the_turn_shows(f);
    let b = zobrist::board_key(zobrist::Cover::All, p.cells(), 64);
    lemma_turn_key(
        zobrist::zcastle(p.castle as int),
        if p.ep == 64 {
            0
        } else {
            zobrist::zep(f)
        },
        zobrist::zside(),
        b,
    );
}

proof fn lemma_turn_key(c: u64, e: u64, z: u64, b: u64)
    requires
        z != 0,
        e == 0 || z ^ e != 0,
    ensures
        c ^ 0 ^ z ^ b != c ^ e ^ 0 ^ b,
        c ^ 0 ^ 0 ^ b != c ^ e ^ z ^ b,
{
    assert((c ^ 0 ^ z ^ b != c ^ e ^ 0 ^ b) && (c ^ 0 ^ 0 ^ b != c ^ e ^ z ^ b)) by (bit_vector)
        requires
            z != 0,
            e == 0 || z ^ e != 0,
    ;
}

/// The position that `m` leads to.
pub open spec fn after(p: Position, m: Move) -> Position {
    choose|q: Position| q.sound() && #[trigger] made(p, m, q)
}

/// The position that passing the turn leads to.
pub open spec fn after_null(p: Position) -> Position {
    choose|q: Position| q.sound() && #[trigger] made_null(p, q)
}

/// Passing the turn leads to exactly one position.
pub proof fn law_passing_is_deterministic(p: Position, q: Position, r: Position)
    requires
        q.sound(),
        r.sound(),
        made_null(p, q),
        made_null(p, r),
    ensures
        q == r,
{
    assert(q.cells() =~= r.cells());
    rules::lemma_same_board(q, r);
    assert(q.stack@ =~= r.stack@);
    assert(q.hist@ =~= r.hist@);
    lemma_equal(q, r);
}

/// The incrementally kept keys are a function of the board, the rights, the
/// en-passant square and the side to move alone: two sound positions that
/// agree on these agree on every key, however they were reached.
pub proof fn law_keys_are_functional(p: Position, q: Position)
    requires
        p.sound(),
        q.sound(),
        p.cells() == q.cells(),
        p.castle == q.castle,
        p.ep == q.ep,
        p.stm == q.stm,
    ensures
        p.key == q.key,
        p.pawn_key == q.pawn_key,
        p.np_key == q.np_key,
        p.checkers == q.checkers,
{
    rules::lemma_same_board(p, q);
}

} // verus!
