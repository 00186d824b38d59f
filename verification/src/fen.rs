//! Positions as text: Forsyth-Edwards notation.

use vstd::prelude::*;
use vstd::wrapping::i32_specs;
use vstd::wrapping::u16_specs;
use vstd::wrapping::u8_specs;
use crate::bb::{file_of, pawn_attacks};
use crate::bits;
use crate::geom;
use crate::pos;
use crate::pos::{Position, BK, BLACK, BQ, NONE, PAWN_P, WHITE, WK, WQ};
use crate::rules;
use crate::tables::Tables;
use crate::zobrist;

verus! {

broadcast use {crate::bits::group_mem, crate::geom::group_geom};

/// The pieces as letters, white first.
pub const LETTERS: [u8; 12] = [80, 78, 66, 82, 81, 75, 112, 110, 98, 114, 113, 107];

/// The board field, side, castling, en-passant and clock fields of the start
/// position: `rnbqkbnr/pppppppp/8/8/8/8/PPPPPPPP/RNBQKBNR w KQkq - 0 1`.
pub const STARTPOS: [u8; 56] = [
    114, 110, 98, 113, 107, 98, 110, 114, 47, 112, 112, 112, 112, 112, 112, 112, 112, 47, 56, 47, 56,
    47, 56, 47, 56, 47, 80, 80, 80, 80, 80, 80, 80, 80, 47, 82, 78, 66, 81, 75, 66, 78, 82, 32, 119,
    32, 75, 81, 107, 113, 32, 45, 32, 48, 32, 49,
];

// ---------------------------------------------------------------------------
// Reading
// ---------------------------------------------------------------------------

/// The piece a letter stands for; 12 if none.
pub open spec fn code_of(c: u8) -> int {
    if c == 80 {
        0
    } else if c == 78 {
        1
    } else if c == 66 {
        2
    } else if c == 82 {
        3
    } else if c == 81 {
        4
    } else if c == 75 {
        5
    } else if c == 112 {
        6
    } else if c == 110 {
        7
    } else if c == 98 {
        8
    } else if c == 114 {
        9
    } else if c == 113 {
        10
    } else if c == 107 {
        11
    } else {
        12
    }
}

/// A board being set up: the parts of a position that pieces touch.
pub struct Draft {
    pub piece: Seq<u64>,
    pub color: Seq<u64>,
    pub mailbox: Seq<u8>,
    pub key: u64,
    pub pawn_key: u64,
    pub np_key: u64,
}

pub open spec fn draft(p: Position) -> Draft {
    Draft {
        piece: p.piece@,
        color: p.color@,
        mailbox: p.mailbox@,
        key: p.key,
        pawn_key: p.pawn_key,
        np_key: p.np_key,
    }
}

pub open spec fn blank() -> Draft {
    Draft {
        piece: Seq::new(6, |i: int| 0u64),
        color: Seq::new(2, |i: int| 0u64),
        mailbox: Seq::new(64, |i: int| 6u8),
        key: 0,
        pawn_key: 0,
        np_key: 0,
    }
}

/// One more piece on the board, whatever stood there.
pub open spec fn dropped(d: Draft, code: int, s: int) -> Draft {
    let (c, t) = (code / 6, code % 6);
    let k = zobrist::zpsq(code, s);
    Draft {
        piece: d.piece.update(t, d.piece[t] | bits::one(s)),
        color: d.color.update(c, d.color[c] | bits::one(s)),
        mailbox: d.mailbox.update(s, t as u8),
        key: d.key ^ k,
        pawn_key: if t == 0 {
            d.pawn_key ^ k
        } else {
            d.pawn_key
        },
        np_key: if t == 0 {
            d.np_key
        } else {
            d.np_key ^ k
        },
    }
}

/// The board field from `s[i]` on, with the cursor on `sq`. Letters that stand
/// for no piece are passed over, and pieces off the board are left out.
pub open spec fn scan(d: Draft, s: Seq<u8>, i: int, sq: i32) -> Draft
    decreases s.len() - i,
{
    if i < 0 || i >= s.len() || s[i] == 32 {
        d
    } else if s[i] == 47 {
        scan(d, s, i + 1, i32_specs::wrapping_sub(sq, 16))
    } else if 49 <= s[i] <= 56 {
        scan(d, s, i + 1, i32_specs::wrapping_add(sq, (s[i] - 48) as i32))
    } else if code_of(s[i]) == 12 {
        scan(d, s, i + 1, sq)
    } else {
        scan(
            if 0 <= sq < 64 {
                dropped(d, code_of(s[i]), sq as int)
            } else {
                d
            },
            s,
            i + 1,
            i32_specs::wrapping_add(sq, 1),
        )
    }
}

/// The next space at or after `i`, or the end.
pub open spec fn gap(s: Seq<u8>, i: int) -> int
    decreases s.len() - i,
{
    if i < 0 || i >= s.len() || s[i] == 32 {
        i
    } else {
        gap(s, i + 1)
    }
}

/// The next character at or after `i` that is not a space, or the end.
pub open spec fn past_spaces(s: Seq<u8>, i: int) -> int
    decreases s.len() - i,
{
    if i < 0 || i >= s.len() || s[i] != 32 {
        i
    } else {
        past_spaces(s, i + 1)
    }
}

/// `n` characters on, but not past the end.
pub open spec fn on(s: Seq<u8>, i: int, n: int) -> int {
    if i + n < s.len() {
        i + n
    } else {
        s.len() as int
    }
}

/// The castling field from `s[i]` on.
pub open spec fn rights_scan(c: u8, s: Seq<u8>, i: int) -> u8
    decreases s.len() - i,
{
    if i < 0 || i >= s.len() || s[i] == 32 {
        c
    } else {
        rights_scan(
            if s[i] == 75 {
                c | 1
            } else if s[i] == 81 {
                c | 2
            } else if s[i] == 107 {
                c | 4
            } else if s[i] == 113 {
                c | 8
            } else {
                c
            },
            s,
            i + 1,
        )
    }
}

/// A decimal number from `s[i]` on, after `h`; it wraps if it is too large.
pub open spec fn number(h: u16, s: Seq<u8>, i: int) -> u16
    decreases s.len() - i,
{
    if i < 0 || i >= s.len() || !(48 <= s[i] <= 57) {
        h
    } else {
        number(
            u16_specs::wrapping_add(u16_specs::wrapping_mul(h, 10), (s[i] - 48) as u16),
            s,
            i + 1,
        )
    }
}

/// The en-passant field at `s[i]`: kept only when a pawn of the side to move
/// could capture there.
pub open spec fn ep_field(d: Draft, stm: int, s: Seq<u8>, i: int) -> int {
    if i + 1 < s.len() && s[i] != 45 {
        let f = u8_specs::wrapping_sub(s[i], 97) as int;
        let r = u8_specs::wrapping_sub(s[i + 1], 49) as int;
        if f < 8 && r < 8 && geom::pawn_bb(1 - stm, r * 8 + f) & (d.piece[0] & d.color[stm]) != 0 {
            r * 8 + f
        } else {
            64
        }
    } else {
        64
    }
}

/// `p` is the position that the text describes.
pub open spec fn parsed(s: Seq<u8>, p: Position) -> bool {
    let d = scan(blank(), s, 0, 56);
    let i1 = on(s, gap(s, 0), 1);
    let i2 = on(s, i1, 2);
    let i3 = on(s, gap(s, i2), 1);
    let i4 = past_spaces(s, on(s, i3, 2));
    let stm = if i1 < s.len() && s[i1] == 98 {
        1int
    } else {
        0
    };
    &&& p.piece@ == d.piece
    &&& p.color@ == d.color
    &&& p.mailbox@ == d.mailbox
    &&& p.pawn_key == d.pawn_key
    &&& p.np_key == d.np_key
    &&& p.stm == stm
    &&& p.castle == rights_scan(0, s, i2)
    &&& p.ep == ep_field(d, stm, s, i3)
    &&& p.halfmove == number(0, s, i4)
    &&& p.key == d.key ^ rules::extra_key(p.castle as int, p.ep as int, stm)
    &&& p.checkers == p.checkers_bb()
    &&& p.ply == 0
    &&& p.root_ply == 0
    &&& p.hist_len == 1
    &&& p.hist@[0] == p.key
}

fn letter_code(c: u8) -> (r: usize)
    ensures
        r == code_of(c),
{
    let mut i: usize = 0;
    while i < 12
        invariant
            i <= 12,
            forall|j: int| 0 <= j < i ==> LETTERS@[j] != c,
        decreases 12 - i,
    {
        if LETTERS[i] == c {
            return i;
        }
        i = i + 1;
    }
    assert(LETTERS@[0] != c && LETTERS@[1] != c && LETTERS@[2] != c && LETTERS@[3] != c
        && LETTERS@[4] != c && LETTERS@[5] != c && LETTERS@[6] != c && LETTERS@[7] != c
        && LETTERS@[8] != c && LETTERS@[9] != c && LETTERS@[10] != c && LETTERS@[11] != c);
    12
}

fn step(s: &[u8], i: usize, n: usize) -> (r: usize)
    requires
        i <= s@.len(),
    ensures
        r == on(s@, i as int, n as int),
        r <= s@.len(),
{
    if n < s.len() - i {
        i + n
    } else {
        s.len()
    }
}

fn find_gap(s: &[u8], from: usize) -> (r: usize)
    requires
        from <= s@.len(),
    ensures
        r == gap(s@, from as int),
        r <= s@.len(),
{
    let mut i = from;
    while i < s.len() && s[i] != 32
        invariant
            i <= s@.len(),
            gap(s@, i as int) == gap(s@, from as int),
        decreases s@.len() - i,
    {
        i = i + 1;
    }
    i
}

impl Position {
    fn read_board(&mut self, t: &Tables, s: &[u8])
        requires
            draft(*old(self)) == blank(),
        ensures
            draft(*final(self)) == scan(blank(), s@, 0, 56),
            *final(self) == (Position {
                piece: final(self).piece,
                color: final(self).color,
                mailbox: final(self).mailbox,
                key: final(self).key,
                pawn_key: final(self).pawn_key,
                np_key: final(self).np_key,
                ..*old(self)
            }),
    {
        let mut i: usize = 0;
        let mut sq: i32 = 56;
        while i < s.len() && s[i] != 32
            invariant
                i <= s@.len(),
                scan(draft(*self), s@, i as int, sq) == scan(blank(), s@, 0, 56),
                *self == (Position {
                    piece: self.piece,
                    color: self.color,
                    mailbox: self.mailbox,
                    key: self.key,
                    pawn_key: self.pawn_key,
                    np_key: self.np_key,
                    ..*old(self)
                }),
            decreases s@.len() - i,
        {
            let c = s[i];
            if c == 47 {
                sq = sq.wrapping_sub(16);
            } else if 49 <= c && c <= 56 {
                sq = sq.wrapping_add((c - 48) as i32);
            } else {
                let code = letter_code(c);
                if code < 12 {
                    if 0 <= sq && sq < 64 {
                        let ghost pre = draft(*self);
                        self.put(t, code / 6, code % 6, sq as usize);
                        proof {
                            assert(draft(*self) == dropped(pre, code as int, sq as int));
                        }
                    }
                    sq = sq.wrapping_add(1);
                }
            }
            i = i + 1;
        }
    }
}

fn read_rights(s: &[u8], from: usize) -> (r: u8)
    requires
        from <= s@.len(),
    ensures
        r == rights_scan(0, s@, from as int),
        r < 16,
{
    let mut i = from;
    let mut c: u8 = 0;
    while i < s.len() && s[i] != 32
        invariant
            i <= s@.len(),
            c < 16,
            rights_scan(c, s@, i as int) == rights_scan(0, s@, from as int),
        decreases s@.len() - i,
    {
        assert(c < 16 ==> c | 1 < 16 && c | 2 < 16 && c | 4 < 16 && c | 8 < 16) by (bit_vector);
        let x = s[i];
        if x == 75 {
            c = c | WK;
        } else if x == 81 {
            c = c | WQ;
        } else if x == 107 {
            c = c | BK;
        } else if x == 113 {
            c = c | BQ;
        }
        i = i + 1;
    }
    c
}

fn read_number(s: &[u8], from: usize) -> (r: u16)
    requires
        from <= s@.len(),
    ensures
        r == number(0, s@, from as int),
{
    let mut i = from;
    let mut h: u16 = 0;
    while i < s.len() && 48 <= s[i] && s[i] <= 57
        invariant
            i <= s@.len(),
            number(h, s@, i as int) == number(0, s@, from as int),
        decreases s@.len() - i,
    {
        h = h.wrapping_mul(10).wrapping_add((s[i] - 48) as u16);
        i = i + 1;
    }
    h
}

impl Position {
    /// Read a position. Nothing is rejected: missing fields take their defaults
    /// and what cannot be understood is passed over.
    pub fn set_fen(&mut self, t: &Tables, fen: &[u8])
        ensures
            parsed(fen@, *final(self)),
            final(self).clean(),
    {
        self.piece = [0;6];
        self.color = [0;2];
        self.mailbox = [NONE;64];
        self.castle = 0;
        self.ep = 64;
        self.halfmove = 0;
        self.ply = 0;
        self.key = 0;
        self.pawn_key = 0;
        self.np_key = 0;
        self.hist_len = 0;
        self.root_ply = 0;
        self.stack = [pos::blank();136];
        self.hist = [0;4232];
        proof {
            assert(self.piece@ =~= blank().piece);
            assert(self.color@ =~= blank().color);
            assert(self.mailbox@ =~= blank().mailbox);
        }
        self.read_board(t, fen);
        let ghost d = draft(*self);
        let i1 = step(fen, find_gap(fen, 0), 1);
        self.stm = if i1 < fen.len() && fen[i1] == 98 {
            BLACK
        } else {
            WHITE
        };
        let i2 = step(fen, i1, 2);
        self.castle = read_rights(fen, i2);
        let i3 = step(fen, find_gap(fen, i2), 1);
        if i3 < fen.len() && fen[i3] != 45 && 1 < fen.len() - i3 {
            let f = fen[i3].wrapping_sub(97) as usize;
            let r = fen[i3 + 1].wrapping_sub(49) as usize;
            if f < 8 && r < 8 {
                let epsq = r * 8 + f;
                // Same rule as when a move is made: only keep it when
                // capturable. The capturing pawns belong to the side to move
                // and stand on the squares from which they attack `epsq`.
                if pawn_attacks(t.attacks(), 1 - self.stm, epsq) & self.pieces(self.stm, PAWN_P)
                    != 0 {
                    self.ep = epsq as u8;
                }
            }
        }
        let mut i4 = step(fen, i3, 2);
        let ghost i5 = i4 as int;
        while i4 < fen.len() && fen[i4] == 32
            invariant
                i4 <= fen@.len(),
                past_spaces(fen@, i4 as int) == past_spaces(fen@, i5),
            decreases fen@.len() - i4,
        {
            i4 = i4 + 1;
        }
        self.halfmove = read_number(fen, i4);
        let mut k: u64 = t.castle_key(self.castle);
        let mut e: u64 = 0;
        if self.ep != 64 {
            e = t.ep_key(file_of(self.ep as usize));
        }
        let mut z: u64 = 0;
        if self.stm == BLACK {
            z = t.side_key();
        }
        k = k ^ e ^ z;
        self.key = self.key ^ k;
        self.compute_checkers(t);
        self.hist[0] = self.key;
        self.hist_len = 1;
    }
}

// ---------------------------------------------------------------------------
// Writing
// ---------------------------------------------------------------------------

/// A run of `e` empty squares.
pub open spec fn run_text(e: int) -> Seq<u8> {
    if e > 0 {
        seq![(48 + e) as u8]
    } else {
        Seq::empty()
    }
}

/// Rank `r` from file `f` on, after `e` empty squares.
pub open spec fn row_text(cells: Seq<int>, r: int, f: int, e: int) -> Seq<u8>
    decreases 8 - f,
{
    if f >= 8 {
        run_text(e)
    } else if cells[r * 8 + f] == 12 {
        row_text(cells, r, f + 1, e + 1)
    } else {
        run_text(e) + seq![LETTERS@[cells[r * 8 + f]]] + row_text(cells, r, f + 1, 0)
    }
}

/// The board from rank `r` down.
pub open spec fn board_text(cells: Seq<int>, r: int) -> Seq<u8>
    decreases r,
{
    if r <= 0 {
        row_text(cells, r, 0, 0)
    } else {
        row_text(cells, r, 0, 0) + seq![47u8] + board_text(cells, r - 1)
    }
}

/// One letter per right held.
pub open spec fn right_text(castle: u8, right: u8, letter: u8) -> Seq<u8> {
    if castle & right != 0 {
        seq![letter]
    } else {
        Seq::empty()
    }
}

pub open spec fn rights_text(castle: u8) -> Seq<u8> {
    if castle == 0 {
        seq![45u8]
    } else {
        right_text(castle, 1, 75) + right_text(castle, 2, 81) + right_text(castle, 4, 107)
            + right_text(castle, 8, 113)
    }
}

pub open spec fn ep_text(ep: int) -> Seq<u8> {
    if ep == 64 {
        seq![45u8]
    } else {
        seq![(97 + ep % 8) as u8, (49 + ep / 8) as u8]
    }
}

/// A position as text. The clocks are written as `0 1`.
pub open spec fn text(cells: Seq<int>, stm: int, castle: u8, ep: int) -> Seq<u8> {
    board_text(cells, 7) + seq![
        32u8,
        if stm == 0 {
            119u8
        } else {
            98
        },
        32u8,
    ] + rights_text(castle) + seq![32u8] + ep_text(ep) + seq![32u8, 48u8, 32u8, 49u8]
}

pub open spec fn fen_text(p: Position) -> Seq<u8> {
    text(p.cells(), p.stm as int, p.castle, p.ep as int)
}

/// Append one character.
fn emit(buf: &mut [u8; 96], n: usize, c: u8) -> (r: usize)
    requires
        n < 96,
    ensures
        r == n + 1,
        final(buf)@.take(r as int) == old(buf)@.take(n as int).push(c),
        forall|i: int| r <= i < 96 ==> final(buf)@[i] == old(buf)@[i],
{
    buf[n] = c;
    proof {
        assert(buf@.take(n + 1) =~= old(buf)@.take(n as int).push(c));
    }
    n + 1
}

fn emit_row(pos: &Position, buf: &mut [u8; 96], n0: usize, r: usize) -> (n: usize)
    requires
        pos.board_ok(),
        r < 8,
        n0 <= 87,
    ensures
        n0 <= n <= n0 + 8,
        final(buf)@.take(n as int) == old(buf)@.take(n0 as int) + row_text(
            pos.cells(),
            r as int,
            0,
            0,
        ),
        forall|i: int| n <= i < 96 ==> final(buf)@[i] == old(buf)@[i],
{
    let ghost cells = pos.cells();
    let ghost total = buf@.take(n0 as int) + row_text(cells, r as int, 0, 0);
    let mut n = n0;
    let mut empty: u8 = 0;
    let mut f: usize = 0;
    while f < 8
        invariant
            pos.board_ok(),
            cells == pos.cells(),
            r < 8,
            f <= 8,
            empty <= f,
            n0 <= 87,
            n0 <= n,
            n + (if empty > 0 {
                1int
            } else {
                0
            }) <= n0 + f,
            total == buf@.take(n as int) + row_text(cells, r as int, f as int, empty as int),
            forall|i: int| n <= i < 96 ==> buf@[i] == old(buf)@[i],
        decreases 8 - f,
    {
        let sq = r * 8 + f;
        let p = pos.piece_at(sq);
        proof {
            pos::lemma_cells(*pos, sq as int);
        }
        if p == NONE {
            empty = empty + 1;
        } else {
            let ghost b0 = buf@.take(n as int);
            let ghost e0 = empty as int;
            if empty > 0 {
                n = emit(buf, n, 48 + empty);
                empty = 0;
            }
            n = emit(buf, n, LETTERS[pos.color_at(sq) * 6 + p as usize]);
            proof {
                let c = LETTERS@[cells[sq as int]];
                let rest = row_text(cells, r as int, f + 1, 0);
                assert(buf@.take(n as int) =~= b0 + run_text(e0) + seq![c]);
                assert(b0 + (run_text(e0) + seq![c] + rest) =~= (b0 + run_text(e0) + seq![c]) + rest);
            }
        }
        f = f + 1;
    }
    if empty > 0 {
        let ghost b0 = buf@.take(n as int);
        n = emit(buf, n, 48 + empty);
        proof {
            assert(buf@.take(n as int) =~= b0 + run_text(empty as int));
        }
    } else {
        assert(buf@.take(n as int) + run_text(0) =~= buf@.take(n as int));
    }
    n
}

fn emit_rights(castle: u8, buf: &mut [u8; 96], n0: usize) -> (n: usize)
    requires
        n0 <= 90,
    ensures
        n0 <= n <= n0 + 4,
        final(buf)@.take(n as int) == old(buf)@.take(n0 as int) + rights_text(castle),
        forall|i: int| n <= i < 96 ==> final(buf)@[i] == old(buf)@[i],
{
    let mut n = n0;
    let ghost b0 = buf@.take(n as int);
    if castle == 0 {
        n = emit(buf, n, 45);
        assert(buf@.take(n as int) =~= b0 + rights_text(castle));
        return n;
    }
    if castle & WK != 0 {
        n = emit(buf, n, 75);
    }
    assert(buf@.take(n as int) =~= b0 + right_text(castle, 1, 75));
    if castle & WQ != 0 {
        n = emit(buf, n, 81);
    }
    assert(buf@.take(n as int) =~= b0 + right_text(castle, 1, 75) + right_text(castle, 2, 81));
    if castle & BK != 0 {
        n = emit(buf, n, 107);
    }
    assert(buf@.take(n as int) =~= b0 + right_text(castle, 1, 75) + right_text(castle, 2, 81)
        + right_text(castle, 4, 107));
    if castle & BQ != 0 {
        n = emit(buf, n, 113);
    }
    assert(buf@.take(n as int) =~= b0 + rights_text(castle));
    n
}

fn emit_board(pos: &Position, buf: &mut [u8; 96]) -> (n: usize)
    requires
        pos.board_ok(),
    ensures
        n <= 71,
        final(buf)@.take(n as int) == board_text(pos.cells(), 7),
        forall|i: int| n <= i < 96 ==> final(buf)@[i] == old(buf)@[i],
{
    let ghost cells = pos.cells();
    let mut n: usize = 0;
    let mut r: usize = 7;
    proof {
        assert(buf@.take(0) + board_text(cells, 7) =~= board_text(cells, 7));
    }
    while r > 0
        invariant
            pos.board_ok(),
            cells == pos.cells(),
            r <= 7,
            n <= (7 - r) * 9,
            buf@.take(n as int) + board_text(cells, r as int) == board_text(cells, 7),
            forall|i: int| n <= i < 96 ==> buf@[i] == old(buf)@[i],
        decreases r,
    {
        let ghost b0 = buf@.take(n as int);
        n = emit_row(pos, buf, n, r);
        n = emit(buf, n, 47);
        r = r - 1;
        proof {
            let row = row_text(cells, r + 1, 0, 0);
            let b1 = buf@.take(n as int);
            assert(b1 =~= b0 + row + seq![47u8]);
            assert(b0 + (row + seq![47u8] + board_text(cells, r as int)) =~= b1 + board_text(
                cells,
                r as int,
            ));
        }
    }
    emit_row(pos, buf, n, 0)
}

fn emit_ep(ep: u8, buf: &mut [u8; 96], n0: usize) -> (n: usize)
    requires
        n0 <= 90,
    ensures
        n0 <= n <= n0 + 2,
        final(buf)@.take(n as int) == old(buf)@.take(n0 as int) + ep_text(ep as int),
        forall|i: int| n <= i < 96 ==> final(buf)@[i] == old(buf)@[i],
{
    let ghost b0 = buf@.take(n0 as int);
    if ep == 64 {
        let n = emit(buf, n0, 45);
        assert(buf@.take(n as int) =~= b0 + ep_text(ep as int));
        n
    } else {
        let n1 = emit(buf, n0, 97 + ep % 8);
        let n = emit(buf, n1, 49 + ep / 8);
        assert(buf@.take(n as int) =~= b0 + ep_text(ep as int));
        n
    }
}

fn emit_side(stm: usize, buf: &mut [u8; 96], n0: usize) -> (n: usize)
    requires
        n0 <= 90,
    ensures
        n == n0 + 3,
        final(buf)@.take(n as int) == old(buf)@.take(n0 as int) + seq![
            32u8,
            if stm == 0 {
                119u8
            } else {
                98
            },
            32u8,
        ],
        forall|i: int| n <= i < 96 ==> final(buf)@[i] == old(buf)@[i],
{
    let ghost b0 = buf@.take(n0 as int);
    let c: u8 = if stm == WHITE {
        119
    } else {
        98
    };
    let n1 = emit(buf, n0, 32);
    let n2 = emit(buf, n1, c);
    let n = emit(buf, n2, 32);
    assert(buf@.take(n as int) =~= b0 + seq![32u8, c, 32u8]);
    n
}

/// Half-move and full-move counters; readers ignore them but expect the fields
/// to exist.
fn emit_clocks(buf: &mut [u8; 96], n0: usize) -> (n: usize)
    requires
        n0 <= 90,
    ensures
        n == n0 + 4,
        final(buf)@.take(n as int) == old(buf)@.take(n0 as int) + seq![32u8, 48u8, 32u8, 49u8],
        forall|i: int| n <= i < 96 ==> final(buf)@[i] == old(buf)@[i],
{
    let ghost b0 = buf@.take(n0 as int);
    let n1 = emit(buf, n0, 32);
    let n2 = emit(buf, n1, 48);
    let n3 = emit(buf, n2, 32);
    let n = emit(buf, n3, 49);
    assert(buf@.take(n as int) =~= b0 + seq![32u8, 48u8, 32u8, 49u8]);
    n
}

/// Serialise a position. Returns the length of the text; the rest of the buffer
/// keeps what it held.
pub fn write_fen(pos: &Position, buf: &mut [u8; 96]) -> (n: usize)
    requires
        pos.board_ok(),
    ensures
        n <= 85,
        final(buf)@.take(n as int) == fen_text(*pos),
        forall|i: int| n <= i < 96 ==> final(buf)@[i] == old(buf)@[i],
{
    let n1 = emit_board(pos, buf);
    let n2 = emit_side(pos.stm, buf, n1);
    let n3 = emit_rights(pos.castle, buf, n2);
    let ghost t3 = buf@.take(n3 as int);
    let n4 = emit(buf, n3, 32);
    proof {
        assert(buf@.take(n4 as int) =~= t3 + seq![32u8]);
    }
    let n5 = emit_ep(pos.ep, buf, n4);
    emit_clocks(buf, n5)
}

} // verus!
