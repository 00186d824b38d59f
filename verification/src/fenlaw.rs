//! What is written as text is read back as the same position.

use vstd::prelude::*;
use vstd::wrapping::i32_specs;
use crate::bits;
use crate::fen;
use crate::fen::{Draft, STARTPOS};
use crate::geom;
use crate::make;
use crate::pos;
use crate::pos::Position;
use crate::rules;
use crate::tables::Tables;
use crate::zobrist;

verus! {

broadcast use {crate::bits::group_mem, crate::geom::group_geom};

/// Every cell is empty or holds a piece.
pub open spec fn board(cells: Seq<int>) -> bool {
    cells.len() == 64 && forall|s: int|
        geom::is_sq(s) ==> (#[trigger] cells[s] == 12 || pos::is_piece(cells[s]))
}

/// Square `q` of the draft holds `code`.
spec fn fits(d: Draft, q: int, code: int) -> bool {
    &&& code == 12 || pos::is_piece(code)
    &&& d.mailbox[q] == if code == 12 {
        6int
    } else {
        code % 6
    }
    &&& forall|t: int|
        0 <= t < 6 ==> (bits::mem(#[trigger] d.piece[t], q) <==> code != 12 && t == code % 6)
    &&& bits::mem(d.color[0], q) <==> pos::owned(code, 0)
    &&& bits::mem(d.color[1], q) <==> pos::owned(code, 1)
}

/// The draft is the board `cs`, and its keys are those of the board.
spec fn holds(d: Draft, cs: Seq<int>) -> bool {
    &&& cs.len() == 64
    &&& d.piece.len() == 6
    &&& d.color.len() == 2
    &&& d.mailbox.len() == 64
    &&& forall|q: int| geom::is_sq(q) ==> fits(d, q, #[trigger] cs[q])
    &&& d.key == zobrist::board_key(zobrist::Cover::All, cs, 64)
    &&& d.pawn_key == zobrist::board_key(zobrist::Cover::Pawns, cs, 64)
    &&& d.np_key == zobrist::board_key(zobrist::Cover::Others, cs, 64)
}

proof fn lemma_dropped(d: Draft, cs: Seq<int>, code: int, s: int)
    requires
        holds(d, cs),
        pos::is_piece(code),
        geom::is_sq(s),
        cs[s] == 12,
    ensures
        holds(fen::dropped(d, code, s), cs.update(s, code)),
{
    let e = fen::dropped(d, code, s);
    let cs2 = cs.update(s, code);
    assert forall|q: int| geom::is_sq(q) implies fits(e, q, #[trigger] cs2[q]) by {
        assert(fits(d, q, cs[q]));
    }
    zobrist::lemma_board_key_update(zobrist::Cover::All, cs, s, code, 64);
    zobrist::lemma_board_key_update(zobrist::Cover::Pawns, cs, s, code, 64);
    zobrist::lemma_board_key_update(zobrist::Cover::Others, cs, s, code, 64);
    bits::lemma_xor(d.key, 0, 0);
    bits::lemma_xor(d.pawn_key, 0, 0);
    bits::lemma_xor(d.np_key, 0, 0);
}

/// The squares of `cells` read so far: the ranks above `r`, and rank `r` up to
/// file `f`.
spec fn read(cells: Seq<int>, r: int, f: int) -> Seq<int> {
    Seq::new(
        64,
        |s: int|
            if geom::rk(s) > r || (geom::rk(s) == r && geom::fl(s) < f) {
                cells[s]
            } else {
                12
            },
    )
}

proof fn lemma_letters(code: int)
    requires
        pos::is_piece(code),
    ensures
        fen::code_of(fen::LETTERS@[code]) == code,
        fen::LETTERS@[code] > 57,
{
    assert(code == 0 || code == 1 || code == 2 || code == 3 || code == 4 || code == 5 || code == 6
        || code == 7 || code == 8 || code == 9 || code == 10 || code == 11);
}

/// `s` holds `part` from `i` on.
spec fn at(s: Seq<u8>, i: int, part: Seq<u8>) -> bool {
    0 <= i && i + part.len() <= s.len() && forall|j: int|
        0 <= j < part.len() ==> s[i + j] == #[trigger] part[j]
}

/// Reading the rest of a rank.
proof fn lemma_row(d: Draft, s: Seq<u8>, i: int, cells: Seq<int>, r: int, f: int, e: int) -> (d2:
    Draft)
    requires
        board(cells),
        0 <= r < 8,
        0 <= e <= f <= 8,
        at(s, i, fen::row_text(cells, r, f, e)),
        holds(d, read(cells, r, f)),
    ensures
        holds(d2, read(cells, r, 8)),
        fen::scan(d, s, i, (r * 8 + f - e) as i32) == fen::scan(
            d2,
            s,
            i + fen::row_text(cells, r, f, e).len(),
            (r * 8 + 8) as i32,
        ),
        forall|j: int|
            0 <= j < fen::row_text(cells, r, f, e).len() ==> (#[trigger] fen::row_text(
                cells,
                r,
                f,
                e,
            )[j]) > 47,
    decreases 8 - f,
{
    let txt = fen::row_text(cells, r, f, e);
    let run = fen::run_text(e);
    if f >= 8 {
        if e > 0 {
            assert(s[i] == txt[0]);
            assert(fen::scan(d, s, i, (r * 8 + f - e) as i32) == fen::scan(
                d,
                s,
                i + 1,
                i32_specs::wrapping_add((r * 8 + f - e) as i32, e as i32),
            ));
        }
        d
    } else if cells[r * 8 + f] == 12 {
        assert(read(cells, r, f) =~= read(cells, r, f + 1));
        lemma_row(d, s, i, cells, r, f + 1, e + 1)
    } else {
        let code = cells[r * 8 + f];
        let sq = r * 8 + f;
        let tail = fen::row_text(cells, r, f + 1, 0);
        let c = fen::LETTERS@[code];
        lemma_letters(code);
        assert(txt == run + seq![c] + tail);
        let n = run.len() as int;
        if e > 0 {
            assert(s[i] == txt[0]);
            assert(txt[0] == run[0]);
            assert(fen::scan(d, s, i, (sq - e) as i32) == fen::scan(
                d,
                s,
                i + 1,
                i32_specs::wrapping_add((sq - e) as i32, e as i32),
            ));
        }
        assert(fen::scan(d, s, i, (sq - e) as i32) == fen::scan(d, s, i + n, sq as i32));
        assert(s[i + n] == txt[n]);
        assert(txt[n] == c);
        let d1 = fen::dropped(d, code, sq);
        lemma_dropped(d, read(cells, r, f), code, sq);
        assert(read(cells, r, f).update(sq, code) =~= read(cells, r, f + 1));
        assert forall|j: int| 0 <= j < tail.len() implies s[i + n + 1 + j] == #[trigger] tail[j] by {
            assert(txt[n + 1 + j] == tail[j]);
            assert(s[i + (n + 1 + j)] == txt[n + 1 + j]);
        }
        assert(fen::scan(d, s, i + n, sq as i32) == fen::scan(
            d1,
            s,
            i + n + 1,
            i32_specs::wrapping_add(sq as i32, 1),
        ));
        let d2 = lemma_row(d1, s, i + n + 1, cells, r, f + 1, 0);
        assert forall|j: int| 0 <= j < txt.len() implies #[trigger] txt[j] > 47 by {
            if j > n {
                assert(txt[j] == tail[j - n - 1]);
            }
        }
        d2
    }
}

/// Reading the board from rank `r` down.
proof fn lemma_board(d: Draft, s: Seq<u8>, i: int, cells: Seq<int>, r: int) -> (d2: Draft)
    requires
        board(cells),
        0 <= r < 8,
        at(s, i, fen::board_text(cells, r)),
        i + fen::board_text(cells, r).len() < s.len(),
        s[i + fen::board_text(cells, r).len()] == 32,
        holds(d, read(cells, r, 0)),
    ensures
        holds(d2, cells),
        fen::scan(d, s, i, (r * 8) as i32) == d2,
        forall|j: int|
            0 <= j < fen::board_text(cells, r).len() ==> (#[trigger] fen::board_text(cells, r)[j])
                != 32,
    decreases r,
{
    let txt = fen::board_text(cells, r);
    let row = fen::row_text(cells, r, 0, 0);
    if r == 0 {
        let d2 = lemma_row(d, s, i, cells, r, 0, 0);
        assert(read(cells, 0, 8) =~= cells);
        d2
    } else {
        let below = fen::board_text(cells, r - 1);
        let n = row.len() as int;
        assert(txt == row + seq![47u8] + below);
        assert forall|j: int| 0 <= j < row.len() implies s[i + j] == #[trigger] row[j] by {
            assert(txt[j] == row[j]);
        }
        let d1 = lemma_row(d, s, i, cells, r, 0, 0);
        assert(txt[n] == 47);
        assert(s[i + n] == 47);
        assert(read(cells, r, 8) =~= read(cells, r - 1, 0));
        assert forall|j: int| 0 <= j < below.len() implies s[i + n + 1 + j] == #[trigger] below[j] by {
            assert(txt[n + 1 + j] == below[j]);
            assert(s[i + (n + 1 + j)] == txt[n + 1 + j]);
        }
        assert(fen::scan(d1, s, i + n, (r * 8 + 8) as i32) == fen::scan(
            d1,
            s,
            i + n + 1,
            i32_specs::wrapping_sub((r * 8 + 8) as i32, 16),
        ));
        let d2 = lemma_board(d1, s, i + n + 1, cells, r - 1);
        assert forall|j: int| 0 <= j < txt.len() implies #[trigger] txt[j] != 32 by {
            if j < n {
                assert(txt[j] == row[j]);
            } else if j > n {
                assert(txt[j] == below[j - n - 1]);
            }
        }
        d2
    }
}

proof fn lemma_gap(s: Seq<u8>, i: int, j: int)
    requires
        0 <= i <= j < s.len(),
        s[j] == 32,
        forall|x: int| i <= x < j ==> #[trigger] s[x] != 32,
    ensures
        fen::gap(s, i) == j,
    decreases j - i,
{
    if i < j {
        lemma_gap(s, i + 1, j);
    }
}

/// One letter of the castling field.
proof fn lemma_right(c: u8, s: Seq<u8>, i: int, castle: u8, right: u8, letter: u8)
    requires
        at(s, i, fen::right_text(castle, right, letter)),
        (right == 1 && letter == 75) || (right == 2 && letter == 81) || (right == 4 && letter
            == 107) || (right == 8 && letter == 113),
    ensures
        fen::rights_scan(c, s, i) == fen::rights_scan(
            if castle & right != 0 {
                c | right
            } else {
                c
            },
            s,
            i + fen::right_text(castle, right, letter).len(),
        ),
{
    if castle & right != 0 {
        assert(s[i + 0] == fen::right_text(castle, right, letter)[0]);
    }
}

proof fn lemma_rights_sum(c: u8)
    requires
        c < 16,
    ensures
        ({
            let c1 = if c & 1 != 0 {
                0u8 | 1
            } else {
                0u8
            };
            let c2 = if c & 2 != 0 {
                c1 | 2
            } else {
                c1
            };
            let c3 = if c & 4 != 0 {
                c2 | 4
            } else {
                c2
            };
            let c4 = if c & 8 != 0 {
                c3 | 8
            } else {
                c3
            };
            c4 == c
        }),
{
    assert(c < 16 ==> ({
        let c1 = if c & 1 != 0 {
            0u8 | 1
        } else {
            0u8
        };
        let c2 = if c & 2 != 0 {
            c1 | 2
        } else {
            c1
        };
        let c3 = if c & 4 != 0 {
            c2 | 4
        } else {
            c2
        };
        let c4 = if c & 8 != 0 {
            c3 | 8
        } else {
            c3
        };
        c4 == c
    })) by (bit_vector);
}

/// Reading the castling field.
proof fn lemma_rights(s: Seq<u8>, i: int, castle: u8)
    requires
        castle < 16,
        at(s, i, fen::rights_text(castle)),
        i + fen::rights_text(castle).len() < s.len(),
        s[i + fen::rights_text(castle).len()] == 32,
    ensures
        fen::rights_scan(0, s, i) == castle,
        fen::gap(s, i) == i + fen::rights_text(castle).len(),
{
    let txt = fen::rights_text(castle);
    assert forall|x: int| i <= x < i + txt.len() implies #[trigger] s[x] != 32 by {
        assert(s[i + (x - i)] == txt[x - i]);
    }
    lemma_gap(s, i, i + txt.len());
    if castle == 0 {
        assert(s[i + 0] == txt[0]);
        reveal_with_fuel(fen::rights_scan, 3);
    } else {
        let (a, b, c, d) = (
            fen::right_text(castle, 1, 75),
            fen::right_text(castle, 2, 81),
            fen::right_text(castle, 4, 107),
            fen::right_text(castle, 8, 113),
        );
        let (j1, j2, j3) = (i + a.len(), i + a.len() + b.len(), i + a.len() + b.len() + c.len());
        assert(at(s, i, a)) by {
            assert forall|x: int| 0 <= x < a.len() implies s[i + x] == #[trigger] a[x] by {
                assert(txt[x] == a[x]);
            }
        }
        assert(at(s, j1, b)) by {
            assert forall|x: int| 0 <= x < b.len() implies s[j1 + x] == #[trigger] b[x] by {
                assert(txt[a.len() + x] == b[x]);
                assert(s[i + (a.len() + x)] == txt[a.len() + x]);
            }
        }
        assert(at(s, j2, c)) by {
            assert forall|x: int| 0 <= x < c.len() implies s[j2 + x] == #[trigger] c[x] by {
                assert(txt[a.len() + b.len() + x] == c[x]);
                assert(s[i + (a.len() + b.len() + x)] == txt[a.len() + b.len() + x]);
            }
        }
        assert(at(s, j3, d)) by {
            assert forall|x: int| 0 <= x < d.len() implies s[j3 + x] == #[trigger] d[x] by {
                assert(txt[a.len() + b.len() + c.len() + x] == d[x]);
                assert(s[i + (a.len() + b.len() + c.len() + x)] == txt[a.len() + b.len() + c.len()
                    + x]);
            }
        }
        let c1 = if castle & 1 != 0 {
            0u8 | 1
        } else {
            0u8
        };
        let c2 = if castle & 2 != 0 {
            c1 | 2
        } else {
            c1
        };
        let c3 = if castle & 4 != 0 {
            c2 | 4
        } else {
            c2
        };
        lemma_right(0, s, i, castle, 1, 75);
        lemma_right(c1, s, j1, castle, 2, 81);
        lemma_right(c2, s, j2, castle, 4, 107);
        lemma_right(c3, s, j3, castle, 8, 113);
        lemma_rights_sum(castle);
    }
}

/// The last two fields.
proof fn lemma_tail(d: Draft, cells: Seq<int>, stm: int, s: Seq<u8>, i: int, ep: int)
    requires
        board(cells),
        holds(d, cells),
        0 <= stm < 2,
        rules::ep_ok(ep, stm, cells),
        at(s, i, fen::ep_text(ep) + seq![32u8, 48u8, 32u8, 49u8]),
        s.len() == i + fen::ep_text(ep).len() + 4,
    ensures
        fen::ep_field(d, stm, s, i) == ep,
        fen::number(0, s, fen::past_spaces(s, fen::on(s, i, 2))) == 0,
{
    let e = fen::ep_text(ep);
    let txt = e + seq![32u8, 48u8, 32u8, 49u8];
    let n = e.len() as int;
    assert(s[i + 0] == txt[0]);
    assert(s[i + 1] == txt[1]);
    assert(s[i + n] == txt[n]);
    assert(s[i + (n + 1)] == txt[n + 1]);
    assert(s[i + (n + 2)] == txt[n + 2]);
    reveal_with_fuel(fen::past_spaces, 3);
    reveal_with_fuel(fen::number, 3);
    if ep != 64 {
        let f = choose|f: int|
            geom::is_sq(f) && #[trigger] cells[f] == stm * 6 && geom::pawn_sees(stm, f, ep);
        assert(fits(d, f, cells[f]));
        let b = geom::pawn_bb(1 - stm, ep) & (d.piece[0] & d.color[stm]);
        geom::lemma_sees_sym(f, ep, 0);
        geom::lemma_sees_sym(ep, f, 0);
        assert(bits::mem(d.piece[0], f));
        assert(bits::mem(b, f));
        bits::lemma_empty(b);
    }
}

/// Reading back a written position.
proof fn lemma_parse(cells: Seq<int>, stm: int, castle: u8, ep: int, q: Position)
    requires
        board(cells),
        0 <= stm < 2,
        castle < 16,
        rules::ep_ok(ep, stm, cells),
        fen::parsed(fen::text(cells, stm, castle, ep), q),
    ensures
        q.board_ok(),
        q.cells() == cells,
        q.stm == stm,
        q.castle == castle,
        q.ep == ep,
        q.halfmove == 0,
        q.keys_ok(),
{
    let s = fen::text(cells, stm, castle, ep);
    let b = fen::board_text(cells, 7);
    let side = seq![
        32u8,
        if stm == 0 {
            119u8
        } else {
            98
        },
        32u8,
    ];
    let rights = fen::rights_text(castle);
    let e = fen::ep_text(ep);
    let clocks = seq![32u8, 48u8, 32u8, 49u8];
    let n = b.len() as int;
    let m = rights.len() as int;
    assert(s == b + side + rights + seq![32u8] + e + clocks);
    assert(s.len() == n + 3 + m + 1 + e.len() + 4);
    let d0 = fen::blank();
    assert(holds(d0, read(cells, 7, 0))) by {
        let cs = read(cells, 7, 0);
        assert forall|x: int| geom::is_sq(x) implies fits(d0, x, #[trigger] cs[x]) by {
            assert(d0.piece.len() == 6);
            assert(forall|t: int| 0 <= t < 6 ==> #[trigger] d0.piece[t] == 0);
        }
        lemma_blank_key(zobrist::Cover::All, cs, 64);
        lemma_blank_key(zobrist::Cover::Pawns, cs, 64);
        lemma_blank_key(zobrist::Cover::Others, cs, 64);
    }
    assert forall|j: int| 0 <= j < n implies s[0 + j] == #[trigger] b[j] by {}
    assert(s[n] == 32 && s[n + 1] == side[1] && s[n + 2] == 32);
    let d = lemma_board(d0, s, 0, cells, 7);
    assert forall|x: int| 0 <= x < n implies #[trigger] s[x] != 32 by {
        assert(s[x] == b[x]);
    }
    lemma_gap(s, 0, n);
    let i2 = n + 3;
    assert forall|j: int| 0 <= j < m implies s[i2 + j] == #[trigger] rights[j] by {}
    assert(s[i2 + m] == 32);
    lemma_rights(s, i2, castle);
    let i3 = i2 + m + 1;
    let tail = e + clocks;
    assert forall|j: int| 0 <= j < tail.len() implies s[i3 + j] == #[trigger] tail[j] by {}
    lemma_tail(d, cells, stm, s, i3, ep);
    assert(fen::on(s, fen::gap(s, 0), 1) == n + 1);
    assert(fen::on(s, n + 1, 2) == i2);
    assert(fen::on(s, fen::gap(s, i2), 1) == i3);
    assert forall|x: int| geom::is_sq(x) implies pos::shows(q, x, #[trigger] cells[x]) by {
        assert(fits(d, x, cells[x]));
    }
    pos::lemma_shown(q, cells);
    let k = zobrist::board_key(zobrist::Cover::All, cells, 64);
    let x = rules::extra_key(castle as int, ep, stm);
    assert(k ^ x == x ^ k) by (bit_vector);
}

/// A text describes one position.
pub proof fn law_a_text_is_one_position(s: Seq<u8>, p: Position, q: Position)
    requires
        fen::parsed(s, p),
        fen::parsed(s, q),
        p.clean(),
        q.clean(),
    ensures
        p == q,
{
    assert(p.stack@ =~= q.stack@);
    assert(p.hist@ =~= q.hist@);
    make::lemma_equal(p, q);
}

/// What follows the board, with white to move and no en-passant square.
pub open spec fn plain_tail(castle: u8, clocks: Seq<u8>) -> Seq<u8> {
    seq![32u8, 119u8, 32u8] + fen::rights_text(castle) + seq![32u8, 45u8, 32u8] + clocks
}

/// Reading a position with any clocks, white to move and no en-passant square.
pub proof fn lemma_parse_plain(cells: Seq<int>, castle: u8, clocks: Seq<u8>, q: Position)
    requires
        board(cells),
        castle < 16,
        clocks.len() >= 2,
        48 <= clocks[0] <= 57,
        clocks[1] == 32,
        fen::parsed(fen::board_text(cells, 7) + plain_tail(castle, clocks), q),
    ensures
        q.board_ok(),
        q.cells() == cells,
        q.stm == 0,
        q.castle == castle,
        q.ep == 64,
        q.halfmove <= 9,
        q.keys_ok(),
{
    let b = fen::board_text(cells, 7);
    let t = plain_tail(castle, clocks);
    let s = b + t;
    let rights = fen::rights_text(castle);
    let n = b.len() as int;
    let m = rights.len() as int;
    assert(t.len() == 3 + m + 3 + clocks.len());
    let d0 = fen::blank();
    assert(holds(d0, read(cells, 7, 0))) by {
        let cs = read(cells, 7, 0);
        assert forall|x: int| geom::is_sq(x) implies fits(d0, x, #[trigger] cs[x]) by {
            assert(d0.piece.len() == 6);
            assert(forall|t: int| 0 <= t < 6 ==> #[trigger] d0.piece[t] == 0);
        }
        lemma_blank_key(zobrist::Cover::All, cs, 64);
        lemma_blank_key(zobrist::Cover::Pawns, cs, 64);
        lemma_blank_key(zobrist::Cover::Others, cs, 64);
    }
    assert forall|j: int| 0 <= j < n implies s[0 + j] == #[trigger] b[j] by {}
    assert(s[n] == t[0] && s[n + 1] == t[1] && s[n + 2] == t[2]);
    let d = lemma_board(d0, s, 0, cells, 7);
    assert forall|x: int| 0 <= x < n implies #[trigger] s[x] != 32 by {
        assert(s[x] == b[x]);
    }
    lemma_gap(s, 0, n);
    let i2 = n + 3;
    assert forall|j: int| 0 <= j < m implies s[i2 + j] == #[trigger] rights[j] by {
        assert(s[i2 + j] == t[3 + j]);
    }
    assert(s[i2 + m] == t[3 + m]);
    lemma_rights(s, i2, castle);
    let i3 = i2 + m + 1;
    assert(s[i3] == t[4 + m] && s[i3 + 1] == t[5 + m]);
    assert(s[i3 + 2] == t[6 + m] && s[i3 + 3] == t[7 + m]);
    assert(t[6 + m] == clocks[0] && t[7 + m] == clocks[1]);
    reveal_with_fuel(fen::past_spaces, 3);
    reveal_with_fuel(fen::number, 3);
    assert(fen::on(s, fen::gap(s, 0), 1) == n + 1);
    assert(fen::on(s, n + 1, 2) == i2);
    assert(fen::on(s, fen::gap(s, i2), 1) == i3);
    assert forall|x: int| geom::is_sq(x) implies pos::shows(q, x, #[trigger] cells[x]) by {
        assert(fits(d, x, cells[x]));
    }
    pos::lemma_shown(q, cells);
    let k = zobrist::board_key(zobrist::Cover::All, cells, 64);
    let x = rules::extra_key(castle as int, 64, 0);
    assert(k ^ x == x ^ k) by (bit_vector);
}

proof fn lemma_blank_key(k: zobrist::Cover, cs: Seq<int>, n: nat)
    requires
        n <= cs.len(),
        forall|s: int| 0 <= s < cs.len() ==> #[trigger] cs[s] == 12,
    ensures
        zobrist::board_key(k, cs, n) == 0,
    decreases n,
{
    if n > 0 {
        lemma_blank_key(k, cs, (n - 1) as nat);
        bits::lemma_xor(0, 0, 0);
    }
}

/// A position written as text and read back is the same position, keys and
/// checkers included; only the half-move clock starts again.
pub proof fn law_fen_round_trip(p: Position, q: Position)
    requires
        p.sound(),
        fen::parsed(fen::fen_text(p), q),
    ensures
        q.sound(),
        q.piece@ == p.piece@,
        q.color@ == p.color@,
        q.mailbox@ == p.mailbox@,
        q.stm == p.stm,
        q.castle == p.castle,
        q.ep == p.ep,
        q.key == p.key,
        q.pawn_key == p.pawn_key,
        q.np_key == p.np_key,
        q.checkers == p.checkers,
        q.halfmove == 0,
{
    let cells = p.cells();
    assert forall|s: int| geom::is_sq(s) implies (#[trigger] cells[s] == 12 || pos::is_piece(
        cells[s],
    )) by {
        pos::lemma_cells(p, s);
    }
    lemma_parse(cells, p.stm as int, p.castle, p.ep as int, q);
    rules::lemma_same_board(p, q);
}

// ---------------------------------------------------------------------------
// The start position
// ---------------------------------------------------------------------------

/// The pieces of one side's back rank, from file a.
pub open spec fn officer(f: int) -> int {
    if f == 0 || f == 7 {
        3
    } else if f == 1 || f == 6 {
        1
    } else if f == 2 || f == 5 {
        2
    } else if f == 3 {
        4
    } else {
        5
    }
}

/// The board at the start of a game.
pub open spec fn start_cells() -> Seq<int> {
    Seq::new(
        64,
        |s: int|
            if geom::rk(s) == 0 {
                officer(geom::fl(s))
            } else if geom::rk(s) == 1 {
                0
            } else if geom::rk(s) == 6 {
                6
            } else if geom::rk(s) == 7 {
                6 + officer(geom::fl(s))
            } else {
                12
            },
    )
}

/// The start position: all pieces at home, white to move with all rights.
pub open spec fn at_start(p: Position) -> bool {
    &&& p.cells() == start_cells()
    &&& p.stm == 0
    &&& p.castle == 15
    &&& p.ep == 64
    &&& p.halfmove == 0
    &&& p.ply == 0
    &&& p.root_ply == 0
    &&& p.hist_len == 1
    &&& p.hist@[0] == p.key
}

proof fn lemma_start_row(r: int)
    requires
        0 <= r < 8,
    ensures
        ({
            let t = fen::row_text(start_cells(), r, 0, 0);
            &&& 2 <= r < 6 ==> t == seq![56u8]
            &&& r == 1 ==> t == seq![80u8, 80u8, 80u8, 80u8, 80u8, 80u8, 80u8, 80u8]
            &&& r == 6 ==> t == seq![112u8, 112u8, 112u8, 112u8, 112u8, 112u8, 112u8, 112u8]
            &&& r == 0 ==> t == seq![82u8, 78u8, 66u8, 81u8, 75u8, 66u8, 78u8, 82u8]
            &&& r == 7 ==> t == seq![114u8, 110u8, 98u8, 113u8, 107u8, 98u8, 110u8, 114u8]
        }),
{
    let c = start_cells();
    reveal_with_fuel(fen::row_text, 9);
    assert(c[r * 8] == c[r * 8 + 0]);
    let t = fen::row_text(c, r, 0, 0);
    if 2 <= r < 6 {
        assert(t =~= seq![56u8]);
    } else if r == 1 {
        assert(t =~= seq![80u8, 80u8, 80u8, 80u8, 80u8, 80u8, 80u8, 80u8]);
    } else if r == 6 {
        assert(t =~= seq![112u8, 112u8, 112u8, 112u8, 112u8, 112u8, 112u8, 112u8]);
    } else if r == 0 {
        assert(t =~= seq![82u8, 78u8, 66u8, 81u8, 75u8, 66u8, 78u8, 82u8]);
    } else {
        assert(t =~= seq![114u8, 110u8, 98u8, 113u8, 107u8, 98u8, 110u8, 114u8]);
    }
}

proof fn lemma_start_text()
    ensures
        STARTPOS@ == fen::text(start_cells(), 0, 15, 64),
{
    let c = start_cells();
    reveal_with_fuel(fen::board_text, 8);
    lemma_start_row(0);
    lemma_start_row(1);
    lemma_start_row(2);
    lemma_start_row(3);
    lemma_start_row(4);
    lemma_start_row(5);
    lemma_start_row(6);
    lemma_start_row(7);
    assert(15u8 & 1 != 0 && 15u8 & 2 != 0 && 15u8 & 4 != 0 && 15u8 & 8 != 0) by (bit_vector);
    assert(STARTPOS@ =~= fen::text(c, 0, 15, 64));
}

/// The start position is a position of the game.
proof fn lemma_start_wf(p: Position)
    requires
        p.board_ok(),
        p.cells() == start_cells(),
        p.stm == 0,
        p.castle == 15,
        p.ep == 64,
        p.keys_ok(),
        p.checkers == p.checkers_bb(),
    ensures
        p.wf(),
{
    let c = p.cells();
    assert(pos::king_at(c, 0, 4)) by {
        assert forall|s: int| geom::is_sq(s) && #[trigger] c[s] == 5 implies s == 4 by {}
    }
    assert(pos::king_at(c, 1, 60)) by {
        assert forall|s: int| geom::is_sq(s) && #[trigger] c[s] == 11 implies s == 60 by {}
    }
    pos::lemma_king(p, 0, 4);
    pos::lemma_king(p, 1, 60);
    let occ = pos::occ_of(c);
    assert forall|s: int| geom::is_sq(s) && pos::owned(#[trigger] c[s], 0) implies !pos::hits(
        c[s],
        s,
        60,
        occ,
    ) by {}
}

impl Position {
    /// Set up the start of a game.
    pub fn set_startpos(&mut self, t: &Tables)
        ensures
            at_start(*final(self)),
            final(self).wf(),
            final(self).clean(),
    {
        self.set_fen(t, &STARTPOS);
        proof {
            lemma_start_text();
            lemma_parse(start_cells(), 0, 15, 64, *self);
            lemma_start_wf(*self);
        }
    }
}

} // verus!
