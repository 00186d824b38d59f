//! Setting up positions: naming moves and playing them from text.

use vstd::prelude::*;
use vstd::string::*;
use crate::fen;
use crate::fenlaw;
use crate::geom;
use crate::io;
use crate::io::move_str;
use crate::legal;
use crate::make;
use crate::movegen;
use crate::movegen::{generate, GenKind, MoveList};
use crate::moves::Move;
use crate::orders;
use crate::orders::parse_fen;
use crate::perft;
use crate::pos;
use crate::pos::Position;
use crate::rules;
use crate::tables::Tables;
use crate::text::{same, Tokens};

verus! {

/// The first of `l` from `i` on whose text is `w`; no move if there is none.
pub open spec fn named_in(l: Seq<Move>, w: Seq<u8>, i: int) -> Move
    decreases l.len() - i,
{
    if i < 0 || i >= l.len() {
        Move(0)
    } else if io::move_text(l[i]) == w {
        l[i]
    } else {
        named_in(l, w, i + 1)
    }
}

/// The move that a text names in a position.
pub open spec fn named(p: Position, w: Seq<u8>) -> Move {
    named_in(movegen::move_list(p, GenKind::All), w, 0)
}

/// Match a move text against the legal moves; this is how promotion suffixes
/// and castling get resolved without a second parser.
pub fn find_move(pos: &Position, t: &Tables, w: &[u8]) -> (m: Move)
    requires
        pos.wf(),
    ensures
        m == named(*pos, w@),
        m != Move(0) ==> rules::legal(*pos, m) && io::move_text(m) == w@,
{
    let mut list = MoveList::new();
    generate(pos, t, &mut list, GenKind::All);
    let mut i: usize = 0;
    while i < list.n
        invariant
            pos.wf(),
            list.wf(),
            list@ == movegen::move_list(*pos, GenKind::All),
            i <= list.n,
            named(*pos, w@) == named_in(list@, w@, i as int),
        decreases list.n - i,
    {
        let m = list.mv[i];
        let mut buf: [u8; 6] = [0;6];
        let n = move_str(m, &mut buf);
        let text = vstd::slice::slice_subrange(buf.as_slice(), 0, n);
        assert(text@ =~= io::move_text(m));
        if same(text, w) {
            proof {
                assert(list@.contains(m));
                legal::law_generated_is_legal(*pos, m);
            }
            return m;
        }
        i = i + 1;
    }
    Move::null()
}

/// What the squares of a move say about its kind.
proof fn lemma_kind(p: Position, m: Move)
    requires
        p.wf(),
        rules::legal(p, m),
    ensures
        ({
            let us = p.stm as int;
            let (cells, f, t) = (p.cells(), m.f(), m.t());
            let k = m.k();
            &&& (k == 2) == (cells[f] == us * 6 + 5 && t == f + 2)
            &&& (k == 3) == (cells[f] == us * 6 + 5 && t == f - 2)
            &&& (k == 4 || k >= 12) == (cells[t] != 12)
            &&& (k == 5) == (cells[f] == us * 6 && cells[t] == 12 && geom::fl(f) != geom::fl(t))
            &&& (k == 1) == (cells[f] == us * 6 && geom::abs(geom::rk(f) - geom::rk(t)) == 2)
            &&& k < 6 || 8 <= k < 16
        }),
{
    let us = p.stm as int;
    let (cells, f, t) = (p.cells(), m.f(), m.t());
    let k = m.k();
    if k == 2 || k == 3 {
        assert(cells[f] == us * 6 + 5);
    } else if cells[f] == us * 6 + 5 {
        assert(geom::king_sees(f, t));
        assert(t != f + 2 && t != f - 2);
    } else if cells[f] == us * 6 {
        assert(k != 2 && k != 3);
        if k == 0 || k == 1 || 8 <= k < 12 {
            assert(geom::fl(f) == geom::fl(t));
        } else {
            assert(geom::pawn_sees(us, f, t));
        }
    }
}

/// Squares and promotion are enough to tell legal moves apart.
proof fn lemma_one_move(p: Position, a: Move, b: Move)
    requires
        p.wf(),
        rules::legal(p, a),
        rules::legal(p, b),
        a.f() == b.f(),
        a.t() == b.t(),
        a.pro() == b.pro(),
        a.pro() ==> a.promo_spec() == b.promo_spec(),
    ensures
        a == b,
{
    lemma_kind(p, a);
    lemma_kind(p, b);
    lemma_parts(a, b);
}

/// A move is its squares and its kind.
proof fn lemma_parts(a: Move, b: Move)
    requires
        a.f() == b.f(),
        a.t() == b.t(),
        a.k() == b.k(),
    ensures
        a == b,
{
    assert(a.0 == a.f() + a.t() * 64 + a.k() * 4096);
    assert(b.0 == b.f() + b.t() * 64 + b.k() * 4096);
}

/// The text of a legal move names that move.
pub proof fn law_text_names_the_move(p: Position, m: Move)
    requires
        p.wf(),
        rules::legal(p, m),
        m.is_ep_spec() ==> crate::bits::card(p.checkers) <= 1,
    ensures
        named(p, io::move_text(m)) == m,
{
    let l = movegen::move_list(p, GenKind::All);
    legal::law_legal_is_generated(p, m);
    let i = choose|i: int| 0 <= i < l.len() && l[i] == m;
    lemma_named(p, m, i, 0);
}

proof fn lemma_named(p: Position, m: Move, i: int, j: int)
    requires
        p.wf(),
        rules::legal(p, m),
        0 <= j <= i < movegen::move_list(p, GenKind::All).len(),
        movegen::move_list(p, GenKind::All)[i] == m,
    ensures
        named_in(movegen::move_list(p, GenKind::All), io::move_text(m), j) == m,
    decreases i - j,
{
    let l = movegen::move_list(p, GenKind::All);
    if io::move_text(l[j]) == io::move_text(m) {
        assert(l.contains(l[j]));
        legal::law_generated_is_legal(p, l[j]);
        io::law_move_text_is_faithful(l[j], m);
        lemma_one_move(p, l[j], m);
    } else {
        lemma_named(p, m, i, j + 1);
    }
}

// ---------------------------------------------------------------------------
// Playing moves from text
// ---------------------------------------------------------------------------

/// A move can be made and kept.
pub open spec fn can_go_on(p: Position) -> bool {
    p.wf() && p.hist_len < 4096
}

/// The position after the moves that `ws` names, up to the first word that
/// names none.
pub open spec fn played(p: Position, ws: Seq<Seq<u8>>) -> Position
    decreases ws.len(),
{
    if ws.len() == 0 || named(p, ws[0]) == Move(0) {
        p
    } else {
        played(perft::settled(make::after(p, named(p, ws[0]))), ws.skip(1))
    }
}

/// Playing `ws` meets a position in which no move can be looked for.
pub open spec fn stuck(p: Position, ws: Seq<Seq<u8>>) -> bool
    decreases ws.len(),
{
    ws.len() > 0 && (!can_go_on(p) || (named(p, ws[0]) != Move(0) && stuck(
        perft::settled(make::after(p, named(p, ws[0]))),
        ws.skip(1),
    )))
}

/// Play the moves that the remaining words name. False if a position was met in
/// which no move can be looked for.
pub fn play_words(pos: &mut Position, t: &Tables, tok: &mut Tokens) -> (ok: bool)
    requires
        old(tok).wf(),
        old(pos).clean(),
        old(pos).ply == 0,
        old(pos).hist_len <= 4096,
    ensures
        final(pos).clean(),
        final(pos).ply == 0,
        final(pos).hist_len <= 4096,
        ok == !stuck(*old(pos), old(tok)@),
        ok ==> *final(pos) == played(*old(pos), old(tok)@),
{
    let ghost goal = played(*pos, tok@);
    let ghost bad = stuck(*pos, tok@);
    loop
        invariant
            tok.wf(),
            pos.clean(),
            pos.ply == 0,
            pos.hist_len <= 4096,
            goal == played(*pos, tok@),
            bad == stuck(*pos, tok@),
            goal == played(*old(pos), old(tok)@),
            bad == stuck(*old(pos), old(tok)@),
        decreases tok@.len(),
    {
        let w = match tok.next() {
            Some(w) => w,
            None => {
                return true;
            },
        };
        if pos.hist_len >= 4096 || !pos.is_wf(t) {
            return false;
        }
        let m = find_move(pos, t, w);
        if m.is_null() {
            return true;
        }
        let ghost p = *pos;
        proof {
            legal::law_legal_is_playable(p, m);
        }
        pos.make(t, m);
        let ghost q = *pos;
        proof {
            make::law_make_is_deterministic(p, m, q, make::after(p, m));
        }
        pos.settle();
        proof {
            perft::lemma_settled(q, *pos);
        }
    }
}

/// The position that the words of a `position` command start from, and the
/// words that follow. An unknown start leaves the position as it was.
pub open spec fn base(p: Position, ws: Seq<Seq<u8>>, q: Position, rest: Seq<Seq<u8>>) -> bool {
    if ws.len() > 0 && ws[0] == "startpos".spec_bytes() {
        &&& fenlaw::at_start(q) && q.wf() && q.clean()
        &&& rest == if ws.len() > 1 {
            ws.skip(2)
        } else {
            ws.skip(1)
        }
    } else if ws.len() > 0 && ws[0] == "fen".spec_bytes() {
        let (text, after) = orders::fen_fields(Seq::empty(), 6, ws.skip(1));
        &&& fen::parsed(text, q) && q.clean()
        &&& rest == if after.len() > 0 && after[0] == "moves".spec_bytes() {
            after.skip(1)
        } else {
            after
        }
    } else {
        q == p && rest == if ws.len() > 0 {
            ws.skip(1)
        } else {
            ws
        }
    }
}

/// `q` is the position after a `position` command with the words `ws`.
pub open spec fn placed(p: Position, ws: Seq<Seq<u8>>, q: Position) -> bool {
    exists|b: Position, rest: Seq<Seq<u8>>| #[trigger]
        base(p, ws, b, rest) && !stuck(b, rest) && q == (Position {
            root_ply: played(b, rest).hist_len,
            ..played(b, rest)
        })
}

/// Set up the position that the words of a `position` command describe. False
/// if a move was asked for in a position in which none can be looked for.
pub fn place(pos: &mut Position, t: &Tables, tok: &mut Tokens) -> (ok: bool)
    requires
        old(tok).wf(),
        old(pos).clean(),
        old(pos).ply == 0,
        old(pos).hist_len <= 4096,
    ensures
        final(pos).clean(),
        final(pos).ply == 0,
        final(pos).hist_len <= 4096,
        ok ==> placed(*old(pos), old(tok)@, *final(pos)),
        !ok ==> exists|b: Position, rest: Seq<Seq<u8>>| #[trigger]
            base(*old(pos), old(tok)@, b, rest) && stuck(b, rest),
{
    let ghost ws = tok@;
    match tok.next() {
        Some(w) => {
            proof {
                assert(ws.len() > 1 ==> ws.skip(1).skip(1) =~= ws.skip(2));
            }
            if same(w, "startpos".as_bytes()) {
                pos.set_startpos(t);
                let skipped = tok.next();
                proof {
                    assert(ws.len() == 1 ==> tok@ =~= ws.skip(1));
                }
            } else if same(w, "fen".as_bytes()) {
                let text = parse_fen(tok);
                pos.set_fen(t, text.as_slice());
                let save = tok.i;
                let ghost after = tok@;
                let mut undo = true;
                if let Some(x) = tok.next() {
                    if same(x, "moves".as_bytes()) {
                        undo = false;
                    }
                }
                if undo {
                    tok.i = save;
                }
            }
        },
        None => {
            proof {
                assert(tok@ =~= ws);
            }
        },
    }
    let ghost (b, rest) = (*pos, tok@);
    assert(base(*old(pos), ws, b, rest));
    let ok = play_words(pos, t, tok);
    pos.root_ply = pos.hist_len;
    ok
}

} // verus!
