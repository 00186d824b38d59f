//! The rules of the game, move by move.

use vstd::prelude::*;
use crate::bits;
use crate::geom;
use crate::legal;
use crate::make;
use crate::movegen;
use crate::movegen::GenKind;
use crate::moves;
use crate::moves::Move;
use crate::perft;
use crate::pos;
use crate::pos::Position;
use crate::rules;

verus! {

broadcast use {crate::bits::group_mem, crate::geom::group_geom};

// ---------------------------------------------------------------------------
// Which moves there are
// ---------------------------------------------------------------------------

/// The king of the side to move stands on `k` once the board is `next`, and is
/// not attacked there.
pub open spec fn leaves_safe(p: Position, next: Seq<int>, k: int) -> bool {
    !pos::attacked(next, 1 - p.stm, k, pos::occ_of(next))
}

/// The board with the piece on `f` gone to `t`.
pub open spec fn shifted(cells: Seq<int>, f: int, t: int) -> Seq<int> {
    cells.update(t, cells[f]).update(f, 12)
}

/// The square `n` ranks ahead of `s`, as the side to move sees it.
pub open spec fn ahead(p: Position, s: int, n: int) -> int {
    if p.stm == 0 {
        s + 8 * n
    } else {
        s - 8 * n
    }
}

/// The rank of `s`, counted from the side to move.
pub open spec fn own_rank(p: Position, s: int) -> int {
    if p.stm == 0 {
        s / 8
    } else {
        7 - s / 8
    }
}

proof fn lemma_king_of(p: Position)
    requires
        p.sound(),
    ensures
        geom::is_sq(p.king(p.stm as int)),
        p.cells()[p.king(p.stm as int)] == p.stm * 6 + 5,
        forall|s: int|
            geom::is_sq(s) && #[trigger] p.cells()[s] == p.stm * 6 + 5 ==> s == p.king(
                p.stm as int,
            ),
{
}

/// An officer or a king may go to every square it attacks, unless a piece of its
/// own side stands there or its king would be left attacked.
pub proof fn law_pieces_go_where_they_attack(p: Position, f: int, t: int)
    requires
        p.wf(),
        geom::is_sq(f),
        geom::is_sq(t),
        pos::owned(p.cells()[f], p.stm as int),
        p.cells()[f] % 6 != 0,
        pos::hits(p.cells()[f], f, t, pos::occ_of(p.cells())),
        !pos::owned(p.cells()[t], p.stm as int),
        leaves_safe(
            p,
            shifted(p.cells(), f, t),
            if p.cells()[f] % 6 == 5 {
                t
            } else {
                p.king(p.stm as int)
            },
        ),
    ensures
        p.cells()[t] == 12 ==> rules::legal(p, moves::mv(f, t, 0)),
        p.cells()[t] != 12 ==> rules::legal(p, moves::mv(f, t, 4)),
{
    moves::law_move_round_trip(f, t, 0, Move(0));
    moves::law_move_round_trip(f, t, 4, Move(0));
    lemma_king_of(p);
    pos::lemma_cells(p, t);
    assert(f != t);
    let k = if p.cells()[t] == 12 {
        0int
    } else {
        4
    };
    let m = moves::mv(f, t, k);
    assert(rules::moved(p.cells(), p.stm as int, m) =~= shifted(p.cells(), f, t));
}

/// A pawn may go one square ahead if it is empty, and two from its first rank if
/// both are; it takes diagonally ahead. On the last rank it becomes a knight, a
/// bishop, a rook or a queen.
pub proof fn law_pawns_go_ahead_and_take_aside(p: Position, f: int, t: int, piece: int)
    requires
        p.wf(),
        geom::is_sq(f),
        geom::is_sq(t),
        p.cells()[f] == p.stm * 6,
        1 <= piece <= 4,
        leaves_safe(p, shifted(p.cells(), f, t), p.king(p.stm as int)),
        own_rank(p, t) == 7 ==> leaves_safe(
            p,
            shifted(p.cells(), f, t).update(t, p.stm * 6 + piece),
            p.king(p.stm as int),
        ),
    ensures
        t == ahead(p, f, 1) && p.cells()[t] == 12 && own_rank(p, t) < 7 ==> rules::legal(
            p,
            moves::mv(f, t, 0),
        ),
        t == ahead(p, f, 1) && p.cells()[t] == 12 && own_rank(p, t) == 7 ==> rules::legal(
            p,
            moves::mv(f, t, 7 + piece),
        ),
        t == ahead(p, f, 2) && own_rank(p, f) == 1 && p.cells()[t] == 12 && p.cells()[ahead(p, f, 1)]
            == 12 ==> rules::legal(p, moves::mv(f, t, 1)),
        geom::abs(f % 8 - t % 8) == 1 && own_rank(p, t) == own_rank(p, f) + 1 && pos::owned(
            p.cells()[t],
            1 - p.stm,
        ) && own_rank(p, t) < 7 ==> rules::legal(p, moves::mv(f, t, 4)),
        geom::abs(f % 8 - t % 8) == 1 && own_rank(p, t) == own_rank(p, f) + 1 && pos::owned(
            p.cells()[t],
            1 - p.stm,
        ) && own_rank(p, t) == 7 ==> rules::legal(p, moves::mv(f, t, 11 + piece)),
{
    moves::law_move_round_trip(f, t, 0, Move(0));
    moves::law_move_round_trip(f, t, 1, Move(0));
    moves::law_move_round_trip(f, t, 4, Move(0));
    moves::law_move_round_trip(f, t, 7 + piece, Move(0));
    moves::law_move_round_trip(f, t, 11 + piece, Move(0));
    lemma_king_of(p);
    let us = p.stm as int;
    if f != t {
        assert(rules::moved(p.cells(), us, moves::mv(f, t, 0)) =~= shifted(p.cells(), f, t));
        assert(rules::moved(p.cells(), us, moves::mv(f, t, 1)) =~= shifted(p.cells(), f, t));
        assert(rules::moved(p.cells(), us, moves::mv(f, t, 4)) =~= shifted(p.cells(), f, t));
        assert(rules::moved(p.cells(), us, moves::mv(f, t, 7 + piece)) =~= shifted(
            p.cells(),
            f,
            t,
        ).update(t, us * 6 + piece));
        assert(rules::moved(p.cells(), us, moves::mv(f, t, 11 + piece)) =~= shifted(
            p.cells(),
            f,
            t,
        ).update(t, us * 6 + piece));
    }
}

/// A pawn takes en passant on the square that a pawn beside it just skipped.
pub proof fn law_pawns_take_in_passing(p: Position, f: int)
    requires
        p.wf(),
        geom::is_sq(f),
        p.ep < 64,
        p.cells()[f] == p.stm * 6,
        geom::abs(f % 8 - p.ep % 8) == 1,
        own_rank(p, f) == 4,
        leaves_safe(
            p,
            shifted(p.cells(), f, p.ep as int).update(ahead(p, p.ep as int, -1), 12),
            p.king(p.stm as int),
        ),
    ensures
        rules::legal(p, moves::mv(f, p.ep as int, 5)),
{
    let t = p.ep as int;
    moves::law_move_round_trip(f, t, 5, Move(0));
    lemma_king_of(p);
    assert(rules::moved(p.cells(), p.stm as int, moves::mv(f, t, 5)) =~= shifted(
        p.cells(),
        f,
        t,
    ).update(ahead(p, t, -1), 12));
}

/// A king that has not moved may castle with a rook that has not moved, over
/// empty squares, if it neither stands in check nor passes nor reaches an
/// attacked square; and only then.
pub proof fn law_kings_castle_out_of_danger(p: Position, long: bool)
    requires
        p.wf(),
    ensures
        ({
            let e = if p.stm == 0 {
                4int
            } else {
                60
            };
            let right: u8 = if p.stm == 0 {
                if long {
                    2
                } else {
                    1
                }
            } else if long {
                8
            } else {
                4
            };
            let cells = p.cells();
            let occ = pos::occ_of(cells);
            let them = 1 - p.stm;
            let calm = |s: int| !pos::attacked(cells, them, s, occ);
            let m = if long {
                moves::mv(e, e - 2, 3)
            } else {
                moves::mv(e, e + 2, 2)
            };
            let open = p.castle & right != 0 && calm(e) && if long {
                cells[e - 1] == 12 && cells[e - 2] == 12 && cells[e - 3] == 12 && calm(e - 1)
                    && calm(e - 2)
            } else {
                cells[e + 1] == 12 && cells[e + 2] == 12 && calm(e + 1) && calm(e + 2)
            };
            let next = if long {
                cells.update(e, 12).update(e - 2, p.stm * 6 + 5).update(e - 4, 12).update(
                    e - 1,
                    p.stm * 6 + 3,
                )
            } else {
                cells.update(e, 12).update(e + 2, p.stm * 6 + 5).update(e + 3, 12).update(
                    e + 1,
                    p.stm * 6 + 3,
                )
            };
            &&& rules::legal(p, m) ==> open
            &&& open && leaves_safe(
                p,
                next,
                if long {
                    e - 2
                } else {
                    e + 2
                },
            ) ==> rules::legal(p, m)
        }),
{
    let e = if p.stm == 0 {
        4int
    } else {
        60
    };
    moves::law_move_round_trip(e, e - 2, 3, Move(0));
    moves::law_move_round_trip(e, e + 2, 2, Move(0));
    let (cells, us) = (p.cells(), p.stm as int);
    lemma_king_of(p);
    assert(rules::rights_ok(p.castle, cells));
    assert(cells[e] == us * 6 + 5 ==> p.king(us) == e);
    assert(cells[e] == us * 6 + 5 ==> rules::moved(cells, us, moves::mv(e, e - 2, 3))
        =~= cells.update(e, 12).update(e - 2, us * 6 + 5).update(e - 4, 12).update(
        e - 1,
        us * 6 + 3,
    ));
    assert(cells[e] == us * 6 + 5 ==> rules::moved(cells, us, moves::mv(e, e + 2, 2))
        =~= cells.update(e, 12).update(e + 2, us * 6 + 5).update(e + 3, 12).update(
        e + 1,
        us * 6 + 3,
    ));
}

/// What a legal move is: a piece of the side to move goes to a square without
/// one of its own. Officers and kings, but for castling, go where they attack;
/// pawns go straight ahead to empty squares and aside only to take; and they
/// turn into something else on the last rank, and nowhere else.
pub proof fn law_legal_moves_obey_the_rules(p: Position, m: Move)
    requires
        p.wf(),
        rules::legal(p, m),
    ensures
        ({
            let (cells, f, t, k) = (p.cells(), m.f(), m.t(), m.k());
            let pawn = cells[f] == p.stm * 6;
            let takes = cells[t] != 12;
            &&& pos::owned(cells[f], p.stm as int)
            &&& !pos::owned(cells[t], p.stm as int)
            &&& cells[t] != (1 - p.stm) * 6 + 5
            &&& !pawn && k != 2 && k != 3 ==> pos::hits(cells[f], f, t, pos::occ_of(cells))
            &&& pawn && !takes && k != 5 ==> t == ahead(p, f, 1) || t == ahead(p, f, 2) && own_rank(
                p,
                f,
            ) == 1 && cells[ahead(p, f, 1)] == 12
            &&& pawn && (takes || k == 5) ==> geom::abs(f % 8 - t % 8) == 1 && own_rank(p, t)
                == own_rank(p, f) + 1
            &&& k == 5 ==> pawn && t == p.ep
            &&& (k >= 8) == (pawn && own_rank(p, t) == 7)
            &&& (k / 4) % 2 == 1 <==> takes || k == 5
        }),
{
    legal::law_legal_is_playable(p, m);
    pos::lemma_cells(p, m.f());
    pos::lemma_cells(p, m.t());
    if m.k() == 5 {
        assert(rules::ep_ok(p.ep as int, p.stm as int, p.cells()));
    }
}

// ---------------------------------------------------------------------------
// What a move does
// ---------------------------------------------------------------------------

/// A square that `m` touches besides the two it names: the pawn taken in
/// passing, or the rook's two squares in castling.
pub open spec fn aside(p: Position, m: Move, s: int) -> bool {
    ||| m.k() == 5 && s == ahead(p, m.t(), -1)
    ||| m.k() == 2 && (s == m.f() + 1 || s == m.f() + 3)
    ||| m.k() == 3 && (s == m.f() - 1 || s == m.f() - 4)
}

/// A move takes its piece from one square to the other and leaves the rest of
/// the board as it was. A pawn on the last rank becomes the piece chosen; the
/// pawn taken in passing goes; and the castling rook jumps over its king. The
/// turn passes.
pub proof fn law_a_move_moves_its_piece(p: Position, m: Move, q: Position, s: int)
    requires
        p.wf(),
        rules::legal(p, m),
        make::made(p, m, q),
        geom::is_sq(s),
    ensures
        q.stm == 1 - p.stm,
        q.cells()[m.f()] == 12,
        q.cells()[m.t()] == if m.k() >= 8 {
            p.stm * 6 + m.k() % 4 + 1
        } else {
            p.cells()[m.f()]
        },
        s != m.f() && s != m.t() && !aside(p, m, s) ==> q.cells()[s] == p.cells()[s],
        m.k() == 5 ==> q.cells()[ahead(p, m.t(), -1)] == 12 && p.cells()[ahead(p, m.t(), -1)] == (1
            - p.stm) * 6,
        m.k() == 2 ==> p.cells()[m.f() + 3] == p.stm * 6 + 3 && q.cells()[m.f() + 3] == 12
            && q.cells()[m.f() + 1] == p.stm * 6 + 3 && m.t() == m.f() + 2,
        m.k() == 3 ==> p.cells()[m.f() - 4] == p.stm * 6 + 3 && q.cells()[m.f() - 4] == 12
            && q.cells()[m.f() - 1] == p.stm * 6 + 3 && m.t() == m.f() - 2,
{
    legal::law_legal_is_playable(p, m);
}

/// The clock of the fifty-move rule starts anew with every pawn move and every
/// capture, and counts every other move.
pub proof fn law_pawns_and_captures_reset_the_clock(p: Position, m: Move, q: Position)
    requires
        p.wf(),
        rules::legal(p, m),
        make::made(p, m, q),
        p.halfmove < 60_000,
    ensures
        p.cells()[m.f()] == p.stm * 6 || p.cells()[m.t()] != 12 ==> q.halfmove == 0,
        p.cells()[m.f()] != p.stm * 6 && p.cells()[m.t()] == 12 ==> q.halfmove == p.halfmove + 1,
{
    law_legal_moves_obey_the_rules(p, m);
}

/// Only a pawn that goes two squares can be taken in passing, on the square it
/// skipped, and only if a pawn of the other side stands ready to.
pub proof fn law_only_a_double_step_can_be_taken_in_passing(p: Position, m: Move, q: Position)
    requires
        p.wf(),
        rules::legal(p, m),
        make::made(p, m, q),
    ensures
        q.ep == 64 || q.ep == ahead(p, m.f(), 1) && m.t() == ahead(p, m.f(), 2),
        q.ep != 64 <==> p.cells()[m.f()] == p.stm * 6 && m.t() == ahead(p, m.f(), 2) && exists|s: int|
            #![trigger p.cells()[s]]
            geom::is_sq(s) && p.cells()[s] == (1 - p.stm) * 6 && geom::abs(s % 8 - m.t() % 8) == 1
                && s / 8 == m.t() / 8,
{
    law_legal_moves_obey_the_rules(p, m);
    let us = p.stm as int;
    let e = rules::back(us, m.t());
    let b = geom::pawn_bb(us, e) & p.of(1 - us, 0);
    bits::lemma_empty(b);
    if m.k() == 1 {
        if b != 0 {
            bits::lemma_low(b);
            let s = bits::low(b);
            pos::lemma_cells(p, s);
            assert(bits::mem(b, s));
            assert(p.cells()[s] == (1 - us) * 6);
        }
        if exists|s: int|
            #![trigger p.cells()[s]]
            geom::is_sq(s) && p.cells()[s] == (1 - us) * 6 && geom::abs(s % 8 - m.t() % 8) == 1
                && s / 8 == m.t() / 8 {
            let s = choose|s: int|
                #![trigger p.cells()[s]]
                geom::is_sq(s) && p.cells()[s] == (1 - us) * 6 && geom::abs(s % 8 - m.t() % 8) == 1
                    && s / 8 == m.t() / 8;
            pos::lemma_cells(p, s);
            assert(geom::pawn_sees(us, e, s));
            assert(bits::mem(b, s));
        }
    }
}

proof fn lemma_rights(c: u8, a: u8, b: u8, x: u8)
    requires
        x == 1 || x == 2 || x == 4 || x == 8,
    ensures
        (c & a & b) & x != 0 <==> c & x != 0 && a & x != 0 && b & x != 0,
{
    assert((c & a & b) & x != 0 <==> c & x != 0 && a & x != 0 && b & x != 0) by (bit_vector)
        requires
            x == 1 || x == 2 || x == 4 || x == 8,
    ;
}

proof fn lemma_masks(s: int)
    ensures
        rules::rights_mask(s) & 1 != 0 <==> s != 4 && s != 7,
        rules::rights_mask(s) & 2 != 0 <==> s != 4 && s != 0,
        rules::rights_mask(s) & 4 != 0 <==> s != 60 && s != 63,
        rules::rights_mask(s) & 8 != 0 <==> s != 60 && s != 56,
{
    assert(13u8 & 1 != 0 && 13u8 & 2 == 0 && 13u8 & 4 != 0 && 13u8 & 8 != 0 && 12u8 & 1 == 0 && 12u8
        & 2 == 0 && 12u8 & 4 != 0 && 12u8 & 8 != 0 && 14u8 & 1 == 0 && 14u8 & 2 != 0 && 14u8 & 4
        != 0 && 14u8 & 8 != 0 && 7u8 & 1 != 0 && 7u8 & 2 != 0 && 7u8 & 4 != 0 && 7u8 & 8 == 0 && 3u8
        & 1 != 0 && 3u8 & 2 != 0 && 3u8 & 4 == 0 && 3u8 & 8 == 0 && 11u8 & 1 != 0 && 11u8 & 2 != 0
        && 11u8 & 4 == 0 && 11u8 & 8 != 0 && 15u8 & 1 != 0 && 15u8 & 2 != 0 && 15u8 & 4 != 0 && 15u8
        & 8 != 0) by (bit_vector);
}

/// A right to castle is kept until its king or its rook moves or its rook is
/// taken, and never comes back.
pub proof fn law_castling_rights_are_lost_for_good(p: Position, m: Move, q: Position)
    requires
        make::made(p, m, q),
    ensures
        ({
            let stays = |s: int| m.f() != s && m.t() != s;
            &&& q.castle & 1 != 0 <==> p.castle & 1 != 0 && stays(4) && stays(7)
            &&& q.castle & 2 != 0 <==> p.castle & 2 != 0 && stays(4) && stays(0)
            &&& q.castle & 4 != 0 <==> p.castle & 4 != 0 && stays(60) && stays(63)
            &&& q.castle & 8 != 0 <==> p.castle & 8 != 0 && stays(60) && stays(56)
        }),
{
    let (a, b) = (rules::rights_mask(m.f()), rules::rights_mask(m.t()));
    lemma_masks(m.f());
    lemma_masks(m.t());
    lemma_rights(p.castle, a, b, 1);
    lemma_rights(p.castle, a, b, 2);
    lemma_rights(p.castle, a, b, 4);
    lemma_rights(p.castle, a, b, 8);
}

// ---------------------------------------------------------------------------
// Counting
// ---------------------------------------------------------------------------

/// The lines of `depth` moves that begin with the `i`-th move or a later one.
pub open spec fn lines_from(p: Position, depth: int, i: int) -> int
    decreases movegen::move_list(p, GenKind::All).len() - i,
{
    let l = movegen::move_list(p, GenKind::All);
    if i < 0 || i >= l.len() {
        0
    } else {
        perft::leaves(make::after(p, l[i]), depth - 1) + lines_from(p, depth, i + 1)
    }
}

proof fn lemma_lines(p: Position, depth: int, n: nat)
    requires
        depth >= 2,
        n <= movegen::move_list(p, GenKind::All).len(),
    ensures
        perft::leaves_of(p, depth, n) + lines_from(p, depth, n as int) == lines_from(p, depth, 0),
    decreases n,
{
    if n > 0 {
        lemma_lines(p, depth, (n - 1) as nat);
    }
}

/// The lines of one move are the legal moves; those of more are the lines that
/// follow each of them.
pub proof fn law_lines_are_counted_move_by_move(p: Position, depth: int)
    ensures
        perft::leaves(p, 1) == movegen::move_list(p, GenKind::All).len(),
        depth >= 2 ==> perft::leaves(p, depth) == lines_from(p, depth, 0),
{
    if depth >= 2 {
        lemma_lines(p, depth, movegen::move_list(p, GenKind::All).len());
    }
}

// ---------------------------------------------------------------------------
// Draws
// ---------------------------------------------------------------------------

/// A position is drawn after fifty moves without a pawn move or a capture; or
/// when it occurred before, an even number of plies ago and since the last such
/// move: once within the search, or twice before it.
pub proof fn law_what_is_drawn(p: Position, ply: int, i: int, j: int)
    ensures
        ({
            let past = |n: int|
                n >= 4 && n % 2 == 0 && n <= p.halfmove && n <= p.hist_len - 1 && p.hist@[p.hist_len
                    - 1 - n] == p.key;
            &&& p.halfmove >= 100 ==> p.drawn(ply)
            &&& past(i) && i < ply ==> p.drawn(ply)
            &&& past(i) && past(j) && i != j ==> p.drawn(ply)
            &&& p.halfmove < 4 ==> !p.drawn(ply)
            &&& p.halfmove < 100 && (forall|n: int| !#[trigger] past(n)) ==> !p.drawn(ply)
            &&& p.halfmove < 100 && ply <= i && past(i) && (forall|n: int| #[trigger]
                past(n) ==> n == i) ==> !p.drawn(ply)
        }),
{
    let past = |n: int|
        n >= 4 && n % 2 == 0 && n <= p.halfmove && n <= p.hist_len - 1 && p.hist@[p.hist_len - 1
            - n] == p.key;
    assert forall|n: int| #[trigger] past(n) == p.repeats(n) by {}
    assert(past(i) == p.repeats(i) && past(j) == p.repeats(j));
    if p.drawn(ply) && p.halfmove < 100 {
        if exists|n: int| #[trigger] p.repeats(n) && n < ply {
            let n = choose|n: int| #[trigger] p.repeats(n) && n < ply;
            assert(past(n));
        } else {
            let (a, b) = choose|a: int, b: int| #[trigger]
                p.repeats(a) && #[trigger] p.repeats(b) && a < b;
            assert(past(a) && past(b));
        }
    }
}

/// Nobody can win with a king alone, or with a single knight or bishop: a board
/// is bare exactly when it holds nothing else and no two of these.
pub proof fn law_what_is_bare(p: Position)
    requires
        p.board_ok(),
    ensures
        p.bare() <==> {
            &&& forall|s: int|
                geom::is_sq(s) && #[trigger] p.cells()[s] != 12 ==> p.cells()[s] % 6 == 1
                    || p.cells()[s] % 6 == 2 || p.cells()[s] % 6 == 5
            &&& forall|s: int, t: int|
                geom::is_sq(s) && geom::is_sq(t) && s != t && #[trigger] p.cells()[s] != 12
                    && #[trigger] p.cells()[t] != 12 ==> p.cells()[s] % 6 == 5 || p.cells()[t] % 6
                    == 5
        },
{
    let a = p.piece@[0] | p.piece@[3] | p.piece@[4];
    let b = p.piece@[1] | p.piece@[2];
    bits::lemma_empty(a);
    bits::lemma_card_one(b);
    let single = forall|s: int, t: int|
        geom::is_sq(s) && geom::is_sq(t) && s != t && #[trigger] p.cells()[s] != 12 && #[trigger]
            p.cells()[t] != 12 ==> p.cells()[s] % 6 == 5 || p.cells()[t] % 6 == 5;
    if a == 0 {
        assert forall|s: int| geom::is_sq(s) && #[trigger] p.cells()[s] != 12 implies p.cells()[s]
            % 6 == 1 || p.cells()[s] % 6 == 2 || p.cells()[s] % 6 == 5 by {
            pos::lemma_cells(p, s);
            assert(!bits::mem(a, s));
        }
        if bits::card(b) <= 1 {
            assert forall|s: int, t: int|
                geom::is_sq(s) && geom::is_sq(t) && s != t && #[trigger] p.cells()[s] != 12
                    && #[trigger] p.cells()[t] != 12 implies p.cells()[s] % 6 == 5 || p.cells()[t]
                % 6 == 5 by {
                pos::lemma_cells(p, s);
                pos::lemma_cells(p, t);
                if p.cells()[s] % 6 != 5 && p.cells()[t] % 6 != 5 {
                    assert(bits::mem(b, s) && bits::mem(b, t));
                }
            }
        }
        if single && bits::card(b) > 1 {
            let (s, t) = choose|s: int, t: int| #[trigger]
                bits::mem(b, s) && #[trigger] bits::mem(b, t) && s != t;
            pos::lemma_cells(p, s);
            pos::lemma_cells(p, t);
            assert(p.cells()[s] != 12 && p.cells()[t] != 12);
        }
    } else {
        bits::lemma_low(a);
        let s = bits::low(a);
        assert(bits::mem(a, s));
        pos::lemma_cells(p, s);
        assert(p.cells()[s] != 12);
    }
}

} // verus!
