//! What is written can be read back, and means what it says.

use vstd::prelude::*;
use vstd::string::*;
use crate::bits;
use crate::board;
use crate::datagen;
use crate::datagen::{Generator, Note, Ply};
use crate::fen;
use crate::geom;
use crate::io;
use crate::legal;
use crate::make;
use crate::mind::{Searcher, World};
use crate::movegen;
use crate::movegen::GenKind;
use crate::movelaw;
use crate::moves;
use crate::moves::Move;
use crate::net;
use crate::perft;
use crate::place;
use crate::pos;
use crate::pos::Position;
use crate::rules;
use crate::think;
use crate::uci;

verus! {

// ---------------------------------------------------------------------------
// Numbers
// ---------------------------------------------------------------------------

/// The number that a text of decimal digits stands for.
pub open spec fn numeral(s: Seq<u8>) -> int
    decreases s.len(),
{
    if s.len() == 0 {
        0
    } else {
        numeral(s.drop_last()) * 10 + (s.last() - 48)
    }
}

/// The number that a text of digits stands for, with or without a sign.
pub open spec fn signed_numeral(s: Seq<u8>) -> int {
    if s.len() > 0 && s[0] == 45 {
        -numeral(s.skip(1))
    } else {
        numeral(s)
    }
}

/// Nothing but digits, and at least one.
pub open spec fn is_numeral(s: Seq<u8>) -> bool {
    s.len() > 0 && forall|i: int| 0 <= i < s.len() ==> 48 <= #[trigger] s[i] <= 57
}

/// A number is written in digits and reads back as itself.
pub proof fn law_numbers_are_numerals(v: nat)
    ensures
        is_numeral(io::digits(v)),
        numeral(io::digits(v)) == v,
    decreases v,
{
    let d = io::digits(v);
    reveal_with_fuel(numeral, 2);
    if v < 10 {
        assert(d.drop_last() =~= Seq::<u8>::empty());
    } else {
        law_numbers_are_numerals(v / 10);
        assert(d.drop_last() =~= io::digits(v / 10));
    }
}

/// A signed number reads back as itself, and has a minus sign exactly when it is
/// negative.
pub proof fn law_signed_numbers_are_numerals(v: int)
    ensures
        signed_numeral(io::signed_digits(v)) == v,
        io::signed_digits(v).len() > 0,
        io::signed_digits(v)[0] == 45 <==> v < 0,
{
    let s = io::signed_digits(v);
    if v < 0 {
        law_numbers_are_numerals((-v) as nat);
        assert(s.skip(1) =~= io::digits((-v) as nat));
    } else {
        law_numbers_are_numerals(v as nat);
    }
}

// ---------------------------------------------------------------------------
// Scores
// ---------------------------------------------------------------------------

/// The number in the report of a score.
pub open spec fn reported(score: int) -> int {
    let t = think::score_text(score);
    signed_numeral(
        t.skip(
            if -31_872 < score < 31_872 {
                " score cp ".spec_bytes().len() as int
            } else {
                " score mate ".spec_bytes().len() as int
            },
        ),
    )
}

proof fn lemma_after(a: Seq<u8>, b: Seq<u8>)
    ensures
        (a + b).skip(a.len() as int) == b,
        (a + b).take(a.len() as int) == a,
{
    assert((a + b).skip(a.len() as int) =~= b);
    assert((a + b).take(a.len() as int) =~= a);
}

/// A score is reported with its sign. Short of mate the number is the score in
/// centipawns. A mate is counted in moves, positive for the side that gives it
/// and negative for the side that receives it: two plies make a move, and the
/// last one may be missing.
pub proof fn law_the_report_has_the_sign_of_the_score(score: int)
    requires
        -32_000 < score < 32_000,
    ensures
        reported(score) > 0 <==> score > 0,
        reported(score) < 0 <==> score < 0,
        -31_872 < score < 31_872 ==> {
            &&& think::score_text(score).take(" score cp ".spec_bytes().len() as int)
                == " score cp ".spec_bytes()
            &&& reported(score) == score
        },
        score >= 31_872 ==> {
            &&& think::score_text(score).take(" score mate ".spec_bytes().len() as int)
                == " score mate ".spec_bytes()
            &&& 2 * reported(score) - 1 <= 32_000 - score <= 2 * reported(score)
        },
        score <= -31_872 ==> {
            &&& think::score_text(score).take(" score mate ".spec_bytes().len() as int)
                == " score mate ".spec_bytes()
            &&& 2 * -reported(score) - 1 <= 32_000 + score <= 2 * -reported(score)
        },
{
    let n = if score >= 0 {
        (32_001 - score) / 2
    } else {
        (32_001 + score) / 2
    };
    let k = if -31_872 < score < 31_872 {
        score
    } else if score > 0 {
        n
    } else {
        -n
    };
    law_signed_numbers_are_numerals(k);
    lemma_after(" score cp ".spec_bytes(), io::signed_digits(k));
    lemma_after(" score mate ".spec_bytes(), io::signed_digits(k));
}

/// The other side's report of the same position has the opposite number.
pub proof fn law_reports_negate(score: int)
    requires
        -32_000 < score < 32_000,
    ensures
        reported(-score) == -reported(score),
{
    law_the_report_has_the_sign_of_the_score(score);
    law_the_report_has_the_sign_of_the_score(-score);
}

/// Different scores are reported differently: in centipawns every one, and mates
/// that take a different number of moves or go the other way.
pub proof fn law_reports_tell_scores_apart(a: int, b: int)
    requires
        -32_000 < a < 32_000,
        -32_000 < b < 32_000,
        think::score_text(a) == think::score_text(b),
    ensures
        -31_872 < a < 31_872 <==> -31_872 < b < 31_872,
        -31_872 < a < 31_872 ==> a == b,
        a > 0 <==> b > 0,
        a - b <= 1,
        b - a <= 1,
{
    broadcast use is_ascii_spec_bytes;

    law_the_report_has_the_sign_of_the_score(a);
    law_the_report_has_the_sign_of_the_score(b);
    reveal_strlit(" score cp ");
    reveal_strlit(" score mate ");
    let (x, y) = (" score cp ", " score mate ");
    assert(x.is_ascii() && y.is_ascii());
    assert(x.spec_bytes() =~= Seq::new(x@.len(), |i| x@.index(i) as u8));
    assert(y.spec_bytes() =~= Seq::new(y@.len(), |i| y@.index(i) as u8));
    let (s, t) = (think::score_text(a), think::score_text(b));
    assert(x.spec_bytes()[7] == 99 && y.spec_bytes()[7] == 109);
    assert(s[7] == t[7]);
    if -31_872 < a < 31_872 {
        assert(s.take(x.spec_bytes().len() as int)[7] == s[7]);
    } else {
        assert(s.take(y.spec_bytes().len() as int)[7] == s[7]);
    }
    if -31_872 < b < 31_872 {
        assert(t.take(x.spec_bytes().len() as int)[7] == t[7]);
    } else {
        assert(t.take(y.spec_bytes().len() as int)[7] == t[7]);
    }
}

// ---------------------------------------------------------------------------
// Reports
// ---------------------------------------------------------------------------

/// What a report on an iteration says, field by field.
pub struct Fields {
    pub depth: Seq<u8>,
    pub seldepth: Seq<u8>,
    pub score: Seq<u8>,
    pub nodes: Seq<u8>,
    pub nps: Seq<u8>,
    pub full: Seq<u8>,
    pub time: Seq<u8>,
    pub line: Seq<u8>,
}

/// A report is a line of fields with their names, and each of them is true: the
/// depth, the deepest ply, the score, the nodes, how many of them a second, how
/// full the table is, the time, and the line.
pub proof fn law_reports_are_true(w: World, depth: nat, score: int, ms: u64) -> (f: Fields)
    requires
        w.threads <= 1,
        0 <= w.nodes <= 10_000_000_000_000_000,
        w.table.full() >= 0,
    ensures
        think::report_text(w, depth as int, score, ms) == ("info depth ".spec_bytes() + f.depth
            + " seldepth ".spec_bytes() + f.seldepth + f.score + " nodes ".spec_bytes() + f.nodes
            + " nps ".spec_bytes() + f.nps + " hashfull ".spec_bytes() + f.full
            + " time ".spec_bytes() + f.time + " pv".spec_bytes() + f.line).push(10),
        numeral(f.depth) == depth,
        numeral(f.seldepth) == w.seldepth,
        f.score == think::score_text(score),
        numeral(f.nodes) == w.nodes,
        // Nodes a second, rounded down; less than a millisecond counts as one.
        ({
            let t = if ms == 0 {
                1
            } else {
                ms as int
            };
            numeral(f.nps) * t <= w.nodes * 1000 < (numeral(f.nps) + 1) * t
        }),
        numeral(f.full) == w.table.full(),
        numeral(f.time) == ms,
        // Each move of the line follows a space.
        w.pv_len[0] == 0 ==> f.line.len() == 0,
        w.pv_len[0] > 0 ==> f.line.len() >= 5 && f.line[0] == 32 && forall|i: int|
            0 <= i < 4 ==> f.line[1 + i] == #[trigger] io::move_text(w.pv[0])[i],
{
    let t = if ms == 0 {
        1
    } else {
        ms as int
    };
    let speed = w.nodes * 1000 / t;
    law_numbers_are_numerals(depth);
    law_numbers_are_numerals(w.seldepth as nat);
    law_numbers_are_numerals(w.nodes as nat);
    law_numbers_are_numerals(speed as nat);
    law_numbers_are_numerals(w.table.full() as nat);
    law_numbers_are_numerals(ms as nat);
    let x = w.nodes * 1000;
    assert(speed * t <= x < (speed + 1) * t && speed >= 0) by (nonlinear_arith)
        requires
            t >= 1,
            x >= 0,
            speed == x / t,
    ;
    if w.pv_len[0] > 0 {
        lemma_line(w, w.pv_len[0] as nat);
    }
    Fields {
        depth: io::digits(depth),
        seldepth: io::digits(w.seldepth as nat),
        score: think::score_text(score),
        nodes: io::digits(w.nodes as nat),
        nps: io::digits(speed as nat),
        full: io::digits(w.table.full() as nat),
        time: io::digits(ms as nat),
        line: think::line_text(w, w.pv_len[0] as nat),
    }
}

/// Every move of the line is told, in its turn and after a space.
pub proof fn law_lines_tell_every_move(w: World, n: nat, i: nat) -> (rest: Seq<u8>)
    requires
        i < n,
    ensures
        think::line_text(w, n) == think::line_text(w, i) + seq![32u8] + io::move_text(w.pv[i as int])
            + rest,
        think::line_text(w, 0).len() == 0,
    decreases n,
{
    reveal_with_fuel(think::line_text, 2);
    let j = (n - 1) as nat;
    if i < j {
        let rest = law_lines_tell_every_move(w, j, i);
        let more = rest + seq![32u8] + io::move_text(w.pv[j as int]);
        assert(think::line_text(w, n) =~= think::line_text(w, i) + seq![32u8] + io::move_text(
            w.pv[i as int],
        ) + more);
        more
    } else {
        let none = Seq::<u8>::empty();
        assert(think::line_text(w, n) =~= think::line_text(w, i) + seq![32u8] + io::move_text(
            w.pv[i as int],
        ) + none);
        none
    }
}

proof fn lemma_line(w: World, n: nat)
    requires
        n > 0,
    ensures
        think::line_text(w, n).len() >= 5,
        think::line_text(w, n)[0] == 32,
        forall|i: int|
            0 <= i < 4 ==> think::line_text(w, n)[1 + i] == #[trigger] io::move_text(w.pv[0])[i],
    decreases n,
{
    reveal_with_fuel(think::line_text, 2);
    let j = (n - 1) as nat;
    if j > 0 {
        lemma_line(w, j);
    } else {
        assert(think::line_text(w, 0) =~= Seq::<u8>::empty());
    }
}

/// A move is written as the file and rank it leaves and the file and rank it
/// goes to, and the letter of the piece that a pawn becomes.
pub proof fn law_moves_are_written_in_coordinates(m: Move)
    requires
        0 <= m.f() < 64,
        0 <= m.t() < 64,
    ensures
        ({
            let t = io::move_text(m);
            &&& t[0] == 97 + m.f() % 8
            &&& t[1] == 49 + m.f() / 8
            &&& t[2] == 97 + m.t() % 8
            &&& t[3] == 49 + m.t() / 8
            &&& t.len() == if m.k() >= 8 {
                5int
            } else {
                4
            }
            &&& m.k() >= 8 ==> t[4] == seq![110u8, 98u8, 114u8, 113u8][m.k() % 4]
        }),
{
}

/// An evaluation is told with its sign.
pub proof fn law_evaluations_read_back(v: int) -> (t: Seq<u8>)
    ensures
        uci::eval_text(v) == ("eval ".spec_bytes() + t).push(10),
        signed_numeral(t) == v,
        t.len() > 0 && (t[0] == 45 <==> v < 0),
{
    law_signed_numbers_are_numerals(v);
    io::signed_digits(v)
}

/// What a benchmark and a count of moves sum up to reads back: the nodes, the
/// time, and how many nodes a second that makes.
pub proof fn law_totals_read_back(total: nat, ms: u64) -> (f: (Seq<u8>, Seq<u8>, Seq<u8>))
    requires
        total <= 10_000_000_000_000_000,
    ensures
        perft::total_text(total as int, ms) == ("nodes ".spec_bytes() + f.0 + " time ".spec_bytes()
            + f.1 + " nps ".spec_bytes() + f.2).push(10),
        uci::bench_text(total as int, ms) == "===========================".spec_bytes().push(10) + (
        "Total nodes  : ".spec_bytes() + f.0).push(10) + ("Time (ms)    : ".spec_bytes() + f.1).push(
            10,
        ) + ("Nodes/second : ".spec_bytes() + f.2).push(10),
        numeral(f.0) == total,
        numeral(f.1) == ms,
        ({
            let t = if ms == 0 {
                1
            } else {
                ms as int
            };
            numeral(f.2) * t <= total * 1000 < (numeral(f.2) + 1) * t
        }),
{
    let t = if ms == 0 {
        1
    } else {
        ms as int
    };
    let x = total * 1000;
    let speed = x as int / t;
    assert(speed * t <= x < (speed + 1) * t && speed >= 0) by (nonlinear_arith)
        requires
            t >= 1,
            x >= 0,
            speed == x as int / t,
    ;
    law_numbers_are_numerals(total);
    law_numbers_are_numerals(ms as nat);
    law_numbers_are_numerals(speed as nat);
    (io::digits(total), io::digits(ms as nat), io::digits(speed as nat))
}

/// The number that two bytes stand for, the lower first.
pub open spec fn pair(s: Seq<u8>, i: int) -> int {
    s[i] + 256 * s[i + 1]
}

proof fn lemma_pairs(l: Seq<int>, n: nat)
    requires
        n <= l.len(),
        forall|i: int| 0 <= i < n ==> 0 <= #[trigger] l[i] < 65_536,
    ensures
        uci::le16s(l, n).len() == 2 * n,
        forall|i: int| 0 <= i < n ==> pair(uci::le16s(l, n), 2 * i) == #[trigger] l[i],
    decreases n,
{
    if n > 0 {
        let k = (n - 1) as nat;
        lemma_pairs(l, k);
        let (a, b) = (uci::le16s(l, k), uci::le16s(l, n));
        assert forall|i: int| 0 <= i < n implies pair(b, 2 * i) == #[trigger] l[i] by {
            if i < k {
                assert(b[2 * i] == a[2 * i] && b[2 * i + 1] == a[2 * i + 1]);
            } else {
                assert(b[2 * i] == uci::le16(l[i])[0] && b[2 * i + 1] == uci::le16(l[i])[1]);
            }
        }
    }
}

/// The features of a position are written as numbers of two bytes: how many
/// there are, the mover's, the opponent's, and the bucket.
pub proof fn law_features_read_back(p: Position, i: int)
    requires
        forall|j: int|
            0 <= j < net::rows(p, 0).len() ==> 0 <= #[trigger] net::rows(p, 0)[j] < 65_536,
        forall|j: int|
            0 <= j < net::rows(p, 1).len() ==> 0 <= #[trigger] net::rows(p, 1)[j] < 65_536,
        p.stm < 2,
    ensures
        ({
            let s = uci::feature_text(p);
            let (us, them) = (net::rows(p, p.stm as int), net::rows(p, 1 - p.stm));
            let n = us.len() as int;
            &&& s.len() == 4 * n + 4
            &&& pair(s, 0) == n
            &&& 0 <= i < n ==> pair(s, 2 + 2 * i) == us[i]
            &&& 0 <= i < n ==> pair(s, 2 + 2 * n + 2 * i) == them[i]
            &&& pair(s, 2 + 4 * n) == net::bucket(bits::card(p.occ_bb()) as int)
        }),
{
    let (us, them) = (net::rows(p, p.stm as int), net::rows(p, 1 - p.stm));
    let n = us.len();
    lemma_pairs(us, n);
    lemma_pairs(them, n);
    let (a, b, c, d) = (
        uci::le16(n as int),
        uci::le16s(us, n),
        uci::le16s(them, n),
        uci::le16(net::bucket(bits::card(p.occ_bb()) as int)),
    );
    let s = uci::feature_text(p);
    assert(s =~= a + b + c + d);
    assert(s[0] == a[0] && s[1] == a[1]);
    if 0 <= i < n {
        assert(s[2 + 2 * i] == b[2 * i] && s[3 + 2 * i] == b[2 * i + 1]);
        assert(s[2 + 2 * n + 2 * i] == c[2 * i] && s[3 + 2 * n + 2 * i] == c[2 * i + 1]);
        assert(us[i] == us[i] && them[i] == them[i]);
    }
    let e = 2 + 4 * n as int;
    assert(s[e] == d[0] && s[e + 1] == d[1]);
}

// ---------------------------------------------------------------------------
// Moves by their text
// ---------------------------------------------------------------------------

proof fn lemma_same_text(p: Position, a: Move, b: Move)
    requires
        p.wf(),
        rules::legal(p, a),
        rules::legal(p, b),
        io::move_text(a) == io::move_text(b),
    ensures
        a == b,
{
    io::law_move_text_is_faithful(a, b);
    movelaw::law_legal_moves_obey_the_rules(p, a);
    movelaw::law_legal_moves_obey_the_rules(p, b);
    moves::law_move_round_trip(0, 0, 0, a);
    moves::law_move_round_trip(0, 0, 0, b);
    legal::law_legal_is_playable(p, a);
    legal::law_legal_is_playable(p, b);
    assert(a.k() == b.k());
}

proof fn lemma_named(l: Seq<Move>, w: Seq<u8>, i: int, j: int)
    requires
        0 <= i <= j < l.len(),
        io::move_text(l[j]) == w,
    ensures
        l.contains(place::named_in(l, w, i)),
        io::move_text(place::named_in(l, w, i)) == w,
    decreases l.len() - i,
{
    if io::move_text(l[i]) == w {
        assert(l.contains(l[i]));
    } else {
        lemma_named(l, w, i + 1, j);
    }
}

/// Every move of a position is found by its text.
pub proof fn law_moves_are_found_by_their_text(p: Position, m: Move)
    requires
        p.wf(),
        movegen::move_list(p, GenKind::All).contains(m),
    ensures
        place::named(p, io::move_text(m)) == m,
{
    let l = movegen::move_list(p, GenKind::All);
    let j = choose|j: int| 0 <= j < l.len() && l[j] == m;
    let w = io::move_text(m);
    lemma_named(l, w, 0, j);
    legal::law_generated_is_legal(p, m);
    legal::law_generated_is_legal(p, place::named(p, w));
    lemma_same_text(p, m, place::named(p, w));
}

/// The answer names the move.
pub proof fn law_the_answer_names_the_move(m: Move)
    requires
        0 <= m.f() < 64,
        0 <= m.t() < 64,
    ensures
        ({
            let t = think::bestmove_text(m);
            let n = "bestmove ".spec_bytes().len() as int;
            &&& t.take(n) == "bestmove ".spec_bytes()
            &&& t[n] == 97 + m.f() % 8
            &&& t[n + 1] == 49 + m.f() / 8
            &&& t[n + 2] == 97 + m.t() % 8
            &&& t[n + 3] == 49 + m.t() / 8
            &&& t[t.len() - 1] == 10
        }),
{
    law_moves_are_written_in_coordinates(m);
    let (a, b) = ("bestmove ".spec_bytes(), io::move_text(m));
    assert(think::bestmove_text(m).take(a.len() as int) =~= a);
}

// ---------------------------------------------------------------------------
// Boards
// ---------------------------------------------------------------------------

/// The letter of a piece: upper case for white, lower case for black, a space
/// for an empty square.
pub open spec fn letter(code: int) -> u8 {
    seq![80u8, 78u8, 66u8, 82u8, 81u8, 75u8, 112u8, 110u8, 98u8, 114u8, 113u8, 107u8, 32u8][code]
}

proof fn lemma_bars(p: Position, r: int, n: nat)
    requires
        " | ".spec_bytes().len() == 3,
    ensures
        board::squares_text(p, r, n).len() == 4 * n,
        forall|i: int|
            0 <= i < n ==> board::squares_text(p, r, n)[4 * i + 3] == #[trigger] board::square_char(
                p,
                r * 8 + i,
            ),
    decreases n,
{
    if n > 0 {
        let k = (n - 1) as nat;
        lemma_bars(p, r, k);
        let (a, b) = (board::squares_text(p, r, k), board::squares_text(p, r, n));
        assert forall|i: int| 0 <= i < n implies b[4 * i + 3] == #[trigger] board::square_char(
            p,
            r * 8 + i,
        ) by {
            if i < k {
                assert(b[4 * i + 3] == a[4 * i + 3]);
            } else {
                assert(b.last() == board::square_char(p, r * 8 + i));
            }
        }
    }
}

/// A board is shown as it is: the letter of what stands on a square is in its
/// place on the line of its rank.
pub proof fn law_boards_are_shown_as_they_are(p: Position, r: int, f: int)
    requires
        p.board_ok(),
        0 <= r < 8,
        0 <= f < 8,
    ensures
        board::squares_text(p, r, 8).len() == 32,
        board::squares_text(p, r, 8)[4 * f + 3] == letter(p.cells()[r * 8 + f]),
{
    broadcast use is_ascii_spec_bytes;

    let s = r * 8 + f;
    pos::lemma_cells(p, s);
    reveal_strlit(" | ");
    let x = " | ";
    assert(x.is_ascii());
    assert(x.spec_bytes() =~= Seq::new(x@.len(), |i| x@.index(i) as u8));
    lemma_bars(p, r, 8);
    assert(board::square_char(p, r * 8 + f) == letter(p.cells()[s]));
}

// ---------------------------------------------------------------------------
// Training data
// ---------------------------------------------------------------------------

/// The side to move is in check.
pub open spec fn in_check(p: Position) -> bool {
    pos::attacked(p.cells(), 1 - p.stm, p.king(p.stm as int), pos::occ_of(p.cells()))
}

pub proof fn lemma_in_check(p: Position)
    requires
        p.wf(),
    ensures
        p.checkers != 0 <==> in_check(p),
{
    let us = p.stm as int;
    let k = p.king(us);
    let occ = p.occ_bb();
    pos::lemma_occ(p);
    bits::lemma_empty(p.checkers);
    bits::lemma_low(p.checkers);
    if p.checkers != 0 {
        let s = bits::low(p.checkers);
        assert(bits::mem(p.attackers(k, occ) & p.color@[1 - us], s));
        bits::lemma_mem_and(p.attackers(k, occ), p.color@[1 - us], s);
        pos::lemma_attackers(p, k, occ, s);
        pos::lemma_cells(p, s);
        assert(pos::owned(p.cells()[s], 1 - us));
    }
    if in_check(p) {
        let s = choose|s: int|
            #![trigger p.cells()[s]]
            geom::is_sq(s) && pos::owned(p.cells()[s], 1 - us) && pos::hits(
                p.cells()[s],
                s,
                k,
                pos::occ_of(p.cells()),
            );
        pos::lemma_attackers(p, k, occ, s);
        pos::lemma_cells(p, s);
        bits::lemma_mem_and(p.attackers(k, occ), p.color@[1 - us], s);
        assert(bits::mem(p.checkers, s));
    }
}

/// The side to move has no legal move.
pub open spec fn stuck(p: Position) -> bool {
    forall|m: Move|
        (m.is_ep_spec() ==> bits::card(p.checkers) <= 1) ==> !#[trigger] rules::legal(p, m)
}

/// The score of the last ply decides the game: a mate, or the fourth score in a
/// row that is worth a queen and a rook and more.
pub open spec fn is_over(l: Seq<Ply>) -> bool {
    let n = l.len() as int;
    &&& n > 0
    &&& {
        ||| geom::abs(l[n - 1].score) >= 31_872
        ||| n >= 4 && geom::abs(l[n - 1].score) >= 2000 && geom::abs(l[n - 2].score) >= 2000
            && geom::abs(l[n - 3].score) >= 2000 && geom::abs(l[n - 4].score) >= 2000
    }
}

proof fn lemma_is_over(l: Seq<Ply>)
    requires
        l.len() > 0,
    ensures
        datagen::decided(l, l.len() - 1) <==> is_over(l),
{
    let n = l.len();
    reveal_with_fuel(datagen::lopsided, 5);
    if n >= 4 {
        lemma_row(l, (n - 4) as nat);
    }
}

proof fn lemma_row(l: Seq<Ply>, n: nat)
    ensures
        0 <= datagen::lopsided(l, n) <= n,
    decreases n,
{
    if n > 0 {
        lemma_row(l, (n - 1) as nat);
    }
}

/// White is ahead, if the score that the side to move was given is to be
/// believed.
pub open spec fn white_ahead(x: Ply) -> bool {
    if x.p.stm == 0 {
        x.score > 0
    } else {
        x.score < 0
    }
}

/// A game that a score decides goes to the side that is ahead: 2 is a win for
/// white, 0 one for black.
pub proof fn law_the_side_ahead_wins(l: Seq<Ply>, start: Position, result: int)
    requires
        datagen::ends(l, start, result),
        is_over(l),
    ensures
        result == 2 <==> white_ahead(l.last()),
        result == 0 <==> !white_ahead(l.last()),
{
    reveal(datagen::ends);
    lemma_is_over(l);
}

/// A game that no score decides ends on the board: the side that is mated
/// loses, and a stalemate is a draw. So is what goes on for too long, and what
/// nobody can win.
pub proof fn law_the_mated_side_loses(l: Seq<Ply>, start: Position, result: int)
    requires
        datagen::ends(l, start, result),
        !is_over(l),
        datagen::outcome(l, start).wf(),
    ensures
        ({
            let q = datagen::outcome(l, start);
            let over = l.len() >= 400 || q.drawn(0) || q.bare();
            &&& over ==> result == 1
            &&& !over ==> {
                &&& stuck(q)
                &&& in_check(q) && q.stm == 0 ==> result == 0
                &&& in_check(q) && q.stm != 0 ==> result == 2
                &&& !in_check(q) ==> result == 1
            }
        }),
{
    reveal(datagen::ends);
    let q = datagen::outcome(l, start);
    if l.len() > 0 {
        lemma_is_over(l);
    }
    lemma_in_check(q);
    if !(l.len() >= 400 || q.drawn(0) || q.bare()) {
        assert forall|m: Move|
            (m.is_ep_spec() ==> bits::card(q.checkers) <= 1) implies !#[trigger] rules::legal(
            q,
            m,
        ) by {
            if rules::legal(q, m) {
                legal::law_legal_is_generated(q, m);
            }
        }
    }
}

/// A mate that was seen coming counts like one that was played: if the side to
/// move is said to be winning in one game, and the other side is mated in
/// another, both have the same result.
pub proof fn law_a_mate_seen_counts_like_a_mate_given(
    l: Seq<Ply>,
    start: Position,
    seen: int,
    k: Seq<Ply>,
    begin: Position,
    given: int,
)
    requires
        datagen::ends(l, start, seen),
        is_over(l),
        l.last().score > 0,
        datagen::ends(k, begin, given),
        !is_over(k),
        k.len() < 400,
        ({
            let q = datagen::outcome(k, begin);
            q.wf() && !q.drawn(0) && !q.bare() && in_check(q) && (q.stm == 0) == (l.last().p.stm
                != 0)
        }),
    ensures
        seen == given,
{
    law_the_side_ahead_wins(l, start, seen);
    law_the_mated_side_loses(k, begin, given);
}

/// A position that is worth learning from: the random opening is over, nothing
/// hangs by a tactic, and the game is still open.
#[verifier::opaque]
pub open spec fn instructive(x: Ply, i: int) -> bool {
    &&& i >= 2
    &&& !in_check(x.p)
    // Nothing is captured and nothing promoted.
    &&& x.best.k() < 4
    &&& -2000 < x.score < 2000
}

/// What is recorded of a ply: its position and its score, seen from white's
/// side.
#[verifier::opaque]
pub open spec fn tells(x: Ply, r: Note) -> bool {
    &&& r.fen == fen::fen_text(x.p)
    &&& r.score == if x.p.stm == 0 {
        x.score
    } else {
        -x.score
    }
}

proof fn lemma_telling(x: Ply, i: int)
    requires
        x.p.wf(),
    ensures
        datagen::telling(x.p, x.best, x.score, i) <==> instructive(x, i),
        tells(x, (Note { fen: fen::fen_text(x.p), score: uci::white_score(x.p, x.score) })),
{
    reveal(instructive);
    reveal(tells);
    lemma_in_check(x.p);
}

/// `r` tells one of the first `n` plies, and an instructive one.
pub open spec fn taken_from(l: Seq<Ply>, n: nat, r: Note) -> bool {
    exists|j: int| 0 <= j < n && instructive(l[j], j) && #[trigger] tells(l[j], r)
}

/// One of the records tells `x`.
pub open spec fn on_record(v: Seq<Note>, x: Ply) -> bool {
    exists|i: int| 0 <= i < v.len() && tells(x, #[trigger] v[i])
}

/// Every record of a game tells an instructive ply.
pub proof fn law_records_are_instructive(l: Seq<Ply>, seen: Seq<u64>, n: nat)
    requires
        n <= l.len(),
        forall|j: int| 0 <= j < n ==> (#[trigger] l[j]).p.wf(),
    ensures
        forall|i: int|
            0 <= i < datagen::harvest(l, seen, n).1.len() ==> taken_from(
                l,
                n,
                #[trigger] datagen::harvest(l, seen, n).1[i],
            ),
    decreases n,
{
    if n > 0 {
        let k = (n - 1) as nat;
        law_records_are_instructive(l, seen, k);
        let r = datagen::harvest(l, seen, k).1;
        let s = datagen::harvest(l, seen, n).1;
        lemma_telling(l[k as int], k as int);
        assert forall|i: int| 0 <= i < s.len() implies taken_from(l, n, #[trigger] s[i]) by {
            if i < r.len() {
                assert(s[i] == r[i]);
                assert(taken_from(l, k, r[i]));
                let j = choose|j: int|
                    0 <= j < k && instructive(l[j], j) && #[trigger] tells(l[j], r[i]);
                assert(tells(l[j], s[i]));
            } else {
                assert(tells(l[k as int], s[i]));
            }
        }
    }
}

/// Every instructive ply whose position is new is recorded.
pub proof fn law_instructive_positions_are_recorded(l: Seq<Ply>, seen: Seq<u64>, n: nat, j: int)
    requires
        0 <= j < n <= l.len(),
        l[j].p.wf(),
        instructive(l[j], j),
        datagen::is_new(datagen::harvest(l, seen, j as nat).0, l[j].p.key),
    ensures
        on_record(datagen::harvest(l, seen, n).1, l[j]),
    decreases n,
{
    let k = (n - 1) as nat;
    let r = datagen::harvest(l, seen, k).1;
    let s = datagen::harvest(l, seen, n).1;
    if j < k {
        law_instructive_positions_are_recorded(l, seen, k, j);
        let i = choose|i: int| 0 <= i < r.len() && tells(l[j], #[trigger] r[i]);
        assert(s[i] == r[i]);
    } else {
        lemma_telling(l[j], j);
        assert(tells(l[j], s[r.len() as int]));
    }
}

proof fn lemma_found_again(t: Seq<u64>, key: u64, i: int, n: nat, j: int, other: u64)
    requires
        t.len() == 4_194_304,
        0 <= i < 4_194_304,
        0 <= j < 4_194_304,
        key != 0,
        datagen::probe(t, key, i, n) matches Some(k) && t[k] == key,
        t[j] == 0 || t[j] == other,
    ensures
        datagen::probe(t.update(j, other), key, i, n) == datagen::probe(t, key, i, n),
    decreases n,
{
    if t[i] != key && t[i] != 0 {
        lemma_found_again(t, key, (i + 1) % 4_194_304, (n - 1) as nat, j, other);
    }
}

proof fn lemma_stop(t: Seq<u64>, key: u64, i: int, n: nat)
    requires
        t.len() == 4_194_304,
        0 <= i < 4_194_304,
    ensures
        datagen::probe(t, key, i, n) matches Some(j) ==> 0 <= j < 4_194_304 && (t[j] == key || t[j]
            == 0),
    decreases n,
{
    if n > 0 && t[i] != key && t[i] != 0 {
        lemma_stop(t, key, (i + 1) % 4_194_304, (n - 1) as nat);
    }
}

/// Whatever else is remembered, a position that is known stays known.
pub proof fn law_known_positions_stay_known(t: Seq<u64>, key: u64, other: u64)
    requires
        t.len() == 4_194_304,
        !datagen::is_new(t, key),
    ensures
        !datagen::is_new(datagen::noted(t, other), key),
{
    lemma_stop(t, other, datagen::home(other), 8);
    lemma_stop(t, key, datagen::home(key), 8);
    match datagen::probe(t, other, datagen::home(other), 8) {
        Some(j) => {
            lemma_found_again(t, key, datagen::home(key), 8, j, other);
            let k = datagen::probe(t, key, datagen::home(key), 8)->0;
            assert(t.update(j, other)[k] == key);
        },
        None => {},
    }
}

/// A position that nobody remembers is new.
pub proof fn law_unknown_positions_are_new(t: Seq<u64>, key: u64)
    requires
        t.len() == 4_194_304,
        forall|i: int| 0 <= i < t.len() ==> #[trigger] t[i] != key,
    ensures
        datagen::is_new(t, key),
{
    lemma_stop(t, key, datagen::home(key), 8);
}

/// A line of training data is the position, the score and the result, and the
/// numbers read back as they were.
pub proof fn law_training_lines_read_back(x: Note, result: nat) -> (f: (Seq<u8>, Seq<u8>))
    requires
        x.fen.len() <= 8192,
    ensures
        datagen::data_line(x, result as int) == (x.fen + " | ".spec_bytes() + f.0
            + " | ".spec_bytes() + f.1).push(10),
        signed_numeral(f.0) == x.score,
        numeral(f.1) == result,
{
    law_signed_numbers_are_numerals(x.score);
    law_numbers_are_numerals(result);
    (io::signed_digits(x.score), io::digits(result))
}

proof fn lemma_seek(s: Seq<u8>, c: u8, i: int, j: int)
    requires
        0 <= i <= j < s.len(),
        s[j] == c,
        forall|k: int| i <= k < j ==> #[trigger] s[k] != c,
    ensures
        uci::seek_byte(s, c, i) == j,
    decreases j - i,
{
    if i < j {
        lemma_seek(s, c, i + 1, j);
    }
}

/// A line of the form of a training line is taken apart at its bars: the
/// position, without the space after it, and everything from the second bar on.
pub proof fn law_training_lines_are_taken_apart(text: Seq<u8>, score: Seq<u8>, tail: Seq<u8>)
    requires
        text.len() > 0,
        text.last() != 32,
        forall|i: int| 0 <= i < text.len() ==> #[trigger] text[i] != 124,
        forall|i: int| 0 <= i < score.len() ==> #[trigger] score[i] != 124,
    ensures
        ({
            let s = text + seq![32u8, 124u8] + score + seq![124u8] + tail;
            uci::label_parts(s) == Some(
                (text.len() as int, (text.len() + 2 + score.len()) as int),
            )
        }),
{
    let s = text + seq![32u8, 124u8] + score + seq![124u8] + tail;
    let n = text.len() as int;
    assert forall|k: int| 0 <= k < n + 1 implies #[trigger] s[k] != 124 by {
        if k < n {
            assert(s[k] == text[k]);
        }
    }
    assert(s[n] == 32 && s[n + 1] == 124);
    lemma_seek(s, 124, 0, n + 1);
    let c = n + 2 + score.len() as int;
    assert(s[c] == 124);
    assert forall|k: int| n + 2 <= k < c implies #[trigger] s[k] != 124 by {
        assert(s[k] == score[k - n - 2]);
    }
    lemma_seek(s, 124, n + 2, c);
    assert(s[n - 1] == text.last());
    assert(uci::trimmed(s, n) == n);
    assert(uci::trimmed(s, n + 1) == n);
}

/// A renewed label is the position, the score from white's side, and the rest of
/// the line as it was.
pub proof fn law_labels_are_whites(p: Position, score: int, text: Seq<u8>, tail: Seq<u8>) -> (f: Seq<
    u8,
>)
    requires
        text.len() <= 8192,
        tail.len() <= 8192,
    ensures
        uci::label_text(text, uci::white_score(p, score), tail) == (text + " | ".spec_bytes() + f
            + " ".spec_bytes() + tail).push(10),
        signed_numeral(f) == if p.stm == 0 {
            score
        } else {
            -score
        },
{
    let v = if p.stm == 0 {
        score
    } else {
        -score
    };
    law_signed_numbers_are_numerals(v);
    io::signed_digits(v)
}

/// `n` legal moves, one after the other, lead from `p` to `q`.
pub open spec fn led(p: Position, n: nat, q: Position) -> bool
    decreases n,
{
    if n == 0 {
        q == p
    } else {
        exists|m: Move| #[trigger]
            movegen::move_list(p, GenKind::All).contains(m) && led(
                perft::settled(make::after(p, m)),
                (n - 1) as nat,
                q,
            )
    }
}

proof fn lemma_opening(p: Position, x: u64, n: nat)
    ensures
        datagen::opening(p, x, n).1 matches Some(q) ==> led(p, n, q),
    decreases n,
{
    let l = movegen::move_list(p, GenKind::All);
    if n > 0 && l.len() > 0 {
        let y = datagen::scrambled(x);
        let m = l[(y as int) % (l.len() as int)];
        assert(l.contains(m));
        lemma_opening(perft::settled(make::after(p, m)), y, (n - 1) as nat);
    }
}

/// A training game starts with eight to sixteen legal moves from the first
/// position; where the game is over before, nothing is written.
pub proof fn law_openings_are_legal_moves(
    q: Position,
    nodes: u64,
    o: Generator,
    n: Generator,
    s: Searcher,
    e: Searcher,
    text: Seq<u8>,
    count: int,
)
    requires
        datagen::game_done(q, nodes, o, n, s, e, text, count),
    ensures
        text.len() == 0 && count == 0 || exists|k: nat, p: Position|
            8 <= k <= 16 && #[trigger] led(q, k, p) && datagen::yields(
                p,
                s,
                e,
                nodes,
                o.seen@,
                n.seen@,
                text,
                count,
            ),
{
    let x = datagen::scrambled(o.rng.0);
    lemma_opening(q, x, (8 + x % 9) as nat);
}

/// Games are only played on from openings that are still open: what was written
/// comes from a start that a search found to be within four pawns.
pub proof fn law_openings_are_balanced(
    p: Position,
    s: Searcher,
    e: Searcher,
    nodes: u64,
    seen: Seq<u64>,
    after: Seq<u64>,
    text: Seq<u8>,
    count: int,
)
    requires
        datagen::yields(p, s, e, nodes, seen, after, text, count),
        count > 0 || text.len() > 0,
    ensures
        exists|x: Ply|
            {
                &&& #[trigger] datagen::judged(x)
                &&& x.p == p
                &&& x.best != Move(0)
                &&& -400 <= x.score <= 400
            },
{
}

} // verus!
