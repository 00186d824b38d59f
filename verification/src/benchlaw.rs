//! The positions of the benchmark can all be searched.

use vstd::prelude::*;
use vstd::string::*;
use crate::bits;
use crate::fen;
use crate::fenlaw;
use crate::geom;
use crate::pos;
use crate::pos::Position;
use crate::rules;
use crate::uci;

verus! {

broadcast use {crate::bits::group_mem, crate::geom::group_geom};

/// A board laid out rank by rank, the first rank first.
spec fn laid(rows: Seq<Seq<int>>) -> Seq<int> {
    Seq::new(64, |s: int| rows[geom::rk(s)][geom::fl(s)])
}

/// Eight squares from file `f` on as text, after `e` empty ones.
spec fn line_text(row: Seq<int>, f: int, e: int) -> Seq<u8>
    decreases 8 - f,
{
    if f >= 8 {
        fen::run_text(e)
    } else if row[f] == 12 {
        line_text(row, f + 1, e + 1)
    } else {
        fen::run_text(e) + seq![fen::LETTERS@[row[f]]] + line_text(row, f + 1, 0)
    }
}

proof fn lemma_line(rows: Seq<Seq<int>>, r: int, f: int, e: int)
    requires
        0 <= r < 8,
        0 <= f <= 8,
    ensures
        fen::row_text(laid(rows), r, f, e) == line_text(rows[r], f, e),
    decreases 8 - f,
{
    if f < 8 {
        assert(geom::rk(r * 8 + f) == r && geom::fl(r * 8 + f) == f);
        lemma_line(rows, r, f + 1, e + 1);
        lemma_line(rows, r, f + 1, 0);
    }
}

/// What stands on `s` is a king only where the kings are, and does not check the
/// black king.
spec fn harmless(code: int, s: int, k0: int, k1: int, occ: u64) -> bool {
    &&& 0 <= code <= 12
    &&& code == 5 ==> s == k0
    &&& code == 11 ==> s == k1
    &&& pos::owned(code, 0) ==> !pos::hits(code, s, k1, occ)
}

/// The sets of rights that occur.
proof fn lemma_right_bits()
    ensures
        0u8 & 1 == 0 && 0u8 & 2 == 0 && 0u8 & 4 == 0 && 0u8 & 8 == 0,
        3u8 & 1 == 1 && 3u8 & 2 == 2 && 3u8 & 4 == 0 && 3u8 & 8 == 0,
        12u8 & 1 == 0 && 12u8 & 2 == 0 && 12u8 & 4 == 4 && 12u8 & 8 == 8,
        15u8 & 1 == 1 && 15u8 & 2 == 2 && 15u8 & 4 == 4 && 15u8 & 8 == 8,
{
    assert(0u8 & 1 == 0 && 0u8 & 2 == 0 && 0u8 & 4 == 0 && 0u8 & 8 == 0 && 3u8 & 1 == 1
        && 3u8 & 2 == 2 && 3u8 & 4 == 0 && 3u8 & 8 == 0 && 12u8 & 1 == 0 && 12u8 & 2 == 0
        && 12u8 & 4 == 4 && 12u8 & 8 == 8 && 15u8 & 1 == 1 && 15u8 & 2 == 2 && 15u8 & 4 == 4
        && 15u8 & 8 == 8) by (bit_vector);
}

/// The text of a whole board.
proof fn lemma_lines(rows: Seq<Seq<int>>)
    ensures
        fen::board_text(laid(rows), 7) == line_text(rows[7], 0, 0) + seq![47u8] + (line_text(
            rows[6],
            0,
            0,
        ) + seq![47u8] + (line_text(rows[5], 0, 0) + seq![47u8] + (line_text(rows[4], 0, 0)
            + seq![47u8] + (line_text(rows[3], 0, 0) + seq![47u8] + (line_text(rows[2], 0, 0)
            + seq![47u8] + (line_text(rows[1], 0, 0) + seq![47u8] + line_text(rows[0], 0, 0))))))),
{
    reveal_with_fuel(fen::board_text, 8);
    lemma_line(rows, 0, 0, 0);
    lemma_line(rows, 1, 0, 0);
    lemma_line(rows, 2, 0, 0);
    lemma_line(rows, 3, 0, 0);
    lemma_line(rows, 4, 0, 0);
    lemma_line(rows, 5, 0, 0);
    lemma_line(rows, 6, 0, 0);
    lemma_line(rows, 7, 0, 0);
}

/// The eight ranks are spelled like this.
#[verifier::opaque]
spec fn spelled(rows: Seq<Seq<int>>, texts: Seq<Seq<u8>>) -> bool {
    &&& line_text(rows[0], 0, 0) == texts[0]
    &&& line_text(rows[1], 0, 0) == texts[1]
    &&& line_text(rows[2], 0, 0) == texts[2]
    &&& line_text(rows[3], 0, 0) == texts[3]
    &&& line_text(rows[4], 0, 0) == texts[4]
    &&& line_text(rows[5], 0, 0) == texts[5]
    &&& line_text(rows[6], 0, 0) == texts[6]
    &&& line_text(rows[7], 0, 0) == texts[7]
}

/// The ranks of a board as text, the last rank first.
#[verifier::opaque]
spec fn joined(t: Seq<Seq<u8>>) -> Seq<u8> {
    t[7] + seq![47u8] + (t[6] + seq![47u8] + (t[5] + seq![47u8] + (t[4] + seq![47u8] + (t[3]
        + seq![47u8] + (t[2] + seq![47u8] + (t[1] + seq![47u8] + t[0]))))))
}

/// A text of plain letters has one byte for each.
proof fn lemma_ascii(s: &str)
    requires
        s.is_ascii(),
    ensures
        s.spec_bytes() == Seq::new(s@.len(), |i: int| s@.index(i) as u8),
{
    broadcast use is_ascii_spec_bytes;

    assert(s.spec_bytes() =~= Seq::new(s@.len(), |i: int| s@.index(i) as u8));
}

/// Nothing on a rank checks the black king, and kings are only where they
/// should be.
spec fn rank_harmless(row: Seq<int>, r: int, k0: int, k1: int, occ: u64) -> bool {
    forall|f: int| 0 <= f < 8 ==> harmless(#[trigger] row[f], r * 8 + f, k0, k1, occ)
}

/// A piece on `t` stands between `s` and `k`.
proof fn lemma_screened(rows: Seq<Seq<int>>, s: int, t: int, k: int)
    requires
        geom::btw(s, t, k),
        rows[t / 8][t % 8] != 12,
    ensures
        geom::btw(s, t, k),
        bits::mem(pos::occ_of(laid(rows)), t),
{
    let c = laid(rows);
    assert(c[t] == rows[t / 8][t % 8]);
    pos::lemma_occ_of(c, t);
}

/// The kings stand on `k0` and `k1`, the rights fit, and nothing checks the
/// black king.
#[verifier::opaque]
spec fn sane(rows: Seq<Seq<int>>, castle: u8, k0: int, k1: int) -> bool {
    let occ = pos::occ_of(laid(rows));
    &&& geom::is_sq(k0)
    &&& geom::is_sq(k1)
    &&& laid(rows)[k0] == 5
    &&& laid(rows)[k1] == 11
    &&& rules::rights_ok(castle, laid(rows))
    &&& rank_harmless(rows[0], 0, k0, k1, occ)
    &&& rank_harmless(rows[1], 1, k0, k1, occ)
    &&& rank_harmless(rows[2], 2, k0, k1, occ)
    &&& rank_harmless(rows[3], 3, k0, k1, occ)
    &&& rank_harmless(rows[4], 4, k0, k1, occ)
    &&& rank_harmless(rows[5], 5, k0, k1, occ)
    &&& rank_harmless(rows[6], 6, k0, k1, occ)
    &&& rank_harmless(rows[7], 7, k0, k1, occ)
}

/// What the benchmark needs of a position.
pub open spec fn searchable(q: Position) -> bool {
    q.wf() && q.hist_len == 1 && q.halfmove <= 9
}

/// A board whose ranks are harmless, with both kings, is one of the game.
proof fn lemma_game(
    rows: Seq<Seq<int>>,
    texts: Seq<Seq<u8>>,
    castle: u8,
    clocks: Seq<u8>,
    k0: int,
    k1: int,
    q: Position,
)
    requires
        spelled(rows, texts),
        fen::parsed(joined(texts) + fenlaw::plain_tail(castle, clocks), q),
        castle < 16,
        clocks.len() >= 2,
        48 <= clocks[0] <= 57,
        clocks[1] == 32,
        sane(rows, castle, k0, k1),
    ensures
        searchable(q),
{
    let c = laid(rows);
    lemma_lines(rows);
    reveal(spelled);
    reveal(joined);
    reveal(sane);
    assert forall|s: int| geom::is_sq(s) implies harmless(
        #[trigger] c[s],
        s,
        k0,
        k1,
        pos::occ_of(c),
    ) by {
        let (r, f) = (geom::rk(s), geom::fl(s));
        assert(c[s] == rows[r][f] && s == r * 8 + f);
        assert(rank_harmless(rows[r], r, k0, k1, pos::occ_of(c)));
    }
    assert(fenlaw::board(c));
    assert(pos::king_at(c, 0, k0) && pos::king_at(c, 1, k1));
    assert(!pos::attacked(c, 0, k1, pos::occ_of(c)));
    fenlaw::lemma_parse_plain(c, castle, clocks, q);
    pos::lemma_king(q, 0, k0);
    pos::lemma_king(q, 1, k1);
}

/// The ranks of position 0.
spec fn ranks_0() -> Seq<Seq<int>> {
    seq![
        seq![3int, 1, 2, 4, 5, 2, 1, 3],
        seq![0int, 0, 0, 0, 0, 0, 0, 0],
        seq![12int, 12, 12, 12, 12, 12, 12, 12],
        seq![12int, 12, 12, 12, 12, 12, 12, 12],
        seq![12int, 12, 12, 12, 12, 12, 12, 12],
        seq![12int, 12, 12, 12, 12, 12, 12, 12],
        seq![6int, 6, 6, 6, 6, 6, 6, 6],
        seq![9int, 7, 8, 10, 11, 8, 7, 9],
    ]
}

/// How they are spelled.
spec fn texts_0() -> Seq<Seq<u8>> {
    seq![
        seq![82u8, 78u8, 66u8, 81u8, 75u8, 66u8, 78u8, 82u8],
        seq![80u8, 80u8, 80u8, 80u8, 80u8, 80u8, 80u8, 80u8],
        seq![56u8],
        seq![56u8],
        seq![56u8],
        seq![56u8],
        seq![112u8, 112u8, 112u8, 112u8, 112u8, 112u8, 112u8, 112u8],
        seq![114u8, 110u8, 98u8, 113u8, 107u8, 98u8, 110u8, 114u8],
    ]
}

#[verifier::rlimit(60)]
proof fn lemma_spelled_0()
    ensures
        spelled(ranks_0(), texts_0()),
{
    reveal(spelled);
    let (rows, texts) = (ranks_0(), texts_0());
    assert forall|r: int| 0 <= r < 8 implies line_text(rows[r], 0, 0) == #[trigger] texts[r] by {
        reveal_with_fuel(line_text, 9);
    }
}

proof fn lemma_text_0()
    ensures
        uci::bench_fen(0) == joined(texts_0()) + fenlaw::plain_tail(
            15,
            seq![48u8, 32u8, 49u8],
        ),
{
    reveal_strlit(
        "rnbqkbnr/pppppppp/8/8/8/8/PPPPPPPP/RNBQKBNR w KQkq - 0 1",
    );
    reveal(joined);
    lemma_right_bits();
    lemma_ascii("rnbqkbnr/pppppppp/8/8/8/8/PPPPPPPP/RNBQKBNR w KQkq - 0 1");
}

#[verifier::rlimit(60)]
proof fn lemma_board_0()
    ensures
        sane(ranks_0(), 15, 4, 60),
{
    reveal(sane);
    lemma_right_bits();
}

proof fn lemma_game_0(q: Position)
    requires
        fen::parsed(uci::bench_fen(0), q),
    ensures
        searchable(q),
{
    lemma_spelled_0();
    lemma_text_0();
    lemma_board_0();
    lemma_game(ranks_0(), texts_0(), 15, seq![48u8, 32u8, 49u8], 4, 60, q);
}

/// The ranks of position 1.
spec fn ranks_1() -> Seq<Seq<int>> {
    seq![
        seq![3int, 12, 12, 12, 5, 12, 12, 3],
        seq![0int, 0, 0, 2, 2, 0, 0, 0],
        seq![12int, 12, 1, 12, 12, 4, 12, 6],
        seq![12int, 6, 12, 12, 0, 12, 12, 12],
        seq![12int, 12, 12, 0, 1, 12, 12, 12],
        seq![8int, 7, 12, 12, 6, 7, 6, 12],
        seq![6int, 12, 6, 6, 10, 6, 8, 12],
        seq![9int, 12, 12, 12, 11, 12, 12, 9],
    ]
}

/// How they are spelled.
spec fn texts_1() -> Seq<Seq<u8>> {
    seq![
        seq![82u8, 51u8, 75u8, 50u8, 82u8],
        seq![80u8, 80u8, 80u8, 66u8, 66u8, 80u8, 80u8, 80u8],
        seq![50u8, 78u8, 50u8, 81u8, 49u8, 112u8],
        seq![49u8, 112u8, 50u8, 80u8, 51u8],
        seq![51u8, 80u8, 78u8, 51u8],
        seq![98u8, 110u8, 50u8, 112u8, 110u8, 112u8, 49u8],
        seq![112u8, 49u8, 112u8, 112u8, 113u8, 112u8, 98u8, 49u8],
        seq![114u8, 51u8, 107u8, 50u8, 114u8],
    ]
}

#[verifier::rlimit(60)]
proof fn lemma_spelled_1()
    ensures
        spelled(ranks_1(), texts_1()),
{
    reveal(spelled);
    let (rows, texts) = (ranks_1(), texts_1());
    assert forall|r: int| 0 <= r < 8 implies line_text(rows[r], 0, 0) == #[trigger] texts[r] by {
        reveal_with_fuel(line_text, 9);
    }
}

proof fn lemma_text_1()
    ensures
        uci::bench_fen(1) == joined(texts_1()) + fenlaw::plain_tail(
            15,
            seq![48u8, 32u8, 49u8],
        ),
{
    reveal_strlit(
        "r3k2r/p1ppqpb1/bn2pnp1/3PN3/1p2P3/2N2Q1p/PPPBBPPP/R3K2R w KQkq - 0 1",
    );
    reveal(joined);
    lemma_right_bits();
    lemma_ascii("r3k2r/p1ppqpb1/bn2pnp1/3PN3/1p2P3/2N2Q1p/PPPBBPPP/R3K2R w KQkq - 0 1");
}

#[verifier::rlimit(60)]
proof fn lemma_board_1()
    ensures
        sane(ranks_1(), 15, 4, 60),
{
    reveal(sane);
    lemma_right_bits();
}

proof fn lemma_game_1(q: Position)
    requires
        fen::parsed(uci::bench_fen(1), q),
    ensures
        searchable(q),
{
    lemma_spelled_1();
    lemma_text_1();
    lemma_board_1();
    lemma_game(ranks_1(), texts_1(), 15, seq![48u8, 32u8, 49u8], 4, 60, q);
}

/// The ranks of position 2.
spec fn ranks_2() -> Seq<Seq<int>> {
    seq![
        seq![12int, 12, 12, 12, 12, 12, 12, 12],
        seq![12int, 12, 12, 12, 0, 12, 0, 12],
        seq![12int, 12, 12, 12, 12, 12, 12, 12],
        seq![12int, 3, 12, 12, 12, 6, 12, 11],
        seq![5int, 0, 12, 12, 12, 12, 12, 9],
        seq![12int, 12, 12, 6, 12, 12, 12, 12],
        seq![12int, 12, 6, 12, 12, 12, 12, 12],
        seq![12int, 12, 12, 12, 12, 12, 12, 12],
    ]
}

/// How they are spelled.
spec fn texts_2() -> Seq<Seq<u8>> {
    seq![
        seq![56u8],
        seq![52u8, 80u8, 49u8, 80u8, 49u8],
        seq![56u8],
        seq![49u8, 82u8, 51u8, 112u8, 49u8, 107u8],
        seq![75u8, 80u8, 53u8, 114u8],
        seq![51u8, 112u8, 52u8],
        seq![50u8, 112u8, 53u8],
        seq![56u8],
    ]
}

#[verifier::rlimit(60)]
proof fn lemma_spelled_2()
    ensures
        spelled(ranks_2(), texts_2()),
{
    reveal(spelled);
    let (rows, texts) = (ranks_2(), texts_2());
    assert forall|r: int| 0 <= r < 8 implies line_text(rows[r], 0, 0) == #[trigger] texts[r] by {
        reveal_with_fuel(line_text, 9);
    }
}

proof fn lemma_text_2()
    ensures
        uci::bench_fen(2) == joined(texts_2()) + fenlaw::plain_tail(
            0,
            seq![48u8, 32u8, 49u8],
        ),
{
    reveal_strlit(
        "8/2p5/3p4/KP5r/1R3p1k/8/4P1P1/8 w - - 0 1",
    );
    reveal(joined);
    lemma_right_bits();
    lemma_ascii("8/2p5/3p4/KP5r/1R3p1k/8/4P1P1/8 w - - 0 1");
}

#[verifier::rlimit(60)]
proof fn lemma_board_2()
    ensures
        sane(ranks_2(), 0, 32, 31),
{
    reveal(sane);
    lemma_right_bits();
    let rows = ranks_2();
    lemma_screened(rows, 25, 29, 31);
}

proof fn lemma_game_2(q: Position)
    requires
        fen::parsed(uci::bench_fen(2), q),
    ensures
        searchable(q),
{
    lemma_spelled_2();
    lemma_text_2();
    lemma_board_2();
    lemma_game(ranks_2(), texts_2(), 0, seq![48u8, 32u8, 49u8], 32, 31, q);
}

/// The ranks of position 3.
spec fn ranks_3() -> Seq<Seq<int>> {
    seq![
        seq![3int, 12, 12, 4, 12, 3, 5, 12],
        seq![0int, 6, 12, 0, 12, 12, 0, 0],
        seq![10int, 12, 12, 12, 12, 1, 12, 12],
        seq![2int, 2, 0, 12, 0, 12, 12, 12],
        seq![7int, 0, 12, 12, 12, 12, 12, 12],
        seq![12int, 8, 12, 12, 12, 7, 8, 1],
        seq![0int, 6, 6, 6, 12, 6, 6, 6],
        seq![9int, 12, 12, 12, 11, 12, 12, 9],
    ]
}

/// How they are spelled.
spec fn texts_3() -> Seq<Seq<u8>> {
    seq![
        seq![82u8, 50u8, 81u8, 49u8, 82u8, 75u8, 49u8],
        seq![80u8, 112u8, 49u8, 80u8, 50u8, 80u8, 80u8],
        seq![113u8, 52u8, 78u8, 50u8],
        seq![66u8, 66u8, 80u8, 49u8, 80u8, 51u8],
        seq![110u8, 80u8, 54u8],
        seq![49u8, 98u8, 51u8, 110u8, 98u8, 78u8],
        seq![80u8, 112u8, 112u8, 112u8, 49u8, 112u8, 112u8, 112u8],
        seq![114u8, 51u8, 107u8, 50u8, 114u8],
    ]
}

#[verifier::rlimit(60)]
proof fn lemma_spelled_3()
    ensures
        spelled(ranks_3(), texts_3()),
{
    reveal(spelled);
    let (rows, texts) = (ranks_3(), texts_3());
    assert forall|r: int| 0 <= r < 8 implies line_text(rows[r], 0, 0) == #[trigger] texts[r] by {
        reveal_with_fuel(line_text, 9);
    }
}

proof fn lemma_text_3()
    ensures
        uci::bench_fen(3) == joined(texts_3()) + fenlaw::plain_tail(
            12,
            seq![48u8, 32u8, 49u8],
        ),
{
    reveal_strlit(
        "r3k2r/Pppp1ppp/1b3nbN/nP6/BBP1P3/q4N2/Pp1P2PP/R2Q1RK1 w kq - 0 1",
    );
    reveal(joined);
    lemma_right_bits();
    lemma_ascii("r3k2r/Pppp1ppp/1b3nbN/nP6/BBP1P3/q4N2/Pp1P2PP/R2Q1RK1 w kq - 0 1");
}

#[verifier::rlimit(60)]
proof fn lemma_board_3()
    ensures
        sane(ranks_3(), 12, 6, 60),
{
    reveal(sane);
    lemma_right_bits();
    let rows = ranks_3();
    lemma_screened(rows, 24, 33, 60);
}

proof fn lemma_game_3(q: Position)
    requires
        fen::parsed(uci::bench_fen(3), q),
    ensures
        searchable(q),
{
    lemma_spelled_3();
    lemma_text_3();
    lemma_board_3();
    lemma_game(ranks_3(), texts_3(), 12, seq![48u8, 32u8, 49u8], 6, 60, q);
}

/// The ranks of position 4.
spec fn ranks_4() -> Seq<Seq<int>> {
    seq![
        seq![3int, 1, 2, 4, 5, 12, 12, 3],
        seq![0int, 0, 0, 12, 1, 7, 0, 0],
        seq![12int, 12, 12, 12, 12, 12, 12, 12],
        seq![12int, 12, 2, 12, 12, 12, 12, 12],
        seq![12int, 12, 12, 12, 12, 12, 12, 12],
        seq![12int, 12, 6, 12, 12, 12, 12, 12],
        seq![6int, 6, 12, 0, 8, 6, 6, 6],
        seq![9int, 7, 8, 10, 12, 11, 12, 9],
    ]
}

/// How they are spelled.
spec fn texts_4() -> Seq<Seq<u8>> {
    seq![
        seq![82u8, 78u8, 66u8, 81u8, 75u8, 50u8, 82u8],
        seq![80u8, 80u8, 80u8, 49u8, 78u8, 110u8, 80u8, 80u8],
        seq![56u8],
        seq![50u8, 66u8, 53u8],
        seq![56u8],
        seq![50u8, 112u8, 53u8],
        seq![112u8, 112u8, 49u8, 80u8, 98u8, 112u8, 112u8, 112u8],
        seq![114u8, 110u8, 98u8, 113u8, 49u8, 107u8, 49u8, 114u8],
    ]
}

#[verifier::rlimit(60)]
proof fn lemma_spelled_4()
    ensures
        spelled(ranks_4(), texts_4()),
{
    reveal(spelled);
    let (rows, texts) = (ranks_4(), texts_4());
    assert forall|r: int| 0 <= r < 8 implies line_text(rows[r], 0, 0) == #[trigger] texts[r] by {
        reveal_with_fuel(line_text, 9);
    }
}

proof fn lemma_text_4()
    ensures
        uci::bench_fen(4) == joined(texts_4()) + fenlaw::plain_tail(
            3,
            seq![49u8, 32u8, 56u8],
        ),
{
    reveal_strlit(
        "rnbq1k1r/pp1Pbppp/2p5/8/2B5/8/PPP1NnPP/RNBQK2R w KQ - 1 8",
    );
    reveal(joined);
    lemma_right_bits();
    lemma_ascii("rnbq1k1r/pp1Pbppp/2p5/8/2B5/8/PPP1NnPP/RNBQK2R w KQ - 1 8");
}

#[verifier::rlimit(60)]
proof fn lemma_board_4()
    ensures
        sane(ranks_4(), 3, 4, 61),
{
    reveal(sane);
    lemma_right_bits();
}

proof fn lemma_game_4(q: Position)
    requires
        fen::parsed(uci::bench_fen(4), q),
    ensures
        searchable(q),
{
    lemma_spelled_4();
    lemma_text_4();
    lemma_board_4();
    lemma_game(ranks_4(), texts_4(), 3, seq![49u8, 32u8, 56u8], 4, 61, q);
}

/// The ranks of position 5.
spec fn ranks_5() -> Seq<Seq<int>> {
    seq![
        seq![3int, 12, 12, 12, 12, 3, 5, 12],
        seq![12int, 0, 0, 12, 4, 0, 0, 0],
        seq![0int, 12, 1, 0, 12, 1, 12, 12],
        seq![12int, 12, 2, 12, 0, 12, 8, 12],
        seq![12int, 12, 8, 12, 6, 12, 2, 12],
        seq![6int, 12, 7, 6, 12, 7, 12, 12],
        seq![12int, 6, 6, 12, 10, 6, 6, 6],
        seq![9int, 12, 12, 12, 12, 9, 11, 12],
    ]
}

/// How they are spelled.
spec fn texts_5() -> Seq<Seq<u8>> {
    seq![
        seq![82u8, 52u8, 82u8, 75u8, 49u8],
        seq![49u8, 80u8, 80u8, 49u8, 81u8, 80u8, 80u8, 80u8],
        seq![80u8, 49u8, 78u8, 80u8, 49u8, 78u8, 50u8],
        seq![50u8, 66u8, 49u8, 80u8, 49u8, 98u8, 49u8],
        seq![50u8, 98u8, 49u8, 112u8, 49u8, 66u8, 49u8],
        seq![112u8, 49u8, 110u8, 112u8, 49u8, 110u8, 50u8],
        seq![49u8, 112u8, 112u8, 49u8, 113u8, 112u8, 112u8, 112u8],
        seq![114u8, 52u8, 114u8, 107u8, 49u8],
    ]
}

#[verifier::rlimit(60)]
proof fn lemma_spelled_5()
    ensures
        spelled(ranks_5(), texts_5()),
{
    reveal(spelled);
    let (rows, texts) = (ranks_5(), texts_5());
    assert forall|r: int| 0 <= r < 8 implies line_text(rows[r], 0, 0) == #[trigger] texts[r] by {
        reveal_with_fuel(line_text, 9);
    }
}

proof fn lemma_text_5()
    ensures
        uci::bench_fen(5) == joined(texts_5()) + fenlaw::plain_tail(
            0,
            seq![48u8, 32u8, 49u8, 48u8],
        ),
{
    reveal_strlit(
        "r4rk1/1pp1qppp/p1np1n2/2b1p1B1/2B1P1b1/P1NP1N2/1PP1QPPP/R4RK1 w - - 0 10",
    );
    reveal(joined);
    lemma_right_bits();
    lemma_ascii("r4rk1/1pp1qppp/p1np1n2/2b1p1B1/2B1P1b1/P1NP1N2/1PP1QPPP/R4RK1 w - - 0 10");
}

#[verifier::rlimit(60)]
proof fn lemma_board_5()
    ensures
        sane(ranks_5(), 0, 6, 62),
{
    reveal(sane);
    lemma_right_bits();
    let rows = ranks_5();
    lemma_screened(rows, 26, 53, 62);
}

proof fn lemma_game_5(q: Position)
    requires
        fen::parsed(uci::bench_fen(5), q),
    ensures
        searchable(q),
{
    lemma_spelled_5();
    lemma_text_5();
    lemma_board_5();
    lemma_game(ranks_5(), texts_5(), 0, seq![48u8, 32u8, 49u8, 48u8], 6, 62, q);
}

/// The ranks of position 6.
spec fn ranks_6() -> Seq<Seq<int>> {
    seq![
        seq![12int, 12, 5, 3, 12, 12, 12, 3],
        seq![0int, 0, 0, 4, 12, 12, 0, 0],
        seq![12int, 2, 1, 12, 2, 0, 12, 12],
        seq![12int, 12, 12, 1, 0, 12, 12, 12],
        seq![12int, 12, 12, 12, 12, 12, 12, 12],
        seq![12int, 12, 7, 6, 12, 7, 6, 12],
        seq![6int, 6, 12, 8, 6, 6, 8, 6],
        seq![12int, 12, 9, 10, 12, 9, 11, 12],
    ]
}

/// How they are spelled.
spec fn texts_6() -> Seq<Seq<u8>> {
    seq![
        seq![50u8, 75u8, 82u8, 51u8, 82u8],
        seq![80u8, 80u8, 80u8, 81u8, 50u8, 80u8, 80u8],
        seq![49u8, 66u8, 78u8, 49u8, 66u8, 80u8, 50u8],
        seq![51u8, 78u8, 80u8, 51u8],
        seq![56u8],
        seq![50u8, 110u8, 112u8, 49u8, 110u8, 112u8, 49u8],
        seq![112u8, 112u8, 49u8, 98u8, 112u8, 112u8, 98u8, 112u8],
        seq![50u8, 114u8, 113u8, 49u8, 114u8, 107u8, 49u8],
    ]
}

#[verifier::rlimit(60)]
proof fn lemma_spelled_6()
    ensures
        spelled(ranks_6(), texts_6()),
{
    reveal(spelled);
    let (rows, texts) = (ranks_6(), texts_6());
    assert forall|r: int| 0 <= r < 8 implies line_text(rows[r], 0, 0) == #[trigger] texts[r] by {
        reveal_with_fuel(line_text, 9);
    }
}

proof fn lemma_text_6()
    ensures
        uci::bench_fen(6) == joined(texts_6()) + fenlaw::plain_tail(
            0,
            seq![48u8, 32u8, 49u8],
        ),
{
    reveal_strlit(
        "2rq1rk1/pp1bppbp/2np1np1/8/3NP3/1BN1BP2/PPPQ2PP/2KR3R w - - 0 1",
    );
    reveal(joined);
    lemma_right_bits();
    lemma_ascii("2rq1rk1/pp1bppbp/2np1np1/8/3NP3/1BN1BP2/PPPQ2PP/2KR3R w - - 0 1");
}

#[verifier::rlimit(60)]
proof fn lemma_board_6()
    ensures
        sane(ranks_6(), 0, 2, 62),
{
    reveal(sane);
    lemma_right_bits();
    let rows = ranks_6();
    lemma_screened(rows, 17, 53, 62);
}

proof fn lemma_game_6(q: Position)
    requires
        fen::parsed(uci::bench_fen(6), q),
    ensures
        searchable(q),
{
    lemma_spelled_6();
    lemma_text_6();
    lemma_board_6();
    lemma_game(ranks_6(), texts_6(), 0, seq![48u8, 32u8, 49u8], 2, 62, q);
}

/// The ranks of position 7.
spec fn ranks_7() -> Seq<Seq<int>> {
    seq![
        seq![12int, 12, 12, 12, 12, 12, 5, 12],
        seq![12int, 12, 12, 12, 12, 12, 6, 12],
        seq![12int, 12, 12, 12, 12, 12, 11, 12],
        seq![12int, 12, 12, 12, 12, 12, 12, 12],
        seq![12int, 12, 12, 12, 12, 12, 12, 12],
        seq![12int, 12, 12, 12, 12, 12, 12, 12],
        seq![12int, 12, 12, 12, 12, 12, 12, 12],
        seq![12int, 12, 12, 12, 12, 12, 12, 12],
    ]
}

/// How they are spelled.
spec fn texts_7() -> Seq<Seq<u8>> {
    seq![
        seq![54u8, 75u8, 49u8],
        seq![54u8, 112u8, 49u8],
        seq![54u8, 107u8, 49u8],
        seq![56u8],
        seq![56u8],
        seq![56u8],
        seq![56u8],
        seq![56u8],
    ]
}

#[verifier::rlimit(60)]
proof fn lemma_spelled_7()
    ensures
        spelled(ranks_7(), texts_7()),
{
    reveal(spelled);
    let (rows, texts) = (ranks_7(), texts_7());
    assert forall|r: int| 0 <= r < 8 implies line_text(rows[r], 0, 0) == #[trigger] texts[r] by {
        reveal_with_fuel(line_text, 9);
    }
}

proof fn lemma_text_7()
    ensures
        uci::bench_fen(7) == joined(texts_7()) + fenlaw::plain_tail(
            0,
            seq![48u8, 32u8, 49u8],
        ),
{
    reveal_strlit(
        "8/8/8/8/8/6k1/6p1/6K1 w - - 0 1",
    );
    reveal(joined);
    lemma_right_bits();
    lemma_ascii("8/8/8/8/8/6k1/6p1/6K1 w - - 0 1");
}

#[verifier::rlimit(60)]
proof fn lemma_board_7()
    ensures
        sane(ranks_7(), 0, 6, 22),
{
    reveal(sane);
    lemma_right_bits();
}

proof fn lemma_game_7(q: Position)
    requires
        fen::parsed(uci::bench_fen(7), q),
    ensures
        searchable(q),
{
    lemma_spelled_7();
    lemma_text_7();
    lemma_board_7();
    lemma_game(ranks_7(), texts_7(), 0, seq![48u8, 32u8, 49u8], 6, 22, q);
}

/// The ranks of position 8.
spec fn ranks_8() -> Seq<Seq<int>> {
    seq![
        seq![12int, 12, 12, 3, 12, 3, 5, 12],
        seq![0int, 0, 4, 12, 12, 0, 0, 12],
        seq![12int, 12, 1, 2, 0, 12, 12, 0],
        seq![12int, 12, 12, 0, 12, 2, 12, 12],
        seq![12int, 12, 12, 6, 12, 12, 12, 12],
        seq![12int, 12, 6, 8, 12, 10, 12, 6],
        seq![6int, 6, 12, 7, 12, 6, 6, 12],
        seq![12int, 12, 12, 12, 9, 9, 11, 12],
    ]
}

/// How they are spelled.
spec fn texts_8() -> Seq<Seq<u8>> {
    seq![
        seq![51u8, 82u8, 49u8, 82u8, 75u8, 49u8],
        seq![80u8, 80u8, 81u8, 50u8, 80u8, 80u8, 49u8],
        seq![50u8, 78u8, 66u8, 80u8, 50u8, 80u8],
        seq![51u8, 80u8, 49u8, 66u8, 50u8],
        seq![51u8, 112u8, 52u8],
        seq![50u8, 112u8, 98u8, 49u8, 113u8, 49u8, 112u8],
        seq![112u8, 112u8, 49u8, 110u8, 49u8, 112u8, 112u8, 49u8],
        seq![52u8, 114u8, 114u8, 107u8, 49u8],
    ]
}

#[verifier::rlimit(60)]
proof fn lemma_spelled_8()
    ensures
        spelled(ranks_8(), texts_8()),
{
    reveal(spelled);
    let (rows, texts) = (ranks_8(), texts_8());
    assert forall|r: int| 0 <= r < 8 implies line_text(rows[r], 0, 0) == #[trigger] texts[r] by {
        reveal_with_fuel(line_text, 9);
    }
}

proof fn lemma_text_8()
    ensures
        uci::bench_fen(8) == joined(texts_8()) + fenlaw::plain_tail(
            0,
            seq![48u8, 32u8, 49u8],
        ),
{
    reveal_strlit(
        "4rrk1/pp1n1pp1/2pb1q1p/3p4/3P1B2/2NBP2P/PPQ2PP1/3R1RK1 w - - 0 1",
    );
    reveal(joined);
    lemma_right_bits();
    lemma_ascii("4rrk1/pp1n1pp1/2pb1q1p/3p4/3P1B2/2NBP2P/PPQ2PP1/3R1RK1 w - - 0 1");
}

#[verifier::rlimit(60)]
proof fn lemma_board_8()
    ensures
        sane(ranks_8(), 0, 6, 62),
{
    reveal(sane);
    lemma_right_bits();
}

proof fn lemma_game_8(q: Position)
    requires
        fen::parsed(uci::bench_fen(8), q),
    ensures
        searchable(q),
{
    lemma_spelled_8();
    lemma_text_8();
    lemma_board_8();
    lemma_game(ranks_8(), texts_8(), 0, seq![48u8, 32u8, 49u8], 6, 62, q);
}

/// The ranks of position 9.
spec fn ranks_9() -> Seq<Seq<int>> {
    seq![
        seq![3int, 12, 12, 12, 5, 12, 12, 3],
        seq![0int, 0, 0, 4, 12, 12, 0, 0],
        seq![12int, 12, 1, 12, 2, 0, 12, 12],
        seq![12int, 12, 2, 1, 0, 12, 12, 12],
        seq![12int, 12, 12, 12, 12, 12, 12, 12],
        seq![12int, 12, 7, 6, 12, 7, 6, 12],
        seq![6int, 6, 12, 12, 6, 6, 8, 6],
        seq![9int, 12, 8, 10, 12, 9, 11, 12],
    ]
}

/// How they are spelled.
spec fn texts_9() -> Seq<Seq<u8>> {
    seq![
        seq![82u8, 51u8, 75u8, 50u8, 82u8],
        seq![80u8, 80u8, 80u8, 81u8, 50u8, 80u8, 80u8],
        seq![50u8, 78u8, 49u8, 66u8, 80u8, 50u8],
        seq![50u8, 66u8, 78u8, 80u8, 51u8],
        seq![56u8],
        seq![50u8, 110u8, 112u8, 49u8, 110u8, 112u8, 49u8],
        seq![112u8, 112u8, 50u8, 112u8, 112u8, 98u8, 112u8],
        seq![114u8, 49u8, 98u8, 113u8, 49u8, 114u8, 107u8, 49u8],
    ]
}

#[verifier::rlimit(60)]
proof fn lemma_spelled_9()
    ensures
        spelled(ranks_9(), texts_9()),
{
    reveal(spelled);
    let (rows, texts) = (ranks_9(), texts_9());
    assert forall|r: int| 0 <= r < 8 implies line_text(rows[r], 0, 0) == #[trigger] texts[r] by {
        reveal_with_fuel(line_text, 9);
    }
}

proof fn lemma_text_9()
    ensures
        uci::bench_fen(9) == joined(texts_9()) + fenlaw::plain_tail(
            3,
            seq![48u8, 32u8, 49u8],
        ),
{
    reveal_strlit(
        "r1bq1rk1/pp2ppbp/2np1np1/8/2BNP3/2N1BP2/PPPQ2PP/R3K2R w KQ - 0 1",
    );
    reveal(joined);
    lemma_right_bits();
    lemma_ascii("r1bq1rk1/pp2ppbp/2np1np1/8/2BNP3/2N1BP2/PPPQ2PP/R3K2R w KQ - 0 1");
}

#[verifier::rlimit(60)]
proof fn lemma_board_9()
    ensures
        sane(ranks_9(), 3, 4, 62),
{
    reveal(sane);
    lemma_right_bits();
    let rows = ranks_9();
    lemma_screened(rows, 26, 53, 62);
}

proof fn lemma_game_9(q: Position)
    requires
        fen::parsed(uci::bench_fen(9), q),
    ensures
        searchable(q),
{
    lemma_spelled_9();
    lemma_text_9();
    lemma_board_9();
    lemma_game(ranks_9(), texts_9(), 3, seq![48u8, 32u8, 49u8], 4, 62, q);
}

/// The ranks of position 10.
spec fn ranks_10() -> Seq<Seq<int>> {
    seq![
        seq![12int, 12, 12, 12, 12, 12, 12, 12],
        seq![12int, 12, 12, 0, 12, 12, 12, 12],
        seq![12int, 12, 12, 12, 12, 12, 12, 12],
        seq![12int, 12, 12, 5, 12, 12, 12, 12],
        seq![12int, 12, 12, 12, 12, 12, 12, 12],
        seq![12int, 12, 12, 12, 12, 12, 12, 12],
        seq![12int, 12, 12, 11, 12, 12, 12, 12],
        seq![12int, 12, 12, 12, 12, 12, 12, 12],
    ]
}

/// How they are spelled.
spec fn texts_10() -> Seq<Seq<u8>> {
    seq![
        seq![56u8],
        seq![51u8, 80u8, 52u8],
        seq![56u8],
        seq![51u8, 75u8, 52u8],
        seq![56u8],
        seq![56u8],
        seq![51u8, 107u8, 52u8],
        seq![56u8],
    ]
}

#[verifier::rlimit(60)]
proof fn lemma_spelled_10()
    ensures
        spelled(ranks_10(), texts_10()),
{
    reveal(spelled);
    let (rows, texts) = (ranks_10(), texts_10());
    assert forall|r: int| 0 <= r < 8 implies line_text(rows[r], 0, 0) == #[trigger] texts[r] by {
        reveal_with_fuel(line_text, 9);
    }
}

proof fn lemma_text_10()
    ensures
        uci::bench_fen(10) == joined(texts_10()) + fenlaw::plain_tail(
            0,
            seq![48u8, 32u8, 49u8],
        ),
{
    reveal_strlit(
        "8/3k4/8/8/3K4/8/3P4/8 w - - 0 1",
    );
    reveal(joined);
    lemma_right_bits();
    lemma_ascii("8/3k4/8/8/3K4/8/3P4/8 w - - 0 1");
}

#[verifier::rlimit(60)]
proof fn lemma_board_10()
    ensures
        sane(ranks_10(), 0, 27, 51),
{
    reveal(sane);
    lemma_right_bits();
}

proof fn lemma_game_10(q: Position)
    requires
        fen::parsed(uci::bench_fen(10), q),
    ensures
        searchable(q),
{
    lemma_spelled_10();
    lemma_text_10();
    lemma_board_10();
    lemma_game(ranks_10(), texts_10(), 0, seq![48u8, 32u8, 49u8], 27, 51, q);
}

/// The ranks of position 11.
spec fn ranks_11() -> Seq<Seq<int>> {
    seq![
        seq![3int, 12, 12, 12, 12, 12, 5, 12],
        seq![12int, 12, 12, 12, 12, 0, 0, 0],
        seq![12int, 12, 12, 12, 12, 12, 12, 12],
        seq![12int, 12, 12, 12, 12, 12, 12, 12],
        seq![12int, 12, 12, 12, 12, 12, 12, 12],
        seq![12int, 12, 12, 12, 12, 12, 12, 12],
        seq![12int, 12, 12, 12, 12, 6, 6, 6],
        seq![12int, 12, 12, 12, 12, 12, 11, 12],
    ]
}

/// How they are spelled.
spec fn texts_11() -> Seq<Seq<u8>> {
    seq![
        seq![82u8, 53u8, 75u8, 49u8],
        seq![53u8, 80u8, 80u8, 80u8],
        seq![56u8],
        seq![56u8],
        seq![56u8],
        seq![56u8],
        seq![53u8, 112u8, 112u8, 112u8],
        seq![54u8, 107u8, 49u8],
    ]
}

#[verifier::rlimit(60)]
proof fn lemma_spelled_11()
    ensures
        spelled(ranks_11(), texts_11()),
{
    reveal(spelled);
    let (rows, texts) = (ranks_11(), texts_11());
    assert forall|r: int| 0 <= r < 8 implies line_text(rows[r], 0, 0) == #[trigger] texts[r] by {
        reveal_with_fuel(line_text, 9);
    }
}

proof fn lemma_text_11()
    ensures
        uci::bench_fen(11) == joined(texts_11()) + fenlaw::plain_tail(
            0,
            seq![48u8, 32u8, 49u8],
        ),
{
    reveal_strlit(
        "6k1/5ppp/8/8/8/8/5PPP/R5K1 w - - 0 1",
    );
    reveal(joined);
    lemma_right_bits();
    lemma_ascii("6k1/5ppp/8/8/8/8/5PPP/R5K1 w - - 0 1");
}

#[verifier::rlimit(60)]
proof fn lemma_board_11()
    ensures
        sane(ranks_11(), 0, 6, 62),
{
    reveal(sane);
    lemma_right_bits();
}

proof fn lemma_game_11(q: Position)
    requires
        fen::parsed(uci::bench_fen(11), q),
    ensures
        searchable(q),
{
    lemma_spelled_11();
    lemma_text_11();
    lemma_board_11();
    lemma_game(ranks_11(), texts_11(), 0, seq![48u8, 32u8, 49u8], 6, 62, q);
}

/// Every position of the benchmark can be searched.
pub proof fn law_the_benchmark_is_playable(i: int, q: Position)
    requires
        0 <= i < 12,
        fen::parsed(uci::bench_fen(i), q),
    ensures
        searchable(q),
{
    if i == 0 {
        lemma_game_0(q);
    } else if i == 1 {
        lemma_game_1(q);
    } else if i == 2 {
        lemma_game_2(q);
    } else if i == 3 {
        lemma_game_3(q);
    } else if i == 4 {
        lemma_game_4(q);
    } else if i == 5 {
        lemma_game_5(q);
    } else if i == 6 {
        lemma_game_6(q);
    } else if i == 7 {
        lemma_game_7(q);
    } else if i == 8 {
        lemma_game_8(q);
    } else if i == 9 {
        lemma_game_9(q);
    } else if i == 10 {
        lemma_game_10(q);
    } else {
        lemma_game_11(q);
    }
}

} // verus!
