use sable::bb;
use sable::bb::{east, file_bb, lsb, more_than_one, pop_lsb, rank_bb, west};
use sable::eval::{evaluate, hand_crafted, INF, MATE, MATE_IN_MAX, TEMPO};
use sable::fen::write_fen;
use sable::infer;
use sable::infer::Net;
use sable::movegen::{generate, gives_check, GenKind, MoveList, Tried};
use sable::moves::{Move, F_DOUBLE, F_QUIET};
use sable::net;
use sable::perft::perft;
use sable::pos::Position;
use sable::see::see_ge;
use sable::tables::{init, Tables};
use sable::tt::{Tt, BOUND_EXACT, BOUND_LOWER, BOUND_NONE, BOUND_UPPER};

const KIWIPETE: &[u8] = b"r3k2r/p1ppqpb1/bn2pnp1/3PN3/1p2P3/2N2Q1p/PPPBBPPP/R3K2R w KQkq - 0 1";

fn pos_from(t: &Tables, fen: &[u8]) -> Position {
    let mut p = Position::empty();
    p.set_fen(t, fen);
    assert!(p.is_wf(t));
    p
}

fn moves(p: &Position, t: &Tables, kind: GenKind) -> Vec<Move> {
    let mut l = MoveList::new();
    generate(p, t, &mut l, kind);
    l.mv[..l.n].to_vec()
}

fn named(p: &Position, t: &Tables, from: usize, to: usize) -> Move {
    *moves(p, t, GenKind::All).iter().find(|m| m.from() == from && m.to() == to).unwrap()
}

// ---------------------------------------------------------------------------
// Sets of squares
// ---------------------------------------------------------------------------

#[test]
fn sets_are_walked_from_below() {
    let mut b = (1u64 << 3) | (1 << 40) | (1 << 63);
    assert!(more_than_one(b));
    assert_eq!(lsb(b), 3);
    assert_eq!((pop_lsb(&mut b), pop_lsb(&mut b), pop_lsb(&mut b)), (3, 40, 63));
    assert_eq!(b, 0);
    assert!(!more_than_one(1 << 17));
}

#[test]
fn sideways_steps_do_not_wrap() {
    assert_eq!(east(bb::FILE_H), 0);
    assert_eq!(west(bb::FILE_A), 0);
    assert_eq!(east(bb::FILE_A), file_bb(1));
    assert_eq!(west(1 << 9), 1 << 8);
    assert_eq!(bb::push(rank_bb(1), 0), rank_bb(2));
    assert_eq!(bb::push(rank_bb(6), 1), rank_bb(5));
    assert_eq!(bb::push(bb::RANK_8, 0), 0);
}

// ---------------------------------------------------------------------------
// Positions
// ---------------------------------------------------------------------------

#[test]
fn broken_positions_are_told_apart() {
    let t = init();
    for fen in [
        // No king, two kings.
        b"8/8/8/8/8/8/8/4K3 w - - 0 1".as_ref(),
        b"4k3/8/8/8/8/8/8/K3K3 w - - 0 1".as_ref(),
        // The side that just moved is in check.
        b"4k3/8/8/8/8/8/8/4RK2 w - - 0 1".as_ref(),
    ] {
        let mut p = Position::empty();
        p.set_fen(&t, fen);
        assert!(!p.is_wf(&t), "{}", String::from_utf8_lossy(fen));
    }
    let mut p = pos_from(&t, KIWIPETE);
    p.key ^= 1;
    assert!(!p.is_wf(&t));
}

#[test]
fn repetition_and_the_fifty_moves_draw() {
    let t = init();
    let mut p = pos_from(&t, b"4k3/8/8/8/8/8/8/R3K3 w - - 0 1");
    for (a, b) in [(0, 1), (60, 61), (1, 0), (61, 60)] {
        let m = named(&p, &t, a, b);
        p.make(&t, m);
    }
    // Nearer than the root, once is a draw.
    assert!(p.is_draw(5));
    assert!(!p.is_draw(4));
    let p = pos_from(&t, b"4k3/8/8/8/8/8/8/R3K3 w - - 100 90");
    assert!(p.is_draw(1));
    let p = pos_from(&t, b"4k3/8/8/8/8/8/8/R3K3 w - - 99 90");
    assert!(!p.is_draw(1));
}

#[test]
fn moves_and_their_undoing_cancel() {
    let t = init();
    let mut p = pos_from(&t, KIWIPETE);
    let q = pos_from(&t, KIWIPETE);
    for m in moves(&q, &t, GenKind::All) {
        p.make(&t, m);
        assert!(p.is_wf(&t));
        assert_ne!(p.key, q.key);
        p.unmake(m);
        assert_eq!((p.key, p.pawn_key, p.np_key, p.castle, p.ep), (q.key, q.pawn_key, q.np_key, q.castle, q.ep));
        assert_eq!((p.piece, p.color, p.mailbox), (q.piece, q.color, q.mailbox));
    }
}

#[test]
fn passing_changes_the_key() {
    let t = init();
    for fen in [KIWIPETE, b"8/8/8/2k5/3Pp3/8/8/4K2B b - d3 0 1"] {
        let mut p = pos_from(&t, fen);
        let key = p.key;
        p.make_null(&t);
        assert_ne!(p.key, key);
        p.unmake_null();
        assert_eq!(p.key, key);
    }
}

#[test]
fn generated_moves_have_no_score() {
    let t = init();
    let p = pos_from(&t, KIWIPETE);
    let mut l = MoveList::new();
    l.push(Move::new(1, 2, F_QUIET));
    l.sc[0] = 7;
    generate(&p, &t, &mut l, GenKind::All);
    assert_eq!(l.n, 48);
    assert!(l.sc.iter().all(|&x| x == 0));
}

#[test]
fn checks_are_foreseen() {
    let t = init();
    for fen in [
        KIWIPETE,
        b"8/2p5/3p4/KP5r/1R3p1k/8/4P1P1/8 w - - 0 1",
        // Castling, taking in passing and promotion can all give check.
        b"5k2/8/8/8/8/8/8/4K2R w K - 0 1",
        b"8/8/8/2k5/3Pp3/8/8/4K2B b - d3 0 1",
        b"5k2/1P6/8/8/8/8/8/4K3 w - - 0 1",
    ] {
        let mut p = pos_from(&t, fen);
        for m in moves(&p, &t, GenKind::All) {
            let said = gives_check(&p, &t, m);
            p.make(&t, m);
            assert_eq!(said, p.in_check());
            p.unmake(m);
        }
    }
    let p = pos_from(&t, b"5k2/8/8/8/8/8/8/4K2R w K - 0 1");
    assert!(gives_check(&p, &t, named(&p, &t, 4, 6)));
}

#[test]
fn texts_of_positions_are_read_back() {
    let t = init();
    let p = pos_from(&t, b"rnbqkbnr/pp1ppppp/8/2p5/4P3/8/PPPP1PPP/RNBQKBNR w KQkq - 12 7");
    let mut buf = [0u8; 96];
    let n = write_fen(&p, &mut buf);
    // The counters are written as at the start of a game.
    assert_eq!(&buf[..n], b"rnbqkbnr/pp1ppppp/8/2p5/4P3/8/PPPP1PPP/RNBQKBNR w KQkq - 0 1".as_ref());
}

#[test]
fn tried_moves_are_kept_in_order() {
    let mut tried = Tried::new();
    for i in 0..64usize {
        tried.push(Move::new(i, 5, F_QUIET));
    }
    assert_eq!(tried.len(), 64);
    assert_eq!(tried.get(63), Move::new(63, 5, F_QUIET));
    tried.clear();
    assert_eq!(tried.len(), 0);
}

#[test]
fn picks_come_in_order() {
    let t = init();
    let p = pos_from(&t, KIWIPETE);
    let mut l = MoveList::new();
    generate(&p, &t, &mut l, GenKind::All);
    for i in 0..l.n {
        l.sc[i] = (i as i32 * 7) % 13;
    }
    let mut last = i32::MAX;
    for i in 0..l.n {
        l.pick(i);
        assert!(l.sc[i] <= last);
        last = l.sc[i];
    }
}

// ---------------------------------------------------------------------------
// Exchanges and evaluation
// ---------------------------------------------------------------------------

#[test]
fn exchanges_have_one_value() {
    let t = init();
    // A queen takes a pawn that a pawn defends: 100 - 975.
    let p = pos_from(&t, b"4k3/8/2p5/3p4/8/8/8/3QK3 w - - 0 1");
    let m = named(&p, &t, 3, 35);
    assert!(see_ge(&p, &t, m, -875));
    assert!(!see_ge(&p, &t, m, -874));
    // A quiet move to a safe square is even.
    let q = named(&p, &t, 4, 12);
    assert!(see_ge(&p, &t, q, 0) && !see_ge(&p, &t, q, 1));
}

#[test]
fn the_start_is_worth_the_move() {
    let t = init();
    let mut p = Position::empty();
    p.set_startpos(&t);
    assert_eq!(hand_crafted(&p, &t), TEMPO);
    let mut n = Net::new();
    assert_eq!(evaluate(&p, &t, &mut n), TEMPO);
}

#[test]
fn scores_have_their_bands() {
    assert_eq!((MATE, MATE_IN_MAX, INF), (32_000, 31_872, 32_500));
}

// ---------------------------------------------------------------------------
// The network
// ---------------------------------------------------------------------------

/// A network whose every neuron holds `bias` and whose output adds `out` for
/// each neuron of the side to move.
fn blob(bias: i16, out: i8, last: i32) -> Vec<u8> {
    let mut b = Vec::new();
    for w in [0x334C_4253u32, 934, 64, 8] {
        b.extend_from_slice(&w.to_le_bytes());
    }
    b.extend(vec![0u8; 59_776]);
    for _ in 0..64 {
        b.extend_from_slice(&bias.to_le_bytes());
    }
    for _ in 0..8 {
        b.extend(vec![out as u8; 64]);
        b.extend(vec![0u8; 64]);
    }
    for _ in 0..8 {
        b.extend_from_slice(&last.to_le_bytes());
    }
    assert_eq!(b.len(), 60_976);
    b
}

#[test]
fn networks_are_loaded_or_left_alone() {
    let mut n = Net::new();
    let good = blob(1, 1, 0);
    infer::init(&mut n, &good[..60_975]);
    assert!(!infer::is_loaded(&n));
    for i in [0usize, 4, 8, 12] {
        let mut bad = good.clone();
        bad[i] ^= 1;
        infer::init(&mut n, &bad);
        assert!(!infer::is_loaded(&n));
    }
    infer::init(&mut n, &good);
    assert!(infer::is_loaded(&n));
    assert_eq!((n.ft_b[63], n.out_w[0], n.out_w[64], n.out_b[7]), (1, 1, 0, 0));
}

#[test]
fn networks_compute_their_sum() {
    let t = init();
    let p = pos_from(&t, KIWIPETE);
    // 64 neurons of 10 times 2, plus 848: 2128 * 400 / 8128.
    let mut n = Net::new();
    infer::init(&mut n, &blob(10, 2, 848));
    assert_eq!(infer::evaluate(&mut n, &t, &p), 104);
    assert_eq!(evaluate(&p, &t, &mut n), 104);
    // A neuron is clipped below at nothing and above at 127.
    let mut n = Net::new();
    infer::init(&mut n, &blob(-300, 2, -8128));
    assert_eq!(infer::evaluate(&mut n, &t, &p), -400);
    let mut n = Net::new();
    infer::init(&mut n, &blob(300, 1, 0));
    assert_eq!(infer::evaluate(&mut n, &t, &p), 400);
    // The score is clipped too.
    let mut n = Net::new();
    infer::init(&mut n, &blob(0, 0, 1_000_000));
    assert_eq!(infer::evaluate(&mut n, &t, &p), 20_000);
}

#[test]
fn answers_are_cached_until_forgotten() {
    let t = init();
    let p = pos_from(&t, KIWIPETE);
    let mut n = Net::new();
    infer::init(&mut n, &blob(10, 2, 848));
    assert_eq!(infer::evaluate(&mut n, &t, &p), 104);
    infer::init(&mut n, &blob(0, 0, -8128));
    assert_eq!(infer::evaluate(&mut n, &t, &p), 104);
    infer::clear_cache(&mut n);
    assert_eq!(infer::evaluate(&mut n, &t, &p), -400);
    let mut erased = 0;
    for _ in 0..255 {
        infer::clear_cache(&mut n);
        if n.cache.iter().all(|&e| e == 0) {
            erased += 1;
            // An erased slot answers for nothing.
            let mut q = p.clone();
            q.key = 7;
            assert_eq!(infer::evaluate(&mut n, &t, &q), -400);
        }
    }
    assert_eq!(erased, 1);
}

#[test]
fn bare_kings_are_even_with_a_network_too() {
    let t = init();
    let p = pos_from(&t, b"8/8/4k3/8/8/3K4/8/8 w - - 0 1");
    let mut n = Net::new();
    infer::init(&mut n, &blob(10, 2, 848));
    assert_eq!(evaluate(&p, &t, &mut n), 0);
}

#[test]
fn features_have_their_rows() {
    let t = init();
    let p = pos_from(&t, b"4k3/8/8/8/8/8/4P3/4K3 w - - 0 1");
    let mut f = [0u16; 96];
    let n = net::features(&p, &t, 0, &mut f);
    let rows: Vec<u16> = f[..n].to_vec();
    // Our pawn on e2, our king on e1, their king on e8.
    for row in [12u16, 5 * 64 + 4, 384 + 5 * 64 + 60] {
        assert!(rows.contains(&row), "{row} not in {rows:?}");
    }
    assert!(rows.iter().all(|&r| r < 934));
    let mut sorted = rows.clone();
    sorted.sort();
    sorted.dedup();
    assert_eq!(sorted.len(), n);
}

#[test]
fn buckets_grow_with_the_pieces() {
    assert_eq!(net::bucket_of(2), 0);
    assert_eq!(net::bucket_of(32), 7);
    for n in 2..32usize {
        assert!(net::bucket_of(n) <= net::bucket_of(n + 1));
    }
}

// ---------------------------------------------------------------------------
// The table
// ---------------------------------------------------------------------------

#[test]
fn an_empty_table_finds_nothing() {
    let mut tt = Tt::new();
    assert!(tt.probe(7, 0).is_none());
    tt.store(7, Move::new(1, 2, F_QUIET), 5, 5, 5, BOUND_EXACT, 0);
    assert!(tt.probe(7, 0).is_none());
    assert_eq!(tt.hashfull(), 0);
}

#[test]
fn mates_are_counted_from_the_node() {
    let mut tt = Tt::new();
    tt.resize(1);
    let key = 0x0F0F_0F0F_1234_4321u64;
    tt.store(key, Move::new(12, 28, F_DOUBLE), MATE - 10, 3, 4, BOUND_LOWER, 6);
    // Four plies from that node, seen from two plies on.
    assert_eq!(tt.probe(key, 2).unwrap().score, MATE - 6);
    tt.store(key, Move::new(12, 28, F_DOUBLE), -MATE + 10, 3, 9, BOUND_UPPER, 6);
    assert_eq!(tt.probe(key, 2).unwrap().score, -MATE + 6);
}

#[test]
fn torn_entries_are_not_found() {
    let mut tt = Tt::new();
    tt.resize(1);
    let key = 0x0F0F_0F0F_1234_4321u64;
    tt.store(key, Move::new(12, 28, F_DOUBLE), 17, 3, 4, BOUND_EXACT, 0);
    let at = tt.mem.iter().position(|&w| w != 0).unwrap();
    tt.mem[at + 1] ^= 1 << 20;
    assert!(tt.probe(key, 0).is_none());
}

#[test]
fn a_bound_of_nothing_is_nothing() {
    let mut tt = Tt::new();
    tt.resize(1);
    tt.store(99, Move::new(12, 28, F_DOUBLE), 17, 3, 4, BOUND_NONE, 0);
    assert!(tt.probe(99, 0).is_none());
}

#[test]
fn fullness_is_counted_in_permille() {
    let mut tt = Tt::new();
    tt.resize(1);
    // One entry in each of the first hundred clusters.
    for i in 0..100u64 {
        tt.store((i << 50) | i, Move::new(1, 2, F_QUIET), 0, 0, 1, BOUND_EXACT, 0);
    }
    assert_eq!(tt.hashfull(), 25);
    // They belong to the last search once a new one begins.
    tt.new_search();
    assert_eq!(tt.hashfull(), 0);
}

// ---------------------------------------------------------------------------
// Counting
// ---------------------------------------------------------------------------

#[test]
fn branches_add_up() {
    let t = init();
    let mut p = pos_from(&t, KIWIPETE);
    let whole = perft(&mut p, &t, 3);
    let mut sum = 0;
    for m in moves(&pos_from(&t, KIWIPETE), &t, GenKind::All) {
        p.make(&t, m);
        sum += perft(&mut p, &t, 2);
        p.unmake(m);
    }
    assert_eq!((whole, sum), (97_862, 97_862));
}

#[test]
fn thresholds_have_no_limits() {
    let t = init();
    let p = pos_from(&t, b"4k3/8/8/3p4/4P3/8/8/4K3 w - - 0 1");
    let m = named(&p, &t, 28, 35);
    assert!(see_ge(&p, &t, m, i32::MIN) && see_ge(&p, &t, m, 100));
    assert!(!see_ge(&p, &t, m, i32::MAX) && !see_ge(&p, &t, m, 101));
}

#[test]
fn a_clock_comes_round() {
    let t = init();
    let mut p = pos_from(&t, b"4k3/8/8/8/8/8/8/4K2R w - - 65535 1");
    let m = named(&p, &t, 7, 6);
    p.make(&t, m);
    assert_eq!(p.halfmove, 0);
    p.unmake(m);
    assert_eq!(p.halfmove, 65_535);
}

#[test]
fn any_score_can_be_stored() {
    let mut tt = Tt::new();
    tt.resize(1);
    tt.store(5, Move(77), i32::MAX, i32::MIN, i32::MAX, BOUND_EXACT, 3);
    let h = tt.probe(5, 3).unwrap();
    // The score is cut to sixteen bits; the rest is clamped.
    assert_eq!((h.mv, h.score, h.eval, h.depth, h.bound), (Move(77), 2, -32_000, 127, BOUND_EXACT));
    tt.store(5, Move(0), i32::MIN, 0, i32::MIN, BOUND_LOWER, 0);
    assert_eq!(tt.probe(5, i32::MAX as usize).unwrap().mv, Move(77));
}
