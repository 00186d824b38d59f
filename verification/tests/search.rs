use sable::host::{Alone, Console, Wire};
use sable::eval::{MATE, MATE_IN_MAX};
use sable::io::Out;
use sable::mind::{ln1024, pc_index, Limits, Searcher};
use sable::movegen::{generate, GenKind, MoveList};
use sable::moves::Move;
use sable::pos::Position;
use sable::tables::{init, Tables};
use sable::think::{clear_all, go_threaded};

/// A host that keeps what it is shown and whose clock ticks when it is asked.
struct Desk {
    shown: Vec<u8>,
    clock: u64,
    tick: u64,
    halt_after: u32,
}

impl Desk {
    fn new() -> Wire<Desk> {
        Wire::new(Desk { shown: Vec::new(), clock: 0, tick: 0, halt_after: u32::MAX })
    }

    fn text(&self) -> String {
        String::from_utf8(self.shown.clone()).unwrap()
    }
}

impl Console for Desk {
    fn now_ms(&mut self) -> u64 {
        self.clock += self.tick;
        self.clock
    }

    fn interrupted(&mut self) -> bool {
        if self.halt_after == 0 {
            return true;
        }
        self.halt_after -= 1;
        false
    }

    fn rearm(&mut self) {}

    fn show(&mut self, text: &Vec<u8>) {
        self.shown.extend_from_slice(text);
    }
}

fn pos_from(t: &Tables, fen: &[u8]) -> Position {
    let mut p = Position::empty();
    p.set_fen(t, fen);
    assert!(p.is_wf(t));
    p
}

fn searcher() -> Searcher {
    let mut s = Searcher::new();
    s.init_defaults(0);
    s.init_tables();
    s.tt.resize(1);
    s
}

fn legal(p: &Position, t: &Tables, m: Move) -> bool {
    let mut l = MoveList::new();
    generate(p, t, &mut l, GenKind::All);
    (0..l.n).any(|i| l.mv[i] == m)
}

#[test]
fn a_mate_in_one_is_found_and_reported() {
    let t = init();
    let mut p = pos_from(&t, b"6k1/5ppp/8/8/8/8/5PPP/R5K1 w - - 0 1");
    let mut s = searcher();
    s.limits.depth = 4;
    let mut out = Out::new();
    let mut desk = Desk::new();
    s.go(&mut p, &t, &mut out, &mut desk);
    assert_eq!((s.best.from(), s.best.to()), (0, 56));
    assert_eq!(s.best_score, MATE - 1);
    let text = desk.console.text();
    assert!(text.contains("score mate 1 "), "{text}");
    assert!(text.ends_with("bestmove a1a8\n"), "{text}");
    assert!(text.starts_with("info depth 1 seldepth "), "{text}");
}

#[test]
fn being_mated_next_is_a_negative_mate() {
    let t = init();
    // Black to move cannot stop the back-rank mate.
    let mut p = pos_from(&t, b"7k/6pp/8/8/8/8/R4PPP/1R4K1 b - - 0 1");
    let mut s = searcher();
    s.limits.depth = 5;
    let mut out = Out::new();
    let mut desk = Desk::new();
    s.go(&mut p, &t, &mut out, &mut desk);
    assert!(s.best_score > -MATE && legal(&p, &t, s.best));
}

#[test]
fn a_mated_root_has_no_best_move() {
    let t = init();
    let mut p = pos_from(&t, b"R5k1/5ppp/8/8/8/8/5PPP/6K1 b - - 0 1");
    let mut s = searcher();
    let mut out = Out::new();
    let mut desk = Desk::new();
    s.go(&mut p, &t, &mut out, &mut desk);
    assert!(s.best.is_null());
    assert_eq!(desk.console.text(), "bestmove 0000\n");
}

#[test]
fn a_stalemated_root_has_no_best_move_and_silence_is_kept() {
    let t = init();
    let mut p = pos_from(&t, b"7k/5Q2/6K1/8/8/8/8/8 b - - 0 1");
    let mut s = searcher();
    s.silent = true;
    let mut out = Out::new();
    let mut desk = Desk::new();
    s.go(&mut p, &t, &mut out, &mut desk);
    assert!(s.best.is_null());
    assert_eq!(desk.console.text(), "");
}

#[test]
fn dead_material_scores_zero() {
    let t = init();
    let mut p = pos_from(&t, b"8/8/4k3/8/5B2/3K4/8/8 w - - 0 1");
    let mut s = searcher();
    s.silent = true;
    s.limits.depth = 3;
    s.go(&mut p, &t, &mut Out::new(), &mut Alone::new());
    assert_eq!(s.best_score, 0);
    assert!(legal(&p, &t, s.best));
}

#[test]
fn a_search_leaves_the_position_as_it_was() {
    let t = init();
    let fen = b"r3k2r/p1ppqpb1/bn2pnp1/3PN3/1p2P3/2N2Q1p/PPPBBPPP/R3K2R w KQkq - 0 1";
    let mut p = pos_from(&t, fen);
    let q = pos_from(&t, fen);
    let mut s = searcher();
    s.silent = true;
    s.limits.depth = 6;
    s.go(&mut p, &t, &mut Out::new(), &mut Alone::new());
    assert_eq!(p.piece, q.piece);
    assert_eq!(p.color, q.color);
    assert_eq!(p.mailbox, q.mailbox);
    assert_eq!((p.key, p.pawn_key, p.np_key), (q.key, q.pawn_key, q.np_key));
    assert_eq!((p.castle, p.ep, p.halfmove, p.ply), (q.castle, q.ep, q.halfmove, 0));
    assert_eq!((p.hist_len, p.checkers), (q.hist_len, q.checkers));
    assert!(p.is_wf(&t));
    assert!(legal(&p, &t, s.best));
}

#[test]
fn equal_searches_give_equal_results() {
    let t = init();
    let fen = b"r4rk1/1pp1qppp/p1np1n2/2b1p1B1/2B1P1b1/P1NP1N2/1PP1QPPP/R4RK1 w - - 0 10";
    let mut runs = Vec::new();
    for _ in 0..2 {
        let mut p = pos_from(&t, fen);
        let mut s = searcher();
        s.silent = true;
        s.limits.depth = 7;
        s.go(&mut p, &t, &mut Out::new(), &mut Alone::new());
        runs.push((s.best, s.best_score, s.nodes));
    }
    assert_eq!(runs[0], runs[1]);
}

#[test]
fn equal_budgets_end_at_the_same_place() {
    let t = init();
    let fen = b"r4rk1/1pp1qppp/p1np1n2/2b1p1B1/2B1P1b1/P1NP1N2/1PP1QPPP/R4RK1 w - - 0 10";
    for limit in [50u64, 3000, 20_000] {
        let mut runs = Vec::new();
        for _ in 0..2 {
            let mut p = pos_from(&t, fen);
            let mut s = searcher();
            s.silent = true;
            s.limits.nodes = limit;
            s.go(&mut p, &t, &mut Out::new(), &mut Alone::new());
            assert!(s.stop && s.nodes == limit);
            runs.push((s.best, s.best_score));
        }
        assert_eq!(runs[0], runs[1]);
    }
}

#[test]
fn cleared_searchers_repeat_each_other() {
    let t = init();
    let mut runs = Vec::new();
    for past in [0, 1, 4] {
        let mut s = searcher();
        s.silent = true;
        // Different pasts.
        for _ in 0..past {
            let mut q = pos_from(&t, b"8/2p5/3p4/KP5r/1R3p1k/8/4P1P1/8 w - - 0 1");
            s.limits.depth = 5;
            s.go(&mut q, &t, &mut Out::new(), &mut Alone::new());
        }
        s.tt.clear();
        s.clear();
        for (depth, nodes) in [(6, u64::MAX), (100, 5000)] {
            s.limits.depth = depth;
            s.limits.nodes = nodes;
            let mut p = pos_from(&t, b"r3k2r/p1ppqpb1/bn2pnp1/3PN3/1p2P3/2N2Q1p/PPPBBPPP/R3K2R w KQkq - 0 1");
            s.go(&mut p, &t, &mut Out::new(), &mut Alone::new());
            runs.push((past == 0, s.best, s.best_score, s.nodes));
        }
    }
    for i in 0..2 {
        let (_, best, score, nodes) = runs[i];
        for j in [i + 2, i + 4] {
            assert_eq!((runs[j].1, runs[j].2, runs[j].3), (best, score, nodes));
        }
    }
}

#[test]
fn a_mate_ends_the_deepening() {
    let t = init();
    let mut p = pos_from(&t, b"6k1/5ppp/8/8/8/8/5PPP/R5K1 w - - 0 1");
    let mut s = searcher();
    s.limits.depth = 50;
    let mut desk = Desk::new();
    s.go(&mut p, &t, &mut Out::new(), &mut desk);
    let text = desk.console.text();
    assert!(text.contains("info depth 4 ") && !text.contains("info depth 5 "), "{text}");
    assert!(!s.stop);
}

#[test]
fn a_hanging_queen_is_taken() {
    let t = init();
    let mut p = pos_from(&t, b"3q4/8/8/6k1/8/8/8/3RK3 w - - 0 1");
    let mut s = searcher();
    s.silent = true;
    s.limits.depth = 5;
    s.go(&mut p, &t, &mut Out::new(), &mut Alone::new());
    assert_eq!((s.best.from(), s.best.to()), (3, 59));
    assert!(s.best_score > 200);
}

#[test]
fn a_node_limit_lands_on_the_node() {
    let t = init();
    for limit in [1u64, 100, 1500] {
        let mut p = pos_from(&t, b"rnbqkbnr/pppppppp/8/8/8/8/PPPPPPPP/RNBQKBNR w KQkq - 0 1");
        let mut s = searcher();
        s.silent = true;
        s.limits.nodes = limit;
        s.go(&mut p, &t, &mut Out::new(), &mut Alone::new());
        assert_eq!(s.nodes, limit);
        assert!(s.stop);
        assert!(legal(&p, &t, s.best));
    }
}

#[test]
fn a_depth_limit_of_nothing_searches_nothing() {
    let t = init();
    let mut p = pos_from(&t, b"rnbqkbnr/pppppppp/8/8/8/8/PPPPPPPP/RNBQKBNR w KQkq - 0 1");
    let mut s = searcher();
    s.limits.depth = 0;
    let mut desk = Desk::new();
    s.go(&mut p, &t, &mut Out::new(), &mut desk);
    assert_eq!(s.nodes, 0);
    assert!(legal(&p, &t, s.best));
    assert!(desk.console.text().starts_with("bestmove "));
}

#[test]
fn a_controller_stops_an_infinite_search() {
    let t = init();
    let mut p = pos_from(&t, b"rnbqkbnr/pppppppp/8/8/8/8/PPPPPPPP/RNBQKBNR w KQkq - 0 1");
    let mut s = searcher();
    s.limits.infinite = true;
    let mut desk = Desk::new();
    desk.console.halt_after = 3;
    s.go(&mut p, &t, &mut Out::new(), &mut desk);
    assert!(s.stop);
    assert_eq!(s.nodes, 3072);
    assert!(desk.console.text().contains("bestmove "));

    // The next search starts afresh.
    s.limits = Limits::new();
    s.limits.depth = 2;
    let mut again = Desk::new();
    s.go(&mut p, &t, &mut Out::new(), &mut again);
    assert!(!s.stop);
    assert!(again.console.text().contains("info depth 2 "));
}

#[test]
fn a_clock_stops_a_search() {
    let t = init();
    let mut p = pos_from(&t, b"rnbqkbnr/pppppppp/8/8/8/8/PPPPPPPP/RNBQKBNR w KQkq - 0 1");
    let mut s = searcher();
    s.limits.movetime = 75;
    let mut desk = Desk::new();
    desk.console.tick = 10;
    s.go(&mut p, &t, &mut Out::new(), &mut desk);
    assert!(legal(&p, &t, s.best));
    assert_eq!((s.soft, s.hard), (50, 50));
    assert!(desk.console.clock <= 100);
}

#[test]
fn time_is_shared_out() {
    let mut s = searcher();
    s.move_overhead = 25;
    // A fortieth of what is left, and three quarters of the increment.
    s.limits.time = [60_025, 10_025];
    s.limits.inc = [1000, 0];
    s.set_clocks(500, 0);
    assert_eq!((s.start, s.soft, s.hard), (500, 2250, 9000));
    // With a move count, a share of that.
    s.limits.movestogo = 5;
    s.set_clocks(0, 1);
    assert_eq!((s.soft, s.hard), (2000, 7500));
    // A few milliseconds are still something.
    s.limits.time = [20, 20];
    s.limits.inc = [0, 0];
    s.set_clocks(0, 0);
    assert_eq!((s.soft, s.hard), (1, 1));
    // No clock, no limit.
    s.limits.time = [0, 0];
    s.set_clocks(0, 0);
    assert_eq!((s.soft, s.hard), (u64::MAX, u64::MAX));
    // A fixed time, less the overhead.
    s.limits.movetime = 10;
    s.set_clocks(0, 0);
    assert_eq!((s.soft, s.hard), (1, 1));
}

#[test]
fn limits_have_their_defaults() {
    let l = Limits::new();
    assert_eq!((l.depth, l.nodes, l.movetime, l.movestogo, l.infinite), (100, u64::MAX, 0, 0, false));
    let z = Limits::zeroed();
    assert_eq!((z.depth, z.nodes, z.time, z.inc), (0, 0, [0, 0], [0, 0]));
}

#[test]
fn reductions_grow_with_depth_and_move_number() {
    let s = searcher();
    assert_eq!(s.lmr[0], 0);
    assert_eq!(s.lmr[64 + 1], 790);
    // ln 2 is 709/1024 here: 790 + 709 * 709 / 2417.
    assert_eq!(s.lmr[2 * 64 + 2], 997);
    for d in 2..64 {
        for m in 2..64 {
            assert!(s.lmr[d * 64 + m] >= s.lmr[(d - 1) * 64 + m]);
            assert!(s.lmr[d * 64 + m] >= s.lmr[d * 64 + m - 1]);
        }
    }
}

#[test]
fn the_logarithm_is_close() {
    assert_eq!((ln1024(0), ln1024(1), ln1024(2), ln1024(3)), (0, 0, 709, 1122));
    for x in [3u32, 5, 63, 1000, 123_456_789, u32::MAX] {
        let exact = (x as f64).ln() * 1024.0;
        let err = (ln1024(x) as f64 - exact).abs() / exact;
        assert!(err < 0.01, "{x}: {err}");
    }
}

#[test]
fn clearing_forgets_what_was_learned() {
    let t = init();
    let mut p = pos_from(&t, b"r3k2r/p1ppqpb1/bn2pnp1/3PN3/1p2P3/2N2Q1p/PPPBBPPP/R3K2R w KQkq - 0 1");
    let mut s = searcher();
    s.silent = true;
    s.limits.depth = 6;
    s.go(&mut p, &t, &mut Out::new(), &mut Alone::new());
    assert!(s.history.iter().any(|&x| x != 0));
    assert!(s.history.iter().all(|&x| -16_384 <= x && x <= 16_384));
    assert!(s.corr_pawn.iter().all(|&x| -12_288 <= x && x <= 12_288));
    clear_all(&mut s, 4);
    assert!(s.history.iter().all(|&x| x == 0));
    assert!(s.cont.iter().all(|&x| x == 0));
    assert!(s.killers.iter().all(|x| x.is_null()));
}

#[test]
fn a_threaded_search_is_a_search() {
    let t = init();
    let mut p = pos_from(&t, b"6k1/5ppp/8/8/8/8/5PPP/R5K1 w - - 0 1");
    let mut s = searcher();
    s.silent = true;
    s.limits.depth = 4;
    go_threaded(&mut s, &mut p, &t, &mut Out::new(), &mut Alone::new(), 4);
    assert_eq!((s.best.from(), s.best.to()), (0, 56));
    assert!(s.best_score >= MATE_IN_MAX);
    assert_eq!(s.threads, 1);
}

#[test]
fn pieces_have_their_index() {
    assert_eq!(pc_index(0, 0), 0);
    assert_eq!(pc_index(1, 4), 10);
    assert_eq!(pc_index(1, 6), 11);
}

#[test]
fn corrections_are_nudges() {
    let t = init();
    let p = pos_from(&t, b"rnbqkbnr/pppppppp/8/8/8/8/PPPPPPPP/RNBQKBNR w KQkq - 0 1");
    let mut s = searcher();
    assert_eq!(s.corrected_eval(&p, 0, 100), 100);
    // One lesson: 256 centipawns short, at a depth of 15.
    s.update_corr(&p, 0, 300, 15);
    // Each table holds 256 * 256 * 16 / 256; the pawn table counts half again.
    assert_eq!(s.corrected_eval(&p, 0, 100), 100 + (4096 * 3 / 2 + 4096) / 512);
    for _ in 0..200 {
        s.update_corr(&p, 0, 300, 15);
    }
    assert_eq!(s.corrected_eval(&p, 0, 100), 160);
    assert_eq!(s.corrected_eval(&p, 0, 40_000), MATE_IN_MAX - 1);
    assert_eq!(s.corrected_eval(&p, 0, i32::MAX), MATE_IN_MAX - 1);
    assert_eq!(s.corrected_eval(&p, 0, i32::MIN), 1 - MATE_IN_MAX);
}
