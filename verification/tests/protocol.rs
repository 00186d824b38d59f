use sable::host::{Console, Wire};
use sable::datagen::{random_move, Generator, Rng, Seen};
use sable::input::InBuf;
use sable::io::{move_str, Out};
use sable::moves::{Move, F_CAPTURE, F_PROMO};
use sable::place::find_move;
use sable::pos::Position;
use sable::tables::init;
use sable::text::{parse_u64, same, to_i32, Tokens};
use sable::uci::{Engine, Next};

struct Desk {
    shown: Vec<u8>,
}

impl Desk {
    fn new() -> Wire<Desk> {
        Wire::new(Desk { shown: Vec::new() })
    }

    fn take(&mut self) -> String {
        String::from_utf8(std::mem::take(&mut self.shown)).unwrap()
    }
}

impl Console for Desk {
    fn now_ms(&mut self) -> u64 {
        0
    }

    fn interrupted(&mut self) -> bool {
        false
    }

    fn rearm(&mut self) {}

    fn show(&mut self, text: &Vec<u8>) {
        self.shown.extend_from_slice(text);
    }
}

fn ask(e: &mut Engine, d: &mut Wire<Desk>, line: &str) -> (Next, String) {
    let next = e.command(line.as_bytes(), d);
    e.out.flush(d);
    (next, d.console.take())
}

// ---------------------------------------------------------------------------
// Text
// ---------------------------------------------------------------------------

#[test]
fn numbers_are_written_and_read_back() {
    let mut d = Desk::new();
    let mut o = Out::new();
    for v in [0u64, 7, 10, 909, 18_446_744_073_709_551_615] {
        o.u(v);
        o.flush(&mut d);
        let text = d.console.take();
        assert_eq!(text, v.to_string());
        assert_eq!(parse_u64(text.as_bytes()), v);
    }
    for v in [0i64, -1, 42, i64::MIN, i64::MAX] {
        o.i(v);
        o.flush(&mut d);
        assert_eq!(d.console.take(), v.to_string());
    }
}

#[test]
fn output_chains_and_keeps_order() {
    let mut d = Desk::new();
    let mut o = Out::new();
    o.s(b"ab").c(b'-').u(12).say(" x").nl(&mut d);
    assert_eq!(d.console.take(), "ab-12 x\n");
    // A piece is cut to what the buffer can hold.
    let long = vec![b'z'; 9000];
    o.s(&long);
    o.flush(&mut d);
    assert_eq!(d.console.take().len(), 8192);
}

#[test]
fn numbers_pass_over_what_is_no_digit() {
    assert_eq!(parse_u64(b"12a3"), 123);
    assert_eq!(parse_u64(b"-5"), 5);
    assert_eq!(parse_u64(b""), 0);
    // Too long for sixty-four bits.
    assert_eq!(parse_u64(b"18446744073709551617"), 1);
    assert_eq!(to_i32(4_294_967_295), -1);
    assert_eq!(to_i32(2_147_483_647), i32::MAX);
}

#[test]
fn words_are_split_at_blanks_and_end_at_zero() {
    let mut t = Tokens::new(b"  go  depth\r 7\0 never");
    assert_eq!(t.next(), Some(b"go".as_ref()));
    assert_eq!(t.next(), Some(b"depth".as_ref()));
    assert_eq!(t.next(), Some(b"7".as_ref()));
    assert_eq!(t.next(), None);
    assert_eq!(t.next(), None);
    assert!(same(b"abc", b"abc") && !same(b"abc", b"abd") && !same(b"ab", b"abc"));
}

#[test]
fn moves_have_their_text() {
    let mut buf = [0u8; 6];
    let n = move_str(Move::new(12, 28, 1), &mut buf);
    assert_eq!(&buf[..n], b"e2e4");
    let n = move_str(Move::new(52, 61, F_PROMO | F_CAPTURE | 3), &mut buf);
    assert_eq!(&buf[..n], b"e7f8q");
    let n = move_str(Move::new(48, 56, F_PROMO), &mut buf);
    assert_eq!(&buf[..n], b"a7a8n");
}

#[test]
fn texts_name_moves() {
    let t = init();
    let mut p = Position::empty();
    p.set_fen(&t, b"r3k2r/8/8/3pP3/8/8/8/R3K2R w KQkq d6 0 1");
    assert!(p.is_wf(&t));
    assert!(find_move(&p, &t, b"e1g1").is_castle());
    assert!(find_move(&p, &t, b"e5d6").is_ep());
    assert!(find_move(&p, &t, b"e5e7").is_null());
    assert!(find_move(&p, &t, b"nonsense").is_null());
}

// ---------------------------------------------------------------------------
// Commands
// ---------------------------------------------------------------------------

#[test]
fn the_protocol_is_answered() {
    let mut e = Engine::new("the Sable authors");
    let mut d = Desk::new();
    let (next, text) = ask(&mut e, &mut d, "uci");
    assert_eq!(next, Next::Again);
    assert_eq!(
        text,
        "id name Sable 1.2\nid author the Sable authors\n\
         option name Hash type spin default 64 min 1 max 4096\n\
         option name Threads type spin default 1 min 1 max 1\nuciok\n"
    );
    assert_eq!(ask(&mut e, &mut d, "isready\r"), (Next::Again, "readyok\n".to_string()));
    assert_eq!(ask(&mut e, &mut d, ""), (Next::Again, String::new()));
    assert_eq!(ask(&mut e, &mut d, "unheard of"), (Next::Again, String::new()));
    assert_eq!(ask(&mut e, &mut d, "quit").0, Next::Quit);
}

#[test]
fn positions_are_set_up_from_text() {
    let mut e = Engine::new("the Sable authors");
    let mut d = Desk::new();
    assert_eq!(ask(&mut e, &mut d, "position startpos moves e2e4 e7e5 g1f3").0, Next::Again);
    assert_eq!((e.pos.stm, e.pos.hist_len, e.pos.root_ply, e.pos.ply), (1, 4, 4, 0));
    // The first word that names no move ends the list.
    ask(&mut e, &mut d, "position startpos moves e2e4 e2e4 e7e5");
    assert_eq!((e.pos.stm, e.pos.hist_len), (1, 2));
    ask(&mut e, &mut d, "position fen 4k3/8/8/8/8/8/8/4K2R w K - 5 9 moves e1g1");
    assert_eq!(e.pos.piece_at(5), 3);
    assert_eq!((e.pos.castle, e.pos.halfmove), (0, 6));
    // Fields that are missing take their defaults.
    ask(&mut e, &mut d, "position fen 4k3/8/8/8/8/8/8/4K3 b");
    assert_eq!((e.pos.stm, e.pos.castle, e.pos.ep), (1, 0, 64));
    // A board without kings can be shown but not played.
    assert_eq!(ask(&mut e, &mut d, "position fen 8/8/8/8/8/8/8/8 w - - 0 1").0, Next::Again);
    assert_eq!(ask(&mut e, &mut d, "d").0, Next::Again);
    assert_eq!(ask(&mut e, &mut d, "go depth 1").0, Next::Fault);
    assert_eq!(ask(&mut e, &mut d, "eval").0, Next::Fault);
    assert_eq!(ask(&mut e, &mut d, "perft 1").0, Next::Fault);
    let next = ask(&mut e, &mut d, "position fen 8/8/8/8/8/8/8/8 w - - 0 1 moves e2e4").0;
    assert_eq!(next, Next::Fault);
}

#[test]
fn a_long_game_and_an_old_clock_are_played_on() {
    let mut e = Engine::new("somebody");
    let mut d = Desk::new();
    let mut line = String::from("position startpos moves");
    for _ in 0..1010 {
        line.push_str(" g1f3 g8f6 f3g1 f6g8");
    }
    assert_eq!(ask(&mut e, &mut d, &line).0, Next::Again);
    assert_eq!(e.pos.hist_len, 4041);
    let (next, text) = ask(&mut e, &mut d, "go depth 2");
    assert_eq!(next, Next::Again);
    assert!(text.contains("bestmove "));
    assert_eq!(ask(&mut e, &mut d, "perft 2").0, Next::Again);
    // There is room for so many moves and no more.
    for _ in 0..14 {
        line.push_str(" g1f3 g8f6 f3g1 f6g8");
    }
    assert_eq!(ask(&mut e, &mut d, &line).0, Next::Fault);
    ask(&mut e, &mut d, "position fen 4k3/8/8/8/8/8/8/4K2R w - - 65534 1");
    let (next, text) = ask(&mut e, &mut d, "go depth 3");
    assert_eq!(next, Next::Again);
    assert!(text.contains("bestmove "));
}

#[test]
fn deep_counts_end_where_the_game_does() {
    let mut e = Engine::new("somebody");
    let mut d = Desk::new();
    // Stalemate, however deep the count.
    ask(&mut e, &mut d, "position fen 8/8/8/8/8/4k3/4p3/4K3 w - - 0 1");
    assert_eq!(ask(&mut e, &mut d, "perft 2000"), (Next::Again, "nodes 0 time 0 nps 0\n".to_string()));
    // A line that is too long is not counted.
    ask(&mut e, &mut d, "position startpos");
    assert_eq!(ask(&mut e, &mut d, "perft 2000"), (Next::Fault, String::new()));
}

#[test]
fn counts_are_divided() {
    let mut e = Engine::new("the Sable authors");
    let mut d = Desk::new();
    ask(&mut e, &mut d, "position fen 8/8/8/8/8/4k3/4p3/4K3 w - - 0 1");
    // Stalemate: nothing to count.
    let (_, text) = ask(&mut e, &mut d, "perft 3");
    assert_eq!(text, "nodes 0 time 0 nps 0\n");
    ask(&mut e, &mut d, "position fen 7k/8/8/8/8/8/8/K7 w - - 0 1");
    let (_, text) = ask(&mut e, &mut d, "go perft 2");
    assert_eq!(text, "a1b1: 3\na1a2: 3\na1b2: 3\nnodes 9 time 0 nps 9000\n");
    let (_, text) = ask(&mut e, &mut d, "perft");
    assert_eq!(text, "a1b1: 1\na1a2: 1\na1b2: 1\nnodes 3 time 0 nps 3000\n");
}

#[test]
fn a_board_is_shown() {
    let mut e = Engine::new("the Sable authors");
    let mut d = Desk::new();
    let (_, text) = ask(&mut e, &mut d, "d");
    let lines: Vec<&str> = text.lines().collect();
    assert_eq!(lines.len(), 19);
    assert_eq!(lines[0], " +---+---+---+---+---+---+---+---+");
    assert_eq!(lines[1], " | r | n | b | q | k | b | n | r | 8");
    assert_eq!(lines[5], " |   |   |   |   |   |   |   |   | 6");
    assert_eq!(lines[15], " | R | N | B | Q | K | B | N | R | 1");
    assert_eq!(lines[17], "   a   b   c   d   e   f   g   h");
    assert_eq!(lines[18], format!("key {}", e.pos.key));
}

#[test]
fn evaluations_are_said() {
    let mut e = Engine::new("the Sable authors");
    let mut d = Desk::new();
    // The start is equal but for the move.
    let (_, text) = ask(&mut e, &mut d, "evalhce");
    assert_eq!(ask(&mut e, &mut d, "eval").1, text);
    ask(&mut e, &mut d, "position fen 8/8/4k3/8/5N2/3K4/8/8 b - - 0 1");
    assert_eq!(ask(&mut e, &mut d, "eval").1, "eval 0\n");
    assert_eq!(ask(&mut e, &mut d, "evalhce").1, "eval 0\n");
}

#[test]
fn searches_obey_their_limits() {
    let mut e = Engine::new("the Sable authors");
    let mut d = Desk::new();
    let (next, text) = ask(&mut e, &mut d, "go depth 3");
    assert_eq!(next, Next::Again);
    assert!(text.contains("info depth 3 ") && !text.contains("info depth 4 "));
    assert!(text.lines().last().unwrap().starts_with("bestmove "));
    ask(&mut e, &mut d, "go wtime 1000 btime 2000 winc 3 binc 4 movestogo 5 nodes 50 infinite");
    let l = e.s.limits;
    assert_eq!((l.time, l.inc, l.movestogo, l.nodes, l.infinite), ([1000, 2000], [3, 4], 5, 50, true));
    assert_eq!(e.s.nodes, 50);
}

#[test]
fn options_are_set() {
    let mut e = Engine::new("the Sable authors");
    let mut d = Desk::new();
    ask(&mut e, &mut d, "setoption name Hash value 1");
    assert_eq!(e.s.tt.clusters, 16_384);
    ask(&mut e, &mut d, "setoption name Hash value 3");
    assert_eq!(e.s.tt.clusters, 32_768);
    ask(&mut e, &mut d, "setoption name Hash");
    assert_eq!(e.s.tt.clusters, 16_384);
    ask(&mut e, &mut d, "setoption name Threads value 8");
    assert_eq!((e.s.threads, e.s.tt.clusters), (1, 16_384));
    ask(&mut e, &mut d, "setoption name Move Overhead value 100");
    assert_eq!(e.s.move_overhead, 100);
    e.s.silent = true;
    ask(&mut e, &mut d, "go depth 4");
    assert!(e.s.tt.hashfull() > 0);
    ask(&mut e, &mut d, "setoption name Clear Hash");
    assert_eq!(e.s.tt.hashfull(), 0);
}

#[test]
fn a_new_game_forgets_the_last_one() {
    let mut e = Engine::new("the Sable authors");
    let mut d = Desk::new();
    ask(&mut e, &mut d, "setoption name Hash value 1");
    e.s.silent = true;
    ask(&mut e, &mut d, "position startpos moves e2e4");
    ask(&mut e, &mut d, "go depth 5");
    ask(&mut e, &mut d, "ucinewgame");
    assert_eq!((e.pos.stm, e.pos.hist_len), (0, 1));
    assert!(e.s.tt.mem.iter().all(|&w| w == 0));
    assert!(e.s.history.iter().all(|&h| h == 0));
}

#[test]
fn the_benchmark_repeats_itself() {
    let mut e = Engine::new("the Sable authors");
    let mut d = Desk::new();
    ask(&mut e, &mut d, "setoption name Hash value 1");
    let (next, first) = ask(&mut e, &mut d, "bench 2");
    assert_eq!(next, Next::Again);
    let (_, second) = ask(&mut e, &mut d, "bench 2");
    // The deepest ply seen is carried over; what is counted is not.
    let tally = first.find("====").unwrap();
    assert_eq!(&first[tally..], &second[second.find("====").unwrap()..]);
    assert!(first[tally..].starts_with("===========================\nTotal nodes  : "));
    assert!(first.ends_with("000\n"));
    assert_eq!(first.matches("bestmove ").count(), 12);
    // Nor does it matter what was done before, on this engine or another.
    let mut other = Engine::new("somebody");
    ask(&mut other, &mut d, "setoption name Hash value 1");
    ask(&mut other, &mut d, "position startpos moves e2e4");
    ask(&mut other, &mut d, "go depth 3");
    let (_, third) = ask(&mut other, &mut d, "bench 2");
    assert_eq!(&first[tally..], &third[third.find("====").unwrap()..]);
    assert!(!e.s.ignore_stdin);
}

// ---------------------------------------------------------------------------
// Training data
// ---------------------------------------------------------------------------

#[test]
fn labels_are_renewed() {
    let mut e = Engine::new("the Sable authors");
    let mut d = Desk::new();
    assert_eq!(ask(&mut e, &mut d, "relabel 50").0, Next::Relabel { nodes: 100 });
    assert!(e.s.silent);
    let line = b"8/8/4k3/8/5B2/3K4/8/8 b - - 0 1  | 17 | 2";
    assert_eq!(e.relabel_line(line, 200, &mut d), Next::Again);
    assert_eq!(d.console.take(), "8/8/4k3/8/5B2/3K4/8/8 b - - 0 1 | 0 | 2\n");
    // Lines without a label, and positions without a move, are passed over.
    assert_eq!(e.relabel_line(b"no bars here", 200, &mut d), Next::Again);
    assert_eq!(e.relabel_line(b" | 1 | 2", 200, &mut d), Next::Again);
    assert_eq!(e.relabel_line(b"7k/5Q2/6K1/8/8/8/8/8 b - - 0 1 | 0 | 1", 200, &mut d), Next::Again);
    assert_eq!(d.console.take(), "");
    assert_eq!(e.relabel_line(b"8/8/8/8/8/8/8/8 w - - 0 1 | 0 | 1", 200, &mut d), Next::Fault);
    e.end_bulk(&mut d);
    assert!(!e.s.silent);
}

#[test]
fn features_are_dumped() {
    let mut e = Engine::new("the Sable authors");
    let mut d = Desk::new();
    assert_eq!(e.command(b"featdump", &mut d), Next::Featdump);
    e.out.flush(&mut d);
    assert_eq!(std::mem::take(&mut d.console.shown), [83, 66, 70, 50, 166, 3, 96, 0]);
    assert_eq!(e.feature_line(b""), Next::Again);
    assert_eq!(e.feature_line(b"4k3/8/8/8/8/8/4P3/4K3 w - - 0 1"), Next::Again);
    e.out.flush(&mut d);
    let text = std::mem::take(&mut d.console.shown);
    let n = text[0] as usize + 256 * text[1] as usize;
    assert!(n >= 3);
    assert_eq!(text.len(), 2 + 4 * n + 2);
    // Three pieces fall into the first bucket.
    assert_eq!(&text[text.len() - 2..], &[0, 0]);
    assert_eq!(e.feature_line(b"8/8/8/8/8/8/8/8 w - - 0 1"), Next::Fault);
}

#[test]
fn random_numbers_follow_their_recurrence() {
    let mut r = Rng::new(0);
    assert_eq!(r.next(), 1_082_269_761);
    assert_eq!(r.next(), 1_152_992_998_833_853_505);
    assert_eq!(r.next(), 11_177_516_664_432_764_457);
    assert_eq!(r.next(), 17_678_023_832_001_937_445);
}

#[test]
fn random_moves_are_drawn_from_the_list() {
    let t = init();
    let mut p = Position::empty();
    p.set_startpos(&t);
    let mut r = Rng::new(1);
    // 1082269761 % 20 is 1.
    let m = random_move(&p, &t, &mut r);
    let mut l = sable::movegen::MoveList::new();
    sable::movegen::generate(&p, &t, &mut l, sable::movegen::GenKind::All);
    assert_eq!(l.n, 20);
    assert_eq!(m, l.mv[1]);
    p.set_fen(&t, b"7k/5Q2/6K1/8/8/8/8/8 b - - 0 1");
    assert!(random_move(&p, &t, &mut r).is_null());
}

#[test]
fn a_position_is_new_once() {
    let mut s = Seen::new();
    assert!(s.first_sighting(5));
    assert!(!s.first_sighting(5));
    // No key is remembered for nothing.
    assert!(s.first_sighting(0) && s.first_sighting(0));
    // A full run of slots stops remembering.
    for k in 6..13u64 {
        assert!(s.first_sighting(k));
    }
    assert!(s.first_sighting(13) && s.first_sighting(13));
}

#[test]
fn a_game_is_played_and_written() {
    let mut e = Engine::new("the Sable authors");
    let mut d = Desk::new();
    let next = ask(&mut e, &mut d, "datagen 10 20 7").0;
    assert_eq!(next, Next::Datagen { target: 10, nodes: 100, seed: 7 });
    let mut run = Generator::new(1);
    run.start(7);
    let mut emitted = 0;
    for _ in 0..8 {
        emitted = run.step(&mut e.s, &e.t, 100, &mut e.out, &mut d, u64::MAX, emitted).unwrap();
    }
    assert!(run.step(&mut e.s, &e.t, 100, &mut e.out, &mut d, emitted, emitted).is_none());
    e.out.flush(&mut d);
    let text = d.console.take();
    assert_eq!(text.lines().count() as u64, emitted);
    assert!(emitted > 0);
    for l in text.lines() {
        let parts: Vec<&str> = l.split(" | ").collect();
        assert_eq!(parts.len(), 3);
        let mut p = Position::empty();
        p.set_fen(&e.t, parts[0].as_bytes());
        assert!(p.is_wf(&e.t) && !p.in_check());
        let score: i32 = parts[1].parse().unwrap();
        assert!(-2000 < score && score < 2000);
        assert!(["0", "1", "2"].contains(&parts[2]));
    }
    assert_eq!(run.games, 8);
}

// ---------------------------------------------------------------------------
// Input
// ---------------------------------------------------------------------------

#[test]
fn input_is_read_line_by_line() {
    let mut b = InBuf::new();
    b.feed(b"uci\nisre");
    assert_eq!(b.take_line(), Some(b"uci".to_vec()));
    assert_eq!(b.take_line(), None);
    b.feed(b"ady\r\nlast");
    assert_eq!(b.take_bulk(), Some(b"isready".to_vec()));
    assert!(!b.eof);
    b.feed(b"");
    assert!(b.eof);
    assert_eq!(b.take_line(), None);
    assert_eq!(b.room(), 0);
}

#[test]
fn an_order_to_stop_is_noticed_in_pieces() {
    let mut b = InBuf::new();
    assert!(!b.interrupted());
    b.feed(b"isready\nsto");
    assert!(!b.interrupted());
    b.feed(b"p\n");
    assert!(b.interrupted() && b.interrupted());
    assert_eq!(b.take_line(), Some(b"isready".to_vec()));
    assert_eq!(b.take_line(), Some(b"stop".to_vec()));
    b.rearm();
    assert!(!b.interrupted());
    b.feed(b"quit\n");
    assert!(b.interrupted());
}

#[test]
fn input_without_lines_is_dropped_and_full_lines_wait() {
    let mut b = InBuf::new();
    let filler = vec![b'x'; 65_536];
    b.feed(&filler);
    assert_eq!(b.room(), 65_536);
    assert_eq!(b.take_line(), None);
    let mut lines = vec![b'y'; 65_535];
    lines.push(b'\n');
    b.feed(&lines);
    assert_eq!(b.room(), 0);
    // A command line is cut off, a bulk line is not.
    assert_eq!(b.take_line().unwrap().len(), 4095);
    assert_eq!(b.room(), 65_536);
}
