//! The engine behind the protocol: one command at a time.

use vstd::prelude::*;
use vstd::string::*;
use crate::bb::popcount;
use crate::benchlaw;
use crate::bits;
use crate::board;
use crate::board::print_board;
use crate::clock;
use crate::host::{Heard, Host};
use crate::eval;
use crate::eval::{evaluate, hand_crafted};
use crate::fen;
use crate::fenlaw;
use crate::geom;
use crate::io;
use crate::io::Out;
use crate::mind::{Limits, Searcher, World};
use crate::movegen;
use crate::movegen::GenKind;
use crate::moves::Move;
use crate::net;
use crate::net::{bucket_of, features_both};
use crate::orders;
use crate::orders::{number, parse_go, parse_option, Bounds};
use crate::perft;
use crate::perft::{is_within, perft_divide};
use crate::place;
use crate::pos::Position;
use crate::tables::Tables;
use crate::text;
use crate::text::{same, to_i32, Tokens};
use crate::think;
use crate::tt;
use crate::tt::Table;

verus! {

broadcast use {crate::io::group_carried, crate::tt::group_led};

/// Everything a game needs.
pub struct Engine {
    pub pos: Position,
    pub s: Searcher,
    pub t: Tables,
    pub out: Out,
    /// Who it says it is by.
    pub author: &'static str,
}

/// What to do after a command.
#[derive(Clone, Copy, PartialEq, Eq, Structural, Debug)]
pub enum Next {
    /// Read the next command.
    Again,
    /// The program is over.
    Quit,
    /// Something was asked of a position that cannot be played.
    Fault,
    /// Generate so many positions, with so many nodes per move, from a seed.
    Datagen { target: u64, nodes: u64, seed: u64 },
    /// Score every following line again, with so many nodes.
    Relabel { nodes: u64 },
    /// Dump the features of every following line.
    Featdump,
}

/// Nothing but zeros.
pub open spec fn all_zero(s: Seq<u64>) -> bool {
    forall|i: int| 0 <= i < s.len() ==> s[i] == 0
}

/// `n` is the table `o` with every entry gone.
pub open spec fn wiped(o: Table, n: Table) -> bool {
    &&& n.wf()
    &&& n.clusters == o.clusters
    &&& n.gen == if o.clusters == 0 {
        o.gen
    } else {
        0
    }
    &&& all_zero(n.mem)
}

/// The megabytes that a table can have on this machine.
pub open spec fn fitting(mb: int) -> int {
    clock::min(mb, isize::MAX / 1_048_576)
}

/// `n` is an empty table of about `mb` megabytes.
pub open spec fn resized(n: Table, mb: int) -> bool {
    &&& n.wf()
    &&& n.gen == 0
    &&& tt::is_floor2(n.clusters as int, 16_384 * clock::max(mb, 1))
    &&& all_zero(n.mem)
}

impl Engine {
    pub open spec fn wf(self) -> bool {
        &&& self.s.wf()
        &&& self.s.id == 0
        &&& self.s.start_depth == 0
        &&& self.pos.clean()
        &&& self.pos.ply == 0
        &&& self.pos.hist_len <= 4096
    }

    /// The position can be searched.
    pub open spec fn playable(self) -> bool {
        self.pos.wf()
    }

    fn is_playable(&self) -> (r: bool)
        requires
            self.wf(),
        ensures
            r == self.playable(),
    {
        self.pos.is_wf(&self.t)
    }

    /// The position can be evaluated: its boards agree and both kings are there.
    pub open spec fn weighable(self) -> bool {
        &&& self.pos.board_ok()
        &&& self.pos.stm < 2
        &&& geom::is_sq(self.pos.king(0))
        &&& geom::is_sq(self.pos.king(1))
    }

    fn is_weighable(&self) -> (r: bool)
        ensures
            r == self.weighable(),
    {
        self.pos.stm < 2 && self.pos.king_sq(0) < 64 && self.pos.king_sq(1) < 64
            && self.pos.is_board_ok()
    }

    /// A new engine at the start of a game, with a table of 64 megabytes.
    pub fn new(author: &'static str) -> (e: Engine)
        ensures
            e.wf(),
            e.author == author,
            fenlaw::at_start(e.pos),
            e.pos.wf(),
            e.s@.blank(),
            e.s.tabled(),
            e.s.threads == 1,
            e.s.move_overhead == 25,
            e.s.limits@ == orders::unlimited(),
            !e.s.silent,
            !e.s.ignore_stdin,
            !e.s.net.loaded,
            resized(e.s@.table, fitting(64)),
            e.out@.len() == 0,
    {
        let t = crate::tables::init();
        let mut pos = Position::empty();
        pos.set_startpos(&t);
        let mut s = Searcher::new();
        s.init_defaults(0);
        s.init_tables();
        let mb = fit(64);
        s.tt.resize(mb);
        proof {
            assert(s.limits@ =~= orders::unlimited());
        }
        Engine { pos, s, t, out: Out::new(), author }
    }

    /// Everything but the output is as it was.
    pub open spec fn only_said(self, o: Engine, text: Seq<u8>) -> bool {
        &&& self.author == o.author
        &&& self.pos == o.pos
        &&& self.s == o.s
        &&& self.out@ == o.out@ + text
    }

    /// Nothing changed but the searcher's table.
    pub open spec fn only_table(self, o: Engine) -> bool {
        &&& self.author == o.author
        &&& self.pos == o.pos
        &&& self.out == o.out
        &&& self.s == (Searcher { tt: self.s.tt, ..o.s })
        &&& self.s@ == (World { table: self.s@.table, ..o.s@ })
    }

    fn wipe(&mut self)
        requires
            old(self).wf(),
        ensures
            final(self).author == old(self).author,
            final(self).wf(),
            final(self).only_table(*old(self)),
            wiped(old(self).s@.table, final(self).s@.table),
    {
        self.s.tt.clear();
        proof {
            assert(self.s@ =~= (World { table: self.s@.table, ..old(self).s@ }));
        }
    }

    fn resize(&mut self, mb: usize)
        requires
            old(self).wf(),
            mb <= 4096,
        ensures
            final(self).author == old(self).author,
            final(self).wf(),
            final(self).only_table(*old(self)),
            resized(final(self).s@.table, fitting(mb as int)),
    {
        let mb = fit(mb);
        self.s.tt.resize(mb);
        proof {
            assert(self.s@ =~= (World { table: self.s@.table, ..old(self).s@ }));
        }
    }

    /// Get ready for a new game.
    pub fn new_game(&mut self)
        requires
            old(self).wf(),
        ensures
            final(self).author == old(self).author,
            final(self).wf(),
            final(self).out == old(self).out,
            fenlaw::at_start(final(self).pos),
            final(self).pos.wf(),
            wiped(old(self).s@.table, final(self).s@.table),
            final(self).s@.emptied(World { table: final(self).s@.table, ..old(self).s@ }),
            final(self).s.cleared(Searcher { tt: final(self).s.tt, ..old(self).s }),
            final(self).s.kept(old(self).s),
    {
        self.wipe();
        self.s.clear();
        self.pos.set_startpos(&self.t);
    }
}

// ---------------------------------------------------------------------------
// Options
// ---------------------------------------------------------------------------

impl Engine {
    /// What a `setoption` command with the words `ws` does. Options that are not
    /// known are passed over, and so is the number of threads.
    pub open spec fn optioned(self, o: Engine, ws: Seq<Seq<u8>>) -> bool {
        let (name, val) = orders::option_order(Seq::empty(), 0, ws);
        if name == "Hash".spec_bytes() {
            self.only_table(o) && resized(
                self.s@.table,
                fitting(clock::max(clock::min(val, 4096), 1)),
            )
        } else if name == "Clear".spec_bytes() {
            self.only_table(o) && wiped(o.s@.table, self.s@.table)
        } else if name == "Move".spec_bytes() {
            self == (Engine { s: Searcher { move_overhead: val as u64, ..o.s }, ..o })
        } else {
            self == o
        }
    }

    fn set_option(&mut self, tok: &mut Tokens)
        requires
            old(self).wf(),
            old(tok).wf(),
        ensures
            final(self).author == old(self).author,
            final(self).wf(),
            final(self).optioned(*old(self), old(tok)@),
    {
        proof {
            reveal_strlit("Hash");
            reveal_strlit("Clear");
            reveal_strlit("Move");
            lemma_nonempty("Hash");
            lemma_nonempty("Clear");
            lemma_nonempty("Move");
        }
        let (name, val) = parse_option(tok);
        if let Some(name) = name {
            if same(name, "Hash".as_bytes()) {
                let mb = if val < 1 {
                    1
                } else if val > 4096 {
                    4096
                } else {
                    val as usize
                };
                self.resize(mb);
            } else if same(name, "Clear".as_bytes()) {
                self.wipe();
            } else if same(name, "Move".as_bytes()) {
                self.s.move_overhead = val;
                proof {
                    assert(self.s@ =~= old(self).s@);
                }
            }
        }
    }
}

/// A text with letters is not empty.
proof fn lemma_nonempty(s: &str)
    requires
        s.is_ascii(),
        s@.len() > 0,
    ensures
        s.spec_bytes().len() > 0,
{
    broadcast use is_ascii_spec_bytes;

    assert(s.spec_bytes() =~= Seq::new(s@.len(), |i| s@.index(i) as u8));
}

// ---------------------------------------------------------------------------
// Searching and counting
// ---------------------------------------------------------------------------

/// `m` is the searcher `o` with new limits.
pub open spec fn ordered(o: Searcher, m: Searcher, b: Bounds) -> bool {
    m == (Searcher { limits: m.limits, ..o }) && m.limits@ == b
}

impl Engine {
    /// What a search with the limits `b` does. Before it `x` had been heard, and
    /// after it `y`.
    pub open spec fn sought(self, o: Engine, b: Bounds, x: Seq<Heard>, y: Seq<Heard>) -> bool {
        exists|m: Searcher|
            {
                &&& #[trigger] ordered(o.s, m, b)
                &&& think::searched(m, self.s, self.pos, o.out@, self.out@, x, y)
                &&& self.s.same_orders(m)
                &&& self.pos == perft::settled(o.pos)
            }
    }

    fn seek<H: Host>(&mut self, limits: Limits, host: &mut H)
        requires
            old(self).wf(),
            old(self).playable(),
        ensures
            final(self).author == old(self).author,
            io::carried(
                old(self).out.said@,
                final(self).out.said@,
                old(host).shown(),
                final(host).shown(),
            ),
            final(self).wf(),
            final(self).sought(*old(self), limits@, old(host).heard(), final(host).heard()),
    {
        self.s.limits = limits;
        let ghost m = self.s;
        proof {
            assert(ordered(old(self).s, m, limits@));
            assert(m.wf()) by {
                assert(m@ =~= (World { limits, ..old(self).s@ }));
            }
        }
        self.s.go(&mut self.pos, &self.t, &mut self.out, host);
        proof {
            assert(perft::settles(old(self).pos, self.pos));
            perft::lemma_settled(old(self).pos, self.pos);
        }
    }

    /// What a count of `depth` moves says: one line per move and one for all. The
    /// clock is read before and after.
    pub open spec fn counted(self, o: Engine, depth: int, x: Seq<Heard>, y: Seq<Heard>) -> bool {
        &&& self.pos == o.pos
        &&& self.s == o.s
        &&& exists|t0: u64, t1: u64|
            {
                &&& y == #[trigger] perft::clocked(x, t0, t1)
                &&& self.out@ == o.out@ + perft::branch_lines(
                    o.pos,
                    depth,
                    movegen::move_list(o.pos, GenKind::All).len(),
                ) + perft::total_text(
                    clock::cut64(perft::leaves(o.pos, depth)),
                    clock::less(t1 as int, t0 as int) as u64,
                )
            }
    }

    /// A count of `depth` moves can be made: no line is longer than the stack.
    pub open spec fn countable(self, depth: int) -> bool {
        self.pos.wf() && perft::within(self.pos, depth)
    }

    fn divide<H: Host>(&mut self, depth: i32, host: &mut H) -> (next: Next)
        requires
            old(self).wf(),
        ensures
            final(self).author == old(self).author,
            io::carried(
                old(self).out.said@,
                final(self).out.said@,
                old(host).shown(),
                final(host).shown(),
            ),
            final(self).wf(),
            next == if old(self).countable(depth as int) {
                Next::Again
            } else {
                Next::Fault
            },
            next == Next::Again ==> final(self).counted(
                *old(self),
                depth as int,
                old(host).heard(),
                final(host).heard(),
            ),
            next == Next::Fault ==> *final(self) == *old(self) && final(host).heard() == old(
                host,
            ).heard(),
    {
        let ghost p = self.pos;
        if !self.pos.is_wf(&self.t) || !is_within(&mut self.pos, &self.t, depth) {
            return Next::Fault;
        }
        proof {
            perft::lemma_settled(p, p);
        }
        perft_divide(&mut self.pos, &self.t, depth, &mut self.out, host);
        Next::Again
    }

    /// What a `go` command with the words `ws` does. An earlier interruption is
    /// forgotten first.
    pub open spec fn went(
        self,
        o: Engine,
        ws: Seq<Seq<u8>>,
        next: Next,
        x: Seq<Heard>,
        y: Seq<Heard>,
    ) -> bool {
        let (b, depth) = orders::go_order(orders::unlimited(), 0, ws);
        if depth > 0 {
            let m = Engine { s: Searcher { limits: self.s.limits, ..o.s }, ..o };
            &&& self.s.limits@ == b
            &&& next == if o.countable(depth) {
                Next::Again
            } else {
                Next::Fault
            }
            &&& next == Next::Again ==> self.counted(m, depth, x.push(Heard::Rearmed), y)
            &&& next == Next::Fault ==> y == x.push(Heard::Rearmed)
        } else {
            &&& next == if o.playable() {
                Next::Again
            } else {
                Next::Fault
            }
            &&& next == Next::Again ==> self.sought(o, b, x.push(Heard::Rearmed), y)
            &&& next == Next::Fault ==> y == x.push(Heard::Rearmed)
        }
    }

    fn go<H: Host>(&mut self, tok: &mut Tokens, host: &mut H) -> (next: Next)
        requires
            old(self).wf(),
            old(tok).wf(),
        ensures
            final(self).author == old(self).author,
            io::carried(
                old(self).out.said@,
                final(self).out.said@,
                old(host).shown(),
                final(host).shown(),
            ),
            final(self).wf(),
            final(self).went(
                *old(self),
                old(tok)@,
                next,
                old(host).heard(),
                final(host).heard(),
            ),
    {
        let (limits, depth) = parse_go(tok);
        host.rearm();
        if depth > 0 {
            self.s.limits = limits;
            proof {
                assert(self.s@ =~= (World { limits, ..old(self).s@ }));
            }
            self.divide(depth, host)
        } else if self.is_playable() {
            self.seek(limits, host);
            Next::Again
        } else {
            Next::Fault
        }
    }
}

// ---------------------------------------------------------------------------
// The benchmark
// ---------------------------------------------------------------------------

/// The positions of the benchmark.
pub open spec fn bench_fen(i: int) -> Seq<u8> {
    if i == 0 {
        "rnbqkbnr/pppppppp/8/8/8/8/PPPPPPPP/RNBQKBNR w KQkq - 0 1".spec_bytes()
    } else if i == 1 {
        "r3k2r/p1ppqpb1/bn2pnp1/3PN3/1p2P3/2N2Q1p/PPPBBPPP/R3K2R w KQkq - 0 1".spec_bytes()
    } else if i == 2 {
        "8/2p5/3p4/KP5r/1R3p1k/8/4P1P1/8 w - - 0 1".spec_bytes()
    } else if i == 3 {
        "r3k2r/Pppp1ppp/1b3nbN/nP6/BBP1P3/q4N2/Pp1P2PP/R2Q1RK1 w kq - 0 1".spec_bytes()
    } else if i == 4 {
        "rnbq1k1r/pp1Pbppp/2p5/8/2B5/8/PPP1NnPP/RNBQK2R w KQ - 1 8".spec_bytes()
    } else if i == 5 {
        "r4rk1/1pp1qppp/p1np1n2/2b1p1B1/2B1P1b1/P1NP1N2/1PP1QPPP/R4RK1 w - - 0 10".spec_bytes()
    } else if i == 6 {
        "2rq1rk1/pp1bppbp/2np1np1/8/3NP3/1BN1BP2/PPPQ2PP/2KR3R w - - 0 1".spec_bytes()
    } else if i == 7 {
        "8/8/8/8/8/6k1/6p1/6K1 w - - 0 1".spec_bytes()
    } else if i == 8 {
        "4rrk1/pp1n1pp1/2pb1q1p/3p4/3P1B2/2NBP2P/PPQ2PP1/3R1RK1 w - - 0 1".spec_bytes()
    } else if i == 9 {
        "r1bq1rk1/pp2ppbp/2np1np1/8/2BNP3/2N1BP2/PPPQ2PP/R3K2R w KQ - 0 1".spec_bytes()
    } else if i == 10 {
        "8/3k4/8/8/3K4/8/3P4/8 w - - 0 1".spec_bytes()
    } else {
        "6k1/5ppp/8/8/8/8/5PPP/R5K1 w - - 0 1".spec_bytes()
    }
}

fn bench_line(i: usize) -> (s: &'static str)
    requires
        i < 12,
    ensures
        s.spec_bytes() == bench_fen(i as int),
{
    if i == 0 {
        "rnbqkbnr/pppppppp/8/8/8/8/PPPPPPPP/RNBQKBNR w KQkq - 0 1"
    } else if i == 1 {
        "r3k2r/p1ppqpb1/bn2pnp1/3PN3/1p2P3/2N2Q1p/PPPBBPPP/R3K2R w KQkq - 0 1"
    } else if i == 2 {
        "8/2p5/3p4/KP5r/1R3p1k/8/4P1P1/8 w - - 0 1"
    } else if i == 3 {
        "r3k2r/Pppp1ppp/1b3nbN/nP6/BBP1P3/q4N2/Pp1P2PP/R2Q1RK1 w kq - 0 1"
    } else if i == 4 {
        "rnbq1k1r/pp1Pbppp/2p5/8/2B5/8/PPP1NnPP/RNBQK2R w KQ - 1 8"
    } else if i == 5 {
        "r4rk1/1pp1qppp/p1np1n2/2b1p1B1/2B1P1b1/P1NP1N2/1PP1QPPP/R4RK1 w - - 0 10"
    } else if i == 6 {
        "2rq1rk1/pp1bppbp/2np1np1/8/3NP3/1BN1BP2/PPPQ2PP/2KR3R w - - 0 1"
    } else if i == 7 {
        "8/8/8/8/8/6k1/6p1/6K1 w - - 0 1"
    } else if i == 8 {
        "4rrk1/pp1n1pp1/2pb1q1p/3p4/3P1B2/2NBP2P/PPQ2PP1/3R1RK1 w - - 0 1"
    } else if i == 9 {
        "r1bq1rk1/pp2ppbp/2np1np1/8/2BNP3/2N1BP2/PPPQ2PP/R3K2R w KQ - 0 1"
    } else if i == 10 {
        "8/3k4/8/8/3K4/8/3P4/8 w - - 0 1"
    } else {
        "6k1/5ppp/8/8/8/8/5PPP/R5K1 w - - 0 1"
    }
}

/// One search of the benchmark.
pub struct Turn {
    /// The searcher before and after.
    pub o: Searcher,
    pub n: Searcher,
    /// The position searched.
    pub p: Position,
    /// What had been written before and after.
    pub before: Seq<u8>,
    pub after: Seq<u8>,
    /// What had been heard before and after.
    pub x: Seq<Heard>,
    pub y: Seq<Heard>,
}

/// `o` is the searcher `prev` from a cold start: nothing learned, an empty
/// table, a fixed depth, and deaf. All else is as it was.
#[verifier::opaque]
pub open spec fn chilled(prev: Searcher, o: Searcher, depth: int) -> bool {
    &&& o.cleared(Searcher { tt: o.tt, limits: o.limits, ignore_stdin: true, ..prev })
    &&& o@.emptied(World { table: o@.table, limits: o.limits, ..prev@ })
    &&& wiped(prev@.table, o@.table)
    &&& o.limits@ == (Bounds { depth, ..orders::unlimited() })
}

/// A search of position `i`, from a cold start and to a fixed depth.
#[verifier::opaque]
pub open spec fn is_turn(t: Turn, prev: Searcher, i: int, depth: int) -> bool {
    &&& fen::parsed(bench_fen(i), t.p)
    &&& t.p.clean()
    &&& chilled(prev, t.o, depth)
    &&& t.o.wf()
    &&& think::searched(t.o, t.n, t.p, t.before, t.after, t.x, t.y)
    &&& t.n.same_orders(t.o)
}

/// `q` is what a text describes.
#[verifier::opaque]
pub open spec fn reads(text: Seq<u8>, q: Position) -> bool {
    fen::parsed(text, q) && q.clean()
}

/// `q` is what a text describes, and it cannot be searched.
#[verifier::opaque]
pub open spec fn unfit(text: Seq<u8>, q: Position) -> bool {
    &&& reads(text, q)
    &&& !q.wf()
}

/// The nodes of the first `n` searches.
pub open spec fn turn_nodes(l: Seq<Turn>, n: nat) -> int
    decreases n,
{
    if n == 0 {
        0
    } else {
        turn_nodes(l, (n - 1) as nat) + l[n - 1].n.nodes
    }
}

/// The searcher before search `i` of a benchmark that `s` began.
pub open spec fn before_turn(l: Seq<Turn>, s: Searcher, i: int) -> Searcher {
    if i == 0 {
        s
    } else {
        Searcher { ignore_stdin: s.ignore_stdin, ..l[i - 1].n }
    }
}

/// `l` are the first searches of the benchmark that `s` began, one after the
/// other.
pub open spec fn in_turn(
    l: Seq<Turn>,
    s: Searcher,
    depth: int,
    before: Seq<u8>,
    after: Seq<u8>,
    x: Seq<Heard>,
    y: Seq<Heard>,
) -> bool {
    &&& forall|i: int|
        0 <= i < l.len() ==> is_turn(#[trigger] l[i], before_turn(l, s, i), i, depth)
    &&& forall|i: int|
        0 <= i < l.len() ==> #[trigger] l[i].before == if i == 0 {
            before
        } else {
            l[i - 1].after
        }
    &&& forall|i: int|
        0 <= i < l.len() ==> #[trigger] l[i].x == if i == 0 {
            x
        } else {
            l[i - 1].y
        }
    &&& after == if l.len() == 0 {
        before
    } else {
        l[l.len() - 1].after
    }
    &&& y == if l.len() == 0 {
        x
    } else {
        l[l.len() - 1].y
    }
}

/// What the benchmark sums up to.
pub open spec fn bench_text(total: int, ms: u64) -> Seq<u8> {
    "===========================".spec_bytes().push(10) + ("Total nodes  : ".spec_bytes()
        + io::digits(total as nat)).push(10) + ("Time (ms)    : ".spec_bytes() + io::digits(
        ms as nat,
    )).push(10) + ("Nodes/second : ".spec_bytes() + io::digits(
        (clock::cut64(total * 1000) / clock::max(ms as int, 1)) as nat,
    )).push(10)
}

fn say_bench<H: Host>(total: u64, ms: u64, out: &mut Out, host: &mut H)
    ensures
        final(host).heard() == old(host).heard(),
        io::carried(
            old(out).said@,
            final(out).said@,
            old(host).shown(),
            final(host).shown(),
        ),
        final(out)@ == old(out)@ + bench_text(total as int, ms),
{
    let ghost o = out@;
    let span = if ms < 1 {
        1
    } else {
        ms
    };
    let speed = total.wrapping_mul(1000) / span;
    assert(speed == clock::cut64(total * 1000) / clock::max(ms as int, 1));
    out.say("===========================");
    out.nl(host);
    let ghost x1 = "===========================".spec_bytes().push(10);
    proof {
        assert((o + "===========================".spec_bytes()).push(10) =~= o + x1);
    }
    say_number("Total nodes  : ", total, out, host);
    let ghost y = ("Total nodes  : ".spec_bytes() + io::digits(total as nat)).push(10);
    let ghost x2 = x1 + y;
    proof {
        assert(o + x1 + y =~= o + x2);
    }
    say_number("Time (ms)    : ", ms, out, host);
    let ghost z = ("Time (ms)    : ".spec_bytes() + io::digits(ms as nat)).push(10);
    let ghost x3 = x2 + z;
    proof {
        assert(o + x2 + z =~= o + x3);
    }
    say_number("Nodes/second : ", speed, out, host);
    let ghost w = ("Nodes/second : ".spec_bytes() + io::digits(speed as nat)).push(10);
    proof {
        assert(o + x3 + w =~= o + (x3 + w));
    }
}

/// A label and a number on a line.
fn say_number<H: Host>(label: &str, v: u64, out: &mut Out, host: &mut H)
    ensures
        final(host).heard() == old(host).heard(),
        io::carried(
            old(out).said@,
            final(out).said@,
            old(host).shown(),
            final(host).shown(),
        ),
        final(out)@ == old(out)@ + (label.spec_bytes() + io::digits(v as nat)).push(10),
{
    let ghost o = out@;
    out.say(label);
    out.u(v);
    out.nl(host);
    proof {
        let (a, b) = (label.spec_bytes(), io::digits(v as nat));
        assert((o + a + b).push(10) =~= o + (a + b).push(10));
    }
}

impl Engine {
    /// What the benchmark does: twelve searches and a summary. The clock is read
    /// before and after.
    pub open spec fn benched(self, o: Engine, depth: int, x: Seq<Heard>, y: Seq<Heard>) -> bool {
        exists|l: Seq<Turn>, mid: Seq<u8>, z: Seq<Heard>, t0: u64, t1: u64|
            {
                &&& #[trigger] in_turn(l, o.s, depth, o.out@, mid, x.push(Heard::Time(t0)), z)
                &&& y == #[trigger] z.push(Heard::Time(t1))
                &&& l.len() == 12
                &&& self.s == before_turn(l, o.s, 12)
                &&& self.pos == l[11].p
                &&& self.s.same_habits(o.s)
                &&& self.out@ == mid + bench_text(
                    clock::cut64(turn_nodes(l, 12)),
                    clock::less(t1 as int, t0 as int) as u64,
                )
            }
    }

    /// One search of the benchmark.
    fn bench_turn<H: Host>(&mut self, i: usize, depth: i32, host: &mut H) -> (turn: Ghost<Turn>)
        requires
            old(self).wf(),
            i < 12,
        ensures
            final(self).author == old(self).author,
            io::carried(
                old(self).out.said@,
                final(self).out.said@,
                old(host).shown(),
                final(host).shown(),
            ),
            final(self).wf(),
            final(self).s.same_habits(old(self).s),
            is_turn(turn@, old(self).s, i as int, depth as int),
            turn@.before == old(self).out@,
            turn@.after == final(self).out@,
            turn@.x == old(host).heard(),
            turn@.y == final(host).heard(),
            turn@.p == final(self).pos,
            final(self).s == (Searcher { ignore_stdin: old(self).s.ignore_stdin, ..turn@.n }),
    {
        self.wipe();
        self.s.clear();
        let ghost cold = self.s;
        let line = bench_line(i);
        self.pos.set_fen(&self.t, line.as_bytes());
        let ghost q = self.pos;
        let mut limits = Limits::new();
        limits.depth = depth;
        proof {
            assert(limits@ =~= (Bounds { depth: depth as int, ..orders::unlimited() }));
        }
        let deaf = self.s.ignore_stdin;
        self.s.ignore_stdin = true;
        let ghost pre = *self;
        proof {
            assert(pre.s@ =~= cold@);
        }
        proof {
            benchlaw::law_the_benchmark_is_playable(i as int, q);
        }
        self.seek(limits, host);
        let ghost m = choose|m: Searcher|
            {
                &&& #[trigger] ordered(pre.s, m, limits@)
                &&& think::searched(
                    m,
                    self.s,
                    self.pos,
                    pre.out@,
                    self.out@,
                    old(host).heard(),
                    host.heard(),
                )
                &&& self.s.same_orders(m)
                &&& self.pos == perft::settled(pre.pos)
            };
        let ghost n = self.s;
        let ghost turn = Turn {
            o: m,
            n,
            p: self.pos,
            before: pre.out@,
            after: self.out@,
            x: old(host).heard(),
            y: host.heard(),
        };
        proof {
            perft::lemma_settled(q, q);
            assert(m@ =~= (World { limits: m.limits, ..cold@ }));
            assert(chilled(old(self).s, m, depth as int)) by {
                reveal(chilled);
                assert(m@.blank());
            }
            reveal(is_turn);
        }
        self.s.ignore_stdin = deaf;
        proof {
            assert(self.s@ =~= n@);
        }
        Ghost(turn)
    }

    /// Search a fixed set of positions from a cold start. Whatever the
    /// controller says meanwhile is no order to give up.
    fn bench<H: Host>(&mut self, depth: i32, host: &mut H)
        requires
            old(self).wf(),
        ensures
            final(self).author == old(self).author,
            io::carried(
                old(self).out.said@,
                final(self).out.said@,
                old(host).shown(),
                final(host).shown(),
            ),
            final(self).wf(),
            final(self).benched(
                *old(self),
                depth as int,
                old(host).heard(),
                final(host).heard(),
            ),
    {
        let t0 = host.now_ms();
        let mut total: u64 = 0;
        let ghost mut l: Seq<Turn> = Seq::empty();
        let ghost o = self.out@;
        let ghost x = host.heard();
        let mut i: usize = 0;
        while i < 12
            invariant
                io::carried(old(self).out.said@, self.out.said@, old(host).shown(), host.shown()),
                self.wf(),
                i <= 12,
                l.len() == i,
                in_turn(l, old(self).s, depth as int, o, self.out@, x, host.heard()),
                x == old(host).heard().push(Heard::Time(t0)),
                self.s == before_turn(l, old(self).s, i as int),
                i > 0 ==> self.pos == l[i - 1].p,
                self.s.same_habits(old(self).s),
                self.author == old(self).author,
                total == clock::cut64(turn_nodes(l, i as nat)),
                o == old(self).out@,
            decreases 12 - i,
        {
            let turn = self.bench_turn(i, depth, host);
            let nodes = self.s.nodes;
            proof {
                let more = l.push(turn@);
                lemma_turns(l, more, i as nat);
                assert(more[i as int] == turn@);
                assert forall|j: int| 0 <= j < more.len() implies is_turn(
                    #[trigger] more[j],
                    before_turn(more, old(self).s, j),
                    j,
                    depth as int,
                ) by {
                    if j < i {
                        assert(is_turn(l[j], before_turn(l, old(self).s, j), j, depth as int));
                    }
                }
                assert(in_turn(more, old(self).s, depth as int, o, self.out@, x, host.heard()));
                lemma_sum(turn_nodes(l, i as nat), nodes as int);
                l = more;
            }
            total = total.wrapping_add(nodes);
            i = i + 1;
        }
        let ghost z = host.heard();
        let now = host.now_ms();
        let ms = now.saturating_sub(t0);
        let ghost mid = self.out@;
        say_bench(total, ms, &mut self.out, host);
        proof {
            assert(in_turn(l, old(self).s, depth as int, old(self).out@, mid, x, z));
            assert(host.heard() == z.push(Heard::Time(now)));
        }
    }
}

proof fn lemma_sum(a: int, b: int)
    requires
        0 <= b <= u64::MAX,
    ensures
        vstd::wrapping::u64_specs::wrapping_add(clock::cut64(a) as u64, b as u64) == clock::cut64(
            a + b,
        ),
{
}

proof fn lemma_turns(a: Seq<Turn>, b: Seq<Turn>, n: nat)
    requires
        n <= a.len(),
        n <= b.len(),
        forall|i: int| 0 <= i < n ==> a[i] == b[i],
    ensures
        turn_nodes(a, n) == turn_nodes(b, n),
    decreases n,
{
    if n > 0 {
        lemma_turns(a, b, (n - 1) as nat);
    }
}

// ---------------------------------------------------------------------------
// Training data
// ---------------------------------------------------------------------------

/// The first `c` in `s` from `i` on, or its end.
pub open spec fn seek_byte(s: Seq<u8>, c: u8, i: int) -> int
    decreases s.len() - i,
{
    if 0 <= i < s.len() && s[i] != c {
        seek_byte(s, c, i + 1)
    } else {
        i
    }
}

/// Where the text before `i` ends without the spaces at its end.
pub open spec fn trimmed(s: Seq<u8>, i: int) -> int
    decreases i,
{
    if 0 < i <= s.len() && s[i - 1] == 32 {
        trimmed(s, i - 1)
    } else {
        i
    }
}

/// The parts of a line `FEN | score | result`: where the FEN ends, and where the
/// second bar is. Nothing if the line has no such parts.
pub open spec fn label_parts(s: Seq<u8>) -> Option<(int, int)> {
    let b = seek_byte(s, 124, 0);
    let c = seek_byte(s, 124, b + 1);
    if b >= s.len() || c >= s.len() || trimmed(s, b) == 0 {
        None
    } else {
        Some((trimmed(s, b), c))
    }
}

fn find_byte(s: &[u8], c: u8, from: usize) -> (r: usize)
    requires
        from <= s@.len(),
    ensures
        r == seek_byte(s@, c, from as int),
        from <= r <= s@.len(),
{
    let n = s.len();
    let mut i = from;
    while i < n && s[i] != c
        invariant
            from <= i <= n == s@.len(),
            seek_byte(s@, c, from as int) == seek_byte(s@, c, i as int),
        decreases n - i,
    {
        i = i + 1;
    }
    i
}

fn split_label(s: &[u8]) -> (r: Option<(usize, usize)>)
    ensures
        match r {
            Some((e, c)) => label_parts(s@) == Some((e as int, c as int)) && e <= c < s@.len(),
            None => label_parts(s@) is None,
        },
{
    let b = find_byte(s, 124, 0);
    if b >= s.len() {
        return None;
    }
    let c = find_byte(s, 124, b + 1);
    if c >= s.len() {
        return None;
    }
    let mut e = b;
    while e > 0 && s[e - 1] == 32
        invariant
            e <= b < s@.len(),
            trimmed(s@, b as int) == trimmed(s@, e as int),
        decreases e,
    {
        e = e - 1;
    }
    if e == 0 {
        return None;
    }
    Some((e, c))
}

/// A line with its new score.
pub open spec fn label_text(fen: Seq<u8>, score: int, tail: Seq<u8>) -> Seq<u8> {
    (io::piece(fen) + " | ".spec_bytes() + io::signed_digits(score) + " ".spec_bytes() + io::piece(
        tail,
    )).push(10)
}

/// A score from white's point of view.
pub open spec fn white_score(p: Position, score: int) -> int {
    if p.stm == 0 {
        score
    } else {
        -score
    }
}

impl Engine {
    /// What scoring a line again does, where its position `q` can be searched.
    #[verifier::opaque]
    pub open spec fn rescored(
        self,
        o: Engine,
        q: Position,
        nodes: u64,
        fen: Seq<u8>,
        tail: Seq<u8>,
        x: Seq<Heard>,
        y: Seq<Heard>,
    ) -> bool {
        exists|m: Searcher, mid: Seq<u8>|
            {
                &&& ordered(o.s, m, (Bounds { nodes: nodes as int, ..orders::unlimited() }))
                &&& #[trigger] think::searched(m, self.s, self.pos, o.out@, mid, x, y)
                &&& self.s.same_orders(m)
                &&& self.pos == q
                // A mate or a stalemate teaches nothing.
                &&& self.out@ == if self.s.best == Move(0) {
                    mid
                } else {
                    mid + label_text(fen, white_score(q, self.s.best_score as int), tail)
                }
            }
    }

    /// What scoring a line again does. Lines without the parts of a label are
    /// passed over.
    pub open spec fn relabelled(
        self,
        o: Engine,
        body: Seq<u8>,
        nodes: u64,
        next: Next,
        x: Seq<Heard>,
        y: Seq<Heard>,
    ) -> bool {
        if label_parts(body) is None {
            self == o && y == x && next == Next::Again
        } else {
            let (e, c) = label_parts(body)->0;
            exists|q: Position|
                #[trigger] reads(body.take(e), q) && self.tackled(
                    o,
                    q,
                    nodes,
                    body.take(e),
                    body.skip(c),
                    next,
                    x,
                    y,
                )
        }
    }

    /// What scoring the position `q` of a line again does.
    pub open spec fn tackled(
        self,
        o: Engine,
        q: Position,
        nodes: u64,
        fen: Seq<u8>,
        tail: Seq<u8>,
        next: Next,
        x: Seq<Heard>,
        y: Seq<Heard>,
    ) -> bool {
        &&& next == if unfit(fen, q) {
            Next::Fault
        } else {
            Next::Again
        }
        &&& next == Next::Again ==> self.rescored(o, q, nodes, fen, tail, x, y)
        &&& next == Next::Fault ==> y == x
    }

    /// Set up the position that a text describes. False if it cannot be
    /// searched.
    fn load(&mut self, fen: &[u8]) -> (ok: bool)
        requires
            old(self).wf(),
        ensures
            final(self).author == old(self).author,
            final(self).wf(),
            reads(fen@, final(self).pos),
            final(self).s == old(self).s,
            final(self).out == old(self).out,
            ok == final(self).playable(),
            ok == !unfit(fen@, final(self).pos),
    {
        self.pos.set_fen(&self.t, fen);
        proof {
            reveal(reads);
            reveal(unfit);
        }
        self.is_playable()
    }

    /// Search the position and write its line with the new score.
    fn rescore<H: Host>(&mut self, fen: &[u8], tail: &[u8], nodes: u64, host: &mut H)
        requires
            old(self).wf(),
            old(self).playable(),
        ensures
            final(self).author == old(self).author,
            io::carried(
                old(self).out.said@,
                final(self).out.said@,
                old(host).shown(),
                final(host).shown(),
            ),
            final(self).wf(),
            final(self).rescored(
                *old(self),
                old(self).pos,
                nodes,
                fen@,
                tail@,
                old(host).heard(),
                final(host).heard(),
            ),
    {
        let mut limits = Limits::new();
        limits.nodes = nodes;
        proof {
            assert(limits@ =~= (Bounds { nodes: nodes as int, ..orders::unlimited() }));
        }
        let ghost pre = *self;
        self.seek(limits, host);
        let ghost m = choose|m: Searcher|
            {
                &&& #[trigger] ordered(pre.s, m, limits@)
                &&& think::searched(
                    m,
                    self.s,
                    self.pos,
                    pre.out@,
                    self.out@,
                    old(host).heard(),
                    host.heard(),
                )
                &&& self.s.same_orders(m)
                &&& self.pos == perft::settled(pre.pos)
            };
        let ghost mid = self.out@;
        proof {
            perft::lemma_settled(pre.pos, pre.pos);
        }
        if !self.s.best.is_null() {
            let best = self.s.best_score as i64;
            let score = if self.pos.stm == 0 {
                best
            } else {
                -best
            };
            say_label(&mut self.out, fen, score, tail, host);
        }
        proof {
            reveal(Engine::rescored);
            assert(think::searched(
                m,
                self.s,
                self.pos,
                pre.out@,
                mid,
                old(host).heard(),
                host.heard(),
            ));
        }
    }

    /// Score a line `FEN | score | result` again with the engine as it is now.
    pub fn relabel_line<H: Host>(&mut self, body: &[u8], nodes: u64, host: &mut H) -> (next: Next)
        requires
            old(self).wf(),
        ensures
            final(self).author == old(self).author,
            io::carried(
                old(self).out.said@,
                final(self).out.said@,
                old(host).shown(),
                final(host).shown(),
            ),
            final(self).wf(),
            final(self).relabelled(
                *old(self),
                body@,
                nodes,
                next,
                old(host).heard(),
                final(host).heard(),
            ),
    {
        let (e, c) = match split_label(body) {
            Some(x) => x,
            None => {
                return Next::Again;
            },
        };
        let fen = vstd::slice::slice_subrange(body, 0, e);
        let tail = vstd::slice::slice_subrange(body, c, body.len());
        proof {
            assert(fen@ =~= body@.take(e as int));
            assert(tail@ =~= body@.skip(c as int));
        }
        assert(label_parts(body@)->0 == (e as int, c as int));
        let ok = self.load(fen);
        let ghost q = self.pos;
        assert(reads(body@.take(e as int), q));
        if !ok {
            assert(self.tackled(
                *old(self),
                q,
                nodes,
                fen@,
                tail@,
                Next::Fault,
                old(host).heard(),
                host.heard(),
            ));
            return Next::Fault;
        }
        let ghost pre = *self;
        self.rescore(fen, tail, nodes, host);
        proof {
            let (x, y) = (old(host).heard(), host.heard());
            lemma_rescored(*self, pre, *old(self), q, nodes, fen@, tail@, x, y);
            assert(self.tackled(*old(self), q, nodes, fen@, tail@, Next::Again, x, y));
        }
        Next::Again
    }
}

/// What a search leaves behind depends on the searcher and the output alone.
proof fn lemma_rescored(
    n: Engine,
    a: Engine,
    b: Engine,
    q: Position,
    nodes: u64,
    fen: Seq<u8>,
    tail: Seq<u8>,
    x: Seq<Heard>,
    y: Seq<Heard>,
)
    requires
        n.rescored(a, q, nodes, fen, tail, x, y),
        a.s == b.s,
        a.out@ == b.out@,
    ensures
        n.rescored(b, q, nodes, fen, tail, x, y),
{
    reveal(Engine::rescored);
}

fn say_label<H: Host>(out: &mut Out, fen: &[u8], score: i64, tail: &[u8], host: &mut H)
    ensures
        final(host).heard() == old(host).heard(),
        io::carried(
            old(out).said@,
            final(out).said@,
            old(host).shown(),
            final(host).shown(),
        ),
        final(out)@ == old(out)@ + label_text(fen@, score as int, tail@),
{
    let ghost o = out@;
    out.s(fen);
    out.say(" | ");
    out.i(score);
    out.say(" ");
    out.s(tail);
    out.nl(host);
    proof {
        let (a, b, x) = (io::piece(fen@), " | ".spec_bytes(), io::signed_digits(score as int));
        let (y, z) = (" ".spec_bytes(), io::piece(tail@));
        assert((o + a + b + x + y + z).push(10) =~= o + (a + b + x + y + z).push(10));
    }
}

/// A number as two bytes, the lower first.
pub open spec fn le16(v: int) -> Seq<u8> {
    seq![(v % 256) as u8, (v / 256 % 256) as u8]
}

/// The first `n` numbers of a list.
pub open spec fn le16s(l: Seq<int>, n: nat) -> Seq<u8>
    decreases n,
{
    if n == 0 {
        Seq::empty()
    } else {
        le16s(l, (n - 1) as nat) + le16(l[n - 1])
    }
}

/// The features of a position from both sides, and its bucket.
pub open spec fn feature_text(p: Position) -> Seq<u8> {
    let (us, them) = (net::rows(p, p.stm as int), net::rows(p, 1 - p.stm));
    le16(us.len() as int) + le16s(us, us.len()) + le16s(them, us.len()) + le16(
        net::bucket(bits::card(p.occ_bb()) as int),
    )
}

fn put16(out: &mut Out, v: usize)
    requires
        v < 65_536,
    ensures
        final(out).said == old(out).said,
        final(out)@ == old(out)@ + le16(v as int),
{
    let ghost o = out@;
    out.c((v % 256) as u8);
    out.c((v / 256) as u8);
    proof {
        assert(out@ =~= o + le16(v as int));
    }
}

fn put_rows(out: &mut Out, a: &[u16; 96], n: usize, Ghost(l): Ghost<Seq<int>>)
    requires
        n <= 96,
        n == l.len(),
        forall|i: int| 0 <= i < n ==> #[trigger] a@[i] == l[i],
    ensures
        final(out).said == old(out).said,
        final(out)@ == old(out)@ + le16s(l, n as nat),
{
    let ghost o = out@;
    let mut i: usize = 0;
    proof {
        assert(o + le16s(l, 0) =~= o);
    }
    while i < n
        invariant
            out.said == old(out).said,
            i <= n <= 96,
            n == l.len(),
            forall|i: int| 0 <= i < n ==> #[trigger] a@[i] == l[i],
            out@ == o + le16s(l, i as nat),
        decreases n - i,
    {
        let v = a[i] as usize;
        put16(out, v);
        proof {
            let (x, y) = (le16s(l, i as nat), le16(v as int));
            assert(o + x + y =~= o + (x + y));
        }
        i = i + 1;
    }
}

impl Engine {
    /// What dumping the features of a line does. An empty line is passed over.
    pub open spec fn dumped(self, o: Engine, line: Seq<u8>, next: Next) -> bool {
        if line.len() == 0 {
            self == o && next == Next::Again
        } else {
            &&& fen::parsed(line, self.pos)
            &&& self.s == o.s
            &&& next == if self.weighable() {
                Next::Again
            } else {
                Next::Fault
            }
            &&& next == Next::Again ==> self.out@ == o.out@ + feature_text(self.pos)
        }
    }

    /// Dump the features of the position that a line describes.
    pub fn feature_line(&mut self, line: &[u8]) -> (next: Next)
        requires
            old(self).wf(),
        ensures
            final(self).author == old(self).author,
            final(self).out.said == old(self).out.said,
            final(self).wf(),
            final(self).dumped(*old(self), line@, next),
    {
        if line.len() == 0 {
            return Next::Again;
        }
        self.pos.set_fen(&self.t, line);
        if !self.is_weighable() {
            return Next::Fault;
        }
        let ghost o = self.out@;
        let mut us: [u16; 96] = [0;96];
        let mut them: [u16; 96] = [0;96];
        let n = features_both(&self.pos, &self.t, self.pos.stm, &mut us, &mut them);
        let ghost (ru, rt) = (
            net::rows(self.pos, self.pos.stm as int),
            net::rows(self.pos, 1 - self.pos.stm),
        );
        put16(&mut self.out, n);
        put_rows(&mut self.out, &us, n, Ghost(ru));
        put_rows(&mut self.out, &them, n, Ghost(rt));
        let b = bucket_of(popcount(self.pos.occ()) as usize);
        put16(&mut self.out, b);
        proof {
            let (w, x) = (le16(n as int), le16s(ru, n as nat));
            let (y, z) = (le16s(rt, n as nat), le16(b as int));
            assert(o + w + x + y + z =~= o + (w + x + y + z));
        }
        Next::Again
    }
}

// ---------------------------------------------------------------------------
// Commands
// ---------------------------------------------------------------------------

/// The answer to `uci`.
pub open spec fn uci_text(author: Seq<u8>) -> Seq<u8> {
    "id name Sable 1.2".spec_bytes().push(10) + ("id author ".spec_bytes() + author).push(10)
        + "option name Hash type spin default 64 min 1 max 4096".spec_bytes().push(10)
        + "option name Threads type spin default 1 min 1 max 1".spec_bytes().push(10)
        + "uciok".spec_bytes().push(10)
}

/// A line of output.
fn say_line<H: Host>(text: &str, out: &mut Out, host: &mut H)
    ensures
        final(host).heard() == old(host).heard(),
        io::carried(
            old(out).said@,
            final(out).said@,
            old(host).shown(),
            final(host).shown(),
        ),
        final(out)@ == old(out)@ + text.spec_bytes().push(10),
{
    let ghost o = out@;
    out.say(text);
    out.nl(host);
    proof {
        let a = text.spec_bytes();
        assert((o + a).push(10) =~= o + a.push(10));
    }
}

fn say_uci<H: Host>(author: &str, out: &mut Out, host: &mut H)
    ensures
        final(host).heard() == old(host).heard(),
        io::carried(
            old(out).said@,
            final(out).said@,
            old(host).shown(),
            final(host).shown(),
        ),
        final(out)@ == old(out)@ + uci_text(author.spec_bytes()),
{
    let ghost o = out@;
    say_line("id name Sable 1.2", out, host);
    let ghost o1 = out@;
    out.say("id author ");
    say_line(author, out, host);
    say_line("option name Hash type spin default 64 min 1 max 4096", out, host);
    say_line("option name Threads type spin default 1 min 1 max 1", out, host);
    say_line("uciok", out, host);
    proof {
        let a = "id name Sable 1.2".spec_bytes().push(10);
        let (x, y) = ("id author ".spec_bytes(), author.spec_bytes());
        let b = (x + y).push(10);
        assert(o1 + x + y.push(10) =~= o1 + b);
        let c = "option name Hash type spin default 64 min 1 max 4096".spec_bytes().push(10);
        let d = "option name Threads type spin default 1 min 1 max 1".spec_bytes().push(10);
        let e = "uciok".spec_bytes().push(10);
        assert(o + a + b + c + d + e =~= o + (a + b + c + d + e));
    }
}

/// The line on an evaluation.
pub open spec fn eval_text(v: int) -> Seq<u8> {
    ("eval ".spec_bytes() + io::signed_digits(v)).push(10)
}

fn say_eval<H: Host>(v: i32, out: &mut Out, host: &mut H)
    ensures
        final(host).heard() == old(host).heard(),
        io::carried(
            old(out).said@,
            final(out).said@,
            old(host).shown(),
            final(host).shown(),
        ),
        final(out)@ == old(out)@ + eval_text(v as int),
{
    let ghost o = out@;
    out.say("eval ");
    out.i(v as i64);
    out.nl(host);
    proof {
        let (a, b) = ("eval ".spec_bytes(), io::signed_digits(v as int));
        assert((o + a + b).push(10) =~= o + (a + b).push(10));
    }
}

/// The words of a command that asks the program around the library something.
pub open spec fn asking(ws: Seq<Seq<u8>>) -> bool {
    ws.len() > 0 && (ws[0] == "go".spec_bytes() || ws[0] == "perft".spec_bytes() || ws[0]
        == "bench".spec_bytes())
}

/// The number that word `i` spells, or `other` if there is no such word.
pub open spec fn word_number(ws: Seq<Seq<u8>>, i: int, other: int) -> int {
    if i < ws.len() {
        text::number_in(ws[i])
    } else {
        other
    }
}

impl Engine {
    /// What `eval` does.
    pub open spec fn weighed(self, o: Engine, next: Next) -> bool {
        &&& next == if o.weighable() {
            Next::Again
        } else {
            Next::Fault
        }
        &&& self.pos == o.pos
        &&& next == Next::Again ==> {
            &&& self.out@ == o.out@ + eval_text(eval::score(o.s@.brain, o.pos))
            &&& self.s@ == o.s@.assessed(o.pos)
            &&& self.s.kept(o.s)
        }
        &&& next == Next::Fault ==> self == o
    }

    fn weigh<H: Host>(&mut self, host: &mut H) -> (next: Next)
        requires
            old(self).wf(),
        ensures
            final(self).author == old(self).author,
            final(host).heard() == old(host).heard(),
            io::carried(
                old(self).out.said@,
                final(self).out.said@,
                old(host).shown(),
                final(host).shown(),
            ),
            final(self).wf(),
            final(self).weighed(*old(self), next),
    {
        if !self.is_weighable() {
            return Next::Fault;
        }
        let v = evaluate(&self.pos, &self.t, &mut self.s.net);
        proof {
            reveal(World::assessed);
            assert(self.s@ =~= old(self).s@.assessed(old(self).pos));
        }
        say_eval(v, &mut self.out, host);
        Next::Again
    }

    /// What `evalhce` does.
    pub open spec fn weighed_by_hand(self, o: Engine, next: Next) -> bool {
        &&& next == if o.weighable() {
            Next::Again
        } else {
            Next::Fault
        }
        &&& next == Next::Again ==> self.only_said(o, eval_text(o.pos.worth()))
        &&& next == Next::Fault ==> self == o
    }

    fn weigh_by_hand<H: Host>(&mut self, host: &mut H) -> (next: Next)
        requires
            old(self).wf(),
        ensures
            final(self).author == old(self).author,
            final(host).heard() == old(host).heard(),
            io::carried(
                old(self).out.said@,
                final(self).out.said@,
                old(host).shown(),
                final(host).shown(),
            ),
            final(self).wf(),
            final(self).weighed_by_hand(*old(self), next),
    {
        if !self.is_weighable() {
            return Next::Fault;
        }
        let v = hand_crafted(&self.pos, &self.t);
        say_eval(v, &mut self.out, host);
        Next::Again
    }

    /// What `position` with the words `ws` does.
    pub open spec fn positioned(self, o: Engine, ws: Seq<Seq<u8>>, next: Next) -> bool {
        &&& self.s == o.s
        &&& self.out == o.out
        &&& next == Next::Again || next == Next::Fault
        &&& next == Next::Again ==> place::placed(o.pos, ws, self.pos)
        &&& next == Next::Fault ==> exists|b: Position, rest: Seq<Seq<u8>>| #[trigger]
            place::base(o.pos, ws, b, rest) && place::stuck(b, rest)
    }

    fn position(&mut self, tok: &mut Tokens) -> (next: Next)
        requires
            old(self).wf(),
            old(tok).wf(),
        ensures
            final(self).author == old(self).author,
            final(self).wf(),
            final(self).positioned(*old(self), old(tok)@, next),
    {
        if place::place(&mut self.pos, &self.t, tok) {
            Next::Again
        } else {
            Next::Fault
        }
    }

    /// What the benchmark command does.
    pub open spec fn bench_done(
        self,
        o: Engine,
        depth: int,
        next: Next,
        x: Seq<Heard>,
        y: Seq<Heard>,
    ) -> bool {
        &&& next == Next::Again
        &&& self.benched(o, depth, x, y)
    }

    /// What a count by its own command does.
    pub open spec fn count_done(
        self,
        o: Engine,
        depth: int,
        next: Next,
        x: Seq<Heard>,
        y: Seq<Heard>,
    ) -> bool {
        &&& next == if o.countable(depth) {
            Next::Again
        } else {
            Next::Fault
        }
        &&& next == Next::Again ==> self.counted(o, depth, x, y)
        &&& next == Next::Fault ==> self == o && y == x
    }

    /// What a command does: this engine is `o` after a line with the words `ws`.
    /// Before it `x` had been heard, and after it `y`.
    pub open spec fn obeyed(
        self,
        o: Engine,
        ws: Seq<Seq<u8>>,
        next: Next,
        x: Seq<Heard>,
        y: Seq<Heard>,
    ) -> bool {
        &&& self.author == o.author
        &&& !asking(ws) ==> y == x
        &&& if ws.len() == 0 {
            self == o && next == Next::Again
        } else if ws[0] == "uci".spec_bytes() {
            self.only_said(o, uci_text(o.author.spec_bytes())) && next == Next::Again
        } else if ws[0] == "isready".spec_bytes() {
            self.only_said(o, "readyok".spec_bytes().push(10)) && next == Next::Again
        } else if ws[0] == "ucinewgame".spec_bytes() {
            &&& next == Next::Again
            &&& self.out == o.out
            &&& fenlaw::at_start(self.pos) && self.pos.wf()
            &&& wiped(o.s@.table, self.s@.table)
            &&& self.s@.emptied(World { table: self.s@.table, ..o.s@ })
            &&& self.s.cleared(Searcher { tt: self.s.tt, ..o.s })
        } else if ws[0] == "setoption".spec_bytes() {
            self.optioned(o, ws.skip(1)) && next == Next::Again
        } else if ws[0] == "position".spec_bytes() {
            self.positioned(o, ws.skip(1), next)
        } else if ws[0] == "go".spec_bytes() {
            self.went(o, ws.skip(1), next, x, y)
        } else if ws[0] == "perft".spec_bytes() {
            self.count_done(o, text::low_i32(word_number(ws, 1, 1)), next, x, y)
        } else if ws[0] == "datagen".spec_bytes() {
            &&& self.only_table(o) && resized(self.s@.table, fitting(8))
            &&& next == (Next::Datagen {
                target: word_number(ws, 1, 100_000) as u64,
                nodes: clock::max(word_number(ws, 2, 5000), 100) as u64,
                seed: word_number(ws, 3, 1) as u64,
            })
        } else if ws[0] == "relabel".spec_bytes() {
            &&& self.pos == o.pos && self.out == o.out
            &&& self.s == (Searcher { tt: self.s.tt, silent: true, ..o.s })
            &&& resized(self.s@.table, fitting(8))
            &&& next == (Next::Relabel {
                nodes: clock::max(word_number(ws, 1, 6000), 100) as u64,
            })
        } else if ws[0] == "featdump".spec_bytes() {
            self.only_said(o, "SBF2".spec_bytes() + le16(934) + le16(96)) && next
                == Next::Featdump
        } else if ws[0] == "bench".spec_bytes() {
            self.bench_done(o, clock::max(text::low_i32(word_number(ws, 1, 12)), 1), next, x, y)
        } else if ws[0] == "eval".spec_bytes() {
            self.weighed(o, next)
        } else if ws[0] == "evalhce".spec_bytes() {
            self.weighed_by_hand(o, next)
        } else if ws[0] == "d".spec_bytes() {
            self.only_said(o, board::board_text(o.pos)) && next == Next::Again
        } else if ws[0] == "quit".spec_bytes() {
            self == o && next == Next::Quit
        } else {
            self == o && next == Next::Again
        }
    }

    fn dump_header(&mut self)
        requires
            old(self).wf(),
        ensures
            final(self).author == old(self).author,
            final(self).out.said == old(self).out.said,
            final(self).wf(),
            final(self).only_said(*old(self), "SBF2".spec_bytes() + le16(934) + le16(96)),
    {
        let ghost o = self.out@;
        self.out.say("SBF2");
        put16(&mut self.out, net::IN);
        put16(&mut self.out, net::MAX_F);
        proof {
            let (a, b, c) = ("SBF2".spec_bytes(), le16(934), le16(96));
            assert(o + a + b + c =~= o + (a + b + c));
        }
    }

    /// Obey one line of the protocol.
    pub fn command<H: Host>(&mut self, line: &[u8], host: &mut H) -> (next: Next)
        requires
            old(self).wf(),
        ensures
            final(self).author == old(self).author,
            io::carried(
                old(self).out.said@,
                final(self).out.said@,
                old(host).shown(),
                final(host).shown(),
            ),
            final(self).wf(),
            final(self).obeyed(
                *old(self),
                text::words(line@, 0),
                next,
                old(host).heard(),
                final(host).heard(),
            ),
    {
        let mut tok = Tokens::new(line);
        let ghost ws = tok@;
        let cmd = match tok.next() {
            Some(c) => c,
            None => {
                return Next::Again;
            },
        };
        if same(cmd, "uci".as_bytes()) {
            say_uci(self.author, &mut self.out, host);
            Next::Again
        } else if same(cmd, "isready".as_bytes()) {
            say_line("readyok", &mut self.out, host);
            Next::Again
        } else if same(cmd, "ucinewgame".as_bytes()) {
            self.new_game();
            Next::Again
        } else if same(cmd, "setoption".as_bytes()) {
            self.set_option(&mut tok);
            Next::Again
        } else if same(cmd, "position".as_bytes()) {
            self.position(&mut tok)
        } else if same(cmd, "go".as_bytes()) {
            self.go(&mut tok, host)
        } else {
            self.other_command(cmd, &mut tok, host, Ghost(ws))
        }
    }

    /// The commands for testing and training.
    fn other_command<H: Host>(
        &mut self,
        cmd: &[u8],
        tok: &mut Tokens,
        host: &mut H,
        Ghost(ws): Ghost<Seq<Seq<u8>>>,
    ) -> (next: Next)
        requires
            old(self).wf(),
            old(tok).wf(),
            ws.len() > 0,
            cmd@ == ws[0],
            old(tok)@ == ws.skip(1),
            ws[0] != "uci".spec_bytes(),
            ws[0] != "isready".spec_bytes(),
            ws[0] != "ucinewgame".spec_bytes(),
            ws[0] != "setoption".spec_bytes(),
            ws[0] != "position".spec_bytes(),
            ws[0] != "go".spec_bytes(),
        ensures
            final(self).author == old(self).author,
            io::carried(
                old(self).out.said@,
                final(self).out.said@,
                old(host).shown(),
                final(host).shown(),
            ),
            final(self).wf(),
            final(self).obeyed(*old(self), ws, next, old(host).heard(), final(host).heard()),
    {
        if same(cmd, "perft".as_bytes()) {
            let d = to_i32(number(tok, 1));
            self.divide(d, host)
        } else if same(cmd, "datagen".as_bytes()) {
            let target = number(tok, 100_000);
            let n = number(tok, 5000);
            let seed = number(tok, 1);
            self.resize(8);
            Next::Datagen {
                target,
                nodes: if n < 100 {
                    100
                } else {
                    n
                },
                seed,
            }
        } else if same(cmd, "relabel".as_bytes()) {
            let n = number(tok, 6000);
            self.resize(8);
            let ghost s1 = self.s@;
            self.s.silent = true;
            proof {
                assert(self.s@ =~= s1);
            }
            Next::Relabel {
                nodes: if n < 100 {
                    100
                } else {
                    n
                },
            }
        } else if same(cmd, "featdump".as_bytes()) {
            self.dump_header();
            Next::Featdump
        } else if same(cmd, "bench".as_bytes()) {
            let d = to_i32(number(tok, 12));
            self.bench(
                if d < 1 {
                    1
                } else {
                    d
                },
                host,
            );
            Next::Again
        } else if same(cmd, "eval".as_bytes()) {
            self.weigh(host)
        } else if same(cmd, "evalhce".as_bytes()) {
            self.weigh_by_hand(host)
        } else if same(cmd, "d".as_bytes()) {
            print_board(&self.pos, &mut self.out, host);
            Next::Again
        } else if same(cmd, "quit".as_bytes()) {
            Next::Quit
        } else {
            Next::Again
        }
    }

    /// The lines of a bulk command are over.
    pub fn end_bulk<H: Host>(&mut self, host: &mut H)
        requires
            old(self).wf(),
        ensures
            final(self).author == old(self).author,
            final(host).heard() == old(host).heard(),
            io::carried(
                old(self).out.said@,
                final(self).out.said@,
                old(host).shown(),
                final(host).shown(),
            ),
            final(self).wf(),
            final(self).s == (Searcher { silent: false, ..old(self).s }),
            final(self).pos == old(self).pos,
            final(self).out@ == old(self).out@,
            final(self).out.buf@.len() == 0,
    {
        self.s.silent = false;
        self.out.flush(host);
        proof {
            assert(self.s@ =~= old(self).s@);
        }
    }
}

fn fit(mb: usize) -> (r: usize)
    ensures
        r == fitting(mb as int),
        r * 1_048_576 <= isize::MAX,
{
    let most = isize::MAX as usize / 1_048_576;
    if mb < most {
        mb
    } else {
        most
    }
}

} // verus!
