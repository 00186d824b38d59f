//! Iterative deepening: searching a position until the budget is spent.

use vstd::prelude::*;
use vstd::string::*;
use crate::clock;
use crate::clock::total_nodes;
use crate::eval;
use crate::eval::{INF, MATE, MATE_IN_MAX};
use crate::geom;
use crate::host;
use crate::host::{Heard, Host};
use crate::io;
use crate::io::Out;
use crate::mind;
use crate::mind::{clamp_i32, scale_ms, Limits, Node, Searcher, World, MAX_DEPTH};
use crate::movegen;
use crate::movegen::{generate, GenKind, MoveList};
use crate::moves::Move;
use crate::pos::Position;
use crate::quiet;
use crate::rules;
use crate::tables::Tables;
use crate::tally;
use crate::tree;

verus! {

broadcast use {crate::host::group_heard, crate::io::group_carried, crate::tt::group_led};

// ---------------------------------------------------------------------------
// What deepening computes
// ---------------------------------------------------------------------------

/// No window is ever wider than this.
pub const WIDEST: i32 = 100_000;

/// The half-width a window starts with.
pub open spec fn opening(score: int) -> int {
    clock::min(10 + score * score / 12_000, 100_000)
}

/// The half-width after a fail.
pub open spec fn grown(delta: int) -> int {
    clock::min(delta + delta / 3, 100_000)
}

/// The window of an iteration.
pub open spec fn window(depth: int, score: int) -> (int, int) {
    if depth < 4 {
        (-32_500, 32_500)
    } else {
        (
            mind::clamp(score - opening(score), -32_500, 32_500),
            mind::clamp(score + opening(score), -32_500, 32_500),
        )
    }
}

/// Search the root, opening the window on the side it failed on until the score
/// lies inside.
pub open spec fn aspire(
    w: World,
    p: Position,
    depth: int,
    cur: int,
    alpha: int,
    beta: int,
    delta: int,
) -> (World, int)
    decreases alpha + 32_500, 32_500 - beta,
{
    let (w1, v) = tree::nega(w, p, cur, alpha, beta, 0, false, true, Move(0));
    if v <= alpha && alpha > -32_500 && delta > 0 {
        // The position is worse than assumed and needs the full effort again.
        aspire(
            w1,
            p,
            depth,
            depth,
            clock::max(v - delta, -32_500),
            eval::quot(alpha + beta, 2),
            grown(delta),
        )
    } else if v > alpha && v >= beta && beta < 32_500 && delta > 0 {
        // A fail high usually means the move is simply good; a slightly
        // shallower verification is enough.
        aspire(
            w1,
            p,
            depth,
            if cur > 1 && geom::abs(v) < 31_872 {
                cur - 1
            } else {
                cur
            },
            alpha,
            clock::min(v + delta, 32_500),
            grown(delta),
        )
    } else {
        (w1, v)
    }
}

/// Every search of an iteration is part of it, and visits at least one node.
proof fn lemma_aspire(w: World, p: Position, depth: int, cur: int, alpha: int, beta: int, delta: int)
    requires
        w.threads <= 1,
    ensures
        tally::on(w, aspire(w, p, depth, cur, alpha, beta, delta).0),
        tally::on(
            tree::nega(w, p, cur, alpha, beta, 0, false, true, Move(0)).0,
            aspire(w, p, depth, cur, alpha, beta, delta).0,
        ),
    decreases alpha + 32_500, 32_500 - beta,
{
    tally::lemma_nega(w, p, cur, alpha, beta, 0, false, true, Move(0));
    let (w1, v) = tree::nega(w, p, cur, alpha, beta, 0, false, true, Move(0));
    if v <= alpha && alpha > -32_500 && delta > 0 {
        lemma_aspire(
            w1,
            p,
            depth,
            depth,
            clock::max(v - delta, -32_500),
            eval::quot(alpha + beta, 2),
            grown(delta),
        );
    } else if v > alpha && v >= beta && beta < 32_500 && delta > 0 {
        lemma_aspire(
            w1,
            p,
            depth,
            if cur > 1 && geom::abs(v) < 31_872 {
                cur - 1
            } else {
                cur
            },
            alpha,
            clock::min(v + delta, 32_500),
            grown(delta),
        );
    }
}

/// One iteration after another that scored `score`.
pub open spec fn tree_score(w: World, p: Position, depth: int, score: int) -> (World, int) {
    let (a, b) = window(depth, score);
    aspire(w, p, depth, depth, a, b, opening(score))
}

/// Where deepening stands.
pub struct Deep {
    pub w: World,
    pub score: int,
    pub best: Move,
}

/// The state after `k` finished iterations from depth `first` on.
pub open spec fn deepened(w: World, p: Position, best: Move, first: int, k: nat) -> Deep
    decreases k,
{
    if k == 0 {
        Deep { w, score: 0, best }
    } else {
        let d = deepened(w, p, best, first, (k - 1) as nat);
        let depth = first + k - 1;
        let (w1, v) = tree_score(d.w, p, depth, d.score);
        Deep {
            w: w1,
            score: v,
            best: if w1.pv_len[0] > 0 {
                w1.pv[0]
            } else {
                d.best
            },
        }
    }
}

/// Every iteration is part of those that come after it.
pub proof fn lemma_deepened(w: World, p: Position, best: Move, first: int, j: nat, k: nat)
    requires
        w.threads <= 1,
        j <= k,
    ensures
        tally::on(w, deepened(w, p, best, first, k).w),
        tally::on(deepened(w, p, best, first, j).w, deepened(w, p, best, first, k).w),
    decreases k,
{
    if k > 0 {
        let i = (k - 1) as nat;
        if j < k {
            lemma_deepened(w, p, best, first, j, i);
        } else {
            lemma_deepened(w, p, best, first, i, i);
        }
        let d = deepened(w, p, best, first, i);
        let (a, b) = window(first + i, d.score);
        lemma_aspire(d.w, p, first + i, first + i, a, b, opening(d.score));
    }
}

impl World {
    /// A search begins: nothing counted, nothing on the line.
    #[verifier::opaque]
    pub open spec fn started(self) -> World {
        World {
            nodes: 0,
            stack: Seq::new(
                self.stack.len(),
                |i: int| Node { mv: Move(0), piece_to: 0, ..self.stack[i] },
            ),
            table: if self.id == 0 {
                crate::tt::Table { gen: ((self.table.gen + 1) % 64) as u8, ..self.table }
            } else {
                self.table
            },
            ..self
        }
    }
}

// ---------------------------------------------------------------------------
// What is said about it
// ---------------------------------------------------------------------------

/// The first `n` moves of the root's line.
pub open spec fn line_text(w: World, n: nat) -> Seq<u8>
    decreases n,
{
    if n == 0 {
        Seq::empty()
    } else {
        line_text(w, (n - 1) as nat).push(32) + io::move_text(w.pv[n - 1])
    }
}

/// A mate is counted in moves, everything else in centipawns.
pub open spec fn score_text(score: int) -> Seq<u8> {
    if geom::abs(score) >= 31_872 {
        let moves = eval::quot(32_001 - geom::abs(score), 2);
        " score mate ".spec_bytes() + io::signed_digits(
            if score > 0 {
                moves
            } else {
                -moves
            },
        )
    } else {
        " score cp ".spec_bytes() + io::signed_digits(score)
    }
}

/// The nodes a report counts.
pub open spec fn node_count(w: World) -> int {
    if w.threads > 1 {
        clock::max(w.node_total(w.threads as int), w.nodes as int)
    } else {
        w.nodes as int
    }
}

/// The report on a finished iteration, `ms` milliseconds into the search.
pub open spec fn report_text(w: World, depth: int, score: int, ms: u64) -> Seq<u8> {
    let nodes = node_count(w);
    ("info depth ".spec_bytes() + io::digits(depth as nat) + " seldepth ".spec_bytes() + io::digits(
        w.seldepth as nat,
    ) + score_text(score) + " nodes ".spec_bytes() + io::digits(nodes as nat)
        + " nps ".spec_bytes() + io::digits(
        (clock::cut64(nodes * 1000) / clock::max(ms as int, 1)) as nat,
    ) + " hashfull ".spec_bytes() + io::digits(w.table.full() as nat) + " time ".spec_bytes()
        + io::digits(ms as nat) + " pv".spec_bytes() + line_text(w, w.pv_len[0] as nat)).push(10)
}

/// The reports on the first `k` iterations, with the times they were made.
pub open spec fn log(w: World, p: Position, best: Move, first: int, times: Seq<u64>, k: nat) -> Seq<u8>
    decreases k,
{
    if k == 0 {
        Seq::empty()
    } else {
        let d = deepened(w, p, best, first, k);
        log(w, p, best, first, times, (k - 1) as nat) + report_text(
            d.w,
            first + k - 1,
            d.score,
            times[k - 1],
        )
    }
}

pub open spec fn bestmove_text(m: Move) -> Seq<u8> {
    ("bestmove ".spec_bytes() + io::move_text(m)).push(10)
}

proof fn lemma_tail(o: Seq<u8>, x: Seq<u8>, y: Seq<u8>)
    ensures
        o + x + y == o + (x + y),
{
    assert(o + x + y =~= o + (x + y));
}

/// Write a score.
fn say_score(out: &mut Out, score: i32)
    requires
        -10_000_000 <= score <= 10_000_000,
    ensures
        final(out).said == old(out).said,
        final(out)@ == old(out)@ + score_text(score as int),
{
    let ghost o = out@;
    let size = if score < 0 {
        -score
    } else {
        score
    };
    if size >= MATE_IN_MAX {
        let half = (MATE - size + 1) / 2;
        let moves = if score > 0 {
            half as i64
        } else {
            -(half as i64)
        };
        out.say(" score mate ");
        out.i(moves);
        proof {
            lemma_tail(o, " score mate ".spec_bytes(), io::signed_digits(moves as int));
        }
    } else {
        out.say(" score cp ");
        out.i(score as i64);
        proof {
            lemma_tail(o, " score cp ".spec_bytes(), io::signed_digits(score as int));
        }
    }
}

impl Searcher {
    /// The nodes a report counts.
    fn node_count(&self) -> (r: u64)
        requires
            self.wf(),
        ensures
            r == node_count(self@),
    {
        if self.threads > 1 {
            let all = total_nodes(self, self.threads);
            if all < self.nodes {
                self.nodes
            } else {
                all
            }
        } else {
            self.nodes
        }
    }

    /// Write the root's line.
    fn say_line(&self, out: &mut Out)
        requires
            self.wf(),
        ensures
            final(out).said == old(out).said,
            final(out)@ == old(out)@ + line_text(self@, self.pv_len@[0] as nat),
    {
        let ghost o = out@;
        let n = self.pv_len[0];
        let mut i: usize = 0;
        proof {
            assert(o + line_text(self@, 0) =~= o);
        }
        while i < n
            invariant
                out.said == old(out).said,
                self.wf(),
                i <= n <= 128,
                out@ == o + line_text(self@, i as nat),
            decreases n - i,
        {
            let ghost x = line_text(self@, i as nat);
            let m = self.pv[i];
            out.c(32);
            out.mv(m);
            proof {
                assert((o + x).push(32) =~= o + x.push(32));
                lemma_tail(o, x.push(32), io::move_text(m));
            }
            i = i + 1;
        }
    }

    /// Report on a finished iteration.
    #[verifier::rlimit(60)]
    fn report<H: Host>(&self, depth: i32, score: i32, ms: u64, out: &mut Out, host: &mut H)
        requires
            self.wf(),
            0 <= depth,
            -10_000_000 <= score <= 10_000_000,
        ensures
            final(host).heard() == old(host).heard(),
            io::carried(
                old(out).said@,
                final(out).said@,
                old(host).shown(),
                final(host).shown(),
            ),
            final(out)@ == old(out)@ + report_text(self@, depth as int, score as int, ms),
            final(out).buf@.len() == 0,
    {
        let ghost o = out@;
        let ghost mut x = "info depth ".spec_bytes();
        out.say("info depth ");
        out.u(depth as u64);
        proof {
            let y = io::digits(depth as nat);
            lemma_tail(o, x, y);
            x = x + y;
        }
        out.say(" seldepth ");
        proof {
            let y = " seldepth ".spec_bytes();
            lemma_tail(o, x, y);
            x = x + y;
        }
        out.u(self.seldepth as u64);
        proof {
            let y = io::digits(self.seldepth as nat);
            lemma_tail(o, x, y);
            x = x + y;
        }
        say_score(out, score);
        proof {
            let y = score_text(score as int);
            lemma_tail(o, x, y);
            x = x + y;
        }
        let nodes = self.node_count();
        out.say(" nodes ");
        proof {
            let y = " nodes ".spec_bytes();
            lemma_tail(o, x, y);
            x = x + y;
        }
        out.u(nodes);
        proof {
            let y = io::digits(nodes as nat);
            lemma_tail(o, x, y);
            x = x + y;
        }
        let span = if ms < 1 {
            1
        } else {
            ms
        };
        let speed = nodes.wrapping_mul(1000) / span;
        assert(speed == clock::cut64(nodes * 1000) / clock::max(ms as int, 1));
        out.say(" nps ");
        proof {
            let y = " nps ".spec_bytes();
            lemma_tail(o, x, y);
            x = x + y;
        }
        out.u(speed);
        proof {
            let y = io::digits(speed as nat);
            lemma_tail(o, x, y);
            x = x + y;
        }
        out.say(" hashfull ");
        proof {
            let y = " hashfull ".spec_bytes();
            lemma_tail(o, x, y);
            x = x + y;
        }
        let full = self.tt.hashfull() as u64;
        out.u(full);
        proof {
            let y = io::digits(full as nat);
            lemma_tail(o, x, y);
            x = x + y;
        }
        out.say(" time ");
        proof {
            let y = " time ".spec_bytes();
            lemma_tail(o, x, y);
            x = x + y;
        }
        out.u(ms);
        proof {
            let y = io::digits(ms as nat);
            lemma_tail(o, x, y);
            x = x + y;
        }
        out.say(" pv");
        proof {
            let y = " pv".spec_bytes();
            lemma_tail(o, x, y);
            x = x + y;
        }
        self.say_line(out);
        proof {
            let y = line_text(self@, self.pv_len@[0] as nat);
            lemma_tail(o, x, y);
            x = x + y;
        }
        out.nl(host);
        proof {
            assert((o + x).push(10) =~= o + x.push(10));
        }
    }

    /// A search begins.
    fn begin(&mut self)
        requires
            old(self).wf(),
        ensures
            final(self).wf(),
            final(self)@ == old(self)@.started(),
            final(self).steady(Searcher { nodes: 0, tt: final(self).tt, ..*old(self) }),
            final(self).kept(*old(self)),
    {
        self.nodes = 0;
        if self.id == 0 {
            self.tt.new_search();
        }
        let ghost table = self.tt;
        let mut i: usize = 0;
        while i < 136
            invariant
                i <= 136,
                self.nodes == 0,
                self.tt == table,
                old(self).stack@.len() == 136,
                self.stack@.len() == 136,
                *self == (Searcher {
                    nodes: self.nodes,
                    tt: self.tt,
                    stack: self.stack,
                    ..*old(self)
                }),
                forall|j: int|
                    0 <= j < 136 ==> #[trigger] self.stack@[j] == if j < i {
                        (Node { mv: Move(0), piece_to: 0, ..old(self).stack@[j] })
                    } else {
                        old(self).stack@[j]
                    },
            decreases 136 - i,
        {
            let n = self.stack[i];
            self.stack.set(i, Node { mv: Move::null(), piece_to: 0, eval: n.eval });
            i = i + 1;
        }
        proof {
            reveal(World::started);
            assert(self@.stack =~= old(self)@.started().stack);
            assert(self@ =~= old(self)@.started());
        }
    }

    /// One iteration: the score of the root at `depth`.
    fn iterate<H: Host>(
        &mut self,
        pos: &mut Position,
        t: &Tables,
        host: &mut H,
        depth: i32,
        score: i32,
    ) -> (r: i32)
        requires
            old(self).wf(),
            !old(self).stop,
            quiet::ready(*old(pos), 0),
            1 <= depth <= 100,
            -10_000_000 <= score <= 10_000_000,
        ensures
            final(host).shown() == old(host).shown(),
            final(self).minded(*old(self), old(host).heard(), final(host).heard()),
            final(self).went(*old(self)),
            !final(self).stop ==> final(self).held(*old(pos), 0),
            *final(pos) == *old(pos),
            -10_000_000 <= r <= 10_000_000,
            !final(self).stop ==> (final(self)@, r as int) == tree_score(
                old(self)@,
                *old(pos),
                depth as int,
                score as int,
            ),
            final(self).cut_short(
                *old(self),
                tree_score(old(self)@, *old(pos), depth as int, score as int).0,
            ),
    {
        let ghost goal = tree_score(self@, *pos, depth as int, score as int);
        let ghost p = *pos;
        assert(0 <= score * score <= 100_000_000_000_000) by (nonlinear_arith)
            requires
                -10_000_000 <= score <= 10_000_000,
        ;
        let square = score as i64 * score as i64;
        let wide = 10 + square / 12_000;
        let mut delta: i32 = if wide < WIDEST as i64 {
            wide as i32
        } else {
            WIDEST
        };
        let (mut alpha, mut beta) = if depth < 4 {
            (-INF, INF)
        } else {
            (clamp_i32(score - delta, -INF, INF), clamp_i32(score + delta, -INF, INF))
        };
        let mut cur = depth;
        loop
            invariant
                host.shown() == old(host).shown(),
                self.minded(*old(self), old(host).heard(), host.heard()),
                self.went(*old(self)),
                !self.stop,
                *pos == p,
                *old(pos) == p,
                quiet::ready(p, 0),
                1 <= depth <= 100,
                1 <= cur <= depth,
                10 <= delta <= 100_000,
                -32_500 <= alpha <= 32_500,
                -32_500 <= beta <= 32_500,
                goal == aspire(
                    self@,
                    p,
                    depth as int,
                    cur as int,
                    alpha as int,
                    beta as int,
                    delta as int,
                ),
                goal == tree_score(old(self)@, p, depth as int, score as int),
            decreases alpha + 32_500, 32_500 - beta,
        {
            proof {
                if old(self).left_alone() {
                    lemma_aspire(
                        self@,
                        p,
                        depth as int,
                        cur as int,
                        alpha as int,
                        beta as int,
                        delta as int,
                    );
                }
            }
            let v = self.negamax(pos, t, host, cur, alpha, beta, 0, false, true, Move::null());
            if self.stop {
                return 0;
            }
            if v <= alpha && alpha > -INF {
                beta = (alpha + beta) / 2;
                alpha = if v - delta > -INF {
                    v - delta
                } else {
                    -INF
                };
                cur = depth;
            } else if v > alpha && v >= beta && beta < INF {
                beta = if v + delta < INF {
                    v + delta
                } else {
                    INF
                };
                if cur > 1 && -MATE_IN_MAX < v && v < MATE_IN_MAX {
                    cur = cur - 1;
                }
            } else {
                return v;
            }
            delta = if delta + delta / 3 < WIDEST {
                delta + delta / 3
            } else {
                WIDEST
            };
        }
    }
}

// ---------------------------------------------------------------------------
// Deepening
// ---------------------------------------------------------------------------

/// Time is spent where the answer is still in doubt. A root move that has
/// survived several iterations rarely changes on the next one, so the soft
/// budget shrinks as it settles and stretches while it flaps.
pub const STABILITY: [u64; 7] = [1500, 1300, 1150, 1050, 1000, 950, 900];

/// A score that just fell is a score that is still moving; buy time to find out
/// where it lands, up to half as much again.
pub open spec fn fall(depth: int, before: int, score: int) -> int {
    if depth == 1 {
        1000
    } else {
        1000 + mind::clamp(before - score, 0, 200) * 5 / 2
    }
}

/// How often in a row the best move was found again by the `k`-th iteration, as
/// far as it is counted.
pub open spec fn settled(w: World, p: Position, best: Move, first: int, k: nat) -> int
    decreases k,
{
    if k == 0 {
        0
    } else {
        let before = if k == 1 {
            Move(0)
        } else {
            deepened(w, p, best, first, (k - 1) as nat).best
        };
        if deepened(w, p, best, first, k).best == before {
            clock::min(settled(w, p, best, first, (k - 1) as nat) + 1, 6)
        } else {
            0
        }
    }
}

/// The soft budget after an iteration.
pub open spec fn patience(soft: u64, stability: int, fall: int) -> int {
    mind::scaled_ms(mind::scaled_ms(soft, STABILITY@[stability]) as u64, fall as u64)
}

/// The next iteration would not fit: it costs roughly half as much again as the
/// last one did.
pub open spec fn late(limits: Limits, soft: u64, spent: u64, stability: int, fall: int) -> bool {
    let room = patience(soft, stability, fall);
    ||| !limits.infinite && limits.movetime == 0 && room != u64::MAX && spent * 3 / 2 >= room
    ||| limits.movetime > 0 && spent >= soft
}

/// From one iteration's end, when `a` had been heard, to the next, when `b` had:
/// nothing gave a reason to stop, and the clock was read `ms` milliseconds in.
pub open spec fn lap(start: u64, hard: u64, a: Seq<Heard>, b: Seq<Heard>, ms: u64) -> bool {
    &&& b.len() > 0
    &&& b.last() matches Heard::Time(now) && ms == clock::less(now as int, start as int)
    &&& host::undisturbed(start, hard, a, b.drop_last())
}

/// `laps` is what had been heard after each iteration of a search that began when
/// `a` had been; the iterations ended `times` milliseconds in.
#[verifier::opaque]
pub open spec fn paced(
    start: u64,
    hard: u64,
    a: Seq<Heard>,
    times: Seq<u64>,
    laps: Seq<Seq<Heard>>,
) -> bool {
    &&& laps.len() == times.len() + 1
    &&& laps[0] == a
    &&& forall|j: int|
        0 <= j < times.len() ==> lap(start, hard, laps[j], laps[j + 1], #[trigger] times[j])
}

/// One more iteration.
proof fn lemma_paced(
    start: u64,
    hard: u64,
    a: Seq<Heard>,
    times: Seq<u64>,
    laps: Seq<Seq<Heard>>,
    ms: u64,
    b: Seq<Heard>,
)
    requires
        paced(start, hard, a, times, laps),
        lap(start, hard, laps.last(), b, ms),
    ensures
        paced(start, hard, a, times.push(ms), laps.push(b)),
{
    reveal(paced);
    let (t, l) = (times.push(ms), laps.push(b));
    assert forall|j: int| 0 <= j < t.len() implies lap(start, hard, l[j], l[j + 1], #[trigger] t[j]) by {
        if j < times.len() {
            assert(t[j] == times[j]);
            assert(l[j] == laps[j] && l[j + 1] == laps[j + 1]);
        } else {
            assert(l[j] == laps.last() && l[j + 1] == b && t[j] == ms);
        }
    }
}

/// A search of `p` that began as `o`, when `a` had been heard, ended as `n`, when
/// `b` had been, and wrote `after` where only `before` had been written.
pub open spec fn searched(
    o: Searcher,
    n: Searcher,
    p: Position,
    before: Seq<u8>,
    after: Seq<u8>,
    a: Seq<Heard>,
    b: Seq<Heard>,
) -> bool {
    let l = movegen::move_list(p, GenKind::All);
    &&& n.lasting(o)
    &&& if l.len() == 0 {
        &&& b == a.push(Heard::Time(n.start))
        &&& n.best == Move(0)
        &&& n.best_score == 0
        &&& n@ == o@.started()
        &&& after == if o.silent {
            before
        } else {
            (before + "bestmove 0000".spec_bytes()).push(10)
        }
    } else {
        &&& rules::legal(p, n.best)
        &&& exists|k: nat, times: Seq<u64>, laps: Seq<Seq<Heard>>|
            {
                &&& #[trigger] n.concluded(o, p, k, times)
                &&& #[trigger] paced(n.start, n.hard, a.push(Heard::Time(n.start)), times, laps)
                &&& n.left_off(o, laps.last(), b)
                &&& after == if o.silent {
                    before
                } else {
                    before + log(o@.started(), p, l[0], o.first_depth(), times, k) + bestmove_text(
                        n.best,
                    )
                }
            }
    }
}

impl Searcher {
    /// The first iteration of a search.
    pub open spec fn first_depth(self) -> int {
        if self.start_depth > 0 {
            clock::min(self.start_depth as int, self.last_depth())
        } else {
            1
        }
    }

    /// The last iteration of a search.
    pub open spec fn last_depth(self) -> int {
        clock::min(self.limits.depth as int, 100)
    }

    /// How many iterations a search has at most.
    pub open spec fn iterations(self) -> int {
        clock::max(self.last_depth() - self.first_depth() + 1, 0)
    }

    /// A search of `p` that began as this one is `spent` milliseconds in and has
    /// finished `k` iterations; another one is not worth starting. Only the main
    /// thread may act on this.
    #[verifier::opaque]
    pub open spec fn rests(self, p: Position, k: nat, spent: u64) -> bool {
        let w = self@.started();
        let b = movegen::move_list(p, GenKind::All)[0];
        let first = self.first_depth();
        let depth = first + k - 1;
        let d = deepened(w, p, b, first, k);
        let before = deepened(w, p, b, first, (k - 1) as nat).score;
        &&& self.id == 0
        &&& {
            ||| late(
                self.limits,
                clock::soft_budget(self.limits, p.stm as int, self.move_overhead) as u64,
                spent,
                settled(w, p, b, first, k),
                fall(depth, before, d.score),
            )
            ||| geom::abs(d.score) >= 31_872 && depth >= 4
        }
    }

    /// A search of `p` that began as this one did not rest after any of the
    /// iterations that ended `times` milliseconds in.
    #[verifier::opaque]
    pub open spec fn awake(self, p: Position, times: Seq<u64>) -> bool {
        forall|j: int| 0 <= j < times.len() ==> !#[trigger] self.rests(p, (j + 1) as nat, times[j])
    }

    proof fn lemma_awake(self, p: Position, times: Seq<u64>, ms: u64)
        requires
            self.awake(p, times),
        ensures
            times.push(ms).drop_last() == times,
            !self.rests(p, times.len() + 1, ms) ==> self.awake(p, times.push(ms)),
    {
        let more = times.push(ms);
        assert(more.drop_last() =~= times);
        if !self.rests(p, times.len() + 1, ms) {
            reveal(Searcher::awake);
            assert forall|j: int| 0 <= j < more.len() implies !#[trigger] self.rests(
                p,
                (j + 1) as nat,
                more[j],
            ) by {
                if j < times.len() {
                    assert(more[j] == times[j]);
                }
            }
        }
    }

    /// Given the time spent, is another iteration not worth starting?
    fn is_late(&self, spent: u64, stability: usize, fall: u64) -> (r: bool)
        requires
            stability < 7,
        ensures
            r == late(self.limits, self.soft, spent, stability as int, fall as int),
    {
        let soft = scale_ms(scale_ms(self.soft, STABILITY[stability]), fall);
        (!self.limits.infinite && self.limits.movetime == 0 && soft != u64::MAX && spent as u128 * 3
            / 2 >= soft as u128) || (self.limits.movetime > 0 && spent >= self.soft)
    }

    /// Is another iteration after the one at `depth` not worth starting?
    fn is_done(
        &self,
        spent: u64,
        depth: i32,
        stability: usize,
        before: i32,
        score: i32,
        Ghost(o): Ghost<Searcher>,
        Ghost(p): Ghost<Position>,
    ) -> (r: bool)
        requires
            self.same_orders(o),
            self.soft == clock::soft_budget(o.limits, p.stm as int, o.move_overhead),
            1 <= o.first_depth() <= depth,
            -10_000_000 <= before <= 10_000_000,
            -10_000_000 <= score <= 10_000_000,
            stability < 7,
            o.standing(p, (depth - o.first_depth() + 1) as nat, stability as int, before as int, score as int),
        ensures
            r == o.rests(p, (depth - o.first_depth() + 1) as nat, spent),
    {
        reveal(Searcher::rests);
        // Only the main thread may act on this.
        if self.id != 0 {
            return false;
        }
        let fall: u64 = if depth == 1 {
            1000
        } else {
            1000 + clamp_i32(before - score, 0, 200) as u64 * 5 / 2
        };
        self.is_late(spent, stability, fall) || ((score >= MATE_IN_MAX || score <= -MATE_IN_MAX)
            && depth >= 4)
    }

    /// What a search of `p` that began as this one knows after `k` iterations.
    pub open spec fn standing(self, p: Position, k: nat, stability: int, before: int, score: int) -> bool {
        let w = self@.started();
        let b = movegen::move_list(p, GenKind::All)[0];
        let first = self.first_depth();
        &&& stability == settled(w, p, b, first, k)
        &&& before == deepened(w, p, b, first, (k - 1) as nat).score
        &&& score == deepened(w, p, b, first, k).score
    }

    /// Nothing but its node budget can have stopped a search that began as `o`.
    pub open spec fn starved(self, o: Searcher) -> bool {
        o.threads <= 1 && !(o.id != 0 && o.stopping) && !self.timed() && !self.listens()
    }

    /// A search of `p` that began as `o` ended as this one, after `k` finished
    /// iterations that ended `times` milliseconds in. It rested as soon as
    /// another iteration was not worth starting, and otherwise went on to the
    /// last one, unless something stopped it on the way.
    pub open spec fn concluded(self, o: Searcher, p: Position, k: nat, times: Seq<u64>) -> bool {
        let d = deepened(
            o@.started(),
            p,
            movegen::move_list(p, GenKind::All)[0],
            o.first_depth(),
            k,
        );
        &&& times.len() == k
        &&& k <= o.iterations()
        &&& self.best == d.best
        &&& self.best_score == d.score
        &&& self.hard == clock::hard_budget(o.limits, p.stm as int, o.move_overhead)
        &&& o.threads <= 1 ==> d.w.nodes <= o.limits.nodes
        &&& if self.stop {
            &&& k < o.iterations()
            &&& o.awake(p, times)
            &&& o.id != 0 && o.stopping || self.timed() || self.listens() || self.over()
            &&& self.starved(o) ==> deepened(
                o@.started(),
                p,
                movegen::move_list(p, GenKind::All)[0],
                o.first_depth(),
                k + 1,
            ).w.nodes > o.limits.nodes
        } else {
            &&& self@ == d.w
            &&& k > 0 ==> o.awake(p, times.drop_last())
            &&& k < o.iterations() ==> k > 0 && o.rests(p, k, times[k - 1])
        }
    }

    /// A search that began as `o` had heard `a` after its last finished iteration
    /// and `b` in the end. Unless some answer gave it a reason, only an order or a
    /// spent budget stopped it.
    pub open spec fn left_off(self, o: Searcher, a: Seq<Heard>, b: Seq<Heard>) -> bool {
        if self.stop {
            &&& host::grew(a, b)
            &&& host::undisturbed(self.start, self.hard, a, b) ==> o.id != 0 && o.stopping
                || self.over()
        } else {
            b == a
        }
    }

    /// Whether it was stopped or not, a search that began as `o` never went over
    /// its node budget, did nothing to the table but store in it, and left the
    /// reductions and the network as they were.
    pub open spec fn lasting(self, o: Searcher) -> bool {
        &&& o.threads <= 1 ==> self.nodes <= o.limits.nodes
        &&& o@.started().table.led_to(self@.table)
        &&& self.lmr == o.lmr
        &&& self.net@.same_weights(o.net@)
    }

    /// What a search leaves as it was.
    pub open spec fn same_orders(self, o: Searcher) -> bool {
        &&& self.id == o.id
        &&& self.threads == o.threads
        &&& self.limits == o.limits
        &&& self.start_depth == o.start_depth
        &&& self.silent == o.silent
        &&& self.ignore_stdin == o.ignore_stdin
        &&& self.move_overhead == o.move_overhead
    }

    /// Search a position until the budget is spent. The best move found is left
    /// in `best`: a legal move, or none where there is none.
    pub fn go<H: Host>(&mut self, pos: &mut Position, t: &Tables, out: &mut Out, host: &mut H)
        requires
            old(self).wf(),
            old(pos).wf(),
            old(pos).hist_len <= 4096,
            old(self).start_depth <= 0 || old(self).limits.depth >= 1,
        ensures
            io::carried(
                old(out).said@,
                final(out).said@,
                old(host).shown(),
                final(host).shown(),
            ),
            final(self).wf(),
            final(self).same_orders(*old(self)),
            final(pos).wf(),
            final(pos).clean(),
            *final(pos) == (Position {
                ply: 0,
                stack: final(pos).stack,
                hist: final(pos).hist,
                ..*old(pos)
            }),
            forall|i: int|
                0 <= i < old(pos).hist_len ==> #[trigger] final(pos).hist@[i] == old(pos).hist@[i],
            searched(
                *old(self),
                *final(self),
                *final(pos),
                old(out)@,
                final(out)@,
                old(host).heard(),
                final(host).heard(),
            ),
    {
        self.stop = false;
        if self.id == 0 {
            self.stopping = false;
        }
        self.best = Move::null();
        self.best_score = 0;
        let now = host.now_ms();
        self.set_clocks(now, pos.stm);
        proof {
            assert(self@ =~= old(self)@);
        }
        self.begin();
        proof {
            assert(self.lasting(*old(self))) by {
                reveal(World::started);
            }
        }
        pos.settle();
        let ghost p = *pos;
        proof {
            lemma_settled(*old(pos), p);
        }
        // A legal move must exist before anything else; a mated root has none
        // and every later stage assumes one.
        let mut list = MoveList::new();
        generate(pos, t, &mut list, GenKind::All);
        if list.n == 0 {
            if !self.silent {
                out.say("bestmove 0000");
                out.nl(host);
            }
            return ;
        }
        self.best = list.mv[0];
        proof {
            reveal(quiet::ready);
            assert(movegen::move_list(p, GenKind::All).contains(self.best));
            crate::legal::law_generated_is_legal(p, self.best);
        }
        self.deepen(pos, t, out, host, Ghost(*old(self)));
        if !self.silent {
            let ghost o = out@;
            out.say("bestmove ");
            out.mv(self.best);
            out.nl(host);
            proof {
                lemma_tail(o, "bestmove ".spec_bytes(), io::move_text(self.best));
                assert((o + ("bestmove ".spec_bytes() + io::move_text(self.best))).push(10) =~= o
                    + bestmove_text(self.best));
            }
        }
    }

    /// The iterations of a search that has begun.
    fn deepen<H: Host>(
        &mut self,
        pos: &mut Position,
        t: &Tables,
        out: &mut Out,
        host: &mut H,
        Ghost(o): Ghost<Searcher>,
    )
        requires
            old(self).wf(),
            !old(self).stop,
            old(self)@ == o@.started(),
            old(self).same_orders(o),
            old(self).lasting(o),
            old(self).soft == clock::soft_budget(o.limits, old(pos).stm as int, o.move_overhead),
            old(self).hard == clock::hard_budget(o.limits, old(pos).stm as int, o.move_overhead),
            old(self).stopping ==> o.id != 0 && o.stopping,
            old(self).best == movegen::move_list(*old(pos), GenKind::All)[0],
            old(self).best_score == 0,
            rules::legal(*old(pos), old(self).best),
            quiet::ready(*old(pos), 0),
            o.start_depth <= 0 || o.limits.depth >= 1,
        ensures
            io::carried(
                old(out).said@,
                final(out).said@,
                old(host).shown(),
                final(host).shown(),
            ),
            final(self).wf(),
            final(self).same_orders(o),
            final(self).lasting(o),
            final(self).start == old(self).start,
            *final(pos) == *old(pos),
            rules::legal(*old(pos), final(self).best),
            exists|k: nat, times: Seq<u64>, laps: Seq<Seq<Heard>>|
                {
                    &&& #[trigger] final(self).concluded(o, *old(pos), k, times)
                    &&& #[trigger] paced(
                        final(self).start,
                        final(self).hard,
                        old(host).heard(),
                        times,
                        laps,
                    )
                    &&& final(self).left_off(o, laps.last(), final(host).heard())
                    &&& final(out)@ == if o.silent {
                        old(out)@
                    } else {
                        old(out)@ + log(
                            o@.started(),
                            *old(pos),
                            movegen::move_list(*old(pos), GenKind::All)[0],
                            o.first_depth(),
                            times,
                            k,
                        )
                    }
                },
    {
        let ghost p = *pos;
        let ghost w0 = o@.started();
        let ghost b0 = self.best;
        let ghost o0 = out@;
        let ghost mut times: Seq<u64> = Seq::empty();
        let ghost mut laps: Seq<Seq<Heard>> = seq![host.heard()];
        let max_depth = if self.limits.depth < MAX_DEPTH {
            self.limits.depth
        } else {
            MAX_DEPTH
        };
        let first = if self.start_depth > 0 {
            if self.start_depth < max_depth {
                self.start_depth
            } else {
                max_depth
            }
        } else {
            1
        };
        let mut stability: usize = 0;
        let mut prev_best = Move::null();
        let mut depth = first;
        proof {
            reveal(Searcher::awake);
            reveal(paced);
            assert(w0.nodes == 0) by {
                reveal(World::started);
            }
            assert(o0 + log(w0, p, b0, first as int, times, 0) =~= o0);
        }
        while depth <= max_depth
            invariant
                io::carried(old(out).said@, out.said@, old(host).shown(), host.shown()),
                self.reached(o, p, (depth - first) as nat),
                *pos == p,
                *old(pos) == p,
                quiet::ready(p, 0),
                w0 == o@.started(),
                b0 == movegen::move_list(p, GenKind::All)[0],
                first == o.first_depth(),
                max_depth == o.last_depth(),
                1 <= first <= depth <= 101,
                max_depth <= 100,
                depth <= max_depth + 1 || depth == first,
                stability < 7,
                times.len() == depth - first,
                o.awake(p, times),
                self.start == old(self).start,
                paced(self.start, self.hard, old(host).heard(), times, laps),
                laps.last() == host.heard(),
                stability == settled(w0, p, b0, first as int, (depth - first) as nat),
                prev_best == if depth == first {
                    Move(0)
                } else {
                    self.best
                },
                o0 == old(out)@,
                out@ == if o.silent {
                    o0
                } else {
                    o0 + log(w0, p, b0, first as int, times, (depth - first) as nat)
                },
            decreases max_depth + 1 - depth,
        {
            let ghost k = (depth - first) as nat;
            let before = self.best_score;
            let ms = self.advance(pos, t, out, host, depth, Ghost(o), Ghost(k));
            if self.stop {
                proof {
                    assert(self.concluded(o, p, k, times));
                }
                return ;
            }
            let ghost more = times.push(ms);
            proof {
                lemma_paced(self.start, self.hard, old(host).heard(), times, laps, ms, host.heard());
                laps = laps.push(host.heard());
                lemma_told(o0, w0, p, b0, first as int, times, ms);
            }
            if self.best == prev_best {
                if stability < 6 {
                    stability = stability + 1;
                }
            } else {
                stability = 0;
            }
            prev_best = self.best;
            let done = self.is_done(ms, depth, stability, before, self.best_score, Ghost(o), Ghost(p));
            proof {
                o.lemma_awake(p, times, ms);
            }
            if done {
                proof {
                    assert(self.concluded(o, p, k + 1, more));
                }
                return ;
            }
            proof {
                times = more;
            }
            depth = depth + 1;
        }
        proof {
            let k = (depth - first) as nat;
            assert(self.concluded(o, p, k, times));
        }
    }

    /// A search of `p` that began as `o` has finished `k` iterations.
    spec fn reached(self, o: Searcher, p: Position, k: nat) -> bool {
        &&& self.abides(o, p, k)
        &&& !self.stop
        &&& self.stopping ==> o.id != 0 && o.stopping
        &&& self@ == deepened(
            o@.started(),
            p,
            movegen::move_list(p, GenKind::All)[0],
            o.first_depth(),
            k,
        ).w
    }

    /// A search of `p` that began as `o` knows what `k` iterations found.
    spec fn abides(self, o: Searcher, p: Position, k: nat) -> bool {
        let d = deepened(
            o@.started(),
            p,
            movegen::move_list(p, GenKind::All)[0],
            o.first_depth(),
            k,
        );
        &&& self.wf()
        &&& self.same_orders(o)
        &&& self.soft == clock::soft_budget(o.limits, p.stm as int, o.move_overhead)
        &&& self.hard == clock::hard_budget(o.limits, p.stm as int, o.move_overhead)
        &&& rules::legal(p, self.best)
        &&& -10_000_000 <= self.best_score <= 10_000_000
        &&& self.best == d.best
        &&& self.best_score == d.score
        &&& o.threads <= 1 ==> d.w.nodes <= o.limits.nodes
        &&& self.lasting(o)
    }

    /// One more iteration, and the report on it. The time it ended is returned.
    fn advance<H: Host>(
        &mut self,
        pos: &mut Position,
        t: &Tables,
        out: &mut Out,
        host: &mut H,
        depth: i32,
        Ghost(o): Ghost<Searcher>,
        Ghost(k): Ghost<nat>,
    ) -> (ms: u64)
        requires
            old(self).reached(o, *old(pos), k),
            quiet::ready(*old(pos), 0),
            depth == o.first_depth() + k,
            1 <= depth <= 100,
        ensures
            io::carried(
                old(out).said@,
                final(out).said@,
                old(host).shown(),
                final(host).shown(),
            ),
            *final(pos) == *old(pos),
            final(self).start == old(self).start,
            final(self).stop ==> {
                &&& final(self).left_off(o, old(host).heard(), final(host).heard())
                &&& final(self).abides(o, *old(pos), k)
                &&& o.id != 0 && o.stopping || final(self).timed() || final(self).listens()
                    || final(self).over()
                &&& final(self).starved(o) ==> deepened(
                    o@.started(),
                    *old(pos),
                    movegen::move_list(*old(pos), GenKind::All)[0],
                    o.first_depth(),
                    k + 1,
                ).w.nodes > o.limits.nodes
                &&& final(out)@ == old(out)@
            },
            !final(self).stop ==> {
                &&& lap(
                    final(self).start,
                    final(self).hard,
                    old(host).heard(),
                    final(host).heard(),
                    ms,
                )
                &&& final(self).reached(o, *old(pos), k + 1)
                &&& final(out)@ == if o.silent {
                    old(out)@
                } else {
                    old(out)@ + report_text(
                        final(self)@,
                        depth as int,
                        final(self).best_score as int,
                        ms,
                    )
                }
            },
    {
        let score = self.iterate(pos, t, host, depth, self.best_score);
        if self.stop {
            return 0;
        }
        self.best_score = score;
        if self.pv_len[0] > 0 {
            self.best = self.pv[0];
            proof {
                reveal(quiet::fit);
            }
        }
        let ghost mid = host.heard();
        let now = host.now_ms();
        let ms = self.elapsed(now);
        proof {
            assert(host.heard().drop_last() =~= mid);
        }
        if !self.silent {
            self.report(depth, score, ms, out, host);
        }
        ms
    }
}

/// More times do not change the reports already made.
proof fn lemma_log(
    w: World,
    p: Position,
    best: Move,
    first: int,
    a: Seq<u64>,
    b: Seq<u64>,
    k: nat,
)
    requires
        a.len() >= k,
        b.len() >= k,
        forall|i: int| 0 <= i < k ==> a[i] == b[i],
    ensures
        log(w, p, best, first, a, k) == log(w, p, best, first, b, k),
    decreases k,
{
    if k > 0 {
        lemma_log(w, p, best, first, a, b, (k - 1) as nat);
    }
}

/// One more report.
proof fn lemma_told(
    before: Seq<u8>,
    w: World,
    p: Position,
    best: Move,
    first: int,
    times: Seq<u64>,
    ms: u64,
)
    ensures
        ({
            let k = times.len();
            let d = deepened(w, p, best, first, k + 1);
            before + log(w, p, best, first, times, k) + report_text(d.w, first + k, d.score, ms)
                == before + log(w, p, best, first, times.push(ms), k + 1)
        }),
{
    let k = times.len();
    let d = deepened(w, p, best, first, k + 1);
    let more = times.push(ms);
    lemma_log(w, p, best, first, times, more, k);
    lemma_tail(before, log(w, p, best, first, times, k), report_text(d.w, first + k, d.score, ms));
    assert(more[k as int] == ms);
}

/// A settled position is the same position.
proof fn lemma_settled(p: Position, q: Position)
    requires
        p.wf(),
        p.hist_len <= 4096,
        q.clean(),
        q == (Position { ply: 0, stack: q.stack, hist: q.hist, ..p }),
    ensures
        quiet::ready(q, 0),
        q.wf(),
{
    reveal(quiet::ready);
    assert(q.cells() =~= p.cells());
}

// ---------------------------------------------------------------------------
// Entry points
// ---------------------------------------------------------------------------

/// Forget everything that was learned. There is one search thread, whatever
/// number was asked for.
pub fn clear_all(s: &mut Searcher, threads: usize)
    requires
        old(s).wf(),
    ensures
        final(s).wf(),
        final(s)@.emptied(old(s)@),
        final(s).kept(*old(s)),
        final(s).steady(*old(s)),
{
    s.clear();
}

/// `m` is `o` about to search alone.
pub open spec fn manned(o: Searcher, m: Searcher) -> bool {
    &&& m@ == (World { threads: 1, published: o@.published.update(0, 0), ..o@ })
    &&& m.start_depth == 0
    &&& m.silent == o.silent
    &&& m.ignore_stdin == o.ignore_stdin
    &&& m.move_overhead == o.move_overhead
}

/// Run one search. There is one search thread, whatever number was asked for.
pub fn go_threaded<H: Host>(
    s: &mut Searcher,
    pos: &mut Position,
    t: &Tables,
    out: &mut Out,
    host: &mut H,
    threads: usize,
)
    requires
        old(s).wf(),
        old(pos).wf(),
        old(pos).hist_len <= 4096,
    ensures
        io::carried(
            old(out).said@,
            final(out).said@,
            old(host).shown(),
            final(host).shown(),
        ),
        final(s).wf(),
        final(pos).wf(),
        final(pos).clean(),
        *final(pos) == (Position {
            ply: 0,
            stack: final(pos).stack,
            hist: final(pos).hist,
            ..*old(pos)
        }),
        exists|m: Searcher|
            {
                &&& #[trigger] manned(*old(s), m)
                &&& searched(
                    m,
                    *final(s),
                    *final(pos),
                    old(out)@,
                    final(out)@,
                    old(host).heard(),
                    final(host).heard(),
                )
                &&& final(s).same_orders(m)
            },
{
    s.stopping = false;
    s.published.set(0, 0);
    s.threads = 1;
    s.start_depth = 0;
    proof {
        assert(s@ =~= (World { threads: 1, published: old(s)@.published.update(0, 0), ..old(s)@ }));
        assert(manned(*old(s), *s));
    }
    s.go(pos, t, out, host);
}

} // verus!
